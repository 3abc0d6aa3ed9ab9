//! The 5x5 key square: construction from a keyword and the positional
//! lookups the digraph rules use.
use crate::letters::{
    alphabet, alphabet_vec, canon, dedup, dedup_vec, is_letter, is_letter_char,
    lemma_alphabet_no_duplicates, lemma_dedup_contains, lemma_dedup_no_duplicates, to_canon,
};
use crate::CipherError;
use vstd::prelude::*;

verus! {

/// One cell of the key square: a column `x` and a row `y`, each in 1..=5,
/// and the letter that occupies the cell.
#[derive(Debug, Clone, Copy, PartialEq, Eq)]
pub struct Coordinate {
    pub x: usize,
    pub y: usize,
    pub content: char,
}

/// The key square: 25 cells in row-major order.
#[derive(Debug, PartialEq, Eq)]
pub struct KeyTable(pub Vec<Coordinate>);

/// The letters of the keyword in canonical form, everything that is not a
/// letter of the alphabet dropped, first to last.
pub open spec fn key_letters(s: Seq<char>) -> Seq<char>
    decreases s.len(),
{
    if s.len() == 0 {
        Seq::<char>::empty()
    } else {
        let p = key_letters(s.drop_last());
        let c = canon(s.last());
        if is_letter(c) {
            p.push(c)
        } else {
            p
        }
    }
}

/// The candidate stream the square is filled from: the cleaned keyword
/// followed by the whole alphabet.
pub open spec fn key_stream(s: Seq<char>) -> Seq<char> {
    key_letters(s) + alphabet()
}

/// The 25 letters of the square for a given keyword, row-major.
pub open spec fn grid_letters(s: Seq<char>) -> Seq<char> {
    dedup(key_stream(s))
}

/// A column or row index of the square.
pub open spec fn in_range(v: int) -> bool {
    1 <= v <= 5
}

/// The row-major cell index of column `x`, row `y`.
pub open spec fn cell_index(x: int, y: int) -> int {
    (y - 1) * 5 + (x - 1)
}

/// A valid grid content: 25 letters, each letter of the alphabet exactly once.
pub open spec fn wf_grid(g: Seq<char>) -> bool {
    &&& g.len() == 25
    &&& forall|i: int| 0 <= i < 25 ==> is_letter(#[trigger] g[i])
    &&& forall|i: int, j: int| 0 <= i < 25 && 0 <= j < 25 && i != j ==> g[i] != g[j]
    &&& forall|c: char| #[trigger] is_letter(c) ==> g.contains(c)
}

/// The letter of a valid grid at column `x`, row `y`.
pub open spec fn letter_at(g: Seq<char>, x: int, y: int) -> char {
    g[cell_index(x, y)]
}

/// The cell index of a letter in a valid grid.
pub open spec fn index_of(g: Seq<char>, c: char) -> int {
    choose|i: int| 0 <= i < 25 && g[i] == c
}

/// The column of a letter in a valid grid.
pub open spec fn col_of(g: Seq<char>, c: char) -> int {
    index_of(g, c) % 5 + 1
}

/// The row of a letter in a valid grid.
pub open spec fn row_of(g: Seq<char>, c: char) -> int {
    index_of(g, c) / 5 + 1
}

/// The next column or row in the shifting direction of encryption, wrapping
/// 5 back to 1.
pub open spec fn next_wrap(v: int) -> int {
    if v == 5 {
        1
    } else {
        v + 1
    }
}

/// The previous column or row, the shifting direction of decryption,
/// wrapping 1 back to 5.
pub open spec fn prev_wrap(v: int) -> int {
    if v == 1 {
        5
    } else {
        v - 1
    }
}

/// In a valid grid, every letter sits at the cell its column and row name,
/// and looking a letter up by content inverts looking it up by place.
pub proof fn lemma_grid_lookup(g: Seq<char>, x: int, y: int)
    requires
        wf_grid(g),
        in_range(x),
        in_range(y),
    ensures
        0 <= cell_index(x, y) < 25,
        is_letter(letter_at(g, x, y)),
        col_of(g, letter_at(g, x, y)) == x,
        row_of(g, letter_at(g, x, y)) == y,
{
    let i = cell_index(x, y);
    let c = g[i];
    assert(0 <= i < 25);
    assert(g[i] == c);
    let j = index_of(g, c);
    assert(0 <= j < 25 && g[j] == c);
    assert(j == i);
    assert(i % 5 == x - 1 && i / 5 == y - 1) by (nonlinear_arith)
        requires
            i == (y - 1) * 5 + (x - 1),
            1 <= x <= 5,
            1 <= y <= 5,
    ;
}

/// In a valid grid, the column and row of a letter are in range and name the
/// cell that holds the letter.
pub proof fn lemma_letter_place(g: Seq<char>, c: char)
    requires
        wf_grid(g),
        is_letter(c),
    ensures
        in_range(col_of(g, c)),
        in_range(row_of(g, c)),
        letter_at(g, col_of(g, c), row_of(g, c)) == c,
{
    assert(g.contains(c));
    let i0 = choose|i: int| 0 <= i < g.len() && g[i] == c;
    assert(0 <= i0 < 25 && g[i0] == c);
    let i = index_of(g, c);
    assert(0 <= i < 25 && g[i] == c);
    let x = i % 5 + 1;
    let y = i / 5 + 1;
    assert(1 <= x <= 5 && 1 <= y <= 5 && (y - 1) * 5 + (x - 1) == i) by (nonlinear_arith)
        requires
            0 <= i < 25,
            x == i % 5 + 1,
            y == i / 5 + 1,
    ;
}

/// The grid letters of any keyword form a valid grid: every letter of the
/// alphabet appears exactly once among the 25 cells.
pub proof fn lemma_grid_letters_wf(key: Seq<char>)
    ensures
        wf_grid(grid_letters(key)),
{
    let s = key_stream(key);
    let g = grid_letters(key);
    lemma_dedup_no_duplicates(s);
    lemma_key_letters_are_letters(key);
    assert forall|i: int| 0 <= i < g.len() implies is_letter(#[trigger] g[i]) by {
        lemma_dedup_contains(s, g[i]);
        assert(s.contains(g[i]));
        let j = choose|j: int| 0 <= j < s.len() && s[j] == g[i];
        if j < key_letters(key).len() {
            assert(key_letters(key)[j] == g[i]);
        } else {
            assert(alphabet()[j - key_letters(key).len()] == g[i]);
            assert(alphabet().contains(g[i]));
        }
    }
    assert forall|c: char| #[trigger] is_letter(c) implies g.contains(c) by {
        let j = choose|j: int| 0 <= j < alphabet().len() && alphabet()[j] == c;
        assert(s[key_letters(key).len() + j] == c);
        assert(s.contains(c));
        lemma_dedup_contains(s, c);
    }
    // Cardinality: g and the alphabet hold the same characters and neither
    // repeats one, so they have the same length.
    lemma_alphabet_no_duplicates();
    assert(g.to_set() =~= alphabet().to_set()) by {
        assert forall|c: char| g.to_set().contains(c) implies alphabet().to_set().contains(c) by {
            assert(g.contains(c));
            assert(is_letter(c));
        }
        assert forall|c: char| alphabet().to_set().contains(c) implies g.to_set().contains(c) by {
            assert(alphabet().contains(c));
            assert(is_letter(c));
            assert(g.contains(c));
        }
    }
    g.unique_seq_to_set();
    alphabet().unique_seq_to_set();
    assert(g.len() == 25);
    assert forall|i: int, j: int| 0 <= i < 25 && 0 <= j < 25 && i != j implies g[i] != g[j] by {
        if g[i] == g[j] {
            assert(!g.no_duplicates());
        }
    }
}

impl KeyTable {
    /// The letters of the square, row-major.
    pub open spec fn letters(self) -> Seq<char> {
        self.0@.map_values(|c: Coordinate| c.content)
    }

    /// A well-formed square: 25 cells laid out row-major, columns and rows
    /// in 1..=5, holding a valid grid of letters.
    pub open spec fn wf(self) -> bool {
        &&& self.0@.len() == 25
        &&& forall|i: int| 0 <= i < 25 ==> (#[trigger] self.0@[i]).x == i % 5 + 1
        &&& forall|i: int| 0 <= i < 25 ==> (#[trigger] self.0@[i]).y == i / 5 + 1
        &&& wf_grid(self.letters())
    }

    /// Build the square from a keyword: clean the keyword, append the
    /// alphabet, keep the first occurrence of each letter, and lay the 25
    /// letters out row by row.
    pub fn new(key: &str) -> (r: KeyTable)
        ensures
            r.wf(),
            r.letters() == grid_letters(key@),
    {
        let key_len = key.unicode_len();
        let mut stream: Vec<char> = Vec::new();
        let mut i: usize = 0;
        while i < key_len
            invariant
                0 <= i <= key_len,
                key_len == key@.len(),
                stream@ == key_letters(key@.take(i as int)),
            decreases key_len - i,
        {
            let c = to_canon(key.get_char(i));
            proof {
                assert(key@.take(i + 1 as int).drop_last() =~= key@.take(i as int));
                assert(key@.take(i + 1 as int).last() == key@[i as int]);
            }
            if is_letter_char(c) {
                stream.push(c);
            }
            i += 1;
        }
        proof {
            assert(key@.take(key@.len() as int) =~= key@);
        }
        let alpha = alphabet_vec();
        let ghost cleaned = stream@;
        let mut j: usize = 0;
        while j < alpha.len()
            invariant
                0 <= j <= alpha@.len(),
                alpha@ == alphabet(),
                stream@ == cleaned + alphabet().take(j as int),
            decreases alpha@.len() - j,
        {
            stream.push(alpha[j]);
            proof {
                assert(alphabet().take(j + 1 as int) =~= alphabet().take(j as int).push(
                    alphabet()[j as int],
                ));
                assert(cleaned + alphabet().take(j + 1 as int) =~= (cleaned + alphabet().take(
                    j as int,
                )).push(alphabet()[j as int]));
            }
            j += 1;
        }
        proof {
            assert(alphabet().take(alphabet().len() as int) =~= alphabet());
            assert(stream@ =~= key_stream(key@));
        }
        let letters = dedup_vec(&stream);
        proof {
            lemma_grid_letters_wf(key@);
        }
        let mut cells: Vec<Coordinate> = Vec::new();
        let mut k: usize = 0;
        while k < 25
            invariant
                0 <= k <= 25,
                letters@ == grid_letters(key@),
                wf_grid(letters@),
                cells@.len() == k,
                forall|i: int| 0 <= i < k ==> (#[trigger] cells@[i]).x == i % 5 + 1,
                forall|i: int| 0 <= i < k ==> (#[trigger] cells@[i]).y == i / 5 + 1,
                forall|i: int| 0 <= i < k ==> (#[trigger] cells@[i]).content == letters@[i],
            decreases 25 - k,
        {
            cells.push(
                Coordinate { x: k % 5 + 1, y: k / 5 + 1, content: letters[k] },
            );
            k += 1;
        }
        let r = KeyTable(cells);
        proof {
            assert(r.letters() =~= grid_letters(key@));
        }
        r
    }

    /// Look a letter up by content, as the digraph engine does for each
    /// character of its input; characters outside the alphabet are the one
    /// invalid input the cipher rejects.
    pub fn find_by_char(&self, ch: char) -> (r: Result<Coordinate, CipherError>)
        requires
            self.wf(),
        ensures
            match r {
                Ok(c) => {
                    &&& is_letter(ch)
                    &&& c.content == ch
                    &&& c.x == col_of(self.letters(), ch)
                    &&& c.y == row_of(self.letters(), ch)
                    &&& in_range(c.x as int)
                    &&& in_range(c.y as int)
                },
                Err(e) => !is_letter(ch) && e == CipherError::InvalidInput,
            },
    {
        let ghost g = self.letters();
        let mut i: usize = 0;
        while i < self.0.len()
            invariant
                self.wf(),
                g == self.letters(),
                0 <= i <= 25,
                forall|k: int| 0 <= k < i ==> g[k] != ch,
            decreases self.0@.len() - i,
        {
            if self.0[i].content == ch {
                proof {
                    assert(g[i as int] == ch);
                    assert(g.contains(ch));
                    assert(is_letter(ch)) by {
                        assert(is_letter(g[i as int]));
                    }
                    lemma_letter_place(g, ch);
                    let j = index_of(g, ch);
                    assert(g[j] == ch);
                    assert(j == i);
                }
                return Ok(self.0[i]);
            }
            i += 1;
        }
        proof {
            assert(!g.contains(ch));
        }
        Err(CipherError::InvalidInput)
    }

    /// The letter of the cell at column `x`, row `y`.
    fn letter_lookup(&self, x: usize, y: usize) -> (r: char)
        requires
            self.wf(),
            in_range(x as int),
            in_range(y as int),
        ensures
            r == letter_at(self.letters(), x as int, y as int),
    {
        let i = (y - 1) * 5 + (x - 1);
        self.0[i].content
    }

    /// Encryption of a digraph whose letters share a column: the letter one
    /// row below, wrapping the bottom row around to the top.
    pub fn get_by_enc_rule_same_row(&self, x: usize, y: usize) -> (r: char)
        requires
            self.wf(),
            in_range(x as int),
            in_range(y as int),
        ensures
            r == letter_at(self.letters(), x as int, next_wrap(y as int)),
    {
        self.letter_lookup(x, y % 5 + 1)
    }

    /// Decryption counterpart: the letter one row above, wrapping the top
    /// row around to the bottom.
    pub fn get_by_dec_rule_same_row(&self, x: usize, y: usize) -> (r: char)
        requires
            self.wf(),
            in_range(x as int),
            in_range(y as int),
        ensures
            r == letter_at(self.letters(), x as int, prev_wrap(y as int)),
    {
        let yy = if y == 1 {
            5
        } else {
            y - 1
        };
        self.letter_lookup(x, yy)
    }

    /// Encryption of a digraph whose letters share a row: the letter one
    /// column to the right, wrapping the last column around to the first.
    pub fn get_by_enc_rule_same_column(&self, x: usize, y: usize) -> (r: char)
        requires
            self.wf(),
            in_range(x as int),
            in_range(y as int),
        ensures
            r == letter_at(self.letters(), next_wrap(x as int), y as int),
    {
        self.letter_lookup(x % 5 + 1, y)
    }

    /// Decryption counterpart: the letter one column to the left, wrapping
    /// the first column around to the last.
    pub fn get_by_dec_rule_same_column(&self, x: usize, y: usize) -> (r: char)
        requires
            self.wf(),
            in_range(x as int),
            in_range(y as int),
        ensures
            r == letter_at(self.letters(), prev_wrap(x as int), y as int),
    {
        let xx = if x == 1 {
            5
        } else {
            x - 1
        };
        self.letter_lookup(xx, y)
    }

    /// The rectangle rule, identical for encryption and decryption: each
    /// letter is replaced by the letter in its own row at the other
    /// letter's column.
    pub fn get_by_rule_rectangle(&self, c1: &Coordinate, c2: &Coordinate) -> (r: (char, char))
        requires
            self.wf(),
            in_range(c1.x as int),
            in_range(c1.y as int),
            in_range(c2.x as int),
            in_range(c2.y as int),
        ensures
            r.0 == letter_at(self.letters(), c2.x as int, c1.y as int),
            r.1 == letter_at(self.letters(), c1.x as int, c2.y as int),
    {
        let l1 = self.letter_lookup(c2.x, c1.y);
        let l2 = self.letter_lookup(c1.x, c2.y);
        (l1, l2)
    }
}

/// One step forward and one step back along a row or column land on the
/// starting position, wrap-around at the boundary included.
pub proof fn lemma_wrap_round_trip(v: int)
    requires
        in_range(v),
    ensures
        prev_wrap(next_wrap(v)) == v,
        next_wrap(prev_wrap(v)) == v,
        in_range(next_wrap(v)),
        in_range(prev_wrap(v)),
{
}

/// Row-shift encryption and decryption are exact inverses at every grid
/// position: shifting a cell's letter one row down and the result one row
/// up returns the original letter, and the other way around.
pub proof fn lemma_row_shift_inverse(g: Seq<char>, x: int, y: int)
    requires
        wf_grid(g),
        in_range(x),
        in_range(y),
    ensures
        letter_at(g, x, prev_wrap(next_wrap(y))) == letter_at(g, x, y),
        letter_at(g, x, next_wrap(prev_wrap(y))) == letter_at(g, x, y),
{
    lemma_wrap_round_trip(y);
}

/// Column-shift encryption and decryption are exact inverses at every grid
/// position, wrap-around at the boundary included.
pub proof fn lemma_column_shift_inverse(g: Seq<char>, x: int, y: int)
    requires
        wf_grid(g),
        in_range(x),
        in_range(y),
    ensures
        letter_at(g, prev_wrap(next_wrap(x)), y) == letter_at(g, x, y),
        letter_at(g, next_wrap(prev_wrap(x)), y) == letter_at(g, x, y),
{
    lemma_wrap_round_trip(x);
}

/// The rectangle rule is self-inverse: it sends the letters at two cells to
/// the letters at the cells with the columns exchanged, and applying it to
/// those two cells returns the original letters in order.
pub proof fn lemma_rectangle_self_inverse(g: Seq<char>, c1: Coordinate, c2: Coordinate)
    requires
        wf_grid(g),
        in_range(c1.x as int),
        in_range(c1.y as int),
        in_range(c2.x as int),
        in_range(c2.y as int),
    ensures
        ({
            let l1 = letter_at(g, c2.x as int, c1.y as int);
            let l2 = letter_at(g, c1.x as int, c2.y as int);
            // The first application puts its results at the exchanged cells,
            &&& col_of(g, l1) == c2.x as int && row_of(g, l1) == c1.y as int
            &&& col_of(g, l2) == c1.x as int && row_of(g, l2) == c2.y as int
            // and the second application on those cells exchanges the
            // columns back, returning the original letters in order.
            &&& letter_at(g, col_of(g, l2), row_of(g, l1)) == letter_at(
                g,
                c1.x as int,
                c1.y as int,
            )
            &&& letter_at(g, col_of(g, l1), row_of(g, l2)) == letter_at(
                g,
                c2.x as int,
                c2.y as int,
            )
        }),
{
    lemma_grid_lookup(g, c2.x as int, c1.y as int);
    lemma_grid_lookup(g, c1.x as int, c2.y as int);
}

/// Every character the cleaned keyword keeps is a letter.
proof fn lemma_key_letters_are_letters(key: Seq<char>)
    ensures
        forall|i: int|
            0 <= i < key_letters(key).len() ==> is_letter(#[trigger] key_letters(key)[i]),
    decreases key.len(),
{
    if key.len() > 0 {
        lemma_key_letters_are_letters(key.drop_last());
        assert forall|i: int|
            0 <= i < key_letters(key).len() implies is_letter(#[trigger] key_letters(key)[i]) by {
            if i < key_letters(key.drop_last()).len() {
                assert(key_letters(key.drop_last())[i] == key_letters(key)[i]);
            }
        }
    }
}

} // verus!
