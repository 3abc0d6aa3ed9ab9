//! The 25-letter alphabet of the cipher, case folding onto it, and
//! first-occurrence deduplication of letter sequences.
use vstd::prelude::*;

verus! {

/// The cipher's alphabet: the Latin capitals with J merged into I.
pub open spec fn alphabet() -> Seq<char> {
    seq![
        'A', 'B', 'C', 'D', 'E', 'F', 'G', 'H', 'I', 'K', 'L', 'M', 'N', 'O', 'P', 'Q', 'R', 'S',
        'T', 'U', 'V', 'W', 'X', 'Y', 'Z',
    ]
}

/// A character the key square can hold.
pub open spec fn is_letter(c: char) -> bool {
    alphabet().contains(c)
}

/// ASCII upper-casing; everything else is left alone.
pub open spec fn upper(c: char) -> char {
    match c {
        'a' => 'A',
        'b' => 'B',
        'c' => 'C',
        'd' => 'D',
        'e' => 'E',
        'f' => 'F',
        'g' => 'G',
        'h' => 'H',
        'i' => 'I',
        'j' => 'J',
        'k' => 'K',
        'l' => 'L',
        'm' => 'M',
        'n' => 'N',
        'o' => 'O',
        'p' => 'P',
        'q' => 'Q',
        'r' => 'R',
        's' => 'S',
        't' => 'T',
        'u' => 'U',
        'v' => 'V',
        'w' => 'W',
        'x' => 'X',
        'y' => 'Y',
        'z' => 'Z',
        _ => c,
    }
}

/// Canonical form of an input character: upper case, with J collapsed into I.
pub open spec fn canon(c: char) -> char {
    if upper(c) == 'J' {
        'I'
    } else {
        upper(c)
    }
}

/// Canonical form of a whole character sequence.
pub open spec fn canon_seq(s: Seq<char>) -> Seq<char> {
    s.map_values(|c: char| canon(c))
}

/// A letter is its own canonical form.
pub proof fn lemma_canon_of_letter(c: char)
    requires
        is_letter(c),
    ensures
        canon(c) == c,
{
    let i = choose|i: int| 0 <= i < alphabet().len() && alphabet()[i] == c;
    assert(alphabet()[i] == c);
}

/// First-occurrence deduplication: keep each character the first time it
/// appears, in order.
pub open spec fn dedup(s: Seq<char>) -> Seq<char>
    decreases s.len(),
{
    if s.len() == 0 {
        Seq::<char>::empty()
    } else {
        let d = dedup(s.drop_last());
        if d.contains(s.last()) {
            d
        } else {
            d.push(s.last())
        }
    }
}

/// Deduplication never leaves two equal characters behind.
pub proof fn lemma_dedup_no_duplicates(s: Seq<char>)
    ensures
        dedup(s).no_duplicates(),
    decreases s.len(),
{
    if s.len() > 0 {
        lemma_dedup_no_duplicates(s.drop_last());
    }
}

/// Deduplication keeps exactly the characters of its input.
pub proof fn lemma_dedup_contains(s: Seq<char>, c: char)
    ensures
        dedup(s).contains(c) <==> s.contains(c),
    decreases s.len(),
{
    if s.len() > 0 {
        lemma_dedup_contains(s.drop_last(), c);
        if s.contains(c) {
            let i = choose|i: int| 0 <= i < s.len() && s[i] == c;
            if i < s.len() - 1 {
                assert(s.drop_last()[i] == c);
            } else {
                assert(s.last() == c);
            }
            if dedup(s.drop_last()).contains(c) {
                assert(dedup(s).contains(c)) by {
                    let j = choose|j: int|
                        0 <= j < dedup(s.drop_last()).len() && dedup(s.drop_last())[j] == c;
                    assert(dedup(s)[j] == c);
                }
            } else {
                assert(s.last() == c);
                assert(dedup(s).last() == c);
            }
        }
        if s.drop_last().contains(c) {
            let i = choose|i: int| 0 <= i < s.drop_last().len() && s.drop_last()[i] == c;
            assert(s[i] == c);
        }
        if dedup(s).contains(c) {
            let j = choose|j: int| 0 <= j < dedup(s).len() && dedup(s)[j] == c;
            if j < dedup(s.drop_last()).len() {
                assert(dedup(s.drop_last())[j] == c);
            } else {
                assert(s.last() == c);
                assert(s[s.len() - 1] == c);
            }
        }
    }
}

/// The alphabet never repeats a letter.
pub proof fn lemma_alphabet_no_duplicates()
    ensures
        alphabet().no_duplicates(),
{
    assert forall|i: int, j: int| 0 <= i < j < alphabet().len() implies alphabet()[i]
        != alphabet()[j] by {
        assert(alphabet().len() == 25);
    }
}

/// Canonical form of one character, executably.
pub fn to_canon(c: char) -> (r: char)
    ensures
        r == canon(c),
{
    match c {
        'a' | 'A' => 'A',
        'b' | 'B' => 'B',
        'c' | 'C' => 'C',
        'd' | 'D' => 'D',
        'e' | 'E' => 'E',
        'f' | 'F' => 'F',
        'g' | 'G' => 'G',
        'h' | 'H' => 'H',
        'i' | 'I' => 'I',
        'j' | 'J' => 'I',
        'k' | 'K' => 'K',
        'l' | 'L' => 'L',
        'm' | 'M' => 'M',
        'n' | 'N' => 'N',
        'o' | 'O' => 'O',
        'p' | 'P' => 'P',
        'q' | 'Q' => 'Q',
        'r' | 'R' => 'R',
        's' | 'S' => 'S',
        't' | 'T' => 'T',
        'u' | 'U' => 'U',
        'v' | 'V' => 'V',
        'w' | 'W' => 'W',
        'x' | 'X' => 'X',
        'y' | 'Y' => 'Y',
        'z' | 'Z' => 'Z',
        _ => c,
    }
}

/// Linear search for a character in a vector.
pub fn vec_contains_char(v: &Vec<char>, c: char) -> (r: bool)
    ensures
        r == v@.contains(c),
{
    let mut i: usize = 0;
    while i < v.len()
        invariant
            0 <= i <= v@.len(),
            forall|k: int| 0 <= k < i ==> v@[k] != c,
        decreases v@.len() - i,
    {
        if v[i] == c {
            assert(v@[i as int] == c);
            return true;
        }
        i += 1;
    }
    false
}

/// The alphabet as a vector, for executable membership tests.
pub fn alphabet_vec() -> (r: Vec<char>)
    ensures
        r@ == alphabet(),
{
    let mut r: Vec<char> = Vec::new();
    r.push('A');
    r.push('B');
    r.push('C');
    r.push('D');
    r.push('E');
    r.push('F');
    r.push('G');
    r.push('H');
    r.push('I');
    r.push('K');
    r.push('L');
    r.push('M');
    r.push('N');
    r.push('O');
    r.push('P');
    r.push('Q');
    r.push('R');
    r.push('S');
    r.push('T');
    r.push('U');
    r.push('V');
    r.push('W');
    r.push('X');
    r.push('Y');
    r.push('Z');
    assert(r@ =~= alphabet());
    r
}

/// Executable membership test against the alphabet.
pub fn is_letter_char(c: char) -> (r: bool)
    ensures
        r == is_letter(c),
{
    let alpha = alphabet_vec();
    vec_contains_char(&alpha, c)
}

/// Relies on String::push: it appends exactly the given character at the
/// end of the string.
#[verifier::external_body]
fn push_char(s: &mut String, c: char)
    ensures
        final(s)@ == old(s)@.push(c),
{
    s.push(c);
}

/// Build a string from a character vector.
pub fn chars_to_string(v: &Vec<char>) -> (r: String)
    ensures
        r@ == v@,
{
    let mut r = String::new();
    let mut i: usize = 0;
    while i < v.len()
        invariant
            0 <= i <= v@.len(),
            r@ == v@.take(i as int),
        decreases v@.len() - i,
    {
        push_char(&mut r, v[i]);
        proof {
            assert(v@.take(i + 1 as int) =~= v@.take(i as int).push(v@[i as int]));
        }
        i += 1;
    }
    proof {
        assert(v@.take(v@.len() as int) =~= v@);
    }
    r
}

/// The canonical characters of a string, in order.
pub fn canon_chars(s: &str) -> (r: Vec<char>)
    ensures
        r@ == canon_seq(s@),
{
    let len = s.unicode_len();
    let mut r: Vec<char> = Vec::new();
    let mut i: usize = 0;
    while i < len
        invariant
            0 <= i <= len,
            len == s@.len(),
            r@.len() == i,
            forall|k: int| 0 <= k < i ==> r@[k] == canon(s@[k]),
        decreases len - i,
    {
        r.push(to_canon(s.get_char(i)));
        i += 1;
    }
    proof {
        assert(r@ =~= canon_seq(s@));
    }
    r
}

/// First-occurrence deduplication, executably.
pub fn dedup_vec(v: &Vec<char>) -> (r: Vec<char>)
    ensures
        r@ == dedup(v@),
{
    let mut r: Vec<char> = Vec::new();
    let mut i: usize = 0;
    while i < v.len()
        invariant
            0 <= i <= v@.len(),
            r@ == dedup(v@.take(i as int)),
        decreases v@.len() - i,
    {
        let c = v[i];
        proof {
            assert(v@.take(i + 1 as int).drop_last() =~= v@.take(i as int));
            assert(v@.take(i + 1 as int).last() == v@[i as int]);
        }
        if !vec_contains_char(&r, c) {
            r.push(c);
        }
        i += 1;
    }
    proof {
        assert(v@.take(v@.len() as int) =~= v@);
    }
    r
}

} // verus!
