//! Playfair digraph substitution cipher.
//!
//! A keyword is turned into a 5x5 key square over the 25-letter alphabet
//! (I and J merged); plaintext is normalized into digraphs and each digraph
//! is substituted by the positional rules of the square (same row, same
//! column, rectangle), symmetrically for encryption and decryption.
use vstd::prelude::*;

pub mod key_table;
pub mod letters;
pub mod plaintext;

use crate::key_table::{
    col_of, grid_letters, lemma_grid_letters_wf, lemma_grid_lookup, lemma_letter_place,
    lemma_wrap_round_trip, letter_at, next_wrap, prev_wrap, row_of, wf_grid, KeyTable,
};
use crate::letters::{
    alphabet, alphabet_vec, canon_chars, canon_seq, chars_to_string, is_letter,
    lemma_canon_of_letter, vec_contains_char,
};
use crate::plaintext::{lemma_normalize_even, normalize, normalize_chars};

verus! {

/// The one error the cipher surfaces: input that cannot be looked up in the
/// key square (a character outside the 25-letter alphabet after case folding,
/// or ciphertext of odd length).
#[derive(Debug, Clone, Copy, PartialEq, Eq)]
pub enum CipherError {
    InvalidInput,
}

/// Encryption of one digraph: letters in the same column each move one row
/// down, letters in the same row each move one column right, and otherwise
/// each letter moves to its own row at the other letter's column.
pub open spec fn enc_pair(g: Seq<char>, a: char, b: char) -> (char, char) {
    let xa = col_of(g, a);
    let ya = row_of(g, a);
    let xb = col_of(g, b);
    let yb = row_of(g, b);
    if xa == xb {
        (letter_at(g, xa, next_wrap(ya)), letter_at(g, xb, next_wrap(yb)))
    } else if ya == yb {
        (letter_at(g, next_wrap(xa), ya), letter_at(g, next_wrap(xb), yb))
    } else {
        (letter_at(g, xb, ya), letter_at(g, xa, yb))
    }
}

/// Decryption of one digraph: the shifts of `enc_pair` taken backward, and
/// the identical rectangle rule.
pub open spec fn dec_pair(g: Seq<char>, a: char, b: char) -> (char, char) {
    let xa = col_of(g, a);
    let ya = row_of(g, a);
    let xb = col_of(g, b);
    let yb = row_of(g, b);
    if xa == xb {
        (letter_at(g, xa, prev_wrap(ya)), letter_at(g, xb, prev_wrap(yb)))
    } else if ya == yb {
        (letter_at(g, prev_wrap(xa), ya), letter_at(g, prev_wrap(xb), yb))
    } else {
        (letter_at(g, xb, ya), letter_at(g, xa, yb))
    }
}

/// Encryption of a whole letter sequence, two letters at a time.
pub open spec fn enc_digraphs(g: Seq<char>, s: Seq<char>) -> Seq<char>
    decreases s.len(),
{
    if s.len() < 2 {
        Seq::<char>::empty()
    } else {
        let p = enc_pair(g, s[0], s[1]);
        seq![p.0, p.1] + enc_digraphs(g, s.skip(2))
    }
}

/// Decryption of a whole letter sequence, two letters at a time.
pub open spec fn dec_digraphs(g: Seq<char>, s: Seq<char>) -> Seq<char>
    decreases s.len(),
{
    if s.len() < 2 {
        Seq::<char>::empty()
    } else {
        let p = dec_pair(g, s[0], s[1]);
        seq![p.0, p.1] + dec_digraphs(g, s.skip(2))
    }
}

/// The inputs on which encryption succeeds: every character of the
/// normalized plaintext is a letter of the alphabet.
pub open spec fn encrypt_ok(text: Seq<char>) -> bool {
    forall|i: int| 0 <= i < normalize(text).len() ==> is_letter(#[trigger] normalize(text)[i])
}

/// What encryption returns on those inputs.
pub open spec fn encrypt_spec(key: Seq<char>, text: Seq<char>) -> Seq<char> {
    enc_digraphs(grid_letters(key), normalize(text))
}

/// The inputs on which decryption succeeds: even length, and every
/// character a letter of the alphabet after case folding.
pub open spec fn decrypt_ok(ct: Seq<char>) -> bool {
    &&& ct.len() % 2 == 0
    &&& forall|i: int| 0 <= i < ct.len() ==> is_letter(#[trigger] canon_seq(ct)[i])
}

/// What decryption returns on those inputs.
pub open spec fn decrypt_spec(key: Seq<char>, ct: Seq<char>) -> Seq<char> {
    dec_digraphs(grid_letters(key), canon_seq(ct))
}

/// Encrypt a plaintext with a given key.
///
/// The plaintext is normalized (upper case, I/J merged, fillers inserted);
/// any character that is then still outside the 25-letter alphabet is
/// rejected as invalid input. The key may be anything: characters of it
/// outside the alphabet are ignored.
#[verifier::rlimit(60)]
pub fn encrypt(key: &str, text: &str) -> (r: Result<String, CipherError>)
    ensures
        r is Ok <==> encrypt_ok(text@),
        r matches Ok(s) ==> s@ == encrypt_spec(key@, text@),
        r matches Err(e) ==> e == CipherError::InvalidInput,
{
    let norm = normalize_chars(text);
    let alpha = alphabet_vec();
    let mut v: usize = 0;
    while v < norm.len()
        invariant
            0 <= v <= norm@.len(),
            alpha@ == alphabet(),
            norm@ == normalize(text@),
            forall|k: int| 0 <= k < v ==> is_letter(#[trigger] norm@[k]),
        decreases norm@.len() - v,
    {
        if !vec_contains_char(&alpha, norm[v]) {
            assert(!is_letter(norm@[v as int]));
            return Err(CipherError::InvalidInput);
        }
        v += 1;
    }
    let table = KeyTable::new(key);
    let ghost g = table.letters();
    let mut out: Vec<char> = Vec::new();
    let mut i: usize = 0;
    proof {
        assert(norm@.skip(0) =~= norm@);
        assert(Seq::<char>::empty() + enc_digraphs(g, norm@) =~= enc_digraphs(g, norm@));
    }
    while i < norm.len()
        invariant
            table.wf(),
            g == table.letters(),
            norm@ == normalize(text@),
            norm@.len() % 2 == 0,
            forall|k: int| 0 <= k < norm@.len() ==> is_letter(#[trigger] norm@[k]),
            0 <= i <= norm@.len(),
            i % 2 == 0,
            enc_digraphs(g, norm@) == out@ + enc_digraphs(g, norm@.skip(i as int)),
        decreases norm@.len() - i,
    {
        let ghost pre = out@;
        let ghost rest = norm@.skip(i as int);
        let a = norm[i];
        let b = norm[i + 1];
        let c1 = match table.find_by_char(a) {
            Ok(c) => c,
            Err(e) => return Err(e),
        };
        let c2 = match table.find_by_char(b) {
            Ok(c) => c,
            Err(e) => return Err(e),
        };
        if c1.x == c2.x {
            out.push(table.get_by_enc_rule_same_row(c1.x, c1.y));
            out.push(table.get_by_enc_rule_same_row(c2.x, c2.y));
        } else if c1.y == c2.y {
            out.push(table.get_by_enc_rule_same_column(c1.x, c1.y));
            out.push(table.get_by_enc_rule_same_column(c2.x, c2.y));
        } else {
            let (l1, l2) = table.get_by_rule_rectangle(&c1, &c2);
            out.push(l1);
            out.push(l2);
        }
        proof {
            let p = enc_pair(g, rest[0], rest[1]);
            assert(rest[0] == norm@[i as int] && rest[1] == norm@[i + 1]);
            assert(out@ == pre.push(p.0).push(p.1));
            assert(rest.skip(2) =~= norm@.skip(i + 2 as int));
            assert(pre + (seq![p.0, p.1] + enc_digraphs(g, rest.skip(2))) =~= out@ + enc_digraphs(
                g,
                norm@.skip(i + 2 as int),
            ));
        }
        i += 2;
    }
    proof {
        assert(norm@.skip(norm@.len() as int) =~= Seq::<char>::empty());
        assert(out@ + Seq::<char>::empty() =~= out@);
    }
    Ok(chars_to_string(&out))
}

/// Decrypt a ciphertext with a given key.
///
/// The ciphertext is case-folded only; it must have even length and consist
/// of alphabet letters, else it is rejected as invalid input. Fillers that
/// normalization inserted are not stripped.
#[verifier::rlimit(60)]
pub fn decrypt(key: &str, ciphertext: &str) -> (r: Result<String, CipherError>)
    ensures
        r is Ok <==> decrypt_ok(ciphertext@),
        r matches Ok(s) ==> s@ == decrypt_spec(key@, ciphertext@),
        r matches Err(e) ==> e == CipherError::InvalidInput,
{
    let cs = canon_chars(ciphertext);
    if cs.len() % 2 == 1 {
        return Err(CipherError::InvalidInput);
    }
    let alpha = alphabet_vec();
    let mut v: usize = 0;
    while v < cs.len()
        invariant
            0 <= v <= cs@.len(),
            alpha@ == alphabet(),
            cs@ == canon_seq(ciphertext@),
            forall|k: int| 0 <= k < v ==> is_letter(#[trigger] cs@[k]),
        decreases cs@.len() - v,
    {
        if !vec_contains_char(&alpha, cs[v]) {
            assert(!is_letter(cs@[v as int]));
            return Err(CipherError::InvalidInput);
        }
        v += 1;
    }
    let table = KeyTable::new(key);
    let ghost g = table.letters();
    let mut out: Vec<char> = Vec::new();
    let mut i: usize = 0;
    proof {
        assert(cs@.skip(0) =~= cs@);
        assert(Seq::<char>::empty() + dec_digraphs(g, cs@) =~= dec_digraphs(g, cs@));
    }
    while i < cs.len()
        invariant
            table.wf(),
            g == table.letters(),
            cs@ == canon_seq(ciphertext@),
            cs@.len() % 2 == 0,
            forall|k: int| 0 <= k < cs@.len() ==> is_letter(#[trigger] cs@[k]),
            0 <= i <= cs@.len(),
            i % 2 == 0,
            dec_digraphs(g, cs@) == out@ + dec_digraphs(g, cs@.skip(i as int)),
        decreases cs@.len() - i,
    {
        let ghost pre = out@;
        let ghost rest = cs@.skip(i as int);
        let a = cs[i];
        let b = cs[i + 1];
        let c1 = match table.find_by_char(a) {
            Ok(c) => c,
            Err(e) => return Err(e),
        };
        let c2 = match table.find_by_char(b) {
            Ok(c) => c,
            Err(e) => return Err(e),
        };
        if c1.x == c2.x {
            out.push(table.get_by_dec_rule_same_row(c1.x, c1.y));
            out.push(table.get_by_dec_rule_same_row(c2.x, c2.y));
        } else if c1.y == c2.y {
            out.push(table.get_by_dec_rule_same_column(c1.x, c1.y));
            out.push(table.get_by_dec_rule_same_column(c2.x, c2.y));
        } else {
            let (l1, l2) = table.get_by_rule_rectangle(&c1, &c2);
            out.push(l1);
            out.push(l2);
        }
        proof {
            let p = dec_pair(g, rest[0], rest[1]);
            assert(rest[0] == cs@[i as int] && rest[1] == cs@[i + 1]);
            assert(out@ == pre.push(p.0).push(p.1));
            assert(rest.skip(2) =~= cs@.skip(i + 2 as int));
            assert(pre + (seq![p.0, p.1] + dec_digraphs(g, rest.skip(2))) =~= out@ + dec_digraphs(
                g,
                cs@.skip(i + 2 as int),
            ));
        }
        i += 2;
    }
    proof {
        assert(cs@.skip(cs@.len() as int) =~= Seq::<char>::empty());
        assert(out@ + Seq::<char>::empty() =~= out@);
    }
    Ok(chars_to_string(&out))
}

/// Decrypting an encrypted digraph returns the digraph: the shifts are
/// taken backward and the rectangle rule is its own inverse.
pub proof fn lemma_pair_round_trip(g: Seq<char>, a: char, b: char)
    requires
        wf_grid(g),
        is_letter(a),
        is_letter(b),
    ensures
        ({
            let e = enc_pair(g, a, b);
            &&& is_letter(e.0)
            &&& is_letter(e.1)
            &&& dec_pair(g, e.0, e.1) == (a, b)
        }),
{
    lemma_letter_place(g, a);
    lemma_letter_place(g, b);
    let xa = col_of(g, a);
    let ya = row_of(g, a);
    let xb = col_of(g, b);
    let yb = row_of(g, b);
    if xa == xb {
        lemma_wrap_round_trip(ya);
        lemma_wrap_round_trip(yb);
        lemma_grid_lookup(g, xa, next_wrap(ya));
        lemma_grid_lookup(g, xb, next_wrap(yb));
    } else if ya == yb {
        lemma_wrap_round_trip(xa);
        lemma_wrap_round_trip(xb);
        lemma_grid_lookup(g, next_wrap(xa), ya);
        lemma_grid_lookup(g, next_wrap(xb), yb);
    } else {
        lemma_grid_lookup(g, xb, ya);
        lemma_grid_lookup(g, xa, yb);
    }
}

/// Decrypting an encrypted letter sequence returns the sequence, and the
/// ciphertext is made of letters, as long as the sequence.
#[verifier::rlimit(60)]
pub proof fn lemma_digraphs_round_trip(g: Seq<char>, s: Seq<char>)
    requires
        wf_grid(g),
        s.len() % 2 == 0,
        forall|i: int| 0 <= i < s.len() ==> is_letter(#[trigger] s[i]),
    ensures
        enc_digraphs(g, s).len() == s.len(),
        forall|j: int| 0 <= j < s.len() ==> is_letter(#[trigger] enc_digraphs(g, s)[j]),
        dec_digraphs(g, enc_digraphs(g, s)) == s,
    decreases s.len(),
{
    let e = enc_digraphs(g, s);
    if s.len() == 0 {
        assert(e =~= Seq::<char>::empty());
        assert(dec_digraphs(g, e) =~= s);
    } else {
        let t = s.skip(2);
        assert(forall|k: int| 0 <= k < t.len() ==> t[k] == s[k + 2]);
        lemma_pair_round_trip(g, s[0], s[1]);
        lemma_digraphs_round_trip(g, t);
        let p = enc_pair(g, s[0], s[1]);
        let et = enc_digraphs(g, t);
        assert(e == seq![p.0, p.1] + et);
        assert forall|j: int| 0 <= j < s.len() implies is_letter(#[trigger] e[j]) by {
            if j >= 2 {
                assert(e[j] == et[j - 2]);
            }
        }
        assert(e.skip(2) =~= et);
        assert(dec_pair(g, e[0], e[1]) == (s[0], s[1]));
        assert(dec_digraphs(g, e) == seq![s[0], s[1]] + dec_digraphs(g, et));
        assert(seq![s[0], s[1]] + t =~= s);
    }
}

/// The round trip of the cipher: encrypting a plaintext and decrypting the
/// result with the same key returns the normalized plaintext — fillers
/// intact, since decryption strips nothing — for every key and for every
/// plaintext that encryption accepts. The ciphertext is itself valid
/// decryption input.
pub proof fn lemma_encrypt_decrypt_round_trip(key: Seq<char>, text: Seq<char>)
    requires
        encrypt_ok(text),
    ensures
        decrypt_ok(encrypt_spec(key, text)),
        decrypt_spec(key, encrypt_spec(key, text)) == normalize(text),
{
    lemma_grid_letters_wf(key);
    lemma_normalize_even(text);
    let g = grid_letters(key);
    let n = normalize(text);
    let ct = encrypt_spec(key, text);
    lemma_digraphs_round_trip(g, n);
    assert forall|i: int| 0 <= i < ct.len() implies canon_seq(ct)[i] == ct[i] by {
        lemma_canon_of_letter(ct[i]);
    }
    assert(canon_seq(ct) =~= ct);
    assert forall|i: int| 0 <= i < ct.len() implies is_letter(#[trigger] canon_seq(ct)[i]) by {
        assert(canon_seq(ct)[i] == ct[i]);
    }
}

} // verus!
