//! Plaintext normalization: canonical letters, fillers between doubled
//! pairs, and a trailing filler for odd length.
use crate::letters::{canon_chars, canon_seq, chars_to_string};
use crate::CipherError;
use vstd::prelude::*;

verus! {

/// Normalized plaintext: an even-length string of canonical characters with
/// fillers inserted.
#[derive(Debug, PartialEq, Eq)]
pub struct Plaintext(pub String);

/// The digraph scan: whenever the two characters of the pair under view are
/// equal, a filler is inserted between them and the scan resumes after the
/// filler, so that each later pair sees the shifted content.
pub open spec fn pair_scan(s: Seq<char>) -> Seq<char>
    decreases s.len(),
{
    if s.len() < 2 {
        s
    } else if s[0] == s[1] {
        seq![s[0], 'Z'] + pair_scan(s.skip(1))
    } else {
        seq![s[0], s[1]] + pair_scan(s.skip(2))
    }
}

/// Full normalization: canonical characters, the digraph scan, and one
/// trailing filler when the length is odd. If the last character is already
/// the filler, the fallback filler is appended instead, so that the final
/// digraph is never doubled.
pub open spec fn normalize(s: Seq<char>) -> Seq<char> {
    let p = pair_scan(canon_seq(s));
    if p.len() % 2 == 1 {
        if p.last() == 'Z' {
            p.push('X')
        } else {
            p.push('Z')
        }
    } else {
        p
    }
}

/// Normalized text always has even length.
pub proof fn lemma_normalize_even(s: Seq<char>)
    ensures
        normalize(s).len() % 2 == 0,
{
}

/// The digraph scan, executably: one pass over the input, consuming one
/// character of a doubled pair and two of any other.
fn pair_scan_chars(v: &Vec<char>) -> (r: Vec<char>)
    ensures
        r@ == pair_scan(v@),
{
    let mut r: Vec<char> = Vec::new();
    let mut i: usize = 0;
    proof {
        assert(v@.skip(0) =~= v@);
        assert(Seq::<char>::empty() + pair_scan(v@) =~= pair_scan(v@));
    }
    while i < v.len()
        invariant
            0 <= i <= v@.len(),
            pair_scan(v@) == r@ + pair_scan(v@.skip(i as int)),
        decreases v@.len() - i,
    {
        let ghost pre = r@;
        let ghost rest = v@.skip(i as int);
        if i + 1 < v.len() {
            if v[i] == v[i + 1] {
                r.push(v[i]);
                r.push('Z');
                proof {
                    assert(rest[0] == v@[i as int] && rest[1] == v@[i + 1]);
                    assert(rest.skip(1) =~= v@.skip(i + 1 as int));
                    assert(pre + (seq![rest[0], 'Z'] + pair_scan(rest.skip(1))) =~= r@ + pair_scan(
                        v@.skip(i + 1 as int),
                    ));
                }
                i += 1;
            } else {
                r.push(v[i]);
                r.push(v[i + 1]);
                proof {
                    assert(rest[0] == v@[i as int] && rest[1] == v@[i + 1]);
                    assert(rest.skip(2) =~= v@.skip(i + 2 as int));
                    assert(pre + (seq![rest[0], rest[1]] + pair_scan(rest.skip(2))) =~= r@
                        + pair_scan(v@.skip(i + 2 as int)));
                }
                i += 2;
            }
        } else {
            r.push(v[i]);
            proof {
                assert(rest.len() == 1 && rest[0] == v@[i as int]);
                assert(pair_scan(rest) == rest);
                assert(pre + rest =~= r@ + pair_scan(v@.skip(i + 1 as int)));
            }
            i += 1;
        }
    }
    proof {
        assert(v@.skip(v@.len() as int) =~= Seq::<char>::empty());
        assert(r@ + Seq::<char>::empty() =~= r@);
    }
    r
}

/// Normalization of a raw string into the character sequence the digraph
/// engine consumes.
pub fn normalize_chars(s: &str) -> (r: Vec<char>)
    ensures
        r@ == normalize(s@),
        r@.len() % 2 == 0,
{
    let cs = canon_chars(s);
    let mut p = pair_scan_chars(&cs);
    if p.len() % 2 == 1 {
        let last = p[p.len() - 1];
        if last == 'Z' {
            p.push('X');
        } else {
            p.push('Z');
        }
    }
    p
}

impl Plaintext {
    /// Normalize raw text. Any input yields a valid normalized text, so
    /// this always succeeds.
    pub fn from_str(s: &str) -> (r: Result<Plaintext, CipherError>)
        ensures
            r is Ok,
            r matches Ok(p) ==> p.0@ == normalize(s@),
    {
        let chars = normalize_chars(s);
        Ok(Plaintext(chars_to_string(&chars)))
    }
}

} // verus!
