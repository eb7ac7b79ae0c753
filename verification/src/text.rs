//! Byte-string helpers shared by the rest of the library.
//!
//! Process names and command tokens are handled as byte strings
//! (`Vec<u8>`), so every operation here is stated over `Seq<u8>`.

use vstd::prelude::*;

verus! {

/// ASCII lower-casing of a single byte: `'A'..='Z'` map to `'a'..='z'`,
/// everything else is unchanged.
pub open spec fn lower_byte(b: u8) -> u8 {
    if 65 <= b && b <= 90 {
        (b + 32) as u8
    } else {
        b
    }
}

/// ASCII lower-casing of a whole byte string.
pub open spec fn lower(s: Seq<u8>) -> Seq<u8> {
    s.map_values(|b: u8| lower_byte(b))
}

/// The views of a sequence of byte vectors.
pub open spec fn seq_views(s: Seq<Vec<u8>>) -> Seq<Seq<u8>> {
    s.map_values(|v: Vec<u8>| v@)
}

/// Lower-cases a byte string, ASCII-only.
pub fn to_lower(s: &Vec<u8>) -> (r: Vec<u8>)
    ensures
        r@ == lower(s@),
{
    let mut r: Vec<u8> = Vec::new();
    let mut i: usize = 0;
    while i < s.len()
        invariant
            i <= s@.len(),
            r@ == lower(s@.subrange(0, i as int)),
        decreases s@.len() - i,
    {
        let b = s[i];
        if 65 <= b && b <= 90 {
            r.push(b + 32);
        } else {
            r.push(b);
        }
        proof {
            assert(s@.subrange(0, i + 1) =~= s@.subrange(0, i as int).push(s@[i as int]));
            assert(lower(s@.subrange(0, i + 1)) =~= lower(s@.subrange(0, i as int)).push(
                lower_byte(s@[i as int]),
            ));
        }
        i = i + 1;
    }
    proof {
        assert(s@.subrange(0, s@.len() as int) =~= s@);
    }
    r
}

/// Equality of two byte strings.
pub fn bytes_eq(a: &Vec<u8>, b: &Vec<u8>) -> (r: bool)
    ensures
        r == (a@ == b@),
{
    if a.len() != b.len() {
        return false;
    }
    let mut i: usize = 0;
    while i < a.len()
        invariant
            a@.len() == b@.len(),
            i <= a@.len(),
            forall|j: int| 0 <= j < i ==> a@[j] == b@[j],
        decreases a@.len() - i,
    {
        if a[i] != b[i] {
            return false;
        }
        i = i + 1;
    }
    proof {
        assert(a@ =~= b@);
    }
    true
}

/// Makes a copy of a byte string.
pub fn copy_bytes(s: &Vec<u8>) -> (r: Vec<u8>)
    ensures
        r@ == s@,
{
    let mut r: Vec<u8> = Vec::new();
    let mut i: usize = 0;
    while i < s.len()
        invariant
            i <= s@.len(),
            r@ == s@.subrange(0, i as int),
        decreases s@.len() - i,
    {
        r.push(s[i]);
        proof {
            assert(s@.subrange(0, i + 1) =~= s@.subrange(0, i as int).push(s@[i as int]));
        }
        i = i + 1;
    }
    proof {
        assert(s@.subrange(0, s@.len() as int) =~= s@);
    }
    r
}

/// Whether `p` is a prefix of `s`, after ASCII lower-casing both sides.
pub fn starts_with_lower(s: &Vec<u8>, p: &Vec<u8>) -> (r: bool)
    ensures
        r == lower(p@).is_prefix_of(lower(s@)),
{
    if p.len() > s.len() {
        return false;
    }
    let mut i: usize = 0;
    while i < p.len()
        invariant
            p@.len() <= s@.len(),
            i <= p@.len(),
            forall|j: int| 0 <= j < i ==> lower_byte(p@[j]) == lower_byte(s@[j]),
        decreases p@.len() - i,
    {
        let pb = p[i];
        let sb = s[i];
        let pl = if 65 <= pb && pb <= 90 { pb + 32 } else { pb };
        let sl = if 65 <= sb && sb <= 90 { sb + 32 } else { sb };
        if pl != sl {
            proof {
                assert(lower(p@)[i as int] != lower(s@)[i as int]);
                assert(lower(s@).subrange(0, lower(p@).len() as int)[i as int] == lower(s@)[
                    i as int
                ]);
            }
            return false;
        }
        i = i + 1;
    }
    proof {
        assert(lower(p@) =~= lower(s@).subrange(0, lower(p@).len() as int));
    }
    true
}

/// Whether a byte is an ASCII decimal digit.
pub open spec fn is_digit(b: u8) -> bool {
    48 <= b && b <= 57
}

/// Whether every byte of a token is an ASCII decimal digit.
pub open spec fn all_digits(s: Seq<u8>) -> bool {
    forall|i: int| 0 <= i < s.len() ==> is_digit(#[trigger] s[i])
}

/// The number a run of decimal digits denotes, most significant first.
pub open spec fn dec_val(s: Seq<u8>) -> nat
    decreases s.len(),
{
    if s.len() == 0 {
        0
    } else {
        (dec_val(s.drop_last()) * 10 + (s.last() - 48)) as nat
    }
}

/// On an all-digit token, the denoted value only grows as digits are taken
/// in from the left.
proof fn lemma_dec_val_prefix(s: Seq<u8>, j: int)
    requires
        all_digits(s),
        0 <= j <= s.len(),
    ensures
        dec_val(s) >= dec_val(s.subrange(0, j)),
    decreases s.len() - j,
{
    if j == s.len() {
        assert(s.subrange(0, j) =~= s);
    } else {
        lemma_dec_val_prefix(s, j + 1);
        let p = s.subrange(0, j + 1);
        assert(p.drop_last() =~= s.subrange(0, j));
        assert(p.last() == s[j]);
        assert(is_digit(s[j]));
        assert(dec_val(p) == dec_val(s.subrange(0, j)) * 10 + (s[j] - 48));
        assert(dec_val(s.subrange(0, j)) * 10 >= dec_val(s.subrange(0, j)));
    }
}

/// Parses a whole token as an unsigned decimal number. Returns the denoted
/// value exactly when the token is a nonempty run of digits whose value
/// fits in `usize`; any other token is a typed per-token failure.
pub fn parse_usize(t: &Vec<u8>) -> (r: Option<usize>)
    ensures
        match r {
            Some(v) => t@.len() > 0 && all_digits(t@) && v as nat == dec_val(t@),
            None => t@.len() == 0 || !all_digits(t@) || dec_val(t@) > usize::MAX,
        },
{
    if t.len() == 0 {
        return None;
    }
    let mut acc: usize = 0;
    let mut i: usize = 0;
    proof {
        assert(t@.subrange(0, 0) =~= Seq::<u8>::empty());
    }
    while i < t.len()
        invariant
            0 < t@.len(),
            i <= t@.len(),
            all_digits(t@.subrange(0, i as int)),
            acc as nat == dec_val(t@.subrange(0, i as int)),
        decreases t@.len() - i,
    {
        let b = t[i];
        if b < 48 || b > 57 {
            proof {
                assert(!is_digit(t@[i as int]));
            }
            return None;
        }
        let d = (b - 48) as usize;
        proof {
            assert(t@.subrange(0, i + 1).drop_last() =~= t@.subrange(0, i as int));
            assert(t@.subrange(0, i + 1).last() == t@[i as int]);
            assert(dec_val(t@.subrange(0, i + 1)) == dec_val(t@.subrange(0, i as int)) * 10 + (
            t@[i as int] - 48));
            assert forall|j: int| 0 <= j < i + 1 implies is_digit(
                #[trigger] t@.subrange(0, i + 1)[j],
            ) by {
                if j < i {
                    assert(t@.subrange(0, i + 1)[j] == t@.subrange(0, i as int)[j]);
                }
            }
        }
        if acc > (usize::MAX - d) / 10 {
            proof {
                let full = dec_val(t@.subrange(0, i + 1));
                assert(full == acc * 10 + d);
                assert((usize::MAX - d) / 10 * 10 + (usize::MAX - d) % 10 == usize::MAX - d);
                assert(acc * 10 >= ((usize::MAX - d) / 10 + 1) * 10);
                assert(full > usize::MAX);
                if all_digits(t@) {
                    lemma_dec_val_prefix(t@, i + 1);
                }
            }
            return None;
        }
        proof {
            assert(acc <= (usize::MAX - d) / 10);
            assert((usize::MAX - d) / 10 * 10 + (usize::MAX - d) % 10 == usize::MAX - d);
            assert(acc * 10 <= usize::MAX - d);
        }
        acc = acc * 10 + d;
        i = i + 1;
    }
    proof {
        assert(t@.subrange(0, t@.len() as int) =~= t@);
    }
    Some(acc)
}

/// The shortest run of decimal digits denoting `n`, most significant first.
pub open spec fn dec_digits(n: nat) -> Seq<u8>
    decreases n,
{
    if n < 10 {
        seq![(48 + n) as u8]
    } else {
        dec_digits(n / 10).push((48 + n % 10) as u8)
    }
}

/// A display index as the operator sees it: decimal, padded with a leading
/// zero to at least two digits.
pub open spec fn padded_index(n: nat) -> Seq<u8> {
    if n < 10 {
        seq![48u8] + dec_digits(n)
    } else {
        dec_digits(n)
    }
}

/// Prints a number in decimal.
pub fn render_usize(n: usize) -> (r: Vec<u8>)
    ensures
        r@ == dec_digits(n as nat),
    decreases n,
{
    if n < 10 {
        let mut r: Vec<u8> = Vec::new();
        r.push(48 + (n as u8));
        proof {
            assert(r@ =~= seq![(48 + n as nat) as u8]);
        }
        r
    } else {
        proof {
            assert(n / 10 * 10 + n % 10 == n);
            assert(n / 10 < n);
        }
        let mut r = render_usize(n / 10);
        r.push(48 + ((n % 10) as u8));
        r
    }
}

/// Prints a 1-based display index, zero-padded to at least two digits.
pub fn render_index(n: usize) -> (r: Vec<u8>)
    ensures
        r@ == padded_index(n as nat),
{
    if n < 10 {
        let mut r: Vec<u8> = Vec::new();
        r.push(48);
        r.push(48 + (n as u8));
        proof {
            assert(dec_digits(n as nat) == seq![(48 + n as nat) as u8]);
            assert(r@ =~= seq![48u8] + dec_digits(n as nat));
        }
        r
    } else {
        render_usize(n)
    }
}

} // verus!
