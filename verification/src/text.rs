//! Byte-string helpers shared by the dice engine and the dispatcher:
//! decimal parsing and rendering, ASCII case folding, tokenizing.

use vstd::prelude::*;

verus! {

pub open spec fn is_digit(b: u8) -> bool {
    48 <= b <= 57
}

pub open spec fn all_digits(s: Seq<u8>) -> bool {
    forall|i: int| 0 <= i < s.len() ==> is_digit(s[i])
}

/// Numeric value of a string of ASCII digits, most significant first.
pub open spec fn dec_value(s: Seq<u8>) -> nat
    decreases s.len(),
{
    if s.len() == 0 {
        0
    } else {
        dec_value(s.drop_last()) * 10 + ((s.last() - 48) as nat)
    }
}

/// Extending a digit string to the right never decreases its value.
proof fn lemma_dec_value_prefix(s: Seq<u8>, i: int)
    requires
        0 <= i <= s.len(),
    ensures
        dec_value(s) >= dec_value(s.take(i)),
    decreases s.len() - i,
{
    if i < s.len() {
        assert(s.take(i + 1).drop_last() =~= s.take(i));
        assert(dec_value(s.take(i + 1)) >= dec_value(s.take(i)));
        lemma_dec_value_prefix(s, i + 1);
        assert(s.take(s.len() as int) =~= s);
    } else {
        assert(s.take(i) =~= s);
    }
}

/// Parse a byte string as an unsigned decimal number.
/// Returns `None` when the string is empty, holds a non-digit, or names
/// a value above `u32::MAX`.
pub fn parse_u32(s: &Vec<u8>) -> (r: Option<u32>)
    ensures
        r is Some <==> s@.len() > 0 && all_digits(s@) && dec_value(s@) <= u32::MAX,
        r is Some ==> r->0 == dec_value(s@),
{
    if s.len() == 0 {
        return None;
    }
    let mut acc: u64 = 0;
    let mut i: usize = 0;
    while i < s.len()
        invariant
            0 <= i <= s@.len(),
            s@.len() > 0,
            all_digits(s@.take(i as int)),
            acc == dec_value(s@.take(i as int)),
            acc <= u32::MAX,
        decreases s@.len() - i,
    {
        let b = s[i];
        if b < 48 || b > 57 {
            assert(!is_digit(s@[i as int]));
            return None;
        }
        assert(s@.take(i + 1).drop_last() =~= s@.take(i as int));
        acc = acc * 10 + ((b - 48) as u64);
        i = i + 1;
        if acc > u32::MAX as u64 {
            proof {
                lemma_dec_value_prefix(s@, i as int);
            }
            return None;
        }
    }
    assert(s@.take(i as int) =~= s@);
    Some(acc as u32)
}

/// Decimal rendering of a number, most significant digit first, no sign
/// and no leading zero (except for the number 0 itself).
pub open spec fn dec_digits(n: nat) -> Seq<u8>
    decreases n,
{
    if n < 10 {
        seq![(48 + n) as u8]
    } else {
        dec_digits(n / 10).push((48 + n % 10) as u8)
    }
}

/// Append the decimal rendering of `n` to `out`.
pub fn push_dec(n: u64, out: &mut Vec<u8>)
    ensures
        final(out)@ == old(out)@ + dec_digits(n as nat),
    decreases n,
{
    if n < 10 {
        out.push(48 + n as u8);
        assert(out@ =~= old(out)@ + dec_digits(n as nat));
    } else {
        push_dec(n / 10, out);
        out.push(48 + (n % 10) as u8);
        assert(out@ =~= old(out)@ + dec_digits(n as nat));
    }
}

/// Lower-case image of one byte, ASCII letters only.
pub open spec fn lower_byte(b: u8) -> u8 {
    if 65 <= b <= 90 {
        (b + 32) as u8
    } else {
        b
    }
}

pub open spec fn lower_bytes(s: Seq<u8>) -> Seq<u8> {
    s.map_values(|b: u8| lower_byte(b))
}

/// ASCII case folding; bytes outside the ASCII letters are untouched.
pub fn to_lower(s: &Vec<u8>) -> (r: Vec<u8>)
    ensures
        r@ == lower_bytes(s@),
{
    let mut out: Vec<u8> = Vec::new();
    let mut i: usize = 0;
    while i < s.len()
        invariant
            0 <= i <= s@.len(),
            out@ =~= lower_bytes(s@.take(i as int)),
        decreases s@.len() - i,
    {
        let b = s[i];
        if 65 <= b && b <= 90 {
            out.push(b + 32);
        } else {
            out.push(b);
        }
        assert(out@ =~= lower_bytes(s@.take(i + 1)));
        i = i + 1;
    }
    assert(s@.take(i as int) =~= s@);
    out
}

/// The bytes the tokenizer treats as whitespace.
pub open spec fn is_space(b: u8) -> bool {
    b == 32 || b == 9 || b == 10 || b == 13
}

/// Tokenizing, stated one byte at a time: `cur` is the token under
/// construction, emitted when a space or the end of input arrives.
pub open spec fn tok_rec(s: Seq<u8>, cur: Seq<u8>) -> Seq<Seq<u8>>
    decreases s.len(),
{
    if s.len() == 0 {
        if cur.len() == 0 {
            seq![]
        } else {
            seq![cur]
        }
    } else if is_space(s[0]) {
        if cur.len() == 0 {
            tok_rec(s.drop_first(), seq![])
        } else {
            seq![cur] + tok_rec(s.drop_first(), seq![])
        }
    } else {
        tok_rec(s.drop_first(), cur.push(s[0]))
    }
}

/// The whitespace-separated tokens of `s`, in order, each non-empty.
pub open spec fn tokens_of(s: Seq<u8>) -> Seq<Seq<u8>> {
    tok_rec(s, seq![])
}

/// Split a byte string on runs of whitespace.
pub fn tokenize(s: &Vec<u8>) -> (r: Vec<Vec<u8>>)
    ensures
        r.deep_view() == tokens_of(s@),
{
    let mut out: Vec<Vec<u8>> = Vec::new();
    let mut cur: Vec<u8> = Vec::new();
    let mut i: usize = 0;
    proof {
        assert(s@.skip(0) =~= s@);
        assert(cur@ =~= Seq::<u8>::empty());
        assert(out.deep_view() + tok_rec(s@, cur@) =~~= tokens_of(s@));
    }
    while i < s.len()
        invariant
            0 <= i <= s@.len(),
            tokens_of(s@) == out.deep_view() + tok_rec(s@.skip(i as int), cur@),
        decreases s@.len() - i,
    {
        let b = s[i];
        proof {
            assert(s@.skip(i as int).drop_first() =~= s@.skip(i + 1));
            assert(s@.skip(i as int)[0] == s@[i as int]);
        }
        if b == 32 || b == 9 || b == 10 || b == 13 {
            if cur.len() > 0 {
                let ghost prev_out = out.deep_view();
                let ghost prev_cur = cur@;
                out.push(cur);
                cur = Vec::new();
                proof {
                    assert(out.deep_view() =~~= prev_out.push(prev_cur));
                    assert(cur@ =~= Seq::<u8>::empty());
                    assert(prev_out + (seq![prev_cur] + tok_rec(s@.skip(i + 1), cur@))
                        =~~= out.deep_view() + tok_rec(s@.skip(i + 1), cur@));
                }
            } else {
                proof {
                    assert(cur@ =~= Seq::<u8>::empty());
                }
            }
        } else {
            cur.push(b);
        }
        i = i + 1;
    }
    proof {
        assert(s@.skip(i as int) =~= Seq::<u8>::empty());
    }
    if cur.len() > 0 {
        let ghost prev_out = out.deep_view();
        let ghost prev_cur = cur@;
        out.push(cur);
        proof {
            assert(out.deep_view() =~~= prev_out.push(prev_cur));
            assert(prev_out + seq![prev_cur] =~~= out.deep_view());
        }
    } else {
        proof {
            assert(cur@ =~= Seq::<u8>::empty());
            assert(out.deep_view() + tok_rec(Seq::<u8>::empty(), cur@) =~~= out.deep_view());
        }
    }
    out
}

/// Index of the first occurrence of `b` in `s`, or -1 when absent.
pub open spec fn find_byte(s: Seq<u8>, b: u8) -> int
    decreases s.len(),
{
    if s.len() == 0 {
        -1
    } else if s[0] == b {
        0
    } else if find_byte(s.drop_first(), b) < 0 {
        -1
    } else {
        find_byte(s.drop_first(), b) + 1
    }
}

proof fn lemma_find_byte_skip(s: Seq<u8>, b: u8, i: int)
    requires
        0 <= i <= s.len(),
        forall|j: int| 0 <= j < i ==> s[j] != b,
    ensures
        find_byte(s, b) == if find_byte(s.skip(i), b) >= 0 {
            find_byte(s.skip(i), b) + i
        } else {
            -1
        },
    decreases i,
{
    if i == 0 {
        assert(s.skip(0) =~= s);
    } else {
        lemma_find_byte_skip(s, b, i - 1);
        assert(s.skip(i - 1).drop_first() =~= s.skip(i));
        assert(s.skip(i - 1)[0] == s[i - 1]);
    }
}

/// First position of `b` in `s`, if any.
pub fn find_first(s: &Vec<u8>, b: u8) -> (r: Option<usize>)
    ensures
        r is Some ==> r->0 < s@.len() && find_byte(s@, b) == r->0,
        r is None ==> find_byte(s@, b) == -1,
{
    let mut i: usize = 0;
    while i < s.len()
        invariant
            0 <= i <= s@.len(),
            forall|j: int| 0 <= j < i ==> s@[j] != b,
        decreases s@.len() - i,
    {
        if s[i] == b {
            proof {
                lemma_find_byte_skip(s@, b, i as int);
                assert(s@.skip(i as int)[0] == b);
            }
            return Some(i);
        }
        i = i + 1;
    }
    proof {
        lemma_find_byte_skip(s@, b, i as int);
        assert(s@.skip(i as int).len() == 0);
    }
    None
}

/// Copy of `s[from..to]`.
pub fn sub_bytes(s: &Vec<u8>, from: usize, to: usize) -> (r: Vec<u8>)
    requires
        0 <= from <= to <= s@.len(),
    ensures
        r@ == s@.subrange(from as int, to as int),
{
    let mut out: Vec<u8> = Vec::new();
    let mut i: usize = from;
    while i < to
        invariant
            from <= i <= to <= s@.len(),
            out@ =~= s@.subrange(from as int, i as int),
        decreases to - i,
    {
        out.push(s[i]);
        assert(out@ =~= s@.subrange(from as int, i + 1));
        i = i + 1;
    }
    out
}

/// A fresh copy of a byte string.
pub fn copy_bytes(s: &Vec<u8>) -> (r: Vec<u8>)
    ensures
        r@ == s@,
{
    let r = sub_bytes(s, 0, s.len());
    proof {
        assert(r@ =~= s@);
    }
    r
}

/// Whether `s` is non-empty and all ASCII digits.
pub fn check_digits(s: &Vec<u8>) -> (r: bool)
    ensures
        r <==> s@.len() > 0 && all_digits(s@),
{
    if s.len() == 0 {
        return false;
    }
    let mut i: usize = 0;
    while i < s.len()
        invariant
            0 <= i <= s@.len(),
            all_digits(s@.take(i as int)),
        decreases s@.len() - i,
    {
        let b = s[i];
        if b < 48 || b > 57 {
            assert(!is_digit(s@[i as int]));
            return false;
        }
        assert(s@.take(i + 1).drop_last() =~= s@.take(i as int));
        assert(all_digits(s@.take(i + 1)));
        i = i + 1;
    }
    assert(s@.take(i as int) =~= s@);
    true
}

/// Equality of two byte strings.
pub fn bytes_eq(a: &Vec<u8>, b: &Vec<u8>) -> (r: bool)
    ensures
        r <==> a@ == b@,
{
    if a.len() != b.len() {
        return false;
    }
    let mut i: usize = 0;
    while i < a.len()
        invariant
            a@.len() == b@.len(),
            0 <= i <= a@.len(),
            forall|j: int| 0 <= j < i ==> a@[j] == b@[j],
        decreases a@.len() - i,
    {
        if a[i] != b[i] {
            return false;
        }
        i = i + 1;
    }
    proof {
        assert(a@ =~= b@);
    }
    true
}

/// Whether `p` is a prefix of `s`.
pub fn starts_with(s: &Vec<u8>, p: &Vec<u8>) -> (r: bool)
    ensures
        r <==> p@.is_prefix_of(s@),
{
    if p.len() > s.len() {
        assert(!p@.is_prefix_of(s@));
        return false;
    }
    let mut i: usize = 0;
    while i < p.len()
        invariant
            p@.len() <= s@.len(),
            0 <= i <= p@.len(),
            forall|j: int| 0 <= j < i ==> s@[j] == p@[j],
        decreases p@.len() - i,
    {
        if s[i] != p[i] {
            assert(!p@.is_prefix_of(s@));
            return false;
        }
        i = i + 1;
    }
    proof {
        assert(p@ =~= s@.take(p@.len() as int));
    }
    true
}

} // verus!
