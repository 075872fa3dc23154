//! Big-endian byte packing and decimal text conversions shared by the
//! assembler and the virtual machine.
//!
//! All multi-byte quantities in the Transient image format are big-endian:
//! a stored value of width `w` is the sequence of the `w` least-significant
//! bytes of its 64-bit big-endian encoding.
use vstd::prelude::*;

verus! {

/// `256^n`, the number of distinct values of an `n`-byte field.
pub open spec fn pow256(n: nat) -> nat
    decreases n,
{
    if n == 0 {
        1
    } else {
        256 * pow256((n - 1) as nat)
    }
}

/// The unsigned value of a big-endian byte sequence.
pub open spec fn be_val(s: Seq<u8>) -> int
    decreases s.len(),
{
    if s.len() == 0 {
        0
    } else {
        be_val(s.drop_last()) * 256 + s.last()
    }
}

/// The `w` least-significant bytes of the big-endian encoding of `v`.
pub open spec fn be_bytes(v: int, w: nat) -> Seq<u8>
    decreases w,
{
    if w == 0 {
        Seq::empty()
    } else {
        be_bytes(v / 256, (w - 1) as nat).push((v % 256) as u8)
    }
}

pub proof fn lemma_pow256_pos(n: nat)
    ensures
        pow256(n) >= 1,
    decreases n,
{
    if n > 0 {
        lemma_pow256_pos((n - 1) as nat);
    }
}

pub proof fn lemma_pow256_mono(a: nat, b: nat)
    requires
        a <= b,
    ensures
        pow256(a) <= pow256(b),
    decreases b,
{
    if a < b {
        lemma_pow256_mono(a, (b - 1) as nat);
        lemma_pow256_pos((b - 1) as nat);
    }
}

/// An 8-byte field spans exactly the unsigned 64-bit range.
pub proof fn lemma_pow256_8()
    ensures
        pow256(8) == 0x1_0000_0000_0000_0000,
{
    assert(pow256(0) == 1);
    assert(pow256(1) == 256 * pow256(0));
    assert(pow256(2) == 256 * pow256(1));
    assert(pow256(3) == 256 * pow256(2));
    assert(pow256(4) == 256 * pow256(3));
    assert(pow256(5) == 256 * pow256(4));
    assert(pow256(6) == 256 * pow256(5));
    assert(pow256(7) == 256 * pow256(6));
    assert(pow256(8) == 256 * pow256(7));
}

pub proof fn lemma_be_bytes_len(v: int, w: nat)
    ensures
        be_bytes(v, w).len() == w,
    decreases w,
{
    if w > 0 {
        lemma_be_bytes_len(v / 256, (w - 1) as nat);
    }
}

pub proof fn lemma_be_val_nonneg(s: Seq<u8>)
    ensures
        be_val(s) >= 0,
    decreases s.len(),
{
    if s.len() > 0 {
        lemma_be_val_nonneg(s.drop_last());
    }
}

pub proof fn lemma_be_val_bound(s: Seq<u8>)
    ensures
        0 <= be_val(s) < pow256(s.len()),
    decreases s.len(),
{
    if s.len() > 0 {
        lemma_be_val_bound(s.drop_last());
    }
}

/// Reading back the `w`-byte encoding of `v` yields `v` modulo `256^w`.
pub proof fn lemma_be_val_of_be_bytes(v: int, w: nat)
    requires
        v >= 0,
    ensures
        be_val(be_bytes(v, w)) == v % (pow256(w) as int),
    decreases w,
{
    if w == 0 {
        assert(v % 1 == 0);
    } else {
        let w1 = (w - 1) as nat;
        lemma_be_bytes_len(v / 256, w1);
        lemma_be_val_of_be_bytes(v / 256, w1);
        lemma_pow256_pos(w1);
        assert(be_bytes(v, w).drop_last() =~= be_bytes(v / 256, w1));
        let p1 = pow256(w1) as int;
        assert(be_val(be_bytes(v, w)) == ((v / 256) % p1) * 256 + v % 256);
        vstd::arithmetic::div_mod::lemma_breakdown(v, 256, p1);
        assert(256 * ((v / 256) % p1) == ((v / 256) % p1) * 256) by (nonlinear_arith);
        assert(pow256(w) == 256 * p1);
    }
}

/// Encoding the value of a `w`-byte sequence reproduces the sequence exactly.
pub proof fn lemma_be_bytes_of_be_val(s: Seq<u8>)
    ensures
        be_bytes(be_val(s), s.len()) == s,
    decreases s.len(),
{
    if s.len() > 0 {
        let pre = s.drop_last();
        lemma_be_val_nonneg(pre);
        lemma_be_bytes_of_be_val(pre);
        let v = be_val(s);
        assert(v / 256 == be_val(pre) && v % 256 == s.last()) by (nonlinear_arith)
            requires
                v == be_val(pre) * 256 + s.last(),
                be_val(pre) >= 0,
                0 <= s.last() < 256,
        ;
        assert(be_bytes(be_val(s), s.len()) =~= s);
    }
}

/// Right-aligns `data` (at most 8 bytes) into an 8-byte array, filling the
/// leading bytes with zeros.
pub fn u64_pad_be(data: &[u8]) -> (r: [u8; 8])
    requires
        data.len() <= 8,
    ensures
        r@ == Seq::new((8 - data@.len()) as nat, |_i: int| 0u8) + data@,
{
    let k = 8 - data.len();
    let b0 = if 0 < k { 0 } else { data[0 - k] };
    let b1 = if 1 < k { 0 } else { data[1 - k] };
    let b2 = if 2 < k { 0 } else { data[2 - k] };
    let b3 = if 3 < k { 0 } else { data[3 - k] };
    let b4 = if 4 < k { 0 } else { data[4 - k] };
    let b5 = if 5 < k { 0 } else { data[5 - k] };
    let b6 = if 6 < k { 0 } else { data[6 - k] };
    let b7 = if 7 < k { 0 } else { data[7 - k] };
    let r = [b0, b1, b2, b3, b4, b5, b6, b7];
    proof {
        assert(r@ =~= Seq::new((8 - data@.len()) as nat, |_i: int| 0u8) + data@);
    }
    r
}

/// Produces the `w` least-significant bytes of the big-endian encoding of `v`.
pub fn be_bytes_of(v: u64, w: usize) -> (r: Vec<u8>)
    ensures
        r@ == be_bytes(v as int, w as nat),
    decreases w,
{
    if w == 0 {
        Vec::new()
    } else {
        let mut r = be_bytes_of(v / 256, w - 1);
        r.push((v % 256) as u8);
        r
    }
}

/// The ASCII decimal digits of `n`, most significant first, no leading zeros
/// (a single `0` for zero).
pub open spec fn dec_digits(n: nat) -> Seq<u8>
    decreases n,
{
    if n < 10 {
        seq![(48 + n) as u8]
    } else {
        dec_digits(n / 10).push((48 + n % 10) as u8)
    }
}

/// Renders `n` in ASCII decimal.
pub fn u64_to_dec(n: u64) -> (r: Vec<u8>)
    ensures
        r@ == dec_digits(n as nat),
    decreases n,
{
    if n < 10 {
        let mut r: Vec<u8> = Vec::new();
        r.push(48 + (n as u8));
        proof {
            assert(r@ =~= dec_digits(n as nat));
        }
        r
    } else {
        let mut r = u64_to_dec(n / 10);
        r.push(48 + ((n % 10) as u8));
        r
    }
}

pub open spec fn is_dec_digit(b: u8) -> bool {
    48 <= b <= 57
}

pub open spec fn all_dec_digits(s: Seq<u8>) -> bool {
    forall|i: int| 0 <= i < s.len() ==> is_dec_digit(#[trigger] s[i])
}

/// The numeric value of a sequence of ASCII decimal digits.
pub open spec fn dec_val(s: Seq<u8>) -> int
    decreases s.len(),
{
    if s.len() == 0 {
        0
    } else {
        dec_val(s.drop_last()) * 10 + (s.last() - 48)
    }
}

/// What parsing a byte sequence as an unsigned 64-bit decimal yields: the
/// value if the text is one or more digits and fits, nothing otherwise.
pub open spec fn parse_dec_spec(s: Seq<u8>) -> Option<u64> {
    if s.len() >= 1 && all_dec_digits(s) && dec_val(s) <= u64::MAX {
        Some(dec_val(s) as u64)
    } else {
        None
    }
}

pub proof fn lemma_dec_val_nonneg(s: Seq<u8>)
    requires
        all_dec_digits(s),
    ensures
        dec_val(s) >= 0,
    decreases s.len(),
{
    if s.len() > 0 {
        assert(all_dec_digits(s.drop_last()));
        lemma_dec_val_nonneg(s.drop_last());
    }
}

/// A digit string's value only grows as digits are appended.
pub proof fn lemma_dec_val_prefix_le(s: Seq<u8>, i: int)
    requires
        0 <= i <= s.len(),
        all_dec_digits(s),
    ensures
        dec_val(s.take(i)) <= dec_val(s),
    decreases s.len() - i,
{
    if i < s.len() {
        lemma_dec_val_prefix_le(s, i + 1);
        let t = s.take(i + 1);
        assert(t.drop_last() =~= s.take(i));
        assert(all_dec_digits(s.take(i)));
        lemma_dec_val_nonneg(s.take(i));
        assert(dec_val(s.take(i)) <= dec_val(s.take(i)) * 10 + (t.last() - 48));
    } else {
        assert(s.take(i) =~= s);
    }
}

/// Parses an unsigned decimal number; fails on empty input, on any non-digit
/// byte, and on values that do not fit in 64 bits.
pub fn parse_dec(s: &Vec<u8>) -> (r: Option<u64>)
    ensures
        r == parse_dec_spec(s@),
{
    if s.len() == 0 {
        return None;
    }
    let mut acc: u64 = 0;
    let mut i: usize = 0;
    while i < s.len()
        invariant
            0 <= i <= s@.len(),
            all_dec_digits(s@.take(i as int)),
            acc == dec_val(s@.take(i as int)),
        decreases s@.len() - i,
    {
        let b = s[i];
        if !(48 <= b && b <= 57) {
            assert(!is_dec_digit(s@[i as int]));
            return None;
        }
        let d = (b - 48) as u64;
        proof {
            assert(s@.take(i + 1).drop_last() =~= s@.take(i as int));
            assert(all_dec_digits(s@.take(i + 1)));
        }
        let m = match acc.checked_mul(10) {
            Some(m) => m,
            None => {
                proof {
                    lemma_dec_val_nonneg(s@.take(i as int));
                    assert(dec_val(s@.take(i + 1)) > u64::MAX);
                    if all_dec_digits(s@) {
                        lemma_dec_val_prefix_le(s@, i + 1);
                    }
                }
                return None;
            },
        };
        let a = match m.checked_add(d) {
            Some(a) => a,
            None => {
                proof {
                    assert(dec_val(s@.take(i + 1)) > u64::MAX);
                    if all_dec_digits(s@) {
                        lemma_dec_val_prefix_le(s@, i + 1);
                    }
                }
                return None;
            },
        };
        acc = a;
        i = i + 1;
    }
    proof {
        assert(s@.take(i as int) =~= s@);
    }
    Some(acc)
}

} // verus!
