//! Unsigned values carried as big-endian byte strings.
//!
//! Transaction fields and 32-byte ABI words denote unsigned values up to
//! 256 bits wide. They are kept as byte strings and rendered in decimal
//! through an arbitrary-precision integer, never truncated to a machine
//! word.

use vstd::prelude::*;

verus! {

/// The unsigned value that a big-endian byte string denotes.
pub open spec fn be_val(b: Seq<u8>) -> nat
    decreases b.len(),
{
    if b.len() == 0 {
        0
    } else {
        (be_val(b.drop_last()) * 256 + b.last()) as nat
    }
}

/// The decimal digit character for a value below 10 (`'0'` = 48).
pub open spec fn dec_digit_char(d: nat) -> char
    recommends
        d < 10,
{
    ((d + 48) as u8) as char
}

/// The decimal rendering of an unsigned value: no sign, no leading
/// zeros, a single `'0'` for zero.
pub open spec fn dec_chars_of(n: nat) -> Seq<char>
    decreases n,
{
    if n < 10 {
        seq![dec_digit_char(n)]
    } else {
        dec_chars_of(n / 10).push(dec_digit_char(n % 10))
    }
}

/// A canonical scalar byte string: minimal, so the zero value is the
/// empty string and no other value starts with a zero byte.
pub open spec fn is_canonical_scalar(b: Seq<u8>) -> bool {
    b.len() == 0 || b[0] != 0
}

/// Prefixes of a byte string denote no more than the whole: appending
/// bytes multiplies the value and adds the new byte.
pub proof fn lemma_be_val_take_step(b: Seq<u8>, i: int)
    requires
        0 <= i < b.len(),
    ensures
        be_val(b.take(i + 1)) == be_val(b.take(i)) * 256 + b[i],
{
    assert(b.take(i + 1).drop_last() =~= b.take(i));
    assert(b.take(i + 1).last() == b[i]);
}

/// The value of a whole byte string is at least the value of any prefix.
pub proof fn lemma_be_val_take_monotone(b: Seq<u8>, i: int)
    requires
        0 <= i <= b.len(),
    ensures
        be_val(b) >= be_val(b.take(i)),
        i < b.len() ==> be_val(b) >= be_val(b.take(i)) * 256,
    decreases b.len() - i,
{
    if i == b.len() {
        assert(b.take(i) =~= b);
    } else {
        lemma_be_val_take_step(b, i);
        lemma_be_val_take_monotone(b, i + 1);
        assert(be_val(b.take(i + 1)) >= be_val(b.take(i)) * 256);
    }
}

/// A byte string with a nonzero first byte denotes a nonzero value.
pub proof fn lemma_be_val_pos(b: Seq<u8>)
    requires
        b.len() > 0,
        b[0] != 0,
    ensures
        be_val(b) >= 1,
{
    lemma_be_val_take_monotone(b, 1);
    assert(b.take(1).drop_last() =~= Seq::<u8>::empty());
    assert(b.take(1).last() == b[0]);
    assert(be_val(b.take(1)) == be_val(Seq::<u8>::empty()) * 256 + b[0]);
    assert(be_val(b.take(1)) == b[0]);
}

/// The minimal big-endian byte string of an unsigned value: empty for
/// zero, no leading zero byte otherwise.
pub open spec fn min_be_bytes(n: nat) -> Seq<u8>
    decreases n,
{
    if n == 0 {
        Seq::empty()
    } else {
        min_be_bytes(n / 256).push((n % 256) as u8)
    }
}

/// `min_be_bytes` inverts `be_val` on canonical nonempty byte strings.
pub proof fn lemma_min_be_bytes_of_canonical(b: Seq<u8>)
    requires
        b.len() > 0,
        b[0] != 0,
    ensures
        min_be_bytes(be_val(b)) == b,
    decreases b.len(),
{
    lemma_be_val_pos(b);
    let v = be_val(b);
    assert(v == be_val(b.drop_last()) * 256 + b.last());
    assert(v % 256 == b.last() && v / 256 == be_val(b.drop_last())) by (nonlinear_arith)
        requires
            v == be_val(b.drop_last()) * 256 + b.last(),
            b.last() < 256,
    ;
    if b.len() == 1 {
        assert(be_val(b.drop_last()) == 0);
        assert(min_be_bytes(0) == Seq::<u8>::empty());
        assert(min_be_bytes(v) == min_be_bytes(v / 256).push((v % 256) as u8));
        assert(min_be_bytes(v) =~= seq![(v % 256) as u8]);
        assert(min_be_bytes(v) =~= b);
    } else {
        assert(b.drop_last()[0] == b[0]);
        lemma_min_be_bytes_of_canonical(b.drop_last());
        lemma_be_val_pos(b.drop_last());
        assert(min_be_bytes(v) =~= b);
    }
}

/// `be_val` inverts `min_be_bytes`: the minimal byte string of a value
/// denotes that value.
pub proof fn lemma_be_val_min_be(n: nat)
    ensures
        be_val(min_be_bytes(n)) == n,
    decreases n,
{
    if n > 0 {
        lemma_be_val_min_be(n / 256);
        assert(min_be_bytes(n).drop_last() =~= min_be_bytes(n / 256));
        assert(min_be_bytes(n).last() == (n % 256) as u8);
    }
}

/// The minimal byte string of a nonzero value starts with a nonzero byte.
pub proof fn lemma_min_be_no_leading_zero(n: nat)
    ensures
        n > 0 ==> min_be_bytes(n).len() > 0 && min_be_bytes(n)[0] != 0,
    decreases n,
{
    if n > 0 {
        lemma_min_be_no_leading_zero(n / 256);
        if n / 256 > 0 {
            assert(min_be_bytes(n)[0] == min_be_bytes(n / 256)[0]);
        } else {
            assert(min_be_bytes(0) == Seq::<u8>::empty());
            assert(min_be_bytes(n) == min_be_bytes(n / 256).push((n % 256) as u8));
            assert(min_be_bytes(n) =~= seq![(n % 256) as u8]);
            assert(n % 256 == n);
        }
    }
}

/// The minimal byte string of a value below `256^8` has at most 8 bytes,
/// which covers every `usize` length on targets up to 64 bits.
pub proof fn lemma_min_be_bytes_len8(n: nat)
    requires
        n < 0x1_0000_0000_0000_0000,
    ensures
        min_be_bytes(n).len() <= 8,
{
    let n1 = n / 256;
    let n2 = n1 / 256;
    let n3 = n2 / 256;
    let n4 = n3 / 256;
    let n5 = n4 / 256;
    let n6 = n5 / 256;
    let n7 = n6 / 256;
    let n8 = n7 / 256;
    assert(n8 == 0);
    assert(min_be_bytes(n8).len() == 0);
    assert(min_be_bytes(n7).len() <= 1);
    assert(min_be_bytes(n6).len() <= 2);
    assert(min_be_bytes(n5).len() <= 3);
    assert(min_be_bytes(n4).len() <= 4);
    assert(min_be_bytes(n3).len() <= 5);
    assert(min_be_bytes(n2).len() <= 6);
    assert(min_be_bytes(n1).len() <= 7);
    assert(min_be_bytes(n).len() <= 8);
}

/// Relies on `num_bigint::BigUint::from_bytes_be` and its decimal
/// `Display` rendering: the big-endian bytes denote an unsigned value,
/// printed in decimal with no sign and no leading zeros (`"0"` for the
/// empty input).
#[verifier::external_body]
pub(crate) fn biguint_decimal_of_be_bytes(b: &[u8]) -> (r: String)
    ensures
        r@ == dec_chars_of(be_val(b@)),
{
    num_bigint::BigUint::from_bytes_be(b).to_string()
}

/// The value of a big-endian byte string, where it fits a `u64`.
pub fn be_val_u64(b: &[u8]) -> (r: Option<u64>)
    ensures
        r is Some <==> be_val(b@) <= u64::MAX,
        r is Some ==> r->Some_0 == be_val(b@),
{
    let n = b.len();
    let mut acc: u64 = 0;
    let mut i: usize = 0;
    proof {
        assert(b@.take(0) =~= Seq::<u8>::empty());
    }
    while i < n
        invariant
            i <= n,
            n == b@.len(),
            acc == be_val(b@.take(i as int)),
        decreases n - i,
    {
        if acc > 0xff_ffff_ffff_ffffu64 {
            proof {
                lemma_be_val_take_monotone(b@, i as int);
            }
            return None;
        }
        proof {
            lemma_be_val_take_step(b@, i as int);
        }
        acc = acc * 256 + (b[i] as u64);
        i = i + 1;
    }
    proof {
        assert(b@.take(n as int) =~= b@);
    }
    Some(acc)
}

} // verus!
