use crate::string64::EncodingError;
use vstd::arithmetic::power2::{lemma2_to64, lemma2_to64_rest, lemma_pow2_adds, lemma_pow2_pos, pow2};
use vstd::prelude::*;
use vstd::string::StringSliceAdditionalSpecFns;

verus! {

/// The number whose base-256 digits are `b`, the first byte most significant.
pub open spec fn be_value(b: Seq<u8>) -> nat
    decreases b.len(),
{
    if b.len() == 0 {
        0
    } else {
        be_value(b.drop_last()) * 256 + b.last() as nat
    }
}

/// `k` null bytes.
pub open spec fn zeros(k: nat) -> Seq<u8> {
    Seq::new(k, |i: int| 0u8)
}

/// `b` followed by as many null bytes as it takes to reach eight bytes.
pub open spec fn padded(b: Seq<u8>) -> Seq<u8> {
    b + zeros((8 - b.len()) as nat)
}

/// Whether some byte of `b` is the null byte.
pub open spec fn contains_null(b: Seq<u8>) -> bool {
    exists|i: int| 0 <= i < b.len() && b[i] == 0
}

/// The byte sequences that have a packed form: at most eight bytes, none null.
pub open spec fn encodable(b: Seq<u8>) -> bool {
    b.len() <= 8 && !contains_null(b)
}

/// The packed form of `b`: its bytes, null padded to eight, read big endian.
pub open spec fn packed(b: Seq<u8>) -> u64 {
    be_value(padded(b)) as u64
}

/// What encoding `b` gives: the length is checked first, then the content.
pub open spec fn outcome(b: Seq<u8>) -> Result<u64, EncodingError> {
    if b.len() > 8 {
        Err(EncodingError::TooLong)
    } else if contains_null(b) {
        Err(EncodingError::EmbeddedNull)
    } else {
        Ok(packed(b))
    }
}

/// `be_value(b.take(k))` shifted left by the `8 - k` bytes that are still to come.
pub(crate) open spec fn prefix_value(b: Seq<u8>, k: nat) -> nat {
    be_value(b.take(k as int)) * pow2((8 * (8 - k)) as nat)
}

proof fn lemma_pow2_byte_step(k: nat)
    ensures
        pow2(8 * (k + 1)) == pow2(8 * k) * 256,
{
    lemma2_to64();
    lemma_pow2_adds(8 * k, 8);
    assert(8 * k + 8 == 8 * (k + 1));
}

/// A value with `n` digits in base 256 is below `256^n`.
pub proof fn lemma_be_value_bound(b: Seq<u8>)
    ensures
        be_value(b) < pow2(8 * b.len()),
    decreases b.len(),
{
    lemma2_to64();
    if b.len() > 0 {
        let n = (b.len() - 1) as nat;
        lemma_be_value_bound(b.drop_last());
        lemma_pow2_byte_step(n);
        let v = be_value(b.drop_last());
        let p = pow2(8 * n);
        let l = b.last() as nat;
        assert(v * 256 + l < p * 256) by (nonlinear_arith)
            requires
                v < p,
                l < 256,
        ;
    }
}

/// Two byte sequences of one length with the same value are the same.
pub proof fn lemma_be_value_injective(a: Seq<u8>, b: Seq<u8>)
    requires
        a.len() == b.len(),
        be_value(a) == be_value(b),
    ensures
        a == b,
    decreases a.len(),
{
    if a.len() > 0 {
        let x = be_value(a.drop_last());
        let y = be_value(b.drop_last());
        let la = a.last() as nat;
        let lb = b.last() as nat;
        assert(x == y && la == lb) by (nonlinear_arith)
            requires
                x * 256 + la == y * 256 + lb,
                la < 256,
                lb < 256,
        ;
        lemma_be_value_injective(a.drop_last(), b.drop_last());
        assert(a =~= a.drop_last().push(a.last()));
        assert(b =~= b.drop_last().push(b.last()));
    } else {
        assert(a =~= b);
    }
}

/// Null bytes appended to `b` shift its value left by one byte each.
proof fn lemma_be_value_zeros(b: Seq<u8>, k: nat)
    ensures
        be_value(b + zeros(k)) == be_value(b) * pow2(8 * k),
    decreases k,
{
    lemma2_to64();
    let s = b + zeros(k);
    if k == 0 {
        assert(s =~= b);
        assert(8 * k == 0);
        assert(pow2(0) == 1);
        assert(pow2(8 * k) == 1);
        assert(be_value(s) == be_value(b));
    } else {
        let k1 = (k - 1) as nat;
        lemma_be_value_zeros(b, k1);
        assert(s.drop_last() =~= b + zeros(k1));
        lemma_pow2_byte_step(k1);
        assert(k1 + 1 == k);
        assert(s.last() == 0);
        assert(be_value(s) == be_value(s.drop_last()) * 256 + s.last() as nat);
        let v = be_value(b);
        assert(v * pow2(8 * k1) * 256 == v * (pow2(8 * k1) * 256)) by (nonlinear_arith);
        assert(pow2(8 * k) == pow2(8 * k1) * 256);
        assert(be_value(s.drop_last()) == v * pow2(8 * k1));
        assert(be_value(s) == v * pow2(8 * k1) * 256);
        assert(be_value(s) == be_value(b) * pow2(8 * k));
    }
}

/// The packed form is the value of the padded bytes, with nothing lost in the cast.
pub(crate) proof fn lemma_packed_value(b: Seq<u8>)
    requires
        b.len() <= 8,
    ensures
        packed(b) as nat == be_value(padded(b)),
        packed(b) as nat == prefix_value(b, b.len()),
        padded(b).len() == 8,
{
    lemma2_to64_rest();
    lemma_be_value_zeros(b, (8 - b.len()) as nat);
    lemma_be_value_bound(padded(b));
    assert(b.take(b.len() as int) =~= b);
}

/// No byte placed yet: the prefix value is zero.
pub(crate) proof fn lemma_prefix_value_zero(b: Seq<u8>)
    ensures
        prefix_value(b, 0) == 0,
{
    assert(b.take(0) =~= Seq::<u8>::empty());
    assert(be_value(b.take(0)) == 0);
}

/// Placing byte `i` of `b` below a prefix value of `i` bytes gives the one of `i + 1`.
pub(crate) proof fn lemma_place_byte(b: Seq<u8>, i: nat)
    requires
        i < b.len() <= 8,
    ensures
        prefix_value(b, i) + b[i as int] as nat * pow2((8 * (7 - i)) as nat) == prefix_value(
            b,
            i + 1,
        ),
        prefix_value(b, i + 1) <= u64::MAX,
        b[i as int] as nat * pow2((8 * (7 - i)) as nat) <= u64::MAX,
{
    lemma2_to64_rest();
    let t = b.take(i as int);
    let t1 = b.take(i as int + 1);
    assert(t1.drop_last() =~= t);
    let p = pow2((8 * (7 - i)) as nat);
    lemma_pow2_byte_step((7 - i) as nat);
    assert((8 * (8 - i)) as nat == 8 * ((7 - i) as nat + 1));
    let v = be_value(t);
    let x = b[i as int] as nat;
    assert(v * (p * 256) + x * p == (v * 256 + x) * p) by (nonlinear_arith);
    lemma_be_value_bound(t1);
    lemma_pow2_adds(8 * (i + 1), (8 * (7 - i)) as nat);
    assert(8 * (i + 1) + (8 * (7 - i)) as nat == 64);
    let w = be_value(t1);
    let q = pow2(8 * (i + 1));
    lemma_pow2_pos((8 * (7 - i)) as nat);
    assert(w * p < q * p && x * p <= w * p) by (nonlinear_arith)
        requires
            w < q,
            x <= w,
            p > 0,
    ;
}

/// Encoding depends on the content of the string alone: equal strings encode alike.
pub proof fn lemma_determinism(s: &str, t: &str)
    requires
        s@ == t@,
    ensures
        outcome(s.spec_bytes()) == outcome(t.spec_bytes()),
{
}

/// Every input longer than eight bytes is refused as too long.
pub proof fn lemma_length_rejection(b: Seq<u8>)
    requires
        b.len() > 8,
    ensures
        outcome(b) == Err::<u64, EncodingError>(EncodingError::TooLong),
{
}

/// Every input of at most eight bytes that holds a null byte is refused for it.
pub proof fn lemma_null_rejection(b: Seq<u8>, i: int)
    requires
        b.len() <= 8,
        0 <= i < b.len(),
        b[i] == 0,
    ensures
        outcome(b) == Err::<u64, EncodingError>(EncodingError::EmbeddedNull),
{
}

/// Two different accepted inputs never share a packed form, so no padding can be
/// confused with content.
pub proof fn lemma_accepted_inputs_are_distinct(a: Seq<u8>, b: Seq<u8>)
    requires
        encodable(a),
        encodable(b),
        packed(a) == packed(b),
    ensures
        a == b,
{
    lemma_packed_value(a);
    lemma_packed_value(b);
    lemma_be_value_injective(padded(a), padded(b));
    if a.len() < b.len() {
        assert(padded(a)[a.len() as int] == 0);
        assert(b[a.len() as int] != 0);
    } else if b.len() < a.len() {
        assert(padded(b)[b.len() as int] == 0);
        assert(a[b.len() as int] != 0);
    }
    assert forall|i: int| 0 <= i < a.len() implies a[i] == b[i] by {
        assert(padded(a)[i] == a[i]);
        assert(padded(b)[i] == b[i]);
    }
    assert(a =~= b);
}

} // verus!
