use crate::model::{
    contains_null, encodable, lemma_packed_value, lemma_place_byte, lemma_prefix_value_zero, outcome, packed, padded,
    prefix_value,
};
use vstd::bits::lemma_u64_shl_is_mul;
use vstd::prelude::*;
use vstd::string::StringSliceAdditionalSpecFns;

verus! {

/// Why a byte sequence has no packed form.
#[derive(Debug, Clone, Copy, PartialEq, Eq, Structural, Hash)]
pub enum EncodingError {
    /// More than eight bytes.
    TooLong,
    /// A null byte, which is kept for padding.
    EmbeddedNull,
}

/// A string of at most eight bytes, packed into one `u64`.
///
/// The first byte is the most significant one and unused bytes are null, so
/// no null byte may stand in the content: otherwise `"h"` and `"h\0"` would
/// be the same value.
#[derive(Debug, Clone, Copy, PartialEq, Eq, Structural, Hash)]
pub struct String64(u64);

impl View for String64 {
    type V = u64;

    closed spec fn view(&self) -> u64 {
        self.0
    }
}

/// The packed integer of a successful result, the error otherwise.
pub open spec fn packed_result(r: Result<String64, EncodingError>) -> Result<u64, EncodingError> {
    match r {
        Ok(v) => Ok(v@),
        Err(e) => Err(e),
    }
}

/// Whether `b` holds a null byte.
fn has_null_byte(b: &[u8]) -> (r: bool)
    ensures
        r == contains_null(b@),
{
    let mut i: usize = 0;
    while i < b.len()
        invariant
            i <= b.len(),
            forall|j: int| 0 <= j < i ==> b@[j] != 0,
        decreases b.len() - i,
    {
        if b[i] == 0 {
            return true;
        }
        i += 1;
    }
    false
}

/// Adds byte `i` of `b` to `acc`, in the place that it has in the packed form.
fn place_byte(acc: u64, b: &[u8], i: usize) -> (r: u64)
    requires
        i < b.len() <= 8,
        acc as nat == prefix_value(b@, i as nat),
    ensures
        r as nat == prefix_value(b@, i as nat + 1),
{
    let x = b[i] as u64;
    let shift: u64 = 56 - 8 * (i as u64);
    proof {
        lemma_place_byte(b@, i as nat);
        assert(shift as nat == (8 * (7 - i)) as nat);
        lemma_u64_shl_is_mul(x, shift);
    }
    acc + (x << shift)
}

/// Relies on `u64::from_be_bytes`: the bytes read as a big-endian integer.
#[verifier::external_body]
fn u64_from_be_bytes(a: [u8; 8]) -> (r: u64)
    ensures
        r as nat == crate::model::be_value(a@),
{
    u64::from_be_bytes(a)
}

impl String64 {
    #[verifier::type_invariant]
    spec fn inv(self) -> bool {
        exists|b: Seq<u8>| encodable(b) && #[trigger] packed(b) == self.0
    }

    /// The packed form of `b`, or why it has none.
    pub fn from_bytes(b: &[u8]) -> (r: Result<String64, EncodingError>)
        ensures
            packed_result(r) == outcome(b@),
    {
        if b.len() > 8 {
            return Err(EncodingError::TooLong);
        }
        if has_null_byte(b) {
            return Err(EncodingError::EmbeddedNull);
        }
        let mut res: u64 = 0;
        let mut i: usize = 0;
        proof {
            lemma_prefix_value_zero(b@);
        }
        while i < b.len()
            invariant
                i <= b.len() <= 8,
                res as nat == prefix_value(b@, i as nat),
            decreases b.len() - i,
        {
            res = place_byte(res, b, i);
            i += 1;
        }
        proof {
            lemma_packed_value(b@);
        }
        Ok(String64(res))
    }

    /// The packed form of the bytes of `s`, or why it has none.
    pub fn new(s: &str) -> (r: Result<String64, EncodingError>)
        ensures
            packed_result(r) == outcome(s.spec_bytes()),
    {
        Self::from_bytes(s.as_bytes())
    }

    /// The packed form of the bytes of `s`, built in an eight-byte buffer.
    pub fn new_alt1(s: &str) -> (r: Result<String64, EncodingError>)
        ensures
            packed_result(r) == outcome(s.spec_bytes()),
    {
        let b = s.as_bytes();
        if b.len() > 8 {
            return Err(EncodingError::TooLong);
        }
        if has_null_byte(b) {
            return Err(EncodingError::EmbeddedNull);
        }
        let mut array = [0u8; 8];
        let mut i: usize = 0;
        while i < b.len()
            invariant
                i <= b.len() <= 8,
                forall|j: int| 0 <= j < i ==> array@[j] == b@[j],
                forall|j: int| i <= j < 8 ==> array@[j] == 0,
            decreases b.len() - i,
        {
            array[i] = b[i];
            i += 1;
        }
        proof {
            lemma_packed_value(b@);
            assert(array@ =~= padded(b@));
        }
        let v = u64_from_be_bytes(array);
        Ok(String64(v))
    }

    /// The packed form of `s`, for a string known to have one.
    ///
    /// The bytes are placed one by one, with no loop.
    pub fn const_new(s: &str) -> (r: String64)
        requires
            encodable(s.spec_bytes()),
        ensures
            r@ == packed(s.spec_bytes()),
    {
        let bs = s.as_bytes();
        let len = s.len();
        let mut res: u64 = 0;
        proof {
            lemma_prefix_value_zero(bs@);
        }
        if len >= 1 {
            res = place_byte(res, bs, 0);
        }
        if len >= 2 {
            res = place_byte(res, bs, 1);
        }
        if len >= 3 {
            res = place_byte(res, bs, 2);
        }
        if len >= 4 {
            res = place_byte(res, bs, 3);
        }
        if len >= 5 {
            res = place_byte(res, bs, 4);
        }
        if len >= 6 {
            res = place_byte(res, bs, 5);
        }
        if len >= 7 {
            res = place_byte(res, bs, 6);
        }
        if len == 8 {
            res = place_byte(res, bs, 7);
        }
        proof {
            lemma_packed_value(bs@);
        }
        String64(res)
    }

    /// The value held in `o`, which must be one.
    pub fn unwrap(o: Result<Self, EncodingError>) -> (r: Self)
        requires
            o is Ok,
        ensures
            o == Ok::<Self, EncodingError>(r),
    {
        match o {
            Ok(v) => v,
            Err(_) => {
                proof {
                    assert(false);
                }
                String64(0)
            },
        }
    }

    /// The packed integer.
    pub fn value(&self) -> (r: u64)
        ensures
            r == self@,
    {
        self.0
    }
}

} // verus!
