//! The codec for the `BootOrder` variable: a tightly packed sequence of
//! 16-bit load-option indices, in boot-priority order.

use vstd::prelude::*;

use crate::bytes::u16_from_le;
use crate::bytes::u16_to_le;
use crate::bytes::u16s_to_le;
use crate::bytes::read_u16_le;
use crate::bytes::push_u16_le;
use crate::bytes::lemma_u16_le_round_trip;
use crate::errors::BootVarError;

verus! {

/// The decoded boot order: load-option indices in boot-priority order.
pub struct EfiBootOrder {
    pub boot_order: Vec<u16>,
}

impl View for EfiBootOrder {
    type V = Seq<u16>;

    open spec fn view(&self) -> Seq<u16> {
        self.boot_order@
    }
}

/// Decoding the `BootOrder` bytes: consecutive little-endian 16-bit
/// indices. A buffer of odd length is rejected, never silently truncated.
pub open spec fn spec_decode_boot_order(b: Seq<u8>) -> Result<Seq<u16>, BootVarError> {
    if b.len() % 2 != 0 {
        Result::Err(BootVarError::OddLengthBuffer)
    } else {
        Result::Ok(Seq::new(b.len() / 2, |i: int| u16_from_le(b[2 * i], b[2 * i + 1])))
    }
}

/// The serialized `BootOrder` bytes: each index in order, little-endian.
pub open spec fn spec_encode_boot_order(s: Seq<u16>) -> Seq<u8> {
    u16s_to_le(s)
}

/// Round trip: any even-length buffer decodes, and re-encoding the decoded
/// indices reproduces the buffer byte for byte.
pub proof fn lemma_boot_order_round_trip(b: Seq<u8>)
    requires
        b.len() % 2 == 0,
    ensures
        spec_decode_boot_order(b) is Ok,
        spec_encode_boot_order(spec_decode_boot_order(b)->Ok_0) == b,
    decreases b.len(),
{
    let s = spec_decode_boot_order(b)->Ok_0;
    if b.len() == 0 {
        assert(spec_encode_boot_order(s) =~= b);
    } else {
        let b2 = b.skip(2);
        lemma_boot_order_round_trip(b2);
        let s2 = spec_decode_boot_order(b2)->Ok_0;
        assert(s.drop_first() =~= s2);
        assert(u16_to_le(s[0]) =~= seq![b[0], b[1]]) by {
            lemma_u16_le_round_trip(b[0], b[1]);
        }
        assert(spec_encode_boot_order(s) =~= b);
    }
}

/// Malformed input: a buffer of odd length always fails with
/// `OddLengthBuffer`.
pub proof fn lemma_odd_buffer_fails(b: Seq<u8>)
    requires
        b.len() % 2 == 1,
    ensures
        spec_decode_boot_order(b) == Result::<Seq<u16>, BootVarError>::Err(
            BootVarError::OddLengthBuffer,
        ),
{
}

impl EfiBootOrder {
    /// Decode the boot order from the raw bytes of the `BootOrder`
    /// variable.
    pub fn new_from_variable(value: &[u8]) -> (r: Result<EfiBootOrder, BootVarError>)
        ensures
            match r {
                Ok(o) => spec_decode_boot_order(value@) == Result::<Seq<u16>, BootVarError>::Ok(
                    o@,
                ),
                Err(e) => spec_decode_boot_order(value@) == Result::<Seq<u16>, BootVarError>::Err(
                    e,
                ),
            },
    {
        let n: usize = value.len();
        if n % 2 != 0 {
            return Err(BootVarError::OddLengthBuffer);
        }
        let mut boot_order: Vec<u16> = Vec::new();
        let mut i: usize = 0;
        while i < n
            invariant
                i <= n,
                i % 2 == 0,
                n % 2 == 0,
                n == value@.len(),
                boot_order@.len() == i / 2,
                forall|j: int|
                    0 <= j < i / 2 ==> #[trigger] boot_order@[j] == u16_from_le(
                        value@[2 * j],
                        value@[2 * j + 1],
                    ),
            decreases n - i,
        {
            boot_order.push(read_u16_le(value, i));
            i = i + 2;
        }
        proof {
            assert(boot_order@ =~= spec_decode_boot_order(value@)->Ok_0);
        }
        Ok(EfiBootOrder { boot_order })
    }

    /// Serialize the boot order: each index in order, little-endian.
    pub fn as_bytes(&self) -> (r: Vec<u8>)
        ensures
            r@ == spec_encode_boot_order(self@),
    {
        let mut out: Vec<u8> = Vec::new();
        proof {
            assert(self@.skip(0) =~= self@);
            assert(Seq::<u8>::empty() + u16s_to_le(self@) =~= u16s_to_le(self@));
        }
        let mut j: usize = 0;
        while j < self.boot_order.len()
            invariant
                0 <= j <= self.boot_order@.len(),
                out@ + u16s_to_le(self@.skip(j as int)) == u16s_to_le(self@),
            decreases self.boot_order@.len() - j,
        {
            proof {
                assert(self@.skip(j as int)[0] == self@[j as int]);
                assert(self@.skip(j as int).drop_first() =~= self@.skip(j as int + 1));
            }
            let ghost out0 = out@;
            push_u16_le(&mut out, self.boot_order[j]);
            proof {
                assert(out@ + u16s_to_le(self@.skip(j as int + 1)) =~= out0 + (u16_to_le(
                    self@[j as int],
                ) + u16s_to_le(self@.skip(j as int + 1))));
            }
            j = j + 1;
        }
        proof {
            assert(self@.skip(self@.len() as int) =~= Seq::<u16>::empty());
            assert(u16s_to_le(self@.skip(self@.len() as int)) =~= Seq::<u8>::empty());
            assert(out@ =~= u16s_to_le(self@));
        }
        out
    }
}

} // verus!
