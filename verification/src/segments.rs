//! Position arithmetic of the segment-packed blob store.
//!
//! An alternative layout used by the ingest pipeline: small blobs are
//! padded to a whole number of fixed-size segments and appended to one of
//! a family of packs, one pack per segment count; larger blobs live as
//! loose files.  A position multiplexes the pack offset (or the loose
//! sequence number) with the segment count in its low bits.  The
//! filesystem work around these computations stays with the caller.

use vstd::prelude::*;

use crate::Error;

verus! {

/// The fixed segment granularity, in bytes.
pub const SEGMENT_SIZE: u64 = 16;

/// How many segment counts get a pack of their own; anything larger is
/// stored loose.
pub const SEGMENTS: u64 = 4096;

/// The number of segments a blob of `len` bytes occupies, rounded up.
pub open spec fn spec_segment_id(len: int) -> int {
    (len - 1) / (SEGMENT_SIZE as int) + 1
}

/// The segment count of a blob of `len` bytes: its length divided by the
/// segment size, rounded up.  A blob with this count below `SEGMENTS`
/// goes to that count's pack; the rest are stored loose.
pub fn segment_id(len: u64) -> (r: u64)
    requires
        len >= 1,
    ensures
        r == spec_segment_id(len as int),
        1 <= r,
        (SEGMENT_SIZE * (r - 1) < len <= SEGMENT_SIZE * r),
{
    proof {
        vstd::arithmetic::div_mod::lemma_fundamental_div_mod(len as int - 1, SEGMENT_SIZE as int);
        vstd::arithmetic::div_mod::lemma_mod_bound(len as int - 1, SEGMENT_SIZE as int);
        vstd::arithmetic::div_mod::lemma_div_pos_is_pos(len as int - 1, SEGMENT_SIZE as int);
    }
    (len - 1) / SEGMENT_SIZE + 1
}

/// The global position of a blob appended to its segment pack: the
/// pack's end offset after the write, multiplexed with the segment count
/// in the low bits.
pub fn pack_position(pack_end: u64, id: u64) -> (r: Result<u64, Error>)
    requires
        1 <= id < SEGMENTS,
    ensures
        r matches Ok(pos) ==> pos == pack_end * SEGMENTS + id && pos % SEGMENTS == id && pos
            / SEGMENTS == pack_end,
        r is Err ==> pack_end > (u64::MAX - id) / (SEGMENTS as int),
{
    if pack_end > (u64::MAX - id) / SEGMENTS {
        return Err(Error::InvalidState);
    }
    proof {
        vstd::arithmetic::div_mod::lemma_fundamental_div_mod(
            (u64::MAX - id) as int,
            SEGMENTS as int,
        );
        vstd::arithmetic::div_mod::lemma_mod_bound((u64::MAX - id) as int, SEGMENTS as int);
        vstd::arithmetic::mul::lemma_mul_inequality(
            pack_end as int,
            ((u64::MAX - id) as int) / (SEGMENTS as int),
            SEGMENTS as int,
        );
        vstd::arithmetic::mul::lemma_mul_is_commutative(pack_end as int, SEGMENTS as int);
        vstd::arithmetic::div_mod::lemma_mod_multiples_vanish(
            pack_end as int,
            id as int,
            SEGMENTS as int,
        );
        vstd::arithmetic::div_mod::lemma_small_mod(id as nat, SEGMENTS as nat);
        vstd::arithmetic::div_mod::lemma_div_multiples_vanish_fancy(
            pack_end as int,
            id as int,
            SEGMENTS as int,
        );
    }
    Ok(pack_end * SEGMENTS + id)
}

/// The global position of a loose blob: its sequence number shifted past
/// the segment-count bits, which are zero for loose storage.
pub fn loose_position(loose: u64) -> (r: Result<u64, Error>)
    ensures
        r matches Ok(pos) ==> pos == loose * SEGMENTS && pos % SEGMENTS == 0,
        r is Err ==> loose > u64::MAX as int / (SEGMENTS as int),
{
    if loose > u64::MAX / SEGMENTS {
        return Err(Error::InvalidState);
    }
    proof {
        vstd::arithmetic::div_mod::lemma_fundamental_div_mod(u64::MAX as int, SEGMENTS as int);
        vstd::arithmetic::div_mod::lemma_mod_bound(u64::MAX as int, SEGMENTS as int);
        vstd::arithmetic::mul::lemma_mul_inequality(
            loose as int,
            (u64::MAX as int) / (SEGMENTS as int),
            SEGMENTS as int,
        );
        vstd::arithmetic::mul::lemma_mul_is_commutative(loose as int, SEGMENTS as int);
        vstd::arithmetic::div_mod::lemma_mod_multiples_basic(loose as int, SEGMENTS as int);
    }
    Ok(loose * SEGMENTS)
}

/// Pads a blob image with zero bytes to exactly `id` segments, the unit
/// the segment packs append in.
pub fn pad_to_segments(buf: &mut Vec<u8>, id: u64)
    requires
        id * SEGMENT_SIZE <= usize::MAX,
        old(buf)@.len() <= id * SEGMENT_SIZE,
    ensures
        final(buf)@.len() == id * SEGMENT_SIZE,
        final(buf)@ == old(buf)@ + Seq::new(
            (id * SEGMENT_SIZE - old(buf)@.len()) as nat,
            |i: int| 0u8,
        ),
{
    let target: usize = (id * SEGMENT_SIZE) as usize;
    let ghost base = buf@;
    while buf.len() < target
        invariant
            buf@.len() <= target,
            target == id * SEGMENT_SIZE,
            base.len() <= buf@.len(),
            buf@ == base + Seq::new((buf@.len() - base.len()) as nat, |i: int| 0u8),
        decreases target - buf@.len(),
    {
        buf.push(0);
        proof {
            assert(buf@ =~= base + Seq::new((buf@.len() - base.len()) as nat, |i: int| 0u8));
        }
    }
}

} // verus!
