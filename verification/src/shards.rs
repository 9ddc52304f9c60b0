//! The sharded store: sixteen pack-file families, one per shard.
//!
//! A blob is routed to a shard by its size magnitude and text-ness, framed
//! into that shard's current pack-file image, and addressed by a global
//! position whose low four bits carry the shard id.  A pack family rotates
//! to the next numbered file once an entry would start at or past the
//! block size.  This module works on in-memory file images; the caller
//! owns the file handles, the OS locks, and the flushing of the images.

use vstd::prelude::*;

use crate::names::{magic_offset_only, spec_shard_id, BLOCK_SIZE};
use crate::pack::{
    file_appendable, frame_extra_at, frame_payload_at, frame_valid_at, lemma_append_then_read,
    spec_frame, spec_pack_header, writey_write, MAX_FRAME_END,
};
use crate::Error;

verus! {

/// One shard's current pack file: its image and its file number.
pub struct Shard {
    /// The current pack-file image.
    pub file: Vec<u8>,
    /// Which numbered file of the family this is.
    pub nth: u64,
}

/// The sixteen shard slots; a slot opens lazily on first use.
pub struct ShardedStore {
    /// One optional open pack file per shard id.
    pub shards: Vec<Option<Shard>>,
}

/// The file number the next record of this slot goes to.
pub open spec fn spec_store_nth(slot: Option<Shard>) -> int {
    match slot {
        None => 0,
        Some(sh) => if sh.file@.len() >= BLOCK_SIZE {
            sh.nth + 1
        } else {
            sh.nth as int
        },
    }
}

/// The image the next record of this slot is appended to: empty for a
/// fresh or freshly rotated file, else the slot's current image.
pub open spec fn spec_store_file(slot: Option<Shard>) -> Seq<u8> {
    match slot {
        None => Seq::empty(),
        Some(sh) => if sh.file@.len() >= BLOCK_SIZE {
            Seq::empty()
        } else {
            sh.file@
        },
    }
}

/// The image `spec_store_file` grows from: the fixed header when it is
/// still empty.
pub open spec fn spec_store_base(slot: Option<Shard>) -> Seq<u8> {
    if spec_store_file(slot).len() == 0 {
        spec_pack_header()
    } else {
        spec_store_file(slot)
    }
}

/// The slot has run out of file numbers: its image is full and the next
/// number would leave the representable family.
pub open spec fn spec_store_exhausted(slot: Option<Shard>) -> bool {
    slot matches Some(sh) && sh.file@.len() >= BLOCK_SIZE && sh.nth >= 0x3_FFFF_FFFE
}

impl ShardedStore {
    /// Sixteen slots, each holding an aligned pack image with a bounded
    /// file number when open.
    pub open spec fn wf(self) -> bool {
        &&& self.shards@.len() == 16
        &&& forall|s: int|
            0 <= s < 16 ==> ((#[trigger] self.shards@[s]) matches Some(sh) ==> file_appendable(
                sh.file@,
            ) && sh.nth < 0x3_FFFF_FFFF)
    }

    /// A store with no shard opened yet.
    pub fn new() -> (r: ShardedStore)
        ensures
            r.wf(),
            forall|s: int| 0 <= s < 16 ==> (#[trigger] r.shards@[s]) is None,
    {
        let mut shards: Vec<Option<Shard>> = Vec::new();
        let mut i: usize = 0;
        while i < 16
            invariant
                i <= 16,
                shards@.len() == i,
                forall|s: int| 0 <= s < i ==> (#[trigger] shards@[s]) is None,
            decreases 16 - i,
        {
            shards.push(None);
            i = i + 1;
        }
        ShardedStore { shards }
    }

    /// Stores a blob: routes it to its shard by size magnitude and
    /// text-ness, appends one record holding `extra` and the blob to that
    /// shard's current pack image (rotating first if the image is full),
    /// and returns the global position: the shard id in the low four
    /// bits, the file number times the block size plus the record's
    /// offset in the rest.  The call succeeds unless the family's file
    /// numbers are exhausted, a practically unreachable failure; the
    /// other fifteen slots are never touched.
    pub fn store(&mut self, src: &Vec<u8>, text: bool, extra: &Vec<u8>) -> (r: Result<u64, Error>)
        requires
            old(self).wf(),
            16 + extra@.len() + src@.len() < MAX_FRAME_END,
            extra@.len() + src@.len() + BLOCK_SIZE + 64 <= usize::MAX,
        ensures
            final(self).wf(),
            final(self).shards@.len() == 16,
            forall|s: int|
                0 <= s < 16 && s != spec_shard_id(src@.len() as int, text)
                    ==> final(self).shards@[s] == old(self).shards@[s],
            ({
                let magic = spec_shard_id(src@.len() as int, text);
                let slot = old(self).shards@[magic];
                &&& (r is Err <==> spec_store_exhausted(slot))
                &&& (r is Err ==> r == Err::<u64, Error>(Error::InvalidState)
                    && final(self).shards@[magic] is None)
                &&& (r matches Ok(pos) ==> {
                    let nth = spec_store_nth(slot);
                    let base = spec_store_base(slot);
                    let local = (pos as int - magic) % (BLOCK_SIZE as int);
                    &&& pos == magic + nth * (BLOCK_SIZE as int) + base.len()
                    &&& pos % 16 == magic
                    &&& (pos as int - magic) / (BLOCK_SIZE as int) == nth
                    &&& local == base.len()
                    &&& final(self).shards@[magic] matches Some(sh) && sh.nth == nth && sh.file@
                        == base + spec_frame(extra@, src@)
                    &&& frame_valid_at(base + spec_frame(extra@, src@), local)
                    &&& frame_extra_at(base + spec_frame(extra@, src@), local) == extra@
                    &&& frame_payload_at(base + spec_frame(extra@, src@), local) == src@
                })
            }),
    {
        let src_len: u64 = src.len() as u64;
        let magic: u8 = magic_offset_only(src_len, text);
        let m: usize = magic as usize;
        let ghost slot0: Option<Shard> = old(self).shards@[m as int];

        let slot: Option<Shard> = self.shards.remove(m);
        let mut shard: Shard = match slot {
            Some(sh) => sh,
            None => Shard { file: Vec::new(), nth: 0 },
        };
        self.shards.insert(m, None);
        proof {
            assert forall|s: int|
                0 <= s < 16 && s != m as int implies self.shards@[s] == old(self).shards@[s] by {
                if s < m as int {
                    assert(self.shards@[s] == old(self).shards@.remove(m as int).insert(
                        m as int,
                        None,
                    )[s]);
                } else {
                    assert(old(self).shards@.remove(m as int)[s - 1] == old(self).shards@[s]);
                }
            }
            assert(self.shards@[m as int] is None);
        }

        // rotate once the current image is full: an entry must start
        // below the block size
        if shard.file.len() as u64 >= BLOCK_SIZE {
            if shard.nth >= 0x3_FFFF_FFFE {
                // the family's file-number space is exhausted
                return Err(Error::InvalidState);
            }
            shard = Shard { file: Vec::new(), nth: shard.nth + 1 };
        }
        proof {
            assert(!spec_store_exhausted(slot0));
            assert(shard.nth == spec_store_nth(slot0));
            assert(shard.file@ == spec_store_file(slot0));
        }

        let ghost oldfile: Seq<u8> = shard.file@;
        let ghost base: Seq<u8> = if oldfile.len() == 0 {
            spec_pack_header()
        } else {
            oldfile
        };
        let start: u64 = match writey_write(&mut shard.file, src, extra) {
            Ok(s) => s,
            Err(e) => {
                proof {
                    // an aligned image cannot be refused
                    assert(false);
                }
                return Err(e);
            },
        };
        proof {
            lemma_append_then_read(oldfile, extra@, src@);
            assert(start == base.len());
            assert(start < BLOCK_SIZE);
            assert(shard.file@ == base + spec_frame(extra@, src@));
            assert(base == spec_store_base(slot0));
        }
        let pos_in_family: u64 = shard.nth * BLOCK_SIZE + start;
        let pos: u64 = magic as u64 + pos_in_family;
        proof {
            let b: int = BLOCK_SIZE as int;
            vstd::arithmetic::div_mod::lemma_mod_multiples_vanish(
                shard.nth as int,
                start as int,
                b,
            );
            vstd::arithmetic::div_mod::lemma_small_mod(start as nat, b as nat);
            assert((pos as int - magic) % b == start);
            // the low four bits carry the shard id: the family offset is a
            // multiple of 16
            assert(start % 16 == 0) by {
                assert(base.len() % 16 == 0);
            }
            assert(pos_in_family % 16 == 0) by {
                assert(BLOCK_SIZE as int == 16 * 0x4000000);
                vstd::arithmetic::mul::lemma_mul_is_associative(
                    shard.nth as int,
                    16,
                    0x4000000,
                );
                vstd::arithmetic::mul::lemma_mul_is_commutative(shard.nth as int, 16);
                vstd::arithmetic::div_mod::lemma_mod_multiples_vanish(
                    shard.nth as int * 0x4000000,
                    start as int,
                    16,
                );
                vstd::arithmetic::div_mod::lemma_mod_multiples_basic(
                    shard.nth as int * 0x4000000,
                    16,
                );
                vstd::arithmetic::mul::lemma_mul_is_associative(16, shard.nth as int, 0x4000000);
                vstd::arithmetic::div_mod::lemma_small_mod((start % 16) as nat, 16);
            }
            vstd::arithmetic::div_mod::lemma_mod_multiples_vanish(
                pos_in_family as int / 16,
                magic as int,
                16,
            );
            vstd::arithmetic::div_mod::lemma_fundamental_div_mod(pos_in_family as int, 16);
            vstd::arithmetic::div_mod::lemma_small_mod(magic as nat, 16);
            assert(pos % 16 == magic);
        }
        proof {
            vstd::arithmetic::div_mod::lemma_div_multiples_vanish_fancy(
                shard.nth as int,
                start as int,
                BLOCK_SIZE as int,
            );
            assert((pos as int - magic) / (BLOCK_SIZE as int) == shard.nth);
        }
        let ghost mid: Seq<Option<Shard>> = self.shards@;
        let _ = self.shards.remove(m);
        self.shards.insert(m, Some(shard));
        proof {
            assert forall|s: int|
                0 <= s < 16 && s != m as int implies self.shards@[s] == old(self).shards@[s] by {
                if s < m as int {
                    assert(self.shards@[s] == mid.remove(m as int).insert(m as int, None)[s]);
                    assert(self.shards@[s] == mid[s]);
                } else {
                    assert(mid.remove(m as int)[s - 1] == mid[s]);
                    assert(self.shards@[s] == mid[s]);
                }
            }
            assert(self.shards@[m as int] == Some(shard));
        }
        Ok(pos)
    }
}


} // verus!
