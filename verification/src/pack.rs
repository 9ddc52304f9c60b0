//! Record framing for append-only pack files.
//!
//! A pack file is a 16-byte header (`cf2` magic plus thirteen reserved zero
//! bytes) followed by records.  Each record is framed as
//! `[end: u64 LE][extra_len: u64 LE][extra bytes][payload bytes][zero padding]`
//! where `end = 16 + extra_len + payload_len` and the padding realigns the
//! file to the next 16-byte boundary.  This module works on in-memory file
//! images; callers stream the bytes to and from the filesystem.

use vstd::prelude::*;
use vstd::bytes::{
    lemma_auto_spec_u64_to_from_le_bytes, spec_u64_from_le_bytes, spec_u64_to_le_bytes,
    u64_from_le_bytes, u64_to_le_bytes,
};
use vstd::slice::{slice_subrange, slice_to_vec};

use crate::Error;

verus! {

/// Length of the fixed pack-file header, and the alignment unit.
pub const HEADER_LEN: u64 = 16;

/// Frames whose `end` field reaches this value are rejected as corrupt.
pub const MAX_FRAME_END: u64 = 0x7fff_ffff_ffff_ffff;

/// `v` rounded up to the next multiple of 16.
pub open spec fn spec_align(v: int) -> int {
    ((v + 15) / 16) * 16
}

/// The fixed 16-byte pack-file header: `cf2` then thirteen zero bytes.
pub open spec fn spec_pack_header() -> Seq<u8> {
    seq![
        0x63u8, 0x66u8, 0x32u8, 0u8, 0u8, 0u8, 0u8, 0u8, 0u8, 0u8, 0u8, 0u8, 0u8, 0u8, 0u8, 0u8,
    ]
}

/// The on-disk image of one record holding `extra` and `payload`.
pub open spec fn spec_frame(extra: Seq<u8>, payload: Seq<u8>) -> Seq<u8> {
    let end = 16 + extra.len() + payload.len();
    spec_u64_to_le_bytes(end as u64) + spec_u64_to_le_bytes(extra.len() as u64) + extra + payload
        + Seq::new((spec_align(end as int) - end) as nat, |i: int| 0u8)
}

/// The `end` field of the frame that starts at `off`.
pub open spec fn frame_end_at(file: Seq<u8>, off: int) -> int {
    spec_u64_from_le_bytes(file.subrange(off, off + 8)) as int
}

/// The `extra_len` field of the frame that starts at `off`.
pub open spec fn frame_extra_len_at(file: Seq<u8>, off: int) -> int {
    spec_u64_from_le_bytes(file.subrange(off + 8, off + 16)) as int
}

/// A well-formed frame starts at `off`: the two length fields satisfy the
/// framing invariant and the frame lies within the file.
pub open spec fn frame_valid_at(file: Seq<u8>, off: int) -> bool {
    &&& 0 <= off
    &&& off + 16 <= file.len()
    &&& 16 <= frame_end_at(file, off) < MAX_FRAME_END
    &&& frame_extra_len_at(file, off) <= frame_end_at(file, off) - 16
    &&& off + frame_end_at(file, off) <= file.len()
}

/// The `extra` bytes of the frame at `off`.
pub open spec fn frame_extra_at(file: Seq<u8>, off: int) -> Seq<u8> {
    file.subrange(off + 16, off + 16 + frame_extra_len_at(file, off))
}

/// The payload bytes of the frame at `off`.
pub open spec fn frame_payload_at(file: Seq<u8>, off: int) -> Seq<u8> {
    file.subrange(off + 16 + frame_extra_len_at(file, off), off + frame_end_at(file, off))
}

/// Where the next frame starts: the frame footprint is `end` rounded up to
/// the alignment unit.
pub open spec fn frame_next_at(file: Seq<u8>, off: int) -> int {
    off + spec_align(frame_end_at(file, off))
}

/// A file that an append may extend: empty, or 16-byte-aligned content.
pub open spec fn file_appendable(file: Seq<u8>) -> bool {
    file.len() % 16 == 0
}

/// Rounds `val` up to the next multiple of 16.
pub fn align(val: u64) -> (r: u64)
    requires
        val + 15 <= u64::MAX,
    ensures
        r == spec_align(val as int),
{
    (val + 15) / 16 * 16
}

/// How `spec_align` relates to its argument: it rounds up to the nearest
/// multiple of 16, moving by less than one alignment unit, and the distance
/// moved is `(16 - v % 16) % 16`.
pub proof fn lemma_align_props(v: int)
    requires
        v >= 0,
    ensures
        v <= spec_align(v) < v + 16,
        spec_align(v) % 16 == 0,
        v % 16 == 0 ==> spec_align(v) == v,
        spec_align(v) - v == (16 - v % 16) % 16,
{
    let q = (v + 15) / 16;
    vstd::arithmetic::div_mod::lemma_fundamental_div_mod(v + 15, 16);
    vstd::arithmetic::div_mod::lemma_fundamental_div_mod(v, 16);
    vstd::arithmetic::div_mod::lemma_mod_bound(v + 15, 16);
    vstd::arithmetic::div_mod::lemma_mod_bound(v, 16);
    assert(spec_align(v) == q * 16);
    assert(spec_align(v) % 16 == 0) by {
        vstd::arithmetic::div_mod::lemma_mod_multiples_basic(q, 16);
    }
}

/// One parsed record: the caller's metadata, the payload handed out through
/// `read_payload`, and the realignment bookkeeping for `complete`.
pub struct Record {
    /// The caller-supplied metadata bytes stored beside the payload.
    pub extra: Vec<u8>,
    /// The payload length in bytes.
    pub len: u64,
    /// The payload bytes, until `read_payload` hands them out.
    pub payload: Vec<u8>,
    /// Whether the payload has been handed out already.
    pub consumed: bool,
    /// The number of padding bytes before the next frame.
    pub realign: u8,
}

impl Record {
    /// The frame fields are mutually consistent and small enough that the
    /// footprint fits a `u64`.
    pub open spec fn wf(self) -> bool {
        &&& self.realign == spec_align(16 + self.extra@.len() + self.len as int) - (16
            + self.extra@.len() + self.len as int)
        &&& 16 + self.extra@.len() + self.len as int + 15 <= u64::MAX
    }

    /// Total on-disk footprint of this record: frame fields, extra, payload
    /// and realignment padding.
    pub fn len(&self) -> (r: u64)
        requires
            self.wf(),
        ensures
            r == spec_align(16 + self.extra@.len() + self.len as int),
    {
        self.extra.len() as u64 + 16 + self.len + self.realign as u64
    }

    /// Hands out the payload bytes; a second call yields nothing.
    pub fn read_payload(&mut self) -> (p: Vec<u8>)
        ensures
            final(self).consumed,
            final(self).extra@ == old(self).extra@,
            final(self).len == old(self).len,
            final(self).wf() == old(self).wf(),
            !old(self).consumed ==> p@ == old(self).payload@,
            old(self).consumed ==> p@.len() == 0,
    {
        let mut out: Vec<u8> = Vec::new();
        if !self.consumed {
            core::mem::swap(&mut out, &mut self.payload);
            self.consumed = true;
        }
        out
    }

    /// Consumes the record once its payload has been fully read, discarding
    /// the realignment padding so that a sequential scan continues at the
    /// next frame.  Completing before the payload was read is a framing
    /// contract violation.
    pub fn complete(self) -> (r: Result<(), Error>)
        ensures
            r matches Ok(()) <==> self.consumed,
            r matches Err(e) ==> e == Error::InvalidState,
    {
        if self.consumed {
            Ok(())
        } else {
            Err(Error::InvalidState)
        }
    }
}

/// Round trip: appending a record (as `writey_write` does) to any
/// appendable file image and parsing at the returned offset yields exactly
/// the extra bytes and exactly the payload that were stored; the following
/// sequential read begins at a 16-byte-aligned offset, which is the end of
/// the file.
pub proof fn lemma_append_then_read(file: Seq<u8>, extra: Seq<u8>, payload: Seq<u8>)
    requires
        file_appendable(file),
        16 + extra.len() + payload.len() < MAX_FRAME_END,
    ensures
        ({
            let base = if file.len() == 0 {
                spec_pack_header()
            } else {
                file
            };
            let start = base.len() as int;
            let newfile = base + spec_frame(extra, payload);
            &&& frame_valid_at(newfile, start)
            &&& frame_extra_at(newfile, start) == extra
            &&& frame_payload_at(newfile, start) == payload
            &&& frame_next_at(newfile, start) == newfile.len()
            &&& frame_next_at(newfile, start) % 16 == 0
        }),
{
    let base = if file.len() == 0 {
        spec_pack_header()
    } else {
        file
    };
    let start = base.len() as int;
    let newfile = base + spec_frame(extra, payload);
    let end = 16 + extra.len() + payload.len();
    let e8 = spec_u64_to_le_bytes(end as u64);
    let l8 = spec_u64_to_le_bytes(extra.len() as u64);
    lemma_auto_spec_u64_to_from_le_bytes();
    lemma_align_props(end as int);
    assert(newfile.subrange(start, start + 8) =~= e8);
    assert(newfile.subrange(start + 8, start + 16) =~= l8);
    assert(frame_end_at(newfile, start) == end);
    assert(frame_extra_len_at(newfile, start) == extra.len());
    assert(frame_extra_at(newfile, start) =~= extra);
    assert(frame_payload_at(newfile, start) =~= payload);
    assert(newfile.len() == start + spec_align(end as int));
    assert(frame_next_at(newfile, start) % 16 == 0) by {
        vstd::arithmetic::div_mod::lemma_mod_adds(start, spec_align(end as int), 16);
        assert(start % 16 == 0);
    }
}

/// Parses the record frame that starts at `offset`.  At the very end of the
/// file there is no record; anywhere else a frame must satisfy the framing
/// invariant or the file is corrupt.
pub fn read_record(file: &Vec<u8>, offset: usize) -> (r: Result<Option<Record>, Error>)
    requires
        offset <= file@.len(),
    ensures
        offset == file@.len() ==> (r matches Ok(None)),
        offset < file@.len() && frame_valid_at(file@, offset as int) ==> (r matches Ok(Some(rec))
            && rec.extra@ == frame_extra_at(file@, offset as int) && rec.payload@
            == frame_payload_at(file@, offset as int) && rec.len == frame_payload_at(
            file@,
            offset as int,
        ).len() && !rec.consumed && rec.wf()),
        offset < file@.len() && !frame_valid_at(file@, offset as int) ==> r == Err::<
            Option<Record>,
            Error,
        >(Error::InvalidState),
{
    if offset == file.len() {
        return Ok(None);
    }
    if file.len() - offset < 16 {
        return Err(Error::InvalidState);
    }
    let fs = file.as_slice();
    let end = u64_from_le_bytes(slice_subrange(fs, offset, offset + 8));
    let extra_len = u64_from_le_bytes(slice_subrange(fs, offset + 8, offset + 16));
    if end < 16 || end >= MAX_FRAME_END {
        return Err(Error::InvalidState);
    }
    if extra_len > end - 16 {
        return Err(Error::InvalidState);
    }
    if end > (file.len() - offset) as u64 {
        return Err(Error::InvalidState);
    }
    let extra_end: usize = offset + 16 + extra_len as usize;
    let payload_end: usize = offset + end as usize;
    let extra: Vec<u8> = slice_to_vec(slice_subrange(fs, offset + 16, extra_end));
    let payload: Vec<u8> = slice_to_vec(slice_subrange(fs, extra_end, payload_end));
    let len: u64 = end - 16 - extra_len;
    proof {
        lemma_align_props(end as int);
    }
    let realign: u8 = ((16 - (end % 16)) % 16) as u8;
    Ok(
        Some(
            Record {
                extra,
                len,
                payload,
                consumed: false,
                realign,
            },
        ),
    )
}

/// Appends one record to a pack-file image, writing the file header first
/// when the file is new.  Returns the offset at which the record was placed.
/// A file whose length is not 16-byte aligned is corrupt and is left alone.
pub fn writey_write(file: &mut Vec<u8>, payload: &Vec<u8>, extra: &Vec<u8>) -> (r: Result<
    u64,
    Error,
>)
    requires
        16 + extra@.len() + payload@.len() < MAX_FRAME_END,
        old(file)@.len() + 16 + 16 + extra@.len() + payload@.len() + 15 <= usize::MAX,
    ensures
        !file_appendable(old(file)@) ==> r == Err::<u64, Error>(Error::InvalidState) && final(file)@
            == old(file)@,
        file_appendable(old(file)@) ==> ({
            let base = if old(file)@.len() == 0 {
                spec_pack_header()
            } else {
                old(file)@
            };
            &&& r == Ok::<u64, Error>(base.len() as u64)
            &&& final(file)@ == base + spec_frame(extra@, payload@)
            &&& (final(file)@.len() - 16) % 16 == 0
            &&& final(file)@.len() >= 32
        }),
{
    if file.len() % 16 != 0 {
        return Err(Error::InvalidState);
    }
    if file.len() == 0 {
        let header: [u8; 16] = [
            0x63u8,
            0x66u8,
            0x32u8,
            0u8,
            0u8,
            0u8,
            0u8,
            0u8,
            0u8,
            0u8,
            0u8,
            0u8,
            0u8,
            0u8,
            0u8,
            0u8,
        ];
        file.extend_from_slice(header.as_slice());
        proof {
            assert(file@ =~= spec_pack_header());
        }
    }
    let ghost base: Seq<u8> = file@;
    let start: u64 = file.len() as u64;
    let end: u64 = 16 + extra.len() as u64 + payload.len() as u64;
    let mut end_bytes = u64_to_le_bytes(end);
    file.append(&mut end_bytes);
    let mut extra_len_bytes = u64_to_le_bytes(extra.len() as u64);
    file.append(&mut extra_len_bytes);
    file.extend_from_slice(extra.as_slice());
    file.extend_from_slice(payload.as_slice());
    proof {
        lemma_align_props(end as int);
    }
    let pad: u64 = align(end) - end;
    let mut i: u64 = 0;
    while i < pad
        invariant
            i <= pad,
            file@.len() == start + 16 + extra@.len() + payload@.len() + i,
            file@ == base + spec_u64_to_le_bytes(end) + spec_u64_to_le_bytes(extra@.len() as u64)
                + extra@ + payload@ + Seq::new(i as nat, |j: int| 0u8),
            pad == spec_align(end as int) - end,
            end == 16 + extra@.len() + payload@.len(),
            start == base.len(),
            start + 16 + extra@.len() + payload@.len() + pad <= usize::MAX,
        decreases pad - i,
    {
        file.push(0u8);
        i = i + 1;
        proof {
            assert(Seq::new((i - 1) as nat, |j: int| 0u8).push(0u8) =~= Seq::new(
                i as nat,
                |j: int| 0u8,
            ));
        }
    }
    proof {
        assert(file@ =~= base + spec_frame(extra@, payload@));
        lemma_align_props(end as int);
        vstd::arithmetic::div_mod::lemma_mod_sub_multiples_vanish(base.len() as int, 16);
        vstd::arithmetic::div_mod::lemma_mod_adds(
            base.len() as int - 16,
            spec_align(end as int),
            16,
        );
    }
    Ok(start)
}

} // verus!
