//! The offline index builder: from a pack file to index blocks.
//!
//! Phase one scans the pack, decompresses every record's payload and
//! flattens the per-document trigram sets into one scratch array,
//! remembering each document's offset and trigram count, and how often
//! each code occurs across the pack.  Phase two picks batches of codes
//! whose expected posting counts fit a fixed memory ceiling, re-scans each
//! document's slice of the scratch array for the batch's range, and emits
//! each batch as one self-contained block of the index file.

use vstd::prelude::*;

use crate::compress::{lz4_decompress, lz4_unpacked};
use crate::find::{spec_block_ok, spec_empty_table, spec_insert_headers, spec_parse_blocks, spec_postings_total, strictly_sorted, INDEX_GUARD};
use crate::pack::{
    frame_next_at, frame_payload_at, frame_valid_at, read_record, HEADER_LEN,
};
use crate::tri::{spec_trigram_set, trigrams_full, MAX_TRI};
use crate::Error;

verus! {

/// One scanned document: where its record starts in the pack, and how
/// many trigram codes it contributed to the scratch array.
#[derive(Clone, Copy, Debug)]
pub struct TempFileChunk {
    /// Offset of the document's record in the pack file.
    pub pos: u32,
    /// How many trigram codes the document wrote to the scratch array.
    pub num_tris: u32,
}

/// Where chunk `i`'s slice of the scratch array starts: the sum of the
/// counts before it.
pub open spec fn spec_chunk_start(chunks: Seq<TempFileChunk>, i: int) -> int
    decreases i,
{
    if i <= 0 {
        0
    } else {
        spec_chunk_start(chunks, i - 1) + chunks[i - 1].num_tris
    }
}

/// Chunk `i`'s slice of the scratch array.
pub open spec fn spec_chunk_seg(temp: Seq<u32>, chunks: Seq<TempFileChunk>, i: int) -> Seq<u32> {
    temp.subrange(
        spec_chunk_start(chunks, i),
        spec_chunk_start(chunks, i) + chunks[i].num_tris,
    )
}

/// The scratch array and document list describe the pack exactly: the
/// chunks walk the records in order from just past the header to the end
/// of the file, and each chunk's slice is the ascending, deduplicated
/// trigram set of its record's decompressed payload.
pub open spec fn spec_flatten_ok(pack: Seq<u8>, temp: Seq<u32>, chunks: Seq<TempFileChunk>) -> bool {
    &&& spec_chunk_start(chunks, chunks.len() as int) == temp.len()
    &&& (chunks.len() > 0 ==> chunks[0].pos == HEADER_LEN)
    &&& forall|i: int|
        0 < i < chunks.len() ==> (#[trigger] chunks[i]).pos == frame_next_at(
            pack,
            chunks[i - 1].pos as int,
        )
    &&& (if chunks.len() == 0 {
        pack.len() == HEADER_LEN
    } else {
        frame_next_at(pack, chunks[chunks.len() - 1].pos as int) == pack.len()
    })
    &&& forall|i: int|
        0 <= i < chunks.len() ==> {
            let c = #[trigger] chunks[i];
            &&& frame_valid_at(pack, c.pos as int)
            &&& lz4_unpacked(frame_payload_at(pack, c.pos as int)) is Some
            &&& strictly_sorted(spec_chunk_seg(temp, chunks, i))
            &&& forall|t: u32|
                spec_chunk_seg(temp, chunks, i).contains(t) <==> spec_trigram_set(
                    lz4_unpacked(frame_payload_at(pack, c.pos as int)).unwrap(),
                ).contains(t)
        }
}

/// How many of the chunks' slices contain code `t`.
pub open spec fn spec_occurrences(temp: Seq<u32>, chunks: Seq<TempFileChunk>, t: u32) -> int
    decreases chunks.len(),
{
    if chunks.len() == 0 {
        0
    } else {
        spec_occurrences(temp, chunks.drop_last(), t) + (if spec_chunk_seg(
            temp,
            chunks,
            chunks.len() - 1,
        ).contains(t) {
            1int
        } else {
            0int
        })
    }
}

/// Chopping the last chunk off leaves the earlier slices alone.
proof fn lemma_seg_stable(temp: Seq<u32>, chunks: Seq<TempFileChunk>, i: int)
    requires
        0 <= i < chunks.len() - 1,
    ensures
        spec_chunk_seg(temp, chunks.drop_last(), i) == spec_chunk_seg(temp, chunks, i),
        spec_chunk_start(chunks.drop_last(), i) == spec_chunk_start(chunks, i),
    decreases i,
{
    lemma_start_stable(chunks, i + 1);
    lemma_start_stable(chunks, i);
}

/// Prefix sums only read the chunks before their index.
proof fn lemma_start_stable(chunks: Seq<TempFileChunk>, i: int)
    requires
        0 <= i < chunks.len(),
    ensures
        spec_chunk_start(chunks.drop_last(), i) == spec_chunk_start(chunks, i),
    decreases i,
{
    if i > 0 {
        lemma_start_stable(chunks, i - 1);
    }
}

/// Appending a chunk leaves the earlier slices and starts alone, also
/// when the scratch array grows at the end.
proof fn lemma_seg_grow(
    temp: Seq<u32>,
    grown: Seq<u32>,
    chunks: Seq<TempFileChunk>,
    c: TempFileChunk,
    i: int,
)
    requires
        0 <= i < chunks.len(),
        spec_chunk_start(chunks, chunks.len() as int) == temp.len(),
        temp.len() <= grown.len(),
        grown.subrange(0, temp.len() as int) == temp,
        forall|j: int|
            0 <= j < chunks.len() ==> #[trigger] spec_chunk_start(chunks, j + 1) <= temp.len(),
    ensures
        spec_chunk_start(chunks.push(c), i) == spec_chunk_start(chunks, i),
        spec_chunk_seg(grown, chunks.push(c), i) == spec_chunk_seg(temp, chunks, i),
    decreases i,
{
    lemma_start_push(chunks, c, i);
    lemma_start_push(chunks, c, i + 1);
    assert(spec_chunk_start(chunks, i) >= 0) by {
        lemma_start_nonneg(chunks, i);
    }
    assert(spec_chunk_start(chunks, i + 1) == spec_chunk_start(chunks, i) + chunks[i].num_tris);
    assert forall|k: int| 0 <= k < temp.len() implies #[trigger] grown[k] == temp[k] by {
        assert(temp[k] == grown.subrange(0, temp.len() as int)[k]);
    }
    assert(spec_chunk_seg(grown, chunks.push(c), i) =~= spec_chunk_seg(temp, chunks, i)) by {
        assert(spec_chunk_start(chunks, i + 1) <= temp.len());
    }
}

/// Prefix sums ignore a chunk appended later.
proof fn lemma_start_push(chunks: Seq<TempFileChunk>, c: TempFileChunk, i: int)
    requires
        0 <= i <= chunks.len(),
    ensures
        spec_chunk_start(chunks.push(c), i) == spec_chunk_start(chunks, i),
    decreases i,
{
    if i > 0 {
        lemma_start_push(chunks, c, i - 1);
    }
}

/// Prefix sums never go negative.
proof fn lemma_start_nonneg(chunks: Seq<TempFileChunk>, i: int)
    ensures
        spec_chunk_start(chunks, i) >= 0,
    decreases i,
{
    if i > 0 {
        lemma_start_nonneg(chunks, i - 1);
    }
}

/// One scanned document, at the specification level: its record offset
/// and the ascending enumeration of its payload's trigram codes.
pub open spec fn spec_docs_of(temp: Seq<u32>, chunks: Seq<TempFileChunk>) -> Seq<(u32, Seq<u32>)> {
    Seq::new(chunks.len(), |i: int| (chunks[i].pos, spec_chunk_seg(temp, chunks, i)))
}

/// The record walk of phase one, as a function of the pack bytes alone:
/// from `off`, each record must frame, sit at a representable offset,
/// advance within the file, and decompress; the walk yields the documents
/// in record order, or nothing on any corruption.
pub open spec fn spec_flatten_walk(pack: Seq<u8>, off: int) -> Option<Seq<(u32, Seq<u32>)>>
    decreases pack.len() - off,
{
    if off == pack.len() {
        Some(Seq::empty())
    } else if !frame_valid_at(pack, off) {
        None
    } else if off > u32::MAX {
        None
    } else if lz4_unpacked(frame_payload_at(pack, off)) is None {
        None
    } else if frame_next_at(pack, off) <= off || frame_next_at(pack, off) > pack.len() {
        None
    } else {
        match spec_flatten_walk(pack, frame_next_at(pack, off)) {
            None => None,
            Some(rest) => Some(
                seq![
                    (
                        off as u32,
                        crate::tri::spec_tri_seq(
                            lz4_unpacked(frame_payload_at(pack, off)).unwrap(),
                        ),
                    ),
                ] + rest,
            ),
        }
    }
}

/// How many of the walked documents hold code `t`.
pub open spec fn spec_walk_occ(docs: Seq<(u32, Seq<u32>)>, t: u32) -> int
    decreases docs.len(),
{
    if docs.len() == 0 {
        0
    } else {
        spec_walk_occ(docs.drop_last(), t) + (if docs.last().1.contains(t) {
            1int
        } else {
            0int
        })
    }
}

/// The offsets of the walked documents holding code `t`, in record order.
pub open spec fn spec_walk_positions(docs: Seq<(u32, Seq<u32>)>, t: u32) -> Seq<u32>
    decreases docs.len(),
{
    if docs.len() == 0 {
        Seq::empty()
    } else {
        spec_walk_positions(docs.drop_last(), t) + (if docs.last().1.contains(t) {
            seq![docs.last().0]
        } else {
            Seq::empty()
        })
    }
}

proof fn lemma_walk_occ_nonneg(docs: Seq<(u32, Seq<u32>)>, t: u32)
    ensures
        spec_walk_occ(docs, t) >= 0,
    decreases docs.len(),
{
    if docs.len() > 0 {
        lemma_walk_occ_nonneg(docs.drop_last(), t);
    }
}

proof fn lemma_walk_occ_concat(a: Seq<(u32, Seq<u32>)>, b: Seq<(u32, Seq<u32>)>, t: u32)
    ensures
        spec_walk_occ(a + b, t) == spec_walk_occ(a, t) + spec_walk_occ(b, t),
    decreases b.len(),
{
    if b.len() == 0 {
        assert(a + b =~= a);
    } else {
        lemma_walk_occ_concat(a, b.drop_last(), t);
        assert((a + b).drop_last() =~= a + b.drop_last());
        assert((a + b).last() == b.last());
    }
}

/// The whole pack walked through phase one, and every occurrence count
/// small enough to record: exactly the packs the builder accepts.
pub open spec fn spec_buildable(pack: Seq<u8>) -> bool {
    &&& spec_flatten_walk(pack, 16) is Some
    &&& forall|t: u32|
        t < MAX_TRI ==> spec_walk_occ(spec_flatten_walk(pack, 16).unwrap(), t) <= u32::MAX
}

/// The occurrence counts over the chunks equal those over the walked
/// documents they describe.
proof fn lemma_occ_matches_walk(temp: Seq<u32>, chunks: Seq<TempFileChunk>, t: u32)
    ensures
        spec_occurrences(temp, chunks, t) == spec_walk_occ(spec_docs_of(temp, chunks), t),
    decreases chunks.len(),
{
    if chunks.len() > 0 {
        lemma_occ_matches_walk(temp, chunks.drop_last(), t);
        assert(spec_docs_of(temp, chunks).drop_last() =~= spec_docs_of(temp, chunks.drop_last()))
            by {
            assert forall|i: int|
                0 <= i < chunks.len() - 1 implies spec_docs_of(temp, chunks)[i] == spec_docs_of(
                temp,
                chunks.drop_last(),
            )[i] by {
                lemma_seg_stable(temp, chunks, i);
            }
        }
        assert(spec_docs_of(temp, chunks).last().1 == spec_chunk_seg(temp, chunks, chunks.len()
            - 1));
    }
}

/// The posting list over the chunks equals the one over the walked
/// documents they describe.
proof fn lemma_positions_match_walk(temp: Seq<u32>, chunks: Seq<TempFileChunk>, t: u32)
    ensures
        spec_positions_for(temp, chunks, t) == spec_walk_positions(spec_docs_of(temp, chunks), t),
    decreases chunks.len(),
{
    if chunks.len() > 0 {
        lemma_positions_match_walk(temp, chunks.drop_last(), t);
        assert(spec_docs_of(temp, chunks).drop_last() =~= spec_docs_of(temp, chunks.drop_last()))
            by {
            assert forall|i: int|
                0 <= i < chunks.len() - 1 implies spec_docs_of(temp, chunks)[i] == spec_docs_of(
                temp,
                chunks.drop_last(),
            )[i] by {
                lemma_seg_stable(temp, chunks, i);
            }
        }
        assert(spec_docs_of(temp, chunks).last().1 == spec_chunk_seg(temp, chunks, chunks.len()
            - 1));
        assert(spec_docs_of(temp, chunks).last().0 == chunks[chunks.len() - 1].pos);
    }
}

/// An ascending list of codes below the ceiling cannot outgrow the
/// ceiling.
proof fn lemma_ascending_len_bound(s: Seq<u32>)
    requires
        forall|a: int, b: int| 0 <= a < b < s.len() ==> s[a] < s[b],
        forall|a: int| 0 <= a < s.len() ==> s[a] < MAX_TRI,
    ensures
        s.len() <= MAX_TRI,
{
    assert forall|i: int| 0 <= i < s.len() implies s[i] >= i by {
        lemma_ascending_index_bound(s, i);
    }
    if s.len() > MAX_TRI {
        assert(s[MAX_TRI as int] >= MAX_TRI);
    }
}

proof fn lemma_ascending_index_bound(s: Seq<u32>, i: int)
    requires
        forall|a: int, b: int| 0 <= a < b < s.len() ==> s[a] < s[b],
        0 <= i < s.len(),
    ensures
        s[i] >= i,
    decreases i,
{
    if i > 0 {
        lemma_ascending_index_bound(s, i - 1);
        assert(s[i - 1] < s[i]);
    }
}

/// Phase one: walks every record of the pack from just past the header,
/// decompresses each payload and flattens the documents' sorted trigram
/// sets into one scratch array.  Returns the scratch array, the document
/// list, and the per-code occurrence counts across the whole pack.  A
/// record that cannot be framed or decompressed is corruption.
#[verifier::rlimit(100)]
pub fn convert_pack_to_just_trigrams(pack: &Vec<u8>) -> (r: Result<
    (Vec<u32>, Vec<TempFileChunk>, Vec<u32>),
    Error,
>)
    ensures
        r is Ok <==> spec_buildable(pack@),
        r matches Ok(out) ==> ({
            &&& spec_flatten_ok(pack@, out.0@, out.1@)
            &&& spec_flatten_walk(pack@, 16) == Some(spec_docs_of(out.0@, out.1@))
            &&& out.2@.len() == MAX_TRI
            &&& forall|t: u32|
                t < MAX_TRI ==> #[trigger] out.2@[t as int] == spec_occurrences(
                    out.0@,
                    out.1@,
                    t,
                )
        }),
{
    let n: usize = pack.len();
    if n < 16 {
        proof {
            assert(spec_flatten_walk(pack@, 16) is None);
        }
        return Err(Error::InvalidState);
    }
    let mut temp: Vec<u32> = Vec::new();
    let mut chunks: Vec<TempFileChunk> = Vec::new();
    let mut counts: Vec<u32> = Vec::new();
    let mut z: usize = 0;
    while z < MAX_TRI as usize
        invariant
            z <= MAX_TRI,
            counts@.len() == z,
            forall|u: int| 0 <= u < z ==> #[trigger] counts@[u] == 0,
        decreases MAX_TRI - z,
    {
        counts.push(0);
        z = z + 1;
    }

    let mut pos: usize = 16;
    proof {
        assert(spec_docs_of(temp@, chunks@) =~= Seq::<(u32, Seq<u32>)>::empty());
    }
    loop
        invariant
            n == pack@.len(),
            n >= 16,
            16 <= pos <= n,
            counts@.len() == MAX_TRI,
            spec_chunk_start(chunks@, chunks@.len() as int) == temp@.len(),
            forall|j: int|
                0 <= j < chunks@.len() ==> #[trigger] spec_chunk_start(chunks@, j + 1)
                    <= temp@.len(),
            chunks@.len() > 0 ==> chunks@[0].pos == HEADER_LEN,
            forall|i: int|
                0 < i < chunks@.len() ==> (#[trigger] chunks@[i]).pos == frame_next_at(
                    pack@,
                    chunks@[i - 1].pos as int,
                ),
            (if chunks@.len() == 0 {
                pos == HEADER_LEN
            } else {
                frame_next_at(pack@, chunks@[chunks@.len() - 1].pos as int) == pos
            }),
            forall|i: int|
                0 <= i < chunks@.len() ==> {
                    let c = #[trigger] chunks@[i];
                    &&& frame_valid_at(pack@, c.pos as int)
                    &&& lz4_unpacked(frame_payload_at(pack@, c.pos as int)) is Some
                    &&& strictly_sorted(spec_chunk_seg(temp@, chunks@, i))
                    &&& forall|t: u32|
                        spec_chunk_seg(temp@, chunks@, i).contains(t) <==> spec_trigram_set(
                            lz4_unpacked(frame_payload_at(pack@, c.pos as int)).unwrap(),
                        ).contains(t)
                },
            forall|t: u32|
                t < MAX_TRI ==> #[trigger] counts@[t as int] == spec_occurrences(
                    temp@,
                    chunks@,
                    t,
                ),
            (spec_flatten_walk(pack@, 16) is Some <==> spec_flatten_walk(pack@, pos as int)
                is Some),
            spec_flatten_walk(pack@, pos as int) is Some ==> spec_flatten_walk(
                pack@,
                16,
            ).unwrap() == spec_docs_of(temp@, chunks@) + spec_flatten_walk(
                pack@,
                pos as int,
            ).unwrap(),
        decreases n - pos,
    {
        let rec = match read_record(pack, pos) {
            Ok(Some(rec)) => rec,
            Ok(None) => {
                proof {
                    assert(pos == n);
                    assert(spec_flatten_walk(pack@, pos as int) == Some(
                        Seq::<(u32, Seq<u32>)>::empty(),
                    ));
                    assert(spec_flatten_walk(pack@, 16) == Some(spec_docs_of(temp@, chunks@)))
                        by {
                        assert(spec_docs_of(temp@, chunks@) + Seq::<(u32, Seq<u32>)>::empty()
                            =~= spec_docs_of(temp@, chunks@));
                    }
                    assert forall|t: u32|
                        t < MAX_TRI implies spec_walk_occ(
                        spec_flatten_walk(pack@, 16).unwrap(),
                        t,
                    ) <= u32::MAX by {
                        lemma_occ_matches_walk(temp@, chunks@, t);
                        assert(counts@[t as int] == spec_occurrences(temp@, chunks@, t));
                    }
                }
                return Ok((temp, chunks, counts));
            },
            Err(e) => {
                proof {
                    assert(!frame_valid_at(pack@, pos as int));
                    assert(spec_flatten_walk(pack@, pos as int) is None);
                }
                return Err(e);
            },
        };
        let mut rec = rec;
        let payload = rec.read_payload();
        proof {
            assert(frame_valid_at(pack@, pos as int));
        }
        let doc = match lz4_decompress(&payload) {
            Ok(d) => d,
            Err(e) => {
                proof {
                    assert(lz4_unpacked(frame_payload_at(pack@, pos as int)) is None);
                    assert(spec_flatten_walk(pack@, pos as int) is None);
                }
                return Err(e);
            },
        };
        let tris: Vec<u32> = trigrams_full(doc.as_slice());
        proof {
            lemma_ascending_len_bound(tris@);
        }
        if pos > u32::MAX as usize {
            proof {
                assert(spec_flatten_walk(pack@, pos as int) is None);
            }
            return Err(Error::InvalidState);
        }
        let chunk = TempFileChunk { pos: pos as u32, num_tris: tris.len() as u32 };

        let ghost temp0 = temp@;
        let ghost chunks0 = chunks@;
        let ghost counts0 = counts@;

        // append the document's codes and update the occurrence counts
        let mut k: usize = 0;
        while k < tris.len()
            invariant
                counts@.len() == MAX_TRI,
                k <= tris@.len(),
                temp@ == temp0 + tris@.subrange(0, k as int),
                forall|a: int| 0 <= a < tris@.len() ==> #[trigger] tris@[a] < MAX_TRI,
                forall|a: int, b: int| 0 <= a < b < tris@.len() ==> tris@[a] < tris@[b],
                forall|t: u32|
                    t < MAX_TRI ==> #[trigger] counts@[t as int] == counts0[t as int] + (if
                    tris@.subrange(0, k as int).contains(t) {
                        1int
                    } else {
                        0int
                    }),
                counts0.len() == MAX_TRI,
                forall|u: u32|
                    u < MAX_TRI ==> #[trigger] counts0[u as int] == spec_occurrences(
                        temp0,
                        chunks0,
                        u,
                    ),
                n == pack@.len(),
                16 <= pos < n,
                pos <= u32::MAX,
                frame_valid_at(pack@, pos as int),
                lz4_unpacked(frame_payload_at(pack@, pos as int)) == Some(doc@),
                tris@ == crate::tri::spec_tri_seq(doc@),
                (spec_flatten_walk(pack@, 16) is Some <==> spec_flatten_walk(pack@, pos as int)
                    is Some),
                spec_flatten_walk(pack@, pos as int) is Some ==> spec_flatten_walk(
                    pack@,
                    16,
                ).unwrap() == spec_docs_of(temp0, chunks0) + spec_flatten_walk(
                    pack@,
                    pos as int,
                ).unwrap(),
            decreases tris@.len() - k,
        {
            let t: u32 = tris[k];
            let cur: u32 = counts[t as usize];
            if cur == u32::MAX {
                proof {
                    // this code already occurs the largest recordable
                    // number of times across the earlier documents, and
                    // this document holds it once more
                    assert(!tris@.subrange(0, k as int).contains(t)) by {
                        if tris@.subrange(0, k as int).contains(t) {
                            let j = choose|j: int|
                                0 <= j < k && #[trigger] tris@.subrange(0, k as int)[j] == t;
                            assert(tris@[j] == t);
                            assert(tris@[j] < tris@[k as int]);
                        }
                    }
                    assert(counts0[t as int] == u32::MAX);
                    if spec_flatten_walk(pack@, 16) is Some {
                        let rest = spec_flatten_walk(pack@, pos as int).unwrap();
                        assert(rest.len() > 0 && rest[0].1 == tris@) by {
                            assert(spec_flatten_walk(pack@, frame_next_at(pack@, pos as int))
                                is Some);
                        }
                        assert(rest =~= seq![rest[0]] + rest.drop_first());
                        let full = spec_flatten_walk(pack@, 16).unwrap();
                        lemma_walk_occ_concat(spec_docs_of(temp0, chunks0), rest, t);
                        lemma_walk_occ_concat(seq![rest[0]], rest.drop_first(), t);
                        lemma_walk_occ_nonneg(rest.drop_first(), t);
                        lemma_occ_matches_walk(temp0, chunks0, t);
                        assert(tris@.contains(t)) by {
                            assert(tris@[k as int] == t);
                        }
                        assert(spec_walk_occ(seq![rest[0]], t) == 1) by {
                            assert(seq![rest[0]].drop_last() =~= Seq::<(u32, Seq<u32>)>::empty());
                            assert(spec_walk_occ(Seq::<(u32, Seq<u32>)>::empty(), t) == 0);
                            assert(seq![rest[0]].last() == rest[0]);
                            assert(rest[0].1 == tris@);
                            assert(tris@[k as int] == t);
                            assert(rest[0].1.contains(t));
                        }
                        assert(counts0[t as int] == spec_occurrences(temp0, chunks0, t));
                        assert(spec_walk_occ(spec_docs_of(temp0, chunks0), t) == u32::MAX);
                        assert(full == spec_docs_of(temp0, chunks0) + rest);
                        assert(spec_walk_occ(full, t) == spec_walk_occ(
                            spec_docs_of(temp0, chunks0),
                            t,
                        ) + spec_walk_occ(rest, t));
                        assert(spec_walk_occ(rest, t) == spec_walk_occ(seq![rest[0]], t)
                            + spec_walk_occ(rest.drop_first(), t));
                        assert(spec_walk_occ(full, t) > u32::MAX);
                    }
                    assert(!spec_buildable(pack@));
                }
                return Err(Error::InvalidState);
            }
            counts.set(t as usize, cur + 1);
            temp.push(t);
            k = k + 1;
            proof {
                assert(temp@ =~= temp0 + tris@.subrange(0, k as int));
                assert forall|u: u32|
                    u < MAX_TRI implies #[trigger] counts@[u as int] == counts0[u as int] + (if
                tris@.subrange(0, k as int).contains(u) {
                    1int
                } else {
                    0int
                }) by {
                    if u == t {
                        assert(tris@.subrange(0, k as int)[k - 1] == t);
                        assert(!tris@.subrange(0, k - 1).contains(t)) by {
                            if tris@.subrange(0, k - 1).contains(t) {
                                let j = choose|j: int|
                                    0 <= j < k - 1 && #[trigger] tris@.subrange(0, k - 1)[j]
                                        == t;
                                assert(tris@[j] == t);
                                assert(tris@[j] < tris@[k - 1]);
                            }
                        }
                    } else {
                        if tris@.subrange(0, k as int).contains(u) {
                            let j = choose|j: int|
                                0 <= j < k && #[trigger] tris@.subrange(0, k as int)[j] == u;
                            assert(tris@.subrange(0, k - 1)[j] == u);
                        }
                        if tris@.subrange(0, k - 1).contains(u) {
                            let j = choose|j: int|
                                0 <= j < k - 1 && #[trigger] tris@.subrange(0, k - 1)[j] == u;
                            assert(tris@.subrange(0, k as int)[j] == u);
                        }
                    }
                }
            }
        }
        proof {
            assert(tris@.subrange(0, tris@.len() as int) =~= tris@);
        }
        chunks.push(chunk);

        let next_off: u64 = rec.len();
        proof {
            assert(temp@.subrange(0, temp0.len() as int) =~= temp0);
            // the new chunk's slice is exactly the document's trigram list
            let nc = chunks@.len() - 1;
            assert(chunks@[nc] == chunk);
            lemma_start_push(chunks0, chunk, nc);
            assert(spec_chunk_start(chunks@, nc) == temp0.len());
            assert(spec_chunk_seg(temp@, chunks@, nc) =~= tris@);
            assert(spec_chunk_start(chunks@, chunks@.len() as int) == temp@.len());
            // earlier chunks are untouched
            assert forall|i: int| 0 <= i < nc implies spec_chunk_seg(temp@, chunks@, i)
                == spec_chunk_seg(temp0, chunks0, i) && spec_chunk_start(chunks@, i + 1)
                <= temp@.len() by {
                lemma_seg_grow(temp0, temp@, chunks0, chunk, i);
                lemma_start_push(chunks0, chunk, i + 1);
            }
            // occurrence counts extend by the new document
            assert forall|t: u32|
                t < MAX_TRI implies #[trigger] counts@[t as int] == spec_occurrences(
                temp@,
                chunks@,
                t,
            ) by {
                assert(chunks@.drop_last() =~= chunks0);
                assert(spec_occurrences(temp@, chunks0, t) == spec_occurrences(temp0, chunks0, t))
                    by {
                    lemma_occurrences_grow(temp0, temp@, chunks0, t);
                }
                assert(spec_chunk_seg(temp@, chunks@, nc) == tris@);
            }
        }
        let fl: u64 = next_off;
        proof {
            assert(frame_next_at(pack@, pos as int) == pos + fl);
            crate::pack::lemma_align_props(crate::pack::frame_end_at(pack@, pos as int));
            assert(frame_next_at(pack@, pos as int) > pos);
        }
        if fl > (n - pos) as u64 {
            proof {
                assert(frame_next_at(pack@, pos as int) > pack@.len());
                assert(spec_flatten_walk(pack@, pos as int) is None);
            }
            return Err(Error::InvalidState);
        }
        let ghost oldpos: int = pos as int;
        pos = pos + fl as usize;
        proof {
            assert(frame_next_at(pack@, chunk.pos as int) == pos);
            // the walk steps over exactly the record just scanned
            let d: (u32, Seq<u32>) = (chunk.pos, tris@);
            assert(spec_docs_of(temp@, chunks@) =~= spec_docs_of(temp0, chunks0) + seq![d]) by {
                assert forall|i: int|
                    0 <= i < chunks0.len() implies spec_docs_of(temp@, chunks@)[i]
                    == spec_docs_of(temp0, chunks0)[i] by {
                    assert(spec_chunk_seg(temp@, chunks@, i) == spec_chunk_seg(temp0, chunks0, i));
                }
                assert(spec_docs_of(temp@, chunks@)[chunks0.len() as int] == d);
            }
            if spec_flatten_walk(pack@, oldpos) is Some {
                let rest = spec_flatten_walk(pack@, oldpos).unwrap();
                assert(rest == seq![d] + spec_flatten_walk(pack@, pos as int).unwrap());
                assert(spec_flatten_walk(pack@, 16).unwrap() == spec_docs_of(temp@, chunks@)
                    + spec_flatten_walk(pack@, pos as int).unwrap()) by {
                    assert(spec_docs_of(temp0, chunks0) + (seq![d] + spec_flatten_walk(
                        pack@,
                        pos as int,
                    ).unwrap()) =~= spec_docs_of(temp@, chunks@) + spec_flatten_walk(
                        pack@,
                        pos as int,
                    ).unwrap());
                }
            }
        }
    }
}

/// A longer scratch array with the same prefix counts the same
/// occurrences over the same chunks.
proof fn lemma_occurrences_grow(
    temp: Seq<u32>,
    grown: Seq<u32>,
    chunks: Seq<TempFileChunk>,
    t: u32,
)
    requires
        spec_chunk_start(chunks, chunks.len() as int) <= temp.len(),
        temp.len() <= grown.len(),
        grown.subrange(0, temp.len() as int) == temp,
        forall|j: int|
            0 <= j < chunks.len() ==> #[trigger] spec_chunk_start(chunks, j + 1) <= temp.len(),
    ensures
        spec_occurrences(grown, chunks, t) == spec_occurrences(temp, chunks, t),
    decreases chunks.len(),
{
    if chunks.len() > 0 {
        let m = chunks.len() - 1;
        assert(chunks.drop_last().len() == m);
        assert forall|j: int|
            0 <= j < m implies #[trigger] spec_chunk_start(chunks.drop_last(), j + 1)
            == spec_chunk_start(chunks, j + 1) by {
            lemma_start_stable(chunks, j + 1);
        }
        assert(spec_chunk_start(chunks.drop_last(), m) <= temp.len()) by {
            if m > 0 {
                lemma_start_stable(chunks, m);
            }
        }
        lemma_occurrences_grow(temp, grown, chunks.drop_last(), t);
        assert forall|k: int| 0 <= k < temp.len() implies #[trigger] grown[k] == temp[k] by {
            assert(temp[k] == grown.subrange(0, temp.len() as int)[k]);
        }
        assert(spec_chunk_seg(grown, chunks, m) =~= spec_chunk_seg(temp, chunks, m)) by {
            lemma_start_nonneg(chunks, m);
            assert(spec_chunk_start(chunks, m + 1) <= temp.len());
        }
    }
}

/// The memory ceiling for one batch of posting lists.
pub const BLOCK_LIMIT: u64 = 100000000;

/// The sum of the announced counts of `counts[a..b]`.
pub open spec fn spec_count_sum(counts: Seq<(u32, u32)>, a: int, b: int) -> int
    decreases b - a,
{
    if a >= b {
        0
    } else {
        counts[a].1 + spec_count_sum(counts, a + 1, b)
    }
}

/// Turns the dense occurrence table into the ascending list of
/// `(code, count)` pairs with a non-zero count.
pub fn count_pairs(dense: &Vec<u32>) -> (r: Vec<(u32, u32)>)
    requires
        dense@.len() == MAX_TRI,
    ensures
        r@.len() <= MAX_TRI,
        forall|a: int, b: int| 0 <= a < b < r@.len() ==> r@[a].0 < r@[b].0,
        forall|i: int|
            0 <= i < r@.len() ==> (#[trigger] r@[i]).0 < MAX_TRI && r@[i].1 == dense@[r@[i].0 as int]
                && r@[i].1 > 0,
        forall|t: u32|
            t < MAX_TRI && dense@[t as int] > 0 ==> exists|i: int|
                0 <= i < r@.len() && (#[trigger] r@[i]).0 == t,
    decreases dense@.len(),
{
    let mut r: Vec<(u32, u32)> = Vec::new();
    let mut t: usize = 0;
    while t < MAX_TRI as usize
        invariant
            dense@.len() == MAX_TRI,
            t <= MAX_TRI,
            r@.len() <= t,
            forall|a: int, b: int| 0 <= a < b < r@.len() ==> r@[a].0 < r@[b].0,
            forall|i: int|
                0 <= i < r@.len() ==> (#[trigger] r@[i]).0 < t && r@[i].1 == dense@[
                r@[i].0 as int] && r@[i].1 > 0,
            forall|u: u32|
                u < t && dense@[u as int] > 0 ==> exists|i: int|
                    0 <= i < r@.len() && (#[trigger] r@[i]).0 == u,
        decreases MAX_TRI - t,
    {
        let c: u32 = dense[t];
        if c > 0 {
            let ghost r0 = r@;
            r.push((t as u32, c));
            proof {
                assert(forall|i: int| 0 <= i < r0.len() ==> r@[i] == r0[i]);
                assert(r@[r@.len() - 1].0 == t as u32);
                assert forall|u: u32|
                    u < t + 1 && dense@[u as int] > 0 implies exists|i: int|
                    0 <= i < r@.len() && (#[trigger] r@[i]).0 == u by {
                    if u < t {
                        let i = choose|i: int| 0 <= i < r0.len() && (#[trigger] r0[i]).0 == u;
                        assert(r@[i].0 == u);
                    } else {
                        assert(r@[r@.len() - 1].0 == u);
                    }
                }
            }
        }
        t = t + 1;
    }
    r
}

/// Picks the next batch of codes: starting at `start`, codes are taken
/// until the running sum of their expected posting counts crosses the
/// ceiling, so that one batch's postings fit in memory.  Returns where
/// the batch ends, together with one empty posting list per taken code.
pub fn take_some(counts: &Vec<(u32, u32)>, start: usize) -> (r: (usize, Vec<(u32, Vec<u32>)>))
    requires
        start <= counts@.len(),
    ensures
        start <= r.0 <= counts@.len(),
        start < counts@.len() ==> r.0 > start,
        r.0 < counts@.len() ==> spec_count_sum(counts@, start as int, r.0 - 1) > BLOCK_LIMIT,
        forall|j: int|
            start <= j < r.0 - 1 ==> spec_count_sum(counts@, start as int, j) <= BLOCK_LIMIT,
        r.1@.len() == r.0 - start,
        forall|i: int|
            0 <= i < r.1@.len() ==> (#[trigger] r.1@[i]).0 == counts@[start + i].0
                && r.1@[i].1@.len() == 0,
{
    let mut tris: Vec<(u32, Vec<u32>)> = Vec::new();
    let mut block: u64 = 0;
    let mut m: usize = start;
    while m < counts.len()
        invariant
            start <= m <= counts@.len(),
            block == spec_count_sum(counts@, start as int, m as int),
            block <= BLOCK_LIMIT + u32::MAX,
            forall|j: int|
                start <= j < m ==> #[trigger] spec_count_sum(counts@, start as int, j)
                    <= BLOCK_LIMIT,
            tris@.len() == m - start,
            forall|i: int|
                0 <= i < tris@.len() ==> (#[trigger] tris@[i]).0 == counts@[start + i].0
                    && tris@[i].1@.len() == 0,
        decreases counts@.len() - m,
    {
        let (tri, count) = counts[m];
        tris.push((tri, Vec::new()));
        m = m + 1;
        proof {
            lemma_count_sum_snoc(counts@, start as int, m as int);
        }
        if block > BLOCK_LIMIT {
            proof {
                assert(spec_count_sum(counts@, start as int, m - 1) > BLOCK_LIMIT);
            }
            return (m, tris);
        }
        block = block + count as u64;
    }
    (m, tris)
}

/// Summing one more entry adds its count.
proof fn lemma_count_sum_snoc(counts: Seq<(u32, u32)>, a: int, b: int)
    requires
        a < b <= counts.len(),
    ensures
        spec_count_sum(counts, a, b) == spec_count_sum(counts, a, b - 1) + counts[b - 1].1,
    decreases b - a,
{
    if a == b - 1 {
        assert(spec_count_sum(counts, a, b) == counts[a].1 + spec_count_sum(counts, a + 1, b));
        assert(spec_count_sum(counts, a + 1, b) == 0);
        assert(spec_count_sum(counts, a, b - 1) == 0);
    } else {
        lemma_count_sum_snoc(counts, a + 1, b);
        assert(spec_count_sum(counts, a, b) == counts[a].1 + spec_count_sum(counts, a + 1, b));
        assert(spec_count_sum(counts, a, b - 1) == counts[a].1 + spec_count_sum(
            counts,
            a + 1,
            b - 1,
        ));
    }
}

/// The positions of the chunks whose slice holds code `t`, in chunk
/// order.
pub open spec fn spec_positions_for(temp: Seq<u32>, chunks: Seq<TempFileChunk>, t: u32) -> Seq<u32>
    decreases chunks.len(),
{
    if chunks.len() == 0 {
        Seq::empty()
    } else {
        let prior = spec_positions_for(temp, chunks.drop_last(), t);
        if spec_chunk_seg(temp, chunks, chunks.len() - 1).contains(t) {
            prior.push(chunks[chunks.len() - 1].pos)
        } else {
            prior
        }
    }
}

/// A prefix of the chunk list has the same starts as the whole.
proof fn lemma_start_prefix(chunks: Seq<TempFileChunk>, j: int, k: int)
    requires
        0 <= k <= j <= chunks.len(),
    ensures
        spec_chunk_start(chunks.subrange(0, j), k) == spec_chunk_start(chunks, k),
    decreases k,
{
    if k > 0 {
        lemma_start_prefix(chunks, j, k - 1);
    }
}

/// Chunk starts never decrease along the list.
proof fn lemma_start_le(chunks: Seq<TempFileChunk>, a: int, b: int)
    requires
        0 <= a <= b,
    ensures
        spec_chunk_start(chunks, a) <= spec_chunk_start(chunks, b),
    decreases b - a,
{
    if a < b {
        lemma_start_le(chunks, a, b - 1);
        lemma_start_nonneg(chunks, b);
    }
}

/// The first index in `[a, b)` at which `data` reaches `x`, found by
/// bisection over the sorted range.
fn lower_bound(data: &Vec<u32>, a: usize, b: usize, x: u32) -> (r: usize)
    requires
        a <= b <= data@.len(),
        forall|i: int, j: int| a <= i < j < b ==> data@[i] < data@[j],
    ensures
        a <= r <= b,
        forall|j: int| a <= j < r ==> data@[j] < x,
        forall|j: int| r <= j < b ==> data@[j] >= x,
{
    let mut lo: usize = a;
    let mut hi: usize = b;
    while lo < hi
        invariant
            a <= lo <= hi <= b <= data@.len(),
            forall|i: int, j: int| a <= i < j < b ==> data@[i] < data@[j],
            forall|j: int| a <= j < lo ==> data@[j] < x,
            forall|j: int| hi <= j < b ==> data@[j] >= x,
        decreases hi - lo,
    {
        let mid: usize = lo + (hi - lo) / 2;
        if data[mid] < x {
            proof {
                assert(forall|j: int| lo <= j <= mid ==> data@[j] <= data@[mid as int]);
            }
            lo = mid + 1;
        } else {
            proof {
                assert(forall|j: int| mid < j < b ==> data@[j] > data@[mid as int]);
            }
            hi = mid;
        }
    }
    lo
}

/// Phase two, one batch: for every document, bisect its slice of the
/// scratch array for the batch's code range (with two codes of slack at
/// the lower edge) and scan only that part, appending the document's
/// offset to the posting list of every batch code the slice holds.  Each
/// posting list ends up holding exactly the offsets of the documents that
/// contain its code, in document order.
#[verifier::rlimit(60)]
pub fn fill_tris(
    temp_index: &Vec<TempFileChunk>,
    temp_data: &Vec<u32>,
    tris: &mut Vec<(u32, Vec<u32>)>,
)
    requires
        old(tris)@.len() > 0,
        forall|a: int, b: int| 0 <= a < b < old(tris)@.len() ==> old(tris)@[a].0 < old(tris)@[b].0,
        forall|i: int| 0 <= i < old(tris)@.len() ==> (#[trigger] old(tris)@[i]).1@.len() == 0,
        spec_chunk_start(temp_index@, temp_index@.len() as int) == temp_data@.len(),
        forall|i: int|
            0 <= i < temp_index@.len() ==> strictly_sorted(
                #[trigger] spec_chunk_seg(temp_data@, temp_index@, i),
            ),
    ensures
        final(tris)@.len() == old(tris)@.len(),
        forall|ki: int|
            0 <= ki < final(tris)@.len() ==> (#[trigger] final(tris)@[ki]).0 == old(tris)@[ki].0,
        forall|ki: int|
            0 <= ki < final(tris)@.len() ==> (#[trigger] final(tris)@[ki]).1@
                == spec_positions_for(temp_data@, temp_index@, old(tris)@[ki].0),
{
    let nkeys: usize = tris.len();
    let dl: usize = temp_data.len();
    let min: u32 = tris[0].0;
    let max: u32 = tris[nkeys - 1].0;
    proof {
        assert(forall|ki: int| 0 <= ki < tris@.len() ==> min <= (#[trigger] tris@[ki]).0);
        assert(forall|ki: int| 0 <= ki < tris@.len() ==> (#[trigger] tris@[ki]).0 <= max);
    }

    let mut run: usize = 0;
    let mut i: usize = 0;
    while i < temp_index.len()
        invariant
            nkeys == tris@.len(),
            nkeys == old(tris)@.len(),
            nkeys > 0,
            forall|ki: int| 0 <= ki < nkeys ==> (#[trigger] tris@[ki]).0 == old(tris)@[ki].0,
            forall|a: int, b: int| 0 <= a < b < nkeys ==> tris@[a].0 < tris@[b].0,
            forall|ki: int| 0 <= ki < nkeys ==> min <= (#[trigger] tris@[ki]).0 <= max,
            min == tris@[0].0,
            max == tris@[nkeys - 1].0,
            i <= temp_index@.len(),
            dl == temp_data@.len(),
            run == spec_chunk_start(temp_index@, i as int),
            spec_chunk_start(temp_index@, temp_index@.len() as int) == temp_data@.len(),
            forall|k: int|
                0 <= k < temp_index@.len() ==> strictly_sorted(
                    #[trigger] spec_chunk_seg(temp_data@, temp_index@, k),
                ),
            forall|ki: int|
                0 <= ki < nkeys ==> (#[trigger] tris@[ki]).1@ == spec_positions_for(
                    temp_data@,
                    temp_index@.subrange(0, i as int),
                    tris@[ki].0,
                ),
        decreases temp_index@.len() - i,
    {
        let part: TempFileChunk = temp_index[i];
        let nt: usize = part.num_tris as usize;
        proof {
            lemma_start_le(temp_index@, i as int + 1, temp_index@.len() as int);
            lemma_start_nonneg(temp_index@, i as int);
            assert(spec_chunk_start(temp_index@, i as int + 1) == run + nt);
            assert(run + nt <= temp_data@.len());
            let seg = spec_chunk_seg(temp_data@, temp_index@, i as int);
            assert(seg =~= temp_data@.subrange(run as int, run as int + nt));
            assert forall|a: int, b: int|
                run <= a < b < run + nt implies temp_data@[a] < temp_data@[b] by {
                assert(seg[a - run] == temp_data@[a]);
                assert(seg[b - run] == temp_data@[b]);
            }
        }

        // bisect the document's slice for the batch's range, with slack
        // at the lower edge
        let lo: usize = lower_bound(temp_data, run, run + nt, min);
        let start2: usize = if lo >= 2 && lo - 2 >= run {
            lo - 2
        } else {
            run
        };
        let hi: usize = if max == 0xffff_ffff {
            run + nt
        } else {
            lower_bound(temp_data, run, run + nt, max + 1)
        };
        proof {
            if lo > hi {
                assert(temp_data@[hi as int] >= max + 1);
                assert(temp_data@[hi as int] < min);
            }
            assert(start2 <= hi);
        }

        let ghost tris0 = tris@;
        let mut j: usize = start2;
        while j < hi
            invariant
                nkeys == tris@.len(),
                nkeys > 0,
                tris0.len() == nkeys,
                forall|ki: int| 0 <= ki < nkeys ==> (#[trigger] tris@[ki]).0 == tris0[ki].0,
                forall|a: int, b: int| 0 <= a < b < nkeys ==> tris@[a].0 < tris@[b].0,
                forall|ki: int| 0 <= ki < nkeys ==> min <= (#[trigger] tris@[ki]).0 <= max,
                run <= start2 <= j,
                j <= hi <= run + nt,
                run + nt <= temp_data@.len(),
                forall|a: int, b: int| run <= a < b < run + nt ==> temp_data@[a] < temp_data@[b],
                forall|q: int| run <= q < start2 ==> temp_data@[q] < min,
                forall|q: int| hi <= q < run + nt ==> temp_data@[q] > max,
                forall|ki: int|
                    0 <= ki < nkeys ==> (#[trigger] tris@[ki]).1@ == (if exists|q: int|
                        start2 <= q < j && temp_data@[q] == tris0[ki].0 {
                        tris0[ki].1@.push(part.pos)
                    } else {
                        tris0[ki].1@
                    }),
            decreases hi - j,
        {
            let t: u32 = temp_data[j];
            // look the code up among the batch keys
            let mut ki: usize = 0;
            let mut found: usize = nkeys;
            while ki < nkeys
                invariant
                    nkeys == tris@.len(),
                    ki <= nkeys,
                    found == nkeys || (found < nkeys && tris@[found as int].0 == t),
                    found == nkeys ==> forall|q: int|
                        0 <= q < ki ==> (#[trigger] tris@[q]).0 != t,
                decreases nkeys - ki,
            {
                if found == nkeys && tris[ki].0 == t {
                    found = ki;
                }
                ki = ki + 1;
            }
            if found < nkeys {
                let ghost pre = tris@;
                let (key, mut list) = tris.remove(found);
                list.push(part.pos);
                tris.insert(found, (key, list));
                proof {
                    assert forall|q: int| 0 <= q < nkeys implies (#[trigger] tris@[q]) == (if q
                        != found {
                        pre[q]
                    } else {
                        tris@[q]
                    }) by {
                        assert(pre.remove(found as int).insert(
                            found as int,
                            (pre[found as int].0, tris@[found as int].1),
                        ) =~= tris@);
                    }
                    assert(tris@[found as int].0 == pre[found as int].0);
                    assert(tris@[found as int].1@ == pre[found as int].1@.push(part.pos));
                    // this is the first occurrence of the code in the
                    // scanned range: the slice ascends strictly
                    assert(!(exists|q: int|
                        start2 <= q < j && temp_data@[q] == tris0[found as int].0)) by {
                        if exists|q: int| start2 <= q < j && temp_data@[q] == tris0[
                        found as int].0 {
                            let q = choose|q: int|
                                start2 <= q < j && #[trigger] temp_data@[q] == tris0[
                                found as int].0;
                            if q >= start2 && q < start2 {
                            }
                            assert(temp_data@[q] == t);
                            if temp_data@[q] < min {
                            } else {
                                assert(temp_data@[q] < temp_data@[j as int]);
                            }
                        }
                    }
                    assert forall|kk: int|
                        0 <= kk < nkeys implies (#[trigger] tris@[kk]).1@ == (if exists|q: int|
                        start2 <= q < j + 1 && temp_data@[q] == tris0[kk].0 {
                        tris0[kk].1@.push(part.pos)
                    } else {
                        tris0[kk].1@
                    }) by {
                        if kk == found {
                            assert(temp_data@[j as int] == tris0[kk].0);
                        } else {
                            assert(tris@[kk] == pre[kk]);
                            assert(tris0[kk].0 != t);
                            if exists|q: int|
                                start2 <= q < j + 1 && temp_data@[q] == tris0[kk].0 {
                                let q = choose|q: int|
                                    start2 <= q < j + 1 && #[trigger] temp_data@[q] == tris0[
                                    kk].0;
                                assert(q < j);
                            }
                        }
                    }
                }
            } else {
                proof {
                    assert forall|kk: int|
                        0 <= kk < nkeys implies (#[trigger] tris@[kk]).1@ == (if exists|q: int|
                        start2 <= q < j + 1 && temp_data@[q] == tris0[kk].0 {
                        tris0[kk].1@.push(part.pos)
                    } else {
                        tris0[kk].1@
                    }) by {
                        assert(tris@[kk].0 != t);
                        if exists|q: int| start2 <= q < j + 1 && temp_data@[q] == tris0[kk].0 {
                            let q = choose|q: int|
                                start2 <= q < j + 1 && #[trigger] temp_data@[q] == tris0[kk].0;
                            assert(q < j || temp_data@[q] == t);
                        }
                    }
                }
            }
            j = j + 1;
        }

        // the scanned range saw the code exactly when the slice holds it
        proof {
            let chunks_pre = temp_index@.subrange(0, i as int);
            let chunks_now = temp_index@.subrange(0, i as int + 1);
            assert(chunks_now.drop_last() =~= chunks_pre);
            lemma_start_prefix(temp_index@, i as int + 1, i as int);
            lemma_start_prefix(temp_index@, i as int + 1, i as int + 1);
            assert(spec_chunk_start(chunks_now, i as int) == run);
            let seg = spec_chunk_seg(temp_data@, chunks_now, i as int);
            assert(seg =~= temp_data@.subrange(run as int, run as int + nt));
            assert forall|ki2: int|
                0 <= ki2 < nkeys implies (#[trigger] tris@[ki2]).1@ == spec_positions_for(
                temp_data@,
                chunks_now,
                tris@[ki2].0,
            ) by {
                let key = tris@[ki2].0;
                assert(chunks_now[i as int] == part);
                assert(spec_positions_for(temp_data@, chunks_now, key) == (if seg.contains(key) {
                    spec_positions_for(temp_data@, chunks_pre, key).push(part.pos)
                } else {
                    spec_positions_for(temp_data@, chunks_pre, key)
                }));
                if seg.contains(key) {
                    let w = choose|w: int| 0 <= w < seg.len() && #[trigger] seg[w] == key;
                    assert(temp_data@[run + w] == key);
                    assert(run + w >= start2) by {
                        if run + w < start2 {
                            assert(temp_data@[run + w] < min);
                        }
                    }
                    assert(run + w < hi) by {
                        if run + w >= hi {
                            assert(temp_data@[run + w] > max);
                        }
                    }
                    assert(exists|q: int| start2 <= q < hi && temp_data@[q] == tris0[ki2].0);
                } else {
                    if exists|q: int| start2 <= q < hi && temp_data@[q] == tris0[ki2].0 {
                        let q = choose|q: int|
                            start2 <= q < hi && #[trigger] temp_data@[q] == tris0[ki2].0;
                        if q >= run {
                            assert(seg[q - run] == key);
                        } else {
                            assert(temp_data@[q] < min);
                        }
                    }
                }
            }
        }
        run = run + nt;
        i = i + 1;
    }
    proof {
        assert(temp_index@.subrange(0, temp_index@.len() as int) =~= temp_index@);
    }
}

/// The header words of a batch: each code followed by its posting count.
pub open spec fn spec_headers(tris: Seq<(u32, Vec<u32>)>) -> Seq<u32>
    decreases tris.len(),
{
    if tris.len() == 0 {
        Seq::empty()
    } else {
        spec_headers(tris.drop_last()) + seq![
            tris.last().0,
            tris.last().1@.len() as u32,
        ]
    }
}

/// The posting words of a batch, in header order.
pub open spec fn spec_bodies(tris: Seq<(u32, Vec<u32>)>) -> Seq<u32>
    decreases tris.len(),
{
    if tris.len() == 0 {
        Seq::empty()
    } else {
        spec_bodies(tris.drop_last()) + tris.last().1@
    }
}

/// Emits one batch as a self-contained index block: the guard word, two
/// zero words, the header count, the headers, then the posting arrays in
/// header order.
pub fn write_block(tris: &Vec<(u32, Vec<u32>)>) -> (r: Vec<u32>)
    requires
        tris@.len() <= u32::MAX,
        forall|i: int| 0 <= i < tris@.len() ==> (#[trigger] tris@[i]).1@.len() <= u32::MAX,
    ensures
        r@ == seq![INDEX_GUARD, 0u32, 0u32, tris@.len() as u32] + spec_headers(tris@)
            + spec_bodies(tris@),
{
    let mut out: Vec<u32> = Vec::new();
    out.push(INDEX_GUARD);
    out.push(0);
    out.push(0);
    out.push(tris.len() as u32);
    let ghost lead: Seq<u32> = seq![INDEX_GUARD, 0u32, 0u32, tris@.len() as u32];
    proof {
        assert(out@ =~= lead);
    }
    let mut i: usize = 0;
    while i < tris.len()
        invariant
            i <= tris@.len(),
            tris@.len() <= u32::MAX,
            forall|k: int| 0 <= k < tris@.len() ==> (#[trigger] tris@[k]).1@.len() <= u32::MAX,
            out@ == lead + spec_headers(tris@.subrange(0, i as int)),
        decreases tris@.len() - i,
    {
        let pair = &tris[i];
        out.push(pair.0);
        out.push(pair.1.len() as u32);
        i = i + 1;
        proof {
            assert(tris@.subrange(0, i as int).drop_last() =~= tris@.subrange(0, i as int - 1));
            assert(tris@.subrange(0, i as int).last() == tris@[i - 1]);
            assert(out@ =~= lead + spec_headers(tris@.subrange(0, i as int)));
        }
    }
    proof {
        assert(tris@.subrange(0, tris@.len() as int) =~= tris@);
    }
    let ghost hdr: Seq<u32> = lead + spec_headers(tris@);
    let mut i2: usize = 0;
    while i2 < tris.len()
        invariant
            i2 <= tris@.len(),
            out@ == hdr + spec_bodies(tris@.subrange(0, i2 as int)),
        decreases tris@.len() - i2,
    {
        let list = &tris[i2].1;
        let mut k: usize = 0;
        let ghost base = out@;
        while k < list.len()
            invariant
                k <= list@.len(),
                list == &tris@[i2 as int].1,
                i2 < tris@.len(),
                out@ == base + list@.subrange(0, k as int),
            decreases list@.len() - k,
        {
            out.push(list[k]);
            k = k + 1;
            proof {
                assert(out@ =~= base + list@.subrange(0, k as int));
            }
        }
        i2 = i2 + 1;
        proof {
            assert(list@.subrange(0, list@.len() as int) =~= list@);
            assert(tris@.subrange(0, i2 as int).drop_last() =~= tris@.subrange(0, i2 as int - 1));
            assert(tris@.subrange(0, i2 as int).last() == tris@[i2 - 1]);
            assert(out@ =~= hdr + spec_bodies(tris@.subrange(0, i2 as int)));
        }
    }
    proof {
        assert(tris@.subrange(0, tris@.len() as int) =~= tris@);
    }
    out
}

/// Builds the whole index image for one pack file: scans and flattens the
/// pack, then emits the codes in ascending batches, each sized to the
/// memory ceiling, and closes the image with the zero guard word.
pub fn build_index_words(pack: &Vec<u8>) -> (r: Result<Vec<u32>, Error>)
    ensures
        r is Ok <==> spec_buildable(pack@),
        r matches Ok(words) ==> words@.len() >= 1 && words@.last() == 0
            && spec_parse_blocks(words@, 0, spec_empty_table()) == Some(
            Seq::new(
                MAX_TRI as nat,
                |t: int| spec_walk_positions(spec_flatten_walk(pack@, 16).unwrap(), t as u32),
            ),
        ),
{
    let (temp, chunks, dense) = match convert_pack_to_just_trigrams(pack) {
        Ok(t) => t,
        Err(e) => {
            return Err(e);
        },
    };
    let pairs = count_pairs(&dense);
    let mut out: Vec<u32> = Vec::new();
    let ghost mut table: Seq<Seq<u32>> = spec_empty_table();
    let mut start: usize = 0;
    while start < pairs.len()
        invariant
            spec_flatten_ok(pack@, temp@, chunks@),
            spec_buildable(pack@),
            spec_flatten_walk(pack@, 16) == Some(spec_docs_of(temp@, chunks@)),
            start <= pairs@.len(),
            pairs@.len() <= MAX_TRI,
            dense@.len() == MAX_TRI,
            forall|t: u32|
                t < MAX_TRI ==> #[trigger] dense@[t as int] == spec_occurrences(
                    temp@,
                    chunks@,
                    t,
                ),
            forall|a: int, b: int| 0 <= a < b < pairs@.len() ==> pairs@[a].0 < pairs@[b].0,
            forall|i: int|
                0 <= i < pairs@.len() ==> ((#[trigger] pairs@[i]).0 < MAX_TRI && pairs@[i].1
                    == dense@[pairs@[i].0 as int] && pairs@[i].1 > 0),
            forall|t: u32|
                t < MAX_TRI && dense@[t as int] > 0 ==> exists|i: int|
                    0 <= i < pairs@.len() && (#[trigger] pairs@[i]).0 == t,
            table.len() == MAX_TRI,
            forall|t: u32|
                t < MAX_TRI ==> #[trigger] table[t as int] == (if (exists|j: int|
                    0 <= j < start && (#[trigger] pairs@[j]).0 == t) {
                    spec_positions_for(temp@, chunks@, t)
                } else {
                    Seq::<u32>::empty()
                }),
            forall|ext: Seq<u32>|
                #[trigger] spec_parse_blocks(out@ + ext, 0, spec_empty_table())
                    == spec_parse_blocks(out@ + ext, out@.len() as int, table),
        decreases pairs@.len() - start,
    {
        let (end, mut batch) = take_some(&pairs, start);
        proof {
            assert(batch@.len() > 0);
            assert forall|a: int, b: int|
                0 <= a < b < batch@.len() implies batch@[a].0 < batch@[b].0 by {
                assert(batch@[a].0 == pairs@[start + a].0);
                assert(batch@[b].0 == pairs@[start + b].0);
            }
            assert(forall|i: int|
                0 <= i < batch@.len() ==> (#[trigger] batch@[i]).0 == pairs@[start + i].0
                    && batch@[i].0 < MAX_TRI);
        }
        let ghost keys: Seq<u32> = Seq::new(batch@.len(), |i: int| batch@[i].0);
        fill_tris(&chunks, &temp, &mut batch);
        proof {
            assert(batch@.len() <= u32::MAX);
            // every posting list the transpose produced ascends strictly
            // and fits the block header's count word
            assert forall|i: int|
                0 <= i < batch@.len() implies (strictly_sorted((#[trigger] batch@[i]).1@)
                && batch@[i].1@.len() <= u32::MAX) by {
                assert forall|a: int, b: int|
                    0 <= a < b < chunks@.len() implies chunks@[a].pos < chunks@[b].pos by {
                    lemma_chunk_pos_increase(pack@, temp@, chunks@, a, b);
                }
                lemma_positions_sorted(temp@, chunks@, batch@[i].0);
                assert(batch@[i].1@ == spec_positions_for(temp@, chunks@, batch@[i].0));
                lemma_positions_len(temp@, chunks@, batch@[i].0);
                assert(dense@[batch@[i].0 as int] == spec_occurrences(
                    temp@,
                    chunks@,
                    batch@[i].0,
                ));
            }
        }
        let mut block = write_block(&batch);
        let ghost out0 = out@;
        let ghost blockw = block@;
        out.append(&mut block);
        proof {
            assert(blockw == spec_block_words(batch@));
            // the walk that accepted the words so far accepts the new
            // block too, whatever follows it
            let nt = spec_batch_table(batch@, table);
            assert forall|ext: Seq<u32>|
                #[trigger] spec_parse_blocks(out@ + ext, 0, spec_empty_table())
                    == spec_parse_blocks(out@ + ext, out@.len() as int, nt) by {
                let words = out@ + ext;
                assert(out0 + (blockw + ext) =~= words);
                assert(spec_parse_blocks(words, 0, spec_empty_table()) == spec_parse_blocks(
                    words,
                    out0.len() as int,
                    table,
                ));
                assert(words.subrange(
                    out0.len() as int,
                    out0.len() as int + blockw.len() as int,
                ) =~= blockw);
                lemma_block_parse_step(words, out0.len() as int, batch@, table);
                let table2 = spec_insert_headers(
                    words,
                    out0.len() as int + 4,
                    batch@.len() as int,
                    out0.len() as int + 4 + 2 * batch@.len() as int,
                    table,
                );
                assert(nt =~= table2);
            }
            // the new table holds the batch's posting lists over the old
            let nt2 = spec_batch_table(batch@, table);
            assert forall|t: u32|
                t < MAX_TRI implies #[trigger] nt2[t as int] == (if (exists|j: int|
                0 <= j < end && (#[trigger] pairs@[j]).0 == t) {
                spec_positions_for(temp@, chunks@, t)
            } else {
                Seq::<u32>::empty()
            }) by {
                lemma_batch_lookup_found(batch@, 0, t as int);
                if spec_batch_lookup(batch@, 0, t as int) is Some {
                    let i = choose|i: int|
                        0 <= i < batch@.len() && (#[trigger] batch@[i]).0 == t && spec_batch_lookup(
                            batch@,
                            0,
                            t as int,
                        ).unwrap() == batch@[i].1@;
                    assert(batch@[i].1@ == spec_positions_for(temp@, chunks@, t));
                    assert(pairs@[start + i].0 == t);
                } else {
                    assert(forall|i: int|
                        0 <= i < batch@.len() ==> (#[trigger] batch@[i]).0 != t);
                    assert forall|j: int|
                        0 <= j < end && (#[trigger] pairs@[j]).0 == t implies j < start by {
                        if j >= start {
                            assert(batch@[j - start].0 == pairs@[j].0);
                        }
                    }
                }
            }
            table = nt2;
        }
        start = end;
    }
    let ghost prev = out@;
    out.push(0);
    proof {
        let words = out@;
        assert(words =~= prev + seq![0u32]);
        assert(spec_parse_blocks(prev + seq![0u32], 0, spec_empty_table()) == spec_parse_blocks(
            prev + seq![0u32],
            prev.len() as int,
            table,
        ));
        assert(words[words.len() - 1] == 0u32);
        assert(spec_parse_blocks(words, prev.len() as int, table) == Some(table));
        assert(out@.last() == 0);
        // every code's final list is the walk's posting list: codes the
        // pack never holds have empty lists on both sides
        let docs = spec_flatten_walk(pack@, 16).unwrap();
        assert forall|t: int|
            0 <= t < MAX_TRI implies table[t] == spec_walk_positions(docs, t as u32) by {
            lemma_positions_match_walk(temp@, chunks@, t as u32);
            if exists|j: int| 0 <= j < pairs@.len() && (#[trigger] pairs@[j]).0 == t as u32 {
                assert(table[t] == spec_positions_for(temp@, chunks@, t as u32));
            } else {
                assert(dense@[t] == 0) by {
                    if dense@[t] > 0 {
                        let i = choose|i: int|
                            0 <= i < pairs@.len() && (#[trigger] pairs@[i]).0 == t as u32;
                    }
                }
                lemma_positions_len(temp@, chunks@, t as u32);
                assert(spec_positions_for(temp@, chunks@, t as u32).len() == 0);
                assert(table[t] =~= spec_positions_for(temp@, chunks@, t as u32));
            }
        }
        assert(table =~= Seq::new(
            MAX_TRI as nat,
            |t: int| spec_walk_positions(docs, t as u32),
        ));
    }
    Ok(out)
}

/// The table a batch leaves behind: its own posting lists laid over
/// `table`.
pub open spec fn spec_batch_table(tris: Seq<(u32, Vec<u32>)>, table: Seq<Seq<u32>>) -> Seq<
    Seq<u32>,
> {
    Seq::new(
        table.len(),
        |c: int|
            match spec_batch_lookup(tris, 0, c) {
                Some(l) => l,
                None => table[c],
            },
    )
}

/// The number of posting words the first `k` batch entries announce.
pub open spec fn spec_bodies_len(tris: Seq<(u32, Vec<u32>)>, k: int) -> int
    decreases k,
{
    if k <= 0 {
        0
    } else {
        spec_bodies_len(tris, k - 1) + tris[k - 1].1@.len()
    }
}

proof fn lemma_headers_len(tris: Seq<(u32, Vec<u32>)>)
    ensures
        spec_headers(tris).len() == 2 * tris.len(),
    decreases tris.len(),
{
    if tris.len() > 0 {
        lemma_headers_len(tris.drop_last());
    }
}

proof fn lemma_bodies_len(tris: Seq<(u32, Vec<u32>)>)
    ensures
        spec_bodies(tris).len() == spec_bodies_len(tris, tris.len() as int),
    decreases tris.len(),
{
    if tris.len() > 0 {
        lemma_bodies_len(tris.drop_last());
        assert(spec_bodies_len(tris.drop_last(), tris.len() - 1) == spec_bodies_len(
            tris,
            tris.len() - 1,
        )) by {
            lemma_bodies_len_prefix(tris, tris.len() - 1);
        }
    }
}

/// The body prefix sums read only the entries before their index.
proof fn lemma_bodies_len_prefix(tris: Seq<(u32, Vec<u32>)>, k: int)
    requires
        0 <= k < tris.len(),
    ensures
        spec_bodies_len(tris.drop_last(), k) == spec_bodies_len(tris, k),
    decreases k,
{
    if k > 0 {
        lemma_bodies_len_prefix(tris, k - 1);
    }
}

proof fn lemma_bodies_len_nonneg(tris: Seq<(u32, Vec<u32>)>, k: int)
    ensures
        spec_bodies_len(tris, k) >= 0,
    decreases k,
{
    if k > 0 {
        lemma_bodies_len_nonneg(tris, k - 1);
    }
}

/// Where each header and each posting segment sits in the emitted words.
proof fn lemma_block_layout(tris: Seq<(u32, Vec<u32>)>, k: int)
    requires
        0 <= k < tris.len(),
    ensures
        spec_headers(tris).len() == 2 * tris.len(),
        spec_bodies(tris).len() == spec_bodies_len(tris, tris.len() as int),
        spec_headers(tris)[2 * k] == tris[k].0,
        spec_headers(tris)[2 * k + 1] == tris[k].1@.len() as u32,
        spec_bodies(tris).subrange(
            spec_bodies_len(tris, k),
            spec_bodies_len(tris, k) + tris[k].1@.len(),
        ) == tris[k].1@,
        0 <= spec_bodies_len(tris, k),
        spec_bodies_len(tris, k) + tris[k].1@.len() <= spec_bodies_len(tris, tris.len() as int),
    decreases tris.len(),
{
    lemma_headers_len(tris);
    lemma_bodies_len(tris);
    lemma_bodies_len_nonneg(tris, k);
    if k == tris.len() - 1 {
        lemma_headers_len(tris.drop_last());
        lemma_bodies_len(tris.drop_last());
        lemma_bodies_len_prefix(tris, k);
        assert(spec_bodies(tris).subrange(
            spec_bodies_len(tris, k),
            spec_bodies_len(tris, k) + tris[k].1@.len(),
        ) =~= tris[k].1@);
    } else {
        lemma_block_layout(tris.drop_last(), k);
        lemma_headers_len(tris.drop_last());
        lemma_bodies_len(tris.drop_last());
        lemma_bodies_len_prefix(tris, k);
        assert(spec_bodies_len(tris.drop_last(), k + 1) == spec_bodies_len(tris, k + 1)) by {
            lemma_bodies_len_prefix(tris, k + 1);
        }
        assert(tris.drop_last()[k] == tris[k]);
        assert(spec_headers(tris)[2 * k] == spec_headers(tris.drop_last())[2 * k]);
        assert(spec_headers(tris)[2 * k + 1] == spec_headers(tris.drop_last())[2 * k + 1]);
        lemma_bodies_len_nonneg(tris.drop_last(), k);
        assert(spec_bodies(tris).subrange(
            spec_bodies_len(tris, k),
            spec_bodies_len(tris, k) + tris[k].1@.len(),
        ) =~= spec_bodies(tris.drop_last()).subrange(
            spec_bodies_len(tris.drop_last(), k),
            spec_bodies_len(tris.drop_last(), k) + tris[k].1@.len(),
        ));
        assert(spec_bodies_len(tris, k) + tris[k].1@.len() == spec_bodies_len(tris, k + 1));
        lemma_bodies_len_monotonic(tris, k + 1, tris.len() as int);
    }
}

proof fn lemma_bodies_len_monotonic(tris: Seq<(u32, Vec<u32>)>, a: int, b: int)
    requires
        0 <= a <= b,
    ensures
        spec_bodies_len(tris, a) <= spec_bodies_len(tris, b),
    decreases b - a,
{
    if a < b {
        lemma_bodies_len_monotonic(tris, a, b - 1);
    }
}

/// The words `write_block` emits for a batch.
pub open spec fn spec_block_words(tris: Seq<(u32, Vec<u32>)>) -> Seq<u32> {
    seq![INDEX_GUARD, 0u32, 0u32, tris.len() as u32] + spec_headers(tris) + spec_bodies(tris)
}

/// The posting list the batch holds for code `c`, if any.
pub open spec fn spec_batch_lookup(tris: Seq<(u32, Vec<u32>)>, k: int, c: int) -> Option<Seq<u32>>
    decreases tris.len() - k,
{
    if k < 0 || k >= tris.len() {
        None
    } else if tris[k].0 == c {
        Some(tris[k].1@)
    } else {
        spec_batch_lookup(tris, k + 1, c)
    }
}

/// A successful batch lookup names one of the batch's own lists; a
/// failed one means no batch key matches.
proof fn lemma_batch_lookup_found(tris: Seq<(u32, Vec<u32>)>, k: int, c: int)
    requires
        0 <= k <= tris.len(),
    ensures
        spec_batch_lookup(tris, k, c) matches Some(l) ==> exists|i: int|
            k <= i < tris.len() && (#[trigger] tris[i]).0 == c && l == tris[i].1@,
        spec_batch_lookup(tris, k, c) is None ==> forall|i: int|
            k <= i < tris.len() ==> (#[trigger] tris[i]).0 != c,
    decreases tris.len() - k,
{
    if k < tris.len() {
        lemma_batch_lookup_found(tris, k + 1, c);
        if tris[k].0 == c {
            assert(spec_batch_lookup(tris, k, c) == Some(tris[k].1@));
        }
    }
}

/// A posting list is as long as its code's occurrence count.
proof fn lemma_positions_len(temp: Seq<u32>, chunks: Seq<TempFileChunk>, t: u32)
    ensures
        spec_positions_for(temp, chunks, t).len() == spec_occurrences(temp, chunks, t),
    decreases chunks.len(),
{
    if chunks.len() > 0 {
        lemma_positions_len(temp, chunks.drop_last(), t);
    }
}

proof fn lemma_total_matches_bodies(
    words: Seq<u32>,
    c: int,
    tris: Seq<(u32, Vec<u32>)>,
    k: int,
)
    requires
        0 <= c,
        0 <= k <= tris.len(),
        forall|i: int|
            0 <= i < 2 * tris.len() ==> #[trigger] words[c + 4 + i] == spec_headers(tris)[i],
        forall|i: int|
            0 <= i < tris.len() ==> (#[trigger] tris[i]).1@.len() <= u32::MAX,
    ensures
        spec_postings_total(words, c + 4 + 2 * k, tris.len() - k) == spec_bodies_len(
            tris,
            tris.len() as int,
        ) - spec_bodies_len(tris, k),
    decreases tris.len() - k,
{
    if k < tris.len() {
        lemma_total_matches_bodies(words, c, tris, k + 1);
        lemma_block_layout(tris, k);
        assert(words[c + 4 + (2 * k + 1)] == spec_headers(tris)[2 * k + 1]);
        assert(spec_postings_total(words, c + 4 + 2 * k, tris.len() - k) == words[c + 4 + 2 * k
            + 1] + spec_postings_total(words, c + 4 + 2 * k + 2, tris.len() - k - 1));
    }
}

proof fn lemma_block_ok_from_batch(
    words: Seq<u32>,
    c: int,
    tris: Seq<(u32, Vec<u32>)>,
    k: int,
)
    requires
        0 <= c,
        0 <= k <= tris.len(),
        words.len() >= c + 4 + 2 * tris.len() + spec_bodies(tris).len(),
        forall|i: int|
            0 <= i < 2 * tris.len() ==> #[trigger] words[c + 4 + i] == spec_headers(tris)[i],
        forall|i: int|
            0 <= i < spec_bodies(tris).len() ==> #[trigger] words[c + 4 + 2 * tris.len() + i]
                == spec_bodies(tris)[i],
        forall|i: int|
            0 <= i < tris.len() ==> (#[trigger] tris[i]).0 < MAX_TRI && strictly_sorted(
                tris[i].1@,
            ) && tris[i].1@.len() <= u32::MAX,
    ensures
        spec_block_ok(
            words,
            c + 4 + 2 * k,
            tris.len() - k,
            c + 4 + 2 * tris.len() + spec_bodies_len(tris, k),
        ),
    decreases tris.len() - k,
{
    if k < tris.len() {
        lemma_block_ok_from_batch(words, c, tris, k + 1);
        lemma_block_layout(tris, k);
        lemma_bodies_len(tris);
        let data = c + 4 + 2 * tris.len() + spec_bodies_len(tris, k);
        assert(words[c + 4 + 2 * k] == tris[k].0);
        assert(words[c + 4 + (2 * k + 1)] == spec_headers(tris)[2 * k + 1]);
        assert(words[c + 4 + 2 * k + 1] == tris[k].1@.len() as u32);
        assert(words.subrange(data, data + tris[k].1@.len()) =~= tris[k].1@) by {
            assert forall|m: int| 0 <= m < tris[k].1@.len() implies words[data + m] == tris[
            k].1@[m] by {
                assert(words[c + 4 + 2 * tris.len() + (spec_bodies_len(tris, k) + m)]
                    == spec_bodies(tris)[spec_bodies_len(tris, k) + m]);
                assert(spec_bodies(tris).subrange(
                    spec_bodies_len(tris, k),
                    spec_bodies_len(tris, k) + tris[k].1@.len(),
                )[m] == spec_bodies(tris)[spec_bodies_len(tris, k) + m]);
            }
        }
        assert(spec_bodies_len(tris, k) + tris[k].1@.len() == spec_bodies_len(tris, k + 1));
    }
}

proof fn lemma_insert_headers_from_batch(
    words: Seq<u32>,
    c0: int,
    tris: Seq<(u32, Vec<u32>)>,
    k: int,
    table: Seq<Seq<u32>>,
)
    requires
        0 <= c0,
        0 <= k <= tris.len(),
        table.len() == MAX_TRI,
        words.len() >= c0 + 4 + 2 * tris.len() + spec_bodies(tris).len(),
        forall|i: int|
            0 <= i < 2 * tris.len() ==> #[trigger] words[c0 + 4 + i] == spec_headers(tris)[i],
        forall|i: int|
            0 <= i < spec_bodies(tris).len() ==> #[trigger] words[c0 + 4 + 2 * tris.len() + i]
                == spec_bodies(tris)[i],
        forall|a: int, b: int| 0 <= a < b < tris.len() ==> tris[a].0 < tris[b].0,
        forall|i: int|
            0 <= i < tris.len() ==> (#[trigger] tris[i]).0 < MAX_TRI && tris[i].1@.len()
                <= u32::MAX,
    ensures
        ({
            let r = spec_insert_headers(
                words,
                c0 + 4 + 2 * k,
                tris.len() - k,
                c0 + 4 + 2 * tris.len() + spec_bodies_len(tris, k),
                table,
            );
            &&& r.len() == MAX_TRI
            &&& forall|c: int|
                0 <= c < MAX_TRI ==> #[trigger] r[c] == (match spec_batch_lookup(tris, k, c) {
                    Some(l) => l,
                    None => table[c],
                })
        }),
    decreases tris.len() - k,
{
    if k < tris.len() {
        lemma_block_layout(tris, k);
        lemma_bodies_len(tris);
        let data = c0 + 4 + 2 * tris.len() + spec_bodies_len(tris, k);
        assert(words[c0 + 4 + 2 * k] == tris[k].0);
        assert(words[c0 + 4 + (2 * k + 1)] == spec_headers(tris)[2 * k + 1]);
        assert(words[c0 + 4 + 2 * k + 1] == tris[k].1@.len() as u32);
        assert(words.subrange(data, data + tris[k].1@.len()) =~= tris[k].1@) by {
            assert forall|m: int| 0 <= m < tris[k].1@.len() implies words[data + m] == tris[
            k].1@[m] by {
                assert(words[c0 + 4 + 2 * tris.len() + (spec_bodies_len(tris, k) + m)]
                    == spec_bodies(tris)[spec_bodies_len(tris, k) + m]);
                assert(spec_bodies(tris).subrange(
                    spec_bodies_len(tris, k),
                    spec_bodies_len(tris, k) + tris[k].1@.len(),
                )[m] == spec_bodies(tris)[spec_bodies_len(tris, k) + m]);
            }
        }
        let t2 = table.update(tris[k].0 as int, tris[k].1@);
        lemma_insert_headers_from_batch(words, c0, tris, k + 1, t2);
        assert(spec_bodies_len(tris, k) + tris[k].1@.len() == spec_bodies_len(tris, k + 1));
        let r = spec_insert_headers(
            words,
            c0 + 4 + 2 * k,
            tris.len() - k,
            data,
            table,
        );
        assert forall|c: int|
            0 <= c < MAX_TRI implies #[trigger] r[c] == (match spec_batch_lookup(tris, k, c) {
            Some(l) => l,
            None => table[c],
        }) by {
            if tris[k].0 == c {
                // a later entry cannot name the same code: the keys ascend
                assert(spec_batch_lookup(tris, k + 1, c) is None) by {
                    lemma_batch_lookup_bounds(tris, k + 1, c);
                }
            }
        }
    }
}

/// A lookup can only find a key some entry actually holds.
proof fn lemma_batch_lookup_bounds(tris: Seq<(u32, Vec<u32>)>, k: int, c: int)
    requires
        forall|a: int, b: int| 0 <= a < b < tris.len() ==> tris[a].0 < tris[b].0,
        0 < k <= tris.len() ==> tris[k - 1].0 == c,
    ensures
        0 < k <= tris.len() ==> spec_batch_lookup(tris, k, c) is None,
    decreases tris.len() - k,
{
    if 0 < k && k < tris.len() {
        assert(tris[k].0 > tris[k - 1].0);
        lemma_batch_lookup_strict(tris, k, c);
    }
}

/// Beyond a point where every key exceeds `c`, the lookup finds nothing.
proof fn lemma_batch_lookup_strict(tris: Seq<(u32, Vec<u32>)>, k: int, c: int)
    requires
        forall|a: int, b: int| 0 <= a < b < tris.len() ==> tris[a].0 < tris[b].0,
        0 <= k <= tris.len(),
        forall|j: int| k <= j < tris.len() ==> (#[trigger] tris[j]).0 > c,
    ensures
        spec_batch_lookup(tris, k, c) is None,
    decreases tris.len() - k,
{
    if k < tris.len() {
        lemma_batch_lookup_strict(tris, k + 1, c);
    }
}

/// One emitted block standing at offset `c` of a word array parses as
/// one step of the block walk: the walk continues just past the block,
/// with the batch's posting lists recorded over `table`.
pub proof fn lemma_block_parse_step(
    words: Seq<u32>,
    c: int,
    tris: Seq<(u32, Vec<u32>)>,
    table: Seq<Seq<u32>>,
)
    requires
        0 <= c,
        table.len() == MAX_TRI,
        0 < tris.len() <= u32::MAX,
        forall|a: int, b: int| 0 <= a < b < tris.len() ==> tris[a].0 < tris[b].0,
        forall|i: int|
            0 <= i < tris.len() ==> (#[trigger] tris[i]).0 < MAX_TRI && strictly_sorted(
                tris[i].1@,
            ) && tris[i].1@.len() <= u32::MAX,
        c + spec_block_words(tris).len() <= words.len(),
        words.subrange(c, c + spec_block_words(tris).len()) == spec_block_words(tris),
    ensures
        ({
            let next = c + spec_block_words(tris).len();
            let table2 = spec_insert_headers(
                words,
                c + 4,
                tris.len() as int,
                c + 4 + 2 * tris.len(),
                table,
            );
            &&& spec_parse_blocks(words, c, table) == spec_parse_blocks(words, next, table2)
            &&& table2.len() == MAX_TRI
            &&& forall|c2: int|
                0 <= c2 < MAX_TRI ==> #[trigger] table2[c2] == (
                match spec_batch_lookup(tris, 0, c2) {
                    Some(l) => l,
                    None => table[c2],
                })
        }),
{
    let n = tris.len() as int;
    let h = spec_headers(tris);
    let b = spec_bodies(tris);
    let bw = spec_block_words(tris);
    lemma_headers_len(tris);
    lemma_bodies_len(tris);
    lemma_bodies_len_nonneg(tris, n);
    assert(bw.len() == 4 + 2 * n + b.len());
    assert forall|i: int| 0 <= i < bw.len() implies #[trigger] words[c + i] == bw[i] by {
        assert(words.subrange(c, c + bw.len())[i] == words[c + i]);
    }
    assert(words[c + 0] == bw[0]);
    assert(words[c] == INDEX_GUARD);
    assert(words[c + 1] == 0u32);
    assert(words[c + 2] == 0u32);
    assert(words[c + 3] == tris.len() as u32);
    assert forall|i: int| 0 <= i < 2 * n implies #[trigger] words[c + 4 + i] == h[i] by {
        assert(words[c + (4 + i)] == bw[4 + i]);
        assert(bw[4 + i] == h[i]);
    }
    assert forall|i: int|
        0 <= i < b.len() implies #[trigger] words[c + 4 + 2 * n + i] == b[i] by {
        assert(words[c + (4 + 2 * n + i)] == bw[4 + 2 * n + i]);
        assert(bw[4 + 2 * n + i] == b[i]);
    }
    let count = words[c + 3] as int;
    assert(count == n);
    let data = c + 4 + 2 * n;
    lemma_total_matches_bodies(words, c, tris, 0);
    assert(spec_postings_total(words, c + 4, n) == b.len());
    lemma_block_ok_from_batch(words, c, tris, 0);
    assert(spec_bodies_len(tris, 0) == 0);
    lemma_insert_headers_from_batch(words, c, tris, 0, table);
    assert(spec_parse_blocks(words, c, table) == spec_parse_blocks(
        words,
        data + b.len(),
        spec_insert_headers(words, c + 4, n, data, table),
    ));
}

/// Round trip from builder to reader: parsing the words that
/// `write_block` emits for a batch, closed with the zero guard, succeeds
/// and yields exactly the batch's posting lists, with every other code
/// empty.
pub proof fn lemma_block_parse_round_trip(tris: Seq<(u32, Vec<u32>)>)
    requires
        0 < tris.len() <= u32::MAX,
        forall|a: int, b: int| 0 <= a < b < tris.len() ==> tris[a].0 < tris[b].0,
        forall|i: int|
            0 <= i < tris.len() ==> (#[trigger] tris[i]).0 < MAX_TRI && strictly_sorted(
                tris[i].1@,
            ) && tris[i].1@.len() <= u32::MAX,
    ensures
        ({
            let words = spec_block_words(tris) + seq![0u32];
            let parsed = spec_parse_blocks(words, 0, spec_empty_table());
            &&& parsed is Some
            &&& forall|c: int|
                0 <= c < MAX_TRI ==> #[trigger] parsed.unwrap()[c] == (
                match spec_batch_lookup(tris, 0, c) {
                    Some(l) => l,
                    None => Seq::<u32>::empty(),
                })
        }),
{
    let words = spec_block_words(tris) + seq![0u32];
    let bw = spec_block_words(tris);
    assert(words.subrange(0, bw.len() as int) =~= bw);
    lemma_block_parse_step(words, 0, tris, spec_empty_table());
    let table2 = spec_insert_headers(
        words,
        4,
        tris.len() as int,
        4 + 2 * tris.len() as int,
        spec_empty_table(),
    );
    assert(words[bw.len() as int] == 0u32);
    assert(bw.len() + 1 == words.len());
    assert(spec_parse_blocks(words, bw.len() as int, table2) == Some(table2));
    assert(forall|c: int|
        0 <= c < MAX_TRI ==> #[trigger] spec_empty_table()[c] == Seq::<u32>::empty());
}

/// Records are scanned in ascending offsets: a later chunk starts
/// strictly past an earlier one.
proof fn lemma_chunk_pos_increase(
    pack: Seq<u8>,
    temp: Seq<u32>,
    chunks: Seq<TempFileChunk>,
    i: int,
    j: int,
)
    requires
        spec_flatten_ok(pack, temp, chunks),
        0 <= i < j < chunks.len(),
    ensures
        chunks[i].pos < chunks[j].pos,
    decreases j - i,
{
    if i + 1 == j {
        assert(frame_valid_at(pack, chunks[i].pos as int));
        crate::pack::lemma_align_props(crate::pack::frame_end_at(pack, chunks[i].pos as int));
        assert(chunks[j].pos == frame_next_at(pack, chunks[i].pos as int));
    } else {
        lemma_chunk_pos_increase(pack, temp, chunks, i, j - 1);
        lemma_chunk_pos_increase(pack, temp, chunks, j - 1, j);
    }
}

/// A posting list gathered over ascending document offsets ascends
/// strictly, and holds nothing but document offsets.
proof fn lemma_positions_sorted(temp: Seq<u32>, chunks: Seq<TempFileChunk>, t: u32)
    requires
        forall|i: int, j: int| 0 <= i < j < chunks.len() ==> chunks[i].pos < chunks[j].pos,
    ensures
        strictly_sorted(spec_positions_for(temp, chunks, t)),
        forall|m: int|
            0 <= m < spec_positions_for(temp, chunks, t).len() ==> exists|i: int|
                0 <= i < chunks.len() && #[trigger] spec_positions_for(temp, chunks, t)[m]
                    == chunks[i].pos,
    decreases chunks.len(),
{
    if chunks.len() > 0 {
        let prior = spec_positions_for(temp, chunks.drop_last(), t);
        lemma_positions_sorted(temp, chunks.drop_last(), t);
        let cur = spec_positions_for(temp, chunks, t);
        assert forall|m: int|
            0 <= m < prior.len() implies exists|i: int|
            0 <= i < chunks.len() && #[trigger] prior[m] == chunks[i].pos by {
            let i = choose|i: int|
                0 <= i < chunks.drop_last().len() && #[trigger] prior[m] == chunks.drop_last()[
                i].pos;
            assert(prior[m] == chunks[i].pos);
        }
        if spec_chunk_seg(temp, chunks, chunks.len() - 1).contains(t) {
            assert(cur == prior.push(chunks[chunks.len() - 1].pos));
            assert forall|a: int, b: int| 0 <= a < b < cur.len() implies cur[a] < cur[b] by {
                if b < cur.len() - 1 {
                    assert(prior[a] < prior[b]);
                } else {
                    assert(cur[a] == prior[a]);
                    let i = choose|i: int|
                        0 <= i < chunks.len() && #[trigger] prior[a] == chunks[i].pos;
                    if i < chunks.len() - 1 {
                        assert(chunks[i].pos < chunks[chunks.len() - 1].pos);
                    }
                }
            }
        }
    }
}

} // verus!
