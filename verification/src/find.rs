//! The index reader: posting-list intersection and verified search.
//!
//! An index file is a memory-mapped array of `u32` words holding
//! self-describing blocks; parsing one builds a dense table from trigram
//! code to that file's posting list of local document offsets.  A search
//! intersects the posting lists of the query's trigrams by k-way merge and
//! then re-reads every candidate record from the pack file, confirming the
//! literal substring before reporting the document.

use vstd::prelude::*;
use vstd::string::StringSliceAdditionalSpecFns;

use crate::compress::{lz4_decompress, lz4_unpacked};
use crate::grep::{match_at, reader_contains};
use crate::pack::{frame_payload_at, frame_valid_at, read_record};
use crate::tri::{trigrams_full, MAX_TRI};
use crate::Error;

verus! {

/// A sequence that ascends strictly.
pub open spec fn strictly_sorted(s: Seq<u32>) -> bool {
    forall|i: int, j: int| 0 <= i < j < s.len() ==> s[i] < s[j]
}

/// The elements still ahead of the cursor in list `s`.
pub open spec fn spec_rest(slices: Seq<Vec<u32>>, idx: Seq<usize>, s: int) -> Seq<u32> {
    slices[s]@.subrange(idx[s] as int, slices[s]@.len() as int)
}

/// How many elements are left ahead of the cursors, summed from list `s`
/// on.
pub open spec fn spec_rem_from(slices: Seq<Vec<u32>>, idx: Seq<usize>, s: int) -> int
    decreases slices.len() - s,
{
    if s < 0 || s >= slices.len() {
        0
    } else {
        (slices[s]@.len() - idx[s]) + spec_rem_from(slices, idx, s + 1)
    }
}

proof fn lemma_rem_update(slices: Seq<Vec<u32>>, idx: Seq<usize>, p: int, s: int)
    requires
        0 <= s,
        idx.len() == slices.len(),
        0 <= p < slices.len(),
        idx[p] < slices[p]@.len(),
        idx[p] + 1 <= usize::MAX,
    ensures
        spec_rem_from(slices, idx.update(p, (idx[p] + 1) as usize), s) == spec_rem_from(
            slices,
            idx,
            s,
        ) - (if s <= p {
            1int
        } else {
            0int
        }),
    decreases slices.len() - s,
{
    let upd = idx.update(p, (idx[p] + 1) as usize);
    if s < 0 || s >= slices.len() {
    } else {
        lemma_rem_update(slices, idx, p, s + 1);
        if s == p {
            assert(upd[s] == idx[s] + 1);
        } else {
            assert(upd[s] == idx[s]);
        }
    }
}

proof fn lemma_rem_bounds(slices: Seq<Vec<u32>>, idx: Seq<usize>, s: int)
    requires
        0 <= s,
        idx.len() == slices.len(),
        forall|q: int| 0 <= q < slices.len() ==> #[trigger] idx[q] <= slices[q]@.len(),
    ensures
        spec_rem_from(slices, idx, s) >= 0,
        forall|p: int|
            s <= p < slices.len() ==> spec_rem_from(slices, idx, s) >= slices[p]@.len() - #[trigger] idx[p],
    decreases slices.len() - s,
{
    if s < 0 || s >= slices.len() {
    } else {
        lemma_rem_bounds(slices, idx, s + 1);
        assert(slices[s]@.len() - idx[s] >= 0);
    }
}

/// Every list of the family holds `x`.
pub open spec fn spec_in_all(lists: Seq<Seq<u32>>, x: u32) -> bool {
    forall|s: int| 0 <= s < lists.len() ==> (#[trigger] lists[s]).contains(x)
}

/// The members of the first list's prefix of length `n` that every list
/// of the family holds, in the first list's order.
pub open spec fn spec_inter_upto(lists: Seq<Seq<u32>>, n: int) -> Seq<u32>
    decreases n,
{
    if n <= 0 || lists.len() == 0 {
        Seq::empty()
    } else {
        spec_inter_upto(lists, n - 1) + (if spec_in_all(lists, lists[0][n - 1]) {
            seq![lists[0][n - 1]]
        } else {
            Seq::empty()
        })
    }
}

/// The merge intersection of a family of lists: its common members in
/// the first list's order, and empty for an empty family.
pub open spec fn spec_inter_seq(lists: Seq<Seq<u32>>) -> Seq<u32> {
    if lists.len() == 0 {
        Seq::empty()
    } else {
        spec_inter_upto(lists, lists[0].len() as int)
    }
}

/// For a sorted first list, the intersection prefix is sorted and holds
/// exactly the common members found in that prefix.
proof fn lemma_inter_upto_props(lists: Seq<Seq<u32>>, n: int)
    requires
        lists.len() > 0,
        n <= lists[0].len(),
        strictly_sorted(lists[0]),
    ensures
        strictly_sorted(spec_inter_upto(lists, n)),
        forall|k: int|
            0 <= k < spec_inter_upto(lists, n).len() ==> exists|i: int|
                0 <= i < n && lists[0][i] == #[trigger] spec_inter_upto(lists, n)[k],
        forall|x: u32|
            #[trigger] spec_inter_upto(lists, n).contains(x) <==> ((exists|i: int|
                0 <= i < n && lists[0][i] == x) && spec_in_all(lists, x)),
    decreases n,
{
    if n > 0 {
        lemma_inter_upto_props(lists, n - 1);
        let prev = spec_inter_upto(lists, n - 1);
        let cur = spec_inter_upto(lists, n);
        assert forall|a: int, b: int| 0 <= a < b < cur.len() implies cur[a] < cur[b] by {
            if b < prev.len() {
                assert(cur[a] == prev[a] && cur[b] == prev[b]);
            } else {
                assert(cur[a] == prev[a]);
                assert(cur[b] == lists[0][n - 1]);
                let i = choose|i: int| 0 <= i < n - 1 && lists[0][i] == prev[a];
                assert(lists[0][i] < lists[0][n - 1]);
            }
        }
        assert forall|x: u32|
            cur.contains(x) <==> ((exists|i: int| 0 <= i < n && lists[0][i] == x)
                && spec_in_all(lists, x)) by {
            if cur.contains(x) {
                let k = choose|k: int| 0 <= k < cur.len() && cur[k] == x;
                if k < prev.len() {
                    assert(prev[k] == x);
                    assert(prev.contains(x));
                } else {
                    assert(x == lists[0][n - 1]);
                }
            }
            if (exists|i: int| 0 <= i < n && lists[0][i] == x) && spec_in_all(lists, x) {
                let i = choose|i: int| 0 <= i < n && lists[0][i] == x;
                if i < n - 1 {
                    assert(prev.contains(x));
                    let k = choose|k: int| 0 <= k < prev.len() && prev[k] == x;
                    assert(cur[k] == x);
                } else {
                    assert(cur[cur.len() - 1] == x);
                }
            }
        }
    }
}

/// Merge-intersection of the posting lists: exactly the common members
/// of all the lists, in ascending order; empty when there are no lists.
pub fn find_intersection(slices: &Vec<Vec<u32>>) -> (r: Vec<u32>)
    requires
        forall|s: int| 0 <= s < slices@.len() ==> strictly_sorted(#[trigger] slices@[s]@),
    ensures
        r@ == spec_inter_seq(slices@.map_values(|v: Vec<u32>| v@)),
        strictly_sorted(r@),
        forall|x: u32|
            r@.contains(x) <==> (slices@.len() > 0 && forall|s: int|
                0 <= s < slices@.len() ==> (#[trigger] slices@[s]@).contains(x)),
{
    let r = intersection_walk(slices);
    proof {
        let lv = slices@.map_values(|v: Vec<u32>| v@);
        assert(lv.len() == slices@.len());
        if slices@.len() > 0 {
            assert(forall|s: int| 0 <= s < lv.len() ==> #[trigger] lv[s] == slices@[s]@);
            assert(strictly_sorted(lv[0]));
            lemma_inter_upto_props(lv, lv[0].len() as int);
            assert(spec_inter_seq(lv) == spec_inter_upto(lv, lv[0].len() as int));
            assert forall|x: u32|
                r@.contains(x) <==> spec_inter_seq(lv).contains(x) by {
                if r@.contains(x) {
                    assert forall|s: int|
                        0 <= s < lv.len() implies (#[trigger] lv[s]).contains(x) by {
                        assert(slices@[s]@.contains(x));
                    }
                    assert(spec_in_all(lv, x));
                    assert(lv[0].contains(x));
                    let i = choose|i: int| 0 <= i < lv[0].len() && lv[0][i] == x;
                    assert(spec_inter_seq(lv).contains(x));
                }
                if spec_inter_seq(lv).contains(x) {
                    assert(spec_in_all(lv, x));
                    assert forall|s: int|
                        0 <= s < slices@.len() implies (#[trigger] slices@[s]@).contains(x) by {
                        assert(lv[s].contains(x));
                        assert(lv[s] == slices@[s]@);
                    }
                }
            }
            crate::tri::lemma_sorted_unique(r@, spec_inter_seq(lv));
        } else {
            assert(r@.len() == 0) by {
                if r@.len() > 0 {
                    assert(r@.contains(r@[0]));
                }
            }
            assert(r@ =~= spec_inter_seq(lv));
        }
    }
    r
}

/// The walk itself: repeatedly finds the maximum current head, advances
/// every list below it, and records the head once no list moved.
/// Terminates as soon as any list is exhausted.
fn intersection_walk(slices: &Vec<Vec<u32>>) -> (r: Vec<u32>)
    requires
        forall|s: int| 0 <= s < slices@.len() ==> strictly_sorted(#[trigger] slices@[s]@),
    ensures
        strictly_sorted(r@),
        forall|x: u32|
            r@.contains(x) <==> (slices@.len() > 0 && forall|s: int|
                0 <= s < slices@.len() ==> (#[trigger] slices@[s]@).contains(x)),
{
    let nlists: usize = slices.len();
    let mut out: Vec<u32> = Vec::new();
    if nlists == 0 {
        return out;
    }
    let mut idx: Vec<usize> = Vec::new();
    let mut z: usize = 0;
    while z < nlists
        invariant
            z <= nlists,
            idx@.len() == z,
            forall|q: int| 0 <= q < z ==> #[trigger] idx@[q] == 0,
        decreases nlists - z,
    {
        idx.push(0);
        z = z + 1;
    }
    proof {
        assert(forall|s: int|
            0 <= s < nlists ==> spec_rest(slices@, idx@, s) =~= (#[trigger] slices@[s]@));
    }

    loop
        invariant
            nlists == slices@.len(),
            nlists >= 1,
            idx@.len() == nlists,
            forall|q: int| 0 <= q < nlists ==> #[trigger] idx@[q] <= slices@[q]@.len(),
            forall|s: int| 0 <= s < nlists ==> strictly_sorted(#[trigger] slices@[s]@),
            strictly_sorted(out@),
            forall|i: int, s: int|
                0 <= i < out@.len() && 0 <= s < nlists ==> (#[trigger] slices@[s]@).contains(
                    #[trigger] out@[i],
                ),
            forall|i: int, s: int|
                0 <= i < out@.len() && 0 <= s < nlists && idx@[s] < slices@[s]@.len()
                    ==> #[trigger] out@[i] < #[trigger] slices@[s]@[idx@[s] as int],
            forall|x: u32|
                (forall|s: int| 0 <= s < nlists ==> (#[trigger] slices@[s]@).contains(x))
                    && !out@.contains(x) ==> forall|s: int|
                    0 <= s < nlists ==> spec_rest(slices@, idx@, s).contains(x),
        decreases spec_rem_from(slices@, idx@, 0),
    {
        let ghost idx_entry = idx@;

        // find the largest head; an exhausted list ends the walk
        let mut max: u32 = 0;
        let ghost mut witness: int = 0;
        let mut s: usize = 0;
        while s < nlists
            invariant
                nlists == slices@.len(),
                nlists >= 1,
                idx@.len() == nlists,
                s <= nlists,
                forall|q: int| 0 <= q < nlists ==> #[trigger] idx@[q] <= slices@[q]@.len(),
                forall|q: int| 0 <= q < nlists ==> strictly_sorted(#[trigger] slices@[q]@),
                forall|q: int| 0 <= q < s ==> #[trigger] idx@[q] < slices@[q]@.len(),
                s > 0 ==> 0 <= witness < s && idx@[witness] < slices@[witness]@.len()
                    && slices@[witness]@[idx@[witness] as int] == max,
                forall|q: int| 0 <= q < s ==> max >= #[trigger] slices@[q]@[idx@[q] as int],
                strictly_sorted(out@),
                forall|i: int, q: int|
                    0 <= i < out@.len() && 0 <= q < nlists ==> (#[trigger] slices@[q]@).contains(
                        #[trigger] out@[i],
                    ),
                forall|i: int, q: int|
                    0 <= i < out@.len() && 0 <= q < nlists && idx@[q] < slices@[q]@.len()
                        ==> #[trigger] out@[i] < #[trigger] slices@[q]@[idx@[q] as int],
                forall|x: u32|
                    (forall|q: int| 0 <= q < nlists ==> (#[trigger] slices@[q]@).contains(x))
                        && !out@.contains(x) ==> forall|q: int|
                        0 <= q < nlists ==> spec_rest(slices@, idx@, q).contains(x),
            decreases nlists - s,
        {
            if idx[s] >= slices[s].len() {
                proof {
                    assert forall|x: u32|
                        out@.contains(x) <==> (slices@.len() > 0 && forall|q: int|
                            0 <= q < slices@.len() ==> (#[trigger] slices@[q]@).contains(
                                x,
                            )) by {
                        if !out@.contains(x) && (forall|q: int|
                            0 <= q < slices@.len() ==> (#[trigger] slices@[q]@).contains(x)) {
                            assert(spec_rest(slices@, idx@, s as int).contains(x));
                            assert(spec_rest(slices@, idx@, s as int).len() == 0);
                        }
                    }
                }
                return out;
            }
            let head: u32 = slices[s][idx[s]];
            if s == 0 || head > max {
                max = head;
                proof {
                    witness = s as int;
                }
            }
            s = s + 1;
        }

        let ghost idx_after_max = idx@;

        // advance every list whose head is below the maximum
        let mut advanced: bool = false;
        let mut t: usize = 0;
        while t < nlists
            invariant
                nlists == slices@.len(),
                nlists >= 1,
                idx@.len() == nlists,
                t <= nlists,
                forall|q: int| 0 <= q < nlists ==> #[trigger] idx@[q] < slices@[q]@.len(),
                forall|q: int| 0 <= q < nlists ==> strictly_sorted(#[trigger] slices@[q]@),
                0 <= witness < nlists,
                idx@[witness] == idx_after_max[witness],
                idx@[witness] < slices@[witness]@.len(),
                slices@[witness]@[idx@[witness] as int] == max,
                forall|q: int| 0 <= q < t ==> max <= #[trigger] slices@[q]@[idx@[q] as int],
                !advanced ==> idx@ == idx_after_max,
                advanced ==> spec_rem_from(slices@, idx@, 0) < spec_rem_from(
                    slices@,
                    idx_entry,
                    0,
                ),
                idx_entry.len() == nlists,
                spec_rem_from(slices@, idx@, 0) <= spec_rem_from(slices@, idx_entry, 0),
                forall|q: int| 0 <= q < nlists ==> max >= #[trigger] slices@[q]@[
                    idx_after_max[q] as int],
                forall|q: int| 0 <= q < nlists ==> idx_after_max[q] < slices@[q]@.len(),
                strictly_sorted(out@),
                forall|i: int, q: int|
                    0 <= i < out@.len() && 0 <= q < nlists ==> (#[trigger] slices@[q]@).contains(
                        #[trigger] out@[i],
                    ),
                forall|i: int, q: int|
                    0 <= i < out@.len() && 0 <= q < nlists && idx@[q] < slices@[q]@.len()
                        ==> #[trigger] out@[i] < #[trigger] slices@[q]@[idx@[q] as int],
                forall|x: u32|
                    (forall|q: int| 0 <= q < nlists ==> (#[trigger] slices@[q]@).contains(x))
                        && !out@.contains(x) ==> forall|q: int|
                        0 <= q < nlists ==> spec_rest(slices@, idx@, q).contains(x),
            decreases nlists - t,
        {
            while slices[t][idx[t]] < max
                invariant
                    nlists == slices@.len(),
                    nlists >= 1,
                    idx@.len() == nlists,
                    t < nlists,
                    forall|q: int| 0 <= q < nlists ==> #[trigger] idx@[q] < slices@[q]@.len(),
                    forall|q: int| 0 <= q < nlists ==> strictly_sorted(#[trigger] slices@[q]@),
                    0 <= witness < nlists,
                    idx@[witness] == idx_after_max[witness],
                    slices@[witness]@[idx@[witness] as int] == max,
                    witness != t || slices@[t as int]@[idx@[t as int] as int] >= max,
                    !advanced ==> idx@ == idx_after_max,
                    advanced ==> spec_rem_from(slices@, idx@, 0) < spec_rem_from(
                        slices@,
                        idx_entry,
                        0,
                    ),
                    idx_entry.len() == nlists,
                    spec_rem_from(slices@, idx@, 0) <= spec_rem_from(slices@, idx_entry, 0),
                    forall|q: int| 0 <= q < t ==> max <= #[trigger] slices@[q]@[idx@[q] as int],
                    strictly_sorted(out@),
                    forall|i: int, q: int|
                        0 <= i < out@.len() && 0 <= q < nlists ==> (
                        #[trigger] slices@[q]@).contains(#[trigger] out@[i]),
                    forall|i: int, q: int|
                        0 <= i < out@.len() && 0 <= q < nlists && idx@[q] < slices@[q]@.len()
                            ==> #[trigger] out@[i] < #[trigger] slices@[q]@[idx@[q] as int],
                    forall|x: u32|
                        (forall|q: int| 0 <= q < nlists ==> (#[trigger] slices@[q]@).contains(x))
                            && !out@.contains(x) ==> forall|q: int|
                            0 <= q < nlists ==> spec_rest(slices@, idx@, q).contains(x),
                decreases slices@[t as int]@.len() - idx@[t as int],
            {
                let ghost idx0 = idx@;
                let l: usize = slices[t].len();
                let cur: usize = idx[t];
                proof {
                    // the head being skipped is below max, so it cannot be a
                    // common member that the walk still owes
                    lemma_rem_update(slices@, idx@, t as int, 0);
                }
                if cur + 1 >= l {
                    // this list is exhausted: every common member not yet
                    // recorded would have to sit in its empty remainder
                    idx.set(t, cur + 1);
                    proof {
                        assert forall|x: u32|
                            out@.contains(x) <==> (slices@.len() > 0 && forall|q: int|
                                0 <= q < slices@.len() ==> (#[trigger] slices@[q]@).contains(
                                    x,
                                )) by {
                            if !out@.contains(x) && (forall|q: int|
                                0 <= q < slices@.len() ==> (#[trigger] slices@[q]@).contains(x)) {
                                assert(spec_rest(slices@, idx0, t as int).contains(x));
                                let pos = choose|pos: int|
                                    0 <= pos < spec_rest(slices@, idx0, t as int).len()
                                        && spec_rest(slices@, idx0, t as int)[pos] == x;
                                assert(slices@[t as int]@[idx0[t as int] + pos] == x);
                                assert(spec_rest(slices@, idx0, witness).contains(x));
                                let wpos = choose|wpos: int|
                                    0 <= wpos < spec_rest(slices@, idx0, witness).len()
                                        && spec_rest(slices@, idx0, witness)[wpos] == x;
                                assert(slices@[witness]@[idx0[witness] + wpos] == x);
                                assert(x >= max);
                                assert(pos == 0);
                            }
                        }
                    }
                    return out;
                }
                idx.set(t, cur + 1);
                advanced = true;
                proof {
                    let tt = t as int;
                    assert forall|x: u32|
                        (forall|q: int| 0 <= q < nlists ==> (#[trigger] slices@[q]@).contains(x))
                            && !out@.contains(x) implies forall|q: int|
                        0 <= q < nlists ==> spec_rest(slices@, idx@, q).contains(x) by {
                        assert forall|q: int|
                            0 <= q < nlists implies spec_rest(slices@, idx@, q).contains(x) by {
                            assert(spec_rest(slices@, idx0, q).contains(x));
                            if q == tt {
                                assert(spec_rest(slices@, idx0, witness).contains(x));
                                let wpos = choose|wpos: int|
                                    0 <= wpos < spec_rest(slices@, idx0, witness).len()
                                        && spec_rest(slices@, idx0, witness)[wpos] == x;
                                assert(slices@[witness]@[idx0[witness] + wpos] == x);
                                assert(x >= max);
                                let pos = choose|pos: int|
                                    0 <= pos < spec_rest(slices@, idx0, q).len() && spec_rest(
                                        slices@,
                                        idx0,
                                        q,
                                    )[pos] == x;
                                assert(slices@[q]@[idx0[q] + pos] == x);
                                assert(pos != 0);
                                assert(spec_rest(slices@, idx@, q)[pos - 1] == x);
                            } else {
                                let pos = choose|pos: int|
                                    0 <= pos < spec_rest(slices@, idx0, q).len() && spec_rest(
                                        slices@,
                                        idx0,
                                        q,
                                    )[pos] == x;
                                assert(spec_rest(slices@, idx@, q)[pos] == x);
                            }
                        }
                    }
                }
            }
            t = t + 1;
        }

        if !advanced {
            // nothing moved: every head equals the maximum, which is a
            // common member
            proof {
                assert(idx@ == idx_after_max);
                assert forall|q: int|
                    0 <= q < nlists implies #[trigger] slices@[q]@[idx@[q] as int] == max by {
                    assert(max <= slices@[q]@[idx@[q] as int]);
                    assert(max >= slices@[q]@[idx_after_max[q] as int]);
                }
            }
            let ghost out0 = out@;
            let ghost idx0 = idx@;
            out.push(max);
            let mut u: usize = 0;
            while u < nlists
                invariant
                    nlists == slices@.len(),
                    nlists >= 1,
                    idx@.len() == nlists,
                    u <= nlists,
                    forall|q: int| 0 <= q < nlists ==> #[trigger] idx@[q] <= slices@[q]@.len(),
                    forall|q: int| 0 <= q < nlists ==> strictly_sorted(#[trigger] slices@[q]@),
                    forall|q: int| 0 <= q < nlists ==> #[trigger] idx0[q] < slices@[q]@.len(),
                    forall|q: int| 0 <= q < nlists ==> slices@[q]@[#[trigger] idx0[q] as int]
                        == max,
                    forall|q: int| u <= q < nlists ==> #[trigger] idx@[q] == idx0[q],
                    forall|q: int| 0 <= q < u ==> #[trigger] idx@[q] == idx0[q] + 1,
                    out@ == out0.push(max),
                    strictly_sorted(out0),
                    forall|i: int, q: int|
                        0 <= i < out0.len() && 0 <= q < nlists ==> (
                        #[trigger] slices@[q]@).contains(#[trigger] out0[i]),
                    forall|i: int, q: int|
                        0 <= i < out0.len() && 0 <= q < nlists ==> #[trigger] out0[i]
                            < #[trigger] slices@[q]@[idx0[q] as int],
                    forall|x: u32|
                        (forall|q: int| 0 <= q < nlists ==> (#[trigger] slices@[q]@).contains(x))
                            && !out0.contains(x) ==> forall|q: int|
                            0 <= q < nlists ==> spec_rest(slices@, idx0, q).contains(x),
                    spec_rem_from(slices@, idx@, 0) == spec_rem_from(slices@, idx0, 0) - u,
                    spec_rem_from(slices@, idx0, 0) <= spec_rem_from(slices@, idx_entry, 0),
                decreases nlists - u,
            {
                let l: usize = slices[u].len();
                let cur: usize = idx[u];
                proof {
                    lemma_rem_update(slices@, idx@, u as int, 0);
                }
                idx.set(u, cur + 1);
                u = u + 1;
                proof {
                    assert(spec_rem_from(slices@, idx@, 0) == spec_rem_from(slices@, idx0, 0)
                        - u);
                }
            }
            proof {
                lemma_rem_bounds(slices@, idx@, 0);
                // the recorded head is a common member and larger than all
                // earlier entries
                assert(strictly_sorted(out@)) by {
                    assert(forall|i: int|
                        0 <= i < out0.len() ==> #[trigger] out0[i] < slices@[0]@[idx0[0] as int]);
                }
                assert forall|i: int, q: int|
                    0 <= i < out@.len() && 0 <= q < nlists implies (
                #[trigger] slices@[q]@).contains(#[trigger] out@[i]) by {
                    if i == out@.len() - 1 {
                        assert(slices@[q]@[idx0[q] as int] == max);
                    }
                }
                assert forall|i: int, q: int|
                    0 <= i < out@.len() && 0 <= q < nlists && idx@[q] < slices@[q]@.len() implies
                    #[trigger] out@[i] < #[trigger] slices@[q]@[idx@[q] as int] by {
                    assert(idx@[q] == idx0[q] + 1);
                    assert(slices@[q]@[idx0[q] as int] < slices@[q]@[idx@[q] as int]);
                    if i == out@.len() - 1 {
                        assert(out@[i] == max);
                    } else {
                        assert(out@[i] < max);
                    }
                }
                assert forall|x: u32|
                    (forall|q: int| 0 <= q < nlists ==> (#[trigger] slices@[q]@).contains(x))
                        && !out@.contains(x) implies forall|q: int|
                    0 <= q < nlists ==> spec_rest(slices@, idx@, q).contains(x) by {
                    assert(!out0.contains(x)) by {
                        assert(out0 == out@.drop_last());
                        if out0.contains(x) {
                            let i = choose|i: int| 0 <= i < out0.len() && out0[i] == x;
                            assert(out@[i] == x);
                        }
                    }
                    assert forall|q: int|
                        0 <= q < nlists implies spec_rest(slices@, idx@, q).contains(x) by {
                        assert(spec_rest(slices@, idx0, q).contains(x));
                        let pos = choose|pos: int|
                            0 <= pos < spec_rest(slices@, idx0, q).len() && spec_rest(
                                slices@,
                                idx0,
                                q,
                            )[pos] == x;
                        assert(slices@[q]@[idx0[q] + pos] == x);
                        assert(x != max) by {
                            assert(out@[out@.len() - 1] == max);
                        }
                        assert(pos != 0);
                        assert(spec_rest(slices@, idx@, q)[pos - 1] == x);
                    }
                }
            }
        }
        proof {
            lemma_rem_bounds(slices@, idx@, 0);
            if !advanced {
                assert(spec_rem_from(slices@, idx@, 0) <= spec_rem_from(slices@, idx_entry, 0)
                    - nlists);
            }
            assert(spec_rem_from(slices@, idx@, 0) < spec_rem_from(slices@, idx_entry, 0));
        }
    }
}

/// The block guard word that opens every index block.
pub const INDEX_GUARD: u32 = 0xD81F;

/// The table all trigram codes start from: one empty posting list each.
pub open spec fn spec_empty_table() -> Seq<Seq<u32>> {
    Seq::new(MAX_TRI as nat, |i: int| Seq::<u32>::empty())
}

/// The number of posting words announced by `count` headers starting at
/// `hdr`.
pub open spec fn spec_postings_total(words: Seq<u32>, hdr: int, count: int) -> nat
    decreases count,
{
    if count <= 0 {
        0
    } else {
        (words[hdr + 1] + spec_postings_total(words, hdr + 2, count - 1)) as nat
    }
}

/// The `count` headers starting at `hdr` are sound: every trigram code is
/// in range and every posting segment ascends strictly.
pub open spec fn spec_block_ok(words: Seq<u32>, hdr: int, count: int, data: int) -> bool
    decreases count,
{
    count <= 0 || (words[hdr] < MAX_TRI && strictly_sorted(
        words.subrange(data, data + words[hdr + 1]),
    ) && spec_block_ok(words, hdr + 2, count - 1, data + words[hdr + 1]))
}

/// The table after recording the posting segment of each of the `count`
/// headers starting at `hdr`, whose segments follow from `data` on.
pub open spec fn spec_insert_headers(
    words: Seq<u32>,
    hdr: int,
    count: int,
    data: int,
    table: Seq<Seq<u32>>,
) -> Seq<Seq<u32>>
    decreases count,
{
    if count <= 0 {
        table
    } else {
        spec_insert_headers(
            words,
            hdr + 2,
            count - 1,
            data + words[hdr + 1],
            table.update(words[hdr] as int, words.subrange(data, data + words[hdr + 1])),
        )
    }
}

/// Walks the blocks of an index file from `cur`, extending `table`: each
/// block is `[guard][0][0][header count]`, the headers, and the posting
/// segments in header order; a lone zero word ends the file.  Yields the
/// final table, or nothing if the format invariant breaks anywhere.
pub open spec fn spec_parse_blocks(words: Seq<u32>, cur: int, table: Seq<Seq<u32>>) -> Option<
    Seq<Seq<u32>>,
>
    decreases words.len() - cur,
{
    if cur < 0 || cur >= words.len() {
        None
    } else if words[cur] == 0 {
        if cur + 1 == words.len() {
            Some(table)
        } else {
            None
        }
    } else if words[cur] != INDEX_GUARD {
        None
    } else if cur + 4 > words.len() {
        None
    } else if words[cur + 1] != 0 || words[cur + 2] != 0 {
        None
    } else {
        let count = words[cur + 3] as int;
        let hdr = cur + 4;
        let data = hdr + 2 * count;
        if data > words.len() {
            None
        } else if data + spec_postings_total(words, hdr, count) > words.len() {
            None
        } else if !spec_block_ok(words, hdr, count, data) {
            None
        } else {
            spec_parse_blocks(
                words,
                data + spec_postings_total(words, hdr, count),
                spec_insert_headers(words, hdr, count, data, table),
            )
        }
    }
}

/// One parsed index file: the dense posting table, and the addendum that
/// turns its local document offsets into global positions.
pub struct IndexFile {
    /// Added to every local offset of this file to form a position.
    pub addendum: u64,
    /// The posting list of every trigram code, empty where the file holds
    /// none.
    pub by_tri: Vec<Vec<u32>>,
}

impl IndexFile {
    /// The dense table covers every code, the posting lists ascend
    /// strictly, and the addendum leaves room for any local offset.
    pub open spec fn wf(self) -> bool {
        &&& self.by_tri@.len() == MAX_TRI
        &&& self.addendum + u32::MAX <= u64::MAX
        &&& forall|c: int| 0 <= c < MAX_TRI ==> strictly_sorted((#[trigger] self.by_tri@[c])@)
    }
}

/// Whether `v` ascends strictly.
fn is_strictly_sorted(v: &Vec<u32>) -> (r: bool)
    ensures
        r == strictly_sorted(v@),
{
    let mut i: usize = 1;
    while i < v.len()
        invariant
            1 <= i,
            forall|a: int, b: int| 0 <= a < b < i && b < v@.len() ==> v@[a] < v@[b],
        decreases v@.len() - i,
    {
        if v[i - 1] >= v[i] {
            return false;
        }
        i = i + 1;
    }
    true
}

/// Copies the words of `[from, to)` into a list of their own.
fn copy_range(v: &Vec<u32>, from: usize, to: usize) -> (r: Vec<u32>)
    requires
        from <= to <= v@.len(),
    ensures
        r@ == v@.subrange(from as int, to as int),
{
    let mut r: Vec<u32> = Vec::new();
    let mut i: usize = from;
    while i < to
        invariant
            from <= i <= to <= v@.len(),
            r@ == v@.subrange(from as int, i as int),
        decreases to - i,
    {
        r.push(v[i]);
        i = i + 1;
        proof {
            assert(r@ =~= v@.subrange(from as int, i as int));
        }
    }
    r
}

/// Parses one index file, given as its array of `u32` words, into the
/// dense posting table, exactly as the block walk describes; any breach
/// of the block format is corruption.
pub fn parse_index_words(words: &Vec<u32>, addendum: u64) -> (r: Result<IndexFile, Error>)
    requires
        addendum + u32::MAX <= u64::MAX,
    ensures
        spec_parse_blocks(words@, 0, spec_empty_table()) is Some ==> (r matches Ok(f) && f.wf()
            && f.addendum == addendum && forall|c: int|
            0 <= c < MAX_TRI ==> (#[trigger] f.by_tri@[c])@ == spec_parse_blocks(
                words@,
                0,
                spec_empty_table(),
            ).unwrap()[c]),
        spec_parse_blocks(words@, 0, spec_empty_table()) is None ==> r == Err::<IndexFile, Error>(
            Error::InvalidState,
        ),
{
    let n: usize = words.len();
    let mut by_tri: Vec<Vec<u32>> = Vec::new();
    let mut z: usize = 0;
    while z < MAX_TRI as usize
        invariant
            z <= MAX_TRI,
            by_tri@.len() == z,
            forall|c: int| 0 <= c < z ==> (#[trigger] by_tri@[c])@ == Seq::<u32>::empty(),
        decreases MAX_TRI - z,
    {
        by_tri.push(Vec::new());
        z = z + 1;
    }
    let ghost mut table: Seq<Seq<u32>> = spec_empty_table();

    let mut cur: usize = 0;
    loop
        invariant
            addendum + u32::MAX <= u64::MAX,
            n == words@.len(),
            cur <= n,
            table.len() == MAX_TRI,
            by_tri@.len() == MAX_TRI,
            forall|c: int| 0 <= c < MAX_TRI ==> (#[trigger] by_tri@[c])@ == table[c],
            forall|c: int| 0 <= c < MAX_TRI ==> strictly_sorted((#[trigger] by_tri@[c])@),
            spec_parse_blocks(words@, 0, spec_empty_table()) == spec_parse_blocks(
                words@,
                cur as int,
                table,
            ),
        decreases n - cur,
    {
        if cur >= n {
            return Err(Error::InvalidState);
        }
        let w: u32 = words[cur];
        if w == 0 {
            if cur + 1 == n {
                proof {
                    assert(spec_parse_blocks(words@, cur as int, table) == Some(table));
                }
                return Ok(IndexFile { addendum, by_tri });
            }
            return Err(Error::InvalidState);
        }
        if w != INDEX_GUARD {
            return Err(Error::InvalidState);
        }
        if n - cur < 4 {
            return Err(Error::InvalidState);
        }
        if words[cur + 1] != 0 || words[cur + 2] != 0 {
            return Err(Error::InvalidState);
        }
        let count: usize = words[cur + 3] as usize;
        let hdr: usize = cur + 4;
        if count > (n - hdr) / 2 {
            proof {
                assert(hdr + 2 * count > n);
            }
            return Err(Error::InvalidState);
        }
        let data: usize = hdr + 2 * count;

        // sum the announced posting lengths, refusing a block that runs
        // past the end of the file
        let avail: u64 = (n - data) as u64;
        let mut total: u64 = 0;
        let mut k: usize = 0;
        while k < count
            invariant
                n == words@.len(),
                hdr + 2 * count <= n,
                data == hdr + 2 * count,
                k <= count,
                avail == n - data,
                total <= avail,
                spec_postings_total(words@, hdr as int, count as int) == total
                    + spec_postings_total(
                    words@,
                    hdr as int + 2 * (k as int),
                    count as int - k as int,
                ),
                cur < n,
                cur as int + 4 == hdr,
                words@[cur as int] == INDEX_GUARD,
                words@[cur as int + 1] == 0,
                words@[cur as int + 2] == 0,
                words@[cur as int + 3] == count,
                spec_parse_blocks(words@, 0, spec_empty_table()) == spec_parse_blocks(
                    words@,
                    cur as int,
                    table,
                ),
            decreases count - k,
        {
            let len64: u64 = words[hdr + 2 * k + 1] as u64;
            if len64 > avail - total {
                proof {
                    assert(spec_postings_total(
                        words@,
                        hdr as int + 2 * (k as int),
                        count as int - k as int,
                    ) >= words@[hdr as int + 2 * (k as int) + 1]);
                }
                return Err(Error::InvalidState);
            }
            total = total + len64;
            k = k + 1;
        }
        let total_us: usize = total as usize;

        // record each header: bounds-check the code, extract the posting
        // segment, and require it to ascend
        let ghost table0 = table;
        let mut dcur: usize = data;
        let mut k2: usize = 0;
        while k2 < count
            invariant
                n == words@.len(),
                hdr + 2 * count <= n,
                data == hdr + 2 * count,
                data + total_us <= n,
                k2 <= count,
                data <= dcur,
                dcur - data + spec_postings_total(
                    words@,
                    hdr as int + 2 * (k2 as int),
                    count as int - k2 as int,
                ) == total_us,
                table.len() == MAX_TRI,
                by_tri@.len() == MAX_TRI,
                forall|c: int| 0 <= c < MAX_TRI ==> (#[trigger] by_tri@[c])@ == table[c],
                forall|c: int| 0 <= c < MAX_TRI ==> strictly_sorted((#[trigger] by_tri@[c])@),
                spec_insert_headers(
                    words@,
                    hdr as int,
                    count as int,
                    data as int,
                    table0,
                ) == spec_insert_headers(
                    words@,
                    hdr as int + 2 * (k2 as int),
                    count as int - k2 as int,
                    dcur as int,
                    table,
                ),
                spec_block_ok(words@, hdr as int, count as int, data as int) == spec_block_ok(
                    words@,
                    hdr as int + 2 * (k2 as int),
                    count as int - k2 as int,
                    dcur as int,
                ),
                spec_parse_blocks(words@, 0, spec_empty_table()) == spec_parse_blocks(
                    words@,
                    cur as int,
                    table0,
                ),
                spec_postings_total(words@, hdr as int, count as int) == total_us,
                cur as int + 4 == hdr,
                cur < n,
                words@[cur as int] == INDEX_GUARD,
                words@[cur as int + 1] == 0,
                words@[cur as int + 2] == 0,
                words@[cur as int + 3] == count,
            decreases count - k2,
        {
            let tri: u32 = words[hdr + 2 * k2];
            let plen: usize = words[hdr + 2 * k2 + 1] as usize;
            proof {
                assert(spec_postings_total(
                    words@,
                    hdr as int + 2 * (k2 as int),
                    count as int - k2 as int,
                ) == words@[hdr as int + 2 * (k2 as int) + 1] + spec_postings_total(
                    words@,
                    hdr as int + 2 * (k2 as int) + 2,
                    count as int - k2 as int - 1,
                ));
            }
            if tri >= MAX_TRI {
                return Err(Error::InvalidState);
            }
            let seg = copy_range(words, dcur, dcur + plen);
            if !is_strictly_sorted(&seg) {
                return Err(Error::InvalidState);
            }
            by_tri.set(tri as usize, seg);
            proof {
                table = table.update(
                    tri as int,
                    words@.subrange(dcur as int, dcur as int + plen as int),
                );
            }
            dcur = dcur + plen;
            k2 = k2 + 1;
        }

        cur = data + total_us;
    }
}

/// The memory-resident index: one parsed file per mapped index file.
pub struct Index {
    /// The parsed index files, in the order their packs are handed in.
    pub files: Vec<IndexFile>,
}

/// What a search reports: the verified document positions and how many
/// candidates were re-read and checked.
pub struct SearchResult {
    /// Global positions of documents confirmed to contain the query.
    pub docs: Vec<u64>,
    /// How many candidate records were decompressed and checked.
    pub grepped: u64,
}

/// The positions for trigram `tri`, file by file: every local offset of
/// the code's posting list, shifted by that file's addendum.
pub open spec fn spec_docs_for_tri(files: Seq<IndexFile>, tri: int) -> Seq<u64>
    decreases files.len(),
{
    if files.len() == 0 {
        Seq::empty()
    } else {
        spec_docs_for_tri(files.drop_last(), tri) + files.last().by_tri@[tri]@.map_values(
            |x: u32| ((x as u64) + files.last().addendum) as u64,
        )
    }
}

/// Position `d` names the record at offset `local` of index file `f`'s
/// pack, and that record's decompressed payload contains `query`.
pub open spec fn spec_doc_verified_at(
    files: Seq<IndexFile>,
    packs: Seq<Vec<u8>>,
    query: Seq<u8>,
    d: u64,
    f: int,
    local: int,
) -> bool {
    &&& 0 <= f < files.len()
    &&& 0 <= local
    &&& d == local + files[f].addendum
    &&& frame_valid_at(packs[f]@, local)
    &&& lz4_unpacked(frame_payload_at(packs[f]@, local)) is Some
    &&& exists|j: int|
        match_at(query, lz4_unpacked(frame_payload_at(packs[f]@, local)).unwrap(), j)
}

/// Position `d` names a record in the pack of one of the index files
/// whose decompressed payload contains `query`.
pub open spec fn spec_doc_verified(
    files: Seq<IndexFile>,
    packs: Seq<Vec<u8>>,
    query: Seq<u8>,
    d: u64,
) -> bool {
    exists|f: int, local: int| spec_doc_verified_at(files, packs, query, d, f, local)
}

/// The candidate offsets of one index file for a query: the merge
/// intersection of the posting lists of the query's trigram codes.
pub open spec fn spec_candidates(file: IndexFile, q: Seq<u8>) -> Seq<u32> {
    spec_inter_seq(crate::tri::spec_tri_seq(q).map_values(|t: u32| file.by_tri@[t as int]@))
}

/// The record at `local` of the pack can be re-read: correctly framed,
/// with a payload that decompresses.
pub open spec fn spec_doc_readable(pack: Vec<u8>, local: int) -> bool {
    &&& frame_valid_at(pack@, local)
    &&& lz4_unpacked(frame_payload_at(pack@, local)) is Some
}

/// The record at `local` verifies for the query: readable, and its
/// decompressed payload contains the literal.
pub open spec fn spec_doc_hit(pack: Vec<u8>, q: Seq<u8>, local: int) -> bool {
    &&& spec_doc_readable(pack, local)
    &&& exists|j: int| match_at(q, lz4_unpacked(frame_payload_at(pack@, local)).unwrap(), j)
}

/// The verified positions among one file's first `n` candidates, in
/// candidate order.
pub open spec fn spec_file_hits(file: IndexFile, pack: Vec<u8>, q: Seq<u8>, n: int) -> Seq<u64>
    decreases n,
{
    if n <= 0 {
        Seq::empty()
    } else {
        spec_file_hits(file, pack, q, n - 1) + (if spec_doc_hit(
            pack,
            q,
            spec_candidates(file, q)[n - 1] as int,
        ) {
            seq![(spec_candidates(file, q)[n - 1] + file.addendum) as u64]
        } else {
            Seq::empty()
        })
    }
}

/// The verified positions of the first `f` files, file by file.
pub open spec fn spec_search_docs(
    files: Seq<IndexFile>,
    packs: Seq<Vec<u8>>,
    q: Seq<u8>,
    f: int,
) -> Seq<u64>
    decreases f,
{
    if f <= 0 {
        Seq::empty()
    } else {
        spec_search_docs(files, packs, q, f - 1) + spec_file_hits(
            files[f - 1],
            packs[f - 1],
            q,
            spec_candidates(files[f - 1], q).len() as int,
        )
    }
}

/// Every candidate record of every file can be re-read.
pub open spec fn spec_search_readable(
    files: Seq<IndexFile>,
    packs: Seq<Vec<u8>>,
    q: Seq<u8>,
) -> bool {
    forall|f: int, c: int|
        0 <= f < files.len() && 0 <= c < spec_candidates(files[f], q).len() ==> spec_doc_readable(
            packs[f],
            (#[trigger] spec_candidates(files[f], q)[c]) as int,
        )
}

/// How many candidates the first `f` files hold together.
pub open spec fn spec_cand_count(files: Seq<IndexFile>, q: Seq<u8>, f: int) -> int
    decreases f,
{
    if f <= 0 {
        0
    } else {
        spec_cand_count(files, q, f - 1) + spec_candidates(files[f - 1], q).len()
    }
}

proof fn lemma_cand_count_nonneg(files: Seq<IndexFile>, q: Seq<u8>, f: int)
    ensures
        spec_cand_count(files, q, f) >= 0,
    decreases f,
{
    if f > 0 {
        lemma_cand_count_nonneg(files, q, f - 1);
    }
}

impl Index {
    /// Every file's table is sound.
    pub open spec fn wf(self) -> bool {
        forall|f: int| 0 <= f < self.files@.len() ==> (#[trigger] self.files@[f]).wf()
    }

    /// Assembles the index from its parsed files.
    pub fn open(files: Vec<IndexFile>) -> (r: Index)
        requires
            forall|f: int| 0 <= f < files@.len() ==> (#[trigger] files@[f]).wf(),
        ensures
            r.files@ == files@,
            r.wf(),
    {
        Index { files }
    }

    /// Every document position whose record holds trigram `tri`,
    /// concatenated across the index files.
    pub fn documents_for_tri(&self, tri: u32) -> (r: Vec<u64>)
        requires
            self.wf(),
            tri < MAX_TRI,
        ensures
            r@ == spec_docs_for_tri(self.files@, tri as int),
    {
        let mut all: Vec<u64> = Vec::new();
        let mut f: usize = 0;
        while f < self.files.len()
            invariant
                self.wf(),
                tri < MAX_TRI,
                f <= self.files@.len(),
                all@ == spec_docs_for_tri(self.files@.subrange(0, f as int), tri as int),
            decreases self.files@.len() - f,
        {
            let file = &self.files[f];
            let ghost prev = all@;
            let ghost mapped = file.by_tri@[tri as int]@.map_values(
                |x: u32| ((x as u64) + file.addendum) as u64,
            );
            let list = &file.by_tri[tri as usize];
            let mut k: usize = 0;
            while k < list.len()
                invariant
                    self.wf(),
                    0 <= f < self.files@.len(),
                    list == &self.files@[f as int].by_tri@[tri as int],
                    tri < MAX_TRI,
                    file == &self.files@[f as int],
                    k <= list@.len(),
                    mapped == file.by_tri@[tri as int]@.map_values(
                        |x: u32| ((x as u64) + file.addendum) as u64,
                    ),
                    all@ == prev + mapped.subrange(0, k as int),
                decreases list@.len() - k,
            {
                proof {
                    assert(self.files@[f as int].wf());
                }
                all.push(list[k] as u64 + file.addendum);
                k = k + 1;
                proof {
                    assert(all@ =~= prev + mapped.subrange(0, k as int));
                }
            }
            f = f + 1;
            proof {
                assert(mapped.subrange(0, mapped.len() as int) =~= mapped);
                assert(self.files@.subrange(0, f as int).drop_last() =~= self.files@.subrange(
                    0,
                    f as int - 1,
                ));
                assert(self.files@.subrange(0, f as int).last() == self.files@[f - 1]);
                assert(all@ =~= spec_docs_for_tri(self.files@.subrange(0, f as int), tri as int));
            }
        }
        proof {
            assert(self.files@.subrange(0, self.files@.len() as int) =~= self.files@);
        }
        all
    }

    /// Searches for the literal `search`: intersects the posting lists of
    /// its trigrams file by file, re-reads every candidate record from
    /// that file's pack image, and reports a position only once the
    /// decompressed payload is confirmed to contain the literal.  Any
    /// candidate whose record cannot be read back or decompressed is
    /// corruption and aborts the search.
    /// Searches for the literal `search`: intersects the posting lists of
    /// its trigrams file by file, re-reads every candidate record from
    /// that file's pack image, and reports exactly the positions whose
    /// decompressed payload contains the literal, in file order and
    /// candidate order, counting every candidate checked.  The search
    /// succeeds if and only if every candidate record frames and
    /// decompresses; anything less is corruption and aborts it.
    pub fn documents_for_search(&self, search: &str, packs: &Vec<Vec<u8>>) -> (r: Result<
        SearchResult,
        Error,
    >)
        requires
            self.wf(),
            packs@.len() == self.files@.len(),
            search.spec_bytes().len() < 16384,
        ensures
            r is Ok <==> spec_search_readable(self.files@, packs@, search.spec_bytes()),
            r matches Ok(sr) ==> ({
                let count = spec_cand_count(
                    self.files@,
                    search.spec_bytes(),
                    self.files@.len() as int,
                );
                &&& sr.docs@ == spec_search_docs(
                    self.files@,
                    packs@,
                    search.spec_bytes(),
                    self.files@.len() as int,
                )
                &&& sr.grepped == (if count > u64::MAX {
                    u64::MAX as int
                } else {
                    count
                })
            }),
            r matches Ok(sr) ==> (forall|i: int|
                0 <= i < sr.docs@.len() ==> spec_doc_verified(
                    self.files@,
                    packs@,
                    search.spec_bytes(),
                    #[trigger] sr.docs@[i],
                )),
            r matches Err(e) ==> e == Error::InvalidState || e == Error::Io,
    {
        let ghost qb: Seq<u8> = search.spec_bytes();
        let needle: Vec<u8> = vstd::slice::slice_to_vec(search.as_bytes());
        let target: Vec<u32> = trigrams_full(search.as_bytes());
        let mut docs: Vec<u64> = Vec::new();
        let mut grepped: u64 = 0;
        let mut f: usize = 0;
        while f < self.files.len()
            invariant
                self.wf(),
                packs@.len() == self.files@.len(),
                qb == search.spec_bytes(),
                needle@ == qb,
                needle@.len() < 16384,
                target@ == crate::tri::spec_tri_seq(qb),
                forall|t: int| 0 <= t < target@.len() ==> #[trigger] target@[t] < MAX_TRI,
                f <= self.files@.len(),
                docs@ == spec_search_docs(self.files@, packs@, qb, f as int),
                grepped as int == (if spec_cand_count(self.files@, qb, f as int) > u64::MAX {
                    u64::MAX as int
                } else {
                    spec_cand_count(self.files@, qb, f as int)
                }),
                forall|f2: int, c2: int|
                    0 <= f2 < f && 0 <= c2 < spec_candidates(self.files@[f2], qb).len()
                        ==> spec_doc_readable(
                        packs@[f2],
                        (#[trigger] spec_candidates(self.files@[f2], qb)[c2]) as int,
                    ),
                forall|i: int|
                    0 <= i < docs@.len() ==> spec_doc_verified(
                        self.files@,
                        packs@,
                        qb,
                        #[trigger] docs@[i],
                    ),
            decreases self.files@.len() - f,
        {
            let file = &self.files[f];
            let mut lists: Vec<Vec<u32>> = Vec::new();
            let mut t: usize = 0;
            while t < target.len()
                invariant
                    self.wf(),
                    0 <= f < self.files@.len(),
                    file == &self.files@[f as int],
                    forall|q: int| 0 <= q < target@.len() ==> #[trigger] target@[q] < MAX_TRI,
                    t <= target@.len(),
                    lists@.len() == t,
                    forall|ti: int|
                        0 <= ti < t ==> (#[trigger] lists@[ti])@ == file.by_tri@[target@[
                        ti] as int]@,
                    forall|q: int|
                        0 <= q < lists@.len() ==> strictly_sorted((#[trigger] lists@[q])@),
                decreases target@.len() - t,
            {
                proof {
                    assert(self.files@[f as int].wf());
                }
                let ghost lists0 = lists@;
                let src = &file.by_tri[target[t] as usize];
                let srclen: usize = src.len();
                let copied = copy_range(src, 0, srclen);
                proof {
                    assert(copied@ =~= src@);
                }
                lists.push(copied);
                t = t + 1;
                proof {
                    assert(forall|q: int| 0 <= q < lists0.len() ==> lists@[q] == lists0[q]);
                }
            }
            let this_file: Vec<u32> = find_intersection(&lists);
            proof {
                assert(lists@.map_values(|v: Vec<u32>| v@) =~= crate::tri::spec_tri_seq(
                    qb,
                ).map_values(|tt: u32| self.files@[f as int].by_tri@[tt as int]@));
                assert(this_file@ == spec_candidates(self.files@[f as int], qb));
            }
            let pack: &Vec<u8> = &packs[f];
            let mut c: usize = 0;
            while c < this_file.len()
                invariant
                    self.wf(),
                    packs@.len() == self.files@.len(),
                    0 <= f < self.files@.len(),
                    file == &self.files@[f as int],
                    pack == &packs@[f as int],
                    qb == search.spec_bytes(),
                    needle@ == qb,
                    needle@.len() < 16384,
                    this_file@ == spec_candidates(self.files@[f as int], qb),
                    c <= this_file@.len(),
                    docs@ == spec_search_docs(self.files@, packs@, qb, f as int)
                        + spec_file_hits(
                        self.files@[f as int],
                        packs@[f as int],
                        qb,
                        c as int,
                    ),
                    grepped as int == (if spec_cand_count(self.files@, qb, f as int) + c
                        > u64::MAX {
                        u64::MAX as int
                    } else {
                        spec_cand_count(self.files@, qb, f as int) + c
                    }),
                    spec_cand_count(self.files@, qb, f as int) >= 0,
                    forall|f2: int, c2: int|
                        0 <= f2 < f && 0 <= c2 < spec_candidates(self.files@[f2], qb).len()
                            ==> spec_doc_readable(
                            packs@[f2],
                            (#[trigger] spec_candidates(self.files@[f2], qb)[c2]) as int,
                        ),
                    forall|c2: int|
                        0 <= c2 < c ==> spec_doc_readable(
                            packs@[f as int],
                            (#[trigger] this_file@[c2]) as int,
                        ),
                    forall|i: int|
                        0 <= i < docs@.len() ==> spec_doc_verified(
                            self.files@,
                            packs@,
                            qb,
                            #[trigger] docs@[i],
                        ),
                decreases this_file@.len() - c,
            {
                let local: u32 = this_file[c];
                if local as usize > pack.len() {
                    proof {
                        lemma_search_not_readable(
                            self.files@,
                            packs@,
                            qb,
                            f as int,
                            c as int,
                        );
                    }
                    return Err(Error::InvalidState);
                }
                let rec = match read_record(pack, local as usize) {
                    Ok(Some(rec)) => rec,
                    Ok(None) => {
                        proof {
                            lemma_search_not_readable(
                                self.files@,
                                packs@,
                                qb,
                                f as int,
                                c as int,
                            );
                        }
                        return Err(Error::InvalidState);
                    },
                    Err(e) => {
                        proof {
                            lemma_search_not_readable(
                                self.files@,
                                packs@,
                                qb,
                                f as int,
                                c as int,
                            );
                        }
                        return Err(e);
                    },
                };
                let mut rec = rec;
                let payload: Vec<u8> = rec.read_payload();
                let doc: Vec<u8> = match lz4_decompress(&payload) {
                    Ok(d) => d,
                    Err(e) => {
                        proof {
                            assert(lz4_unpacked(frame_payload_at(packs@[f as int]@, local as int))
                                is None);
                            lemma_search_not_readable(
                                self.files@,
                                packs@,
                                qb,
                                f as int,
                                c as int,
                            );
                        }
                        return Err(e);
                    },
                };
                // the candidate count saturates rather than wraps
                if grepped < u64::MAX {
                    grepped = grepped + 1;
                }
                proof {
                    assert(frame_valid_at(packs@[f as int]@, local as int));
                    assert(lz4_unpacked(frame_payload_at(packs@[f as int]@, local as int))
                        == Some(doc@));
                    assert(spec_doc_readable(packs@[f as int], local as int));
                }
                let hit = reader_contains(&needle, &doc);
                let ghost docs0 = docs@;
                if hit.is_some() {
                    docs.push(local as u64 + file.addendum);
                    proof {
                        let d: u64 = (local as u64 + file.addendum) as u64;
                        let ff: int = f as int;
                        let ll: int = local as int;
                        assert(match_at(qb, doc@, hit.unwrap() as int));
                        assert(d == ll + self.files@[ff].addendum);
                        assert(lz4_unpacked(frame_payload_at(packs@[ff]@, ll)) == Some(doc@));
                        assert(match_at(
                            qb,
                            lz4_unpacked(frame_payload_at(packs@[ff]@, ll)).unwrap(),
                            hit.unwrap() as int,
                        ));
                        assert(spec_doc_hit(packs@[ff], qb, ll));
                        assert(spec_doc_verified_at(self.files@, packs@, qb, d, ff, ll));
                        assert(spec_doc_verified(self.files@, packs@, qb, d));
                        assert(forall|i: int| 0 <= i < docs0.len() ==> docs@[i] == docs0[i]);
                    }
                } else {
                    proof {
                        let ff: int = f as int;
                        let ll: int = local as int;
                        assert forall|j: int|
                            !match_at(
                                qb,
                                lz4_unpacked(frame_payload_at(packs@[ff]@, ll)).unwrap(),
                                j,
                            ) by {
                            assert(lz4_unpacked(frame_payload_at(packs@[ff]@, ll)).unwrap()
                                == doc@);
                            assert(!match_at(qb, doc@, j));
                        }
                        assert(!spec_doc_hit(packs@[ff], qb, ll));
                    }
                }
                c = c + 1;
                proof {
                    assert(docs@ =~= spec_search_docs(self.files@, packs@, qb, f as int)
                        + spec_file_hits(
                        self.files@[f as int],
                        packs@[f as int],
                        qb,
                        c as int,
                    ));
                }
            }
            f = f + 1;
            proof {
                assert(docs@ =~= spec_search_docs(self.files@, packs@, qb, f as int));
                assert forall|f2: int, c2: int|
                    0 <= f2 < f && 0 <= c2 < spec_candidates(self.files@[f2], qb).len()
                        implies spec_doc_readable(
                    packs@[f2],
                    (#[trigger] spec_candidates(self.files@[f2], qb)[c2]) as int,
                ) by {
                    if f2 == f - 1 {
                        assert(this_file@[c2] == spec_candidates(self.files@[f2], qb)[c2]);
                    }
                }
            }
        }
        proof {
            assert(spec_search_readable(self.files@, packs@, qb));
        }
        Ok(SearchResult { docs, grepped })
    }
}

/// A candidate that cannot be re-read refutes the whole search's
/// readability.
proof fn lemma_search_not_readable(
    files: Seq<IndexFile>,
    packs: Seq<Vec<u8>>,
    q: Seq<u8>,
    f: int,
    c: int,
)
    requires
        0 <= f < files.len(),
        0 <= c < spec_candidates(files[f], q).len(),
        !spec_doc_readable(packs[f], spec_candidates(files[f], q)[c] as int),
    ensures
        !spec_search_readable(files, packs, q),
{
}

} // verus!
