//! Exact substring search, plain and streaming.
//!
//! `find_bytes` is the in-memory search: the first offset at which the
//! needle occurs.  `reader_contains_external_buf` runs the same search over
//! a stream served in chunks, holding only a fixed window in memory: it
//! refills the window, searches it, and on a miss retains the trailing
//! `needle.len() - 1` bytes (the only bytes that can start a match spanning
//! a refill boundary).  Its contract promises the same answer as searching
//! the fully buffered stream, whatever the window size (as long as it
//! exceeds the needle) and however the reads are chunked.

use vstd::prelude::*;
use vstd::slice::slice_subrange;

verus! {

/// `needle` occurs in `hay` starting at position `i`.
pub open spec fn match_at(needle: Seq<u8>, hay: Seq<u8>, i: int) -> bool {
    &&& 0 <= i
    &&& i + needle.len() <= hay.len()
    &&& hay.subrange(i, i + needle.len()) == needle
}

/// `i` is the first position at which `needle` occurs in `hay`.
pub open spec fn first_match_at(needle: Seq<u8>, hay: Seq<u8>, i: int) -> bool {
    &&& match_at(needle, hay, i)
    &&& forall|j: int| 0 <= j < i ==> !match_at(needle, hay, j)
}

/// The first offset at which `needle` occurs in `hay`, if it occurs at
/// all.  An empty needle matches at offset zero.
pub fn find_bytes(hay: &[u8], needle: &[u8]) -> (r: Option<usize>)
    ensures
        r matches Some(i) ==> first_match_at(needle@, hay@, i as int),
        r is None ==> forall|j: int| !match_at(needle@, hay@, j),
{
    if needle.len() > hay.len() {
        return None;
    }
    if needle.len() == 0 {
        proof {
            assert(hay@.subrange(0, 0) =~= needle@);
        }
        return Some(0);
    }
    let mut i: usize = 0;
    while i <= hay.len() - needle.len()
        invariant
            hay@.len() <= usize::MAX,
            1 <= needle@.len() <= hay@.len(),
            i <= hay@.len() - needle@.len() + 1,
            forall|j: int| 0 <= j < i ==> !match_at(needle@, hay@, j),
        decreases hay@.len() - needle@.len() + 1 - i,
    {
        let mut k: usize = 0;
        let mut hit: bool = true;
        while k < needle.len()
            invariant
                hay@.len() <= usize::MAX,
                i + needle@.len() <= hay@.len(),
                k <= needle@.len(),
                hit ==> forall|m: int| 0 <= m < k ==> hay@[i + m] == needle@[m],
                !hit ==> !match_at(needle@, hay@, i as int),
            decreases needle@.len() - k,
        {
            if hay[i + k] != needle[k] {
                proof {
                    assert(hay@.subrange(i as int, i + needle@.len())[k as int] == hay@[i + k]);
                }
                hit = false;
                k = needle.len();
            } else {
                k = k + 1;
            }
        }
        if hit {
            proof {
                assert(hay@.subrange(i as int, i + needle@.len()) =~= needle@);
            }
            return Some(i);
        }
        i = i + 1;
    }
    proof {
        assert forall|j: int| !match_at(needle@, hay@, j) by {
            if match_at(needle@, hay@, j) {
                assert(0 <= j < i);
            }
        }
    }
    None
}

/// Streaming search over `data`, holding only the window `buf` in memory.
///
/// The stream serves the reads in chunks: the next read hands over at most
/// `chunks[step]` bytes (cycling through `chunks`), never more than the
/// space offered and never more than what remains.  The answer is the one
/// `find_bytes` gives on the whole of `data`: it does not depend on the
/// window size or on how the reads are chunked.
pub fn reader_contains_external_buf(
    needle: &Vec<u8>,
    data: &Vec<u8>,
    chunks: &Vec<usize>,
    buf: &mut Vec<u8>,
) -> (r: Option<u64>)
    requires
        needle@.len() < old(buf)@.len(),
        chunks@.len() >= 1,
        forall|c: int| 0 <= c < chunks@.len() ==> #[trigger] chunks@[c] >= 1,
    ensures
        r matches Some(off) ==> first_match_at(needle@, data@, off as int),
        r is None ==> forall|j: int| !match_at(needle@, data@, j),
{
    if needle.len() == 0 {
        proof {
            assert(data@.subrange(0, 0) =~= needle@);
        }
        return Some(0);
    }
    let nlen: usize = needle.len();
    let buflen: usize = buf.len();
    let dlen: usize = data.len();
    let clen: usize = chunks.len();
    proof {
        assert(dlen == data@.len());
        assert(clen == chunks@.len());
    }
    let mut fill: usize = 0;
    let mut pos: usize = 0;
    let mut step: usize = 0;
    loop
        invariant
            nlen == needle@.len(),
            0 < nlen < buflen,
            buf@.len() == buflen,
            chunks@.len() >= 1,
            forall|c: int| 0 <= c < chunks@.len() ==> #[trigger] chunks@[c] >= 1,
            step < chunks@.len(),
            chunks@.len() <= usize::MAX,
            data@.len() <= usize::MAX,
            fill < nlen,
            fill <= pos <= data@.len(),
            buf@.subrange(0, fill as int) == data@.subrange(pos - fill, pos as int),
            forall|j: int| 0 <= j < pos - fill ==> !match_at(needle@, data@, j),
        decreases data@.len() - pos,
    {
        let ghost total: int = pos - fill;
        while fill < nlen
            invariant
                nlen == needle@.len(),
                0 < nlen < buflen,
                buf@.len() == buflen,
                chunks@.len() >= 1,
                forall|c: int| 0 <= c < chunks@.len() ==> #[trigger] chunks@[c] >= 1,
                step < chunks@.len(),
                chunks@.len() <= usize::MAX,
                data@.len() <= usize::MAX,
                fill < buflen,
                fill <= pos <= data@.len(),
                pos - fill == total,
                buf@.subrange(0, fill as int) == data@.subrange(pos - fill, pos as int),
            ensures
                fill >= nlen || pos == data@.len(),
                fill < buflen,
                pos <= data@.len(),
                pos - fill == total,
                step < chunks@.len(),
                buf@.len() == buflen,
                buf@.subrange(0, fill as int) == data@.subrange(pos - fill, pos as int),
            decreases data@.len() - pos,
        {
            let space: usize = buflen - 1 - fill;
            proof {
                assert(space >= 1);
            }
            let avail: usize = data.len() - pos;
            let mut n: usize = chunks[step];
            step = if step + 1 == chunks.len() {
                0
            } else {
                step + 1
            };
            if n > space {
                n = space;
            }
            if n > avail {
                n = avail;
            }
            if n == 0 {
                break ;
            }
            let ghost buf0: Seq<u8> = buf@;
            let mut k: usize = 0;
            while k < n
                invariant
                    k <= n,
                    buf@.len() == buflen,
                    buf0.len() == buflen,
                    data@.len() <= usize::MAX,
                    fill + n < buflen,
                    pos + n <= data@.len(),
                    forall|m: int|
                        0 <= m < fill || fill + k <= m < buflen ==> #[trigger] buf@[m] == buf0[m],
                    forall|m: int| 0 <= m < k ==> #[trigger] buf@[fill + m] == data@[pos + m],
                decreases n - k,
            {
                let b: u8 = data[pos + k];
                buf.set(fill + k, b);
                k = k + 1;
            }
            proof {
                assert forall|m: int| 0 <= m < fill + n implies buf@[m] == data@[pos - fill
                    + m] by {
                    if m < fill {
                        assert(buf@[m] == buf0[m]);
                        assert(buf0.subrange(0, fill as int)[m] == data@.subrange(
                            pos - fill,
                            pos as int,
                        )[m]);
                    } else {
                        assert(buf@[fill + (m - fill)] == data@[pos + (m - fill)]);
                    }
                }
                assert(buf@.subrange(0, (fill + n) as int) =~= data@.subrange(
                    pos - fill,
                    (pos + n) as int,
                ));
            }
            fill = fill + n;
            pos = pos + n;
        }

        let window = slice_subrange(buf.as_slice(), 0, fill);
        let found = find_bytes(window, needle.as_slice());
        proof {
            assert(window@ == data@.subrange(total, total + fill));
        }
        if let Some(w) = found {
            proof {
                assert(match_at(needle@, data@, total + w)) by {
                    assert(window@.subrange(w as int, w + nlen) =~= data@.subrange(
                        total + w,
                        total + w + nlen,
                    ));
                }
                assert forall|j: int| 0 <= j < total + w implies !match_at(needle@, data@, j) by {
                    if j >= total && match_at(needle@, data@, j) {
                        assert(match_at(needle@, window@, j - total)) by {
                            assert(data@.subrange(j, j + nlen) =~= window@.subrange(
                                j - total,
                                j - total + nlen,
                            ));
                        }
                    }
                }
            }
            return Some(pos as u64 - fill as u64 + w as u64);
        }
        if fill < nlen {
            proof {
                assert(pos == data@.len());
                assert forall|j: int| !match_at(needle@, data@, j) by {
                    if match_at(needle@, data@, j) {
                        assert(j + nlen <= data@.len());
                        assert(j < total);
                    }
                }
            }
            return None;
        }

        // keep the trailing bytes that can start a match spanning the
        // refill boundary, and account for the bytes scrolled past
        proof {
            assert forall|j: int| 0 <= j <= total + fill - nlen implies !match_at(
                needle@,
                data@,
                j,
            ) by {
                if j >= total && match_at(needle@, data@, j) {
                    assert(match_at(needle@, window@, j - total)) by {
                        assert(data@.subrange(j, j + nlen) =~= window@.subrange(
                            j - total,
                            j - total + nlen,
                        ));
                    }
                }
            }
        }
        let ghost buf1: Seq<u8> = buf@;
        let mut i: usize = 0;
        while i < nlen - 1
            invariant
                0 < nlen <= fill < buflen,
                buf@.len() == buflen,
                i <= nlen - 1,
                forall|m: int| i <= m < buflen ==> buf@[m] == buf1[m],
                forall|m: int| 0 <= m < i ==> buf@[m] == buf1[fill - nlen + m + 1],
            decreases nlen - i,
        {
            let b: u8 = buf[fill - nlen + i + 1];
            proof {
                assert(fill - nlen + i + 1 >= i + 1 > i);
            }
            buf.set(i, b);
            i = i + 1;
        }
        proof {
            assert forall|m: int| 0 <= m < nlen - 1 implies buf@[m] == data@[pos - (nlen - 1)
                + m] by {
                let idx = fill - (nlen - 1) + m;
                assert(buf@[m] == buf1[idx]);
                assert(buf1.subrange(0, fill as int)[idx] == data@.subrange(
                    pos - fill,
                    pos as int,
                )[idx]);
            }
            assert(buf@.subrange(0, (nlen - 1) as int) =~= data@.subrange(
                pos - (nlen - 1),
                pos as int,
            ));
        }
        fill = nlen - 1;
    }
}

/// Whether `data` contains `needle`, and at which offset it first does,
/// searched through a fixed-size streaming window.
pub fn reader_contains(needle: &Vec<u8>, data: &Vec<u8>) -> (r: Option<u64>)
    requires
        needle@.len() < 16384,
    ensures
        r matches Some(off) ==> first_match_at(needle@, data@, off as int),
        r is None ==> forall|j: int| !match_at(needle@, data@, j),
{
    let mut buf: Vec<u8> = Vec::new();
    let mut z: usize = 0;
    while z < 16384
        invariant
            buf@.len() == z,
            z <= 16384,
        decreases 16384 - z,
    {
        buf.push(0u8);
        z = z + 1;
    }
    let mut chunks: Vec<usize> = Vec::new();
    chunks.push(16384);
    reader_contains_external_buf(needle, data, &chunks, &mut buf)
}

} // verus!
