//! Byte-level helpers of the ingest path: text detection and hash
//! packing.
//!
//! A blob counts as text when none of its bytes is a control byte from the
//! ranges that never occur in printable documents.  Content hashes travel
//! as 32-byte arrays and are split into four little-endian signed words
//! for the metadata store, or spelled out in hexadecimal.

use vstd::prelude::*;
use vstd::bytes::{
    lemma_auto_spec_u64_to_from_le_bytes, spec_u64_from_le_bytes, spec_u64_to_le_bytes,
    u64_from_le_bytes, u64_to_le_bytes,
};
use vstd::slice::slice_subrange;
use vstd::string::StringSliceAdditionalSpecFns;
use vstd::string::StrSliceExecFns;

verus! {

/// A byte that disqualifies a blob from being text: NUL, the
/// enquiry-to-backspace range, and the shift-out-to-unit-separator range.
pub open spec fn spec_binary_byte(b: u8) -> bool {
    b == 0 || (5 <= b <= 8) || (14 <= b < 32)
}

/// No byte of `s` is a control byte.
pub open spec fn spec_is_text(s: Seq<u8>) -> bool {
    forall|i: int| 0 <= i < s.len() ==> !spec_binary_byte(#[trigger] s[i])
}

/// Whether `buf` holds text: no NUL and none of the control bytes that
/// printable documents never carry.
pub fn is_text(buf: &[u8]) -> (r: bool)
    ensures
        r == spec_is_text(buf@),
{
    let mut i: usize = 0;
    while i < buf.len()
        invariant
            i <= buf@.len(),
            forall|j: int| 0 <= j < i ==> !spec_binary_byte(#[trigger] buf@[j]),
        decreases buf@.len() - i,
    {
        let b = buf[i];
        if b == 0 || (b >= 5 && b <= 8) || (b >= 14 && b < 32) {
            return false;
        }
        i = i + 1;
    }
    true
}

/// Packs a 32-byte slice into a hash array.
pub fn to_bytes(slice: &[u8]) -> (r: [u8; 32])
    requires
        slice@.len() == 32,
    ensures
        r@ == slice@,
{
    let r: [u8; 32] = [
        slice[0],
        slice[1],
        slice[2],
        slice[3],
        slice[4],
        slice[5],
        slice[6],
        slice[7],
        slice[8],
        slice[9],
        slice[10],
        slice[11],
        slice[12],
        slice[13],
        slice[14],
        slice[15],
        slice[16],
        slice[17],
        slice[18],
        slice[19],
        slice[20],
        slice[21],
        slice[22],
        slice[23],
        slice[24],
        slice[25],
        slice[26],
        slice[27],
        slice[28],
        slice[29],
        slice[30],
        slice[31],
    ];
    proof {
        assert(r@ =~= slice@);
    }
    r
}

/// Splits a 32-byte hash into the four little-endian signed words the
/// metadata store keys blobs by.
pub fn decompose(hash: [u8; 32]) -> (r: (i64, i64, i64, i64))
    ensures
        r.0 == spec_u64_from_le_bytes(hash@.subrange(0, 8)) as i64,
        r.1 == spec_u64_from_le_bytes(hash@.subrange(8, 16)) as i64,
        r.2 == spec_u64_from_le_bytes(hash@.subrange(16, 24)) as i64,
        r.3 == spec_u64_from_le_bytes(hash@.subrange(24, 32)) as i64,
{
    let hs = hash.as_slice();
    let h0 = u64_from_le_bytes(slice_subrange(hs, 0, 8)) as i64;
    let h1 = u64_from_le_bytes(slice_subrange(hs, 8, 16)) as i64;
    let h2 = u64_from_le_bytes(slice_subrange(hs, 16, 24)) as i64;
    let h3 = u64_from_le_bytes(slice_subrange(hs, 24, 32)) as i64;
    (h0, h1, h2, h3)
}

/// Reassembles a 32-byte hash from its four little-endian signed words.
pub fn compose(h0: i64, h1: i64, h2: i64, h3: i64) -> (r: [u8; 32])
    ensures
        r@ == spec_u64_to_le_bytes(h0 as u64) + spec_u64_to_le_bytes(h1 as u64)
            + spec_u64_to_le_bytes(h2 as u64) + spec_u64_to_le_bytes(h3 as u64),
{
    let mut v: Vec<u8> = u64_to_le_bytes(h0 as u64);
    let mut v1 = u64_to_le_bytes(h1 as u64);
    let mut v2 = u64_to_le_bytes(h2 as u64);
    let mut v3 = u64_to_le_bytes(h3 as u64);
    v.append(&mut v1);
    v.append(&mut v2);
    v.append(&mut v3);
    to_bytes(v.as_slice())
}

/// Splitting a hash into words and reassembling it is the identity.
pub proof fn lemma_hash_words_round_trip(hash: Seq<u8>)
    requires
        hash.len() == 32,
    ensures
        spec_u64_to_le_bytes(spec_u64_from_le_bytes(hash.subrange(0, 8))) + spec_u64_to_le_bytes(
            spec_u64_from_le_bytes(hash.subrange(8, 16)),
        ) + spec_u64_to_le_bytes(spec_u64_from_le_bytes(hash.subrange(16, 24)))
            + spec_u64_to_le_bytes(spec_u64_from_le_bytes(hash.subrange(24, 32))) == hash,
{
    lemma_auto_spec_u64_to_from_le_bytes();
    assert(spec_u64_to_le_bytes(spec_u64_from_le_bytes(hash.subrange(0, 8))) + spec_u64_to_le_bytes(
        spec_u64_from_le_bytes(hash.subrange(8, 16)),
    ) + spec_u64_to_le_bytes(spec_u64_from_le_bytes(hash.subrange(16, 24)))
        + spec_u64_to_le_bytes(spec_u64_from_le_bytes(hash.subrange(24, 32))) =~= hash);
}

/// The lowercase hexadecimal character for nibble `d`.
pub open spec fn spec_hex_char(d: int) -> char {
    if d == 0 {
        '0'
    } else if d == 1 {
        '1'
    } else if d == 2 {
        '2'
    } else if d == 3 {
        '3'
    } else if d == 4 {
        '4'
    } else if d == 5 {
        '5'
    } else if d == 6 {
        '6'
    } else if d == 7 {
        '7'
    } else if d == 8 {
        '8'
    } else if d == 9 {
        '9'
    } else if d == 10 {
        'a'
    } else if d == 11 {
        'b'
    } else if d == 12 {
        'c'
    } else if d == 13 {
        'd'
    } else if d == 14 {
        'e'
    } else {
        'f'
    }
}

/// The two-characters-per-byte lowercase hexadecimal spelling of `s`.
pub open spec fn spec_hex_of(s: Seq<u8>) -> Seq<char> {
    Seq::new(
        s.len() * 2,
        |i: int|
            if i % 2 == 0 {
                spec_hex_char(s[i / 2] as int / 16)
            } else {
                spec_hex_char(s[i / 2] as int % 16)
            },
    )
}

/// The one-character string for hex nibble `d`.
fn hex_str(d: u8) -> (r: &'static str)
    requires
        d < 16,
    ensures
        r@.len() == 1,
        r@[0] == spec_hex_char(d as int),
{
    let r: &'static str = if d == 0 {
        "0"
    } else if d == 1 {
        "1"
    } else if d == 2 {
        "2"
    } else if d == 3 {
        "3"
    } else if d == 4 {
        "4"
    } else if d == 5 {
        "5"
    } else if d == 6 {
        "6"
    } else if d == 7 {
        "7"
    } else if d == 8 {
        "8"
    } else if d == 9 {
        "9"
    } else if d == 10 {
        "a"
    } else if d == 11 {
        "b"
    } else if d == 12 {
        "c"
    } else if d == 13 {
        "d"
    } else if d == 14 {
        "e"
    } else {
        "f"
    };
    proof {
        reveal_strlit("0");
        reveal_strlit("1");
        reveal_strlit("2");
        reveal_strlit("3");
        reveal_strlit("4");
        reveal_strlit("5");
        reveal_strlit("6");
        reveal_strlit("7");
        reveal_strlit("8");
        reveal_strlit("9");
        reveal_strlit("a");
        reveal_strlit("b");
        reveal_strlit("c");
        reveal_strlit("d");
        reveal_strlit("e");
        reveal_strlit("f");
    }
    r
}

/// Spells a 32-byte hash out as 64 lowercase hexadecimal characters.
pub fn hex_hash(hash: [u8; 32]) -> (r: String)
    ensures
        r@ == spec_hex_of(hash@),
{
    let mut r = String::new();
    let mut i: usize = 0;
    while i < 32
        invariant
            i <= 32,
            r@ == spec_hex_of(hash@).subrange(0, 2 * i),
        decreases 32 - i,
    {
        let b = hash[i];
        r.append(hex_str(b / 16));
        r.append(hex_str(b % 16));
        i = i + 1;
        proof {
            assert(r@ =~= spec_hex_of(hash@).subrange(0, 2 * i));
        }
    }
    proof {
        assert(spec_hex_of(hash@).subrange(0, 64) =~= spec_hex_of(hash@));
    }
    r
}

/// The content classes the compression-dictionary heuristic tells apart.
#[derive(Copy, Clone, PartialEq, Eq, Structural, Debug)]
pub enum CompressionType {
    Text,
    Conf,
    C,
    Code,
    Web,
    Tiny,
    Medium,
    Other,
}

/// The byte folded to ASCII lowercase.
pub open spec fn spec_lower_byte(b: u8) -> u8 {
    if 65 <= b <= 90 {
        (b + 32) as u8
    } else {
        b
    }
}

/// The byte string folded to ASCII lowercase.
pub open spec fn spec_lower_bytes(s: Seq<u8>) -> Seq<u8> {
    Seq::new(s.len(), |i: int| spec_lower_byte(s[i]))
}

/// The index of the last occurrence of `b` in `s`, or -1.
pub open spec fn spec_rlast(s: Seq<u8>, b: u8) -> int
    decreases s.len(),
{
    if s.len() == 0 {
        -1
    } else if s.last() == b {
        s.len() - 1
    } else {
        spec_rlast(s.drop_last(), b)
    }
}

/// The lowercased final path segment: everything after the last slash.
pub open spec fn spec_filename_of(s: Seq<u8>) -> Seq<u8> {
    spec_lower_bytes(s.subrange(spec_rlast(s, 47) + 1, s.len() as int))
}

/// The extension slice the heuristic matches on: from the last dot of the
/// filename (dot included) to its end, or the whole filename when it has
/// no dot.
pub open spec fn spec_ext_of(f: Seq<u8>) -> Seq<u8> {
    if spec_rlast(f, 46) < 0 {
        f
    } else {
        f.subrange(spec_rlast(f, 46), f.len() as int)
    }
}

/// `n` occurs somewhere in `h`.
pub open spec fn spec_contains_sub(h: Seq<u8>, n: Seq<u8>) -> bool {
    exists|j: int| crate::grep::match_at(n, h, j)
}

/// The class an extension names directly, if any.
pub open spec fn spec_ext_class(ext: Seq<u8>) -> Option<CompressionType> {
    if ext == seq![116u8, 120u8, 116u8] {
        Some(CompressionType::Text)
    } else
    if ext == seq![114u8, 115u8, 116u8] {
        Some(CompressionType::Text)
    } else
    if ext == seq![109u8, 100u8] {
        Some(CompressionType::Text)
    } else
    if ext == seq![100u8, 111u8, 99u8] {
        Some(CompressionType::Text)
    } else
    if ext == seq![99u8, 111u8, 110u8, 116u8, 114u8, 111u8, 108u8] {
        Some(CompressionType::Text)
    } else
    if ext == seq![100u8, 115u8, 99u8] {
        Some(CompressionType::Text)
    } else
    if ext == seq![114u8, 101u8, 97u8, 100u8, 109u8, 101u8] {
        Some(CompressionType::Text)
    } else
    if ext == seq![108u8, 105u8, 99u8, 101u8, 110u8, 115u8, 101u8] {
        Some(CompressionType::Text)
    } else
    if ext == seq![108u8, 105u8, 99u8, 101u8, 110u8, 99u8, 101u8] {
        Some(CompressionType::Text)
    } else
    if ext == seq![99u8, 111u8, 112u8, 121u8, 114u8, 105u8, 103u8, 104u8, 116u8] {
        Some(CompressionType::Text)
    } else
    if ext == seq![112u8, 111u8] {
        Some(CompressionType::Text)
    } else
    if ext == seq![109u8, 111u8] {
        Some(CompressionType::Text)
    } else
    if ext == seq![114u8, 100u8, 102u8] {
        Some(CompressionType::Text)
    } else
    if ext == seq![113u8, 100u8, 111u8, 99u8] {
        Some(CompressionType::Text)
    } else
    if ext == seq![109u8, 97u8, 110u8, 105u8, 102u8, 101u8, 115u8, 116u8] {
        Some(CompressionType::Text)
    } else
    if ext == seq![109u8, 97u8, 107u8, 101u8, 102u8, 105u8, 108u8, 101u8] {
        Some(CompressionType::Conf)
    } else
    if ext == seq![105u8, 110u8] {
        Some(CompressionType::Conf)
    } else
    if ext == seq![109u8, 52u8] {
        Some(CompressionType::Conf)
    } else
    if ext == seq![109u8, 107u8] {
        Some(CompressionType::Conf)
    } else
    if ext == seq![112u8, 114u8, 111u8] {
        Some(CompressionType::Conf)
    } else
    if ext == seq![114u8, 117u8, 108u8, 101u8, 115u8] {
        Some(CompressionType::Conf)
    } else
    if ext == seq![105u8, 110u8, 99u8] {
        Some(CompressionType::Conf)
    } else
    if ext == seq![97u8, 109u8] {
        Some(CompressionType::Conf)
    } else
    if ext == seq![98u8, 117u8, 105u8, 108u8, 100u8] {
        Some(CompressionType::Conf)
    } else
    if ext == seq![99u8, 109u8, 97u8, 107u8, 101u8] {
        Some(CompressionType::Conf)
    } else
    if ext == seq![103u8, 121u8, 112u8] {
        Some(CompressionType::Conf)
    } else
    if ext == seq![103u8, 105u8, 116u8, 105u8, 103u8, 110u8, 111u8, 114u8, 101u8] {
        Some(CompressionType::Conf)
    } else
    if ext == seq![112u8, 114u8, 111u8, 112u8, 101u8, 114u8, 116u8, 105u8, 101u8, 115u8] {
        Some(CompressionType::Conf)
    } else
    if ext == seq![105u8, 110u8, 105u8] {
        Some(CompressionType::Conf)
    } else
    if ext == seq![106u8, 115u8, 111u8, 110u8] {
        Some(CompressionType::Conf)
    } else
    if ext == seq![99u8, 102u8, 103u8] {
        Some(CompressionType::Conf)
    } else
    if ext == seq![99u8, 111u8, 110u8, 102u8] {
        Some(CompressionType::Conf)
    } else
    if ext == seq![121u8, 97u8, 109u8, 108u8] {
        Some(CompressionType::Conf)
    } else
    if ext == seq![113u8, 109u8, 108u8] {
        Some(CompressionType::Conf)
    } else
    if ext == seq![115u8, 104u8] {
        Some(CompressionType::Conf)
    } else
    if ext == seq![99u8] {
        Some(CompressionType::C)
    } else
    if ext == seq![99u8, 112u8, 112u8] {
        Some(CompressionType::C)
    } else
    if ext == seq![99u8, 99u8] {
        Some(CompressionType::C)
    } else
    if ext == seq![99u8, 120u8, 120u8] {
        Some(CompressionType::C)
    } else
    if ext == seq![104u8] {
        Some(CompressionType::C)
    } else
    if ext == seq![104u8, 112u8, 112u8] {
        Some(CompressionType::C)
    } else
    if ext == seq![104u8, 120u8, 120u8] {
        Some(CompressionType::C)
    } else
    if ext == seq![100u8] {
        Some(CompressionType::C)
    } else
    if ext == seq![109u8, 108u8] {
        Some(CompressionType::C)
    } else
    if ext == seq![104u8, 104u8] {
        Some(CompressionType::C)
    } else
    if ext == seq![105u8, 100u8, 108u8] {
        Some(CompressionType::C)
    } else
    if ext == seq![99u8, 115u8] {
        Some(CompressionType::Code)
    } else
    if ext == seq![103u8, 111u8] {
        Some(CompressionType::Code)
    } else
    if ext == seq![104u8, 115u8] {
        Some(CompressionType::Code)
    } else
    if ext == seq![106u8, 97u8, 118u8, 97u8] {
        Some(CompressionType::Code)
    } else
    if ext == seq![108u8, 108u8] {
        Some(CompressionType::Code)
    } else
    if ext == seq![112u8, 104u8, 112u8] {
        Some(CompressionType::Code)
    } else
    if ext == seq![112u8, 104u8, 112u8, 116u8] {
        Some(CompressionType::Code)
    } else
    if ext == seq![112u8, 108u8] {
        Some(CompressionType::Code)
    } else
    if ext == seq![112u8, 109u8] {
        Some(CompressionType::Code)
    } else
    if ext == seq![112u8, 121u8] {
        Some(CompressionType::Code)
    } else
    if ext == seq![114u8, 98u8] {
        Some(CompressionType::Code)
    } else
    if ext == seq![114u8, 115u8] {
        Some(CompressionType::Code)
    } else
    if ext == seq![115u8] {
        Some(CompressionType::Code)
    } else
    if ext == seq![104u8, 116u8, 109u8] {
        Some(CompressionType::Web)
    } else
    if ext == seq![104u8, 116u8, 109u8, 108u8] {
        Some(CompressionType::Web)
    } else
    if ext == seq![120u8, 104u8, 116u8, 109u8, 108u8] {
        Some(CompressionType::Web)
    } else
    if ext == seq![106u8, 115u8] {
        Some(CompressionType::Web)
    } else
    if ext == seq![115u8, 106u8, 115u8] {
        Some(CompressionType::Web)
    } else
    if ext == seq![100u8, 116u8, 100u8] {
        Some(CompressionType::Web)
    } else
    if ext == seq![120u8, 109u8, 108u8] {
        Some(CompressionType::Web)
    } else
    if ext == seq![115u8, 118u8, 103u8] {
        Some(CompressionType::Web)
    } else
    if ext == seq![120u8, 104u8, 116u8] {
        Some(CompressionType::Web)
    } else
    if ext == seq![120u8, 117u8, 108u8] {
        Some(CompressionType::Web)
    } else
    if ext == seq![99u8, 115u8, 115u8] {
        Some(CompressionType::Web)
    } else {
        None
    }
}

/// The class of a path: its extension's class, or, failing that, text for
/// anything whose filename mentions a readme or a license, and the
/// general bucket otherwise.
pub open spec fn spec_identify(s: Seq<u8>) -> CompressionType {
    let f = spec_filename_of(s);
    match spec_ext_class(spec_ext_of(f)) {
        Some(c) => c,
        None => if spec_contains_sub(f, seq![114u8, 101u8, 97u8, 100u8, 109u8, 101u8])
            || spec_contains_sub(f, seq![108u8, 105u8, 99u8, 101u8, 110u8, 115u8, 101u8])
            || spec_contains_sub(f, seq![108u8, 105u8, 99u8, 101u8, 110u8, 99u8, 101u8]) {
            CompressionType::Text
        } else {
            CompressionType::Other
        },
    }
}

/// The slice spells exactly these 1 byte(s).
fn eq1(v: &[u8], x0: u8) -> (r: bool)
    ensures
        r == (v@ == seq![x0]),
{
    let r = v.len() == 1 && v[0] == x0;
    proof {
        if v@.len() == 1 {
            assert(v@ =~= seq![x0] ==> (v@[0] == x0));
            if v@[0] == x0 {
                assert(v@ =~= seq![x0]);
            }
        }
    }
    r
}

/// The slice spells exactly these 2 byte(s).
fn eq2(v: &[u8], x0: u8, x1: u8) -> (r: bool)
    ensures
        r == (v@ == seq![x0, x1]),
{
    let r = v.len() == 2 && v[0] == x0 && v[1] == x1;
    proof {
        if v@.len() == 2 {
            assert(v@ =~= seq![x0, x1] ==> (v@[0] == x0 && v@[1] == x1));
            if v@[0] == x0 && v@[1] == x1 {
                assert(v@ =~= seq![x0, x1]);
            }
        }
    }
    r
}

/// The slice spells exactly these 3 byte(s).
fn eq3(v: &[u8], x0: u8, x1: u8, x2: u8) -> (r: bool)
    ensures
        r == (v@ == seq![x0, x1, x2]),
{
    let r = v.len() == 3 && v[0] == x0 && v[1] == x1 && v[2] == x2;
    proof {
        if v@.len() == 3 {
            assert(v@ =~= seq![x0, x1, x2] ==> (v@[0] == x0 && v@[1] == x1 && v@[2] == x2));
            if v@[0] == x0 && v@[1] == x1 && v@[2] == x2 {
                assert(v@ =~= seq![x0, x1, x2]);
            }
        }
    }
    r
}

/// The slice spells exactly these 4 byte(s).
fn eq4(v: &[u8], x0: u8, x1: u8, x2: u8, x3: u8) -> (r: bool)
    ensures
        r == (v@ == seq![x0, x1, x2, x3]),
{
    let r = v.len() == 4 && v[0] == x0 && v[1] == x1 && v[2] == x2 && v[3] == x3;
    proof {
        if v@.len() == 4 {
            assert(v@ =~= seq![x0, x1, x2, x3] ==> (v@[0] == x0 && v@[1] == x1 && v@[2] == x2 && v@[3] == x3));
            if v@[0] == x0 && v@[1] == x1 && v@[2] == x2 && v@[3] == x3 {
                assert(v@ =~= seq![x0, x1, x2, x3]);
            }
        }
    }
    r
}

/// The slice spells exactly these 5 byte(s).
fn eq5(v: &[u8], x0: u8, x1: u8, x2: u8, x3: u8, x4: u8) -> (r: bool)
    ensures
        r == (v@ == seq![x0, x1, x2, x3, x4]),
{
    let r = v.len() == 5 && v[0] == x0 && v[1] == x1 && v[2] == x2 && v[3] == x3 && v[4] == x4;
    proof {
        if v@.len() == 5 {
            assert(v@ =~= seq![x0, x1, x2, x3, x4] ==> (v@[0] == x0 && v@[1] == x1 && v@[2] == x2 && v@[3] == x3 && v@[4] == x4));
            if v@[0] == x0 && v@[1] == x1 && v@[2] == x2 && v@[3] == x3 && v@[4] == x4 {
                assert(v@ =~= seq![x0, x1, x2, x3, x4]);
            }
        }
    }
    r
}

/// The slice spells exactly these 6 byte(s).
fn eq6(v: &[u8], x0: u8, x1: u8, x2: u8, x3: u8, x4: u8, x5: u8) -> (r: bool)
    ensures
        r == (v@ == seq![x0, x1, x2, x3, x4, x5]),
{
    let r = v.len() == 6 && v[0] == x0 && v[1] == x1 && v[2] == x2 && v[3] == x3 && v[4] == x4 && v[5] == x5;
    proof {
        if v@.len() == 6 {
            assert(v@ =~= seq![x0, x1, x2, x3, x4, x5] ==> (v@[0] == x0 && v@[1] == x1 && v@[2] == x2 && v@[3] == x3 && v@[4] == x4 && v@[5] == x5));
            if v@[0] == x0 && v@[1] == x1 && v@[2] == x2 && v@[3] == x3 && v@[4] == x4 && v@[5] == x5 {
                assert(v@ =~= seq![x0, x1, x2, x3, x4, x5]);
            }
        }
    }
    r
}

/// The slice spells exactly these 7 byte(s).
fn eq7(v: &[u8], x0: u8, x1: u8, x2: u8, x3: u8, x4: u8, x5: u8, x6: u8) -> (r: bool)
    ensures
        r == (v@ == seq![x0, x1, x2, x3, x4, x5, x6]),
{
    let r = v.len() == 7 && v[0] == x0 && v[1] == x1 && v[2] == x2 && v[3] == x3 && v[4] == x4 && v[5] == x5 && v[6] == x6;
    proof {
        if v@.len() == 7 {
            assert(v@ =~= seq![x0, x1, x2, x3, x4, x5, x6] ==> (v@[0] == x0 && v@[1] == x1 && v@[2] == x2 && v@[3] == x3 && v@[4] == x4 && v@[5] == x5 && v@[6] == x6));
            if v@[0] == x0 && v@[1] == x1 && v@[2] == x2 && v@[3] == x3 && v@[4] == x4 && v@[5] == x5 && v@[6] == x6 {
                assert(v@ =~= seq![x0, x1, x2, x3, x4, x5, x6]);
            }
        }
    }
    r
}

/// The slice spells exactly these 8 byte(s).
fn eq8(v: &[u8], x0: u8, x1: u8, x2: u8, x3: u8, x4: u8, x5: u8, x6: u8, x7: u8) -> (r: bool)
    ensures
        r == (v@ == seq![x0, x1, x2, x3, x4, x5, x6, x7]),
{
    let r = v.len() == 8 && v[0] == x0 && v[1] == x1 && v[2] == x2 && v[3] == x3 && v[4] == x4 && v[5] == x5 && v[6] == x6 && v[7] == x7;
    proof {
        if v@.len() == 8 {
            assert(v@ =~= seq![x0, x1, x2, x3, x4, x5, x6, x7] ==> (v@[0] == x0 && v@[1] == x1 && v@[2] == x2 && v@[3] == x3 && v@[4] == x4 && v@[5] == x5 && v@[6] == x6 && v@[7] == x7));
            if v@[0] == x0 && v@[1] == x1 && v@[2] == x2 && v@[3] == x3 && v@[4] == x4 && v@[5] == x5 && v@[6] == x6 && v@[7] == x7 {
                assert(v@ =~= seq![x0, x1, x2, x3, x4, x5, x6, x7]);
            }
        }
    }
    r
}

/// The slice spells exactly these 9 byte(s).
fn eq9(v: &[u8], x0: u8, x1: u8, x2: u8, x3: u8, x4: u8, x5: u8, x6: u8, x7: u8, x8: u8) -> (r: bool)
    ensures
        r == (v@ == seq![x0, x1, x2, x3, x4, x5, x6, x7, x8]),
{
    let r = v.len() == 9 && v[0] == x0 && v[1] == x1 && v[2] == x2 && v[3] == x3 && v[4] == x4 && v[5] == x5 && v[6] == x6 && v[7] == x7 && v[8] == x8;
    proof {
        if v@.len() == 9 {
            assert(v@ =~= seq![x0, x1, x2, x3, x4, x5, x6, x7, x8] ==> (v@[0] == x0 && v@[1] == x1 && v@[2] == x2 && v@[3] == x3 && v@[4] == x4 && v@[5] == x5 && v@[6] == x6 && v@[7] == x7 && v@[8] == x8));
            if v@[0] == x0 && v@[1] == x1 && v@[2] == x2 && v@[3] == x3 && v@[4] == x4 && v@[5] == x5 && v@[6] == x6 && v@[7] == x7 && v@[8] == x8 {
                assert(v@ =~= seq![x0, x1, x2, x3, x4, x5, x6, x7, x8]);
            }
        }
    }
    r
}

/// The slice spells exactly these 10 byte(s).
fn eq10(v: &[u8], x0: u8, x1: u8, x2: u8, x3: u8, x4: u8, x5: u8, x6: u8, x7: u8, x8: u8, x9: u8) -> (r: bool)
    ensures
        r == (v@ == seq![x0, x1, x2, x3, x4, x5, x6, x7, x8, x9]),
{
    let r = v.len() == 10 && v[0] == x0 && v[1] == x1 && v[2] == x2 && v[3] == x3 && v[4] == x4 && v[5] == x5 && v[6] == x6 && v[7] == x7 && v[8] == x8 && v[9] == x9;
    proof {
        if v@.len() == 10 {
            assert(v@ =~= seq![x0, x1, x2, x3, x4, x5, x6, x7, x8, x9] ==> (v@[0] == x0 && v@[1] == x1 && v@[2] == x2 && v@[3] == x3 && v@[4] == x4 && v@[5] == x5 && v@[6] == x6 && v@[7] == x7 && v@[8] == x8 && v@[9] == x9));
            if v@[0] == x0 && v@[1] == x1 && v@[2] == x2 && v@[3] == x3 && v@[4] == x4 && v@[5] == x5 && v@[6] == x6 && v@[7] == x7 && v@[8] == x8 && v@[9] == x9 {
                assert(v@ =~= seq![x0, x1, x2, x3, x4, x5, x6, x7, x8, x9]);
            }
        }
    }
    r
}

/// The index of the last occurrence of `b` in `v`, if any.
fn rlast(v: &[u8], from: usize, to: usize, b: u8) -> (r: Option<usize>)
    requires
        from <= to <= v@.len(),
    ensures
        r matches Some(i) ==> from <= i < to && spec_rlast(v@.subrange(from as int, to as int), b)
            == i - from,
        r is None ==> spec_rlast(v@.subrange(from as int, to as int), b) == -1,
{
    let mut j: usize = to;
    while j > from
        invariant
            from <= j <= to <= v@.len(),
            spec_rlast(v@.subrange(from as int, to as int), b) == spec_rlast(
                v@.subrange(from as int, j as int),
                b,
            ),
        decreases j,
    {
        let ghost pre = v@.subrange(from as int, j as int);
        proof {
            assert(pre.drop_last() =~= v@.subrange(from as int, j as int - 1));
        }
        if v[j - 1] == b {
            return Some(j - 1);
        }
        j = j - 1;
    }
    proof {
        assert(v@.subrange(from as int, from as int).len() == 0);
    }
    None
}

/// Classifies a path for compression-dictionary selection, from the
/// lowercased extension of its final segment, with a fallback for
/// readme- and license-like names.
pub fn identify(path: &str) -> (r: CompressionType)
    ensures
        r == spec_identify(path.spec_bytes()),
{
    let bytes = path.as_bytes();
    let n: usize = bytes.len();
    let seg_start: usize = match rlast(bytes, 0, n, 47) {
        Some(i) => i + 1,
        None => 0,
    };
    proof {
        assert(bytes@.subrange(0, n as int) =~= bytes@);
    }

    // the lowercased filename
    let mut filename: Vec<u8> = Vec::new();
    let mut i: usize = seg_start;
    while i < n
        invariant
            seg_start <= i <= n,
            n == bytes@.len(),
            filename@ == spec_lower_bytes(bytes@.subrange(seg_start as int, n as int)).subrange(
                0,
                i - seg_start,
            ),
        decreases n - i,
    {
        let b: u8 = bytes[i];
        let lb: u8 = if b >= 65 && b <= 90 {
            b + 32
        } else {
            b
        };
        filename.push(lb);
        i = i + 1;
        proof {
            assert(filename@ =~= spec_lower_bytes(
                bytes@.subrange(seg_start as int, n as int),
            ).subrange(0, i - seg_start));
        }
    }
    proof {
        let full = spec_lower_bytes(bytes@.subrange(seg_start as int, n as int));
        assert(full.subrange(0, full.len() as int) =~= full);
        assert(filename@ == spec_filename_of(path.spec_bytes()));
    }

    let flen: usize = filename.len();
    let fs = filename.as_slice();
    let dot: Option<usize> = rlast(fs, 0, flen, 46);
    proof {
        assert(fs@.subrange(0, flen as int) =~= fs@);
    }
    let ext_start: usize = match dot {
        Some(d) => d,
        None => 0,
    };
    let ext = vstd::slice::slice_subrange(fs, ext_start, flen);
    proof {
        assert(dot is None ==> ext@ =~= spec_ext_of(filename@));
        assert(dot is Some ==> ext@ =~= spec_ext_of(filename@));
    }

    if eq3(ext, 116, 120, 116) {
        return CompressionType::Text;
    }
    if eq3(ext, 114, 115, 116) {
        return CompressionType::Text;
    }
    if eq2(ext, 109, 100) {
        return CompressionType::Text;
    }
    if eq3(ext, 100, 111, 99) {
        return CompressionType::Text;
    }
    if eq7(ext, 99, 111, 110, 116, 114, 111, 108) {
        return CompressionType::Text;
    }
    if eq3(ext, 100, 115, 99) {
        return CompressionType::Text;
    }
    if eq6(ext, 114, 101, 97, 100, 109, 101) {
        return CompressionType::Text;
    }
    if eq7(ext, 108, 105, 99, 101, 110, 115, 101) {
        return CompressionType::Text;
    }
    if eq7(ext, 108, 105, 99, 101, 110, 99, 101) {
        return CompressionType::Text;
    }
    if eq9(ext, 99, 111, 112, 121, 114, 105, 103, 104, 116) {
        return CompressionType::Text;
    }
    if eq2(ext, 112, 111) {
        return CompressionType::Text;
    }
    if eq2(ext, 109, 111) {
        return CompressionType::Text;
    }
    if eq3(ext, 114, 100, 102) {
        return CompressionType::Text;
    }
    if eq4(ext, 113, 100, 111, 99) {
        return CompressionType::Text;
    }
    if eq8(ext, 109, 97, 110, 105, 102, 101, 115, 116) {
        return CompressionType::Text;
    }
    if eq8(ext, 109, 97, 107, 101, 102, 105, 108, 101) {
        return CompressionType::Conf;
    }
    if eq2(ext, 105, 110) {
        return CompressionType::Conf;
    }
    if eq2(ext, 109, 52) {
        return CompressionType::Conf;
    }
    if eq2(ext, 109, 107) {
        return CompressionType::Conf;
    }
    if eq3(ext, 112, 114, 111) {
        return CompressionType::Conf;
    }
    if eq5(ext, 114, 117, 108, 101, 115) {
        return CompressionType::Conf;
    }
    if eq3(ext, 105, 110, 99) {
        return CompressionType::Conf;
    }
    if eq2(ext, 97, 109) {
        return CompressionType::Conf;
    }
    if eq5(ext, 98, 117, 105, 108, 100) {
        return CompressionType::Conf;
    }
    if eq5(ext, 99, 109, 97, 107, 101) {
        return CompressionType::Conf;
    }
    if eq3(ext, 103, 121, 112) {
        return CompressionType::Conf;
    }
    if eq9(ext, 103, 105, 116, 105, 103, 110, 111, 114, 101) {
        return CompressionType::Conf;
    }
    if eq10(ext, 112, 114, 111, 112, 101, 114, 116, 105, 101, 115) {
        return CompressionType::Conf;
    }
    if eq3(ext, 105, 110, 105) {
        return CompressionType::Conf;
    }
    if eq4(ext, 106, 115, 111, 110) {
        return CompressionType::Conf;
    }
    if eq3(ext, 99, 102, 103) {
        return CompressionType::Conf;
    }
    if eq4(ext, 99, 111, 110, 102) {
        return CompressionType::Conf;
    }
    if eq4(ext, 121, 97, 109, 108) {
        return CompressionType::Conf;
    }
    if eq3(ext, 113, 109, 108) {
        return CompressionType::Conf;
    }
    if eq2(ext, 115, 104) {
        return CompressionType::Conf;
    }
    if eq1(ext, 99) {
        return CompressionType::C;
    }
    if eq3(ext, 99, 112, 112) {
        return CompressionType::C;
    }
    if eq2(ext, 99, 99) {
        return CompressionType::C;
    }
    if eq3(ext, 99, 120, 120) {
        return CompressionType::C;
    }
    if eq1(ext, 104) {
        return CompressionType::C;
    }
    if eq3(ext, 104, 112, 112) {
        return CompressionType::C;
    }
    if eq3(ext, 104, 120, 120) {
        return CompressionType::C;
    }
    if eq1(ext, 100) {
        return CompressionType::C;
    }
    if eq2(ext, 109, 108) {
        return CompressionType::C;
    }
    if eq2(ext, 104, 104) {
        return CompressionType::C;
    }
    if eq3(ext, 105, 100, 108) {
        return CompressionType::C;
    }
    if eq2(ext, 99, 115) {
        return CompressionType::Code;
    }
    if eq2(ext, 103, 111) {
        return CompressionType::Code;
    }
    if eq2(ext, 104, 115) {
        return CompressionType::Code;
    }
    if eq4(ext, 106, 97, 118, 97) {
        return CompressionType::Code;
    }
    if eq2(ext, 108, 108) {
        return CompressionType::Code;
    }
    if eq3(ext, 112, 104, 112) {
        return CompressionType::Code;
    }
    if eq4(ext, 112, 104, 112, 116) {
        return CompressionType::Code;
    }
    if eq2(ext, 112, 108) {
        return CompressionType::Code;
    }
    if eq2(ext, 112, 109) {
        return CompressionType::Code;
    }
    if eq2(ext, 112, 121) {
        return CompressionType::Code;
    }
    if eq2(ext, 114, 98) {
        return CompressionType::Code;
    }
    if eq2(ext, 114, 115) {
        return CompressionType::Code;
    }
    if eq1(ext, 115) {
        return CompressionType::Code;
    }
    if eq3(ext, 104, 116, 109) {
        return CompressionType::Web;
    }
    if eq4(ext, 104, 116, 109, 108) {
        return CompressionType::Web;
    }
    if eq5(ext, 120, 104, 116, 109, 108) {
        return CompressionType::Web;
    }
    if eq2(ext, 106, 115) {
        return CompressionType::Web;
    }
    if eq3(ext, 115, 106, 115) {
        return CompressionType::Web;
    }
    if eq3(ext, 100, 116, 100) {
        return CompressionType::Web;
    }
    if eq3(ext, 120, 109, 108) {
        return CompressionType::Web;
    }
    if eq3(ext, 115, 118, 103) {
        return CompressionType::Web;
    }
    if eq3(ext, 120, 104, 116) {
        return CompressionType::Web;
    }
    if eq3(ext, 120, 117, 108) {
        return CompressionType::Web;
    }
    if eq3(ext, 99, 115, 115) {
        return CompressionType::Web;
    }

    // no extension arm matched: fall back on the well-known names
    let mut readme: Vec<u8> = Vec::new();
    readme.push(114);
    readme.push(101);
    readme.push(97);
    readme.push(100);
    readme.push(109);
    readme.push(101);
    let mut license: Vec<u8> = Vec::new();
    license.push(108);
    license.push(105);
    license.push(99);
    license.push(101);
    license.push(110);
    license.push(115);
    license.push(101);
    let mut licence: Vec<u8> = Vec::new();
    licence.push(108);
    licence.push(105);
    licence.push(99);
    licence.push(101);
    licence.push(110);
    licence.push(99);
    licence.push(101);
    proof {
        assert(readme@ =~= seq![114u8, 101u8, 97u8, 100u8, 109u8, 101u8]);
        assert(license@ =~= seq![108u8, 105u8, 99u8, 101u8, 110u8, 115u8, 101u8]);
        assert(licence@ =~= seq![108u8, 105u8, 99u8, 101u8, 110u8, 99u8, 101u8]);
    }
    if crate::grep::find_bytes(fs, readme.as_slice()).is_some() {
        return CompressionType::Text;
    }
    if crate::grep::find_bytes(fs, license.as_slice()).is_some() {
        return CompressionType::Text;
    }
    if crate::grep::find_bytes(fs, licence.as_slice()).is_some() {
        return CompressionType::Text;
    }
    CompressionType::Other
}

/// The leading directory a package's sources are filed under: the first
/// four characters for `lib` packages, the first character otherwise.
pub fn subdir(name: &str) -> (r: &str)
    requires
        name.is_ascii(),
        name@.len() >= 1,
        name@.len() >= 3 && name@.subrange(0, 3) == "lib"@ ==> name@.len() >= 4,
    ensures
        (name@.len() >= 3 && name@.subrange(0, 3) == "lib"@) ==> r@ == name@.subrange(0, 4),
        !(name@.len() >= 3 && name@.subrange(0, 3) == "lib"@) ==> r@ == name@.subrange(0, 1),
{
    let n: usize = name.unicode_len();
    let is_lib: bool = if n >= 3 {
        let b = name.as_bytes();
        proof {
            reveal_strlit("lib");
            assert(b@.len() == name@.len());
            assert(b@[0] == name@[0] as u8);
            assert(b@[1] == name@[1] as u8);
            assert(b@[2] == name@[2] as u8);
            if name@.subrange(0, 3) == "lib"@ {
                assert(name@.subrange(0, 3)[0] == name@[0]);
                assert(name@.subrange(0, 3)[1] == name@[1]);
                assert(name@.subrange(0, 3)[2] == name@[2]);
            }
        }
        let r = b[0] == 108 && b[1] == 105 && b[2] == 98;
        proof {
            if r {
                assert(name@.subrange(0, 3) =~= "lib"@);
            }
        }
        r
    } else {
        false
    };
    if is_lib {
        name.substring_ascii(0, 4)
    } else {
        name.substring_ascii(0, 1)
    }
}

} // verus!
