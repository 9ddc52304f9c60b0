//! The outside services of the ingest path: lz4 framing, SHA-256 content
//! hashes, and the base32 spelling of a hash.
//!
//! The calls into the outside crates are confined to small trusted
//! wrappers; everything around them — the text check, the lowercase
//! folding of an encoded hash, the combination of the three — is verified.

use vstd::prelude::*;
use vstd::string::StrSliceExecFns;
use vstd::string::StringExecFns;

use crate::text::{is_text, spec_is_text};
use crate::Error;

verus! {

/// What decoding one lz4 frame yields on a byte string, when it succeeds:
/// a pure function of the bytes alone.
pub uninterp spec fn lz4_unpacked(s: Seq<u8>) -> Option<Seq<u8>>;

/// The 32-byte SHA-256 digest of a byte string.
pub uninterp spec fn sha256_of(s: Seq<u8>) -> Seq<u8>;

/// The RFC 4648 base32 spelling (without padding) of a byte string.
pub uninterp spec fn base32_nopad_of(s: Seq<u8>) -> Seq<char>;

/// A character of the RFC 4648 base32 alphabet.
pub open spec fn base32_alphabet_char(c: char) -> bool {
    ('A' <= c <= 'Z') || ('2' <= c <= '7')
}

/// Relies on `lz4::EncoderBuilder` and `lz4::Encoder`: compresses `data`
/// into one lz4 frame, which lz4's own decoder restores to exactly `data`.
/// Compressing into memory has no failure mode of its own: the one way the
/// encoder can fail is allocator exhaustion, which aborts here exactly as
/// an exhausted allocation aborts everywhere else.
#[verifier::external_body]
pub(crate) fn lz4_compress(data: &Vec<u8>) -> (r: Vec<u8>)
    ensures
        lz4_unpacked(r@) == Some(data@),
{
    let mut enc = lz4::EncoderBuilder::new()
        .build(Vec::new())
        .expect("allocating the lz4 encoder");
    std::io::Write::write_all(&mut enc, data.as_slice()).expect("writing into memory");
    let (out, res) = enc.finish();
    res.expect("flushing into memory");
    out
}

/// Relies on `lz4::Decoder`: restores the payload of one lz4 frame, and
/// rejects bytes that do not decode.  Reading from a byte slice, both the
/// payload and the rejection are functions of the input bytes alone.
#[verifier::external_body]
pub(crate) fn lz4_decompress(data: &Vec<u8>) -> (r: Result<Vec<u8>, Error>)
    ensures
        r matches Ok(d) ==> lz4_unpacked(data@) == Some(d@),
        r matches Err(e) ==> e == Error::Io && lz4_unpacked(data@) is None,
{
    let mut dec = match lz4::Decoder::new(data.as_slice()) {
        Ok(d) => d,
        Err(_) => return Err(Error::Io),
    };
    let mut out = Vec::new();
    match std::io::Read::read_to_end(&mut dec, &mut out) {
        Ok(_) => Ok(out),
        Err(_) => Err(Error::Io),
    }
}

/// Relies on `sha2::Sha256`: the 32-byte SHA-256 digest of `data`, a pure
/// function of the bytes alone.
#[verifier::external_body]
pub(crate) fn sha256(data: &Vec<u8>) -> (r: [u8; 32])
    ensures
        r@ == sha256_of(data@),
{
    let d = <sha2::Sha256 as sha2::Digest>::digest(data.as_slice());
    let mut out = [0u8; 32];
    out.copy_from_slice(&d);
    out
}

/// Relies on `base32::encode` with the RFC 4648 alphabet and no padding:
/// the base32 spelling of `data`, drawn from the characters A-Z and 2-7
/// alone, five bits per character rounded up.
#[verifier::external_body]
fn base32_rfc4648_nopad(data: &[u8]) -> (r: String)
    ensures
        r@ == base32_nopad_of(data@),
        r@.len() == (data@.len() * 8 + 4) / 5,
        forall|i: int| 0 <= i < r@.len() ==> base32_alphabet_char(#[trigger] r@[i]),
{
    base32::encode(base32::Alphabet::Rfc4648 { padding: false }, data)
}

/// The lowercase twin of `c`: letters fold down, everything else stays.
pub open spec fn spec_lower_char(c: char) -> char {
    if c == 'A' {
        'a'
    } else if c == 'B' {
        'b'
    } else if c == 'C' {
        'c'
    } else if c == 'D' {
        'd'
    } else if c == 'E' {
        'e'
    } else if c == 'F' {
        'f'
    } else if c == 'G' {
        'g'
    } else if c == 'H' {
        'h'
    } else if c == 'I' {
        'i'
    } else if c == 'J' {
        'j'
    } else if c == 'K' {
        'k'
    } else if c == 'L' {
        'l'
    } else if c == 'M' {
        'm'
    } else if c == 'N' {
        'n'
    } else if c == 'O' {
        'o'
    } else if c == 'P' {
        'p'
    } else if c == 'Q' {
        'q'
    } else if c == 'R' {
        'r'
    } else if c == 'S' {
        's'
    } else if c == 'T' {
        't'
    } else if c == 'U' {
        'u'
    } else if c == 'V' {
        'v'
    } else if c == 'W' {
        'w'
    } else if c == 'X' {
        'x'
    } else if c == 'Y' {
        'y'
    } else if c == 'Z' {
        'z'
    } else {
        c
    }
}

/// The character sequence with every letter folded to lowercase.
pub open spec fn spec_lower_seq(s: Seq<char>) -> Seq<char> {
    Seq::new(s.len(), |i: int| spec_lower_char(s[i]))
}

/// The lowercase of one base32-alphabet character, as a one-character
/// string.
fn lower_alphabet_str(c: char) -> (r: &'static str)
    requires
        base32_alphabet_char(c),
    ensures
        r@.len() == 1,
        r@[0] == spec_lower_char(c),
{
    let r: &'static str = if c == 'A' {
        "a"
    } else if c == 'B' {
        "b"
    } else if c == 'C' {
        "c"
    } else if c == 'D' {
        "d"
    } else if c == 'E' {
        "e"
    } else if c == 'F' {
        "f"
    } else if c == 'G' {
        "g"
    } else if c == 'H' {
        "h"
    } else if c == 'I' {
        "i"
    } else if c == 'J' {
        "j"
    } else if c == 'K' {
        "k"
    } else if c == 'L' {
        "l"
    } else if c == 'M' {
        "m"
    } else if c == 'N' {
        "n"
    } else if c == 'O' {
        "o"
    } else if c == 'P' {
        "p"
    } else if c == 'Q' {
        "q"
    } else if c == 'R' {
        "r"
    } else if c == 'S' {
        "s"
    } else if c == 'T' {
        "t"
    } else if c == 'U' {
        "u"
    } else if c == 'V' {
        "v"
    } else if c == 'W' {
        "w"
    } else if c == 'X' {
        "x"
    } else if c == 'Y' {
        "y"
    } else if c == 'Z' {
        "z"
    } else if c == '2' {
        "2"
    } else if c == '3' {
        "3"
    } else if c == '4' {
        "4"
    } else if c == '5' {
        "5"
    } else if c == '6' {
        "6"
    } else {
        "7"
    };
    proof {
        reveal_strlit("a");
        reveal_strlit("b");
        reveal_strlit("c");
        reveal_strlit("d");
        reveal_strlit("e");
        reveal_strlit("f");
        reveal_strlit("g");
        reveal_strlit("h");
        reveal_strlit("i");
        reveal_strlit("j");
        reveal_strlit("k");
        reveal_strlit("l");
        reveal_strlit("m");
        reveal_strlit("n");
        reveal_strlit("o");
        reveal_strlit("p");
        reveal_strlit("q");
        reveal_strlit("r");
        reveal_strlit("s");
        reveal_strlit("t");
        reveal_strlit("u");
        reveal_strlit("v");
        reveal_strlit("w");
        reveal_strlit("x");
        reveal_strlit("y");
        reveal_strlit("z");
        reveal_strlit("2");
        reveal_strlit("3");
        reveal_strlit("4");
        reveal_strlit("5");
        reveal_strlit("6");
        reveal_strlit("7");
    }
    r
}

/// A lowercase character of the spelled-out alphabet: a letter or one of
/// the digits 2 through 7.
pub open spec fn encoded_hash_char(c: char) -> bool {
    ('a' <= c <= 'z') || ('2' <= c <= '7')
}

/// The lowercase base32 spelling of a content hash, as stored beside each
/// blob and used in blob filenames: five bits per character, rounded up,
/// over the characters a-z and 2-7 alone.
pub fn encode_hash(hash: &[u8]) -> (r: String)
    ensures
        r@ == spec_lower_seq(base32_nopad_of(hash@)),
        r@.len() == (hash@.len() * 8 + 4) / 5,
        forall|i: int| 0 <= i < r@.len() ==> encoded_hash_char(#[trigger] r@[i]),
{
    let encoded = base32_rfc4648_nopad(hash);
    let n: usize = encoded.as_str().unicode_len();
    let mut r = String::new();
    let mut i: usize = 0;
    while i < n
        invariant
            n == encoded@.len(),
            i <= n,
            encoded@ == base32_nopad_of(hash@),
            forall|j: int| 0 <= j < n ==> base32_alphabet_char(#[trigger] encoded@[j]),
            r@ == spec_lower_seq(encoded@).subrange(0, i as int),
        decreases n - i,
    {
        let c = encoded.as_str().get_char(i);
        r.append(lower_alphabet_str(c));
        i = i + 1;
        proof {
            assert(r@ =~= spec_lower_seq(encoded@).subrange(0, i as int));
        }
    }
    proof {
        assert(spec_lower_seq(encoded@).subrange(0, n as int) =~= spec_lower_seq(encoded@));
        assert forall|k: int| 0 <= k < r@.len() implies encoded_hash_char(#[trigger] r@[k]) by {
            assert(base32_alphabet_char(encoded@[k]));
            assert(r@[k] == spec_lower_char(encoded@[k]));
        }
    }
    r
}

/// Compresses a blob, hashes it, and classifies it: the lz4 frame that
/// restores to exactly `buf`, the SHA-256 digest of `buf`, and whether
/// `buf` is text.
pub fn hash_compress_write_from_slice(buf: &Vec<u8>) -> (r: (Vec<u8>, [u8; 32], bool))
    ensures
        lz4_unpacked(r.0@) == Some(buf@),
        r.1@ == sha256_of(buf@),
        r.2 == spec_is_text(buf@),
{
    let packed = lz4_compress(buf);
    let digest = sha256(buf);
    let text = is_text(buf.as_slice());
    (packed, digest, text)
}

} // verus!
