//! Shard identifiers and the filename bijection for pack-file families.
//!
//! Blobs are routed into one of sixteen shards: eight size-magnitude classes
//! (2 through 9, the clamped decimal magnitude of the blob length) times two
//! content kinds (text and binary).  A global position carries the shard id
//! in its low 4 bits; the remainder encodes `file_number * BLOCK_SIZE +
//! in_file_offset`.  Filenames spell out the shard and the file number, and
//! parsing a filename back yields the addendum that turns a local offset
//! into a global position.  The encoding and the parse are exact inverses;
//! `lemma_position_name_round_trip` states that bijection.

use vstd::prelude::*;
use vstd::arithmetic::div_mod::{
    lemma_div_denominator, lemma_fundamental_div_mod, lemma_mod_bound,
};
use vstd::arithmetic::mul::{lemma_mul_inequality, lemma_mul_is_distributive_add_other_way};
use vstd::string::StringSliceAdditionalSpecFns;

verus! {

broadcast use vstd::string::is_ascii_spec_bytes;

/// Pack files are rotated once an entry would start at or past this size.
pub const BLOCK_SIZE: u64 = 0x4000_0000;

/// The smallest magnitude class.
pub const MIN_SHARD_NO: u8 = 2;

/// Shards of text blobs sit this far above their binary twins.
pub const SHARD_NO_TEXT_OFFSET: u8 = 8;

/// The number of digits a filename spends on the file number.
pub const FILE_NUMBER_DIGITS: usize = 22;

/// The decimal magnitude of `size` clamped to `[2, 9]`, with 0 in class 2:
/// one less than the number of decimal digits of `size`, clamped.
pub open spec fn spec_shard_magnitude(size: int) -> int {
    if size < 1000 {
        2
    } else if size < 10000 {
        3
    } else if size < 100000 {
        4
    } else if size < 1000000 {
        5
    } else if size < 10000000 {
        6
    } else if size < 100000000 {
        7
    } else if size < 1000000000 {
        8
    } else {
        9
    }
}

/// The shard id in `[0, 16)` for a blob of length `len`: magnitude class
/// above the minimum, plus the text offset for text blobs.
pub open spec fn spec_shard_id(len: int, text: bool) -> int {
    spec_shard_magnitude(len) - MIN_SHARD_NO + if text {
        SHARD_NO_TEXT_OFFSET as int
    } else {
        0
    }
}

/// The size-magnitude class of a blob of `size` bytes.
pub fn make_shard_magic(size: u64) -> (r: u8)
    ensures
        r == spec_shard_magnitude(size as int),
        2 <= r <= 9,
{
    if size < 1000 {
        2
    } else if size < 10000 {
        3
    } else if size < 100000 {
        4
    } else if size < 1000000 {
        5
    } else if size < 10000000 {
        6
    } else if size < 100000000 {
        7
    } else if size < 1000000000 {
        8
    } else {
        9
    }
}

/// The size-magnitude class, under the name the ingest pipeline uses.
pub fn make_shard_no(size: u64) -> (r: u8)
    ensures
        r == spec_shard_magnitude(size as int),
        2 <= r <= 9,
{
    make_shard_magic(size)
}

/// The magnitude classification never decreases as sizes grow, and is
/// always within `[2, 9]`.
pub proof fn lemma_shard_magnitude_monotonic(a: int, b: int)
    requires
        a <= b,
    ensures
        spec_shard_magnitude(a) <= spec_shard_magnitude(b),
        2 <= spec_shard_magnitude(a) <= 9,
{
}

/// `"text"` for text blobs, `"bin"` for the rest.
pub fn text_otherwise_bin(text: bool) -> (r: &'static str)
    ensures
        text ==> r@ == "text"@,
        !text ==> r@ == "bin"@,
{
    if text {
        "text"
    } else {
        "bin"
    }
}

/// The base filename of shard `magic`'s pack family: `<bin|text>-<2..9>`,
/// binary shards first.
pub open spec fn spec_name_for_magic(magic: int) -> Seq<char> {
    if magic == 0 {
        "bin-2"@
    } else if magic == 1 {
        "bin-3"@
    } else if magic == 2 {
        "bin-4"@
    } else if magic == 3 {
        "bin-5"@
    } else if magic == 4 {
        "bin-6"@
    } else if magic == 5 {
        "bin-7"@
    } else if magic == 6 {
        "bin-8"@
    } else if magic == 7 {
        "bin-9"@
    } else if magic == 8 {
        "text-2"@
    } else if magic == 9 {
        "text-3"@
    } else if magic == 10 {
        "text-4"@
    } else if magic == 11 {
        "text-5"@
    } else if magic == 12 {
        "text-6"@
    } else if magic == 13 {
        "text-7"@
    } else if magic == 14 {
        "text-8"@
    } else {
        "text-9"@
    }
}

/// Builds shard `magic`'s base filename, `bin-2` through `text-9`.
pub fn name_for_magic(magic: u8) -> (r: String)
    requires
        magic < 16,
    ensures
        r@ == spec_name_for_magic(magic as int),
{
    let s: &str = if magic == 0 {
        "bin-2"
    } else if magic == 1 {
        "bin-3"
    } else if magic == 2 {
        "bin-4"
    } else if magic == 3 {
        "bin-5"
    } else if magic == 4 {
        "bin-6"
    } else if magic == 5 {
        "bin-7"
    } else if magic == 6 {
        "bin-8"
    } else if magic == 7 {
        "bin-9"
    } else if magic == 8 {
        "text-2"
    } else if magic == 9 {
        "text-3"
    } else if magic == 10 {
        "text-4"
    } else if magic == 11 {
        "text-5"
    } else if magic == 12 {
        "text-6"
    } else if magic == 13 {
        "text-7"
    } else if magic == 14 {
        "text-8"
    } else {
        "text-9"
    };
    String::from_str(s)
}

/// The shard id (0 through 15) a blob of length `len` is routed to.
pub fn magic_offset_only(len: u64, text: bool) -> (r: u8)
    ensures
        r == spec_shard_id(len as int, text),
        r < 16,
{
    make_shard_magic(len) - MIN_SHARD_NO + if text {
        SHARD_NO_TEXT_OFFSET
    } else {
        0
    }
}

/// The base filename together with the shard id that is folded into
/// positions of blobs stored in that shard.
pub fn magic_offset(len: u64, text: bool) -> (r: (String, u8))
    ensures
        r.0@ == spec_name_for_magic(spec_shard_id(len as int, text)),
        r.1 == spec_shard_id(len as int, text),
        r.1 < 16,
{
    let shard_id = magic_offset_only(len, text);
    (name_for_magic(shard_id), shard_id)
}

/// Ten to the power `n`.
pub open spec fn pow10(n: nat) -> int
    decreases n,
{
    if n == 0 {
        1
    } else {
        10 * pow10((n - 1) as nat)
    }
}

/// The character for decimal digit `d`.
pub open spec fn digit_char(d: int) -> char {
    if d == 0 {
        '0'
    } else if d == 1 {
        '1'
    } else if d == 2 {
        '2'
    } else if d == 3 {
        '3'
    } else if d == 4 {
        '4'
    } else if d == 5 {
        '5'
    } else if d == 6 {
        '6'
    } else if d == 7 {
        '7'
    } else if d == 8 {
        '8'
    } else {
        '9'
    }
}

/// `v` written out in decimal, zero-padded to exactly `width` digits,
/// most significant digit first.
pub open spec fn spec_padded_dec(v: int, width: nat) -> Seq<char> {
    Seq::new(width, |j: int| digit_char((v / pow10((width - 1 - j) as nat)) % 10))
}

/// The numeric value of a sequence of decimal digit characters, most
/// significant first.
pub open spec fn spec_dec_value(s: Seq<char>) -> int
    decreases s.len(),
{
    if s.len() == 0 {
        0
    } else {
        spec_dec_value(s.drop_last()) * 10 + (s.last() as int - 48)
    }
}

/// Every character of `s` is a decimal digit.
pub open spec fn all_digits(s: Seq<char>) -> bool {
    forall|i: int| 0 <= i < s.len() ==> '0' <= #[trigger] s[i] <= '9'
}

pub proof fn lemma_pow10_positive(n: nat)
    ensures
        pow10(n) >= 1,
    decreases n,
{
    if n > 0 {
        lemma_pow10_positive((n - 1) as nat);
    }
}

/// A digit string's value is non-negative and below `pow10` of its length.
pub proof fn lemma_dec_value_bounds(s: Seq<char>)
    requires
        all_digits(s),
    ensures
        0 <= spec_dec_value(s) < pow10(s.len()),
    decreases s.len(),
{
    if s.len() > 0 {
        assert(all_digits(s.drop_last()));
        lemma_dec_value_bounds(s.drop_last());
        assert('0' <= s[s.len() - 1] <= '9');
        assert(0 <= s.last() as int - 48 <= 9);
        lemma_pow10_positive((s.len() - 1) as nat);
        lemma_mul_inequality(
            spec_dec_value(s.drop_last()),
            pow10((s.len() - 1) as nat) - 1,
            10,
        );
    }
}

/// Splitting a digit string at `k` splits its value positionally.
pub proof fn lemma_dec_value_split(s: Seq<char>, k: int)
    requires
        0 <= k <= s.len(),
    ensures
        spec_dec_value(s) == spec_dec_value(s.subrange(0, k)) * pow10((s.len() - k) as nat)
            + spec_dec_value(s.subrange(k, s.len() as int)),
    decreases s.len() - k,
{
    if k == s.len() {
        assert(s.subrange(0, k) =~= s);
        assert(s.subrange(k, s.len() as int) =~= Seq::<char>::empty());
    } else {
        let s2 = s.drop_last();
        lemma_dec_value_split(s2, k);
        assert(s2.subrange(0, k) =~= s.subrange(0, k));
        assert(s.subrange(k, s.len() as int).drop_last() =~= s2.subrange(k, s2.len() as int));
        assert(s.subrange(k, s.len() as int).last() == s.last());
        assert(s.subrange(k, s.len() as int).len() > 0);
        let a = spec_dec_value(s.subrange(0, k));
        let b = spec_dec_value(s2.subrange(k, s2.len() as int));
        let p = pow10((s2.len() - k) as nat);
        assert(spec_dec_value(s) == (a * p + b) * 10 + (s.last() as int - 48));
        assert((a * p + b) * 10 == a * p * 10 + b * 10) by {
            lemma_mul_is_distributive_add_other_way(10, a * p, b);
        }
        assert(a * p * 10 == a * (p * 10)) by {
            vstd::arithmetic::mul::lemma_mul_is_associative(a, p, 10);
        }
        assert(p * 10 == pow10((s.len() - k) as nat));
        assert(spec_dec_value(s.subrange(k, s.len() as int)) == b * 10 + (s.last() as int - 48));
    }
}

/// Writing a value in padded decimal and reading it back is the identity,
/// as long as the value fits the width.
pub proof fn lemma_padded_dec_round_trip(v: int, width: nat)
    requires
        0 <= v < pow10(width),
    ensures
        spec_padded_dec(v, width).len() == width,
        all_digits(spec_padded_dec(v, width)),
        spec_dec_value(spec_padded_dec(v, width)) == v,
    decreases width,
{
    let s = spec_padded_dec(v, width);
    assert forall|j: int| 0 <= j < s.len() implies '0' <= #[trigger] s[j] <= '9' by {
        let e = (width - 1 - j) as nat;
        lemma_pow10_positive(e);
        lemma_mod_bound(v / pow10(e), 10);
        vstd::arithmetic::div_mod::lemma_div_pos_is_pos(v, pow10(e));
    }
    if width == 0 {
    } else {
        let w1 = (width - 1) as nat;
        lemma_pow10_positive(w1);
        assert(v / 10 < pow10(w1)) by {
            lemma_fundamental_div_mod(v, 10);
            lemma_mod_bound(v, 10);
            if v / 10 >= pow10(w1) {
                lemma_mul_inequality(pow10(w1), v / 10, 10);
            }
        }
        vstd::arithmetic::div_mod::lemma_div_pos_is_pos(v, 10);
        lemma_padded_dec_round_trip(v / 10, w1);
        assert(s.drop_last() =~= spec_padded_dec(v / 10, w1)) by {
            assert forall|j: int| 0 <= j < width - 1 implies s[j] == spec_padded_dec(v / 10, w1)[j]
                by {
                let e = (width - 2 - j) as nat;
                lemma_pow10_positive(e);
                lemma_div_denominator(v, 10, pow10(e));
                assert(pow10((width - 1 - j) as nat) == 10 * pow10(e));
            }
        }
        assert(s.last() == digit_char(v % 10)) by {
            assert(pow10(0) == 1);
            vstd::arithmetic::div_mod::lemma_div_basics(v);
        }
        lemma_mod_bound(v, 10);
        assert(s.last() as int - 48 == v % 10);
        lemma_fundamental_div_mod(v, 10);
    }
}

/// The string `"0"` through `"9"` for digit `d`.
fn digit_str(d: u8) -> (r: &'static str)
    requires
        d < 10,
    ensures
        r@.len() == 1,
        r@[0] == digit_char(d as int),
{
    let r: &'static str = if d == 0 {
        "0"
    } else if d == 1 {
        "1"
    } else if d == 2 {
        "2"
    } else if d == 3 {
        "3"
    } else if d == 4 {
        "4"
    } else if d == 5 {
        "5"
    } else if d == 6 {
        "6"
    } else if d == 7 {
        "7"
    } else if d == 8 {
        "8"
    } else {
        "9"
    };
    proof {
        reveal_strlit("0");
        reveal_strlit("1");
        reveal_strlit("2");
        reveal_strlit("3");
        reveal_strlit("4");
        reveal_strlit("5");
        reveal_strlit("6");
        reveal_strlit("7");
        reveal_strlit("8");
        reveal_strlit("9");
    }
    r
}

/// The filename the record at position `pos` lives in: the shard's base
/// name, a dot, and the 22-digit zero-padded file number.
pub open spec fn spec_filename_for(pos: int) -> Seq<char> {
    spec_name_for_magic(pos % 16) + seq!['.'] + spec_padded_dec(
        (pos - pos % 16) / (BLOCK_SIZE as int),
        FILE_NUMBER_DIGITS as nat,
    )
}

/// The filename holding position `pos`, together with the offset of the
/// record within that file.
pub fn filename_for(pos: u64) -> (r: (String, u32))
    ensures
        r.0@ == spec_filename_for(pos as int),
        r.1 == (pos - pos % 16) % (BLOCK_SIZE as int),
{
    let magic: u8 = (pos % 16) as u8;
    let real_pos: u64 = pos - magic as u64;
    let file_number: u64 = real_pos / BLOCK_SIZE;
    let file_pos: u32 = (real_pos % BLOCK_SIZE) as u32;

    let mut name = name_for_magic(magic);
    name.append(".");
    proof {
        reveal_strlit(".");
        assert(name@ =~= spec_name_for_magic(pos as int % 16) + seq!['.']);
    }

    let mut digits: Vec<u8> = Vec::new();
    let mut v: u64 = file_number;
    let mut i: usize = 0;
    while i < FILE_NUMBER_DIGITS
        invariant
            i <= FILE_NUMBER_DIGITS,
            digits@.len() == i,
            v == file_number as int / pow10(i as nat),
            forall|j: int|
                0 <= j < i ==> #[trigger] digits@[j] == (file_number as int / pow10(j as nat))
                    % 10,
        decreases FILE_NUMBER_DIGITS - i,
    {
        proof {
            lemma_pow10_positive(i as nat);
            lemma_div_denominator(file_number as int, pow10(i as nat), 10);
        }
        digits.push((v % 10) as u8);
        v = v / 10;
        i = i + 1;
    }

    let ghost base: Seq<char> = name@;
    let mut k: usize = 0;
    while k < FILE_NUMBER_DIGITS
        invariant
            k <= FILE_NUMBER_DIGITS,
            digits@.len() == FILE_NUMBER_DIGITS,
            forall|j: int|
                0 <= j < FILE_NUMBER_DIGITS ==> #[trigger] digits@[j] == (file_number as int
                    / pow10(j as nat)) % 10,
            name@ == base + Seq::new(
                k as nat,
                |j: int|
                    digit_char(
                        (file_number as int / pow10((FILE_NUMBER_DIGITS - 1 - j) as nat)) % 10,
                    ),
            ),
        decreases FILE_NUMBER_DIGITS - k,
    {
        let d: u8 = digits[FILE_NUMBER_DIGITS - 1 - k];
        proof {
            lemma_pow10_positive((FILE_NUMBER_DIGITS - 1 - k) as nat);
            lemma_mod_bound(
                file_number as int / pow10((FILE_NUMBER_DIGITS - 1 - k) as nat),
                10,
            );
            vstd::arithmetic::div_mod::lemma_div_pos_is_pos(
                file_number as int,
                pow10((FILE_NUMBER_DIGITS - 1 - k) as nat),
            );
        }
        name.append(digit_str(d));
        k = k + 1;
        proof {
            assert(name@ =~= base + Seq::new(
                k as nat,
                |j: int|
                    digit_char(
                        (file_number as int / pow10((FILE_NUMBER_DIGITS - 1 - j) as nat)) % 10,
                    ),
            ));
        }
    }
    proof {
        assert(name@ =~= spec_filename_for(pos as int)) by {
            assert(real_pos as int == pos as int - pos as int % 16);
            assert(Seq::new(
                FILE_NUMBER_DIGITS as nat,
                |j: int|
                    digit_char(
                        (file_number as int / pow10((FILE_NUMBER_DIGITS - 1 - j) as nat)) % 10,
                    ),
            ) =~= spec_padded_dec(file_number as int, FILE_NUMBER_DIGITS as nat));
        }
    }
    (name, file_pos)
}

/// The path is a pack-family filename: `text-` or `bin-`, a magnitude
/// digit between 2 and 9, a dot, then at least 22 digits of file number
/// small enough that the addendum fits a `u64`.
pub open spec fn valid_pack_path(s: Seq<char>) -> bool {
    let text = s.len() >= 5 && s.subrange(0, 5) == "text-"@;
    let p: int = if text {
        5
    } else {
        4
    };
    &&& (text || (s.len() >= 4 && s.subrange(0, 4) == "bin-"@))
    &&& s.len() >= p + 2 + FILE_NUMBER_DIGITS
    &&& '2' <= s[p] <= '9'
    &&& s[p + 1] == '.'
    &&& all_digits(s.subrange(p + 2, p + 2 + FILE_NUMBER_DIGITS))
    &&& spec_dec_value(s.subrange(p + 2, p + 2 + FILE_NUMBER_DIGITS)) < 0x4_0000_0000
}

/// Whether the path names a text shard.
pub open spec fn pack_path_is_text(s: Seq<char>) -> bool {
    s.len() >= 5 && s.subrange(0, 5) == "text-"@
}

/// The magnitude class a pack path names.
pub open spec fn spec_path_magnitude(s: Seq<char>) -> int {
    s[if pack_path_is_text(s) {
        5
    } else {
        4
    }] as int - 48
}

/// The addendum a pack path names: file number times block size, plus the
/// shard id.
pub open spec fn spec_path_addendum(s: Seq<char>) -> int {
    let p: int = if pack_path_is_text(s) {
        5
    } else {
        4
    };
    spec_dec_value(s.subrange(p + 2, p + 2 + FILE_NUMBER_DIGITS)) * (BLOCK_SIZE as int) + (
    spec_path_magnitude(s) - 2) + if pack_path_is_text(s) {
        8int
    } else {
        0int
    }
}

/// Parses an index or pack filename into the magnitude class and the
/// addendum that converts that file's local offsets to global positions.
pub fn addendum_from_path(path: &str) -> (r: (u8, u64))
    requires
        path.is_ascii(),
        valid_pack_path(path@),
    ensures
        r.0 == spec_path_magnitude(path@),
        r.1 == spec_path_addendum(path@),
{
    let bytes = path.as_bytes();
    let text: bool = bytes[0] == 116;
    proof {
        reveal_strlit("text-");
        reveal_strlit("bin-");
        if pack_path_is_text(path@) {
            assert(path@.subrange(0, 5)[0] == path@[0]);
            assert(path@[0] == 't');
        } else {
            assert(path@.subrange(0, 4)[0] == path@[0]);
            assert(path@[0] == 'b');
        }
        assert(bytes@.len() == path@.len());
        assert(bytes@[0] == path@[0] as u8);
        assert(text == pack_path_is_text(path@));
    }
    let p: usize = if text {
        5
    } else {
        4
    };
    proof {
        assert(bytes@.len() == path@.len());
        assert(bytes@[p as int] == path@[p as int] as u8);
        assert('2' <= path@[p as int] <= '9');
    }
    let size_raw: u8 = bytes[p] - 50;

    let ghost digits: Seq<char> = path@.subrange(
        p + 2,
        p as int + 2 + FILE_NUMBER_DIGITS as int,
    );
    let mut acc: u64 = 0;
    let mut i: usize = 0;
    while i < FILE_NUMBER_DIGITS
        invariant
            i <= FILE_NUMBER_DIGITS,
            path.is_ascii(),
            valid_pack_path(path@),
            text == pack_path_is_text(path@),
            p == if text {
                5int
            } else {
                4int
            },
            digits == path@.subrange(p + 2, p as int + 2 + FILE_NUMBER_DIGITS as int),
            bytes@ == path.spec_bytes(),
            acc == spec_dec_value(digits.subrange(0, i as int)),
            acc < 0x4_0000_0000,
        decreases FILE_NUMBER_DIGITS - i,
    {
        proof {
            assert(bytes@.len() == path@.len());
            assert(bytes@[p + 2 + i] == path@[p + 2 + i] as u8);
            assert(digits[i as int] == path@[p + 2 + i]);
            assert('0' <= digits[i as int] <= '9');
        }
        let d: u8 = bytes[p + 2 + i] - 48;
        proof {
            assert(digits.subrange(0, i + 1).drop_last() =~= digits.subrange(0, i as int));
            assert(digits.subrange(0, i + 1).last() == digits[i as int]);
            // the running prefix value never exceeds the whole number
            lemma_dec_value_split(digits, i + 1);
            assert(all_digits(digits.subrange(0, i + 1)));
            assert(all_digits(digits.subrange(i + 1, digits.len() as int)));
            lemma_dec_value_bounds(digits.subrange(0, i + 1));
            lemma_dec_value_bounds(digits.subrange(i + 1, digits.len() as int));
            lemma_pow10_positive((digits.len() - i - 1) as nat);
            lemma_mul_inequality(
                1,
                pow10((digits.len() - i - 1) as nat),
                spec_dec_value(digits.subrange(0, i + 1)),
            );
            vstd::arithmetic::mul::lemma_mul_is_commutative(
                spec_dec_value(digits.subrange(0, i + 1)),
                pow10((digits.len() - i - 1) as nat),
            );
        }
        acc = acc * 10 + d as u64;
        i = i + 1;
    }
    proof {
        assert(digits.subrange(0, FILE_NUMBER_DIGITS as int) =~= digits);
    }
    let addendum: u64 = acc * BLOCK_SIZE + size_raw as u64 + if text {
        8
    } else {
        0
    };
    (size_raw + 2, addendum)
}

/// The names bijection is load-bearing: parsing the filename that
/// `filename_for` assigns to a position, and adding back the local offset,
/// recovers exactly that position.
pub proof fn lemma_position_name_round_trip(pos: int)
    requires
        0 <= pos,
        (pos - pos % 16) / (BLOCK_SIZE as int) < 0x4_0000_0000,
    ensures
        valid_pack_path(spec_filename_for(pos)),
        spec_path_addendum(spec_filename_for(pos)) + (pos - pos % 16) % (BLOCK_SIZE as int)
            == pos,
        spec_path_magnitude(spec_filename_for(pos)) == pos % 16 % 8 + 2,
{
    let name = spec_filename_for(pos);
    let magic = pos % 16;
    lemma_mod_bound(pos, 16);
    let file_number = (pos - magic) / (BLOCK_SIZE as int);
    vstd::arithmetic::div_mod::lemma_div_pos_is_pos(pos - magic, BLOCK_SIZE as int);
    reveal_strlit("text-");
    reveal_strlit("bin-");
    reveal_strlit("bin-2");
    reveal_strlit("bin-3");
    reveal_strlit("bin-4");
    reveal_strlit("bin-5");
    reveal_strlit("bin-6");
    reveal_strlit("bin-7");
    reveal_strlit("bin-8");
    reveal_strlit("bin-9");
    reveal_strlit("text-2");
    reveal_strlit("text-3");
    reveal_strlit("text-4");
    reveal_strlit("text-5");
    reveal_strlit("text-6");
    reveal_strlit("text-7");
    reveal_strlit("text-8");
    reveal_strlit("text-9");
    assert(pow10(FILE_NUMBER_DIGITS as nat) == 10000000000000000000000) by {
        reveal_with_fuel(pow10, 23);
    }
    lemma_padded_dec_round_trip(file_number, FILE_NUMBER_DIGITS as nat);
    let text = magic >= 8;
    let base_len: int = if text {
        6
    } else {
        5
    };
    assert(spec_name_for_magic(magic).len() == base_len);
    let p: int = if text {
        5
    } else {
        4
    };
    assert(pack_path_is_text(name) == text) by {
        if text {
            assert(name.subrange(0, 5) =~= "text-"@);
        } else {
            if name.len() >= 5 {
                assert(name[0] == 'b');
                assert("text-"@[0] == 't');
            }
        }
    }
    assert(name.subrange(p + 2, p + 2 + FILE_NUMBER_DIGITS as int) =~= spec_padded_dec(
        file_number,
        FILE_NUMBER_DIGITS as nat,
    ));
    if !text {
        assert(name.subrange(0, 4) =~= "bin-"@);
    }
    assert(name[p] == digit_char(magic % 8 + 2)) by {
        vstd::arithmetic::div_mod::lemma_mod_bound(magic, 8);
    }
    assert('2' <= name[p] <= '9');
    assert(name[p + 1] == '.');
    assert(name[p] as int - 48 == magic % 8 + 2);
    assert(spec_path_addendum(name) == file_number * (BLOCK_SIZE as int) + magic % 8 + (if text {
        8int
    } else {
        0int
    }));
    assert(magic % 8 + (if text {
        8int
    } else {
        0int
    }) == magic) by {
        lemma_mod_bound(magic, 8);
        if text {
            assert(magic - 8 < 8);
            assert((magic - 8) % 8 == magic - 8) by {
                vstd::arithmetic::div_mod::lemma_small_mod((magic - 8) as nat, 8);
            }
            vstd::arithmetic::div_mod::lemma_mod_sub_multiples_vanish(magic, 8);
        } else {
            vstd::arithmetic::div_mod::lemma_small_mod(magic as nat, 8);
        }
    }
    assert(file_number * (BLOCK_SIZE as int) == pos - magic - (pos - magic) % (BLOCK_SIZE as int))
        by {
        lemma_fundamental_div_mod(pos - magic, BLOCK_SIZE as int);
    }
    assert((pos - pos % 16) % (BLOCK_SIZE as int) == (pos - magic) % (BLOCK_SIZE as int));
}

} // verus!
