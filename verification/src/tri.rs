//! Trigram extraction over a reduced 64-symbol alphabet.
//!
//! Every byte of a document folds onto one of 64 symbols: the letters
//! (case-folded together), the ten digits, and a shared bucket for
//! everything else.  A trigram code packs three consecutive folded symbols
//! into one integer below 64^3.  A document's trigram set is the
//! deduplicated collection of codes of all its three-byte windows; texts
//! shorter than three bytes yield the empty set.

use vstd::prelude::*;

verus! {

/// One more than the largest trigram code.
pub const MAX_TRI: u32 = 64 * 64 * 64;

/// Folds a byte onto the 64-symbol alphabet: letters case-folded to
/// 0..=25, digits to 26..=35, everything else to the shared bucket 36.
pub open spec fn spec_fold(b: u8) -> u8 {
    if 97 <= b <= 122 {
        (b - 97) as u8
    } else if 65 <= b <= 90 {
        (b - 65) as u8
    } else if 48 <= b <= 57 {
        (26 + b - 48) as u8
    } else {
        36u8
    }
}

/// The packed code of the three-byte window starting at `i`.
pub open spec fn spec_tri_at(s: Seq<u8>, i: int) -> u32 {
    (spec_fold(s[i]) as u32 * 4096 + spec_fold(s[i + 1]) as u32 * 64 + spec_fold(
        s[i + 2],
    ) as u32) as u32
}

/// The set of trigram codes of all three-byte windows of `s`.
pub open spec fn spec_trigram_set(s: Seq<u8>) -> Set<u32> {
    Set::new(|t: u32| exists|i: int| 0 <= i <= s.len() - 3 && t == spec_tri_at(s, i))
}

/// Folds one byte onto the 64-symbol alphabet.
pub fn fold_byte(b: u8) -> (r: u8)
    ensures
        r == spec_fold(b),
        r < 64,
{
    if b >= 97 && b <= 122 {
        b - 97
    } else if b >= 65 && b <= 90 {
        b - 65
    } else if b >= 48 && b <= 57 {
        26 + (b - 48)
    } else {
        36
    }
}

/// The ascending enumeration of the trigram codes of `s` below `n`.
pub open spec fn spec_tri_seq_upto(s: Seq<u8>, n: int) -> Seq<u32>
    decreases n,
{
    if n <= 0 {
        Seq::empty()
    } else {
        spec_tri_seq_upto(s, n - 1) + (if spec_trigram_set(s).contains((n - 1) as u32) {
            seq![(n - 1) as u32]
        } else {
            Seq::empty()
        })
    }
}

/// The trigram set of `s` written out as its unique ascending sequence.
pub open spec fn spec_tri_seq(s: Seq<u8>) -> Seq<u32> {
    spec_tri_seq_upto(s, MAX_TRI as int)
}

/// The ascending enumeration is strictly sorted, stays below its bound,
/// and holds exactly the set's codes below the bound.
pub proof fn lemma_tri_seq_upto_props(s: Seq<u8>, n: int)
    requires
        n <= MAX_TRI,
    ensures
        forall|a: int, b: int|
            0 <= a < b < spec_tri_seq_upto(s, n).len() ==> spec_tri_seq_upto(s, n)[a]
                < spec_tri_seq_upto(s, n)[b],
        forall|a: int|
            0 <= a < spec_tri_seq_upto(s, n).len() ==> #[trigger] spec_tri_seq_upto(s, n)[a] < n,
        forall|t: u32|
            spec_tri_seq_upto(s, n).contains(t) <==> (t < n && spec_trigram_set(s).contains(t)),
    decreases n,
{
    if n > 0 {
        lemma_tri_seq_upto_props(s, n - 1);
        let prev = spec_tri_seq_upto(s, n - 1);
        let cur = spec_tri_seq_upto(s, n);
        assert forall|a: int, b: int| 0 <= a < b < cur.len() implies cur[a] < cur[b] by {
            if b < prev.len() {
                assert(cur[a] == prev[a] && cur[b] == prev[b]);
            } else {
                assert(cur[a] == prev[a]);
                assert(cur[b] == (n - 1) as u32);
                assert(prev[a] < n - 1);
            }
        }
        assert forall|t: u32|
            cur.contains(t) <==> (t < n && spec_trigram_set(s).contains(t)) by {
            if cur.contains(t) {
                let i = choose|i: int| 0 <= i < cur.len() && cur[i] == t;
                if i < prev.len() {
                    assert(prev[i] == t);
                }
            }
            if t < n && spec_trigram_set(s).contains(t) {
                if t < n - 1 {
                    let i = choose|i: int| 0 <= i < prev.len() && prev[i] == t;
                    assert(cur[i] == t);
                } else {
                    assert(cur[cur.len() - 1] == t);
                }
            }
        }
    }
}

/// Two strictly ascending sequences with the same members are the same
/// sequence.
pub proof fn lemma_sorted_unique(a: Seq<u32>, b: Seq<u32>)
    requires
        forall|i: int, j: int| 0 <= i < j < a.len() ==> a[i] < a[j],
        forall|i: int, j: int| 0 <= i < j < b.len() ==> b[i] < b[j],
        forall|x: u32| a.contains(x) <==> b.contains(x),
    ensures
        a == b,
    decreases a.len(),
{
    if a.len() == 0 {
        if b.len() > 0 {
            assert(b.contains(b[0]));
        }
        assert(a =~= b);
    } else {
        assert(a.contains(a[0]));
        assert(b.len() > 0) by {
            assert(b.contains(a[0]));
        }
        assert(a[0] == b[0]) by {
            assert(b.contains(a[0]));
            assert(b.contains(b[0]));
            assert(a.contains(b[0]));
            let i = choose|i: int| 0 <= i < b.len() && b[i] == a[0];
            let j = choose|j: int| 0 <= j < a.len() && a[j] == b[0];
            assert(i == 0 || b[0] < b[i]);
            assert(j == 0 || a[0] < a[j]);
        }
        let a2 = a.drop_first();
        let b2 = b.drop_first();
        assert forall|x: u32| a2.contains(x) <==> b2.contains(x) by {
            lemma_tail_membership(a, x);
            lemma_tail_membership(b, x);
        }
        lemma_sorted_unique(a2, b2);
        assert(a =~= b) by {
            assert(forall|i: int| 1 <= i < a.len() ==> a[i] == a2[i - 1] && a2[i - 1] == b2[i
                - 1] && b2[i - 1] == b[i]);
        }
    }
}

/// In a strictly ascending sequence, the tail holds exactly the members
/// above the head.
proof fn lemma_tail_membership(a: Seq<u32>, x: u32)
    requires
        a.len() > 0,
        forall|i: int, j: int| 0 <= i < j < a.len() ==> a[i] < a[j],
    ensures
        a.drop_first().contains(x) <==> (a.contains(x) && x > a[0]),
{
    let t = a.drop_first();
    if t.contains(x) {
        let i = choose|i: int| 0 <= i < t.len() && t[i] == x;
        assert(a[i + 1] == x);
        assert(a[0] < a[i + 1]);
    }
    if a.contains(x) && x > a[0] {
        let i = choose|i: int| 0 <= i < a.len() && a[i] == x;
        assert(i != 0);
        assert(t[i - 1] == x);
    }
}

/// The full trigram set of `text`, as a strictly ascending vector of
/// codes: exactly the ascending enumeration of the codes of `text`'s
/// three-byte windows, each once.
pub fn trigrams_full(text: &[u8]) -> (r: Vec<u32>)
    ensures
        r@ == spec_tri_seq(text@),
        forall|a: int, b: int| 0 <= a < b < r@.len() ==> r@[a] < r@[b],
        forall|t: u32| r@.contains(t) <==> spec_trigram_set(text@).contains(t),
        forall|a: int| 0 <= a < r@.len() ==> r@[a] < MAX_TRI,
{
    let n = text.len();
    let mut seen: Vec<bool> = Vec::new();
    let mut z: usize = 0;
    while z < MAX_TRI as usize
        invariant
            z <= MAX_TRI,
            seen@.len() == z,
            forall|u: int| 0 <= u < z ==> !(#[trigger] seen@[u]),
        decreases MAX_TRI - z,
    {
        seen.push(false);
        z = z + 1;
    }

    let mut i: usize = 0;
    while i + 2 < n
        invariant
            n == text@.len(),
            seen@.len() == MAX_TRI,
            i + 2 <= n || i == 0,
            forall|t: u32|
                t < MAX_TRI ==> ((#[trigger] seen@[t as int]) <==> exists|j: int|
                    0 <= j < i && t == spec_tri_at(text@, j)),
        decreases n - i,
    {
        let c0 = fold_byte(text[i]);
        let c1 = fold_byte(text[i + 1]);
        let c2 = fold_byte(text[i + 2]);
        let tri: u32 = c0 as u32 * 4096 + c1 as u32 * 64 + c2 as u32;
        assert(tri == spec_tri_at(text@, i as int));
        assert(tri < MAX_TRI);
        seen.set(tri as usize, true);
        i = i + 1;
    }

    let ghost windows: int = if n >= 3 {
        n - 2
    } else {
        0
    };
    proof {
        assert(forall|t: u32|
            t < MAX_TRI ==> ((#[trigger] seen@[t as int]) <==> exists|j: int|
                0 <= j < windows && t == spec_tri_at(text@, j)));
    }

    let mut r: Vec<u32> = Vec::new();
    let mut t: usize = 0;
    while t < MAX_TRI as usize
        invariant
            t <= MAX_TRI,
            seen@.len() == MAX_TRI,
            forall|a: int, b: int| 0 <= a < b < r@.len() ==> r@[a] < r@[b],
            forall|a: int| 0 <= a < r@.len() ==> r@[a] < t,
            forall|u: u32| u < t ==> (r@.contains(u) <==> seen@[u as int]),
            forall|u: u32|
                u < MAX_TRI ==> ((#[trigger] seen@[u as int]) <==> exists|j: int|
                    0 <= j < windows && u == spec_tri_at(text@, j)),
        decreases MAX_TRI - t,
    {
        let ghost r0 = r@;
        let tv: u32 = t as u32;
        if seen[t] {
            r.push(tv);
        }
        t = t + 1;
        proof {
            assert forall|u: u32| u < t implies (r@.contains(u) <==> seen@[u as int]) by {
                if u < tv {
                    if r0.contains(u) {
                        let k = choose|k: int| 0 <= k < r0.len() && r0[k] == u;
                        assert(r@[k] == u);
                    }
                    if r@.contains(u) {
                        let k = choose|k: int| 0 <= k < r@.len() && r@[k] == u;
                        assert(k < r0.len());
                        assert(r0[k] == u);
                    }
                } else {
                    assert(u == tv);
                    if seen@[tv as int] {
                        assert(r@[r@.len() - 1] == tv);
                    } else {
                        if r@.contains(tv) {
                            let k = choose|k: int| 0 <= k < r@.len() && r@[k] == tv;
                            assert(k < r0.len());
                            assert(r0[k] == tv);
                            assert(r0[k] < tv);
                        }
                    }
                }
            }
        }
    }
    proof {
        assert forall|u: u32| r@.contains(u) <==> spec_trigram_set(text@).contains(u) by {
            assert(u < MAX_TRI ==> (r@.contains(u) <==> seen@[u as int]));
            if spec_trigram_set(text@).contains(u) {
                let j = choose|j: int| 0 <= j <= text@.len() - 3 && u == spec_tri_at(text@, j);
                assert(spec_tri_at(text@, j) < MAX_TRI);
            }
            if r@.contains(u) {
                assert(u < MAX_TRI);
            }
        }
        lemma_tri_seq_upto_props(text@, MAX_TRI as int);
        assert forall|u: u32|
            r@.contains(u) <==> spec_tri_seq(text@).contains(u) by {
            if spec_trigram_set(text@).contains(u) {
                let j = choose|j: int| 0 <= j <= text@.len() - 3 && u == spec_tri_at(text@, j);
                assert(spec_tri_at(text@, j) < MAX_TRI);
            }
        }
        lemma_sorted_unique(r@, spec_tri_seq(text@));
    }
    r
}

/// The representative character of folded symbol `s`: the letter or digit
/// the symbol stands for, or an underscore for the shared bucket.
pub open spec fn spec_symbol_char(s: int) -> char {
    if s == 0 {
        'a'
    } else if s == 1 {
        'b'
    } else if s == 2 {
        'c'
    } else if s == 3 {
        'd'
    } else if s == 4 {
        'e'
    } else if s == 5 {
        'f'
    } else if s == 6 {
        'g'
    } else if s == 7 {
        'h'
    } else if s == 8 {
        'i'
    } else if s == 9 {
        'j'
    } else if s == 10 {
        'k'
    } else if s == 11 {
        'l'
    } else if s == 12 {
        'm'
    } else if s == 13 {
        'n'
    } else if s == 14 {
        'o'
    } else if s == 15 {
        'p'
    } else if s == 16 {
        'q'
    } else if s == 17 {
        'r'
    } else if s == 18 {
        's'
    } else if s == 19 {
        't'
    } else if s == 20 {
        'u'
    } else if s == 21 {
        'v'
    } else if s == 22 {
        'w'
    } else if s == 23 {
        'x'
    } else if s == 24 {
        'y'
    } else if s == 25 {
        'z'
    } else if s == 26 {
        '0'
    } else if s == 27 {
        '1'
    } else if s == 28 {
        '2'
    } else if s == 29 {
        '3'
    } else if s == 30 {
        '4'
    } else if s == 31 {
        '5'
    } else if s == 32 {
        '6'
    } else if s == 33 {
        '7'
    } else if s == 34 {
        '8'
    } else if s == 35 {
        '9'
    } else {
        '_'
    }
}

/// The representative character of folded symbol `s`, as a one-character
/// string.
fn symbol_str(s: u8) -> (r: &'static str)
    requires
        s < 64,
    ensures
        r@.len() == 1,
        r@[0] == spec_symbol_char(s as int),
{
    let r: &'static str = if s == 0 {
        "a"
    } else if s == 1 {
        "b"
    } else if s == 2 {
        "c"
    } else if s == 3 {
        "d"
    } else if s == 4 {
        "e"
    } else if s == 5 {
        "f"
    } else if s == 6 {
        "g"
    } else if s == 7 {
        "h"
    } else if s == 8 {
        "i"
    } else if s == 9 {
        "j"
    } else if s == 10 {
        "k"
    } else if s == 11 {
        "l"
    } else if s == 12 {
        "m"
    } else if s == 13 {
        "n"
    } else if s == 14 {
        "o"
    } else if s == 15 {
        "p"
    } else if s == 16 {
        "q"
    } else if s == 17 {
        "r"
    } else if s == 18 {
        "s"
    } else if s == 19 {
        "t"
    } else if s == 20 {
        "u"
    } else if s == 21 {
        "v"
    } else if s == 22 {
        "w"
    } else if s == 23 {
        "x"
    } else if s == 24 {
        "y"
    } else if s == 25 {
        "z"
    } else if s == 26 {
        "0"
    } else if s == 27 {
        "1"
    } else if s == 28 {
        "2"
    } else if s == 29 {
        "3"
    } else if s == 30 {
        "4"
    } else if s == 31 {
        "5"
    } else if s == 32 {
        "6"
    } else if s == 33 {
        "7"
    } else if s == 34 {
        "8"
    } else if s == 35 {
        "9"
    } else {
        "_"
    };
    proof {
        reveal_strlit("a");
        reveal_strlit("b");
        reveal_strlit("c");
        reveal_strlit("d");
        reveal_strlit("e");
        reveal_strlit("f");
        reveal_strlit("g");
        reveal_strlit("h");
        reveal_strlit("i");
        reveal_strlit("j");
        reveal_strlit("k");
        reveal_strlit("l");
        reveal_strlit("m");
        reveal_strlit("n");
        reveal_strlit("o");
        reveal_strlit("p");
        reveal_strlit("q");
        reveal_strlit("r");
        reveal_strlit("s");
        reveal_strlit("t");
        reveal_strlit("u");
        reveal_strlit("v");
        reveal_strlit("w");
        reveal_strlit("x");
        reveal_strlit("y");
        reveal_strlit("z");
        reveal_strlit("0");
        reveal_strlit("1");
        reveal_strlit("2");
        reveal_strlit("3");
        reveal_strlit("4");
        reveal_strlit("5");
        reveal_strlit("6");
        reveal_strlit("7");
        reveal_strlit("8");
        reveal_strlit("9");
        reveal_strlit("_");
    }
    r
}

/// Spells out a packed trigram code as the three representative characters
/// of its symbols, for diagnostics.
pub fn explain_packed(code: usize) -> (r: String)
    requires
        code < MAX_TRI,
    ensures
        r@ == seq![
            spec_symbol_char(code as int / 4096),
            spec_symbol_char((code as int / 64) % 64),
            spec_symbol_char(code as int % 64),
        ],
{
    let c0: u8 = (code / 4096) as u8;
    let c1: u8 = ((code / 64) % 64) as u8;
    let c2: u8 = (code % 64) as u8;
    let mut r = String::new();
    r.append(symbol_str(c0));
    r.append(symbol_str(c1));
    r.append(symbol_str(c2));
    proof {
        assert(r@ =~= seq![
            spec_symbol_char(code as int / 4096),
            spec_symbol_char((code as int / 64) % 64),
            spec_symbol_char(code as int % 64),
        ]);
    }
    r
}

} // verus!
