//! Path-list simplification for the metadata store.
//!
//! A batch of file paths, each a list of components, is folded into a
//! tree, common directory prefixes are factored out, and the tree is
//! flattened back into one component list per file, in the order the
//! paths came in.

use vstd::prelude::*;
use vstd::string::StrSliceExecFns;
use vstd::string::StringExecFns;

verus! {

/// One node of the path tree: a file with its input position, or a
/// directory of named children.
enum Node {
    Dir(Vec<(String, Node)>),
    File(usize),
}

/// `p` is a prefix of `s`.
pub open spec fn is_prefix(p: Seq<char>, s: Seq<char>) -> bool {
    p.len() <= s.len() && s.subrange(0, p.len() as int) == p
}

/// `i` is the length of the longest common prefix of `a` and `b`.
pub open spec fn is_lcp_len(a: Seq<char>, b: Seq<char>, i: int) -> bool {
    &&& 0 <= i <= a.len()
    &&& i <= b.len()
    &&& forall|j: int| 0 <= j < i ==> a[j] == b[j]
    &&& (i == a.len() || i == b.len() || a[i] != b[i])
}

/// The longest common prefix of the two strings.
pub fn shortest_match(left: &str, right: &str) -> (r: String)
    ensures
        is_lcp_len(left@, right@, r@.len() as int),
        r@ == left@.subrange(0, r@.len() as int),
{
    let llen: usize = left.unicode_len();
    let rlen: usize = right.unicode_len();
    let shortest: usize = if llen < rlen {
        llen
    } else {
        rlen
    };
    let mut i: usize = 0;
    while i < shortest
        invariant
            llen == left@.len(),
            rlen == right@.len(),
            shortest <= llen,
            shortest <= rlen,
            i <= shortest,
            forall|j: int| 0 <= j < i ==> left@[j] == right@[j],
        decreases shortest - i,
    {
        if left.get_char(i) != right.get_char(i) {
            let r = left.substring_char(0, i).to_owned();
            return r;
        }
        i = i + 1;
    }
    left.substring_char(0, shortest).to_owned()
}

/// `p` is a prefix of `s`, checked character by character.
fn starts_with(s: &str, p: &str) -> (r: bool)
    ensures
        r == is_prefix(p@, s@),
{
    let plen: usize = p.unicode_len();
    let slen: usize = s.unicode_len();
    if plen > slen {
        proof {
            assert(!is_prefix(p@, s@));
        }
        return false;
    }
    let mut i: usize = 0;
    while i < plen
        invariant
            plen == p@.len(),
            slen == s@.len(),
            plen <= slen,
            i <= plen,
            forall|j: int| 0 <= j < i ==> s@[j] == p@[j],
        decreases plen - i,
    {
        if s.get_char(i) != p.get_char(i) {
            proof {
                assert(s@.subrange(0, p@.len() as int)[i as int] == s@[i as int]);
            }
            return false;
        }
        i = i + 1;
    }
    proof {
        assert(s@.subrange(0, p@.len() as int) =~= p@);
    }
    true
}

/// The common directory prefix of the paths: the longest common prefix of
/// all the strings, cut after its last slash.  Empty when the paths share
/// no slash-terminated prefix, and for an empty batch.
pub fn find_prefix(within: &Vec<String>) -> (r: String)
    ensures
        within@.len() == 0 ==> r@.len() == 0,
        forall|i: int| 0 <= i < within@.len() ==> is_prefix(r@, (#[trigger] within@[i])@),
        r@.len() == 0 || r@[r@.len() - 1] == '/',
{
    if within.len() == 0 {
        let r = String::new();
        return r;
    }
    let mut prefix: String = within[0].clone();
    proof {
        assert(within@[0]@.subrange(0, prefix@.len() as int) =~= prefix@);
    }
    let mut i: usize = 1;
    while i < within.len()
        invariant
            1 <= i <= within@.len(),
            within@.len() >= 1,
            forall|k: int| 0 <= k < i ==> is_prefix(prefix@, (#[trigger] within@[k])@),
        decreases within@.len() - i,
    {
        let ghost pre = prefix@;
        if !starts_with(within[i].as_str(), prefix.as_str()) {
            prefix = shortest_match(prefix.as_str(), within[i].as_str());
            proof {
                assert(is_prefix(prefix@, pre)) by {
                    assert(prefix@ =~= pre.subrange(0, prefix@.len() as int));
                }
                assert forall|k: int|
                    0 <= k <= i implies is_prefix(prefix@, (#[trigger] within@[k])@) by {
                    if k < i {
                        assert(is_prefix(pre, within@[k]@));
                        assert(within@[k]@.subrange(0, prefix@.len() as int) =~= prefix@) by {
                            assert forall|j: int|
                                0 <= j < prefix@.len() implies within@[k]@[j] == prefix@[j] by {
                                assert(within@[k]@.subrange(0, pre.len() as int)[j] == within@[
                                    k]@[j]);
                                assert(pre[j] == prefix@[j]);
                            }
                        }
                    } else {
                        assert(within@[i as int]@.subrange(0, prefix@.len() as int) =~= prefix@)
                            by {
                            assert forall|j: int|
                                0 <= j < prefix@.len() implies within@[i as int]@[j] == prefix@[
                                j] by {
                                assert(pre[j] == within@[i as int]@[j]);
                            }
                        }
                    }
                }
            }
        } else {
            proof {
                assert(is_prefix(prefix@, within@[i as int]@));
            }
        }
        i = i + 1;
    }

    // cut after the last slash, if any
    let plen: usize = prefix.as_str().unicode_len();
    let mut j: usize = plen;
    while j > 0
        invariant
            within@.len() >= 1,
            plen == prefix@.len(),
            j <= plen,
            forall|k: int| 0 <= k < within@.len() ==> is_prefix(prefix@, (#[trigger] within@[k])@),
        decreases j,
    {
        if prefix.as_str().get_char(j - 1) == '/' {
            let r = prefix.as_str().substring_char(0, j).to_owned();
            proof {
                assert(r@ == prefix@.subrange(0, j as int));
                assert(r@[r@.len() - 1] == '/');
                assert forall|k: int|
                    0 <= k < within@.len() implies is_prefix(r@, (#[trigger] within@[k])@) by {
                    assert(is_prefix(prefix@, within@[k]@));
                    assert(within@[k]@.subrange(0, r@.len() as int) =~= r@) by {
                        assert(forall|m: int|
                            0 <= m < r@.len() ==> within@[k]@.subrange(
                                0,
                                prefix@.len() as int,
                            )[m] == within@[k]@[m]);
                    }
                }
            }
            return r;
        }
        j = j - 1;
    }
    let r = String::new();
    proof {
        assert forall|k: int|
            0 <= k < within@.len() implies is_prefix(r@, (#[trigger] within@[k])@) by {
            assert(within@[k]@.subrange(0, 0) =~= r@);
        }
    }
    r
}

/// Factors the common directory prefix out of a keyed map: the returned
/// keys are the old keys with the prefix removed, and an entry whose whole
/// key was the prefix is dropped.
/// Entry `e` is entry `i` of the map with `pfx` cut off its key.
spec fn entry_from(off_of: Seq<(String, Node)>, pfx: Seq<char>, e: (String, Node), i: int) -> bool {
    0 <= i < off_of.len() && e.1 == off_of[i].1 && off_of[i].0@ == pfx + e.0@
}

/// Some entry of the map yields `e` once `pfx` is cut off its key.
spec fn has_origin(off_of: Seq<(String, Node)>, pfx: Seq<char>, e: (String, Node)) -> bool {
    exists|i: int| entry_from(off_of, pfx, e, i)
}

fn strip_prefix(off_of: Vec<(String, Node)>) -> (r: (String, Vec<(String, Node)>))
    ensures
        r.1@.len() <= off_of@.len(),
        r.0@.len() == 0 ==> r.1@ == off_of@,
        forall|i: int|
            0 <= i < off_of@.len() ==> is_prefix(r.0@, (#[trigger] off_of@[i]).0@),
        r.0@.len() == 0 || r.0@[r.0@.len() - 1] == '/',
        // the surviving entries keep their order; each carries an input
        // entry's value under its key with the prefix removed
        forall|j: int|
            0 <= j < r.1@.len() ==> has_origin(off_of@, r.0@, #[trigger] r.1@[j]),
{
    let mut keys: Vec<String> = Vec::new();
    let mut i: usize = 0;
    while i < off_of.len()
        invariant
            i <= off_of@.len(),
            keys@.len() == i,
            forall|j: int| 0 <= j < i ==> (#[trigger] keys@[j])@ == off_of@[j].0@,
        decreases off_of@.len() - i,
    {
        keys.push(off_of[i].0.clone());
        i = i + 1;
    }
    let prefix = find_prefix(&keys);
    proof {
        assert forall|j: int|
            0 <= j < off_of@.len() implies is_prefix(prefix@, (#[trigger] off_of@[j]).0@) by {
            assert(is_prefix(prefix@, keys@[j]@));
        }
    }
    if prefix.as_str().is_empty() {
        proof {
            assert forall|j: int|
                0 <= j < off_of@.len() implies has_origin(
                off_of@,
                prefix@,
                #[trigger] off_of@[j],
            ) by {
                assert(off_of@[j].0@ =~= prefix@ + off_of@[j].0@);
                assert(entry_from(off_of@, prefix@, off_of@[j], j));
            }
        }
        return (prefix, off_of);
    }
    let plen: usize = prefix.as_str().unicode_len();
    let mut new_val: Vec<(String, Node)> = Vec::new();
    let mut rest = off_of;
    let ghost n0: int = rest@.len() as int;
    let ghost orig: Seq<(String, Node)> = rest@;
    let mut taken: usize = 0;
    while taken < rest.len()
        invariant
            rest@.len() == orig.len(),
            forall|j: int| taken <= j < orig.len() ==> #[trigger] rest@[j] == orig[j],
            forall|j: int| 0 <= j < orig.len() ==> (#[trigger] rest@[j]).0 == orig[j].0,
            n0 == orig.len(),
            plen == prefix@.len(),
            plen >= 1,
            taken <= rest@.len(),
            new_val@.len() <= taken,
            forall|j: int| 0 <= j < orig.len() ==> is_prefix(prefix@, (#[trigger] orig[j]).0@),
            forall|j: int|
                0 <= j < new_val@.len() ==> has_origin(orig, prefix@, #[trigger] new_val@[j]),
        decreases rest@.len() - taken,
    {
        let (k, v) = (rest[taken].0.clone(), take_node(&mut rest, taken));
        let ghost at: int = taken as int;
        if !str_eq(k.as_str(), prefix.as_str()) {
            let klen: usize = k.as_str().unicode_len();
            proof {
                assert(is_prefix(prefix@, orig[at].0@));
                assert(k@ == orig[at].0@);
            }
            let stripped = k.as_str().substring_char(plen, klen).to_owned();
            let ghost new0 = new_val@;
            proof {
                assert(orig[at].0@ =~= prefix@ + stripped@);
            }
            new_val.push((stripped, v));
            proof {
                assert forall|j: int|
                    0 <= j < new_val@.len() implies has_origin(
                    orig,
                    prefix@,
                    #[trigger] new_val@[j],
                ) by {
                    if j < new0.len() {
                        assert(new_val@[j] == new0[j]);
                    } else {
                        assert(new_val@[j].1 == orig[at].1);
                        assert(entry_from(orig, prefix@, new_val@[j], at));
                    }
                }
            }
        }
        taken = taken + 1;
    }
    (prefix, new_val)
}

/// Moves the node out of one entry, leaving a file marker behind; the
/// keys and every other entry stay put.
fn take_node(entries: &mut Vec<(String, Node)>, at: usize) -> (r: Node)
    requires
        at < old(entries)@.len(),
    ensures
        r == old(entries)@[at as int].1,
        final(entries)@.len() == old(entries)@.len(),
        forall|j: int|
            0 <= j < old(entries)@.len() && j != at ==> #[trigger] final(entries)@[j]
                == old(entries)@[j],
        final(entries)@[at as int].0 == old(entries)@[at as int].0,
{
    let (k, v) = entries.remove(at);
    entries.insert(at, (k, Node::File(0)));
    proof {
        assert forall|j: int|
            0 <= j < old(entries)@.len() && j != at implies #[trigger] entries@[j] == old(
            entries,
        )@[j] by {
            if j < at {
                assert(entries@[j] == old(entries)@.remove(at as int).insert(
                    at as int,
                    (old(entries)@[at as int].0, Node::File(0)),
                )[j]);
            } else {
                assert(old(entries)@.remove(at as int)[j - 1] == old(entries)@[j]);
            }
        }
    }
    v
}

/// The two strings spell the same characters.
fn str_eq(a: &str, b: &str) -> (r: bool)
    ensures
        r == (a@ == b@),
{
    let alen: usize = a.unicode_len();
    let blen: usize = b.unicode_len();
    if alen != blen {
        return false;
    }
    let mut i: usize = 0;
    while i < alen
        invariant
            alen == a@.len(),
            blen == b@.len(),
            alen == blen,
            i <= alen,
            forall|j: int| 0 <= j < i ==> a@[j] == b@[j],
        decreases alen - i,
    {
        if a.get_char(i) != b.get_char(i) {
            return false;
        }
        i = i + 1;
    }
    proof {
        assert(a@ =~= b@);
    }
    true
}

/// Inserts the path `remaining[start..]` into the tree with file position
/// `pos`: intermediate components become directories, the final component
/// a file entry that replaces any previous file of that name.
fn add(into: &mut Vec<(String, Node)>, remaining: &Vec<String>, start: usize, pos: usize)
    requires
        start < remaining@.len(),
    decreases remaining@.len() - start,
{
    // find an existing entry for this component
    let key: &String = &remaining[start];
    let n: usize = into.len();
    let mut found: usize = n;
    let mut i: usize = 0;
    while i < n
        invariant
            n == into@.len(),
            i <= n,
            found == n || found < i,
        decreases n - i,
    {
        if found == n && str_eq(into[i].0.as_str(), key.as_str()) {
            found = i;
        }
        i = i + 1;
    }
    let rl: usize = remaining.len();
    if start + 1 == rl {
        if found < into.len() {
            let _old = into.remove(found);
        }
        into.push((key.clone(), Node::File(pos)));
    } else {
        if found < into.len() {
            let (k, node) = into.remove(found);
            match node {
                Node::Dir(mut m) => {
                    crate::simplify::add(&mut m, remaining, start + 1, pos);
                    into.push((k, Node::Dir(m)));
                },
                Node::File(fp) => {
                    // a file already owns this name; the path is dropped
                    into.push((k, Node::File(fp)));
                },
            }
        } else {
            let mut m: Vec<(String, Node)> = Vec::new();
            crate::simplify::add(&mut m, remaining, start + 1, pos);
            into.push((key.clone(), Node::Dir(m)));
        }
    }
}

/// Folds the path lists into a tree, remembering each path's position.
fn list_to_tree(from: &Vec<Vec<String>>) -> (r: Vec<(String, Node)>)
{
    let mut root: Vec<(String, Node)> = Vec::new();
    let mut pos: usize = 0;
    while pos < from.len()
        invariant
            pos <= from@.len(),
        decreases from@.len() - pos,
    {
        if from[pos].len() > 0 {
            crate::simplify::add(&mut root, &from[pos], 0, pos);
        }
        pos = pos + 1;
    }
    root
}

/// Flattens the tree back into component lists: a directory contributes
/// its name (and any factored-out sub-prefix) to every file below it.
/// Recursion is capped by `fuel`, which callers size to the deepest
/// possible tree.
fn fixup_path_internal(
    structure: Vec<(String, Node)>,
    so_far: &Vec<String>,
    fuel: usize,
) -> (r: Vec<(Vec<String>, usize)>)
    ensures
        forall|i: int|
            0 <= i < r@.len() ==> (#[trigger] r@[i]).0@.len() >= so_far@.len() + 1,
    decreases fuel,
{
    let mut ret: Vec<(Vec<String>, usize)> = Vec::new();
    if fuel == 0 {
        return ret;
    }
    let mut rest = structure;
    while rest.len() > 0
        invariant
            fuel >= 1,
            forall|i: int|
                0 <= i < ret@.len() ==> (#[trigger] ret@[i]).0@.len() >= so_far@.len() + 1,
        decreases rest@.len(),
    {
        let (item, sub) = rest.remove(0);
        let mut next: Vec<String> = Vec::new();
        let mut i: usize = 0;
        while i < so_far.len()
            invariant
                i <= so_far@.len(),
                next@.len() == i,
            decreases so_far@.len() - i,
        {
            next.push(so_far[i].clone());
            i = i + 1;
        }
        match sub {
            Node::File(pos) => {
                next.push(item);
                ret.push((next, pos));
            },
            Node::Dir(m) => {
                let (prefix, m2) = strip_prefix(m);
                next.push(item);
                if !prefix.as_str().is_empty() {
                    next.push(prefix);
                }
                let mut below = fixup_path_internal(m2, &next, fuel - 1);
                ret.append(&mut below);
            },
        }
    }
    ret
}

/// Flattens the whole tree, factoring the root's common prefix out first.
fn fixup_path(structure: Vec<(String, Node)>, fuel: usize) -> (r: Vec<(Vec<String>, usize)>)
    ensures
        forall|i: int| 0 <= i < r@.len() ==> (#[trigger] r@[i]).0@.len() >= 1,
{
    let (prefix, sub) = strip_prefix(structure);
    let mut so_far: Vec<String> = Vec::new();
    if !prefix.as_str().is_empty() {
        so_far.push(prefix);
    }
    fixup_path_internal(sub, &so_far, fuel)
}

/// Sorts the flattened entries by their input position.
fn sort_by_pos(entries: Vec<(Vec<String>, usize)>) -> (r: Vec<(Vec<String>, usize)>)
    ensures
        r@.len() == entries@.len(),
        forall|a: int, b: int| 0 <= a < b < r@.len() ==> r@[a].1 <= r@[b].1,
        (forall|i: int| 0 <= i < entries@.len() ==> (#[trigger] entries@[i]).0@.len() >= 1)
            ==> (forall|i: int| 0 <= i < r@.len() ==> (#[trigger] r@[i]).0@.len() >= 1),
{
    let mut rest = entries;
    let mut out: Vec<(Vec<String>, usize)> = Vec::new();
    let ghost n0: int = rest@.len() as int;
    let ghost all_nonempty: bool = forall|i: int|
        0 <= i < rest@.len() ==> (#[trigger] rest@[i]).0@.len() >= 1;
    while rest.len() > 0
        invariant
            out@.len() + rest@.len() == n0,
            forall|a: int, b: int| 0 <= a < b < out@.len() ==> out@[a].1 <= out@[b].1,
            forall|a: int, b: int|
                0 <= a < out@.len() && 0 <= b < rest@.len() ==> out@[a].1 <= rest@[b].1,
            all_nonempty ==> forall|i: int|
                0 <= i < rest@.len() ==> (#[trigger] rest@[i]).0@.len() >= 1,
            all_nonempty ==> forall|i: int|
                0 <= i < out@.len() ==> (#[trigger] out@[i]).0@.len() >= 1,
        decreases rest@.len(),
    {
        // select the smallest remaining position
        let mut best: usize = 0;
        let mut i: usize = 1;
        while i < rest.len()
            invariant
                rest@.len() > 0,
                best < i,
                i <= rest@.len(),
                forall|j: int| 0 <= j < i ==> rest@[best as int].1 <= #[trigger] rest@[j].1,
            decreases rest@.len() - i,
        {
            if rest[i].1 < rest[best].1 {
                best = i;
            }
            i = i + 1;
        }
        let ghost rest0 = rest@;
        let picked = rest.remove(best);
        proof {
            assert(forall|b: int|
                0 <= b < rest@.len() ==> (#[trigger] rest@[b]) == (if b < best {
                    rest0[b]
                } else {
                    rest0[b + 1]
                }));
        }
        out.push(picked);
    }
    out
}

/// Simplifies a batch of component paths: common directory prefixes are
/// factored into shared components, and the result keeps one entry per
/// surviving path, ordered as the inputs were.
pub fn simplify(input: Vec<Vec<String>>) -> (r: Vec<Vec<String>>)
    ensures
        r@.len() <= input@.len(),
        forall|i: int| 0 <= i < r@.len() ==> (#[trigger] r@[i])@.len() >= 1,
{
    let mut fuel: usize = 1;
    let mut i: usize = 0;
    while i < input.len()
        invariant
            i <= input@.len(),
        decreases input@.len() - i,
    {
        let il: usize = input[i].len();
        if fuel <= usize::MAX - il {
            fuel = fuel + il;
        }
        i = i + 1;
    }
    let tree = list_to_tree(&input);
    let fixed = fixup_path(tree, fuel);
    let mut fixed = sort_by_pos(fixed);
    if fixed.len() > input.len() {
        // cannot arise from a well-formed tree; keeps the bound evident
        fixed.truncate(input.len());
    }
    let mut out: Vec<Vec<String>> = Vec::new();
    let mut rest = fixed;
    while rest.len() > 0
        invariant
            out@.len() + rest@.len() <= input@.len(),
            forall|i: int| 0 <= i < rest@.len() ==> (#[trigger] rest@[i]).0@.len() >= 1,
            forall|i: int| 0 <= i < out@.len() ==> (#[trigger] out@[i])@.len() >= 1,
        decreases rest@.len(),
    {
        let (path, _pos) = rest.remove(0);
        out.push(path);
    }
    out
}

} // verus!
