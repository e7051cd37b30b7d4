//! The nested file map a `files` entry carries.
//!
//! A file leaf holds a content id (`f`, the lower-case hex sha256 of its
//! bytes, empty while hashing is still pending) and a size (`s`); a directory
//! holds its children in insertion order, keyed by name; an empty directory is
//! an empty list. The top level holds the copied roots.

use vstd::prelude::*;
use crate::text::{append_str, chars_of, decimal, decimal_string, owned, string_from_chars};


verus! {

/// One node of a file map.
#[derive(Debug)]
pub enum TreeNode {
    File { f: String, s: u64 },
    Dir(Vec<(String, TreeNode)>),
}

/// A directory level (or the whole map): children keyed by name, in
/// insertion order, no name twice.
pub type FileInfo = Vec<(String, TreeNode)>;

/// The mathematical value of a node.
pub enum NodeView {
    File { f: Seq<char>, s: u64 },
    Dir(Seq<(Seq<char>, NodeView)>),
}

pub open spec fn node_view(n: TreeNode) -> NodeView
    decreases n,
{
    match n {
        TreeNode::File { f, s } => NodeView::File { f: f@, s },
        TreeNode::Dir(children) => NodeView::Dir(dir_view(children@)),
    }
}

/// The value of a directory level.
pub open spec fn dir_view(children: Seq<(String, TreeNode)>) -> Seq<(Seq<char>, NodeView)>
    decreases children,
{
    if children.len() == 0 {
        Seq::empty()
    } else {
        dir_view(children.drop_last()).push((children.last().0@, node_view(children.last().1)))
    }
}

pub proof fn lemma_dir_view_index(children: Seq<(String, TreeNode)>)
    ensures
        dir_view(children).len() == children.len(),
        forall|i: int|
            0 <= i < children.len() ==> #[trigger] dir_view(children)[i] == (
                children[i].0@,
                node_view(children[i].1),
            ),
    decreases children.len(),
{
    if children.len() > 0 {
        lemma_dir_view_index(children.drop_last());
        assert forall|i: int| 0 <= i < children.len() implies #[trigger] dir_view(children)[i] == (
            children[i].0@,
            node_view(children[i].1),
        ) by {
            if i < children.len() - 1 {
                assert(children.drop_last()[i] == children[i]);
            }
        }
    }
}

pub proof fn lemma_dir_view_push(children: Seq<(String, TreeNode)>, item: (String, TreeNode))
    ensures
        dir_view(children.push(item)) == dir_view(children).push((item.0@, node_view(item.1))),
{
    assert(children.push(item).drop_last() =~= children);
}

pub proof fn lemma_dir_view_take(children: Seq<(String, TreeNode)>, i: int)
    requires
        0 <= i < children.len(),
    ensures
        dir_view(children.take(i + 1)) == dir_view(children.take(i)).push(
            (children[i].0@, node_view(children[i].1)),
        ),
{
    assert(children.take(i + 1).drop_last() =~= children.take(i));
}

// ---------------------------------------------------------------------------
// Well-formedness
// ---------------------------------------------------------------------------

/// No name appears twice among the children of one level.
pub open spec fn keys_unique(d: Seq<(Seq<char>, NodeView)>) -> bool {
    forall|i: int, j: int| 0 <= i < j < d.len() ==> d[i].0 != d[j].0
}

/// Every level of the map has unique names.
pub open spec fn dir_wf(d: Seq<(Seq<char>, NodeView)>) -> bool
    decreases d,
{
    &&& keys_unique(d)
    &&& forall|i: int| 0 <= i < d.len() ==> node_wf(#[trigger] d[i].1)
}

pub open spec fn node_wf(n: NodeView) -> bool
    decreases n,
{
    match n {
        NodeView::File { .. } => true,
        NodeView::Dir(children) => dir_wf(children),
    }
}

// ---------------------------------------------------------------------------
// Leaves and contents
// ---------------------------------------------------------------------------

/// Every file leaf, content id and size, in map order (parents before later
/// siblings, depth first).
pub open spec fn dir_files(d: Seq<(Seq<char>, NodeView)>) -> Seq<(Seq<char>, u64)>
    decreases d,
{
    if d.len() == 0 {
        Seq::empty()
    } else {
        dir_files(d.drop_last()) + node_files(d.last().1)
    }
}

pub open spec fn node_files(n: NodeView) -> Seq<(Seq<char>, u64)>
    decreases n,
{
    match n {
        NodeView::File { f, s } => seq![(f, s)],
        NodeView::Dir(children) => dir_files(children),
    }
}

/// The leaves whose content id is already known.
pub open spec fn hashed_only(fs: Seq<(Seq<char>, u64)>) -> Seq<(Seq<char>, u64)>
    decreases fs.len(),
{
    if fs.len() == 0 {
        Seq::empty()
    } else if fs.last().0.len() > 0 {
        hashed_only(fs.drop_last()).push(fs.last())
    } else {
        hashed_only(fs.drop_last())
    }
}

/// Whether some pair in `a` carries content id `id`.
pub open spec fn has_id(a: Seq<(Seq<char>, u64)>, id: Seq<char>) -> bool {
    exists|i: int| 0 <= i < a.len() && #[trigger] a[i].0 == id
}

/// `acc` extended with the pairs of `fs` whose id is non-empty and not yet
/// present, first occurrence kept.
pub open spec fn dedup_into(acc: Seq<(Seq<char>, u64)>, fs: Seq<(Seq<char>, u64)>) -> Seq<
    (Seq<char>, u64),
>
    decreases fs.len(),
{
    if fs.len() == 0 {
        acc
    } else {
        let a = dedup_into(acc, fs.drop_last());
        let x = fs.last();
        if x.0.len() == 0 || has_id(a, x.0) {
            a
        } else {
            a.push(x)
        }
    }
}

/// Every content the map references, de-duplicated in encounter order, with
/// the size its first leaf reports. Leaves still waiting for their hash are
/// not contents yet.
pub open spec fn contents_of(d: Seq<(Seq<char>, NodeView)>) -> Seq<(Seq<char>, u64)> {
    dedup_into(Seq::empty(), dir_files(d))
}

pub proof fn lemma_dedup_into_append(
    acc: Seq<(Seq<char>, u64)>,
    s1: Seq<(Seq<char>, u64)>,
    s2: Seq<(Seq<char>, u64)>,
)
    ensures
        dedup_into(acc, s1 + s2) == dedup_into(dedup_into(acc, s1), s2),
    decreases s2.len(),
{
    if s2.len() == 0 {
        assert(s1 + s2 =~= s1);
    } else {
        assert((s1 + s2).drop_last() =~= s1 + s2.drop_last());
        assert((s1 + s2).last() == s2.last());
        lemma_dedup_into_append(acc, s1, s2.drop_last());
    }
}

/// Properties of a de-duplicated list: ids are unique and non-empty, the
/// accumulator is a prefix, and every non-empty id of `fs` appears.
pub proof fn lemma_dedup_into_props(acc: Seq<(Seq<char>, u64)>, fs: Seq<(Seq<char>, u64)>)
    ensures
        dedup_into(acc, fs).len() >= acc.len(),
        dedup_into(acc, fs).take(acc.len() as int) == acc,
        (forall|i: int, j: int| 0 <= i < j < acc.len() ==> acc[i].0 != acc[j].0) ==> (forall|
            i: int,
            j: int,
        | 0 <= i < j < dedup_into(acc, fs).len() ==> dedup_into(acc, fs)[i].0 != dedup_into(
            acc,
            fs,
        )[j].0),
        forall|i: int|
            acc.len() <= i < dedup_into(acc, fs).len() ==> #[trigger] dedup_into(acc, fs)[i].0.len()
                > 0,
        forall|i: int|
            0 <= i < fs.len() && fs[i].0.len() > 0 ==> has_id(dedup_into(acc, fs), #[trigger] fs[i].0),
        forall|i: int|
            acc.len() <= i < dedup_into(acc, fs).len() ==> has_id(fs, #[trigger] dedup_into(acc, fs)[i].0),
    decreases fs.len(),
{
    if fs.len() > 0 {
        let prev = dedup_into(acc, fs.drop_last());
        lemma_dedup_into_props(acc, fs.drop_last());
        let x = fs.last();
        let r = dedup_into(acc, fs);
        if !(x.0.len() == 0 || has_id(prev, x.0)) {
            assert(r.take(acc.len() as int) =~= prev.take(acc.len() as int));
            assert forall|i: int| 0 <= i < fs.len() && fs[i].0.len() > 0 implies has_id(
                r,
                #[trigger] fs[i].0,
            ) by {
                if i < fs.len() - 1 {
                    assert(fs.drop_last()[i] == fs[i]);
                    let k = choose|k: int| 0 <= k < prev.len() && #[trigger] prev[k].0 == fs[i].0;
                    assert(r[k] == prev[k]);
                } else {
                    assert(r[prev.len() as int].0 == x.0);
                }
            }
            assert forall|i: int| acc.len() <= i < r.len() implies has_id(fs, #[trigger] r[i].0) by {
                if i < prev.len() {
                    assert(r[i] == prev[i]);
                    let k = choose|k: int| 0 <= k < fs.drop_last().len() && #[trigger] fs.drop_last()[k].0 == prev[i].0;
                    assert(fs[k] == fs.drop_last()[k]);
                } else {
                    assert(fs[fs.len() - 1].0 == r[i].0);
                }
            }
        } else {
            assert forall|i: int| 0 <= i < fs.len() && fs[i].0.len() > 0 implies has_id(
                r,
                #[trigger] fs[i].0,
            ) by {
                if i < fs.len() - 1 {
                    assert(fs.drop_last()[i] == fs[i]);
                }
            }
            assert forall|i: int| acc.len() <= i < r.len() implies has_id(fs, #[trigger] r[i].0) by {
                let k = choose|k: int| 0 <= k < fs.drop_last().len() && #[trigger] fs.drop_last()[k].0 == prev[i].0;
                assert(fs[k] == fs.drop_last()[k]);
            }
        }
    } else {
        assert(acc.take(acc.len() as int) =~= acc);
    }
}

/// The pairs of a contents vector, taken by value.
pub open spec fn pairs_view(v: Seq<(String, u64)>) -> Seq<(Seq<char>, u64)> {
    Seq::new(v.len(), |i: int| (v[i].0@, v[i].1))
}

/// Whether `id` is already among the contents collected so far.
fn contains_id(contents: &Vec<(String, u64)>, id: &String) -> (b: bool)
    ensures
        b == has_id(pairs_view(contents@), id@),
{
    let mut i: usize = 0;
    while i < contents.len()
        invariant
            i <= contents.len(),
            forall|k: int| 0 <= k < i ==> contents@[k].0@ != id@,
        decreases contents.len() - i,
    {
        if contents[i].0 == *id {
            assert(pairs_view(contents@)[i as int].0 == id@);
            return true;
        }
        i = i + 1;
    }
    proof {
        if has_id(pairs_view(contents@), id@) {
            let k = choose|k: int| 0 <= k < pairs_view(contents@).len() && #[trigger] pairs_view(contents@)[k].0 == id@;
            assert(contents@[k].0@ == id@);
        }
    }
    false
}

fn collect_contents(dir: &Vec<(String, TreeNode)>, contents: &mut Vec<(String, u64)>)
    ensures
        pairs_view(final(contents)@) == dedup_into(pairs_view(old(contents)@), dir_files(dir_view(dir@))),
    decreases dir,
{
    let mut i: usize = 0;
    proof {
        assert(dir@.take(0) =~= Seq::<(String, TreeNode)>::empty());
    }
    while i < dir.len()
        invariant
            i <= dir.len(),
            pairs_view(contents@) == dedup_into(pairs_view(old(contents)@), dir_files(dir_view(dir@.take(i as int)))),
        decreases dir.len() - i,
    {
        let ghost before = pairs_view(contents@);
        proof {
            lemma_dir_view_take(dir@, i as int);
            let d = dir_view(dir@.take(i + 1));
            assert(d.drop_last() == dir_view(dir@.take(i as int)));
            assert(d.last() == (dir@[i as int].0@, node_view(dir@[i as int].1)));
            lemma_dedup_into_append(pairs_view(old(contents)@), dir_files(dir_view(dir@.take(i as int))), node_files(node_view(dir@[i as int].1)));
        }
        match &dir[i].1 {
            TreeNode::File { f, s } => {
                if !f.as_str().is_empty() && !contains_id(contents, f) {
                    contents.push((f.clone(), *s));
                    assert(pairs_view(contents@) =~= before.push((f@, *s)));
                }
                proof {
                    let one = seq![(f@, *s)];
                    assert(one.drop_last() =~= Seq::<(Seq<char>, u64)>::empty());
                    assert(node_files(node_view(dir@[i as int].1)) == one);
                    assert(one.last() == (f@, *s));
                    assert(dedup_into(before, one.drop_last()) == before);
                    assert(dedup_into(before, one) == (if f@.len() == 0 || has_id(before, f@) { before } else { before.push((f@, *s)) }));
                    assert(pairs_view(contents@) == dedup_into(before, one));
                }
            }
            TreeNode::Dir(children) => {
                collect_contents(children, contents);
                assert(node_files(node_view(dir@[i as int].1)) == dir_files(dir_view(children@)));
            }
        }
        i = i + 1;
    }
    assert(dir@.take(dir.len() as int) =~= dir@);
}

/// Every content the map references, de-duplicated in encounter order, with
/// the size its first leaf reports.
pub fn tree_contents(file_info: &FileInfo) -> (contents: Vec<(String, u64)>)
    ensures
        pairs_view(contents@) == contents_of(dir_view(file_info@)),
{
    let mut contents: Vec<(String, u64)> = Vec::new();
    assert(pairs_view(contents@) =~= Seq::<(Seq<char>, u64)>::empty());
    collect_contents(file_info, &mut contents);
    contents
}

} // verus!

verus! {

pub proof fn lemma_dir_view_take_commute(c: Seq<(String, TreeNode)>, i: int)
    requires
        0 <= i <= c.len(),
    ensures
        dir_view(c.take(i)) == dir_view(c).take(i),
{
    lemma_dir_view_index(c.take(i));
    lemma_dir_view_index(c);
    assert(dir_view(c.take(i)) =~= dir_view(c).take(i));
}

/// The leaves of the first `i + 1` children are those of the first `i`
/// followed by the leaves of child `i`.
pub proof fn lemma_dir_files_take(d: Seq<(Seq<char>, NodeView)>, i: int)
    requires
        0 <= i < d.len(),
    ensures
        dir_files(d.take(i + 1)) == dir_files(d.take(i)) + node_files(d[i].1),
{
    assert(d.take(i + 1).drop_last() =~= d.take(i));
}

pub proof fn lemma_dir_files_prefix_len(d: Seq<(Seq<char>, NodeView)>, i: int)
    requires
        0 <= i <= d.len(),
    ensures
        dir_files(d.take(i)).len() <= dir_files(d).len(),
        hashed_only(dir_files(d.take(i))).len() <= hashed_only(dir_files(d)).len(),
    decreases d.len() - i,
{
    if i < d.len() {
        lemma_dir_files_take(d, i);
        lemma_hashed_only_append(dir_files(d.take(i)), node_files(d[i].1));
        lemma_dir_files_prefix_len(d, i + 1);
    } else {
        assert(d.take(i) =~= d);
    }
}

pub proof fn lemma_hashed_only_append(a: Seq<(Seq<char>, u64)>, b: Seq<(Seq<char>, u64)>)
    ensures
        hashed_only(a + b) == hashed_only(a) + hashed_only(b),
    decreases b.len(),
{
    if b.len() == 0 {
        assert(a + b =~= a);
        assert(hashed_only(a) + hashed_only(b) =~= hashed_only(a));
    } else {
        assert((a + b).drop_last() =~= a + b.drop_last());
        assert((a + b).last() == b.last());
        lemma_hashed_only_append(a, b.drop_last());
        assert(hashed_only(a) + hashed_only(b.drop_last()).push(b.last()) =~= (hashed_only(a)
            + hashed_only(b.drop_last())).push(b.last()));
    }
}

pub proof fn lemma_hashed_only_len(a: Seq<(Seq<char>, u64)>)
    ensures
        hashed_only(a).len() <= a.len(),
    decreases a.len(),
{
    if a.len() > 0 {
        lemma_hashed_only_len(a.drop_last());
    }
}

pub open spec fn leaf_count_node(n: NodeView, hashed: bool) -> nat {
    if hashed {
        hashed_only(node_files(n)).len()
    } else {
        node_files(n).len()
    }
}

/// How many file leaves the map has; with `hashed` set, only those whose
/// content id is resolved.
pub open spec fn leaf_count(d: Seq<(Seq<char>, NodeView)>, hashed: bool) -> nat {
    if hashed {
        hashed_only(dir_files(d)).len()
    } else {
        dir_files(d).len()
    }
}

fn count_level(dir: &Vec<(String, TreeNode)>, hashed: bool) -> (n: u64)
    requires
        dir_files(dir_view(dir@)).len() <= u64::MAX,
    ensures
        n == leaf_count(dir_view(dir@), hashed),
    decreases dir,
{
    let ghost d = dir_view(dir@);
    proof {
        lemma_dir_view_index(dir@);
        assert(d.take(0) =~= Seq::<(Seq<char>, NodeView)>::empty());
    }
    let mut total: u64 = 0;
    let mut i: usize = 0;
    while i < dir.len()
        invariant
            i <= dir.len(),
            d == dir_view(dir@),
            d.len() == dir.len(),
            dir_files(d).len() <= u64::MAX,
            forall|k: int| 0 <= k < dir.len() ==> #[trigger] d[k] == (dir@[k].0@, node_view(dir@[k].1)),
            total == leaf_count(d.take(i as int), hashed),
        decreases dir.len() - i,
    {
        proof {
            lemma_dir_files_take(d, i as int);
            lemma_hashed_only_append(dir_files(d.take(i as int)), node_files(d[i as int].1));
            lemma_dir_files_prefix_len(d, i + 1);
        }
        let add: u64 = match &dir[i].1 {
            TreeNode::File { f, .. } => {
                proof {
                    let one = seq![(f@, 0u64)];
                    assert(node_files(d[i as int].1).len() == 1);
                    let x = node_files(d[i as int].1);
                    assert(x.drop_last() =~= Seq::<(Seq<char>, u64)>::empty());
                    assert(hashed_only(x.drop_last()) == Seq::<(Seq<char>, u64)>::empty());
                    assert(x.last().0 == f@);
                }
                if !hashed || !f.as_str().is_empty() {
                    1
                } else {
                    0
                }
            },
            TreeNode::Dir(children) => {
                proof {
                    assert(node_files(d[i as int].1) == dir_files(dir_view(children@)));
                }
                count_level(children, hashed)
            },
        };
        proof {
            assert(add == leaf_count_node(d[i as int].1, hashed));
            assert(total + add == leaf_count(d.take(i + 1), hashed));
            lemma_hashed_only_len(dir_files(d));
        }
        total = total + add;
        i = i + 1;
    }
    assert(d.take(dir.len() as int) =~= d);
    total
}

/// The number of file leaves in the map, or with `hashed_only` those whose
/// content id the background hash has already resolved.
pub fn count_files(file_info: &FileInfo, hashed_only: bool) -> (n: u64)
    requires
        dir_files(dir_view(file_info@)).len() <= u64::MAX,
    ensures
        n == leaf_count(dir_view(file_info@), hashed_only),
{
    count_level(file_info, hashed_only)
}

/// The shape of the roots, as the list icon shows it: `""` with no root,
/// `"file"` or `"dir"` for a single root, `"mixed"` for several.
pub open spec fn root_kind_of(d: Seq<(Seq<char>, NodeView)>) -> Seq<char> {
    if d.len() == 0 {
        Seq::empty()
    } else if d.len() == 1 {
        match d[0].1 {
            NodeView::File { .. } => "file"@,
            NodeView::Dir(_) => "dir"@,
        }
    } else {
        "mixed"@
    }
}

/// The shape of the roots (`""`, `"file"`, `"dir"` or `"mixed"`).
pub fn root_kind(file_info: &FileInfo) -> (kind: String)
    ensures
        kind@ == root_kind_of(dir_view(file_info@)),
{
    proof {
        lemma_dir_view_index(file_info@);
    }
    if file_info.len() == 0 {
        String::new()
    } else if file_info.len() == 1 {
        match &file_info[0].1 {
            TreeNode::File { .. } => owned("file"),
            TreeNode::Dir(_) => owned("dir"),
        }
    } else {
        owned("mixed")
    }
}

/// The list label of a files entry: the single root's name, `文件` with no
/// root, or `<first> 等 <n> 项` for several.
pub open spec fn describe_roots_of(d: Seq<(Seq<char>, NodeView)>) -> Seq<char> {
    if d.len() == 0 {
        "文件"@
    } else if d.len() == 1 {
        d[0].0
    } else {
        d[0].0 + " 等 "@ + decimal(d.len()) + " 项"@
    }
}

/// The list label of a files entry.
pub fn describe_roots(file_info: &FileInfo) -> (label: String)
    ensures
        label@ == describe_roots_of(dir_view(file_info@)),
{
    proof {
        lemma_dir_view_index(file_info@);
    }
    if file_info.len() == 0 {
        owned("文件")
    } else if file_info.len() == 1 {
        file_info[0].0.clone()
    } else {
        let mut label = file_info[0].0.clone();
        append_str(&mut label, " 等 ");
        let count = decimal_string(file_info.len() as u64);
        append_str(&mut label, count.as_str());
        append_str(&mut label, " 项");
        label
    }
}

/// Whether a node is a file leaf.
pub fn is_file_node(node: &TreeNode) -> (b: bool)
    ensures
        b == (node_view(*node) is File),
{
    match node {
        TreeNode::File { .. } => true,
        TreeNode::Dir(_) => false,
    }
}

} // verus!

verus! {

// ---------------------------------------------------------------------------
// Paths
// ---------------------------------------------------------------------------

/// The views of a list of strings.
pub open spec fn strings_view(v: Seq<String>) -> Seq<Seq<char>> {
    Seq::new(v.len(), |i: int| v[i]@)
}

/// The optional string, taken by value.
pub open spec fn opt_view(o: Option<String>) -> Option<Seq<char>> {
    match o {
        Some(s) => Some(s@),
        None => None,
    }
}

/// `str::split('/')`: the pieces between slashes, empty pieces included.
pub open spec fn split_slash(p: Seq<char>) -> Seq<Seq<char>>
    decreases p.len(),
{
    if p.len() == 0 {
        seq![Seq::empty()]
    } else {
        let s = split_slash(p.drop_last());
        if p.last() == '/' {
            s.push(Seq::empty())
        } else {
            s.update(s.len() - 1, s.last().push(p.last()))
        }
    }
}

pub proof fn lemma_split_slash_nonempty(p: Seq<char>)
    ensures
        split_slash(p).len() >= 1,
    decreases p.len(),
{
    if p.len() > 0 {
        lemma_split_slash_nonempty(p.drop_last());
    }
}

/// The `/`-separated pieces of a path (`str::split('/')`).
pub fn split_segments(p: &str) -> (segs: Vec<String>)
    ensures
        strings_view(segs@) == split_slash(p@),
        segs.len() >= 1,
{
    let cs = chars_of(p);
    let mut segs: Vec<String> = Vec::new();
    let mut current: Vec<char> = Vec::new();
    let mut i: usize = 0;
    proof {
        assert(p@.take(0) =~= Seq::<char>::empty());
        assert(strings_view(segs@).push(current@) =~= split_slash(p@.take(0)));
    }
    while i < cs.len()
        invariant
            i <= cs.len(),
            cs@ == p@,
            strings_view(segs@).push(current@) == split_slash(p@.take(i as int)),
        decreases cs.len() - i,
    {
        let c = cs[i];
        proof {
            assert(p@.take(i + 1).drop_last() =~= p@.take(i as int));
            assert(p@.take(i + 1).last() == c);
        }
        if c == '/' {
            let piece = string_from_chars(current.as_slice());
            segs.push(piece);
            current = Vec::new();
            assert(strings_view(segs@).push(current@) =~= split_slash(p@.take(i + 1)));
        } else {
            let ghost before = strings_view(segs@).push(current@);
            current.push(c);
            assert(strings_view(segs@).push(current@) =~= before.update(before.len() - 1, before.last().push(c)));
        }
        i = i + 1;
    }
    let piece = string_from_chars(current.as_slice());
    segs.push(piece);
    assert(p@.take(cs.len() as int) =~= p@);
    assert(strings_view(segs@) =~= split_slash(p@));
    segs
}

/// `prefix/name`, or `name` at the top level.
pub open spec fn join_child(prefix: Seq<char>, name: Seq<char>) -> Seq<char> {
    if prefix.len() == 0 {
        name
    } else {
        prefix + "/"@ + name
    }
}

/// Every `/`-joined path at which a file leaf lives, in map order.
pub open spec fn dir_leaf_paths(d: Seq<(Seq<char>, NodeView)>, prefix: Seq<char>) -> Seq<Seq<char>>
    decreases d,
{
    if d.len() == 0 {
        Seq::empty()
    } else {
        dir_leaf_paths(d.drop_last(), prefix) + node_leaf_paths(
            d.last().1,
            join_child(prefix, d.last().0),
        )
    }
}

pub open spec fn node_leaf_paths(n: NodeView, path: Seq<char>) -> Seq<Seq<char>>
    decreases n,
{
    match n {
        NodeView::File { .. } => seq![path],
        NodeView::Dir(children) => dir_leaf_paths(children, path),
    }
}

fn child_path(prefix: &str, name: &str) -> (r: String)
    ensures
        r@ == join_child(prefix@, name@),
{
    if prefix.is_empty() {
        owned(name)
    } else {
        let mut r = owned(prefix);
        append_str(&mut r, "/");
        append_str(&mut r, name);
        r
    }
}

fn collect_leaf_paths(dir: &Vec<(String, TreeNode)>, prefix: &str, out: &mut Vec<String>)
    ensures
        strings_view(final(out)@) == strings_view(old(out)@) + dir_leaf_paths(dir_view(dir@), prefix@),
    decreases dir,
{
    let ghost d = dir_view(dir@);
    proof {
        lemma_dir_view_index(dir@);
        assert(d.take(0) =~= Seq::<(Seq<char>, NodeView)>::empty());
        assert(strings_view(out@) + dir_leaf_paths(d.take(0), prefix@) =~= strings_view(out@));
    }
    let mut i: usize = 0;
    while i < dir.len()
        invariant
            i <= dir.len(),
            d == dir_view(dir@),
            d.len() == dir.len(),
            forall|k: int| 0 <= k < dir.len() ==> #[trigger] d[k] == (dir@[k].0@, node_view(dir@[k].1)),
            strings_view(out@) == strings_view(old(out)@) + dir_leaf_paths(d.take(i as int), prefix@),
        decreases dir.len() - i,
    {
        let ghost step = node_leaf_paths(d[i as int].1, join_child(prefix@, d[i as int].0));
        proof {
            assert(d.take(i + 1).drop_last() =~= d.take(i as int));
            assert(d.take(i + 1).last() == d[i as int]);
            assert(dir_leaf_paths(d.take(i + 1), prefix@) == dir_leaf_paths(d.take(i as int), prefix@)
                + step);
        }
        let path = child_path(prefix, dir[i].0.as_str());
        let ghost before = strings_view(out@);
        match &dir[i].1 {
            TreeNode::File { .. } => {
                out.push(path);
                assert(step =~= seq![join_child(prefix@, dir@[i as int].0@)]);
                assert(strings_view(out@) =~= before + step);
            },
            TreeNode::Dir(children) => {
                collect_leaf_paths(children, path.as_str(), out);
                assert(step == dir_leaf_paths(dir_view(children@), path@));
            },
        }
        assert(strings_view(out@) =~= strings_view(old(out)@) + dir_leaf_paths(d.take(i + 1), prefix@));
        i = i + 1;
    }
    assert(d.take(dir.len() as int) =~= d);
}

/// Every `/`-separated path the map's leaves live at.
pub fn collect_paths(file_info: &FileInfo) -> (paths: Vec<String>)
    ensures
        strings_view(paths@) == dir_leaf_paths(dir_view(file_info@), Seq::empty()),
{
    let mut paths: Vec<String> = Vec::new();
    let root = "";
    proof {
        reveal_strlit("");
        assert(strings_view(paths@) =~= Seq::<Seq<char>>::empty());
    }
    collect_leaf_paths(file_info, root, &mut paths);
    assert(root@ =~= Seq::<char>::empty());
    assert(strings_view(paths@) =~= dir_leaf_paths(dir_view(file_info@), Seq::empty()));
    paths
}

/// Whether `s` occurs in a list of strings.
pub fn contains_string(list: &Vec<String>, s: &str) -> (b: bool)
    ensures
        b == strings_view(list@).contains(s@),
{
    let mut i: usize = 0;
    while i < list.len()
        invariant
            i <= list.len(),
            forall|k: int| 0 <= k < i ==> list@[k]@ != s@,
        decreases list.len() - i,
    {
        let wanted = owned(s);
        if list[i] == wanted {
            assert(strings_view(list@)[i as int] == s@);
            return true;
        }
        i = i + 1;
    }
    proof {
        if strings_view(list@).contains(s@) {
            let k = choose|k: int| 0 <= k < strings_view(list@).len() && strings_view(list@)[k] == s@;
            assert(list@[k]@ == s@);
        }
    }
    false
}

} // verus!

verus! {

/// A deep copy of a file map.
pub fn copy_file_info(dir: &FileInfo) -> (r: FileInfo)
    ensures
        dir_view(r@) == dir_view(dir@),
        dir_wf(dir_view(dir@)) ==> dir_wf(dir_view(r@)),
    decreases dir,
{
    let mut r: FileInfo = Vec::new();
    let mut i: usize = 0;
    proof {
        lemma_dir_view_index(dir@);
    }
    while i < dir.len()
        invariant
            i <= dir.len(),
            dir_view(dir@).len() == dir.len(),
            forall|k: int| 0 <= k < dir.len() ==> #[trigger] dir_view(dir@)[k] == (dir@[k].0@, node_view(dir@[k].1)),
            dir_view(r@) == dir_view(dir@).take(i as int),
        decreases dir.len() - i,
    {
        let node = match &dir[i].1 {
            TreeNode::File { f, s } => TreeNode::File { f: f.clone(), s: *s },
            TreeNode::Dir(children) => TreeNode::Dir(copy_file_info(children)),
        };
        let item = (dir[i].0.clone(), node);
        proof {
            lemma_dir_view_push(r@, item);
            assert(dir_view(dir@).take(i + 1) =~= dir_view(dir@).take(i as int).push(dir_view(dir@)[i as int]));
        }
        r.push(item);
        i = i + 1;
    }
    assert(dir_view(dir@).take(dir.len() as int) =~= dir_view(dir@));
    r
}

} // verus!
