//! Reading and editing a file map by `/`-separated path, and folding the
//! content ids the background hash resolved back into a files entry.

use vstd::prelude::*;
use crate::entry::{opt_chars, source_view, sources_view, ClipboardEntry, LocalSource, SourceView};
use crate::tree::{
    describe_roots, describe_roots_of, dir_view, dir_wf, keys_unique, node_wf, lemma_dir_view_index, lemma_split_slash_nonempty, node_view,
    split_segments, split_slash, strings_view, FileInfo, NodeView, TreeNode,
};

verus! {

/// Index of the child called `name` at one level, or `-1`.
pub open spec fn key_index(d: Seq<(Seq<char>, NodeView)>, name: Seq<char>) -> int
    decreases d.len(),
{
    if d.len() == 0 {
        -1
    } else if key_index(d.drop_last(), name) >= 0 {
        key_index(d.drop_last(), name)
    } else if d.last().0 == name {
        d.len() - 1
    } else {
        -1
    }
}

pub proof fn lemma_key_index(d: Seq<(Seq<char>, NodeView)>, name: Seq<char>)
    ensures
        -1 <= key_index(d, name) < d.len(),
        key_index(d, name) >= 0 ==> d[key_index(d, name)].0 == name,
        forall|i: int| 0 <= i < d.len() && (key_index(d, name) < 0 || i < key_index(d, name)) ==> #[trigger] d[i].0
            != name,
    decreases d.len(),
{
    if d.len() > 0 {
        lemma_key_index(d.drop_last(), name);
        assert forall|i: int| 0 <= i < d.len() && (key_index(d, name) < 0 || i < key_index(d, name)) implies #[trigger] d[i].0
            != name by {
            if i < d.len() - 1 {
                assert(d.drop_last()[i] == d[i]);
            }
        }
    }
}

/// The node at a path given by its segments, if every parent is a
/// directory and the last segment names a child.
pub open spec fn node_at(d: Seq<(Seq<char>, NodeView)>, segs: Seq<Seq<char>>) -> Option<NodeView>
    decreases segs.len(),
{
    if segs.len() == 0 {
        None
    } else {
        let k = key_index(d, segs[0]);
        if k < 0 {
            None
        } else if segs.len() == 1 {
            Some(d[k].1)
        } else {
            match d[k].1 {
                NodeView::Dir(children) => node_at(children, segs.drop_first()),
                NodeView::File { .. } => None,
            }
        }
    }
}

/// At the level that holds the leaf: a resolved id is written into the file
/// leaf of that name; an unresolved one removes the child.
pub open spec fn leaf_op(d: Seq<(Seq<char>, NodeView)>, name: Seq<char>, id: Option<Seq<char>>) -> Seq<
    (Seq<char>, NodeView),
> {
    let k = key_index(d, name);
    if k < 0 {
        d
    } else {
        match id {
            Some(f) => match d[k].1 {
                NodeView::File { f: _, s } => d.update(k, (name, NodeView::File { f, s })),
                NodeView::Dir(_) => d,
            },
            None => d.remove(k),
        }
    }
}

/// The map after one resolved path is folded in: the parents are followed
/// while they are directories; a missing parent leaves the map as it is.
pub open spec fn apply_path(d: Seq<(Seq<char>, NodeView)>, segs: Seq<Seq<char>>, id: Option<Seq<char>>) -> Seq<
    (Seq<char>, NodeView),
>
    decreases segs.len(),
{
    if segs.len() == 0 {
        d
    } else if segs.len() == 1 {
        leaf_op(d, segs[0], id)
    } else {
        let k = key_index(d, segs[0]);
        if k < 0 {
            d
        } else {
            match d[k].1 {
                NodeView::Dir(children) => d.update(
                    k,
                    (d[k].0, NodeView::Dir(apply_path(children, segs.drop_first(), id))),
                ),
                NodeView::File { .. } => d,
            }
        }
    }
}

/// The map after every resolved path is folded in, in order.
pub open spec fn apply_all(d: Seq<(Seq<char>, NodeView)>, resolved: Seq<(Seq<char>, Option<Seq<char>>)>) -> Seq<
    (Seq<char>, NodeView),
>
    decreases resolved.len(),
{
    if resolved.len() == 0 {
        d
    } else {
        apply_path(apply_all(d, resolved.drop_last()), split_slash(resolved.last().0), resolved.last().1)
    }
}

proof fn lemma_dir_view_update(s: Seq<(String, TreeNode)>, k: int, x: (String, TreeNode))
    requires
        0 <= k < s.len(),
    ensures
        dir_view(s.update(k, x)) == dir_view(s).update(k, (x.0@, node_view(x.1))),
{
    lemma_dir_view_index(s);
    lemma_dir_view_index(s.update(k, x));
    assert(dir_view(s.update(k, x)) =~= dir_view(s).update(k, (x.0@, node_view(x.1))));
}

proof fn lemma_dir_view_remove(s: Seq<(String, TreeNode)>, k: int)
    requires
        0 <= k < s.len(),
    ensures
        dir_view(s.remove(k)) == dir_view(s).remove(k),
{
    lemma_dir_view_index(s);
    lemma_dir_view_index(s.remove(k));
    assert(dir_view(s.remove(k)) =~= dir_view(s).remove(k));
}

/// Position of the child called `name`.
fn find_child(dir: &Vec<(String, TreeNode)>, name: &String) -> (r: Option<usize>)
    ensures
        match r {
            Some(k) => k as int == key_index(dir_view(dir@), name@) && k < dir@.len(),
            None => key_index(dir_view(dir@), name@) < 0,
        },
{
    let ghost d = dir_view(dir@);
    proof {
        lemma_dir_view_index(dir@);
        lemma_key_index(d, name@);
    }
    let mut i: usize = 0;
    while i < dir.len()
        invariant
            i <= dir.len(),
            d == dir_view(dir@),
            d.len() == dir.len(),
            forall|k: int| 0 <= k < dir.len() ==> #[trigger] d[k] == (dir@[k].0@, node_view(dir@[k].1)),
            forall|j: int| 0 <= j < i ==> #[trigger] d[j].0 != name@,
            -1 <= key_index(d, name@) < d.len(),
            key_index(d, name@) >= 0 ==> d[key_index(d, name@)].0 == name@,
            forall|j: int| 0 <= j < d.len() && (key_index(d, name@) < 0 || j < key_index(d, name@)) ==> #[trigger] d[j].0
                != name@,
        decreases dir.len() - i,
    {
        if dir[i].0 == *name {
            proof {
                let f = key_index(d, name@);
                assert(d[i as int].0 == name@);
                if f >= 0 && f < i {
                    assert(d[f].0 == name@);
                }
            }
            return Some(i);
        }
        assert(d[i as int].0 != name@);
        i = i + 1;
    }
    None
}

/// The node a `/`-separated path names, if any.
pub fn tree_node_at_path<'a>(file_info: &'a FileInfo, path: &str) -> (r: Option<&'a TreeNode>)
    ensures
        match r {
            Some(n) => node_at(dir_view(file_info@), split_slash(path@)) == Some(node_view(*n)),
            None => node_at(dir_view(file_info@), split_slash(path@)) is None,
        },
{
    let segs = split_segments(path);
    assert(strings_view(segs@).skip(0) =~= strings_view(segs@));
    node_at_level(file_info, &segs, 0)
}

fn node_at_level<'a>(dir: &'a Vec<(String, TreeNode)>, segs: &Vec<String>, j: usize) -> (r: Option<&'a TreeNode>)
    requires
        j <= segs.len(),
    ensures
        match r {
            Some(n) => node_at(dir_view(dir@), strings_view(segs@).skip(j as int)) == Some(node_view(*n)),
            None => node_at(dir_view(dir@), strings_view(segs@).skip(j as int)) is None,
        },
    decreases segs.len() - j,
{
    let ghost rest = strings_view(segs@).skip(j as int);
    if j == segs.len() {
        return None;
    }
    assert(rest[0] == segs@[j as int]@);
    proof {
        lemma_dir_view_index(dir@);
    }
    match find_child(dir, &segs[j]) {
        None => None,
        Some(k) => {
            if j + 1 == segs.len() {
                return Some(&dir[k].1);
            }
            assert(rest.drop_first() =~= strings_view(segs@).skip(j + 1));
            match &dir[k].1 {
                TreeNode::Dir(children) => node_at_level(children, segs, j + 1),
                TreeNode::File { .. } => None,
            }
        },
    }
}

fn copy_id(id: &Option<String>) -> (r: Option<String>)
    ensures
        opt_chars(r) == opt_chars(*id),
{
    match id {
        Some(s) => Some(s.clone()),
        None => None,
    }
}

/// Folds one resolved path into a map level, following `segs[j..]`.
fn apply_at(dir: &mut Vec<(String, TreeNode)>, segs: &Vec<String>, j: usize, id: &Option<String>)
    requires
        j < segs.len(),
    ensures
        dir_view(final(dir)@) == apply_path(dir_view(old(dir)@), strings_view(segs@).skip(j as int), opt_chars(*id)),
    decreases segs.len() - j,
{
    let ghost d = dir_view(dir@);
    let ghost rest = strings_view(segs@).skip(j as int);
    assert(rest[0] == segs@[j as int]@);
    proof {
        lemma_dir_view_index(dir@);
        lemma_key_index(d, rest[0]);
    }
    let found = find_child(dir, &segs[j]);
    match found {
        None => {
            proof {
                assert(rest.len() >= 1);
                assert(key_index(d, rest[0]) < 0);
                if rest.len() == 1 {
                    assert(apply_path(d, rest, opt_chars(*id)) == leaf_op(d, rest[0], opt_chars(*id)));
                }
                assert(apply_path(d, rest, opt_chars(*id)) == d);
                assert(dir@ == old(dir)@);
                assert(dir_view(dir@) == d);
            }
        },
        Some(k) => {
            let ghost s0 = dir@;
            let (name, node) = dir.remove(k);
            proof {
                assert(s0[k as int] == (name, node));
                assert(d[k as int] == (name@, node_view(node)));
            }
            if j + 1 == segs.len() {
                match id {
                    Some(f) => {
                        let new_node = match node {
                            TreeNode::File { f: _, s } => TreeNode::File { f: f.clone(), s },
                            TreeNode::Dir(children) => TreeNode::Dir(children),
                        };
                        let ghost x = (name, new_node);
                        dir.insert(k, (name, new_node));
                        proof {
                            assert(dir@ =~= s0.update(k as int, x));
                            lemma_dir_view_update(s0, k as int, x);
                            assert(apply_path(d, rest, opt_chars(*id)) == leaf_op(d, rest[0], opt_chars(*id)));
                            match d[k as int].1 {
                                NodeView::Dir(_) => {
                                    assert(dir_view(dir@) =~= d);
                                },
                                NodeView::File { .. } => {},
                            }
                        }
                    },
                    None => {
                        proof {
                            lemma_dir_view_remove(s0, k as int);
                            assert(apply_path(d, rest, opt_chars(*id)) == leaf_op(d, rest[0], opt_chars(*id)));
                        }
                    },
                }
            } else {
                assert(rest.drop_first() =~= strings_view(segs@).skip(j + 1));
                match node {
                    TreeNode::Dir(mut children) => {
                        apply_at(&mut children, segs, j + 1, id);
                        let ghost x = (name, TreeNode::Dir(children));
                        dir.insert(k, (name, TreeNode::Dir(children)));
                        proof {
                            assert(dir@ =~= s0.update(k as int, x));
                            lemma_dir_view_update(s0, k as int, x);
                        }
                    },
                    TreeNode::File { f, s } => {
                        let ghost x = (name, TreeNode::File { f, s });
                        dir.insert(k, (name, TreeNode::File { f, s }));
                        proof {
                            assert(dir@ =~= s0.update(k as int, x));
                            lemma_dir_view_update(s0, k as int, x);
                            assert(dir_view(dir@) =~= d);
                        }
                    },
                }
            }
        },
    }
}

} // verus!

verus! {

pub open spec fn resolved_view(v: Seq<(String, Option<String>)>) -> Seq<(Seq<char>, Option<Seq<char>>)> {
    Seq::new(v.len(), |i: int| (v[i].0@, opt_chars(v[i].1)))
}

/// Folds resolved `(path, id)` records into a map, in order.
pub fn apply_resolved(file_info: &mut FileInfo, resolved: &Vec<(String, Option<String>)>)
    ensures
        dir_view(final(file_info)@) == apply_all(dir_view(old(file_info)@), resolved_view(resolved@)),
        dir_wf(dir_view(old(file_info)@)) ==> dir_wf(dir_view(final(file_info)@)),
{
    let ghost rv = resolved_view(resolved@);
    let ghost d0 = dir_view(file_info@);
    let mut i: usize = 0;
    assert(rv.take(0) =~= Seq::<(Seq<char>, Option<Seq<char>>)>::empty());
    while i < resolved.len()
        invariant
            i <= resolved.len(),
            rv == resolved_view(resolved@),
            d0 == dir_view(old(file_info)@),
            dir_view(file_info@) == apply_all(d0, rv.take(i as int)),
        decreases resolved.len() - i,
    {
        assert(rv.take(i + 1).drop_last() =~= rv.take(i as int));
        assert(rv.take(i + 1).last() == rv[i as int]);
        let segs = split_segments(resolved[i].0.as_str());
        proof {
            lemma_split_slash_nonempty(resolved@[i as int].0@);
        }
        assert(strings_view(segs@).skip(0) =~= strings_view(segs@));
        apply_at(file_info, &segs, 0, &resolved[i].1);
        i = i + 1;
    }
    assert(rv.take(resolved.len() as int) =~= rv);
    proof {
        if dir_wf(d0) {
            lemma_apply_all_wf(d0, rv);
        }
    }
}

/// The record for `path` that counts: the last one, as a map built from the
/// records keeps it.
pub open spec fn last_resolved(resolved: Seq<(Seq<char>, Option<Seq<char>>)>, path: Seq<char>) -> Option<
    Option<Seq<char>>,
>
    decreases resolved.len(),
{
    if resolved.len() == 0 {
        None
    } else if resolved.last().0 == path {
        Some(resolved.last().1)
    } else {
        last_resolved(resolved.drop_last(), path)
    }
}

/// The sources after hashing: a resolved source records its content id, a
/// source whose file vanished is dropped, the rest stay as they are.
pub open spec fn retain_sources(files: Seq<SourceView>, resolved: Seq<(Seq<char>, Option<Seq<char>>)>) -> Seq<
    SourceView,
>
    decreases files.len(),
{
    if files.len() == 0 {
        Seq::empty()
    } else {
        let prev = retain_sources(files.drop_last(), resolved);
        let s = files.last();
        match last_resolved(resolved, s.path) {
            Some(Some(id)) => prev.push(SourceView { file_id: Some(id), ..s }),
            Some(None) => prev,
            None => prev.push(s),
        }
    }
}

fn lookup_resolved(resolved: &Vec<(String, Option<String>)>, path: &String) -> (r: Option<Option<String>>)
    ensures
        match r {
            Some(id) => last_resolved(resolved_view(resolved@), path@) == Some(opt_chars(id)),
            None => last_resolved(resolved_view(resolved@), path@) is None,
        },
{
    let ghost rv = resolved_view(resolved@);
    let mut i: usize = resolved.len();
    assert(rv.take(i as int) =~= rv);
    while i > 0
        invariant
            i <= resolved.len(),
            rv == resolved_view(resolved@),
            last_resolved(rv, path@) == last_resolved(rv.take(i as int), path@),
        decreases i,
    {
        let ghost pre = rv.take(i as int);
        assert(pre.drop_last() =~= rv.take(i - 1));
        assert(pre.last() == rv[i - 1]);
        if resolved[i - 1].0 == *path {
            return Some(copy_id(&resolved[i - 1].1));
        }
        i = i - 1;
    }
    assert(rv.take(0) =~= Seq::<(Seq<char>, Option<Seq<char>>)>::empty());
    None
}

fn copy_local_source(s: &LocalSource, file_id: Option<String>) -> (r: LocalSource)
    ensures
        source_view(r) == (SourceView { file_id: opt_chars(file_id), ..source_view(*s) }),
{
    LocalSource {
        path: s.path.clone(),
        source: s.source.clone(),
        size: s.size,
        modified_at: s.modified_at,
        file_id,
    }
}

/// Folds the content ids the background hash resolved into a files entry:
/// the map's leaves get their ids, files that vanished
/// between copy and hash leave the map and the sources, and the content
/// description is recomputed from the map. The records are `(path, id)`
/// pairs; an id of `None` means the file vanished.
pub fn apply_hashes(entry: &mut ClipboardEntry, resolved: &Vec<(String, Option<String>)>)
    ensures
        ({
            let rv = resolved_view(resolved@);
            &&& old(entry).file_info is Some ==> final(entry).file_info is Some && dir_view(
                final(entry).file_info->0@,
            ) == apply_all(dir_view(old(entry).file_info->0@), rv)
            &&& old(entry).file_info is None ==> final(entry).file_info is None
            &&& sources_view(final(entry).sources.files@) == retain_sources(sources_view(old(entry).sources.files@), rv)
            &&& final(entry).content@ == (if old(entry).file_info is Some {
                describe_roots_of(dir_view(final(entry).file_info->0@))
            } else {
                old(entry).content@
            })
        }),
        final(entry).id == old(entry).id,
        final(entry).kind == old(entry).kind,
        final(entry).html == old(entry).html,
        final(entry).rtf == old(entry).rtf,
        final(entry).image_info == old(entry).image_info,
        final(entry).source_device_id == old(entry).source_device_id,
        final(entry).created_at == old(entry).created_at,
        final(entry).summary == old(entry).summary,
        final(entry).sources.roots == old(entry).sources.roots,
        old(entry).file_info is Some && dir_wf(dir_view(old(entry).file_info->0@)) ==> dir_wf(
            dir_view(final(entry).file_info->0@),
        ),
{
    match &mut entry.file_info {
        Some(file_info) => {
            apply_resolved(file_info, resolved);
        },
        None => {},
    }
    let ghost rv = resolved_view(resolved@);
    let ghost sv = sources_view(entry.sources.files@);
    let mut kept: Vec<LocalSource> = Vec::new();
    let mut i: usize = 0;
    assert(sv.take(0) =~= Seq::<SourceView>::empty());
    while i < entry.sources.files.len()
        invariant
            i <= entry.sources.files.len(),
            rv == resolved_view(resolved@),
            sv == sources_view(entry.sources.files@),
            sources_view(kept@) == retain_sources(sv.take(i as int), rv),
        decreases entry.sources.files.len() - i,
    {
        assert(sv.take(i + 1).drop_last() =~= sv.take(i as int));
        assert(sv.take(i + 1).last() == source_view(entry.sources.files@[i as int]));
        let ghost before = sources_view(kept@);
        match lookup_resolved(resolved, &entry.sources.files[i].path) {
            Some(Some(id)) => {
                let s = copy_local_source(&entry.sources.files[i], Some(id));
                kept.push(s);
                assert(sources_view(kept@) =~= before.push(source_view(s)));
            },
            Some(None) => {},
            None => {
                let s = copy_local_source(&entry.sources.files[i], copy_id(&entry.sources.files[i].file_id));
                kept.push(s);
                assert(sources_view(kept@) =~= before.push(source_view(s)));
                assert(source_view(s) == source_view(entry.sources.files@[i as int]));
            },
        }
        i = i + 1;
    }
    assert(sv.take(sv.len() as int) =~= sv);
    entry.sources.files = kept;
    match &entry.file_info {
        Some(file_info) => {
            entry.content = describe_roots(file_info);
        },
        None => {},
    }
}

} // verus!

verus! {

proof fn lemma_key_index_update(d: Seq<(Seq<char>, NodeView)>, name: Seq<char>, x: (Seq<char>, NodeView))
    requires
        key_index(d, name) >= 0,
        x.0 == name,
    ensures
        key_index(d.update(key_index(d, name), x), name) == key_index(d, name),
{
    let k = key_index(d, name);
    lemma_key_index(d, name);
    let d2 = d.update(k, x);
    lemma_key_index(d2, name);
    let k2 = key_index(d2, name);
    if k2 < 0 {
        assert(d2[k].0 == name);
    } else if k2 < k {
        assert(d2[k2] == d[k2]);
    } else if k2 > k {
        assert(d2[k].0 == name);
    }
}

/// Folding in one resolution keeps every level's names unique: it only
/// rewrites a leaf's id or drops a child.
pub proof fn lemma_apply_path_wf(d: Seq<(Seq<char>, NodeView)>, segs: Seq<Seq<char>>, id: Option<Seq<char>>)
    requires
        dir_wf(d),
    ensures
        dir_wf(apply_path(d, segs, id)),
    decreases segs.len(),
{
    if segs.len() == 0 {
    } else if segs.len() == 1 {
        lemma_key_index(d, segs[0]);
        let k = key_index(d, segs[0]);
        if k >= 0 {
            match id {
                Some(f) => match d[k].1 {
                    NodeView::File { f: _, s } => {
                        let r = d.update(k, (segs[0], NodeView::File { f, s }));
                        assert(forall|i: int| 0 <= i < r.len() ==> #[trigger] r[i].0 == d[i].0);
                        assert(forall|i: int| 0 <= i < r.len() && i != k ==> #[trigger] r[i].1 == d[i].1);
                        assert forall|i: int| 0 <= i < r.len() implies node_wf(#[trigger] r[i].1) by {
                            if i != k {
                                assert(node_wf(d[i].1));
                            }
                        }
                        assert(keys_unique(r));
                    },
                    NodeView::Dir(_) => {},
                },
                None => {
                    let r = d.remove(k);
                    assert forall|i: int| 0 <= i < r.len() implies node_wf(#[trigger] r[i].1) by {
                        if i < k {
                            assert(r[i] == d[i]);
                            assert(node_wf(d[i].1));
                        } else {
                            assert(r[i] == d[i + 1]);
                            assert(node_wf(d[i + 1].1));
                        }
                    }
                    assert forall|i: int, j: int| 0 <= i < j < r.len() implies r[i].0 != r[j].0 by {
                        let a = if i < k { i } else { i + 1 };
                        let b = if j < k { j } else { j + 1 };
                        assert(r[i] == d[a]);
                        assert(r[j] == d[b]);
                    }
                    assert(keys_unique(r));
                },
            }
        }
    } else {
        lemma_key_index(d, segs[0]);
        let k = key_index(d, segs[0]);
        if k >= 0 {
            match d[k].1 {
                NodeView::Dir(children) => {
                    assert(node_wf(d[k].1));
                    assert(dir_wf(children));
                    lemma_apply_path_wf(children, segs.drop_first(), id);
                    let r = d.update(k, (d[k].0, NodeView::Dir(apply_path(children, segs.drop_first(), id))));
                    assert(forall|i: int| 0 <= i < r.len() ==> #[trigger] r[i].0 == d[i].0);
                    assert forall|i: int| 0 <= i < r.len() implies node_wf(#[trigger] r[i].1) by {
                        if i != k {
                            assert(r[i] == d[i]);
                            assert(node_wf(d[i].1));
                        }
                    }
                    assert(keys_unique(r));
                },
                NodeView::File { .. } => {},
            }
        }
    }
}

/// Folding in any list of resolutions keeps every level's names unique.
pub proof fn lemma_apply_all_wf(d: Seq<(Seq<char>, NodeView)>, resolved: Seq<(Seq<char>, Option<Seq<char>>)>)
    requires
        dir_wf(d),
    ensures
        dir_wf(apply_all(d, resolved)),
    decreases resolved.len(),
{
    if resolved.len() > 0 {
        lemma_apply_all_wf(d, resolved.drop_last());
        lemma_apply_path_wf(apply_all(d, resolved.drop_last()), split_slash(resolved.last().0), resolved.last().1);
    }
}

/// What a read gives back of a resolution: after a content id is folded in
/// at the path of a file leaf, the path names that leaf with the new id and
/// the size it had.
pub proof fn law_resolved_leaf_reads_back(d: Seq<(Seq<char>, NodeView)>, segs: Seq<Seq<char>>, f: Seq<char>)
    requires
        node_at(d, segs) matches Some(NodeView::File { .. }),
    ensures
        node_at(apply_path(d, segs, Some(f)), segs) == Some(NodeView::File { f, s: node_at(d, segs)->0->s }),
    decreases segs.len(),
{
    let k = key_index(d, segs[0]);
    lemma_key_index(d, segs[0]);
    if segs.len() == 1 {
        let s = d[k].1->s;
        lemma_key_index_update(d, segs[0], (segs[0], NodeView::File { f, s }));
    } else {
        match d[k].1 {
            NodeView::Dir(children) => {
                let rest = segs.drop_first();
                law_resolved_leaf_reads_back(children, rest, f);
                lemma_key_index_update(d, segs[0], (d[k].0, NodeView::Dir(apply_path(children, rest, Some(f)))));
            },
            NodeView::File { .. } => {},
        }
    }
}

/// Folding in a resolution for a path that names nothing leaves the map as
/// it was.
pub proof fn law_unknown_path_changes_nothing(
    d: Seq<(Seq<char>, NodeView)>,
    segs: Seq<Seq<char>>,
    id: Option<Seq<char>>,
)
    requires
        segs.len() >= 1,
        node_at(d, segs) is None,
        id is Some,
    ensures
        apply_path(d, segs, id) == d,
    decreases segs.len(),
{
    let k = key_index(d, segs[0]);
    lemma_key_index(d, segs[0]);
    if k >= 0 && segs.len() > 1 {
        match d[k].1 {
            NodeView::Dir(children) => {
                law_unknown_path_changes_nothing(children, segs.drop_first(), id);
                assert(d.update(k, (d[k].0, NodeView::Dir(children))) =~= d);
            },
            NodeView::File { .. } => {},
        }
    }
}

} // verus!
