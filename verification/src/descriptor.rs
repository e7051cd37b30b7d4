//! Virtual-file paste on Windows: the file map of an entry flattened into
//! descriptor items, with the path rules a `FILEDESCRIPTORW` imposes.

use vstd::prelude::*;
use crate::entry::ClipboardEntry;
use crate::hashing::{file_id_shape, is_file_id};
use crate::text::{append_char, append_str, chars_of, owned, result_chars};
use crate::tree::{
    dir_view, join_child, lemma_dir_view_index, lemma_split_slash_nonempty, node_view, split_segments, split_slash,
    strings_view, NodeView, TreeNode,
};

verus! {

/// The fixed length of `FILEDESCRIPTORW::cFileName`, in UTF-16 units.
pub const MAX_DESCRIPTOR_PATH: usize = 260;

/// One item the virtual-file clipboard offers.
#[derive(Clone, Debug)]
pub struct VirtualItem {
    pub relative_path: String,
    pub file_id: Option<String>,
    pub size: Option<u64>,
    pub is_dir: bool,
}

/// An item taken by value.
pub struct ItemView {
    pub relative_path: Seq<char>,
    pub file_id: Option<Seq<char>>,
    pub size: Option<u64>,
    pub is_dir: bool,
}

pub open spec fn opt_chars(o: Option<String>) -> Option<Seq<char>> {
    match o {
        Some(s) => Some(s@),
        None => None,
    }
}

pub open spec fn item_view(i: VirtualItem) -> ItemView {
    ItemView { relative_path: i.relative_path@, file_id: opt_chars(i.file_id), size: i.size, is_dir: i.is_dir }
}

pub open spec fn items_view(v: Seq<VirtualItem>) -> Seq<ItemView> {
    Seq::new(v.len(), |i: int| item_view(v[i]))
}

/// How many UTF-16 code units a string takes.
pub open spec fn utf16_len(s: Seq<char>) -> nat
    decreases s.len(),
{
    if s.len() == 0 {
        0
    } else {
        utf16_len(s.drop_last()) + if (s.last() as u32) >= 0x10000 {
            2nat
        } else {
            1nat
        }
    }
}

/// `/` turned into `\`.
pub open spec fn backslashed(s: Seq<char>) -> Seq<char> {
    s.map_values(|c: char| if c == '/' { '\\' } else { c })
}

/// An empty, `.` or `..` path segment.
pub open spec fn bad_segment(s: Seq<char>) -> bool {
    s.len() == 0 || s == "."@ || s == ".."@
}

/// A descriptor path that leaves the copied tree or cannot name a file.
pub open spec fn descriptor_path_invalid(p: Seq<char>) -> bool {
    ||| p.len() == 0
    ||| p[0] == '/'
    ||| exists|i: int| 0 <= i < split_slash(p).len() && #[trigger] bad_segment(split_slash(p)[i])
    ||| p.contains('\0')
}

/// The descriptor form of a relative path, or why it has none.
pub open spec fn normalize_descriptor_path_of(p: Seq<char>) -> Result<Seq<char>, Seq<char>> {
    if descriptor_path_invalid(p) {
        Err("虚拟文件路径不合法："@ + p)
    } else if utf16_len(backslashed(p)) >= MAX_DESCRIPTOR_PATH {
        Err("虚拟文件路径超过 Windows 限制："@ + backslashed(p))
    } else {
        Ok(backslashed(p))
    }
}

/// A map path as a descriptor path: refused
/// when it is empty, absolute, has an empty, `.` or `..` segment or a NUL,
/// or when its `\`-separated form does not fit the fixed 260-unit name.
pub fn normalize_descriptor_path(path: &str) -> (r: Result<String, String>)
    ensures
        result_chars(r) == normalize_descriptor_path_of(path@),
{
    let cs = chars_of(path);
    let segs = split_segments(path);
    proof {
        lemma_split_slash_nonempty(path@);
        reveal_strlit(".");
        reveal_strlit("..");
    }
    let ghost sv = strings_view(segs@);
    let dot = owned(".");
    let dots = owned("..");
    let mut bad = cs.len() == 0 || cs[0] == '/';
    let mut i: usize = 0;
    while i < segs.len()
        invariant
            i <= segs.len(),
            sv == strings_view(segs@),
            sv == split_slash(path@),
            cs@ == path@,
            dot@ == "."@,
            dots@ == ".."@,
            bad == (path@.len() == 0 || path@[0] == '/' || exists|k: int|
                0 <= k < i && #[trigger] bad_segment(sv[k])),
        decreases segs.len() - i,
    {
        assert(sv[i as int] == segs@[i as int]@);
        if segs[i].as_str().is_empty() || segs[i] == dot || segs[i] == dots {
            assert(bad_segment(sv[i as int]));
            bad = true;
        } else {
            assert(!bad_segment(sv[i as int]));
        }
        i = i + 1;
    }
    let mut has_nul = false;
    let mut j: usize = 0;
    while j < cs.len()
        invariant
            j <= cs.len(),
            has_nul == exists|k: int| 0 <= k < j && cs@[k] == '\0',
        decreases cs.len() - j,
    {
        if cs[j] == '\0' {
            has_nul = true;
        }
        j = j + 1;
    }
    assert(has_nul == path@.contains('\0'));
    if bad || has_nul {
        let mut message = owned("虚拟文件路径不合法：");
        append_str(&mut message, path);
        return Err(message);
    }
    let mut replaced = String::new();
    let mut units: usize = 0;
    let mut k: usize = 0;
    while k < cs.len()
        invariant
            k <= cs.len(),
            cs@ == path@,
            replaced@ == backslashed(cs@.take(k as int)),
            units as nat == (if utf16_len(backslashed(cs@.take(k as int))) < 260 {
                utf16_len(backslashed(cs@.take(k as int)))
            } else {
                260
            }),
        decreases cs.len() - k,
    {
        let c = cs[k];
        let out = if c == '/' {
            '\\'
        } else {
            c
        };
        append_char(&mut replaced, out);
        let wide: usize = if (out as u32) >= 0x10000 {
            2
        } else {
            1
        };
        proof {
            assert(backslashed(cs@.take(k + 1)) =~= backslashed(cs@.take(k as int)).push(out));
            assert(backslashed(cs@.take(k + 1)).drop_last() =~= backslashed(cs@.take(k as int)));
        }
        units = if units + wide >= 260 {
            260
        } else {
            units + wide
        };
        k = k + 1;
    }
    assert(cs@.take(cs.len() as int) =~= path@);
    if units >= MAX_DESCRIPTOR_PATH {
        let mut message = owned("虚拟文件路径超过 Windows 限制：");
        append_str(&mut message, replaced.as_str());
        return Err(message);
    }
    Ok(replaced)
}

/// The descriptor item of a file leaf, or why there is none.
pub open spec fn file_item_of(path: Seq<char>, f: Seq<char>, size: u64) -> Result<ItemView, Seq<char>> {
    if !file_id_shape(f) {
        Err("文件内容尚未准备好："@ + path)
    } else {
        match normalize_descriptor_path_of(path) {
            Ok(p) => Ok(ItemView { relative_path: p, file_id: Some(f), size: Some(size), is_dir: false }),
            Err(e) => Err(e),
        }
    }
}

pub open spec fn item_result(r: Result<VirtualItem, String>) -> Result<ItemView, Seq<char>> {
    match r {
        Ok(i) => Ok(item_view(i)),
        Err(e) => Err(e@),
    }
}

/// The descriptor item of a file leaf: only a leaf whose
/// content id is resolved can be offered.
pub fn file_item(path: &str, f: &str, size: u64) -> (r: Result<VirtualItem, String>)
    ensures
        item_result(r) == file_item_of(path@, f@, size),
{
    if !is_file_id(f) {
        let mut message = owned("文件内容尚未准备好：");
        append_str(&mut message, path);
        return Err(message);
    }
    match normalize_descriptor_path(path) {
        Ok(relative_path) => Ok(VirtualItem { relative_path, file_id: Some(owned(f)), size: Some(size), is_dir: false }),
        Err(e) => Err(e),
    }
}

} // verus!

verus! {

/// The items of one map level under `prefix`, depth first, or the first
/// reason one cannot be offered.
pub open spec fn dir_items(d: Seq<(Seq<char>, NodeView)>, prefix: Seq<char>) -> Result<Seq<ItemView>, Seq<char>>
    decreases d,
{
    if d.len() == 0 {
        Ok(Seq::empty())
    } else {
        match dir_items(d.drop_last(), prefix) {
            Err(e) => Err(e),
            Ok(items) => match node_items(d.last().1, join_child(prefix, d.last().0)) {
                Err(e) => Err(e),
                Ok(more) => Ok(items + more),
            },
        }
    }
}

/// The items of one node at `path`: a file leaf's item, or a directory's own
/// item followed by its children's.
pub open spec fn node_items(n: NodeView, path: Seq<char>) -> Result<Seq<ItemView>, Seq<char>>
    decreases n,
{
    match n {
        NodeView::File { f, s } => match file_item_of(path, f, s) {
            Ok(i) => Ok(seq![i]),
            Err(e) => Err(e),
        },
        NodeView::Dir(children) => match normalize_descriptor_path_of(path) {
            Err(e) => Err(e),
            Ok(p) => match dir_items(children, path) {
                Err(e) => Err(e),
                Ok(more) => Ok(seq![ItemView { relative_path: p, file_id: None, size: Some(0), is_dir: true }] + more),
            },
        },
    }
}

pub open spec fn no_files_message() -> Seq<char> {
    "该记录不包含文件"@
}

/// Every item an entry offers for a virtual-file paste, or why it cannot
/// offer them.
pub open spec fn virtual_items_of(file_info: Option<Seq<(Seq<char>, NodeView)>>) -> Result<Seq<ItemView>, Seq<char>> {
    match file_info {
        None => Err(no_files_message()),
        Some(d) => match dir_items(d, Seq::empty()) {
            Err(e) => Err(e),
            Ok(items) => if items.len() == 0 {
                Err(no_files_message())
            } else {
                Ok(items)
            },
        },
    }
}

pub open spec fn items_result(r: Result<Vec<VirtualItem>, String>) -> Result<Seq<ItemView>, Seq<char>> {
    match r {
        Ok(v) => Ok(items_view(v@)),
        Err(e) => Err(e@),
    }
}

fn child_path(prefix: &str, name: &str) -> (r: String)
    ensures
        r@ == join_child(prefix@, name@),
{
    if prefix.is_empty() {
        owned(name)
    } else {
        let mut r = owned(prefix);
        append_str(&mut r, "/");
        append_str(&mut r, name);
        r
    }
}

proof fn lemma_dir_items_err_extends(d: Seq<(Seq<char>, NodeView)>, prefix: Seq<char>, j: int)
    requires
        0 <= j <= d.len(),
        dir_items(d.take(j), prefix) is Err,
    ensures
        dir_items(d, prefix) == dir_items(d.take(j), prefix),
    decreases d.len(),
{
    if j == d.len() {
        assert(d.take(j) =~= d);
    } else {
        assert(d.drop_last().take(j) =~= d.take(j));
        lemma_dir_items_err_extends(d.drop_last(), prefix, j);
    }
}

fn walk_items(dir: &Vec<(String, TreeNode)>, prefix: &str, items: &mut Vec<VirtualItem>) -> (r: Result<(), String>)
    ensures
        match r {
            Ok(_) => dir_items(dir_view(dir@), prefix@) is Ok && items_view(final(items)@) == items_view(old(items)@)
                + dir_items(dir_view(dir@), prefix@)->Ok_0,
            Err(e) => dir_items(dir_view(dir@), prefix@) == Err::<Seq<ItemView>, Seq<char>>(e@),
        },
    decreases dir,
{
    let ghost d = dir_view(dir@);
    let ghost base = items_view(items@);
    proof {
        lemma_dir_view_index(dir@);
        assert(d.take(0) =~= Seq::<(Seq<char>, NodeView)>::empty());
        assert(items_view(items@) =~= base + Seq::<ItemView>::empty());
    }
    let mut i: usize = 0;
    while i < dir.len()
        invariant
            i <= dir.len(),
            d == dir_view(dir@),
            d.len() == dir.len(),
            forall|k: int| 0 <= k < dir.len() ==> #[trigger] d[k] == (dir@[k].0@, node_view(dir@[k].1)),
            base == items_view(old(items)@),
            dir_items(d.take(i as int), prefix@) is Ok,
            items_view(items@) == base + dir_items(d.take(i as int), prefix@)->Ok_0,
        decreases dir.len() - i,
    {
        let ghost pre = d.take(i + 1);
        assert(pre.drop_last() =~= d.take(i as int));
        assert(pre.last() == d[i as int]);
        let ghost acc = dir_items(d.take(i as int), prefix@)->Ok_0;
        let path = child_path(prefix, dir[i].0.as_str());
        let ghost cur = items_view(items@);
        match &dir[i].1 {
            TreeNode::File { f, s } => {
                match file_item(path.as_str(), f.as_str(), *s) {
                    Ok(item) => {
                        items.push(item);
                        assert(items_view(items@) =~= cur.push(item_view(item)));
                        assert(items_view(items@) =~= base + (acc + seq![item_view(item)]));
                    },
                    Err(e) => {
                        proof {
                            lemma_dir_items_err_extends(d, prefix@, i + 1);
                        }
                        return Err(e);
                    },
                }
            },
            TreeNode::Dir(children) => {
                match normalize_descriptor_path(path.as_str()) {
                    Err(e) => {
                        proof {
                            lemma_dir_items_err_extends(d, prefix@, i + 1);
                        }
                        return Err(e);
                    },
                    Ok(p) => {
                        let item = VirtualItem { relative_path: p, file_id: None, size: Some(0), is_dir: true };
                        let ghost iv = item_view(item);
                        items.push(item);
                        let ghost mid = items_view(items@);
                        assert(mid =~= cur.push(iv));
                        match walk_items(children, path.as_str(), items) {
                            Err(e) => {
                                proof {
                                    assert(d[i as int].1 == NodeView::Dir(dir_view(children@)));
                                    assert(node_items(d[i as int].1, path@) is Err);
                                    lemma_dir_items_err_extends(d, prefix@, i + 1);
                                }
                                return Err(e);
                            },
                            Ok(_) => {
                                let ghost more = dir_items(dir_view(children@), path@)->Ok_0;
                                assert(items_view(items@) =~= base + (acc + (seq![iv] + more)));
                            },
                        }
                    },
                }
            },
        }
        i = i + 1;
    }
    assert(d.take(dir.len() as int) =~= d);
    Ok(())
}

/// Every item an entry offers for a virtual-file paste.
pub fn virtual_items(entry: &ClipboardEntry) -> (r: Result<Vec<VirtualItem>, String>)
    ensures
        items_result(r) == virtual_items_of(crate::entry::opt_file_info(entry.file_info)),
{
    match &entry.file_info {
        None => Err(owned("该记录不包含文件")),
        Some(file_info) => {
            let mut items: Vec<VirtualItem> = Vec::new();
            assert(items_view(items@) =~= Seq::<ItemView>::empty());
            let root = String::new();
            match walk_items(file_info, root.as_str(), &mut items) {
                Err(e) => Err(e),
                Ok(_) => {
                    assert(root@ =~= Seq::<char>::empty());
                    assert(items_view(items@) =~= dir_items(dir_view(file_info@), Seq::empty())->Ok_0);
                    if items.len() == 0 {
                        Err(owned("该记录不包含文件"))
                    } else {
                        Ok(items)
                    }
                },
            }
        },
    }
}

/// Whether an entry can be pasted as virtual files;
/// entries that cannot fall back to materialised paths.
pub fn supports_entry(entry: &ClipboardEntry) -> (b: bool)
    ensures
        b == virtual_items_of(crate::entry::opt_file_info(entry.file_info)) is Ok,
{
    virtual_items(entry).is_ok()
}

/// Prepares the virtual-file clipboard; nothing to set up
/// ahead of the first paste.
pub fn initialize() -> (r: Result<(), String>)
    ensures
        r is Ok,
{
    Ok(())
}

} // verus!

verus! {

// ---------------------------------------------------------------------------
// Reading a pasted virtual file
// ---------------------------------------------------------------------------

/// What one read of a pasted virtual file does next.
#[derive(Clone, Debug)]
pub enum StreamRead {
    /// Read from the complete local copy of the content.
    FromCopy,
    /// Read this many bytes of the content as far as it arrived.
    FromArrived(usize),
    /// The transfer finished without the bytes asked for: the read is empty.
    End,
    /// The transfer failed with this error.
    Fail(String),
    /// Wait for the transfer to move on, then decide again.
    Wait,
}

/// The next step of a read at `position` into a buffer of `want` bytes:
/// a complete local copy is read directly; otherwise bytes that already
/// arrived past `position` are read, at most `want` of them; otherwise the
/// transfer's failure ends the read with its error, its completion ends it
/// empty, and anything else waits.
pub fn stream_read_step(
    resolved: bool,
    arrived_len: Option<u64>,
    position: u64,
    want: usize,
    status: Option<&crate::downloads::VirtualDownloadStatus>,
) -> (step: StreamRead)
    ensures
        resolved ==> step is FromCopy,
        !resolved && (arrived_len matches Some(l) && l > position) ==> (step matches StreamRead::FromArrived(n)
            && n as int == if arrived_len->0 - position < want { arrived_len->0 - position } else { want as int }),
        !resolved && !(arrived_len matches Some(l) && l > position) ==> match status {
            Some(st) => match st.error {
                Some(e) => step matches StreamRead::Fail(m) && m@ == e@,
                None => if st.complete {
                    step is End
                } else {
                    step is Wait
                },
            },
            None => step is Wait,
        },
{
    if resolved {
        return StreamRead::FromCopy;
    }
    if let Some(length) = arrived_len {
        if length > position {
            let left = length - position;
            let n: usize = if left < want as u64 {
                left as usize
            } else {
                want
            };
            return StreamRead::FromArrived(n);
        }
    }
    match status {
        Some(st) => match &st.error {
            Some(e) => StreamRead::Fail(owned(e.as_str())),
            None => if st.complete {
                StreamRead::End
            } else {
                StreamRead::Wait
            },
        },
        None => StreamRead::Wait,
    }
}

} // verus!
