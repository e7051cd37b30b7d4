//! The identity of a file capture: the non-empty content ids it names, in
//! text order and without repeats, joined by newlines, decide its entry id,
//! whatever order its files came in.

use vstd::prelude::*;
use crate::text::{chars_of, owned, string_from_chars};
use crate::hashing::{entry_id, entry_id_of, file_id_shape};

verus! {

/// One file of a capture as the desktop history keeps it.
#[derive(Clone)]
pub struct ClipboardFile {
    pub file_id: String,
    pub size: u64,
    pub available: bool,
}

/// The content ids of a list of files, in order.
pub open spec fn file_ids_view(files: Seq<ClipboardFile>) -> Seq<Seq<char>> {
    Seq::new(files.len(), |i: int| files[i].file_id@)
}

/// Character vectors taken by value.
pub open spec fn chars_view(v: Seq<Vec<char>>) -> Seq<Seq<char>> {
    Seq::new(v.len(), |i: int| v[i]@)
}

// ---------------------------------------------------------------------------
// Text order
// ---------------------------------------------------------------------------

/// Lexicographic order of texts by code point. This is the order of `str`:
/// UTF-8 keeps code-point order byte by byte.
pub open spec fn text_less(a: Seq<char>, b: Seq<char>) -> bool
    decreases a.len(),
{
    if a.len() == 0 {
        b.len() > 0
    } else if b.len() == 0 {
        false
    } else if a[0] != b[0] {
        (a[0] as int) < (b[0] as int)
    } else {
        text_less(a.drop_first(), b.drop_first())
    }
}

pub proof fn lemma_text_less_irreflexive(a: Seq<char>)
    ensures
        !text_less(a, a),
    decreases a.len(),
{
    if a.len() > 0 {
        lemma_text_less_irreflexive(a.drop_first());
    }
}

pub proof fn lemma_text_less_transitive(a: Seq<char>, b: Seq<char>, c: Seq<char>)
    requires
        text_less(a, b),
        text_less(b, c),
    ensures
        text_less(a, c),
    decreases a.len(),
{
    if a.len() > 0 && b.len() > 0 && c.len() > 0 && a[0] == b[0] && b[0] == c[0] {
        lemma_text_less_transitive(a.drop_first(), b.drop_first(), c.drop_first());
    }
}

pub proof fn lemma_text_less_total(a: Seq<char>, b: Seq<char>)
    requires
        a != b,
    ensures
        text_less(a, b) || text_less(b, a),
    decreases a.len(),
{
    if a.len() == 0 && b.len() == 0 {
        assert(a =~= b);
    } else if a.len() > 0 && b.len() > 0 && a[0] == b[0] {
        if a.drop_first() == b.drop_first() {
            assert(a =~= seq![a[0]] + a.drop_first());
            assert(b =~= seq![b[0]] + b.drop_first());
        } else {
            lemma_text_less_total(a.drop_first(), b.drop_first());
        }
    }
}

/// Whether two texts are in order (`a < b`), computed on their characters.
pub fn text_less_exec(a: &[char], b: &[char]) -> (r: bool)
    ensures
        r == text_less(a@, b@),
{
    let mut i: usize = 0;
    assert(a@.skip(0) =~= a@);
    assert(b@.skip(0) =~= b@);
    while i < a.len() && i < b.len() && a[i] == b[i]
        invariant
            i <= a.len(),
            i <= b.len(),
            text_less(a@, b@) == text_less(a@.skip(i as int), b@.skip(i as int)),
        decreases a.len() - i,
    {
        assert(a@.skip(i as int).drop_first() =~= a@.skip(i + 1));
        assert(b@.skip(i as int).drop_first() =~= b@.skip(i + 1));
        i = i + 1;
    }
    if i == a.len() {
        i < b.len()
    } else if i == b.len() {
        false
    } else {
        assert(a@.skip(i as int)[0] == a[i as int]);
        assert(b@.skip(i as int)[0] == b[i as int]);
        a[i] < b[i]
    }
}

// ---------------------------------------------------------------------------
// Sorted listings
// ---------------------------------------------------------------------------

/// Strictly increasing in text order, hence without repeats.
pub open spec fn strictly_sorted(s: Seq<Seq<char>>) -> bool {
    forall|i: int, j: int| 0 <= i < j < s.len() ==> text_less(#[trigger] s[i], #[trigger] s[j])
}

/// Two strictly sorted listings of the same texts are the same listing.
pub proof fn lemma_sorted_listing_is_unique(s1: Seq<Seq<char>>, s2: Seq<Seq<char>>)
    requires
        strictly_sorted(s1),
        strictly_sorted(s2),
        s1.to_set() == s2.to_set(),
    ensures
        s1 == s2,
    decreases s1.len(),
{
    if s1.len() == 0 {
        if s2.len() > 0 {
            assert(s2.contains(s2[0]));
            assert(s2.to_set().contains(s2[0]));
            assert(s1.contains(s2[0]));
        }
        assert(s1 =~= s2);
    } else if s2.len() == 0 {
        assert(s1.contains(s1[0]));
        assert(s1.to_set().contains(s1[0]));
        assert(s2.contains(s1[0]));
    } else {
        let a = s1[0];
        let b = s2[0];
        assert(s1.contains(a));
        assert(s1.to_set().contains(a));
        assert(s2.contains(a));
        assert(s2.contains(b));
        assert(s2.to_set().contains(b));
        assert(s1.contains(b));
        if a != b {
            let k = choose|k: int| 0 <= k < s2.len() && s2[k] == a;
            let m = choose|m: int| 0 <= m < s1.len() && s1[m] == b;
            assert(text_less(s2[0], s2[k]));
            assert(text_less(s1[0], s1[m]));
            lemma_text_less_transitive(a, b, a);
            lemma_text_less_irreflexive(a);
        }
        let t1 = s1.drop_first();
        let t2 = s2.drop_first();
        assert(strictly_sorted(t1)) by {
            assert forall|i: int, j: int| 0 <= i < j < t1.len() implies text_less(
                #[trigger] t1[i],
                #[trigger] t1[j],
            ) by {
                assert(t1[i] == s1[i + 1] && t1[j] == s1[j + 1]);
            }
        }
        assert(strictly_sorted(t2)) by {
            assert forall|i: int, j: int| 0 <= i < j < t2.len() implies text_less(
                #[trigger] t2[i],
                #[trigger] t2[j],
            ) by {
                assert(t2[i] == s2[i + 1] && t2[j] == s2[j + 1]);
            }
        }
        assert forall|x: Seq<char>| #[trigger] t1.contains(x) implies t2.contains(x) by {
            let i = choose|i: int| 0 <= i < t1.len() && t1[i] == x;
            assert(s1[i + 1] == x);
            assert(text_less(s1[0], s1[i + 1]));
            lemma_text_less_irreflexive(x);
            assert(s1.contains(x));
            assert(s1.to_set().contains(x));
            assert(s2.contains(x));
            let j = choose|j: int| 0 <= j < s2.len() && s2[j] == x;
            assert(j != 0);
            assert(t2[j - 1] == x);
        }
        assert forall|x: Seq<char>| #[trigger] t2.contains(x) implies t1.contains(x) by {
            let i = choose|i: int| 0 <= i < t2.len() && t2[i] == x;
            assert(s2[i + 1] == x);
            assert(text_less(s2[0], s2[i + 1]));
            lemma_text_less_irreflexive(x);
            assert(s2.contains(x));
            assert(s2.to_set().contains(x));
            assert(s1.contains(x));
            let j = choose|j: int| 0 <= j < s1.len() && s1[j] == x;
            assert(j != 0);
            assert(t1[j - 1] == x);
        }
        assert(t1.to_set() =~= t2.to_set());
        lemma_sorted_listing_is_unique(t1, t2);
        assert(s1 =~= s2) by {
            assert forall|i: int| 0 <= i < s1.len() implies s1[i] == s2[i] by {
                if i > 0 {
                    assert(s1[i] == t1[i - 1]);
                    assert(s2[i] == t2[i - 1]);
                }
            }
        }
    }
}

/// The strictly sorted listing of a finite set of texts.
pub open spec fn sorted_listing(texts: Set<Seq<char>>) -> Seq<Seq<char>> {
    choose|s: Seq<Seq<char>>| strictly_sorted(s) && s.to_set() == texts
}

/// Inserts a text into a strictly sorted listing, keeping it strictly
/// sorted, and says where it went; a text already listed is not added again.
pub fn insert_sorted_unique(v: &mut Vec<Vec<char>>, s: Vec<char>) -> (at: Option<usize>)
    requires
        strictly_sorted(chars_view(old(v)@)),
    ensures
        strictly_sorted(chars_view(final(v)@)),
        chars_view(final(v)@).to_set() == chars_view(old(v)@).to_set().insert(s@),
        match at {
            Some(i) => {
                &&& i <= old(v).len()
                &&& chars_view(final(v)@) == chars_view(old(v)@).insert(i as int, s@)
                &&& !chars_view(old(v)@).contains(s@)
            },
            None => {
                &&& chars_view(final(v)@) == chars_view(old(v)@)
                &&& chars_view(old(v)@).contains(s@)
            },
        },
{
    let ghost before = chars_view(v@);
    let mut i: usize = 0;
    while i < v.len()
        invariant
            i <= v.len(),
            chars_view(v@) == before,
            forall|k: int| 0 <= k < i ==> text_less(#[trigger] before[k], s@),
        ensures
            i <= v.len(),
            forall|k: int| 0 <= k < i ==> text_less(#[trigger] before[k], s@),
            i < v.len() ==> !text_less(before[i as int], s@),
        decreases v.len() - i,
    {
        if !text_less_exec(v[i].as_slice(), s.as_slice()) {
            break;
        }
        i = i + 1;
    }
    if i < v.len() && !text_less_exec(s.as_slice(), v[i].as_slice()) {
        proof {
            if before[i as int] != s@ {
                lemma_text_less_total(before[i as int], s@);
            }
            assert(before.contains(s@));
            assert(before.to_set().insert(s@) =~= before.to_set());
        }
        return None;
    }
    let ghost sv = s@;
    proof {
        if i < v.len() {
            assert(text_less(sv, before[i as int]));
        }
    }
    v.insert(i, s);
    let ghost after = chars_view(v@);
    proof {
        assert(after =~= before.insert(i as int, sv));
        assert forall|a: int, b: int| 0 <= a < b < after.len() implies text_less(
            #[trigger] after[a],
            #[trigger] after[b],
        ) by {
            if b < i {
                assert(after[a] == before[a] && after[b] == before[b]);
            } else if b == i {
                assert(after[a] == before[a] && after[b] == sv);
            } else if a < i {
                assert(after[a] == before[a] && after[b] == before[b - 1]);
                assert(text_less(before[a], sv));
                assert(text_less(sv, before[i as int]));
                if i < b - 1 {
                    assert(text_less(before[i as int], before[b - 1]));
                    lemma_text_less_transitive(sv, before[i as int], before[b - 1]);
                }
                lemma_text_less_transitive(before[a], sv, before[b - 1]);
            } else if a == i {
                assert(after[a] == sv && after[b] == before[b - 1]);
                if i < b - 1 {
                    assert(text_less(before[i as int], before[b - 1]));
                    lemma_text_less_transitive(sv, before[i as int], before[b - 1]);
                }
            } else {
                assert(after[a] == before[a - 1] && after[b] == before[b - 1]);
            }
        }
        assert forall|x: Seq<char>| #[trigger] before.to_set().insert(sv).contains(x) implies after.contains(x) by {
            if x == sv {
                assert(after[i as int] == sv);
            } else {
                assert(before.contains(x));
                let k = choose|k: int| 0 <= k < before.len() && before[k] == x;
                if k < i {
                    assert(after[k] == x);
                } else {
                    assert(after[k + 1] == x);
                }
            }
        }
        assert forall|x: Seq<char>| #[trigger] after.contains(x) implies before.to_set().insert(sv).contains(x) by {
            let k = choose|k: int| 0 <= k < after.len() && after[k] == x;
            if k < i {
                assert(before[k] == x);
                assert(before.contains(x));
            } else if k > i {
                assert(before[k - 1] == x);
                assert(before.contains(x));
            }
        }
        assert(after.to_set() =~= before.to_set().insert(sv));
        assert forall|k: int| 0 <= k < before.len() implies #[trigger] before[k] != sv by {
            lemma_text_less_irreflexive(sv);
            if k < i {
                assert(text_less(before[k], sv));
            } else {
                assert(after[k + 1] == before[k]);
                assert(text_less(after[i as int], after[k + 1]));
            }
        }
    }
    Some(i)
}

// ---------------------------------------------------------------------------
// The identity of a file capture
// ---------------------------------------------------------------------------

/// The non-empty content ids among `ids`.
pub open spec fn id_set(ids: Seq<Seq<char>>) -> Set<Seq<char>> {
    Set::new(|x: Seq<char>| x.len() > 0 && ids.contains(x))
}

/// Whether any of `ids` is non-empty.
pub open spec fn names_a_content(ids: Seq<Seq<char>>) -> bool {
    exists|i: int| 0 <= i < ids.len() && #[trigger] ids[i].len() > 0
}

/// Texts joined by newlines.
pub open spec fn joined_lines(s: Seq<Seq<char>>) -> Seq<char>
    decreases s.len(),
{
    if s.len() == 0 {
        Seq::empty()
    } else if s.len() == 1 {
        s[0]
    } else {
        joined_lines(s.drop_last()) + seq!['\n'] + s.last()
    }
}

/// What a file capture is identified by: its distinct non-empty content ids
/// in text order, one per line, or `fallback` when it names none.
pub open spec fn files_identity(ids: Seq<Seq<char>>, fallback: Seq<char>) -> Seq<char> {
    if names_a_content(ids) {
        joined_lines(sorted_listing(id_set(ids)))
    } else {
        fallback
    }
}

/// The entry id of a file capture: the entry id of
/// its identity on `device_id`.
pub fn entry_id_for_files(files: &[ClipboardFile], device_id: &str, fallback: &str) -> (id: String)
    ensures
        id@ == entry_id_of(files_identity(file_ids_view(files@), fallback@), device_id@),
        file_id_shape(id@),
{
    let ghost ids = file_ids_view(files@);
    let mut v: Vec<Vec<char>> = Vec::new();
    let mut k: usize = 0;
    proof {
        assert(chars_view(v@).to_set() =~= id_set(ids.take(0)));
    }
    while k < files.len()
        invariant
            k <= files.len(),
            ids == file_ids_view(files@),
            strictly_sorted(chars_view(v@)),
            chars_view(v@).to_set() == id_set(ids.take(k as int)),
        decreases files.len() - k,
    {
        let cs = chars_of(files[k].file_id.as_str());
        let ghost old_set = id_set(ids.take(k as int));
        proof {
            let longer = ids.take(k + 1);
            let shorter = ids.take(k as int);
            assert(longer =~= shorter.push(cs@));
            assert forall|x: Seq<char>| #[trigger] longer.contains(x) <==> (shorter.contains(x) || x
                == cs@) by {
                if longer.contains(x) {
                    let j = choose|j: int| 0 <= j < longer.len() && longer[j] == x;
                    if j < k {
                        assert(shorter[j] == x);
                    }
                }
                if shorter.contains(x) {
                    let j = choose|j: int| 0 <= j < shorter.len() && shorter[j] == x;
                    assert(longer[j] == x);
                }
                if x == cs@ {
                    assert(longer[k as int] == x);
                }
            }
        }
        if cs.len() > 0 {
            let _ = insert_sorted_unique(&mut v, cs);
            proof {
                assert(id_set(ids.take(k + 1)) =~= old_set.insert(ids[k as int]));
            }
        } else {
            proof {
                assert(id_set(ids.take(k + 1)) =~= old_set);
            }
        }
        k = k + 1;
    }
    let ghost listing = chars_view(v@);
    proof {
        assert(ids.take(files.len() as int) =~= ids);
        assert(strictly_sorted(listing) && listing.to_set() == id_set(ids));
        let chosen = sorted_listing(id_set(ids));
        assert(strictly_sorted(chosen) && chosen.to_set() == id_set(ids));
        lemma_sorted_listing_is_unique(chosen, listing);
        if names_a_content(ids) {
            let i = choose|i: int| 0 <= i < ids.len() && #[trigger] ids[i].len() > 0;
            assert(ids.contains(ids[i]));
            assert(id_set(ids).contains(ids[i]));
            assert(listing.contains(ids[i]));
        }
        if listing.len() > 0 {
            assert(listing.contains(listing[0]));
            assert(id_set(ids).contains(listing[0]));
            let i = choose|i: int| 0 <= i < ids.len() && ids[i] == listing[0];
            assert(ids[i].len() > 0);
        }
    }
    if v.len() == 0 {
        let identity = owned(fallback);
        return entry_id(identity.as_str(), device_id);
    }
    let mut joined: Vec<char> = Vec::new();
    let mut j: usize = 0;
    while j < v.len()
        invariant
            j <= v.len(),
            listing == chars_view(v@),
            joined@ == joined_lines(listing.take(j as int)),
        decreases v.len() - j,
    {
        if j > 0 {
            joined.push('\n');
        }
        let ghost start = joined@;
        let part = &v[j];
        let mut c: usize = 0;
        while c < part.len()
            invariant
                c <= part.len(),
                joined@ == start + part@.take(c as int),
            decreases part.len() - c,
        {
            joined.push(part[c]);
            assert(part@.take(c + 1) =~= part@.take(c as int).push(part@[c as int]));
            c = c + 1;
        }
        proof {
            assert(part@.take(part.len() as int) =~= part@);
            assert(listing.take(j + 1).drop_last() =~= listing.take(j as int));
            if j == 0 {
                assert(joined_lines(listing.take(0)) =~= Seq::<char>::empty());
                assert(joined@ =~= listing[0]);
            }
        }
        j = j + 1;
    }
    proof {
        assert(listing.take(v.len() as int) =~= listing);
    }
    let identity = string_from_chars(joined.as_slice());
    entry_id(identity.as_str(), device_id)
}

/// A file capture's identity depends only on which non-empty content ids it
/// names: reordering its files or repeating an id gives the same identity,
/// and so the same entry id on every device.
pub proof fn law_file_identity_ignores_order_and_repeats(
    a: Seq<Seq<char>>,
    b: Seq<Seq<char>>,
    fallback: Seq<char>,
    device_id: Seq<char>,
)
    requires
        forall|x: Seq<char>| x.len() > 0 ==> (a.contains(x) <==> b.contains(x)),
    ensures
        files_identity(a, fallback) == files_identity(b, fallback),
        entry_id_of(files_identity(a, fallback), device_id) == entry_id_of(
            files_identity(b, fallback),
            device_id,
        ),
{
    assert(id_set(a) =~= id_set(b));
    if names_a_content(a) {
        let i = choose|i: int| 0 <= i < a.len() && #[trigger] a[i].len() > 0;
        assert(a.contains(a[i]));
        let j = choose|j: int| 0 <= j < b.len() && b[j] == a[i];
        assert(b[j].len() > 0);
    }
    if names_a_content(b) {
        let i = choose|i: int| 0 <= i < b.len() && #[trigger] b[i].len() > 0;
        assert(b.contains(b[i]));
        let j = choose|j: int| 0 <= j < a.len() && a[j] == b[i];
        assert(a[j].len() > 0);
    }
}

} // verus!
