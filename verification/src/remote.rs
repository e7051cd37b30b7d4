//! Entries that arrive from the server: the order they are written in, and
//! which of their contents the server's pool already holds.

use vstd::prelude::*;
use crate::entry::{entry_contents, entry_contents_of, opt_file_info, opt_image, ClipboardEntry};
use crate::tree::pairs_view;
use crate::identity::{lemma_text_less_irreflexive, lemma_text_less_total, lemma_text_less_transitive, text_less, text_less_exec};
use crate::text::{chars_of, owned};
use crate::tree::{contains_string, strings_view};

verus! {

// ---------------------------------------------------------------------------
// Oldest first
// ---------------------------------------------------------------------------

/// `order` lists every index of `keys` once.
pub open spec fn is_index_permutation(order: Seq<usize>, n: nat) -> bool {
    &&& order.len() == n
    &&& forall|a: int| 0 <= a < order.len() ==> #[trigger] order[a] < n
    &&& forall|a: int, b: int| 0 <= a < b < order.len() ==> #[trigger] order[a] != #[trigger] order[b]
}

/// `order` lists the keys in text order, ties in the order they came: the
/// order a stable sort by key gives.
pub open spec fn stably_sorted(keys: Seq<Seq<char>>, order: Seq<usize>) -> bool {
    forall|a: int, b: int|
        0 <= a < b < order.len() ==> {
            let ka = keys[#[trigger] order[a] as int];
            let kb = keys[#[trigger] order[b] as int];
            &&& !text_less(kb, ka)
            &&& (ka == kb ==> order[a] < order[b])
        }
}

/// The order entries are written in: oldest
/// `created_at` first, entries with the same time in the order they came,
/// so within one millisecond the newest insert gets the highest row id.
pub fn oldest_first(created_at: &Vec<String>) -> (order: Vec<usize>)
    ensures
        is_index_permutation(order@, created_at.len() as nat),
        stably_sorted(strings_view(created_at@), order@),
{
    let ghost keys = strings_view(created_at@);
    let mut order: Vec<usize> = Vec::new();
    let mut i: usize = 0;
    while i < created_at.len()
        invariant
            i <= created_at.len(),
            keys == strings_view(created_at@),
            order.len() == i,
            forall|a: int| 0 <= a < order.len() ==> #[trigger] order@[a] < i,
            forall|a: int, b: int| 0 <= a < b < order.len() ==> #[trigger] order@[a] != #[trigger] order@[b],
            stably_sorted(keys, order@),
        decreases created_at.len() - i,
    {
        let key = chars_of(created_at[i].as_str());
        let mut p: usize = 0;
        while p < order.len()
            invariant
                p <= order.len(),
                key@ == keys[i as int],
                keys == strings_view(created_at@),
                forall|a: int| 0 <= a < order.len() ==> #[trigger] order@[a] < i,
                i < created_at.len(),
                forall|a: int| 0 <= a < p ==> !text_less(key@, keys[#[trigger] order@[a] as int]),
            ensures
                p <= order.len(),
                forall|a: int| 0 <= a < p ==> !text_less(key@, keys[#[trigger] order@[a] as int]),
                p < order.len() ==> text_less(key@, keys[order@[p as int] as int]),
            decreases order.len() - p,
        {
            let other = chars_of(created_at[order[p]].as_str());
            if text_less_exec(key.as_slice(), other.as_slice()) {
                break;
            }
            p = p + 1;
        }
        let ghost before = order@;
        order.insert(p, i);
        proof {
            let after = order@;
            assert(after =~= before.insert(p as int, i));
            let ki = keys[i as int];
            assert forall|a: int| 0 <= a < after.len() implies #[trigger] after[a] < i + 1 by {
                if a < p {
                    assert(after[a] == before[a]);
                } else if a > p {
                    assert(after[a] == before[a - 1]);
                }
            }
            assert forall|a: int, b: int| 0 <= a < b < after.len() implies #[trigger] after[a] != #[trigger] after[b] by {
                let a0 = if a < p { a } else { a - 1 };
                let b0 = if b < p { b } else { b - 1 };
                if a != p && b != p {
                    assert(after[a] == before[a0] && after[b] == before[b0]);
                    assert(a0 < b0);
                } else if a == p {
                    assert(after[b] == before[b0]);
                    assert(before[b0] < i);
                } else {
                    assert(after[a] == before[a0]);
                    assert(before[a0] < i);
                }
            }
            assert forall|a: int, b: int| 0 <= a < b < after.len() implies {
                let ka = keys[#[trigger] after[a] as int];
                let kb = keys[#[trigger] after[b] as int];
                &&& !text_less(kb, ka)
                &&& (ka == kb ==> after[a] < after[b])
            } by {
                if b < p {
                    assert(after[a] == before[a] && after[b] == before[b]);
                } else if a > p {
                    assert(after[a] == before[a - 1] && after[b] == before[b - 1]);
                } else if a < p && b == p {
                    // An earlier key no later than the new one.
                    assert(after[a] == before[a] && after[b] == i);
                    assert(!text_less(ki, keys[before[a] as int]));
                    assert(before[a] < i);
                } else if a == p {
                    // The new key is before every later key, strictly.
                    assert(after[a] == i && after[b] == before[b - 1]);
                    let kb = keys[before[b - 1] as int];
                    assert(text_less(ki, keys[before[p as int] as int]));
                    if b - 1 > p {
                        let kp = keys[before[p as int] as int];
                        assert(!text_less(kb, kp));
                        if kb != kp {
                            lemma_text_less_total(kb, kp);
                        }
                        if kb != kp {
                            lemma_text_less_transitive(ki, kp, kb);
                        }
                    }
                    lemma_text_less_irreflexive(ki);
                    if text_less(kb, ki) {
                        lemma_text_less_transitive(ki, kb, ki);
                    }
                } else {
                    // a < p < b: both old, in their old order.
                    assert(after[a] == before[a] && after[b] == before[b - 1]);
                }
            }
        }
        i = i + 1;
    }
    order
}

// ---------------------------------------------------------------------------
// Contents the pool holds
// ---------------------------------------------------------------------------

/// The contents of all entries, in order.
pub open spec fn all_contents(entries: Seq<ClipboardEntry>) -> Seq<Seq<char>>
    decreases entries.len(),
{
    if entries.len() == 0 {
        Seq::empty()
    } else {
        all_contents(entries.drop_last()) + entry_contents(opt_file_info(entries.last().file_info), opt_image(entries.last().image_info)).map_values(
            |c: (Seq<char>, u64)| c.0,
        )
    }
}

/// The contents of arriving entries that the server's pool reported it
/// holds: each once, in the order the entries
/// reference them.
pub fn available_contents(entries: &[ClipboardEntry], available: &Vec<String>) -> (r: Vec<String>)
    ensures
        strings_view(r@).no_duplicates(),
        forall|x: Seq<char>|
            strings_view(r@).contains(x) <==> (all_contents(entries@).contains(x) && strings_view(
                available@,
            ).contains(x)),
{
    let mut r: Vec<String> = Vec::new();
    let mut i: usize = 0;
    proof {
        assert(entries@.take(0) =~= Seq::<ClipboardEntry>::empty());
    }
    while i < entries.len()
        invariant
            i <= entries.len(),
            strings_view(r@).no_duplicates(),
            forall|x: Seq<char>|
                strings_view(r@).contains(x) <==> (all_contents(entries@.take(i as int)).contains(x)
                    && strings_view(available@).contains(x)),
        decreases entries.len() - i,
    {
        let contents = entry_contents_of(&entries[i]);
        let ghost before = all_contents(entries@.take(i as int));
        let ghost mine = entry_contents(opt_file_info(entries@[i as int].file_info), opt_image(entries@[i as int].image_info)).map_values(|c: (Seq<char>, u64)| c.0);
        proof {
            assert(entries@.take(i + 1).drop_last() =~= entries@.take(i as int));
            assert(all_contents(entries@.take(i + 1)) == before + mine);
        }
        let mut j: usize = 0;
        while j < contents.len()
            invariant
                j <= contents.len(),
                strings_view(r@).no_duplicates(),
                mine == pairs_view(contents@).map_values(|c: (Seq<char>, u64)| c.0),
                pairs_view(contents@).len() == contents.len(),
                forall|x: Seq<char>|
                    strings_view(r@).contains(x) <==> ((before.contains(x) || mine.take(j as int).contains(x))
                        && strings_view(available@).contains(x)),
            decreases contents.len() - j,
        {
            let id = contents[j].0.as_str();
            let ghost rv = strings_view(r@);
            proof {
                let longer = mine.take(j + 1);
                let shorter = mine.take(j as int);
                assert(longer =~= shorter.push(mine[j as int]));
                assert(mine[j as int] == id@);
                assert forall|x: Seq<char>| #[trigger] longer.contains(x) <==> (shorter.contains(x) || x == id@) by {
                    if longer.contains(x) {
                        let k = choose|k: int| 0 <= k < longer.len() && longer[k] == x;
                        if k < j {
                            assert(shorter[k] == x);
                        }
                    }
                    if shorter.contains(x) {
                        let k = choose|k: int| 0 <= k < shorter.len() && shorter[k] == x;
                        assert(longer[k] == x);
                    }
                    if x == id@ {
                        assert(longer[j as int] == x);
                    }
                }
            }
            let is_available = contains_string(available, id);
            let is_listed = contains_string(&r, id);
            if is_available && !is_listed {
                r.push(owned(id));
                proof {
                    let after = strings_view(r@);
                    assert(after =~= rv.push(id@));
                    assert forall|a: int, b: int| 0 <= a < after.len() && 0 <= b < after.len() && a != b implies after[a]
                        != after[b] by {
                        if a < rv.len() && b < rv.len() {
                            assert(after[a] == rv[a] && after[b] == rv[b]);
                        } else if a < rv.len() {
                            assert(rv.contains(after[a]));
                        } else {
                            assert(rv.contains(after[b]));
                        }
                    }
                    assert forall|x: Seq<char>| #[trigger] after.contains(x) <==> (rv.contains(x) || x == id@) by {
                        if after.contains(x) {
                            let k = choose|k: int| 0 <= k < after.len() && after[k] == x;
                            if k < rv.len() {
                                assert(rv[k] == x);
                            }
                        }
                        if rv.contains(x) {
                            let k = choose|k: int| 0 <= k < rv.len() && rv[k] == x;
                            assert(after[k] == x);
                        }
                        if x == id@ {
                            assert(after[rv.len() as int] == x);
                        }
                    }
                }
            }
            proof {
                assert forall|x: Seq<char>| #[trigger] strings_view(r@).contains(x) <==> ((before.contains(x)
                    || mine.take(j + 1).contains(x)) && strings_view(available@).contains(x)) by {
                    assert(rv.contains(x) <==> ((before.contains(x) || mine.take(j as int).contains(x))
                        && strings_view(available@).contains(x)));
                    assert(mine.take(j + 1).contains(x) <==> (mine.take(j as int).contains(x) || x == id@));
                    if is_available && !is_listed {
                        assert(strings_view(r@).contains(x) <==> (rv.contains(x) || x == id@));
                    } else {
                        assert(strings_view(r@) == rv);
                    }
                }
            }
            j = j + 1;
        }
        proof {
            assert(mine.take(contents.len() as int) =~= mine);
            assert forall|x: Seq<char>| #[trigger] (before + mine).contains(x) <==> (before.contains(x) || mine.contains(x)) by {
                if (before + mine).contains(x) {
                    let k = choose|k: int| 0 <= k < (before + mine).len() && (before + mine)[k] == x;
                    if k < before.len() {
                        assert(before[k] == x);
                    } else {
                        assert(mine[k - before.len()] == x);
                    }
                }
                if before.contains(x) {
                    let k = choose|k: int| 0 <= k < before.len() && before[k] == x;
                    assert((before + mine)[k] == x);
                }
                if mine.contains(x) {
                    let k = choose|k: int| 0 <= k < mine.len() && mine[k] == x;
                    assert((before + mine)[k + before.len()] == x);
                }
            }
        }
        i = i + 1;
    }
    proof {
        assert(entries@.take(entries.len() as int) =~= entries@);
    }
    r
}

} // verus!
