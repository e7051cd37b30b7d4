//! Bounded packs of many small contents: the candidates are split by the
//! hex digits of their content ids until every pack fits the target size, so
//! the same set of contents always packs the same way.

use vstd::prelude::*;
use vstd::multiset::Multiset;
use vstd::utf8::encode_utf8;
use vstd::string::StringSliceAdditionalSpecFns;
use crate::entry::{sources_view, LocalSource, SourceView};
use crate::identity::{chars_view, ClipboardFile, insert_sorted_unique, lemma_text_less_irreflexive, strictly_sorted};
use crate::text::{chars_of, owned};
use crate::tree::strings_view;

verus! {

/// The size a pack aims to stay under.
pub const PACK_TARGET_SIZE: u64 = 8388608;

/// Framing bytes each member adds to a pack.
pub const PACK_MEMBER_OVERHEAD: u64 = 72;

/// A small content that may go into a pack.
#[derive(Clone)]
pub struct PackCandidate {
    pub file_id: String,
    pub source: String,
    pub size: u64,
}

/// A candidate taken by value: content id, source path, size.
pub type CandidateView = (Seq<char>, Seq<char>, u64);

pub open spec fn candidate_view(c: PackCandidate) -> CandidateView {
    (c.file_id@, c.source@, c.size)
}

pub open spec fn candidates_view(v: Seq<PackCandidate>) -> Seq<CandidateView> {
    Seq::new(v.len(), |i: int| candidate_view(v[i]))
}

pub open spec fn groups_view(v: Seq<Vec<PackCandidate>>) -> Seq<Seq<CandidateView>> {
    Seq::new(v.len(), |i: int| candidates_view(v[i]@))
}

/// The encoded size of a pack: every member's size plus its framing.
pub open spec fn encoded_size(cs: Seq<CandidateView>) -> nat
    decreases cs.len(),
{
    if cs.len() == 0 {
        0
    } else {
        encoded_size(cs.drop_last()) + cs.last().2 as nat + PACK_MEMBER_OVERHEAD as nat
    }
}

/// The value of a hex digit byte; any other byte counts as 0.
pub open spec fn nibble(b: u8) -> nat {
    if 48 <= b <= 57 {
        (b - 48) as nat
    } else if 97 <= b <= 102 {
        (b - 87) as nat
    } else {
        0
    }
}

/// The bucket a candidate falls in at `depth`: the digit at that byte of
/// its content id.
pub open spec fn digit_at(c: CandidateView, depth: nat) -> nat {
    nibble(encode_utf8(c.0)[depth as int])
}

/// The candidates of one bucket, in order.
pub open spec fn bucket(cs: Seq<CandidateView>, depth: nat, b: nat) -> Seq<CandidateView>
    decreases cs.len(),
{
    if cs.len() == 0 {
        Seq::empty()
    } else if digit_at(cs.last(), depth) == b {
        bucket(cs.drop_last(), depth, b).push(cs.last())
    } else {
        bucket(cs.drop_last(), depth, b)
    }
}

/// Whether a group is kept as one pack: small enough, a single member, or
/// all sixty-four digits used up.
pub open spec fn pack_stops(cs: Seq<CandidateView>, depth: nat) -> bool {
    encoded_size(cs) <= PACK_TARGET_SIZE || cs.len() <= 1 || depth >= 64
}

/// The groups a candidate list splits into.
pub open spec fn split_groups(cs: Seq<CandidateView>, depth: nat) -> Seq<Seq<CandidateView>>
    decreases 64 - depth, 17nat,
{
    if pack_stops(cs, depth) {
        seq![cs]
    } else {
        bucket_groups(cs, depth, 0)
    }
}

/// The groups of buckets `b` to 15, each non-empty bucket split further.
pub open spec fn bucket_groups(cs: Seq<CandidateView>, depth: nat, b: nat) -> Seq<Seq<CandidateView>>
    decreases 64 - depth, 16 - b,
{
    if depth >= 64 || b >= 16 {
        Seq::empty()
    } else {
        let own = bucket(cs, depth, b);
        (if own.len() > 0 {
            split_groups(own, depth + 1)
        } else {
            Seq::empty()
        }) + bucket_groups(cs, depth, b + 1)
    }
}

/// Whether splitting never reads past the end of a content id.
pub open spec fn split_safe(cs: Seq<CandidateView>, depth: nat) -> bool
    decreases 64 - depth, 17nat,
{
    if pack_stops(cs, depth) {
        true
    } else {
        &&& forall|i: int| 0 <= i < cs.len() ==> encode_utf8(#[trigger] cs[i].0).len() > depth
        &&& buckets_safe(cs, depth, 0)
    }
}

pub open spec fn buckets_safe(cs: Seq<CandidateView>, depth: nat, b: nat) -> bool
    decreases 64 - depth, 16 - b,
{
    if depth >= 64 || b >= 16 {
        true
    } else {
        split_safe(bucket(cs, depth, b), depth + 1) && buckets_safe(cs, depth, b + 1)
    }
}

/// Whether the encoded size of every group that is looked at fits in `u64`.
pub open spec fn sizes_fit(cs: Seq<CandidateView>) -> bool {
    encoded_size(cs) <= u64::MAX
}

proof fn lemma_encoded_size_bucket(cs: Seq<CandidateView>, depth: nat, b: nat)
    ensures
        encoded_size(bucket(cs, depth, b)) <= encoded_size(cs),
        bucket(cs, depth, b).len() <= cs.len(),
    decreases cs.len(),
{
    if cs.len() > 0 {
        lemma_encoded_size_bucket(cs.drop_last(), depth, b);
        let prev = bucket(cs.drop_last(), depth, b);
        assert(prev.push(cs.last()).drop_last() =~= prev);
    }
}

fn copy_candidate(c: &PackCandidate) -> (r: PackCandidate)
    ensures
        candidate_view(r) == candidate_view(*c),
{
    PackCandidate { file_id: c.file_id.clone(), source: c.source.clone(), size: c.size }
}

fn nibble_of(b: u8) -> (n: usize)
    ensures
        n as nat == nibble(b),
        n < 16,
{
    if 48 <= b && b <= 57 {
        (b - 48) as usize
    } else if 97 <= b && b <= 102 {
        (b - 87) as usize
    } else {
        0
    }
}

fn encoded_size_exec(cs: &Vec<PackCandidate>) -> (n: u64)
    requires
        sizes_fit(candidates_view(cs@)),
    ensures
        n as nat == encoded_size(candidates_view(cs@)),
{
    let ghost v = candidates_view(cs@);
    let mut total: u64 = 0;
    let mut i: usize = 0;
    assert(v.take(0) =~= Seq::<CandidateView>::empty());
    while i < cs.len()
        invariant
            i <= cs.len(),
            v == candidates_view(cs@),
            encoded_size(v) <= u64::MAX,
            total as nat == encoded_size(v.take(i as int)),
        decreases cs.len() - i,
    {
        assert(v.take(i + 1).drop_last() =~= v.take(i as int));
        assert(v.take(i + 1).last() == candidate_view(cs@[i as int]));
        proof {
            lemma_encoded_size_prefix(v, i + 1);
        }
        total = total + cs[i].size + PACK_MEMBER_OVERHEAD;
        i = i + 1;
    }
    assert(v.take(cs.len() as int) =~= v);
    total
}

proof fn lemma_encoded_size_prefix(cs: Seq<CandidateView>, i: int)
    requires
        0 <= i <= cs.len(),
    ensures
        encoded_size(cs.take(i)) <= encoded_size(cs),
    decreases cs.len(),
{
    if i < cs.len() {
        lemma_encoded_size_prefix(cs.drop_last(), i);
        assert(cs.drop_last().take(i) =~= cs.take(i));
    } else {
        assert(cs.take(i) =~= cs);
    }
}

/// Splits pack candidates into groups by the hex digit of their content ids
/// at `depth`, recursing into any group whose
/// encoded size is over the target while it has several members and digits
/// are left.
pub fn split_pack_candidates(candidates: Vec<PackCandidate>, depth: usize) -> (groups: Vec<Vec<PackCandidate>>)
    requires
        sizes_fit(candidates_view(candidates@)),
        split_safe(candidates_view(candidates@), depth as nat),
    ensures
        groups_view(groups@) == split_groups(candidates_view(candidates@), depth as nat),
    decreases 64 - depth,
{
    let ghost cv = candidates_view(candidates@);
    let encoded = encoded_size_exec(&candidates);
    if encoded <= PACK_TARGET_SIZE || candidates.len() <= 1 || depth >= 64 {
        let mut one: Vec<Vec<PackCandidate>> = Vec::new();
        one.push(candidates);
        assert(groups_view(one@) =~= seq![cv]);
        return one;
    }
    let mut buckets: Vec<Vec<PackCandidate>> = Vec::new();
    let mut b: usize = 0;
    while b < 16
        invariant
            b <= 16,
            buckets@.len() == b,
            forall|k: int| 0 <= k < b ==> #[trigger] buckets@[k]@.len() == 0,
        decreases 16 - b,
    {
        buckets.push(Vec::new());
        b = b + 1;
    }
    let mut i: usize = 0;
    assert(cv.take(0) =~= Seq::<CandidateView>::empty());
    while i < candidates.len()
        invariant
            i <= candidates.len(),
            cv == candidates_view(candidates@),
            depth < 64,
            forall|k: int| 0 <= k < cv.len() ==> encode_utf8(#[trigger] cv[k].0).len() > depth,
            buckets@.len() == 16,
            forall|k: int| 0 <= k < 16 ==> candidates_view(#[trigger] buckets@[k]@) == bucket(cv.take(i as int), depth as nat, k as nat),
        decreases candidates.len() - i,
    {
        assert(cv.take(i + 1).drop_last() =~= cv.take(i as int));
        assert(cv.take(i + 1).last() == candidate_view(candidates@[i as int]));
        let bytes = candidates[i].file_id.as_str().as_bytes();
        assert(bytes@ == encode_utf8(cv[i as int].0));
        let n = nibble_of(bytes[depth]);
        let c = copy_candidate(&candidates[i]);
        let ghost old_buckets = buckets@;
        buckets[n].push(c);
        assert forall|k: int| 0 <= k < 16 implies candidates_view(#[trigger] buckets@[k]@) == bucket(cv.take(i + 1), depth as nat, k as nat) by {
            if k == n {
                assert(candidates_view(buckets@[k]@) =~= candidates_view(old_buckets[k]@).push(candidate_view(c)));
            } else {
                assert(buckets@[k] == old_buckets[k]);
            }
        }
        i = i + 1;
    }
    assert(cv.take(candidates.len() as int) =~= cv);
    let mut groups: Vec<Vec<PackCandidate>> = Vec::new();
    let ghost mut done: Seq<Seq<CandidateView>> = Seq::empty();
    let mut k: usize = 0;
    assert(groups_view(groups@) =~= Seq::<Seq<CandidateView>>::empty());
    while k < 16
        invariant
            k <= 16,
            depth < 64,
            cv == candidates_view(candidates@),
            !pack_stops(cv, depth as nat),
            split_safe(cv, depth as nat),
            sizes_fit(cv),
            buckets@.len() == 16,
            forall|j: int| k <= j < 16 ==> candidates_view(#[trigger] buckets@[j]@) == bucket(cv, depth as nat, j as nat),
            groups_view(groups@) + bucket_groups(cv, depth as nat, k as nat) == bucket_groups(cv, depth as nat, 0),
        decreases 16 - k,
    {
        let ghost own = bucket(cv, depth as nat, k as nat);
        proof {
            assert(buckets_safe(cv, depth as nat, 0));
            lemma_buckets_safe_at(cv, depth as nat, 0, k as nat);
            lemma_encoded_size_bucket(cv, depth as nat, k as nat);
        }
        let ghost before = groups_view(groups@);
        let mut bucket_vec: Vec<PackCandidate> = Vec::new();
        std::mem::swap(&mut bucket_vec, &mut buckets[k]);
        assert(candidates_view(bucket_vec@) == own);
        if bucket_vec.len() > 0 {
            let sub = split_pack_candidates(bucket_vec, depth + 1);
            let ghost sv = groups_view(sub@);
            let mut sub = sub;
            groups.append(&mut sub);
            assert(groups_view(groups@) =~= before + sv);
        }
        assert(bucket_groups(cv, depth as nat, k as nat) == (if own.len() > 0 {
            split_groups(own, (depth + 1) as nat)
        } else {
            Seq::<Seq<CandidateView>>::empty()
        }) + bucket_groups(cv, depth as nat, (k + 1) as nat));
        assert forall|j: int| k + 1 <= j < 16 implies candidates_view(#[trigger] buckets@[j]@) == bucket(cv, depth as nat, j as nat) by {}
        k = k + 1;
    }
    assert(bucket_groups(cv, depth as nat, 16) =~= Seq::<Seq<CandidateView>>::empty());
    assert(groups_view(groups@) =~= bucket_groups(cv, depth as nat, 0));
    groups
}

proof fn lemma_buckets_safe_at(cs: Seq<CandidateView>, depth: nat, from: nat, b: nat)
    requires
        buckets_safe(cs, depth, from),
        from <= b < 16,
        depth < 64,
    ensures
        split_safe(bucket(cs, depth, b), depth + 1),
    decreases b - from,
{
    if from < b {
        lemma_buckets_safe_at(cs, depth, from + 1, b);
    }
}

} // verus!

verus! {

/// How many candidates a list of groups holds.
pub open spec fn total_members(gs: Seq<Seq<CandidateView>>) -> nat
    decreases gs.len(),
{
    if gs.len() == 0 {
        0
    } else {
        total_members(gs.drop_last()) + gs.last().len()
    }
}

pub open spec fn bucket_total(cs: Seq<CandidateView>, depth: nat, b: nat) -> nat
    decreases 16 - b,
{
    if b >= 16 {
        0
    } else {
        bucket(cs, depth, b).len() + bucket_total(cs, depth, b + 1)
    }
}

proof fn lemma_total_members_concat(a: Seq<Seq<CandidateView>>, b: Seq<Seq<CandidateView>>)
    ensures
        total_members(a + b) == total_members(a) + total_members(b),
    decreases b.len(),
{
    if b.len() == 0 {
        assert(a + b =~= a);
    } else {
        lemma_total_members_concat(a, b.drop_last());
        assert((a + b).drop_last() =~= a + b.drop_last());
    }
}

proof fn lemma_bucket_total_step(cs: Seq<CandidateView>, depth: nat, from: nat)
    requires
        cs.len() > 0,
    ensures
        bucket_total(cs, depth, from) == bucket_total(cs.drop_last(), depth, from) + if from <= digit_at(
            cs.last(),
            depth,
        ) && digit_at(cs.last(), depth) < 16 {
            1nat
        } else {
            0nat
        },
    decreases 16 - from,
{
    if from < 16 {
        lemma_bucket_total_step(cs, depth, from + 1);
    }
}

proof fn lemma_bucket_total_empty(cs: Seq<CandidateView>, depth: nat, b: nat)
    requires
        cs.len() == 0,
    ensures
        bucket_total(cs, depth, b) == 0,
    decreases 16 - b,
{
    if b < 16 {
        lemma_bucket_total_empty(cs, depth, b + 1);
    }
}

proof fn lemma_bucket_total(cs: Seq<CandidateView>, depth: nat)
    ensures
        bucket_total(cs, depth, 0) == cs.len(),
    decreases cs.len(),
{
    if cs.len() == 0 {
        lemma_bucket_total_empty(cs, depth, 0);
    } else {
        lemma_bucket_total(cs.drop_last(), depth);
        lemma_bucket_total_step(cs, depth, 0);
        let b = encode_utf8(cs.last().0)[depth as int];
        assert(nibble(b) < 16);
    }
}

proof fn lemma_split_members(cs: Seq<CandidateView>, depth: nat)
    ensures
        total_members(split_groups(cs, depth)) == cs.len(),
    decreases 64 - depth, 17nat,
{
    if pack_stops(cs, depth) {
        assert(seq![cs].drop_last() =~= Seq::<Seq<CandidateView>>::empty());
        assert(total_members(Seq::<Seq<CandidateView>>::empty()) == 0);
    } else {
        lemma_bucket_members(cs, depth, 0);
        lemma_bucket_total(cs, depth);
    }
}

proof fn lemma_bucket_members(cs: Seq<CandidateView>, depth: nat, b: nat)
    requires
        depth < 64,
    ensures
        total_members(bucket_groups(cs, depth, b)) == bucket_total(cs, depth, b),
    decreases 64 - depth, 16 - b,
{
    if b < 16 {
        let own = bucket(cs, depth, b);
        lemma_bucket_members(cs, depth, b + 1);
        let first: Seq<Seq<CandidateView>> = if own.len() > 0 {
            split_groups(own, depth + 1)
        } else {
            Seq::empty()
        };
        if own.len() > 0 {
            lemma_split_members(own, depth + 1);
        }
        lemma_total_members_concat(first, bucket_groups(cs, depth, b + 1));
    }
}

/// The candidates of buckets `b` to 15, counted with repeats.
pub open spec fn bucket_union(cs: Seq<CandidateView>, depth: nat, b: nat) -> Multiset<CandidateView>
    decreases 16 - b,
{
    if b >= 16 {
        Multiset::empty()
    } else {
        bucket(cs, depth, b).to_multiset().add(bucket_union(cs, depth, b + 1))
    }
}

proof fn lemma_bucket_union_empty(cs: Seq<CandidateView>, depth: nat, b: nat)
    requires
        cs.len() == 0,
    ensures
        bucket_union(cs, depth, b) =~= Multiset::empty(),
    decreases 16 - b,
{
    broadcast use vstd::seq_lib::group_to_multiset_ensures, vstd::multiset::group_multiset_axioms;

    if b < 16 {
        lemma_bucket_union_empty(cs, depth, b + 1);
        assert(bucket(cs, depth, b) =~= Seq::<CandidateView>::empty());
    }
}

proof fn lemma_bucket_union_step(cs: Seq<CandidateView>, depth: nat, from: nat)
    requires
        cs.len() > 0,
    ensures
        bucket_union(cs, depth, from) =~= bucket_union(cs.drop_last(), depth, from).add(
            if from <= digit_at(cs.last(), depth) && digit_at(cs.last(), depth) < 16 {
                Multiset::singleton(cs.last())
            } else {
                Multiset::empty()
            },
        ),
    decreases 16 - from,
{
    broadcast use vstd::seq_lib::group_to_multiset_ensures, vstd::multiset::group_multiset_axioms;

    if from < 16 {
        lemma_bucket_union_step(cs, depth, from + 1);
        let prev = bucket(cs.drop_last(), depth, from);
        if digit_at(cs.last(), depth) == from {
            assert(bucket(cs, depth, from) == prev.push(cs.last()));
            assert(prev.push(cs.last()).to_multiset() =~= prev.to_multiset().insert(cs.last()));
        } else {
            assert(bucket(cs, depth, from) == prev);
        }
    }
}

proof fn lemma_bucket_union(cs: Seq<CandidateView>, depth: nat)
    ensures
        bucket_union(cs, depth, 0) =~= cs.to_multiset(),
    decreases cs.len(),
{
    broadcast use vstd::seq_lib::group_to_multiset_ensures, vstd::multiset::group_multiset_axioms;

    if cs.len() == 0 {
        lemma_bucket_union_empty(cs, depth, 0);
        assert(cs.to_multiset() =~= Multiset::empty());
    } else {
        lemma_bucket_union(cs.drop_last(), depth);
        lemma_bucket_union_step(cs, depth, 0);
        let b = encode_utf8(cs.last().0)[depth as int];
        assert(nibble(b) < 16);
        assert(cs.drop_last().push(cs.last()) =~= cs);
        assert(cs.drop_last().push(cs.last()).to_multiset() =~= cs.drop_last().to_multiset().insert(cs.last()));
    }
}

proof fn lemma_split_multiset(cs: Seq<CandidateView>, depth: nat)
    ensures
        split_groups(cs, depth).flatten().to_multiset() =~= cs.to_multiset(),
    decreases 64 - depth, 17nat,
{
    broadcast use vstd::seq_lib::group_to_multiset_ensures, vstd::multiset::group_multiset_axioms;

    if pack_stops(cs, depth) {
        seq![cs].lemma_flatten_one_element();
    } else {
        lemma_bucket_groups_multiset(cs, depth, 0);
        lemma_bucket_union(cs, depth);
    }
}

proof fn lemma_bucket_groups_multiset(cs: Seq<CandidateView>, depth: nat, b: nat)
    requires
        depth < 64,
    ensures
        bucket_groups(cs, depth, b).flatten().to_multiset() =~= bucket_union(cs, depth, b),
    decreases 64 - depth, 16 - b,
{
    broadcast use vstd::seq_lib::group_to_multiset_ensures, vstd::multiset::group_multiset_axioms;

    if b < 16 {
        let own = bucket(cs, depth, b);
        lemma_bucket_groups_multiset(cs, depth, b + 1);
        let first: Seq<Seq<CandidateView>> = if own.len() > 0 {
            split_groups(own, depth + 1)
        } else {
            Seq::empty()
        };
        let rest = bucket_groups(cs, depth, b + 1);
        assert(bucket_groups(cs, depth, b) == first + rest);
        vstd::seq_lib::lemma_flatten_concat(first, rest);
        vstd::seq_lib::lemma_multiset_commutative(first.flatten(), rest.flatten());
        if own.len() > 0 {
            lemma_split_multiset(own, depth + 1);
        } else {
            assert(first.flatten() =~= Seq::<CandidateView>::empty());
            assert(own =~= Seq::<CandidateView>::empty());
        }
    } else {
        assert(bucket_groups(cs, depth, b) =~= Seq::<Seq<CandidateView>>::empty());
        assert(bucket_groups(cs, depth, b).flatten() =~= Seq::<CandidateView>::empty());
    }
}

/// All members of `g` have the same digits from `from` on, up to the
/// sixty-fourth.
pub open spec fn ids_agree(g: Seq<CandidateView>, from: nat) -> bool {
    forall|i: int, j: int, d: nat|
        0 <= i < g.len() && 0 <= j < g.len() && from <= d < 64 ==> #[trigger] digit_at(g[i], d) == #[trigger] digit_at(
            g[j],
            d,
        )
}

proof fn lemma_bucket_members_have_digit(cs: Seq<CandidateView>, depth: nat, b: nat)
    ensures
        forall|x: CandidateView| #[trigger] bucket(cs, depth, b).contains(x) ==> cs.contains(x) && digit_at(x, depth) == b,
    decreases cs.len(),
{
    if cs.len() > 0 {
        lemma_bucket_members_have_digit(cs.drop_last(), depth, b);
        let prev = bucket(cs.drop_last(), depth, b);
        assert forall|x: CandidateView| #[trigger] bucket(cs, depth, b).contains(x) implies cs.contains(x) && digit_at(
            x,
            depth,
        ) == b by {
            let g = bucket(cs, depth, b);
            let k = choose|k: int| 0 <= k < g.len() && g[k] == x;
            if digit_at(cs.last(), depth) == b && k == prev.len() {
                assert(cs[cs.len() - 1] == x);
            } else {
                assert(prev[k] == x);
                assert(prev.contains(x));
                let m = choose|m: int| 0 <= m < cs.drop_last().len() && cs.drop_last()[m] == x;
                assert(cs[m] == x);
            }
        }
    }
}

proof fn lemma_split_groups_fit(cs: Seq<CandidateView>, depth: nat)
    ensures
        forall|k: int|
            0 <= k < split_groups(cs, depth).len() ==> {
                let g = #[trigger] split_groups(cs, depth)[k];
                &&& (encoded_size(g) <= PACK_TARGET_SIZE || ids_agree(g, depth))
                &&& forall|x: CandidateView| g.contains(x) ==> cs.contains(x)
            },
    decreases 64 - depth, 17nat,
{
    if pack_stops(cs, depth) {
        assert forall|k: int| 0 <= k < split_groups(cs, depth).len() implies {
            let g = #[trigger] split_groups(cs, depth)[k];
            &&& (encoded_size(g) <= PACK_TARGET_SIZE || ids_agree(g, depth))
            &&& forall|x: CandidateView| g.contains(x) ==> cs.contains(x)
        } by {
            let g = split_groups(cs, depth)[k];
            assert(g == cs);
        }
    } else {
        lemma_bucket_groups_fit(cs, depth, 0);
        let gs = split_groups(cs, depth);
        assert(gs == bucket_groups(cs, depth, 0));
        assert forall|k: int| 0 <= k < gs.len() implies {
            let g = #[trigger] split_groups(cs, depth)[k];
            &&& (encoded_size(g) <= PACK_TARGET_SIZE || ids_agree(g, depth))
            &&& forall|x: CandidateView| g.contains(x) ==> cs.contains(x)
        } by {
            assert(gs[k] == bucket_groups(cs, depth, 0)[k]);
        }
    }
}

proof fn lemma_bucket_groups_fit(cs: Seq<CandidateView>, depth: nat, b: nat)
    ensures
        forall|k: int|
            0 <= k < bucket_groups(cs, depth, b).len() ==> {
                let g = #[trigger] bucket_groups(cs, depth, b)[k];
                &&& (encoded_size(g) <= PACK_TARGET_SIZE || ids_agree(g, depth))
                &&& forall|x: CandidateView| g.contains(x) ==> cs.contains(x)
            },
    decreases 64 - depth, 16 - b,
{
    if depth < 64 && b < 16 {
        let own = bucket(cs, depth, b);
        lemma_bucket_groups_fit(cs, depth, b + 1);
        lemma_bucket_members_have_digit(cs, depth, b);
        let first: Seq<Seq<CandidateView>> = if own.len() > 0 {
            split_groups(own, depth + 1)
        } else {
            Seq::empty()
        };
        if own.len() > 0 {
            lemma_split_groups_fit(own, depth + 1);
        }
        let rest = bucket_groups(cs, depth, b + 1);
        assert(bucket_groups(cs, depth, b) == first + rest);
        assert forall|k: int| 0 <= k < bucket_groups(cs, depth, b).len() implies {
            let g = #[trigger] bucket_groups(cs, depth, b)[k];
            &&& (encoded_size(g) <= PACK_TARGET_SIZE || ids_agree(g, depth))
            &&& forall|x: CandidateView| g.contains(x) ==> cs.contains(x)
        } by {
            let g = bucket_groups(cs, depth, b)[k];
            if k < first.len() {
                assert(g == first[k]);
                assert(g == split_groups(own, depth + 1)[k]);
                assert forall|x: CandidateView| g.contains(x) implies cs.contains(x) && digit_at(x, depth) == b by {
                    assert(own.contains(x));
                }
                if encoded_size(g) > PACK_TARGET_SIZE {
                    assert(ids_agree(g, depth + 1));
                    assert forall|i: int, j: int, d: nat|
                        0 <= i < g.len() && 0 <= j < g.len() && depth <= d < 64 implies #[trigger] digit_at(g[i], d)
                        == #[trigger] digit_at(g[j], d) by {
                        if d == depth {
                            assert(g.contains(g[i]));
                            assert(g.contains(g[j]));
                        }
                    }
                }
            } else {
                assert(g == rest[k - first.len()]);
            }
        }
    }
}

/// A pack is over the target size only when all its members have the same
/// sixty-four digit content id: splitting goes on while any two differ.
pub proof fn law_packs_fit_unless_their_ids_agree(cs: Seq<CandidateView>)
    ensures
        forall|k: int|
            0 <= k < split_groups(cs, 0).len() ==> encoded_size(#[trigger] split_groups(cs, 0)[k]) <= PACK_TARGET_SIZE
                || ids_agree(split_groups(cs, 0)[k], 0),
{
    lemma_split_groups_fit(cs, 0);
}

/// Splitting loses and duplicates nothing: the groups, laid end to end,
/// hold exactly the candidates of the list that was split, each as often
/// as it was there.
pub proof fn law_split_keeps_every_candidate(cs: Seq<CandidateView>, depth: nat)
    ensures
        split_groups(cs, depth).flatten().to_multiset() == cs.to_multiset(),
        total_members(split_groups(cs, depth)) == cs.len(),
{
    lemma_split_multiset(cs, depth);
    lemma_split_members(cs, depth);
}

} // verus!

verus! {

// ---------------------------------------------------------------------------
// Choosing what to pack
// ---------------------------------------------------------------------------

/// A file map with fewer files than this is left unpacked.
pub const PACK_TREE_FILE_THRESHOLD: usize = 200;

/// Packing is only worth it with at least this many small contents.
pub const PACK_MIN_CONTENTS: usize = 128;

/// Contents larger than this travel on their own.
pub const PACK_MAX_CONTENT_SIZE: u64 = 1048576;

/// A hashed source small enough to go into a pack.
pub open spec fn packable(s: SourceView) -> bool {
    s.file_id is Some && s.size <= PACK_MAX_CONTENT_SIZE
}

/// The candidate a packable source gives: its content id, path and size.
pub open spec fn candidate_of(s: SourceView) -> CandidateView {
    (s.file_id->0, s.source, s.size)
}

/// Source `i` is packable and no packable source before it has its content
/// id.
pub open spec fn first_packable(srcs: Seq<SourceView>, i: int) -> bool {
    &&& 0 <= i < srcs.len()
    &&& packable(srcs[i])
    &&& forall|j: int|
        0 <= j < i && packable(#[trigger] srcs[j]) ==> srcs[j].file_id->0 != srcs[i].file_id->0
}

/// The content ids of the packable sources.
pub open spec fn packable_ids(srcs: Seq<SourceView>) -> Set<Seq<char>> {
    Set::new(
        |x: Seq<char>|
            exists|i: int| 0 <= i < srcs.len() && packable(#[trigger] srcs[i]) && srcs[i].file_id->0 == x,
    )
}

/// The content ids of a candidate list, in order.
pub open spec fn candidate_keys(cs: Seq<CandidateView>) -> Seq<Seq<char>> {
    Seq::new(cs.len(), |k: int| cs[k].0)
}

/// The candidate comes from the first source with its content id.
pub open spec fn taken_from_first(srcs: Seq<SourceView>, c: CandidateView) -> bool {
    exists|i: int| #[trigger] first_packable(srcs, i) && c == candidate_of(srcs[i])
}

/// The candidates of a pack run: one per distinct content id among the
/// packable sources, in text order of the ids, each taken from the first
/// source with that id.
pub open spec fn candidate_listing(srcs: Seq<SourceView>, cs: Seq<CandidateView>) -> bool {
    &&& strictly_sorted(candidate_keys(cs))
    &&& candidate_keys(cs).to_set() == packable_ids(srcs)
    &&& forall|k: int| 0 <= k < cs.len() ==> taken_from_first(srcs, #[trigger] cs[k])
}

/// The contents of a files entry worth packing: none when the map has fewer than
/// `PACK_TREE_FILE_THRESHOLD` files or is packed already, or when fewer than
/// `PACK_MIN_CONTENTS` distinct small contents qualify; otherwise the
/// candidate listing of the sources.
pub fn pack_candidates(tree_file_count: usize, already_packed: bool, sources: &[LocalSource]) -> (r: Option<
    Vec<PackCandidate>,
>)
    ensures
        tree_file_count < PACK_TREE_FILE_THRESHOLD || already_packed ==> r is None,
        !(tree_file_count < PACK_TREE_FILE_THRESHOLD || already_packed) ==> (r is Some <==> packable_ids(
            sources_view(sources@),
        ).len() >= PACK_MIN_CONTENTS),
        r matches Some(v) ==> candidate_listing(sources_view(sources@), candidates_view(v@)),
{
    if tree_file_count < PACK_TREE_FILE_THRESHOLD || already_packed {
        return None;
    }
    let ghost srcs = sources_view(sources@);
    let mut keys: Vec<Vec<char>> = Vec::new();
    let mut out: Vec<PackCandidate> = Vec::new();
    let mut i: usize = 0;
    proof {
        assert(packable_ids(srcs.take(0)) =~= Set::<Seq<char>>::empty());
        assert(chars_view(keys@).to_set() =~= Set::<Seq<char>>::empty());
    }
    while i < sources.len()
        invariant
            i <= sources.len(),
            srcs == sources_view(sources@),
            chars_view(keys@) == candidate_keys(candidates_view(out@)),
            strictly_sorted(chars_view(keys@)),
            chars_view(keys@).to_set() == packable_ids(srcs.take(i as int)),
            forall|k: int| 0 <= k < out.len() ==> taken_from_first(srcs, #[trigger] candidate_view(out@[k])),
        decreases sources.len() - i,
    {
        let ghost before_vec = out@;
        let ghost before_set = packable_ids(srcs.take(i as int));
        let ghost sv = srcs[i as int];
        let src = &sources[i];
        if src.size <= PACK_MAX_CONTENT_SIZE {
            if let Some(id) = &src.file_id {
                let cs = chars_of(id.as_str());
                let at = insert_sorted_unique(&mut keys, cs);
                if let Some(p) = at {
                    let candidate = PackCandidate { file_id: owned(id.as_str()), source: owned(src.source.as_str()), size: src.size };
                    proof {
                        assert(candidate_view(candidate) == candidate_of(sv));
                        assert(!before_set.contains(sv.file_id->0));
                        assert(first_packable(srcs, i as int)) by {
                            assert forall|j: int| 0 <= j < i && packable(#[trigger] srcs[j]) implies srcs[j].file_id->0
                                != sv.file_id->0 by {
                                if srcs[j].file_id->0 == sv.file_id->0 {
                                    assert(srcs.take(i as int)[j] == srcs[j]);
                                    assert(before_set.contains(sv.file_id->0));
                                }
                            }
                        }
                        assert(taken_from_first(srcs, candidate_view(candidate)));
                    }
                    out.insert(p, candidate);
                    proof {
                        assert(candidates_view(out@) =~= candidates_view(before_vec).insert(p as int, candidate_of(sv)));
                        assert(candidate_keys(candidates_view(out@)) =~= chars_view(keys@));
                        assert forall|k: int| 0 <= k < out.len() implies taken_from_first(
                            srcs,
                            #[trigger] candidate_view(out@[k]),
                        ) by {
                            if k < p {
                                assert(out@[k] == before_vec[k]);
                            } else if k > p {
                                let q = k - 1;
                                assert(out@[k] == before_vec[q]);
                                assert(taken_from_first(srcs, candidate_view(before_vec[q])));
                            } else {
                                assert(out@[k] == candidate);
                            }
                        }
                    }
                }
            }
        }
        proof {
            let longer = srcs.take(i + 1);
            let shorter = srcs.take(i as int);
            assert(longer =~= shorter.push(sv));
            if packable(sv) {
                assert(packable_ids(longer) =~= before_set.insert(sv.file_id->0)) by {
                    assert forall|x: Seq<char>| #[trigger] packable_ids(longer).contains(x) implies before_set.insert(
                        sv.file_id->0,
                    ).contains(x) by {
                        let j = choose|j: int| 0 <= j < longer.len() && packable(#[trigger] longer[j]) && longer[j].file_id->0 == x;
                        if j < i {
                            assert(shorter[j] == longer[j]);
                        }
                    }
                    assert forall|x: Seq<char>| #[trigger] before_set.insert(sv.file_id->0).contains(x) implies packable_ids(
                        longer,
                    ).contains(x) by {
                        if x == sv.file_id->0 {
                            assert(longer[i as int] == sv);
                        } else {
                            let j = choose|j: int| 0 <= j < shorter.len() && packable(#[trigger] shorter[j]) && shorter[j].file_id->0 == x;
                            assert(longer[j] == shorter[j]);
                        }
                    }
                }
            } else {
                assert(packable_ids(longer) =~= before_set) by {
                    assert forall|x: Seq<char>| #[trigger] packable_ids(longer).contains(x) implies before_set.contains(x) by {
                        let j = choose|j: int| 0 <= j < longer.len() && packable(#[trigger] longer[j]) && longer[j].file_id->0 == x;
                        assert(j != i);
                        assert(shorter[j] == longer[j]);
                    }
                    assert forall|x: Seq<char>| #[trigger] before_set.contains(x) implies packable_ids(longer).contains(x) by {
                        let j = choose|j: int| 0 <= j < shorter.len() && packable(#[trigger] shorter[j]) && shorter[j].file_id->0 == x;
                        assert(longer[j] == shorter[j]);
                    }
                }
            }
        }
        i = i + 1;
    }
    proof {
        assert(srcs.take(sources.len() as int) =~= srcs);
        let keys_seq = chars_view(keys@);
        assert(keys_seq.no_duplicates()) by {
            assert forall|a: int, b: int| 0 <= a < keys_seq.len() && 0 <= b < keys_seq.len() && a != b implies keys_seq[a]
                != keys_seq[b] by {
                lemma_text_less_irreflexive(keys_seq[a]);
                if a < b {
                    assert(crate::identity::text_less(keys_seq[a], keys_seq[b]));
                } else {
                    assert(crate::identity::text_less(keys_seq[b], keys_seq[a]));
                }
            }
        }
        keys_seq.unique_seq_to_set();
        assert forall|k: int| 0 <= k < out.len() implies taken_from_first(srcs, #[trigger] candidates_view(out@)[k]) by {
            assert(candidates_view(out@)[k] == candidate_view(out@[k]));
        }
    }
    if out.len() < PACK_MIN_CONTENTS {
        None
    } else {
        Some(out)
    }
}

} // verus!

verus! {

// ---------------------------------------------------------------------------
// Pointing the tree at the packs
// ---------------------------------------------------------------------------

/// The pack a content went into: the last pairing of it, as a map built from
/// the pairs keeps.
pub open spec fn pack_of(pairs: Seq<(Seq<char>, Seq<char>)>, f: Seq<char>) -> Option<Seq<char>>
    decreases pairs.len(),
{
    if pairs.len() == 0 {
        None
    } else if pairs.last().0 == f {
        Some(pairs.last().1)
    } else {
        pack_of(pairs.drop_last(), f)
    }
}

/// The id a tree node is transferred under: its pack's, or its own.
pub open spec fn transfer_id_of(pairs: Seq<(Seq<char>, Seq<char>)>, f: Seq<char>) -> Seq<char> {
    match pack_of(pairs, f) {
        Some(p) => p,
        None => f,
    }
}

/// Each text once, where it first occurs.
pub open spec fn distinct_first(s: Seq<Seq<char>>) -> Seq<Seq<char>>
    decreases s.len(),
{
    if s.len() == 0 {
        Seq::empty()
    } else {
        let a = distinct_first(s.drop_last());
        if a.contains(s.last()) {
            a
        } else {
            a.push(s.last())
        }
    }
}

/// A file record taken by value: content id, size, whether the server holds
/// it.
pub open spec fn file_record_view(f: ClipboardFile) -> (Seq<char>, u64, bool) {
    (f.file_id@, f.size, f.available)
}

pub open spec fn file_records_view(fs: Seq<ClipboardFile>) -> Seq<(Seq<char>, u64, bool)> {
    Seq::new(fs.len(), |i: int| file_record_view(fs[i]))
}

/// The record kept for an id, the last one listed, as a map built from the
/// list keeps.
pub open spec fn record_of(records: Seq<(Seq<char>, u64, bool)>, id: Seq<char>) -> Option<(Seq<char>, u64, bool)>
    decreases records.len(),
{
    if records.len() == 0 {
        None
    } else if records.last().0 == id {
        Some(records.last())
    } else {
        record_of(records.drop_last(), id)
    }
}

/// A pack's record: its id and size, not yet on the server.
pub open spec fn pack_records(packs: Seq<(Seq<char>, u64)>) -> Seq<(Seq<char>, u64, bool)> {
    Seq::new(packs.len(), |i: int| (packs[i].0, packs[i].1, false))
}

/// The record a transfer id stands for: a new pack's, else the entry's own.
pub open spec fn transfer_record(
    packs: Seq<(Seq<char>, u64)>,
    known: Seq<(Seq<char>, u64, bool)>,
    id: Seq<char>,
) -> Option<(Seq<char>, u64, bool)> {
    match record_of(pack_records(packs), id) {
        Some(r) => Some(r),
        None => record_of(known, id),
    }
}

/// The records of some transfer ids, in order, skipping ids with none.
pub open spec fn records_for(
    ids: Seq<Seq<char>>,
    packs: Seq<(Seq<char>, u64)>,
    known: Seq<(Seq<char>, u64, bool)>,
) -> Seq<(Seq<char>, u64, bool)>
    decreases ids.len(),
{
    if ids.len() == 0 {
        Seq::empty()
    } else {
        let a = records_for(ids.drop_last(), packs, known);
        match transfer_record(packs, known, ids.last()) {
            Some(r) => a.push(r),
            None => a,
        }
    }
}

/// Text pairs taken by value.
pub open spec fn string_pairs_view(v: Seq<(String, String)>) -> Seq<(Seq<char>, Seq<char>)> {
    Seq::new(v.len(), |i: int| (v[i].0@, v[i].1@))
}

/// Sized ids taken by value.
pub open spec fn sized_ids_view(v: Seq<(String, u64)>) -> Seq<(Seq<char>, u64)> {
    Seq::new(v.len(), |i: int| (v[i].0@, v[i].1))
}

pub open spec fn opt_text_view(o: Option<String>) -> Option<Seq<char>> {
    match o {
        Some(s) => Some(s@),
        None => None,
    }
}

fn clone_string(s: &String) -> (r: String)
    ensures
        r@ == s@,
{
    owned(s.as_str())
}

/// The pack paired with `f`, looked up from the last pairing back.
fn find_pack(pairs: &Vec<(String, String)>, f: &String) -> (r: Option<String>)
    ensures
        opt_text_view(r) == pack_of(string_pairs_view(pairs@), f@),
{
    let ghost pv = string_pairs_view(pairs@);
    let mut i: usize = pairs.len();
    assert(pv.take(i as int) =~= pv);
    while i > 0
        invariant
            i <= pairs.len(),
            pv == string_pairs_view(pairs@),
            pack_of(pv, f@) == pack_of(pv.take(i as int), f@),
        decreases i,
    {
        assert(pv.take(i as int).drop_last() =~= pv.take(i - 1));
        assert(pv.take(i as int).last() == pv[i - 1]);
        if crate::text::str_eq(pairs[i - 1].0.as_str(), f.as_str()) {
            return Some(clone_string(&pairs[i - 1].1));
        }
        i = i - 1;
    }
    None
}

/// The record kept for `id`, looked up from the last one back.
fn find_record(records: &Vec<ClipboardFile>, id: &String) -> (r: Option<ClipboardFile>)
    ensures
        match r {
            Some(x) => record_of(file_records_view(records@), id@) == Some(file_record_view(x)),
            None => record_of(file_records_view(records@), id@) is None,
        },
{
    let ghost rv = file_records_view(records@);
    let mut i: usize = records.len();
    assert(rv.take(i as int) =~= rv);
    while i > 0
        invariant
            i <= records.len(),
            rv == file_records_view(records@),
            record_of(rv, id@) == record_of(rv.take(i as int), id@),
        decreases i,
    {
        assert(rv.take(i as int).drop_last() =~= rv.take(i - 1));
        assert(rv.take(i as int).last() == rv[i - 1]);
        if crate::text::str_eq(records[i - 1].file_id.as_str(), id.as_str()) {
            let x = ClipboardFile {
                file_id: clone_string(&records[i - 1].file_id),
                size: records[i - 1].size,
                available: records[i - 1].available,
            };
            return Some(x);
        }
        i = i - 1;
    }
    None
}

/// The record of a new pack called `id`, looked up from the last one back.
fn find_pack_record(packs: &Vec<(String, u64)>, id: &String) -> (r: Option<ClipboardFile>)
    ensures
        match r {
            Some(x) => record_of(pack_records(sized_ids_view(packs@)), id@) == Some(file_record_view(x)),
            None => record_of(pack_records(sized_ids_view(packs@)), id@) is None,
        },
{
    let ghost rv = pack_records(sized_ids_view(packs@));
    let mut i: usize = packs.len();
    assert(rv.take(i as int) =~= rv);
    while i > 0
        invariant
            i <= packs.len(),
            rv == pack_records(sized_ids_view(packs@)),
            record_of(rv, id@) == record_of(rv.take(i as int), id@),
        decreases i,
    {
        assert(rv.take(i as int).drop_last() =~= rv.take(i - 1));
        assert(rv.take(i as int).last() == rv[i - 1]);
        if crate::text::str_eq(packs[i - 1].0.as_str(), id.as_str()) {
            let x = ClipboardFile { file_id: clone_string(&packs[i - 1].0), size: packs[i - 1].1, available: false };
            return Some(x);
        }
        i = i - 1;
    }
    None
}

/// Points a packed entry's tree at its packs: each node (given by its
/// content id, in tree order) gets the pack its content went into, if any,
/// and the entry's file list becomes one record per transfer id, in the
/// order the nodes first name it — a new pack's record, or the entry's own
/// record of the id; ids with neither are left out. Nodes keep their own
/// content ids, so every file can still be checked on extraction.
pub fn rewrite_pack_nodes(
    node_ids: &Vec<String>,
    member_to_pack: &Vec<(String, String)>,
    packs: &Vec<(String, u64)>,
    known: &Vec<ClipboardFile>,
) -> (r: (Vec<Option<String>>, Vec<ClipboardFile>))
    ensures
        r.0@.len() == node_ids@.len(),
        forall|i: int|
            0 <= i < node_ids@.len() ==> opt_text_view(#[trigger] r.0@[i]) == pack_of(
                string_pairs_view(member_to_pack@),
                node_ids@[i]@,
            ),
        file_records_view(r.1@) == records_for(
            distinct_first(
                Seq::new(
                    node_ids@.len(),
                    |i: int| transfer_id_of(string_pairs_view(member_to_pack@), node_ids@[i]@),
                ),
            ),
            sized_ids_view(packs@),
            file_records_view(known@),
        ),
{
    let ghost pv = string_pairs_view(member_to_pack@);
    let ghost tids = Seq::new(node_ids@.len(), |i: int| transfer_id_of(pv, node_ids@[i]@));
    let ghost kv = file_records_view(known@);
    let ghost ps = sized_ids_view(packs@);
    let mut bs: Vec<Option<String>> = Vec::new();
    let mut seen: Vec<String> = Vec::new();
    let mut files: Vec<ClipboardFile> = Vec::new();
    let mut i: usize = 0;
    while i < node_ids.len()
        invariant
            i <= node_ids.len(),
            pv == string_pairs_view(member_to_pack@),
            kv == file_records_view(known@),
            ps == sized_ids_view(packs@),
            tids == Seq::new(node_ids@.len(), |i: int| transfer_id_of(pv, node_ids@[i]@)),
            bs@.len() == i,
            forall|k: int| 0 <= k < i ==> opt_text_view(#[trigger] bs@[k]) == pack_of(pv, node_ids@[k]@),
            strings_view(seen@) == distinct_first(tids.take(i as int)),
            file_records_view(files@) == records_for(distinct_first(tids.take(i as int)), ps, kv),
        decreases node_ids.len() - i,
    {
        let pack = find_pack(member_to_pack, &node_ids[i]);
        let tid = match &pack {
            Some(p) => clone_string(p),
            None => clone_string(&node_ids[i]),
        };
        assert(tid@ == tids[i as int]);
        let ghost d = distinct_first(tids.take(i as int));
        let ghost before = file_records_view(files@);
        assert(tids.take(i + 1).drop_last() =~= tids.take(i as int));
        assert(tids.take(i + 1).last() == tids[i as int]);
        bs.push(pack);
        if !crate::tree::contains_string(&seen, tid.as_str()) {
            let ghost d2 = d.push(tid@);
            assert(d2.drop_last() =~= d);
            let record = match find_pack_record(packs, &tid) {
                Some(x) => Some(x),
                None => find_record(known, &tid),
            };
            match record {
                Some(x) => {
                    files.push(x);
                    assert(file_records_view(files@) =~= before.push(file_record_view(x)));
                },
                None => {
                    assert(file_records_view(files@) =~= before);
                },
            }
            seen.push(tid);
            assert(strings_view(seen@) =~= d2);
        }
        i = i + 1;
    }
    assert(tids.take(node_ids.len() as int) =~= tids);
    (bs, files)
}

} // verus!
