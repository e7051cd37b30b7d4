//! Identities of captures that wait in the upload queue. Until the server
//! assigns a real id, an entry is named after its queue row: `p<seq>`.

use vstd::prelude::*;
use crate::text::{
    append_str, chars_of, decimal, decimal_value, is_decimal_digit, lemma_decimal_digits, signed_decimal,
    signed_decimal_string,
};

verus! {

/// One durable upload-queue row: the complete capture payload.
#[derive(Clone, Debug)]
pub struct PendingQueueRow {
    pub seq: i64,
    pub kind: String,
    pub content: String,
    pub extra: String,
    pub created_at: String,
}

/// `p<seq>`.
pub open spec fn temp_entry_id_of(seq: int) -> Seq<char> {
    seq!['p'] + signed_decimal(seq)
}

/// The temporary id of the entry a queue row stands for.
pub fn temp_entry_id(seq: i64) -> (id: String)
    ensures
        id@ == temp_entry_id_of(seq as int),
{
    let mut id = String::new();
    append_str(&mut id, "p");
    let digits = signed_decimal_string(seq);
    append_str(&mut id, digits.as_str());
    proof {
        reveal_strlit("p");
    }
    assert(id@ =~= temp_entry_id_of(seq as int));
    id
}

pub open spec fn all_decimal_digits(s: Seq<char>) -> bool {
    forall|i: int| 0 <= i < s.len() ==> is_decimal_digit(#[trigger] s[i])
}

/// The queue seq a temporary id names: `p`, an optional `+`, then decimal
/// digits whose value is a positive `i64`.
pub open spec fn temp_entry_seq_of(id: Seq<char>) -> Option<int> {
    if id.len() >= 1 && id[0] == 'p' {
        let body = id.skip(1);
        let digits = if body.len() > 0 && body[0] == '+' {
            body.skip(1)
        } else {
            body
        };
        if digits.len() > 0 && all_decimal_digits(digits) && 0 < decimal_value(digits)
            <= i64::MAX {
            Some(decimal_value(digits) as int)
        } else {
            None
        }
    } else {
        None
    }
}

proof fn lemma_decimal_value_prefix(s: Seq<char>, i: int)
    requires
        0 <= i <= s.len(),
        all_decimal_digits(s),
    ensures
        decimal_value(s.take(i)) <= decimal_value(s),
    decreases s.len(),
{
    if i < s.len() {
        assert(all_decimal_digits(s.drop_last())) by {
            assert forall|k: int| 0 <= k < s.drop_last().len() implies is_decimal_digit(
                #[trigger] s.drop_last()[k],
            ) by {
                assert(s.drop_last()[k] == s[k]);
            }
        }
        lemma_decimal_value_prefix(s.drop_last(), i);
        assert(s.drop_last().take(i) =~= s.take(i));
        assert(is_decimal_digit(s[s.len() - 1]));
    } else {
        assert(s.take(i) =~= s);
    }
}

/// The queue seq a temporary id names, or `None` for any
/// other id.
pub fn temp_entry_seq(id: &str) -> (seq: Option<i64>)
    ensures
        match seq {
            Some(n) => temp_entry_seq_of(id@) == Some(n as int),
            None => temp_entry_seq_of(id@) is None,
        },
{
    let cs = chars_of(id);
    if cs.len() == 0 || cs[0] != 'p' {
        return None;
    }
    let mut start: usize = 1;
    if cs.len() > 1 && cs[1] == '+' {
        start = 2;
    }
    let ghost body = id@.skip(1);
    let ghost digits = if body.len() > 0 && body[0] == '+' {
        body.skip(1)
    } else {
        body
    };
    assert(digits =~= cs@.skip(start as int));
    if start == cs.len() {
        return None;
    }
    let mut value: u64 = 0;
    let mut i: usize = start;
    while i < cs.len()
        invariant
            1 <= start <= i <= cs.len(),
            cs@ == id@,
            cs@[0] == 'p',
            body == id@.skip(1),
            digits == (if body.len() > 0 && body[0] == '+' { body.skip(1) } else { body }),
            digits =~= cs@.skip(start as int),
            value as nat == decimal_value(cs@.subrange(start as int, i as int)),
            value <= i64::MAX,
            all_decimal_digits(cs@.subrange(start as int, i as int)),
        decreases cs.len() - i,
    {
        let c = cs[i];
        let ghost prefix = cs@.subrange(start as int, i + 1);
        assert(prefix.drop_last() =~= cs@.subrange(start as int, i as int));
        assert(prefix.last() == c);
        if !('0' <= c && c <= '9') {
            assert(digits[i - start] == c);
            assert(!is_decimal_digit(digits[i - start]));
            assert(!all_decimal_digits(digits));
            assert(id@.len() >= 1 && id@[0] == 'p');
            assert(temp_entry_seq_of(id@) is None);
            return None;
        }
        let d = (c as u32 - 48) as u64;
        assert(decimal_value(prefix) == value * 10 + d);
        if value > (9223372036854775807u64 - d) / 10 {
            proof {
                assert(value * 10 + d > i64::MAX) by (nonlinear_arith)
                    requires
                        value > (9223372036854775807u64 - d) / 10,
                        d <= 9,
                ;
                assert(prefix =~= digits.take(i + 1 - start));
                if all_decimal_digits(digits) {
                    lemma_decimal_value_prefix(digits, i + 1 - start);
                    assert(decimal_value(digits) > i64::MAX);
                }
                assert(temp_entry_seq_of(id@) is None);
            }
            return None;
        }
        value = value * 10 + d;
        assert(all_decimal_digits(prefix)) by {
            assert forall|k: int| 0 <= k < prefix.len() implies is_decimal_digit(#[trigger] prefix[k]) by {
                if k < prefix.len() - 1 {
                    assert(prefix[k] == cs@.subrange(start as int, i as int)[k]);
                }
            }
        }
        i = i + 1;
    }
    assert(cs@.subrange(start as int, cs.len() as int) =~= digits);
    if value == 0 {
        return None;
    }
    Some(value as i64)
}

/// Every positive queue seq survives the trip through its temporary id.
pub proof fn law_temp_entry_id_round_trip(seq: int)
    requires
        0 < seq <= i64::MAX,
    ensures
        temp_entry_seq_of(temp_entry_id_of(seq)) == Some(seq),
{
    lemma_decimal_digits(seq as nat);
    let id = temp_entry_id_of(seq);
    assert(id.skip(1) =~= decimal(seq as nat));
    assert(is_decimal_digit(decimal(seq as nat)[0]));
}

/// A seq that is not positive names no queue row: its id never parses back.
pub proof fn law_non_positive_seq_ids_are_refused(seq: int)
    requires
        i64::MIN <= seq <= 0,
    ensures
        temp_entry_seq_of(temp_entry_id_of(seq)) is None,
{
    let id = temp_entry_id_of(seq);
    if seq == 0 {
        lemma_decimal_digits(0);
        assert(id.skip(1) =~= decimal(0));
        assert(decimal(0) =~= seq!['0']);
    } else {
        assert(id.skip(1)[0] == '-');
        assert(!is_decimal_digit('-'));
    }
}

/// The queue seqs behind the temporary ones among some entry ids, in order
/// (the queue rows removed with those entries).
pub open spec fn pending_seqs_of(ids: Seq<Seq<char>>) -> Seq<int>
    decreases ids.len(),
{
    if ids.len() == 0 {
        Seq::empty()
    } else {
        match temp_entry_seq_of(ids.last()) {
            Some(n) => pending_seqs_of(ids.drop_last()).push(n),
            None => pending_seqs_of(ids.drop_last()),
        }
    }
}

/// The queue seqs of the temporary ids among `entry_ids`.
pub fn pending_seqs_for(entry_ids: &Vec<String>) -> (seqs: Vec<i64>)
    ensures
        seqs@.map_values(|n: i64| n as int) == pending_seqs_of(entry_ids@.map_values(|s: String| s@)),
{
    let ghost ids = entry_ids@.map_values(|s: String| s@);
    let mut seqs: Vec<i64> = Vec::new();
    let mut i: usize = 0;
    while i < entry_ids.len()
        invariant
            i <= entry_ids.len(),
            ids == entry_ids@.map_values(|s: String| s@),
            seqs@.map_values(|n: i64| n as int) == pending_seqs_of(ids.take(i as int)),
        decreases entry_ids.len() - i,
    {
        assert(ids.take(i + 1).drop_last() =~= ids.take(i as int));
        assert(ids.take(i + 1).last() == entry_ids@[i as int]@);
        let parsed = temp_entry_seq(entry_ids[i].as_str());
        match parsed {
            Some(n) => {
                seqs.push(n);
            },
            None => {},
        }
        assert(seqs@.map_values(|n: i64| n as int) =~= pending_seqs_of(ids.take(i + 1)));
        i = i + 1;
    }
    assert(ids.take(entry_ids.len() as int) =~= ids);
    seqs
}

/// The deletions the server has to hear of when entries are removed:
/// the removed ids that were in
/// the history and were published, in order. A temporary id was never
/// uploaded, so nothing is announced for it.
pub open spec fn announced_deletions_of(removed: Seq<Seq<char>>, existing: Seq<Seq<char>>) -> Seq<Seq<char>>
    decreases removed.len(),
{
    if removed.len() == 0 {
        Seq::empty()
    } else {
        let id = removed.last();
        let prev = announced_deletions_of(removed.drop_last(), existing);
        if existing.contains(id) && temp_entry_seq_of(id) is None {
            prev.push(id)
        } else {
            prev
        }
    }
}

/// The removed ids whose deletion is announced to the server.
pub fn announced_deletions(removed: &Vec<String>, existing: &Vec<String>) -> (ids: Vec<String>)
    ensures
        crate::tree::strings_view(ids@) == announced_deletions_of(
            crate::tree::strings_view(removed@),
            crate::tree::strings_view(existing@),
        ),
{
    let ghost rv = crate::tree::strings_view(removed@);
    let ghost ev = crate::tree::strings_view(existing@);
    let mut ids: Vec<String> = Vec::new();
    let mut i: usize = 0;
    while i < removed.len()
        invariant
            i <= removed.len(),
            rv == crate::tree::strings_view(removed@),
            ev == crate::tree::strings_view(existing@),
            crate::tree::strings_view(ids@) == announced_deletions_of(rv.take(i as int), ev),
        decreases removed.len() - i,
    {
        proof {
            assert(rv.take(i + 1).drop_last() =~= rv.take(i as int));
            assert(rv.take(i + 1).last() == rv[i as int]);
        }
        let id = removed[i].as_str();
        let published = match temp_entry_seq(id) {
            Some(_) => false,
            None => true,
        };
        if crate::tree::contains_string(existing, id) && published {
            let ghost before = ids@;
            ids.push(crate::text::owned(id));
            proof {
                assert(crate::tree::strings_view(ids@) =~= crate::tree::strings_view(before).push(id@));
            }
        }
        i = i + 1;
    }
    proof {
        assert(rv.take(removed.len() as int) =~= rv);
    }
    ids
}

} // verus!
