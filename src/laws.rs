use vstd::prelude::*;
use crate::engine::{
    records_fit, DecisionView, DedupState, OfferView, key_of, matches_diag, merged, needs_decision, offered,
    step_report, stepped,
};
use crate::index::{
    Entries, has_key, inserted, keys_unique, lemma_inserted_unique, lemma_position_unique,
    lemma_removed_unique, lookup, position, removed,
};
use crate::record::RecordView;
use crate::resolve::{agree_off_key, differs_at};
use crate::schema::Policy;

verus! {

/// A record that equals the held one on every field but the key leaves the
/// state as it is, whatever the policy and whatever decision comes with it,
/// and is reported as a duplicate.
pub proof fn law_identical_keeps_existing(
    st: DedupState,
    rec: RecordView,
    key_pos: int,
    policy: Policy,
    significant: Seq<usize>,
    d: Option<DecisionView>,
)
    requires
        key_of(rec, key_pos).len() > 0,
        has_key(st.entries, key_of(rec, key_pos)),
        agree_off_key(rec.fields, lookup(st.entries, key_of(rec, key_pos)).unwrap().fields, key_pos),
    ensures
        stepped(st, rec, key_pos, policy, d) == st,
        step_report(st, rec, key_pos, policy, significant, d) == OfferView::Duplicate(
            matches_diag(rec, lookup(st.entries, key_of(rec, key_pos)).unwrap(), key_pos),
        ),
{
}

/// One step keeps keys unique.
pub proof fn law_step_keeps_keys_unique(
    st: DedupState,
    rec: RecordView,
    key_pos: int,
    policy: Policy,
    d: Option<DecisionView>,
)
    requires
        keys_unique(st.entries),
    ensures
        keys_unique(stepped(st, rec, key_pos, policy, d).entries),
{
    let k = key_of(rec, key_pos);
    if needs_decision(st, rec, key_pos, policy) && d.is_some() {
        let ex = lookup(st.entries, k).unwrap();
        match d.unwrap() {
            DecisionView::DropBoth => lemma_removed_unique(st.entries, k),
            DecisionView::Merge(picks) => lemma_inserted_unique(st.entries, k, merged(rec, ex, key_pos, picks)),
            DecisionView::Split(nk) => {
                let sp = crate::engine::split(ex, key_pos, nk);
                lemma_inserted_unique(st.entries, key_of(sp, key_pos), sp);
            },
        }
    } else {
        lemma_inserted_unique(st.entries, k, rec);
    }
}

/// The state after a stream of records, each with the decision it was
/// offered with.
pub open spec fn run(
    st: DedupState,
    stream: Seq<(RecordView, Option<DecisionView>)>,
    key_pos: int,
    policy: Policy,
) -> DedupState
    decreases stream.len(),
{
    if stream.len() == 0 {
        st
    } else {
        let last = stream.last();
        stepped(run(st, stream.drop_last(), key_pos, policy), last.0, key_pos, policy, last.1)
    }
}

/// After any finite stream, the index holds at most one entry per key.
pub proof fn law_keys_unique(
    st: DedupState,
    stream: Seq<(RecordView, Option<DecisionView>)>,
    key_pos: int,
    policy: Policy,
)
    requires
        keys_unique(st.entries),
    ensures
        keys_unique(run(st, stream, key_pos, policy).entries),
    decreases stream.len(),
{
    if stream.len() > 0 {
        law_keys_unique(st, stream.drop_last(), key_pos, policy);
        let last = stream.last();
        law_step_keeps_keys_unique(run(st, stream.drop_last(), key_pos, policy), last.0, key_pos, policy, last.1);
    }
}

/// `t` keeps the relative order of the keys it shares with `s`, and a key
/// that `s` lacks stands last in `t`.
pub open spec fn keeps_order(s: Entries, t: Entries) -> bool {
    &&& forall|i: int, j: int|
        0 <= i < j < t.len() && has_key(s, #[trigger] t[i].0) && has_key(s, #[trigger] t[j].0)
            ==> position(s, t[i].0) < position(s, t[j].0)
    &&& forall|i: int| 0 <= i < t.len() && !has_key(s, #[trigger] t[i].0) ==> i == t.len() - 1
}

proof fn lemma_inserted_keeps_order(s: Entries, k: Seq<char>, v: RecordView)
    requires
        keys_unique(s),
    ensures
        keeps_order(s, inserted(s, k, v)),
{
    let t = inserted(s, k, v);
    lemma_inserted_unique(s, k, v);
    if has_key(s, k) {
        let p = position(s, k);
        assert forall|i: int| 0 <= i < t.len() implies has_key(s, #[trigger] t[i].0) && position(s, t[i].0) == i by {
            if i == p {
                lemma_position_unique(s, k, p);
            } else {
                lemma_position_unique(s, s[i].0, i);
            }
        }
    } else {
        assert forall|i: int| 0 <= i < s.len() implies has_key(s, #[trigger] t[i].0) && position(s, t[i].0) == i by {
            lemma_position_unique(s, s[i].0, i);
        }
    }
}

proof fn lemma_removed_keeps_order(s: Entries, k: Seq<char>)
    requires
        keys_unique(s),
    ensures
        keeps_order(s, removed(s, k)),
{
    let t = removed(s, k);
    if has_key(s, k) {
        let p = position(s, k);
        assert forall|i: int| 0 <= i < t.len() implies has_key(s, #[trigger] t[i].0) && position(s, t[i].0) == (
        if i < p { i } else { i + 1 }) by {
            let si = if i < p { i } else { i + 1 };
            assert(t[i] == s[si]);
            lemma_position_unique(s, s[si].0, si);
        }
    } else {
        assert forall|i: int| 0 <= i < t.len() implies has_key(s, #[trigger] t[i].0) && position(s, t[i].0) == i by {
            lemma_position_unique(s, s[i].0, i);
        }
    }
}

/// A step never reorders the keys that survive it: an update keeps a key's
/// place, and only a key established by the step comes after all others.
pub proof fn law_step_keeps_order(
    st: DedupState,
    rec: RecordView,
    key_pos: int,
    policy: Policy,
    d: Option<DecisionView>,
)
    requires
        keys_unique(st.entries),
    ensures
        keeps_order(st.entries, stepped(st, rec, key_pos, policy, d).entries),
{
    let k = key_of(rec, key_pos);
    let s = st.entries;
    if needs_decision(st, rec, key_pos, policy) && d.is_some() {
        let ex = lookup(s, k).unwrap();
        match d.unwrap() {
            DecisionView::DropBoth => lemma_removed_keeps_order(s, k),
            DecisionView::Merge(picks) => lemma_inserted_keeps_order(s, k, merged(rec, ex, key_pos, picks)),
            DecisionView::Split(nk) => {
                let sp = crate::engine::split(ex, key_pos, nk);
                lemma_inserted_keeps_order(s, key_of(sp, key_pos), sp);
                lemma_inserted_keeps_order(s, k, rec);
            },
        }
    } else {
        lemma_inserted_keeps_order(s, k, rec);
    }
}

/// Splitting a conflicting pair under a new key different from theirs
/// leaves the entry of their key as it was.
pub proof fn law_split_keeps_original(
    st: DedupState,
    rec: RecordView,
    key_pos: int,
    new_key: Seq<char>,
)
    requires
        keys_unique(st.entries),
        records_fit(st, rec.fields.len(), key_pos),
        0 <= key_pos < rec.fields.len(),
        needs_decision(st, rec, key_pos, Policy::Interactive),
        new_key != key_of(rec, key_pos),
    ensures
        lookup(stepped(st, rec, key_pos, Policy::Interactive, Some(DecisionView::Split(new_key))).entries,
            key_of(rec, key_pos)) == lookup(st.entries, key_of(rec, key_pos)),
{
    let k = key_of(rec, key_pos);
    let s = st.entries;
    {
        let ex = lookup(s, k).unwrap();
        let sp = crate::engine::split(ex, key_pos, new_key);
        let t = stepped(st, rec, key_pos, Policy::Interactive, Some(DecisionView::Split(new_key))).entries;
        let p = position(s, k);
        assert(s[p].1.fields.len() == rec.fields.len());
        assert(key_of(sp, key_pos) == new_key);
        let nk = new_key;
        if nk.len() > 0 && !has_key(s, nk) {
            assert(t == s.push((nk, sp)));
            lemma_position_unique(s, k, p);
            lemma_inserted_unique(s, nk, sp);
            assert(t[p] == s[p]);
            assert(nk != k);
            lemma_position_unique(t, k, p);
        }
    }
}

/// Fields on which the two records agree keep their common value without a
/// choice; fields on which they differ take the chosen value. The merged
/// record becomes the entry of the key.
pub proof fn law_merge_provenance(st: DedupState, rec: RecordView, key_pos: int, picks: Seq<bool>)
    requires
        keys_unique(st.entries),
        needs_decision(st, rec, key_pos, Policy::Interactive),
        picks.len() == lookup(st.entries, key_of(rec, key_pos)).unwrap().fields.len(),
    ensures
        ({
            let ex = lookup(st.entries, key_of(rec, key_pos)).unwrap();
            let m = merged(rec, ex, key_pos, picks);
            &&& lookup(
                stepped(st, rec, key_pos, Policy::Interactive, Some(DecisionView::Merge(picks))).entries,
                key_of(rec, key_pos),
            ) == Some(m)
            &&& m.fields.len() == ex.fields.len()
            &&& forall|i: int|
                0 <= i < ex.fields.len() && i != key_pos && rec.fields[i] == ex.fields[i]
                    ==> #[trigger] m.fields[i] == rec.fields[i] && m.fields[i] == ex.fields[i]
            &&& forall|i: int|
                0 <= i < ex.fields.len() && #[trigger] differs_at(rec.fields, ex.fields, key_pos, i) ==> m.fields[i]
                    == if picks[i] { rec.fields[i] } else { ex.fields[i] }
        }),
{
    let k = key_of(rec, key_pos);
    let s = st.entries;
    let ex = lookup(s, k).unwrap();
    let m = merged(rec, ex, key_pos, picks);
    let t = inserted(s, k, m);
    let p = position(s, k);
    lemma_inserted_unique(s, k, m);
    assert(t[p].0 == k);
    lemma_position_unique(t, k, p);
}

} // verus!
