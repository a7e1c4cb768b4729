use vstd::prelude::*;
use crate::index::{Entries, RecordIndex, has_key, lookup, inserted, removed, position};
use crate::record::{Record, RecordView};
use crate::resolve::{
    agree_off_key, agree_on, lists_differences, merged_fields, split_fields, differing_fields, is_identical,
    agree_on_fields, merge_records, split_record,
};
use crate::schema::{Policy, Schema};

verus! {

/// What a person decided about a conflicting pair.
pub enum Decision {
    /// Keep one record; `picks[i]` takes the incoming value of field `i`
    /// wherever the two differ.
    Merge(Vec<bool>),
    /// Discard both records and forget the key.
    DropBoth,
    /// Keep the existing record and add a copy of it under this new key.
    Split(String),
}

pub enum DecisionView {
    Merge(Seq<bool>),
    DropBoth,
    Split(Seq<char>),
}

impl View for Decision {
    type V = DecisionView;

    open spec fn view(&self) -> DecisionView {
        match self {
            Decision::Merge(p) => DecisionView::Merge(p@),
            Decision::DropBoth => DecisionView::DropBoth,
            Decision::Split(k) => DecisionView::Split(k@),
        }
    }
}

#[derive(PartialEq, Eq, Structural, Clone, Copy, Debug)]
pub enum DiagnosticKind {
    /// The incoming record duplicates the one held.
    Matches,
    /// The incoming record differs from the one held.
    Differs,
}

/// A report about a duplicate key, for the diagnostic stream.
pub struct Diagnostic {
    pub kind: DiagnosticKind,
    pub key: String,
    /// Line of the incoming record.
    pub line: u64,
    /// Line of the record held for the key.
    pub earlier_line: u64,
}

pub struct DiagnosticView {
    pub kind: DiagnosticKind,
    pub key: Seq<char>,
    pub line: u64,
    pub earlier_line: u64,
}

impl View for Diagnostic {
    type V = DiagnosticView;

    open spec fn view(&self) -> DiagnosticView {
        DiagnosticView { kind: self.kind, key: self.key@, line: self.line, earlier_line: self.earlier_line }
    }
}

/// A conflicting pair that awaits a decision.
pub struct Conflict {
    pub diagnostic: Diagnostic,
    pub incoming: Record,
    pub existing: Record,
    /// The positions at which the two differ, in column order.
    pub differing: Vec<usize>,
}

/// What became of an offered record.
pub enum Offer {
    /// Its key is empty: it goes to the output as it is.
    PassedThrough,
    /// First sighting of its key.
    Inserted,
    /// It equals the record held on every field: the held one stays.
    Duplicate(Diagnostic),
    /// Automatic policy: url, username and password agree, other fields do
    /// not: the held record stays.
    Equivalent(Diagnostic),
    /// Automatic policy: a significant field differs; the held record stays
    /// and the incoming one is reported and dropped.
    Discarded(Diagnostic),
    /// Interactive policy: a decision is needed; nothing changed.
    Conflict(Conflict),
    /// The merged record replaced the held one.
    Merged,
    /// The key was removed together with both records.
    Dropped,
}

pub enum OfferView {
    PassedThrough,
    Inserted,
    Duplicate(DiagnosticView),
    Equivalent(DiagnosticView),
    Discarded(DiagnosticView),
    Conflict(DiagnosticView, RecordView, RecordView),
    Merged,
    Dropped,
}

impl View for Offer {
    type V = OfferView;

    open spec fn view(&self) -> OfferView {
        match self {
            Offer::PassedThrough => OfferView::PassedThrough,
            Offer::Inserted => OfferView::Inserted,
            Offer::Duplicate(d) => OfferView::Duplicate(d@),
            Offer::Equivalent(d) => OfferView::Equivalent(d@),
            Offer::Discarded(d) => OfferView::Discarded(d@),
            Offer::Conflict(c) => OfferView::Conflict(c.diagnostic@, c.incoming@, c.existing@),
            Offer::Merged => OfferView::Merged,
            Offer::Dropped => OfferView::Dropped,
        }
    }
}

#[derive(Debug)]
pub enum EngineError {
    /// The record at `line` has `found` fields where the header has `expected`.
    Malformed { line: u64, expected: usize, found: usize },
    /// A merge decision whose picks do not cover every column.
    PicksMismatch { expected: usize, found: usize },
}

/// The contents of a deduplicator: keyed records in first-insertion order,
/// and the records without a key, in arrival order.
pub struct DedupState {
    pub entries: Entries,
    pub unkeyed: Seq<RecordView>,
}

pub open spec fn key_of(r: RecordView, key_pos: int) -> Seq<char> {
    r.fields[key_pos]
}

pub open spec fn matches_diag(rec: RecordView, ex: RecordView, key_pos: int) -> DiagnosticView {
    DiagnosticView { kind: DiagnosticKind::Matches, key: key_of(rec, key_pos), line: rec.line, earlier_line: ex.line }
}

pub open spec fn differs_diag(rec: RecordView, ex: RecordView, key_pos: int) -> DiagnosticView {
    DiagnosticView { kind: DiagnosticKind::Differs, key: key_of(rec, key_pos), line: rec.line, earlier_line: ex.line }
}

/// The state after offering `rec` when no decision is applied: a record
/// without key is passed through, a new key is inserted, and a known key
/// keeps the record it holds.
pub open spec fn offered(st: DedupState, rec: RecordView, key_pos: int) -> DedupState {
    let k = key_of(rec, key_pos);
    if k.len() == 0 {
        DedupState { entries: st.entries, unkeyed: st.unkeyed.push(rec) }
    } else if !has_key(st.entries, k) {
        DedupState { entries: inserted(st.entries, k, rec), unkeyed: st.unkeyed }
    } else {
        st
    }
}

/// The record a merge decision builds from `rec` and the held `ex`.
pub open spec fn merged(rec: RecordView, ex: RecordView, key_pos: int, picks: Seq<bool>) -> RecordView {
    RecordView { fields: merged_fields(rec.fields, ex.fields, key_pos, picks), line: ex.line }
}

/// The record a split decision adds.
pub open spec fn split(ex: RecordView, key_pos: int, new_key: Seq<char>) -> RecordView {
    RecordView { fields: split_fields(ex.fields, key_pos, new_key), line: ex.line }
}

/// Whether `rec` conflicts with the record held for its key and the policy
/// asks a person to settle it.
pub open spec fn needs_decision(st: DedupState, rec: RecordView, key_pos: int, policy: Policy) -> bool {
    let k = key_of(rec, key_pos);
    &&& policy == Policy::Interactive
    &&& k.len() > 0
    &&& has_key(st.entries, k)
    &&& !agree_off_key(rec.fields, lookup(st.entries, k).unwrap().fields, key_pos)
}

/// The state after offering `rec` together with decision `d`.
pub open spec fn stepped(
    st: DedupState,
    rec: RecordView,
    key_pos: int,
    policy: Policy,
    d: Option<DecisionView>,
) -> DedupState {
    let k = key_of(rec, key_pos);
    if needs_decision(st, rec, key_pos, policy) && d.is_some() {
        let ex = lookup(st.entries, k).unwrap();
        match d.unwrap() {
            DecisionView::DropBoth => DedupState { entries: removed(st.entries, k), unkeyed: st.unkeyed },
            DecisionView::Merge(picks) => DedupState {
                entries: inserted(st.entries, k, merged(rec, ex, key_pos, picks)),
                unkeyed: st.unkeyed,
            },
            DecisionView::Split(nk) => offered(st, split(ex, key_pos, nk), key_pos),
        }
    } else {
        offered(st, rec, key_pos)
    }
}

/// What `offered` reports for `rec`.
pub open spec fn offer_report(
    st: DedupState,
    rec: RecordView,
    key_pos: int,
    policy: Policy,
    significant: Seq<usize>,
) -> OfferView {
    let k = key_of(rec, key_pos);
    if k.len() == 0 {
        OfferView::PassedThrough
    } else if !has_key(st.entries, k) {
        OfferView::Inserted
    } else {
        let ex = lookup(st.entries, k).unwrap();
        if agree_off_key(rec.fields, ex.fields, key_pos) {
            OfferView::Duplicate(matches_diag(rec, ex, key_pos))
        } else if policy == Policy::Interactive {
            OfferView::Conflict(differs_diag(rec, ex, key_pos), rec, ex)
        } else if agree_on(rec.fields, ex.fields, significant) {
            OfferView::Equivalent(matches_diag(rec, ex, key_pos))
        } else {
            OfferView::Discarded(differs_diag(rec, ex, key_pos))
        }
    }
}

/// What offering `rec` together with decision `d` reports.
pub open spec fn step_report(
    st: DedupState,
    rec: RecordView,
    key_pos: int,
    policy: Policy,
    significant: Seq<usize>,
    d: Option<DecisionView>,
) -> OfferView {
    if needs_decision(st, rec, key_pos, policy) && d.is_some() {
        let ex = lookup(st.entries, key_of(rec, key_pos)).unwrap();
        match d.unwrap() {
            DecisionView::DropBoth => OfferView::Dropped,
            DecisionView::Merge(_) => OfferView::Merged,
            DecisionView::Split(nk) => offer_report(st, split(ex, key_pos, nk), key_pos, policy, significant),
        }
    } else {
        offer_report(st, rec, key_pos, policy, significant)
    }
}

/// Every record held has the schema's width and, if keyed, carries its key.
pub open spec fn records_fit(st: DedupState, width: nat, key_pos: int) -> bool {
    &&& forall|i: int| 0 <= i < st.entries.len() ==> (#[trigger] st.entries[i]).1.fields.len() == width
        && st.entries[i].0 == st.entries[i].1.fields[key_pos]
    &&& forall|i: int| 0 <= i < st.unkeyed.len() ==> (#[trigger] st.unkeyed[i]).fields.len() == width
}

/// The streaming deduplicator: it takes records one at a time and keeps one
/// canonical record per key.
pub struct Deduper {
    pub schema: Schema,
    pub policy: Policy,
    pub index: RecordIndex,
    pub unkeyed: Vec<Record>,
}

impl Deduper {
    pub open spec fn state(&self) -> DedupState {
        DedupState { entries: self.index@, unkeyed: self.unkeyed@.map_values(|r: Record| r@) }
    }

    pub open spec fn wf(&self) -> bool {
        &&& self.schema.wf()
        &&& self.index.wf()
        &&& records_fit(self.state(), self.schema.width(), self.schema.key_pos as int)
        &&& self.policy == Policy::Automatic ==> self.schema.significant@.len() == 3
    }

    pub fn new(schema: Schema, policy: Policy) -> (r: Deduper)
        requires
            schema.wf(),
            policy == Policy::Automatic ==> schema.significant@.len() == 3,
        ensures
            r.wf(),
            r.schema == schema,
            r.policy == policy,
            r.state().entries.len() == 0,
            r.state().unkeyed.len() == 0,
    {
        let r = Deduper { schema, policy, index: RecordIndex::new(), unkeyed: Vec::new() };
        assert(r.state().unkeyed =~= Seq::<RecordView>::empty());
        r
    }
}

proof fn lemma_fit_inserted(st: DedupState, width: nat, key_pos: int, k: Seq<char>, v: RecordView)
    requires
        records_fit(st, width, key_pos),
        v.fields.len() == width,
        k == v.fields[key_pos],
    ensures
        records_fit(DedupState { entries: inserted(st.entries, k, v), unkeyed: st.unkeyed }, width, key_pos),
{
}

proof fn lemma_fit_removed(st: DedupState, width: nat, key_pos: int, k: Seq<char>)
    requires
        records_fit(st, width, key_pos),
    ensures
        records_fit(DedupState { entries: removed(st.entries, k), unkeyed: st.unkeyed }, width, key_pos),
{
    let s = st.entries;
    if has_key(s, k) {
        let p = position(s, k);
        let t = removed(s, k);
        assert forall|i: int| 0 <= i < t.len() implies (#[trigger] t[i]).1.fields.len() == width
            && t[i].0 == t[i].1.fields[key_pos] by {
            let si = if i < p { i } else { i + 1 };
            assert(t[i] == s[si]);
        }
    }
}

proof fn lemma_held_fits(st: DedupState, width: nat, key_pos: int, k: Seq<char>)
    requires
        records_fit(st, width, key_pos),
        has_key(st.entries, k),
    ensures
        lookup(st.entries, k).unwrap().fields.len() == width,
        lookup(st.entries, k).unwrap().fields[key_pos] == k,
{
    let p = position(st.entries, k);
    assert(st.entries[p].1.fields.len() == width);
}

impl Deduper {
    /// Offers a record with no decision at hand.
    fn offer(&mut self, rec: Record) -> (r: Offer)
        requires
            old(self).wf(),
            rec.fields@.len() == old(self).schema.width(),
        ensures
            final(self).wf(),
            final(self).schema == old(self).schema,
            final(self).policy == old(self).policy,
            final(self).state() == offered(old(self).state(), rec@, old(self).schema.key_pos as int),
            r@ == offer_report(
                old(self).state(),
                rec@,
                old(self).schema.key_pos as int,
                old(self).policy,
                old(self).schema.significant@,
            ),
            r matches Offer::Conflict(c) ==> lists_differences(
                c.differing@,
                c.incoming@.fields,
                c.existing@.fields,
                old(self).schema.key_pos as int,
            ),
    {
        let ghost st = self.state();
        let ghost width = self.schema.width();
        let kp = self.schema.key_pos;
        let ghost k = rec@.fields[kp as int];
        let empty = String::new();
        if rec.fields[kp] == empty {
            self.unkeyed.push(rec);
            assert(self.state().unkeyed =~= st.unkeyed.push(rec@));
            return Offer::PassedThrough;
        }
        let key = rec.fields[kp].clone();
        assert(k.len() > 0) by {
            if k.len() == 0 {
                assert(k =~= empty@);
            }
        }
        if self.index.find(&key).is_none() {
            proof {
                lemma_fit_inserted(st, width, kp as int, k, rec@);
            }
            self.index.insert(key, rec);
            return Offer::Inserted;
        }
        let ex = self.index.lookup(&key).unwrap();
        proof {
            lemma_held_fits(st, width, kp as int, k);
        }
        if is_identical(&rec, ex, kp) {
            let line = rec.line;
            Offer::Duplicate(Diagnostic { kind: DiagnosticKind::Matches, key, line, earlier_line: ex.line })
        } else if self.policy == Policy::Interactive {
            let differing = differing_fields(&rec, ex, kp);
            let diagnostic = Diagnostic { kind: DiagnosticKind::Differs, key, line: rec.line, earlier_line: ex.line };
            Offer::Conflict(Conflict { diagnostic, incoming: rec, existing: ex.duplicate(), differing })
        } else if agree_on_fields(&rec, ex, &self.schema.significant) {
            Offer::Equivalent(Diagnostic { kind: DiagnosticKind::Matches, key, line: rec.line, earlier_line: ex.line })
        } else {
            Offer::Discarded(Diagnostic { kind: DiagnosticKind::Differs, key, line: rec.line, earlier_line: ex.line })
        }
    }

    /// Takes the next record of the stream. Where the policy asks for a
    /// decision and `decision` is none, the index is left as it is and a
    /// `Conflict` is returned; offering the same record again with a
    /// decision applies it. A decision is ignored where none is needed.
    /// A split offers the copied record in turn, so a new key that is
    /// already held meets the same classification.
    pub fn process(&mut self, rec: Record, decision: Option<Decision>) -> (r: Result<Offer, EngineError>)
        requires
            old(self).wf(),
        ensures
            final(self).wf(),
            final(self).schema == old(self).schema,
            final(self).policy == old(self).policy,
            rec.fields@.len() != old(self).schema.width() ==> r == Err::<Offer, EngineError>(
                EngineError::Malformed {
                    line: rec.line,
                    expected: old(self).schema.width() as usize,
                    found: rec.fields@.len() as usize,
                },
            ) && final(self).state() == old(self).state(),
            rec.fields@.len() == old(self).schema.width() ==> match decision {
                Some(Decision::Merge(p)) if p@.len() != old(self).schema.width() =>
                    r == Err::<Offer, EngineError>(EngineError::PicksMismatch {
                        expected: old(self).schema.width() as usize,
                        found: p@.len() as usize,
                    }) && final(self).state() == old(self).state(),
                _ => r is Ok,
            },
            r matches Ok(o) ==> {
                &&& o@ == step_report(
                    old(self).state(),
                    rec@,
                    old(self).schema.key_pos as int,
                    old(self).policy,
                    old(self).schema.significant@,
                    match decision { Some(d) => Some(d@), None => None },
                )
                &&& final(self).state() == stepped(
                    old(self).state(),
                    rec@,
                    old(self).schema.key_pos as int,
                    old(self).policy,
                    match decision { Some(d) => Some(d@), None => None },
                )
                &&& o matches Offer::Conflict(c) ==> lists_differences(
                    c.differing@,
                    c.incoming@.fields,
                    c.existing@.fields,
                    old(self).schema.key_pos as int,
                )
            },
    {
        let width = self.schema.columns.len();
        if rec.fields.len() != width {
            return Err(EngineError::Malformed { line: rec.line, expected: width, found: rec.fields.len() });
        }
        if let Some(Decision::Merge(p)) = &decision {
            if p.len() != width {
                return Err(EngineError::PicksMismatch { expected: width, found: p.len() });
            }
        }
        let d = match decision {
            Some(d) => d,
            None => {
                return Ok(self.offer(rec));
            },
        };
        let ghost st = self.state();
        let kp = self.schema.key_pos;
        let ghost k = rec@.fields[kp as int];
        let empty = String::new();
        if self.policy == Policy::Automatic || rec.fields[kp] == empty {
            return Ok(self.offer(rec));
        }
        let key = rec.fields[kp].clone();
        assert(k.len() > 0) by {
            if k.len() == 0 {
                assert(k =~= empty@);
            }
        }
        if self.index.find(&key).is_none() {
            return Ok(self.offer(rec));
        }
        let ex = self.index.lookup(&key).unwrap();
        proof {
            lemma_held_fits(st, width as nat, kp as int, k);
        }
        if is_identical(&rec, ex, kp) {
            return Ok(self.offer(rec));
        }
        match d {
            Decision::DropBoth => {
                proof {
                    lemma_fit_removed(st, width as nat, kp as int, k);
                }
                self.index.remove(&key);
                Ok(Offer::Dropped)
            },
            Decision::Merge(picks) => {
                let m = merge_records(&rec, ex, kp, &picks);
                proof {
                    lemma_fit_inserted(st, width as nat, kp as int, k, m@);
                }
                self.index.insert(key, m);
                Ok(Offer::Merged)
            },
            Decision::Split(new_key) => {
                let copy = split_record(ex, kp, &new_key);
                assert(copy.fields@.len() == copy@.fields.len());
                Ok(self.offer(copy))
            },
        }
    }

    /// The output: the canonical records in first-insertion order, then the
    /// records without a key in arrival order.
    pub fn emit(&self) -> (r: Vec<Record>)
        ensures
            r@.map_values(|x: Record| x@) == self.state().entries.map_values(
                |e: (Seq<char>, RecordView)| e.1,
            ) + self.state().unkeyed,
    {
        let mut r = self.index.emit();
        let ghost keyed = r@;
        let mut i: usize = 0;
        while i < self.unkeyed.len()
            invariant
                i <= self.unkeyed@.len(),
                r@.len() == keyed.len() + i,
                keyed.len() == self.index@.len(),
                forall|j: int| 0 <= j < keyed.len() ==> #[trigger] r@[j]@ == self.index@[j].1,
                forall|j: int| 0 <= j < i ==> #[trigger] r@[keyed.len() + j]@ == self.unkeyed@[j]@,
            decreases self.unkeyed@.len() - i,
        {
            r.push(self.unkeyed[i].duplicate());
            i = i + 1;
        }
        let ghost lhs = r@.map_values(|x: Record| x@);
        let ghost rhs = self.state().entries.map_values(|e: (Seq<char>, RecordView)| e.1) + self.state().unkeyed;
        assert forall|j: int| 0 <= j < lhs.len() implies lhs[j] == rhs[j] by {
            if j >= keyed.len() {
                assert(r@[keyed.len() + (j - keyed.len())]@ == self.unkeyed@[j - keyed.len()]@);
            }
        }
        assert(lhs =~= rhs);
        r
    }
}

} // verus!
