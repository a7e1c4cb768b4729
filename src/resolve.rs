use vstd::prelude::*;
use crate::record::{Record, copy_strings};

verus! {

/// Field `i` is compared (it is not the key) and the two records disagree on it.
pub open spec fn differs_at(inc: Seq<Seq<char>>, ex: Seq<Seq<char>>, key_pos: int, i: int) -> bool {
    i != key_pos && inc[i] != ex[i]
}

/// The two records agree on every field but the key.
pub open spec fn agree_off_key(inc: Seq<Seq<char>>, ex: Seq<Seq<char>>, key_pos: int) -> bool {
    forall|i: int| 0 <= i < ex.len() ==> !#[trigger] differs_at(inc, ex, key_pos, i)
}

/// The two records agree on each of `positions`.
pub open spec fn agree_on(inc: Seq<Seq<char>>, ex: Seq<Seq<char>>, positions: Seq<usize>) -> bool {
    forall|k: int| 0 <= k < positions.len() ==> inc[#[trigger] positions[k] as int] == ex[positions[k] as int]
}

/// The fields of a merge: where the records differ, the incoming value if
/// `picks` selects it and the existing one otherwise; elsewhere the existing value.
pub open spec fn merged_fields(
    inc: Seq<Seq<char>>,
    ex: Seq<Seq<char>>,
    key_pos: int,
    picks: Seq<bool>,
) -> Seq<Seq<char>> {
    Seq::new(
        ex.len(),
        |i: int|
            if differs_at(inc, ex, key_pos, i) && picks[i] {
                inc[i]
            } else {
                ex[i]
            },
    )
}

/// The fields of the existing record with the key replaced.
pub open spec fn split_fields(ex: Seq<Seq<char>>, key_pos: int, new_key: Seq<char>) -> Seq<Seq<char>> {
    ex.update(key_pos, new_key)
}

/// `r` lists, in increasing order, exactly the positions at which the records differ.
pub open spec fn lists_differences(r: Seq<usize>, inc: Seq<Seq<char>>, ex: Seq<Seq<char>>, key_pos: int) -> bool {
    &&& forall|a: int, b: int| 0 <= a < b < r.len() ==> r[a] < r[b]
    &&& forall|k: int|
        0 <= k < r.len() ==> #[trigger] r[k] < ex.len() && differs_at(inc, ex, key_pos, r[k] as int)
    &&& forall|i: int| 0 <= i < ex.len() && differs_at(inc, ex, key_pos, i) ==> r.contains(i as usize)
}

/// The positions, in increasing order, at which two records differ.
pub fn differing_fields(incoming: &Record, existing: &Record, key_pos: usize) -> (r: Vec<usize>)
    requires
        incoming.fields@.len() == existing.fields@.len(),
    ensures
        lists_differences(r@, incoming@.fields, existing@.fields, key_pos as int),
{
    let ghost inc = incoming@.fields;
    let ghost ex = existing@.fields;
    let mut r: Vec<usize> = Vec::new();
    let mut i: usize = 0;
    while i < existing.fields.len()
        invariant
            i <= existing.fields@.len(),
            incoming.fields@.len() == existing.fields@.len(),
            inc == incoming@.fields,
            ex == existing@.fields,
            forall|a: int, b: int| 0 <= a < b < r@.len() ==> r@[a] < r@[b],
            forall|k: int|
                0 <= k < r@.len() ==> #[trigger] r@[k] < i && differs_at(inc, ex, key_pos as int, r@[k] as int),
            forall|j: int| 0 <= j < i && differs_at(inc, ex, key_pos as int, j) ==> r@.contains(j as usize),
        decreases existing.fields@.len() - i,
    {
        if i != key_pos && incoming.fields[i] != existing.fields[i] {
            let ghost old_r = r@;
            r.push(i);
            assert forall|j: int| 0 <= j < i && differs_at(inc, ex, key_pos as int, j) implies r@.contains(
                j as usize,
            ) by {
                let k = choose|k: int| 0 <= k < old_r.len() && old_r[k] == j as usize;
                assert(r@[k] == j as usize);
            }
            assert(r@[r@.len() - 1] == i);
        }
        i = i + 1;
    }
    r
}

/// Whether the records agree on every field but the key.
pub fn is_identical(incoming: &Record, existing: &Record, key_pos: usize) -> (r: bool)
    requires
        incoming.fields@.len() == existing.fields@.len(),
    ensures
        r == agree_off_key(incoming@.fields, existing@.fields, key_pos as int),
{
    let mut i: usize = 0;
    while i < existing.fields.len()
        invariant
            i <= existing.fields@.len(),
            incoming.fields@.len() == existing.fields@.len(),
            forall|j: int| 0 <= j < i ==> !#[trigger] differs_at(incoming@.fields, existing@.fields, key_pos as int, j),
        decreases existing.fields@.len() - i,
    {
        if i != key_pos && incoming.fields[i] != existing.fields[i] {
            assert(differs_at(incoming@.fields, existing@.fields, key_pos as int, i as int));
            return false;
        }
        i = i + 1;
    }
    true
}

/// Whether the records agree on each of `positions`.
pub fn agree_on_fields(incoming: &Record, existing: &Record, positions: &Vec<usize>) -> (r: bool)
    requires
        incoming.fields@.len() == existing.fields@.len(),
        forall|k: int| 0 <= k < positions@.len() ==> #[trigger] positions@[k] < existing.fields@.len(),
    ensures
        r == agree_on(incoming@.fields, existing@.fields, positions@),
{
    let mut k: usize = 0;
    while k < positions.len()
        invariant
            k <= positions@.len(),
            incoming.fields@.len() == existing.fields@.len(),
            forall|k: int| 0 <= k < positions@.len() ==> #[trigger] positions@[k] < existing.fields@.len(),
            forall|j: int| 0 <= j < k ==> incoming@.fields[#[trigger] positions@[j] as int] == existing@.fields[positions@[j] as int],
        decreases positions@.len() - k,
    {
        let p = positions[k];
        if incoming.fields[p] != existing.fields[p] {
            return false;
        }
        k = k + 1;
    }
    true
}

/// Builds the merged record. `picks[i]` says whether the incoming value of
/// field `i` survives; it is read only where the records differ.
pub fn merge_records(incoming: &Record, existing: &Record, key_pos: usize, picks: &Vec<bool>) -> (r: Record)
    requires
        incoming.fields@.len() == existing.fields@.len(),
        picks@.len() == existing.fields@.len(),
    ensures
        r@.fields == merged_fields(incoming@.fields, existing@.fields, key_pos as int, picks@),
        r.line == existing.line,
{
    let ghost want = merged_fields(incoming@.fields, existing@.fields, key_pos as int, picks@);
    let mut fields: Vec<String> = Vec::new();
    let mut i: usize = 0;
    while i < existing.fields.len()
        invariant
            i <= existing.fields@.len(),
            incoming.fields@.len() == existing.fields@.len(),
            picks@.len() == existing.fields@.len(),
            want == merged_fields(incoming@.fields, existing@.fields, key_pos as int, picks@),
            fields@.len() == i,
            forall|j: int| 0 <= j < i ==> #[trigger] fields@[j]@ == want[j],
        decreases existing.fields@.len() - i,
    {
        if i != key_pos && incoming.fields[i] != existing.fields[i] && picks[i] {
            fields.push(incoming.fields[i].clone());
        } else {
            fields.push(existing.fields[i].clone());
        }
        i = i + 1;
    }
    let r = Record { fields, line: existing.line };
    assert(r@.fields =~= want);
    r
}

/// The existing record under a new key.
pub fn split_record(existing: &Record, key_pos: usize, new_key: &String) -> (r: Record)
    requires
        key_pos < existing.fields@.len(),
    ensures
        r@.fields == split_fields(existing@.fields, key_pos as int, new_key@),
        r.line == existing.line,
{
    let mut fields = copy_strings(&existing.fields);
    fields.set(key_pos, new_key.clone());
    let r = Record { fields, line: existing.line };
    assert(r@.fields =~= split_fields(existing@.fields, key_pos as int, new_key@));
    r
}

} // verus!
