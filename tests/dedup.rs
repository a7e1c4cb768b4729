use lastpass_dedup::engine::{Decision, DiagnosticKind, Deduper, EngineError, Offer};
use lastpass_dedup::record::Record;
use lastpass_dedup::report::join_fields;
use lastpass_dedup::schema::{column_of, Policy, Schema, SchemaError};

fn strings(v: &[&str]) -> Vec<String> {
    v.iter().map(|s| s.to_string()).collect()
}

fn header() -> Vec<String> {
    strings(&["url", "username", "password", "extra", "name", "grouping", "fav"])
}

fn row(url: &str, user: &str, pass: &str, extra: &str, name: &str, line: u64) -> Record {
    Record::new(strings(&[url, user, pass, extra, name, "", "0"]), line)
}

fn deduper(policy: Policy) -> Deduper {
    let schema = match Schema::from_header(header(), policy) {
        Ok(s) => s,
        Err(_) => panic!("header rejected"),
    };
    Deduper::new(schema, policy)
}

fn names(d: &Deduper) -> Vec<String> {
    d.emit().iter().map(|r| r.fields[4].clone()).collect()
}

fn offer(d: &mut Deduper, r: Record, decision: Option<Decision>) -> Offer {
    match d.process(r, decision) {
        Ok(o) => o,
        Err(e) => panic!("unexpected error {:?}", e),
    }
}

#[test]
fn identical_rows_keep_one() {
    let mut d = deduper(Policy::Interactive);
    assert!(matches!(offer(&mut d, row("a.com", "bob", "x1", "", "Site", 2), None), Offer::Inserted));
    match offer(&mut d, row("a.com", "bob", "x1", "", "Site", 3), None) {
        Offer::Duplicate(diag) => {
            assert_eq!(diag.kind, DiagnosticKind::Matches);
            assert_eq!(diag.message(), "'Site' at line 2 matches line 3");
        }
        _ => panic!("expected a duplicate"),
    }
    let out = d.emit();
    assert_eq!(out.len(), 1);
    assert_eq!(out[0].line, 2);
}

#[test]
fn identical_rows_ignore_decision() {
    let mut d = deduper(Policy::Interactive);
    offer(&mut d, row("a.com", "bob", "x1", "", "Site", 2), None);
    let o = offer(&mut d, row("a.com", "bob", "x1", "", "Site", 3), Some(Decision::DropBoth));
    assert!(matches!(o, Offer::Duplicate(_)));
    assert_eq!(names(&d), strings(&["Site"]));
}

#[test]
fn password_difference_is_reported_automatically() {
    let mut d = deduper(Policy::Automatic);
    offer(&mut d, row("a.com", "bob", "x1", "", "Site", 2), None);
    match offer(&mut d, row("a.com", "bob", "x2", "", "Site", 3), None) {
        Offer::Discarded(diag) => {
            assert_eq!(diag.kind, DiagnosticKind::Differs);
            assert_eq!(diag.message(), "'Site' at line 3 is different from record at line 2");
        }
        _ => panic!("expected a reported difference"),
    }
    let out = d.emit();
    assert_eq!(out.len(), 1);
    assert_eq!(out[0].fields[2], "x1");
}

#[test]
fn cosmetic_difference_is_a_duplicate_automatically() {
    let mut d = deduper(Policy::Automatic);
    offer(&mut d, row("a.com", "bob", "x1", "old note", "Site", 2), None);
    match offer(&mut d, row("a.com", "bob", "x1", "new note", "Site", 3), None) {
        Offer::Equivalent(diag) => assert_eq!(diag.message(), "'Site' at line 2 matches line 3"),
        _ => panic!("expected an equivalent record"),
    }
    let out = d.emit();
    assert_eq!(out.len(), 1);
    assert_eq!(out[0].fields[3], "old note");
}

#[test]
fn conflict_waits_for_a_decision() {
    let mut d = deduper(Policy::Interactive);
    offer(&mut d, row("a.com", "bob", "x1", "n", "Site", 2), None);
    match offer(&mut d, row("b.com", "bob", "x2", "n", "Site", 3), None) {
        Offer::Conflict(c) => {
            assert_eq!(c.differing, vec![0usize, 2]);
            assert_eq!(c.diagnostic.message(), "'Site' at line 3 is different from record at line 2");
            assert_eq!(c.existing.line, 2);
            assert_eq!(c.incoming.line, 3);
        }
        _ => panic!("expected a conflict"),
    }
    assert_eq!(d.emit()[0].fields[2], "x1");
}

#[test]
fn split_gives_two_rows() {
    let mut d = deduper(Policy::Interactive);
    offer(&mut d, row("a.com", "bob", "x1", "", "Site", 2), None);
    let o = offer(&mut d, row("a.com", "bob", "x2", "", "Site", 3), Some(Decision::Split("Site New".to_string())));
    assert!(matches!(o, Offer::Inserted));
    let out = d.emit();
    assert_eq!(out.len(), 2);
    assert_eq!(out[0].fields, strings(&["a.com", "bob", "x1", "", "Site", "", "0"]));
    assert_eq!(out[1].fields, strings(&["a.com", "bob", "x1", "", "Site New", "", "0"]));
}

#[test]
fn split_into_held_key_conflicts_again() {
    let mut d = deduper(Policy::Interactive);
    offer(&mut d, row("a.com", "bob", "x1", "", "Site", 2), None);
    offer(&mut d, row("z.com", "eve", "zz", "", "Other", 3), None);
    let o = offer(&mut d, row("a.com", "bob", "x2", "", "Site", 4), Some(Decision::Split("Other".to_string())));
    match o {
        Offer::Conflict(c) => {
            assert_eq!(c.incoming.fields[4], "Other");
            assert_eq!(c.existing.fields[1], "eve");
            assert_eq!(c.incoming.fields[2], "x1");
        }
        _ => panic!("expected a second conflict"),
    }
    assert_eq!(names(&d), strings(&["Site", "Other"]));
}

#[test]
fn drop_both_forgets_the_key() {
    let mut d = deduper(Policy::Interactive);
    offer(&mut d, row("a.com", "bob", "x1", "", "Site", 2), None);
    offer(&mut d, row("x.com", "amy", "p", "", "Mail", 3), None);
    let o = offer(&mut d, row("a.com", "bob", "x2", "", "Site", 4), Some(Decision::DropBoth));
    assert!(matches!(o, Offer::Dropped));
    assert_eq!(names(&d), strings(&["Mail"]));
    let third = offer(&mut d, row("c.com", "bob", "x3", "", "Site", 5), None);
    assert!(matches!(third, Offer::Inserted));
    assert_eq!(names(&d), strings(&["Mail", "Site"]));
    assert_eq!(d.emit()[1].fields[0], "c.com");
}

#[test]
fn merge_takes_chosen_fields() {
    let mut d = deduper(Policy::Interactive);
    offer(&mut d, row("a.com", "bob", "x1", "same", "Site", 2), None);
    let picks = vec![true, false, false, true, true, false, false];
    let o = offer(&mut d, row("b.com", "rob", "x1", "same", "Site", 3), Some(Decision::Merge(picks)));
    assert!(matches!(o, Offer::Merged));
    let out = d.emit();
    assert_eq!(out.len(), 1);
    assert_eq!(out[0].fields, strings(&["b.com", "bob", "x1", "same", "Site", "", "0"]));
    assert_eq!(out[0].line, 2);
}

#[test]
fn merge_keeps_first_position() {
    let mut d = deduper(Policy::Interactive);
    offer(&mut d, row("a.com", "bob", "x1", "", "First", 2), None);
    offer(&mut d, row("b.com", "bob", "x1", "", "Second", 3), None);
    let picks = vec![true; 7];
    offer(&mut d, row("a.com", "bob", "x9", "", "First", 4), Some(Decision::Merge(picks)));
    offer(&mut d, row("c.com", "bob", "x1", "", "Third", 5), None);
    assert_eq!(names(&d), strings(&["First", "Second", "Third"]));
    assert_eq!(d.emit()[0].fields[2], "x9");
}

#[test]
fn merge_with_short_picks_is_refused() {
    let mut d = deduper(Policy::Interactive);
    offer(&mut d, row("a.com", "bob", "x1", "", "Site", 2), None);
    let r = d.process(row("a.com", "bob", "x2", "", "Site", 3), Some(Decision::Merge(vec![true])));
    assert!(matches!(r, Err(EngineError::PicksMismatch { expected: 7, found: 1 })));
    assert_eq!(d.emit()[0].fields[2], "x1");
}

#[test]
fn short_row_is_malformed() {
    let mut d = deduper(Policy::Interactive);
    let r = d.process(Record::new(strings(&["a", "b"]), 9), None);
    assert!(matches!(r, Err(EngineError::Malformed { line: 9, expected: 7, found: 2 })));
    assert_eq!(d.emit().len(), 0);
}

#[test]
fn empty_name_passes_through() {
    let mut d = deduper(Policy::Interactive);
    assert!(matches!(offer(&mut d, row("a.com", "bob", "x1", "", "", 2), None), Offer::PassedThrough));
    assert!(matches!(offer(&mut d, row("b.com", "bob", "x2", "", "", 3), None), Offer::PassedThrough));
    offer(&mut d, row("c.com", "bob", "x3", "", "Site", 4), None);
    let out = d.emit();
    assert_eq!(out.len(), 3);
    assert_eq!(out[0].fields[4], "Site");
    assert_eq!(out[1].fields[0], "a.com");
    assert_eq!(out[2].fields[0], "b.com");
}

#[test]
fn header_without_name_is_rejected() {
    match Schema::from_header(strings(&["url", "username", "password"]), Policy::Interactive) {
        Err(SchemaError::MissingColumn(c)) => assert_eq!(c, "name"),
        Ok(_) => panic!("accepted"),
    }
}

#[test]
fn automatic_header_needs_credentials() {
    match Schema::from_header(strings(&["name", "url", "password"]), Policy::Automatic) {
        Err(SchemaError::MissingColumn(c)) => assert_eq!(c, "username"),
        Ok(_) => panic!("accepted"),
    }
    assert!(Schema::from_header(strings(&["name", "url", "password"]), Policy::Interactive).is_ok());
}

#[test]
fn header_positions() {
    let s = match Schema::from_header(header(), Policy::Automatic) {
        Ok(s) => s,
        Err(_) => panic!("rejected"),
    };
    assert_eq!(s.key_pos, 4);
    assert_eq!(s.significant, vec![0usize, 1, 2]);
    assert_eq!(column_of(&header(), "grouping"), Some(5));
    assert_eq!(column_of(&header(), "missing"), None);
}

#[test]
fn raw_rows_are_joined() {
    let r = Record::new(strings(&["a", "", "c"]), 2);
    assert_eq!(join_fields(&r, ","), "a,,c");
    assert_eq!(join_fields(&Record::new(vec![], 2), ","), "");
}

#[test]
fn large_line_numbers_are_printed_in_full() {
    let mut d = deduper(Policy::Interactive);
    offer(&mut d, row("a.com", "bob", "x1", "", "Site", 10), None);
    match offer(&mut d, row("a.com", "bob", "x1", "", "Site", 18446744073709551615), None) {
        Offer::Duplicate(diag) => assert_eq!(diag.message(), "'Site' at line 10 matches line 18446744073709551615"),
        _ => panic!("expected a duplicate"),
    }
}
