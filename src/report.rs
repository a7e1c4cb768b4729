use vstd::prelude::*;
use crate::engine::{Diagnostic, DiagnosticKind, DiagnosticView};
use crate::record::Record;

verus! {

pub open spec fn digit_char(d: nat) -> char {
    "0123456789"@[d as int]
}

/// The decimal digits of `n`, most significant first, with no leading zero.
pub open spec fn decimal(n: nat) -> Seq<char>
    decreases n,
{
    if n < 10 {
        seq![digit_char(n)]
    } else {
        decimal(n / 10) + seq![digit_char(n % 10)]
    }
}

/// The text of a diagnostic line.
pub open spec fn message_text(d: DiagnosticView) -> Seq<char> {
    match d.kind {
        DiagnosticKind::Matches => "'"@ + d.key + "' at line "@ + decimal(d.earlier_line as nat)
            + " matches line "@ + decimal(d.line as nat),
        DiagnosticKind::Differs => "'"@ + d.key + "' at line "@ + decimal(d.line as nat)
            + " is different from record at line "@ + decimal(d.earlier_line as nat),
    }
}

/// The fields separated by `sep`.
pub open spec fn joined(fields: Seq<Seq<char>>, sep: Seq<char>) -> Seq<char>
    decreases fields.len(),
{
    if fields.len() == 0 {
        Seq::empty()
    } else if fields.len() == 1 {
        fields[0]
    } else {
        joined(fields.drop_last(), sep) + sep + fields.last()
    }
}

/// Appends the decimal digits of `n`.
pub fn push_decimal(s: &mut String, n: u64)
    ensures
        final(s)@ == old(s)@ + decimal(n as nat),
    decreases n,
{
    if n >= 10 {
        push_decimal(s, n / 10);
    }
    let digits = "0123456789";
    proof {
        reveal_strlit("0123456789");
    }
    let d = (n % 10) as usize;
    let one = digits.substring_char(d, d + 1);
    assert(one@ =~= seq![digit_char(d as nat)]);
    s.append(one);
    assert(s@ =~= old(s)@ + decimal(n as nat));
}

impl Diagnostic {
    /// The diagnostic line: `'key' at line L matches line L2` for a
    /// duplicate, `'key' at line L is different from record at line L2` for
    /// a difference.
    pub fn message(&self) -> (r: String)
        ensures
            r@ == message_text(self@),
    {
        let mut s = String::from_str("'");
        s.append(self.key.as_str());
        match self.kind {
            DiagnosticKind::Matches => {
                s.append("' at line ");
                push_decimal(&mut s, self.earlier_line);
                s.append(" matches line ");
                push_decimal(&mut s, self.line);
            },
            DiagnosticKind::Differs => {
                s.append("' at line ");
                push_decimal(&mut s, self.line);
                s.append(" is different from record at line ");
                push_decimal(&mut s, self.earlier_line);
            },
        }
        s
    }
}

/// The record's fields joined by `sep`, as the diagnostic stream shows a
/// raw row.
pub fn join_fields(rec: &Record, sep: &str) -> (r: String)
    ensures
        r@ == joined(rec@.fields, sep@),
{
    let mut s = String::new();
    let mut i: usize = 0;
    while i < rec.fields.len()
        invariant
            i <= rec.fields@.len(),
            s@ == joined(rec@.fields.subrange(0, i as int), sep@),
        decreases rec.fields@.len() - i,
    {
        let ghost pre = rec@.fields.subrange(0, i as int);
        let ghost next = rec@.fields.subrange(0, i + 1);
        assert(next.drop_last() =~= pre);
        if i > 0 {
            s.append(sep);
        } else {
            assert(s@ =~= Seq::<char>::empty());
        }
        s.append(rec.fields[i].as_str());
        i = i + 1;
    }
    assert(rec@.fields.subrange(0, rec.fields@.len() as int) =~= rec@.fields);
    s
}

} // verus!
