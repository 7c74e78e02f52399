//! Checking records for missing fields, one at a time or a whole store.

use crate::codec::{decode, decoded, DecodeError};
use crate::record::{Link, LinkView};
use vstd::prelude::*;

verus! {

/// The description policy that callers use unless told otherwise: an empty
/// description is a warning, not a violation.
pub const DEFAULT_STRICT_DESCRIPTION: bool = false;

/// A problem that makes a record invalid.
#[derive(Clone, Copy, Debug, PartialEq, Eq, Structural)]
pub enum Violation {
    TitleEmpty,
    UrlEmpty,
    /// Only under the strict description policy.
    DescriptionEmpty,
}

/// The outcome of checking one record.
#[derive(Clone, Debug, PartialEq, Eq)]
pub struct Validation {
    /// Every violation found, in field order; empty for a valid record.
    pub violations: Vec<Violation>,
    /// The description is empty, which under the lenient policy is only worth
    /// a warning.
    pub description_warning: bool,
}

pub struct ValidationView {
    pub violations: Seq<Violation>,
    pub description_warning: bool,
}

impl View for Validation {
    type V = ValidationView;

    open spec fn view(&self) -> ValidationView {
        ValidationView { violations: self.violations@, description_warning: self.description_warning }
    }
}

/// The violations of a record. An empty description counts only when
/// `strict_description` holds; otherwise it is a warning.
pub open spec fn violations_of(r: LinkView, strict_description: bool) -> Seq<Violation> {
    (if r.title.len() == 0 {
        seq![Violation::TitleEmpty]
    } else {
        seq![]
    }) + (if r.link.len() == 0 {
        seq![Violation::UrlEmpty]
    } else {
        seq![]
    }) + (if strict_description && r.desc.len() == 0 {
        seq![Violation::DescriptionEmpty]
    } else {
        seq![]
    })
}

pub open spec fn validation_of(r: LinkView, strict_description: bool) -> ValidationView {
    ValidationView {
        violations: violations_of(r, strict_description),
        description_warning: !strict_description && r.desc.len() == 0,
    }
}

impl Validation {
    pub fn is_valid(&self) -> (r: bool)
        ensures
            r == (self.violations@.len() == 0),
    {
        self.violations.len() == 0
    }
}

/// Checks one record, reporting every violation rather than the first.
pub fn validate(link: &Link, strict_description: bool) -> (r: Validation)
    ensures
        r@ == validation_of(link@, strict_description),
{
    let mut violations: Vec<Violation> = Vec::new();
    if link.title.as_str().is_empty() {
        violations.push(Violation::TitleEmpty);
    }
    if link.link.as_str().is_empty() {
        violations.push(Violation::UrlEmpty);
    }
    let no_desc = link.desc.as_str().is_empty();
    if strict_description && no_desc {
        violations.push(Violation::DescriptionEmpty);
    }
    assert(violations@ =~= violations_of(link@, strict_description));
    Validation { violations, description_warning: !strict_description && no_desc }
}

/// What checking one stored text found.
#[derive(Clone, Debug, PartialEq, Eq)]
pub enum EntryStatus {
    /// The text is no record.
    Unreadable(DecodeError),
    Checked(Validation),
}

pub enum EntryStatusView {
    Unreadable(DecodeError),
    Checked(ValidationView),
}

impl View for EntryStatus {
    type V = EntryStatusView;

    open spec fn view(&self) -> EntryStatusView {
        match self {
            EntryStatus::Unreadable(e) => EntryStatusView::Unreadable(*e),
            EntryStatus::Checked(v) => EntryStatusView::Checked(v@),
        }
    }
}

pub open spec fn entry_status(content: Seq<char>, strict_description: bool) -> EntryStatusView {
    match decoded(content) {
        Ok(r) => EntryStatusView::Checked(validation_of(r, strict_description)),
        Err(e) => EntryStatusView::Unreadable(e),
    }
}

/// Reads a stored text and checks the record it holds.
pub fn validate_entry(content: &str, strict_description: bool) -> (r: EntryStatus)
    ensures
        r@ == entry_status(content@, strict_description),
{
    match decode(content) {
        Ok(link) => EntryStatus::Checked(validate(&link, strict_description)),
        Err(e) => EntryStatus::Unreadable(e),
    }
}

/// The outcome for one stored text, with the name it is stored under.
#[derive(Clone, Debug, PartialEq, Eq)]
pub struct EntryReport {
    pub source: String,
    pub status: EntryStatus,
}

/// Checks every `(source, content)` pair on its own: a bad entry never stops
/// the others, and the reports come in the order of the entries.
pub fn validate_entries(entries: &Vec<(String, String)>, strict_description: bool) -> (r: Vec<
    EntryReport,
>)
    ensures
        r.len() == entries.len(),
        forall|i: int|
            0 <= i < r.len() ==> (#[trigger] r[i]).source@ == entries[i].0@ && r[i].status@
                == entry_status(entries[i].1@, strict_description),
{
    let mut out: Vec<EntryReport> = Vec::new();
    let mut i: usize = 0;
    while i < entries.len()
        invariant
            i <= entries.len(),
            out.len() == i,
            forall|k: int|
                0 <= k < i ==> (#[trigger] out[k]).source@ == entries[k].0@ && out[k].status@
                    == entry_status(entries[k].1@, strict_description),
        decreases entries.len() - i,
    {
        let status = validate_entry(entries[i].1.as_str(), strict_description);
        out.push(EntryReport { source: entries[i].0.clone(), status });
        i = i + 1;
    }
    out
}

} // verus!
