//! The canonical record of one resource, and how raw field input becomes one.

use crate::date::{parse_ymd, parsed_ymd, today, Date};
use crate::text::{chars_of, split_on, string_of, trim, trim_chars};
use vstd::prelude::*;

verus! {

/// The strings of `v`, as character sequences.
pub open spec fn strings_view(v: Seq<String>) -> Seq<Seq<char>> {
    v.map_values(|s: String| s@)
}

pub open spec fn tags_view(t: Option<Vec<String>>) -> Option<Seq<Seq<char>>> {
    match t {
        Some(v) => Some(strings_view(v@)),
        None => None,
    }
}

/// `s` with every repeated entry removed, first occurrences kept in order.
pub open spec fn distinct(s: Seq<Seq<char>>) -> Seq<Seq<char>>
    decreases s.len(),
{
    if s.len() == 0 {
        seq![]
    } else {
        let p = distinct(s.drop_last());
        if p.contains(s.last()) {
            p
        } else {
            p.push(s.last())
        }
    }
}

/// A link to a learning resource.
#[derive(Clone, Debug, PartialEq, Eq)]
pub struct Link {
    pub title: String,
    pub link: String,
    pub desc: String,
    pub added: Date,
    pub accessed: Date,
    /// A set of tags, held as a `Vec` in which no tag occurs twice (so that
    /// set behaviour is stated and proved); `None` when the link has no tags.
    pub tags: Option<Vec<String>>,
}

/// The value of a `Link`, with its strings as character sequences.
pub struct LinkView {
    pub title: Seq<char>,
    pub link: Seq<char>,
    pub desc: Seq<char>,
    pub added: Date,
    pub accessed: Date,
    pub tags: Option<Seq<Seq<char>>>,
}

impl View for Link {
    type V = LinkView;

    open spec fn view(&self) -> LinkView {
        LinkView {
            title: self.title@,
            link: self.link@,
            desc: self.desc@,
            added: self.added,
            accessed: self.accessed,
            tags: tags_view(self.tags),
        }
    }
}

impl LinkView {
    /// Both dates are real days and no tag is held twice.
    pub open spec fn wf(&self) -> bool {
        &&& self.added.wf()
        &&& self.accessed.wf()
        &&& self.tags matches Some(t) ==> t.no_duplicates()
    }
}

/// A link as a bulk import lists it.
#[derive(Clone, Debug, PartialEq, Eq)]
pub struct JsonLink {
    pub title: String,
    pub url: String,
    pub description: String,
    pub category: String,
    pub year: i32,
    pub tags: Option<Vec<String>>,
    pub free: bool,
}

/// Which date of a record fell back to today because its text was no date.
#[derive(Clone, Copy, Debug, PartialEq, Eq, Structural)]
pub enum DateField {
    Added,
    Accessed,
}

/// A normalised record, with the warnings raised on the way.
#[derive(Clone, Debug, PartialEq, Eq)]
pub struct Normalized {
    pub link: Link,
    pub warnings: Vec<DateField>,
}

proof fn lemma_push_to_set(p: Seq<Seq<char>>, x: Seq<char>)
    ensures
        p.push(x).to_set() == p.to_set().insert(x),
{
    assert forall|y: Seq<char>| #[trigger] p.push(x).contains(y) <==> p.contains(y) || y == x by {
        if p.contains(y) {
            let k = choose|k: int| 0 <= k < p.len() && p[k] == y;
            assert(p.push(x)[k] == y);
        }
        if y == x {
            assert(p.push(x)[p.len() as int] == y);
        }
        if p.push(x).contains(y) {
            let k = choose|k: int| 0 <= k < p.push(x).len() && p.push(x)[k] == y;
            if k < p.len() {
                assert(p[k] == y);
            }
        }
    }
    assert(p.push(x).to_set() =~= p.to_set().insert(x));
}

proof fn lemma_distinct(s: Seq<Seq<char>>)
    ensures
        distinct(s).no_duplicates(),
        distinct(s).to_set() == s.to_set(),
        s.no_duplicates() ==> distinct(s) == s,
    decreases s.len(),
{
    if s.len() > 0 {
        let t = s.drop_last();
        lemma_distinct(t);
        let p = distinct(t);
        assert(s =~= t.push(s.last()));
        lemma_push_to_set(t, s.last());
        if p.contains(s.last()) {
            assert(p.to_set().contains(s.last()));
            assert(t.to_set().insert(s.last()) =~= t.to_set());
            if s.no_duplicates() {
                let k = choose|k: int| 0 <= k < p.len() && p[k] == s.last();
                assert(t.no_duplicates());
                assert(p == t);
                assert(s[k] == s[s.len() - 1]);
            }
        } else {
            lemma_push_to_set(p, s.last());
            assert forall|i: int, j: int|
                0 <= i < j < p.push(s.last()).len() implies p.push(s.last())[i] != p.push(
                s.last(),
            )[j] by {
                if j == p.len() {
                    assert(p[i] == p.push(s.last())[i]);
                }
            }
            if s.no_duplicates() {
                assert(t.no_duplicates());
            }
        }
    }
}

/// Keeping each tag once keeps the same set of tags, and leaves none twice.
pub proof fn lemma_distinct_same_set(s: Seq<Seq<char>>)
    ensures
        distinct(s).to_set() == s.to_set(),
        distinct(s).no_duplicates(),
        s.no_duplicates() ==> distinct(s) == s,
{
    lemma_distinct(s);
}

/// Whether `v` holds a string equal to `s`.
fn holds_string(v: &Vec<String>, s: &String) -> (r: bool)
    ensures
        r == strings_view(v@).contains(s@),
{
    let mut i: usize = 0;
    while i < v.len()
        invariant
            i <= v.len(),
            forall|k: int| 0 <= k < i ==> (#[trigger] v@[k])@ != s@,
        decreases v.len() - i,
    {
        if v[i] == *s {
            assert(strings_view(v@)[i as int] == s@);
            return true;
        }
        i = i + 1;
    }
    assert forall|k: int| 0 <= k < strings_view(v@).len() implies #[trigger] strings_view(
        v@,
    )[k] != s@ by {
        assert(strings_view(v@)[k] == v@[k]@);
    }
    false
}

/// The tags of `v`, each kept once, in the order of first occurrence.
pub fn distinct_tags(v: &Vec<String>) -> (r: Vec<String>)
    ensures
        strings_view(r@) == distinct(strings_view(v@)),
{
    let mut out: Vec<String> = Vec::new();
    let mut i: usize = 0;
    while i < v.len()
        invariant
            i <= v.len(),
            strings_view(out@) == distinct(strings_view(v@.subrange(0, i as int))),
        decreases v.len() - i,
    {
        assert(strings_view(v@.subrange(0, i + 1)).drop_last() =~= strings_view(
            v@.subrange(0, i as int),
        ));
        assert(strings_view(v@.subrange(0, i + 1)).last() == v@[i as int]@);
        if !holds_string(&out, &v[i]) {
            let t = v[i].clone();
            out.push(t);
            assert(strings_view(out@) =~= distinct(strings_view(v@.subrange(0, i + 1))));
        }
        i = i + 1;
    }
    assert(v@.subrange(0, v.len() as int) =~= v@);
    out
}

fn distinct_tag_set(t: &Option<Vec<String>>) -> (r: Option<Vec<String>>)
    ensures
        r is Some <==> t is Some,
        r matches Some(v) ==> strings_view(v@) == distinct(strings_view(t->0@)),
{
    match t {
        Some(v) => Some(distinct_tags(v)),
        None => None,
    }
}

/// One piece of raw tag input taken in: trimmed, and kept if not empty and
/// not seen before.
pub open spec fn add_tag(acc: Seq<Seq<char>>, piece: Seq<char>) -> Seq<Seq<char>> {
    let t = trim(piece);
    if t.len() == 0 || acc.contains(t) {
        acc
    } else {
        acc.push(t)
    }
}

pub open spec fn collect_tags(pieces: Seq<Seq<char>>) -> Seq<Seq<char>>
    decreases pieces.len(),
{
    if pieces.len() == 0 {
        seq![]
    } else {
        add_tag(collect_tags(pieces.drop_last()), pieces.last())
    }
}

/// The tags that raw input `a, b,c` names: `None` for empty input; otherwise
/// the pieces between commas, trimmed, with empty pieces dropped and each
/// kept once (so input of blank pieces only names the empty set).
pub open spec fn tags_of(s: Seq<char>) -> Option<Seq<Seq<char>>> {
    if s.len() == 0 {
        None
    } else {
        Some(collect_tags(split_on(s, ',')))
    }
}

/// Raw tag input never yields an empty tag.
pub proof fn lemma_tags_not_empty(s: Seq<char>)
    ensures
        tags_of(s) matches Some(t) ==> forall|i: int| 0 <= i < t.len() ==> (#[trigger] t[i]).len()
            > 0,
{
    lemma_collect_not_empty(split_on(s, ','));
}

proof fn lemma_collect_not_empty(p: Seq<Seq<char>>)
    ensures
        forall|i: int| 0 <= i < collect_tags(p).len() ==> (#[trigger] collect_tags(p)[i]).len() > 0,
    decreases p.len(),
{
    if p.len() > 0 {
        lemma_collect_not_empty(p.drop_last());
        let acc = collect_tags(p.drop_last());
        let t = trim(p.last());
        if !(t.len() == 0 || acc.contains(t)) {
            assert forall|i: int| 0 <= i < acc.push(t).len() implies (#[trigger] acc.push(t)[i]).len()
                > 0 by {
                if i < acc.len() {
                    assert(acc.push(t)[i] == acc[i]);
                }
            }
        }
    }
}

proof fn lemma_collect_distinct(p: Seq<Seq<char>>)
    ensures
        collect_tags(p).no_duplicates(),
    decreases p.len(),
{
    if p.len() > 0 {
        lemma_collect_distinct(p.drop_last());
        let acc = collect_tags(p.drop_last());
        let t = trim(p.last());
        if !(t.len() == 0 || acc.contains(t)) {
            assert forall|i: int, j: int| 0 <= i < j < acc.push(t).len() implies acc.push(t)[i]
                != acc.push(t)[j] by {
                if j == acc.len() {
                    assert(acc.push(t)[i] == acc[i]);
                }
            }
        }
    }
}

/// Raw tag input never yields a tag twice.
pub proof fn lemma_tags_distinct(s: Seq<char>)
    ensures
        tags_of(s) matches Some(t) ==> t.no_duplicates(),
{
    lemma_collect_distinct(split_on(s, ','));
}

fn add_piece(out: &mut Vec<String>, s: &Vec<char>, from: usize, to: usize)
    requires
        from <= to <= s.len(),
    ensures
        strings_view(final(out)@) == add_tag(strings_view(old(out)@), s@.subrange(
            from as int,
            to as int,
        )),
{
    let t = trim_chars(s, from, to);
    if t.len() > 0 {
        let ts = string_of(&t);
        if !holds_string(out, &ts) {
            out.push(ts);
            assert(strings_view(final(out)@) =~= strings_view(old(out)@).push(t@));
        }
    }
}

/// The tags that raw input names (see `tags_of`).
pub fn parse_tags(raw: &str) -> (r: Option<Vec<String>>)
    ensures
        tags_view(r) == tags_of(raw@),
{
    let s = chars_of(raw);
    if s.len() == 0 {
        return None;
    }
    let mut out: Vec<String> = Vec::new();
    let mut start: usize = 0;
    let mut i: usize = 0;
    proof {
        assert(s@.subrange(0, 0) =~= Seq::<char>::empty());
        assert(split_on(Seq::<char>::empty(), ',').drop_last() =~= Seq::<Seq<char>>::empty());
    }
    while i < s.len()
        invariant
            start <= i <= s.len(),
            split_on(s@.subrange(0, i as int), ',').len() >= 1,
            split_on(s@.subrange(0, i as int), ',').last() == s@.subrange(start as int, i as int),
            strings_view(out@) == collect_tags(split_on(s@.subrange(0, i as int), ',').drop_last()),
        decreases s.len() - i,
    {
        let ghost pre = s@.subrange(0, i as int);
        let ghost p = split_on(pre, ',');
        assert(s@.subrange(0, i + 1).drop_last() =~= pre);
        if s[i] == ',' {
            add_piece(&mut out, &s, start, i);
            assert(p.push(seq![]).drop_last() =~= p);
            assert(p =~= p.drop_last().push(p.last()));
            start = i + 1;
            assert(s@.subrange(start as int, start as int) =~= Seq::<char>::empty());
        } else {
            assert(p.drop_last().push(p.last().push(s@[i as int])).drop_last() =~= p.drop_last());
            assert(p.last().push(s@[i as int]) =~= s@.subrange(start as int, i + 1));
        }
        i = i + 1;
    }
    assert(s@.subrange(0, s.len() as int) =~= s@);
    let ghost p = split_on(s@, ',');
    add_piece(&mut out, &s, start, s.len());
    assert(p =~= p.drop_last().push(p.last()));
    Some(out)
}

/// Date input that stands for today: empty or `x` in either case, once white
/// space is trimmed.
pub open spec fn is_today_marker(raw: Seq<char>) -> bool {
    let t = trim(raw);
    t.len() == 0 || t == seq!['x'] || t == seq!['X']
}

/// The date that `chrono` reads from `s`, if any.
pub open spec fn parsed_date(s: Seq<char>) -> Option<Date> {
    match parsed_ymd(s) {
        Some(t) => Some(Date { year: t.0 as i32, month: t.1 as u32, day: t.2 as u32 }),
        None => None,
    }
}

/// The date a raw field resolves to, given what parsing it found.
pub open spec fn resolved_date(raw: Seq<char>, parsed: Option<Date>, today: Date) -> Date {
    if is_today_marker(raw) {
        today
    } else {
        match parsed {
            Some(d) => d,
            None => today,
        }
    }
}

/// Whether a raw field falls back to today because it is no date.
pub open spec fn date_falls_back(raw: Seq<char>, parsed: Option<Date>) -> bool {
    !is_today_marker(raw) && parsed is None
}

pub fn today_marker(raw: &str) -> (r: bool)
    ensures
        r == is_today_marker(raw@),
{
    let s = chars_of(raw);
    let t = trim_chars(&s, 0, s.len());
    assert(s@.subrange(0, s.len() as int) =~= s@);
    if t.len() == 0 {
        return true;
    }
    if t.len() == 1 && (t[0] == 'x' || t[0] == 'X') {
        assert(t@ =~= seq![t[0]]);
        return true;
    }
    assert(t@.len() == 1 ==> t@ != seq!['x'] && t@ != seq!['X'] || t@[0] == 'x' || t@[0] == 'X');
    false
}

/// Resolves a raw date field: today for an empty field or `x`; otherwise the
/// date that parsing found, or today with a warning where it found none.
pub fn resolve_date(raw: &str, parsed: Option<Date>, today: Date) -> (r: (Date, bool))
    requires
        today.wf(),
        parsed matches Some(d) ==> d.wf(),
    ensures
        r.0 == resolved_date(raw@, parsed, today),
        r.1 == date_falls_back(raw@, parsed),
        r.0.wf(),
{
    if today_marker(raw) {
        (today, false)
    } else {
        match parsed {
            Some(d) => (d, false),
            None => (today, true),
        }
    }
}

fn read_date(raw: &str, today: Date) -> (r: (Date, bool))
    requires
        today.wf(),
    ensures
        r.0 == resolved_date(raw@, parsed_date(raw@), today),
        r.1 == date_falls_back(raw@, parsed_date(raw@)),
        r.0.wf(),
{
    if today_marker(raw) {
        (today, false)
    } else {
        let parsed = parse_ymd(raw);
        resolve_date(raw, parsed, today)
    }
}

/// The warnings that normalisation raises, in field order.
pub open spec fn warnings_of(added_falls_back: bool, accessed_falls_back: bool) -> Seq<DateField> {
    (if added_falls_back {
        seq![DateField::Added]
    } else {
        seq![]
    }) + (if accessed_falls_back {
        seq![DateField::Accessed]
    } else {
        seq![]
    })
}

/// Builds the canonical record from raw field input. Each date is resolved on
/// its own (see `resolve_date`) against `today`; tags come from `parse_tags`.
/// Malformed dates never fail: they are reported in `warnings`.
pub fn normalize(
    title: &str,
    url: &str,
    description: &str,
    added: &str,
    accessed: &str,
    tags: &str,
    today: Date,
) -> (r: Normalized)
    requires
        today.wf(),
    ensures
        r.link@.title == title@,
        r.link@.link == url@,
        r.link@.desc == description@,
        r.link.added == resolved_date(added@, parsed_date(added@), today),
        r.link.accessed == resolved_date(accessed@, parsed_date(accessed@), today),
        r.link@.tags == tags_of(tags@),
        r.warnings@ == warnings_of(
            date_falls_back(added@, parsed_date(added@)),
            date_falls_back(accessed@, parsed_date(accessed@)),
        ),
        r.link@.wf(),
{
    let (added_date, added_warn) = read_date(added, today);
    let (accessed_date, accessed_warn) = read_date(accessed, today);
    let mut warnings: Vec<DateField> = Vec::new();
    if added_warn {
        warnings.push(DateField::Added);
    }
    if accessed_warn {
        warnings.push(DateField::Accessed);
    }
    assert(warnings@ =~= warnings_of(added_warn, accessed_warn));
    let tag_list = parse_tags(tags);
    proof {
        lemma_tags_distinct(tags@);
    }
    let link = Link {
        title: String::from_str(title),
        link: String::from_str(url),
        desc: String::from_str(description),
        added: added_date,
        accessed: accessed_date,
        tags: tag_list,
    };
    Normalized { link, warnings }
}

impl Link {
    /// A link from raw fields, with dates resolved against the local date of
    /// today and each tag of `tags` kept once. Which dates fell back to today
    /// because their text was no date is not reported here: `new_with_warnings`
    /// (or `normalize`) says so.
    pub fn new(
        title: &str,
        link: &str,
        desc: &str,
        added: &str,
        accessed: &str,
        tags: &Option<Vec<String>>,
    ) -> (r: Link)
        ensures
            r@.title == title@,
            r@.link == link@,
            r@.desc == desc@,
            exists|t: Date|
                t.wf() && r.added == resolved_date(added@, parsed_date(added@), t) && r.accessed
                    == resolved_date(accessed@, parsed_date(accessed@), t),
            r@.tags == (match tags {
                Some(v) => Some(distinct(strings_view(v@))),
                None => None,
            }),
            r@.wf(),
    {
        Link::new_with_warnings(title, link, desc, added, accessed, tags).link
    }

    /// As `new`, together with a warning for each date that fell back to
    /// today because its text was no date.
    pub fn new_with_warnings(
        title: &str,
        link: &str,
        desc: &str,
        added: &str,
        accessed: &str,
        tags: &Option<Vec<String>>,
    ) -> (r: Normalized)
        ensures
            r.link@.title == title@,
            r.link@.link == link@,
            r.link@.desc == desc@,
            exists|t: Date|
                t.wf() && r.link.added == resolved_date(added@, parsed_date(added@), t)
                    && r.link.accessed == resolved_date(accessed@, parsed_date(accessed@), t),
            r.link@.tags == (match tags {
                Some(v) => Some(distinct(strings_view(v@))),
                None => None,
            }),
            r.warnings@ == warnings_of(
                date_falls_back(added@, parsed_date(added@)),
                date_falls_back(accessed@, parsed_date(accessed@)),
            ),
            r.link@.wf(),
    {
        let now = today();
        let (added_date, added_warn) = read_date(added, now);
        let (accessed_date, accessed_warn) = read_date(accessed, now);
        let mut warnings: Vec<DateField> = Vec::new();
        if added_warn {
            warnings.push(DateField::Added);
        }
        if accessed_warn {
            warnings.push(DateField::Accessed);
        }
        assert(warnings@ =~= warnings_of(added_warn, accessed_warn));
        let tag_set = distinct_tag_set(tags);
        proof {
            if tags is Some {
                lemma_distinct(strings_view(tags->0@));
            }
        }
        let link = Link {
            title: String::from_str(title),
            link: String::from_str(link),
            desc: String::from_str(desc),
            added: added_date,
            accessed: accessed_date,
            tags: tag_set,
        };
        Normalized { link, warnings }
    }
}

impl JsonLink {
    pub fn new(
        title: &str,
        url: &str,
        description: &str,
        category: &str,
        year: i32,
        tags: &Option<Vec<String>>,
        free: bool,
    ) -> (r: JsonLink)
        ensures
            r.title@ == title@,
            r.url@ == url@,
            r.description@ == description@,
            r.category@ == category@,
            r.year == year,
            tags_view(r.tags) == (match tags {
                Some(v) => Some(distinct(strings_view(v@))),
                None => None,
            }),
            r.free == free,
    {
        JsonLink {
            title: String::from_str(title),
            url: String::from_str(url),
            description: String::from_str(description),
            category: String::from_str(category),
            year,
            tags: distinct_tag_set(tags),
            free,
        }
    }

    /// The record that an imported link becomes: its title, URL and
    /// description, both dates set to `today`, and its tags each kept once.
    /// Category, year and the free flag are not part of a record.
    pub fn to_link(&self, today: Date) -> (r: Link)
        requires
            today.wf(),
        ensures
            r@.title == self.title@,
            r@.link == self.url@,
            r@.desc == self.description@,
            r.added == today,
            r.accessed == today,
            r@.tags == (match self.tags {
                Some(v) => Some(distinct(strings_view(v@))),
                None => None,
            }),
            r@.wf(),
    {
        let tag_set = distinct_tag_set(&self.tags);
        proof {
            if self.tags is Some {
                lemma_distinct(strings_view(self.tags->0@));
            }
        }
        Link {
            title: self.title.clone(),
            link: self.url.clone(),
            desc: self.description.clone(),
            added: today,
            accessed: today,
            tags: tag_set,
        }
    }
}

} // verus!
