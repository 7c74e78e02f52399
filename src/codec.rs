//! The on-disk text of a record: one `key = "value"` line per field.
//!
//! ```text
//! title = "Rust Book"
//! link = "https://doc.rust-lang.org/book/"
//! desc = "The \"official\" book"
//! added = "2024-03-01"
//! accessed = "2024-03-01"
//! tags = ["rust", "books"]
//! ```
//!
//! Values are quoted; a backslash, a double quote, a newline, a carriage
//! return and a tab inside them are written as `\\`, `\"`, `\n`, `\r`, `\t`.
//! The `tags` line is there only when the record has tags. When reading,
//! empty lines and unknown keys are skipped.

use crate::date::{date_from_text, date_of_text, date_text, push_date_text, Date};
use crate::record::{distinct, distinct_tags, strings_view, tags_view, Link, LinkView};
use crate::text::{chars_of, push_chars, push_str, same_chars, split_on, string_of};
use vstd::prelude::*;

verus! {

/// The letter that follows a backslash for a character that is escaped.
pub open spec fn escape_code(c: char) -> Option<char> {
    if c == '\\' {
        Some('\\')
    } else if c == '"' {
        Some('"')
    } else if c == '\n' {
        Some('n')
    } else if c == '\r' {
        Some('r')
    } else if c == '\t' {
        Some('t')
    } else {
        None
    }
}

/// The character that a backslash and `e` stand for.
pub open spec fn unescape_code(e: char) -> Option<char> {
    if e == '\\' {
        Some('\\')
    } else if e == '"' {
        Some('"')
    } else if e == 'n' {
        Some('\n')
    } else if e == 'r' {
        Some('\r')
    } else if e == 't' {
        Some('\t')
    } else {
        None
    }
}

pub open spec fn escape_char(c: char) -> Seq<char> {
    match escape_code(c) {
        Some(e) => seq!['\\', e],
        None => seq![c],
    }
}

pub open spec fn escaped(s: Seq<char>) -> Seq<char>
    decreases s.len(),
{
    if s.len() == 0 {
        seq![]
    } else {
        escape_char(s[0]) + escaped(s.drop_first())
    }
}

pub open spec fn quoted(s: Seq<char>) -> Seq<char> {
    seq!['"'] + escaped(s) + seq!['"']
}

/// The quoted tags, separated by `, `.
pub open spec fn tag_list_text(t: Seq<Seq<char>>) -> Seq<char>
    decreases t.len(),
{
    if t.len() == 0 {
        seq![]
    } else if t.len() == 1 {
        quoted(t[0])
    } else {
        quoted(t[0]) + seq![',', ' '] + tag_list_text(t.drop_first())
    }
}

pub open spec fn field_line(key: Seq<char>, rhs: Seq<char>) -> Seq<char> {
    key + seq![' ', '=', ' '] + rhs + seq!['\n']
}

/// The text of a record.
pub open spec fn encoded(r: LinkView) -> Seq<char> {
    field_line("title"@, quoted(r.title)) + field_line("link"@, quoted(r.link)) + field_line(
        "desc"@,
        quoted(r.desc),
    ) + field_line("added"@, quoted(date_text(r.added))) + field_line(
        "accessed"@,
        quoted(date_text(r.accessed)),
    ) + match r.tags {
        Some(t) => field_line("tags"@, seq!['['] + tag_list_text(t) + seq![']']),
        None => seq![],
    }
}

/// The value of a quoted string whose opening quote is already read, and how
/// many characters it takes up to and including the closing quote.
pub open spec fn unquote_body(s: Seq<char>) -> Option<(Seq<char>, nat)>
    decreases s.len(),
{
    if s.len() == 0 {
        None
    } else if s[0] == '"' {
        Some((seq![], 1))
    } else if s[0] == '\\' {
        if s.len() < 2 {
            None
        } else {
            match unescape_code(s[1]) {
                Some(c) => match unquote_body(s.subrange(2, s.len() as int)) {
                    Some(p) => Some((seq![c] + p.0, p.1 + 2)),
                    None => None,
                },
                None => None,
            }
        }
    } else {
        match unquote_body(s.drop_first()) {
            Some(p) => Some((seq![s[0]] + p.0, p.1 + 1)),
            None => None,
        }
    }
}

/// The value of a right-hand side that is exactly one quoted string.
pub open spec fn string_value(rhs: Seq<char>) -> Option<Seq<char>> {
    if rhs.len() >= 1 && rhs[0] == '"' {
        match unquote_body(rhs.drop_first()) {
            Some(p) => if p.1 + 1 == rhs.len() {
                Some(p.0)
            } else {
                None
            },
            None => None,
        }
    } else {
        None
    }
}

/// The items of a tag list whose `[` is already read: quoted strings
/// separated by `, `, then `]` at the end.
pub open spec fn tag_items(s: Seq<char>) -> Option<Seq<Seq<char>>>
    decreases s.len(),
{
    if s.len() >= 1 && s[0] == '"' {
        match unquote_body(s.drop_first()) {
            Some(p) => if p.1 + 1 <= s.len() {
                let rest = s.subrange(p.1 + 1 as int, s.len() as int);
                if rest == seq![']'] {
                    Some(seq![p.0])
                } else if rest.len() >= 3 && rest[0] == ',' && rest[1] == ' ' {
                    match tag_items(rest.subrange(2, rest.len() as int)) {
                        Some(l) => Some(seq![p.0] + l),
                        None => None,
                    }
                } else {
                    None
                }
            } else {
                None
            },
            None => None,
        }
    } else {
        None
    }
}

/// The tags of a right-hand side `[...]`.
pub open spec fn tags_value(rhs: Seq<char>) -> Option<Seq<Seq<char>>> {
    if rhs == seq!['[', ']'] {
        Some(seq![])
    } else if rhs.len() >= 1 && rhs[0] == '[' {
        tag_items(rhs.drop_first())
    } else {
        None
    }
}

/// How many characters a line's key takes: all up to the first space.
pub open spec fn key_len(l: Seq<char>) -> nat
    decreases l.len(),
{
    if l.len() == 0 || l[0] == ' ' {
        0
    } else {
        1 + key_len(l.drop_first())
    }
}

/// A line `key = rhs`, split into its key and right-hand side.
pub open spec fn split_line(l: Seq<char>) -> Option<(Seq<char>, Seq<char>)> {
    let k = key_len(l) as int;
    if 0 < k && k + 3 <= l.len() && l[k] == ' ' && l[k + 1] == '=' && l[k + 2] == ' ' {
        Some((l.subrange(0, k), l.subrange(k + 3, l.len() as int)))
    } else {
        None
    }
}

/// A field that a record cannot do without.
#[derive(Clone, Copy, Debug, PartialEq, Eq, Structural)]
pub enum Field {
    Title,
    Link,
    Desc,
    Added,
    Accessed,
}

/// Why a text is not a record. Lines are counted from zero.
#[derive(Clone, Copy, Debug, PartialEq, Eq, Structural)]
pub enum DecodeError {
    /// A line that is neither empty nor of the form `key = value`.
    Malformed(usize),
    /// A key that was already given on an earlier line.
    Duplicate(usize),
    /// A known key whose value is not of its kind.
    BadValue(usize),
    /// A field that no line gives.
    Missing(Field),
}

/// The fields read so far.
pub struct Fields {
    pub title: Option<Seq<char>>,
    pub link: Option<Seq<char>>,
    pub desc: Option<Seq<char>>,
    pub added: Option<Date>,
    pub accessed: Option<Date>,
    pub tags: Option<Seq<Seq<char>>>,
}

pub open spec fn no_fields() -> Fields {
    Fields { title: None, link: None, desc: None, added: None, accessed: None, tags: None }
}

/// Line `i` taken into the fields read so far.
#[verifier::opaque]
pub open spec fn apply_line(f: Fields, l: Seq<char>, i: int) -> Result<Fields, DecodeError> {
    if l.len() == 0 {
        Ok(f)
    } else {
        match split_line(l) {
            None => Err(DecodeError::Malformed(i as usize)),
            Some(kr) => {
                let k = kr.0;
                let rhs = kr.1;
                if k == "title"@ {
                    if f.title is Some {
                        Err(DecodeError::Duplicate(i as usize))
                    } else {
                        match string_value(rhs) {
                            Some(v) => Ok(Fields { title: Some(v), ..f }),
                            None => Err(DecodeError::BadValue(i as usize)),
                        }
                    }
                } else if k == "link"@ {
                    if f.link is Some {
                        Err(DecodeError::Duplicate(i as usize))
                    } else {
                        match string_value(rhs) {
                            Some(v) => Ok(Fields { link: Some(v), ..f }),
                            None => Err(DecodeError::BadValue(i as usize)),
                        }
                    }
                } else if k == "desc"@ {
                    if f.desc is Some {
                        Err(DecodeError::Duplicate(i as usize))
                    } else {
                        match string_value(rhs) {
                            Some(v) => Ok(Fields { desc: Some(v), ..f }),
                            None => Err(DecodeError::BadValue(i as usize)),
                        }
                    }
                } else if k == "added"@ {
                    if f.added is Some {
                        Err(DecodeError::Duplicate(i as usize))
                    } else {
                        match string_value(rhs) {
                            Some(v) => match date_of_text(v) {
                                Some(d) => Ok(Fields { added: Some(d), ..f }),
                                None => Err(DecodeError::BadValue(i as usize)),
                            },
                            None => Err(DecodeError::BadValue(i as usize)),
                        }
                    }
                } else if k == "accessed"@ {
                    if f.accessed is Some {
                        Err(DecodeError::Duplicate(i as usize))
                    } else {
                        match string_value(rhs) {
                            Some(v) => match date_of_text(v) {
                                Some(d) => Ok(Fields { accessed: Some(d), ..f }),
                                None => Err(DecodeError::BadValue(i as usize)),
                            },
                            None => Err(DecodeError::BadValue(i as usize)),
                        }
                    }
                } else if k == "tags"@ {
                    if f.tags is Some {
                        Err(DecodeError::Duplicate(i as usize))
                    } else {
                        match tags_value(rhs) {
                            Some(t) => Ok(Fields { tags: Some(distinct(t)), ..f }),
                            None => Err(DecodeError::BadValue(i as usize)),
                        }
                    }
                } else {
                    Ok(f)
                }
            },
        }
    }
}

/// The lines taken in one after the other, stopping at the first error.
pub open spec fn read_lines(ls: Seq<Seq<char>>) -> Result<Fields, DecodeError>
    decreases ls.len(),
{
    if ls.len() == 0 {
        Ok(no_fields())
    } else {
        match read_lines(ls.drop_last()) {
            Ok(f) => apply_line(f, ls.last(), ls.len() - 1),
            Err(e) => Err(e),
        }
    }
}

/// The record that complete fields make.
pub open spec fn finish(f: Fields) -> Result<LinkView, DecodeError> {
    if f.title is None {
        Err(DecodeError::Missing(Field::Title))
    } else if f.link is None {
        Err(DecodeError::Missing(Field::Link))
    } else if f.desc is None {
        Err(DecodeError::Missing(Field::Desc))
    } else if f.added is None {
        Err(DecodeError::Missing(Field::Added))
    } else if f.accessed is None {
        Err(DecodeError::Missing(Field::Accessed))
    } else {
        Ok(
            LinkView {
                title: f.title->0,
                link: f.link->0,
                desc: f.desc->0,
                added: f.added->0,
                accessed: f.accessed->0,
                tags: f.tags,
            },
        )
    }
}

/// The record that a text holds, or why it holds none.
pub open spec fn decoded(text: Seq<char>) -> Result<LinkView, DecodeError> {
    match read_lines(split_on(text, '\n')) {
        Ok(f) => finish(f),
        Err(e) => Err(e),
    }
}

pub open spec fn result_view(r: Result<Link, DecodeError>) -> Result<LinkView, DecodeError> {
    match r {
        Ok(l) => Ok(l@),
        Err(e) => Err(e),
    }
}

proof fn lemma_escaped_push(s: Seq<char>, c: char)
    ensures
        escaped(s.push(c)) == escaped(s) + escape_char(c),
    decreases s.len(),
{
    if s.len() == 0 {
        assert(seq![c].drop_first() =~= Seq::<char>::empty());
        assert(s.push(c) =~= seq![c]);
        assert(escaped(Seq::<char>::empty()) == Seq::<char>::empty());
        assert(seq![c][0] == c);
        assert(escaped(seq![c]) =~= escape_char(c));
    } else {
        assert(s.push(c).drop_first() =~= s.drop_first().push(c));
        lemma_escaped_push(s.drop_first(), c);
        assert(escaped(s.push(c)) =~= escaped(s) + escape_char(c));
    }
}

/// Appends `v` to `out` with its special characters escaped.
fn push_escaped(out: &mut Vec<char>, v: &Vec<char>)
    ensures
        final(out)@ == old(out)@ + escaped(v@),
{
    let ghost start = out@;
    let mut i: usize = 0;
    while i < v.len()
        invariant
            i <= v.len(),
            out@ == start + escaped(v@.subrange(0, i as int)),
        decreases v.len() - i,
    {
        let c = v[i];
        proof {
            assert(v@.subrange(0, i + 1) =~= v@.subrange(0, i as int).push(c));
            lemma_escaped_push(v@.subrange(0, i as int), c);
        }
        if c == '\\' {
            out.push('\\');
            out.push('\\');
        } else if c == '"' {
            out.push('\\');
            out.push('"');
        } else if c == '\n' {
            out.push('\\');
            out.push('n');
        } else if c == '\r' {
            out.push('\\');
            out.push('r');
        } else if c == '\t' {
            out.push('\\');
            out.push('t');
        } else {
            out.push(c);
        }
        i = i + 1;
        assert(out@ =~= start + escaped(v@.subrange(0, i as int)));
    }
    assert(v@.subrange(0, v.len() as int) =~= v@);
}

fn push_quoted(out: &mut Vec<char>, v: &Vec<char>)
    ensures
        final(out)@ == old(out)@ + quoted(v@),
{
    out.push('"');
    push_escaped(out, v);
    out.push('"');
    assert(final(out)@ =~= old(out)@ + quoted(v@));
}

proof fn lemma_tag_list_push(t: Seq<Seq<char>>, x: Seq<char>)
    ensures
        tag_list_text(t.push(x)) == tag_list_text(t) + (if t.len() == 0 {
            seq![]
        } else {
            seq![',', ' ']
        }) + quoted(x),
    decreases t.len(),
{
    if t.len() == 0 {
        assert(tag_list_text(t.push(x)) =~= quoted(x));
    } else if t.len() == 1 {
        assert(t.push(x).drop_first() =~= seq![x]);
        assert(seq![x][0] == x);
        assert(tag_list_text(seq![x]) == quoted(x));
        assert(t.push(x)[0] == t[0]);
        assert(tag_list_text(t.push(x)) =~= quoted(t[0]) + seq![',', ' '] + quoted(x));
    } else {
        assert(t.push(x).drop_first() =~= t.drop_first().push(x));
        lemma_tag_list_push(t.drop_first(), x);
        assert(tag_list_text(t.push(x)) =~= tag_list_text(t) + seq![',', ' '] + quoted(x));
    }
}

fn push_tag_list(out: &mut Vec<char>, tags: &Vec<String>)
    ensures
        final(out)@ == old(out)@ + tag_list_text(strings_view(tags@)),
{
    let ghost start = out@;
    let mut i: usize = 0;
    while i < tags.len()
        invariant
            i <= tags.len(),
            out@ == start + tag_list_text(strings_view(tags@.subrange(0, i as int))),
        decreases tags.len() - i,
    {
        let ghost before = strings_view(tags@.subrange(0, i as int));
        proof {
            assert(strings_view(tags@.subrange(0, i + 1)) =~= before.push(tags@[i as int]@));
            lemma_tag_list_push(before, tags@[i as int]@);
        }
        if i > 0 {
            out.push(',');
            out.push(' ');
        }
        let v = chars_of(&tags[i]);
        push_quoted(out, &v);
        i = i + 1;
        assert(out@ =~= start + tag_list_text(strings_view(tags@.subrange(0, i as int))));
    }
    assert(tags@.subrange(0, tags.len() as int) =~= tags@);
}

/// The tags as a TOML array body: each quoted, separated by `, `.
pub fn format_tags(tags: &Vec<String>) -> (r: String)
    ensures
        r@ == tag_list_text(strings_view(tags@)),
{
    let mut out: Vec<char> = Vec::new();
    push_tag_list(&mut out, tags);
    assert(out@ =~= tag_list_text(strings_view(tags@)));
    string_of(&out)
}

fn push_field_line(out: &mut Vec<char>, key: &str, rhs: &Vec<char>)
    ensures
        final(out)@ == old(out)@ + field_line(key@, rhs@),
{
    push_str(out, key);
    out.push(' ');
    out.push('=');
    out.push(' ');
    push_chars(out, rhs);
    out.push('\n');
    assert(final(out)@ =~= old(out)@ + field_line(key@, rhs@));
}

/// The text of a record, as it is written to disk.
pub fn encode(r: &Link) -> (t: String)
    requires
        r@.wf(),
    ensures
        t@ == encoded(r@),
{
    let mut out: Vec<char> = Vec::new();
    let mut rhs: Vec<char> = Vec::new();
    push_quoted(&mut rhs, &chars_of(&r.title));
    push_field_line(&mut out, "title", &rhs);
    let mut rhs: Vec<char> = Vec::new();
    push_quoted(&mut rhs, &chars_of(&r.link));
    push_field_line(&mut out, "link", &rhs);
    let mut rhs: Vec<char> = Vec::new();
    push_quoted(&mut rhs, &chars_of(&r.desc));
    push_field_line(&mut out, "desc", &rhs);
    let mut date: Vec<char> = Vec::new();
    push_date_text(&mut date, r.added);
    let mut rhs: Vec<char> = Vec::new();
    push_quoted(&mut rhs, &date);
    push_field_line(&mut out, "added", &rhs);
    let mut date: Vec<char> = Vec::new();
    push_date_text(&mut date, r.accessed);
    let mut rhs: Vec<char> = Vec::new();
    push_quoted(&mut rhs, &date);
    push_field_line(&mut out, "accessed", &rhs);
    match &r.tags {
        Some(tags) => {
            let mut rhs: Vec<char> = Vec::new();
            rhs.push('[');
            push_tag_list(&mut rhs, tags);
            rhs.push(']');
            push_field_line(&mut out, "tags", &rhs);
        },
        None => {},
    }
    assert(out@ =~= encoded(r@));
    string_of(&out)
}

pub open spec fn shifted(a: Seq<char>, k: nat, r: Option<(Seq<char>, nat)>) -> Option<
    (Seq<char>, nat),
> {
    match r {
        Some(p) => Some((a + p.0, p.1 + k)),
        None => None,
    }
}

pub open spec fn opt_chars(r: Option<Vec<char>>) -> Option<Seq<char>> {
    match r {
        Some(v) => Some(v@),
        None => None,
    }
}

pub open spec fn opt_string(r: Option<String>) -> Option<Seq<char>> {
    match r {
        Some(v) => Some(v@),
        None => None,
    }
}

fn unescape(e: char) -> (r: Option<char>)
    ensures
        r == unescape_code(e),
{
    if e == '\\' {
        Some('\\')
    } else if e == '"' {
        Some('"')
    } else if e == 'n' {
        Some('\n')
    } else if e == 'r' {
        Some('\r')
    } else if e == 't' {
        Some('\t')
    } else {
        None
    }
}

/// Reads the quoted string whose opening quote stands just before `from`.
fn unquote(s: &Vec<char>, from: usize, to: usize) -> (r: Option<(Vec<char>, usize)>)
    requires
        from <= to <= s.len(),
    ensures
        unquote_body(s@.subrange(from as int, to as int)) == (match r {
            Some(q) => Some((q.0@, q.1 as nat)),
            None => None,
        }),
        r matches Some(q) ==> 1 <= q.1 <= to - from,
{
    let mut acc: Vec<char> = Vec::new();
    let mut i = from;
    assert(acc@ + seq![] =~= acc@);
    while i < to
        invariant
            from <= i <= to <= s.len(),
            unquote_body(s@.subrange(from as int, to as int)) == shifted(
                acc@,
                (i - from) as nat,
                unquote_body(s@.subrange(i as int, to as int)),
            ),
        decreases to - i,
    {
        let ghost rest = s@.subrange(i as int, to as int);
        let ghost before = acc@;
        let c = s[i];
        assert(rest[0] == c);
        if c == '"' {
            assert(acc@ + seq![] =~= acc@);
            return Some((acc, i + 1 - from));
        } else if c == '\\' {
            if i + 1 >= to {
                return None;
            }
            let e = s[i + 1];
            assert(rest[1] == e);
            let d = match unescape(e) {
                Some(d) => d,
                None => {
                    return None;
                },
            };
            assert(rest.subrange(2, rest.len() as int) =~= s@.subrange(i + 2, to as int));
            acc.push(d);
            proof {
                match unquote_body(s@.subrange(i + 2, to as int)) {
                    Some(p) => {
                        assert(before + (seq![d] + p.0) =~= acc@ + p.0);
                    },
                    None => {},
                }
            }
            i = i + 2;
        } else {
            assert(rest.drop_first() =~= s@.subrange(i + 1, to as int));
            acc.push(c);
            proof {
                match unquote_body(s@.subrange(i + 1, to as int)) {
                    Some(p) => {
                        assert(before + (seq![c] + p.0) =~= acc@ + p.0);
                    },
                    None => {},
                }
            }
            i = i + 1;
        }
    }
    None
}

/// The value of `s[from..to]` read as one quoted string.
fn string_value_at(s: &Vec<char>, from: usize, to: usize) -> (r: Option<Vec<char>>)
    requires
        from <= to <= s.len(),
    ensures
        opt_chars(r) == string_value(s@.subrange(from as int, to as int)),
{
    let ghost rhs = s@.subrange(from as int, to as int);
    if to > from && s[from] == '"' {
        assert(rhs.drop_first() =~= s@.subrange(from + 1, to as int));
        match unquote(s, from + 1, to) {
            Some((v, n)) => if n + 1 == to - from {
                Some(v)
            } else {
                None
            },
            None => None,
        }
    } else {
        None
    }
}

pub open spec fn prepend_items(a: Seq<Seq<char>>, r: Option<Seq<Seq<char>>>) -> Option<
    Seq<Seq<char>>,
> {
    match r {
        Some(l) => Some(a + l),
        None => None,
    }
}

/// The tags of `s[from..to]` read as a tag list.
fn tags_value_at(s: &Vec<char>, from: usize, to: usize) -> (r: Option<Vec<String>>)
    requires
        from <= to <= s.len(),
    ensures
        tags_view(r) == tags_value(s@.subrange(from as int, to as int)),
{
    let ghost rhs = s@.subrange(from as int, to as int);
    if to - from == 2 && s[from] == '[' && s[from + 1] == ']' {
        assert(rhs =~= seq!['[', ']']);
        let empty: Vec<String> = Vec::new();
        assert(strings_view(empty@) =~= Seq::<Seq<char>>::empty());
        return Some(empty);
    }
    if to - from == 2 {
        assert(rhs[0] == s@[from as int] && rhs[1] == s@[from + 1]);
        assert(seq!['[', ']'][0] == '[' && seq!['[', ']'][1] == ']');
    }
    assert(rhs != seq!['[', ']']);
    if to == from || s[from] != '[' {
        return None;
    }
    assert(rhs.drop_first() =~= s@.subrange(from + 1, to as int));
    let mut acc: Vec<String> = Vec::new();
    let mut pos = from + 1;
    assert(strings_view(acc@) + seq![] =~= seq![]);
    loop
        invariant
            from < pos <= to <= s.len(),
            rhs == s@.subrange(from as int, to as int),
            rhs != seq!['[', ']'],
            tags_value(rhs) == prepend_items(
                strings_view(acc@),
                tag_items(s@.subrange(pos as int, to as int)),
            ),
        decreases to - pos,
    {
        let ghost cur = s@.subrange(pos as int, to as int);
        let ghost before = strings_view(acc@);
        if pos >= to || s[pos] != '"' {
            return None;
        }
        assert(cur[0] == s@[pos as int]);
        assert(cur.drop_first() =~= s@.subrange(pos + 1, to as int));
        match unquote(s, pos + 1, to) {
            None => {
                return None;
            },
            Some((v, n)) => {
                let after = pos + 1 + n;
                let ghost rest = cur.subrange(n + 1 as int, cur.len() as int);
                assert(rest =~= s@.subrange(after as int, to as int));
                let item = string_of(&v);
                if to - after == 1 && s[after] == ']' {
                    assert(rest =~= seq![']']);
                    acc.push(item);
                    assert(strings_view(acc@) =~= before + seq![v@]);
                    return Some(acc);
                }
                if to - after == 1 {
                    assert(rest[0] == s@[after as int]);
                    assert(seq![']'][0] == ']');
                }
                assert(rest != seq![']']);
                if to - after >= 3 && s[after] == ',' && s[after + 1] == ' ' {
                    assert(rest[0] == s@[after as int] && rest[1] == s@[after + 1]);
                    assert(rest.subrange(2, rest.len() as int) =~= s@.subrange(
                        after + 2,
                        to as int,
                    ));
                    acc.push(item);
                    proof {
                        match tag_items(s@.subrange(after + 2, to as int)) {
                            Some(l) => {
                                assert(before + (seq![v@] + l) =~= strings_view(acc@) + l);
                            },
                            None => {},
                        }
                    }
                    pos = after + 2;
                } else {
                    if to - after >= 3 {
                        assert(rest[0] == s@[after as int] && rest[1] == s@[after + 1]);
                    }
                    return None;
                }
            },
        }
    }
}

/// Where the key of the line `s[from..to]` ends.
fn key_end(s: &Vec<char>, from: usize, to: usize) -> (k: usize)
    requires
        from <= to <= s.len(),
    ensures
        from <= k <= to,
        k - from == key_len(s@.subrange(from as int, to as int)),
{
    let mut j = from;
    while j < to && s[j] != ' '
        invariant
            from <= j <= to <= s.len(),
            key_len(s@.subrange(from as int, to as int)) == (j - from) + key_len(
                s@.subrange(j as int, to as int),
            ),
        decreases to - j,
    {
        assert(s@.subrange(j as int, to as int)[0] == s@[j as int]);
        assert(s@.subrange(j as int, to as int).drop_first() =~= s@.subrange(j + 1, to as int));
        j = j + 1;
    }
    if j < to {
        assert(s@.subrange(j as int, to as int)[0] == s@[j as int]);
    }
    j
}

/// The fields read so far, as the decoder holds them.
struct FieldState {
    title: Option<String>,
    link: Option<String>,
    desc: Option<String>,
    added: Option<Date>,
    accessed: Option<Date>,
    tags: Option<Vec<String>>,
}

impl FieldState {
    spec fn fields(&self) -> Fields {
        Fields {
            title: opt_string(self.title),
            link: opt_string(self.link),
            desc: opt_string(self.desc),
            added: self.added,
            accessed: self.accessed,
            tags: tags_view(self.tags),
        }
    }

    spec fn wf(&self) -> bool {
        &&& self.added matches Some(d) ==> d.wf()
        &&& self.accessed matches Some(d) ==> d.wf()
        &&& tags_view(self.tags) matches Some(t) ==> t.no_duplicates()
    }
}

/// The date of a quoted right-hand side, if it is one.
fn date_value_at(s: &Vec<char>, from: usize, to: usize) -> (r: Option<Date>)
    requires
        from <= to <= s.len(),
    ensures
        r == (match string_value(s@.subrange(from as int, to as int)) {
            Some(v) => date_of_text(v),
            None => None,
        }),
{
    match string_value_at(s, from, to) {
        Some(v) => {
            assert(v@.subrange(0, v.len() as int) =~= v@);
            date_from_text(&v, 0, v.len())
        },
        None => None,
    }
}

/// Takes the line `s[from..to]`, numbered `line`, into `st`.
fn read_line(st: &mut FieldState, s: &Vec<char>, from: usize, to: usize, line: usize) -> (r: Result<
    (),
    DecodeError,
>)
    requires
        from <= to <= s.len(),
        old(st).wf(),
    ensures
        final(st).wf(),
        (match apply_line(old(st).fields(), s@.subrange(from as int, to as int), line as int) {
            Ok(f) => r is Ok && final(st).fields() == f,
            Err(e) => r == Err::<(), DecodeError>(e),
        }),
{
    let ghost l = s@.subrange(from as int, to as int);
    proof {
        reveal(apply_line);
    }
    if from == to {
        return Ok(());
    }
    let k = key_end(s, from, to);
    assert(forall|m: int| 0 <= m < l.len() ==> l[m] == s@[from + m]);
    if !(k > from && 3 <= to - k && s[k] == ' ' && s[k + 1] == '=' && s[k + 2] == ' ') {
        return Err(DecodeError::Malformed(line));
    }
    assert(l.subrange(0, k - from) =~= s@.subrange(from as int, k as int));
    assert(l.subrange(k - from + 3, l.len() as int) =~= s@.subrange(k + 3, to as int));
    let v_from = k + 3;
    let ghost f = st.fields();
    if same_chars(s, from, k, &chars_of("title")) {
        if st.title.is_some() {
            return Err(DecodeError::Duplicate(line));
        }
        match string_value_at(s, v_from, to) {
            Some(v) => {
                st.title = Some(string_of(&v));
                Ok(())
            },
            None => Err(DecodeError::BadValue(line)),
        }
    } else if same_chars(s, from, k, &chars_of("link")) {
        if st.link.is_some() {
            return Err(DecodeError::Duplicate(line));
        }
        match string_value_at(s, v_from, to) {
            Some(v) => {
                st.link = Some(string_of(&v));
                Ok(())
            },
            None => Err(DecodeError::BadValue(line)),
        }
    } else if same_chars(s, from, k, &chars_of("desc")) {
        if st.desc.is_some() {
            return Err(DecodeError::Duplicate(line));
        }
        match string_value_at(s, v_from, to) {
            Some(v) => {
                st.desc = Some(string_of(&v));
                Ok(())
            },
            None => Err(DecodeError::BadValue(line)),
        }
    } else if same_chars(s, from, k, &chars_of("added")) {
        if st.added.is_some() {
            return Err(DecodeError::Duplicate(line));
        }
        match date_value_at(s, v_from, to) {
            Some(d) => {
                st.added = Some(d);
                Ok(())
            },
            None => Err(DecodeError::BadValue(line)),
        }
    } else if same_chars(s, from, k, &chars_of("accessed")) {
        if st.accessed.is_some() {
            return Err(DecodeError::Duplicate(line));
        }
        match date_value_at(s, v_from, to) {
            Some(d) => {
                st.accessed = Some(d);
                Ok(())
            },
            None => Err(DecodeError::BadValue(line)),
        }
    } else if same_chars(s, from, k, &chars_of("tags")) {
        if st.tags.is_some() {
            return Err(DecodeError::Duplicate(line));
        }
        match tags_value_at(s, v_from, to) {
            Some(t) => {
                let d = distinct_tags(&t);
                proof {
                    crate::record::lemma_distinct_same_set(strings_view(t@));
                }
                st.tags = Some(d);
                Ok(())
            },
            None => Err(DecodeError::BadValue(line)),
        }
    } else {
        Ok(())
    }
}

/// Reads a record from its text.
pub fn decode(text: &str) -> (r: Result<Link, DecodeError>)
    ensures
        result_view(r) == decoded(text@),
        r matches Ok(l) ==> l@.wf(),
{
    let s = chars_of(text);
    let mut st = FieldState {
        title: None,
        link: None,
        desc: None,
        added: None,
        accessed: None,
        tags: None,
    };
    let mut err: Option<DecodeError> = None;
    let mut start: usize = 0;
    let mut line: usize = 0;
    let mut i: usize = 0;
    proof {
        assert(s@.subrange(0, 0) =~= Seq::<char>::empty());
        assert(split_on(Seq::<char>::empty(), '\n').drop_last() =~= Seq::<Seq<char>>::empty());
    }
    while i < s.len()
        invariant
            start <= i <= s.len(),
            line <= i,
            split_on(s@.subrange(0, i as int), '\n').len() >= 1,
            split_on(s@.subrange(0, i as int), '\n').last() == s@.subrange(start as int, i as int),
            line == split_on(s@.subrange(0, i as int), '\n').len() - 1,
            read_lines(split_on(s@.subrange(0, i as int), '\n').drop_last()) == (match err {
                Some(e) => Err(e),
                None => Ok(st.fields()),
            }),
            st.wf(),
        decreases s.len() - i,
    {
        let ghost pre = s@.subrange(0, i as int);
        let ghost p = split_on(pre, '\n');
        assert(s@.subrange(0, i + 1).drop_last() =~= pre);
        if s[i] == '\n' {
            if err.is_none() {
                match read_line(&mut st, &s, start, i, line) {
                    Ok(()) => {},
                    Err(e) => {
                        err = Some(e);
                    },
                }
            }
            assert(p.push(seq![]).drop_last() =~= p);
            assert(p =~= p.drop_last().push(p.last()));
            start = i + 1;
            line = line + 1;
            assert(s@.subrange(start as int, start as int) =~= Seq::<char>::empty());
        } else {
            assert(p.drop_last().push(p.last().push(s@[i as int])).drop_last() =~= p.drop_last());
            assert(p.last().push(s@[i as int]) =~= s@.subrange(start as int, i + 1));
        }
        i = i + 1;
    }
    assert(s@.subrange(0, s.len() as int) =~= s@);
    let ghost p = split_on(s@, '\n');
    assert(p =~= p.drop_last().push(p.last()));
    if let Some(e) = err {
        return Err(e);
    }
    match read_line(&mut st, &s, start, s.len(), line) {
        Ok(()) => {},
        Err(e) => {
            return Err(e);
        },
    }
    let title = match st.title {
        Some(t) => t,
        None => {
            return Err(DecodeError::Missing(Field::Title));
        },
    };
    let link = match st.link {
        Some(t) => t,
        None => {
            return Err(DecodeError::Missing(Field::Link));
        },
    };
    let desc = match st.desc {
        Some(t) => t,
        None => {
            return Err(DecodeError::Missing(Field::Desc));
        },
    };
    let added = match st.added {
        Some(t) => t,
        None => {
            return Err(DecodeError::Missing(Field::Added));
        },
    };
    let accessed = match st.accessed {
        Some(t) => t,
        None => {
            return Err(DecodeError::Missing(Field::Accessed));
        },
    };
    Ok(Link { title, link, desc, added, accessed, tags: st.tags })
}

pub open spec fn free_of(s: Seq<char>, c: char) -> bool {
    forall|i: int| 0 <= i < s.len() ==> s[i] != c
}

proof fn lemma_free_concat(a: Seq<char>, b: Seq<char>, c: char)
    requires
        free_of(a, c),
        free_of(b, c),
    ensures
        free_of(a + b, c),
{
    assert forall|i: int| 0 <= i < (a + b).len() implies (a + b)[i] != c by {
        if i < a.len() {
            assert((a + b)[i] == a[i]);
        } else {
            assert((a + b)[i] == b[i - a.len()]);
        }
    }
}

proof fn lemma_escaped_free(v: Seq<char>)
    ensures
        free_of(escaped(v), '\n'),
    decreases v.len(),
{
    if v.len() > 0 {
        lemma_escaped_free(v.drop_first());
        lemma_free_concat(escape_char(v[0]), escaped(v.drop_first()), '\n');
    }
}

proof fn lemma_quoted_free(v: Seq<char>)
    ensures
        free_of(quoted(v), '\n'),
{
    lemma_escaped_free(v);
    lemma_free_concat(seq!['"'], escaped(v), '\n');
    lemma_free_concat(seq!['"'] + escaped(v), seq!['"'], '\n');
}

proof fn lemma_tag_list_free(t: Seq<Seq<char>>)
    ensures
        free_of(tag_list_text(t), '\n'),
    decreases t.len(),
{
    if t.len() == 1 {
        lemma_quoted_free(t[0]);
    } else if t.len() > 1 {
        lemma_quoted_free(t[0]);
        lemma_tag_list_free(t.drop_first());
        lemma_free_concat(quoted(t[0]), seq![',', ' '], '\n');
        lemma_free_concat(quoted(t[0]) + seq![',', ' '], tag_list_text(t.drop_first()), '\n');
    }
}

proof fn lemma_unquote_escaped(v: Seq<char>, rest: Seq<char>)
    ensures
        unquote_body(escaped(v) + seq!['"'] + rest) == Some((v, (escaped(v).len() + 1) as nat)),
    decreases v.len(),
{
    let w = escaped(v) + seq!['"'] + rest;
    if v.len() == 0 {
        assert(w[0] == '"');
        assert(v =~= seq![]);
    } else {
        let t = v.drop_first();
        lemma_unquote_escaped(t, rest);
        let c = v[0];
        match escape_code(c) {
            Some(e) => {
                assert(w[0] == '\\' && w[1] == e);
                assert(w.subrange(2, w.len() as int) =~= escaped(t) + seq!['"'] + rest);
                assert(seq![c] + t =~= v);
            },
            None => {
                assert(w[0] == c);
                assert(w.drop_first() =~= escaped(t) + seq!['"'] + rest);
                assert(seq![c] + t =~= v);
            },
        }
    }
}

proof fn lemma_string_value_quoted(v: Seq<char>)
    ensures
        string_value(quoted(v)) == Some(v),
{
    let q = quoted(v);
    lemma_unquote_escaped(v, seq![]);
    assert(q.drop_first() =~= escaped(v) + seq!['"'] + seq![]);
}

proof fn lemma_tag_items(t: Seq<Seq<char>>)
    requires
        t.len() >= 1,
    ensures
        tag_items(tag_list_text(t) + seq![']']) == Some(t),
    decreases t.len(),
{
    let s = tag_list_text(t) + seq![']'];
    let e = escaped(t[0]);
    if t.len() == 1 {
        lemma_unquote_escaped(t[0], seq![']']);
        assert(s.drop_first() =~= e + seq!['"'] + seq![']']);
        assert(s.subrange(e.len() + 2 as int, s.len() as int) =~= seq![']']);
        assert(seq![t[0]] =~= t);
    } else {
        let tail = t.drop_first();
        let more = seq![',', ' '] + tag_list_text(tail) + seq![']'];
        lemma_unquote_escaped(t[0], more);
        assert(s.drop_first() =~= e + seq!['"'] + more);
        assert(s.subrange(e.len() + 2 as int, s.len() as int) =~= more);
        lemma_tag_items(tail);
        if tail.len() == 1 {
            assert(tag_list_text(tail) == quoted(tail[0]));
        }
        assert(more.len() >= 3);
        assert(more[0] == ',');
        assert(more != seq![']']);
        assert(more.subrange(2, more.len() as int) =~= tag_list_text(tail) + seq![']']);
        assert(seq![t[0]] + tail =~= t);
    }
}

proof fn lemma_tags_value(t: Seq<Seq<char>>)
    ensures
        tags_value(seq!['['] + tag_list_text(t) + seq![']']) == Some(t),
{
    let rhs = seq!['['] + tag_list_text(t) + seq![']'];
    if t.len() == 0 {
        assert(rhs =~= seq!['[', ']']);
        assert(t =~= seq![]);
    } else {
        lemma_tag_items(t);
        if t.len() == 1 {
            assert(tag_list_text(t) == quoted(t[0]));
        }
        assert(rhs.len() > 2);
        assert(rhs.drop_first() =~= tag_list_text(t) + seq![']']);
    }
}

proof fn lemma_key_len(k: Seq<char>, rest: Seq<char>)
    requires
        free_of(k, ' '),
    ensures
        key_len(k + rest) == k.len() + key_len(rest),
    decreases k.len(),
{
    if k.len() > 0 {
        assert((k + rest)[0] == k[0]);
        assert((k + rest).drop_first() =~= k.drop_first() + rest);
        lemma_key_len(k.drop_first(), rest);
    } else {
        assert(k + rest =~= rest);
    }
}

proof fn lemma_split_line(k: Seq<char>, rhs: Seq<char>)
    requires
        k.len() > 0,
        free_of(k, ' '),
    ensures
        split_line(k + seq![' ', '=', ' '] + rhs) == Some((k, rhs)),
{
    let l = k + seq![' ', '=', ' '] + rhs;
    assert(l =~= k + (seq![' ', '=', ' '] + rhs));
    lemma_key_len(k, seq![' ', '=', ' '] + rhs);
    assert((seq![' ', '=', ' '] + rhs)[0] == ' ');
    assert(l.subrange(0, k.len() as int) =~= k);
    assert(l.subrange(k.len() + 3 as int, l.len() as int) =~= rhs);
}

proof fn lemma_split_no_sep(a: Seq<char>, b: Seq<char>, sep: char)
    requires
        free_of(b, sep),
    ensures
        split_on(a + b, sep) == split_on(a, sep).drop_last().push(split_on(a, sep).last() + b),
    decreases b.len(),
{
    crate::text::lemma_split_nonempty(a, sep);
    let p = split_on(a, sep);
    if b.len() == 0 {
        assert(a + b =~= a);
        assert(p.last() + b =~= p.last());
        assert(p.drop_last().push(p.last()) =~= p);
    } else {
        assert((a + b).drop_last() =~= a + b.drop_last());
        assert((a + b).last() == b.last());
        assert(b.last() == b[b.len() - 1]);
        lemma_split_no_sep(a, b.drop_last(), sep);
        let q = split_on(a + b.drop_last(), sep);
        assert(q.drop_last() =~= p.drop_last());
        assert(q.last() =~= p.last() + b.drop_last());
        assert(q.last().push(b.last()) =~= p.last() + b);
        assert(q.drop_last().push(q.last().push(b.last())) =~= p.drop_last().push(p.last() + b));
    }
}

proof fn lemma_split_add_line(a: Seq<char>, b: Seq<char>)
    requires
        free_of(b, '\n'),
        split_on(a, '\n').last() == Seq::<char>::empty(),
    ensures
        split_on(a + b + seq!['\n'], '\n') == split_on(a, '\n').drop_last().push(b).push(seq![]),
{
    let t = a + b + seq!['\n'];
    assert(t.drop_last() =~= a + b);
    lemma_split_no_sep(a, b, '\n');
    assert(Seq::<char>::empty() + b =~= b);
}

proof fn lemma_read_lines_push(ls: Seq<Seq<char>>, x: Seq<char>)
    ensures
        read_lines(ls.push(x)) == (match read_lines(ls) {
            Ok(f) => apply_line(f, x, ls.len() as int),
            Err(e) => Err(e),
        }),
{
    assert(ls.push(x).drop_last() =~= ls);
}

pub open spec fn line_body(k: Seq<char>, rhs: Seq<char>) -> Seq<char> {
    k + seq![' ', '=', ' '] + rhs
}

proof fn lemma_keys()
    ensures
        free_of("title"@, ' ') && free_of("title"@, '\n') && "title"@.len() > 0,
        free_of("link"@, ' ') && free_of("link"@, '\n') && "link"@.len() > 0,
        free_of("desc"@, ' ') && free_of("desc"@, '\n') && "desc"@.len() > 0,
        free_of("added"@, ' ') && free_of("added"@, '\n') && "added"@.len() > 0,
        free_of("accessed"@, ' ') && free_of("accessed"@, '\n') && "accessed"@.len() > 0,
        free_of("tags"@, ' ') && free_of("tags"@, '\n') && "tags"@.len() > 0,
        "link"@ != "title"@,
        "desc"@ != "title"@ && "desc"@ != "link"@,
        "added"@ != "title"@ && "added"@ != "link"@ && "added"@ != "desc"@,
        "accessed"@ != "title"@ && "accessed"@ != "link"@ && "accessed"@ != "desc"@ && "accessed"@
            != "added"@,
        "tags"@ != "title"@ && "tags"@ != "link"@ && "tags"@ != "desc"@ && "tags"@ != "added"@
            && "tags"@ != "accessed"@,
{
    reveal_strlit("title");
    reveal_strlit("link");
    reveal_strlit("desc");
    reveal_strlit("added");
    reveal_strlit("accessed");
    reveal_strlit("tags");
    let kt = "title"@;
    let kl = "link"@;
    let kd = "desc"@;
    let ka = "added"@;
    let kc = "accessed"@;
    let kg = "tags"@;
    assert(kt.len() == 5 && kl.len() == 4 && kd.len() == 4 && ka.len() == 5 && kc.len() == 8
        && kg.len() == 4);
    assert(kt[0] == 't' && kl[0] == 'l' && kd[0] == 'd' && ka[0] == 'a' && kg[0] == 't');
    assert(ka[0] != kt[0] && kd[0] != kl[0] && kg[0] != kl[0] && kg[0] != kd[0]);
}

proof fn lemma_line_body(k: Seq<char>, rhs: Seq<char>)
    requires
        k.len() > 0,
        free_of(k, ' '),
        free_of(k, '\n'),
        free_of(rhs, '\n'),
    ensures
        split_line(line_body(k, rhs)) == Some((k, rhs)),
        free_of(line_body(k, rhs), '\n'),
        field_line(k, rhs) == line_body(k, rhs) + seq!['\n'],
{
    lemma_split_line(k, rhs);
    assert(free_of(seq![' ', '=', ' '], '\n'));
    lemma_free_concat(k, seq![' ', '=', ' '], '\n');
    lemma_free_concat(k + seq![' ', '=', ' '], rhs, '\n');
    assert(field_line(k, rhs) =~= line_body(k, rhs) + seq!['\n']);
}

proof fn lemma_string_line(k: Seq<char>, v: Seq<char>)
    requires
        k.len() > 0,
        free_of(k, ' '),
        free_of(k, '\n'),
    ensures
        split_line(line_body(k, quoted(v))) == Some((k, quoted(v))),
        free_of(line_body(k, quoted(v)), '\n'),
        field_line(k, quoted(v)) == line_body(k, quoted(v)) + seq!['\n'],
        string_value(quoted(v)) == Some(v),
{
    lemma_quoted_free(v);
    lemma_line_body(k, quoted(v));
    lemma_string_value_quoted(v);
}

/// The lines of a record's text: one per field, then the empty rest after the
/// last newline.
pub open spec fn lines_of(r: LinkView) -> Seq<Seq<char>> {
    let base = seq![
        line_body("title"@, quoted(r.title)),
        line_body("link"@, quoted(r.link)),
        line_body("desc"@, quoted(r.desc)),
        line_body("added"@, quoted(date_text(r.added))),
        line_body("accessed"@, quoted(date_text(r.accessed))),
    ];
    match r.tags {
        Some(t) => base.push(line_body("tags"@, seq!['['] + tag_list_text(t) + seq![']'])),
        None => base,
    }
}

proof fn lemma_split_encoded(r: LinkView)
    ensures
        split_on(encoded(r), '\n') == lines_of(r).push(seq![]),
{
    lemma_keys();
    lemma_string_line("title"@, r.title);
    lemma_string_line("link"@, r.link);
    lemma_string_line("desc"@, r.desc);
    lemma_string_line("added"@, date_text(r.added));
    lemma_string_line("accessed"@, date_text(r.accessed));
    let b = lines_of(r);
    let t0 = Seq::<char>::empty();
    let t1 = t0 + b[0] + seq!['\n'];
    let t2 = t1 + b[1] + seq!['\n'];
    let t3 = t2 + b[2] + seq!['\n'];
    let t4 = t3 + b[3] + seq!['\n'];
    let t5 = t4 + b[4] + seq!['\n'];
    lemma_split_add_line(t0, b[0]);
    lemma_split_add_line(t1, b[1]);
    lemma_split_add_line(t2, b[2]);
    lemma_split_add_line(t3, b[3]);
    lemma_split_add_line(t4, b[4]);
    assert(split_on(t5, '\n') =~= b.subrange(0, 5).push(seq![]));
    match r.tags {
        None => {
            assert(encoded(r) =~= t5);
            assert(b.subrange(0, 5) =~= b);
        },
        Some(t) => {
            let rg = seq!['['] + tag_list_text(t) + seq![']'];
            lemma_tag_list_free(t);
            lemma_free_concat(seq!['['], tag_list_text(t), '\n');
            lemma_free_concat(seq!['['] + tag_list_text(t), seq![']'], '\n');
            lemma_line_body("tags"@, rg);
            lemma_split_add_line(t5, b[5]);
            assert(encoded(r) =~= t5 + b[5] + seq!['\n']);
            assert(b.subrange(0, 5).push(b[5]) =~= b);
        },
    }
}

pub open spec fn fields_of(r: LinkView) -> Fields {
    Fields {
        title: Some(r.title),
        link: Some(r.link),
        desc: Some(r.desc),
        added: Some(r.added),
        accessed: Some(r.accessed),
        tags: r.tags,
    }
}

proof fn lemma_apply_title(f: Fields, v: Seq<char>, i: int)
    requires
        f.title is None,
    ensures
        apply_line(f, line_body("title"@, quoted(v)), i) == Ok::<Fields, DecodeError>(
            Fields { title: Some(v), ..f },
        ),
{
    reveal(apply_line);
    lemma_keys();
    lemma_string_line("title"@, v);
}

proof fn lemma_apply_link(f: Fields, v: Seq<char>, i: int)
    requires
        f.link is None,
    ensures
        apply_line(f, line_body("link"@, quoted(v)), i) == Ok::<Fields, DecodeError>(
            Fields { link: Some(v), ..f },
        ),
{
    reveal(apply_line);
    lemma_keys();
    lemma_string_line("link"@, v);
}

proof fn lemma_apply_desc(f: Fields, v: Seq<char>, i: int)
    requires
        f.desc is None,
    ensures
        apply_line(f, line_body("desc"@, quoted(v)), i) == Ok::<Fields, DecodeError>(
            Fields { desc: Some(v), ..f },
        ),
{
    reveal(apply_line);
    lemma_keys();
    lemma_string_line("desc"@, v);
}

proof fn lemma_apply_added(f: Fields, d: Date, i: int)
    requires
        f.added is None,
        d.wf(),
    ensures
        apply_line(f, line_body("added"@, quoted(date_text(d))), i) == Ok::<Fields, DecodeError>(
            Fields { added: Some(d), ..f },
        ),
{
    reveal(apply_line);
    lemma_keys();
    lemma_string_line("added"@, date_text(d));
    crate::date::lemma_date_text_round_trip(d);
}

proof fn lemma_apply_accessed(f: Fields, d: Date, i: int)
    requires
        f.accessed is None,
        d.wf(),
    ensures
        apply_line(f, line_body("accessed"@, quoted(date_text(d))), i) == Ok::<
            Fields,
            DecodeError,
        >(Fields { accessed: Some(d), ..f }),
{
    reveal(apply_line);
    lemma_keys();
    lemma_string_line("accessed"@, date_text(d));
    crate::date::lemma_date_text_round_trip(d);
}

proof fn lemma_apply_tags(f: Fields, t: Seq<Seq<char>>, i: int)
    requires
        f.tags is None,
        t.no_duplicates(),
    ensures
        apply_line(f, line_body("tags"@, seq!['['] + tag_list_text(t) + seq![']']), i) == Ok::<
            Fields,
            DecodeError,
        >(Fields { tags: Some(t), ..f }),
{
    reveal(apply_line);
    lemma_keys();
    let rg = seq!['['] + tag_list_text(t) + seq![']'];
    lemma_tag_list_free(t);
    lemma_free_concat(seq!['['], tag_list_text(t), '\n');
    lemma_free_concat(seq!['['] + tag_list_text(t), seq![']'], '\n');
    lemma_line_body("tags"@, rg);
    lemma_tags_value(t);
    crate::record::lemma_distinct_same_set(t);
}

proof fn lemma_read_encoded_lines(r: LinkView)
    requires
        r.wf(),
    ensures
        read_lines(lines_of(r)) == Ok::<Fields, DecodeError>(fields_of(r)),
{
    let b = lines_of(r);
    let f0 = no_fields();
    let f1 = Fields { title: Some(r.title), ..f0 };
    let f2 = Fields { link: Some(r.link), ..f1 };
    let f3 = Fields { desc: Some(r.desc), ..f2 };
    let f4 = Fields { added: Some(r.added), ..f3 };
    let f5 = Fields { accessed: Some(r.accessed), ..f4 };
    lemma_apply_title(f0, r.title, 0);
    lemma_apply_link(f1, r.link, 1);
    lemma_apply_desc(f2, r.desc, 2);
    lemma_apply_added(f3, r.added, 3);
    lemma_apply_accessed(f4, r.accessed, 4);
    let l0 = Seq::<Seq<char>>::empty();
    lemma_read_lines_push(l0, b[0]);
    lemma_read_lines_push(b.subrange(0, 1), b[1]);
    lemma_read_lines_push(b.subrange(0, 2), b[2]);
    lemma_read_lines_push(b.subrange(0, 3), b[3]);
    lemma_read_lines_push(b.subrange(0, 4), b[4]);
    assert(l0.push(b[0]) =~= b.subrange(0, 1));
    assert(b.subrange(0, 1).push(b[1]) =~= b.subrange(0, 2));
    assert(b.subrange(0, 2).push(b[2]) =~= b.subrange(0, 3));
    assert(b.subrange(0, 3).push(b[3]) =~= b.subrange(0, 4));
    assert(b.subrange(0, 4).push(b[4]) =~= b.subrange(0, 5));
    assert(read_lines(b.subrange(0, 5)) == Ok::<Fields, DecodeError>(f5));
    match r.tags {
        None => {
            assert(b.subrange(0, 5) =~= b);
        },
        Some(t) => {
            lemma_apply_tags(f5, t, 5);
            lemma_read_lines_push(b.subrange(0, 5), b[5]);
            assert(b.subrange(0, 5).push(b[5]) =~= b);
        },
    }
}

/// Writing a record and reading the text back gives the same record, for
/// every well-formed record, whatever its strings hold.
pub proof fn lemma_round_trip(r: LinkView)
    requires
        r.wf(),
    ensures
        decoded(encoded(r)) == Ok::<LinkView, DecodeError>(r),
{
    reveal(apply_line);
    lemma_split_encoded(r);
    lemma_read_encoded_lines(r);
    lemma_read_lines_push(lines_of(r), seq![]);
}

} // verus!
