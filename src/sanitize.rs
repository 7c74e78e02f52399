//! Turning a free-form title into an identifier that is safe as a file name.
//!
//! The title is first transliterated to plain ASCII. Then every character is
//! classified: ASCII letters are lowercased, digits are kept, the separator
//! `-` and every character of the unsafe set become `-`, and anything else is
//! dropped. Finally each run of separators is collapsed into one.

use crate::text::{chars_of, is_whitespace, is_ws, string_of};
use vstd::prelude::*;

verus! {

/// The character that joins the words of an identifier.
pub const SEPARATOR: char = '-';

/// What `unidecode::unidecode` makes of a string: its closest ASCII spelling.
pub uninterp spec fn transliterated(s: Seq<char>) -> Seq<char>;

/// Relies on `unidecode::unidecode`, which transliterates each character to
/// ASCII through a fixed table; the result depends on `s` alone.
#[verifier::external_body]
fn transliterate(s: &str) -> (r: String)
    ensures
        r@ == transliterated(s@),
{
    unidecode::unidecode(s)
}

/// Characters that never survive in an identifier: path separators, shell and
/// file-system metacharacters, white space and troublesome punctuation.
pub open spec fn is_unsafe(c: char) -> bool {
    c == '/' || c == '\\' || c == ':' || c == ';' || c == '*' || c == '?' || c == '"' || c == '<'
        || c == '>' || c == '|' || c == '\'' || c == '`' || is_ws(c) || c == '(' || c == ')'
        || c == '+' || c == '&' || c == '^' || c == '#' || c == '@' || c == '$' || c == '%'
        || c == '=' || c == '.' || c == '_' || c == ',' || c == '!' || c == '~' || c == '['
        || c == ']' || c == '{' || c == '}'
}

pub open spec fn is_lower_or_digit(c: char) -> bool {
    ('a' <= c && c <= 'z') || ('0' <= c && c <= '9')
}

/// The identifier alphabet: lowercase ASCII letters, digits and the separator.
pub open spec fn in_alphabet(c: char) -> bool {
    is_lower_or_digit(c) || c == SEPARATOR
}

/// What a single character of the transliterated title contributes.
pub open spec fn class_of(c: char) -> Seq<char> {
    if 'A' <= c && c <= 'Z' {
        seq![((c as u32) + 32) as char]
    } else if is_lower_or_digit(c) {
        seq![c]
    } else if c == SEPARATOR || is_unsafe(c) {
        seq![SEPARATOR]
    } else {
        seq![]
    }
}

/// Replacement and lowercasing, character by character.
pub open spec fn cleaned(s: Seq<char>) -> Seq<char>
    decreases s.len(),
{
    if s.len() == 0 {
        seq![]
    } else {
        cleaned(s.drop_last()) + class_of(s.last())
    }
}

/// `s` with every run of separators shortened to one.
pub open spec fn collapsed(s: Seq<char>) -> Seq<char>
    decreases s.len(),
{
    if s.len() == 0 {
        seq![]
    } else {
        let p = collapsed(s.drop_last());
        if s.last() == SEPARATOR && p.len() > 0 && p.last() == SEPARATOR {
            p
        } else {
            p.push(s.last())
        }
    }
}

/// The identifier of an ASCII title.
pub open spec fn identifier_of(s: Seq<char>) -> Seq<char> {
    collapsed(cleaned(s))
}

/// A well-formed identifier: only alphabet characters, no two separators in a row.
pub open spec fn is_identifier(s: Seq<char>) -> bool {
    &&& forall|i: int| 0 <= i < s.len() ==> in_alphabet(#[trigger] s[i])
    &&& forall|i: int| 0 <= i < s.len() - 1 ==> !(#[trigger] s[i] == SEPARATOR && s[i + 1] == SEPARATOR)
}

/// An identifier that names nothing: empty, or a lone separator.
pub open spec fn is_degenerate(s: Seq<char>) -> bool {
    forall|i: int| 0 <= i < s.len() ==> #[trigger] s[i] == SEPARATOR
}

proof fn lemma_cleaned_alphabet(s: Seq<char>)
    ensures
        forall|i: int| 0 <= i < cleaned(s).len() ==> in_alphabet(#[trigger] cleaned(s)[i]),
    decreases s.len(),
{
    if s.len() > 0 {
        lemma_cleaned_alphabet(s.drop_last());
        let c = s.last();
        if 'A' <= c && c <= 'Z' {
            assert('a' <= ((c as u32) + 32) as char <= 'z');
        }
        let p = cleaned(s.drop_last());
        let q = class_of(c);
        assert forall|i: int| 0 <= i < q.len() implies in_alphabet(#[trigger] q[i]) by {}
        assert forall|i: int| 0 <= i < (p + q).len() implies in_alphabet(#[trigger] (p + q)[i]) by {
            if i < p.len() {
                assert((p + q)[i] == p[i]);
            } else {
                assert((p + q)[i] == q[i - p.len()]);
            }
        }
    }
}

proof fn lemma_collapsed_identifier(s: Seq<char>)
    requires
        forall|i: int| 0 <= i < s.len() ==> in_alphabet(#[trigger] s[i]),
    ensures
        is_identifier(collapsed(s)),
    decreases s.len(),
{
    if s.len() > 0 {
        let t = s.drop_last();
        assert forall|i: int| 0 <= i < t.len() implies in_alphabet(#[trigger] t[i]) by {
            assert(t[i] == s[i]);
        }
        lemma_collapsed_identifier(t);
        let p = collapsed(t);
        assert(in_alphabet(s[s.len() - 1]));
        if !(s.last() == SEPARATOR && p.len() > 0 && p.last() == SEPARATOR) {
            let q = p.push(s.last());
            assert forall|i: int| 0 <= i < q.len() - 1 implies !(#[trigger] q[i] == SEPARATOR
                && q[i + 1] == SEPARATOR) by {
                if i < p.len() - 1 {
                    assert(q[i] == p[i] && q[i + 1] == p[i + 1]);
                }
            }
        }
    }
}

/// An identifier, whatever the title: only lowercase letters, digits and
/// separators, and never two separators side by side.
pub proof fn lemma_identifier_well_formed(s: Seq<char>)
    ensures
        is_identifier(identifier_of(s)),
{
    lemma_cleaned_alphabet(s);
    lemma_collapsed_identifier(cleaned(s));
}

/// The identifier depends on the title alone: equal titles give equal identifiers.
pub proof fn lemma_sanitize_deterministic(a: Seq<char>, b: Seq<char>)
    requires
        a == b,
    ensures
        identifier_of(transliterated(a)) == identifier_of(transliterated(b)),
{
}

fn char_class(c: char) -> (r: Option<char>)
    ensures
        r matches Some(d) ==> class_of(c) == seq![d],
        r is None ==> class_of(c) == Seq::<char>::empty(),
{
    if 'A' <= c && c <= 'Z' {
        Some(((c as u8) + 32) as char)
    } else if ('a' <= c && c <= 'z') || ('0' <= c && c <= '9') {
        Some(c)
    } else if c == SEPARATOR || c == '/' || c == '\\' || c == ':' || c == ';' || c == '*' || c
        == '?' || c == '"' || c == '<' || c == '>' || c == '|' || c == '\'' || c == '`'
        || is_whitespace(c) || c == '(' || c == ')' || c == '+' || c == '&' || c == '^' || c
        == '#' || c == '@' || c == '$' || c == '%' || c == '=' || c == '.' || c == '_' || c
        == ',' || c == '!' || c == '~' || c == '[' || c == ']' || c == '{' || c == '}' {
        Some(SEPARATOR)
    } else {
        None
    }
}

/// The identifier of a title that is already ASCII (or that is to be taken as
/// it stands): unsafe characters become separators, letters are lowercased,
/// other characters are dropped, and runs of separators collapse.
pub fn sanitize_ascii(title: &str) -> (r: String)
    ensures
        r@ == identifier_of(title@),
        is_identifier(r@),
{
    let s = chars_of(title);
    let mut clean: Vec<char> = Vec::new();
    let mut i: usize = 0;
    while i < s.len()
        invariant
            i <= s.len(),
            clean@ == cleaned(s@.subrange(0, i as int)),
        decreases s.len() - i,
    {
        assert(s@.subrange(0, i + 1).drop_last() =~= s@.subrange(0, i as int));
        match char_class(s[i]) {
            Some(d) => {
                clean.push(d);
            },
            None => {},
        }
        i = i + 1;
        assert(clean@ =~= cleaned(s@.subrange(0, i as int)));
    }
    assert(s@.subrange(0, s.len() as int) =~= s@);
    let mut out: Vec<char> = Vec::new();
    let mut j: usize = 0;
    while j < clean.len()
        invariant
            j <= clean.len(),
            out@ == collapsed(clean@.subrange(0, j as int)),
        decreases clean.len() - j,
    {
        let ghost t = clean@.subrange(0, j + 1);
        assert(t.drop_last() =~= clean@.subrange(0, j as int));
        let c = clean[j];
        if !(c == SEPARATOR && out.len() > 0 && out[out.len() - 1] == SEPARATOR) {
            out.push(c);
        }
        j = j + 1;
    }
    assert(clean@.subrange(0, clean.len() as int) =~= clean@);
    proof {
        lemma_identifier_well_formed(title@);
    }
    string_of(&out)
}

/// The identifier of a title: transliterated to ASCII, then cleaned and
/// collapsed as `sanitize_ascii` does.
pub fn sanitize(title: &str) -> (r: String)
    ensures
        r@ == identifier_of(transliterated(title@)),
        is_identifier(r@),
{
    let ascii = transliterate(title);
    sanitize_ascii(&ascii)
}

/// The file name under which a record with this title is stored, or `None`
/// when the title yields a degenerate identifier (empty, or only a separator),
/// which must not be written.
pub fn file_name(title: &str) -> (r: Option<String>)
    ensures
        is_degenerate(identifier_of(transliterated(title@))) ==> r is None,
        !is_degenerate(identifier_of(transliterated(title@))) ==> (r matches Some(n) && n@
            == identifier_of(transliterated(title@)) + ".toml"@),
{
    let id = sanitize(title);
    let v = chars_of(&id);
    let mut i: usize = 0;
    while i < v.len()
        invariant
            i <= v.len(),
            v@ == id@,
            id@ == identifier_of(transliterated(title@)),
            forall|k: int| 0 <= k < i ==> #[trigger] v@[k] == SEPARATOR,
        decreases v.len() - i,
    {
        if v[i] != SEPARATOR {
            assert(id@[i as int] != SEPARATOR);
            let mut name = id;
            name.append(".toml");
            return Some(name);
        }
        i = i + 1;
    }
    None
}

} // verus!
