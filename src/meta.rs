//! Suggesting a description for a resource from its web page.

use crate::codec::opt_string;
use vstd::prelude::*;

verus! {

/// The `content` of the first `<meta name="description">` element of an HTML
/// page, as `scraper` finds it; `None` where there is none.
pub uninterp spec fn meta_description_in(html: Seq<char>) -> Option<Seq<char>>;

/// Relies on `scraper`: `Html::parse_document`, a `Selector` for
/// `meta[name='description']`, the first element it selects and that
/// element's `content` attribute. Parsing depends on the page text alone.
#[verifier::external_body]
fn meta_description(html: &str) -> (r: Option<String>)
    ensures
        opt_string(r) == meta_description_in(html@),
{
    let document = scraper::Html::parse_document(html);
    let selector = scraper::Selector::parse("meta[name='description']").ok()?;
    let element = document.select(&selector).next()?;
    let content = element.value().attr("content")?;
    Some(content.to_string())
}

/// The description to offer for a page: its meta description, or the empty
/// string when the page could not be fetched (`None`) or has none.
pub fn suggested_description(page: &Option<String>) -> (r: String)
    ensures
        r@ == (match page {
            Some(p) => match meta_description_in(p@) {
                Some(d) => d,
                None => Seq::<char>::empty(),
            },
            None => Seq::<char>::empty(),
        }),
{
    match page {
        Some(p) => match meta_description(p.as_str()) {
            Some(d) => d,
            None => String::new(),
        },
        None => String::new(),
    }
}

} // verus!
