//! The fragment of one document: the inner markup of its first element that
//! matches a selector, or nothing where no element matches.

use vstd::prelude::*;

verus! {

/// `scraper`'s error for a selector group that it does not accept. Nothing is
/// read from it here: it is mapped to [`ExtractError::InvalidSelector`].
#[verifier::external_type_specification]
#[verifier::external_body]
pub struct ExSelectorErrorKind(scraper::error::SelectorErrorKind);

/// Why no fragment was extracted.
#[derive(Debug, Clone, Copy, PartialEq, Eq)]
pub enum ExtractError {
    /// The selector text is not a selector group that the selector engine
    /// accepts.
    InvalidSelector,
}

/// Whether `scraper::Selector::parse` accepts `selector` as a selector group.
pub uninterp spec fn selector_compiles(selector: Seq<char>) -> bool;

/// The inner markup of each element that matches `selector` in the tree that
/// `scraper::Html::parse_document` builds from `document`, one item per
/// element, in the order in which `scraper::Html::select` yields them. Only
/// meaningful where `selector_compiles(selector)`.
pub uninterp spec fn selected_inner_markup(document: Seq<char>, selector: Seq<char>) -> Seq<
    Seq<char>,
>;

/// The texts of a sequence of strings.
pub open spec fn texts(strings: Seq<String>) -> Seq<Seq<char>> {
    strings.map_values(|s: String| s@)
}

/// The first of `fragments`, or the empty text where there is none.
pub open spec fn first_or_empty(fragments: Seq<Seq<char>>) -> Seq<char> {
    if fragments.len() > 0 {
        fragments[0]
    } else {
        Seq::empty()
    }
}

/// What is written for `document` under `selector`: the inner markup of the
/// first matching element, without that element's own tags, and the empty
/// text where nothing matches.
pub open spec fn fragment_of(document: Seq<char>, selector: Seq<char>) -> Seq<char> {
    first_or_empty(selected_inner_markup(document, selector))
}

/// The selector of the element whose content is kept.
pub open spec fn main_selector() -> Seq<char> {
    "main"@
}

/// Compiles `selector` with `scraper::Selector::parse`, parses `document`
/// with `scraper::Html::parse_document`, and serialises the children of each
/// element that `scraper::Html::select` yields with
/// `scraper::ElementRef::inner_html`.
///
/// Trusted: the call fails exactly where the selector is refused, which
/// depends on the selector alone; otherwise the strings handed back are a
/// function of the two texts. Parsing a document is lenient and has no
/// failure of its own.
#[verifier::external_body]
fn select_inner_markup(document: &str, selector: &str) -> (found: Result<
    Vec<String>,
    scraper::error::SelectorErrorKind,
>)
    ensures
        found is Ok <==> selector_compiles(selector@),
        found matches Ok(fragments) ==> texts(fragments@) == selected_inner_markup(
            document@,
            selector@,
        ),
{
    let compiled = scraper::Selector::parse(selector)?;
    let parsed = scraper::Html::parse_document(document);
    let mut fragments = Vec::new();
    for element in parsed.select(&compiled) {
        fragments.push(element.inner_html());
    }
    Ok(fragments)
}

/// Picks what is written out of the fragments of all matching elements: the
/// first one alone. Later matches are dropped, not appended.
pub fn first_fragment(fragments: &Vec<String>) -> (out: String)
    ensures
        out@ == first_or_empty(texts(fragments@)),
        fragments@.len() == 0 ==> out@.len() == 0,
        fragments@.len() > 0 ==> out@ == fragments@[0]@,
{
    if fragments.len() > 0 {
        fragments[0].clone()
    } else {
        String::new()
    }
}

/// Extracts from `document` the inner markup of the first element that
/// matches `selector`. A document without a match gives the empty text, and
/// of several matches the first alone counts. The selector decides whether
/// there is a result at all.
pub fn extract_first(document: &str, selector: &str) -> (out: Result<String, ExtractError>)
    ensures
        out is Ok <==> selector_compiles(selector@),
        out matches Ok(text) ==> text@ == fragment_of(document@, selector@),
        out matches Ok(text) ==> (selected_inner_markup(document@, selector@).len() == 0
            ==> text@.len() == 0),
        out matches Ok(text) ==> (selected_inner_markup(document@, selector@).len() > 0 ==> text@
            == selected_inner_markup(document@, selector@)[0]),
        out matches Err(e) ==> e == ExtractError::InvalidSelector,
{
    match select_inner_markup(document, selector) {
        Ok(fragments) => Ok(first_fragment(&fragments)),
        Err(_) => Err(ExtractError::InvalidSelector),
    }
}

/// Extracts from `document` the inner markup of its first `main` element:
/// the empty text where it has none, and that of the first where it has
/// several.
pub fn extract_main(document: &str) -> (out: Result<String, ExtractError>)
    ensures
        out is Ok <==> selector_compiles(main_selector()),
        out matches Ok(text) ==> text@ == fragment_of(document@, main_selector()),
        out matches Ok(text) ==> (selected_inner_markup(document@, main_selector()).len() == 0
            ==> text@.len() == 0),
        out matches Ok(text) ==> (selected_inner_markup(document@, main_selector()).len() > 0
            ==> text@ == selected_inner_markup(document@, main_selector())[0]),
        out matches Err(e) ==> e == ExtractError::InvalidSelector,
{
    extract_first(document, "main")
}

} // verus!
