use vstd::prelude::*;

verus! {

/// The HTML that comrak renders from a markdown text with its default options.
pub uninterp spec fn commonmark_html(md: Seq<char>) -> Seq<char>;

/// Relies on comrak::markdown_to_html with `Options::default()`: it parses the
/// whole text as CommonMark and renders it, with raw HTML in the input
/// omitted, and the output depends on the text alone. It never fails on any
/// input: what does not parse as a construct is rendered as literal text.
#[verifier::external_body]
fn render_commonmark(md: &str) -> (r: String)
    ensures
        r@ == commonmark_html(md@),
{
    comrak::markdown_to_html(md, &comrak::Options::default())
}

/// Converts a markdown body to an HTML fragment that can be embedded as is.
/// Conversion never fails: malformed constructs degrade to literal text.
pub fn markdown_to_html(md: &str) -> (r: String)
    ensures
        r@ == commonmark_html(md@),
{
    render_commonmark(md)
}

/// `html` is what the markdown text `md` converts to.
pub open spec fn converts_to(md: Seq<char>, html: Seq<char>) -> bool {
    html == commonmark_html(md)
}

/// Conversion is a function of the text: two conversions of the same text
/// give the same HTML.
pub proof fn lemma_conversion_deterministic(md: Seq<char>, first: Seq<char>, second: Seq<char>)
    requires
        converts_to(md, first),
        converts_to(md, second),
    ensures
        first == second,
{
}

} // verus!
