use vstd::prelude::*;

verus! {

/// The HTML that the markup engine makes of `markup`, with every extension
/// that the engine offers switched on.
pub uninterp spec fn markdown_html(markup: Seq<char>) -> Seq<char>;

/// Calls `pulldown_cmark`: `Options::all` for the extensions,
/// `Parser::new_ext` to read the markup and `html::push_html` to write the
/// HTML into a fresh string. The HTML depends on the markup alone, which is
/// all that is claimed of it here.
#[verifier::external_body]
fn pulldown_html(markup: &str) -> (r: String)
    ensures
        r@ == markdown_html(markup@),
{
    let parser = pulldown_cmark::Parser::new_ext(markup, pulldown_cmark::Options::all());
    let mut html = String::new();
    pulldown_cmark::html::push_html(&mut html, parser);
    html
}

/// Converts markup to an HTML fragment.
pub fn convert(markup: &str) -> (r: String)
    ensures
        r@ == markdown_html(markup@),
{
    pulldown_html(markup)
}

} // verus!
