use vstd::prelude::*;

verus! {

/// The HTML fragment that the markdown compiler produces for a document.
/// The compilation is a function of the document text alone.
pub uninterp spec fn html_of(s: Seq<char>) -> Seq<char>;

/// Relies on pulldown_cmark: Parser::new_ext with the strikethrough
/// extension and html::push_html turn markdown text into an HTML
/// fragment that depends on the text alone.
#[verifier::external_body]
fn markdown_to_html(text: &str) -> (r: String)
    ensures
        r@ == html_of(text@),
{
    let mut options = pulldown_cmark::Options::empty();
    options.insert(pulldown_cmark::Options::ENABLE_STRIKETHROUGH);
    let parser = pulldown_cmark::Parser::new_ext(text, options);
    let mut out = String::new();
    pulldown_cmark::html::push_html(&mut out, parser);
    out
}

/// Compiles a markdown document to the HTML fragment it denotes.
pub fn compile_markdown(text: &str) -> (r: String)
    ensures
        r@ == html_of(text@),
{
    markdown_to_html(text)
}

} // verus!
