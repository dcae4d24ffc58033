//! The Markdown writer that renders the documentation.
//!
//! Paragraphs and lists are built and written by the `markdown-gen` crate.
//! Nothing here is proved of that crate: each function below states what its
//! source shows, over a model of what a paragraph or a list holds, and the
//! bytes that the crate writes for a given element go by a name.

use markdown_gen::markdown::{AsMarkdown, List, Markdown, Paragraph};
use vstd::prelude::*;

verus! {

#[verifier::external_type_specification]
#[verifier::external_body]
pub struct ExParagraph<'a>(Paragraph<'a>);

#[verifier::external_type_specification]
#[verifier::external_body]
pub struct ExList<'a>(List<'a>);

/// One thing that the writer is given, or that a paragraph or a list holds.
pub enum Element {
    /// Plain text, which the writer escapes.
    Text(Seq<char>),
    /// Text set as inline code.
    Code(Seq<char>),
    /// A paragraph, with what it holds.
    Paragraph(Seq<Element>),
    /// A list, numbered or bulleted, with its items.
    List { numbered: bool, items: Seq<Element> },
    /// A heading of a level from 1 to 6.
    Heading { text: Seq<char>, level: nat },
}

/// What a paragraph holds, in the order in which it was appended.
pub uninterp spec fn paragraph_content(p: Paragraph) -> Seq<Element>;

/// Whether a list was made numbered.
pub uninterp spec fn list_numbered(l: List) -> bool;

/// The items of a list, in the order in which they were added. A list can
/// also have a title. The model leaves it out: every list here is made by
/// `new_list`, which gives it none, no function below sets one, and no
/// function of the library takes a list or a paragraph from its caller.
pub uninterp spec fn list_items(l: List) -> Seq<Element>;

/// The bytes that `Markdown::write` writes for an element.
pub uninterp spec fn markdown(element: Element) -> Seq<u8>;

/// The bytes that the writer writes for a paragraph of this content.
pub open spec fn paragraph_markdown(content: Seq<Element>) -> Seq<u8> {
    markdown(Element::Paragraph(content))
}

/// The bytes that the writer writes for a heading of this text and level.
pub open spec fn heading_markdown(text: Seq<char>, level: nat) -> Seq<u8> {
    markdown(Element::Heading { text, level })
}

/// `AsMarkdown::paragraph` on a string: a paragraph that holds the string as
/// its only element.
#[verifier::external_body]
pub(crate) fn text_paragraph<'a>(text: &'a str) -> (p: Paragraph<'a>)
    ensures
        paragraph_content(p) == seq![Element::Text(text@)],
{
    text.paragraph()
}

/// `AsMarkdown::code` and then `AsMarkdown::paragraph` on a string: a
/// paragraph that holds the string, set as inline code, as its only element.
#[verifier::external_body]
pub(crate) fn code_paragraph<'a>(text: &'a str) -> (p: Paragraph<'a>)
    ensures
        paragraph_content(p) == seq![Element::Code(text@)],
{
    text.code().paragraph()
}

/// `Paragraph::append` with a string: the paragraph holds one element more,
/// the string as plain text.
#[verifier::external_body]
pub(crate) fn append_text<'a>(p: Paragraph<'a>, text: &'a str) -> (q: Paragraph<'a>)
    ensures
        paragraph_content(q) == paragraph_content(p).push(Element::Text(text@)),
{
    p.append(text)
}

/// `Paragraph::append` with the result of `AsMarkdown::code`: the paragraph
/// holds one element more, the string as inline code.
#[verifier::external_body]
pub(crate) fn append_code<'a>(p: Paragraph<'a>, text: &'a str) -> (q: Paragraph<'a>)
    ensures
        paragraph_content(q) == paragraph_content(p).push(Element::Code(text@)),
{
    p.append(text.code())
}

/// `Paragraph::append` with a paragraph: the paragraph holds one element
/// more, the other paragraph with all that it holds.
#[verifier::external_body]
pub(crate) fn append_paragraph<'a>(p: Paragraph<'a>, inner: Paragraph<'a>) -> (q: Paragraph<'a>)
    ensures
        paragraph_content(q) == paragraph_content(p).push(
            Element::Paragraph(paragraph_content(inner)),
        ),
{
    p.append(inner)
}

/// `List::new`: a list without items.
#[verifier::external_body]
pub(crate) fn new_list<'a>(numbered: bool) -> (l: List<'a>)
    ensures
        list_numbered(l) == numbered,
        list_items(l) == Seq::<Element>::empty(),
{
    List::new(numbered)
}

/// `List::item` with a paragraph: the list holds one item more.
#[verifier::external_body]
pub(crate) fn list_item<'a>(l: List<'a>, item: Paragraph<'a>) -> (m: List<'a>)
    ensures
        list_numbered(m) == list_numbered(l),
        list_items(m) == list_items(l).push(Element::Paragraph(paragraph_content(item))),
{
    l.item(item)
}

/// `AsMarkdown::paragraph` on a list: a paragraph that holds the list as its
/// only element.
#[verifier::external_body]
pub(crate) fn list_paragraph<'a>(l: List<'a>) -> (p: Paragraph<'a>)
    ensures
        paragraph_content(p) == seq![
            (Element::List { numbered: list_numbered(l), items: list_items(l) }),
        ],
{
    l.paragraph()
}

/// `Markdown::write` with a paragraph, on a writer that appends to `out`.
/// What is appended depends on what the paragraph holds and on nothing else.
#[verifier::external_body]
pub(crate) fn write_paragraph(out: &mut Vec<u8>, p: &Paragraph)
    ensures
        final(out)@ == old(out)@ + markdown(Element::Paragraph(paragraph_content(*p))),
{
    let mut md = Markdown::new(std::mem::take(out));
    md.write(p).unwrap();
    *out = md.into_inner();
}

/// `Markdown::write` with the result of `AsMarkdown::heading` on a string, on
/// a writer that appends to `out`. The crate refuses a level outside 1 to 6.
#[verifier::external_body]
pub(crate) fn write_heading(out: &mut Vec<u8>, text: &str, level: usize)
    requires
        1 <= level <= 6,
    ensures
        final(out)@ == old(out)@ + markdown(
            (Element::Heading { text: text@, level: level as nat }),
        ),
{
    let mut md = Markdown::new(std::mem::take(out));
    md.write(text.heading(level)).unwrap();
    *out = md.into_inner();
}

} // verus!
