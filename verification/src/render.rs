//! From a parsed comment to the documentation text.
//!
//! The sections of a comment are rendered in a fixed order: the abstract, the
//! discussions, the parameters that have a name, and what is returned. The
//! Markdown writer turns them into text, and every line of that text gets the
//! marker of a documentation comment in front.

use crate::markdown::{
    append_code, append_paragraph, append_text, code_paragraph, heading_markdown, list_item,
    list_items, list_numbered, list_paragraph, new_list, paragraph_content, paragraph_markdown,
    text_paragraph, write_heading, write_paragraph, Element,
};
use crate::replace::{lemma_reindented_lines, reindented};
use crate::text::{
    append_range, lemma_lines_are_single, lemma_lines_of_first, lemma_lines_of_single,
    lemma_spans_not_empty, lemma_spans_ordered, line_spans, lines_of, one_line, spaces,
    spans_view, split_lines, trimmed, NEWLINE, SLASH, SPACE,
};
use crate::xml::{
    children, children_of, descendants, descendants_of, has_tag, indices, node_has_tag,
    parse_nodes, parsed_nodes, text_of, KindModel, NodeModel, XmlKind, XmlNode,
};
use markdown_gen::markdown::Paragraph;
use vstd::prelude::*;

verus! {

/// What the text nodes among `ids` add to a paragraph.
pub open spec fn descendant_texts(nodes: Seq<NodeModel>, ids: Seq<int>) -> Seq<Element>
    decreases ids.len(),
{
    if ids.len() == 0 {
        Seq::empty()
    } else {
        descendant_texts(nodes, ids.drop_last()) + match nodes[ids.last()].kind {
            KindModel::Text(t) => seq![Element::Text(t)],
            _ => Seq::empty(),
        }
    }
}

/// What child `c` of a paragraph adds to it. Text stays text. An element
/// with text of its own gives that text: as inline code where the element is
/// an emphasis, as plain text otherwise. An element without text of its own
/// gives the text nodes below it.
pub open spec fn inline_content(nodes: Seq<NodeModel>, c: int) -> Seq<Element> {
    match nodes[c].kind {
        KindModel::Text(t) => seq![Element::Text(t)],
        KindModel::Element { name, text: Some(t) } => if name == "emphasized"@ {
            seq![Element::Code(t)]
        } else {
            seq![Element::Text(t)]
        },
        KindModel::Element { name, text: None } => descendant_texts(nodes, descendants(nodes, c)),
        KindModel::Other => Seq::empty(),
    }
}

/// What the children `ids` of a paragraph add to it, in their order.
pub open spec fn content_of(nodes: Seq<NodeModel>, ids: Seq<int>) -> Seq<Element>
    decreases ids.len(),
{
    if ids.len() == 0 {
        Seq::empty()
    } else {
        content_of(nodes, ids.drop_last()) + inline_content(nodes, ids.last())
    }
}

/// What the paragraph made for node `para` holds.
pub open spec fn para_content(nodes: Seq<NodeModel>, para: int) -> Seq<Element> {
    seq![Element::Text(""@)] + content_of(nodes, children(nodes, para))
}

/// What the paragraphs hold that are made for the `Para` elements among
/// `ids`, in their order.
pub open spec fn paragraph_contents(nodes: Seq<NodeModel>, ids: Seq<int>) -> Seq<Seq<Element>>
    decreases ids.len(),
{
    if ids.len() == 0 {
        Seq::empty()
    } else if has_tag(nodes[ids.last()], "Para"@) {
        paragraph_contents(nodes, ids.drop_last()).push(para_content(nodes, ids.last()))
    } else {
        paragraph_contents(nodes, ids.drop_last())
    }
}

/// What each of `paras` holds.
pub open spec fn contents(paras: Seq<Paragraph>) -> Seq<Seq<Element>> {
    Seq::new(paras.len(), |k: int| paragraph_content(paras[k]))
}

/// The text that the writer gives for paragraphs of these contents, one
/// after the other.
pub open spec fn written(all: Seq<Seq<Element>>) -> Seq<u8>
    decreases all.len(),
{
    if all.len() == 0 {
        Seq::empty()
    } else {
        written(all.drop_last()) + paragraph_markdown(all.last())
    }
}

/// The paragraph for the element `para`.
fn paragraph_for<'n>(nodes: &'n Vec<XmlNode>, para: usize) -> (item: Paragraph<'n>)
    requires
        para < nodes.len(),
    ensures
        paragraph_content(item) == para_content(nodes.deep_view(), para as int),
{
    let ghost model = nodes.deep_view();
    let kids = children_of(nodes, para);
    let ghost ids = indices(kids@);
    let mut item = text_paragraph("");
    let mut k: usize = 0;
    while k < kids.len()
        invariant
            k <= kids.len(),
            model == nodes.deep_view(),
            ids == indices(kids@),
            forall|m: int| 0 <= m < ids.len() ==> 0 <= #[trigger] ids[m] < nodes.len(),
            paragraph_content(item) == seq![Element::Text(""@)] + content_of(
                model,
                ids.take(k as int),
            ),
        decreases kids.len() - k,
    {
        let c = kids[k];
        let ghost before = paragraph_content(item);
        proof {
            assert(ids[k as int] == c);
            assert(ids.take(k + 1).drop_last() == ids.take(k as int));
            assert(ids.take(k + 1).last() == c);
            assert(model[c as int] == nodes[c as int]@);
        }
        match &nodes[c].kind {
            XmlKind::Text(t) => {
                item = append_text(item, t.as_str());
            },
            XmlKind::Element { name: _, text: Some(t) } => {
                if node_has_tag(&nodes[c], "emphasized") {
                    item = append_code(item, t.as_str());
                } else {
                    item = append_text(item, t.as_str());
                }
            },
            XmlKind::Element { name: _, text: None } => {
                let below = descendants_of(nodes, c);
                let ghost low = indices(below@);
                let mut m: usize = 0;
                while m < below.len()
                    invariant
                        m <= below.len(),
                        model == nodes.deep_view(),
                        low == indices(below@),
                        forall|q: int| 0 <= q < low.len() ==> 0 <= #[trigger] low[q] < nodes.len(),
                        paragraph_content(item) == before + descendant_texts(
                            model,
                            low.take(m as int),
                        ),
                    decreases below.len() - m,
                {
                    let d = below[m];
                    proof {
                        assert(low[m as int] == d);
                        assert(low.take(m + 1).drop_last() == low.take(m as int));
                        assert(low.take(m + 1).last() == d);
                        assert(model[d as int] == nodes[d as int]@);
                    }
                    match &nodes[d].kind {
                        XmlKind::Text(t) => {
                            item = append_text(item, t.as_str());
                        },
                        _ => {},
                    }
                    m = m + 1;
                }
                assert(low.take(below.len() as int) == low);
            },
            XmlKind::Other => {},
        }
        assert(paragraph_content(item) == before + inline_content(model, c as int));
        k = k + 1;
    }
    assert(ids.take(kids.len() as int) == ids);
    item
}

/// The paragraphs of the `Para` elements that are children of `parent`.
pub fn get_paragraphs<'n>(nodes: &'n Vec<XmlNode>, parent: usize) -> (paras: Vec<Paragraph<'n>>)
    requires
        parent < nodes.len(),
    ensures
        contents(paras@) == paragraph_contents(
            nodes.deep_view(),
            children(nodes.deep_view(), parent as int),
        ),
{
    let ghost model = nodes.deep_view();
    let kids = children_of(nodes, parent);
    let ghost ids = indices(kids@);
    let mut paras: Vec<Paragraph<'n>> = Vec::new();
    let mut k: usize = 0;
    assert(contents(paras@) == Seq::<Seq<Element>>::empty());
    while k < kids.len()
        invariant
            k <= kids.len(),
            model == nodes.deep_view(),
            ids == indices(kids@),
            forall|m: int| 0 <= m < ids.len() ==> 0 <= #[trigger] ids[m] < nodes.len(),
            contents(paras@) == paragraph_contents(model, ids.take(k as int)),
        decreases kids.len() - k,
    {
        let c = kids[k];
        proof {
            assert(ids[k as int] == c);
            assert(ids.take(k + 1).drop_last() == ids.take(k as int));
            assert(ids.take(k + 1).last() == c);
            assert(model[c as int] == nodes[c as int]@);
        }
        if node_has_tag(&nodes[c], "Para") {
            let ghost before = contents(paras@);
            let item = paragraph_for(nodes, c);
            paras.push(item);
            assert(contents(paras@) == before.push(para_content(model, c as int)));
        }
        k = k + 1;
    }
    assert(ids.take(kids.len() as int) == ids);
    paras
}

/// Writes the paragraphs of the `Para` elements that are children of
/// `parent`.
pub fn write_paragraphs(out: &mut Vec<u8>, nodes: &Vec<XmlNode>, parent: usize)
    requires
        parent < nodes.len(),
    ensures
        final(out)@ == old(out)@ + written(
            paragraph_contents(nodes.deep_view(), children(nodes.deep_view(), parent as int)),
        ),
{
    let paras = get_paragraphs(nodes, parent);
    let ghost all = contents(paras@);
    let mut k: usize = 0;
    while k < paras.len()
        invariant
            k <= paras.len(),
            all == contents(paras@),
            out@ == old(out)@ + written(all.take(k as int)),
        decreases paras.len() - k,
    {
        proof {
            assert(all.take(k + 1).drop_last() == all.take(k as int));
            assert(all.take(k + 1).last() == paragraph_content(paras@[k as int]));
        }
        write_paragraph(out, &paras[k]);
        k = k + 1;
    }
    assert(all.take(paras.len() as int) == all);
}

/// The first of `ids` from place `k` on whose node has the tag `name`.
pub open spec fn first_tagged_from(
    nodes: Seq<NodeModel>,
    ids: Seq<int>,
    name: Seq<char>,
    k: int,
) -> Option<int>
    decreases ids.len() - k,
{
    if k < 0 || k >= ids.len() {
        None
    } else if has_tag(nodes[ids[k]], name) {
        Some(ids[k])
    } else {
        first_tagged_from(nodes, ids, name, k + 1)
    }
}

/// The first child of `parent` whose node has the tag `name`.
pub open spec fn first_tagged(nodes: Seq<NodeModel>, parent: int, name: Seq<char>) -> Option<int> {
    first_tagged_from(nodes, children(nodes, parent), name, 0)
}

/// The first child of `parent` that is an element with the tag `name`.
pub fn find_tagged(nodes: &Vec<XmlNode>, parent: usize, name: &str) -> (found: Option<usize>)
    requires
        parent < nodes.len(),
    ensures
        found is Some <==> first_tagged(nodes.deep_view(), parent as int, name@) is Some,
        found matches Some(c) ==> c < nodes.len() && has_tag(nodes.deep_view()[c as int], name@)
            && first_tagged(nodes.deep_view(), parent as int, name@) == Some(c as int),
{
    let ghost model = nodes.deep_view();
    let kids = children_of(nodes, parent);
    let ghost ids = indices(kids@);
    let mut k: usize = 0;
    while k < kids.len()
        invariant
            k <= kids.len(),
            model == nodes.deep_view(),
            ids == indices(kids@),
            ids == children(model, parent as int),
            forall|m: int| 0 <= m < ids.len() ==> 0 <= #[trigger] ids[m] < nodes.len(),
            first_tagged_from(model, ids, name@, k as int) == first_tagged(
                model,
                parent as int,
                name@,
            ),
        decreases kids.len() - k,
    {
        let c = kids[k];
        proof {
            assert(ids[k as int] == c);
            assert(model[c as int] == nodes[c as int]@);
        }
        if node_has_tag(&nodes[c], name) {
            return Some(c);
        }
        k = k + 1;
    }
    None
}

/// What one discussion adds to the list item of a parameter: a break, and
/// then the paragraph, for each of its paragraphs.
pub open spec fn discussion_items(all: Seq<Seq<Element>>) -> Seq<Element>
    decreases all.len(),
{
    if all.len() == 0 {
        Seq::empty()
    } else {
        discussion_items(all.drop_last()) + seq![
            Element::Text("\n\n "@),
            Element::Paragraph(all.last()),
        ]
    }
}

/// What the children `ids` of a parameter add to its list item: the
/// discussions among them, in their order.
pub open spec fn entry_discussions(nodes: Seq<NodeModel>, ids: Seq<int>) -> Seq<Element>
    decreases ids.len(),
{
    if ids.len() == 0 {
        Seq::empty()
    } else if has_tag(nodes[ids.last()], "Discussion"@) {
        entry_discussions(nodes, ids.drop_last()) + discussion_items(
            paragraph_contents(nodes, children(nodes, ids.last())),
        )
    } else {
        entry_discussions(nodes, ids.drop_last())
    }
}

/// The name of parameter `param`: the text of the first `Name` among its
/// children.
pub open spec fn param_name(nodes: Seq<NodeModel>, param: int) -> Option<Seq<char>> {
    match first_tagged(nodes, param, "Name"@) {
        Some(n) => text_of(nodes[n]),
        None => None,
    }
}

/// The list item of parameter `param`, whose name is `name`: the name as
/// inline code, and then its discussions.
pub open spec fn entry_content(nodes: Seq<NodeModel>, param: int, name: Seq<char>) -> Seq<Element> {
    seq![Element::Code(name)] + entry_discussions(nodes, children(nodes, param))
}

/// The items of the list of parameters: one for each `Parameter` among `ids`
/// that has a name.
pub open spec fn list_entries(nodes: Seq<NodeModel>, ids: Seq<int>) -> Seq<Element>
    decreases ids.len(),
{
    if ids.len() == 0 {
        Seq::empty()
    } else if has_tag(nodes[ids.last()], "Parameter"@) && param_name(nodes, ids.last()) is Some {
        list_entries(nodes, ids.drop_last()).push(
            Element::Paragraph(entry_content(nodes, ids.last(), param_name(nodes, ids.last())->0)),
        )
    } else {
        list_entries(nodes, ids.drop_last())
    }
}

/// The text for the parameters under `params`: nothing where none has a
/// name, else a heading and the list.
pub open spec fn params_markdown(nodes: Seq<NodeModel>, params: int) -> Seq<u8> {
    let items = list_entries(nodes, children(nodes, params));
    if items.len() == 0 {
        Seq::empty()
    } else {
        heading_markdown("Parameters"@, 1) + paragraph_markdown(
            seq![(Element::List { numbered: false, items }), Element::Text("\n"@)],
        )
    }
}

/// The text for the paragraphs of section `section`.
pub open spec fn section_markdown(nodes: Seq<NodeModel>, section: int) -> Seq<u8> {
    written(paragraph_contents(nodes, children(nodes, section)))
}

/// The text for the discussions among `ids`, in their order.
pub open spec fn discussions_markdown(nodes: Seq<NodeModel>, ids: Seq<int>) -> Seq<u8>
    decreases ids.len(),
{
    if ids.len() == 0 {
        Seq::empty()
    } else if has_tag(nodes[ids.last()], "Discussion"@) {
        discussions_markdown(nodes, ids.drop_last()) + section_markdown(nodes, ids.last())
    } else {
        discussions_markdown(nodes, ids.drop_last())
    }
}

/// The text that the writer gives for a comment: the abstract, the
/// discussions, the parameters under their heading, and what is returned
/// under a heading of its own.
pub open spec fn comment_markdown(nodes: Seq<NodeModel>) -> Seq<u8> {
    if nodes.len() == 0 {
        Seq::empty()
    } else {
        (match first_tagged(nodes, 0, "Abstract"@) {
            Some(a) => section_markdown(nodes, a),
            None => Seq::empty(),
        }) + discussions_markdown(nodes, children(nodes, 0)) + (match first_tagged(
            nodes,
            0,
            "Parameters"@,
        ) {
            Some(p) => params_markdown(nodes, p),
            None => Seq::empty(),
        }) + (match first_tagged(nodes, 0, "ResultDiscussion"@) {
            Some(r) => heading_markdown("Returns"@, 1) + section_markdown(nodes, r),
            None => Seq::empty(),
        })
    }
}

/// The list item of the parameter `param`, whose name is `name`.
fn entry_for<'n>(nodes: &'n Vec<XmlNode>, param: usize, name: &'n str) -> (item: Paragraph<'n>)
    requires
        param < nodes.len(),
    ensures
        paragraph_content(item) == entry_content(nodes.deep_view(), param as int, name@),
{
    let ghost model = nodes.deep_view();
    let kids = children_of(nodes, param);
    let ghost ids = indices(kids@);
    let mut item = code_paragraph(name);
    let mut k: usize = 0;
    while k < kids.len()
        invariant
            k <= kids.len(),
            model == nodes.deep_view(),
            ids == indices(kids@),
            forall|m: int| 0 <= m < ids.len() ==> 0 <= #[trigger] ids[m] < nodes.len(),
            paragraph_content(item) == seq![Element::Code(name@)] + entry_discussions(
                model,
                ids.take(k as int),
            ),
        decreases kids.len() - k,
    {
        let c = kids[k];
        proof {
            assert(ids[k as int] == c);
            assert(ids.take(k + 1).drop_last() == ids.take(k as int));
            assert(ids.take(k + 1).last() == c);
            assert(model[c as int] == nodes[c as int]@);
        }
        if node_has_tag(&nodes[c], "Discussion") {
            let ghost before = paragraph_content(item);
            let mut paras = get_paragraphs(nodes, c);
            let ghost all = contents(paras@);
            let ghost total = paras.len();
            while paras.len() > 0
                invariant
                    paras.len() <= total,
                    total == all.len(),
                    contents(paras@) == all.skip(total - paras.len()),
                    paragraph_content(item) == before + discussion_items(
                        all.take(total - paras.len()),
                    ),
                decreases paras.len(),
            {
                let ghost done = total - paras.len();
                let ghost rest = contents(paras@);
                let para = paras.remove(0);
                proof {
                    assert(paragraph_content(para) == rest[0]);
                    assert(rest[0] == all[done]);
                    assert(contents(paras@) == all.skip(done + 1)) by {
                        assert forall|q: int| 0 <= q < paras@.len() implies contents(paras@)[q]
                            == all.skip(done + 1)[q] by {
                            assert(contents(paras@)[q] == rest[q + 1]);
                        }
                    }
                    assert(all.take(done + 1).drop_last() == all.take(done));
                    assert(all.take(done + 1).last() == all[done]);
                }
                item = append_text(item, "\n\n ");
                item = append_paragraph(item, para);
                assert(paragraph_content(item) == before + discussion_items(all.take(done + 1)));
            }
            assert(all.take(total as int) == all);
        }
        k = k + 1;
    }
    assert(ids.take(kids.len() as int) == ids);
    item
}

/// Writes the heading and the list of the parameters under `params` that
/// have a name; nothing where none has one.
fn write_parameters(out: &mut Vec<u8>, nodes: &Vec<XmlNode>, params: usize)
    requires
        params < nodes.len(),
    ensures
        final(out)@ == old(out)@ + params_markdown(nodes.deep_view(), params as int),
{
    let ghost model = nodes.deep_view();
    let kids = children_of(nodes, params);
    let ghost ids = indices(kids@);
    let mut has_params = false;
    let mut list = new_list(false);
    let mut k: usize = 0;
    while k < kids.len()
        invariant
            k <= kids.len(),
            model == nodes.deep_view(),
            ids == indices(kids@),
            forall|m: int| 0 <= m < ids.len() ==> 0 <= #[trigger] ids[m] < nodes.len(),
            out@ == old(out)@,
            list_numbered(list) == false,
            list_items(list) == list_entries(model, ids.take(k as int)),
            has_params == (list_entries(model, ids.take(k as int)).len() > 0),
        decreases kids.len() - k,
    {
        let c = kids[k];
        let ghost before = list_entries(model, ids.take(k as int));
        proof {
            assert(ids[k as int] == c);
            assert(ids.take(k + 1).drop_last() == ids.take(k as int));
            assert(ids.take(k + 1).last() == c);
            assert(model[c as int] == nodes[c as int]@);
        }
        if node_has_tag(&nodes[c], "Parameter") {
            match find_tagged(nodes, c, "Name") {
                Some(n) => {
                    assert(model[n as int] == nodes[n as int]@);
                    match &nodes[n].kind {
                        XmlKind::Element { name: _, text: Some(name) } => {
                            assert(param_name(model, c as int) == Some(name@));
                            has_params = true;
                            let item = entry_for(nodes, c, name.as_str());
                            list = list_item(list, item);
                            assert(list_entries(model, ids.take(k + 1)) == before.push(
                                Element::Paragraph(entry_content(model, c as int, name@)),
                            ));
                        },
                        _ => {
                            assert(param_name(model, c as int) is None);
                        },
                    }
                },
                None => {
                    assert(param_name(model, c as int) is None);
                },
            }
        }
        k = k + 1;
    }
    assert(ids.take(kids.len() as int) == ids);
    if has_params {
        write_heading(out, "Parameters", 1);
        let ghost items = list_items(list);
        let para = append_text(list_paragraph(list), "\n");
        assert(paragraph_content(para) == seq![
            (Element::List { numbered: false, items }),
            Element::Text("\n"@),
        ]);
        write_paragraph(out, &para);
    }
}

/// Writes the sections of the comment in their order.
fn write_comment(out: &mut Vec<u8>, nodes: &Vec<XmlNode>)
    ensures
        final(out)@ == old(out)@ + comment_markdown(nodes.deep_view()),
{
    let ghost model = nodes.deep_view();
    if nodes.len() == 0 {
        return ;
    }
    match find_tagged(nodes, 0, "Abstract") {
        Some(a) => {
            write_paragraphs(out, nodes, a);
        },
        None => {},
    }
    let ghost first = out@;
    let kids = children_of(nodes, 0);
    let ghost ids = indices(kids@);
    let mut k: usize = 0;
    while k < kids.len()
        invariant
            k <= kids.len(),
            model == nodes.deep_view(),
            ids == indices(kids@),
            forall|m: int| 0 <= m < ids.len() ==> 0 <= #[trigger] ids[m] < nodes.len(),
            out@ == first + discussions_markdown(model, ids.take(k as int)),
        decreases kids.len() - k,
    {
        let c = kids[k];
        proof {
            assert(ids[k as int] == c);
            assert(ids.take(k + 1).drop_last() == ids.take(k as int));
            assert(ids.take(k + 1).last() == c);
            assert(model[c as int] == nodes[c as int]@);
        }
        if node_has_tag(&nodes[c], "Discussion") {
            write_paragraphs(out, nodes, c);
        }
        k = k + 1;
    }
    assert(ids.take(kids.len() as int) == ids);
    let ghost second = out@;
    match find_tagged(nodes, 0, "Parameters") {
        Some(p) => {
            write_parameters(out, nodes, p);
        },
        None => {},
    }
    let ghost third = out@;
    match find_tagged(nodes, 0, "ResultDiscussion") {
        Some(r) => {
            write_heading(out, "Returns", 1);
            write_paragraphs(out, nodes, r);
            assert(out@ == third + (heading_markdown("Returns"@, 1) + section_markdown(
                model,
                r as int,
            )));
        },
        None => {},
    }
}

/// The marker of a documentation comment: three slashes and a space.
pub open spec fn marker() -> Seq<u8> {
    seq![SLASH, SLASH, SLASH, SPACE]
}

/// Lines `k` and onward, each behind the marker, with a line feed between
/// one line and the next.
pub open spec fn marked_from(lines: Seq<Seq<u8>>, k: int) -> Seq<u8>
    decreases lines.len() - k,
{
    if k < 0 || k >= lines.len() {
        Seq::empty()
    } else if k == 0 {
        marker() + lines[k] + marked_from(lines, k + 1)
    } else {
        seq![NEWLINE] + marker() + lines[k] + marked_from(lines, k + 1)
    }
}

/// `text` with the marker in front of each of its lines. No line feed
/// follows the last line.
pub open spec fn marked(text: Seq<u8>) -> Seq<u8> {
    marked_from(lines_of(text), 0)
}

/// Whether `line` begins with the marker of a documentation comment.
pub open spec fn begins_with_marker(line: Seq<u8>) -> bool {
    line.len() >= marker().len() && line.subrange(0, marker().len() as int) == marker()
}

proof fn lemma_trimmed_keeps_marker(line: Seq<u8>)
    ensures
        begins_with_marker(marker() + line),
        begins_with_marker(trimmed(marker() + line)),
{
    let whole = marker() + line;
    assert(whole.subrange(0, 4) == marker());
    if line.len() > 0 {
        assert(whole.drop_last().subrange(0, 4) == marker());
    } else {
        assert(whole == marker());
        assert(whole.last() == SPACE);
    }
}

proof fn lemma_marked_tail(lines: Seq<Seq<u8>>, k: int, x: Seq<u8>)
    requires
        1 <= k <= lines.len(),
        forall|j: int| 0 <= j < lines.len() ==> one_line(#[trigger] lines[j]),
        one_line(x),
        x.len() > 0,
    ensures
        ({
            let got = lines_of(x + marked_from(lines, k));
            &&& got.len() == lines.len() - k + 1
            &&& got[0] == x || got[0] == trimmed(x)
            &&& forall|j: int|
                k <= j < lines.len() ==> #[trigger] got[j - k + 1] == marker() + lines[j] || got[j
                    - k + 1] == trimmed(marker() + lines[j])
        }),
    decreases lines.len() - k,
{
    if k < lines.len() {
        let head = marker() + lines[k];
        let rest = head + marked_from(lines, k + 1);
        assert(one_line(head)) by {
            assert(one_line(lines[k]));
            assert forall|i: int| 0 <= i < head.len() implies head[i] != NEWLINE by {
                if i >= 4 {
                    assert(head[i] == lines[k][i - 4]);
                }
            }
        }
        assert(x + marked_from(lines, k) =~= x + seq![NEWLINE] + rest) by {
            assert(marked_from(lines, k) == seq![NEWLINE] + marker() + lines[k] + marked_from(
                lines,
                k + 1,
            ));
        }
        lemma_lines_of_first(x, rest);
        lemma_marked_tail(lines, k + 1, head);
        let got = lines_of(x + marked_from(lines, k));
        let inner = lines_of(rest);
        assert(got == seq![trimmed(x)] + inner);
        assert forall|j: int| k <= j < lines.len() implies #[trigger] got[j - k + 1] == marker()
            + lines[j] || got[j - k + 1] == trimmed(marker() + lines[j]) by {
            assert(got[j - k + 1] == inner[j - k]);
            if j > k {
                assert(inner[j - (k + 1) + 1] == marker() + lines[j] || inner[j - (k + 1) + 1]
                    == trimmed(marker() + lines[j]));
            }
        }
    } else {
        assert(marked_from(lines, k) == Seq::<u8>::empty());
        assert(x + marked_from(lines, k) =~= x);
        lemma_lines_of_single(x);
    }
}

/// The lines of a marked text: as many as the text has, and each begins
/// with the marker. So no line of it is empty, and none begins with a space.
pub proof fn lemma_marked_lines(text: Seq<u8>)
    ensures
        lines_of(marked(text)).len() == lines_of(text).len(),
        forall|i: int|
            0 <= i < lines_of(marked(text)).len() ==> begins_with_marker(
                #[trigger] lines_of(marked(text))[i],
            ),
        text.len() > 0 ==> marked(text).len() > 0,
{
    let lines = lines_of(text);
    if text.len() > 0 {
        lemma_spans_not_empty(text, 0, 0);
    }
    if lines.len() == 0 {
        assert(marked(text) == Seq::<u8>::empty());
        assert(line_spans(Seq::<u8>::empty()).len() == 0);
    } else {
        lemma_lines_are_single(text);
        let head = marker() + lines[0];
        assert(one_line(head)) by {
            assert(one_line(lines[0]));
            assert forall|i: int| 0 <= i < head.len() implies head[i] != NEWLINE by {
                if i >= 4 {
                    assert(head[i] == lines[0][i - 4]);
                }
            }
        }
        assert(marked(text) =~= head + marked_from(lines, 1));
        lemma_marked_tail(lines, 1, head);
        let got = lines_of(marked(text));
        assert forall|i: int| 0 <= i < got.len() implies begins_with_marker(#[trigger] got[i]) by {
            lemma_trimmed_keeps_marker(lines[i]);
            if i > 0 {
                assert(got[i - 1 + 1] == marker() + lines[i] || got[i - 1 + 1] == trimmed(
                    marker() + lines[i],
                ));
            }
        }
    }
}

/// The lines of documentation as it is spliced in at a column other than
/// zero. The first line begins with the marker. Every later line begins
/// with exactly `column` spaces: the marker follows them. The last line is
/// `column` spaces and nothing else.
pub proof fn lemma_spliced_documentation_lines(text: Seq<u8>, column: nat)
    requires
        column > 0,
        text.len() > 0,
    ensures
        ({
            let after = lines_of(reindented(marked(text), column));
            &&& after.len() == lines_of(text).len() + 1
            &&& begins_with_marker(after[0])
            &&& forall|i: int|
                1 <= i < after.len() - 1 ==> (#[trigger] after[i]).len() >= column
                    && after[i].subrange(0, column as int) == spaces(column) && begins_with_marker(
                    after[i].subrange(column as int, after[i].len() as int),
                )
            &&& after[after.len() - 1] == spaces(column)
        }),
{
    let doc = marked(text);
    lemma_marked_lines(text);
    lemma_reindented_lines(doc, column);
    let before = lines_of(doc);
    let after = lines_of(reindented(doc, column));
    assert(begins_with_marker(after[0])) by {
        lemma_trimmed_stays_marked(before[0]);
    }
    assert forall|i: int| 1 <= i < after.len() - 1 implies (#[trigger] after[i]).len() >= column
        && after[i].subrange(0, column as int) == spaces(column) && begins_with_marker(
        after[i].subrange(column as int, after[i].len() as int),
    ) by {
        lemma_trimmed_stays_marked(before[i]);
        let rest = trimmed(before[i]);
        assert(after[i] == spaces(column) + rest);
        assert(after[i].subrange(0, column as int) == spaces(column));
        assert(after[i].subrange(column as int, after[i].len() as int) == rest);
    }
}

proof fn lemma_trimmed_stays_marked(line: Seq<u8>)
    requires
        begins_with_marker(line),
    ensures
        begins_with_marker(trimmed(line)),
{
    if line.len() > 4 {
        assert(line.drop_last().subrange(0, 4) == line.subrange(0, 4));
    } else {
        assert(line == marker());
        assert(line.last() == SPACE);
    }
}

/// The documentation that a comment of these nodes gives.
pub open spec fn documentation(nodes: Seq<NodeModel>) -> Seq<u8> {
    marked(comment_markdown(nodes))
}

/// The documentation that a comment of this XML text gives; nothing where
/// the text is refused.
pub open spec fn rendered(xml: Seq<char>) -> Option<Seq<u8>> {
    match parsed_nodes(xml) {
        Some(nodes) => Some(documentation(nodes)),
        None => None,
    }
}

/// Puts the marker of a documentation comment in front of each line of
/// `text`.
pub fn mark_lines(text: &[u8]) -> (out: Vec<u8>)
    ensures
        out@ == marked(text@),
{
    let mut out: Vec<u8> = Vec::new();
    let lines = split_lines(text);
    proof {
        lemma_spans_ordered(text@, 0, 0);
    }
    let ghost all = lines_of(text@);
    let mut k: usize = 0;
    while k < lines.len()
        invariant
            k <= lines.len(),
            spans_view(lines@) == line_spans(text@),
            all == lines_of(text@),
            forall|j: int|
                0 <= j < line_spans(text@).len() ==> {
                    let sp = #[trigger] line_spans(text@)[j];
                    0 <= sp.0 <= sp.1 <= text@.len()
                },
            out@ + marked_from(all, k as int) == marked_from(all, 0),
        decreases lines.len() - k,
    {
        let span = lines[k];
        proof {
            assert(spans_view(lines@)[k as int] == (span.start as int, span.end as int));
            assert(line_spans(text@)[k as int] == (span.start as int, span.end as int));
            assert(all[k as int] == text@.subrange(span.start as int, span.end as int));
        }
        let ghost before = out@;
        if k > 0 {
            out.push(NEWLINE);
        }
        out.push(SLASH);
        out.push(SLASH);
        out.push(SLASH);
        out.push(SPACE);
        append_range(&mut out, text, span.start, span.end);
        proof {
            let rest = marked_from(all, k + 1);
            if k > 0 {
                assert(out@ == before + (seq![NEWLINE] + marker() + all[k as int]));
                assert(out@ + rest == before + (seq![NEWLINE] + marker() + all[k as int] + rest));
            } else {
                assert(out@ == before + (marker() + all[k as int]));
                assert(out@ + rest == before + (marker() + all[k as int] + rest));
            }
        }
        k = k + 1;
    }
    assert(out@ == marked_from(all, 0)) by {
        assert(marked_from(all, k as int) == Seq::<u8>::empty());
    }
    out
}

/// Renders the comment whose nodes are `nodes`, the root element first.
pub fn render_nodes(nodes: &Vec<XmlNode>) -> (doc: Vec<u8>)
    ensures
        doc@ == documentation(nodes.deep_view()),
{
    let mut written: Vec<u8> = Vec::new();
    write_comment(&mut written, nodes);
    assert(written@ == comment_markdown(nodes.deep_view()));
    mark_lines(written.as_slice())
}

/// A comment that is not well-formed XML, with what the parser said of it.
#[derive(Debug)]
pub struct RenderError {
    pub source: roxmltree::Error,
}

/// Renders the comment that `xml` holds. A text that the parser refuses is
/// an error; every other text has its documentation.
pub fn xml_to_markdown(xml: &str) -> (doc: Result<Vec<u8>, RenderError>)
    ensures
        match doc {
            Ok(text) => rendered(xml@) == Some(text@),
            Err(_) => rendered(xml@) is None,
        },
{
    match parse_nodes(xml) {
        Ok(nodes) => Ok(render_nodes(&nodes)),
        Err(source) => Err(RenderError { source }),
    }
}

} // verus!
