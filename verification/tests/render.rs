use docsync::render::{
    find_tagged, get_paragraphs, mark_lines, render_nodes, write_paragraphs, xml_to_markdown,
};
use docsync::xml::{children_of, descendants_of, node_has_tag, XmlKind, XmlNode};

fn render(xml: &str) -> String {
    String::from_utf8(xml_to_markdown(xml).unwrap()).unwrap()
}

fn element(depth: usize, name: &str, text: Option<&str>) -> XmlNode {
    XmlNode {
        depth,
        kind: XmlKind::Element { name: name.to_string(), text: text.map(|t| t.to_string()) },
    }
}

fn text(depth: usize, text: &str) -> XmlNode {
    XmlNode { depth, kind: XmlKind::Text(text.to_string()) }
}

#[test]
fn an_abstract_alone_renders_its_paragraph() {
    let doc = render("<Function><Abstract><Para>Does X.</Para></Abstract></Function>");
    assert_eq!(doc, "/// Does X\\.\n/// ");
    assert!(!doc.contains("Parameters"));
    assert!(!doc.contains("Returns"));
}

#[test]
fn a_named_parameter_renders_a_heading_and_a_list_item() {
    let doc = render(
        "<Function><Parameters><Parameter><Name>n</Name><Discussion><Para>count</Para>\
         </Discussion></Parameter></Parameters></Function>",
    );
    assert_eq!(doc, "/// # Parameters\n/// \n///    * ` n `\n///    \n///     count\n/// \n/// ");
}

#[test]
fn the_sections_come_in_their_order() {
    let doc = render(
        "<Function><ResultDiscussion><Para>r</Para></ResultDiscussion>\
         <Discussion><Para>d1</Para></Discussion>\
         <Parameters><Parameter><Name>p</Name></Parameter></Parameters>\
         <Abstract><Para>a</Para></Abstract>\
         <Discussion><Para>d2</Para><Para>d3</Para></Discussion></Function>",
    );
    assert_eq!(
        doc,
        "/// a\n/// \n/// d1\n/// \n/// d2\n/// \n/// d3\n/// \n/// # Parameters\n/// \n\
         ///    * ` p `\n/// \n/// \n/// # Returns\n/// r\n/// "
    );
}

#[test]
fn only_the_first_abstract_is_rendered() {
    let doc = render(
        "<Function><Abstract><Para>a</Para></Abstract><Abstract><Para>b</Para></Abstract>\
         </Function>",
    );
    assert_eq!(doc, "/// a\n/// ");
}

#[test]
fn an_emphasis_renders_as_inline_code() {
    let doc = render(
        "<Function><Abstract><Para>Uses <emphasized>x</emphasized> and <bold>y</bold>.</Para>\
         </Abstract></Function>",
    );
    assert_eq!(doc, "/// Uses ` x ` and y\\.\n/// ");
}

#[test]
fn inline_code_is_fenced_by_more_ticks_than_it_holds() {
    let doc = render(
        "<Function><Abstract><Para><emphasized>a``b</emphasized></Para></Abstract></Function>",
    );
    assert_eq!(doc, "/// ``` a``b ```\n/// ");
}

#[test]
fn plain_text_is_escaped() {
    let doc = render("<Function><Abstract><Para>a_b *c* [d](e) #f</Para></Abstract></Function>");
    assert_eq!(doc, "/// a\\_b \\*c\\* \\[d\\]\\(e\\) \\#f\n/// ");
}

#[test]
fn an_element_without_text_of_its_own_gives_the_text_below_it() {
    let doc = render(
        "<Function><Abstract><Para>a <bold><emphasized>b</emphasized> c</bold></Para>\
         </Abstract></Function>",
    );
    assert_eq!(doc, "/// a b c\n/// ");
}

#[test]
fn a_parameter_without_a_name_is_passed_over() {
    let doc = render(
        "<Function><Parameters><Parameter><Discussion><Para>lost</Para></Discussion>\
         </Parameter><Parameter><Name/><Discussion><Para>lost too</Para></Discussion>\
         </Parameter></Parameters></Function>",
    );
    assert_eq!(doc, "");
    let doc = render(
        "<Function><Parameters><Parameter><Discussion><Para>lost</Para></Discussion>\
         </Parameter><Parameter><Name>kept</Name></Parameter></Parameters></Function>",
    );
    assert_eq!(doc, "/// # Parameters\n/// \n///    * ` kept `\n/// \n/// ");
}

#[test]
fn a_comment_without_sections_renders_to_nothing() {
    assert_eq!(render("<Function><Name>f</Name></Function>"), "");
    assert_eq!(render("<Function/>"), "");
    assert_eq!(render_nodes(&vec![]), b"".to_vec());
}

#[test]
fn what_is_returned_stands_under_a_heading() {
    let doc = render("<Function><ResultDiscussion><Para>0</Para></ResultDiscussion></Function>");
    assert_eq!(doc, "/// # Returns\n/// 0\n/// ");
    let doc = render(
        "<Function><ResultDiscussion><Para>the sum</Para></ResultDiscussion></Function>",
    );
    let lines: Vec<&str> = doc.split('\n').collect();
    assert_eq!(lines[0], "/// # Returns");
    assert!(lines[1].contains("the sum"));
}

#[test]
fn the_two_headings_have_one_form() {
    let doc = render(
        "<Function><Parameters><Parameter><Name>n</Name></Parameter></Parameters>\
         <ResultDiscussion><Para>r</Para></ResultDiscussion></Function>",
    );
    assert!(doc.starts_with("/// # Parameters\n"));
    assert!(doc.contains("\n/// # Returns\n"));
}

#[test]
fn every_line_of_rendered_text_begins_with_the_marker() {
    let doc = render(
        "<Function><Abstract><Para>a</Para></Abstract><Discussion><Para> b</Para></Discussion>\
         <Parameters><Parameter><Name>n</Name><Discussion><Para>c</Para></Discussion>\
         </Parameter></Parameters><ResultDiscussion><Para>r</Para></ResultDiscussion>\
         </Function>",
    );
    assert!(!doc.ends_with('\n'));
    for line in doc.split('\n') {
        assert!(line.starts_with("/// "));
    }
}

#[test]
fn malformed_xml_is_an_error() {
    assert!(xml_to_markdown("<Function><Abstract>").is_err());
    assert!(xml_to_markdown("").is_err());
    assert!(xml_to_markdown("<a></b>").is_err());
    let e = xml_to_markdown("<a></b>").unwrap_err();
    assert!(!e.source.to_string().is_empty());
}

#[test]
fn mark_lines_marks_every_line() {
    assert_eq!(mark_lines(b"a\n\nb\n"), b"/// a\n/// \n/// b".to_vec());
    assert_eq!(mark_lines(b"a\r\nb"), b"/// a\n/// b".to_vec());
    assert_eq!(mark_lines(b"\n"), b"/// ".to_vec());
    assert_eq!(mark_lines(b""), b"".to_vec());
}

#[test]
fn nodes_given_by_hand_render_as_parsed_ones() {
    let nodes = vec![
        element(2, "Function", None),
        element(3, "Abstract", None),
        element(4, "Para", Some("Does X.")),
        text(5, "Does X."),
    ];
    assert_eq!(render_nodes(&nodes), b"/// Does X\\.\n/// ".to_vec());
}

#[test]
fn children_and_descendants_go_by_depth() {
    let nodes = vec![
        element(0, "a", None),
        element(1, "b", None),
        text(2, "x"),
        element(2, "c", None),
        text(3, "y"),
        element(1, "d", None),
        element(0, "e", None),
        element(1, "f", None),
    ];
    assert_eq!(children_of(&nodes, 0), vec![1, 5]);
    assert_eq!(children_of(&nodes, 1), vec![2, 3]);
    assert_eq!(children_of(&nodes, 5), Vec::<usize>::new());
    assert_eq!(children_of(&nodes, 7), Vec::<usize>::new());
    assert_eq!(descendants_of(&nodes, 1), vec![1, 2, 3, 4]);
    assert_eq!(descendants_of(&nodes, 0), vec![0, 1, 2, 3, 4, 5]);
    assert_eq!(descendants_of(&nodes, 6), vec![6, 7]);
    assert!(node_has_tag(&nodes[3], "c"));
    assert!(!node_has_tag(&nodes[3], "b"));
    assert!(!node_has_tag(&nodes[2], "x"));
    assert_eq!(find_tagged(&nodes, 0, "d"), Some(5));
    assert_eq!(find_tagged(&nodes, 0, "c"), None);
    assert_eq!(find_tagged(&nodes, 0, "f"), None);
}

#[test]
fn paragraphs_are_made_for_para_children_only() {
    let nodes = vec![
        element(0, "Abstract", None),
        element(1, "Para", Some("one")),
        text(2, "one"),
        element(1, "Verbatim", Some("no")),
        text(2, "no"),
        element(1, "Para", Some("two")),
        text(2, "two"),
    ];
    assert_eq!(get_paragraphs(&nodes, 0).len(), 2);
    assert_eq!(get_paragraphs(&nodes, 1).len(), 0);
    let mut out = b">".to_vec();
    write_paragraphs(&mut out, &nodes, 0);
    assert_eq!(out, b">one\n\ntwo\n\n".to_vec());
}
