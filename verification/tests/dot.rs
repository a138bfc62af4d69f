use debugdump::dot::{push_escaped, push_quoted, Attr, DotWriter};
use debugdump::text::{chars_of, push_decimal, push_hexadecimal};

fn attr(key: &str, value: &str) -> Attr {
    Attr { key: key.to_string(), value: value.to_string() }
}

#[test]
fn empty_directed_graph() {
    let w = DotWriter::begin(true, "g");
    assert_eq!(w.finish(), "digraph \"g\" {\n}\n");
}

#[test]
fn empty_undirected_graph() {
    let w = DotWriter::begin(false, "a \"b\"");
    assert_eq!(w.finish(), "graph \"a \\\"b\\\"\" {\n}\n");
}

#[test]
fn statements_are_indented_by_depth() {
    let mut w = DotWriter::begin(true, "g");
    w.scope_attr("rankdir", "LR");
    w.node("a", &vec![]);
    w.open_cluster("one");
    assert_eq!(w.open_clusters(), 1);
    w.scope_attr("label", "One");
    w.node("b", &vec![attr("shape", "box"), attr("label", "B")]);
    w.open_cluster("two");
    w.edge("a", "b", true, &vec![attr("color", "red")]);
    w.close_cluster();
    w.close_cluster();
    w.edge("b", "a", false, &vec![]);
    assert_eq!(w.open_clusters(), 0);
    assert_eq!(
        w.finish(),
        "digraph \"g\" {\n\
         \x20 \"rankdir\"=\"LR\";\n\
         \x20 \"a\";\n\
         \x20 subgraph \"cluster_one\" {\n\
         \x20   \"label\"=\"One\";\n\
         \x20   \"b\" [\"shape\"=\"box\", \"label\"=\"B\"];\n\
         \x20   subgraph \"cluster_two\" {\n\
         \x20     \"a\" -> \"b\" [\"color\"=\"red\"];\n\
         \x20   }\n\
         \x20 }\n\
         \x20 \"b\" -> \"a\" [\"dir\"=\"none\"];\n\
         }\n"
    );
}

#[test]
fn finish_closes_what_is_open_in_stack_order() {
    let mut w = DotWriter::begin(false, "g");
    w.open_cluster("a");
    w.open_cluster("b");
    w.edge("x", "y", true, &vec![attr("k", "v")]);
    assert_eq!(
        w.finish(),
        "graph \"g\" {\n\
         \x20 subgraph \"cluster_a\" {\n\
         \x20   subgraph \"cluster_b\" {\n\
         \x20     \"x\" -- \"y\" [\"k\"=\"v\"];\n\
         \x20   }\n\
         \x20 }\n\
         }\n"
    );
}

#[test]
fn closing_with_nothing_open_changes_nothing() {
    let mut w = DotWriter::begin(true, "g");
    w.close_cluster();
    assert_eq!(w.open_clusters(), 0);
    assert_eq!(w.finish(), "digraph \"g\" {\n}\n");
}

#[test]
fn an_undirected_edge_keeps_its_attributes() {
    let mut w = DotWriter::begin(true, "g");
    w.edge("a", "b", false, &vec![attr("style", "dashed")]);
    assert_eq!(
        w.finish(),
        "digraph \"g\" {\n  \"a\" -> \"b\" [\"style\"=\"dashed\", \"dir\"=\"none\"];\n}\n"
    );
}

#[test]
fn quotes_backslashes_and_newlines_are_escaped() {
    let mut s = String::from(">");
    push_escaped(&mut s, "a\"b\\c\nd");
    assert_eq!(s, ">a\\\"b\\\\c\\nd");
    let mut q = String::new();
    push_quoted(&mut q, "x\"y");
    assert_eq!(q, "\"x\\\"y\"");
    let mut e = String::new();
    push_quoted(&mut e, "");
    assert_eq!(e, "\"\"");
}

#[test]
fn numbers_are_written_without_leading_zeros() {
    let mut s = String::new();
    push_decimal(&mut s, 0);
    s.push(' ');
    push_decimal(&mut s, 9);
    s.push(' ');
    push_decimal(&mut s, 10);
    s.push(' ');
    push_decimal(&mut s, 4096);
    s.push(' ');
    push_hexadecimal(&mut s, 0);
    s.push(' ');
    push_hexadecimal(&mut s, 255);
    s.push(' ');
    push_hexadecimal(&mut s, 0x10ffff);
    assert_eq!(s, "0 9 10 4096 0 ff 10ffff");
}

#[test]
fn characters_are_read_in_order() {
    assert_eq!(chars_of("aé✓"), vec!['a', 'é', '✓']);
    assert_eq!(chars_of(""), Vec::<char>::new());
}
