use machete::backend::{GraphType, LanguageBackend};
use machete::csharp::{build_csharp_lexer, build_map, class_x, next_meaningful, Csharp, TokenClass};
use machete::lexer::Token;

use machete::csharp::TokenClass::{BlockBegin, BlockEnd, IdentifierOrKeyword, Newline, Whitespace};
use machete::lexer::Token::{Matched, Unmatched};

fn files(texts: &[&str]) -> Vec<String> {
    texts.iter().map(|t| t.to_string()).collect()
}

fn set_of(map: &[(String, Vec<String>)], name: &str) -> Option<Vec<String>> {
    map.iter().find(|p| p.0 == name).map(|p| p.1.clone())
}

#[test]
fn test_csharp_lexer() {
    let lexer = build_csharp_lexer().unwrap();
    let result = lexer.tokenize("class Fizz\n{\nBuzz buzz;\n}");
    let kind: Vec<Token<TokenClass>> = result.iter().map(|r| r.0).collect();
    let expected = [
        Matched(IdentifierOrKeyword),
        Matched(Whitespace),
        Matched(IdentifierOrKeyword),
        Matched(Newline),
        Matched(BlockBegin),
        Matched(Newline),
        Matched(IdentifierOrKeyword),
        Matched(Whitespace),
        Matched(IdentifierOrKeyword),
        Unmatched,
        Matched(Newline),
        Matched(BlockEnd),
    ];

    assert_eq!(&kind[..], &expected[..]);
}

#[test]
fn test_class_x() {
    let lexer = build_csharp_lexer().unwrap();
    let mut iter = lexer.lex("class Fizz\n{\nBuzz buzz}\n}");
    iter.next(); // consume "class"
    match class_x(&mut iter) {
        Some((classname, set)) => {
            assert_eq!(classname, "Fizz");
            assert!(set.contains(&"Buzz".to_string()));
            assert!(set.contains(&"buzz".to_string()));
        }
        None => {
            panic!("Test failed.");
        }
    }
}

#[test]
fn next_meaningful_skips_trivia() {
    let lexer = build_csharp_lexer().unwrap();
    let mut iter = lexer.lex("  // note\n\t Name {");
    assert_eq!(next_meaningful(&mut iter), Some((Matched(IdentifierOrKeyword), "Name".to_string())));
    assert_eq!(next_meaningful(&mut iter), Some((Matched(BlockBegin), "{".to_string())));
    assert_eq!(next_meaningful(&mut iter), None);
}

#[test]
fn basic_extraction() {
    let map = build_map(&files(&["class Fizz\n{\nBuzz buzz;\n}"])).unwrap();
    assert_eq!(map.len(), 1);
    assert_eq!(map[0].0, "Fizz");
    let set = &map[0].1;
    assert!(set.contains(&"Buzz".to_string()));
    assert!(set.contains(&"buzz".to_string()));
    assert!(!set.contains(&"class".to_string()));
    assert!(!set.contains(&"Fizz".to_string()));
    assert_eq!(set.len(), 2);
}

#[test]
fn struct_keyword_declares_too() {
    let map = build_map(&files(&["struct Point { int x; int y; }"])).unwrap();
    assert_eq!(map.len(), 1);
    assert_eq!(map[0].0, "Point");
    let mut set = map[0].1.clone();
    set.sort();
    assert_eq!(set, vec!["int".to_string(), "x".to_string(), "y".to_string()]);
}

#[test]
fn self_reference_gives_self_loop() {
    let gs = Csharp.build_graphs(&files(&["class Foo\n{\nFoo() {}\n}"])).unwrap();
    assert_eq!(gs.len(), 1);
    let g = &gs[0].graph;
    assert_eq!(g.node_count(), 1);
    assert_eq!(g.node_data(0), "Foo");
    assert_eq!(g.edge_count(), 1);
    assert_eq!((g.edge(0).source(), g.edge(0).target()), (0, 0));
}

#[test]
fn missing_name_gives_no_record() {
    let map = build_map(&files(&["class\n{\n}"])).unwrap();
    assert!(map.is_empty());
}

#[test]
fn missing_body_gives_no_record() {
    let map = build_map(&files(&["class Fizz"])).unwrap();
    assert!(map.is_empty());
}

#[test]
fn scan_resumes_after_malformed_declaration() {
    let map = build_map(&files(&["class\n{\n}\nclass Bar { Baz }"])).unwrap();
    assert_eq!(map.len(), 1);
    assert_eq!(map[0].0, "Bar");
    assert_eq!(map[0].1, vec!["Baz".to_string()]);
}

#[test]
fn unclosed_body_gives_no_record() {
    let map = build_map(&files(&["class A { B { C }"])).unwrap();
    assert!(map.is_empty());
}

#[test]
fn nested_declaration_is_absorbed() {
    let map = build_map(&files(&["class A { class B { C } D }"])).unwrap();
    assert_eq!(map.len(), 1);
    assert_eq!(map[0].0, "A");
    let mut set = map[0].1.clone();
    set.sort();
    assert_eq!(set, vec!["B".to_string(), "C".to_string(), "D".to_string(), "class".to_string()]);
}

#[test]
fn later_declaration_replaces_earlier_in_place() {
    let map = build_map(&files(&["class A { X } class B { Y }", "class A { Z }"])).unwrap();
    assert_eq!(map.len(), 2);
    assert_eq!(map[0].0, "A");
    assert_eq!(map[0].1, vec!["Z".to_string()]);
    assert_eq!(map[1].0, "B");
    assert_eq!(set_of(&map, "B"), Some(vec!["Y".to_string()]));
}

#[test]
fn repeated_identifier_is_kept_once() {
    let map = build_map(&files(&["class A { x x x }"])).unwrap();
    assert_eq!(map[0].1, vec!["x".to_string()]);
}

#[test]
fn graph_has_one_node_per_distinct_name_and_edges_exactly_for_references() {
    let input = files(&["class A { B C undeclared }\nclass B { A }", "class C { } class A { B }"]);
    let gs = Csharp.build_graphs(&input).unwrap();
    let g = &gs[0].graph;
    assert_eq!(gs[0].name, "reference_graph");
    let names: Vec<&str> = (0..g.node_count()).map(|i| g.node_data(i).as_str()).collect();
    assert_eq!(names, vec!["A", "B", "C"]);
    let mut edges: Vec<(usize, usize)> = (0..g.edge_count()).map(|e| (g.edge(e).source(), g.edge(e).target())).collect();
    edges.sort();
    // A (last written as `{ B }`) -> B, B -> A
    assert_eq!(edges, vec![(0, 1), (1, 0)]);
}

#[test]
fn zero_files_give_empty_graph() {
    let gs = Csharp.build_graphs(&Vec::new()).unwrap();
    assert_eq!(gs.len(), 1);
    assert_eq!(gs[0].graph.node_count(), 0);
    assert_eq!(gs[0].graph.edge_count(), 0);
}

#[test]
fn reference_graph_labels_the_graph() {
    let gi = Csharp.reference_graph(&files(&["class P { Q } class Q { }"])).unwrap();
    assert_eq!(gi.name, "reference_graph");
    assert_eq!(gi.graph.node_count(), 2);
    assert_eq!(gi.graph.edge_count(), 1);
    assert_eq!((gi.graph.edge(0).source(), gi.graph.edge(0).target()), (0, 1));
}

#[test]
fn backend_describes_itself() {
    assert_eq!(Csharp.get_extensions(), vec!["cs".to_string()]);
    assert_eq!(Csharp.get_graph_types(), vec![GraphType::Reference]);
}

#[test]
fn large_input_is_scanned() {
    let letters: Vec<char> = ('a'..='z').collect();
    let mut text = String::new();
    for i in 0..4000 {
        let name = letters[i % 26];
        let next = letters[(i + 1) % 26];
        text.push_str(&format!("class C{} {{ int field; C{} next; }}\n", name, next));
    }
    let map = build_map(&vec![text]).unwrap();
    assert_eq!(map.len(), 26);
    assert_eq!(map[0].0, "Ca");
    let gs = Csharp.build_graphs(&vec!["class A { B } class B { }".to_string()]).unwrap();
    assert_eq!(gs[0].graph.edge_count(), 1);
}

#[test]
fn block_comment_is_trivia() {
    let lexer = build_csharp_lexer().unwrap();
    let toks = lexer.tokenize("/* see Bar */x/** a * b **/");
    let kinds: Vec<Token<TokenClass>> = toks.iter().map(|t| t.0).collect();
    assert_eq!(kinds, vec![Matched(TokenClass::Comment), Matched(IdentifierOrKeyword), Matched(TokenClass::Comment)]);
    assert_eq!(toks[0].1, "/* see Bar */");
    assert_eq!(toks[2].1, "/** a * b **/");
}

#[test]
fn block_comment_in_body_adds_no_reference() {
    let input = files(&["class A { /* see Bar { class X } */ x }\nclass Bar { }"]);
    let map = build_map(&input).unwrap();
    assert_eq!(map.len(), 2);
    assert_eq!(map[0].0, "A");
    assert_eq!(map[0].1, vec!["x".to_string()]);
    let gs = Csharp.build_graphs(&input).unwrap();
    assert_eq!(gs[0].graph.edge_count(), 0);
}

#[test]
fn multi_line_block_comment_is_one_token() {
    let lexer = build_csharp_lexer().unwrap();
    let toks = lexer.tokenize("/* one\n two */");
    assert_eq!(toks, vec![(Matched(TokenClass::Comment), "/* one\n two */".to_string())]);
}

#[test]
fn names_with_digits_are_declared() {
    let map = build_map(&files(&["class Vector3 { Matrix4x4 m; } class Matrix4x4 { }"])).unwrap();
    let names: Vec<&str> = map.iter().map(|p| p.0.as_str()).collect();
    assert_eq!(names, vec!["Vector3", "Matrix4x4"]);
    let gs = Csharp.build_graphs(&files(&["class Vector3 { Matrix4x4 m; } class Matrix4x4 { }"])).unwrap();
    let g = &gs[0].graph;
    assert_eq!(g.edge_count(), 1);
    assert_eq!((g.edge(0).source(), g.edge(0).target()), (0, 1));
}

#[test]
fn vertical_tab_and_form_feed_are_whitespace() {
    let lexer = build_csharp_lexer().unwrap();
    let toks = lexer.tokenize("a\u{000B}b\u{000C}c");
    let kinds: Vec<Token<TokenClass>> = toks.iter().map(|t| t.0).collect();
    assert_eq!(
        kinds,
        vec![
            Matched(IdentifierOrKeyword),
            Matched(Whitespace),
            Matched(IdentifierOrKeyword),
            Matched(Whitespace),
            Matched(IdentifierOrKeyword),
        ]
    );
}

#[test]
fn edges_come_grouped_by_target_then_source() {
    let input = files(&["class A { A B C } class B { A C } class C { C }"]);
    let gs = Csharp.build_graphs(&input).unwrap();
    let g = &gs[0].graph;
    let edges: Vec<(usize, usize)> = (0..g.edge_count()).map(|e| (g.edge(e).source(), g.edge(e).target())).collect();
    assert_eq!(edges, vec![(0, 0), (1, 0), (0, 1), (0, 2), (1, 2), (2, 2)]);
    let again = Csharp.build_graphs(&input).unwrap();
    let edges_again: Vec<(usize, usize)> =
        (0..again[0].graph.edge_count()).map(|e| (again[0].graph.edge(e).source(), again[0].graph.edge(e).target())).collect();
    assert_eq!(edges, edges_again);
}

#[test]
fn self_reference_gives_exactly_one_loop() {
    let gs = Csharp.build_graphs(&files(&["class Foo { Foo Foo() { Foo } }"])).unwrap();
    assert_eq!(gs[0].graph.edge_count(), 1);
}
