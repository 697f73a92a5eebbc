//! End-to-end tests of the call-graph pipeline: scanning, filtering,
//! merging, querying, serialization, and parsing of the persisted document.

use cparse::codec::{parse_function_calls_json, parse_source_tree, ParseError};
use cparse::graph::{build_call_graph, find_callers_of_function};
use cparse::scan::{parse_calls, parse_functions, parse_functions_and_calls, parse_macros};

fn b(s: &str) -> Vec<u8> {
    s.as_bytes().to_vec()
}

fn bs(names: &[&str]) -> Vec<Vec<u8>> {
    names.iter().map(|n| b(n)).collect()
}

const FILE_A: &str =
    "int helper(int x) { return compute(x); }\nint compute(int y) { return y * 2; }\n";
const FILE_B: &str = "void main_loop() { helper(5); printf(\"done\"); }\n";

#[test]
fn two_file_tree_builds_expected_graph() {
    let files = vec![b(FILE_A), b(FILE_B)];
    let g = build_call_graph(&files);
    assert_eq!(g.len(), 3);
    assert_eq!(g.keys(), bs(&["compute", "helper", "main_loop"]));
    assert_eq!(g.get(&b("compute")), Some(bs(&[])));
    assert_eq!(g.get(&b("helper")), Some(bs(&["compute"])));
    // printf is not defined anywhere in the tree, so it is filtered out.
    assert_eq!(g.get(&b("main_loop")), Some(bs(&["helper"])));
}

#[test]
fn two_file_tree_caller_queries() {
    let files = vec![b(FILE_A), b(FILE_B)];
    let g = build_call_graph(&files);
    let callers = find_callers_of_function(&b("helper"), &g);
    assert_eq!(callers, bs(&["main_loop"]));
    assert_eq!(callers.len(), 1);
    let callers = find_callers_of_function(&b("compute"), &g);
    assert_eq!(callers, bs(&["helper"]));
    assert_eq!(callers.len(), 1);
    let callers = find_callers_of_function(&b("main_loop"), &g);
    assert_eq!(callers, bs(&[]));
    assert_eq!(callers.len(), 0);
}

#[test]
fn querying_a_name_that_is_never_a_callee_returns_empty_not_error() {
    let files = vec![b(FILE_A), b(FILE_B)];
    let g = build_call_graph(&files);
    let callers = find_callers_of_function(&b("no_such_function"), &g);
    assert_eq!(callers, bs(&[]));
    assert_eq!(callers.len(), 0);
    // printf exists as a call site in the source but was filtered out.
    let callers = find_callers_of_function(&b("printf"), &g);
    assert_eq!(callers.len(), 0);
}

#[test]
fn file_without_signature_matches_contributes_no_keys() {
    let empty_ish = "#include <stdio.h>\nstatic struct point origin;\n/* int not_a_def */\n";
    let with_it = vec![b(FILE_A), b(empty_ish), b(FILE_B)];
    let without_it = vec![b(FILE_A), b(FILE_B)];
    assert!(parse_functions(&b(empty_ish)).is_empty());
    let g1 = build_call_graph(&with_it);
    let g2 = build_call_graph(&without_it);
    assert_eq!(g1.entries, g2.entries);
}

#[test]
fn two_files_defining_the_same_name_collapse_to_one_key() {
    let f1 = "int init(int a) { helper(a); }\nint helper(int a) { return a; }\n";
    let f2 = "void init() { }\n";
    let g = build_call_graph(&vec![b(f1), b(f2)]);
    assert_eq!(g.keys(), bs(&["helper", "init"]));
    assert_eq!(g.len(), 2);
    // Later-processed file wins: its init has no calls.
    assert_eq!(g.get(&b("init")), Some(bs(&[])));
}

#[test]
fn rebuilding_unchanged_tree_is_byte_identical() {
    let files = vec![b(FILE_A), b(FILE_B)];
    let g1 = build_call_graph(&files);
    let g2 = build_call_graph(&files);
    assert_eq!(g1.entries, g2.entries);
    assert_eq!(parse_source_tree(&files), parse_source_tree(&files));
    assert_eq!(g1.to_json(), g2.to_json());
}

#[test]
fn serialized_document_has_expected_bytes() {
    let files = vec![b(FILE_A), b(FILE_B)];
    let doc = parse_source_tree(&files);
    let expected = "{\n  \"compute\": [],\n  \"helper\": [\n    \"compute\"\n  ],\n  \"main_loop\": [\n    \"helper\"\n  ]\n}\n";
    assert_eq!(String::from_utf8(doc).unwrap(), expected);
}

#[test]
fn empty_tree_serializes_to_empty_object() {
    let files: Vec<Vec<u8>> = vec![];
    let doc = parse_source_tree(&files);
    assert_eq!(String::from_utf8(doc).unwrap(), "{}\n");
}

#[test]
fn serialized_document_is_valid_json_for_serde() {
    let files = vec![b(FILE_A), b(FILE_B)];
    let doc = parse_source_tree(&files);
    let value: serde_json::Value = serde_json::from_slice(&doc).unwrap();
    let obj = value.as_object().unwrap();
    assert_eq!(obj.len(), 3);
    assert_eq!(
        obj["helper"],
        serde_json::Value::Array(vec![serde_json::Value::String("compute".to_string())])
    );
    assert_eq!(obj["compute"], serde_json::Value::Array(vec![]));
    assert_eq!(
        obj["main_loop"],
        serde_json::Value::Array(vec![serde_json::Value::String("helper".to_string())])
    );
}

#[test]
fn serialize_then_parse_restores_the_graph() {
    let files = vec![b(FILE_A), b(FILE_B)];
    let g = build_call_graph(&files);
    let doc = g.to_json();
    let g2 = parse_function_calls_json(&doc).unwrap();
    assert_eq!(g.entries, g2.entries);
}

#[test]
fn parse_accepts_flexible_whitespace() {
    let doc = b("  {  \"a\" : [ \"x\" ,\n \"y\" ]\n,\"c\":[]  }  \n");
    let g = parse_function_calls_json(&doc).unwrap();
    assert_eq!(g.keys(), bs(&["a", "c"]));
    assert_eq!(g.get(&b("a")), Some(bs(&["x", "y"])));
    assert_eq!(g.get(&b("c")), Some(bs(&[])));
}

#[test]
fn parse_collapses_duplicate_keys_to_the_last_occurrence() {
    let doc = b("{\"a\": [\"x\"], \"a\": []}");
    let g = parse_function_calls_json(&doc).unwrap();
    assert_eq!(g.len(), 1);
    assert_eq!(g.get(&b("a")), Some(bs(&[])));
}

#[test]
fn malformed_documents_are_reported_as_errors() {
    for text in [
        "",
        "{",
        "[]",
        "{}x",
        "{\"a\"}",
        "{\"a\": [1]}",
        "{\"a\": [\"x\"],}",
        "{\"a\": \"x\"}",
        "{\"a\\n\": []}",
        "{\"a\": []",
        "null",
    ] {
        assert_eq!(
            parse_function_calls_json(&b(text)),
            Err(ParseError::Malformed),
            "should reject: {}",
            text
        );
    }
}

#[test]
fn parse_functions_finds_each_builtin_return_type() {
    let src = "void a() {}\nint b2() {}\nchar c_x() {}\ndouble d() {}\nfloat e() {}\nbool f() {}\n";
    assert_eq!(parse_functions(&b(src)), bs(&["a", "b2", "c_x", "d", "e", "f"]));
}

#[test]
fn parse_functions_skips_unrecognized_signatures() {
    // Pointer returns, unsigned/struct/typedef returns, and parameter lists
    // broken across lines are outside the recognized pattern.
    let src = "int *p() {}\nunsigned u() {}\nstruct pos q() {}\nint multi(\n int a) {}\n";
    assert_eq!(parse_functions(&b(src)), Vec::<Vec<u8>>::new());
    // But a return type whose tail spells a keyword is matched: "point"
    // contains "int", and nothing anchors the keyword on the left.
    assert_eq!(parse_functions(&b("struct point q() {}\n")), bs(&["q"]));
}

#[test]
fn parse_functions_matches_keyword_inside_longer_word() {
    // The pattern has no word boundary before the return-type keyword, so the
    // tail of a longer identifier can start a match.
    assert_eq!(parse_functions(&b("myint f() {}\n")), bs(&["f"]));
}

#[test]
fn parse_functions_allows_newline_between_parens_and_brace() {
    assert_eq!(parse_functions(&b("int f(int a)\n{ }\n")), bs(&["f"]));
    // A newline inside the parameter list defeats the pattern.
    assert_eq!(parse_functions(&b("int g(int a,\n int b) { }\n")), Vec::<Vec<u8>>::new());
}

#[test]
fn parse_macros_finds_names_with_values() {
    let src = "#define MAX 100\nint f() {}\n#define LIMIT (MAX + 1)\n";
    assert_eq!(parse_macros(&b(src)), bs(&["MAX", "LIMIT"]));
    // A function-like macro has `(` right after its name, not whitespace,
    // so the `#define NAME VALUE` pattern does not match it.
    assert_eq!(parse_macros(&b("#define MIN(a, b) ((a) < (b) ? (a) : (b))\n")), Vec::<Vec<u8>>::new());
    // A newline after the name counts as the whitespace before an (empty)
    // value, but at end of input there is no whitespace to match at all.
    assert_eq!(parse_macros(&b("#define BARE\n")), bs(&["BARE"]));
    assert_eq!(parse_macros(&b("#define BARE")), Vec::<Vec<u8>>::new());
}

#[test]
fn parse_calls_keeps_order_duplicates_and_keywords() {
    let body = b("if (x) { g(); h (y); g(); } while (0) { }");
    assert_eq!(parse_calls(&body), bs(&["if", "g", "h", "g", "while"]));
}

#[test]
fn duplicate_calls_are_preserved_in_the_graph() {
    let src = "int f() { g(); g(); }\nint g() { }\n";
    let g = build_call_graph(&vec![b(src)]);
    assert_eq!(g.get(&b("f")), Some(bs(&["g", "g"])));
}

#[test]
fn keyword_call_sites_are_dropped_by_the_filter() {
    let src = "int f(int x) { if (x) { f(x); } while (x) { } }\n";
    let g = build_call_graph(&vec![b(src)]);
    // `if` and `while` are scanned as call sites but are not defined
    // functions, so only the recursive call to f survives.
    assert_eq!(g.get(&b("f")), Some(bs(&["f"])));
    assert_eq!(find_callers_of_function(&b("f"), &g), bs(&["f"]));
}

#[test]
fn calls_inside_nested_braces_belong_to_the_function() {
    let src = "int f() { { g(); } }\nint g() { }\n";
    let g = build_call_graph(&vec![b(src)]);
    assert_eq!(g.get(&b("f")), Some(bs(&["g"])));
}

#[test]
fn unclosed_brace_consumes_to_end_of_file() {
    let src = "int f(void) { g();\nint g() { }\n";
    // The brace of f never closes, so g's definition text lies inside f's
    // body; g is still detected as a definition by the non-overlapping scan.
    let entries = parse_functions_and_calls(&b(src));
    assert_eq!(entries.len(), 2);
    assert_eq!(entries[0].0, b("f"));
    assert_eq!(entries[0].1, bs(&["g", "g"]));
    assert_eq!(entries[1].0, b("g"));
    let g = build_call_graph(&vec![b(src)]);
    assert_eq!(g.get(&b("f")), Some(bs(&["g", "g"])));
}

#[test]
fn later_definition_in_one_file_wins() {
    let src = "int f() { g(); }\nint g() { }\nint f() { }\n";
    let g = build_call_graph(&vec![b(src)]);
    assert_eq!(g.keys(), bs(&["f", "g"]));
    assert_eq!(g.get(&b("f")), Some(bs(&[])));
}

#[test]
fn get_and_keys_on_missing_names() {
    let g = build_call_graph(&vec![b(FILE_B)]);
    assert_eq!(g.get(&b("helper")), None);
    assert_eq!(g.keys(), bs(&["main_loop"]));
    // helper is not defined in this one-file tree, so the call is filtered.
    assert_eq!(g.get(&b("main_loop")), Some(bs(&[])));
}
