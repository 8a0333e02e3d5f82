use tree_grepper::errors::Error;
use tree_grepper::extract::{Extractor, compile_query, extract_records};
use tree_grepper::provider::{Point, RawCapture, RawMatch};

fn elm_language() -> tree_sitter::Language {
    tree_sitter::Language::new(tree_sitter_elm::LANGUAGE)
}

fn js_language() -> tree_sitter::Language {
    tree_sitter::Language::new(tree_sitter_javascript::LANGUAGE)
}

fn elm_extractor(pattern: &str) -> Extractor {
    let language = elm_language();
    let query = compile_query(&language, pattern).unwrap();
    Extractor::new(language, query, b"elm".to_vec())
}

#[test]
fn marker() {
    let mut parser = tree_sitter::Parser::new();
    let language = tree_sitter::Language::new(tree_sitter_rust::LANGUAGE);
    let _ = parser.set_language(&language);
}

#[test]
fn one_visible_import_match() {
    let e = elm_extractor("(import_clause (upper_case_qid)@import)");
    let mut parser = tree_sitter::Parser::new();
    let source = b"import Html.Styled\n".to_vec();
    let file = e
        .extract_from_text(Some(b"a.elm".to_vec()), &source, &mut parser)
        .unwrap()
        .unwrap();
    assert_eq!(file.file, Some(b"a.elm".to_vec()));
    assert_eq!(file.file_type, b"elm".to_vec());
    assert_eq!(file.matches.len(), 1);
    assert_eq!(file.matches[0].name, b"import".to_vec());
    assert_eq!(file.matches[0].text, b"Html.Styled".to_vec());
}

#[test]
fn ignore_prefixed_capture_suppresses_match() {
    let e = elm_extractor("(import_clause (upper_case_qid)@_import)");
    let mut parser = tree_sitter::Parser::new();
    let source = b"import Html.Styled\n".to_vec();
    let out = e.extract_from_text(None, &source, &mut parser).unwrap();
    assert!(out.is_none());
}

#[test]
fn ignored_capture_constrains_without_appearing() {
    let language = js_language();
    let query = compile_query(
        &language,
        "(call_expression (identifier)@_fn (arguments . (string)@import .) (#eq? @_fn require))",
    )
    .unwrap();
    let e = Extractor::new(language, query, b"js".to_vec());
    let mut parser = tree_sitter::Parser::new();
    let source = b"let foo = require(\"foo.js\")".to_vec();
    let file = e.extract_from_text(None, &source, &mut parser).unwrap().unwrap();
    assert_eq!(file.matches.len(), 1);
    assert_eq!(file.matches[0].name, b"import".to_vec());
    assert_eq!(file.matches[0].text, b"\"foo.js\"".to_vec());
}

#[test]
fn ignored_constraint_rejects_other_callees() {
    let language = js_language();
    let query = compile_query(
        &language,
        "(call_expression (identifier)@_fn (arguments . (string)@import .) (#eq? @_fn require))",
    )
    .unwrap();
    let e = Extractor::new(language, query, b"js".to_vec());
    let mut parser = tree_sitter::Parser::new();
    let source = b"let foo = load(\"foo.js\")".to_vec();
    let out = e.extract_from_text(None, &source, &mut parser).unwrap();
    assert!(out.is_none());
}

#[test]
fn extraction_is_stable_across_runs() {
    let e = elm_extractor("(import_clause (upper_case_qid)@import)");
    let mut parser = tree_sitter::Parser::new();
    let source = b"import Html.Styled\nimport List\n".to_vec();
    let a = e.extract_from_text(None, &source, &mut parser).unwrap().unwrap();
    let b = e.extract_from_text(None, &source, &mut parser).unwrap().unwrap();
    assert_eq!(a, b);
}

#[test]
fn invalid_text_range_is_a_decode_error() {
    let names = vec![b"x".to_vec()];
    let source = vec![0xffu8, 0xfe, 0x61];
    let raw = vec![RawMatch {
        captures: vec![RawCapture {
            index: 0,
            kind: b"chunk".to_vec(),
            start_byte: 0,
            end_byte: 2,
            start: Point { row: 0, column: 0 },
            end: Point { row: 0, column: 2 },
        }],
    }];
    let r = extract_records(&names, &source, &raw);
    assert_eq!(r, Err(Error::Decode));
}

#[test]
fn out_of_buffer_range_is_a_decode_error() {
    let names = vec![b"x".to_vec()];
    let source = b"ab".to_vec();
    let raw = vec![RawMatch {
        captures: vec![RawCapture {
            index: 0,
            kind: b"chunk".to_vec(),
            start_byte: 1,
            end_byte: 5,
            start: Point { row: 0, column: 1 },
            end: Point { row: 0, column: 5 },
        }],
    }];
    let r = extract_records(&names, &source, &raw);
    assert_eq!(r, Err(Error::Decode));
}

#[test]
fn malformed_pattern_is_a_compile_error() {
    let language = elm_language();
    let r = compile_query(&language, "((import_clause");
    assert!(r.is_err());
    assert_eq!(r.unwrap_err(), Error::Compile);
}

#[test]
fn valid_records_carry_names_and_slices() {
    let names = vec![b"x".to_vec(), b"y".to_vec()];
    let source = b"hello".to_vec();
    let raw = vec![RawMatch {
        captures: vec![
            RawCapture {
                index: 1,
                kind: b"word".to_vec(),
                start_byte: 0,
                end_byte: 4,
                start: Point { row: 0, column: 0 },
                end: Point { row: 0, column: 4 },
            },
        ],
    }];
    let records = extract_records(&names, &source, &raw).unwrap();
    assert_eq!(records.len(), 1);
    assert_eq!(records[0].len(), 1);
    assert_eq!(records[0][0].name, b"y".to_vec());
    assert_eq!(records[0][0].text, b"hell".to_vec());
    assert_eq!(records[0][0].kind, b"word".to_vec());
}
