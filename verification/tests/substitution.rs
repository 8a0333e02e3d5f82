use tree_grepper::errors::Error;
use tree_grepper::extract::{Capture, Extractor, compile_query};
use tree_grepper::provider::{Point, RawPredicate, RawPredicateArg};
use tree_grepper::substitute::{
    SubstitutionDirective, apply_edit, count_distinct_keys, decode_directives, replace_all,
    resolve_template, rewrite, substitution_step,
};

fn rust_language() -> tree_sitter::Language {
    tree_sitter::Language::new(tree_sitter_rust::LANGUAGE)
}

fn cap(index: usize, name: &[u8], text: &[u8], start: usize, end: usize) -> Capture {
    Capture {
        index,
        kind: b"node".to_vec(),
        name: name.to_vec(),
        text: text.to_vec(),
        start_byte: start,
        end_byte: end,
        start: Point { row: 0, column: start },
        end: Point { row: 0, column: end },
    }
}

#[test]
fn replace_all_replaces_every_occurrence() {
    let r = replace_all(&b"a@x b @x".to_vec(), &b"@x".to_vec(), &b"Z".to_vec());
    assert_eq!(r, b"aZ b Z".to_vec());
}

#[test]
fn replace_all_is_leftmost_and_non_rescanning() {
    let r = replace_all(&b"aaa".to_vec(), &b"aa".to_vec(), &b"a".to_vec());
    assert_eq!(r, b"aa".to_vec());
    let r2 = replace_all(&b"ab".to_vec(), &b"ab".to_vec(), &b"abab".to_vec());
    assert_eq!(r2, b"abab".to_vec());
}

#[test]
fn template_resolution_substitutes_named_captures() {
    let caps = vec![cap(0, b"x", b"old", 0, 3), cap(1, b"y", b"VAL", 4, 7)];
    let r = resolve_template(&b"prefix-@y-suffix".to_vec(), &caps);
    assert_eq!(r, b"prefix-VAL-suffix".to_vec());
}

#[test]
fn unresolved_reference_is_left_verbatim() {
    let caps = vec![cap(0, b"x", b"old", 0, 3)];
    let r = resolve_template(&b"keep-@z-here".to_vec(), &caps);
    assert_eq!(r, b"keep-@z-here".to_vec());
}

#[test]
fn chained_references_resolve_across_passes() {
    let caps = vec![cap(0, b"x", b"@y!", 0, 3), cap(1, b"y", b"V", 4, 5)];
    let r = resolve_template(&b"<@x>".to_vec(), &caps);
    assert_eq!(r, b"<V!>".to_vec());
}

#[test]
fn apply_edit_splices_one_range() {
    let r = apply_edit(&b"hello world".to_vec(), 6, 11, &b"there".to_vec());
    assert_eq!(r, b"hello there".to_vec());
}

#[test]
fn directives_decode_only_the_reserved_operator() {
    let preds = vec![
        RawPredicate {
            operator: b"eq?".to_vec(),
            args: vec![RawPredicateArg::Capture(0), RawPredicateArg::Literal(b"require".to_vec())],
        },
        RawPredicate {
            operator: b"sub!".to_vec(),
            args: vec![RawPredicateArg::Capture(2), RawPredicateArg::Literal(b"T-@y".to_vec())],
        },
    ];
    let dirs = decode_directives(&preds);
    assert_eq!(
        dirs,
        vec![SubstitutionDirective { target_key: 3, template: b"T-@y".to_vec() }]
    );
}

#[test]
fn distinct_key_count_ignores_repeats() {
    let dirs = vec![
        SubstitutionDirective { target_key: 1, template: b"a".to_vec() },
        SubstitutionDirective { target_key: 2, template: b"b".to_vec() },
        SubstitutionDirective { target_key: 1, template: b"c".to_vec() },
    ];
    assert_eq!(count_distinct_keys(&dirs), 2);
}

#[test]
fn substitution_rewrites_target_range() {
    let dirs = vec![SubstitutionDirective { target_key: 1, template: b"prefix-@y-suffix".to_vec() }];
    let records = vec![vec![cap(0, b"x", b"old", 0, 3), cap(1, b"y", b"VAL", 4, 7)]];
    let source = b"old VAL".to_vec();
    let out = substitution_step(&dirs, &records, &source).unwrap();
    assert_eq!(out, b"prefix-VAL-suffix VAL".to_vec());
}

#[test]
fn substitution_step_reports_fixpoint() {
    let dirs = vec![SubstitutionDirective { target_key: 1, template: b"old".to_vec() }];
    let records = vec![vec![cap(0, b"x", b"old", 0, 3)]];
    let source = b"old VAL".to_vec();
    assert!(substitution_step(&dirs, &records, &source).is_none());
}

#[test]
fn rewrite_reaches_fixpoint_after_one_change() {
    let language = rust_language();
    let query = compile_query(&language, "((string_literal)@s (#sub! @s \"\\\"new\\\"\"))").unwrap();
    let e = Extractor::new(language, query, b"rust".to_vec());
    let mut parser = tree_sitter::Parser::new();
    let source = b"fn main() { let a = \"old\"; }".to_vec();
    let out = rewrite(&e, &mut parser, source).unwrap();
    assert_eq!(out, b"fn main() { let a = \"new\"; }".to_vec());
}

#[test]
fn rewrite_without_directives_returns_source_unchanged() {
    let language = rust_language();
    let query = compile_query(&language, "(string_literal)@s").unwrap();
    let e = Extractor::new(language, query, b"rust".to_vec());
    let mut parser = tree_sitter::Parser::new();
    let source = b"fn main() { let a = \"old\"; }".to_vec();
    let out = rewrite(&e, &mut parser, source.clone()).unwrap();
    assert_eq!(out, source);
}

#[test]
fn runaway_substitution_signals_divergence() {
    let language = rust_language();
    let query = compile_query(&language, "((identifier)@i (#sub! @i \"@i@i\"))").unwrap();
    let e = Extractor::new(language, query, b"rust".to_vec());
    let mut parser = tree_sitter::Parser::new();
    let source = b"fn main() { a; }".to_vec();
    let r = rewrite(&e, &mut parser, source);
    assert_eq!(r, Err(Error::RewriteDivergence));
}
