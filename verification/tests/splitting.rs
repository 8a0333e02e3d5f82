use tree_grepper::extract::compile_query;
use tree_grepper::markup::{ExtractedComment, MarkupKind, ResolvedCategory};
use tree_grepper::split::{
    Artifact, ExtractedNode, dedup_artifacts, hex_bytes, mark_span, partition_artifacts,
    span_address, split_and_mark, split_spans, splitup,
};

fn rust_language() -> tree_sitter::Language {
    tree_sitter::Language::new(tree_sitter_rust::LANGUAGE)
}

fn node(name: &[u8], start: usize, end: usize) -> ExtractedNode {
    ExtractedNode { name: name.to_vec(), start_byte: start, end_byte: end }
}

#[test]
fn spans_select_named_captures_last_wins() {
    let source = b"0123456789".to_vec();
    let nodes = vec![node(b"ub", 2, 5), node(b"other", 0, 3), node(b"b", 2, 7)];
    let spans = split_spans(&source, &nodes);
    assert_eq!(spans, vec![(2usize, b"23456".to_vec())]);
}

#[test]
fn spans_keep_distinct_offsets_in_insertion_order() {
    let source = b"0123456789".to_vec();
    let nodes = vec![node(b"b", 4, 6), node(b"b", 0, 2)];
    let spans = split_spans(&source, &nodes);
    assert_eq!(spans, vec![(4usize, b"45".to_vec()), (0usize, b"01".to_vec())]);
}

#[test]
fn splitup_extracts_unsafe_function_bodies() {
    let language = rust_language();
    let query = compile_query(
        &language,
        "[(function_item (function_modifiers) body: (block) @ub) (unsafe_block (block)@ub)]",
    )
    .unwrap();
    let mut parser = tree_sitter::Parser::new();
    let source = b"unsafe fn f() { g(); }".to_vec();
    let spans = splitup(&language, &query, &source, &mut parser).unwrap();
    assert_eq!(spans, vec![(14usize, b"{ g(); }".to_vec())]);
}

#[test]
fn hex_spelling_is_two_lowercase_digits_per_byte() {
    let r = hex_bytes(&vec![0x00u8, 0xff, 0x1a]);
    assert_eq!(r, b"00ff1a".to_vec());
}

#[test]
fn artifacts_carry_content_addresses() {
    let unsafe_spans = vec![(0usize, b"abc".to_vec())];
    let all_spans: Vec<(usize, Vec<u8>)> = vec![];
    let arts = partition_artifacts(&unsafe_spans, &all_spans);
    assert_eq!(
        arts,
        vec![Artifact {
            address: b"900150983cd24fb0d6963f7d28e17f72".to_vec(),
            content: b"abc".to_vec(),
            unsafe_containing: true,
        }]
    );
}

#[test]
fn marked_span_is_classified_by_scope_open_regions() {
    let bytes = b"{ unsafe { g(); } }".to_vec();
    let cats = vec![ResolvedCategory {
        tag: b"S".to_vec(),
        kind: MarkupKind::Wrap,
        regions: vec![ExtractedComment { start_byte: 2, end_byte: 17 }],
    }];
    let a = mark_span(&bytes, &cats);
    assert!(a.unsafe_containing);
    assert_eq!(a.address, span_address(&bytes));
    let mut expected: Vec<u8> = Vec::new();
    expected.extend_from_slice(&bytes[0..2]);
    expected.extend_from_slice(b"<S>");
    expected.extend_from_slice(&bytes[2..]);
    assert_eq!(a.content, expected);

    let clean = mark_span(&bytes, &vec![]);
    assert!(!clean.unsafe_containing);
    assert_eq!(clean.content, bytes);
    assert_eq!(clean.address, a.address);
}

#[test]
fn dedup_prefers_the_unsafe_classification() {
    let unsafe_one = Artifact {
        address: b"aa".to_vec(),
        content: b"x".to_vec(),
        unsafe_containing: true,
    };
    let clean_same = Artifact {
        address: b"aa".to_vec(),
        content: b"x".to_vec(),
        unsafe_containing: false,
    };
    let clean_other = Artifact {
        address: b"bb".to_vec(),
        content: b"y".to_vec(),
        unsafe_containing: false,
    };
    let out = dedup_artifacts(&vec![clean_same, unsafe_one.clone(), clean_other.clone()]);
    assert_eq!(out, vec![unsafe_one, clean_other]);
}

#[test]
fn split_and_mark_derives_addressed_artifacts() {
    let language = rust_language();
    let split_query = compile_query(&language, "[ ((block)@b) ]").unwrap();
    let cats = vec![];
    let mut parser = tree_sitter::Parser::new();
    let source = b"fn a() { b(); }".to_vec();
    let arts = split_and_mark(&language, &split_query, &cats, &source, &mut parser).unwrap();
    assert_eq!(arts.len(), 1);
    assert_eq!(arts[0].content, b"{ b(); }".to_vec());
    assert_eq!(arts[0].address, span_address(&b"{ b(); }".to_vec()));
    assert!(!arts[0].unsafe_containing);
}

#[test]
fn clean_artifact_is_suppressed_under_an_unsafe_address() {
    let unsafe_spans = vec![(0usize, b"abc".to_vec())];
    let all_spans = vec![(0usize, b"abc".to_vec()), (5usize, b"".to_vec())];
    let arts = partition_artifacts(&unsafe_spans, &all_spans);
    assert_eq!(arts.len(), 2);
    assert!(arts[0].unsafe_containing);
    assert_eq!(arts[0].content, b"abc".to_vec());
    assert!(!arts[1].unsafe_containing);
    assert_eq!(arts[1].content, b"".to_vec());
    assert_eq!(arts[1].address, b"d41d8cd98f00b204e9800998ecf8427e".to_vec());
    assert_ne!(arts[0].address, arts[1].address);
}
