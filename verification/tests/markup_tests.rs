use tree_grepper::extract::compile_query;
use tree_grepper::markup::{
    ExtractedComment, MarkupCategory, MarkupKind, ResolvedCategory, annotate, elide_regions,
    markup_source, remove_comment,
};

fn rust_language() -> tree_sitter::Language {
    tree_sitter::Language::new(tree_sitter_rust::LANGUAGE)
}

fn region(start: usize, end: usize) -> ExtractedComment {
    ExtractedComment { start_byte: start, end_byte: end }
}

#[test]
fn boundary_guard_suppresses_only_near_markers() {
    let source = vec![b'a'; 120];
    let cats = vec![
        ResolvedCategory { tag: b"S".to_vec(), kind: MarkupKind::Wrap, regions: vec![region(100, 110)] },
        ResolvedCategory {
            tag: b"S".to_vec(),
            kind: MarkupKind::Boundary,
            regions: vec![region(101, 101), region(103, 103)],
        },
    ];
    let out = annotate(&source, &cats);
    let mut expected: Vec<u8> = Vec::new();
    expected.extend_from_slice(&source[0..100]);
    expected.extend_from_slice(b"<S>");
    expected.extend_from_slice(&source[100..103]);
    expected.extend_from_slice(b"<S></S>");
    expected.extend_from_slice(&source[103..120]);
    assert_eq!(out, expected);
}

#[test]
fn boundary_without_open_wrap_always_fires() {
    let source = b"abcdef".to_vec();
    let cats = vec![ResolvedCategory {
        tag: b"B".to_vec(),
        kind: MarkupKind::Boundary,
        regions: vec![region(2, 2)],
    }];
    let out = annotate(&source, &cats);
    assert_eq!(out, b"ab<B></B>cdef".to_vec());
}

#[test]
fn delete_only_annotation_equals_elision() {
    let source = b"keep/*drop*/keep".to_vec();
    let regions = vec![region(4, 12)];
    let cats = vec![
        ResolvedCategory { tag: b"c".to_vec(), kind: MarkupKind::Delete, regions: regions.clone() },
        ResolvedCategory { tag: b"w".to_vec(), kind: MarkupKind::Wrap, regions: vec![] },
        ResolvedCategory { tag: b"b".to_vec(), kind: MarkupKind::Boundary, regions: vec![] },
    ];
    let out = annotate(&source, &cats);
    let elided = elide_regions(&source, &regions);
    assert_eq!(out, elided);
    assert_eq!(out, b"keepkeep".to_vec());
}

#[test]
fn annotation_is_stable_across_runs() {
    let source = b"fn f() { unsafe { g(); } }".to_vec();
    let cats = vec![
        ResolvedCategory { tag: b"S".to_vec(), kind: MarkupKind::Wrap, regions: vec![region(9, 24)] },
        ResolvedCategory {
            tag: b"S".to_vec(),
            kind: MarkupKind::Boundary,
            regions: vec![region(18, 18)],
        },
    ];
    let a = annotate(&source, &cats);
    let b = annotate(&source, &cats);
    assert_eq!(a, b);
}

#[test]
fn wrap_emits_opening_tag_and_keeps_bytes() {
    let language = rust_language();
    let query = compile_query(&language, "(unsafe_block)@u").unwrap();
    let cats = vec![MarkupCategory { tag: b"SAFENESS".to_vec(), kind: MarkupKind::Wrap, query }];
    let mut parser = tree_sitter::Parser::new();
    let source = b"fn f() { unsafe { g(); } }".to_vec();
    let out = markup_source(&language, &cats, &source, &mut parser).unwrap();
    let mut expected: Vec<u8> = Vec::new();
    expected.extend_from_slice(&source[0..9]);
    expected.extend_from_slice(b"<SAFENESS>");
    expected.extend_from_slice(&source[9..]);
    assert_eq!(out, expected);
}

#[test]
fn comments_are_removed_verbatim() {
    let language = rust_language();
    let query = compile_query(&language, "([(line_comment)(block_comment)])@c").unwrap();
    let mut parser = tree_sitter::Parser::new();
    let source = b"fn main() { a(); } // tail\n".to_vec();
    let out = remove_comment(&language, &query, &source, &mut parser).unwrap();
    assert_eq!(out, b"fn main() { a(); } \n".to_vec());
}

#[test]
fn block_comments_are_removed_inside_code() {
    let language = rust_language();
    let query = compile_query(&language, "([(line_comment)(block_comment)])@c").unwrap();
    let mut parser = tree_sitter::Parser::new();
    let source = b"fn main() { /* mid */ a(); }".to_vec();
    let out = remove_comment(&language, &query, &source, &mut parser).unwrap();
    assert_eq!(out, b"fn main() {  a(); }".to_vec());
}

#[test]
fn invalid_comment_text_is_a_decode_error() {
    let language = rust_language();
    let query = compile_query(&language, "([(line_comment)(block_comment)])@c").unwrap();
    let mut parser = tree_sitter::Parser::new();
    let source = b"fn main() {} // x \xff y\n".to_vec();
    let r = remove_comment(&language, &query, &source, &mut parser);
    assert_eq!(r, Err(tree_grepper::errors::Error::Decode));
}

#[test]
fn invalid_marked_text_is_a_decode_error() {
    let language = rust_language();
    let query = compile_query(&language, "([(line_comment)(block_comment)])@c").unwrap();
    let cats = vec![MarkupCategory { tag: b"C".to_vec(), kind: MarkupKind::Delete, query }];
    let mut parser = tree_sitter::Parser::new();
    let source = b"fn main() {} // x \xff y\n".to_vec();
    let r = markup_source(&language, &cats, &source, &mut parser);
    assert_eq!(r, Err(tree_grepper::errors::Error::Decode));
}

#[test]
fn supplied_category_order_does_not_matter() {
    let source = b"abcdef".to_vec();
    let a = ResolvedCategory {
        tag: b"A".to_vec(),
        kind: MarkupKind::Wrap,
        regions: vec![region(2, 5)],
    };
    let b = ResolvedCategory {
        tag: b"B".to_vec(),
        kind: MarkupKind::Wrap,
        regions: vec![region(2, 4)],
    };
    let one = annotate(&source, &vec![a.clone(), b.clone()]);
    let other = annotate(&source, &vec![b, a]);
    assert_eq!(one, other);
    assert_eq!(one, b"ab<A><B>cdef".to_vec());
}

#[test]
fn elision_keeps_uncovered_bytes_in_order() {
    let source = b"0123456789".to_vec();
    let out = elide_regions(&source, &vec![region(1, 3), region(7, 9)]);
    assert_eq!(out, b"034569".to_vec());
}
