use tree_grepper::extract::{ExtractedFile, ExtractedMatch};
use tree_grepper::provider::Point;
use tree_grepper::report::line_report;

fn one_match() -> ExtractedMatch {
    ExtractedMatch {
        kind: b"identifier".to_vec(),
        name: b"name".to_vec(),
        text: b"text".to_vec(),
        start_byte: 5,
        end_byte: 9,
        start: Point { row: 1, column: 2 },
        end: Point { row: 1, column: 6 },
    }
}

#[test]
fn report_line_is_colon_separated_and_one_indexed() {
    let f = ExtractedFile {
        file: Some(b"src/a.rs".to_vec()),
        file_type: b"rust".to_vec(),
        matches: vec![one_match()],
    };
    let r = line_report(&f);
    assert_eq!(r, b"src/a.rs:5:2:3:9:2:7:name:text\n".to_vec());
}

#[test]
fn report_without_file_uses_the_no_file_label() {
    let f = ExtractedFile { file: None, file_type: b"rust".to_vec(), matches: vec![one_match()] };
    let r = line_report(&f);
    assert_eq!(r, b"NO FILE:5:2:3:9:2:7:name:text\n".to_vec());
}

#[test]
fn report_spells_large_numbers_in_decimal() {
    let mut m = one_match();
    m.start_byte = 0;
    m.end_byte = 1234;
    let f = ExtractedFile { file: None, file_type: b"rust".to_vec(), matches: vec![m] };
    let r = line_report(&f);
    assert_eq!(r, b"NO FILE:0:2:3:1234:2:7:name:text\n".to_vec());
}

#[test]
fn report_emits_one_line_per_match_in_order() {
    let mut m2 = one_match();
    m2.name = b"second".to_vec();
    let f = ExtractedFile {
        file: Some(b"x".to_vec()),
        file_type: b"rust".to_vec(),
        matches: vec![one_match(), m2],
    };
    let r = line_report(&f);
    assert_eq!(r, b"x:5:2:3:9:2:7:name:text\nx:5:2:3:9:2:7:second:text\n".to_vec());
}
