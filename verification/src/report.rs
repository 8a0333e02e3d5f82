//! The line report: one line per visible capture, in the form
//! `path:start_byte:start_row:start_col:end_byte:end_row:end_col:name:text`,
//! rows and columns 1-indexed.

use vstd::prelude::*;

use crate::extract::{ExtractedFile, ExtractedMatchV};
use crate::substitute::append_bytes;

verus! {

/// The decimal spelling of a number, most significant digit first.
pub open spec fn dec_spec(n: nat) -> Seq<u8>
    decreases n,
{
    if n < 10 {
        seq![(48 + n) as u8]
    } else {
        dec_spec(n / 10) + seq![(48 + (n % 10)) as u8]
    }
}

/// Spells a number in decimal.
pub fn dec_bytes(n: usize) -> (r: Vec<u8>)
    ensures
        r@ == dec_spec(n as nat),
    decreases n,
{
    if n < 10 {
        let mut r: Vec<u8> = Vec::new();
        r.push(48 + (n as u8));
        proof {
            assert(r@ =~= dec_spec(n as nat));
        }
        r
    } else {
        let mut r = dec_bytes(n / 10);
        r.push(48 + ((n % 10) as u8));
        proof {
            assert(r@ =~= dec_spec(n as nat));
        }
        r
    }
}

pub open spec fn field_sep() -> Seq<u8> {
    seq![58u8]
}

/// The label reported for a record without a file identity.
pub open spec fn no_file_label() -> Seq<u8> {
    seq![78u8, 79u8, 32u8, 70u8, 73u8, 76u8, 69u8]
}

pub open spec fn file_label(file: Option<Vec<u8>>) -> Seq<u8> {
    match file {
        Some(p) => p@,
        None => no_file_label(),
    }
}

/// One report line: the file label and the record's fields, separated
/// by colons, rows and columns 1-indexed, closed by a newline.
pub open spec fn report_line(filename: Seq<u8>, m: ExtractedMatchV) -> Seq<u8> {
    filename + field_sep() + dec_spec(m.start_byte as nat) + field_sep() + dec_spec(
        (m.start.row + 1) as nat,
    ) + field_sep() + dec_spec((m.start.column + 1) as nat) + field_sep() + dec_spec(
        m.end_byte as nat,
    ) + field_sep() + dec_spec((m.end.row + 1) as nat) + field_sep() + dec_spec(
        (m.end.column + 1) as nat,
    ) + field_sep() + m.name + field_sep() + m.text + seq![10u8]
}

/// The whole report: one line per record, in record order.
pub open spec fn report_of(filename: Seq<u8>, ms: Seq<ExtractedMatchV>) -> Seq<u8>
    decreases ms.len(),
{
    if ms.len() == 0 {
        Seq::empty()
    } else {
        report_of(filename, ms.drop_last()) + report_line(filename, ms.last())
    }
}

/// Renders one report line.
fn render_line(filename: &Vec<u8>, m: &crate::extract::ExtractedMatch) -> (r: Vec<u8>)
    requires
        m.start.row < usize::MAX,
        m.start.column < usize::MAX,
        m.end.row < usize::MAX,
        m.end.column < usize::MAX,
    ensures
        r@ == report_line(filename@, m@),
{
    let mut out: Vec<u8> = Vec::new();
    append_bytes(&mut out, filename.as_slice());
    out.push(58u8);
    let d1 = dec_bytes(m.start_byte);
    append_bytes(&mut out, d1.as_slice());
    out.push(58u8);
    let d2 = dec_bytes(m.start.row + 1);
    append_bytes(&mut out, d2.as_slice());
    out.push(58u8);
    let d3 = dec_bytes(m.start.column + 1);
    append_bytes(&mut out, d3.as_slice());
    out.push(58u8);
    let d4 = dec_bytes(m.end_byte);
    append_bytes(&mut out, d4.as_slice());
    out.push(58u8);
    let d5 = dec_bytes(m.end.row + 1);
    append_bytes(&mut out, d5.as_slice());
    out.push(58u8);
    let d6 = dec_bytes(m.end.column + 1);
    append_bytes(&mut out, d6.as_slice());
    out.push(58u8);
    append_bytes(&mut out, m.name.as_slice());
    out.push(58u8);
    append_bytes(&mut out, m.text.as_slice());
    out.push(10u8);
    proof {
        assert(out@ =~= report_line(filename@, m@));
    }
    out
}

/// Renders the line report of an extraction.  The rows and columns
/// must leave room for 1-indexing, a machine limit.
pub fn line_report(f: &ExtractedFile) -> (r: Vec<u8>)
    requires
        forall|k: int|
            0 <= k < f.matches@.len() ==> {
                &&& (#[trigger] f.matches@[k]).start.row < usize::MAX
                &&& f.matches@[k].start.column < usize::MAX
                &&& f.matches@[k].end.row < usize::MAX
                &&& f.matches@[k].end.column < usize::MAX
            },
    ensures
        r@ == report_of(file_label(f.file), f.matches.deep_view()),
{
    let mut filename: Vec<u8> = Vec::new();
    match &f.file {
        Some(p) => {
            append_bytes(&mut filename, p.as_slice());
        },
        None => {
            filename.push(78u8);
            filename.push(79u8);
            filename.push(32u8);
            filename.push(70u8);
            filename.push(73u8);
            filename.push(76u8);
            filename.push(69u8);
        },
    }
    proof {
        assert(filename@ =~= file_label(f.file));
    }
    let mut out: Vec<u8> = Vec::new();
    let mut j: usize = 0;
    while j < f.matches.len()
        invariant
            j <= f.matches@.len(),
            filename@ == file_label(f.file),
            forall|k: int|
                0 <= k < f.matches@.len() ==> {
                    &&& (#[trigger] f.matches@[k]).start.row < usize::MAX
                    &&& f.matches@[k].start.column < usize::MAX
                    &&& f.matches@[k].end.row < usize::MAX
                    &&& f.matches@[k].end.column < usize::MAX
                },
            out@ == report_of(file_label(f.file), f.matches.deep_view().subrange(0, j as int)),
        decreases f.matches@.len() - j,
    {
        let m = &f.matches[j];
        let ghost pre = f.matches.deep_view().subrange(0, j as int);
        let ghost now = f.matches.deep_view().subrange(0, j + 1 as int);
        let ghost out_pre = out@;
        proof {
            assert(now.drop_last() =~= pre);
            assert(now.last() == m.deep_view());
        }
        let line = render_line(&filename, m);
        append_bytes(&mut out, line.as_slice());
        proof {
            assert(out@ =~= out_pre + report_line(file_label(f.file), m.deep_view()));
        }
        j = j + 1;
    }
    proof {
        assert(f.matches.deep_view().subrange(0, f.matches@.len() as int)
            =~= f.matches.deep_view());
    }
    out
}

} // verus!
