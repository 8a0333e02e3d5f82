//! The match extractor: flattens query matches into structured capture
//! records, applies the ignore-prefix filter, and distinguishes "no
//! match" from "matched but fully suppressed".

use vstd::prelude::*;
use vstd::utf8::valid_utf8;

use crate::errors::Error;
use crate::provider::{Point, RawCapture, RawMatch};
use crate::provider::{is_valid_text, parser_parse, parser_set_language, query_capture_names, query_new, run_query};

verus! {

/// Compiles a query pattern for a grammar.  A malformed pattern or a
/// grammar mismatch is surfaced here, at compile time, never at match
/// time.
pub fn compile_query(language: &tree_sitter::Language, pattern: &str) -> (r: Result<
    tree_sitter::Query,
    Error,
>)
    ensures
        r is Err ==> r == Err::<tree_sitter::Query, Error>(Error::Compile),
{
    match query_new(language, pattern) {
        Ok(q) => Ok(q),
        Err(_) => Err(Error::Compile),
    }
}

/// The mathematical value of a capture record: the capture slot index,
/// the node's kind tag, the capture's name, the exact text slice, and
/// the byte and row/column ranges.
pub struct CaptureV {
    pub index: usize,
    pub kind: Seq<u8>,
    pub name: Seq<u8>,
    pub text: Seq<u8>,
    pub start_byte: usize,
    pub end_byte: usize,
    pub start: Point,
    pub end: Point,
}

/// One named node-to-text binding extracted by a single query
/// application.  `text` is the exact verbatim slice of the buffer at
/// `[start_byte, end_byte)`.
#[derive(Clone, Debug, PartialEq, Eq)]
pub struct Capture {
    pub index: usize,
    pub kind: Vec<u8>,
    pub name: Vec<u8>,
    pub text: Vec<u8>,
    pub start_byte: usize,
    pub end_byte: usize,
    pub start: Point,
    pub end: Point,
}

impl View for Capture {
    type V = CaptureV;

    open spec fn view(&self) -> CaptureV {
        CaptureV {
            index: self.index,
            kind: self.kind@,
            name: self.name@,
            text: self.text@,
            start_byte: self.start_byte,
            end_byte: self.end_byte,
            start: self.start,
            end: self.end,
        }
    }
}

impl DeepView for Capture {
    type V = CaptureV;

    open spec fn deep_view(&self) -> CaptureV {
        self@
    }
}

/// The mathematical value of an externally visible match record.
pub struct ExtractedMatchV {
    pub kind: Seq<u8>,
    pub name: Seq<u8>,
    pub text: Seq<u8>,
    pub start_byte: usize,
    pub end_byte: usize,
    pub start: Point,
    pub end: Point,
}

/// An externally visible match record: a capture record without the
/// internal capture slot index.
#[derive(Clone, Debug, PartialEq, Eq)]
pub struct ExtractedMatch {
    pub kind: Vec<u8>,
    pub name: Vec<u8>,
    pub text: Vec<u8>,
    pub start_byte: usize,
    pub end_byte: usize,
    pub start: Point,
    pub end: Point,
}

impl View for ExtractedMatch {
    type V = ExtractedMatchV;

    open spec fn view(&self) -> ExtractedMatchV {
        ExtractedMatchV {
            kind: self.kind@,
            name: self.name@,
            text: self.text@,
            start_byte: self.start_byte,
            end_byte: self.end_byte,
            start: self.start,
            end: self.end,
        }
    }
}

impl DeepView for ExtractedMatch {
    type V = ExtractedMatchV;

    open spec fn deep_view(&self) -> ExtractedMatchV {
        self@
    }
}

/// All visible records extracted from one source, with the source's
/// identity and file type.
#[derive(Clone, Debug, PartialEq, Eq)]
pub struct ExtractedFile {
    pub file: Option<Vec<u8>>,
    pub file_type: Vec<u8>,
    pub matches: Vec<ExtractedMatch>,
}

/// A capture whose name starts with the reserved ignore marker is kept
/// for internal reference resolution but excluded from the visible
/// result set.
pub open spec fn is_ignored_name(name: Seq<u8>) -> bool {
    name.len() > 0 && name[0] == 95u8
}

/// A raw capture denotes text in the buffer: its slot exists in the
/// query's name table, its byte range lies within the buffer, and the
/// covered bytes are valid text.
pub open spec fn capture_valid(names: Seq<Vec<u8>>, src: Seq<u8>, c: RawCapture) -> bool {
    &&& c.index < names.len()
    &&& c.start_byte <= c.end_byte
    &&& c.end_byte <= src.len()
    &&& valid_utf8(src.subrange(c.start_byte as int, c.end_byte as int))
}

/// The record that a valid raw capture flattens to.
pub open spec fn raw_record(names: Seq<Vec<u8>>, src: Seq<u8>, c: RawCapture) -> CaptureV
    recommends
        capture_valid(names, src, c),
{
    CaptureV {
        index: c.index,
        kind: c.kind@,
        name: names[c.index as int]@,
        text: src.subrange(c.start_byte as int, c.end_byte as int),
        start_byte: c.start_byte,
        end_byte: c.end_byte,
        start: c.start,
        end: c.end,
    }
}

pub open spec fn match_valid(names: Seq<Vec<u8>>, src: Seq<u8>, m: RawMatch) -> bool {
    forall|j: int| 0 <= j < m.captures@.len() ==> capture_valid(names, src, #[trigger] m.captures@[j])
}

pub open spec fn raw_all_valid(names: Seq<Vec<u8>>, src: Seq<u8>, raw: Seq<RawMatch>) -> bool {
    forall|i: int| 0 <= i < raw.len() ==> match_valid(names, src, #[trigger] raw[i])
}

/// The records of one raw match, in the provider's capture order.
pub open spec fn match_records_of(names: Seq<Vec<u8>>, src: Seq<u8>, m: RawMatch) -> Seq<CaptureV> {
    Seq::new(m.captures@.len(), |j: int| raw_record(names, src, m.captures@[j]))
}

/// The records of a whole raw match sequence, in match order.
pub open spec fn records_of(names: Seq<Vec<u8>>, src: Seq<u8>, raw: Seq<RawMatch>) -> Seq<
    Seq<CaptureV>,
> {
    Seq::new(raw.len(), |i: int| match_records_of(names, src, raw[i]))
}

/// Copies a byte slice into a fresh vector.
fn copy_bytes(v: &[u8]) -> (r: Vec<u8>)
    ensures
        r@ == v@,
{
    let mut r: Vec<u8> = Vec::new();
    let mut i: usize = 0;
    while i < v.len()
        invariant
            i <= v@.len(),
            r@ == v@.subrange(0, i as int),
        decreases v@.len() - i,
    {
        r.push(*vstd::slice::slice_index_get(v, i));
        proof {
            assert(r@ =~= v@.subrange(0, i + 1));
        }
        i = i + 1;
    }
    proof {
        assert(r@ =~= v@);
    }
    r
}

/// Flattens one raw capture into a record, or rejects it when it does
/// not denote valid text in the buffer.
fn capture_from_raw(names: &Vec<Vec<u8>>, source: &Vec<u8>, c: &RawCapture) -> (r: Result<
    Capture,
    Error,
>)
    ensures
        r is Ok <==> capture_valid(names@, source@, *c),
        r is Err ==> r == Err::<Capture, Error>(Error::Decode),
        r is Ok ==> r->Ok_0@ == raw_record(names@, source@, *c),
{
    if c.index >= names.len() {
        return Err(Error::Decode);
    }
    if c.start_byte > c.end_byte || c.end_byte > source.len() {
        return Err(Error::Decode);
    }
    let piece = vstd::slice::slice_subrange(source.as_slice(), c.start_byte, c.end_byte);
    if !is_valid_text(piece) {
        return Err(Error::Decode);
    }
    let text = copy_bytes(piece);
    let name = copy_bytes(names[c.index].as_slice());
    let kind = copy_bytes(c.kind.as_slice());
    Ok(
        Capture {
            index: c.index,
            kind,
            name,
            text,
            start_byte: c.start_byte,
            end_byte: c.end_byte,
            start: c.start,
            end: c.end,
        },
    )
}

/// Flattens every capture of every raw match into a record.  The whole
/// extraction aborts on the first capture that does not denote valid
/// text; no partial results are returned.
pub fn extract_records(names: &Vec<Vec<u8>>, source: &Vec<u8>, raw: &Vec<RawMatch>) -> (r: Result<
    Vec<Vec<Capture>>,
    Error,
>)
    ensures
        r is Ok <==> raw_all_valid(names@, source@, raw@),
        r is Err ==> r == Err::<Vec<Vec<Capture>>, Error>(Error::Decode),
        r is Ok ==> r->Ok_0.deep_view() == records_of(names@, source@, raw@),
{
    let mut out: Vec<Vec<Capture>> = Vec::new();
    let mut i: usize = 0;
    while i < raw.len()
        invariant
            i <= raw@.len(),
            out.deep_view().len() == i,
            forall|k: int|
                0 <= k < i ==> #[trigger] out.deep_view()[k] == match_records_of(
                    names@,
                    source@,
                    raw@[k],
                ),
            forall|k: int| 0 <= k < i ==> match_valid(names@, source@, #[trigger] raw@[k]),
        decreases raw@.len() - i,
    {
        let m = &raw[i];
        let mut caps: Vec<Capture> = Vec::new();
        let mut j: usize = 0;
        while j < m.captures.len()
            invariant
                j <= m.captures@.len(),
                0 <= i < raw@.len(),
                m == &raw[i as int],
                caps.deep_view().len() == j,
                forall|l: int|
                    0 <= l < j ==> #[trigger] caps.deep_view()[l] == raw_record(
                        names@,
                        source@,
                        m.captures@[l],
                    ),
                forall|l: int|
                    0 <= l < j ==> capture_valid(names@, source@, #[trigger] m.captures@[l]),
            decreases m.captures@.len() - j,
        {
            match capture_from_raw(names, source, &m.captures[j]) {
                Ok(rec) => {
                    let ghost caps_pre = caps.deep_view();
                    caps.push(rec);
                    proof {
                        assert(caps.deep_view() =~= caps_pre.push(rec.deep_view()));
                    }
                },
                Err(e) => {
                    proof {
                        assert(!capture_valid(names@, source@, m.captures@[j as int]));
                        assert(!match_valid(names@, source@, raw@[i as int]));
                        assert(!raw_all_valid(names@, source@, raw@));
                    }
                    return Err(e);
                },
            }
            j = j + 1;
        }
        proof {
            assert(caps.deep_view() =~= match_records_of(names@, source@, raw@[i as int]));
        }
        let ghost out_pre = out.deep_view();
        let ghost caps_dv = caps.deep_view();
        out.push(caps);
        proof {
            assert(out.deep_view() =~= out_pre.push(caps_dv));
        }
        i = i + 1;
    }
    proof {
        assert(out.deep_view() =~~= records_of(names@, source@, raw@));
    }
    Ok(out)
}

/// The visible part of one match's records: the captures whose names do
/// not start with the ignore marker, in capture order.
pub open spec fn visible_one(caps: Seq<CaptureV>) -> Seq<CaptureV>
    decreases caps.len(),
{
    if caps.len() == 0 {
        Seq::empty()
    } else if is_ignored_name(caps.last().name) {
        visible_one(caps.drop_last())
    } else {
        visible_one(caps.drop_last()).push(caps.last())
    }
}

/// The visible records of a whole extraction, flattened in match order.
pub open spec fn visible_of(ms: Seq<Seq<CaptureV>>) -> Seq<CaptureV>
    decreases ms.len(),
{
    if ms.len() == 0 {
        Seq::empty()
    } else {
        visible_of(ms.drop_last()) + visible_one(ms.last())
    }
}

/// The externally visible form of a record: the same fields without the
/// capture slot index.
pub open spec fn shed_index(c: CaptureV) -> ExtractedMatchV {
    ExtractedMatchV {
        kind: c.kind,
        name: c.name,
        text: c.text,
        start_byte: c.start_byte,
        end_byte: c.end_byte,
        start: c.start,
        end: c.end,
    }
}

/// Decides the ignore marker on a capture name.
fn name_ignored(name: &Vec<u8>) -> (r: bool)
    ensures
        r == is_ignored_name(name@),
{
    name.len() > 0 && name[0] == 95u8
}

/// The records correspond to the extractor's own name table: every
/// capture slot index is in range and carries that slot's name.
pub open spec fn records_consistent(names: Seq<Vec<u8>>, records: Seq<Seq<CaptureV>>) -> bool {
    forall|i: int, j: int|
        0 <= i < records.len() && 0 <= j < records[i].len() ==> {
            &&& (#[trigger] records[i][j]).index < names.len()
            &&& records[i][j].name == names[records[i][j].index as int]@
        }
}

/// Flattens the records into the externally visible result set,
/// excluding captures whose slot is in the precomputed ignore set.
fn visible_records(e: &Extractor, records: &Vec<Vec<Capture>>) -> (r: Vec<ExtractedMatch>)
    requires
        e.wf(),
        records_consistent(e.captures@, records.deep_view()),
    ensures
        r.deep_view() == visible_of(records.deep_view()).map_values(|c: CaptureV| shed_index(c)),
{
    let mut out: Vec<ExtractedMatch> = Vec::new();
    let mut i: usize = 0;
    while i < records.len()
        invariant
            i <= records@.len(),
            e.wf(),
            records_consistent(e.captures@, records.deep_view()),
            out.deep_view() == visible_of(records.deep_view().subrange(0, i as int)).map_values(
                |c: CaptureV| shed_index(c),
            ),
        decreases records@.len() - i,
    {
        let m = &records[i];
        let ghost pre = records.deep_view().subrange(0, i as int);
        let mut j: usize = 0;
        while j < m.len()
            invariant
                j <= m@.len(),
                0 <= i < records@.len(),
                e.wf(),
                records_consistent(e.captures@, records.deep_view()),
                m == &records[i as int],
                pre == records.deep_view().subrange(0, i as int),
                out.deep_view() == (visible_of(pre) + visible_one(
                    m.deep_view().subrange(0, j as int),
                )).map_values(|c: CaptureV| shed_index(c)),
            decreases m@.len() - j,
        {
            let c = &m[j];
            let ghost caps_pre = m.deep_view().subrange(0, j as int);
            let ghost caps_now = m.deep_view().subrange(0, j + 1 as int);
            proof {
                assert(caps_now.drop_last() =~= caps_pre);
                assert(caps_now.last() == c.deep_view());
                assert(records.deep_view()[i as int][j as int] == c.deep_view());
            }
            let suppressed = e.ignores[c.index];
            proof {
                assert(suppressed == is_ignored_name(c.deep_view().name));
            }
            if !suppressed {
                let e = ExtractedMatch {
                    kind: copy_bytes(c.kind.as_slice()),
                    name: copy_bytes(c.name.as_slice()),
                    text: copy_bytes(c.text.as_slice()),
                    start_byte: c.start_byte,
                    end_byte: c.end_byte,
                    start: c.start,
                    end: c.end,
                };
                assert(e.deep_view() == shed_index(c.deep_view()));
                let ghost out_pre = out.deep_view();
                out.push(e);
                proof {
                    assert(out.deep_view() =~= out_pre.push(shed_index(c.deep_view())));
                    assert(visible_one(caps_now) == visible_one(caps_pre).push(c.deep_view()));
                    assert(out.deep_view() =~= (visible_of(pre) + visible_one(
                        caps_now,
                    )).map_values(|cc: CaptureV| shed_index(cc)));
                }
            } else {
                proof {
                    assert(visible_one(caps_now) == visible_one(caps_pre));
                }
            }
            j = j + 1;
        }
        proof {
            assert(m.deep_view().subrange(0, m@.len() as int) =~= m.deep_view());
            let now = records.deep_view().subrange(0, i + 1 as int);
            assert(now.drop_last() =~= pre);
            assert(now.last() == m.deep_view());
        }
        i = i + 1;
    }
    proof {
        assert(records.deep_view().subrange(0, records@.len() as int) =~= records.deep_view());
    }
    out
}

/// The visible result set of an extraction, as mathematical values.
pub open spec fn visible_views(names: Seq<Vec<u8>>, src: Seq<u8>, raw: Seq<RawMatch>) -> Seq<
    ExtractedMatchV,
> {
    visible_of(records_of(names, src, raw)).map_values(|c: CaptureV| shed_index(c))
}

/// The extractor: a grammar, a compiled query, the query's capture
/// names (index-addressable), the precomputed ignore set, the decoded
/// substitution directives, and the name of the file type the grammar
/// belongs to.
#[derive(Debug)]
pub struct Extractor {
    pub language: tree_sitter::Language,
    pub query: tree_sitter::Query,
    pub captures: Vec<Vec<u8>>,
    pub ignores: Vec<bool>,
    pub directives: Vec<crate::substitute::SubstitutionDirective>,
    pub file_type: Vec<u8>,
}

impl Extractor {
    /// The ignore set mirrors the ignore marker on the capture names.
    pub open spec fn wf(&self) -> bool {
        &&& self.ignores@.len() == self.captures@.len()
        &&& forall|i: int|
            0 <= i < self.captures@.len() ==> self.ignores@[i] == is_ignored_name(
                #[trigger] self.captures@[i]@,
            )
    }

    /// Builds an extractor for a grammar and a compiled query: reads
    /// the query's capture names once, precomputes which capture slots
    /// carry the ignore marker, and decodes the query's substitution
    /// directives once, at query-compile time.
    pub fn new(
        language: tree_sitter::Language,
        query: tree_sitter::Query,
        file_type: Vec<u8>,
    ) -> (r: Extractor)
        ensures
            r.wf(),
            r.language == language,
            r.query == query,
            r.file_type == file_type,
    {
        let captures = query_capture_names(&query);
        let preds = crate::provider::query_general_predicates(&query);
        let directives = crate::substitute::decode_directives(&preds);
        let mut ignores: Vec<bool> = Vec::new();
        let mut i: usize = 0;
        while i < captures.len()
            invariant
                i <= captures@.len(),
                ignores@.len() == i,
                forall|k: int|
                    0 <= k < i ==> ignores@[k] == is_ignored_name(#[trigger] captures@[k]@),
            decreases captures@.len() - i,
        {
            let b = name_ignored(&captures[i]);
            ignores.push(b);
            i = i + 1;
        }
        Extractor { language, query, captures, ignores, directives, file_type }
    }

    /// The grammar this extractor was built for.
    pub fn language(&self) -> (r: &tree_sitter::Language)
        ensures
            r == &self.language,
    {
        &self.language
    }

    /// Flattens raw matches over a buffer into the externally visible
    /// result set.  Returns `Ok(None)` when the result set is empty
    /// after ignore-filtering, so a caller can distinguish "matched but
    /// fully suppressed" from "did not match"; aborts with a decode
    /// error when some capture does not denote valid text.
    pub fn extract_visible(&self, source: &Vec<u8>, raw: &Vec<RawMatch>) -> (r: Result<
        Option<Vec<ExtractedMatch>>,
        Error,
    >)
        requires
            self.wf(),
        ensures
            r is Ok <==> raw_all_valid(self.captures@, source@, raw@),
            r is Err ==> r == Err::<Option<Vec<ExtractedMatch>>, Error>(Error::Decode),
            r is Ok ==> (r->Ok_0 is Some <==> visible_views(self.captures@, source@, raw@).len()
                != 0),
            r matches Ok(Some(v)) ==> v.deep_view() == visible_views(
                self.captures@,
                source@,
                raw@,
            ),
    {
        let records = match extract_records(&self.captures, source, raw) {
            Ok(rs) => rs,
            Err(e) => {
                return Err(e);
            },
        };
        proof {
            assert forall|i: int, j: int|
                0 <= i < records.deep_view().len() && 0 <= j
                    < records.deep_view()[i].len() implies {
                &&& (#[trigger] records.deep_view()[i][j]).index < self.captures@.len()
                &&& records.deep_view()[i][j].name == self.captures@[records.deep_view()[i][j].index as int]@
            } by {
                assert(capture_valid(self.captures@, source@, raw@[i].captures@[j]));
            }
        }
        let vis = visible_records(self, &records);
        if vis.len() == 0 {
            Ok(None)
        } else {
            Ok(Some(vis))
        }
    }

    /// Runs the query over one source text: binds the grammar, parses,
    /// runs the query, and extracts the visible result set.  Whatever
    /// the provider returns, a produced file carries the given file
    /// identity, this extractor's file type, and a non-empty visible
    /// result set; every failure is one of the typed errors.
    pub fn extract_from_text(
        &self,
        file: Option<Vec<u8>>,
        source: &Vec<u8>,
        parser: &mut tree_sitter::Parser,
    ) -> (r: Result<Option<ExtractedFile>, Error>)
        requires
            self.wf(),
        ensures
            r matches Ok(Some(f)) ==> {
                &&& f.file == file
                &&& f.file_type@ == self.file_type@
                &&& f.matches@.len() > 0
            },
            r matches Ok(Some(f)) ==> exists|raw: Seq<RawMatch>|
                {
                    &&& raw_all_valid(self.captures@, source@, raw)
                    &&& f.matches.deep_view() == visible_views(self.captures@, source@, raw)
                },
            r matches Ok(None) ==> exists|raw: Seq<RawMatch>|
                {
                    &&& raw_all_valid(self.captures@, source@, raw)
                    &&& visible_views(self.captures@, source@, raw).len() == 0
                },
            r is Err ==> (r == Err::<Option<ExtractedFile>, Error>(Error::Compile) || r == Err::<
                Option<ExtractedFile>,
                Error,
            >(Error::Parse) || r == Err::<Option<ExtractedFile>, Error>(Error::Decode)),
    {
        match parser_set_language(parser, &self.language) {
            Ok(_) => (),
            Err(_) => {
                return Err(Error::Compile);
            },
        }
        let tree = match parser_parse(parser, source.as_slice()) {
            Some(t) => t,
            None => {
                return Err(Error::Parse);
            },
        };
        let raw = run_query(&self.query, &tree, source.as_slice());
        match self.extract_visible(source, &raw) {
            Ok(Some(ms)) => {
                proof {
                    assert(raw_all_valid(self.captures@, source@, raw@) && ms.deep_view()
                        == visible_views(self.captures@, source@, raw@));
                }
                Ok(
                    Some(
                        ExtractedFile {
                            file,
                            file_type: copy_bytes(self.file_type.as_slice()),
                            matches: ms,
                        },
                    ),
                )
            },
            Ok(None) => {
                proof {
                    assert(raw_all_valid(self.captures@, source@, raw@) && visible_views(
                        self.captures@,
                        source@,
                        raw@,
                    ).len() == 0);
                }
                Ok(None)
            },
            Err(e) => Err(e),
        }
    }
}

/// For a fixed buffer and a fixed sequence of raw matches, the record
/// sequence — and with it the match and capture order — is a function
/// of those inputs alone: any two extractions of the same input yield
/// the same records.
pub proof fn lemma_extraction_deterministic(
    names: Seq<Vec<u8>>,
    src: Seq<u8>,
    raw: Seq<RawMatch>,
    a: Seq<Seq<CaptureV>>,
    b: Seq<Seq<CaptureV>>,
)
    requires
        a == records_of(names, src, raw),
        b == records_of(names, src, raw),
    ensures
        a == b,
        visible_of(a) == visible_of(b),
{
}

} // verus!
