//! The item splitter: partitions a source file into top-level
//! declaration spans via a dedicated query, and deduplicates derived
//! artifacts by content address, with the unsafe-containing
//! classification taking precedence over the clean one.

use vstd::prelude::*;
use vstd::pervasive::VecAdditionalExecFns;

use crate::errors::Error;
use crate::extract::{Capture, CaptureV, extract_records};
use crate::provider::{content_digest, md5_of, parser_parse, parser_set_language, query_capture_names, run_query};
use crate::markup::MarkupKind;
use crate::substitute::{append_bytes, bytes_equal};

verus! {

/// The mathematical value of a node record.
pub struct ExtractedNodeV {
    pub name: Seq<u8>,
    pub start_byte: usize,
    pub end_byte: usize,
}

/// A capture reduced to what the splitter reads: its name and its byte
/// range.
#[derive(Clone, Debug, PartialEq, Eq)]
pub struct ExtractedNode {
    pub name: Vec<u8>,
    pub start_byte: usize,
    pub end_byte: usize,
}

impl View for ExtractedNode {
    type V = ExtractedNodeV;

    open spec fn view(&self) -> ExtractedNodeV {
        ExtractedNodeV {
            name: self.name@,
            start_byte: self.start_byte,
            end_byte: self.end_byte,
        }
    }
}

impl DeepView for ExtractedNode {
    type V = ExtractedNodeV;

    open spec fn deep_view(&self) -> ExtractedNodeV {
        self@
    }
}

/// The node records of a whole extraction, flattened in match and
/// capture order.
pub open spec fn nodes_flat(ms: Seq<Seq<CaptureV>>) -> Seq<ExtractedNodeV>
    decreases ms.len(),
{
    if ms.len() == 0 {
        Seq::empty()
    } else {
        nodes_flat(ms.drop_last()) + ms.last().map_values(
            |c: CaptureV|
                ExtractedNodeV { name: c.name, start_byte: c.start_byte, end_byte: c.end_byte },
        )
    }
}

/// Reduces extracted records to node records.
pub fn nodes_from_records(records: &Vec<Vec<Capture>>) -> (r: Vec<ExtractedNode>)
    ensures
        r.deep_view() == nodes_flat(records.deep_view()),
{
    let mut out: Vec<ExtractedNode> = Vec::new();
    let mut i: usize = 0;
    while i < records.len()
        invariant
            i <= records@.len(),
            out.deep_view() == nodes_flat(records.deep_view().subrange(0, i as int)),
        decreases records@.len() - i,
    {
        let m = &records[i];
        let ghost pre = records.deep_view().subrange(0, i as int);
        let mut j: usize = 0;
        while j < m.len()
            invariant
                j <= m@.len(),
                0 <= i < records@.len(),
                m == &records[i as int],
                pre == records.deep_view().subrange(0, i as int),
                out.deep_view() == nodes_flat(pre) + m.deep_view().subrange(0, j as int)
                    .map_values(
                    |c: CaptureV|
                        ExtractedNodeV {
                            name: c.name,
                            start_byte: c.start_byte,
                            end_byte: c.end_byte,
                        },
                ),
            decreases m@.len() - j,
        {
            let c = &m[j];
            let ghost out_pre = out.deep_view();
            let mut name: Vec<u8> = Vec::new();
            append_bytes(&mut name, c.name.as_slice());
            let node = ExtractedNode { name, start_byte: c.start_byte, end_byte: c.end_byte };
            out.push(node);
            proof {
                assert(out.deep_view() =~= out_pre.push(node.deep_view()));
                assert(m.deep_view().subrange(0, j + 1 as int).map_values(
                    |cc: CaptureV|
                        ExtractedNodeV {
                            name: cc.name,
                            start_byte: cc.start_byte,
                            end_byte: cc.end_byte,
                        },
                ) =~= m.deep_view().subrange(0, j as int).map_values(
                    |cc: CaptureV|
                        ExtractedNodeV {
                            name: cc.name,
                            start_byte: cc.start_byte,
                            end_byte: cc.end_byte,
                        },
                ).push(node.deep_view()));
                assert(out.deep_view() =~= nodes_flat(pre) + m.deep_view().subrange(
                    0,
                    j + 1 as int,
                ).map_values(
                    |cc: CaptureV|
                        ExtractedNodeV {
                            name: cc.name,
                            start_byte: cc.start_byte,
                            end_byte: cc.end_byte,
                        },
                ));
            }
            j = j + 1;
        }
        proof {
            assert(m.deep_view().subrange(0, m@.len() as int) =~= m.deep_view());
            let now = records.deep_view().subrange(0, i + 1 as int);
            assert(now.drop_last() =~= pre);
            assert(now.last() == m.deep_view());
        }
        i = i + 1;
    }
    proof {
        assert(records.deep_view().subrange(0, records@.len() as int) =~= records.deep_view());
    }
    out
}

/// The view of the executable span map.
pub open spec fn span_views(m: Seq<(usize, Vec<u8>)>) -> Seq<(usize, Seq<u8>)> {
    m.map_values(|p: (usize, Vec<u8>)| (p.0, p.1@))
}

/// The span map with one binding set: the first entry under the key is
/// replaced — last insertion wins — and a fresh key goes to the end.
pub open spec fn upsert_span(m: Seq<(usize, Seq<u8>)>, key: usize, val: Seq<u8>) -> Seq<
    (usize, Seq<u8>),
>
    decreases m.len(),
{
    if m.len() == 0 {
        seq![(key, val)]
    } else if m.first().0 == key {
        seq![(key, val)] + m.drop_first()
    } else {
        seq![m.first()] + upsert_span(m.drop_first(), key, val)
    }
}

proof fn lemma_upsert_found(mv: Seq<(usize, Seq<u8>)>, key: usize, val: Seq<u8>, i: int)
    requires
        0 <= i < mv.len(),
        mv[i].0 == key,
        forall|j: int| 0 <= j < i ==> (#[trigger] mv[j]).0 != key,
    ensures
        upsert_span(mv, key, val) == mv.update(i, (key, val)),
    decreases mv.len(),
{
    if i == 0 {
        assert(mv.first().0 == key);
        assert(seq![(key, val)] + mv.drop_first() =~= mv.update(0, (key, val)));
    } else {
        assert(mv[0].0 != key);
        let rest = mv.drop_first();
        assert forall|j: int| 0 <= j < i - 1 implies (#[trigger] rest[j]).0 != key by {
            assert(rest[j] == mv[j + 1]);
        }
        assert(rest[i - 1] == mv[i]);
        lemma_upsert_found(rest, key, val, i - 1);
        assert(seq![mv.first()] + rest.update(i - 1, (key, val)) =~= mv.update(i, (key, val)));
    }
}

proof fn lemma_upsert_missing(mv: Seq<(usize, Seq<u8>)>, key: usize, val: Seq<u8>)
    requires
        forall|j: int| 0 <= j < mv.len() ==> (#[trigger] mv[j]).0 != key,
    ensures
        upsert_span(mv, key, val) == mv.push((key, val)),
    decreases mv.len(),
{
    if mv.len() == 0 {
        assert(seq![(key, val)] =~= mv.push((key, val)));
    } else {
        assert(mv[0].0 != key);
        let rest = mv.drop_first();
        assert forall|j: int| 0 <= j < rest.len() implies (#[trigger] rest[j]).0 != key by {
            assert(rest[j] == mv[j + 1]);
        }
        lemma_upsert_missing(rest, key, val);
        assert(seq![mv.first()] + rest.push((key, val)) =~= mv.push((key, val)));
    }
}

/// Sets one binding of the span map, replacing the entry under the key
/// or appending a fresh one.
fn upsert_entry(m: &mut Vec<(usize, Vec<u8>)>, key: usize, val: Vec<u8>)
    ensures
        span_views(final(m)@) == upsert_span(span_views(old(m)@), key, val@),
{
    let ghost mv = span_views(m@);
    let mut i: usize = 0;
    while i < m.len()
        invariant
            i <= m@.len(),
            mv == span_views(m@),
            mv == span_views(old(m)@),
            forall|j: int| 0 <= j < i ==> (#[trigger] mv[j]).0 != key,
        decreases m@.len() - i,
    {
        proof {
            assert(mv[i as int].0 == m@[i as int].0);
        }
        if m[i].0 == key {
            m.set(i, (key, val));
            proof {
                assert(span_views(m@) =~= mv.update(i as int, (key, val@)));
                lemma_upsert_found(mv, key, val@, i as int);
            }
            return;
        }
        i = i + 1;
    }
    m.push((key, val));
    proof {
        assert(span_views(m@) =~= mv.push((key, val@)));
        lemma_upsert_missing(mv, key, val@);
    }
}

/// The capture names the splitter's query selects spans by.
pub open spec fn span_capture_name(name: Seq<u8>) -> bool {
    name == seq![117u8, 98u8] || name == seq![98u8]
}

/// What one node contributes to the span map: a selected node whose
/// range lies within the buffer binds its start offset to its bytes; a
/// range outside the buffer denotes nothing and is skipped (it cannot
/// arise from an extraction, which rejects such a capture).
pub open spec fn span_step(
    acc: Seq<(usize, Seq<u8>)>,
    src: Seq<u8>,
    n: ExtractedNodeV,
) -> Seq<(usize, Seq<u8>)> {
    if span_capture_name(n.name) && n.start_byte <= n.end_byte && n.end_byte <= src.len() {
        upsert_span(acc, n.start_byte, src.subrange(n.start_byte as int, n.end_byte as int))
    } else {
        acc
    }
}

/// The span map a node list folds to, in node order.
pub open spec fn spans_fold(
    acc: Seq<(usize, Seq<u8>)>,
    src: Seq<u8>,
    nodes: Seq<ExtractedNodeV>,
) -> Seq<(usize, Seq<u8>)>
    decreases nodes.len(),
{
    if nodes.len() == 0 {
        acc
    } else {
        span_step(spans_fold(acc, src, nodes.drop_last()), src, nodes.last())
    }
}

/// The mapping from start offset to span bytes that a node list
/// induces over a buffer.
pub open spec fn spans_of(src: Seq<u8>, nodes: Seq<ExtractedNodeV>) -> Seq<(usize, Seq<u8>)> {
    spans_fold(Seq::empty(), src, nodes)
}

/// A span map entry is a verbatim slice of the buffer keyed by its
/// start offset.
pub open spec fn span_entry_verbatim(src: Seq<u8>, p: (usize, Seq<u8>)) -> bool {
    &&& p.0 + p.1.len() <= src.len()
    &&& p.1 == src.subrange(p.0 as int, p.0 + p.1.len())
}

proof fn lemma_upsert_verbatim(m: Seq<(usize, Seq<u8>)>, key: usize, val: Seq<u8>, src: Seq<u8>)
    requires
        forall|k: int| 0 <= k < m.len() ==> span_entry_verbatim(src, #[trigger] m[k]),
        span_entry_verbatim(src, (key, val)),
    ensures
        forall|k: int|
            0 <= k < upsert_span(m, key, val).len() ==> span_entry_verbatim(
                src,
                #[trigger] upsert_span(m, key, val)[k],
            ),
    decreases m.len(),
{
    let u = upsert_span(m, key, val);
    if m.len() == 0 {
        assert(u[0] == (key, val));
    } else if m.first().0 == key {
        assert forall|k: int| 0 <= k < u.len() implies span_entry_verbatim(src, #[trigger] u[k]) by {
            if k == 0 {
                assert(u[0] == (key, val));
            } else {
                assert(u[k] == m[k]);
            }
        }
    } else {
        let rest = m.drop_first();
        assert forall|k: int| 0 <= k < rest.len() implies span_entry_verbatim(
            src,
            #[trigger] rest[k],
        ) by {
            assert(rest[k] == m[k + 1]);
        }
        lemma_upsert_verbatim(rest, key, val, src);
        assert forall|k: int| 0 <= k < u.len() implies span_entry_verbatim(src, #[trigger] u[k]) by {
            if k == 0 {
                assert(u[0] == m[0]);
            } else {
                assert(u[k] == upsert_span(rest, key, val)[k - 1]);
            }
        }
    }
}

proof fn lemma_spans_fold_verbatim(
    acc: Seq<(usize, Seq<u8>)>,
    src: Seq<u8>,
    nodes: Seq<ExtractedNodeV>,
)
    requires
        forall|k: int| 0 <= k < acc.len() ==> span_entry_verbatim(src, #[trigger] acc[k]),
    ensures
        forall|k: int|
            0 <= k < spans_fold(acc, src, nodes).len() ==> span_entry_verbatim(
                src,
                #[trigger] spans_fold(acc, src, nodes)[k],
            ),
    decreases nodes.len(),
{
    if nodes.len() == 0 {
    } else {
        lemma_spans_fold_verbatim(acc, src, nodes.drop_last());
        let n = nodes.last();
        let prev = spans_fold(acc, src, nodes.drop_last());
        let whole = spans_fold(acc, src, nodes);
        if span_capture_name(n.name) && n.start_byte <= n.end_byte && n.end_byte <= src.len() {
            let val = src.subrange(n.start_byte as int, n.end_byte as int);
            assert(val =~= src.subrange(n.start_byte as int, n.start_byte + val.len()));
            assert(span_entry_verbatim(src, (n.start_byte, val)));
            lemma_upsert_verbatim(prev, n.start_byte, val, src);
            assert(whole == upsert_span(prev, n.start_byte, val));
            assert forall|k: int| 0 <= k < whole.len() implies span_entry_verbatim(
                src,
                #[trigger] whole[k],
            ) by {
                assert(whole[k] == upsert_span(prev, n.start_byte, val)[k]);
            }
        } else {
            assert(whole == prev);
        }
    }
}

/// Every entry of the span map is the verbatim slice of the buffer at
/// its own range: the bytes at `[start, start + len)` under the key
/// `start`.
pub proof fn lemma_spans_verbatim(src: Seq<u8>, nodes: Seq<ExtractedNodeV>)
    ensures
        forall|k: int|
            0 <= k < spans_of(src, nodes).len() ==> span_entry_verbatim(
                src,
                #[trigger] spans_of(src, nodes)[k],
            ),
{
    lemma_spans_fold_verbatim(Seq::empty(), src, nodes);
}

fn name_selected(name: &Vec<u8>) -> (r: bool)
    ensures
        r == span_capture_name(name@),
{
    let mut ub: Vec<u8> = Vec::new();
    ub.push(117u8);
    ub.push(98u8);
    let mut b: Vec<u8> = Vec::new();
    b.push(98u8);
    proof {
        assert(ub@ =~= seq![117u8, 98u8]);
        assert(b@ =~= seq![98u8]);
    }
    bytes_equal(name, &ub) || bytes_equal(name, &b)
}

/// Builds the mapping from start offset to span bytes: every selected
/// node binds its start offset to its verbatim slice of the buffer,
/// last binding winning, in the deterministic node order.
pub fn split_spans(source: &Vec<u8>, nodes: &Vec<ExtractedNode>) -> (r: Vec<(usize, Vec<u8>)>)
    ensures
        span_views(r@) == spans_of(source@, nodes.deep_view()),
{
    let mut out: Vec<(usize, Vec<u8>)> = Vec::new();
    let mut i: usize = 0;
    proof {
        assert(span_views(out@) =~= Seq::<(usize, Seq<u8>)>::empty());
    }
    while i < nodes.len()
        invariant
            i <= nodes@.len(),
            span_views(out@) == spans_fold(
                Seq::empty(),
                source@,
                nodes.deep_view().subrange(0, i as int),
            ),
        decreases nodes@.len() - i,
    {
        let n = &nodes[i];
        let ghost pre = nodes.deep_view().subrange(0, i as int);
        let ghost now = nodes.deep_view().subrange(0, i + 1 as int);
        proof {
            assert(now.drop_last() =~= pre);
            assert(now.last() == n.deep_view());
        }
        if name_selected(&n.name) && n.start_byte <= n.end_byte && n.end_byte <= source.len() {
            let piece = vstd::slice::slice_subrange(source.as_slice(), n.start_byte, n.end_byte);
            let mut val: Vec<u8> = Vec::new();
            append_bytes(&mut val, piece);
            upsert_entry(&mut out, n.start_byte, val);
        }
        i = i + 1;
    }
    proof {
        assert(nodes.deep_view().subrange(0, nodes@.len() as int) =~= nodes.deep_view());
    }
    out
}

/// Splits one source into its top-level declaration spans: parses it,
/// runs the splitter's query, and folds the selected nodes into the
/// span map.  The map is some node list's span fold over the buffer,
/// so every entry is the verbatim slice of the buffer at its own
/// range; every failure is one of the typed errors.
pub fn splitup(
    language: &tree_sitter::Language,
    query: &tree_sitter::Query,
    source: &Vec<u8>,
    parser: &mut tree_sitter::Parser,
) -> (r: Result<Vec<(usize, Vec<u8>)>, Error>)
    ensures
        r is Err ==> (r == Err::<Vec<(usize, Vec<u8>)>, Error>(Error::Compile) || r == Err::<
            Vec<(usize, Vec<u8>)>,
            Error,
        >(Error::Parse) || r == Err::<Vec<(usize, Vec<u8>)>, Error>(Error::Decode)),
        r matches Ok(spans) ==> exists|nodes: Seq<ExtractedNodeV>|
            span_views(spans@) == spans_of(source@, nodes),
        r matches Ok(spans) ==> forall|k: int|
            0 <= k < spans@.len() ==> span_entry_verbatim(
                source@,
                #[trigger] span_views(spans@)[k],
            ),
{
    match parser_set_language(parser, language) {
        Ok(_) => (),
        Err(_) => {
            return Err(Error::Compile);
        },
    }
    let tree = match parser_parse(parser, source.as_slice()) {
        Some(t) => t,
        None => {
            return Err(Error::Parse);
        },
    };
    let raw = run_query(query, &tree, source.as_slice());
    let names = query_capture_names(query);
    let records = match extract_records(&names, source, &raw) {
        Ok(rs) => rs,
        Err(e) => {
            return Err(e);
        },
    };
    let nodes = nodes_from_records(&records);
    let spans = split_spans(source, &nodes);
    proof {
        assert(span_views(spans@) == spans_of(source@, nodes.deep_view()));
        lemma_spans_verbatim(source@, nodes.deep_view());
    }
    Ok(spans)
}

/// One lowercase hex digit.
pub open spec fn hex_digit(n: u8) -> u8
    recommends
        n < 16,
{
    if n < 10 {
        (48 + n) as u8
    } else {
        (87 + n) as u8
    }
}

/// The lowercase hex spelling of a byte sequence, two digits per byte.
pub open spec fn hex_of(bytes: Seq<u8>) -> Seq<u8>
    decreases bytes.len(),
{
    if bytes.len() == 0 {
        Seq::empty()
    } else {
        hex_of(bytes.drop_last()) + seq![
            hex_digit(bytes.last() / 16),
            hex_digit(bytes.last() % 16),
        ]
    }
}

fn hex_digit_byte(n: u8) -> (r: u8)
    requires
        n < 16,
    ensures
        r == hex_digit(n),
{
    if n < 10 {
        48 + n
    } else {
        87 + n
    }
}

/// Spells a byte sequence in lowercase hex.
pub fn hex_bytes(bytes: &Vec<u8>) -> (r: Vec<u8>)
    ensures
        r@ == hex_of(bytes@),
{
    let mut out: Vec<u8> = Vec::new();
    let mut i: usize = 0;
    while i < bytes.len()
        invariant
            i <= bytes@.len(),
            out@ == hex_of(bytes@.subrange(0, i as int)),
        decreases bytes@.len() - i,
    {
        let ghost pre = bytes@.subrange(0, i as int);
        let ghost now = bytes@.subrange(0, i + 1 as int);
        proof {
            assert(now.drop_last() =~= pre);
            assert(now.last() == bytes@[i as int]);
        }
        let b = bytes[i];
        let hi = hex_digit_byte(b / 16);
        let lo = hex_digit_byte(b % 16);
        out.push(hi);
        out.push(lo);
        proof {
            assert(out@ =~= hex_of(pre) + seq![hex_digit(b / 16), hex_digit(b % 16)]);
        }
        i = i + 1;
    }
    proof {
        assert(bytes@.subrange(0, bytes@.len() as int) =~= bytes@);
    }
    out
}

/// The content address of a span: the hex spelling of the digest of
/// its unmarked bytes.
pub open spec fn address_of(content: Seq<u8>) -> Seq<u8> {
    hex_of(md5_of(content))
}

/// Computes the content address of a span.
pub fn span_address(content: &Vec<u8>) -> (r: Vec<u8>)
    ensures
        r@ == address_of(content@),
{
    let d = content_digest(content.as_slice());
    hex_bytes(&d)
}

/// The mathematical value of a derived artifact.
pub struct ArtifactV {
    pub address: Seq<u8>,
    pub content: Seq<u8>,
    pub unsafe_containing: bool,
}

/// A derived artifact: a span's bytes under their content address,
/// classified unsafe-containing or clean.
#[derive(Clone, Debug, PartialEq, Eq)]
pub struct Artifact {
    pub address: Vec<u8>,
    pub content: Vec<u8>,
    pub unsafe_containing: bool,
}

impl View for Artifact {
    type V = ArtifactV;

    open spec fn view(&self) -> ArtifactV {
        ArtifactV {
            address: self.address@,
            content: self.content@,
            unsafe_containing: self.unsafe_containing,
        }
    }
}

impl DeepView for Artifact {
    type V = ArtifactV;

    open spec fn deep_view(&self) -> ArtifactV {
        self@
    }
}

/// The unsafe-containing artifacts of the unsafe span map, in span
/// order.
pub open spec fn unsafe_artifacts(spans: Seq<(usize, Seq<u8>)>) -> Seq<ArtifactV> {
    spans.map_values(
        |p: (usize, Seq<u8>)|
            ArtifactV { address: address_of(p.1), content: p.1, unsafe_containing: true },
    )
}

/// Whether some span of the map has the given content address.
pub open spec fn has_address(spans: Seq<(usize, Seq<u8>)>, addr: Seq<u8>) -> bool {
    exists|k: int| 0 <= k < spans.len() && address_of((#[trigger] spans[k]).1) == addr
}

/// The clean artifacts of the full span map: a clean artifact is
/// suppressed when an unsafe-containing span already carries the same
/// content address.
pub open spec fn clean_artifacts(
    all: Seq<(usize, Seq<u8>)>,
    uns: Seq<(usize, Seq<u8>)>,
) -> Seq<ArtifactV>
    decreases all.len(),
{
    if all.len() == 0 {
        Seq::empty()
    } else {
        let rest = clean_artifacts(all.drop_last(), uns);
        let p = all.last();
        if has_address(uns, address_of(p.1)) {
            rest
        } else {
            rest.push(ArtifactV { address: address_of(p.1), content: p.1, unsafe_containing: false })
        }
    }
}

proof fn lemma_clean_artifacts_props(all: Seq<(usize, Seq<u8>)>, uns: Seq<(usize, Seq<u8>)>)
    ensures
        forall|j: int|
            0 <= j < clean_artifacts(all, uns).len() ==> {
                &&& !(#[trigger] clean_artifacts(all, uns)[j]).unsafe_containing
                &&& !has_address(uns, clean_artifacts(all, uns)[j].address)
            },
    decreases all.len(),
{
    if all.len() == 0 {
    } else {
        lemma_clean_artifacts_props(all.drop_last(), uns);
        let rest = clean_artifacts(all.drop_last(), uns);
        assert forall|j: int| 0 <= j < clean_artifacts(all, uns).len() implies {
            &&& !(#[trigger] clean_artifacts(all, uns)[j]).unsafe_containing
            &&& !has_address(uns, clean_artifacts(all, uns)[j].address)
        } by {
            if j < rest.len() {
                assert(clean_artifacts(all, uns)[j] == rest[j]);
            }
        }
    }
}

/// Partitions the spans into artifacts: every unsafe span becomes an
/// unsafe-containing artifact; a span of the full map becomes a clean
/// artifact only when no unsafe span carries the same content address
/// — so no content address is ever represented by both variants, as
/// the last ensures states.
pub fn partition_artifacts(
    unsafe_spans: &Vec<(usize, Vec<u8>)>,
    all_spans: &Vec<(usize, Vec<u8>)>,
) -> (r: Vec<Artifact>)
    ensures
        r.deep_view() == unsafe_artifacts(span_views(unsafe_spans@)) + clean_artifacts(
            span_views(all_spans@),
            span_views(unsafe_spans@),
        ),
        forall|i: int, j: int|
            0 <= i < r.deep_view().len() && 0 <= j < r.deep_view().len() && (
            #[trigger] r.deep_view()[i]).unsafe_containing && !(
            #[trigger] r.deep_view()[j]).unsafe_containing ==> r.deep_view()[i].address
                != r.deep_view()[j].address,
{
    let ghost uv = span_views(unsafe_spans@);
    let ghost av = span_views(all_spans@);
    let mut out: Vec<Artifact> = Vec::new();
    let mut addrs: Vec<Vec<u8>> = Vec::new();
    let mut i: usize = 0;
    while i < unsafe_spans.len()
        invariant
            i <= unsafe_spans@.len(),
            uv == span_views(unsafe_spans@),
            out.deep_view() == unsafe_artifacts(uv.subrange(0, i as int)),
            addrs@.len() == i,
            forall|k: int| 0 <= k < i ==> (#[trigger] addrs@[k])@ == address_of(uv[k].1),
        decreases unsafe_spans@.len() - i,
    {
        let p = &unsafe_spans[i];
        proof {
            assert(uv[i as int] == (p.0, p.1@));
        }
        let addr = span_address(&p.1);
        let mut content: Vec<u8> = Vec::new();
        append_bytes(&mut content, p.1.as_slice());
        let mut addr2: Vec<u8> = Vec::new();
        append_bytes(&mut addr2, addr.as_slice());
        let ghost out_pre = out.deep_view();
        let a = Artifact { address: addr, content, unsafe_containing: true };
        out.push(a);
        addrs.push(addr2);
        proof {
            assert(out.deep_view() =~= out_pre.push(a.deep_view()));
            assert(unsafe_artifacts(uv.subrange(0, i + 1 as int)) =~= unsafe_artifacts(
                uv.subrange(0, i as int),
            ).push(a.deep_view()));
        }
        i = i + 1;
    }
    proof {
        assert(uv.subrange(0, unsafe_spans@.len() as int) =~= uv);
    }
    let n_unsafe = out.len();
    let ghost unsafe_part = out.deep_view();
    let mut j: usize = 0;
    while j < all_spans.len()
        invariant
            j <= all_spans@.len(),
            uv == span_views(unsafe_spans@),
            av == span_views(all_spans@),
            addrs@.len() == uv.len(),
            forall|k: int| 0 <= k < uv.len() ==> (#[trigger] addrs@[k])@ == address_of(uv[k].1),
            unsafe_part == unsafe_artifacts(uv),
            out.deep_view() == unsafe_part + clean_artifacts(av.subrange(0, j as int), uv),
        decreases all_spans@.len() - j,
    {
        let p = &all_spans[j];
        proof {
            assert(av[j as int] == (p.0, p.1@));
        }
        let ghost pre = av.subrange(0, j as int);
        let ghost now = av.subrange(0, j + 1 as int);
        proof {
            assert(now.drop_last() =~= pre);
            assert(now.last() == av[j as int]);
        }
        let addr = span_address(&p.1);
        let mut found = false;
        let mut l: usize = 0;
        while l < addrs.len()
            invariant
                l <= addrs@.len(),
                uv == span_views(unsafe_spans@),
                addrs@.len() == uv.len(),
                forall|k: int| 0 <= k < uv.len() ==> (#[trigger] addrs@[k])@ == address_of(
                    uv[k].1,
                ),
                addr@ == address_of(av[j as int].1),
                0 <= j < av.len(),
                found == exists|k: int|
                    0 <= k < l && address_of((#[trigger] uv[k]).1) == addr@,
            decreases addrs@.len() - l,
        {
            if bytes_equal(&addrs[l], &addr) {
                proof {
                    assert(address_of(uv[l as int].1) == addr@);
                }
                found = true;
            }
            l = l + 1;
        }
        if !found {
            let mut content: Vec<u8> = Vec::new();
            append_bytes(&mut content, p.1.as_slice());
            let ghost out_pre = out.deep_view();
            let a = Artifact { address: addr, content, unsafe_containing: false };
            out.push(a);
            proof {
                assert(!has_address(uv, address_of(av[j as int].1)));
                assert(out.deep_view() =~= out_pre.push(a.deep_view()));
                assert(clean_artifacts(now, uv) == clean_artifacts(pre, uv).push(a.deep_view()));
                assert(out.deep_view() =~= unsafe_part + clean_artifacts(now, uv));
            }
        } else {
            proof {
                assert(has_address(uv, address_of(av[j as int].1)));
                assert(clean_artifacts(now, uv) == clean_artifacts(pre, uv));
            }
        }
        j = j + 1;
    }
    proof {
        assert(av.subrange(0, all_spans@.len() as int) =~= av);
        lemma_clean_artifacts_props(av, uv);
        let rv = out.deep_view();
        let cleans = clean_artifacts(av, uv);
        assert forall|x: int, y: int|
            0 <= x < rv.len() && 0 <= y < rv.len() && (#[trigger] rv[x]).unsafe_containing && !(
            #[trigger] rv[y]).unsafe_containing implies rv[x].address != rv[y].address by {
            assert(rv =~= unsafe_artifacts(uv) + cleans);
            assert(x < uv.len()) by {
                if x >= uv.len() {
                    assert(rv[x] == cleans[x - uv.len()]);
                }
            }
            assert(rv[x] == unsafe_artifacts(uv)[x]);
            assert(rv[x].address == address_of(uv[x].1));
            assert(y >= uv.len()) by {
                if y < uv.len() {
                    assert(rv[y] == unsafe_artifacts(uv)[y]);
                }
            }
            assert(rv[y] == cleans[y - uv.len()]);
            assert(!has_address(uv, rv[y].address));
            if rv[x].address == rv[y].address {
                assert(address_of((uv[x]).1) == rv[y].address);
                assert(has_address(uv, rv[y].address));
            }
        }
    }
    out
}

/// The markup pass reported a scope-open region: some wrap category
/// resolved at least one range over the span.
pub open spec fn has_scope_open(cats: Seq<crate::markup::CategoryV>) -> bool {
    exists|k: int|
        0 <= k < cats.len() && (#[trigger] cats[k]).kind is Wrap
            && cats[k].regions.len() > 0
}

/// Derives one span's artifact: the annotated bytes (categories in
/// their fixed priority order), stored under the content address of
/// the unmarked span bytes, classified unsafe-containing exactly when
/// the markup pass reports a scope-open region.
pub fn mark_span(bytes: &Vec<u8>, cats: &Vec<crate::markup::ResolvedCategory>) -> (r: Artifact)
    ensures
        r@.address == address_of(bytes@),
        r@.content == crate::markup::annotated(
            bytes@,
            crate::markup::sort_cats(cats.deep_view()),
        ),
        r@.unsafe_containing == has_scope_open(cats.deep_view()),
{
    let address = span_address(bytes);
    let content = crate::markup::annotate(bytes, cats);
    let ghost catsv = cats.deep_view();
    let mut flag = false;
    let mut k: usize = 0;
    while k < cats.len()
        invariant
            k <= cats@.len(),
            catsv == cats.deep_view(),
            flag == exists|x: int|
                0 <= x < k && (#[trigger] catsv[x]).kind is Wrap
                    && catsv[x].regions.len() > 0,
        decreases cats@.len() - k,
    {
        let c = &cats[k];
        proof {
            assert(catsv[k as int] == c.deep_view());
        }
        let is_wrap = match c.kind {
            MarkupKind::Wrap => true,
            _ => false,
        };
        if is_wrap && c.regions.len() > 0 {
            proof {
                assert((#[trigger] catsv[k as int]).kind is Wrap
                    && catsv[k as int].regions.len() > 0);
            }
            flag = true;
        }
        k = k + 1;
    }
    Artifact { address, content, unsafe_containing: flag }
}

/// Whether some unsafe-containing artifact of the list carries the
/// address.
pub open spec fn unsafe_address_present(items: Seq<ArtifactV>, addr: Seq<u8>) -> bool {
    exists|k: int|
        0 <= k < items.len() && (#[trigger] items[k]).unsafe_containing && items[k].address
            == addr
}

pub open spec fn dedup_from(items: Seq<ArtifactV>, all: Seq<ArtifactV>) -> Seq<ArtifactV>
    decreases items.len(),
{
    if items.len() == 0 {
        Seq::empty()
    } else {
        let rest = dedup_from(items.drop_last(), all);
        let it = items.last();
        if it.unsafe_containing || !unsafe_address_present(all, it.address) {
            rest.push(it)
        } else {
            rest
        }
    }
}

/// The artifact list with every clean artifact suppressed whose
/// content address an unsafe-containing artifact already carries.
pub open spec fn dedup_spec(items: Seq<ArtifactV>) -> Seq<ArtifactV> {
    dedup_from(items, items)
}

proof fn lemma_dedup_props(items: Seq<ArtifactV>, all: Seq<ArtifactV>)
    requires
        forall|k: int|
            0 <= k < items.len() ==> ((#[trigger] items[k]).unsafe_containing
                ==> unsafe_address_present(all, items[k].address)),
    ensures
        forall|j: int|
            0 <= j < dedup_from(items, all).len() ==> {
                &&& (!(#[trigger] dedup_from(items, all)[j]).unsafe_containing
                    ==> !unsafe_address_present(all, dedup_from(items, all)[j].address))
                &&& ((#[trigger] dedup_from(items, all)[j]).unsafe_containing
                    ==> unsafe_address_present(all, dedup_from(items, all)[j].address))
            },
    decreases items.len(),
{
    if items.len() == 0 {
    } else {
        assert forall|k: int|
            0 <= k < items.drop_last().len() implies ((
        #[trigger] items.drop_last()[k]).unsafe_containing ==> unsafe_address_present(
            all,
            items.drop_last()[k].address,
        )) by {
            assert(items.drop_last()[k] == items[k]);
        }
        lemma_dedup_props(items.drop_last(), all);
        let rest = dedup_from(items.drop_last(), all);
        assert(items.last() == items[items.len() - 1]);
        assert forall|j: int| 0 <= j < dedup_from(items, all).len() implies {
            &&& (!(#[trigger] dedup_from(items, all)[j]).unsafe_containing
                ==> !unsafe_address_present(all, dedup_from(items, all)[j].address))
            &&& ((#[trigger] dedup_from(items, all)[j]).unsafe_containing
                ==> unsafe_address_present(all, dedup_from(items, all)[j].address))
        } by {
            if j < rest.len() {
                assert(dedup_from(items, all)[j] == rest[j]);
            }
        }
    }
}

/// Suppresses every clean artifact whose content address an
/// unsafe-containing artifact already carries: the unsafe
/// classification takes precedence for identical content, so no
/// content address is ever represented by both variants, as the last
/// ensures states.
pub fn dedup_artifacts(items: &Vec<Artifact>) -> (r: Vec<Artifact>)
    ensures
        r.deep_view() == dedup_spec(items.deep_view()),
        forall|i: int, j: int|
            0 <= i < r.deep_view().len() && 0 <= j < r.deep_view().len() && (
            #[trigger] r.deep_view()[i]).unsafe_containing && !(
            #[trigger] r.deep_view()[j]).unsafe_containing ==> r.deep_view()[i].address
                != r.deep_view()[j].address,
{
    let ghost all = items.deep_view();
    let mut out: Vec<Artifact> = Vec::new();
    let mut i: usize = 0;
    while i < items.len()
        invariant
            i <= items@.len(),
            all == items.deep_view(),
            out.deep_view() == dedup_from(all.subrange(0, i as int), all),
        decreases items@.len() - i,
    {
        let it = &items[i];
        let ghost pre = all.subrange(0, i as int);
        let ghost now = all.subrange(0, i + 1 as int);
        proof {
            assert(now.drop_last() =~= pre);
            assert(now.last() == it.deep_view());
        }
        let mut present = false;
        let mut k: usize = 0;
        while k < items.len()
            invariant
                k <= items@.len(),
                all == items.deep_view(),
                0 <= i < items@.len(),
                it == &items[i as int],
                present == exists|x: int|
                    0 <= x < k && (#[trigger] all[x]).unsafe_containing && all[x].address
                        == it.deep_view().address,
            decreases items@.len() - k,
        {
            let cand = &items[k];
            proof {
                assert(all[k as int] == cand.deep_view());
            }
            if cand.unsafe_containing {
                if bytes_equal(&cand.address, &it.address) {
                    proof {
                        assert((#[trigger] all[k as int]).unsafe_containing && all[k as int].address
                            == it.deep_view().address);
                    }
                    present = true;
                }
            }
            k = k + 1;
        }
        if it.unsafe_containing || !present {
            let mut address: Vec<u8> = Vec::new();
            append_bytes(&mut address, it.address.as_slice());
            let mut content: Vec<u8> = Vec::new();
            append_bytes(&mut content, it.content.as_slice());
            let ghost out_pre = out.deep_view();
            let a = Artifact { address, content, unsafe_containing: it.unsafe_containing };
            out.push(a);
            proof {
                assert(a.deep_view() == it.deep_view());
                assert(out.deep_view() =~= out_pre.push(it.deep_view()));
                assert(dedup_from(now, all) == dedup_from(pre, all).push(it.deep_view()));
            }
        } else {
            proof {
                assert(unsafe_address_present(all, it.deep_view().address));
                assert(dedup_from(now, all) == dedup_from(pre, all));
            }
        }
        i = i + 1;
    }
    proof {
        assert(all.subrange(0, items@.len() as int) =~= all);
        assert forall|k: int|
            0 <= k < all.len() implies ((#[trigger] all[k]).unsafe_containing
            ==> unsafe_address_present(all, all[k].address)) by {}
        lemma_dedup_props(all, all);
        let rv = out.deep_view();
        assert forall|x: int, y: int|
            0 <= x < rv.len() && 0 <= y < rv.len() && (#[trigger] rv[x]).unsafe_containing && !(
            #[trigger] rv[y]).unsafe_containing implies rv[x].address != rv[y].address by {
            assert(unsafe_address_present(all, rv[x].address));
            assert(!unsafe_address_present(all, rv[y].address));
        }
    }
    out
}

/// One span's candidate artifact, derived from its own markup pass:
/// the categories resolve to the configured tags and kinds, the
/// address is the content address of the unmarked span bytes, the
/// content is the span's annotation in the fixed priority order, and
/// the classification is the scope-open report.
pub open spec fn span_artifact_matches(
    span: (usize, Seq<u8>),
    rs: Seq<crate::markup::CategoryV>,
    cand: ArtifactV,
    cats: Seq<crate::markup::MarkupCategory>,
) -> bool {
    &&& crate::markup::tags_kinds_match(rs, cats)
    &&& cand.address == address_of(span.1)
    &&& cand.content == crate::markup::annotated(span.1, crate::markup::sort_cats(rs))
    &&& cand.unsafe_containing == has_scope_open(rs)
}

/// The artifacts derive from a split of the buffer: some node list's
/// span map, a per-span resolution of the configured categories, the
/// per-span candidate artifacts, and the deduplicated result.
pub open spec fn artifacts_derived(
    source: Seq<u8>,
    cats: Seq<crate::markup::MarkupCategory>,
    spans: Seq<(usize, Seq<u8>)>,
    rss: Seq<Seq<crate::markup::CategoryV>>,
    cands: Seq<ArtifactV>,
    arts: Seq<ArtifactV>,
) -> bool {
    &&& exists|nodes: Seq<ExtractedNodeV>| spans == spans_of(source, nodes)
    &&& rss.len() == spans.len()
    &&& cands.len() == spans.len()
    &&& forall|k: int|
        0 <= k < spans.len() ==> span_artifact_matches(
            #[trigger] spans[k],
            rss[k],
            cands[k],
            cats,
        )
    &&& arts == dedup_spec(cands)
}

/// The artifacts derive from some split of the buffer and some
/// per-span resolution of the configured categories.
pub open spec fn derived_from_some_split(
    source: Seq<u8>,
    cats: Seq<crate::markup::MarkupCategory>,
    arts: Seq<ArtifactV>,
) -> bool {
    exists|spans: Seq<(usize, Seq<u8>)>, rss: Seq<Seq<crate::markup::CategoryV>>, cands: Seq<
        ArtifactV,
    >| #[trigger] artifacts_derived(source, cats, spans, rss, cands, arts)
}

/// Splits one source into its top-level declaration spans, drives the
/// markup engine independently over each span, classifies each derived
/// artifact by its scope-open report, and suppresses clean artifacts
/// whose content address an unsafe-containing one carries — so no
/// content address is ever represented by both variants, as the last
/// ensures states.  Every failure is one of the typed errors.
pub fn split_and_mark(
    language: &tree_sitter::Language,
    split_query: &tree_sitter::Query,
    cats: &Vec<crate::markup::MarkupCategory>,
    source: &Vec<u8>,
    parser: &mut tree_sitter::Parser,
) -> (r: Result<Vec<Artifact>, Error>)
    ensures
        r is Err ==> (r == Err::<Vec<Artifact>, Error>(Error::Compile) || r == Err::<
            Vec<Artifact>,
            Error,
        >(Error::Parse) || r == Err::<Vec<Artifact>, Error>(Error::Decode)),
        r matches Ok(arts) ==> derived_from_some_split(source@, cats@, arts.deep_view()),
        r matches Ok(arts) ==> forall|i: int, j: int|
            0 <= i < arts.deep_view().len() && 0 <= j < arts.deep_view().len() && (
            #[trigger] arts.deep_view()[i]).unsafe_containing && !(
            #[trigger] arts.deep_view()[j]).unsafe_containing ==> arts.deep_view()[i].address
                != arts.deep_view()[j].address,
{
    let spans = match splitup(language, split_query, source, parser) {
        Ok(s) => s,
        Err(e) => {
            return Err(e);
        },
    };
    let ghost spansv = span_views(spans@);
    let mut candidates: Vec<Artifact> = Vec::new();
    let ghost mut rss: Seq<Seq<crate::markup::CategoryV>> = Seq::empty();
    let mut i: usize = 0;
    while i < spans.len()
        invariant
            i <= spans@.len(),
            spansv == span_views(spans@),
            rss.len() == i,
            candidates.deep_view().len() == i,
            forall|k: int|
                0 <= k < i ==> span_artifact_matches(
                    #[trigger] spansv[k],
                    rss[k],
                    candidates.deep_view()[k],
                    cats@,
                ),
        decreases spans@.len() - i,
    {
        let bytes = &spans[i].1;
        proof {
            assert(spansv[i as int] == (spans@[i as int].0, spans@[i as int].1@));
        }
        let tree = match parser_parse(parser, bytes.as_slice()) {
            Some(t) => t,
            None => {
                return Err(Error::Parse);
            },
        };
        let resolved = crate::markup::resolve_categories(cats, &tree, bytes);
        let a = mark_span(bytes, &resolved);
        let ghost cands_pre = candidates.deep_view();
        let ghost cand = a.deep_view();
        candidates.push(a);
        proof {
            rss = rss.push(resolved.deep_view());
            assert(candidates.deep_view() =~= cands_pre.push(cand));
            assert(resolved.deep_view().len() == resolved@.len());
            assert(crate::markup::tags_kinds_match(resolved.deep_view(), cats@));
            assert(span_artifact_matches(spansv[i as int], resolved.deep_view(), cand, cats@));
        }
        i = i + 1;
    }
    let out = dedup_artifacts(&candidates);
    proof {
        let nodes = choose|nodes: Seq<ExtractedNodeV>| span_views(spans@) == spans_of(
            source@,
            nodes,
        );
        assert(spansv == spans_of(source@, nodes));
        assert(artifacts_derived(
            source@,
            cats@,
            spansv,
            rss,
            candidates.deep_view(),
            out.deep_view(),
        ));
        assert(derived_from_some_split(source@, cats@, out.deep_view()));
    }
    Ok(out)
}

} // verus!
