//! The substitution engine: interprets a per-query rewrite directive,
//! substitutes referenced capture text into a template, applies the
//! result back into the source, and iterates to a fixpoint via
//! re-extraction.

use vstd::prelude::*;

use crate::errors::Error;
use crate::extract::{Capture, CaptureV, Extractor};
use crate::extract::{capture_valid, extract_records, raw_record, records_of};
use crate::provider::{RawMatch, RawPredicate, RawPredicateArg};
use crate::provider::{parser_parse, parser_set_language, query_general_predicates, run_query};

verus! {

/// Compares two byte vectors.
pub(crate) fn bytes_equal(a: &Vec<u8>, b: &Vec<u8>) -> (r: bool)
    ensures
        r == (a@ == b@),
{
    if a.len() != b.len() {
        return false;
    }
    let mut i: usize = 0;
    while i < a.len()
        invariant
            a@.len() == b@.len(),
            i <= a@.len(),
            forall|k: int| 0 <= k < i ==> a@[k] == b@[k],
        decreases a@.len() - i,
    {
        if a[i] != b[i] {
            return false;
        }
        i = i + 1;
    }
    proof {
        assert(a@ =~= b@);
    }
    true
}

/// Appends a byte slice to a vector.
pub(crate) fn append_bytes(dst: &mut Vec<u8>, src: &[u8])
    ensures
        final(dst)@ == old(dst)@ + src@,
{
    let ghost base = dst@;
    let mut i: usize = 0;
    while i < src.len()
        invariant
            i <= src@.len(),
            dst@ == base + src@.subrange(0, i as int),
        decreases src@.len() - i,
    {
        dst.push(*vstd::slice::slice_index_get(src, i));
        proof {
            assert(base + src@.subrange(0, i + 1 as int) =~= (base + src@.subrange(
                0,
                i as int,
            )).push(src@[i as int]));
        }
        i = i + 1;
    }
    proof {
        assert(base + src@.subrange(0, src@.len() as int) =~= base + src@);
    }
}

/// Leftmost, non-overlapping replacement of every occurrence of `pat`
/// by `rep`, scanning once from the start; an empty pattern replaces
/// nothing.
pub open spec fn replace_all_spec(hay: Seq<u8>, pat: Seq<u8>, rep: Seq<u8>) -> Seq<u8>
    decreases hay.len(),
{
    if pat.len() == 0 || hay.len() < pat.len() {
        hay
    } else if hay.subrange(0, pat.len() as int) == pat {
        rep + replace_all_spec(hay.skip(pat.len() as int), pat, rep)
    } else {
        seq![hay[0]] + replace_all_spec(hay.skip(1), pat, rep)
    }
}

/// Decides whether `pat` occurs in `hay` at position `i`.
fn is_match_at(hay: &Vec<u8>, pat: &Vec<u8>, i: usize) -> (r: bool)
    requires
        i <= hay@.len(),
    ensures
        r == (i + pat@.len() <= hay@.len() && hay@.subrange(i as int, i + pat@.len()) == pat@),
{
    if pat.len() > hay.len() - i {
        return false;
    }
    let mut k: usize = 0;
    while k < pat.len()
        invariant
            i + pat@.len() <= hay@.len(),
            hay@.len() <= usize::MAX,
            k <= pat@.len(),
            forall|l: int| 0 <= l < k ==> hay@[i + l] == pat@[l],
        decreases pat@.len() - k,
    {
        if hay[i + k] != pat[k] {
            proof {
                assert(hay@.subrange(i as int, i + pat@.len())[k as int] == hay@[i + k]);
            }
            return false;
        }
        k = k + 1;
    }
    proof {
        assert(hay@.subrange(i as int, i + pat@.len()) =~= pat@);
    }
    true
}

/// Replaces every occurrence of `pat` in `hay` by `rep`, leftmost
/// first, never rescanning replaced text.
pub fn replace_all(hay: &Vec<u8>, pat: &Vec<u8>, rep: &Vec<u8>) -> (r: Vec<u8>)
    ensures
        r@ == replace_all_spec(hay@, pat@, rep@),
{
    if pat.len() == 0 {
        let mut out: Vec<u8> = Vec::new();
        append_bytes(&mut out, hay.as_slice());
        proof {
            assert(out@ =~= hay@);
        }
        return out;
    }
    let mut out: Vec<u8> = Vec::new();
    let mut i: usize = 0;
    proof {
        assert(hay@.skip(0) =~= hay@);
    }
    while i < hay.len()
        invariant
            pat@.len() >= 1,
            i <= hay@.len(),
            replace_all_spec(hay@, pat@, rep@) == out@ + replace_all_spec(
                hay@.skip(i as int),
                pat@,
                rep@,
            ),
        decreases hay@.len() - i,
    {
        let ghost rem = hay@.skip(i as int);
        if is_match_at(hay, pat, i) {
            append_bytes(&mut out, rep.as_slice());
            proof {
                assert(rem.subrange(0, pat@.len() as int) =~= hay@.subrange(
                    i as int,
                    i + pat@.len(),
                ));
                assert(rem.skip(pat@.len() as int) =~= hay@.skip(i + pat@.len()));
                assert(replace_all_spec(rem, pat@, rep@) == rep@ + replace_all_spec(
                    hay@.skip(i + pat@.len()),
                    pat@,
                    rep@,
                ));
            }
            i = i + pat.len();
        } else {
            let b = hay[i];
            out.push(b);
            proof {
                if rem.len() >= pat@.len() {
                    assert(rem.subrange(0, pat@.len() as int) =~= hay@.subrange(
                        i as int,
                        i + pat@.len(),
                    ));
                }
                assert(rem[0] == hay@[i as int]);
                assert(rem.skip(1) =~= hay@.skip(i + 1));
                assert(replace_all_spec(rem, pat@, rep@) == seq![hay@[i as int]]
                    + replace_all_spec(hay@.skip(i + 1), pat@, rep@));
                assert(out@ + replace_all_spec(hay@.skip(i + 1), pat@, rep@) =~= (out@.drop_last()
                    + seq![hay@[i as int]]) + replace_all_spec(hay@.skip(i + 1), pat@, rep@));
            }
            i = i + 1;
        }
    }
    proof {
        assert(hay@.skip(hay@.len() as int) =~= Seq::<u8>::empty());
        assert(replace_all_spec(Seq::<u8>::empty(), pat@, rep@) == Seq::<u8>::empty());
        assert(out@ + Seq::<u8>::empty() =~= out@);
    }
    out
}

/// The reference token for a capture name: the reserved sigil followed
/// by the name.
pub open spec fn reference_token(name: Seq<u8>) -> Seq<u8> {
    seq![64u8] + name
}

/// Builds the reference token for a capture name.
fn make_token(name: &Vec<u8>) -> (r: Vec<u8>)
    ensures
        r@ == reference_token(name@),
{
    let mut r: Vec<u8> = Vec::new();
    r.push(64u8);
    append_bytes(&mut r, name.as_slice());
    proof {
        assert(r@ =~= reference_token(name@));
    }
    r
}

/// One resolution pass over a template: for each capture of the match,
/// every occurrence of its reference token is replaced by its text.
/// Captures are consulted so that for a repeated name the last
/// occurrence wins, mirroring the name-to-index map's documented
/// last-wins ambiguity.
pub open spec fn resolve_pass_spec(t: Seq<u8>, caps: Seq<CaptureV>, k: int) -> Seq<u8>
    decreases k,
{
    if k <= 0 || k > caps.len() {
        t
    } else {
        resolve_pass_spec(
            replace_all_spec(t, reference_token(caps[k - 1].name), caps[k - 1].text),
            caps,
            k - 1,
        )
    }
}

fn resolve_pass(t: &Vec<u8>, caps: &Vec<Capture>) -> (r: Vec<u8>)
    ensures
        r@ == resolve_pass_spec(t@, caps.deep_view(), caps.deep_view().len() as int),
{
    let mut cur: Vec<u8> = Vec::new();
    append_bytes(&mut cur, t.as_slice());
    proof {
        assert(cur@ =~= t@);
    }
    let mut k: usize = caps.len();
    while k > 0
        invariant
            k <= caps@.len(),
            resolve_pass_spec(t@, caps.deep_view(), caps.deep_view().len() as int)
                == resolve_pass_spec(cur@, caps.deep_view(), k as int),
        decreases k,
    {
        let c = &caps[k - 1];
        let token = make_token(&c.name);
        proof {
            assert(caps.deep_view()[k - 1] == c.deep_view());
        }
        let next = replace_all(&cur, &token, &c.text);
        proof {
            assert(resolve_pass_spec(cur@, caps.deep_view(), k as int) == resolve_pass_spec(
                next@,
                caps.deep_view(),
                k - 1,
            ));
        }
        cur = next;
        k = k - 1;
    }
    cur
}

/// Template resolution to quiescence: passes are repeated until one
/// makes no further replacement — the guard against an unresolvable or
/// cyclic reference, which is left verbatim — or until the pass bound
/// is spent; an acyclic chain of references resolves one layer per
/// pass, so the bound never cuts one short.
pub open spec fn resolve_spec(t: Seq<u8>, caps: Seq<CaptureV>, fuel: nat) -> Seq<u8>
    decreases fuel,
{
    if fuel == 0 {
        t
    } else {
        let t2 = resolve_pass_spec(t, caps, caps.len() as int);
        if t2 == t {
            t
        } else {
            resolve_spec(t2, caps, (fuel - 1) as nat)
        }
    }
}

/// The pass bound of template resolution: one more than the number of
/// captures, held under the machine limit.
pub open spec fn pass_budget(n: nat) -> nat {
    if n + 1 <= usize::MAX {
        n + 1
    } else {
        usize::MAX as nat
    }
}

/// Resolves a template against the captures of one match.
pub fn resolve_template(t: &Vec<u8>, caps: &Vec<Capture>) -> (r: Vec<u8>)
    ensures
        r@ == resolve_spec(t@, caps.deep_view(), pass_budget(caps@.len() as nat)),
{
    let mut cur: Vec<u8> = Vec::new();
    append_bytes(&mut cur, t.as_slice());
    proof {
        assert(cur@ =~= t@);
    }
    let mut fuel: usize = if caps.len() < usize::MAX {
        caps.len() + 1
    } else {
        usize::MAX
    };
    while fuel > 0
        invariant
            resolve_spec(t@, caps.deep_view(), pass_budget(caps@.len() as nat)) == resolve_spec(
                cur@,
                caps.deep_view(),
                fuel as nat,
            ),
        decreases fuel,
    {
        let next = resolve_pass(&cur, caps);
        if bytes_equal(&next, &cur) {
            proof {
                assert(resolve_spec(cur@, caps.deep_view(), fuel as nat) == cur@);
            }
            return cur;
        }
        proof {
            assert(resolve_spec(cur@, caps.deep_view(), fuel as nat) == resolve_spec(
                next@,
                caps.deep_view(),
                (fuel - 1) as nat,
            ));
        }
        cur = next;
        fuel = fuel - 1;
    }
    cur
}

/// Quiescence is stable: once a resolution pass makes no further
/// replacement, any number of further passes leaves the template
/// unchanged.
pub proof fn lemma_resolution_quiescent(t: Seq<u8>, caps: Seq<CaptureV>, fuel: nat)
    requires
        resolve_pass_spec(t, caps, caps.len() as int) == t,
    ensures
        resolve_spec(t, caps, fuel) == t,
    decreases fuel,
{
    if fuel == 0 {
    } else {
        lemma_resolution_quiescent(t, caps, (fuel - 1) as nat);
    }
}

/// The buffer after one byte-range replacement: every byte outside the
/// substituted range is byte-identical to the corresponding input byte.
pub open spec fn spliced(src: Seq<u8>, start: int, end: int, rep: Seq<u8>) -> Seq<u8>
    recommends
        0 <= start <= end <= src.len(),
{
    src.subrange(0, start) + rep + src.subrange(end, src.len() as int)
}

/// Applies a single byte-range replacement at `[start, end)`.
pub fn apply_edit(source: &Vec<u8>, start: usize, end: usize, rep: &Vec<u8>) -> (r: Vec<u8>)
    requires
        start <= end <= source@.len(),
    ensures
        r@ == spliced(source@, start as int, end as int, rep@),
{
    let mut out: Vec<u8> = Vec::new();
    let prefix = vstd::slice::slice_subrange(source.as_slice(), 0, start);
    append_bytes(&mut out, prefix);
    append_bytes(&mut out, rep.as_slice());
    let suffix = vstd::slice::slice_subrange(source.as_slice(), end, source.len());
    append_bytes(&mut out, suffix);
    proof {
        assert(out@ =~= spliced(source@, start as int, end as int, rep@));
    }
    out
}

/// The mathematical value of a substitution directive.
pub struct DirectiveV {
    pub target_key: usize,
    pub template: Seq<u8>,
}

/// A decoded substitution directive: the 1-based key of the capture
/// slot whose text is rewritten (0 is reserved as "unset" and never
/// decoded), and the literal template.
#[derive(Clone, Debug, PartialEq, Eq)]
pub struct SubstitutionDirective {
    pub target_key: usize,
    pub template: Vec<u8>,
}

impl View for SubstitutionDirective {
    type V = DirectiveV;

    open spec fn view(&self) -> DirectiveV {
        DirectiveV { target_key: self.target_key, template: self.template@ }
    }
}

impl DeepView for SubstitutionDirective {
    type V = DirectiveV;

    open spec fn deep_view(&self) -> DirectiveV {
        self@
    }
}

/// The reserved operator name that binds a capture reference and a
/// literal template.
pub open spec fn substitution_operator() -> Seq<u8> {
    seq![115u8, 117u8, 98u8, 33u8]
}

/// The directive a single predicate decodes to, if any: the reserved
/// operator applied to a capture reference and a literal.  Any other
/// operator name is ignored by this engine.
pub open spec fn predicate_directive(p: RawPredicate) -> Option<DirectiveV> {
    if {
        &&& p.operator@ == substitution_operator()
        &&& p.args@.len() == 2
        &&& p.args@[0] is Capture
        &&& p.args@[1] is Literal
        &&& p.args@[0]->Capture_0 < usize::MAX
    } {
        Some(
            DirectiveV {
                target_key: (p.args@[0]->Capture_0 + 1) as usize,
                template: p.args@[1]->Literal_0@,
            },
        )
    } else {
        None
    }
}

/// The directives of a predicate list, in predicate order.
pub open spec fn directives_of(ps: Seq<RawPredicate>) -> Seq<DirectiveV>
    decreases ps.len(),
{
    if ps.len() == 0 {
        Seq::empty()
    } else {
        let rest = directives_of(ps.drop_last());
        match predicate_directive(ps.last()) {
            Some(d) => rest.push(d),
            None => rest,
        }
    }
}

fn substitution_operator_bytes() -> (r: Vec<u8>)
    ensures
        r@ == substitution_operator(),
{
    let mut r: Vec<u8> = Vec::new();
    r.push(115u8);
    r.push(117u8);
    r.push(98u8);
    r.push(33u8);
    proof {
        assert(r@ =~= substitution_operator());
    }
    r
}

/// Decodes the substitution directives out of a query's predicates,
/// once, at query-compile time.
pub fn decode_directives(preds: &Vec<RawPredicate>) -> (r: Vec<SubstitutionDirective>)
    ensures
        r.deep_view() == directives_of(preds@),
{
    let op = substitution_operator_bytes();
    let mut out: Vec<SubstitutionDirective> = Vec::new();
    let mut i: usize = 0;
    while i < preds.len()
        invariant
            i <= preds@.len(),
            op@ == substitution_operator(),
            out.deep_view() == directives_of(preds@.subrange(0, i as int)),
        decreases preds@.len() - i,
    {
        let p = &preds[i];
        let ghost pre = preds@.subrange(0, i as int);
        let ghost now = preds@.subrange(0, i + 1 as int);
        proof {
            assert(now.drop_last() =~= pre);
            assert(now.last() == preds@[i as int]);
        }
        if bytes_equal(&p.operator, &op) && p.args.len() == 2 {
            let mut decoded = false;
            match (&p.args[0], &p.args[1]) {
                (RawPredicateArg::Capture(ci), RawPredicateArg::Literal(t)) => {
                    if *ci < usize::MAX {
                        let mut template: Vec<u8> = Vec::new();
                        append_bytes(&mut template, t.as_slice());
                        let ghost out_pre = out.deep_view();
                        let d = SubstitutionDirective { target_key: *ci + 1, template };
                        proof {
                            assert(predicate_directive(preds@[i as int]) == Some(d@));
                        }
                        out.push(d);
                        proof {
                            assert(out.deep_view() =~= out_pre.push(d@));
                        }
                        decoded = true;
                    }
                },
                _ => {},
            }
            if !decoded {
                proof {
                    assert(predicate_directive(preds@[i as int]) is None);
                }
            }
        } else {
            proof {
                assert(predicate_directive(preds@[i as int]) is None);
            }
        }
        i = i + 1;
    }
    proof {
        assert(preds@.subrange(0, preds@.len() as int) =~= preds@);
    }
    out
}

/// The first directive keyed to a capture slot, by the slot's 1-based
/// key.
pub open spec fn directive_for(dirs: Seq<DirectiveV>, index: usize) -> Option<DirectiveV>
    decreases dirs.len(),
{
    if dirs.len() == 0 {
        None
    } else if dirs.first().target_key == index + 1 {
        Some(dirs.first())
    } else {
        directive_for(dirs.drop_first(), index)
    }
}

/// Finds the first directive keyed to a capture slot.
fn find_directive(dirs: &Vec<SubstitutionDirective>, index: usize) -> (r: Option<usize>)
    ensures
        (r is Some) == (directive_for(dirs.deep_view(), index) is Some),
        r matches Some(k) ==> k < dirs@.len() && Some(dirs.deep_view()[k as int]) == directive_for(
            dirs.deep_view(),
            index,
        ),
{
    let ghost dv = dirs.deep_view();
    let mut i: usize = 0;
    proof {
        assert(dv.skip(0) =~= dv);
    }
    while i < dirs.len()
        invariant
            i <= dirs@.len(),
            dv == dirs.deep_view(),
            directive_for(dv, index) == directive_for(dv.skip(i as int), index),
        decreases dirs@.len() - i,
    {
        let d = &dirs[i];
        proof {
            assert(dv.skip(i as int).first() == dv[i as int]);
            assert(dv.skip(i as int).drop_first() =~= dv.skip(i + 1));
        }
        if d.target_key > 0 && d.target_key - 1 == index {
            proof {
                assert(dv[i as int].target_key == index + 1);
            }
            return Some(i);
        }
        i = i + 1;
    }
    proof {
        assert(dv.skip(dirs@.len() as int) =~= Seq::<DirectiveV>::empty());
    }
    None
}

/// Every record's byte range lies within the buffer.
pub open spec fn records_in_bounds(ms: Seq<Seq<CaptureV>>, src: Seq<u8>) -> bool {
    forall|i: int, j: int|
        0 <= i < ms.len() && 0 <= j < ms[i].len() ==> {
            &&& (#[trigger] ms[i][j]).start_byte <= ms[i][j].end_byte
            &&& ms[i][j].end_byte <= src.len()
        }
}

/// Extracted records lie within the buffer they were extracted from.
pub proof fn lemma_records_in_bounds(names: Seq<Vec<u8>>, src: Seq<u8>, raw: Seq<RawMatch>)
    requires
        crate::extract::raw_all_valid(names, src, raw),
    ensures
        records_in_bounds(records_of(names, src, raw), src),
{
    let ms = records_of(names, src, raw);
    assert forall|i: int, j: int| 0 <= i < ms.len() && 0 <= j < ms[i].len() implies {
        &&& (#[trigger] ms[i][j]).start_byte <= ms[i][j].end_byte
        &&& ms[i][j].end_byte <= src.len()
    } by {
        assert(capture_valid(names, src, raw[i].captures@[j]));
        assert(ms[i][j] == raw_record(names, src, raw[i].captures@[j]));
    }
}

/// The first capture of a match, from position `j` on, whose directive
/// resolves to text different from the capture's own, together with
/// the resolved text.
pub open spec fn find_sub_in_match(dirs: Seq<DirectiveV>, caps: Seq<CaptureV>, j: int) -> Option<
    (int, Seq<u8>),
>
    decreases caps.len() - j,
{
    if j < 0 || j >= caps.len() {
        None
    } else {
        match directive_for(dirs, caps[j].index) {
            Some(d) => {
                let resolved = resolve_spec(d.template, caps, pass_budget(caps.len()));
                if resolved != caps[j].text {
                    Some((j, resolved))
                } else {
                    find_sub_in_match(dirs, caps, j + 1)
                }
            },
            None => find_sub_in_match(dirs, caps, j + 1),
        }
    }
}

/// The first substitutable capture over all matches, from match `i` on.
pub open spec fn find_sub(dirs: Seq<DirectiveV>, ms: Seq<Seq<CaptureV>>, i: int) -> Option<
    (int, int, Seq<u8>),
>
    decreases ms.len() - i,
{
    if i < 0 || i >= ms.len() {
        None
    } else {
        match find_sub_in_match(dirs, ms[i], 0) {
            Some(js) => Some((i, js.0, js.1)),
            None => find_sub(dirs, ms, i + 1),
        }
    }
}

/// What one pass over all matches does to the buffer: nothing when no
/// capture's directive resolves to new text, else the single byte-range
/// replacement at the first such capture.
pub open spec fn rewrite_step_spec(
    dirs: Seq<DirectiveV>,
    ms: Seq<Seq<CaptureV>>,
    src: Seq<u8>,
) -> Option<Seq<u8>> {
    match find_sub(dirs, ms, 0) {
        None => None,
        Some((i, j, resolved)) => Some(
            spliced(src, ms[i][j].start_byte as int, ms[i][j].end_byte as int, resolved),
        ),
    }
}

/// Scans the records for the first capture whose directive resolves to
/// text different from the capture's own and applies that single
/// replacement; reports `None` at a fixpoint, when no capture calls
/// for a substitution.
pub fn substitution_step(
    dirs: &Vec<SubstitutionDirective>,
    records: &Vec<Vec<Capture>>,
    source: &Vec<u8>,
) -> (r: Option<Vec<u8>>)
    requires
        records_in_bounds(records.deep_view(), source@),
    ensures
        (r is Some) == (rewrite_step_spec(dirs.deep_view(), records.deep_view(), source@)
            is Some),
        r matches Some(out) ==> Some(out@) == rewrite_step_spec(
            dirs.deep_view(),
            records.deep_view(),
            source@,
        ),
{
    let ghost dv = dirs.deep_view();
    let ghost msv = records.deep_view();
    let mut i: usize = 0;
    while i < records.len()
        invariant
            i <= records@.len(),
            dv == dirs.deep_view(),
            msv == records.deep_view(),
            records_in_bounds(msv, source@),
            find_sub(dv, msv, 0) == find_sub(dv, msv, i as int),
        decreases records@.len() - i,
    {
        let caps = &records[i];
        let mut j: usize = 0;
        while j < caps.len()
            invariant
                0 <= i < records@.len(),
                j <= caps@.len(),
                dv == dirs.deep_view(),
                msv == records.deep_view(),
                caps == &records[i as int],
                records_in_bounds(msv, source@),
                find_sub(dv, msv, 0) == find_sub(dv, msv, i as int),
                find_sub_in_match(dv, msv[i as int], 0) == find_sub_in_match(
                    dv,
                    msv[i as int],
                    j as int,
                ),
            decreases caps@.len() - j,
        {
            let c = &caps[j];
            proof {
                assert(msv[i as int][j as int] == c.deep_view());
            }
            match find_directive(dirs, c.index) {
                Some(k) => {
                    let resolved = resolve_template(&dirs[k].template, caps);
                    proof {
                        assert(dirs.deep_view()[k as int].template == dirs[k as int].template@);
                        assert(caps.deep_view() == msv[i as int]);
                    }
                    if !bytes_equal(&resolved, &c.text) {
                        proof {
                            assert(find_sub_in_match(dv, msv[i as int], j as int) == Some(
                                (j as int, resolved@),
                            ));
                            assert(find_sub(dv, msv, i as int) == Some(
                                (i as int, j as int, resolved@),
                            ));
                        }
                        let out = apply_edit(source, c.start_byte, c.end_byte, &resolved);
                        return Some(out);
                    }
                    proof {
                        assert(find_sub_in_match(dv, msv[i as int], j as int)
                            == find_sub_in_match(dv, msv[i as int], j + 1));
                    }
                },
                None => {
                    proof {
                        assert(find_sub_in_match(dv, msv[i as int], j as int)
                            == find_sub_in_match(dv, msv[i as int], j + 1));
                    }
                },
            }
            j = j + 1;
        }
        proof {
            assert(find_sub_in_match(dv, msv[i as int], caps@.len() as int) is None);
            assert(find_sub(dv, msv, i as int) == find_sub(dv, msv, i + 1));
        }
        i = i + 1;
    }
    proof {
        assert(find_sub(dv, msv, records@.len() as int) is None);
    }
    None
}

proof fn lemma_no_directive_in_match(caps: Seq<CaptureV>, j: int)
    ensures
        find_sub_in_match(Seq::empty(), caps, j) is None,
    decreases caps.len() - j,
{
    if j < 0 || j >= caps.len() {
    } else {
        lemma_no_directive_in_match(caps, j + 1);
    }
}

/// With no decoded directive there is no substitutable capture key,
/// and the engine is at its fixpoint from the start: a pass over any
/// extraction performs zero substitutions and leaves the buffer as it
/// is.
pub proof fn lemma_no_directives_fixpoint(ms: Seq<Seq<CaptureV>>, src: Seq<u8>)
    ensures
        rewrite_step_spec(Seq::empty(), ms, src) is None,
{
    lemma_no_directives_from(ms, 0);
}

proof fn lemma_no_directives_from(ms: Seq<Seq<CaptureV>>, i: int)
    ensures
        find_sub(Seq::empty(), ms, i) is None,
    decreases ms.len() - i,
{
    if i < 0 || i >= ms.len() {
    } else {
        lemma_no_directive_in_match(ms[i], 0);
        lemma_no_directives_from(ms, i + 1);
    }
}

/// The number of distinct target keys among the directives: the bound
/// on substituting passes of the rewrite fixpoint.
pub open spec fn distinct_key_count(dirs: Seq<DirectiveV>) -> int
    decreases dirs.len(),
{
    if dirs.len() == 0 {
        0
    } else {
        distinct_key_count(dirs.drop_last()) + if exists|l: int|
            0 <= l < dirs.len() - 1 && (#[trigger] dirs[l]).target_key
                == dirs.last().target_key {
            0int
        } else {
            1int
        }
    }
}

/// Counts the distinct target keys among the directives.
pub fn count_distinct_keys(dirs: &Vec<SubstitutionDirective>) -> (n: usize)
    ensures
        n == distinct_key_count(dirs.deep_view()),
{
    let ghost dv = dirs.deep_view();
    let mut n: usize = 0;
    let mut i: usize = 0;
    while i < dirs.len()
        invariant
            i <= dirs@.len(),
            dv == dirs.deep_view(),
            n == distinct_key_count(dv.subrange(0, i as int)),
            n <= i,
        decreases dirs@.len() - i,
    {
        let ghost pre = dv.subrange(0, i as int);
        let ghost now = dv.subrange(0, i + 1 as int);
        proof {
            assert(now.drop_last() =~= pre);
            assert(now.last() == dv[i as int]);
        }
        let mut seen = false;
        let mut l: usize = 0;
        while l < i
            invariant
                l <= i,
                i < dirs@.len(),
                dv == dirs.deep_view(),
                seen == exists|m: int|
                    0 <= m < l && (#[trigger] dv[m]).target_key == dv[i as int].target_key,
            decreases i - l,
        {
            proof {
                assert(dv[l as int] == dirs@[l as int].deep_view());
                assert(dv[i as int] == dirs@[i as int].deep_view());
            }
            if dirs[l].target_key == dirs[i].target_key {
                seen = true;
            }
            l = l + 1;
        }
        proof {
            assert forall|m: int|
                0 <= m < i implies (#[trigger] now[m]).target_key == dv[m].target_key by {}
            if seen {
                let m = choose|m: int|
                    0 <= m < i && (#[trigger] dv[m]).target_key == dv[i as int].target_key;
                assert(now[m].target_key == now.last().target_key);
            }
        }
        if !seen {
            n = n + 1;
        }
        i = i + 1;
    }
    proof {
        assert(dv.subrange(0, dirs@.len() as int) =~= dv);
    }
    n
}

/// One link of a rewrite chain: over some in-bounds records of `from`,
/// the engine's first substitution turns `from` into `mid`.
pub open spec fn chain_link(
    dirs: Seq<DirectiveV>,
    ms: Seq<Seq<CaptureV>>,
    from: Seq<u8>,
    mid: Seq<u8>,
) -> bool {
    &&& records_in_bounds(ms, from)
    &&& rewrite_step_spec(dirs, ms, from) == Some(mid)
}

/// The buffer `to` is reached from `from` by exactly `n` single
/// splices, each the engine's first substitution over some in-bounds
/// records of the buffer it applies to.
pub open spec fn step_chain(dirs: Seq<DirectiveV>, from: Seq<u8>, to: Seq<u8>, n: nat) -> bool
    decreases n,
{
    if n == 0 {
        from == to
    } else {
        exists|ms: Seq<Seq<CaptureV>>, mid: Seq<u8>|
            #[trigger] chain_link(dirs, ms, from, mid) && step_chain(
                dirs,
                mid,
                to,
                (n - 1) as nat,
            )
    }
}

proof fn lemma_chain_snoc(
    dirs: Seq<DirectiveV>,
    a: Seq<u8>,
    b: Seq<u8>,
    c: Seq<u8>,
    ms: Seq<Seq<CaptureV>>,
    n: nat,
)
    requires
        step_chain(dirs, a, b, n),
        records_in_bounds(ms, b),
        rewrite_step_spec(dirs, ms, b) == Some(c),
    ensures
        step_chain(dirs, a, c, (n + 1) as nat),
    decreases n,
{
    if n == 0 {
        assert(chain_link(dirs, ms, a, c));
        assert(step_chain(dirs, c, c, 0));
        assert(step_chain(dirs, a, c, 1));
    } else {
        let (ms0, mid) = choose|ms0: Seq<Seq<CaptureV>>, mid: Seq<u8>|
            #[trigger] chain_link(dirs, ms0, a, mid) && step_chain(dirs, mid, b, (n - 1) as nat);
        lemma_chain_snoc(dirs, mid, b, c, ms, (n - 1) as nat);
        assert(chain_link(dirs, ms0, a, mid) && step_chain(dirs, mid, c, n));
        assert(step_chain(dirs, a, c, (n + 1) as nat));
    }
}

/// The rewrite converged: the output is reached from the input by a
/// chain of single substitutions no longer than the bound, and the
/// engine's step function finds nothing further to substitute over
/// some in-bounds records of the output.
pub open spec fn rewrite_converged(
    dirs: Seq<DirectiveV>,
    from: Seq<u8>,
    out: Seq<u8>,
    bound: int,
) -> bool {
    exists|n: nat, ms: Seq<Seq<CaptureV>>|
        #![trigger step_chain(dirs, from, out, n), records_in_bounds(ms, out)]
        {
            &&& n <= bound
            &&& step_chain(dirs, from, out, n)
            &&& records_in_bounds(ms, out)
            &&& rewrite_step_spec(dirs, ms, out) is None
        }
}

/// The iteration bound was exceeded: one more substitution than the
/// number of distinct directive keys was called for.
pub open spec fn rewrite_exceeded(dirs: Seq<DirectiveV>, from: Seq<u8>) -> bool {
    exists|last: Seq<u8>, n: nat|
        #![trigger step_chain(dirs, from, last, n)]
        {
            &&& n == distinct_key_count(dirs) + 1
            &&& step_chain(dirs, from, last, n)
        }
}

/// Rewrites a source to its substitution fixpoint: extract, apply the
/// first substitution, re-parse, and restart, so offsets are always
/// consistent with the tree actually being read.  A returned buffer is
/// reached from the source by a chain of single substitutions no
/// longer than the number of distinct directive keys and is itself at
/// a fixpoint of the step function; divergence is signalled exactly
/// when one more substitution than that bound was called for.  Every
/// failure is one of the typed errors.
#[verifier::loop_isolation(false)]
pub fn rewrite(
    e: &Extractor,
    parser: &mut tree_sitter::Parser,
    source: Vec<u8>,
) -> (r: Result<Vec<u8>, Error>)
    requires
        e.wf(),
    ensures
        r is Err ==> (r == Err::<Vec<u8>, Error>(Error::Compile) || r == Err::<Vec<u8>, Error>(
            Error::Parse,
        ) || r == Err::<Vec<u8>, Error>(Error::Decode) || r == Err::<Vec<u8>, Error>(
            Error::RewriteDivergence,
        )),
        r matches Ok(out) ==> rewrite_converged(
            e.directives.deep_view(),
            source@,
            out@,
            distinct_key_count(e.directives.deep_view()),
        ),
        r == Err::<Vec<u8>, Error>(Error::RewriteDivergence) ==> rewrite_exceeded(
            e.directives.deep_view(),
            source@,
        ),
{
    match parser_set_language(parser, &e.language) {
        Ok(_) => (),
        Err(_) => {
            return Err(Error::Compile);
        },
    }
    let cap = count_distinct_keys(&e.directives);
    let ghost dirs = e.directives.deep_view();
    let ghost src0 = source@;
    let mut buf = source;
    let mut subs: usize = 0;
    proof {
        assert(step_chain(dirs, src0, buf@, 0));
    }
    while subs <= cap
        invariant
            e.wf(),
            subs <= cap,
            cap == distinct_key_count(e.directives.deep_view()),
            dirs == e.directives.deep_view(),
            step_chain(dirs, src0, buf@, subs as nat),
        decreases cap - subs,
    {
        let tree = match parser_parse(parser, buf.as_slice()) {
            Some(t) => t,
            None => {
                return Err(Error::Parse);
            },
        };
        let raw = run_query(&e.query, &tree, buf.as_slice());
        let records = match extract_records(&e.captures, &buf, &raw) {
            Ok(rs) => rs,
            Err(err) => {
                return Err(err);
            },
        };
        proof {
            lemma_records_in_bounds(e.captures@, buf@, raw@);
        }
        match substitution_step(&e.directives, &records, &buf) {
            None => {
                proof {
                    assert(records_in_bounds(records.deep_view(), buf@));
                    assert(rewrite_step_spec(dirs, records.deep_view(), buf@) is None);
                    assert(rewrite_converged(dirs, src0, buf@, cap as int));
                }
                return Ok(buf);
            },
            Some(out) => {
                proof {
                    lemma_chain_snoc(
                        dirs,
                        src0,
                        buf@,
                        out@,
                        records.deep_view(),
                        subs as nat,
                    );
                }
                if subs == cap {
                    proof {
                        assert(step_chain(dirs, src0, out@, (cap + 1) as nat));
                        assert((cap + 1) as nat == distinct_key_count(dirs) + 1);
                        assert(rewrite_exceeded(dirs, src0));
                    }
                    return Err(Error::RewriteDivergence);
                }
                buf = out;
                subs = subs + 1;
            },
        }
    }
    Err(Error::RewriteDivergence)
}

} // verus!
