//! The markup engine: evaluates several independent category queries
//! over one tree and merges their ranges into a single annotated byte
//! stream via one priority-ordered linear scan.
//!
//! Category kinds: `delete` ranges are elided; `wrap` ranges get an
//! opening tag at their start offset and their own bytes verbatim;
//! `boundary` captures are zero-width markers that get an empty tag
//! pair at the node's start, guarded against firing immediately inside
//! a just-opened wrap region of the same tag.  Priority at one offset
//! is the fixed category order, never the order of query evaluation.

use vstd::prelude::*;
use vstd::utf8::valid_utf8;

use crate::errors::Error;
use crate::provider::{RawMatch, is_valid_text, parser_parse, parser_set_language, run_query};

verus! {

/// What a markup category does to its ranges.
#[derive(Clone, Copy, Debug, PartialEq, Eq, Structural)]
pub enum MarkupKind {
    /// Covered bytes are suppressed entirely.
    Delete,
    /// An opening tag is emitted at the range's start; the covered
    /// bytes follow verbatim; nothing is emitted at the range's end.
    Wrap,
    /// A zero-width marker: an empty open/close tag pair at the
    /// range's start, subject to the guard distance.
    Boundary,
}

/// A byte range extracted by a category query.  Named after its first
/// use, the comment ranges that the delete category elides; every
/// category's resolved ranges are recorded in this form.
#[derive(Clone, Copy, Debug, PartialEq, Eq, Structural)]
pub struct ExtractedComment {
    pub start_byte: usize,
    pub end_byte: usize,
}

/// The mathematical value of a resolved category.
pub struct CategoryV {
    pub tag: Seq<u8>,
    pub kind: MarkupKind,
    pub regions: Seq<ExtractedComment>,
}

/// A category resolved against one tree: its tag name, its kind, and
/// the byte ranges its query captured.
#[derive(Clone, Debug)]
pub struct ResolvedCategory {
    pub tag: Vec<u8>,
    pub kind: MarkupKind,
    pub regions: Vec<ExtractedComment>,
}

impl View for ResolvedCategory {
    type V = CategoryV;

    open spec fn view(&self) -> CategoryV {
        CategoryV { tag: self.tag@, kind: self.kind, regions: self.regions@ }
    }
}

impl DeepView for ResolvedCategory {
    type V = CategoryV;

    open spec fn deep_view(&self) -> CategoryV {
        self@
    }
}

/// Lexicographic order on tag bytes.
pub open spec fn lex_lt(a: Seq<u8>, b: Seq<u8>) -> bool
    decreases a.len(),
{
    if b.len() == 0 {
        false
    } else if a.len() == 0 {
        true
    } else if a.first() < b.first() {
        true
    } else if a.first() > b.first() {
        false
    } else {
        lex_lt(a.drop_first(), b.drop_first())
    }
}

proof fn lemma_lex_irrefl(s: Seq<u8>)
    ensures
        !lex_lt(s, s),
    decreases s.len(),
{
    if s.len() == 0 {
    } else {
        lemma_lex_irrefl(s.drop_first());
    }
}

proof fn lemma_lex_trichotomy(a: Seq<u8>, b: Seq<u8>)
    requires
        !lex_lt(a, b),
        !lex_lt(b, a),
    ensures
        a == b,
    decreases a.len(),
{
    if b.len() == 0 {
        assert(a.len() == 0);
        assert(a =~= b);
    } else if a.len() == 0 {
        assert(lex_lt(a, b));
    } else {
        assert(a.first() == b.first());
        lemma_lex_trichotomy(a.drop_first(), b.drop_first());
        assert(a.drop_first().len() == b.drop_first().len());
        assert forall|i: int| 0 <= i < a.len() implies a[i] == b[i] by {
            if i > 0 {
                assert(a.drop_first()[i - 1] == a[i]);
                assert(b.drop_first()[i - 1] == b[i]);
            }
        }
        assert(a =~= b);
    }
}

/// Deletions order before everything else.
pub open spec fn cat_class(c: CategoryV) -> int {
    if c.kind is Delete {
        0
    } else {
        1
    }
}

/// Within one tag, the opening wrap markers order before the boundary
/// markers.
pub open spec fn kind_rank(k: MarkupKind) -> int {
    match k {
        MarkupKind::Delete => 0,
        MarkupKind::Wrap => 0,
        MarkupKind::Boundary => 1,
    }
}

/// The fixed priority of categories at one offset: deletions first,
/// then by tag, and within one tag the opening markers before their
/// boundary markers — never the supplied order.
pub open spec fn cat_le(a: CategoryV, b: CategoryV) -> bool {
    ||| cat_class(a) < cat_class(b)
    ||| (cat_class(a) == cat_class(b) && lex_lt(a.tag, b.tag))
    ||| (cat_class(a) == cat_class(b) && a.tag == b.tag && kind_rank(a.kind) <= kind_rank(b.kind))
}

/// Stable insertion into a priority-ordered list: a category goes
/// after everything that does not order strictly after it.
pub open spec fn insert_sorted(c: CategoryV, s: Seq<CategoryV>) -> Seq<CategoryV>
    decreases s.len(),
{
    if s.len() == 0 {
        seq![c]
    } else if cat_le(s.first(), c) {
        seq![s.first()] + insert_sorted(c, s.drop_first())
    } else {
        seq![c] + s
    }
}

/// The canonical priority order of a category list.
pub open spec fn sort_cats(s: Seq<CategoryV>) -> Seq<CategoryV>
    decreases s.len(),
{
    if s.len() == 0 {
        Seq::empty()
    } else {
        insert_sorted(s.last(), sort_cats(s.drop_last()))
    }
}

/// Decides the lexicographic order on tag bytes.
fn bytes_lt(a: &Vec<u8>, b: &Vec<u8>) -> (r: bool)
    ensures
        r == lex_lt(a@, b@),
{
    let mut i: usize = 0;
    proof {
        assert(a@.skip(0) =~= a@);
        assert(b@.skip(0) =~= b@);
    }
    while i < a.len() && i < b.len()
        invariant
            i <= a@.len(),
            i <= b@.len(),
            lex_lt(a@, b@) == lex_lt(a@.skip(i as int), b@.skip(i as int)),
        decreases a@.len() - i,
    {
        let ghost ra = a@.skip(i as int);
        let ghost rb = b@.skip(i as int);
        proof {
            assert(ra.first() == a@[i as int]);
            assert(rb.first() == b@[i as int]);
            assert(ra.drop_first() =~= a@.skip(i + 1));
            assert(rb.drop_first() =~= b@.skip(i + 1));
        }
        if a[i] < b[i] {
            return true;
        }
        if a[i] > b[i] {
            return false;
        }
        i = i + 1;
    }
    let r = i < b.len();
    proof {
        let ra = a@.skip(i as int);
        let rb = b@.skip(i as int);
        if i < b@.len() {
            assert(ra.len() == 0);
            assert(lex_lt(ra, rb));
        } else {
            assert(rb.len() == 0);
            assert(!lex_lt(ra, rb));
        }
    }
    r
}

fn category_class(c: &ResolvedCategory) -> (r: usize)
    ensures
        r as int == cat_class(c@),
{
    match c.kind {
        MarkupKind::Delete => 0,
        _ => 1,
    }
}

fn category_rank(c: &ResolvedCategory) -> (r: usize)
    ensures
        r as int == kind_rank(c@.kind),
{
    match c.kind {
        MarkupKind::Delete => 0,
        MarkupKind::Wrap => 0,
        MarkupKind::Boundary => 1,
    }
}

/// Decides the fixed priority between two categories.
fn category_le(a: &ResolvedCategory, b: &ResolvedCategory) -> (r: bool)
    ensures
        r == cat_le(a@, b@),
{
    let ca = category_class(a);
    let cb = category_class(b);
    if ca != cb {
        return ca < cb;
    }
    if bytes_lt(&a.tag, &b.tag) {
        return true;
    }
    if bytes_lt(&b.tag, &a.tag) {
        proof {
            lemma_lex_irrefl(a@.tag);
            if a@.tag == b@.tag {
                assert(!lex_lt(b@.tag, a@.tag));
            }
        }
        return false;
    }
    proof {
        lemma_lex_trichotomy(a@.tag, b@.tag);
    }
    let ra = category_rank(a);
    let rb = category_rank(b);
    ra <= rb
}

proof fn lemma_insert_sorted_at(s: Seq<CategoryV>, c: CategoryV, k: int)
    requires
        0 <= k <= s.len(),
        forall|j: int| 0 <= j < k ==> cat_le(#[trigger] s[j], c),
        k < s.len() ==> !cat_le(s[k], c),
    ensures
        insert_sorted(c, s) == s.insert(k, c),
    decreases s.len(),
{
    if s.len() == 0 {
        assert(seq![c] =~= s.insert(0, c));
    } else if k == 0 {
        assert(!cat_le(s[0], c));
        assert(seq![c] + s =~= s.insert(0, c));
    } else {
        assert(cat_le(s[0], c));
        let rest = s.drop_first();
        assert forall|j: int| 0 <= j < k - 1 implies cat_le(#[trigger] rest[j], c) by {
            assert(rest[j] == s[j + 1]);
        }
        if k - 1 < rest.len() {
            assert(rest[k - 1] == s[k]);
        }
        lemma_insert_sorted_at(rest, c, k - 1);
        assert(seq![s.first()] + rest.insert(k - 1, c) =~= s.insert(k, c));
    }
}

/// Finds where a category belongs in the priority-ordered list.
fn find_insert_pos(v: &Vec<ResolvedCategory>, c: &ResolvedCategory) -> (k: usize)
    ensures
        k <= v@.len(),
        forall|j: int| 0 <= j < k ==> cat_le(#[trigger] v.deep_view()[j], c.deep_view()),
        k < v@.len() ==> !cat_le(v.deep_view()[k as int], c.deep_view()),
{
    let mut k: usize = 0;
    while k < v.len()
        invariant
            k <= v@.len(),
            forall|j: int| 0 <= j < k ==> cat_le(#[trigger] v.deep_view()[j], c.deep_view()),
        decreases v@.len() - k,
    {
        proof {
            assert(v.deep_view()[k as int] == v@[k as int].deep_view());
        }
        if !category_le(&v[k], c) {
            return k;
        }
        k = k + 1;
    }
    k
}

fn copy_regions(v: &Vec<ExtractedComment>) -> (r: Vec<ExtractedComment>)
    ensures
        r@ == v@,
{
    let mut r: Vec<ExtractedComment> = Vec::new();
    let mut i: usize = 0;
    while i < v.len()
        invariant
            i <= v@.len(),
            r@ == v@.subrange(0, i as int),
        decreases v@.len() - i,
    {
        r.push(v[i]);
        proof {
            assert(r@ =~= v@.subrange(0, i + 1 as int));
        }
        i = i + 1;
    }
    proof {
        assert(r@ =~= v@);
    }
    r
}

fn copy_category(c: &ResolvedCategory) -> (r: ResolvedCategory)
    ensures
        r.deep_view() == c.deep_view(),
{
    let mut tag: Vec<u8> = Vec::new();
    crate::substitute::append_bytes(&mut tag, c.tag.as_slice());
    let regions = copy_regions(&c.regions);
    ResolvedCategory { tag, kind: c.kind, regions }
}

fn insert_category(v: &mut Vec<ResolvedCategory>, c: ResolvedCategory)
    ensures
        final(v).deep_view() == insert_sorted(c.deep_view(), old(v).deep_view()),
{
    let ghost cdv = c.deep_view();
    let ghost vdv = v.deep_view();
    let k = find_insert_pos(v, &c);
    proof {
        lemma_insert_sorted_at(vdv, cdv, k as int);
    }
    v.insert(k, c);
    proof {
        assert(v.deep_view() =~= vdv.insert(k as int, cdv));
    }
}

/// Puts a category list into the fixed priority order.
fn sort_categories(cats: &Vec<ResolvedCategory>) -> (r: Vec<ResolvedCategory>)
    ensures
        r.deep_view() == sort_cats(cats.deep_view()),
{
    let mut out: Vec<ResolvedCategory> = Vec::new();
    let mut i: usize = 0;
    proof {
        assert(out.deep_view() =~= Seq::<CategoryV>::empty());
        assert(cats.deep_view().subrange(0, 0) =~= Seq::<CategoryV>::empty());
    }
    while i < cats.len()
        invariant
            i <= cats@.len(),
            out.deep_view() == sort_cats(cats.deep_view().subrange(0, i as int)),
        decreases cats@.len() - i,
    {
        let c = copy_category(&cats[i]);
        let ghost pre = cats.deep_view().subrange(0, i as int);
        let ghost now = cats.deep_view().subrange(0, i + 1 as int);
        proof {
            assert(now.drop_last() =~= pre);
            assert(now.last() == cats.deep_view()[i as int]);
            assert(c.deep_view() == cats.deep_view()[i as int]);
        }
        insert_category(&mut out, c);
        i = i + 1;
    }
    proof {
        assert(cats.deep_view().subrange(0, cats@.len() as int) =~= cats.deep_view());
    }
    out
}

pub open spec fn open_tag(tag: Seq<u8>) -> Seq<u8> {
    seq![60u8] + tag + seq![62u8]
}

pub open spec fn close_tag(tag: Seq<u8>) -> Seq<u8> {
    seq![60u8, 47u8] + tag + seq![62u8]
}

pub open spec fn region_covers(rg: ExtractedComment, i: int) -> bool {
    rg.start_byte <= i < rg.end_byte
}

pub open spec fn covered_by(regions: Seq<ExtractedComment>, i: int) -> bool {
    exists|r: int| 0 <= r < regions.len() && region_covers(#[trigger] regions[r], i)
}

pub open spec fn starts_at(c: CategoryV, i: int) -> bool {
    exists|r: int| 0 <= r < c.regions.len() && (#[trigger] c.regions[r]).start_byte == i
}

/// A byte offset is suppressed when some delete category's region
/// covers it.
pub open spec fn delete_covered(cats: Seq<CategoryV>, i: int) -> bool {
    exists|k: int|
        0 <= k < cats.len() && (#[trigger] cats[k]).kind is Delete && covered_by(
            cats[k].regions,
            i,
        )
}

/// The scan state: for each wrap tag opened so far, the offsets it was
/// opened at, most recent last.
pub open spec fn last_open(st: Seq<(Seq<u8>, int)>, tag: Seq<u8>) -> Option<int>
    decreases st.len(),
{
    if st.len() == 0 {
        None
    } else if st.last().0 == tag {
        Some(st.last().1)
    } else {
        last_open(st.drop_last(), tag)
    }
}

/// A boundary marker fires only strictly beyond the guard distance of
/// two bytes past the most recently opened wrap region of the same
/// tag; with no such region it always fires.
pub open spec fn guard_allows(st: Seq<(Seq<u8>, int)>, tag: Seq<u8>, i: int) -> bool {
    match last_open(st, tag) {
        None => true,
        Some(o) => i > o + 2,
    }
}

/// The tag bytes one category emits at one offset, region by region in
/// region order.
pub open spec fn cat_emit(c: CategoryV, i: int, st: Seq<(Seq<u8>, int)>, r: int) -> Seq<u8>
    decreases c.regions.len() - r,
{
    if r < 0 || r >= c.regions.len() {
        Seq::empty()
    } else {
        let this: Seq<u8> = if c.regions[r].start_byte == i {
            if c.kind is Wrap {
                open_tag(c.tag)
            } else if c.kind is Boundary {
                if guard_allows(st, c.tag, i) {
                    open_tag(c.tag) + close_tag(c.tag)
                } else {
                    Seq::empty()
                }
            } else {
                Seq::empty()
            }
        } else {
            Seq::empty()
        };
        this + cat_emit(c, i, st, r + 1)
    }
}

/// The scan state after one category is processed at one offset: a
/// wrap category that opens a region here records the offset under its
/// tag.
pub open spec fn cat_state(c: CategoryV, i: int, st: Seq<(Seq<u8>, int)>) -> Seq<(Seq<u8>, int)> {
    if c.kind is Wrap && starts_at(c, i) {
        st.push((c.tag, i))
    } else {
        st
    }
}

/// The tag bytes all categories emit at one offset, in the fixed
/// category order, each seeing the state its predecessors left.
pub open spec fn cats_emit(cats: Seq<CategoryV>, i: int, st: Seq<(Seq<u8>, int)>, k: int) -> Seq<
    u8,
>
    decreases cats.len() - k,
{
    if k < 0 || k >= cats.len() {
        Seq::empty()
    } else {
        cat_emit(cats[k], i, st, 0) + cats_emit(cats, i, cat_state(cats[k], i, st), k + 1)
    }
}

pub open spec fn cats_state(
    cats: Seq<CategoryV>,
    i: int,
    st: Seq<(Seq<u8>, int)>,
    k: int,
) -> Seq<(Seq<u8>, int)>
    decreases cats.len() - k,
{
    if k < 0 || k >= cats.len() {
        st
    } else {
        cats_state(cats, i, cat_state(cats[k], i, st), k + 1)
    }
}

/// The annotated byte stream from offset `i` on: at every offset the
/// categories' tags, then the byte itself unless a delete region
/// covers it.
pub open spec fn annotate_spec(
    src: Seq<u8>,
    cats: Seq<CategoryV>,
    i: int,
    st: Seq<(Seq<u8>, int)>,
) -> Seq<u8>
    decreases src.len() - i,
{
    if i < 0 || i >= src.len() {
        Seq::empty()
    } else {
        let tags = cats_emit(cats, i, st, 0);
        let byte: Seq<u8> = if delete_covered(cats, i) {
            Seq::empty()
        } else {
            seq![src[i]]
        };
        tags + byte + annotate_spec(src, cats, i + 1, cats_state(cats, i, st, 0))
    }
}

/// The whole annotated byte stream of a buffer under a category list.
pub open spec fn annotated(src: Seq<u8>, cats: Seq<CategoryV>) -> Seq<u8> {
    annotate_spec(src, cats, 0, Seq::empty())
}

/// The view of the executable scan state.
pub open spec fn state_view(st: Seq<(Vec<u8>, usize)>) -> Seq<(Seq<u8>, int)> {
    st.map_values(|p: (Vec<u8>, usize)| (p.0@, p.1 as int))
}

fn make_open_tag(tag: &Vec<u8>) -> (r: Vec<u8>)
    ensures
        r@ == open_tag(tag@),
{
    let mut r: Vec<u8> = Vec::new();
    r.push(60u8);
    crate::substitute::append_bytes(&mut r, tag.as_slice());
    r.push(62u8);
    proof {
        assert(r@ =~= open_tag(tag@));
    }
    r
}

fn make_close_tag(tag: &Vec<u8>) -> (r: Vec<u8>)
    ensures
        r@ == close_tag(tag@),
{
    let mut r: Vec<u8> = Vec::new();
    r.push(60u8);
    r.push(47u8);
    crate::substitute::append_bytes(&mut r, tag.as_slice());
    r.push(62u8);
    proof {
        assert(r@ =~= close_tag(tag@));
    }
    r
}

/// Looks up the most recent opening offset recorded under a tag.
fn last_open_at(st: &Vec<(Vec<u8>, usize)>, tag: &Vec<u8>) -> (r: Option<usize>)
    ensures
        match r {
            Some(o) => last_open(state_view(st@), tag@) == Some(o as int),
            None => last_open(state_view(st@), tag@) is None,
        },
{
    let ghost sv = state_view(st@);
    let mut j: usize = st.len();
    proof {
        assert(sv.subrange(0, st@.len() as int) =~= sv);
    }
    while j > 0
        invariant
            j <= st@.len(),
            sv == state_view(st@),
            last_open(sv, tag@) == last_open(sv.subrange(0, j as int), tag@),
        decreases j,
    {
        let ghost prefix = sv.subrange(0, j as int);
        proof {
            assert(prefix.last() == sv[j - 1]);
            assert(prefix.drop_last() =~= sv.subrange(0, j - 1));
            assert(sv[j - 1].0 == st@[j - 1].0@);
            assert(sv[j - 1].1 == st@[j - 1].1 as int);
        }
        if crate::substitute::bytes_equal(&st[j - 1].0, tag) {
            return Some(st[j - 1].1);
        }
        j = j - 1;
    }
    proof {
        assert(sv.subrange(0, 0) =~= Seq::<(Seq<u8>, int)>::empty());
    }
    None
}

/// Decides the guard for a boundary marker at an offset.
fn guard_check(st: &Vec<(Vec<u8>, usize)>, tag: &Vec<u8>, i: usize) -> (r: bool)
    ensures
        r == guard_allows(state_view(st@), tag@, i as int),
{
    match last_open_at(st, tag) {
        None => true,
        Some(o) => i > o && i - o > 2,
    }
}

/// Decides whether any of the regions covers an offset.
fn regions_cover(regions: &Vec<ExtractedComment>, i: usize) -> (r: bool)
    ensures
        r == covered_by(regions@, i as int),
{
    let mut k: usize = 0;
    while k < regions.len()
        invariant
            k <= regions@.len(),
            forall|x: int| 0 <= x < k ==> !region_covers(#[trigger] regions@[x], i as int),
        decreases regions@.len() - k,
    {
        let rg = regions[k];
        if rg.start_byte <= i && i < rg.end_byte {
            proof {
                assert(region_covers(regions@[k as int], i as int));
            }
            return true;
        }
        k = k + 1;
    }
    false
}

/// Decides whether some delete category suppresses an offset.
fn is_delete_covered(cats: &Vec<ResolvedCategory>, i: usize) -> (r: bool)
    ensures
        r == delete_covered(cats.deep_view(), i as int),
{
    let ghost catsv = cats.deep_view();
    let mut k: usize = 0;
    while k < cats.len()
        invariant
            k <= cats@.len(),
            catsv == cats.deep_view(),
            forall|x: int|
                0 <= x < k ==> !((#[trigger] catsv[x]).kind is Delete && covered_by(
                    catsv[x].regions,
                    i as int,
                )),
        decreases cats@.len() - k,
    {
        let c = &cats[k];
        proof {
            assert(catsv[k as int] == c.deep_view());
        }
        let is_del = match c.kind {
            MarkupKind::Delete => true,
            _ => false,
        };
        if is_del {
            if regions_cover(&c.regions, i) {
                proof {
                    assert(catsv[k as int].kind is Delete && covered_by(
                        catsv[k as int].regions,
                        i as int,
                    ));
                }
                return true;
            }
        }
        k = k + 1;
    }
    false
}

/// The tags one category emits at one offset, and whether any of its
/// regions starts here.
fn category_tags(c: &ResolvedCategory, i: usize, st: &Vec<(Vec<u8>, usize)>) -> (r: (Vec<u8>, bool))
    ensures
        r.0@ == cat_emit(c@, i as int, state_view(st@), 0),
        r.1 == starts_at(c@, i as int),
{
    let ghost cv = c@;
    let ghost sv = state_view(st@);
    let mut acc: Vec<u8> = Vec::new();
    let mut started = false;
    let allowed = guard_check(st, &c.tag, i);
    let mut r: usize = 0;
    while r < c.regions.len()
        invariant
            r <= c.regions@.len(),
            cv == c@,
            sv == state_view(st@),
            allowed == guard_allows(sv, cv.tag, i as int),
            cat_emit(cv, i as int, sv, 0) == acc@ + cat_emit(cv, i as int, sv, r as int),
            started == exists|x: int|
                0 <= x < r && (#[trigger] cv.regions[x]).start_byte == i,
        decreases c.regions@.len() - r,
    {
        let ghost acc_pre = acc@;
        let ghost this = cat_emit(cv, i as int, sv, r as int);
        let ghost rest = cat_emit(cv, i as int, sv, r + 1);
        let rg = c.regions[r];
        proof {
            assert(cv.regions[r as int] == rg);
        }
        if rg.start_byte == i {
            started = true;
            proof {
                assert((#[trigger] cv.regions[r as int]).start_byte == i);
            }
            match c.kind {
                MarkupKind::Wrap => {
                    let t = make_open_tag(&c.tag);
                    crate::substitute::append_bytes(&mut acc, t.as_slice());
                    proof {
                        assert(this == open_tag(cv.tag) + rest);
                        assert(acc@ + rest =~= acc_pre + this);
                    }
                },
                MarkupKind::Boundary => {
                    if allowed {
                        let t = make_open_tag(&c.tag);
                        crate::substitute::append_bytes(&mut acc, t.as_slice());
                        let t2 = make_close_tag(&c.tag);
                        crate::substitute::append_bytes(&mut acc, t2.as_slice());
                        proof {
                            assert(this == (open_tag(cv.tag) + close_tag(cv.tag)) + rest);
                            assert(acc@ + rest =~= acc_pre + this);
                        }
                    } else {
                        proof {
                            assert(this == Seq::<u8>::empty() + rest);
                            assert(acc@ + rest =~= acc_pre + this);
                        }
                    }
                },
                MarkupKind::Delete => {
                    proof {
                        assert(this == Seq::<u8>::empty() + rest);
                        assert(acc@ + rest =~= acc_pre + this);
                    }
                },
            }
        } else {
            proof {
                assert(this == Seq::<u8>::empty() + rest);
                assert(acc@ + rest =~= acc_pre + this);
            }
        }
        proof {
            assert(cat_emit(cv, i as int, sv, 0) == acc@ + rest);
        }
        r = r + 1;
    }
    proof {
        assert(cat_emit(cv, i as int, sv, c.regions@.len() as int) == Seq::<u8>::empty());
        assert(acc@ + Seq::<u8>::empty() =~= acc@);
    }
    (acc, started)
}

/// Processes all categories at one offset: collects their tags in the
/// fixed category order and threads the scan state through them.
fn offset_tags(cats: &Vec<ResolvedCategory>, i: usize, st: &mut Vec<(Vec<u8>, usize)>) -> (r: Vec<
    u8,
>)
    ensures
        r@ == cats_emit(cats.deep_view(), i as int, state_view(old(st)@), 0),
        state_view(final(st)@) == cats_state(cats.deep_view(), i as int, state_view(old(st)@), 0),
{
    let ghost catsv = cats.deep_view();
    let ghost st0 = state_view(st@);
    let mut acc: Vec<u8> = Vec::new();
    let mut k: usize = 0;
    while k < cats.len()
        invariant
            k <= cats@.len(),
            catsv == cats.deep_view(),
            cats_emit(catsv, i as int, st0, 0) == acc@ + cats_emit(
                catsv,
                i as int,
                state_view(st@),
                k as int,
            ),
            cats_state(catsv, i as int, st0, 0) == cats_state(
                catsv,
                i as int,
                state_view(st@),
                k as int,
            ),
        decreases cats@.len() - k,
    {
        let ghost stv_pre = state_view(st@);
        let ghost acc_pre = acc@;
        let c = &cats[k];
        proof {
            assert(catsv[k as int] == c.deep_view());
        }
        let tag_pair = category_tags(c, i, st);
        let tags = tag_pair.0;
        let started = tag_pair.1;
        crate::substitute::append_bytes(&mut acc, tags.as_slice());
        let is_wrap = match c.kind {
            MarkupKind::Wrap => true,
            _ => false,
        };
        if is_wrap && started {
            let mut tagcopy: Vec<u8> = Vec::new();
            crate::substitute::append_bytes(&mut tagcopy, c.tag.as_slice());
            st.push((tagcopy, i));
            proof {
                assert(state_view(st@) =~= stv_pre.push((c@.tag, i as int)));
                assert(state_view(st@) == cat_state(catsv[k as int], i as int, stv_pre));
            }
        } else {
            proof {
                assert(state_view(st@) == cat_state(catsv[k as int], i as int, stv_pre));
            }
        }
        proof {
            assert(cats_emit(catsv, i as int, stv_pre, k as int) == cat_emit(
                catsv[k as int],
                i as int,
                stv_pre,
                0,
            ) + cats_emit(catsv, i as int, state_view(st@), k + 1));
            assert(acc@ + cats_emit(catsv, i as int, state_view(st@), k + 1) =~= acc_pre
                + cats_emit(catsv, i as int, stv_pre, k as int));
            assert(cats_state(catsv, i as int, stv_pre, k as int) == cats_state(
                catsv,
                i as int,
                state_view(st@),
                k + 1,
            ));
        }
        k = k + 1;
    }
    proof {
        assert(cats_emit(catsv, i as int, state_view(st@), cats@.len() as int)
            == Seq::<u8>::empty());
        assert(acc@ + Seq::<u8>::empty() =~= acc@);
        assert(cats_state(catsv, i as int, state_view(st@), cats@.len() as int) == state_view(
            st@,
        ));
    }
    acc
}

/// The one linear pass over every byte offset, with the categories
/// already in their fixed priority order.
fn annotate_in_order(source: &Vec<u8>, cats: &Vec<ResolvedCategory>) -> (r: Vec<u8>)
    ensures
        r@ == annotated(source@, cats.deep_view()),
{
    let ghost catsv = cats.deep_view();
    let mut out: Vec<u8> = Vec::new();
    let mut st: Vec<(Vec<u8>, usize)> = Vec::new();
    let mut i: usize = 0;
    proof {
        assert(state_view(st@) =~= Seq::<(Seq<u8>, int)>::empty());
    }
    while i < source.len()
        invariant
            i <= source@.len(),
            catsv == cats.deep_view(),
            annotated(source@, catsv) == out@ + annotate_spec(
                source@,
                catsv,
                i as int,
                state_view(st@),
            ),
        decreases source@.len() - i,
    {
        let ghost st_pre = state_view(st@);
        let ghost out_pre = out@;
        let tags = offset_tags(cats, i, &mut st);
        crate::substitute::append_bytes(&mut out, tags.as_slice());
        let ghost byte: Seq<u8> = if delete_covered(catsv, i as int) {
            Seq::empty()
        } else {
            seq![source@[i as int]]
        };
        if !is_delete_covered(cats, i) {
            let b = source[i];
            out.push(b);
        }
        proof {
            assert(annotate_spec(source@, catsv, i as int, st_pre) == cats_emit(
                catsv,
                i as int,
                st_pre,
                0,
            ) + byte + annotate_spec(source@, catsv, i + 1, cats_state(catsv, i as int, st_pre, 0)));
            assert(out@ =~= out_pre + cats_emit(catsv, i as int, st_pre, 0) + byte);
            assert(out@ + annotate_spec(source@, catsv, i + 1, state_view(st@)) =~= out_pre + (
            cats_emit(catsv, i as int, st_pre, 0) + byte + annotate_spec(
                source@,
                catsv,
                i + 1,
                cats_state(catsv, i as int, st_pre, 0),
            )));
        }
        i = i + 1;
    }
    proof {
        assert(annotate_spec(source@, catsv, source@.len() as int, state_view(st@))
            == Seq::<u8>::empty());
        assert(out@ + Seq::<u8>::empty() =~= out@);
    }
    out
}

/// Produces the annotated byte stream of a buffer under a category
/// list.  The categories are first put into their fixed priority
/// order — deletions, then by tag, within one tag the opening markers
/// before their boundary markers — so that the tags emitted when
/// several categories fire at one offset never depend on the order the
/// categories were supplied or evaluated in.
pub fn annotate(source: &Vec<u8>, cats: &Vec<ResolvedCategory>) -> (r: Vec<u8>)
    ensures
        r@ == annotated(source@, sort_cats(cats.deep_view())),
{
    let canon = sort_categories(cats);
    annotate_in_order(source, &canon)
}

/// The merge is by the fixed priority, never the supplied order: two
/// category lists with the same canonical order annotate identically.
/// (Two categories tie in the canonical order only when they share
/// both tag and kind.)
pub proof fn lemma_annotation_order_fixed(src: Seq<u8>, a: Seq<CategoryV>, b: Seq<CategoryV>)
    requires
        sort_cats(a) == sort_cats(b),
    ensures
        annotated(src, sort_cats(a)) == annotated(src, sort_cats(b)),
{
}

/// The buffer from offset `i` on with every byte covered by one of the
/// regions left out, in order.
pub open spec fn drop_deleted(src: Seq<u8>, regions: Seq<ExtractedComment>, i: int) -> Seq<u8>
    decreases src.len() - i,
{
    if i < 0 || i >= src.len() {
        Seq::empty()
    } else if covered_by(regions, i) {
        drop_deleted(src, regions, i + 1)
    } else {
        seq![src[i]] + drop_deleted(src, regions, i + 1)
    }
}

/// Copies the buffer, leaving out every byte that one of the regions
/// covers: the output bytes equal the input bytes minus exactly the
/// covered ranges.
pub fn elide_regions(source: &Vec<u8>, regions: &Vec<ExtractedComment>) -> (r: Vec<u8>)
    ensures
        r@ == drop_deleted(source@, regions@, 0),
{
    let mut out: Vec<u8> = Vec::new();
    let mut i: usize = 0;
    while i < source.len()
        invariant
            i <= source@.len(),
            drop_deleted(source@, regions@, 0) == out@ + drop_deleted(
                source@,
                regions@,
                i as int,
            ),
        decreases source@.len() - i,
    {
        let ghost out_pre = out@;
        if !regions_cover(regions, i) {
            let b = source[i];
            out.push(b);
            proof {
                assert(drop_deleted(source@, regions@, i as int) == seq![source@[i as int]]
                    + drop_deleted(source@, regions@, i + 1));
                assert(out@ + drop_deleted(source@, regions@, i + 1) =~= out_pre + drop_deleted(
                    source@,
                    regions@,
                    i as int,
                ));
            }
        }
        i = i + 1;
    }
    proof {
        assert(drop_deleted(source@, regions@, source@.len() as int) == Seq::<u8>::empty());
        assert(out@ + Seq::<u8>::empty() =~= out@);
    }
    out
}

proof fn lemma_cat_emit_empty(c: CategoryV, i: int, st: Seq<(Seq<u8>, int)>, r: int)
    requires
        c.kind is Delete || c.regions.len() == 0,
    ensures
        cat_emit(c, i, st, r) == Seq::<u8>::empty(),
    decreases c.regions.len() - r,
{
    if r < 0 || r >= c.regions.len() {
    } else {
        lemma_cat_emit_empty(c, i, st, r + 1);
        assert(cat_emit(c, i, st, r) =~= Seq::<u8>::empty());
    }
}

proof fn lemma_cats_emit_empty(cats: Seq<CategoryV>, i: int, st: Seq<(Seq<u8>, int)>, k: int)
    requires
        forall|x: int|
            0 <= x < cats.len() ==> ((#[trigger] cats[x]).kind is Delete
                || cats[x].regions.len() == 0),
    ensures
        cats_emit(cats, i, st, k) == Seq::<u8>::empty(),
    decreases cats.len() - k,
{
    if k < 0 || k >= cats.len() {
    } else {
        lemma_cat_emit_empty(cats[k], i, st, 0);
        lemma_cats_emit_empty(cats, i, cat_state(cats[k], i, st), k + 1);
        assert(cats_emit(cats, i, st, k) =~= Seq::<u8>::empty());
    }
}

proof fn lemma_delete_only_scan(
    src: Seq<u8>,
    cats: Seq<CategoryV>,
    regions: Seq<ExtractedComment>,
    i: int,
    st: Seq<(Seq<u8>, int)>,
)
    requires
        forall|x: int|
            0 <= x < cats.len() ==> ((#[trigger] cats[x]).kind is Delete
                || cats[x].regions.len() == 0),
        forall|x: int| delete_covered(cats, x) == covered_by(regions, x),
    ensures
        annotate_spec(src, cats, i, st) == drop_deleted(src, regions, i),
    decreases src.len() - i,
{
    if i < 0 || i >= src.len() {
    } else {
        lemma_cats_emit_empty(cats, i, st, 0);
        lemma_delete_only_scan(src, cats, regions, i + 1, cats_state(cats, i, st, 0));
        assert(delete_covered(cats, i) == covered_by(regions, i));
        if covered_by(regions, i) {
            assert(annotate_spec(src, cats, i, st) =~= drop_deleted(src, regions, i));
        } else {
            assert(annotate_spec(src, cats, i, st) =~= drop_deleted(src, regions, i));
        }
    }
}

proof fn lemma_delete_covered_uncons(x: CategoryV, t: Seq<CategoryV>, i: int)
    ensures
        delete_covered(seq![x] + t, i) == ((x.kind is Delete && covered_by(x.regions, i))
            || delete_covered(t, i)),
{
    let u = seq![x] + t;
    if delete_covered(u, i) {
        let k = choose|k: int|
            0 <= k < u.len() && (#[trigger] u[k]).kind is Delete && covered_by(u[k].regions, i);
        if k == 0 {
            assert(u[0] == x);
        } else {
            assert(u[k] == t[k - 1]);
        }
    }
    if x.kind is Delete && covered_by(x.regions, i) {
        assert(u[0] == x);
        assert(delete_covered(u, i));
    }
    if delete_covered(t, i) {
        let k = choose|k: int|
            0 <= k < t.len() && (#[trigger] t[k]).kind is Delete && covered_by(t[k].regions, i);
        assert(u[k + 1] == t[k]);
        assert(delete_covered(u, i));
    }
}

proof fn lemma_delete_covered_unsnoc(s: Seq<CategoryV>, i: int)
    requires
        s.len() > 0,
    ensures
        delete_covered(s, i) == ((s.last().kind is Delete && covered_by(s.last().regions, i))
            || delete_covered(s.drop_last(), i)),
{
    if delete_covered(s, i) {
        let k = choose|k: int|
            0 <= k < s.len() && (#[trigger] s[k]).kind is Delete && covered_by(s[k].regions, i);
        if k < s.len() - 1 {
            assert(s.drop_last()[k] == s[k]);
        }
    }
    if delete_covered(s.drop_last(), i) {
        let k = choose|k: int|
            0 <= k < s.drop_last().len() && (#[trigger] s.drop_last()[k]).kind is Delete
                && covered_by(s.drop_last()[k].regions, i);
        assert(s[k] == s.drop_last()[k]);
        assert(delete_covered(s, i));
    }
    if s.last().kind is Delete && covered_by(s.last().regions, i) {
        assert(s[s.len() - 1] == s.last());
        assert(delete_covered(s, i));
    }
}

proof fn lemma_insert_delete_covered(c: CategoryV, s: Seq<CategoryV>, i: int)
    ensures
        delete_covered(insert_sorted(c, s), i) == ((c.kind is Delete && covered_by(
            c.regions,
            i,
        )) || delete_covered(s, i)),
    decreases s.len(),
{
    if s.len() == 0 {
        lemma_delete_covered_uncons(c, s, i);
        assert(seq![c] + s =~= seq![c]);
        assert(delete_covered(s, i) == false);
    } else if cat_le(s.first(), c) {
        lemma_insert_delete_covered(c, s.drop_first(), i);
        lemma_delete_covered_uncons(s.first(), insert_sorted(c, s.drop_first()), i);
        lemma_delete_covered_uncons(s.first(), s.drop_first(), i);
        assert(seq![s.first()] + s.drop_first() =~= s);
    } else {
        lemma_delete_covered_uncons(c, s, i);
    }
}

proof fn lemma_insert_delete_profile(c: CategoryV, s: Seq<CategoryV>)
    requires
        c.kind is Delete || c.regions.len() == 0,
        forall|x: int|
            0 <= x < s.len() ==> ((#[trigger] s[x]).kind is Delete || s[x].regions.len() == 0),
    ensures
        forall|x: int|
            0 <= x < insert_sorted(c, s).len() ==> ((#[trigger] insert_sorted(c, s)[x]).kind
                is Delete || insert_sorted(c, s)[x].regions.len() == 0),
    decreases s.len(),
{
    let u = insert_sorted(c, s);
    if s.len() == 0 {
        assert(u[0] == c);
    } else if cat_le(s.first(), c) {
        assert forall|x: int|
            0 <= x < s.drop_first().len() implies ((#[trigger] s.drop_first()[x]).kind is Delete
            || s.drop_first()[x].regions.len() == 0) by {
            assert(s.drop_first()[x] == s[x + 1]);
        }
        lemma_insert_delete_profile(c, s.drop_first());
        assert forall|x: int|
            0 <= x < u.len() implies ((#[trigger] u[x]).kind is Delete || u[x].regions.len()
            == 0) by {
            if x == 0 {
                assert(u[0] == s.first());
            } else {
                assert(u[x] == insert_sorted(c, s.drop_first())[x - 1]);
            }
        }
    } else {
        assert forall|x: int|
            0 <= x < u.len() implies ((#[trigger] u[x]).kind is Delete || u[x].regions.len()
            == 0) by {
            if x == 0 {
                assert(u[0] == c);
            } else {
                assert(u[x] == s[x - 1]);
            }
        }
    }
}

/// The canonical order neither adds nor loses delete coverage: sorting
/// preserves which offsets are covered by a delete category, and a
/// list of delete-only or regionless categories stays so.
pub proof fn lemma_sort_delete_profile(s: Seq<CategoryV>)
    ensures
        (forall|x: int|
            0 <= x < s.len() ==> ((#[trigger] s[x]).kind is Delete || s[x].regions.len() == 0))
            ==> (forall|x: int|
            0 <= x < sort_cats(s).len() ==> ((#[trigger] sort_cats(s)[x]).kind is Delete
                || sort_cats(s)[x].regions.len() == 0)),
        forall|i: int| #[trigger] delete_covered(sort_cats(s), i) == delete_covered(s, i),
    decreases s.len(),
{
    if s.len() == 0 {
    } else {
        let pre = s.drop_last();
        lemma_sort_delete_profile(pre);
        if forall|x: int|
            0 <= x < s.len() ==> ((#[trigger] s[x]).kind is Delete || s[x].regions.len() == 0) {
            assert forall|x: int|
                0 <= x < pre.len() implies ((#[trigger] pre[x]).kind is Delete
                || pre[x].regions.len() == 0) by {
                assert(pre[x] == s[x]);
            }
            assert(s.last() == s[s.len() - 1]);
            lemma_insert_delete_profile(s.last(), sort_cats(pre));
        }
        assert forall|i: int| #[trigger]
            delete_covered(sort_cats(s), i) == delete_covered(s, i) by {
            lemma_insert_delete_covered(s.last(), sort_cats(pre), i);
            lemma_delete_covered_unsnoc(s, i);
        }
    }
}

/// With every category either of the delete kind or without regions —
/// the comment-stripping configuration — the annotated stream equals
/// the input bytes minus exactly the bytes the delete regions cover.
pub proof fn lemma_delete_only_annotation(
    src: Seq<u8>,
    cats: Seq<CategoryV>,
    regions: Seq<ExtractedComment>,
)
    requires
        forall|x: int|
            0 <= x < cats.len() ==> ((#[trigger] cats[x]).kind is Delete
                || cats[x].regions.len() == 0),
        forall|x: int| delete_covered(cats, x) == covered_by(regions, x),
    ensures
        annotated(src, cats) == drop_deleted(src, regions, 0),
{
    lemma_delete_only_scan(src, cats, regions, 0, Seq::empty());
}

proof fn lemma_empty_cats_scan(src: Seq<u8>, i: int, st: Seq<(Seq<u8>, int)>)
    requires
        0 <= i <= src.len(),
    ensures
        annotate_spec(src, Seq::empty(), i, st) == src.skip(i),
    decreases src.len() - i,
{
    if i >= src.len() {
        assert(src.skip(i) =~= Seq::<u8>::empty());
    } else {
        lemma_empty_cats_scan(src, i + 1, cats_state(Seq::empty(), i, st, 0));
        assert(annotate_spec(src, Seq::empty(), i, st) =~= src.skip(i));
    }
}

/// With no categories at all the annotated stream is the source
/// itself, byte for byte.
pub proof fn lemma_empty_annotation(src: Seq<u8>)
    ensures
        annotated(src, Seq::empty()) == src,
{
    lemma_empty_cats_scan(src, 0, Seq::empty());
    assert(src.skip(0) =~= src);
}

/// The delete-only equality holds of the canonical order too: with
/// every category either of the delete kind or without regions, the
/// engine's output — the annotation under the canonical order — equals
/// the input bytes minus exactly the covered ranges.
pub proof fn lemma_delete_only_annotation_canonical(
    src: Seq<u8>,
    cats: Seq<CategoryV>,
    regions: Seq<ExtractedComment>,
)
    requires
        forall|x: int|
            0 <= x < cats.len() ==> ((#[trigger] cats[x]).kind is Delete
                || cats[x].regions.len() == 0),
        forall|x: int| delete_covered(cats, x) == covered_by(regions, x),
    ensures
        annotated(src, sort_cats(cats)) == drop_deleted(src, regions, 0),
{
    lemma_sort_delete_profile(cats);
    lemma_delete_only_annotation(src, sort_cats(cats), regions);
}

/// For a fixed buffer and fixed resolved categories the annotated
/// stream is a function of those inputs alone: running the markup
/// engine twice on the same source produces byte-identical output.
pub proof fn lemma_annotation_deterministic(
    src: Seq<u8>,
    cats: Seq<CategoryV>,
    a: Seq<u8>,
    b: Seq<u8>,
)
    requires
        a == annotated(src, cats),
        b == annotated(src, cats),
    ensures
        a == b,
{
}

/// The most recent offset at or before `i` where one of the category's
/// regions starts, if any.
pub open spec fn last_start_at_or_before(c: CategoryV, i: int) -> Option<int>
    decreases i + 1,
{
    if i < 0 {
        None
    } else if starts_at(c, i) {
        Some(i)
    } else {
        last_start_at_or_before(c, i - 1)
    }
}

/// The state the scan carries when it reaches offset `i`: the empty
/// state advanced over offsets `0..i`.  The scan's own recursion
/// threads exactly this state.
pub open spec fn scan_state(cats: Seq<CategoryV>, i: int) -> Seq<(Seq<u8>, int)>
    decreases i,
{
    if i <= 0 {
        Seq::empty()
    } else {
        cats_state(cats, i - 1, scan_state(cats, i - 1), 0)
    }
}

proof fn lemma_scan_state_last_open(wrapc: CategoryV, boundc: CategoryV, i: int)
    requires
        wrapc.kind is Wrap,
        !(boundc.kind is Wrap),
        boundc.tag == wrapc.tag,
        i >= 0,
    ensures
        last_open(scan_state(seq![wrapc, boundc], i), wrapc.tag) == last_start_at_or_before(
            wrapc,
            i - 1,
        ),
    decreases i,
{
    let cats = seq![wrapc, boundc];
    if i == 0 {
    } else {
        lemma_scan_state_last_open(wrapc, boundc, i - 1);
        let st = scan_state(cats, i - 1);
        assert(cats[0] == wrapc);
        assert(cats[1] == boundc);
        let st1 = cat_state(wrapc, i - 1, st);
        let st2 = cat_state(boundc, i - 1, st1);
        assert(cats_state(cats, i - 1, st, 0) == cats_state(cats, i - 1, st1, 1));
        assert(cats_state(cats, i - 1, st1, 1) == cats_state(cats, i - 1, st2, 2));
        assert(cats_state(cats, i - 1, st2, 2) == st2);
        assert(st2 == st1);
        if starts_at(wrapc, i - 1) {
            assert(st1 == st.push((wrapc.tag, i - 1)));
            assert(st1.last() == (wrapc.tag, i - 1));
            assert(last_open(st1, wrapc.tag) == Some(i - 1));
            assert(last_start_at_or_before(wrapc, i - 1) == Some(i - 1));
        } else {
            assert(st1 == st);
            assert(last_start_at_or_before(wrapc, i - 1) == last_start_at_or_before(
                wrapc,
                i - 2,
            ));
        }
    }
}

/// The boundary guard in general, for a wrap (scope) category and a
/// boundary category of one tag: at any offset the boundary marker is
/// allowed exactly when no wrap region has started at or before the
/// offset, or the offset lies strictly beyond two bytes past the most
/// recent such start — suppressed within the guard distance of a
/// just-opened wrap region, emitted once past it.  (The scan presents
/// the boundary category with the wrap category's same-offset opening
/// already recorded, so a marker at the very opening offset counts as
/// within the guard.)
pub proof fn lemma_boundary_guard_law(wrapc: CategoryV, boundc: CategoryV, i: int)
    requires
        wrapc.kind is Wrap,
        boundc.kind is Boundary,
        boundc.tag == wrapc.tag,
        i >= 0,
    ensures
        guard_allows(cat_state(wrapc, i, scan_state(seq![wrapc, boundc], i)), boundc.tag, i)
            <==> match last_start_at_or_before(wrapc, i) {
            None => true,
            Some(o) => i > o + 2,
        },
{
    lemma_scan_state_last_open(wrapc, boundc, i);
    let st = scan_state(seq![wrapc, boundc], i);
    let st1 = cat_state(wrapc, i, st);
    if starts_at(wrapc, i) {
        assert(st1 == st.push((wrapc.tag, i)));
        assert(st1.last() == (wrapc.tag, i));
        assert(last_open(st1, wrapc.tag) == Some(i));
        assert(last_start_at_or_before(wrapc, i) == Some(i));
    } else {
        assert(st1 == st);
        assert(last_start_at_or_before(wrapc, i) == last_start_at_or_before(wrapc, i - 1));
    }
}

/// The byte ranges of one raw match's captures, in capture order.
pub open spec fn match_regions(caps: Seq<crate::provider::RawCapture>) -> Seq<ExtractedComment> {
    caps.map_values(
        |c: crate::provider::RawCapture|
            ExtractedComment { start_byte: c.start_byte, end_byte: c.end_byte },
    )
}

/// The byte ranges of all captures of a raw match sequence, flattened
/// in match order.
pub open spec fn regions_of(raw: Seq<RawMatch>) -> Seq<ExtractedComment>
    decreases raw.len(),
{
    if raw.len() == 0 {
        Seq::empty()
    } else {
        regions_of(raw.drop_last()) + match_regions(raw.last().captures@)
    }
}

/// Flattens the byte ranges out of a query's raw matches.
pub fn regions_from_raw(raw: &Vec<RawMatch>) -> (r: Vec<ExtractedComment>)
    ensures
        r@ == regions_of(raw@),
{
    let mut out: Vec<ExtractedComment> = Vec::new();
    let mut i: usize = 0;
    while i < raw.len()
        invariant
            i <= raw@.len(),
            out@ == regions_of(raw@.subrange(0, i as int)),
        decreases raw@.len() - i,
    {
        let m = &raw[i];
        let ghost pre = raw@.subrange(0, i as int);
        let mut j: usize = 0;
        while j < m.captures.len()
            invariant
                j <= m.captures@.len(),
                0 <= i < raw@.len(),
                m == &raw[i as int],
                pre == raw@.subrange(0, i as int),
                out@ == regions_of(pre) + match_regions(m.captures@.subrange(0, j as int)),
            decreases m.captures@.len() - j,
        {
            let c = &m.captures[j];
            let ghost caps_pre = m.captures@.subrange(0, j as int);
            let ghost caps_now = m.captures@.subrange(0, j + 1 as int);
            out.push(ExtractedComment { start_byte: c.start_byte, end_byte: c.end_byte });
            proof {
                assert(match_regions(caps_now) =~= match_regions(caps_pre).push(
                    ExtractedComment { start_byte: c.start_byte, end_byte: c.end_byte },
                ));
                assert(out@ =~= regions_of(pre) + match_regions(caps_now));
            }
            j = j + 1;
        }
        proof {
            assert(m.captures@.subrange(0, m.captures@.len() as int) =~= m.captures@);
            let now = raw@.subrange(0, i + 1 as int);
            assert(now.drop_last() =~= pre);
            assert(now.last() == raw@[i as int]);
        }
        i = i + 1;
    }
    proof {
        assert(raw@.subrange(0, raw@.len() as int) =~= raw@);
    }
    out
}

/// A region denotes text in the buffer: its range lies within the
/// buffer and the covered bytes are valid text.
pub open spec fn region_text_valid(src: Seq<u8>, rg: ExtractedComment) -> bool {
    &&& rg.start_byte <= rg.end_byte
    &&& rg.end_byte <= src.len()
    &&& valid_utf8(src.subrange(rg.start_byte as int, rg.end_byte as int))
}

pub open spec fn regions_text_valid(src: Seq<u8>, regions: Seq<ExtractedComment>) -> bool {
    forall|k: int| 0 <= k < regions.len() ==> region_text_valid(src, #[trigger] regions[k])
}

/// Checks that every captured region denotes valid text; the whole
/// call aborts on the first that does not, with the decode error.
fn validate_regions(source: &Vec<u8>, regions: &Vec<ExtractedComment>) -> (r: Result<(), Error>)
    ensures
        r is Ok <==> regions_text_valid(source@, regions@),
        r is Err ==> r == Err::<(), Error>(Error::Decode),
{
    let mut k: usize = 0;
    while k < regions.len()
        invariant
            k <= regions@.len(),
            forall|j: int| 0 <= j < k ==> region_text_valid(source@, #[trigger] regions@[j]),
        decreases regions@.len() - k,
    {
        let rg = regions[k];
        if rg.start_byte > rg.end_byte || rg.end_byte > source.len() {
            proof {
                assert(!region_text_valid(source@, regions@[k as int]));
            }
            return Err(Error::Decode);
        }
        let piece = vstd::slice::slice_subrange(source.as_slice(), rg.start_byte, rg.end_byte);
        if !is_valid_text(piece) {
            proof {
                assert(!region_text_valid(source@, regions@[k as int]));
            }
            return Err(Error::Decode);
        }
        k = k + 1;
    }
    Ok(())
}

/// A markup category as the caller configures it: a tag name, a kind,
/// and a compiled query selecting its ranges.
#[derive(Debug)]
pub struct MarkupCategory {
    pub tag: Vec<u8>,
    pub kind: MarkupKind,
    pub query: tree_sitter::Query,
}

/// Resolves every category's query against one tree.  Each resolved
/// category keeps its tag and kind; which ranges its query captured is
/// the provider's answer.
pub fn resolve_categories(
    cats: &Vec<MarkupCategory>,
    tree: &tree_sitter::Tree,
    source: &Vec<u8>,
) -> (r: Vec<ResolvedCategory>)
    ensures
        r@.len() == cats@.len(),
        forall|k: int|
            0 <= k < cats@.len() ==> {
                &&& (#[trigger] r.deep_view()[k]).tag == cats@[k].tag@
                &&& r.deep_view()[k].kind == cats@[k].kind
            },
{
    let mut resolved: Vec<ResolvedCategory> = Vec::new();
    let mut k: usize = 0;
    while k < cats.len()
        invariant
            k <= cats@.len(),
            resolved@.len() == k,
            forall|x: int|
                0 <= x < k ==> {
                    &&& (#[trigger] resolved.deep_view()[x]).tag == cats@[x].tag@
                    &&& resolved.deep_view()[x].kind == cats@[x].kind
                },
        decreases cats@.len() - k,
    {
        let c = &cats[k];
        let raw = run_query(&c.query, tree, source.as_slice());
        let regions = regions_from_raw(&raw);
        let mut tag: Vec<u8> = Vec::new();
        crate::substitute::append_bytes(&mut tag, c.tag.as_slice());
        let ghost res_pre = resolved.deep_view();
        let ghost newv = CategoryV { tag: tag@, kind: c.kind, regions: regions@ };
        resolved.push(ResolvedCategory { tag, kind: c.kind, regions });
        proof {
            assert(resolved.deep_view() =~= res_pre.push(newv));
        }
        k = k + 1;
    }
    resolved
}

/// The resolved categories carry the configured tags and kinds,
/// category for category.
pub open spec fn tags_kinds_match(rs: Seq<CategoryV>, cats: Seq<MarkupCategory>) -> bool {
    &&& rs.len() == cats.len()
    &&& forall|k: int|
        0 <= k < rs.len() ==> ((#[trigger] rs[k]).tag == cats[k].tag@ && rs[k].kind
            == cats[k].kind)
}

/// Annotates one source: parses it, resolves every category's query
/// against the same tree, checks that every captured range denotes
/// valid text, and merges the resolved ranges into the annotated byte
/// stream.  The output is the annotation of the source under some
/// resolution of the configured categories, in the fixed priority
/// order; every failure is one of the typed errors, the decode error
/// exactly when a captured range is not valid text.
pub fn markup_source(
    language: &tree_sitter::Language,
    cats: &Vec<MarkupCategory>,
    source: &Vec<u8>,
    parser: &mut tree_sitter::Parser,
) -> (r: Result<Vec<u8>, Error>)
    ensures
        r is Err ==> (r == Err::<Vec<u8>, Error>(Error::Compile) || r == Err::<Vec<u8>, Error>(
            Error::Parse,
        ) || r == Err::<Vec<u8>, Error>(Error::Decode)),
        (cats@.len() == 0 && r is Ok) ==> r->Ok_0@ == source@,
        r matches Ok(out) ==> exists|rs: Seq<CategoryV>|
            {
                &&& tags_kinds_match(rs, cats@)
                &&& forall|k: int|
                    0 <= k < rs.len() ==> regions_text_valid(source@, (#[trigger] rs[k]).regions)
                &&& out@ == annotated(source@, sort_cats(rs))
            },
{
    match parser_set_language(parser, language) {
        Ok(_) => (),
        Err(_) => {
            return Err(Error::Compile);
        },
    }
    let tree = match parser_parse(parser, source.as_slice()) {
        Some(t) => t,
        None => {
            return Err(Error::Parse);
        },
    };
    let resolved = resolve_categories(cats, &tree, source);
    let mut k: usize = 0;
    while k < resolved.len()
        invariant
            k <= resolved@.len(),
            forall|j: int|
                0 <= j < k ==> regions_text_valid(
                    source@,
                    (#[trigger] resolved.deep_view()[j]).regions,
                ),
        decreases resolved@.len() - k,
    {
        proof {
            assert(resolved.deep_view()[k as int] == resolved@[k as int].deep_view());
        }
        match validate_regions(source, &resolved[k].regions) {
            Ok(_) => (),
            Err(e) => {
                return Err(e);
            },
        }
        k = k + 1;
    }
    let out = annotate(source, &resolved);
    proof {
        let rs = resolved.deep_view();
        assert(tags_kinds_match(rs, cats@));
        assert(out@ == annotated(source@, sort_cats(rs)));
        if cats@.len() == 0 {
            assert(rs =~= Seq::<CategoryV>::empty());
            lemma_empty_annotation(source@);
        }
    }
    Ok(out)
}

/// Strips one delete-category's ranges out of a source: parses it,
/// runs the query — for comment removal, one capturing every comment
/// node — checks that every captured range denotes valid text, and
/// copies the source minus exactly the captured ranges.  A captured
/// range that is not valid text aborts the whole call with the decode
/// error; no partial result is produced.
pub fn remove_comment(
    language: &tree_sitter::Language,
    query: &tree_sitter::Query,
    source: &Vec<u8>,
    parser: &mut tree_sitter::Parser,
) -> (r: Result<Vec<u8>, Error>)
    ensures
        r is Err ==> (r == Err::<Vec<u8>, Error>(Error::Compile) || r == Err::<Vec<u8>, Error>(
            Error::Parse,
        ) || r == Err::<Vec<u8>, Error>(Error::Decode)),
        r matches Ok(out) ==> exists|regions: Seq<ExtractedComment>|
            {
                &&& regions_text_valid(source@, regions)
                &&& out@ == drop_deleted(source@, regions, 0)
            },
{
    match parser_set_language(parser, language) {
        Ok(_) => (),
        Err(_) => {
            return Err(Error::Compile);
        },
    }
    let tree = match parser_parse(parser, source.as_slice()) {
        Some(t) => t,
        None => {
            return Err(Error::Parse);
        },
    };
    let raw = run_query(query, &tree, source.as_slice());
    let regions = regions_from_raw(&raw);
    match validate_regions(source, &regions) {
        Ok(_) => (),
        Err(e) => {
            return Err(e);
        },
    }
    let out = elide_regions(source, &regions);
    proof {
        assert(regions_text_valid(source@, regions@) && out@ == drop_deleted(
            source@,
            regions@,
            0,
        ));
    }
    Ok(out)
}

} // verus!
