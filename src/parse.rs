use vstd::prelude::*;

use crate::attributes::{attributes_of, extract_attributes};
use crate::lex::{tokens_view, Token, TokenView};
use crate::node::{children_view, shape_for, shape_of, ChildrenType, Node, NodeView};
use crate::tag::{Tag, TagView};
use std::collections::VecDeque;

verus! {

/// Failure of the tree builder.
#[derive(Debug, PartialEq, Eq)]
pub enum ParserError {
    /// A closing tag that no open element can own, or an element whose
    /// closing tag lies past the end of its parent.
    MalformedHTML,
    /// An opening tag without a matching closing tag.
    UnmatchedTag(String),
    /// An internal precondition failed.
    InternalError(String),
}

/// The mathematical value of a [`ParserError`].
pub enum ParseFault {
    MalformedHTML,
    UnmatchedTag(Seq<char>),
    InternalError,
}

impl View for ParserError {
    type V = ParseFault;

    open spec fn view(&self) -> ParseFault {
        match self {
            ParserError::MalformedHTML => ParseFault::MalformedHTML,
            ParserError::UnmatchedTag(n) => ParseFault::UnmatchedTag(n@),
            ParserError::InternalError(_) => ParseFault::InternalError,
        }
    }
}

/// Scans forward from `k` for the `Close(name)` that ends an element named
/// `name`, where `depth` counts the elements of that same name opened since.
pub open spec fn scan_close(toks: Seq<TokenView>, name: Seq<char>, k: int, depth: nat) -> Option<int>
    decreases toks.len() - k,
{
    if k < 0 || k >= toks.len() {
        None
    } else {
        match toks[k] {
            TokenView::Open(m, _) => if m == name {
                scan_close(toks, name, k + 1, depth + 1)
            } else {
                scan_close(toks, name, k + 1, depth)
            },
            TokenView::Close(m) => if m == name {
                if depth == 0 {
                    Some(k)
                } else {
                    scan_close(toks, name, k + 1, (depth - 1) as nat)
                }
            } else {
                scan_close(toks, name, k + 1, depth)
            },
            _ => scan_close(toks, name, k + 1, depth),
        }
    }
}

/// Where the element that starts at `i` ends: itself for a self-closing tag,
/// the matching close for an opening tag.
pub open spec fn closing_of(toks: Seq<TokenView>, i: int) -> Result<int, ParseFault> {
    match toks[i] {
        TokenView::SelfClose(_, _) => Ok(i),
        TokenView::Open(n, _) => match scan_close(toks, n, i + 1, 0) {
            Some(j) => Ok(j),
            None => Err(ParseFault::UnmatchedTag(n)),
        },
        _ => Err(ParseFault::InternalError),
    }
}

/// The view of an index result.
pub open spec fn index_result(r: Result<usize, ParserError>) -> Result<int, ParseFault> {
    match r {
        Ok(j) => Ok(j as int),
        Err(e) => Err(e@),
    }
}

/// Finds the index of the token that closes the element starting at `id`,
/// respecting nested elements of the same name.
pub fn find_closing(tokens: &Vec<Token>, id: usize) -> (r: Result<usize, ParserError>)
    requires
        id < tokens@.len(),
    ensures
        index_result(r) == closing_of(tokens_view(tokens@), id as int),
{
    let ghost toks = tokens_view(tokens@);
    assert(toks[id as int] == tokens@[id as int]@);
    match &tokens[id] {
        Token::SelfClose(_, _) => Ok(id),
        Token::Open(open, _) => {
            let mut nested: usize = 0;
            let len: usize = tokens.len();
            let mut idx: usize = id + 1;
            while idx < len
                invariant
                    toks == tokens_view(tokens@),
                    len == tokens@.len(),
                    id < idx <= len,
                    nested <= idx,
                    toks[id as int] matches TokenView::Open(n, _) && n == open@,
                    scan_close(toks, open@, id + 1, 0) == scan_close(toks, open@, idx as int, nested as nat),
                decreases tokens@.len() - idx,
            {
                assert(toks[idx as int] == tokens@[idx as int]@);
                match &tokens[idx] {
                    Token::Open(tag, _) => {
                        if tag.eq(open) {
                            nested = nested + 1;
                        }
                    },
                    Token::Close(tag) => {
                        if tag.eq(open) {
                            if nested == 0 {
                                return Ok(idx);
                            } else {
                                nested = nested - 1;
                            }
                        }
                    },
                    _ => {},
                }
                idx = idx + 1;
            }
            Err(ParserError::UnmatchedTag(open.clone()))
        },
        _ => Err(ParserError::InternalError(String::from_str("expected an opening token"))),
    }
}

proof fn lemma_scan_close_after(toks: Seq<TokenView>, name: Seq<char>, k: int, depth: nat)
    requires
        scan_close(toks, name, k, depth) is Some,
    ensures
        k <= scan_close(toks, name, k, depth)->Some_0 < toks.len(),
    decreases toks.len() - k,
{
    if 0 <= k < toks.len() {
        match toks[k] {
            TokenView::Open(m, _) => if m == name {
                lemma_scan_close_after(toks, name, k + 1, depth + 1);
            } else {
                lemma_scan_close_after(toks, name, k + 1, depth);
            },
            TokenView::Close(m) => if m == name && depth > 0 {
                lemma_scan_close_after(toks, name, k + 1, (depth - 1) as nat);
            } else if m != name {
                lemma_scan_close_after(toks, name, k + 1, depth);
            },
            _ => lemma_scan_close_after(toks, name, k + 1, depth),
        }
    }
}

/// An element's closing index is never before its start.
pub proof fn lemma_closing_after(toks: Seq<TokenView>, i: int)
    requires
        0 <= i < toks.len(),
        closing_of(toks, i) is Ok,
    ensures
        i <= closing_of(toks, i)->Ok_0 < toks.len(),
        toks[i] is Open ==> i < closing_of(toks, i)->Ok_0,
        toks[i] is Open || toks[i] is SelfClose,
{
    if let TokenView::Open(n, _) = toks[i] {
        lemma_scan_close_after(toks, n, i + 1, 0);
    }
}

/// `x` in front of the sequence that `r` holds, if it holds one.
pub open spec fn cons_span(x: (int, int), r: Result<Seq<(int, int)>, ParseFault>) -> Result<
    Seq<(int, int)>,
    ParseFault,
> {
    match r {
        Ok(s) => Ok(seq![x] + s),
        Err(f) => Err(f),
    }
}

/// The spans of the elements that stand directly in the tokens `k..e`, in
/// document order: text is passed over, a nested element is passed over as a
/// whole, and a close that no element there owns, or an element that closes
/// at or past `e`, is malformed.
pub open spec fn scan_children(toks: Seq<TokenView>, k: int, e: int) -> Result<
    Seq<(int, int)>,
    ParseFault,
>
    decreases e - k,
{
    if k < 0 || k >= e || e > toks.len() {
        Ok(Seq::empty())
    } else {
        match toks[k] {
            TokenView::Inner(_) => scan_children(toks, k + 1, e),
            TokenView::Close(_) => Err(ParseFault::MalformedHTML),
            TokenView::SelfClose(_, _) => cons_span((k, k), scan_children(toks, k + 1, e)),
            TokenView::Open(_, _) => match closing_of(toks, k) {
                Err(f) => Err(f),
                Ok(c) => if c <= k || c >= e {
                    Err(ParseFault::MalformedHTML)
                } else {
                    cons_span((k, c), scan_children(toks, c + 1, e))
                },
            },
        }
    }
}

/// A fault of the direct-children scan is an unmatched tag or malformed
/// markup, never an internal one.
pub proof fn lemma_scan_fault(toks: Seq<TokenView>, k: int, e: int)
    requires
        scan_children(toks, k, e) is Err,
    ensures
        scan_children(toks, k, e)->Err_0 is UnmatchedTag || scan_children(toks, k, e)->Err_0 is MalformedHTML,
    decreases e - k,
{
    if 0 <= k < e && e <= toks.len() {
        match toks[k] {
            TokenView::Inner(_) => lemma_scan_fault(toks, k + 1, e),
            TokenView::SelfClose(_, _) => lemma_scan_fault(toks, k + 1, e),
            TokenView::Open(_, _) => match closing_of(toks, k) {
                Ok(c) => if k < c < e {
                    lemma_scan_fault(toks, c + 1, e);
                },
                Err(_) => {},
            },
            _ => {},
        }
    }
}

/// The spans held in a vector, as integers.
pub open spec fn spans_view(v: Seq<(usize, usize)>) -> Seq<(int, int)> {
    v.map_values(|x: (usize, usize)| (x.0 as int, x.1 as int))
}

/// `a` in front of the sequence that `r` holds, if it holds one.
pub open spec fn prefix_spans(a: Seq<(int, int)>, r: Result<Seq<(int, int)>, ParseFault>) -> Result<
    Seq<(int, int)>,
    ParseFault,
> {
    match r {
        Ok(s) => Ok(a + s),
        Err(f) => Err(f),
    }
}

/// The view of a span list result.
pub open spec fn spans_result(r: Result<Vec<(usize, usize)>, ParserError>) -> Result<
    Seq<(int, int)>,
    ParseFault,
> {
    match r {
        Ok(v) => Ok(spans_view(v@)),
        Err(e) => Err(e@),
    }
}

/// The spans of the direct children of the element that spans `start..=end`.
fn direct_children(tokens: &Vec<Token>, start: usize, end: usize) -> (r: Result<
    Vec<(usize, usize)>,
    ParserError,
>)
    requires
        start <= end < tokens@.len(),
    ensures
        spans_result(r) == scan_children(tokens_view(tokens@), start + 1, end as int),
{
    let ghost toks = tokens_view(tokens@);
    let mut kids: Vec<(usize, usize)> = Vec::new();
    let len: usize = tokens.len();
    assert(end < len);
    let mut k: usize = start + 1;
    assert(spans_view(kids@) =~= Seq::<(int, int)>::empty());
    while k < end
        invariant
            toks == tokens_view(tokens@),
            start < k <= end + 1,
            end < tokens@.len(),
            scan_children(toks, start + 1, end as int) == prefix_spans(
                spans_view(kids@),
                scan_children(toks, k as int, end as int),
            ),
        decreases end - k,
    {
        assert(toks[k as int] == tokens@[k as int]@);
        match &tokens[k] {
            Token::Inner(_) => {
                k = k + 1;
            },
            Token::Close(_) => {
                return Err(ParserError::MalformedHTML);
            },
            Token::SelfClose(_, _) => {
                let ghost before = spans_view(kids@);
                kids.push((k, k));
                assert(spans_view(kids@) =~= before + seq![(k as int, k as int)]);
                assert(before + seq![(k as int, k as int)] + scan_children(toks, k + 1, end as int)->Ok_0
                    =~= before + (seq![(k as int, k as int)] + scan_children(toks, k + 1, end as int)->Ok_0));
                k = k + 1;
            },
            Token::Open(_, _) => {
                let c = match find_closing(tokens, k) {
                    Ok(c) => c,
                    Err(f) => {
                        return Err(f);
                    },
                };
                proof {
                    lemma_closing_after(toks, k as int);
                }
                if c >= end {
                    return Err(ParserError::MalformedHTML);
                }
                let ghost before = spans_view(kids@);
                kids.push((k, c));
                assert(spans_view(kids@) =~= before + seq![(k as int, c as int)]);
                assert(before + seq![(k as int, c as int)] + scan_children(toks, c + 1, end as int)->Ok_0
                    =~= before + (seq![(k as int, c as int)] + scan_children(toks, c + 1, end as int)->Ok_0));
                k = c + 1;
            },
        }
    }
    assert(spans_view(kids@) + Seq::<(int, int)>::empty() =~= spans_view(kids@));
    Ok(kids)
}

/// The text right after the opening token of the element that spans `s..=e`,
/// if the token there is text inside the element.
pub open spec fn inner_of(toks: Seq<TokenView>, s: int, e: int) -> Option<Seq<char>> {
    if e > s && toks[s + 1] is Inner {
        Some(toks[s + 1]->Inner_0)
    } else {
        None
    }
}

/// The tag made from an opening or self-closing token and the text after it;
/// none for another token.
pub open spec fn tag_with(t: TokenView, inner: Option<Seq<char>>) -> Option<TagView> {
    match t {
        TokenView::Open(n, a) => Some(TagView { element: n, inner, attributes: attributes_of(a) }),
        TokenView::SelfClose(n, a) => Some(
            TagView { element: n, inner, attributes: attributes_of(a) },
        ),
        _ => None,
    }
}

/// The tag of the element that spans `s..=e`.
pub open spec fn tag_of(toks: Seq<TokenView>, s: int, e: int) -> TagView {
    match tag_with(toks[s], inner_of(toks, s, e)) {
        Some(t) => t,
        None => TagView { element: Seq::empty(), inner: None, attributes: None },
    }
}

/// The tree of the element that spans `s..=e`.
pub open spec fn tree_at(toks: Seq<TokenView>, s: int, e: int) -> Result<NodeView, ParseFault>
    decreases e - s + 1, 1int,
{
    if s < 0 || e < s || e >= toks.len() {
        Err(ParseFault::InternalError)
    } else {
        match scan_children(toks, s + 1, e) {
            Err(f) => Err(f),
            Ok(kids) => match forest(toks, kids, s, e) {
                Err(f) => Err(f),
                Ok(children) => Ok(
                    NodeView { tag: tag_of(toks, s, e), shape: shape_for(children.len()), children },
                ),
            },
        }
    }
}

/// The trees of the spans `kids`, which lie inside `s..=e`.
pub open spec fn forest(toks: Seq<TokenView>, kids: Seq<(int, int)>, s: int, e: int) -> Result<
    Seq<NodeView>,
    ParseFault,
>
    decreases e - s, kids.len(),
{
    if kids.len() == 0 {
        Ok(Seq::empty())
    } else {
        let c = kids[0].0;
        let ec = kids[0].1;
        if s < c && c <= ec && ec < e {
            match tree_at(toks, c, ec) {
                Err(f) => Err(f),
                Ok(n) => match forest(toks, kids.drop_first(), s, e) {
                    Err(f) => Err(f),
                    Ok(rest) => Ok(seq![n] + rest),
                },
            }
        } else {
            Err(ParseFault::InternalError)
        }
    }
}

/// The document tree of a token sequence: none for no tokens, else the tree
/// of the element that the first token opens.
pub open spec fn tree_of(toks: Seq<TokenView>) -> Result<Option<NodeView>, ParseFault> {
    if toks.len() == 0 {
        Ok(None)
    } else {
        match closing_of(toks, 0) {
            Err(f) => Err(f),
            Ok(c) => match tree_at(toks, 0, c) {
                Ok(n) => Ok(Some(n)),
                Err(f) => Err(f),
            },
        }
    }
}

/// A span whose end is where its start's element closes.
pub open spec fn span_ok(toks: Seq<TokenView>, sp: (int, int)) -> bool {
    0 <= sp.0 < toks.len() && closing_of(toks, sp.0) == Ok::<int, ParseFault>(sp.1)
}

/// The spans of the direct children of a span.
#[verifier::opaque]
pub open spec fn kids_of(toks: Seq<TokenView>, sp: (int, int)) -> Seq<(int, int)> {
    match scan_children(toks, sp.0 + 1, sp.1) {
        Ok(k) => k,
        Err(_) => Seq::empty(),
    }
}

/// Where in a breadth-first queue the children of its `i`-th span begin: one
/// past the root, plus the children of the spans before it.
pub open spec fn block(toks: Seq<TokenView>, q: Seq<(int, int)>, i: int) -> int
    decreases i,
{
    if i <= 0 {
        1
    } else {
        block(toks, q, i - 1) + kids_of(toks, q[i - 1]).len()
    }
}

/// `q` lists, from the root span at `start`, every span of the tree in
/// breadth-first order: the root, then the children of each span in turn,
/// each span's children together and in document order, each after its parent.
pub open spec fn bfs_layout(toks: Seq<TokenView>, q: Seq<(int, int)>, start: int) -> bool {
    &&& q.len() > 0
    &&& q[0] == (start, closing_of(toks, start)->Ok_0)
    &&& forall|i: int| 0 <= i < q.len() ==> #[trigger] span_ok(toks, q[i])
    &&& forall|i: int|
        0 <= i < q.len() ==> (#[trigger] scan_children(toks, q[i].0 + 1, q[i].1)) is Ok
    &&& forall|i: int|
        0 <= i < q.len() ==> i < #[trigger] block(toks, q, i) && q.subrange(
            block(toks, q, i),
            block(toks, q, i + 1),
        ) == kids_of(toks, q[i])
    &&& block(toks, q, q.len() as int) == q.len()
}

/// The total length of the spans in `q`.
pub open spec fn work(q: Seq<(int, int)>) -> int
    decreases q.len(),
{
    if q.len() == 0 {
        0
    } else {
        (q[0].1 - q[0].0 + 1) + work(q.drop_first())
    }
}

proof fn lemma_work_concat(a: Seq<(int, int)>, b: Seq<(int, int)>)
    ensures
        work(a + b) == work(a) + work(b),
    decreases a.len(),
{
    if a.len() > 0 {
        assert((a + b).drop_first() =~= a.drop_first() + b);
        lemma_work_concat(a.drop_first(), b);
    } else {
        assert(a + b =~= b);
    }
}

proof fn lemma_work_nonneg(toks: Seq<TokenView>, q: Seq<(int, int)>)
    requires
        forall|i: int| 0 <= i < q.len() ==> #[trigger] span_ok(toks, q[i]),
    ensures
        work(q) >= 0,
    decreases q.len(),
{
    if q.len() > 0 {
        assert(span_ok(toks, q[0]));
        lemma_closing_after(toks, q[0].0);
        assert forall|i: int| 0 <= i < q.drop_first().len() implies #[trigger] span_ok(
            toks,
            q.drop_first()[i],
        ) by {
            assert(span_ok(toks, q[i + 1]));
        }
        lemma_work_nonneg(toks, q.drop_first());
    }
}

/// Each direct child span is well formed and lies in `k..e`, and together they
/// are no longer than that range.
proof fn lemma_children_bounds(toks: Seq<TokenView>, k: int, e: int)
    requires
        0 <= k,
        e <= toks.len(),
        scan_children(toks, k, e) is Ok,
    ensures
        forall|i: int|
            0 <= i < scan_children(toks, k, e)->Ok_0.len() ==> k <= (
            #[trigger] scan_children(toks, k, e)->Ok_0[i]).0 <= scan_children(toks, k, e)->Ok_0[i].1
                < e && span_ok(toks, scan_children(toks, k, e)->Ok_0[i]),
        scan_children(toks, k, e)->Ok_0.len() == 0 || work(scan_children(toks, k, e)->Ok_0) <= e - k,
    decreases e - k,
{
    if k < e {
        let kids = scan_children(toks, k, e)->Ok_0;
        match toks[k] {
            TokenView::Inner(_) => {
                lemma_children_bounds(toks, k + 1, e);
            },
            TokenView::SelfClose(_, _) => {
                lemma_children_bounds(toks, k + 1, e);
                let rest = scan_children(toks, k + 1, e)->Ok_0;
                assert(kids == seq![(k, k)] + rest);
                assert(kids.drop_first() =~= rest);
                assert(work(kids) == 1 + work(rest));
                if rest.len() == 0 {
                    assert(work(rest) == 0);
                }
                assert(span_ok(toks, (k, k)));
                assert forall|i: int| 0 <= i < kids.len() implies k <= (#[trigger] kids[i]).0
                    <= kids[i].1 < e && span_ok(toks, kids[i]) by {
                    if i > 0 {
                        assert(kids[i] == rest[i - 1]);
                    }
                }
            },
            TokenView::Open(_, _) => {
                let c = closing_of(toks, k)->Ok_0;
                lemma_closing_after(toks, k);
                lemma_children_bounds(toks, c + 1, e);
                let rest = scan_children(toks, c + 1, e)->Ok_0;
                assert(kids == seq![(k, c)] + rest);
                assert(kids.drop_first() =~= rest);
                assert(work(kids) == (c - k + 1) + work(rest));
                if rest.len() == 0 {
                    assert(work(rest) == 0);
                }
                assert(span_ok(toks, (k, c)));
                assert forall|i: int| 0 <= i < kids.len() implies k <= (#[trigger] kids[i]).0
                    <= kids[i].1 < e && span_ok(toks, kids[i]) by {
                    if i > 0 {
                        assert(kids[i] == rest[i - 1]);
                    }
                }
            },
            _ => {},
        }
    }
}

proof fn lemma_forest_each(toks: Seq<TokenView>, kids: Seq<(int, int)>, s: int, e: int)
    requires
        forest(toks, kids, s, e) is Ok,
    ensures
        forall|i: int|
            0 <= i < kids.len() ==> (#[trigger] tree_at(toks, kids[i].0, kids[i].1)) is Ok,
    decreases kids.len(),
{
    if kids.len() > 0 {
        lemma_forest_each(toks, kids.drop_first(), s, e);
        assert forall|i: int| 0 <= i < kids.len() implies (#[trigger] tree_at(
            toks,
            kids[i].0,
            kids[i].1,
        )) is Ok by {
            if i > 0 {
                assert(kids[i] == kids.drop_first()[i - 1]);
            }
        }
    }
}

proof fn lemma_forest_seq(toks: Seq<TokenView>, kids: Seq<(int, int)>, s: int, e: int)
    requires
        forall|i: int|
            0 <= i < kids.len() ==> s < (#[trigger] kids[i]).0 <= kids[i].1 < e && tree_at(
                toks,
                kids[i].0,
                kids[i].1,
            ) is Ok,
    ensures
        forest(toks, kids, s, e) == Ok::<Seq<NodeView>, ParseFault>(
            Seq::new(kids.len(), |i: int| tree_at(toks, kids[i].0, kids[i].1)->Ok_0),
        ),
    decreases kids.len(),
{
    if kids.len() == 0 {
        assert(Seq::new(kids.len(), |i: int| tree_at(toks, kids[i].0, kids[i].1)->Ok_0)
            =~= Seq::<NodeView>::empty());
    } else {
        let rest = kids.drop_first();
        assert forall|i: int| 0 <= i < rest.len() implies s < (#[trigger] rest[i]).0 <= rest[i].1
            < e && tree_at(toks, rest[i].0, rest[i].1) is Ok by {
            assert(rest[i] == kids[i + 1]);
        }
        lemma_forest_seq(toks, rest, s, e);
        assert(kids[0] == kids[0]);
        assert(Seq::new(kids.len(), |i: int| tree_at(toks, kids[i].0, kids[i].1)->Ok_0) =~= seq![
            tree_at(toks, kids[0].0, kids[0].1)->Ok_0,
        ] + Seq::new(rest.len(), |i: int| tree_at(toks, rest[i].0, rest[i].1)->Ok_0));
    }
}

proof fn lemma_block_prefix(toks: Seq<TokenView>, a: Seq<(int, int)>, b: Seq<(int, int)>, i: int)
    requires
        0 <= i <= a.len(),
        i <= b.len(),
        a.subrange(0, i) == b.subrange(0, i),
    ensures
        block(toks, a, i) == block(toks, b, i),
    decreases i,
{
    if i > 0 {
        assert(a.subrange(0, i - 1) =~= b.subrange(0, i - 1)) by {
            assert(a.subrange(0, i - 1) =~= a.subrange(0, i).subrange(0, i - 1));
            assert(b.subrange(0, i - 1) =~= b.subrange(0, i).subrange(0, i - 1));
        }
        assert(a[i - 1] == a.subrange(0, i)[i - 1]);
        assert(b[i - 1] == b.subrange(0, i)[i - 1]);
        lemma_block_prefix(toks, a, b, i - 1);
    }
}

proof fn lemma_block_mono(toks: Seq<TokenView>, q: Seq<(int, int)>, i: int, j: int)
    requires
        0 <= i <= j,
    ensures
        block(toks, q, i) <= block(toks, q, j),
    decreases j - i,
{
    if i < j {
        lemma_block_mono(toks, q, i, j - 1);
    }
}

/// What holds of the breadth-first queue `q` once its first `head` spans have
/// had their children appended.
pub open spec fn queue_inv(toks: Seq<TokenView>, q: Seq<(int, int)>, head: int, start: int, end: int) -> bool {
    &&& q.len() >= 1
    &&& q[0] == (start, end)
    &&& 0 <= head <= q.len()
    &&& forall|i: int| 0 <= i < q.len() ==> #[trigger] span_ok(toks, q[i])
    &&& forall|i: int|
        0 <= i < head ==> (#[trigger] scan_children(toks, q[i].0 + 1, q[i].1)) is Ok
    &&& forall|i: int|
        0 <= i < head ==> i < #[trigger] block(toks, q, i) && q.subrange(
            block(toks, q, i),
            block(toks, q, i + 1),
        ) == kids_of(toks, q[i])
    &&& block(toks, q, head) == q.len()
    &&& tree_at(toks, start, end) is Ok ==> forall|i: int|
        0 <= i < q.len() ==> (#[trigger] tree_at(toks, q[i].0, q[i].1)) is Ok
}

proof fn lemma_queue_step(
    toks: Seq<TokenView>,
    q0: Seq<(int, int)>,
    kv: Seq<(int, int)>,
    head: int,
    start: int,
    end: int,
)
    requires
        queue_inv(toks, q0, head, start, end),
        head < q0.len(),
        scan_children(toks, q0[head].0 + 1, q0[head].1) == Ok::<Seq<(int, int)>, ParseFault>(kv),
    ensures
        queue_inv(toks, q0 + kv, head + 1, start, end),
        0 <= work((q0 + kv).subrange(head + 1, (q0 + kv).len() as int)) < work(
            q0.subrange(head, q0.len() as int),
        ),
{
    reveal(kids_of);
    let q1 = q0 + kv;
    let s = q0[head].0;
    let e = q0[head].1;
    assert(span_ok(toks, q0[head]));
    lemma_closing_after(toks, s);
    lemma_children_bounds(toks, s + 1, e);
    lemma_work_concat(seq![q0[head]], q0.subrange(head + 1, q0.len() as int));
    assert(q0.subrange(head, q0.len() as int) =~= seq![q0[head]] + q0.subrange(
        head + 1,
        q0.len() as int,
    ));
    assert(work(seq![q0[head]]) == e - s + 1) by {
        assert(seq![q0[head]].drop_first() =~= Seq::<(int, int)>::empty());
        assert(work(Seq::<(int, int)>::empty()) == 0);
    }
    if kv.len() == 0 {
        assert(work(kv) == 0);
    }
    assert(q1.subrange(head + 1, q1.len() as int) =~= q0.subrange(head + 1, q0.len() as int) + kv);
    lemma_work_concat(q0.subrange(head + 1, q0.len() as int), kv);
    assert(q0.subrange(0, head + 1) =~= q1.subrange(0, head + 1));
    assert(q0.subrange(0, head) =~= q1.subrange(0, head));
    lemma_block_prefix(toks, q0, q1, head + 1);
    lemma_block_prefix(toks, q0, q1, head);
    assert forall|i: int| 0 <= i < q1.len() implies #[trigger] span_ok(toks, q1[i]) by {
        if i < q0.len() {
            assert(q1[i] == q0[i]);
            assert(span_ok(toks, q0[i]));
        } else {
            assert(q1[i] == kv[i - q0.len()]);
        }
    }
    assert forall|i: int| 0 <= i < head + 1 implies (#[trigger] scan_children(
        toks,
        q1[i].0 + 1,
        q1[i].1,
    )) is Ok by {
        assert(q1[i] == q0[i]);
        if i < head {
            assert(scan_children(toks, q0[i].0 + 1, q0[i].1) is Ok);
        }
    }
    assert forall|i: int| 0 <= i < head + 1 implies i < #[trigger] block(toks, q1, i)
        && q1.subrange(block(toks, q1, i), block(toks, q1, i + 1)) == kids_of(toks, q1[i]) by {
        assert(q1[i] == q0[i]);
        assert(q0.subrange(0, i + 1) =~= q1.subrange(0, i + 1));
        assert(q0.subrange(0, i) =~= q1.subrange(0, i));
        lemma_block_prefix(toks, q0, q1, i + 1);
        lemma_block_prefix(toks, q0, q1, i);
        if i < head {
            assert(i < block(toks, q0, i));
            lemma_block_mono(toks, q0, i + 1, head);
            assert(q1.subrange(block(toks, q0, i), block(toks, q0, i + 1)) =~= q0.subrange(
                block(toks, q0, i),
                block(toks, q0, i + 1),
            ));
        } else {
            assert(q1.subrange(block(toks, q1, i), block(toks, q1, i + 1)) =~= kv);
        }
    }
    if tree_at(toks, start, end) is Ok {
        assert(tree_at(toks, q0[head].0, q0[head].1) is Ok);
        lemma_forest_each(toks, kv, s, e);
        assert forall|i: int| 0 <= i < q1.len() implies (#[trigger] tree_at(
            toks,
            q1[i].0,
            q1[i].1,
        )) is Ok by {
            if i < q0.len() {
                assert(q1[i] == q0[i]);
                assert(tree_at(toks, q0[i].0, q0[i].1) is Ok);
            } else {
                assert(q1[i] == kv[i - q0.len()]);
                assert(tree_at(toks, kv[i - q0.len()].0, kv[i - q0.len()].1) is Ok);
            }
        }
    }
    let tail = q1.subrange(head + 1, q1.len() as int);
    assert forall|i: int| 0 <= i < tail.len() implies #[trigger] span_ok(toks, tail[i]) by {
        assert(tail[i] == q1[head + 1 + i]);
        assert(span_ok(toks, q1[head + 1 + i]));
    }
    lemma_work_nonneg(toks, tail);
}

/// The breadth-first scan from position `head` of the queue `q`, with at most
/// `fuel` more steps: each span in turn has its direct children appended, and
/// the first span whose children cannot be scanned gives its fault.
pub open spec fn bfs_run(toks: Seq<TokenView>, q: Seq<(int, int)>, head: int, fuel: nat) -> Result<
    Seq<(int, int)>,
    ParseFault,
>
    decreases fuel,
{
    if head < 0 || head >= q.len() {
        Ok(q)
    } else if fuel == 0 {
        Err(ParseFault::InternalError)
    } else {
        match scan_children(toks, q[head].0 + 1, q[head].1) {
            Err(f) => Err(f),
            Ok(kv) => bfs_run(toks, q + kv, head + 1, (fuel - 1) as nat),
        }
    }
}

/// The breadth-first queue of the element that starts at `start`, or the
/// first fault met in building it. The root's length bounds the steps.
pub open spec fn plan_of(toks: Seq<TokenView>, start: int) -> Result<Seq<(int, int)>, ParseFault> {
    match closing_of(toks, start) {
        Err(f) => Err(f),
        Ok(c) => bfs_run(toks, seq![(start, c)], 0, (c - start + 1) as nat),
    }
}

proof fn lemma_work_pos(toks: Seq<TokenView>, q: Seq<(int, int)>, head: int)
    requires
        0 <= head < q.len(),
        forall|i: int| 0 <= i < q.len() ==> #[trigger] span_ok(toks, q[i]),
    ensures
        work(q.subrange(head, q.len() as int)) >= 1,
{
    let rest = q.subrange(head, q.len() as int);
    assert(span_ok(toks, q[head]));
    lemma_closing_after(toks, q[head].0);
    assert(rest[0] == q[head]);
    assert forall|i: int| 0 <= i < rest.drop_first().len() implies #[trigger] span_ok(
        toks,
        rest.drop_first()[i],
    ) by {
        assert(rest.drop_first()[i] == q[head + 1 + i]);
    }
    lemma_work_nonneg(toks, rest.drop_first());
}

/// Lists, from the element that starts at `start`, the spans of all its
/// elements in breadth-first order, the root first.
fn breadth_first_queue(tokens: &Vec<Token>, start: usize) -> (r: Result<
    Vec<(usize, usize)>,
    ParserError,
>)
    requires
        start < tokens@.len(),
    ensures
        spans_result(r) == plan_of(tokens_view(tokens@), start as int),
        match r {
            Ok(v) => bfs_layout(tokens_view(tokens@), spans_view(v@), start as int),
            Err(e) => match closing_of(tokens_view(tokens@), start as int) {
                Err(f) => e@ == f,
                Ok(c) => tree_at(tokens_view(tokens@), start as int, c) is Err && (e@ is UnmatchedTag
                    || e@ is MalformedHTML) && exists|sp: (int, int)|
                    span_ok(tokens_view(tokens@), sp) && #[trigger] scan_children(
                        tokens_view(tokens@),
                        sp.0 + 1,
                        sp.1,
                    ) == Err::<Seq<(int, int)>, ParseFault>(e@),
            },
        },
{
    let ghost toks = tokens_view(tokens@);
    let root_end = match find_closing(tokens, start) {
        Ok(c) => c,
        Err(f) => {
            return Err(f);
        },
    };
    proof {
        lemma_closing_after(toks, start as int);
    }
    let mut queue: Vec<(usize, usize)> = Vec::new();
    queue.push((start, root_end));
    let mut head: usize = 0;
    assert(span_ok(toks, spans_view(queue@)[0]));
    assert(block(toks, spans_view(queue@), 0) == 1);
    let ghost fuel: int = root_end - start + 1;
    assert(spans_view(queue@) =~= seq![(start as int, root_end as int)]);
    assert(spans_view(queue@).subrange(0, 1) =~= spans_view(queue@));
    assert(work(spans_view(queue@)) == fuel) by {
        assert(spans_view(queue@).drop_first() =~= Seq::<(int, int)>::empty());
        assert(work(Seq::<(int, int)>::empty()) == 0);
    }
    while head < queue.len()
        invariant
            toks == tokens_view(tokens@),
            closing_of(toks, start as int) == Ok::<int, ParseFault>(root_end as int),
            fuel == root_end - start + 1,
            plan_of(toks, start as int) == bfs_run(
                toks,
                spans_view(queue@),
                head as int,
                (fuel - head) as nat,
            ),
            head + work(spans_view(queue@).subrange(head as int, queue@.len() as int)) <= fuel,
            queue_inv(toks, spans_view(queue@), head as int, start as int, root_end as int),
        decreases work(spans_view(queue@).subrange(head as int, queue@.len() as int)),
    {
        let ghost q0 = spans_view(queue@);
        let (s, e) = queue[head];
        assert(q0[head as int] == (s as int, e as int));
        assert(span_ok(toks, q0[head as int]));
        proof {
            lemma_closing_after(toks, s as int);
            lemma_work_pos(toks, q0, head as int);
        }
        let mut kids = match direct_children(tokens, s, e) {
            Ok(k) => k,
            Err(f) => {
                proof {
                    lemma_scan_fault(toks, s + 1, e as int);
                    assert(scan_children(toks, q0[head as int].0 + 1, q0[head as int].1) == Err::<
                        Seq<(int, int)>,
                        ParseFault,
                    >(f@));
                    if tree_at(toks, start as int, root_end as int) is Ok {
                        assert(tree_at(toks, q0[head as int].0, q0[head as int].1) is Ok);
                    }
                }
                return Err(f);
            },
        };
        let ghost kv = spans_view(kids@);
        proof {
            lemma_queue_step(toks, q0, kv, head as int, start as int, root_end as int);
        }
        queue.append(&mut kids);
        assert(spans_view(queue@) =~= q0 + kv);
        head = head + 1;
    }
    proof {
        reveal(bfs_layout);
    }
    Ok(queue)
}

/// The view of an optional string.
pub open spec fn opt_view(o: Option<String>) -> Option<Seq<char>> {
    match o {
        Some(t) => Some(t@),
        None => None,
    }
}

/// The tag of the element whose opening token is at `id`, with `inner` as its
/// text.
fn make_tag(tokens: &[Token], id: usize, inner: Option<String>) -> (r: Result<Tag, ParserError>)
    requires
        id < tokens@.len(),
    ensures
        match r {
            Ok(t) => tag_with(tokens@[id as int]@, opt_view(inner)) == Some(t@),
            Err(e) => tag_with(tokens@[id as int]@, opt_view(inner)) is None && e@
                == ParseFault::InternalError,
        },
{
    match &tokens[id] {
        Token::Open(tag, rest) => {
            let attributes = extract_attributes(rest);
            Ok(Tag { element: tag.clone(), inner, attributes })
        },
        Token::SelfClose(tag, rest) => {
            let attributes = extract_attributes(rest);
            Ok(Tag { element: tag.clone(), inner, attributes })
        },
        _ => Err(ParserError::InternalError(String::from_str("expected an opening token"))),
    }
}

/// The node of the element whose opening token is at `id`.
fn make_node(tokens: &[Token], id: usize, child: ChildrenType, inner: Option<String>) -> (r: Result<
    Node,
    ParserError,
>)
    requires
        id < tokens@.len(),
    ensures
        match r {
            Ok(n) => tag_with(tokens@[id as int]@, opt_view(inner)) == Some(n.tag@) && n.child
                == child,
            Err(e) => tag_with(tokens@[id as int]@, opt_view(inner)) is None && e@
                == ParseFault::InternalError,
        },
{
    let tag = make_tag(tokens, id, inner)?;
    Ok(Node { tag, child })
}

/// The nodes of a queue, in order, in a vector.
fn into_vec(mut d: VecDeque<Node>) -> (v: Vec<Node>)
    ensures
        v@ == d@,
{
    let ghost d0 = d@;
    let mut v: Vec<Node> = Vec::new();
    while d.len() > 0
        invariant
            v@ + d@ == d0,
        decreases d@.len(),
    {
        match d.pop_front() {
            Some(n) => {
                v.push(n);
                assert(v@ + d@ =~= d0);
            },
            None => {},
        }
    }
    assert(v@ + d@ =~= v@);
    v
}

/// The view of a tree result.
pub open spec fn tree_result(r: Result<Option<Node>, ParserError>) -> Result<Option<NodeView>, ParseFault> {
    match r {
        Ok(Some(n)) => Ok(Some(n@)),
        Ok(None) => Ok(None),
        Err(e) => Err(e@),
    }
}

/// What a builder's result says of the document tree: the tree itself, or,
/// where the tree has an error, the first fault of the breadth-first scan: the
/// very error when the root has no close, else the unmatched tag or malformed
/// markup that the direct-children scan of one element of the document meets.
pub open spec fn builds(toks: Seq<TokenView>, r: Result<Option<Node>, ParserError>) -> bool {
    match r {
        Ok(_) => tree_result(r) == tree_of(toks),
        Err(e) => toks.len() > 0 && plan_of(toks, 0) == Err::<Seq<(int, int)>, ParseFault>(e@)
            && tree_of(toks) is Err && (closing_of(toks, 0) is Err ==> tree_of(toks) == Err::<
            Option<NodeView>,
            ParseFault,
        >(e@)) && (closing_of(toks, 0) is Ok ==> (e@ is UnmatchedTag || e@ is MalformedHTML)
            && exists|sp: (int, int)|
            span_ok(toks, sp) && #[trigger] scan_children(toks, sp.0 + 1, sp.1) == Err::<
                Seq<(int, int)>,
                ParseFault,
            >(e@)),
    }
}

/// Nodes in document order as a node's children, chosen by their count.
fn gather(mut children: Vec<Node>) -> (c: ChildrenType)
    ensures
        shape_of(&c) == shape_for(children@.len()),
        children_view(&c) == Seq::new(
            children@.len(),
            |i: int| children@[i]@,
        ),
{
    let n = children.len();
    if n == 0 {
        assert(Seq::new(children@.len(), |i: int| children@[i]@) =~= Seq::<NodeView>::empty());
        ChildrenType::NoChildren
    } else if n == 1 {
        let ghost v0 = children@;
        match children.pop() {
            Some(only) => {
                assert(Seq::new(v0.len(), |i: int| v0[i]@) =~= seq![only@]);
                ChildrenType::Child(Box::new(only))
            },
            None => ChildrenType::NoChildren,
        }
    } else {
        let c = ChildrenType::Children(children);
        assert(children_view(&c) =~= Seq::new(
            children@.len(),
            |i: int| children@[i]@,
        ));
        c
    }
}

/// The node of the element that spans `s..=e`, given the nodes of its direct
/// children in document order.
fn assemble(tokens: &Vec<Token>, s: usize, e: usize, taken: VecDeque<Node>) -> (r: Result<
    Node,
    ParserError,
>)
    requires
        span_ok(tokens_view(tokens@), (s as int, e as int)),
        scan_children(tokens_view(tokens@), s + 1, e as int) is Ok,
        taken@.len() == scan_children(tokens_view(tokens@), s + 1, e as int)->Ok_0.len(),
        forall|m: int|
            0 <= m < taken@.len() ==> tree_is(
                tokens_view(tokens@),
                scan_children(tokens_view(tokens@), s + 1, e as int)->Ok_0[m],
                (#[trigger] taken@[m])@,
            ),
    ensures
        r is Ok,
        tree_is(tokens_view(tokens@), (s as int, e as int), r->Ok_0@),
{
    reveal(tree_is);
    let ghost toks = tokens_view(tokens@);
    let ghost kv = scan_children(toks, s + 1, e as int)->Ok_0;
    proof {
        lemma_closing_after(toks, s as int);
        lemma_children_bounds(toks, s + 1, e as int);
        assert forall|m: int| 0 <= m < kv.len() implies s < (#[trigger] kv[m]).0 <= kv[m].1 < e
            && tree_at(toks, kv[m].0, kv[m].1) is Ok by {
            assert(tree_at(toks, kv[m].0, kv[m].1) == Ok::<NodeView, ParseFault>(taken@[m]@));
        }
        lemma_forest_seq(toks, kv, s as int, e as int);
    }
    let ghost tv = taken@;
    let children = into_vec(taken);
    let child = gather(children);
    let inner = if e > s {
        match &tokens[s + 1] {
            Token::Inner(t) => Some(t.clone()),
            _ => None,
        }
    } else {
        None
    };
    assert(e > s ==> toks[s + 1] == tokens@[s + 1]@);
    assert(toks[s as int] == tokens@[s as int]@);
    assert(opt_view(inner) == inner_of(toks, s as int, e as int));
    let node = make_node(tokens.as_slice(), s, child, inner)?;
    assert(Seq::new(kv.len(), |i: int| tree_at(toks, kv[i].0, kv[i].1)->Ok_0) =~= node@.children) by {
        assert forall|i: int| 0 <= i < kv.len() implies tree_at(toks, kv[i].0, kv[i].1)->Ok_0
            == node@.children[i] by {
            assert(tree_at(toks, kv[i].0, kv[i].1) == Ok::<NodeView, ParseFault>(tv[i]@));
        }
    }
    Ok(node)
}

/// `n` is the tree of the span `sp`.
#[verifier::opaque]
pub open spec fn tree_is(toks: Seq<TokenView>, sp: (int, int), n: NodeView) -> bool {
    tree_at(toks, sp.0, sp.1) == Ok::<NodeView, ParseFault>(n)
}

/// The views of a list of nodes.
pub open spec fn nodes_view(b: Seq<Node>) -> Seq<NodeView> {
    b.map_values(|n: Node| n@)
}

/// `b` holds the trees of the spans of `q` from position `p` on.
#[verifier::opaque]
pub open spec fn built_ok(toks: Seq<TokenView>, q: Seq<(int, int)>, p: int, b: Seq<NodeView>) -> bool {
    forall|j: int| 0 <= j < b.len() ==> tree_is(toks, q[p + j], #[trigger] b[j])
}

proof fn lemma_layout_at(toks: Seq<TokenView>, q: Seq<(int, int)>, start: int, i: int)
    requires
        bfs_layout(toks, q, start),
        0 <= i < q.len(),
    ensures
        q.len() > 0,
        q[0] == (start, closing_of(toks, start)->Ok_0),
        span_ok(toks, q[i]),
        scan_children(toks, q[i].0 + 1, q[i].1) is Ok,
        i < block(toks, q, i),
        block(toks, q, i + 1) <= q.len(),
        block(toks, q, i + 1) == block(toks, q, i) + kids_of(toks, q[i]).len(),
        q.subrange(block(toks, q, i), block(toks, q, i + 1)) == kids_of(toks, q[i]),
{
    reveal(bfs_layout);
    lemma_block_mono(toks, q, i + 1, q.len() as int);
}

proof fn lemma_built_at(toks: Seq<TokenView>, q: Seq<(int, int)>, p: int, b: Seq<NodeView>, j: int)
    requires
        built_ok(toks, q, p, b),
        0 <= j < b.len(),
    ensures
        tree_is(toks, q[p + j], b[j]),
{
    reveal(built_ok);
}

proof fn lemma_take_children(
    toks: Seq<TokenView>,
    q: Seq<(int, int)>,
    p: int,
    b0: Seq<NodeView>,
    kv: Seq<(int, int)>,
)
    requires
        bfs_layout(toks, q, 0),
        0 <= p < q.len(),
        kv == kids_of(toks, q[p]),
        b0.len() == block(toks, q, p + 1) - (p + 1),
        built_ok(toks, q, p + 1, b0),
    ensures
        span_ok(toks, q[p]),
        scan_children(toks, q[p].0 + 1, q[p].1) == Ok::<Seq<(int, int)>, ParseFault>(kv),
        kv.len() <= b0.len(),
        block(toks, q, p) - p == b0.len() - kv.len() + 1,
        forall|j: int|
            b0.len() - kv.len() <= j < b0.len() ==> tree_is(
                toks,
                kv[j - (b0.len() - kv.len())],
                #[trigger] b0[j],
            ),
{
    lemma_layout_at(toks, q, 0, p);
    assert(scan_children(toks, q[p].0 + 1, q[p].1) == Ok::<Seq<(int, int)>, ParseFault>(kv)) by {
        reveal(kids_of);
    }
    let lo = block(toks, q, p);
    let keep = b0.len() - kv.len();
    assert forall|j: int| keep <= j < b0.len() implies tree_is(
        toks,
        kv[j - keep],
        #[trigger] b0[j],
    ) by {
        let m = j - keep;
        assert(q.subrange(lo, lo + kv.len())[m] == q[lo + m]);
        assert(p + 1 + j == lo + m);
        lemma_built_at(toks, q, p + 1, b0, j);
    }
}

proof fn lemma_put_node(
    toks: Seq<TokenView>,
    q: Seq<(int, int)>,
    p: int,
    b0: Seq<NodeView>,
    keep: int,
    n: NodeView,
)
    requires
        0 <= keep <= b0.len(),
        built_ok(toks, q, p + 1, b0),
        tree_is(toks, q[p], n),
    ensures
        built_ok(toks, q, p, seq![n] + b0.subrange(0, keep)),
{
    reveal(built_ok);
    let b1 = seq![n] + b0.subrange(0, keep);
    assert forall|j: int| 0 <= j < b1.len() implies tree_is(toks, q[p + j], #[trigger] b1[j]) by {
        if j > 0 {
            assert(b1[j] == b0[j - 1]);
            assert(q[p + j] == q[p + 1 + (j - 1)]);
        }
    }
}

/// Builds the tree without recursion: every span of the breadth-first queue
/// is assembled from the last to the first, so that the nodes of a span's
/// children are built, and waiting in `built` in queue order, when the span's
/// own turn comes.
#[verifier::rlimit(40)]
fn make_tree(tokens: Vec<Token>) -> (r: Result<Option<Node>, ParserError>)
    ensures
        builds(tokens_view(tokens@), r),
{
    let ghost toks = tokens_view(tokens@);
    if tokens.len() == 0 {
        return Ok(None);
    }
    let queue = breadth_first_queue(&tokens, 0)?;
    let ghost q = spans_view(queue@);
    let mut built: VecDeque<Node> = VecDeque::new();
    let mut p: usize = queue.len();
    proof {
        reveal(built_ok);
    }
    while p > 0
        invariant
            toks == tokens_view(tokens@),
            q == spans_view(queue@),
            bfs_layout(toks, q, 0),
            p <= q.len(),
            built@.len() == block(toks, q, p as int) - p,
            built_ok(toks, q, p as int, nodes_view(built@)),
        decreases p,
    {
        p = p - 1;
        let (s, e) = queue[p];
        assert(q[p as int] == (s as int, e as int));
        let ghost b0 = nodes_view(built@);
        proof {
            lemma_take_children(toks, q, p as int, b0, kids_of(toks, q[p as int]));
            lemma_closing_after(toks, s as int);
        }
        let nk = match direct_children(&tokens, s, e) {
            Ok(kids) => kids.len(),
            Err(f) => {
                return Err(f);
            },
        };
        let keep = built.len() - nk;
        let taken = built.split_off(keep);
        assert forall|m: int| 0 <= m < taken@.len() implies tree_is(
            toks,
            scan_children(toks, s + 1, e as int)->Ok_0[m],
            (#[trigger] taken@[m])@,
        ) by {
            assert(b0[keep + m] == taken@[m]@);
        }
        let node = assemble(&tokens, s, e, taken)?;
        proof {
            lemma_put_node(toks, q, p as int, b0, keep as int, node@);
        }
        built.push_front(node);
        assert(nodes_view(built@) =~= seq![node@] + b0.subrange(0, keep as int));
    }
    proof {
        lemma_layout_at(toks, q, 0, 0);
    }
    assert(built@.len() == 1);
    let ghost b = nodes_view(built@);
    match built.pop_front() {
        Some(root) => {
            proof {
                lemma_built_at(toks, q, 0, b, 0);
                reveal(tree_is);
            }
            assert(tree_at(toks, q[0].0, q[0].1) == Ok::<NodeView, ParseFault>(root@));
            Ok(Some(root))
        },
        None => Ok(None),
    }
}

/// Builds the document tree of a token sequence.
pub fn parse(tokens: Vec<Token>) -> (r: Result<Option<Node>, ParserError>)
    ensures
        builds(tokens_view(tokens@), r),
{
    make_tree(tokens)
}

/// No tokens build no tree, and that is no error.
pub proof fn lemma_no_tokens_no_tree()
    ensures
        tree_of(Seq::<TokenView>::empty()) == Ok::<Option<NodeView>, ParseFault>(None),
{
}

} // verus!
