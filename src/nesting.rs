use vstd::prelude::*;

use crate::lex::TokenView;
use crate::parse::{closing_of, scan_close};

verus! {

/// The stack of open element names after one more token, or `None` when the
/// token closes something other than the innermost open element.
pub open spec fn step(s: Seq<Seq<char>>, t: TokenView) -> Option<Seq<Seq<char>>> {
    match t {
        TokenView::Open(m, _) => Some(s.push(m)),
        TokenView::Close(m) => if s.len() > 0 && s.last() == m {
            Some(s.drop_last())
        } else {
            None
        },
        _ => Some(s),
    }
}

/// The stack of open element names after the first `k` tokens.
pub open spec fn stack_after(toks: Seq<TokenView>, k: int) -> Option<Seq<Seq<char>>>
    decreases k,
{
    if k <= 0 {
        Some(Seq::empty())
    } else {
        match stack_after(toks, k - 1) {
            Some(s) => step(s, toks[k - 1]),
            None => None,
        }
    }
}

/// Every close ends the innermost open element, and none is left open.
pub open spec fn well_nested(toks: Seq<TokenView>) -> bool {
    stack_after(toks, toks.len() as int) == Some(Seq::<Seq<char>>::empty())
}

/// A plain bracket matcher: from `k`, with the names in `open` still open
/// inside the element, the first close that finds `open` empty.
pub open spec fn stack_match(toks: Seq<TokenView>, k: int, open: Seq<Seq<char>>) -> Option<int>
    decreases toks.len() - k,
{
    if k < 0 || k >= toks.len() {
        None
    } else {
        match toks[k] {
            TokenView::Open(m, _) => stack_match(toks, k + 1, open.push(m)),
            TokenView::Close(_) => if open.len() == 0 {
                Some(k)
            } else {
                stack_match(toks, k + 1, open.drop_last())
            },
            _ => stack_match(toks, k + 1, open),
        }
    }
}

/// How many times `n` occurs in `s`.
pub open spec fn count_name(s: Seq<Seq<char>>, n: Seq<char>) -> nat
    decreases s.len(),
{
    if s.len() == 0 {
        0
    } else {
        count_name(s.drop_last(), n) + if s.last() == n {
            1nat
        } else {
            0nat
        }
    }
}

proof fn lemma_stuck(toks: Seq<TokenView>, k: int, m: int)
    requires
        0 <= k <= m,
        stack_after(toks, k) is None,
    ensures
        stack_after(toks, m) is None,
    decreases m - k,
{
    if k < m {
        lemma_stuck(toks, k, m - 1);
    }
}

proof fn lemma_prefix_nested(toks: Seq<TokenView>, k: int)
    requires
        well_nested(toks),
        0 <= k <= toks.len(),
    ensures
        stack_after(toks, k) is Some,
{
    if stack_after(toks, k) is None {
        lemma_stuck(toks, k, toks.len() as int);
    }
}

proof fn lemma_scan_agrees(
    toks: Seq<TokenView>,
    n: Seq<char>,
    base: Seq<Seq<char>>,
    k: int,
    r: Seq<Seq<char>>,
)
    requires
        well_nested(toks),
        0 <= k <= toks.len(),
        stack_after(toks, k) == Some(base.push(n) + r),
    ensures
        stack_match(toks, k, r) is Some,
        scan_close(toks, n, k, count_name(r, n)) == stack_match(toks, k, r),
    decreases toks.len() - k,
{
    let s = base.push(n) + r;
    if k == toks.len() {
        assert(s.len() > 0);
        assert(Seq::<Seq<char>>::empty().len() == 0);
    } else {
        lemma_prefix_nested(toks, k + 1);
        assert(stack_after(toks, k + 1) == step(s, toks[k]));
        match toks[k] {
            TokenView::Open(m, _) => {
                let r2 = r.push(m);
                assert(s.push(m) =~= base.push(n) + r2);
                assert(r2.drop_last() =~= r);
                lemma_scan_agrees(toks, n, base, k + 1, r2);
            },
            TokenView::Close(m) => {
                if r.len() == 0 {
                    assert(s =~= base.push(n));
                } else {
                    assert(s.last() == r.last());
                    assert(s.drop_last() =~= base.push(n) + r.drop_last());
                    lemma_scan_agrees(toks, n, base, k + 1, r.drop_last());
                }
            },
            _ => {
                lemma_scan_agrees(toks, n, base, k + 1, r);
            },
        }
    }
}

/// On a well-nested token sequence, the same-name counting resolver finds,
/// for every opening tag, the close that a plain stack-based bracket matcher
/// pairs it with.
pub proof fn lemma_closing_matches_stack(toks: Seq<TokenView>, i: int)
    requires
        well_nested(toks),
        0 <= i < toks.len(),
        toks[i] is Open,
    ensures
        stack_match(toks, i + 1, Seq::empty()) is Some,
        closing_of(toks, i) == Ok::<int, crate::parse::ParseFault>(
            stack_match(toks, i + 1, Seq::empty())->Some_0,
        ),
{
    lemma_prefix_nested(toks, i);
    let base = stack_after(toks, i)->Some_0;
    let n = toks[i]->Open_0;
    assert(base.push(n) =~= base.push(n) + Seq::<Seq<char>>::empty());
    lemma_scan_agrees(toks, n, base, i + 1, Seq::empty());
}

} // verus!
