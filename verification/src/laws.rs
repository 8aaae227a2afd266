//! The library's general laws, stated over the same spec functions the
//! contracts use.

use vstd::prelude::*;
use crate::var::VarV;
use crate::logic::{LogicV, Expect, comp_counts, logic_run_v, resolve_v};
use crate::def::DefBlockV;
use crate::source::{SrcV, stmt_eval_rel, NextV};
use crate::strmap::{assoc_has, assoc_set, assoc_get};
use crate::eval::{step_rel, step_outcome};
use crate::parse::SrcBlockV;

verus! {

/// Lazy-compile idempotence: once a predicate binding has executed, running
/// the same binding again leaves the compiled-predicate table exactly as it
/// was, and in particular the entry it compiled the first time.
pub proof fn lemma_bind_idempotent(
    name: Seq<char>,
    l: LogicV,
    l0: Seq<(Seq<char>, LogicV)>,
    l1: Seq<(Seq<char>, LogicV)>,
    l2: Seq<(Seq<char>, LogicV)>,
    d0: Seq<(Seq<char>, DefBlockV)>,
    d1: Seq<(Seq<char>, DefBlockV)>,
    d2: Seq<(Seq<char>, DefBlockV)>,
    vals1: Seq<VarV>,
    vals2: Seq<VarV>,
    nxt1: Option<NextV>,
    nxt2: Option<NextV>,
)
    requires
        crate::strmap::keys_unique(l0),
        stmt_eval_rel(SrcV::Logic(name, l), l0, l1, d0, d1, vals1, nxt1),
        stmt_eval_rel(SrcV::Logic(name, l), l1, l2, d1, d2, vals2, nxt2),
    ensures
        l2 == l1,
        assoc_has(l1, name),
        assoc_get(l1, name) == (if assoc_has(l0, name) {
            assoc_get(l0, name)
        } else {
            l
        }),
{
    if assoc_has(l0, name) {
        assert(l1 == l0);
    } else {
        assert(l1 == assoc_set(l0, name, l));
        assert(l1.last().0 == name);
        crate::strmap::lemma_assoc_set_unique(l0, name, l);
        crate::strmap::lemma_assoc_at(l1, name, l1.len() - 1);
    }
}

/// An `or` statement never fires silently armed: a step that reads an `Or`
/// while the block's or-valid flag is clear yields nothing and changes
/// neither the store nor the predicate table.
pub proof fn lemma_or_gated(
    pre_src: Seq<(Seq<char>, SrcBlockV)>,
    pre_def: Seq<(Seq<char>, DefBlockV)>,
    pre_stack: Seq<Seq<char>>,
    node: Seq<char>,
    post_src: Seq<(Seq<char>, SrcBlockV)>,
    post_def: Seq<(Seq<char>, DefBlockV)>,
    post_stack: Seq<Seq<char>>,
    res: Option<(Seq<VarV>, Option<NextV>)>,
)
    requires
        step_rel(pre_src, pre_def, pre_stack, node, post_src, post_def, post_stack, res),
        assoc_has(pre_src, node),
        ({
            let b = assoc_get(pre_src, node);
            0 <= b.idx < b.src.len() && b.src[b.idx] is Or && !b.or_valid
        }),
    ensures
        res is None,
        post_def == pre_def,
{
}

/// After any step that executed a statement, the block's or-valid flag is
/// set exactly when that statement was an `if` that yielded nothing: only
/// a conditional that just tested false arms a following `or`.
pub proof fn lemma_or_armed_only_by_failed_if(
    pre_src: Seq<(Seq<char>, SrcBlockV)>,
    pre_stack: Seq<Seq<char>>,
    node: Seq<char>,
    b: SrcBlockV,
    l1: Seq<(Seq<char>, LogicV)>,
    vals0: Seq<VarV>,
    nxt: Option<NextV>,
    dmid: Seq<(Seq<char>, DefBlockV)>,
    post_src: Seq<(Seq<char>, SrcBlockV)>,
    post_stack: Seq<Seq<char>>,
    res: Option<(Seq<VarV>, Option<NextV>)>,
)
    requires
        crate::strmap::keys_unique(pre_src),
        assoc_has(pre_src, node),
        b == assoc_get(pre_src, node),
        0 <= b.idx < b.src.len(),
        step_outcome(
            pre_src,
            pre_stack,
            node,
            b,
            l1,
            vals0,
            nxt,
            dmid,
            post_src,
            post_stack,
            res,
        ),
        !(nxt matches Option::Some(NextV::Restart(Option::Some(_)))),
    ensures
        assoc_has(post_src, node),
        assoc_get(post_src, node).or_valid == (b.src[b.idx] is If && vals0.len() == 0
            && nxt is None),
{
    let i = crate::strmap::assoc_idx(pre_src, node);
    assert(0 <= i < pre_src.len() && pre_src[i].0 == node);
    assert(post_src[i].0 == node);
    assert(crate::strmap::keys_unique(post_src)) by {
        assert forall|a: int, c: int|
            0 <= a < c < post_src.len() implies post_src[a].0 != post_src[c].0 by {
            assert(post_src[a].0 == pre_src[a].0);
            assert(post_src[c].0 == pre_src[c].0);
        }
    }
    crate::strmap::lemma_assoc_at(post_src, node, i);
}

/// A composite `Nil` needs an observed falsehood: when none of its members
/// resolves at all, the counts stay empty and the composite reads false.
pub proof fn lemma_none_needs_observed_false(
    names: Seq<Seq<char>>,
    logics: Seq<(Seq<char>, LogicV)>,
    d: Seq<(Seq<char>, DefBlockV)>,
    fuel: nat,
)
    requires
        forall|i: int|
            0 <= i < names.len() ==> resolve_v(#[trigger] names[i], logics, d, fuel) is None,
    ensures
        comp_counts(names, logics, d, fuel) == (false, false),
        logic_run_v(LogicV::Composite(Expect::Nil, names), d, logics, fuel)
            == Option::Some(false),
    decreases names.len(),
{
    if names.len() > 0 {
        assert(forall|i: int|
            0 <= i < names.drop_last().len() ==> #[trigger] names.drop_last()[i] == names[i]);
        lemma_none_needs_observed_false(names.drop_last(), logics, d, fuel);
        assert(resolve_v(names.last(), logics, d, fuel) is None);
    }
}

/// An `Await` leaves the node stack as it was: the stepped node goes back
/// where it stood, and nothing else moves; the host decides what is next.
pub proof fn lemma_await_keeps_stack(
    pre_src: Seq<(Seq<char>, SrcBlockV)>,
    pre_stack: Seq<Seq<char>>,
    node: Seq<char>,
    b: SrcBlockV,
    l1: Seq<(Seq<char>, LogicV)>,
    vals0: Seq<VarV>,
    m: Seq<char>,
    dmid: Seq<(Seq<char>, DefBlockV)>,
    post_src: Seq<(Seq<char>, SrcBlockV)>,
    post_stack: Seq<Seq<char>>,
    res: Option<(Seq<VarV>, Option<NextV>)>,
)
    requires
        0 <= b.idx < b.src.len(),
        step_outcome(
            pre_src,
            pre_stack,
            node,
            b,
            l1,
            vals0,
            Option::Some(NextV::Await(m)),
            dmid,
            post_src,
            post_stack,
            res,
        ),
    ensures
        post_stack == pre_stack.push(node),
        crate::strmap::assoc_set(
            pre_src,
            node,
            SrcBlockV {
                name: b.name,
                src: b.src,
                idx: b.idx + 1,
                visited: true,
                or_valid: false,
                logic: l1,
            },
        ) == post_src,
{
}

} // verus!
