//! The stepwise evaluator.
//!
//! An evaluator keeps a stack of node names.  Each step pops the top node,
//! runs its next statement against the environment, substitutes symbols
//! into the emitted values, interpolates backtick references inside
//! strings, and interprets any next-action by adjusting the stack and the
//! cursors.  The environment is passed to each step, so a saved evaluator
//! can resume against any compatible environment.

use vstd::prelude::*;
use crate::var::{Var, VarV, var_wf, var_string, vars_view};
use crate::logic::{Logics, LogicV, logics_wf, resolve_full, resolve_fueled, LOGIC_FUEL,
    lemma_resolve_wf, names_view};
use crate::def::{Def, DefBlockV, def_wf};
use crate::env::{Env, env_wf, env_src_wf};
use crate::fun::FunRegistry;
use crate::source::{Src, SrcV, Next, NextV, next_opt_view, stmt_eval_rel, vars_wf,
    next_opt_wf, src_wf};
use crate::parse::{SrcBlock, SrcBlockV, src_block_wf};
use crate::strmap::{assoc_has, assoc_get, assoc_set, assoc_deep, keys_unique,
    lemma_deep_keys, lemma_deep_get, lemma_deep_set, lemma_assoc_set_unique};
use crate::text::{str_chars, push_char};

verus! {

/// Split a dotted lookup into its leading segments and final segment.
pub fn as_path<'a>(lookup: &'a str) -> (r: (Option<Vec<&'a str>>, &'a str))
    requires
        lookup@.len() > 0,
    ensures
        ({
            let segs = crate::path::split_term(lookup@);
            &&& r.1@ == segs.last()
            &&& match r.0 {
                Option::Some(p) => segs.len() > 1 && p@.len() == segs.len() - 1 && (forall|
                    i: int,
                |
                    0 <= i < p@.len() ==> (#[trigger] p@[i])@ == segs[i]),
                Option::None => segs.len() == 1,
            }
        }),
{
    proof {
        crate::path::lemma_split_term_nonempty(lookup@);
    }
    let bounds = crate::path::seg_bounds(lookup);
    let n = bounds.len();
    let last = bounds[n - 1];
    let item = lookup.substring_char(last.0, last.1);
    if n == 1 {
        return (Option::None, item);
    }
    let mut parts: Vec<&str> = Vec::new();
    let mut i: usize = 0;
    while i < n - 1
        invariant
            i <= n - 1,
            n == bounds@.len(),
            n >= 1,
            bounds@.len() == crate::path::split_term(lookup@).len(),
            forall|k: int|
                0 <= k < bounds@.len() ==> #[trigger] bounds@[k].0 <= bounds@[k].1
                    <= lookup@.len() && lookup@.subrange(
                    bounds@[k].0 as int,
                    bounds@[k].1 as int,
                ) == crate::path::split_term(lookup@)[k],
            parts@.len() == i,
            forall|k: int|
                0 <= k < i ==> (#[trigger] parts@[k])@ == crate::path::split_term(lookup@)[k],
        decreases n - 1 - i,
    {
        let b = bounds[i];
        parts.push(lookup.substring_char(b.0, b.1));
        i = i + 1;
    }
    (Option::Some(parts), item)
}

/// A resolved symbol's text, or the symbol itself when nothing resolves.
pub open spec fn resolve_text(
    sym: Seq<char>,
    logics: Seq<(Seq<char>, LogicV)>,
    d: Seq<(Seq<char>, DefBlockV)>,
) -> Seq<char> {
    match resolve_full(sym, logics, d) {
        Option::Some(v) => var_string(v),
        Option::None => sym,
    }
}

/// Backtick interpolation, one character at a time: a backtick opens a
/// symbol run, whitespace or another backtick closes it, and the resolved
/// text (or the raw symbol, when unresolved) is spliced in.
pub open spec fn interp_go(
    s: Seq<char>,
    i: nat,
    fs: Seq<char>,
    sym: Seq<char>,
    in_sym: bool,
    logics: Seq<(Seq<char>, LogicV)>,
    d: Seq<(Seq<char>, DefBlockV)>,
) -> Seq<char>
    decreases s.len() - i,
{
    if i >= s.len() {
        if sym.len() > 0 {
            fs + resolve_text(sym, logics, d)
        } else {
            fs
        }
    } else {
        let c = s[i as int];
        if c == '`' {
            if sym.len() > 0 {
                interp_go(s, i + 1, fs + resolve_text(sym, logics, d), Seq::empty(), true,
                    logics, d)
            } else {
                interp_go(s, i + 1, fs, Seq::empty(), true, logics, d)
            }
        } else if c == ' ' && in_sym {
            if sym.len() > 0 {
                interp_go(s, i + 1, fs + resolve_text(sym, logics, d) + seq![' '],
                    Seq::empty(), false, logics, d)
            } else {
                interp_go(s, i + 1, fs + seq![' '], Seq::empty(), false, logics, d)
            }
        } else if in_sym {
            interp_go(s, i + 1, fs, sym.push(c), true, logics, d)
        } else {
            interp_go(s, i + 1, fs.push(c), sym, false, logics, d)
        }
    }
}

pub open spec fn interp(
    s: Seq<char>,
    logics: Seq<(Seq<char>, LogicV)>,
    d: Seq<(Seq<char>, DefBlockV)>,
) -> Seq<char> {
    interp_go(s, 0, Seq::empty(), Seq::empty(), false, logics, d)
}

/// A string that is one whole backtick reference.
pub open spec fn is_single_sym(s: Seq<char>) -> bool {
    s.len() >= 2 && s[0] == '`' && (forall|i: int|
        1 <= i < s.len() ==> s[i] != '`' && s[i] != ' ')
}

/// What one emitted value becomes: symbols resolve (or stay); a string
/// that is one backtick reference becomes the resolved value itself;
/// other strings are interpolated; everything else passes through.
pub open spec fn post_val(
    v: VarV,
    logics: Seq<(Seq<char>, LogicV)>,
    d: Seq<(Seq<char>, DefBlockV)>,
) -> VarV {
    match v {
        VarV::Sym(s) => match resolve_full(s, logics, d) {
            Option::Some(r) => r,
            Option::None => v,
        },
        VarV::Str(s) => if is_single_sym(s) {
            match resolve_full(s.skip(1), logics, d) {
                Option::Some(r) => r,
                Option::None => v,
            }
        } else {
            VarV::Str(interp(s, logics, d))
        },
        _ => v,
    }
}

pub open spec fn post_vals(
    vs: Seq<VarV>,
    logics: Seq<(Seq<char>, LogicV)>,
    d: Seq<(Seq<char>, DefBlockV)>,
) -> Seq<VarV> {
    Seq::new(vs.len(), |i: int| post_val(vs[i], logics, d))
}

/// The view of a step's result.
pub open spec fn run_res_view(r: Option<(Vec<Var>, Option<Next>)>) -> Option<
    (Seq<VarV>, Option<NextV>),
> {
    match r {
        Option::Some(p) => Option::Some((vars_view(p.0@), next_opt_view(p.1))),
        Option::None => Option::None,
    }
}

/// How one evaluation step on a node relates the environment, the node
/// stack and the yielded result.  `pre_stack` is the stack after the node
/// was popped; a statement that is read pushes the node back, so iteration
/// continues there.
pub open spec fn step_rel(
    pre_src: Seq<(Seq<char>, SrcBlockV)>,
    pre_def: Seq<(Seq<char>, DefBlockV)>,
    pre_stack: Seq<Seq<char>>,
    node: Seq<char>,
    post_src: Seq<(Seq<char>, SrcBlockV)>,
    post_def: Seq<(Seq<char>, DefBlockV)>,
    post_stack: Seq<Seq<char>>,
    res: Option<(Seq<VarV>, Option<NextV>)>,
) -> bool {
    if !assoc_has(pre_src, node) {
        post_src == pre_src && post_def == pre_def && post_stack == pre_stack && res is None
    } else {
        let b = assoc_get(pre_src, node);
        if b.idx >= b.src.len() {
            &&& post_src == assoc_set(
                pre_src,
                node,
                SrcBlockV { visited: true, idx: 0, ..b },
            )
            &&& post_def == pre_def
            &&& post_stack == pre_stack
            &&& res is None
        } else {
            let stmt = b.src[b.idx];
            if stmt is Or && !b.or_valid {
                &&& post_src == assoc_set(
                    pre_src,
                    node,
                    SrcBlockV { visited: true, idx: b.idx + 1, ..b },
                )
                &&& post_def == pre_def
                &&& post_stack == pre_stack.push(node)
                &&& res is None
            } else {
                exists|l1: Seq<(Seq<char>, LogicV)>, dmid: Seq<(Seq<char>, DefBlockV)>,
                    vals0: Seq<VarV>, nxt: Option<NextV>|
                    {
                        &&& #[trigger] stmt_eval_rel(stmt, b.logic, l1, pre_def, dmid, vals0,
                            nxt)
                        &&& post_def == dmid
                        &&& step_outcome(
                            pre_src,
                            pre_stack,
                            node,
                            b,
                            l1,
                            vals0,
                            nxt,
                            dmid,
                            post_src,
                            post_stack,
                            res,
                        )
                    }
            }
        }
    }
}

/// The stack, cursor and result bookkeeping after a statement executed.
pub open spec fn step_outcome(
    pre_src: Seq<(Seq<char>, SrcBlockV)>,
    pre_stack: Seq<Seq<char>>,
    node: Seq<char>,
    b: SrcBlockV,
    l1: Seq<(Seq<char>, LogicV)>,
    vals0: Seq<VarV>,
    nxt: Option<NextV>,
    dmid: Seq<(Seq<char>, DefBlockV)>,
    post_src: Seq<(Seq<char>, SrcBlockV)>,
    post_stack: Seq<Seq<char>>,
    res: Option<(Seq<VarV>, Option<NextV>)>,
) -> bool {
    let stmt = b.src[b.idx];
    let has_return = vals0.len() > 0 || nxt is Some;
    let orv = if has_return {
        false
    } else if stmt is If {
        true
    } else {
        false
    };
    let cursor0 = b.idx + 1;
    let vals1 = post_vals(vals0, l1, dmid);
    let bidx: int = match nxt {
        Option::None => cursor0,
        Option::Some(NextV::Now(_)) => 0,
        Option::Some(NextV::Call(_)) => cursor0,
        Option::Some(NextV::Back) => cursor0,
        Option::Some(NextV::Restart(_)) => if nxt == Option::Some(
            NextV::Restart(Option::<Seq<char>>::None),
        ) {
            0
        } else {
            cursor0
        },
        Option::Some(NextV::Clear) => 0,
        Option::Some(NextV::Exit) => 0,
        Option::Some(NextV::Await(_)) => cursor0,
        Option::Some(NextV::Select(_)) => cursor0,
    };
    let stack1: Seq<Seq<char>> = match nxt {
        Option::None => pre_stack.push(node),
        Option::Some(NextV::Now(m)) => seq![m],
        Option::Some(NextV::Call(m)) => pre_stack.push(node).push(m),
        Option::Some(NextV::Back) => pre_stack,
        Option::Some(NextV::Restart(_)) => pre_stack.push(node),
        Option::Some(NextV::Clear) => seq![node],
        Option::Some(NextV::Exit) => Seq::empty(),
        Option::Some(NextV::Await(_)) => pre_stack.push(node),
        Option::Some(NextV::Select(_)) => pre_stack.push(node),
    };
    let src1 = assoc_set(
        pre_src,
        node,
        SrcBlockV {
            name: b.name,
            src: b.src,
            idx: bidx,
            visited: true,
            or_valid: orv,
            logic: l1,
        },
    );
    let src2 = match nxt {
        Option::Some(NextV::Restart(Option::Some(m))) => if assoc_has(src1, m) {
            assoc_set(src1, m, SrcBlockV { idx: 0, ..assoc_get(src1, m) })
        } else {
            src1
        },
        _ => src1,
    };
    &&& post_src == src2
    &&& post_stack == stack1
    &&& res == (if has_return {
        Option::Some((vals1, nxt))
    } else {
        Option::<(Seq<VarV>, Option<NextV>)>::None
    })
}

/// Interpolate backtick references in a string, per `interp`.
#[verifier::rlimit(60)]
#[verifier::spinoff_prover]
fn interp_exec(s: &String, logic: &Logics, def: &Def) -> (r: String)
    requires
        logic.wf(),
        logics_wf(assoc_deep(logic@)),
        def_wf(def@),
    ensures
        r@ == interp(s@, assoc_deep(logic@), def@),
{
    let cs = str_chars(s.as_str());
    let n = cs.len();
    let mut out = String::new();
    let mut symbuf = String::new();
    let mut in_sym = false;
    let mut i: usize = 0;
    proof {
        assert(out@ =~= Seq::<char>::empty());
        assert(symbuf@ =~= Seq::<char>::empty());
    }
    while i < n
        invariant
            i <= n,
            n == cs@.len(),
            cs@ == s@,
            logic.wf(),
            logics_wf(assoc_deep(logic@)),
            def_wf(def@),
            interp_go(s@, i as nat, out@, symbuf@, in_sym, assoc_deep(logic@), def@)
                == interp(s@, assoc_deep(logic@), def@),
        decreases n - i,
    {
        let ghost out0 = out@;
        let ghost sym0 = symbuf@;
        let ghost insym0 = in_sym;
        let ghost ll = assoc_deep(logic@);
        let c = cs[i];
        proof {
            assert(c == s@[i as int]);
        }
        if c == '`' {
            if symbuf.as_str().unicode_len() > 0 {
                let piece = resolve_piece(&symbuf, logic, def);
                out.append(piece.as_str());
                symbuf = String::new();
                in_sym = true;
                proof {
                    assert(out@ =~= out0 + resolve_text(sym0, ll, def@));
                    assert(symbuf@ =~= Seq::<char>::empty());
                }
            } else {
                symbuf = String::new();
                in_sym = true;
                proof {
                    assert(symbuf@ =~= Seq::<char>::empty());
                    assert(sym0 =~= Seq::<char>::empty());
                }
            }
        } else if c == ' ' && in_sym {
            if symbuf.as_str().unicode_len() > 0 {
                let piece = resolve_piece(&symbuf, logic, def);
                out.append(piece.as_str());
                push_char(&mut out, ' ');
                symbuf = String::new();
                in_sym = false;
                proof {
                    assert(out@ =~= out0 + resolve_text(sym0, ll, def@) + seq![' ']);
                    assert(symbuf@ =~= Seq::<char>::empty());
                }
            } else {
                push_char(&mut out, ' ');
                symbuf = String::new();
                in_sym = false;
                proof {
                    assert(out@ =~= out0 + seq![' ']);
                    assert(symbuf@ =~= Seq::<char>::empty());
                    assert(sym0 =~= Seq::<char>::empty());
                }
            }
        } else if in_sym {
            push_char(&mut symbuf, c);
            proof {
                assert(symbuf@ =~= sym0.push(c));
            }
        } else {
            push_char(&mut out, c);
            proof {
                assert(out@ =~= out0.push(c));
            }
        }
        proof {
            assert(interp_go(s@, (i + 1) as nat, out@, symbuf@, in_sym, ll, def@)
                == interp_go(s@, i as nat, out0, sym0, insym0, ll, def@));
        }
        i = i + 1;
    }
    if symbuf.as_str().unicode_len() > 0 {
        let piece = resolve_piece(&symbuf, logic, def);
        out.append(piece.as_str());
    }
    out
}

/// The text a backtick reference splices in.
fn resolve_piece(sym: &String, logic: &Logics, def: &Def) -> (r: String)
    requires
        logic.wf(),
        logics_wf(assoc_deep(logic@)),
        def_wf(def@),
    ensures
        r@ == resolve_text(sym@, assoc_deep(logic@), def@),
{
    proof {
        lemma_resolve_wf(sym@, assoc_deep(logic@), def@, LOGIC_FUEL as nat);
    }
    match resolve_fueled(sym.as_str(), logic, def, LOGIC_FUEL) {
        Option::Some(v) => v.to_string(),
        Option::None => sym.clone(),
    }
}

/// Post-process emitted values, per `post_vals`.
#[verifier::rlimit(60)]
#[verifier::spinoff_prover]
fn post_process(vals: Vec<Var>, logic: &Logics, def: &Def) -> (r: Vec<Var>)
    requires
        logic.wf(),
        logics_wf(assoc_deep(logic@)),
        def_wf(def@),
        vars_wf(vars_view(vals@)),
    ensures
        vars_view(r@) == post_vals(vars_view(vals@), assoc_deep(logic@), def@),
        vars_wf(vars_view(r@)),
{
    let ghost vv = vars_view(vals@);
    let mut out: Vec<Var> = Vec::new();
    let n = vals.len();
    let mut vals = vals;
    let mut i: usize = 0;
    while i < n
        invariant
            i <= n,
            n == vals@.len(),
            vv.len() == n,
            forall|j: int| i <= j < n ==> (#[trigger] vals@[j])@ == vv[j],
            logic.wf(),
            logics_wf(assoc_deep(logic@)),
            def_wf(def@),
            vars_wf(vv),
            out@.len() == i,
            forall|j: int|
                0 <= j < i ==> (#[trigger] out@[j])@ == post_val(
                    vv[j],
                    assoc_deep(logic@),
                    def@,
                ) && var_wf(out@[j]@),
        decreases n - i,
    {
        let mut v = Var::Bool(false);
        core::mem::swap(&mut v, &mut vals[i]);
        proof {
            assert(v@ == vv[i as int]);
            lemma_resolve_wf(
                match v@ {
                    VarV::Sym(s) => s,
                    VarV::Str(s) => s.skip(1),
                    _ => Seq::empty(),
                },
                assoc_deep(logic@),
                def@,
                LOGIC_FUEL as nat,
            );
        }
        let nv: Var = match v {
            Var::Sym(s) => {
                match resolve_fueled(s.as_str(), logic, def, LOGIC_FUEL) {
                    Option::Some(r) => r,
                    Option::None => Var::Sym(s),
                }
            },
            Var::String(s) => {
                if single_sym_exec(&s) {
                    let inner = s.as_str().substring_char(1, s.as_str().unicode_len());
                    proof {
                        assert(inner@ =~= s@.skip(1));
                    }
                    match resolve_fueled(inner, logic, def, LOGIC_FUEL) {
                        Option::Some(r) => r,
                        Option::None => Var::String(s),
                    }
                } else {
                    Var::String(interp_exec(&s, logic, def))
                }
            },
            other => other,
        };
        out.push(nv);
        i = i + 1;
    }
    proof {
        assert(vars_view(out@) =~= post_vals(vv, assoc_deep(logic@), def@));
    }
    out
}

/// Whether a string is one whole backtick reference.
fn single_sym_exec(s: &String) -> (r: bool)
    ensures
        r == is_single_sym(s@),
{
    let n = s.as_str().unicode_len();
    if n < 2 {
        return false;
    }
    if s.as_str().get_char(0) != '`' {
        return false;
    }
    let mut i: usize = 1;
    while i < n
        invariant
            1 <= i <= n,
            n == s@.len(),
            forall|j: int| 1 <= j < i ==> s@[j] != '`' && s@[j] != ' ',
        decreases n - i,
    {
        let c = s.as_str().get_char(i);
        if c == '`' || c == ' ' {
            return false;
        }
        i = i + 1;
    }
    true
}

/// The evaluator: a stack of node names, stepped against an environment.
#[derive(Debug)]
pub struct Evaluator {
    node_stack: Vec<String>,
}

impl View for Evaluator {
    type V = Seq<Seq<char>>;

    closed spec fn view(&self) -> Seq<Seq<char>> {
        names_view(self.node_stack@)
    }
}

/// Chained steps: pop the top node and step it; a yielded result ends the
/// chain, a silent step continues, and an empty stack ends iteration.
pub open spec fn steps_rel(
    k: nat,
    pre_src: Seq<(Seq<char>, SrcBlockV)>,
    pre_def: Seq<(Seq<char>, DefBlockV)>,
    pre_stack: Seq<Seq<char>>,
    post_src: Seq<(Seq<char>, SrcBlockV)>,
    post_def: Seq<(Seq<char>, DefBlockV)>,
    post_stack: Seq<Seq<char>>,
    res: Option<(Seq<VarV>, Option<NextV>)>,
) -> bool
    decreases k,
{
    if pre_stack.len() == 0 {
        post_src == pre_src && post_def == pre_def && post_stack == pre_stack && res is None
    } else {
        exists|ms: Seq<(Seq<char>, SrcBlockV)>, md: Seq<(Seq<char>, DefBlockV)>, mst: Seq<
            Seq<char>,
        >, r1: Option<(Seq<VarV>, Option<NextV>)>|
            {
                &&& #[trigger] step_rel(
                    pre_src,
                    pre_def,
                    pre_stack.drop_last(),
                    pre_stack.last(),
                    ms,
                    md,
                    mst,
                    r1,
                )
                &&& match r1 {
                    Option::Some(v) => post_src == ms && post_def == md && post_stack == mst
                        && res == Option::Some(v),
                    Option::None => k > 0 && steps_rel(
                        (k - 1) as nat,
                        ms,
                        md,
                        mst,
                        post_src,
                        post_def,
                        post_stack,
                        res,
                    ),
                }
            }
    }
}

/// Statements left to run in the stack's top block.
pub open spec fn remaining_top(
    src: Seq<(Seq<char>, SrcBlockV)>,
    stack: Seq<Seq<char>>,
) -> int {
    if stack.len() > 0 && assoc_has(src, stack.last()) {
        let b = assoc_get(src, stack.last());
        if 0 <= b.idx <= b.src.len() {
            b.src.len() - b.idx
        } else {
            0
        }
    } else {
        0
    }
}

impl Evaluator {
    /// A fresh evaluator, poised at the node named `root`.
    pub fn new() -> (r: Evaluator)
        ensures
            r@ == seq!["root"@],
    {
        let mut stack: Vec<String> = Vec::new();
        stack.push("root".to_owned());
        let r = Evaluator { node_stack: stack };
        proof {
            assert(r@ =~= seq!["root"@]);
        }
        r
    }

    /// Jump: the stack becomes just the named node.
    pub fn advance(&mut self, node: String)
        ensures
            final(self)@ == seq![node@],
    {
        let ghost nv = node@;
        self.node_stack = Vec::new();
        self.node_stack.push(node);
        proof {
            assert(self@ =~= seq![nv]);
        }
    }

    /// Capture the node stack for later resumption.
    pub fn save(self) -> (r: EvaluatorState)
        ensures
            r@ == self@,
    {
        EvaluatorState { node_stack: self.node_stack }
    }

    /// Resolve a name against a predicate table and the data store, per
    /// `resolve_full`: a compiled predicate shadows the store.
    pub fn resolve(s: &str, logic: &Logics, def: &Def) -> (r: Option<Var>)
        requires
            logic.wf(),
            logics_wf(assoc_deep(logic@)),
            def_wf(def@),
        ensures
            match r {
                Option::Some(v) => resolve_full(s@, assoc_deep(logic@), def@)
                    == Option::Some(v@) && var_wf(v@),
                Option::None => resolve_full(s@, assoc_deep(logic@), def@) is None,
            },
    {
        resolve_fueled(s, logic, def, LOGIC_FUEL)
    }

    /// Run one step on the named node, per `step_rel`.
    #[verifier::rlimit(100)]
    #[verifier::spinoff_prover]
    pub fn run<F: FunRegistry>(&mut self, env: &mut Env<F>, node_name: &str) -> (r: Option<
        (Vec<Var>, Option<Next>),
    >)
        requires
            env_wf(old(env)),
        ensures
            env_wf(final(env)),
            step_rel(
                assoc_deep(old(env).src@),
                old(env).def@,
                old(self)@,
                node_name@,
                assoc_deep(final(env).src@),
                final(env).def@,
                final(self)@,
                run_res_view(r),
            ),
            match r {
                Option::Some(p) => vars_wf(vars_view(p.0@)) && next_opt_wf(
                    next_opt_view(p.1),
                ),
                Option::None => true,
            },
    {
        let ghost pre_src = assoc_deep(env.src@);
        let ghost pre_def = env.def@;
        let ghost pre_stack = self@;
        proof {
            lemma_deep_keys(env.src@);
        }
        if !env.src.contains_key(node_name) {
            return Option::None;
        }
        proof {
            lemma_deep_get(env.src@, node_name@);
            let i = crate::strmap::assoc_idx(pre_src, node_name@);
            assert(0 <= i < pre_src.len() && pre_src[i].0 == node_name@);
            assert(src_block_wf(pre_src[i].1));
        }
        let ghost blkv = assoc_get(pre_src, node_name@);
        let mut ret: Option<(Vec<Var>, Option<Next>)> = Option::None;
        let mut restart_other: Option<String> = Option::None;
        let ghost mut bfin: SrcBlock = arbitrary();
        let ghost mut l1v: Seq<(Seq<char>, LogicV)> = arbitrary();
        let ghost mut dmidv: Seq<(Seq<char>, DefBlockV)> = arbitrary();
        let ghost mut vals0v: Seq<VarV> = arbitrary();
        let ghost mut nxtv: Option<NextV> = arbitrary();
        let ghost mut b2fin: SrcBlock = arbitrary();
        let ghost mut m_found: bool = false;
        if let Option::Some(b) = env.src.get_mut(node_name) {
            proof {
                assert(b@ == blkv);
                assert(src_block_wf(b@));
            }
            b.visited = true;
            let idx = b.idx;
            if idx >= b.src.len() {
                b.idx = 0;
                proof {
                    bfin = *b;
                    assert(bfin@ == (SrcBlockV { visited: true, idx: 0, ..blkv }));
                }
            } else {
                let is_or = matches!(&b.src[idx], Src::Or(_, _));
                let is_if = matches!(&b.src[idx], Src::If(_, _, _));
                if is_or && !b.or_valid {
                    b.idx = idx + 1;
                    self.node_stack.push(node_name.to_owned());
                    proof {
                        bfin = *b;
                        assert(bfin@ == (SrcBlockV { visited: true, idx: idx + 1, ..blkv }));
                        assert(self@ =~= pre_stack.push(node_name@));
                    }
                } else {
                    b.idx = idx + 1;
                    self.node_stack.push(node_name.to_owned());
                    proof {
                        assert(self@ =~= pre_stack.push(node_name@));
                        assert(srcs_view_at(b.src@, idx as int) == blkv.src[idx as int]);
                        assert(src_wf(blkv.src[idx as int]));
                    }
                    let ghost l0 = assoc_deep(b.logic@);
                    let stmt_ref = &b.src[idx];
                    proof {
                        lemma_deep_keys(b.logic@);
                        assert(logics_wf(assoc_deep(b.logic@)));
                        assert((*stmt_ref)@ == blkv.src[idx as int]);
                        assert(src_wf((*stmt_ref)@));
                    }
                    let (vals, nxt) = stmt_ref.eval(&mut b.logic, &mut env.def, &mut env.fun);
                    proof {
                        vals0v = vars_view(vals@);
                        nxtv = next_opt_view(nxt);
                        l1v = assoc_deep(b.logic@);
                        dmidv = env.def@;
                    }
                    let has_return = vals.len() > 0 || matches!(&nxt, Option::Some(_));
                    if has_return {
                        b.or_valid = false;
                    } else if is_if {
                        b.or_valid = true;
                    } else {
                        b.or_valid = false;
                    }
                    let vals2 = post_process(vals, &b.logic, &env.def);
                    match &nxt {
                        Option::None => {},
                        Option::Some(n) => {
                            match n {
                                Next::Now(m) => {
                                    b.idx = 0;
                                    let ghost mv = m@;
                                    self.node_stack = Vec::new();
                                    self.node_stack.push(m.clone());
                                    proof {
                                        assert(self@ =~= seq![mv]);
                                    }
                                },
                                Next::Call(m) => {
                                    let ghost mv = m@;
                                    self.node_stack.push(m.clone());
                                    proof {
                                        assert(self@ =~= pre_stack.push(node_name@).push(mv));
                                    }
                                },
                                Next::Back => {
                                    let _ = self.node_stack.pop();
                                    proof {
                                        assert(self@ =~= pre_stack);
                                    }
                                },
                                Next::Restart(o) => {
                                    match o {
                                        Option::None => {
                                            b.idx = 0;
                                        },
                                        Option::Some(m) => {
                                            restart_other = Option::Some(m.clone());
                                        },
                                    }
                                },
                                Next::Clear => {
                                    b.idx = 0;
                                    self.node_stack = Vec::new();
                                    self.node_stack.push(node_name.to_owned());
                                    proof {
                                        assert(self@ =~= seq![node_name@]);
                                    }
                                },
                                Next::Exit => {
                                    b.idx = 0;
                                    self.node_stack = Vec::new();
                                    proof {
                                        assert(self@ =~= Seq::<Seq<char>>::empty());
                                    }
                                },
                                Next::Await(_) => {},
                                Next::Select(_) => {},
                            }
                        },
                    }
                    if has_return {
                        ret = Option::Some((vals2, nxt));
                    }
                    proof {
                        bfin = *b;
                        assert(stmt_eval_rel(
                            blkv.src[idx as int],
                            blkv.logic,
                            l1v,
                            pre_def,
                            dmidv,
                            vals0v,
                            nxtv,
                        ));
                    }
                }
            }
        } else {
            proof {
                assert(false);
            }
        }
        // A named restart resets that node's cursor, wherever it is.
        let ghost mid_src_raw = env.src@;
        if let Option::Some(m) = &restart_other {
            proof {
                lemma_deep_keys(env.src@);
                if assoc_has(assoc_deep(env.src@), m@) {
                    lemma_deep_get(env.src@, m@);
                }
            }
            if let Option::Some(b2) = env.src.get_mut(m.as_str()) {
                b2.idx = 0;
                proof {
                    b2fin = *b2;
                    m_found = true;
                }
            }
        }
        proof {
            lemma_deep_keys(old(env).src@);
            lemma_deep_set(old(env).src@, node_name@, bfin);
            lemma_assoc_set_unique(old(env).src@, node_name@, bfin);
            let src1v = assoc_set(pre_src, node_name@, bfin@);
            assert(assoc_deep(mid_src_raw) == src1v);
            lemma_assoc_set_unique(pre_src, node_name@, bfin@);
            // The final source view, by whether a named restart applied.
            match restart_other {
                Option::None => {
                    assert(assoc_deep(env.src@) == src1v);
                },
                Option::Some(ref m) => {
                    if m_found {
                        lemma_deep_set(mid_src_raw, m@, b2fin);
                        lemma_assoc_set_unique(mid_src_raw, m@, b2fin);
                        assert(assoc_deep(env.src@) == assoc_set(src1v, m@, b2fin@));
                        assert(b2fin@ == (SrcBlockV { idx: 0, ..assoc_get(src1v, m@) }));
                        lemma_assoc_set_unique(src1v, m@, b2fin@);
                    } else {
                        assert(assoc_deep(env.src@) == src1v);
                        assert(!assoc_has(src1v, m@));
                    }
                },
            }
            // Well-formedness of the touched blocks.
            assert(src_block_wf(bfin@));
            assert forall|z: int|
                0 <= z < assoc_deep(env.src@).len() implies src_block_wf(
                #[trigger] assoc_deep(env.src@)[z].1,
            ) by {
                let fin = assoc_deep(env.src@);
                let i = crate::strmap::assoc_idx(pre_src, node_name@);
                if m_found && restart_other is Some {
                    let mm = restart_other.unwrap();
                    let j = crate::strmap::assoc_idx(src1v, mm@);
                    assert(src_block_wf(src1v[j].1)) by {
                        if j == i {
                            assert(src1v[j].1 == bfin@);
                        } else {
                            assert(src1v[j].1 == pre_src[j].1);
                        }
                    }
                    if z == j {
                        assert(fin[z].1 == b2fin@);
                        assert(b2fin@.idx == 0);
                        assert(src_block_wf(assoc_get(src1v, mm@)));
                    } else if z == i {
                        assert(fin[z].1 == src1v[z].1);
                        assert(src1v[z].1 == bfin@);
                    } else {
                        assert(fin[z].1 == src1v[z].1);
                        assert(src1v[z].1 == pre_src[z].1);
                    }
                } else {
                    if z == i {
                        assert(fin[z].1 == bfin@);
                    } else {
                        assert(fin[z].1 == pre_src[z].1);
                    }
                }
            }
            // The step relation, by which branch ran.
            let b0 = blkv;
            if b0.idx >= b0.src.len() {
                assert(bfin@ == (SrcBlockV { visited: true, idx: 0, ..b0 }));
                assert(restart_other is None);
            } else if b0.src[b0.idx] is Or && !b0.or_valid {
                assert(bfin@ == (SrcBlockV { visited: true, idx: b0.idx + 1, ..b0 }));
                assert(restart_other is None);
                assert(self@ == pre_stack.push(node_name@));
            } else {
                assert(stmt_eval_rel(
                    b0.src[b0.idx],
                    b0.logic,
                    l1v,
                    pre_def,
                    dmidv,
                    vals0v,
                    nxtv,
                ));
                assert(env.def@ == dmidv);
                assert(step_outcome(
                    pre_src,
                    pre_stack,
                    node_name@,
                    b0,
                    l1v,
                    vals0v,
                    nxtv,
                    dmidv,
                    assoc_deep(env.src@),
                    self@,
                    run_res_view(ret),
                ));
                assert(exists|l1: Seq<(Seq<char>, LogicV)>, dmid: Seq<(Seq<char>, DefBlockV)>,
                    vals0: Seq<VarV>, nxt: Option<NextV>|
                    {
                        &&& #[trigger] stmt_eval_rel(
                            b0.src[b0.idx],
                            b0.logic,
                            l1,
                            pre_def,
                            dmid,
                            vals0,
                            nxt,
                        )
                        &&& env.def@ == dmid
                        &&& step_outcome(
                            pre_src,
                            pre_stack,
                            node_name@,
                            b0,
                            l1,
                            vals0,
                            nxt,
                            dmid,
                            assoc_deep(env.src@),
                            self@,
                            run_res_view(ret),
                        )
                    });
            }
            assert(step_rel(
                pre_src,
                pre_def,
                pre_stack,
                node_name@,
                assoc_deep(env.src@),
                env.def@,
                self@,
                run_res_view(ret),
            ));
        }
        ret
    }
}

/// A silent step shrinks the stack, or keeps it and advances the top
/// block's cursor.
proof fn lemma_step_progress(
    pre_src: Seq<(Seq<char>, SrcBlockV)>,
    pre_def: Seq<(Seq<char>, DefBlockV)>,
    popped: Seq<Seq<char>>,
    node: Seq<char>,
    post_src: Seq<(Seq<char>, SrcBlockV)>,
    post_def: Seq<(Seq<char>, DefBlockV)>,
    post_stack: Seq<Seq<char>>,
)
    requires
        env_src_wf(pre_src),
        step_rel(
            pre_src,
            pre_def,
            popped,
            node,
            post_src,
            post_def,
            post_stack,
            Option::None,
        ),
    ensures
        post_stack.len() < popped.len() + 1 || (post_stack == popped.push(node)
            && remaining_top(post_src, post_stack) < remaining_top(
            pre_src,
            popped.push(node),
        )),
{
    if !assoc_has(pre_src, node) {
    } else {
        let b = assoc_get(pre_src, node);
        let i = crate::strmap::assoc_idx(pre_src, node);
        assert(0 <= i < pre_src.len() && pre_src[i].0 == node);
        assert(src_block_wf(pre_src[i].1));
        if b.idx >= b.src.len() {
        } else {
            let stmt = b.src[b.idx];
            if stmt is Or && !b.or_valid {
                let nb = SrcBlockV { visited: true, idx: b.idx + 1, ..b };
                crate::strmap::lemma_assoc_at(pre_src, node, i);
                assert(post_src == assoc_set(pre_src, node, nb));
                assert(post_stack.last() == node);
                assert(assoc_has(post_src, node)) by {
                    assert(post_src[i].0 == node);
                }
                crate::strmap::lemma_assoc_at(post_src, node, i);
                assert(assoc_get(post_src, node) == nb);
            } else {
                let (l1, dmid, vals0, nxt) = choose|l1: Seq<(Seq<char>, LogicV)>, dmid: Seq<
                    (Seq<char>, DefBlockV),
                >, vals0: Seq<VarV>, nxt: Option<NextV>|
                    {
                        &&& #[trigger] stmt_eval_rel(
                            stmt,
                            b.logic,
                            l1,
                            pre_def,
                            dmid,
                            vals0,
                            nxt,
                        )
                        &&& post_def == dmid
                        &&& step_outcome(
                            pre_src,
                            popped,
                            node,
                            b,
                            l1,
                            vals0,
                            nxt,
                            dmid,
                            post_src,
                            post_stack,
                            Option::None,
                        )
                    };
                assert(vals0.len() == 0 && nxt is None);
                let nb = SrcBlockV {
                    name: b.name,
                    src: b.src,
                    idx: b.idx + 1,
                    visited: true,
                    or_valid: if stmt is If {
                        true
                    } else {
                        false
                    },
                    logic: l1,
                };
                crate::strmap::lemma_assoc_at(pre_src, node, i);
                assert(post_src == assoc_set(pre_src, node, nb));
                assert(post_stack.last() == node);
                assert(assoc_has(post_src, node)) by {
                    assert(post_src[i].0 == node);
                }
                crate::strmap::lemma_assoc_at(post_src, node, i);
                assert(assoc_get(post_src, node) == nb);
            }
        }
    }
}

impl Evaluator {
    /// Iterate: pop nodes and step them until a step yields values or a
    /// next-action, per `steps_rel`; an exhausted stack ends iteration.
    #[verifier::rlimit(100)]
    #[verifier::spinoff_prover]
    pub fn next<F: FunRegistry>(&mut self, env: &mut Env<F>) -> (r: Option<
        (Vec<Var>, Option<Next>),
    >)
        requires
            env_wf(old(env)),
        ensures
            env_wf(final(env)),
            exists|k: nat|
                #[trigger] steps_rel(
                    k,
                    assoc_deep(old(env).src@),
                    old(env).def@,
                    old(self)@,
                    assoc_deep(final(env).src@),
                    final(env).def@,
                    final(self)@,
                    run_res_view(r),
                ),
            match r {
                Option::Some(p) => vars_wf(vars_view(p.0@)) && next_opt_wf(
                    next_opt_view(p.1),
                ),
                Option::None => true,
            },
    {
        let ghost orig_src = assoc_deep(old(env).src@);
        let ghost orig_def = old(env).def@;
        let ghost orig_stack = old(self)@;
        let ghost mut cnt: nat = 0;
        loop
            invariant
                env_wf(env),
                orig_src == assoc_deep(old(env).src@),
                orig_def == old(env).def@,
                orig_stack == old(self)@,
                forall|k: nat, ps: Seq<(Seq<char>, SrcBlockV)>, pd: Seq<
                    (Seq<char>, DefBlockV),
                >, pst: Seq<Seq<char>>, res: Option<(Seq<VarV>, Option<NextV>)>|
                    #[trigger] steps_rel(
                        k,
                        assoc_deep(env.src@),
                        env.def@,
                        self@,
                        ps,
                        pd,
                        pst,
                        res,
                    ) ==> steps_rel(k + cnt, orig_src, orig_def, orig_stack, ps, pd, pst, res),
            decreases self@.len(), remaining_top(assoc_deep(env.src@), self@),
        {
            let ghost loop_src = assoc_deep(env.src@);
            let ghost loop_def = env.def@;
            let ghost loop_stack = self@;
            let node = match self.node_stack.pop() {
                Option::None => {
                    proof {
                        assert(loop_stack.len() == 0);
                        assert(steps_rel(
                            0,
                            loop_src,
                            loop_def,
                            loop_stack,
                            loop_src,
                            loop_def,
                            loop_stack,
                            Option::<(Seq<VarV>, Option<NextV>)>::None,
                        ));
                        assert(steps_rel(
                            0 + cnt,
                            orig_src,
                            orig_def,
                            orig_stack,
                            assoc_deep(env.src@),
                            env.def@,
                            self@,
                            Option::<(Seq<VarV>, Option<NextV>)>::None,
                        ));
                        assert(exists|k: nat|
                            #[trigger] steps_rel(
                                k,
                                assoc_deep(old(env).src@),
                                old(env).def@,
                                old(self)@,
                                assoc_deep(env.src@),
                                env.def@,
                                self@,
                                Option::<(Seq<VarV>, Option<NextV>)>::None,
                            )) by {
                            assert(steps_rel(
                                0 + cnt,
                                orig_src,
                                orig_def,
                                orig_stack,
                                assoc_deep(env.src@),
                                env.def@,
                                self@,
                                Option::<(Seq<VarV>, Option<NextV>)>::None,
                            ));
                        }
                    }
                    return Option::None;
                },
                Option::Some(n) => n,
            };
            proof {
                assert(self@ =~= loop_stack.drop_last());
                assert(node@ == loop_stack.last());
            }
            let ghost popped = self@;
            let r = self.run(env, node.as_str());
            match r {
                Option::Some(p) => {
                    proof {
                        assert(steps_rel(
                            0,
                            loop_src,
                            loop_def,
                            loop_stack,
                            assoc_deep(env.src@),
                            env.def@,
                            self@,
                            run_res_view(Option::Some(p)),
                        )) by {
                            assert(step_rel(
                                loop_src,
                                loop_def,
                                loop_stack.drop_last(),
                                loop_stack.last(),
                                assoc_deep(env.src@),
                                env.def@,
                                self@,
                                run_res_view(Option::Some(p)),
                            ));
                        }
                        assert(steps_rel(
                            0 + cnt,
                            orig_src,
                            orig_def,
                            orig_stack,
                            assoc_deep(env.src@),
                            env.def@,
                            self@,
                            run_res_view(Option::Some(p)),
                        ));
                        assert(exists|k: nat|
                            #[trigger] steps_rel(
                                k,
                                assoc_deep(old(env).src@),
                                old(env).def@,
                                old(self)@,
                                assoc_deep(env.src@),
                                env.def@,
                                self@,
                                run_res_view(Option::Some(p)),
                            )) by {
                            assert(steps_rel(
                                0 + cnt,
                                orig_src,
                                orig_def,
                                orig_stack,
                                assoc_deep(env.src@),
                                env.def@,
                                self@,
                                run_res_view(Option::Some(p)),
                            ));
                        }
                    }
                    return Option::Some(p);
                },
                Option::None => {
                    proof {
                        assert(step_rel(
                            loop_src,
                            loop_def,
                            popped,
                            node@,
                            assoc_deep(env.src@),
                            env.def@,
                            self@,
                            Option::<(Seq<VarV>, Option<NextV>)>::None,
                        ));
                        lemma_step_progress(
                            loop_src,
                            loop_def,
                            popped,
                            node@,
                            assoc_deep(env.src@),
                            env.def@,
                            self@,
                        );
                        assert forall|k: nat, ps: Seq<(Seq<char>, SrcBlockV)>, pd: Seq<
                            (Seq<char>, DefBlockV),
                        >, pst: Seq<Seq<char>>, res: Option<(Seq<VarV>, Option<NextV>)>|
                            #[trigger] steps_rel(
                                k,
                                assoc_deep(env.src@),
                                env.def@,
                                self@,
                                ps,
                                pd,
                                pst,
                                res,
                            ) implies steps_rel(
                            k + (cnt + 1),
                            orig_src,
                            orig_def,
                            orig_stack,
                            ps,
                            pd,
                            pst,
                            res,
                        ) by {
                            assert(steps_rel(
                                k + 1,
                                loop_src,
                                loop_def,
                                loop_stack,
                                ps,
                                pd,
                                pst,
                                res,
                            )) by {
                                assert(step_rel(
                                    loop_src,
                                    loop_def,
                                    loop_stack.drop_last(),
                                    loop_stack.last(),
                                    assoc_deep(env.src@),
                                    env.def@,
                                    self@,
                                    Option::<(Seq<VarV>, Option<NextV>)>::None,
                                ));
                            }
                            assert(steps_rel(
                                (k + 1) + cnt,
                                orig_src,
                                orig_def,
                                orig_stack,
                                ps,
                                pd,
                                pst,
                                res,
                            ));
                        }
                        cnt = cnt + 1;
                    }
                },
            }
        }
    }

    /// Iterate until nothing more is yielded; the last yielded result, if
    /// any.  A step budget bounds runaway scripts that never finish.
    pub fn last<F: FunRegistry>(&mut self, env: &mut Env<F>) -> (r: Option<
        (Vec<Var>, Option<Next>),
    >)
        requires
            env_wf(old(env)),
        ensures
            env_wf(final(env)),
            match r {
                Option::Some(p) => vars_wf(vars_view(p.0@)) && next_opt_wf(
                    next_opt_view(p.1),
                ),
                Option::None => true,
            },
    {
        let mut out: Option<(Vec<Var>, Option<Next>)> = Option::None;
        let mut budget: u64 = STEP_BUDGET;
        loop
            invariant
                env_wf(env),
                match out {
                    Option::Some(p) => vars_wf(vars_view(p.0@)) && next_opt_wf(
                        next_opt_view(p.1),
                    ),
                    Option::None => true,
                },
            decreases budget,
        {
            if budget == 0 {
                return out;
            }
            budget = budget - 1;
            match self.next(env) {
                Option::Some(p) => {
                    out = Option::Some(p);
                },
                Option::None => {
                    return out;
                },
            }
        }
    }

    /// The result of the step after skipping `n` yielded steps.
    pub fn nth<F: FunRegistry>(&mut self, env: &mut Env<F>, n: usize) -> (r: Option<
        (Vec<Var>, Option<Next>),
    >)
        requires
            env_wf(old(env)),
        ensures
            env_wf(final(env)),
            match r {
                Option::Some(p) => vars_wf(vars_view(p.0@)) && next_opt_wf(
                    next_opt_view(p.1),
                ),
                Option::None => true,
            },
    {
        let mut i: usize = 0;
        loop
            invariant
                env_wf(env),
                i <= n,
            decreases n - i,
        {
            let r = self.next(env);
            if i == n {
                return r;
            }
            match r {
                Option::None => {
                    return Option::None;
                },
                Option::Some(_) => {},
            }
            i = i + 1;
        }
    }
}

/// How many silent-or-yielding steps `last` will take before giving up on
/// a script that never ends.
pub const STEP_BUDGET: u64 = 1000000;

/// The statement at a cursor, through the views.
pub open spec fn srcs_view_at(v: Seq<Src>, i: int) -> SrcV
    recommends
        0 <= i < v.len(),
{
    crate::parse::srcs_view(v)[i]
}

/// A saved evaluator: the node stack alone; the environment is the host's
/// to keep.
#[derive(Debug)]
pub struct EvaluatorState {
    node_stack: Vec<String>,
}

impl View for EvaluatorState {
    type V = Seq<Seq<char>>;

    closed spec fn view(&self) -> Seq<Seq<char>> {
        names_view(self.node_stack@)
    }
}

impl EvaluatorState {
    /// Resume: an evaluator with this saved stack.
    pub fn to_eval(self) -> (r: Evaluator)
        ensures
            r@ == self@,
    {
        Evaluator { node_stack: self.node_stack }
    }

    /// Resume without consuming the saved state.
    pub fn as_eval(&self) -> (r: Evaluator)
        ensures
            r@ == self@,
    {
        let mut stack: Vec<String> = Vec::new();
        let n = self.node_stack.len();
        let mut i: usize = 0;
        while i < n
            invariant
                i <= n,
                n == self.node_stack@.len(),
                stack@.len() == i,
                forall|j: int|
                    0 <= j < i ==> (#[trigger] stack@[j])@ == self.node_stack@[j]@,
            decreases n - i,
        {
            stack.push(self.node_stack[i].clone());
            i = i + 1;
        }
        let r = Evaluator { node_stack: stack };
        proof {
            assert(r@ =~= self@);
        }
        r
    }
}

} // verus!
