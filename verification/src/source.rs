//! Statements and their evaluation.
//!
//! A source block is a sequence of statements: predicate bindings,
//! conditionals, emissions, next-actions, mutations and `when` dispatch
//! tables.  Executing a statement against the block-local predicate table,
//! the data store and the host registry yields emitted values and an
//! optional next-action.

use vstd::prelude::*;
use crate::var::{Var, VarV, var_wf, var_string, vars_view, num_of_var, Mut, MutV};
use crate::num::Num;
use crate::logic::{Logic, LogicV, LogicFn, Logics, logic_wf, logics_wf, resolve_full,
    resolve_fueled, LOGIC_FUEL, lemma_resolve_wf};
use crate::def::{Def, DefBlockV, def_wf, def_set, def_block_wf};
use crate::fun::FunRegistry;
use crate::strmap::{StrMap, keys_unique, assoc_has, assoc_get, assoc_set, assoc_deep,
    lemma_deep_keys, lemma_deep_get, lemma_deep_set, lemma_assoc_at, lemma_assoc_set_unique};
use crate::text::string_eq;

verus! {

/// The label-to-values map a `Select` carries.
pub type SelectMap = StrMap<Vec<Var>>;

/// A `when` table: predicate name to mutation triple.
pub type WhenMap = StrMap<(Mut, String, Vec<Var>)>;

/// Next-node action types.
#[derive(Debug, PartialEq)]
pub enum Next {
    /// Jump: clear the stack and continue at the named node.
    Now(String),
    /// Reset the named node's cursor (or the current node's) to the start.
    Restart(Option<String>),
    /// Return to the node visited before the current one.
    Back,
    /// Collapse the stack to just the current node.
    Clear,
    /// Pause; the host decides whether and where to continue.
    Await(String),
    /// Pause with a set of labelled choices.
    Select(SelectMap),
    /// Push the named node; `Back` returns here.
    Call(String),
    /// End evaluation.
    Exit,
}

/// The mathematical shape of a next-action.
pub enum NextV {
    Now(Seq<char>),
    Restart(Option<Seq<char>>),
    Back,
    Clear,
    Await(Seq<char>),
    Select(Seq<(Seq<char>, Seq<VarV>)>),
    Call(Seq<char>),
    Exit,
}

/// The deep view of a select map.
pub open spec fn select_view(m: Seq<(Seq<char>, Vec<Var>)>) -> Seq<(Seq<char>, Seq<VarV>)> {
    Seq::new(m.len(), |i: int| (m[i].0, vars_view(m[i].1@)))
}

impl View for Next {
    type V = NextV;

    open spec fn view(&self) -> NextV {
        match *self {
            Next::Now(ref s) => NextV::Now(s@),
            Next::Restart(ref o) => NextV::Restart(
                match *o {
                    Option::Some(ref s) => Option::Some(s@),
                    Option::None => Option::None,
                },
            ),
            Next::Back => NextV::Back,
            Next::Clear => NextV::Clear,
            Next::Await(ref s) => NextV::Await(s@),
            Next::Select(ref m) => NextV::Select(select_view(m@)),
            Next::Call(ref s) => NextV::Call(s@),
            Next::Exit => NextV::Exit,
        }
    }
}

/// Well-formedness of a next-action: select labels unique, values sound.
pub open spec fn next_wf(n: NextV) -> bool {
    match n {
        NextV::Select(m) => keys_unique(m) && (forall|i: int, j: int|
            0 <= i < m.len() && 0 <= j < m[i].1.len() ==> var_wf(#[trigger] m[i].1[j])),
        _ => true,
    }
}

pub open spec fn next_opt_view(n: Option<Next>) -> Option<NextV> {
    match n {
        Option::Some(x) => Option::Some(x@),
        Option::None => Option::None,
    }
}

pub open spec fn next_opt_wf(n: Option<NextV>) -> bool {
    match n {
        Option::Some(x) => next_wf(x),
        Option::None => true,
    }
}

/// A statement.
#[derive(Debug, PartialEq)]
pub enum Src {
    /// Bind a predicate under a name; compiled lazily on first execution.
    Logic(String, Logic),
    /// Emit values and maybe act when the named predicate holds.
    If(String, Vec<Var>, Option<Next>),
    /// Fires only when the immediately preceding `If` tested false.
    Or(Vec<Var>, Option<Next>),
    /// Emit values.
    Emit(Vec<Var>),
    /// Hand a next-action to the evaluator.
    Next(Next),
    /// Mutate the store: kind, target path, arguments.
    Mut(Mut, String, Vec<Var>),
    /// Run each entry's mutation when its predicate name resolves true.
    When(WhenMap),
}

/// The mathematical shape of a statement.
pub enum SrcV {
    Logic(Seq<char>, LogicV),
    If(Seq<char>, Seq<VarV>, Option<NextV>),
    Or(Seq<VarV>, Option<NextV>),
    Emit(Seq<VarV>),
    Next(NextV),
    Mut(MutV, Seq<char>, Seq<VarV>),
    When(Seq<(Seq<char>, (MutV, Seq<char>, Seq<VarV>))>),
}

/// The deep view of a `when` table.
pub open spec fn when_view(m: Seq<(Seq<char>, (Mut, String, Vec<Var>))>) -> Seq<
    (Seq<char>, (MutV, Seq<char>, Seq<VarV>)),
> {
    Seq::new(m.len(), |i: int| (m[i].0, (m[i].1.0@, m[i].1.1@, vars_view(m[i].1.2@))))
}

impl View for Src {
    type V = SrcV;

    open spec fn view(&self) -> SrcV {
        match *self {
            Src::Logic(ref n, ref l) => SrcV::Logic(n@, l@),
            Src::If(ref n, ref vs, ref nx) => SrcV::If(n@, vars_view(vs@), next_opt_view(*nx)),
            Src::Or(ref vs, ref nx) => SrcV::Or(vars_view(vs@), next_opt_view(*nx)),
            Src::Emit(ref vs) => SrcV::Emit(vars_view(vs@)),
            Src::Next(ref nx) => SrcV::Next(nx@),
            Src::Mut(ref m, ref p, ref a) => SrcV::Mut(m@, p@, vars_view(a@)),
            Src::When(ref m) => SrcV::When(when_view(m@)),
        }
    }
}

pub open spec fn vars_wf(vs: Seq<VarV>) -> bool {
    forall|i: int| 0 <= i < vs.len() ==> var_wf(#[trigger] vs[i])
}

/// Well-formedness of a statement: sound values throughout, and unique
/// keys in any embedded table.
pub open spec fn src_wf(s: SrcV) -> bool {
    match s {
        SrcV::Logic(_, l) => logic_wf(l),
        SrcV::If(_, vs, nx) => vars_wf(vs) && next_opt_wf(nx),
        SrcV::Or(vs, nx) => vars_wf(vs) && next_opt_wf(nx),
        SrcV::Emit(vs) => vars_wf(vs),
        SrcV::Next(nx) => next_wf(nx),
        SrcV::Mut(_, _, a) => vars_wf(a),
        SrcV::When(m) => keys_unique(m) && (forall|i: int|
            0 <= i < m.len() ==> vars_wf((#[trigger] m[i].1).2)),
    }
}

/// Truthiness of a resolved name: booleans count as themselves; any other
/// resolved value counts as true unless it reads back as the name itself;
/// an unresolved name is false.
pub open spec fn if_truthy_v(
    name: Seq<char>,
    logics: Seq<(Seq<char>, LogicV)>,
    d: Seq<(Seq<char>, DefBlockV)>,
) -> bool {
    match resolve_full(name, logics, d) {
        Option::Some(v) => match v {
            VarV::Bool(b) => b,
            _ => name != var_string(v),
        },
        Option::None => false,
    }
}

/// The outcome of one checked arithmetic step, as the mutation applies it.
pub open spec fn num_checked(m: MutV, x: Num, y: Num) -> Option<Num> {
    let d = match m {
        MutV::Add => crate::num::norm(crate::num::dec_add(x, y).m, crate::num::dec_add(x, y).s),
        MutV::Sub => crate::num::norm(crate::num::dec_sub(x, y).m, crate::num::dec_sub(x, y).s),
        MutV::Mul => crate::num::norm(crate::num::dec_mul(x, y).m, crate::num::dec_mul(x, y).s),
        _ => crate::num::norm(crate::num::dec_div(x, y).m, crate::num::dec_div(x, y).s),
    };
    if (m is Div && y.m == 0) || !crate::num::dec_fits(d) {
        Option::None
    } else {
        Option::Some(Num { m: d.m as i64, s: d.s as u32 })
    }
}

/// The store after an arithmetic mutation: both operands must resolve to
/// numbers and the checked operation must fit, else nothing changes.
pub open spec fn arith_apply(
    m: MutV,
    path: Seq<char>,
    args: Seq<VarV>,
    d0: Seq<(Seq<char>, DefBlockV)>,
) -> Seq<(Seq<char>, DefBlockV)> {
    if args.len() == 0 {
        d0
    } else {
        match (num_of_var(VarV::Sym(path), d0), num_of_var(args[0], d0)) {
            (Option::Some(x), Option::Some(y)) => match num_checked(m, x, y) {
                Option::Some(n) => def_set(d0, path, VarV::Num(n)),
                Option::None => d0,
            },
            _ => d0,
        }
    }
}

/// How one mutation relates the store before and after.  Arithmetic,
/// assignment and block copies are deterministic; a host call may return
/// any well-formed value (or none), which decides what is written.
pub open spec fn mut_step_rel(
    m: MutV,
    path: Seq<char>,
    args: Seq<VarV>,
    logics: Seq<(Seq<char>, LogicV)>,
    d0: Seq<(Seq<char>, DefBlockV)>,
    d1: Seq<(Seq<char>, DefBlockV)>,
) -> bool {
    match m {
        MutV::Add => d1 == arith_apply(m, path, args, d0),
        MutV::Sub => d1 == arith_apply(m, path, args, d0),
        MutV::Mul => d1 == arith_apply(m, path, args, d0),
        MutV::Div => d1 == arith_apply(m, path, args, d0),
        MutV::Swap => if args.len() == 0 {
            d1 == d0
        } else {
            d1 == def_set(d0, path, args[0])
        },
        MutV::New => if args.len() == 0 {
            d1 == d0
        } else {
            match args[0] {
                VarV::Sym(src_name) => if assoc_has(d0, src_name) {
                    d1 == assoc_set(d0, path, assoc_get(d0, src_name))
                } else {
                    d1 == d0
                },
                _ => d1 == d0,
            }
        },
        MutV::Fn(_) => d1 == d0 || (exists|v: VarV|
            var_wf(v) && d1 == #[trigger] def_set(d0, path, v)),
    }
}

/// What one host call may hand back.
pub open spec fn ret_wf(ret: Option<VarV>) -> bool {
    match ret {
        Option::Some(v) => var_wf(v),
        Option::None => true,
    }
}

pub open spec fn rets_wf(rets: Seq<Option<VarV>>) -> bool {
    forall|i: int| 0 <= i < rets.len() ==> ret_wf(#[trigger] rets[i])
}

/// The argument list a host function receives: each symbol is resolved
/// through the predicate table and store, symbols that resolve to nothing
/// are dropped, every other value passes through, and order is kept.
pub open spec fn fn_args_v(
    args: Seq<VarV>,
    logics: Seq<(Seq<char>, LogicV)>,
    d: Seq<(Seq<char>, DefBlockV)>,
) -> Seq<VarV>
    decreases args.len(),
{
    if args.len() == 0 {
        Seq::empty()
    } else {
        let pre = fn_args_v(args.drop_last(), logics, d);
        match args.last() {
            VarV::Sym(s) => match resolve_full(s, logics, d) {
                Option::Some(v) => pre.push(v),
                Option::None => pre,
            },
            other => pre.push(other),
        }
    }
}

/// Build the argument list handed to a host function, per `fn_args_v`.
pub fn resolve_fn_args(args: &Vec<Var>, logic: &Logics, def: &Def) -> (r: Vec<Var>)
    requires
        logic.wf(),
        logics_wf(assoc_deep(logic@)),
        def_wf(def@),
        vars_wf(vars_view(args@)),
    ensures
        vars_view(r@) == fn_args_v(vars_view(args@), assoc_deep(logic@), def@),
        vars_wf(vars_view(r@)),
{
    let ghost av = vars_view(args@);
    let mut out: Vec<Var> = Vec::new();
    let n = args.len();
    let mut i: usize = 0;
    proof {
        assert(av.take(0) =~= Seq::<VarV>::empty());
        assert(vars_view(out@) =~= Seq::<VarV>::empty());
    }
    while i < n
        invariant
            i <= n,
            n == args@.len(),
            av == vars_view(args@),
            av.len() == n,
            logic.wf(),
            logics_wf(assoc_deep(logic@)),
            def_wf(def@),
            vars_wf(av),
            vars_view(out@) == fn_args_v(av.take(i as int), assoc_deep(logic@), def@),
            vars_wf(vars_view(out@)),
        decreases n - i,
    {
        proof {
            assert(av.take(i + 1).drop_last() =~= av.take(i as int));
            assert(av.take(i + 1).last() == av[i as int]);
            assert(args@[i as int]@ == av[i as int]);
        }
        let ghost pre = vars_view(out@);
        match &args[i] {
            Var::Sym(sy) => {
                proof {
                    lemma_resolve_wf(sy@, assoc_deep(logic@), def@, LOGIC_FUEL as nat);
                    assert(av[i as int] == VarV::Sym(sy@));
                }
                match resolve_fueled(sy.as_str(), logic, def, LOGIC_FUEL) {
                    Option::Some(v) => {
                        let ghost vv = v@;
                        out.push(v);
                        proof {
                            assert(vars_view(out@) =~= pre.push(vv));
                            assert(fn_args_v(av.take(i + 1), assoc_deep(logic@), def@)
                                == pre.push(vv));
                        }
                    },
                    Option::None => {
                        proof {
                            assert(fn_args_v(av.take(i + 1), assoc_deep(logic@), def@)
                                == pre);
                        }
                    },
                }
            },
            other => {
                let ghost ov = (*other)@;
                proof {
                    assert(av[i as int] == ov);
                    assert(!(ov is Sym));
                }
                out.push(other.clone());
                proof {
                    assert(vars_view(out@) =~= pre.push(ov));
                    assert(fn_args_v(av.take(i + 1), assoc_deep(logic@), def@) == pre.push(
                        ov,
                    ));
                }
            },
        }
        i = i + 1;
    }
    proof {
        assert(av.take(n as int) =~= av);
    }
    out
}

/// The store after one mutation.  `ret` is what the host's function
/// returned, and only matters for `Fn` mutations: the registry is handed
/// `fn_args_v` of the statement's arguments, and a returned value is
/// written to the target path.
pub open spec fn mut_apply(
    m: MutV,
    path: Seq<char>,
    args: Seq<VarV>,
    d0: Seq<(Seq<char>, DefBlockV)>,
    ret: Option<VarV>,
) -> Seq<(Seq<char>, DefBlockV)> {
    match m {
        MutV::Add => arith_apply(m, path, args, d0),
        MutV::Sub => arith_apply(m, path, args, d0),
        MutV::Mul => arith_apply(m, path, args, d0),
        MutV::Div => arith_apply(m, path, args, d0),
        MutV::Swap => if args.len() == 0 {
            d0
        } else {
            def_set(d0, path, args[0])
        },
        MutV::New => if args.len() == 0 {
            d0
        } else {
            match args[0] {
                VarV::Sym(src_name) => if assoc_has(d0, src_name) {
                    assoc_set(d0, path, assoc_get(d0, src_name))
                } else {
                    d0
                },
                _ => d0,
            }
        },
        MutV::Fn(_) => match ret {
            Option::Some(v) => def_set(d0, path, v),
            Option::None => d0,
        },
    }
}

/// The store after a `when` table runs: entries fire in order when their
/// names resolve true in the store as left by the previous entries;
/// `rets` lists the host's answer for each fired entry, in order.
pub open spec fn when_apply(
    entries: Seq<(Seq<char>, (MutV, Seq<char>, Seq<VarV>))>,
    logics: Seq<(Seq<char>, LogicV)>,
    d0: Seq<(Seq<char>, DefBlockV)>,
    rets: Seq<Option<VarV>>,
) -> Seq<(Seq<char>, DefBlockV)>
    decreases entries.len(),
{
    if entries.len() == 0 {
        d0
    } else {
        let e = entries.first();
        if if_truthy_v(e.0, logics, d0) {
            let r0 = if rets.len() > 0 {
                rets.first()
            } else {
                Option::None
            };
            let d2 = mut_apply(e.1.0, e.1.1, e.1.2, d0, r0);
            when_apply(
                entries.drop_first(),
                logics,
                d2,
                if rets.len() > 0 {
                    rets.drop_first()
                } else {
                    rets
                },
            )
        } else {
            when_apply(entries.drop_first(), logics, d0, rets)
        }
    }
}

/// How executing one statement relates the predicate table, the store,
/// the emitted values and the next-action.
pub open spec fn stmt_eval_rel(
    s: SrcV,
    l0: Seq<(Seq<char>, LogicV)>,
    l1: Seq<(Seq<char>, LogicV)>,
    d0: Seq<(Seq<char>, DefBlockV)>,
    d1: Seq<(Seq<char>, DefBlockV)>,
    vals: Seq<VarV>,
    nxt: Option<NextV>,
) -> bool {
    match s {
        SrcV::Logic(name, l) => {
            &&& l1 == (if assoc_has(l0, name) {
                l0
            } else {
                assoc_set(l0, name, l)
            })
            &&& d1 == d0
            &&& vals.len() == 0
            &&& nxt is None
        },
        SrcV::If(lookup, vs, n) => {
            &&& l1 == l0
            &&& d1 == d0
            &&& if if_truthy_v(lookup, l0, d0) {
                vals == vs && nxt == n
            } else {
                vals.len() == 0 && nxt is None
            }
        },
        SrcV::Or(vs, n) => l1 == l0 && d1 == d0 && vals == vs && nxt == n,
        SrcV::Emit(vs) => l1 == l0 && d1 == d0 && vals == vs && nxt is None,
        SrcV::Next(a) => l1 == l0 && d1 == d0 && vals.len() == 0 && nxt == Option::Some(a),
        SrcV::Mut(m, p, args) => {
            &&& l1 == l0
            &&& exists|ret: Option<VarV>|
                ret_wf(ret) && d1 == #[trigger] mut_apply(m, p, args, d0, ret)
            &&& vals.len() == 0
            &&& nxt is None
        },
        SrcV::When(entries) => {
            &&& l1 == l0
            &&& exists|rets: Seq<Option<VarV>>|
                rets_wf(rets) && d1 == #[trigger] when_apply(entries, l0, d0, rets)
            &&& vals.len() == 0
            &&& nxt is None
        },
    }
}

/// The token a value flattens back to when a `when` entry is re-parsed.
pub open spec fn var_ir(v: VarV) -> crate::parse::IRV {
    match v {
        VarV::Str(s) => crate::parse::IRV::Str(s),
        _ => crate::parse::IRV::Sym(var_string(v)),
    }
}

/// A `when` entry's mutation, re-parsed from its values: the head must be
/// a raw `@path` token, never a quoted string.
pub open spec fn when_entry_v(vals: Seq<VarV>) -> Option<(MutV, Seq<char>, Seq<VarV>)> {
    let toks = Seq::new(vals.len(), |i: int| var_ir(vals[i]));
    if toks.len() == 0 {
        Option::None
    } else {
        match toks[0] {
            crate::parse::IRV::Sym(head) => if head.len() > 0 && head[0] == '@' {
                crate::var::mut_parse_v(toks)
            } else {
                Option::None
            },
            _ => Option::None,
        }
    }
}

/// The `when` table a parsed select map denotes, entry by entry.
pub open spec fn when_of_select(m: Seq<(Seq<char>, Seq<VarV>)>) -> Option<
    Seq<(Seq<char>, (MutV, Seq<char>, Seq<VarV>))>,
>
    decreases m.len(),
{
    if m.len() == 0 {
        Option::Some(Seq::empty())
    } else {
        match when_of_select(m.drop_last()) {
            Option::Some(pre) => match when_entry_v(m.last().1) {
                Option::Some(t) => Option::Some(pre.push((m.last().0, t))),
                Option::None => Option::None,
            },
            Option::None => Option::None,
        }
    }
}

/// What a statement's tokens parse to, dispatched on the first raw token.
pub open spec fn src_parse_v(ts: Seq<crate::parse::IRV>) -> Option<SrcV> {
    if ts.len() == 0 {
        Option::None
    } else {
        match ts[0] {
            crate::parse::IRV::Sym(sym) => {
                let rest = ts.drop_first();
                if sym.len() > 0 && sym[0] == '@' {
                    match crate::var::mut_parse_v(ts) {
                        Option::Some(t) => Option::Some(SrcV::Mut(t.0, t.1, t.2)),
                        Option::None => Option::None,
                    }
                } else if sym == seq!['w', 'h', 'e', 'n'] {
                    if rest.len() != 1 {
                        Option::None
                    } else {
                        match select_of(rest[0]) {
                            Option::Some(m) => match when_of_select(m) {
                                Option::Some(w) => if w.len() == 0 {
                                    Option::None
                                } else {
                                    Option::Some(SrcV::When(w))
                                },
                                Option::None => Option::None,
                            },
                            Option::None => Option::None,
                        }
                    }
                } else if sym == seq!['i', 'f'] {
                    if rest.len() < 2 {
                        Option::None
                    } else {
                        let x = rest[0];
                        let out = next_parse_v(rest.drop_first());
                        match crate::var::vars_of_irs(out.1) {
                            Option::Some(vs) => Option::Some(
                                SrcV::If(crate::parse::ir_text(x), vs, out.0),
                            ),
                            Option::None => Option::None,
                        }
                    }
                } else if sym == seq!['o', 'r'] {
                    if rest.len() < 1 {
                        Option::None
                    } else {
                        let out = next_parse_v(rest);
                        match crate::var::vars_of_irs(out.1) {
                            Option::Some(vs) => Option::Some(SrcV::Or(vs, out.0)),
                            Option::None => Option::None,
                        }
                    }
                } else if colon_head(sym) == seq!['n', 'e', 'x', 't'] {
                    match next_parse_v(ts).0 {
                        Option::Some(n) => Option::Some(SrcV::Next(n)),
                        Option::None => Option::None,
                    }
                } else if sym == seq!['e', 'm', 'i', 't'] {
                    if rest.len() == 0 {
                        Option::None
                    } else {
                        match crate::var::vars_of_irs(rest) {
                            Option::Some(vs) => Option::Some(SrcV::Emit(vs)),
                            Option::None => Option::None,
                        }
                    }
                } else {
                    if colon_second(sym) is None {
                        match crate::logic::logic_parse_v(rest) {
                            Option::Some(l) => Option::Some(SrcV::Logic(sym, l)),
                            Option::None => Option::None,
                        }
                    } else {
                        Option::Some(
                            SrcV::Logic(
                                colon_head(sym),
                                LogicV::Composite(
                                    crate::logic::expect_of(colon_last(sym)),
                                    Seq::new(
                                        rest.len(),
                                        |i: int| crate::parse::ir_text(rest[i]),
                                    ),
                                ),
                            ),
                        )
                    }
                }
            },
            _ => Option::None,
        }
    }
}

/// Flatten values back into the tokens a `when` entry re-parses.
#[verifier::spinoff_prover]
fn flatten_vars(vals: &Vec<Var>) -> (toks: Vec<crate::parse::IR>)
    requires
        forall|b: int| 0 <= b < vals@.len() ==> var_wf(#[trigger] vals@[b]@),
    ensures
        toks@.len() == vals@.len(),
        forall|b: int|
            0 <= b < toks@.len() ==> crate::parse::ir_view(#[trigger] toks@[b]) == var_ir(
                vals@[b]@,
            ),
{
    let mut toks: Vec<crate::parse::IR> = Vec::new();
    let vn = vals.len();
    let mut j: usize = 0;
    while j < vn
        invariant
            j <= vn,
            vn == vals@.len(),
            forall|b: int| 0 <= b < vals@.len() ==> var_wf(#[trigger] vals@[b]@),
            toks@.len() == j,
            forall|b: int|
                0 <= b < j ==> crate::parse::ir_view(#[trigger] toks@[b]) == var_ir(
                    vals@[b]@,
                ),
        decreases vn - j,
    {
        let v = &vals[j];
        let tok = match v {
            Var::String(st) => crate::parse::IR::String(st.clone()),
            other => crate::parse::IR::Sym(other.to_string()),
        };
        toks.push(tok);
        j = j + 1;
    }
    toks
}

/// Parse a token run into values, consuming it.
#[verifier::spinoff_prover]
fn collect_vars(exp: &mut Vec<crate::parse::IR>) -> (r: Result<Vec<Var>, &'static str>)
    ensures
        match r {
            Result::Ok(v) => crate::var::vars_of_irs(crate::var::irs_of(old(exp)@))
                == Option::Some(vars_view(v@)) && (forall|j: int|
                0 <= j < v@.len() ==> var_wf(#[trigger] v@[j]@)),
            Result::Err(_) => crate::var::vars_of_irs(crate::var::irs_of(old(exp)@)) is None,
        },
{
    let ghost rem = crate::var::irs_of(exp@);
    let mut v: Vec<Var> = Vec::new();
    let n2 = exp.len();
    let mut i: usize = 0;
    proof {
        assert(rem.take(0) =~= Seq::<crate::parse::IRV>::empty());
    }
    while i < n2
        invariant
            i <= n2,
            n2 == exp@.len(),
            rem.len() == n2,
            rem == crate::var::irs_of(old(exp)@),
            forall|j: int| i <= j < n2 ==> crate::parse::ir_view(#[trigger] exp@[j]) == rem[j],
            crate::var::vars_of_irs(rem.take(i as int)) == Option::Some(vars_view(v@)),
            v@.len() == i,
            forall|j: int| 0 <= j < i ==> var_wf(#[trigger] v@[j]@),
        decreases n2 - i,
    {
        let mut tok = crate::parse::IR::Sym(String::new());
        core::mem::swap(&mut tok, &mut exp[i]);
        proof {
            assert(crate::parse::ir_view(tok) == rem[i as int]);
            assert(rem.take(i + 1).drop_last() =~= rem.take(i as int));
            assert(rem.take(i + 1).last() == rem[i as int]);
        }
        match Var::parse(tok) {
            Result::Ok(val) => {
                v.push(val);
                proof {
                    assert(vars_view(v@) =~= vars_view(v@.drop_last()).push(v@.last()@));
                }
            },
            Result::Err(e) => {
                proof {
                    crate::var::lemma_vars_of_irs_fail(rem, i as int);
                }
                return Result::Err(e);
            },
        }
        i = i + 1;
    }
    proof {
        assert(rem.take(n2 as int) =~= rem);
    }
    Result::Ok(v)
}

/// Re-parse a whole parsed map as a `when` table.
#[verifier::rlimit(100)]
#[verifier::spinoff_prover]
fn parse_when_map(m: &SelectMap) -> (r: Result<WhenMap, &'static str>)
    requires
        m.wf(),
        forall|a: int, b: int|
            0 <= a < m@.len() && 0 <= b < m@[a].1@.len() ==> var_wf(#[trigger] m@[a].1@[b]@),
    ensures
        match r {
            Result::Ok(w) => when_of_select(select_view(m@)) == Option::Some(when_view(w@))
                && w.wf() && when_view(w@).len() > 0 && src_wf(SrcV::When(when_view(w@))),
            Result::Err(_) => when_of_select(select_view(m@)) is None || when_of_select(
                select_view(m@),
            ) == Option::Some(Seq::<(Seq<char>, (MutV, Seq<char>, Seq<VarV>))>::empty()),
        },
{
    let ghost sel = select_view(m@);
    let mut when_map: WhenMap = StrMap::new();
    let nm = m.len();
    let mut i: usize = 0;
    proof {
        assert(when_view(when_map@) =~= Seq::<
            (Seq<char>, (MutV, Seq<char>, Seq<VarV>)),
        >::empty());
        assert(sel.take(0) =~= Seq::<(Seq<char>, Seq<VarV>)>::empty());
    }
    while i < nm
        invariant
            i <= nm,
            nm == m@.len(),
            sel == select_view(m@),
            m.wf(),
            when_map.wf(),
            forall|a: int, b: int|
                0 <= a < m@.len() && 0 <= b < m@[a].1@.len() ==> var_wf(
                    #[trigger] m@[a].1@[b]@,
                ),
            when_of_select(sel.take(i as int)) == Option::Some(when_view(when_map@)),
            forall|a: int| 0 <= a < when_map@.len() ==> #[trigger] when_map@[a].0 == m@[a].0,
            when_map@.len() == i,
            forall|a: int, b: int|
                0 <= a < when_map@.len() && 0 <= b < when_map@[a].1.2@.len() ==> var_wf(
                    #[trigger] when_map@[a].1.2@[b]@,
                ),
        decreases nm - i,
    {
        proof {
            assert(sel.take(i + 1).drop_last() =~= sel.take(i as int));
            assert(sel.take(i + 1).last() == sel[i as int]);
        }
        let key = m.key_at(i).clone();
        let vals = m.val_at(i);
        proof {
            assert(sel[i as int].1 == vars_view(m@[i as int].1@));
        }
        match parse_when_entry(vals) {
            Result::Ok(t) => {
                proof {
                    if assoc_has(when_map@, key@) {
                        let x = crate::strmap::assoc_idx(when_map@, key@);
                        assert(when_map@[x].0 == key@);
                        assert(m@[x].0 == key@);
                        assert(false);
                    }
                }
                when_map.push_entry(key, (t.0, t.1, t.2));
                proof {
                    assert(when_view(when_map@) =~= when_view(when_map@.drop_last()).push(
                        (
                            when_map@.last().0,
                            (
                                when_map@.last().1.0@,
                                when_map@.last().1.1@,
                                vars_view(when_map@.last().1.2@),
                            ),
                        ),
                    ));
                    assert forall|a: int, b: int|
                        0 <= a < when_map@.len() && 0 <= b < when_map@[a].1.2@.len()
                            implies var_wf(#[trigger] when_map@[a].1.2@[b]@) by {
                        if a < when_map@.len() - 1 {
                            assert(when_map@[a] == when_map@.drop_last()[a]);
                        }
                    }
                }
            },
            Result::Err(_) => {
                proof {
                    lemma_when_fail(sel, i as int);
                }
                return Result::Err("Invalid WHEN Logic");
            },
        }
        i = i + 1;
    }
    proof {
        assert(sel.take(nm as int) =~= sel);
    }
    if when_map.len() == 0 {
        return Result::Err("Unable to parse WHEN Map into Mut");
    }
    proof {
        assert forall|a: int, b: int|
            0 <= a < when_map@.len() && 0 <= b < when_view(when_map@)[a].1.2.len()
                implies var_wf(#[trigger] when_view(when_map@)[a].1.2[b]) by {
            assert(when_view(when_map@)[a].1.2 == vars_view(when_map@[a].1.2@));
        }
    }
    Result::Ok(when_map)
}

/// Re-parse one `when` entry's values as a mutation triple.
#[verifier::rlimit(100)]
#[verifier::spinoff_prover]
fn parse_when_entry(vals: &Vec<Var>) -> (r: Result<(Mut, String, Vec<Var>), &'static str>)
    requires
        forall|b: int| 0 <= b < vals@.len() ==> var_wf(#[trigger] vals@[b]@),
    ensures
        match r {
            Result::Ok(t) => when_entry_v(vars_view(vals@)) == Option::Some(
                (t.0@, t.1@, vars_view(t.2@)),
            ) && (forall|b: int| 0 <= b < t.2@.len() ==> var_wf(#[trigger] t.2@[b]@)),
            Result::Err(_) => when_entry_v(vars_view(vals@)) is None,
        },
{
    let mut toks = flatten_vars(vals);
    let ghost entry_toks = Seq::new(
        vars_view(vals@).len(),
        |b: int| var_ir(vars_view(vals@)[b]),
    );
    proof {
        assert(crate::var::irs_of(toks@) =~= entry_toks);
    }
    if toks.len() == 0 {
        return Result::Err("Invalid WHEN Logic");
    }
    let head_ok = match &toks[0] {
        crate::parse::IR::Sym(s0) => {
            let s0n = s0.as_str().unicode_len();
            s0n > 0 && s0.as_str().get_char(0) == '@'
        },
        _ => false,
    };
    proof {
        assert(crate::parse::ir_view(toks@[0]) == entry_toks[0]);
    }
    if !head_ok {
        return Result::Err("Invalid WHEN Logic");
    }
    match crate::var::Mut::parse(&mut toks) {
        Result::Ok(t) => Result::Ok(t),
        Result::Err(_) => Result::Err("Invalid WHEN Logic"),
    }
}

/// Parse a bare predicate-binding statement: simple or composite.
#[verifier::spinoff_prover]
fn parse_logic_stmt(sym: String, exp: Vec<crate::parse::IR>) -> (r: Result<Src, &'static str>)
    requires
        colon_head(sym@) != seq!['n', 'e', 'x', 't'],
        !(sym@.len() > 0 && sym@[0] == '@'),
        sym@ != seq!['w', 'h', 'e', 'n'],
        sym@ != seq!['i', 'f'],
        sym@ != seq!['o', 'r'],
        sym@ != seq!['e', 'm', 'i', 't'],
    ensures
        match r {
            Result::Ok(s) => ({
                &&& src_wf(s@)
                &&& s@ == (if colon_second(sym@) is None {
                    SrcV::Logic(
                        sym@,
                        crate::logic::logic_parse_v(crate::var::irs_of(exp@)).unwrap(),
                    )
                } else {
                    SrcV::Logic(
                        colon_head(sym@),
                        LogicV::Composite(
                            crate::logic::expect_of(colon_last(sym@)),
                            Seq::new(
                                exp@.len(),
                                |i: int| crate::parse::ir_text(
                                    crate::parse::ir_view(exp@[i]),
                                ),
                            ),
                        ),
                    )
                })
                &&& (colon_second(sym@) is None ==> crate::logic::logic_parse_v(
                    crate::var::irs_of(exp@),
                ) is Some)
            }),
            Result::Err(_) => colon_second(sym@) is None && crate::logic::logic_parse_v(
                crate::var::irs_of(exp@),
            ) is None,
        },
{
    let (_, csecond) = colon_pieces(sym.as_str());
    match csecond {
        Option::None => {
            match Logic::parse(exp) {
                Result::Ok(l) => Result::Ok(Src::Logic(sym, l)),
                Result::Err(e) => Result::Err(e),
            }
        },
        Option::Some(_) => {
            let kind_piece = colon_last_exec(sym.as_str());
            let mut keys: Vec<&str> = Vec::new();
            keys.push(kind_piece.as_str());
            match Logic::parse_comp(keys, exp) {
                Result::Ok(l) => {
                    let name = colon_pieces(sym.as_str()).0;
                    Result::Ok(Src::Logic(name, l))
                },
                Result::Err(e) => Result::Err(e),
            }
        },
    }
}

impl Src {
    /// Parse one statement's tokens, per `src_parse_v`.
    #[verifier::rlimit(100)]
    #[verifier::spinoff_prover]
    pub fn parse(exp: Vec<crate::parse::IR>) -> (r: Result<Src, &'static str>)
        ensures
            match r {
                Result::Ok(s) => src_parse_v(crate::var::irs_of(exp@)) == Option::Some(s@)
                    && src_wf(s@),
                Result::Err(_) => src_parse_v(crate::var::irs_of(exp@)) is None,
            },
    {
        let ghost ts = crate::var::irs_of(exp@);
        let mut exp = exp;
        if exp.len() == 0 {
            return Result::Err("Encountered Non-Symbol Token");
        }
        let head_is_sym = match &exp[0] {
            crate::parse::IR::Sym(_) => true,
            _ => false,
        };
        if !head_is_sym {
            return Result::Err("Encountered Non-Symbol Token");
        }
        let first = exp.remove(0);
        let sym = match first {
            crate::parse::IR::Sym(s) => s,
            _ => String::new(),
        };
        proof {
            assert(ts[0] == crate::parse::IRV::Sym(sym@));
            assert(crate::var::irs_of(exp@) =~= ts.drop_first());
            reveal_strlit("when");
            reveal_strlit("if");
            reveal_strlit("or");
            reveal_strlit("emit");
            reveal_strlit("next");
            assert("when"@ =~= seq!['w', 'h', 'e', 'n']);
            assert("if"@ =~= seq!['i', 'f']);
            assert("or"@ =~= seq!['o', 'r']);
            assert("emit"@ =~= seq!['e', 'm', 'i', 't']);
            assert("next"@ =~= seq!['n', 'e', 'x', 't']);
        }
        let symn = sym.as_str().unicode_len();
        if symn > 0 && sym.as_str().get_char(0) == '@' {
            exp.insert(0, crate::parse::IR::Sym(sym));
            proof {
                assert(crate::var::irs_of(exp@) =~= ts);
            }
            match crate::var::Mut::parse(&mut exp) {
                Result::Ok(t) => Result::Ok(Src::Mut(t.0, t.1, t.2)),
                Result::Err(e) => Result::Err(e),
            }
        } else if crate::text::str_eq_string("when", &sym) {
            if exp.len() != 1 {
                return Result::Err("Invalid WHEN Logic");
            }
            let map_tok = exp.pop().unwrap();
            proof {
                assert(crate::parse::ir_view(map_tok) == ts.drop_first()[0]);
            }
            match crate::parse::Parser::parse_map(map_tok) {
                Result::Ok(m) => {
                    match parse_when_map(&m) {
                        Result::Ok(w) => Result::Ok(Src::When(w)),
                        Result::Err(e) => Result::Err(e),
                    }
                },
                Result::Err(_) => Result::Err(" Invalid WHEN Logic"),
            }
        } else if crate::text::str_eq_string("if", &sym) {
            if exp.len() < 2 {
                return Result::Err("Invalid IF Logic");
            }
            let x = exp.remove(0);
            proof {
                assert(crate::parse::ir_view(x) == ts.drop_first()[0]);
                assert(crate::var::irs_of(exp@) =~= ts.drop_first().drop_first());
            }
            let next = Next::parse(&mut exp);
            let v = match collect_vars(&mut exp) {
                Result::Ok(v) => v,
                Result::Err(e) => {
                    return Result::Err(e);
                },
            };
            let nx = match next {
                Result::Ok(n) => Option::Some(n),
                Result::Err(_) => Option::None,
            };
            Result::Ok(Src::If(x.into_text(), v, nx))
        } else if crate::text::str_eq_string("or", &sym) {
            if exp.len() < 1 {
                return Result::Err("Invalid OR Logic");
            }
            let next = Next::parse(&mut exp);
            let v = match collect_vars(&mut exp) {
                Result::Ok(v) => v,
                Result::Err(e) => {
                    return Result::Err(e);
                },
            };
            let nx = match next {
                Result::Ok(n) => Option::Some(n),
                Result::Err(_) => Option::None,
            };
            Result::Ok(Src::Or(v, nx))
        } else {
            let (chead, csecond) = colon_pieces(sym.as_str());
            if crate::text::str_eq_string("next", &chead) {
                exp.insert(0, crate::parse::IR::Sym(sym));
                proof {
                    assert(crate::var::irs_of(exp@) =~= ts);
                }
                match Next::parse(&mut exp) {
                    Result::Ok(n) => Result::Ok(Src::Next(n)),
                    Result::Err(_) => Result::Err("Invalid NEXT Logic"),
                }
            } else if crate::text::str_eq_string("emit", &sym) {
                if exp.len() == 0 {
                    return Result::Err("Missing EMIT Logic");
                }
                let v = match collect_vars(&mut exp) {
                    Result::Ok(v) => v,
                    Result::Err(e) => {
                        return Result::Err(e);
                    },
                };
                Result::Ok(Src::Emit(v))
            } else {
                let _ = csecond;
                proof {
                    assert(Seq::new(
                        exp@.len(),
                        |i: int| crate::parse::ir_text(crate::parse::ir_view(exp@[i])),
                    ) =~= Seq::new(
                        ts.drop_first().len(),
                        |i: int| crate::parse::ir_text(ts.drop_first()[i]),
                    ));
                    assert(crate::var::irs_of(exp@) == ts.drop_first());
                }
                parse_logic_stmt(sym, exp)
            }
        }
    }
}

proof fn lemma_when_fail(sel: Seq<(Seq<char>, Seq<VarV>)>, i: int)
    requires
        0 <= i < sel.len(),
        when_entry_v(sel[i].1) is None,
    ensures
        when_of_select(sel) is None,
    decreases sel.len(),
{
    if sel.len() > 0 {
        if i == sel.len() - 1 {
        } else {
            assert(sel.drop_last()[i] == sel[i]);
            lemma_when_fail(sel.drop_last(), i);
        }
    }
}

/// Copy a value list; the copy has the same views.
pub fn clone_vars(vs: &Vec<Var>) -> (r: Vec<Var>)
    ensures
        vars_view(r@) == vars_view(vs@),
        r@.len() == vs@.len(),
{
    let mut r: Vec<Var> = Vec::new();
    let n = vs.len();
    let mut i: usize = 0;
    while i < n
        invariant
            i <= n,
            n == vs@.len(),
            r@.len() == i,
            forall|j: int| 0 <= j < i ==> #[trigger] r@[j]@ == vs@[j]@,
        decreases n - i,
    {
        r.push(vs[i].clone());
        i = i + 1;
    }
    proof {
        assert(vars_view(r@) =~= vars_view(vs@));
    }
    r
}

/// Copy a select map; the copy has the same view.
pub fn clone_select(m: &SelectMap) -> (r: SelectMap)
    ensures
        select_view(r@) == select_view(m@),
        m.wf() ==> r.wf(),
{
    let mut r: SelectMap = StrMap::new();
    let n = m.len();
    let mut i: usize = 0;
    while i < n
        invariant
            i <= n,
            n == m@.len(),
            r@.len() == i,
            forall|j: int|
                0 <= j < i ==> #[trigger] r@[j].0 == m@[j].0 && vars_view(r@[j].1@)
                    == vars_view(m@[j].1@),
        decreases n - i,
    {
        let k = m.key_at(i);
        let v = m.val_at(i);
        r.push_entry(k.clone(), clone_vars(v));
        i = i + 1;
    }
    proof {
        assert(select_view(r@) =~= select_view(m@));
        if m.wf() {
            assert forall|a: int, b: int| 0 <= a < b < r@.len() implies r@[a].0 != r@[b].0 by {
                assert(m@[a].0 != m@[b].0);
            }
        }
    }
    r
}

impl Clone for Next {
    /// A clone has the same view.
    fn clone(&self) -> (r: Self)
        ensures
            r@ == self@,
            next_wf(self@) ==> next_wf(r@),
    {
        match self {
            Next::Now(s) => Next::Now(s.clone()),
            Next::Restart(o) => Next::Restart(
                match o {
                    Option::Some(s) => Option::Some(s.clone()),
                    Option::None => Option::None,
                },
            ),
            Next::Back => Next::Back,
            Next::Clear => Next::Clear,
            Next::Await(s) => Next::Await(s.clone()),
            Next::Select(m) => Next::Select(clone_select(m)),
            Next::Call(s) => Next::Call(s.clone()),
            Next::Exit => Next::Exit,
        }
    }
}

/// Index of the first colon, or `-1`.
pub open spec fn first_colon(s: Seq<char>) -> int
    decreases s.len(),
{
    if s.len() == 0 {
        -1
    } else if s[0] == ':' {
        0
    } else {
        let r = first_colon(s.drop_first());
        if r == -1 {
            -1
        } else {
            r + 1
        }
    }
}

/// The tag text before the first colon.
pub open spec fn colon_head(s: Seq<char>) -> Seq<char> {
    if first_colon(s) < 0 || first_colon(s) >= s.len() {
        s
    } else {
        s.take(first_colon(s))
    }
}

/// The piece between the first and second colon, if there is one; a colon
/// at the very end yields none (terminator rules).
pub open spec fn colon_second(s: Seq<char>) -> Option<Seq<char>> {
    if first_colon(s) < 0 || first_colon(s) >= s.len() {
        Option::None
    } else {
        let rest = s.skip(first_colon(s) + 1);
        if rest.len() == 0 {
            Option::None
        } else if first_colon(rest) < 0 || first_colon(rest) >= rest.len() {
            Option::Some(rest)
        } else {
            Option::Some(rest.take(first_colon(rest)))
        }
    }
}

proof fn lemma_first_colon_none(s: Seq<char>)
    requires
        forall|i: int| 0 <= i < s.len() ==> s[i] != ':',
    ensures
        first_colon(s) == -1,
    decreases s.len(),
{
    if s.len() > 0 {
        assert(forall|i: int|
            0 <= i < s.drop_first().len() ==> #[trigger] s.drop_first()[i] == s[i + 1]);
        lemma_first_colon_none(s.drop_first());
    }
}

proof fn lemma_first_colon_at(s: Seq<char>, k: int)
    requires
        0 <= k < s.len(),
        s[k] == ':',
        forall|i: int| 0 <= i < k ==> s[i] != ':',
    ensures
        first_colon(s) == k,
    decreases s.len(),
{
    if k > 0 {
        assert(forall|i: int|
            0 <= i < s.drop_first().len() ==> #[trigger] s.drop_first()[i] == s[i + 1]);
        lemma_first_colon_at(s.drop_first(), k - 1);
    }
}

/// Scan a string for its first colon.
fn find_colon(s: &str, from: usize) -> (r: Option<usize>)
    requires
        from <= s@.len(),
    ensures
        match r {
            Option::Some(i) => from <= i < s@.len() && s@[i as int] == ':' && (forall|j: int|
                from <= j < i ==> s@[j] != ':'),
            Option::None => forall|j: int| from <= j < s@.len() ==> s@[j] != ':',
        },
{
    let n = s.unicode_len();
    let mut i = from;
    while i < n
        invariant
            from <= i <= n,
            n == s@.len(),
            forall|j: int| from <= j < i ==> s@[j] != ':',
        decreases n - i,
    {
        if s.get_char(i) == ':' {
            return Option::Some(i);
        }
        i = i + 1;
    }
    Option::None
}

/// The head and second piece of a colon-tagged word.
fn colon_pieces(s: &str) -> (r: (String, Option<String>))
    ensures
        r.0@ == colon_head(s@),
        match r.1 {
            Option::Some(p) => colon_second(s@) == Option::Some(p@),
            Option::None => colon_second(s@) is None,
        },
{
    let n = s.unicode_len();
    match find_colon(s, 0) {
        Option::None => {
            proof {
                lemma_first_colon_none(s@);
            }
            let mut head = String::new();
            head.append(s);
            (head, Option::None)
        },
        Option::Some(c1) => {
            proof {
                lemma_first_colon_at(s@, c1 as int);
            }
            let head_str = s.substring_char(0, c1);
            let mut head = String::new();
            head.append(head_str);
            let ghost rest = s@.skip(c1 as int + 1);
            proof {
                assert(forall|j: int|
                    0 <= j < rest.len() ==> #[trigger] rest[j] == s@[c1 + 1 + j]);
            }
            if c1 + 1 >= n {
                proof {
                    assert(rest.len() == 0);
                }
                return (head, Option::None);
            }
            match find_colon(s, c1 + 1) {
                Option::None => {
                    proof {
                        lemma_first_colon_none(rest);
                    }
                    let second_str = s.substring_char(c1 + 1, n);
                    let mut second = String::new();
                    second.append(second_str);
                    proof {
                        assert(second@ =~= rest);
                    }
                    (head, Option::Some(second))
                },
                Option::Some(c2) => {
                    proof {
                        assert(rest[c2 - c1 - 1] == ':');
                        lemma_first_colon_at(rest, c2 - c1 - 1);
                    }
                    let second_str = s.substring_char(c1 + 1, c2);
                    let mut second = String::new();
                    second.append(second_str);
                    proof {
                        assert(second@ =~= rest.take(c2 - c1 - 1));
                    }
                    (head, Option::Some(second))
                },
            }
        },
    }
}

/// First token that is exactly the select tag, or `-1`.
pub open spec fn first_select(ts: Seq<crate::parse::IRV>) -> int
    decreases ts.len(),
{
    if ts.len() == 0 {
        -1
    } else if ts.first() matches crate::parse::IRV::Sym(s) && s == select_tag() {
        0
    } else {
        let r = first_select(ts.drop_first());
        if r == -1 {
            -1
        } else {
            r + 1
        }
    }
}

pub open spec fn select_tag() -> Seq<char> {
    seq!['n', 'e', 'x', 't', ':', 's', 'e', 'l', 'e', 'c', 't']
}

/// The select map a token denotes, if it is a parsable map literal.
pub open spec fn select_of(t: crate::parse::IRV) -> Option<Seq<(Seq<char>, Seq<VarV>)>> {
    if t is MapLit {
        crate::parse::map_parse_v(crate::parse::ir_map_tokens(t))
    } else {
        Option::None
    }
}

/// What a trailing next-tag parses to, and the tokens that remain.  A
/// failed parse may or may not give the inspected tokens back, exactly as
/// the statement builders then see them.
pub open spec fn next_parse_v(ts: Seq<crate::parse::IRV>) -> (
    Option<NextV>,
    Seq<crate::parse::IRV>,
) {
    let si = first_select(ts);
    if si >= 0 {
        if si + 1 >= ts.len() {
            (Option::None, ts.take(si))
        } else {
            let rem = ts.remove(si + 1).remove(si);
            match select_of(ts[si + 1]) {
                Option::Some(m) => (Option::Some(NextV::Select(m)), rem),
                Option::None => (Option::None, rem),
            }
        }
    } else if ts.len() == 0 {
        (Option::None, ts)
    } else if ts.len() >= 2 {
        let node = ts.last();
        let tag = ts[ts.len() - 2];
        let rem = ts.take(ts.len() - 2);
        match tag {
            crate::parse::IRV::Sym(t) => {
                if colon_head(t) == seq!['n', 'e', 'x', 't'] {
                    match colon_second(t) {
                        Option::Some(x) => {
                            if x == seq!['n', 'o', 'w'] {
                                (Option::Some(NextV::Now(crate::parse::ir_text(node))), rem)
                            } else if x == seq!['a', 'w', 'a', 'i', 't'] {
                                (Option::Some(NextV::Await(crate::parse::ir_text(node))), rem)
                            } else if x == seq!['r', 'e', 's', 't', 'a', 'r', 't'] {
                                (
                                    Option::Some(
                                        NextV::Restart(
                                            Option::Some(crate::parse::ir_text(node)),
                                        ),
                                    ),
                                    rem,
                                )
                            } else if x == seq!['c', 'a', 'l', 'l'] {
                                (Option::Some(NextV::Call(crate::parse::ir_text(node))), rem)
                            } else {
                                (Option::None, rem)
                            }
                        },
                        Option::None => (Option::None, rem),
                    }
                } else if colon_second(t) is Some {
                    (Option::None, rem)
                } else {
                    (Option::None, ts)
                }
            },
            _ => (Option::None, ts),
        }
    } else {
        match ts[0] {
            crate::parse::IRV::Sym(t) => {
                if t == seq!['n', 'e', 'x', 't', ':', 'b', 'a', 'c', 'k'] {
                    (Option::Some(NextV::Back), Seq::empty())
                } else if t == seq![
                    'n',
                    'e',
                    'x',
                    't',
                    ':',
                    'r',
                    'e',
                    's',
                    't',
                    'a',
                    'r',
                    't',
                ] {
                    (Option::Some(NextV::Restart(Option::None)), Seq::empty())
                } else if t == seq!['n', 'e', 'x', 't', ':', 'e', 'x', 'i', 't'] {
                    (Option::Some(NextV::Exit), Seq::empty())
                } else if t == seq!['n', 'e', 'x', 't', ':', 'c', 'l', 'e', 'a', 'r'] {
                    (Option::Some(NextV::Clear), Seq::empty())
                } else {
                    (Option::None, ts)
                }
            },
            _ => (Option::None, ts),
        }
    }
}

impl Next {
    /// Parse a trailing next-tag out of a statement's tokens, per
    /// `next_parse_v`; what remains in `exp` is what the statement keeps.
    #[verifier::rlimit(80)]
    #[verifier::spinoff_prover]
    pub fn parse(exp: &mut Vec<crate::parse::IR>) -> (r: Result<Next, &'static str>)
        ensures
            ({
                let spec_out = next_parse_v(crate::var::irs_of(old(exp)@));
                crate::var::irs_of(final(exp)@) == spec_out.1 && match r {
                    Result::Ok(n) => spec_out.0 == Option::Some(n@) && next_wf(n@),
                    Result::Err(_) => spec_out.0 is None,
                }
            }),
    {
        let ghost ts = crate::var::irs_of(exp@);
        proof {
            reveal_strlit("next:select");
            assert("next:select"@ =~= select_tag());
        }
        // Scan for an embedded select.
        let n0 = exp.len();
        let mut si: usize = 0;
        let mut found = false;
        while si < n0 && !found
            invariant
                si <= n0,
                n0 == exp@.len(),
                ts == crate::var::irs_of(exp@),
                ts.len() == n0,
                "next:select"@ == select_tag(),
                !found ==> (forall|j: int|
                    0 <= j < si ==> !((#[trigger] ts[j]) matches crate::parse::IRV::Sym(s) && s
                        == select_tag())),
                found ==> si < n0 && (ts[si as int] matches crate::parse::IRV::Sym(s) && s
                    == select_tag()) && (forall|j: int|
                    0 <= j < si ==> !((#[trigger] ts[j]) matches crate::parse::IRV::Sym(s) && s
                        == select_tag())),
            decreases n0 - si + (if found {
                0int
            } else {
                1int
            }),
        {
            let is_tag = match &exp[si] {
                crate::parse::IR::Sym(s) => crate::text::str_eq_string("next:select", s),
                _ => false,
            };
            if is_tag {
                found = true;
            } else {
                si = si + 1;
            }
        }
        proof {
            if found {
                lemma_first_select_at(ts, si as int);
            } else {
                lemma_first_select_none(ts);
            }
        }
        if found {
            if si + 1 >= exp.len() {
                exp.truncate(si);
                proof {
                    assert(crate::var::irs_of(exp@) =~= ts.take(si as int));
                }
                return Result::Err("Cannot parse map");
            }
            let map_tok = exp.remove(si + 1);
            let _tag = exp.remove(si);
            proof {
                assert(crate::var::irs_of(exp@) =~= ts.remove(si as int + 1).remove(si as int));
                assert(crate::parse::ir_view(map_tok) == ts[si as int + 1]);
            }
            match crate::parse::Parser::parse_map(map_tok) {
                Result::Ok(m) => {
                    proof {
                        assert(next_wf(NextV::Select(select_view(m@))));
                    }
                    Result::Ok(Next::Select(m))
                },
                Result::Err(_) => Result::Err("Cannot parse map"),
            }
        } else {
            if exp.len() == 0 {
                return Result::Err("No Next type found");
            }
            if exp.len() >= 2 {
                let node = exp.pop().unwrap();
                let tag = exp.pop().unwrap();
                proof {
                    assert(crate::parse::ir_view(node) == ts.last());
                    assert(crate::parse::ir_view(tag) == ts[ts.len() - 2]);
                    assert(crate::var::irs_of(exp@) =~= ts.take(ts.len() - 2));
                }
                match tag {
                    crate::parse::IR::Sym(t) => {
                        let (head, second) = colon_pieces(t.as_str());
                        proof {
                            reveal_strlit("next");
                            reveal_strlit("now");
                            reveal_strlit("await");
                            reveal_strlit("restart");
                            reveal_strlit("call");
                            assert("next"@ =~= seq!['n', 'e', 'x', 't']);
                            assert("now"@ =~= seq!['n', 'o', 'w']);
                            assert("await"@ =~= seq!['a', 'w', 'a', 'i', 't']);
                            assert("restart"@ =~= seq!['r', 'e', 's', 't', 'a', 'r', 't']);
                            assert("call"@ =~= seq!['c', 'a', 'l', 'l']);
                        }
                        if crate::text::str_eq_string("next", &head) {
                            match second {
                                Option::Some(x) => {
                                    if crate::text::str_eq_string("now", &x) {
                                        Result::Ok(Next::Now(node.into_text()))
                                    } else if crate::text::str_eq_string("await", &x) {
                                        Result::Ok(Next::Await(node.into_text()))
                                    } else if crate::text::str_eq_string("restart", &x) {
                                        Result::Ok(
                                            Next::Restart(Option::Some(node.into_text())),
                                        )
                                    } else if crate::text::str_eq_string("call", &x) {
                                        Result::Ok(Next::Call(node.into_text()))
                                    } else {
                                        Result::Err("Invalid Next Type Found")
                                    }
                                },
                                Option::None => Result::Err("Invalid Next Type Found"),
                            }
                        } else {
                            match second {
                                Option::Some(_) => Result::Err("Unknown Tag encountered"),
                                Option::None => {
                                    exp.push(crate::parse::IR::Sym(t));
                                    exp.push(node);
                                    proof {
                                        assert(crate::var::irs_of(exp@) =~= ts);
                                    }
                                    Result::Err("Invalid Tag type")
                                },
                            }
                        }
                    },
                    other => {
                        exp.push(other);
                        exp.push(node);
                        proof {
                            assert(crate::var::irs_of(exp@) =~= ts);
                        }
                        Result::Err("Invalid Tag type")
                    },
                }
            } else {
                let node = exp.pop().unwrap();
                proof {
                    assert(crate::parse::ir_view(node) == ts[0]);
                    assert(crate::var::irs_of(exp@) =~= Seq::<crate::parse::IRV>::empty());
                }
                match node {
                    crate::parse::IR::Sym(t) => {
                        proof {
                            reveal_strlit("next:back");
                            reveal_strlit("next:restart");
                            reveal_strlit("next:exit");
                            reveal_strlit("next:clear");
                            assert("next:back"@ =~= seq![
                                'n',
                                'e',
                                'x',
                                't',
                                ':',
                                'b',
                                'a',
                                'c',
                                'k',
                            ]);
                            assert("next:restart"@ =~= seq![
                                'n',
                                'e',
                                'x',
                                't',
                                ':',
                                'r',
                                'e',
                                's',
                                't',
                                'a',
                                'r',
                                't',
                            ]);
                            assert("next:exit"@ =~= seq![
                                'n',
                                'e',
                                'x',
                                't',
                                ':',
                                'e',
                                'x',
                                'i',
                                't',
                            ]);
                            assert("next:clear"@ =~= seq![
                                'n',
                                'e',
                                'x',
                                't',
                                ':',
                                'c',
                                'l',
                                'e',
                                'a',
                                'r',
                            ]);
                        }
                        if crate::text::str_eq_string("next:back", &t) {
                            Result::Ok(Next::Back)
                        } else if crate::text::str_eq_string("next:restart", &t) {
                            Result::Ok(Next::Restart(Option::None))
                        } else if crate::text::str_eq_string("next:exit", &t) {
                            Result::Ok(Next::Exit)
                        } else if crate::text::str_eq_string("next:clear", &t) {
                            Result::Ok(Next::Clear)
                        } else {
                            exp.push(crate::parse::IR::Sym(t));
                            proof {
                                assert(crate::var::irs_of(exp@) =~= ts);
                            }
                            Result::Err("Invalid Tag type")
                        }
                    },
                    other => {
                        exp.push(other);
                        proof {
                            assert(crate::var::irs_of(exp@) =~= ts);
                        }
                        Result::Err("Missing Tag type")
                    },
                }
            }
        }
    }
}

proof fn lemma_first_select_none(ts: Seq<crate::parse::IRV>)
    requires
        forall|j: int|
            0 <= j < ts.len() ==> !((#[trigger] ts[j]) matches crate::parse::IRV::Sym(s) && s
                == select_tag()),
    ensures
        first_select(ts) == -1,
    decreases ts.len(),
{
    if ts.len() > 0 {
        assert(forall|i: int|
            0 <= i < ts.drop_first().len() ==> #[trigger] ts.drop_first()[i] == ts[i + 1]);
        lemma_first_select_none(ts.drop_first());
    }
}

proof fn lemma_first_select_at(ts: Seq<crate::parse::IRV>, k: int)
    requires
        0 <= k < ts.len(),
        ts[k] matches crate::parse::IRV::Sym(s) && s == select_tag(),
        forall|j: int|
            0 <= j < k ==> !((#[trigger] ts[j]) matches crate::parse::IRV::Sym(s) && s
                == select_tag()),
    ensures
        first_select(ts) == k,
    decreases ts.len(),
{
    if k > 0 {
        assert(forall|i: int|
            0 <= i < ts.drop_first().len() ==> #[trigger] ts.drop_first()[i] == ts[i + 1]);
        lemma_first_select_at(ts.drop_first(), k - 1);
    }
}

/// The final colon-separated piece of a tag (terminator rules).
pub open spec fn colon_last(s: Seq<char>) -> Seq<char>
    decreases s.len(),
{
    let c = first_colon(s);
    if c < 0 || c >= s.len() {
        s
    } else {
        let rest = s.skip(c + 1);
        if rest.len() == 0 {
            s.take(c)
        } else {
            colon_last(rest)
        }
    }
}

/// The final colon-separated piece, executably.
fn colon_last_exec(s: &str) -> (r: String)
    ensures
        r@ == colon_last(s@),
{
    let n = s.unicode_len();
    let mut start: usize = 0;
    proof {
        assert(s@.skip(0) =~= s@);
    }
    loop
        invariant
            start <= n,
            n == s@.len(),
            colon_last(s@.skip(start as int)) == colon_last(s@),
        decreases n - start,
    {
        let ghost cur = s@.skip(start as int);
        proof {
            assert(forall|j: int| 0 <= j < cur.len() ==> #[trigger] cur[j] == s@[start + j]);
        }
        match find_colon(s, start) {
            Option::None => {
                proof {
                    lemma_first_colon_none(cur);
                }
                let piece = s.substring_char(start, n);
                let mut out = String::new();
                out.append(piece);
                proof {
                    assert(out@ =~= cur);
                }
                return out;
            },
            Option::Some(c) => {
                proof {
                    assert(cur[c - start] == ':');
                    lemma_first_colon_at(cur, c - start);
                }
                if c + 1 >= n {
                    proof {
                        assert(cur.skip(c - start + 1).len() == 0);
                    }
                    let piece = s.substring_char(start, c);
                    let mut out = String::new();
                    out.append(piece);
                    proof {
                        assert(out@ =~= cur.take(c - start));
                    }
                    return out;
                }
                proof {
                    assert(cur.skip(c - start + 1) =~= s@.skip(c + 1));
                }
                start = c + 1;
            },
        }
    }
}

/// Decide truthiness of a name, per `if_truthy_v`.
pub fn truthy(name: &String, logic: &Logics, def: &Def) -> (r: bool)
    requires
        logic.wf(),
        logics_wf(assoc_deep(logic@)),
        def_wf(def@),
    ensures
        r == if_truthy_v(name@, assoc_deep(logic@), def@),
{
    proof {
        lemma_resolve_wf(name@, assoc_deep(logic@), def@, LOGIC_FUEL as nat);
    }
    match resolve_fueled(name.as_str(), logic, def, LOGIC_FUEL) {
        Option::Some(v) => {
            match &v {
                Var::Bool(b) => *b,
                _ => {
                    let text = v.to_string();
                    !string_eq(name, &text)
                },
            }
        },
        Option::None => false,
    }
}

/// Apply one mutation to the store.
fn mut_eval<F: FunRegistry>(
    m: &Mut,
    path: &String,
    args: &Vec<Var>,
    logic: &Logics,
    def: &mut Def,
    fun: &mut F,
)
    requires
        logic.wf(),
        logics_wf(assoc_deep(logic@)),
        def_wf(old(def)@),
        vars_wf(vars_view(args@)),
    ensures
        exists|ret: Option<VarV>|
            ret_wf(ret) && final(def)@ == #[trigger] mut_apply(
                m@,
                path@,
                vars_view(args@),
                old(def)@,
                ret,
            ),
        !(m@ is Fn) ==> final(def)@ == mut_apply(
            m@,
            path@,
            vars_view(args@),
            old(def)@,
            Option::None,
        ),
        def_wf(final(def)@),
{
    proof {
        assert(mut_apply(
            m@,
            path@,
            vars_view(args@),
            old(def)@,
            Option::<VarV>::None,
        ) == mut_apply(m@, path@, vars_view(args@), old(def)@, Option::<VarV>::None));
    }
    let is_arith = match m {
        Mut::Add => true,
        Mut::Sub => true,
        Mut::Mul => true,
        Mut::Div => true,
        _ => false,
    };
    if is_arith {
        if args.len() == 0 {
            return ;
        }
        let target = Var::Sym(path.clone());
        let v1 = target.get_num(def);
        match v1 {
            Result::Ok(x) => {
                proof {
                    assert(vars_view(args@)[0] == args@[0]@);
                    assert(var_wf(args@[0]@));
                }
                let v2 = args[0].get_num(def);
                match v2 {
                    Result::Ok(y) => {
                        let res: Option<Num> = match m {
                            Mut::Add => x.checked_add(y),
                            Mut::Sub => x.checked_sub(y),
                            Mut::Mul => x.checked_mul(y),
                            _ => x.checked_div(y),
                        };
                        proof {
                            assert(res == num_checked(m@, x, y));
                        }
                        match res {
                            Option::Some(n) => {
                                def.set_path(path.as_str(), Var::Num(n));
                            },
                            Option::None => {},
                        }
                    },
                    Result::Err(_) => {},
                }
            },
            Result::Err(_) => {},
        }
    } else {
        match m {
            Mut::Swap => {
                if args.len() >= 1 {
                    proof {
                        assert(vars_view(args@)[0] == args@[0]@);
                        assert(var_wf(args@[0]@));
                    }
                    def.set_path(path.as_str(), args[0].clone());
                }
            },
            Mut::New => {
                if args.len() >= 1 {
                    match &args[0] {
                        Var::Sym(s) => {
                            let copied: Option<crate::def::DefBlock> = match def.get(
                                s.as_str(),
                            ) {
                                Option::Some(b) => {
                                    proof {
                                        let i = crate::strmap::assoc_idx(def@, s@);
                                        assert(0 <= i < def@.len() && def@[i].0 == s@);
                                        assert(def_block_wf(def@[i].1));
                                    }
                                    Option::Some(b.duplicate())
                                },
                                Option::None => Option::None,
                            };
                            match copied {
                                Option::Some(b2) => {
                                    proof {
                                        assert(def_block_wf(b2@));
                                    }
                                    def.insert(path.clone(), b2);
                                },
                                Option::None => {},
                            }
                        },
                        _ => {},
                    }
                }
            },
            Mut::Fn(name) => {
                let fargs = resolve_fn_args(args, logic, def);
                let ret = fun.call(name.as_str(), &fargs, def);
                match ret {
                    Option::Some(rv) => {
                        let ghost rvv = rv@;
                        def.set_path(path.as_str(), rv);
                        proof {
                            assert(def@ == mut_apply(
                                m@,
                                path@,
                                vars_view(args@),
                                old(def)@,
                                Option::Some(rvv),
                            ));
                        }
                    },
                    Option::None => {
                        proof {
                            assert(def@ == mut_apply(
                                m@,
                                path@,
                                vars_view(args@),
                                old(def)@,
                                Option::<VarV>::None,
                            ));
                        }
                    },
                }
            },
            _ => {},
        }
    }
}


/// The relation holds of one executed statement; stated as a lemma so each
/// evaluation arm discharges it in a query of its own.
proof fn lemma_rel_done(
    s: SrcV,
    l0: Seq<(Seq<char>, LogicV)>,
    l1: Seq<(Seq<char>, LogicV)>,
    d0: Seq<(Seq<char>, DefBlockV)>,
    d1: Seq<(Seq<char>, DefBlockV)>,
    vals: Seq<VarV>,
    nxt: Option<NextV>,
)
    requires
        stmt_eval_rel(s, l0, l1, d0, d1, vals, nxt),
    ensures
        stmt_eval_rel(s, l0, l1, d0, d1, vals, nxt),
{
}

impl Src {
    /// Execute this statement against the block-local predicate table, the
    /// data store and the host registry; yields the emitted values and an
    /// optional next-action, per `stmt_eval_rel`.
    #[verifier::rlimit(100)]
    #[verifier::spinoff_prover]
    pub fn eval<F: FunRegistry>(
        &self,
        logic: &mut Logics,
        def: &mut Def,
        fun: &mut F,
    ) -> (r: (Vec<Var>, Option<Next>))
        requires
            old(logic).wf(),
            logics_wf(assoc_deep(old(logic)@)),
            def_wf(old(def)@),
            src_wf(self@),
        ensures
            stmt_eval_rel(
                self@,
                assoc_deep(old(logic)@),
                assoc_deep(final(logic)@),
                old(def)@,
                final(def)@,
                vars_view(r.0@),
                next_opt_view(r.1),
            ),
            final(logic).wf(),
            logics_wf(assoc_deep(final(logic)@)),
            def_wf(final(def)@),
            vars_wf(vars_view(r.0@)),
            next_opt_wf(next_opt_view(r.1)),
    {
        let r = match self {
            Src::Mut(m, v, a) => {
                mut_eval(m, v, a, logic, def, fun);
                let out: (Vec<Var>, Option<Next>) = (Vec::new(), Option::None);
                proof {
                    assert(self@ == SrcV::Mut((*m)@, (*v)@, vars_view(a@)));
                    let ri = choose|ret: Option<VarV>|
                        ret_wf(ret) && def@ == #[trigger] mut_apply(
                            (*m)@,
                            (*v)@,
                            vars_view(a@),
                            old(def)@,
                            ret,
                        );
                    assert(ret_wf(ri) && def@ == mut_apply(
                        self@->Mut_0,
                        self@->Mut_1,
                        self@->Mut_2,
                        old(def)@,
                        ri,
                    ));
                    assert(stmt_eval_rel(
                        self@,
                        assoc_deep(old(logic)@),
                        assoc_deep(logic@),
                        old(def)@,
                        def@,
                        vars_view(out.0@),
                        next_opt_view(out.1),
                    ));
                }
                out
            },
            Src::Next(next) => {
                proof {
                    assert(next_wf(next@));
                }
                let copied = next.clone();
                proof {
                    assert(self@ == SrcV::Next((*next)@));
                    assert(copied@ == (*next)@);
                }
                (Vec::new(), Option::Some(copied))
            },
            Src::Or(vars, next) => {
                let cv = clone_vars(vars);
                let cn = clone_next_opt(next);
                proof {
                    assert(self@ == SrcV::Or(vars_view(vars@), next_opt_view(*next)));
                    assert(vars_view(cv@) == vars_view(vars@));
                    assert(next_opt_view(cn) == next_opt_view(*next));
                }
                (cv, cn)
            },
            Src::Emit(vars) => {
                let cv = clone_vars(vars);
                proof {
                    assert(vars_view(cv@) == vars_view(vars@));
                }
                (cv, Option::None)
            },
            Src::Logic(name, logic_src) => {
                proof {
                    lemma_deep_keys(logic@);
                }
                if !logic.contains_key(name.as_str()) {
                    let lfn = logic_src.eval();
                    let ghost lfng = lfn;
                    let ghost namev = name@;
                    logic.insert(name.clone(), lfn);
                    proof {
                        lemma_deep_set(old(logic)@, namev, lfng);
                        lemma_assoc_set_unique(assoc_deep(old(logic)@), namev, lfng@);
                        assert forall|i: int|
                            0 <= i < assoc_deep(logic@).len() implies logic_wf(
                            #[trigger] assoc_deep(logic@)[i].1,
                        ) by {
                            if i < assoc_deep(old(logic)@).len() {
                                assert(assoc_deep(logic@)[i].1 == assoc_deep(
                                    old(logic)@,
                                )[i].1);
                            } else {
                                assert(assoc_deep(logic@)[i].1 == lfng@);
                            }
                        }
                    }
                }
                proof {
                    assert(self@ == SrcV::Logic((*name)@, (*logic_src)@));
                    assert(assoc_deep(logic@) == (if assoc_has(
                        assoc_deep(old(logic)@),
                        (*name)@,
                    ) {
                        assoc_deep(old(logic)@)
                    } else {
                        assoc_set(assoc_deep(old(logic)@), (*name)@, (*logic_src)@)
                    }));
                }
                (Vec::new(), Option::None)
            },
            Src::If(lookup, v, next) => {
                let t = truthy(lookup, logic, def);
                proof {
                    assert(t == if_truthy_v((*lookup)@, assoc_deep(logic@), def@));
                    assert(self@ == SrcV::If(
                        (*lookup)@,
                        vars_view(v@),
                        next_opt_view(*next),
                    ));
                }
                if t {
                    (clone_vars(v), clone_next_opt(next))
                } else {
                    (Vec::new(), Option::None)
                }
            },
            Src::When(map) => {
                let ghost entries = when_view(map@);
                let ghost lv = assoc_deep(logic@);
                let ghost d0 = def@;
                let ghost mut rets: Seq<Option<VarV>> = Seq::empty();
                let n = map.len();
                let mut i: usize = 0;
                proof {
                    assert(entries.skip(0) =~= entries);
                    assert forall|rets2: Seq<Option<VarV>>|
                        #[trigger] when_apply(entries.skip(0), lv, def@, rets2) == when_apply(
                        entries,
                        lv,
                        d0,
                        rets + rets2,
                    ) by {
                        assert(rets + rets2 =~= rets2);
                    }
                }
                while i < n
                    invariant
                        i <= n,
                        n == map@.len(),
                        entries == when_view(map@),
                        lv == assoc_deep(logic@),
                        logic.wf(),
                        logics_wf(lv),
                        def_wf(def@),
                        src_wf(SrcV::When(entries)),
                        rets_wf(rets),
                        forall|rets2: Seq<Option<VarV>>|
                            #[trigger] when_apply(entries.skip(i as int), lv, def@, rets2)
                                == when_apply(entries, lv, d0, rets + rets2),
                    decreases n - i,
                {
                    let key = map.key_at(i).clone();
                    proof {
                        assert(key@ == entries[i as int].0);
                        assert(entries.skip(i as int).first() == entries[i as int]);
                        assert(entries.skip(i as int).drop_first() =~= entries.skip(
                            i as int + 1,
                        ));
                        assert(entries.skip(i as int).len() > 0);
                    }
                    let t = truthy(&key, logic, def);
                    if t {
                        let e = map.val_at(i);
                        proof {
                            assert(when_view(map@)[i as int].1 == (e.0@, e.1@, vars_view(
                                e.2@,
                            )));
                            assert(vars_wf(entries[i as int].1.2));
                        }
                        let ghost dpre = def@;
                        let ghost rets0 = rets;
                        mut_eval(&e.0, &e.1, &e.2, logic, def, fun);
                        proof {
                            let ri = choose|ret: Option<VarV>|
                                ret_wf(ret) && def@ == #[trigger] mut_apply(
                                    e.0@,
                                    e.1@,
                                    vars_view(e.2@),
                                    dpre,
                                    ret,
                                );
                            assert(ret_wf(ri) && def@ == mut_apply(
                                e.0@,
                                e.1@,
                                vars_view(e.2@),
                                dpre,
                                ri,
                            ));
                            rets = rets0.push(ri);
                            assert forall|rets2: Seq<Option<VarV>>|
                                #[trigger] when_apply(
                                    entries.skip(i as int + 1),
                                    lv,
                                    def@,
                                    rets2,
                                ) == when_apply(entries, lv, d0, rets + rets2) by {
                                let mid = seq![ri] + rets2;
                                assert(mid.len() > 0);
                                assert(mid.first() == ri);
                                assert(mid.drop_first() =~= rets2);
                                assert(entries[i as int].1.0 == e.0@);
                                assert(entries[i as int].1.1 == e.1@);
                                assert(entries[i as int].1.2 == vars_view(e.2@));
                                assert(when_apply(entries.skip(i as int), lv, dpre, mid)
                                    == when_apply(entries.skip(i as int + 1), lv, def@, rets2));
                                assert(rets0 + mid =~= rets + rets2);
                                assert(when_apply(entries.skip(i as int), lv, dpre, mid)
                                    == when_apply(entries, lv, d0, rets0 + mid));
                            }
                        }
                    } else {
                        proof {
                            assert forall|rets2: Seq<Option<VarV>>|
                                #[trigger] when_apply(
                                    entries.skip(i as int + 1),
                                    lv,
                                    def@,
                                    rets2,
                                ) == when_apply(entries, lv, d0, rets + rets2) by {
                                assert(when_apply(entries.skip(i as int), lv, def@, rets2)
                                    == when_apply(entries.skip(i as int + 1), lv, def@, rets2));
                            }
                        }
                    }
                    i = i + 1;
                }
                proof {
                    assert(entries.skip(n as int) =~= Seq::<
                        (Seq<char>, (MutV, Seq<char>, Seq<VarV>)),
                    >::empty());
                    assert(when_apply(entries.skip(n as int), lv, def@, Seq::empty()) == def@);
                    assert(rets + Seq::<Option<VarV>>::empty() =~= rets);
                    assert(def@ == when_apply(entries, lv, d0, rets));
                    assert(self@ == SrcV::When(entries));
                    assert(exists|rets2: Seq<Option<VarV>>|
                        rets_wf(rets2) && def@ == #[trigger] when_apply(
                            entries,
                            lv,
                            d0,
                            rets2,
                        )) by {
                        assert(rets_wf(rets) && def@ == when_apply(entries, lv, d0, rets));
                    }
                }
                (Vec::new(), Option::None)
            },
        };
        proof {
            assert(stmt_eval_rel(
                self@,
                assoc_deep(old(logic)@),
                assoc_deep(logic@),
                old(def)@,
                def@,
                vars_view(r.0@),
                next_opt_view(r.1),
            ));
        }
        r
    }
}

/// An optional next-action, copied.
pub fn clone_next_opt(n: &Option<Next>) -> (r: Option<Next>)
    requires
        next_opt_wf(next_opt_view(*n)),
    ensures
        next_opt_view(r) == next_opt_view(*n),
        next_opt_wf(next_opt_view(r)),
{
    match n {
        Option::Some(x) => Option::Some(x.clone()),
        Option::None => Option::None,
    }
}

} // verus!
