//! Predicates over the data store, and their compiled form.
//!
//! A `Logic` is a boolean test: identity, negation, numeric comparison, or
//! a composite over named members.  Compiling a `Logic` yields a `LogicFn`,
//! a thunk run against the store and the sibling predicate table.  A run
//! yields `Some(truth)` or `None` ("no result", treated as false by
//! callers).

use vstd::prelude::*;
use crate::var::{Var, VarV, var_wf, var_string, num_of_var, vars_view};
use crate::num::num_lt;
use crate::def::{Def, DefBlockV, def_wf, def_get_last};
use crate::strmap::{StrMap, assoc_has, assoc_get, assoc_deep, keys_unique, lemma_deep_keys,
    lemma_deep_get};
use crate::parse::{IR, IRV, ir_text, ir_view};
use crate::text::string_eq;

verus! {

/// How many predicate indirections a resolution will follow.
pub const LOGIC_FUEL: u64 = 64;

/// Composite kinds.
#[derive(Debug, PartialEq, Clone, Copy, Eq, Structural)]
pub enum Expect {
    /// At least one truth and no observed falsehood.
    All,
    /// At least one truth.
    Any,
    /// No truth and at least one observed falsehood.
    Nil,
}

pub open spec fn expect_of(s: Seq<char>) -> Expect {
    if s == seq!['a', 'l', 'l'] {
        Expect::All
    } else if s == seq!['a', 'n', 'y'] {
        Expect::Any
    } else {
        Expect::Nil
    }
}

impl Expect {
    /// The composite kind a tag names; anything unknown reads as `Nil`.
    pub fn parse(s: String) -> (r: Expect)
        ensures
            r == expect_of(s@),
    {
        proof {
            reveal_strlit("all");
            reveal_strlit("any");
            assert("all"@ =~= seq!['a', 'l', 'l']);
            assert("any"@ =~= seq!['a', 'n', 'y']);
        }
        if crate::text::str_eq_string("all", &s) {
            Expect::All
        } else if crate::text::str_eq_string("any", &s) {
            Expect::Any
        } else {
            Expect::Nil
        }
    }
}

/// A predicate.
#[derive(Debug, PartialEq)]
pub enum Logic {
    /// Greater-than over two numeric operands.
    GT(Var, Var),
    /// Less-than over two numeric operands.
    LT(Var, Var),
    /// Truth of a resolved name; existence for non-boolean values.
    Is(String),
    /// Negation; an unresolved name reads as true.
    IsNot(String),
    /// A composite over named members.
    Composite(Expect, Vec<String>),
}

/// The mathematical shape of a predicate.
pub enum LogicV {
    GT(VarV, VarV),
    LT(VarV, VarV),
    Is(Seq<char>),
    IsNot(Seq<char>),
    Composite(Expect, Seq<Seq<char>>),
}

pub open spec fn names_view(v: Seq<String>) -> Seq<Seq<char>> {
    Seq::new(v.len(), |i: int| v[i]@)
}

impl View for Logic {
    type V = LogicV;

    open spec fn view(&self) -> LogicV {
        match *self {
            Logic::GT(ref a, ref b) => LogicV::GT(a@, b@),
            Logic::LT(ref a, ref b) => LogicV::LT(a@, b@),
            Logic::Is(ref s) => LogicV::Is(s@),
            Logic::IsNot(ref s) => LogicV::IsNot(s@),
            Logic::Composite(x, ref v) => LogicV::Composite(x, names_view(v@)),
        }
    }
}

/// Operands of a comparison are well formed.
pub open spec fn logic_wf(l: LogicV) -> bool {
    match l {
        LogicV::GT(a, b) => var_wf(a) && var_wf(b),
        LogicV::LT(a, b) => var_wf(a) && var_wf(b),
        _ => true,
    }
}

impl Clone for Logic {
    /// A clone is the same predicate.
    fn clone(&self) -> (r: Self)
        ensures
            r@ == self@,
    {
        match self {
            Logic::GT(a, b) => Logic::GT(a.clone(), b.clone()),
            Logic::LT(a, b) => Logic::LT(a.clone(), b.clone()),
            Logic::Is(s) => Logic::Is(s.clone()),
            Logic::IsNot(s) => Logic::IsNot(s.clone()),
            Logic::Composite(x, v) => {
                let mut names: Vec<String> = Vec::new();
                let n = v.len();
                let mut i: usize = 0;
                while i < n
                    invariant
                        i <= n,
                        n == v@.len(),
                        names@.len() == i,
                        forall|j: int| 0 <= j < i ==> #[trigger] names@[j]@ == v@[j]@,
                    decreases n - i,
                {
                    names.push(v[i].clone());
                    i = i + 1;
                }
                let r = Logic::Composite(*x, names);
                proof {
                    assert(names_view(names@) =~= names_view(v@));
                }
                r
            },
        }
    }
}

/// A compiled predicate: a thunk holding the predicate it interprets.
#[derive(Debug, PartialEq)]
pub struct LogicFn(pub Logic);

impl View for LogicFn {
    type V = LogicV;

    open spec fn view(&self) -> LogicV {
        self.0@
    }
}

/// The block-local table of compiled predicates.
pub type Logics = StrMap<LogicFn>;

/// Resolution of a name: a compiled predicate shadows the data store; a
/// store hit counts only when the chain ended at a concrete value.
pub open spec fn resolve_v(
    name: Seq<char>,
    logics: Seq<(Seq<char>, LogicV)>,
    def: Seq<(Seq<char>, DefBlockV)>,
    fuel: nat,
) -> Option<VarV>
    decreases fuel, 0int, 0int,
{
    if assoc_has(logics, name) {
        if fuel == 0 {
            Option::None
        } else {
            match logic_run_v(assoc_get(logics, name), def, logics, (fuel - 1) as nat) {
                Option::Some(b) => Option::Some(VarV::Bool(b)),
                Option::None => Option::None,
            }
        }
    } else {
        match def_get_last(def, name) {
            Option::Some(p) => if p.1 {
                Option::Some(p.0)
            } else {
                Option::None
            },
            Option::None => Option::None,
        }
    }
}

/// Truth/falsehood counts over a composite's members: a resolved boolean
/// counts as itself; a resolved non-boolean counts as true unless it reads
/// back as the member's own name; an unresolved member counts as neither.
pub open spec fn comp_counts(
    names: Seq<Seq<char>>,
    logics: Seq<(Seq<char>, LogicV)>,
    def: Seq<(Seq<char>, DefBlockV)>,
    fuel: nat,
) -> (bool, bool)
    decreases fuel, 2int, names.len(),
{
    if names.len() == 0 {
        (false, false)
    } else {
        let prev = comp_counts(names.drop_last(), logics, def, fuel);
        let name = names.last();
        match resolve_v(name, logics, def, fuel) {
            Option::Some(v) => match v {
                VarV::Bool(b) => if b {
                    (true, prev.1)
                } else {
                    (prev.0, true)
                },
                _ => if name != var_string(v) {
                    (true, prev.1)
                } else {
                    (prev.0, true)
                },
            },
            Option::None => prev,
        }
    }
}

/// What running a compiled predicate yields.
pub open spec fn logic_run_v(
    l: LogicV,
    def: Seq<(Seq<char>, DefBlockV)>,
    logics: Seq<(Seq<char>, LogicV)>,
    fuel: nat,
) -> Option<bool>
    decreases fuel, 3int, 0int,
{
    match l {
        LogicV::Is(k) => match resolve_v(k, logics, def, fuel) {
            Option::Some(v) => match v {
                VarV::Bool(b) => Option::Some(b),
                _ => Option::Some(true),
            },
            Option::None => Option::Some(false),
        },
        LogicV::IsNot(k) => match resolve_v(k, logics, def, fuel) {
            Option::Some(v) => match v {
                VarV::Bool(b) => Option::Some(!b),
                _ => Option::Some(false),
            },
            Option::None => Option::Some(true),
        },
        LogicV::GT(a, b) => match (num_of_var(a, def), num_of_var(b, def)) {
            (Option::Some(x), Option::Some(y)) => Option::Some(num_lt(y, x)),
            _ => Option::None,
        },
        LogicV::LT(a, b) => match (num_of_var(a, def), num_of_var(b, def)) {
            (Option::Some(x), Option::Some(y)) => Option::Some(num_lt(x, y)),
            _ => Option::None,
        },
        LogicV::Composite(x, names) => {
            let c = comp_counts(names, logics, def, fuel);
            match x {
                Expect::All => Option::Some(c.0 && !c.1),
                Expect::Any => Option::Some(c.0),
                Expect::Nil => Option::Some(!c.0 && c.1),
            }
        },
    }
}

/// Resolution with the standard budget.
pub open spec fn resolve_full(
    name: Seq<char>,
    logics: Seq<(Seq<char>, LogicV)>,
    def: Seq<(Seq<char>, DefBlockV)>,
) -> Option<VarV> {
    resolve_v(name, logics, def, LOGIC_FUEL as nat)
}

/// Every table of compiled predicates used below is well formed.
pub open spec fn logics_wf(logics: Seq<(Seq<char>, LogicV)>) -> bool {
    &&& keys_unique(logics)
    &&& forall|i: int| 0 <= i < logics.len() ==> logic_wf(#[trigger] logics[i].1)
}

/// Whatever resolution returns is a well-formed value.
pub proof fn lemma_resolve_wf(
    name: Seq<char>,
    logics: Seq<(Seq<char>, LogicV)>,
    def: Seq<(Seq<char>, DefBlockV)>,
    fuel: nat,
)
    requires
        def_wf(def),
    ensures
        match resolve_v(name, logics, def, fuel) {
            Option::Some(v) => var_wf(v),
            Option::None => true,
        },
{
    if assoc_has(logics, name) {
    } else {
        crate::def::lemma_chain_wf(def, name, crate::def::CHAIN_FUEL as nat, Option::None);
    }
}

/// Resolve a name against a predicate table and the data store.
pub(crate) fn resolve_fueled(
    s: &str,
    logic: &Logics,
    def: &Def,
    fuel: u64,
) -> (r: Option<Var>)
    requires
        logic.wf(),
        logics_wf(assoc_deep(logic@)),
        def_wf(def@),
    ensures
        match r {
            Option::Some(v) => resolve_v(s@, assoc_deep(logic@), def@, fuel as nat)
                == Option::Some(v@) && var_wf(v@),
            Option::None => resolve_v(s@, assoc_deep(logic@), def@, fuel as nat) is None,
        },
    decreases fuel, 0int, 0int,
{
    proof {
        lemma_deep_keys(logic@);
        lemma_resolve_wf(s@, assoc_deep(logic@), def@, fuel as nat);
    }
    match logic.get(s) {
        Option::Some(lfn) => {
            proof {
                lemma_deep_get(logic@, s@);
                let i = crate::strmap::assoc_idx(assoc_deep(logic@), s@);
                assert(0 <= i < assoc_deep(logic@).len() && assoc_deep(logic@)[i].0 == s@);
                assert(logic_wf(assoc_deep(logic@)[i].1));
                assert((*lfn)@ == assoc_get(assoc_deep(logic@), s@));
            }
            if fuel == 0 {
                return Option::None;
            }
            match lfn.run_fueled(def, logic, fuel - 1) {
                Option::Some(b) => Option::Some(Var::Bool(b)),
                Option::None => Option::None,
            }
        },
        Option::None => {
            proof {
                lemma_deep_keys(logic@);
            }
            match def.get_last(s) {
                Option::Some(p) => {
                    if p.1 {
                        Option::Some(p.0)
                    } else {
                        Option::None
                    }
                },
                Option::None => Option::None,
            }
        },
    }
}

impl LogicFn {
    /// Run this compiled predicate with a given indirection budget.
    pub(crate) fn run_fueled(&self, def: &Def, logic: &Logics, fuel: u64) -> (r: Option<
        bool,
    >)
        requires
            logic.wf(),
            logics_wf(assoc_deep(logic@)),
            logic_wf(self@),
            def_wf(def@),
        ensures
            r == logic_run_v(self@, def@, assoc_deep(logic@), fuel as nat),
        decreases fuel, 3int, 0int,
    {
        match &self.0 {
            Logic::Is(k) => {
                match resolve_fueled(k.as_str(), logic, def, fuel) {
                    Option::Some(v) => match v {
                        Var::Bool(b) => Option::Some(b),
                        _ => Option::Some(true),
                    },
                    Option::None => Option::Some(false),
                }
            },
            Logic::IsNot(k) => {
                match resolve_fueled(k.as_str(), logic, def, fuel) {
                    Option::Some(v) => match v {
                        Var::Bool(b) => Option::Some(!b),
                        _ => Option::Some(false),
                    },
                    Option::None => Option::Some(true),
                }
            },
            Logic::GT(a, b) => {
                let x = a.get_num(def);
                let y = b.get_num(def);
                match (x, y) {
                    (Result::Ok(xv), Result::Ok(yv)) => Option::Some(xv.gt(yv)),
                    _ => Option::None,
                }
            },
            Logic::LT(a, b) => {
                let x = a.get_num(def);
                let y = b.get_num(def);
                match (x, y) {
                    (Result::Ok(xv), Result::Ok(yv)) => Option::Some(xv.lt(yv)),
                    _ => Option::None,
                }
            },
            Logic::Composite(x, names) => {
                let ghost nv = names_view(names@);
                let mut comp_true = false;
                let mut comp_false = false;
                let n = names.len();
                let mut i: usize = 0;
                proof {
                    assert(nv.take(0) =~= Seq::<Seq<char>>::empty());
                }
                while i < n
                    invariant
                        i <= n,
                        n == names@.len(),
                        nv == names_view(names@),
                        logic.wf(),
                        logics_wf(assoc_deep(logic@)),
                        def_wf(def@),
                        (comp_true, comp_false) == comp_counts(
                            nv.take(i as int),
                            assoc_deep(logic@),
                            def@,
                            fuel as nat,
                        ),
                    decreases n - i,
                {
                    proof {
                        assert(nv.take(i + 1).drop_last() =~= nv.take(i as int));
                        assert(nv.take(i + 1).last() == nv[i as int]);
                        assert(names@[i as int]@ == nv[i as int]);
                    }
                    let name = &names[i];
                    match resolve_fueled(name.as_str(), logic, def, fuel) {
                        Option::Some(v) => {
                            match &v {
                                Var::Bool(b) => {
                                    if *b {
                                        comp_true = true;
                                    } else {
                                        comp_false = true;
                                    }
                                },
                                _ => {
                                    proof {
                                        lemma_resolve_wf(
                                            name@,
                                            assoc_deep(logic@),
                                            def@,
                                            fuel as nat,
                                        );
                                    }
                                    let text = v.to_string();
                                    if !string_eq(name, &text) {
                                        comp_true = true;
                                    } else {
                                        comp_false = true;
                                    }
                                },
                            }
                        },
                        Option::None => {},
                    }
                    i = i + 1;
                }
                proof {
                    assert(nv.take(n as int) =~= nv);
                }
                match x {
                    Expect::All => Option::Some(comp_true && !comp_false),
                    Expect::Any => Option::Some(comp_true),
                    Expect::Nil => Option::Some(!comp_true && comp_false),
                }
            },
        }
    }

    /// Run this compiled predicate with the standard budget.
    pub fn run(&self, def: &Def, logic: &Logics) -> (r: Option<bool>)
        requires
            logic.wf(),
            logics_wf(assoc_deep(logic@)),
            logic_wf(self@),
            def_wf(def@),
        ensures
            r == logic_run_v(self@, def@, assoc_deep(logic@), LOGIC_FUEL as nat),
    {
        self.run_fueled(def, logic, LOGIC_FUEL)
    }
}

/// What a predicate's tokens parse to.
pub open spec fn logic_parse_v(ts: Seq<IRV>) -> Option<LogicV> {
    if ts.len() == 1 {
        let text = ir_text(ts[0]);
        if text.len() == 0 {
            Option::None
        } else if text[0] == '!' {
            Option::Some(LogicV::IsNot(text.drop_first()))
        } else {
            Option::Some(LogicV::Is(text))
        }
    } else if ts.len() == 3 {
        let sym = ir_text(ts[1]);
        match (crate::var::var_of_ir(ts[0]), crate::var::var_of_ir(ts[2])) {
            (Option::Some(key), Option::Some(var)) => if sym == seq!['>'] {
                Option::Some(LogicV::GT(key, var))
            } else if sym == seq!['<'] {
                Option::Some(LogicV::LT(key, var))
            } else {
                Option::None
            },
            _ => Option::None,
        }
    } else {
        Option::None
    }
}

impl Logic {
    /// Parse a predicate's right-hand tokens: a single (possibly negated)
    /// name, or a comparison of two values.
    pub fn parse(exp: Vec<IR>) -> (r: Result<Logic, &'static str>)
        ensures
            match r {
                Result::Ok(l) => logic_parse_v(crate::var::irs_of(exp@)) == Option::Some(l@)
                    && logic_wf(l@),
                Result::Err(_) => logic_parse_v(crate::var::irs_of(exp@)) is None,
            },
    {
        let ghost ts = crate::var::irs_of(exp@);
        let mut exp = exp;
        let len = exp.len();
        if len == 1 {
            let tok = exp.pop().unwrap();
            proof {
                assert(ir_view(tok) == ts[0]);
            }
            let text = tok.into_text();
            let n = text.as_str().unicode_len();
            if n == 0 {
                return Result::Err("Unbalanced Logic Syntax");
            }
            if text.as_str().get_char(0) == '!' {
                let restr = text.as_str().substring_char(1, n);
                let mut name = String::new();
                name.append(restr);
                proof {
                    assert(name@ =~= ir_text(ts[0]).drop_first());
                }
                Result::Ok(Logic::IsNot(name))
            } else {
                Result::Ok(Logic::Is(text))
            }
        } else if len == 3 {
            let var_tok = exp.pop().unwrap();
            let sym_tok = exp.pop().unwrap();
            let key_tok = exp.pop().unwrap();
            proof {
                assert(ir_view(var_tok) == ts[2]);
                assert(ir_view(sym_tok) == ts[1]);
                assert(ir_view(key_tok) == ts[0]);
            }
            let var = match Var::parse(var_tok) {
                Result::Ok(v) => v,
                Result::Err(e) => {
                    return Result::Err(e);
                },
            };
            let sym = sym_tok.into_text();
            let key = match Var::parse(key_tok) {
                Result::Ok(v) => v,
                Result::Err(e) => {
                    return Result::Err(e);
                },
            };
            proof {
                reveal_strlit(">");
                reveal_strlit("<");
                assert(">"@ =~= seq!['>']);
                assert("<"@ =~= seq!['<']);
            }
            if crate::text::str_eq_string(">", &sym) {
                Result::Ok(Logic::GT(key, var))
            } else if crate::text::str_eq_string("<", &sym) {
                Result::Ok(Logic::LT(key, var))
            } else {
                Result::Err("Invalid Logic Syntax")
            }
        } else {
            Result::Err("Unbalanced Logic Syntax")
        }
    }

    /// Parse a composite predicate: the kind from the final tag, and the
    /// member names from the remaining tokens.
    pub fn parse_comp(keys: Vec<&str>, exp: Vec<IR>) -> (r: Result<Logic, &'static str>)
        requires
            keys@.len() >= 1,
        ensures
            match r {
                Result::Ok(l) => l@ == LogicV::Composite(
                    expect_of(keys@.last()@),
                    Seq::new(exp@.len(), |i: int| ir_text(ir_view(exp@[i]))),
                ),
                Result::Err(_) => false,
            },
    {
        let ghost ts = crate::var::irs_of(exp@);
        let ghost exp0 = exp@;
        let mut keys = keys;
        let mut exp = exp;
        let tag = keys.pop().unwrap();
        let mut tag_owned = String::new();
        tag_owned.append(tag);
        let kind = Expect::parse(tag_owned);
        let mut names: Vec<String> = Vec::new();
        let n = exp.len();
        let mut i: usize = 0;
        while i < n
            invariant
                i <= n,
                n == exp@.len(),
                ts.len() == n,
                forall|j: int| i <= j < n ==> ir_view(#[trigger] exp@[j]) == ts[j],
                names@.len() == i,
                forall|j: int| 0 <= j < i ==> #[trigger] names@[j]@ == ir_text(ts[j]),
            decreases n - i,
        {
            let mut tok = IR::Sym(String::new());
            core::mem::swap(&mut tok, &mut exp[i]);
            proof {
                assert(ir_view(tok) == ts[i as int]);
            }
            let text = tok.into_text();
            names.push(text);
            i = i + 1;
        }
        let r = Logic::Composite(kind, names);
        proof {
            assert(names_view(names@) =~= Seq::new(
                exp0.len(),
                |i: int| ir_text(ir_view(exp0[i])),
            ));
        }
        Result::Ok(r)
    }

    /// Compile this predicate into its runnable form.
    pub fn eval(&self) -> (r: LogicFn)
        ensures
            r@ == self@,
    {
        LogicFn(self.clone())
    }
}

} // verus!
