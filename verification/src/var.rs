//! Script values and mutation kinds.

use vstd::prelude::*;
use crate::num::{Num, num_wf, num_of_chars, num_string, num_from_chars, num_to_chars};
use crate::parse::{IR, IRV, ir_text, ir_view};
use crate::text::{str_chars, chars_to_string};

verus! {

/// A tagged script value.
#[derive(Debug, PartialEq)]
pub enum Var {
    /// Quoted text.
    String(String),
    /// A decimal number.
    Num(Num),
    /// A boolean.
    Bool(bool),
    /// An unresolved reference into the data store or a predicate table.
    Sym(String),
}

/// The mathematical shape of a value.
pub enum VarV {
    Str(Seq<char>),
    Num(Num),
    Bool(bool),
    Sym(Seq<char>),
}

impl View for Var {
    type V = VarV;

    open spec fn view(&self) -> VarV {
        match *self {
            Var::String(ref s) => VarV::Str(s@),
            Var::Num(n) => VarV::Num(n),
            Var::Bool(b) => VarV::Bool(b),
            Var::Sym(ref s) => VarV::Sym(s@),
        }
    }
}

/// Any number carried by a value is well formed.
pub open spec fn var_wf(v: VarV) -> bool {
    match v {
        VarV::Num(n) => num_wf(n),
        _ => true,
    }
}

pub open spec fn true_chars() -> Seq<char> {
    seq!['t', 'r', 'u', 'e']
}

pub open spec fn false_chars() -> Seq<char> {
    seq!['f', 'a', 'l', 's', 'e']
}

/// What a raw token denotes as a boolean, if anything.
pub open spec fn bool_of_chars(s: Seq<char>) -> Option<bool> {
    if s == true_chars() {
        Option::Some(true)
    } else if s == false_chars() {
        Option::Some(false)
    } else {
        Option::None
    }
}

/// The serialized text of a value: numbers in canonical decimal form,
/// booleans as `true`/`false`, strings and symbols as their text.
pub open spec fn var_string(v: VarV) -> Seq<char> {
    match v {
        VarV::Str(s) => s,
        VarV::Sym(s) => s,
        VarV::Num(n) => num_string(n),
        VarV::Bool(b) => if b {
            true_chars()
        } else {
            false_chars()
        },
    }
}

/// What a token parses to: a quoted token is a string; a raw token is a
/// number if it reads as one, else a boolean, else a symbol; a map literal
/// has no value form.
pub open spec fn var_of_ir(t: IRV) -> Option<VarV> {
    match t {
        IRV::Str(s) => Option::Some(VarV::Str(s)),
        IRV::Sym(s) => if num_of_chars(s) is Some {
            Option::Some(VarV::Num(num_of_chars(s).unwrap()))
        } else if bool_of_chars(s) is Some {
            Option::Some(VarV::Bool(bool_of_chars(s).unwrap()))
        } else {
            Option::Some(VarV::Sym(s))
        },
        IRV::MapLit(_) => Option::None,
    }
}

fn parse_bool_token(s: &String) -> (r: Option<bool>)
    ensures
        r == bool_of_chars(s@),
{
    proof {
        reveal_strlit("true");
        reveal_strlit("false");
    }
    if crate::text::str_eq_string("true", s) {
        proof {
            assert(s@ =~= true_chars());
        }
        Option::Some(true)
    } else if crate::text::str_eq_string("false", s) {
        proof {
            assert(s@ =~= false_chars());
            assert(s@ != true_chars());
        }
        Option::Some(false)
    } else {
        proof {
            if s@ == true_chars() {
                assert(s@ =~= "true"@);
            }
            if s@ == false_chars() {
                assert(s@ =~= "false"@);
            }
        }
        Option::None
    }
}

impl Clone for Var {
    /// A clone is the same value.
    fn clone(&self) -> (r: Self)
        ensures
            r == *self,
    {
        match self {
            Var::String(s) => Var::String(s.clone()),
            Var::Num(n) => Var::Num(*n),
            Var::Bool(b) => Var::Bool(*b),
            Var::Sym(s) => Var::Sym(s.clone()),
        }
    }
}

impl Var {
    /// The serialized text of this value.
    pub fn to_string(&self) -> (r: String)
        requires
            var_wf(self@),
        ensures
            r@ == var_string(self@),
    {
        match self {
            Var::String(s) => s.clone(),
            Var::Sym(s) => s.clone(),
            Var::Num(n) => n.to_text(),
            Var::Bool(b) => {
                proof {
                    reveal_strlit("true");
                    reveal_strlit("false");
                }
                let r = if *b {
                    String::from_str("true")
                } else {
                    String::from_str("false")
                };
                proof {
                    if *b {
                        assert(r@ =~= true_chars());
                    } else {
                        assert(r@ =~= false_chars());
                    }
                }
                r
            },
        }
    }

    /// Parse a token into a value, per `var_of_ir`.
    pub fn parse(t: IR) -> (r: Result<Var, &'static str>)
        ensures
            match r {
                Result::Ok(v) => var_of_ir(t@) == Option::Some(v@) && var_wf(v@),
                Result::Err(_) => var_of_ir(t@) is None && t@ is MapLit,
            },
    {
        match t {
            IR::Sym(s) => {
                let cs = str_chars(s.as_str());
                match num_from_chars(&cs) {
                    Option::Some(n) => Result::Ok(Var::Num(n)),
                    Option::None => {
                        match parse_bool_token(&s) {
                            Option::Some(b) => Result::Ok(Var::Bool(b)),
                            Option::None => Result::Ok(Var::Sym(s)),
                        }
                    },
                }
            },
            IR::String(s) => Result::Ok(Var::String(s)),
            IR::MapLit(_) => Result::Err("No Var type represents a Map"),
        }
    }
}

impl Var {
    /// The number a value stands for: a numeric literal directly, or a
    /// symbol resolved through the store to a numeric entry.  A symbol
    /// whose chain finds nothing is an empty evaluation; anything else
    /// that is not a number is a non-numeric one.
    pub fn get_num(&self, data: &crate::def::Def) -> (r: Result<Num, &'static str>)
        requires
            crate::def::def_wf(data@),
            var_wf(self@),
        ensures
            match r {
                Result::Ok(n) => num_of_var(self@, data@) == Option::Some(n) && num_wf(n),
                Result::Err(e) => num_of_var(self@, data@) is None && e@ == (
                if num_err_is_empty(self@, data@) {
                    "ERROR: Empty Evaluation"@
                } else {
                    "ERROR: NaN Evaluation"@
                }),
            },
    {
        match self {
            Var::Num(n) => Result::Ok(*n),
            Var::Sym(s) => {
                match data.get_last(s.as_str()) {
                    Option::Some(p) => {
                        match p.0 {
                            Var::Num(n) => Result::Ok(n),
                            _ => Result::Err("ERROR: NaN Evaluation"),
                        }
                    },
                    Option::None => Result::Err("ERROR: Empty Evaluation"),
                }
            },
            _ => Result::Err("ERROR: NaN Evaluation"),
        }
    }
}

/// Whether a failed numeric read was a dangling symbol (as opposed to a
/// value of the wrong kind).
pub open spec fn num_err_is_empty(v: VarV, d: Seq<(Seq<char>, crate::def::DefBlockV)>) -> bool {
    match v {
        VarV::Sym(s) => crate::def::def_get_last(d, s) is None,
        _ => false,
    }
}

/// The number a value resolves to through the store, if any.
pub open spec fn num_of_var(v: VarV, d: Seq<(Seq<char>, crate::def::DefBlockV)>) -> Option<
    Num,
> {
    match v {
        VarV::Num(n) => Option::Some(n),
        VarV::Sym(s) => match crate::def::def_get_last(d, s) {
            Option::Some(p) => match p.0 {
                VarV::Num(n) => Option::Some(n),
                _ => Option::None,
            },
            Option::None => Option::None,
        },
        _ => Option::None,
    }
}

/// Mutation kinds: arithmetic, block copy, plain assignment and host calls.
#[derive(Debug, PartialEq)]
pub enum Mut {
    Add,
    Sub,
    Mul,
    Div,
    /// Deep-copy a named data block into the target path.
    New,
    /// Assign the argument verbatim.
    Swap,
    /// Invoke a host function of that name.
    Fn(String),
}

/// The mathematical shape of a mutation kind.
pub enum MutV {
    Add,
    Sub,
    Mul,
    Div,
    New,
    Swap,
    Fn(Seq<char>),
}

impl View for Mut {
    type V = MutV;

    open spec fn view(&self) -> MutV {
        match *self {
            Mut::Add => MutV::Add,
            Mut::Sub => MutV::Sub,
            Mut::Mul => MutV::Mul,
            Mut::Div => MutV::Div,
            Mut::New => MutV::New,
            Mut::Swap => MutV::Swap,
            Mut::Fn(ref s) => MutV::Fn(s@),
        }
    }
}

impl Clone for Mut {
    /// A clone is the same value.
    fn clone(&self) -> (r: Self)
        ensures
            r == *self,
    {
        match self {
            Mut::Add => Mut::Add,
            Mut::Sub => Mut::Sub,
            Mut::Mul => Mut::Mul,
            Mut::Div => Mut::Div,
            Mut::New => Mut::New,
            Mut::Swap => Mut::Swap,
            Mut::Fn(s) => Mut::Fn(s.clone()),
        }
    }
}

/// The function name inside a parenthesised token, if it is one.
pub open spec fn fn_name_of(s: Seq<char>) -> Option<Seq<char>> {
    if s.len() >= 2 && s[0] == '(' && s.last() == ')' {
        Option::Some(s.subrange(1, s.len() - 1))
    } else {
        Option::None
    }
}

/// The values of a token run; `None` when some token has no value form.
pub open spec fn vars_of_irs(ts: Seq<IRV>) -> Option<Seq<VarV>>
    decreases ts.len(),
{
    if ts.len() == 0 {
        Option::Some(Seq::empty())
    } else {
        match vars_of_irs(ts.drop_last()) {
            Option::Some(pre) => match var_of_ir(ts.last()) {
                Option::Some(v) => Option::Some(pre.push(v)),
                Option::None => Option::None,
            },
            Option::None => Option::None,
        }
    }
}

/// What a mutation statement's tokens parse to: the target path with its
/// leading marker removed, the mutation kind, and the argument values.
pub open spec fn mut_parse_v(ts: Seq<IRV>) -> Option<(MutV, Seq<char>, Seq<VarV>)> {
    if ts.len() > 2 {
        let vtext = ir_text(ts[0]);
        let op = ir_text(ts[1]);
        match vars_of_irs(ts.skip(2)) {
            Option::Some(args) => {
                let kind: Option<MutV> = if op == seq!['+'] {
                    Option::Some(MutV::Add)
                } else if op == seq!['-'] {
                    Option::Some(MutV::Sub)
                } else if op == seq!['*'] {
                    Option::Some(MutV::Mul)
                } else if op == seq!['/'] {
                    Option::Some(MutV::Div)
                } else if op == seq!['n', 'e', 'w'] {
                    Option::Some(MutV::New)
                } else {
                    match fn_name_of(op) {
                        Option::Some(f) => Option::Some(MutV::Fn(f)),
                        Option::None => Option::None,
                    }
                };
                match kind {
                    Option::Some(m) => if vtext.len() >= 1 {
                        Option::Some((m, vtext.drop_first(), args))
                    } else {
                        Option::None
                    },
                    Option::None => Option::None,
                }
            },
            Option::None => Option::None,
        }
    } else if ts.len() == 2 {
        let vtext = ir_text(ts[0]);
        match var_of_ir(ts[1]) {
            Option::Some(v) => if vtext.len() >= 1 {
                Option::Some((MutV::Swap, vtext.drop_first(), seq![v]))
            } else {
                Option::None
            },
            Option::None => Option::None,
        }
    } else {
        Option::None
    }
}

impl Mut {
    /// Extract a host-function name from a parenthesised token.
    pub fn parse_fn(exp: String) -> (r: Option<String>)
        ensures
            match r {
                Option::Some(f) => fn_name_of(exp@) == Option::Some(f@),
                Option::None => fn_name_of(exp@) is None,
            },
    {
        let n = exp.as_str().unicode_len();
        if n >= 2 && exp.as_str().get_char(0) == '(' && exp.as_str().get_char(n - 1) == ')' {
            let inner = exp.as_str().substring_char(1, n - 1);
            let mut out = String::new();
            out.append(inner);
            Option::Some(out)
        } else {
            Option::None
        }
    }

    /// Parse a mutation statement's tokens, consuming them.
    pub fn parse(exps: &mut Vec<IR>) -> (r: Result<(Mut, String, Vec<Var>), &'static str>)
        ensures
            match r {
                Result::Ok(p) => mut_parse_v(irs_of(old(exps)@)) == Option::Some(
                    (p.0@, p.1@, vars_view(p.2@)),
                ) && (forall|i: int| 0 <= i < p.2@.len() ==> var_wf(#[trigger] p.2@[i]@)),
                Result::Err(_) => mut_parse_v(irs_of(old(exps)@)) is None,
            },
    {
        let ghost ts = irs_of(exps@);
        if exps.len() > 2 {
            let first = exps.remove(0);
            let vtext = first.into_text();
            let second = exps.remove(0);
            let op = second.into_text();
            proof {
                assert(vtext@ == ir_text(ts[0]));
                assert(op@ == ir_text(ts[1]));
            }
            let mut args: Vec<Var> = Vec::new();
            let ghost rest = ts.skip(2);
            let mut i: usize = 0;
            let n = exps.len();
            proof {
                assert(rest.len() == n);
                assert(forall|j: int|
                    0 <= j < n ==> ir_view(#[trigger] exps@[j]) == rest[j]);
                assert(rest.take(0) =~= Seq::<IRV>::empty());
            }
            while i < n
                invariant
                    i <= n,
                    n == exps@.len(),
                    ts == irs_of(old(exps)@),
                    ts.len() > 2,
                    rest == ts.skip(2),
                    forall|j: int| i <= j < n ==> ir_view(#[trigger] exps@[j]) == rest[j],
                    rest.len() == n,
                    vars_of_irs(rest.take(i as int)) == Option::Some(vars_view(args@)),
                    args@.len() == i,
                    forall|j: int| 0 <= j < i ==> var_wf(#[trigger] args@[j]@),
                decreases n - i,
            {
                let mut tok = IR::Sym(String::new());
                core::mem::swap(&mut tok, &mut exps[i]);
                proof {
                    assert(ir_view(tok) == rest[i as int]);
                    assert(rest.take(i + 1).drop_last() =~= rest.take(i as int));
                    assert(rest.take(i + 1).last() == rest[i as int]);
                }
                match Var::parse(tok) {
                    Result::Ok(v) => {
                        args.push(v);
                        proof {
                            assert(vars_view(args@) =~= vars_view(args@.drop_last()).push(
                                args@.last()@,
                            ));
                        }
                    },
                    Result::Err(e) => {
                        proof {
                            lemma_vars_of_irs_fail(rest, i as int);
                        }
                        return Result::Err(e);
                    },
                }
                i = i + 1;
            }
            proof {
                assert(rest.take(n as int) =~= rest);
            }
            let kind: Option<Mut> = if crate::text::str_eq_string("+", &op) {
                Option::Some(Mut::Add)
            } else if crate::text::str_eq_string("-", &op) {
                Option::Some(Mut::Sub)
            } else if crate::text::str_eq_string("*", &op) {
                Option::Some(Mut::Mul)
            } else if crate::text::str_eq_string("new", &op) {
                Option::Some(Mut::New)
            } else if crate::text::str_eq_string("/", &op) {
                Option::Some(Mut::Div)
            } else {
                match Mut::parse_fn(op) {
                    Option::Some(f) => Option::Some(Mut::Fn(f)),
                    Option::None => Option::None,
                }
            };
            proof {
                reveal_strlit("+");
                reveal_strlit("-");
                reveal_strlit("*");
                reveal_strlit("/");
                reveal_strlit("new");
                assert("+"@ =~= seq!['+']);
                assert("-"@ =~= seq!['-']);
                assert("*"@ =~= seq!['*']);
                assert("/"@ =~= seq!['/']);
                assert("new"@ =~= seq!['n', 'e', 'w']);
            }
            match kind {
                Option::Some(m) => {
                    match strip_marker(vtext) {
                        Option::Some(name) => Result::Ok((m, name, args)),
                        Option::None => Result::Err("Invalid Mut Syntax"),
                    }
                },
                Option::None => Result::Err("Unimplemented function"),
            }
        } else if exps.len() == 2 {
            let second = exps.pop().unwrap();
            proof {
                assert(ir_view(second) == ts[1]);
            }
            let arg = Var::parse(second);
            match arg {
                Result::Ok(v) => {
                    let first = exps.pop().unwrap();
                    proof {
                        assert(ir_view(first) == ts[0]);
                    }
                    let vtext = first.into_text();
                    let mut args: Vec<Var> = Vec::new();
                    args.push(v);
                    proof {
                        assert(vars_view(args@) =~= seq![args@[0]@]);
                    }
                    match strip_marker(vtext) {
                        Option::Some(name) => Result::Ok((Mut::Swap, name, args)),
                        Option::None => Result::Err("Invalid Mut Syntax"),
                    }
                },
                Result::Err(e) => Result::Err(e),
            }
        } else {
            Result::Err("Invalid Mut Syntax")
        }
    }
}

/// Drop the leading marker character of a mutation target.
fn strip_marker(s: String) -> (r: Option<String>)
    ensures
        match r {
            Option::Some(t) => s@.len() >= 1 && t@ == s@.drop_first(),
            Option::None => s@.len() == 0,
        },
{
    let n = s.as_str().unicode_len();
    if n == 0 {
        return Option::None;
    }
    let inner = s.as_str().substring_char(1, n);
    let mut out = String::new();
    out.append(inner);
    proof {
        assert(out@ =~= s@.drop_first());
    }
    Option::Some(out)
}

/// The views of a run of parsed values.
pub open spec fn vars_view(vs: Seq<Var>) -> Seq<VarV> {
    Seq::new(vs.len(), |i: int| vs[i]@)
}

/// The views of a run of tokens.
pub open spec fn irs_of(ts: Seq<IR>) -> Seq<IRV> {
    Seq::new(ts.len(), |i: int| crate::parse::ir_view(ts[i]))
}

/// Once a token fails to read as a value, the whole run has no value form.
pub proof fn lemma_vars_of_irs_fail(ts: Seq<IRV>, i: int)
    requires
        0 <= i < ts.len(),
        var_of_ir(ts[i]) is None,
    ensures
        vars_of_irs(ts) is None,
    decreases ts.len(),
{
    if ts.len() > 0 {
        if i == ts.len() - 1 {
        } else {
            assert(ts.drop_last()[i] == ts[i]);
            lemma_vars_of_irs_fail(ts.drop_last(), i);
        }
    }
}

} // verus!
