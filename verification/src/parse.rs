//! Parsing: lexer-level tokens, block construction, and the streaming
//! front end.
//!
//! Source text is cut into `IR` tokens (quoted strings, raw symbols and
//! pre-parsed map literals), which the statement parsers in `source` turn
//! into typed statements grouped into named blocks.

use vstd::prelude::*;
use crate::text::{push_char, chars_to_string, str_chars};

verus! {

broadcast use vstd::std_specs::vec::group_vec_axioms;

/// Intermediate representation: one lexed token.
#[derive(Debug)]
pub enum IR {
    /// A quoted string; embedded newlines are preserved.
    String(String),
    /// A non-quoted, whitespace-trimmed run of characters.
    Sym(String),
    /// A brace-delimited token group, pre-parsed.
    MapLit(Vec<IR>),
}

/// The mathematical shape of a token.
pub enum IRV {
    Str(Seq<char>),
    Sym(Seq<char>),
    MapLit(Seq<IRV>),
}

pub open spec fn ir_view(t: IR) -> IRV
    decreases t,
{
    match t {
        IR::String(s) => IRV::Str(s@),
        IR::Sym(s) => IRV::Sym(s@),
        IR::MapLit(v) => IRV::MapLit(irs_view(v@)),
    }
}

pub open spec fn irs_view(v: Seq<IR>) -> Seq<IRV>
    decreases v,
{
    if v.len() == 0 {
        Seq::empty()
    } else {
        irs_view(v.drop_last()).push(ir_view(v.last()))
    }
}

/// The element view of a token sequence, pointwise.
pub proof fn lemma_irs_view(v: Seq<IR>)
    ensures
        irs_view(v).len() == v.len(),
        forall|i: int| 0 <= i < v.len() ==> irs_view(v)[i] == ir_view(#[trigger] v[i]),
    decreases v,
{
    if v.len() > 0 {
        lemma_irs_view(v.drop_last());
        assert forall|i: int| 0 <= i < v.len() implies irs_view(v)[i] == ir_view(
            #[trigger] v[i],
        ) by {
            if i < v.len() - 1 {
                assert(v.drop_last()[i] == v[i]);
                assert(irs_view(v)[i] == irs_view(v.drop_last())[i]);
            } else {
                assert(irs_view(v)[i] == ir_view(v.last()));
            }
        }
    }
}

impl View for IR {
    type V = IRV;

    open spec fn view(&self) -> IRV {
        ir_view(*self)
    }
}

/// The text a token flattens back to: quoted and raw tokens keep their
/// characters; a map literal is braced around its flattened elements.
pub open spec fn ir_text(t: IRV) -> Seq<char>
    decreases t,
{
    match t {
        IRV::Str(s) => s,
        IRV::Sym(s) => s,
        IRV::MapLit(v) => seq!['{'] + ir_texts(v) + seq!['}'],
    }
}

pub open spec fn ir_texts(v: Seq<IRV>) -> Seq<char>
    decreases v,
{
    if v.len() == 0 {
        Seq::empty()
    } else {
        ir_texts(v.drop_last()) + ir_text(v.last())
    }
}

impl IR {
    /// Flatten a token to its text, as the original statement builders see
    /// it.
    pub fn to_text(&self) -> (r: String)
        ensures
            r@ == ir_text(self@),
        decreases *self,
    {
        match self {
            IR::String(s) => s.clone(),
            IR::Sym(s) => s.clone(),
            IR::MapLit(v) => {
                let mut out = String::new();
                push_char(&mut out, '{');
                let n = v.len();
                let ghost vv = v@;
                let ghost all = irs_view(vv);
                proof {
                    lemma_irs_view(vv);
                }
                let mut i: usize = 0;
                while i < n
                    invariant
                        i <= n,
                        n == v@.len(),
                        all.len() == n,
                        all == irs_view(vv),
                        vv == v@,
                        *self == IR::MapLit(*v),
                        forall|j: int| 0 <= j < n ==> all[j] == ir_view(#[trigger] vv[j]),
                        out@ == seq!['{'] + ir_texts(all.take(i as int)),
                    decreases n - i,
                {
                    let piece = &v[i];
                    proof {
                        assert(*piece == vv[i as int]);
                        assert(ir_view(*piece) == all[i as int]);
                        assert(decreases_to!(*self => self->MapLit_0));
                        assert(self->MapLit_0 == *v);
                        vstd::std_specs::vec::axiom_vec_decreases_to_view(*v);
                        vstd::seq::axiom_seq_index_decreases(v@, i as int);
                        assert(decreases_to!(*self => *piece));
                    }
                    let ptext = piece.to_text();
                    out.append(ptext.as_str());
                    i = i + 1;
                    proof {
                        lemma_ir_texts_take_step(all, i as int);
                        assert(out@ =~= seq!['{'] + ir_texts(all.take(i as int)));
                    }
                }
                push_char(&mut out, '}');
                proof {
                    assert(all.take(n as int) =~= all);
                    assert(out@ =~= seq!['{'] + ir_texts(all) + seq!['}']);
                }
                out
            },
        }
    }

    /// Flatten a token to its text, consuming it.
    pub fn into_text(self) -> (r: String)
        ensures
            r@ == ir_text(self@),
    {
        match self {
            IR::String(s) => s,
            IR::Sym(s) => s,
            other => other.to_text(),
        }
    }
}

/// What a map literal's tokens mean: comma-terminated runs of values under
/// leading keys.  `None` is a parse failure.
pub open spec fn map_parse_v(ts: Seq<IRV>) -> Option<Seq<(Seq<char>, Seq<crate::var::VarV>)>> {
    map_parse_go(ts, Seq::empty(), Seq::empty(), Seq::empty())
}

/// One token at a time, from the front: an empty pending key takes the next
/// token's text as the key; a raw token ending in a comma closes the entry.
pub open spec fn map_parse_go(
    ts: Seq<IRV>,
    acc: Seq<(Seq<char>, Seq<crate::var::VarV>)>,
    key: Seq<char>,
    vals: Seq<crate::var::VarV>,
) -> Option<Seq<(Seq<char>, Seq<crate::var::VarV>)>>
    decreases ts.len(),
{
    if ts.len() == 0 {
        if key.len() > 0 && vals.len() > 0 {
            Option::Some(map_acc_set(acc, key, vals))
        } else if key.len() > 0 {
            Option::None
        } else {
            Option::Some(acc)
        }
    } else {
        let t = ts.first();
        if key.len() == 0 {
            map_parse_go(ts.drop_first(), acc, ir_text(t), vals)
        } else {
            match t {
                IRV::Sym(s) => if s.len() > 0 && s.last() == ',' {
                    match crate::var::var_of_ir(IRV::Sym(s.drop_last())) {
                        Option::Some(v) => map_parse_go(
                            ts.drop_first(),
                            map_acc_set(acc, key, vals.push(v)),
                            Seq::empty(),
                            Seq::empty(),
                        ),
                        Option::None => Option::None,
                    }
                } else {
                    match crate::var::var_of_ir(IRV::Sym(s)) {
                        Option::Some(v) => map_parse_go(ts.drop_first(), acc, key, vals.push(v)),
                        Option::None => Option::None,
                    }
                },
                _ => match crate::var::var_of_ir(t) {
                    Option::Some(v) => map_parse_go(ts.drop_first(), acc, key, vals.push(v)),
                    Option::None => Option::None,
                },
            }
        }
    }
}

/// Entries land under their key; a repeated key replaces the earlier entry.
pub open spec fn map_acc_set(
    acc: Seq<(Seq<char>, Seq<crate::var::VarV>)>,
    key: Seq<char>,
    vals: Seq<crate::var::VarV>,
) -> Seq<(Seq<char>, Seq<crate::var::VarV>)> {
    crate::strmap::assoc_set(acc, key, vals)
}

/// One named source block: statements, a cursor, and per-block state.
#[derive(Debug, PartialEq)]
pub struct SrcBlock {
    pub name: String,
    pub src: Vec<crate::source::Src>,
    /// The cursor: index of the next statement to run.
    pub idx: usize,
    pub visited: bool,
    /// Whether the preceding conditional evaluated false, arming `or`.
    pub or_valid: bool,
    /// Compiled predicates, filled lazily at execution time.
    pub logic: crate::logic::Logics,
}

/// The mathematical shape of a source block.
#[verifier::ext_equal]
pub struct SrcBlockV {
    pub name: Seq<char>,
    pub src: Seq<crate::source::SrcV>,
    pub idx: int,
    pub visited: bool,
    pub or_valid: bool,
    pub logic: Seq<(Seq<char>, crate::logic::LogicV)>,
}

pub open spec fn srcs_view(v: Seq<crate::source::Src>) -> Seq<crate::source::SrcV> {
    Seq::new(v.len(), |i: int| v[i]@)
}

impl View for SrcBlock {
    type V = SrcBlockV;

    open spec fn view(&self) -> SrcBlockV {
        SrcBlockV {
            name: self.name@,
            src: srcs_view(self.src@),
            idx: self.idx as int,
            visited: self.visited,
            or_valid: self.or_valid,
            logic: crate::strmap::assoc_deep(self.logic@),
        }
    }
}

/// A source block's invariant: the cursor stays within the statement list,
/// every statement is sound, the predicate table is sound, and `or` only
/// stands immediately after an `if`.
pub open spec fn src_block_wf(b: SrcBlockV) -> bool {
    &&& 0 <= b.idx <= b.src.len()
    &&& forall|i: int| 0 <= i < b.src.len() ==> crate::source::src_wf(#[trigger] b.src[i])
    &&& crate::logic::logics_wf(b.logic)
    &&& forall|i: int|
        0 <= i < b.src.len() && (#[trigger] b.src[i]) is Or ==> i > 0 && b.src[i - 1] is If
}

/// A parsed top-level block.
#[derive(Debug, PartialEq)]
pub enum Block {
    Src(SrcBlock),
    Def(crate::def::DefBlock),
}

/// The mathematical shape of a block.
#[verifier::ext_equal]
pub enum BlockV {
    Src(SrcBlockV),
    Def(crate::def::DefBlockV),
}

impl View for Block {
    type V = BlockV;

    open spec fn view(&self) -> BlockV {
        match *self {
            Block::Src(ref b) => BlockV::Src(b@),
            Block::Def(ref b) => BlockV::Def(b@),
        }
    }
}

/// The views of a run of parsed blocks.
pub open spec fn blocks_view(v: Seq<Block>) -> Seq<BlockV> {
    Seq::new(v.len(), |i: int| v[i]@)
}

pub open spec fn block_wf(b: BlockV) -> bool {
    match b {
        BlockV::Src(sb) => src_block_wf(sb),
        BlockV::Def(db) => crate::def::def_block_wf(db),
    }
}

/// The parser: a list of completed blocks.
#[derive(Debug)]
pub struct Parser(pub Vec<Block>);

impl Parser {
    /// Parse a brace token into a label/values map, per `map_parse_v`.
    #[verifier::rlimit(80)]
    #[verifier::spinoff_prover]
    pub fn parse_map(map_ir: IR) -> (r: Result<crate::source::SelectMap, &'static str>)
        ensures
            match r {
                Result::Ok(m) => map_ir@ is MapLit && map_parse_v(ir_map_tokens(map_ir@))
                    == Option::Some(
                    crate::source::select_view(m@),
                ) && m.wf() && (forall|i: int, j: int|
                    0 <= i < m@.len() && 0 <= j < m@[i].1@.len() ==> crate::var::var_wf(
                        #[trigger] m@[i].1@[j]@,
                    )),
                Result::Err(_) => !(map_ir@ is MapLit) || map_parse_v(
                    ir_map_tokens(map_ir@),
                ) is None,
            },
    {
        let ghost orig = map_ir@;
        let exps = match map_ir {
            IR::MapLit(exps) => exps,
            _ => {
                return Result::Err("Map type not found");
            },
        };
        let ghost ts = crate::var::irs_of(exps@);
        proof {
            lemma_irs_view(exps@);
            assert(ts =~= irs_view(exps@));
        }
        let mut exps = exps;
        let mut map: crate::source::SelectMap = crate::strmap::StrMap::new();
        let mut key = String::new();
        let mut vals: Vec<crate::var::Var> = Vec::new();
        let n = exps.len();
        let mut i: usize = 0;
        proof {
            assert(ts.skip(0) =~= ts);
            assert(crate::source::select_view(map@) =~= Seq::<
                (Seq<char>, Seq<crate::var::VarV>),
            >::empty());
            assert(crate::var::vars_view(vals@) =~= Seq::<crate::var::VarV>::empty());
        }
        while i < n
            invariant
                i <= n,
                n == exps@.len(),
                ts.len() == n,
                forall|j: int| i <= j < n ==> ir_view(#[trigger] exps@[j]) == ts[j],
                map.wf(),
                forall|a: int, b: int|
                    0 <= a < map@.len() && 0 <= b < map@[a].1@.len() ==> crate::var::var_wf(
                        #[trigger] map@[a].1@[b]@,
                    ),
                forall|b: int| 0 <= b < vals@.len() ==> crate::var::var_wf(#[trigger] vals@[b]@),
                map_parse_go(
                    ts.skip(i as int),
                    crate::source::select_view(map@),
                    key@,
                    crate::var::vars_view(vals@),
                ) == map_parse_v(ts),
                map_parse_v(ts) == map_parse_v(ir_map_tokens(orig)),
                orig == map_ir@,
            decreases n - i,
        {
            let mut tok = IR::Sym(String::new());
            core::mem::swap(&mut tok, &mut exps[i]);
            proof {
                assert(ir_view(tok) == ts[i as int]);
                assert(ts.skip(i as int).first() == ts[i as int]);
                assert(ts.skip(i as int).drop_first() =~= ts.skip(i as int + 1));
            }
            if key.as_str().unicode_len() == 0 {
                let ghost selg = crate::source::select_view(map@);
                let ghost valsg = crate::var::vars_view(vals@);
                key = tok.into_text();
                proof {
                    assert(map_parse_go(ts.skip(i as int + 1), selg, key@, valsg)
                        == map_parse_v(ts));
                }
                i = i + 1;
                continue ;
            }
            let ghost selg = crate::source::select_view(map@);
            let ghost valsg = crate::var::vars_view(vals@);
            let ghost keyg = key@;
            let is_comma_sym: bool = match &tok {
                IR::Sym(s) => {
                    let sn = s.as_str().unicode_len();
                    sn > 0 && s.as_str().get_char(sn - 1) == ','
                },
                _ => false,
            };
            if is_comma_sym {
                let s = match tok {
                    IR::Sym(s) => s,
                    _ => String::new(),
                };
                let sn = s.as_str().unicode_len();
                let trimmed_str = s.as_str().substring_char(0, sn - 1);
                let mut trimmed = String::new();
                trimmed.append(trimmed_str);
                proof {
                    assert(trimmed@ =~= s@.drop_last());
                }
                match crate::var::Var::parse(IR::Sym(trimmed)) {
                    Result::Ok(v) => {
                        let ghost vg = v@;
                        vals.push(v);
                        proof {
                            assert(crate::var::vars_view(vals@) =~= crate::var::vars_view(
                                vals@.drop_last(),
                            ).push(vals@.last()@));
                        }
                        let ghost pre_raw = map@;
                        let ghost pre_map = crate::source::select_view(map@);
                        let ghost keyv = key@;
                        let ghost valsv = crate::var::vars_view(vals@);
                        let ghost valsvec = vals;
                        map.insert(key, vals);
                        proof {
                            lemma_select_set(pre_raw, keyv, valsvec);
                            assert(crate::source::select_view(map@) == crate::strmap::assoc_set(
                                pre_map,
                                keyv,
                                valsv,
                            ));
                            lemma_select_keys(pre_raw);
                            assert forall|a: int, b: int|
                                0 <= a < map@.len() && 0 <= b < map@[a].1@.len()
                                    implies crate::var::var_wf(#[trigger] map@[a].1@[b]@) by {
                                if crate::strmap::assoc_has(pre_raw, keyv) {
                                    let ix = crate::strmap::assoc_idx(pre_raw, keyv);
                                    if a != ix {
                                        assert(map@[a] == pre_raw[a]);
                                    } else {
                                        assert(map@[a].1 == valsvec);
                                    }
                                } else {
                                    if a < pre_raw.len() {
                                        assert(map@[a] == pre_raw[a]);
                                    } else {
                                        assert(map@[a].1 == valsvec);
                                    }
                                }
                            }
                        }
                        key = String::new();
                        vals = Vec::new();
                        proof {
                            assert(crate::var::vars_view(vals@) =~= Seq::<
                                crate::var::VarV,
                            >::empty());
                            assert(keyg.len() > 0);
                            assert(ts[i as int] == IRV::Sym(s@));
                            assert(s@.len() > 0 && s@.last() == ',');
                            assert(crate::var::var_of_ir(IRV::Sym(s@.drop_last()))
                                == Option::Some(vg));
                            assert(map_parse_go(ts.skip(i as int), selg, keyg, valsg)
                                == map_parse_v(ts));
                            let macc = map_acc_set(selg, keyg, valsg.push(vg));
                            assert(map_parse_go(ts.skip(i as int), selg, keyg, valsg)
                                == map_parse_go(
                                ts.skip(i as int).drop_first(),
                                macc,
                                Seq::<char>::empty(),
                                Seq::<crate::var::VarV>::empty(),
                            )) by {
                                reveal_with_fuel(map_parse_go, 2);
                            }
                            assert(ts.skip(i as int).drop_first() == ts.skip(i as int + 1));
                            assert(map_parse_go(
                                ts.skip(i as int).drop_first(),
                                macc,
                                Seq::<char>::empty(),
                                Seq::<crate::var::VarV>::empty(),
                            ) == map_parse_go(
                                ts.skip(i as int + 1),
                                macc,
                                Seq::<char>::empty(),
                                Seq::<crate::var::VarV>::empty(),
                            ));
                            assert(map_parse_go(
                                ts.skip(i as int + 1),
                                macc,
                                Seq::<char>::empty(),
                                Seq::<crate::var::VarV>::empty(),
                            ) == map_parse_v(ts));
                            assert(valsv =~= valsg.push(vg));
                            assert(pre_map == selg);
                            assert(keyv == keyg);
                            assert(crate::source::select_view(map@) == map_acc_set(
                                selg,
                                keyg,
                                valsg.push(vg),
                            ));
                        }
                    },
                    Result::Err(e) => {
                        proof {
                            assert(ts[i as int] == IRV::Sym(s@));
                            assert(crate::var::var_of_ir(IRV::Sym(s@.drop_last())) is None);
                            assert(keyg.len() > 0);
                            assert(map_parse_go(ts.skip(i as int), selg, keyg, valsg)
                                is None) by {
                                reveal_with_fuel(map_parse_go, 2);
                            }
                        }
                        return Result::Err(e);
                    },
                }
            } else {
                match crate::var::Var::parse(tok) {
                    Result::Ok(v) => {
                        let ghost vg = v@;
                        vals.push(v);
                        proof {
                            assert(crate::var::vars_view(vals@) =~= crate::var::vars_view(
                                vals@.drop_last(),
                            ).push(vals@.last()@));
                            assert(crate::var::vars_view(vals@) == valsg.push(vg));
                            assert(map_parse_go(
                                ts.skip(i as int + 1),
                                selg,
                                keyg,
                                valsg.push(vg),
                            ) == map_parse_v(ts));
                        }
                    },
                    Result::Err(e) => {
                        proof {
                            assert(crate::var::var_of_ir(ts[i as int]) is None);
                            assert(keyg.len() > 0);
                            assert(!(ts[i as int] matches IRV::Sym(sx) && sx.len() > 0
                                && sx.last() == ','));
                            assert(map_parse_go(ts.skip(i as int), selg, keyg, valsg)
                                is None) by {
                                reveal_with_fuel(map_parse_go, 2);
                            }
                            assert(map_parse_v(ir_map_tokens(orig)) is None);
                        }
                        return Result::Err(e);
                    },
                }
            }
            i = i + 1;
        }
        proof {
            assert(ts.skip(n as int) =~= Seq::<IRV>::empty());
        }
        if key.as_str().unicode_len() > 0 {
            if vals.len() > 0 {
                let ghost pre_raw = map@;
                let ghost pre_map = crate::source::select_view(map@);
                let ghost keyv = key@;
                let ghost valsv = crate::var::vars_view(vals@);
                let ghost valsvec = vals;
                map.insert(key, vals);
                proof {
                    lemma_select_set(pre_raw, keyv, valsvec);
                    assert(crate::source::select_view(map@) == crate::strmap::assoc_set(
                        pre_map,
                        keyv,
                        valsv,
                    ));
                    lemma_select_keys(pre_raw);
                    assert forall|a: int, b: int|
                        0 <= a < map@.len() && 0 <= b < map@[a].1@.len()
                            implies crate::var::var_wf(#[trigger] map@[a].1@[b]@) by {
                        if crate::strmap::assoc_has(pre_raw, keyv) {
                            let ix = crate::strmap::assoc_idx(pre_raw, keyv);
                            if a != ix {
                                assert(map@[a] == pre_raw[a]);
                            } else {
                                assert(map@[a].1 == valsvec);
                            }
                        } else {
                            if a < pre_raw.len() {
                                assert(map@[a] == pre_raw[a]);
                            } else {
                                assert(map@[a].1 == valsvec);
                            }
                        }
                    }
                }
                Result::Ok(map)
            } else {
                proof {
                    assert(crate::var::vars_view(vals@).len() == 0);
                    assert(map_parse_go(
                        ts.skip(n as int),
                        crate::source::select_view(map@),
                        key@,
                        crate::var::vars_view(vals@),
                    ) is None);
                }
                Result::Err("Map contains unbalanced braclets")
            }
        } else {
            Result::Ok(map)
        }
    }
}


/// The lexer's working state, one field per mode or accumulator.
pub struct Lexer {
    v: Vec<Block>,
    exp: String,
    exps: Vec<IR>,
    map_ir: Vec<IR>,
    block: Option<Block>,
    in_string: bool,
    in_comment: bool,
    in_vec: bool,
    in_map: bool,
    was_if: bool,
    usyms: Vec<String>,
}

impl View for Lexer {
    type V = LexState;

    closed spec fn view(&self) -> LexState {
        mirror(
            self.v@,
            self.exp@,
            self.exps@,
            self.map_ir@,
            self.block,
            self.in_string,
            self.in_comment,
            self.in_vec,
            self.in_map,
            self.was_if,
            self.usyms@,
        )
    }
}

/// Everything built so far is well formed.
pub open spec fn lexer_wf(lx: &Lexer) -> bool {
    &&& forall|i: int| 0 <= i < lx@.blocks.len() ==> block_wf(#[trigger] lx@.blocks[i])
    &&& match lx@.cur {
        Option::Some(b) => block_wf(b) && (b is Src ==> pending_wf(
            (b->Src_0).src,
            lx@.was_if,
        ) && (b->Src_0).idx == 0),
        Option::None => !lx@.was_if,
    }
}

impl Lexer {
    /// A fresh lexer.
    fn new() -> (r: Lexer)
        ensures
            r@ == lex_init(),
            lexer_wf(&r),
    {
        let r = Lexer {
            v: Vec::new(),
            exp: String::new(),
            exps: Vec::new(),
            map_ir: Vec::new(),
            block: Option::None,
            in_string: false,
            in_comment: false,
            in_vec: false,
            in_map: false,
            was_if: false,
            usyms: Vec::new(),
        };
        proof {
            assert(blocks_view(r.v@) =~= Seq::<BlockV>::empty());
            assert(crate::var::irs_of(r.exps@) =~= Seq::<IRV>::empty());
            assert(crate::var::irs_of(r.map_ir@) =~= Seq::<IRV>::empty());
            assert(crate::logic::names_view(r.usyms@) =~= Seq::<Seq<char>>::empty());
            assert(r.exp@ =~= Seq::<char>::empty());
        }
        r
    }

    /// The completed blocks; anything still buffered is discarded.
    fn finish(self) -> (r: Vec<Block>)
        requires
            lexer_wf(&self),
        ensures
            blocks_view(r@) == self@.blocks,
            forall|i: int| 0 <= i < r@.len() ==> block_wf((#[trigger] r@[i])@),
    {
        proof {
            assert(blocks_view(self.v@) == self@.blocks);
            assert(forall|i: int|
                0 <= i < self.v@.len() ==> (#[trigger] self.v@[i])@ == self@.blocks[i]);
        }
        self.v
    }

    /// Seal the block under construction, per `close_v`.
    fn close(&mut self) -> (r: Result<(), &'static str>)
        requires
            lexer_wf(old(self)),
        ensures
            match r {
                Result::Ok(_) => close_v(old(self)@) == Option::Some(final(self)@)
                    && lexer_wf(final(self)),
                Result::Err(_) => close_v(old(self)@) is None,
            },
    {
        let mut taken: Option<Block> = Option::None;
        core::mem::swap(&mut taken, &mut self.block);
        match taken {
            Option::Some(done) => {
                let ghost donev = done@;
                self.v.push(done);
                self.usyms = Vec::new();
                self.was_if = false;
                proof {
                    assert(blocks_view(self.v@) =~= blocks_view(self.v@.drop_last()).push(
                        self.v@.last()@,
                    ));
                    assert(crate::logic::names_view(self.usyms@) =~= Seq::<
                        Seq<char>,
                    >::empty());
                    assert(self@ =~~= close_v(old(self)@).unwrap());
                    assert forall|i: int|
                        0 <= i < self@.blocks.len() implies block_wf(
                        #[trigger] self@.blocks[i],
                    ) by {
                        if i < old(self)@.blocks.len() {
                            assert(self@.blocks[i] == old(self)@.blocks[i]);
                        } else {
                            assert(self@.blocks[i] == donev);
                        }
                    }
                }
                Result::Ok(())
            },
            Option::None => Result::Err("Parse Block not built"),
        }
    }

    /// Read the header statement, per `hdr_v`.
    fn build_header(&mut self) -> (r: Result<(), &'static str>)
        requires
            lexer_wf(old(self)),
            old(self)@.cur is None,
            old(self)@.exps.len() >= 1,
        ensures
            match r {
                Result::Ok(_) => hdr_v(old(self)@.exps) matches Option::Some(b)
                    && final(self)@ == (LexState {
                    cur: Option::Some(b),
                    exps: Seq::empty(),
                    ..old(self)@
                }) && lexer_wf(final(self)),
                Result::Err(_) => hdr_v(old(self)@.exps) is None,
            },
    {
        let ghost exps2 = crate::var::irs_of(self.exps@);
        let first = self.exps.remove(0);
        let name = first.into_text();
        proof {
            reveal_strlit("def");
            assert("def"@ =~= seq!['d', 'e', 'f']);
            assert(crate::parse::ir_view(first) == exps2[0]);
            assert(crate::var::irs_of(self.exps@) =~= exps2.drop_first());
        }
        if crate::text::str_eq_string("def", &name) {
            let ghost rest = exps2.drop_first();
            if self.exps.len() == 0 {
                return Result::Err("Parse Block not built");
            }
            let second = self.exps.remove(0);
            let bname = second.into_text();
            let mut nb = crate::def::DefBlock::new(bname.as_str());
            proof {
                assert(crate::parse::ir_view(second) == rest[0]);
                assert(crate::var::irs_of(self.exps@) =~= rest.drop_first());
                assert(self@ =~~= (LexState {
                    exps: crate::var::irs_of(self.exps@),
                    ..old(self)@
                }));
            }
            proof {
                if hdr_def_pairs_v(rest.drop_first(), Seq::empty()) is None {
                    assert(hdr_v(exps2) is None);
                }
            }
            let ghost whole = hdr_def_pairs_v(rest.drop_first(), Seq::empty());
            let ghost bnamev = nb@.name;
            // Entries may share the header line, in pairs.
            while self.exps.len() >= 2
                invariant
                    crate::def::def_block_wf(nb@),
                    nb@.name == bnamev,
                    hdr_def_pairs_v(crate::var::irs_of(self.exps@), nb@.data) == whole,
                    whole is None ==> hdr_v(old(self)@.exps) is None,
                    self@ == (LexState {
                        exps: crate::var::irs_of(self.exps@),
                        ..old(self)@
                    }),
                decreases self.exps@.len(),
            {
                let ghost cur_toks = crate::var::irs_of(self.exps@);
                let key_tok = self.exps.remove(0);
                let val_tok = self.exps.remove(0);
                proof {
                    assert(crate::parse::ir_view(key_tok) == cur_toks[0]);
                    assert(crate::parse::ir_view(val_tok) == cur_toks[1]);
                    assert(crate::var::irs_of(self.exps@) =~= cur_toks.skip(2));
                }
                let val = match crate::var::Var::parse(val_tok) {
                    Result::Ok(val) => val,
                    Result::Err(e) => {
                        proof {
                            assert(whole is None);
                        }
                        return Result::Err(e);
                    },
                };
                let key = key_tok.into_text();
                def_insert(&mut nb, key, val);
                proof {
                    assert(self@ =~~= (LexState {
                        exps: crate::var::irs_of(self.exps@),
                        ..old(self)@
                    }));
                }
            }
            if self.exps.len() != 0 {
                return Result::Err("Parse Block not built");
            }
            proof {
                assert(crate::var::irs_of(self.exps@) =~= Seq::<IRV>::empty());
                assert(whole == Option::Some(nb@.data));
                assert(nb@ =~~= (crate::def::DefBlockV {
                    name: ir_text(rest[0]),
                    data: nb@.data,
                }));
                assert(hdr_v(exps2) == Option::Some(BlockV::Def(nb@)));
            }
            self.block = Option::Some(Block::Def(nb));
            self.exps = Vec::new();
            proof {
                assert(crate::var::irs_of(self.exps@) =~= Seq::<IRV>::empty());
                assert(self@ =~~= (LexState {
                    cur: Option::Some(hdr_v(exps2).unwrap()),
                    exps: Seq::empty(),
                    ..old(self)@
                }));
            }
            Result::Ok(())
        } else {
            let nb = SrcBlock {
                name,
                src: Vec::new(),
                idx: 0,
                visited: false,
                or_valid: false,
                logic: crate::strmap::StrMap::new(),
            };
            proof {
                assert(nb@.src =~= Seq::<crate::source::SrcV>::empty());
                assert(nb@.logic =~= Seq::<(Seq<char>, crate::logic::LogicV)>::empty());
                assert(src_block_wf(nb@));
                assert(hdr_v(exps2) == Option::Some(BlockV::Src(nb@)));
            }
            self.block = Option::Some(Block::Src(nb));
            self.exps = Vec::new();
            proof {
                assert(crate::var::irs_of(self.exps@) =~= Seq::<IRV>::empty());
                assert(self@ =~~= (LexState {
                    cur: Option::Some(hdr_v(exps2).unwrap()),
                    exps: Seq::empty(),
                    ..old(self)@
                }));
            }
            Result::Ok(())
        }
    }

    /// Append the pending statement to the open block, per `stmt_step_v`.
    #[verifier::rlimit(100)]
    #[verifier::spinoff_prover]
    fn build_statement(&mut self) -> (r: Result<(), &'static str>)
        requires
            lexer_wf(old(self)),
            old(self)@.cur is Some,
            old(self)@.exps.len() >= 1,
        ensures
            match r {
                Result::Ok(_) => stmt_step_v(
                    old(self)@.cur.unwrap(),
                    old(self)@.exps,
                    old(self)@.usyms,
                    old(self)@.was_if,
                ) matches Option::Some(out) && final(self)@ == (LexState {
                    cur: Option::Some(out.0),
                    usyms: out.1,
                    was_if: out.2,
                    exps: Seq::empty(),
                    ..old(self)@
                }) && lexer_wf(final(self)),
                Result::Err(_) => stmt_step_v(
                    old(self)@.cur.unwrap(),
                    old(self)@.exps,
                    old(self)@.usyms,
                    old(self)@.was_if,
                ) is None,
            },
    {
        let ghost exps2 = crate::var::irs_of(self.exps@);
        let ghost usyms0 = crate::logic::names_view(self.usyms@);
        let ghost wif0 = self.was_if;
        let mut held: Option<Block> = Option::None;
        core::mem::swap(&mut held, &mut self.block);
        let cur = match held {
            Option::Some(cur) => cur,
            Option::None => {
                proof {
                    assert(false);
                }
                return Result::Err("Parse Block not built");
            },
        };
        let ghost curbv = cur@;
        let mut taken: Vec<IR> = Vec::new();
        core::mem::swap(&mut taken, &mut self.exps);
        let (rewritten, qsyms) = rewrite_sugar(taken);
        let ghost rwv = crate::var::irs_of(rewritten@);
        let ghost qsv = qsyms_view(qsyms@);
        match cur {
            Block::Def(mut b) => {
                let mut rewritten = rewritten;
                if rewritten.len() < 2 {
                    return Result::Err("Parse Block not built");
                }
                let val_tok = rewritten.pop().unwrap();
                let key_tok = rewritten.pop().unwrap();
                proof {
                    assert(crate::parse::ir_view(val_tok) == rwv.last());
                    assert(crate::parse::ir_view(key_tok) == rwv[rwv.len() - 2]);
                }
                let val = match crate::var::Var::parse(val_tok) {
                    Result::Ok(val) => val,
                    Result::Err(e) => {
                        return Result::Err(e);
                    },
                };
                let key = key_tok.into_text();
                def_insert(&mut b, key, val);
                proof {
                    assert(stmt_step_v(curbv, exps2, usyms0, wif0) == Option::Some(
                        (BlockV::Def(b@), usyms0, wif0),
                    ));
                }
                self.block = Option::Some(Block::Def(b));
                Result::Ok(())
            },
            Block::Src(mut b) => {
                let ghost srcs0 = curbv->Src_0.src;
                match push_qsyms(&mut b, &qsyms, &mut self.usyms, &mut self.was_if) {
                    Result::Ok(_) => {},
                    Result::Err(e) => {
                        return Result::Err(e);
                    },
                }
                // Then the statement itself.
                match crate::source::Src::parse(rewritten) {
                    Result::Ok(stmt) => {
                        match push_stmt(&mut b, stmt, self.was_if) {
                            Result::Ok(nw) => {
                                self.was_if = nw;
                            },
                            Result::Err(e) => {
                                return Result::Err(e);
                            },
                        }
                    },
                    Result::Err(e) => {
                        return Result::Err(e);
                    },
                }
                proof {
                    assert(stmt_step_v(curbv, exps2, usyms0, wif0) == Option::Some(
                        (
                            BlockV::Src(b@),
                            crate::logic::names_view(self.usyms@),
                            self.was_if,
                        ),
                    ));
                }
                self.block = Option::Some(Block::Src(b));
                Result::Ok(())
            },
        }
    }

    /// Handle a statement boundary, per `boundary_v`.
    #[verifier::rlimit(100)]
    #[verifier::spinoff_prover]
    fn boundary(&mut self, c: char) -> (r: Result<(), &'static str>)
        requires
            lexer_wf(old(self)),
            !old(self)@.in_string,
            !old(self)@.in_comment,
        ensures
            match r {
                Result::Ok(_) => boundary_v(old(self)@, c) == Option::Some(final(self)@)
                    && lexer_wf(final(self)),
                Result::Err(_) => boundary_v(old(self)@, c) is None,
            },
    {
        self.flush_run(c);
        if self.exps.len() < 1 {
            if c == ';' {
                return self.close();
            }
            return Result::Ok(());
        }
        let have_block = matches!(&self.block, Option::Some(_));
        let built = if have_block {
            self.build_statement()
        } else {
            self.build_header()
        };
        match built {
            Result::Ok(_) => {},
            Result::Err(e) => {
                return Result::Err(e);
            },
        }
        if c == ';' {
            return self.close();
        }
        Result::Ok(())
    }

    /// Flush the pending run at a boundary, per `boundary_front`.
    fn flush_run(&mut self, c: char)
        requires
            lexer_wf(old(self)),
        ensures
            final(self)@ == boundary_front(old(self)@, c),
            lexer_wf(final(self)),
            final(self)@.cur == old(self)@.cur,
            final(self)@.was_if == old(self)@.was_if,
    {
        let ghost st2 = self@;
        let mut parts = split_whitespace_tokens(&self.exp);
        let ghost partsv = crate::var::irs_of(parts@);
        if self.in_map {
            self.map_ir.append(&mut parts);
            proof {
                assert(crate::var::irs_of(self.map_ir@) =~= st2.map_ir + partsv);
            }
        } else {
            self.exps.append(&mut parts);
            proof {
                assert(crate::var::irs_of(self.exps@) =~= st2.exps + partsv);
            }
        }
        if c == '}' && self.in_map {
            self.in_map = false;
            let mut inner: Vec<IR> = Vec::new();
            core::mem::swap(&mut inner, &mut self.map_ir);
            proof {
                lemma_irs_view(inner@);
                assert(irs_view(inner@) =~= crate::var::irs_of(inner@));
                assert(irs_view(inner@) == st2.map_ir + partsv);
            }
            self.exps.push(IR::MapLit(inner));
            proof {
                assert(crate::var::irs_of(self.map_ir@) =~= Seq::<IRV>::empty());
                assert(crate::var::irs_of(self.exps@) =~= st2.exps.push(
                    IRV::MapLit(st2.map_ir + partsv),
                ));
            }
        }
        self.exp = String::new();
        proof {
            assert(self.exp@ =~= Seq::<char>::empty());
            assert(self@ =~~= boundary_front(st2, c));
        }
    }

    /// One character of lexing, per `lex_step`.
    #[verifier::rlimit(100)]
    #[verifier::spinoff_prover]
    fn step(&mut self, c: char) -> (r: Result<(), &'static str>)
        requires
            lexer_wf(old(self)),
        ensures
            match r {
                Result::Ok(_) => lex_step(old(self)@, c) == Option::Some(final(self)@)
                    && lexer_wf(final(self)),
                Result::Err(_) => lex_step(old(self)@, c) is None,
            },
    {
        let ghost st0 = self@;
        if !self.in_comment && !self.in_string {
            if c == '[' {
                self.in_vec = true;
                return Result::Ok(());
            } else if c == ']' {
                self.in_vec = false;
            }
        }
        if c == '#' && !self.in_string {
            self.in_comment = true;
            return Result::Ok(());
        } else if c == '\n' && self.in_comment && !self.in_string {
            self.in_comment = false;
        }
        let ghost st2 = self@;
        if c == '\n' && (self.in_vec || self.in_map) && !self.in_comment && !self.in_string {
            return Result::Ok(());
        }
        if (c == ']' || c == '}' || c == '\n' || c == ';') && !self.in_string
            && !self.in_comment {
            proof {
                assert(lex_step(st0, c) == boundary_v(st2, c));
            }
            return self.boundary(c);
        }
        if c == '"' && !self.in_comment {
            self.in_string = !self.in_string;
            if self.in_string {
                let mut parts = split_whitespace_tokens(&self.exp);
                let ghost partsv = crate::var::irs_of(parts@);
                if self.in_map {
                    self.map_ir.append(&mut parts);
                    proof {
                        assert(crate::var::irs_of(self.map_ir@) =~= st2.map_ir + partsv);
                    }
                } else {
                    self.exps.append(&mut parts);
                    proof {
                        assert(crate::var::irs_of(self.exps@) =~= st2.exps + partsv);
                    }
                }
                self.exp = String::new();
            } else {
                let ghost expv = self.exp@;
                let mut taken = String::new();
                core::mem::swap(&mut taken, &mut self.exp);
                let tok = IR::String(taken);
                if self.in_map {
                    self.map_ir.push(tok);
                    proof {
                        assert(crate::var::irs_of(self.map_ir@) =~= st2.map_ir.push(
                            IRV::Str(expv),
                        ));
                    }
                } else {
                    self.exps.push(tok);
                    proof {
                        assert(crate::var::irs_of(self.exps@) =~= st2.exps.push(
                            IRV::Str(expv),
                        ));
                    }
                }
            }
            proof {
                assert(self.exp@ =~= Seq::<char>::empty());
            }
            return Result::Ok(());
        }
        if c == '{' && !self.in_comment && !self.in_string {
            self.in_map = true;
            let trimmed = trim_text(&self.exp);
            self.exps.push(IR::Sym(trimmed));
            self.exp = String::new();
            proof {
                assert(crate::var::irs_of(self.exps@) =~= st2.exps.push(
                    IRV::Sym(trim_v(st2.exp)),
                ));
                assert(self.exp@ =~= Seq::<char>::empty());
            }
            return Result::Ok(());
        }
        if !self.in_comment {
            push_char(&mut self.exp, c);
        }
        Result::Ok(())
    }
}

/// One qsym-fold step: an already-bound name is skipped.
proof fn lemma_qsym_skip(
    qs: Seq<(Seq<char>, Seq<char>)>,
    i: int,
    us: Seq<Seq<char>>,
    srcs: Seq<crate::source::SrcV>,
    wif: bool,
)
    requires
        0 <= i < qs.len(),
        names_contains(us, qs[i].0),
    ensures
        qsym_fold_v(qs.skip(i), us, srcs, wif) == qsym_fold_v(qs.skip(i + 1), us, srcs, wif),
{
    assert(qs.skip(i).first() == qs[i]);
    assert(qs.skip(i).drop_first() =~= qs.skip(i + 1));
}

/// One qsym-fold step: a fresh name binds its statement.
proof fn lemma_qsym_bind(
    qs: Seq<(Seq<char>, Seq<char>)>,
    i: int,
    us: Seq<Seq<char>>,
    srcs: Seq<crate::source::SrcV>,
    wif: bool,
    stmt: crate::source::SrcV,
)
    requires
        0 <= i < qs.len(),
        !names_contains(us, qs[i].0),
        crate::source::src_parse_v(seq![IRV::Sym(qs[i].0), IRV::Sym(qs[i].1)])
            == Option::Some(stmt),
        !(stmt is Or && !wif),
    ensures
        qsym_fold_v(qs.skip(i), us, srcs, wif) == qsym_fold_v(
            qs.skip(i + 1),
            us.push(qs[i].0),
            srcs.push(stmt),
            stmt is If,
        ),
{
    assert(qs.skip(i).first() == qs[i]);
    assert(qs.skip(i).drop_first() =~= qs.skip(i + 1));
}

/// One qsym-fold step: a fresh name whose statement is refused fails the
/// whole fold.
proof fn lemma_qsym_fail(
    qs: Seq<(Seq<char>, Seq<char>)>,
    i: int,
    us: Seq<Seq<char>>,
    srcs: Seq<crate::source::SrcV>,
    wif: bool,
)
    requires
        0 <= i < qs.len(),
        !names_contains(us, qs[i].0),
        ({
            let p = crate::source::src_parse_v(seq![IRV::Sym(qs[i].0), IRV::Sym(qs[i].1)]);
            p is None || (p matches Option::Some(stmt) && stmt is Or && !wif)
        }),
    ensures
        qsym_fold_v(qs.skip(i), us, srcs, wif) is None,
{
    assert(qs.skip(i).first() == qs[i]);
}

/// Bind one synthetic negation name: parse its two-token statement and
/// append it under the or-after-if rule; the new `was_if`.
fn bind_one(b: &mut SrcBlock, q: String, o: String, wif: bool) -> (r: Result<
    bool,
    &'static str,
>)
    requires
        src_block_wf(old(b)@),
        pending_wf(old(b)@.src, wif),
        old(b)@.idx == 0,
    ensures
        match r {
            Result::Ok(nw) => crate::source::src_parse_v(
                seq![IRV::Sym(q@), IRV::Sym(o@)],
            ) matches Option::Some(stmt) && !(stmt is Or && !wif) && final(b)@
                == (SrcBlockV { src: old(b)@.src.push(stmt), ..old(b)@ }) && nw == stmt is If
                && src_block_wf(final(b)@) && pending_wf(final(b)@.src, nw) && final(b)@.idx
                == 0,
            Result::Err(_) => crate::source::src_parse_v(seq![IRV::Sym(q@), IRV::Sym(o@)])
                is None || (crate::source::src_parse_v(
                seq![IRV::Sym(q@), IRV::Sym(o@)],
            ) matches Option::Some(stmt) && stmt is Or && !wif),
        },
{
    let mut toks: Vec<IR> = Vec::new();
    let ghost qv = q@;
    let ghost ov = o@;
    toks.push(IR::Sym(q));
    toks.push(IR::Sym(o));
    proof {
        assert(crate::var::irs_of(toks@) =~= seq![IRV::Sym(qv), IRV::Sym(ov)]);
    }
    match crate::source::Src::parse(toks) {
        Result::Ok(stmt) => {
            match push_stmt(b, stmt, wif) {
                Result::Ok(nw) => Result::Ok(nw),
                Result::Err(e) => Result::Err(e),
            }
        },
        Result::Err(e) => Result::Err(e),
    }
}

/// Prepend the synthetic negation bindings to a source block, per
/// `qsym_fold_v`: each new name binds once, under the or-after-if rule.
#[verifier::rlimit(100)]
#[verifier::spinoff_prover]
fn push_qsyms(
    b: &mut SrcBlock,
    qsyms: &Vec<(String, String)>,
    usyms: &mut Vec<String>,
    was_if: &mut bool,
) -> (r: Result<(), &'static str>)
    requires
        src_block_wf(old(b)@),
        pending_wf(old(b)@.src, *old(was_if)),
        old(b)@.idx == 0,
    ensures
        match r {
            Result::Ok(_) => qsym_fold_v(
                qsyms_view(qsyms@),
                crate::logic::names_view(old(usyms)@),
                old(b)@.src,
                *old(was_if),
            ) == Option::Some(
                (
                    final(b)@.src,
                    *final(was_if),
                    crate::logic::names_view(final(usyms)@),
                ),
            ) && src_block_wf(final(b)@) && pending_wf(final(b)@.src, *final(was_if))
                && final(b)@.idx == 0 && final(b)@.name == old(b)@.name && final(b)@.logic
                == old(b)@.logic && final(b)@.visited == old(b)@.visited
                && final(b)@.or_valid == old(b)@.or_valid,
            Result::Err(_) => qsym_fold_v(
                qsyms_view(qsyms@),
                crate::logic::names_view(old(usyms)@),
                old(b)@.src,
                *old(was_if),
            ) is None,
        },
{
    let ghost qsv = qsyms_view(qsyms@);
    let ghost usyms0 = crate::logic::names_view(usyms@);
    let ghost srcs0 = b@.src;
    let ghost wif0 = *was_if;
    let ghost qwhole = qsym_fold_v(qsv, usyms0, srcs0, wif0);
    let nq = qsyms.len();
    let mut qi: usize = 0;
    proof {
        assert(qsv.skip(0) =~= qsv);
    }
    while qi < nq
        invariant
            qi <= nq,
            nq == qsyms@.len(),
            qsv.len() == nq,
            qsv == qsyms_view(qsyms@),
            src_block_wf(b@),
            pending_wf(b@.src, *was_if),
            b@.idx == 0,
            b@.name == old(b)@.name,
            b@.logic == old(b)@.logic,
            b@.visited == old(b)@.visited,
            b@.or_valid == old(b)@.or_valid,
            qwhole == qsym_fold_v(qsv, usyms0, srcs0, wif0),
            usyms0 == crate::logic::names_view(old(usyms)@),
            srcs0 == old(b)@.src,
            wif0 == *old(was_if),
            qsym_fold_v(
                qsv.skip(qi as int),
                crate::logic::names_view(usyms@),
                b@.src,
                *was_if,
            ) == qwhole,
        decreases nq - qi,
    {
        proof {
            assert(qsv.skip(qi as int).first() == qsv[qi as int]);
            assert(qsv.skip(qi as int).drop_first() =~= qsv.skip(qi as int + 1));
            assert(qsyms@[qi as int].0@ == qsv[qi as int].0);
            assert(qsyms@[qi as int].1@ == qsv[qi as int].1);
        }
        let ghost us_pre = crate::logic::names_view(usyms@);
        let ghost srcs_pre = b@.src;
        let ghost wif_pre = *was_if;
        let qsym = qsyms[qi].0.clone();
        let osym = qsyms[qi].1.clone();
        if !contains_string(usyms, &qsym) {
            usyms.push(qsym.clone());
            proof {
                assert(crate::logic::names_view(usyms@) =~= crate::logic::names_view(
                    usyms@.drop_last(),
                ).push(usyms@.last()@));
            }
            match bind_one(b, qsym, osym, *was_if) {
                Result::Ok(nw) => {
                    *was_if = nw;
                    proof {
                        let stmt = b@.src.last();
                        lemma_qsym_bind(qsv, qi as int, us_pre, srcs_pre, wif_pre, stmt);
                        assert(crate::logic::names_view(usyms@) =~= us_pre.push(
                            qsv[qi as int].0,
                        ));
                        assert(b@.src =~= srcs_pre.push(stmt));
                        assert(qsym_fold_v(
                            qsv.skip(qi as int + 1),
                            crate::logic::names_view(usyms@),
                            b@.src,
                            *was_if,
                        ) == qwhole);
                    }
                },
                Result::Err(e) => {
                    proof {
                        lemma_qsym_fail(qsv, qi as int, us_pre, srcs_pre, wif_pre);
                    }
                    return Result::Err(e);
                },
            }
        } else {
            proof {
                lemma_qsym_skip(qsv, qi as int, us_pre, srcs_pre, wif_pre);
                assert(qsym_fold_v(
                    qsv.skip(qi as int + 1),
                    crate::logic::names_view(usyms@),
                    b@.src,
                    *was_if,
                ) == qwhole);
            }
        }
        qi = qi + 1;
    }
    proof {
        assert(qsv.skip(nq as int) =~= Seq::<(Seq<char>, Seq<char>)>::empty());
    }
    Result::Ok(())
}

/// Rewrite the negation sugar over a statement's tokens, per `rewrite_v`.
#[verifier::rlimit(100)]
#[verifier::spinoff_prover]
fn rewrite_sugar(toks: Vec<IR>) -> (r: (Vec<IR>, Vec<(String, String)>))
    ensures
        (crate::var::irs_of(r.0@), qsyms_view(r.1@)) == rewrite_v(crate::var::irs_of(toks@)),
{
    let ghost exps2 = crate::var::irs_of(toks@);
    let mut exps = toks;
    let mut qsyms: Vec<(String, String)> = Vec::new();
    let mut rewritten: Vec<IR> = Vec::new();
    let ne = exps.len();
    let mut k: usize = 0;
    proof {
        assert(exps2.take(0) =~= Seq::<IRV>::empty());
        assert(crate::var::irs_of(rewritten@) =~= Seq::<IRV>::empty());
        assert(qsyms_view(qsyms@) =~= Seq::<(Seq<char>, Seq<char>)>::empty());
    }
    while k < ne
        invariant
            k <= ne,
            ne == exps@.len(),
            exps2.len() == ne,
            forall|j: int|
                k <= j < ne ==> crate::parse::ir_view(#[trigger] exps@[j]) == exps2[j],
            (crate::var::irs_of(rewritten@), qsyms_view(qsyms@)) == rewrite_v(
                exps2.take(k as int),
            ),
        decreases ne - k,
    {
        let ghost rw0 = crate::var::irs_of(rewritten@);
        let ghost qv0 = qsyms_view(qsyms@);
        let mut tok = IR::Sym(String::new());
        core::mem::swap(&mut tok, &mut exps[k]);
        proof {
            assert(crate::parse::ir_view(tok) == exps2[k as int]);
            assert(exps2.take(k + 1).drop_last() =~= exps2.take(k as int));
            assert(exps2.take(k + 1).last() == exps2[k as int]);
        }
        let tok2 = match tok {
            IR::Sym(sy) => {
                let r2 = IR::Sym(adjust_sym(&mut qsyms, sy));
                proof {
                    assert(qsyms_view(qsyms@) =~= qv0 + adj_tok_v(exps2[k as int]).1);
                }
                r2
            },
            IR::MapLit(inner) => {
                let ghost innerv = irs_view(inner@);
                proof {
                    lemma_irs_view(inner@);
                    assert(innerv.take(0) =~= Seq::<IRV>::empty());
                    assert(crate::var::irs_of(Seq::<IR>::empty()) =~= Seq::<IRV>::empty());
                }
                let mut inner2: Vec<IR> = Vec::new();
                let ni = inner.len();
                let mut q: usize = 0;
                let mut inner = inner;
                while q < ni
                    invariant
                        q <= ni,
                        ni == inner@.len(),
                        innerv.len() == ni,
                        forall|j: int|
                            q <= j < ni ==> crate::parse::ir_view(#[trigger] inner@[j])
                                == innerv[j],
                        (crate::var::irs_of(inner2@), qsyms_view(qsyms@)) == ({
                            let pr = rewrite_inner_v(innerv.take(q as int));
                            (pr.0, qv0 + pr.1)
                        }),
                    decreases ni - q,
                {
                    let ghost in0 = crate::var::irs_of(inner2@);
                    let ghost qin0 = qsyms_view(qsyms@);
                    let mut t2 = IR::Sym(String::new());
                    core::mem::swap(&mut t2, &mut inner[q]);
                    proof {
                        assert(crate::parse::ir_view(t2) == innerv[q as int]);
                        assert(innerv.take(q + 1).drop_last() =~= innerv.take(q as int));
                        assert(innerv.take(q + 1).last() == innerv[q as int]);
                    }
                    let t3 = match t2 {
                        IR::Sym(sy) => IR::Sym(adjust_sym(&mut qsyms, sy)),
                        other => other,
                    };
                    inner2.push(t3);
                    proof {
                        assert(crate::var::irs_of(inner2@) =~= in0.push(
                            crate::parse::ir_view(inner2@.last()),
                        ));
                        assert(qsyms_view(qsyms@) =~= ({
                            let pr = rewrite_inner_v(innerv.take(q + 1));
                            qv0 + pr.1
                        }));
                    }
                    q = q + 1;
                }
                proof {
                    assert(innerv.take(ni as int) =~= innerv);
                    assert(adj_tok_v(exps2[k as int]) == (
                        IRV::MapLit(rewrite_inner_v(innerv).0),
                        rewrite_inner_v(innerv).1,
                    ));
                    assert(qsyms_view(qsyms@) =~= qv0 + adj_tok_v(exps2[k as int]).1);
                    lemma_irs_view(inner2@);
                    assert(irs_view(inner2@) =~= crate::var::irs_of(inner2@));
                    assert(ir_view(IR::MapLit(inner2)) == adj_tok_v(exps2[k as int]).0);
                }
                IR::MapLit(inner2)
            },
            other => {
                proof {
                    assert(qsyms_view(qsyms@) =~= qv0 + adj_tok_v(exps2[k as int]).1);
                }
                other
            },
        };
        rewritten.push(tok2);
        proof {
            assert(crate::var::irs_of(rewritten@) =~= rw0.push(
                crate::parse::ir_view(rewritten@.last()),
            ));
            assert(crate::parse::ir_view(rewritten@.last()) == adj_tok_v(
                exps2[k as int],
            ).0);
        }
        k = k + 1;
    }
    proof {
        assert(exps2.take(ne as int) =~= exps2);
    }
    (rewritten, qsyms)
}

impl Parser {
    /// Lex and build blocks out of source text, per `blocks_of_text`.
    ///
    /// The lexer walks the text once, tracking string, comment, vector and
    /// map modes; statement boundaries close a token run, which the
    /// statement parsers turn into typed statements; `;` closes a block.
    /// Every block handed back is well formed: cursors at zero, statements
    /// sound, and `or` only immediately after `if`.
    pub fn parse_blocks(src: &str) -> (r: Result<Parser, &'static str>)
        ensures
            match r {
                Result::Ok(p) => blocks_of_text(src@) == Option::Some(blocks_view(p.0@))
                    && (forall|i: int|
                    0 <= i < p.0@.len() ==> block_wf((#[trigger] p.0@[i])@)),
                Result::Err(_) => blocks_of_text(src@) is None,
            },
    {
        let cs = str_chars(src);
        let n = cs.len();
        let mut lx = Lexer::new();
        let mut ci: usize = 0;
        while ci < n
            invariant
                ci <= n,
                n == cs@.len(),
                cs@ == src@,
                lexer_wf(&lx),
                lex_fold(src@, ci as int) == Option::Some(lx@),
            decreases n - ci,
        {
            let c = cs[ci];
            ci = ci + 1;
            proof {
                assert(c == src@[ci - 1]);
            }
            match lx.step(c) {
                Result::Ok(_) => {},
                Result::Err(e) => {
                    proof {
                        lemma_lex_fold_none(src@, ci as int, src@.len() as int);
                    }
                    return Result::Err(e);
                },
            }
        }
        let out = lx.finish();
        Result::Ok(Parser(out))
    }

    /// Move this parser's blocks onto a list; the index where they begin,
    /// or nothing when there were none.
    pub fn sink(self, v: &mut Vec<Block>) -> (r: Option<usize>)
        ensures
            final(v)@ == old(v)@ + self.0@,
            match r {
                Option::Some(i) => self.0@.len() > 0 && i == old(v)@.len(),
                Option::None => self.0@.len() == 0 && final(v)@ == old(v)@,
            },
    {
        let ghost selfg = self.0@;
        if self.0.len() > 0 {
            let start = v.len();
            let mut mine = self.0;
            v.append(&mut mine);
            proof {
                assert(v@ =~= old(v)@ + selfg);
            }
            Option::Some(start)
        } else {
            proof {
                assert(v@ =~= old(v)@ + selfg);
            }
            Option::None
        }
    }

    /// Build an environment holding exactly this parser's blocks: an empty
    /// environment with each block inserted under its own name, in order.
    pub fn into_env(self) -> (r: crate::env::Env<crate::fun::NoFuns>)
        requires
            forall|i: int| 0 <= i < self.0@.len() ==> block_wf((#[trigger] self.0@[i])@),
        ensures
            crate::env::env_wf(&r),
            ({
                let out = crate::env::env_insert_v(
                    Seq::empty(),
                    Seq::empty(),
                    blocks_view(self.0@),
                );
                crate::strmap::assoc_deep(r.src@) == out.0 && r.def@ == out.1
            }),
    {
        let mut env = crate::env::Env::empty();
        proof {
            assert(crate::strmap::assoc_deep(env.src@) =~= Seq::<
                (Seq<char>, SrcBlockV),
            >::empty());
        }
        env.insert(self.0);
        env
    }
}

pub open spec fn is_space_v(c: char) -> bool {
    c == ' ' || c == '\t' || c == '\n' || c == '\r'
}

/// Whitespace splitting, one character at a time: a nonempty run between
/// whitespace becomes one raw token.
pub open spec fn ws_go(s: Seq<char>, i: nat, cur: Seq<char>, acc: Seq<IRV>) -> Seq<IRV>
    decreases s.len() - i,
{
    if i >= s.len() {
        if cur.len() > 0 {
            acc.push(IRV::Sym(cur))
        } else {
            acc
        }
    } else {
        let c = s[i as int];
        if is_space_v(c) {
            if cur.len() > 0 {
                ws_go(s, i + 1, Seq::empty(), acc.push(IRV::Sym(cur)))
            } else {
                ws_go(s, i + 1, Seq::empty(), acc)
            }
        } else {
            ws_go(s, i + 1, cur.push(c), acc)
        }
    }
}

/// The raw tokens of a run of text.
pub open spec fn ws_toks(s: Seq<char>) -> Seq<IRV> {
    ws_go(s, 0, Seq::empty(), Seq::empty())
}

/// Leading whitespace characters.
pub open spec fn lead_ws(s: Seq<char>) -> int
    decreases s.len(),
{
    if s.len() > 0 && is_space_v(s[0]) {
        1 + lead_ws(s.drop_first())
    } else {
        0
    }
}

/// Trailing whitespace characters.
pub open spec fn trail_ws(s: Seq<char>) -> int
    decreases s.len(),
{
    if s.len() > 0 && is_space_v(s.last()) {
        1 + trail_ws(s.drop_last())
    } else {
        0
    }
}

/// The text with surrounding whitespace removed.
pub open spec fn trim_v(s: Seq<char>) -> Seq<char> {
    if lead_ws(s) >= s.len() {
        Seq::empty()
    } else {
        s.subrange(lead_ws(s), s.len() - trail_ws(s))
    }
}

/// The rewritten form of a negated name.
pub open spec fn not_name(s: Seq<char>) -> Seq<char> {
    seq!['n', 'o', 't', '_'] + s.skip(1)
}

/// The views of the collected negation bindings.
pub open spec fn qsyms_view(v: Seq<(String, String)>) -> Seq<(Seq<char>, Seq<char>)> {
    Seq::new(v.len(), |i: int| (v[i].0@, v[i].1@))
}

/// Whether a run of names holds one equal to `x`.
pub open spec fn names_contains(ns: Seq<Seq<char>>, x: Seq<char>) -> bool {
    exists|i: int| 0 <= i < ns.len() && ns[i] == x
}

/// The lexer's whole state between two characters.
#[verifier::ext_equal]
pub struct LexState {
    /// Completed blocks, in input order.
    pub blocks: Seq<BlockV>,
    /// Characters of the token being accumulated.
    pub exp: Seq<char>,
    /// Tokens of the statement being accumulated.
    pub exps: Seq<IRV>,
    /// Tokens of the map literal being accumulated.
    pub map_ir: Seq<IRV>,
    /// The block under construction, if its header has been read.
    pub cur: Option<BlockV>,
    pub in_string: bool,
    pub in_comment: bool,
    pub in_vec: bool,
    pub in_map: bool,
    /// Whether the preceding statement was an `if`, arming `or`.
    pub was_if: bool,
    /// Names already bound by negation sugar in this block.
    pub usyms: Seq<Seq<char>>,
}

pub open spec fn lex_init() -> LexState {
    LexState {
        blocks: Seq::empty(),
        exp: Seq::empty(),
        exps: Seq::empty(),
        map_ir: Seq::empty(),
        cur: Option::None,
        in_string: false,
        in_comment: false,
        in_vec: false,
        in_map: false,
        was_if: false,
        usyms: Seq::empty(),
    }
}

/// Rewrite one raw token's negation sugar; the synthetic bindings it adds.
pub open spec fn adj_tok_v(t: IRV) -> (IRV, Seq<(Seq<char>, Seq<char>)>) {
    match t {
        IRV::Sym(s) => if s.len() > 0 && s[0] == '!' {
            (IRV::Sym(not_name(s)), seq![(not_name(s), s)])
        } else {
            (t, Seq::empty())
        },
        IRV::MapLit(v) => {
            let inner = rewrite_inner_v(v);
            (IRV::MapLit(inner.0), inner.1)
        },
        _ => (t, Seq::empty()),
    }
}

/// Negation sugar inside a map literal: raw tokens only.
pub open spec fn rewrite_inner_v(v: Seq<IRV>) -> (Seq<IRV>, Seq<(Seq<char>, Seq<char>)>)
    decreases v.len(),
{
    if v.len() == 0 {
        (Seq::empty(), Seq::empty())
    } else {
        let pre = rewrite_inner_v(v.drop_last());
        match v.last() {
            IRV::Sym(s) => if s.len() > 0 && s[0] == '!' {
                (pre.0.push(IRV::Sym(not_name(s))), pre.1.push((not_name(s), s)))
            } else {
                (pre.0.push(v.last()), pre.1)
            },
            _ => (pre.0.push(v.last()), pre.1),
        }
    }
}

/// Negation sugar over a statement's tokens, collecting the bindings.
pub open spec fn rewrite_v(toks: Seq<IRV>) -> (Seq<IRV>, Seq<(Seq<char>, Seq<char>)>)
    decreases toks.len(),
{
    if toks.len() == 0 {
        (Seq::empty(), Seq::empty())
    } else {
        let pre = rewrite_v(toks.drop_last());
        let one = adj_tok_v(toks.last());
        (pre.0.push(one.0), pre.1 + one.1)
    }
}

/// Data entries taken in pairs off a header line.
pub open spec fn hdr_def_pairs_v(
    toks: Seq<IRV>,
    data: Seq<(Seq<char>, crate::var::VarV)>,
) -> Option<Seq<(Seq<char>, crate::var::VarV)>>
    decreases toks.len(),
{
    if toks.len() == 0 {
        Option::Some(data)
    } else if toks.len() == 1 {
        Option::None
    } else {
        match crate::var::var_of_ir(toks[1]) {
            Option::Some(v) => hdr_def_pairs_v(
                toks.skip(2),
                crate::strmap::assoc_set(data, ir_text(toks[0]), v),
            ),
            Option::None => Option::None,
        }
    }
}

/// The header statement: `def` plus a name opens a data block (any further
/// tokens are its first entries); a sole name opens a source block.
pub open spec fn hdr_v(exps: Seq<IRV>) -> Option<BlockV>
    recommends
        exps.len() >= 1,
{
    let name = ir_text(exps[0]);
    let rest = exps.drop_first();
    if name == seq!['d', 'e', 'f'] {
        if rest.len() == 0 {
            Option::None
        } else {
            match hdr_def_pairs_v(rest.drop_first(), Seq::empty()) {
                Option::Some(d) => Option::Some(
                    BlockV::Def(crate::def::DefBlockV { name: ir_text(rest[0]), data: d }),
                ),
                Option::None => Option::None,
            }
        }
    } else {
        Option::Some(
            BlockV::Src(
                SrcBlockV {
                    name: name,
                    src: Seq::empty(),
                    idx: 0,
                    visited: false,
                    or_valid: false,
                    logic: Seq::empty(),
                },
            ),
        )
    }
}

/// Fold the collected negation bindings into a source block: each new name
/// prepends its synthetic binding statement, under the or-after-if rule.
pub open spec fn qsym_fold_v(
    qs: Seq<(Seq<char>, Seq<char>)>,
    usyms: Seq<Seq<char>>,
    srcs: Seq<crate::source::SrcV>,
    wif: bool,
) -> Option<(Seq<crate::source::SrcV>, bool, Seq<Seq<char>>)>
    decreases qs.len(),
{
    if qs.len() == 0 {
        Option::Some((srcs, wif, usyms))
    } else {
        let q = qs.first().0;
        let o = qs.first().1;
        if names_contains(usyms, q) {
            qsym_fold_v(qs.drop_first(), usyms, srcs, wif)
        } else {
            match crate::source::src_parse_v(seq![IRV::Sym(q), IRV::Sym(o)]) {
                Option::None => Option::None,
                Option::Some(stmt) => if stmt is Or && !wif {
                    Option::None
                } else {
                    qsym_fold_v(
                        qs.drop_first(),
                        usyms.push(q),
                        srcs.push(stmt),
                        stmt is If,
                    )
                },
            }
        }
    }
}

/// A statement added to the block under construction.
pub open spec fn stmt_step_v(
    cur: BlockV,
    exps: Seq<IRV>,
    usyms: Seq<Seq<char>>,
    wif: bool,
) -> Option<(BlockV, Seq<Seq<char>>, bool)> {
    let rw = rewrite_v(exps).0;
    let qs = rewrite_v(exps).1;
    match cur {
        BlockV::Def(db) => if rw.len() < 2 {
            Option::None
        } else {
            match crate::var::var_of_ir(rw.last()) {
                Option::None => Option::None,
                Option::Some(v) => Option::Some(
                    (
                        BlockV::Def(
                            crate::def::DefBlockV {
                                name: db.name,
                                data: crate::strmap::assoc_set(
                                    db.data,
                                    ir_text(rw[rw.len() - 2]),
                                    v,
                                ),
                            },
                        ),
                        usyms,
                        wif,
                    ),
                ),
            }
        },
        BlockV::Src(sb) => match qsym_fold_v(qs, usyms, sb.src, wif) {
            Option::None => Option::None,
            Option::Some(st) => match crate::source::src_parse_v(rw) {
                Option::None => Option::None,
                Option::Some(stmt) => if stmt is Or && !st.1 {
                    Option::None
                } else {
                    Option::Some(
                        (
                            BlockV::Src(SrcBlockV { src: st.0.push(stmt), ..sb }),
                            st.2,
                            stmt is If,
                        ),
                    )
                },
            },
        },
    }
}

/// A `;` seals the block under construction.
pub open spec fn close_v(st: LexState) -> Option<LexState> {
    match st.cur {
        Option::Some(b) => Option::Some(
            LexState {
                blocks: st.blocks.push(b),
                cur: Option::None,
                usyms: Seq::empty(),
                was_if: false,
                ..st
            },
        ),
        Option::None => Option::None,
    }
}

/// The flushing half of a boundary: the pending run becomes raw tokens,
/// and `}` seals the open map literal into one token.
pub open spec fn boundary_front(st: LexState, c: char) -> LexState {
    let parts = ws_toks(st.exp);
    let exps1 = if st.in_map {
        st.exps
    } else {
        st.exps + parts
    };
    let map1 = if st.in_map {
        st.map_ir + parts
    } else {
        st.map_ir
    };
    let closing_map = c == '}' && st.in_map;
    let exps2 = if closing_map {
        exps1.push(IRV::MapLit(map1))
    } else {
        exps1
    };
    let map2: Seq<IRV> = if closing_map {
        Seq::empty()
    } else {
        map1
    };
    LexState {
        exp: Seq::empty(),
        exps: exps2,
        map_ir: map2,
        in_map: st.in_map && !closing_map,
        ..st
    }
}

/// A statement boundary: flush the pending token run, close a map literal
/// on `}`, build the header or statement, and close the block on `;`.
pub open spec fn boundary_v(st: LexState, c: char) -> Option<LexState> {
    let st2 = boundary_front(st, c);
    let exps2 = st2.exps;
    if exps2.len() < 1 {
        if c == ';' {
            close_v(st2)
        } else {
            Option::Some(st2)
        }
    } else {
        let st3opt = match st2.cur {
            Option::None => match hdr_v(exps2) {
                Option::None => Option::None,
                Option::Some(b) => Option::Some(
                    LexState { cur: Option::Some(b), exps: Seq::empty(), ..st2 },
                ),
            },
            Option::Some(curb) => match stmt_step_v(curb, exps2, st2.usyms, st2.was_if) {
                Option::None => Option::None,
                Option::Some(out) => Option::Some(
                    LexState {
                        cur: Option::Some(out.0),
                        usyms: out.1,
                        was_if: out.2,
                        exps: Seq::empty(),
                        ..st2
                    },
                ),
            },
        };
        match st3opt {
            Option::None => Option::None,
            Option::Some(st3) => if c == ';' {
                close_v(st3)
            } else {
                Option::Some(st3)
            },
        }
    }
}

/// A quote toggles string mode: entering flushes the pending raw run;
/// leaving turns the accumulated characters into one string token.
pub open spec fn quote_v(st: LexState) -> LexState {
    if !st.in_string {
        let parts = ws_toks(st.exp);
        if st.in_map {
            LexState { in_string: true, map_ir: st.map_ir + parts, exp: Seq::empty(), ..st }
        } else {
            LexState { in_string: true, exps: st.exps + parts, exp: Seq::empty(), ..st }
        }
    } else {
        if st.in_map {
            LexState {
                in_string: false,
                map_ir: st.map_ir.push(IRV::Str(st.exp)),
                exp: Seq::empty(),
                ..st
            }
        } else {
            LexState {
                in_string: false,
                exps: st.exps.push(IRV::Str(st.exp)),
                exp: Seq::empty(),
                ..st
            }
        }
    }
}

/// One character of lexing, mirroring the modes of the scanner: vector
/// brackets, comments, newline handling, statement and block boundaries,
/// quotes, map openings, and plain accumulation.
pub open spec fn lex_step(st: LexState, c: char) -> Option<LexState> {
    if !st.in_comment && !st.in_string && c == '[' {
        Option::Some(LexState { in_vec: true, ..st })
    } else {
        let st1 = if !st.in_comment && !st.in_string && c == ']' {
            LexState { in_vec: false, ..st }
        } else {
            st
        };
        if c == '#' && !st1.in_string {
            Option::Some(LexState { in_comment: true, ..st1 })
        } else {
            let st2 = if c == '\n' && st1.in_comment && !st1.in_string {
                LexState { in_comment: false, ..st1 }
            } else {
                st1
            };
            if c == '\n' && (st2.in_vec || st2.in_map) && !st2.in_comment && !st2.in_string {
                Option::Some(st2)
            } else if (c == ']' || c == '}' || c == '\n' || c == ';') && !st2.in_string
                && !st2.in_comment {
                boundary_v(st2, c)
            } else if c == '"' && !st2.in_comment {
                Option::Some(quote_v(st2))
            } else if c == '{' && !st2.in_comment && !st2.in_string {
                Option::Some(
                    LexState {
                        in_map: true,
                        exps: st2.exps.push(IRV::Sym(trim_v(st2.exp))),
                        exp: Seq::empty(),
                        ..st2
                    },
                )
            } else if !st2.in_comment {
                Option::Some(LexState { exp: st2.exp.push(c), ..st2 })
            } else {
                Option::Some(st2)
            }
        }
    }
}

/// The lexer state after the first `i` characters, if no error occurred.
pub open spec fn lex_fold(s: Seq<char>, i: int) -> Option<LexState>
    decreases i,
{
    if i <= 0 {
        Option::Some(lex_init())
    } else {
        match lex_fold(s, i - 1) {
            Option::None => Option::None,
            Option::Some(st) => lex_step(st, s[i - 1]),
        }
    }
}

/// What a whole source text parses to: the blocks the lexer collected, or
/// nothing on a parse error.
pub open spec fn blocks_of_text(s: Seq<char>) -> Option<Seq<BlockV>> {
    match lex_fold(s, s.len() as int) {
        Option::None => Option::None,
        Option::Some(st) => Option::Some(st.blocks),
    }
}

/// An exec lexer state, as one record.
pub open spec fn mirror(
    v: Seq<Block>,
    exp: Seq<char>,
    exps: Seq<IR>,
    map_ir: Seq<IR>,
    block: Option<Block>,
    in_string: bool,
    in_comment: bool,
    in_vec: bool,
    in_map: bool,
    was_if: bool,
    usyms: Seq<String>,
) -> LexState {
    LexState {
        blocks: blocks_view(v),
        exp: exp,
        exps: crate::var::irs_of(exps),
        map_ir: crate::var::irs_of(map_ir),
        cur: match block {
            Option::Some(b) => Option::Some(b@),
            Option::None => Option::None,
        },
        in_string: in_string,
        in_comment: in_comment,
        in_vec: in_vec,
        in_map: in_map,
        was_if: was_if,
        usyms: crate::logic::names_view(usyms),
    }
}

/// The vector-open step.
proof fn lemma_mirror_step(st0: LexState, c: char, st1: LexState)
    requires
        !st0.in_comment,
        !st0.in_string,
        c == '[',
        st1 == (LexState { in_vec: true, ..st0 }),
    ensures
        lex_step(st0, c) == Option::Some(st1),
{
}

/// A failed step fails the whole fold.
proof fn lemma_lex_fold_none(s: Seq<char>, i: int, j: int)
    requires
        0 <= i <= j,
        lex_fold(s, i) is None,
    ensures
        lex_fold(s, j) is None,
    decreases j - i,
{
    if j > i {
        lemma_lex_fold_none(s, i, j - 1);
    }
}

/// The pending-statement rule while a block is under construction: `or`
/// stands only immediately after `if`, and `was_if` reflects the tail.
pub open spec fn pending_wf(srcs: Seq<crate::source::SrcV>, was_if: bool) -> bool {
    was_if ==> srcs.len() > 0 && srcs.last() is If
}

/// Whitespace-separated raw tokens of a run of text, per `ws_toks`.
fn split_whitespace_tokens(s: &String) -> (r: Vec<IR>)
    ensures
        crate::var::irs_of(r@) == ws_toks(s@),
{
    let cs = str_chars(s.as_str());
    let n = cs.len();
    let mut out: Vec<IR> = Vec::new();
    let mut cur = String::new();
    let mut i: usize = 0;
    proof {
        assert(crate::var::irs_of(out@) =~= Seq::<IRV>::empty());
        assert(cur@ =~= Seq::<char>::empty());
    }
    while i < n
        invariant
            i <= n,
            n == cs@.len(),
            cs@ == s@,
            ws_go(s@, i as nat, cur@, crate::var::irs_of(out@)) == ws_toks(s@),
        decreases n - i,
    {
        let ghost acc0 = crate::var::irs_of(out@);
        let ghost cur0 = cur@;
        let c = cs[i];
        proof {
            assert(c == s@[i as int]);
        }
        if c == ' ' || c == '\t' || c == '\n' || c == '\r' {
            if cur.as_str().unicode_len() > 0 {
                out.push(IR::Sym(cur));
                cur = String::new();
                proof {
                    assert(crate::var::irs_of(out@) =~= acc0.push(IRV::Sym(cur0)));
                    assert(cur@ =~= Seq::<char>::empty());
                }
            } else {
                proof {
                    assert(cur@ =~= Seq::<char>::empty());
                }
            }
        } else {
            push_char(&mut cur, c);
        }
        proof {
            assert(ws_go(s@, (i + 1) as nat, cur@, crate::var::irs_of(out@)) == ws_go(
                s@,
                i as nat,
                cur0,
                acc0,
            ));
        }
        i = i + 1;
    }
    if cur.as_str().unicode_len() > 0 {
        let ghost acc0 = crate::var::irs_of(out@);
        let ghost cur0 = cur@;
        out.push(IR::Sym(cur));
        proof {
            assert(crate::var::irs_of(out@) =~= acc0.push(IRV::Sym(cur0)));
        }
    }
    out
}

/// Leading whitespace runs to exactly `lead_ws`.
proof fn lemma_lead_ws_at(s: Seq<char>, k: int)
    requires
        0 <= k <= s.len(),
        forall|j: int| 0 <= j < k ==> is_space_v(s[j]),
        k < s.len() ==> !is_space_v(s[k]),
    ensures
        lead_ws(s) == k,
    decreases s.len(),
{
    if k > 0 {
        assert(forall|j: int|
            0 <= j < s.drop_first().len() ==> #[trigger] s.drop_first()[j] == s[j + 1]);
        lemma_lead_ws_at(s.drop_first(), k - 1);
    }
}

/// Trailing whitespace runs to exactly `trail_ws`.
proof fn lemma_trail_ws_at(s: Seq<char>, k: int)
    requires
        0 <= k <= s.len(),
        forall|j: int| s.len() - k <= j < s.len() ==> is_space_v(s[j]),
        k < s.len() ==> !is_space_v(s[s.len() - k - 1]),
    ensures
        trail_ws(s) == k,
    decreases s.len(),
{
    if k > 0 {
        assert(forall|j: int|
            0 <= j < s.drop_last().len() ==> #[trigger] s.drop_last()[j] == s[j]);
        lemma_trail_ws_at(s.drop_last(), k - 1);
    }
}

/// The text with surrounding whitespace removed, per `trim_v`.
fn trim_text(s: &String) -> (r: String)
    ensures
        r@ == trim_v(s@),
{
    let cs = str_chars(s.as_str());
    let n = cs.len();
    let mut lo: usize = 0;
    while lo < n && is_space(cs[lo])
        invariant
            lo <= n,
            n == cs@.len(),
            cs@ == s@,
            forall|j: int| 0 <= j < lo ==> is_space_v(s@[j]),
        decreases n - lo,
    {
        lo = lo + 1;
    }
    proof {
        lemma_lead_ws_at(s@, lo as int);
    }
    if lo == n {
        let out = String::new();
        proof {
            assert(out@ =~= trim_v(s@));
        }
        return out;
    }
    let mut hi: usize = n;
    while hi > lo && is_space(cs[hi - 1])
        invariant
            lo <= hi <= n,
            n == cs@.len(),
            cs@ == s@,
            forall|j: int| hi <= j < n ==> is_space_v(s@[j]),
        decreases hi,
    {
        hi = hi - 1;
    }
    proof {
        assert(!is_space_v(s@[lo as int]));
        assert(hi > lo);
        lemma_trail_ws_at(s@, n - hi);
    }
    let mut out = String::new();
    let mut i = lo;
    while i < hi
        invariant
            lo <= i <= hi <= n,
            n == cs@.len(),
            cs@ == s@,
            out@ == s@.subrange(lo as int, i as int),
        decreases hi - i,
    {
        push_char(&mut out, cs[i]);
        i = i + 1;
        proof {
            assert(out@ =~= s@.subrange(lo as int, i as int));
        }
    }
    proof {
        assert(out@ == trim_v(s@));
    }
    out
}

fn is_space(c: char) -> (r: bool)
    ensures
        r == is_space_v(c),
{
    c == ' ' || c == '\t' || c == '\n' || c == '\r'
}

/// Rewrite a `!name` token to `not_name`, recording the synthetic binding.
fn adjust_sym(qsyms: &mut Vec<(String, String)>, s: String) -> (r: String)
    ensures
        ({
            if s@.len() > 0 && s@[0] == '!' {
                r@ == not_name(s@) && qsyms_view(final(qsyms)@) == qsyms_view(
                    old(qsyms)@,
                ).push((not_name(s@), s@))
            } else {
                r@ == s@ && final(qsyms)@ == old(qsyms)@
            }
        }),
{
    let n = s.as_str().unicode_len();
    if n > 0 && s.as_str().get_char(0) == '!' {
        proof {
            reveal_strlit("not_");
        }
        let restr = s.as_str().substring_char(1, n);
        let mut sym = String::new();
        sym.append("not_");
        sym.append(restr);
        proof {
            assert("not_"@ =~= seq!['n', 'o', 't', '_']);
            assert(sym@ =~= not_name(s@));
        }
        let keep = sym.clone();
        qsyms.push((sym, s));
        proof {
            assert(qsyms_view(qsyms@) =~= qsyms_view(qsyms@.drop_last()).push(
                (qsyms@.last().0@, qsyms@.last().1@),
            ));
        }
        keep
    } else {
        s
    }
}

/// Whether a name is already among the unique synthetic bindings.
fn contains_string(v: &Vec<String>, s: &String) -> (r: bool)
    ensures
        r == names_contains(crate::logic::names_view(v@), s@),
{
    let n = v.len();
    let mut i: usize = 0;
    while i < n
        invariant
            i <= n,
            n == v@.len(),
            forall|j: int| 0 <= j < i ==> #[trigger] v@[j]@ != s@,
        decreases n - i,
    {
        if crate::text::string_eq(&v[i], s) {
            proof {
                assert(crate::logic::names_view(v@)[i as int] == s@);
            }
            return true;
        }
        i = i + 1;
    }
    proof {
        if names_contains(crate::logic::names_view(v@), s@) {
            let j = choose|j: int|
                0 <= j < v@.len() && crate::logic::names_view(v@)[j] == s@;
            assert(v@[j]@ == s@);
        }
    }
    false
}

/// Append a statement to a block under construction, holding the rule
/// that `or` stands only immediately after `if`; the new `was_if`.
fn push_stmt(b: &mut SrcBlock, stmt: crate::source::Src, was_if: bool) -> (r: Result<
    bool,
    &'static str,
>)
    requires
        src_block_wf(old(b)@),
        pending_wf(old(b)@.src, was_if),
        crate::source::src_wf(stmt@),
        old(b)@.idx == 0,
    ensures
        match r {
            Result::Ok(nw) => src_block_wf(final(b)@) && pending_wf(final(b)@.src, nw)
                && final(b)@.idx == 0 && final(b)@ == (SrcBlockV {
                src: old(b)@.src.push(stmt@),
                ..old(b)@
            }) && nw == stmt@ is If,
            Result::Err(_) => stmt@ is Or && !was_if && *final(b) == *old(b),
        },
        r is Err <==> stmt@ is Or && !was_if,
{
    let is_or = matches!(&stmt, crate::source::Src::Or(_, _));
    if is_or && !was_if {
        return Result::Err("If must prepend Or");
    }
    let is_if = matches!(&stmt, crate::source::Src::If(_, _, _));
    let ghost pre = b@.src;
    let ghost stmtv = stmt@;
    b.src.push(stmt);
    proof {
        assert(b@.src =~= pre.push(stmtv));
        assert forall|z: int|
            0 <= z < b@.src.len() && (#[trigger] b@.src[z]) is Or implies z > 0 && b@.src[z
            - 1] is If by {
            if z < pre.len() {
                assert(b@.src[z] == pre[z]);
                assert(b@.src[z - 1] == pre[z - 1]);
            } else {
                assert(b@.src[z] == stmtv);
                assert(was_if);
                assert(b@.src[z - 1] == pre.last());
            }
        }
        assert forall|z: int|
            0 <= z < b@.src.len() implies crate::source::src_wf(#[trigger] b@.src[z]) by {
            if z < pre.len() {
                assert(b@.src[z] == pre[z]);
            } else {
                assert(b@.src[z] == stmtv);
            }
        }
    }
    Result::Ok(is_if)
}

/// Insert an entry into a data block under construction.
fn def_insert(b: &mut crate::def::DefBlock, key: String, val: crate::var::Var) -> (r: ())
    requires
        crate::def::def_block_wf(old(b)@),
        crate::var::var_wf(val@),
    ensures
        crate::def::def_block_wf(final(b)@),
        final(b)@ == (crate::def::DefBlockV {
            name: old(b)@.name,
            data: crate::strmap::assoc_set(old(b)@.data, key@, val@),
        }),
{
    proof {
        crate::strmap::lemma_deep_keys(b.data@);
    }
    let ghost pre = b.data@;
    let ghost keyv = key@;
    let ghost valv = val@;
    b.data.insert(key, val);
    proof {
        crate::strmap::lemma_deep_set(pre, keyv, val);
        crate::strmap::lemma_deep_keys(pre);
        crate::strmap::lemma_assoc_set_unique(
            crate::strmap::assoc_deep(pre),
            keyv,
            valv,
        );
        assert forall|m: int|
            0 <= m < b@.data.len() implies crate::var::var_wf(#[trigger] b@.data[m].1) by {
            let dp = crate::strmap::assoc_deep(pre);
            if crate::strmap::assoc_has(dp, keyv) {
                let j = crate::strmap::assoc_idx(dp, keyv);
                if m != j {
                    assert(b@.data[m].1 == dp[m].1);
                }
            } else {
                if m < dp.len() {
                    assert(b@.data[m].1 == dp[m].1);
                }
            }
        }
    }
}

/// One pass of the streaming parser over buffered text: each `;` parses
/// the accumulated prefix and collects its blocks; the first completed
/// newline marks a block as pending; the unfinished tail stays buffered.
/// The result carries the blocks, the pending marker, the leftover text
/// and the index of the first block this pass completed.
pub open spec fn stream_go(
    text: Seq<char>,
    i: nat,
    blocktext: Seq<char>,
    blocks: Seq<BlockV>,
    curr: Seq<char>,
    start: Option<int>,
) -> Option<(Seq<BlockV>, Seq<char>, Seq<char>, Option<int>)>
    decreases text.len() - i,
{
    if i >= text.len() {
        Option::Some((blocks, curr, blocktext, start))
    } else {
        let c = text[i as int];
        let bt = blocktext.push(c);
        let curr1 = if curr.len() == 0 && c == '\n' {
            bt
        } else {
            curr
        };
        if c == ';' {
            match blocks_of_text(bt) {
                Option::None => Option::None,
                Option::Some(bs) => stream_go(
                    text,
                    i + 1,
                    Seq::empty(),
                    blocks + bs,
                    Seq::empty(),
                    if start is None && bs.len() > 0 {
                        Option::Some(blocks.len() as int)
                    } else {
                        start
                    },
                ),
            }
        } else {
            stream_go(text, i + 1, bt, blocks, curr1, start)
        }
    }
}

/// An optional index, as a mathematical value.
pub open spec fn opt_idx_view(r: Option<usize>) -> Option<int> {
    match r {
        Option::Some(i) => Option::Some(i as int),
        Option::None => Option::None,
    }
}

/// The streaming front end: bytes arrive in chunks; whenever a `;` closes
/// a block, the buffered text is parsed and the blocks collected.
#[derive(Debug)]
pub struct StreamParser {
    pub buf: String,
    pub blocks: Vec<Block>,
    pub curr_block: String,
}

impl StreamParser {
    /// A stream parser with an empty buffer.
    pub fn new() -> (r: StreamParser)
        ensures
            r.blocks@.len() == 0,
    {
        StreamParser { buf: String::new(), blocks: Vec::new(), curr_block: String::new() }
    }

    /// Whether a block is still being buffered.
    pub fn pending(&self) -> bool {
        self.curr_block.as_str().unicode_len() > 0
    }

    /// Feed a chunk of text, per `stream_go` over the buffered text plus
    /// the chunk: blocks a `;` completes are collected, the unfinished
    /// tail stays buffered, and the index of the first block this chunk
    /// completed comes back.  A parse error yields nothing and drops the
    /// unread tail.
    #[verifier::rlimit(100)]
    #[verifier::spinoff_prover]
    pub fn parse(&mut self, chunk: &str) -> (r: Option<usize>)
        requires
            forall|i: int|
                0 <= i < old(self).blocks@.len() ==> block_wf(
                    (#[trigger] old(self).blocks@[i])@,
                ),
        ensures
            forall|i: int|
                0 <= i < final(self).blocks@.len() ==> block_wf(
                    (#[trigger] final(self).blocks@[i])@,
                ),
            ({
                let whole = stream_go(
                    old(self).buf@ + chunk@,
                    0,
                    Seq::empty(),
                    blocks_view(old(self).blocks@),
                    old(self).curr_block@,
                    Option::None,
                );
                match whole {
                    Option::Some(out) => blocks_view(final(self).blocks@) == out.0
                        && final(self).curr_block@ == out.1 && final(self).buf@ == out.2
                        && opt_idx_view(r) == out.3,
                    Option::None => r is None,
                }
            }),
    {
        self.buf.append(chunk);
        let mut pending = String::new();
        core::mem::swap(&mut pending, &mut self.buf);
        let ghost text = pending@;
        proof {
            assert(text == old(self).buf@ + chunk@);
        }
        let cs = str_chars(pending.as_str());
        let n = cs.len();
        let mut blocktext = String::new();
        let mut start: Option<usize> = Option::None;
        let mut i: usize = 0;
        let ghost whole = stream_go(
            text,
            0,
            Seq::empty(),
            blocks_view(self.blocks@),
            self.curr_block@,
            Option::None,
        );
        proof {
            assert(blocktext@ =~= Seq::<char>::empty());
            assert(self.buf@ =~= Seq::<char>::empty());
        }
        while i < n
            invariant
                i <= n,
                n == cs@.len(),
                cs@ == text,
                text == old(self).buf@ + chunk@,
                whole == stream_go(
                    text,
                    0,
                    Seq::empty(),
                    blocks_view(old(self).blocks@),
                    old(self).curr_block@,
                    Option::None,
                ),
                self.buf@.len() == 0,
                forall|k: int|
                    0 <= k < self.blocks@.len() ==> block_wf((#[trigger] self.blocks@[k])@),
                stream_go(
                    text,
                    i as nat,
                    blocktext@,
                    blocks_view(self.blocks@),
                    self.curr_block@,
                    opt_idx_view(start),
                ) == whole,
            decreases n - i,
        {
            let ghost bt0 = blocktext@;
            let ghost blocks0 = blocks_view(self.blocks@);
            let ghost curr0 = self.curr_block@;
            let ghost start0 = opt_idx_view(start);
            let c = cs[i];
            proof {
                assert(c == text[i as int]);
            }
            push_char(&mut blocktext, c);
            if self.curr_block.as_str().unicode_len() == 0 && c == '\n' {
                self.curr_block = blocktext.clone();
            }
            if c == ';' {
                match Parser::parse_blocks(blocktext.as_str()) {
                    Result::Ok(p) => {
                        let ghost got_blocks = blocks_view(p.0@);
                        let got = p.sink(&mut self.blocks);
                        if start.is_none() {
                            start = got;
                        }
                        self.curr_block = String::new();
                        proof {
                            assert(self.curr_block@ =~= Seq::<char>::empty());
                            assert(blocks_view(self.blocks@) =~= blocks0 + got_blocks);
                        }
                    },
                    Result::Err(_) => {
                        proof {
                            assert(blocktext@ =~= bt0.push(c));
                            assert(stream_go(text, i as nat, bt0, blocks0, curr0, start0)
                                is None);
                        }
                        return Option::None;
                    },
                }
                blocktext = String::new();
                proof {
                    assert(blocktext@ =~= Seq::<char>::empty());
                }
            }
            i = i + 1;
        }
        proof {
            assert(whole == Option::Some(
                (blocks_view(self.blocks@), self.curr_block@, blocktext@, opt_idx_view(start)),
            ));
        }
        if blocktext.as_str().unicode_len() > 0 {
            self.buf = blocktext;
        } else {
            proof {
                assert(self.buf@ =~= blocktext@);
            }
        }
        start
    }

    /// Move the completed blocks into an environment, each inserted under
    /// its own name, in order; refused — with nothing changed — exactly
    /// while a block is still being buffered.
    pub fn sink<F: crate::fun::FunRegistry>(&mut self, v: &mut crate::env::Env<F>) -> (r:
        Result<(), &'static str>)
        requires
            crate::env::env_wf(old(v)),
            forall|i: int|
                0 <= i < old(self).blocks@.len() ==> block_wf(
                    (#[trigger] old(self).blocks@[i])@,
                ),
        ensures
            crate::env::env_wf(final(v)),
            r is Err <==> old(self).curr_block@.len() > 0,
            r is Err ==> *final(v) == *old(v) && *final(self) == *old(self),
            r is Ok ==> ({
                let out = crate::env::env_insert_v(
                    crate::strmap::assoc_deep(old(v).src@),
                    old(v).def@,
                    blocks_view(old(self).blocks@),
                );
                &&& crate::strmap::assoc_deep(final(v).src@) == out.0
                &&& final(v).def@ == out.1
                &&& final(v).fun == old(v).fun
                &&& final(self).blocks@.len() == 0
                &&& final(self).buf == old(self).buf
                &&& final(self).curr_block == old(self).curr_block
            }),
    {
        if self.curr_block.as_str().unicode_len() > 0 {
            return Result::Err("a block is still being buffered");
        }
        let mut mine: Vec<Block> = Vec::new();
        core::mem::swap(&mut mine, &mut self.blocks);
        v.insert(mine);
        Result::Ok(())
    }
}

/// The token list inside a map literal; anything else has none.
pub open spec fn ir_map_tokens(t: IRV) -> Seq<IRV> {
    match t {
        IRV::MapLit(v) => v,
        _ => Seq::empty(),
    }
}

/// Keys of the deep select view match the raw view's keys.
proof fn lemma_select_keys(m: Seq<(Seq<char>, Vec<crate::var::Var>)>)
    ensures
        crate::source::select_view(m).len() == m.len(),
        forall|k: Seq<char>|
            crate::strmap::assoc_has(crate::source::select_view(m), k)
                == crate::strmap::assoc_has(m, k),
{
    let sv = crate::source::select_view(m);
    assert forall|k: Seq<char>|
        crate::strmap::assoc_has(sv, k) == crate::strmap::assoc_has(m, k) by {
        if crate::strmap::assoc_has(m, k) {
            let i = crate::strmap::assoc_idx(m, k);
            assert(sv[i].0 == k);
        }
        if crate::strmap::assoc_has(sv, k) {
            let i = choose|i: int| 0 <= i < sv.len() && sv[i].0 == k;
            assert(m[i].0 == k);
        }
    }
}

/// The deep select view of an updated map is the update of the deep view.
proof fn lemma_select_set(
    m: Seq<(Seq<char>, Vec<crate::var::Var>)>,
    k: Seq<char>,
    v: Vec<crate::var::Var>,
)
    requires
        crate::strmap::keys_unique(m),
    ensures
        crate::source::select_view(crate::strmap::assoc_set(m, k, v))
            == crate::strmap::assoc_set(
            crate::source::select_view(m),
            k,
            crate::var::vars_view(v@),
        ),
{
    lemma_select_keys(m);
    if crate::strmap::assoc_has(m, k) {
        let i = crate::strmap::assoc_idx(m, k);
        assert(0 <= i < m.len() && m[i].0 == k);
        assert(crate::source::select_view(m)[i].0 == k);
        crate::strmap::lemma_assoc_at(crate::source::select_view(m), k, i);
        assert(crate::source::select_view(crate::strmap::assoc_set(m, k, v))
            =~= crate::strmap::assoc_set(
            crate::source::select_view(m),
            k,
            crate::var::vars_view(v@),
        ));
    } else {
        assert(crate::source::select_view(crate::strmap::assoc_set(m, k, v))
            =~= crate::strmap::assoc_set(
            crate::source::select_view(m),
            k,
            crate::var::vars_view(v@),
        ));
    }
}

proof fn lemma_ir_texts_take_step(v: Seq<IRV>, i: int)
    requires
        0 < i <= v.len(),
    ensures
        ir_texts(v.take(i)) == ir_texts(v.take(i - 1)) + ir_text(v[i - 1]),
{
    assert(v.take(i).drop_last() =~= v.take(i - 1));
    assert(v.take(i).last() == v[i - 1]);
}

} // verus!
