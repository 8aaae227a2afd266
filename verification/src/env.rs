//! The environment: named source blocks, the data store, and the host's
//! function registry.

use vstd::prelude::*;
use crate::strmap::{StrMap, keys_unique, assoc_has, assoc_get, assoc_set, assoc_deep,
    lemma_deep_keys, lemma_deep_get, lemma_deep_set, lemma_assoc_set_unique};
use crate::parse::{Block, BlockV, SrcBlock, SrcBlockV, src_block_wf, block_wf};
use crate::def::{Def, DefBlockV, def_wf, def_block_wf};
use crate::var::{Var, VarV, var_wf};
use crate::fun::{FunRegistry, NoFuns};

verus! {

/// All parsed source and data blocks, plus the host registry.
pub struct Env<F: FunRegistry> {
    pub src: StrMap<SrcBlock>,
    pub def: Def,
    pub fun: F,
}

/// Every source block is well formed and names are unique.
pub open spec fn env_src_wf(s: Seq<(Seq<char>, SrcBlockV)>) -> bool {
    &&& keys_unique(s)
    &&& forall|i: int| 0 <= i < s.len() ==> src_block_wf(#[trigger] s[i].1)
}

/// The whole environment is well formed.
pub open spec fn env_wf<F: FunRegistry>(e: &Env<F>) -> bool {
    &&& e.src.wf()
    &&& env_src_wf(assoc_deep(e.src@))
    &&& def_wf(e.def@)
}

/// The source and data tables after inserting a run of blocks, each under
/// its own name.
pub open spec fn env_insert_v(
    s: Seq<(Seq<char>, SrcBlockV)>,
    d: Seq<(Seq<char>, DefBlockV)>,
    bs: Seq<BlockV>,
) -> (Seq<(Seq<char>, SrcBlockV)>, Seq<(Seq<char>, DefBlockV)>)
    decreases bs.len(),
{
    if bs.len() == 0 {
        (s, d)
    } else {
        let prev = env_insert_v(s, d, bs.drop_last());
        match bs.last() {
            BlockV::Src(sb) => (assoc_set(prev.0, sb.name, sb), prev.1),
            BlockV::Def(db) => (prev.0, assoc_set(prev.1, db.name, db)),
        }
    }
}

impl Env<NoFuns> {
    /// An environment with no blocks and no host functions.
    pub fn empty() -> (r: Env<NoFuns>)
        ensures
            r.src@ == Seq::<(Seq<char>, SrcBlock)>::empty(),
            r.def@ == Seq::<(Seq<char>, DefBlockV)>::empty(),
            env_wf(&r),
    {
        let r = Env { src: StrMap::new(), def: Def::new(), fun: NoFuns };
        proof {
            assert(assoc_deep(r.src@) =~= Seq::<(Seq<char>, SrcBlockV)>::empty());
        }
        r
    }
}

impl<F: FunRegistry> Env<F> {
    /// The same environment with another host registry.
    pub fn with_funs<G: FunRegistry>(self, fun: G) -> (r: Env<G>)
        ensures
            r.src == self.src,
            r.def == self.def,
            env_wf(&self) ==> env_wf(&r),
    {
        Env { src: self.src, def: self.def, fun }
    }

    /// Insert parsed blocks, each under its own name.
    pub fn insert(&mut self, v: Vec<Block>)
        requires
            env_wf(old(self)),
            forall|i: int| 0 <= i < v@.len() ==> block_wf((#[trigger] v@[i])@),
        ensures
            env_wf(final(self)),
            ({
                let out = env_insert_v(
                    assoc_deep(old(self).src@),
                    old(self).def@,
                    Seq::new(v@.len(), |i: int| v@[i]@),
                );
                assoc_deep(final(self).src@) == out.0 && final(self).def@ == out.1
            }),
            final(self).fun == old(self).fun,
    {
        let ghost bs = Seq::new(v@.len(), |i: int| v@[i]@);
        let mut v = v;
        let n = v.len();
        let mut i: usize = 0;
        proof {
            assert(bs.take(0) =~= Seq::<BlockV>::empty());
        }
        while i < n
            invariant
                i <= n,
                n == v@.len(),
                bs.len() == n,
                forall|j: int| i <= j < n ==> (#[trigger] v@[j])@ == bs[j],
                forall|j: int| 0 <= j < n ==> block_wf(#[trigger] bs[j]),
                self.src.wf(),
                env_src_wf(assoc_deep(self.src@)),
                def_wf(self.def@),
                self.fun == old(self).fun,
                (assoc_deep(self.src@), self.def@) == env_insert_v(
                    assoc_deep(old(self).src@),
                    old(self).def@,
                    bs.take(i as int),
                ),
            decreases n - i,
        {
            proof {
                assert(bs.take(i + 1).drop_last() =~= bs.take(i as int));
                assert(bs.take(i + 1).last() == bs[i as int]);
            }
            let mut b = Block::Def(crate::def::DefBlock::new(""));
            core::mem::swap(&mut b, &mut v[i]);
            proof {
                assert(b@ == bs[i as int]);
            }
            match b {
                Block::Def(db) => {
                    proof {
                        assert(block_wf(BlockV::Def(db@)));
                        assert(crate::def::def_block_wf(db@));
                    }
                    let name = db.name.clone();
                    self.def.insert(name, db);
                },
                Block::Src(sb) => {
                    let name = sb.name.clone();
                    let ghost sbg = sb;
                    let ghost pre = self.src@;
                    proof {
                        lemma_deep_keys(self.src@);
                        assert(block_wf(BlockV::Src(sbg@)));
                    }
                    self.src.insert(name, sb);
                    proof {
                        lemma_deep_set(pre, sbg@.name, sbg);
                        lemma_deep_keys(pre);
                        lemma_assoc_set_unique(assoc_deep(pre), sbg@.name, sbg@);
                        assert forall|m: int|
                            0 <= m < assoc_deep(self.src@).len() implies src_block_wf(
                            #[trigger] assoc_deep(self.src@)[m].1,
                        ) by {
                            if assoc_has(assoc_deep(pre), sbg@.name) {
                                let x = crate::strmap::assoc_idx(
                                    assoc_deep(pre),
                                    sbg@.name,
                                );
                                if m != x {
                                    assert(assoc_deep(self.src@)[m].1 == assoc_deep(
                                        pre,
                                    )[m].1);
                                } else {
                                    assert(assoc_deep(self.src@)[m].1 == sbg@);
                                }
                            } else {
                                if m < assoc_deep(pre).len() {
                                    assert(assoc_deep(self.src@)[m].1 == assoc_deep(
                                        pre,
                                    )[m].1);
                                } else {
                                    assert(assoc_deep(self.src@)[m].1 == sbg@);
                                }
                            }
                        }
                    }
                },
            }
            i = i + 1;
        }
        proof {
            assert(bs.take(n as int) =~= bs);
        }
    }

    /// Insert a value into the named data block, if it exists; any value it
    /// replaces comes back.
    pub fn insert_var(&mut self, block: &str, name: String, var: Var) -> (r: Option<Var>)
        requires
            env_wf(old(self)),
            var_wf(var@),
        ensures
            env_wf(final(self)),
            final(self).src == old(self).src,
            final(self).fun == old(self).fun,
            ({
                let d0 = old(self).def@;
                if assoc_has(d0, block@) {
                    let b0 = assoc_get(d0, block@);
                    final(self).def@ == assoc_set(
                        d0,
                        block@,
                        DefBlockV { name: b0.name, data: assoc_set(b0.data, name@, var@) },
                    ) && (match r {
                        Option::Some(o) => assoc_has(b0.data, name@) && o@ == assoc_get(
                            b0.data,
                            name@,
                        ),
                        Option::None => !assoc_has(b0.data, name@),
                    })
                } else {
                    final(self).def@ == d0 && r is None
                }
            }),
    {
        let ghost varv = var@;
        let ghost blockv = block@;
        let ghost namev = name@;
        proof {
            lemma_deep_keys(self.def.blocks@);
        }
        if self.def.blocks.contains_key(block) {
            proof {
                lemma_deep_get(self.def.blocks@, block@);
            }
            if let Option::Some(db) = self.def.blocks.get_mut(block) {
                proof {
                    let i = crate::strmap::assoc_idx(old(self).def@, blockv);
                    assert(0 <= i < old(self).def@.len() && old(self).def@[i].0 == blockv);
                    assert(def_block_wf(old(self).def@[i].1));
                    assert(db@ == assoc_get(old(self).def@, blockv));
                    lemma_deep_keys(db.data@);
                    if assoc_has(db.data@, namev) {
                        lemma_deep_get(db.data@, namev);
                    }
                }
                let ghost data0 = db.data@;
                let r = db.data.insert(name, var);
                proof {
                    lemma_deep_set(data0, namev, var);
                    lemma_deep_set(old(self).def.blocks@, blockv, *db);
                    assert(self.def@ =~= assoc_set(
                        old(self).def@,
                        blockv,
                        DefBlockV {
                            name: assoc_get(old(self).def@, blockv).name,
                            data: assoc_set(
                                assoc_get(old(self).def@, blockv).data,
                                namev,
                                varv,
                            ),
                        },
                    ));
                    lemma_insert_var_wf(old(self).def@, self.def@, blockv, namev, varv);
                }
                r
            } else {
                Option::None
            }
        } else {
            Option::None
        }
    }

    /// Whether a data block along a path holds an entry under a key.
    pub fn def_contains(def: &Def, path: Option<Vec<&str>>, lookup: &str) -> (r: bool)
        requires
            def_wf(def@),
        ensures
            r == (match path {
                Option::Some(p) => p@.len() >= 1 && assoc_has(def@, p@[0]@) && assoc_has(
                    assoc_get(def@, p@[0]@).data,
                    lookup@,
                ),
                Option::None => false,
            }),
    {
        match path {
            Option::Some(p) => {
                if p.len() == 0 {
                    return false;
                }
                match def.get(p[0]) {
                    Option::Some(b) => {
                        proof {
                            lemma_deep_keys(b.data@);
                        }
                        b.data.contains_key(lookup)
                    },
                    Option::None => false,
                }
            },
            Option::None => false,
        }
    }
}

/// An updated block entry keeps the store well formed.
proof fn lemma_insert_var_wf(
    d0: Seq<(Seq<char>, DefBlockV)>,
    d1: Seq<(Seq<char>, DefBlockV)>,
    blk: Seq<char>,
    key: Seq<char>,
    v: VarV,
)
    requires
        def_wf(d0),
        var_wf(v),
        assoc_has(d0, blk),
        d1 == assoc_set(
            d0,
            blk,
            DefBlockV {
                name: assoc_get(d0, blk).name,
                data: assoc_set(assoc_get(d0, blk).data, key, v),
            },
        ),
    ensures
        def_wf(d1),
{
    let i = crate::strmap::assoc_idx(d0, blk);
    assert(0 <= i < d0.len() && d0[i].0 == blk);
    let b = assoc_get(d0, blk);
    assert(def_block_wf(b));
    let nb = DefBlockV { name: b.name, data: assoc_set(b.data, key, v) };
    lemma_assoc_set_unique(b.data, key, v);
    assert(def_block_wf(nb)) by {
        if assoc_has(b.data, key) {
            let j = crate::strmap::assoc_idx(b.data, key);
            assert forall|m: int| 0 <= m < nb.data.len() implies var_wf(
                #[trigger] nb.data[m].1,
            ) by {
                if m != j {
                    assert(nb.data[m].1 == b.data[m].1);
                }
            }
        } else {
            assert forall|m: int| 0 <= m < nb.data.len() implies var_wf(
                #[trigger] nb.data[m].1,
            ) by {
                if m < b.data.len() {
                    assert(nb.data[m].1 == b.data[m].1);
                }
            }
        }
    }
    lemma_assoc_set_unique(d0, blk, nb);
    assert forall|m: int| 0 <= m < d1.len() implies def_block_wf(#[trigger] d1[m].1) by {
        if m != i {
            assert(d1[m].1 == d0[m].1);
        }
    }
}

} // verus!
