//! The data store: named blocks of key/value entries.
//!
//! Lookups resolve dotted paths to a block and key, and follow chains of
//! symbol references up to a fixed number of hops.  Assignment creates
//! blocks that do not yet exist.

use vstd::prelude::*;
use crate::var::{Var, VarV, var_wf};
use crate::strmap::{StrMap, keys_unique, assoc_has, assoc_get, assoc_set, assoc_deep,
    lemma_deep_keys, lemma_deep_get, lemma_deep_set, lemma_assoc_at, lemma_assoc_set_unique};
use crate::path::{path_block_key, path_new_block_name, block_key, new_block_name};
use crate::text::string_eq;

verus! {

/// How many symbol hops a lookup will follow before giving up.
pub const CHAIN_FUEL: u64 = 64;

/// One named data block.
#[derive(Debug, PartialEq)]
pub struct DefBlock {
    pub name: String,
    pub data: StrMap<Var>,
}

/// The mathematical shape of a data block.
#[verifier::ext_equal]
pub struct DefBlockV {
    pub name: Seq<char>,
    pub data: Seq<(Seq<char>, VarV)>,
}

impl View for DefBlock {
    type V = DefBlockV;

    open spec fn view(&self) -> DefBlockV {
        DefBlockV { name: self.name@, data: assoc_deep(self.data@) }
    }
}

pub open spec fn def_block_wf(b: DefBlockV) -> bool {
    &&& keys_unique(b.data)
    &&& forall|i: int| 0 <= i < b.data.len() ==> var_wf(#[trigger] b.data[i].1)
}

impl DefBlock {
    pub fn new(name: &str) -> (r: DefBlock)
        ensures
            r@.name == name@,
            r@.data == Seq::<(Seq<char>, VarV)>::empty(),
            def_block_wf(r@),
    {
        let r = DefBlock { name: name.to_owned(), data: StrMap::new() };
        proof {
            assert(r@.data =~= Seq::<(Seq<char>, VarV)>::empty());
        }
        r
    }

    /// A deep copy: the same name and entries.
    pub fn duplicate(&self) -> (r: DefBlock)
        requires
            keys_unique(self@.data),
        ensures
            r@ == self@,
    {
        proof {
            lemma_deep_keys(self.data@);
        }
        let name = self.name.clone();
        let mut data: StrMap<Var> = StrMap::new();
        let n = self.data.len();
        let mut i: usize = 0;
        while i < n
            invariant
                i <= n,
                n == self.data@.len(),
                keys_unique(self.data@),
                data@.len() == i,
                forall|j: int|
                    0 <= j < i ==> #[trigger] data@[j].0 == self.data@[j].0 && data@[j].1@
                        == self.data@[j].1@,
            decreases n - i,
        {
            let k = self.data.key_at(i);
            let v = self.data.val_at(i);
            proof {
                if assoc_has(data@, k@) {
                    let j = crate::strmap::assoc_idx(data@, k@);
                    assert(0 <= j < data@.len() && data@[j].0 == k@);
                    assert(self.data@[j].0 == k@);
                    assert(false);
                }
            }
            data.insert(k.clone(), v.clone());
            i = i + 1;
        }
        let r = DefBlock { name, data };
        proof {
            assert(r@.data =~= self@.data);
        }
        r
    }
}

/// The whole data store.
#[derive(Debug)]
pub struct Def {
    pub blocks: StrMap<DefBlock>,
}

impl View for Def {
    type V = Seq<(Seq<char>, DefBlockV)>;

    open spec fn view(&self) -> Seq<(Seq<char>, DefBlockV)> {
        assoc_deep(self.blocks@)
    }
}

pub open spec fn def_wf(d: Seq<(Seq<char>, DefBlockV)>) -> bool {
    &&& keys_unique(d)
    &&& forall|i: int| 0 <= i < d.len() ==> def_block_wf(#[trigger] d[i].1)
}

/// The value stored under a block and key, if any.
pub open spec fn def_lookup(d: Seq<(Seq<char>, DefBlockV)>, blk: Seq<char>, key: Seq<char>)
    -> Option<VarV> {
    if assoc_has(d, blk) {
        let b = assoc_get(d, blk);
        if assoc_has(b.data, key) {
            Option::Some(assoc_get(b.data, key))
        } else {
            Option::None
        }
    } else {
        Option::None
    }
}

pub open spec fn chain_finish(resolved: Option<VarV>) -> Option<(VarV, bool)> {
    match resolved {
        Option::Some(v) => Option::Some((v, false)),
        Option::None => Option::None,
    }
}

/// Follow symbol links: stop at a non-symbol value (fully resolved), at a
/// self-reference, at a dead end, or when the hop budget runs out.
pub open spec fn sym_chain(
    d: Seq<(Seq<char>, DefBlockV)>,
    lookup: Seq<char>,
    fuel: nat,
    resolved: Option<VarV>,
) -> Option<(VarV, bool)>
    decreases fuel,
{
    match path_block_key(lookup) {
        Option::None => chain_finish(resolved),
        Option::Some(bk) => match def_lookup(d, bk.0, bk.1) {
            Option::None => chain_finish(resolved),
            Option::Some(v) => match v {
                VarV::Sym(s) => if s == lookup {
                    Option::Some((v, false))
                } else if fuel == 0 {
                    chain_finish(Option::Some(v))
                } else {
                    sym_chain(d, s, (fuel - 1) as nat, Option::Some(v))
                },
                _ => Option::Some((v, true)),
            },
        },
    }
}

/// What `get_last` returns, over views.
pub open spec fn def_get_last(d: Seq<(Seq<char>, DefBlockV)>, lookup: Seq<char>) -> Option<
    (VarV, bool),
> {
    sym_chain(d, lookup, CHAIN_FUEL as nat, Option::None)
}

/// The view of an optional value/flag pair.
pub open spec fn pair_view(r: Option<(Var, bool)>) -> Option<(VarV, bool)> {
    match r {
        Option::Some(p) => Option::Some((p.0@, p.1)),
        Option::None => Option::None,
    }
}

/// The store after an assignment through a dotted path.
pub open spec fn def_set(d: Seq<(Seq<char>, DefBlockV)>, lookup: Seq<char>, v: VarV) -> Seq<
    (Seq<char>, DefBlockV),
> {
    match path_block_key(lookup) {
        Option::None => d,
        Option::Some(bk) => if assoc_has(d, bk.0) {
            let b = assoc_get(d, bk.0);
            assoc_set(d, bk.0, DefBlockV { name: b.name, data: assoc_set(b.data, bk.1, v) })
        } else {
            assoc_set(
                d,
                bk.0,
                DefBlockV {
                    name: path_new_block_name(lookup),
                    data: assoc_set(Seq::empty(), bk.1, v),
                },
            )
        },
    }
}

/// Every value a chain can return out of a well-formed store is well
/// formed.
pub proof fn lemma_chain_wf(
    d: Seq<(Seq<char>, DefBlockV)>,
    lookup: Seq<char>,
    fuel: nat,
    resolved: Option<VarV>,
)
    requires
        def_wf(d),
        match resolved {
            Option::Some(v) => var_wf(v),
            Option::None => true,
        },
    ensures
        match sym_chain(d, lookup, fuel, resolved) {
            Option::Some(p) => var_wf(p.0),
            Option::None => true,
        },
    decreases fuel,
{
    match path_block_key(lookup) {
        Option::None => {},
        Option::Some(bk) => {
            if assoc_has(d, bk.0) {
                let i = crate::strmap::assoc_idx(d, bk.0);
                assert(0 <= i < d.len() && d[i].0 == bk.0);
                let b = assoc_get(d, bk.0);
                assert(def_block_wf(b));
                if assoc_has(b.data, bk.1) {
                    let j = crate::strmap::assoc_idx(b.data, bk.1);
                    assert(0 <= j < b.data.len() && b.data[j].0 == bk.1);
                    let v = assoc_get(b.data, bk.1);
                    assert(var_wf(v));
                    match v {
                        VarV::Sym(s) => {
                            if s != lookup && fuel > 0 {
                                lemma_chain_wf(d, s, (fuel - 1) as nat, Option::Some(v));
                            }
                        },
                        _ => {},
                    }
                }
            }
        },
    }
}

impl Def {
    pub fn new() -> (r: Def)
        ensures
            r@ == Seq::<(Seq<char>, DefBlockV)>::empty(),
            def_wf(r@),
    {
        let r = Def { blocks: StrMap::new() };
        proof {
            assert(r@ =~= Seq::<(Seq<char>, DefBlockV)>::empty());
        }
        r
    }

    /// The block of that name, if any.
    pub fn get(&self, name: &str) -> (r: Option<&DefBlock>)
        requires
            def_wf(self@),
        ensures
            match r {
                Option::Some(b) => assoc_has(self@, name@) && b@ == assoc_get(self@, name@),
                Option::None => !assoc_has(self@, name@),
            },
    {
        proof {
            lemma_deep_keys(self.blocks@);
        }
        let r = self.blocks.get(name);
        proof {
            if assoc_has(self.blocks@, name@) {
                lemma_deep_get(self.blocks@, name@);
            }
        }
        r
    }

    /// Insert a block under a name.
    pub fn insert(&mut self, name: String, b: DefBlock)
        requires
            def_wf(old(self)@),
            def_block_wf(b@),
        ensures
            final(self)@ == assoc_set(old(self)@, name@, b@),
            def_wf(final(self)@),
    {
        proof {
            lemma_deep_keys(self.blocks@);
        }
        let ghost bg = b;
        let ghost namev = name@;
        self.blocks.insert(name, b);
        proof {
            lemma_deep_set(old(self).blocks@, namev, bg);
            lemma_assoc_set_unique(old(self)@, namev, bg@);
            assert forall|i: int| 0 <= i < self@.len() implies def_block_wf(
                #[trigger] self@[i].1,
            ) by {
                if assoc_has(old(self)@, namev) {
                    let j = crate::strmap::assoc_idx(old(self)@, namev);
                    if i != j {
                        assert(self@[i].1 == old(self)@[i].1);
                    }
                } else {
                    if i < old(self)@.len() {
                        assert(self@[i].1 == old(self)@[i].1);
                    }
                }
            }
        }
    }

    /// Resolve a dotted lookup through symbol chains; the flag says whether
    /// the result is a concrete value rather than a dangling reference.
    pub fn get_last(&self, lookup: &str) -> (r: Option<(Var, bool)>)
        requires
            def_wf(self@),
        ensures
            pair_view(r) == def_get_last(self@, lookup@),
            match r {
                Option::Some(p) => var_wf(p.0@),
                Option::None => true,
            },
    {
        let mut cur: String = lookup.to_owned();
        let mut fuel: u64 = CHAIN_FUEL;
        let mut resolved: Option<Var> = Option::None;
        loop
            invariant
                def_wf(self@),
                sym_chain(self@, cur@, fuel as nat, match resolved {
                    Option::Some(v) => Option::Some(v@),
                    Option::None => Option::<VarV>::None,
                }) == def_get_last(self@, lookup@),
                match resolved {
                    Option::Some(v) => var_wf(v@),
                    Option::None => true,
                },
            decreases fuel,
        {
            let bk = block_key(cur.as_str());
            match bk {
                Option::None => {
                    return resolved_finish(resolved);
                },
                Option::Some((blk, key)) => {
                    proof {
                        lemma_deep_keys(self.blocks@);
                    }
                    match self.blocks.get(blk.as_str()) {
                        Option::None => {
                            proof {
                                assert(!assoc_has(self@, blk@));
                            }
                            return resolved_finish(resolved);
                        },
                        Option::Some(db) => {
                            proof {
                                lemma_deep_get(self.blocks@, blk@);
                                let i = crate::strmap::assoc_idx(self@, blk@);
                                assert(0 <= i < self@.len() && self@[i].0 == blk@);
                                assert(def_block_wf(assoc_get(self@, blk@)));
                                lemma_deep_keys(db.data@);
                            }
                            match db.data.get(key.as_str()) {
                                Option::None => {
                                    proof {
                                        lemma_deep_keys(db.data@);
                                        assert(!assoc_has(db@.data, key@));
                                    }
                                    return resolved_finish(resolved);
                                },
                                Option::Some(v) => {
                                    proof {
                                        let b = assoc_get(self@, blk@);
                                        assert(db@ == b);
                                        lemma_deep_get(db.data@, key@);
                                        assert(assoc_get(b.data, key@) == (*v)@);
                                        let j = crate::strmap::assoc_idx(b.data, key@);
                                        assert(0 <= j < b.data.len() && b.data[j].0 == key@);
                                        assert(var_wf(b.data[j].1));
                                        assert(var_wf((*v)@));
                                        assert(def_lookup(self@, blk@, key@) == Option::Some(
                                            (*v)@,
                                        ));
                                    }
                                    match v {
                                        Var::Sym(s) => {
                                            if string_eq(s, &cur) {
                                                return Option::Some((v.clone(), false));
                                            }
                                            if fuel == 0 {
                                                return Option::Some((v.clone(), false));
                                            }
                                            fuel = fuel - 1;
                                            let next = s.clone();
                                            resolved = Option::Some(v.clone());
                                            cur = next;
                                        },
                                        _ => {
                                            return Option::Some((v.clone(), true));
                                        },
                                    }
                                },
                            }
                        },
                    }
                },
            }
        }
    }

    /// Assign through a dotted path, creating the block if needed.  A bare
    /// name without a dot assigns nothing.
    pub fn set_path(&mut self, lookup: &str, v: Var)
        requires
            def_wf(old(self)@),
            var_wf(v@),
        ensures
            final(self)@ == def_set(old(self)@, lookup@, v@),
            def_wf(final(self)@),
    {
        let ghost vv = v@;
        let bk = block_key(lookup);
        match bk {
            Option::None => {},
            Option::Some((blk, key)) => {
                proof {
                    lemma_deep_keys(self.blocks@);
                }
                if self.blocks.contains_key(blk.as_str()) {
                    proof {
                        lemma_deep_keys(self.blocks@);
                        lemma_deep_get(self.blocks@, blk@);
                    }
                    let ghost blkv = blk@;
                    let ghost keyv = key@;
                    if let Option::Some(db) = self.blocks.get_mut(blk.as_str()) {
                        proof {
                            let i = crate::strmap::assoc_idx(old(self)@, blkv);
                            assert(0 <= i < old(self)@.len() && old(self)@[i].0 == blkv);
                            assert(def_block_wf(old(self)@[i].1));
                            assert(db@ == assoc_get(old(self)@, blkv));
                            lemma_deep_keys(db.data@);
                        }
                        let ghost data0 = db.data@;
                        db.data.insert(key, v);
                        proof {
                            lemma_deep_set(data0, keyv, v);
                            lemma_deep_set(old(self).blocks@, blkv, *db);
                            assert(self@ =~= def_set(old(self)@, lookup@, vv));
                        }
                    }
                } else {
                    let mut data: StrMap<Var> = StrMap::new();
                    let ghost keyv = key@;
                    data.insert(key, v);
                    let nb = DefBlock { name: new_block_name(lookup), data };
                    let ghost nbg = nb;
                    let ghost blkv = blk@;
                    self.blocks.insert(blk, nb);
                    proof {
                        lemma_deep_keys(old(self).blocks@);
                        lemma_deep_set(old(self).blocks@, blkv, nbg);
                        assert(nbg@.data =~= assoc_set(
                            Seq::<(Seq<char>, VarV)>::empty(),
                            keyv,
                            vv,
                        ));
                        assert(self@ =~= def_set(old(self)@, lookup@, vv));
                    }
                }
            },
        }
        proof {
            lemma_set_path_post(old(self)@, self@, lookup@, vv);
        }
    }
}

fn resolved_finish(resolved: Option<Var>) -> (r: Option<(Var, bool)>)
    ensures
        pair_view(r) == chain_finish(
            match resolved {
                Option::Some(v) => Option::Some(v@),
                Option::None => Option::<VarV>::None,
            },
        ),
        match r {
            Option::Some(p) => match resolved {
                Option::Some(v) => p.0 == v && p.1 == false,
                Option::None => false,
            },
            Option::None => resolved is None,
        },
{
    match resolved {
        Option::Some(v) => Option::Some((v, false)),
        Option::None => Option::None,
    }
}

proof fn lemma_set_path_post(
    d0: Seq<(Seq<char>, DefBlockV)>,
    d1: Seq<(Seq<char>, DefBlockV)>,
    lookup: Seq<char>,
    v: VarV,
)
    requires
        def_wf(d0),
        var_wf(v),
        d1 == def_set(d0, lookup, v),
    ensures
        def_wf(d1),
{
    match path_block_key(lookup) {
        Option::None => {},
        Option::Some(bk) => {
            if assoc_has(d0, bk.0) {
                let i = crate::strmap::assoc_idx(d0, bk.0);
                assert(0 <= i < d0.len() && d0[i].0 == bk.0);
                let b = assoc_get(d0, bk.0);
                assert(def_block_wf(b));
                let nb = DefBlockV { name: b.name, data: assoc_set(b.data, bk.1, v) };
                lemma_assoc_set_unique(b.data, bk.1, v);
                assert(def_block_wf(nb)) by {
                    if assoc_has(b.data, bk.1) {
                        let j = crate::strmap::assoc_idx(b.data, bk.1);
                        assert forall|m: int| 0 <= m < nb.data.len() implies var_wf(
                            #[trigger] nb.data[m].1,
                        ) by {
                            if m != j {
                                assert(nb.data[m].1 == b.data[m].1);
                            }
                        }
                    } else {
                        assert forall|m: int| 0 <= m < nb.data.len() implies var_wf(
                            #[trigger] nb.data[m].1,
                        ) by {
                            if m < b.data.len() {
                                assert(nb.data[m].1 == b.data[m].1);
                            }
                        }
                    }
                }
                lemma_assoc_set_unique(d0, bk.0, nb);
                assert forall|m: int| 0 <= m < d1.len() implies def_block_wf(
                    #[trigger] d1[m].1,
                ) by {
                    if m != i {
                        assert(d1[m].1 == d0[m].1);
                    }
                }
            } else {
                let nb = DefBlockV {
                    name: path_new_block_name(lookup),
                    data: assoc_set(Seq::empty(), bk.1, v),
                };
                assert(def_block_wf(nb)) by {
                    assert(nb.data =~= Seq::<(Seq<char>, VarV)>::empty().push((bk.1, v)));
                }
                lemma_assoc_set_unique(d0, bk.0, nb);
                assert forall|m: int| 0 <= m < d1.len() implies def_block_wf(
                    #[trigger] d1[m].1,
                ) by {
                    if m < d0.len() {
                        assert(d1[m].1 == d0[m].1);
                    }
                }
            }
        },
    }
}

} // verus!
