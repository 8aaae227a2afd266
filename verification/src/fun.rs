//! Host-supplied functions.
//!
//! Scripts can invoke functions the embedding host registers by name.  The
//! core treats the registry as opaque: nothing is assumed about a call's
//! result beyond well-formedness of any value handed back.

use vstd::prelude::*;
use crate::var::{Var, var_wf};
use crate::def::Def;

verus! {

/// The host's function registry.
///
/// `call` runs the function registered under `name`, giving it the
/// argument values and a read-only view of the data store; it returns the
/// function's result, or `None` when there is no such function or nothing
/// to return.  Any value handed back must carry a well-formed number.
pub trait FunRegistry {
    fn call(&mut self, name: &str, args: &Vec<Var>, def: &Def) -> (r: Option<Var>)
        ensures
            match r {
                Option::Some(v) => var_wf(v@),
                Option::None => true,
            },
    ;
}

/// The empty registry: no function is ever found.
pub struct NoFuns;

impl FunRegistry for NoFuns {
    fn call(&mut self, _name: &str, _args: &Vec<Var>, _def: &Def) -> (r: Option<Var>)
    {
        Option::None
    }
}

} // verus!
