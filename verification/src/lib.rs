use vstd::prelude::*;
use crate::output::Output;
use crate::resolver::Contract;
use crate::resolver::contract::{unit_ok, resolved_from, reported_in_order};

pub mod abi;
pub mod ast;
pub mod bignum;
pub mod codegen;
pub mod emit;
pub mod namespace;
pub mod output;
pub mod resolver;

verus! {

/// The target chain the Solidity source is compiled for.
#[derive(PartialEq, Eq, Structural, Clone, Copy, Debug)]
pub enum Target {
    /// Parity Substrate
    Substrate,
    /// Ethereum ewasm
    Ewasm,
    /// Sawtooth Sabre
    Sabre,
}

/// The name of a target as it is shown to users.
pub open spec fn target_name(t: Target) -> Seq<char> {
    match t {
        Target::Substrate => "Substrate"@,
        Target::Ewasm => "ewasm"@,
        Target::Sabre => "Sawtooth Sabre"@,
    }
}

impl Target {
    /// The name of the target as it is shown to users.
    pub fn to_string(&self) -> (r: String)
        ensures
            r@ == target_name(*self),
    {
        proof { reveal_strlit("Substrate"); reveal_strlit("ewasm"); reveal_strlit("Sawtooth Sabre"); }
        match self {
            Target::Substrate => String::from_str("Substrate"),
            Target::Ewasm => String::from_str("ewasm"),
            Target::Sabre => String::from_str("Sawtooth Sabre"),
        }
    }
}

/// A compiled ewasm contract: its wasm code, as text.
#[derive(Debug)]
pub struct EwasmContract {
    pub wasm: String,
}

/// Resolve a parsed Solidity source for a target: the contracts that resolve
/// and the compiler messages, starting with those of the parser. Where the
/// source did not parse, there are no contracts and the messages are the
/// parser's.
pub fn parse_and_resolve(parsed: Result<ast::SourceUnit, Vec<Output>>, target: Target) -> (r: (Vec<Contract>, Vec<Output>))
    requires
        parsed matches Ok(s) ==> unit_ok(s),
    ensures
        parsed matches Err(e) ==> r.0@.len() == 0 && r.1@ == e@,
        parsed matches Ok(s) ==> {
            &&& r.0@.len() <= s.0@.len()
            &&& exists|idx: Seq<int>| #[trigger] resolved_from(r.0@, s, target, idx)
            &&& exists|pos: Seq<int>| #[trigger] reported_in_order(s, s.0@.len() as int, r.1@, pos)
        },
{
    match parsed {
        Ok(s) => resolver::resolver(s, target),
        Err(errors) => (Vec::new(), errors),
    }
}

} // verus!
