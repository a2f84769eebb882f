//! Parts of code generation that do not depend on the emitter.
use vstd::prelude::*;

verus! {

/// A hash function that contract code can call.
#[allow(non_camel_case_types)]
#[derive(PartialEq, Eq, Structural, Clone, Copy, Debug)]
pub enum HashTy {
    Keccak256,
    Ripemd160,
    Sha256,
    Blake2_256,
    Blake2_128,
}

/// The name of a hash function.
pub open spec fn hash_name(h: HashTy) -> Seq<char> {
    match h {
        HashTy::Keccak256 => "keccak256"@,
        HashTy::Ripemd160 => "ripemd160"@,
        HashTy::Sha256 => "sha256"@,
        HashTy::Blake2_128 => "blake2_128"@,
        HashTy::Blake2_256 => "blake2_256"@,
    }
}

impl HashTy {
    /// The name of the hash function.
    pub fn to_string(&self) -> (r: String)
        ensures
            r@ == hash_name(*self),
    {
        proof {
            reveal_strlit("keccak256");
            reveal_strlit("ripemd160");
            reveal_strlit("sha256");
            reveal_strlit("blake2_128");
            reveal_strlit("blake2_256");
        }
        match self {
            HashTy::Keccak256 => String::from_str("keccak256"),
            HashTy::Ripemd160 => String::from_str("ripemd160"),
            HashTy::Sha256 => String::from_str("sha256"),
            HashTy::Blake2_128 => String::from_str("blake2_128"),
            HashTy::Blake2_256 => String::from_str("blake2_256"),
        }
    }
}

} // verus!
