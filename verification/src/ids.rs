//! Plain identifiers for the entities of the store.
//!
//! Every entity the engine talks about — crates, impl blocks, traits,
//! functions, constants, algebraic data types — is named by a small integer
//! index into the corresponding table of the store.

use vstd::prelude::*;

verus! {

/// Names one crate of the compilation graph.
#[derive(Debug, Clone, Copy, PartialEq, Eq, Structural)]
pub struct CrateId(pub u32);

/// Names one impl block.
#[derive(Debug, Clone, Copy, PartialEq, Eq, Structural)]
pub struct ImplId(pub u32);

/// Names one trait declaration.
#[derive(Debug, Clone, Copy, PartialEq, Eq, Structural)]
pub struct TraitId(pub u32);

/// Names one function (free-standing inside an impl or a trait).
#[derive(Debug, Clone, Copy, PartialEq, Eq, Structural)]
pub struct FunctionId(pub u32);

/// Names one associated constant.
#[derive(Debug, Clone, Copy, PartialEq, Eq, Structural)]
pub struct ConstId(pub u32);

/// Names one type alias declared in an impl or trait.
#[derive(Debug, Clone, Copy, PartialEq, Eq, Structural)]
pub struct TypeAliasId(pub u32);

/// Names one algebraic data type (struct, enum or union).
#[derive(Debug, Clone, Copy, PartialEq, Eq, Structural)]
pub struct AdtId(pub u32);

/// One associated item of an impl block or a trait declaration.
#[derive(Debug, Clone, Copy, PartialEq, Eq, Structural)]
pub enum AssocItemId {
    FunctionId(FunctionId),
    ConstId(ConstId),
    TypeAliasId(TypeAliasId),
}

/// Where a function is declared: inside a trait or inside an impl block.
#[derive(Debug, Clone, Copy, PartialEq, Eq, Structural)]
pub enum AssocContainerId {
    TraitId(TraitId),
    ImplId(ImplId),
}

} // verus!
