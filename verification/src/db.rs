//! The immutable store the engine queries: compiled facts about crates, impl
//! blocks, traits, functions, constants, lang items, overloaded dereference
//! steps, and the trait oracle's verdicts.
//!
//! The engine is a pure function over one [`World`] value. A `World` plays the
//! role of the external collaborators of a real compiler front end — the
//! impl/crate store, the autoderef step generator and the trait-satisfiability
//! oracle — with their answers recorded as plain data:
//!
//! - each trait lists, besides its own items, the set of all its supertraits
//!   (the transitive closure, as the compiler computed it);
//! - the oracle's verdicts are the recorded [`OracleEntry`] rows: a goal is
//!   satisfiable for a crate exactly when a row for it is present;
//! - overloaded dereference is the recorded [`DerefStep`] edges.

use vstd::prelude::*;

use crate::ids::{AssocContainerId, AssocItemId, CrateId, ImplId, TraitId};
use crate::ty::{ty_eq, tys_eq, Substs, Ty, TyV, TypeCtor};

verus! {

/// Bound on generic-parameter and hole counts, so that sums of two such
/// counts always fit in `usize` on any platform.
pub const VAR_BOUND: u32 = 0x7fff_ffff;

/// One crate of the compilation graph: its direct dependencies.
///
/// Dependencies always point to crates with a smaller index; any dependency
/// graph can be numbered this way, and it keeps the graph visibly acyclic.
#[derive(Debug)]
pub struct CrateData {
    pub dependencies: Vec<CrateId>,
}

/// One impl block.
#[derive(Debug)]
pub struct ImplData {
    /// The crate whose module tree declares the block.
    pub krate: CrateId,
    /// The declared self type; its `Bound(i)` variables refer to the block's
    /// own generic parameters.
    pub self_ty: Ty,
    /// The implemented trait; none for an inherent impl.
    pub trait_: Option<TraitId>,
    /// The associated items declared in the block.
    pub items: Vec<AssocItemId>,
    /// How many generic parameters the block declares.
    pub num_type_params: u32,
}

/// One trait declaration.
#[derive(Debug)]
pub struct TraitData {
    /// The associated items the trait declares.
    pub items: Vec<AssocItemId>,
    /// Every supertrait, transitively (the closure the compiler computed),
    /// without the trait itself.
    pub all_supers: Vec<TraitId>,
    /// How many generic parameters the trait has, `Self` included.
    pub num_type_params: u32,
}

/// One function, declared in an impl block or a trait.
#[derive(Debug)]
pub struct FunctionData {
    pub name: String,
    pub has_self_param: bool,
    pub container: AssocContainerId,
    /// The declared parameter types; `Bound(i)` variables refer to the
    /// container's generic parameters. The self parameter comes first.
    pub params: Vec<Ty>,
    /// The declared return type, under the same variables.
    pub ret: Ty,
}

/// One associated constant.
#[derive(Debug)]
pub struct ConstData {
    pub name: Option<String>,
}

/// The compiler-recognized markers that locate the standard library's
/// inherent impls for the built-in types.
#[derive(Debug, Clone, Copy, PartialEq, Eq, Structural)]
pub enum LangKey {
    Bool,
    Char,
    F32,
    F32Runtime,
    F64,
    F64Runtime,
    Int(crate::ty::IntTy),
    StrAlloc,
    Str,
    SliceAlloc,
    Slice,
    ConstPtr,
    MutPtr,
}

/// What a lang-item marker is attached to.
#[derive(Debug, Clone, Copy, PartialEq, Eq, Structural)]
pub enum LangItemTarget {
    ImplDef(ImplId),
    Other,
}

/// One recorded overloaded-dereference step: a receiver whose value equals
/// `from` dereferences to `to`.
#[derive(Debug)]
pub struct DerefStep {
    pub from: Ty,
    pub to: Ty,
}

/// A canonicalized trait obligation: does some self type (the first element
/// of `substs`) satisfy `trait_`, with `num_vars` holes in play?
#[derive(Debug)]
pub struct Goal {
    pub num_vars: usize,
    pub trait_: TraitId,
    pub substs: Substs,
}

/// The mathematical mirror of [`Goal`].
pub struct GoalV {
    pub num_vars: nat,
    pub trait_: TraitId,
    pub substs: Seq<TyV>,
}

impl View for Goal {
    type V = GoalV;

    open spec fn view(&self) -> GoalV {
        GoalV { num_vars: self.num_vars as nat, trait_: self.trait_, substs: self.substs@ }
    }
}

/// One recorded verdict of the trait oracle: `goal` is satisfiable when
/// solved on behalf of `krate`.
#[derive(Debug)]
pub struct OracleEntry {
    pub krate: CrateId,
    pub goal: Goal,
}

/// The ambient generic bounds of the query: pairs of a placeholder type and
/// a trait it is declared to satisfy.
#[derive(Debug)]
pub struct TraitEnvironment {
    pub predicates: Vec<(Ty, TraitId)>,
}

/// The immutable store.
#[derive(Debug)]
pub struct World {
    pub crates: Vec<CrateData>,
    /// The defining crate of each algebraic data type.
    pub adts: Vec<CrateId>,
    pub impls: Vec<ImplData>,
    pub traits: Vec<TraitData>,
    pub functions: Vec<FunctionData>,
    pub consts: Vec<ConstData>,
    pub lang_items: Vec<(LangKey, LangItemTarget)>,
    pub deref_steps: Vec<DerefStep>,
    pub oracle: Vec<OracleEntry>,
}

/// Every id a type value mentions is an index into the store's tables.
pub open spec fn ty_wf_v(w: World, t: TyV) -> bool
    decreases t,
{
    match t {
        TyV::Apply(c, ps) => {
            &&& (c matches TypeCtor::Adt(id) ==> id.0 < w.adts@.len())
            &&& tys_wf_v(w, ps)
        },
        TyV::Dyn(tr) => tr.0 < w.traits@.len(),
        _ => true,
    }
}

/// [`ty_wf_v`], over each element of a list.
pub open spec fn tys_wf_v(w: World, s: Seq<TyV>) -> bool
    decreases s,
{
    forall|i: int| 0 <= i < s.len() ==> ty_wf_v(w, #[trigger] s[i])
}

/// Every id a type mentions is an index into the store's tables.
pub open spec fn ty_wf(w: World, t: Ty) -> bool {
    ty_wf_v(w, crate::ty::ty_view(t))
}

/// [`ty_wf`], over each element of a list.
pub open spec fn tys_wf(w: World, s: Seq<Ty>) -> bool {
    forall|i: int| 0 <= i < s.len() ==> ty_wf(w, #[trigger] s[i])
}

/// The item ids of one impl or trait item list are indexes into the store.
pub open spec fn items_wf(w: World, items: Seq<AssocItemId>) -> bool {
    forall|i: int| 0 <= i < items.len() ==> (match #[trigger] items[i] {
        AssocItemId::FunctionId(f) => f.0 < w.functions@.len(),
        AssocItemId::ConstId(c) => c.0 < w.consts@.len(),
        AssocItemId::TypeAliasId(_) => true,
    })
}

impl World {
    /// Well-formedness of the store: every id is an index into its table,
    /// dependencies point at smaller crate indexes, and the generic-parameter
    /// counts stay under [`VAR_BOUND`].
    pub open spec fn wf(self) -> bool {
        &&& self.crates@.len() <= u32::MAX
        &&& self.adts@.len() <= u32::MAX
        &&& self.impls@.len() <= u32::MAX
        &&& self.traits@.len() <= u32::MAX
        &&& self.functions@.len() <= u32::MAX
        &&& self.consts@.len() <= u32::MAX
        &&& forall|c: int, d: int|
            0 <= c < self.crates@.len() && 0 <= d < self.crates@[c].dependencies@.len()
                ==> (#[trigger] self.crates@[c].dependencies@[d]).0 < c
        &&& forall|a: int| 0 <= a < self.adts@.len() ==> (#[trigger] self.adts@[a]).0
            < self.crates@.len()
        &&& forall|i: int| 0 <= i < self.impls@.len() ==> {
            let im = #[trigger] self.impls@[i];
            &&& im.krate.0 < self.crates@.len()
            &&& im.trait_ matches Some(t) ==> t.0 < self.traits@.len()
            &&& items_wf(self, im.items@)
            &&& ty_wf(self, im.self_ty)
            &&& im.num_type_params <= VAR_BOUND
        }
        &&& forall|t: int| 0 <= t < self.traits@.len() ==> {
            let tr = #[trigger] self.traits@[t];
            &&& items_wf(self, tr.items@)
            &&& forall|s: int| 0 <= s < tr.all_supers@.len()
                ==> (#[trigger] tr.all_supers@[s]).0 < self.traits@.len()
            &&& 1 <= tr.num_type_params <= VAR_BOUND
        }
        &&& forall|f: int| 0 <= f < self.functions@.len() ==> {
            let fd = #[trigger] self.functions@[f];
            &&& (match fd.container {
                AssocContainerId::TraitId(t) => t.0 < self.traits@.len(),
                AssocContainerId::ImplId(i) => i.0 < self.impls@.len(),
            })
            &&& fd.has_self_param ==> fd.params@.len() >= 1
            &&& tys_wf(self, fd.params@)
        }
        &&& forall|l: int| 0 <= l < self.lang_items@.len()
            ==> (match (#[trigger] self.lang_items@[l]).1 {
                LangItemTarget::ImplDef(i) => i.0 < self.impls@.len(),
                LangItemTarget::Other => true,
            })
        &&& forall|d: int| 0 <= d < self.deref_steps@.len()
            ==> ty_wf(self, (#[trigger] self.deref_steps@[d]).to)
    }
}

/// The first lang-item target recorded under `key`, if any.
pub open spec fn spec_lang_item(s: Seq<(LangKey, LangItemTarget)>, key: LangKey) -> Option<
    LangItemTarget,
>
    decreases s.len(),
{
    if s.len() == 0 {
        None
    } else if s[0].0 == key {
        Some(s[0].1)
    } else {
        spec_lang_item(s.drop_first(), key)
    }
}

/// Looks a compiler-recognized marker up in the store.
pub fn lang_item(w: &World, key: LangKey) -> (r: Option<LangItemTarget>)
    ensures
        r == spec_lang_item(w.lang_items@, key),
{
    let mut i: usize = 0;
    proof {
        assert(w.lang_items@.skip(0) =~= w.lang_items@);
    }
    while i < w.lang_items.len()
        invariant
            i <= w.lang_items@.len(),
            spec_lang_item(w.lang_items@.skip(i as int), key) == spec_lang_item(
                w.lang_items@,
                key,
            ),
        decreases w.lang_items@.len() - i,
    {
        let entry = w.lang_items[i];
        if entry.0 == key {
            proof {
                assert(w.lang_items@.skip(i as int)[0] == w.lang_items@[i as int]);
            }
            return Some(entry.1);
        }
        proof {
            assert(w.lang_items@.skip(i as int)[0] == w.lang_items@[i as int]);
            assert(w.lang_items@.skip(i as int).drop_first() =~= w.lang_items@.skip(i as int + 1));
        }
        i = i + 1;
    }
    proof {
        assert(w.lang_items@.skip(i as int).len() == 0);
    }
    None
}

/// The trait itself followed by all its supertraits, as the store records
/// them.
pub fn all_super_traits(w: &World, t: TraitId) -> (r: Vec<TraitId>)
    requires
        w.wf(),
        t.0 < w.traits@.len(),
    ensures
        r@ == seq![t] + w.traits@[t.0 as int].all_supers@,
{
    let mut r: Vec<TraitId> = Vec::new();
    r.push(t);
    let supers = &w.traits[t.0 as usize].all_supers;
    let mut i: usize = 0;
    while i < supers.len()
        invariant
            i <= supers@.len(),
            r@ =~= seq![t] + supers@.take(i as int),
        decreases supers@.len() - i,
    {
        r.push(supers[i]);
        proof {
            assert(supers@.take(i as int + 1) =~= supers@.take(i as int).push(supers@[i as int]));
        }
        i = i + 1;
    }
    proof {
        assert(supers@.take(supers@.len() as int) =~= supers@);
    }
    r
}

/// Structural equality of two goals.
pub fn goal_eq(a: &Goal, b: &Goal) -> (r: bool)
    ensures
        r == (a@ == b@),
{
    a.num_vars == b.num_vars && a.trait_ == b.trait_ && tys_eq(&a.substs.0, &b.substs.0)
}

/// Whether the oracle records `goal` as satisfiable for `krate`.
pub open spec fn spec_trait_solve(w: World, krate: CrateId, goal: GoalV) -> bool {
    exists|i: int|
        0 <= i < w.oracle@.len() && (#[trigger] w.oracle@[i]).krate == krate
            && w.oracle@[i].goal@ == goal
}

/// Consults the trait oracle: a single recorded-verdict lookup.
pub fn trait_solve(w: &World, krate: CrateId, goal: &Goal) -> (r: bool)
    ensures
        r == spec_trait_solve(*w, krate, goal@),
{
    let mut i: usize = 0;
    while i < w.oracle.len()
        invariant
            i <= w.oracle@.len(),
            forall|j: int| 0 <= j < i
                ==> !((#[trigger] w.oracle@[j]).krate == krate && w.oracle@[j].goal@ == goal@),
        decreases w.oracle@.len() - i,
    {
        let entry = &w.oracle[i];
        if entry.krate == krate && goal_eq(&entry.goal, goal) {
            return true;
        }
        i = i + 1;
    }
    false
}

impl TraitEnvironment {
    /// The traits that the ambient environment binds on types whose value is
    /// `ty`, in declaration order.
    pub open spec fn spec_predicates_for(preds: Seq<(Ty, TraitId)>, ty: TyV) -> Seq<TraitId>
        decreases preds.len(),
    {
        if preds.len() == 0 {
            Seq::empty()
        } else {
            let rest = Self::spec_predicates_for(preds.drop_last(), ty);
            if preds.last().0@ == ty {
                rest.push(preds.last().1)
            } else {
                rest
            }
        }
    }

    /// The traits the environment binds on `ty`.
    pub fn trait_predicates_for_self_ty(&self, ty: &Ty) -> (r: Vec<TraitId>)
        ensures
            r@ == Self::spec_predicates_for(self.predicates@, ty@),
    {
        let mut r: Vec<TraitId> = Vec::new();
        let mut i: usize = 0;
        while i < self.predicates.len()
            invariant
                i <= self.predicates@.len(),
                r@ == Self::spec_predicates_for(self.predicates@.take(i as int), ty@),
            decreases self.predicates@.len() - i,
        {
            proof {
                assert(self.predicates@.take(i as int + 1).drop_last() =~= self.predicates@.take(
                    i as int,
                ));
                assert(self.predicates@.take(i as int + 1).last() == self.predicates@[i as int]);
            }
            if ty_eq(&self.predicates[i].0, ty) {
                r.push(self.predicates[i].1);
            }
            i = i + 1;
        }
        proof {
            assert(self.predicates@.take(self.predicates@.len() as int) =~= self.predicates@);
        }
        r
    }
}

} // verus!
