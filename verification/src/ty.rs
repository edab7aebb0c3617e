//! The structural type tree the engine resolves against, and the coarse
//! fingerprint used to bucket impl blocks.
//!
//! A type is either an applied constructor with type arguments, a named
//! generic placeholder, a canonical hole (a bound inference variable), a
//! trait-object type, or the unknown (error) type. Types are compared
//! structurally; [`TyV`] is the mathematical mirror of [`Ty`] that the
//! contracts speak about.

use vstd::prelude::*;

use crate::ids::{AdtId, TraitId};

verus! {

/// Whether a reference or raw pointer is shared or mutable.
#[derive(Debug, Clone, Copy, PartialEq, Eq, Structural)]
pub enum Mutability {
    Shared,
    Mut,
}

/// A built-in integer type, by signedness and bit width.
#[derive(Debug, Clone, Copy, PartialEq, Eq, Structural)]
pub enum IntTy {
    I8,
    I16,
    I32,
    I64,
    I128,
    Isize,
    U8,
    U16,
    U32,
    U64,
    U128,
    Usize,
}

/// The bit width of a built-in floating-point type.
#[derive(Debug, Clone, Copy, PartialEq, Eq, Structural)]
pub enum FloatBitness {
    X32,
    X64,
}

/// The outer constructor of an applied type.
#[derive(Debug, Clone, Copy, PartialEq, Eq, Structural)]
pub enum TypeCtor {
    /// A nominal algebraic data type (struct, enum or union).
    Adt(AdtId),
    Bool,
    Char,
    Int(IntTy),
    Float(FloatBitness),
    Str,
    /// A slice `[T]`; one type argument.
    Slice,
    /// A fixed-length array `[T; n]`; one type argument.
    Array,
    /// A raw pointer `*const T` / `*mut T`; one type argument.
    RawPtr(Mutability),
    /// A reference `&T` / `&mut T`; one type argument.
    Ref(Mutability),
    /// A tuple of the given arity; that many type arguments.
    Tuple { cardinality: u32 },
    Never,
    /// A function pointer; `num_args` arguments plus the return type.
    FnPtr { num_args: u32 },
}

/// A list of type arguments, also used as a substitution for bound variables.
#[derive(Debug)]
pub struct Substs(pub Vec<Ty>);

/// An applied type constructor together with its type arguments.
#[derive(Debug)]
pub struct ApplicationTy {
    pub ctor: TypeCtor,
    pub parameters: Substs,
}

/// A structural type tree.
#[derive(Debug)]
pub enum Ty {
    /// An applied constructor, e.g. `Vec<T>`, `bool`, `&mut T`, `(A, B)`.
    Apply(ApplicationTy),
    /// A named generic parameter of the enclosing definition.
    Placeholder(u32),
    /// A canonical hole: a not-yet-determined inference variable, counted by
    /// the `num_vars` of the enclosing [`Canonical`].
    Bound(u32),
    /// A trait-object type `dyn Trait`, by its principal trait.
    Dyn(TraitId),
    /// The unknown (error) type.
    Unknown,
}

/// A type together with the number of canonical holes it may mention. Lets
/// the search treat fully concrete and partially inferred receivers alike.
#[derive(Debug)]
pub struct Canonical {
    pub num_vars: usize,
    pub value: Ty,
}

/// The mathematical mirror of [`Ty`]: the value a `Ty` denotes, with the
/// argument vectors abstracted to sequences.
pub enum TyV {
    Apply(TypeCtor, Seq<TyV>),
    Placeholder(u32),
    Bound(u32),
    Dyn(TraitId),
    Unknown,
}

/// The mathematical mirror of [`Canonical`].
pub struct CanonicalV {
    pub num_vars: nat,
    pub value: TyV,
}

/// The value denoted by a list of types.
pub open spec fn tys_view(s: Seq<Ty>) -> Seq<TyV>
    decreases s,
{
    if s.len() == 0 {
        Seq::empty()
    } else {
        tys_view(s.drop_last()).push(ty_view(s.last()))
    }
}

/// The value denoted by a type.
pub open spec fn ty_view(t: Ty) -> TyV
    decreases t,
{
    match t {
        Ty::Apply(a) => TyV::Apply(a.ctor, tys_view(a.parameters.0@)),
        Ty::Placeholder(i) => TyV::Placeholder(i),
        Ty::Bound(i) => TyV::Bound(i),
        Ty::Dyn(t) => TyV::Dyn(t),
        Ty::Unknown => TyV::Unknown,
    }
}

impl View for Ty {
    type V = TyV;

    open spec fn view(&self) -> TyV {
        ty_view(*self)
    }
}

impl View for Substs {
    type V = Seq<TyV>;

    open spec fn view(&self) -> Seq<TyV> {
        tys_view(self.0@)
    }
}

impl View for Canonical {
    type V = CanonicalV;

    open spec fn view(&self) -> CanonicalV {
        CanonicalV { num_vars: self.num_vars as nat, value: ty_view(self.value) }
    }
}

/// The length of a type list's value equals the length of the list.
pub proof fn lemma_tys_view_len(s: Seq<Ty>)
    ensures
        tys_view(s).len() == s.len(),
    decreases s,
{
    if s.len() > 0 {
        lemma_tys_view_len(s.drop_last());
    }
}

/// The value of a type list is the list of the values, element by element.
pub proof fn lemma_tys_view_index(s: Seq<Ty>, i: int)
    requires
        0 <= i < s.len(),
    ensures
        tys_view(s).len() == s.len(),
        tys_view(s)[i] == ty_view(s[i]),
    decreases s,
{
    lemma_tys_view_len(s);
    if i < s.len() - 1 {
        lemma_tys_view_index(s.drop_last(), i);
    }
}

/// Clones every type of a list.
pub fn tys_clone(v: &Vec<Ty>) -> (r: Vec<Ty>)
    ensures
        tys_view(r@) == tys_view(v@),
    decreases v@,
{
    let mut r: Vec<Ty> = Vec::new();
    let mut i: usize = 0;
    while i < v.len()
        invariant
            i <= v@.len(),
            r@.len() == i,
            forall|j: int| 0 <= j < i ==> ty_view(#[trigger] r@[j]) == ty_view(v@[j]),
        decreases v@.len() - i,
    {
        let c = ty_clone(&v[i]);
        r.push(c);
        i = i + 1;
    }
    proof {
        assert forall|j: int| 0 <= j < r@.len() implies tys_view(r@)[j] == tys_view(v@)[j] by {
            lemma_tys_view_index(r@, j);
            lemma_tys_view_index(v@, j);
        }
        lemma_tys_view_len(r@);
        lemma_tys_view_len(v@);
        assert(tys_view(r@) =~= tys_view(v@));
    }
    r
}

/// Clones a type; the copy denotes the same value.
pub fn ty_clone(t: &Ty) -> (r: Ty)
    ensures
        r@ == t@,
    decreases *t,
{
    match t {
        Ty::Apply(a) => Ty::Apply(
            ApplicationTy { ctor: a.ctor, parameters: Substs(tys_clone(&a.parameters.0)) },
        ),
        Ty::Placeholder(i) => Ty::Placeholder(*i),
        Ty::Bound(i) => Ty::Bound(*i),
        Ty::Dyn(tr) => Ty::Dyn(*tr),
        Ty::Unknown => Ty::Unknown,
    }
}

impl Clone for Ty {
    fn clone(&self) -> (r: Ty)
        ensures
            r@ == self@,
    {
        ty_clone(self)
    }
}

impl Clone for Substs {
    fn clone(&self) -> (r: Substs)
        ensures
            r@ == self@,
    {
        Substs(tys_clone(&self.0))
    }
}

impl Clone for Canonical {
    fn clone(&self) -> (r: Canonical)
        ensures
            r@ == self@,
            r.num_vars == self.num_vars,
    {
        Canonical { num_vars: self.num_vars, value: ty_clone(&self.value) }
    }
}

/// Compares two type lists structurally.
pub fn tys_eq(x: &Vec<Ty>, y: &Vec<Ty>) -> (r: bool)
    ensures
        r == (tys_view(x@) == tys_view(y@)),
    decreases x@,
{
    proof {
        lemma_tys_view_len(x@);
        lemma_tys_view_len(y@);
    }
    if x.len() != y.len() {
        proof {
            assert(tys_view(x@).len() != tys_view(y@).len());
        }
        return false;
    }
    let mut i: usize = 0;
    while i < x.len()
        invariant
            x@.len() == y@.len(),
            i <= x@.len(),
            forall|j: int| 0 <= j < i ==> ty_view(#[trigger] x@[j]) == ty_view(y@[j]),
        decreases x@.len() - i,
    {
        if !ty_eq(&x[i], &y[i]) {
            proof {
                lemma_tys_view_index(x@, i as int);
                lemma_tys_view_index(y@, i as int);
                assert(tys_view(x@)[i as int] != tys_view(y@)[i as int]);
            }
            return false;
        }
        i = i + 1;
    }
    proof {
        assert forall|j: int| 0 <= j < x@.len() implies tys_view(x@)[j] == tys_view(y@)[j] by {
            lemma_tys_view_index(x@, j);
            lemma_tys_view_index(y@, j);
        }
        lemma_tys_view_len(x@);
        lemma_tys_view_len(y@);
        assert(tys_view(x@) =~= tys_view(y@));
    }
    true
}

/// Exact structural equality of two types.
pub fn ty_eq(a: &Ty, b: &Ty) -> (r: bool)
    ensures
        r == (a@ == b@),
    decreases *a,
{
    match (a, b) {
        (Ty::Apply(x), Ty::Apply(y)) => {
            if x.ctor == y.ctor {
                tys_eq(&x.parameters.0, &y.parameters.0)
            } else {
                false
            }
        },
        (Ty::Placeholder(i), Ty::Placeholder(j)) => i == j,
        (Ty::Bound(i), Ty::Bound(j)) => i == j,
        (Ty::Dyn(s), Ty::Dyn(t)) => s == t,
        (Ty::Unknown, Ty::Unknown) => true,
        _ => {
            proof {
                assert(a@ != b@);
            }
            false
        },
    }
}

/// Structural equality of two canonicalized types, hole counts included.
pub fn canonical_eq(a: &Canonical, b: &Canonical) -> (r: bool)
    ensures
        r == (a@ == b@),
{
    a.num_vars == b.num_vars && ty_eq(&a.value, &b.value)
}

/// Replaces every bound variable `i` of `t` that `args` covers by `args[i]`;
/// variables past the end of `args` stay as they are.
pub open spec fn subst_tyv(t: TyV, args: Seq<TyV>) -> TyV
    decreases t,
{
    match t {
        TyV::Apply(c, ps) => TyV::Apply(c, subst_tyvs(ps, args)),
        TyV::Bound(i) => if i < args.len() {
            args[i as int]
        } else {
            TyV::Bound(i)
        },
        _ => t,
    }
}

/// [`subst_tyv`], over each element of a list.
pub open spec fn subst_tyvs(s: Seq<TyV>, args: Seq<TyV>) -> Seq<TyV>
    decreases s,
{
    if s.len() == 0 {
        Seq::empty()
    } else {
        subst_tyvs(s.drop_last(), args).push(subst_tyv(s.last(), args))
    }
}

/// The substituted list is the list of the substituted elements.
pub proof fn lemma_subst_tyvs_index(s: Seq<TyV>, args: Seq<TyV>, i: int)
    requires
        0 <= i < s.len(),
    ensures
        subst_tyvs(s, args).len() == s.len(),
        subst_tyvs(s, args)[i] == subst_tyv(s[i], args),
    decreases s,
{
    lemma_subst_tyvs_len(s, args);
    if i < s.len() - 1 {
        lemma_subst_tyvs_index(s.drop_last(), args, i);
    }
}

/// The substituted list has the length of the original.
pub proof fn lemma_subst_tyvs_len(s: Seq<TyV>, args: Seq<TyV>)
    ensures
        subst_tyvs(s, args).len() == s.len(),
    decreases s,
{
    if s.len() > 0 {
        lemma_subst_tyvs_len(s.drop_last(), args);
    }
}

/// [`subst_bound_vars`], over each element of a list.
fn subst_tys(v: &Vec<Ty>, args: &Substs) -> (r: Vec<Ty>)
    ensures
        tys_view(r@) == subst_tyvs(tys_view(v@), args@),
    decreases v@,
{
    let mut r: Vec<Ty> = Vec::new();
    let mut i: usize = 0;
    while i < v.len()
        invariant
            i <= v@.len(),
            r@.len() == i,
            forall|j: int| 0 <= j < i ==> ty_view(#[trigger] r@[j]) == subst_tyv(ty_view(v@[j]), args@),
        decreases v@.len() - i,
    {
        let c = subst_bound_vars(&v[i], args);
        r.push(c);
        i = i + 1;
    }
    proof {
        lemma_tys_view_len(r@);
        lemma_tys_view_len(v@);
        lemma_subst_tyvs_len(tys_view(v@), args@);
        assert forall|j: int| 0 <= j < r@.len() implies tys_view(r@)[j] == subst_tyvs(
            tys_view(v@),
            args@,
        )[j] by {
            lemma_tys_view_index(r@, j);
            lemma_tys_view_index(v@, j);
            lemma_subst_tyvs_index(tys_view(v@), args@, j);
        }
        assert(tys_view(r@) =~= subst_tyvs(tys_view(v@), args@));
    }
    r
}

/// Substitutes `args` for the bound variables of `t`: variable `i` becomes
/// `args[i]` where `args` covers it and stays `Bound(i)` where it does not.
pub fn subst_bound_vars(t: &Ty, args: &Substs) -> (r: Ty)
    ensures
        r@ == subst_tyv(t@, args@),
    decreases *t,
{
    match t {
        Ty::Apply(a) => Ty::Apply(
            ApplicationTy { ctor: a.ctor, parameters: Substs(subst_tys(&a.parameters.0, args)) },
        ),
        Ty::Placeholder(i) => Ty::Placeholder(*i),
        Ty::Bound(i) => {
            proof {
                lemma_tys_view_len(args.0@);
            }
            if (*i as usize) < args.0.len() {
                let c = ty_clone(&args.0[*i as usize]);
                proof {
                    lemma_tys_view_index(args.0@, *i as int);
                }
                c
            } else {
                Ty::Bound(*i)
            }
        },
        Ty::Dyn(tr) => Ty::Dyn(*tr),
        Ty::Unknown => Ty::Unknown,
    }
}

/// Whether an impl block may be written directly against a type with this
/// outer constructor: nominal types, the primitives, `str`, slices and raw
/// pointers — never references, tuples, arrays, the never type or function
/// pointers.
pub open spec fn ctor_may_own_impls(ctor: TypeCtor) -> bool {
    match ctor {
        TypeCtor::Adt(_) => true,
        TypeCtor::Bool => true,
        TypeCtor::Char => true,
        TypeCtor::Int(_) => true,
        TypeCtor::Float(_) => true,
        TypeCtor::Str => true,
        TypeCtor::Slice => true,
        TypeCtor::RawPtr(_) => true,
        _ => false,
    }
}

/// The fingerprint of a type, when it has one: the outer constructor of an
/// applied type that may own impls.
pub open spec fn spec_fingerprint(t: Ty) -> Option<TyFingerprint> {
    match t {
        Ty::Apply(a) => if ctor_may_own_impls(a.ctor) {
            Some(TyFingerprint::Apply(a.ctor))
        } else {
            None
        },
        _ => None,
    }
}

impl Substs {
    /// An empty argument list.
    pub fn empty() -> (r: Substs)
        ensures
            r@ == Seq::<TyV>::empty(),
    {
        Substs(Vec::new())
    }

    /// A one-element argument list.
    pub fn single(t: Ty) -> (r: Substs)
        ensures
            r@ == seq![t@],
    {
        let mut v: Vec<Ty> = Vec::new();
        v.push(t);
        proof {
            assert(v@.drop_last() =~= Seq::<Ty>::empty());
            assert(tys_view(Seq::<Ty>::empty()) =~= Seq::<TyV>::empty());
            assert(v@.last() == t);
            assert(tys_view(v@) =~= seq![t@]);
        }
        Substs(v)
    }
}

impl Ty {
    /// Applies `ctor` to a single type argument.
    pub fn apply_one(ctor: TypeCtor, param: Ty) -> (r: Ty)
        ensures
            r@ == TyV::Apply(ctor, seq![param@]),
    {
        let s = Substs::single(param);
        proof {
            assert(tys_view(s.0@) =~= seq![s.0@.last()@]);
        }
        Ty::Apply(ApplicationTy { ctor, parameters: s })
    }

    /// The principal trait of a trait-object type, if this is one.
    pub fn dyn_trait(&self) -> (r: Option<TraitId>)
        ensures
            r == (match *self {
                Ty::Dyn(t) => Some(t),
                _ => None::<TraitId>,
            }),
    {
        match self {
            Ty::Dyn(t) => Some(*t),
            _ => None,
        }
    }
}

/// A coarse, total key derived from a closed type's outer constructor; used
/// for indexing impls.
#[derive(Debug, Clone, Copy, PartialEq, Eq, Structural)]
pub enum TyFingerprint {
    Apply(TypeCtor),
}

impl TyFingerprint {
    /// Creates a `TyFingerprint` for looking up an impl. Only certain types
    /// can have impls: if we have some `struct S`, we can have an `impl S`,
    /// but not `impl &S`. Hence, this returns `None` for reference types,
    /// tuples, placeholders, holes and the unknown type.
    pub fn for_impl(ty: &Ty) -> (r: Option<TyFingerprint>)
        ensures
            r == spec_fingerprint(*ty),
            r is Some <==> (*ty matches Ty::Apply(a) && ctor_may_own_impls(a.ctor)),
    {
        match ty {
            Ty::Apply(a_ty) => match a_ty.ctor {
                TypeCtor::Adt(_)
                | TypeCtor::Bool
                | TypeCtor::Char
                | TypeCtor::Int(_)
                | TypeCtor::Float(_)
                | TypeCtor::Str
                | TypeCtor::Slice
                | TypeCtor::RawPtr(_) => Some(TyFingerprint::Apply(a_ty.ctor)),
                _ => None,
            },
            _ => None,
        }
    }
}

} // verus!
