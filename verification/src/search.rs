//! The candidate search: enumerating the callable items a call site could
//! resolve to, in the exact order the language prescribes.
//!
//! Method-call lookup walks the receiver's deref chain, shallowest level
//! first; at each level it tries the receiver by value, behind a shared
//! reference, and behind a mutable reference; for each receiver shape it
//! scans every self type of the remaining chain for inherent candidates
//! before it scans any of them for trait candidates. Path lookup walks the
//! one self type, inherent candidates first, with no receiver-shape check.
//! Trait candidates are confirmed against the oracle, one query per trait.

use vstd::prelude::*;

use crate::autoderef::{autoderef_method_receiver, cans_view, spec_method_receiver_chain};
use crate::db::{lang_item, spec_lang_item, trait_solve, Goal, GoalV, LangItemTarget, LangKey,
    TraitEnvironment, World, VAR_BOUND};
use crate::ids::{AssocItemId, CrateId, FunctionId, ImplId, TraitId};
use crate::ty::{lemma_tys_view_index, lemma_tys_view_len, ty_clone, ty_eq, tys_view, ty_view,
    Canonical, CanonicalV, Substs, Ty, TyV, TypeCtor};
use crate::unify::{inherent_impl_substs, spec_inherent_impl_substs, spec_transform_receiver_ty,
    transform_receiver_ty};
use crate::outside::{crate_list_items, crate_list_new, crate_list_push, crate_list_view, CrateList};

verus! {

/// Whether we're looking up a dotted method call (like `v.len()`) or a path
/// (like `Vec::new`).
#[derive(Debug, Clone, Copy, PartialEq, Eq, Structural)]
pub enum LookupMode {
    /// Looking up a method call like `v.len()`: only candidates with a self
    /// parameter count, and the receiver is autoderefed and autorefed.
    MethodCall,
    /// Looking up a path like `Vec::new` or `Vec::default`: all candidates
    /// count, associated constants included, and there is no autoderef.
    Path,
}

/// The compiler-recognized markers under which the standard library's
/// inherent impls of a built-in type are found. The primitives with impls
/// split between the core and alloc library parts have two markers.
pub open spec fn ctor_lang_keys(ctor: TypeCtor) -> Seq<LangKey> {
    match ctor {
        TypeCtor::Bool => seq![LangKey::Bool],
        TypeCtor::Char => seq![LangKey::Char],
        TypeCtor::Float(crate::ty::FloatBitness::X32) => seq![LangKey::F32, LangKey::F32Runtime],
        TypeCtor::Float(crate::ty::FloatBitness::X64) => seq![LangKey::F64, LangKey::F64Runtime],
        TypeCtor::Int(i) => seq![LangKey::Int(i)],
        TypeCtor::Str => seq![LangKey::StrAlloc, LangKey::Str],
        TypeCtor::Slice => seq![LangKey::SliceAlloc, LangKey::Slice],
        TypeCtor::RawPtr(crate::ty::Mutability::Shared) => seq![LangKey::ConstPtr],
        TypeCtor::RawPtr(crate::ty::Mutability::Mut) => seq![LangKey::MutPtr],
        _ => Seq::empty(),
    }
}

/// The crate a marker's impl lives in, if the marker is recorded and marks
/// an impl block.
pub open spec fn lang_key_crates(w: World, key: LangKey) -> Seq<u32> {
    match spec_lang_item(w.lang_items@, key) {
        Some(LangItemTarget::ImplDef(i)) => seq![w.impls@[i.0 as int].krate.0],
        _ => Seq::empty(),
    }
}

/// [`lang_key_crates`], over a list of markers.
pub open spec fn lang_keys_crates(w: World, keys: Seq<LangKey>) -> Seq<u32>
    decreases keys.len(),
{
    if keys.len() == 0 {
        Seq::empty()
    } else {
        lang_key_crates(w, keys[0]) + lang_keys_crates(w, keys.drop_first())
    }
}

/// The crates whose impl catalogs can hold inherent impls of `t`: the
/// declaring crate of a nominal type; for the built-in types, the crates
/// that declare the corresponding markers; nothing for every other type.
pub open spec fn spec_def_crates(w: World, t: Ty) -> Option<Seq<u32>> {
    match t {
        Ty::Apply(a) => match a.ctor {
            TypeCtor::Adt(id) => Some(seq![w.adts@[id.0 as int].0]),
            TypeCtor::Ref(_) => None,
            TypeCtor::Tuple { .. } => None,
            TypeCtor::Array => None,
            TypeCtor::Never => None,
            TypeCtor::FnPtr { .. } => None,
            _ => Some(lang_keys_crates(w, ctor_lang_keys(a.ctor))),
        },
        _ => None,
    }
}

/// A found marker is one of the recorded entries.
proof fn lemma_lang_item_found(s: Seq<(LangKey, LangItemTarget)>, key: LangKey)
    requires
        spec_lang_item(s, key) is Some,
    ensures
        exists|i: int|
            0 <= i < s.len() && (#[trigger] s[i]).0 == key && s[i].1 == spec_lang_item(s, key)->0,
    decreases s.len(),
{
    if s.len() > 0 {
        if s[0].0 == key {
            assert(s[0].0 == key && s[0].1 == spec_lang_item(s, key)->0);
        } else {
            lemma_lang_item_found(s.drop_first(), key);
            let i = choose|i: int|
                0 <= i < s.drop_first().len() && (#[trigger] s.drop_first()[i]).0 == key
                    && s.drop_first()[i].1 == spec_lang_item(s.drop_first(), key)->0;
            assert(s[i + 1].0 == key && s[i + 1].1 == spec_lang_item(s, key)->0);
        }
    }
}

/// A marker's crate list holds at most one crate.
proof fn lemma_lang_key_crates_short(w: World, key: LangKey)
    ensures
        lang_key_crates(w, key).len() <= 1,
{
}

/// Appends the crate a marker points at, if any, to a defining-crates list.
fn push_lang_crates(w: &World, v: &mut CrateList, key: LangKey)
    requires
        w.wf(),
        crate_list_view(*old(v)).len() < 2,
    ensures
        crate_list_view(*final(v)) == crate_list_view(*old(v)) + lang_key_crates(*w, key),
{
    let target = lang_item(w, key);
    match target {
        Some(LangItemTarget::ImplDef(i)) => {
            proof {
                lemma_lang_item_found(w.lang_items@, key);
                assert(i.0 < w.impls@.len());
            }
            let k = w.impls[i.0 as usize].krate.0;
            crate_list_push(v, k);
            proof {
                assert(crate_list_view(*old(v)).push(k) =~= crate_list_view(*old(v))
                    + lang_key_crates(*w, key));
            }
        },
        _ => {
            proof {
                assert(crate_list_view(*v) =~= crate_list_view(*old(v)) + lang_key_crates(
                    *w,
                    key,
                ));
            }
        },
    }
}

impl Ty {
    /// The crates whose catalogs can hold inherent impls of this type. Types
    /// like slices can have inherent impls in two crates (core and alloc);
    /// the corresponding impls carry compiler-recognized markers, which the
    /// store records in one table; `cur_crate` names the crate on whose
    /// behalf the markers are looked up.
    pub fn def_crates(&self, w: &World, cur_crate: CrateId) -> (r: Option<CrateList>)
        requires
            w.wf(),
            crate::db::ty_wf(*w, *self),
        ensures
            r is Some <==> spec_def_crates(*w, *self) is Some,
            r is Some ==> crate_list_view(r->0) == spec_def_crates(*w, *self)->0,
    {
        let _ = cur_crate;
        match self {
            Ty::Apply(a) => {
                match a.ctor {
                    TypeCtor::Adt(id) => {
                        let mut v = crate_list_new();
                        crate_list_push(&mut v, w.adts[id.0 as usize].0);
                        proof {
                            assert(crate_list_view(v) =~= seq![w.adts@[id.0 as int].0]);
                        }
                        Some(v)
                    },
                    TypeCtor::Ref(_) => None,
                    TypeCtor::Tuple { .. } => None,
                    TypeCtor::Array => None,
                    TypeCtor::Never => None,
                    TypeCtor::FnPtr { .. } => None,
                    _ => {
                        let keys = ctor_lang_keys_exec(a.ctor);
                        let mut v = crate_list_new();
                        proof {
                            assert(crate_list_view(v) + lang_keys_crates(
                                *w,
                                ctor_lang_keys(a.ctor),
                            ) =~= lang_keys_crates(*w, ctor_lang_keys(a.ctor)));
                        }
                        match keys {
                            (Some(k1), None) => {
                                push_lang_crates(w, &mut v, k1);
                                proof {
                                    lemma_lang_key_crates_short(*w, k1);
                                    assert(seq![k1].drop_first() =~= Seq::<LangKey>::empty());
                                    assert(lang_keys_crates(*w, Seq::<LangKey>::empty()) =~= Seq::<
                                        u32,
                                    >::empty());
                                    assert(lang_keys_crates(*w, seq![k1]) =~= lang_key_crates(
                                        *w,
                                        k1,
                                    ));
                                    assert(crate_list_view(v) =~= lang_keys_crates(
                                        *w,
                                        ctor_lang_keys(a.ctor),
                                    ));
                                }
                            },
                            (Some(k1), Some(k2)) => {
                                push_lang_crates(w, &mut v, k1);
                                proof {
                                    lemma_lang_key_crates_short(*w, k1);
                                    lemma_lang_key_crates_short(*w, k2);
                                    assert(Seq::<u32>::empty() + lang_key_crates(*w, k1)
                                        =~= lang_key_crates(*w, k1));
                                }
                                push_lang_crates(w, &mut v, k2);
                                proof {
                                    assert(seq![k1, k2].drop_first() =~= seq![k2]);
                                    assert(seq![k2].drop_first() =~= Seq::<LangKey>::empty());
                                    assert(lang_keys_crates(*w, Seq::<LangKey>::empty()) =~= Seq::<
                                        u32,
                                    >::empty());
                                    assert(lang_keys_crates(*w, seq![k2]) =~= lang_key_crates(
                                        *w,
                                        k2,
                                    ));
                                    assert(lang_keys_crates(*w, seq![k1, k2]) =~= lang_key_crates(
                                        *w,
                                        k1,
                                    ) + lang_key_crates(*w, k2));
                                    assert(crate_list_view(v) =~= lang_keys_crates(
                                        *w,
                                        ctor_lang_keys(a.ctor),
                                    ));
                                }
                            },
                            _ => {
                                proof {
                                    assert(false);
                                }
                            },
                        }
                        Some(v)
                    },
                }
            },
            _ => None,
        }
    }
}

/// The markers of one impl-capable built-in constructor, as values: the
/// first is always there, the second only for the split primitives.
fn ctor_lang_keys_exec(ctor: TypeCtor) -> (r: (Option<LangKey>, Option<LangKey>))
    requires
        !(ctor matches TypeCtor::Adt(_)),
        !(ctor matches TypeCtor::Ref(_)),
        !(ctor matches TypeCtor::Tuple { .. }),
        ctor != TypeCtor::Array,
        ctor != TypeCtor::Never,
        !(ctor matches TypeCtor::FnPtr { .. }),
    ensures
        r.0 is Some,
        (match r {
            (Some(k1), Some(k2)) => ctor_lang_keys(ctor) == seq![k1, k2],
            (Some(k1), None) => ctor_lang_keys(ctor) == seq![k1],
            _ => false,
        }),
{
    let r = match ctor {
        TypeCtor::Bool => (Some(LangKey::Bool), None),
        TypeCtor::Char => (Some(LangKey::Char), None),
        TypeCtor::Float(crate::ty::FloatBitness::X32) => (
            Some(LangKey::F32),
            Some(LangKey::F32Runtime),
        ),
        TypeCtor::Float(crate::ty::FloatBitness::X64) => (
            Some(LangKey::F64),
            Some(LangKey::F64Runtime),
        ),
        TypeCtor::Int(i) => (Some(LangKey::Int(i)), None),
        TypeCtor::Str => (Some(LangKey::StrAlloc), Some(LangKey::Str)),
        TypeCtor::Slice => (Some(LangKey::SliceAlloc), Some(LangKey::Slice)),
        TypeCtor::RawPtr(crate::ty::Mutability::Shared) => (Some(LangKey::ConstPtr), None),
        TypeCtor::RawPtr(crate::ty::Mutability::Mut) => (Some(LangKey::MutPtr), None),
        _ => (None, None),
    };
    proof {
        match r {
            (Some(k1), Some(k2)) => {
                assert(ctor_lang_keys(ctor) =~= seq![k1, k2]);
            },
            (Some(k1), None) => {
                assert(ctor_lang_keys(ctor) =~= seq![k1]);
            },
            _ => {},
        }
    }
    r
}

/// The view of an optional name filter.
pub open spec fn opt_name_view(n: Option<&String>) -> Option<Seq<char>> {
    match n {
        Some(s) => Some(s@),
        None => None,
    }
}

/// The view of an optional receiver shape.
pub open spec fn opt_recv_view(r: Option<&Canonical>) -> Option<CanonicalV> {
    match r {
        Some(c) => Some(c@),
        None => None,
    }
}

/// Whether `item` passes the name filter, the self-parameter filter and the
/// receiver-shape filter. Functions must carry the name and, when a
/// receiver shape is given, have a self parameter whose transformed type is
/// exactly that shape. Associated constants are eligible only without a
/// receiver shape. Type aliases never are.
pub open spec fn spec_is_valid_candidate(
    w: World,
    name: Option<Seq<char>>,
    recv: Option<CanonicalV>,
    item: AssocItemId,
    self_ty: CanonicalV,
) -> bool {
    match item {
        AssocItemId::FunctionId(m) => {
            let d = w.functions@[m.0 as int];
            &&& (name matches Some(n) ==> d.name@ == n)
            &&& (recv matches Some(r) ==> (d.has_self_param && spec_transform_receiver_ty(
                w,
                m,
                self_ty,
            ) == Some(r.value)))
        },
        AssocItemId::ConstId(c) => {
            let d = w.consts@[c.0 as int];
            &&& (name matches Some(n) ==> (d.name matches Some(dn) && dn@ == n))
            &&& recv is None
        },
        AssocItemId::TypeAliasId(_) => false,
    }
}

/// Applies the candidate filters to one associated item.
pub fn is_valid_candidate(
    w: &World,
    name: Option<&String>,
    receiver_ty: Option<&Canonical>,
    item: AssocItemId,
    self_ty: &Canonical,
) -> (r: bool)
    requires
        w.wf(),
        (item matches AssocItemId::FunctionId(m) ==> m.0 < w.functions@.len()),
        (item matches AssocItemId::ConstId(c) ==> c.0 < w.consts@.len()),
        self_ty.num_vars <= VAR_BOUND,
    ensures
        r == spec_is_valid_candidate(
            *w,
            opt_name_view(name),
            opt_recv_view(receiver_ty),
            item,
            self_ty@,
        ),
{
    match item {
        AssocItemId::FunctionId(m) => {
            let data = &w.functions[m.0 as usize];
            if let Some(n) = name {
                if !n.eq(&data.name) {
                    return false;
                }
            }
            if let Some(recv) = receiver_ty {
                if !data.has_self_param {
                    return false;
                }
                match transform_receiver_ty(w, m, self_ty) {
                    Some(t) => ty_eq(&t, &recv.value),
                    None => false,
                }
            } else {
                true
            }
        },
        AssocItemId::ConstId(c) => {
            let data = &w.consts[c.0 as usize];
            let name_ok = match name {
                Some(n) => match &data.name {
                    Some(dn) => n.eq(dn),
                    None => false,
                },
                None => true,
            };
            name_ok && receiver_ty.is_none()
        },
        AssocItemId::TypeAliasId(_) => false,
    }
}

/// The obligation asking whether `c` satisfies `trait_`: the trait's `Self`
/// is `c`'s value and each remaining trait parameter a fresh hole.
pub open spec fn spec_implements_goal(w: World, trait_: TraitId, c: CanonicalV) -> GoalV {
    let ntp = w.traits@[trait_.0 as int].num_type_params as nat;
    GoalV {
        num_vars: (c.num_vars + ntp - 1) as nat,
        trait_,
        substs: seq![c.value] + Seq::new((ntp - 1) as nat, |j: int| TyV::Bound(
            (c.num_vars + j) as u32,
        )),
    }
}

/// Builds the obligation asking whether `self_ty` satisfies `trait_`.
pub fn generic_implements_goal(w: &World, trait_: TraitId, self_ty: &Canonical) -> (g: Goal)
    requires
        w.wf(),
        trait_.0 < w.traits@.len(),
        self_ty.num_vars <= VAR_BOUND,
    ensures
        g@ == spec_implements_goal(*w, trait_, self_ty@),
{
    let ntp = w.traits[trait_.0 as usize].num_type_params as usize;
    let mut v: Vec<Ty> = Vec::new();
    v.push(ty_clone(&self_ty.value));
    let mut j: usize = 1;
    while j < ntp
        invariant
            self_ty.num_vars <= VAR_BOUND,
            ntp <= VAR_BOUND,
            1 <= j <= ntp || (j == 1 && ntp <= 1),
            v@.len() == j,
            ty_view(v@[0]) == self_ty@.value,
            forall|k: int| 1 <= k < j ==> #[trigger] v@[k] == Ty::Bound(
                (self_ty.num_vars + k - 1) as u32,
            ),
        decreases ntp - j,
    {
        v.push(Ty::Bound((self_ty.num_vars + (j - 1)) as u32));
        j = j + 1;
    }
    proof {
        lemma_tys_view_len(v@);
        let model = seq![self_ty@.value] + Seq::new(
            (w.traits@[trait_.0 as int].num_type_params - 1) as nat,
            |k: int| TyV::Bound((self_ty@.num_vars + k) as u32),
        );
        assert(v@.len() == model.len());
        assert forall|k: int| 0 <= k < v@.len() implies tys_view(v@)[k] == model[k] by {
            lemma_tys_view_index(v@, k);
        }
        assert(tys_view(v@) =~= model);
    }
    Goal { num_vars: self_ty.num_vars + (ntp - 1), trait_, substs: Substs(v) }
}

/// A single oracle probe: whether `ty` satisfies `trait_`, with the trait's
/// own extra generics as fresh holes. Used by callers that need only a
/// yes-or-no coherence answer.
pub fn implements_trait(ty: &Canonical, w: &World, krate: CrateId, trait_: TraitId) -> (r: bool)
    requires
        w.wf(),
        trait_.0 < w.traits@.len(),
        ty.num_vars <= VAR_BOUND,
    ensures
        r == crate::db::spec_trait_solve(*w, krate, spec_implements_goal(*w, trait_, ty@)),
{
    let goal = generic_implements_goal(w, trait_, ty);
    trait_solve(w, krate, &goal)
}

/// The fingerprint of a type value (see [`crate::ty::spec_fingerprint`]).
pub open spec fn fingerprint_v(t: TyV) -> Option<crate::ty::TyFingerprint> {
    match t {
        TyV::Apply(c, _) => if crate::ty::ctor_may_own_impls(c) {
            Some(crate::ty::TyFingerprint::Apply(c))
        } else {
            None
        },
        _ => None,
    }
}

/// The two fingerprint functions agree across the view.
pub proof fn lemma_fingerprint_view(t: Ty)
    ensures
        crate::ty::spec_fingerprint(t) == fingerprint_v(ty_view(t)),
{
}

/// The values of a list of found candidates.
pub open spec fn found_view(s: Seq<(Ty, AssocItemId)>) -> Seq<(TyV, AssocItemId)>
    decreases s,
{
    if s.len() == 0 {
        Seq::empty()
    } else {
        found_view(s.drop_last()).push((s.last().0@, s.last().1))
    }
}

/// The value list is the list of the values.
pub proof fn lemma_found_view_index(s: Seq<(Ty, AssocItemId)>, i: int)
    requires
        0 <= i < s.len(),
    ensures
        found_view(s).len() == s.len(),
        found_view(s)[i] == (s[i].0@, s[i].1),
    decreases s,
{
    lemma_found_view_len(s);
    if i < s.len() - 1 {
        lemma_found_view_index(s.drop_last(), i);
    }
}

/// The value list has the length of the original.
pub proof fn lemma_found_view_len(s: Seq<(Ty, AssocItemId)>)
    ensures
        found_view(s).len() == s.len(),
    decreases s,
{
    if s.len() > 0 {
        lemma_found_view_len(s.drop_last());
    }
}

/// Pushing one found candidate extends the value list by its value.
pub proof fn lemma_found_view_push(pre: Seq<(Ty, AssocItemId)>, s: Seq<(Ty, AssocItemId)>)
    requires
        s.len() >= 1,
        s.drop_last() == pre,
    ensures
        found_view(s) == found_view(pre).push((s.last().0@, s.last().1)),
{
}

/// The candidates one impl block contributes at `self_ty`: its items that
/// pass the filters, each paired with the self type. Without a receiver
/// shape (path lookup), the impl must additionally specialize against the
/// self type, which guards against fingerprint collisions between
/// differently instantiated impls.
pub open spec fn spec_impl_item_cands(
    w: World,
    impl_id: ImplId,
    items: Seq<AssocItemId>,
    name: Option<Seq<char>>,
    recv: Option<CanonicalV>,
    self_ty: CanonicalV,
) -> Seq<(TyV, AssocItemId)>
    decreases items.len(),
{
    if items.len() == 0 {
        Seq::empty()
    } else {
        let prev = spec_impl_item_cands(w, impl_id, items.drop_last(), name, recv, self_ty);
        let it = items.last();
        if spec_is_valid_candidate(w, name, recv, it, self_ty) && (recv is None
            ==> spec_inherent_impl_substs(w, impl_id, self_ty) is Some) {
            prev.push((self_ty.value, it))
        } else {
            prev
        }
    }
}

/// The candidates a bucket of impl blocks contributes, impl after impl.
pub open spec fn spec_bucket_cands(
    w: World,
    bucket: Seq<ImplId>,
    name: Option<Seq<char>>,
    recv: Option<CanonicalV>,
    self_ty: CanonicalV,
) -> Seq<(TyV, AssocItemId)>
    decreases bucket.len(),
{
    if bucket.len() == 0 {
        Seq::empty()
    } else {
        spec_bucket_cands(w, bucket.drop_last(), name, recv, self_ty) + spec_impl_item_cands(
            w,
            bucket.last(),
            w.impls@[bucket.last().0 as int].items@,
            name,
            recv,
            self_ty,
        )
    }
}

/// The inherent candidates the catalogs of a list of crates contribute.
pub open spec fn spec_crates_cands(
    w: World,
    crates: Seq<u32>,
    name: Option<Seq<char>>,
    recv: Option<CanonicalV>,
    self_ty: CanonicalV,
) -> Seq<(TyV, AssocItemId)>
    decreases crates.len(),
{
    if crates.len() == 0 {
        Seq::empty()
    } else {
        let bucket = match fingerprint_v(self_ty.value) {
            Some(fp) => crate::index::crate_inherent_impls(w, CrateId(crates.last()), fp),
            None => Seq::empty(),
        };
        spec_crates_cands(w, crates.drop_last(), name, recv, self_ty) + spec_bucket_cands(
            w,
            bucket,
            name,
            recv,
            self_ty,
        )
    }
}

/// The inherent candidates at one self type: what the catalogs of its
/// defining crates hold for its fingerprint, filtered.
pub open spec fn spec_inherent_cands(
    w: World,
    self_ty: CanonicalV,
    name: Option<Seq<char>>,
    recv: Option<CanonicalV>,
) -> Seq<(TyV, AssocItemId)> {
    match spec_def_crates_v(w, self_ty.value) {
        Some(crates) => spec_crates_cands(w, crates, name, recv, self_ty),
        None => Seq::empty(),
    }
}

/// [`spec_def_crates`], over a type value.
pub open spec fn spec_def_crates_v(w: World, t: TyV) -> Option<Seq<u32>> {
    match t {
        TyV::Apply(c, _) => match c {
            TypeCtor::Adt(id) => Some(seq![w.adts@[id.0 as int].0]),
            TypeCtor::Ref(_) => None,
            TypeCtor::Tuple { .. } => None,
            TypeCtor::Array => None,
            TypeCtor::Never => None,
            TypeCtor::FnPtr { .. } => None,
            _ => Some(lang_keys_crates(w, ctor_lang_keys(c))),
        },
        _ => None,
    }
}

/// The two defining-crates functions agree across the view.
pub proof fn lemma_def_crates_view(w: World, t: Ty)
    ensures
        spec_def_crates(w, t) == spec_def_crates_v(w, ty_view(t)),
{
}

/// The trait candidates one trait contributes at `self_ty`: its items that
/// pass the filters — and only when the oracle confirms that `self_ty`
/// satisfies the trait. The confirmation is queried lazily, once per trait,
/// when the first item passes; a rejection suppresses the whole trait.
pub open spec fn spec_trait_item_cands(
    w: World,
    items: Seq<AssocItemId>,
    name: Option<Seq<char>>,
    recv: Option<CanonicalV>,
    self_ty: CanonicalV,
) -> Seq<(TyV, AssocItemId)>
    decreases items.len(),
{
    if items.len() == 0 {
        Seq::empty()
    } else {
        let prev = spec_trait_item_cands(w, items.drop_last(), name, recv, self_ty);
        let it = items.last();
        if spec_is_valid_candidate(w, name, recv, it, self_ty) {
            prev.push((self_ty.value, it))
        } else {
            prev
        }
    }
}

/// What one trait contributes: its passing items when the oracle confirms
/// it, nothing when it does not.
pub open spec fn spec_one_trait_cands(
    w: World,
    krate: CrateId,
    t: TraitId,
    name: Option<Seq<char>>,
    recv: Option<CanonicalV>,
    self_ty: CanonicalV,
) -> Seq<(TyV, AssocItemId)> {
    if crate::db::spec_trait_solve(w, krate, spec_implements_goal(w, t, self_ty)) {
        spec_trait_item_cands(w, w.traits@[t.0 as int].items@, name, recv, self_ty)
    } else {
        Seq::empty()
    }
}

/// The trait candidates a list of traits contributes, trait after trait.
pub open spec fn spec_traits_cands(
    w: World,
    krate: CrateId,
    traits: Seq<TraitId>,
    name: Option<Seq<char>>,
    recv: Option<CanonicalV>,
    self_ty: CanonicalV,
) -> Seq<(TyV, AssocItemId)>
    decreases traits.len(),
{
    if traits.len() == 0 {
        Seq::empty()
    } else {
        spec_traits_cands(w, krate, traits.drop_last(), name, recv, self_ty)
            + spec_one_trait_cands(w, krate, traits.last(), name, recv, self_ty)
    }
}

/// The traits the ambient environment brings in for a placeholder self type:
/// each bound trait with all its supertraits.
pub open spec fn spec_env_traits(w: World, preds: Seq<(Ty, TraitId)>, self_v: TyV) -> Seq<TraitId>
    decreases preds.len(),
{
    if preds.len() == 0 {
        Seq::empty()
    } else {
        let prev = spec_env_traits(w, preds.drop_last(), self_v);
        if ty_view(preds.last().0) == self_v {
            let t = preds.last().1;
            prev + seq![t] + w.traits@[t.0 as int].all_supers@
        } else {
            prev
        }
    }
}

/// The trait universe at a self type: the traits a `dyn Trait` existential
/// implies (supertraits included, regardless of scope), then the traits the
/// environment binds on a placeholder (with their supertraits), then the
/// traits lexically in scope.
pub open spec fn spec_trait_universe(
    w: World,
    env: TraitEnvironment,
    scope: Seq<TraitId>,
    self_ty: CanonicalV,
) -> Seq<TraitId> {
    let dyn_part = match self_ty.value {
        TyV::Dyn(t) => seq![t] + w.traits@[t.0 as int].all_supers@,
        _ => Seq::empty(),
    };
    let env_part = if self_ty.value is Placeholder {
        spec_env_traits(w, env.predicates@, self_ty.value)
    } else {
        Seq::empty()
    };
    dyn_part + env_part + scope
}

/// The trait candidates at one self type.
pub open spec fn spec_trait_cands(
    w: World,
    krate: CrateId,
    env: TraitEnvironment,
    scope: Seq<TraitId>,
    self_ty: CanonicalV,
    name: Option<Seq<char>>,
    recv: Option<CanonicalV>,
) -> Seq<(TyV, AssocItemId)> {
    spec_traits_cands(w, krate, spec_trait_universe(w, env, scope, self_ty), name, recv, self_ty)
}

/// The inherent candidates over a walk of self types, nearest first.
pub open spec fn spec_walk_inherent(
    w: World,
    walk: Seq<CanonicalV>,
    name: Option<Seq<char>>,
    recv: Option<CanonicalV>,
) -> Seq<(TyV, AssocItemId)>
    decreases walk.len(),
{
    if walk.len() == 0 {
        Seq::empty()
    } else {
        spec_walk_inherent(w, walk.drop_last(), name, recv) + spec_inherent_cands(
            w,
            walk.last(),
            name,
            recv,
        )
    }
}

/// The trait candidates over a walk of self types, nearest first.
pub open spec fn spec_walk_traits(
    w: World,
    krate: CrateId,
    env: TraitEnvironment,
    scope: Seq<TraitId>,
    walk: Seq<CanonicalV>,
    name: Option<Seq<char>>,
    recv: Option<CanonicalV>,
) -> Seq<(TyV, AssocItemId)>
    decreases walk.len(),
{
    if walk.len() == 0 {
        Seq::empty()
    } else {
        spec_walk_traits(w, krate, env, scope, walk.drop_last(), name, recv) + spec_trait_cands(
            w,
            krate,
            env,
            scope,
            walk.last(),
            name,
            recv,
        )
    }
}

/// The candidates for one receiver shape: every self type of the walk is
/// scanned for inherent candidates before any is scanned for trait
/// candidates.
pub open spec fn spec_by_receiver(
    w: World,
    krate: CrateId,
    env: TraitEnvironment,
    scope: Seq<TraitId>,
    recv: CanonicalV,
    walk: Seq<CanonicalV>,
    name: Option<Seq<char>>,
) -> Seq<(TyV, AssocItemId)> {
    spec_walk_inherent(w, walk, name, Some(recv)) + spec_walk_traits(
        w,
        krate,
        env,
        scope,
        walk,
        name,
        Some(recv),
    )
}

/// The receiver wrapped in one reference.
pub open spec fn ref_canonical(m: crate::ty::Mutability, c: CanonicalV) -> CanonicalV {
    CanonicalV { num_vars: c.num_vars, value: TyV::Apply(TypeCtor::Ref(m), seq![c.value]) }
}

/// The candidates of one deref level: the receiver by value, then behind a
/// shared reference, then behind a mutable reference. The walk of a
/// referenced variant starts over at the referenced value, so it holds the
/// level's self type once more.
pub open spec fn spec_with_autoref(
    w: World,
    krate: CrateId,
    env: TraitEnvironment,
    scope: Seq<TraitId>,
    suffix: Seq<CanonicalV>,
    name: Option<Seq<char>>,
) -> Seq<(TyV, AssocItemId)> {
    let shared = ref_canonical(crate::ty::Mutability::Shared, suffix[0]);
    let muted = ref_canonical(crate::ty::Mutability::Mut, suffix[0]);
    spec_by_receiver(w, krate, env, scope, suffix[0], suffix, name) + spec_by_receiver(
        w,
        krate,
        env,
        scope,
        shared,
        seq![shared] + suffix,
        name,
    ) + spec_by_receiver(w, krate, env, scope, muted, seq![muted] + suffix, name)
}

/// The candidates of the first `n` deref levels, shallowest level first.
pub open spec fn spec_method_call_upto(
    w: World,
    krate: CrateId,
    env: TraitEnvironment,
    scope: Seq<TraitId>,
    chain: Seq<CanonicalV>,
    name: Option<Seq<char>>,
    n: nat,
) -> Seq<(TyV, AssocItemId)>
    decreases n,
{
    if n == 0 {
        Seq::empty()
    } else {
        spec_method_call_upto(w, krate, env, scope, chain, name, (n - 1) as nat)
            + spec_with_autoref(w, krate, env, scope, chain.skip(n - 1), name)
    }
}

/// Every candidate the search yields, in yield order: the full stream a
/// callback-driven search would see when never stopped early. One item can
/// appear more than once — once per receiver shape and self type it matches.
pub open spec fn spec_candidates(
    w: World,
    ty: CanonicalV,
    env: TraitEnvironment,
    krate: CrateId,
    scope: Seq<TraitId>,
    name: Option<Seq<char>>,
    mode: LookupMode,
) -> Seq<(TyV, AssocItemId)> {
    match mode {
        LookupMode::MethodCall => {
            let chain = spec_method_receiver_chain(w, ty);
            spec_method_call_upto(w, krate, env, scope, chain, name, chain.len())
        },
        LookupMode::Path => spec_inherent_cands(w, ty, name, None) + spec_trait_cands(
            w,
            krate,
            env,
            scope,
            ty,
            name,
            None,
        ),
    }
}

/// Scans the defining crates' catalogs for inherent candidates at one self
/// type and appends them to `out`, in catalog order.
pub fn iterate_inherent_methods(
    self_ty: &Canonical,
    w: &World,
    name: Option<&String>,
    receiver_ty: Option<&Canonical>,
    krate: CrateId,
    out: &mut Vec<(Ty, AssocItemId)>,
)
    requires
        w.wf(),
        crate::db::ty_wf(*w, self_ty.value),
        self_ty.num_vars <= VAR_BOUND,
    ensures
        found_view(final(out)@) == found_view(old(out)@) + spec_inherent_cands(
            *w,
            self_ty@,
            opt_name_view(name),
            opt_recv_view(receiver_ty),
        ),
{
    let ghost namev = opt_name_view(name);
    let ghost recvv = opt_recv_view(receiver_ty);
    let ghost base = found_view(old(out)@);
    proof {
        lemma_def_crates_view(*w, self_ty.value);
    }
    let def_crates = match self_ty.value.def_crates(w, krate) {
        Some(k) => k,
        None => {
            proof {
                assert(base + Seq::<(TyV, AssocItemId)>::empty() =~= base);
            }
            return ;
        },
    };
    let crates = crate_list_items(&def_crates);
    let ghost spec_crates = spec_def_crates_v(*w, self_ty@.value)->0;
    let mut c: usize = 0;
    proof {
        assert(base + spec_crates_cands(*w, spec_crates.take(0), namev, recvv, self_ty@) =~= base);
    }
    while c < crates.len()
        invariant
            w.wf(),
            crate::db::ty_wf(*w, self_ty.value),
            self_ty.num_vars <= VAR_BOUND,
            c <= crates@.len(),
            namev == opt_name_view(name),
            recvv == opt_recv_view(receiver_ty),
            crates@.len() == spec_crates.len(),
            forall|i: int| 0 <= i < crates@.len() ==> crates@[i] == CrateId(spec_crates[i]),
            found_view(out@) == base + spec_crates_cands(
                *w,
                spec_crates.take(c as int),
                namev,
                recvv,
                self_ty@,
            ),
        decreases crates@.len() - c,
    {
        let impls = crate::index::CrateImplDefs::impls_in_crate(w, crates[c]);
        let bucket = impls.lookup_impl_defs(&self_ty.value);
        let ghost spec_bucket = match fingerprint_v(self_ty@.value) {
            Some(fp) => crate::index::crate_inherent_impls(*w, CrateId(spec_crates[c as int]), fp),
            None => Seq::<ImplId>::empty(),
        };
        proof {
            lemma_fingerprint_view(self_ty.value);
            assert(bucket@ == spec_bucket);
            match fingerprint_v(self_ty@.value) {
                Some(fp) => {
                    crate::index::lemma_crate_inherent_ids(
                        *w,
                        CrateId(spec_crates[c as int]),
                        fp,
                        w.impls@.len(),
                    );
                },
                None => {},
            }
        }
        let ghost base2 = found_view(out@);
        let mut j: usize = 0;
        proof {
            assert(base2 + spec_bucket_cands(*w, spec_bucket.take(0), namev, recvv, self_ty@)
                =~= base2);
        }
        while j < bucket.len()
            invariant
                w.wf(),
                self_ty.num_vars <= VAR_BOUND,
                j <= bucket@.len(),
                bucket@ == spec_bucket,
                namev == opt_name_view(name),
                recvv == opt_recv_view(receiver_ty),
                forall|i: int| 0 <= i < bucket@.len() ==> (#[trigger] bucket@[i]).0
                    < w.impls@.len(),
                found_view(out@) == base2 + spec_bucket_cands(
                    *w,
                    spec_bucket.take(j as int),
                    namev,
                    recvv,
                    self_ty@,
                ),
            decreases bucket@.len() - j,
        {
            let impl_id = bucket[j];
            let substs_ok: bool = match receiver_ty {
                Some(_) => true,
                None => inherent_impl_substs(w, impl_id, self_ty).is_some(),
            };
            let items = &w.impls[impl_id.0 as usize].items;
            let ghost base3 = found_view(out@);
            let mut k: usize = 0;
            proof {
                assert(base3 + spec_impl_item_cands(
                    *w,
                    impl_id,
                    items@.take(0),
                    namev,
                    recvv,
                    self_ty@,
                ) =~= base3);
            }
            while k < items.len()
                invariant
                    w.wf(),
                    self_ty.num_vars <= VAR_BOUND,
                    k <= items@.len(),
                    impl_id.0 < w.impls@.len(),
                    items@ == w.impls@[impl_id.0 as int].items@,
                    namev == opt_name_view(name),
                    recvv == opt_recv_view(receiver_ty),
                    substs_ok == (recvv is Some || spec_inherent_impl_substs(
                        *w,
                        impl_id,
                        self_ty@,
                    ) is Some),
                    found_view(out@) == base3 + spec_impl_item_cands(
                        *w,
                        impl_id,
                        items@.take(k as int),
                        namev,
                        recvv,
                        self_ty@,
                    ),
                decreases items@.len() - k,
            {
                let item = items[k];
                proof {
                    assert(crate::db::items_wf(*w, w.impls@[impl_id.0 as int].items@));
                    assert(items@[k as int] == item);
                }
                let ghost pre = out@;
                if is_valid_candidate(w, name, receiver_ty, item, self_ty) {
                    if substs_ok {
                        out.push((ty_clone(&self_ty.value), item));
                        proof {
                            assert(out@.drop_last() == pre);
                            lemma_found_view_push(pre, out@);
                        }
                    }
                }
                proof {
                    assert(items@.take(k as int + 1).drop_last() =~= items@.take(k as int));
                    assert(items@.take(k as int + 1).last() == items@[k as int]);
                }
                k = k + 1;
            }
            proof {
                assert(items@.take(items@.len() as int) =~= items@);
                assert(spec_bucket.take(j as int + 1).drop_last() =~= spec_bucket.take(j as int));
                assert(spec_bucket.take(j as int + 1).last() == spec_bucket[j as int]);
                assert(base2 + spec_bucket_cands(
                    *w,
                    spec_bucket.take(j as int),
                    namev,
                    recvv,
                    self_ty@,
                ) + spec_impl_item_cands(
                    *w,
                    impl_id,
                    items@,
                    namev,
                    recvv,
                    self_ty@,
                ) =~= base2 + (spec_bucket_cands(
                    *w,
                    spec_bucket.take(j as int),
                    namev,
                    recvv,
                    self_ty@,
                ) + spec_impl_item_cands(*w, impl_id, items@, namev, recvv, self_ty@)));
            }
            j = j + 1;
        }
        proof {
            assert(spec_bucket.take(spec_bucket.len() as int) =~= spec_bucket);
            assert(spec_crates.take(c as int + 1).drop_last() =~= spec_crates.take(c as int));
            assert(spec_crates.take(c as int + 1).last() == spec_crates[c as int]);
            assert(base + spec_crates_cands(
                *w,
                spec_crates.take(c as int),
                namev,
                recvv,
                self_ty@,
            ) + spec_bucket_cands(*w, spec_bucket, namev, recvv, self_ty@) =~= base + (
            spec_crates_cands(*w, spec_crates.take(c as int), namev, recvv, self_ty@)
                + spec_bucket_cands(*w, spec_bucket, namev, recvv, self_ty@)));
        }
        c = c + 1;
    }
    proof {
        assert(spec_crates.take(spec_crates.len() as int) =~= spec_crates);
    }
}

/// Each trait of a list together with all its supertraits, in order.
pub open spec fn expand_supers(w: World, ts: Seq<TraitId>) -> Seq<TraitId>
    decreases ts.len(),
{
    if ts.len() == 0 {
        Seq::empty()
    } else {
        let t = ts.last();
        expand_supers(w, ts.drop_last()) + seq![t] + w.traits@[t.0 as int].all_supers@
    }
}

/// The environment's traits for a self type are the matching predicates'
/// traits, each expanded by its supertraits.
proof fn lemma_env_traits_expand(w: World, preds: Seq<(Ty, TraitId)>, v: TyV)
    ensures
        spec_env_traits(w, preds, v) == expand_supers(
            w,
            TraitEnvironment::spec_predicates_for(preds, v),
        ),
    decreases preds.len(),
{
    if preds.len() > 0 {
        lemma_env_traits_expand(w, preds.drop_last(), v);
        let matched = TraitEnvironment::spec_predicates_for(preds, v);
        if ty_view(preds.last().0) == v {
            assert(matched == TraitEnvironment::spec_predicates_for(preds.drop_last(), v).push(
                preds.last().1,
            ));
            assert(matched.drop_last() =~= TraitEnvironment::spec_predicates_for(
                preds.drop_last(),
                v,
            ));
        }
    }
}

/// Scans the trait universe at one self type for trait candidates and
/// appends them to `out`: for each trait, its passing items, confirmed
/// against the oracle with one lazy query per trait — a rejection
/// suppresses the whole trait.
pub fn iterate_trait_method_candidates(
    self_ty: &Canonical,
    w: &World,
    env: &TraitEnvironment,
    krate: CrateId,
    traits_in_scope: &Vec<TraitId>,
    name: Option<&String>,
    receiver_ty: Option<&Canonical>,
    out: &mut Vec<(Ty, AssocItemId)>,
)
    requires
        w.wf(),
        crate::db::ty_wf(*w, self_ty.value),
        self_ty.num_vars <= VAR_BOUND,
        forall|i: int| 0 <= i < traits_in_scope@.len() ==> (#[trigger] traits_in_scope@[i]).0
            < w.traits@.len(),
        forall|i: int| 0 <= i < env.predicates@.len() ==> (#[trigger] env.predicates@[i]).1.0
            < w.traits@.len(),
    ensures
        found_view(final(out)@) == found_view(old(out)@) + spec_trait_cands(
            *w,
            krate,
            *env,
            traits_in_scope@,
            self_ty@,
            opt_name_view(name),
            opt_recv_view(receiver_ty),
        ),
{
    let ghost namev = opt_name_view(name);
    let ghost recvv = opt_recv_view(receiver_ty);
    let ghost base = found_view(old(out)@);
    let ghost universe = spec_trait_universe(*w, *env, traits_in_scope@, self_ty@);

    let mut traits: Vec<TraitId> = Vec::new();
    let ghost dyn_part = match self_ty@.value {
        TyV::Dyn(t) => seq![t] + w.traits@[t.0 as int].all_supers@,
        _ => Seq::<TraitId>::empty(),
    };
    match self_ty.value.dyn_trait() {
        Some(t) => {
            traits = crate::db::all_super_traits(w, t);
            proof {
                assert(traits@ == dyn_part);
            }
        },
        None => {
            proof {
                assert(traits@ =~= dyn_part);
            }
        },
    }
    let ghost env_part = if self_ty@.value is Placeholder {
        spec_env_traits(*w, env.predicates@, self_ty@.value)
    } else {
        Seq::<TraitId>::empty()
    };
    let is_placeholder = match &self_ty.value {
        Ty::Placeholder(_) => true,
        _ => false,
    };
    if is_placeholder {
        let matched = env.trait_predicates_for_self_ty(&self_ty.value);
        proof {
            lemma_env_traits_expand(*w, env.predicates@, self_ty@.value);
            lemma_predicates_valid(*w, env.predicates@, self_ty@.value);
            assert(traits@ + expand_supers(*w, matched@.take(0)) =~= traits@);
        }
        let ghost mid = traits@;
        let mut p: usize = 0;
        while p < matched.len()
            invariant
                w.wf(),
                p <= matched@.len(),
                forall|i: int| 0 <= i < matched@.len() ==> (#[trigger] matched@[i]).0
                    < w.traits@.len(),
                traits@ == mid + expand_supers(*w, matched@.take(p as int)),
            decreases matched@.len() - p,
        {
            let sup = crate::db::all_super_traits(w, matched[p]);
            let mut q: usize = 0;
            let ghost mid2 = traits@;
            while q < sup.len()
                invariant
                    q <= sup@.len(),
                    traits@ == mid2 + sup@.take(q as int),
                decreases sup@.len() - q,
            {
                traits.push(sup[q]);
                proof {
                    assert(sup@.take(q as int + 1) =~= sup@.take(q as int).push(sup@[q as int]));
                    assert(mid2 + sup@.take(q as int).push(sup@[q as int]) =~= (mid2 + sup@.take(
                        q as int,
                    )).push(sup@[q as int]));
                }
                q = q + 1;
            }
            proof {
                assert(sup@.take(sup@.len() as int) =~= sup@);
                assert(matched@.take(p as int + 1).drop_last() =~= matched@.take(p as int));
                assert(matched@.take(p as int + 1).last() == matched@[p as int]);
                assert(mid + expand_supers(*w, matched@.take(p as int)) + sup@ =~= mid + (
                expand_supers(*w, matched@.take(p as int)) + seq![matched@[p as int]]
                    + w.traits@[matched@[p as int].0 as int].all_supers@));
            }
            p = p + 1;
        }
        proof {
            assert(matched@.take(matched@.len() as int) =~= matched@);
            assert(traits@ == mid + env_part);
        }
    }
    proof {
        assert(traits@ =~= dyn_part + env_part);
    }
    let ghost mid3 = traits@;
    let mut s: usize = 0;
    while s < traits_in_scope.len()
        invariant
            s <= traits_in_scope@.len(),
            traits@ == mid3 + traits_in_scope@.take(s as int),
        decreases traits_in_scope@.len() - s,
    {
        traits.push(traits_in_scope[s]);
        proof {
            assert(traits_in_scope@.take(s as int + 1) =~= traits_in_scope@.take(s as int).push(
                traits_in_scope@[s as int],
            ));
            assert(mid3 + traits_in_scope@.take(s as int).push(traits_in_scope@[s as int]) =~= (
            mid3 + traits_in_scope@.take(s as int)).push(traits_in_scope@[s as int]));
        }
        s = s + 1;
    }
    proof {
        assert(traits_in_scope@.take(traits_in_scope@.len() as int) =~= traits_in_scope@);
        assert(traits@ =~= universe) by {
            assert(dyn_part + env_part + traits_in_scope@ =~= (dyn_part + env_part)
                + traits_in_scope@);
        }
        assert((self_ty@.value matches TyV::Dyn(t)) ==> (match self_ty@.value {
            TyV::Dyn(t2) => t2.0 < w.traits@.len(),
            _ => true,
        })) by {
            match self_ty.value {
                Ty::Dyn(tr) => {
                    assert(crate::db::ty_wf(*w, self_ty.value));
                },
                _ => {},
            }
        }
        lemma_universe_valid(*w, *env, traits_in_scope@, self_ty@);
        assert(base + spec_traits_cands(*w, krate, universe.take(0), namev, recvv, self_ty@)
            =~= base);
    }

    let mut ti: usize = 0;
    while ti < traits.len()
        invariant
            w.wf(),
            self_ty.num_vars <= VAR_BOUND,
            ti <= traits@.len(),
            traits@ == universe,
            namev == opt_name_view(name),
            recvv == opt_recv_view(receiver_ty),
            forall|i: int| 0 <= i < universe.len() ==> (#[trigger] universe[i]).0
                < w.traits@.len(),
            found_view(out@) == base + spec_traits_cands(
                *w,
                krate,
                universe.take(ti as int),
                namev,
                recvv,
                self_ty@,
            ),
        decreases traits@.len() - ti,
    {
        let t = traits[ti];
        let ghost solve = crate::db::spec_trait_solve(
            *w,
            krate,
            spec_implements_goal(*w, t, self_ty@),
        );
        let items = &w.traits[t.0 as usize].items;
        let ghost base4 = found_view(out@);
        let mut known_implemented = false;
        let mut rejected = false;
        let mut ii: usize = 0;
        proof {
            assert(spec_trait_item_cands(*w, items@.take(0), namev, recvv, self_ty@) =~= Seq::<
                (TyV, AssocItemId),
            >::empty());
        }
        while ii < items.len() && !rejected
            invariant
                w.wf(),
                self_ty.num_vars <= VAR_BOUND,
                ii <= items@.len(),
                t.0 < w.traits@.len(),
                items@ == w.traits@[t.0 as int].items@,
                namev == opt_name_view(name),
                recvv == opt_recv_view(receiver_ty),
                solve == crate::db::spec_trait_solve(
                    *w,
                    krate,
                    spec_implements_goal(*w, t, self_ty@),
                ),
                rejected ==> !solve && found_view(out@) == base4,
                !rejected && known_implemented ==> solve && found_view(out@) == base4
                    + spec_trait_item_cands(*w, items@.take(ii as int), namev, recvv, self_ty@),
                !rejected && !known_implemented ==> found_view(out@) == base4
                    && spec_trait_item_cands(*w, items@.take(ii as int), namev, recvv, self_ty@)
                    =~= Seq::<(TyV, AssocItemId)>::empty(),
            decreases items@.len() - ii,
        {
            let item = items[ii];
            proof {
                assert(crate::db::items_wf(*w, w.traits@[t.0 as int].items@));
                assert(items@[ii as int] == item);
            }
            let valid = is_valid_candidate(w, name, receiver_ty, item, self_ty);
            if valid {
                if !known_implemented {
                    let goal = generic_implements_goal(w, t, self_ty);
                    if trait_solve(w, krate, &goal) {
                        known_implemented = true;
                    } else {
                        rejected = true;
                    }
                }
                if !rejected {
                    let ghost pre = out@;
                    out.push((ty_clone(&self_ty.value), item));
                    proof {
                        assert(out@.drop_last() == pre);
                        lemma_found_view_push(pre, out@);
                    }
                }
            }
            proof {
                assert(items@.take(ii as int + 1).drop_last() =~= items@.take(ii as int));
                assert(items@.take(ii as int + 1).last() == items@[ii as int]);
            }
            ii = ii + 1;
        }
        proof {
            let cands = spec_one_trait_cands(*w, krate, t, namev, recvv, self_ty@);
            if rejected {
                assert(cands =~= Seq::<(TyV, AssocItemId)>::empty());
                assert(found_view(out@) =~= base4 + cands);
            } else {
                assert(items@.take(items@.len() as int) =~= items@);
                if known_implemented {
                    assert(found_view(out@) =~= base4 + cands);
                } else {
                    assert(spec_trait_item_cands(*w, items@, namev, recvv, self_ty@) =~= Seq::<
                        (TyV, AssocItemId),
                    >::empty());
                    assert(found_view(out@) =~= base4 + cands);
                }
            }
            assert(universe.take(ti as int + 1).drop_last() =~= universe.take(ti as int));
            assert(universe.take(ti as int + 1).last() == universe[ti as int]);
            assert(base + spec_traits_cands(
                *w,
                krate,
                universe.take(ti as int),
                namev,
                recvv,
                self_ty@,
            ) + cands =~= base + (spec_traits_cands(
                *w,
                krate,
                universe.take(ti as int),
                namev,
                recvv,
                self_ty@,
            ) + cands));
        }
        ti = ti + 1;
    }
    proof {
        assert(universe.take(universe.len() as int) =~= universe);
    }
}

/// Every trait a matching predicate names is an index into the store.
proof fn lemma_predicates_valid(w: World, preds: Seq<(Ty, TraitId)>, v: TyV)
    requires
        forall|i: int| 0 <= i < preds.len() ==> (#[trigger] preds[i]).1.0 < w.traits@.len(),
    ensures
        forall|i: int|
            0 <= i < TraitEnvironment::spec_predicates_for(preds, v).len()
                ==> (#[trigger] TraitEnvironment::spec_predicates_for(preds, v)[i]).0
                < w.traits@.len(),
    decreases preds.len(),
{
    if preds.len() > 0 {
        assert(forall|i: int|
            0 <= i < preds.drop_last().len() ==> (#[trigger] preds.drop_last()[i]) == preds[i]);
        lemma_predicates_valid(w, preds.drop_last(), v);
        let r = TraitEnvironment::spec_predicates_for(preds, v);
        let p = TraitEnvironment::spec_predicates_for(preds.drop_last(), v);
        assert forall|i: int| 0 <= i < r.len() implies (#[trigger] r[i]).0 < w.traits@.len() by {
            if ty_view(preds.last().0) == v {
                if i < p.len() {
                    assert(r[i] == p[i]);
                } else {
                    assert(r[i] == preds.last().1);
                }
            } else {
                assert(r[i] == p[i]);
            }
        }
    }
}

/// Every trait of the universe is an index into the store.
proof fn lemma_universe_valid(
    w: World,
    env: TraitEnvironment,
    scope: Seq<TraitId>,
    self_ty: CanonicalV,
)
    requires
        w.wf(),
        forall|i: int| 0 <= i < scope.len() ==> (#[trigger] scope[i]).0 < w.traits@.len(),
        forall|i: int| 0 <= i < env.predicates@.len() ==> (#[trigger] env.predicates@[i]).1.0
            < w.traits@.len(),
        (self_ty.value matches TyV::Dyn(t) ==> t.0 < w.traits@.len()),
    ensures
        forall|i: int|
            0 <= i < spec_trait_universe(w, env, scope, self_ty).len()
                ==> (#[trigger] spec_trait_universe(w, env, scope, self_ty)[i]).0
                < w.traits@.len(),
{
    lemma_env_traits_valid(w, env.predicates@, self_ty.value);
}

/// Every trait the environment brings in is an index into the store.
proof fn lemma_env_traits_valid(w: World, preds: Seq<(Ty, TraitId)>, v: TyV)
    requires
        w.wf(),
        forall|i: int| 0 <= i < preds.len() ==> (#[trigger] preds[i]).1.0 < w.traits@.len(),
    ensures
        forall|i: int| 0 <= i < spec_env_traits(w, preds, v).len()
            ==> (#[trigger] spec_env_traits(w, preds, v)[i]).0 < w.traits@.len(),
    decreases preds.len(),
{
    if preds.len() > 0 {
        assert(forall|i: int|
            0 <= i < preds.drop_last().len() ==> (#[trigger] preds.drop_last()[i]) == preds[i]);
        lemma_env_traits_valid(w, preds.drop_last(), v);
        let r = spec_env_traits(w, preds, v);
        let p = spec_env_traits(w, preds.drop_last(), v);
        assert forall|i: int| 0 <= i < r.len() implies (#[trigger] r[i]).0 < w.traits@.len() by {
            if ty_view(preds.last().0) == v {
                let t = preds.last().1;
                if i < p.len() {
                    assert(r[i] == p[i]);
                } else if i == p.len() {
                    assert(r[i] == t);
                } else {
                    assert(r[i] == w.traits@[t.0 as int].all_supers@[i - p.len() - 1]);
                }
            } else {
                assert(r[i] == p[i]);
            }
        }
    }
}

/// Validity of the caller-supplied query context: every trait in scope and
/// every trait the environment names is an index into the store.
pub open spec fn query_wf(w: World, env: TraitEnvironment, scope: Seq<TraitId>) -> bool {
    &&& forall|i: int| 0 <= i < scope.len() ==> (#[trigger] scope[i]).0 < w.traits@.len()
    &&& forall|i: int| 0 <= i < env.predicates@.len() ==> (#[trigger] env.predicates@[i]).1.0
        < w.traits@.len()
}

/// Validity of a walk of self types: every entry well-formed, with a hole
/// count under the variable bound.
pub open spec fn walk_wf(w: World, walk: Seq<Canonical>) -> bool {
    forall|i: int| 0 <= i < walk.len() ==> (crate::db::ty_wf(w, (#[trigger] walk[i]).value)
        && walk[i].num_vars <= VAR_BOUND)
}

/// Scans a walk of self types for candidates whose receiver is
/// `receiver_ty`: every self type for inherent candidates first, then every
/// self type for trait candidates.
fn iterate_method_candidates_by_receiver(
    receiver_ty: &Canonical,
    walk: &Vec<Canonical>,
    w: &World,
    env: &TraitEnvironment,
    krate: CrateId,
    traits_in_scope: &Vec<TraitId>,
    name: Option<&String>,
    out: &mut Vec<(Ty, AssocItemId)>,
)
    requires
        w.wf(),
        walk_wf(*w, walk@),
        query_wf(*w, *env, traits_in_scope@),
    ensures
        found_view(final(out)@) == found_view(old(out)@) + spec_by_receiver(
            *w,
            krate,
            *env,
            traits_in_scope@,
            receiver_ty@,
            cans_view(walk@),
            opt_name_view(name),
        ),
{
    let ghost namev = opt_name_view(name);
    let ghost base = found_view(old(out)@);
    let ghost wv = cans_view(walk@);
    proof {
        crate::autoderef::lemma_cans_view_len(walk@);
        assert(base + spec_walk_inherent(*w, wv.take(0), namev, Some(receiver_ty@)) =~= base);
    }
    let mut i: usize = 0;
    while i < walk.len()
        invariant
            w.wf(),
            walk_wf(*w, walk@),
            i <= walk@.len(),
            wv == cans_view(walk@),
            wv.len() == walk@.len(),
            namev == opt_name_view(name),
            found_view(out@) == base + spec_walk_inherent(
                *w,
                wv.take(i as int),
                namev,
                Some(receiver_ty@),
            ),
        decreases walk@.len() - i,
    {
        iterate_inherent_methods(&walk[i], w, name, Some(receiver_ty), krate, out);
        proof {
            crate::autoderef::lemma_cans_view_index(walk@, i as int);
            assert(wv.take(i as int + 1).drop_last() =~= wv.take(i as int));
            assert(wv.take(i as int + 1).last() == wv[i as int]);
            assert(base + spec_walk_inherent(*w, wv.take(i as int), namev, Some(receiver_ty@))
                + spec_inherent_cands(*w, wv[i as int], namev, Some(receiver_ty@)) =~= base + (
            spec_walk_inherent(*w, wv.take(i as int), namev, Some(receiver_ty@))
                + spec_inherent_cands(*w, wv[i as int], namev, Some(receiver_ty@))));
        }
        i = i + 1;
    }
    let ghost mid = found_view(out@);
    proof {
        assert(wv.take(wv.len() as int) =~= wv);
        assert(mid + spec_walk_traits(
            *w,
            krate,
            *env,
            traits_in_scope@,
            wv.take(0),
            namev,
            Some(receiver_ty@),
        ) =~= mid);
    }
    let mut j: usize = 0;
    while j < walk.len()
        invariant
            w.wf(),
            walk_wf(*w, walk@),
            query_wf(*w, *env, traits_in_scope@),
            j <= walk@.len(),
            wv == cans_view(walk@),
            wv.len() == walk@.len(),
            namev == opt_name_view(name),
            found_view(out@) == mid + spec_walk_traits(
                *w,
                krate,
                *env,
                traits_in_scope@,
                wv.take(j as int),
                namev,
                Some(receiver_ty@),
            ),
        decreases walk@.len() - j,
    {
        iterate_trait_method_candidates(
            &walk[j],
            w,
            env,
            krate,
            traits_in_scope,
            name,
            Some(receiver_ty),
            out,
        );
        proof {
            crate::autoderef::lemma_cans_view_index(walk@, j as int);
            assert(wv.take(j as int + 1).drop_last() =~= wv.take(j as int));
            assert(wv.take(j as int + 1).last() == wv[j as int]);
            assert(mid + spec_walk_traits(
                *w,
                krate,
                *env,
                traits_in_scope@,
                wv.take(j as int),
                namev,
                Some(receiver_ty@),
            ) + spec_trait_cands(
                *w,
                krate,
                *env,
                traits_in_scope@,
                wv[j as int],
                namev,
                Some(receiver_ty@),
            ) =~= mid + (spec_walk_traits(
                *w,
                krate,
                *env,
                traits_in_scope@,
                wv.take(j as int),
                namev,
                Some(receiver_ty@),
            ) + spec_trait_cands(
                *w,
                krate,
                *env,
                traits_in_scope@,
                wv[j as int],
                namev,
                Some(receiver_ty@),
            )));
        }
        j = j + 1;
    }
    proof {
        assert(wv.take(wv.len() as int) =~= wv);
        assert(found_view(out@) =~= base + (spec_walk_inherent(*w, wv, namev, Some(receiver_ty@))
            + spec_walk_traits(
            *w,
            krate,
            *env,
            traits_in_scope@,
            wv,
            namev,
            Some(receiver_ty@),
        )));
    }
}

/// Scans one deref level: the receiver by value, behind a shared reference,
/// then behind a mutable reference.
fn iterate_method_candidates_with_autoref(
    suffix: &Vec<Canonical>,
    w: &World,
    env: &TraitEnvironment,
    krate: CrateId,
    traits_in_scope: &Vec<TraitId>,
    name: Option<&String>,
    out: &mut Vec<(Ty, AssocItemId)>,
)
    requires
        w.wf(),
        suffix@.len() >= 1,
        walk_wf(*w, suffix@),
        query_wf(*w, *env, traits_in_scope@),
    ensures
        found_view(final(out)@) == found_view(old(out)@) + spec_with_autoref(
            *w,
            krate,
            *env,
            traits_in_scope@,
            cans_view(suffix@),
            opt_name_view(name),
        ),
{
    let ghost namev = opt_name_view(name);
    let ghost sv = cans_view(suffix@);
    proof {
        crate::autoderef::lemma_cans_view_index(suffix@, 0);
    }
    iterate_method_candidates_by_receiver(
        &suffix[0],
        suffix,
        w,
        env,
        krate,
        traits_in_scope,
        name,
        out,
    );
    let refed = Canonical {
        num_vars: suffix[0].num_vars,
        value: Ty::apply_one(TypeCtor::Ref(crate::ty::Mutability::Shared), ty_clone(
            &suffix[0].value,
        )),
    };
    proof {
        assert(refed@ == ref_canonical(crate::ty::Mutability::Shared, sv[0]));
        assert(crate::db::ty_wf(*w, refed.value)) by {
            assert(crate::db::tys_wf_v(*w, seq![sv[0].value])) by {
                assert(seq![sv[0].value][0] == sv[0].value);
                assert(crate::db::ty_wf_v(*w, sv[0].value));
            }
        }
    }
    let walk2 = prepend_walk(&refed, suffix);
    proof {
        assert forall|i: int| 0 <= i < walk2@.len() implies (crate::db::ty_wf(
            *w,
            (#[trigger] walk2@[i]).value,
        ) && walk2@[i].num_vars <= VAR_BOUND) by {
            if i == 0 {
                assert(walk2@[0]@ == refed@);
            } else {
                assert(walk2@[i]@ == suffix@[i - 1]@);
                assert(crate::db::ty_wf(*w, suffix@[i - 1].value));
            }
        }
    }
    iterate_method_candidates_by_receiver(
        &refed,
        &walk2,
        w,
        env,
        krate,
        traits_in_scope,
        name,
        out,
    );
    let ref_muted = Canonical {
        num_vars: suffix[0].num_vars,
        value: Ty::apply_one(TypeCtor::Ref(crate::ty::Mutability::Mut), ty_clone(
            &suffix[0].value,
        )),
    };
    proof {
        assert(ref_muted@ == ref_canonical(crate::ty::Mutability::Mut, sv[0]));
        assert(crate::db::ty_wf(*w, ref_muted.value)) by {
            assert(crate::db::tys_wf_v(*w, seq![sv[0].value])) by {
                assert(seq![sv[0].value][0] == sv[0].value);
                assert(crate::db::ty_wf_v(*w, sv[0].value));
            }
        }
    }
    let walk3 = prepend_walk(&ref_muted, suffix);
    proof {
        assert forall|i: int| 0 <= i < walk3@.len() implies (crate::db::ty_wf(
            *w,
            (#[trigger] walk3@[i]).value,
        ) && walk3@[i].num_vars <= VAR_BOUND) by {
            if i == 0 {
                assert(walk3@[0]@ == ref_muted@);
            } else {
                assert(walk3@[i]@ == suffix@[i - 1]@);
                assert(crate::db::ty_wf(*w, suffix@[i - 1].value));
            }
        }
    }
    iterate_method_candidates_by_receiver(
        &ref_muted,
        &walk3,
        w,
        env,
        krate,
        traits_in_scope,
        name,
        out,
    );
    proof {
        let a = spec_by_receiver(*w, krate, *env, traits_in_scope@, sv[0], sv, namev);
        let b = spec_by_receiver(
            *w,
            krate,
            *env,
            traits_in_scope@,
            refed@,
            seq![refed@] + sv,
            namev,
        );
        let c2 = spec_by_receiver(
            *w,
            krate,
            *env,
            traits_in_scope@,
            ref_muted@,
            seq![ref_muted@] + sv,
            namev,
        );
        assert(found_view(out@) =~= found_view(old(out)@) + (a + b + c2));
    }
}

/// A walk that starts at `first` and continues with a copy of `rest`.
fn prepend_walk(first: &Canonical, rest: &Vec<Canonical>) -> (r: Vec<Canonical>)
    ensures
        cans_view(r@) == seq![first@] + cans_view(rest@),
        r@.len() == rest@.len() + 1,
        (#[trigger] r@[0])@ == first@ && r@[0].num_vars == first.num_vars,
        forall|i: int| 1 <= i < r@.len() ==> ((#[trigger] r@[i])@ == rest@[i - 1]@ && r@[i].num_vars
            == rest@[i - 1].num_vars),
{
    let mut r: Vec<Canonical> = Vec::new();
    r.push(first.clone());
    let mut i: usize = 0;
    while i < rest.len()
        invariant
            i <= rest@.len(),
            r@.len() == i + 1,
            r@[0]@ == first@,
            r@[0].num_vars == first.num_vars,
            forall|j: int| 1 <= j < r@.len() ==> ((#[trigger] r@[j])@ == rest@[j - 1]@
                && r@[j].num_vars == rest@[j - 1].num_vars),
        decreases rest@.len() - i,
    {
        r.push(rest[i].clone());
        i = i + 1;
    }
    proof {
        crate::autoderef::lemma_cans_view_len(r@);
        crate::autoderef::lemma_cans_view_len(rest@);
        assert forall|k: int| 0 <= k < r@.len() implies cans_view(r@)[k] == (seq![first@]
            + cans_view(rest@))[k] by {
            crate::autoderef::lemma_cans_view_index(r@, k);
            if k >= 1 {
                crate::autoderef::lemma_cans_view_index(rest@, k - 1);
            }
        }
        assert(cans_view(r@) =~= seq![first@] + cans_view(rest@));
    }
    r
}

/// Path-mode lookup at one self type: no autoderef, no receiver shape —
/// all inherent candidates first, then all trait candidates.
fn iterate_method_candidates_for_self_ty(
    self_ty: &Canonical,
    w: &World,
    env: &TraitEnvironment,
    krate: CrateId,
    traits_in_scope: &Vec<TraitId>,
    name: Option<&String>,
    out: &mut Vec<(Ty, AssocItemId)>,
)
    requires
        w.wf(),
        crate::db::ty_wf(*w, self_ty.value),
        self_ty.num_vars <= VAR_BOUND,
        query_wf(*w, *env, traits_in_scope@),
    ensures
        found_view(final(out)@) == found_view(old(out)@) + (spec_inherent_cands(
            *w,
            self_ty@,
            opt_name_view(name),
            None,
        ) + spec_trait_cands(
            *w,
            krate,
            *env,
            traits_in_scope@,
            self_ty@,
            opt_name_view(name),
            None,
        )),
{
    iterate_inherent_methods(self_ty, w, name, None, krate, out);
    iterate_trait_method_candidates(self_ty, w, env, krate, traits_in_scope, name, None, out);
    proof {
        assert(found_view(out@) =~= found_view(old(out)@) + (spec_inherent_cands(
            *w,
            self_ty@,
            opt_name_view(name),
            None,
        ) + spec_trait_cands(
            *w,
            krate,
            *env,
            traits_in_scope@,
            self_ty@,
            opt_name_view(name),
            None,
        )));
    }
}

/// Enumerates every candidate the search yields for `ty`, in yield order —
/// the full stream a callback-driven search would see when never stopped
/// early. A caller wanting only the first match takes the stream's head.
pub fn iterate_method_candidates(
    ty: &Canonical,
    w: &World,
    env: &TraitEnvironment,
    krate: CrateId,
    traits_in_scope: &Vec<TraitId>,
    name: Option<&String>,
    mode: LookupMode,
) -> (r: Vec<(Ty, AssocItemId)>)
    requires
        w.wf(),
        crate::db::ty_wf(*w, ty.value),
        ty.num_vars <= VAR_BOUND,
        query_wf(*w, *env, traits_in_scope@),
    ensures
        found_view(r@) == spec_candidates(
            *w,
            ty@,
            *env,
            krate,
            traits_in_scope@,
            opt_name_view(name),
            mode,
        ),
{
    let mut out: Vec<(Ty, AssocItemId)> = Vec::new();
    match mode {
        LookupMode::MethodCall => {
            let ghost namev = opt_name_view(name);
            let chain = autoderef_method_receiver(w, ty);
            let ghost chv = spec_method_receiver_chain(*w, ty@);
            proof {
                crate::autoderef::lemma_cans_view_len(chain@);
                crate::autoderef::lemma_method_chain_wf(*w, ty@);
                assert forall|k: int| 0 <= k < chain@.len() implies (crate::db::ty_wf(
                    *w,
                    (#[trigger] chain@[k]).value,
                ) && chain@[k].num_vars <= VAR_BOUND) by {
                    crate::autoderef::lemma_cans_view_index(chain@, k);
                    assert(chv[k] == chain@[k]@);
                    assert(crate::db::ty_wf_v(*w, chv[k].value));
                    assert(chv[k].num_vars == ty@.num_vars);
                }
            }
            let mut i: usize = 0;
            proof {
                assert(found_view(out@) =~= spec_method_call_upto(
                    *w,
                    krate,
                    *env,
                    traits_in_scope@,
                    chv,
                    namev,
                    0,
                ));
            }
            while i < chain.len()
                invariant
                    w.wf(),
                    query_wf(*w, *env, traits_in_scope@),
                    i <= chain@.len(),
                    chv == cans_view(chain@),
                    chv.len() == chain@.len(),
                    namev == opt_name_view(name),
                    forall|k: int| 0 <= k < chain@.len() ==> (crate::db::ty_wf(
                        *w,
                        (#[trigger] chain@[k]).value,
                    ) && chain@[k].num_vars <= VAR_BOUND),
                    found_view(out@) == spec_method_call_upto(
                        *w,
                        krate,
                        *env,
                        traits_in_scope@,
                        chv,
                        namev,
                        i as nat,
                    ),
                decreases chain@.len() - i,
            {
                let mut suffix: Vec<Canonical> = Vec::new();
                let mut k: usize = i;
                while k < chain.len()
                    invariant
                        i <= k <= chain@.len(),
                        suffix@.len() == k - i,
                        forall|m: int| 0 <= m < suffix@.len() ==> ((#[trigger] suffix@[m])@
                            == chain@[i + m]@ && suffix@[m].num_vars == chain@[i + m].num_vars),
                    decreases chain@.len() - k,
                {
                    suffix.push(chain[k].clone());
                    k = k + 1;
                }
                proof {
                    crate::autoderef::lemma_cans_view_len(suffix@);
                    assert forall|m: int| 0 <= m < suffix@.len() implies cans_view(suffix@)[m]
                        == chv.skip(i as int)[m] by {
                        crate::autoderef::lemma_cans_view_index(suffix@, m);
                        crate::autoderef::lemma_cans_view_index(chain@, i + m);
                    }
                    assert(cans_view(suffix@) =~= chv.skip(i as int));
                    assert forall|m: int| 0 <= m < suffix@.len() implies (crate::db::ty_wf(
                        *w,
                        (#[trigger] suffix@[m]).value,
                    ) && suffix@[m].num_vars <= VAR_BOUND) by {
                        assert(crate::db::ty_wf(*w, chain@[i + m].value));
                        assert(crate::db::ty_wf(*w, suffix@[m].value)) by {
                            assert(suffix@[m]@ == chain@[i + m]@);
                        }
                    }
                }
                iterate_method_candidates_with_autoref(
                    &suffix,
                    w,
                    env,
                    krate,
                    traits_in_scope,
                    name,
                    &mut out,
                );
                i = i + 1;
            }
            proof {
                assert(chv.len() == chain@.len());
            }
        },
        LookupMode::Path => {
            iterate_method_candidates_for_self_ty(
                ty,
                w,
                env,
                krate,
                traits_in_scope,
                name,
                &mut out,
            );
            proof {
                assert(found_view(out@) =~= Seq::<(TyV, AssocItemId)>::empty() + found_view(out@));
            }
        },
    }
    out
}

/// The first function among the yielded candidates, with its self type.
pub open spec fn spec_first_function(s: Seq<(TyV, AssocItemId)>) -> Option<(TyV, FunctionId)>
    decreases s.len(),
{
    if s.len() == 0 {
        None
    } else {
        match s[0].1 {
            AssocItemId::FunctionId(f) => Some((s[0].0, f)),
            _ => spec_first_function(s.drop_first()),
        }
    }
}

/// Looks the method with the given name up on `ty`: the first function the
/// method-call search yields, together with the autoderefed receiver type it
/// was found at (without the autoref applied).
pub fn lookup_method(
    ty: &Canonical,
    w: &World,
    env: &TraitEnvironment,
    krate: CrateId,
    traits_in_scope: &Vec<TraitId>,
    name: &String,
) -> (r: Option<(Ty, FunctionId)>)
    requires
        w.wf(),
        crate::db::ty_wf(*w, ty.value),
        ty.num_vars <= VAR_BOUND,
        query_wf(*w, *env, traits_in_scope@),
    ensures
        ({
            let ff = spec_first_function(
                spec_candidates(
                    *w,
                    ty@,
                    *env,
                    krate,
                    traits_in_scope@,
                    Some(name@),
                    LookupMode::MethodCall,
                ),
            );
            &&& (r is Some <==> ff is Some)
            &&& (r is Some ==> ((r->0).0@, (r->0).1) == ff->0)
        }),
{
    let cands = iterate_method_candidates(
        ty,
        w,
        env,
        krate,
        traits_in_scope,
        Some(name),
        LookupMode::MethodCall,
    );
    let ghost cv = found_view(cands@);
    let mut i: usize = 0;
    proof {
        crate::autoderef::lemma_cans_view_len(Seq::empty());
        lemma_found_view_len(cands@);
        assert(cv.skip(0) =~= cv);
    }
    while i < cands.len()
        invariant
            i <= cands@.len(),
            cv == found_view(cands@),
            cv == spec_candidates(
                *w,
                ty@,
                *env,
                krate,
                traits_in_scope@,
                Some(name@),
                LookupMode::MethodCall,
            ),
            cv.len() == cands@.len(),
            spec_first_function(cv.skip(i as int)) == spec_first_function(cv),
        decreases cands@.len() - i,
    {
        proof {
            lemma_found_view_index(cands@, i as int);
            assert(cv.skip(i as int)[0] == cv[i as int]);
            assert(cv.skip(i as int).drop_first() =~= cv.skip(i as int + 1));
        }
        match cands[i].1 {
            AssocItemId::FunctionId(f) => {
                proof {
                    assert(cv.skip(i as int)[0].1 == AssocItemId::FunctionId(f));
                    assert(spec_first_function(cv.skip(i as int)) == Some(
                        (cv[i as int].0, f),
                    ));
                }
                return Some((ty_clone(&cands[i].0), f));
            },
            _ => {},
        }
        i = i + 1;
    }
    proof {
        assert(cv.skip(i as int).len() == 0);
    }
    None
}

/// The first chain entry the oracle confirms for the index trait.
pub open spec fn spec_resolve_indexing(
    w: World,
    krate: CrateId,
    chain: Seq<CanonicalV>,
    index_trait: TraitId,
) -> Option<CanonicalV>
    decreases chain.len(),
{
    if chain.len() == 0 {
        None
    } else if crate::db::spec_trait_solve(
        w,
        krate,
        spec_implements_goal(w, index_trait, chain[0]),
    ) {
        Some(chain[0])
    } else {
        spec_resolve_indexing(w, krate, chain.drop_first(), index_trait)
    }
}

/// Returns the self type for the index-operator call: the first (shallowest)
/// entry of the receiver's deref chain that the oracle confirms to satisfy
/// the index trait — a pure satisfiability probe per chain entry, with no
/// autoref and no candidate enumeration.
pub fn resolve_indexing_op(
    w: &World,
    ty: &Canonical,
    krate: CrateId,
    index_trait: TraitId,
) -> (r: Option<Canonical>)
    requires
        w.wf(),
        crate::db::ty_wf(*w, ty.value),
        ty.num_vars <= VAR_BOUND,
        index_trait.0 < w.traits@.len(),
    ensures
        ({
            let s = spec_resolve_indexing(
                *w,
                krate,
                spec_method_receiver_chain(*w, ty@),
                index_trait,
            );
            &&& (r is Some <==> s is Some)
            &&& (r is Some ==> r->0@ == s->0)
        }),
{
    let chain = autoderef_method_receiver(w, ty);
    let ghost chv = spec_method_receiver_chain(*w, ty@);
    proof {
        crate::autoderef::lemma_cans_view_len(chain@);
        crate::autoderef::lemma_method_chain_wf(*w, ty@);
        assert(chv.skip(0) =~= chv);
    }
    let mut i: usize = 0;
    while i < chain.len()
        invariant
            w.wf(),
            index_trait.0 < w.traits@.len(),
            i <= chain@.len(),
            chv == cans_view(chain@),
            chv == spec_method_receiver_chain(*w, ty@),
            chv.len() == chain@.len(),
            forall|k: int| 0 <= k < chv.len() ==> (crate::db::ty_wf_v(
                *w,
                (#[trigger] chv[k]).value,
            ) && chv[k].num_vars == ty@.num_vars),
            ty.num_vars <= VAR_BOUND,
            spec_resolve_indexing(*w, krate, chv.skip(i as int), index_trait)
                == spec_resolve_indexing(*w, krate, chv, index_trait),
        decreases chain@.len() - i,
    {
        proof {
            crate::autoderef::lemma_cans_view_index(chain@, i as int);
            assert(chv.skip(i as int)[0] == chv[i as int]);
            assert(chv.skip(i as int).drop_first() =~= chv.skip(i as int + 1));
        }
        let goal = generic_implements_goal(w, index_trait, &chain[i]);
        if trait_solve(w, krate, &goal) {
            proof {
                assert(chain@[i as int]@ == chv[i as int]);
                assert(spec_resolve_indexing(*w, krate, chv.skip(i as int), index_trait) == Some(
                    chv[i as int],
                ));
            }
            return Some(chain[i].clone());
        }
        i = i + 1;
    }
    proof {
        assert(chv.skip(i as int).len() == 0);
    }
    None
}

} // verus!
