//! Method-resolution scenarios: worlds built by hand, lookups checked
//! against what the language prescribes.

use method_resolution::db::{
    ConstData, CrateData, DerefStep, FunctionData, Goal, ImplData, LangItemTarget, LangKey,
    OracleEntry, TraitData, TraitEnvironment, World,
};
use method_resolution::ids::{
    AssocContainerId, AssocItemId, ConstId, CrateId, FunctionId, ImplId, TraitId,
};
use method_resolution::index::CrateImplDefs;
use method_resolution::search::{
    implements_trait, iterate_method_candidates, lookup_method, resolve_indexing_op, LookupMode,
};
use method_resolution::ty::{
    ApplicationTy, Canonical, IntTy, Mutability, Substs, Ty, TyFingerprint, TypeCtor,
};

fn empty_world() -> World {
    World {
        crates: Vec::new(),
        adts: Vec::new(),
        impls: Vec::new(),
        traits: Vec::new(),
        functions: Vec::new(),
        consts: Vec::new(),
        lang_items: Vec::new(),
        deref_steps: Vec::new(),
        oracle: Vec::new(),
    }
}

fn apply(ctor: TypeCtor, params: Vec<Ty>) -> Ty {
    Ty::Apply(ApplicationTy { ctor, parameters: Substs(params) })
}

fn adt(n: u32) -> Ty {
    apply(TypeCtor::Adt(method_resolution::ids::AdtId(n)), Vec::new())
}

fn adt1(n: u32, p: Ty) -> Ty {
    apply(TypeCtor::Adt(method_resolution::ids::AdtId(n)), vec![p])
}

fn int_ty(t: IntTy) -> Ty {
    apply(TypeCtor::Int(t), Vec::new())
}

fn unit() -> Ty {
    apply(TypeCtor::Tuple { cardinality: 0 }, Vec::new())
}

fn shared_ref(t: Ty) -> Ty {
    apply(TypeCtor::Ref(Mutability::Shared), vec![t])
}

fn can(t: Ty) -> Canonical {
    Canonical { num_vars: 0, value: t }
}

fn env() -> TraitEnvironment {
    TraitEnvironment { predicates: Vec::new() }
}

fn method(name: &str, container: AssocContainerId, self_param: Ty, ret: Ty) -> FunctionData {
    FunctionData {
        name: name.to_string(),
        has_self_param: true,
        container,
        params: vec![self_param],
        ret,
    }
}

fn oracle_fact(w: &World, krate: u32, trait_: u32, self_ty: Ty) -> OracleEntry {
    let ntp = w.traits[trait_ as usize].num_type_params as usize;
    OracleEntry {
        krate: CrateId(krate),
        goal: Goal {
            num_vars: ntp - 1,
            trait_: TraitId(trait_),
            substs: Substs(
                std::iter::once(self_ty)
                    .chain((0..ntp - 1).map(|j| Ty::Bound(j as u32)))
                    .collect(),
            ),
        },
    }
}

fn render(adt_names: &[&str], t: &Ty) -> String {
    match t {
        Ty::Apply(a) => {
            let params: Vec<String> =
                a.parameters.0.iter().map(|p| render(adt_names, p)).collect();
            match a.ctor {
                TypeCtor::Adt(id) => {
                    let base = adt_names[id.0 as usize];
                    if params.is_empty() {
                        base.to_string()
                    } else {
                        format!("{}<{}>", base, params.join(", "))
                    }
                }
                TypeCtor::Bool => "bool".to_string(),
                TypeCtor::Char => "char".to_string(),
                TypeCtor::Int(IntTy::I32) => "i32".to_string(),
                TypeCtor::Int(IntTy::U128) => "u128".to_string(),
                TypeCtor::Int(IntTy::Usize) => "usize".to_string(),
                TypeCtor::Int(_) => "int".to_string(),
                TypeCtor::Str => "str".to_string(),
                TypeCtor::Slice => format!("[{}]", params.join(", ")),
                TypeCtor::Ref(Mutability::Shared) => format!("&{}", params.join(", ")),
                TypeCtor::Ref(Mutability::Mut) => format!("&mut {}", params.join(", ")),
                TypeCtor::Tuple { .. } => format!("({})", params.join(", ")),
                _ => "?".to_string(),
            }
        }
        Ty::Unknown => "{unknown}".to_string(),
        _ => "?".to_string(),
    }
}

/// The rendered return type of the method `name` resolves to on `receiver`,
/// from `krate`, or `{unknown}` when nothing resolves — the shape the
/// inference tests inspect.
fn type_of_call(
    w: &World,
    adt_names: &[&str],
    krate: u32,
    scope: &Vec<TraitId>,
    receiver: Ty,
    name: &str,
) -> String {
    match lookup_method(&can(receiver.clone()), w, &env(), CrateId(krate), scope, &name.to_string())
    {
        Some((found_self, f)) => {
            let data = &w.functions[f.0 as usize];
            let ret = match data.container {
                AssocContainerId::TraitId(_) => method_resolution::ty::subst_bound_vars(
                    &data.ret,
                    &Substs(vec![found_self]),
                ),
                AssocContainerId::ImplId(_) => data.ret.clone(),
            };
            render(adt_names, &ret)
        }
        None => "{unknown}".to_string(),
    }
}

#[test]
fn cfg_impl_def() {
    // Two crates; in each, one impl of the two survives its cfg flag.
    let mut w = empty_world();
    w.crates = vec![
        CrateData { dependencies: vec![] },
        CrateData { dependencies: vec![CrateId(0)] },
    ];
    w.adts = vec![CrateId(1), CrateId(0)]; // S in main, S in foo
    w.functions = vec![
        method("foo1", AssocContainerId::ImplId(ImplId(0)), shared_ref(adt(0)), int_ty(IntTy::I32)),
        method("foo3", AssocContainerId::ImplId(ImplId(1)), shared_ref(adt(1)), int_ty(IntTy::I32)),
    ];
    w.impls = vec![
        ImplData {
            krate: CrateId(1),
            self_ty: adt(0),
            trait_: None,
            items: vec![AssocItemId::FunctionId(FunctionId(0))],
            num_type_params: 0,
        },
        ImplData {
            krate: CrateId(0),
            self_ty: adt(1),
            trait_: None,
            items: vec![AssocItemId::FunctionId(FunctionId(1))],
            num_type_params: 0,
        },
    ];
    let names = ["S", "S"];
    let scope = Vec::new();
    let t = format!(
        "({}, {}, {}, {})",
        type_of_call(&w, &names, 1, &scope, adt(0), "foo1"),
        type_of_call(&w, &names, 1, &scope, adt(0), "foo2"),
        type_of_call(&w, &names, 1, &scope, adt(1), "foo3"),
        type_of_call(&w, &names, 1, &scope, adt(1), "foo4"),
    );
    assert_eq!("(i32, {unknown}, i32, {unknown})", t);
}

/// A world with one crate, one struct `S`, one trait with one method that
/// returns `u128`, and an impl of that trait for `S`.
fn trait_method_world() -> World {
    let mut w = empty_world();
    w.crates = vec![CrateData { dependencies: vec![] }];
    w.adts = vec![CrateId(0)];
    w.traits = vec![TraitData {
        items: vec![AssocItemId::FunctionId(FunctionId(0))],
        all_supers: vec![],
        num_type_params: 1,
    }];
    w.functions = vec![method(
        "foo",
        AssocContainerId::TraitId(TraitId(0)),
        Ty::Bound(0),
        int_ty(IntTy::U128),
    )];
    w.impls = vec![ImplData {
        krate: CrateId(0),
        self_ty: adt(0),
        trait_: Some(TraitId(0)),
        items: vec![AssocItemId::FunctionId(FunctionId(0))],
        num_type_params: 0,
    }];
    let fact = oracle_fact(&w, 0, 0, adt(0));
    w.oracle.push(fact);
    w
}

#[test]
fn processes_impls_generated_by_macros() {
    // A macro-generated `impl Trait for S`: the trait method resolves on `S`.
    let w = trait_method_world();
    let scope = vec![TraitId(0)];
    let t = type_of_call(&w, &["S"], 0, &scope, adt(0), "foo");
    assert_eq!(t, "u128");
}

/// A world with one crate, one struct `S`, and one inherent `&self` method
/// `foo` returning `u128`.
fn inherent_method_world() -> World {
    let mut w = empty_world();
    w.crates = vec![CrateData { dependencies: vec![] }];
    w.adts = vec![CrateId(0)];
    w.functions = vec![method(
        "foo",
        AssocContainerId::ImplId(ImplId(0)),
        shared_ref(adt(0)),
        int_ty(IntTy::U128),
    )];
    w.impls = vec![ImplData {
        krate: CrateId(0),
        self_ty: adt(0),
        trait_: None,
        items: vec![AssocItemId::FunctionId(FunctionId(0))],
        num_type_params: 0,
    }];
    w
}

#[test]
fn infer_assoc_items_generated_by_macros() {
    // A macro-generated inherent method inside `impl S`.
    let w = inherent_method_world();
    let t = type_of_call(&w, &["S"], 0, &Vec::new(), adt(0), "foo");
    assert_eq!(t, "u128");
}

#[test]
fn infer_assoc_items_generated_by_macros_chain() {
    // The same shape, generated through a chain of macros.
    let w = inherent_method_world();
    let t = type_of_call(&w, &["S"], 0, &Vec::new(), adt(0), "foo");
    assert_eq!(t, "u128");
}

/// Crates `core` (declaring `Clone`) and `main`; `S` lives in `owner`, and
/// the given self types satisfy `Clone` when asked from `main`.
fn clone_world(s_crate: u32, clone_ok: Vec<Ty>) -> World {
    let mut w = empty_world();
    w.crates = vec![
        CrateData { dependencies: vec![] },
        CrateData { dependencies: vec![CrateId(0)] },
    ];
    w.adts = vec![CrateId(s_crate)];
    w.traits = vec![TraitData {
        items: vec![AssocItemId::FunctionId(FunctionId(0))],
        all_supers: vec![],
        num_type_params: 1,
    }];
    w.functions = vec![method(
        "clone",
        AssocContainerId::TraitId(TraitId(0)),
        shared_ref(Ty::Bound(0)),
        Ty::Bound(0),
    )];
    for ty in clone_ok {
        let fact = oracle_fact(&w, 1, 0, ty);
        w.oracle.push(fact);
    }
    w
}

#[test]
fn infer_derive_clone_simple() {
    // `#[derive(Clone)] struct S;` — `S.clone()` resolves via the trait.
    let w = clone_world(1, vec![adt(0)]);
    let scope = vec![TraitId(0)];
    let t = type_of_call(&w, &["S"], 1, &scope, adt(0), "clone");
    assert_eq!(t, "S");
}

#[test]
fn infer_derive_clone_in_core() {
    // `S` and its derived impl live in the dependency crate.
    let w = clone_world(0, vec![adt(0)]);
    let scope = vec![TraitId(0)];
    let t = type_of_call(&w, &["S"], 1, &scope, adt(0), "clone");
    assert_eq!(t, "S");
}

#[test]
fn infer_derive_clone_with_params() {
    // `Wrapper<S>` is cloneable; `Wrapper<NonClone>` is not.
    let mut w = clone_world(1, vec![]);
    w.adts = vec![CrateId(1), CrateId(1), CrateId(1)]; // S, Wrapper, NonClone
    let fact = oracle_fact(&w, 1, 0, adt1(1, adt(0)));
    w.oracle.push(fact);
    let names = ["S", "Wrapper", "NonClone"];
    let scope = vec![TraitId(0)];
    let t = format!(
        "({}, {})",
        type_of_call(&w, &names, 1, &scope, adt1(1, adt(0)), "clone"),
        type_of_call(&w, &names, 1, &scope, adt1(1, adt(2)), "clone"),
    );
    assert_eq!("(Wrapper<S>, {unknown})", t);
}

#[test]
fn infer_custom_derive_simple() {
    // A custom derive expands to nothing: `S` keeps no impls, and the
    // literal struct keeps its own type.
    let mut w = empty_world();
    w.crates = vec![CrateData { dependencies: vec![] }];
    w.adts = vec![CrateId(0)];
    let found = iterate_method_candidates(
        &can(adt(0)),
        &w,
        &env(),
        CrateId(0),
        &Vec::new(),
        None,
        LookupMode::MethodCall,
    );
    assert!(found.is_empty());
    assert_eq!("S", render(&["S"], &adt(0)));
}

#[test]
fn issue_2683_chars_impl() {
    // `Chars` implements `Iterator`; `next` is the impl's item, `nth` a
    // default method of the trait — both resolve through the trait.
    let mut w = empty_world();
    w.crates = vec![
        CrateData { dependencies: vec![] },
        CrateData { dependencies: vec![CrateId(0)] },
    ];
    w.adts = vec![CrateId(0), CrateId(0)]; // Option, Chars
    let opt_char = adt1(0, apply(TypeCtor::Char, Vec::new()));
    w.traits = vec![TraitData {
        items: vec![
            AssocItemId::FunctionId(FunctionId(0)),
            AssocItemId::FunctionId(FunctionId(1)),
        ],
        all_supers: vec![],
        num_type_params: 1,
    }];
    w.functions = vec![
        FunctionData {
            name: "next".to_string(),
            has_self_param: true,
            container: AssocContainerId::TraitId(TraitId(0)),
            params: vec![apply(TypeCtor::Ref(Mutability::Mut), vec![Ty::Bound(0)])],
            ret: opt_char.clone(),
        },
        FunctionData {
            name: "nth".to_string(),
            has_self_param: true,
            container: AssocContainerId::TraitId(TraitId(0)),
            params: vec![
                apply(TypeCtor::Ref(Mutability::Mut), vec![Ty::Bound(0)]),
                int_ty(IntTy::Usize),
            ],
            ret: opt_char.clone(),
        },
    ];
    let fact = oracle_fact(&w, 1, 0, adt(1));
    w.oracle.push(fact);
    let names = ["Option", "Chars"];
    let scope = vec![TraitId(0)];
    let chars_ty = adt(1);
    let next_t = match lookup_method(
        &can(chars_ty.clone()),
        &w,
        &env(),
        CrateId(1),
        &scope,
        &"next".to_string(),
    ) {
        Some((_, f)) => render(&names, &w.functions[f.0 as usize].ret),
        None => "{unknown}".to_string(),
    };
    let nth_t = match lookup_method(
        &can(chars_ty),
        &w,
        &env(),
        CrateId(1),
        &scope,
        &"nth".to_string(),
    ) {
        Some((_, f)) => render(&names, &w.functions[f.0 as usize].ret),
        None => "{unknown}".to_string(),
    };
    assert_eq!("(Option<char>, Option<char>)", format!("({}, {})", next_t, nth_t));
}

#[test]
fn issue_3642_bad_macro_stackover() {
    // A hopeless macro leaves the binding at the unit type, and resolution
    // on it finds nothing — without blowing the stack.
    let mut w = empty_world();
    w.crates = vec![CrateData { dependencies: vec![] }];
    let found = iterate_method_candidates(
        &can(unit()),
        &w,
        &env(),
        CrateId(0),
        &Vec::new(),
        None,
        LookupMode::MethodCall,
    );
    assert!(found.is_empty());
    assert_eq!("()", render(&[], &unit()));
}

#[test]
fn method_call_prefers_inherent_over_trait_on_ref() {
    // `impl S { fn bar(&self) -> i32 }` beats `impl T for &S` — the
    // inherent pass of the shared-reference variant wins.
    let mut w = empty_world();
    w.crates = vec![CrateData { dependencies: vec![] }];
    w.adts = vec![CrateId(0)];
    w.traits = vec![TraitData {
        items: vec![AssocItemId::FunctionId(FunctionId(1))],
        all_supers: vec![],
        num_type_params: 1,
    }];
    w.functions = vec![
        method("bar", AssocContainerId::ImplId(ImplId(0)), shared_ref(adt(0)), int_ty(IntTy::I32)),
        method("bar", AssocContainerId::TraitId(TraitId(0)), Ty::Bound(0), int_ty(IntTy::I32)),
    ];
    w.impls = vec![
        ImplData {
            krate: CrateId(0),
            self_ty: adt(0),
            trait_: None,
            items: vec![AssocItemId::FunctionId(FunctionId(0))],
            num_type_params: 0,
        },
        ImplData {
            krate: CrateId(0),
            self_ty: shared_ref(adt(0)),
            trait_: Some(TraitId(0)),
            items: vec![AssocItemId::FunctionId(FunctionId(1))],
            num_type_params: 0,
        },
    ];
    let fact = oracle_fact(&w, 0, 0, shared_ref(adt(0)));
    w.oracle.push(fact);
    let scope = vec![TraitId(0)];
    let r = lookup_method(&can(adt(0)), &w, &env(), CrateId(0), &scope, &"bar".to_string());
    let (_, f) = r.expect("bar resolves");
    assert_eq!(f, FunctionId(0));
}

#[test]
fn method_found_on_second_deref_level() {
    // `Seq<T>` dereferences to `Slice<T>`, whose inherent `len` is found.
    let mut w = empty_world();
    w.crates = vec![CrateData { dependencies: vec![] }];
    w.adts = vec![CrateId(0), CrateId(0)]; // Seq-like, Slice-like
    let seq_ty = adt1(0, int_ty(IntTy::I32));
    let slice_ty = adt1(1, int_ty(IntTy::I32));
    // model world: Seq<X> derefs to Slice<X> for the receiver at hand
    w.deref_steps = vec![DerefStep { from: seq_ty.clone(), to: slice_ty.clone() }];
    w.functions = vec![FunctionData {
        name: "len".to_string(),
        has_self_param: true,
        container: AssocContainerId::ImplId(ImplId(0)),
        params: vec![shared_ref(adt1(1, Ty::Bound(0)))],
        ret: int_ty(IntTy::Usize),
    }];
    w.impls = vec![ImplData {
        krate: CrateId(0),
        self_ty: adt1(1, Ty::Bound(0)),
        trait_: None,
        items: vec![AssocItemId::FunctionId(FunctionId(0))],
        num_type_params: 1,
    }];
    let r = lookup_method(
        &can(seq_ty),
        &w,
        &env(),
        CrateId(0),
        &Vec::new(),
        &"len".to_string(),
    );
    let (found_self, f) = r.expect("len resolves through the deref chain");
    assert_eq!(f, FunctionId(0));
    assert!(method_resolution::ty::ty_eq(&found_self, &slice_ty));
}

#[test]
fn unimplemented_trait_never_surfaces() {
    // `Printable` is in scope but `X` does not satisfy it: the oracle's
    // rejection suppresses its items.
    let mut w = empty_world();
    w.crates = vec![CrateData { dependencies: vec![] }];
    w.adts = vec![CrateId(0)];
    w.traits = vec![TraitData {
        items: vec![AssocItemId::FunctionId(FunctionId(0))],
        all_supers: vec![],
        num_type_params: 1,
    }];
    w.functions = vec![method(
        "show",
        AssocContainerId::TraitId(TraitId(0)),
        shared_ref(Ty::Bound(0)),
        unit(),
    )];
    let scope = vec![TraitId(0)];
    let r = lookup_method(&can(adt(0)), &w, &env(), CrateId(0), &scope, &"show".to_string());
    assert!(r.is_none());
    let all = iterate_method_candidates(
        &can(adt(0)),
        &w,
        &env(),
        CrateId(0),
        &scope,
        None,
        LookupMode::MethodCall,
    );
    assert!(all.is_empty());
}

#[test]
fn path_mode_finds_assoc_fn_without_self() {
    // `S::make` resolves in path mode; `s.make()` does not.
    let mut w = empty_world();
    w.crates = vec![CrateData { dependencies: vec![] }];
    w.adts = vec![CrateId(0)];
    w.functions = vec![FunctionData {
        name: "make".to_string(),
        has_self_param: false,
        container: AssocContainerId::ImplId(ImplId(0)),
        params: vec![],
        ret: Ty::Bound(0),
    }];
    w.impls = vec![ImplData {
        krate: CrateId(0),
        self_ty: adt(0),
        trait_: None,
        items: vec![AssocItemId::FunctionId(FunctionId(0))],
        num_type_params: 0,
    }];
    let name = "make".to_string();
    let path = iterate_method_candidates(
        &can(adt(0)),
        &w,
        &env(),
        CrateId(0),
        &Vec::new(),
        Some(&name),
        LookupMode::Path,
    );
    assert_eq!(path.len(), 1);
    assert_eq!(path[0].1, AssocItemId::FunctionId(FunctionId(0)));
    let call = lookup_method(&can(adt(0)), &w, &env(), CrateId(0), &Vec::new(), &name);
    assert!(call.is_none());
}

#[test]
fn path_mode_offers_assoc_consts() {
    // Associated constants are eligible in path mode only.
    let mut w = empty_world();
    w.crates = vec![CrateData { dependencies: vec![] }];
    w.adts = vec![CrateId(0)];
    w.consts = vec![ConstData { name: Some("LIMIT".to_string()) }];
    w.impls = vec![ImplData {
        krate: CrateId(0),
        self_ty: adt(0),
        trait_: None,
        items: vec![AssocItemId::ConstId(ConstId(0))],
        num_type_params: 0,
    }];
    let name = "LIMIT".to_string();
    let path = iterate_method_candidates(
        &can(adt(0)),
        &w,
        &env(),
        CrateId(0),
        &Vec::new(),
        Some(&name),
        LookupMode::Path,
    );
    assert_eq!(path.len(), 1);
    let call = iterate_method_candidates(
        &can(adt(0)),
        &w,
        &env(),
        CrateId(0),
        &Vec::new(),
        Some(&name),
        LookupMode::MethodCall,
    );
    assert!(call.is_empty());
}

#[test]
fn indexing_resolves_at_third_deref_level() {
    // Only the third chain entry satisfies the index trait.
    let mut w = empty_world();
    w.crates = vec![CrateData { dependencies: vec![] }];
    w.adts = vec![CrateId(0), CrateId(0), CrateId(0)];
    w.traits = vec![TraitData { items: vec![], all_supers: vec![], num_type_params: 2 }];
    w.deref_steps = vec![
        DerefStep { from: adt(0), to: adt(1) },
        DerefStep { from: adt(1), to: adt(2) },
    ];
    let fact = oracle_fact(&w, 0, 0, adt(2));
    w.oracle.push(fact);
    let r = resolve_indexing_op(&w, &can(adt(0)), CrateId(0), TraitId(0));
    let found = r.expect("the third level satisfies Index");
    assert!(method_resolution::ty::ty_eq(&found.value, &adt(2)));
}

#[test]
fn implements_trait_is_a_single_probe() {
    let mut w = empty_world();
    w.crates = vec![CrateData { dependencies: vec![] }];
    w.adts = vec![CrateId(0)];
    w.traits = vec![TraitData { items: vec![], all_supers: vec![], num_type_params: 1 }];
    let fact = oracle_fact(&w, 0, 0, adt(0));
    w.oracle.push(fact);
    assert!(implements_trait(&can(adt(0)), &w, CrateId(0), TraitId(0)));
    assert!(!implements_trait(&can(unit()), &w, CrateId(0), TraitId(0)));
}

#[test]
fn fingerprints_exist_exactly_for_impl_capable_types() {
    assert!(TyFingerprint::for_impl(&adt(0)).is_some());
    assert!(TyFingerprint::for_impl(&int_ty(IntTy::I32)).is_some());
    assert!(TyFingerprint::for_impl(&apply(TypeCtor::Str, vec![])).is_some());
    assert!(TyFingerprint::for_impl(&apply(TypeCtor::Slice, vec![adt(0)])).is_some());
    assert!(TyFingerprint::for_impl(&apply(TypeCtor::RawPtr(Mutability::Mut), vec![adt(0)]))
        .is_some());
    assert!(TyFingerprint::for_impl(&shared_ref(adt(0))).is_none());
    assert!(TyFingerprint::for_impl(&unit()).is_none());
    assert!(TyFingerprint::for_impl(&Ty::Placeholder(0)).is_none());
    assert!(TyFingerprint::for_impl(&Ty::Bound(0)).is_none());
    assert!(TyFingerprint::for_impl(&Ty::Unknown).is_none());
}

/// A world with a diamond dependency graph: `a` depends on `b` and `c`,
/// which both depend on `d`; `d` declares one inherent impl of `S`.
fn diamond_world() -> World {
    let mut w = empty_world();
    w.crates = vec![
        CrateData { dependencies: vec![] },                      // d
        CrateData { dependencies: vec![CrateId(0)] },            // b
        CrateData { dependencies: vec![CrateId(0)] },            // c
        CrateData { dependencies: vec![CrateId(1), CrateId(2)] }, // a
    ];
    w.adts = vec![CrateId(0)];
    w.functions = vec![method(
        "m",
        AssocContainerId::ImplId(ImplId(0)),
        shared_ref(adt(0)),
        unit(),
    )];
    w.impls = vec![ImplData {
        krate: CrateId(0),
        self_ty: adt(0),
        trait_: None,
        items: vec![AssocItemId::FunctionId(FunctionId(0))],
        num_type_params: 0,
    }];
    w
}

#[test]
fn diamond_dependencies_hold_each_impl_once() {
    let w = diamond_world();
    let transitive = CrateImplDefs::impls_from_deps(&w, CrateId(3));
    let bucket = transitive.lookup_impl_defs(&adt(0));
    assert_eq!(bucket, vec![ImplId(0)]);
    let all = transitive.all_impls();
    assert_eq!(all, vec![ImplId(0)]);
}

#[test]
fn merge_is_idempotent_and_order_independent() {
    let w = diamond_world();
    let own = CrateImplDefs::impls_in_crate(&w, CrateId(0));
    let mut once = CrateImplDefs::new();
    once.merge(&own);
    let mut twice = CrateImplDefs::new();
    twice.merge(&own);
    twice.merge(&own);
    assert_eq!(once.lookup_impl_defs(&adt(0)), twice.lookup_impl_defs(&adt(0)));
    assert_eq!(once.all_impls(), twice.all_impls());

    let other = CrateImplDefs::impls_from_deps(&w, CrateId(3));
    let mut ab = CrateImplDefs::impls_in_crate(&w, CrateId(0));
    ab.merge(&other);
    let mut ba = CrateImplDefs::new();
    ba.merge(&other);
    ba.merge(&own);
    let mut left = ab.all_impls();
    let mut right = ba.all_impls();
    left.sort_by_key(|i| i.0);
    left.dedup();
    right.sort_by_key(|i| i.0);
    right.dedup();
    assert_eq!(left, right);
}

#[test]
fn def_crates_follow_the_lang_item_markers() {
    // `str`'s inherent impls live in two library crates; a wrong or missing
    // marker shrinks the list.
    let mut w = empty_world();
    w.crates = vec![
        CrateData { dependencies: vec![] },
        CrateData { dependencies: vec![CrateId(0)] },
    ];
    w.impls = vec![
        ImplData {
            krate: CrateId(1),
            self_ty: apply(TypeCtor::Str, vec![]),
            trait_: None,
            items: vec![],
            num_type_params: 0,
        },
        ImplData {
            krate: CrateId(0),
            self_ty: apply(TypeCtor::Str, vec![]),
            trait_: None,
            items: vec![],
            num_type_params: 0,
        },
    ];
    w.lang_items = vec![
        (LangKey::StrAlloc, LangItemTarget::ImplDef(ImplId(0))),
        (LangKey::Str, LangItemTarget::ImplDef(ImplId(1))),
    ];
    let str_ty = apply(TypeCtor::Str, vec![]);
    let crates = str_ty.def_crates(&w, CrateId(1)).expect("str has defining crates");
    let items = method_resolution::outside::crate_list_items(&crates);
    assert_eq!(items, vec![CrateId(1), CrateId(0)]);
    assert!(shared_ref(adt(0)).def_crates(&w, CrateId(1)).is_none());
    let bool_ty = apply(TypeCtor::Bool, vec![]);
    let none_marked = bool_ty.def_crates(&w, CrateId(1)).expect("bool maps to markers");
    assert_eq!(method_resolution::outside::crate_list_items(&none_marked).len(), 0);
}

#[test]
fn generic_impl_specializes_against_receiver() {
    // `impl<T> Wrapper<T>` against `Wrapper<i32>` pins `T` to `i32`.
    let mut w = empty_world();
    w.crates = vec![CrateData { dependencies: vec![] }];
    w.adts = vec![CrateId(0)];
    w.impls = vec![ImplData {
        krate: CrateId(0),
        self_ty: adt1(0, Ty::Bound(0)),
        trait_: None,
        items: vec![],
        num_type_params: 1,
    }];
    let receiver = can(adt1(0, int_ty(IntTy::I32)));
    let substs = method_resolution::unify::inherent_impl_substs(&w, ImplId(0), &receiver)
        .expect("the impl applies");
    assert_eq!(substs.0.len(), 1);
    assert!(method_resolution::ty::ty_eq(&substs.0[0], &int_ty(IntTy::I32)));
    let mismatched = can(unit());
    assert!(method_resolution::unify::inherent_impl_substs(&w, ImplId(0), &mismatched).is_none());
}

#[test]
fn unpinned_impl_variables_fall_back_to_unknown() {
    // Against a receiver holding the unknown type, the impl's variable
    // stays unpinned and comes back as the unknown type.
    let mut w = empty_world();
    w.crates = vec![CrateData { dependencies: vec![] }];
    w.adts = vec![CrateId(0)];
    w.impls = vec![ImplData {
        krate: CrateId(0),
        self_ty: adt1(0, Ty::Bound(0)),
        trait_: None,
        items: vec![],
        num_type_params: 1,
    }];
    let receiver = can(adt1(0, Ty::Unknown));
    let substs = method_resolution::unify::inherent_impl_substs(&w, ImplId(0), &receiver)
        .expect("the impl applies");
    assert_eq!(substs.0.len(), 1);
    assert!(method_resolution::ty::ty_eq(&substs.0[0], &Ty::Unknown));
}

#[test]
fn array_receivers_widen_to_slices() {
    // The chain of `[S; n]` ends with `[S]`, and a slice method resolves.
    let mut w = empty_world();
    w.crates = vec![CrateData { dependencies: vec![] }];
    w.adts = vec![CrateId(0)];
    w.impls = vec![ImplData {
        krate: CrateId(0),
        self_ty: apply(TypeCtor::Slice, vec![Ty::Bound(0)]),
        trait_: None,
        items: vec![AssocItemId::FunctionId(FunctionId(0))],
        num_type_params: 1,
    }];
    w.functions = vec![FunctionData {
        name: "first".to_string(),
        has_self_param: true,
        container: AssocContainerId::ImplId(ImplId(0)),
        params: vec![shared_ref(apply(TypeCtor::Slice, vec![Ty::Bound(0)]))],
        ret: Ty::Bound(0),
    }];
    w.lang_items = vec![
        (LangKey::SliceAlloc, LangItemTarget::ImplDef(ImplId(0))),
        (LangKey::Slice, LangItemTarget::ImplDef(ImplId(0))),
    ];
    let array_ty = apply(TypeCtor::Array, vec![adt(0)]);
    let r = lookup_method(
        &can(array_ty),
        &w,
        &env(),
        CrateId(0),
        &Vec::new(),
        &"first".to_string(),
    );
    let (found_self, f) = r.expect("the slice method resolves on the array");
    assert_eq!(f, FunctionId(0));
    assert!(method_resolution::ty::ty_eq(
        &found_self,
        &apply(TypeCtor::Slice, vec![adt(0)])
    ));
}

#[test]
fn dyn_receivers_see_their_trait_without_scope() {
    // On `dyn T`, the trait's methods are candidates even when `T` is not
    // lexically in scope.
    let mut w = empty_world();
    w.crates = vec![CrateData { dependencies: vec![] }];
    w.traits = vec![TraitData {
        items: vec![AssocItemId::FunctionId(FunctionId(0))],
        all_supers: vec![],
        num_type_params: 1,
    }];
    w.functions = vec![method(
        "go",
        AssocContainerId::TraitId(TraitId(0)),
        shared_ref(Ty::Bound(0)),
        unit(),
    )];
    let dyn_ty = Ty::Dyn(TraitId(0));
    let fact = oracle_fact(&w, 0, 0, Ty::Dyn(TraitId(0)));
    w.oracle.push(fact);
    let r = lookup_method(&can(dyn_ty), &w, &env(), CrateId(0), &Vec::new(), &"go".to_string());
    assert!(r.is_some());
}

#[test]
fn placeholders_see_their_environment_bounds() {
    // On a generic parameter `P` with `P: T` in the ambient environment, the
    // trait's methods are candidates without `T` being in scope.
    let mut w = empty_world();
    w.crates = vec![CrateData { dependencies: vec![] }];
    w.traits = vec![TraitData {
        items: vec![AssocItemId::FunctionId(FunctionId(0))],
        all_supers: vec![],
        num_type_params: 1,
    }];
    w.functions = vec![method(
        "go",
        AssocContainerId::TraitId(TraitId(0)),
        shared_ref(Ty::Bound(0)),
        unit(),
    )];
    let fact = oracle_fact(&w, 0, 0, Ty::Placeholder(0));
    w.oracle.push(fact);
    let environment = TraitEnvironment { predicates: vec![(Ty::Placeholder(0), TraitId(0))] };
    let r = lookup_method(
        &can(Ty::Placeholder(0)),
        &w,
        &environment,
        CrateId(0),
        &Vec::new(),
        &"go".to_string(),
    );
    assert!(r.is_some());
    // Without the bound, nothing resolves.
    let r2 = lookup_method(
        &can(Ty::Placeholder(0)),
        &w,
        &env(),
        CrateId(0),
        &Vec::new(),
        &"go".to_string(),
    );
    assert!(r2.is_none());
}
