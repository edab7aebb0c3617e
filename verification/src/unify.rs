//! How a generic impl's declared self type specializes against a concrete
//! receiver type: substitution building and structural unification.
//!
//! The unifier works over the bound variables of two canonicalized types,
//! which share one variable space: the receiver's holes come first, fresh
//! variables for the impl's generic parameters after them. It proceeds
//! structurally and keeps its table fully resolved: whenever a variable is
//! pinned, the pinned value is substituted into every earlier entry, and a
//! variable that is already pinned must agree exactly with what it meets —
//! no equation between two already-pinned structures is re-solved. The
//! unknown (error) type unifies with everything and pins nothing.

use vstd::prelude::*;

use crate::db::{World, VAR_BOUND};
use crate::ids::{AssocContainerId, FunctionId, ImplId};
use crate::ty::{
    lemma_tys_view_index, lemma_tys_view_len, subst_bound_vars, subst_tyv, ty_clone, tys_view,
    ty_view, ApplicationTy, Canonical, CanonicalV, Substs, Ty, TyV,
};

verus! {

/// The value of a unification table: one optional pinned value per variable.
pub open spec fn table_view(s: Seq<Option<Ty>>) -> Seq<Option<TyV>>
    decreases s,
{
    if s.len() == 0 {
        Seq::empty()
    } else {
        table_view(s.drop_last()).push(match s.last() {
            Some(t) => Some(ty_view(t)),
            None => None,
        })
    }
}

/// The value of a table is the list of the values of its entries.
pub proof fn lemma_table_view_index(s: Seq<Option<Ty>>, i: int)
    requires
        0 <= i < s.len(),
    ensures
        table_view(s).len() == s.len(),
        table_view(s)[i] == (match s[i] {
            Some(t) => Some(ty_view(t)),
            None => None::<TyV>,
        }),
    decreases s,
{
    lemma_table_view_len(s);
    if i < s.len() - 1 {
        lemma_table_view_index(s.drop_last(), i);
    }
}

/// The table's value has the table's length.
pub proof fn lemma_table_view_len(s: Seq<Option<Ty>>)
    ensures
        table_view(s).len() == s.len(),
    decreases s,
{
    if s.len() > 0 {
        lemma_table_view_len(s.drop_last());
    }
}

/// Replaces every pinned variable of `t` by its table entry, verbatim.
pub open spec fn resolve_tyv(t: TyV, table: Seq<Option<TyV>>) -> TyV
    decreases t,
{
    match t {
        TyV::Apply(c, ps) => TyV::Apply(c, resolve_tyvs(ps, table)),
        TyV::Bound(v) => if v < table.len() && table[v as int] is Some {
            table[v as int]->0
        } else {
            TyV::Bound(v)
        },
        _ => t,
    }
}

/// [`resolve_tyv`], over each element of a list.
pub open spec fn resolve_tyvs(s: Seq<TyV>, table: Seq<Option<TyV>>) -> Seq<TyV>
    decreases s,
{
    if s.len() == 0 {
        Seq::empty()
    } else {
        resolve_tyvs(s.drop_last(), table).push(resolve_tyv(s.last(), table))
    }
}

/// Whether variable `v` occurs in `t`.
pub open spec fn occurs_tyv(v: u32, t: TyV) -> bool
    decreases t,
{
    match t {
        TyV::Apply(_, ps) => occurs_tyvs(v, ps),
        TyV::Bound(w) => v == w,
        _ => false,
    }
}

/// Whether variable `v` occurs in some element of `s`.
pub open spec fn occurs_tyvs(v: u32, s: Seq<TyV>) -> bool
    decreases s,
{
    if s.len() == 0 {
        false
    } else {
        occurs_tyvs(v, s.drop_last()) || occurs_tyv(v, s.last())
    }
}

/// Replaces variable `v` by `r` throughout `t`.
pub open spec fn replace_tyv(t: TyV, v: u32, r: TyV) -> TyV
    decreases t,
{
    match t {
        TyV::Apply(c, ps) => TyV::Apply(c, replace_tyvs(ps, v, r)),
        TyV::Bound(w) => if v == w {
            r
        } else {
            TyV::Bound(w)
        },
        _ => t,
    }
}

/// [`replace_tyv`], over each element of a list.
pub open spec fn replace_tyvs(s: Seq<TyV>, v: u32, r: TyV) -> Seq<TyV>
    decreases s,
{
    if s.len() == 0 {
        Seq::empty()
    } else {
        replace_tyvs(s.drop_last(), v, r).push(replace_tyv(s.last(), v, r))
    }
}

/// Pins `v` to `r` in a table: `v`'s entry becomes `r`, and `v` is replaced
/// by `r` inside every other pinned entry, so the table stays resolved.
pub open spec fn table_pin(table: Seq<Option<TyV>>, v: u32, r: TyV) -> Seq<Option<TyV>> {
    table.map_values(
        |e: Option<TyV>|
            match e {
                Some(t) => Some(replace_tyv(t, v, r)),
                None => None,
            },
    ).update(v as int, Some(r))
}

/// One unification step on two values under a table. `None` means the two
/// cannot be unified; `Some` carries the extended table.
pub open spec fn spec_unify_ty(a: TyV, b: TyV, table: Seq<Option<TyV>>) -> Option<Seq<Option<TyV>>>
    decreases a, 0int,
{
    match (a, b) {
        (TyV::Unknown, _) => Some(table),
        (_, TyV::Unknown) => Some(table),
        (TyV::Bound(v), _) => spec_unify_var(v, b, table),
        (_, TyV::Bound(v)) => spec_unify_var(v, a, table),
        (TyV::Apply(c1, ps1), TyV::Apply(c2, ps2)) => if c1 == c2 && ps1.len() == ps2.len() {
            spec_unify_tys(ps1, ps2, table)
        } else {
            None
        },
        (TyV::Placeholder(i), TyV::Placeholder(j)) => if i == j {
            Some(table)
        } else {
            None
        },
        (TyV::Dyn(s), TyV::Dyn(t)) => if s == t {
            Some(table)
        } else {
            None
        },
        _ => None,
    }
}

/// Unifies variable `v` with a value `t` that is not the unknown type: if
/// `v` is pinned it must agree with `t` resolved; otherwise `v` is pinned to
/// `t` resolved, unless `v` occurs in it or `v` is out of range.
pub open spec fn spec_unify_var(v: u32, t: TyV, table: Seq<Option<TyV>>) -> Option<
    Seq<Option<TyV>>,
> {
    if t == TyV::Bound(v) {
        Some(table)
    } else if v >= table.len() {
        None
    } else {
        let rt = resolve_tyv(t, table);
        match table[v as int] {
            Some(pinned) => if pinned == rt {
                Some(table)
            } else {
                None
            },
            None => if occurs_tyv(v, rt) {
                None
            } else {
                Some(table_pin(table, v, rt))
            },
        }
    }
}

/// Unifies two lists element by element, threading the table left to right.
pub open spec fn spec_unify_tys(a: Seq<TyV>, b: Seq<TyV>, table: Seq<Option<TyV>>) -> Option<
    Seq<Option<TyV>>,
>
    decreases a, 1int,
{
    if a.len() == 0 {
        Some(table)
    } else {
        match spec_unify_ty(a[0], b[0], table) {
            Some(t2) => spec_unify_tys(a.drop_first(), b.drop_first(), t2),
            None => None,
        }
    }
}

/// The substitution a finished table denotes: the pinned value of each
/// variable, the variable itself where nothing was pinned.
pub open spec fn table_substs(table: Seq<Option<TyV>>) -> Seq<TyV> {
    Seq::new(
        table.len(),
        |i: int|
            match table[i] {
                Some(t) => t,
                None => TyV::Bound(i as u32),
            },
    )
}

/// What unifying two canonicalized types yields: a substitution for the
/// shared variable space, or nothing when they cannot be unified.
pub open spec fn spec_unify(a: CanonicalV, b: CanonicalV) -> Option<Seq<TyV>> {
    let n = if a.num_vars >= b.num_vars {
        a.num_vars
    } else {
        b.num_vars
    };
    match spec_unify_ty(a.value, b.value, Seq::new(n, |i: int| None)) {
        Some(table) => Some(table_substs(table)),
        None => None,
    }
}

/// The resolved list is the list of the resolved elements.
pub proof fn lemma_resolve_tyvs_index(s: Seq<TyV>, table: Seq<Option<TyV>>, i: int)
    requires
        0 <= i < s.len(),
    ensures
        resolve_tyvs(s, table).len() == s.len(),
        resolve_tyvs(s, table)[i] == resolve_tyv(s[i], table),
    decreases s,
{
    lemma_resolve_tyvs_len(s, table);
    if i < s.len() - 1 {
        lemma_resolve_tyvs_index(s.drop_last(), table, i);
    }
}

/// The resolved list has the length of the original.
pub proof fn lemma_resolve_tyvs_len(s: Seq<TyV>, table: Seq<Option<TyV>>)
    ensures
        resolve_tyvs(s, table).len() == s.len(),
    decreases s,
{
    if s.len() > 0 {
        lemma_resolve_tyvs_len(s.drop_last(), table);
    }
}

/// The replaced list is the list of the replaced elements.
pub proof fn lemma_replace_tyvs_index(s: Seq<TyV>, v: u32, r: TyV, i: int)
    requires
        0 <= i < s.len(),
    ensures
        replace_tyvs(s, v, r).len() == s.len(),
        replace_tyvs(s, v, r)[i] == replace_tyv(s[i], v, r),
    decreases s,
{
    lemma_replace_tyvs_len(s, v, r);
    if i < s.len() - 1 {
        lemma_replace_tyvs_index(s.drop_last(), v, r, i);
    }
}

/// The replaced list has the length of the original.
pub proof fn lemma_replace_tyvs_len(s: Seq<TyV>, v: u32, r: TyV)
    ensures
        replace_tyvs(s, v, r).len() == s.len(),
    decreases s,
{
    if s.len() > 0 {
        lemma_replace_tyvs_len(s.drop_last(), v, r);
    }
}

/// `v` occurs in a list exactly when it occurs in one of its elements.
pub proof fn lemma_occurs_tyvs_iff(v: u32, s: Seq<TyV>)
    ensures
        occurs_tyvs(v, s) <==> exists|i: int| 0 <= i < s.len() && occurs_tyv(v, #[trigger] s[i]),
    decreases s,
{
    if s.len() > 0 {
        lemma_occurs_tyvs_iff(v, s.drop_last());
        if occurs_tyvs(v, s) {
            if occurs_tyv(v, s.last()) {
                assert(occurs_tyv(v, s[s.len() - 1]));
            } else {
                let i = choose|i: int|
                    0 <= i < s.drop_last().len() && occurs_tyv(v, #[trigger] s.drop_last()[i]);
                assert(occurs_tyv(v, s[i]));
            }
        }
        if exists|i: int| 0 <= i < s.len() && occurs_tyv(v, #[trigger] s[i]) {
            let i = choose|i: int| 0 <= i < s.len() && occurs_tyv(v, #[trigger] s[i]);
            if i < s.len() - 1 {
                assert(occurs_tyv(v, s.drop_last()[i]));
            }
        }
    }
}

/// [`resolve_ty`], over each element of a list.
fn resolve_tys(s: &Vec<Ty>, table: &Vec<Option<Ty>>) -> (r: Vec<Ty>)
    ensures
        tys_view(r@) == resolve_tyvs(tys_view(s@), table_view(table@)),
    decreases s@,
{
    let mut r: Vec<Ty> = Vec::new();
    let mut i: usize = 0;
    while i < s.len()
        invariant
            i <= s@.len(),
            r@.len() == i,
            forall|j: int| 0 <= j < i ==> ty_view(#[trigger] r@[j]) == resolve_tyv(
                ty_view(s@[j]),
                table_view(table@),
            ),
        decreases s@.len() - i,
    {
        let c = resolve_ty(&s[i], table);
        r.push(c);
        i = i + 1;
    }
    proof {
        lemma_tys_view_len(r@);
        lemma_tys_view_len(s@);
        lemma_resolve_tyvs_len(tys_view(s@), table_view(table@));
        assert forall|j: int| 0 <= j < r@.len() implies tys_view(r@)[j] == resolve_tyvs(
            tys_view(s@),
            table_view(table@),
        )[j] by {
            lemma_tys_view_index(r@, j);
            lemma_tys_view_index(s@, j);
            lemma_resolve_tyvs_index(tys_view(s@), table_view(table@), j);
        }
        assert(tys_view(r@) =~= resolve_tyvs(tys_view(s@), table_view(table@)));
    }
    r
}

/// Replaces every pinned variable of `t` by its table entry.
fn resolve_ty(t: &Ty, table: &Vec<Option<Ty>>) -> (r: Ty)
    ensures
        r@ == resolve_tyv(t@, table_view(table@)),
    decreases *t,
{
    match t {
        Ty::Apply(a) => Ty::Apply(
            ApplicationTy {
                ctor: a.ctor,
                parameters: Substs(resolve_tys(&a.parameters.0, table)),
            },
        ),
        Ty::Placeholder(i) => Ty::Placeholder(*i),
        Ty::Bound(v) => {
            proof {
                lemma_table_view_len(table@);
            }
            if (*v as usize) < table.len() {
                proof {
                    lemma_table_view_index(table@, *v as int);
                }
                match &table[*v as usize] {
                    Some(p) => ty_clone(p),
                    None => Ty::Bound(*v),
                }
            } else {
                Ty::Bound(*v)
            }
        },
        Ty::Dyn(tr) => Ty::Dyn(*tr),
        Ty::Unknown => Ty::Unknown,
    }
}

/// Whether variable `v` occurs in some element of `s`.
fn occurs_tys(v: u32, s: &Vec<Ty>) -> (r: bool)
    ensures
        r == occurs_tyvs(v, tys_view(s@)),
    decreases s@,
{
    proof {
        lemma_tys_view_len(s@);
        lemma_occurs_tyvs_iff(v, tys_view(s@));
    }
    let mut i: usize = 0;
    while i < s.len()
        invariant
            i <= s@.len(),
            forall|j: int| 0 <= j < i ==> !occurs_tyv(v, ty_view(#[trigger] s@[j])),
        decreases s@.len() - i,
    {
        if occurs_ty(v, &s[i]) {
            proof {
                lemma_tys_view_index(s@, i as int);
                lemma_occurs_tyvs_iff(v, tys_view(s@));
            }
            return true;
        }
        i = i + 1;
    }
    proof {
        lemma_occurs_tyvs_iff(v, tys_view(s@));
        assert forall|j: int| 0 <= j < tys_view(s@).len() implies !occurs_tyv(
            v,
            tys_view(s@)[j],
        ) by {
            lemma_tys_view_index(s@, j);
        }
    }
    false
}

/// Whether variable `v` occurs in `t`.
fn occurs_ty(v: u32, t: &Ty) -> (r: bool)
    ensures
        r == occurs_tyv(v, t@),
    decreases *t,
{
    match t {
        Ty::Apply(a) => occurs_tys(v, &a.parameters.0),
        Ty::Bound(w) => v == *w,
        _ => false,
    }
}

/// [`replace_ty`], over each element of a list.
fn replace_tys(s: &Vec<Ty>, v: u32, r: &Ty) -> (out: Vec<Ty>)
    ensures
        tys_view(out@) == replace_tyvs(tys_view(s@), v, r@),
    decreases s@,
{
    let mut out: Vec<Ty> = Vec::new();
    let mut i: usize = 0;
    while i < s.len()
        invariant
            i <= s@.len(),
            out@.len() == i,
            forall|j: int| 0 <= j < i ==> ty_view(#[trigger] out@[j]) == replace_tyv(
                ty_view(s@[j]),
                v,
                r@,
            ),
        decreases s@.len() - i,
    {
        let c = replace_ty(&s[i], v, r);
        out.push(c);
        i = i + 1;
    }
    proof {
        lemma_tys_view_len(out@);
        lemma_tys_view_len(s@);
        lemma_replace_tyvs_len(tys_view(s@), v, r@);
        assert forall|j: int| 0 <= j < out@.len() implies tys_view(out@)[j] == replace_tyvs(
            tys_view(s@),
            v,
            r@,
        )[j] by {
            lemma_tys_view_index(out@, j);
            lemma_tys_view_index(s@, j);
            lemma_replace_tyvs_index(tys_view(s@), v, r@, j);
        }
        assert(tys_view(out@) =~= replace_tyvs(tys_view(s@), v, r@));
    }
    out
}

/// Replaces variable `v` by `r` throughout `t`.
fn replace_ty(t: &Ty, v: u32, r: &Ty) -> (out: Ty)
    ensures
        out@ == replace_tyv(t@, v, r@),
    decreases *t,
{
    match t {
        Ty::Apply(a) => Ty::Apply(
            ApplicationTy {
                ctor: a.ctor,
                parameters: Substs(replace_tys(&a.parameters.0, v, r)),
            },
        ),
        Ty::Placeholder(i) => Ty::Placeholder(*i),
        Ty::Bound(w) => {
            if v == *w {
                ty_clone(r)
            } else {
                Ty::Bound(*w)
            }
        },
        Ty::Dyn(tr) => Ty::Dyn(*tr),
        Ty::Unknown => Ty::Unknown,
    }
}

/// Pins `v` to `rt`, keeping the table resolved.
fn pin_var(table: &mut Vec<Option<Ty>>, v: u32, rt: Ty)
    requires
        (v as int) < old(table)@.len(),
    ensures
        final(table)@.len() == old(table)@.len(),
        table_view(final(table)@) == table_pin(table_view(old(table)@), v, rt@),
{
    let ghost t0 = table_view(old(table)@);
    let mut i: usize = 0;
    while i < table.len()
        invariant
            (v as int) < table@.len(),
            table@.len() == old(table)@.len(),
            i <= table@.len(),
            forall|j: int| i <= j < table@.len() ==> #[trigger] table@[j] == old(table)@[j],
            forall|j: int| 0 <= j < i ==> ((#[trigger] table@[j] is Some <==> old(table)@[j]
                is Some) && (table@[j] is Some ==> ty_view(table@[j]->0) == replace_tyv(
                ty_view(old(table)@[j]->0),
                v,
                rt@,
            ))),
        decreases table@.len() - i,
    {
        let ne = match &table[i] {
            Some(t) => Some(replace_ty(t, v, &rt)),
            None => None,
        };
        let slot = &mut table[i];
        *slot = ne;
        i = i + 1;
    }
    let slot = &mut table[v as usize];
    *slot = Some(rt);
    proof {
        lemma_table_view_len(table@);
        lemma_table_view_len(old(table)@);
        assert(table_pin(t0, v, rt@).len() == table@.len());
        assert forall|j: int| 0 <= j < table@.len() implies table_view(table@)[j] == table_pin(
            t0,
            v,
            rt@,
        )[j] by {
            lemma_table_view_index(table@, j);
            lemma_table_view_index(old(table)@, j);
            if j != v {
                assert(table_pin(t0, v, rt@)[j] == (match t0[j] {
                    Some(t) => Some(replace_tyv(t, v, rt@)),
                    None => None::<TyV>,
                }));
            }
        }
        assert(table_view(table@) =~= table_pin(t0, v, rt@));
    }
}

/// Unifies variable `v` with `t` under the current table.
fn unify_var(v: u32, t: &Ty, table: &mut Vec<Option<Ty>>) -> (r: bool)
    ensures
        r == (spec_unify_var(v, t@, table_view(old(table)@)) is Some),
        r ==> table_view(final(table)@) == spec_unify_var(v, t@, table_view(old(table)@))->0,
        final(table)@.len() == old(table)@.len(),
{
    proof {
        lemma_table_view_len(table@);
    }
    if let Ty::Bound(w) = t {
        if *w == v {
            return true;
        }
    }
    proof {
        assert(t@ != TyV::Bound(v));
    }
    if (v as usize) >= table.len() {
        return false;
    }
    let rt = resolve_ty(t, table);
    proof {
        lemma_table_view_index(table@, v as int);
    }
    let pinned = match &table[v as usize] {
        Some(p) => Some(ty_clone(p)),
        None => None,
    };
    match pinned {
        Some(p) => crate::ty::ty_eq(&p, &rt),
        None => {
            if occurs_ty(v, &rt) {
                false
            } else {
                pin_var(table, v, rt);
                true
            }
        },
    }
}

/// Unifies the elements of two lists of equal length, left to right.
fn unify_tys(a: &Vec<Ty>, b: &Vec<Ty>, table: &mut Vec<Option<Ty>>) -> (r: bool)
    requires
        a@.len() == b@.len(),
    ensures
        r == (spec_unify_tys(tys_view(a@), tys_view(b@), table_view(old(table)@)) is Some),
        r ==> table_view(final(table)@) == spec_unify_tys(
            tys_view(a@),
            tys_view(b@),
            table_view(old(table)@),
        )->0,
        final(table)@.len() == old(table)@.len(),
    decreases a@,
{
    proof {
        lemma_tys_view_len(a@);
        lemma_tys_view_len(b@);
        assert(tys_view(a@).skip(0) =~= tys_view(a@));
        assert(tys_view(b@).skip(0) =~= tys_view(b@));
    }
    let mut i: usize = 0;
    while i < a.len()
        invariant
            a@.len() == b@.len(),
            i <= a@.len(),
            table@.len() == old(table)@.len(),
            spec_unify_tys(
                tys_view(a@).skip(i as int),
                tys_view(b@).skip(i as int),
                table_view(table@),
            ) == spec_unify_tys(tys_view(a@), tys_view(b@), table_view(old(table)@)),
        decreases a@.len() - i,
    {
        let ghost pre = table_view(table@);
        let ghost va = tys_view(a@);
        let ghost vb = tys_view(b@);
        let ok = unify_ty(&a[i], &b[i], table);
        proof {
            lemma_tys_view_index(a@, i as int);
            lemma_tys_view_index(b@, i as int);
            lemma_tys_view_len(a@);
            lemma_tys_view_len(b@);
            assert(va.skip(i as int)[0] == va[i as int]);
            assert(vb.skip(i as int)[0] == vb[i as int]);
            assert(va.skip(i as int).len() == va.len() - i);
            assert(spec_unify_tys(va.skip(i as int), vb.skip(i as int), pre) == (
            match spec_unify_ty(va[i as int], vb[i as int], pre) {
                Some(t2) => spec_unify_tys(
                    va.skip(i as int).drop_first(),
                    vb.skip(i as int).drop_first(),
                    t2,
                ),
                None => None,
            }));
            assert(va.skip(i as int).drop_first() =~= va.skip(i as int + 1));
            assert(vb.skip(i as int).drop_first() =~= vb.skip(i as int + 1));
        }
        if !ok {
            return false;
        }
        i = i + 1;
    }
    proof {
        assert(tys_view(a@).skip(i as int).len() == 0);
        assert(tys_view(a@).skip(i as int) =~= Seq::<TyV>::empty());
    }
    true
}

/// Unifies two values under the current table: `true` extends the table,
/// `false` leaves the two not unifiable (and the table in no useful state).
fn unify_ty(a: &Ty, b: &Ty, table: &mut Vec<Option<Ty>>) -> (r: bool)
    ensures
        r == (spec_unify_ty(a@, b@, table_view(old(table)@)) is Some),
        r ==> table_view(final(table)@) == spec_unify_ty(a@, b@, table_view(old(table)@))->0,
        final(table)@.len() == old(table)@.len(),
    decreases *a,
{
    match (a, b) {
        (Ty::Unknown, _) => true,
        (_, Ty::Unknown) => true,
        (Ty::Bound(v), _) => unify_var(*v, b, table),
        (_, Ty::Bound(v)) => unify_var(*v, a, table),
        (Ty::Apply(x), Ty::Apply(y)) => {
            proof {
                lemma_tys_view_len(x.parameters.0@);
                lemma_tys_view_len(y.parameters.0@);
            }
            if x.ctor == y.ctor && x.parameters.0.len() == y.parameters.0.len() {
                unify_tys(&x.parameters.0, &y.parameters.0, table)
            } else {
                false
            }
        },
        (Ty::Placeholder(i), Ty::Placeholder(j)) => i == j,
        (Ty::Dyn(s), Ty::Dyn(t)) => s == t,
        _ => {
            proof {
                assert(spec_unify_ty(a@, b@, table_view(table@)) is None);
            }
            false
        },
    }
}

/// Attempts to unify two canonicalized types over their shared variable
/// space; on success, returns what every variable of that space stands for.
pub fn unify(a: &Canonical, b: &Canonical) -> (r: Option<Substs>)
    requires
        a.num_vars <= u32::MAX,
        b.num_vars <= u32::MAX,
    ensures
        r is Some <==> spec_unify(a@, b@) is Some,
        r is Some ==> r->0@ == spec_unify(a@, b@)->0,
{
    let n = if a.num_vars >= b.num_vars {
        a.num_vars
    } else {
        b.num_vars
    };
    let mut table: Vec<Option<Ty>> = Vec::new();
    let mut i: usize = 0;
    while i < n
        invariant
            i <= n,
            table@.len() == i,
            forall|j: int| 0 <= j < i ==> table@[j] is None,
        decreases n - i,
    {
        table.push(None);
        i = i + 1;
    }
    let ghost nn: nat = if a@.num_vars >= b@.num_vars {
        a@.num_vars
    } else {
        b@.num_vars
    };
    proof {
        lemma_table_view_len(table@);
        assert(nn == n as nat);
        assert forall|j: int| 0 <= j < n implies table_view(table@)[j] == Seq::new(
            nn,
            |k: int| None::<TyV>,
        )[j] by {
            lemma_table_view_index(table@, j);
        }
        assert(table_view(table@) =~= Seq::new(nn, |k: int| None::<TyV>));
    }
    let ok = unify_ty(&a.value, &b.value, &mut table);
    if !ok {
        return None;
    }
    let mut out: Vec<Ty> = Vec::new();
    let mut j: usize = 0;
    while j < table.len()
        invariant
            j <= table@.len(),
            table@.len() <= u32::MAX,
            out@.len() == j,
            forall|k: int| 0 <= k < j ==> ty_view(#[trigger] out@[k]) == (match table@[k] {
                Some(t) => ty_view(t),
                None => TyV::Bound(k as u32),
            }),
        decreases table@.len() - j,
    {
        let e = match &table[j] {
            Some(t) => ty_clone(t),
            None => Ty::Bound(j as u32),
        };
        out.push(e);
        j = j + 1;
    }
    proof {
        lemma_tys_view_len(out@);
        lemma_table_view_len(table@);
        let ts = table_substs(table_view(table@));
        assert forall|k: int| 0 <= k < out@.len() implies tys_view(out@)[k] == ts[k] by {
            lemma_tys_view_index(out@, k);
            lemma_table_view_index(table@, k);
        }
        assert(tys_view(out@) =~= ts);
    }
    Some(Substs(out))
}

/// Replaces every variable of `t` from `keep` upward by the unknown type.
pub open spec fn fallback_tyv(t: TyV, keep: nat) -> TyV
    decreases t,
{
    match t {
        TyV::Apply(c, ps) => TyV::Apply(c, fallback_tyvs(ps, keep)),
        TyV::Bound(v) => if v >= keep {
            TyV::Unknown
        } else {
            TyV::Bound(v)
        },
        _ => t,
    }
}

/// [`fallback_tyv`], over each element of a list.
pub open spec fn fallback_tyvs(s: Seq<TyV>, keep: nat) -> Seq<TyV>
    decreases s,
{
    if s.len() == 0 {
        Seq::empty()
    } else {
        fallback_tyvs(s.drop_last(), keep).push(fallback_tyv(s.last(), keep))
    }
}

/// The fallback list is the list of the fallback elements.
pub proof fn lemma_fallback_tyvs_index(s: Seq<TyV>, keep: nat, i: int)
    requires
        0 <= i < s.len(),
    ensures
        fallback_tyvs(s, keep).len() == s.len(),
        fallback_tyvs(s, keep)[i] == fallback_tyv(s[i], keep),
    decreases s,
{
    lemma_fallback_tyvs_len(s, keep);
    if i < s.len() - 1 {
        lemma_fallback_tyvs_index(s.drop_last(), keep, i);
    }
}

/// The fallback list has the length of the original.
pub proof fn lemma_fallback_tyvs_len(s: Seq<TyV>, keep: nat)
    ensures
        fallback_tyvs(s, keep).len() == s.len(),
    decreases s,
{
    if s.len() > 0 {
        lemma_fallback_tyvs_len(s.drop_last(), keep);
    }
}

/// [`fallback_ty`], over each element of a list.
fn fallback_tys(s: &Vec<Ty>, keep: usize) -> (r: Vec<Ty>)
    ensures
        tys_view(r@) == fallback_tyvs(tys_view(s@), keep as nat),
    decreases s@,
{
    let mut r: Vec<Ty> = Vec::new();
    let mut i: usize = 0;
    while i < s.len()
        invariant
            i <= s@.len(),
            r@.len() == i,
            forall|j: int| 0 <= j < i ==> ty_view(#[trigger] r@[j]) == fallback_tyv(
                ty_view(s@[j]),
                keep as nat,
            ),
        decreases s@.len() - i,
    {
        let c = fallback_ty(&s[i], keep);
        r.push(c);
        i = i + 1;
    }
    proof {
        lemma_tys_view_len(r@);
        lemma_tys_view_len(s@);
        lemma_fallback_tyvs_len(tys_view(s@), keep as nat);
        assert forall|j: int| 0 <= j < r@.len() implies tys_view(r@)[j] == fallback_tyvs(
            tys_view(s@),
            keep as nat,
        )[j] by {
            lemma_tys_view_index(r@, j);
            lemma_tys_view_index(s@, j);
            lemma_fallback_tyvs_index(tys_view(s@), keep as nat, j);
        }
        assert(tys_view(r@) =~= fallback_tyvs(tys_view(s@), keep as nat));
    }
    r
}

/// Replaces every variable of `t` from `keep` upward by the unknown type.
fn fallback_ty(t: &Ty, keep: usize) -> (r: Ty)
    ensures
        r@ == fallback_tyv(t@, keep as nat),
    decreases *t,
{
    match t {
        Ty::Apply(a) => Ty::Apply(
            ApplicationTy {
                ctor: a.ctor,
                parameters: Substs(fallback_tys(&a.parameters.0, keep)),
            },
        ),
        Ty::Placeholder(i) => Ty::Placeholder(*i),
        Ty::Bound(v) => {
            if (*v as usize) >= keep {
                Ty::Unknown
            } else {
                Ty::Bound(*v)
            }
        },
        Ty::Dyn(tr) => Ty::Dyn(*tr),
        Ty::Unknown => Ty::Unknown,
    }
}

/// Replaces any 'free' bound variables in `s` (those with indices past
/// `num_vars_to_keep`) by the unknown type: where the receiver already held
/// the unknown type, a variable the unifier could not pin stands for it.
pub fn fallback_bound_vars(s: Substs, num_vars_to_keep: usize) -> (r: Substs)
    ensures
        r@ == fallback_tyvs(s@, num_vars_to_keep as nat),
{
    Substs(fallback_tys(&s.0, num_vars_to_keep))
}

/// What [`inherent_impl_substs`] yields: fresh variables for the impl's own
/// generic parameters (placed after the receiver's holes) are substituted
/// into the impl's declared self type, the result is unified against the
/// receiver, and the assignments of the fresh variables are kept — with any
/// still-unpinned one rewritten to the unknown type.
pub open spec fn spec_inherent_impl_substs(w: World, impl_id: ImplId, c: CanonicalV) -> Option<
    Seq<TyV>,
> {
    let imp = w.impls@[impl_id.0 as int];
    let np = imp.num_type_params as nat;
    let vars = Seq::new(np, |j: int| TyV::Bound((c.num_vars + j) as u32));
    let with_vars = subst_tyv(ty_view(imp.self_ty), vars);
    match spec_unify(CanonicalV { num_vars: c.num_vars + np, value: with_vars }, c) {
        Some(s) => Some(
            fallback_tyvs(
                s.subrange(c.num_vars as int, (c.num_vars + np) as int),
                c.num_vars,
            ),
        ),
        None => None,
    }
}

/// How the impl block `impl_id` specializes against the receiver `self_ty`:
/// the types its own generic parameters take, or nothing when the impl does
/// not apply.
pub fn inherent_impl_substs(w: &World, impl_id: ImplId, self_ty: &Canonical) -> (r: Option<Substs>)
    requires
        w.wf(),
        impl_id.0 < w.impls@.len(),
        self_ty.num_vars <= VAR_BOUND,
    ensures
        r is Some <==> spec_inherent_impl_substs(*w, impl_id, self_ty@) is Some,
        r is Some ==> r->0@ == spec_inherent_impl_substs(*w, impl_id, self_ty@)->0,
{
    let imp = &w.impls[impl_id.0 as usize];
    let np = imp.num_type_params as usize;
    let mut vars: Vec<Ty> = Vec::new();
    let mut j: usize = 0;
    while j < np
        invariant
            np <= VAR_BOUND,
            self_ty.num_vars <= VAR_BOUND,
            j <= np,
            vars@.len() == j,
            forall|k: int| 0 <= k < j ==> #[trigger] vars@[k] == Ty::Bound(
                (self_ty.num_vars + k) as u32,
            ),
        decreases np - j,
    {
        vars.push(Ty::Bound((self_ty.num_vars + j) as u32));
        j = j + 1;
    }
    proof {
        lemma_tys_view_len(vars@);
        let vs = Seq::new(np as nat, |k: int| TyV::Bound((self_ty@.num_vars + k) as u32));
        assert forall|k: int| 0 <= k < np implies tys_view(vars@)[k] == vs[k] by {
            lemma_tys_view_index(vars@, k);
        }
        assert(tys_view(vars@) =~= vs);
    }
    let vars_s = Substs(vars);
    let with_vars = subst_bound_vars(&imp.self_ty, &vars_s);
    let a = Canonical { num_vars: self_ty.num_vars + np, value: with_vars };
    match unify(&a, self_ty) {
        None => None,
        Some(substs) => {
            proof {
                assert(a@.num_vars >= self_ty@.num_vars);
                assert(substs@.len() == a@.num_vars) by {
                    let nn: nat = if a@.num_vars >= self_ty@.num_vars {
                        a@.num_vars
                    } else {
                        self_ty@.num_vars
                    };
                    assert(table_substs(
                        spec_unify_ty(
                            a@.value,
                            self_ty@.value,
                            Seq::new(nn, |i: int| None::<TyV>),
                        )->0,
                    ).len() == nn) by {
                        lemma_unify_table_len(
                            a@.value,
                            self_ty@.value,
                            Seq::new(nn, |i: int| None::<TyV>),
                        );
                    }
                }
                crate::ty::lemma_tys_view_len(substs.0@);
            }
            let mut suffix: Vec<Ty> = Vec::new();
            let mut k: usize = 0;
            while k < np
                invariant
                    self_ty.num_vars <= VAR_BOUND,
                    np <= VAR_BOUND,
                    self_ty.num_vars + np <= substs.0@.len(),
                    k <= np,
                    suffix@.len() == k,
                    forall|m: int| 0 <= m < k ==> ty_view(#[trigger] suffix@[m]) == ty_view(
                        substs.0@[self_ty.num_vars + m],
                    ),
                decreases np - k,
            {
                let c = ty_clone(&substs.0[self_ty.num_vars + k]);
                suffix.push(c);
                k = k + 1;
            }
            proof {
                lemma_tys_view_len(suffix@);
                lemma_tys_view_len(substs.0@);
                let sub = substs@.subrange(
                    self_ty@.num_vars as int,
                    (self_ty@.num_vars + np) as int,
                );
                assert forall|m: int| 0 <= m < np implies tys_view(suffix@)[m] == sub[m] by {
                    lemma_tys_view_index(suffix@, m);
                    lemma_tys_view_index(substs.0@, self_ty.num_vars + m);
                }
                assert(tys_view(suffix@) =~= sub);
            }
            Some(fallback_bound_vars(Substs(suffix), self_ty.num_vars))
        },
    }
}

/// A successful unification's table keeps its length.
proof fn lemma_unify_table_len(a: TyV, b: TyV, table: Seq<Option<TyV>>)
    requires
        spec_unify_ty(a, b, table) is Some,
    ensures
        spec_unify_ty(a, b, table)->0.len() == table.len(),
        table_substs(spec_unify_ty(a, b, table)->0).len() == table.len(),
    decreases a, 0int,
{
    match (a, b) {
        (TyV::Unknown, _) => {},
        (_, TyV::Unknown) => {},
        (TyV::Bound(v), _) => {
            lemma_unify_var_table_len(v, b, table);
        },
        (_, TyV::Bound(v)) => {
            lemma_unify_var_table_len(v, a, table);
        },
        (TyV::Apply(c1, ps1), TyV::Apply(c2, ps2)) => {
            lemma_unify_tys_table_len(ps1, ps2, table);
        },
        _ => {},
    }
}

/// [`lemma_unify_table_len`], for variables.
proof fn lemma_unify_var_table_len(v: u32, t: TyV, table: Seq<Option<TyV>>)
    requires
        spec_unify_var(v, t, table) is Some,
    ensures
        spec_unify_var(v, t, table)->0.len() == table.len(),
{
}

/// [`lemma_unify_table_len`], for lists.
proof fn lemma_unify_tys_table_len(a: Seq<TyV>, b: Seq<TyV>, table: Seq<Option<TyV>>)
    requires
        spec_unify_tys(a, b, table) is Some,
    ensures
        spec_unify_tys(a, b, table)->0.len() == table.len(),
    decreases a, 1int,
{
    if a.len() > 0 {
        lemma_unify_table_len(a[0], b[0], table);
        lemma_unify_tys_table_len(
            a.drop_first(),
            b.drop_first(),
            spec_unify_ty(a[0], b[0], table)->0,
        );
    }
}

/// What [`transform_receiver_ty`] yields for a function with a self
/// parameter: for a trait function, the trait's `Self` is the receiver and
/// every other trait parameter the unknown type; for a function of an impl
/// block, the impl's own substitution. The declared self-parameter type
/// under that substitution is the shape the receiver must take.
pub open spec fn spec_transform_receiver_ty(w: World, fid: FunctionId, c: CanonicalV) -> Option<
    TyV,
> {
    let f = w.functions@[fid.0 as int];
    if !f.has_self_param {
        None
    } else {
        match f.container {
            AssocContainerId::TraitId(t) => {
                let ntp = w.traits@[t.0 as int].num_type_params as nat;
                let substs = seq![c.value] + Seq::new((ntp - 1) as nat, |j: int| TyV::Unknown);
                Some(subst_tyv(ty_view(f.params@[0]), substs))
            },
            AssocContainerId::ImplId(i) => match spec_inherent_impl_substs(w, i, c) {
                Some(substs) => Some(subst_tyv(ty_view(f.params@[0]), substs)),
                None => None,
            },
        }
    }
}

/// The receiver type a call of `function_id` on `self_ty` would have, or
/// nothing when the function has no self parameter or its impl block does
/// not apply.
pub fn transform_receiver_ty(w: &World, function_id: FunctionId, self_ty: &Canonical) -> (r:
    Option<Ty>)
    requires
        w.wf(),
        function_id.0 < w.functions@.len(),
        self_ty.num_vars <= VAR_BOUND,
    ensures
        r is Some <==> spec_transform_receiver_ty(*w, function_id, self_ty@) is Some,
        r is Some ==> r->0@ == spec_transform_receiver_ty(*w, function_id, self_ty@)->0,
{
    let f = &w.functions[function_id.0 as usize];
    if !f.has_self_param {
        return None;
    }
    let substs: Substs = match f.container {
        AssocContainerId::TraitId(t) => {
            let ntp = w.traits[t.0 as usize].num_type_params as usize;
            let mut v: Vec<Ty> = Vec::new();
            v.push(ty_clone(&self_ty.value));
            let mut j: usize = 1;
            while j < ntp
                invariant
                    1 <= j <= ntp || (ntp == 0 && j == 1),
                    v@.len() == j,
                    ty_view(v@[0]) == self_ty@.value,
                    forall|k: int| 1 <= k < j ==> #[trigger] v@[k] == Ty::Unknown,
                decreases ntp - j,
            {
                v.push(Ty::Unknown);
                j = j + 1;
            }
            proof {
                lemma_tys_view_len(v@);
                let ntpn = w.traits@[f.container->TraitId_0.0 as int].num_type_params as nat;
                let model = seq![self_ty@.value] + Seq::new(
                    (ntpn - 1) as nat,
                    |j: int| TyV::Unknown,
                );
                assert(ntpn >= 1);
                assert(v@.len() == ntpn);
                assert forall|k: int| 0 <= k < v@.len() implies tys_view(v@)[k] == model[k] by {
                    lemma_tys_view_index(v@, k);
                }
                assert(tys_view(v@) =~= model);
            }
            Substs(v)
        },
        AssocContainerId::ImplId(i) => {
            match inherent_impl_substs(w, i, self_ty) {
                Some(s) => s,
                None => {
                    return None;
                },
            }
        },
    };
    Some(subst_bound_vars(&f.params[0], &substs))
}

} // verus!
