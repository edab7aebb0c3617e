//! The ordered sequence of types a method receiver reaches by dereferencing,
//! with the one trailing array-to-slice widening step.
//!
//! A built-in step peels one reference; an overloaded step follows a
//! recorded [`crate::db::DerefStep`] edge of the store — the store holds
//! what the dereference-coercion generator produced for the ambient
//! environment. The chain starts at the receiver and stops when no step
//! applies or when the step limit is reached.

use vstd::prelude::*;

use crate::db::World;
use crate::ty::{
    ty_clone, ty_eq, ty_view, ApplicationTy, Canonical, CanonicalV, Substs, Ty, TyV, TypeCtor,
};

verus! {

/// How many dereference steps a chain may take at most.
pub const AUTODEREF_LIMIT: usize = 10;

/// The first recorded overloaded-dereference target for a value, if any.
pub open spec fn spec_deref_edge(w: World, v: TyV) -> Option<TyV>
    decreases w.deref_steps@.len(),
{
    spec_deref_edge_from(w.deref_steps@, v)
}

/// [`spec_deref_edge`], over a list of recorded steps.
pub open spec fn spec_deref_edge_from(steps: Seq<crate::db::DerefStep>, v: TyV) -> Option<TyV>
    decreases steps.len(),
{
    if steps.len() == 0 {
        None
    } else if ty_view(steps[0].from) == v {
        Some(ty_view(steps[0].to))
    } else {
        spec_deref_edge_from(steps.drop_first(), v)
    }
}

/// One dereference step: a reference peels to its referent, anything else
/// follows the recorded overloaded edges.
pub open spec fn spec_deref_step(w: World, c: CanonicalV) -> Option<CanonicalV> {
    match c.value {
        TyV::Apply(TypeCtor::Ref(_), ps) => if ps.len() == 1 {
            Some(CanonicalV { num_vars: c.num_vars, value: ps[0] })
        } else {
            None
        },
        _ => match spec_deref_edge(w, c.value) {
            Some(t) => Some(CanonicalV { num_vars: c.num_vars, value: t }),
            None => None,
        },
    }
}

/// The deref chain from `c`, at most `fuel + 1` entries long.
pub open spec fn spec_deref_chain(w: World, c: CanonicalV, fuel: nat) -> Seq<CanonicalV>
    decreases fuel,
{
    match spec_deref_step(w, c) {
        Some(n) => if fuel > 0 {
            seq![c] + spec_deref_chain(w, n, (fuel - 1) as nat)
        } else {
            seq![c]
        },
        None => seq![c],
    }
}

/// The deref chain of a method receiver: the plain chain, and one extra
/// slice entry when the chain ends at a fixed-length array — the only
/// unsizing step the language applies to receivers.
pub open spec fn spec_method_receiver_chain(w: World, c: CanonicalV) -> Seq<CanonicalV> {
    let chain = spec_deref_chain(w, c, AUTODEREF_LIMIT as nat);
    match chain.last().value {
        TyV::Apply(TypeCtor::Array, ps) => chain.push(
            CanonicalV { num_vars: chain.last().num_vars, value: TyV::Apply(TypeCtor::Slice, ps) },
        ),
        _ => chain,
    }
}

/// Takes one dereference step, if one applies.
fn deref_step(w: &World, c: &Canonical) -> (r: Option<Canonical>)
    ensures
        r is Some <==> spec_deref_step(*w, c@) is Some,
        r is Some ==> r->0@ == spec_deref_step(*w, c@)->0,
{
    let is_ref = match &c.value {
        Ty::Apply(a) => match a.ctor {
            TypeCtor::Ref(_) => true,
            _ => false,
        },
        _ => false,
    };
    if is_ref {
        match &c.value {
            Ty::Apply(a) => {
                proof {
                    crate::ty::lemma_tys_view_len(a.parameters.0@);
                }
                if a.parameters.0.len() == 1 {
                    proof {
                        crate::ty::lemma_tys_view_index(a.parameters.0@, 0);
                    }
                    Some(Canonical { num_vars: c.num_vars, value: ty_clone(&a.parameters.0[0]) })
                } else {
                    None
                }
            },
            _ => None,
        }
    } else {
        let mut i: usize = 0;
        proof {
            assert(w.deref_steps@.skip(0) =~= w.deref_steps@);
        }
        while i < w.deref_steps.len()
            invariant
                i <= w.deref_steps@.len(),
                spec_deref_edge_from(w.deref_steps@.skip(i as int), c@.value) == spec_deref_edge(
                    *w,
                    c@.value,
                ),
                !(c@.value matches TyV::Apply(TypeCtor::Ref(_), _)),
            decreases w.deref_steps@.len() - i,
        {
            proof {
                assert(w.deref_steps@.skip(i as int)[0] == w.deref_steps@[i as int]);
                assert(w.deref_steps@.skip(i as int).drop_first() =~= w.deref_steps@.skip(
                    i as int + 1,
                ));
            }
            if ty_eq(&w.deref_steps[i].from, &c.value) {
                return Some(
                    Canonical { num_vars: c.num_vars, value: ty_clone(&w.deref_steps[i].to) },
                );
            }
            i = i + 1;
        }
        None
    }
}

/// Builds the deref chain of a method receiver, the receiver first,
/// shallower entries before deeper ones, slice widening last.
pub fn autoderef_method_receiver(w: &World, ty: &Canonical) -> (r: Vec<Canonical>)
    ensures
        r@.len() >= 1,
        cans_view(r@) == spec_method_receiver_chain(*w, ty@),
{
    let mut chain: Vec<Canonical> = Vec::new();
    let mut cur = ty.clone();
    let mut fuel: usize = AUTODEREF_LIMIT;
    proof {
        assert(cans_view(chain@) + spec_deref_chain(*w, cur@, AUTODEREF_LIMIT as nat)
            =~= spec_deref_chain(*w, ty@, AUTODEREF_LIMIT as nat));
    }
    loop
        invariant_except_break
            fuel <= AUTODEREF_LIMIT,
            cans_view(chain@) + spec_deref_chain(*w, cur@, fuel as nat) == spec_deref_chain(
                *w,
                ty@,
                AUTODEREF_LIMIT as nat,
            ),
        ensures
            cans_view(chain@) == spec_deref_chain(*w, ty@, AUTODEREF_LIMIT as nat),
        decreases fuel,
    {
        let ghost prec = chain@;
        let ghost pre = cans_view(chain@);
        let ghost cur0 = cur@;
        let next = deref_step(w, &cur);
        match next {
            Some(n) => {
                if fuel == 0 {
                    chain.push(cur);
                    proof {
                        assert(chain@.drop_last() =~= prec);
                        lemma_cans_view_push(pre, chain@, cur0);
                        assert(spec_deref_chain(*w, cur0, 0) =~= seq![cur0]);
                        assert(pre + seq![cur0] =~= cans_view(chain@));
                    }
                    break;
                }
                chain.push(cur);
                cur = n;
                fuel = fuel - 1;
                proof {
                    assert(chain@.drop_last() =~= prec);
                    lemma_cans_view_push(pre, chain@, cur0);
                    assert(spec_deref_chain(*w, cur0, (fuel + 1) as nat) == seq![cur0]
                        + spec_deref_chain(*w, cur@, fuel as nat));
                    assert(pre + (seq![cur0] + spec_deref_chain(*w, cur@, fuel as nat)) =~= (pre
                        + seq![cur0]) + spec_deref_chain(*w, cur@, fuel as nat));
                }
            },
            None => {
                chain.push(cur);
                proof {
                    assert(chain@.drop_last() =~= prec);
                    lemma_cans_view_push(pre, chain@, cur0);
                    assert(spec_deref_chain(*w, cur0, fuel as nat) =~= seq![cur0]);
                    assert(pre + seq![cur0] =~= cans_view(chain@));
                }
                break;
            },
        }
    }
    proof {
        lemma_chain_nonempty(*w, ty@, AUTODEREF_LIMIT as nat);
        lemma_cans_view_len(chain@);
    }
    let last_idx = chain.len() - 1;
    let push_slice = match &chain[last_idx].value {
        Ty::Apply(a) => match a.ctor {
            TypeCtor::Array => true,
            _ => false,
        },
        _ => false,
    };
    proof {
        lemma_cans_view_index(chain@, last_idx as int);
        assert(cans_view(chain@).last() == chain@[last_idx as int]@);
    }
    if push_slice {
        let ghost pre = cans_view(chain@);
        let (nv, params) = match &chain[last_idx].value {
            Ty::Apply(a) => (chain[last_idx].num_vars, crate::ty::tys_clone(&a.parameters.0)),
            _ => (0usize, Vec::new()),
        };
        let widened = Canonical {
            num_vars: nv,
            value: Ty::Apply(ApplicationTy { ctor: TypeCtor::Slice, parameters: Substs(params) }),
        };
        let ghost prec2 = chain@;
        let ghost wv = widened@;
        chain.push(widened);
        proof {
            assert(chain@.drop_last() =~= prec2);
            lemma_cans_view_push(pre, chain@, wv);
        }
    }
    chain
}

/// The values of a list of canonicalized types.
pub open spec fn cans_view(s: Seq<Canonical>) -> Seq<CanonicalV>
    decreases s,
{
    if s.len() == 0 {
        Seq::empty()
    } else {
        cans_view(s.drop_last()).push(s.last()@)
    }
}

/// The value list is the list of the values.
pub proof fn lemma_cans_view_index(s: Seq<Canonical>, i: int)
    requires
        0 <= i < s.len(),
    ensures
        cans_view(s).len() == s.len(),
        cans_view(s)[i] == s[i]@,
    decreases s,
{
    lemma_cans_view_len(s);
    if i < s.len() - 1 {
        lemma_cans_view_index(s.drop_last(), i);
    }
}

/// The value list has the length of the original.
pub proof fn lemma_cans_view_len(s: Seq<Canonical>)
    ensures
        cans_view(s).len() == s.len(),
    decreases s,
{
    if s.len() > 0 {
        lemma_cans_view_len(s.drop_last());
    }
}

/// Pushing one canonicalized type extends the value list by its value.
proof fn lemma_cans_view_push(pre: Seq<CanonicalV>, s: Seq<Canonical>, v: CanonicalV)
    requires
        s.len() >= 1,
        cans_view(s.drop_last()) == pre,
        s.last()@ == v,
    ensures
        cans_view(s) == pre.push(v),
{
}

/// A deref chain always holds at least its starting point.
proof fn lemma_chain_nonempty(w: World, c: CanonicalV, fuel: nat)
    ensures
        spec_deref_chain(w, c, fuel).len() >= 1,
        spec_deref_chain(w, c, fuel)[0] == c,
    decreases fuel,
{
}

/// A found overloaded-dereference target is well-formed when every recorded
/// target is.
proof fn lemma_deref_edge_wf(w: World, steps: Seq<crate::db::DerefStep>, v: TyV)
    requires
        forall|d: int| 0 <= d < steps.len() ==> crate::db::ty_wf_v(
            w,
            ty_view((#[trigger] steps[d]).to),
        ),
        spec_deref_edge_from(steps, v) is Some,
    ensures
        crate::db::ty_wf_v(w, spec_deref_edge_from(steps, v)->0),
    decreases steps.len(),
{
    if steps.len() > 0 && ty_view(steps[0].from) != v {
        assert(forall|d: int|
            0 <= d < steps.drop_first().len() ==> (#[trigger] steps.drop_first()[d]) == steps[d
                + 1]);
        lemma_deref_edge_wf(w, steps.drop_first(), v);
    }
}

/// One dereference step preserves well-formedness and the hole count.
pub proof fn lemma_deref_step_wf(w: World, c: CanonicalV)
    requires
        w.wf(),
        crate::db::ty_wf_v(w, c.value),
        spec_deref_step(w, c) is Some,
    ensures
        crate::db::ty_wf_v(w, spec_deref_step(w, c)->0.value),
        spec_deref_step(w, c)->0.num_vars == c.num_vars,
{
    match c.value {
        TyV::Apply(TypeCtor::Ref(_), ps) => {
            assert(crate::db::tys_wf_v(w, ps));
            assert(crate::db::ty_wf_v(w, ps[0]));
        },
        _ => {
            assert forall|d: int| 0 <= d < w.deref_steps@.len() implies crate::db::ty_wf_v(
                w,
                ty_view((#[trigger] w.deref_steps@[d]).to),
            ) by {
                assert(crate::db::ty_wf(w, w.deref_steps@[d].to));
            }
            lemma_deref_edge_wf(w, w.deref_steps@, c.value);
        },
    }
}

/// Every entry of a deref chain is well-formed and keeps the hole count.
pub proof fn lemma_chain_wf(w: World, c: CanonicalV, fuel: nat)
    requires
        w.wf(),
        crate::db::ty_wf_v(w, c.value),
    ensures
        forall|i: int| 0 <= i < spec_deref_chain(w, c, fuel).len() ==> crate::db::ty_wf_v(
            w,
            (#[trigger] spec_deref_chain(w, c, fuel)[i]).value,
        ) && spec_deref_chain(w, c, fuel)[i].num_vars == c.num_vars,
    decreases fuel,
{
    let chain = spec_deref_chain(w, c, fuel);
    match spec_deref_step(w, c) {
        Some(n) => {
            if fuel > 0 {
                lemma_deref_step_wf(w, c);
                lemma_chain_wf(w, n, (fuel - 1) as nat);
                let rest = spec_deref_chain(w, n, (fuel - 1) as nat);
                assert forall|i: int| 0 <= i < chain.len() implies crate::db::ty_wf_v(
                    w,
                    (#[trigger] chain[i]).value,
                ) && chain[i].num_vars == c.num_vars by {
                    if i == 0 {
                        assert(chain[0] == c);
                    } else {
                        assert(chain[i] == rest[i - 1]);
                    }
                }
            }
        },
        None => {},
    }
}

/// Every entry of a method receiver's chain is well-formed and keeps the
/// receiver's hole count.
pub proof fn lemma_method_chain_wf(w: World, c: CanonicalV)
    requires
        w.wf(),
        crate::db::ty_wf_v(w, c.value),
    ensures
        spec_method_receiver_chain(w, c).len() >= 1,
        forall|i: int| 0 <= i < spec_method_receiver_chain(w, c).len() ==> crate::db::ty_wf_v(
            w,
            (#[trigger] spec_method_receiver_chain(w, c)[i]).value,
        ) && spec_method_receiver_chain(w, c)[i].num_vars == c.num_vars,
{
    let plain = spec_deref_chain(w, c, AUTODEREF_LIMIT as nat);
    lemma_chain_nonempty(w, c, AUTODEREF_LIMIT as nat);
    lemma_chain_wf(w, c, AUTODEREF_LIMIT as nat);
    let chain = spec_method_receiver_chain(w, c);
    match plain.last().value {
        TyV::Apply(TypeCtor::Array, ps) => {
            assert(crate::db::ty_wf_v(w, plain.last().value));
            assert(crate::db::tys_wf_v(w, ps));
            assert(plain.last() == plain[plain.len() - 1]);
            assert forall|i: int| 0 <= i < chain.len() implies crate::db::ty_wf_v(
                w,
                (#[trigger] chain[i]).value,
            ) && chain[i].num_vars == c.num_vars by {
                if i < plain.len() {
                    assert(chain[i] == plain[i]);
                } else {
                    assert(chain[i].value == TyV::Apply(TypeCtor::Slice, ps));
                }
            }
        },
        _ => {},
    }
}

} // verus!
