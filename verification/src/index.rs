//! The per-crate catalog of impl blocks, keyed by fingerprint and trait, and
//! its transitive-dependency merge.
//!
//! A catalog holds two association tables: inherent impls bucketed by the
//! fingerprint of their self type, and trait impls bucketed first by trait,
//! then by the optional fingerprint of their self type — the `None` bucket
//! holds blanket impls, whose self type has no fingerprint. Keys are unique;
//! buckets keep insertion order when built, and become strictly sorted and
//! duplicate-free when catalogs are merged.

use vstd::prelude::*;

use crate::db::World;
use crate::ids::{CrateId, ImplId, TraitId};
use crate::ty::{spec_fingerprint, Ty, TyFingerprint};

verus! {

/// The inherent impls for fingerprint `fp` among the first `n` impl ids that
/// crate `k` declares, in id order.
pub open spec fn crate_inherent_upto(w: World, k: CrateId, fp: TyFingerprint, n: nat) -> Seq<
    ImplId,
>
    decreases n,
{
    if n == 0 {
        Seq::empty()
    } else {
        let prev = crate_inherent_upto(w, k, fp, (n - 1) as nat);
        let im = w.impls@[n - 1];
        if im.krate == k && im.trait_ is None && spec_fingerprint(im.self_ty) == Some(fp) {
            prev.push(ImplId((n - 1) as u32))
        } else {
            prev
        }
    }
}

/// The impls of trait `tr` with self-type fingerprint `ofp` among the first
/// `n` impl ids that crate `k` declares, in id order.
pub open spec fn crate_trait_upto(
    w: World,
    k: CrateId,
    tr: TraitId,
    ofp: Option<TyFingerprint>,
    n: nat,
) -> Seq<ImplId>
    decreases n,
{
    if n == 0 {
        Seq::empty()
    } else {
        let prev = crate_trait_upto(w, k, tr, ofp, (n - 1) as nat);
        let im = w.impls@[n - 1];
        if im.krate == k && im.trait_ == Some(tr) && spec_fingerprint(im.self_ty) == ofp {
            prev.push(ImplId((n - 1) as u32))
        } else {
            prev
        }
    }
}

/// The inherent impls crate `k` declares for fingerprint `fp`, in id order.
pub open spec fn crate_inherent_impls(w: World, k: CrateId, fp: TyFingerprint) -> Seq<ImplId> {
    crate_inherent_upto(w, k, fp, w.impls@.len())
}

/// The impls of `tr` with fingerprint `ofp` that crate `k` declares.
pub open spec fn crate_trait_impls(
    w: World,
    k: CrateId,
    tr: TraitId,
    ofp: Option<TyFingerprint>,
) -> Seq<ImplId> {
    crate_trait_upto(w, k, tr, ofp, w.impls@.len())
}

/// Looks `k` up in an association list: the first value stored under `k`.
pub open spec fn assoc_get<K, V>(s: Seq<(K, V)>, k: K) -> Option<V>
    decreases s.len(),
{
    if s.len() == 0 {
        None
    } else if s[0].0 == k {
        Some(s[0].1)
    } else {
        assoc_get(s.drop_first(), k)
    }
}

/// Whether an association list has an entry under `k`.
pub open spec fn assoc_has<K, V>(s: Seq<(K, V)>, k: K) -> bool {
    exists|i: int| 0 <= i < s.len() && (#[trigger] s[i]).0 == k
}

/// Whether the keys of an association list are pairwise distinct.
pub open spec fn keys_unique<K, V>(s: Seq<(K, V)>) -> bool {
    forall|i: int, j: int| 0 <= i < j < s.len() ==> (#[trigger] s[i]).0 != (#[trigger] s[j]).0
}

/// With distinct keys, the entry at `i` is what lookup under its key finds.
pub proof fn lemma_assoc_get_at<K, V>(s: Seq<(K, V)>, i: int)
    requires
        keys_unique(s),
        0 <= i < s.len(),
    ensures
        assoc_get(s, s[i].0) == Some(s[i].1),
    decreases s.len(),
{
    if i > 0 {
        assert(s[0].0 != s[i].0);
        assert(s.drop_first()[i - 1] == s[i]);
        assert(keys_unique(s.drop_first())) by {
            assert(forall|x: int, y: int|
                0 <= x < y < s.drop_first().len() ==> s.drop_first()[x] == s[x + 1]
                    && s.drop_first()[y] == s[y + 1]);
        }
        lemma_assoc_get_at(s.drop_first(), i - 1);
    }
}

/// Lookup of an absent key finds nothing.
pub proof fn lemma_assoc_get_absent<K, V>(s: Seq<(K, V)>, k: K)
    requires
        !assoc_has(s, k),
    ensures
        assoc_get(s, k) is None,
    decreases s.len(),
{
    if s.len() > 0 {
        assert(s[0].0 != k);
        assert(forall|i: int|
            0 <= i < s.drop_first().len() ==> (#[trigger] s.drop_first()[i]) == s[i + 1]);
        lemma_assoc_get_absent(s.drop_first(), k);
    }
}

/// Replacing the value stored at `i` changes lookup under that entry's key
/// and no other.
pub proof fn lemma_assoc_get_update<K, V>(s: Seq<(K, V)>, i: int, v: V, k: K)
    requires
        keys_unique(s),
        0 <= i < s.len(),
    ensures
        keys_unique(s.update(i, (s[i].0, v))),
        assoc_get(s.update(i, (s[i].0, v)), k) == (if k == s[i].0 {
            Some(v)
        } else {
            assoc_get(s, k)
        }),
{
    let t = s.update(i, (s[i].0, v));
    assert(keys_unique(t)) by {
        assert(forall|x: int| 0 <= x < s.len() ==> (#[trigger] t[x]).0 == s[x].0);
    }
    if k == s[i].0 {
        lemma_assoc_get_at(t, i);
    } else {
        if assoc_has(s, k) {
            let j = choose|j: int| 0 <= j < s.len() && (#[trigger] s[j]).0 == k;
            lemma_assoc_get_at(s, j);
            lemma_assoc_get_at(t, j);
        } else {
            lemma_assoc_get_absent(s, k);
            assert(!assoc_has(t, k)) by {
                assert(forall|x: int| 0 <= x < s.len() ==> (#[trigger] t[x]).0 == s[x].0);
            }
            lemma_assoc_get_absent(t, k);
        }
    }
}

/// Appending an entry with a fresh key changes lookup under that key and no
/// other.
pub proof fn lemma_assoc_get_push<K, V>(s: Seq<(K, V)>, nk: K, v: V, k: K)
    requires
        keys_unique(s),
        !assoc_has(s, nk),
    ensures
        keys_unique(s.push((nk, v))),
        assoc_get(s.push((nk, v)), k) == (if k == nk {
            Some(v)
        } else {
            assoc_get(s, k)
        }),
{
    let t = s.push((nk, v));
    assert(forall|x: int| 0 <= x < s.len() ==> (#[trigger] t[x]) == s[x]);
    assert(t[s.len() as int].0 == nk);
    assert(keys_unique(t));
    lemma_assoc_get_at(t, s.len() as int);
    if k != nk {
        if assoc_has(s, k) {
            let j = choose|j: int| 0 <= j < s.len() && (#[trigger] s[j]).0 == k;
            lemma_assoc_get_at(s, j);
            lemma_assoc_get_at(t, j);
        } else {
            lemma_assoc_get_absent(s, k);
            assert(!assoc_has(t, k));
            lemma_assoc_get_absent(t, k);
        }
    }
}

/// The bucket an association list stores under `k`; empty when absent.
pub open spec fn bucket_of<K>(s: Seq<(K, Vec<ImplId>)>, k: K) -> Seq<ImplId> {
    match assoc_get(s, k) {
        Some(v) => v@,
        None => Seq::empty(),
    }
}

/// All ids of a one-level table, bucket after bucket, in table order.
pub open spec fn flatten_buckets<K>(s: Seq<(K, Vec<ImplId>)>) -> Seq<ImplId>
    decreases s.len(),
{
    if s.len() == 0 {
        Seq::empty()
    } else {
        flatten_buckets(s.drop_last()) + s.last().1@
    }
}

/// All ids of a two-level table, trait after trait, in table order.
pub open spec fn flatten_tables(
    s: Seq<(TraitId, Vec<(Option<TyFingerprint>, Vec<ImplId>)>)>,
) -> Seq<ImplId>
    decreases s.len(),
{
    if s.len() == 0 {
        Seq::empty()
    } else {
        flatten_tables(s.drop_last()) + flatten_buckets(s.last().1@)
    }
}

/// Appends a copy of every id of `src` to `dst`.
fn copy_ids(dst: &mut Vec<ImplId>, src: &Vec<ImplId>)
    ensures
        final(dst)@ == old(dst)@ + src@,
{
    let mut i: usize = 0;
    proof {
        assert(old(dst)@ + src@.take(0) =~= old(dst)@);
    }
    while i < src.len()
        invariant
            i <= src@.len(),
            dst@ == old(dst)@ + src@.take(i as int),
        decreases src@.len() - i,
    {
        dst.push(src[i]);
        proof {
            assert(old(dst)@ + src@.take(i as int + 1) =~= (old(dst)@ + src@.take(i as int)).push(
                src@[i as int],
            ));
        }
        i = i + 1;
    }
    proof {
        assert(old(dst)@ + src@.take(src@.len() as int) =~= old(dst)@ + src@);
    }
}

/// Whether a bucket is strictly sorted by impl id — sorted and free of
/// duplicates at once.
pub open spec fn strictly_sorted(s: Seq<ImplId>) -> bool {
    forall|i: int, j: int| 0 <= i < j < s.len() ==> (#[trigger] s[i]).0 < (#[trigger] s[j]).0
}

/// Inserting `x` between the elements below it and the elements above it
/// keeps a bucket strictly sorted and adds exactly `x` to its members.
proof fn lemma_sorted_insert_mid(s: Seq<ImplId>, x: ImplId, i: int)
    requires
        strictly_sorted(s),
        0 <= i <= s.len(),
        forall|j: int| 0 <= j < i ==> (#[trigger] s[j]).0 < x.0,
        forall|j: int| i <= j < s.len() ==> (#[trigger] s[j]).0 > x.0,
    ensures
        strictly_sorted(s.insert(i, x)),
        forall|y: ImplId| s.insert(i, x).contains(y) <==> s.contains(y) || y == x,
{
    let t = s.insert(i, x);
    assert(t.len() == s.len() + 1);
    assert(forall|k: int| 0 <= k < i ==> t[k] == s[k]);
    assert(t[i] == x);
    assert(forall|k: int| i < k < t.len() ==> t[k] == s[k - 1]);
    assert forall|y: ImplId| t.contains(y) <==> s.contains(y) || y == x by {
        if s.contains(y) {
            let k = choose|k: int| 0 <= k < s.len() && s[k] == y;
            if k < i {
                assert(t[k] == y);
            } else {
                assert(t[k + 1] == y);
            }
            assert(t.contains(y));
        }
        if y == x {
            assert(t[i] == y);
            assert(t.contains(y));
        }
        if t.contains(y) {
            let k = choose|k: int| 0 <= k < t.len() && t[k] == y;
            if k < i {
                assert(s[k] == y);
                assert(s.contains(y));
            } else if k == i {
                assert(y == x);
            } else {
                assert(s[k - 1] == y);
                assert(s.contains(y));
            }
        }
    }
}

/// Inserts `x` into a strictly sorted bucket, keeping it strictly sorted;
/// nothing happens when `x` is already there.
fn sorted_insert(v: &mut Vec<ImplId>, x: ImplId)
    requires
        strictly_sorted(old(v)@),
    ensures
        strictly_sorted(final(v)@),
        forall|y: ImplId| final(v)@.contains(y) <==> old(v)@.contains(y) || y == x,
{
    let mut i: usize = 0;
    while i < v.len() && v[i].0 < x.0
        invariant
            i <= v@.len(),
            forall|j: int| 0 <= j < i ==> (#[trigger] v@[j]).0 < x.0,
        decreases v@.len() - i,
    {
        i = i + 1;
    }
    if i < v.len() && v[i].0 == x.0 {
        proof {
            assert(v@[i as int] == x);
            assert(v@.contains(x));
        }
    } else {
        proof {
            assert forall|j: int| i <= j < v@.len() implies (#[trigger] v@[j]).0 > x.0 by {
                if j > i {
                    assert(v@[i as int].0 < v@[j].0);
                }
            }
            lemma_sorted_insert_mid(v@, x, i as int);
        }
        v.insert(i, x);
    }
    proof {
        assert forall|y: ImplId| v@.contains(y) <==> old(v)@.contains(y) || y == x by {
            assert(v@.contains(y) ==> old(v)@.contains(y) || y == x);
            assert(old(v)@.contains(y) ==> v@.contains(y));
            assert(y == x ==> v@.contains(y));
        }
    }
}

/// The strictly sorted bucket whose members are those of `a` and `b`
/// together: what extending, sorting and deduplicating yields.
fn sort_dedup_merge(a: &Vec<ImplId>, b: &Vec<ImplId>) -> (r: Vec<ImplId>)
    ensures
        strictly_sorted(r@),
        forall|y: ImplId| r@.contains(y) <==> a@.contains(y) || b@.contains(y),
{
    let mut r: Vec<ImplId> = Vec::new();
    let mut i: usize = 0;
    while i < a.len()
        invariant
            i <= a@.len(),
            strictly_sorted(r@),
            forall|y: ImplId| r@.contains(y) <==> a@.take(i as int).contains(y),
        decreases a@.len() - i,
    {
        sorted_insert(&mut r, a[i]);
        proof {
            assert(a@.take(i as int + 1) =~= a@.take(i as int).push(a@[i as int]));
            assert forall|y: ImplId| r@.contains(y) <==> a@.take(i as int + 1).contains(y) by {
                if a@.take(i as int + 1).contains(y) {
                    let k = choose|k: int|
                        0 <= k < i + 1 && #[trigger] a@.take(i as int + 1)[k] == y;
                    if k < i {
                        assert(a@.take(i as int)[k] == y);
                    }
                }
                if a@.take(i as int).contains(y) {
                    let k = choose|k: int| 0 <= k < i && #[trigger] a@.take(i as int)[k] == y;
                    assert(a@.take(i as int + 1)[k] == y);
                }
                if y == a@[i as int] {
                    assert(a@.take(i as int + 1)[i as int] == y);
                }
            }
        }
        i = i + 1;
    }
    proof {
        assert(a@.take(a@.len() as int) =~= a@);
    }
    let mut j: usize = 0;
    while j < b.len()
        invariant
            j <= b@.len(),
            strictly_sorted(r@),
            forall|y: ImplId| r@.contains(y) <==> a@.contains(y) || b@.take(j as int).contains(y),
        decreases b@.len() - j,
    {
        sorted_insert(&mut r, b[j]);
        proof {
            assert(b@.take(j as int + 1) =~= b@.take(j as int).push(b@[j as int]));
            assert forall|y: ImplId| b@.take(j as int + 1).contains(y) <==> b@.take(
                j as int,
            ).contains(y) || y == b@[j as int] by {
                if b@.take(j as int + 1).contains(y) {
                    let k = choose|k: int|
                        0 <= k < j + 1 && #[trigger] b@.take(j as int + 1)[k] == y;
                    if k < j {
                        assert(b@.take(j as int)[k] == y);
                    }
                }
                if b@.take(j as int).contains(y) {
                    let k = choose|k: int| 0 <= k < j && #[trigger] b@.take(j as int)[k] == y;
                    assert(b@.take(j as int + 1)[k] == y);
                }
                if y == b@[j as int] {
                    assert(b@.take(j as int + 1)[j as int] == y);
                }
            }
        }
        j = j + 1;
    }
    proof {
        assert(b@.take(b@.len() as int) =~= b@);
    }
    r
}

/// Structural equality of two optional fingerprints.
fn opt_fp_eq(a: &Option<TyFingerprint>, b: &Option<TyFingerprint>) -> (r: bool)
    ensures
        r == (a == b),
{
    match (a, b) {
        (Some(x), Some(y)) => x == y,
        (None, None) => true,
        _ => false,
    }
}

/// Appends `id` to the inherent bucket under `fp`, creating the bucket when
/// it is missing. Every other bucket stays as it is.
fn inherent_push(v: &mut Vec<(TyFingerprint, Vec<ImplId>)>, fp: TyFingerprint, id: ImplId)
    requires
        keys_unique(old(v)@),
    ensures
        keys_unique(final(v)@),
        forall|k: TyFingerprint| #[trigger] bucket_of(final(v)@, k) == (if k == fp {
            bucket_of(old(v)@, k).push(id)
        } else {
            bucket_of(old(v)@, k)
        }),
{
    let mut i: usize = 0;
    while i < v.len() && v[i].0 != fp
        invariant
            i <= v@.len(),
            forall|j: int| 0 <= j < i ==> (#[trigger] v@[j]).0 != fp,
        decreases v@.len() - i,
    {
        i = i + 1;
    }
    if i < v.len() {
        {
            let entry = &mut v[i];
            entry.1.push(id);
            proof {
                lemma_assoc_get_at(old(v)@, i as int);
                assert forall|k: TyFingerprint| #[trigger] bucket_of(v@, k) == (if k == fp {
                    bucket_of(old(v)@, k).push(id)
                } else {
                    bucket_of(old(v)@, k)
                }) by {
                    lemma_assoc_get_update(old(v)@, i as int, v@[i as int].1, k);
                }
            }
        }
    } else {
        {
            proof {
                assert(!assoc_has(v@, fp));
            }
            let mut bucket: Vec<ImplId> = Vec::new();
            bucket.push(id);
            let ghost pre = v@;
            v.push((fp, bucket));
            proof {
                assert forall|k: TyFingerprint| #[trigger] bucket_of(v@, k) == (if k == fp {
                    bucket_of(pre, k).push(id)
                } else {
                    bucket_of(pre, k)
                }) by {
                    lemma_assoc_get_push(pre, fp, bucket, k);
                    if k == fp {
                        lemma_assoc_get_absent(pre, fp);
                        assert(bucket_of(pre, k) =~= Seq::<ImplId>::empty());
                        assert(bucket@ =~= bucket_of(pre, k).push(id));
                    }
                }
            }
        }
    }
}

/// Appends `id` to the bucket under `fp` of one trait's table.
fn trait_inner_push(
    v: &mut Vec<(Option<TyFingerprint>, Vec<ImplId>)>,
    fp: Option<TyFingerprint>,
    id: ImplId,
)
    requires
        keys_unique(old(v)@),
    ensures
        keys_unique(final(v)@),
        forall|k: Option<TyFingerprint>| #[trigger] bucket_of(final(v)@, k) == (if k == fp {
            bucket_of(old(v)@, k).push(id)
        } else {
            bucket_of(old(v)@, k)
        }),
{
    let mut i: usize = 0;
    while i < v.len() && !opt_fp_eq(&v[i].0, &fp)
        invariant
            i <= v@.len(),
            forall|j: int| 0 <= j < i ==> (#[trigger] v@[j]).0 != fp,
        decreases v@.len() - i,
    {
        i = i + 1;
    }
    if i < v.len() {
        {
            let entry = &mut v[i];
            entry.1.push(id);
            proof {
                lemma_assoc_get_at(old(v)@, i as int);
                assert forall|k: Option<TyFingerprint>| #[trigger] bucket_of(v@, k) == (if k == fp {
                    bucket_of(old(v)@, k).push(id)
                } else {
                    bucket_of(old(v)@, k)
                }) by {
                    lemma_assoc_get_update(old(v)@, i as int, v@[i as int].1, k);
                }
            }
        }
    } else {
        {
            proof {
                assert(!assoc_has(v@, fp));
            }
            let mut bucket: Vec<ImplId> = Vec::new();
            bucket.push(id);
            let ghost pre = v@;
            v.push((fp, bucket));
            proof {
                assert forall|k: Option<TyFingerprint>| #[trigger] bucket_of(v@, k) == (if k == fp {
                    bucket_of(pre, k).push(id)
                } else {
                    bucket_of(pre, k)
                }) by {
                    lemma_assoc_get_push(pre, fp, bucket, k);
                    if k == fp {
                        lemma_assoc_get_absent(pre, fp);
                        assert(bucket_of(pre, k) =~= Seq::<ImplId>::empty());
                        assert(bucket@ =~= bucket_of(pre, k).push(id));
                    }
                }
            }
        }
    }
}

/// The bucket a two-level table stores under trait `tr` and fingerprint
/// `ofp`; empty when either level is absent.
pub open spec fn bucket2_of(
    s: Seq<(TraitId, Vec<(Option<TyFingerprint>, Vec<ImplId>)>)>,
    tr: TraitId,
    ofp: Option<TyFingerprint>,
) -> Seq<ImplId> {
    match assoc_get(s, tr) {
        Some(m) => bucket_of(m@, ofp),
        None => Seq::empty(),
    }
}

/// Whether the inner keys of a two-level table are distinct per trait.
pub open spec fn inner_unique(s: Seq<(TraitId, Vec<(Option<TyFingerprint>, Vec<ImplId>)>)>) -> bool {
    forall|t: int| 0 <= t < s.len() ==> keys_unique((#[trigger] s[t]).1@)
}

/// Appends `id` to the bucket under `(tr, ofp)` of a two-level table,
/// creating the levels that are missing. Every other bucket stays as it is.
fn trait_push(
    v: &mut Vec<(TraitId, Vec<(Option<TyFingerprint>, Vec<ImplId>)>)>,
    tr: TraitId,
    ofp: Option<TyFingerprint>,
    id: ImplId,
)
    requires
        keys_unique(old(v)@),
        inner_unique(old(v)@),
    ensures
        keys_unique(final(v)@),
        inner_unique(final(v)@),
        forall|t: TraitId, k: Option<TyFingerprint>| #[trigger] bucket2_of(final(v)@, t, k) == (
        if t == tr && k == ofp {
            bucket2_of(old(v)@, t, k).push(id)
        } else {
            bucket2_of(old(v)@, t, k)
        }),
{
    let mut i: usize = 0;
    while i < v.len() && v[i].0 != tr
        invariant
            i <= v@.len(),
            forall|j: int| 0 <= j < i ==> (#[trigger] v@[j]).0 != tr,
        decreases v@.len() - i,
    {
        i = i + 1;
    }
    if i < v.len() {
        let ghost pre = v@;
        let entry = &mut v[i];
        trait_inner_push(&mut entry.1, ofp, id);
        proof {
            assert(v@ == pre.update(i as int, (pre[i as int].0, v@[i as int].1)));
            lemma_assoc_get_at(pre, i as int);
            assert(inner_unique(v@)) by {
                assert(forall|t: int|
                    0 <= t < pre.len() && t != i ==> (#[trigger] v@[t]) == pre[t]);
            }
            assert forall|t: TraitId, k: Option<TyFingerprint>| #[trigger] bucket2_of(v@, t, k)
                == (if t == tr && k == ofp {
                bucket2_of(pre, t, k).push(id)
            } else {
                bucket2_of(pre, t, k)
            }) by {
                lemma_assoc_get_update(pre, i as int, v@[i as int].1, t);
            }
        }
    } else {
        proof {
            assert(!assoc_has(v@, tr));
        }
        let mut inner: Vec<(Option<TyFingerprint>, Vec<ImplId>)> = Vec::new();
        trait_inner_push(&mut inner, ofp, id);
        let ghost pre = v@;
        let ghost inner_view = inner@;
        v.push((tr, inner));
        proof {
            lemma_assoc_get_absent(pre, tr);
            assert(inner_unique(v@)) by {
                assert(forall|t: int| 0 <= t < pre.len() ==> (#[trigger] v@[t]) == pre[t]);
                assert(v@[pre.len() as int].1@ == inner_view);
            }
            assert forall|t: TraitId, k: Option<TyFingerprint>| #[trigger] bucket2_of(v@, t, k)
                == (if t == tr && k == ofp {
                bucket2_of(pre, t, k).push(id)
            } else {
                bucket2_of(pre, t, k)
            }) by {
                lemma_assoc_get_push(pre, tr, v@[pre.len() as int].1, t);
                if t == tr {
                    assert(bucket_of(inner_view, k) == (if k == ofp {
                        bucket_of(Seq::empty(), k).push(id)
                    } else {
                        bucket_of(Seq::empty(), k)
                    }));
                    assert(bucket_of(Seq::<(Option<TyFingerprint>, Vec<ImplId>)>::empty(), k)
                        =~= Seq::<ImplId>::empty());
                }
            }
        }
    }
}

/// A copy of the bucket a one-level table stores under `fp`.
fn get_bucket_copy(v: &Vec<(TyFingerprint, Vec<ImplId>)>, fp: TyFingerprint) -> (r: Vec<ImplId>)
    requires
        keys_unique(v@),
    ensures
        r@ == bucket_of(v@, fp),
{
    let mut r: Vec<ImplId> = Vec::new();
    let mut i: usize = 0;
    while i < v.len() && v[i].0 != fp
        invariant
            i <= v@.len(),
            forall|j: int| 0 <= j < i ==> (#[trigger] v@[j]).0 != fp,
        decreases v@.len() - i,
    {
        i = i + 1;
    }
    if i < v.len() {
        proof {
            lemma_assoc_get_at(v@, i as int);
        }
        copy_ids(&mut r, &v[i].1);
        proof {
            assert(Seq::<ImplId>::empty() + v@[i as int].1@ =~= v@[i as int].1@);
        }
    } else {
        proof {
            lemma_assoc_get_absent(v@, fp);
        }
    }
    r
}

/// Replaces the bucket a one-level table stores under `fp`, creating the
/// entry when it is missing. Every other bucket stays as it is.
fn inherent_set(v: &mut Vec<(TyFingerprint, Vec<ImplId>)>, fp: TyFingerprint, b: Vec<ImplId>)
    requires
        keys_unique(old(v)@),
    ensures
        keys_unique(final(v)@),
        forall|k: TyFingerprint| #[trigger] bucket_of(final(v)@, k) == (if k == fp {
            b@
        } else {
            bucket_of(old(v)@, k)
        }),
{
    let ghost bv = b@;
    let mut i: usize = 0;
    while i < v.len() && v[i].0 != fp
        invariant
            i <= v@.len(),
            forall|j: int| 0 <= j < i ==> (#[trigger] v@[j]).0 != fp,
        decreases v@.len() - i,
    {
        i = i + 1;
    }
    if i < v.len() {
        let entry = &mut v[i];
        entry.1 = b;
        proof {
            lemma_assoc_get_at(old(v)@, i as int);
            assert forall|k: TyFingerprint| #[trigger] bucket_of(v@, k) == (if k == fp {
                bv
            } else {
                bucket_of(old(v)@, k)
            }) by {
                lemma_assoc_get_update(old(v)@, i as int, v@[i as int].1, k);
            }
        }
    } else {
        proof {
            assert(!assoc_has(v@, fp));
        }
        let ghost pre = v@;
        v.push((fp, b));
        proof {
            assert forall|k: TyFingerprint| #[trigger] bucket_of(v@, k) == (if k == fp {
                bv
            } else {
                bucket_of(pre, k)
            }) by {
                lemma_assoc_get_push(pre, fp, v@[pre.len() as int].1, k);
            }
        }
    }
}

/// Replaces the bucket one trait's table stores under `fp`.
fn inner_set(
    v: &mut Vec<(Option<TyFingerprint>, Vec<ImplId>)>,
    fp: Option<TyFingerprint>,
    b: Vec<ImplId>,
)
    requires
        keys_unique(old(v)@),
    ensures
        keys_unique(final(v)@),
        forall|k: Option<TyFingerprint>| #[trigger] bucket_of(final(v)@, k) == (if k == fp {
            b@
        } else {
            bucket_of(old(v)@, k)
        }),
{
    let ghost bv = b@;
    let mut i: usize = 0;
    while i < v.len() && !opt_fp_eq(&v[i].0, &fp)
        invariant
            i <= v@.len(),
            forall|j: int| 0 <= j < i ==> (#[trigger] v@[j]).0 != fp,
        decreases v@.len() - i,
    {
        i = i + 1;
    }
    if i < v.len() {
        let entry = &mut v[i];
        entry.1 = b;
        proof {
            lemma_assoc_get_at(old(v)@, i as int);
            assert forall|k: Option<TyFingerprint>| #[trigger] bucket_of(v@, k) == (if k == fp {
                bv
            } else {
                bucket_of(old(v)@, k)
            }) by {
                lemma_assoc_get_update(old(v)@, i as int, v@[i as int].1, k);
            }
        }
    } else {
        proof {
            assert(!assoc_has(v@, fp));
        }
        let ghost pre = v@;
        v.push((fp, b));
        proof {
            assert forall|k: Option<TyFingerprint>| #[trigger] bucket_of(v@, k) == (if k == fp {
                bv
            } else {
                bucket_of(pre, k)
            }) by {
                lemma_assoc_get_push(pre, fp, v@[pre.len() as int].1, k);
            }
        }
    }
}

/// Replaces the bucket a two-level table stores under `(tr, ofp)`, creating
/// the levels that are missing. Every other bucket stays as it is.
fn trait_set(
    v: &mut Vec<(TraitId, Vec<(Option<TyFingerprint>, Vec<ImplId>)>)>,
    tr: TraitId,
    ofp: Option<TyFingerprint>,
    b: Vec<ImplId>,
)
    requires
        keys_unique(old(v)@),
        inner_unique(old(v)@),
    ensures
        keys_unique(final(v)@),
        inner_unique(final(v)@),
        forall|t: TraitId, k: Option<TyFingerprint>| #[trigger] bucket2_of(final(v)@, t, k) == (
        if t == tr && k == ofp {
            b@
        } else {
            bucket2_of(old(v)@, t, k)
        }),
{
    let ghost bv = b@;
    let mut i: usize = 0;
    while i < v.len() && v[i].0 != tr
        invariant
            i <= v@.len(),
            forall|j: int| 0 <= j < i ==> (#[trigger] v@[j]).0 != tr,
        decreases v@.len() - i,
    {
        i = i + 1;
    }
    if i < v.len() {
        let ghost pre = v@;
        let entry = &mut v[i];
        inner_set(&mut entry.1, ofp, b);
        proof {
            assert(v@ == pre.update(i as int, (pre[i as int].0, v@[i as int].1)));
            lemma_assoc_get_at(pre, i as int);
            assert(inner_unique(v@)) by {
                assert(forall|t: int|
                    0 <= t < pre.len() && t != i ==> (#[trigger] v@[t]) == pre[t]);
            }
            assert forall|t: TraitId, k: Option<TyFingerprint>| #[trigger] bucket2_of(v@, t, k)
                == (if t == tr && k == ofp {
                bv
            } else {
                bucket2_of(pre, t, k)
            }) by {
                lemma_assoc_get_update(pre, i as int, v@[i as int].1, t);
            }
        }
    } else {
        proof {
            assert(!assoc_has(v@, tr));
        }
        let mut inner: Vec<(Option<TyFingerprint>, Vec<ImplId>)> = Vec::new();
        inner_set(&mut inner, ofp, b);
        let ghost pre = v@;
        let ghost inner_view = inner@;
        v.push((tr, inner));
        proof {
            lemma_assoc_get_absent(pre, tr);
            assert(inner_unique(v@)) by {
                assert(forall|t: int| 0 <= t < pre.len() ==> (#[trigger] v@[t]) == pre[t]);
                assert(v@[pre.len() as int].1@ == inner_view);
            }
            assert forall|t: TraitId, k: Option<TyFingerprint>| #[trigger] bucket2_of(v@, t, k)
                == (if t == tr && k == ofp {
                bv
            } else {
                bucket2_of(pre, t, k)
            }) by {
                lemma_assoc_get_push(pre, tr, v@[pre.len() as int].1, t);
                if t == tr {
                    assert(bucket_of(inner_view, k) == (if k == ofp {
                        bv
                    } else {
                        bucket_of(Seq::empty(), k)
                    }));
                    assert(bucket_of(Seq::<(Option<TyFingerprint>, Vec<ImplId>)>::empty(), k)
                        =~= Seq::<ImplId>::empty());
                }
            }
        }
    }
}

/// A copy of the bucket a two-level table stores under `(tr, ofp)`.
fn get_bucket2_copy(
    v: &Vec<(TraitId, Vec<(Option<TyFingerprint>, Vec<ImplId>)>)>,
    tr: TraitId,
    ofp: Option<TyFingerprint>,
) -> (r: Vec<ImplId>)
    requires
        keys_unique(v@),
        inner_unique(v@),
    ensures
        r@ == bucket2_of(v@, tr, ofp),
{
    let mut r: Vec<ImplId> = Vec::new();
    let mut i: usize = 0;
    while i < v.len() && v[i].0 != tr
        invariant
            i <= v@.len(),
            forall|j: int| 0 <= j < i ==> (#[trigger] v@[j]).0 != tr,
        decreases v@.len() - i,
    {
        i = i + 1;
    }
    if i < v.len() {
        proof {
            lemma_assoc_get_at(v@, i as int);
        }
        let entries = &v[i].1;
        let mut j: usize = 0;
        while j < entries.len() && !opt_fp_eq(&entries[j].0, &ofp)
            invariant
                j <= entries@.len(),
                forall|x: int| 0 <= x < j ==> (#[trigger] entries@[x]).0 != ofp,
            decreases entries@.len() - j,
        {
            j = j + 1;
        }
        if j < entries.len() {
            proof {
                lemma_assoc_get_at(entries@, j as int);
            }
            copy_ids(&mut r, &entries[j].1);
            proof {
                assert(Seq::<ImplId>::empty() + entries@[j as int].1@ =~= entries@[j as int].1@);
            }
        } else {
            proof {
                lemma_assoc_get_absent(entries@, ofp);
            }
        }
    } else {
        proof {
            lemma_assoc_get_absent(v@, tr);
        }
    }
    r
}

/// What merging adds up to for one bucket: the new bucket is strictly sorted
/// and its members are those of the two sources together.
pub open spec fn merged_bucket(old_b: Seq<ImplId>, other_b: Seq<ImplId>, new_b: Seq<ImplId>) -> bool {
    &&& strictly_sorted(new_b)
    &&& forall|x: ImplId| #[trigger] new_b.contains(x) <==> old_b.contains(x) || other_b.contains(
        x,
    )
}

/// Whether a two-level table has a bucket under `(tr, ofp)`.
pub open spec fn has_bucket2(
    s: Seq<(TraitId, Vec<(Option<TyFingerprint>, Vec<ImplId>)>)>,
    tr: TraitId,
    ofp: Option<TyFingerprint>,
) -> bool {
    match assoc_get(s, tr) {
        Some(m) => assoc_has(m@, ofp),
        None => false,
    }
}

/// Whether `x` is an inherent impl for `fp` that one of the crates of
/// `deps`, or one of their transitive dependencies, declares. `bound` keeps
/// the descent finite: a crate is only entered when its index lies under it,
/// which a well-formed store's dependency edges always satisfy.
pub open spec fn member_inherent_list(
    w: World,
    deps: Seq<CrateId>,
    bound: nat,
    fp: TyFingerprint,
    x: ImplId,
) -> bool
    decreases bound, deps.len(),
{
    if deps.len() == 0 {
        false
    } else {
        let dep = deps.last();
        member_inherent_list(w, deps.drop_last(), bound, fp, x) || crate_inherent_impls(
            w,
            dep,
            fp,
        ).contains(x) || (dep.0 < bound && dep.0 < w.crates@.len() && member_inherent_list(
            w,
            w.crates@[dep.0 as int].dependencies@,
            dep.0 as nat,
            fp,
            x,
        ))
    }
}

/// Whether `x` is an inherent impl for `fp` that some transitive dependency
/// of `krate` declares.
pub open spec fn dep_member_inherent(w: World, krate: CrateId, fp: TyFingerprint, x: ImplId) -> bool {
    krate.0 < w.crates@.len() && member_inherent_list(
        w,
        w.crates@[krate.0 as int].dependencies@,
        krate.0 as nat,
        fp,
        x,
    )
}

/// [`member_inherent_list`], for the impls of trait `tr` with fingerprint
/// `ofp`.
pub open spec fn member_trait_list(
    w: World,
    deps: Seq<CrateId>,
    bound: nat,
    tr: TraitId,
    ofp: Option<TyFingerprint>,
    x: ImplId,
) -> bool
    decreases bound, deps.len(),
{
    if deps.len() == 0 {
        false
    } else {
        let dep = deps.last();
        member_trait_list(w, deps.drop_last(), bound, tr, ofp, x) || crate_trait_impls(
            w,
            dep,
            tr,
            ofp,
        ).contains(x) || (dep.0 < bound && dep.0 < w.crates@.len() && member_trait_list(
            w,
            w.crates@[dep.0 as int].dependencies@,
            dep.0 as nat,
            tr,
            ofp,
            x,
        ))
    }
}

/// Whether `x` is an impl of `tr` with fingerprint `ofp` that some
/// transitive dependency of `krate` declares.
pub open spec fn dep_member_trait(
    w: World,
    krate: CrateId,
    tr: TraitId,
    ofp: Option<TyFingerprint>,
    x: ImplId,
) -> bool {
    krate.0 < w.crates@.len() && member_trait_list(
        w,
        w.crates@[krate.0 as int].dependencies@,
        krate.0 as nat,
        tr,
        ofp,
        x,
    )
}

/// A bucket missing on either level is empty.
proof fn lemma_bucket2_absent(
    s: Seq<(TraitId, Vec<(Option<TyFingerprint>, Vec<ImplId>)>)>,
    tr: TraitId,
    ofp: Option<TyFingerprint>,
)
    requires
        !has_bucket2(s, tr, ofp),
    ensures
        bucket2_of(s, tr, ofp) == Seq::<ImplId>::empty(),
{
    match assoc_get(s, tr) {
        Some(m) => {
            lemma_assoc_get_absent(m@, ofp);
        },
        None => {},
    }
}

/// What merging `other` into a catalog in state `old_c` leaves behind:
/// every bucket `other` holds becomes the sorted, deduplicated union of the
/// two member sets, and every other bucket stays exactly as it was.
pub open spec fn merge_outcome(
    old_c: CrateImplDefs,
    other: CrateImplDefs,
    new_c: CrateImplDefs,
) -> bool {
    &&& forall|fp: TyFingerprint| assoc_has(other.inherent_impls@, fp) ==> merged_bucket(
        old_c.inherent_bucket(fp),
        other.inherent_bucket(fp),
        #[trigger] new_c.inherent_bucket(fp),
    )
    &&& forall|fp: TyFingerprint| !assoc_has(other.inherent_impls@, fp)
        ==> #[trigger] new_c.inherent_bucket(fp) == old_c.inherent_bucket(fp)
    &&& forall|tr: TraitId, ofp: Option<TyFingerprint>| has_bucket2(
        other.impls_by_trait@,
        tr,
        ofp,
    ) ==> merged_bucket(
        old_c.trait_bucket(tr, ofp),
        other.trait_bucket(tr, ofp),
        #[trigger] new_c.trait_bucket(tr, ofp),
    )
    &&& forall|tr: TraitId, ofp: Option<TyFingerprint>| !has_bucket2(
        other.impls_by_trait@,
        tr,
        ofp,
    ) ==> #[trigger] new_c.trait_bucket(tr, ofp) == old_c.trait_bucket(tr, ofp)
}

/// Merging the same catalog twice leaves every bucket exactly as one merge
/// leaves it: the member set is unchanged, and since merged buckets are
/// strictly sorted, so is the bucket itself.
pub proof fn lemma_merge_idempotent(
    base: CrateImplDefs,
    other: CrateImplDefs,
    once: CrateImplDefs,
    twice: CrateImplDefs,
)
    requires
        merge_outcome(base, other, once),
        merge_outcome(once, other, twice),
    ensures
        forall|fp: TyFingerprint| #[trigger] twice.inherent_bucket(fp) == once.inherent_bucket(fp),
        forall|tr: TraitId, ofp: Option<TyFingerprint>| #[trigger] twice.trait_bucket(tr, ofp)
            == once.trait_bucket(tr, ofp),
{
    assert forall|fp: TyFingerprint| #[trigger] twice.inherent_bucket(fp) == once.inherent_bucket(
        fp,
    ) by {
        if assoc_has(other.inherent_impls@, fp) {
            lemma_sorted_unique(twice.inherent_bucket(fp), once.inherent_bucket(fp));
        }
    }
    assert forall|tr: TraitId, ofp: Option<TyFingerprint>| #[trigger] twice.trait_bucket(tr, ofp)
        == once.trait_bucket(tr, ofp) by {
        if has_bucket2(other.impls_by_trait@, tr, ofp) {
            lemma_sorted_unique(twice.trait_bucket(tr, ofp), once.trait_bucket(tr, ofp));
        }
    }
}

/// The final membership of merging two catalogs does not depend on the
/// order in which they are merged.
pub proof fn lemma_merge_commutative(
    a: CrateImplDefs,
    b: CrateImplDefs,
    ab: CrateImplDefs,
    ba: CrateImplDefs,
)
    requires
        merge_outcome(a, b, ab),
        merge_outcome(b, a, ba),
    ensures
        forall|fp: TyFingerprint, x: ImplId| #[trigger] ab.inherent_bucket(fp).contains(x)
            <==> #[trigger] ba.inherent_bucket(fp).contains(x),
        forall|tr: TraitId, ofp: Option<TyFingerprint>, x: ImplId| #[trigger] ab.trait_bucket(
            tr,
            ofp,
        ).contains(x) <==> #[trigger] ba.trait_bucket(tr, ofp).contains(x),
{
    assert forall|fp: TyFingerprint, x: ImplId| #[trigger] ab.inherent_bucket(fp).contains(x)
        <==> #[trigger] ba.inherent_bucket(fp).contains(x) by {
        if !assoc_has(a.inherent_impls@, fp) {
            lemma_assoc_get_absent(a.inherent_impls@, fp);
            assert(a.inherent_bucket(fp) == Seq::<ImplId>::empty());
            assert(!a.inherent_bucket(fp).contains(x));
        }
        if !assoc_has(b.inherent_impls@, fp) {
            lemma_assoc_get_absent(b.inherent_impls@, fp);
            assert(b.inherent_bucket(fp) == Seq::<ImplId>::empty());
            assert(!b.inherent_bucket(fp).contains(x));
        }
    }
    assert forall|tr: TraitId, ofp: Option<TyFingerprint>, x: ImplId| #[trigger] ab.trait_bucket(
        tr,
        ofp,
    ).contains(x) <==> #[trigger] ba.trait_bucket(tr, ofp).contains(x) by {
        if !has_bucket2(a.impls_by_trait@, tr, ofp) {
            lemma_bucket2_absent(a.impls_by_trait@, tr, ofp);
            assert(!a.trait_bucket(tr, ofp).contains(x));
        }
        if !has_bucket2(b.impls_by_trait@, tr, ofp) {
            lemma_bucket2_absent(b.impls_by_trait@, tr, ofp);
            assert(!b.trait_bucket(tr, ofp).contains(x));
        }
    }
}

/// A strictly sorted bucket holds no impl id twice: the transitive view of
/// a crate therefore contains each distinct impl id exactly once, whatever
/// the shape of the dependency graph.
pub proof fn lemma_sorted_no_duplicates(s: Seq<ImplId>)
    requires
        strictly_sorted(s),
    ensures
        forall|i: int, j: int| 0 <= i < j < s.len() ==> s[i] != s[j],
{
}

/// Two strictly sorted buckets with the same members are the same bucket.
pub proof fn lemma_sorted_unique(s1: Seq<ImplId>, s2: Seq<ImplId>)
    requires
        strictly_sorted(s1),
        strictly_sorted(s2),
        forall|x: ImplId| s1.contains(x) <==> s2.contains(x),
    ensures
        s1 == s2,
    decreases s1.len(),
{
    if s1.len() == 0 {
        if s2.len() > 0 {
            assert(s2.contains(s2.last()));
            assert(s1.contains(s2.last()));
            assert(false);
        }
        assert(s1 =~= s2);
    } else {
        assert(s1.contains(s1.last()));
        assert(s2.contains(s1.last()));
        if s2.len() == 0 {
            assert(false);
        }
        assert(s2.contains(s2.last()));
        assert(s1.contains(s2.last()));
        let l1 = s1.last();
        let l2 = s2.last();
        let k1 = choose|k: int| 0 <= k < s2.len() && s2[k] == l1;
        let k2 = choose|k: int| 0 <= k < s1.len() && s1[k] == l2;
        assert(l1.0 <= l2.0) by {
            if k1 < s2.len() - 1 {
                assert(s2[k1].0 < s2[s2.len() - 1].0);
            }
        }
        assert(l2.0 <= l1.0) by {
            if k2 < s1.len() - 1 {
                assert(s1[k2].0 < s1[s1.len() - 1].0);
            }
        }
        assert(l1 == l2);
        let d1 = s1.drop_last();
        let d2 = s2.drop_last();
        assert forall|x: ImplId| d1.contains(x) <==> d2.contains(x) by {
            if d1.contains(x) {
                let k = choose|k: int| 0 <= k < d1.len() && d1[k] == x;
                assert(s1[k] == x);
                assert(x.0 < l1.0);
                assert(s2.contains(x));
                let m = choose|m: int| 0 <= m < s2.len() && s2[m] == x;
                assert(m < s2.len() - 1) by {
                    if m == s2.len() - 1 {
                        assert(x == l2);
                    }
                }
                assert(d2[m] == x);
                assert(d2.contains(x));
            }
            if d2.contains(x) {
                let k = choose|k: int| 0 <= k < d2.len() && d2[k] == x;
                assert(s2[k] == x);
                assert(x.0 < l2.0);
                assert(s1.contains(x));
                let m = choose|m: int| 0 <= m < s1.len() && s1[m] == x;
                assert(m < s1.len() - 1) by {
                    if m == s1.len() - 1 {
                        assert(x == l1);
                    }
                }
                assert(d1[m] == x);
                assert(d1.contains(x));
            }
        }
        assert(strictly_sorted(d1)) by {
            assert(forall|i: int| 0 <= i < d1.len() ==> d1[i] == s1[i]);
        }
        assert(strictly_sorted(d2)) by {
            assert(forall|i: int| 0 <= i < d2.len() ==> d2[i] == s2[i]);
        }
        lemma_sorted_unique(d1, d2);
        assert(s1 =~= s2) by {
            assert(forall|i: int| 0 <= i < s1.len() - 1 ==> s1[i] == d1[i] && s2[i] == d2[i]);
        }
    }
}

/// A queryable and mergeable collection of impls.
#[derive(Debug)]
pub struct CrateImplDefs {
    pub inherent_impls: Vec<(TyFingerprint, Vec<ImplId>)>,
    pub impls_by_trait: Vec<(TraitId, Vec<(Option<TyFingerprint>, Vec<ImplId>)>)>,
}

impl CrateImplDefs {
    /// The inherent bucket stored under `fp`; empty when absent.
    pub open spec fn inherent_bucket(self, fp: TyFingerprint) -> Seq<ImplId> {
        match assoc_get(self.inherent_impls@, fp) {
            Some(v) => v@,
            None => Seq::empty(),
        }
    }

    /// The by-trait table stored under `tr`; empty when absent.
    pub open spec fn trait_entries(self, tr: TraitId) -> Seq<(Option<TyFingerprint>, Vec<ImplId>)> {
        match assoc_get(self.impls_by_trait@, tr) {
            Some(m) => m@,
            None => Seq::empty(),
        }
    }

    /// The bucket stored under `(tr, fp)`; empty when absent.
    pub open spec fn trait_bucket(self, tr: TraitId, fp: Option<TyFingerprint>) -> Seq<ImplId> {
        match assoc_get(self.trait_entries(tr), fp) {
            Some(v) => v@,
            None => Seq::empty(),
        }
    }

    /// Keys are pairwise distinct on every level.
    pub open spec fn wf(self) -> bool {
        &&& keys_unique(self.inherent_impls@)
        &&& keys_unique(self.impls_by_trait@)
        &&& forall|t: int| 0 <= t < self.impls_by_trait@.len()
            ==> keys_unique((#[trigger] self.impls_by_trait@[t]).1@)
    }

    /// Scans every impl block that `krate` declares and records it: an impl
    /// of a trait under the trait and the fingerprint of its self type (no
    /// fingerprint: the blanket bucket); an inherent impl under the
    /// fingerprint of its self type alone, and only when that fingerprint
    /// exists — an inherent impl on a type that cannot own impls is
    /// unreachable through this index and is omitted.
    pub fn fill(&mut self, w: &World, krate: CrateId)
        requires
            old(self).wf(),
            w.wf(),
        ensures
            final(self).wf(),
            forall|fp: TyFingerprint| #[trigger] final(self).inherent_bucket(fp) == old(
                self,
            ).inherent_bucket(fp) + crate_inherent_impls(*w, krate, fp),
            forall|tr: TraitId, ofp: Option<TyFingerprint>| #[trigger] final(self).trait_bucket(
                tr,
                ofp,
            ) == old(self).trait_bucket(tr, ofp) + crate_trait_upto(
                *w,
                krate,
                tr,
                ofp,
                w.impls@.len(),
            ),
    {
        let mut i: usize = 0;
        while i < w.impls.len()
            invariant
                i <= w.impls@.len(),
                w.impls@.len() <= u32::MAX,
                self.wf(),
                forall|fp: TyFingerprint| #[trigger] self.inherent_bucket(fp) == old(
                    self,
                ).inherent_bucket(fp) + crate_inherent_upto(*w, krate, fp, i as nat),
                forall|tr: TraitId, ofp: Option<TyFingerprint>| #[trigger] self.trait_bucket(
                    tr,
                    ofp,
                ) == old(self).trait_bucket(tr, ofp) + crate_trait_upto(
                    *w,
                    krate,
                    tr,
                    ofp,
                    i as nat,
                ),
            decreases w.impls@.len() - i,
        {
            let im = &w.impls[i];
            let id = ImplId(i as u32);
            let self_ty_fp = TyFingerprint::for_impl(&im.self_ty);
            let ghost pre = *self;
            if im.krate == krate {
                match im.trait_ {
                    Some(tr) => {
                        trait_push(&mut self.impls_by_trait, tr, self_ty_fp, id);
                    },
                    None => {
                        match self_ty_fp {
                            Some(fp) => {
                                inherent_push(&mut self.inherent_impls, fp, id);
                            },
                            None => {},
                        }
                    },
                }
            }
            proof {
                let n1 = (i + 1) as nat;
                let ig = w.impls@[i as int];
                assert forall|fp: TyFingerprint| #[trigger] self.inherent_bucket(fp) == old(
                    self,
                ).inherent_bucket(fp) + crate_inherent_upto(*w, krate, fp, n1) by {
                    assert(self.inherent_bucket(fp) == bucket_of(self.inherent_impls@, fp));
                    assert(pre.inherent_bucket(fp) == bucket_of(pre.inherent_impls@, fp));
                    let prev = crate_inherent_upto(*w, krate, fp, i as nat);
                    if ig.krate == krate && ig.trait_ is None && spec_fingerprint(ig.self_ty)
                        == Some(fp) {
                        assert(bucket_of(self.inherent_impls@, fp) == bucket_of(
                            pre.inherent_impls@,
                            fp,
                        ).push(id));
                        assert(crate_inherent_upto(*w, krate, fp, n1) == prev.push(id));
                        assert(old(self).inherent_bucket(fp) + prev.push(id) =~= (old(
                            self,
                        ).inherent_bucket(fp) + prev).push(id));
                    } else {
                        assert(crate_inherent_upto(*w, krate, fp, n1) == prev);
                        assert(bucket_of(self.inherent_impls@, fp) == bucket_of(
                            pre.inherent_impls@,
                            fp,
                        ));
                    }
                }
                assert forall|tr: TraitId, ofp: Option<TyFingerprint>| #[trigger] self
                    .trait_bucket(tr, ofp) == old(self).trait_bucket(tr, ofp) + crate_trait_upto(
                    *w,
                    krate,
                    tr,
                    ofp,
                    n1,
                ) by {
                    assert(self.trait_bucket(tr, ofp) == bucket2_of(self.impls_by_trait@, tr, ofp));
                    assert(pre.trait_bucket(tr, ofp) == bucket2_of(pre.impls_by_trait@, tr, ofp));
                    let prev = crate_trait_upto(*w, krate, tr, ofp, i as nat);
                    if ig.krate == krate && ig.trait_ == Some(tr) && spec_fingerprint(ig.self_ty)
                        == ofp {
                        assert(bucket2_of(self.impls_by_trait@, tr, ofp) == bucket2_of(
                            pre.impls_by_trait@,
                            tr,
                            ofp,
                        ).push(id));
                        assert(crate_trait_upto(*w, krate, tr, ofp, n1) == prev.push(id));
                        assert(old(self).trait_bucket(tr, ofp) + prev.push(id) =~= (old(
                            self,
                        ).trait_bucket(tr, ofp) + prev).push(id));
                    } else {
                        assert(crate_trait_upto(*w, krate, tr, ofp, n1) == prev);
                        assert(bucket2_of(self.impls_by_trait@, tr, ofp) == bucket2_of(
                            pre.impls_by_trait@,
                            tr,
                            ofp,
                        ));
                    }
                }
            }
            i = i + 1;
        }
    }

    /// Builds the catalog of the impl blocks one crate declares.
    pub fn impls_in_crate(w: &World, krate: CrateId) -> (r: CrateImplDefs)
        requires
            w.wf(),
        ensures
            r.wf(),
            forall|fp: TyFingerprint| #[trigger] r.inherent_bucket(fp) == crate_inherent_impls(
                *w,
                krate,
                fp,
            ),
            forall|tr: TraitId, ofp: Option<TyFingerprint>| #[trigger] r.trait_bucket(tr, ofp)
                == crate_trait_impls(*w, krate, tr, ofp),
    {
        let mut res = CrateImplDefs::new();
        res.fill(w, krate);
        proof {
            assert forall|fp: TyFingerprint| #[trigger] res.inherent_bucket(fp)
                == crate_inherent_impls(*w, krate, fp) by {
                assert(Seq::<ImplId>::empty() + crate_inherent_impls(*w, krate, fp)
                    =~= crate_inherent_impls(*w, krate, fp));
            }
            assert forall|tr: TraitId, ofp: Option<TyFingerprint>| #[trigger] res.trait_bucket(
                tr,
                ofp,
            ) == crate_trait_impls(*w, krate, tr, ofp) by {
                assert(Seq::<ImplId>::empty() + crate_trait_impls(*w, krate, tr, ofp)
                    =~= crate_trait_impls(*w, krate, tr, ofp));
            }
        }
        res
    }

    /// Collects all impls from transitive dependencies of `krate` that may
    /// be used by `krate`: for each dependency, its own catalog merged with
    /// its transitive view, recursively. Crates may be visited many times,
    /// so every bucket is deduplicated — each distinct impl id appears
    /// exactly once, whatever the shape of the dependency graph. The full
    /// set of impls `krate` can use is this catalog plus the crate's own.
    pub fn impls_from_deps(w: &World, krate: CrateId) -> (r: CrateImplDefs)
        requires
            w.wf(),
            krate.0 < w.crates@.len(),
        ensures
            r.wf(),
            forall|fp: TyFingerprint| strictly_sorted(#[trigger] r.inherent_bucket(fp)),
            forall|fp: TyFingerprint, x: ImplId| #[trigger] r.inherent_bucket(fp).contains(x)
                <==> dep_member_inherent(*w, krate, fp, x),
            forall|tr: TraitId, ofp: Option<TyFingerprint>|
                strictly_sorted(#[trigger] r.trait_bucket(tr, ofp)),
            forall|tr: TraitId, ofp: Option<TyFingerprint>, x: ImplId| #[trigger] r.trait_bucket(
                tr,
                ofp,
            ).contains(x) <==> dep_member_trait(*w, krate, tr, ofp, x),
        decreases krate.0,
    {
        let mut res = CrateImplDefs::new();
        let deps = &w.crates[krate.0 as usize].dependencies;
        let mut d: usize = 0;
        while d < deps.len()
            invariant
                w.wf(),
                krate.0 < w.crates@.len(),
                deps@ == w.crates@[krate.0 as int].dependencies@,
                d <= deps@.len(),
                res.wf(),
                forall|fp: TyFingerprint| strictly_sorted(#[trigger] res.inherent_bucket(fp)),
                forall|fp: TyFingerprint, x: ImplId| #[trigger] res.inherent_bucket(fp).contains(
                    x,
                ) <==> member_inherent_list(*w, deps@.take(d as int), krate.0 as nat, fp, x),
                forall|tr: TraitId, ofp: Option<TyFingerprint>|
                    strictly_sorted(#[trigger] res.trait_bucket(tr, ofp)),
                forall|tr: TraitId, ofp: Option<TyFingerprint>, x: ImplId| #[trigger] res
                    .trait_bucket(tr, ofp).contains(x) <==> member_trait_list(
                    *w,
                    deps@.take(d as int),
                    krate.0 as nat,
                    tr,
                    ofp,
                    x,
                ),
            decreases deps@.len() - d,
        {
            let dep = deps[d];
            proof {
                assert(dep == w.crates@[krate.0 as int].dependencies@[d as int]);
                assert(dep.0 < krate.0);
            }
            let from_deps = CrateImplDefs::impls_from_deps(w, dep);
            let ghost pre1 = res;
            res.merge(&from_deps);
            proof {
                assert forall|fp: TyFingerprint, x: ImplId| #[trigger] res.inherent_bucket(
                    fp,
                ).contains(x) <==> pre1.inherent_bucket(fp).contains(x)
                    || dep_member_inherent(*w, dep, fp, x) by {
                    if assoc_has(from_deps.inherent_impls@, fp) {
                        assert(res.inherent_bucket(fp).contains(x) <==> pre1.inherent_bucket(
                            fp,
                        ).contains(x) || from_deps.inherent_bucket(fp).contains(x));
                    } else {
                        lemma_assoc_get_absent(from_deps.inherent_impls@, fp);
                        assert(res.inherent_bucket(fp) == pre1.inherent_bucket(fp));
                        assert(!from_deps.inherent_bucket(fp).contains(x));
                    }
                    assert(from_deps.inherent_bucket(fp).contains(x) <==> dep_member_inherent(
                        *w,
                        dep,
                        fp,
                        x,
                    ));
                }
                assert forall|tr: TraitId, ofp: Option<TyFingerprint>, x: ImplId| #[trigger] res
                    .trait_bucket(tr, ofp).contains(x) <==> pre1.trait_bucket(tr, ofp).contains(x)
                    || dep_member_trait(*w, dep, tr, ofp, x) by {
                    if has_bucket2(from_deps.impls_by_trait@, tr, ofp) {
                        assert(res.trait_bucket(tr, ofp).contains(x) <==> pre1.trait_bucket(
                            tr,
                            ofp,
                        ).contains(x) || from_deps.trait_bucket(tr, ofp).contains(x));
                    } else {
                        lemma_bucket2_absent(from_deps.impls_by_trait@, tr, ofp);
                        assert(res.trait_bucket(tr, ofp) == pre1.trait_bucket(tr, ofp));
                        assert(!from_deps.trait_bucket(tr, ofp).contains(x));
                    }
                    assert(from_deps.trait_bucket(tr, ofp).contains(x) <==> dep_member_trait(
                        *w,
                        dep,
                        tr,
                        ofp,
                        x,
                    ));
                }
            }
            let own = CrateImplDefs::impls_in_crate(w, dep);
            let ghost pre2 = res;
            res.merge(&own);
            proof {
                assert(deps@.take(d as int + 1).drop_last() =~= deps@.take(d as int));
                assert(deps@.take(d as int + 1).last() == dep);
                assert forall|fp: TyFingerprint, x: ImplId| #[trigger] res.inherent_bucket(
                    fp,
                ).contains(x) <==> member_inherent_list(
                    *w,
                    deps@.take(d as int + 1),
                    krate.0 as nat,
                    fp,
                    x,
                ) by {
                    if assoc_has(own.inherent_impls@, fp) {
                        assert(res.inherent_bucket(fp).contains(x) <==> pre2.inherent_bucket(
                            fp,
                        ).contains(x) || own.inherent_bucket(fp).contains(x));
                    } else {
                        lemma_assoc_get_absent(own.inherent_impls@, fp);
                        assert(res.inherent_bucket(fp) == pre2.inherent_bucket(fp));
                        assert(!own.inherent_bucket(fp).contains(x));
                    }
                    assert(own.inherent_bucket(fp) == crate_inherent_impls(*w, dep, fp));
                    assert(member_inherent_list(*w, deps@.take(d as int + 1), krate.0 as nat, fp, x)
                        == (member_inherent_list(*w, deps@.take(d as int), krate.0 as nat, fp, x)
                        || crate_inherent_impls(*w, dep, fp).contains(x) || (dep.0 < krate.0
                        && dep.0 < w.crates@.len() && member_inherent_list(
                        *w,
                        w.crates@[dep.0 as int].dependencies@,
                        dep.0 as nat,
                        fp,
                        x,
                    ))));
                }
                assert forall|tr: TraitId, ofp: Option<TyFingerprint>, x: ImplId| #[trigger] res
                    .trait_bucket(tr, ofp).contains(x) <==> member_trait_list(
                    *w,
                    deps@.take(d as int + 1),
                    krate.0 as nat,
                    tr,
                    ofp,
                    x,
                ) by {
                    if has_bucket2(own.impls_by_trait@, tr, ofp) {
                        assert(res.trait_bucket(tr, ofp).contains(x) <==> pre2.trait_bucket(
                            tr,
                            ofp,
                        ).contains(x) || own.trait_bucket(tr, ofp).contains(x));
                    } else {
                        lemma_bucket2_absent(own.impls_by_trait@, tr, ofp);
                        assert(res.trait_bucket(tr, ofp) == pre2.trait_bucket(tr, ofp));
                        assert(!own.trait_bucket(tr, ofp).contains(x));
                    }
                    assert(own.trait_bucket(tr, ofp) == crate_trait_impls(*w, dep, tr, ofp));
                    assert(member_trait_list(
                        *w,
                        deps@.take(d as int + 1),
                        krate.0 as nat,
                        tr,
                        ofp,
                        x,
                    ) == (member_trait_list(*w, deps@.take(d as int), krate.0 as nat, tr, ofp, x)
                        || crate_trait_impls(*w, dep, tr, ofp).contains(x) || (dep.0 < krate.0
                        && dep.0 < w.crates@.len() && member_trait_list(
                        *w,
                        w.crates@[dep.0 as int].dependencies@,
                        dep.0 as nat,
                        tr,
                        ofp,
                        x,
                    ))));
                }
            }
            d = d + 1;
        }
        proof {
            assert(deps@.take(deps@.len() as int) =~= deps@);
        }
        res
    }

    /// Adds every impl of `other` into this catalog: for every bucket of
    /// `other`, the receiving bucket gets the union of the two member sets,
    /// sorted and deduplicated; buckets `other` does not hold stay exactly
    /// as they were. Merging is therefore idempotent, and the final
    /// membership does not depend on the order of merges.
    pub fn merge(&mut self, other: &Self)
        requires
            old(self).wf(),
            other.wf(),
        ensures
            final(self).wf(),
            merge_outcome(*old(self), *other, *final(self)),
    {
        let mut j: usize = 0;
        while j < other.inherent_impls.len()
            invariant
                j <= other.inherent_impls@.len(),
                self.wf(),
                other.wf(),
                forall|fp: TyFingerprint| assoc_has(
                    other.inherent_impls@.take(j as int),
                    fp,
                ) ==> merged_bucket(
                    old(self).inherent_bucket(fp),
                    other.inherent_bucket(fp),
                    #[trigger] self.inherent_bucket(fp),
                ),
                forall|fp: TyFingerprint| !assoc_has(other.inherent_impls@.take(j as int), fp)
                    ==> #[trigger] self.inherent_bucket(fp) == old(self).inherent_bucket(fp),
                forall|tr: TraitId, ofp: Option<TyFingerprint>| #[trigger] self.trait_bucket(
                    tr,
                    ofp,
                ) == old(self).trait_bucket(tr, ofp),
                self.impls_by_trait@ == old(self).impls_by_trait@,
            decreases other.inherent_impls@.len() - j,
        {
            let ghost oseq = other.inherent_impls@;
            let fp = other.inherent_impls[j].0;
            proof {
                assert forall|x: int| 0 <= x < j implies (#[trigger] oseq.take(j as int)[x]).0
                    != fp by {
                    assert(oseq[x].0 != oseq[j as int].0);
                }
                assert(!assoc_has(oseq.take(j as int), fp));
                lemma_assoc_get_at(oseq, j as int);
            }
            let cur = get_bucket_copy(&self.inherent_impls, fp);
            let merged = sort_dedup_merge(&cur, &other.inherent_impls[j].1);
            let ghost pre = *self;
            inherent_set(&mut self.inherent_impls, fp, merged);
            proof {
                assert(oseq.take(j as int + 1) =~= oseq.take(j as int).push(oseq[j as int]));
                assert forall|fp2: TyFingerprint| assoc_has(
                    oseq.take(j as int + 1),
                    fp2,
                ) implies merged_bucket(
                    old(self).inherent_bucket(fp2),
                    other.inherent_bucket(fp2),
                    #[trigger] self.inherent_bucket(fp2),
                ) by {
                    assert(self.inherent_bucket(fp2) == bucket_of(self.inherent_impls@, fp2));
                    assert(pre.inherent_bucket(fp2) == bucket_of(pre.inherent_impls@, fp2));
                    if fp2 == fp {
                        assert(self.inherent_bucket(fp) == merged@);
                        assert(other.inherent_bucket(fp) == oseq[j as int].1@);
                        assert(cur@ == pre.inherent_bucket(fp));
                        assert(pre.inherent_bucket(fp) == old(self).inherent_bucket(fp));
                    } else {
                        let k = choose|k: int|
                            0 <= k < j + 1 && (#[trigger] oseq.take(j as int + 1)[k]).0 == fp2;
                        assert(oseq.take(j as int)[k] == oseq.take(j as int + 1)[k]);
                        assert(assoc_has(oseq.take(j as int), fp2));
                        assert(self.inherent_bucket(fp2) == pre.inherent_bucket(fp2));
                    }
                }
                assert forall|fp2: TyFingerprint| !assoc_has(
                    oseq.take(j as int + 1),
                    fp2,
                ) implies #[trigger] self.inherent_bucket(fp2) == old(self).inherent_bucket(
                    fp2,
                ) by {
                    assert(self.inherent_bucket(fp2) == bucket_of(self.inherent_impls@, fp2));
                    assert(pre.inherent_bucket(fp2) == bucket_of(pre.inherent_impls@, fp2));
                    assert(!assoc_has(oseq.take(j as int), fp2)) by {
                        if assoc_has(oseq.take(j as int), fp2) {
                            let k = choose|k: int|
                                0 <= k < j && (#[trigger] oseq.take(j as int)[k]).0 == fp2;
                            assert(oseq.take(j as int + 1)[k].0 == fp2);
                        }
                    }
                    assert(fp2 != fp) by {
                        assert(oseq.take(j as int + 1)[j as int].0 == fp);
                    }
                }
            }
            j = j + 1;
        }
        proof {
            assert(other.inherent_impls@.take(other.inherent_impls@.len() as int)
                =~= other.inherent_impls@);
        }
        let ghost mid = *self;
        let mut x: usize = 0;
        while x < other.impls_by_trait.len()
            invariant
                x <= other.impls_by_trait@.len(),
                self.wf(),
                other.wf(),
                self.inherent_impls@ == mid.inherent_impls@,
                forall|tr: TraitId, ofp: Option<TyFingerprint>| has_bucket2(
                    other.impls_by_trait@.take(x as int),
                    tr,
                    ofp,
                ) ==> merged_bucket(
                    mid.trait_bucket(tr, ofp),
                    other.trait_bucket(tr, ofp),
                    #[trigger] self.trait_bucket(tr, ofp),
                ),
                forall|tr: TraitId, ofp: Option<TyFingerprint>| !has_bucket2(
                    other.impls_by_trait@.take(x as int),
                    tr,
                    ofp,
                ) ==> #[trigger] self.trait_bucket(tr, ofp) == mid.trait_bucket(tr, ofp),
            decreases other.impls_by_trait@.len() - x,
        {
            let ghost tseq = other.impls_by_trait@;
            let tr = other.impls_by_trait[x].0;
            proof {
                assert forall|k: int| 0 <= k < x implies (#[trigger] tseq.take(x as int)[k]).0
                    != tr by {
                    assert(tseq[k].0 != tseq[x as int].0);
                }
                lemma_assoc_get_absent(tseq.take(x as int), tr);
                lemma_assoc_get_at(tseq, x as int);
            }
            let entries = &other.impls_by_trait[x].1;
            let mut y: usize = 0;
            while y < entries.len()
                invariant
                    y <= entries@.len(),
                    self.wf(),
                    other.wf(),
                    self.inherent_impls@ == mid.inherent_impls@,
                    tr == other.impls_by_trait@[x as int].0,
                    x < other.impls_by_trait@.len(),
                    entries@ == other.impls_by_trait@[x as int].1@,
                    assoc_get(other.impls_by_trait@.take(x as int), tr) is None,
                    assoc_get(other.impls_by_trait@, tr) == Some(
                        other.impls_by_trait@[x as int].1,
                    ),
                    forall|t2: TraitId, ofp: Option<TyFingerprint>| t2 != tr && has_bucket2(
                        other.impls_by_trait@.take(x as int),
                        t2,
                        ofp,
                    ) ==> merged_bucket(
                        mid.trait_bucket(t2, ofp),
                        other.trait_bucket(t2, ofp),
                        #[trigger] self.trait_bucket(t2, ofp),
                    ),
                    forall|t2: TraitId, ofp: Option<TyFingerprint>| t2 != tr && !has_bucket2(
                        other.impls_by_trait@.take(x as int),
                        t2,
                        ofp,
                    ) ==> #[trigger] self.trait_bucket(t2, ofp) == mid.trait_bucket(t2, ofp),
                    forall|ofp: Option<TyFingerprint>| assoc_has(
                        entries@.take(y as int),
                        ofp,
                    ) ==> merged_bucket(
                        mid.trait_bucket(tr, ofp),
                        other.trait_bucket(tr, ofp),
                        #[trigger] self.trait_bucket(tr, ofp),
                    ),
                    forall|ofp: Option<TyFingerprint>| !assoc_has(entries@.take(y as int), ofp)
                        ==> #[trigger] self.trait_bucket(tr, ofp) == mid.trait_bucket(tr, ofp),
                decreases entries@.len() - y,
            {
                let ghost eseq = entries@;
                let ofp = entries[y].0;
                proof {
                    assert forall|k: int| 0 <= k < y implies (#[trigger] eseq.take(y as int)[k]).0
                        != ofp by {
                        assert(keys_unique(eseq));
                        assert(eseq[k].0 != eseq[y as int].0);
                    }
                    assert(!assoc_has(eseq.take(y as int), ofp));
                    lemma_assoc_get_at(eseq, y as int);
                    assert(other.trait_bucket(tr, ofp) == eseq[y as int].1@);
                }
                let cur = get_bucket2_copy(&self.impls_by_trait, tr, ofp);
                let merged = sort_dedup_merge(&cur, &entries[y].1);
                let ghost pre = *self;
                trait_set(&mut self.impls_by_trait, tr, ofp, merged);
                proof {
                    assert(eseq.take(y as int + 1) =~= eseq.take(y as int).push(eseq[y as int]));
                    assert forall|t2: TraitId, ofp2: Option<TyFingerprint>| t2
                        != tr implies #[trigger] self.trait_bucket(t2, ofp2) == pre.trait_bucket(
                        t2,
                        ofp2,
                    ) by {
                        assert(self.trait_bucket(t2, ofp2) == bucket2_of(
                            self.impls_by_trait@,
                            t2,
                            ofp2,
                        ));
                        assert(pre.trait_bucket(t2, ofp2) == bucket2_of(
                            pre.impls_by_trait@,
                            t2,
                            ofp2,
                        ));
                    }
                    assert forall|ofp2: Option<TyFingerprint>| assoc_has(
                        eseq.take(y as int + 1),
                        ofp2,
                    ) implies merged_bucket(
                        mid.trait_bucket(tr, ofp2),
                        other.trait_bucket(tr, ofp2),
                        #[trigger] self.trait_bucket(tr, ofp2),
                    ) by {
                        assert(self.trait_bucket(tr, ofp2) == bucket2_of(
                            self.impls_by_trait@,
                            tr,
                            ofp2,
                        ));
                        assert(pre.trait_bucket(tr, ofp2) == bucket2_of(
                            pre.impls_by_trait@,
                            tr,
                            ofp2,
                        ));
                        if ofp2 == ofp {
                            assert(self.trait_bucket(tr, ofp) == merged@);
                            assert(cur@ == pre.trait_bucket(tr, ofp));
                            assert(pre.trait_bucket(tr, ofp) == mid.trait_bucket(tr, ofp));
                        } else {
                            let k = choose|k: int|
                                0 <= k < y + 1 && (#[trigger] eseq.take(y as int + 1)[k]).0
                                    == ofp2;
                            assert(eseq.take(y as int)[k] == eseq.take(y as int + 1)[k]);
                            assert(assoc_has(eseq.take(y as int), ofp2));
                            assert(self.trait_bucket(tr, ofp2) == pre.trait_bucket(tr, ofp2));
                        }
                    }
                    assert forall|ofp2: Option<TyFingerprint>| !assoc_has(
                        eseq.take(y as int + 1),
                        ofp2,
                    ) implies #[trigger] self.trait_bucket(tr, ofp2) == mid.trait_bucket(
                        tr,
                        ofp2,
                    ) by {
                        assert(self.trait_bucket(tr, ofp2) == bucket2_of(
                            self.impls_by_trait@,
                            tr,
                            ofp2,
                        ));
                        assert(pre.trait_bucket(tr, ofp2) == bucket2_of(
                            pre.impls_by_trait@,
                            tr,
                            ofp2,
                        ));
                        assert(!assoc_has(eseq.take(y as int), ofp2)) by {
                            if assoc_has(eseq.take(y as int), ofp2) {
                                let k = choose|k: int|
                                    0 <= k < y && (#[trigger] eseq.take(y as int)[k]).0 == ofp2;
                                assert(eseq.take(y as int + 1)[k].0 == ofp2);
                            }
                        }
                        assert(ofp2 != ofp) by {
                            assert(eseq.take(y as int + 1)[y as int].0 == ofp);
                        }
                    }
                }
                y = y + 1;
            }
            proof {
                let tseq2 = other.impls_by_trait@;
                assert(entries@.take(entries@.len() as int) =~= entries@);
                assert(tseq2.take(x as int + 1) =~= tseq2.take(x as int).push(tseq2[x as int]));
                assert forall|t2: TraitId, ofp: Option<TyFingerprint>| has_bucket2(
                    tseq2.take(x as int + 1),
                    t2,
                    ofp,
                ) implies merged_bucket(
                    mid.trait_bucket(t2, ofp),
                    other.trait_bucket(t2, ofp),
                    #[trigger] self.trait_bucket(t2, ofp),
                ) by {
                    lemma_assoc_get_push(tseq2.take(x as int), tr, tseq2[x as int].1, t2);
                    if t2 == tr {
                        assert(assoc_get(tseq2.take(x as int + 1), tr) == Some(
                            tseq2[x as int].1,
                        ));
                        assert(assoc_has(entries@, ofp));
                    } else {
                        assert(assoc_get(tseq2.take(x as int + 1), t2) == assoc_get(
                            tseq2.take(x as int),
                            t2,
                        ));
                    }
                }
                assert forall|t2: TraitId, ofp: Option<TyFingerprint>| !has_bucket2(
                    tseq2.take(x as int + 1),
                    t2,
                    ofp,
                ) implies #[trigger] self.trait_bucket(t2, ofp) == mid.trait_bucket(t2, ofp) by {
                    lemma_assoc_get_push(tseq2.take(x as int), tr, tseq2[x as int].1, t2);
                    if t2 == tr {
                        assert(!assoc_has(entries@, ofp));
                        lemma_assoc_get_absent(entries@, ofp);
                        assert(!assoc_has(entries@.take(entries@.len() as int), ofp));
                    } else {
                        assert(!has_bucket2(tseq2.take(x as int), t2, ofp));
                    }
                }
            }
            x = x + 1;
        }
        proof {
            assert(other.impls_by_trait@.take(other.impls_by_trait@.len() as int)
                =~= other.impls_by_trait@);
            assert forall|fp: TyFingerprint| #[trigger] self.inherent_bucket(fp)
                == mid.inherent_bucket(fp) by {
                assert(self.inherent_impls@ == mid.inherent_impls@);
            }
        }
    }

    /// The inherent impls recorded for `ty`: the bucket under its
    /// fingerprint, and nothing when `ty` has no fingerprint.
    pub fn lookup_impl_defs(&self, ty: &Ty) -> (r: Vec<ImplId>)
        requires
            self.wf(),
        ensures
            r@ == (match spec_fingerprint(*ty) {
                Some(fp) => self.inherent_bucket(fp),
                None => Seq::<ImplId>::empty(),
            }),
    {
        let mut r: Vec<ImplId> = Vec::new();
        let fingerprint = TyFingerprint::for_impl(ty);
        match fingerprint {
            None => r,
            Some(fp) => {
                let v = &self.inherent_impls;
                let mut i: usize = 0;
                while i < v.len() && v[i].0 != fp
                    invariant
                        i <= v@.len(),
                        forall|j: int| 0 <= j < i ==> (#[trigger] v@[j]).0 != fp,
                    decreases v@.len() - i,
                {
                    i = i + 1;
                }
                if i < v.len() {
                    proof {
                        lemma_assoc_get_at(v@, i as int);
                    }
                    copy_ids(&mut r, &v[i].1);
                    proof {
                        assert(Seq::<ImplId>::empty() + v@[i as int].1@ =~= v@[i as int].1@);
                    }
                } else {
                    proof {
                        lemma_assoc_get_absent(v@, fp);
                    }
                }
                r
            },
        }
    }

    /// Every impl of trait `tr`, whatever its self type: all the buckets of
    /// the trait's table, in table order.
    pub fn lookup_impl_defs_for_trait(&self, tr: TraitId) -> (r: Vec<ImplId>)
        requires
            self.wf(),
        ensures
            r@ == flatten_buckets(self.trait_entries(tr)),
    {
        let mut r: Vec<ImplId> = Vec::new();
        let v = &self.impls_by_trait;
        let mut i: usize = 0;
        while i < v.len() && v[i].0 != tr
            invariant
                i <= v@.len(),
                forall|j: int| 0 <= j < i ==> (#[trigger] v@[j]).0 != tr,
            decreases v@.len() - i,
        {
            i = i + 1;
        }
        if i < v.len() {
            proof {
                lemma_assoc_get_at(v@, i as int);
            }
            let entries = &v[i].1;
            let mut j: usize = 0;
            while j < entries.len()
                invariant
                    j <= entries@.len(),
                    r@ == flatten_buckets(entries@.take(j as int)),
                decreases entries@.len() - j,
            {
                copy_ids(&mut r, &entries[j].1);
                proof {
                    assert(entries@.take(j as int + 1).drop_last() =~= entries@.take(j as int));
                    assert(entries@.take(j as int + 1).last() == entries@[j as int]);
                }
                j = j + 1;
            }
            proof {
                assert(entries@.take(entries@.len() as int) =~= entries@);
            }
        } else {
            proof {
                lemma_assoc_get_absent(v@, tr);
            }
        }
        r
    }

    /// The impls of trait `tr` recorded for self types with fingerprint
    /// `fp`, followed by the blanket impls of `tr`.
    pub fn lookup_impl_defs_for_trait_and_ty(&self, tr: TraitId, fp: TyFingerprint) -> (r: Vec<
        ImplId,
    >)
        requires
            self.wf(),
        ensures
            r@ == self.trait_bucket(tr, Some(fp)) + self.trait_bucket(tr, None),
    {
        let mut r: Vec<ImplId> = Vec::new();
        let v = &self.impls_by_trait;
        let mut i: usize = 0;
        while i < v.len() && v[i].0 != tr
            invariant
                i <= v@.len(),
                forall|j: int| 0 <= j < i ==> (#[trigger] v@[j]).0 != tr,
            decreases v@.len() - i,
        {
            i = i + 1;
        }
        if i < v.len() {
            proof {
                lemma_assoc_get_at(v@, i as int);
            }
            let entries = &v[i].1;
            let some_fp = Some(fp);
            let mut j: usize = 0;
            while j < entries.len() && !opt_fp_eq(&entries[j].0, &some_fp)
                invariant
                    some_fp == Some(fp),
                    j <= entries@.len(),
                    forall|x: int| 0 <= x < j ==> (#[trigger] entries@[x]).0 != Some(fp),
                decreases entries@.len() - j,
            {
                j = j + 1;
            }
            if j < entries.len() {
                proof {
                    lemma_assoc_get_at(entries@, j as int);
                }
                copy_ids(&mut r, &entries[j].1);
            } else {
                proof {
                    lemma_assoc_get_absent(entries@, Some(fp));
                }
            }
            let ghost mid = r@;
            proof {
                assert(mid =~= Seq::<ImplId>::empty() + self.trait_bucket(tr, Some(fp)));
                assert(mid =~= self.trait_bucket(tr, Some(fp)));
            }
            let mut j2: usize = 0;
            while j2 < entries.len() && !entries[j2].0.is_none()
                invariant
                    j2 <= entries@.len(),
                    forall|x: int| 0 <= x < j2 ==> (#[trigger] entries@[x]).0
                        != None::<TyFingerprint>,
                decreases entries@.len() - j2,
            {
                j2 = j2 + 1;
            }
            if j2 < entries.len() {
                proof {
                    lemma_assoc_get_at(entries@, j2 as int);
                }
                copy_ids(&mut r, &entries[j2].1);
            } else {
                proof {
                    lemma_assoc_get_absent(entries@, None::<TyFingerprint>);
                    assert(mid + self.trait_bucket(tr, None) =~= mid);
                }
            }
        } else {
            proof {
                lemma_assoc_get_absent(v@, tr);
                assert(r@ =~= self.trait_bucket(tr, Some(fp)) + self.trait_bucket(tr, None));
            }
        }
        r
    }

    /// Every impl the catalog records: the inherent buckets, then every
    /// trait's buckets, in table order.
    pub fn all_impls(&self) -> (r: Vec<ImplId>)
        ensures
            r@ == flatten_buckets(self.inherent_impls@) + flatten_tables(self.impls_by_trait@),
    {
        let mut r: Vec<ImplId> = Vec::new();
        let v = &self.inherent_impls;
        let mut i: usize = 0;
        while i < v.len()
            invariant
                i <= v@.len(),
                r@ == flatten_buckets(v@.take(i as int)),
            decreases v@.len() - i,
        {
            copy_ids(&mut r, &v[i].1);
            proof {
                assert(v@.take(i as int + 1).drop_last() =~= v@.take(i as int));
                assert(v@.take(i as int + 1).last() == v@[i as int]);
            }
            i = i + 1;
        }
        proof {
            assert(v@.take(v@.len() as int) =~= v@);
        }
        let t = &self.impls_by_trait;
        let ghost base = flatten_buckets(v@);
        let mut x: usize = 0;
        while x < t.len()
            invariant
                x <= t@.len(),
                r@ == base + flatten_tables(t@.take(x as int)),
            decreases t@.len() - x,
        {
            let entries = &t[x].1;
            let ghost outer_pre = r@;
            let mut j: usize = 0;
            while j < entries.len()
                invariant
                    j <= entries@.len(),
                    r@ == outer_pre + flatten_buckets(entries@.take(j as int)),
                decreases entries@.len() - j,
            {
                copy_ids(&mut r, &entries[j].1);
                proof {
                    assert(entries@.take(j as int + 1).drop_last() =~= entries@.take(j as int));
                    assert(entries@.take(j as int + 1).last() == entries@[j as int]);
                    assert(outer_pre + flatten_buckets(entries@.take(j as int)) + entries@[j as int].1@
                        =~= outer_pre + (flatten_buckets(entries@.take(j as int))
                        + entries@[j as int].1@));
                }
                j = j + 1;
            }
            proof {
                assert(entries@.take(entries@.len() as int) =~= entries@);
                assert(t@.take(x as int + 1).drop_last() =~= t@.take(x as int));
                assert(t@.take(x as int + 1).last() == t@[x as int]);
                assert(base + flatten_tables(t@.take(x as int)) + flatten_buckets(entries@) =~= base
                    + (flatten_tables(t@.take(x as int)) + flatten_buckets(entries@)));
            }
            x = x + 1;
        }
        proof {
            assert(t@.take(t@.len() as int) =~= t@);
        }
        r
    }

    /// An empty catalog.
    pub fn new() -> (r: CrateImplDefs)
        ensures
            r.wf(),
            forall|fp: TyFingerprint| #[trigger] r.inherent_bucket(fp) == Seq::<ImplId>::empty(),
            forall|tr: TraitId, fp: Option<TyFingerprint>| #[trigger] r.trait_bucket(tr, fp)
                == Seq::<ImplId>::empty(),
            forall|tr: TraitId| #[trigger] r.trait_entries(tr) == Seq::<
                (Option<TyFingerprint>, Vec<ImplId>),
            >::empty(),
    {
        CrateImplDefs { inherent_impls: Vec::new(), impls_by_trait: Vec::new() }
    }
}

/// Every impl id a crate's inherent bucket holds is an index into the
/// store's impl table.
pub proof fn lemma_crate_inherent_ids(w: World, k: CrateId, fp: TyFingerprint, n: nat)
    requires
        n <= w.impls@.len(),
    ensures
        forall|i: int| 0 <= i < crate_inherent_upto(w, k, fp, n).len()
            ==> (#[trigger] crate_inherent_upto(w, k, fp, n)[i]).0 < n,
    decreases n,
{
    if n > 0 {
        lemma_crate_inherent_ids(w, k, fp, (n - 1) as nat);
        let prev = crate_inherent_upto(w, k, fp, (n - 1) as nat);
        let cur = crate_inherent_upto(w, k, fp, n);
        if cur.len() > prev.len() {
            assert(forall|i: int| 0 <= i < prev.len() ==> cur[i] == prev[i]);
        }
    }
}

} // verus!
