use vstd::prelude::*;
use vstd::multiset::Multiset;
use vstd::seq_lib::*;

use crate::error::CoreError;
use crate::module::{IdView, ModuleId, ModuleInfo, ModuleInfoV, id_lt, lemma_id_lt_transitive,
    lemma_id_lt_trichotomy, parse_blob};

verus! {

broadcast use vstd::seq_lib::group_to_multiset_ensures;

// ----------------------------------------------------------------------
// Searching a pending list by module identity.
// ----------------------------------------------------------------------

/// Index of the first entry with identity `id`, or -1.
pub open spec fn find_id(s: Seq<ModuleInfoV>, id: IdView) -> int
    decreases s.len(),
{
    if s.len() == 0 {
        -1
    } else if s[0].id == id {
        0
    } else {
        let r = find_id(s.skip(1), id);
        if r < 0 {
            -1
        } else {
            r + 1
        }
    }
}

/// Does any entry carry identity `id`?
pub open spec fn has_id(s: Seq<ModuleInfoV>, id: IdView) -> bool {
    find_id(s, id) >= 0
}

/// What `find_id` returns: the first matching index, or -1 when none
/// matches.
pub proof fn lemma_find_id(s: Seq<ModuleInfoV>, id: IdView)
    ensures
        find_id(s, id) == -1 ==> forall|k: int| 0 <= k < s.len() ==> (#[trigger] s[k]).id != id,
        find_id(s, id) >= 0 ==> find_id(s, id) < s.len() && s[find_id(s, id)].id == id && forall|
            k: int,
        | 0 <= k < find_id(s, id) ==> (#[trigger] s[k]).id != id,
    decreases s.len(),
{
    if s.len() > 0 && s[0].id != id {
        lemma_find_id(s.skip(1), id);
        let r = find_id(s.skip(1), id);
        assert forall|k: int| 1 <= k < s.len() implies s[k] == s.skip(1)[k - 1] by {}
    }
}

/// When no entry carries `id`, `find_id` reports -1.
pub proof fn lemma_find_id_none(s: Seq<ModuleInfoV>, id: IdView)
    requires
        forall|k: int| 0 <= k < s.len() ==> (#[trigger] s[k]).id != id,
    ensures
        find_id(s, id) == -1,
    decreases s.len(),
{
    if s.len() > 0 {
        assert forall|k: int| 0 <= k < s.skip(1).len() implies (#[trigger] s.skip(1)[k]).id != id by {
            assert(s.skip(1)[k] == s[k + 1]);
        }
        lemma_find_id_none(s.skip(1), id);
    }
}

/// When entry `j` carries `id` and no earlier entry does, `find_id`
/// reports `j`.
pub proof fn lemma_find_id_at(s: Seq<ModuleInfoV>, id: IdView, j: int)
    requires
        0 <= j < s.len(),
        s[j].id == id,
        forall|k: int| 0 <= k < j ==> (#[trigger] s[k]).id != id,
    ensures
        find_id(s, id) == j,
    decreases s.len(),
{
    if j > 0 {
        assert forall|k: int| 0 <= k < j - 1 implies (#[trigger] s.skip(1)[k]).id != id by {
            assert(s.skip(1)[k] == s[k + 1]);
        }
        assert(s.skip(1)[j - 1] == s[j]);
        lemma_find_id_at(s.skip(1), id, j - 1);
    }
}

/// No two entries carry the same identity.
pub open spec fn unique_ids(s: Seq<ModuleInfoV>) -> bool {
    forall|i: int, j: int| 0 <= i < j < s.len() ==> (#[trigger] s[i]).id != (#[trigger] s[j]).id
}

/// The identities of a module list, in order.
pub open spec fn ids_of(s: Seq<ModuleInfoV>) -> Seq<IdView> {
    Seq::new(s.len(), |i: int| s[i].id)
}

// ----------------------------------------------------------------------
// The emission order: depth-first, dependencies before dependents,
// every module once. `fuel` only bounds the recursion; any value at
// least the pending count gives the same answer (`lemma_walk_fuel`).
// ----------------------------------------------------------------------

/// Emit the subtree rooted at `id`: its not-yet-emitted dependencies
/// first, then the module itself; absent identities are skipped.
/// Returns the emitted modules and the remaining pending list.
pub open spec fn walk_one(fuel: nat, id: IdView, pending: Seq<ModuleInfoV>) -> (Seq<ModuleInfoV>,
    Seq<ModuleInfoV>)
    decreases fuel, 0int,
{
    let j = find_id(pending, id);
    if j < 0 {
        (Seq::empty(), pending)
    } else if fuel == 0 {
        (Seq::empty(), pending)
    } else {
        let m = pending[j];
        let p1 = pending.remove(j);
        let (o1, p2) = walk((fuel - 1) as nat, m.deps, p1);
        (o1.push(m), p2)
    }
}

/// Emit the subtrees of `ids`, left to right.
pub open spec fn walk(fuel: nat, ids: Seq<IdView>, pending: Seq<ModuleInfoV>) -> (Seq<ModuleInfoV>,
    Seq<ModuleInfoV>)
    decreases fuel, ids.len() + 1,
{
    if ids.len() == 0 {
        (Seq::empty(), pending)
    } else {
        let (o1, p1) = walk_one(fuel, ids[0], pending);
        let (o2, p2) = walk(fuel, ids.skip(1), p1);
        (o1 + o2, p2)
    }
}

/// Emission moves modules: what goes out plus what stays is exactly what
/// was pending.
pub proof fn lemma_walk_one_ms(fuel: nat, id: IdView, pending: Seq<ModuleInfoV>)
    ensures
        pending.to_multiset() == walk_one(fuel, id, pending).0.to_multiset().add(
            walk_one(fuel, id, pending).1.to_multiset(),
        ),
        walk_one(fuel, id, pending).1.len() <= pending.len(),
        walk_one(fuel, id, pending).0.len() + walk_one(fuel, id, pending).1.len()
            == pending.len(),
    decreases fuel, 0int,
{
    let j = find_id(pending, id);
    lemma_find_id(pending, id);
    if j < 0 || fuel == 0 {
        assert(pending.to_multiset() =~= Seq::<ModuleInfoV>::empty().to_multiset().add(
            pending.to_multiset(),
        ));
    } else {
        let m = pending[j];
        let p1 = pending.remove(j);
        lemma_walk_ms((fuel - 1) as nat, m.deps, p1);
        let (o1, p2) = walk((fuel - 1) as nat, m.deps, p1);
        assert(p1.to_multiset() == pending.to_multiset().remove(m));
        assert(pending.to_multiset().contains(m));
        assert(o1.push(m).to_multiset() == o1.to_multiset().insert(m));
        assert(pending.to_multiset() =~= p1.to_multiset().insert(m)) by {
            assert(pending.to_multiset().count(m) >= 1);
        }
        assert(o1.push(m).to_multiset().add(p2.to_multiset()) =~= o1.to_multiset().add(
            p2.to_multiset(),
        ).insert(m));
        assert(pending.to_multiset() =~= o1.push(m).to_multiset().add(p2.to_multiset()));
    }
}

/// As `lemma_walk_one_ms`, over a whole root list.
pub proof fn lemma_walk_ms(fuel: nat, ids: Seq<IdView>, pending: Seq<ModuleInfoV>)
    ensures
        pending.to_multiset() == walk(fuel, ids, pending).0.to_multiset().add(
            walk(fuel, ids, pending).1.to_multiset(),
        ),
        walk(fuel, ids, pending).1.len() <= pending.len(),
        walk(fuel, ids, pending).0.len() + walk(fuel, ids, pending).1.len() == pending.len(),
    decreases fuel, ids.len() + 1,
{
    if ids.len() == 0 {
        assert(pending.to_multiset() =~= Seq::<ModuleInfoV>::empty().to_multiset().add(
            pending.to_multiset(),
        ));
    } else {
        lemma_walk_one_ms(fuel, ids[0], pending);
        let (o1, p1) = walk_one(fuel, ids[0], pending);
        lemma_walk_ms(fuel, ids.skip(1), p1);
        let (o2, p2) = walk(fuel, ids.skip(1), p1);
        lemma_multiset_commutative(o1, o2);
        assert(pending.to_multiset() =~= (o1 + o2).to_multiset().add(p2.to_multiset()));
    }
}

/// Any fuel at least the pending count gives the same emission.
pub proof fn lemma_walk_one_fuel(f1: nat, f2: nat, id: IdView, pending: Seq<ModuleInfoV>)
    requires
        f1 >= pending.len(),
        f2 >= pending.len(),
    ensures
        walk_one(f1, id, pending) == walk_one(f2, id, pending),
    decreases f1, 0int,
{
    let j = find_id(pending, id);
    lemma_find_id(pending, id);
    if j >= 0 {
        assert(pending.len() > 0);
        let m = pending[j];
        let p1 = pending.remove(j);
        lemma_walk_fuel((f1 - 1) as nat, (f2 - 1) as nat, m.deps, p1);
    }
}

/// As `lemma_walk_one_fuel`, over a whole root list.
pub proof fn lemma_walk_fuel(f1: nat, f2: nat, ids: Seq<IdView>, pending: Seq<ModuleInfoV>)
    requires
        f1 >= pending.len(),
        f2 >= pending.len(),
    ensures
        walk(f1, ids, pending) == walk(f2, ids, pending),
    decreases f1, ids.len() + 1,
{
    if ids.len() > 0 {
        lemma_walk_one_fuel(f1, f2, ids[0], pending);
        let (o1, p1) = walk_one(f1, ids[0], pending);
        lemma_walk_one_ms(f1, ids[0], pending);
        lemma_walk_fuel(f1, f2, ids.skip(1), p1);
    }
}

// ----------------------------------------------------------------------
// Input preparation: last-wins de-duplication by identity, then a
// total-order sort by identity for a deterministic root order.
// ----------------------------------------------------------------------

/// Collapse duplicate identities, the later entry winning, as a keyed
/// store would.
pub open spec fn dedup(s: Seq<ModuleInfoV>) -> Seq<ModuleInfoV>
    decreases s.len(),
{
    if s.len() == 0 {
        Seq::empty()
    } else {
        let d = dedup(s.drop_last());
        let last = s.last();
        let j = find_id(d, last.id);
        if j < 0 {
            d.push(last)
        } else {
            d.update(j, last)
        }
    }
}

/// De-duplication leaves no two entries with one identity.
pub proof fn lemma_dedup_unique(s: Seq<ModuleInfoV>)
    ensures
        unique_ids(dedup(s)),
    decreases s.len(),
{
    if s.len() > 0 {
        lemma_dedup_unique(s.drop_last());
        let d = dedup(s.drop_last());
        let last = s.last();
        let j = find_id(d, last.id);
        lemma_find_id(d, last.id);
        if j < 0 {
            let d2 = d.push(last);
            assert forall|a: int, b: int| 0 <= a < b < d2.len() implies d2[a].id != d2[b].id by {
                if b == d.len() as int {
                    assert(d2[a] == d[a]);
                }
            }
        } else {
            let d2 = d.update(j, last);
            assert(d[j].id == last.id);
            assert forall|a: int, b: int| 0 <= a < b < d2.len() implies d2[a].id != d2[b].id by {
                assert(d2[a].id == d[a].id);
                assert(d2[b].id == d[b].id);
            }
        }
    }
}

/// On a list already free of duplicate identities, de-duplication is the
/// identity.
pub proof fn lemma_dedup_identity(s: Seq<ModuleInfoV>)
    requires
        unique_ids(s),
    ensures
        dedup(s) == s,
    decreases s.len(),
{
    if s.len() > 0 {
        assert(unique_ids(s.drop_last())) by {
            assert forall|i: int, j: int|
                0 <= i < j < s.drop_last().len() implies (#[trigger] s.drop_last()[i]).id != (
            #[trigger] s.drop_last()[j]).id by {
                assert(s.drop_last()[i] == s[i]);
                assert(s.drop_last()[j] == s[j]);
            }
        }
        lemma_dedup_identity(s.drop_last());
        let last = s.last();
        assert forall|k: int| 0 <= k < s.drop_last().len() implies (#[trigger] s.drop_last()[k]).id
            != last.id by {
            assert(s.drop_last()[k] == s[k]);
        }
        lemma_find_id_none(s.drop_last(), last.id);
        assert(s.drop_last().push(last) =~= s);
    }
}

/// Are the entries in strictly ascending identity order?
pub open spec fn sorted_ids(s: Seq<ModuleInfoV>) -> bool {
    forall|i: int, j: int| 0 <= i < j < s.len() ==> id_lt((#[trigger] s[i]).id, (#[trigger] s[j]).id)
}

/// Insert one module into a sorted list, keeping the order.
pub open spec fn insert_sorted(x: ModuleInfoV, t: Seq<ModuleInfoV>) -> Seq<ModuleInfoV>
    decreases t.len(),
{
    if t.len() == 0 {
        seq![x]
    } else if id_lt(t[0].id, x.id) {
        seq![t[0]] + insert_sorted(x, t.skip(1))
    } else {
        seq![x] + t
    }
}

/// Sort a module list by identity.
pub open spec fn sort_by_id(s: Seq<ModuleInfoV>) -> Seq<ModuleInfoV>
    decreases s.len(),
{
    if s.len() == 0 {
        Seq::empty()
    } else {
        insert_sorted(s.last(), sort_by_id(s.drop_last()))
    }
}

/// Inserting a fresh identity into a sorted list keeps it sorted and adds
/// exactly that module.
pub proof fn lemma_insert_sorted(x: ModuleInfoV, t: Seq<ModuleInfoV>)
    requires
        sorted_ids(t),
        forall|k: int| 0 <= k < t.len() ==> (#[trigger] t[k]).id != x.id,
    ensures
        sorted_ids(insert_sorted(x, t)),
        insert_sorted(x, t).to_multiset() == t.to_multiset().insert(x),
        insert_sorted(x, t).len() == t.len() + 1,
    decreases t.len(),
{
    if t.len() == 0 {
        assert(seq![x].to_multiset() =~= t.to_multiset().insert(x)) by {
            assert(seq![x] =~= Seq::<ModuleInfoV>::empty().push(x));
            assert(t.to_multiset() =~= Seq::<ModuleInfoV>::empty().to_multiset());
        }
    } else if id_lt(t[0].id, x.id) {
        assert(sorted_ids(t.skip(1))) by {
            assert forall|i: int, j: int| 0 <= i < j < t.skip(1).len() implies id_lt(
                (#[trigger] t.skip(1)[i]).id,
                (#[trigger] t.skip(1)[j]).id,
            ) by {
                assert(t.skip(1)[i] == t[i + 1]);
                assert(t.skip(1)[j] == t[j + 1]);
            }
        }
        assert forall|k: int| 0 <= k < t.skip(1).len() implies (#[trigger] t.skip(1)[k]).id != x.id by {
            assert(t.skip(1)[k] == t[k + 1]);
        }
        lemma_insert_sorted(x, t.skip(1));
        let r = seq![t[0]] + insert_sorted(x, t.skip(1));
        // every entry of the recursive insertion is above t[0]
        assert forall|i: int, j: int| 0 <= i < j < r.len() implies id_lt(r[i].id, r[j].id) by {
            if i == 0 {
                let y = r[j];
                assert(insert_sorted(x, t.skip(1)).to_multiset().contains(y)) by {
                    assert(insert_sorted(x, t.skip(1))[j - 1] == y);
                }
                if y == x {
                } else {
                    assert(t.skip(1).to_multiset().contains(y));
                    let w = choose|w: int| 0 <= w < t.skip(1).len() && t.skip(1)[w] == y;
                    assert(t.skip(1)[w] == t[w + 1]);
                    assert(id_lt(t[0].id, y.id));
                }
            } else {
                assert(r[i] == insert_sorted(x, t.skip(1))[i - 1]);
                assert(r[j] == insert_sorted(x, t.skip(1))[j - 1]);
            }
        }
        // multisets
        assert(r.to_multiset() =~= t.to_multiset().insert(x)) by {
            lemma_multiset_commutative(seq![t[0]], insert_sorted(x, t.skip(1)));
            assert(seq![t[0]].to_multiset() =~= Multiset::<ModuleInfoV>::empty().insert(t[0])) by {
                assert(seq![t[0]] =~= Seq::<ModuleInfoV>::empty().push(t[0]));
            }
            assert(t.to_multiset() == seq![t[0]].to_multiset().add(t.skip(1).to_multiset())) by {
                assert(seq![t[0]] + t.skip(1) =~= t);
                lemma_multiset_commutative(seq![t[0]], t.skip(1));
            }
        }
    } else {
        lemma_id_lt_trichotomy(x.id, t[0].id);
        assert(id_lt(x.id, t[0].id));
        let r = seq![x] + t;
        assert forall|i: int, j: int| 0 <= i < j < r.len() implies id_lt(r[i].id, r[j].id) by {
            if i == 0 {
                if j > 1 {
                    lemma_id_lt_transitive(x.id, t[0].id, t[j - 1].id);
                }
            } else {
                assert(r[i] == t[i - 1]);
                assert(r[j] == t[j - 1]);
            }
        }
        assert(r.to_multiset() =~= t.to_multiset().insert(x)) by {
            lemma_multiset_commutative(seq![x], t);
            assert(seq![x].to_multiset() =~= Multiset::<ModuleInfoV>::empty().insert(x)) by {
                assert(seq![x] =~= Seq::<ModuleInfoV>::empty().push(x));
            }
        }
    }
}

/// Sorting a list of distinct identities yields a strictly sorted
/// permutation of it.
pub proof fn lemma_sort_by_id(s: Seq<ModuleInfoV>)
    requires
        unique_ids(s),
    ensures
        sorted_ids(sort_by_id(s)),
        sort_by_id(s).to_multiset() == s.to_multiset(),
        sort_by_id(s).len() == s.len(),
    decreases s.len(),
{
    if s.len() > 0 {
        let pre = s.drop_last();
        let last = s.last();
        assert(unique_ids(pre)) by {
            assert forall|i: int, j: int| 0 <= i < j < pre.len() implies (#[trigger] pre[i]).id != (
            #[trigger] pre[j]).id by {
                assert(pre[i] == s[i]);
                assert(pre[j] == s[j]);
            }
        }
        lemma_sort_by_id(pre);
        let t = sort_by_id(pre);
        assert forall|k: int| 0 <= k < t.len() implies (#[trigger] t[k]).id != last.id by {
            assert(t.to_multiset().contains(t[k]));
            assert(pre.to_multiset().contains(t[k]));
            let w = choose|w: int| 0 <= w < pre.len() && pre[w] == t[k];
            assert(pre[w] == s[w]);
        }
        lemma_insert_sorted(last, t);
        assert(sort_by_id(s).to_multiset() =~= s.to_multiset()) by {
            assert(pre.push(last) =~= s);
            assert(pre.push(last).to_multiset() == pre.to_multiset().insert(last));
        }
    }
}

/// Identity uniqueness carries across any permutation.
pub proof fn lemma_unique_ids_transfer(a: Seq<ModuleInfoV>, b: Seq<ModuleInfoV>)
    requires
        a.to_multiset() == b.to_multiset(),
        unique_ids(a),
    ensures
        unique_ids(b),
{
    assert(a.no_duplicates()) by {
        assert forall|i: int, j: int| 0 <= i < j < a.len() implies a[i] != a[j] by {
            assert(a[i].id != a[j].id);
        }
    }
    a.lemma_multiset_has_no_duplicates();
    assert forall|i: int, j: int| 0 <= i < j < b.len() implies (#[trigger] b[i]).id != (
    #[trigger] b[j]).id by {
        if b[i] == b[j] {
            b.lemma_multiset_has_no_duplicates_conv();
            assert(b.no_duplicates());
        } else {
            assert(b.to_multiset().contains(b[i])) by {
                assert(b.contains(b[i]));
            }
            assert(b.to_multiset().contains(b[j])) by {
                assert(b.contains(b[j]));
            }
            assert(a.contains(b[i]));
            assert(a.contains(b[j]));
            let x = choose|x: int| 0 <= x < a.len() && a[x] == b[i];
            let y = choose|y: int| 0 <= y < a.len() && a[y] == b[j];
            if b[i].id == b[j].id {
                assert(x != y);
                assert(a[x].id != a[y].id);
                assert(false);
            }
        }
    }
}

/// An identity absent from the pending list stays absent through any
/// emission.
pub proof fn lemma_no_id_after_walk(fuel: nat, ids: Seq<IdView>, p: Seq<ModuleInfoV>, x: IdView)
    requires
        !has_id(p, x),
    ensures
        !has_id(walk(fuel, ids, p).1, x),
{
    lemma_walk_ms(fuel, ids, p);
    let p2 = walk(fuel, ids, p).1;
    if has_id(p2, x) {
        lemma_find_id(p2, x);
        let k = find_id(p2, x);
        let e = p2[k];
        assert(p2.to_multiset().contains(e)) by {
            assert(p2.contains(e));
        }
        assert(p.to_multiset().contains(e));
        assert(p.contains(e));
        let w = choose|w: int| 0 <= w < p.len() && p[w] == e;
        lemma_find_id(p, x);
        assert(p[w].id == x);
        assert(false);
    }
}

/// After the subtree of `id` is emitted, `id` is no longer pending.
pub proof fn lemma_walk_one_clears(fuel: nat, id: IdView, p: Seq<ModuleInfoV>)
    requires
        unique_ids(p),
        fuel >= p.len(),
    ensures
        !has_id(walk_one(fuel, id, p).1, id),
{
    let j = find_id(p, id);
    lemma_find_id(p, id);
    if j < 0 {
    } else {
        let m = p[j];
        let p1 = p.remove(j);
        assert(!has_id(p1, id)) by {
            assert forall|k: int| 0 <= k < p1.len() implies (#[trigger] p1[k]).id != id by {
                if k < j {
                    assert(p1[k] == p[k]);
                } else {
                    assert(p1[k] == p[k + 1]);
                }
            }
            lemma_find_id_none(p1, id);
        }
        lemma_walk_no_id_helper(fuel, m, p1, id);
    }
}

proof fn lemma_walk_no_id_helper(fuel: nat, m: ModuleInfoV, p1: Seq<ModuleInfoV>, id: IdView)
    requires
        !has_id(p1, id),
        fuel >= 1,
    ensures
        !has_id(walk((fuel - 1) as nat, m.deps, p1).1, id),
{
    lemma_no_id_after_walk((fuel - 1) as nat, m.deps, p1, id);
}

/// Two strictly sorted lists with the same modules are the same list.
pub proof fn lemma_sorted_unique(a: Seq<ModuleInfoV>, b: Seq<ModuleInfoV>)
    requires
        sorted_ids(a),
        sorted_ids(b),
        a.to_multiset() == b.to_multiset(),
    ensures
        a == b,
    decreases a.len(),
{
    if a.len() == 0 {
        assert(b.to_multiset().len() == 0);
        assert(a =~= b);
    } else {
        assert(a.to_multiset().len() == a.len());
        assert(b.to_multiset().len() == b.len());
        assert(b.len() == a.len());
        assert(b.to_multiset().contains(a[0])) by {
            assert(a.to_multiset().contains(a[0]));
        }
        assert(b.contains(a[0]));
        let j = choose|j: int| 0 <= j < b.len() && b[j] == a[0];
        assert(a.to_multiset().contains(b[0])) by {
            assert(b.to_multiset().contains(b[0]));
        }
        assert(a.contains(b[0]));
        let i = choose|i: int| 0 <= i < a.len() && a[i] == b[0];
        if j > 0 && i > 0 {
            assert(id_lt(b[0].id, b[j].id));
            assert(id_lt(a[0].id, a[i].id));
            lemma_id_lt_trichotomy(a[0].id, b[0].id);
            assert(false);
        }
        assert(a[0] == b[0]);
        let a1 = a.remove(0);
        let b1 = b.remove(0);
        assert(a1.to_multiset() == a.to_multiset().remove(a[0]));
        assert(b1.to_multiset() == b.to_multiset().remove(b[0]));
        assert(sorted_ids(a1)) by {
            assert forall|x: int, y: int| 0 <= x < y < a1.len() implies id_lt(
                (#[trigger] a1[x]).id,
                (#[trigger] a1[y]).id,
            ) by {
                assert(a1[x] == a[x + 1]);
                assert(a1[y] == a[y + 1]);
            }
        }
        assert(sorted_ids(b1)) by {
            assert forall|x: int, y: int| 0 <= x < y < b1.len() implies id_lt(
                (#[trigger] b1[x]).id,
                (#[trigger] b1[y]).id,
            ) by {
                assert(b1[x] == b[x + 1]);
                assert(b1[y] == b[y + 1]);
            }
        }
        lemma_sorted_unique(a1, b1);
        assert(a =~= b) by {
            assert forall|k: int| 0 <= k < a.len() implies a[k] == b[k] by {
                if k > 0 {
                    assert(a1[k - 1] == a[k]);
                    assert(b1[k - 1] == b[k]);
                }
            }
        }
    }
}

// ----------------------------------------------------------------------
// Executable packager.
// ----------------------------------------------------------------------

/// The views of a module list.
pub open spec fn infos_view(s: Seq<ModuleInfo>) -> Seq<ModuleInfoV> {
    Seq::new(s.len(), |i: int| s[i]@)
}

/// Find the first pending entry with the given identity.
fn find_in(pending: &Vec<ModuleInfo>, id: &ModuleId) -> (r: Option<usize>)
    ensures
        r matches Some(j) ==> find_id(infos_view(pending@), id@) == j && j < pending@.len(),
        r is None ==> find_id(infos_view(pending@), id@) == -1,
{
    let ghost pv = infos_view(pending@);
    let mut i: usize = 0;
    while i < pending.len()
        invariant
            0 <= i <= pending@.len(),
            forall|k: int| 0 <= k < i ==> (#[trigger] pv[k]).id != id@,
        decreases pending@.len() - i,
    {
        if pending[i].id.equals(id) {
            proof {
                lemma_find_id_at(pv, id@, i as int);
            }
            return Some(i);
        }
        i += 1;
    }
    proof {
        lemma_find_id_none(pv, id@);
    }
    None
}

/// Emit the subtree rooted at `id`: not-yet-emitted dependencies first,
/// then the module itself, each exactly once; the emitted modules leave
/// the pending list.
fn visit(emitted: &mut Vec<ModuleInfo>, pending: &mut Vec<ModuleInfo>, id: &ModuleId)
    ensures
        infos_view(final(pending)@) == walk_one(
            old(pending)@.len() as nat,
            id@,
            infos_view(old(pending)@),
        ).1,
        infos_view(final(emitted)@) == infos_view(old(emitted)@) + walk_one(
            old(pending)@.len() as nat,
            id@,
            infos_view(old(pending)@),
        ).0,
        final(pending)@.len() <= old(pending)@.len(),
    decreases old(pending)@.len(),
{
    let ghost p0 = infos_view(old(pending)@);
    let ghost f0 = old(pending)@.len() as nat;
    let ghost ev0 = infos_view(old(emitted)@);
    let found = find_in(pending, id);
    match found {
        None => {
            proof {
                assert(walk_one(f0, id@, p0).1 == p0);
                assert(ev0 + Seq::<ModuleInfoV>::empty() =~= ev0);
            }
        },
        Some(j) => {
            let m = pending.remove(j);
            proof {
                assert(infos_view(pending@) =~= p0.remove(j as int));
                assert(m@ == p0[j as int]);
            }
            let ghost p1 = infos_view(pending@);
            let ghost mdeps = m@.deps;
            let ghost e0 = old(emitted)@.len() as int;
            proof {
                assert(mdeps.skip(0) =~= mdeps);
                assert(infos_view(emitted@).skip(e0) =~= Seq::<ModuleInfoV>::empty());
                assert(Seq::<ModuleInfoV>::empty() + walk((f0 - 1) as nat, mdeps, p1).0
                    =~= walk((f0 - 1) as nat, mdeps, p1).0);
            }
            let mut d: usize = 0;
            while d < m.deps.len()
                invariant
                    0 <= d <= m.deps@.len(),
                    mdeps.len() == m.deps@.len(),
                    forall|k: int| 0 <= k < mdeps.len() ==> mdeps[k] == m.deps@[k]@,
                    pending@.len() + 1 <= f0,
                    e0 <= emitted@.len(),
                    infos_view(emitted@).take(e0) == ev0,
                    walk((f0 - 1) as nat, mdeps, p1) == (
                        infos_view(emitted@).skip(e0) + walk(
                            (f0 - 1) as nat,
                            mdeps.skip(d as int),
                            infos_view(pending@),
                        ).0,
                        walk((f0 - 1) as nat, mdeps.skip(d as int), infos_view(pending@)).1,
                    ),
                decreases m.deps@.len() - d,
            {
                let ghost pc = infos_view(pending@);
                let ghost ec = infos_view(emitted@);
                let ghost cl = pending@.len() as nat;
                visit(emitted, pending, &m.deps[d]);
                proof {
                    let dep = mdeps[d as int];
                    lemma_walk_one_fuel(cl, (f0 - 1) as nat, dep, pc);
                    let (o1, q1) = walk_one((f0 - 1) as nat, dep, pc);
                    assert(mdeps.skip(d as int)[0] == dep);
                    assert(mdeps.skip(d as int).skip(1) =~= mdeps.skip(d as int + 1));
                    assert(infos_view(emitted@) == ec + o1);
                    assert((ec + o1).take(e0) =~= ec.take(e0));
                    assert((ec + o1).skip(e0) =~= ec.skip(e0) + o1);
                    let (o2, q2) = walk((f0 - 1) as nat, mdeps.skip(d as int + 1), q1);
                    assert(ec.skip(e0) + (o1 + o2) =~= (ec.skip(e0) + o1) + o2);
                }
                d += 1;
            }
            proof {
                assert(mdeps.skip(mdeps.len() as int) =~= Seq::<IdView>::empty());
                assert(walk((f0 - 1) as nat, mdeps.skip(mdeps.len() as int), infos_view(pending@))
                    == (Seq::<ModuleInfoV>::empty(), infos_view(pending@)));
                assert(infos_view(emitted@).skip(e0) + Seq::<ModuleInfoV>::empty() =~= infos_view(
                    emitted@,
                ).skip(e0));
            }
            let ghost ev_pre = infos_view(emitted@);
            emitted.push(m);
            proof {
                assert(infos_view(emitted@) =~= ev_pre.push(m@));
                let (o1f, p2f) = walk((f0 - 1) as nat, mdeps, p1);
                assert(ev_pre.skip(e0) == o1f);
                assert(walk_one(f0, id@, p0).0 == o1f.push(m@));
                assert(ev_pre =~= ev_pre.take(e0) + ev_pre.skip(e0));
                assert((ev0 + o1f).push(m@) =~= ev0 + o1f.push(m@));
                assert(infos_view(emitted@) =~= ev0 + walk_one(f0, id@, p0).0);
            }
        },
    }
}

/// Absence of an identity survives one subtree emission.
pub proof fn lemma_no_id_after_walk_one(fuel: nat, id: IdView, p: Seq<ModuleInfoV>, x: IdView)
    requires
        !has_id(p, x),
    ensures
        !has_id(walk_one(fuel, id, p).1, x),
{
    lemma_walk_one_ms(fuel, id, p);
    let p2 = walk_one(fuel, id, p).1;
    if has_id(p2, x) {
        lemma_find_id(p2, x);
        let k = find_id(p2, x);
        let e = p2[k];
        assert(p2.to_multiset().contains(e)) by {
            assert(p2.contains(e));
        }
        assert(p.to_multiset().contains(e));
        assert(p.contains(e));
        let w = choose|w: int| 0 <= w < p.len() && p[w] == e;
        lemma_find_id(p, x);
        assert(p[w].id == x);
        assert(false);
    }
}

// ----------------------------------------------------------------------
// The package: what `sort` promises, over the input blobs alone.
// ----------------------------------------------------------------------

/// Does every input blob deserialize?
pub open spec fn parses(inputs: Seq<Seq<u8>>) -> bool {
    forall|i: int| 0 <= i < inputs.len() ==> parse_blob(#[trigger] inputs[i], 32) is Some
}

/// The deserialized inputs, in input order.
pub open spec fn parsed_infos(inputs: Seq<Seq<u8>>) -> Seq<ModuleInfoV> {
    Seq::new(inputs.len(), |i: int| parse_blob(inputs[i], 32).unwrap())
}

/// The pending list the emission starts from: inputs de-duplicated by
/// identity (later wins) and sorted by identity.
pub open spec fn prepared(inputs: Seq<Seq<u8>>) -> Seq<ModuleInfoV> {
    sort_by_id(dedup(parsed_infos(inputs)))
}

/// The modules of the package, in emission order.
pub open spec fn emission(inputs: Seq<Seq<u8>>) -> Seq<ModuleInfoV> {
    walk(prepared(inputs).len(), ids_of(prepared(inputs)), prepared(inputs)).0
}

/// The package body: the original blob of each emitted module, in
/// emission order.
pub open spec fn package_order(inputs: Seq<Seq<u8>>) -> Seq<Seq<u8>> {
    Seq::new(emission(inputs).len(), |k: int| emission(inputs)[k].bytes)
}

// ----------------------------------------------------------------------
// Dependency ordering.
// ----------------------------------------------------------------------

/// Every module of `o` stands after each of its dependencies, unless the
/// dependency is the module itself or `p` never supplied it.
pub open spec fn ordered_rel(o: Seq<ModuleInfoV>, p: Seq<ModuleInfoV>) -> bool {
    forall|k: int, d: int|
        0 <= k < o.len() && 0 <= d < o[k].deps.len() ==> {
            let dep = #[trigger] o[k].deps[d];
            (exists|j: int| 0 <= j < k && o[j].id == dep) || dep == o[k].id || !has_id(p, dep)
        }
}

/// `rank` witnesses that the dependency graph over the supplied modules
/// is acyclic: along every supplied edge the rank strictly drops.
pub open spec fn rank_ok(p: Seq<ModuleInfoV>, rank: spec_fn(IdView) -> nat) -> bool {
    forall|i: int, d: int|
        0 <= i < p.len() && 0 <= d < p[i].deps.len() ==> {
            let dep = #[trigger] p[i].deps[d];
            dep == p[i].id || !has_id(p, dep) || rank(dep) < rank(p[i].id)
        }
}

/// Every emitted module sits at or below the rank of some root that was
/// actually pending.
pub open spec fn below_roots(
    o: Seq<ModuleInfoV>,
    ids: Seq<IdView>,
    p: Seq<ModuleInfoV>,
    rank: spec_fn(IdView) -> nat,
) -> bool {
    forall|k: int|
        0 <= k < o.len() ==> exists|i: int|
            0 <= i < ids.len() && rank((#[trigger] o[k]).id) <= rank(ids[i]) && has_id(p, ids[i])
}

/// An identity is in the whole exactly when it is in one of the parts.
pub proof fn lemma_has_id_parts(o: Seq<ModuleInfoV>, q: Seq<ModuleInfoV>, p: Seq<ModuleInfoV>,
    x: IdView)
    requires
        p.to_multiset() == o.to_multiset().add(q.to_multiset()),
    ensures
        has_id(p, x) == (has_id(o, x) || has_id(q, x)),
{
    lemma_find_id(p, x);
    lemma_find_id(o, x);
    lemma_find_id(q, x);
    if has_id(p, x) {
        let e = p[find_id(p, x)];
        assert(p.to_multiset().contains(e)) by {
            assert(p.contains(e));
        }
        if o.to_multiset().contains(e) {
            assert(o.contains(e));
            let w = choose|w: int| 0 <= w < o.len() && o[w] == e;
            if !has_id(o, x) {
                assert(o[w].id != x);
            }
        } else {
            assert(q.to_multiset().contains(e));
            assert(q.contains(e));
            let w = choose|w: int| 0 <= w < q.len() && q[w] == e;
            if !has_id(q, x) {
                assert(q[w].id != x);
            }
        }
    }
    if has_id(o, x) {
        let e = o[find_id(o, x)];
        assert(p.to_multiset().contains(e)) by {
            assert(o.contains(e));
            assert(o.to_multiset().contains(e));
        }
        assert(p.contains(e));
        let w = choose|w: int| 0 <= w < p.len() && p[w] == e;
        if !has_id(p, x) {
            assert(p[w].id != x);
        }
    }
    if has_id(q, x) {
        let e = q[find_id(q, x)];
        assert(p.to_multiset().contains(e)) by {
            assert(q.contains(e));
            assert(q.to_multiset().contains(e));
        }
        assert(p.contains(e));
        let w = choose|w: int| 0 <= w < p.len() && p[w] == e;
        if !has_id(p, x) {
            assert(p[w].id != x);
        }
    }
}

/// Uniqueness of identities carries from the whole to both parts.
pub proof fn lemma_unique_parts(o: Seq<ModuleInfoV>, q: Seq<ModuleInfoV>, p: Seq<ModuleInfoV>)
    requires
        p.to_multiset() == o.to_multiset().add(q.to_multiset()),
        unique_ids(p),
    ensures
        unique_ids(o),
        unique_ids(q),
        unique_ids(o + q),
    {
    lemma_multiset_commutative(o, q);
    lemma_unique_ids_transfer(p, o + q);
    assert forall|a: int, b: int| 0 <= a < b < o.len() implies (#[trigger] o[a]).id != (
    #[trigger] o[b]).id by {
        assert((o + q)[a] == o[a]);
        assert((o + q)[b] == o[b]);
    }
    assert forall|a: int, b: int| 0 <= a < b < q.len() implies (#[trigger] q[a]).id != (
    #[trigger] q[b]).id by {
        assert((o + q)[o.len() + a] == q[a]);
        assert((o + q)[o.len() + b] == q[b]);
    }
}

/// The acyclicity witness survives passing to any sub-collection.
pub proof fn lemma_rank_ok_sub(o: Seq<ModuleInfoV>, q: Seq<ModuleInfoV>, p: Seq<ModuleInfoV>,
    rank: spec_fn(IdView) -> nat)
    requires
        p.to_multiset() == o.to_multiset().add(q.to_multiset()),
        rank_ok(p, rank),
    ensures
        rank_ok(q, rank),
{
    assert forall|i: int, d: int|
        0 <= i < q.len() && 0 <= d < q[i].deps.len() implies {
        let dep = #[trigger] q[i].deps[d];
        dep == q[i].id || !has_id(q, dep) || rank(dep) < rank(q[i].id)
    } by {
        let dep = q[i].deps[d];
        let e = q[i];
        assert(p.to_multiset().contains(e)) by {
            assert(q.contains(e));
            assert(q.to_multiset().contains(e));
        }
        assert(p.contains(e));
        let w = choose|w: int| 0 <= w < p.len() && p[w] == e;
        assert(p[w].deps[d] == dep);
        if has_id(q, dep) {
            lemma_has_id_parts(o, q, p, dep);
            assert(has_id(p, dep));
        }
    }
}

/// After the subtrees of all the given roots are emitted, none of the
/// roots is pending.
pub proof fn lemma_walk_clears(fuel: nat, ids: Seq<IdView>, p: Seq<ModuleInfoV>)
    requires
        unique_ids(p),
        fuel >= p.len(),
    ensures
        forall|i: int| 0 <= i < ids.len() ==> !has_id(walk(fuel, ids, p).1, #[trigger] ids[i]),
    decreases fuel, ids.len() + 1,
{
    if ids.len() > 0 {
        lemma_walk_one_clears(fuel, ids[0], p);
        lemma_walk_one_ms(fuel, ids[0], p);
        let (o1, p1) = walk_one(fuel, ids[0], p);
        lemma_unique_parts(o1, p1, p);
        lemma_walk_clears(fuel, ids.skip(1), p1);
        lemma_no_id_after_walk(fuel, ids.skip(1), p1, ids[0]);
        assert forall|i: int| 0 <= i < ids.len() implies !has_id(
            walk(fuel, ids, p).1,
            #[trigger] ids[i],
        ) by {
            if i > 0 {
                assert(ids.skip(1)[i - 1] == ids[i]);
            }
        }
    }
}

/// Emission from an acyclic pending list puts every module after its
/// dependencies.
pub proof fn lemma_walk_one_ordered(fuel: nat, id: IdView, p: Seq<ModuleInfoV>,
    rank: spec_fn(IdView) -> nat)
    requires
        unique_ids(p),
        rank_ok(p, rank),
        fuel >= p.len(),
    ensures
        ordered_rel(walk_one(fuel, id, p).0, p),
        forall|k: int| 0 <= k < walk_one(fuel, id, p).0.len() ==> rank(
            (#[trigger] walk_one(fuel, id, p).0[k]).id,
        ) <= rank(id),
    decreases fuel, 0int,
{
    let j = find_id(p, id);
    lemma_find_id(p, id);
    if j >= 0 && fuel > 0 {
        let m = p[j];
        let p1 = p.remove(j);
        let f1 = (fuel - 1) as nat;
        let (o1, p2) = walk(f1, m.deps, p1);
        let o = o1.push(m);
        lemma_walk_one_ms(fuel, id, p);
        lemma_unique_parts(walk_one(fuel, id, p).0, p2, p);
        // p1 is p without m
        assert(p.to_multiset() == p1.to_multiset().insert(m)) by {
            assert(p1.to_multiset() == p.to_multiset().remove(m));
            assert(p.to_multiset().contains(m)) by {
                assert(p.contains(m));
            }
            assert(p.to_multiset() =~= p1.to_multiset().insert(m));
        }
        assert(p.to_multiset() == seq![m].to_multiset().add(p1.to_multiset())) by {
            assert(seq![m] =~= Seq::<ModuleInfoV>::empty().push(m));
            lemma_multiset_commutative(seq![m], p1);
            assert((seq![m] + p1).to_multiset() =~= p1.to_multiset().insert(m));
        }
        lemma_unique_parts(seq![m], p1, p);
        lemma_rank_ok_sub(seq![m], p1, p, rank);
        lemma_walk_ordered(f1, m.deps, p1, rank);
        lemma_walk_ms(f1, m.deps, p1);
        lemma_walk_clears(f1, m.deps, p1);
        assert(!has_id(p1, m.id)) by {
            if has_id(p1, m.id) {
                lemma_find_id(p1, m.id);
                let w = find_id(p1, m.id);
                if w < j {
                    assert(p1[w] == p[w]);
                } else {
                    assert(p1[w] == p[w + 1]);
                }
            }
        }
        // the rank bound: everything under m sits strictly below m
        assert forall|k: int| 0 <= k < o.len() implies rank((#[trigger] o[k]).id) <= rank(id) by {
            if k < o1.len() {
                assert(below_roots(o1, m.deps, p1, rank));
                let i = choose|i: int|
                    0 <= i < m.deps.len() && rank(o1[k].id) <= rank(m.deps[i]) && has_id(
                        p1,
                        m.deps[i],
                    );
                lemma_has_id_parts(seq![m], p1, p, m.deps[i]);
                assert(has_id(p, m.deps[i]));
                assert(m.deps[i] != m.id);
                assert(rank(m.deps[i]) < rank(m.id));
                assert(m.id == id);
            } else {
                assert(o[k] == m);
            }
        }
        // the ordering itself
        assert forall|k: int, d: int|
            0 <= k < o.len() && 0 <= d < o[k].deps.len() implies {
            let dep = #[trigger] o[k].deps[d];
            (exists|j2: int| 0 <= j2 < k && o[j2].id == dep) || dep == o[k].id || !has_id(p, dep)
        } by {
            let dep = o[k].deps[d];
            if k < o1.len() {
                assert(o[k] == o1[k]);
                assert(o1[k].deps[d] == dep);
                assert(ordered_rel(o1, p1));
                if exists|j2: int| 0 <= j2 < k && o1[j2].id == dep {
                    let j2 = choose|j2: int| 0 <= j2 < k && o1[j2].id == dep;
                    assert(o[j2] == o1[j2]);
                } else if dep == o1[k].id {
                } else {
                    assert(!has_id(p1, dep));
                    if has_id(p, dep) {
                        lemma_has_id_parts(seq![m], p1, p, dep);
                        assert(has_id(seq![m], dep));
                        assert(seq![m][0] == m);
                        lemma_find_id(seq![m], dep);
                        assert(dep == m.id);
                        // a module below m cannot point back up at m
                        assert(rank(o1[k].id) <= rank(id));
                        assert(below_roots(o1, m.deps, p1, rank));
                        let i = choose|i: int|
                            0 <= i < m.deps.len() && rank(o1[k].id) <= rank(m.deps[i]) && has_id(
                                p1,
                                m.deps[i],
                            );
                        lemma_has_id_parts(seq![m], p1, p, m.deps[i]);
                        assert(rank(m.deps[i]) < rank(m.id));
                        // and the edge back up would force the opposite
                        let e = o1[k];
                        assert(p1.to_multiset() == o1.to_multiset().add(p2.to_multiset()));
                        assert(p1.to_multiset().contains(e)) by {
                            assert(o1.contains(e));
                            assert(o1.to_multiset().contains(e));
                        }
                        assert(p1.contains(e));
                        let w1 = choose|w1: int| 0 <= w1 < p1.len() && p1[w1] == e;
                        assert(p.to_multiset().contains(e)) by {
                            assert(p1.to_multiset().contains(e));
                        }
                        assert(p.contains(e));
                        let w = choose|w: int| 0 <= w < p.len() && p[w] == e;
                        assert(p[w].deps[d] == dep);
                        assert(dep != p[w].id);
                        assert(has_id(p, dep));
                        assert(rank(dep) < rank(p[w].id));
                        assert(rank(m.id) < rank(o1[k].id));
                        assert(false);
                    }
                }
            } else {
                // the module itself comes last: its dependencies are
                // either already emitted or were never supplied
                assert(o[k] == m);
                assert(m.deps[d] == dep);
                if dep == m.id {
                } else if has_id(p, dep) {
                    assert(!has_id(p1, dep) ==> dep == m.id) by {
                        lemma_has_id_parts(seq![m], p1, p, dep);
                        if has_id(seq![m], dep) {
                            lemma_find_id(seq![m], dep);
                            assert(seq![m][find_id(seq![m], dep)] == m);
                        }
                    }
                    assert(has_id(p1, dep));
                    assert(!has_id(p2, m.deps[d]));
                    assert(!has_id(p2, dep));
                    // so its carrier went out with the dependency walk
                    lemma_has_id_parts(o1, p2, p1, dep);
                    assert(has_id(o1, dep));
                    lemma_find_id(o1, dep);
                    let j2 = find_id(o1, dep);
                    assert(o[j2] == o1[j2]);
                }
            }
        }
    }
}

/// As `lemma_walk_one_ordered`, across a whole root list.
pub proof fn lemma_walk_ordered(fuel: nat, ids: Seq<IdView>, p: Seq<ModuleInfoV>,
    rank: spec_fn(IdView) -> nat)
    requires
        unique_ids(p),
        rank_ok(p, rank),
        fuel >= p.len(),
    ensures
        ordered_rel(walk(fuel, ids, p).0, p),
        below_roots(walk(fuel, ids, p).0, ids, p, rank),
    decreases fuel, ids.len() + 1,
{
    if ids.len() > 0 {
        let (o1, p1) = walk_one(fuel, ids[0], p);
        let (o2, p2) = walk(fuel, ids.skip(1), p1);
        let o = o1 + o2;
        lemma_walk_one_ordered(fuel, ids[0], p, rank);
        lemma_walk_one_ms(fuel, ids[0], p);
        lemma_unique_parts(o1, p1, p);
        lemma_rank_ok_sub(o1, p1, p, rank);
        lemma_walk_ordered(fuel, ids.skip(1), p1, rank);
        lemma_walk_ms(fuel, ids.skip(1), p1);
        // ordering of the concatenation
        assert forall|k: int, d: int|
            0 <= k < o.len() && 0 <= d < o[k].deps.len() implies {
            let dep = #[trigger] o[k].deps[d];
            (exists|j2: int| 0 <= j2 < k && o[j2].id == dep) || dep == o[k].id || !has_id(p, dep)
        } by {
            let dep = o[k].deps[d];
            if k < o1.len() {
                assert(o[k] == o1[k]);
                assert(o1[k].deps[d] == dep);
                if exists|j2: int| 0 <= j2 < k && o1[j2].id == dep {
                    let j2 = choose|j2: int| 0 <= j2 < k && o1[j2].id == dep;
                    assert(o[j2] == o1[j2]);
                }
            } else {
                let k2 = k - o1.len();
                assert(o[k] == o2[k2]);
                assert(o2[k2].deps[d] == dep);
                if exists|j2: int| 0 <= j2 < k2 && o2[j2].id == dep {
                    let j2 = choose|j2: int| 0 <= j2 < k2 && o2[j2].id == dep;
                    assert(o[o1.len() + j2] == o2[j2]);
                } else if dep == o2[k2].id {
                } else {
                    assert(!has_id(p1, dep));
                    if has_id(p, dep) {
                        lemma_has_id_parts(o1, p1, p, dep);
                        assert(has_id(o1, dep));
                        lemma_find_id(o1, dep);
                        let j2 = find_id(o1, dep);
                        assert(o[j2] == o1[j2]);
                    }
                }
            }
        }
        // every emitted module sits below a root that was pending
        assert forall|k: int| 0 <= k < o.len() implies exists|i: int|
            0 <= i < ids.len() && rank((#[trigger] o[k]).id) <= rank(ids[i]) && has_id(
                p,
                ids[i],
            ) by {
            if k < o1.len() {
                assert(o[k] == o1[k]);
                if o1.len() > 0 {
                    lemma_find_id(p, ids[0]);
                    assert(has_id(p, ids[0]));
                    assert(rank(o1[k].id) <= rank(ids[0]));
                }
            } else {
                let k2 = k - o1.len();
                assert(o[k] == o2[k2]);
                assert(below_roots(o2, ids.skip(1), p1, rank));
                let i = choose|i: int|
                    0 <= i < ids.skip(1).len() && rank(o2[k2].id) <= rank(ids.skip(1)[i])
                        && has_id(p1, ids.skip(1)[i]);
                assert(ids.skip(1)[i] == ids[i + 1]);
                lemma_has_id_parts(o1, p1, p, ids[i + 1]);
                assert(has_id(p, ids[i + 1]));
            }
        }
    }
}

/// Dependency ordering: in a produced package every module stands after
/// every dependency of it that the input set supplies; a module's
/// reference to itself is a no-op. The `rank` argument witnesses that
/// the supplied modules' dependency graph is acyclic, which the source
/// language guarantees by construction.
pub proof fn lemma_dependency_ordering(inputs: Seq<Seq<u8>>, rank: spec_fn(IdView) -> nat)
    requires
        parses(inputs),
        rank_ok(prepared(inputs), rank),
    ensures
        ordered_rel(emission(inputs), prepared(inputs)),
{
    let s = prepared(inputs);
    lemma_dedup_unique(parsed_infos(inputs));
    lemma_sort_by_id(dedup(parsed_infos(inputs)));
    lemma_unique_ids_transfer(dedup(parsed_infos(inputs)), s);
    lemma_walk_ordered(s.len(), ids_of(s), s, rank);
}

/// Package determinism: two input lists holding the same modules, no two
/// with one identity, yield the same package, whatever their order.
pub proof fn lemma_package_determinism(in1: Seq<Seq<u8>>, in2: Seq<Seq<u8>>)
    requires
        parses(in1),
        parses(in2),
        parsed_infos(in1).to_multiset() == parsed_infos(in2).to_multiset(),
        unique_ids(parsed_infos(in1)),
    ensures
        package_order(in1) == package_order(in2),
{
    let p1 = parsed_infos(in1);
    let p2 = parsed_infos(in2);
    lemma_unique_ids_transfer(p1, p2);
    lemma_dedup_identity(p1);
    lemma_dedup_identity(p2);
    lemma_sort_by_id(p1);
    lemma_sort_by_id(p2);
    lemma_sorted_unique(sort_by_id(p1), sort_by_id(p2));
    assert(prepared(in1) == prepared(in2));
    assert(package_order(in1) =~= package_order(in2));
}

/// Insert a module with a fresh identity into an identity-sorted list,
/// keeping the order.
fn insert_by_id(srt: &mut Vec<ModuleInfo>, m: ModuleInfo)
    requires
        sorted_ids(infos_view(old(srt)@)),
        forall|k: int| 0 <= k < old(srt)@.len() ==> (#[trigger] infos_view(old(srt)@)[k]).id
            != m@.id,
    ensures
        sorted_ids(infos_view(final(srt)@)),
        infos_view(final(srt)@).to_multiset() == infos_view(old(srt)@).to_multiset().insert(m@),
{
    let ghost sv = infos_view(old(srt)@);
    let mut pos: usize = 0;
    while pos < srt.len() && crate::module::id_cmp(&srt[pos].id, &m.id) == -1
        invariant
            0 <= pos <= srt@.len(),
            srt@ == old(srt)@,
            forall|k: int| 0 <= k < pos ==> id_lt((#[trigger] sv[k]).id, m@.id),
        decreases srt@.len() - pos,
    {
        pos += 1;
    }
    proof {
        if pos < srt@.len() {
            lemma_id_lt_trichotomy(sv[pos as int].id, m@.id);
            assert(id_lt(m@.id, sv[pos as int].id));
        }
        assert forall|k: int| pos <= k < sv.len() implies id_lt(m@.id, (#[trigger] sv[k]).id) by {
            if k > pos {
                lemma_id_lt_transitive(m@.id, sv[pos as int].id, sv[k].id);
            }
        }
    }
    srt.insert(pos, m);
    proof {
        assert(infos_view(srt@) =~= sv.insert(pos as int, m@));
        sv.insert_ensures(pos as int, m@);
        let sv2 = infos_view(srt@);
        assert forall|x: int, y: int| 0 <= x < y < sv2.len() implies id_lt(
            (#[trigger] sv2[x]).id,
            (#[trigger] sv2[y]).id,
        ) by {
            if y < pos {
            } else if y == pos as int {
                assert(sv2[x] == sv[x]);
            } else {
                assert(sv2[y] == sv[y - 1]);
                if x < pos {
                    lemma_id_lt_transitive(sv[x].id, m@.id, sv[y - 1].id);
                } else if x == pos as int {
                } else {
                    assert(sv2[x] == sv[x - 1]);
                }
            }
        }
        assert(sv2.to_multiset() == sv.to_multiset().insert(m@));
    }
}

/// Emit every pending module, roots in the given order, dependencies
/// first, each module exactly once; the pending list ends empty.
fn emit_all(roots: &Vec<ModuleId>, pend: &mut Vec<ModuleInfo>) -> (emitted: Vec<ModuleInfo>)
    requires
        unique_ids(infos_view(old(pend)@)),
        roots@.len() == old(pend)@.len(),
        forall|k: int| 0 <= k < roots@.len() ==> (#[trigger] roots@[k])@ == ids_of(
            infos_view(old(pend)@),
        )[k],
    ensures
        infos_view(emitted@) == walk(
            old(pend)@.len() as nat,
            ids_of(infos_view(old(pend)@)),
            infos_view(old(pend)@),
        ).0,
        final(pend)@.len() == 0,
        infos_view(emitted@).to_multiset() == infos_view(old(pend)@).to_multiset(),
{
    let ghost sview = infos_view(old(pend)@);
    let ghost rootids = ids_of(sview);
    let ghost f0 = sview.len() as nat;
    let mut emitted: Vec<ModuleInfo> = Vec::new();
    let mut t2: usize = 0;
    proof {
        assert(rootids.skip(0) =~= rootids);
        assert(infos_view(emitted@) + walk(f0, rootids, sview).0 =~= walk(f0, rootids, sview).0);
        assert(infos_view(emitted@) + infos_view(pend@) =~= sview);
    }
    while t2 < roots.len()
        invariant
            0 <= t2 <= roots@.len(),
            roots@.len() == rootids.len() == f0,
            pend@.len() <= f0,
            walk(f0, rootids, sview) == (
                infos_view(emitted@) + walk(f0, rootids.skip(t2 as int), infos_view(pend@)).0,
                walk(f0, rootids.skip(t2 as int), infos_view(pend@)).1,
            ),
            (infos_view(emitted@) + infos_view(pend@)).to_multiset() == sview.to_multiset(),
            forall|k: int| 0 <= k < t2 ==> !has_id(infos_view(pend@), #[trigger] rootids[k]),
        decreases roots@.len() - t2,
    {
        let ghost pc = infos_view(pend@);
        let ghost ec = infos_view(emitted@);
        let ghost cl = pend@.len() as nat;
        proof {
            lemma_unique_ids_transfer(sview, ec + pc);
            assert forall|a: int, b: int| 0 <= a < b < pc.len() implies (#[trigger] pc[a]).id != (
            #[trigger] pc[b]).id by {
                assert((ec + pc)[ec.len() + a] == pc[a]);
                assert((ec + pc)[ec.len() + b] == pc[b]);
            }
        }
        visit(&mut emitted, pend, &roots[t2]);
        proof {
            let dep = rootids[t2 as int];
            lemma_walk_one_fuel(cl, f0, dep, pc);
            let (o1, q1) = walk_one(f0, dep, pc);
            assert(rootids.skip(t2 as int)[0] == dep);
            assert(rootids.skip(t2 as int).skip(1) =~= rootids.skip(t2 as int + 1));
            assert(infos_view(emitted@) == ec + o1);
            let (o2, q2) = walk(f0, rootids.skip(t2 as int + 1), q1);
            assert(ec + (o1 + o2) =~= (ec + o1) + o2);
            lemma_walk_one_ms(f0, dep, pc);
            lemma_multiset_commutative(ec, pc);
            lemma_multiset_commutative(ec + o1, q1);
            lemma_multiset_commutative(ec, o1);
            assert(((ec + o1) + q1).to_multiset() =~= sview.to_multiset());
            lemma_walk_one_clears(f0, dep, pc);
            assert forall|k: int| 0 <= k < t2 + 1 implies !has_id(
                infos_view(pend@),
                #[trigger] rootids[k],
            ) by {
                if k < t2 {
                    lemma_no_id_after_walk_one(f0, dep, pc, rootids[k]);
                }
            }
        }
        t2 += 1;
    }
    let ghost emv = infos_view(emitted@);
    let ghost pv = infos_view(pend@);
    proof {
        assert(rootids.skip(rootids.len() as int) =~= Seq::<IdView>::empty());
        assert(walk(f0, rootids.skip(rootids.len() as int), pv) == (
            Seq::<ModuleInfoV>::empty(),
            pv,
        ));
        assert(emv + Seq::<ModuleInfoV>::empty() =~= emv);
        if pv.len() > 0 {
            let x = pv[0];
            lemma_multiset_commutative(emv, pv);
            assert((emv + pv).to_multiset().count(x) >= 1) by {
                assert(pv.contains(x));
                assert(pv.to_multiset().count(x) >= 1);
            }
            assert(sview.to_multiset().contains(x));
            assert(sview.contains(x));
            let w = choose|w: int| 0 <= w < sview.len() && sview[w] == x;
            assert(rootids[w] == x.id);
            assert(!has_id(pv, x.id));
            lemma_find_id(pv, x.id);
            assert(false);
        }
        assert(pv =~= Seq::<ModuleInfoV>::empty());
        assert(emv + pv =~= emv);
        assert(emv == walk(f0, rootids, sview).0);
        lemma_multiset_commutative(emv, pv);
        assert(emv.to_multiset() =~= sview.to_multiset());
    }
    emitted
}

/// An ordered bundle of compiled module blobs for atomic deployment.
pub struct ModulePackage {
    modules: Vec<Vec<u8>>,
}

impl View for ModulePackage {
    type V = Seq<Seq<u8>>;

    closed spec fn view(&self) -> Seq<Seq<u8>> {
        Seq::new(self.modules@.len(), |i: int| self.modules@[i]@)
    }
}

impl Default for ModulePackage {
    /// The empty package.
    fn default() -> (r: ModulePackage)
        ensures
            r@.len() == 0,
    {
        ModulePackage { modules: Vec::new() }
    }
}

impl ModulePackage {
    /// Add one module blob to the package.
    pub fn put(&mut self, module: Vec<u8>)
        ensures
            final(self)@ == old(self)@.push(module@),
    {
        self.modules.push(module);
        proof {
            assert(self@ =~= old(self)@.push(module@));
        }
    }

    /// The blobs held, in current order.
    pub fn modules(&self) -> (r: &Vec<Vec<u8>>)
        ensures
            r@.len() == self@.len(),
            forall|i: int| 0 <= i < r@.len() ==> (#[trigger] r@[i])@ == self@[i],
    {
        &self.modules
    }

    /// Deserialize every module, then rewrite the package into the
    /// canonical emission order: identities sorted for determinism, each
    /// module after its dependencies, each exactly once. A blob that does
    /// not deserialize is fatal and leaves the package empty.
    pub fn sort(&mut self) -> (r: Result<(), CoreError>)
        ensures
            r is Ok <==> parses(old(self)@),
            r matches Err(e) ==> e == CoreError::DeserializationFailure && final(self)@.len()
                == 0,
            r is Ok ==> final(self)@ == package_order(old(self)@),
            r is Ok ==> unique_ids(emission(old(self)@)),
            r is Ok ==> emission(old(self)@).to_multiset() == prepared(old(self)@).to_multiset(),
    {
        let ghost inputs = old(self)@;
        // drain the raw blobs
        let mut raw: Vec<Vec<u8>> = Vec::new();
        while self.modules.len() > 0
            invariant
                raw@.len() + self.modules@.len() == inputs.len(),
                forall|k: int| 0 <= k < raw@.len() ==> (#[trigger] raw@[k])@ == inputs[k],
                forall|k: int| 0 <= k < self.modules@.len() ==> (#[trigger] self.modules@[k])@
                    == inputs[raw@.len() + k],
            decreases self.modules@.len(),
        {
            raw.push(self.modules.remove(0));
        }
        // deserialize each blob
        let ghost pviews = parsed_infos(inputs);
        let mut parsed: Vec<ModuleInfo> = Vec::new();
        let mut i: usize = 0;
        let n = raw.len();
        while i < n
            invariant
                0 <= i <= n == inputs.len(),
                raw@.len() == n,
                self.modules@.len() == 0,
                forall|k: int| 0 <= k < raw@.len() ==> (#[trigger] raw@[k])@ == inputs[k],
                parsed@.len() == i,
                forall|k: int| 0 <= k < i ==> parse_blob(#[trigger] inputs[k], 32) is Some,
                forall|k: int| 0 <= k < i ==> infos_view(parsed@)[k] == pviews[k],
            decreases n - i,
        {
            match crate::codec::parse_module(&raw[i]) {
                Ok(m) => {
                    parsed.push(m);
                },
                Err(_) => {
                    return Err(CoreError::DeserializationFailure);
                },
            }
            i += 1;
        }
        assert(infos_view(parsed@) =~= pviews);
        // de-duplicate by identity, the later entry winning
        let ghost dd0 = dedup(pviews);
        let mut dd: Vec<ModuleInfo> = Vec::new();
        let mut j: usize = 0;
        while parsed.len() > 0
            invariant
                j + parsed@.len() == pviews.len(),
                forall|k: int| 0 <= k < parsed@.len() ==> infos_view(parsed@)[k] == pviews[j + k],
                infos_view(dd@) == dedup(pviews.take(j as int)),
            decreases parsed@.len(),
        {
            let ghost pre = infos_view(dd@);
            let ghost pav = infos_view(parsed@);
            let m = parsed.remove(0);
            proof {
                assert(m@ == pav[0]);
                assert(m@ == pviews[j as int]);
                assert(infos_view(parsed@) =~= pav.skip(1));
                assert forall|k: int| 0 <= k < parsed@.len() implies infos_view(parsed@)[k]
                    == pviews[j + 1 + k] by {
                    assert(pav.skip(1)[k] == pav[k + 1]);
                }
                assert(pviews.take(j + 1).drop_last() =~= pviews.take(j as int));
                assert(pviews.take(j + 1).last() == pviews[j as int]);
            }
            let found = find_in(&dd, &m.id);
            match found {
                None => {
                    dd.push(m);
                    proof {
                        assert(infos_view(dd@) =~= pre.push(pviews[j as int]));
                        assert(infos_view(dd@) =~= dedup(pviews.take(j + 1)));
                    }
                },
                Some(at) => {
                    dd.set(at, m);
                    proof {
                        assert(infos_view(dd@) =~= pre.update(at as int, pviews[j as int]));
                        assert(infos_view(dd@) =~= dedup(pviews.take(j + 1)));
                    }
                },
            }
            j += 1;
        }
        proof {
            assert(pviews.take(pviews.len() as int) =~= pviews);
            assert(infos_view(dd@) == dd0);
            lemma_dedup_unique(pviews);
        }
        // sort by identity for a deterministic root order
        let mut srt: Vec<ModuleInfo> = Vec::new();
        while dd.len() > 0
            invariant
                sorted_ids(infos_view(srt@)),
                (infos_view(srt@) + infos_view(dd@)).to_multiset() == dd0.to_multiset(),
            decreases dd@.len(),
        {
            let ghost sv = infos_view(srt@);
            let ghost dv = infos_view(dd@);
            proof {
                lemma_unique_ids_transfer(dd0, sv + dv);
            }
            let m = dd.remove(0);
            proof {
                assert(m@ == dv[0]);
                assert(infos_view(dd@) =~= dv.skip(1));
                assert forall|k: int| 0 <= k < sv.len() implies (#[trigger] sv[k]).id != m@.id by {
                    assert((sv + dv)[k] == sv[k]);
                    assert((sv + dv)[sv.len() as int] == dv[0]);
                }
            }
            insert_by_id(&mut srt, m);
            proof {
                let sv2 = infos_view(srt@);
                assert(dv.to_multiset() =~= infos_view(dd@).to_multiset().insert(m@)) by {
                    assert(infos_view(dd@) =~= dv.remove(0));
                    assert(dv.remove(0).to_multiset() == dv.to_multiset().remove(dv[0]));
                    assert(dv.to_multiset().count(dv[0]) >= 1) by {
                        assert(dv.contains(dv[0]));
                    }
                }
                lemma_multiset_commutative(sv, dv);
                lemma_multiset_commutative(sv2, infos_view(dd@));
                assert((sv2 + infos_view(dd@)).to_multiset() =~= dd0.to_multiset());
            }
        }
        let ghost sview = infos_view(srt@);
        proof {
            assert(infos_view(dd@).len() == 0);
            assert(sview + infos_view(dd@) =~= sview);
            lemma_sort_by_id(dd0);
            lemma_sorted_unique(sview, sort_by_id(dd0));
            assert(sview == prepared(inputs));
            lemma_unique_ids_transfer(dd0, sview);
        }
        // the sorted identities are the roots
        let mut roots: Vec<ModuleId> = Vec::new();
        let mut t: usize = 0;
        while t < srt.len()
            invariant
                roots@.len() == t <= srt@.len(),
                infos_view(srt@) == sview,
                forall|k: int| 0 <= k < t ==> (#[trigger] roots@[k])@ == sview[k].id,
            decreases srt@.len() - t,
        {
            roots.push(srt[t].id.duplicate());
            t += 1;
        }
        // depth-first emission, dependencies before dependents
        let mut emitted = emit_all(&roots, &mut srt);
        let ghost emv = infos_view(emitted@);
        proof {
            assert(emv == emission(inputs));
            lemma_unique_ids_transfer(sview, emv);
        }
        // write the package back, in emission order
        while emitted.len() > 0
            invariant
                self.modules@.len() + emitted@.len() == emv.len(),
                forall|k: int| 0 <= k < emitted@.len() ==> infos_view(emitted@)[k] == emv[
                    self.modules@.len() + k
                ],
                forall|k: int| 0 <= k < self.modules@.len() ==> (#[trigger] self.modules@[k])@
                    == emv[k].bytes,
            decreases emitted@.len(),
        {
            let ghost evv = infos_view(emitted@);
            let m = emitted.remove(0);
            proof {
                assert(m@ == evv[0]);
                assert(infos_view(emitted@) =~= evv.skip(1));
                assert forall|k: int| 0 <= k < emitted@.len() implies infos_view(emitted@)[k]
                    == emv[self.modules@.len() + 1 + k] by {
                    assert(evv.skip(1)[k] == evv[k + 1]);
                }
            }
            self.modules.push(m.bytes);
        }
        proof {
            assert(self@ =~= package_order(inputs));
        }
        Ok(())
    }

    /// Serialize the package into its single binary envelope.
    pub fn encode(&self) -> (r: Result<Vec<u8>, CoreError>)
        ensures
            r is Ok <==> crate::encode::envelope_ok(self@),
            r matches Ok(b) ==> b@ == crate::encode::package_envelope(self@),
            r matches Err(e) ==> e == CoreError::EncodingMismatch,
    {
        let r = crate::encode::encode_blobs(&self.modules);
        proof {
            assert(Seq::new(self.modules@.len(), |i: int| self.modules@[i]@) =~= self@);
        }
        r
    }
}

/// One bytecode file handed to the deploy step: its file name and its
/// contents.
pub struct BytecodeFile {
    pub name: Vec<u8>,
    pub bytes: Vec<u8>,
}

/// Does the file name end in `.mv`?
pub open spec fn is_mv_name(name: Seq<u8>) -> bool {
    name.len() > 3 && name[name.len() - 3] == 46 && name[name.len() - 2] == 109 && name[name.len()
        - 1] == 118
}

/// The module name: the file name with the `.mv` suffix cut off.
pub open spec fn stem_of(name: Seq<u8>) -> Seq<u8> {
    name.take(name.len() - 3)
}

/// The bytes with every ASCII letter lower-cased.
pub open spec fn fold_bytes(s: Seq<u8>) -> Seq<u8> {
    Seq::new(s.len(), |i: int| crate::clean::fold_byte(s[i]))
}

/// Does one exclusion entry name this module? Entries match the module
/// name case-insensitively, given with or without the `.mv` suffix.
pub open spec fn excl_matches(entry: Seq<u8>, stem: Seq<u8>) -> bool {
    fold_bytes(entry) == fold_bytes(stem) || fold_bytes(entry) == fold_bytes(stem) + seq![
        46u8,
        109u8,
        118u8,
    ]
}

/// Does any exclusion entry name this module?
pub open spec fn excluded(excl: Seq<Seq<u8>>, stem: Seq<u8>) -> bool {
    exists|k: int| 0 <= k < excl.len() && excl_matches(#[trigger] excl[k], stem)
}

/// The blobs that survive the exclusion list, in file order.
pub open spec fn kept_blobs(files: Seq<(Seq<u8>, Seq<u8>)>, excl: Seq<Seq<u8>>) -> Seq<Seq<u8>>
    decreases files.len(),
{
    if files.len() == 0 {
        Seq::empty()
    } else {
        let rest = kept_blobs(files.skip(1), excl);
        if excluded(excl, stem_of(files[0].0)) {
            rest
        } else {
            seq![files[0].1] + rest
        }
    }
}

/// Lower-case a byte string (executable form).
fn fold_vec(v: &Vec<u8>) -> (r: Vec<u8>)
    ensures
        r@ == fold_bytes(v@),
{
    let mut out: Vec<u8> = Vec::new();
    let mut i: usize = 0;
    while i < v.len()
        invariant
            0 <= i <= v@.len(),
            out@ == fold_bytes(v@).take(i as int),
        decreases v@.len() - i,
    {
        let c = v[i];
        if 65 <= c && c <= 90 {
            out.push(c + 32);
        } else {
            out.push(c);
        }
        proof {
            assert(out@ =~= fold_bytes(v@).take(i + 1));
        }
        i += 1;
    }
    proof {
        assert(fold_bytes(v@).take(v@.len() as int) =~= fold_bytes(v@));
    }
    out
}

/// The views of the deploy inputs.
pub open spec fn files_view(files: Seq<BytecodeFile>) -> Seq<(Seq<u8>, Seq<u8>)> {
    Seq::new(files.len(), |i: int| (files[i].name@, files[i].bytes@))
}

/// Packaging of compiled modules for deployment: which modules to leave
/// out, and the output name the caller wants.
pub struct Deploy {
    pub modules_exclude: Vec<Vec<u8>>,
    pub output: Option<Vec<u8>>,
}

impl Deploy {
    /// Bundle bytecode files into one deployable package blob: files with
    /// an excluded module name are dropped, the rest are deserialized,
    /// ordered dependencies-first and wrapped in the package envelope.
    /// Every file name must carry the `.mv` suffix.
    pub fn apply(&self, files: &Vec<BytecodeFile>) -> (r: Result<Vec<u8>, CoreError>)
        ensures
            ({
                let fv = files_view(files@);
                let ex = Seq::new(self.modules_exclude@.len(), |i: int| self.modules_exclude@[i]@);
                let kept = kept_blobs(fv, ex);
                &&& (r is Ok ==> (forall|i: int| 0 <= i < fv.len() ==> is_mv_name(
                    (#[trigger] fv[i]).0,
                )) && parses(kept) && r->Ok_0@ == crate::encode::package_envelope(
                    package_order(kept),
                ))
                &&& ((forall|i: int| 0 <= i < fv.len() ==> is_mv_name((#[trigger] fv[i]).0))
                    && parses(kept) && crate::encode::envelope_ok(package_order(kept)) ==> r is Ok)
                &&& (r matches Err(e) ==> e == CoreError::UnexpectedFileName
                    || e == CoreError::DeserializationFailure || e == CoreError::EncodingMismatch)
            }),
    {
        let ghost fv = files_view(files@);
        let ghost ex = Seq::new(self.modules_exclude@.len(), |i: int| self.modules_exclude@[i]@);
        let mut pac = ModulePackage::default();
        proof {
            assert(pac@ =~= Seq::<Seq<u8>>::empty());
        }
        let n = files.len();
        proof {
            assert(fv.skip(0) =~= fv);
            assert(pac@ + kept_blobs(fv, ex) =~= kept_blobs(fv, ex));
        }
        let mut i: usize = 0;
        while i < n
            invariant
                0 <= i <= n == files@.len(),
                fv == files_view(files@),
                ex == Seq::new(self.modules_exclude@.len(), |k: int| self.modules_exclude@[k]@),
                forall|k: int| 0 <= k < i ==> is_mv_name((#[trigger] fv[k]).0),
                pac@ + kept_blobs(fv.skip(i as int), ex) == kept_blobs(fv, ex),
            decreases n - i,
        {
            let name = &files[i].name;
            let ln = name.len();
            if ln <= 3 || name[ln - 3] != 46 || name[ln - 2] != 109 || name[ln - 1] != 118 {
                return Err(CoreError::UnexpectedFileName);
            }
            let stem = crate::module::sub_bytes(name, 0, ln - 3);
            let ghost stemv = stem_of(fv[i as int].0);
            proof {
                assert(stem@ =~= stemv);
            }
            let folded_stem = fold_vec(&stem);
            let mut folded_stem_mv = crate::module::copy_bytes(&folded_stem);
            folded_stem_mv.push(46);
            folded_stem_mv.push(109);
            folded_stem_mv.push(118);
            proof {
                assert(folded_stem_mv@ =~= fold_bytes(stemv) + seq![46u8, 109u8, 118u8]);
            }
            let mut skip_file = false;
            let mut e: usize = 0;
            while e < self.modules_exclude.len()
                invariant
                    0 <= e <= self.modules_exclude@.len(),
                    folded_stem@ == fold_bytes(stemv),
                    folded_stem_mv@ == fold_bytes(stemv) + seq![46u8, 109u8, 118u8],
                    skip_file ==> excluded(ex, stemv),
                    !skip_file ==> forall|k: int| 0 <= k < e ==> !excl_matches(
                        #[trigger] ex[k],
                        stemv,
                    ),
                decreases self.modules_exclude@.len() - e,
            {
                let fe = fold_vec(&self.modules_exclude[e]);
                proof {
                    assert(fe@ == fold_bytes(ex[e as int]));
                }
                if crate::address::bytes_equal(&fe, &folded_stem) || crate::address::bytes_equal(
                    &fe,
                    &folded_stem_mv,
                ) {
                    skip_file = true;
                    proof {
                        assert(excl_matches(ex[e as int], stemv));
                    }
                }
                e += 1;
            }
            let excluded = skip_file;
            proof {
                assert(fv.skip(i as int)[0] == fv[i as int]);
                assert(fv.skip(i as int).skip(1) =~= fv.skip(i as int + 1));
                if !excluded {
                    assert(!crate::bundle::excluded(ex, stemv)) by {
                        if crate::bundle::excluded(ex, stemv) {
                            let w = choose|w: int|
                                0 <= w < ex.len() && excl_matches(#[trigger] ex[w], stemv);
                        }
                    }
                }
            }
            if !excluded {
                let ghost before = pac@;
                pac.put(crate::module::copy_bytes(&files[i].bytes));
                proof {
                    assert(fv[i as int].1 == files@[i as int].bytes@);
                    assert(before.push(fv[i as int].1) + kept_blobs(fv.skip(i as int + 1), ex)
                        =~= before + (seq![fv[i as int].1] + kept_blobs(fv.skip(i as int + 1), ex)));
                }
            }
            i += 1;
        }
        proof {
            assert(fv.skip(n as int) =~= Seq::<(Seq<u8>, Seq<u8>)>::empty());
            assert(pac@ + Seq::<Seq<u8>>::empty() =~= pac@);
            assert(pac@ == kept_blobs(fv, ex));
        }
        match pac.sort() {
            Ok(()) => {},
            Err(e2) => {
                return Err(e2);
            },
        }
        pac.encode()
    }
}

} // verus!
