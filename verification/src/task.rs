//! Scheduling and running of tasks: the dependency resolver that turns the
//! object store into dependency-ordered batches, the decision logic of the
//! task-executor polling loop, and the bookkeeping of the completion loop.

use vstd::pervasive::VecAdditionalExecFns;
use vstd::prelude::*;

use crate::config::{
    distinct_names, find_named, has_name, name_index, same_object, with_satisfied, ManagedObject,
    Store, Worker, OS,
};
use crate::hmerror::{ErrorKind, HMError};

verus! {

// ------------------------------------------------------------------
// The dependency graph, at the specification level.
// ------------------------------------------------------------------
/// An object may run when it declares no platform or declares ours.
pub open spec fn platform_ok(mo: ManagedObject, os: OS) -> bool {
    mo.os is None || mo.os == Some(os)
}

/// The platform-matching sub-store, in store order.
pub open spec fn filtered(s: Seq<ManagedObject>, os: OS) -> Seq<ManagedObject>
    decreases s.len(),
{
    if s.len() == 0 {
        Seq::empty()
    } else {
        let p = filtered(s.drop_last(), os);
        if platform_ok(s.last(), os) {
            p.push(s.last())
        } else {
            p
        }
    }
}

/// The objects excluded for declaring another platform, in store order.
pub open spec fn wrongs(s: Seq<ManagedObject>, os: OS) -> Seq<ManagedObject>
    decreases s.len(),
{
    if s.len() == 0 {
        Seq::empty()
    } else {
        let p = wrongs(s.drop_last(), os);
        if platform_ok(s.last(), os) {
            p
        } else {
            p.push(s.last())
        }
    }
}

/// Node `i` declares the name of node `j` among its dependencies.
pub open spec fn dep_edge(f: Seq<ManagedObject>, i: int, j: int) -> bool {
    &&& 0 <= i < f.len()
    &&& 0 <= j < f.len()
    &&& exists|k: int|
        0 <= k < f[i].dependencies@.len() && (#[trigger] f[i].dependencies@[k])@ == f[j].name@
}

/// A dependency path of length at most `fuel` leads from `i` to `j`.
pub open spec fn reaches(f: Seq<ManagedObject>, i: int, j: int, fuel: nat) -> bool
    decreases fuel,
{
    i == j || (fuel > 0 && exists|m: int|
        #[trigger] dep_edge(f, i, m) && reaches(f, m, j, (fuel - 1) as nat))
}

/// Some dependency path leads from `i` to `j`.
pub open spec fn reachable(f: Seq<ManagedObject>, i: int, j: int) -> bool {
    exists|fuel: nat| reaches(f, i, j, fuel)
}

/// Node `m` lies on a dependency cycle.
pub open spec fn on_cycle(f: Seq<ManagedObject>, m: int) -> bool {
    exists|d: int| #[trigger] dep_edge(f, m, d) && reachable(f, d, m)
}

/// The dependency graph of `f` has a cycle.
pub open spec fn cyclic(f: Seq<ManagedObject>) -> bool {
    exists|m: int| on_cycle(f, m)
}

/// Name `n` appears in some dependency list of `f`.
pub open spec fn mentioned(f: Seq<ManagedObject>, n: Seq<char>) -> bool {
    exists|i: int, k: int|
        0 <= i < f.len() && 0 <= k < f[i].dependencies@.len() && (
        #[trigger] f[i].dependencies@[k])@ == n
}

/// Every dependency declared in `f` names an object of `f`.
pub open spec fn deps_defined(f: Seq<ManagedObject>) -> bool {
    forall|i: int, k: int|
        0 <= i < f.len() && 0 <= k < f[i].dependencies@.len() ==> has_name(
            f,
            (#[trigger] f[i].dependencies@[k])@,
        )
}

/// Name `n` appears in a dependency list of an object reachable from `i`.
pub open spec fn dep_of_closure(f: Seq<ManagedObject>, i: int, n: Seq<char>) -> bool {
    exists|j: int, k: int|
        reachable(f, i, j) && 0 <= j < f.len() && 0 <= k < f[j].dependencies@.len() && (
        #[trigger] f[j].dependencies@[k])@ == n
}

/// Every dependency declared by an object reachable from `i` names an
/// object of `f`.
pub open spec fn closure_deps_defined(f: Seq<ManagedObject>, i: int) -> bool {
    forall|n: Seq<char>| #[trigger] dep_of_closure(f, i, n) ==> has_name(f, n)
}

/// Some node reachable from `i` lies on a cycle.
pub open spec fn closure_cyclic(f: Seq<ManagedObject>, i: int) -> bool {
    exists|m: int| reachable(f, i, m) && #[trigger] on_cycle(f, m)
}

// ------------------------------------------------------------------
// Properties of the resolver's output.
// ------------------------------------------------------------------
/// The views of a list of batches.
pub open spec fn batches_view(bs: Seq<Vec<ManagedObject>>) -> Seq<Seq<ManagedObject>> {
    bs.map_values(|b: Vec<ManagedObject>| b@)
}

/// All batches laid out one after another, in execution order.
pub open spec fn flat_of(bs: Seq<Seq<ManagedObject>>) -> Seq<ManagedObject>
    decreases bs.len(),
{
    if bs.len() == 0 {
        Seq::empty()
    } else {
        flat_of(bs.drop_last()) + bs.last()
    }
}

/// Object `mo` is scheduled (marked satisfied) somewhere in `flat`.
pub open spec fn scheduled_in(flat: Seq<ManagedObject>, mo: ManagedObject) -> bool {
    exists|p: int| 0 <= p < flat.len() && same_object(flat[p], with_satisfied(mo))
}

/// Every object of `f` is scheduled somewhere in `flat`.
pub open spec fn covers(f: Seq<ManagedObject>, flat: Seq<ManagedObject>) -> bool {
    forall|j: int| 0 <= j < f.len() ==> scheduled_in(flat, #[trigger] f[j])
}

/// Object `mo` is an object of `f`, marked satisfied.
pub open spec fn from_store(f: Seq<ManagedObject>, mo: ManagedObject) -> bool {
    exists|j: int| 0 <= j < f.len() && same_object(mo, with_satisfied(f[j]))
}

/// Everything scheduled in `flat` is an object of `f`, marked satisfied.
pub open spec fn drawn_from(f: Seq<ManagedObject>, flat: Seq<ManagedObject>) -> bool {
    forall|p: int| 0 <= p < flat.len() ==> from_store(f, #[trigger] flat[p])
}

/// Some object before position `p` of `flat` is named `n`.
pub open spec fn scheduled_before(flat: Seq<ManagedObject>, p: int, n: Seq<char>) -> bool {
    exists|q: int| 0 <= q < p && flat[q].name@ == n
}

/// Every dependency of a scheduled object was scheduled strictly before it.
pub open spec fn topo_sorted(flat: Seq<ManagedObject>) -> bool {
    forall|p: int, k: int|
        #![trigger flat[p].dependencies@[k]]
        0 <= p < flat.len() && 0 <= k < flat[p].dependencies@.len() ==> scheduled_before(
            flat,
            p,
            flat[p].dependencies@[k]@,
        )
}

// ------------------------------------------------------------------
// Lemmas about the graph model.
// ------------------------------------------------------------------
/// In a store with distinct names, an object name determines its index.
proof fn lemma_name_unique(f: Seq<ManagedObject>, a: int, b: int)
    requires
        distinct_names(f),
        0 <= a < f.len(),
        0 <= b < f.len(),
        f[a].name@ == f[b].name@,
    ensures
        a == b,
{
    if a < b {
        assert(f[a].name@ != f[b].name@);
    } else if b < a {
        assert(f[b].name@ != f[a].name@);
    }
}

/// Prepending the edge `i -> m` to a path from `m` extends the path.
proof fn lemma_reaches_step_left(f: Seq<ManagedObject>, i: int, m: int, x: int, fuel: nat)
    requires
        dep_edge(f, i, m),
        reaches(f, m, x, fuel),
    ensures
        reaches(f, i, x, (fuel + 1) as nat),
{
    assert(dep_edge(f, i, m) && reaches(f, m, x, fuel));
}

/// Appending the edge `b -> c` to a path from `a` to `b` extends the path.
proof fn lemma_reaches_step_right(f: Seq<ManagedObject>, a: int, b: int, c: int, fuel: nat)
    requires
        reaches(f, a, b, fuel),
        dep_edge(f, b, c),
    ensures
        reaches(f, a, c, (fuel + 1) as nat),
    decreases fuel,
{
    if a == b {
        assert(reaches(f, c, c, fuel));
        assert(dep_edge(f, a, c) && reaches(f, c, c, fuel));
    } else {
        let m = choose|m: int|
            #[trigger] dep_edge(f, a, m) && reaches(f, m, b, (fuel - 1) as nat);
        lemma_reaches_step_right(f, m, b, c, (fuel - 1) as nat);
        assert(dep_edge(f, a, m) && reaches(f, m, c, fuel));
    }
}

// ------------------------------------------------------------------
// The traversal state and its invariant.
// ------------------------------------------------------------------
/// Traversal colors: not yet visited, on the current path, finished.
pub open spec fn color_valid(v: u8) -> bool {
    v == 0 || v == 1 || v == 2
}

/// How many nodes are not yet visited.
pub open spec fn count_unvisited(c: Seq<u8>) -> nat
    decreases c.len(),
{
    if c.len() == 0 {
        0
    } else {
        count_unvisited(c.drop_last()) + if c.last() == 0 {
            1nat
        } else {
            0nat
        }
    }
}

proof fn lemma_count_update_nonzero(c: Seq<u8>, i: int, v: u8)
    requires
        0 <= i < c.len(),
        c[i] == 0,
        v != 0,
    ensures
        count_unvisited(c.update(i, v)) == count_unvisited(c) - 1,
    decreases c.len(),
{
    if i == c.len() - 1 {
        assert(c.update(i, v).drop_last() =~= c.drop_last());
    } else {
        assert(c.update(i, v).drop_last() =~= c.drop_last().update(i, v));
        lemma_count_update_nonzero(c.drop_last(), i, v);
    }
}

proof fn lemma_count_le(c1: Seq<u8>, c2: Seq<u8>)
    requires
        c1.len() == c2.len(),
        forall|j: int| 0 <= j < c1.len() && (#[trigger] c2[j]) == 0 ==> c1[j] == 0,
    ensures
        count_unvisited(c2) <= count_unvisited(c1),
    decreases c1.len(),
{
    if c1.len() > 0 {
        assert forall|j: int|
            0 <= j < c1.drop_last().len() && (#[trigger] c2.drop_last()[j]) == 0 implies c1
            .drop_last()[j] == 0 by {
            assert(c2[j] == c2.drop_last()[j]);
        }
        lemma_count_le(c1.drop_last(), c2.drop_last());
        assert(c2.last() == c2[c1.len() - 1]);
    }
}

/// Some finished node of `f` is named `n`.
pub open spec fn dep_finished(f: Seq<ManagedObject>, c: Seq<u8>, n: Seq<char>) -> bool {
    exists|m: int| 0 <= m < f.len() && f[m].name@ == n && c[m] == 2
}

/// The emitted order: indices into `f`, each at most once, each one's
/// dependencies emitted strictly before it.
pub open spec fn ord_ok(f: Seq<ManagedObject>, ord: Seq<usize>) -> bool {
    &&& forall|p: int| 0 <= p < ord.len() ==> (#[trigger] ord[p]) < f.len()
    &&& forall|p: int, q: int| 0 <= p < q < ord.len() ==> ord[p] != ord[q]
    &&& forall|p: int, k: int|
        #![trigger f[ord[p] as int].dependencies@[k]]
        0 <= p < ord.len() && 0 <= k < f[ord[p] as int].dependencies@.len()
            ==> emitted_before(f, ord, p, f[ord[p] as int].dependencies@[k]@)
}

/// Some node emitted before position `p` of `ord` is named `n`.
pub open spec fn emitted_before(f: Seq<ManagedObject>, ord: Seq<usize>, p: int, n: Seq<char>) -> bool {
    exists|q: int| 0 <= q < p && f[ord[q] as int].name@ == n
}

/// Index `j` was emitted.
pub open spec fn in_order(ord: Seq<usize>, j: int) -> bool {
    exists|p: int| 0 <= p < ord.len() && (#[trigger] ord[p]) as int == j
}

/// Colors and emitted order agree: exactly the finished nodes are emitted.
pub open spec fn colors_ok(f: Seq<ManagedObject>, c: Seq<u8>, ord: Seq<usize>) -> bool {
    &&& c.len() == f.len()
    &&& forall|j: int| 0 <= j < c.len() ==> color_valid(#[trigger] c[j])
    &&& forall|p: int| 0 <= p < ord.len() ==> c[(#[trigger] ord[p]) as int] == 2
    &&& forall|j: int| 0 <= j < c.len() && (#[trigger] c[j]) == 2 ==> in_order(ord, j)
}

pub open spec fn state_inv(f: Seq<ManagedObject>, c: Seq<u8>, ord: Seq<usize>) -> bool {
    colors_ok(f, c, ord) && ord_ok(f, ord)
}

/// Walking a path from an emitted node only moves backward in the order.
proof fn lemma_reach_pos(f: Seq<ManagedObject>, ord: Seq<usize>, p: int, b: int, fuel: nat)
    requires
        distinct_names(f),
        ord_ok(f, ord),
        0 <= p < ord.len(),
        reaches(f, ord[p] as int, b, fuel),
    ensures
        exists|q: int| 0 <= q <= p && (#[trigger] ord[q]) as int == b,
    decreases fuel,
{
    if ord[p] as int == b {
        assert(0 <= p <= p && ord[p] as int == b);
    } else {
        let m = choose|m: int|
            #[trigger] dep_edge(f, ord[p] as int, m) && reaches(f, m, b, (fuel - 1) as nat);
        let k = choose|k: int|
            0 <= k < f[ord[p] as int].dependencies@.len() && (
            #[trigger] f[ord[p] as int].dependencies@[k])@ == f[m].name@;
        assert(emitted_before(f, ord, p, f[ord[p] as int].dependencies@[k]@));
        let q1 = choose|q: int|
            0 <= q < p && f[ord[q] as int].name@ == f[ord[p] as int].dependencies@[k]@;
        lemma_name_unique(f, ord[q1] as int, m);
        lemma_reach_pos(f, ord, q1, b, (fuel - 1) as nat);
        let q = choose|q: int| 0 <= q <= q1 && (#[trigger] ord[q]) as int == b;
        assert(0 <= q <= p && ord[q] as int == b);
    }
}

/// An emitted node cannot lie on a cycle: its dependencies were all emitted
/// strictly before it.
proof fn lemma_emitted_not_on_cycle(f: Seq<ManagedObject>, ord: Seq<usize>, m: int)
    requires
        distinct_names(f),
        ord_ok(f, ord),
        in_order(ord, m),
    ensures
        !on_cycle(f, m),
{
    if on_cycle(f, m) {
        let d = choose|d: int| #[trigger] dep_edge(f, m, d) && reachable(f, d, m);
        let fuel = choose|fuel: nat| reaches(f, d, m, fuel);
        assert(0 <= m < f.len());
        let p = choose|p: int| 0 <= p < ord.len() && (#[trigger] ord[p]) as int == m;
        let k = choose|k: int|
            0 <= k < f[m].dependencies@.len() && (#[trigger] f[m].dependencies@[k])@
                == f[d].name@;
        assert(emitted_before(f, ord, p, f[ord[p] as int].dependencies@[k]@));
        let q1 = choose|q: int|
            0 <= q < p && f[ord[q] as int].name@ == f[ord[p] as int].dependencies@[k]@;
        lemma_name_unique(f, ord[q1] as int, d);
        lemma_reach_pos(f, ord, q1, m, fuel);
        let q2 = choose|q: int| 0 <= q <= q1 && (#[trigger] ord[q]) as int == m;
        if q2 < p {
            assert(ord[q2] != ord[p]);
        }
        assert(false);
    }
}

/// A complete, dependency-ordered emission certifies the graph acyclic.
proof fn lemma_ord_acyclic(f: Seq<ManagedObject>, ord: Seq<usize>)
    requires
        distinct_names(f),
        ord_ok(f, ord),
        forall|j: int| 0 <= j < f.len() ==> in_order(ord, j),
    ensures
        !cyclic(f),
{
    assert forall|m: int| !on_cycle(f, m) by {
        if on_cycle(f, m) {
            let d = choose|d: int| #[trigger] dep_edge(f, m, d) && reachable(f, d, m);
            assert(0 <= m < f.len());
            assert(in_order(ord, m));
            lemma_emitted_not_on_cycle(f, ord, m);
        }
    }
}

// ------------------------------------------------------------------
// Splitting the store by platform.
// ------------------------------------------------------------------
/// `filtered` and `wrongs` partition the store; both keep distinct names.
#[verifier::rlimit(80)]
proof fn lemma_partition(s: Seq<ManagedObject>, os: OS)
    requires
        distinct_names(s),
    ensures
        distinct_names(filtered(s, os)),
        distinct_names(wrongs(s, os)),
        forall|j: int|
            0 <= j < filtered(s, os).len() ==> platform_ok(#[trigger] filtered(s, os)[j], os)
                && exists|i: int| 0 <= i < s.len() && s[i] == filtered(s, os)[j],
        forall|j: int|
            0 <= j < wrongs(s, os).len() ==> !platform_ok(#[trigger] wrongs(s, os)[j], os)
                && exists|i: int| 0 <= i < s.len() && s[i] == wrongs(s, os)[j],
        forall|i: int|
            0 <= i < s.len() && platform_ok(#[trigger] s[i], os) ==> exists|j: int|
                0 <= j < filtered(s, os).len() && filtered(s, os)[j] == s[i],
        forall|i: int|
            0 <= i < s.len() && !platform_ok(#[trigger] s[i], os) ==> exists|j: int|
                0 <= j < wrongs(s, os).len() && wrongs(s, os)[j] == s[i],
    decreases s.len(),
{
    if s.len() > 0 {
        let d = s.drop_last();
        assert(distinct_names(d)) by {
            assert forall|i: int, j: int| 0 <= i < j < d.len() implies d[i].name@
                != d[j].name@ by {
                assert(s[i].name@ != s[j].name@);
            }
        }
        lemma_partition(d, os);
        assert forall|j: int| 0 <= j < filtered(d, os).len() implies exists|i: int|
            0 <= i < d.len() && s[i] == (#[trigger] filtered(d, os)[j]) by {
            let i = choose|i: int| 0 <= i < d.len() && d[i] == filtered(d, os)[j];
            assert(s[i] == filtered(d, os)[j]);
        }
        assert forall|j: int| 0 <= j < wrongs(d, os).len() implies exists|i: int|
            0 <= i < d.len() && s[i] == (#[trigger] wrongs(d, os)[j]) by {
            let i = choose|i: int| 0 <= i < d.len() && d[i] == wrongs(d, os)[j];
            assert(s[i] == wrongs(d, os)[j]);
        }
        if platform_ok(s.last(), os) {
            assert(filtered(s, os) == filtered(d, os).push(s.last()));
            assert(distinct_names(filtered(s, os))) by {
                assert forall|p: int, q: int|
                    0 <= p < q < filtered(s, os).len() implies filtered(s, os)[p].name@
                    != filtered(s, os)[q].name@ by {
                    if q == filtered(s, os).len() - 1 {
                        let i = choose|i: int| 0 <= i < d.len() && s[i] == filtered(d, os)[p];
                        assert(s[i].name@ != s[s.len() - 1].name@);
                    }
                }
            }
            assert forall|i: int|
                0 <= i < s.len() && platform_ok(#[trigger] s[i], os) implies exists|j: int|
                0 <= j < filtered(s, os).len() && filtered(s, os)[j] == s[i] by {
                if i == s.len() - 1 {
                    assert(filtered(s, os)[filtered(s, os).len() - 1] == s[i]);
                } else {
                    assert(d[i] == s[i]);
                    let j = choose|j: int| 0 <= j < filtered(d, os).len() && filtered(d, os)[j]
                        == d[i];
                    assert(filtered(s, os)[j] == s[i]);
                }
            }
            assert forall|i: int|
                0 <= i < s.len() && !platform_ok(#[trigger] s[i], os) implies exists|j: int|
                0 <= j < wrongs(s, os).len() && wrongs(s, os)[j] == s[i] by {
                assert(d[i] == s[i]);
                let j = choose|j: int| 0 <= j < wrongs(d, os).len() && wrongs(d, os)[j] == d[i];
                assert(wrongs(s, os)[j] == s[i]);
            }
        } else {
            assert(wrongs(s, os) == wrongs(d, os).push(s.last()));
            assert(distinct_names(wrongs(s, os))) by {
                assert forall|p: int, q: int|
                    0 <= p < q < wrongs(s, os).len() implies wrongs(s, os)[p].name@ != wrongs(
                    s,
                    os,
                )[q].name@ by {
                    if q == wrongs(s, os).len() - 1 {
                        let i = choose|i: int| 0 <= i < d.len() && s[i] == wrongs(d, os)[p];
                        assert(s[i].name@ != s[s.len() - 1].name@);
                    }
                }
            }
            assert forall|i: int|
                0 <= i < s.len() && !platform_ok(#[trigger] s[i], os) implies exists|j: int|
                0 <= j < wrongs(s, os).len() && wrongs(s, os)[j] == s[i] by {
                if i == s.len() - 1 {
                    assert(wrongs(s, os)[wrongs(s, os).len() - 1] == s[i]);
                } else {
                    assert(d[i] == s[i]);
                    let j = choose|j: int| 0 <= j < wrongs(d, os).len() && wrongs(d, os)[j]
                        == d[i];
                    assert(wrongs(s, os)[j] == s[i]);
                }
            }
            assert forall|i: int|
                0 <= i < s.len() && platform_ok(#[trigger] s[i], os) implies exists|j: int|
                0 <= j < filtered(s, os).len() && filtered(s, os)[j] == s[i] by {
                assert(d[i] == s[i]);
                let j = choose|j: int| 0 <= j < filtered(d, os).len() && filtered(d, os)[j]
                    == d[i];
                assert(filtered(s, os)[j] == s[i]);
            }
        }
    }
}

/// Name-level consequences of the partition.
#[verifier::rlimit(80)]
proof fn lemma_partition_names(s: Seq<ManagedObject>, os: OS)
    requires
        distinct_names(s),
    ensures
        forall|n: Seq<char>| #[trigger] has_name(filtered(s, os), n) ==> has_name(s, n),
        forall|n: Seq<char>|
            #[trigger] has_name(wrongs(s, os), n) ==> has_name(s, n) && !has_name(
                filtered(s, os),
                n,
            ),
        forall|n: Seq<char>|
            #[trigger] has_name(s, n) ==> has_name(filtered(s, os), n) || has_name(
                wrongs(s, os),
                n,
            ),
        wrong_platforms_ok(wrongs(s, os)),
{
    lemma_partition(s, os);
    let f = filtered(s, os);
    let w = wrongs(s, os);
    assert forall|n: Seq<char>| #[trigger] has_name(f, n) implies has_name(s, n) by {
        let j = choose|j: int| 0 <= j < f.len() && f[j].name@ == n;
        let i = choose|i: int| 0 <= i < s.len() && s[i] == f[j];
        assert(s[i].name@ == n);
    }
    assert forall|n: Seq<char>| #[trigger] has_name(w, n) implies has_name(s, n) && !has_name(
        f,
        n,
    ) by {
        let j = choose|j: int| 0 <= j < w.len() && w[j].name@ == n;
        let i = choose|i: int| 0 <= i < s.len() && s[i] == w[j];
        assert(s[i].name@ == n);
        if has_name(f, n) {
            let j2 = choose|j2: int| 0 <= j2 < f.len() && f[j2].name@ == n;
            let i2 = choose|i2: int| 0 <= i2 < s.len() && s[i2] == f[j2];
            lemma_name_unique(s, i, i2);
            assert(platform_ok(s[i], os) && !platform_ok(s[i], os));
        }
    }
    assert forall|n: Seq<char>| #[trigger] has_name(s, n) implies has_name(f, n) || has_name(
        w,
        n,
    ) by {
        let i = choose|i: int| 0 <= i < s.len() && s[i].name@ == n;
        if platform_ok(s[i], os) {
            let j = choose|j: int| 0 <= j < f.len() && f[j] == s[i];
            assert(f[j].name@ == n);
        } else {
            let j = choose|j: int| 0 <= j < w.len() && w[j] == s[i];
            assert(w[j].name@ == n);
        }
    }
    assert forall|x: int| 0 <= x < w.len() implies (#[trigger] w[x]).os is Some by {
        assert(!platform_ok(w[x], os));
    }
}

// ------------------------------------------------------------------
// The traversal itself.
// ------------------------------------------------------------------
/// Why a traversal stopped early.
enum ResolveFault {
    Missing { dependency: String },
    WrongPlatform { dependency: String, required: OS },
    Cycle,
}

/// Every excluded object records the platform it was declared for.
pub open spec fn wrong_platforms_ok(w: Seq<ManagedObject>) -> bool {
    forall|x: int| 0 <= x < w.len() ==> (#[trigger] w[x]).os is Some
}

/// What each kind of fault certifies about the graph under root `i`.
spec fn fault_witness(
    f: Seq<ManagedObject>,
    w: Seq<ManagedObject>,
    i: int,
    fault: ResolveFault,
) -> bool {
    match fault {
        ResolveFault::Missing { dependency } => dep_of_closure(f, i, dependency@) && !has_name(
            f,
            dependency@,
        ) && !has_name(w, dependency@),
        ResolveFault::WrongPlatform { dependency, required } => dep_of_closure(f, i, dependency@)
            && !has_name(f, dependency@) && exists|x: int|
            0 <= x < w.len() && (#[trigger] w[x]).name@ == dependency@ && w[x].os == Some(required),
        ResolveFault::Cycle => closure_cyclic(f, i),
    }
}

/// What a completed traversal of root `i` guarantees, relating the state
/// before (`c0`, `o0`) to the state after (`c1`, `o1`).
spec fn visit_ok(
    f: Seq<ManagedObject>,
    c0: Seq<u8>,
    o0: Seq<usize>,
    c1: Seq<u8>,
    o1: Seq<usize>,
    i: int,
) -> bool {
    &&& state_inv(f, c1, o1)
    &&& c1.len() == c0.len()
    &&& forall|j: int| 0 <= j < c0.len() ==> ((c0[j] == 1) <==> ((#[trigger] c1[j]) == 1))
    &&& forall|j: int| 0 <= j < c0.len() && (#[trigger] c0[j]) == 2 ==> c1[j] == 2
    &&& forall|j: int| 0 <= j < c0.len() && (#[trigger] c1[j]) == 0 ==> c0[j] == 0
    &&& c1[i] == 2
    &&& o0.is_prefix_of(o1)
    &&& forall|p: int|
        o0.len() <= p < o1.len() ==> reachable(f, i, (#[trigger] o1[p]) as int)
    &&& count_unvisited(c1) <= count_unvisited(c0)
}

/// Depth-first traversal of the not-yet-visited node `i`: emit all of its
/// unemitted dependencies in dependency order, then `i` itself, or stop at
/// the first unresolvable or cyclic dependency.
#[verifier::rlimit(100)]
fn visit(
    f: &Vec<ManagedObject>,
    wrong: &Vec<ManagedObject>,
    i: usize,
    colors: &mut Vec<u8>,
    order: &mut Vec<usize>,
) -> (r: Result<(), ResolveFault>)
    requires
        distinct_names(f@),
        wrong_platforms_ok(wrong@),
        i < f@.len(),
        old(colors)@[i as int] == 0,
        state_inv(f@, old(colors)@, old(order)@),
        forall|j: int|
            0 <= j < old(colors)@.len() && (#[trigger] old(colors)@[j]) == 1 ==> reachable(
                f@,
                j,
                i as int,
            ),
    ensures
        r is Ok ==> visit_ok(f@, old(colors)@, old(order)@, final(colors)@, final(order)@, i as int),
        r matches Err(fault) ==> fault_witness(f@, wrong@, i as int, fault),
    decreases count_unvisited(old(colors)@),
{
    let ghost c_entry = colors@;
    let ghost o_entry = order@;
    colors.set(i, 1);
    proof {
        lemma_count_update_nonzero(c_entry, i as int, 1);
        assert(reaches(f@, i as int, i as int, 0));
    }
    let deps_len = f[i].dependencies.len();
    let mut k: usize = 0;
    while k < deps_len
        invariant
            c_entry == old(colors)@,
            o_entry == old(order)@,
            distinct_names(f@),
            wrong_platforms_ok(wrong@),
            i < f@.len(),
            deps_len == f@[i as int].dependencies@.len(),
            k <= deps_len,
            state_inv(f@, colors@, order@),
            colors@.len() == c_entry.len(),
            colors@[i as int] == 1,
            c_entry[i as int] == 0,
            state_inv(f@, c_entry, o_entry),
            // in-progress nodes are exactly those at entry, plus `i`
            forall|j: int|
                0 <= j < colors@.len() && j != i as int ==> ((c_entry[j] == 1) <==> ((
                #[trigger] colors@[j]) == 1)),
            // finished nodes are preserved, colors only move up
            forall|j: int|
                0 <= j < colors@.len() && (#[trigger] c_entry[j]) == 2 ==> colors@[j] == 2,
            forall|j: int|
                0 <= j < colors@.len() && (#[trigger] colors@[j]) == 0 ==> c_entry[j] == 0,
            // every in-progress node reaches `i`
            forall|j: int|
                0 <= j < colors@.len() && (#[trigger] colors@[j]) == 1 ==> reachable(
                    f@,
                    j,
                    i as int,
                ),
            // what was emitted before stays, new emissions are reachable from `i`
            o_entry.is_prefix_of(order@),
            forall|p: int|
                o_entry.len() <= p < order@.len() ==> reachable(f@, i as int, (
                #[trigger] order@[p]) as int),
            // the dependencies handled so far are all finished
            forall|k2: int|
                #![trigger f@[i as int].dependencies@[k2]]
                0 <= k2 < k ==> dep_finished(f@, colors@, f@[i as int].dependencies@[k2]@),
            count_unvisited(colors@) < count_unvisited(c_entry),
        decreases deps_len - k,
    {
        let ghost c_head = colors@;
        let dep: &String = &f[i].dependencies[k];
        match find_named(f, dep) {
            Some(m) => {
                proof {
                    assert(dep_edge(f@, i as int, m as int)) by {
                        assert(0 <= k < f@[i as int].dependencies@.len() && f@[i as
                            int].dependencies@[k as int]@ == f@[m as int].name@);
                    }
                }
                let cm = colors[m];
                if cm == 1 {
                    proof {
                        // `m` is on the current path, so `i -> m` closes a cycle at `i`
                        assert(reachable(f@, m as int, i as int));
                        let fu = choose|fu: nat| reaches(f@, m as int, i as int, fu);
                        lemma_reaches_step_left(f@, i as int, m as int, i as int, fu);
                        assert(dep_edge(f@, i as int, m as int) && reachable(
                            f@,
                            m as int,
                            i as int,
                        ));
                        assert(on_cycle(f@, i as int));
                        assert(reaches(f@, i as int, i as int, 0));
                        assert(reachable(f@, i as int, i as int) && on_cycle(f@, i as int));
                    }
                    return Err(ResolveFault::Cycle);
                } else if cm == 0 {
                    proof {
                        // every in-progress node reaches `m` through `i`
                        assert forall|j: int|
                            0 <= j < colors@.len() && (#[trigger] colors@[j])
                                == 1 implies reachable(f@, j, m as int) by {
                            let fu = choose|fu: nat| reaches(f@, j, i as int, fu);
                            lemma_reaches_step_right(f@, j, i as int, m as int, fu);
                        }
                    }
                    let ghost c_before = colors@;
                    let ghost o_before = order@;
                    match visit(f, wrong, m, colors, order) {
                        Ok(()) => {
                            proof {
                                // lift reachability of the new emissions from `m` to `i`
                                assert forall|p: int|
                                    o_entry.len() <= p < order@.len() implies reachable(
                                    f@,
                                    i as int,
                                    (#[trigger] order@[p]) as int,
                                ) by {
                                    if p < o_before.len() {
                                        assert(order@[p] == o_before[p]);
                                    } else {
                                        assert(reachable(f@, m as int, order@[p] as int));
                                        let fu = choose|fu: nat|
                                            reaches(f@, m as int, order@[p] as int, fu);
                                        lemma_reaches_step_left(
                                            f@,
                                            i as int,
                                            m as int,
                                            order@[p] as int,
                                            fu,
                                        );
                                    }
                                }
                            }
                        }
                        Err(fault) => {
                            proof {
                                // lift the fault witness from root `m` to root `i`
                                match &fault {
                                    ResolveFault::Missing { dependency } => {
                                        let (j, k2): (int, int) = choose|j: int, k2: int|
                                            reachable(f@, m as int, j) && 0 <= j < f@.len() && 0
                                                <= k2 < f@[j].dependencies@.len() && (
                                            #[trigger] f@[j].dependencies@[k2])@ == dependency@;
                                        let fu = choose|fu: nat| reaches(f@, m as int, j, fu);
                                        lemma_reaches_step_left(f@, i as int, m as int, j, fu);
                                        assert(reachable(f@, i as int, j));
                                    }
                                    ResolveFault::WrongPlatform { dependency, .. } => {
                                        let (j, k2): (int, int) = choose|j: int, k2: int|
                                            reachable(f@, m as int, j) && 0 <= j < f@.len() && 0
                                                <= k2 < f@[j].dependencies@.len() && (
                                            #[trigger] f@[j].dependencies@[k2])@ == dependency@;
                                        let fu = choose|fu: nat| reaches(f@, m as int, j, fu);
                                        lemma_reaches_step_left(f@, i as int, m as int, j, fu);
                                        assert(reachable(f@, i as int, j));
                                    }
                                    ResolveFault::Cycle => {
                                        let mm = choose|mm: int|
                                            reachable(f@, m as int, mm) && #[trigger] on_cycle(
                                                f@,
                                                mm,
                                            );
                                        let fu = choose|fu: nat| reaches(f@, m as int, mm, fu);
                                        lemma_reaches_step_left(f@, i as int, m as int, mm, fu);
                                        assert(reachable(f@, i as int, mm) && on_cycle(f@, mm));
                                    }
                                }
                            }
                            return Err(fault);
                        }
                    }
                } else {
                    // already finished: emitted earlier with its dependencies
                    proof {
                        assert(colors@[m as int] == 2);
                    }
                }
                proof {
                    assert(colors@[m as int] == 2);
                    assert forall|k2: int|
                        #![trigger f@[i as int].dependencies@[k2]]
                        0 <= k2 < k + 1 implies dep_finished(
                        f@,
                        colors@,
                        f@[i as int].dependencies@[k2]@,
                    ) by {
                        if k2 == k {
                            assert((m as int) < f@.len() && f@[m as int].name@ == f@[i as
                                int].dependencies@[k2]@ && colors@[m as int] == 2);
                        } else {
                            assert(dep_finished(f@, c_head, f@[i as int].dependencies@[k2]@));
                            let mm = choose|mm: int|
                                0 <= mm < f@.len() && f@[mm].name@ == f@[i as
                                    int].dependencies@[k2]@ && c_head[mm] == 2;
                            assert(colors@[mm] == 2);
                            assert(0 <= mm < f@.len() && f@[mm].name@ == f@[i as
                                int].dependencies@[k2]@ && colors@[mm] == 2);
                        }
                    }
                }
            }
            None => {
                let dependency = dep.clone();
                proof {
                    assert(reaches(f@, i as int, i as int, 0));
                    assert(reachable(f@, i as int, i as int) && 0 <= k < f@[i as
                        int].dependencies@.len() && f@[i as int].dependencies@[k as int]@
                        == dependency@);
                }
                match find_named(wrong, &dependency) {
                    Some(x) => {
                        let required = match wrong[x].os {
                            Some(o) => o,
                            None => OS::Unknown,
                        };
                        proof {
                            assert(wrong@[x as int].os is Some);
                            assert(wrong@[x as int].name@ == dependency@ && wrong@[x as int].os
                                == Some(required));
                        }
                        return Err(ResolveFault::WrongPlatform { dependency, required });
                    }
                    None => {
                        return Err(ResolveFault::Missing { dependency });
                    }
                }
            }
        }
        k += 1;
    }
    let ghost c_loop = colors@;
    let ghost o_loop = order@;
    colors.set(i, 2);
    order.push(i);
    proof {
        assert(order@ == o_loop.push(i));
        // the new emission satisfies the order invariant
        assert forall|p: int| 0 <= p < order@.len() implies (#[trigger] order@[p]) < f@.len() by {
            if p < o_loop.len() {
                assert(order@[p] == o_loop[p]);
            }
        }
        assert forall|p: int, q: int| 0 <= p < q < order@.len() implies order@[p] != order@[q] by {
            if q == order@.len() - 1 {
                assert(order@[p] == o_loop[p]);
                assert(order@[q] == i);
                assert(c_loop[o_loop[p] as int] == 2);
                assert(c_loop[i as int] == 1);
            } else {
                assert(order@[p] == o_loop[p]);
                assert(order@[q] == o_loop[q]);
                assert(o_loop[p] != o_loop[q]);
            }
        }
        assert forall|p: int, k2: int|
            #![trigger f@[order@[p] as int].dependencies@[k2]]
            0 <= p < order@.len() && 0 <= k2 < f@[order@[p] as int].dependencies@.len()
                implies emitted_before(f@, order@, p, f@[order@[p] as int].dependencies@[k2]@) by {
            if p == order@.len() - 1 {
                assert(order@[p] == i);
                assert(dep_finished(f@, c_loop, f@[i as int].dependencies@[k2]@));
                let mm = choose|mm: int|
                    0 <= mm < f@.len() && f@[mm].name@ == f@[i as int].dependencies@[k2]@
                        && c_loop[mm] == 2;
                assert(in_order(o_loop, mm));
                let q = choose|q: int| 0 <= q < o_loop.len() && (#[trigger] o_loop[q]) as int
                    == mm;
                assert(order@[q] == o_loop[q]);
                assert(0 <= q < p && f@[order@[q] as int].name@ == f@[order@[p] as
                    int].dependencies@[k2]@);
            } else {
                assert(order@[p] == o_loop[p]);
                assert(emitted_before(f@, o_loop, p, f@[o_loop[p] as int].dependencies@[k2]@));
                let q = choose|q: int|
                    0 <= q < p && f@[o_loop[q] as int].name@ == f@[o_loop[p] as
                        int].dependencies@[k2]@;
                assert(order@[q] == o_loop[q]);
                assert(0 <= q < p && f@[order@[q] as int].name@ == f@[order@[p] as
                    int].dependencies@[k2]@);
            }
        }
        assert forall|j: int| 0 <= j < colors@.len() && (#[trigger] colors@[j]) == 2
            implies in_order(order@, j) by {
            if j == i as int {
                assert(order@[order@.len() - 1] as int == j);
            } else {
                assert(c_loop[j] == 2);
                assert(in_order(o_loop, j));
                let p = choose|p: int| 0 <= p < o_loop.len() && (#[trigger] o_loop[p]) as int
                    == j;
                assert(order@[p] as int == j);
            }
        }
        assert(reaches(f@, i as int, i as int, 0));
        assert forall|p: int|
            o_entry.len() <= p < order@.len() implies reachable(f@, i as int, (
            #[trigger] order@[p]) as int) by {
            if p < o_loop.len() {
                assert(order@[p] == o_loop[p]);
            } else {
                assert(order@[p] == i);
            }
        }
        assert(o_entry.is_prefix_of(order@)) by {
            assert forall|p: int| 0 <= p < o_entry.len() implies o_entry[p] == order@[p] by {
                assert(o_entry[p] == o_loop[p]);
            }
            assert(o_entry =~= order@.subrange(0, o_entry.len() as int));
        }
        lemma_count_le(c_loop, colors@);
        lemma_count_le(c_entry, c_loop);
        assert forall|j: int| 0 <= j < colors@.len() implies color_valid(#[trigger] colors@[j]) by {
            if j != i as int {
                assert(colors@[j] == c_loop[j]);
            }
        }
        assert forall|p: int|
            0 <= p < order@.len() implies colors@[(#[trigger] order@[p]) as int] == 2 by {
            if p < o_loop.len() {
                assert(order@[p] == o_loop[p]);
                assert(c_loop[o_loop[p] as int] == 2);
            } else {
                assert(order@[p] == i);
            }
        }
        assert(colors_ok(f@, colors@, order@));
        assert(ord_ok(f@, order@));
        assert(state_inv(f@, colors@, order@));
        assert(colors@.len() == c_entry.len());
        assert(forall|j: int|
            0 <= j < c_entry.len() ==> ((c_entry[j] == 1) <==> ((#[trigger] colors@[j]) == 1)));
        assert(forall|j: int|
            0 <= j < c_entry.len() && (#[trigger] c_entry[j]) == 2 ==> colors@[j] == 2);
        assert(forall|j: int|
            0 <= j < c_entry.len() && (#[trigger] colors@[j]) == 0 ==> c_entry[j] == 0);
        assert(colors@[i as int] == 2);
        assert(o_entry.is_prefix_of(order@));
        assert(forall|p: int|
            o_entry.len() <= p < order@.len() ==> reachable(f@, i as int, (
            #[trigger] order@[p]) as int));
        assert(count_unvisited(colors@) <= count_unvisited(c_entry));
        assert(visit_ok(f@, c_entry, o_entry, colors@, order@, i as int));
    }
    Ok(())
}

// ------------------------------------------------------------------
// What the resolver promises.
// ------------------------------------------------------------------
/// `e` is `DependencyUndefinedError` naming `n`.
pub open spec fn dep_undefined_err(e: HMError, n: Seq<char>) -> bool {
    match e {
        HMError::Regular(ErrorKind::DependencyUndefinedError { dependency }) => dependency@ == n,
        _ => false,
    }
}

/// `e` is `IncorrectPlatformError` naming `n`, the current platform and the
/// platform `n` was declared for.
pub open spec fn incorrect_platform_err(e: HMError, n: Seq<char>, cur: OS, req: OS) -> bool {
    match e {
        HMError::Regular(
            ErrorKind::IncorrectPlatformError { dependency, platform, target_platform },
        ) => dependency@ == n && platform == cur && target_platform == req,
        _ => false,
    }
}

/// `e` is `CyclicalDependencyError` carrying the rendered graph.
pub open spec fn cyclical_err(e: HMError, f: Seq<ManagedObject>) -> bool {
    match e {
        HMError::Regular(ErrorKind::CyclicalDependencyError { dependency_graph }) =>
            dependency_graph@ == graph_text(f),
        _ => false,
    }
}

/// `n` is depended upon by a platform-matching object, but no object at all
/// is named `n`.
pub open spec fn missing_mention(s: Seq<ManagedObject>, os: OS, n: Seq<char>) -> bool {
    mentioned(filtered(s, os), n) && !has_name(s, n)
}

/// `n` is depended upon by a platform-matching object, and the object named
/// `n` was excluded for declaring another platform.
pub open spec fn wrong_platform_mention(s: Seq<ManagedObject>, os: OS, n: Seq<char>) -> bool {
    mentioned(filtered(s, os), n) && !has_name(filtered(s, os), n) && has_name(s, n)
}

/// The store object named `n` was excluded, and declares platform `req`.
pub open spec fn excluded_with(s: Seq<ManagedObject>, os: OS, n: Seq<char>, req: OS) -> bool {
    exists|i: int|
        0 <= i < s.len() && (#[trigger] s[i]).name@ == n && s[i].os == Some(req) && !platform_ok(
            s[i],
            os,
        )
}

/// A full resolution's batches schedule every platform-matching object
/// exactly once, in dependency order, marked satisfied.
pub open spec fn batches_schedule_all(f: Seq<ManagedObject>, bs: Seq<Seq<ManagedObject>>) -> bool {
    let flat = flat_of(bs);
    covers(f, flat) && drawn_from(f, flat) && distinct_names(flat) && topo_sorted(flat)
}

/// `mo` is an object of the dependency closure of node `ti`, marked satisfied.
pub open spec fn from_closure(f: Seq<ManagedObject>, ti: int, mo: ManagedObject) -> bool {
    exists|j: int|
        0 <= j < f.len() && reachable(f, ti, j) && same_object(mo, with_satisfied(f[j]))
}

/// A target resolution's single batch is exactly the dependency closure of
/// the target, in dependency order, marked satisfied.
pub open spec fn target_batch_good(f: Seq<ManagedObject>, ti: int, flat: Seq<ManagedObject>) -> bool {
    &&& forall|j: int|
        0 <= j < f.len() && reachable(f, ti, j) ==> scheduled_in(flat, #[trigger] f[j])
    &&& forall|p: int| 0 <= p < flat.len() ==> from_closure(f, ti, #[trigger] flat[p])
    &&& distinct_names(flat)
    &&& topo_sorted(flat)
}

/// Any resolution error names a real defect of the store.
pub open spec fn error_explained_all(s: Seq<ManagedObject>, os: OS, e: HMError) -> bool {
    let f = filtered(s, os);
    ||| exists|n: Seq<char>| #[trigger] dep_undefined_err(e, n) && missing_mention(s, os, n)
    ||| exists|n: Seq<char>, req: OS|
        #[trigger] incorrect_platform_err(e, n, os, req) && wrong_platform_mention(s, os, n)
            && excluded_with(s, os, n, req)
    ||| (cyclical_err(e, f) && cyclic(f))
}

/// Any target-mode resolution error names a defect of the target's closure.
pub open spec fn error_explained_target(s: Seq<ManagedObject>, os: OS, ti: int, e: HMError) -> bool {
    let f = filtered(s, os);
    ||| exists|n: Seq<char>|
        #[trigger] dep_undefined_err(e, n) && dep_of_closure(f, ti, n) && !has_name(s, n)
    ||| exists|n: Seq<char>, req: OS|
        #[trigger] incorrect_platform_err(e, n, os, req) && dep_of_closure(f, ti, n)
            && !has_name(f, n) && excluded_with(s, os, n, req)
    ||| (cyclical_err(e, f) && closure_cyclic(f, ti))
}

/// The name the caller asked for, if any.
pub open spec fn opt_name(t: Option<String>) -> Option<Seq<char>> {
    match t {
        Some(name) => Some(name@),
        None => None,
    }
}

/// Everything `resolve` promises, for both modes.
///
/// Without a target: resolution succeeds exactly when every dependency of a
/// platform-matching object is itself a platform-matching object and the
/// dependency graph is acyclic; the batches then schedule each object exactly
/// once, after its dependencies. Each failure is classified, and the single
/// defect of an otherwise sound store is named exactly.
///
/// With a target: the same, restricted to the dependency closure of the
/// target; a target that is not in the graph at all is reported as an
/// undefined dependency, one excluded for its platform as an incorrect
/// platform.
pub open spec fn resolution_contract(
    s: Seq<ManagedObject>,
    os: OS,
    target: Option<Seq<char>>,
    r: Result<Vec<Vec<ManagedObject>>, HMError>,
) -> bool {
    let f = filtered(s, os);
    match target {
        None => {
            &&& (r is Ok <==> (deps_defined(f) && !cyclic(f)))
            &&& (r matches Ok(batches) ==> batches_schedule_all(f, batches_view(batches@)))
            &&& (r matches Err(e) ==> error_explained_all(s, os, e))
            &&& ((deps_defined(f) && cyclic(f)) ==> (r matches Err(e) && cyclical_err(e, f)))
            &&& ((!cyclic(f) && !deps_defined(f) && (forall|n: Seq<char>|
                !(#[trigger] wrong_platform_mention(s, os, n)))) ==> (r matches Err(e) && exists|
                n: Seq<char>,
            | #[trigger] dep_undefined_err(e, n) && missing_mention(s, os, n)))
            &&& ((!cyclic(f) && !deps_defined(f) && (forall|n: Seq<char>|
                !(#[trigger] missing_mention(s, os, n)))) ==> (r matches Err(e) && exists|
                n: Seq<char>,
                req: OS,
            | #[trigger] incorrect_platform_err(e, n, os, req) && wrong_platform_mention(
                s,
                os,
                n,
            )))
        }
        Some(t) => {
            if has_name(f, t) {
                let ti = name_index(f, t);
                &&& (r is Ok <==> (closure_deps_defined(f, ti) && !closure_cyclic(f, ti)))
                &&& (r matches Ok(batches) ==> batches_view(batches@).len() == 1
                    && target_batch_good(f, ti, flat_of(batches_view(batches@))))
                &&& (r matches Err(e) ==> error_explained_target(s, os, ti, e))
            } else if mentioned(f, t) {
                if has_name(s, t) {
                    r matches Err(e) && exists|req: OS|
                        #[trigger] incorrect_platform_err(e, t, os, req) && excluded_with(
                            s,
                            os,
                            t,
                            req,
                        )
                } else {
                    r matches Err(e) && dep_undefined_err(e, t)
                }
            } else {
                r matches Err(e) && dep_undefined_err(e, t)
            }
        }
    }
}

// ------------------------------------------------------------------
// Rendering the graph for the cyclical-dependency diagnostic.
// ------------------------------------------------------------------
/// The text of one dependency list: the names joined by `", "`, or
/// `"<no deps>"` for none.
pub open spec fn deps_text(ds: Seq<String>) -> Seq<char>
    decreases ds.len(),
{
    if ds.len() == 0 {
        "<no deps>"@
    } else if ds.len() == 1 {
        ds[0]@
    } else {
        deps_text(ds.drop_last()) + ", "@ + ds.last()@
    }
}

/// The text of one node: its name and its direct dependency names.
pub open spec fn node_text(mo: ManagedObject) -> Seq<char> {
    "[ "@ + mo.name@ + " -> "@ + deps_text(mo.dependencies@) + " ]"@
}

/// The whole graph: every node and its direct dependency names.
pub open spec fn graph_text(f: Seq<ManagedObject>) -> Seq<char>
    decreases f.len(),
{
    if f.len() == 0 {
        Seq::empty()
    } else if f.len() == 1 {
        node_text(f[0])
    } else {
        graph_text(f.drop_last()) + ", "@ + node_text(f.last())
    }
}

/// Render one dependency list.
fn render_deps(ds: &Vec<String>) -> (r: String)
    ensures
        r@ == deps_text(ds@),
{
    let mut r = String::new();
    if ds.len() == 0 {
        r.append("<no deps>");
        proof {
            assert(r@ =~= deps_text(ds@));
        }
        return r;
    }
    r.append(ds[0].as_str());
    proof {
        assert(r@ =~= deps_text(ds@.take(1)));
    }
    let mut k: usize = 1;
    while k < ds.len()
        invariant
            1 <= k <= ds@.len(),
            r@ == deps_text(ds@.take(k as int)),
        decreases ds@.len() - k,
    {
        r.append(", ");
        r.append(ds[k].as_str());
        proof {
            assert(ds@.take(k + 1).drop_last() =~= ds@.take(k as int));
            assert(ds@.take(k + 1).last() == ds@[k as int]);
            assert(r@ =~= deps_text(ds@.take(k + 1)));
        }
        k += 1;
    }
    proof {
        assert(ds@.take(ds@.len() as int) =~= ds@);
    }
    r
}

/// Render one node.
fn render_node(mo: &ManagedObject) -> (r: String)
    ensures
        r@ == node_text(*mo),
{
    let mut r = String::new();
    r.append("[ ");
    r.append(mo.name.as_str());
    r.append(" -> ");
    let d = render_deps(&mo.dependencies);
    r.append(d.as_str());
    r.append(" ]");
    proof {
        assert(r@ =~= node_text(*mo));
    }
    r
}

/// Render the whole graph, for the cyclical-dependency diagnostic.
fn render_graph(f: &Vec<ManagedObject>) -> (r: String)
    ensures
        r@ == graph_text(f@),
{
    let mut r = String::new();
    if f.len() == 0 {
        proof {
            assert(r@ =~= graph_text(f@));
        }
        return r;
    }
    let n0 = render_node(&f[0]);
    r.append(n0.as_str());
    proof {
        assert(f@.take(1)[0] == f@[0]);
        assert(r@ =~= graph_text(f@.take(1)));
    }
    let mut k: usize = 1;
    while k < f.len()
        invariant
            1 <= k <= f@.len(),
            r@ == graph_text(f@.take(k as int)),
        decreases f@.len() - k,
    {
        r.append(", ");
        let nk = render_node(&f[k]);
        r.append(nk.as_str());
        proof {
            assert(f@.take(k + 1).drop_last() =~= f@.take(k as int));
            assert(f@.take(k + 1).last() == f@[k as int]);
            assert(r@ =~= graph_text(f@.take(k + 1)));
        }
        k += 1;
    }
    proof {
        assert(f@.take(f@.len() as int) =~= f@);
    }
    r
}

// ------------------------------------------------------------------
// The resolver.
// ------------------------------------------------------------------
/// Split the store into the platform-matching objects and the excluded ones.
fn split_by_platform(objects: Vec<ManagedObject>, os: OS) -> (fw: (
    Vec<ManagedObject>,
    Vec<ManagedObject>,
))
    ensures
        fw.0@ == filtered(objects@, os),
        fw.1@ == wrongs(objects@, os),
{
    let ghost orig = objects@;
    let mut rest = objects;
    let mut f: Vec<ManagedObject> = Vec::new();
    let mut w: Vec<ManagedObject> = Vec::new();
    while rest.len() > 0
        invariant
            rest@.len() <= orig.len(),
            rest@ == orig.subrange(orig.len() - rest@.len(), orig.len() as int),
            f@ == filtered(orig.take(orig.len() - rest@.len()), os),
            w@ == wrongs(orig.take(orig.len() - rest@.len()), os),
        decreases rest@.len(),
    {
        let ghost prev = rest@;
        let ghost i = orig.len() - prev.len();
        proof {
            assert(prev[0] == orig.subrange(i, orig.len() as int)[0]);
        }
        let mo = rest.remove(0);
        proof {
            assert(mo == orig[i]);
            assert(rest@ =~= orig.subrange(i + 1, orig.len() as int));
            assert(orig.take(i + 1).drop_last() =~= orig.take(i));
            assert(orig.take(i + 1).last() == orig[i]);
        }
        let ok = match mo.os {
            None => true,
            Some(o) => o == os,
        };
        proof {
            assert(ok == platform_ok(orig[i], os));
        }
        if ok {
            f.push(mo);
        } else {
            w.push(mo);
        }
        proof {
            assert(f@ == filtered(orig.take(i + 1), os));
            assert(w@ == wrongs(orig.take(i + 1), os));
        }
    }
    proof {
        assert(orig.take(orig.len() as int) =~= orig);
    }
    (f, w)
}

/// Does any platform-matching object depend on this name?
fn find_dependency_mention(f: &Vec<ManagedObject>, name: &String) -> (r: bool)
    ensures
        r == mentioned(f@, name@),
{
    let mut i: usize = 0;
    while i < f.len()
        invariant
            i <= f@.len(),
            forall|i2: int, k2: int|
                0 <= i2 < i && 0 <= k2 < f@[i2].dependencies@.len() ==> (
                #[trigger] f@[i2].dependencies@[k2])@ != name@,
        decreases f@.len() - i,
    {
        let mut k: usize = 0;
        while k < f[i].dependencies.len()
            invariant
                i < f@.len(),
                k <= f@[i as int].dependencies@.len(),
                forall|k2: int|
                    0 <= k2 < k ==> (#[trigger] f@[i as int].dependencies@[k2])@ != name@,
            decreases f@[i as int].dependencies@.len() - k,
        {
            if f[i].dependencies[k] == *name {
                proof {
                    assert(f@[i as int].dependencies@[k as int]@ == name@);
                }
                return true;
            }
            k += 1;
        }
        i += 1;
    }
    proof {
        if mentioned(f@, name@) {
            let (i2, k2): (int, int) = choose|i2: int, k2: int|
                0 <= i2 < f@.len() && 0 <= k2 < f@[i2].dependencies@.len() && (
                #[trigger] f@[i2].dependencies@[k2])@ == name@;
            assert(false);
        }
    }
    false
}

/// Copy the objects emitted from position `start` on, marking each
/// satisfied: the batch the emission between `start` and the end stands for.
fn collect_batch(f: &Vec<ManagedObject>, order: &Vec<usize>, start: usize) -> (b: Vec<
    ManagedObject,
>)
    requires
        start <= order@.len(),
        forall|p: int| 0 <= p < order@.len() ==> (#[trigger] order@[p]) < f@.len(),
    ensures
        b@.len() == order@.len() - start,
        forall|x: int|
            0 <= x < b@.len() ==> same_object(
                #[trigger] b@[x],
                with_satisfied(f@[order@[start + x] as int]),
            ),
{
    let mut b: Vec<ManagedObject> = Vec::new();
    let mut x = start;
    while x < order.len()
        invariant
            start <= x <= order@.len(),
            b@.len() == x - start,
            forall|p: int| 0 <= p < order@.len() ==> (#[trigger] order@[p]) < f@.len(),
            forall|x2: int|
                0 <= x2 < b@.len() ==> same_object(
                    #[trigger] b@[x2],
                    with_satisfied(f@[order@[start + x2] as int]),
                ),
        decreases order@.len() - x,
    {
        let mut mo = f[order[x]].clone();
        mo.set_satisfied();
        b.push(mo);
        x += 1;
    }
    b
}

/// Turn a traversal fault found under root `i` into the run's error, and
/// show it explains a defect of the whole store.
#[verifier::rlimit(100)]
#[verifier::spinoff_prover]
fn fault_to_error(
    fault: ResolveFault,
    f: &Vec<ManagedObject>,
    current_os: OS,
    Ghost(s): Ghost<Seq<ManagedObject>>,
    Ghost(i): Ghost<int>,
) -> (e: HMError)
    requires
        distinct_names(s),
        f@ == filtered(s, current_os),
        fault_witness(f@, wrongs(s, current_os), i, fault),
    ensures
        error_explained_target(s, current_os, i, e),
        error_explained_all(s, current_os, e),
        !(deps_defined(f@) && !cyclic(f@)),
        !(closure_deps_defined(f@, i) && !closure_cyclic(f@, i)),
        fault matches ResolveFault::Cycle ==> (cyclical_err(e, f@) && cyclic(f@)
            && closure_cyclic(f@, i)),
        !(fault matches ResolveFault::Cycle) ==> (!deps_defined(f@) && !closure_deps_defined(
            f@,
            i,
        )),
        fault matches ResolveFault::Missing { dependency } ==> (dep_undefined_err(e, dependency@)
            && missing_mention(s, current_os, dependency@)),
        fault matches ResolveFault::WrongPlatform { dependency, required } ==> (
        incorrect_platform_err(e, dependency@, current_os, required) && wrong_platform_mention(
            s,
            current_os,
            dependency@,
        ) && excluded_with(s, current_os, dependency@, required)),
{
    proof {
        lemma_partition(s, current_os);
        lemma_partition_names(s, current_os);
    }
    let ghost w = wrongs(s, current_os);
    match fault {
        ResolveFault::Missing { dependency } => {
            let ghost n = dependency@;
            proof {
                let (j, k): (int, int) = choose|j: int, k: int|
                    reachable(f@, i, j) && 0 <= j < f@.len() && 0 <= k
                        < f@[j].dependencies@.len() && (#[trigger] f@[j].dependencies@[k])@ == n;
                assert(mentioned(f@, n));
                assert(!has_name(s, n));
                assert(missing_mention(s, current_os, n));
                assert(dep_of_closure(f@, i, n));
                assert(!deps_defined(f@)) by {
                    if deps_defined(f@) {
                        assert(has_name(f@, f@[j].dependencies@[k]@));
                    }
                }
                assert(!closure_deps_defined(f@, i)) by {
                    if closure_deps_defined(f@, i) {
                        assert(has_name(f@, n));
                    }
                }
            }
            let e = HMError::Regular(ErrorKind::DependencyUndefinedError { dependency });
            proof {
                assert(dep_undefined_err(e, n));
            }
            e
        }
        ResolveFault::WrongPlatform { dependency, required } => {
            let ghost n = dependency@;
            proof {
                let (j, k): (int, int) = choose|j: int, k: int|
                    reachable(f@, i, j) && 0 <= j < f@.len() && 0 <= k
                        < f@[j].dependencies@.len() && (#[trigger] f@[j].dependencies@[k])@ == n;
                assert(mentioned(f@, n));
                assert(dep_of_closure(f@, i, n));
                let x = choose|x: int|
                    0 <= x < w.len() && (#[trigger] w[x]).name@ == n && w[x].os == Some(required);
                assert(has_name(w, n));
                assert(has_name(s, n));
                let si = choose|si: int| 0 <= si < s.len() && s[si] == w[x];
                assert(s[si].name@ == n && s[si].os == Some(required) && !platform_ok(
                    s[si],
                    current_os,
                ));
                assert(excluded_with(s, current_os, n, required));
                assert(wrong_platform_mention(s, current_os, n));
                assert(!deps_defined(f@)) by {
                    if deps_defined(f@) {
                        assert(has_name(f@, f@[j].dependencies@[k]@));
                    }
                }
                assert(!closure_deps_defined(f@, i)) by {
                    if closure_deps_defined(f@, i) {
                        assert(has_name(f@, n));
                    }
                }
            }
            let e = HMError::Regular(
                ErrorKind::IncorrectPlatformError {
                    dependency,
                    platform: current_os,
                    target_platform: required,
                },
            );
            proof {
                assert(incorrect_platform_err(e, n, current_os, required));
            }
            e
        }
        ResolveFault::Cycle => {
            let graph = render_graph(f);
            proof {
                let m = choose|m: int| reachable(f@, i, m) && #[trigger] on_cycle(f@, m);
                assert(cyclic(f@));
            }
            let e = HMError::Regular(ErrorKind::CyclicalDependencyError { dependency_graph: graph });
            proof {
                assert(cyclical_err(e, f@));
            }
            e
        }
    }
}

/// Fresh traversal state for `n` nodes.
fn fresh_colors(n: usize) -> (colors: Vec<u8>)
    ensures
        colors@.len() == n as int,
        forall|j: int| 0 <= j < n ==> (#[trigger] colors@[j]) == 0,
{
    let mut colors: Vec<u8> = Vec::new();
    let mut ci: usize = 0;
    while ci < n
        invariant
            ci <= n,
            colors@.len() == ci as int,
            forall|j: int| 0 <= j < ci ==> (#[trigger] colors@[j]) == 0,
        decreases n - ci,
    {
        colors.push(0);
        ci += 1;
    }
    colors
}

/// A complete emission of the closure of `tii`, copied out with the
/// satisfied mark, is exactly the dependency closure, in dependency order,
/// and certifies the closure sound.
#[verifier::rlimit(100)]
#[verifier::spinoff_prover]
proof fn lemma_single_batch_good(
    f: Seq<ManagedObject>,
    ord: Seq<usize>,
    flat: Seq<ManagedObject>,
    tii: int,
)
    requires
        distinct_names(f),
        ord_ok(f, ord),
        in_order(ord, tii),
        0 <= tii < f.len(),
        flat.len() == ord.len(),
        forall|x: int|
            0 <= x < flat.len() ==> same_object(
                #[trigger] flat[x],
                with_satisfied(f[ord[x] as int]),
            ),
        forall|p: int| 0 <= p < ord.len() ==> reachable(f, tii, (#[trigger] ord[p]) as int),
    ensures
        target_batch_good(f, tii, flat),
        closure_deps_defined(f, tii),
        !closure_cyclic(f, tii),
{
    let p0 = choose|p: int| 0 <= p < ord.len() && (#[trigger] ord[p]) as int == tii;
    assert forall|j: int|
        0 <= j < f.len() && reachable(f, tii, j) implies scheduled_in(flat, #[trigger] f[j]) by {
        let fuel = choose|fuel: nat| reaches(f, tii, j, fuel);
        lemma_reach_pos(f, ord, p0, j, fuel);
        let q = choose|q: int| 0 <= q <= p0 && (#[trigger] ord[q]) as int == j;
        assert(same_object(flat[q], with_satisfied(f[ord[q] as int])));
        assert(0 <= q < flat.len() && same_object(flat[q], with_satisfied(f[j])));
    }
    assert forall|p: int| 0 <= p < flat.len() implies from_closure(f, tii, #[trigger] flat[p]) by {
        assert(reachable(f, tii, ord[p] as int));
        assert(same_object(flat[p], with_satisfied(f[ord[p] as int])));
        assert((ord[p] as int) < f.len() && reachable(f, tii, ord[p] as int) && same_object(
            flat[p],
            with_satisfied(f[ord[p] as int]),
        ));
    }
    assert forall|p: int, q: int|
        0 <= p < q < flat.len() implies flat[p].name@ != flat[q].name@ by {
        assert(same_object(flat[p], with_satisfied(f[ord[p] as int])));
        assert(same_object(flat[q], with_satisfied(f[ord[q] as int])));
        if flat[p].name@ == flat[q].name@ {
            lemma_name_unique(f, ord[p] as int, ord[q] as int);
            assert(ord[p] != ord[q]);
        }
    }
    assert forall|p: int, k: int|
        #![trigger flat[p].dependencies@[k]]
        0 <= p < flat.len() && 0 <= k < flat[p].dependencies@.len() implies scheduled_before(
        flat,
        p,
        flat[p].dependencies@[k]@,
    ) by {
        assert(same_object(flat[p], with_satisfied(f[ord[p] as int])));
        assert(flat[p].dependencies@ == f[ord[p] as int].dependencies@);
        assert(emitted_before(f, ord, p, f[ord[p] as int].dependencies@[k]@));
        let q = choose|q: int|
            0 <= q < p && f[ord[q] as int].name@ == f[ord[p] as int].dependencies@[k]@;
        assert(same_object(flat[q], with_satisfied(f[ord[q] as int])));
        assert(0 <= q < p && flat[q].name@ == flat[p].dependencies@[k]@);
    }
    assert forall|n: Seq<char>| #[trigger] dep_of_closure(f, tii, n) implies has_name(f, n) by {
        let (j, k): (int, int) = choose|j: int, k: int|
            reachable(f, tii, j) && 0 <= j < f.len() && 0 <= k < f[j].dependencies@.len() && (
            #[trigger] f[j].dependencies@[k])@ == n;
        let fuel = choose|fuel: nat| reaches(f, tii, j, fuel);
        lemma_reach_pos(f, ord, p0, j, fuel);
        let p1 = choose|p: int| 0 <= p <= p0 && (#[trigger] ord[p]) as int == j;
        assert(emitted_before(f, ord, p1, f[ord[p1] as int].dependencies@[k]@));
        let q = choose|q: int|
            0 <= q < p1 && f[ord[q] as int].name@ == f[ord[p1] as int].dependencies@[k]@;
        assert(f[ord[q] as int].name@ == n);
    }
    assert(!closure_cyclic(f, tii)) by {
        if closure_cyclic(f, tii) {
            let m = choose|m: int| reachable(f, tii, m) && #[trigger] on_cycle(f, m);
            let fuel = choose|fuel: nat| reaches(f, tii, m, fuel);
            lemma_reach_pos(f, ord, p0, m, fuel);
            lemma_emitted_not_on_cycle(f, ord, m);
        }
    }
}

/// Resolve the dependency closure of the single node `ti`: one batch, in
/// dependency order.
#[verifier::rlimit(100)]
#[verifier::spinoff_prover]
fn resolve_single(
    f: &Vec<ManagedObject>,
    wrong: &Vec<ManagedObject>,
    ti: usize,
    current_os: OS,
    Ghost(s): Ghost<Seq<ManagedObject>>,
) -> (r: Result<Vec<Vec<ManagedObject>>, HMError>)
    requires
        distinct_names(s),
        f@ == filtered(s, current_os),
        wrong@ == wrongs(s, current_os),
        ti < f@.len(),
    ensures
        r is Ok <==> (closure_deps_defined(f@, ti as int) && !closure_cyclic(f@, ti as int)),
        r matches Ok(batches) ==> batches_view(batches@).len() == 1 && target_batch_good(
            f@,
            ti as int,
            flat_of(batches_view(batches@)),
        ),
        r matches Err(e) ==> error_explained_target(s, current_os, ti as int, e),
{
    proof {
        lemma_partition(s, current_os);
        lemma_partition_names(s, current_os);
    }
    let mut colors = fresh_colors(f.len());
    let mut order: Vec<usize> = Vec::new();
    let ghost tii = ti as int;
    match visit(f, wrong, ti, &mut colors, &mut order) {
        Ok(()) => {
            let batch = collect_batch(f, &order, 0);
            let mut tasks: Vec<Vec<ManagedObject>> = Vec::new();
            tasks.push(batch);
            let ghost flat = flat_of(batches_view(tasks@));
            proof {
                assert(batches_view(tasks@).len() == 1);
                assert(batches_view(tasks@)[0] == batch@);
                assert(batches_view(tasks@).drop_last() =~= Seq::<Seq<ManagedObject>>::empty());
                assert(flat_of(batches_view(tasks@).drop_last()) == Seq::<
                    ManagedObject,
                >::empty());
                assert(flat =~= batch@);
                assert(in_order(order@, tii));
                lemma_single_batch_good(f@, order@, flat, tii);
            }
            Ok(tasks)
        }
        Err(fault) => {
            let e = fault_to_error(fault, f, current_os, Ghost(s), Ghost(tii));
            Err(e)
        }
    }
}

/// Resolve the whole platform-matching store: one batch per object, with a
/// single global seen-set, so that each object is scheduled exactly once.
#[verifier::rlimit(100)]
#[verifier::spinoff_prover]
fn resolve_every(
    f: &Vec<ManagedObject>,
    wrong: &Vec<ManagedObject>,
    current_os: OS,
    Ghost(s): Ghost<Seq<ManagedObject>>,
) -> (r: Result<Vec<Vec<ManagedObject>>, HMError>)
    requires
        distinct_names(s),
        f@ == filtered(s, current_os),
        wrong@ == wrongs(s, current_os),
    ensures
        r is Ok <==> (deps_defined(f@) && !cyclic(f@)),
        r matches Ok(batches) ==> batches_schedule_all(f@, batches_view(batches@)),
        r matches Err(e) ==> error_explained_all(s, current_os, e),
        (deps_defined(f@) && cyclic(f@)) ==> (r matches Err(e) && cyclical_err(e, f@)),
        (!cyclic(f@) && !deps_defined(f@) && (forall|n: Seq<char>|
            !(#[trigger] wrong_platform_mention(s, current_os, n)))) ==> (r matches Err(e)
            && exists|n: Seq<char>| #[trigger]
            dep_undefined_err(e, n) && missing_mention(s, current_os, n)),
        (!cyclic(f@) && !deps_defined(f@) && (forall|n: Seq<char>|
            !(#[trigger] missing_mention(s, current_os, n)))) ==> (r matches Err(e) && exists|
            n: Seq<char>,
            req: OS,
        | #[trigger] incorrect_platform_err(e, n, current_os, req) && wrong_platform_mention(
            s,
            current_os,
            n,
        )),
{
    proof {
        lemma_partition(s, current_os);
        lemma_partition_names(s, current_os);
    }
    let mut colors = fresh_colors(f.len());
    let mut order: Vec<usize> = Vec::new();
    let mut tasks: Vec<Vec<ManagedObject>> = Vec::new();
    let mut rdx: usize = 0;
    while rdx < f.len()
        invariant
            distinct_names(s),
            f@ == filtered(s, current_os),
            wrong@ == wrongs(s, current_os),
            distinct_names(f@),
            wrong_platforms_ok(wrong@),
            rdx <= f@.len(),
            colors@.len() == f@.len(),
            state_inv(f@, colors@, order@),
            forall|j: int| 0 <= j < colors@.len() ==> (#[trigger] colors@[j]) != 1,
            forall|j: int| 0 <= j < rdx ==> (#[trigger] colors@[j]) == 2,
            tasks@.len() == rdx as int,
            flat_of(batches_view(tasks@)).len() == order@.len(),
            forall|p: int|
                0 <= p < order@.len() ==> same_object(
                    #[trigger] flat_of(batches_view(tasks@))[p],
                    with_satisfied(f@[order@[p] as int]),
                ),
        decreases f@.len() - rdx,
    {
        let start = order.len();
        let ghost o_head = order@;
        let ghost t_head = tasks@;
        let ghost flat_head = flat_of(batches_view(t_head));
        if colors[rdx] == 0 {
            match visit(f, wrong, rdx, &mut colors, &mut order) {
                Ok(()) => {}
                Err(fault) => {
                    let ghost gf = fault;
                    let e = fault_to_error(fault, f, current_os, Ghost(s), Ghost(rdx as int));
                    proof {
                        if !(gf matches ResolveFault::Cycle) {
                            assert(!deps_defined(f@));
                        }
                    }
                    return Err(e);
                }
            }
        }
        let batch = collect_batch(f, &order, start);
        tasks.push(batch);
        proof {
            assert(batches_view(tasks@).drop_last() =~= batches_view(t_head));
            assert(batches_view(tasks@).last() == batch@);
            assert(flat_of(batches_view(tasks@)) == flat_of(batches_view(t_head)) + batch@);
            assert(o_head.is_prefix_of(order@));
            assert(colors@[rdx as int] == 2);
            assert forall|p: int|
                0 <= p < order@.len() implies same_object(
                #[trigger] flat_of(batches_view(tasks@))[p],
                with_satisfied(f@[order@[p] as int]),
            ) by {
                if p < start {
                    assert(flat_of(batches_view(tasks@))[p] == flat_head[p]);
                    assert(order@[p] == o_head[p]);
                    assert(same_object(flat_head[p], with_satisfied(f@[o_head[p] as int])));
                } else {
                    assert(flat_of(batches_view(tasks@))[p] == batch@[p - start]);
                    assert(same_object(batch@[p - start], with_satisfied(f@[order@[p] as int])));
                }
            }
        }
        rdx += 1;
    }
    let ghost ord = order@;
    let ghost flat = flat_of(batches_view(tasks@));
    proof {
        assert forall|j: int| 0 <= j < f@.len() implies in_order(ord, j) by {
            assert(colors@[j] == 2);
        }
        lemma_ord_acyclic(f@, ord);
        // every declared dependency was emitted, so it names an object of `f`
        assert forall|i: int, k: int|
            0 <= i < f@.len() && 0 <= k < f@[i].dependencies@.len() implies has_name(
            f@,
            (#[trigger] f@[i].dependencies@[k])@,
        ) by {
            assert(in_order(ord, i));
            let p = choose|p: int| 0 <= p < ord.len() && (#[trigger] ord[p]) as int == i;
            assert(emitted_before(f@, ord, p, f@[ord[p] as int].dependencies@[k]@));
            let q = choose|q: int|
                0 <= q < p && f@[ord[q] as int].name@ == f@[ord[p] as int].dependencies@[k]@;
            assert(f@[ord[q] as int].name@ == f@[i].dependencies@[k]@);
        }
        assert(deps_defined(f@));
        // the flattened batches schedule each object exactly once, in order
        assert forall|j: int| 0 <= j < f@.len() implies scheduled_in(flat, #[trigger] f@[j]) by {
            assert(in_order(ord, j));
            let p = choose|p: int| 0 <= p < ord.len() && (#[trigger] ord[p]) as int == j;
            assert(same_object(flat[p], with_satisfied(f@[j])));
        }
        assert forall|p: int| 0 <= p < flat.len() implies from_store(f@, #[trigger] flat[p]) by {
            assert(same_object(flat[p], with_satisfied(f@[ord[p] as int])));
            assert((ord[p] as int) < f@.len() && same_object(
                flat[p],
                with_satisfied(f@[ord[p] as int]),
            ));
        }
        assert forall|p: int, q: int|
            0 <= p < q < flat.len() implies flat[p].name@ != flat[q].name@ by {
            assert(same_object(flat[p], with_satisfied(f@[ord[p] as int])));
            assert(same_object(flat[q], with_satisfied(f@[ord[q] as int])));
            if flat[p].name@ == flat[q].name@ {
                lemma_name_unique(f@, ord[p] as int, ord[q] as int);
                assert(ord[p] != ord[q]);
            }
        }
        assert forall|p: int, k: int|
            #![trigger flat[p].dependencies@[k]]
            0 <= p < flat.len() && 0 <= k < flat[p].dependencies@.len() implies scheduled_before(
            flat,
            p,
            flat[p].dependencies@[k]@,
        ) by {
            assert(same_object(flat[p], with_satisfied(f@[ord[p] as int])));
            assert(flat[p].dependencies@ == f@[ord[p] as int].dependencies@);
            assert(emitted_before(f@, ord, p, f@[ord[p] as int].dependencies@[k]@));
            let q = choose|q: int|
                0 <= q < p && f@[ord[q] as int].name@ == f@[ord[p] as int].dependencies@[k]@;
            assert(same_object(flat[q], with_satisfied(f@[ord[q] as int])));
            assert(0 <= q < p && flat[q].name@ == flat[p].dependencies@[k]@);
        }
    }
    Ok(tasks)
}

/// Classify a requested target that is not a platform-matching object:
/// known but excluded for its platform, or not declared at all.
#[verifier::rlimit(100)]
#[verifier::spinoff_prover]
fn absent_target_error(
    f: &Vec<ManagedObject>,
    wrong: &Vec<ManagedObject>,
    t: String,
    current_os: OS,
    Ghost(s): Ghost<Seq<ManagedObject>>,
) -> (e: HMError)
    requires
        distinct_names(s),
        f@ == filtered(s, current_os),
        wrong@ == wrongs(s, current_os),
        !has_name(f@, t@),
    ensures
        !mentioned(f@, t@) ==> dep_undefined_err(e, t@),
        (mentioned(f@, t@) && has_name(s, t@)) ==> exists|req: OS|
            #[trigger] incorrect_platform_err(e, t@, current_os, req) && excluded_with(
                s,
                current_os,
                t@,
                req,
            ),
        (mentioned(f@, t@) && !has_name(s, t@)) ==> dep_undefined_err(e, t@),
{
    proof {
        lemma_partition(s, current_os);
        lemma_partition_names(s, current_os);
    }
    if find_dependency_mention(f, &t) {
        match find_named(wrong, &t) {
            Some(x) => {
                let required = match wrong[x].os {
                    Some(o) => o,
                    None => OS::Unknown,
                };
                proof {
                    assert(wrong@[x as int].os is Some);
                    assert(has_name(wrongs(s, current_os), t@));
                    assert(has_name(s, t@));
                    let si = choose|si: int|
                        0 <= si < s.len() && s[si] == wrongs(s, current_os)[x as int];
                    assert(s[si].name@ == t@ && s[si].os == Some(required) && !platform_ok(
                        s[si],
                        current_os,
                    ));
                    assert(excluded_with(s, current_os, t@, required));
                }
                let e = HMError::Regular(
                    ErrorKind::IncorrectPlatformError {
                        dependency: t,
                        platform: current_os,
                        target_platform: required,
                    },
                );
                proof {
                    assert(incorrect_platform_err(e, e->Regular_0->IncorrectPlatformError_dependency@, current_os, required));
                }
                e
            }
            None => {
                proof {
                    assert(!has_name(wrongs(s, current_os), t@)) by {
                        if has_name(wrongs(s, current_os), t@) {
                            let j = choose|j: int|
                                0 <= j < wrongs(s, current_os).len() && (#[trigger] wrongs(
                                    s,
                                    current_os,
                                )[j]).name@ == t@;
                        }
                    }
                    assert(!has_name(s, t@));
                }
                HMError::Regular(ErrorKind::DependencyUndefinedError { dependency: t })
            }
        }
    } else {
        HMError::Regular(ErrorKind::DependencyUndefinedError { dependency: t })
    }
}

/// Partition the store by platform and compute the execution batches: for
/// the whole store, or for the dependency closure of one target task.
///
/// `resolution_contract` states everything this promises; resolution is
/// pure, and no subprocess exists before it returns.
#[verifier::rlimit(100)]
#[verifier::spinoff_prover]
pub fn resolve(store: Store, current_os: OS, target_task: Option<String>) -> (r: Result<
    Vec<Vec<ManagedObject>>,
    HMError,
>)
    requires
        store.wf(),
    ensures
        resolution_contract(store@, current_os, opt_name(target_task), r),
{
    let ghost s = store@;
    let objects = store.into_objects();
    let (f, wrong) = split_by_platform(objects, current_os);
    proof {
        lemma_partition(s, current_os);
        lemma_partition_names(s, current_os);
    }
    match target_task {
        None => resolve_every(&f, &wrong, current_os, Ghost(s)),
        Some(t) => {
            match find_named(&f, &t) {
                Some(ti) => {
                    proof {
                        assert(has_name(f@, t@));
                        lemma_name_unique(f@, name_index(f@, t@), ti as int);
                        assert(name_index(f@, t@) == ti as int);
                    }
                    resolve_single(&f, &wrong, ti, current_os, Ghost(s))
                }
                None => {
                    proof {
                        assert(!has_name(f@, t@)) by {
                            if has_name(f@, t@) {
                                let j = choose|j: int|
                                    0 <= j < f@.len() && (#[trigger] f@[j]).name@ == t@;
                            }
                        }
                    }
                    let e = absent_target_error(&f, &wrong, t, current_os, Ghost(s));
                    Err(e)
                }
            }
        }
    }
}

/// Create a non-cyclical dependency graph of the store and give it back as
/// batches of objects to run, dependencies first. Detects the host platform
/// itself; everything `resolve` promises holds for that platform.
pub fn get_task_batches(nodes: Store, target_task: Option<String>) -> (r: Result<
    Vec<Vec<ManagedObject>>,
    HMError,
>)
    requires
        nodes.wf(),
    ensures
        exists|os: OS| resolution_contract(nodes@, os, opt_name(target_task), r),
{
    let our_os = crate::config::determine_os();
    let r = resolve(nodes, our_os, target_task);
    proof {
        assert(resolution_contract(nodes@, our_os, opt_name(target_task), r));
    }
    r
}

/// In a dependency-ordered schedule, every object comes after all of its
/// direct and transitive dependencies: whenever a dependency path leads from
/// the object at `p` to the distinct object at `q`, `q` was scheduled
/// strictly earlier.
pub proof fn lemma_topo_sorted_transitive(flat: Seq<ManagedObject>, p: int, q: int, fuel: nat)
    requires
        topo_sorted(flat),
        distinct_names(flat),
        0 <= p < flat.len(),
        0 <= q < flat.len(),
        reaches(flat, p, q, fuel),
        p != q,
    ensures
        q < p,
    decreases fuel,
{
    let m = choose|m: int| #[trigger] dep_edge(flat, p, m) && reaches(flat, m, q, (fuel - 1) as nat);
    let k = choose|k: int|
        0 <= k < flat[p].dependencies@.len() && (#[trigger] flat[p].dependencies@[k])@
            == flat[m].name@;
    assert(scheduled_before(flat, p, flat[p].dependencies@[k]@));
    let m2 = choose|q2: int| 0 <= q2 < p && flat[q2].name@ == flat[p].dependencies@[k]@;
    lemma_name_unique(flat, m2, m);
    if m != q {
        lemma_topo_sorted_transitive(flat, m, q, (fuel - 1) as nat);
    }
}

/// The set of names scheduled by a resolution.
pub open spec fn name_set(flat: Seq<ManagedObject>) -> Set<Seq<char>> {
    flat.map_values(|mo: ManagedObject| mo.name@).to_set()
}

/// Resolving the same store twice schedules the same names: any two full
/// resolutions of one platform-matching store schedule exactly the store's
/// names, each exactly once, whatever order their batches came in.
#[verifier::rlimit(100)]
#[verifier::spinoff_prover]
pub proof fn lemma_resolution_idempotent(
    f: Seq<ManagedObject>,
    flat1: Seq<ManagedObject>,
    flat2: Seq<ManagedObject>,
)
    requires
        covers(f, flat1),
        drawn_from(f, flat1),
        covers(f, flat2),
        drawn_from(f, flat2),
    ensures
        name_set(flat1) == name_set(flat2),
{
    lemma_name_set_is_store(f, flat1);
    lemma_name_set_is_store(f, flat2);
    assert forall|n: Seq<char>|
        name_set(flat1).contains(n) == name_set(flat2).contains(n) by {
        assert(name_set(flat1).contains(n) <==> has_name(f, n));
        assert(name_set(flat2).contains(n) <==> has_name(f, n));
    }
    assert(name_set(flat1) =~= name_set(flat2));
}

/// A resolution's scheduled names are exactly the store's names.
proof fn lemma_name_set_is_store(f: Seq<ManagedObject>, flat: Seq<ManagedObject>)
    requires
        covers(f, flat),
        drawn_from(f, flat),
    ensures
        forall|n: Seq<char>| #![trigger name_set(flat).contains(n)]
            name_set(flat).contains(n) <==> has_name(f, n),
{
    let names = flat.map_values(|mo: ManagedObject| mo.name@);
    assert forall|n: Seq<char>| name_set(flat).contains(n) implies has_name(f, n) by {
        let p = choose|p: int| 0 <= p < names.len() && names[p] == n;
        assert(from_store(f, flat[p]));
        let j = choose|j: int| 0 <= j < f.len() && same_object(flat[p], with_satisfied(f[j]));
        assert(f[j].name@ == n);
    }
    assert forall|n: Seq<char>| has_name(f, n) implies name_set(flat).contains(n) by {
        let j = choose|j: int| 0 <= j < f.len() && (#[trigger] f[j]).name@ == n;
        assert(scheduled_in(flat, f[j]));
        let p = choose|p: int| 0 <= p < flat.len() && same_object(flat[p], with_satisfied(f[j]));
        assert(names[p] == n);
        assert(names.to_set().contains(n));
    }
}

// ------------------------------------------------------------------
// Task executor: the decision each tick of the polling loop makes.
// ------------------------------------------------------------------
/// What a non-blocking liveness check of the subprocess reported.
pub enum PollStatus {
    /// The process has not exited yet.
    Running,
    /// The process exited; `success` is whether the exit status was success,
    /// `code` the exit code if there was one.
    Exited { success: bool, code: Option<i32> },
    /// The liveness check itself failed.
    PollFailed,
}

/// What the polling loop must do after one liveness check.
pub enum ExecutorStep {
    /// Send this non-terminal message, sleep one tick, and poll again.
    Progress { message: Worker },
    /// Send this terminal message and stop: the task succeeded.
    Finished { message: Worker },
    /// Send nothing, stop, and fail with this error.
    Abandoned { error: HMError },
}

/// Decide one step of the task-executor polling loop for the task `name`
/// running the shell command `solution`.
///
/// Only a successful exit ever produces a terminal (`completed`) message;
/// a failed task therefore never reports `completed`, and a completion loop
/// waiting on it alone never terminates (see `all_workers_done`).
pub fn executor_step(name: &String, solution: &String, poll: PollStatus) -> (r: ExecutorStep)
    ensures
        match poll {
            PollStatus::Running => r matches ExecutorStep::Progress { message }
                && message.name@ == name@ && message.status is None && !message.completed,
            PollStatus::Exited { success, code } => if success {
                r matches ExecutorStep::Finished { message } && message.name@ == name@
                    && message.status == code && message.completed
            } else {
                r matches ExecutorStep::Abandoned { error } && (error matches HMError::Regular(
                    ErrorKind::SolutionError { solution: s },
                ) && s@ == solution@)
            },
            PollStatus::PollFailed => r matches ExecutorStep::Abandoned { error } && (
            error matches HMError::Regular(ErrorKind::SolutionError { solution: s }) && s@
                == solution@),
        },
        (r matches ExecutorStep::Finished { message }) ==> (poll matches PollStatus::Exited {
            success,
            ..
        } && success),
{
    match poll {
        PollStatus::Running => ExecutorStep::Progress {
            message: Worker { name: name.clone(), status: None, completed: false },
        },
        PollStatus::Exited { success, code } => {
            if success {
                ExecutorStep::Finished {
                    message: Worker { name: name.clone(), status: code, completed: true },
                }
            } else {
                ExecutorStep::Abandoned {
                    error: HMError::Regular(
                        ErrorKind::SolutionError { solution: solution.clone() },
                    ),
                }
            }
        }
        PollStatus::PollFailed => ExecutorStep::Abandoned {
            error: HMError::Regular(ErrorKind::SolutionError { solution: solution.clone() }),
        },
    }
}

// ------------------------------------------------------------------
// Status collector: one entry per worker name, newest message wins.
// ------------------------------------------------------------------
/// The completion loop's bookkeeping: the most recent `Worker` message per
/// task name.
pub struct WorkerTable {
    workers: Vec<Worker>,
}

impl View for WorkerTable {
    type V = Seq<Worker>;

    closed spec fn view(&self) -> Seq<Worker> {
        self.workers@
    }
}

impl WorkerTable {
    /// At most one entry per name.
    pub open spec fn wf(&self) -> bool {
        forall|i: int, j: int| 0 <= i < j < self@.len() ==> self@[i].name@ != self@[j].name@
    }

    pub fn new() -> (t: WorkerTable)
        ensures
            t@ == Seq::<Worker>::empty(),
            t.wf(),
    {
        WorkerTable { workers: Vec::new() }
    }

    /// Record a received message: the newest message for a name supersedes
    /// all earlier ones.
    pub fn update(&mut self, w: Worker)
        requires
            old(self).wf(),
        ensures
            final(self).wf(),
            final(self)@.len() >= 1,
            // the message just received is now the entry for its name
            exists|i: int|
                0 <= i < final(self)@.len() && final(self)@[i] == w,
            // entries for other names are untouched, and no entry appears
            forall|i: int|
                0 <= i < final(self)@.len() && final(self)@[i].name@ != w.name@ ==> exists|j: int|
                    0 <= j < old(self)@.len() && final(self)@[i] == #[trigger] old(self)@[j],
            forall|j: int|
                0 <= j < old(self)@.len() && (#[trigger] old(self)@[j]).name@ != w.name@
                    ==> exists|i: int| 0 <= i < final(self)@.len() && final(self)@[i] == old(
                    self,
                )@[j],
    {
        let pos = find_worker(&self.workers, &w.name);
        let ghost prev = self.workers@;
        match pos {
            Some(i) => {
                self.workers.set(i, w);
                proof {
                    assert(self.workers@[i as int] == w);
                    assert forall|j: int|
                        0 <= j < prev.len() && (#[trigger] prev[j]).name@ != w.name@ implies exists|
                        i2: int,
                    | 0 <= i2 < self.workers@.len() && self.workers@[i2] == prev[j] by {
                        assert(self.workers@[j] == prev[j]);
                    }
                }
            }
            None => {
                self.workers.push(w);
                proof {
                    assert(self.workers@[self.workers@.len() - 1] == w);
                    assert forall|j: int|
                        0 <= j < prev.len() && (#[trigger] prev[j]).name@ != w.name@ implies exists|
                        i2: int,
                    | 0 <= i2 < self.workers@.len() && self.workers@[i2] == prev[j] by {
                        assert(self.workers@[j] == prev[j]);
                    }
                }
            }
        }
    }
}

/// Find the first worker entry with the given name.
fn find_worker(workers: &Vec<Worker>, name: &String) -> (r: Option<usize>)
    ensures
        match r {
            Some(i) => i < workers@.len() && workers@[i as int].name@ == name@,
            None => forall|j: int| 0 <= j < workers@.len() ==> workers@[j].name@ != name@,
        },
{
    let mut i: usize = 0;
    while i < workers.len()
        invariant
            i <= workers@.len(),
            forall|j: int| 0 <= j < i ==> workers@[j].name@ != name@,
        decreases workers@.len() - i,
    {
        if workers[i].name == *name {
            return Some(i);
        }
        i += 1;
    }
    None
}

/// Iterate through all the workers passed in: the run is complete exactly
/// when every worker has reported a terminal message.
///
/// A task whose executor abandoned it never sends a terminal message, so a
/// completion loop that waits for this to become true blocks forever on such
/// a task; bounding that wait is the caller's concern.
pub fn all_workers_done(workers: &WorkerTable) -> (r: bool)
    ensures
        r == forall|i: int| 0 <= i < workers@.len() ==> (#[trigger] workers@[i]).completed,
{
    let mut i: usize = 0;
    while i < workers.workers.len()
        invariant
            i <= workers@.len(),
            forall|j: int| 0 <= j < i ==> (#[trigger] workers@[j]).completed,
        decreases workers@.len() - i,
    {
        if !workers.workers[i].completed {
            proof {
                assert(!(#[trigger] workers@[i as int]).completed);
            }
            return false;
        }
        i += 1;
    }
    true
}

} // verus!
