//! Dependency graphs over service indices: cycles, topological order, Kahn's algorithm.
use vstd::prelude::*;
use vstd::set_lib::{lemma_int_range, lemma_len_subset, set_int_range};

verus! {

/// Every dependency of every node is itself a node.
pub open spec fn deps_in_range(d: Seq<Set<int>>) -> bool {
    forall|i: int, j: int| 0 <= i < d.len() && #[trigger] d[i].contains(j) ==> 0 <= j < d.len()
}

/// A nonempty-or-empty set of nodes in which every member waits on another member:
/// none of them can ever have all its dependencies satisfied.
pub open spec fn closed_set(d: Seq<Set<int>>, s: Set<int>) -> bool {
    forall|i: int|
        #![trigger s.contains(i)]
        s.contains(i) ==> 0 <= i < d.len() && exists|j: int| #[trigger] d[i].contains(j) && s.contains(j)
}

/// Node `i` waits, directly or through other nodes, on a dependency cycle.
#[verifier::opaque]
pub open spec fn blocked_by_cycle(d: Seq<Set<int>>, i: int) -> bool {
    exists|s: Set<int>| #[trigger] closed_set(d, s) && s.contains(i)
}

/// The graph has a dependency cycle (a self-dependency counts).
pub open spec fn cyclic(d: Seq<Set<int>>) -> bool {
    exists|i: int| 0 <= i < d.len() && #[trigger] blocked_by_cycle(d, i)
}

/// `ord` lists each node at most once, and every dependency of a listed node is
/// listed before it.
pub open spec fn topological(d: Seq<Set<int>>, ord: Seq<int>) -> bool {
    &&& ord.no_duplicates()
    &&& forall|k: int| 0 <= k < ord.len() ==> 0 <= #[trigger] ord[k] < d.len()
    &&& forall|k: int, j: int|
        0 <= k < ord.len() && #[trigger] d[ord[k]].contains(j) ==> exists|m: int|
            0 <= m < k && #[trigger] ord[m] == j
}

/// Step `k` of `path` goes from a node to one of its dependencies.
pub open spec fn dep_edge(d: Seq<Set<int>>, path: Seq<int>, k: int) -> bool {
    d[path[k]].contains(path[k + 1])
}

/// `path` leads from a node, one dependency after another, to a node it waits on.
pub open spec fn dep_path(d: Seq<Set<int>>, path: Seq<int>) -> bool {
    &&& path.len() >= 2
    &&& forall|k: int| 0 <= k < path.len() ==> 0 <= #[trigger] path[k] < d.len()
    &&& forall|k: int| 0 <= k < path.len() - 1 ==> #[trigger] dep_edge(d, path, k)
}

/// Node `a` waits on node `b`, directly or through other nodes.
pub open spec fn depends_transitively(d: Seq<Set<int>>, a: int, b: int) -> bool {
    exists|path: Seq<int>| #[trigger] dep_path(d, path) && path[0] == a && path.last() == b
}

/// In a topological order of all nodes, the end of a dependency path comes
/// before its start.
pub proof fn lemma_topological_path(d: Seq<Set<int>>, ord: Seq<int>, path: Seq<int>)
    requires
        topological(d, ord),
        forall|i: int| 0 <= i < d.len() ==> ord.contains(i),
        dep_path(d, path),
    ensures
        exists|m1: int, m2: int| 0 <= m1 < m2 < ord.len() && #[trigger] ord[m1] == path.last() && #[trigger] ord[m2] == path[0],
    decreases path.len(),
{
    assert(0 <= path[0] < d.len());
    assert(ord.contains(path[0]));
    let m2 = choose|m2: int| 0 <= m2 < ord.len() && ord[m2] == path[0];
    assert(dep_edge(d, path, 0));
    assert(d[ord[m2]].contains(path[1]));
    let m = choose|m: int| 0 <= m < m2 && #[trigger] ord[m] == path[1];
    if path.len() == 2 {
        assert(path.last() == path[1]);
        assert(ord[m2] == path[0]);
    } else {
        let tail = path.drop_first();
        assert forall|k: int| 0 <= k < tail.len() - 1 implies #[trigger] dep_edge(d, tail, k) by {
            assert(dep_edge(d, path, k + 1));
            assert(tail[k] == path[k + 1] && tail[k + 1] == path[k + 2]);
        }
        assert forall|k: int| 0 <= k < tail.len() implies 0 <= #[trigger] tail[k] < d.len() by {
            assert(tail[k] == path[k + 1]);
        }
        lemma_topological_path(d, ord, tail);
        let (n1, n2) = choose|n1: int, n2: int| 0 <= n1 < n2 < ord.len() && #[trigger] ord[n1] == tail.last() && #[trigger] ord[n2] == tail[0];
        assert(tail[0] == path[1]);
        assert(tail.last() == path.last());
        assert(n2 == m);
        assert(ord[m2] == path[0]);
    }
}

/// `lst` is the increasing list of the nodes that depend on `j`.
pub open spec fn dependents_list(d: Seq<Set<int>>, j: int, lst: Seq<usize>) -> bool {
    &&& forall|a: int, b: int| 0 <= a < b < lst.len() ==> #[trigger] lst[a] < #[trigger] lst[b]
    &&& forall|k: int| 0 <= k < lst.len() ==> #[trigger] lst[k] < d.len()
    &&& forall|i: int|
        0 <= i < d.len() ==> (lst.contains(i as usize) <==> #[trigger] d[i].contains(j))
}

/// The queue holds exactly the unlisted nodes with no pending dependency.
pub open spec fn queued_exactly(queue: Seq<usize>, tmp: Seq<usize>, vis: Set<int>, n: int) -> bool {
    forall|j: int| 0 <= j < n ==> (queue.contains(j as usize) <==> (#[trigger] tmp[j] == 0 && !vis.contains(j)))
}

/// Reverse adjacency lists for all nodes.
pub open spec fn reverse_adjacency(d: Seq<Set<int>>, dependents: Seq<Vec<usize>>) -> bool {
    &&& dependents.len() == d.len()
    &&& forall|j: int| 0 <= j < d.len() ==> dependents_list(d, j, #[trigger] dependents[j]@)
}

pub open spec fn as_ints(s: Seq<usize>) -> Seq<int> {
    s.map_values(|x: usize| x as int)
}

/// No member of a closed set is ever listed in a topological order.
pub proof fn lemma_topological_avoids_closed(d: Seq<Set<int>>, ord: Seq<int>, s: Set<int>, k: int)
    requires
        topological(d, ord),
        closed_set(d, s),
        0 <= k < ord.len(),
    ensures
        forall|m: int| 0 <= m <= k ==> !s.contains(#[trigger] ord[m]),
    decreases k,
{
    if k > 0 {
        lemma_topological_avoids_closed(d, ord, s, k - 1);
    }
    if s.contains(ord[k]) {
        let j = choose|j: int| #[trigger] d[ord[k]].contains(j) && s.contains(j);
        let m = choose|m: int| 0 <= m < k && #[trigger] ord[m] == j;
        assert(!s.contains(ord[m]));
    }
}

/// A graph whose nodes can all be listed in topological order has no cycle.
pub proof fn lemma_full_order_acyclic(d: Seq<Set<int>>, ord: Seq<int>)
    requires
        topological(d, ord),
        ord.len() == d.len(),
    ensures
        !cyclic(d),
{
    reveal(blocked_by_cycle);
    assert forall|i: int| 0 <= i < d.len() implies !#[trigger] blocked_by_cycle(d, i) by {
        lemma_all_listed(d, ord);
        assert(ord.contains(i));
        let k = choose|k: int| 0 <= k < ord.len() && ord[k] == i;
        assert forall|s: Set<int>| closed_set(d, s) implies !s.contains(i) by {
            lemma_topological_avoids_closed(d, ord, s, k);
        }
    }
}

/// A duplicate-free list of `n` nodes drawn from `n` nodes lists them all.
pub proof fn lemma_all_listed(d: Seq<Set<int>>, ord: Seq<int>)
    requires
        topological(d, ord),
        ord.len() == d.len(),
    ensures
        forall|i: int| 0 <= i < d.len() ==> ord.contains(i),
{
    let r = set_int_range(0, d.len() as int);
    lemma_int_range(0, d.len() as int);
    ord.unique_seq_to_set();
    assert(ord.to_set().subset_of(r));
    vstd::set_lib::lemma_subset_equality(ord.to_set(), r);
    assert forall|i: int| 0 <= i < d.len() implies ord.contains(i) by {
        assert(r.contains(i));
        assert(ord.to_set().contains(i));
    }
}

/// A duplicate-free list drawn from `n` nodes has at most `n` entries.
pub proof fn lemma_listed_bound(n: int, ord: Seq<int>)
    requires
        0 <= n,
        ord.no_duplicates(),
        forall|k: int| 0 <= k < ord.len() ==> 0 <= #[trigger] ord[k] < n,
    ensures
        ord.len() <= n,
{
    let r = set_int_range(0, n);
    lemma_int_range(0, n);
    ord.unique_seq_to_set();
    assert(ord.to_set().subset_of(r));
    lemma_len_subset(ord.to_set(), r);
}

/// With the queue empty, the nodes not yet listed each wait on another unlisted node.
proof fn lemma_unlisted_closed(d: Seq<Set<int>>, vis: Set<int>, n: int, tmp: Seq<usize>, queue: Seq<usize>)
    requires
        n == d.len(),
        n <= usize::MAX,
        deps_in_range(d),
        forall|i: int| 0 <= i < n ==> #[trigger] d[i].finite(),
        tmp.len() == n,
        forall|i: int| 0 <= i < n ==> #[trigger] tmp[i] == d[i].difference(vis).len(),
        queue.len() == 0,
        forall|j: int| 0 <= j < n ==> (queue.contains(j as usize) <==> (#[trigger] tmp[j] == 0 && !vis.contains(j))),
    ensures
        closed_set(d, Set::new(|i: int| 0 <= i < n && !vis.contains(i))),
{
    let u = Set::new(|i: int| 0 <= i < n && !vis.contains(i));
    assert forall|i: int| 0 <= i < n && !vis.contains(i) implies #[trigger] tmp[i] != 0 by {
        if tmp[i] == 0 {
            assert(queue.contains(i as usize));
            let q = choose|q: int| 0 <= q < queue.len() && queue[q] == i as usize;
        }
    }
    assert forall|i: int| #![trigger u.contains(i)] u.contains(i) implies 0 <= i < d.len() && exists|j: int|
        #[trigger] d[i].contains(j) && u.contains(j) by {
        let rest = d[i].difference(vis);
        assert(tmp[i] != 0);
        assert(rest.len() != 0);
        vstd::set_lib::lemma_set_empty_equivalency_len(rest);
        let j = choose|j: int| rest.contains(j);
        assert(d[i].contains(j) && !vis.contains(j));
        assert(0 <= j < n);
        assert(u.contains(j));
    }
}

/// When the queue runs dry, the nodes not listed are exactly those waiting on a cycle.
proof fn lemma_kahn_conclusion(d: Seq<Set<int>>, ord: Seq<int>, vis: Set<int>, n: int, tmp: Seq<usize>, queue: Seq<usize>)
    requires
        n == d.len(),
        n <= usize::MAX,
        deps_in_range(d),
        forall|i: int| 0 <= i < n ==> #[trigger] d[i].finite(),
        tmp.len() == n,
        topological(d, ord),
        vis == ord.to_set(),
        forall|i: int| 0 <= i < n ==> #[trigger] tmp[i] == d[i].difference(vis).len(),
        queue.len() == 0,
        forall|j: int| 0 <= j < n ==> (queue.contains(j as usize) <==> (#[trigger] tmp[j] == 0 && !vis.contains(j))),
    ensures
        forall|i: int| 0 <= i < d.len() ==> (ord.contains(i) <==> !#[trigger] blocked_by_cycle(d, i)),
        (ord.len() == d.len()) == !cyclic(d),
        ord.len() <= d.len(),
{
    let u = Set::new(|i: int| 0 <= i < n && !vis.contains(i));
    lemma_unlisted_closed(d, vis, n, tmp, queue);
    reveal(blocked_by_cycle);
    assert forall|i: int| 0 <= i < d.len() implies (ord.contains(i) <==> !#[trigger] blocked_by_cycle(d, i)) by {
        if ord.contains(i) {
            let k = choose|k: int| 0 <= k < ord.len() && ord[k] == i;
            assert forall|s: Set<int>| closed_set(d, s) implies !s.contains(i) by {
                lemma_topological_avoids_closed(d, ord, s, k);
            }
        } else {
            assert(!vis.contains(i));
            assert(u.contains(i));
        }
    }
    lemma_order_length(d, ord);
}

/// Once membership in the order is settled, its length says whether there is a cycle.
proof fn lemma_order_length(d: Seq<Set<int>>, ord: Seq<int>)
    requires
        topological(d, ord),
        forall|i: int| 0 <= i < d.len() ==> (ord.contains(i) <==> !#[trigger] blocked_by_cycle(d, i)),
    ensures
        (ord.len() == d.len()) == !cyclic(d),
        ord.len() <= d.len(),
{
    let n = d.len() as int;
    lemma_listed_bound(n, ord);
    if ord.len() == n {
        lemma_full_order_acyclic(d, ord);
    } else {
        assert(exists|i: int| 0 <= i < n && !ord.contains(i)) by {
            if forall|i: int| 0 <= i < n ==> #[trigger] ord.contains(i) {
                ord.unique_seq_to_set();
                lemma_int_range(0, n);
                assert forall|x: int| set_int_range(0, n).contains(x) implies #[trigger] ord.to_set().contains(x) by {
                    assert(ord.contains(x));
                }
                lemma_len_subset(set_int_range(0, n), ord.to_set());
                assert(false);
            }
        }
        let i = choose|i: int| 0 <= i < n && !ord.contains(i);
        assert(blocked_by_cycle(d, i));
    }
}

/// Takes one from the pending count of each node that depends on the node just
/// listed, queueing those whose count reaches zero.
fn release_dependents(
    tmp: &mut Vec<usize>,
    queue: &mut Vec<usize>,
    deps_of_v: &Vec<usize>,
    Ghost(d): Ghost<Seq<Set<int>>>,
    Ghost(ord): Ghost<Seq<int>>,
    Ghost(old_vis): Ghost<Set<int>>,
    Ghost(vi): Ghost<int>,
)
    requires
        deps_in_range(d),
        0 <= vi < d.len(),
        dependents_list(d, vi, deps_of_v@),
        forall|i: int| 0 <= i < d.len() ==> #[trigger] d[i].finite(),
        old(tmp)@.len() == d.len(),
        topological(d, ord),
        ord.len() > 0,
        ord[ord.len() - 1] == vi,
        !old_vis.contains(vi),
        old_vis.insert(vi) == ord.to_set(),
        forall|i: int| 0 <= i < d.len() ==> #[trigger] old(tmp)@[i] == d[i].difference(old_vis.insert(vi)).len()
            + (if deps_of_v@.contains(i as usize) { 1int } else { 0int }),
        old(queue)@.no_duplicates(),
        forall|q: int| 0 <= q < old(queue)@.len() ==> #[trigger] old(queue)@[q] < d.len(),
        forall|j: int|
            0 <= j < d.len() ==> (old(queue)@.contains(j as usize) <==> (#[trigger] old(tmp)@[j] == 0
                && !old_vis.insert(vi).contains(j))),
    ensures
        final(tmp)@.len() == d.len(),
        forall|i: int| 0 <= i < d.len() ==> #[trigger] final(tmp)@[i] == d[i].difference(old_vis.insert(vi)).len(),
        final(queue)@.no_duplicates(),
        forall|q: int| 0 <= q < final(queue)@.len() ==> #[trigger] final(queue)@[q] < d.len(),
        queued_exactly(final(queue)@, final(tmp)@, old_vis.insert(vi), d.len() as int),
{
    let ghost n = d.len();
    let ghost vis = old_vis.insert(vi);
    let tmp_len = tmp.len();
    assert(n == tmp_len);
    let m = deps_of_v.len();
    let mut k: usize = 0;
    proof {
        assert(deps_of_v@.subrange(0, m as int) =~= deps_of_v@);
    }
    while k < m
        invariant
            n == d.len(),
            n <= usize::MAX,
            deps_in_range(d),
            dependents_list(d, vi, deps_of_v@),
            0 <= vi < n,
            m == deps_of_v@.len(),
            k <= m,
            forall|i: int| 0 <= i < n ==> #[trigger] d[i].finite(),
            tmp@.len() == n,
            topological(d, ord),
            vis == ord.to_set(),
            vis.contains(vi),
            ord.len() > 0,
            ord[ord.len() - 1] == vi,
            !old_vis.contains(vi),
            vis == old_vis.insert(vi),
            forall|i: int| 0 <= i < n ==> #[trigger] tmp@[i] == d[i].difference(vis).len()
                + (if deps_of_v@.subrange(k as int, m as int).contains(i as usize) { 1int } else { 0int }),
            queue@.no_duplicates(),
            forall|q: int| 0 <= q < queue@.len() ==> #[trigger] queue@[q] < n,
            forall|j: int|
                0 <= j < n ==> (queue@.contains(j as usize) <==> (#[trigger] tmp@[j] == 0 && !vis.contains(j))),
        decreases m - k,
    {
        let ghost tmp_h = tmp@;
        assert(forall|j: int| 0 <= j < n ==> (queue@.contains(j as usize) <==> (#[trigger] tmp_h[j] == 0 && !vis.contains(j))));
        let w = deps_of_v[k];
        let ghost wi = w as int;
        proof {
            assert(deps_of_v@.subrange(k as int, m as int)[0] == w);
            assert(deps_of_v@.contains(w));
            assert(d[wi].contains(vi));
        }
        let t = tmp[w];
        let ghost old_tmp = tmp@;
        tmp.set(w, t - 1);
        proof {
            assert forall|i: int| 0 <= i < n implies #[trigger] tmp@[i] == d[i].difference(vis).len()
                + (if deps_of_v@.subrange(k as int + 1, m as int).contains(i as usize) { 1int } else { 0int }) by {
                let tail = deps_of_v@.subrange(k as int, m as int);
                let tail1 = deps_of_v@.subrange(k as int + 1, m as int);
                assert(tail =~= seq![w] + tail1);
                if tail1.contains(i as usize) {
                    let q = choose|q: int| 0 <= q < tail1.len() && tail1[q] == i as usize;
                    assert(deps_of_v@[k as int] < deps_of_v@[k + 1 + q]);
                    assert(tail[q + 1] == i as usize);
                    assert(tail.contains(i as usize));
                }
                if i == wi {
                    assert(!tail1.contains(i as usize));
                } else {
                    if tail.contains(i as usize) {
                        let q = choose|q: int| 0 <= q < tail.len() && tail[q] == i as usize;
                        assert(tail[0] == w);
                        assert((i as usize) as int == i);
                        assert(q != 0);
                        assert(tail1[q - 1] == i as usize);
                    }
                }
            }
        }
        if t - 1 == 0 {
            proof {
                // w depends on v, so it cannot have been visited before v
                if vis.contains(wi) {
                    let kk = choose|kk: int| 0 <= kk < ord.len() && ord[kk] == wi;
                    let kv = ord.len() - 1;
                    if kk == kv {
                        assert(d[vi].contains(vi));
                        assert(old_vis.contains(vi));
                    } else {
                        let mm = choose|mm: int| 0 <= mm < kk && #[trigger] ord[mm] == vi;
                        assert(ord.no_duplicates());
                    }
                }
                assert(!vis.contains(wi));
                assert(tmp_h[wi] != 0);
                assert(!queue@.contains(w));
            }
            let ghost q0 = queue@;
            queue.push(w);
            proof {
                assert forall|j: int| 0 <= j < n implies (queue@.contains(j as usize) <==> (#[trigger] tmp@[j] == 0 && !vis.contains(j))) by {
                    if j != wi {
                        assert(old_tmp[j] == tmp@[j]);
                        assert(q0.contains(j as usize) == (tmp_h[j] == 0 && !vis.contains(j)));
                        if queue@.contains(j as usize) {
                            let q = choose|q: int| 0 <= q < queue@.len() && queue@[q] == j as usize;
                            assert(q < q0.len());
                            assert(q0[q] == j as usize);
                        }
                        if q0.contains(j as usize) {
                            let q = choose|q: int| 0 <= q < q0.len() && q0[q] == j as usize;
                            assert(queue@[q] == j as usize);
                        }
                    } else {
                        assert(queue@[queue@.len() - 1] == w);
                        assert(tmp@[wi] == 0);
                        assert(queue@.contains(w));
                    }
                }
            }
        } else {
            proof {
                assert forall|j: int| 0 <= j < n implies (queue@.contains(j as usize) <==> (#[trigger] tmp@[j] == 0 && !vis.contains(j))) by {
                    if j != wi {
                        assert(old_tmp[j] == tmp@[j]);
                        assert(tmp_h[j] == tmp@[j]);
                    } else {
                        assert(tmp_h[wi] != 0);
                        assert(!queue@.contains(w));
                    }
                }
            }
        }
        assert(forall|j: int| 0 <= j < n ==> (queue@.contains(j as usize) <==> (#[trigger] tmp@[j] == 0 && !vis.contains(j))));
        k = k + 1;
    }
    proof {
        assert(deps_of_v@.subrange(m as int, m as int).len() == 0);
        assert(queued_exactly(queue@, tmp@, vis, n as int));
    }
}

/// Kahn's algorithm. Returns the nodes that can be started, in an order in which
/// each node comes after all of its dependencies; the nodes left out are exactly
/// those that wait on a dependency cycle.
pub fn kahn_order(dependents: &Vec<Vec<usize>>, degree: &Vec<usize>, Ghost(d): Ghost<Seq<Set<int>>>) -> (order: Vec<usize>)
    requires
        deps_in_range(d),
        reverse_adjacency(d, dependents@),
        degree@.len() == d.len(),
        forall|i: int| 0 <= i < d.len() ==> #[trigger] degree@[i] == d[i].len(),
    ensures
        topological(d, as_ints(order@)),
        forall|i: int| 0 <= i < d.len() ==> (as_ints(order@).contains(i) <==> !#[trigger] blocked_by_cycle(d, i)),
        (order@.len() == d.len()) == !cyclic(d),
        order@.len() <= d.len(),
{
    let n = degree.len();
    let ghost r = set_int_range(0, n as int);
    proof {
        lemma_int_range(0, n as int);
        assert forall|i: int| 0 <= i < n implies #[trigger] d[i].finite() by {
            assert(d[i].subset_of(r));
            lemma_len_subset(d[i], r);
        }
    }
    let mut tmp: Vec<usize> = degree.clone();
    let mut queue: Vec<usize> = Vec::new();
    let mut order: Vec<usize> = Vec::new();
    let mut i: usize = 0;
    while i < n
        invariant
            n == d.len(),
            degree@.len() == n,
            tmp@ == degree@,
            i <= n,
            queue@.no_duplicates(),
            forall|k: int| 0 <= k < queue@.len() ==> #[trigger] queue@[k] < i,
            forall|j: int| 0 <= j < i ==> (queue@.contains(j as usize) <==> #[trigger] tmp@[j] == 0),
        decreases n - i,
    {
        let ghost q0 = queue@;
        if tmp[i] == 0 {
            queue.push(i);
            proof {
                assert(!q0.contains(i));
                assert forall|j: int| 0 <= j <= i implies (queue@.contains(j as usize) <==> #[trigger] tmp@[j] == 0) by {
                    if j < i && q0.contains(j as usize) {
                        let q = choose|q: int| 0 <= q < q0.len() && q0[q] == j as usize;
                        assert(queue@[q] == j as usize);
                    }
                    if queue@.contains(j as usize) && j < i {
                        let q = choose|q: int| 0 <= q < queue@.len() && queue@[q] == j as usize;
                        assert(q < q0.len());
                        assert(q0[q] == j as usize);
                    }
                    if j == i {
                        assert(queue@[queue@.len() - 1] == i);
                    }
                }
            }
        }
        i = i + 1;
    }
    proof {
        assert forall|i: int| 0 <= i < n implies #[trigger] tmp@[i] == d[i].difference(Set::<int>::empty()).len() by {
            assert(d[i].difference(Set::<int>::empty()) =~= d[i]);
        }
    }
    let ghost mut vis: Set<int> = Set::empty();
    assert(as_ints(order@) =~= Seq::<int>::empty());
    while queue.len() > 0
        invariant
            n == d.len(),
            deps_in_range(d),
            reverse_adjacency(d, dependents@),
            forall|i: int| 0 <= i < n ==> #[trigger] d[i].finite(),
            tmp@.len() == n,
            topological(d, as_ints(order@)),
            vis == as_ints(order@).to_set(),
            forall|i: int| 0 <= i < n ==> #[trigger] tmp@[i] == d[i].difference(vis).len(),
            queue@.no_duplicates(),
            forall|k: int| 0 <= k < queue@.len() ==> #[trigger] queue@[k] < n,
            forall|j: int|
                0 <= j < n ==> (queue@.contains(j as usize) <==> (#[trigger] tmp@[j] == 0 && !vis.contains(j))),
        decreases n - order@.len(),
    {
        proof {
            lemma_listed_bound(n as int, as_ints(order@));
        }
        let ghost old_queue = queue@;
        let ghost tmp0 = tmp@;
        assert(forall|j: int| 0 <= j < n ==> (old_queue.contains(j as usize) <==> (#[trigger] tmp0[j] == 0 && !vis.contains(j))));
        proof {
            let lastv = queue@[queue@.len() - 1];
            assert(lastv < n);
            assert(queue@.contains(lastv));
            let li = lastv as int;
            assert(li as usize == lastv);
            assert(0 <= li < n);
            assert(queue@.contains(li as usize));
            assert(tmp@[li] == 0);
            assert(!vis.contains(li));
        }
        let v = queue.pop().unwrap();
        proof {
            assert(old_queue =~= queue@.push(v));
            assert(old_queue[old_queue.len() - 1] == v);
        }
        let ghost old_vis = vis;
        let ghost vi = v as int;
        proof {
            assert(old_queue.contains(v));
            assert(!vis.contains(vi));
            assert(d[vi].difference(vis).len() == 0);
            assert forall|j: int| #[trigger] d[vi].contains(j) implies vis.contains(j) by {
                if !vis.contains(j) {
                    assert(d[vi].difference(vis).contains(j));
                    vstd::set_lib::lemma_set_empty_equivalency_len(d[vi].difference(vis));
                }
            }
        }
        let ghost old_order = as_ints(order@);
        order.push(v);
        proof {
            vis = vis.insert(vi);
            let no = as_ints(order@);
            assert(no =~= old_order.push(vi));
            assert(no.to_set() =~= old_order.to_set().insert(vi)) by {
                old_order.lemma_push_to_set_commute(vi);
            }
            assert forall|k: int, j: int| 0 <= k < no.len() && #[trigger] d[no[k]].contains(j) implies exists|m: int|
                0 <= m < k && #[trigger] no[m] == j by {
                if k < old_order.len() {
                    let m = choose|m: int| 0 <= m < k && #[trigger] old_order[m] == j;
                    assert(no[m] == j);
                } else {
                    assert(old_vis.contains(j));
                    let m = choose|m: int| 0 <= m < old_order.len() && old_order[m] == j;
                    assert(no[m] == j);
                }
            }
            assert(no.no_duplicates()) by {
                assert forall|a: int, b: int| 0 <= a < b < no.len() implies no[a] != no[b] by {
                    if b == old_order.len() {
                        assert(old_order.contains(no[a]));
                    }
                }
            }
        }
        let deps_of_v = &dependents[v];
        proof {
            assert(dependents_list(d, vi, deps_of_v@));
            assert forall|i: int| 0 <= i < n implies #[trigger] tmp@[i] == d[i].difference(vis).len()
                + (if deps_of_v@.contains(i as usize) { 1int } else { 0int }) by {
                assert(d[i].difference(vis) =~= d[i].difference(old_vis).remove(vi));
                vstd::set::axiom_set_remove_len(d[i].difference(old_vis), vi);
                assert(d[i].difference(old_vis).contains(vi) == d[i].contains(vi));
            }
            assert forall|j: int| 0 <= j < n implies (queue@.contains(j as usize) <==> (#[trigger] tmp@[j] == 0 && !vis.contains(j))) by {
                assert(vis.contains(j) == (old_vis.contains(j) || j == vi));
                assert(tmp0[j] == tmp@[j]);
                assert(old_queue.contains(j as usize) == (tmp0[j] == 0 && !old_vis.contains(j)));
                if queue@.contains(j as usize) {
                    let q = choose|q: int| 0 <= q < queue@.len() && queue@[q] == j as usize;
                    assert(old_queue[q] == j as usize);
                    assert(old_queue.contains(j as usize));
                    assert(old_queue[old_queue.len() - 1] == v);
                    assert(q != old_queue.len() - 1);
                    assert(j != vi);
                }
                if tmp@[j] == 0 && !vis.contains(j) {
                    assert(old_queue.contains(j as usize));
                    let q = choose|q: int| 0 <= q < old_queue.len() && old_queue[q] == j as usize;
                    if q == old_queue.len() - 1 {
                        assert(j == vi);
                    }
                    assert(queue@[q] == j as usize);
                }
            }
        }
        release_dependents(&mut tmp, &mut queue, deps_of_v, Ghost(d), Ghost(as_ints(order@)), Ghost(old_vis), Ghost(vi));
        proof {
            lemma_listed_bound(n as int, as_ints(order@));
        }
    }
    proof {
        lemma_kahn_conclusion(d, as_ints(order@), vis, n as int, tmp@, queue@);
    }
    order
}

} // verus!

verus! {

/// The nodes below `upto` that depend on `a`, in increasing order.
pub open spec fn indices_where(d: Seq<Set<int>>, a: int, upto: int) -> Seq<int>
    decreases upto,
{
    if upto <= 0 {
        Seq::empty()
    } else {
        indices_where(d, a, upto - 1) + if d[upto - 1].contains(a) {
            seq![upto - 1]
        } else {
            Seq::empty()
        }
    }
}

pub proof fn lemma_indices_where(d: Seq<Set<int>>, a: int, upto: int)
    requires
        0 <= upto,
    ensures
        forall|p: int, q: int|
            0 <= p < q < indices_where(d, a, upto).len() ==> #[trigger] indices_where(d, a, upto)[p]
                < #[trigger] indices_where(d, a, upto)[q],
        forall|p: int|
            0 <= p < indices_where(d, a, upto).len() ==> 0 <= #[trigger] indices_where(d, a, upto)[p]
                < upto,
        forall|i: int|
            0 <= i < upto ==> (indices_where(d, a, upto).contains(i) <==> #[trigger] d[i].contains(a)),
    decreases upto,
{
    if upto > 0 {
        lemma_indices_where(d, a, upto - 1);
        let prev = indices_where(d, a, upto - 1);
        let cur = indices_where(d, a, upto);
        assert forall|i: int| 0 <= i < upto implies (cur.contains(i) <==> #[trigger] d[i].contains(a)) by {
            if i < upto - 1 {
                if prev.contains(i) {
                    let p = choose|p: int| 0 <= p < prev.len() && prev[p] == i;
                    assert(cur[p] == i);
                }
                if cur.contains(i) {
                    let p = choose|p: int| 0 <= p < cur.len() && cur[p] == i;
                    if p >= prev.len() {
                        assert(cur[p] == upto - 1);
                    } else {
                        assert(prev[p] == i);
                    }
                }
            } else {
                if d[i].contains(a) {
                    assert(cur[cur.len() - 1] == i);
                } else {
                    assert(cur =~= prev);
                    if prev.contains(i) {
                        let p = choose|p: int| 0 <= p < prev.len() && prev[p] == i;
                    }
                }
            }
        }
    }
}

/// An increasing index list built by `indices_where` is a reverse adjacency list.
pub proof fn lemma_indices_where_is_dependents_list(d: Seq<Set<int>>, j: int, lst: Seq<usize>)
    requires
        as_ints(lst) == indices_where(d, j, d.len() as int),
        d.len() <= usize::MAX,
    ensures
        dependents_list(d, j, lst),
{
    lemma_indices_where(d, j, d.len() as int);
    let iw = indices_where(d, j, d.len() as int);
    assert forall|a: int, b: int| 0 <= a < b < lst.len() implies #[trigger] lst[a] < #[trigger] lst[b] by {
        assert(iw[a] == lst[a] as int);
        assert(iw[b] == lst[b] as int);
    }
    assert forall|k: int| 0 <= k < lst.len() implies #[trigger] lst[k] < d.len() by {
        assert(iw[k] == lst[k] as int);
    }
    assert forall|i: int| 0 <= i < d.len() implies (lst.contains(i as usize) <==> #[trigger] d[i].contains(j)) by {
        if lst.contains(i as usize) {
            let p = choose|p: int| 0 <= p < lst.len() && lst[p] == i as usize;
            assert(iw[p] == i);
        }
        if iw.contains(i) {
            let p = choose|p: int| 0 <= p < iw.len() && iw[p] == i;
            assert(lst[p] == i as usize);
        }
    }
}

} // verus!
