//! The service dependency graph: in-degree tracking for the parallel ready queue.
use vstd::prelude::*;
use crate::dag::{
    as_ints, blocked_by_cycle, cyclic, depends_transitively, deps_in_range, indices_where, kahn_order,
    dependents_list, lemma_indices_where, lemma_indices_where_is_dependents_list, reverse_adjacency, topological,
};
use crate::service::{def_names, dep_names, needs_names, ServiceDef};
use crate::text::{distinct_in_order, join, join_strings, lemma_is_sorted_seq, sort_strings, sorted_seq, strictly_sorted, views};

verus! {

/// Why a set of service definitions does not form a usable graph.
#[derive(Debug, Clone)]
pub enum GraphError {
    /// Some services wait on each other in a circle (or names repeat).
    Cycle(String),
    /// A service names a dependency that no definition provides.
    UnknownDep { service: String, dep: String },
}

/// The indices whose name is among `wanted`.
pub open spec fn resolve(names: Seq<Seq<char>>, wanted: Seq<Seq<char>>) -> Set<int> {
    Set::new(|j: int| 0 <= j < names.len() && wanted.contains(names[j]))
}

/// For each service, the indices of the services it depends on (`after` and `needs`).
pub open spec fn service_deps(defs: Seq<ServiceDef>) -> Seq<Set<int>> {
    Seq::new(defs.len(), |i: int| resolve(def_names(defs), dep_names(defs[i])))
}

/// For each service, the indices of the services it hard-depends on (`needs`).
pub open spec fn service_needs(defs: Seq<ServiceDef>) -> Seq<Set<int>> {
    Seq::new(defs.len(), |i: int| resolve(def_names(defs), needs_names(defs[i])))
}

/// The `k`th dependency name of service `i` names no service.
pub open spec fn unknown_at(defs: Seq<ServiceDef>, i: int, k: int) -> bool {
    &&& 0 <= i < defs.len()
    &&& 0 <= k < dep_names(defs[i]).len()
    &&& !def_names(defs).contains(dep_names(defs[i])[k])
}

/// Every dependency name names some service.
pub open spec fn all_deps_known(defs: Seq<ServiceDef>) -> bool {
    forall|i: int, k: int| !#[trigger] unknown_at(defs, i, k)
}

/// `(i, k)` is the first unknown dependency: by service, then by position in
/// the service's `after` list followed by its `needs` list.
pub open spec fn first_unknown(defs: Seq<ServiceDef>, i: int, k: int) -> bool {
    &&& unknown_at(defs, i, k)
    &&& forall|i2: int, k2: int| 0 <= i2 < i ==> !#[trigger] unknown_at(defs, i2, k2)
    &&& forall|k2: int| 0 <= k2 < k ==> !#[trigger] unknown_at(defs, i, k2)
}

/// `dep` is the name of the first unknown dependency, which service `i` has.
pub open spec fn reports_first_unknown(defs: Seq<ServiceDef>, i: int, dep: Seq<char>) -> bool {
    exists|k: int| #[trigger] first_unknown(defs, i, k) && dep == dep_names(defs[i])[k]
}

/// Names of the services below `upto` that wait on a dependency cycle, in order.
pub open spec fn blocked_names(defs: Seq<ServiceDef>, upto: int) -> Seq<Seq<char>>
    decreases upto,
{
    if upto <= 0 {
        Seq::empty()
    } else {
        blocked_names(defs, upto - 1) + if blocked_by_cycle(service_deps(defs), upto - 1) {
            seq![def_names(defs)[upto - 1]]
        } else {
            Seq::empty()
        }
    }
}

/// In-degrees of a freshly built graph: the number of distinct dependencies.
pub open spec fn initial_degrees(defs: Seq<ServiceDef>) -> Seq<int> {
    Seq::new(defs.len(), |i: int| service_deps(defs)[i].len() as int)
}

/// The text of a graph error.
pub open spec fn graph_error_message(e: GraphError) -> Seq<char> {
    match e {
        GraphError::Cycle(list) => "dependency cycle detected involving service(s): "@ + list@,
        GraphError::UnknownDep { service, dep } => "unknown dependency '"@ + dep@ + "' referenced by '"@
            + service@ + "'"@,
    }
}

impl GraphError {
    /// Human-readable description of the error.
    pub fn message(&self) -> (r: String)
        ensures
            r@ == graph_error_message(*self),
    {
        match self {
            GraphError::Cycle(list) => {
                let mut m = String::from_str("dependency cycle detected involving service(s): ");
                m.append(list.as_str());
                m
            },
            GraphError::UnknownDep { service, dep } => {
                let mut m = String::from_str("unknown dependency '");
                m.append(dep.as_str());
                m.append("' referenced by '");
                m.append(service.as_str());
                m.append("'");
                m
            },
        }
    }
}

/// Position of `s` among `names`, if present.
pub fn position_of(names: &Vec<String>, s: &str) -> (r: Option<usize>)
    ensures
        match r {
            Some(p) => p < names@.len() && names@[p as int]@ == s@ && forall|q: int|
                0 <= q < p ==> names@[q]@ != s@,
            None => !views(names@).contains(s@),
        },
{
    let mut p: usize = 0;
    while p < names.len()
        invariant
            p <= names@.len(),
            forall|q: int| 0 <= q < p ==> names@[q]@ != s@,
        decreases names@.len() - p,
    {
        if crate::text::str_eq(names[p].as_str(), s) {
            return Some(p);
        }
        p = p + 1;
    }
    proof {
        if views(names@).contains(s@) {
            let q = choose|q: int| 0 <= q < views(names@).len() && views(names@)[q] == s@;
            assert(names@[q]@ == s@);
        }
    }
    None
}

/// `x` is an element of `v`.
pub fn contains_index(v: &Vec<usize>, x: usize) -> (r: bool)
    ensures
        r == v@.contains(x),
{
    let mut k: usize = 0;
    while k < v.len()
        invariant
            k <= v@.len(),
            forall|q: int| 0 <= q < k ==> v@[q] != x,
        decreases v@.len() - k,
    {
        if v[k] == x {
            return true;
        }
        k = k + 1;
    }
    false
}

/// Appends to `acc` the positions in `names` of the strings in `wanted` that are
/// not yet listed; strings that name nothing are passed over.
fn resolve_into(names: &Vec<String>, wanted: &Vec<String>, acc: &mut Vec<usize>)
    requires
        views(names@).no_duplicates(),
        old(acc)@.no_duplicates(),
        forall|q: int| 0 <= q < old(acc)@.len() ==> #[trigger] old(acc)@[q] < names@.len(),
    ensures
        final(acc)@.no_duplicates(),
        forall|q: int| 0 <= q < final(acc)@.len() ==> #[trigger] final(acc)@[q] < names@.len(),
        as_ints(final(acc)@).to_set() == as_ints(old(acc)@).to_set() + resolve(views(names@), views(wanted@)),
{
    let ghost start = as_ints(acc@).to_set();
    let mut k: usize = 0;
    while k < wanted.len()
        invariant
            k <= wanted@.len(),
            views(names@).no_duplicates(),
            acc@.no_duplicates(),
            forall|q: int| 0 <= q < acc@.len() ==> #[trigger] acc@[q] < names@.len(),
            as_ints(acc@).to_set() == start + resolve(views(names@), views(wanted@).take(k as int)),
        decreases wanted@.len() - k,
    {
        match position_of(names, wanted[k].as_str()) {
            None => {
                proof {
                    let nv = views(names@);
                    let wk = views(wanted@).take(k as int);
                    let wk1 = views(wanted@).take(k as int + 1);
                    assert(wk1 =~= wk.push(wanted@[k as int]@));
                    assert(resolve(nv, wk1) =~= resolve(nv, wk)) by {
                        assert forall|j: int| resolve(nv, wk1).contains(j) implies resolve(nv, wk).contains(j) by {
                            let q = choose|q: int| 0 <= q < wk1.len() && wk1[q] == nv[j];
                            if q == k {
                                assert(nv.contains(wanted@[k as int]@));
                            } else {
                                assert(wk[q] == nv[j]);
                            }
                        }
                        assert forall|j: int| resolve(nv, wk).contains(j) implies resolve(nv, wk1).contains(j) by {
                            let q = choose|q: int| 0 <= q < wk.len() && wk[q] == nv[j];
                            assert(wk1[q] == nv[j]);
                        }
                    }
                }
            },
            Some(p) => {
                let ghost before = acc@;
                if !contains_index(acc, p) {
                    acc.push(p);
                    proof {
                        assert(as_ints(acc@) =~= as_ints(before).push(p as int));
                        as_ints(before).lemma_push_to_set_commute(p as int);
                        assert forall|a: int, b: int| 0 <= a < b < acc@.len() implies acc@[a] != acc@[b] by {
                            if b == acc@.len() - 1 {
                                assert(before.contains(acc@[a]));
                            }
                        }
                    }
                }
                proof {
                    let nv = views(names@);
                    let wk = views(wanted@).take(k as int);
                    let wk1 = views(wanted@).take(k as int + 1);
                    assert(wk1 =~= wk.push(wanted@[k as int]@));
                    assert(nv[p as int] == wanted@[k as int]@);
                    assert(resolve(nv, wk1) =~= resolve(nv, wk).insert(p as int)) by {
                        assert forall|j: int| resolve(nv, wk1).contains(j) implies resolve(nv, wk).insert(p as int).contains(j) by {
                            if j != p && !wk.contains(nv[j]) {
                                assert(nv[j] == wanted@[k as int]@);
                                assert(nv[j] == nv[p as int]);
                            }
                        }
                        assert forall|j: int| resolve(nv, wk).insert(p as int).contains(j) implies resolve(nv, wk1).contains(j) by {
                            if j == p {
                                assert(wk1[k as int] == nv[p as int]);
                            } else {
                                let q = choose|q: int| 0 <= q < wk.len() && wk[q] == nv[j];
                                assert(wk1[q] == nv[j]);
                            }
                        }
                    }
                    if before.contains(p) {
                        let q = choose|q: int| 0 <= q < before.len() && before[q] == p;
                        assert(as_ints(before)[q] == p as int);
                        assert(as_ints(before).to_set().contains(p as int));
                    }
                }
            },
        }
        k = k + 1;
    }
    proof {
        assert(views(wanted@).take(wanted@.len() as int) =~= views(wanted@));
    }
}


/// The first position in `wanted` whose string is not among `names`.
fn first_missing(names: &Vec<String>, wanted: &Vec<String>) -> (r: Option<usize>)
    ensures
        match r {
            Some(k) => k < wanted@.len() && !views(names@).contains(wanted@[k as int]@) && forall|q: int|
                0 <= q < k ==> views(names@).contains(#[trigger] wanted@[q]@),
            None => forall|q: int| 0 <= q < wanted@.len() ==> views(names@).contains(#[trigger] wanted@[q]@),
        },
{
    let mut k: usize = 0;
    while k < wanted.len()
        invariant
            k <= wanted@.len(),
            forall|q: int| 0 <= q < k ==> views(names@).contains(#[trigger] wanted@[q]@),
        decreases wanted@.len() - k,
    {
        match position_of(names, wanted[k].as_str()) {
            None => {
                return Some(k);
            },
            Some(p) => {
                assert(views(names@)[p as int] == wanted@[k as int]@);
            },
        }
        k = k + 1;
    }
    None
}

/// True when some name occurs twice.
pub(crate) fn has_duplicate(names: &Vec<String>) -> (r: bool)
    ensures
        r == !views(names@).no_duplicates(),
{
    let mut i: usize = 0;
    while i < names.len()
        invariant
            i <= names@.len(),
            forall|a: int, b: int| 0 <= a < b < i ==> views(names@)[a] != views(names@)[b],
        decreases names@.len() - i,
    {
        let mut k: usize = 0;
        while k < i
            invariant
                i < names@.len(),
                k <= i,
                forall|a: int| 0 <= a < k ==> views(names@)[a] != views(names@)[i as int],
            decreases i - k,
        {
            if crate::text::str_eq(names[k].as_str(), names[i].as_str()) {
                assert(views(names@)[k as int] == views(names@)[i as int]);
                return true;
            }
            k = k + 1;
        }
        i = i + 1;
    }
    false
}

/// The names of the definitions, in order.
pub(crate) fn collect_names(services: &[ServiceDef]) -> (names: Vec<String>)
    ensures
        views(names@) == def_names(services@),
        names@.len() == services@.len(),
{
        let n = services.len();
        let ghost defs = services@;
        let mut names: Vec<String> = Vec::new();
        let mut i: usize = 0;
        while i < n
            invariant
                n == defs.len(),
                defs == services@,
                i <= n,
                views(names@) == def_names(defs).take(i as int),
            decreases n - i,
        {
            let ghost before = names@;
            names.push(services[i].service.name.clone());
            assert(views(names@) =~= views(before).push(defs[i as int].service.name@));
            assert(def_names(defs).take(i as int + 1) =~= def_names(defs).take(i as int).push(defs[i as int].service.name@));
            i = i + 1;
        }
        assert(views(names@) =~= def_names(defs));
        names
}

/// The first dependency that names no service, with the service's position.
fn find_unknown(services: &Vec<ServiceDef>, names: &Vec<String>) -> (r: Option<(usize, String)>)
    requires
        views(names@) == def_names(services@),
        names@.len() == services@.len(),
    ensures
        r matches Some(p) ==> reports_first_unknown(services@, p.0 as int, p.1@),
        r is None ==> all_deps_known(services@),
{
        let n = services.len();
        let ghost defs = services@;
        let mut i: usize = 0;
        while i < n
            invariant
                n == defs.len(),
                defs == services@,
                i <= n,
                names@.len() == n,
                views(names@) == def_names(defs),
                forall|i2: int, k2: int| 0 <= i2 < i ==> !#[trigger] unknown_at(defs, i2, k2),
            decreases n - i,
        {
            if let Some(deps) = &services[i].deps {
                let ghost dn = dep_names(defs[i as int]);
                assert(dn =~= views(deps.after@) + views(deps.needs@));
                match first_missing(&names, &deps.after) {
                    Some(k) => {
                        assert(unknown_at(defs, i as int, k as int));
                        assert(first_unknown(defs, i as int, k as int)) by {
                            assert forall|k2: int| 0 <= k2 < k implies !#[trigger] unknown_at(defs, i as int, k2) by {
                                assert(dn[k2] == deps.after@[k2]@);
                            }
                        }
                        assert(views(names@)[i as int] == names@[i as int]@);
                        assert(dn[k as int] == deps.after@[k as int]@);
                        let dep = deps.after[k].clone();
                        assert(first_unknown(defs, i as int, k as int) && dep@ == dep_names(defs[i as int])[k as int]);
                        assert(reports_first_unknown(defs, i as int, dep@));
                        return Some((i, dep));
                    },
                    None => {},
                }
                match first_missing(&names, &deps.needs) {
                    Some(k) => {
                        let ghost ka = deps.after@.len() + k;
                        assert(dn[ka] == deps.needs@[k as int]@);
                        assert(unknown_at(defs, i as int, ka));
                        assert(first_unknown(defs, i as int, ka)) by {
                            assert forall|k2: int| 0 <= k2 < ka implies !#[trigger] unknown_at(defs, i as int, k2) by {
                                if k2 < deps.after@.len() {
                                    assert(dn[k2] == deps.after@[k2]@);
                                } else {
                                    assert(dn[k2] == deps.needs@[k2 - deps.after@.len()]@);
                                }
                            }
                        }
                        let dep = deps.needs[k].clone();
                        assert(first_unknown(defs, i as int, ka) && dep@ == dep_names(defs[i as int])[ka]);
                        assert(reports_first_unknown(defs, i as int, dep@));
                        return Some((i, dep));
                    },
                    None => {},
                }
                assert forall|k2: int| !#[trigger] unknown_at(defs, i as int, k2) by {
                    if 0 <= k2 < dn.len() {
                        if k2 < deps.after@.len() {
                            assert(dn[k2] == deps.after@[k2]@);
                        } else {
                            assert(dn[k2] == deps.needs@[k2 - deps.after@.len()]@);
                        }
                    }
                }
            } else {
                assert forall|k2: int| !#[trigger] unknown_at(defs, i as int, k2) by {}
            }
            i = i + 1;
        }
        None
}

/// Each service's dependencies (all, and `needs` only) as lists of positions,
/// and its in-degree.
pub(crate) fn dependency_lists(services: &[ServiceDef], names: &Vec<String>) -> (r: (Vec<Vec<usize>>, Vec<Vec<usize>>, Vec<usize>))
    requires
        views(names@) == def_names(services@),
        names@.len() == services@.len(),
        def_names(services@).no_duplicates(),
    ensures
        r.0@.len() == services@.len(),
        r.1@.len() == services@.len(),
        r.2@.len() == services@.len(),
        forall|q: int| 0 <= q < services@.len() ==> as_ints((#[trigger] r.0@[q])@).to_set() == service_deps(services@)[q],
        forall|q: int| 0 <= q < services@.len() ==> as_ints((#[trigger] r.1@[q])@).to_set() == service_needs(services@)[q],
        forall|q: int| 0 <= q < services@.len() ==> #[trigger] r.2@[q] == service_deps(services@)[q].len(),
{
        let n = services.len();
        let ghost defs = services@;
        let ghost d = service_deps(defs);
        let ghost nd = service_needs(defs);
        let mut i: usize = 0;
        // Resolve each service's dependencies to indices.
        let mut dep_lists: Vec<Vec<usize>> = Vec::new();
        let mut need_lists: Vec<Vec<usize>> = Vec::new();
        let mut degree: Vec<usize> = Vec::new();
        while i < n
            invariant
                n == defs.len(),
                defs == services@,
                i <= n,
                views(names@) == def_names(defs),
                def_names(defs).no_duplicates(),
                d == service_deps(defs),
                nd == service_needs(defs),
                dep_lists@.len() == i,
                need_lists@.len() == i,
                degree@.len() == i,
                forall|q: int| 0 <= q < i ==> (#[trigger] dep_lists@[q])@.no_duplicates(),
                forall|q: int, m: int| 0 <= q < i && 0 <= m < dep_lists@[q]@.len() ==> #[trigger] dep_lists@[q]@[m] < n,
                forall|q: int| 0 <= q < i ==> as_ints((#[trigger] dep_lists@[q])@).to_set() == d[q],
                forall|q: int| 0 <= q < i ==> (#[trigger] need_lists@[q])@.no_duplicates(),
                forall|q: int, m: int| 0 <= q < i && 0 <= m < need_lists@[q]@.len() ==> #[trigger] need_lists@[q]@[m] < n,
                forall|q: int| 0 <= q < i ==> as_ints((#[trigger] need_lists@[q])@).to_set() == nd[q],
                forall|q: int| 0 <= q < i ==> #[trigger] degree@[q] == d[q].len(),
            decreases n - i,
        {
            let mut dl: Vec<usize> = Vec::new();
            let mut nl: Vec<usize> = Vec::new();
            let ghost nv = def_names(defs);
            assert(as_ints(dl@).to_set() =~= Set::<int>::empty());
            if let Some(deps) = &services[i].deps {
                resolve_into(&names, &deps.after, &mut dl);
                resolve_into(&names, &deps.needs, &mut dl);
                resolve_into(&names, &deps.needs, &mut nl);
                proof {
                    assert(as_ints(nl@).to_set() =~= Set::<int>::empty() + resolve(nv, views(deps.needs@)));
                    assert(as_ints(nl@).to_set() =~= nd[i as int]);
                    let dn = dep_names(defs[i as int]);
                    assert(dn =~= views(deps.after@) + views(deps.needs@));
                    assert(as_ints(dl@).to_set() =~= d[i as int]) by {
                        assert forall|j: int| as_ints(dl@).to_set().contains(j) <==> d[i as int].contains(j) by {
                            if 0 <= j < nv.len() {
                                if views(deps.after@).contains(nv[j]) {
                                    let q = choose|q: int| 0 <= q < views(deps.after@).len() && views(deps.after@)[q] == nv[j];
                                    assert(dn[q] == nv[j]);
                                }
                                if views(deps.needs@).contains(nv[j]) {
                                    let q = choose|q: int| 0 <= q < views(deps.needs@).len() && views(deps.needs@)[q] == nv[j];
                                    assert(dn[views(deps.after@).len() + q] == nv[j]);
                                }
                                if dn.contains(nv[j]) {
                                    let q = choose|q: int| 0 <= q < dn.len() && dn[q] == nv[j];
                                    if q < views(deps.after@).len() {
                                        assert(views(deps.after@)[q] == nv[j]);
                                    } else {
                                        assert(views(deps.needs@)[q - views(deps.after@).len()] == nv[j]);
                                    }
                                }
                            }
                        }
                    }
                }
            } else {
                proof {
                    assert(as_ints(nl@).to_set() =~= nd[i as int]);
                    assert(as_ints(dl@).to_set() =~= d[i as int]);
                }
            }
            proof {
                assert(as_ints(dl@).no_duplicates()) by {
                    assert forall|a: int, b: int| 0 <= a < b < as_ints(dl@).len() implies as_ints(dl@)[a] != as_ints(dl@)[b] by {
                        assert(dl@[a] != dl@[b]);
                    }
                }
                as_ints(dl@).unique_seq_to_set();
            }
            degree.push(dl.len());
            dep_lists.push(dl);
            need_lists.push(nl);
            i = i + 1;
        }
        (dep_lists, need_lists, degree)
}

/// Reverse adjacency lists for all edges and for `needs` edges, and the
/// `needs` lists by name.
pub(crate) fn reverse_lists(services: &[ServiceDef], names: &Vec<String>, dep_lists: &Vec<Vec<usize>>, need_lists: &Vec<Vec<usize>>)
    -> (r: (Vec<Vec<usize>>, Vec<Vec<usize>>, Vec<Vec<String>>))
    requires
        views(names@) == def_names(services@),
        names@.len() == services@.len(),
        dep_lists@.len() == services@.len(),
        need_lists@.len() == services@.len(),
        forall|q: int| 0 <= q < services@.len() ==> as_ints((#[trigger] dep_lists@[q])@).to_set() == service_deps(services@)[q],
        forall|q: int| 0 <= q < services@.len() ==> as_ints((#[trigger] need_lists@[q])@).to_set() == service_needs(services@)[q],
    ensures
        r.0@.len() == services@.len(),
        r.1@.len() == services@.len(),
        r.2@.len() == services@.len(),
        forall|q: int| 0 <= q < services@.len() ==> as_ints(#[trigger] r.0@[q]@) == indices_where(service_deps(services@), q, services@.len() as int),
        forall|q: int| 0 <= q < services@.len() ==> as_ints(#[trigger] r.1@[q]@) == indices_where(service_needs(services@), q, services@.len() as int),
        forall|q: int| 0 <= q < services@.len() ==> views(#[trigger] r.2@[q]@) == needs_view(services@, q),
{
        let n = services.len();
        let ghost defs = services@;
        let ghost d = service_deps(defs);
        let ghost nd = service_needs(defs);
        // Reverse adjacency for all edges and for `needs` edges.
        let mut dependents: Vec<Vec<usize>> = Vec::new();
        let mut needs_idx: Vec<Vec<usize>> = Vec::new();
        let mut needs_names: Vec<Vec<String>> = Vec::new();
        let mut j: usize = 0;
        while j < n
            invariant
                n == defs.len(),
                defs == services@,
                j <= n,
                views(names@) == def_names(defs),
                d == service_deps(defs),
                nd == service_needs(defs),
                dep_lists@.len() == n,
                need_lists@.len() == n,
                forall|q: int| 0 <= q < n ==> as_ints((#[trigger] dep_lists@[q])@).to_set() == d[q],
                forall|q: int| 0 <= q < n ==> as_ints((#[trigger] need_lists@[q])@).to_set() == nd[q],
                dependents@.len() == j,
                needs_idx@.len() == j,
                needs_names@.len() == j,
                forall|q: int| 0 <= q < j ==> as_ints(#[trigger] dependents@[q]@) == indices_where(d, q, n as int),
                forall|q: int| 0 <= q < j ==> as_ints(#[trigger] needs_idx@[q]@) == indices_where(nd, q, n as int),
                forall|q: int| 0 <= q < j ==> views(#[trigger] needs_names@[q]@) == needs_view(defs, q),
            decreases n - j,
        {
            let mut dep_j: Vec<usize> = Vec::new();
            let mut need_j: Vec<usize> = Vec::new();
            let mut need_j_names: Vec<String> = Vec::new();
            let mut k: usize = 0;
            while k < n
                invariant
                    n == defs.len(),
                    j < n,
                    k <= n,
                    views(names@) == def_names(defs),
                    d == service_deps(defs),
                    nd == service_needs(defs),
                    dep_lists@.len() == n,
                    need_lists@.len() == n,
                    forall|q: int| 0 <= q < n ==> as_ints((#[trigger] dep_lists@[q])@).to_set() == d[q],
                    forall|q: int| 0 <= q < n ==> as_ints((#[trigger] need_lists@[q])@).to_set() == nd[q],
                    as_ints(dep_j@) == indices_where(d, j as int, k as int),
                    as_ints(need_j@) == indices_where(nd, j as int, k as int),
                    views(need_j_names@) == indices_where(nd, j as int, k as int).map_values(|x: int| def_names(defs)[x]),
                decreases n - k,
            {
                let ghost dk = dep_lists@[k as int]@;
                let ghost nk = need_lists@[k as int]@;
                let in_dep = contains_index(&dep_lists[k], j);
                proof {
                    if dk.contains(j) {
                        let q = choose|q: int| 0 <= q < dk.len() && dk[q] == j;
                        assert(as_ints(dk)[q] == j as int);
                        assert(as_ints(dk).to_set().contains(j as int));
                    }
                    if d[k as int].contains(j as int) {
                        assert(as_ints(dk).to_set().contains(j as int));
                        let q = choose|q: int| 0 <= q < as_ints(dk).len() && as_ints(dk)[q] == j as int;
                        assert(dk[q] == j);
                    }
                }
                if in_dep {
                    dep_j.push(k);
                }
                assert(as_ints(dep_j@) =~= indices_where(d, j as int, k as int + 1));
                let in_need = contains_index(&need_lists[k], j);
                proof {
                    if nk.contains(j) {
                        let q = choose|q: int| 0 <= q < nk.len() && nk[q] == j;
                        assert(as_ints(nk)[q] == j as int);
                        assert(as_ints(nk).to_set().contains(j as int));
                    }
                    if nd[k as int].contains(j as int) {
                        assert(as_ints(nk).to_set().contains(j as int));
                        let q = choose|q: int| 0 <= q < as_ints(nk).len() && as_ints(nk)[q] == j as int;
                        assert(nk[q] == j);
                    }
                }
                let ghost iw0 = indices_where(nd, j as int, k as int);
                let ghost iw1 = indices_where(nd, j as int, k as int + 1);
                let ghost before_names = need_j_names@;
                if in_need {
                    need_j.push(k);
                    need_j_names.push(names[k].clone());
                    proof {
                        assert(iw1 =~= iw0.push(k as int));
                        assert(views(need_j_names@) =~= views(before_names).push(def_names(defs)[k as int]));
                        assert(iw1.map_values(|x: int| def_names(defs)[x]) =~= iw0.map_values(|x: int| def_names(defs)[x]).push(def_names(defs)[k as int]));
                    }
                } else {
                    proof {
                        assert(iw1 =~= iw0);
                    }
                }
                assert(as_ints(need_j@) =~= indices_where(nd, j as int, k as int + 1));
                assert(views(need_j_names@) =~= indices_where(nd, j as int, k as int + 1).map_values(|x: int| def_names(defs)[x]));
                k = k + 1;
            }
            dependents.push(dep_j);
            needs_idx.push(need_j);
            needs_names.push(need_j_names);
            j = j + 1;
        }
        (dependents, needs_idx, needs_names)
}

/// The names of the services left out of a Kahn order, in definition order.
fn blocked_list(names: &Vec<String>, order: &Vec<usize>, Ghost(defs): Ghost<Seq<ServiceDef>>) -> (stuck: Vec<String>)
    requires
        names@.len() == defs.len(),
        views(names@) == def_names(defs),
        forall|x: int| 0 <= x < defs.len() ==> (as_ints(order@).contains(x) <==> !#[trigger] blocked_by_cycle(service_deps(defs), x)),
    ensures
        views(stuck@) == blocked_names(defs, defs.len() as int),
{
    let n = names.len();
    let ghost d = service_deps(defs);
        let mut stuck: Vec<String> = Vec::new();
        let mut a: usize = 0;
        while a < n
            invariant
                n == defs.len(),
                a <= n,
                names@.len() == n,
                views(names@) == def_names(defs),
                d == service_deps(defs),
                forall|x: int| 0 <= x < n ==> (as_ints(order@).contains(x) <==> !#[trigger] blocked_by_cycle(d, x)),
                views(stuck@) == blocked_names(defs, a as int),
            decreases n - a,
        {
            let listed = contains_index(&order, a);
            let ghost blk = blocked_by_cycle(d, a as int);
            proof {
                if order@.contains(a) {
                    let q = choose|q: int| 0 <= q < order@.len() && order@[q] == a;
                    assert(as_ints(order@)[q] == a as int);
                }
                if as_ints(order@).contains(a as int) {
                    let q = choose|q: int| 0 <= q < as_ints(order@).len() && as_ints(order@)[q] == a as int;
                    assert(order@[q] == a);
                }
            }
            assert(listed == !blk);
            let ghost before_stuck = stuck@;
            if !listed {
                stuck.push(names[a].clone());
                assert(views(stuck@) =~= views(before_stuck).push(def_names(defs)[a as int]));
            }
            assert(blocked_names(defs, a as int + 1) == blocked_names(defs, a as int) + if blk {
                seq![def_names(defs)[a as int]]
            } else {
                Seq::<Seq<char>>::empty()
            });
            assert(views(stuck@) =~= blocked_names(defs, a as int + 1));
            a = a + 1;
        }
    stuck
}

/// The distinct service names, in order of first definition.
pub open spec fn distinct_names(defs: Seq<ServiceDef>) -> Seq<Seq<char>> {
    distinct_in_order(def_names(defs))
}

/// The names that definitions named `u[p]` among the first `upto` list as
/// dependencies, as positions in `u`.
pub open spec fn merged_upto(defs: Seq<ServiceDef>, u: Seq<Seq<char>>, p: int, upto: int) -> Set<int> {
    Set::new(
        |q: int|
            0 <= q < u.len() && exists|j: int|
                0 <= j < upto && def_names(defs)[j] == u[p] && #[trigger] dep_names(defs[j]).contains(u[q]),
    )
}

/// Dependencies between distinct names: name `p` waits on name `q` when some
/// definition named `p` lists `q`, whichever definition of a name it is.
pub open spec fn merged_deps(defs: Seq<ServiceDef>) -> Seq<Set<int>> {
    Seq::new(
        distinct_names(defs).len(),
        |p: int| merged_upto(defs, distinct_names(defs), p, defs.len() as int),
    )
}

/// The names among the first `upto` of `u` that wait on a cycle of `d`, in order.
pub open spec fn names_blocked(u: Seq<Seq<char>>, d: Seq<Set<int>>, upto: int) -> Seq<Seq<char>>
    decreases upto,
{
    if upto <= 0 {
        Seq::empty()
    } else {
        names_blocked(u, d, upto - 1) + if blocked_by_cycle(d, upto - 1) {
            seq![u[upto - 1]]
        } else {
            Seq::empty()
        }
    }
}

/// For each distinct name, the positions (among the distinct names) of the
/// names its definitions depend on, and how many there are.
fn merged_lists(services: &Vec<ServiceDef>, names: &Vec<String>, uniq: &Vec<String>) -> (r: (Vec<Vec<usize>>, Vec<usize>))
    requires
        views(names@) == def_names(services@),
        names@.len() == services@.len(),
        views(uniq@) == distinct_names(services@),
        views(uniq@).no_duplicates(),
    ensures
        r.0@.len() == uniq@.len(),
        r.1@.len() == uniq@.len(),
        forall|q: int| 0 <= q < uniq@.len() ==> as_ints((#[trigger] r.0@[q])@).to_set() == merged_deps(services@)[q],
        forall|q: int, k: int| 0 <= q < uniq@.len() && 0 <= k < r.0@[q]@.len() ==> #[trigger] r.0@[q]@[k] < uniq@.len(),
        forall|q: int| 0 <= q < uniq@.len() ==> #[trigger] r.1@[q] == merged_deps(services@)[q].len(),
{
    let ghost defs = services@;
    let ghost u = views(uniq@);
    let ghost md = merged_deps(defs);
    let m = uniq.len();
    let n = services.len();
    let mut lists: Vec<Vec<usize>> = Vec::new();
    let mut degree: Vec<usize> = Vec::new();
    let mut p: usize = 0;
    while p < m
        invariant
            p <= m,
            m == uniq@.len(),
            n == defs.len(),
            defs == services@,
            u == views(uniq@),
            u.no_duplicates(),
            views(names@) == def_names(defs),
            names@.len() == n,
            u == distinct_names(defs),
            md == merged_deps(defs),
            lists@.len() == p,
            degree@.len() == p,
            forall|q: int| 0 <= q < p ==> as_ints((#[trigger] lists@[q])@).to_set() == md[q],
            forall|q: int, k: int| 0 <= q < p && 0 <= k < lists@[q]@.len() ==> #[trigger] lists@[q]@[k] < m,
            forall|q: int| 0 <= q < p ==> #[trigger] degree@[q] == md[q].len(),
        decreases m - p,
    {
        let mut acc: Vec<usize> = Vec::new();
        let mut j: usize = 0;
        assert(as_ints(acc@).to_set() =~= merged_upto(defs, u, p as int, 0));
        while j < n
            invariant
                p < m,
                j <= n,
                m == uniq@.len(),
                n == defs.len(),
                defs == services@,
                u == views(uniq@),
                u.no_duplicates(),
                views(names@) == def_names(defs),
                names@.len() == n,
                acc@.no_duplicates(),
                forall|k: int| 0 <= k < acc@.len() ==> #[trigger] acc@[k] < m,
                as_ints(acc@).to_set() == merged_upto(defs, u, p as int, j as int),
            decreases n - j,
        {
            let ghost before = as_ints(acc@).to_set();
            let same = crate::text::str_eq(names[j].as_str(), uniq[p].as_str());
            proof {
                assert(def_names(defs)[j as int] == names@[j as int]@);
                assert(u[p as int] == uniq@[p as int]@);
            }
            if same {
                if let Some(deps) = &services[j].deps {
                    resolve_into(uniq, &deps.after, &mut acc);
                    resolve_into(uniq, &deps.needs, &mut acc);
                    proof {
                        let dn = dep_names(defs[j as int]);
                        assert(dn =~= views(deps.after@) + views(deps.needs@));
                        assert(as_ints(acc@).to_set() =~= merged_upto(defs, u, p as int, j as int + 1)) by {
                            assert forall|q: int| #[trigger] merged_upto(defs, u, p as int, j as int + 1).contains(q)
                                implies as_ints(acc@).to_set().contains(q) by {
                                let w = choose|w: int|
                                    0 <= w < j + 1 && def_names(defs)[w] == u[p as int] && #[trigger] dep_names(defs[w]).contains(u[q]);
                                if w < j {
                                    assert(before.contains(q));
                                } else {
                                    let k = choose|k: int| 0 <= k < dn.len() && dn[k] == u[q];
                                    if k < views(deps.after@).len() {
                                        assert(views(deps.after@)[k] == u[q]);
                                        assert(resolve(u, views(deps.after@)).contains(q));
                                    } else {
                                        assert(views(deps.needs@)[k - views(deps.after@).len()] == u[q]);
                                        assert(resolve(u, views(deps.needs@)).contains(q));
                                    }
                                }
                            }
                            assert forall|q: int| as_ints(acc@).to_set().contains(q)
                                implies #[trigger] merged_upto(defs, u, p as int, j as int + 1).contains(q) by {
                                if before.contains(q) {
                                    let w = choose|w: int|
                                        0 <= w < j && def_names(defs)[w] == u[p as int] && #[trigger] dep_names(defs[w]).contains(u[q]);
                                    assert(dep_names(defs[w]).contains(u[q]));
                                } else if resolve(u, views(deps.after@)).contains(q) {
                                    let k = choose|k: int| 0 <= k < views(deps.after@).len() && views(deps.after@)[k] == u[q];
                                    assert(dn[k] == u[q]);
                                    assert(dep_names(defs[j as int]).contains(u[q]));
                                } else {
                                    assert(resolve(u, views(deps.needs@)).contains(q));
                                    let k = choose|k: int| 0 <= k < views(deps.needs@).len() && views(deps.needs@)[k] == u[q];
                                    assert(dn[views(deps.after@).len() + k] == u[q]);
                                    assert(dep_names(defs[j as int]).contains(u[q]));
                                }
                            }
                        }
                    }
                } else {
                    proof {
                        assert(dep_names(defs[j as int]) =~= Seq::<Seq<char>>::empty());
                        assert(as_ints(acc@).to_set() =~= merged_upto(defs, u, p as int, j as int + 1)) by {
                            assert forall|q: int| #[trigger] merged_upto(defs, u, p as int, j as int + 1).contains(q)
                                implies as_ints(acc@).to_set().contains(q) by {
                                let w = choose|w: int|
                                    0 <= w < j + 1 && def_names(defs)[w] == u[p as int] && #[trigger] dep_names(defs[w]).contains(u[q]);
                                if w < j {
                                    assert(before.contains(q));
                                }
                            }
                            assert forall|q: int| as_ints(acc@).to_set().contains(q)
                                implies #[trigger] merged_upto(defs, u, p as int, j as int + 1).contains(q) by {
                                let w = choose|w: int|
                                    0 <= w < j && def_names(defs)[w] == u[p as int] && #[trigger] dep_names(defs[w]).contains(u[q]);
                                assert(dep_names(defs[w]).contains(u[q]));
                            }
                        }
                    }
                }
            } else {
                proof {
                    assert(as_ints(acc@).to_set() =~= merged_upto(defs, u, p as int, j as int + 1)) by {
                        assert forall|q: int| #[trigger] merged_upto(defs, u, p as int, j as int + 1).contains(q)
                            implies as_ints(acc@).to_set().contains(q) by {
                            let w = choose|w: int|
                                0 <= w < j + 1 && def_names(defs)[w] == u[p as int] && #[trigger] dep_names(defs[w]).contains(u[q]);
                            assert(w < j);
                            assert(before.contains(q));
                        }
                        assert forall|q: int| as_ints(acc@).to_set().contains(q)
                            implies #[trigger] merged_upto(defs, u, p as int, j as int + 1).contains(q) by {
                            let w = choose|w: int|
                                0 <= w < j && def_names(defs)[w] == u[p as int] && #[trigger] dep_names(defs[w]).contains(u[q]);
                            assert(dep_names(defs[w]).contains(u[q]));
                        }
                    }
                }
            }
            j = j + 1;
        }
        proof {
            assert(as_ints(acc@).no_duplicates()) by {
                assert forall|a: int, b: int| 0 <= a < b < as_ints(acc@).len() implies as_ints(acc@)[a] != as_ints(acc@)[b] by {
                    assert(acc@[a] != acc@[b]);
                }
            }
            as_ints(acc@).unique_seq_to_set();
            assert(md[p as int] == merged_upto(defs, u, p as int, n as int));
        }
        degree.push(acc.len());
        lists.push(acc);
        p = p + 1;
    }
    (lists, degree)
}

/// Reverse adjacency lists of a dependency relation given by lists.
fn reverse_of(lists: &Vec<Vec<usize>>, Ghost(d): Ghost<Seq<Set<int>>>) -> (r: Vec<Vec<usize>>)
    requires
        lists@.len() == d.len(),
        forall|q: int| 0 <= q < d.len() ==> as_ints((#[trigger] lists@[q])@).to_set() == d[q],
    ensures
        reverse_adjacency(d, r@),
{
    let n = lists.len();
    let mut out: Vec<Vec<usize>> = Vec::new();
    let mut j: usize = 0;
    while j < n
        invariant
            n == d.len(),
            j <= n,
            lists@.len() == n,
            forall|q: int| 0 <= q < n ==> as_ints((#[trigger] lists@[q])@).to_set() == d[q],
            out@.len() == j,
            forall|q: int| 0 <= q < j ==> dependents_list(d, q, #[trigger] out@[q]@),
        decreases n - j,
    {
        let mut dep_j: Vec<usize> = Vec::new();
        let mut k: usize = 0;
        while k < n
            invariant
                n == d.len(),
                j < n,
                k <= n,
                lists@.len() == n,
                forall|q: int| 0 <= q < n ==> as_ints((#[trigger] lists@[q])@).to_set() == d[q],
                as_ints(dep_j@) == indices_where(d, j as int, k as int),
            decreases n - k,
        {
            let ghost dk = lists@[k as int]@;
            let inside = contains_index(&lists[k], j);
            proof {
                if dk.contains(j) {
                    let q = choose|q: int| 0 <= q < dk.len() && dk[q] == j;
                    assert(as_ints(dk)[q] == j as int);
                    assert(as_ints(dk).to_set().contains(j as int));
                }
                if d[k as int].contains(j as int) {
                    assert(as_ints(dk).to_set().contains(j as int));
                    let q = choose|q: int| 0 <= q < as_ints(dk).len() && as_ints(dk)[q] == j as int;
                    assert(dk[q] == j);
                }
            }
            if inside {
                dep_j.push(k);
            }
            assert(as_ints(dep_j@) =~= indices_where(d, j as int, k as int + 1));
            k = k + 1;
        }
        proof {
            lemma_indices_where_is_dependents_list(d, j as int, dep_j@);
        }
        out.push(dep_j);
        j = j + 1;
    }
    out
}

/// The entries of `names` whose positions `order` leaves out, in order.
fn unlisted_names(names: &Vec<String>, order: &Vec<usize>, Ghost(d): Ghost<Seq<Set<int>>>) -> (stuck: Vec<String>)
    requires
        names@.len() == d.len(),
        forall|x: int| 0 <= x < d.len() ==> (as_ints(order@).contains(x) <==> !#[trigger] blocked_by_cycle(d, x)),
    ensures
        views(stuck@) == names_blocked(views(names@), d, d.len() as int),
{
    let n = names.len();
    let mut stuck: Vec<String> = Vec::new();
    let mut a: usize = 0;
    while a < n
        invariant
            n == d.len(),
            a <= n,
            names@.len() == n,
            forall|x: int| 0 <= x < n ==> (as_ints(order@).contains(x) <==> !#[trigger] blocked_by_cycle(d, x)),
            views(stuck@) == names_blocked(views(names@), d, a as int),
        decreases n - a,
    {
        let listed = contains_index(&order, a);
        let ghost blk = blocked_by_cycle(d, a as int);
        proof {
            if order@.contains(a) {
                let q = choose|q: int| 0 <= q < order@.len() && order@[q] == a;
                assert(as_ints(order@)[q] == a as int);
            }
            if as_ints(order@).contains(a as int) {
                let q = choose|q: int| 0 <= q < as_ints(order@).len() && as_ints(order@)[q] == a as int;
                assert(order@[q] == a);
            }
        }
        assert(listed == !blk);
        let ghost before = stuck@;
        if !listed {
            stuck.push(names[a].clone());
            assert(views(stuck@) =~= views(before).push(views(names@)[a as int]));
        }
        assert(views(stuck@) =~= names_blocked(views(names@), d, a as int + 1));
        a = a + 1;
    }
    stuck
}

/// The cycle report for definitions whose names repeat: Kahn's algorithm runs
/// over the distinct names, a name waiting on everything that any definition of
/// it lists, and the names left waiting on a cycle are listed in order of first
/// definition.
fn repeated_names_report(services: &Vec<ServiceDef>, names: &Vec<String>) -> (r: String)
    requires
        views(names@) == def_names(services@),
        names@.len() == services@.len(),
    ensures
        r@ == join(names_blocked(distinct_names(services@), merged_deps(services@), distinct_names(services@).len() as int), ", "@),
{
    let ghost defs = services@;
    let no_more: Vec<String> = Vec::new();
    let uniq = crate::check::merge_distinct(names, &no_more);
    proof {
        assert(views(names@) + views(no_more@) =~= views(names@));
    }
    let ghost md = merged_deps(defs);
    let (lists, degree) = merged_lists(services, names, &uniq);
    proof {
        assert forall|i: int, j: int| 0 <= i < md.len() && #[trigger] md[i].contains(j) implies 0 <= j < md.len() by {}
    }
    let dependents = reverse_of(&lists, Ghost(md));
    let order = kahn_order(&dependents, &degree, Ghost(md));
    let stuck = unlisted_names(&uniq, &order, Ghost(md));
    join_strings(&stuck, ", ")
}

/// The dependency sets name only services.
pub proof fn lemma_service_deps_in_range(defs: Seq<ServiceDef>)
    ensures
        deps_in_range(service_deps(defs)),
        deps_in_range(service_needs(defs)),
        service_deps(defs).len() == defs.len(),
        service_needs(defs).len() == defs.len(),
{
}

/// The increasing list of services that hard-depend on service `j`, by name.
pub open spec fn needs_view(defs: Seq<ServiceDef>, j: int) -> Seq<Seq<char>> {
    indices_where(service_needs(defs), j, defs.len() as int).map_values(|k: int| def_names(defs)[k])
}

/// Dependency DAG with in-degree tracking for the parallel ready queue.
#[derive(Debug)]
pub struct ServiceGraph {
    /// All service definitions, in the order given.
    services: Vec<ServiceDef>,
    /// `names[i]` is the name of `services[i]`.
    names: Vec<String>,
    /// Reverse adjacency: `dependents[j]` lists, increasingly, the services that depend on `j`.
    dependents: Vec<Vec<usize>>,
    /// Current in-degree of each service (decremented as dependencies become ready).
    in_degree: Vec<usize>,
    /// Reverse adjacency covering only `needs` edges (hard dependencies).
    needs_idx: Vec<Vec<usize>>,
    /// The same lists, by name.
    needs_names: Vec<Vec<String>>,
    /// A topological order of all services.
    order: Vec<usize>,
}

/// What a graph is: the definitions it was built from and the current in-degrees.
#[verifier::ext_equal]
pub struct GraphView {
    pub defs: Seq<ServiceDef>,
    pub in_degree: Seq<int>,
}

impl View for ServiceGraph {
    type V = GraphView;

    closed spec fn view(&self) -> GraphView {
        GraphView { defs: self.services@, in_degree: self.in_degree@.map_values(|x: usize| x as int) }
    }
}

impl ServiceGraph {
    /// The graph's internal tables agree with its definitions.
    pub closed spec fn wf(&self) -> bool {
        let defs = self.services@;
        let n = defs.len();
        let d = service_deps(defs);
        let nd = service_needs(defs);
        &&& n <= usize::MAX
        &&& views(self.names@) == def_names(defs)
        &&& def_names(defs).no_duplicates()
        &&& all_deps_known(defs)
        &&& !cyclic(d)
        &&& self.dependents@.len() == n
        &&& forall|j: int| 0 <= j < n ==> as_ints(#[trigger] self.dependents@[j]@) == indices_where(d, j, n as int)
        &&& self.needs_idx@.len() == n
        &&& forall|j: int| 0 <= j < n ==> as_ints(#[trigger] self.needs_idx@[j]@) == indices_where(nd, j, n as int)
        &&& self.needs_names@.len() == n
        &&& forall|j: int| 0 <= j < n ==> views(#[trigger] self.needs_names@[j]@) == needs_view(defs, j)
        &&& self.in_degree@.len() == n
        &&& forall|i: int| 0 <= i < n ==> #[trigger] self.in_degree@[i] <= d[i].len()
        &&& self.order@.len() == n
        &&& topological(d, as_ints(self.order@))
    }

    /// What a well-formed graph guarantees about its definitions.
    pub proof fn lemma_wf(&self)
        requires
            self.wf(),
        ensures
            def_names(self@.defs).no_duplicates(),
            all_deps_known(self@.defs),
            !cyclic(service_deps(self@.defs)),
            self@.in_degree.len() == self@.defs.len(),
            forall|i: int|
                0 <= i < self@.defs.len() ==> 0 <= #[trigger] self@.in_degree[i] <= service_deps(self@.defs)[i].len(),
            self@.defs.len() <= usize::MAX,
    {
    }

    /// Build the graph from a list of service definitions.
    ///
    /// Fails with `UnknownDep` when a dependency names no service (the first such,
    /// by service and then by position), and otherwise with `Cycle` when names repeat
    /// or the dependencies form a cycle; the cycle error lists, in the given order,
    /// every service that waits on the cycle. When names repeat, the dependencies of
    /// all definitions of a name count for that name, and the list holds the
    /// distinct names that wait on a cycle (none, if the names only repeat).
    pub fn build(services: Vec<ServiceDef>) -> (r: Result<ServiceGraph, GraphError>)
        ensures
            (exists|i: int, k: int| unknown_at(services@, i, k)) <==> (r matches Err(GraphError::UnknownDep { .. })),
            r matches Err(GraphError::UnknownDep { service, dep }) ==> exists|i: int, k: int|
                first_unknown(services@, i, k) && service@ == def_names(services@)[i] && dep@
                    == dep_names(services@[i])[k],
            (r matches Err(GraphError::Cycle(_))) <==> (all_deps_known(services@) && (!def_names(
                services@,
            ).no_duplicates() || cyclic(service_deps(services@)))),
            r matches Err(GraphError::Cycle(list)) ==> (def_names(services@).no_duplicates() ==> list@ == join(
                blocked_names(services@, services@.len() as int),
                ", "@,
            )),
            r matches Err(GraphError::Cycle(list)) ==> (!def_names(services@).no_duplicates() ==> list@ == join(
                names_blocked(distinct_names(services@), merged_deps(services@), distinct_names(services@).len() as int),
                ", "@,
            )),
            r is Ok <==> (all_deps_known(services@) && def_names(services@).no_duplicates() && !cyclic(
                service_deps(services@),
            )),
            r matches Ok(g) ==> g.wf() && g@.defs == services@ && g@.in_degree == initial_degrees(services@),
            r matches Ok(g) ==> g@.in_degree == degrees_after_marks(services@, Seq::empty()),
    {
        let n = services.len();
        let ghost defs = services@;
        let names = collect_names(services.as_slice());
        match find_unknown(&services, &names) {
            Some((i, dep)) => {
                proof {
                    assert(views(names@)[i as int] == names@[i as int]@);
                }
                return Err(GraphError::UnknownDep { service: names[i].clone(), dep });
            },
            None => {},
        }
        // Repeated names are reported as a cycle: the services counted exceed the
        // distinct names that can ever be started.
        if has_duplicate(&names) {
            return Err(GraphError::Cycle(repeated_names_report(&services, &names)));
        }
        let ghost d = service_deps(defs);
        let ghost nd = service_needs(defs);
        let (dep_lists, need_lists, degree) = dependency_lists(services.as_slice(), &names);
        let (dependents, needs_idx, needs_names) = reverse_lists(services.as_slice(), &names, &dep_lists, &need_lists);
        proof {
            lemma_service_deps_in_range(defs);
            assert forall|q: int| 0 <= q < d.len() implies crate::dag::dependents_list(d, q, #[trigger] dependents@[q]@) by {
                lemma_indices_where_is_dependents_list(d, q, dependents@[q]@);
            }
        }
        let order = kahn_order(&dependents, &degree, Ghost(d));
        if order.len() < n {
            let stuck = blocked_list(&names, &order, Ghost(defs));
            return Err(GraphError::Cycle(join_strings(&stuck, ", ")));
        }
        let g = ServiceGraph {
            services,
            names,
            dependents,
            in_degree: degree,
            needs_idx,
            needs_names,
            order,
        };
        assert(g@.in_degree =~= initial_degrees(defs));
        Ok(g)
    }
}


/// In-degrees after service `a` is marked ready: each service depending on `a`
/// loses one, never going below zero.
pub open spec fn after_mark(d: Seq<Set<int>>, deg: Seq<int>, a: int) -> Seq<int> {
    Seq::new(deg.len(), |i: int| if d[i].contains(a) && deg[i] > 0 { deg[i] - 1 } else { deg[i] })
}

/// The services that marking `a` ready unblocks: those depending on `a` whose
/// in-degree was one.
pub open spec fn released(d: Seq<Set<int>>, deg: Seq<int>, a: int) -> Set<int> {
    Set::new(|i: int| 0 <= i < deg.len() && d[i].contains(a) && deg[i] == 1)
}

/// The services whose in-degree is zero.
pub open spec fn ready_set(deg: Seq<int>) -> Set<int> {
    Set::new(|i: int| 0 <= i < deg.len() && deg[i] == 0)
}

/// The names of a set of services.
pub open spec fn names_at(defs: Seq<ServiceDef>, s: Set<int>) -> Set<Seq<char>> {
    Set::new(|x: Seq<char>| exists|i: int| 0 <= i < defs.len() && s.contains(i) && #[trigger] def_names(defs)[i] == x)
}

/// Names of the given indices.
fn names_of_indices(names: &Vec<String>, idx: &Vec<usize>, Ghost(defs): Ghost<Seq<ServiceDef>>) -> (r: Vec<String>)
    requires
        views(names@) == def_names(defs),
        def_names(defs).no_duplicates(),
        idx@.no_duplicates(),
        forall|q: int| 0 <= q < idx@.len() ==> #[trigger] idx@[q] < names@.len(),
    ensures
        views(r@).no_duplicates(),
        views(r@).to_set() == names_at(defs, as_ints(idx@).to_set()),
        views(r@) == as_ints(idx@).map_values(|x: int| def_names(defs)[x]),
{
    let mut out: Vec<String> = Vec::new();
    let mut k: usize = 0;
    assert(views(names@).len() == names@.len());
    while k < idx.len()
        invariant
            k <= idx@.len(),
            names@.len() == defs.len(),
            views(names@) == def_names(defs),
            forall|q: int| 0 <= q < idx@.len() ==> #[trigger] idx@[q] < names@.len(),
            views(out@) == as_ints(idx@).take(k as int).map_values(|x: int| def_names(defs)[x]),
        decreases idx@.len() - k,
    {
        let ghost before = out@;
        out.push(names[idx[k]].clone());
        proof {
            assert(as_ints(idx@).take(k as int + 1) =~= as_ints(idx@).take(k as int).push(idx@[k as int] as int));
            assert(views(out@) =~= views(before).push(def_names(defs)[idx@[k as int] as int]));
            assert(views(out@) =~= as_ints(idx@).take(k as int + 1).map_values(|x: int| def_names(defs)[x]));
        }
        k = k + 1;
    }
    let ghost m = as_ints(idx@).map_values(|x: int| def_names(defs)[x]);
    assert(as_ints(idx@).take(idx@.len() as int) =~= as_ints(idx@));
    assert(views(out@) == m);
    assert(m.no_duplicates()) by {
        assert forall|a: int, b: int| 0 <= a < b < m.len() implies m[a] != m[b] by {
            assert(idx@[a] != idx@[b]);
            assert(m[a] == def_names(defs)[idx@[a] as int]);
            assert(m[b] == def_names(defs)[idx@[b] as int]);
        }
    }
    assert(m.to_set() =~= names_at(defs, as_ints(idx@).to_set())) by {
        assert forall|x: Seq<char>| m.to_set().contains(x) implies names_at(defs, as_ints(idx@).to_set()).contains(x) by {
            let q = choose|q: int| 0 <= q < m.len() && m[q] == x;
            let i = idx@[q] as int;
            assert(as_ints(idx@)[q] == i);
            assert(as_ints(idx@).to_set().contains(i));
            assert(def_names(defs)[i] == x);
        }
        assert forall|x: Seq<char>| names_at(defs, as_ints(idx@).to_set()).contains(x) implies m.to_set().contains(x) by {
            let i = choose|i: int| 0 <= i < defs.len() && as_ints(idx@).to_set().contains(i) && #[trigger] def_names(defs)[i] == x;
            let q = choose|q: int| 0 <= q < as_ints(idx@).len() && as_ints(idx@)[q] == i;
            assert(m[q] == x);
        }
    }
    out
}

impl ServiceGraph {
    /// Total service count.
    pub fn len(&self) -> (r: usize)
        requires
            self.wf(),
        ensures
            r == self@.defs.len(),
    {
        self.services.len()
    }

    /// Position of the service called `name`.
    pub fn index_of(&self, name: &str) -> (r: Option<usize>)
        requires
            self.wf(),
        ensures
            match r {
                Some(a) => a < self@.defs.len() && def_names(self@.defs)[a as int] == name@,
                None => !def_names(self@.defs).contains(name@),
            },
    {
        let r = position_of(&self.names, name);
        proof {
            assert(views(self.names@).len() == self.names@.len());
            if let Some(a) = r {
                assert(views(self.names@)[a as int] == name@);
            }
        }
        r
    }

    /// The name of service `a`.
    pub fn name_at(&self, a: usize) -> (r: &String)
        requires
            self.wf(),
            a < self@.defs.len(),
        ensures
            r@ == def_names(self@.defs)[a as int],
    {
        proof {
            assert(views(self.names@).len() == self.names@.len());
        }
        &self.names[a]
    }

    /// Services with in-degree zero — start these immediately at boot. Sorted by name.
    pub fn initially_ready(&self) -> (r: Vec<String>)
        requires
            self.wf(),
        ensures
            strictly_sorted(views(r@)),
            views(r@).to_set() == names_at(self@.defs, ready_set(self@.in_degree)),
            views(r@) == sorted_seq(names_at(self@.defs, ready_set(self@.in_degree))),
    {
        let n = self.in_degree.len();
        let mut idx: Vec<usize> = Vec::new();
        let mut i: usize = 0;
        while i < n
            invariant
                self.wf(),
                n == self@.defs.len(),
                i <= n,
                idx@.no_duplicates(),
                forall|q: int| 0 <= q < idx@.len() ==> #[trigger] idx@[q] < i,
                as_ints(idx@).to_set() == Set::new(|x: int| 0 <= x < i && self@.in_degree[x] == 0),
            decreases n - i,
        {
            let ghost before = idx@;
            if self.in_degree[i] == 0 {
                idx.push(i);
                proof {
                    assert(as_ints(idx@) =~= as_ints(before).push(i as int));
                    as_ints(before).lemma_push_to_set_commute(i as int);
                    assert forall|a: int, b: int| 0 <= a < b < idx@.len() implies idx@[a] != idx@[b] by {
                        if b == idx@.len() - 1 {
                            assert(before[a] < i);
                        }
                    }
                }
            }
            proof {
                assert(self@.in_degree[i as int] == self.in_degree@[i as int] as int);
                assert(as_ints(idx@).to_set() =~= Set::new(|x: int| 0 <= x < i + 1 && self@.in_degree[x] == 0));
            }
            i = i + 1;
        }
        proof {
            assert(as_ints(idx@).to_set() =~= ready_set(self@.in_degree));
            assert(views(self.names@).len() == self.names@.len());
        }
        let named = names_of_indices(&self.names, &idx, Ghost(self@.defs));
        let r = sort_strings(named);
        proof {
            lemma_is_sorted_seq(views(r@));
        }
        r
    }

    /// Mark service `a` ready. Returns the services newly unblocked (in-degree hit zero),
    /// in increasing index order.
    pub fn mark_ready_at(&mut self, a: usize) -> (r: Vec<usize>)
        requires
            old(self).wf(),
            a < old(self)@.defs.len(),
        ensures
            final(self).wf(),
            final(self)@.defs == old(self)@.defs,
            final(self)@.in_degree == after_mark(service_deps(old(self)@.defs), old(self)@.in_degree, a as int),
            r@.no_duplicates(),
            forall|q: int| 0 <= q < r@.len() ==> #[trigger] r@[q] < old(self)@.defs.len(),
            as_ints(r@).to_set() == released(service_deps(old(self)@.defs), old(self)@.in_degree, a as int),
    {
        let ghost defs = self@.defs;
        let ghost d = service_deps(defs);
        let ghost deg0 = self@.in_degree;
        let ghost n = defs.len() as int;
        let list = self.dependents[a].clone();
        proof {
            lemma_indices_where(d, a as int, n);
            assert(as_ints(list@) == indices_where(d, a as int, n));
            assert forall|p: int, q: int| 0 <= p < q < list@.len() implies #[trigger] list@[p] < #[trigger] list@[q] by {
                assert(as_ints(list@)[p] == list@[p] as int);
                assert(as_ints(list@)[q] == list@[q] as int);
            }
            assert forall|p: int| 0 <= p < list@.len() implies 0 <= #[trigger] list@[p] < n by {
                assert(as_ints(list@)[p] == list@[p] as int);
            }
        }
        let mut out: Vec<usize> = Vec::new();
        let mut k: usize = 0;
        while k < list.len()
            invariant
                self.wf(),
                self@.defs == defs,
                d == service_deps(defs),
                n == defs.len(),
                deg0.len() == n,
                as_ints(list@) == indices_where(d, a as int, n),
                forall|p: int, q: int| 0 <= p < q < list@.len() ==> #[trigger] list@[p] < #[trigger] list@[q],
                forall|p: int| 0 <= p < list@.len() ==> 0 <= #[trigger] list@[p] < n,
                forall|i: int| 0 <= i < n ==> (as_ints(list@).contains(i) <==> #[trigger] d[i].contains(a as int)),
                k <= list@.len(),
                forall|x: int|
                    0 <= x < n ==> #[trigger] self@.in_degree[x] == if list@.take(k as int).contains(x as usize)
                        && deg0[x] > 0 {
                        deg0[x] - 1
                    } else {
                        deg0[x]
                    },
                out@.no_duplicates(),
                forall|q: int| 0 <= q < out@.len() ==> #[trigger] out@[q] < n,
                as_ints(out@).to_set() == Set::new(|x: int| 0 <= x < n && list@.take(k as int).contains(x as usize) && deg0[x] == 1),
                forall|q: int| 0 <= q < out@.len() ==> list@.take(k as int).contains(#[trigger] out@[q]),
            decreases list@.len() - k,
        {
            let i = list[k];
            let ghost ii = i as int;
            proof {
                assert(as_ints(list@)[k as int] == ii);
                assert(0 <= ii < n);
                // i has not been seen before in the list
                assert(!list@.take(k as int).contains(i)) by {
                    if list@.take(k as int).contains(i) {
                        let p = choose|p: int| 0 <= p < k && #[trigger] list@.take(k as int)[p] == i;
                        assert(list@[p] < list@[k as int]);
                    }
                }
                assert(list@.take(k as int + 1) =~= list@.take(k as int).push(i));
                assert(self@.in_degree[ii] == deg0[ii]);
            }
            let t = self.in_degree[i];
            let ghost before_out = out@;
            let ghost before_deg = self@.in_degree;
            if t > 0 {
                self.in_degree.set(i, t - 1);
                if t == 1 {
                    out.push(i);
                }
            }
            proof {
                assert forall|x: int| 0 <= x < n implies #[trigger] self@.in_degree[x] == if list@.take(k as int + 1).contains(x as usize)
                    && deg0[x] > 0 {
                    deg0[x] - 1
                } else {
                    deg0[x]
                } by {
                    if x != ii {
                        assert(self@.in_degree[x] == before_deg[x]);
                        assert(list@.take(k as int + 1).contains(x as usize) == list@.take(k as int).contains(x as usize)) by {
                            if list@.take(k as int + 1).contains(x as usize) {
                                let p = choose|p: int| 0 <= p < k + 1 && #[trigger] list@.take(k as int + 1)[p] == x as usize;
                                if p < k {
                                    assert(list@.take(k as int)[p] == x as usize);
                                }
                            }
                            if list@.take(k as int).contains(x as usize) {
                                let p = choose|p: int| 0 <= p < k && #[trigger] list@.take(k as int)[p] == x as usize;
                                assert(list@.take(k as int + 1)[p] == x as usize);
                            }
                        }
                    } else {
                        assert(list@.take(k as int + 1)[k as int] == i);
                    }
                }
                assert(as_ints(out@).to_set() =~= Set::new(|x: int| 0 <= x < n && list@.take(k as int + 1).contains(x as usize) && deg0[x] == 1)) by {
                    if t == 1 {
                        assert(as_ints(out@) =~= as_ints(before_out).push(ii));
                        as_ints(before_out).lemma_push_to_set_commute(ii);
                    } else {
                        assert(out@ == before_out);
                    }
                    assert forall|x: int| 0 <= x < n implies (#[trigger] list@.take(k as int + 1).contains(x as usize) == (list@.take(k as int).contains(x as usize) || x == ii)) by {
                        if list@.take(k as int + 1).contains(x as usize) {
                            let p = choose|p: int| 0 <= p < k + 1 && #[trigger] list@.take(k as int + 1)[p] == x as usize;
                            if p < k {
                                assert(list@.take(k as int)[p] == x as usize);
                            }
                        }
                        if list@.take(k as int).contains(x as usize) {
                            let p = choose|p: int| 0 <= p < k && #[trigger] list@.take(k as int)[p] == x as usize;
                            assert(list@.take(k as int + 1)[p] == x as usize);
                        }
                        if x == ii {
                            assert(list@.take(k as int + 1)[k as int] == i);
                        }
                    }
                }
                assert forall|q: int| 0 <= q < out@.len() implies list@.take(k as int + 1).contains(#[trigger] out@[q]) by {
                    if q < before_out.len() {
                        assert(list@.take(k as int).contains(before_out[q]));
                        let p = choose|p: int| 0 <= p < k && #[trigger] list@.take(k as int)[p] == before_out[q];
                        assert(list@.take(k as int + 1)[p] == before_out[q]);
                    } else {
                        assert(list@.take(k as int + 1)[k as int] == i);
                    }
                }
                assert(out@.no_duplicates()) by {
                    if t == 1 {
                        assert forall|p: int, q: int| 0 <= p < q < out@.len() implies out@[p] != out@[q] by {
                            if q == out@.len() - 1 {
                                assert(list@.take(k as int).contains(before_out[p]));
                            }
                        }
                    }
                }
            }
            k = k + 1;
        }
        proof {
            assert(list@.take(list@.len() as int) =~= list@);
            assert forall|x: int| 0 <= x < n implies (list@.contains(x as usize) <==> #[trigger] d[x].contains(a as int)) by {
                if list@.contains(x as usize) {
                    let p = choose|p: int| 0 <= p < list@.len() && list@[p] == x as usize;
                    assert(as_ints(list@)[p] == x);
                }
                if as_ints(list@).contains(x) {
                    let p = choose|p: int| 0 <= p < as_ints(list@).len() && as_ints(list@)[p] == x;
                    assert(list@[p] == x as usize);
                }
            }
            assert(self@.in_degree =~= after_mark(d, deg0, a as int));
            assert(as_ints(out@).to_set() =~= released(d, deg0, a as int));
        }
        out
    }

    /// Mark a service ready. Returns the names of services newly unblocked
    /// (in-degree hit zero), sorted. An unknown name changes nothing.
    pub fn mark_ready(&mut self, name: &str) -> (r: Vec<String>)
        requires
            old(self).wf(),
        ensures
            final(self).wf(),
            final(self)@.defs == old(self)@.defs,
            strictly_sorted(views(r@)),
            forall|a: int|
                0 <= a < old(self)@.defs.len() && def_names(old(self)@.defs)[a] == name@ ==> {
                    &&& final(self)@.in_degree == after_mark(service_deps(old(self)@.defs), old(self)@.in_degree, a)
                    &&& views(r@).to_set() == names_at(
                        old(self)@.defs,
                        released(service_deps(old(self)@.defs), old(self)@.in_degree, a),
                    )
                    &&& views(r@) == sorted_seq(names_at(
                        old(self)@.defs,
                        released(service_deps(old(self)@.defs), old(self)@.in_degree, a),
                    ))
                },
            !def_names(old(self)@.defs).contains(name@) ==> final(self)@ == old(self)@ && r@.len() == 0,
            forall|ms: Seq<Seq<char>>|
                #[trigger] degrees_after_marks(old(self)@.defs, ms) == old(self)@.in_degree ==> final(self)@.in_degree
                    == degrees_after_marks(old(self)@.defs, ms.push(name@)),
    {
        proof {
            assert forall|ms: Seq<Seq<char>>| #[trigger] ms.push(name@).drop_last() == ms by {
                assert(ms.push(name@).drop_last() =~= ms);
            }
        }
        match position_of(&self.names, name) {
            None => {
                let r: Vec<String> = Vec::new();
                proof {
                    assert(views(r@).len() == 0);
                    assert(views(self.names@) == def_names(self@.defs));
                    assert forall|ms: Seq<Seq<char>>| #[trigger] degrees_after_marks(self@.defs, ms) == self@.in_degree
                        implies self@.in_degree == degrees_after_marks(self@.defs, ms.push(name@)) by {
                        assert(ms.push(name@).drop_last() == ms);
                        assert(ms.push(name@).last() == name@);
                    }
                }
                r
            },
            Some(a) => {
                let ghost old_self = *self;
                proof {
                    assert(views(self.names@).len() == self.names@.len());
                    assert(views(self.names@)[a as int] == name@);
                    assert(def_names(self@.defs).contains(name@));
                }
                let idx = self.mark_ready_at(a);
                proof {
                    assert(views(self.names@).len() == self.names@.len());
                }
                let named = names_of_indices(&self.names, &idx, Ghost(self@.defs));
                let r = sort_strings(named);
                proof {
                    lemma_is_sorted_seq(views(r@));
                    assert forall|b: int| 0 <= b < old_self@.defs.len() && def_names(old_self@.defs)[b] == name@ implies b == a by {
                        assert(def_names(old_self@.defs)[a as int] == name@);
                    }
                    assert forall|ms: Seq<Seq<char>>| #[trigger] degrees_after_marks(old_self@.defs, ms) == old_self@.in_degree
                        implies self@.in_degree == degrees_after_marks(old_self@.defs, ms.push(name@)) by {
                        assert(ms.push(name@).drop_last() == ms);
                        assert(ms.push(name@).last() == name@);
                        assert(def_names(old_self@.defs).contains(name@));
                        let c = choose|c: int| 0 <= c < old_self@.defs.len() && def_names(old_self@.defs)[c] == name@;
                        assert(c == a);
                    }
                }
                r
            },
        }
    }

    /// Services that hard-depend (`needs`) on service `a`, in definition order.
    pub fn needs_dependents_at(&self, a: usize) -> (r: &Vec<usize>)
        requires
            self.wf(),
            a < self@.defs.len(),
        ensures
            as_ints(r@) == indices_where(service_needs(self@.defs), a as int, self@.defs.len() as int),
    {
        &self.needs_idx[a]
    }

    /// Names of the services that hard-depend (`needs`) on `name`, in definition
    /// order; empty for an unknown name.
    pub fn needs_dependents(&self, name: &str) -> (r: &[String])
        requires
            self.wf(),
        ensures
            forall|a: int|
                0 <= a < self@.defs.len() && def_names(self@.defs)[a] == name@ ==> views(r@) == needs_view(
                    self@.defs,
                    a,
                ),
            !def_names(self@.defs).contains(name@) ==> r@.len() == 0,
    {
        match position_of(&self.names, name) {
            None => &[],
            Some(a) => {
                proof {
                    assert(views(self.names@).len() == self.names@.len());
                    assert(views(self.names@)[a as int] == name@);
                    assert forall|b: int| 0 <= b < self@.defs.len() && def_names(self@.defs)[b] == name@ implies b == a by {
                        assert(def_names(self@.defs)[a as int] == name@);
                    }
                }
                self.needs_names[a].as_slice()
            },
        }
    }
}


/// The service called `later` depends on the service called `earlier`.
pub open spec fn name_depends(defs: Seq<ServiceDef>, later: Seq<char>, earlier: Seq<char>) -> bool {
    exists|x: int, y: int|
        0 <= x < defs.len() && 0 <= y < defs.len() && def_names(defs)[x] == earlier && def_names(defs)[y]
            == later && #[trigger] service_deps(defs)[y].contains(x)
}

/// The service called `later` depends on the service called `earlier`, directly
/// or through other services.
pub open spec fn name_depends_transitively(defs: Seq<ServiceDef>, later: Seq<char>, earlier: Seq<char>) -> bool {
    exists|x: int, y: int|
        0 <= x < defs.len() && 0 <= y < defs.len() && def_names(defs)[x] == earlier && def_names(defs)[y]
            == later && #[trigger] depends_transitively(service_deps(defs), y, x)
}

/// `name` is one of `running`.
fn is_listed(running: &Vec<String>, name: &String) -> (r: bool)
    ensures
        r == views(running@).contains(name@),
{
    let mut k: usize = 0;
    while k < running.len()
        invariant
            k <= running@.len(),
            forall|q: int| 0 <= q < k ==> running@[q]@ != name@,
        decreases running@.len() - k,
    {
        if crate::text::str_eq(running[k].as_str(), name.as_str()) {
            assert(views(running@)[k as int] == name@);
            return true;
        }
        k = k + 1;
    }
    proof {
        if views(running@).contains(name@) {
            let q = choose|q: int| 0 <= q < views(running@).len() && views(running@)[q] == name@;
            assert(running@[q]@ == name@);
        }
    }
    false
}

impl ServiceGraph {
    /// The running services, in the order to stop them: every service comes before
    /// the services it depends on. Names that are not services are ignored.
    pub fn shutdown_order(&self, running: &Vec<String>) -> (r: Vec<String>)
        requires
            self.wf(),
        ensures
            views(r@).no_duplicates(),
            views(r@).to_set() == Set::new(
                |x: Seq<char>| def_names(self@.defs).contains(x) && views(running@).contains(x),
            ),
            forall|p: int, q: int| 0 <= p < q < r@.len() ==> !#[trigger] name_depends(self@.defs, r@[q]@, r@[p]@),
            forall|p: int, q: int|
                0 <= p < q < r@.len() ==> !#[trigger] name_depends_transitively(self@.defs, r@[q]@, r@[p]@),
    {
        let ghost defs = self@.defs;
        let ghost d = service_deps(defs);
        let ghost ord = as_ints(self.order@);
        let n = self.order.len();
        proof {
            crate::dag::lemma_all_listed(d, ord);
            assert(views(self.names@).len() == self.names@.len());
        }
        let mut out: Vec<String> = Vec::new();
        let ghost mut pos: Seq<int> = Seq::empty();
        let mut k: usize = n;
        while k > 0
            invariant
                self.wf(),
                defs == self@.defs,
                d == service_deps(defs),
                ord == as_ints(self.order@),
                n == defs.len(),
                n == self.names@.len(),
                k <= n,
                forall|i: int| 0 <= i < n ==> ord.contains(i),
                pos.len() == out@.len(),
                forall|p: int| 0 <= p < pos.len() ==> k <= #[trigger] pos[p] < n,
                forall|p: int, q: int| 0 <= p < q < pos.len() ==> #[trigger] pos[p] > #[trigger] pos[q],
                forall|p: int| 0 <= p < pos.len() ==> out@[p]@ == #[trigger] def_names(defs)[ord[pos[p]]],
                forall|t: int|
                    k <= t < n && views(running@).contains(def_names(defs)[ord[t]]) ==> #[trigger] pos.contains(t),
                forall|p: int| 0 <= p < pos.len() ==> views(running@).contains(#[trigger] def_names(defs)[ord[pos[p]]]),
            decreases k,
        {
            k = k - 1;
            let idx = self.order[k];
            proof {
                assert(ord[k as int] == idx as int);
                assert(0 <= ord[k as int] < d.len());
            }
            let listed = is_listed(running, &self.names[idx]);
            proof {
                assert(views(self.names@)[idx as int] == self.names@[idx as int]@);
            }
            let ghost before_pos = pos;
            if listed {
                out.push(self.names[idx].clone());
                proof {
                    pos = pos.push(k as int);
                }
            }
            proof {
                assert forall|t: int|
                    k <= t < n && views(running@).contains(def_names(defs)[ord[t]]) implies #[trigger] pos.contains(t) by {
                    if t == k {
                        assert(pos[pos.len() - 1] == t);
                    } else {
                        assert(before_pos.contains(t));
                        let p = choose|p: int| 0 <= p < before_pos.len() && before_pos[p] == t;
                        assert(pos[p] == t);
                    }
                }
            }
        }
        proof {
            let rv = views(out@);
            assert forall|p: int| 0 <= p < rv.len() implies #[trigger] rv[p] == def_names(defs)[ord[pos[p]]] by {
                assert(rv[p] == out@[p]@);
            }
            // distinct positions give distinct services, hence distinct names
            assert(rv.no_duplicates()) by {
                assert forall|a: int, b: int| 0 <= a < b < rv.len() implies rv[a] != rv[b] by {
                    assert(pos[a] != pos[b]);
                    assert(ord[pos[a]] != ord[pos[b]]);
                }
            }
            assert(rv.to_set() =~= Set::new(|x: Seq<char>| def_names(defs).contains(x) && views(running@).contains(x))) by {
                assert forall|x: Seq<char>| rv.to_set().contains(x) implies def_names(defs).contains(x) && views(running@).contains(x) by {
                    let p = choose|p: int| 0 <= p < rv.len() && rv[p] == x;
                    assert(def_names(defs)[ord[pos[p]]] == x);
                }
                assert forall|x: Seq<char>| def_names(defs).contains(x) && views(running@).contains(x) implies rv.to_set().contains(x) by {
                    let i = choose|i: int| 0 <= i < def_names(defs).len() && def_names(defs)[i] == x;
                    assert(ord.contains(i));
                    let t = choose|t: int| 0 <= t < ord.len() && ord[t] == i;
                    assert(views(running@).contains(def_names(defs)[ord[t]]));
                    assert(pos.contains(t));
                    let p = choose|p: int| 0 <= p < pos.len() && pos[p] == t;
                    assert(rv[p] == x);
                }
            }
            assert forall|p: int, q: int| 0 <= p < q < out@.len() implies !#[trigger] name_depends(defs, out@[q]@, out@[p]@) by {
                if name_depends(defs, out@[q]@, out@[p]@) {
                let (x, y) = choose|x: int, y: int| 0 <= x < defs.len() && 0 <= y < defs.len() && def_names(defs)[x] == out@[p]@
                    && def_names(defs)[y] == out@[q]@ && #[trigger] d[y].contains(x);
                assert(def_names(defs)[x] == def_names(defs)[ord[pos[p]]]);
                assert(def_names(defs)[y] == def_names(defs)[ord[pos[q]]]);
                assert(x == ord[pos[p]]);
                assert(y == ord[pos[q]]);
                let m = choose|m: int| 0 <= m < pos[q] && #[trigger] ord[m] == x;
                assert(ord[m] == ord[pos[p]]);
                }
            }
            assert forall|p: int, q: int| 0 <= p < q < out@.len() implies !#[trigger] name_depends_transitively(
                defs,
                out@[q]@,
                out@[p]@,
            ) by {
                if name_depends_transitively(defs, out@[q]@, out@[p]@) {
                    let (x, y) = choose|x: int, y: int| 0 <= x < defs.len() && 0 <= y < defs.len() && def_names(defs)[x] == out@[p]@
                        && def_names(defs)[y] == out@[q]@ && #[trigger] depends_transitively(d, y, x);
                    assert(def_names(defs)[x] == def_names(defs)[ord[pos[p]]]);
                    assert(def_names(defs)[y] == def_names(defs)[ord[pos[q]]]);
                    assert(x == ord[pos[p]]);
                    assert(y == ord[pos[q]]);
                    let path = choose|path: Seq<int>| #[trigger] crate::dag::dep_path(d, path) && path[0] == y && path.last() == x;
                    crate::dag::lemma_topological_path(d, ord, path);
                    let (m1, m2) = choose|m1: int, m2: int| 0 <= m1 < m2 < ord.len() && #[trigger] ord[m1] == path.last() && #[trigger] ord[m2] == path[0];
                    assert(ord[m1] == ord[pos[p]]);
                    assert(ord[m2] == ord[pos[q]]);
                    assert(m1 == pos[p]);
                    assert(m2 == pos[q]);
                }
            }
        }
        out
    }
}

} // verus!

verus! {

/// The in-degrees count, for each service, its dependencies not in `marked`.
pub open spec fn counts_unmarked(defs: Seq<ServiceDef>, deg: Seq<int>, marked: Set<int>) -> bool {
    &&& deg.len() == defs.len()
    &&& forall|i: int| 0 <= i < defs.len() ==> #[trigger] deg[i] == service_deps(defs)[i].difference(marked).len()
}

proof fn lemma_deps_finite(defs: Seq<ServiceDef>, i: int)
    requires
        0 <= i < defs.len(),
    ensures
        service_deps(defs)[i].finite(),
{
    let r = vstd::set_lib::set_int_range(0, defs.len() as int);
    vstd::set_lib::lemma_int_range(0, defs.len() as int);
    assert(service_deps(defs)[i].subset_of(r));
    vstd::set_lib::lemma_len_subset(service_deps(defs)[i], r);
}

/// A freshly built graph counts every dependency of every service as unsatisfied.
pub proof fn law_fresh_graph_counts_all_deps(defs: Seq<ServiceDef>)
    ensures
        counts_unmarked(defs, initial_degrees(defs), Set::empty()),
{
    assert forall|i: int| 0 <= i < defs.len() implies #[trigger] initial_degrees(defs)[i] == service_deps(defs)[i].difference(
        Set::empty(),
    ).len() by {
        assert(service_deps(defs)[i].difference(Set::empty()) =~= service_deps(defs)[i]);
    }
}

/// The services started at boot are exactly those with no dependencies.
pub proof fn law_initially_ready_are_independent(defs: Seq<ServiceDef>)
    ensures
        ready_set(initial_degrees(defs)) == Set::new(
            |i: int| 0 <= i < defs.len() && service_deps(defs)[i] == Set::<int>::empty(),
        ),
{
    assert forall|i: int| 0 <= i < defs.len() implies (initial_degrees(defs)[i] == 0 <==> service_deps(defs)[i] == Set::<int>::empty()) by {
        lemma_deps_finite(defs, i);
        vstd::set_lib::lemma_set_empty_equivalency_len(service_deps(defs)[i]);
    }
    assert(ready_set(initial_degrees(defs)) =~= Set::new(
        |i: int| 0 <= i < defs.len() && service_deps(defs)[i] == Set::<int>::empty(),
    ));
}

/// Marking a not-yet-marked service ready keeps the in-degrees counting the
/// unmarked dependencies, and unblocks exactly the services that depend on it and
/// whose every dependency is now marked.
pub proof fn law_mark_ready_releases_when_all_deps_ready(
    defs: Seq<ServiceDef>,
    deg: Seq<int>,
    marked: Set<int>,
    a: int,
)
    requires
        counts_unmarked(defs, deg, marked),
        0 <= a < defs.len(),
        !marked.contains(a),
    ensures
        counts_unmarked(defs, after_mark(service_deps(defs), deg, a), marked.insert(a)),
        released(service_deps(defs), deg, a) == Set::new(
            |i: int|
                0 <= i < defs.len() && service_deps(defs)[i].contains(a) && service_deps(defs)[i].subset_of(
                    marked.insert(a),
                ),
        ),
{
    let d = service_deps(defs);
    let nd = after_mark(d, deg, a);
    assert forall|i: int| 0 <= i < defs.len() implies #[trigger] nd[i] == d[i].difference(marked.insert(a)).len() by {
        lemma_deps_finite(defs, i);
        assert(d[i].difference(marked.insert(a)) =~= d[i].difference(marked).remove(a));
        vstd::set::axiom_set_remove_len(d[i].difference(marked), a);
        if d[i].contains(a) {
            assert(d[i].difference(marked).contains(a));
        }
    }
    assert forall|i: int| 0 <= i < defs.len() && d[i].contains(a) implies (deg[i] == 1 <==> d[i].subset_of(marked.insert(a))) by {
        lemma_deps_finite(defs, i);
        let rest = d[i].difference(marked.insert(a));
        assert(d[i].difference(marked) =~= rest.insert(a));
        vstd::set::axiom_set_insert_len(rest, a);
        vstd::set_lib::lemma_set_empty_equivalency_len(rest);
        if d[i].subset_of(marked.insert(a)) {
            assert(rest =~= Set::<int>::empty());
        }
        if deg[i] == 1 {
            assert forall|j: int| d[i].contains(j) implies marked.insert(a).contains(j) by {
                if !marked.insert(a).contains(j) {
                    assert(rest.contains(j));
                }
            }
        }
    }
    assert(released(d, deg, a) =~= Set::new(
        |i: int| 0 <= i < defs.len() && d[i].contains(a) && d[i].subset_of(marked.insert(a)),
    ));
}

/// The in-degrees of a freshly built graph after `mark_ready` was called with
/// each name of `ms` in turn (a name that names no service changes nothing).
pub open spec fn degrees_after_marks(defs: Seq<ServiceDef>, ms: Seq<Seq<char>>) -> Seq<int>
    decreases ms.len(),
{
    if ms.len() == 0 {
        initial_degrees(defs)
    } else {
        let prev = degrees_after_marks(defs, ms.drop_last());
        if def_names(defs).contains(ms.last()) {
            after_mark(
                service_deps(defs),
                prev,
                choose|a: int| 0 <= a < defs.len() && def_names(defs)[a] == ms.last(),
            )
        } else {
            prev
        }
    }
}

/// The services whose names are among `ms`.
pub open spec fn marked_by(defs: Seq<ServiceDef>, ms: Seq<Seq<char>>) -> Set<int> {
    Set::new(|i: int| 0 <= i < defs.len() && ms.contains(def_names(defs)[i]))
}

/// The services all of whose dependencies are among `marked`.
pub open spec fn deps_within(defs: Seq<ServiceDef>, marked: Set<int>) -> Set<int> {
    Set::new(|i: int| 0 <= i < defs.len() && service_deps(defs)[i].subset_of(marked))
}

/// An in-degree that counts the unmarked dependencies is zero exactly when every
/// dependency is marked.
proof fn lemma_zero_iff_within(defs: Seq<ServiceDef>, deg: Seq<int>, marked: Set<int>)
    requires
        counts_unmarked(defs, deg, marked),
    ensures
        ready_set(deg) == deps_within(defs, marked),
{
    assert forall|i: int| 0 <= i < defs.len() implies (deg[i] == 0 <==> #[trigger] service_deps(defs)[i].subset_of(marked)) by {
        lemma_deps_finite(defs, i);
        let rest = service_deps(defs)[i].difference(marked);
        vstd::set_lib::lemma_set_empty_equivalency_len(rest);
        if service_deps(defs)[i].subset_of(marked) {
            assert(rest =~= Set::<int>::empty());
        }
        if deg[i] == 0 {
            assert forall|j: int| service_deps(defs)[i].contains(j) implies marked.contains(j) by {
                if !marked.contains(j) {
                    assert(rest.contains(j));
                }
            }
        }
    }
    assert(ready_set(deg) =~= deps_within(defs, marked));
}

/// After the services named in `ms` (each named once) were marked ready in turn
/// on a freshly built graph, the in-degrees count each service's dependencies
/// not yet marked, the graph still has one in-degree per service, and the
/// services with in-degree zero (what `initially_ready` then lists) are exactly
/// those whose every dependency was marked; with nothing marked, those with no
/// dependencies.
pub proof fn law_marks_in_turn(defs: Seq<ServiceDef>, ms: Seq<Seq<char>>)
    requires
        def_names(defs).no_duplicates(),
        ms.no_duplicates(),
    ensures
        counts_unmarked(defs, degrees_after_marks(defs, ms), marked_by(defs, ms)),
        degrees_after_marks(defs, ms).len() == defs.len(),
        ready_set(degrees_after_marks(defs, ms)) == deps_within(defs, marked_by(defs, ms)),
    decreases ms.len(),
{
    let d = service_deps(defs);
    if ms.len() == 0 {
        law_fresh_graph_counts_all_deps(defs);
        assert(marked_by(defs, ms) =~= Set::<int>::empty());
    } else {
        let p = ms.drop_last();
        let x = ms.last();
        assert(p.no_duplicates()) by {
            assert forall|i: int, j: int| 0 <= i < j < p.len() implies p[i] != p[j] by {
                assert(ms[i] == p[i] && ms[j] == p[j]);
            }
        }
        law_marks_in_turn(defs, p);
        assert(!p.contains(x)) by {
            if p.contains(x) {
                let q = choose|q: int| 0 <= q < p.len() && p[q] == x;
                assert(ms[q] == ms[ms.len() - 1]);
            }
        }
        let prev = degrees_after_marks(defs, p);
        assert forall|y: Seq<char>| ms.contains(y) <==> (p.contains(y) || y == x) by {
            if ms.contains(y) {
                let q = choose|q: int| 0 <= q < ms.len() && ms[q] == y;
                if q < p.len() {
                    assert(p[q] == y);
                }
            }
            if p.contains(y) {
                let q = choose|q: int| 0 <= q < p.len() && p[q] == y;
                assert(ms[q] == y);
            }
            if y == x {
                assert(ms[ms.len() - 1] == y);
            }
        }
        if def_names(defs).contains(x) {
            let a = choose|a: int| 0 <= a < defs.len() && def_names(defs)[a] == x;
            assert(0 <= a < defs.len() && def_names(defs)[a] == x);
            assert(degrees_after_marks(defs, ms) == after_mark(d, prev, a));
            assert(!marked_by(defs, p).contains(a));
            law_mark_ready_releases_when_all_deps_ready(defs, prev, marked_by(defs, p), a);
            assert(marked_by(defs, ms) =~= marked_by(defs, p).insert(a)) by {
                assert forall|i: int| 0 <= i < defs.len() && def_names(defs)[i] == x implies i == a by {
                    if i != a {
                        assert(def_names(defs)[i] == def_names(defs)[a]);
                    }
                }
            }
        } else {
            assert(degrees_after_marks(defs, ms) == prev);
            assert(marked_by(defs, ms) =~= marked_by(defs, p)) by {
                assert forall|i: int| 0 <= i < defs.len() implies def_names(defs)[i] != x by {
                    if def_names(defs)[i] == x {
                        assert(def_names(defs).contains(x));
                    }
                }
            }
        }
    }
    lemma_zero_iff_within(defs, degrees_after_marks(defs, ms), marked_by(defs, ms));
}

/// After the services named in `ms` (each named once) were marked ready in turn
/// on a freshly built graph, marking service `a`, not named in `ms`, ready
/// releases exactly the services that depend on `a` and whose every dependency
/// is now marked, and leaves the in-degrees of the longer list of marks.
pub proof fn law_mark_after_marks(defs: Seq<ServiceDef>, ms: Seq<Seq<char>>, a: int)
    requires
        def_names(defs).no_duplicates(),
        ms.no_duplicates(),
        0 <= a < defs.len(),
        !ms.contains(def_names(defs)[a]),
    ensures
        released(service_deps(defs), degrees_after_marks(defs, ms), a) == Set::new(
            |i: int|
                0 <= i < defs.len() && service_deps(defs)[i].contains(a) && service_deps(defs)[i].subset_of(
                    marked_by(defs, ms.push(def_names(defs)[a])),
                ),
        ),
        after_mark(service_deps(defs), degrees_after_marks(defs, ms), a) == degrees_after_marks(
            defs,
            ms.push(def_names(defs)[a]),
        ),
{
    let x = def_names(defs)[a];
    let ms2 = ms.push(x);
    law_marks_in_turn(defs, ms);
    assert(!marked_by(defs, ms).contains(a));
    law_mark_ready_releases_when_all_deps_ready(defs, degrees_after_marks(defs, ms), marked_by(defs, ms), a);
    assert(marked_by(defs, ms2) =~= marked_by(defs, ms).insert(a)) by {
        assert forall|i: int| #[trigger] marked_by(defs, ms2).contains(i) implies marked_by(defs, ms).insert(a).contains(i) by {
            let q = choose|q: int| 0 <= q < ms2.len() && ms2[q] == def_names(defs)[i];
            if q < ms.len() {
                assert(ms[q] == def_names(defs)[i]);
            } else if i != a {
                assert(def_names(defs)[i] == def_names(defs)[a]);
            }
        }
        assert forall|i: int| #[trigger] marked_by(defs, ms).insert(a).contains(i) implies marked_by(defs, ms2).contains(i) by {
            if i == a {
                assert(ms2[ms.len() as int] == x);
            } else {
                let q = choose|q: int| 0 <= q < ms.len() && ms[q] == def_names(defs)[i];
                assert(ms2[q] == def_names(defs)[i]);
            }
        }
    }
    assert(ms2.drop_last() =~= ms);
    assert(def_names(defs).contains(x)) by {
        assert(def_names(defs)[a] == x);
    }
    let c = choose|b: int| 0 <= b < defs.len() && def_names(defs)[b] == x;
    assert(c == a) by {
        if c != a {
            assert(def_names(defs)[c] == def_names(defs)[a]);
        }
    }
}

} // verus!
