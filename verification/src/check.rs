//! `flint-ctl check`: the migration audit against the old init system and the
//! preflight over the installed service definitions. Reading directories and
//! files is left to the caller, which hands in what it found.
use vstd::prelude::*;
use crate::dag::{cyclic, kahn_order};
use crate::graph::{
    collect_names, dependency_lists, has_duplicate, lemma_service_deps_in_range, reverse_lists, service_deps,
};
use crate::service::{def_names, ServiceDef};
use crate::text::{decimal, distinct_in_order, has_prefix, in_order, join, sort_in_order, split_whitespace, str_starts_with, views, words};

verus! {

/// Paths under `/run/`, `/var/run/` and `/dev/` live in memory and are not
/// checked for writability.
pub open spec fn is_ephemeral(p: Seq<char>) -> bool {
    has_prefix(p, "/run/"@) || has_prefix(p, "/var/run/"@) || has_prefix(p, "/dev/"@)
}

/// True if the path is ephemeral and should not be checked for writability.
pub fn is_ephemeral_path(path: &str) -> (r: bool)
    ensures
        r == is_ephemeral(path@),
{
    str_starts_with(path, "/run/") || str_starts_with(path, "/var/run/") || str_starts_with(path, "/dev/")
}

/// Cycle detection over the services' dependencies (dependencies that name no
/// service are ignored). Repeated names count as a cycle, since they can never
/// all be visited.
pub fn has_cycle(services: &[ServiceDef]) -> (r: bool)
    ensures
        r == (!def_names(services@).no_duplicates() || cyclic(service_deps(services@))),
{
    let ghost defs = services@;
    let ghost d = service_deps(defs);
    let names = collect_names(services);
    if has_duplicate(&names) {
        return true;
    }
    let (dep_lists, need_lists, degree) = dependency_lists(services, &names);
    let (dependents, _needs_idx, _needs_names) = reverse_lists(services, &names, &dep_lists, &need_lists);
    proof {
        lemma_service_deps_in_range(defs);
        assert forall|q: int| 0 <= q < d.len() implies crate::dag::dependents_list(d, q, #[trigger] dependents@[q]@) by {
            crate::dag::lemma_indices_where_is_dependents_list(d, q, dependents@[q]@);
        }
    }
    let order = kahn_order(&dependents, &degree, Ghost(d));
    order.len() != services.len()
}

/// `init`, which holds `prefix` without repetitions, followed by each name of
/// `more` that is not already there.
fn extend_distinct(init: Vec<String>, more: &Vec<String>, Ghost(prefix): Ghost<Seq<Seq<char>>>) -> (r: Vec<String>)
    requires
        views(init@) == distinct_in_order(prefix),
    ensures
        views(r@) == distinct_in_order(prefix + views(more@)),
{
    let mut acc = init;
    let mut k: usize = 0;
    assert(prefix + views(more@).take(0) =~= prefix);
    while k < more.len()
        invariant
            k <= more@.len(),
            views(acc@) == distinct_in_order(prefix + views(more@).take(k as int)),
        decreases more@.len() - k,
    {
        let ghost c = prefix + views(more@).take(k as int);
        let ghost c1 = prefix + views(more@).take(k as int + 1);
        let ghost x = more@[k as int]@;
        proof {
            assert(c1.drop_last() =~= c);
            assert(c1.last() == x);
            crate::text::lemma_distinct_in_order(c);
        }
        let ghost before = views(acc@);
        if !crate::text::vec_contains_str(&acc, more[k].as_str()) {
            acc.push(more[k].clone());
            proof {
                assert(views(acc@) =~= before.push(x));
            }
        }
        k = k + 1;
    }
    assert(views(more@).take(more@.len() as int) =~= views(more@));
    acc
}

/// The names listed in either of two listings, each once, in the order in
/// which they first occur (`first` before `second`).
pub fn merge_distinct(first: &Vec<String>, second: &Vec<String>) -> (r: Vec<String>)
    ensures
        views(r@) == distinct_in_order(views(first@) + views(second@)),
        views(r@).no_duplicates(),
        forall|x: Seq<char>|
            views(r@).contains(x) <==> (views(first@).contains(x) || views(second@).contains(x)),
{
    let empty: Vec<String> = Vec::new();
    proof {
        assert(views(empty@) =~= Seq::<Seq<char>>::empty());
        assert(Seq::<Seq<char>>::empty() + views(first@) =~= views(first@));
    }
    let mid = extend_distinct(empty, first, Ghost(Seq::<Seq<char>>::empty()));
    let acc = extend_distinct(mid, second, Ghost(views(first@)));
    proof {
        let c = views(first@) + views(second@);
        crate::text::lemma_distinct_in_order(c);
        assert forall|x: Seq<char>| c.contains(x) <==> (views(first@).contains(x) || views(second@).contains(x)) by {
            if c.contains(x) {
                let q = choose|q: int| 0 <= q < c.len() && c[q] == x;
                if q < views(first@).len() {
                    assert(views(first@)[q] == x);
                } else {
                    assert(views(second@)[q - views(first@).len()] == x);
                }
            }
            if views(first@).contains(x) {
                let q = choose|q: int| 0 <= q < views(first@).len() && views(first@)[q] == x;
                assert(c[q] == x);
            }
            if views(second@).contains(x) {
                let q = choose|q: int| 0 <= q < views(second@).len() && views(second@)[q] == x;
                assert(c[views(first@).len() + q] == x);
            }
        }
    }
    acc
}

/// Enabled services of the old init system, split by whether a definition is
/// installed for them, or else whether the catalog offers one. Each list is sorted.
pub struct MigrationAudit {
    pub covered: Vec<String>,
    pub missing: Vec<String>,
    pub unknown: Vec<String>,
}

/// The enabled services that are installed.
pub open spec fn covered_of(enabled: Seq<Seq<char>>, installed: Seq<Seq<char>>) -> Seq<Seq<char>> {
    enabled.filter(|x: Seq<char>| installed.contains(x))
}

/// The enabled services not installed but offered by the catalog.
pub open spec fn missing_of(enabled: Seq<Seq<char>>, installed: Seq<Seq<char>>, catalog: Seq<Seq<char>>) -> Seq<Seq<char>> {
    enabled.filter(|x: Seq<char>| !installed.contains(x) && catalog.contains(x))
}

/// The enabled services neither installed nor in the catalog.
pub open spec fn unknown_of(enabled: Seq<Seq<char>>, installed: Seq<Seq<char>>, catalog: Seq<Seq<char>>) -> Seq<Seq<char>> {
    enabled.filter(|x: Seq<char>| !installed.contains(x) && !catalog.contains(x))
}

/// Compare what the old init system enabled with what is installed and what the
/// catalog (given by its service names) offers. `None` when no old init system
/// was detected.
pub fn run_migration_audit(enabled: Option<Vec<String>>, installed: &Vec<String>, catalog: &Vec<String>) -> (r: Option<
    MigrationAudit,
>)
    ensures
        r is None <==> enabled is None,
        r matches Some(a) ==> {
            let e = views(enabled->Some_0@);
            let i = views(installed@);
            let c = views(catalog@);
            &&& views(a.covered@) == in_order(covered_of(e, i))
            &&& views(a.missing@) == in_order(missing_of(e, i, c))
            &&& views(a.unknown@) == in_order(unknown_of(e, i, c))
        },
{
    let enabled = match enabled {
        None => {
            return None;
        },
        Some(e) => e,
    };
    let ghost e = views(enabled@);
    let ghost iv = views(installed@);
    let ghost cv = views(catalog@);
    let mut covered: Vec<String> = Vec::new();
    let mut missing: Vec<String> = Vec::new();
    let mut unknown: Vec<String> = Vec::new();
    let mut k: usize = 0;
    while k < enabled.len()
        invariant
            k <= enabled@.len(),
            e == views(enabled@),
            iv == views(installed@),
            cv == views(catalog@),
            views(covered@) == covered_of(e.take(k as int), iv),
            views(missing@) == missing_of(e.take(k as int), iv, cv),
            views(unknown@) == unknown_of(e.take(k as int), iv, cv),
        decreases enabled@.len() - k,
    {
        let svc = &enabled[k];
        let ghost x = e[k as int];
        proof {
            assert(e.take(k as int + 1) =~= e.take(k as int).push(x));
            e.take(k as int).lemma_filter_push(x, |y: Seq<char>| iv.contains(y));
            e.take(k as int).lemma_filter_push(x, |y: Seq<char>| !iv.contains(y) && cv.contains(y));
            e.take(k as int).lemma_filter_push(x, |y: Seq<char>| !iv.contains(y) && !cv.contains(y));
            assert(svc@ == x);
        }
        if crate::text::vec_contains_str(installed, svc.as_str()) {
            let ghost before = covered@;
            covered.push(svc.clone());
            proof {
                assert(views(covered@) =~= views(before).push(x));
            }
        } else if crate::text::vec_contains_str(catalog, svc.as_str()) {
            let ghost before = missing@;
            missing.push(svc.clone());
            proof {
                assert(views(missing@) =~= views(before).push(x));
            }
        } else {
            let ghost before = unknown@;
            unknown.push(svc.clone());
            proof {
                assert(views(unknown@) =~= views(before).push(x));
            }
        }
        k = k + 1;
    }
    proof {
        assert(e.take(enabled@.len() as int) =~= e);
    }
    Some(MigrationAudit {
        covered: sort_in_order(&covered),
        missing: sort_in_order(&missing),
        unknown: sort_in_order(&unknown),
    })
}

} // verus!

verus! {

/// The first word of an exec string (the binary), or the empty string.
pub open spec fn exec_binary_of(exec: Seq<char>) -> Seq<char> {
    if words(exec).len() > 0 {
        words(exec)[0]
    } else {
        Seq::empty()
    }
}

/// The binary a service's exec string runs: its first word, or "" when it has none.
pub fn exec_binary(exec: &str) -> (r: String)
    ensures
        r@ == exec_binary_of(exec@),
{
    let w = split_whitespace(exec);
    if w.len() > 0 {
        proof {
            assert(views(w@)[0] == w@[0]@);
        }
        w[0].clone()
    } else {
        String::new()
    }
}

/// The readiness path whose parent directory the preflight checks for
/// writability: the service's `ready.path`, unless it is ephemeral.
pub open spec fn probe_path_of(def: ServiceDef) -> Option<Seq<char>> {
    match def.ready {
        Some(r) => match r.path {
            Some(p) => if is_ephemeral(p@) {
                None
            } else {
                Some(p@)
            },
            None => None,
        },
        None => None,
    }
}

/// The path whose parent directory should be checked for writability, if any.
pub fn writability_probe(def: &ServiceDef) -> (r: Option<String>)
    ensures
        match r {
            Some(p) => probe_path_of(*def) == Some(p@),
            None => probe_path_of(*def) is None,
        },
{
    match &def.ready {
        Some(ready) => match &ready.path {
            Some(p) => {
                if is_ephemeral_path(p.as_str()) {
                    None
                } else {
                    Some(p.clone())
                }
            },
            None => None,
        },
        None => None,
    }
}

/// The names among `xs` that are not installed, in order.
pub open spec fn not_installed(xs: Seq<Seq<char>>, installed: Seq<Seq<char>>) -> Seq<Seq<char>> {
    xs.filter(|x: Seq<char>| !installed.contains(x))
}

/// The message for a needed dependency that is not installed.
pub open spec fn needs_dep_error(d: Seq<char>) -> Seq<char> {
    "broken needs-dep \""@ + d + "\" (not installed)"@
}

/// The message for an ordering dependency that is not installed.
pub open spec fn after_dep_warning(d: Seq<char>) -> Seq<char> {
    "unknown after-dep \""@ + d + "\""@
}

/// The errors of one service: each needed dependency that is not installed.
pub open spec fn service_errors(def: ServiceDef, installed: Seq<Seq<char>>) -> Seq<Seq<char>> {
    match def.deps {
        Some(d) => not_installed(views(d.needs@), installed).map_values(|x: Seq<char>| needs_dep_error(x)),
        None => Seq::empty(),
    }
}

/// The warnings of one service: a binary that was not found, each ordering
/// dependency that is not installed, and a readiness directory that may not be
/// writable.
pub open spec fn service_warnings(
    def: ServiceDef,
    installed: Seq<Seq<char>>,
    exec_found: bool,
    parent_unwritable: bool,
) -> Seq<Seq<char>> {
    binary_warning(def, exec_found) + after_warnings(def, installed) + dir_warning(def, parent_unwritable)
}

/// The warning for a binary that was not found executable.
pub open spec fn binary_warning(def: ServiceDef, exec_found: bool) -> Seq<Seq<char>> {
    if words(def.service.exec_line@).len() > 0 && !exec_found {
        seq![exec_binary_of(def.service.exec_line@) + " not found"@]
    } else {
        Seq::empty()
    }
}

/// The warnings for ordering dependencies that are not installed.
pub open spec fn after_warnings(def: ServiceDef, installed: Seq<Seq<char>>) -> Seq<Seq<char>> {
    match def.deps {
        Some(d) => not_installed(views(d.after@), installed).map_values(|x: Seq<char>| after_dep_warning(x)),
        None => Seq::empty(),
    }
}

/// The warning for a readiness directory that may not be writable.
pub open spec fn dir_warning(def: ServiceDef, parent_unwritable: bool) -> Seq<Seq<char>> {
    match probe_path_of(def) {
        Some(p) => if parent_unwritable {
            seq!["parent dir of "@ + p + " may not be writable"@]
        } else {
            Seq::empty()
        },
        None => Seq::empty(),
    }
}

/// Appends `prefix + x + suffix` for each `x` of `xs` that is not installed.
fn note_not_installed(xs: &Vec<String>, installed: &Vec<String>, prefix: &str, suffix: &str, out: &mut Vec<String>)
    ensures
        views(final(out)@) == views(old(out)@) + not_installed(views(xs@), views(installed@)).map_values(
            |x: Seq<char>| prefix@ + x + suffix@,
        ),
{
    let ghost start = views(out@);
    let ghost iv = views(installed@);
    let ghost xv = views(xs@);
    let mut k: usize = 0;
    while k < xs.len()
        invariant
            k <= xs@.len(),
            iv == views(installed@),
            xv == views(xs@),
            views(out@) == start + not_installed(xv.take(k as int), iv).map_values(|x: Seq<char>| prefix@ + x + suffix@),
        decreases xs@.len() - k,
    {
        let ghost x = xv[k as int];
        proof {
            assert(xv.take(k as int + 1) =~= xv.take(k as int).push(x));
            xv.take(k as int).lemma_filter_push(x, |y: Seq<char>| !iv.contains(y));
            assert(xs@[k as int]@ == x);
        }
        if !crate::text::vec_contains_str(installed, xs[k].as_str()) {
            let ghost before = views(out@);
            let mut m = String::from_str(prefix);
            m.append(xs[k].as_str());
            m.append(suffix);
            out.push(m);
            proof {
                let f = |y: Seq<char>| prefix@ + y + suffix@;
                let nb = not_installed(xv.take(k as int), iv);
                assert(not_installed(xv.take(k as int + 1), iv) == nb.push(x));
                assert(nb.push(x).map_values(f) =~= nb.map_values(f).push(f(x)));
                assert(views(out@) =~= before.push(prefix@ + x + suffix@));
            }
        } else {
            proof {
                assert(not_installed(xv.take(k as int + 1), iv) == not_installed(xv.take(k as int), iv));
            }
        }
        k = k + 1;
    }
    proof {
        assert(xv.take(xs@.len() as int) =~= xv);
    }
}

/// The errors and the warnings the preflight reports for one service, given the
/// names of the installed services, whether its binary was found executable, and
/// whether the parent directory of its readiness path (see `writability_probe`)
/// exists without an owner write bit.
pub fn service_findings(def: &ServiceDef, installed: &Vec<String>, exec_found: bool, parent_unwritable: bool) -> (r: (
    Vec<String>,
    Vec<String>,
))
    ensures
        views(r.0@) == service_errors(*def, views(installed@)),
        views(r.1@) == service_warnings(*def, views(installed@), exec_found, parent_unwritable),
{
    let mut errors: Vec<String> = Vec::new();
    let mut warnings: Vec<String> = Vec::new();
    let argv = split_whitespace(def.service.exec_line.as_str());
    if argv.len() > 0 && !exec_found {
        let mut m = argv[0].clone();
        m.append(" not found");
        warnings.push(m);
        proof {
            assert(views(argv@)[0] == argv@[0]@);
            assert(views(warnings@) =~= seq![exec_binary_of(def.service.exec_line@) + " not found"@]);
        }
    }
    let ghost w0 = views(warnings@);
    assert(w0 =~= binary_warning(*def, exec_found));
    match &def.deps {
        Some(deps) => {
            note_not_installed(&deps.needs, installed, "broken needs-dep \"", "\" (not installed)", &mut errors);
            note_not_installed(&deps.after, installed, "unknown after-dep \"", "\"", &mut warnings);
            proof {
                assert(views(errors@) =~= service_errors(*def, views(installed@)));
                assert(views(warnings@) =~= w0 + after_warnings(*def, views(installed@)));
            }
        },
        None => {
            proof {
                assert(views(errors@) =~= service_errors(*def, views(installed@)));
                assert(views(warnings@) =~= w0 + after_warnings(*def, views(installed@)));
            }
        },
    }
    let ghost w1 = views(warnings@);
    match writability_probe(def) {
        Some(p) => {
            if parent_unwritable {
                let mut m = String::from_str("parent dir of ");
                m.append(p.as_str());
                m.append(" may not be writable");
                warnings.push(m);
            }
        },
        None => {},
    }
    proof {
        assert(views(warnings@) =~= w1 + dir_warning(*def, parent_unwritable));
        assert(views(warnings@) =~= service_warnings(*def, views(installed@), exec_found, parent_unwritable));
    }
    (errors, warnings)
}

} // verus!

verus! {

/// What the preflight found: services without problems, services with warnings and
/// services (or files) with errors, each with its message.
pub struct PreflightResult {
    pub ok: Vec<String>,
    pub warnings: Vec<(String, String)>,
    pub errors: Vec<(String, String)>,
}

/// The character sequences of (name, message) pairs.
pub open spec fn pair_views(s: Seq<(String, String)>) -> Seq<(Seq<char>, Seq<char>)> {
    s.map_values(|p: (String, String)| crate::text::pair_view(p))
}

/// The service results of the preflight for the services below `upto`: names
/// without problems, (name, warnings) and (name, errors), in the given order. A
/// service with errors is reported only with its errors.
pub open spec fn service_entries(
    services: Seq<ServiceDef>,
    exec_found: Seq<bool>,
    parent_unwritable: Seq<bool>,
    upto: int,
) -> (Seq<Seq<char>>, Seq<(Seq<char>, Seq<char>)>, Seq<(Seq<char>, Seq<char>)>)
    decreases upto,
{
    if upto <= 0 {
        (Seq::empty(), Seq::empty(), Seq::empty())
    } else {
        let prev = service_entries(services, exec_found, parent_unwritable, upto - 1);
        let def = services[upto - 1];
        let installed = def_names(services);
        let errs = service_errors(def, installed);
        let warns = service_warnings(def, installed, exec_found[upto - 1], parent_unwritable[upto - 1]);
        if errs.len() > 0 {
            (prev.0, prev.1, prev.2.push((def.service.name@, join(errs, "; "@))))
        } else if warns.len() > 0 {
            (prev.0, prev.1.push((def.service.name@, join(warns, "; "@))), prev.2)
        } else {
            (prev.0.push(def.service.name@), prev.1, prev.2)
        }
    }
}

/// The errors the preflight finds for service `i` of `services`.
pub open spec fn errors_at(services: Seq<ServiceDef>, i: int) -> Seq<Seq<char>> {
    service_errors(services[i], def_names(services))
}

/// The warnings the preflight finds for service `i` of `services`.
pub open spec fn warnings_at(services: Seq<ServiceDef>, exec_found: Seq<bool>, parent_unwritable: Seq<bool>, i: int) -> Seq<
    Seq<char>,
> {
    service_warnings(services[i], def_names(services), exec_found[i], parent_unwritable[i])
}

/// `x` is the errors entry of one of the first `upto` services, one with errors.
pub open spec fn error_entry_of(services: Seq<ServiceDef>, upto: int, x: (Seq<char>, Seq<char>)) -> bool {
    exists|i: int|
        0 <= i < upto && #[trigger] errors_at(services, i).len() > 0 && x == (
            def_names(services)[i],
            join(errors_at(services, i), "; "@),
        )
}

/// `x` is the warnings entry of one of the first `upto` services, one with
/// warnings and no errors.
pub open spec fn warning_entry_of(
    services: Seq<ServiceDef>,
    exec_found: Seq<bool>,
    parent_unwritable: Seq<bool>,
    upto: int,
    x: (Seq<char>, Seq<char>),
) -> bool {
    exists|i: int|
        0 <= i < upto && #[trigger] errors_at(services, i).len() == 0 && warnings_at(
            services,
            exec_found,
            parent_unwritable,
            i,
        ).len() > 0 && x == (def_names(services)[i], join(warnings_at(services, exec_found, parent_unwritable, i), "; "@))
}

/// `x` is the name of one of the first `upto` services, one with neither errors
/// nor warnings.
pub open spec fn clean_name_of(
    services: Seq<ServiceDef>,
    exec_found: Seq<bool>,
    parent_unwritable: Seq<bool>,
    upto: int,
    x: Seq<char>,
) -> bool {
    exists|i: int|
        0 <= i < upto && #[trigger] errors_at(services, i).len() == 0 && warnings_at(
            services,
            exec_found,
            parent_unwritable,
            i,
        ).len() == 0 && x == def_names(services)[i]
}

/// Each service is classified by its own findings: one with errors is reported
/// with its errors, whatever its warnings; every errors entry comes from a
/// service with errors; every warnings entry from a service with warnings and no
/// errors; every name reported as fine from a service with neither.
pub proof fn law_preflight_classifies_by_findings(
    services: Seq<ServiceDef>,
    exec_found: Seq<bool>,
    parent_unwritable: Seq<bool>,
    upto: int,
)
    requires
        0 <= upto <= services.len(),
    ensures
        forall|i: int|
            0 <= i < upto && #[trigger] errors_at(services, i).len() > 0 ==> service_entries(
                services,
                exec_found,
                parent_unwritable,
                upto,
            ).2.contains((def_names(services)[i], join(errors_at(services, i), "; "@))),
        forall|k: int|
            0 <= k < service_entries(services, exec_found, parent_unwritable, upto).2.len() ==> error_entry_of(
                services,
                upto,
                #[trigger] service_entries(services, exec_found, parent_unwritable, upto).2[k],
            ),
        forall|k: int|
            0 <= k < service_entries(services, exec_found, parent_unwritable, upto).1.len() ==> warning_entry_of(
                services,
                exec_found,
                parent_unwritable,
                upto,
                #[trigger] service_entries(services, exec_found, parent_unwritable, upto).1[k],
            ),
        forall|k: int|
            0 <= k < service_entries(services, exec_found, parent_unwritable, upto).0.len() ==> clean_name_of(
                services,
                exec_found,
                parent_unwritable,
                upto,
                #[trigger] service_entries(services, exec_found, parent_unwritable, upto).0[k],
            ),
    decreases upto,
{
    let e = service_entries(services, exec_found, parent_unwritable, upto);
    if upto > 0 {
        law_preflight_classifies_by_findings(services, exec_found, parent_unwritable, upto - 1);
        let prev = service_entries(services, exec_found, parent_unwritable, upto - 1);
        let j = upto - 1;
        assert(def_names(services)[j] == services[j].service.name@);
        assert forall|i: int| 0 <= i < upto && #[trigger] errors_at(services, i).len() > 0 implies e.2.contains(
            (def_names(services)[i], join(errors_at(services, i), "; "@)),
        ) by {
            let x = (def_names(services)[i], join(errors_at(services, i), "; "@));
            if i < j {
                let q = choose|q: int| 0 <= q < prev.2.len() && prev.2[q] == x;
                assert(e.2[q] == x);
            } else {
                assert(e.2[e.2.len() - 1] == x);
            }
        }
        assert forall|k: int| 0 <= k < e.2.len() implies error_entry_of(services, upto, #[trigger] e.2[k]) by {
            if k < prev.2.len() {
                assert(e.2[k] == prev.2[k]);
                assert(error_entry_of(services, upto - 1, prev.2[k]));
                let i = choose|i: int|
                    0 <= i < upto - 1 && #[trigger] errors_at(services, i).len() > 0 && prev.2[k] == (
                        def_names(services)[i],
                        join(errors_at(services, i), "; "@),
                    );
                assert(errors_at(services, i).len() > 0);
            } else {
                assert(errors_at(services, j).len() > 0);
            }
        }
        assert forall|k: int| 0 <= k < e.1.len() implies warning_entry_of(
            services,
            exec_found,
            parent_unwritable,
            upto,
            #[trigger] e.1[k],
        ) by {
            if k < prev.1.len() {
                assert(e.1[k] == prev.1[k]);
                assert(warning_entry_of(services, exec_found, parent_unwritable, upto - 1, prev.1[k]));
                let i = choose|i: int|
                    0 <= i < upto - 1 && #[trigger] errors_at(services, i).len() == 0 && warnings_at(
                        services,
                        exec_found,
                        parent_unwritable,
                        i,
                    ).len() > 0 && prev.1[k] == (
                        def_names(services)[i],
                        join(warnings_at(services, exec_found, parent_unwritable, i), "; "@),
                    );
                assert(errors_at(services, i).len() == 0);
            } else {
                assert(errors_at(services, j).len() == 0);
            }
        }
        assert forall|k: int| 0 <= k < e.0.len() implies clean_name_of(
            services,
            exec_found,
            parent_unwritable,
            upto,
            #[trigger] e.0[k],
        ) by {
            if k < prev.0.len() {
                assert(e.0[k] == prev.0[k]);
                assert(clean_name_of(services, exec_found, parent_unwritable, upto - 1, prev.0[k]));
                let i = choose|i: int|
                    0 <= i < upto - 1 && #[trigger] errors_at(services, i).len() == 0 && warnings_at(
                        services,
                        exec_found,
                        parent_unwritable,
                        i,
                    ).len() == 0 && prev.0[k] == def_names(services)[i];
                assert(errors_at(services, i).len() == 0);
            } else {
                assert(errors_at(services, j).len() == 0);
            }
        }
    }
}

/// What the preflight reports, whatever order it sorts into: every service with
/// errors is among the errors with its errors joined, even when it also has
/// warnings; every warnings entry is a service with warnings and no errors; every
/// name reported as fine is a service with neither.
pub proof fn law_preflight_result_classifies(
    file_errors: Seq<(Seq<char>, Seq<char>)>,
    services: Seq<ServiceDef>,
    exec_found: Seq<bool>,
    parent_unwritable: Seq<bool>,
    r: PreflightResult,
)
    requires
        exec_found.len() == services.len(),
        parent_unwritable.len() == services.len(),
        ({
            let e = service_entries(services, exec_found, parent_unwritable, services.len() as int);
            &&& views(r.ok@) == in_order(e.0)
            &&& pair_views(r.warnings@) == crate::text::by_name(e.1)
            &&& pair_views(r.errors@) == crate::text::by_name(file_errors + e.2 + cycle_entry(services))
        }),
    ensures
        forall|i: int|
            0 <= i < services.len() && #[trigger] errors_at(services, i).len() > 0 ==> pair_views(r.errors@).contains(
                (def_names(services)[i], join(errors_at(services, i), "; "@)),
            ),
        forall|k: int|
            0 <= k < r.warnings@.len() ==> warning_entry_of(
                services,
                exec_found,
                parent_unwritable,
                services.len() as int,
                #[trigger] pair_views(r.warnings@)[k],
            ),
        forall|k: int|
            0 <= k < r.ok@.len() ==> clean_name_of(
                services,
                exec_found,
                parent_unwritable,
                services.len() as int,
                #[trigger] views(r.ok@)[k],
            ),
{
    broadcast use vstd::seq_lib::group_to_multiset_ensures;

    let n = services.len() as int;
    let e = service_entries(services, exec_found, parent_unwritable, n);
    law_preflight_classifies_by_findings(services, exec_found, parent_unwritable, n);
    let all = file_errors + e.2 + cycle_entry(services);
    crate::text::law_by_name_sorts(all);
    crate::text::law_by_name_sorts(e.1);
    crate::text::law_in_order_sorts(e.0);
    assert forall|i: int| 0 <= i < n && #[trigger] errors_at(services, i).len() > 0 implies pair_views(r.errors@).contains(
        (def_names(services)[i], join(errors_at(services, i), "; "@)),
    ) by {
        let x = (def_names(services)[i], join(errors_at(services, i), "; "@));
        assert(e.2.contains(x));
        let q = choose|q: int| 0 <= q < e.2.len() && e.2[q] == x;
        assert(all[file_errors.len() + q] == x);
        assert(all.contains(x));
        assert(all.to_multiset().count(x) > 0);
        assert(crate::text::by_name(all).to_multiset().count(x) > 0);
    }
    assert forall|k: int| 0 <= k < r.warnings@.len() implies warning_entry_of(
        services,
        exec_found,
        parent_unwritable,
        n,
        #[trigger] pair_views(r.warnings@)[k],
    ) by {
        let x = pair_views(r.warnings@)[k];
        let b = crate::text::by_name(e.1);
        assert(b[k] == x);
        assert(b.contains(x));
        assert(b.to_multiset().count(x) > 0);
        assert(e.1.to_multiset().count(x) > 0);
        assert(e.1.contains(x));
        let q = choose|q: int| 0 <= q < e.1.len() && e.1[q] == x;
        assert(warning_entry_of(services, exec_found, parent_unwritable, n, e.1[q]));
    }
    assert forall|k: int| 0 <= k < r.ok@.len() implies clean_name_of(
        services,
        exec_found,
        parent_unwritable,
        n,
        #[trigger] views(r.ok@)[k],
    ) by {
        let x = views(r.ok@)[k];
        let b = in_order(e.0);
        assert(b[k] == x);
        assert(b.contains(x));
        assert(b.to_multiset().count(x) > 0);
        assert(e.0.to_multiset().count(x) > 0);
        assert(e.0.contains(x));
        let q = choose|q: int| 0 <= q < e.0.len() && e.0[q] == x;
        assert(clean_name_of(services, exec_found, parent_unwritable, n, e.0[q]));
    }
}

/// Every checked service is reported exactly once: as fine, with its warnings,
/// or with its errors.
pub proof fn law_each_service_reported_once(
    services: Seq<ServiceDef>,
    exec_found: Seq<bool>,
    parent_unwritable: Seq<bool>,
    upto: int,
)
    requires
        0 <= upto,
    ensures
        ({
            let e = service_entries(services, exec_found, parent_unwritable, upto);
            e.0.len() + e.1.len() + e.2.len() == upto
        }),
    decreases upto,
{
    if upto > 0 {
        law_each_service_reported_once(services, exec_found, parent_unwritable, upto - 1);
    }
}

/// The error reported when the services' dependencies form a cycle.
pub open spec fn cycle_entry(services: Seq<ServiceDef>) -> Seq<(Seq<char>, Seq<char>)> {
    if !def_names(services).no_duplicates() || cyclic(service_deps(services)) {
        seq![("(graph)"@, "dependency cycle detected"@)]
    } else {
        Seq::empty()
    }
}

/// The error entry for a definition file that could not be read.
pub fn read_error(name: &str, detail: &str) -> (r: (String, String))
    ensures
        r.0@ == name@,
        r.1@ == "read error: "@ + detail@,
{
    let mut m = String::from_str("read error: ");
    m.append(detail);
    (name.to_string(), m)
}

/// The error entry for a definition file that could not be parsed.
pub fn parse_error(name: &str, detail: &str) -> (r: (String, String))
    ensures
        r.0@ == name@,
        r.1@ == "parse error: "@ + detail@,
{
    let mut m = String::from_str("parse error: ");
    m.append(detail);
    (name.to_string(), m)
}

/// Check the parsed, valid service definitions. `file_errors` are the entries for
/// definition files that could not be read, parsed or validated; `exec_found[i]`
/// and `parent_unwritable[i]` are what the caller found on disk for `services[i]`
/// (see `service_findings`). The lists come out sorted by name, entries with equal
/// names in the order found; the file errors come first, and a cycle among the
/// services is reported last, under the name `(graph)`.
pub fn run_preflight(
    file_errors: &Vec<(String, String)>,
    services: &Vec<ServiceDef>,
    exec_found: &Vec<bool>,
    parent_unwritable: &Vec<bool>,
) -> (r: PreflightResult)
    requires
        exec_found@.len() == services@.len(),
        parent_unwritable@.len() == services@.len(),
    ensures
        ({
            let e = service_entries(services@, exec_found@, parent_unwritable@, services@.len() as int);
            &&& views(r.ok@) == in_order(e.0)
            &&& pair_views(r.warnings@) == crate::text::by_name(e.1)
            &&& pair_views(r.errors@) == crate::text::by_name(pair_views(file_errors@) + e.2 + cycle_entry(services@))
        }),
{
    let ghost defs = services@;
    let names = collect_names(services.as_slice());
    let mut ok: Vec<String> = Vec::new();
    let mut warnings: Vec<(String, String)> = Vec::new();
    let mut errors: Vec<(String, String)> = Vec::new();
    let mut f: usize = 0;
    while f < file_errors.len()
        invariant
            f <= file_errors@.len(),
            pair_views(errors@) == pair_views(file_errors@).take(f as int),
        decreases file_errors@.len() - f,
    {
        let ghost before = errors@;
        errors.push((file_errors[f].0.clone(), file_errors[f].1.clone()));
        proof {
            assert(pair_views(file_errors@).take(f as int + 1) =~= pair_views(file_errors@).take(f as int).push(
                crate::text::pair_view(file_errors@[f as int]),
            ));
            assert(pair_views(errors@) =~= pair_views(before).push(crate::text::pair_view(file_errors@[f as int])));
        }
        f = f + 1;
    }
    let ghost fe = pair_views(file_errors@);
    assert(fe.take(file_errors@.len() as int) =~= fe);
    let mut i: usize = 0;
    while i < services.len()
        invariant
            i <= services@.len(),
            defs == services@,
            exec_found@.len() == services@.len(),
            parent_unwritable@.len() == services@.len(),
            views(names@) == def_names(defs),
            ({
                let e = service_entries(defs, exec_found@, parent_unwritable@, i as int);
                &&& views(ok@) == e.0
                &&& pair_views(warnings@) == e.1
                &&& pair_views(errors@) == fe + e.2
            }),
        decreases services@.len() - i,
    {
        let def = &services[i];
        let (errs, warns) = service_findings(def, &names, exec_found[i], parent_unwritable[i]);
        if errs.len() > 0 {
            let ghost before = errors@;
            errors.push((def.service.name.clone(), crate::text::join_strings(&errs, "; ")));
            proof {
                assert(pair_views(errors@) =~= pair_views(before).push((def.service.name@, join(views(errs@), "; "@))));
            }
        } else if warns.len() > 0 {
            let ghost before = warnings@;
            warnings.push((def.service.name.clone(), crate::text::join_strings(&warns, "; ")));
            proof {
                assert(pair_views(warnings@) =~= pair_views(before).push((def.service.name@, join(views(warns@), "; "@))));
            }
        } else {
            let ghost before = ok@;
            ok.push(def.service.name.clone());
            proof {
                assert(views(ok@) =~= views(before).push(def.service.name@));
            }
        }
        i = i + 1;
    }
    if has_cycle(services.as_slice()) {
        let ghost before = errors@;
        errors.push((String::from_str("(graph)"), String::from_str("dependency cycle detected")));
        proof {
            assert(pair_views(errors@) =~= pair_views(before).push(("(graph)"@, "dependency cycle detected"@)));
        }
    }
    proof {
        let e = service_entries(defs, exec_found@, parent_unwritable@, services@.len() as int);
        assert(pair_views(errors@) =~= fe + e.2 + cycle_entry(defs));
    }
    PreflightResult {
        ok: sort_in_order(&ok),
        warnings: crate::text::sort_by_name(&warnings),
        errors: crate::text::sort_by_name(&errors),
    }
}

} // verus!

verus! {

/// The lines `flint-ctl check` prints for the migration audit.
pub open spec fn audit_report(audit: Option<MigrationAudit>) -> Seq<Seq<char>> {
    seq!["[check] migration audit"@] + match audit {
        None => seq!["  (no known init system detected — skipping migration audit)"@],
        Some(a) => {
            let c = views(a.covered@);
            let m = views(a.missing@);
            let u = views(a.unknown@);
            covered_line(c) + missing_line(m) + unknown_line(u) + (if c.len() == 0 && m.len() == 0 && u.len() == 0 {
                seq!["  (no enabled services detected from old init system)"@]
            } else {
                Seq::empty()
            })
        },
    } + seq![""@]
}

/// The audit line for the covered services, if there are any.
pub open spec fn covered_line(c: Seq<Seq<char>>) -> Seq<Seq<char>> {
    if c.len() > 0 {
        seq!["  covered   "@ + join(c, ", "@) + "   ("@ + decimal(c.len()) + " services)"@]
    } else {
        Seq::empty()
    }
}

/// The audit line for the services the catalog offers, if there are any.
pub open spec fn missing_line(m: Seq<Seq<char>>) -> Seq<Seq<char>> {
    if m.len() > 0 {
        seq!["  missing   "@ + join(m, ", "@) + "   (in catalog — run: flint-ctl get "@ + join(m, " "@) + ")"@]
    } else {
        Seq::empty()
    }
}

/// The audit line for the services nobody offers, if there are any.
pub open spec fn unknown_line(u: Seq<Seq<char>>) -> Seq<Seq<char>> {
    if u.len() > 0 {
        seq![
            "  unknown   "@ + join(u, ", "@) + "   (not in catalog — run: "@ + join(
                u.map_values(|s: Seq<char>| "flint-ctl scaffold "@ + s),
                "  |  "@,
            ) + ")"@,
        ]
    } else {
        Seq::empty()
    }
}

/// `prefix + x` for each `x`.
fn prefixed(xs: &Vec<String>, prefix: &str) -> (r: Vec<String>)
    ensures
        views(r@) == views(xs@).map_values(|s: Seq<char>| prefix@ + s),
{
    let mut out: Vec<String> = Vec::new();
    let mut k: usize = 0;
    while k < xs.len()
        invariant
            k <= xs@.len(),
            views(out@) == views(xs@).take(k as int).map_values(|s: Seq<char>| prefix@ + s),
        decreases xs@.len() - k,
    {
        let ghost before = views(out@);
        let mut m = String::from_str(prefix);
        m.append(xs[k].as_str());
        out.push(m);
        proof {
            assert(views(xs@).take(k as int + 1) =~= views(xs@).take(k as int).push(xs@[k as int]@));
            assert(views(out@) =~= before.push(prefix@ + xs@[k as int]@));
        }
        k = k + 1;
    }
    assert(views(xs@).take(xs@.len() as int) =~= views(xs@));
    out
}

/// The migration audit part of the `check` report.
pub fn audit_report_lines(audit: &Option<MigrationAudit>) -> (r: Vec<String>)
    ensures
        views(r@) == audit_report(*audit),
{
    let mut out: Vec<String> = Vec::new();
    out.push(String::from_str("[check] migration audit"));
    match audit {
        None => {
            out.push(String::from_str("  (no known init system detected — skipping migration audit)"));
        },
        Some(a) => {
            let ghost c = views(a.covered@);
            let ghost m = views(a.missing@);
            let ghost u = views(a.unknown@);
            let ghost base = views(out@);
            if a.covered.len() > 0 {
                let mut line = String::from_str("  covered   ");
                line.append(crate::text::join_strings(&a.covered, ", ").as_str());
                line.append("   (");
                line.append(crate::text::decimal_string(a.covered.len()).as_str());
                line.append(" services)");
                out.push(line);
            }
            let ghost s1 = views(out@);
            assert(s1 =~= base + covered_line(c));
            if a.missing.len() > 0 {
                let mut line = String::from_str("  missing   ");
                line.append(crate::text::join_strings(&a.missing, ", ").as_str());
                line.append("   (in catalog — run: flint-ctl get ");
                line.append(crate::text::join_strings(&a.missing, " ").as_str());
                line.append(")");
                out.push(line);
            }
            let ghost s2 = views(out@);
            assert(s2 =~= s1 + missing_line(m));
            if a.unknown.len() > 0 {
                let cmds = prefixed(&a.unknown, "flint-ctl scaffold ");
                let mut line = String::from_str("  unknown   ");
                line.append(crate::text::join_strings(&a.unknown, ", ").as_str());
                line.append("   (not in catalog — run: ");
                line.append(crate::text::join_strings(&cmds, "  |  ").as_str());
                line.append(")");
                out.push(line);
            }
            let ghost s3 = views(out@);
            assert(s3 =~= s2 + unknown_line(u));
            if a.covered.len() == 0 && a.missing.len() == 0 && a.unknown.len() == 0 {
                out.push(String::from_str("  (no enabled services detected from old init system)"));
            }
            proof {
                assert(c.len() == a.covered@.len());
                assert(m.len() == a.missing@.len());
                assert(u.len() == a.unknown@.len());
                assert(base =~= seq!["[check] migration audit"@]);
                let note = if c.len() == 0 && m.len() == 0 && u.len() == 0 {
                    seq!["  (no enabled services detected from old init system)"@]
                } else {
                    Seq::empty()
                };
                assert(views(out@) =~= s3 + note);
                assert(views(out@) =~= seq!["[check] migration audit"@] + (covered_line(c) + missing_line(m)
                    + unknown_line(u) + note));
            }
        },
    }
    let ghost body = views(out@);
    out.push(String::new());
    proof {
        reveal_strlit("");
        assert(""@ =~= Seq::<char>::empty());
        assert(views(out@) =~= body.push(""@));
    }
    proof {
        assert(views(out@) =~= audit_report(*audit));
    }
    out
}

/// The lines of the preflight part of the `check` report, and whether the check
/// passes (no errors). `None` stands for a services directory that does not exist.
pub open spec fn preflight_report(result: Option<PreflightResult>, dir: Seq<char>) -> (Seq<Seq<char>>, bool) {
    match result {
        None => (
            seq!["[check] preflight"@, "  warning: "@ + dir + " does not exist — no services installed"@],
            true,
        ),
        Some(p) => {
            let ok = views(p.ok@);
            let w = pair_views(p.warnings@);
            let e = pair_views(p.errors@);
            if ok.len() == 0 && w.len() == 0 && e.len() == 0 {
                (seq!["[check] preflight"@, "  (no services found in "@ + dir + ")"@], true)
            } else {
                (
                    seq!["[check] preflight"@] + (if ok.len() > 0 {
                        seq!["  ok        "@ + join(ok, " "@) + "   ("@ + decimal(ok.len()) + " services)"@]
                    } else {
                        Seq::empty()
                    }) + w.map_values(|x: (Seq<char>, Seq<char>)| "  warning   "@ + x.0 + ": "@ + x.1) + e.map_values(
                        |x: (Seq<char>, Seq<char>)| "  error     "@ + x.0 + ": "@ + x.1,
                    ),
                    e.len() == 0,
                )
            }
        },
    }
}

/// `prefix + name + ": " + message` for each pair.
fn pair_lines(pairs: &Vec<(String, String)>, prefix: &str) -> (r: Vec<String>)
    ensures
        views(r@) == pair_views(pairs@).map_values(|x: (Seq<char>, Seq<char>)| prefix@ + x.0 + ": "@ + x.1),
{
    let ghost pv = pair_views(pairs@);
    let mut out: Vec<String> = Vec::new();
    let mut k: usize = 0;
    while k < pairs.len()
        invariant
            k <= pairs@.len(),
            pv == pair_views(pairs@),
            views(out@) == pv.take(k as int).map_values(|x: (Seq<char>, Seq<char>)| prefix@ + x.0 + ": "@ + x.1),
        decreases pairs@.len() - k,
    {
        let ghost before = views(out@);
        let mut m = String::from_str(prefix);
        m.append(pairs[k].0.as_str());
        m.append(": ");
        m.append(pairs[k].1.as_str());
        out.push(m);
        proof {
            assert(pv[k as int] == crate::text::pair_view(pairs@[k as int]));
            assert(pv.take(k as int + 1) =~= pv.take(k as int).push(pv[k as int]));
            assert(views(out@) =~= before.push(prefix@ + pv[k as int].0 + ": "@ + pv[k as int].1));
        }
        k = k + 1;
    }
    assert(pv.take(pairs@.len() as int) =~= pv);
    out
}

/// The preflight part of the `check` report and whether the check passes.
pub fn preflight_report_lines(result: &Option<PreflightResult>, dir: &str) -> (r: (Vec<String>, bool))
    ensures
        views(r.0@) == preflight_report(*result, dir@).0,
        r.1 == preflight_report(*result, dir@).1,
{
    let mut out: Vec<String> = Vec::new();
    out.push(String::from_str("[check] preflight"));
    match result {
        None => {
            let mut line = String::from_str("  warning: ");
            line.append(dir);
            line.append(" does not exist — no services installed");
            out.push(line);
            proof {
                assert(views(out@) =~= preflight_report(*result, dir@).0);
            }
            (out, true)
        },
        Some(p) => {
            if p.ok.len() == 0 && p.warnings.len() == 0 && p.errors.len() == 0 {
                let mut line = String::from_str("  (no services found in ");
                line.append(dir);
                line.append(")");
                out.push(line);
                proof {
                    assert(views(out@) =~= preflight_report(*result, dir@).0);
                }
                return (out, true);
            }
            let ghost h = views(out@);
            if p.ok.len() > 0 {
                let mut line = String::from_str("  ok        ");
                line.append(crate::text::join_strings(&p.ok, " ").as_str());
                line.append("   (");
                line.append(crate::text::decimal_string(p.ok.len()).as_str());
                line.append(" services)");
                out.push(line);
            }
            let ghost s1 = views(out@);
            let wl = pair_lines(&p.warnings, "  warning   ");
            let el = pair_lines(&p.errors, "  error     ");
            let mut k: usize = 0;
            while k < wl.len()
                invariant
                    k <= wl@.len(),
                    views(out@) == s1 + views(wl@).take(k as int),
                decreases wl@.len() - k,
            {
                let ghost before = views(out@);
                out.push(wl[k].clone());
                proof {
                    assert(views(wl@).take(k as int + 1) =~= views(wl@).take(k as int).push(wl@[k as int]@));
                    assert(views(out@) =~= before.push(wl@[k as int]@));
                }
                k = k + 1;
            }
            let ghost s2 = views(out@);
            assert(views(wl@).take(wl@.len() as int) =~= views(wl@));
            let mut q: usize = 0;
            while q < el.len()
                invariant
                    q <= el@.len(),
                    views(out@) == s2 + views(el@).take(q as int),
                decreases el@.len() - q,
            {
                let ghost before = views(out@);
                out.push(el[q].clone());
                proof {
                    assert(views(el@).take(q as int + 1) =~= views(el@).take(q as int).push(el@[q as int]@));
                    assert(views(out@) =~= before.push(el@[q as int]@));
                }
                q = q + 1;
            }
            assert(views(el@).take(el@.len() as int) =~= views(el@));
            proof {
                assert(pair_views(p.warnings@).len() == p.warnings@.len());
                assert(pair_views(p.errors@).len() == p.errors@.len());
                assert(views(p.ok@).len() == p.ok@.len());
                assert(views(out@) =~= preflight_report(*result, dir@).0);
            }
            (out, p.errors.len() == 0)
        },
    }
}

} // verus!
