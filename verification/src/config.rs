//! Global settings from `/etc/flint/config.toml`, and how they apply to services.
use vstd::prelude::*;
use crate::service::ServiceDef;
use crate::text::str_eq;

verus! {

/// The whole configuration file.
#[derive(Debug, Default)]
pub struct FlintConfig {
    pub global: Option<GlobalSection>,
}

/// The `[global]` table.
#[derive(Debug, Default)]
pub struct GlobalSection {
    /// The login user that desktop/session services run as.
    /// Substituted for `%U` in service `user` fields.
    pub session_user: Option<String>,
}

/// The configured session user, if any.
pub open spec fn session_user_of(c: FlintConfig) -> Option<Seq<char>> {
    match c.global {
        Some(g) => match g.session_user {
            Some(u) => Some(u@),
            None => None,
        },
        None => None,
    }
}

/// A service's user after `%U` is expanded: exactly `%U` becomes the session user
/// (none when no session user is configured); any other user stays.
pub open spec fn user_after(user: Option<String>, session: Option<Seq<char>>) -> Option<Seq<char>> {
    match user {
        Some(u) => if u@ == "%U"@ {
            session
        } else {
            Some(u@)
        },
        None => None,
    }
}

/// The characters of an optional string.
pub open spec fn opt_view(o: Option<String>) -> Option<Seq<char>> {
    match o {
        Some(s) => Some(s@),
        None => None,
    }
}

/// `b` is `a` with only the user of its service section (possibly) changed.
pub open spec fn same_but_user(a: ServiceDef, b: ServiceDef) -> bool {
    &&& b.deps == a.deps
    &&& b.ready == a.ready
    &&& b.resources == a.resources
    &&& b.service.name == a.service.name
    &&& b.service.exec_line == a.service.exec_line
    &&& b.service.restart == a.service.restart
    &&& b.service.args == a.service.args
}

impl FlintConfig {
    /// The configured session user.
    pub fn session_user(&self) -> (r: Option<&str>)
        ensures
            match r {
                Some(u) => session_user_of(*self) == Some(u@),
                None => session_user_of(*self) is None,
            },
    {
        match &self.global {
            Some(g) => match &g.session_user {
                Some(u) => Some(u.as_str()),
                None => None,
            },
            None => None,
        }
    }

    /// Expand `%U` in the `user` field of every service definition.
    ///
    /// Services that set `user = "%U"` will run as `session_user`.
    /// If no `session_user` is configured, `%U` services have their
    /// `user` field cleared (they will inherit the process owner).
    pub fn apply_to(&self, services: Vec<ServiceDef>) -> (r: Vec<ServiceDef>)
        ensures
            r@.len() == services@.len(),
            forall|i: int|
                0 <= i < services@.len() ==> same_but_user(services@[i], #[trigger] r@[i]) && opt_view(r@[i].service.user)
                    == user_after(services@[i].service.user, session_user_of(*self)),
    {
        let ghost orig = services@;
        let mut services = services;
        let n = services.len();
        let mut i: usize = 0;
        while i < n
            invariant
                i <= n,
                n == orig.len(),
                services@.len() == n,
                forall|q: int|
                    0 <= q < i ==> same_but_user(orig[q], #[trigger] services@[q]) && opt_view(services@[q].service.user)
                        == user_after(orig[q].service.user, session_user_of(*self)),
                forall|q: int| i <= q < n ==> #[trigger] services@[q] == orig[q],
            decreases n - i,
        {
            let is_placeholder = match &services[i].service.user {
                Some(u) => str_eq(u.as_str(), "%U"),
                None => false,
            };
            if is_placeholder {
                let ghost before = services@;
                let mut svc = services.remove(i);
                let new_user = match self.session_user() {
                    Some(u) => Some(u.to_string()),
                    None => None,
                };
                svc.service.user = new_user;
                services.insert(i, svc);
                proof {
                    assert forall|q: int| 0 <= q < n && q != i implies #[trigger] services@[q] == before[q] by {
                        if q < i {
                            assert(services@[q] == before.remove(i as int)[q]);
                        } else {
                            assert(services@[q] == before.remove(i as int)[q - 1]);
                        }
                    }
                }
            }
            i = i + 1;
        }
        services
    }
}

} // verus!
