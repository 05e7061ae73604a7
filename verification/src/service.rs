//! Service definitions: the contents of one `.toml` file in the services directory.
use vstd::prelude::*;
use crate::text::{chars_of, has_prefix, str_starts_with, views};

verus! {

/// Top-level service file.
#[derive(Debug, Clone)]
pub struct ServiceDef {
    pub service: ServiceSection,
    pub deps: Option<DepsSection>,
    pub ready: Option<ReadySection>,
    pub resources: Option<ResourcesSection>,
}

#[derive(Debug, Clone)]
pub struct ServiceSection {
    pub name: String,
    /// The command line to run (the `exec` key of the service file).
    pub exec_line: String,
    pub restart: Option<RestartPolicy>,
    /// Unix user to run the service as. Privileges are dropped before exec.
    pub user: Option<String>,
    /// Explicit argument list. When set, `exec` is the binary path and these
    /// are passed as argv[1..]. Avoids whitespace-splitting ambiguity.
    pub args: Option<Vec<String>>,
}

#[derive(Debug, Clone, Copy, PartialEq, Eq, Structural)]
pub enum RestartPolicy {
    Always,
    OnFailure,
    Never,
}

#[derive(Debug, Clone, Default)]
pub struct DepsSection {
    /// Ordering-only dependencies: start after these, success not required.
    pub after: Vec<String>,
    /// Hard dependencies: if one of these fails permanently, so does this service.
    pub needs: Vec<String>,
}

#[derive(Debug, Clone)]
pub struct ReadySection {
    pub strategy: ReadyStrategy,
    pub path: Option<String>,
}

#[derive(Debug, Clone, Copy, PartialEq, Eq, Structural)]
pub enum ReadyStrategy {
    Pidfile,
    Socket,
}

#[derive(Debug, Clone, Default)]
pub struct ResourcesSection {
    pub oom_score_adj: Option<i32>,
}

/// Why a service definition was rejected.
#[derive(Debug, Clone)]
pub enum ValidationError {
    /// `ready.path` is relative.
    NotAbsolute { service: String, path: String },
    /// `ready.path` has a `..` component.
    Traversal { service: String, path: String },
    /// `ready.path` lies outside `/run/` and `/var/run/`.
    OutsideRun { service: String, path: String },
}

/// The names of a sequence of service definitions, in order.
pub open spec fn def_names(s: Seq<ServiceDef>) -> Seq<Seq<char>> {
    s.map_values(|d: ServiceDef| d.service.name@)
}

/// All dependency names of a service: `after` first, then `needs`.
pub open spec fn dep_names(d: ServiceDef) -> Seq<Seq<char>> {
    match d.deps {
        Some(deps) => views(deps.after@) + views(deps.needs@),
        None => Seq::empty(),
    }
}

/// The hard (`needs`) dependency names of a service.
pub open spec fn needs_names(d: ServiceDef) -> Seq<Seq<char>> {
    match d.deps {
        Some(deps) => views(deps.needs@),
        None => Seq::empty(),
    }
}

/// A path is absolute when it begins at the root directory.
pub open spec fn is_absolute(p: Seq<char>) -> bool {
    p.len() > 0 && p[0] == '/'
}

/// `..` stands as a whole component at position `i` of a `/`-separated path.
pub open spec fn dotdot_at(p: Seq<char>, i: int) -> bool {
    &&& 0 <= i
    &&& i + 2 <= p.len()
    &&& p[i] == '.'
    &&& p[i + 1] == '.'
    &&& (i == 0 || p[i - 1] == '/')
    &&& (i + 2 == p.len() || p[i + 2] == '/')
}

/// The path has a `..` (parent directory) component.
pub open spec fn has_parent_component(p: Seq<char>) -> bool {
    exists|i: int| dotdot_at(p, i)
}

/// The path names something under the volatile runtime directories.
pub open spec fn under_run(p: Seq<char>) -> bool {
    has_prefix(p, "/run/"@) || has_prefix(p, "/var/run/"@)
}

/// What `validate` decides for a service definition.
pub open spec fn validation_outcome(d: ServiceDef) -> Result<(), ValidationError> {
    match d.ready {
        Some(r) => match r.path {
            Some(path) => if !is_absolute(path@) {
                Err(ValidationError::NotAbsolute { service: d.service.name, path })
            } else if has_parent_component(path@) {
                Err(ValidationError::Traversal { service: d.service.name, path })
            } else if !under_run(path@) {
                Err(ValidationError::OutsideRun { service: d.service.name, path })
            } else {
                Ok(())
            },
            None => Ok(()),
        },
        None => Ok(()),
    }
}

/// `p` has a `..` component.
pub fn path_has_parent_component(p: &str) -> (r: bool)
    ensures
        r == has_parent_component(p@),
{
    let c = chars_of(p);
    let n = c.len();
    if n < 2 {
        return false;
    }
    let mut i: usize = 0;
    while i <= n - 2
        invariant
            c@ == p@,
            n == c@.len(),
            n >= 2,
            forall|j: int| 0 <= j < i ==> !dotdot_at(p@, j),
        decreases n - i,
    {
        if c[i] == '.' && c[i + 1] == '.' && (i == 0 || c[i - 1] == '/') && (i + 2 == n || c[i + 2] == '/') {
            assert(dotdot_at(p@, i as int));
            return true;
        }
        i = i + 1;
    }
    assert forall|j: int| !dotdot_at(p@, j) by {
        if 0 <= j < i {
        }
    }
    false
}

impl ValidationError {
    /// Human-readable description, naming the service and the offending path.
    pub fn message(&self) -> (r: String)
        ensures
            r@ == validation_message(*self),
    {
        match self {
            ValidationError::NotAbsolute { service, path } => {
                let mut m = String::from_str("service '");
                m.append(service.as_str());
                m.append("': ready.path '");
                m.append(path.as_str());
                m.append("' must be absolute");
                m
            },
            ValidationError::Traversal { service, path } => {
                let mut m = String::from_str("service '");
                m.append(service.as_str());
                m.append("': ready.path '");
                m.append(path.as_str());
                m.append("' contains '..' traversal");
                m
            },
            ValidationError::OutsideRun { service, path } => {
                let mut m = String::from_str("service '");
                m.append(service.as_str());
                m.append("': ready.path '");
                m.append(path.as_str());
                m.append("' must be under /run/ or /var/run/");
                m
            },
        }
    }
}

/// The text of a validation error.
pub open spec fn validation_message(e: ValidationError) -> Seq<char> {
    match e {
        ValidationError::NotAbsolute { service, path } => "service '"@ + service@ + "': ready.path '"@
            + path@ + "' must be absolute"@,
        ValidationError::Traversal { service, path } => "service '"@ + service@ + "': ready.path '"@
            + path@ + "' contains '..' traversal"@,
        ValidationError::OutsideRun { service, path } => "service '"@ + service@ + "': ready.path '"@
            + path@ + "' must be under /run/ or /var/run/"@,
    }
}

impl ServiceDef {
    /// Validate security-sensitive fields.
    ///
    /// `ready.path` must be absolute, must not contain `..`, and must be
    /// under `/run/` or `/var/run/` to prevent arbitrary file deletion.
    pub fn validate(&self) -> (r: Result<(), ValidationError>)
        ensures
            r == validation_outcome(*self),
    {
        if let Some(ready) = &self.ready {
            if let Some(path) = &ready.path {
                if !str_starts_with(path.as_str(), "/") {
                    proof {
                        reveal_strlit("/");
                        if is_absolute(path@) {
                            assert(path@.take(1) =~= "/"@);
                        }
                    }
                    return Err(ValidationError::NotAbsolute { service: self.service.name.clone(), path: path.clone() });
                }
                proof {
                    reveal_strlit("/");
                    assert(path@.take(1)[0] == path@[0]);
                }
                if path_has_parent_component(path.as_str()) {
                    return Err(ValidationError::Traversal { service: self.service.name.clone(), path: path.clone() });
                }
                if !str_starts_with(path.as_str(), "/run/") && !str_starts_with(path.as_str(), "/var/run/") {
                    return Err(ValidationError::OutsideRun { service: self.service.name.clone(), path: path.clone() });
                }
            }
        }
        Ok(())
    }
}

} // verus!
