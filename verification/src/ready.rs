//! The rule by which a directory event announces that a watched readiness
//! file (a pidfile or a socket) has appeared.
use vstd::prelude::*;

verus! {

/// The event kinds a readiness watcher subscribes to.
pub struct EventKinds {
    pub created: bool,
    pub moved_in: bool,
    pub closed_after_write: bool,
}

/// An event signals readiness when it names exactly the watched file and is
/// a creation, a move into the directory, or a close after writing.
pub open spec fn signals_ready_spec(event_name: Option<Seq<u8>>, target: Seq<u8>, kinds: EventKinds) -> bool {
    &&& event_name is Some
    &&& event_name->0 == target
    &&& (kinds.created || kinds.moved_in || kinds.closed_after_write)
}

/// Byte-wise equality of two file names.
pub fn same_name(a: &[u8], b: &[u8]) -> (r: bool)
    ensures
        r == (a@ == b@),
{
    if a.len() != b.len() {
        return false;
    }
    let mut i: usize = 0;
    while i < a.len()
        invariant
            a@.len() == b@.len(),
            i <= a@.len(),
            forall|j: int| 0 <= j < i ==> a@[j] == b@[j],
        decreases a@.len() - i,
    {
        if a[i] != b[i] {
            return false;
        }
        i = i + 1;
    }
    assert(a@ =~= b@);
    true
}

/// Whether a directory event with the given file name (`None` for an event on
/// the directory itself) and kinds tells that `target` is now in place.
pub fn signals_ready(event_name: Option<&[u8]>, target: &[u8], kinds: EventKinds) -> (r: bool)
    ensures
        r == signals_ready_spec(
            match event_name {
                Some(n) => Some(n@),
                None => None,
            },
            target@,
            kinds,
        ),
{
    match event_name {
        Some(name) => {
            same_name(name, target) && (kinds.created || kinds.moved_in || kinds.closed_after_write)
        },
        None => false,
    }
}

} // verus!
