//! The binary manifest that caches parsed service definitions between boots.
//! Reading and writing it (with bincode) is left to the caller.
use vstd::prelude::*;
use crate::service::ServiceDef;
use crate::text::{str_eq, views};

verus! {

/// The manifest format this build reads and writes.
pub const MANIFEST_VERSION: u8 = 1;

/// One cached definition: the file it came from and that file's modification time.
#[derive(Debug)]
pub struct ManifestEntry {
    pub filename: String,
    pub mtime_secs: u64,
    pub def: ServiceDef,
}

/// The cached definitions of a services directory.
#[derive(Debug)]
pub struct Manifest {
    pub version: u8,
    pub entries: Vec<ManifestEntry>,
}

/// The position of the first entry for file `name`.
#[verifier::opaque]
pub open spec fn first_entry(s: Seq<ManifestEntry>, name: Seq<char>) -> Option<int> {
    if exists|k: int| 0 <= k < s.len() && #[trigger] s[k].filename@ == name {
        Some(choose|k: int| 0 <= k < s.len() && #[trigger] s[k].filename@ == name && forall|j: int| 0 <= j < k ==> #[trigger] s[j].filename@ != name)
    } else {
        None
    }
}

/// The entries after recording file `name` with modification time `mtime` and
/// definition `def`: the first entry for the file is updated in place, or a new
/// entry is appended.
pub open spec fn upserted(s: Seq<ManifestEntry>, name: Seq<char>, name_str: String, mtime: u64, def: ServiceDef) -> Seq<ManifestEntry> {
    match first_entry(s, name) {
        Some(k) => s.update(k, ManifestEntry { filename: s[k].filename, mtime_secs: mtime, def }),
        None => s.push(ManifestEntry { filename: name_str, mtime_secs: mtime, def }),
    }
}

/// The entries for files other than `name`, in order.
pub open spec fn without_file(s: Seq<ManifestEntry>, name: Seq<char>) -> Seq<ManifestEntry>
    decreases s.len(),
{
    if s.len() == 0 {
        s
    } else if s.last().filename@ == name {
        without_file(s.drop_last(), name)
    } else {
        without_file(s.drop_last(), name).push(s.last())
    }
}

/// No two entries are for the same file.
pub open spec fn filenames_unique(s: Seq<ManifestEntry>) -> bool {
    forall|a: int, b: int| 0 <= a < b < s.len() ==> #[trigger] s[a].filename@ != #[trigger] s[b].filename@
}

impl Manifest {
    /// An empty manifest in the current format.
    pub fn new() -> (r: Manifest)
        ensures
            r.version == MANIFEST_VERSION,
            r.entries@.len() == 0,
    {
        Manifest { version: MANIFEST_VERSION, entries: Vec::new() }
    }

    /// Whether the manifest is in the format this build reads; one in another
    /// format is ignored.
    pub fn is_current(&self) -> (r: bool)
        ensures
            r == (self.version == MANIFEST_VERSION),
    {
        self.version == MANIFEST_VERSION
    }

    /// The position of the first entry for file `name`.
    pub fn position(&self, name: &str) -> (r: Option<usize>)
        ensures
            match r {
                Some(k) => k < self.entries@.len() && first_entry(self.entries@, name@) == Some(k as int),
                None => first_entry(self.entries@, name@) is None,
            },
    {
        let mut k: usize = 0;
        while k < self.entries.len()
            invariant
                k <= self.entries@.len(),
                forall|j: int| 0 <= j < k ==> #[trigger] self.entries@[j].filename@ != name@,
            decreases self.entries@.len() - k,
        {
            if str_eq(self.entries[k].filename.as_str(), name) {
                proof {
                    lemma_first_entry_at(self.entries@, name@, k as int);
                }
                return Some(k);
            }
            k = k + 1;
        }
        proof {
            lemma_first_entry(self.entries@, name@);
        }
        None
    }

    /// The cached definition for file `name`, when its first entry was recorded at
    /// modification time `mtime`.
    pub fn cached(&self, name: &str, mtime: u64) -> (r: Option<&ServiceDef>)
        ensures
            match r {
                Some(d) => first_entry(self.entries@, name@) matches Some(k) && self.entries@[k].mtime_secs == mtime
                    && self.entries@[k].def == *d,
                None => !(first_entry(self.entries@, name@) matches Some(k) && self.entries@[k].mtime_secs == mtime),
            },
    {
        match self.position(name) {
            Some(k) => {
                if self.entries[k].mtime_secs == mtime {
                    Some(&self.entries[k].def)
                } else {
                    None
                }
            },
            None => None,
        }
    }

    /// Record file `name` as parsed into `def` at modification time `mtime`: the
    /// first entry for the file is updated, or a new entry is appended.
    pub fn upsert(&mut self, name: String, mtime: u64, def: ServiceDef)
        ensures
            final(self).version == old(self).version,
            final(self).entries@ == upserted(old(self).entries@, name@, name, mtime, def),
    {
        match self.position(name.as_str()) {
            Some(k) => {
                let e = self.entries.remove(k);
                self.entries.insert(k, ManifestEntry { filename: e.filename, mtime_secs: mtime, def });
                proof {
                    assert(self.entries@ =~= upserted(old(self).entries@, name@, name, mtime, def));
                }
            },
            None => {
                self.entries.push(ManifestEntry { filename: name, mtime_secs: mtime, def });
            },
        }
    }

    /// Drop every entry for file `name`.
    pub fn remove_file(&mut self, name: &str)
        ensures
            final(self).version == old(self).version,
            final(self).entries@ == without_file(old(self).entries@, name@),
    {
        let ghost orig = self.entries@;
        let n = self.entries.len();
        let mut i: usize = 0;
        let mut j: usize = 0;
        assert(orig.skip(0) =~= orig);
        assert(orig.take(0) =~= Seq::<ManifestEntry>::empty());
        while j < n
            invariant
                n == orig.len(),
                j <= orig.len(),
                i <= j,
                i == without_file(orig.take(j as int), name@).len(),
                self.entries@ == without_file(orig.take(j as int), name@) + orig.skip(j as int),
                self.version == old(self).version,
            decreases orig.len() - j,
        {
            proof {
                assert(orig.take(j as int + 1).drop_last() =~= orig.take(j as int));
                assert(orig.take(j as int + 1).last() == orig[j as int]);
                assert(self.entries@[i as int] == orig[j as int]);
            }
            if str_eq(self.entries[i].filename.as_str(), name) {
                let ghost before = self.entries@;
                let _dropped = self.entries.remove(i);
                proof {
                    assert(self.entries@ =~= without_file(orig.take(j as int + 1), name@) + orig.skip(j as int + 1));
                }
            } else {
                proof {
                    assert(self.entries@ =~= without_file(orig.take(j as int + 1), name@) + orig.skip(j as int + 1));
                }
                i = i + 1;
            }
            j = j + 1;
        }
        assert(orig.take(orig.len() as int) =~= orig);
        assert(self.entries@ =~= without_file(orig, name@));
    }

    /// Drop every entry whose file is not among `present`; tells whether any
    /// entry was dropped.
    pub fn retain_present(&mut self, present: &Vec<String>) -> (dropped: bool)
        ensures
            final(self).version == old(self).version,
            final(self).entries@ == old(self).entries@.filter(|e: ManifestEntry| views(present@).contains(e.filename@)),
            dropped == (final(self).entries@.len() < old(self).entries@.len()),
    {
        let ghost orig = self.entries@;
        let ghost keep = |e: ManifestEntry| views(present@).contains(e.filename@);
        let n = self.entries.len();
        let mut i: usize = 0;
        let mut j: usize = 0;
        assert(orig.skip(0) =~= orig);
        assert(orig.take(0) =~= Seq::<ManifestEntry>::empty());
        assert(orig.take(0).filter(keep) =~= Seq::<ManifestEntry>::empty());
        while j < n
            invariant
                n == orig.len(),
                j <= orig.len(),
                i <= j,
                keep == (|e: ManifestEntry| views(present@).contains(e.filename@)),
                i == orig.take(j as int).filter(keep).len(),
                self.entries@ == orig.take(j as int).filter(keep) + orig.skip(j as int),
                self.version == old(self).version,
            decreases orig.len() - j,
        {
            proof {
                assert(orig.take(j as int + 1) =~= orig.take(j as int).push(orig[j as int]));
                orig.take(j as int).lemma_filter_push(orig[j as int], keep);
                assert(self.entries@[i as int] == orig[j as int]);
            }
            if crate::text::vec_contains_str(present, self.entries[i].filename.as_str()) {
                proof {
                    assert(self.entries@ =~= orig.take(j as int + 1).filter(keep) + orig.skip(j as int + 1));
                }
                i = i + 1;
            } else {
                let _dropped = self.entries.remove(i);
                proof {
                    assert(self.entries@ =~= orig.take(j as int + 1).filter(keep) + orig.skip(j as int + 1));
                }
            }
            j = j + 1;
        }
        proof {
            assert(orig.take(orig.len() as int) =~= orig);
            assert(self.entries@ =~= orig.filter(keep));
        }
        i < n
    }

    /// The cached definitions, in entry order.
    pub fn into_defs(self) -> (r: Vec<ServiceDef>)
        ensures
            r@ == self.entries@.map_values(|e: ManifestEntry| e.def),
    {
        let ghost orig = self.entries@;
        let mut entries = self.entries;
        let mut out: Vec<ServiceDef> = Vec::new();
        while entries.len() > 0
            invariant
                out@ + entries@.map_values(|e: ManifestEntry| e.def) == orig.map_values(|e: ManifestEntry| e.def),
            decreases entries@.len(),
        {
            let ghost before = entries@;
            let e = entries.remove(0);
            out.push(e.def);
            proof {
                assert(before =~= seq![e] + entries@);
                assert(before.map_values(|e: ManifestEntry| e.def) =~= seq![e.def] + entries@.map_values(
                    |e: ManifestEntry| e.def,
                ));
            }
        }
        out
    }
}

/// The stem of a `.toml` file name: the name without its extension, when the
/// extension is `toml` (a file named just `.toml` has no extension).
pub open spec fn toml_stem_of(n: Seq<char>) -> Option<Seq<char>> {
    if n.len() > 5 && n.skip(n.len() - 5) == ".toml"@ {
        Some(n.take(n.len() - 5))
    } else {
        None
    }
}

/// The service name a file in the services directory stands for, if it is a
/// `.toml` file.
pub fn toml_stem(file_name: &str) -> (r: Option<String>)
    ensures
        match r {
            Some(s) => toml_stem_of(file_name@) == Some(s@),
            None => toml_stem_of(file_name@) is None,
        },
{
    let n = file_name.unicode_len();
    if n > 5 {
        let tail = file_name.substring_char(n - 5, n);
        if str_eq(tail, ".toml") {
            return Some(String::from_str(file_name.substring_char(0, n - 5)));
        }
    }
    None
}

/// A file name that ends in `.toml` (what the watcher reacts to).
pub open spec fn ends_with_toml(n: Seq<char>) -> bool {
    n.len() >= 5 && n.skip(n.len() - 5) == ".toml"@
}

/// Whether a file name ends in `.toml`.
pub fn is_toml_name(file_name: &str) -> (r: bool)
    ensures
        r == ends_with_toml(file_name@),
{
    let n = file_name.unicode_len();
    n >= 5 && str_eq(file_name.substring_char(n - 5, n), ".toml")
}

/// `s` without its trailing NUL characters.
pub open spec fn strip_trailing_nuls(s: Seq<char>) -> Seq<char>
    decreases s.len(),
{
    if s.len() > 0 && s.last() == '\0' {
        strip_trailing_nuls(s.drop_last())
    } else {
        s
    }
}

/// A file's text without the NUL padding some editors and filesystems leave at its end.
pub fn trim_nuls(content: &str) -> (r: String)
    ensures
        r@ == strip_trailing_nuls(content@),
{
    let c = crate::text::chars_of(content);
    let mut b: usize = c.len();
    assert(content@.subrange(0, b as int) =~= content@);
    while b > 0 && c[b - 1] == '\0'
        invariant
            c@ == content@,
            b <= content@.len(),
            strip_trailing_nuls(content@) == strip_trailing_nuls(content@.subrange(0, b as int)),
        decreases b,
    {
        assert(content@.subrange(0, b as int).drop_last() =~= content@.subrange(0, b as int - 1));
        b = b - 1;
    }
    String::from_str(content.substring_char(0, b))
}

} // verus!

verus! {

/// The first entry for `name` in `s`, once there is one, is the one `first_entry` finds.
proof fn lemma_first_entry_at(s: Seq<ManifestEntry>, name: Seq<char>, k: int)
    requires
        0 <= k < s.len(),
        s[k].filename@ == name,
        forall|j: int| 0 <= j < k ==> #[trigger] s[j].filename@ != name,
    ensures
        first_entry(s, name) == Some(k),
{
    reveal(first_entry);
    let c = choose|c: int| 0 <= c < s.len() && #[trigger] s[c].filename@ == name && forall|j: int|
        0 <= j < c ==> #[trigger] s[j].filename@ != name;
    assert(s[k].filename@ == name);
    if c < k {
        assert(s[c].filename@ != name);
    } else if c > k {
        assert(s[k].filename@ != name);
    }
}

/// What `first_entry` finds: the first entry for `name`, or none when there is none.
pub proof fn lemma_first_entry(s: Seq<ManifestEntry>, name: Seq<char>)
    ensures
        match first_entry(s, name) {
            Some(k) => 0 <= k < s.len() && s[k].filename@ == name && forall|j: int|
                0 <= j < k ==> #[trigger] s[j].filename@ != name,
            None => forall|j: int| 0 <= j < s.len() ==> #[trigger] s[j].filename@ != name,
        },
{
    reveal(first_entry);
    if exists|k: int| 0 <= k < s.len() && #[trigger] s[k].filename@ == name {
        let k0 = choose|k: int| 0 <= k < s.len() && #[trigger] s[k].filename@ == name;
        assert(exists|c: int| 0 <= c < s.len() && #[trigger] s[c].filename@ == name && forall|j: int|
            0 <= j < c ==> #[trigger] s[j].filename@ != name) by {
            lemma_least_index(s, name, k0);
        }
    }
}

/// Below any entry for `name` there is a first one.
proof fn lemma_least_index(s: Seq<ManifestEntry>, name: Seq<char>, k: int)
    requires
        0 <= k < s.len(),
        s[k].filename@ == name,
    ensures
        exists|c: int| 0 <= c < s.len() && #[trigger] s[c].filename@ == name && forall|j: int|
            0 <= j < c ==> #[trigger] s[j].filename@ != name,
    decreases k,
{
    if exists|j: int| 0 <= j < k && #[trigger] s[j].filename@ == name {
        let j = choose|j: int| 0 <= j < k && #[trigger] s[j].filename@ == name;
        lemma_least_index(s, name, j);
    } else {
        assert(forall|j: int| 0 <= j < k ==> #[trigger] s[j].filename@ != name);
    }
}

/// After a file is recorded, the manifest's entry for it holds what was recorded,
/// so a lookup with the same modification time finds the new definition.
pub proof fn law_upsert_then_cached(s: Seq<ManifestEntry>, name_str: String, mtime: u64, def: ServiceDef)
    ensures
        first_entry(upserted(s, name_str@, name_str, mtime, def), name_str@) matches Some(k) && upserted(
            s,
            name_str@,
            name_str,
            mtime,
            def,
        )[k].mtime_secs == mtime && upserted(s, name_str@, name_str, mtime, def)[k].def == def,
{
    let name = name_str@;
    let u = upserted(s, name, name_str, mtime, def);
    lemma_first_entry(s, name);
    match first_entry(s, name) {
        Some(k) => {
            assert forall|j: int| 0 <= j < k implies #[trigger] u[j].filename@ != name by {
                assert(u[j] == s[j]);
            }
            lemma_first_entry_at(u, name, k);
        },
        None => {
            assert forall|j: int| 0 <= j < s.len() implies #[trigger] u[j].filename@ != name by {
                assert(u[j] == s[j]);
            }
            lemma_first_entry_at(u, name, s.len() as int);
        },
    }
}

/// Recording a file keeps the file names of the entries distinct.
pub proof fn law_upsert_keeps_filenames_unique(s: Seq<ManifestEntry>, name_str: String, mtime: u64, def: ServiceDef)
    requires
        filenames_unique(s),
    ensures
        filenames_unique(upserted(s, name_str@, name_str, mtime, def)),
{
    let name = name_str@;
    let u = upserted(s, name, name_str, mtime, def);
    lemma_first_entry(s, name);
    match first_entry(s, name) {
        Some(k) => {
            assert forall|a: int, b: int| 0 <= a < b < u.len() implies #[trigger] u[a].filename@ != #[trigger] u[b].filename@ by {
                assert(u[a].filename == s[a].filename);
                assert(u[b].filename == s[b].filename);
            }
        },
        None => {
            assert forall|a: int, b: int| 0 <= a < b < u.len() implies #[trigger] u[a].filename@ != #[trigger] u[b].filename@ by {
                if b == s.len() {
                    assert(u[a] == s[a]);
                } else {
                    assert(u[a] == s[a]);
                    assert(u[b] == s[b]);
                }
            }
        },
    }
}

/// Removing a file leaves no entry for it and keeps every entry for other files,
/// in order.
pub proof fn law_remove_file_drops_only_that_file(s: Seq<ManifestEntry>, name: Seq<char>)
    ensures
        forall|k: int| 0 <= k < without_file(s, name).len() ==> #[trigger] without_file(s, name)[k].filename@ != name,
        forall|k: int| 0 <= k < s.len() && s[k].filename@ != name ==> without_file(s, name).contains(#[trigger] s[k]),
        without_file(s, name).len() <= s.len(),
    decreases s.len(),
{
    if s.len() > 0 {
        let p = s.drop_last();
        law_remove_file_drops_only_that_file(p, name);
        let w = without_file(s, name);
        let wp = without_file(p, name);
        assert forall|k: int| 0 <= k < s.len() && s[k].filename@ != name implies w.contains(#[trigger] s[k]) by {
            if k < s.len() - 1 {
                assert(p[k] == s[k]);
                assert(wp.contains(p[k]));
                let q = choose|q: int| 0 <= q < wp.len() && wp[q] == p[k];
                assert(w[q] == wp[q]);
            } else {
                assert(w[w.len() - 1] == s[k]);
            }
        }
        assert forall|k: int| 0 <= k < w.len() implies #[trigger] w[k].filename@ != name by {
            if k < wp.len() {
                assert(w[k] == wp[k]);
            }
        }
    }
}

} // verus!
