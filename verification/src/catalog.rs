//! The service catalog and the distribution it is filtered for.
use vstd::prelude::*;
use crate::text::{
    by_name, has_prefix, lines, pair_view, sort_by_name, split_lines, str_eq, str_starts_with, views,
};

verus! {

/// One catalog entry: what the service is, and the distributions it is meant for
/// (all of them when `None`).
#[derive(Debug)]
pub struct CatalogEntry {
    pub description: String,
    pub distros: Option<Vec<String>>,
}

/// `s` without leading and trailing `c` characters, as `str::trim_matches` with a
/// character gives it.
pub open spec fn strip_char(s: Seq<char>, c: char) -> Seq<char>
    decreases s.len(),
{
    if s.len() > 0 && s[0] == c {
        strip_char(s.drop_first(), c)
    } else if s.len() > 0 && s.last() == c {
        strip_char(s.drop_last(), c)
    } else {
        s
    }
}

/// Dropping leading `c`s and then trailing ones gives the same as `strip_char`.
proof fn lemma_strip_char_split(s: Seq<char>, c: char, a: int, b: int)
    requires
        0 <= a <= b <= s.len(),
        forall|i: int| 0 <= i < a ==> s[i] == c,
        forall|i: int| b <= i < s.len() ==> s[i] == c,
        a < b ==> s[a] != c && s[b - 1] != c,
        a == b ==> b == s.len(),
    ensures
        strip_char(s, c) == s.subrange(a, b),
    decreases s.len(),
{
    if s.len() > 0 && s[0] == c {
        lemma_strip_char_split(s.drop_first(), c, if a > 0 { a - 1 } else { 0 }, b - 1);
        assert(s.drop_first().subrange(if a > 0 { a - 1 } else { 0 }, b - 1) =~= s.subrange(a, b));
    } else if s.len() > 0 && s.last() == c {
        lemma_strip_char_split(s.drop_last(), c, a, if b == s.len() && a == b { b - 1 } else { b });
        assert(s.drop_last().subrange(a, if b == s.len() && a == b { b - 1 } else { b }) =~= s.subrange(a, b));
    } else {
        assert(s.subrange(a, b) =~= s);
    }
}

/// Strips leading and trailing `c` characters.
fn strip_char_str(s: &str, c: char) -> (r: String)
    ensures
        r@ == strip_char(s@, c),
{
    let cs = crate::text::chars_of(s);
    let n = cs.len();
    let mut a: usize = 0;
    while a < n && cs[a] == c
        invariant
            cs@ == s@,
            n == s@.len(),
            a <= n,
            forall|i: int| 0 <= i < a ==> s@[i] == c,
        decreases n - a,
    {
        a = a + 1;
    }
    let mut b: usize = n;
    while b > a && cs[b - 1] == c
        invariant
            cs@ == s@,
            n == s@.len(),
            a <= b <= n,
            forall|i: int| b <= i < n ==> s@[i] == c,
        decreases b,
    {
        b = b - 1;
    }
    proof {
        lemma_strip_char_split(s@, c, a as int, b as int);
    }
    String::from_str(s.substring_char(a, b))
}

/// The value of the first `ID=` line, with surrounding double quotes removed.
pub open spec fn os_release_id(ls: Seq<Seq<char>>) -> Option<Seq<char>>
    decreases ls.len(),
{
    if ls.len() == 0 {
        None
    } else if has_prefix(ls[0], "ID="@) {
        Some(strip_char(ls[0].skip("ID="@.len() as int), '"'))
    } else {
        os_release_id(ls.drop_first())
    }
}

/// The distribution id an os-release file names, if it has an `ID=` line.
pub fn distro_id(os_release: &str) -> (r: Option<String>)
    ensures
        match r {
            Some(id) => os_release_id(lines(os_release@)) == Some(id@),
            None => os_release_id(lines(os_release@)) is None,
        },
{
    let ls = split_lines(os_release);
    let ghost lv = views(ls@);
    let mut k: usize = 0;
    assert(lv.skip(0) =~= lv);
    while k < ls.len()
        invariant
            k <= ls@.len(),
            lv == views(ls@),
            lv == lines(os_release@),
            os_release_id(lv) == os_release_id(lv.skip(k as int)),
        decreases ls@.len() - k,
    {
        let line = ls[k].as_str();
        proof {
            assert(lv.skip(k as int)[0] == line@);
            assert(lv.skip(k as int).drop_first() =~= lv.skip(k as int + 1));
        }
        if str_starts_with(line, "ID=") {
            proof {
                reveal_strlit("ID=");
            }
            let n = line.unicode_len();
            let rest = line.substring_char(3, n);
            proof {
                assert(rest@ =~= line@.skip("ID="@.len() as int));
            }
            return Some(strip_char_str(rest, '"'));
        }
        k = k + 1;
    }
    None
}

/// The distribution a machine runs, from its os-release file (`None` when the file
/// could not be read). Falls back to "artix".
pub open spec fn distro_of(os_release: Option<Seq<char>>) -> Seq<char> {
    match os_release {
        Some(c) => match os_release_id(lines(c)) {
            Some(id) => id,
            None => "artix"@,
        },
        None => "artix"@,
    }
}

/// The distribution to filter the catalog for: the `ID=` of the os-release text,
/// or "artix" when the file could not be read or has no `ID=` line.
pub fn detect_distro(os_release: Option<&str>) -> (r: String)
    ensures
        r@ == distro_of(match os_release {
            Some(c) => Some(c@),
            None => None,
        }),
{
    match os_release {
        Some(c) => match distro_id(c) {
            Some(id) => id,
            None => String::from_str("artix"),
        },
        None => String::from_str("artix"),
    }
}

/// The entry is meant for `distro`.
pub open spec fn offered_for(e: CatalogEntry, distro: Seq<char>) -> bool {
    match e.distros {
        None => true,
        Some(ds) => views(ds@).contains(distro),
    }
}

/// The (name, description) pairs of the entries offered for `distro`, in catalog order.
pub open spec fn offered(cat: Seq<(String, CatalogEntry)>, distro: Seq<char>) -> Seq<(Seq<char>, Seq<char>)>
    decreases cat.len(),
{
    if cat.len() == 0 {
        Seq::empty()
    } else if offered_for(cat.last().1, distro) {
        offered(cat.drop_last(), distro).push((cat.last().0@, cat.last().1.description@))
    } else {
        offered(cat.drop_last(), distro)
    }
}

/// `s` padded with spaces to at least `width` characters.
pub open spec fn pad_to(s: Seq<char>, width: nat) -> Seq<char> {
    if s.len() >= width {
        s
    } else {
        s + Seq::new((width - s.len()) as nat, |i: int| ' ')
    }
}

/// A catalog listing line: the name in a 24-wide column, then the description.
pub open spec fn listing_line(p: (Seq<char>, Seq<char>)) -> Seq<char> {
    pad_to(p.0, 24) + " "@ + p.1
}

/// Pads a string with spaces to at least `width` characters.
fn pad_str(s: &str, width: usize) -> (r: String)
    ensures
        r@ == pad_to(s@, width as nat),
{
    let mut out = String::from_str(s);
    let n = s.unicode_len();
    let mut k: usize = n;
    proof {
        reveal_strlit(" ");
    }
    while k < width
        invariant
            n == s@.len(),
            n <= k <= width || (k == n && n >= width),
            out@ == s@ + Seq::new((k - n) as nat, |i: int| ' '),
        decreases width - k,
    {
        out.append(" ");
        proof {
            reveal_strlit(" ");
            assert(out@ =~= s@ + Seq::new((k + 1 - n) as nat, |i: int| ' '));
        }
        k = k + 1;
    }
    proof {
        if n >= width {
            assert(out@ =~= s@);
        } else {
            assert(out@ =~= pad_to(s@, width as nat));
        }
    }
    out
}

/// The lines `flint-ctl get --list` prints: the catalog entries offered for
/// `distro`, by name, each as its name in a 24-wide column and its description.
pub fn catalog_listing(catalog: &Vec<(String, CatalogEntry)>, distro: &str) -> (r: Vec<String>)
    ensures
        views(r@) == by_name(offered(catalog@, distro@)).map_values(|p: (Seq<char>, Seq<char>)| listing_line(p)),
{
    let mut pairs: Vec<(String, String)> = Vec::new();
    let mut k: usize = 0;
    while k < catalog.len()
        invariant
            k <= catalog@.len(),
            pairs@.map_values(|p: (String, String)| pair_view(p)) == offered(catalog@.take(k as int), distro@),
        decreases catalog@.len() - k,
    {
        let e = &catalog[k].1;
        let shown = match &e.distros {
            None => true,
            Some(ds) => crate::text::vec_contains_str(ds, distro),
        };
        proof {
            assert(catalog@.take(k as int + 1).drop_last() =~= catalog@.take(k as int));
            assert(catalog@.take(k as int + 1).last() == catalog@[k as int]);
        }
        if shown {
            let ghost before = pairs@;
            pairs.push((catalog[k].0.clone(), e.description.clone()));
            proof {
                assert(pairs@.map_values(|p: (String, String)| pair_view(p)) =~= before.map_values(
                    |p: (String, String)| pair_view(p),
                ).push((catalog@[k as int].0@, catalog@[k as int].1.description@)));
            }
        }
        k = k + 1;
    }
    assert(catalog@.take(catalog@.len() as int) =~= catalog@);
    let sorted = sort_by_name(&pairs);
    let ghost sv = sorted@.map_values(|p: (String, String)| pair_view(p));
    let mut out: Vec<String> = Vec::new();
    let mut q: usize = 0;
    while q < sorted.len()
        invariant
            q <= sorted@.len(),
            sv == sorted@.map_values(|p: (String, String)| pair_view(p)),
            views(out@) == sv.take(q as int).map_values(|p: (Seq<char>, Seq<char>)| listing_line(p)),
        decreases sorted@.len() - q,
    {
        let mut line = pad_str(sorted[q].0.as_str(), 24);
        line.append(" ");
        line.append(sorted[q].1.as_str());
        let ghost before = views(out@);
        out.push(line);
        proof {
            assert(sv[q as int] == pair_view(sorted@[q as int]));
            assert(sv.take(q as int + 1) =~= sv.take(q as int).push(sv[q as int]));
            assert(views(out@) =~= before.push(listing_line(sv[q as int])));
        }
        q = q + 1;
    }
    assert(sv.take(sorted@.len() as int) =~= sv);
    out
}

} // verus!
