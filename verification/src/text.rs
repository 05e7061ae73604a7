use vstd::prelude::*;
use vstd::std_specs::iter::IteratorSpec;

verus! {

/// The characters of `s`, one by one.
pub fn chars_of(s: &str) -> (r: Vec<char>)
    ensures
        r@ == s@,
{
    let mut out: Vec<char> = Vec::new();
    let mut it = s.chars();
    let ghost all = s@;
    proof {
        broadcast use vstd::string::group_string_axioms;
    }
    loop
        invariant
            it.remaining() == all.skip(out@.len() as int) ,
            out@ == all.take(out@.len() as int),
            out@.len() <= all.len(),
            it.obeys_prophetic_iter_laws(),
        ensures
            out@ == all,
        decreases all.len() - out@.len(),
    {
        let ghost before = it;
        match it.next() {
            Some(c) => {
                proof {
                    broadcast use vstd::string::group_string_axioms;
                }
                assert(all.take(out@.len() as int + 1) == all.take(out@.len() as int).push(c));
                out.push(c);
            },
            None => {
                assert(all.skip(out@.len() as int).len() == 0);
                assert(out@ == all);
                break;
            },
        }
    }
    out
}

/// Strict lexicographic order on character sequences; for strings this is the
/// order in which Rust compares them.
pub open spec fn lex_lt(a: Seq<char>, b: Seq<char>) -> bool
    decreases a.len(),
{
    if a.len() == 0 {
        b.len() > 0
    } else if b.len() == 0 {
        false
    } else if (a[0] as int) < (b[0] as int) {
        true
    } else if a[0] == b[0] {
        lex_lt(a.drop_first(), b.drop_first())
    } else {
        false
    }
}

} // verus!

verus! {

pub proof fn lemma_lex_irreflexive(a: Seq<char>)
    ensures
        !lex_lt(a, a),
    decreases a.len(),
{
    if a.len() > 0 {
        lemma_lex_irreflexive(a.drop_first());
    }
}

pub proof fn lemma_lex_asymmetric(a: Seq<char>, b: Seq<char>)
    requires
        lex_lt(a, b),
    ensures
        !lex_lt(b, a),
    decreases a.len(),
{
    if a.len() > 0 && b.len() > 0 && a[0] == b[0] {
        lemma_lex_asymmetric(a.drop_first(), b.drop_first());
    }
}

pub proof fn lemma_lex_transitive(a: Seq<char>, b: Seq<char>, c: Seq<char>)
    requires
        lex_lt(a, b),
        lex_lt(b, c),
    ensures
        lex_lt(a, c),
    decreases a.len(),
{
    if a.len() > 0 && b.len() > 0 && c.len() > 0 && a[0] == b[0] && b[0] == c[0] {
        lemma_lex_transitive(a.drop_first(), b.drop_first(), c.drop_first());
    }
}

pub proof fn lemma_lex_total(a: Seq<char>, b: Seq<char>)
    requires
        a != b,
    ensures
        lex_lt(a, b) || lex_lt(b, a),
    decreases a.len(),
{
    if a.len() > 0 && b.len() > 0 && a[0] == b[0] {
        if a.drop_first() == b.drop_first() {
            assert(a =~= seq![a[0]] + a.drop_first());
            assert(b =~= seq![b[0]] + b.drop_first());
        }
        lemma_lex_total(a.drop_first(), b.drop_first());
    } else if a.len() > 0 && b.len() > 0 {
        assert((a[0] as int) != (b[0] as int));
    } else if a.len() == 0 && b.len() == 0 {
        assert(a =~= b);
    }
}

/// Compares two character sequences in lexicographic order.
pub fn chars_lt(a: &Vec<char>, b: &Vec<char>) -> (r: bool)
    ensures
        r == lex_lt(a@, b@),
{
    let mut i: usize = 0;
    assert(a@.skip(0) =~= a@);
    assert(b@.skip(0) =~= b@);
    while i < a.len() && i < b.len()
        invariant
            i <= a@.len(),
            i <= b@.len(),
            lex_lt(a@, b@) == lex_lt(a@.skip(i as int), b@.skip(i as int)),
        decreases a@.len() - i,
    {
        let x = a[i];
        let y = b[i];
        if x < y {
            return true;
        } else if x != y {
            return false;
        }
        assert(a@.skip(i as int).drop_first() =~= a@.skip(i as int + 1));
        assert(b@.skip(i as int).drop_first() =~= b@.skip(i as int + 1));
        i = i + 1;
    }
    i < b.len()
}

/// Compares two strings in the order Rust's `Ord` for `str` uses.
pub fn str_lt(a: &str, b: &str) -> (r: bool)
    ensures
        r == lex_lt(a@, b@),
{
    let ca = chars_of(a);
    let cb = chars_of(b);
    chars_lt(&ca, &cb)
}

/// The character sequences of a vector of strings.
pub open spec fn views(v: Seq<String>) -> Seq<Seq<char>> {
    v.map_values(|s: String| s@)
}

/// Whether `s` is one of the strings in `v`.
pub fn vec_contains_str(v: &Vec<String>, s: &str) -> (r: bool)
    ensures
        r == views(v@).contains(s@),
{
    let mut k: usize = 0;
    while k < v.len()
        invariant
            k <= v@.len(),
            forall|q: int| 0 <= q < k ==> #[trigger] v@[q]@ != s@,
        decreases v@.len() - k,
    {
        if str_eq(v[k].as_str(), s) {
            assert(views(v@)[k as int] == s@);
            return true;
        }
        k = k + 1;
    }
    proof {
        if views(v@).contains(s@) {
            let q = choose|q: int| 0 <= q < views(v@).len() && views(v@)[q] == s@;
            assert(v@[q]@ == s@);
        }
    }
    false
}

/// `s` with every repetition of an earlier element left out.
pub open spec fn distinct_in_order(s: Seq<Seq<char>>) -> Seq<Seq<char>>
    decreases s.len(),
{
    if s.len() == 0 {
        s
    } else if s.drop_last().contains(s.last()) {
        distinct_in_order(s.drop_last())
    } else {
        distinct_in_order(s.drop_last()).push(s.last())
    }
}

/// `distinct_in_order(s)` holds each element of `s` exactly once.
pub proof fn lemma_distinct_in_order(s: Seq<Seq<char>>)
    ensures
        distinct_in_order(s).no_duplicates(),
        forall|x: Seq<char>| #[trigger] distinct_in_order(s).contains(x) <==> s.contains(x),
    decreases s.len(),
{
    if s.len() > 0 {
        let p = s.drop_last();
        lemma_distinct_in_order(p);
        let dp = distinct_in_order(p);
        assert forall|x: Seq<char>| p.contains(x) implies s.contains(x) by {
            let q = choose|q: int| 0 <= q < p.len() && p[q] == x;
            assert(s[q] == x);
        }
        assert forall|x: Seq<char>| s.contains(x) implies (p.contains(x) || x == s.last()) by {
            let q = choose|q: int| 0 <= q < s.len() && s[q] == x;
            if q < s.len() - 1 {
                assert(p[q] == x);
            }
        }
        assert(s.contains(s.last())) by {
            assert(s[s.len() - 1] == s.last());
        }
        if !p.contains(s.last()) {
            let ds = dp.push(s.last());
            assert forall|x: Seq<char>| ds.contains(x) <==> (dp.contains(x) || x == s.last()) by {
                if ds.contains(x) {
                    let q = choose|q: int| 0 <= q < ds.len() && ds[q] == x;
                    if q < dp.len() {
                        assert(dp[q] == x);
                    }
                }
                if dp.contains(x) {
                    let q = choose|q: int| 0 <= q < dp.len() && dp[q] == x;
                    assert(ds[q] == x);
                }
                if x == s.last() {
                    assert(ds[dp.len() as int] == x);
                }
            }
            assert forall|a: int, b: int| 0 <= a < b < ds.len() implies ds[a] != ds[b] by {
                if b == dp.len() {
                    assert(dp.contains(ds[a]));
                }
            }
        }
    }
}

/// Every element precedes every later element in lexicographic order.
pub open spec fn strictly_sorted(s: Seq<Seq<char>>) -> bool {
    forall|i: int, j: int| 0 <= i < j < s.len() ==> lex_lt(#[trigger] s[i], #[trigger] s[j])
}

/// Inserts `s` into a strictly sorted vector at the place that keeps it sorted.
pub fn insert_sorted(v: &mut Vec<String>, s: String)
    requires
        strictly_sorted(views(old(v)@)),
        !views(old(v)@).contains(s@),
    ensures
        strictly_sorted(views(final(v)@)),
        views(final(v)@).to_set() == views(old(v)@).to_set().insert(s@),
        final(v)@.len() == old(v)@.len() + 1,
{
    let ghost old_v = views(v@);
    let mut k: usize = 0;
    while k < v.len()
        invariant
            k <= v@.len(),
            views(v@) == old_v,
            forall|j: int| 0 <= j < k ==> lex_lt(#[trigger] old_v[j], s@),
            strictly_sorted(old_v),
            !old_v.contains(s@),
        ensures
            k <= v@.len(),
            views(v@) == old_v,
            forall|j: int| 0 <= j < k ==> lex_lt(#[trigger] old_v[j], s@),
            k < v@.len() ==> lex_lt(s@, old_v[k as int]),
        decreases v@.len() - k,
    {
        if str_lt(s.as_str(), v[k].as_str()) {
            assert(old_v[k as int] == v@[k as int]@);
            break;
        }
        proof {
            assert(old_v[k as int] == v@[k as int]@);
            if old_v[k as int] == s@ {
                assert(old_v.contains(s@));
            }
            lemma_lex_total(old_v[k as int], s@);
        }
        k = k + 1;
    }
    let ghost kk = k as int;
    proof {
        if kk < old_v.len() {
            assert(old_v[kk] == v@[kk]@);
        }
    }
    // k is the first position whose element follows s
    assert(kk < old_v.len() ==> lex_lt(s@, old_v[kk]));
    v.insert(k, s);
    let ghost nv = views(v@);
    assert(nv =~= old_v.take(kk).push(s@) + old_v.skip(kk)) by {
        assert forall|j: int| 0 <= j < nv.len() implies nv[j] == (old_v.take(kk).push(s@) + old_v.skip(kk))[j] by {
            if j < kk {
            } else if j == kk {
            } else {
            }
        }
    }
    assert forall|i: int, j: int| 0 <= i < j < nv.len() implies lex_lt(#[trigger] nv[i], #[trigger] nv[j]) by {
        if i < kk && j < kk {
        } else if i < kk && j == kk {
        } else if i < kk && j > kk {
            assert(nv[i] == old_v[i]);
            assert(nv[j] == old_v[j - 1]);
        } else if i == kk {
            assert(nv[j] == old_v[j - 1]);
            if j - 1 > kk {
                lemma_lex_transitive(s@, old_v[kk], old_v[j - 1]);
            }
        } else {
            assert(nv[i] == old_v[i - 1]);
            assert(nv[j] == old_v[j - 1]);
        }
    }
    assert(nv.to_set() =~= old_v.to_set().insert(s@)) by {
        assert forall|x: Seq<char>| nv.to_set().contains(x) implies old_v.to_set().insert(s@).contains(x) by {
            let j = choose|j: int| 0 <= j < nv.len() && nv[j] == x;
            if j < kk {
                assert(old_v[j] == x);
            } else if j > kk {
                assert(old_v[j - 1] == x);
            }
        }
        assert forall|x: Seq<char>| old_v.to_set().insert(s@).contains(x) implies nv.to_set().contains(x) by {
            if x == s@ {
                assert(nv[kk] == x);
            } else {
                let j = choose|j: int| 0 <= j < old_v.len() && old_v[j] == x;
                if j < kk {
                    assert(nv[j] == x);
                } else {
                    assert(nv[j + 1] == x);
                }
            }
        }
    }
}

/// Sorts distinct strings into ascending order.
pub fn sort_strings(v: Vec<String>) -> (r: Vec<String>)
    requires
        views(v@).no_duplicates(),
    ensures
        strictly_sorted(views(r@)),
        views(r@).to_set() == views(v@).to_set(),
        r@.len() == v@.len(),
{
    let mut out: Vec<String> = Vec::new();
    let mut i: usize = 0;
    while i < v.len()
        invariant
            i <= v@.len(),
            views(v@).no_duplicates(),
            strictly_sorted(views(out@)),
            views(out@).to_set() == views(v@).take(i as int).to_set(),
            out@.len() == i,
        decreases v@.len() - i,
    {
        let s = v[i].clone();
        proof {
            let vv = views(v@);
            if views(out@).contains(s@) {
                let j = choose|j: int| 0 <= j < views(out@).len() && views(out@)[j] == s@;
                assert(views(out@).to_set().contains(s@));
                assert(vv.take(i as int).to_set().contains(s@));
                let k = choose|k: int| 0 <= k < vv.take(i as int).len() && vv.take(i as int)[k] == s@;
                assert(vv[k] == vv[i as int]);
            }
            assert(vv.take(i as int + 1) =~= vv.take(i as int).push(s@));
            vv.take(i as int).lemma_push_to_set_commute(s@);
        }
        insert_sorted(&mut out, s);
        i = i + 1;
    }
    assert(views(v@).take(v@.len() as int) =~= views(v@));
    out
}

} // verus!

verus! {

/// `p` is a prefix of `s`.
pub open spec fn has_prefix(s: Seq<char>, p: Seq<char>) -> bool {
    p.len() <= s.len() && s.take(p.len() as int) == p
}

/// `s` begins with `p`.
pub fn str_starts_with(s: &str, p: &str) -> (r: bool)
    ensures
        r == has_prefix(s@, p@),
{
    let cs = chars_of(s);
    let cp = chars_of(p);
    if cp.len() > cs.len() {
        return false;
    }
    let mut i: usize = 0;
    while i < cp.len()
        invariant
            cs@ == s@,
            cp@ == p@,
            cp@.len() <= cs@.len(),
            i <= cp@.len(),
            cs@.take(i as int) == cp@.take(i as int),
        decreases cp@.len() - i,
    {
        if cs[i] != cp[i] {
            assert(!has_prefix(s@, p@)) by {
                let t = cs@.take(cp@.len() as int);
                assert(t[i as int] == cs@[i as int]);
                if t == cp@ {
                    assert(t[i as int] == cp@[i as int]);
                }
            }
            return false;
        }
        assert(cs@.take(i as int + 1) =~= cs@.take(i as int).push(cs@[i as int]));
        assert(cp@.take(i as int + 1) =~= cp@.take(i as int).push(cp@[i as int]));
        i = i + 1;
    }
    assert(cp@.take(cp@.len() as int) =~= cp@);
    true
}

/// `needle` occurs in `hay` starting at position `i`.
pub open spec fn occurs_at(hay: Seq<char>, needle: Seq<char>, i: int) -> bool {
    0 <= i && i + needle.len() <= hay.len() && hay.subrange(i, i + needle.len()) == needle
}

/// `needle` occurs somewhere in `hay`.
pub open spec fn contains_seq(hay: Seq<char>, needle: Seq<char>) -> bool {
    exists|i: int| occurs_at(hay, needle, i)
}

fn occurs_at_exec(hay: &Vec<char>, needle: &Vec<char>, i: usize) -> (r: bool)
    requires
        i + needle@.len() <= hay@.len(),
    ensures
        r == occurs_at(hay@, needle@, i as int),
{
    let hl = hay.len();
    let mut k: usize = 0;
    while k < needle.len()
        invariant
            hl == hay@.len(),
            i + needle@.len() <= hay@.len(),
            k <= needle@.len(),
            forall|m: int| 0 <= m < k ==> hay@[i + m] == needle@[m],
        decreases needle@.len() - k,
    {
        if hay[i + k] != needle[k] {
            assert(hay@.subrange(i as int, i + needle@.len())[k as int] != needle@[k as int]);
            return false;
        }
        k = k + 1;
    }
    assert(hay@.subrange(i as int, i + needle@.len()) =~= needle@);
    true
}

/// Substring search over character vectors.
pub fn chars_contain(hay: &Vec<char>, needle: &Vec<char>) -> (r: bool)
    ensures
        r == contains_seq(hay@, needle@),
{
    if needle.len() > hay.len() {
        return false;
    }
    let last = hay.len() - needle.len();
    let mut i: usize = 0;
    loop
        invariant
            last + needle@.len() == hay@.len(),
            i <= last,
            forall|j: int| 0 <= j < i ==> !occurs_at(hay@, needle@, j),
        ensures
            forall|j: int| 0 <= j <= last ==> !occurs_at(hay@, needle@, j),
        decreases last - i,
    {
        if occurs_at_exec(hay, needle, i) {
            return true;
        }
        if i == last {
            break;
        }
        i = i + 1;
    }
    false
}

/// Substring search.
pub fn str_contains(hay: &str, needle: &str) -> (r: bool)
    ensures
        r == contains_seq(hay@, needle@),
{
    let h = chars_of(hay);
    let n = chars_of(needle);
    chars_contain(&h, &n)
}

} // verus!

verus! {

/// The parts joined with `sep` between consecutive parts.
pub open spec fn join(parts: Seq<Seq<char>>, sep: Seq<char>) -> Seq<char>
    decreases parts.len(),
{
    if parts.len() == 0 {
        Seq::empty()
    } else if parts.len() == 1 {
        parts[0]
    } else {
        join(parts.drop_last(), sep) + sep + parts.last()
    }
}

/// Joins strings with a separator.
pub fn join_strings(parts: &Vec<String>, sep: &str) -> (r: String)
    ensures
        r@ == join(views(parts@), sep@),
{
    let mut out = String::new();
    let mut i: usize = 0;
    while i < parts.len()
        invariant
            i <= parts@.len(),
            out@ == join(views(parts@).take(i as int), sep@),
        decreases parts@.len() - i,
    {
        let ghost prefix = views(parts@).take(i as int);
        let ghost next = views(parts@).take(i as int + 1);
        assert(next.drop_last() =~= prefix);
        assert(next.last() == parts@[i as int]@);
        if i > 0 {
            out.append(sep);
        } else {
            assert(prefix.len() == 0);
        }
        out.append(parts[i].as_str());
        i = i + 1;
    }
    assert(views(parts@).take(parts@.len() as int) =~= views(parts@));
    out
}

} // verus!

verus! {

/// String equality.
pub fn str_eq(a: &str, b: &str) -> (r: bool)
    ensures
        r == (a@ == b@),
{
    let ca = chars_of(a);
    let cb = chars_of(b);
    if ca.len() != cb.len() {
        return false;
    }
    let mut i: usize = 0;
    while i < ca.len()
        invariant
            ca@ == a@,
            cb@ == b@,
            ca@.len() == cb@.len(),
            i <= ca@.len(),
            forall|j: int| 0 <= j < i ==> ca@[j] == cb@[j],
        decreases ca@.len() - i,
    {
        if ca[i] != cb[i] {
            assert(a@[i as int] != b@[i as int]);
            return false;
        }
        i = i + 1;
    }
    assert(ca@ =~= cb@);
    true
}

} // verus!

verus! {

/// The characters with the Unicode `White_Space` property, which is what
/// `char::is_whitespace` tests.
pub open spec fn is_whitespace(c: char) -> bool {
    let u = c as int;
    ||| 0x09 <= u <= 0x0D
    ||| u == 0x20
    ||| u == 0x85
    ||| u == 0xA0
    ||| u == 0x1680
    ||| 0x2000 <= u <= 0x200A
    ||| u == 0x2028
    ||| u == 0x2029
    ||| u == 0x202F
    ||| u == 0x205F
    ||| u == 0x3000
}

/// Whitespace test on one character.
pub fn char_is_whitespace(c: char) -> (r: bool)
    ensures
        r == is_whitespace(c),
{
    let u = c as u32;
    (0x09 <= u && u <= 0x0D) || u == 0x20 || u == 0x85 || u == 0xA0 || u == 0x1680 || (0x2000 <= u
        && u <= 0x200A) || u == 0x2028 || u == 0x2029 || u == 0x202F || u == 0x205F || u == 0x3000
}

/// The whitespace-separated words of `s[i..]`, where `cur` is the part of the
/// current word already read.
pub open spec fn words_from(s: Seq<char>, i: int, cur: Seq<char>) -> Seq<Seq<char>>
    decreases s.len() - i,
{
    if i >= s.len() || i < 0 {
        if cur.len() > 0 {
            seq![cur]
        } else {
            Seq::empty()
        }
    } else if is_whitespace(s[i]) {
        (if cur.len() > 0 {
            seq![cur]
        } else {
            Seq::empty()
        }) + words_from(s, i + 1, Seq::empty())
    } else {
        words_from(s, i + 1, cur.push(s[i]))
    }
}

/// The maximal runs of non-whitespace characters, as `str::split_whitespace` yields them.
pub open spec fn words(s: Seq<char>) -> Seq<Seq<char>> {
    words_from(s, 0, Seq::empty())
}

/// Splits a string into its whitespace-separated words.
pub fn split_whitespace(s: &str) -> (r: Vec<String>)
    ensures
        views(r@) == words(s@),
{
    let c = chars_of(s);
    let n = c.len();
    let mut out: Vec<String> = Vec::new();
    let mut start: usize = 0;
    let mut i: usize = 0;
    assert(s@.subrange(0, 0) =~= Seq::<char>::empty());
    while i < n
        invariant
            c@ == s@,
            n == s@.len(),
            start <= i <= n,
            views(out@) + words_from(s@, i as int, s@.subrange(start as int, i as int)) == words(s@),
        decreases n - i,
    {
        let ghost cur = s@.subrange(start as int, i as int);
        if char_is_whitespace(c[i]) {
            if start < i {
                let w = s.substring_char(start, i);
                let ghost before = views(out@);
                out.push(String::from_str(w));
                assert(views(out@) =~= before.push(cur));
                assert(before + (seq![cur] + words_from(s@, i as int + 1, Seq::empty())) =~= views(out@)
                    + words_from(s@, i as int + 1, Seq::empty()));
            } else {
                assert(cur.len() == 0);
                assert(Seq::<Seq<char>>::empty() + words_from(s@, i as int + 1, Seq::empty()) =~= words_from(
                    s@,
                    i as int + 1,
                    Seq::empty(),
                ));
            }
            start = i + 1;
            assert(s@.subrange(start as int, i as int + 1) =~= Seq::<char>::empty());
        } else {
            assert(s@.subrange(start as int, i as int + 1) =~= cur.push(s@[i as int]));
        }
        i = i + 1;
    }
    let ghost cur = s@.subrange(start as int, n as int);
    if start < n {
        let w = s.substring_char(start, n);
        let ghost before = views(out@);
        out.push(String::from_str(w));
        assert(views(out@) =~= before.push(cur));
        assert(before + seq![cur] =~= views(out@));
    } else {
        assert(views(out@) + Seq::<Seq<char>>::empty() =~= views(out@));
    }
    out
}

/// Drops one trailing carriage return.
pub open spec fn strip_cr(x: Seq<char>) -> Seq<char> {
    if x.len() > 0 && x.last() == '\r' {
        x.drop_last()
    } else {
        x
    }
}

/// The lines of `s[start..]`, scanning from `i`.
pub open spec fn lines_from(s: Seq<char>, start: int, i: int) -> Seq<Seq<char>>
    decreases s.len() - i,
{
    if i >= s.len() || i < 0 {
        if 0 <= start < s.len() {
            seq![s.subrange(start, s.len() as int)]
        } else {
            Seq::empty()
        }
    } else if s[i] == '\n' {
        seq![strip_cr(s.subrange(start, i))] + lines_from(s, i + 1, i + 1)
    } else {
        lines_from(s, start, i + 1)
    }
}

/// The lines of `s`, as `str::lines` yields them: split at `\n`, a `\r` right
/// before the `\n` dropped, no empty line after a final `\n`.
pub open spec fn lines(s: Seq<char>) -> Seq<Seq<char>> {
    lines_from(s, 0, 0)
}

/// Splits a string into lines.
pub fn split_lines(s: &str) -> (r: Vec<String>)
    ensures
        views(r@) == lines(s@),
{
    let c = chars_of(s);
    let n = c.len();
    let mut out: Vec<String> = Vec::new();
    let mut start: usize = 0;
    let mut i: usize = 0;
    while i < n
        invariant
            c@ == s@,
            n == s@.len(),
            start <= i <= n,
            views(out@) + lines_from(s@, start as int, i as int) == lines(s@),
        decreases n - i,
    {
        if c[i] == '\n' {
            let ghost piece = s@.subrange(start as int, i as int);
            let end = if i > start && c[i - 1] == '\r' { i - 1 } else { i };
            let w = s.substring_char(start, end);
            assert(w@ == strip_cr(piece)) by {
                if i > start && c@[i - 1] == '\r' {
                    assert(piece.last() == '\r');
                    assert(w@ =~= piece.drop_last());
                } else {
                    assert(w@ =~= piece);
                }
            }
            let ghost before = views(out@);
            out.push(String::from_str(w));
            assert(views(out@) =~= before.push(strip_cr(piece)));
            assert(before + (seq![strip_cr(piece)] + lines_from(s@, i as int + 1, i as int + 1)) =~= views(out@)
                + lines_from(s@, i as int + 1, i as int + 1));
            start = i + 1;
        }
        i = i + 1;
    }
    if start < n {
        let w = s.substring_char(start, n);
        let ghost before = views(out@);
        out.push(String::from_str(w));
        assert(views(out@) =~= before.push(s@.subrange(start as int, n as int)));
        assert(before + seq![s@.subrange(start as int, n as int)] =~= views(out@));
    } else {
        assert(views(out@) + Seq::<Seq<char>>::empty() =~= views(out@));
    }
    out
}

} // verus!

verus! {

/// The ascending sequence of the strings in `s` (for a finite set).
pub open spec fn sorted_seq(s: Set<Seq<char>>) -> Seq<Seq<char>> {
    choose|q: Seq<Seq<char>>| strictly_sorted(q) && q.to_set() == s
}

/// Two ascending sequences with the same elements are equal.
pub proof fn lemma_sorted_unique(q1: Seq<Seq<char>>, q2: Seq<Seq<char>>)
    requires
        strictly_sorted(q1),
        strictly_sorted(q2),
        q1.to_set() == q2.to_set(),
    ensures
        q1 == q2,
    decreases q1.len() + q2.len(),
{
    if q1.len() == 0 {
        if q2.len() > 0 {
            assert(q2.to_set().contains(q2[0]));
        }
        assert(q2.len() == 0);
        assert(q1 =~= q2);
    } else if q2.len() == 0 {
        assert(q1.to_set().contains(q1[0]));
    } else {
        assert(q1.to_set().contains(q1[0]));
        assert(q2.to_set().contains(q2[0]));
        let k = choose|k: int| 0 <= k < q2.len() && q2[k] == q1[0];
        let m = choose|m: int| 0 <= m < q1.len() && q1[m] == q2[0];
        if k > 0 {
            assert(lex_lt(q2[0], q2[k]));
            if m > 0 {
                assert(lex_lt(q1[0], q1[m]));
                lemma_lex_asymmetric(q1[0], q1[m]);
            } else {
                lemma_lex_irreflexive(q1[0]);
            }
        }
        assert(q1[0] == q2[0]);
        let t1 = q1.drop_first();
        let t2 = q2.drop_first();
        assert(t1.to_set() =~= t2.to_set()) by {
            assert forall|x: Seq<char>| t1.to_set().contains(x) implies t2.to_set().contains(x) by {
                let a = choose|a: int| 0 <= a < t1.len() && t1[a] == x;
                assert(q1[a + 1] == x);
                assert(lex_lt(q1[0], x));
                lemma_lex_irreflexive(x);
                assert(q2.to_set().contains(x));
                let b = choose|b: int| 0 <= b < q2.len() && q2[b] == x;
                assert(b != 0);
                assert(t2[b - 1] == x);
            }
            assert forall|x: Seq<char>| t2.to_set().contains(x) implies t1.to_set().contains(x) by {
                let a = choose|a: int| 0 <= a < t2.len() && t2[a] == x;
                assert(q2[a + 1] == x);
                assert(lex_lt(q2[0], x));
                lemma_lex_irreflexive(x);
                assert(q1.to_set().contains(x));
                let b = choose|b: int| 0 <= b < q1.len() && q1[b] == x;
                assert(b != 0);
                assert(t1[b - 1] == x);
            }
        }
        assert(strictly_sorted(t1)) by {
            assert forall|i: int, j: int| 0 <= i < j < t1.len() implies lex_lt(#[trigger] t1[i], #[trigger] t1[j]) by {
                assert(t1[i] == q1[i + 1]);
                assert(t1[j] == q1[j + 1]);
            }
        }
        assert(strictly_sorted(t2)) by {
            assert forall|i: int, j: int| 0 <= i < j < t2.len() implies lex_lt(#[trigger] t2[i], #[trigger] t2[j]) by {
                assert(t2[i] == q2[i + 1]);
                assert(t2[j] == q2[j + 1]);
            }
        }
        lemma_sorted_unique(t1, t2);
        assert(q1 =~= q2) by {
            assert forall|i: int| 0 <= i < q1.len() implies q1[i] == q2[i] by {
                if i > 0 {
                    assert(q1[i] == t1[i - 1]);
                    assert(q2[i] == t2[i - 1]);
                }
            }
        }
    }
}

/// An ascending sequence is the sorted form of its elements.
pub proof fn lemma_is_sorted_seq(q: Seq<Seq<char>>)
    requires
        strictly_sorted(q),
    ensures
        sorted_seq(q.to_set()) == q,
{
    let c = sorted_seq(q.to_set());
    assert(strictly_sorted(c) && c.to_set() == q.to_set());
    lemma_sorted_unique(c, q);
}

} // verus!

verus! {

/// `x` inserted into `r` after every element that does not exceed it, scanning
/// from the back.
pub open spec fn insert_in_order(r: Seq<Seq<char>>, x: Seq<char>) -> Seq<Seq<char>>
    decreases r.len(),
{
    if r.len() == 0 {
        seq![x]
    } else if lex_lt(x, r.last()) {
        insert_in_order(r.drop_last(), x).push(r.last())
    } else {
        r.push(x)
    }
}

/// The strings of `s` in ascending order, repeats kept.
pub open spec fn in_order(s: Seq<Seq<char>>) -> Seq<Seq<char>>
    decreases s.len(),
{
    if s.len() == 0 {
        s
    } else {
        insert_in_order(in_order(s.drop_last()), s.last())
    }
}

/// Inserting at the first place from the back where the element before does not
/// exceed `x` is `insert_in_order`.
proof fn lemma_insert_in_order_at(r: Seq<Seq<char>>, x: Seq<char>, p: int)
    requires
        0 <= p <= r.len(),
        forall|q: int| p <= q < r.len() ==> lex_lt(x, #[trigger] r[q]),
        p == 0 || !lex_lt(x, r[p - 1]),
    ensures
        insert_in_order(r, x) == r.insert(p, x),
    decreases r.len(),
{
    if r.len() == 0 {
        assert(r.insert(p, x) =~= seq![x]);
    } else if lex_lt(x, r.last()) {
        lemma_insert_in_order_at(r.drop_last(), x, p);
        assert(r.drop_last().insert(p, x).push(r.last()) =~= r.insert(p, x));
    } else {
        assert(p == r.len());
        assert(r.push(x) =~= r.insert(p, x));
    }
}

/// Sorts strings into ascending order, keeping repeats.
pub fn sort_in_order(v: &Vec<String>) -> (r: Vec<String>)
    ensures
        views(r@) == in_order(views(v@)),
{
    let mut out: Vec<String> = Vec::new();
    let mut i: usize = 0;
    while i < v.len()
        invariant
            i <= v@.len(),
            views(out@) == in_order(views(v@).take(i as int)),
        decreases v@.len() - i,
    {
        let x = v[i].clone();
        let mut p: usize = out.len();
        while p > 0 && str_lt(x.as_str(), out[p - 1].as_str())
            invariant
                p <= out@.len(),
                forall|q: int| p <= q < out@.len() ==> lex_lt(x@, #[trigger] out@[q]@),
            decreases p,
        {
            p = p - 1;
        }
        let ghost before = views(out@);
        proof {
            assert forall|q: int| p <= q < before.len() implies lex_lt(x@, #[trigger] before[q]) by {
                assert(before[q] == out@[q]@);
            }
            if p > 0 {
                assert(before[p - 1] == out@[p - 1]@);
            }
            lemma_insert_in_order_at(before, x@, p as int);
        }
        out.insert(p, x);
        proof {
            assert(views(out@) =~= before.insert(p as int, v@[i as int]@));
            assert(views(v@).take(i as int + 1).drop_last() =~= views(v@).take(i as int));
        }
        i = i + 1;
    }
    assert(views(v@).take(v@.len() as int) =~= views(v@));
    out
}

/// A (name, message) pair's character sequences.
pub open spec fn pair_view(p: (String, String)) -> (Seq<char>, Seq<char>) {
    (p.0@, p.1@)
}

/// `x` inserted into `r` after every pair whose name does not exceed its name,
/// scanning from the back.
pub open spec fn insert_by_name(r: Seq<(Seq<char>, Seq<char>)>, x: (Seq<char>, Seq<char>)) -> Seq<(Seq<char>, Seq<char>)>
    decreases r.len(),
{
    if r.len() == 0 {
        seq![x]
    } else if lex_lt(x.0, r.last().0) {
        insert_by_name(r.drop_last(), x).push(r.last())
    } else {
        r.push(x)
    }
}

/// The pairs of `s` ordered by name; pairs with equal names keep their order.
pub open spec fn by_name(s: Seq<(Seq<char>, Seq<char>)>) -> Seq<(Seq<char>, Seq<char>)>
    decreases s.len(),
{
    if s.len() == 0 {
        s
    } else {
        insert_by_name(by_name(s.drop_last()), s.last())
    }
}

proof fn lemma_insert_by_name_at(r: Seq<(Seq<char>, Seq<char>)>, x: (Seq<char>, Seq<char>), p: int)
    requires
        0 <= p <= r.len(),
        forall|q: int| p <= q < r.len() ==> lex_lt(x.0, #[trigger] r[q].0),
        p == 0 || !lex_lt(x.0, r[p - 1].0),
    ensures
        insert_by_name(r, x) == r.insert(p, x),
    decreases r.len(),
{
    if r.len() == 0 {
        assert(r.insert(p, x) =~= seq![x]);
    } else if lex_lt(x.0, r.last().0) {
        lemma_insert_by_name_at(r.drop_last(), x, p);
        assert(r.drop_last().insert(p, x).push(r.last()) =~= r.insert(p, x));
    } else {
        assert(p == r.len());
        assert(r.push(x) =~= r.insert(p, x));
    }
}

/// Sorts (name, message) pairs by name; pairs with equal names keep their order.
pub fn sort_by_name(v: &Vec<(String, String)>) -> (r: Vec<(String, String)>)
    ensures
        r@.map_values(|p: (String, String)| pair_view(p)) == by_name(v@.map_values(|p: (String, String)| pair_view(p))),
{
    let ghost vv = v@.map_values(|p: (String, String)| pair_view(p));
    let mut out: Vec<(String, String)> = Vec::new();
    let mut i: usize = 0;
    while i < v.len()
        invariant
            i <= v@.len(),
            vv == v@.map_values(|p: (String, String)| pair_view(p)),
            out@.map_values(|p: (String, String)| pair_view(p)) == by_name(vv.take(i as int)),
        decreases v@.len() - i,
    {
        let x = (v[i].0.clone(), v[i].1.clone());
        let mut p: usize = out.len();
        while p > 0 && str_lt(x.0.as_str(), out[p - 1].0.as_str())
            invariant
                p <= out@.len(),
                forall|q: int| p <= q < out@.len() ==> lex_lt(x.0@, #[trigger] out@[q].0@),
            decreases p,
        {
            p = p - 1;
        }
        let ghost before = out@.map_values(|p: (String, String)| pair_view(p));
        proof {
            assert forall|q: int| p <= q < before.len() implies lex_lt(pair_view(x).0, #[trigger] before[q].0) by {
                assert(before[q] == pair_view(out@[q]));
            }
            if p > 0 {
                assert(before[p - 1] == pair_view(out@[p - 1]));
            }
            lemma_insert_by_name_at(before, pair_view(x), p as int);
        }
        out.insert(p, x);
        proof {
            assert(pair_view(x) == vv[i as int]);
            assert(out@.map_values(|p: (String, String)| pair_view(p)) =~= before.insert(p as int, vv[i as int]));
            assert(vv.take(i as int + 1).drop_last() =~= vv.take(i as int));
        }
        i = i + 1;
    }
    assert(vv.take(v@.len() as int) =~= vv);
    out
}

} // verus!

verus! {

/// The decimal digits of `n`.
pub open spec fn decimal(n: nat) -> Seq<char>
    decreases n,
{
    if n < 10 {
        seq![digit_char(n)]
    } else {
        decimal(n / 10).push(digit_char(n % 10))
    }
}

/// The character of a digit below ten.
pub open spec fn digit_char(d: nat) -> char {
    if d == 0 { '0' } else if d == 1 { '1' } else if d == 2 { '2' } else if d == 3 { '3' } else if d == 4 { '4' }
    else if d == 5 { '5' } else if d == 6 { '6' } else if d == 7 { '7' } else if d == 8 { '8' } else { '9' }
}

fn digit(d: usize) -> (c: &'static str)
    requires
        d < 10,
    ensures
        c@ == seq![digit_char(d as nat)],
{
    proof {
        reveal_strlit("0");
        reveal_strlit("1");
        reveal_strlit("2");
        reveal_strlit("3");
        reveal_strlit("4");
        reveal_strlit("5");
        reveal_strlit("6");
        reveal_strlit("7");
        reveal_strlit("8");
        reveal_strlit("9");
    }
    if d == 0 { "0" } else if d == 1 { "1" } else if d == 2 { "2" } else if d == 3 { "3" } else if d == 4 { "4" }
    else if d == 5 { "5" } else if d == 6 { "6" } else if d == 7 { "7" } else if d == 8 { "8" } else { "9" }
}

/// `n` written in decimal.
pub fn decimal_string(n: usize) -> (r: String)
    ensures
        r@ == decimal(n as nat),
    decreases n,
{
    if n < 10 {
        String::from_str(digit(n))
    } else {
        let mut s = decimal_string(n / 10);
        s.append(digit(n % 10));
        s
    }
}

} // verus!

verus! {

/// `s` without its leading whitespace.
pub open spec fn trim_start(s: Seq<char>) -> Seq<char>
    decreases s.len(),
{
    if s.len() > 0 && is_whitespace(s[0]) {
        trim_start(s.drop_first())
    } else {
        s
    }
}

/// `s` without its trailing whitespace.
pub open spec fn trim_end(s: Seq<char>) -> Seq<char>
    decreases s.len(),
{
    if s.len() > 0 && is_whitespace(s.last()) {
        trim_end(s.drop_last())
    } else {
        s
    }
}

/// `s` without leading and trailing whitespace, as `str::trim` gives it.
pub open spec fn trim(s: Seq<char>) -> Seq<char> {
    trim_end(trim_start(s))
}

/// Removes leading and trailing whitespace.
pub fn trim_str(s: &str) -> (r: String)
    ensures
        r@ == trim(s@),
        r@ == trim_end(trim_start(s@)),
{
    let c = chars_of(s);
    let n = c.len();
    let mut a: usize = 0;
    assert(s@.skip(0) =~= s@);
    while a < n && char_is_whitespace(c[a])
        invariant
            c@ == s@,
            n == s@.len(),
            a <= n,
            trim_start(s@) == trim_start(s@.skip(a as int)),
        decreases n - a,
    {
        assert(s@.skip(a as int).drop_first() =~= s@.skip(a as int + 1));
        a = a + 1;
    }
    assert(trim_start(s@.skip(a as int)) == s@.skip(a as int));
    let mut b: usize = n;
    assert(s@.skip(a as int) =~= s@.subrange(a as int, n as int));
    while b > a && char_is_whitespace(c[b - 1])
        invariant
            c@ == s@,
            n == s@.len(),
            a <= b <= n,
            trim_end(s@.subrange(a as int, n as int)) == trim_end(s@.subrange(a as int, b as int)),
        decreases b,
    {
        assert(s@.subrange(a as int, b as int).drop_last() =~= s@.subrange(a as int, b as int - 1));
        b = b - 1;
    }
    assert(trim_end(s@.subrange(a as int, b as int)) == s@.subrange(a as int, b as int));
    let t = s.substring_char(a, b);
    String::from_str(t)
}

/// The pieces of `s[start..]` between occurrences of `sep`, scanning from `i`.
pub open spec fn pieces_from(s: Seq<char>, sep: char, start: int, i: int) -> Seq<Seq<char>>
    decreases s.len() - i,
{
    if i >= s.len() || i < 0 {
        seq![s.subrange(start, s.len() as int)]
    } else if s[i] == sep {
        seq![s.subrange(start, i)] + pieces_from(s, sep, i + 1, i + 1)
    } else {
        pieces_from(s, sep, start, i + 1)
    }
}

/// The pieces of `s` between occurrences of `sep`, as `str::split` with a character
/// yields them (an empty string gives one empty piece).
pub open spec fn pieces(s: Seq<char>, sep: char) -> Seq<Seq<char>> {
    pieces_from(s, sep, 0, 0)
}

/// Splits a string at every occurrence of `sep`.
pub fn split_on(s: &str, sep: char) -> (r: Vec<String>)
    ensures
        views(r@) == pieces(s@, sep),
{
    let c = chars_of(s);
    let n = c.len();
    let mut out: Vec<String> = Vec::new();
    let mut start: usize = 0;
    let mut i: usize = 0;
    while i < n
        invariant
            c@ == s@,
            n == s@.len(),
            start <= i <= n,
            views(out@) + pieces_from(s@, sep, start as int, i as int) == pieces(s@, sep),
        decreases n - i,
    {
        if c[i] == sep {
            let w = s.substring_char(start, i);
            let ghost before = views(out@);
            out.push(String::from_str(w));
            assert(views(out@) =~= before.push(s@.subrange(start as int, i as int)));
            assert(before + (seq![s@.subrange(start as int, i as int)] + pieces_from(s@, sep, i as int + 1, i as int + 1))
                =~= views(out@) + pieces_from(s@, sep, i as int + 1, i as int + 1));
            start = i + 1;
        }
        i = i + 1;
    }
    let w = s.substring_char(start, n);
    let ghost before = views(out@);
    out.push(String::from_str(w));
    assert(views(out@) =~= before + seq![s@.subrange(start as int, n as int)]);
    out
}

} // verus!

verus! {

/// No string comes after a later one.
pub open spec fn ascending(s: Seq<Seq<char>>) -> bool {
    forall|i: int, j: int| 0 <= i < j < s.len() ==> !lex_lt(#[trigger] s[j], #[trigger] s[i])
}

/// No pair's name comes after the name of a later pair.
pub open spec fn ascending_by_name(s: Seq<(Seq<char>, Seq<char>)>) -> bool {
    forall|i: int, j: int| 0 <= i < j < s.len() ==> !lex_lt(#[trigger] s[j].0, #[trigger] s[i].0)
}

/// Where `insert_in_order` puts `x`: after every element not above it.
proof fn lemma_insert_in_order_shape(r: Seq<Seq<char>>, x: Seq<char>) -> (p: int)
    ensures
        0 <= p <= r.len(),
        insert_in_order(r, x) == r.insert(p, x),
        forall|q: int| p <= q < r.len() ==> lex_lt(x, #[trigger] r[q]),
        p > 0 ==> !lex_lt(x, r[p - 1]),
    decreases r.len(),
{
    if r.len() == 0 {
        assert(r.insert(0, x) =~= seq![x]);
        0
    } else if lex_lt(x, r.last()) {
        let p = lemma_insert_in_order_shape(r.drop_last(), x);
        assert(r.drop_last().insert(p, x).push(r.last()) =~= r.insert(p, x));
        assert forall|q: int| p <= q < r.len() implies lex_lt(x, #[trigger] r[q]) by {
            if q < r.len() - 1 {
                assert(r.drop_last()[q] == r[q]);
            }
        }
        if p > 0 {
            assert(r.drop_last()[p - 1] == r[p - 1]);
        }
        p
    } else {
        assert(r.push(x) =~= r.insert(r.len() as int, x));
        r.len() as int
    }
}

/// `in_order(s)` is `s` rearranged into ascending order.
pub proof fn law_in_order_sorts(s: Seq<Seq<char>>)
    ensures
        ascending(in_order(s)),
        in_order(s).to_multiset() == s.to_multiset(),
    decreases s.len(),
{
    broadcast use vstd::seq_lib::group_to_multiset_ensures;

    if s.len() > 0 {
        law_in_order_sorts(s.drop_last());
        let r = in_order(s.drop_last());
        let x = s.last();
        let p = lemma_insert_in_order_shape(r, x);
        let t = r.insert(p, x);
        vstd::seq_lib::to_multiset_insert(r, p, x);
        assert(s =~= s.drop_last().push(x));
        assert forall|i: int, j: int| 0 <= i < j < t.len() implies !lex_lt(#[trigger] t[j], #[trigger] t[i]) by {
            if i < p && j < p {
                assert(t[i] == r[i] && t[j] == r[j]);
            } else if i > p && j > p {
                assert(t[i] == r[i - 1] && t[j] == r[j - 1]);
            } else if i == p {
                assert(t[j] == r[j - 1]);
                lemma_lex_asymmetric(x, r[j - 1]);
            } else if j == p {
                assert(t[i] == r[i]);
                if lex_lt(x, r[i]) {
                    if r[i] == r[p - 1] {
                    } else {
                        lemma_lex_total(r[i], r[p - 1]);
                        lemma_lex_transitive(x, r[i], r[p - 1]);
                    }
                }
            } else {
                assert(t[i] == r[i] && t[j] == r[j - 1]);
            }
        }
    }
}

/// Where `insert_by_name` puts `x`: after every pair whose name is not above its name.
proof fn lemma_insert_by_name_shape(r: Seq<(Seq<char>, Seq<char>)>, x: (Seq<char>, Seq<char>)) -> (p: int)
    ensures
        0 <= p <= r.len(),
        insert_by_name(r, x) == r.insert(p, x),
        forall|q: int| p <= q < r.len() ==> lex_lt(x.0, #[trigger] r[q].0),
        p > 0 ==> !lex_lt(x.0, r[p - 1].0),
    decreases r.len(),
{
    if r.len() == 0 {
        assert(r.insert(0, x) =~= seq![x]);
        0
    } else if lex_lt(x.0, r.last().0) {
        let p = lemma_insert_by_name_shape(r.drop_last(), x);
        assert(r.drop_last().insert(p, x).push(r.last()) =~= r.insert(p, x));
        assert forall|q: int| p <= q < r.len() implies lex_lt(x.0, #[trigger] r[q].0) by {
            if q < r.len() - 1 {
                assert(r.drop_last()[q] == r[q]);
            }
        }
        if p > 0 {
            assert(r.drop_last()[p - 1] == r[p - 1]);
        }
        p
    } else {
        assert(r.push(x) =~= r.insert(r.len() as int, x));
        r.len() as int
    }
}

/// `by_name(s)` is `s` rearranged into ascending order of names.
pub proof fn law_by_name_sorts(s: Seq<(Seq<char>, Seq<char>)>)
    ensures
        ascending_by_name(by_name(s)),
        by_name(s).to_multiset() == s.to_multiset(),
    decreases s.len(),
{
    broadcast use vstd::seq_lib::group_to_multiset_ensures;

    if s.len() > 0 {
        law_by_name_sorts(s.drop_last());
        let r = by_name(s.drop_last());
        let x = s.last();
        let p = lemma_insert_by_name_shape(r, x);
        let t = r.insert(p, x);
        vstd::seq_lib::to_multiset_insert(r, p, x);
        assert(s =~= s.drop_last().push(x));
        assert forall|i: int, j: int| 0 <= i < j < t.len() implies !lex_lt(#[trigger] t[j].0, #[trigger] t[i].0) by {
            if i < p && j < p {
                assert(t[i] == r[i] && t[j] == r[j]);
            } else if i > p && j > p {
                assert(t[i] == r[i - 1] && t[j] == r[j - 1]);
            } else if i == p {
                assert(t[j] == r[j - 1]);
                lemma_lex_asymmetric(x.0, r[j - 1].0);
            } else if j == p {
                assert(t[i] == r[i]);
                if lex_lt(x.0, r[i].0) {
                    if r[i].0 == r[p - 1].0 {
                    } else {
                        lemma_lex_total(r[i].0, r[p - 1].0);
                        lemma_lex_transitive(x.0, r[i].0, r[p - 1].0);
                    }
                }
            } else {
                assert(t[i] == r[i] && t[j] == r[j - 1]);
            }
        }
    }
}

} // verus!
