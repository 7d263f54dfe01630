//! Directory listings as the file browser and the command-line completion
//! show them: which entries appear, and in what order.
use vstd::prelude::*;
use vstd::seq_lib::{to_multiset_build, to_multiset_insert};
use crate::editor::BrowseEntry;
use crate::text::{chars_of, has_prefix, has_prefix_at, push_char, push_str};

verus! {

// ── Order ─────────────────────────────────────────────────────────────────────

/// An entry as a value: its name and whether it is a directory.
pub open spec fn entry_view(e: BrowseEntry) -> (Seq<char>, bool) {
    (e.name@, e.is_dir)
}

pub open spec fn entries_view(s: Seq<BrowseEntry>) -> Seq<(Seq<char>, bool)> {
    s.map_values(|e: BrowseEntry| entry_view(e))
}

/// Whether `a` comes strictly before `b` when their characters are compared
/// one by one by code point, a proper prefix first. This is the order of
/// `str`'s `Ord`, which compares UTF-8 bytes, and UTF-8 keeps the order of
/// code points.
pub open spec fn name_less(a: Seq<char>, b: Seq<char>) -> bool
    decreases a.len(),
{
    if b.len() == 0 {
        false
    } else if a.len() == 0 {
        true
    } else if a[0] != b[0] {
        a[0] < b[0]
    } else {
        name_less(a.drop_first(), b.drop_first())
    }
}

/// Whether entry `a` may stand before entry `b`: directories first, then by
/// name.
pub open spec fn listed_before(a: (Seq<char>, bool), b: (Seq<char>, bool)) -> bool {
    (a.1 && !b.1) || (a.1 == b.1 && !name_less(b.0, a.0))
}

/// Whether the entries stand in listing order.
pub open spec fn in_listing_order(s: Seq<(Seq<char>, bool)>) -> bool {
    forall|i: int, j: int| 0 <= i < j < s.len() ==> listed_before(#[trigger] s[i], #[trigger] s[j])
}

proof fn lemma_name_less_trans(a: Seq<char>, b: Seq<char>, c: Seq<char>)
    requires
        name_less(a, b),
        name_less(b, c),
    ensures
        name_less(a, c),
    decreases a.len(),
{
    if a.len() > 0 && a[0] == b[0] && b[0] == c[0] {
        lemma_name_less_trans(a.drop_first(), b.drop_first(), c.drop_first());
    }
}

proof fn lemma_name_less_total(a: Seq<char>, b: Seq<char>)
    ensures
        a != b ==> name_less(a, b) || name_less(b, a),
        !(name_less(a, b) && name_less(b, a)),
    decreases a.len(),
{
    if a.len() > 0 && b.len() > 0 && a[0] == b[0] {
        lemma_name_less_total(a.drop_first(), b.drop_first());
        if a.drop_first() == b.drop_first() {
            assert(a =~= b) by {
                assert forall|i: int| 0 <= i < a.len() implies a[i] == b[i] by {
                    if i > 0 {
                        assert(a[i] == a.drop_first()[i - 1]);
                        assert(b[i] == b.drop_first()[i - 1]);
                    }
                }
            }
        }
    } else if a.len() == 0 && b.len() == 0 {
        assert(a =~= b);
    }
}

proof fn lemma_listed_total(a: (Seq<char>, bool), b: (Seq<char>, bool))
    ensures
        listed_before(a, b) || listed_before(b, a),
{
    lemma_name_less_total(a.0, b.0);
}

proof fn lemma_listed_trans(a: (Seq<char>, bool), b: (Seq<char>, bool), c: (Seq<char>, bool))
    requires
        listed_before(a, b),
        listed_before(b, c),
    ensures
        listed_before(a, c),
{
    lemma_name_less_total(a.0, b.0);
    if a.1 == b.1 && b.1 == c.1 && name_less(c.0, a.0) && a.0 != b.0 {
        lemma_name_less_trans(c.0, a.0, b.0);
    }
}

fn name_less_exec(a: &Vec<char>, b: &Vec<char>) -> (r: bool)
    ensures
        r == name_less(a@, b@),
{
    let mut i: usize = 0;
    assert(a@.skip(0) =~= a@);
    assert(b@.skip(0) =~= b@);
    while i < a.len() && i < b.len()
        invariant
            i <= a@.len(),
            i <= b@.len(),
            name_less(a@, b@) == name_less(a@.skip(i as int), b@.skip(i as int)),
        decreases a@.len() - i,
    {
        if a[i] != b[i] {
            return a[i] < b[i];
        }
        assert(a@.skip(i as int).drop_first() =~= a@.skip(i + 1));
        assert(b@.skip(i as int).drop_first() =~= b@.skip(i + 1));
        i += 1;
    }
    i == a.len() && i < b.len()
}

fn listed_before_exec(a: &BrowseEntry, b: &BrowseEntry) -> (r: bool)
    ensures
        r == listed_before(entry_view(*a), entry_view(*b)),
{
    if a.is_dir != b.is_dir {
        return a.is_dir;
    }
    let an = chars_of(a.name.as_str());
    let bn = chars_of(b.name.as_str());
    !name_less_exec(&bn, &an)
}

/// Insert `e` into a listing, keeping the order.
fn insert_listed(out: &mut Vec<BrowseEntry>, e: BrowseEntry)
    requires
        in_listing_order(entries_view(old(out)@)),
    ensures
        in_listing_order(entries_view(final(out)@)),
        entries_view(final(out)@).to_multiset() == entries_view(old(out)@).to_multiset().insert(
            entry_view(e),
        ),
{
    let ghost ev = entry_view(e);
    let ghost old_v = entries_view(out@);
    let mut p: usize = 0;
    while p < out.len() && listed_before_exec(&out[p], &e)
        invariant
            p <= out@.len(),
            old_v == entries_view(out@),
            ev == entry_view(e),
            forall|i: int| 0 <= i < p ==> listed_before(#[trigger] old_v[i], ev),
        decreases out@.len() - p,
    {
        p += 1;
    }
    proof {
        if p < old_v.len() {
            lemma_listed_total(old_v[p as int], ev);
            assert forall|j: int| p < j < old_v.len() implies listed_before(ev, #[trigger] old_v[j]) by {
                lemma_listed_trans(ev, old_v[p as int], old_v[j]);
            }
        }
    }
    out.insert(p, e);
    proof {
        let nv = entries_view(out@);
        assert(nv =~= old_v.insert(p as int, ev));
        to_multiset_insert(old_v, p as int, ev);
        assert forall|i: int, j: int| 0 <= i < j < nv.len() implies listed_before(
            #[trigger] nv[i],
            #[trigger] nv[j],
        ) by {
            if i < p && j > p {
                lemma_listed_trans(nv[i], ev, nv[j]);
            }
        }
    }
}

/// The entries of `v` in listing order.
fn sort_listing(v: Vec<BrowseEntry>) -> (r: Vec<BrowseEntry>)
    ensures
        in_listing_order(entries_view(r@)),
        entries_view(r@).to_multiset() == entries_view(v@).to_multiset(),
{
    let ghost orig = v@;
    let mut rest = v;
    let mut out: Vec<BrowseEntry> = Vec::new();
    let ghost mut k: int = 0;
    assert(entries_view(out@) =~= entries_view(orig.take(0)));
    while rest.len() > 0
        invariant
            0 <= k <= orig.len(),
            rest@ == orig.skip(k),
            in_listing_order(entries_view(out@)),
            entries_view(out@).to_multiset() == entries_view(orig.take(k)).to_multiset(),
        decreases rest@.len(),
    {
        let e = rest.remove(0);
        proof {
            assert(e == orig[k]);
            assert(entries_view(orig.take(k + 1)) =~= entries_view(orig.take(k)).push(
                entry_view(e),
            ));
            to_multiset_build(entries_view(orig.take(k)), entry_view(e));
        }
        insert_listed(&mut out, e);
        proof {
            k = k + 1;
            assert(rest@ =~= orig.skip(k));
        }
    }
    assert(orig.take(k) =~= orig);
    out
}

// ── The file browser ──────────────────────────────────────────────────────────

/// Whether `s` ends with `p`.
pub open spec fn has_suffix(s: Seq<char>, p: Seq<char>) -> bool {
    p.len() <= s.len() && s.skip(s.len() - p.len()) == p
}

/// Whether the browser shows an entry: not hidden (no leading `.`), and a
/// directory or an `.org` file.
pub open spec fn browsable(e: (Seq<char>, bool)) -> bool {
    !has_prefix(e.0, "."@) && (e.1 || has_suffix(e.0, ".org"@))
}

pub open spec fn browse_filter() -> spec_fn((Seq<char>, bool)) -> Option<(Seq<char>, bool)> {
    |e: (Seq<char>, bool)|
        if browsable(e) {
            Some(e)
        } else {
            None
        }
}

/// The browsable entries of `s`, in their order.
pub open spec fn browsable_entries(s: Seq<(Seq<char>, bool)>) -> Seq<(Seq<char>, bool)> {
    s.filter_map(browse_filter())
}

/// The entry that leads to the parent directory.
pub open spec fn parent_entry() -> (Seq<char>, bool) {
    (".."@, true)
}

fn starts_with_dot(c: &Vec<char>) -> (r: bool)
    ensures
        r == has_prefix(c@, "."@),
{
    proof {
        reveal_strlit(".");
        if c@.len() > 0 && c@[0] == '.' {
            assert(c@.take(1) =~= "."@);
        }
        if c@.len() > 0 && c@.take(1) == "."@ {
            assert(c@.take(1)[0] == c@[0]);
        }
    }
    c.len() > 0 && c[0] == '.'
}

fn ends_with_org(c: &Vec<char>) -> (r: bool)
    ensures
        r == has_suffix(c@, ".org"@),
{
    proof {
        reveal_strlit(".org");
    }
    if c.len() < 4 {
        return false;
    }
    let org = chars_of(".org");
    let r = has_prefix_at(c, c.len() - 4, &org);
    assert(c@.skip(c@.len() - 4).take(4) =~= c@.skip(c@.len() - 4));
    r
}

fn is_browsable(e: &BrowseEntry) -> (r: bool)
    ensures
        r == browsable(entry_view(*e)),
{
    let c = chars_of(e.name.as_str());
    !starts_with_dot(&c) && (e.is_dir || ends_with_org(&c))
}

/// What the file browser lists for a directory whose entries are `raw`:
/// the browsable entries (directories first, then by name), after a `..`
/// entry when the directory has a parent.
pub fn browse_listing(raw: Vec<BrowseEntry>, has_parent: bool) -> (r: Vec<BrowseEntry>)
    ensures
        has_parent ==> r@.len() > 0 && entry_view(r@[0]) == parent_entry(),
        ({
            let shown = if has_parent {
                entries_view(r@).drop_first()
            } else {
                entries_view(r@)
            };
            &&& in_listing_order(shown)
            &&& shown.to_multiset() == browsable_entries(entries_view(raw@)).to_multiset()
        }),
{
    let ghost all = entries_view(raw@);
    let mut rest = raw;
    let mut kept: Vec<BrowseEntry> = Vec::new();
    let ghost mut k: int = 0;
    assert(all.take(0).filter_map(browse_filter()) =~= Seq::<(Seq<char>, bool)>::empty());
    while rest.len() > 0
        invariant
            0 <= k <= all.len(),
            all.len() == k + rest@.len(),
            entries_view(rest@) == all.skip(k),
            entries_view(kept@) == all.take(k).filter_map(browse_filter()),
        decreases rest@.len(),
    {
        let ghost before = rest@;
        let e = rest.remove(0);
        proof {
            assert(entry_view(e) == entries_view(before)[0]);
            assert(entries_view(rest@) =~= entries_view(before).drop_first());
            assert(entry_view(e) == all.skip(k)[0]);
            all.lemma_filter_map_take_succ(browse_filter(), k);
        }
        if is_browsable(&e) {
            kept.push(e);
        }
        proof {
            assert(entries_view(kept@) =~= all.take(k + 1).filter_map(browse_filter()));
            assert(entries_view(rest@) =~= all.skip(k + 1));
            k = k + 1;
        }
    }
    assert(all.take(k) =~= all);
    let mut r = sort_listing(kept);
    if has_parent {
        let ghost sorted = entries_view(r@);
        let mut name = String::new();
        push_str(&mut name, "..");
        r.insert(0, BrowseEntry { name, is_dir: true });
        assert(entries_view(r@).drop_first() =~= sorted);
    }
    r
}

// ── Completion of file names ──────────────────────────────────────────────────

/// Whether entry `e` is offered for the typed name `prefix`: its name starts
/// with `prefix`, and a hidden entry only when `prefix` starts with `.`.
pub open spec fn offered(e: (Seq<char>, bool), prefix: Seq<char>) -> bool {
    !(has_prefix(e.0, "."@) && !has_prefix(prefix, "."@)) && has_prefix(e.0, prefix)
}

/// The text that completes to entry `e`: its name, after `dir` and a `/`
/// when the search is not in the current directory, and with a `/` after a
/// directory's name.
pub open spec fn completion_text(e: (Seq<char>, bool), dir: Option<Seq<char>>) -> Seq<char> {
    let base = match dir {
        Some(d) => d.push('/') + e.0,
        None => e.0,
    };
    if e.1 {
        base.push('/')
    } else {
        base
    }
}

/// A completion as the listing orders it: the text, and whether it ends
/// with `/` (those come first).
pub open spec fn candidate(t: Seq<char>) -> (Seq<char>, bool) {
    (t, t.len() > 0 && t.last() == '/')
}

pub open spec fn completion_filter(prefix: Seq<char>, dir: Option<Seq<char>>) -> spec_fn(
    (Seq<char>, bool),
) -> Option<(Seq<char>, bool)> {
    |e: (Seq<char>, bool)|
        if offered(e, prefix) {
            Some(candidate(completion_text(e, dir)))
        } else {
            None
        }
}

/// The completions of `prefix` among the entries `s`, in their order.
pub open spec fn completion_entries(
    s: Seq<(Seq<char>, bool)>,
    prefix: Seq<char>,
    dir: Option<Seq<char>>,
) -> Seq<(Seq<char>, bool)> {
    s.filter_map(completion_filter(prefix, dir))
}

pub open spec fn candidates_view(s: Seq<String>) -> Seq<(Seq<char>, bool)> {
    s.map_values(|t: String| candidate(t@))
}

pub open spec fn opt_str_view(d: Option<&str>) -> Option<Seq<char>> {
    match d {
        Some(t) => Some(t@),
        None => None,
    }
}

fn ends_with_slash(t: &String) -> (r: bool)
    ensures
        r == (t@.len() > 0 && t@.last() == '/'),
{
    let c = chars_of(t.as_str());
    c.len() > 0 && c[c.len() - 1] == '/'
}

fn completion_of(e: &BrowseEntry, dir: Option<&str>) -> (t: String)
    ensures
        t@ == completion_text(entry_view(*e), opt_str_view(dir)),
{
    let mut t = String::new();
    match dir {
        Some(d) => {
            push_str(&mut t, d);
            push_char(&mut t, '/');
        },
        None => {},
    }
    push_str(&mut t, e.name.as_str());
    if e.is_dir {
        push_char(&mut t, '/');
    }
    t
}

fn is_offered(e: &BrowseEntry, prefix: &Vec<char>) -> (r: bool)
    ensures
        r == offered(entry_view(*e), prefix@),
{
    let c = chars_of(e.name.as_str());
    assert(c@.skip(0) =~= c@);
    if starts_with_dot(&c) && !starts_with_dot(prefix) {
        return false;
    }
    has_prefix_at(&c, 0, prefix)
}

/// The completions that `:e` offers for a typed name: the entries of the
/// searched directory whose names start with `prefix` (hidden ones only
/// after a typed `.`), each written after `dir` and a `/` when the search is
/// not in the current directory, directories with a trailing `/`; those
/// ending in `/` first, then in the order of their text.
pub fn completion_candidates(entries: Vec<BrowseEntry>, prefix: &str, dir: Option<&str>) -> (r: Vec<
    String,
>)
    ensures
        in_listing_order(candidates_view(r@)),
        candidates_view(r@).to_multiset() == completion_entries(
            entries_view(entries@),
            prefix@,
            opt_str_view(dir),
        ).to_multiset(),
{
    let ghost all = entries_view(entries@);
    let ghost f = completion_filter(prefix@, opt_str_view(dir));
    let p = chars_of(prefix);
    let mut rest = entries;
    let mut found: Vec<BrowseEntry> = Vec::new();
    let ghost mut k: int = 0;
    assert(all.take(0).filter_map(f) =~= Seq::<(Seq<char>, bool)>::empty());
    while rest.len() > 0
        invariant
            0 <= k <= all.len(),
            all.len() == k + rest@.len(),
            entries_view(rest@) == all.skip(k),
            entries_view(found@) == all.take(k).filter_map(f),
            f == completion_filter(prefix@, opt_str_view(dir)),
            p@ == prefix@,
        decreases rest@.len(),
    {
        let ghost before = rest@;
        let e = rest.remove(0);
        proof {
            assert(entry_view(e) == entries_view(before)[0]);
            assert(entries_view(rest@) =~= entries_view(before).drop_first());
            assert(entry_view(e) == all.skip(k)[0]);
            all.lemma_filter_map_take_succ(f, k);
        }
        if is_offered(&e, &p) {
            let t = completion_of(&e, dir);
            let is_dir = ends_with_slash(&t);
            found.push(BrowseEntry { name: t, is_dir });
        }
        proof {
            assert(entries_view(found@) =~= all.take(k + 1).filter_map(f));
            assert(entries_view(rest@) =~= all.skip(k + 1));
            k = k + 1;
        }
    }
    assert(all.take(k) =~= all);
    proof {
        assert forall|i: int| 0 <= i < found@.len() implies #[trigger] entry_view(found@[i])
            == candidate(found@[i].name@) by {
            let x = entries_view(found@)[i];
            all.lemma_filter_map_contains(f, x);
        }
    }
    let ghost unsorted = entries_view(found@);
    let mut sorted = sort_listing(found);
    proof {
        assert forall|i: int| 0 <= i < sorted@.len() implies #[trigger] entry_view(sorted@[i])
            == candidate(sorted@[i].name@) by {
            let x = entries_view(sorted@)[i];
            assert(entries_view(sorted@).contains(x));
            vstd::seq_lib::to_multiset_contains(entries_view(sorted@), x);
            vstd::seq_lib::to_multiset_contains(unsorted, x);
            let j = choose|j: int| 0 <= j < unsorted.len() && unsorted[j] == x;
            assert(entry_view(found@[j]) == candidate(found@[j].name@));
        }
    }
    let ghost sv = entries_view(sorted@);
    let mut r: Vec<String> = Vec::new();
    let ghost mut m: int = 0;
    while sorted.len() > 0
        invariant
            0 <= m <= sv.len(),
            sv.len() == m + sorted@.len(),
            entries_view(sorted@) == sv.skip(m),
            forall|i: int| 0 <= i < sorted@.len() ==> #[trigger] entry_view(sorted@[i])
                == candidate(sorted@[i].name@),
            candidates_view(r@) == sv.take(m),
        decreases sorted@.len(),
    {
        let ghost before = sorted@;
        let e = sorted.remove(0);
        proof {
            assert(entry_view(e) == entry_view(before[0]));
            assert(entry_view(before[0]) == candidate(before[0].name@));
            assert(entries_view(before)[0] == sv.skip(m)[0]);
            assert(sv[m] == candidate(e.name@));
            assert(entries_view(sorted@) =~= entries_view(before).drop_first());
            assert forall|i: int| 0 <= i < sorted@.len() implies #[trigger] entry_view(sorted@[i])
                == candidate(sorted@[i].name@) by {
                assert(sorted@[i] == before[i + 1]);
            }
        }
        let ghost r_before = r@;
        let ghost t = e.name;
        r.push(e.name);
        proof {
            assert(r@ == r_before.push(t));
            assert(candidates_view(r@) =~= candidates_view(r_before).push(candidate(t@)));
            assert(sv.take(m + 1) =~= sv.take(m).push(sv[m]));
            assert(candidates_view(r@) =~= sv.take(m + 1));
            assert(entries_view(sorted@) =~= sv.skip(m + 1));
            m = m + 1;
        }
    }
    assert(sv.take(m) =~= sv);
    r
}

} // verus!
