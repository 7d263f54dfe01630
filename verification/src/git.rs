//! Per-line change markers: a line diff of the buffer against its committed
//! version, grouped into hunks over a longest common subsequence.
use vstd::prelude::*;
use crate::document::strings_view;

verus! {

/// How a buffer line compares with the committed file.
#[derive(Debug, Clone, Copy, PartialEq, Eq, Structural)]
pub enum LineStatus {
    Unchanged,
    Added,
    Modified,
}

impl Default for LineStatus {
    fn default() -> (r: Self)
        ensures
            r == LineStatus::Unchanged,
    {
        LineStatus::Unchanged
    }
}

// ── Model ─────────────────────────────────────────────────────────────────────

/// `n` copies of `st`.
pub open spec fn repeat(st: LineStatus, n: int) -> Seq<LineStatus> {
    Seq::new(n as nat, |k: int| st)
}

/// The length of a longest common subsequence of `a[i..]` and `b[j..]`.
pub open spec fn lcs(a: Seq<Seq<char>>, b: Seq<Seq<char>>, i: int, j: int) -> nat
    decreases a.len() - i + b.len() - j,
{
    if i < 0 || j < 0 || i >= a.len() || j >= b.len() {
        0
    } else if a[i] == b[j] {
        1 + lcs(a, b, i + 1, j + 1)
    } else {
        let x = lcs(a, b, i + 1, j);
        let y = lcs(a, b, i, j + 1);
        if x >= y {
            x
        } else {
            y
        }
    }
}

/// At a mismatch, whether the edit script drops `a[i]` (rather than taking `b[j]`).
pub open spec fn prefers_delete(a: Seq<Seq<char>>, b: Seq<Seq<char>>, i: int, j: int) -> bool {
    i < a.len() && (j >= b.len() || lcs(a, b, i + 1, j) >= lcs(a, b, i, j + 1))
}

/// Whether the walk at `(i, j)` has reached both ends or a common line.
pub open spec fn at_rest(a: Seq<Seq<char>>, b: Seq<Seq<char>>, i: int, j: int) -> bool {
    (i >= a.len() && j >= b.len()) || (i < a.len() && j < b.len() && a[i] == b[j])
}

/// One hunk of the edit script from `(i, j)`: the position where it meets a
/// common line (or both ends), and whether it dropped any line of `a`.
pub open spec fn hunk(a: Seq<Seq<char>>, b: Seq<Seq<char>>, i: int, j: int) -> (int, int, bool)
    decreases a.len() - i + b.len() - j,
{
    if i < 0 || j < 0 || i > a.len() || j > b.len() || at_rest(a, b, i, j) {
        (i, j, false)
    } else if prefers_delete(a, b, i, j) {
        let r = hunk(a, b, i + 1, j);
        (r.0, r.1, true)
    } else {
        hunk(a, b, i, j + 1)
    }
}

pub proof fn lemma_hunk(a: Seq<Seq<char>>, b: Seq<Seq<char>>, i: int, j: int)
    requires
        0 <= i <= a.len(),
        0 <= j <= b.len(),
    ensures
        i <= hunk(a, b, i, j).0 <= a.len(),
        j <= hunk(a, b, i, j).1 <= b.len(),
        !at_rest(a, b, i, j) ==> hunk(a, b, i, j).0 + hunk(a, b, i, j).1 > i + j,
        at_rest(a, b, hunk(a, b, i, j).0, hunk(a, b, i, j).1),
    decreases a.len() - i + b.len() - j,
{
    if !at_rest(a, b, i, j) {
        if prefers_delete(a, b, i, j) {
            lemma_hunk(a, b, i + 1, j);
        } else {
            lemma_hunk(a, b, i, j + 1);
        }
    }
}

/// The statuses of `b[j..]` along the edit script from `(i, j)`: common lines
/// are unchanged; the lines a hunk inserts are modified when that hunk also
/// dropped lines of `a`, added otherwise.
pub open spec fn walk(a: Seq<Seq<char>>, b: Seq<Seq<char>>, i: int, j: int) -> Seq<LineStatus>
    decreases a.len() - i + b.len() - j,
{
    if !(0 <= i <= a.len() && 0 <= j <= b.len()) || (i == a.len() && j == b.len()) {
        seq![]
    } else if i < a.len() && j < b.len() && a[i] == b[j] {
        seq![LineStatus::Unchanged] + walk(a, b, i + 1, j + 1)
    } else {
        proof {
            lemma_hunk(a, b, i, j);
        }
        let h = hunk(a, b, i, j);
        repeat(
            if h.2 {
                LineStatus::Modified
            } else {
                LineStatus::Added
            },
            h.1 - j,
        ) + walk(a, b, h.0, h.1)
    }
}

/// The length of the common prefix of `a` and `b` from index `k` on.
pub open spec fn prefix_from(a: Seq<Seq<char>>, b: Seq<Seq<char>>, k: int) -> int
    decreases a.len() - k,
{
    if 0 <= k < a.len() && k < b.len() && a[k] == b[k] {
        prefix_from(a, b, k + 1)
    } else {
        k
    }
}

/// The length of the common suffix of `a[p..]` and `b[p..]`, counting from `k`.
pub open spec fn suffix_from(a: Seq<Seq<char>>, b: Seq<Seq<char>>, p: int, k: int) -> int
    decreases a.len() - p - k,
{
    if 0 <= k < a.len() - p && k < b.len() - p && a[a.len() - 1 - k] == b[b.len() - 1 - k] {
        suffix_from(a, b, p, k + 1)
    } else {
        k
    }
}

/// The middle parts that differ, once the common prefix and suffix are set aside.
pub open spec fn mid_statuses(am: Seq<Seq<char>>, bm: Seq<Seq<char>>) -> Seq<LineStatus> {
    if am.len() == 0 {
        repeat(LineStatus::Added, bm.len() as int)
    } else if bm.len() == 0 {
        seq![]
    } else if am.len() * bm.len() > 250_000 {
        repeat(LineStatus::Modified, bm.len() as int)
    } else {
        walk(am, bm, 0, 0)
    }
}

/// The status of every line of `b` against `a`.
pub open spec fn classify(a: Seq<Seq<char>>, b: Seq<Seq<char>>) -> Seq<LineStatus> {
    let p = prefix_from(a, b, 0);
    let s = suffix_from(a, b, p, 0);
    repeat(LineStatus::Unchanged, p) + mid_statuses(
        a.subrange(p, a.len() - s),
        b.subrange(p, b.len() - s),
    ) + repeat(LineStatus::Unchanged, s)
}

/// What `diff_with_head` returns.
pub open spec fn spec_diff(head: Option<Seq<Seq<char>>>, current: Seq<Seq<char>>) -> Seq<
    LineStatus,
> {
    match head {
        None => repeat(LineStatus::Added, current.len() as int),
        Some(h) => classify(h, current),
    }
}

// ── Facts about the model ─────────────────────────────────────────────────────

pub proof fn lemma_prefix(a: Seq<Seq<char>>, b: Seq<Seq<char>>, k: int)
    requires
        0 <= k <= a.len(),
        k <= b.len(),
    ensures
        k <= prefix_from(a, b, k) <= a.len(),
        prefix_from(a, b, k) <= b.len(),
        forall|t: int| k <= t < prefix_from(a, b, k) ==> a[t] == b[t],
    decreases a.len() - k,
{
    if k < a.len() && k < b.len() && a[k] == b[k] {
        lemma_prefix(a, b, k + 1);
    }
}

pub proof fn lemma_suffix(a: Seq<Seq<char>>, b: Seq<Seq<char>>, p: int, k: int)
    requires
        0 <= p <= a.len(),
        p <= b.len(),
        0 <= k <= a.len() - p,
        k <= b.len() - p,
    ensures
        k <= suffix_from(a, b, p, k) <= a.len() - p,
        suffix_from(a, b, p, k) <= b.len() - p,
        forall|t: int|
            #![trigger a[a.len() - 1 - t]]
            k <= t < suffix_from(a, b, p, k) ==> a[a.len() - 1 - t] == b[b.len() - 1 - t],
    decreases a.len() - p - k,
{
    if k < a.len() - p && k < b.len() - p && a[a.len() - 1 - k] == b[b.len() - 1 - k] {
        lemma_suffix(a, b, p, k + 1);
    }
}

pub proof fn lemma_lcs_bound(a: Seq<Seq<char>>, b: Seq<Seq<char>>, i: int, j: int)
    requires
        0 <= i <= a.len(),
        0 <= j <= b.len(),
    ensures
        lcs(a, b, i, j) <= a.len() - i,
        lcs(a, b, i, j) <= b.len() - j,
    decreases a.len() - i + b.len() - j,
{
    if i < a.len() && j < b.len() {
        if a[i] == b[j] {
            lemma_lcs_bound(a, b, i + 1, j + 1);
        } else {
            lemma_lcs_bound(a, b, i + 1, j);
            lemma_lcs_bound(a, b, i, j + 1);
        }
    }
}

pub proof fn lemma_walk_len(a: Seq<Seq<char>>, b: Seq<Seq<char>>, i: int, j: int)
    requires
        0 <= i <= a.len(),
        0 <= j <= b.len(),
    ensures
        walk(a, b, i, j).len() == b.len() - j,
    decreases a.len() - i + b.len() - j,
{
    if i == a.len() && j == b.len() {
    } else if i < a.len() && j < b.len() && a[i] == b[j] {
        lemma_walk_len(a, b, i + 1, j + 1);
    } else {
        lemma_hunk(a, b, i, j);
        let h = hunk(a, b, i, j);
        lemma_walk_len(a, b, h.0, h.1);
    }
}

// ── Laws ──────────────────────────────────────────────────────────────────────

/// The diff gives exactly one status per buffer line.
pub proof fn law_diff_one_status_per_line(head: Option<Seq<Seq<char>>>, current: Seq<Seq<char>>)
    ensures
        spec_diff(head, current).len() == current.len(),
{
    if let Some(h) = head {
        lemma_prefix(h, current, 0);
        let p = prefix_from(h, current, 0);
        lemma_suffix(h, current, p, 0);
        let s = suffix_from(h, current, p, 0);
        let am = h.subrange(p, h.len() - s);
        let bm = current.subrange(p, current.len() - s);
        if am.len() > 0 && bm.len() > 0 && am.len() * bm.len() <= 250_000 {
            lemma_walk_len(am, bm, 0, 0);
        }
    }
}

/// A buffer identical to the committed file has no changed line.
pub proof fn law_diff_identical_unchanged(lines: Seq<Seq<char>>)
    ensures
        spec_diff(Some(lines), lines) == repeat(LineStatus::Unchanged, lines.len() as int),
{
    lemma_prefix(lines, lines, 0);
    let p = prefix_from(lines, lines, 0);
    assert(p == lines.len()) by {
        lemma_prefix_same(lines, 0);
    }
    assert(suffix_from(lines, lines, p, 0) == 0);
    assert(classify(lines, lines) =~= repeat(LineStatus::Unchanged, lines.len() as int));
}

proof fn lemma_prefix_same(a: Seq<Seq<char>>, k: int)
    requires
        0 <= k <= a.len(),
    ensures
        prefix_from(a, a, k) == a.len(),
    decreases a.len() - k,
{
    if k < a.len() {
        lemma_prefix_same(a, k + 1);
    }
}

proof fn lemma_prefix_of_extension(a: Seq<Seq<char>>, x: Seq<Seq<char>>, k: int)
    requires
        0 <= k <= a.len(),
    ensures
        prefix_from(a, a + x, k) == a.len(),
        prefix_from(a + x, a, k) == a.len(),
    decreases a.len() - k,
{
    if k < a.len() {
        assert((a + x)[k] == a[k]);
        lemma_prefix_of_extension(a, x, k + 1);
    }
}

/// Lines appended after the committed content are marked `Added`, and the
/// committed lines before them stay unchanged.
pub proof fn law_diff_appended_lines_added(head: Seq<Seq<char>>, extra: Seq<Seq<char>>)
    ensures
        spec_diff(Some(head), head + extra) == repeat(LineStatus::Unchanged, head.len() as int)
            + repeat(LineStatus::Added, extra.len() as int),
{
    let b = head + extra;
    lemma_prefix_of_extension(head, extra, 0);
    let p = head.len() as int;
    assert(suffix_from(head, b, p, 0) == 0);
    let am = head.subrange(p, head.len() as int);
    let bm = b.subrange(p, b.len() as int);
    assert(am.len() == 0);
    assert(bm.len() == extra.len());
    assert(classify(head, b) =~= repeat(LineStatus::Unchanged, head.len() as int) + repeat(
        LineStatus::Added,
        extra.len() as int,
    ));
}

/// Lines deleted from the end of the committed content leave every remaining
/// line unchanged.
pub proof fn law_diff_truncation_unchanged(kept: Seq<Seq<char>>, removed: Seq<Seq<char>>)
    ensures
        spec_diff(Some(kept + removed), kept) == repeat(LineStatus::Unchanged, kept.len() as int),
{
    let a = kept + removed;
    lemma_prefix_of_extension(kept, removed, 0);
    let p = kept.len() as int;
    assert(suffix_from(a, kept, p, 0) == 0);
    let bm = kept.subrange(p, kept.len() as int);
    assert(bm.len() == 0);
    assert(classify(a, kept) =~= repeat(LineStatus::Unchanged, kept.len() as int));
}

// ── Diff ──────────────────────────────────────────────────────────────────────

/// `v` with `n` copies of `st` appended.
fn push_repeat(v: &mut Vec<LineStatus>, st: LineStatus, n: usize)
    ensures
        final(v)@ == old(v)@ + repeat(st, n as int),
{
    let ghost v0 = v@;
    let mut k: usize = 0;
    while k < n
        invariant
            k <= n,
            v@ == v0 + repeat(st, k as int),
        decreases n - k,
    {
        v.push(st);
        k += 1;
        assert(v@ =~= v0 + repeat(st, k as int));
    }
}

/// Diff `current` buffer lines against `head` (committed) lines.
///
/// Returns one `LineStatus` per line in `current`:
/// - `Added`    — line did not exist in HEAD (pure insertion)
/// - `Modified` — line is part of a hunk that replaced old content
/// - `Unchanged` — line is identical in HEAD
///
/// If `head` is `None` the file is new; every line is `Added`.
pub fn diff_with_head(head: Option<&Vec<String>>, current: &[String]) -> (r: Vec<LineStatus>)
    ensures
        r@ == spec_diff(
            match head {
                Some(h) => Some(strings_view(h@)),
                None => None,
            },
            strings_view(current@),
        ),
{
    match head {
        None => {
            let mut r: Vec<LineStatus> = Vec::new();
            push_repeat(&mut r, LineStatus::Added, current.len());
            assert(r@ =~= repeat(LineStatus::Added, current@.len() as int));
            r
        },
        Some(h) => lcs_classify(h.as_slice(), current),
    }
}

/// Line statuses of `lines` against `base`: the common prefix and suffix are
/// unchanged, and the middle follows a longest-common-subsequence edit script.
fn lcs_classify(base: &[String], lines: &[String]) -> (r: Vec<LineStatus>)
    ensures
        r@ == classify(strings_view(base@), strings_view(lines@)),
{
    let ghost a = strings_view(base@);
    let ghost b = strings_view(lines@);
    let m = base.len();
    let n = lines.len();
    let mut prefix: usize = 0;
    while prefix < m && prefix < n && base[prefix] == lines[prefix]
        invariant
            prefix <= m,
            prefix <= n,
            m == a.len(),
            n == b.len(),
            a == strings_view(base@),
            b == strings_view(lines@),
            prefix_from(a, b, 0) == prefix_from(a, b, prefix as int),
        decreases m - prefix,
    {
        prefix += 1;
    }
    let mut suffix: usize = 0;
    while suffix < m - prefix && suffix < n - prefix && base[m - 1 - suffix] == lines[n - 1 - suffix]
        invariant
            prefix <= m,
            prefix <= n,
            suffix <= m - prefix,
            suffix <= n - prefix,
            m == a.len(),
            n == b.len(),
            a == strings_view(base@),
            b == strings_view(lines@),
            suffix_from(a, b, prefix as int, 0) == suffix_from(a, b, prefix as int, suffix as int),
        decreases m - prefix - suffix,
    {
        suffix += 1;
    }
    let ghost p = prefix as int;
    let ghost s = suffix as int;
    assert(prefix_from(a, b, p) == p);
    assert(suffix_from(a, b, p, s) == s);
    let mm = m - prefix - suffix;
    let mn = n - prefix - suffix;
    let ghost am = a.subrange(p, a.len() - s);
    let ghost bm = b.subrange(p, b.len() - s);
    let mut result: Vec<LineStatus> = Vec::new();
    push_repeat(&mut result, LineStatus::Unchanged, prefix);
    let ghost r0 = result@;
    if mm == 0 {
        push_repeat(&mut result, LineStatus::Added, mn);
    } else if mn == 0 {
    } else {
        let too_large = match mm.checked_mul(mn) {
            Some(size) => size > 250_000,
            None => true,
        };
        if too_large {
            push_repeat(&mut result, LineStatus::Modified, mn);
        } else {
            walk_middle(base, lines, prefix, mm, mn, &mut result);
        }
    }
    assert(result@ == r0 + mid_statuses(am, bm));
    push_repeat(&mut result, LineStatus::Unchanged, suffix);
    result
}

/// Append the statuses of `lines[p..p + mn]` against `base[p..p + mm]` along the
/// edit script that a longest-common-subsequence table guides.
fn walk_middle(
    base: &[String],
    lines: &[String],
    p: usize,
    mm: usize,
    mn: usize,
    result: &mut Vec<LineStatus>,
)
    requires
        0 < mm,
        0 < mn,
        p + mm <= base.len(),
        p + mn <= lines.len(),
        mm * mn <= 250_000,
    ensures
        final(result)@ == old(result)@ + walk(
            strings_view(base@).subrange(p as int, p + mm),
            strings_view(lines@).subrange(p as int, p + mn),
            0,
            0,
        ),
{
    let ghost am = strings_view(base@).subrange(p as int, p + mm);
    let ghost bm = strings_view(lines@).subrange(p as int, p + mn);
    let rows = lcs_rows(base, lines, p, mm, mn);
    let ghost r0 = result@;
    let mut i: usize = 0;
    let mut j: usize = 0;
    while i < mm || j < mn
        invariant
            i <= mm,
            j <= mn,
            p + mm <= base.len(),
            p + mn <= lines.len(),
            am == strings_view(base@).subrange(p as int, p + mm),
            bm == strings_view(lines@).subrange(p as int, p + mn),
            rows@.len() == mm + 1,
            forall|k: int| 0 <= k <= mm ==> (#[trigger] rows@[k]).len() == mn + 1,
            forall|k: int, t: int|
                0 <= k <= mm && 0 <= t <= mn ==> (#[trigger] rows@[k]@[t]) == lcs(
                    am,
                    bm,
                    mm - k,
                    t,
                ),
            result@ + walk(am, bm, i as int, j as int) == r0 + walk(am, bm, 0, 0),
        decreases mm - i + mn - j,
    {
        if i < mm && j < mn && base[p + i] == lines[p + j] {
            assert(am[i as int] == bm[j as int]);
            let ghost w = walk(am, bm, i + 1, j + 1);
            let ghost before = result@;
            result.push(LineStatus::Unchanged);
            i += 1;
            j += 1;
            assert(result@ + w =~= before + (seq![LineStatus::Unchanged] + w));
        } else {
            let ghost i0 = i as int;
            let ghost j0 = j as int;
            let ghost before = result@;
            assert(!at_rest(am, bm, i0, j0));
            let hunk_j_start = j;
            let mut has_delete = false;
            let mut has_insert = false;
            let mut done = false;
            while !done && (i < mm || j < mn)
                invariant
                    i0 <= i <= mm,
                    j0 <= j <= mn,
                    hunk_j_start == j0,
                    p + mm <= base.len(),
                    p + mn <= lines.len(),
                    am == strings_view(base@).subrange(p as int, p + mm),
                    bm == strings_view(lines@).subrange(p as int, p + mn),
                    rows@.len() == mm + 1,
                    forall|k: int| 0 <= k <= mm ==> (#[trigger] rows@[k]).len() == mn + 1,
                    forall|k: int, t: int|
                        0 <= k <= mm && 0 <= t <= mn ==> (#[trigger] rows@[k]@[t]) == lcs(
                            am,
                            bm,
                            mm - k,
                            t,
                        ),
                    hunk(am, bm, i0, j0) == (
                        hunk(am, bm, i as int, j as int).0,
                        hunk(am, bm, i as int, j as int).1,
                        hunk(am, bm, i as int, j as int).2 || has_delete,
                    ),
                    done ==> at_rest(am, bm, i as int, j as int),
                    has_insert <==> j > j0,
                decreases mm - i + mn - j + (if done {
                    0int
                } else {
                    1int
                }),
            {
                if i < mm && j < mn && base[p + i] == lines[p + j] {
                    done = true;
                } else if i < mm && (j >= mn || rows[mm - (i + 1)][j] >= rows[mm - i][j + 1]) {
                    has_delete = true;
                    i += 1;
                } else {
                    has_insert = true;
                    j += 1;
                }
            }
            let ghost w = walk(am, bm, i as int, j as int);
            assert(walk(am, bm, i0, j0) == repeat(
                if has_delete {
                    LineStatus::Modified
                } else {
                    LineStatus::Added
                },
                j - j0,
            ) + w);
            if has_insert {
                let status = if has_delete {
                    LineStatus::Modified
                } else {
                    LineStatus::Added
                };
                push_repeat(result, status, j - hunk_j_start);
            }
            assert(result@ + w =~= before + walk(am, bm, i0, j0));
        }
    }
}

/// Row `k` of the table holds, for each `t`, the common-subsequence length of
/// `base[p + mm - k..p + mm]` and `lines[p + t..p + mn]`.
fn lcs_rows(base: &[String], lines: &[String], p: usize, mm: usize, mn: usize) -> (rows: Vec<
    Vec<u16>,
>)
    requires
        0 < mm,
        0 < mn,
        p + mm <= base.len(),
        p + mn <= lines.len(),
        mm * mn <= 250_000,
    ensures
        rows@.len() == mm + 1,
        forall|k: int| 0 <= k <= mm ==> (#[trigger] rows@[k]).len() == mn + 1,
        forall|k: int, t: int|
            0 <= k <= mm && 0 <= t <= mn ==> (#[trigger] rows@[k]@[t]) == lcs(
                strings_view(base@).subrange(p as int, p + mm),
                strings_view(lines@).subrange(p as int, p + mn),
                mm - k,
                t,
            ),
{
    let ghost am = strings_view(base@).subrange(p as int, p + mm);
    let ghost bm = strings_view(lines@).subrange(p as int, p + mn);
    assert(mm <= 500 || mn <= 500) by (nonlinear_arith)
        requires
            mm * mn <= 250_000,
            0 < mm,
            0 < mn,
    ;
    assert(mn <= 250_000) by (nonlinear_arith)
        requires
            mm * mn <= 250_000,
            0 < mm,
    ;
    let mut rows: Vec<Vec<u16>> = Vec::new();
    let last = vec![0u16; mn + 1];
    rows.push(last);
    let mut i: usize = mm;
    while i > 0
        invariant
            i <= mm,
            p + mm <= base.len(),
            p + mn <= lines.len(),
            mm <= 500 || mn <= 500,
            mn <= 250_000,
            am == strings_view(base@).subrange(p as int, p + mm),
            bm == strings_view(lines@).subrange(p as int, p + mn),
            rows@.len() == mm - i + 1,
            forall|k: int| 0 <= k < rows@.len() ==> (#[trigger] rows@[k]).len() == mn + 1,
            forall|k: int, t: int|
                0 <= k < rows@.len() && 0 <= t <= mn ==> (#[trigger] rows@[k]@[t]) == lcs(
                    am,
                    bm,
                    mm - k,
                    t,
                ),
        decreases i,
    {
        i -= 1;
        let next = mm - i - 1;
        let mut cur = vec![0u16; mn + 1];
        let mut j: usize = mn;
        while j > 0
            invariant
                i < mm,
                next == mm - i - 1,
                j <= mn,
                mn <= 250_000,
                p + mm <= base.len(),
                p + mn <= lines.len(),
                mm <= 500 || mn <= 500,
                am == strings_view(base@).subrange(p as int, p + mm),
                bm == strings_view(lines@).subrange(p as int, p + mn),
                rows@.len() == mm - i,
                forall|k: int| 0 <= k < rows@.len() ==> (#[trigger] rows@[k]).len() == mn + 1,
                forall|k: int, t: int|
                    0 <= k < rows@.len() && 0 <= t <= mn ==> (#[trigger] rows@[k]@[t]) == lcs(
                        am,
                        bm,
                        mm - k,
                        t,
                    ),
                cur@.len() == mn + 1,
                cur@[mn as int] == 0,
                forall|t: int| j <= t <= mn ==> (#[trigger] cur@[t]) == lcs(am, bm, i as int, t),
            decreases j,
        {
            j -= 1;
            proof {
                lemma_lcs_bound(am, bm, i + 1, j + 1);
                lemma_lcs_bound(am, bm, i + 1, j as int);
                lemma_lcs_bound(am, bm, i as int, j + 1);
            }
            assert(rows@[next as int]@[j + 1] == lcs(am, bm, i + 1, j + 1));
            assert(rows@[next as int]@[j as int] == lcs(am, bm, i + 1, j as int));
            let v = if base[p + i] == lines[p + j] {
                assert(am[i as int] == bm[j as int]);
                rows[next][j + 1].saturating_add(1)
            } else {
                assert(am[i as int] != bm[j as int]);
                let down = rows[next][j];
                let right = cur[j + 1];
                if down >= right {
                    down
                } else {
                    right
                }
            };
            cur.set(j, v);
        }
        rows.push(cur);
    }
    rows
}

} // verus!
