//! The editor's decisions that need neither the terminal nor the disk: the
//! visual selection, which pane a focus move or a click lands on, what a `:`
//! command asks for, where search matches are, and what a normal-mode key does.
use vstd::prelude::*;
use crate::editor::{Mode, SplitDir};
use crate::keymap::{Key, KeyCode, PaneDir};
use crate::document::strings_view;
use crate::pane::{byte_len, min, ordered, sat_dec, str_byte_len};
use crate::text::{
    back_while, chars_of, find_from, find_from_exec, in_class, lemma_back_while, lemma_find_from,
    lemma_span_while, span_while, spec_is_whitespace, string_of_range, trim, trim_bounds,
    trim_end, trim_start, CharClass,
};

verus! {

/// A rectangle of terminal cells.
#[derive(Debug, Clone, Copy, PartialEq, Eq, Structural)]
pub struct Rect {
    pub x: u16,
    pub y: u16,
    pub width: u16,
    pub height: u16,
}

// ── Visual selection ──────────────────────────────────────────────────────────

/// In visual mode with an anchor, the selection from the anchor to the
/// cursor as `(start_row, start_col, end_row, end_col, line_wise)`, start first.
pub open spec fn spec_visual_selection(
    mode: Mode,
    anchor: Option<(usize, usize)>,
    cursor: (usize, usize),
) -> Option<(usize, usize, usize, usize, bool)> {
    match mode {
        Mode::Visual { line_wise } => match anchor {
            Some(a) => {
                let (s, e) = ordered(a, cursor);
                Some((s.0, s.1, e.0, e.1, line_wise))
            },
            None => None,
        },
        _ => None,
    }
}

/// Returns `Some((start_row, start_col, end_row, end_col, line_wise))` when
/// a visual selection is active, with start ≤ end guaranteed.
pub fn visual_selection(mode: Mode, anchor: Option<(usize, usize)>, cursor: (usize, usize)) -> (r:
    Option<(usize, usize, usize, usize, bool)>)
    ensures
        r == spec_visual_selection(mode, anchor, cursor),
{
    let line_wise = match mode {
        Mode::Visual { line_wise } => line_wise,
        _ => return None,
    };
    let (ar, ac) = match anchor {
        Some(a) => a,
        None => return None,
    };
    let (cr, cc) = cursor;
    if ar < cr || (ar == cr && ac <= cc) {
        Some((ar, ac, cr, cc, line_wise))
    } else {
        Some((cr, cc, ar, ac, line_wise))
    }
}

// ── Cycling through panes ─────────────────────────────────────────────────────

/// The first index at or after `i` holding `x`.
pub open spec fn index_from(s: Seq<usize>, x: usize, i: int) -> Option<int>
    decreases s.len() - i,
{
    if i < 0 || i >= s.len() {
        None
    } else if s[i] == x {
        Some(i)
    } else {
        index_from(s, x, i + 1)
    }
}

/// The pane after `active` in tree order, wrapping around; `active` itself
/// when there is a single pane or `active` is not a leaf.
pub open spec fn spec_next_pane(leaves: Seq<usize>, active: usize) -> usize {
    if leaves.len() > 1 {
        match index_from(leaves, active, 0) {
            Some(p) => leaves[(p + 1) % (leaves.len() as int)],
            None => active,
        }
    } else {
        active
    }
}

pub fn next_pane(leaves: &Vec<usize>, active: usize) -> (r: usize)
    ensures
        r == spec_next_pane(leaves@, active),
{
    if leaves.len() > 1 {
        let mut i: usize = 0;
        while i < leaves.len()
            invariant
                i <= leaves@.len(),
                index_from(leaves@, active, 0) == index_from(leaves@, active, i as int),
            decreases leaves@.len() - i,
        {
            if leaves[i] == active {
                return leaves[(i + 1) % leaves.len()];
            }
            i += 1;
        }
    }
    active
}

// ── Focus by direction ────────────────────────────────────────────────────────

pub open spec fn abs(v: int) -> int {
    if v < 0 {
        -v
    } else {
        v
    }
}

pub open spec fn center_x(r: Rect) -> int {
    r.x + r.width / 2
}

pub open spec fn center_y(r: Rect) -> int {
    r.y + r.height / 2
}

/// Whether `r` lies wholly on the `dir` side of `cur`.
pub open spec fn in_direction(r: Rect, cur: Rect, dir: PaneDir) -> bool {
    match dir {
        PaneDir::Left => r.x + r.width <= cur.x,
        PaneDir::Right => r.x >= cur.x + cur.width,
        PaneDir::Up => r.y + r.height <= cur.y,
        PaneDir::Down => r.y >= cur.y + cur.height,
    }
}

/// The distance from `cur` to `r` for a move in `dir`: the gap between centres
/// along the move, plus four times the offset across it.
pub open spec fn focus_dist(r: Rect, cur: Rect, dir: PaneDir) -> int {
    let dx = abs(center_x(r) - center_x(cur));
    let dy = abs(center_y(r) - center_y(cur));
    match dir {
        PaneDir::Left | PaneDir::Right => dx + dy * 4,
        PaneDir::Up | PaneDir::Down => dy + dx * 4,
    }
}

/// Whether pane `i` is a place focus can move to from `active` in `dir`.
pub open spec fn focus_candidate(rects: Seq<Rect>, active: int, dir: PaneDir, i: int) -> bool {
    0 <= i < rects.len() && i != active && in_direction(rects[i], rects[active], dir)
}

/// The pane to focus: among the panes on the `dir` side of the active one,
/// the nearest by `focus_dist`, the first of them on a tie.
pub open spec fn focus_choice(rects: Seq<Rect>, active: int, dir: PaneDir, i: int) -> bool {
    &&& focus_candidate(rects, active, dir, i)
    &&& forall|j: int|
        focus_candidate(rects, active, dir, j) ==> focus_dist(rects[i], rects[active], dir)
            <= #[trigger] focus_dist(rects[j], rects[active], dir)
    &&& forall|j: int|
        0 <= j < i && focus_candidate(rects, active, dir, j) ==> focus_dist(
            rects[i],
            rects[active],
            dir,
        ) < #[trigger] focus_dist(rects[j], rects[active], dir)
}

fn rect_center_x(r: Rect) -> (v: i32)
    ensures
        v == center_x(r),
{
    r.x as i32 + r.width as i32 / 2
}

fn rect_center_y(r: Rect) -> (v: i32)
    ensures
        v == center_y(r),
{
    r.y as i32 + r.height as i32 / 2
}

fn abs_i32(v: i32) -> (r: i32)
    requires
        v > i32::MIN,
    ensures
        r == abs(v as int),
{
    if v < 0 {
        -v
    } else {
        v
    }
}

/// Move focus to the geometrically nearest pane in `dir`, using the pane
/// rects computed by the last render pass; `None` when there is none, when
/// there is a single pane, or when the rects do not match the panes.
pub fn focus_target(rects: &Vec<Rect>, active: usize, dir: PaneDir, pane_count: usize) -> (r:
    Option<usize>)
    requires
        pane_count >= 2 && rects@.len() == pane_count ==> active < rects@.len(),
    ensures
        (pane_count < 2 || rects@.len() != pane_count) ==> r is None,
        pane_count >= 2 && rects@.len() == pane_count ==> match r {
            Some(i) => focus_choice(rects@, active as int, dir, i as int),
            None => forall|j: int| !focus_candidate(rects@, active as int, dir, j),
        },
{
    if pane_count < 2 || rects.len() != pane_count {
        return None;
    }
    let cur = rects[active];
    let cx = rect_center_x(cur);
    let cy = rect_center_y(cur);
    let mut best: Option<(usize, i32)> = None;
    let mut i: usize = 0;
    while i < rects.len()
        invariant
            i <= rects@.len(),
            active < rects@.len(),
            cur == rects@[active as int],
            cx == center_x(cur),
            cy == center_y(cur),
            match best {
                Some((b, d)) => {
                    &&& b < i
                    &&& focus_candidate(rects@, active as int, dir, b as int)
                    &&& d == focus_dist(rects@[b as int], cur, dir)
                    &&& forall|j: int|
                        0 <= j < i && focus_candidate(rects@, active as int, dir, j) ==> d
                            <= #[trigger] focus_dist(rects@[j], cur, dir)
                    &&& forall|j: int|
                        0 <= j < b && focus_candidate(rects@, active as int, dir, j) ==> d
                            < #[trigger] focus_dist(rects@[j], cur, dir)
                },
                None => forall|j: int| 0 <= j < i ==> !focus_candidate(rects@, active as int, dir, j),
            },
        decreases rects@.len() - i,
    {
        let rect = rects[i];
        if i != active {
            let in_dir = match dir {
                PaneDir::Left => rect.x as i32 + rect.width as i32 <= cur.x as i32,
                PaneDir::Right => rect.x as i32 >= cur.x as i32 + cur.width as i32,
                PaneDir::Up => rect.y as i32 + rect.height as i32 <= cur.y as i32,
                PaneDir::Down => rect.y as i32 >= cur.y as i32 + cur.height as i32,
            };
            if in_dir {
                let dx = abs_i32(rect_center_x(rect) - cx);
                let dy = abs_i32(rect_center_y(rect) - cy);
                let dist = match dir {
                    PaneDir::Left | PaneDir::Right => dx + dy * 4,
                    PaneDir::Up | PaneDir::Down => dy + dx * 4,
                };
                let better = match best {
                    None => true,
                    Some((_, best_dist)) => dist < best_dist,
                };
                if better {
                    best = Some((i, dist));
                }
            }
        }
        i += 1;
    }
    match best {
        Some((idx, _)) => Some(idx),
        None => None,
    }
}

// ── Clicks ────────────────────────────────────────────────────────────────────

/// Whether the cell `(col, row)` lies inside `r`.
pub open spec fn contains_cell(r: Rect, col: int, row: int) -> bool {
    r.x <= col < r.x + r.width && r.y <= row < r.y + r.height
}

/// The first pane whose rect holds the clicked cell.
pub fn pane_at(rects: &Vec<Rect>, col: usize, row: usize) -> (r: Option<usize>)
    ensures
        match r {
            Some(i) => i < rects@.len() && contains_cell(rects@[i as int], col as int, row as int)
                && forall|j: int| 0 <= j < i ==> !contains_cell(#[trigger] rects@[j], col as int, row as int),
            None => forall|j: int| 0 <= j < rects@.len() ==> !contains_cell(#[trigger] rects@[j], col as int, row as int),
        },
{
    let mut i: usize = 0;
    while i < rects.len()
        invariant
            i <= rects@.len(),
            forall|j: int| 0 <= j < i ==> !contains_cell(#[trigger] rects@[j], col as int, row as int),
        decreases rects@.len() - i,
    {
        let rect = rects[i];
        let x = rect.x as usize;
        let y = rect.y as usize;
        if col >= x && col < x + rect.width as usize && row >= y && row < y + rect.height as usize {
            return Some(i);
        }
        i += 1;
    }
    None
}

// ── `:` commands ──────────────────────────────────────────────────────────────

/// What a `:` command line asks for.
#[derive(Debug, Clone, PartialEq, Eq)]
pub enum Command {
    /// `:q` — quit unless a pane has unsaved changes.
    Quit,
    /// `:q!` — quit.
    ForceQuit,
    /// `:w` — save the active pane.
    Write,
    /// `:wq` or `:x` — save, then quit.
    WriteQuit,
    /// `:sp`, `:split`, `:vs`, `:vsplit`.
    Split(SplitDir),
    /// `:e`/`:edit` (`force` for `:e!`/`:edit!`) with its path, `None` when
    /// the path is missing.
    Edit { path: Option<String>, force: bool },
    /// `:Ex`, `:Explore`, `:explore` with its optional directory.
    Explore(Option<String>),
    /// Anything else, by its first word.
    Unknown(String),
}

pub enum CommandV {
    Quit,
    ForceQuit,
    Write,
    WriteQuit,
    Split(SplitDir),
    Edit { path: Option<Seq<char>>, force: bool },
    Explore(Option<Seq<char>>),
    Unknown(Seq<char>),
}

impl View for Command {
    type V = CommandV;

    open spec fn view(&self) -> CommandV {
        match self {
            Command::Quit => CommandV::Quit,
            Command::ForceQuit => CommandV::ForceQuit,
            Command::Write => CommandV::Write,
            Command::WriteQuit => CommandV::WriteQuit,
            Command::Split(d) => CommandV::Split(*d),
            Command::Edit { path, force } => CommandV::Edit {
                path: crate::document::opt_string_view(*path),
                force: *force,
            },
            Command::Explore(a) => CommandV::Explore(crate::document::opt_string_view(*a)),
            Command::Unknown(w) => CommandV::Unknown(w@),
        }
    }
}

/// The argument after the command word, trimmed, when it is not empty.
pub open spec fn command_arg(t: Seq<char>) -> Option<Seq<char>> {
    let sp = find_from(t, 0, CharClass::Space);
    if sp < t.len() && trim(t.skip(sp + 1)).len() > 0 {
        Some(trim(t.skip(sp + 1)))
    } else {
        None
    }
}

/// What the command line `cmd` asks for: its trimmed text up to the first
/// space names the command, and the rest is its argument.
pub open spec fn spec_command(cmd: Seq<char>) -> CommandV {
    let t = trim(cmd);
    let w = t.take(find_from(t, 0, CharClass::Space));
    if w == "q"@ {
        CommandV::Quit
    } else if w == "q!"@ {
        CommandV::ForceQuit
    } else if w == "w"@ {
        CommandV::Write
    } else if w == "wq"@ || w == "x"@ {
        CommandV::WriteQuit
    } else if w == "sp"@ || w == "split"@ {
        CommandV::Split(SplitDir::Horizontal)
    } else if w == "vs"@ || w == "vsplit"@ {
        CommandV::Split(SplitDir::Vertical)
    } else if w == "e"@ || w == "edit"@ {
        CommandV::Edit { path: command_arg(t), force: false }
    } else if w == "e!"@ || w == "edit!"@ {
        CommandV::Edit { path: command_arg(t), force: true }
    } else if w == "Ex"@ || w == "Explore"@ || w == "explore"@ {
        CommandV::Explore(command_arg(t))
    } else {
        CommandV::Unknown(w)
    }
}

fn is_word(v: &Vec<char>, lit: &str) -> (r: bool)
    ensures
        r == (v@ == lit@),
{
    let w = chars_of(lit);
    if v.len() != w.len() {
        return false;
    }
    let mut i: usize = 0;
    while i < v.len()
        invariant
            i <= v@.len(),
            v@.len() == w@.len(),
            w@ == lit@,
            v@.subrange(0, i as int) == w@.subrange(0, i as int),
        decreases v@.len() - i,
    {
        if v[i] != w[i] {
            assert(v@[i as int] != w@[i as int]);
            return false;
        }
        assert(v@.subrange(0, i + 1) =~= v@.subrange(0, i as int).push(v@[i as int]));
        assert(w@.subrange(0, i + 1) =~= w@.subrange(0, i as int).push(w@[i as int]));
        i += 1;
    }
    assert(v@ =~= v@.subrange(0, i as int));
    assert(w@ =~= w@.subrange(0, i as int));
    true
}

/// What the command line `cmd` (without its `:`) asks for.
pub fn parse_command(cmd: &str) -> (r: Command)
    ensures
        r@ == spec_command(cmd@),
{
    let c = chars_of(cmd);
    let (lo, hi) = trim_bounds(&c, 0, c.len());
    assert(c@.subrange(0, c@.len() as int) == c@);
    let t = crate::text::sub_vec(&c, lo, hi);
    assert(t@ == trim(cmd@));
    let sp = find_from_exec(&t, 0, CharClass::Space);
    proof {
        lemma_find_from(t@, 0, CharClass::Space);
    }
    let w = crate::text::sub_vec(&t, 0, sp);
    assert(w@ == t@.take(sp as int));
    // The argument, trimmed, when it is not empty.
    let arg: Option<String> = if sp < t.len() {
        let (a, b) = trim_bounds(&t, sp + 1, t.len());
        assert(t@.subrange(sp + 1, t@.len() as int) == t@.skip(sp + 1));
        if a < b {
            Some(string_of_range(&t, a, b))
        } else {
            None
        }
    } else {
        None
    };
    assert(crate::document::opt_string_view(arg) == command_arg(t@));
    if is_word(&w, "q") {
        Command::Quit
    } else if is_word(&w, "q!") {
        Command::ForceQuit
    } else if is_word(&w, "w") {
        Command::Write
    } else if is_word(&w, "wq") || is_word(&w, "x") {
        Command::WriteQuit
    } else if is_word(&w, "sp") || is_word(&w, "split") {
        Command::Split(SplitDir::Horizontal)
    } else if is_word(&w, "vs") || is_word(&w, "vsplit") {
        Command::Split(SplitDir::Vertical)
    } else if is_word(&w, "e") || is_word(&w, "edit") {
        Command::Edit { path: arg, force: false }
    } else if is_word(&w, "e!") || is_word(&w, "edit!") {
        Command::Edit { path: arg, force: true }
    } else if is_word(&w, "Ex") || is_word(&w, "Explore") || is_word(&w, "explore") {
        Command::Explore(arg)
    } else {
        let word = string_of_range(&w, 0, w.len());
        assert(w@.subrange(0, w@.len() as int) == w@);
        Command::Unknown(word)
    }
}

// ── Search ────────────────────────────────────────────────────────────────────

/// Whether `q` occurs in `l` at byte `p`.
pub open spec fn occurs_at(l: Seq<u8>, q: Seq<u8>, p: int) -> bool {
    0 <= p && p + q.len() <= l.len() && l.subrange(p, p + q.len()) == q
}

/// The first byte at or after `start` where `q` occurs in `l`.
pub open spec fn find_bytes(l: Seq<u8>, q: Seq<u8>, start: int) -> Option<int>
    decreases l.len() + 1 - start,
{
    if start < 0 || start + q.len() > l.len() {
        None
    } else if occurs_at(l, q, start) {
        Some(start)
    } else {
        find_bytes(l, q, start + 1)
    }
}

pub proof fn lemma_find_bytes(l: Seq<u8>, q: Seq<u8>, start: int)
    requires
        0 <= start,
    ensures
        find_bytes(l, q, start) matches Some(p) ==> start <= p && occurs_at(l, q, p),
        find_bytes(l, q, start) is None ==> forall|p: int|
            start <= p ==> !(#[trigger] occurs_at(l, q, p)),
    decreases l.len() + 1 - start,
{
    if !(start < 0 || start + q.len() > l.len()) && !occurs_at(l, q, start) {
        lemma_find_bytes(l, q, start + 1);
        if find_bytes(l, q, start) is None {
            assert forall|p: int| start <= p implies !(#[trigger] occurs_at(l, q, p)) by {
                if p == start {
                } else {
                }
            }
        }
    }
}

/// The occurrences of a non-empty `q` in `l` met one after another from
/// `start`, each search resuming just after the previous match.
pub open spec fn occurrences(l: Seq<u8>, q: Seq<u8>, start: int) -> Seq<int>
    decreases l.len() - start,
{
    if q.len() == 0 || start < 0 {
        seq![]
    } else {
        match find_bytes(l, q, start) {
            None => seq![],
            Some(p) => {
                proof {
                    lemma_find_bytes(l, q, start);
                }
                seq![p] + occurrences(l, q, p + q.len())
            },
        }
    }
}

/// The UTF-8 bytes of each line.
pub open spec fn lines_bytes(lines: Seq<String>) -> Seq<Seq<u8>> {
    Seq::new(lines.len(), |i: int| vstd::utf8::encode_utf8(lines[i]@))
}

/// The `(row, byte column)` of every match of `q` in the first `n` lines.
pub open spec fn all_matches(lines: Seq<Seq<u8>>, q: Seq<u8>, n: int) -> Seq<(int, int)>
    decreases n,
{
    if n <= 0 {
        seq![]
    } else {
        let occ = occurrences(lines[n - 1], q, 0);
        all_matches(lines, q, n - 1) + Seq::new(occ.len(), |k: int| (n - 1, occ[k]))
    }
}

pub open spec fn pairs_view(v: Seq<(usize, usize)>) -> Seq<(int, int)> {
    Seq::new(v.len(), |k: int| (v[k].0 as int, v[k].1 as int))
}

fn occurs_exec(l: &[u8], q: &[u8], p: usize) -> (r: bool)
    requires
        p + q@.len() <= l.len(),
    ensures
        r == occurs_at(l@, q@, p as int),
{
    let mut k: usize = 0;
    while k < q.len()
        invariant
            k <= q@.len(),
            p + q@.len() <= l.len(),
            forall|t: int| 0 <= t < k ==> l@[p + t] == q@[t],
        decreases q@.len() - k,
    {
        if l[p + k] != q[k] {
            assert(l@.subrange(p as int, p + q@.len())[k as int] != q@[k as int]);
            return false;
        }
        k += 1;
    }
    assert(l@.subrange(p as int, p + q@.len()) =~= q@);
    true
}

fn find_bytes_exec(l: &[u8], q: &[u8], start: usize) -> (r: Option<usize>)
    ensures
        match r {
            Some(p) => find_bytes(l@, q@, start as int) == Some(p as int),
            None => find_bytes(l@, q@, start as int) is None,
        },
{
    if q.len() == 0 {
        if start <= l.len() {
            assert(l@.subrange(start as int, start as int) =~= q@);
            return Some(start);
        }
        return None;
    }
    if q.len() > l.len() {
        return None;
    }
    let last = l.len() - q.len();
    let mut p = start;
    while p <= last
        invariant
            start <= p,
            last + q@.len() == l.len(),
            q@.len() > 0,
            find_bytes(l@, q@, start as int) == find_bytes(l@, q@, p as int),
        decreases last + 1 - p,
    {
        if occurs_exec(l, q, p) {
            return Some(p);
        }
        p += 1;
    }
    None
}

/// All matches of `query` in `lines`, as `(row, byte column)`, row by row,
/// each search in a line resuming after the previous match; none for an
/// empty query.
pub fn search_matches(lines: &Vec<String>, query: &str) -> (r: Vec<(usize, usize)>)
    ensures
        query@.len() == 0 ==> r@.len() == 0,
        query@.len() > 0 ==> pairs_view(r@) == all_matches(
            lines_bytes(lines@),
            vstd::utf8::encode_utf8(query@),
            lines@.len() as int,
        ),
{
    let mut out: Vec<(usize, usize)> = Vec::new();
    if query.is_empty() {
        return out;
    }
    let q = query.as_bytes();
    let ghost qb = q@;
    let ghost lb = lines_bytes(lines@);
    let mut row: usize = 0;
    while row < lines.len()
        invariant
            row <= lines@.len(),
            qb == q@,
            qb.len() > 0,
            lb == lines_bytes(lines@),
            pairs_view(out@) == all_matches(lb, qb, row as int),
        decreases lines@.len() - row,
    {
        let l = lines[row].as_str().as_bytes();
        let n = l.len();
        assert(l@ == lb[row as int]);
        let ghost prefix = pairs_view(out@);
        let mut start: usize = 0;
        let mut done = false;
        while !done
            invariant
                qb == q@,
                qb.len() > 0,
                l@ == lb[row as int],
                n == l@.len(),
                pairs_view(out@) + (if done {
                    seq![]
                } else {
                    Seq::new(
                        occurrences(l@, qb, start as int).len(),
                        |k: int| (row as int, occurrences(l@, qb, start as int)[k]),
                    )
                }) == prefix + Seq::new(
                    occurrences(l@, qb, 0).len(),
                    |k: int| (row as int, occurrences(l@, qb, 0)[k]),
                ),
                start <= l@.len() + 1,
            decreases l@.len() + 2 - start - (if done {
                1int
            } else {
                0int
            }),
        {
            let ghost before = pairs_view(out@);
            let ghost occ = occurrences(l@, qb, start as int);
            match find_bytes_exec(l, q, start) {
                Some(p) => {
                    proof {
                        lemma_find_bytes(l@, qb, start as int);
                    }
                    out.push((row, p));
                    let ghost rest = occurrences(l@, qb, p + qb.len());
                    assert(occ == seq![p as int] + rest);
                    start = p + q.len();
                    assert(pairs_view(out@) =~= before.push((row as int, p as int)));
                    assert(Seq::new(occ.len(), |k: int| (row as int, occ[k])) =~= seq![
                        (row as int, p as int),
                    ] + Seq::new(rest.len(), |k: int| (row as int, rest[k])));
                    assert(pairs_view(out@) + Seq::new(rest.len(), |k: int| (row as int, rest[k]))
                        =~= before + Seq::new(occ.len(), |k: int| (row as int, occ[k])));
                },
                None => {
                    done = true;
                    assert(occ =~= Seq::<int>::empty());
                    assert(Seq::new(occ.len(), |k: int| (row as int, occ[k])) =~= Seq::<
                        (int, int),
                    >::empty());
                    assert(before + Seq::<(int, int)>::empty() =~= before);
                },
            }
        }
        row += 1;
    }
    out
}

/// The index of the first match at or after `origin`, or `0` when there is none.
pub open spec fn first_from(ms: Seq<(usize, usize)>, origin: (usize, usize), i: int) -> int
    decreases ms.len() - i,
{
    if i < 0 || i >= ms.len() {
        0
    } else if ms[i].0 > origin.0 || (ms[i].0 == origin.0 && ms[i].1 >= origin.1) {
        i
    } else {
        first_from(ms, origin, i + 1)
    }
}

pub fn first_match_from(matches: &Vec<(usize, usize)>, origin: (usize, usize)) -> (r: usize)
    ensures
        r == first_from(matches@, origin, 0),
{
    let (or, oc) = origin;
    let mut i: usize = 0;
    while i < matches.len()
        invariant
            i <= matches@.len(),
            first_from(matches@, origin, 0) == first_from(matches@, origin, i as int),
            origin == (or, oc),
        decreases matches@.len() - i,
    {
        let (r, c) = matches[i];
        if r > or || (r == or && c >= oc) {
            return i;
        }
        i += 1;
    }
    0
}

// ── Keys in each mode ─────────────────────────────────────────────────────────

/// A cursor movement.
#[derive(Debug, Clone, Copy, PartialEq, Eq, Structural)]
pub enum Motion {
    Left,
    Right,
    Up(usize),
    Down(usize),
    WordForward,
    WordBackward,
    LineStart,
    LineEnd,
    FileStart,
    FileEnd,
}

/// What a single key does in normal mode (keys that start multi-key
/// sequences are matched before, by `keymap::match_seq`).
#[derive(Debug, Clone, Copy, PartialEq, Eq, Structural)]
pub enum NormalCommand {
    Move(Motion),
    Undo,
    DeleteChar,
    PasteAfter,
    PasteBefore,
    Insert,
    Append,
    AppendAtEnd,
    OpenBelow,
    OpenAbove,
    VisualChar,
    VisualLine,
    CommandLine,
    Search,
    NextMatch,
    PrevMatch,
    /// Enter: follow the link under the cursor, or toggle its checkbox.
    Follow,
    /// Esc: drop the pending keys and the search highlights.
    Cancel,
}

pub open spec fn spec_normal_command(k: Key) -> Option<NormalCommand> {
    match k.code {
        KeyCode::Char(c) => if c == 'h' {
            Some(NormalCommand::Move(Motion::Left))
        } else if c == 'j' {
            Some(NormalCommand::Move(Motion::Down(1)))
        } else if c == 'k' {
            Some(NormalCommand::Move(Motion::Up(1)))
        } else if c == 'l' {
            Some(NormalCommand::Move(Motion::Right))
        } else if c == 'w' && !k.ctrl {
            Some(NormalCommand::Move(Motion::WordForward))
        } else if c == 'b' && !k.ctrl {
            Some(NormalCommand::Move(Motion::WordBackward))
        } else if c == '0' {
            Some(NormalCommand::Move(Motion::LineStart))
        } else if c == '$' {
            Some(NormalCommand::Move(Motion::LineEnd))
        } else if c == 'G' {
            Some(NormalCommand::Move(Motion::FileEnd))
        } else if c == 'd' && k.ctrl {
            Some(NormalCommand::Move(Motion::Down(20)))
        } else if c == 'u' && k.ctrl {
            Some(NormalCommand::Move(Motion::Up(20)))
        } else if c == 'f' && k.ctrl {
            Some(NormalCommand::Move(Motion::Down(40)))
        } else if c == 'b' && k.ctrl {
            Some(NormalCommand::Move(Motion::Up(40)))
        } else if c == 'u' {
            Some(NormalCommand::Undo)
        } else if c == 'x' {
            Some(NormalCommand::DeleteChar)
        } else if c == 'p' {
            Some(NormalCommand::PasteAfter)
        } else if c == 'P' {
            Some(NormalCommand::PasteBefore)
        } else if c == 'i' {
            Some(NormalCommand::Insert)
        } else if c == 'a' {
            Some(NormalCommand::Append)
        } else if c == 'A' {
            Some(NormalCommand::AppendAtEnd)
        } else if c == 'o' {
            Some(NormalCommand::OpenBelow)
        } else if c == 'O' {
            Some(NormalCommand::OpenAbove)
        } else if c == 'v' {
            Some(NormalCommand::VisualChar)
        } else if c == 'V' {
            Some(NormalCommand::VisualLine)
        } else if c == ':' {
            Some(NormalCommand::CommandLine)
        } else if c == '/' {
            Some(NormalCommand::Search)
        } else if c == 'n' {
            Some(NormalCommand::NextMatch)
        } else if c == 'N' {
            Some(NormalCommand::PrevMatch)
        } else {
            None
        },
        KeyCode::Left => Some(NormalCommand::Move(Motion::Left)),
        KeyCode::Down => Some(NormalCommand::Move(Motion::Down(1))),
        KeyCode::Up => Some(NormalCommand::Move(Motion::Up(1))),
        KeyCode::Right => Some(NormalCommand::Move(Motion::Right)),
        KeyCode::Home => Some(NormalCommand::Move(Motion::LineStart)),
        KeyCode::End => Some(NormalCommand::Move(Motion::LineEnd)),
        KeyCode::Enter => Some(NormalCommand::Follow),
        KeyCode::Esc => Some(NormalCommand::Cancel),
        _ => None,
    }
}

/// Handle single-key normal-mode bindings (not part of a multi-key sequence).
pub fn normal_command(key: &Key) -> (r: Option<NormalCommand>)
    ensures
        r == spec_normal_command(*key),
{
    let ctrl = key.ctrl;
    match &key.code {
        KeyCode::Char(c) => {
            let c = *c;
            if c == 'h' {
                Some(NormalCommand::Move(Motion::Left))
            } else if c == 'j' {
                Some(NormalCommand::Move(Motion::Down(1)))
            } else if c == 'k' {
                Some(NormalCommand::Move(Motion::Up(1)))
            } else if c == 'l' {
                Some(NormalCommand::Move(Motion::Right))
            } else if c == 'w' && !ctrl {
                Some(NormalCommand::Move(Motion::WordForward))
            } else if c == 'b' && !ctrl {
                Some(NormalCommand::Move(Motion::WordBackward))
            } else if c == '0' {
                Some(NormalCommand::Move(Motion::LineStart))
            } else if c == '$' {
                Some(NormalCommand::Move(Motion::LineEnd))
            } else if c == 'G' {
                Some(NormalCommand::Move(Motion::FileEnd))
            } else if c == 'd' && ctrl {
                Some(NormalCommand::Move(Motion::Down(20)))
            } else if c == 'u' && ctrl {
                Some(NormalCommand::Move(Motion::Up(20)))
            } else if c == 'f' && ctrl {
                Some(NormalCommand::Move(Motion::Down(40)))
            } else if c == 'b' && ctrl {
                Some(NormalCommand::Move(Motion::Up(40)))
            } else if c == 'u' {
                Some(NormalCommand::Undo)
            } else if c == 'x' {
                Some(NormalCommand::DeleteChar)
            } else if c == 'p' {
                Some(NormalCommand::PasteAfter)
            } else if c == 'P' {
                Some(NormalCommand::PasteBefore)
            } else if c == 'i' {
                Some(NormalCommand::Insert)
            } else if c == 'a' {
                Some(NormalCommand::Append)
            } else if c == 'A' {
                Some(NormalCommand::AppendAtEnd)
            } else if c == 'o' {
                Some(NormalCommand::OpenBelow)
            } else if c == 'O' {
                Some(NormalCommand::OpenAbove)
            } else if c == 'v' {
                Some(NormalCommand::VisualChar)
            } else if c == 'V' {
                Some(NormalCommand::VisualLine)
            } else if c == ':' {
                Some(NormalCommand::CommandLine)
            } else if c == '/' {
                Some(NormalCommand::Search)
            } else if c == 'n' {
                Some(NormalCommand::NextMatch)
            } else if c == 'N' {
                Some(NormalCommand::PrevMatch)
            } else {
                None
            }
        },
        KeyCode::Left => Some(NormalCommand::Move(Motion::Left)),
        KeyCode::Down => Some(NormalCommand::Move(Motion::Down(1))),
        KeyCode::Up => Some(NormalCommand::Move(Motion::Up(1))),
        KeyCode::Right => Some(NormalCommand::Move(Motion::Right)),
        KeyCode::Home => Some(NormalCommand::Move(Motion::LineStart)),
        KeyCode::End => Some(NormalCommand::Move(Motion::LineEnd)),
        KeyCode::Enter => Some(NormalCommand::Follow),
        KeyCode::Esc => Some(NormalCommand::Cancel),
        _ => None,
    }
}

/// What a key does in visual mode.
#[derive(Debug, Clone, Copy, PartialEq, Eq, Structural)]
pub enum VisualCommand {
    Move(Motion),
    /// `d` or `x`: delete the selection.
    Delete,
    /// `y`: yank the selected lines.
    Yank,
    /// `v` in line-wise mode, `V` in char-wise mode.
    SwitchTo { line_wise: bool },
    Exit,
}

pub open spec fn spec_visual_command(k: Key, line_wise: bool) -> Option<VisualCommand> {
    match k.code {
        KeyCode::Char(c) => if c == 'h' {
            Some(VisualCommand::Move(Motion::Left))
        } else if c == 'j' {
            Some(VisualCommand::Move(Motion::Down(1)))
        } else if c == 'k' {
            Some(VisualCommand::Move(Motion::Up(1)))
        } else if c == 'l' {
            Some(VisualCommand::Move(Motion::Right))
        } else if c == 'w' {
            Some(VisualCommand::Move(Motion::WordForward))
        } else if c == 'b' {
            Some(VisualCommand::Move(Motion::WordBackward))
        } else if c == '0' {
            Some(VisualCommand::Move(Motion::LineStart))
        } else if c == '$' {
            Some(VisualCommand::Move(Motion::LineEnd))
        } else if c == 'G' {
            Some(VisualCommand::Move(Motion::FileEnd))
        } else if c == 'g' {
            Some(VisualCommand::Move(Motion::FileStart))
        } else if c == 'd' || c == 'x' {
            Some(VisualCommand::Delete)
        } else if c == 'y' {
            Some(VisualCommand::Yank)
        } else if c == 'v' && line_wise {
            Some(VisualCommand::SwitchTo { line_wise: false })
        } else if c == 'V' && !line_wise {
            Some(VisualCommand::SwitchTo { line_wise: true })
        } else {
            None
        },
        KeyCode::Esc => Some(VisualCommand::Exit),
        KeyCode::Left => Some(VisualCommand::Move(Motion::Left)),
        KeyCode::Down => Some(VisualCommand::Move(Motion::Down(1))),
        KeyCode::Up => Some(VisualCommand::Move(Motion::Up(1))),
        KeyCode::Right => Some(VisualCommand::Move(Motion::Right)),
        KeyCode::Home => Some(VisualCommand::Move(Motion::LineStart)),
        KeyCode::End => Some(VisualCommand::Move(Motion::LineEnd)),
        _ => None,
    }
}

pub fn visual_command(key: &Key, line_wise: bool) -> (r: Option<VisualCommand>)
    ensures
        r == spec_visual_command(*key, line_wise),
{
    match &key.code {
        KeyCode::Char(c) => {
            let c = *c;
            if c == 'h' {
                Some(VisualCommand::Move(Motion::Left))
            } else if c == 'j' {
                Some(VisualCommand::Move(Motion::Down(1)))
            } else if c == 'k' {
                Some(VisualCommand::Move(Motion::Up(1)))
            } else if c == 'l' {
                Some(VisualCommand::Move(Motion::Right))
            } else if c == 'w' {
                Some(VisualCommand::Move(Motion::WordForward))
            } else if c == 'b' {
                Some(VisualCommand::Move(Motion::WordBackward))
            } else if c == '0' {
                Some(VisualCommand::Move(Motion::LineStart))
            } else if c == '$' {
                Some(VisualCommand::Move(Motion::LineEnd))
            } else if c == 'G' {
                Some(VisualCommand::Move(Motion::FileEnd))
            } else if c == 'g' {
                Some(VisualCommand::Move(Motion::FileStart))
            } else if c == 'd' || c == 'x' {
                Some(VisualCommand::Delete)
            } else if c == 'y' {
                Some(VisualCommand::Yank)
            } else if c == 'v' && line_wise {
                Some(VisualCommand::SwitchTo { line_wise: false })
            } else if c == 'V' && !line_wise {
                Some(VisualCommand::SwitchTo { line_wise: true })
            } else {
                None
            }
        },
        KeyCode::Esc => Some(VisualCommand::Exit),
        KeyCode::Left => Some(VisualCommand::Move(Motion::Left)),
        KeyCode::Down => Some(VisualCommand::Move(Motion::Down(1))),
        KeyCode::Up => Some(VisualCommand::Move(Motion::Up(1))),
        KeyCode::Right => Some(VisualCommand::Move(Motion::Right)),
        KeyCode::Home => Some(VisualCommand::Move(Motion::LineStart)),
        KeyCode::End => Some(VisualCommand::Move(Motion::LineEnd)),
        _ => None,
    }
}

// ── Laws ──────────────────────────────────────────────────────────────────────

/// The visual selection starts no later than it ends, and both the anchor
/// and the cursor lie in it.
pub proof fn law_visual_selection_ordered(
    anchor: (usize, usize),
    cursor: (usize, usize),
    line_wise: bool,
)
    ensures
        ({
            let (sr, sc, er, ec, lw) = spec_visual_selection(
                Mode::Visual { line_wise },
                Some(anchor),
                cursor,
            )->0;
            &&& lw == line_wise
            &&& sr < er || (sr == er && sc <= ec)
            &&& crate::display::spec_in_selection(
                anchor.0 as int,
                anchor.1 as int,
                sr as int,
                sc as int,
                er as int,
                ec as int,
                lw,
            )
            &&& crate::display::spec_in_selection(
                cursor.0 as int,
                cursor.1 as int,
                sr as int,
                sc as int,
                er as int,
                ec as int,
                lw,
            )
        }),
{
}

proof fn lemma_occurrences_occur(l: Seq<u8>, q: Seq<u8>, start: int)
    requires
        0 <= start,
    ensures
        forall|k: int|
            0 <= k < occurrences(l, q, start).len() ==> occurs_at(
                l,
                q,
                #[trigger] occurrences(l, q, start)[k],
            ),
    decreases l.len() - start,
{
    if q.len() > 0 {
        lemma_find_bytes(l, q, start);
        if let Some(p) = find_bytes(l, q, start) {
            lemma_occurrences_occur(l, q, p + q.len());
            let rest = occurrences(l, q, p + q.len());
            assert forall|k: int|
                0 <= k < occurrences(l, q, start).len() implies occurs_at(
                l,
                q,
                #[trigger] occurrences(l, q, start)[k],
            ) by {
                if k > 0 {
                    assert(occurrences(l, q, start)[k] == rest[k - 1]);
                }
            }
        }
    }
}

/// Every reported search match is an occurrence of the query at that row and column.
pub proof fn law_matches_occur(lines: Seq<Seq<u8>>, q: Seq<u8>, n: int)
    requires
        0 <= n <= lines.len(),
    ensures
        forall|k: int|
            0 <= k < all_matches(lines, q, n).len() ==> ({
                let (row, col) = #[trigger] all_matches(lines, q, n)[k];
                0 <= row < n && occurs_at(lines[row], q, col)
            }),
    decreases n,
{
    if n > 0 {
        law_matches_occur(lines, q, n - 1);
        lemma_occurrences_occur(lines[n - 1], q, 0);
        let prev = all_matches(lines, q, n - 1);
        let occ = occurrences(lines[n - 1], q, 0);
        assert forall|k: int| 0 <= k < all_matches(lines, q, n).len() implies ({
            let (row, col) = #[trigger] all_matches(lines, q, n)[k];
            0 <= row < n && occurs_at(lines[row], q, col)
        }) by {
            if k < prev.len() {
                assert(all_matches(lines, q, n)[k] == prev[k]);
            } else {
                assert(all_matches(lines, q, n)[k] == (n - 1, occ[k - prev.len()]));
            }
        }
    }
}

// ── Clicks, scrolling and stepping through matches ────────────────────────────

/// `n - m`, or `0` when `m` is larger.
pub open spec fn sat_sub(n: int, m: int) -> int {
    if n >= m {
        n - m
    } else {
        0
    }
}

/// The first column of a pane's text: after a one-column gutter when the
/// pane is wider than that.
pub open spec fn content_x(rect: Rect) -> int {
    if rect.width > 1 {
        rect.x + 1
    } else {
        rect.x as int
    }
}

/// The buffer position that a click on screen cell `(col, row)` of the pane
/// drawn in `rect` lands on, with the pane scrolled to row `top` and column
/// `left`: the row clamped to the last line, the column to the last byte of
/// that line.
pub open spec fn spec_click_position(
    rect: Rect,
    col: int,
    row: int,
    top: int,
    left: int,
    text: Seq<Seq<char>>,
) -> (int, int) {
    let r = min(top + row - rect.y, sat_dec(text.len() as int));
    (r, min(left + sat_sub(col, content_x(rect)), sat_dec(byte_len(text[r]) as int)))
}

pub fn click_position(
    rect: Rect,
    col: usize,
    row: usize,
    viewport_top: usize,
    viewport_left: usize,
    lines: &Vec<String>,
) -> (r: (usize, usize))
    requires
        rect.y <= row,
        viewport_top + row <= usize::MAX,
        viewport_left + sat_sub(col as int, content_x(rect)) <= usize::MAX,
        lines@.len() > 0,
    ensures
        (r.0 as int, r.1 as int) == spec_click_position(
            rect,
            col as int,
            row as int,
            viewport_top as int,
            viewport_left as int,
            strings_view(lines@),
        ),
{
    let cx: usize = if rect.width > 1 {
        rect.x as usize + 1
    } else {
        rect.x as usize
    };
    let last = lines.len() - 1;
    let mut buf_row = viewport_top + row - rect.y as usize;
    if buf_row > last {
        buf_row = last;
    }
    let off = if col >= cx {
        col - cx
    } else {
        0
    };
    let mut buf_col = viewport_left + off;
    let max_col = str_byte_len(&lines[buf_row]).saturating_sub(1);
    if buf_col > max_col {
        buf_col = max_col;
    }
    (buf_row, buf_col)
}

/// The first shown row of a list `height` rows high, moved as little as
/// possible from `scroll` so that row `selected` shows.
pub open spec fn spec_scroll_to_show(selected: int, scroll: int, height: int) -> int {
    if height == 0 {
        scroll
    } else if selected < scroll {
        selected
    } else if selected >= scroll + height {
        selected - height + 1
    } else {
        scroll
    }
}

pub fn scroll_to_show(selected: usize, scroll: usize, height: usize) -> (r: usize)
    ensures
        r == spec_scroll_to_show(selected as int, scroll as int, height as int),
{
    if height == 0 {
        scroll
    } else if selected < scroll {
        selected
    } else if selected - scroll >= height {
        selected - height + 1
    } else {
        scroll
    }
}

/// The match after match `idx` of `count`, wrapping to the first.
pub fn next_match(idx: usize, count: usize) -> (r: usize)
    requires
        count > 0,
        idx < usize::MAX,
    ensures
        r == (idx + 1) % (count as int),
{
    (idx + 1) % count
}

/// The match before match `idx` of `count`, wrapping to the last.
pub fn prev_match(idx: usize, count: usize) -> (r: usize)
    requires
        count > 0,
    ensures
        r == (if idx == 0 {
            count - 1
        } else {
            idx - 1
        }),
{
    if idx == 0 {
        count - 1
    } else {
        idx - 1
    }
}

/// The match to show once the query has changed: from the search's origin
/// when asked to, or when the shown match no longer exists; else the same.
pub fn refreshed_match(
    from_origin: bool,
    idx: usize,
    matches: &Vec<(usize, usize)>,
    origin: (usize, usize),
) -> (r: usize)
    ensures
        r == (if from_origin || idx >= matches@.len() {
            first_from(matches@, origin, 0)
        } else {
            idx as int
        }),
{
    if from_origin || idx >= matches.len() {
        first_match_from(matches, origin)
    } else {
        idx
    }
}

/// The selected row of a list of `len` rows after moving `n` rows down
/// (stopping at the last row) or up (stopping at the first).
pub open spec fn spec_move_selection(selected: int, len: int, down: bool, n: int) -> int {
    if down {
        if len == 0 {
            selected
        } else {
            min(selected + n, len - 1)
        }
    } else {
        sat_sub(selected, n)
    }
}

pub fn move_selection(selected: usize, len: usize, down: bool, n: usize) -> (r: usize)
    requires
        down && len > 0 ==> selected + n <= usize::MAX,
    ensures
        r == spec_move_selection(selected as int, len as int, down, n as int),
{
    if down {
        if len == 0 {
            selected
        } else if selected + n < len - 1 {
            selected + n
        } else {
            len - 1
        }
    } else {
        selected.saturating_sub(n)
    }
}

// ── Mode changes of normal-mode commands ──────────────────────────────────────

/// What a normal-mode command does to the mode, the visual anchor and the
/// cursor column, apart from its edits and moves of the buffer.
#[derive(Debug, Clone, Copy)]
pub struct ModeStep {
    pub mode: Mode,
    pub anchor: Option<(usize, usize)>,
    pub cursor_col: usize,
}

/// The mode step of `cmd` from `mode` and `anchor`, with the cursor at
/// `cursor` on a line `line_len` bytes long: `i`, `o` and `O` enter Insert
/// mode where the cursor is; `a` one byte further, at most at the line's
/// end; `A` at the line's end; `v` anchors a char-wise selection at the
/// cursor, `V` a line-wise one at the start of its line; `:` and `/` open the
/// command and search lines; every other command keeps all three.
pub open spec fn spec_mode_step(
    cmd: NormalCommand,
    mode: Mode,
    anchor: Option<(usize, usize)>,
    cursor: (usize, usize),
    line_len: usize,
) -> ModeStep {
    match cmd {
        NormalCommand::Insert | NormalCommand::OpenBelow | NormalCommand::OpenAbove => ModeStep {
            mode: Mode::Insert,
            anchor,
            cursor_col: cursor.1,
        },
        NormalCommand::Append => ModeStep {
            mode: Mode::Insert,
            anchor,
            cursor_col: min(cursor.1 + 1, line_len as int) as usize,
        },
        NormalCommand::AppendAtEnd => ModeStep { mode: Mode::Insert, anchor, cursor_col: line_len },
        NormalCommand::VisualChar => ModeStep {
            mode: Mode::Visual { line_wise: false },
            anchor: Some(cursor),
            cursor_col: cursor.1,
        },
        NormalCommand::VisualLine => ModeStep {
            mode: Mode::Visual { line_wise: true },
            anchor: Some((cursor.0, 0)),
            cursor_col: cursor.1,
        },
        NormalCommand::CommandLine => ModeStep { mode: Mode::Command, anchor, cursor_col: cursor.1 },
        NormalCommand::Search => ModeStep { mode: Mode::Search, anchor, cursor_col: cursor.1 },
        _ => ModeStep { mode, anchor, cursor_col: cursor.1 },
    }
}

pub fn mode_step(
    cmd: NormalCommand,
    mode: Mode,
    anchor: Option<(usize, usize)>,
    cursor: (usize, usize),
    line_len: usize,
) -> (r: ModeStep)
    ensures
        r == spec_mode_step(cmd, mode, anchor, cursor, line_len),
{
    match cmd {
        NormalCommand::Insert | NormalCommand::OpenBelow | NormalCommand::OpenAbove => ModeStep {
            mode: Mode::Insert,
            anchor,
            cursor_col: cursor.1,
        },
        NormalCommand::Append => ModeStep {
            mode: Mode::Insert,
            anchor,
            cursor_col: if cursor.1 < line_len {
                cursor.1 + 1
            } else {
                line_len
            },
        },
        NormalCommand::AppendAtEnd => ModeStep { mode: Mode::Insert, anchor, cursor_col: line_len },
        NormalCommand::VisualChar => ModeStep {
            mode: Mode::Visual { line_wise: false },
            anchor: Some(cursor),
            cursor_col: cursor.1,
        },
        NormalCommand::VisualLine => ModeStep {
            mode: Mode::Visual { line_wise: true },
            anchor: Some((cursor.0, 0)),
            cursor_col: cursor.1,
        },
        NormalCommand::CommandLine => ModeStep { mode: Mode::Command, anchor, cursor_col: cursor.1 },
        NormalCommand::Search => ModeStep { mode: Mode::Search, anchor, cursor_col: cursor.1 },
        _ => ModeStep { mode, anchor, cursor_col: cursor.1 },
    }
}

// ── Command words ─────────────────────────────────────────────────────────────

/// A word without white space, then nothing or a space and anything: the
/// command line names that word.
proof fn lemma_command_word(word: Seq<char>, rest: Seq<char>)
    requires
        word.len() > 0,
        forall|i: int| 0 <= i < word.len() ==> !spec_is_whitespace(#[trigger] word[i]),
        rest.len() == 0 || rest[0] == ' ',
    ensures
        ({
            let t = trim(word + rest);
            t.take(find_from(t, 0, CharClass::Space)) == word
        }),
{
    let cmd = word + rest;
    let m = word.len() as int;
    assert(cmd[0] == word[0]);
    lemma_span_while(cmd, 0, CharClass::Whitespace);
    let sw = span_while(cmd, 0, CharClass::Whitespace);
    if sw > 0 {
        assert(in_class(cmd[0], CharClass::Whitespace));
    }
    assert(trim_start(cmd) =~= cmd);
    lemma_back_while(cmd, cmd.len() as int, CharClass::Whitespace);
    let bw = back_while(cmd, cmd.len() as int, CharClass::Whitespace);
    if bw < m {
        assert(in_class(cmd[bw], CharClass::Whitespace));
        assert(cmd[bw] == word[bw]);
    }
    let t = cmd.take(bw);
    assert(trim(cmd) == t);
    lemma_find_from(t, 0, CharClass::Space);
    let ff = find_from(t, 0, CharClass::Space);
    if ff < m {
        assert(t[ff] == word[ff]);
        assert(spec_is_whitespace(' '));
    }
    if ff > m {
        assert(t[m] == rest[0]);
        assert(!in_class(t[m], CharClass::Space));
    }
    assert(ff == m);
    assert(t.take(ff) =~= word);
}

/// A command line made of a command word, then nothing or a space and
/// anything, asks for what the word names: `sp` and `split` a horizontal
/// split and `vs` and `vsplit` a vertical one (so the two never agree), `q`
/// to quit, `q!` to quit without saving, `w` to write, `wq` and `x` to write
/// and quit.
#[verifier::spinoff_prover]
pub proof fn law_command_words(word: Seq<char>, rest: Seq<char>)
    requires
        rest.len() == 0 || rest[0] == ' ',
    ensures
        (word == "sp"@ || word == "split"@) ==> spec_command(word + rest) == CommandV::Split(
            SplitDir::Horizontal,
        ),
        (word == "vs"@ || word == "vsplit"@) ==> spec_command(word + rest) == CommandV::Split(
            SplitDir::Vertical,
        ),
        word == "q"@ ==> spec_command(word + rest) == CommandV::Quit,
        word == "q!"@ ==> spec_command(word + rest) == CommandV::ForceQuit,
        word == "w"@ ==> spec_command(word + rest) == CommandV::Write,
        (word == "wq"@ || word == "x"@) ==> spec_command(word + rest) == CommandV::WriteQuit,
{
    reveal_strlit("q");
    reveal_strlit("q!");
    reveal_strlit("w");
    reveal_strlit("wq");
    reveal_strlit("x");
    reveal_strlit("sp");
    reveal_strlit("split");
    reveal_strlit("vs");
    reveal_strlit("vsplit");
    if word == "sp"@ || word == "split"@ || word == "vs"@ || word == "vsplit"@ || word == "q"@
        || word == "q!"@ || word == "w"@ || word == "wq"@ || word == "x"@ {
        assert forall|i: int| 0 <= i < word.len() implies !spec_is_whitespace(#[trigger] word[i]) by {
        }
        lemma_command_word(word, rest);
    }
}

/// Text that starts and ends with no white space is its own `trim`.
proof fn lemma_trim_keeps_text(s: Seq<char>)
    requires
        s.len() > 0,
        !spec_is_whitespace(s[0]),
        !spec_is_whitespace(s.last()),
    ensures
        trim(s) == s,
{
    lemma_span_while(s, 0, CharClass::Whitespace);
    if span_while(s, 0, CharClass::Whitespace) > 0 {
        assert(in_class(s[0], CharClass::Whitespace));
    }
    assert(trim_start(s) =~= s);
    assert(back_while(s, s.len() as int, CharClass::Whitespace) == s.len());
    assert(s.take(s.len() as int) =~= s);
}

/// `:e`, `:edit` (and `:e!`, `:edit!`, which discard changes) with a path
/// open that path, and `:Ex`, `:Explore` or `:explore` with a path browse it:
/// the path is the text after the word and a space, when it starts and ends
/// with no white space.
#[verifier::spinoff_prover]
pub proof fn law_file_commands(word: Seq<char>, path: Seq<char>)
    requires
        path.len() > 0,
        !spec_is_whitespace(path[0]),
        !spec_is_whitespace(path.last()),
    ensures
        (word == "e"@ || word == "edit"@) ==> spec_command(word + seq![' '] + path)
            == (CommandV::Edit { path: Some(path), force: false }),
        (word == "e!"@ || word == "edit!"@) ==> spec_command(word + seq![' '] + path)
            == (CommandV::Edit { path: Some(path), force: true }),
        (word == "Ex"@ || word == "Explore"@ || word == "explore"@) ==> spec_command(
            word + seq![' '] + path,
        ) == CommandV::Explore(Some(path)),
{
    reveal_strlit("q");
    reveal_strlit("q!");
    reveal_strlit("w");
    reveal_strlit("wq");
    reveal_strlit("x");
    reveal_strlit("sp");
    reveal_strlit("split");
    reveal_strlit("vs");
    reveal_strlit("vsplit");
    reveal_strlit("e");
    reveal_strlit("edit");
    reveal_strlit("e!");
    reveal_strlit("edit!");
    reveal_strlit("Ex");
    reveal_strlit("Explore");
    reveal_strlit("explore");
    if word == "e"@ || word == "edit"@ || word == "e!"@ || word == "edit!"@ || word == "Ex"@
        || word == "Explore"@ || word == "explore"@ {
        let rest = seq![' '] + path;
        assert(word + seq![' '] + path =~= word + rest);
        assert forall|i: int| 0 <= i < word.len() implies !spec_is_whitespace(#[trigger] word[i]) by {
        }
        lemma_command_word(word, rest);
        let cmd = word + rest;
        assert(cmd[0] == word[0]);
        assert(cmd.last() == path.last());
        lemma_trim_keeps_text(cmd);
        let t = trim(cmd);
        assert(t == cmd);
        let sp = find_from(t, 0, CharClass::Space);
        lemma_find_from(t, 0, CharClass::Space);
        assert(t.take(sp) == word);
        assert(t.take(sp).len() == sp);
        assert(sp == word.len());
        assert(t.skip(sp + 1) =~= path);
        lemma_trim_keeps_text(path);
        assert(command_arg(t) == Some(path));
    }
}

} // verus!
