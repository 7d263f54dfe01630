//! Editor state that does not depend on the terminal: modes, the window
//! layout tree, and the parsing of file commands and link targets.
use vstd::prelude::*;
use crate::text::{chars_of, has_prefix, has_prefix_at, string_of_range, trim, trim_bounds};

verus! {

// ── Mode ──────────────────────────────────────────────────────────────────────

#[derive(Debug, Clone, Copy, PartialEq, Eq, Structural)]
pub enum Mode {
    Normal,
    Insert,
    Command,
    Search,
    /// `line_wise = true` → V (line visual), false → v (char visual)
    Visual { line_wise: bool },
    /// Minimal directory browser (`:e <dir>`, `:Ex`).
    Browse,
    /// Buffer switcher (`SPC b b`).
    BufferList,
}

/// The status-line label of each mode.
pub open spec fn mode_label(m: Mode) -> Seq<char> {
    match m {
        Mode::Normal => "NORMAL"@,
        Mode::Insert => "INSERT"@,
        Mode::Command => "COMMAND"@,
        Mode::Search => "SEARCH"@,
        Mode::Visual { line_wise } => if line_wise {
            "V-LINE"@
        } else {
            "VISUAL"@
        },
        Mode::Browse => "BROWSE"@,
        Mode::BufferList => "BUFFERS"@,
    }
}

impl Mode {
    pub fn label(&self) -> (r: &'static str)
        ensures
            r@ == mode_label(*self),
    {
        match self {
            Mode::Normal => "NORMAL",
            Mode::Insert => "INSERT",
            Mode::Command => "COMMAND",
            Mode::Search => "SEARCH",
            Mode::Visual { line_wise: true } => "V-LINE",
            Mode::Visual { line_wise: false } => "VISUAL",
            Mode::Browse => "BROWSE",
            Mode::BufferList => "BUFFERS",
        }
    }
}

// ── Directory browser ─────────────────────────────────────────────────────────

#[derive(Debug, Clone)]
pub struct BrowseEntry {
    pub name: String,
    pub is_dir: bool,
}

// ── Commands and links ────────────────────────────────────────────────────────

/// The commands that take a file argument, longest spelling first.
pub open spec fn file_verb(i: int) -> Seq<char> {
    if i == 0 {
        "edit!"@
    } else if i == 1 {
        "edit"@
    } else if i == 2 {
        "e!"@
    } else if i == 3 {
        "e"@
    } else {
        "w"@
    }
}

/// From verb `i` on, the first that `cmd` starts with as a whole word: the
/// verb followed by a space, and the trimmed rest.
pub open spec fn split_from(cmd: Seq<char>, i: int) -> Option<(Seq<char>, Seq<char>)>
    decreases 5 - i,
{
    if i < 0 || i >= 5 {
        None
    } else {
        let v = file_verb(i);
        if has_prefix(cmd, v) && (cmd.len() == v.len() || cmd[v.len() as int] == ' ') {
            Some((v.push(' '), trim(cmd.skip(v.len() as int))))
        } else {
            split_from(cmd, i + 1)
        }
    }
}

fn file_verb_exec(i: usize) -> (r: &'static str)
    requires
        i < 5,
    ensures
        r@ == file_verb(i as int),
{
    if i == 0 {
        "edit!"
    } else if i == 1 {
        "edit"
    } else if i == 2 {
        "e!"
    } else if i == 3 {
        "e"
    } else {
        "w"
    }
}

/// Split a file-opening command like `"e notes/foo"` into `("e ", "notes/foo")`.
/// Returns `None` if the command doesn't take a file argument.
pub fn split_file_command(cmd: &str) -> (r: Option<(String, String)>)
    ensures
        match r {
            Some((p, a)) => split_from(cmd@, 0) == Some((p@, a@)),
            None => split_from(cmd@, 0) is None,
        },
{
    let c = chars_of(cmd);
    let mut i: usize = 0;
    while i < 5
        invariant
            i <= 5,
            c@ == cmd@,
            split_from(cmd@, 0) == split_from(cmd@, i as int),
        decreases 5 - i,
    {
        let verb_str = file_verb_exec(i);
        let verb = chars_of(verb_str);
        let k = verb.len();
        assert(c@.skip(0) == c@);
        if has_prefix_at(&c, 0, &verb) {
            if c.len() == k || c[k] == ' ' {
                let mut prefix = string_of_range(&verb, 0, k);
                crate::text::push_char(&mut prefix, ' ');
                let (lo, hi) = trim_bounds(&c, k, c.len());
                let partial = string_of_range(&c, lo, hi);
                assert(verb@.subrange(0, k as int) == verb@);
                assert(c@.subrange(k as int, c@.len() as int) == c@.skip(k as int));
                return Some((prefix, partial));
            }
        }
        i += 1;
    }
    None
}

/// Whether `url` is opened in a browser rather than as a file.
pub open spec fn spec_is_web_url(url: Seq<char>) -> bool {
    ||| has_prefix(url, "http://"@)
    ||| has_prefix(url, "https://"@)
    ||| has_prefix(url, "ftp://"@)
    ||| has_prefix(url, "mailto:"@)
}

fn starts_with(u: &Vec<char>, p: &str) -> (r: bool)
    ensures
        r == has_prefix(u@, p@),
{
    let pv = chars_of(p);
    assert(u@.skip(0) == u@);
    has_prefix_at(u, 0, &pv)
}

pub fn is_web_url(url: &str) -> (r: bool)
    ensures
        r == spec_is_web_url(url@),
{
    let u = chars_of(url);
    starts_with(&u, "http://") || starts_with(&u, "https://") || starts_with(&u, "ftp://")
        || starts_with(&u, "mailto:")
}

// ── Window layout tree ──────────────────────────────────────────────────────────

#[derive(Debug, Clone, Copy, PartialEq, Eq, Structural)]
pub enum SplitDir {
    /// Horizontal dividing line — panes stacked top/bottom (vim's `:split`, `C-w s`).
    Horizontal,
    /// Vertical dividing line — panes side by side (vim's `:vsplit`, `C-w v`).
    Vertical,
}

/// Recursive window tree. Leaves hold an index into the editor's panes; splits
/// nest freely so hsplit and vsplit can combine (e.g. one tall pane on the
/// left, two stacked panes on the right) and any number of panes is supported.
#[derive(Debug, PartialEq, Eq)]
pub enum PaneLayout {
    Leaf(usize),
    Split { dir: SplitDir, children: Vec<PaneLayout> },
}

/// The layout tree as a mathematical value.
pub enum LayoutV {
    Leaf(usize),
    Split { dir: SplitDir, children: Seq<LayoutV> },
}

impl PaneLayout {
    pub open spec fn view_layout(&self) -> LayoutV
        decreases self,
    {
        match self {
            PaneLayout::Leaf(i) => LayoutV::Leaf(*i),
            PaneLayout::Split { dir, children } => LayoutV::Split {
                dir: *dir,
                children: Seq::new(
                    children@.len(),
                    |i: int|
                        {
                            if 0 <= i < children@.len() {
                                children@[i].view_layout()
                            } else {
                                LayoutV::Leaf(0)
                            }
                        },
                ),
            },
        }
    }
}

impl View for PaneLayout {
    type V = LayoutV;

    open spec fn view(&self) -> LayoutV {
        self.view_layout()
    }
}

pub open spec fn layouts_view(v: Seq<PaneLayout>) -> Seq<LayoutV> {
    Seq::new(v.len(), |i: int| v[i]@)
}

pub proof fn lemma_layout_view(l: PaneLayout)
    ensures
        (l is Split ==> l@ == (LayoutV::Split {
            dir: l->dir,
            children: layouts_view(l->children@),
        })),
{
    if let PaneLayout::Split { dir, children } = l {
        assert(l@->children =~= layouts_view(children@));
    }
}

impl PaneLayout {
    fn deep_clone(&self) -> (r: PaneLayout)
        ensures
            r@ == self@,
        decreases self,
    {
        match self {
            PaneLayout::Leaf(i) => PaneLayout::Leaf(*i),
            PaneLayout::Split { dir, children } => {
                let cs = clone_layouts(children);
                let r = PaneLayout::Split { dir: *dir, children: cs };
                proof {
                    lemma_layout_view(r);
                    lemma_layout_view(*self);
                }
                r
            },
        }
    }
}

fn clone_layouts(v: &Vec<PaneLayout>) -> (r: Vec<PaneLayout>)
    ensures
        layouts_view(r@) == layouts_view(v@),
    decreases v,
{
    let mut r: Vec<PaneLayout> = Vec::new();
    let mut i: usize = 0;
    while i < v.len()
        invariant
            i <= v@.len(),
            r@.len() == i,
            forall|j: int| 0 <= j < i ==> (#[trigger] r@[j])@ == v@[j]@,
        decreases v@.len() - i,
    {
        assert(decreases_to!(v => v@[i as int]));
        r.push(v[i].deep_clone());
        i += 1;
    }
    assert(layouts_view(r@) =~= layouts_view(v@));
    r
}

impl Clone for PaneLayout {
    fn clone(&self) -> (r: PaneLayout)
        ensures
            r@ == self@,
    {
        self.deep_clone()
    }
}

/// Pane indices in left-to-right / top-to-bottom tree order.
pub open spec fn leaves_of(v: LayoutV) -> Seq<usize>
    decreases v,
{
    match v {
        LayoutV::Leaf(i) => seq![i],
        LayoutV::Split { children, .. } => leaves_of_all(children),
    }
}

pub open spec fn leaves_of_all(cs: Seq<LayoutV>) -> Seq<usize>
    decreases cs,
{
    if cs.len() == 0 {
        seq![]
    } else {
        leaves_of_all(cs.drop_last()) + leaves_of(cs.last())
    }
}

/// The tree with the first leaf holding `target` (in tree order) replaced by
/// a split of `[target, new_idx]`, and whether there was such a leaf.
pub open spec fn split_at(v: LayoutV, target: usize, new_idx: usize, dir: SplitDir) -> (
    LayoutV,
    bool,
)
    decreases v,
{
    match v {
        LayoutV::Leaf(i) => if i == target {
            (
                LayoutV::Split {
                    dir,
                    children: seq![LayoutV::Leaf(target), LayoutV::Leaf(new_idx)],
                },
                true,
            )
        } else {
            (v, false)
        },
        LayoutV::Split { dir: d, children } => {
            let r = split_in(children, target, new_idx, dir);
            (LayoutV::Split { dir: d, children: r.0 }, r.1)
        },
    }
}

/// `split_at` on the first child, left to right, that holds `target`.
pub open spec fn split_in(cs: Seq<LayoutV>, target: usize, new_idx: usize, dir: SplitDir) -> (
    Seq<LayoutV>,
    bool,
)
    decreases cs,
{
    if cs.len() == 0 {
        (cs, false)
    } else {
        let first = split_at(cs[0], target, new_idx, dir);
        if first.1 {
            (cs.update(0, first.0), true)
        } else {
            let rest = split_in(cs.drop_first(), target, new_idx, dir);
            (seq![cs[0]] + rest.0, rest.1)
        }
    }
}

/// Where `target` is absent, splitting changes nothing.
pub proof fn lemma_split_absent(v: LayoutV, target: usize, new_idx: usize, dir: SplitDir)
    ensures
        !split_at(v, target, new_idx, dir).1 ==> split_at(v, target, new_idx, dir).0 == v,
    decreases v,
{
    if let LayoutV::Split { dir: d, children } = v {
        lemma_split_in_absent(children, target, new_idx, dir);
    }
}

pub proof fn lemma_split_in_absent(cs: Seq<LayoutV>, target: usize, new_idx: usize, dir: SplitDir)
    ensures
        !split_in(cs, target, new_idx, dir).1 ==> split_in(cs, target, new_idx, dir).0 == cs,
    decreases cs,
{
    if cs.len() > 0 {
        lemma_split_absent(cs[0], target, new_idx, dir);
        lemma_split_in_absent(cs.drop_first(), target, new_idx, dir);
        if !split_in(cs, target, new_idx, dir).1 {
            assert(split_in(cs, target, new_idx, dir).0 =~= cs);
        }
    }
}

/// The tree without the leaves holding `target` below any split; a split
/// left with one child becomes that child.
pub open spec fn without_leaf(v: LayoutV, target: usize) -> LayoutV
    decreases v,
{
    match v {
        LayoutV::Leaf(_) => v,
        LayoutV::Split { dir, children } => {
            let cs = without_leaf_in(children, target);
            if cs.len() == 1 {
                cs[0]
            } else {
                LayoutV::Split { dir, children: cs }
            }
        },
    }
}

/// The children other than `Leaf(target)`, each without `target` in turn.
pub open spec fn without_leaf_in(cs: Seq<LayoutV>, target: usize) -> Seq<LayoutV>
    decreases cs,
{
    if cs.len() == 0 {
        seq![]
    } else {
        let rest = without_leaf_in(cs.drop_last(), target);
        if cs.last() == LayoutV::Leaf(target) {
            rest
        } else {
            rest.push(without_leaf(cs.last(), target))
        }
    }
}

/// The tree with every leaf index above `removed` lowered by one.
pub open spec fn renumbered(v: LayoutV, removed: usize) -> LayoutV
    decreases v,
{
    match v {
        LayoutV::Leaf(i) => LayoutV::Leaf(
            if i > removed {
                (i - 1) as usize
            } else {
                i
            },
        ),
        LayoutV::Split { dir, children } => LayoutV::Split {
            dir,
            children: Seq::new(
                children.len(),
                |k: int|
                    if 0 <= k < children.len() {
                        renumbered(children[k], removed)
                    } else {
                        LayoutV::Leaf(0)
                    },
            ),
        },
    }
}

impl PaneLayout {
    /// Pane indices in left-to-right / top-to-bottom tree order.
    pub fn leaves(&self) -> (r: Vec<usize>)
        ensures
            r@ == leaves_of(self@),
    {
        let mut out = Vec::new();
        self.collect_leaves(&mut out);
        out
    }

    pub fn collect_leaves(&self, out: &mut Vec<usize>)
        ensures
            final(out)@ == old(out)@ + leaves_of(self@),
        decreases self,
    {
        match self {
            PaneLayout::Leaf(idx) => {
                out.push(*idx);
            },
            PaneLayout::Split { children, .. } => {
                proof {
                    lemma_layout_view(*self);
                }
                collect_all(children, out);
            },
        }
    }

    /// Replace the leaf holding `target` with a new split of `[target, new_idx]`.
    pub fn split_leaf(&mut self, target: usize, new_idx: usize, dir: SplitDir) -> (r: bool)
        ensures
            (final(self)@, r) == split_at(old(self)@, target, new_idx, dir),
    {
        let mut l = PaneLayout::Leaf(0);
        std::mem::swap(&mut l, self);
        let (l2, found) = split_owned(l, target, new_idx, dir);
        *self = l2;
        found
    }

    /// Remove the leaf holding `target`, collapsing any split left with a
    /// single child so the tree stays minimal.
    pub fn remove_leaf(&mut self, target: usize)
        ensures
            final(self)@ == without_leaf(old(self)@, target),
    {
        let mut l = PaneLayout::Leaf(0);
        std::mem::swap(&mut l, self);
        *self = remove_owned(l, target);
    }

    /// Decrement every leaf index greater than `removed_idx` by one, to stay
    /// in sync after the pane at `removed_idx` is removed.
    pub fn renumber_after_removal(&mut self, removed_idx: usize)
        ensures
            final(self)@ == renumbered(old(self)@, removed_idx),
    {
        let mut l = PaneLayout::Leaf(0);
        std::mem::swap(&mut l, self);
        *self = renumber_owned(l, removed_idx);
    }
}

fn collect_all(children: &Vec<PaneLayout>, out: &mut Vec<usize>)
    ensures
        final(out)@ == old(out)@ + leaves_of_all(layouts_view(children@)),
    decreases children,
{
    let ghost cs = layouts_view(children@);
    let ghost out0 = out@;
    let mut i: usize = 0;
    while i < children.len()
        invariant
            i <= children@.len(),
            cs == layouts_view(children@),
            out@ == out0 + leaves_of_all(cs.take(i as int)),
        decreases children@.len() - i,
    {
        assert(decreases_to!(children => children@[i as int]));
        children[i].collect_leaves(out);
        assert(cs.take(i + 1).drop_last() =~= cs.take(i as int));
        i += 1;
    }
    assert(cs.take(i as int) =~= cs);
}

fn split_owned(l: PaneLayout, target: usize, new_idx: usize, dir: SplitDir) -> (r: (PaneLayout, bool))
    ensures
        (r.0@, r.1) == split_at(l@, target, new_idx, dir),
    decreases l,
{
    match l {
        PaneLayout::Leaf(idx) => {
            if idx == target {
                let mut children: Vec<PaneLayout> = Vec::new();
                children.push(PaneLayout::Leaf(target));
                children.push(PaneLayout::Leaf(new_idx));
                let r = PaneLayout::Split { dir, children };
                proof {
                    lemma_layout_view(r);
                    assert(layouts_view(children@) =~= seq![
                        LayoutV::Leaf(target),
                        LayoutV::Leaf(new_idx),
                    ]);
                }
                (r, true)
            } else {
                (PaneLayout::Leaf(idx), false)
            }
        },
        PaneLayout::Split { dir: d, children } => {
            proof {
                lemma_layout_view(l);
            }
            let ghost cs = layouts_view(children@);
            let mut rest = children;
            let mut out: Vec<PaneLayout> = Vec::new();
            let mut found = false;
            let ghost mut k: int = 0;
            assert(cs.skip(0) =~= cs);
            assert(layouts_view(out@) =~= Seq::<LayoutV>::empty());
            assert(layouts_view(out@) + split_in(cs, target, new_idx, dir).0 =~= split_in(
                cs,
                target,
                new_idx,
                dir,
            ).0);
            while rest.len() > 0
                invariant
                    0 <= k <= cs.len(),
                    rest@.len() == cs.len() - k,
                    layouts_view(rest@) == cs.skip(k),
                    forall|j: int| 0 <= j < rest@.len() ==> decreases_to!(l => #[trigger] rest@[j]),
                    !found ==> split_in(cs, target, new_idx, dir) == (
                        layouts_view(out@) + split_in(cs.skip(k), target, new_idx, dir).0,
                        split_in(cs.skip(k), target, new_idx, dir).1,
                    ),
                    found ==> split_in(cs, target, new_idx, dir) == (
                        layouts_view(out@) + layouts_view(rest@),
                        true,
                    ),
                decreases rest@.len(),
            {
                let ghost tail = cs.skip(k);
                let ghost r0 = rest@;
                assert(layouts_view(r0)[0] == tail[0]);
                let c = rest.remove(0);
                assert(c@ == tail[0]);
                assert forall|j: int| 0 <= j < rest@.len() implies layouts_view(rest@)[j] == cs.skip(
                    k + 1,
                )[j] by {
                    assert(rest@[j] == r0[j + 1]);
                    assert(layouts_view(r0)[j + 1] == cs.skip(k)[j + 1]);
                }
                assert(layouts_view(rest@) =~= cs.skip(k + 1));
                assert(tail.drop_first() =~= cs.skip(k + 1));
                let ghost o0 = layouts_view(out@);
                if found {
                    out.push(c);
                    assert(layouts_view(out@) =~= o0.push(c@));
                    assert(layouts_view(r0) =~= seq![c@] + layouts_view(rest@));
                    assert(o0 + layouts_view(r0) =~= layouts_view(out@) + layouts_view(rest@));
                } else {
                    let (c2, f) = split_owned(c, target, new_idx, dir);
                    out.push(c2);
                    assert(layouts_view(out@) =~= o0.push(c2@));
                    found = f;
                    if f {
                        assert(split_in(tail, target, new_idx, dir).0 =~= seq![c2@] + layouts_view(
                            rest@,
                        ));
                        assert(o0 + split_in(tail, target, new_idx, dir).0 =~= layouts_view(out@)
                            + layouts_view(rest@));
                    } else {
                        proof {
                            lemma_split_absent(tail[0], target, new_idx, dir);
                        }
                        assert(c2@ == tail[0]);
                        assert(o0 + split_in(tail, target, new_idx, dir).0 =~= layouts_view(out@)
                            + split_in(cs.skip(k + 1), target, new_idx, dir).0);
                    }
                }
                proof {
                    k = k + 1;
                }
            }
            let r = PaneLayout::Split { dir: d, children: out };
            proof {
                lemma_layout_view(r);
                assert(cs.skip(k) =~= Seq::<LayoutV>::empty());
            }
            (r, found)
        },
    }
}

fn remove_owned(l: PaneLayout, target: usize) -> (r: PaneLayout)
    ensures
        r@ == without_leaf(l@, target),
    decreases l,
{
    match l {
        PaneLayout::Leaf(idx) => PaneLayout::Leaf(idx),
        PaneLayout::Split { dir, children } => {
            proof {
                lemma_layout_view(l);
            }
            let ghost cs = layouts_view(children@);
            let mut rest = children;
            let mut kept: Vec<PaneLayout> = Vec::new();
            let ghost mut k: int = 0;
            assert(cs.skip(0) =~= cs);
            assert(layouts_view(kept@) =~= without_leaf_in(cs.take(0), target));
            while rest.len() > 0
                invariant
                    0 <= k <= cs.len(),
                    rest@.len() == cs.len() - k,
                    layouts_view(rest@) == cs.skip(k),
                    forall|j: int| 0 <= j < rest@.len() ==> decreases_to!(l => #[trigger] rest@[j]),
                    layouts_view(kept@) == without_leaf_in(cs.take(k), target),
                decreases rest@.len(),
            {
                let ghost r0 = rest@;
                assert(layouts_view(r0)[0] == cs[k]);
                let c = rest.remove(0);
                assert(c@ == cs[k]);
                assert forall|j: int| 0 <= j < rest@.len() implies layouts_view(rest@)[j] == cs.skip(
                    k + 1,
                )[j] by {
                    assert(rest@[j] == r0[j + 1]);
                    assert(layouts_view(r0)[j + 1] == cs.skip(k)[j + 1]);
                }
                assert(layouts_view(rest@) =~= cs.skip(k + 1));
                let ghost o0 = layouts_view(kept@);
                assert(cs.take(k + 1).drop_last() =~= cs.take(k));
                assert(cs.take(k + 1).last() == c@);
                let is_target = match c {
                    PaneLayout::Leaf(i) => i == target,
                    _ => false,
                };
                if !is_target {
                    let c2 = remove_owned(c, target);
                    kept.push(c2);
                    assert(layouts_view(kept@) =~= o0.push(c2@));
                }
                proof {
                    k = k + 1;
                }
            }
            assert(cs.take(k) =~= cs);
            if kept.len() == 1 {
                kept.remove(0)
            } else {
                let r = PaneLayout::Split { dir, children: kept };
                proof {
                    lemma_layout_view(r);
                }
                r
            }
        },
    }
}

fn renumber_owned(l: PaneLayout, removed: usize) -> (r: PaneLayout)
    ensures
        r@ == renumbered(l@, removed),
    decreases l,
{
    match l {
        PaneLayout::Leaf(idx) => {
            if idx > removed {
                PaneLayout::Leaf(idx - 1)
            } else {
                PaneLayout::Leaf(idx)
            }
        },
        PaneLayout::Split { dir, children } => {
            proof {
                lemma_layout_view(l);
            }
            let ghost cs = layouts_view(children@);
            let mut rest = children;
            let mut out: Vec<PaneLayout> = Vec::new();
            let ghost mut k: int = 0;
            assert(cs.skip(0) =~= cs);
            while rest.len() > 0
                invariant
                    0 <= k <= cs.len(),
                    rest@.len() == cs.len() - k,
                    layouts_view(rest@) == cs.skip(k),
                    forall|j: int| 0 <= j < rest@.len() ==> decreases_to!(l => #[trigger] rest@[j]),
                    out@.len() == k,
                    forall|j: int| 0 <= j < k ==> (#[trigger] out@[j])@ == renumbered(cs[j], removed),
                decreases rest@.len(),
            {
                let ghost r0 = rest@;
                assert(layouts_view(r0)[0] == cs[k]);
                let c = rest.remove(0);
                assert(c@ == cs[k]);
                assert forall|j: int| 0 <= j < rest@.len() implies layouts_view(rest@)[j] == cs.skip(
                    k + 1,
                )[j] by {
                    assert(rest@[j] == r0[j + 1]);
                    assert(layouts_view(r0)[j + 1] == cs.skip(k)[j + 1]);
                }
                assert(layouts_view(rest@) =~= cs.skip(k + 1));
                let c2 = renumber_owned(c, removed);
                out.push(c2);
                proof {
                    k = k + 1;
                }
            }
            let r = PaneLayout::Split { dir, children: out };
            proof {
                lemma_layout_view(r);
                assert(layouts_view(out@) =~= renumbered(l@, removed)->children);
            }
            r
        },
    }
}

// ── Laws of the layout tree ───────────────────────────────────────────────────

/// `s` with `x` inserted just after the first occurrence of `t`.
pub open spec fn insert_after_first(s: Seq<usize>, t: usize, x: usize) -> Seq<usize>
    decreases s.len(),
{
    if s.len() == 0 {
        s
    } else if s[0] == t {
        seq![t, x] + s.drop_first()
    } else {
        seq![s[0]] + insert_after_first(s.drop_first(), t, x)
    }
}

/// `s` without the occurrences of `t`.
pub open spec fn drop_value(s: Seq<usize>, t: usize) -> Seq<usize>
    decreases s.len(),
{
    if s.len() == 0 {
        s
    } else if s.last() == t {
        drop_value(s.drop_last(), t)
    } else {
        drop_value(s.drop_last(), t).push(s.last())
    }
}

/// `s` with every index above `r` lowered by one.
pub open spec fn lowered_above(s: Seq<usize>, r: usize) -> Seq<usize> {
    Seq::new(
        s.len(),
        |i: int|
            if s[i] > r {
                (s[i] - 1) as usize
            } else {
                s[i]
            },
    )
}

proof fn lemma_leaves_concat(a: Seq<LayoutV>, b: Seq<LayoutV>)
    ensures
        leaves_of_all(a + b) == leaves_of_all(a) + leaves_of_all(b),
    decreases b.len(),
{
    if b.len() == 0 {
        assert(a + b =~= a);
        assert(leaves_of_all(a) + leaves_of_all(b) =~= leaves_of_all(a));
    } else {
        assert((a + b).drop_last() =~= a + b.drop_last());
        assert((a + b).last() == b.last());
        lemma_leaves_concat(a, b.drop_last());
        assert(leaves_of_all(a + b) =~= leaves_of_all(a) + leaves_of_all(b));
    }
}

proof fn lemma_leaves_cons(cs: Seq<LayoutV>)
    requires
        cs.len() > 0,
    ensures
        leaves_of_all(cs) == leaves_of(cs[0]) + leaves_of_all(cs.drop_first()),
{
    assert(cs =~= seq![cs[0]] + cs.drop_first());
    lemma_leaves_concat(seq![cs[0]], cs.drop_first());
    assert(seq![cs[0]].drop_last() =~= Seq::<LayoutV>::empty());
    assert(seq![cs[0]].last() == cs[0]);
    assert(leaves_of_all(Seq::<LayoutV>::empty()) == Seq::<usize>::empty());
    assert(leaves_of_all(seq![cs[0]]) =~= leaves_of(cs[0]));
}

proof fn lemma_insert_after_concat(a: Seq<usize>, b: Seq<usize>, t: usize, x: usize)
    ensures
        a.contains(t) ==> insert_after_first(a + b, t, x) == insert_after_first(a, t, x) + b,
        !a.contains(t) ==> insert_after_first(a + b, t, x) == a + insert_after_first(b, t, x),
    decreases a.len(),
{
    if a.len() == 0 {
        assert(a + b =~= b);
        assert(a + insert_after_first(b, t, x) =~= insert_after_first(b, t, x));
    } else {
        assert((a + b).drop_first() =~= a.drop_first() + b);
        lemma_insert_after_concat(a.drop_first(), b, t, x);
        if a[0] == t {
            assert(a.contains(t));
            assert(insert_after_first(a + b, t, x) =~= insert_after_first(a, t, x) + b);
        } else {
            assert(a.contains(t) <==> a.drop_first().contains(t)) by {
                if a.contains(t) {
                    let j = choose|j: int| 0 <= j < a.len() && a[j] == t;
                    assert(a.drop_first()[j - 1] == t);
                }
                if a.drop_first().contains(t) {
                    let j = choose|j: int| 0 <= j < a.drop_first().len() && a.drop_first()[j] == t;
                    assert(a[j + 1] == t);
                }
            }
            if a.contains(t) {
                assert(insert_after_first(a + b, t, x) =~= insert_after_first(a, t, x) + b);
            } else {
                assert(insert_after_first(a + b, t, x) =~= a + insert_after_first(b, t, x));
            }
        }
    }
}

proof fn lemma_contains_concat(a: Seq<usize>, b: Seq<usize>, t: usize)
    ensures
        (a + b).contains(t) <==> a.contains(t) || b.contains(t),
{
    if (a + b).contains(t) {
        let j = choose|j: int| 0 <= j < (a + b).len() && (a + b)[j] == t;
        if j < a.len() {
            assert(a[j] == t);
        } else {
            assert(b[j - a.len()] == t);
        }
    }
    if a.contains(t) {
        let j = choose|j: int| 0 <= j < a.len() && a[j] == t;
        assert((a + b)[j] == t);
    }
    if b.contains(t) {
        let j = choose|j: int| 0 <= j < b.len() && b[j] == t;
        assert((a + b)[a.len() + j] == t);
    }
}

/// Splitting the pane `target` puts the new pane right after it in tree
/// order, and reports whether `target` was in the tree.
pub proof fn law_split_leaf_leaves(v: LayoutV, target: usize, new_idx: usize, dir: SplitDir)
    ensures
        leaves_of(split_at(v, target, new_idx, dir).0) == insert_after_first(
            leaves_of(v),
            target,
            new_idx,
        ),
        split_at(v, target, new_idx, dir).1 == leaves_of(v).contains(target),
    decreases v,
{
    match v {
        LayoutV::Leaf(i) => {
            let r = split_at(v, target, new_idx, dir).0;
            if i == target {
                assert(leaves_of(v)[0] == target);
                let cs = seq![LayoutV::Leaf(target), LayoutV::Leaf(new_idx)];
                lemma_leaves_cons(cs);
                lemma_leaves_cons(cs.drop_first());
                assert(cs.drop_first().drop_first() =~= Seq::<LayoutV>::empty());
                assert(leaves_of(r) =~= seq![target, new_idx]);
                assert(insert_after_first(seq![i], target, new_idx) =~= seq![target, new_idx]);
            } else {
                assert(!leaves_of(v).contains(target)) by {
                    if leaves_of(v).contains(target) {
                        let j = choose|j: int| 0 <= j < 1 && leaves_of(v)[j] == target;
                    }
                }
                assert(seq![i].drop_first() =~= Seq::<usize>::empty());
                assert(insert_after_first(Seq::<usize>::empty(), target, new_idx) == Seq::<
                    usize,
                >::empty());
                assert(insert_after_first(seq![i], target, new_idx) =~= seq![i]);
            }
        },
        LayoutV::Split { dir: d, children } => {
            law_split_in_leaves(children, target, new_idx, dir);
        },
    }
}

proof fn law_split_in_leaves(cs: Seq<LayoutV>, target: usize, new_idx: usize, dir: SplitDir)
    ensures
        leaves_of_all(split_in(cs, target, new_idx, dir).0) == insert_after_first(
            leaves_of_all(cs),
            target,
            new_idx,
        ),
        split_in(cs, target, new_idx, dir).1 == leaves_of_all(cs).contains(target),
    decreases cs,
{
    if cs.len() > 0 {
        let first = split_at(cs[0], target, new_idx, dir);
        law_split_leaf_leaves(cs[0], target, new_idx, dir);
        law_split_in_leaves(cs.drop_first(), target, new_idx, dir);
        lemma_leaves_cons(cs);
        let a = leaves_of(cs[0]);
        let b = leaves_of_all(cs.drop_first());
        lemma_insert_after_concat(a, b, target, new_idx);
        lemma_contains_concat(a, b, target);
        if first.1 {
            let r = cs.update(0, first.0);
            lemma_leaves_cons(r);
            assert(r.drop_first() =~= cs.drop_first());
        } else {
            let rest = split_in(cs.drop_first(), target, new_idx, dir);
            let r = seq![cs[0]] + rest.0;
            lemma_leaves_cons(r);
            assert(r.drop_first() =~= rest.0);
        }
    } else {
        assert(!leaves_of_all(cs).contains(target));
    }
}

proof fn lemma_drop_value_concat(a: Seq<usize>, b: Seq<usize>, t: usize)
    ensures
        drop_value(a + b, t) == drop_value(a, t) + drop_value(b, t),
    decreases b.len(),
{
    if b.len() == 0 {
        assert(a + b =~= a);
        assert(drop_value(a, t) + drop_value(b, t) =~= drop_value(a, t));
    } else {
        assert((a + b).drop_last() =~= a + b.drop_last());
        lemma_drop_value_concat(a, b.drop_last(), t);
        assert(drop_value(a + b, t) =~= drop_value(a, t) + drop_value(b, t));
    }
}

/// Removing the pane `target` from a split layout removes exactly its
/// leaves; the other panes keep their order.
pub proof fn law_remove_leaf_leaves(v: LayoutV, target: usize)
    requires
        v is Split,
    ensures
        leaves_of(without_leaf(v, target)) == drop_value(leaves_of(v), target),
    decreases v,
{
    if let LayoutV::Split { dir, children } = v {
        lemma_without_in_leaves(children, target);
        let cs = without_leaf_in(children, target);
        if cs.len() == 1 {
            lemma_leaves_cons(cs);
            assert(cs.drop_first() =~= Seq::<LayoutV>::empty());
            assert(leaves_of_all(cs) =~= leaves_of(cs[0]));
        }
    }
}

proof fn lemma_without_in_leaves(cs: Seq<LayoutV>, target: usize)
    ensures
        leaves_of_all(without_leaf_in(cs, target)) == drop_value(leaves_of_all(cs), target),
    decreases cs,
{
    if cs.len() > 0 {
        let rest = without_leaf_in(cs.drop_last(), target);
        lemma_without_in_leaves(cs.drop_last(), target);
        let c = cs.last();
        lemma_drop_value_concat(leaves_of_all(cs.drop_last()), leaves_of(c), target);
        if c == LayoutV::Leaf(target) {
            assert(drop_value(seq![target], target) =~= Seq::<usize>::empty()) by {
                assert(seq![target].drop_last() =~= Seq::<usize>::empty());
                assert(seq![target].last() == target);
                assert(drop_value(Seq::<usize>::empty(), target) == Seq::<usize>::empty());
            }
            assert(drop_value(leaves_of_all(cs.drop_last()), target) + drop_value(
                leaves_of(c),
                target,
            ) =~= drop_value(leaves_of_all(cs.drop_last()), target));
        } else {
            let r = rest.push(without_leaf(c, target));
            assert(r.drop_last() =~= rest);
            match c {
                LayoutV::Leaf(i) => {
                    assert(drop_value(seq![i], target) =~= seq![i]) by {
                        assert(seq![i].drop_last() =~= Seq::<usize>::empty());
                        assert(seq![i].last() == i);
                        assert(drop_value(Seq::<usize>::empty(), target) == Seq::<usize>::empty());
                        assert(Seq::<usize>::empty().push(i) =~= seq![i]);
                    }
                },
                LayoutV::Split { .. } => {
                    law_remove_leaf_leaves(c, target);
                },
            }
        }
    } else {
        assert(drop_value(Seq::<usize>::empty(), target) =~= Seq::<usize>::empty());
    }
}

/// Renumbering after removing pane `removed` lowers by one exactly the leaf
/// indices above it, in place.
pub proof fn law_renumber_leaves(v: LayoutV, removed: usize)
    ensures
        leaves_of(renumbered(v, removed)) == lowered_above(leaves_of(v), removed),
    decreases v,
{
    match v {
        LayoutV::Leaf(i) => {
            assert(lowered_above(seq![i], removed) =~= leaves_of(renumbered(v, removed)));
        },
        LayoutV::Split { dir, children } => {
            lemma_renumber_in_leaves(children, removed, children.len() as int);
            let cs = renumbered(v, removed)->children;
            assert(cs =~= Seq::new(
                children.len(),
                |k: int| renumbered(children[k], removed),
            ));
            assert(children.take(children.len() as int) =~= children);
        },
    }
}

proof fn lemma_renumber_in_leaves(cs: Seq<LayoutV>, removed: usize, n: int)
    requires
        0 <= n <= cs.len(),
    ensures
        leaves_of_all(Seq::new(n as nat, |k: int| renumbered(cs[k], removed))) == lowered_above(
            leaves_of_all(cs.take(n)),
            removed,
        ),
    decreases cs, n,
{
    let r = Seq::new(n as nat, |k: int| renumbered(cs[k], removed));
    if n == 0 {
        assert(cs.take(0) =~= Seq::<LayoutV>::empty());
        assert(lowered_above(Seq::<usize>::empty(), removed) =~= Seq::<usize>::empty());
    } else {
        lemma_renumber_in_leaves(cs, removed, n - 1);
        assert(r.drop_last() =~= Seq::new((n - 1) as nat, |k: int| renumbered(cs[k], removed)));
        assert(cs.take(n).drop_last() =~= cs.take(n - 1));
        assert(cs.take(n).last() == cs[n - 1]);
        assert(decreases_to!(cs => cs[n - 1]));
        law_renumber_leaves(cs[n - 1], removed);
        assert(lowered_above(leaves_of_all(cs.take(n)), removed) =~= lowered_above(
            leaves_of_all(cs.take(n - 1)),
            removed,
        ) + lowered_above(leaves_of(cs[n - 1]), removed));
    }
}

proof fn lemma_push_contains(s: Seq<usize>, v: usize, x: usize)
    ensures
        s.push(v).contains(x) <==> (s.contains(x) || x == v),
{
    if s.push(v).contains(x) {
        let j = choose|j: int| 0 <= j < s.push(v).len() && s.push(v)[j] == x;
        if j < s.len() {
            assert(s[j] == x);
        }
    }
    if s.contains(x) {
        let j = choose|j: int| 0 <= j < s.len() && s[j] == x;
        assert(s.push(v)[j] == x);
    }
    if x == v {
        assert(s.push(v)[s.len() as int] == x);
    }
}

proof fn lemma_drop_value_props(s: Seq<usize>, t: usize)
    ensures
        forall|x: usize| #[trigger] drop_value(s, t).contains(x) <==> (s.contains(x) && x != t),
        s.no_duplicates() ==> drop_value(s, t).no_duplicates(),
    decreases s.len(),
{
    if s.len() == 0 {
        assert forall|x: usize| #[trigger] drop_value(s, t).contains(x) <==> (s.contains(x) && x
            != t) by {
            if s.contains(x) {
                let j = choose|j: int| 0 <= j < s.len() && s[j] == x;
            }
            if drop_value(s, t).contains(x) {
                let j = choose|j: int| 0 <= j < drop_value(s, t).len() && drop_value(s, t)[j] == x;
            }
        }
    } else {
        let init = s.drop_last();
        let last = s.last();
        lemma_drop_value_props(init, t);
        assert(s =~= init.push(last));
        let d = drop_value(init, t);
        assert forall|x: usize| #[trigger] drop_value(s, t).contains(x) <==> (s.contains(x) && x
            != t) by {
            lemma_push_contains(init, last, x);
            if last != t {
                lemma_push_contains(d, last, x);
            }
        }
        if s.no_duplicates() {
            assert(init.no_duplicates()) by {
                assert forall|a: int, b: int|
                    0 <= a < init.len() && 0 <= b < init.len() && a != b implies init[a]
                    != init[b] by {
                    assert(s[a] == init[a] && s[b] == init[b]);
                }
            }
            if last != t {
                assert(!d.contains(last)) by {
                    if init.contains(last) {
                        let j = choose|j: int| 0 <= j < init.len() && init[j] == last;
                        assert(s[j] == s[s.len() - 1]);
                    }
                }
                let e = d.push(last);
                assert forall|a: int, b: int| 0 <= a < e.len() && 0 <= b < e.len() && a != b implies e[a]
                    != e[b] by {
                    if a < d.len() && b < d.len() {
                        assert(e[a] == d[a] && e[b] == d[b]);
                    } else if a < d.len() {
                        assert(d.contains(d[a]));
                        assert(e[b] == last);
                    } else if b < d.len() {
                        assert(d.contains(d[b]));
                        assert(e[a] == last);
                    }
                }
            }
        }
    }
}

/// Closing a pane keeps the layout in step with the list of panes: when the
/// leaves of a split layout are the panes `0..n`, each once, removing the
/// leaf of pane `closed` and renumbering leaves the panes `0..n - 1`, each once.
pub proof fn law_close_pane_in_sync(v: LayoutV, closed: usize, n: nat)
    requires
        v is Split,
        closed < n <= usize::MAX,
        leaves_of(v).no_duplicates(),
        forall|x: usize| leaves_of(v).contains(x) <==> x < n,
    ensures
        leaves_of(renumbered(without_leaf(v, closed), closed)).no_duplicates(),
        forall|x: usize|
            leaves_of(renumbered(without_leaf(v, closed), closed)).contains(x) <==> x < n - 1,
{
    let l = leaves_of(v);
    law_remove_leaf_leaves(v, closed);
    let d = drop_value(l, closed);
    lemma_drop_value_props(l, closed);
    law_renumber_leaves(without_leaf(v, closed), closed);
    let w = lowered_above(d, closed);
    assert(leaves_of(renumbered(without_leaf(v, closed), closed)) == w);
    assert forall|a: int| 0 <= a < d.len() implies d[a] != closed && (#[trigger] d[a]) < n by {
        assert(d.contains(d[a]));
        assert(l.contains(d[a]));
    }
    assert forall|a: int, b: int| 0 <= a < w.len() && 0 <= b < w.len() && a != b implies w[a]
        != w[b] by {
        assert(d[a] != d[b]);
        assert(d[a] != closed && d[b] != closed);
    }
    assert forall|x: usize| w.contains(x) <==> x < n - 1 by {
        if w.contains(x) {
            let j = choose|j: int| 0 <= j < w.len() && w[j] == x;
            assert(d[j] != closed && d[j] < n);
        }
        if x < n - 1 {
            if x < closed {
                assert(l.contains(x));
                assert(drop_value(l, closed).contains(x));
                let j = choose|j: int| 0 <= j < d.len() && d[j] == x;
                assert(w[j] == x);
            } else {
                let y = (x + 1) as usize;
                assert(y == x + 1);
                assert(y < n);
                assert(l.contains(y));
                assert(drop_value(l, closed).contains(y));
                let j = choose|j: int| 0 <= j < d.len() && d[j] == y;
                assert(w[j] == x);
            }
        }
    }
}

} // verus!
