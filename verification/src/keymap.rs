//! Multi-key normal-mode bindings: what a sequence of keys (in its string
//! form, keys separated by spaces) means, and the hints shown while one is
//! being typed.
use vstd::prelude::*;
use crate::text::chars_of;

verus! {

// ── Action ────────────────────────────────────────────────────────────────────

#[derive(Debug, Clone, Copy, PartialEq, Eq, Structural)]
pub enum PaneDir {
    Left,
    Right,
    Up,
    Down,
}

#[derive(Debug, Clone, Copy, PartialEq, Eq, Structural)]
pub enum Action {
    GoToFileStart,
    GoToFileEnd,
    DeleteLine,
    DeleteWord,
    DeleteChar,
    YankLine,
    SplitHorizontal,
    SplitVertical,
    ClosePane,
    NextPane,
    FocusPane(PaneDir),
    SaveFile,
    QuitAll,
}

// ── Sequence matching ─────────────────────────────────────────────────────────

#[derive(Debug, Clone, Copy, PartialEq, Eq, Structural)]
pub enum MatchResult {
    Action(Action),
    /// Current sequence is a known prefix — wait for more keys.
    Prefix,
    /// No binding starts with this sequence.
    NoMatch,
}

/// The action bound to the complete key sequence `s`.
pub open spec fn binding(s: Seq<char>) -> Option<Action> {
    if s == "g g"@ {
        Some(Action::GoToFileStart)
    } else if s == "d d"@ {
        Some(Action::DeleteLine)
    } else if s == "d w"@ {
        Some(Action::DeleteWord)
    } else if s == "y y"@ {
        Some(Action::YankLine)
    } else if s == "C-w s"@ || s == "C-w C-s"@ || s == "SPC w s"@ {
        Some(Action::SplitHorizontal)
    } else if s == "C-w v"@ || s == "C-w C-v"@ || s == "SPC w v"@ {
        Some(Action::SplitVertical)
    } else if s == "C-w w"@ || s == "C-w C-w"@ || s == "SPC w w"@ {
        Some(Action::NextPane)
    } else if s == "C-w c"@ || s == "C-w q"@ || s == "SPC w c"@ || s == "SPC w q"@ {
        Some(Action::ClosePane)
    } else if s == "C-w h"@ || s == "SPC w h"@ {
        Some(Action::FocusPane(PaneDir::Left))
    } else if s == "C-w j"@ || s == "SPC w j"@ {
        Some(Action::FocusPane(PaneDir::Down))
    } else if s == "C-w k"@ || s == "SPC w k"@ {
        Some(Action::FocusPane(PaneDir::Up))
    } else if s == "C-w l"@ || s == "SPC w l"@ {
        Some(Action::FocusPane(PaneDir::Right))
    } else if s == "SPC f s"@ {
        Some(Action::SaveFile)
    } else if s == "SPC q q"@ {
        Some(Action::QuitAll)
    } else {
        None
    }
}

/// The sequences that bindings continue.
pub open spec fn known_prefix(s: Seq<char>) -> bool {
    ||| s == "g"@
    ||| s == "d"@
    ||| s == "y"@
    ||| s == "C-w"@
    ||| s == "SPC"@
    ||| s == "SPC f"@
    ||| s == "SPC w"@
    ||| s == "SPC b"@
    ||| s == "SPC q"@
}

/// What `match_seq` answers for `s`.
pub open spec fn spec_match_seq(s: Seq<char>) -> MatchResult {
    match binding(s) {
        Some(a) => MatchResult::Action(a),
        None => if known_prefix(s) {
            MatchResult::Prefix
        } else {
            MatchResult::NoMatch
        },
    }
}

/// The hint shown after the prefix `s`; empty for any other sequence.
pub open spec fn spec_hint(s: Seq<char>) -> Seq<char> {
    if s == "g"@ {
        "g: top of file"@
    } else if s == "d"@ {
        "d: delete line  w: delete word"@
    } else if s == "y"@ {
        "y: yank line"@
    } else if s == "C-w"@ {
        "s: hsplit  v: vsplit  w: next  c/q: close  h/j/k/l: focus"@
    } else if s == "SPC"@ {
        "f: file  w: window  b: buffer  q: quit"@
    } else if s == "SPC f"@ {
        "s: save"@
    } else if s == "SPC w"@ {
        "s: hsplit  v: vsplit  w: next  c/q: close  h/j/k/l: focus"@
    } else if s == "SPC b"@ {
        "(buffer commands — coming soon)"@
    } else if s == "SPC q"@ {
        "q: quit"@
    } else {
        ""@
    }
}

/// Whether `v` spells out `lit`.
fn is(v: &Vec<char>, lit: &str) -> (r: bool)
    ensures
        r == (v@ == lit@),
{
    let w = chars_of(lit);
    if v.len() != w.len() {
        return false;
    }
    let mut i: usize = 0;
    while i < v.len()
        invariant
            i <= v@.len(),
            v@.len() == w@.len(),
            w@ == lit@,
            v@.subrange(0, i as int) == w@.subrange(0, i as int),
        decreases v@.len() - i,
    {
        if v[i] != w[i] {
            assert(v@[i as int] != w@[i as int]);
            return false;
        }
        assert(v@.subrange(0, i + 1) =~= v@.subrange(0, i as int).push(v@[i as int]));
        assert(w@.subrange(0, i + 1) =~= w@.subrange(0, i as int).push(w@[i as int]));
        i += 1;
    }
    assert(v@ =~= v@.subrange(0, i as int));
    assert(w@ =~= w@.subrange(0, i as int));
    true
}

/// All recognised multi-key normal-mode sequences (string form → action).
///
/// Single-key bindings (h, j, k, l, i, …) are handled separately.
pub fn exact_match(s: &str) -> (r: Option<Action>)
    ensures
        r == binding(s@),
{
    let v = chars_of(s);
    if is(&v, "g g") {
        Some(Action::GoToFileStart)
    } else if is(&v, "d d") {
        Some(Action::DeleteLine)
    } else if is(&v, "d w") {
        Some(Action::DeleteWord)
    } else if is(&v, "y y") {
        Some(Action::YankLine)
    } else if is(&v, "C-w s") || is(&v, "C-w C-s") || is(&v, "SPC w s") {
        Some(Action::SplitHorizontal)
    } else if is(&v, "C-w v") || is(&v, "C-w C-v") || is(&v, "SPC w v") {
        Some(Action::SplitVertical)
    } else if is(&v, "C-w w") || is(&v, "C-w C-w") || is(&v, "SPC w w") {
        Some(Action::NextPane)
    } else if is(&v, "C-w c") || is(&v, "C-w q") || is(&v, "SPC w c") || is(&v, "SPC w q") {
        Some(Action::ClosePane)
    } else if is(&v, "C-w h") || is(&v, "SPC w h") {
        Some(Action::FocusPane(PaneDir::Left))
    } else if is(&v, "C-w j") || is(&v, "SPC w j") {
        Some(Action::FocusPane(PaneDir::Down))
    } else if is(&v, "C-w k") || is(&v, "SPC w k") {
        Some(Action::FocusPane(PaneDir::Up))
    } else if is(&v, "C-w l") || is(&v, "SPC w l") {
        Some(Action::FocusPane(PaneDir::Right))
    } else if is(&v, "SPC f s") {
        Some(Action::SaveFile)
    } else if is(&v, "SPC q q") {
        Some(Action::QuitAll)
    } else {
        None
    }
}

fn is_known_prefix(s: &str) -> (r: bool)
    ensures
        r == known_prefix(s@),
{
    let v = chars_of(s);
    is(&v, "g") || is(&v, "d") || is(&v, "y") || is(&v, "C-w") || is(&v, "SPC") || is(
        &v,
        "SPC f",
    ) || is(&v, "SPC w") || is(&v, "SPC b") || is(&v, "SPC q")
}

pub fn match_seq(seq_str: &str) -> (r: MatchResult)
    ensures
        r == spec_match_seq(seq_str@),
{
    if let Some(action) = exact_match(seq_str) {
        return MatchResult::Action(action);
    }
    if is_known_prefix(seq_str) {
        return MatchResult::Prefix;
    }
    MatchResult::NoMatch
}

// ── Which-key hints ───────────────────────────────────────────────────────────

pub fn hint_for_prefix(prefix: &str) -> (r: &'static str)
    ensures
        r@ == spec_hint(prefix@),
{
    let v = chars_of(prefix);
    if is(&v, "g") {
        "g: top of file"
    } else if is(&v, "d") {
        "d: delete line  w: delete word"
    } else if is(&v, "y") {
        "y: yank line"
    } else if is(&v, "C-w") {
        "s: hsplit  v: vsplit  w: next  c/q: close  h/j/k/l: focus"
    } else if is(&v, "SPC") {
        "f: file  w: window  b: buffer  q: quit"
    } else if is(&v, "SPC f") {
        "s: save"
    } else if is(&v, "SPC w") {
        "s: hsplit  v: vsplit  w: next  c/q: close  h/j/k/l: focus"
    } else if is(&v, "SPC b") {
        "(buffer commands — coming soon)"
    } else if is(&v, "SPC q") {
        "q: quit"
    } else {
        ""
    }
}

// ── Keys ──────────────────────────────────────────────────────────────────────

/// The key of a key press.
#[derive(Debug, Clone, PartialEq, Eq)]
pub enum KeyCode {
    Char(char),
    Esc,
    Enter,
    Backspace,
    Tab,
    Left,
    Right,
    Up,
    Down,
    Home,
    End,
    /// Any other key, by the name the terminal library gives it.
    Other(String),
}

/// A key press: the key and whether Control was held.
#[derive(Debug, Clone, PartialEq, Eq)]
pub struct Key {
    pub code: KeyCode,
    pub ctrl: bool,
}

/// The canonical string form of a key press.
pub open spec fn spec_key_str(k: Key) -> Seq<char> {
    match k.code {
        KeyCode::Char(c) => if c == ' ' && !k.ctrl {
            "SPC"@
        } else if k.ctrl {
            seq!['C', '-', c]
        } else {
            seq![c]
        },
        KeyCode::Esc => "Esc"@,
        KeyCode::Enter => "RET"@,
        KeyCode::Backspace => "BS"@,
        KeyCode::Tab => "TAB"@,
        KeyCode::Left => "Left"@,
        KeyCode::Right => "Right"@,
        KeyCode::Up => "Up"@,
        KeyCode::Down => "Down"@,
        KeyCode::Home => "Home"@,
        KeyCode::End => "End"@,
        KeyCode::Other(name) => name@,
    }
}

/// The string form of a key sequence: the keys' forms separated by spaces.
pub open spec fn spec_seq_str(keys: Seq<Key>) -> Seq<char> {
    crate::serializer::join(Seq::new(keys.len(), |i: int| spec_key_str(keys[i])), seq![' '])
}

/// Produce a canonical string representation of a key event.
pub fn key_to_str(k: &Key) -> (r: String)
    ensures
        r@ == spec_key_str(*k),
{
    let mut r = String::new();
    match &k.code {
        KeyCode::Char(c) => {
            if *c == ' ' && !k.ctrl {
                crate::text::push_str(&mut r, "SPC");
            } else if k.ctrl {
                crate::text::push_char(&mut r, 'C');
                crate::text::push_char(&mut r, '-');
                crate::text::push_char(&mut r, *c);
            } else {
                crate::text::push_char(&mut r, *c);
            }
        },
        KeyCode::Esc => crate::text::push_str(&mut r, "Esc"),
        KeyCode::Enter => crate::text::push_str(&mut r, "RET"),
        KeyCode::Backspace => crate::text::push_str(&mut r, "BS"),
        KeyCode::Tab => crate::text::push_str(&mut r, "TAB"),
        KeyCode::Left => crate::text::push_str(&mut r, "Left"),
        KeyCode::Right => crate::text::push_str(&mut r, "Right"),
        KeyCode::Up => crate::text::push_str(&mut r, "Up"),
        KeyCode::Down => crate::text::push_str(&mut r, "Down"),
        KeyCode::Home => crate::text::push_str(&mut r, "Home"),
        KeyCode::End => crate::text::push_str(&mut r, "End"),
        KeyCode::Other(name) => crate::text::push_str(&mut r, name.as_str()),
    }
    assert(r@ =~= spec_key_str(*k));
    r
}

pub fn seq_to_str(seq: &[Key]) -> (r: String)
    ensures
        r@ == spec_seq_str(seq@),
{
    let ghost parts = Seq::new(seq@.len(), |i: int| spec_key_str(seq@[i]));
    let mut r = String::new();
    let mut i: usize = 0;
    while i < seq.len()
        invariant
            i <= seq@.len(),
            parts == Seq::new(seq@.len(), |i: int| spec_key_str(seq@[i])),
            r@ == crate::serializer::join(parts.take(i as int), seq![' ']),
        decreases seq@.len() - i,
    {
        let s = key_to_str(&seq[i]);
        let ghost r0 = r@;
        if i > 0 {
            crate::text::push_char(&mut r, ' ');
        }
        crate::text::push_str(&mut r, s.as_str());
        assert(parts.take(i + 1).drop_last() =~= parts.take(i as int));
        assert(parts.take(i + 1).last() == s@);
        if i == 0 {
            assert(parts.take(1) =~= seq![s@]);
        }
        assert(r@ =~= crate::serializer::join(parts.take(i + 1), seq![' ']));
        i += 1;
    }
    assert(parts.take(i as int) =~= parts);
    r
}

// ── Laws ──────────────────────────────────────────────────────────────────────

/// A hint is shown exactly after a sequence that bindings continue.
pub proof fn law_hint_iff_known_prefix(s: Seq<char>)
    ensures
        known_prefix(s) <==> spec_hint(s).len() > 0,
{
    reveal_strlit("g: top of file");
    reveal_strlit("d: delete line  w: delete word");
    reveal_strlit("y: yank line");
    reveal_strlit("s: hsplit  v: vsplit  w: next  c/q: close  h/j/k/l: focus");
    reveal_strlit("f: file  w: window  b: buffer  q: quit");
    reveal_strlit("s: save");
    reveal_strlit("(buffer commands — coming soon)");
    reveal_strlit("q: quit");
    reveal_strlit("");
}

/// No complete binding is also a prefix of a longer one, so a sequence is
/// never both acted on and waited on.
pub proof fn law_binding_not_prefix(s: Seq<char>)
    ensures
        binding(s) is Some ==> !known_prefix(s),
{
    reveal_strlit("g");
    reveal_strlit("d");
    reveal_strlit("y");
    reveal_strlit("C-w");
    reveal_strlit("SPC");
    reveal_strlit("SPC f");
    reveal_strlit("SPC w");
    reveal_strlit("SPC b");
    reveal_strlit("SPC q");
    reveal_strlit("g g");
    reveal_strlit("d d");
    reveal_strlit("d w");
    reveal_strlit("y y");
    reveal_strlit("C-w s");
    reveal_strlit("C-w C-s");
    reveal_strlit("SPC w s");
    reveal_strlit("C-w v");
    reveal_strlit("C-w C-v");
    reveal_strlit("SPC w v");
    reveal_strlit("C-w w");
    reveal_strlit("C-w C-w");
    reveal_strlit("SPC w w");
    reveal_strlit("C-w c");
    reveal_strlit("C-w q");
    reveal_strlit("SPC w c");
    reveal_strlit("SPC w q");
    reveal_strlit("C-w h");
    reveal_strlit("SPC w h");
    reveal_strlit("C-w j");
    reveal_strlit("SPC w j");
    reveal_strlit("C-w k");
    reveal_strlit("SPC w k");
    reveal_strlit("C-w l");
    reveal_strlit("SPC w l");
    reveal_strlit("SPC f s");
    reveal_strlit("SPC q q");
    if binding(s) is Some && known_prefix(s) {
        let c0 = s[0];
        if s.len() == 3 {
            assert(c0 == 'g' || c0 == 'd' || c0 == 'y');
            assert(c0 == 'C' || c0 == 'S');
        } else {
            assert(s.len() == 5);
            assert(c0 == 'C');
            assert(c0 == 'S');
        }
    }
}

/// The window keys after `C-w` or `SPC w` act as in vim: `h`, `j`, `k` and
/// `l` move the focus left, down, up and right (so `h` and `l`, `j` and `k`
/// go opposite ways); `s` splits horizontally and `v` vertically; `w` moves
/// to the next pane; `c` and `q` close the pane. After `C-w`, `s`, `v` and
/// `w` may also be typed with Control held.
#[verifier::spinoff_prover]
pub proof fn law_window_keys(c: char)
    ensures
        ({
            let want = if c == 'h' {
                Some(Action::FocusPane(PaneDir::Left))
            } else if c == 'j' {
                Some(Action::FocusPane(PaneDir::Down))
            } else if c == 'k' {
                Some(Action::FocusPane(PaneDir::Up))
            } else if c == 'l' {
                Some(Action::FocusPane(PaneDir::Right))
            } else if c == 's' {
                Some(Action::SplitHorizontal)
            } else if c == 'v' {
                Some(Action::SplitVertical)
            } else if c == 'w' {
                Some(Action::NextPane)
            } else if c == 'c' || c == 'q' {
                Some(Action::ClosePane)
            } else {
                None
            };
            want is Some ==> {
                &&& spec_match_seq(seq!['C', '-', 'w', ' ', c]) == MatchResult::Action(want->0)
                &&& spec_match_seq(seq!['S', 'P', 'C', ' ', 'w', ' ', c]) == MatchResult::Action(
                    want->0,
                )
                &&& (c == 's' || c == 'v' || c == 'w') ==> spec_match_seq(
                    seq!['C', '-', 'w', ' ', 'C', '-', c],
                ) == MatchResult::Action(want->0)
            }
        }),
{
    reveal_strlit("g");
    reveal_strlit("d");
    reveal_strlit("y");
    reveal_strlit("C-w");
    reveal_strlit("SPC");
    reveal_strlit("SPC f");
    reveal_strlit("SPC w");
    reveal_strlit("SPC b");
    reveal_strlit("SPC q");
    reveal_strlit("g g");
    reveal_strlit("d d");
    reveal_strlit("d w");
    reveal_strlit("y y");
    reveal_strlit("C-w s");
    reveal_strlit("C-w C-s");
    reveal_strlit("SPC w s");
    reveal_strlit("C-w v");
    reveal_strlit("C-w C-v");
    reveal_strlit("SPC w v");
    reveal_strlit("C-w w");
    reveal_strlit("C-w C-w");
    reveal_strlit("SPC w w");
    reveal_strlit("C-w c");
    reveal_strlit("C-w q");
    reveal_strlit("SPC w c");
    reveal_strlit("SPC w q");
    reveal_strlit("C-w h");
    reveal_strlit("SPC w h");
    reveal_strlit("C-w j");
    reveal_strlit("SPC w j");
    reveal_strlit("C-w k");
    reveal_strlit("SPC w k");
    reveal_strlit("C-w l");
    reveal_strlit("SPC w l");
    reveal_strlit("SPC f s");
    reveal_strlit("SPC q q");
    let a = seq!['C', '-', 'w', ' ', c];
    let b = seq!['S', 'P', 'C', ' ', 'w', ' ', c];
    let d = seq!['C', '-', 'w', ' ', 'C', '-', c];
    assert(a[4] == c);
    assert(b[6] == c);
    assert(d[6] == c);
    if c == 's' {
        assert(d =~= "C-w C-s"@);
    } else if c == 'v' {
        assert(d =~= "C-w C-v"@);
    } else if c == 'w' {
        assert(d =~= "C-w C-w"@);
    }
    if c == 'h' {
        assert(a =~= "C-w h"@);
        assert(b =~= "SPC w h"@);
    } else if c == 'j' {
        assert(a =~= "C-w j"@);
        assert(b =~= "SPC w j"@);
    } else if c == 'k' {
        assert(a =~= "C-w k"@);
        assert(b =~= "SPC w k"@);
    } else if c == 'l' {
        assert(a =~= "C-w l"@);
        assert(b =~= "SPC w l"@);
    } else if c == 's' {
        assert(a =~= "C-w s"@);
        assert(b =~= "SPC w s"@);
    } else if c == 'v' {
        assert(a =~= "C-w v"@);
        assert(b =~= "SPC w v"@);
    } else if c == 'w' {
        assert(a =~= "C-w w"@);
        assert(b =~= "SPC w w"@);
    } else if c == 'c' {
        assert(a =~= "C-w c"@);
        assert(b =~= "SPC w c"@);
    } else if c == 'q' {
        assert(a =~= "C-w q"@);
        assert(b =~= "SPC w q"@);
    }
}

} // verus!
