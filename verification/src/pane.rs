//! One editor pane: a buffer of lines, a cursor and a viewport.
//!
//! The cursor column is a byte offset into the UTF-8 encoding of the cursor
//! line, as in the rest of the editor; edits that split a line there need the
//! offset to fall between two characters.
use vstd::prelude::*;
use vstd::utf8::encode_utf8;
use crate::document::strings_view;
use crate::parser::{spec_lines, text_lines};
use crate::roundtrip::{lemma_lines_of_ser_lines, lemma_ser_range, plain_lines};
use crate::serializer::ser_lines;
use crate::lexer::{
    lemma_encode_utf8_concat, lemma_encode_utf8_prefix_len, lemma_encode_utf8_take, utf8_width,
    utf8_width_exec,
};
use crate::text::{
    chars_of, has_prefix, has_prefix_at, in_class, lemma_span_while, push_char, push_range, push_str, span_while,
    span_while_exec, spec_is_whitespace, string_of_range, CharClass,
};

verus! {

#[verifier::external_type_specification]
#[verifier::external_body]
pub struct ExPathBuf(std::path::PathBuf);

// ── Byte offsets ──────────────────────────────────────────────────────────────

/// The length in bytes of the UTF-8 encoding of `l`.
pub open spec fn byte_len(l: Seq<char>) -> nat {
    encode_utf8(l).len()
}

/// `n - 1`, or `0` when `n` is `0`.
pub open spec fn sat_dec(n: int) -> int {
    if n > 0 {
        n - 1
    } else {
        0
    }
}

pub open spec fn min(a: int, b: int) -> int {
    if a <= b {
        a
    } else {
        b
    }
}

/// Whether byte offset `b` of `l` falls between two characters (or at an end).
pub open spec fn is_boundary(l: Seq<char>, b: int) -> bool {
    exists|k: int| 0 <= k <= l.len() && #[trigger] byte_len(l.take(k)) == b
}

/// The number of characters before byte offset `b`, when `b` is a boundary.
pub open spec fn char_index(l: Seq<char>, b: int) -> int {
    choose|k: int| 0 <= k <= l.len() && #[trigger] byte_len(l.take(k)) == b
}

pub proof fn lemma_byte_len_take(l: Seq<char>, i: int, j: int)
    requires
        0 <= i <= j <= l.len(),
    ensures
        byte_len(l.take(i)) <= byte_len(l.take(j)),
        i < j ==> byte_len(l.take(i)) < byte_len(l.take(j)),
        byte_len(l.take(j)) <= byte_len(l),
    decreases j - i,
{
    lemma_encode_utf8_prefix_len(l, j);
    if i < j {
        lemma_encode_utf8_take(l, j - 1);
        lemma_byte_len_take(l, i, j - 1);
    }
}

/// At a boundary, `char_index` is the one prefix that ends there.
pub proof fn lemma_char_index(l: Seq<char>, b: int)
    requires
        is_boundary(l, b),
    ensures
        0 <= char_index(l, b) <= l.len(),
        byte_len(l.take(char_index(l, b))) == b,
        forall|k: int| 0 <= k <= l.len() && byte_len(l.take(k)) == b ==> k == char_index(l, b),
        0 <= b <= byte_len(l),
{
    let k0 = char_index(l, b);
    assert forall|k: int| 0 <= k <= l.len() && byte_len(l.take(k)) == b implies k == k0 by {
        if k < k0 {
            lemma_byte_len_take(l, k, k0);
        } else if k > k0 {
            lemma_byte_len_take(l, k0, k);
        }
    }
    lemma_byte_len_take(l, k0, l.len() as int);
    assert(l.take(l.len() as int) == l);
}

/// The character index at byte offset `b` of `l`, when `b` falls between two
/// characters.
pub fn char_index_at(l: &Vec<char>, b: usize) -> (r: Option<usize>)
    ensures
        match r {
            Some(k) => is_boundary(l@, b as int) && k == char_index(l@, b as int),
            None => !is_boundary(l@, b as int),
        },
{
    let mut k: usize = 0;
    let mut acc: usize = 0;
    assert(l@.take(0) =~= Seq::<char>::empty());
    while k < l.len() && acc < b
        invariant
            k <= l@.len(),
            acc == byte_len(l@.take(k as int)),
            acc <= b,
        decreases l@.len() - k,
    {
        proof {
            lemma_encode_utf8_take(l@, k as int);
        }
        let w = utf8_width_exec(l[k]);
        if w > b - acc {
            proof {
                assert forall|j: int| 0 <= j <= l@.len() implies byte_len(l@.take(j)) != b by {
                    if j <= k {
                        lemma_byte_len_take(l@, j, k as int);
                    } else {
                        lemma_byte_len_take(l@, k + 1, j);
                    }
                }
            }
            return None;
        }
        acc = acc + w;
        k += 1;
    }
    if acc == b {
        assert(byte_len(l@.take(k as int)) == b);
        proof {
            lemma_char_index(l@, b as int);
        }
        Some(k)
    } else {
        proof {
            assert forall|j: int| 0 <= j <= l@.len() implies byte_len(l@.take(j)) != b by {
                lemma_byte_len_take(l@, j, k as int);
            }
        }
        None
    }
}

/// `String::len`: the byte length of `s`.
pub(crate) fn str_byte_len(s: &String) -> (r: usize)
    ensures
        r == byte_len(s@),
{
    let bytes = s.as_str().as_bytes();
    bytes.len()
}

// ── Words ─────────────────────────────────────────────────────────────────────

/// `u8::is_ascii_whitespace`.
pub open spec fn is_ws_byte(b: u8) -> bool {
    b == 0x20 || b == 0x09 || b == 0x0A || b == 0x0C || b == 0x0D
}

/// `u8::is_ascii_whitespace`.
fn ws_byte(b: u8) -> (r: bool)
    ensures
        r == is_ws_byte(b),
{
    b == 0x20 || b == 0x09 || b == 0x0A || b == 0x0C || b == 0x0D
}

/// From `i`, the first byte that is not whitespace (when `ws`) or that is
/// whitespace (otherwise).
pub open spec fn skip_bytes(s: Seq<u8>, i: int, ws: bool) -> int
    decreases s.len() - i,
{
    if 0 <= i < s.len() && is_ws_byte(s[i]) == ws {
        skip_bytes(s, i + 1, ws)
    } else {
        i
    }
}

/// Where `w` moves the cursor: past the rest of the word, then past the
/// whitespace after it, but not beyond the last byte.
pub open spec fn word_forward(s: Seq<u8>, col: int) -> int {
    min(skip_bytes(s, skip_bytes(s, col, false), true), sat_dec(s.len() as int))
}

/// Leftwards from `i` over whitespace bytes, stopping at `0`.
pub open spec fn back_over_ws(s: Seq<u8>, i: int) -> int
    decreases i,
{
    if 0 < i < s.len() && is_ws_byte(s[i]) {
        back_over_ws(s, i - 1)
    } else {
        i
    }
}

/// Leftwards from `i` to the start of the word that ends there.
pub open spec fn back_to_word_start(s: Seq<u8>, i: int) -> int
    decreases i,
{
    if 0 < i <= s.len() && !is_ws_byte(s[i - 1]) {
        back_to_word_start(s, i - 1)
    } else {
        i
    }
}

/// Where `b` moves the cursor: to the start of the previous word.
pub open spec fn word_backward(s: Seq<u8>, col: int) -> int {
    if col == 0 {
        0
    } else {
        back_to_word_start(s, back_over_ws(s, col - 1))
    }
}

// ── Checkboxes ────────────────────────────────────────────────────────────────

/// The character index just after a list bullet (`- `, `+ ` or `N. `) that
/// follows the indentation of `l`.
pub open spec fn after_bullet(l: Seq<char>) -> Option<int> {
    let ic = span_while(l, 0, CharClass::Whitespace);
    if has_prefix(l.skip(ic), seq!['-', ' ']) || has_prefix(l.skip(ic), seq!['+', ' ']) {
        Some(ic + 2)
    } else {
        let d_end = span_while(l, ic, CharClass::AsciiDigit);
        if d_end > ic && has_prefix(l.skip(d_end), seq!['.', ' ']) {
            Some(d_end + 2)
        } else {
            None
        }
    }
}

/// The line with its checkbox toggled, or `None` when it has none:
/// `[ ]` becomes `[X]`; `[X]`, `[x]` and `[-]` become `[ ]`.
pub open spec fn toggled(l: Seq<char>) -> Option<Seq<char>> {
    match after_bullet(l) {
        None => None,
        Some(a) => {
            let rest = l.skip(a);
            if has_prefix(rest, seq!['[', ' ', ']', ' ']) {
                Some(l.take(a) + seq!['[', 'X', ']'] + l.skip(a + 3))
            } else if has_prefix(rest, seq!['[', 'X', ']', ' ']) || has_prefix(
                rest,
                seq!['[', 'x', ']', ' '],
            ) || has_prefix(rest, seq!['[', '-', ']', ' ']) {
                Some(l.take(a) + seq!['[', ' ', ']'] + l.skip(a + 3))
            } else {
                None
            }
        },
    }
}

// ── The pane ──────────────────────────────────────────────────────────────────

/// The lines a pane shows for a file that holds `content`.
pub open spec fn loaded_text(content: Seq<char>) -> Seq<Seq<char>> {
    if spec_lines(content).len() == 0 {
        seq![Seq::<char>::empty()]
    } else {
        spec_lines(content)
    }
}

/// The text a pane with lines `text` writes to its file.
pub open spec fn saved_text(text: Seq<Seq<char>>) -> Seq<char> {
    if text.len() == 0 {
        seq!['\n']
    } else {
        ser_lines(text)
    }
}

/// Reading back what was saved: a pane's lines, none holding a newline or
/// ending in a carriage return, come back unchanged from the file it writes.
pub proof fn law_save_then_load(text: Seq<Seq<char>>)
    requires
        text.len() > 0,
        plain_lines(text),
    ensures
        loaded_text(saved_text(text)) == text,
{
    lemma_lines_of_ser_lines(text);
}

/// The buffer and cursor after typing `c` at byte column `col` of line `row`.
pub open spec fn typed(text: Seq<Seq<char>>, row: int, col: int, c: char) -> (
    Seq<Seq<char>>,
    int,
    int,
) {
    let l = text[row];
    let k = char_index(l, col);
    (text.update(row, l.take(k) + seq![c] + l.skip(k)), row, col + 1)
}

/// The buffer and cursor after deleting before the cursor at `(row, col)`:
/// the character before it, or the line break before the line at its start.
pub open spec fn backspaced(text: Seq<Seq<char>>, row: int, col: int) -> (
    Seq<Seq<char>>,
    int,
    int,
) {
    if col > 0 {
        (text.update(row, text[row].remove(char_index(text[row], col - 1))), row, col - 1)
    } else if row > 0 {
        (text.remove(row).update(row - 1, text[row - 1] + text[row]), row - 1, byte_len(
            text[row - 1],
        ) as int)
    } else {
        (text, 0, 0)
    }
}

/// One editor pane: its own buffer, cursor, and viewport.
pub struct Pane {
    pub lines: Vec<String>,
    pub cursor_row: usize,
    pub cursor_col: usize,
    pub viewport_top: usize,
    pub file_path: Option<std::path::PathBuf>,
    pub modified: bool,
}

/// The byte length of line `row`, or `0` past the end.
pub open spec fn line_len(text: Seq<Seq<char>>, row: int) -> int {
    if 0 <= row < text.len() {
        byte_len(text[row]) as int
    } else {
        0
    }
}

impl Pane {
    /// The buffer as a sequence of lines.
    pub open spec fn text(&self) -> Seq<Seq<char>> {
        strings_view(self.lines@)
    }

    /// The column clamped to the last byte of line `row`.
    pub open spec fn clamped_col(&self, row: int, col: int) -> int {
        min(col, sat_dec(line_len(self.text(), row)))
    }

    /// Everything but the cursor is as in `before`.
    pub open spec fn cursor_moved_from(&self, before: Pane) -> bool {
        &&& self.lines@ == before.lines@
        &&& self.viewport_top == before.viewport_top
        &&& self.file_path == before.file_path
        &&& self.modified == before.modified
    }

    /// Only the text and the cursor changed from `before`, and the pane is now
    /// marked modified.
    pub open spec fn edited_from(&self, before: Pane) -> bool {
        &&& self.viewport_top == before.viewport_top
        &&& self.file_path == before.file_path
        &&& self.modified
    }

    pub fn empty() -> (p: Self)
        ensures
            p.text() == seq![Seq::<char>::empty()],
            p.cursor_row == 0,
            p.cursor_col == 0,
            p.viewport_top == 0,
            p.file_path is None,
            !p.modified,
    {
        let mut lines: Vec<String> = Vec::new();
        lines.push(String::new());
        let p = Self {
            lines,
            cursor_row: 0,
            cursor_col: 0,
            viewport_top: 0,
            file_path: None,
            modified: false,
        };
        assert(p.text() =~= seq![Seq::<char>::empty()]);
        p
    }

    /// A pane on a file that holds `content`, cursor at the top: the lines
    /// of the text, or one empty line when it has none.
    pub fn from_text(content: &str, file_path: Option<std::path::PathBuf>) -> (p: Self)
        ensures
            p.text() == loaded_text(content@),
            p.cursor_row == 0,
            p.cursor_col == 0,
            p.viewport_top == 0,
            p.file_path == file_path,
            !p.modified,
    {
        let mut lines = text_lines(content);
        if lines.len() == 0 {
            lines.push(String::new());
            assert(strings_view(lines@) =~= seq![Seq::<char>::empty()]);
        }
        Self { lines, cursor_row: 0, cursor_col: 0, viewport_top: 0, file_path, modified: false }
    }

    /// What the pane's file holds once saved: each line followed by a
    /// newline (a lone newline for a pane without lines).
    pub fn contents(&self) -> (r: String)
        ensures
            r@ == saved_text(self.text()),
    {
        let mut out = String::new();
        if self.lines.len() == 0 {
            push_char(&mut out, '\n');
            return out;
        }
        let ghost t = self.text();
        let mut i: usize = 0;
        assert(t.subrange(0, 0) =~= Seq::<Seq<char>>::empty());
        while i < self.lines.len()
            invariant
                i <= self.lines@.len(),
                t == self.text(),
                out@ == ser_lines(t.subrange(0, i as int)),
            decreases self.lines@.len() - i,
        {
            push_str(&mut out, self.lines[i].as_str());
            push_char(&mut out, '\n');
            proof {
                lemma_ser_range(t, 0, i as int, i + 1);
                assert(t.subrange(i as int, i + 1).drop_first() =~= Seq::<Seq<char>>::empty());
                assert(ser_lines(Seq::<Seq<char>>::empty()) =~= Seq::<char>::empty());
                assert(t.subrange(i as int, i + 1)[0] == t[i as int]);
                assert(ser_lines(t.subrange(i as int, i + 1)) =~= t[i as int] + seq!['\n']);
            }
            i += 1;
        }
        assert(t.subrange(0, t.len() as int) =~= t);
        out
    }

    // ── Geometry ──────────────────────────────────────────────────────────────

    pub fn current_line_len(&self) -> (r: usize)
        ensures
            r == line_len(self.text(), self.cursor_row as int),
    {
        if self.cursor_row < self.lines.len() {
            str_byte_len(&self.lines[self.cursor_row])
        } else {
            0
        }
    }

    pub fn clamp_col(&mut self)
        ensures
            final(self).cursor_moved_from(*old(self)),
            final(self).cursor_row == old(self).cursor_row,
            final(self).cursor_col == old(self).clamped_col(
                old(self).cursor_row as int,
                old(self).cursor_col as int,
            ),
    {
        let max = self.current_line_len().saturating_sub(1);
        if self.cursor_col > max {
            self.cursor_col = max;
        }
    }

    pub fn scroll_to_cursor(&mut self, height: usize)
        ensures
            final(self).lines@ == old(self).lines@,
            final(self).cursor_row == old(self).cursor_row,
            final(self).cursor_col == old(self).cursor_col,
            final(self).file_path == old(self).file_path,
            final(self).modified == old(self).modified,
            final(self).viewport_top == (if height == 0 {
                old(self).viewport_top as int
            } else if old(self).cursor_row < old(self).viewport_top {
                old(self).cursor_row as int
            } else if old(self).cursor_row >= old(self).viewport_top + height {
                old(self).cursor_row - height + 1
            } else {
                old(self).viewport_top as int
            }),
    {
        if height == 0 {
            return;
        }
        if self.cursor_row < self.viewport_top {
            self.viewport_top = self.cursor_row;
        } else if self.cursor_row - self.viewport_top >= height {
            self.viewport_top = self.cursor_row - height + 1;
        }
    }

    // ── Movement ──────────────────────────────────────────────────────────────

    pub fn move_left(&mut self)
        ensures
            final(self).cursor_moved_from(*old(self)),
            final(self).cursor_row == old(self).cursor_row,
            final(self).cursor_col == sat_dec(old(self).cursor_col as int),
    {
        self.cursor_col = self.cursor_col.saturating_sub(1);
    }

    pub fn move_right(&mut self)
        ensures
            final(self).cursor_moved_from(*old(self)),
            final(self).cursor_row == old(self).cursor_row,
            final(self).cursor_col == (if old(self).cursor_col < sat_dec(
                line_len(old(self).text(), old(self).cursor_row as int),
            ) {
                old(self).cursor_col + 1
            } else {
                old(self).cursor_col as int
            }),
    {
        let max = self.current_line_len().saturating_sub(1);
        if self.cursor_col < max {
            self.cursor_col += 1;
        }
    }

    pub fn move_up(&mut self, n: usize)
        ensures
            final(self).cursor_moved_from(*old(self)),
            final(self).cursor_row == (if old(self).cursor_row >= n {
                old(self).cursor_row - n
            } else {
                0
            }),
            final(self).cursor_col == old(self).clamped_col(
                final(self).cursor_row as int,
                old(self).cursor_col as int,
            ),
    {
        self.cursor_row = self.cursor_row.saturating_sub(n);
        self.clamp_col();
    }

    pub fn move_down(&mut self, n: usize)
        ensures
            final(self).cursor_moved_from(*old(self)),
            final(self).cursor_row == min(
                old(self).cursor_row + n,
                sat_dec(old(self).lines@.len() as int),
            ),
            final(self).cursor_col == old(self).clamped_col(
                final(self).cursor_row as int,
                old(self).cursor_col as int,
            ),
    {
        let max = self.lines.len().saturating_sub(1);
        if self.cursor_row >= max || n >= max - self.cursor_row {
            self.cursor_row = max;
        } else {
            self.cursor_row = self.cursor_row + n;
        }
        self.clamp_col();
    }

    pub fn move_word_forward(&mut self)
        requires
            old(self).cursor_row < old(self).lines@.len(),
        ensures
            final(self).cursor_moved_from(*old(self)),
            final(self).cursor_row == old(self).cursor_row,
            final(self).cursor_col == word_forward(
                encode_utf8(old(self).text()[old(self).cursor_row as int]),
                old(self).cursor_col as int,
            ),
    {
        let bytes = self.lines[self.cursor_row].as_str().as_bytes();
        let ghost s = bytes@;
        assert(s == encode_utf8(self.text()[self.cursor_row as int]));
        let mut col = self.cursor_col;
        while col < bytes.len() && !ws_byte(bytes[col])
            invariant
                s == bytes@,
                skip_bytes(s, self.cursor_col as int, false) == skip_bytes(s, col as int, false),
            decreases bytes@.len() - col,
        {
            col += 1;
        }
        let ghost mid = col as int;
        while col < bytes.len() && ws_byte(bytes[col])
            invariant
                s == bytes@,
                skip_bytes(s, mid, true) == skip_bytes(s, col as int, true),
            decreases bytes@.len() - col,
        {
            col += 1;
        }
        let max = bytes.len().saturating_sub(1);
        self.cursor_col = if col < max {
            col
        } else {
            max
        };
    }

    pub fn move_word_backward(&mut self)
        requires
            old(self).cursor_row < old(self).lines@.len(),
            old(self).cursor_col <= byte_len(old(self).text()[old(self).cursor_row as int]),
        ensures
            final(self).cursor_moved_from(*old(self)),
            final(self).cursor_row == old(self).cursor_row,
            final(self).cursor_col == word_backward(
                encode_utf8(old(self).text()[old(self).cursor_row as int]),
                old(self).cursor_col as int,
            ),
    {
        let bytes = self.lines[self.cursor_row].as_str().as_bytes();
        let ghost s = bytes@;
        assert(s == encode_utf8(self.text()[self.cursor_row as int]));
        let mut col = self.cursor_col;
        if col == 0 {
            return;
        }
        col -= 1;
        let ghost start = col as int;
        while col > 0 && ws_byte(bytes[col])
            invariant
                s == bytes@,
                col <= start < s.len(),
                back_over_ws(s, start) == back_over_ws(s, col as int),
            decreases col,
        {
            col -= 1;
        }
        let ghost mid = col as int;
        while col > 0 && !ws_byte(bytes[col - 1])
            invariant
                s == bytes@,
                col <= mid < s.len(),
                back_to_word_start(s, mid) == back_to_word_start(s, col as int),
            decreases col,
        {
            col -= 1;
        }
        self.cursor_col = col;
    }

    pub fn move_line_start(&mut self)
        ensures
            final(self).cursor_moved_from(*old(self)),
            final(self).cursor_row == old(self).cursor_row,
            final(self).cursor_col == 0,
    {
        self.cursor_col = 0;
    }

    pub fn move_line_end(&mut self)
        ensures
            final(self).cursor_moved_from(*old(self)),
            final(self).cursor_row == old(self).cursor_row,
            final(self).cursor_col == sat_dec(
                line_len(old(self).text(), old(self).cursor_row as int),
            ),
    {
        self.cursor_col = self.current_line_len().saturating_sub(1);
    }

    pub fn move_file_start(&mut self)
        ensures
            final(self).cursor_moved_from(*old(self)),
            final(self).cursor_row == 0,
            final(self).cursor_col == 0,
    {
        self.cursor_row = 0;
        self.cursor_col = 0;
    }

    pub fn move_file_end(&mut self)
        ensures
            final(self).cursor_moved_from(*old(self)),
            final(self).cursor_row == sat_dec(old(self).lines@.len() as int),
            final(self).cursor_col == old(self).clamped_col(
                final(self).cursor_row as int,
                old(self).cursor_col as int,
            ),
    {
        self.cursor_row = self.lines.len().saturating_sub(1);
        self.clamp_col();
    }
}

/// The lines `lo..=hi` that a line-wise operation on `start..=end` covers,
/// both ends clamped to the last line of an `n`-line buffer.
pub open spec fn line_span(start: int, end: int, n: int) -> (int, int) {
    let s = min(start, sat_dec(n));
    let e = min(end, sat_dec(n));
    (min(s, e), if s <= e {
        e
    } else {
        s
    })
}

/// What is left of `text` without lines `lo..=hi`; a buffer never becomes empty.
pub open spec fn without_lines(text: Seq<Seq<char>>, lo: int, hi: int) -> Seq<Seq<char>> {
    let rest = text.subrange(0, lo) + text.subrange(hi + 1, text.len() as int);
    if rest.len() == 0 {
        seq![Seq::<char>::empty()]
    } else {
        rest
    }
}

impl Pane {
    // ── Editing ───────────────────────────────────────────────────────────────

    /// Delete the current line and return it. Leaves at least one line.
    pub fn delete_line(&mut self) -> (removed: String)
        requires
            old(self).lines@.len() == 1 || old(self).cursor_row < old(self).lines@.len(),
        ensures
            final(self).edited_from(*old(self)),
            old(self).lines@.len() == 1 ==> removed@ == old(self).text()[0] && final(self).text()
                == seq![Seq::<char>::empty()] && final(self).cursor_row == old(self).cursor_row
                && final(self).cursor_col == 0,
            old(self).lines@.len() != 1 ==> removed@ == old(self).text()[old(
                self,
            ).cursor_row as int] && final(self).text() == old(self).text().remove(
                old(self).cursor_row as int,
            ) && final(self).cursor_row == min(
                old(self).cursor_row as int,
                sat_dec(old(self).lines@.len() - 1),
            ) && final(self).cursor_col == final(self).clamped_col(
                final(self).cursor_row as int,
                old(self).cursor_col as int,
            ),
    {
        if self.lines.len() == 1 {
            let removed = self.lines[0].clone();
            self.lines.set(0, String::new());
            self.cursor_col = 0;
            self.modified = true;
            assert(self.text() =~= seq![Seq::<char>::empty()]);
            return removed;
        }
        let removed = self.lines.remove(self.cursor_row);
        if self.cursor_row >= self.lines.len() {
            self.cursor_row = self.lines.len().saturating_sub(1);
        }
        self.clamp_col();
        self.modified = true;
        assert(self.text() =~= old(self).text().remove(old(self).cursor_row as int));
        removed
    }

    /// Delete a range of lines (inclusive). Returns the removed lines.
    pub fn delete_lines(&mut self, start: usize, end: usize) -> (removed: Vec<String>)
        requires
            old(self).lines@.len() > 0,
        ensures
            final(self).edited_from(*old(self)),
            ({
                let (lo, hi) = line_span(start as int, end as int, old(self).lines@.len() as int);
                &&& strings_view(removed@) == old(self).text().subrange(lo, hi + 1)
                &&& final(self).text() == without_lines(old(self).text(), lo, hi)
                &&& final(self).cursor_row == min(lo, sat_dec(final(self).lines@.len() as int))
                &&& final(self).cursor_col == final(self).clamped_col(
                    final(self).cursor_row as int,
                    old(self).cursor_col as int,
                )
            }),
    {
        let n = self.lines.len();
        let mx = n - 1;
        let s = if start < mx {
            start
        } else {
            mx
        };
        let e = if end < mx {
            end
        } else {
            mx
        };
        let (lo, hi) = if s <= e {
            (s, e)
        } else {
            (e, s)
        };
        let ghost lines0 = self.lines@;
        let mut removed: Vec<String> = Vec::new();
        let mut k = lo;
        while k <= hi
            invariant
                lo <= k <= hi + 1,
                hi < n,
                n == lines0.len(),
                self.lines@ == lines0.subrange(0, lo as int) + lines0.subrange(k as int, n as int),
                removed@ == lines0.subrange(lo as int, k as int),
                self.viewport_top == old(self).viewport_top,
                self.file_path == old(self).file_path,
                self.cursor_col == old(self).cursor_col,
            decreases hi + 1 - k,
        {
            let line = self.lines.remove(lo);
            removed.push(line);
            k += 1;
            assert(self.lines@ =~= lines0.subrange(0, lo as int) + lines0.subrange(
                k as int,
                n as int,
            ));
            assert(removed@ =~= lines0.subrange(lo as int, k as int));
        }
        let ghost rest = self.lines@;
        if self.lines.len() == 0 {
            self.lines.push(String::new());
        }
        self.cursor_row = if lo < self.lines.len() - 1 {
            lo
        } else {
            self.lines.len() - 1
        };
        self.clamp_col();
        self.modified = true;
        assert(strings_view(removed@) =~= old(self).text().subrange(lo as int, hi + 1));
        assert(strings_view(rest) =~= old(self).text().subrange(0, lo as int) + old(
            self,
        ).text().subrange(hi + 1, n as int));
        assert(self.text() =~= without_lines(old(self).text(), lo as int, hi as int));
        removed
    }

    pub fn yank_line(&self) -> (r: String)
        ensures
            r@ == (if self.cursor_row < self.lines@.len() {
                self.text()[self.cursor_row as int]
            } else {
                Seq::<char>::empty()
            }),
    {
        if self.cursor_row < self.lines.len() {
            self.lines[self.cursor_row].clone()
        } else {
            String::new()
        }
    }

    pub fn yank_lines(&self, start: usize, end: usize) -> (r: Vec<String>)
        requires
            self.lines@.len() > 0,
        ensures
            ({
                let lo = min(min(start as int, end as int), sat_dec(self.lines@.len() as int));
                let hi = min(
                    if start <= end {
                        end as int
                    } else {
                        start as int
                    },
                    sat_dec(self.lines@.len() as int),
                );
                strings_view(r@) == self.text().subrange(lo, hi + 1)
            }),
    {
        let mx = self.lines.len() - 1;
        let a = if start < end {
            start
        } else {
            end
        };
        let b = if start < end {
            end
        } else {
            start
        };
        let lo = if a < mx {
            a
        } else {
            mx
        };
        let hi = if b < mx {
            b
        } else {
            mx
        };
        let mut r: Vec<String> = Vec::new();
        let mut k = lo;
        while k <= hi
            invariant
                lo <= k <= hi + 1,
                hi < self.lines.len(),
                strings_view(r@) == self.text().subrange(lo as int, k as int),
            decreases hi + 1 - k,
        {
            let line = self.lines[k].clone();
            let ghost r0 = r@;
            r.push(line);
            assert(strings_view(r@) =~= strings_view(r0).push(self.text()[k as int]));
            assert(self.text().subrange(lo as int, k + 1) =~= self.text().subrange(
                lo as int,
                k as int,
            ).push(self.text()[k as int]));
            k += 1;
            assert(strings_view(r@) =~= self.text().subrange(lo as int, k as int));
        }
        r
    }

    pub fn paste_lines_after(&mut self, lines: &[String])
        requires
            old(self).cursor_row < usize::MAX,
            lines@.len() > 0 ==> old(self).cursor_row < old(self).lines@.len(),
        ensures
            final(self).edited_from(*old(self)),
            final(self).text() == (if lines@.len() == 0 {
                old(self).text()
            } else {
                old(self).text().subrange(0, old(self).cursor_row + 1) + strings_view(lines@)
                    + old(self).text().subrange(
                    old(self).cursor_row + 1,
                    old(self).lines@.len() as int,
                )
            }),
            final(self).cursor_row == old(self).cursor_row + 1,
            final(self).cursor_col == old(self).cursor_col,
    {
        let insert_at = self.cursor_row + 1;
        let ghost lines0 = self.lines@;
        let mut i: usize = 0;
        while i < lines.len()
            invariant
                i <= lines@.len(),
                insert_at == old(self).cursor_row + 1,
                lines@.len() > 0 ==> insert_at <= lines0.len(),
                i > 0 ==> self.lines@ == lines0.subrange(0, insert_at as int) + lines@.subrange(
                    0,
                    i as int,
                ) + lines0.subrange(insert_at as int, lines0.len() as int),
                i == 0 ==> self.lines@ == lines0,
                self.cursor_row == old(self).cursor_row,
                self.cursor_col == old(self).cursor_col,
                self.viewport_top == old(self).viewport_top,
                self.file_path == old(self).file_path,
            decreases lines@.len() - i,
        {
            let l = lines[i].clone();
            let n = self.lines.len();
            proof {
                if i == 0 {
                    assert(lines0 =~= lines0.subrange(0, insert_at as int) + lines0.subrange(
                        insert_at as int,
                        lines0.len() as int,
                    ));
                }
            }
            self.lines.insert(insert_at + i, l);
            i += 1;
            assert(self.lines@ =~= lines0.subrange(0, insert_at as int) + lines@.subrange(
                0,
                i as int,
            ) + lines0.subrange(insert_at as int, lines0.len() as int));
        }
        self.cursor_row = insert_at;
        self.modified = true;
        proof {
            if lines@.len() > 0 {
                assert(lines@.subrange(0, lines@.len() as int) =~= lines@);
                assert(self.text() =~= old(self).text().subrange(0, old(self).cursor_row + 1)
                    + strings_view(lines@) + old(self).text().subrange(
                    old(self).cursor_row + 1,
                    old(self).lines@.len() as int,
                ));
            }
        }
    }

    pub fn paste_lines_before(&mut self, lines: &[String])
        requires
            lines@.len() > 0 ==> old(self).cursor_row <= old(self).lines@.len(),
        ensures
            final(self).edited_from(*old(self)),
            final(self).text() == (if lines@.len() == 0 {
                old(self).text()
            } else {
                old(self).text().subrange(0, old(self).cursor_row as int) + strings_view(lines@)
                    + old(self).text().subrange(
                    old(self).cursor_row as int,
                    old(self).lines@.len() as int,
                )
            }),
            final(self).cursor_row == old(self).cursor_row,
            final(self).cursor_col == old(self).cursor_col,
    {
        let ghost lines0 = self.lines@;
        let ghost at = self.cursor_row as int;
        let mut i: usize = 0;
        while i < lines.len()
            invariant
                i <= lines@.len(),
                at == self.cursor_row,
                lines@.len() > 0 ==> at <= lines0.len(),
                i > 0 ==> self.lines@ == lines0.subrange(0, at) + lines@.subrange(0, i as int)
                    + lines0.subrange(at, lines0.len() as int),
                i == 0 ==> self.lines@ == lines0,
                self.cursor_row == old(self).cursor_row,
                self.cursor_col == old(self).cursor_col,
                self.viewport_top == old(self).viewport_top,
                self.file_path == old(self).file_path,
            decreases lines@.len() - i,
        {
            let l = lines[i].clone();
            let n = self.lines.len();
            proof {
                if i == 0 {
                    assert(lines0 =~= lines0.subrange(0, at) + lines0.subrange(
                        at,
                        lines0.len() as int,
                    ));
                }
            }
            self.lines.insert(self.cursor_row + i, l);
            i += 1;
            assert(self.lines@ =~= lines0.subrange(0, at) + lines@.subrange(0, i as int)
                + lines0.subrange(at, lines0.len() as int));
        }
        self.modified = true;
        proof {
            if lines@.len() > 0 {
                assert(lines@.subrange(0, lines@.len() as int) =~= lines@);
                assert(self.text() =~= old(self).text().subrange(0, at) + strings_view(lines@)
                    + old(self).text().subrange(at, old(self).lines@.len() as int));
            }
        }
    }

    pub fn insert_char(&mut self, c: char)
        requires
            old(self).cursor_row < old(self).lines@.len(),
            is_boundary(old(self).text()[old(self).cursor_row as int], old(self).cursor_col as int),
            old(self).cursor_col < usize::MAX,
        ensures
            final(self).edited_from(*old(self)),
            ({
                let l = old(self).text()[old(self).cursor_row as int];
                let k = char_index(l, old(self).cursor_col as int);
                final(self).text() == old(self).text().update(
                    old(self).cursor_row as int,
                    l.take(k) + seq![c] + l.skip(k),
                )
            }),
            final(self).cursor_row == old(self).cursor_row,
            final(self).cursor_col == old(self).cursor_col + 1,
            (final(self).text(), final(self).cursor_row as int, final(self).cursor_col as int)
                == typed(old(self).text(), old(self).cursor_row as int, old(self).cursor_col as int, c),
    {
        let row = self.cursor_row;
        let chars = chars_of(self.lines[row].as_str());
        match char_index_at(&chars, self.cursor_col) {
            Some(k) => {
                let mut line = string_of_range(&chars, 0, k);
                crate::text::push_char(&mut line, c);
                push_range(&mut line, &chars, k, chars.len());
                assert(line@ =~= chars@.take(k as int) + seq![c] + chars@.skip(k as int));
                self.lines.set(row, line);
                self.cursor_col += 1;
                self.modified = true;
                assert(self.text() =~= old(self).text().update(
                    row as int,
                    chars@.take(k as int) + seq![c] + chars@.skip(k as int),
                ));
            },
            None => {},
        }
    }

    pub fn delete_char_before(&mut self)
        requires
            old(self).cursor_col > 0 || old(self).cursor_row > 0 ==> old(self).cursor_row < old(self).lines@.len(),
            old(self).cursor_col > 0 ==> is_boundary(old(self).text()[old(self).cursor_row as int], old(self).cursor_col - 1),
            old(self).cursor_col > 0 ==> old(self).cursor_col - 1 < byte_len(old(self).text()[old(self).cursor_row as int]),
        ensures
            ({
                let text = old(self).text();
                let row = old(self).cursor_row as int;
                let col = old(self).cursor_col as int;
                if col > 0 {
                    &&& final(self).edited_from(*old(self))
                    &&& final(self).text() == text.update(row, text[row].remove(char_index(text[row], col - 1)))
                    &&& final(self).cursor_row == row
                    &&& final(self).cursor_col == col - 1
                } else if row > 0 {
                    &&& final(self).edited_from(*old(self))
                    &&& final(self).text() == text.remove(row).update(row - 1, text[row - 1] + text[row])
                    &&& final(self).cursor_row == row - 1
                    &&& final(self).cursor_col == byte_len(text[row - 1])
                } else {
                    &&& final(self).cursor_moved_from(*old(self))
                    &&& final(self).cursor_row == 0
                    &&& final(self).cursor_col == 0
                }
            }),
            (final(self).text(), final(self).cursor_row as int, final(self).cursor_col as int)
                == backspaced(old(self).text(), old(self).cursor_row as int, old(self).cursor_col as int),
    {
        if self.cursor_col > 0 {
            let row = self.cursor_row;
            let chars = chars_of(self.lines[row].as_str());
            let ghost l = chars@;
            match char_index_at(&chars, self.cursor_col - 1) {
                Some(k) => {
                    proof {
                        lemma_char_index(l, self.cursor_col - 1);
                        if k == l.len() {
                            assert(l.take(k as int) == l);
                        }
                    }
                    assert(k < chars.len());
                    let mut line = string_of_range(&chars, 0, k);
                    push_range(&mut line, &chars, k + 1, chars.len());
                    assert(line@ =~= l.remove(k as int));
                    self.lines.set(row, line);
                    self.cursor_col -= 1;
                    self.modified = true;
                    assert(self.text() =~= old(self).text().update(row as int, l.remove(k as int)));
                },
                None => {},
            }
        } else if self.cursor_row > 0 {
            let current = self.lines.remove(self.cursor_row);
            self.cursor_row -= 1;
            let row = self.cursor_row;
            self.cursor_col = str_byte_len(&self.lines[row]);
            let mut joined = self.lines[row].clone();
            push_str(&mut joined, current.as_str());
            self.lines.set(row, joined);
            self.modified = true;
            assert(self.text() =~= old(self).text().remove(old(self).cursor_row as int).update(
                row as int,
                old(self).text()[row as int] + old(self).text()[old(self).cursor_row as int],
            ));
        }
    }

    pub fn insert_newline(&mut self)
        requires
            old(self).cursor_row < old(self).lines@.len(),
            is_boundary(old(self).text()[old(self).cursor_row as int], old(self).cursor_col as int),
        ensures
            final(self).edited_from(*old(self)),
            ({
                let l = old(self).text()[old(self).cursor_row as int];
                let k = char_index(l, old(self).cursor_col as int);
                final(self).text() == old(self).text().update(
                    old(self).cursor_row as int,
                    l.take(k),
                ).insert(old(self).cursor_row + 1, l.skip(k))
            }),
            final(self).cursor_row == old(self).cursor_row + 1,
            final(self).cursor_col == 0,
    {
        let row = self.cursor_row;
        let n = self.lines.len();
        let chars = chars_of(self.lines[row].as_str());
        match char_index_at(&chars, self.cursor_col) {
            Some(k) => {
                let head = string_of_range(&chars, 0, k);
                let rest = string_of_range(&chars, k, chars.len());
                self.lines.set(row, head);
                self.cursor_row += 1;
                self.lines.insert(self.cursor_row, rest);
                self.cursor_col = 0;
                self.modified = true;
                assert(self.text() =~= old(self).text().update(
                    row as int,
                    chars@.take(k as int),
                ).insert(row + 1, chars@.skip(k as int)));
            },
            None => {},
        }
    }

    pub fn open_line_below(&mut self)
        requires
            old(self).cursor_row < old(self).lines@.len(),
        ensures
            final(self).edited_from(*old(self)),
            final(self).text() == old(self).text().insert(
                old(self).cursor_row + 1,
                Seq::<char>::empty(),
            ),
            final(self).cursor_row == old(self).cursor_row + 1,
            final(self).cursor_col == 0,
    {
        let n = self.lines.len();
        self.lines.insert(self.cursor_row + 1, String::new());
        self.cursor_row += 1;
        self.cursor_col = 0;
        self.modified = true;
        assert(self.text() =~= old(self).text().insert(
            old(self).cursor_row + 1,
            Seq::<char>::empty(),
        ));
    }

    pub fn open_line_above(&mut self)
        requires
            old(self).cursor_row <= old(self).lines@.len(),
        ensures
            final(self).edited_from(*old(self)),
            final(self).text() == old(self).text().insert(
                old(self).cursor_row as int,
                Seq::<char>::empty(),
            ),
            final(self).cursor_row == old(self).cursor_row,
            final(self).cursor_col == 0,
    {
        self.lines.insert(self.cursor_row, String::new());
        self.cursor_col = 0;
        self.modified = true;
        assert(self.text() =~= old(self).text().insert(
            old(self).cursor_row as int,
            Seq::<char>::empty(),
        ));
    }

    // ── Org-mode helpers ──────────────────────────────────────────────────────

    /// Toggle the checkbox on the current line if it is a list item with one.
    /// Cycles: `[ ]` → `[X]` → `[ ]`  (`[-]` also resets to `[ ]`).
    pub fn toggle_checkbox(&mut self)
        requires
            old(self).cursor_row < old(self).lines@.len(),
        ensures
            final(self).cursor_row == old(self).cursor_row,
            final(self).cursor_col == old(self).cursor_col,
            final(self).viewport_top == old(self).viewport_top,
            final(self).file_path == old(self).file_path,
            match toggled(old(self).text()[old(self).cursor_row as int]) {
                Some(t) => final(self).text() == old(self).text().update(
                    old(self).cursor_row as int,
                    t,
                ) && final(self).modified,
                None => final(self).lines@ == old(self).lines@ && final(self).modified == old(
                    self,
                ).modified,
            },
    {
        let row = self.cursor_row;
        let chars = chars_of(self.lines[row].as_str());
        let ghost l = chars@;
        let n = chars.len();
        let ic = span_while_exec(&chars, 0, CharClass::Whitespace);
        proof {
            lemma_span_while(l, 0, CharClass::Whitespace);
        }
        let dash = vec!['-', ' '];
        let plus = vec!['+', ' '];
        let after = if has_prefix_at(&chars, ic, &dash) || has_prefix_at(&chars, ic, &plus) {
            ic + 2
        } else {
            let d_end = span_while_exec(&chars, ic, CharClass::AsciiDigit);
            proof {
                lemma_span_while(l, ic as int, CharClass::AsciiDigit);
            }
            let dot = vec!['.', ' '];
            if d_end > ic && has_prefix_at(&chars, d_end, &dot) {
                d_end + 2
            } else {
                return;
            }
        };
        assert(after_bullet(l) == Some(after as int));
        let open = vec!['[', ' ', ']', ' '];
        let upper = vec!['[', 'X', ']', ' '];
        let lower = vec!['[', 'x', ']', ' '];
        let partial = vec!['[', '-', ']', ' '];
        let mark = if has_prefix_at(&chars, after, &open) {
            'X'
        } else if has_prefix_at(&chars, after, &upper) || has_prefix_at(&chars, after, &lower)
            || has_prefix_at(&chars, after, &partial) {
            ' '
        } else {
            return;
        };
        let mut line = string_of_range(&chars, 0, after);
        crate::text::push_char(&mut line, '[');
        crate::text::push_char(&mut line, mark);
        crate::text::push_char(&mut line, ']');
        push_range(&mut line, &chars, after + 3, n);
        assert(line@ =~= l.take(after as int) + seq!['[', mark, ']'] + l.skip(after + 3));
        self.lines.set(row, line);
        self.modified = true;
        assert(toggled(l) == Some(l.take(after as int) + seq!['[', mark, ']'] + l.skip(after + 3)));
        assert(self.text() =~= old(self).text().update(
            row as int,
            l.take(after as int) + seq!['[', mark, ']'] + l.skip(after + 3),
        ));
    }
}

/// The two ends of a selection in document order.
pub open spec fn ordered(a: (usize, usize), b: (usize, usize)) -> ((usize, usize), (usize, usize)) {
    if a.0 < b.0 || (a.0 == b.0 && a.1 <= b.1) {
        (a, b)
    } else {
        (b, a)
    }
}

/// The byte offset just past the selected end: the end column clamped to the
/// last byte of its line, plus one.
pub open spec fn sel_end(l: Seq<char>, ec: int) -> int {
    min(ec, sat_dec(byte_len(l) as int)) + 1
}

/// What cutting the char-wise selection from `start` to `end` (either
/// order) gives: the removed text, the new buffer, and the cursor.
pub open spec fn selection_cut(text: Seq<Seq<char>>, start: (usize, usize), end: (usize, usize)) -> (
    Seq<Seq<char>>,
    Seq<Seq<char>>,
    int,
    int,
) {
    let (s, e) = ordered(start, end);
    let (sr, sc, er, ec) = (s.0 as int, s.1 as int, e.0 as int, e.1 as int);
    let a = char_index(text[sr], sc);
    let b = char_index(text[er], sel_end(text[er], ec));
    let joined = text[sr].take(a) + text[er].skip(b);
    (
        if sr == er {
            seq![text[sr].subrange(a, b)]
        } else {
            seq![text[sr].skip(a)] + text.subrange(sr + 1, er) + seq![text[er].take(b)]
        },
        text.subrange(0, sr) + seq![joined] + text.subrange(er + 1, text.len() as int),
        sr,
        min(sc, sat_dec(byte_len(joined) as int)),
    )
}

/// The inputs on which `delete_char_selection` can cut: rows inside the
/// buffer, a non-empty end line, and cuts between characters.
pub open spec fn selection_cuttable(text: Seq<Seq<char>>, start: (usize, usize), end: (usize, usize)) -> bool {
    let (s, e) = ordered(start, end);
    let (sr, sc, er, ec) = (s.0 as int, s.1 as int, e.0 as int, e.1 as int);
    &&& er < text.len()
    &&& byte_len(text[er]) > 0
    &&& is_boundary(text[sr], sc)
    &&& is_boundary(text[er], sel_end(text[er], ec))
    &&& sr == er ==> sc <= sel_end(text[er], ec)
    &&& sr < er ==> ec < usize::MAX
}

impl Pane {
    /// Delete a char-wise selection. `start` and `end` are (row, col) pairs.
    pub fn delete_char_selection(&mut self, start: (usize, usize), end: (usize, usize)) -> (removed:
        Vec<String>)
        requires
            selection_cuttable(old(self).text(), start, end),
        ensures
            final(self).edited_from(*old(self)),
            ({
                let text = old(self).text();
                let (s, e) = ordered(start, end);
                let (sr, sc, er, ec) = (s.0 as int, s.1 as int, e.0 as int, e.1 as int);
                let a = char_index(text[sr], sc);
                let b = char_index(text[er], sel_end(text[er], ec));
                let joined = text[sr].take(a) + text[er].skip(b);
                &&& strings_view(removed@) == (if sr == er {
                    seq![text[sr].subrange(a, b)]
                } else {
                    seq![text[sr].skip(a)] + text.subrange(sr + 1, er) + seq![text[er].take(b)]
                })
                &&& final(self).text() == text.subrange(0, sr) + seq![joined] + text.subrange(
                    er + 1,
                    text.len() as int,
                )
                &&& final(self).cursor_row == sr
                &&& final(self).cursor_col == min(sc, sat_dec(byte_len(joined) as int))
            }),
            (strings_view(removed@), final(self).text(), final(self).cursor_row as int,
                final(self).cursor_col as int) == selection_cut(old(self).text(), start, end),
    {
        let ghost text = self.text();
        let (sr, sc, er, ec) = if start.0 < end.0 || (start.0 == end.0 && start.1 <= end.1) {
            (start.0, start.1, end.0, end.1)
        } else {
            (end.0, end.1, start.0, start.1)
        };
        let n = self.lines.len();
        if sr == er {
            // Single line
            let chars = chars_of(self.lines[sr].as_str());
            let len = str_byte_len(&self.lines[sr]);
            let ec_clamped = if ec < len - 1 {
                ec
            } else {
                len - 1
            };
            let a = match char_index_at(&chars, sc) {
                Some(k) => k,
                None => {
                    return Vec::new();
                },
            };
            let b = match char_index_at(&chars, ec_clamped + 1) {
                Some(k) => k,
                None => {
                    return Vec::new();
                },
            };
            proof {
                lemma_char_index(chars@, sc as int);
                lemma_char_index(chars@, ec_clamped + 1);
                if b < a {
                    lemma_byte_len_take(chars@, b as int, a as int);
                }
            }
            let cut = string_of_range(&chars, a, b);
            let mut line = string_of_range(&chars, 0, a);
            push_range(&mut line, &chars, b, chars.len());
            let line_len = str_byte_len(&line);
            self.lines.set(sr, line);
            self.cursor_row = sr;
            let max = line_len.saturating_sub(1);
            self.cursor_col = if sc < max {
                sc
            } else {
                max
            };
            self.modified = true;
            let mut removed: Vec<String> = Vec::new();
            removed.push(cut);
            assert(chars@.take(a as int) + chars@.skip(b as int) =~= chars@.subrange(0, a as int)
                + chars@.subrange(b as int, chars@.len() as int));
            assert(strings_view(removed@) =~= seq![chars@.subrange(a as int, b as int)]);
            assert(self.text() =~= text.subrange(0, sr as int) + seq![
                chars@.take(a as int) + chars@.skip(b as int),
            ] + text.subrange(er + 1, text.len() as int));
            return removed;
        }
        // Multi-line: keep prefix of start line and suffix of end line

        let first = chars_of(self.lines[sr].as_str());
        let last = chars_of(self.lines[er].as_str());
        let last_len = str_byte_len(&self.lines[er]);
        let a = match char_index_at(&first, sc) {
            Some(k) => k,
            None => {
                return Vec::new();
            },
        };
        let e1 = (if ec < last_len - 1 {
            ec
        } else {
            last_len - 1
        }) + 1;
        let b = match char_index_at(&last, e1) {
            Some(k) => k,
            None => {
                return Vec::new();
            },
        };
        proof {
            lemma_char_index(first@, sc as int);
            lemma_char_index(last@, e1 as int);
        }
        let mut joined = string_of_range(&first, 0, a);
        if ec + 1 < last_len {
            push_range(&mut joined, &last, b, last.len());
        } else {
            proof {
                assert(last@.take(last@.len() as int) =~= last@);
                lemma_char_index(last@, e1 as int);
                assert(b == last@.len());
            }
        }
        assert(joined@ =~= first@.take(a as int) + last@.skip(b as int));
        // Collect removed text
        let mut removed: Vec<String> = Vec::new();
        removed.push(string_of_range(&first, a, first.len()));
        let mut row = sr + 1;
        while row < er
            invariant
                sr < row <= er,
                er < n,
                n == text.len(),
                self.text() == text,
                strings_view(removed@) == seq![first@.skip(a as int)] + text.subrange(
                    sr + 1,
                    row as int,
                ),
            decreases er - row,
        {
            let line = self.lines[row].clone();
            let ghost r0 = removed@;
            removed.push(line);
            assert(strings_view(removed@) =~= strings_view(r0).push(text[row as int]));
            assert(text.subrange(sr + 1, row + 1) =~= text.subrange(sr + 1, row as int).push(
                text[row as int],
            ));
            row += 1;
        }
        let ghost r1 = removed@;
        removed.push(string_of_range(&last, 0, b));
        assert(strings_view(removed@) =~= strings_view(r1).push(last@.take(b as int)));
        // Remove lines sr..=er and replace with joined result
        let ghost lines0 = self.lines@;
        let mut k = sr;
        while k <= er
            invariant
                sr <= k <= er + 1,
                er < n,
                n == lines0.len(),
                self.lines@ == lines0.subrange(0, sr as int) + lines0.subrange(k as int, n as int),
                self.viewport_top == old(self).viewport_top,
                self.file_path == old(self).file_path,
            decreases er + 1 - k,
        {
            self.lines.remove(sr);
            k += 1;
            assert(self.lines@ =~= lines0.subrange(0, sr as int) + lines0.subrange(
                k as int,
                n as int,
            ));
        }
        let joined_len = str_byte_len(&joined);
        self.lines.insert(sr, joined);
        self.cursor_row = sr;
        let max = joined_len.saturating_sub(1);
        self.cursor_col = if sc < max {
            sc
        } else {
            max
        };
        self.modified = true;
        assert(self.text() =~= text.subrange(0, sr as int) + seq![
            first@.take(a as int) + last@.skip(b as int),
        ] + text.subrange(er + 1, text.len() as int));
        removed
    }
}

impl Pane {
    /// Whether the char-wise selection from `start` to `end` (either order)
    /// can be cut: the test `delete_char_selection` asks for.
    pub fn can_cut(&self, start: (usize, usize), end: (usize, usize)) -> (r: bool)
        ensures
            r == selection_cuttable(self.text(), start, end),
    {
        let (s, e) = if start.0 < end.0 || (start.0 == end.0 && start.1 <= end.1) {
            (start, end)
        } else {
            (end, start)
        };
        assert((s, e) == ordered(start, end));
        let (sr, sc) = s;
        let (er, ec) = e;
        if er >= self.lines.len() {
            return false;
        }
        let len = str_byte_len(&self.lines[er]);
        if len == 0 {
            return false;
        }
        let last = if ec < len - 1 {
            ec
        } else {
            len - 1
        };
        let stop = last + 1;
        assert(stop == sel_end(self.text()[er as int], ec as int));
        if sr == er && sc > stop {
            return false;
        }
        if sr < er && ec == usize::MAX {
            return false;
        }
        let cs = chars_of(self.lines[sr].as_str());
        let ce = chars_of(self.lines[er].as_str());
        char_index_at(&cs, sc).is_some() && char_index_at(&ce, stop).is_some()
    }

    /// Cut the character under the cursor, as a one-character selection;
    /// nothing happens where no such selection can be cut.
    pub fn delete_char_at_cursor(&mut self) -> (removed: Vec<String>)
        ensures
            ({
                let at = (old(self).cursor_row, old(self).cursor_col);
                if selection_cuttable(old(self).text(), at, at) {
                    &&& final(self).edited_from(*old(self))
                    &&& (strings_view(removed@), final(self).text(), final(self).cursor_row as int,
                        final(self).cursor_col as int) == selection_cut(old(self).text(), at, at)
                } else {
                    &&& *final(self) == *old(self)
                    &&& removed@.len() == 0
                }
            }),
    {
        let at = (self.cursor_row, self.cursor_col);
        if self.can_cut(at, at) {
            self.delete_char_selection(at, at)
        } else {
            Vec::new()
        }
    }
}

// ── Laws of the pane ──────────────────────────────────────────────────────────

/// Typing a character and then deleting the character before the cursor
/// gives back the line (and the cursor returns to where it was).
pub proof fn law_insert_then_backspace(l: Seq<char>, col: int, c: char)
    requires
        is_boundary(l, col),
    ensures
        ({
            let l2 = l.take(char_index(l, col)) + seq![c] + l.skip(char_index(l, col));
            &&& is_boundary(l2, col)
            &&& col < byte_len(l2)
            &&& l2.remove(char_index(l2, col)) == l
        }),
{
    lemma_char_index(l, col);
    let k = char_index(l, col);
    let l2 = l.take(k) + seq![c] + l.skip(k);
    assert(l2.take(k) =~= l.take(k));
    assert(byte_len(l2.take(k)) == col);
    assert(is_boundary(l2, col));
    lemma_char_index(l2, col);
    assert(char_index(l2, col) == k);
    lemma_byte_len_take(l2, k, k + 1);
    lemma_byte_len_take(l2, k + 1, l2.len() as int);
    assert(l2.take(l2.len() as int) =~= l2);
    assert(l2.remove(k) =~= l);
}

/// Typing a character and then deleting before the cursor gives back the
/// buffer and the cursor.
pub proof fn law_type_then_backspace(text: Seq<Seq<char>>, row: int, col: int, c: char)
    requires
        0 <= row < text.len(),
        is_boundary(text[row], col),
    ensures
        ({
            let (t1, r1, c1) = typed(text, row, col, c);
            &&& is_boundary(t1[r1], c1 - 1)
            &&& c1 - 1 < byte_len(t1[r1])
            &&& backspaced(t1, r1, c1) == (text, row, col)
        }),
{
    let l = text[row];
    law_insert_then_backspace(l, col, c);
    lemma_char_index(l, col);
    let (t1, r1, c1) = typed(text, row, col, c);
    let l2 = t1[row];
    assert(c1 - 1 == col);
    assert(t1.update(row, l2.remove(char_index(l2, col))) =~= text);
}

/// Cutting a char-wise selection does not depend on which end is the
/// anchor: swapping the ends cuts the same text and leaves the same buffer
/// and cursor.
pub proof fn law_cut_either_way(text: Seq<Seq<char>>, a: (usize, usize), b: (usize, usize))
    ensures
        selection_cuttable(text, a, b) == selection_cuttable(text, b, a),
        selection_cut(text, a, b) == selection_cut(text, b, a),
{
    assert(ordered(a, b) == ordered(b, a));
}

/// Splitting a line at a boundary and joining it back gives the line, and
/// the join puts the cursor where the split was.
pub proof fn law_newline_then_join(l: Seq<char>, col: int)
    requires
        is_boundary(l, col),
    ensures
        l.take(char_index(l, col)) + l.skip(char_index(l, col)) == l,
        byte_len(l.take(char_index(l, col))) == col,
{
    lemma_char_index(l, col);
    let k = char_index(l, col);
    assert(l.take(k) + l.skip(k) =~= l);
}

/// Splitting line `row` at a boundary and then joining the next line back
/// onto it restores the buffer.
pub proof fn law_newline_then_join_text(text: Seq<Seq<char>>, row: int, col: int)
    requires
        0 <= row < text.len(),
        is_boundary(text[row], col),
    ensures
        ({
            let l = text[row];
            let k = char_index(l, col);
            let split = text.update(row, l.take(k)).insert(row + 1, l.skip(k));
            split.remove(row + 1).update(row, split[row] + split[row + 1]) == text
        }),
{
    let l = text[row];
    law_newline_then_join(l, col);
    let k = char_index(l, col);
    let split = text.update(row, l.take(k)).insert(row + 1, l.skip(k));
    assert(split[row] == l.take(k));
    assert(split[row + 1] == l.skip(k));
    assert(split.remove(row + 1) =~= text.update(row, l.take(k)));
    assert(split.remove(row + 1).update(row, split[row] + split[row + 1]) =~= text);
}

/// Deleting lines never leaves the buffer without a line.
pub proof fn law_delete_lines_keeps_a_line(text: Seq<Seq<char>>, lo: int, hi: int)
    requires
        0 <= lo <= hi < text.len(),
    ensures
        without_lines(text, lo, hi).len() >= 1,
{
}

proof fn lemma_span_agree(s1: Seq<char>, s2: Seq<char>, i: int, k: CharClass)
    requires
        0 <= i <= s1.len(),
        span_while(s1, i, k) < s1.len(),
        span_while(s1, i, k) < s2.len(),
        forall|j: int| i <= j <= span_while(s1, i, k) ==> s1[j] == s2[j],
    ensures
        span_while(s2, i, k) == span_while(s1, i, k),
    decreases s1.len() - i,
{
    lemma_span_while(s1, i, k);
    if i < s1.len() && in_class(s1[i], k) {
        lemma_span_agree(s1, s2, i + 1, k);
    }
}

/// A list line's box toggles in place: after indentation (white space), a
/// bullet `-`, `+` or digits and `.`, and a space, a box `[ ]` followed by a
/// space becomes `[X]`, and `[X]`, `[x]` or `[-]` followed by a space becomes
/// `[ ]`; everything else on the line stays as it was.
#[verifier::spinoff_prover]
pub proof fn law_toggle_box(indent: Seq<char>, bullet: Seq<char>, mark: char, rest: Seq<char>)
    requires
        forall|i: int| 0 <= i < indent.len() ==> spec_is_whitespace(#[trigger] indent[i]),
        bullet == seq!['-'] || bullet == seq!['+'] || (bullet.len() >= 2 && bullet.last() == '.'
            && forall|i: int| 0 <= i < bullet.len() - 1 ==> '0' <= #[trigger] bullet[i] <= '9'),
        mark == ' ' || mark == 'X' || mark == 'x' || mark == '-',
    ensures
        toggled(indent + bullet + seq![' ', '[', mark, ']', ' '] + rest) == Some(
            indent + bullet + seq![
                ' ',
                '[',
                if mark == ' ' {
                    'X'
                } else {
                    ' '
                },
                ']',
                ' ',
            ] + rest,
        ),
{
    let l = indent + bullet + seq![' ', '[', mark, ']', ' '] + rest;
    let m = indent.len() as int;
    let bl = bullet.len() as int;
    let new_mark = if mark == ' ' {
        'X'
    } else {
        ' '
    };
    assert forall|i: int| 0 <= i < bl implies l[m + i] == bullet[i] by {}
    assert(l[m + bl] == ' ');
    // The indentation.
    lemma_span_while(l, 0, CharClass::Whitespace);
    let ic = span_while(l, 0, CharClass::Whitespace);
    if ic < m {
        assert(l[ic] == indent[ic]);
    }
    if ic > m {
        assert(in_class(l[m], CharClass::Whitespace));
        assert(l[m] == bullet[0]);
    }
    assert(ic == m);
    let a = m + bl + 1;
    if bullet == seq!['-'] || bullet == seq!['+'] {
        assert(l.skip(ic).take(2) =~= seq![bullet[0], ' ']);
    } else {
        assert(l.skip(ic).take(2)[0] == l[m]);
        assert('0' <= bullet[0] <= '9');
        lemma_span_while(l, m, CharClass::AsciiDigit);
        let d = span_while(l, m, CharClass::AsciiDigit);
        if d < m + bl - 1 {
            assert(l[d] == bullet[d - m]);
        }
        if d > m + bl - 1 {
            assert(in_class(l[m + bl - 1], CharClass::AsciiDigit));
            assert(l[m + bl - 1] == bullet.last());
        }
        assert(d == m + bl - 1);
        assert(l.skip(d).take(2) =~= seq!['.', ' ']);
    }
    assert(after_bullet(l) == Some(a));
    assert(l.skip(a).take(4) =~= seq!['[', mark, ']', ' ']);
    assert(l.take(a) + seq!['[', new_mark, ']'] + l.skip(a + 3) =~= indent + bullet + seq![
        ' ',
        '[',
        new_mark,
        ']',
        ' ',
    ] + rest);
}

/// Toggling an open or checked box twice gives back the line.
pub proof fn law_toggle_twice(l: Seq<char>)
    requires
        after_bullet(l) is Some,
        has_prefix(l.skip(after_bullet(l)->0), seq!['[', ' ', ']', ' ']) || has_prefix(
            l.skip(after_bullet(l)->0),
            seq!['[', 'X', ']', ' '],
        ),
    ensures
        toggled(l) is Some,
        toggled(toggled(l)->0) == Some(l),
{
    let a = after_bullet(l)->0;
    let t = toggled(l)->0;
    lemma_span_while(l, 0, CharClass::Whitespace);
    let ic = span_while(l, 0, CharClass::Whitespace);
    if !(has_prefix(l.skip(ic), seq!['-', ' ']) || has_prefix(l.skip(ic), seq!['+', ' '])) {
        lemma_span_while(l, ic, CharClass::AsciiDigit);
    }
    assert(0 <= a <= l.len());
    assert(a + 4 <= l.len());
    let mark = if has_prefix(l.skip(a), seq!['[', ' ', ']', ' ']) {
        'X'
    } else {
        ' '
    };
    assert(t == l.take(a) + seq!['[', mark, ']'] + l.skip(a + 3));
    assert(t.len() == l.len());
    assert forall|j: int| 0 <= j < a implies t[j] == l[j] by {
        assert(t[j] == l.take(a)[j]);
    }
    assert(a >= ic + 2);
    assert(ic < l.len());
    lemma_span_agree(l, t, 0, CharClass::Whitespace);
    assert(t[ic] == l[ic] && t[ic + 1] == l[ic + 1]);
    assert(t.skip(ic).take(2) =~= l.skip(ic).take(2));
    if !(has_prefix(l.skip(ic), seq!['-', ' ']) || has_prefix(l.skip(ic), seq!['+', ' '])) {
        lemma_span_while(l, ic, CharClass::AsciiDigit);
        let d_end = span_while(l, ic, CharClass::AsciiDigit);
        assert(d_end + 2 == a);
        lemma_span_agree(l, t, ic, CharClass::AsciiDigit);
        assert(t[d_end] == l[d_end] && t[d_end + 1] == l[d_end + 1]);
        assert(t.skip(d_end).take(2) =~= l.skip(d_end).take(2));
    }
    assert(after_bullet(t) == Some(a));
    if has_prefix(l.skip(a), seq!['[', ' ', ']', ' ']) {
        assert(l.skip(a).take(4) =~= seq!['[', ' ', ']', ' ']);
        assert(t.skip(a).take(4) =~= seq!['[', 'X', ']', ' ']);
        assert(t.take(a) + seq!['[', ' ', ']'] + t.skip(a + 3) =~= l);
    } else {
        assert(l.skip(a).take(4) =~= seq!['[', 'X', ']', ' ']);
        assert(t.skip(a).take(4) =~= seq!['[', ' ', ']', ' ']);
        assert(t.take(a) + seq!['[', 'X', ']'] + t.skip(a + 3) =~= l);
    }
}

} // verus!
