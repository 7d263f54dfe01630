//! What the screen shows of a line, apart from colours: visual selections,
//! the start of a headline's tag group, and links folded to their labels.
use vstd::prelude::*;
use crate::parser::is_tag_char;
use crate::text::{
    back_while, back_while_exec, chars_of, find_from, find_from_exec, in_class, lemma_back_while,
    lemma_find_from, CharClass,
};

verus! {

// ── Selection ─────────────────────────────────────────────────────────────────

/// Whether `(row, col)` lies in the selection from `(sr, sc)` to `(er, ec)`
/// (start before end); a line-wise selection covers its rows whole.
pub open spec fn spec_in_selection(
    row: int,
    col: int,
    sr: int,
    sc: int,
    er: int,
    ec: int,
    line_wise: bool,
) -> bool {
    &&& sr <= row <= er
    &&& (line_wise || if sr == er {
        sc <= col <= ec
    } else if row == sr {
        col >= sc
    } else if row == er {
        col <= ec
    } else {
        true
    })
}

pub fn in_selection(
    row: usize,
    col: usize,
    sr: usize,
    sc: usize,
    er: usize,
    ec: usize,
    line_wise: bool,
) -> (r: bool)
    ensures
        r == spec_in_selection(
            row as int,
            col as int,
            sr as int,
            sc as int,
            er as int,
            ec as int,
            line_wise,
        ),
{
    if row < sr || row > er {
        return false;
    }
    if line_wise {
        return true;
    }
    if sr == er {
        return col >= sc && col <= ec;
    }
    if row == sr {
        return col >= sc;
    }
    if row == er {
        return col <= ec;
    }
    true
}

// ── Headline tags ─────────────────────────────────────────────────────────────

/// Walk the trailing `:a:b:` group leftwards from the `:` at `pos`: the index
/// of the group's opening `:`, or `s.len()` when the line has no tag group
/// after `from`.
pub open spec fn tags_walk(s: Seq<char>, from: int, pos: int) -> int
    decreases pos,
{
    let n = s.len() as int;
    if pos <= 0 || pos >= n {
        n
    } else {
        let seg_start = back_while(s, pos, CharClass::TagChar);
        proof {
            lemma_back_while(s, pos, CharClass::TagChar);
        }
        if seg_start == pos || seg_start <= from || seg_start <= 0 {
            n
        } else if s[seg_start - 1] == ':' {
            let p = seg_start - 1;
            if p == 0 {
                n
            } else if s[p - 1] == ' ' || s[p - 1] == '\t' || p - 1 < from {
                if p > from {
                    p
                } else {
                    n
                }
            } else {
                tags_walk(s, from, p)
            }
        } else {
            n
        }
    }
}

/// The char index of the `:` that opens the trailing tag group of a headline
/// whose title starts at `from`, or `chars.len()` if there are no tags.
pub open spec fn spec_find_tags(s: Seq<char>, from: int) -> int {
    if s.len() == 0 || s[s.len() - 1] != ':' {
        s.len() as int
    } else {
        tags_walk(s, from, s.len() - 1)
    }
}

/// Find the char index of the ':' that opens the trailing tag section,
/// or `chars.len()` if there are no tags.
pub fn find_tags_char_col(chars: &Vec<char>, from: usize) -> (r: usize)
    ensures
        r == spec_find_tags(chars@, from as int),
{
    let n = chars.len();
    if n == 0 || chars[n - 1] != ':' {
        return n;
    }
    // Walk backwards: collect tag segments between colons
    let mut pos = n - 1;
    loop
        invariant
            0 <= pos < n,
            n == chars@.len(),
            spec_find_tags(chars@, from as int) == tags_walk(chars@, from as int, pos as int),
        decreases pos,
    {
        let colon_pos = pos;
        if colon_pos == 0 {
            return n;
        }
        // Scan tag chars backward
        let seg_start = back_while_exec(chars, colon_pos, CharClass::TagChar);
        proof {
            lemma_back_while(chars@, colon_pos as int, CharClass::TagChar);
        }
        if seg_start == colon_pos {
            return n;
        }
        if seg_start <= from {
            return n;
        }
        let before_tag = chars[seg_start - 1];
        if before_tag == ' ' || before_tag == '\t' {
            return n;
        }
        if before_tag == ':' {
            pos = seg_start - 1;
            if pos == 0 {
                return n;
            }
            let before_colon = chars[pos - 1];
            if before_colon == ' ' || before_colon == '\t' || pos - 1 < from {
                // Found the opening ':' of the whole tag section
                if pos > from {
                    return pos;
                }
                return n;
            }
        } else {
            return n;
        }
    }
}

// ── Links ─────────────────────────────────────────────────────────────────────

/// The source ranges `[a, b)` hidden when links are shown by label, from
/// index `i` on: the brackets and the target of `[[url][label]]`, and the
/// brackets of `[[url]]`.
pub open spec fn link_drops(s: Seq<char>, i: int) -> Seq<(int, int)>
    decreases s.len() - i,
{
    let n = s.len() as int;
    if i < 0 || i + 1 >= n {
        seq![]
    } else if s[i] != '[' || s[i + 1] != '[' {
        link_drops(s, i + 1)
    } else {
        let url_start = i + 2;
        proof {
            lemma_find_from(s, url_start, CharClass::CloseBracket);
        }
        let url_end = find_from(s, url_start, CharClass::CloseBracket);
        let j = url_end + 1;
        if url_end >= n || j >= n {
            seq![]
        } else if s[j] == ']' {
            seq![(i, url_start), (url_end, j + 1)] + link_drops(s, j + 1)
        } else if s[j] == '[' {
            let desc_start = j + 1;
            proof {
                lemma_find_from(s, desc_start, CharClass::CloseBracket);
            }
            let desc_end = find_from(s, desc_start, CharClass::CloseBracket);
            let k = desc_end + 1;
            if desc_end >= n {
                seq![]
            } else if k >= n || s[k] != ']' {
                link_drops(s, k)
            } else {
                seq![(i, desc_start), (desc_end, k + 1)] + link_drops(s, k + 1)
            }
        } else {
            link_drops(s, j)
        }
    }
}

/// Whether index `idx` falls in one of the ranges `d`.
pub open spec fn hidden(d: Seq<(int, int)>, idx: int) -> bool {
    exists|k: int| 0 <= k < d.len() && (#[trigger] d[k]).0 <= idx < d[k].1
}

/// The indices below `n` outside the ranges `d`, in order.
pub open spec fn shown(d: Seq<(int, int)>, n: int) -> Seq<int>
    decreases n,
{
    if n <= 0 {
        seq![]
    } else if hidden(d, n - 1) {
        shown(d, n - 1)
    } else {
        shown(d, n - 1).push(n - 1)
    }
}

pub open spec fn ranges_view(v: Seq<(usize, usize)>) -> Seq<(int, int)> {
    Seq::new(v.len(), |k: int| (v[k].0 as int, v[k].1 as int))
}

/// Whether `idx` falls in one of the ranges `drop`.
fn is_hidden(drop: &Vec<(usize, usize)>, idx: usize) -> (r: bool)
    ensures
        r == hidden(ranges_view(drop@), idx as int),
{
    let ghost d = ranges_view(drop@);
    let mut q: usize = 0;
    while q < drop.len()
        invariant
            q <= drop@.len(),
            d == ranges_view(drop@),
            forall|k: int| 0 <= k < q ==> !((#[trigger] d[k]).0 <= idx < d[k].1),
        decreases drop@.len() - q,
    {
        let (start, end) = drop[q];
        if idx >= start && idx < end {
            assert(d[q as int].0 <= idx < d[q as int].1);
            return true;
        }
        q += 1;
    }
    false
}

/// Build the display chars for a line with link syntax concealed:
/// `[[url][desc]]` collapses to just `desc`, and `[[url]]` collapses to just
/// `url`. Returns the chars shown and, for each, its index in the line, so
/// that per-character styles can follow them.
pub fn conceal_links(line: &str) -> (r: (Vec<char>, Vec<usize>))
    ensures
        ({
            let idx = shown(link_drops(line@, 0), line@.len() as int);
            &&& r.1@.len() == idx.len()
            &&& forall|k: int| 0 <= k < idx.len() ==> r.1@[k] == idx[k]
            &&& r.0@ == Seq::new(idx.len(), |k: int| line@[idx[k]])
        }),
{
    let chars = chars_of(line);
    let ghost s = chars@;
    let n = chars.len();

    // Ranges of source-char indices to drop from the display (brackets, "][", URL).
    let mut drop: Vec<(usize, usize)> = Vec::new();
    let mut i: usize = 0;
    let mut done = false;
    while !done && n > 0 && i < n - 1
        invariant
            i <= n,
            n == s.len(),
            s == chars@,
            ranges_view(drop@) + (if done {
                seq![]
            } else {
                link_drops(s, i as int)
            }) == link_drops(s, 0),
        decreases n - i + (if done {
            0int
        } else {
            1int
        }),
    {
        let ghost d0 = ranges_view(drop@);
        if chars[i] != '[' || chars[i + 1] != '[' {
            i += 1;
        } else {
            let link_start = i;
            let url_start = i + 2;
            let url_end = find_from_exec(&chars, url_start, CharClass::CloseBracket);
            proof {
                lemma_find_from(s, url_start as int, CharClass::CloseBracket);
            }
            if url_end >= n || url_end + 1 >= n {
                done = true;
                assert(d0 + seq![] =~= d0);
            } else {
                let j = url_end + 1;
                if chars[j] == ']' {
                    // [[url]] — drop "[[" and "]]", keep url text.
                    drop.push((link_start, url_start));
                    drop.push((url_end, j + 1));
                    i = j + 1;
                    assert(ranges_view(drop@) =~= d0 + seq![
                        (link_start as int, url_start as int),
                        (url_end as int, j + 1),
                    ]);
                } else if chars[j] == '[' {
                    // [[url][desc]] — drop everything but desc text.
                    let desc_start = j + 1;
                    let desc_end = find_from_exec(&chars, desc_start, CharClass::CloseBracket);
                    proof {
                        lemma_find_from(s, desc_start as int, CharClass::CloseBracket);
                    }
                    if desc_end >= n {
                        done = true;
                        assert(d0 + seq![] =~= d0);
                    } else {
                        let k = desc_end + 1;
                        if k >= n || chars[k] != ']' {
                            i = k;
                        } else {
                            drop.push((link_start, desc_start));
                            drop.push((desc_end, k + 1));
                            i = k + 1;
                            assert(ranges_view(drop@) =~= d0 + seq![
                                (link_start as int, desc_start as int),
                                (desc_end as int, k + 1),
                            ]);
                        }
                    }
                } else {
                    i = j;
                }
            }
        }
    }
    let ghost d = ranges_view(drop@);
    assert(d == link_drops(s, 0)) by {
        if !done {
            assert(link_drops(s, i as int) == Seq::<(int, int)>::empty());
        }
        assert(d + Seq::<(int, int)>::empty() =~= d);
    }
    let mut out_chars: Vec<char> = Vec::new();
    let mut out_idx: Vec<usize> = Vec::new();
    let mut idx: usize = 0;
    while idx < n
        invariant
            idx <= n,
            n == s.len(),
            s == chars@,
            d == ranges_view(drop@),
            out_idx@.len() == shown(d, idx as int).len(),
            forall|k: int| 0 <= k < out_idx@.len() ==> out_idx@[k] == shown(d, idx as int)[k],
            out_chars@ == Seq::new(
                shown(d, idx as int).len(),
                |k: int| s[shown(d, idx as int)[k]],
            ),
            forall|k: int| 0 <= k < shown(d, idx as int).len() ==> 0 <= #[trigger] shown(d, idx as int)[k] < idx,
        decreases n - idx,
    {
        let ghost prev = shown(d, idx as int);
        if !is_hidden(&drop, idx) {
            out_chars.push(chars[idx]);
            out_idx.push(idx);
            assert(shown(d, idx + 1) == prev.push(idx as int));
        } else {
            assert(shown(d, idx + 1) == prev);
        }
        idx += 1;
        assert(out_chars@ =~= Seq::new(
            shown(d, idx as int).len(),
            |k: int| s[shown(d, idx as int)[k]],
        ));
    }
    (out_chars, out_idx)
}

// ── Laws ──────────────────────────────────────────────────────────────────────

/// Whether `s` holds no `[[` from index `i` on.
pub open spec fn no_link_open(s: Seq<char>, i: int) -> bool {
    forall|j: int| i <= j && j + 1 < s.len() ==> !(#[trigger] s[j] == '[' && s[j + 1] == '[')
}

proof fn lemma_no_drops(s: Seq<char>, i: int)
    requires
        0 <= i,
        no_link_open(s, i),
    ensures
        link_drops(s, i) == Seq::<(int, int)>::empty(),
    decreases s.len() - i,
{
    if i + 1 < s.len() {
        assert(!(s[i] == '[' && s[i + 1] == '['));
        lemma_no_drops(s, i + 1);
    }
}

proof fn lemma_shown_all(n: int)
    requires
        0 <= n,
    ensures
        shown(Seq::<(int, int)>::empty(), n) == Seq::new(n as nat, |k: int| k),
    decreases n,
{
    if n > 0 {
        lemma_shown_all(n - 1);
        assert(!hidden(Seq::<(int, int)>::empty(), n - 1));
        assert(Seq::new((n - 1) as nat, |k: int| k).push(n - 1) =~= Seq::new(n as nat, |k: int| k));
    } else {
        assert(Seq::new(0, |k: int| k) =~= Seq::<int>::empty());
    }
}

/// A line without `[[` is shown as it is.
pub proof fn law_conceal_plain_line(s: Seq<char>)
    requires
        no_link_open(s, 0),
    ensures
        ({
            let idx = shown(link_drops(s, 0), s.len() as int);
            &&& idx == Seq::new(s.len(), |k: int| k)
            &&& Seq::new(idx.len(), |k: int| s[idx[k]]) == s
        }),
{
    lemma_no_drops(s, 0);
    lemma_shown_all(s.len() as int);
    let idx = shown(link_drops(s, 0), s.len() as int);
    assert(Seq::new(idx.len(), |k: int| s[idx[k]]) =~= s);
}

// ── Overlays ──────────────────────────────────────────────────────────────────

/// What is drawn over a character cell, above its syntax colours.
#[derive(Debug, Clone, Copy, PartialEq, Eq, Structural)]
pub enum Overlay {
    Plain,
    Selected,
    Match { current: bool },
    Cursor,
}

/// The index of the first of the matches `ms[k..]` (each `(row, column)`,
/// `qlen` columns long) that covers cell `(row, col)`.
pub open spec fn covering_match(
    ms: Seq<(usize, usize)>,
    row: int,
    col: int,
    qlen: int,
    k: int,
) -> Option<int>
    decreases ms.len() - k,
{
    if k < 0 || k >= ms.len() {
        None
    } else if ms[k].0 == row && qlen > 0 && ms[k].1 <= col < ms[k].1 + qlen {
        Some(k)
    } else {
        covering_match(ms, row, col, qlen, k + 1)
    }
}

/// The overlay of cell `(row, col)`: the block cursor (out of Insert mode)
/// over a search match over the visual selection. `current` is the match
/// the search shows.
pub open spec fn spec_cell_overlay(
    row: int,
    col: int,
    active: bool,
    sel: Option<(usize, usize, usize, usize, bool)>,
    ms: Seq<(usize, usize)>,
    qlen: int,
    current: Option<usize>,
    cursor: (usize, usize),
    insert: bool,
) -> Overlay {
    if active && row == cursor.0 && col == cursor.1 && !insert {
        Overlay::Cursor
    } else {
        match covering_match(ms, row, col, qlen, 0) {
            Some(k) => Overlay::Match { current: current == Some(k as usize) },
            None => match sel {
                Some((sr, sc, er, ec, line_wise)) => if active && spec_in_selection(
                    row,
                    col,
                    sr as int,
                    sc as int,
                    er as int,
                    ec as int,
                    line_wise,
                ) {
                    Overlay::Selected
                } else {
                    Overlay::Plain
                },
                None => Overlay::Plain,
            },
        }
    }
}

pub fn cell_overlay(
    row: usize,
    col: usize,
    active: bool,
    sel: Option<(usize, usize, usize, usize, bool)>,
    matches: &Vec<(usize, usize)>,
    query_len: usize,
    current: Option<usize>,
    cursor: (usize, usize),
    insert: bool,
) -> (r: Overlay)
    ensures
        r == spec_cell_overlay(
            row as int,
            col as int,
            active,
            sel,
            matches@,
            query_len as int,
            current,
            cursor,
            insert,
        ),
{
    if active && row == cursor.0 && col == cursor.1 && !insert {
        return Overlay::Cursor;
    }
    let mut k: usize = 0;
    while k < matches.len()
        invariant
            k <= matches@.len(),
            !(active && row == cursor.0 && col == cursor.1 && !insert),
            covering_match(matches@, row as int, col as int, query_len as int, 0)
                == covering_match(matches@, row as int, col as int, query_len as int, k as int),
        decreases matches@.len() - k,
    {
        let (r, c) = matches[k];
        if r == row && query_len > 0 && c <= col && col - c < query_len {
            assert(covering_match(matches@, row as int, col as int, query_len as int, k as int)
                == Some(k as int));
            let is_current = match current {
                Some(i) => i == k,
                None => false,
            };
            assert(is_current == (current == Some(k)));
            return Overlay::Match { current: is_current };
        }
        k += 1;
    }
    match sel {
        Some((sr, sc, er, ec, line_wise)) => {
            if active && in_selection(row, col, sr, sc, er, ec, line_wise) {
                Overlay::Selected
            } else {
                Overlay::Plain
            }
        },
        None => Overlay::Plain,
    }
}

/// Whether row `row` shows its links folded to their labels: when folding
/// is on, except on the cursor's row of the active pane in Insert mode.
pub fn folds_links(conceal: bool, active: bool, row: usize, cursor_row: usize, insert: bool) -> (r:
    bool)
    ensures
        r == (conceal && !(active && row == cursor_row && insert)),
{
    conceal && !(active && row == cursor_row && insert)
}

} // verus!
