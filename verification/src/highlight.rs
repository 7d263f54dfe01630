//! Syntax colours of an org-mode line: one style per character.
use vstd::prelude::*;
use crate::display::{find_tags_char_col, spec_find_tags};
use crate::inline::{lemma_close_scan, markup_close};
use crate::text::{
    char_is_alphanumeric, find_from, find_from_exec, is_alphanumeric, is_whitespace,
    in_class, lemma_find_from, lemma_span_while, span_while, span_while_exec, spec_is_whitespace,
    CharClass,
};

verus! {

#[derive(Debug, Clone, Copy, PartialEq, Eq, Structural)]
pub enum Color {
    DarkGray,
    Green,
    Yellow,
    Cyan,
    White,
    LightRed,
    LightYellow,
    LightGreen,
    LightBlue,
    LightMagenta,
    LightCyan,
}

/// A foreground colour (none for the terminal's own) and text attributes.
#[derive(Debug, Clone, Copy, PartialEq, Eq, Structural)]
pub struct Style {
    pub fg: Option<Color>,
    pub bold: bool,
    pub italic: bool,
    pub underlined: bool,
    pub crossed_out: bool,
}

/// The terminal's own style.
pub open spec fn plain() -> Style {
    Style { fg: None, bold: false, italic: false, underlined: false, crossed_out: false }
}

pub open spec fn fg(c: Color) -> Style {
    Style { fg: Some(c), bold: false, italic: false, underlined: false, crossed_out: false }
}

pub open spec fn fg_bold(c: Color) -> Style {
    Style { fg: Some(c), bold: true, italic: false, underlined: false, crossed_out: false }
}

/// Dimmed text: brackets, stars, keywords lines.
pub open spec fn dim() -> Style {
    fg(Color::DarkGray)
}

/// The visible part of a link.
pub open spec fn link_text() -> Style {
    Style {
        fg: Some(Color::Cyan),
        bold: false,
        italic: false,
        underlined: true,
        crossed_out: false,
    }
}

/// `+struck+` text.
pub open spec fn struck() -> Style {
    Style {
        fg: Some(Color::DarkGray),
        bold: false,
        italic: false,
        underlined: false,
        crossed_out: true,
    }
}

fn make(fg: Option<Color>, bold: bool, italic: bool, underlined: bool, crossed_out: bool) -> (s:
    Style)
    ensures
        s == (Style { fg, bold, italic, underlined, crossed_out }),
{
    Style { fg, bold, italic, underlined, crossed_out }
}

/// `st` with positions `a..b` set to `x`.
pub open spec fn fill(st: Seq<Style>, a: int, b: int, x: Style) -> Seq<Style> {
    Seq::new(st.len(), |k: int| if a <= k < b { x } else { st[k] })
}

fn fill_range(styles: &mut Vec<Style>, a: usize, b: usize, x: Style)
    requires
        a <= b <= old(styles)@.len(),
    ensures
        final(styles)@ == fill(old(styles)@, a as int, b as int, x),
{
    let mut k = a;
    while k < b
        invariant
            a <= k <= b <= styles@.len(),
            styles@.len() == old(styles)@.len(),
            styles@ == fill(old(styles)@, a as int, k as int, x).take(b as int) + old(
                styles,
            )@.skip(b as int),
        decreases b - k,
    {
        styles.set(k, x);
        k += 1;
        assert(styles@ =~= fill(old(styles)@, a as int, k as int, x).take(b as int) + old(
            styles,
        )@.skip(b as int));
    }
    assert(styles@ =~= fill(old(styles)@, a as int, b as int, x));
}

// ── Headings ──────────────────────────────────────────────────────────────────

/// The title colour of a heading at each level.
pub open spec fn spec_heading_color(level: int) -> Color {
    if level == 1 {
        Color::LightBlue
    } else if level == 2 {
        Color::LightGreen
    } else if level == 3 {
        Color::LightYellow
    } else if level == 4 {
        Color::LightMagenta
    } else {
        Color::LightCyan
    }
}

pub fn heading_color(level: usize) -> (c: Color)
    ensures
        c == spec_heading_color(level as int),
{
    match level {
        1 => Color::LightBlue,
        2 => Color::LightGreen,
        3 => Color::LightYellow,
        4 => Color::LightMagenta,
        _ => Color::LightCyan,
    }
}

/// The TODO keywords a heading shows in colour, in the order they are tried.
pub open spec fn hl_keyword(i: int) -> Seq<char> {
    if i == 0 {
        "TODO"@
    } else if i == 1 {
        "NEXT"@
    } else if i == 2 {
        "DOING"@
    } else if i == 3 {
        "WAITING"@
    } else if i == 4 {
        "HOLD"@
    } else if i == 5 {
        "DONE"@
    } else {
        "CANCELLED"@
    }
}

/// The style of each TODO keyword.
pub open spec fn hl_keyword_style(i: int) -> Style {
    if i == 0 {
        fg_bold(Color::LightRed)
    } else if i == 1 || i == 2 {
        fg_bold(Color::LightYellow)
    } else if i == 3 || i == 4 {
        fg(Color::LightMagenta)
    } else if i == 5 {
        fg(Color::Green)
    } else {
        fg(Color::DarkGray)
    }
}

/// The first keyword from index `i` on that stands at `pos` as a whole word.
pub open spec fn keyword_at(s: Seq<char>, pos: int, i: int) -> Option<int>
    decreases 7 - i,
{
    if i < 0 || i >= 7 {
        None
    } else {
        let kw = hl_keyword(i);
        if pos + kw.len() <= s.len() && s.subrange(pos, pos + kw.len()) == kw && (pos + kw.len()
            == s.len() || s[pos + kw.len()] == ' ') {
            Some(i)
        } else {
            keyword_at(s, pos, i + 1)
        }
    }
}

/// The priority style of `[#P]`.
pub open spec fn priority_style(p: char) -> Style {
    if p == 'A' {
        fg_bold(Color::LightRed)
    } else if p == 'B' {
        fg_bold(Color::LightYellow)
    } else if p == 'C' {
        fg_bold(Color::LightGreen)
    } else {
        fg_bold(Color::White)
    }
}

/// After the keyword step: the styles and the position after it.
pub open spec fn after_keyword(s: Seq<char>, st: Seq<Style>, pos: int, title: Style) -> (Seq<Style>, int) {
    match keyword_at(s, pos, 0) {
        Some(i) => {
            let e = pos + hl_keyword(i).len();
            let st1 = fill(st, pos, e, hl_keyword_style(i));
            if e < s.len() && s[e] == ' ' {
                (fill(st1, e, e + 1, title), e + 1)
            } else {
                (st1, e)
            }
        },
        None => (st, pos),
    }
}

/// After the priority step.
pub open spec fn after_priority(s: Seq<char>, st: Seq<Style>, pos: int, title: Style) -> (Seq<Style>, int) {
    if pos + 4 <= s.len() && s[pos] == '[' && s[pos + 1] == '#' && s[pos + 3] == ']' {
        let st1 = fill(st, pos, pos + 4, priority_style(s[pos + 2]));
        let e = pos + 4;
        if e < s.len() && s[e] == ' ' {
            (fill(st1, e, e + 1, title), e + 1)
        } else {
            (st1, e)
        }
    } else {
        (st, pos)
    }
}

/// The styles of a heading line with `stars` leading stars: dim stars, a
/// coloured keyword and priority, the title in the level's colour, dim tags.
pub open spec fn heading_styles(s: Seq<char>, st: Seq<Style>, stars: int) -> Seq<Style> {
    let n = s.len() as int;
    let title = fg_bold(spec_heading_color(stars));
    let st0 = fill(st, 0, if stars < n { stars } else { n }, dim());
    let st1 = if stars < n { fill(st0, stars, stars + 1, title) } else { st0 };
    let (st2, p2) = after_keyword(s, st1, stars + 1, title);
    let (st3, p3) = after_priority(s, st2, p2, title);
    let tag = spec_find_tags(s, p3);
    fill(fill(st3, p3, if tag < n { tag } else { n }, title), tag, n, dim())
}

fn keyword_exec(i: usize) -> (r: (&'static str, Style))
    requires
        i < 7,
    ensures
        r.0@ == hl_keyword(i as int),
        r.1 == hl_keyword_style(i as int),
{
    if i == 0 {
        ("TODO", make(Some(Color::LightRed), true, false, false, false))
    } else if i == 1 {
        ("NEXT", make(Some(Color::LightYellow), true, false, false, false))
    } else if i == 2 {
        ("DOING", make(Some(Color::LightYellow), true, false, false, false))
    } else if i == 3 {
        ("WAITING", make(Some(Color::LightMagenta), false, false, false, false))
    } else if i == 4 {
        ("HOLD", make(Some(Color::LightMagenta), false, false, false, false))
    } else if i == 5 {
        ("DONE", make(Some(Color::Green), false, false, false, false))
    } else {
        ("CANCELLED", make(Some(Color::DarkGray), false, false, false, false))
    }
}

/// Whether `kw` stands at `pos` of `s` as a whole word.
fn word_at(s: &Vec<char>, pos: usize, kw: &Vec<char>) -> (r: bool)
    ensures
        r == (pos + kw@.len() <= s@.len() && s@.subrange(pos as int, pos + kw@.len()) == kw@ && (
        pos + kw@.len() == s@.len() || s@[pos + kw@.len()] == ' ')),
{
    let n = s.len();
    if pos > n || kw.len() > n - pos {
        return false;
    }
    let mut k: usize = 0;
    while k < kw.len()
        invariant
            k <= kw@.len(),
            pos + kw@.len() <= s@.len(),
            n == s@.len(),
            forall|t: int| 0 <= t < k ==> s@[pos + t] == kw@[t],
        decreases kw@.len() - k,
    {
        if s[pos + k] != kw[k] {
            assert(s@.subrange(pos as int, pos + kw@.len())[k as int] != kw@[k as int]);
            return false;
        }
        k += 1;
    }
    assert(s@.subrange(pos as int, pos + kw@.len()) =~= kw@);
    let e = pos + kw.len();
    e == n || s[e] == ' '
}

fn style_heading(chars: &Vec<char>, styles: &mut Vec<Style>, star_count: usize)
    requires
        old(styles)@.len() == chars@.len(),
        star_count < chars@.len(),
    ensures
        final(styles)@ == heading_styles(chars@, old(styles)@, star_count as int),
{
    let ghost s = chars@;
    let n = chars.len();
    let level_color = heading_color(star_count);
    let dim_style = make(Some(Color::DarkGray), false, false, false, false);
    let title_style = make(Some(level_color), true, false, false, false);
    // Stars: dimmed
    fill_range(styles, 0, star_count, dim_style);
    // Space after stars
    fill_range(styles, star_count, star_count + 1, title_style);
    let mut pos = star_count + 1;
    // TODO keyword
    let ghost st1 = styles@;
    let mut i: usize = 0;
    let mut done = false;
    while !done && i < 7
        invariant
            i <= 7,
            n == s.len(),
            s == chars@,
            star_count < n,
            styles@.len() == n,
            !done ==> pos == star_count + 1 && styles@ == st1 && keyword_at(s, pos as int, 0)
                == keyword_at(s, pos as int, i as int),
            done ==> (styles@, pos as int) == after_keyword(s, st1, star_count + 1, title_style),
            pos <= n,
        decreases 7 - i + (if done {
            0int
        } else {
            1int
        }),
    {
        let (kw, kw_style) = keyword_exec(i);
        let kw_chars = chars_of_str(kw);
        if word_at(chars, pos, &kw_chars) {
            let e = pos + kw_chars.len();
            fill_range(styles, pos, e, kw_style);
            pos = e;
            if pos < n && chars[pos] == ' ' {
                fill_range(styles, pos, pos + 1, title_style);
                pos += 1;
            }
            done = true;
        } else {
            i += 1;
        }
    }
    // Priority [#A] / [#B] / [#C]
    let ghost st2 = styles@;
    let ghost p2 = pos as int;
    if n - pos >= 4 && chars[pos] == '[' && chars[pos + 1] == '#' && chars[pos + 3] == ']' {
        let p = chars[pos + 2];
        let pri_color = if p == 'A' {
            Color::LightRed
        } else if p == 'B' {
            Color::LightYellow
        } else if p == 'C' {
            Color::LightGreen
        } else {
            Color::White
        };
        let pri_style = make(Some(pri_color), true, false, false, false);
        fill_range(styles, pos, pos + 4, pri_style);
        pos += 4;
        if pos < n && chars[pos] == ' ' {
            fill_range(styles, pos, pos + 1, title_style);
            pos += 1;
        }
    }
    assert((styles@, pos as int) == after_priority(s, st2, p2, title_style));
    // Tags at end: :foo:bar:
    let tag_start = find_tags_char_col(chars, pos);
    proof {
        lemma_find_tags_bounds(s, pos as int);
    }
    let title_end = if tag_start < n {
        tag_start
    } else {
        n
    };
    fill_range(styles, pos, title_end, title_style);
    fill_range(styles, tag_start, n, dim_style);
}

fn chars_of_str(s: &str) -> (v: Vec<char>)
    ensures
        v@ == s@,
{
    crate::text::chars_of(s)
}

/// The tag group, when there is one, starts after `from`.
proof fn lemma_find_tags_bounds(s: Seq<char>, from: int)
    requires
        0 <= from <= s.len(),
    ensures
        spec_find_tags(s, from) == s.len() || (from < spec_find_tags(s, from) < s.len()),
{
    if !(s.len() == 0 || s[s.len() - 1] != ':') {
        lemma_tags_walk_bounds(s, from, s.len() - 1);
    }
}

proof fn lemma_tags_walk_bounds(s: Seq<char>, from: int, pos: int)
    requires
        0 <= from,
    ensures
        crate::display::tags_walk(s, from, pos) == s.len() || (from < crate::display::tags_walk(
            s,
            from,
            pos,
        ) < s.len()),
    decreases pos,
{
    let n = s.len() as int;
    if !(pos <= 0 || pos >= n) {
        crate::text::lemma_back_while(s, pos, CharClass::TagChar);
        let seg_start = crate::text::back_while(s, pos, CharClass::TagChar);
        if !(seg_start == pos || seg_start <= from || seg_start <= 0) && s[seg_start - 1] == ':' {
            let p = seg_start - 1;
            if p != 0 && !(s[p - 1] == ' ' || s[p - 1] == '\t' || p - 1 < from) {
                lemma_tags_walk_bounds(s, from, p);
            }
        }
    }
}

// ── Inline spans ──────────────────────────────────────────────────────────────

/// `+text+` spans from index `i` on, struck through: the opening `+` not
/// after an alphanumeric character nor before whitespace, the closing one
/// not after whitespace nor before an alphanumeric character.
pub open spec fn strike_from(s: Seq<char>, i: int, st: Seq<Style>) -> Seq<Style>
    decreases s.len() - i,
{
    let n = s.len() as int;
    if i < 0 || i >= n {
        st
    } else if s[i] == '+' && (i == 0 || !char_is_alphanumeric(s[i - 1])) && markup_close(s, i, n)
        < n {
        let j = markup_close(s, i, n);
        proof {
            lemma_close_scan(s, '+', i + 2, n);
        }
        strike_from(s, j + 1, fill(st, i, j + 1, struck()))
    } else {
        strike_from(s, i + 1, st)
    }
}

/// Apply `CROSSED_OUT` styling to `+text+` spans in a line.
/// Follows org-mode rules: opener must not be preceded by alphanumeric and must
/// not be followed by whitespace; closer must not be preceded by whitespace and
/// must not be followed by alphanumeric.
pub fn apply_strikethrough(chars: &Vec<char>, styles: &mut Vec<Style>)
    requires
        old(styles)@.len() == chars@.len(),
    ensures
        final(styles)@ == strike_from(chars@, 0, old(styles)@),
        final(styles)@.len() == old(styles)@.len(),
{
    let ghost s = chars@;
    let n = chars.len();
    let mut i: usize = 0;
    while i < n
        invariant
            i <= n,
            n == s.len(),
            s == chars@,
            styles@.len() == n,
            strike_from(s, 0, old(styles)@) == strike_from(s, i as int, styles@),
        decreases n - i,
    {
        if chars[i] != '+' {
            i += 1;
            continue;
        }
        let pre_ok = i == 0 || !is_alphanumeric(chars[i - 1]);
        let content_start = i + 1;
        if !pre_ok || content_start >= n || is_whitespace(chars[content_start]) {
            i += 1;
            continue;
        }
        // Search for closing '+'
        let mut j = content_start + 1;
        let mut found = false;
        while !found && j < n
            invariant
                i + 2 <= j <= n,
                n == s.len(),
                s == chars@,
                s[i as int] == '+',
                found ==> j < n && crate::inline::close_scan(s, '+', i + 2, n as int) == j,
                !found ==> crate::inline::close_scan(s, '+', i + 2, n as int)
                    == crate::inline::close_scan(s, '+', j as int, n as int),
            decreases n - j + (if found {
                0int
            } else {
                1int
            }),
        {
            if chars[j] == '+' && !is_whitespace(chars[j - 1]) && (j + 1 >= n || !is_alphanumeric(
                chars[j + 1],
            )) {
                found = true;
            } else {
                j += 1;
            }
        }
        proof {
            lemma_close_scan(s, '+', i + 2, n as int);
        }
        if found {
            let strike_style = make(Some(Color::DarkGray), false, false, false, true);
            fill_range(styles, i, j + 1, strike_style);
            i = j + 1;
        } else {
            i += 1;
        }
    }
}

/// The link spans from index `i` on: brackets and targets dimmed, the
/// visible text (the description, or a bare target) underlined in cyan.
pub open spec fn link_styles_from(s: Seq<char>, i: int, st: Seq<Style>) -> Seq<Style>
    decreases s.len() - i,
{
    let n = s.len() as int;
    if i < 0 || i + 1 >= n {
        st
    } else if s[i] != '[' || s[i + 1] != '[' {
        link_styles_from(s, i + 1, st)
    } else {
        let url_start = i + 2;
        proof {
            lemma_find_from(s, url_start, CharClass::CloseBracket);
        }
        let url_end = find_from(s, url_start, CharClass::CloseBracket);
        let j = url_end + 1;
        if url_end >= n || j >= n {
            st
        } else if s[j] == ']' {
            let st1 = fill(fill(fill(st, i, i + 2, dim()), url_start, url_end, link_text()), url_end, j + 1, dim());
            link_styles_from(s, j + 1, st1)
        } else if s[j] == '[' {
            let desc_start = j + 1;
            proof {
                lemma_find_from(s, desc_start, CharClass::CloseBracket);
            }
            let desc_end = find_from(s, desc_start, CharClass::CloseBracket);
            let k = desc_end + 1;
            if desc_end >= n {
                st
            } else if k >= n || s[k] != ']' {
                link_styles_from(s, k, st)
            } else {
                let st1 = fill(fill(fill(st, i, j + 1, dim()), desc_start, desc_end, link_text()), desc_end, k + 1, dim());
                link_styles_from(s, k + 1, st1)
            }
        } else {
            link_styles_from(s, j, st)
        }
    }
}

/// Style `[[url]]` and `[[url][desc]]` link spans.
///
/// Bracket delimiters and the URL are dimmed; the description (or bare URL)
/// is rendered cyan + underlined so it stands out as a clickable reference.
pub fn apply_link_styles(chars: &Vec<char>, styles: &mut Vec<Style>)
    requires
        old(styles)@.len() == chars@.len(),
    ensures
        final(styles)@ == link_styles_from(chars@, 0, old(styles)@),
        final(styles)@.len() == old(styles)@.len(),
{
    let ghost s = chars@;
    let n = chars.len();
    let dim_style = make(Some(Color::DarkGray), false, false, false, false);
    let desc_style = make(Some(Color::Cyan), false, false, true, false);
    let mut i: usize = 0;
    let mut done = false;
    while !done && n > 0 && i < n - 1
        invariant
            i <= n,
            n == s.len(),
            s == chars@,
            styles@.len() == n,
            dim_style == dim(),
            desc_style == link_text(),
            link_styles_from(s, 0, old(styles)@) == (if done {
                styles@
            } else {
                link_styles_from(s, i as int, styles@)
            }),
        decreases n - i + (if done {
            0int
        } else {
            1int
        }),
    {
        if chars[i] != '[' || chars[i + 1] != '[' {
            i += 1;
        } else {
            let link_start = i;
            let url_start = i + 2;
            let url_end = find_from_exec(chars, url_start, CharClass::CloseBracket);
            proof {
                lemma_find_from(s, url_start as int, CharClass::CloseBracket);
            }
            if url_end >= n || url_end + 1 >= n {
                done = true;
            } else {
                let j = url_end + 1;
                if chars[j] == ']' {
                    // Form: [[url]]
                    fill_range(styles, link_start, link_start + 2, dim_style);
                    fill_range(styles, url_start, url_end, desc_style);
                    fill_range(styles, url_end, j + 1, dim_style);
                    i = j + 1;
                } else if chars[j] == '[' {
                    // Form: [[url][desc]]
                    let desc_start = j + 1;
                    let desc_end = find_from_exec(chars, desc_start, CharClass::CloseBracket);
                    proof {
                        lemma_find_from(s, desc_start as int, CharClass::CloseBracket);
                    }
                    if desc_end >= n {
                        done = true;
                    } else {
                        let k = desc_end + 1;
                        if k >= n || chars[k] != ']' {
                            i = k;
                        } else {
                            fill_range(styles, link_start, j + 1, dim_style);
                            fill_range(styles, desc_start, desc_end, desc_style);
                            fill_range(styles, desc_end, k + 1, dim_style);
                            i = k + 1;
                        }
                    }
                } else {
                    i = j;
                }
            }
        }
    }
}

// ── Lines ─────────────────────────────────────────────────────────────────────

/// The style of a checkbox by its mark.
pub open spec fn checkbox_style(mark: char) -> Style {
    if mark == 'X' || mark == 'x' {
        fg_bold(Color::Green)
    } else if mark == '-' {
        fg(Color::Yellow)
    } else {
        dim()
    }
}

/// The style of drawer and property lines.
pub open spec fn drawer_style() -> Style {
    Style {
        fg: Some(Color::DarkGray),
        bold: false,
        italic: true,
        underlined: false,
        crossed_out: false,
    }
}

/// Bullets and checkboxes over the inline styles `st` of a list line.
pub open spec fn list_styles(s: Seq<char>, st: Seq<Style>) -> Seq<Style> {
    let n = s.len() as int;
    let f = span_while(s, 0, CharClass::Space);
    if f < n && (s[f] == '-' || s[f] == '+') {
        let st2 = fill(st, f, f + 1, fg_bold(Color::DarkGray));
        let cb = f + 2;
        if cb + 2 < n && s[cb] == '[' && s[cb + 2] == ']' {
            fill(st2, cb, cb + 3, checkbox_style(s[cb + 1]))
        } else {
            st2
        }
    } else {
        st
    }
}

/// The style of each character of a source line.
pub open spec fn spec_org_styles(s: Seq<char>) -> Seq<Style> {
    let n = s.len() as int;
    let base = Seq::new(n as nat, |k: int| plain());
    let stars = span_while(s, 0, CharClass::Star);
    if n == 0 {
        base
    } else if stars > 0 && stars < n && s[stars] == ' ' {
        heading_styles(s, base, stars)
    } else if n >= 2 && s[0] == '#' && s[1] == '+' {
        Seq::new(n as nat, |k: int| dim())
    } else if s[0] == ':' {
        Seq::new(n as nat, |k: int| drawer_style())
    } else {
        list_styles(s, strike_from(s, 0, link_styles_from(s, 0, base)))
    }
}

/// Return a per-character style array for one source line.
pub fn org_styles(line: &str) -> (r: Vec<Style>)
    ensures
        r@ == spec_org_styles(line@),
{
    let chars = crate::text::chars_of(line);
    let ghost s = chars@;
    let n = chars.len();
    let mut styles: Vec<Style> = Vec::new();
    let mut k: usize = 0;
    while k < n
        invariant
            k <= n,
            styles@ == Seq::new(k as nat, |t: int| plain()),
        decreases n - k,
    {
        styles.push(make(None, false, false, false, false));
        k += 1;
        assert(styles@ =~= Seq::new(k as nat, |t: int| plain()));
    }
    if n == 0 {
        return styles;
    }
    // ── Heading ──────────────────────────────────────────────────────────────
    let star_count = span_while_exec(&chars, 0, CharClass::Star);
    proof {
        lemma_span_while(s, 0, CharClass::Star);
    }
    if star_count > 0 && star_count < n && chars[star_count] == ' ' {
        style_heading(&chars, &mut styles, star_count);
        return styles;
    }
    // ── #+keyword lines ───────────────────────────────────────────────────────
    if n >= 2 && chars[0] == '#' && chars[1] == '+' {
        let d = make(Some(Color::DarkGray), false, false, false, false);
        fill_range(&mut styles, 0, n, d);
        assert(styles@ =~= Seq::new(n as nat, |t: int| dim()));
        return styles;
    }
    // ── Drawer / property lines ───────────────────────────────────────────────
    if chars[0] == ':' {
        let d = make(Some(Color::DarkGray), false, true, false, false);
        fill_range(&mut styles, 0, n, d);
        assert(styles@ =~= Seq::new(n as nat, |t: int| drawer_style()));
        return styles;
    }
    // ── Inline markup ─────────────────────────────────────────────────────────
    apply_link_styles(&chars, &mut styles);
    apply_strikethrough(&chars, &mut styles);
    // ── List bullets & checkboxes ─────────────────────────────────────────────
    let first_non_space = span_while_exec(&chars, 0, CharClass::Space);
    proof {
        lemma_span_while(s, 0, CharClass::Space);
    }
    if first_non_space < n && (chars[first_non_space] == '-' || chars[first_non_space] == '+') {
        let bullet = make(Some(Color::DarkGray), true, false, false, false);
        fill_range(&mut styles, first_non_space, first_non_space + 1, bullet);
        // Checkbox: "- [ ] " / "- [X] " / "- [-] "
        if n - first_non_space > 4 {
            let cb_start = first_non_space + 2;
            if chars[cb_start] == '[' && chars[cb_start + 2] == ']' {
                let state_char = chars[cb_start + 1];
                let cb_style = if state_char == 'X' || state_char == 'x' {
                    make(Some(Color::Green), true, false, false, false)
                } else if state_char == '-' {
                    make(Some(Color::Yellow), false, false, false, false)
                } else {
                    make(Some(Color::DarkGray), false, false, false, false)
                };
                fill_range(&mut styles, cb_start, cb_start + 3, cb_style);
            }
        }
    }
    styles
}

// ── Laws ──────────────────────────────────────────────────────────────────────

proof fn lemma_strike_len(s: Seq<char>, i: int, st: Seq<Style>)
    ensures
        strike_from(s, i, st).len() == st.len(),
    decreases s.len() - i,
{
    let n = s.len() as int;
    if !(i < 0 || i >= n) {
        if s[i] == '+' && (i == 0 || !char_is_alphanumeric(s[i - 1])) && markup_close(s, i, n) < n {
            let j = markup_close(s, i, n);
            lemma_close_scan(s, '+', i + 2, n);
            lemma_strike_len(s, j + 1, fill(st, i, j + 1, struck()));
        } else {
            lemma_strike_len(s, i + 1, st);
        }
    }
}

proof fn lemma_link_styles_len(s: Seq<char>, i: int, st: Seq<Style>)
    ensures
        link_styles_from(s, i, st).len() == st.len(),
    decreases s.len() - i,
{
    let n = s.len() as int;
    if !(i < 0 || i + 1 >= n) {
        if s[i] != '[' || s[i + 1] != '[' {
            lemma_link_styles_len(s, i + 1, st);
        } else {
            let url_start = i + 2;
            lemma_find_from(s, url_start, CharClass::CloseBracket);
            let url_end = find_from(s, url_start, CharClass::CloseBracket);
            let j = url_end + 1;
            if !(url_end >= n || j >= n) {
                if s[j] == ']' {
                    let st1 = fill(fill(fill(st, i, i + 2, dim()), url_start, url_end, link_text()), url_end, j + 1, dim());
                    lemma_link_styles_len(s, j + 1, st1);
                } else if s[j] == '[' {
                    let desc_start = j + 1;
                    lemma_find_from(s, desc_start, CharClass::CloseBracket);
                    let desc_end = find_from(s, desc_start, CharClass::CloseBracket);
                    let k = desc_end + 1;
                    if desc_end < n {
                        if k >= n || s[k] != ']' {
                            lemma_link_styles_len(s, k, st);
                        } else {
                            let st1 = fill(fill(fill(st, i, j + 1, dim()), desc_start, desc_end, link_text()), desc_end, k + 1, dim());
                            lemma_link_styles_len(s, k + 1, st1);
                        }
                    }
                } else {
                    lemma_link_styles_len(s, j, st);
                }
            }
        }
    }
}

/// A line gets exactly one style per character.
pub proof fn law_one_style_per_char(s: Seq<char>)
    ensures
        spec_org_styles(s).len() == s.len(),
{
    let n = s.len() as int;
    let base = Seq::new(n as nat, |k: int| plain());
    lemma_link_styles_len(s, 0, base);
    lemma_strike_len(s, 0, link_styles_from(s, 0, base));
}

/// On a heading line, a TODO keyword that follows the stars and their space,
/// and is itself followed by a space or the end of the line, is drawn in its
/// own colour: TODO light red and bold; NEXT and DOING light yellow and bold;
/// WAITING and HOLD light magenta; DONE green; CANCELLED dark gray.
#[verifier::spinoff_prover]
pub proof fn law_keyword_colours(n: nat, kw: Seq<char>, rest: Seq<char>)
    requires
        n >= 1,
        rest.len() == 0 || rest[0] == ' ',
        kw == "TODO"@ || kw == "NEXT"@ || kw == "DOING"@ || kw == "WAITING"@ || kw == "HOLD"@
            || kw == "DONE"@ || kw == "CANCELLED"@,
    ensures
        ({
            let s = Seq::new(n, |i: int| '*') + seq![' '] + kw + rest;
            let want = if kw == "TODO"@ {
                Style { fg: Some(Color::LightRed), bold: true, italic: false, underlined: false, crossed_out: false }
            } else if kw == "NEXT"@ || kw == "DOING"@ {
                Style { fg: Some(Color::LightYellow), bold: true, italic: false, underlined: false, crossed_out: false }
            } else if kw == "WAITING"@ || kw == "HOLD"@ {
                Style { fg: Some(Color::LightMagenta), bold: false, italic: false, underlined: false, crossed_out: false }
            } else if kw == "DONE"@ {
                Style { fg: Some(Color::Green), bold: false, italic: false, underlined: false, crossed_out: false }
            } else {
                Style { fg: Some(Color::DarkGray), bold: false, italic: false, underlined: false, crossed_out: false }
            };
            forall|j: int| n + 1 <= j < n + 1 + kw.len() ==> #[trigger] spec_org_styles(s)[j] == want
        }),
{
    reveal_strlit("TODO");
    reveal_strlit("NEXT");
    reveal_strlit("DOING");
    reveal_strlit("WAITING");
    reveal_strlit("HOLD");
    reveal_strlit("DONE");
    reveal_strlit("CANCELLED");
    let s = Seq::new(n, |i: int| '*') + seq![' '] + kw + rest;
    let len = s.len() as int;
    let pos: int = n as int + 1;
    let e: int = pos + kw.len();
    assert forall|t: int| 0 <= t < kw.len() implies s[pos + t] == kw[t] by {}
    assert(s.subrange(pos, e) =~= kw);
    assert(e == len || s[e] == ' ');
    // The stars.
    lemma_span_while(s, 0, CharClass::Star);
    let stars = span_while(s, 0, CharClass::Star);
    assert(s[n as int] == ' ');
    if stars < n {
        assert(s[stars] == '*');
    }
    if stars > n {
        assert(in_class(s[n as int], CharClass::Star));
    }
    assert(stars == n);
    // Which keyword stands there.
    let idx: int = if kw == "TODO"@ {
        0
    } else if kw == "NEXT"@ {
        1
    } else if kw == "DOING"@ {
        2
    } else if kw == "WAITING"@ {
        3
    } else if kw == "HOLD"@ {
        4
    } else if kw == "DONE"@ {
        5
    } else {
        6
    };
    assert(hl_keyword(idx) == kw);
    assert forall|k: int| 0 <= k < idx implies !(pos + hl_keyword(k).len() <= len && s.subrange(
        pos,
        pos + hl_keyword(k).len(),
    ) == hl_keyword(k)) by {
        if pos + hl_keyword(k).len() <= len && s.subrange(pos, pos + hl_keyword(k).len())
            == hl_keyword(k) {
            assert(s.subrange(pos, pos + hl_keyword(k).len())[0] == s[pos]);
            assert(s.subrange(pos, pos + hl_keyword(k).len())[2] == s[pos + 2]);
            assert(s[pos] == kw[0]);
            assert(s[pos + 2] == kw[2]);
        }
    }
    reveal_with_fuel(keyword_at, 8);
    assert(keyword_at(s, pos, 0) == Some(idx));
    let title = fg_bold(spec_heading_color(n as int));
    let base = Seq::new(len as nat, |k: int| plain());
    let st0 = fill(base, 0, n as int, dim());
    let st1 = fill(st0, n as int, n as int + 1, title);
    let (st2, p2) = after_keyword(s, st1, pos, title);
    assert(p2 >= e && p2 <= len);
    assert forall|j: int| pos <= j < e implies st2[j] == hl_keyword_style(idx) by {}
    let (st3, p3) = after_priority(s, st2, p2, title);
    assert(p3 >= p2 && p3 <= len);
    assert forall|j: int| pos <= j < e implies st3[j] == st2[j] by {}
    lemma_find_tags_bounds(s, p3);
    let tag = spec_find_tags(s, p3);
    assert(spec_org_styles(s) == fill(fill(st3, p3, if tag < len { tag } else { len }, title), tag, len, dim()));
}

/// A heading's stars are dim, and the rest of the line (with no TODO
/// keyword, priority or tags) is bold in the colour of its level: light blue
/// at level 1, light green at 2, light yellow at 3, light magenta at 4, light
/// cyan deeper. Here the title starts with none of `T`, `N`, `D`, `W`, `H`,
/// `C` or `[`, and does not end in `:`.
#[verifier::spinoff_prover]
pub proof fn law_heading_colours(n: nat, title: Seq<char>)
    requires
        n >= 1,
        title.len() > 0,
        title[0] != 'T' && title[0] != 'N' && title[0] != 'D' && title[0] != 'W' && title[0]
            != 'H' && title[0] != 'C' && title[0] != '[',
        title.last() != ':',
    ensures
        ({
            let s = Seq::new(n, |i: int| '*') + seq![' '] + title;
            let colour = if n == 1 {
                Color::LightBlue
            } else if n == 2 {
                Color::LightGreen
            } else if n == 3 {
                Color::LightYellow
            } else if n == 4 {
                Color::LightMagenta
            } else {
                Color::LightCyan
            };
            &&& forall|j: int| 0 <= j < n ==> #[trigger] spec_org_styles(s)[j] == (Style {
                fg: Some(Color::DarkGray),
                bold: false,
                italic: false,
                underlined: false,
                crossed_out: false,
            })
            &&& forall|j: int| n <= j < s.len() ==> #[trigger] spec_org_styles(s)[j] == (Style {
                fg: Some(colour),
                bold: true,
                italic: false,
                underlined: false,
                crossed_out: false,
            })
        }),
{
    reveal_strlit("TODO");
    reveal_strlit("NEXT");
    reveal_strlit("DOING");
    reveal_strlit("WAITING");
    reveal_strlit("HOLD");
    reveal_strlit("DONE");
    reveal_strlit("CANCELLED");
    let s = Seq::new(n, |i: int| '*') + seq![' '] + title;
    let len = s.len() as int;
    let pos: int = n as int + 1;
    assert(s[pos] == title[0]);
    assert(s.last() == title.last());
    lemma_span_while(s, 0, CharClass::Star);
    let stars = span_while(s, 0, CharClass::Star);
    assert(s[n as int] == ' ');
    if stars < n {
        assert(s[stars] == '*');
    }
    if stars > n {
        assert(in_class(s[n as int], CharClass::Star));
    }
    assert(stars == n);
    assert forall|k: int| 0 <= k < 7 implies !(pos + hl_keyword(k).len() <= len && s.subrange(
        pos,
        pos + hl_keyword(k).len(),
    ) == hl_keyword(k)) by {
        if pos + hl_keyword(k).len() <= len && s.subrange(pos, pos + hl_keyword(k).len())
            == hl_keyword(k) {
            assert(s.subrange(pos, pos + hl_keyword(k).len())[0] == s[pos]);
        }
    }
    reveal_with_fuel(keyword_at, 8);
    assert(keyword_at(s, pos, 0) is None);
    assert(spec_find_tags(s, pos) == len);
}

} // verus!
