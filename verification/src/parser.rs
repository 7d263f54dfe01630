//! Building the document tree from the lines of an org-mode file.
use vstd::prelude::*;
use vstd::utf8::encode_utf8;
use crate::document::{
    strings_view, blocks_view, inlines_view, lemma_section_view, sections_view, Block, BlockV, CheckboxState,
    Document, DocumentV, Headline, HeadlineV, Inline, InlineV, Keyword, KeywordV, List, ListItem,
    ListItemV, Property, Section, SectionV, SrcBlock,
};
use crate::inline::{parse_inline, spec_parse_inline};
use crate::lexer::{lemma_encode_utf8_concat, spec_tokenize, tokenize_chars, LineToken, LineTokenV};
use crate::serializer::join;
use crate::text::{
    all_in_class, back_while, back_while_exec, chars_of, find_from, find_from_exec,
    has_prefix, has_prefix_ascii_ci_at, has_prefix_at, in_class, is_whitespace, lemma_back_while,
    lemma_find_from, lemma_find_from_skip, lemma_span_while, push_char, push_range, span_while,
    span_while_exec, spec_is_ascii_whitespace, spec_is_whitespace, string_of_range, sub_vec, trim,
    trim_bounds,
    trim_end, trim_start, all_in_class_exec, is_ascii_whitespace, CharClass,
};

verus! {

// ── Lines ─────────────────────────────────────────────────────────────────────

/// Drop one trailing carriage return.
pub open spec fn strip_cr(l: Seq<char>) -> Seq<char> {
    if l.len() > 0 && l.last() == '\r' {
        l.drop_last()
    } else {
        l
    }
}

/// `str::lines`: split at `\n`, dropping a `\r` just before each `\n`; a
/// final line without `\n` is kept as it is, and an empty final piece is
/// not a line.
pub open spec fn spec_lines(s: Seq<char>) -> Seq<Seq<char>>
    decreases s.len(),
{
    if s.len() == 0 {
        seq![]
    } else {
        let j = find_from(s, 0, CharClass::Newline);
        if j >= s.len() {
            seq![s]
        } else {
            proof {
                lemma_find_from(s, 0, CharClass::Newline);
            }
            seq![strip_cr(s.take(j))] + spec_lines(s.skip(j + 1))
        }
    }
}

/// Every line fits the machine: its UTF-8 length is at most `usize::MAX`.
pub open spec fn lines_fit(ls: Seq<Seq<char>>) -> bool {
    forall|i: int| 0 <= i < ls.len() ==> encode_utf8(#[trigger] ls[i]).len() <= usize::MAX
}

pub open spec fn lines_of(v: Seq<Vec<char>>) -> Seq<Seq<char>> {
    Seq::new(v.len(), |i: int| v[i]@)
}

// ── Tokens ────────────────────────────────────────────────────────────────────

pub open spec fn tok(ls: Seq<Seq<char>>, p: int) -> Option<LineTokenV> {
    if 0 <= p < ls.len() {
        Some(spec_tokenize(ls[p]))
    } else {
        None
    }
}

pub open spec fn lit_src() -> Seq<char> {
    seq!['S', 'R', 'C']
}

pub open spec fn lit_properties_lower() -> Seq<char> {
    seq!['p', 'r', 'o', 'p', 'e', 'r', 't', 'i', 'e', 's']
}

/// The first line at or after `p` that is not a list item.
pub open spec fn list_run_end(ls: Seq<Seq<char>>, p: int) -> int
    decreases ls.len() - p,
{
    if 0 <= p < ls.len() && spec_tokenize(ls[p]) is ListItem {
        list_run_end(ls, p + 1)
    } else {
        p
    }
}

/// The first line at or after `p` that is not plain text.
pub open spec fn text_run_end(ls: Seq<Seq<char>>, p: int) -> int
    decreases ls.len() - p,
{
    if 0 <= p < ls.len() && spec_tokenize(ls[p]) is Text {
        text_run_end(ls, p + 1)
    } else {
        p
    }
}

/// The first line at or after `p` that is any `#+end_…` line (or the end).
pub open spec fn any_end_line(ls: Seq<Seq<char>>, p: int) -> int
    decreases ls.len() - p,
{
    if 0 <= p < ls.len() && !(spec_tokenize(ls[p]) is EndBlock) {
        any_end_line(ls, p + 1)
    } else {
        p
    }
}

/// The first line at or after `p` that is `#+end_KIND` (or the end).
pub open spec fn kind_end_line(ls: Seq<Seq<char>>, p: int, kind: Seq<char>) -> int
    decreases ls.len() - p,
{
    if 0 <= p < ls.len() && spec_tokenize(ls[p]) != LineTokenV::EndBlock(kind) {
        kind_end_line(ls, p + 1, kind)
    } else {
        p
    }
}

/// The first line at or after `p` that is `:END:` (or the end).
pub open spec fn drawer_end_line(ls: Seq<Seq<char>>, p: int) -> int
    decreases ls.len() - p,
{
    if 0 <= p < ls.len() && spec_tokenize(ls[p]) != LineTokenV::DrawerEnd {
        drawer_end_line(ls, p + 1)
    } else {
        p
    }
}

/// The line after a closing line found at `q`, or the end when there was none.
pub open spec fn after_close(ls: Seq<Seq<char>>, q: int) -> int {
    if q < ls.len() {
        q + 1
    } else {
        ls.len() as int
    }
}

// ── Headlines ─────────────────────────────────────────────────────────────────

pub open spec fn todo_keyword_at(i: int) -> Seq<char> {
    if i == 0 {
        seq!['T', 'O', 'D', 'O']
    } else if i == 1 {
        seq!['D', 'O', 'N', 'E']
    } else if i == 2 {
        seq!['D', 'O', 'I', 'N', 'G']
    } else if i == 3 {
        seq!['N', 'E', 'X', 'T']
    } else if i == 4 {
        seq!['W', 'A', 'I', 'T', 'I', 'N', 'G']
    } else if i == 5 {
        seq!['H', 'O', 'L', 'D']
    } else {
        seq!['C', 'A', 'N', 'C', 'E', 'L', 'L', 'E', 'D']
    }
}

/// The number of known TODO keywords.
pub open spec fn num_todo_keywords() -> int {
    7
}

/// The first known keyword from index `i` on that begins `s` as a whole word.
pub open spec fn todo_from(s: Seq<char>, i: int) -> Option<(Seq<char>, Seq<char>)>
    decreases num_todo_keywords() - i,
{
    if i < 0 || i >= num_todo_keywords() {
        None
    } else {
        let kw = todo_keyword_at(i);
        if has_prefix(s, kw) && (s.len() == kw.len() || s[kw.len() as int] == ' ') {
            Some((kw, s.skip(kw.len() as int)))
        } else {
            todo_from(s, i + 1)
        }
    }
}

/// A leading TODO keyword and what follows it.
pub open spec fn spec_todo(s: Seq<char>) -> (Option<Seq<char>>, Seq<char>) {
    match todo_from(s, 0) {
        Some((kw, rest)) => (Some(kw), rest),
        None => (None, s),
    }
}

/// A leading `[#P]` (with `P` an ASCII character) and what follows it.
pub open spec fn spec_priority(s: Seq<char>) -> (Option<char>, Seq<char>) {
    if s.len() >= 4 && s[0] == '[' && s[1] == '#' && (s[2] as u32) < 128 && s[3] == ']' {
        (Some(s[2]), s.skip(4))
    } else {
        (None, s)
    }
}

/// Walk the trailing `:a:b:` group leftwards from the `:` at `pos`, collecting
/// the tags right to left; the index of the group's opening `:` when a
/// whitespace character precedes it.
pub open spec fn tag_walk(s: Seq<char>, pos: int, segs: Seq<Seq<char>>) -> Option<(int, Seq<Seq<char>>)>
    decreases pos,
{
    if !(0 <= pos < s.len()) {
        None
    } else {
        let seg_start = back_while(s, pos, CharClass::NotColon);
        let tag = s.subrange(seg_start, pos);
        if tag.len() == 0 || !all_in_class(tag, CharClass::TagChar) {
            None
        } else if seg_start <= 1 {
            None
        } else {
            let oc = seg_start - 1;
            let segs2 = segs.push(tag);
            if spec_is_ascii_whitespace(s[oc - 1]) {
                Some((oc, segs2))
            } else if s[oc - 1] == ':' {
                None
            } else {
                proof {
                    lemma_back_while(s, pos, CharClass::NotColon);
                }
                tag_walk(s, oc, segs2)
            }
        }
    }
}

/// The title part and the tags of a headline's text.
pub open spec fn spec_extract_tags(s: Seq<char>) -> (Seq<char>, Seq<Seq<char>>) {
    if s.len() == 0 || s.last() != ':' {
        (s, seq![])
    } else {
        match tag_walk(s, s.len() - 1, seq![]) {
            Some((oc, segs)) => (trim_end(s.take(oc)), segs.reverse()),
            None => (s, seq![]),
        }
    }
}

/// A headline from its level and the text after the stars.
pub open spec fn spec_headline(level: u8, rest: Seq<char>) -> HeadlineV {
    let (title_and_tags, tags) = spec_extract_tags(trim(rest));
    let s1 = trim(title_and_tags);
    let (todo_keyword, s2) = spec_todo(s1);
    let s3 = trim_start(s2);
    let (priority, s4) = spec_priority(s3);
    let s5 = trim_start(s4);
    HeadlineV { level, todo_keyword, priority, title: spec_parse_inline(s5), tags }
}

// ── Blocks ────────────────────────────────────────────────────────────────────

/// A leading checkbox and the rest of a list item's text.
pub open spec fn spec_checkbox(rest: Seq<char>) -> (Option<CheckboxState>, Seq<char>) {
    if has_prefix(rest, seq!['[', 'X', ']', ' ']) || has_prefix(rest, seq!['[', 'x', ']', ' ']) {
        (Some(CheckboxState::Checked), rest.skip(4))
    } else if has_prefix(rest, seq!['[', ' ', ']', ' ']) {
        (Some(CheckboxState::Unchecked), rest.skip(4))
    } else if has_prefix(rest, seq!['[', '-', ']', ' ']) {
        (Some(CheckboxState::Partial), rest.skip(4))
    } else {
        (None, rest)
    }
}

pub open spec fn list_item_of(l: Seq<char>) -> ListItemV {
    match spec_tokenize(l) {
        LineTokenV::ListItem { bullet, rest, .. } => {
            let (checkbox, text) = spec_checkbox(rest);
            ListItemV { bullet, checkbox, content: spec_parse_inline(text) }
        },
        _ => ListItemV { bullet: seq![], checkbox: None, content: seq![] },
    }
}

/// The first whitespace-separated word of `s`.
pub open spec fn first_word(s: Seq<char>) -> Option<Seq<char>> {
    let a = span_while(s, 0, CharClass::Whitespace);
    if a >= s.len() {
        None
    } else {
        Some(s.subrange(a, find_from(s, a, CharClass::Whitespace)))
    }
}

/// What a drawer keeps of one of its lines when it is not a property drawer.
pub open spec fn raw_drawer_line(l: Seq<char>) -> Seq<char> {
    match spec_tokenize(l) {
        LineTokenV::DrawerProperty { key, value } => seq![':'] + key + seq![':', ' '] + value,
        _ => l,
    }
}

pub proof fn lemma_drawer_end_bounds(ls: Seq<Seq<char>>, p: int)
    requires
        0 <= p <= ls.len(),
    ensures
        p <= drawer_end_line(ls, p) <= ls.len(),
        drawer_end_line(ls, p) < ls.len() ==> spec_tokenize(ls[drawer_end_line(ls, p)])
            == LineTokenV::DrawerEnd,
    decreases ls.len() - p,
{
    if p < ls.len() && spec_tokenize(ls[p]) != LineTokenV::DrawerEnd {
        lemma_drawer_end_bounds(ls, p + 1);
    }
}

/// The properties among lines `a..b`.
pub open spec fn drawer_props(ls: Seq<Seq<char>>, a: int, b: int) -> Seq<KeywordV>
    decreases b - a,
{
    if a >= b || a < 0 || b > ls.len() {
        seq![]
    } else {
        (match spec_tokenize(ls[a]) {
            LineTokenV::DrawerProperty { key, value } => seq![KeywordV { key, value }],
            _ => seq![],
        }) + drawer_props(ls, a + 1, b)
    }
}

/// The block that starts at line `p` and the line after it; `None` when the
/// parser would make no progress there (a `#+KEY:` line inside a section, or
/// a stray `#+end_…`, `:END:` or `:KEY: VALUE` line), on which it does not
/// terminate.
pub open spec fn spec_block(ls: Seq<Seq<char>>, p: int) -> Option<(BlockV, int)> {
    if !(0 <= p < ls.len()) {
        None
    } else {
        match spec_tokenize(ls[p]) {
            LineTokenV::Blank => Some((BlockV::BlankLine, p + 1)),
            LineTokenV::HorizontalRule => Some((BlockV::HorizontalRule, p + 1)),
            LineTokenV::BeginBlock { kind, params } => {
                if kind == lit_src() {
                    let q = any_end_line(ls, p + 1);
                    Some(
                        (
                            BlockV::SrcBlock {
                                language: first_word(params),
                                body: join(ls.subrange(p + 1, q), seq!['\n']),
                            },
                            after_close(ls, q),
                        ),
                    )
                } else {
                    Some((BlockV::BlankLine, after_close(ls, kind_end_line(ls, p + 1, kind))))
                }
            },
            LineTokenV::DrawerBegin(name) => {
                let q = drawer_end_line(ls, p + 1);
                if crate::text::eq_ascii_ci(name, lit_properties_lower()) {
                    Some((BlockV::PropertyDrawer(drawer_props(ls, p + 1, q)), after_close(ls, q)))
                } else {
                    Some(
                        (
                            BlockV::Drawer {
                                name,
                                lines: Seq::new(
                                    (q - (p + 1)) as nat,
                                    |i: int| raw_drawer_line(ls[p + 1 + i]),
                                ),
                            },
                            after_close(ls, q),
                        ),
                    )
                }
            },
            LineTokenV::ListItem { .. } => {
                let q = list_run_end(ls, p);
                Some(
                    (
                        BlockV::List(Seq::new((q - p) as nat, |i: int| list_item_of(ls[p + i]))),
                        q,
                    ),
                )
            },
            _ => {
                let q = text_run_end(ls, p);
                if q == p {
                    None
                } else {
                    Some(
                        (
                            BlockV::Paragraph(
                                Seq::new((q - p) as nat, |i: int| spec_parse_inline(ls[p + i])),
                            ),
                            q,
                        ),
                    )
                }
            },
        }
    }
}

// ── Sections and the document ─────────────────────────────────────────────────

/// The section whose headline (at level `level`) is line `p`, and the line
/// after it; `None` when parsing it does not terminate.
pub open spec fn spec_section(ls: Seq<Seq<char>>, p: int, level: u8) -> Option<(SectionV, int)>
    decreases ls.len() - p, 1int,
{
    if !(0 <= p < ls.len()) {
        None
    } else {
        match spec_tokenize(ls[p]) {
            LineTokenV::Headline { level: l, rest } => {
                if l != level {
                    None
                } else {
                    match section_body(ls, p + 1, level) {
                        Some((content, children, q)) => Some(
                            (
                                SectionV {
                                    headline: Some(spec_headline(level, rest)),
                                    content,
                                    children,
                                },
                                q,
                            ),
                        ),
                        None => None,
                    }
                }
            },
            _ => None,
        }
    }
}

/// The blocks and child sections of a section at level `level`, from line
/// `p` up to the next headline at that level or above; positions only move
/// forward.
pub open spec fn section_body(ls: Seq<Seq<char>>, p: int, level: u8) -> Option<
    (Seq<BlockV>, Seq<SectionV>, int),
>
    decreases ls.len() - p, 2int,
{
    if !(0 <= p < ls.len()) {
        Some((seq![], seq![], p))
    } else {
        match spec_tokenize(ls[p]) {
            LineTokenV::Headline { level: l, .. } => {
                if l <= level {
                    Some((seq![], seq![], p))
                } else {
                    match spec_section(ls, p, l) {
                        Some((child, p2)) => {
                            if p < p2 <= ls.len() {
                                match section_body(ls, p2, level) {
                                    Some((c, ch, q)) => Some((c, seq![child] + ch, q)),
                                    None => None,
                                }
                            } else {
                                None
                            }
                        },
                        None => None,
                    }
                }
            },
            _ => match spec_block(ls, p) {
                Some((b, p2)) => {
                    if p < p2 <= ls.len() {
                        match section_body(ls, p2, level) {
                            Some((c, ch, q)) => Some((seq![b] + c, ch, q)),
                            None => None,
                        }
                    } else {
                        None
                    }
                },
                None => None,
            },
        }
    }
}

/// The file-level keywords and the blocks before the first headline.
pub open spec fn preamble(ls: Seq<Seq<char>>, p: int) -> Option<
    (Seq<KeywordV>, Seq<BlockV>, int),
>
    decreases ls.len() - p,
{
    if !(0 <= p < ls.len()) {
        Some((seq![], seq![], p))
    } else {
        match spec_tokenize(ls[p]) {
            LineTokenV::Headline { .. } => Some((seq![], seq![], p)),
            LineTokenV::Keyword { key, value } => match preamble(ls, p + 1) {
                Some((k, b, q)) => Some((seq![KeywordV { key, value }] + k, b, q)),
                None => None,
            },
            _ => match spec_block(ls, p) {
                Some((blk, p2)) => {
                    if p < p2 <= ls.len() {
                        match preamble(ls, p2) {
                            Some((k, b, q)) => Some((k, seq![blk] + b, q)),
                            None => None,
                        }
                    } else {
                        None
                    }
                },
                None => None,
            },
        }
    }
}

/// The top-level sections from line `p` on.
pub open spec fn top_sections(ls: Seq<Seq<char>>, p: int) -> Option<Seq<SectionV>>
    decreases ls.len() - p,
{
    if !(0 <= p < ls.len()) {
        Some(seq![])
    } else {
        match spec_tokenize(ls[p]) {
            LineTokenV::Headline { level, .. } => match spec_section(ls, p, level) {
                Some((sec, p2)) => {
                    if p < p2 <= ls.len() {
                        match top_sections(ls, p2) {
                            Some(rest) => Some(seq![sec] + rest),
                            None => None,
                        }
                    } else {
                        None
                    }
                },
                None => None,
            },
            _ => top_sections(ls, p + 1),
        }
    }
}

/// The document of the given lines; `None` when the parser does not terminate.
pub open spec fn spec_parse_lines(ls: Seq<Seq<char>>) -> Option<DocumentV> {
    match preamble(ls, 0) {
        Some((keywords, pre, p)) => match top_sections(ls, p) {
            Some(secs) => Some(
                DocumentV {
                    keywords,
                    sections: (if pre.len() > 0 {
                        seq![SectionV { headline: None, content: pre, children: seq![] }]
                    } else {
                        seq![]
                    }) + secs,
                },
            ),
            None => None,
        },
        None => None,
    }
}

/// The document of an org-mode text; `None` when the parser does not
/// terminate on it.
pub open spec fn spec_parse(input: Seq<char>) -> Option<DocumentV> {
    spec_parse_lines(spec_lines(input))
}

// ── Nesting of sections ───────────────────────────────────────────────────────

/// `s` has a headline, and each of its children has a deeper headline and is
/// nested in the same way, all the way down.
pub open spec fn nested(s: SectionV) -> bool
    decreases s,
{
    &&& s.headline is Some
    &&& forall|i: int|
        0 <= i < s.children.len() ==> {
            &&& (#[trigger] s.children[i]).headline is Some
            &&& s.children[i].headline->0.level > s.headline->0.level
            &&& nested(s.children[i])
        }
}

proof fn lemma_section_nested(ls: Seq<Seq<char>>, p: int, level: u8)
    requires
        spec_section(ls, p, level) is Some,
    ensures
        (spec_section(ls, p, level)->0).0.headline is Some,
        (spec_section(ls, p, level)->0).0.headline->0.level == level,
        nested((spec_section(ls, p, level)->0).0),
    decreases ls.len() - p, 1int,
{
    lemma_body_nested(ls, p + 1, level);
}

proof fn lemma_body_nested(ls: Seq<Seq<char>>, p: int, level: u8)
    requires
        section_body(ls, p, level) is Some,
    ensures
        forall|i: int|
            0 <= i < (section_body(ls, p, level)->0).1.len() ==> {
                let c = #[trigger] (section_body(ls, p, level)->0).1[i];
                &&& c.headline is Some
                &&& c.headline->0.level > level
                &&& nested(c)
            },
    decreases ls.len() - p, 2int,
{
    if 0 <= p < ls.len() {
        match spec_tokenize(ls[p]) {
            LineTokenV::Headline { level: l, .. } => {
                if l > level {
                    lemma_section_nested(ls, p, l);
                    let (child, p2) = spec_section(ls, p, l)->0;
                    if p < p2 <= ls.len() {
                        lemma_body_nested(ls, p2, level);
                        let (c, ch, q) = section_body(ls, p2, level)->0;
                        assert forall|i: int| 0 <= i < (seq![child] + ch).len() implies {
                            let x = #[trigger] (seq![child] + ch)[i];
                            &&& x.headline is Some
                            &&& x.headline->0.level > level
                            &&& nested(x)
                        } by {
                            if i > 0 {
                                assert((seq![child] + ch)[i] == ch[i - 1]);
                            }
                        }
                    }
                }
            },
            _ => {
                match spec_block(ls, p) {
                    Some((b, p2)) => {
                        if p < p2 <= ls.len() {
                            lemma_body_nested(ls, p2, level);
                        }
                    },
                    None => {},
                }
            },
        }
    }
}

proof fn lemma_top_nested(ls: Seq<Seq<char>>, p: int)
    requires
        top_sections(ls, p) is Some,
    ensures
        forall|i: int| 0 <= i < (top_sections(ls, p)->0).len() ==> nested(
            #[trigger] (top_sections(ls, p)->0)[i],
        ),
    decreases ls.len() - p,
{
    if 0 <= p < ls.len() {
        match spec_tokenize(ls[p]) {
            LineTokenV::Headline { level, .. } => {
                lemma_section_nested(ls, p, level);
                let (sec, p2) = spec_section(ls, p, level)->0;
                lemma_top_nested(ls, p2);
                let rest = top_sections(ls, p2)->0;
                assert forall|i: int| 0 <= i < (seq![sec] + rest).len() implies nested(
                    #[trigger] (seq![sec] + rest)[i],
                ) by {
                    if i > 0 {
                        assert((seq![sec] + rest)[i] == rest[i - 1]);
                    }
                }
            },
            _ => {
                lemma_top_nested(ls, p + 1);
            },
        }
    }
}

/// Headlines nest: only a first section, the one before any headline, is
/// without a headline, and it has no children; in every other section each
/// child's headline is deeper than its parent's, all the way down.
pub proof fn law_sections_nested(input: Seq<char>)
    requires
        spec_parse(input) is Some,
    ensures
        ({
            let doc = spec_parse(input)->0;
            forall|i: int|
                0 <= i < doc.sections.len() ==> if (#[trigger] doc.sections[i]).headline is None {
                    i == 0 && doc.sections[i].children.len() == 0
                } else {
                    nested(doc.sections[i])
                }
        }),
{
    let ls = spec_lines(input);
    let (keywords, pre, p) = preamble(ls, 0)->0;
    lemma_top_nested(ls, p);
    let secs = top_sections(ls, p)->0;
    let first: Seq<SectionV> = if pre.len() > 0 {
        seq![SectionV { headline: None, content: pre, children: seq![] }]
    } else {
        seq![]
    };
    let all = first + secs;
    assert forall|i: int| 0 <= i < all.len() implies if (#[trigger] all[i]).headline is None {
        i == 0 && all[i].children.len() == 0
    } else {
        nested(all[i])
    } by {
        if i >= first.len() {
            assert(all[i] == secs[i - first.len()]);
            assert(nested(secs[i - first.len()]));
        }
    }
}

// ── TODO keywords ─────────────────────────────────────────────────────────────

/// Text that starts with no white space is its own `trim_start`.
proof fn lemma_trim_start_keeps(s: Seq<char>)
    requires
        s.len() == 0 || !spec_is_whitespace(s[0]),
    ensures
        trim_start(s) == s,
{
    lemma_span_while(s, 0, CharClass::Whitespace);
    if span_while(s, 0, CharClass::Whitespace) > 0 {
        assert(in_class(s[0], CharClass::Whitespace));
    }
    assert(s.skip(0) =~= s);
}

/// Text that starts and ends with no white space is its own `trim`.
proof fn lemma_trim_keeps(s: Seq<char>)
    requires
        s.len() > 0,
        !spec_is_whitespace(s[0]),
        !spec_is_whitespace(s.last()),
    ensures
        trim(s) == s,
{
    lemma_trim_start_keeps(s);
    assert(back_while(s, s.len() as int, CharClass::Whitespace) == s.len());
    assert(s.take(s.len() as int) =~= s);
}

/// A headline whose text is a known TODO keyword, a space and a title
/// carries that keyword, and its title is the rest without it: for each of
/// TODO, DONE, DOING, NEXT, WAITING, HOLD and CANCELLED, and any title that
/// starts and ends with no white space, starts with no `[` and does not end
/// in `:`.
#[verifier::spinoff_prover]
pub proof fn law_todo_keywords(level: u8, kw: Seq<char>, title: Seq<char>)
    requires
        kw == seq!['T', 'O', 'D', 'O'] || kw == seq!['D', 'O', 'N', 'E'] || kw == seq![
            'D',
            'O',
            'I',
            'N',
            'G',
        ] || kw == seq!['N', 'E', 'X', 'T'] || kw == seq!['W', 'A', 'I', 'T', 'I', 'N', 'G']
            || kw == seq!['H', 'O', 'L', 'D'] || kw == seq![
            'C',
            'A',
            'N',
            'C',
            'E',
            'L',
            'L',
            'E',
            'D',
        ],
        title.len() > 0,
        !spec_is_whitespace(title[0]),
        !spec_is_whitespace(title.last()),
        title[0] != '[',
        title.last() != ':',
    ensures
        spec_headline(level, kw + seq![' '] + title) == (HeadlineV {
            level,
            todo_keyword: Some(kw),
            priority: None,
            title: spec_parse_inline(title),
            tags: seq![],
        }),
{
    let rest = kw + seq![' '] + title;
    let k = kw.len() as int;
    assert(rest[0] == kw[0]);
    assert(rest.last() == title.last());
    lemma_trim_keeps(rest);
    assert(spec_extract_tags(rest) == (rest, Seq::<Seq<char>>::empty()));
    assert(rest.take(k) =~= kw);
    assert(rest[k] == ' ');
    let idx: int = if kw == todo_keyword_at(0) {
        0
    } else if kw == todo_keyword_at(1) {
        1
    } else if kw == todo_keyword_at(2) {
        2
    } else if kw == todo_keyword_at(3) {
        3
    } else if kw == todo_keyword_at(4) {
        4
    } else if kw == todo_keyword_at(5) {
        5
    } else {
        6
    };
    assert(todo_keyword_at(idx) == kw);
    assert forall|j: int| 0 <= j < idx implies !(has_prefix(rest, todo_keyword_at(j)) && (
    rest.len() == todo_keyword_at(j).len() || rest[todo_keyword_at(j).len() as int] == ' ')) by {
        let w = todo_keyword_at(j);
        if has_prefix(rest, w) {
            assert(rest.take(w.len() as int)[0] == rest[0]);
            assert(rest.take(w.len() as int)[2] == rest[2]);
            assert(rest[2] == kw[2]);
        }
    }
    reveal_with_fuel(todo_from, 8);
    assert(todo_from(rest, 0) == Some((kw, rest.skip(k))));
    assert(rest.skip(k) =~= seq![' '] + title);
    lemma_span_while(seq![' '] + title, 0, CharClass::Whitespace);
    let sw = span_while(seq![' '] + title, 0, CharClass::Whitespace);
    assert(spec_is_whitespace(' '));
    assert(in_class((seq![' '] + title)[0], CharClass::Whitespace));
    if sw > 1 {
        assert(in_class((seq![' '] + title)[1], CharClass::Whitespace));
        assert((seq![' '] + title)[1] == title[0]);
    }
    assert(sw == 1);
    assert(trim_start(seq![' '] + title) =~= title);
    assert(spec_priority(title) == (Option::<char>::None, title));
    lemma_trim_start_keeps(title);
}

/// A headline whose text is a priority cookie `[#P]` (`P` an ASCII
/// character), a space and a title carries priority `P` and no keyword, and
/// its title is the rest: for any title that starts and ends with no white
/// space and does not end in `:`.
#[verifier::spinoff_prover]
pub proof fn law_priority_cookie(level: u8, p: char, title: Seq<char>)
    requires
        (p as u32) < 128,
        title.len() > 0,
        !spec_is_whitespace(title[0]),
        !spec_is_whitespace(title.last()),
        title.last() != ':',
    ensures
        spec_headline(level, seq!['[', '#', p, ']', ' '] + title) == (HeadlineV {
            level,
            todo_keyword: None,
            priority: Some(p),
            title: spec_parse_inline(title),
            tags: seq![],
        }),
{
    let rest = seq!['[', '#', p, ']', ' '] + title;
    assert(rest[0] == '[');
    assert(rest.last() == title.last());
    assert(!spec_is_whitespace('['));
    lemma_trim_keeps(rest);
    assert(spec_extract_tags(rest) == (rest, Seq::<Seq<char>>::empty()));
    assert forall|j: int| 0 <= j < 7 implies !(has_prefix(rest, todo_keyword_at(j)) && (
    rest.len() == todo_keyword_at(j).len() || rest[todo_keyword_at(j).len() as int] == ' ')) by {
        let w = todo_keyword_at(j);
        if has_prefix(rest, w) {
            assert(rest.take(w.len() as int)[0] == rest[0]);
        }
    }
    reveal_with_fuel(todo_from, 8);
    assert(todo_from(rest, 0) is None);
    lemma_trim_start_keeps(rest);
    assert(rest.skip(4) =~= seq![' '] + title);
    lemma_span_while(seq![' '] + title, 0, CharClass::Whitespace);
    let sw = span_while(seq![' '] + title, 0, CharClass::Whitespace);
    assert(spec_is_whitespace(' '));
    assert(in_class((seq![' '] + title)[0], CharClass::Whitespace));
    if sw > 1 {
        assert(in_class((seq![' '] + title)[1], CharClass::Whitespace));
        assert((seq![' '] + title)[1] == title[0]);
    }
    assert(sw == 1);
    assert(trim_start(seq![' '] + title) =~= title);
}

/// Parsing a heading line `*…* K title` (any number of stars up to 255),
/// where `K` is a known TODO keyword, gives one section whose headline has
/// the stars' level, the keyword `K`, and the title without it.
#[verifier::spinoff_prover]
#[verifier::rlimit(40)]
pub proof fn law_todo_heading_parses(n: nat, kw: Seq<char>, title: Seq<char>)
    requires
        1 <= n <= 255,
        kw == seq!['T', 'O', 'D', 'O'] || kw == seq!['D', 'O', 'N', 'E'] || kw == seq![
            'D',
            'O',
            'I',
            'N',
            'G',
        ] || kw == seq!['N', 'E', 'X', 'T'] || kw == seq!['W', 'A', 'I', 'T', 'I', 'N', 'G']
            || kw == seq!['H', 'O', 'L', 'D'] || kw == seq![
            'C',
            'A',
            'N',
            'C',
            'E',
            'L',
            'L',
            'E',
            'D',
        ],
        title.len() > 0,
        !spec_is_whitespace(title[0]),
        !spec_is_whitespace(title.last()),
        title[0] != '[',
        title.last() != ':',
        forall|i: int| 0 <= i < title.len() ==> #[trigger] title[i] != '\n',
    ensures
        spec_parse(Seq::new(n, |i: int| '*') + seq![' '] + kw + seq![' '] + title + seq!['\n'])
            == Some(
            DocumentV {
                keywords: seq![],
                sections: seq![
                    SectionV {
                        headline: Some(
                            HeadlineV {
                                level: n as u8,
                                todo_keyword: Some(kw),
                                priority: None,
                                title: spec_parse_inline(title),
                                tags: seq![],
                            },
                        ),
                        content: seq![],
                        children: seq![],
                    },
                ],
            },
        ),
{
    let rest = kw + seq![' '] + title;
    let line = Seq::new(n, |i: int| '*') + seq![' '] + rest;
    assert(Seq::new(n, |i: int| '*') + seq![' '] + kw + seq![' '] + title + seq!['\n'] =~= line
        + seq!['\n']);
    assert forall|i: int| 0 <= i < line.len() implies #[trigger] line[i] != '\n' by {
        if i > n as int + kw.len() + 1 {
            assert(line[i] == title[i - n - kw.len() - 2]);
        }
    }
    assert(line.last() == title.last());
    lemma_one_line(line);
    assert(rest[0] == kw[0]);
    assert(rest.last() == title.last());
    lemma_headline_line(n, rest);
    law_todo_keywords(n as u8, kw, title);
    lemma_single_heading(line, n as u8, rest);
}

/// A text of one line without a line break, ended by `\n`, is that line.
proof fn lemma_one_line(line: Seq<char>)
    requires
        line.len() > 0,
        forall|i: int| 0 <= i < line.len() ==> #[trigger] line[i] != '\n',
        line.last() != '\r',
    ensures
        spec_lines(line + seq!['\n']) == seq![line],
{
    let input = line + seq!['\n'];
    let m = line.len() as int;
    assert forall|i: int| 0 <= i < m implies #[trigger] input[i] != '\n' by {
        assert(input[i] == line[i]);
    }
    lemma_find_from(input, 0, CharClass::Newline);
    let j = find_from(input, 0, CharClass::Newline);
    if j < m {
        assert(in_class(input[j], CharClass::Newline));
    }
    assert(input[m] == '\n');
    if j > m {
        assert(!in_class(input[m], CharClass::Newline));
    }
    assert(j == m);
    assert(input.take(m) =~= line);
    assert(strip_cr(line) == line);
    assert(input.skip(m + 1) =~= Seq::<char>::empty());
    assert(spec_lines(Seq::<char>::empty()) == Seq::<Seq<char>>::empty());
    assert(spec_lines(input) =~= seq![line]);
}

/// `n` stars (at most 255), a space and text that starts and ends with no
/// white space make a headline line of level `n`.
proof fn lemma_headline_line(n: nat, rest: Seq<char>)
    requires
        1 <= n <= 255,
        rest.len() > 0,
        !spec_is_whitespace(rest[0]),
        !spec_is_whitespace(rest.last()),
    ensures
        spec_tokenize(Seq::new(n, |i: int| '*') + seq![' '] + rest) == (LineTokenV::Headline {
            level: n as u8,
            rest,
        }),
{
    let line = Seq::new(n, |i: int| '*') + seq![' '] + rest;
    assert(line[0] == '*');
    assert(line.last() == rest.last());
    lemma_trim_keeps(line);
    lemma_span_while(line, 0, CharClass::Star);
    let stars = span_while(line, 0, CharClass::Star);
    assert(line[n as int] == ' ');
    if stars < n {
        assert(line[stars] == '*');
    }
    if stars > n {
        assert(in_class(line[n as int], CharClass::Star));
    }
    assert(stars == n);
    assert(line.skip(n as int + 1) =~= rest);
}

/// A text whose one line is a headline parses to one section with that
/// headline and nothing in it.
proof fn lemma_single_heading(line: Seq<char>, level: u8, rest: Seq<char>)
    requires
        spec_tokenize(line) == (LineTokenV::Headline { level, rest }),
    ensures
        spec_parse_lines(seq![line]) == Some(
            DocumentV {
                keywords: seq![],
                sections: seq![
                    SectionV {
                        headline: Some(spec_headline(level, rest)),
                        content: seq![],
                        children: seq![],
                    },
                ],
            },
        ),
{
    let ls = seq![line];
    assert(preamble(ls, 0) == Some((Seq::<KeywordV>::empty(), Seq::<BlockV>::empty(), 0int)));
    assert(section_body(ls, 1, level) == Some(
        (Seq::<BlockV>::empty(), Seq::<SectionV>::empty(), 1int),
    ));
    assert(top_sections(ls, 1) == Some(Seq::<SectionV>::empty()));
    let sec = SectionV { headline: Some(spec_headline(level, rest)), content: seq![], children: seq![] };
    assert(spec_section(ls, 0, level) == Some((sec, 1int)));
    assert(top_sections(ls, 0) =~= Some(seq![sec]));
    assert(Seq::<SectionV>::empty() + seq![sec] =~= seq![sec]);
}
} // verus!

verus! {

// ── Executable parser ─────────────────────────────────────────────────────────

/// Parse an org-mode string into a `Document`, or `None` on the inputs on
/// which the parser makes no progress (see `spec_block`) and so would not
/// return.
pub fn try_parse(input: &str) -> (r: Option<Document>)
    ensures
        match r {
            Some(d) => spec_parse(input@) == Some(d@),
            None => spec_parse(input@) is None,
        },
{
    let n = input.as_bytes().len();
    assert(encode_utf8(input@).len() == n);
    let chars = chars_of(input);
    let lines = split_lines(&chars);
    proof {
        lemma_lines_fit(input@);
    }
    let mut p = Parser { lines: &lines, pos: 0 };
    p.parse_document()
}

/// Parse an org-mode string into a `Document`.
///
/// The parser makes no progress, and so does not return, on a few inputs
/// (see `spec_block`); `requires` leaves them out, and `try_parse` tells
/// them apart.
pub fn parse(input: &str) -> (doc: Document)
    requires
        spec_parse(input@) is Some,
    ensures
        doc@ == spec_parse(input@)->0,
{
    match try_parse(input) {
        Some(d) => d,
        None => Document { keywords: Vec::new(), sections: Vec::new() },
    }
}

/// The lines of a text, as `str::lines` splits it.
fn split_lines(s: &Vec<char>) -> (r: Vec<Vec<char>>)
    ensures
        lines_of(r@) == spec_lines(s@),
{
    let n = s.len();
    let mut r: Vec<Vec<char>> = Vec::new();
    let mut pos: usize = 0;
    assert(s@.skip(0) == s@);
    while pos < n
        invariant
            pos <= n == s@.len(),
            spec_lines(s@) == lines_of(r@) + spec_lines(s@.skip(pos as int)),
        decreases n - pos,
    {
        let ghost rest = s@.skip(pos as int);
        let j = find_from_exec(s, pos, CharClass::Newline);
        proof {
            lemma_find_from(s@, pos as int, CharClass::Newline);
            lemma_find_from_skip(s@, pos as int, 0, CharClass::Newline);
        }
        if j >= n {
            let line = sub_vec(s, pos, n);
            assert(line@ == rest);
            r.push(line);
            assert(spec_lines(rest) == seq![rest]);
            assert(lines_of(r@) =~= lines_of(old_r(r@)) + seq![rest]) by {
                assert(lines_of(r@).drop_last() =~= lines_of(r@.drop_last()));
            }
            pos = n;
            assert(s@.skip(n as int) == Seq::<char>::empty());
        } else {
            let end = if j > pos && s[j - 1] == '\r' {
                j - 1
            } else {
                j
            };
            let line = sub_vec(s, pos, end);
            assert(line@ == strip_cr(rest.take(j - pos))) by {
                assert(rest.take(j - pos) == s@.subrange(pos as int, j as int));
            }
            let ghost r0 = r@;
            r.push(line);
            assert(lines_of(r@) =~= lines_of(r0) + seq![line@]);
            assert(rest.skip(j - pos + 1) == s@.skip(j + 1));
            pos = j + 1;
        }
    }
    assert(s@.skip(n as int) == Seq::<char>::empty());
    r
}

/// The lines of a text as strings, as `str::lines` splits it.
pub fn text_lines(s: &str) -> (r: Vec<String>)
    ensures
        strings_view(r@) == spec_lines(s@),
{
    let chars = chars_of(s);
    let ls = split_lines(&chars);
    let mut r: Vec<String> = Vec::new();
    let mut i: usize = 0;
    while i < ls.len()
        invariant
            i <= ls@.len(),
            lines_of(ls@) == spec_lines(s@),
            strings_view(r@) == lines_of(ls@).take(i as int),
        decreases ls@.len() - i,
    {
        let line = string_of_range(&ls[i], 0, ls[i].len());
        assert(ls@[i as int]@.subrange(0, ls@[i as int]@.len() as int) == ls@[i as int]@);
        let ghost r0 = r@;
        r.push(line);
        assert(strings_view(r@) =~= strings_view(r0).push(line@));
        assert(lines_of(ls@).take(i + 1) =~= lines_of(ls@).take(i as int).push(ls@[i as int]@));
        i += 1;
    }
    assert(lines_of(ls@).take(ls@.len() as int) =~= lines_of(ls@));
    r
}

proof fn lemma_list_run_bounds(ls: Seq<Seq<char>>, p: int)
    requires
        0 <= p <= ls.len(),
    ensures
        p <= list_run_end(ls, p) <= ls.len(),
    decreases ls.len() - p,
{
    if p < ls.len() && spec_tokenize(ls[p]) is ListItem {
        lemma_list_run_bounds(ls, p + 1);
    }
}

proof fn lemma_text_run_bounds(ls: Seq<Seq<char>>, p: int)
    requires
        0 <= p <= ls.len(),
    ensures
        p <= text_run_end(ls, p) <= ls.len(),
    decreases ls.len() - p,
{
    if p < ls.len() && spec_tokenize(ls[p]) is Text {
        lemma_text_run_bounds(ls, p + 1);
    }
}

proof fn lemma_any_end_bounds(ls: Seq<Seq<char>>, p: int)
    requires
        0 <= p <= ls.len(),
    ensures
        p <= any_end_line(ls, p) <= ls.len(),
    decreases ls.len() - p,
{
    if p < ls.len() && !(spec_tokenize(ls[p]) is EndBlock) {
        lemma_any_end_bounds(ls, p + 1);
    }
}

proof fn lemma_kind_end_bounds(ls: Seq<Seq<char>>, p: int, kind: Seq<char>)
    requires
        0 <= p <= ls.len(),
    ensures
        p <= kind_end_line(ls, p, kind) <= ls.len(),
    decreases ls.len() - p,
{
    if p < ls.len() && spec_tokenize(ls[p]) != LineTokenV::EndBlock(kind) {
        lemma_kind_end_bounds(ls, p + 1, kind);
    }
}

/// A block that parses ends after the line it starts on, within the text.
proof fn lemma_block_advances(ls: Seq<Seq<char>>, p: int)
    requires
        spec_block(ls, p) is Some,
    ensures
        p < (spec_block(ls, p)->0).1 <= ls.len(),
{
    match spec_tokenize(ls[p]) {
        LineTokenV::BeginBlock { kind, params } => {
            lemma_any_end_bounds(ls, p + 1);
            lemma_kind_end_bounds(ls, p + 1, kind);
        },
        LineTokenV::DrawerBegin(_) => {
            lemma_drawer_end_bounds(ls, p + 1);
        },
        LineTokenV::ListItem { .. } => {
            lemma_list_run_bounds(ls, p + 1);
        },
        _ => {
            lemma_text_run_bounds(ls, p);
        },
    }
}

pub open spec fn old_r(v: Seq<Vec<char>>) -> Seq<Vec<char>> {
    v.drop_last()
}

/// Each line of a text is a piece of it.
proof fn lemma_lines_pieces(s: Seq<char>)
    ensures
        forall|i: int|
            0 <= i < spec_lines(s).len() ==> exists|a: int, b: int|
                0 <= a <= b <= s.len() && #[trigger] spec_lines(s)[i] == s.subrange(a, b),
    decreases s.len(),
{
    if s.len() > 0 {
        let j = find_from(s, 0, CharClass::Newline);
        lemma_find_from(s, 0, CharClass::Newline);
        if j >= s.len() {
            assert(spec_lines(s)[0] == s.subrange(0, s.len() as int));
        } else {
            let rest = s.skip(j + 1);
            lemma_lines_pieces(rest);
            let first = strip_cr(s.take(j));
            assert forall|i: int| 0 <= i < spec_lines(s).len() implies exists|a: int, b: int|
                0 <= a <= b <= s.len() && #[trigger] spec_lines(s)[i] == s.subrange(a, b) by {
                if i == 0 {
                    if j > 0 && s.take(j).last() == '\r' {
                        assert(spec_lines(s)[0] == s.subrange(0, j - 1));
                    } else {
                        assert(spec_lines(s)[0] == s.subrange(0, j));
                    }
                } else {
                    assert(spec_lines(s)[i] == spec_lines(rest)[i - 1]);
                    let (a, b) = choose|a: int, b: int|
                        0 <= a <= b <= rest.len() && spec_lines(rest)[i - 1] == rest.subrange(a, b);
                    assert(rest.subrange(a, b) == s.subrange(a + j + 1, b + j + 1));
                }
            }
        }
    }
}

proof fn lemma_piece_fits(s: Seq<char>, a: int, b: int)
    requires
        0 <= a <= b <= s.len(),
    ensures
        encode_utf8(s.subrange(a, b)).len() <= encode_utf8(s).len(),
{
    assert(s == s.subrange(0, a) + s.subrange(a, b) + s.subrange(b, s.len() as int));
    lemma_encode_utf8_concat(s.subrange(0, a) + s.subrange(a, b), s.subrange(b, s.len() as int));
    lemma_encode_utf8_concat(s.subrange(0, a), s.subrange(a, b));
}

proof fn lemma_lines_fit(s: Seq<char>)
    requires
        encode_utf8(s).len() <= usize::MAX,
    ensures
        lines_fit(spec_lines(s)),
{
    lemma_lines_pieces(s);
    assert forall|i: int| 0 <= i < spec_lines(s).len() implies encode_utf8(
        #[trigger] spec_lines(s)[i],
    ).len() <= usize::MAX by {
        let (a, b) = choose|a: int, b: int|
            0 <= a <= b <= s.len() && spec_lines(s)[i] == s.subrange(a, b);
        lemma_piece_fits(s, a, b);
    }
}

// ── Parser state ──────────────────────────────────────────────────────────────

struct Parser<'a> {
    lines: &'a Vec<Vec<char>>,
    pos: usize,
}

impl<'a> Parser<'a> {
    spec fn ls(&self) -> Seq<Seq<char>> {
        lines_of(self.lines@)
    }

    spec fn inv(&self) -> bool {
        &&& self.pos <= self.lines@.len()
        &&& lines_fit(self.ls())
    }

    fn peek_line(&self) -> (r: Option<&'a Vec<char>>)
        requires
            self.inv(),
        ensures
            self.pos < self.lines@.len() ==> r == Some(&self.lines@[self.pos as int]),
            self.pos >= self.lines@.len() ==> r is None,
    {
        if self.pos < self.lines.len() {
            Some(&self.lines[self.pos])
        } else {
            None
        }
    }

    fn peek_token(&self) -> (r: Option<LineToken>)
        requires
            self.inv(),
        ensures
            match r {
                Some(t) => tok(self.ls(), self.pos as int) == Some(t@),
                None => tok(self.ls(), self.pos as int) is None,
            },
    {
        match self.peek_line() {
            Some(l) => {
                assert(self.ls()[self.pos as int] == l@);
                Some(tokenize_chars(l))
            },
            None => None,
        }
    }

    fn advance(&mut self) -> (r: Option<&'a Vec<char>>)
        requires
            old(self).inv(),
            old(self).pos < old(self).lines@.len(),
        ensures
            final(self).lines == old(self).lines,
            final(self).pos == old(self).pos + 1,
            final(self).inv(),
            r == Some(&old(self).lines@[old(self).pos as int]),
    {
        let n = self.lines.len();
        let line = &self.lines[self.pos];
        self.pos += 1;
        Some(line)
    }

    // ── Document ──────────────────────────────────────────────────────────────

    fn parse_document(&mut self) -> (doc: Option<Document>)
        requires
            old(self).inv(),
            old(self).pos == 0,
        ensures
            match doc {
                Some(d) => spec_parse_lines(old(self).ls()) == Some(d@),
                None => spec_parse_lines(old(self).ls()) is None,
            },
    {
        let ghost ls = self.ls();
        let (keywords, preamble_blocks) = match self.parse_preamble() {
            Some(x) => x,
            None => {
                return None;
            },
        };
        let mut sections: Vec<Section> = Vec::new();
        if preamble_blocks.len() > 0 {
            let sec = Section { headline: None, content: preamble_blocks, children: Vec::new() };
            proof {
                lemma_section_view(sec);
                assert(sections_view(sec.children@) =~= Seq::<SectionV>::empty());
            }
            sections.push(sec);
        }
        let ghost pre_secs = sections_view(sections@);
        assert(pre_secs =~= (if (preamble(ls, 0)->0).1.len() > 0 {
            seq![SectionV { headline: None, content: (preamble(ls, 0)->0).1, children: seq![] }]
        } else {
            seq![]
        }));
        let mut rest = match self.parse_top_sections() {
            Some(r) => r,
            None => {
                return None;
            },
        };
        let ghost s0 = sections@;
        let ghost r0 = rest@;
        sections.append(&mut rest);
        assert(sections_view(sections@) =~= sections_view(s0) + sections_view(r0));
        Some(Document { keywords, sections })
    }

    /// The file-level keywords and the blocks before the first headline;
    /// `None` where the parser makes no progress.
    fn parse_preamble(&mut self) -> (r: Option<(Vec<Keyword>, Vec<Block>)>)
        requires
            old(self).inv(),
        ensures
            final(self).inv(),
            final(self).lines == old(self).lines,
            r is Some <==> preamble(old(self).ls(), old(self).pos as int) is Some,
            r is Some ==> ({
                let total = preamble(old(self).ls(), old(self).pos as int)->0;
                &&& Seq::new((r->0).0@.len(), |i: int| (r->0).0@[i]@) == total.0
                &&& blocks_view((r->0).1@) == total.1
                &&& final(self).pos == total.2
            }),
    {
        let ghost ls = self.ls();
        let ghost p0 = self.pos as int;
        let mut keywords: Vec<Keyword> = Vec::new();
        let mut blocks: Vec<Block> = Vec::new();
        let mut done = false;
        proof {
            match preamble(ls, p0) {
                Some((k, b, q)) => {
                    assert(Seq::new(keywords@.len(), |i: int| keywords@[i]@) + k =~= k);
                    assert(blocks_view(blocks@) + b =~= b);
                },
                None => {},
            }
        }
        while !done && self.pos < self.lines.len()
            invariant
                self.inv(),
                self.ls() == ls,
                self.lines == old(self).lines,
                p0 == old(self).pos,
                match preamble(ls, self.pos as int) {
                    Some((k, b, q)) => preamble(ls, p0) == Some(
                        (
                            Seq::new(keywords@.len(), |i: int| keywords@[i]@) + k,
                            blocks_view(blocks@) + b,
                            q,
                        ),
                    ),
                    None => preamble(ls, p0) is None,
                },
                done ==> preamble(ls, self.pos as int) == Some(
                    (Seq::<KeywordV>::empty(), Seq::<BlockV>::empty(), self.pos as int),
                ),
            decreases self.lines@.len() - self.pos + (if done {
                0int
            } else {
                1int
            }),
        {
            let ghost p = self.pos as int;
            let t = self.peek_token();
            match t {
                Some(LineToken::Headline { .. }) => {
                    done = true;
                },
                Some(LineToken::Keyword { key, value }) => {
                    self.advance();
                    let ghost k0 = keywords@;
                    keywords.push(Keyword { key, value });
                    proof {
                        let kv = KeywordV { key: key@, value: value@ };
                        assert(Seq::new(keywords@.len(), |i: int| keywords@[i]@) =~= Seq::new(
                            k0.len(),
                            |i: int| k0[i]@,
                        ) + seq![kv]);
                        match preamble(ls, self.pos as int) {
                            Some((k, b, q)) => {
                                assert(Seq::new(keywords@.len(), |i: int| keywords@[i]@) + k
                                    =~= Seq::new(k0.len(), |i: int| k0[i]@) + (seq![kv] + k));
                            },
                            None => {},
                        }
                    }
                },
                _ => {
                    let b = self.parse_block();
                    match b {
                        Some(b) => {
                            proof {
                                lemma_block_advances(ls, p);
                            }
                            let ghost b0 = blocks@;
                            blocks.push(b);
                            proof {
                                assert(blocks_view(blocks@) =~= blocks_view(b0) + seq![b@]);
                                match preamble(ls, self.pos as int) {
                                    Some((k, bs, q)) => {
                                        assert(blocks_view(blocks@) + bs =~= blocks_view(b0) + (
                                        seq![b@] + bs));
                                    },
                                    None => {},
                                }
                            }
                        },
                        None => {
                            return None;
                        },
                    }
                },
            }
        }
        proof {
            assert(Seq::new(keywords@.len(), |i: int| keywords@[i]@) + Seq::<KeywordV>::empty()
                =~= Seq::new(keywords@.len(), |i: int| keywords@[i]@));
            assert(blocks_view(blocks@) + Seq::<BlockV>::empty() =~= blocks_view(blocks@));
        }
        Some((keywords, blocks))
    }

    #[verifier::rlimit(40)]
    /// The top-level sections from the current line on; `None` where the
    /// parser makes no progress.
    fn parse_top_sections(&mut self) -> (r: Option<Vec<Section>>)
        requires
            old(self).inv(),
        ensures
            r is Some <==> top_sections(old(self).ls(), old(self).pos as int) is Some,
            r is Some ==> sections_view((r->0)@) == top_sections(
                old(self).ls(),
                old(self).pos as int,
            )->0,
    {
        let ghost ls = self.ls();
        let ghost p0 = self.pos as int;
        let mut sections: Vec<Section> = Vec::new();
        proof {
            match top_sections(ls, p0) {
                Some(rest) => {
                    assert(sections_view(sections@) + rest =~= rest);
                },
                None => {},
            }
        }
        while self.pos < self.lines.len()
            invariant
                self.inv(),
                self.ls() == ls,
                p0 == old(self).pos,
                ls == old(self).ls(),
                match top_sections(ls, self.pos as int) {
                    Some(rest) => top_sections(ls, p0) == Some(sections_view(sections@) + rest),
                    None => top_sections(ls, p0) is None,
                },
            decreases self.lines@.len() - self.pos,
        {
            let ghost p = self.pos as int;
            let t = self.peek_token();
            match t {
                Some(LineToken::Headline { level, .. }) => {
                    let sec = self.parse_section(level);
                    match sec {
                        Some(sec) => {
                            let ghost s0 = sections@;
                            sections.push(sec);
                            proof {
                                assert(sections_view(sections@) =~= sections_view(s0) + seq![sec@]);
                                match top_sections(ls, self.pos as int) {
                                    Some(rest) => {
                                        assert(sections_view(sections@) + rest =~= sections_view(
                                            s0,
                                        ) + (seq![sec@] + rest));
                                    },
                                    None => {},
                                }
                            }
                        },
                        None => {
                            proof {
                                assert(spec_section(ls, p, level) is None);
                                assert(top_sections(ls, p) is None);
                            }
                            return None;
                        },
                    }
                },
                _ => {
                    self.advance();
                },
            }
        }
        assert(sections_view(sections@) + Seq::<SectionV>::empty() =~= sections_view(sections@));
        Some(sections)
    }

    // ── Section ───────────────────────────────────────────────────────────────

    #[verifier::rlimit(80)]
    /// Parse a section whose own headline is at `own_level`; `None` when the
    /// current line is not such a headline or the parser makes no progress.
    fn parse_section(&mut self, own_level: u8) -> (r: Option<Section>)
        requires
            old(self).inv(),
        ensures
            final(self).inv(),
            final(self).lines == old(self).lines,
            r is Some <==> spec_section(old(self).ls(), old(self).pos as int, own_level) is Some,
            r is Some ==> r->0@ == (spec_section(
                old(self).ls(),
                old(self).pos as int,
                own_level,
            )->0).0 && final(self).pos == (spec_section(
                old(self).ls(),
                old(self).pos as int,
                own_level,
            )->0).1 && final(self).pos > old(self).pos,
        decreases old(self).lines@.len() - old(self).pos, 1nat,
    {
        let ghost ls = self.ls();
        let ghost p0 = self.pos as int;
        let t = self.peek_token();
        let ghost rest_v: Seq<char>;
        let headline = match t {
            Some(LineToken::Headline { level, rest }) => {
                if level != own_level {
                    return None;
                }
                self.advance();
                let rest_chars = chars_of(rest.as_str());
                proof {
                    rest_v = rest@;
                }
                parse_headline(own_level, &rest_chars)
            },
            _ => {
                return None;
            },
        };
        assert(spec_tokenize(ls[p0]) == LineTokenV::Headline { level: own_level, rest: rest_v });
        let mut content: Vec<Block> = Vec::new();
        let mut children: Vec<Section> = Vec::new();
        let mut done = false;
        proof {
            match section_body(ls, p0 + 1, own_level) {
                Some((c, ch, q)) => {
                    assert(blocks_view(content@) + c =~= c);
                    assert(sections_view(children@) + ch =~= ch);
                },
                None => {},
            }
        }
        while !done && self.pos < self.lines.len()
            invariant
                self.inv(),
                self.ls() == ls,
                self.lines == old(self).lines,
                self.pos > p0,
                p0 == old(self).pos,
                ls == old(self).ls(),
                0 <= p0 < ls.len(),
                spec_tokenize(ls[p0]) == (LineTokenV::Headline { level: own_level, rest: rest_v }),
                match section_body(ls, self.pos as int, own_level) {
                    Some((c, ch, q)) => section_body(ls, p0 + 1, own_level) == Some(
                        (blocks_view(content@) + c, sections_view(children@) + ch, q),
                    ),
                    None => section_body(ls, p0 + 1, own_level) is None,
                },
                done ==> section_body(ls, self.pos as int, own_level) == Some(
                    (Seq::<BlockV>::empty(), Seq::<SectionV>::empty(), self.pos as int),
                ),
            decreases self.lines@.len() - self.pos + (if done {
                0int
            } else {
                1int
            }),
        {
            let ghost p = self.pos as int;
            let t = self.peek_token();
            match t {
                Some(LineToken::Headline { level, .. }) => {
                    if level <= own_level {
                        done = true;
                    } else {
                        let child = self.parse_section(level);
                        match child {
                            Some(child) => {
                                let ghost c0 = children@;
                                children.push(child);
                                proof {
                                    assert(sections_view(children@) =~= sections_view(c0) + seq![
                                        child@,
                                    ]);
                                    match section_body(ls, self.pos as int, own_level) {
                                        Some((c, ch, q)) => {
                                            assert(sections_view(children@) + ch =~= sections_view(
                                                c0,
                                            ) + (seq![child@] + ch));
                                        },
                                        None => {},
                                    }
                                }
                            },
                            None => {
                                proof {
                                    assert(spec_section(ls, p, level) is None);
                                    assert(section_body(ls, p, own_level) is None);
                                    assert(section_body(ls, p0 + 1, own_level) is None);
                                    assert(spec_section(ls, p0, own_level) is None);
                                }
                                return None;
                            },
                        }
                    }
                },
                _ => {
                    let b = self.parse_block();
                    match b {
                        Some(b) => {
                            proof {
                                lemma_block_advances(ls, p);
                            }
                            let ghost b0 = content@;
                            content.push(b);
                            proof {
                                assert(blocks_view(content@) =~= blocks_view(b0) + seq![b@]);
                                match section_body(ls, self.pos as int, own_level) {
                                    Some((c, ch, q)) => {
                                        assert(blocks_view(content@) + c =~= blocks_view(b0) + (
                                        seq![b@] + c));
                                    },
                                    None => {},
                                }
                            }
                        },
                        None => {
                            return None;
                        },
                    }
                },
            }
        }
        proof {
            assert(blocks_view(content@) + Seq::<BlockV>::empty() =~= blocks_view(content@));
            assert(sections_view(children@) + Seq::<SectionV>::empty() =~= sections_view(
                children@,
            ));
        }
        let sec = Section { headline: Some(headline), content, children };
        proof {
            lemma_section_view(sec);
        }
        Some(sec)
    }

    // ── Blocks ────────────────────────────────────────────────────────────────

    fn parse_block(&mut self) -> (r: Option<Block>)
        requires
            old(self).inv(),
        ensures
            final(self).inv(),
            final(self).lines == old(self).lines,
            r is Some <==> spec_block(old(self).ls(), old(self).pos as int) is Some,
            r is Some ==> r->0@ == (spec_block(old(self).ls(), old(self).pos as int)->0).0
                && final(self).pos == (spec_block(old(self).ls(), old(self).pos as int)->0).1,
    {
        let ghost ls = self.ls();
        let ghost p = self.pos as int;
        let t = self.peek_token();
        match t {
            Some(LineToken::Blank) => {
                self.advance();
                Some(Block::BlankLine)
            },
            Some(LineToken::HorizontalRule) => {
                self.advance();
                Some(Block::HorizontalRule)
            },
            Some(LineToken::BeginBlock { kind, params }) => self.parse_src_or_block(&kind, &params),
            Some(LineToken::DrawerBegin(name)) => self.parse_drawer(&name),
            Some(LineToken::ListItem { .. }) => self.parse_list(),
            _ => {
                let r = self.parse_paragraph();
                proof {
                    if text_run_end(ls, p) != p {
                        assert(spec_block(ls, p)->0 == (
                            BlockV::Paragraph(
                                Seq::new(
                                    (text_run_end(ls, p) - p) as nat,
                                    |i: int| spec_parse_inline(ls[p + i]),
                                ),
                            ),
                            text_run_end(ls, p),
                        ));
                    }
                }
                r
            },
        }
    }

    fn parse_src_or_block(&mut self, kind: &String, params: &String) -> (r: Option<Block>)
        requires
            old(self).inv(),
            tok(old(self).ls(), old(self).pos as int) == Some(
                LineTokenV::BeginBlock { kind: kind@, params: params@ },
            ),
        ensures
            final(self).inv(),
            final(self).lines == old(self).lines,
            r is Some,
            r->0@ == (spec_block(old(self).ls(), old(self).pos as int)->0).0,
            final(self).pos == (spec_block(old(self).ls(), old(self).pos as int)->0).1,
    {
        let ghost ls = self.ls();
        let ghost p0 = self.pos as int;
        self.advance();
        if is_src_kind(kind) {
            let params_chars = chars_of(params.as_str());
            let language = first_word_of(&params_chars);
            let (body, _) = self.collect_src_body();
            Some(Block::SrcBlock(SrcBlock { language, body }))
        } else {
            let ghost start = self.pos as int;
            let mut done = false;
            while !done && self.pos < self.lines.len()
                invariant
                    self.inv(),
                    self.ls() == ls,
                    self.lines == old(self).lines,
                    start <= self.pos,
                    !done ==> kind_end_line(ls, start, kind@) == kind_end_line(
                        ls,
                        self.pos as int,
                        kind@,
                    ),
                    done ==> self.pos >= 1 && kind_end_line(ls, start, kind@) == self.pos - 1
                        && self.pos - 1 < ls.len(),
                decreases self.lines@.len() - self.pos + (if done {
                    0int
                } else {
                    1int
                }),
            {
                let t = self.peek_token();
                match t {
                    Some(LineToken::EndBlock(k)) => {
                        if k == *kind {
                            self.advance();
                            done = true;
                        } else {
                            self.advance();
                        }
                    },
                    _ => {
                        self.advance();
                    },
                }
            }
            Some(Block::BlankLine)
        }
    }

    /// The body lines of a source block up to its `#+end_…` line, joined by
    /// newlines; the closing line is consumed.
    fn collect_src_body(&mut self) -> (r: (String, usize))
        requires
            old(self).inv(),
        ensures
            final(self).inv(),
            final(self).lines == old(self).lines,
            r.0@ == join(
                old(self).ls().subrange(
                    old(self).pos as int,
                    any_end_line(old(self).ls(), old(self).pos as int),
                ),
                seq!['\n'],
            ),
            final(self).pos == after_close(
                old(self).ls(),
                any_end_line(old(self).ls(), old(self).pos as int),
            ),
    {
        let ghost ls = self.ls();
        let mut body = String::new();
        let start_pos = self.pos;
        let ghost start = self.pos as int;
        assert(ls.subrange(start, start) =~= Seq::<Seq<char>>::empty());
        let mut done = false;
        let mut body_end = self.pos;
        while !done && self.pos < self.lines.len()
            invariant
                self.inv(),
                self.ls() == ls,
                self.lines == old(self).lines,
                start <= body_end <= self.pos,
                start == start_pos,
                body@ == join(ls.subrange(start, body_end as int), seq!['\n']),
                !done ==> body_end == self.pos && any_end_line(ls, start) == any_end_line(
                    ls,
                    self.pos as int,
                ),
                done ==> any_end_line(ls, start) == body_end && body_end < ls.len() && self.pos
                    == body_end + 1,
            decreases self.lines@.len() - self.pos + (if done {
                0int
            } else {
                1int
            }),
        {
            let line = self.peek_line();
            match line {
                Some(l) => {
                    let t = tokenize_chars(l);
                    assert(ls[self.pos as int] == l@);
                    match t {
                        LineToken::EndBlock(_) => {
                            self.advance();
                            done = true;
                        },
                        _ => {
                            let ghost p = self.pos as int;
                            if self.pos > start_pos {
                                push_char(&mut body, '\n');
                            }
                            push_range(&mut body, l, 0, l.len());
                            assert(l@.subrange(0, l@.len() as int) == l@);
                            assert(ls.subrange(start, p + 1).drop_last() =~= ls.subrange(start, p));
                            proof {
                                if p == start {
                                    assert(ls.subrange(start, p + 1) =~= seq![l@]);
                                }
                            }
                            self.advance();
                            body_end = self.pos;
                        },
                    }
                },
                None => {
                    done = true;
                    body_end = self.pos;
                    assert(false);
                },
            }
        }
        (body, body_end)
    }

    fn parse_drawer(&mut self, name: &String) -> (r: Option<Block>)
        requires
            old(self).inv(),
            tok(old(self).ls(), old(self).pos as int) == Some(LineTokenV::DrawerBegin(name@)),
        ensures
            final(self).inv(),
            final(self).lines == old(self).lines,
            r is Some,
            r->0@ == (spec_block(old(self).ls(), old(self).pos as int)->0).0,
            final(self).pos == (spec_block(old(self).ls(), old(self).pos as int)->0).1,
    {
        let ghost ls = self.ls();
        let ghost p0 = self.pos as int;
        self.advance();
        let name_chars = chars_of(name.as_str());
        let is_props = eq_ignore_case_properties(&name_chars);
        let mut properties: Vec<Property> = Vec::new();
        let mut raw_lines: Vec<String> = Vec::new();
        let ghost start = self.pos as int;
        let ghost q = drawer_end_line(ls, start);
        proof {
            lemma_drawer_end_bounds(ls, start);
        }
        let mut done = false;
        let mut stop = self.pos;
        while !done && self.pos < self.lines.len()
            invariant
                self.inv(),
                self.ls() == ls,
                self.lines == old(self).lines,
                start <= stop <= self.pos,
                q == drawer_end_line(ls, start),
                !done ==> stop == self.pos && q == drawer_end_line(ls, self.pos as int),
                done ==> q == stop && stop < ls.len() && self.pos == stop + 1,
                start <= q <= ls.len(),
                is_props ==> drawer_props(ls, start, q) == Seq::new(
                    properties@.len(),
                    |i: int| properties@[i]@,
                ) + drawer_props(ls, stop as int, q),
                !is_props ==> properties@.len() == 0,
                raw_lines@.len() == stop - start,
                forall|i: int|
                    0 <= i < raw_lines@.len() ==> #[trigger] raw_lines@[i]@ == raw_drawer_line(
                        ls[start + i],
                    ),
            decreases self.lines@.len() - self.pos + (if done {
                0int
            } else {
                1int
            }),
        {
            let t = self.peek_token();
            let ghost p = self.pos as int;
            proof {
                if spec_tokenize(ls[p]) != LineTokenV::DrawerEnd {
                    lemma_drawer_end_bounds(ls, p + 1);
                    assert(drawer_props(ls, p, q) == (match spec_tokenize(ls[p]) {
                        LineTokenV::DrawerProperty { key, value } => seq![KeywordV { key, value }],
                        _ => seq![],
                    }) + drawer_props(ls, p + 1, q));
                }
            }
            match t {
                Some(LineToken::DrawerEnd) => {
                    self.advance();
                    done = true;
                },
                Some(LineToken::DrawerProperty { key, value }) => {
                    let raw = drawer_property_line(&key, &value);
                    raw_lines.push(raw);
                    let ghost pr0 = properties@;
                    if is_props {
                        properties.push(Property { key, value });
                        assert(Seq::new(properties@.len(), |i: int| properties@[i]@) =~= Seq::new(
                            pr0.len(),
                            |i: int| pr0[i]@,
                        ) + seq![KeywordV { key: key@, value: value@ }]);
                    }
                    self.advance();
                    stop = self.pos;
                },
                _ => {
                    let line = self.advance();
                    match line {
                        Some(l) => {
                            let s = string_of_range(l, 0, l.len());
                            assert(l@.subrange(0, l@.len() as int) == l@);
                            raw_lines.push(s);
                        },
                        None => {},
                    }
                    stop = self.pos;
                },
            }
        }
        assert(drawer_props(ls, stop as int, q) == Seq::<KeywordV>::empty());
        if is_props {
            assert(Seq::new(properties@.len(), |i: int| properties@[i]@) =~= drawer_props(
                ls,
                start,
                q,
            ));
            Some(Block::PropertyDrawer(properties))
        } else {
            let b = Block::Drawer { name: name.clone(), lines: raw_lines };
            assert(crate::document::strings_view(raw_lines@) =~= Seq::new(
                (q - start) as nat,
                |i: int| raw_drawer_line(ls[start + i]),
            ));
            Some(b)
        }
    }

    fn parse_list(&mut self) -> (r: Option<Block>)
        requires
            old(self).inv(),
            tok(old(self).ls(), old(self).pos as int) is Some,
            tok(old(self).ls(), old(self).pos as int)->0 is ListItem,
        ensures
            final(self).inv(),
            final(self).lines == old(self).lines,
            r is Some,
            r->0@ == (spec_block(old(self).ls(), old(self).pos as int)->0).0,
            final(self).pos == (spec_block(old(self).ls(), old(self).pos as int)->0).1,
    {
        let ghost ls = self.ls();
        let ghost start = self.pos as int;
        let mut items: Vec<ListItem> = Vec::new();
        let mut done = false;
        while !done && self.pos < self.lines.len()
            invariant
                self.inv(),
                self.ls() == ls,
                self.lines == old(self).lines,
                start <= self.pos,
                list_run_end(ls, start) == list_run_end(ls, self.pos as int),
                done ==> list_run_end(ls, self.pos as int) == self.pos,
                items@.len() == self.pos - start,
                forall|i: int|
                    0 <= i < items@.len() ==> #[trigger] items@[i]@ == list_item_of(ls[start + i]),
            decreases self.lines@.len() - self.pos + (if done {
                0int
            } else {
                1int
            }),
        {
            let t = self.peek_token();
            let ghost p = self.pos as int;
            match t {
                Some(LineToken::ListItem { bullet, rest, .. }) => {
                    self.advance();
                    let rest_chars = chars_of(rest.as_str());
                    let (checkbox, text) = parse_checkbox(&rest_chars);
                    let content = crate::inline::parse_inline_chars(&text);
                    let item = ListItem { bullet, checkbox, content };
                    items.push(item);
                },
                _ => {
                    done = true;
                },
            }
        }
        let b = Block::List(List { items });
        assert(b@ == BlockV::List(
            Seq::new((list_run_end(ls, start) - start) as nat, |i: int| list_item_of(ls[start + i])),
        )) by {
            assert(b@->List_0 =~= Seq::new(
                (list_run_end(ls, start) - start) as nat,
                |i: int| list_item_of(ls[start + i]),
            ));
        }
        Some(b)
    }

    fn parse_paragraph(&mut self) -> (r: Option<Block>)
        requires
            old(self).inv(),
        ensures
            final(self).inv(),
            final(self).lines == old(self).lines,
            final(self).pos == text_run_end(old(self).ls(), old(self).pos as int),
            r is None <==> text_run_end(old(self).ls(), old(self).pos as int) == old(self).pos,
            r is Some ==> r->0@ == BlockV::Paragraph(
                Seq::new(
                    (final(self).pos - old(self).pos) as nat,
                    |i: int| spec_parse_inline(old(self).ls()[old(self).pos + i]),
                ),
            ),
    {
        let ghost ls = self.ls();
        let ghost start = self.pos as int;
        let mut lines: Vec<Vec<Inline>> = Vec::new();
        let mut done = false;
        while !done && self.pos < self.lines.len()
            invariant
                self.inv(),
                self.ls() == ls,
                self.lines == old(self).lines,
                start <= self.pos,
                text_run_end(ls, start) == text_run_end(ls, self.pos as int),
                done ==> text_run_end(ls, self.pos as int) == self.pos,
                lines@.len() == self.pos - start,
                forall|i: int|
                    0 <= i < lines@.len() ==> inlines_view(#[trigger] lines@[i]@) == spec_parse_inline(
                        ls[start + i],
                    ),
            decreases self.lines@.len() - self.pos + (if done {
                0int
            } else {
                1int
            }),
        {
            let t = self.peek_token();
            let ghost p = self.pos as int;
            match t {
                Some(LineToken::Text(s)) => {
                    let c = chars_of(s.as_str());
                    let l = crate::inline::parse_inline_chars(&c);
                    lines.push(l);
                    self.advance();
                },
                _ => {
                    done = true;
                },
            }
        }
        if lines.len() == 0 {
            None
        } else {
            let b = Block::Paragraph(lines);
            assert(b@->Paragraph_0 =~= Seq::new(
                (self.pos - start) as nat,
                |i: int| spec_parse_inline(ls[start + i]),
            ));
            Some(b)
        }
    }
}

/// `:KEY: VALUE`, the raw form of a property line.
fn drawer_property_line(key: &String, value: &String) -> (r: String)
    ensures
        r@ == seq![':'] + key@ + seq![':', ' '] + value@,
{
    let mut r = String::new();
    push_char(&mut r, ':');
    crate::text::push_str(&mut r, key.as_str());
    push_char(&mut r, ':');
    push_char(&mut r, ' ');
    crate::text::push_str(&mut r, value.as_str());
    r
}

fn is_src_kind(kind: &String) -> (b: bool)
    ensures
        b == (kind@ == lit_src()),
{
    let c = chars_of(kind.as_str());
    let src = vec!['S', 'R', 'C'];
    let r = c.len() == 3 && has_prefix_at(&c, 0, &src);
    proof {
        assert(c@.skip(0) == c@);
        if c@.len() == 3 {
            assert(c@.take(3) == c@);
        }
    }
    r
}

fn eq_ignore_case_properties(name: &Vec<char>) -> (b: bool)
    ensures
        b == crate::text::eq_ascii_ci(name@, lit_properties_lower()),
{
    let p = vec!['p', 'r', 'o', 'p', 'e', 'r', 't', 'i', 'e', 's'];
    assert(name@.skip(0) == name@);
    name.len() == 10 && has_prefix_ascii_ci_at(name, 0, &p)
}

fn first_word_of(s: &Vec<char>) -> (r: Option<String>)
    ensures
        match r {
            Some(w) => first_word(s@) == Some(w@),
            None => first_word(s@) is None,
        },
{
    let a = span_while_exec(s, 0, CharClass::Whitespace);
    proof {
        lemma_span_while(s@, 0, CharClass::Whitespace);
    }
    if a >= s.len() {
        return None;
    }
    let b = find_from_exec(s, a, CharClass::Whitespace);
    proof {
        lemma_find_from(s@, a as int, CharClass::Whitespace);
    }
    Some(string_of_range(s, a, b))
}

// ── Headline parsing ──────────────────────────────────────────────────────────

fn parse_headline(level: u8, rest: &Vec<char>) -> (h: Headline)
    ensures
        h@ == spec_headline(level, rest@),
{
    let (lo, hi) = trim_bounds(rest, 0, rest.len());
    assert(rest@.subrange(0, rest@.len() as int) == rest@);
    let t = sub_vec(rest, lo, hi);
    let (title_and_tags, tags) = extract_tags(&t);
    let (lo1, hi1) = trim_bounds(&title_and_tags, 0, title_and_tags.len());
    assert(title_and_tags@.subrange(0, title_and_tags@.len() as int) == title_and_tags@);
    let s1 = sub_vec(&title_and_tags, lo1, hi1);
    let (todo_keyword, s2) = extract_todo_keyword(&s1);
    let a2 = span_while_exec(&s2, 0, CharClass::Whitespace);
    proof {
        lemma_span_while(s2@, 0, CharClass::Whitespace);
    }
    let s3 = sub_vec(&s2, a2, s2.len());
    let (priority, s4) = extract_priority(&s3);
    let a4 = span_while_exec(&s4, 0, CharClass::Whitespace);
    proof {
        lemma_span_while(s4@, 0, CharClass::Whitespace);
    }
    let s5 = sub_vec(&s4, a4, s4.len());
    let title = crate::inline::parse_inline_chars(&s5);
    Headline { level, todo_keyword, priority, title, tags }
}

fn todo_keyword_exec(i: usize) -> (r: Vec<char>)
    requires
        i < 7,
    ensures
        r@ == todo_keyword_at(i as int),
{
    if i == 0 {
        vec!['T', 'O', 'D', 'O']
    } else if i == 1 {
        vec!['D', 'O', 'N', 'E']
    } else if i == 2 {
        vec!['D', 'O', 'I', 'N', 'G']
    } else if i == 3 {
        vec!['N', 'E', 'X', 'T']
    } else if i == 4 {
        vec!['W', 'A', 'I', 'T', 'I', 'N', 'G']
    } else if i == 5 {
        vec!['H', 'O', 'L', 'D']
    } else {
        vec!['C', 'A', 'N', 'C', 'E', 'L', 'L', 'E', 'D']
    }
}

fn extract_todo_keyword(s: &Vec<char>) -> (r: (Option<String>, Vec<char>))
    ensures
        (crate::document::opt_string_view(r.0), r.1@) == spec_todo(s@),
{
    let mut i: usize = 0;
    assert(s@.skip(0) == s@);
    while i < 7
        invariant
            i <= 7,
            todo_from(s@, 0) == todo_from(s@, i as int),
            s@.skip(0) == s@,
        decreases 7 - i,
    {
        let kw = todo_keyword_exec(i);
        assert(todo_from(s@, i as int) == (if has_prefix(s@, kw@) && (s@.len() == kw@.len()
            || s@[kw@.len() as int] == ' ') {
            Some((kw@, s@.skip(kw@.len() as int)))
        } else {
            todo_from(s@, i + 1)
        }));
        if has_prefix_at(s, 0, &kw) {
            let k = kw.len();
            if s.len() == k || s[k] == ' ' {
                let rest = sub_vec(s, k, s.len());
                let kws = string_of_range(&kw, 0, k);
                assert(kw@.subrange(0, k as int) == kw@);
                return (Some(kws), rest);
            }
        }
        i += 1;
    }
    let c = sub_vec(s, 0, s.len());
    assert(s@.subrange(0, s@.len() as int) == s@);
    (None, c)
}

fn extract_priority(s: &Vec<char>) -> (r: (Option<char>, Vec<char>))
    ensures
        (r.0, r.1@) == spec_priority(s@),
{
    if s.len() >= 4 && s[0] == '[' && s[1] == '#' && (s[2] as u32) < 128 && s[3] == ']' {
        return (Some(s[2]), sub_vec(s, 4, s.len()));
    }
    assert(s@.subrange(0, s@.len() as int) == s@);
    (None, sub_vec(s, 0, s.len()))
}

pub open spec fn segs_view(s: Seq<char>, v: Seq<(usize, usize)>) -> Seq<Seq<char>> {
    Seq::new(v.len(), |i: int| s.subrange(v[i].0 as int, v[i].1 as int))
}

/// Separate the trailing tag group (`:tag1:tag2:`) from the title.
///
/// Tags must be at the end of the line, preceded by whitespace, in the form
/// `:word1:word2:…:` where each word contains only tag-valid characters.
fn extract_tags(s: &Vec<char>) -> (r: (Vec<char>, Vec<String>))
    ensures
        r.0@ == spec_extract_tags(s@).0,
        crate::document::strings_view(r.1@) == spec_extract_tags(s@).1,
{
    let n = s.len();
    assert(s@.subrange(0, n as int) == s@);
    if n == 0 || s[n - 1] != ':' {
        let no_tags: Vec<String> = Vec::new();
        assert(crate::document::strings_view(no_tags@) =~= Seq::<Seq<char>>::empty());
        return (sub_vec(s, 0, n), no_tags);
    }
    let mut pos: usize = n - 1;
    let mut segs: Vec<(usize, usize)> = Vec::new();
    assert(segs_view(s@, segs@) =~= Seq::<Seq<char>>::empty());
    loop
        invariant
            0 <= pos < n == s@.len(),
            s@.len() > 0,
            s@.last() == ':',
            tag_walk(s@, n - 1, seq![]) == tag_walk(s@, pos as int, segs_view(s@, segs@)),
            forall|i: int| 0 <= i < segs@.len() ==> (#[trigger] segs@[i]).0 <= segs@[i].1 <= n,
        decreases pos,
    {
        let seg_start = back_while_exec(s, pos, CharClass::NotColon);
        proof {
            lemma_back_while(s@, pos as int, CharClass::NotColon);
        }
        if seg_start == pos || !all_in_class_exec(s, seg_start, pos, CharClass::TagChar) {
            let no_tags: Vec<String> = Vec::new();
            assert(crate::document::strings_view(no_tags@) =~= Seq::<Seq<char>>::empty());
            return (sub_vec(s, 0, n), no_tags);
        }
        if seg_start <= 1 {
            let no_tags: Vec<String> = Vec::new();
            assert(crate::document::strings_view(no_tags@) =~= Seq::<Seq<char>>::empty());
            return (sub_vec(s, 0, n), no_tags);
        }
        let oc = seg_start - 1;
        let ghost sv0 = segs_view(s@, segs@);
        segs.push((seg_start, pos));
        assert(segs_view(s@, segs@) =~= sv0.push(s@.subrange(seg_start as int, pos as int)));
        if is_ascii_whitespace(s[oc - 1]) {
            let te = back_while_exec(s, oc, CharClass::Whitespace);
            proof {
                lemma_back_while(s@, oc as int, CharClass::Whitespace);
            }
            let title = sub_vec(s, 0, te);
            assert(title@ == trim_end(s@.take(oc as int))) by {
                lemma_back_while_prefix(s@, oc as int);
            }
            let tags = tags_in_order(s, &segs);
            return (title, tags);
        }
        if s[oc - 1] == ':' {
            let no_tags: Vec<String> = Vec::new();
            assert(crate::document::strings_view(no_tags@) =~= Seq::<Seq<char>>::empty());
            return (sub_vec(s, 0, n), no_tags);
        }
        pos = oc;
    }
}

/// Trimming the end of a prefix scans the prefix only.
proof fn lemma_back_while_prefix(s: Seq<char>, m: int)
    requires
        0 <= m <= s.len(),
    ensures
        s.subrange(0, back_while(s, m, CharClass::Whitespace)) == trim_end(s.take(m)),
{
    lemma_back_while_prefix_rec(s, m, m);
}

proof fn lemma_back_while_prefix_rec(s: Seq<char>, m: int, i: int)
    requires
        0 <= i <= m <= s.len(),
    ensures
        back_while(s, i, CharClass::Whitespace) == back_while(s.take(m), i, CharClass::Whitespace),
        i == m ==> s.subrange(0, back_while(s, m, CharClass::Whitespace)) == trim_end(s.take(m)),
    decreases i,
{
    if i > 0 {
        assert(s.take(m)[i - 1] == s[i - 1]);
        lemma_back_while_prefix_rec(s, m, i - 1);
    }
    if i == m {
        let t = s.take(m);
        lemma_back_while(t, m, CharClass::Whitespace);
        assert(t.len() == m);
        assert(s.subrange(0, back_while(s, m, CharClass::Whitespace)) =~= t.take(
            back_while(t, m, CharClass::Whitespace),
        ));
    }
}

/// The tags recorded right to left, returned left to right.
fn tags_in_order(s: &Vec<char>, segs: &Vec<(usize, usize)>) -> (r: Vec<String>)
    requires
        forall|i: int| 0 <= i < segs@.len() ==> (#[trigger] segs@[i]).0 <= segs@[i].1 <= s@.len(),
    ensures
        crate::document::strings_view(r@) == segs_view(s@, segs@).reverse(),
{
    let mut r: Vec<String> = Vec::new();
    let m = segs.len();
    let mut k: usize = m;
    while k > 0
        invariant
            k <= m == segs@.len(),
            forall|i: int| 0 <= i < segs@.len() ==> (#[trigger] segs@[i]).0 <= segs@[i].1 <= s@.len(),
            r@.len() == m - k,
            forall|i: int| 0 <= i < r@.len() ==> #[trigger] r@[i]@ == s@.subrange(
                segs@[m - 1 - i].0 as int,
                segs@[m - 1 - i].1 as int,
            ),
        decreases k,
    {
        k -= 1;
        let (a, b) = segs[k];
        r.push(string_of_range(s, a, b));
    }
    assert(crate::document::strings_view(r@) =~= segs_view(s@, segs@).reverse());
    r
}

pub(crate) fn is_tag_char(c: char) -> (b: bool)
    ensures
        b == in_class(c, CharClass::TagChar),
{
    crate::text::in_class_exec(c, CharClass::TagChar)
}

// ── List checkbox ─────────────────────────────────────────────────────────────

fn parse_checkbox(rest: &Vec<char>) -> (r: (Option<CheckboxState>, Vec<char>))
    ensures
        (r.0, r.1@) == spec_checkbox(rest@),
{
    let n = rest.len();
    let cx = vec!['[', 'X', ']', ' '];
    let cxl = vec!['[', 'x', ']', ' '];
    let cu = vec!['[', ' ', ']', ' '];
    let cp = vec!['[', '-', ']', ' '];
    assert(rest@.skip(0) == rest@);
    if has_prefix_at(rest, 0, &cx) || has_prefix_at(rest, 0, &cxl) {
        return (Some(CheckboxState::Checked), sub_vec(rest, 4, n));
    }
    if has_prefix_at(rest, 0, &cu) {
        return (Some(CheckboxState::Unchecked), sub_vec(rest, 4, n));
    }
    if has_prefix_at(rest, 0, &cp) {
        return (Some(CheckboxState::Partial), sub_vec(rest, 4, n));
    }
    assert(rest@.subrange(0, n as int) == rest@);
    (None, sub_vec(rest, 0, n))
}

} // verus!
