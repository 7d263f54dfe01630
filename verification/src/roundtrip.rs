//! Reading back what is written: a file whose every line is one the
//! serializer writes in the same way, and whose blocks are closed, is
//! serialized, after parsing, to exactly its own text.
use vstd::prelude::*;
use crate::document::{BlockV, InlineV, KeywordV, ListItemV, SectionV, TimestampKind};
use crate::inline::{
    active_close, close_scan, inactive_close, is_marker, lemma_close_scan, link_shape,
    markup_close, markup_inline, span_from, spec_parse_inline,
};
use crate::text::char_is_alphanumeric;
use crate::lexer::{spec_tokenize, LineTokenV};
use crate::parser::{
    after_close, any_end_line, drawer_end_line, drawer_props, first_word, list_item_of,
    list_run_end, preamble, raw_drawer_line, section_body, spec_block, spec_headline,
    spec_lines, spec_parse, spec_parse_lines, spec_section, strip_cr, text_run_end,
    top_sections, lit_src,
};
use crate::serializer::{
    join, lit_begin_src, ser_block, ser_blocks, ser_checkbox, ser_headline, ser_inline, ser_inlines,
    ser_items, ser_keywords, ser_lines, ser_paragraph, ser_properties, ser_section,
    ser_sections, spec_serialize,
};
use crate::text::{find_from, lemma_find_from, CharClass};

verus! {

// ── Lines ─────────────────────────────────────────────────────────────────────

/// Lines as `str::lines` gives them back: none holds a newline or ends in a
/// carriage return.
pub open spec fn plain_lines(ls: Seq<Seq<char>>) -> bool {
    forall|i: int|
        0 <= i < ls.len() ==> !(#[trigger] ls[i]).contains('\n') && !(ls[i].len() > 0
            && ls[i].last() == '\r')
}

pub proof fn lemma_ser_lines_concat(a: Seq<Seq<char>>, b: Seq<Seq<char>>)
    ensures
        ser_lines(a + b) == ser_lines(a) + ser_lines(b),
    decreases a.len(),
{
    if a.len() == 0 {
        assert(a + b =~= b);
        assert(ser_lines(a) + ser_lines(b) =~= ser_lines(b));
    } else {
        assert((a + b).drop_first() =~= a.drop_first() + b);
        lemma_ser_lines_concat(a.drop_first(), b);
        assert(ser_lines(a + b) =~= ser_lines(a) + ser_lines(b));
    }
}

/// `ser_lines` of consecutive ranges concatenates.
pub proof fn lemma_ser_range(ls: Seq<Seq<char>>, a: int, b: int, c: int)
    requires
        0 <= a <= b <= c <= ls.len(),
    ensures
        ser_lines(ls.subrange(a, b)) + ser_lines(ls.subrange(b, c)) == ser_lines(
            ls.subrange(a, c),
        ),
{
    assert(ls.subrange(a, c) =~= ls.subrange(a, b) + ls.subrange(b, c));
    lemma_ser_lines_concat(ls.subrange(a, b), ls.subrange(b, c));
}

/// One line, then the range after it.
pub proof fn lemma_ser_range_first(ls: Seq<Seq<char>>, a: int, c: int)
    requires
        0 <= a < c <= ls.len(),
    ensures
        ls[a] + seq!['\n'] + ser_lines(ls.subrange(a + 1, c)) == ser_lines(ls.subrange(a, c)),
{
    assert(ls.subrange(a, c).drop_first() =~= ls.subrange(a + 1, c));
}

/// The text of `ls`, one newline after each line, splits back into `ls`.
pub proof fn lemma_lines_of_ser_lines(ls: Seq<Seq<char>>)
    requires
        plain_lines(ls),
    ensures
        spec_lines(ser_lines(ls)) == ls,
    decreases ls.len(),
{
    if ls.len() > 0 {
        let s = ser_lines(ls);
        let l = ls[0];
        let rest = ser_lines(ls.drop_first());
        assert(s == l + seq!['\n'] + rest);
        assert(!l.contains('\n'));
        lemma_find_from(s, 0, CharClass::Newline);
        let j = find_from(s, 0, CharClass::Newline);
        assert(s[l.len() as int] == '\n');
        assert(j <= l.len()) by {
            if j > l.len() {
                assert(!crate::text::in_class(s[l.len() as int], CharClass::Newline));
            }
        }
        assert(j == l.len()) by {
            if j < l.len() {
                assert(s[j] == l[j]);
            }
        }
        assert(s.take(j) =~= l);
        assert(strip_cr(l) == l);
        assert(s.skip(j + 1) =~= rest);
        assert(plain_lines(ls.drop_first())) by {
            assert forall|i: int| 0 <= i < ls.drop_first().len() implies !(#[trigger] ls.drop_first()[i]).contains('\n')
                && !(ls.drop_first()[i].len() > 0 && ls.drop_first()[i].last() == '\r') by {
                assert(ls.drop_first()[i] == ls[i + 1]);
            }
        }
        lemma_lines_of_ser_lines(ls.drop_first());
        assert(spec_lines(s) =~= seq![l] + ls.drop_first());
        assert(seq![l] + ls.drop_first() =~= ls);
    }
}

// ── Runs of lines ─────────────────────────────────────────────────────────────

proof fn lemma_list_run(ls: Seq<Seq<char>>, p: int)
    requires
        0 <= p <= ls.len(),
    ensures
        p <= list_run_end(ls, p) <= ls.len(),
        forall|i: int| p <= i < list_run_end(ls, p) ==> spec_tokenize(#[trigger] ls[i]) is ListItem,
        list_run_end(ls, p) < ls.len() ==> !(spec_tokenize(ls[list_run_end(ls, p)]) is ListItem),
    decreases ls.len() - p,
{
    if p < ls.len() && spec_tokenize(ls[p]) is ListItem {
        lemma_list_run(ls, p + 1);
    }
}

proof fn lemma_text_run(ls: Seq<Seq<char>>, p: int)
    requires
        0 <= p <= ls.len(),
    ensures
        p <= text_run_end(ls, p) <= ls.len(),
        forall|i: int| p <= i < text_run_end(ls, p) ==> spec_tokenize(#[trigger] ls[i]) is Text,
        text_run_end(ls, p) < ls.len() ==> !(spec_tokenize(ls[text_run_end(ls, p)]) is Text),
    decreases ls.len() - p,
{
    if p < ls.len() && spec_tokenize(ls[p]) is Text {
        lemma_text_run(ls, p + 1);
    }
}

proof fn lemma_any_end(ls: Seq<Seq<char>>, p: int)
    requires
        0 <= p <= ls.len(),
    ensures
        p <= any_end_line(ls, p) <= ls.len(),
    decreases ls.len() - p,
{
    if p < ls.len() && !(spec_tokenize(ls[p]) is EndBlock) {
        lemma_any_end(ls, p + 1);
    }
}

// ── Lines the serializer writes back as they are ──────────────────────────────

/// `#+end_src`.
pub open spec fn end_src_line() -> Seq<char> {
    seq!['#', '+', 'e', 'n', 'd', '_', 's', 'r', 'c']
}

/// `:END:`.
pub open spec fn end_drawer_line() -> Seq<char> {
    seq![':', 'E', 'N', 'D', ':']
}

/// `:PROPERTIES:`.
pub open spec fn properties_line() -> Seq<char> {
    seq![':', 'P', 'R', 'O', 'P', 'E', 'R', 'T', 'I', 'E', 'S', ':']
}

/// The first line the serializer writes for a source block in `lang`.
pub open spec fn src_begin_line(lang: Option<Seq<char>>) -> Seq<char> {
    let l = match lang {
        Some(l) => l,
        None => seq![],
    };
    if l.len() == 0 {
        lit_begin_src()
    } else {
        lit_begin_src() + seq![' '] + l
    }
}

/// The line the serializer writes for a list item.
pub open spec fn item_line(it: ListItemV) -> Seq<char> {
    it.bullet + seq![' '] + ser_checkbox(it.checkbox) + ser_inlines(it.content)
}

/// Whether the block that starts at line `p` is written back as the lines it
/// spans: an empty blank line, `-----`, a `#+begin_src` block closed by
/// `#+end_src`, a drawer closed by `:END:` whose lines are written back, or a
/// run of list items or of text lines that are each written back.
pub open spec fn canonical_block(ls: Seq<Seq<char>>, p: int) -> bool {
    match spec_tokenize(ls[p]) {
        LineTokenV::Blank => ls[p].len() == 0,
        LineTokenV::HorizontalRule => ls[p] == seq!['-', '-', '-', '-', '-'],
        LineTokenV::BeginBlock { kind, params } => {
            let q = any_end_line(ls, p + 1);
            &&& kind == lit_src()
            &&& ls[p] == src_begin_line(first_word(params))
            &&& q < ls.len()
            &&& ls[q] == end_src_line()
            &&& ls.subrange(p + 1, q) != seq![Seq::<char>::empty()]
        },
        LineTokenV::DrawerBegin(name) => {
            let q = drawer_end_line(ls, p + 1);
            &&& q < ls.len()
            &&& ls[q] == end_drawer_line()
            &&& forall|i: int| p + 1 <= i < q ==> raw_drawer_line(#[trigger] ls[i]) == ls[i]
            &&& if crate::text::eq_ascii_ci(name, crate::parser::lit_properties_lower()) {
                &&& ls[p] == properties_line()
                &&& forall|i: int| p + 1 <= i < q ==> spec_tokenize(#[trigger] ls[i]) is DrawerProperty
            } else {
                ls[p] == seq![':'] + name + seq![':']
            }
        },
        LineTokenV::ListItem { .. } => forall|i: int|
            p <= i < list_run_end(ls, p) ==> item_line(list_item_of(#[trigger] ls[i])) == ls[i],
        LineTokenV::Text(_) => forall|i: int|
            p <= i < text_run_end(ls, p) ==> ser_inlines(spec_parse_inline(#[trigger] ls[i])) == ls[i],
        _ => false,
    }
}

proof fn lemma_join_lines(xs: Seq<Seq<char>>)
    requires
        xs.len() > 0,
    ensures
        join(xs, seq!['\n']) + seq!['\n'] == ser_lines(xs),
        xs != seq![Seq::<char>::empty()] ==> join(xs, seq!['\n']).len() > 0,
    decreases xs.len(),
{
    if xs.len() == 1 {
        assert(xs.drop_first() =~= Seq::<Seq<char>>::empty());
        assert(ser_lines(Seq::<Seq<char>>::empty()) == Seq::<char>::empty());
        if xs[0].len() == 0 {
            assert(xs[0] =~= Seq::<char>::empty());
            assert(xs =~= seq![Seq::<char>::empty()]);
        }
    } else {
        lemma_join_lines(xs.drop_last());
        assert(xs =~= xs.drop_last() + seq![xs.last()]);
        lemma_ser_lines_concat(xs.drop_last(), seq![xs.last()]);
        assert(seq![xs.last()].drop_first() =~= Seq::<Seq<char>>::empty());
        assert(ser_lines(Seq::<Seq<char>>::empty()) == Seq::<char>::empty());
        assert(ser_lines(seq![xs.last()]) =~= xs.last() + seq!['\n']);
        assert(join(xs, seq!['\n']) == join(xs.drop_last(), seq!['\n']) + seq!['\n'] + xs.last());
        assert(join(xs, seq!['\n']) + seq!['\n'] =~= (join(xs.drop_last(), seq!['\n']) + seq!['\n'])
            + (xs.last() + seq!['\n']));
        if join(xs, seq!['\n']).len() == 0 {
            assert(false);
        }
    }
}

proof fn lemma_props_round(ls: Seq<Seq<char>>, a: int, q: int)
    requires
        0 <= a <= q <= ls.len(),
        forall|i: int| a <= i < q ==> raw_drawer_line(#[trigger] ls[i]) == ls[i],
        forall|i: int| a <= i < q ==> spec_tokenize(#[trigger] ls[i]) is DrawerProperty,
    ensures
        ser_properties(drawer_props(ls, a, q)) == ser_lines(ls.subrange(a, q)),
    decreases q - a,
{
    if a < q {
        lemma_props_round(ls, a + 1, q);
        lemma_ser_range_first(ls, a, q);
        assert(raw_drawer_line(ls[a]) == ls[a]);
        let ps = drawer_props(ls, a, q);
        assert(ps.drop_first() =~= drawer_props(ls, a + 1, q));
    }
}

proof fn lemma_items_round(ls: Seq<Seq<char>>, a: int, q: int)
    requires
        0 <= a <= q <= ls.len(),
        forall|i: int| a <= i < q ==> item_line(list_item_of(#[trigger] ls[i])) == ls[i],
    ensures
        ser_items(Seq::new((q - a) as nat, |i: int| list_item_of(ls[a + i]))) == ser_lines(
            ls.subrange(a, q),
        ),
    decreases q - a,
{
    if a < q {
        lemma_items_round(ls, a + 1, q);
        lemma_ser_range_first(ls, a, q);
        assert(item_line(list_item_of(ls[a])) == ls[a]);
        let items = Seq::new((q - a) as nat, |i: int| list_item_of(ls[a + i]));
        assert(items.drop_first() =~= Seq::new((q - (a + 1)) as nat, |i: int| list_item_of(ls[a + 1 + i])));
    }
}

proof fn lemma_paragraph_round(ls: Seq<Seq<char>>, a: int, q: int)
    requires
        0 <= a <= q <= ls.len(),
        forall|i: int| a <= i < q ==> ser_inlines(spec_parse_inline(#[trigger] ls[i])) == ls[i],
    ensures
        ser_paragraph(Seq::new((q - a) as nat, |i: int| spec_parse_inline(ls[a + i]))) == ser_lines(
            ls.subrange(a, q),
        ),
    decreases q - a,
{
    if a < q {
        lemma_paragraph_round(ls, a + 1, q);
        lemma_ser_range_first(ls, a, q);
        assert(ser_inlines(spec_parse_inline(ls[a])) == ls[a]);
        let lines = Seq::new((q - a) as nat, |i: int| spec_parse_inline(ls[a + i]));
        assert(lines.drop_first() =~= Seq::new(
            (q - (a + 1)) as nat,
            |i: int| spec_parse_inline(ls[a + 1 + i]),
        ));
    }
}

/// The ranges on both sides of a closing line at `q`.
proof fn lemma_closed_range(ls: Seq<Seq<char>>, p: int, q: int)
    requires
        0 <= p < q < ls.len(),
    ensures
        ser_lines(ls.subrange(p, q + 1)) == ls[p] + seq!['\n'] + ser_lines(ls.subrange(p + 1, q))
            + (ls[q] + seq!['\n']),
{
    lemma_ser_range_first(ls, p, q + 1);
    lemma_ser_range(ls, p + 1, q, q + 1);
    assert(ls.subrange(q, q + 1) =~= seq![ls[q]]);
    assert(seq![ls[q]].drop_first() =~= Seq::<Seq<char>>::empty());
    assert(ser_lines(Seq::<Seq<char>>::empty()) == Seq::<char>::empty());
    assert(ser_lines(seq![ls[q]]) =~= ls[q] + seq!['\n']);
}

proof fn lemma_one_line(ls: Seq<Seq<char>>, p: int)
    requires
        0 <= p < ls.len(),
    ensures
        ser_lines(ls.subrange(p, p + 1)) == ls[p] + seq!['\n'],
{
    assert(ls.subrange(p, p + 1) =~= seq![ls[p]]);
    assert(seq![ls[p]].drop_first() =~= Seq::<Seq<char>>::empty());
    assert(ser_lines(Seq::<Seq<char>>::empty()) == Seq::<char>::empty());
    assert(ser_lines(seq![ls[p]]) =~= ls[p] + seq!['\n']);
}

proof fn lemma_src_round(ls: Seq<Seq<char>>, p: int)
    requires
        0 <= p < ls.len(),
        spec_tokenize(ls[p]) is BeginBlock,
        canonical_block(ls, p),
    ensures
        spec_block(ls, p) is Some,
        p < (spec_block(ls, p)->0).1 <= ls.len(),
        ser_block((spec_block(ls, p)->0).0) == ser_lines(
            ls.subrange(p, (spec_block(ls, p)->0).1),
        ),
{
    lemma_any_end(ls, p + 1);
    let q = any_end_line(ls, p + 1);
    let body = ls.subrange(p + 1, q);
    lemma_closed_range(ls, p, q);
    if body.len() > 0 {
        lemma_join_lines(body);
    } else {
        assert(join(body, seq!['\n']) =~= Seq::<char>::empty());
        assert(ser_lines(body) == Seq::<char>::empty());
    }
    assert(after_close(ls, q) == q + 1);
    let b = (spec_block(ls, p)->0).0;
    assert(ser_block(b) =~= ser_lines(ls.subrange(p, q + 1)));
}

proof fn lemma_drawer_round(ls: Seq<Seq<char>>, p: int)
    requires
        0 <= p < ls.len(),
        spec_tokenize(ls[p]) is DrawerBegin,
        canonical_block(ls, p),
    ensures
        spec_block(ls, p) is Some,
        p < (spec_block(ls, p)->0).1 <= ls.len(),
        ser_block((spec_block(ls, p)->0).0) == ser_lines(
            ls.subrange(p, (spec_block(ls, p)->0).1),
        ),
{
    let name = spec_tokenize(ls[p])->DrawerBegin_0;
    crate::parser::lemma_drawer_end_bounds(ls, p + 1);
    let q = drawer_end_line(ls, p + 1);
    lemma_closed_range(ls, p, q);
    assert(after_close(ls, q) == q + 1);
    let b = (spec_block(ls, p)->0).0;
    if crate::text::eq_ascii_ci(name, crate::parser::lit_properties_lower()) {
        lemma_props_round(ls, p + 1, q);
        assert(ser_block(b) =~= ser_lines(ls.subrange(p, q + 1)));
    } else {
        let lines = Seq::new((q - (p + 1)) as nat, |i: int| raw_drawer_line(ls[p + 1 + i]));
        assert(lines =~= ls.subrange(p + 1, q));
        assert(ser_block(b) =~= ser_lines(ls.subrange(p, q + 1)));
    }
}

/// A canonical block is parsed and written back as the lines it spans.
pub proof fn lemma_block_round(ls: Seq<Seq<char>>, p: int)
    requires
        0 <= p < ls.len(),
        canonical_block(ls, p),
    ensures
        spec_block(ls, p) is Some,
        p < (spec_block(ls, p)->0).1 <= ls.len(),
        ser_block((spec_block(ls, p)->0).0) == ser_lines(
            ls.subrange(p, (spec_block(ls, p)->0).1),
        ),
{
    match spec_tokenize(ls[p]) {
        LineTokenV::Blank => {
            lemma_one_line(ls, p);
            assert(ls[p] =~= Seq::<char>::empty());
        },
        LineTokenV::HorizontalRule => {
            lemma_one_line(ls, p);
        },
        LineTokenV::BeginBlock { .. } => {
            lemma_src_round(ls, p);
        },
        LineTokenV::DrawerBegin(_) => {
            lemma_drawer_round(ls, p);
        },
        LineTokenV::ListItem { .. } => {
            lemma_list_run(ls, p);
            lemma_items_round(ls, p, list_run_end(ls, p));
        },
        LineTokenV::Text(_) => {
            lemma_text_run(ls, p);
            lemma_paragraph_round(ls, p, text_run_end(ls, p));
        },
        _ => {},
    }
}

// ── Files ─────────────────────────────────────────────────────────────────────

/// Whether lines `p..` are written back as they are: `#+KEY: VALUE` lines
/// only while `keywords_allowed` (that is, before anything else), headlines
/// the serializer writes in the same way, and canonical blocks.
pub open spec fn canonical_from(ls: Seq<Seq<char>>, p: int, keywords_allowed: bool) -> bool
    decreases ls.len() - p,
{
    if !(0 <= p < ls.len()) {
        true
    } else {
        match spec_tokenize(ls[p]) {
            LineTokenV::Keyword { key, value } => {
                &&& keywords_allowed
                &&& ls[p] == seq!['#', '+'] + key + seq![':', ' '] + value
                &&& canonical_from(ls, p + 1, true)
            },
            LineTokenV::Headline { level, rest } => {
                &&& ser_headline(spec_headline(level, rest)) == ls[p] + seq!['\n']
                &&& canonical_from(ls, p + 1, false)
            },
            _ => {
                &&& canonical_block(ls, p)
                &&& match spec_block(ls, p) {
                    Some((_, q)) => p < q <= ls.len() && canonical_from(ls, q, false),
                    None => false,
                }
            },
        }
    }
}

/// Whether line `q` is the end of the text or a headline at level `level` or above.
pub open spec fn stops_at(ls: Seq<Seq<char>>, q: int, level: u8) -> bool {
    q < ls.len() ==> (spec_tokenize(ls[q]) is Headline && spec_tokenize(ls[q])->Headline_level
        <= level)
}

pub proof fn lemma_section_round(ls: Seq<Seq<char>>, p: int, level: u8)
    requires
        0 <= p < ls.len(),
        spec_tokenize(ls[p]) is Headline,
        spec_tokenize(ls[p])->Headline_level == level,
        canonical_from(ls, p, false),
    ensures
        spec_section(ls, p, level) is Some,
        p < (spec_section(ls, p, level)->0).1 <= ls.len(),
        ser_section((spec_section(ls, p, level)->0).0) == ser_lines(
            ls.subrange(p, (spec_section(ls, p, level)->0).1),
        ),
        canonical_from(ls, (spec_section(ls, p, level)->0).1, false),
        stops_at(ls, (spec_section(ls, p, level)->0).1, level),
    decreases ls.len() - p, 1int,
{
    let rest = spec_tokenize(ls[p])->Headline_rest;
    lemma_body_round(ls, p + 1, level);
    let (c, ch, q) = section_body(ls, p + 1, level)->0;
    lemma_ser_range_first(ls, p, q);
    let sec = (spec_section(ls, p, level)->0).0;
    assert(ser_section(sec) == ser_headline(spec_headline(level, rest)) + ser_blocks(c)
        + ser_sections(ch));
    assert(ser_section(sec) =~= ser_lines(ls.subrange(p, q)));
}

pub proof fn lemma_body_round(ls: Seq<Seq<char>>, p: int, level: u8)
    requires
        0 <= p <= ls.len(),
        canonical_from(ls, p, false),
    ensures
        section_body(ls, p, level) is Some,
        p <= (section_body(ls, p, level)->0).2 <= ls.len(),
        ser_blocks((section_body(ls, p, level)->0).0) + ser_sections(
            (section_body(ls, p, level)->0).1,
        ) == ser_lines(ls.subrange(p, (section_body(ls, p, level)->0).2)),
        canonical_from(ls, (section_body(ls, p, level)->0).2, false),
        stops_at(ls, (section_body(ls, p, level)->0).2, level),
        (p == ls.len() || spec_tokenize(ls[p]) is Headline) ==> (section_body(
            ls,
            p,
            level,
        )->0).0.len() == 0,
    decreases ls.len() - p, 2int,
{
    assert(ser_lines(Seq::<Seq<char>>::empty()) == Seq::<char>::empty());
    assert(ser_blocks(Seq::<BlockV>::empty()) == Seq::<char>::empty());
    assert(ser_sections(Seq::<SectionV>::empty()) == Seq::<char>::empty());
    if p == ls.len() {
        assert(ls.subrange(p, p) =~= Seq::<Seq<char>>::empty());
    } else {
        match spec_tokenize(ls[p]) {
            LineTokenV::Headline { level: l, .. } => {
                if l <= level {
                    assert(ls.subrange(p, p) =~= Seq::<Seq<char>>::empty());
                } else {
                    lemma_section_round(ls, p, l);
                    let (child, p2) = spec_section(ls, p, l)->0;
                    lemma_body_round(ls, p2, level);
                    let (c, ch, q) = section_body(ls, p2, level)->0;
                    assert(p2 == ls.len() || spec_tokenize(ls[p2]) is Headline);
                    assert(c.len() == 0);
                    lemma_ser_range(ls, p, p2, q);
                    let r = section_body(ls, p, level)->0;
                    assert(r.1 == seq![child] + ch);
                    assert((seq![child] + ch).drop_first() =~= ch);
                    assert(ser_blocks(r.0) + ser_sections(r.1) =~= ser_lines(ls.subrange(p, q)));
                }
            },
            _ => {
                lemma_block_round(ls, p);
                let (b, p2) = spec_block(ls, p)->0;
                lemma_body_round(ls, p2, level);
                let (c, ch, q) = section_body(ls, p2, level)->0;
                lemma_ser_range(ls, p, p2, q);
                let r = section_body(ls, p, level)->0;
                assert(r.0 == seq![b] + c);
                assert((seq![b] + c).drop_first() =~= c);
                assert(ser_blocks(r.0) + ser_sections(r.1) =~= ser_lines(ls.subrange(p, q)));
            },
        }
    }
}

proof fn lemma_top_round(ls: Seq<Seq<char>>, p: int)
    requires
        0 <= p <= ls.len(),
        canonical_from(ls, p, false),
        p < ls.len() ==> spec_tokenize(ls[p]) is Headline,
    ensures
        top_sections(ls, p) is Some,
        ser_sections(top_sections(ls, p)->0) == ser_lines(ls.subrange(p, ls.len() as int)),
    decreases ls.len() - p,
{
    if p == ls.len() {
        assert(ls.subrange(p, p) =~= Seq::<Seq<char>>::empty());
        assert(ser_sections(Seq::<SectionV>::empty()) == Seq::<char>::empty());
        assert(ser_lines(Seq::<Seq<char>>::empty()) == Seq::<char>::empty());
    } else {
        let level = spec_tokenize(ls[p])->Headline_level;
        lemma_section_round(ls, p, level);
        let (sec, p2) = spec_section(ls, p, level)->0;
        lemma_top_round(ls, p2);
        let rest = top_sections(ls, p2)->0;
        lemma_ser_range(ls, p, p2, ls.len() as int);
        assert((seq![sec] + rest).drop_first() =~= rest);
    }
}

proof fn lemma_preamble_round(ls: Seq<Seq<char>>, p: int, keywords_allowed: bool)
    requires
        0 <= p <= ls.len(),
        canonical_from(ls, p, keywords_allowed),
    ensures
        preamble(ls, p) is Some,
        p <= (preamble(ls, p)->0).2 <= ls.len(),
        ser_keywords((preamble(ls, p)->0).0) + ser_blocks((preamble(ls, p)->0).1) == ser_lines(
            ls.subrange(p, (preamble(ls, p)->0).2),
        ),
        (preamble(ls, p)->0).2 < ls.len() ==> spec_tokenize(ls[(preamble(ls, p)->0).2]) is Headline,
        canonical_from(ls, (preamble(ls, p)->0).2, false),
        !keywords_allowed ==> (preamble(ls, p)->0).0.len() == 0,
    decreases ls.len() - p,
{
    assert(ser_lines(Seq::<Seq<char>>::empty()) == Seq::<char>::empty());
    assert(ser_blocks(Seq::<BlockV>::empty()) == Seq::<char>::empty());
    assert(ser_keywords(Seq::<KeywordV>::empty()) == Seq::<char>::empty());
    if p == ls.len() {
        assert(ls.subrange(p, p) =~= Seq::<Seq<char>>::empty());
    } else {
        match spec_tokenize(ls[p]) {
            LineTokenV::Headline { .. } => {
                assert(ls.subrange(p, p) =~= Seq::<Seq<char>>::empty());
            },
            LineTokenV::Keyword { key, value } => {
                lemma_preamble_round(ls, p + 1, true);
                let (k, b, q) = preamble(ls, p + 1)->0;
                lemma_ser_range_first(ls, p, q);
                let r = preamble(ls, p)->0;
                assert(r.0 == seq![KeywordV { key, value }] + k);
                assert(r.0.drop_first() =~= k);
                assert(ser_keywords(r.0) + ser_blocks(r.1) =~= ser_lines(ls.subrange(p, q)));
            },
            _ => {
                lemma_block_round(ls, p);
                let (blk, p2) = spec_block(ls, p)->0;
                lemma_preamble_round(ls, p2, false);
                let (k, b, q) = preamble(ls, p2)->0;
                lemma_ser_range(ls, p, p2, q);
                let r = preamble(ls, p)->0;
                assert(r.1 == seq![blk] + b);
                assert(r.1.drop_first() =~= b);
                assert(ser_keywords(r.0) + ser_blocks(r.1) =~= ser_lines(ls.subrange(p, q)));
            },
        }
    }
}

/// Reading back what is written: a file of plain lines, each followed by a
/// newline, whose keyword lines come first and whose every line and block is
/// one the serializer writes in the same way, parses to a document that
/// serializes to exactly that file.
pub proof fn law_roundtrip(ls: Seq<Seq<char>>)
    requires
        plain_lines(ls),
        canonical_from(ls, 0, true),
    ensures
        spec_parse(ser_lines(ls)) is Some,
        spec_serialize(spec_parse(ser_lines(ls))->0) == ser_lines(ls),
{
    lemma_lines_of_ser_lines(ls);
    lemma_preamble_round(ls, 0, true);
    let (k, pre, p) = preamble(ls, 0)->0;
    lemma_top_round(ls, p);
    let secs = top_sections(ls, p)->0;
    lemma_ser_range(ls, 0, p, ls.len() as int);
    assert(ls.subrange(0, ls.len() as int) =~= ls);
    let doc = spec_parse_lines(ls)->0;
    assert(ser_sections(Seq::<SectionV>::empty()) == Seq::<char>::empty());
    if pre.len() > 0 {
        let first = SectionV { headline: None, content: pre, children: seq![] };
        assert((seq![first] + secs).drop_first() =~= secs);
        assert(ser_section(first) == ser_blocks(pre));
        assert(spec_serialize(doc) =~= ser_lines(ls));
    } else {
        assert(seq![] + secs =~= secs);
        assert(ser_blocks(pre) == Seq::<char>::empty());
        assert(spec_serialize(doc) =~= ser_lines(ls));
    }
}

// ── Inline text ───────────────────────────────────────────────────────────────

/// Whether, walking `s[i..end]` as the inline parser does, every link and
/// timestamp it meets ends within `end`, also inside emphasis and link
/// descriptions (which end before their own closing marker or brackets).
pub open spec fn fits(s: Seq<char>, start: int, i: int, end: int) -> bool
    decreases s.len() - i,
{
    if 0 <= start <= i && i < end && end <= s.len() {
        let c = s[i];
        if c == '[' && i + 1 < end && s[i + 1] == '[' && link_shape(s, i) is Some {
            let (j, d1, has_desc) = link_shape(s, i)->0;
            proof {
                lemma_find_from(s, i + 2, CharClass::CloseBracket);
            }
            if has_desc {
                proof {
                    lemma_find_from(s, j + 2, CharClass::CloseBracket);
                }
                &&& d1 + 2 <= end
                &&& fits(s, j + 2, j + 2, d1)
                &&& fits(s, start, d1 + 2, end)
            } else {
                &&& j + 2 <= end
                &&& fits(s, start, j + 2, end)
            }
        } else if is_marker(c) && (i == start || !char_is_alphanumeric(s[i - 1])) && markup_close(
            s,
            i,
            end,
        ) < end {
            let close = markup_close(s, i, end);
            proof {
                lemma_close_scan(s, c, i + 2, end);
            }
            fits(s, i + 1, i + 1, close) && fits(s, start, close + 1, end)
        } else if c == '<' && active_close(s, i) is Some {
            let j = active_close(s, i)->0;
            proof {
                lemma_find_from(s, i + 1, CharClass::GreaterOrNewline);
            }
            j + 1 <= end && fits(s, start, j + 1, end)
        } else if c == '[' && i + 1 < end && s[i + 1] != '[' && inactive_close(s, i) is Some {
            let j = inactive_close(s, i)->0;
            proof {
                lemma_find_from(s, i + 1, CharClass::CloseBracketOrNewline);
            }
            j + 1 <= end && fits(s, start, j + 1, end)
        } else {
            fits(s, start, i + 1, end)
        }
    } else {
        true
    }
}

proof fn lemma_ser_inlines_concat(a: Seq<InlineV>, b: Seq<InlineV>)
    ensures
        ser_inlines(a + b) == ser_inlines(a) + ser_inlines(b),
    decreases a.len(),
{
    if a.len() == 0 {
        assert(a + b =~= b);
        assert(ser_inlines(a) + ser_inlines(b) =~= ser_inlines(b));
    } else {
        assert((a + b).drop_first() =~= a.drop_first() + b);
        lemma_ser_inlines_concat(a.drop_first(), b);
        assert(ser_inlines(a + b) =~= ser_inlines(a) + ser_inlines(b));
    }
}

proof fn lemma_ser_flush_then(buf: Seq<char>, x: InlineV, rest: Seq<InlineV>)
    ensures
        ser_inlines(crate::inline::flush(buf) + seq![x] + rest) == buf + ser_inline(x)
            + ser_inlines(rest),
{
    let f = crate::inline::flush(buf);
    lemma_ser_inlines_concat(f + seq![x], rest);
    lemma_ser_inlines_concat(f, seq![x]);
    assert(seq![x].drop_first() =~= Seq::<InlineV>::empty());
    assert(ser_inlines(Seq::<InlineV>::empty()) == Seq::<char>::empty());
    assert(ser_inlines(seq![x]) =~= ser_inline(x));
    if buf.len() == 0 {
        assert(ser_inlines(f) == Seq::<char>::empty());
        assert(buf =~= Seq::<char>::empty());
    } else {
        assert(f.drop_first() =~= Seq::<InlineV>::empty());
        assert(f[0] == InlineV::Text(buf));
        assert(ser_inline(InlineV::Text(buf)) == buf);
        assert(ser_inlines(f) =~= buf);
    }
    assert(ser_inlines(f + seq![x] + rest) =~= buf + ser_inline(x) + ser_inlines(rest));
}

proof fn lemma_close_scan_marker(s: Seq<char>, marker: char, k: int, end: int)
    ensures
        close_scan(s, marker, k, end) < end ==> s[close_scan(s, marker, k, end)] == marker,
    decreases end - k,
{
    if k >= end || k < 1 || end > s.len() {
    } else if s[k] == marker && !crate::text::spec_is_whitespace(s[k - 1]) && (k + 1 >= end
        || !char_is_alphanumeric(s[k + 1])) {
    } else {
        lemma_close_scan_marker(s, marker, k + 1, end);
    }
}

proof fn lemma_link_round(s: Seq<char>, start: int, i: int, end: int, buf: Seq<char>)
    requires
        0 <= start <= i < end <= s.len(),
        fits(s, start, i, end),
        s[i] == '[' && i + 1 < end && s[i + 1] == '[' && link_shape(s, i) is Some,
    ensures
        ser_inlines(span_from(s, start, i, end, buf)) == buf + s.subrange(i, end),
    decreases s.len() - i, 1int,
{
    let (j, d1, has_desc) = link_shape(s, i)->0;
    lemma_find_from(s, i + 2, CharClass::CloseBracket);
    let url = s.subrange(i + 2, j);
    if has_desc {
        lemma_find_from(s, j + 2, CharClass::CloseBracket);
        let desc = span_from(s, j + 2, j + 2, d1, seq![]);
        lemma_span_round(s, j + 2, j + 2, d1, seq![]);
        let rest = span_from(s, start, d1 + 2, end, seq![]);
        lemma_span_round(s, start, d1 + 2, end, seq![]);
        let x = InlineV::Link { url, description: Some(desc) };
        lemma_ser_flush_then(buf, x, rest);
        assert(span_from(s, start, i, end, buf) == crate::inline::flush(buf) + seq![x] + rest);
        assert(ser_inline(x) =~= s.subrange(i, d1 + 2));
        assert(s.subrange(i, d1 + 2) + s.subrange(d1 + 2, end) =~= s.subrange(i, end));
        assert(buf + ser_inline(x) + ser_inlines(rest) =~= buf + s.subrange(i, end));
    } else {
        let rest = span_from(s, start, j + 2, end, seq![]);
        lemma_span_round(s, start, j + 2, end, seq![]);
        let x = InlineV::Link { url, description: None };
        lemma_ser_flush_then(buf, x, rest);
        assert(span_from(s, start, i, end, buf) == crate::inline::flush(buf) + seq![x] + rest);
        assert(ser_inline(x) =~= s.subrange(i, j + 2));
        assert(s.subrange(i, j + 2) + s.subrange(j + 2, end) =~= s.subrange(i, end));
        assert(buf + ser_inline(x) + ser_inlines(rest) =~= buf + s.subrange(i, end));
    }
}

proof fn lemma_markup_round(s: Seq<char>, start: int, i: int, end: int, buf: Seq<char>)
    requires
        0 <= start <= i < end <= s.len(),
        fits(s, start, i, end),
        !(s[i] == '[' && i + 1 < end && s[i + 1] == '[' && link_shape(s, i) is Some),
        is_marker(s[i]) && (i == start || !char_is_alphanumeric(s[i - 1])) && markup_close(
            s,
            i,
            end,
        ) < end,
    ensures
        ser_inlines(span_from(s, start, i, end, buf)) == buf + s.subrange(i, end),
    decreases s.len() - i, 1int,
{
    let c = s[i];
    let close = markup_close(s, i, end);
    lemma_close_scan(s, c, i + 2, end);
    lemma_close_scan_marker(s, c, i + 2, end);
    let inner = span_from(s, i + 1, i + 1, close, seq![]);
    lemma_span_round(s, i + 1, i + 1, close, seq![]);
    let rest = span_from(s, start, close + 1, end, seq![]);
    lemma_span_round(s, start, close + 1, end, seq![]);
    let x = markup_inline(c, inner, s.subrange(i + 1, close));
    lemma_ser_flush_then(buf, x, rest);
    assert(span_from(s, start, i, end, buf) == crate::inline::flush(buf) + seq![x] + rest);
    assert(s[close] == c);
    assert(ser_inline(x) =~= s.subrange(i, close + 1));
    assert(s.subrange(i, close + 1) + s.subrange(close + 1, end) =~= s.subrange(i, end));
    assert(buf + ser_inline(x) + ser_inlines(rest) =~= buf + s.subrange(i, end));
}

proof fn lemma_stamp_round(s: Seq<char>, start: int, i: int, end: int, buf: Seq<char>)
    requires
        0 <= start <= i < end <= s.len(),
        fits(s, start, i, end),
        !(s[i] == '[' && i + 1 < end && s[i + 1] == '[' && link_shape(s, i) is Some),
        !(is_marker(s[i]) && (i == start || !char_is_alphanumeric(s[i - 1])) && markup_close(
            s,
            i,
            end,
        ) < end),
        (s[i] == '<' && active_close(s, i) is Some) || (s[i] == '[' && i + 1 < end && s[i + 1]
            != '[' && inactive_close(s, i) is Some),
    ensures
        ser_inlines(span_from(s, start, i, end, buf)) == buf + s.subrange(i, end),
    decreases s.len() - i, 1int,
{
    let c = s[i];
    if c == '<' && active_close(s, i) is Some {
        let j = active_close(s, i)->0;
        lemma_find_from(s, i + 1, CharClass::GreaterOrNewline);
        let rest = span_from(s, start, j + 1, end, seq![]);
        lemma_span_round(s, start, j + 1, end, seq![]);
        let x = InlineV::Timestamp { kind: TimestampKind::Active, inner: s.subrange(i + 1, j) };
        lemma_ser_flush_then(buf, x, rest);
        assert(span_from(s, start, i, end, buf) == crate::inline::flush(buf) + seq![x] + rest);
        assert(ser_inline(x) =~= s.subrange(i, j + 1));
        assert(s.subrange(i, j + 1) + s.subrange(j + 1, end) =~= s.subrange(i, end));
        assert(buf + ser_inline(x) + ser_inlines(rest) =~= buf + s.subrange(i, end));
    } else {
        let j = inactive_close(s, i)->0;
        lemma_find_from(s, i + 1, CharClass::CloseBracketOrNewline);
        let rest = span_from(s, start, j + 1, end, seq![]);
        lemma_span_round(s, start, j + 1, end, seq![]);
        let x = InlineV::Timestamp { kind: TimestampKind::Inactive, inner: s.subrange(i + 1, j) };
        lemma_ser_flush_then(buf, x, rest);
        assert(span_from(s, start, i, end, buf) == crate::inline::flush(buf) + seq![x] + rest);
        assert(ser_inline(x) =~= s.subrange(i, j + 1));
        assert(s.subrange(i, j + 1) + s.subrange(j + 1, end) =~= s.subrange(i, end));
        assert(buf + ser_inline(x) + ser_inlines(rest) =~= buf + s.subrange(i, end));
    }
}

/// The inline elements of a fitting span write back its text, after the
/// pending plain text `buf`.
pub proof fn lemma_span_round(s: Seq<char>, start: int, i: int, end: int, buf: Seq<char>)
    requires
        0 <= start <= i <= end <= s.len(),
        fits(s, start, i, end),
    ensures
        ser_inlines(span_from(s, start, i, end, buf)) == buf + s.subrange(i, end),
    decreases s.len() - i, 2int,
{
    if i < end {
        let c = s[i];
        if c == '[' && i + 1 < end && s[i + 1] == '[' && link_shape(s, i) is Some {
            lemma_link_round(s, start, i, end, buf);
        } else if is_marker(c) && (i == start || !char_is_alphanumeric(s[i - 1])) && markup_close(
            s,
            i,
            end,
        ) < end {
            lemma_markup_round(s, start, i, end, buf);
        } else if (c == '<' && active_close(s, i) is Some) || (c == '[' && i + 1 < end && s[i + 1]
            != '[' && inactive_close(s, i) is Some) {
            lemma_stamp_round(s, start, i, end, buf);
        } else {
            lemma_span_round(s, start, i + 1, end, buf.push(c));
            assert(span_from(s, start, i, end, buf) == span_from(s, start, i + 1, end, buf.push(c)));
            assert(buf.push(c) + s.subrange(i + 1, end) =~= buf + s.subrange(i, end));
        }
    } else {
        assert(s.subrange(i, end) =~= Seq::<char>::empty());
        assert(ser_inlines(Seq::<InlineV>::empty()) == Seq::<char>::empty());
        if buf.len() == 0 {
            assert(buf + s.subrange(i, end) =~= Seq::<char>::empty());
        } else {
            let f = seq![InlineV::Text(buf)];
            assert(f.drop_first() =~= Seq::<InlineV>::empty());
            assert(f[0] == InlineV::Text(buf));
            assert(ser_inline(InlineV::Text(buf)) == buf);
            assert(ser_inlines(f) =~= buf);
            assert(buf + s.subrange(i, end) =~= buf);
        }
    }
}

/// Inline markup reads back as written: a line in which no link or
/// timestamp runs past the emphasis or link description it starts in is
/// written back, after parsing, as exactly itself.
pub proof fn law_inline_roundtrip(s: Seq<char>)
    requires
        fits(s, 0, 0, s.len() as int),
    ensures
        ser_inlines(spec_parse_inline(s)) == s,
{
    lemma_span_round(s, 0, 0, s.len() as int, seq![]);
    assert(Seq::<char>::empty() + s.subrange(0, s.len() as int) =~= s);
}

} // verus!
