//! Writing a document back to org-mode text.
use vstd::prelude::*;
use crate::document::{
    blocks_view, inlines_view, lemma_inline_view, lemma_section_view, lines_view, sections_view,
    strings_view, Block, BlockV, CheckboxState, Document, DocumentV, HeadlineV, Inline, InlineV,
    KeywordV, ListItemV, Section, SectionV, TimestampKind,
};
use crate::text::{push_char, push_str};

verus! {

/// The text of one inline element.
pub open spec fn ser_inline(x: InlineV) -> Seq<char>
    decreases x,
{
    match x {
        InlineV::Text(s) => s,
        InlineV::Bold(v) => seq!['*'] + ser_inlines(v) + seq!['*'],
        InlineV::Italic(v) => seq!['/'] + ser_inlines(v) + seq!['/'],
        InlineV::Underline(v) => seq!['_'] + ser_inlines(v) + seq!['_'],
        InlineV::Strikethrough(v) => seq!['+'] + ser_inlines(v) + seq!['+'],
        InlineV::Code(s) => seq!['~'] + s + seq!['~'],
        InlineV::Verbatim(s) => seq!['='] + s + seq!['='],
        InlineV::Link { url, description } => match description {
            Some(d) => seq!['[', '['] + url + seq![']', '['] + ser_inlines(d) + seq![']', ']'],
            None => seq!['[', '['] + url + seq![']', ']'],
        },
        InlineV::Timestamp { kind, inner } => match kind {
            TimestampKind::Active => seq!['<'] + inner + seq!['>'],
            TimestampKind::Inactive => seq!['['] + inner + seq![']'],
        },
    }
}

/// The text of a sequence of inline elements.
pub open spec fn ser_inlines(v: Seq<InlineV>) -> Seq<char>
    decreases v,
{
    if v.len() == 0 {
        seq![]
    } else {
        ser_inline(v[0]) + ser_inlines(v.drop_first())
    }
}

/// `items` joined with `sep` between consecutive items.
pub open spec fn join(items: Seq<Seq<char>>, sep: Seq<char>) -> Seq<char>
    decreases items.len(),
{
    if items.len() == 0 {
        seq![]
    } else if items.len() == 1 {
        items[0]
    } else {
        join(items.drop_last(), sep) + sep + items.last()
    }
}

/// `#+KEY: VALUE` lines.
pub open spec fn ser_keywords(ks: Seq<KeywordV>) -> Seq<char>
    decreases ks.len(),
{
    if ks.len() == 0 {
        seq![]
    } else {
        seq!['#', '+'] + ks[0].key + seq![':', ' '] + ks[0].value + seq!['\n'] + ser_keywords(
            ks.drop_first(),
        )
    }
}

/// A TODO keyword and the space after it.
pub open spec fn ser_todo(k: Option<Seq<char>>) -> Seq<char> {
    match k {
        Some(k) => k + seq![' '],
        None => seq![],
    }
}

/// `[#P] `.
pub open spec fn ser_priority(p: Option<char>) -> Seq<char> {
    match p {
        Some(p) => seq!['[', '#', p, ']', ' '],
        None => seq![],
    }
}

/// Two spaces and `:tag1:tag2:`, or nothing without tags.
pub open spec fn ser_tags(tags: Seq<Seq<char>>) -> Seq<char> {
    if tags.len() == 0 {
        seq![]
    } else {
        seq![' ', ' ', ':'] + join(tags, seq![':']) + seq![':']
    }
}

/// The line of a headline: stars, TODO keyword, priority, title, tags.
pub open spec fn ser_headline(h: HeadlineV) -> Seq<char> {
    Seq::new(h.level as nat, |i: int| '*') + seq![' '] + ser_todo(h.todo_keyword) + ser_priority(
        h.priority,
    ) + ser_inlines(h.title) + ser_tags(h.tags) + seq!['\n']
}

/// Each line followed by a newline.
pub open spec fn ser_lines(lines: Seq<Seq<char>>) -> Seq<char>
    decreases lines.len(),
{
    if lines.len() == 0 {
        seq![]
    } else {
        lines[0] + seq!['\n'] + ser_lines(lines.drop_first())
    }
}

pub open spec fn ser_checkbox(c: Option<CheckboxState>) -> Seq<char> {
    match c {
        Some(CheckboxState::Checked) => seq!['[', 'X', ']', ' '],
        Some(CheckboxState::Unchecked) => seq!['[', ' ', ']', ' '],
        Some(CheckboxState::Partial) => seq!['[', '-', ']', ' '],
        None => seq![],
    }
}

pub open spec fn ser_items(items: Seq<ListItemV>) -> Seq<char>
    decreases items.len(),
{
    if items.len() == 0 {
        seq![]
    } else {
        items[0].bullet + seq![' '] + ser_checkbox(items[0].checkbox) + ser_inlines(
            items[0].content,
        ) + seq!['\n'] + ser_items(items.drop_first())
    }
}

pub open spec fn ser_properties(ps: Seq<KeywordV>) -> Seq<char>
    decreases ps.len(),
{
    if ps.len() == 0 {
        seq![]
    } else {
        seq![':'] + ps[0].key + seq![':', ' '] + ps[0].value + seq!['\n'] + ser_properties(
            ps.drop_first(),
        )
    }
}

pub open spec fn ser_paragraph(lines: Seq<Seq<InlineV>>) -> Seq<char>
    decreases lines.len(),
{
    if lines.len() == 0 {
        seq![]
    } else {
        ser_inlines(lines[0]) + seq!['\n'] + ser_paragraph(lines.drop_first())
    }
}

/// `:END:` and a newline.
pub open spec fn lit_end_line() -> Seq<char> {
    seq![':', 'E', 'N', 'D', ':', '\n']
}

/// `#+begin_src`.
pub open spec fn lit_begin_src() -> Seq<char> {
    seq!['#', '+', 'b', 'e', 'g', 'i', 'n', '_', 's', 'r', 'c']
}

/// `#+end_src` and a newline.
pub open spec fn lit_end_src() -> Seq<char> {
    seq!['#', '+', 'e', 'n', 'd', '_', 's', 'r', 'c', '\n']
}

/// `:PROPERTIES:` and a newline.
pub open spec fn lit_properties() -> Seq<char> {
    seq![':', 'P', 'R', 'O', 'P', 'E', 'R', 'T', 'I', 'E', 'S', ':', '\n']
}

/// The text of one block.
pub open spec fn ser_block(b: BlockV) -> Seq<char> {
    match b {
        BlockV::Paragraph(lines) => ser_paragraph(lines),
        BlockV::BlankLine => seq!['\n'],
        BlockV::HorizontalRule => seq!['-', '-', '-', '-', '-', '\n'],
        BlockV::SrcBlock { language, body } => {
            let lang = match language {
                Some(l) => l,
                None => seq![],
            };
            (if lang.len() == 0 {
                lit_begin_src() + seq!['\n']
            } else {
                lit_begin_src() + seq![' '] + lang + seq!['\n']
            }) + (if body.len() == 0 {
                seq![]
            } else {
                body + seq!['\n']
            }) + lit_end_src()
        },
        BlockV::PropertyDrawer(ps) => lit_properties() + ser_properties(ps) + lit_end_line(),
        BlockV::Drawer { name, lines } => seq![':'] + name + seq![':', '\n'] + ser_lines(lines)
            + lit_end_line(),
        BlockV::List(items) => ser_items(items),
    }
}

pub open spec fn ser_blocks(bs: Seq<BlockV>) -> Seq<char>
    decreases bs.len(),
{
    if bs.len() == 0 {
        seq![]
    } else {
        ser_block(bs[0]) + ser_blocks(bs.drop_first())
    }
}

/// The text of a section: its headline line, its blocks, then its children.
pub open spec fn ser_section(s: SectionV) -> Seq<char>
    decreases s,
{
    (match s.headline {
        Some(h) => ser_headline(h),
        None => seq![],
    }) + ser_blocks(s.content) + ser_sections(s.children)
}

pub open spec fn ser_sections(v: Seq<SectionV>) -> Seq<char>
    decreases v,
{
    if v.len() == 0 {
        seq![]
    } else {
        ser_section(v[0]) + ser_sections(v.drop_first())
    }
}

/// The org-mode text of a document.
pub open spec fn spec_serialize(d: DocumentV) -> Seq<char> {
    ser_keywords(d.keywords) + ser_sections(d.sections)
}

/// Serialize a `Document` back to org-mode text.
///
/// The goal is faithful round-tripping: `serialize(&parse(s))` should equal
/// `s` for well-formed org files. Some edge cases (e.g. exotic whitespace in
/// keyword lines) may not be bit-identical yet.
pub fn serialize(doc: &Document) -> (out: String)
    ensures
        out@ == spec_serialize(doc@),
{
    let mut out = String::new();
    let ghost ks = doc@.keywords;
    let mut i: usize = 0;
    assert(ks.skip(0) == ks);
    while i < doc.keywords.len()
        invariant
            i <= doc.keywords@.len(),
            ks == doc@.keywords,
            out@ + ser_keywords(ks.skip(i as int)) == ser_keywords(ks),
        decreases doc.keywords@.len() - i,
    {
        let kw = &doc.keywords[i];
        assert(ks.skip(i as int).drop_first() == ks.skip(i + 1));
        let ghost before = out@;
        push_char(&mut out, '#');
        push_char(&mut out, '+');
        push_str(&mut out, kw.key.as_str());
        push_char(&mut out, ':');
        push_char(&mut out, ' ');
        push_str(&mut out, kw.value.as_str());
        push_char(&mut out, '\n');
        assert(out@ == before + (seq!['#', '+'] + kw.key@ + seq![':', ' '] + kw.value@ + seq![
            '\n',
        ]));
        i += 1;
    }
    assert(ks.skip(ks.len() as int) == Seq::<KeywordV>::empty());
    let ghost ss = sections_view(doc.sections@);
    let mut j: usize = 0;
    assert(ss.skip(0) == ss);
    while j < doc.sections.len()
        invariant
            j <= doc.sections@.len(),
            ss == sections_view(doc.sections@),
            out@ + ser_sections(ss.skip(j as int)) == ser_keywords(ks) + ser_sections(ss),
        decreases doc.sections@.len() - j,
    {
        assert(ss.skip(j as int).drop_first() == ss.skip(j + 1));
        assert(ss.skip(j as int)[0] == doc.sections@[j as int]@);
        serialize_section(&mut out, &doc.sections[j]);
        j += 1;
    }
    assert(ss.skip(ss.len() as int) == Seq::<SectionV>::empty());
    out
}

fn serialize_section(out: &mut String, section: &Section)
    ensures
        final(out)@ == old(out)@ + ser_section(section@),
    decreases section,
{
    proof {
        lemma_section_view(*section);
    }
    let ghost start = out@;
    if let Some(h) = &section.headline {
        serialize_headline(out, h);
    }
    let ghost after_head = out@;
    let ghost bs = blocks_view(section.content@);
    let mut i: usize = 0;
    assert(bs.skip(0) == bs);
    while i < section.content.len()
        invariant
            i <= section.content@.len(),
            bs == blocks_view(section.content@),
            out@ + ser_blocks(bs.skip(i as int)) == after_head + ser_blocks(bs),
        decreases section.content@.len() - i,
    {
        assert(bs.skip(i as int).drop_first() == bs.skip(i + 1));
        assert(bs.skip(i as int)[0] == section.content@[i as int]@);
        serialize_block(out, &section.content[i]);
        i += 1;
    }
    assert(bs.skip(bs.len() as int) == Seq::<BlockV>::empty());
    let ghost after_blocks = out@;
    let ghost cs = sections_view(section.children@);
    let mut j: usize = 0;
    assert(cs.skip(0) == cs);
    while j < section.children.len()
        invariant
            j <= section.children@.len(),
            cs == sections_view(section.children@),
            out@ + ser_sections(cs.skip(j as int)) == after_blocks + ser_sections(cs),
        decreases section.children@.len() - j,
    {
        assert(cs.skip(j as int).drop_first() == cs.skip(j + 1));
        assert(cs.skip(j as int)[0] == section.children@[j as int]@);
        assert(decreases_to!(section => section.children@[j as int]));
        serialize_section(out, &section.children[j]);
        j += 1;
    }
    assert(cs.skip(cs.len() as int) == Seq::<SectionV>::empty());
}

fn serialize_headline(out: &mut String, h: &crate::document::Headline)
    ensures
        final(out)@ == old(out)@ + ser_headline(h@),
{
    let ghost start = out@;
    push_stars(out, h.level);
    push_char(out, ' ');
    let ghost a = out@;
    push_todo(out, &h.todo_keyword);
    let ghost b = out@;
    push_priority(out, h.priority);
    let ghost c = out@;
    serialize_inline_vec(out, &h.title);
    let ghost d = out@;
    if h.tags.len() > 0 {
        push_char(out, ' ');
        push_char(out, ' ');
        push_char(out, ':');
        push_joined(out, &h.tags);
        push_char(out, ':');
    }
    let ghost e = out@;
    assert(e =~= d + ser_tags(strings_view(h.tags@)));
    push_char(out, '\n');
    assert(out@ =~= start + ser_headline(h@));
}

fn push_todo(out: &mut String, k: &Option<String>)
    ensures
        final(out)@ == old(out)@ + ser_todo(crate::document::opt_string_view(*k)),
{
    if let Some(kw) = k {
        push_str(out, kw.as_str());
        push_char(out, ' ');
    }
}

fn push_priority(out: &mut String, p: Option<char>)
    ensures
        final(out)@ == old(out)@ + ser_priority(p),
{
    let ghost start = out@;
    if let Some(p) = p {
        push_char(out, '[');
        push_char(out, '#');
        push_char(out, p);
        push_char(out, ']');
        push_char(out, ' ');
    }
    assert(out@ =~= start + ser_priority(p));
}

fn push_stars(out: &mut String, level: u8)
    ensures
        final(out)@ == old(out)@ + Seq::new(level as nat, |i: int| '*'),
{
    let ghost start = out@;
    let mut k: u8 = 0;
    while k < level
        invariant
            k <= level,
            out@ == start + Seq::new(k as nat, |i: int| '*'),
        decreases level - k,
    {
        push_char(out, '*');
        assert(out@ =~= start + Seq::new((k + 1) as nat, |i: int| '*'));
        k += 1;
    }
}

/// Append the strings of `items` joined by `:`.
fn push_joined(out: &mut String, items: &Vec<String>)
    ensures
        final(out)@ == old(out)@ + join(strings_view(items@), seq![':']),
{
    let ghost start = out@;
    let ghost v = strings_view(items@);
    let mut t: usize = 0;
    assert(v.take(0) =~= Seq::<Seq<char>>::empty());
    while t < items.len()
        invariant
            t <= items@.len(),
            v == strings_view(items@),
            out@ == start + join(v.take(t as int), seq![':']),
        decreases items@.len() - t,
    {
        if t > 0 {
            push_char(out, ':');
        }
        push_str(out, items[t].as_str());
        assert(v.take(t + 1).drop_last() =~= v.take(t as int));
        assert(v.take(t + 1).last() == items@[t as int]@);
        if t == 0 {
            assert(v.take(1) =~= seq![items@[0]@]);
        }
        t += 1;
    }
    assert(v.take(v.len() as int) == v);
}

fn serialize_block(out: &mut String, block: &Block)
    ensures
        final(out)@ == old(out)@ + ser_block(block@),
{
    let ghost start = out@;
    match block {
        Block::Paragraph(lines) => {
            let ghost lv = lines_view(lines@);
            let mut i: usize = 0;
            assert(lv.skip(0) == lv);
            while i < lines.len()
                invariant
                    i <= lines@.len(),
                    lv == lines_view(lines@),
                    out@ + ser_paragraph(lv.skip(i as int)) == start + ser_paragraph(lv),
                decreases lines@.len() - i,
            {
                assert(lv.skip(i as int).drop_first() == lv.skip(i + 1));
                let s = serialize_inlines(lines[i].as_slice());
                push_str(out, s.as_str());
                push_char(out, '\n');
                i += 1;
            }
            assert(lv.skip(lv.len() as int) == Seq::<Seq<InlineV>>::empty());
        },
        Block::BlankLine => push_char(out, '\n'),
        Block::HorizontalRule => {
            push_char(out, '-');
            push_char(out, '-');
            push_char(out, '-');
            push_char(out, '-');
            push_char(out, '-');
            push_char(out, '\n');
            assert(out@ =~= start + ser_block(block@));
        },
        Block::SrcBlock(src) => {
            push_begin_src(out);
            let has_lang = match &src.language {
                Some(l) => !l.as_str().is_empty(),
                None => false,
            };
            if has_lang {
                push_char(out, ' ');
                match &src.language {
                    Some(l) => push_str(out, l.as_str()),
                    None => {},
                }
            }
            push_char(out, '\n');
            if !src.body.as_str().is_empty() {
                push_str(out, src.body.as_str());
                push_char(out, '\n');
            }
            push_end_src(out);
            assert(out@ =~= start + ser_block(block@));
        },
        Block::PropertyDrawer(props) => {
            push_properties(out);
            let ghost ps = Seq::new(props@.len(), |i: int| props@[i]@);
            let ghost mid = out@;
            let mut i: usize = 0;
            assert(ps.skip(0) == ps);
            while i < props.len()
                invariant
                    i <= props@.len(),
                    ps == Seq::new(props@.len(), |i: int| props@[i]@),
                    out@ + ser_properties(ps.skip(i as int)) == mid + ser_properties(ps),
                decreases props@.len() - i,
            {
                assert(ps.skip(i as int).drop_first() == ps.skip(i + 1));
                let p = &props[i];
                let ghost before = out@;
                push_char(out, ':');
                push_str(out, p.key.as_str());
                push_char(out, ':');
                push_char(out, ' ');
                push_str(out, p.value.as_str());
                push_char(out, '\n');
                assert(out@ == before + (seq![':'] + p.key@ + seq![':', ' '] + p.value@ + seq![
                    '\n',
                ]));
                i += 1;
            }
            assert(ps.skip(ps.len() as int) == Seq::<KeywordV>::empty());
            push_end_line(out);
            assert(out@ =~= start + ser_block(block@));
        },
        Block::Drawer { name, lines } => {
            push_char(out, ':');
            push_str(out, name.as_str());
            push_char(out, ':');
            push_char(out, '\n');
            let ghost ls = strings_view(lines@);
            let ghost mid = out@;
            let mut i: usize = 0;
            assert(ls.skip(0) == ls);
            while i < lines.len()
                invariant
                    i <= lines@.len(),
                    ls == strings_view(lines@),
                    out@ + ser_lines(ls.skip(i as int)) == mid + ser_lines(ls),
                decreases lines@.len() - i,
            {
                assert(ls.skip(i as int).drop_first() == ls.skip(i + 1));
                push_str(out, lines[i].as_str());
                push_char(out, '\n');
                i += 1;
            }
            assert(ls.skip(ls.len() as int) == Seq::<Seq<char>>::empty());
            push_end_line(out);
            assert(out@ =~= start + ser_block(block@));
        },
        Block::List(list) => {
            let ghost items = Seq::new(list.items@.len(), |i: int| list.items@[i]@);
            let mut i: usize = 0;
            assert(items.skip(0) == items);
            while i < list.items.len()
                invariant
                    i <= list.items@.len(),
                    items == Seq::new(list.items@.len(), |i: int| list.items@[i]@),
                    out@ + ser_items(items.skip(i as int)) == start + ser_items(items),
                decreases list.items@.len() - i,
            {
                assert(items.skip(i as int).drop_first() == items.skip(i + 1));
                let item = &list.items[i];
                let ghost before = out@;
                push_str(out, item.bullet.as_str());
                push_char(out, ' ');
                match item.checkbox {
                    Some(CheckboxState::Checked) => {
                        push_char(out, '[');
                        push_char(out, 'X');
                        push_char(out, ']');
                        push_char(out, ' ');
                    },
                    Some(CheckboxState::Unchecked) => {
                        push_char(out, '[');
                        push_char(out, ' ');
                        push_char(out, ']');
                        push_char(out, ' ');
                    },
                    Some(CheckboxState::Partial) => {
                        push_char(out, '[');
                        push_char(out, '-');
                        push_char(out, ']');
                        push_char(out, ' ');
                    },
                    None => {},
                }
                let s = serialize_inlines(item.content.as_slice());
                push_str(out, s.as_str());
                push_char(out, '\n');
                assert(out@ =~= before + (item@.bullet + seq![' '] + ser_checkbox(item@.checkbox)
                    + ser_inlines(item@.content) + seq!['\n']));
                i += 1;
            }
            assert(items.skip(items.len() as int) == Seq::<ListItemV>::empty());
        },
    }
}

fn push_begin_src(out: &mut String)
    ensures
        final(out)@ == old(out)@ + lit_begin_src(),
{
    let ghost start = out@;
    push_char(out, '#');
    push_char(out, '+');
    push_char(out, 'b');
    push_char(out, 'e');
    push_char(out, 'g');
    push_char(out, 'i');
    push_char(out, 'n');
    push_char(out, '_');
    push_char(out, 's');
    push_char(out, 'r');
    push_char(out, 'c');
    assert(out@ =~= start + lit_begin_src());
}

fn push_end_src(out: &mut String)
    ensures
        final(out)@ == old(out)@ + lit_end_src(),
{
    let ghost start = out@;
    push_char(out, '#');
    push_char(out, '+');
    push_char(out, 'e');
    push_char(out, 'n');
    push_char(out, 'd');
    push_char(out, '_');
    push_char(out, 's');
    push_char(out, 'r');
    push_char(out, 'c');
    push_char(out, '\n');
    assert(out@ =~= start + lit_end_src());
}

fn push_properties(out: &mut String)
    ensures
        final(out)@ == old(out)@ + lit_properties(),
{
    let ghost start = out@;
    push_char(out, ':');
    push_char(out, 'P');
    push_char(out, 'R');
    push_char(out, 'O');
    push_char(out, 'P');
    push_char(out, 'E');
    push_char(out, 'R');
    push_char(out, 'T');
    push_char(out, 'I');
    push_char(out, 'E');
    push_char(out, 'S');
    push_char(out, ':');
    push_char(out, '\n');
    assert(out@ =~= start + lit_properties());
}

fn push_end_line(out: &mut String)
    ensures
        final(out)@ == old(out)@ + lit_end_line(),
{
    let ghost start = out@;
    push_char(out, ':');
    push_char(out, 'E');
    push_char(out, 'N');
    push_char(out, 'D');
    push_char(out, ':');
    push_char(out, '\n');
    assert(out@ =~= start + lit_end_line());
}

/// The org-mode text of a sequence of inline elements.
pub fn serialize_inlines(inlines: &[Inline]) -> (out: String)
    ensures
        out@ == ser_inlines(inlines_view(inlines@)),
{
    let mut out = String::new();
    let ghost w = inlines_view(inlines@);
    let mut i: usize = 0;
    assert(w.skip(0) == w);
    while i < inlines.len()
        invariant
            i <= inlines@.len(),
            w == inlines_view(inlines@),
            out@ + ser_inlines(w.skip(i as int)) == ser_inlines(w),
        decreases inlines@.len() - i,
    {
        assert(w.skip(i as int).drop_first() == w.skip(i + 1));
        assert(w.skip(i as int)[0] == inlines@[i as int]@);
        serialize_inline(&mut out, &inlines[i]);
        i += 1;
    }
    assert(w.skip(w.len() as int) == Seq::<InlineV>::empty());
    out
}

fn serialize_inline_vec(out: &mut String, inlines: &Vec<Inline>)
    ensures
        final(out)@ == old(out)@ + ser_inlines(inlines_view(inlines@)),
    decreases inlines,
{
    let ghost start = out@;
    let ghost w = inlines_view(inlines@);
    let mut i: usize = 0;
    assert(w.skip(0) == w);
    while i < inlines.len()
        invariant
            i <= inlines@.len(),
            w == inlines_view(inlines@),
            out@ + ser_inlines(w.skip(i as int)) == start + ser_inlines(w),
        decreases inlines@.len() - i,
    {
        assert(w.skip(i as int).drop_first() == w.skip(i + 1));
        assert(w.skip(i as int)[0] == inlines@[i as int]@);
        assert(decreases_to!(inlines => inlines@[i as int]));
        serialize_inline(out, &inlines[i]);
        i += 1;
    }
    assert(w.skip(w.len() as int) == Seq::<InlineV>::empty());
}

fn serialize_inline(out: &mut String, inline: &Inline)
    ensures
        final(out)@ == old(out)@ + ser_inline(inline@),
    decreases inline,
{
    let ghost before = out@;
    proof {
        lemma_inline_view(*inline);
    }
    match inline {
        Inline::Text(s) => push_str(out, s.as_str()),
        Inline::Bold(inner) => {
            push_char(out, '*');
            serialize_inline_vec(out, inner);
            push_char(out, '*');
        },
        Inline::Italic(inner) => {
            push_char(out, '/');
            serialize_inline_vec(out, inner);
            push_char(out, '/');
        },
        Inline::Underline(inner) => {
            push_char(out, '_');
            serialize_inline_vec(out, inner);
            push_char(out, '_');
        },
        Inline::Strikethrough(inner) => {
            push_char(out, '+');
            serialize_inline_vec(out, inner);
            push_char(out, '+');
        },
        Inline::Code(s) => {
            push_char(out, '~');
            push_str(out, s.as_str());
            push_char(out, '~');
        },
        Inline::Verbatim(s) => {
            push_char(out, '=');
            push_str(out, s.as_str());
            push_char(out, '=');
        },
        Inline::Link(link) => {
            push_char(out, '[');
            push_char(out, '[');
            push_str(out, link.url.as_str());
            push_char(out, ']');
            if let Some(desc) = &link.description {
                push_char(out, '[');
                serialize_inline_vec(out, desc);
                push_char(out, ']');
            }
            push_char(out, ']');
        },
        Inline::Timestamp(ts) => {
            let (open, close) = match ts.kind {
                TimestampKind::Active => ('<', '>'),
                TimestampKind::Inactive => ('[', ']'),
            };
            push_char(out, open);
            push_str(out, ts.inner.as_str());
            push_char(out, close);
        },
    }
    assert(out@ =~= before + ser_inline(inline@));
}

} // verus!
