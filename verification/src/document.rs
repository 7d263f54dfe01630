//! The document tree of an org-mode file, and its mathematical model.
use vstd::prelude::*;

verus! {

/// A parsed org-mode document.
#[derive(Debug, Clone, PartialEq, Default)]
pub struct Document {
    /// File-level keywords: #+title:, #+author:, etc.
    pub keywords: Vec<Keyword>,
    /// Top-level sections (preamble + headline sections).
    pub sections: Vec<Section>,
}

/// A #+KEY: VALUE line at the file level.
#[derive(Debug, Clone, PartialEq)]
pub struct Keyword {
    pub key: String,
    pub value: String,
}

/// A section: an optional headline plus its content and children.
///
/// `headline = None` for the preamble (content before the first heading).
#[derive(Debug, PartialEq)]
pub struct Section {
    pub headline: Option<Headline>,
    pub content: Vec<Block>,
    pub children: Vec<Section>,
}

/// A heading line (`* …`, `** …`, …).
#[derive(Debug, Clone, PartialEq)]
pub struct Headline {
    pub level: u8,
    pub todo_keyword: Option<String>,
    pub priority: Option<char>,
    /// Title as inline elements.
    pub title: Vec<Inline>,
    pub tags: Vec<String>,
}

/// A block-level element inside a section.
///
/// `Paragraph` stores lines individually so the serializer can reconstruct
/// the source's line structure for a faithful round-trip.
#[derive(Debug, Clone, PartialEq)]
pub enum Block {
    /// Each inner `Vec<Inline>` is one source line of a paragraph.
    Paragraph(Vec<Vec<Inline>>),
    List(List),
    SrcBlock(SrcBlock),
    PropertyDrawer(Vec<Property>),
    /// A named drawer other than PROPERTIES (e.g. LOGBOOK).
    Drawer { name: String, lines: Vec<String> },
    HorizontalRule,
    BlankLine,
}

#[derive(Debug, Clone, PartialEq)]
pub struct List {
    pub items: Vec<ListItem>,
}

#[derive(Debug, Clone, PartialEq)]
pub struct ListItem {
    /// The bullet character(s): "-", "+", "1.", etc.
    pub bullet: String,
    pub checkbox: Option<CheckboxState>,
    pub content: Vec<Inline>,
}

#[derive(Debug, Clone, Copy, PartialEq, Eq, Structural)]
pub enum CheckboxState {
    /// `[X]`
    Checked,
    /// `[ ]`
    Unchecked,
    /// `[-]`
    Partial,
}

#[derive(Debug, Clone, PartialEq)]
pub struct SrcBlock {
    pub language: Option<String>,
    /// Raw body, preserving internal line breaks.
    pub body: String,
}

/// A :KEY: VALUE line inside a PROPERTIES drawer.
#[derive(Debug, Clone, PartialEq)]
pub struct Property {
    pub key: String,
    pub value: String,
}

/// An inline element.
#[derive(Debug, PartialEq)]
pub enum Inline {
    Text(String),
    Bold(Vec<Inline>),
    Italic(Vec<Inline>),
    Underline(Vec<Inline>),
    Strikethrough(Vec<Inline>),
    Code(String),
    Verbatim(String),
    Link(Link),
    Timestamp(Timestamp),
}

#[derive(Debug, Clone, PartialEq)]
pub struct Link {
    pub url: String,
    /// `None` for `[[url]]`, `Some(…)` for `[[url][description]]`.
    pub description: Option<Vec<Inline>>,
}

#[derive(Debug, Clone, PartialEq)]
pub struct Timestamp {
    pub kind: TimestampKind,
    /// Raw content between the delimiters (e.g. `"2026-03-05 Thu"`).
    pub inner: String,
}

#[derive(Debug, Clone, Copy, PartialEq, Eq, Structural)]
pub enum TimestampKind {
    /// `<…>`
    Active,
    /// `[…]`
    Inactive,
}

// ── Mathematical model ──────────────────────────────────────────────────────

pub struct DocumentV {
    pub keywords: Seq<KeywordV>,
    pub sections: Seq<SectionV>,
}

pub struct KeywordV {
    pub key: Seq<char>,
    pub value: Seq<char>,
}

pub struct SectionV {
    pub headline: Option<HeadlineV>,
    pub content: Seq<BlockV>,
    pub children: Seq<SectionV>,
}

pub struct HeadlineV {
    pub level: u8,
    pub todo_keyword: Option<Seq<char>>,
    pub priority: Option<char>,
    pub title: Seq<InlineV>,
    pub tags: Seq<Seq<char>>,
}

pub enum BlockV {
    Paragraph(Seq<Seq<InlineV>>),
    List(Seq<ListItemV>),
    SrcBlock { language: Option<Seq<char>>, body: Seq<char> },
    PropertyDrawer(Seq<KeywordV>),
    Drawer { name: Seq<char>, lines: Seq<Seq<char>> },
    HorizontalRule,
    BlankLine,
}

pub struct ListItemV {
    pub bullet: Seq<char>,
    pub checkbox: Option<CheckboxState>,
    pub content: Seq<InlineV>,
}

pub enum InlineV {
    Text(Seq<char>),
    Bold(Seq<InlineV>),
    Italic(Seq<InlineV>),
    Underline(Seq<InlineV>),
    Strikethrough(Seq<InlineV>),
    Code(Seq<char>),
    Verbatim(Seq<char>),
    Link { url: Seq<char>, description: Option<Seq<InlineV>> },
    Timestamp { kind: TimestampKind, inner: Seq<char> },
}

pub open spec fn strings_view(s: Seq<String>) -> Seq<Seq<char>> {
    Seq::new(s.len(), |i: int| s[i]@)
}

pub open spec fn opt_string_view(s: Option<String>) -> Option<Seq<char>> {
    match s {
        Some(x) => Some(x@),
        None => None,
    }
}

impl Inline {
    pub open spec fn view_inline(&self) -> InlineV
        decreases self,
    {
        match self {
            Inline::Text(s) => InlineV::Text(s@),
            Inline::Bold(v) => InlineV::Bold(
                Seq::new(
                    v@.len(),
                    |i: int|
                        if 0 <= i < v@.len() {
                            v@[i].view_inline()
                        } else {
                            InlineV::Text(seq![])
                        },
                ),
            ),
            Inline::Italic(v) => InlineV::Italic(
                Seq::new(
                    v@.len(),
                    |i: int|
                        if 0 <= i < v@.len() {
                            v@[i].view_inline()
                        } else {
                            InlineV::Text(seq![])
                        },
                ),
            ),
            Inline::Underline(v) => InlineV::Underline(
                Seq::new(
                    v@.len(),
                    |i: int|
                        if 0 <= i < v@.len() {
                            v@[i].view_inline()
                        } else {
                            InlineV::Text(seq![])
                        },
                ),
            ),
            Inline::Strikethrough(v) => InlineV::Strikethrough(
                Seq::new(
                    v@.len(),
                    |i: int|
                        if 0 <= i < v@.len() {
                            v@[i].view_inline()
                        } else {
                            InlineV::Text(seq![])
                        },
                ),
            ),
            Inline::Code(s) => InlineV::Code(s@),
            Inline::Verbatim(s) => InlineV::Verbatim(s@),
            Inline::Link(l) => InlineV::Link {
                url: l.url@,
                description: match &l.description {
                    Some(v) => Some(
                        Seq::new(
                            v@.len(),
                            |i: int|
                                if 0 <= i < v@.len() {
                                    v@[i].view_inline()
                                } else {
                                    InlineV::Text(seq![])
                                },
                        ),
                    ),
                    None => None,
                },
            },
            Inline::Timestamp(t) => InlineV::Timestamp { kind: t.kind, inner: t.inner@ },
        }
    }
}

/// The model of a sequence of inline elements.
pub open spec fn inlines_view(v: Seq<Inline>) -> Seq<InlineV> {
    Seq::new(v.len(), |i: int| v[i].view_inline())
}

pub open spec fn lines_view(v: Seq<Vec<Inline>>) -> Seq<Seq<InlineV>> {
    Seq::new(v.len(), |i: int| inlines_view(v[i]@))
}

impl View for Inline {
    type V = InlineV;

    open spec fn view(&self) -> InlineV {
        self.view_inline()
    }
}

impl View for Keyword {
    type V = KeywordV;

    open spec fn view(&self) -> KeywordV {
        KeywordV { key: self.key@, value: self.value@ }
    }
}

impl View for Property {
    type V = KeywordV;

    open spec fn view(&self) -> KeywordV {
        KeywordV { key: self.key@, value: self.value@ }
    }
}

impl View for ListItem {
    type V = ListItemV;

    open spec fn view(&self) -> ListItemV {
        ListItemV {
            bullet: self.bullet@,
            checkbox: self.checkbox,
            content: inlines_view(self.content@),
        }
    }
}

impl View for Headline {
    type V = HeadlineV;

    open spec fn view(&self) -> HeadlineV {
        HeadlineV {
            level: self.level,
            todo_keyword: opt_string_view(self.todo_keyword),
            priority: self.priority,
            title: inlines_view(self.title@),
            tags: strings_view(self.tags@),
        }
    }
}

impl View for Block {
    type V = BlockV;

    open spec fn view(&self) -> BlockV {
        match self {
            Block::Paragraph(lines) => BlockV::Paragraph(lines_view(lines@)),
            Block::List(l) => BlockV::List(Seq::new(l.items@.len(), |i: int| l.items@[i]@)),
            Block::SrcBlock(s) => BlockV::SrcBlock {
                language: opt_string_view(s.language),
                body: s.body@,
            },
            Block::PropertyDrawer(p) => BlockV::PropertyDrawer(Seq::new(p@.len(), |i: int| p@[i]@)),
            Block::Drawer { name, lines } => BlockV::Drawer {
                name: name@,
                lines: strings_view(lines@),
            },
            Block::HorizontalRule => BlockV::HorizontalRule,
            Block::BlankLine => BlockV::BlankLine,
        }
    }
}

pub open spec fn blocks_view(v: Seq<Block>) -> Seq<BlockV> {
    Seq::new(v.len(), |i: int| v[i]@)
}

impl Section {
    pub open spec fn view_section(&self) -> SectionV
        decreases self,
    {
        SectionV {
            headline: match self.headline {
                Some(h) => Some(h@),
                None => None,
            },
            content: blocks_view(self.content@),
            children: Seq::new(
                self.children@.len(),
                |i: int|
                    if 0 <= i < self.children@.len() {
                        self.children@[i].view_section()
                    } else {
                        SectionV { headline: None, content: seq![], children: seq![] }
                    },
            ),
        }
    }
}

impl View for Section {
    type V = SectionV;

    open spec fn view(&self) -> SectionV {
        self.view_section()
    }
}

pub open spec fn sections_view(v: Seq<Section>) -> Seq<SectionV> {
    Seq::new(v.len(), |i: int| v[i].view_section())
}

impl View for Document {
    type V = DocumentV;

    open spec fn view(&self) -> DocumentV {
        DocumentV {
            keywords: Seq::new(self.keywords@.len(), |i: int| self.keywords@[i]@),
            sections: sections_view(self.sections@),
        }
    }
}


/// The model of `Inline::Bold(v)` and the other containers, stated over
/// `inlines_view`.
pub proof fn lemma_inline_view(x: Inline)
    ensures
        match x {
            Inline::Bold(v) => x@ == InlineV::Bold(inlines_view(v@)),
            Inline::Italic(v) => x@ == InlineV::Italic(inlines_view(v@)),
            Inline::Underline(v) => x@ == InlineV::Underline(inlines_view(v@)),
            Inline::Strikethrough(v) => x@ == InlineV::Strikethrough(inlines_view(v@)),
            Inline::Link(l) => x@ == InlineV::Link {
                url: l.url@,
                description: match l.description {
                    Some(v) => Some(inlines_view(v@)),
                    None => None,
                },
            },
            _ => true,
        },
{
    match x {
        Inline::Bold(v) => {
            assert(x@->Bold_0 =~= inlines_view(v@));
        },
        Inline::Italic(v) => {
            assert(x@->Italic_0 =~= inlines_view(v@));
        },
        Inline::Underline(v) => {
            assert(x@->Underline_0 =~= inlines_view(v@));
        },
        Inline::Strikethrough(v) => {
            assert(x@->Strikethrough_0 =~= inlines_view(v@));
        },
        Inline::Link(l) => {
            match l.description {
                Some(v) => {
                    assert(x@->description->0 =~= inlines_view(v@));
                },
                None => {},
            }
        },
        _ => {},
    }
}

pub proof fn lemma_section_view(x: Section)
    ensures
        x@ == (SectionV {
            headline: match x.headline {
                Some(h) => Some(h@),
                None => None,
            },
            content: blocks_view(x.content@),
            children: sections_view(x.children@),
        }),
{
    assert(x@.children =~= sections_view(x.children@));
}

fn clone_string(s: &String) -> (r: String)
    ensures
        r@ == s@,
{
    s.clone()
}

fn clone_inlines(v: &Vec<Inline>) -> (r: Vec<Inline>)
    ensures
        inlines_view(r@) == inlines_view(v@),
    decreases v,
{
    let mut r: Vec<Inline> = Vec::new();
    let mut i: usize = 0;
    while i < v.len()
        invariant
            i <= v@.len(),
            r@.len() == i,
            forall|j: int| 0 <= j < i ==> r@[j]@ == v@[j]@,
        decreases v@.len() - i,
    {
        assert(decreases_to!(v => v@[i as int]));
        r.push(v[i].deep_clone());
        i += 1;
    }
    assert(inlines_view(r@) =~= inlines_view(v@));
    r
}

impl Inline {
    fn deep_clone(&self) -> (r: Inline)
        ensures
            r@ == self@,
        decreases self,
    {
        proof {
            lemma_inline_view(*self);
        }
        let r = match self {
            Inline::Text(s) => Inline::Text(clone_string(s)),
            Inline::Bold(v) => Inline::Bold(clone_inlines(v)),
            Inline::Italic(v) => Inline::Italic(clone_inlines(v)),
            Inline::Underline(v) => Inline::Underline(clone_inlines(v)),
            Inline::Strikethrough(v) => Inline::Strikethrough(clone_inlines(v)),
            Inline::Code(s) => Inline::Code(clone_string(s)),
            Inline::Verbatim(s) => Inline::Verbatim(clone_string(s)),
            Inline::Link(l) => Inline::Link(
                Link {
                    url: clone_string(&l.url),
                    description: match &l.description {
                        Some(v) => Some(clone_inlines(v)),
                        None => None,
                    },
                },
            ),
            Inline::Timestamp(t) => Inline::Timestamp(
                Timestamp { kind: t.kind, inner: clone_string(&t.inner) },
            ),
        };
        proof {
            lemma_inline_view(r);
        }
        r
    }
}

impl Clone for Inline {
    fn clone(&self) -> (r: Inline)
        ensures
            r@ == self@,
    {
        self.deep_clone()
    }
}

fn clone_opt_string(s: &Option<String>) -> (r: Option<String>)
    ensures
        opt_string_view(r) == opt_string_view(*s),
{
    match s {
        Some(x) => Some(clone_string(x)),
        None => None,
    }
}

fn clone_strings(v: &Vec<String>) -> (r: Vec<String>)
    ensures
        strings_view(r@) == strings_view(v@),
{
    let mut r: Vec<String> = Vec::new();
    let mut i: usize = 0;
    while i < v.len()
        invariant
            i <= v@.len(),
            r@.len() == i,
            forall|j: int| 0 <= j < i ==> r@[j]@ == v@[j]@,
        decreases v@.len() - i,
    {
        r.push(clone_string(&v[i]));
        i += 1;
    }
    assert(strings_view(r@) =~= strings_view(v@));
    r
}

fn clone_lines(v: &Vec<Vec<Inline>>) -> (r: Vec<Vec<Inline>>)
    ensures
        lines_view(r@) == lines_view(v@),
{
    let mut r: Vec<Vec<Inline>> = Vec::new();
    let mut i: usize = 0;
    while i < v.len()
        invariant
            i <= v@.len(),
            r@.len() == i,
            forall|j: int| 0 <= j < i ==> inlines_view(r@[j]@) == inlines_view(v@[j]@),
        decreases v@.len() - i,
    {
        r.push(clone_inlines(&v[i]));
        i += 1;
    }
    assert(lines_view(r@) =~= lines_view(v@));
    r
}

fn clone_items(v: &Vec<ListItem>) -> (r: Vec<ListItem>)
    ensures
        r@.len() == v@.len(),
        forall|j: int| 0 <= j < v@.len() ==> #[trigger] r@[j]@ == v@[j]@,
{
    let mut r: Vec<ListItem> = Vec::new();
    let mut i: usize = 0;
    while i < v.len()
        invariant
            i <= v@.len(),
            r@.len() == i,
            forall|j: int| 0 <= j < i ==> #[trigger] r@[j]@ == v@[j]@,
        decreases v@.len() - i,
    {
        let it = &v[i];
        r.push(
            ListItem {
                bullet: clone_string(&it.bullet),
                checkbox: it.checkbox,
                content: clone_inlines(&it.content),
            },
        );
        i += 1;
    }
    r
}

fn clone_properties(v: &Vec<Property>) -> (r: Vec<Property>)
    ensures
        r@.len() == v@.len(),
        forall|j: int| 0 <= j < v@.len() ==> #[trigger] r@[j]@ == v@[j]@,
{
    let mut r: Vec<Property> = Vec::new();
    let mut i: usize = 0;
    while i < v.len()
        invariant
            i <= v@.len(),
            r@.len() == i,
            forall|j: int| 0 <= j < i ==> #[trigger] r@[j]@ == v@[j]@,
        decreases v@.len() - i,
    {
        r.push(Property { key: clone_string(&v[i].key), value: clone_string(&v[i].value) });
        i += 1;
    }
    r
}

fn clone_headline(h: &Headline) -> (r: Headline)
    ensures
        r@ == h@,
{
    Headline {
        level: h.level,
        todo_keyword: clone_opt_string(&h.todo_keyword),
        priority: h.priority,
        title: clone_inlines(&h.title),
        tags: clone_strings(&h.tags),
    }
}

fn clone_block(b: &Block) -> (r: Block)
    ensures
        r@ == b@,
{
    let r = match b {
        Block::Paragraph(lines) => Block::Paragraph(clone_lines(lines)),
        Block::List(l) => Block::List(List { items: clone_items(&l.items) }),
        Block::SrcBlock(sb) => Block::SrcBlock(
            SrcBlock { language: clone_opt_string(&sb.language), body: clone_string(&sb.body) },
        ),
        Block::PropertyDrawer(ps) => Block::PropertyDrawer(clone_properties(ps)),
        Block::Drawer { name, lines } => Block::Drawer {
            name: clone_string(name),
            lines: clone_strings(lines),
        },
        Block::HorizontalRule => Block::HorizontalRule,
        Block::BlankLine => Block::BlankLine,
    };
    proof {
        match (b, &r) {
            (Block::List(l), Block::List(l2)) => {
                assert(r@->List_0 =~= b@->List_0);
            },
            (Block::PropertyDrawer(ps), Block::PropertyDrawer(ps2)) => {
                assert(r@->PropertyDrawer_0 =~= b@->PropertyDrawer_0);
            },
            _ => {},
        }
    }
    r
}

fn clone_blocks(v: &Vec<Block>) -> (r: Vec<Block>)
    ensures
        blocks_view(r@) == blocks_view(v@),
{
    let mut r: Vec<Block> = Vec::new();
    let mut i: usize = 0;
    while i < v.len()
        invariant
            i <= v@.len(),
            r@.len() == i,
            forall|j: int| 0 <= j < i ==> #[trigger] r@[j]@ == v@[j]@,
        decreases v@.len() - i,
    {
        r.push(clone_block(&v[i]));
        i += 1;
    }
    assert(blocks_view(r@) =~= blocks_view(v@));
    r
}

/// A copy of each section, equal to it in the model.
fn clone_sections(v: &Vec<Section>) -> (r: Vec<Section>)
    ensures
        sections_view(r@) == sections_view(v@),
    decreases v,
{
    let mut r: Vec<Section> = Vec::new();
    let mut i: usize = 0;
    while i < v.len()
        invariant
            i <= v@.len(),
            r@.len() == i,
            forall|j: int| 0 <= j < i ==> #[trigger] r@[j]@ == v@[j]@,
        decreases v@.len() - i,
    {
        assert(decreases_to!(v => v@[i as int]));
        r.push(v[i].deep_clone());
        i += 1;
    }
    assert forall|j: int| 0 <= j < v@.len() implies #[trigger] sections_view(r@)[j]
        == sections_view(v@)[j] by {
        assert(r@[j]@ == v@[j]@);
    }
    assert(sections_view(r@) =~= sections_view(v@));
    r
}

impl Section {
    /// A copy of the section, equal to it in the model.
    fn deep_clone(&self) -> (r: Section)
        ensures
            r@ == self@,
        decreases self,
    {
        let headline = match &self.headline {
            Some(h) => Some(clone_headline(h)),
            None => None,
        };
        let r = Section {
            headline,
            content: clone_blocks(&self.content),
            children: clone_sections(&self.children),
        };
        proof {
            lemma_section_view(*self);
            lemma_section_view(r);
        }
        r
    }
}

impl Clone for Section {
    fn clone(&self) -> (r: Section) {
        self.deep_clone()
    }
}

} // verus!
