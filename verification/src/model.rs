//! The parsed module: questions, grids and loops, and their mathematical
//! views.
//!
//! Every stored header, parameter text and markdown body is trimmed of
//! whitespace when the value is made; a preamble is kept as it was found.

use crate::text::{lemma_trim_idempotent, string_of, to_chars, trim, trimmed};
use vstd::prelude::*;

verus! {

/// The view of a [`Tag`].
pub struct TagView {
    pub name: Seq<char>,
    pub params: Seq<char>,
}

/// The view of a [`Question`].
pub struct QuestionView {
    pub header: Seq<char>,
    pub markdown: Seq<char>,
}

/// The view of a [`Grid`].
pub struct GridView {
    pub tag: TagView,
    pub markdown: Seq<char>,
}

/// The view of a [`Loop`].
pub struct LoopView {
    pub tag: TagView,
    pub markdown: Seq<char>,
    pub items: Seq<ItemView>,
}

/// The view of a [`ModuleItem`].
pub enum ItemView {
    Question(QuestionView),
    Loop(LoopView),
    Grid(GridView),
}

/// The view of a [`Module`].
pub struct ModuleView {
    pub preamble: Seq<char>,
    pub items: Seq<ItemView>,
}

/// `s` neither begins nor ends with whitespace.
pub open spec fn is_trimmed(s: Seq<char>) -> bool {
    trim(s) == s
}

impl TagView {
    /// The parameter text is trimmed.
    pub open spec fn wf(self) -> bool {
        is_trimmed(self.params)
    }
}

impl QuestionView {
    /// Header and markdown are trimmed.
    pub open spec fn wf(self) -> bool {
        is_trimmed(self.header) && is_trimmed(self.markdown)
    }
}

impl GridView {
    /// Parameter text and markdown are trimmed.
    pub open spec fn wf(self) -> bool {
        self.tag.wf() && is_trimmed(self.markdown)
    }
}

impl LoopView {
    /// Parameter text and markdown are trimmed, and so is every text of
    /// every nested item.
    pub open spec fn wf(self) -> bool
        decreases self,
    {
        &&& self.tag.wf()
        &&& is_trimmed(self.markdown)
        &&& forall|i: int| 0 <= i < self.items.len() ==> (#[trigger] self.items[i]).wf()
    }
}

impl ItemView {
    /// Every stored text of the item but a tag's name is trimmed.
    pub open spec fn wf(self) -> bool
        decreases self,
    {
        match self {
            ItemView::Question(q) => q.wf(),
            ItemView::Loop(l) => l.wf(),
            ItemView::Grid(g) => g.wf(),
        }
    }
}

impl ModuleView {
    /// Every item is well formed. The preamble is stored untrimmed.
    pub open spec fn wf(self) -> bool {
        forall|i: int| 0 <= i < self.items.len() ==> (#[trigger] self.items[i]).wf()
    }
}

/// The opening marker of a group: its name, `grid` or `loop`, and the
/// attribute text that stood between the name and `>`.
#[derive(Debug, PartialEq)]
pub struct Tag {
    name: String,
    params: String,
}

/// One question: the text between `[` and `]`, and the body that follows.
#[derive(Debug, PartialEq)]
pub struct Question {
    pub header: String,
    pub markdown: String,
}

/// A grid: its tag and the text up to `</grid>`, which is kept whole.
#[derive(Debug, PartialEq)]
pub struct Grid {
    tag: Tag,
    markdown: String,
}

/// A loop: its tag, the text up to `</loop>`, and the items found in that
/// text.
#[derive(Debug, PartialEq)]
pub struct Loop {
    tag: Tag,
    markdown: String,
    questions: Vec<ModuleItem>,
}

/// One unit of module content, in document order.
#[derive(Debug, PartialEq)]
pub enum ModuleItem {
    Question(Question),
    Loop(Loop),
    Grid(Grid),
}

/// A parsed module: the text before its first item, and its items.
#[derive(Debug)]
pub struct Module {
    pub preamble: String,
    pub items: Vec<ModuleItem>,
}

impl View for Tag {
    type V = TagView;

    closed spec fn view(&self) -> TagView {
        TagView { name: self.name@, params: self.params@ }
    }
}

impl View for Question {
    type V = QuestionView;

    open spec fn view(&self) -> QuestionView {
        QuestionView { header: self.header@, markdown: self.markdown@ }
    }
}

impl View for Grid {
    type V = GridView;

    closed spec fn view(&self) -> GridView {
        GridView { tag: self.tag@, markdown: self.markdown@ }
    }
}

/// The view of the loop `l`, with the views of its nested items.
pub closed spec fn loop_view(l: Loop) -> LoopView
    decreases l,
{
    LoopView {
        tag: l.tag@,
        markdown: l.markdown@,
        items: Seq::new(
            l.questions.len() as nat,
            |i: int|
                if 0 <= i < l.questions.len() {
                    item_view(l.questions[i])
                } else {
                    arbitrary()
                },
        ),
    }
}

/// The view of the item `item`.
pub open spec fn item_view(item: ModuleItem) -> ItemView
    decreases item,
{
    match item {
        ModuleItem::Question(q) => ItemView::Question(q@),
        ModuleItem::Loop(l) => ItemView::Loop(loop_view(l)),
        ModuleItem::Grid(g) => ItemView::Grid(g@),
    }
}

impl View for Loop {
    type V = LoopView;

    open spec fn view(&self) -> LoopView {
        loop_view(*self)
    }
}

impl View for ModuleItem {
    type V = ItemView;

    open spec fn view(&self) -> ItemView {
        item_view(*self)
    }
}

/// The views of the items of `v`, in order.
pub open spec fn items_view(v: Seq<ModuleItem>) -> Seq<ItemView> {
    Seq::new(v.len(), |i: int| v[i]@)
}

impl View for Module {
    type V = ModuleView;

    open spec fn view(&self) -> ModuleView {
        ModuleView { preamble: self.preamble@, items: items_view(self.items@) }
    }
}

/// Appending an item appends its view.
pub proof fn lemma_items_view_push(v: Seq<ModuleItem>, item: ModuleItem)
    ensures
        items_view(v.push(item)) == items_view(v).push(item@),
{
    assert(items_view(v.push(item)) =~= items_view(v).push(item@));
}

/// A copy of `s` without its leading and trailing whitespace.
pub fn trimmed_string(s: &str) -> (r: String)
    ensures
        r@ == trim(s@),
        is_trimmed(r@),
{
    proof {
        lemma_trim_idempotent(s@);
    }
    let chars = to_chars(s);
    string_of(trimmed(chars.as_slice()))
}

impl Tag {
    /// A tag from its name and attribute text, both trimmed.
    pub fn new(name: &str, params: &str) -> (r: Tag)
        ensures
            r@ == (TagView { name: trim(name@), params: trim(params@) }),
            r@.wf(),
    {
        Tag { name: trimmed_string(name), params: trimmed_string(params) }
    }

    /// A tag that holds `name` and `params` as they are.
    pub(crate) fn from_parts(name: String, params: String) -> (r: Tag)
        ensures
            r@ == (TagView { name: name@, params: params@ }),
    {
        Tag { name, params }
    }
}

impl Question {
    /// A question from its header and body, both trimmed.
    pub fn new(header: &str, markdown: &str) -> (r: Question)
        ensures
            r@ == (QuestionView { header: trim(header@), markdown: trim(markdown@) }),
            r@.wf(),
    {
        Question { header: trimmed_string(header), markdown: trimmed_string(markdown) }
    }

    /// The body of the question.
    pub fn render_markdown(&self) -> (r: &str)
        ensures
            r@ == self@.markdown,
    {
        self.markdown.as_str()
    }
}

impl Grid {
    /// A grid from its tag and its body, the body trimmed.
    pub fn new(tag: Tag, markdown: &str) -> (r: Grid)
        ensures
            r@ == (GridView { tag: tag@, markdown: trim(markdown@) }),
            tag@.wf() ==> r@.wf(),
    {
        Grid { tag, markdown: trimmed_string(markdown) }
    }

    /// A grid that holds `markdown` as it is.
    pub(crate) fn from_parts(tag: Tag, markdown: String) -> (r: Grid)
        ensures
            r@ == (GridView { tag: tag@, markdown: markdown@ }),
    {
        Grid { tag, markdown }
    }
}

impl Loop {
    /// A loop from its tag, its body and the items found in the body, the
    /// body trimmed.
    pub fn new(tag: Tag, markdown: &str, questions: Vec<ModuleItem>) -> (r: Loop)
        ensures
            r@ == (LoopView {
                tag: tag@,
                markdown: trim(markdown@),
                items: items_view(questions@),
            }),
            tag@.wf() && (forall|i: int|
                0 <= i < questions@.len() ==> (#[trigger] items_view(questions@)[i]).wf())
                ==> r@.wf(),
    {
        Loop::from_parts(tag, trimmed_string(markdown), questions)
    }

    /// A loop that holds `markdown` as it is.
    pub(crate) fn from_parts(tag: Tag, markdown: String, questions: Vec<ModuleItem>) -> (r: Loop)
        ensures
            r@ == (LoopView { tag: tag@, markdown: markdown@, items: items_view(questions@) }),
    {
        let r = Loop { tag, markdown, questions };
        assert(r@.items =~= items_view(questions@));
        r
    }
}

impl ModuleItem {
    /// A question item from its header and body, both trimmed.
    pub fn new_question(header: &str, markdown: &str) -> (r: ModuleItem)
        ensures
            r@ == ItemView::Question(
                QuestionView { header: trim(header@), markdown: trim(markdown@) },
            ),
            r@.wf(),
    {
        ModuleItem::Question(Question::new(header, markdown))
    }

    /// A loop item from its tag, its body and the items found in the body.
    pub fn new_loop(tag: Tag, markdown: &str, items: Vec<ModuleItem>) -> (r: ModuleItem)
        ensures
            r@ == ItemView::Loop(
                LoopView { tag: tag@, markdown: trim(markdown@), items: items_view(items@) },
            ),
            tag@.wf() && (forall|i: int|
                0 <= i < items@.len() ==> (#[trigger] items_view(items@)[i]).wf()) ==> r@.wf(),
    {
        ModuleItem::Loop(Loop::new(tag, markdown, items))
    }

    /// A grid item from its tag and its body.
    pub fn new_grid(tag: Tag, markdown: &str) -> (r: ModuleItem)
        ensures
            r@ == ItemView::Grid(GridView { tag: tag@, markdown: trim(markdown@) }),
            tag@.wf() ==> r@.wf(),
    {
        ModuleItem::Grid(Grid::new(tag, markdown))
    }
}

} // verus!
