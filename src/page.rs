//! The section extractor: a page's title and its header-delimited sections
//! of paragraphs and lists, read from the first `main` element.

use vstd::prelude::*;
use crate::dom::{Document, DomNode, KindView, NodeKind, NodeView};
use crate::text::{join_spaced, normalize_parts, strings_view, trim};

verus! {

/// A block of section content.
#[derive(Debug, Clone, PartialEq, Eq)]
pub enum ContentBlock {
    Paragraph(String),
    List(Vec<String>),
}

pub ghost enum BlockView {
    Paragraph(Seq<char>),
    List(Seq<Seq<char>>),
}

impl View for ContentBlock {
    type V = BlockView;

    open spec fn view(&self) -> BlockView {
        match self {
            ContentBlock::Paragraph(t) => BlockView::Paragraph(t@),
            ContentBlock::List(items) => BlockView::List(strings_view(items@)),
        }
    }
}

/// The content under one header.
#[derive(Debug, Clone, PartialEq, Eq)]
pub struct Section {
    pub header: String,
    pub content: Vec<ContentBlock>,
}

pub ghost struct SectionView {
    pub header: Seq<char>,
    pub content: Seq<BlockView>,
}

impl View for Section {
    type V = SectionView;

    open spec fn view(&self) -> SectionView {
        SectionView { header: self.header@, content: self.content@.map_values(|b: ContentBlock| b@) }
    }
}

/// What was read from one page.
#[derive(Debug, Clone, PartialEq, Eq)]
pub struct Page {
    pub url: String,
    pub title: String,
    pub sections: Vec<Section>,
}

pub ghost struct PageView {
    pub url: Seq<char>,
    pub title: Seq<char>,
    pub sections: Seq<SectionView>,
}

impl View for Page {
    type V = PageView;

    open spec fn view(&self) -> PageView {
        PageView {
            url: self.url@,
            title: self.title@,
            sections: self.sections@.map_values(|s: Section| s@),
        }
    }
}

/// The element predicates, each a set of tag names.
#[derive(Debug, Clone)]
pub struct TagRules {
    pub headers: Vec<String>,
    pub paragraphs: Vec<String>,
    pub lists: Vec<String>,
    pub items: Vec<String>,
    pub excluded: Vec<String>,
}

pub ghost struct RulesView {
    pub headers: Seq<Seq<char>>,
    pub paragraphs: Seq<Seq<char>>,
    pub lists: Seq<Seq<char>>,
    pub items: Seq<Seq<char>>,
    pub excluded: Seq<Seq<char>>,
}

impl View for TagRules {
    type V = RulesView;

    open spec fn view(&self) -> RulesView {
        RulesView {
            headers: strings_view(self.headers@),
            paragraphs: strings_view(self.paragraphs@),
            lists: strings_view(self.lists@),
            items: strings_view(self.items@),
            excluded: strings_view(self.excluded@),
        }
    }
}

/// The tag name of an element node.
pub open spec fn tag(n: NodeView) -> Option<Seq<char>> {
    match n.kind {
        KindView::Element { name, .. } => Some(name),
        _ => None,
    }
}

/// Whether `n` is an element whose name is in `names`.
pub open spec fn tagged(n: NodeView, names: Seq<Seq<char>>) -> bool {
    match tag(n) {
        Some(name) => names.contains(name),
        None => false,
    }
}

/// Whether `n` is a `main` element.
pub open spec fn is_main(n: NodeView) -> bool {
    tag(n) == Some("main"@)
}

/// The first position from `j` on that is not deeper than `d`.
pub open spec fn scan_end(nodes: Seq<NodeView>, d: nat, j: int) -> int
    decreases nodes.len() - j,
{
    if j >= nodes.len() {
        nodes.len() as int
    } else if nodes[j].depth <= d {
        j
    } else {
        scan_end(nodes, d, j + 1)
    }
}

/// One past the last descendant of node `i`.
pub open spec fn subtree_end(nodes: Seq<NodeView>, i: int) -> int {
    scan_end(nodes, nodes[i].depth, i + 1)
}

/// The text nodes among positions `lo .. hi`, in order.
pub open spec fn texts_in(nodes: Seq<NodeView>, lo: int, hi: int) -> Seq<Seq<char>>
    decreases hi - lo,
{
    if hi <= lo {
        Seq::empty()
    } else {
        texts_in(nodes, lo, hi - 1) + match nodes[hi - 1].kind {
            KindView::Text { text } => seq![text],
            _ => Seq::empty(),
        }
    }
}

/// The normalised text of node `i`: its descendant text nodes joined by
/// single spaces, then trimmed.
pub open spec fn text_of(nodes: Seq<NodeView>, i: int) -> Seq<char> {
    trim(join_spaced(texts_in(nodes, i + 1, subtree_end(nodes, i))))
}

/// The non-empty texts of the list-item elements among positions `lo .. hi`.
pub open spec fn items_in(nodes: Seq<NodeView>, rules: RulesView, lo: int, hi: int) -> Seq<Seq<char>>
    decreases hi - lo,
{
    if hi <= lo {
        Seq::empty()
    } else {
        items_in(nodes, rules, lo, hi - 1) + if tagged(nodes[hi - 1], rules.items) && text_of(
            nodes,
            hi - 1,
        ).len() > 0 {
            seq![text_of(nodes, hi - 1)]
        } else {
            Seq::empty()
        }
    }
}

/// The blocks that the sibling at position `j` contributes: none if it is
/// excluded or not an element; else a paragraph, then a list, each when it
/// applies and is non-empty.
pub open spec fn own_blocks(nodes: Seq<NodeView>, rules: RulesView, j: int) -> Seq<BlockView> {
    if tag(nodes[j]) is None || tagged(nodes[j], rules.excluded) {
        Seq::empty()
    } else {
        let items = items_in(nodes, rules, j + 1, subtree_end(nodes, j));
        (if tagged(nodes[j], rules.paragraphs) && text_of(nodes, j).len() > 0 {
            seq![BlockView::Paragraph(text_of(nodes, j))]
        } else {
            Seq::empty()
        }) + (if tagged(nodes[j], rules.lists) && items.len() > 0 {
            seq![BlockView::List(items)]
        } else {
            Seq::empty()
        })
    }
}

/// The blocks of the siblings at depth `d` from position `j` on, up to the
/// next header sibling or the end of the siblings.
pub open spec fn blocks_from(nodes: Seq<NodeView>, rules: RulesView, d: nat, j: int) -> Seq<BlockView>
    decreases nodes.len() - j,
{
    if j >= nodes.len() || nodes[j].depth < d {
        Seq::empty()
    } else if nodes[j].depth > d {
        blocks_from(nodes, rules, d, j + 1)
    } else if tagged(nodes[j], rules.headers) {
        Seq::empty()
    } else {
        own_blocks(nodes, rules, j) + blocks_from(nodes, rules, d, j + 1)
    }
}

/// The section that header `h` opens, if its text and its content are not
/// empty.
pub open spec fn section_at(nodes: Seq<NodeView>, rules: RulesView, h: int) -> Seq<SectionView> {
    let content = blocks_from(nodes, rules, nodes[h].depth, h + 1);
    if tagged(nodes[h], rules.headers) && text_of(nodes, h).len() > 0 && content.len() > 0 {
        seq![SectionView { header: text_of(nodes, h), content }]
    } else {
        Seq::empty()
    }
}

/// The sections of the headers among positions `lo .. hi`, in order.
pub open spec fn sections_in(nodes: Seq<NodeView>, rules: RulesView, lo: int, hi: int) -> Seq<SectionView>
    decreases hi - lo,
{
    if hi <= lo {
        Seq::empty()
    } else {
        sections_in(nodes, rules, lo, hi - 1) + section_at(nodes, rules, hi - 1)
    }
}

/// The first position from `j` on that holds a `main` element.
pub open spec fn main_from(nodes: Seq<NodeView>, j: int) -> Option<int>
    decreases nodes.len() - j,
{
    if j >= nodes.len() {
        None
    } else if is_main(nodes[j]) {
        Some(j)
    } else {
        main_from(nodes, j + 1)
    }
}

/// The first header among positions `j .. hi`.
pub open spec fn header_from(nodes: Seq<NodeView>, rules: RulesView, j: int, hi: int) -> Option<int>
    decreases hi - j,
{
    if j >= hi {
        None
    } else if tagged(nodes[j], rules.headers) {
        Some(j)
    } else {
        header_from(nodes, rules, j + 1, hi)
    }
}

/// The page read from `nodes` at `url`.
pub open spec fn page_of(nodes: Seq<NodeView>, rules: RulesView, url: Seq<char>) -> PageView {
    match main_from(nodes, 0) {
        None => PageView { url, title: Seq::empty(), sections: Seq::empty() },
        Some(m) => {
            let end = subtree_end(nodes, m);
            PageView {
                url,
                title: match header_from(nodes, rules, m + 1, end) {
                    Some(h) => text_of(nodes, h),
                    None => Seq::empty(),
                },
                sections: sections_in(nodes, rules, m + 1, end),
            }
        },
    }
}


pub open spec fn blocks_view(v: Seq<ContentBlock>) -> Seq<BlockView> {
    v.map_values(|b: ContentBlock| b@)
}

pub open spec fn sections_view(v: Seq<Section>) -> Seq<SectionView> {
    v.map_values(|s: Section| s@)
}

impl TagRules {
    /// The standard rules: headers `h1` to `h4`, paragraphs `p`, lists `ul`
    /// and `ol`, list items `li`; buttons, navigation bars, footers, links,
    /// scripts, styles, vector graphics and images are skipped.
    pub fn standard() -> (r: TagRules)
        ensures
            r@ == (RulesView {
                headers: seq!["h1"@, "h2"@, "h3"@, "h4"@],
                paragraphs: seq!["p"@],
                lists: seq!["ul"@, "ol"@],
                items: seq!["li"@],
                excluded: seq!["button"@, "nav"@, "footer"@, "a"@, "script"@, "style"@, "svg"@, "img"@],
            }),
    {
        let headers = vec![
            String::from_str("h1"),
            String::from_str("h2"),
            String::from_str("h3"),
            String::from_str("h4"),
        ];
        let paragraphs = vec![String::from_str("p")];
        let lists = vec![String::from_str("ul"), String::from_str("ol")];
        let items = vec![String::from_str("li")];
        let excluded = vec![
            String::from_str("button"),
            String::from_str("nav"),
            String::from_str("footer"),
            String::from_str("a"),
            String::from_str("script"),
            String::from_str("style"),
            String::from_str("svg"),
            String::from_str("img"),
        ];
        let r = TagRules { headers, paragraphs, lists, items, excluded };
        assert(r@.headers =~= seq!["h1"@, "h2"@, "h3"@, "h4"@]);
        assert(r@.paragraphs =~= seq!["p"@]);
        assert(r@.lists =~= seq!["ul"@, "ol"@]);
        assert(r@.items =~= seq!["li"@]);
        assert(r@.excluded =~= seq!["button"@, "nav"@, "footer"@, "a"@, "script"@, "style"@, "svg"@, "img"@]);
        r
    }
}

/// Whether `name` is one of `names`.
pub(crate) fn name_in(name: &String, names: &Vec<String>) -> (r: bool)
    ensures
        r == strings_view(names@).contains(name@),
{
    let mut i: usize = 0;
    while i < names.len()
        invariant
            i <= names.len(),
            forall|k: int| 0 <= k < i ==> #[trigger] strings_view(names@)[k] != name@,
        decreases names.len() - i,
    {
        if names[i] == *name {
            assert(strings_view(names@)[i as int] == name@);
            return true;
        }
        i = i + 1;
    }
    false
}

/// Whether `n` is an element whose name is in `names`.
fn is_tagged(n: &DomNode, names: &Vec<String>) -> (r: bool)
    ensures
        r == tagged(n@, strings_view(names@)),
{
    match &n.kind {
        NodeKind::Element { name, .. } => name_in(name, names),
        _ => false,
    }
}

/// Whether `n` is a `main` element.
fn is_main_node(n: &DomNode) -> (r: bool)
    ensures
        r == is_main(n@),
{
    match &n.kind {
        NodeKind::Element { name, .. } => {
            let main = String::from_str("main");
            *name == main
        },
        _ => false,
    }
}

/// The position of the first `main` element.
pub fn find_main(doc: &Document) -> (r: Option<usize>)
    ensures
        match r {
            Some(m) => main_from(doc@, 0) == Some(m as int) && m < doc@.len(),
            None => main_from(doc@, 0) is None,
        },
{
    let ghost nodes = doc@;
    let mut m: usize = 0;
    while m < doc.nodes.len()
        invariant
            nodes == doc@,
            m <= nodes.len(),
            main_from(nodes, 0) == main_from(nodes, m as int),
        decreases nodes.len() - m,
    {
        assert(nodes[m as int] == doc.nodes@[m as int]@);
        if is_main_node(&doc.nodes[m]) {
            return Some(m);
        }
        m = m + 1;
    }
    None
}

/// One past the last descendant of node `i`.
pub fn end_of(doc: &Document, i: usize) -> (r: usize)
    requires
        i < doc@.len(),
    ensures
        r as int == subtree_end(doc@, i as int),
        i < r <= doc@.len(),
{
    let ghost nodes = doc@;
    let len = doc.nodes.len();
    let d = doc.nodes[i].depth;
    let mut j: usize = i + 1;
    while j < doc.nodes.len() && doc.nodes[j].depth > d
        invariant
            nodes == doc@,
            i < j <= nodes.len(),
            d == nodes[i as int].depth,
            scan_end(nodes, d as nat, j as int) == scan_end(nodes, d as nat, i + 1),
        decreases nodes.len() - j,
    {
        assert(nodes[j as int].depth == doc.nodes@[j as int].depth);
        j = j + 1;
    }
    proof {
        if j < nodes.len() {
            assert(nodes[j as int].depth == doc.nodes@[j as int].depth);
        }
    }
    j
}

/// The normalised text of node `i`, and one past its last descendant.
pub fn element_text(doc: &Document, i: usize) -> (r: (String, usize))
    requires
        i < doc@.len(),
    ensures
        r.0@ == text_of(doc@, i as int),
        r.1 as int == subtree_end(doc@, i as int),
        i < r.1 <= doc@.len(),
{
    let ghost nodes = doc@;
    let end = end_of(doc, i);
    let mut parts: Vec<String> = Vec::new();
    let mut j: usize = i + 1;
    while j < end
        invariant
            nodes == doc@,
            i < j <= end <= nodes.len(),
            strings_view(parts@) == texts_in(nodes, i + 1, j as int),
        decreases end - j,
    {
        assert(nodes[j as int].kind == doc.nodes@[j as int].kind@);
        match &doc.nodes[j].kind {
            NodeKind::Text { text } => {
                parts.push(text.clone());
            },
            _ => {},
        }
        j = j + 1;
        assert(strings_view(parts@) =~= texts_in(nodes, i + 1, j as int));
    }
    (normalize_parts(&parts), end)
}

/// The non-empty texts of the list items among positions `lo .. hi`.
fn list_items(doc: &Document, rules: &TagRules, lo: usize, hi: usize) -> (r: Vec<String>)
    requires
        lo <= hi <= doc@.len(),
    ensures
        strings_view(r@) == items_in(doc@, rules@, lo as int, hi as int),
{
    let ghost nodes = doc@;
    let mut items: Vec<String> = Vec::new();
    let mut j: usize = lo;
    while j < hi
        invariant
            nodes == doc@,
            lo <= j <= hi <= nodes.len(),
            strings_view(items@) == items_in(nodes, rules@, lo as int, j as int),
        decreases hi - j,
    {
        assert(nodes[j as int] == doc.nodes@[j as int]@);
        if is_tagged(&doc.nodes[j], &rules.items) {
            let (t, _) = element_text(doc, j);
            if !t.as_str().is_empty() {
                items.push(t);
            }
        }
        j = j + 1;
        assert(strings_view(items@) =~= items_in(nodes, rules@, lo as int, j as int));
    }
    items
}

/// Appends the blocks that the sibling at position `j` contributes.
fn push_own_blocks(doc: &Document, rules: &TagRules, j: usize, acc: &mut Vec<ContentBlock>)
    requires
        j < doc@.len(),
    ensures
        blocks_view(final(acc)@) == blocks_view(old(acc)@) + own_blocks(doc@, rules@, j as int),
{
    let ghost nodes = doc@;
    let ghost before = blocks_view(acc@);
    let n = &doc.nodes[j];
    assert(nodes[j as int] == n@);
    let is_element = match &n.kind {
        NodeKind::Element { .. } => true,
        _ => false,
    };
    if !is_element || is_tagged(n, &rules.excluded) {
        assert(blocks_view(acc@) =~= before + own_blocks(nodes, rules@, j as int));
        return;
    }
    let (text, end) = element_text(doc, j);
    if is_tagged(n, &rules.paragraphs) && !text.as_str().is_empty() {
        acc.push(ContentBlock::Paragraph(text));
    }
    let ghost mid = blocks_view(acc@);
    if is_tagged(n, &rules.lists) {
        let items = list_items(doc, rules, j + 1, end);
        if items.len() > 0 {
            acc.push(ContentBlock::List(items));
        }
    }
    assert(blocks_view(acc@) =~= before + own_blocks(nodes, rules@, j as int));
}

/// The blocks of the section that header `h` opens.
fn section_blocks(doc: &Document, rules: &TagRules, h: usize) -> (r: Vec<ContentBlock>)
    requires
        h < doc@.len(),
    ensures
        blocks_view(r@) == blocks_from(doc@, rules@, doc@[h as int].depth, h + 1),
{
    let ghost nodes = doc@;
    let len = doc.nodes.len();
    let d = doc.nodes[h].depth;
    let ghost total = blocks_from(nodes, rules@, d as nat, h + 1);
    let mut acc: Vec<ContentBlock> = Vec::new();
    let mut j: usize = h + 1;
    let mut stop = false;
    while j < doc.nodes.len() && !stop
        invariant
            nodes == doc@,
            h < j <= nodes.len(),
            d == nodes[h as int].depth,
            total == blocks_from(nodes, rules@, d as nat, h + 1),
            stop ==> blocks_from(nodes, rules@, d as nat, j as int) == Seq::<BlockView>::empty(),
            blocks_view(acc@) + blocks_from(nodes, rules@, d as nat, j as int) == total,
        decreases nodes.len() - j, if stop { 0int } else { 1int },
    {
        let n = &doc.nodes[j];
        assert(nodes[j as int] == n@);
        if n.depth < d {
            stop = true;
        } else if n.depth > d {
            j = j + 1;
        } else if is_tagged(n, &rules.headers) {
            stop = true;
        } else {
            let ghost a = blocks_view(acc@);
            push_own_blocks(doc, rules, j, &mut acc);
            assert(a + own_blocks(nodes, rules@, j as int) + blocks_from(nodes, rules@, d as nat, j + 1)
                =~= a + (own_blocks(nodes, rules@, j as int) + blocks_from(nodes, rules@, d as nat, j + 1)));
            j = j + 1;
        }
    }
    assert(blocks_view(acc@) =~= total);
    acc
}

/// Reads the title and the sections of a page from the first `main`
/// element of `doc`: each header with non-empty text opens a section of the
/// paragraphs and lists among its following siblings, up to the next header
/// sibling, and sections without content are dropped.
pub fn scrape_page(doc: &Document, rules: &TagRules, url: &str) -> (r: Page)
    ensures
        r@ == page_of(doc@, rules@, url@),
{
    let ghost nodes = doc@;
    let m = match find_main(doc) {
        Some(m) => m,
        None => {
            let r = Page { url: String::from_str(url), title: String::new(), sections: Vec::new() };
            assert(r@.sections =~= Seq::<SectionView>::empty());
            return r;
        },
    };
    let end = end_of(doc, m);
    let mut h: usize = m + 1;
    let mut seen = false;
    while h < end && !seen
        invariant
            nodes == doc@,
            m < h <= end <= nodes.len(),
            !seen ==> header_from(nodes, rules@, m + 1, end as int) == header_from(nodes, rules@, h as int, end as int),
            seen ==> h < end && header_from(nodes, rules@, m + 1, end as int) == Some(h as int),
        decreases end - h, if seen { 0int } else { 1int },
    {
        assert(nodes[h as int] == doc.nodes@[h as int]@);
        if is_tagged(&doc.nodes[h], &rules.headers) {
            seen = true;
        } else {
            h = h + 1;
        }
    }
    let title = if seen {
        element_text(doc, h).0
    } else {
        String::new()
    };
    let mut sections: Vec<Section> = Vec::new();
    let mut k: usize = m + 1;
    while k < end
        invariant
            nodes == doc@,
            m < k <= end <= nodes.len(),
            sections_view(sections@) == sections_in(nodes, rules@, m + 1, k as int),
        decreases end - k,
    {
        assert(nodes[k as int] == doc.nodes@[k as int]@);
        if is_tagged(&doc.nodes[k], &rules.headers) {
            let (header, _) = element_text(doc, k);
            if !header.as_str().is_empty() {
                let content = section_blocks(doc, rules, k);
                if content.len() > 0 {
                    sections.push(Section { header, content });
                }
            }
        }
        k = k + 1;
        assert(sections_view(sections@) =~= sections_in(nodes, rules@, m + 1, k as int));
    }
    let r = Page { url: String::from_str(url), title, sections };
    assert(r@.sections == sections_view(sections@));
    r
}

proof fn lemma_sections_in_filled(nodes: Seq<NodeView>, rules: RulesView, lo: int, hi: int)
    ensures
        forall|k: int| 0 <= k < sections_in(nodes, rules, lo, hi).len()
            ==> #[trigger] sections_in(nodes, rules, lo, hi)[k].content.len() > 0,
    decreases hi - lo,
{
    if hi > lo {
        lemma_sections_in_filled(nodes, rules, lo, hi - 1);
        let left = sections_in(nodes, rules, lo, hi - 1);
        let right = section_at(nodes, rules, hi - 1);
        let all = sections_in(nodes, rules, lo, hi);
        assert(all == left + right);
        assert forall|k: int| 0 <= k < all.len() implies #[trigger] all[k].content.len() > 0 by {
            if k >= left.len() {
                assert(all[k] == right[k - left.len()]);
            } else {
                assert(all[k] == left[k]);
            }
        }
    }
}

/// No section of a page read by the extractor is without content.
pub proof fn lemma_page_sections_filled(nodes: Seq<NodeView>, rules: RulesView, url: Seq<char>)
    ensures
        forall|k: int| 0 <= k < page_of(nodes, rules, url).sections.len()
            ==> #[trigger] page_of(nodes, rules, url).sections[k].content.len() > 0,
{
    match main_from(nodes, 0) {
        None => {},
        Some(m) => lemma_sections_in_filled(nodes, rules, m + 1, subtree_end(nodes, m)),
    }
}

} // verus!
