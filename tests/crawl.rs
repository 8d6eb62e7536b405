use site_scraper::dom::{parse_html, Document, DomNode, HtmlEvent, NodeKind};
use site_scraper::frontier::Frontier;
use site_scraper::links::{extract_internal_links, link_allowed};
use site_scraper::page::{scrape_page, ContentBlock, TagRules};
use site_scraper::text::{normalize, normalize_parts};

const SEED: &str = "https://example.com/";

fn element(name: &str, depth: usize) -> DomNode {
    DomNode { kind: NodeKind::Element { name: name.to_string(), href: None }, depth }
}

fn text(t: &str, depth: usize) -> DomNode {
    DomNode { kind: NodeKind::Text { text: t.to_string() }, depth }
}

fn anchor(href: &str, depth: usize) -> DomNode {
    DomNode {
        kind: NodeKind::Element { name: "a".to_string(), href: Some(href.to_string()) },
        depth,
    }
}

#[test]
fn normalize_is_idempotent() {
    let once = normalize("  \t Hello world \n ");
    assert_eq!(once, "Hello world");
    assert_eq!(normalize(&once), once);
    assert_eq!(normalize(" \u{a0} "), "");
}

#[test]
fn normalize_parts_joins_with_spaces() {
    let parts = vec![" Hello".to_string(), "big".to_string(), "world ".to_string()];
    assert_eq!(normalize_parts(&parts), "Hello big world");
    assert_eq!(normalize_parts(&vec![]), "");
    assert_eq!(normalize_parts(&vec!["  ".to_string(), " ".to_string()]), "");
}

#[test]
fn seed_page_scenario() {
    let html = "<main><h1>Intro</h1><p>Hello</p><h2>Links</h2><a href=\"/policy\">P</a><a href=\"/about\">A</a></main>";
    let doc = parse_html(html);
    let page = scrape_page(&doc, &TagRules::standard(), SEED);
    assert_eq!(page.url, SEED);
    assert_eq!(page.title, "Intro");
    assert_eq!(page.sections.len(), 1);
    assert_eq!(page.sections[0].header, "Intro");
    assert_eq!(page.sections[0].content, vec![ContentBlock::Paragraph("Hello".to_string())]);
    let links = extract_internal_links(&doc, SEED);
    assert_eq!(links, vec!["https://example.com/about".to_string()]);
}

#[test]
fn paragraph_and_list_from_one_sibling() {
    let doc = Document {
        nodes: vec![
            element("main", 0),
            element("h1", 1),
            text("Title", 2),
            element("p", 1),
            text("Hello", 2),
            element("li", 2),
            text("item", 3),
        ],
    };
    let mut rules = TagRules::standard();
    rules.lists.push("p".to_string());
    let page = scrape_page(&doc, &rules, SEED);
    assert_eq!(page.sections.len(), 1);
    assert_eq!(
        page.sections[0].content,
        vec![
            ContentBlock::Paragraph("Hello item".to_string()),
            ContentBlock::List(vec!["item".to_string()]),
        ]
    );
}

#[test]
fn lists_excluded_and_section_ends() {
    let html = "<main><nav><p>menu</p></nav><h2> First </h2><nav>skip</nav><p>one</p>\
                <ul><li> a </li><li></li><li>b</li></ul><button>x</button>\
                <h3></h3><p>still first? no</p><h3>Empty</h3><script>s</script></main>";
    let doc = parse_html(html);
    let page = scrape_page(&doc, &TagRules::standard(), SEED);
    assert_eq!(page.title, "First");
    assert_eq!(page.sections.len(), 1);
    assert_eq!(page.sections[0].header, "First");
    assert_eq!(
        page.sections[0].content,
        vec![
            ContentBlock::Paragraph("one".to_string()),
            ContentBlock::List(vec!["a".to_string(), "b".to_string()]),
        ]
    );
}

#[test]
fn nested_header_walks_its_own_siblings() {
    let html = "<main><div><h2>Inner</h2><p>in</p></div><p>outside</p></main>";
    let page = scrape_page(&parse_html(html), &TagRules::standard(), SEED);
    assert_eq!(page.title, "Inner");
    assert_eq!(page.sections.len(), 1);
    assert_eq!(page.sections[0].content, vec![ContentBlock::Paragraph("in".to_string())]);
}

#[test]
fn missing_main_gives_empty_page() {
    let doc = parse_html("<body><h1>Title</h1><p>text</p><a href=\"/x\">x</a></body>");
    let page = scrape_page(&doc, &TagRules::standard(), SEED);
    assert_eq!(page.title, "");
    assert!(page.sections.is_empty());
    assert!(extract_internal_links(&doc, SEED).is_empty());
}

#[test]
fn events_are_laid_out_by_depth() {
    let events = vec![
        HtmlEvent::Open(NodeKind::Other),
        HtmlEvent::Open(NodeKind::Element { name: "main".to_string(), href: None }),
        HtmlEvent::Open(NodeKind::Text { text: "t".to_string() }),
        HtmlEvent::Close,
        HtmlEvent::Close,
        HtmlEvent::Open(NodeKind::Element { name: "p".to_string(), href: None }),
        HtmlEvent::Close,
        HtmlEvent::Close,
    ];
    let doc = Document::from_events(events);
    let depths: Vec<usize> = doc.nodes.iter().map(|n| n.depth).collect();
    assert_eq!(depths, vec![0, 1, 2, 1]);
}

#[test]
fn link_filter_rules() {
    assert!(link_allowed("https://example.com/about", SEED));
    assert!(!link_allowed("https://other.com/about", SEED));
    assert!(!link_allowed("https://blog.example.com/about", SEED));
    assert!(!link_allowed("https://example.com/Privacy-Notice", SEED));
    assert!(!link_allowed("https://example.com/legal/TERMS", SEED));
    assert!(!link_allowed("https://example.com/cookies", SEED));
    assert!(!link_allowed("https://example.com/LICENSE.txt", SEED));
    assert!(link_allowed("https://example.com/blog?policy=1", SEED));
    assert!(!link_allowed("https://127.0.0.1/about", "https://127.0.0.1/"));
}

#[test]
fn links_are_resolved_scoped_and_distinct() {
    let doc = Document {
        nodes: vec![
            element("main", 0),
            anchor("/b", 1),
            anchor("https://example.com/b", 1),
            anchor("https://elsewhere.org/c", 1),
            anchor("c/d", 1),
            anchor("/Cookie-Policy", 1),
            element("a", 1),
        ],
    };
    let links = extract_internal_links(&doc, "https://example.com/dir/page");
    assert_eq!(
        links,
        vec!["https://example.com/b".to_string(), "https://example.com/dir/c/d".to_string()]
    );
}

#[test]
fn cap_of_one_page() {
    let mut frontier = Frontier::new(SEED.to_string(), 1);
    assert_eq!(frontier.next_url(), Some(SEED.to_string()));
    let doc = parse_html("<main><h1>Home</h1><p>hi</p><a href=\"/one\">1</a><a href=\"/two\">2</a></main>");
    frontier.record_page(&doc);
    assert_eq!(frontier.pages_scraped(), 1);
    assert_eq!(
        frontier.queue,
        vec![
            SEED.to_string(),
            "https://example.com/one".to_string(),
            "https://example.com/two".to_string(),
        ]
    );
    assert_eq!(frontier.next_url(), None);
    let data = frontier.into_data();
    assert_eq!(data.pages.len(), 1);
    assert_eq!(data.pages[0].url, SEED);
    assert_eq!(data.pages[0].title, "Home");
}

#[test]
fn failed_seed_gives_no_pages() {
    let mut frontier = Frontier::new(SEED.to_string(), 200);
    assert_eq!(frontier.next_url(), Some(SEED.to_string()));
    frontier.record_failure();
    assert_eq!(frontier.visited, vec![SEED.to_string()]);
    assert_eq!(frontier.next_url(), None);
    assert!(frontier.into_data().pages.is_empty());
}

#[test]
fn breadth_first_and_visited_once() {
    let mut frontier = Frontier::new(SEED.to_string(), 10);
    let pages = [
        "<main><h1>S</h1><p>s</p><a href=\"/a\">a</a><a href=\"/b\">b</a></main>",
        "<main><h1>A</h1><p>a</p><a href=\"/\">home</a><a href=\"/b\">b</a><a href=\"/c\">c</a></main>",
        "<main><h1>B</h1><p>b</p><a href=\"/a\">a</a></main>",
        "<main><h1>C</h1><p>c</p></main>",
    ];
    let mut order = Vec::new();
    while let Some(url) = frontier.next_url() {
        order.push(url.clone());
        let i = order.len() - 1;
        frontier.record_page(&parse_html(pages[i]));
    }
    assert_eq!(
        order,
        vec![
            SEED.to_string(),
            "https://example.com/a".to_string(),
            "https://example.com/b".to_string(),
            "https://example.com/c".to_string(),
        ]
    );
    assert_eq!(frontier.pages_scraped(), 4);
    let titles: Vec<String> = frontier.into_data().pages.into_iter().map(|p| p.title).collect();
    assert_eq!(titles, vec!["S", "A", "B", "C"]);
}
