//! The link filter and the link extractor: the distinct in-scope links of a
//! page's `main` element.

use vstd::prelude::*;
use crate::dom::{opt_view, Document, KindView, NodeKind, NodeView};
use crate::page::{end_of, find_main, main_from, name_in, subtree_end};
use crate::text::{has_infix, str_contains, strings_view};

verus! {

/// The serialisation of `href` resolved against the URL `base`, if both parse.
pub uninterp spec fn joined_url(base: Seq<char>, href: Seq<char>) -> Option<Seq<char>>;

/// The domain of the URL `u`; none where it does not parse or its host is
/// not a domain name.
pub uninterp spec fn domain_of(u: Seq<char>) -> Option<Seq<char>>;

/// The path of the URL `u`; none where it does not parse.
pub uninterp spec fn path_of(u: Seq<char>) -> Option<Seq<char>>;

/// The lower-case form of `s`.
pub uninterp spec fn lower_of(s: Seq<char>) -> Seq<char>;

/// Relies on url's `Url::parse` and `Url::join`: the absolute URL that
/// `href` denotes on the page at `base`.
#[verifier::external_body]
fn join_url(base: &str, href: &str) -> (r: Option<String>)
    ensures
        opt_view(r) == joined_url(base@, href@),
{
    let base = url::Url::parse(base).ok()?;
    base.join(href).ok().map(|u| u.as_str().to_string())
}

/// Relies on url's `Url::parse` and `Url::domain`.
#[verifier::external_body]
fn url_domain(u: &str) -> (r: Option<String>)
    ensures
        opt_view(r) == domain_of(u@),
{
    url::Url::parse(u).ok()?.domain().map(|d| d.to_string())
}

/// Relies on url's `Url::parse` and `Url::path`.
#[verifier::external_body]
fn url_path(u: &str) -> (r: Option<String>)
    ensures
        opt_view(r) == path_of(u@),
{
    url::Url::parse(u).ok().map(|p| p.path().to_string())
}

/// Relies on str::to_lowercase.
#[verifier::external_body]
fn lowercase(s: &str) -> (r: String)
    ensures
        r@ == lower_of(s@),
{
    s.to_lowercase()
}

/// Whether a path names none of the policy pages.
pub open spec fn path_allowed(path: Seq<char>) -> bool {
    !has_infix(path, "policy"@) && !has_infix(path, "terms"@) && !has_infix(path, "cookie"@)
        && !has_infix(path, "privacy"@) && !has_infix(path, "license"@)
}

/// Whether `link` stays on the domain of `base` and its lower-cased path
/// names none of the policy pages.
pub open spec fn link_in_scope(link: Seq<char>, base: Seq<char>) -> bool {
    &&& domain_of(base) is Some
    &&& domain_of(link) == domain_of(base)
    &&& path_of(link) is Some
    &&& path_allowed(lower_of(path_of(link)->0))
}

/// Decides whether the resolved URL `link` is kept for a page at `base`.
pub fn link_allowed(link: &str, base: &str) -> (r: bool)
    ensures
        r == link_in_scope(link@, base@),
{
    let base_domain = match url_domain(base) {
        Some(d) => d,
        None => return false,
    };
    let same = match url_domain(link) {
        Some(d) => d == base_domain,
        None => false,
    };
    if !same {
        return false;
    }
    let path = match url_path(link) {
        Some(p) => lowercase(p.as_str()),
        None => return false,
    };
    let p = path.as_str();
    !str_contains(p, "policy") && !str_contains(p, "terms") && !str_contains(p, "cookie")
        && !str_contains(p, "privacy") && !str_contains(p, "license")
}

/// The `href` of an anchor element.
pub open spec fn anchor_href(n: NodeView) -> Option<Seq<char>> {
    match n.kind {
        KindView::Element { name, href } => if name == "a"@ { href } else { None },
        _ => None,
    }
}

/// The in-scope resolved links of the anchors among positions `lo .. hi`,
/// in document order.
pub open spec fn anchor_links(nodes: Seq<NodeView>, base: Seq<char>, lo: int, hi: int) -> Seq<Seq<char>>
    decreases hi - lo,
{
    if hi <= lo {
        Seq::empty()
    } else {
        anchor_links(nodes, base, lo, hi - 1) + match anchor_href(nodes[hi - 1]) {
            Some(h) => match joined_url(base, h) {
                Some(u) => if link_in_scope(u, base) { seq![u] } else { Seq::empty() },
                None => Seq::empty(),
            },
            None => Seq::empty(),
        }
    }
}

/// The in-scope links of the anchors inside the first `main` element.
pub open spec fn links_of(nodes: Seq<NodeView>, base: Seq<char>) -> Seq<Seq<char>> {
    match main_from(nodes, 0) {
        None => Seq::empty(),
        Some(m) => anchor_links(nodes, base, m + 1, subtree_end(nodes, m)),
    }
}

/// `s` with each repeated element after its first occurrence left out.
pub open spec fn distinct(s: Seq<Seq<char>>) -> Seq<Seq<char>>
    decreases s.len(),
{
    if s.len() == 0 {
        Seq::empty()
    } else {
        let d = distinct(s.drop_last());
        if d.contains(s.last()) { d } else { d.push(s.last()) }
    }
}

/// The href of `n` if it is an anchor element.
fn href_of(n: &NodeKind) -> (r: Option<&String>)
    ensures
        match r {
            Some(h) => anchor_href(crate::dom::NodeView { kind: n@, depth: 0 }) == Some(h@),
            None => anchor_href(crate::dom::NodeView { kind: n@, depth: 0 }) is None,
        },
{
    match n {
        NodeKind::Element { name, href } => {
            let a = String::from_str("a");
            if *name == a {
                match href {
                    Some(h) => Some(h),
                    None => None,
                }
            } else {
                None
            }
        },
        _ => None,
    }
}

/// The distinct links that the anchors inside the first `main` element of
/// `doc` point to, resolved against `base`, that stay on the domain of
/// `base` and name no policy page; in the order of their first anchors.
pub fn extract_internal_links(doc: &Document, base: &str) -> (r: Vec<String>)
    ensures
        strings_view(r@) == distinct(links_of(doc@, base@)),
{
    let ghost nodes = doc@;
    let mut out: Vec<String> = Vec::new();
    let m = match find_main(doc) {
        Some(m) => m,
        None => {
            assert(strings_view(out@) =~= distinct(Seq::empty()));
            return out;
        },
    };
    let end = end_of(doc, m);
    let mut j: usize = m + 1;
    while j < end
        invariant
            nodes == doc@,
            m < j <= end <= nodes.len(),
            strings_view(out@) == distinct(anchor_links(nodes, base@, m + 1, j as int)),
        decreases end - j,
    {
        assert(nodes[j as int] == doc.nodes@[j as int]@);
        let ghost before = anchor_links(nodes, base@, m + 1, j as int);
        if let Some(h) = href_of(&doc.nodes[j].kind) {
            if let Some(u) = join_url(base, h.as_str()) {
                if link_allowed(u.as_str(), base) {
                    let ghost all = anchor_links(nodes, base@, m + 1, j + 1);
                    assert(all =~= before.push(u@));
                    assert(all.drop_last() =~= before);
                    if !name_in(&u, &out) {
                        out.push(u);
                    }
                    assert(strings_view(out@) =~= distinct(all));
                }
            }
        }
        proof {
            let all = anchor_links(nodes, base@, m + 1, j + 1);
            if all.len() == before.len() {
                assert(all =~= before);
            }
        }
        j = j + 1;
    }
    out
}

proof fn lemma_anchor_links_in_scope(nodes: Seq<NodeView>, base: Seq<char>, lo: int, hi: int)
    ensures
        forall|i: int| 0 <= i < anchor_links(nodes, base, lo, hi).len()
            ==> link_in_scope(#[trigger] anchor_links(nodes, base, lo, hi)[i], base),
    decreases hi - lo,
{
    if hi > lo {
        lemma_anchor_links_in_scope(nodes, base, lo, hi - 1);
        let left = anchor_links(nodes, base, lo, hi - 1);
        let all = anchor_links(nodes, base, lo, hi);
        assert forall|i: int| 0 <= i < all.len() implies link_in_scope(#[trigger] all[i], base) by {
            if i < left.len() {
                assert(all[i] == left[i]);
            }
        }
    }
}

proof fn lemma_distinct_within(s: Seq<Seq<char>>)
    ensures
        forall|i: int| 0 <= i < distinct(s).len() ==> s.contains(#[trigger] distinct(s)[i]),
    decreases s.len(),
{
    if s.len() > 0 {
        let p = s.drop_last();
        lemma_distinct_within(p);
        let d = distinct(s);
        assert forall|i: int| 0 <= i < d.len() implies s.contains(#[trigger] d[i]) by {
            if i < distinct(p).len() {
                assert(d[i] == distinct(p)[i]);
                let t = choose|t: int| 0 <= t < p.len() && p[t] == d[i];
                assert(s[t] == d[i]);
            } else {
                assert(s[s.len() - 1] == d[i]);
            }
        }
    }
}

/// Every link that the extractor returns for a page at `base` is on the
/// domain of `base`, and its lower-cased path names none of the words
/// policy, terms, cookie, privacy and license.
pub proof fn lemma_links_in_scope(nodes: Seq<NodeView>, base: Seq<char>)
    ensures
        forall|i: int| 0 <= i < distinct(links_of(nodes, base)).len() ==> {
            let l = #[trigger] distinct(links_of(nodes, base))[i];
            &&& domain_of(base) is Some
            &&& domain_of(l) == domain_of(base)
            &&& path_allowed(lower_of(path_of(l)->0))
        },
{
    let all = links_of(nodes, base);
    match main_from(nodes, 0) {
        None => {},
        Some(m) => lemma_anchor_links_in_scope(nodes, base, m + 1, subtree_end(nodes, m)),
    }
    lemma_distinct_within(all);
    assert forall|i: int| 0 <= i < distinct(all).len() implies link_in_scope(#[trigger] distinct(all)[i], base) by {
        let t = choose|t: int| 0 <= t < all.len() && all[t] == distinct(all)[i];
    }
}

} // verus!
