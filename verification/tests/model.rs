use std::borrow::Cow;

use wikigraph_model::graph::LinkGraph;
use wikigraph_model::object::{FileObject, Node, NodeRef, Object, ObjectKey, WikiPage};

fn page(words: u64) -> WikiPage {
    let mut p = WikiPage::default();
    p.words = words;
    p
}

#[test]
fn node_ref_new_truncates_to_32_bits() {
    assert_eq!(u32::from(NodeRef::new(7)), 7);
    assert_eq!(u32::from(NodeRef::new((1usize << 32) + 5)), 5);
    assert_eq!(usize::from(NodeRef::from(9u32)), 9);
    assert_eq!(NodeRef::new(3).index(), 3);
}

#[test]
fn node_ref_round_trips_through_u32() {
    for x in [0u32, 1, 42, u32::MAX] {
        assert_eq!(u32::from(NodeRef::from(x)), x);
    }
}

#[test]
fn wiki_page_default_has_no_words() {
    assert_eq!(WikiPage::default().words, 0);
}

#[test]
fn object_kinds() {
    let page = Object::File(FileObject::WikiPage(page(3)));
    let found = Object::File(FileObject::Mystery { found: true });
    let dead = Object::File(FileObject::Mystery { found: false });
    let ext = Object::External;
    assert!(page.is_markdown());
    assert!(!found.is_markdown());
    assert!(!ext.is_markdown());
    assert!(page.is_probably_live());
    assert!(found.is_probably_live());
    assert!(!dead.is_probably_live());
    assert!(ext.is_probably_live());
    assert_eq!(page.describe(), "wiki page");
    assert_eq!(found.describe(), "internal attachment");
    assert_eq!(dead.describe(), "dead link");
    assert_eq!(ext.describe(), "external link");
}

#[test]
fn materialize_key_follows_the_object_kind() {
    let page = Object::File(FileObject::WikiPage(WikiPage::default()));
    assert_eq!(page.materialize_key("a/b".to_string()), ObjectKey::File("a/b".to_string()));
    assert_eq!(
        Object::External.materialize_key("https://x.org".to_string()),
        ObjectKey::External("https://x.org".to_string())
    );
    assert_eq!(page.materialize_key("a/b".to_string()).as_str(), "a/b");
}

#[test]
fn node_from_object() {
    let node = Node::from(Object::External);
    assert_eq!(node.object, Object::External);
}

#[test]
fn key_as_str_and_url() {
    let file = ObjectKey::File("guide/intro".to_string());
    let ext = ObjectKey::External("https://example.org/x".to_string());
    assert_eq!(file.as_str(), "guide/intro");
    assert_eq!(ext.as_str(), "https://example.org/x");
    assert_eq!(file.to_url("https://wiki.example/"), "https://wiki.example/guide/intro");
    assert!(matches!(file.to_url("r/"), Cow::Owned(_)));
    assert!(matches!(ext.to_url("r/"), Cow::Borrowed("https://example.org/x")));
}

#[test]
fn from_link_str_resolves_relative_links() {
    assert_eq!(
        ObjectKey::from_link_str("../other.md#section", "guide/intro"),
        Some(ObjectKey::File("guide/other".to_string()))
    );
    assert_eq!(
        ObjectKey::from_link_str("/top", "guide/intro"),
        Some(ObjectKey::File("top".to_string()))
    );
}

#[test]
fn from_link_str_external_and_fragments() {
    assert_eq!(
        ObjectKey::from_link_str("https://example.org/a#b", "x"),
        Some(ObjectKey::External("https://example.org/a".to_string()))
    );
    assert_eq!(ObjectKey::from_link_str("#only-a-fragment", "x"), None);
    assert_eq!(ObjectKey::from_link_str("", "x"), None);
    assert_eq!(ObjectKey::from_link_str("../../..", "x"), None);
    // An absolute link with a colon is still a file.
    assert_eq!(
        ObjectKey::from_link_str("/a:b", "x"),
        Some(ObjectKey::File("a:b".to_string()))
    );
}

#[test]
fn from_link_str_ignores_the_fragment() {
    for (link, frag) in [("a/b", "x"), ("../c.md", "top"), ("http://h/p", "q")] {
        let with = format!("{link}#{frag}");
        assert_eq!(
            ObjectKey::from_link_str(&with, "dir/page"),
            ObjectKey::from_link_str(link, "dir/page")
        );
    }
}

#[test]
fn interning_reuses_nodes() {
    let mut g = LinkGraph::new();
    let a = g.intern_external("https://a".to_string());
    let b = g.intern_mystery_file("x/y".to_string(), false);
    let a2 = g.intern_external("https://a".to_string());
    assert_eq!(a, a2);
    assert_ne!(a, b);
    assert_eq!(g.nodes.len(), 2);
    assert_eq!(g.nodes[1].object, Object::File(FileObject::Mystery { found: false }));
}

#[test]
fn markdown_upgrades_mystery_files() {
    let mut g = LinkGraph::new();
    let m = g.intern_mystery_file("p".to_string(), true);
    let w = g.intern_markdown("p".to_string(), page(5));
    assert_eq!(m, w);
    assert_eq!(g.nodes.len(), 1);
    assert!(g.nodes[0].object.is_markdown());
    // Seeing the page as a link target again keeps it a wiki page.
    let again = g.intern_mystery_file("p".to_string(), false);
    assert_eq!(again, w);
    assert_eq!(
        g.nodes[0].object,
        Object::File(FileObject::WikiPage(page(5)))
    );
}

#[test]
fn file_and_external_keys_are_distinct() {
    let mut g = LinkGraph::new();
    let f = g.intern_mystery_file("same".to_string(), true);
    let e = g.intern_external("same".to_string());
    assert_ne!(f, e);
    assert_eq!(g.nodes.len(), 2);
}

#[test]
fn update_markdown_and_link() {
    let mut g = LinkGraph::new();
    let w = g.intern_markdown("p".to_string(), WikiPage::default());
    let e = g.intern_external("https://x".to_string());
    g.update_markdown(w, page(12));
    g.link(w, e);
    g.link(w, e);
    assert_eq!(g.nodes[0].object, Object::File(FileObject::WikiPage(page(12))));
    assert_eq!(g.edges, vec![(w, e), (w, e)]);
}

#[test]
fn new_graph_is_empty() {
    let g = LinkGraph::new();
    assert!(g.nodes.is_empty());
    assert!(g.edges.is_empty());
    assert!(g.scc.is_empty());
    assert!(g.shortest_paths.is_empty());
}
