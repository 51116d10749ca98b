use std::path::{Path, PathBuf};

use wikigraph_model::graph::LinkGraph;
use wikigraph_model::markdown::{count_words, walk};
use wikigraph_model::object::{FileObject, Object, ObjectKey, WikiPage};
use wikigraph_model::walker::{
    has_markdown_extension, is_hidden_entry, page_location, page_location_in, Corpus, CorpusWalker,
};

fn page(words: u64) -> WikiPage {
    let mut p = WikiPage::default();
    p.words = words;
    p
}

#[test]
fn from_args_trims_trailing_slashes_of_the_url_root() {
    let c = Corpus::from_args(Some("https://wiki.example/docs//"), PathBuf::from("/srv/wiki"));
    assert_eq!(c.strip_url_root("https://wiki.example/docs/a/b"), "/a/b");
    assert_eq!(c.strip_url_root("https://elsewhere/a"), "https://elsewhere/a");
    let none = Corpus::from_args(None, PathBuf::from("/srv/wiki"));
    assert_eq!(none.strip_url_root("https://wiki.example/docs/a"), "https://wiki.example/docs/a");
}

#[test]
fn count_words_matches_split_whitespace() {
    for s in [
        "",
        "one",
        "  two words  ",
        "tabs\tand\nnewlines\r\nhere",
        "nbsp\u{a0}separated\u{2003}em\u{3000}ideographic",
        "\u{85}next\u{2028}line",
        "zero\u{200b}width",
    ] {
        assert_eq!(count_words(s), s.split_whitespace().count(), "{s:?}");
    }
}

#[test]
fn link_walker_hands_out_links_and_counts_words() {
    let corpus = Corpus::from_args(Some("https://wiki.example"), PathBuf::from("/srv/wiki"));
    let content = "Some words here [a link](other.md) and [out](https://x.org/p#q)\n\n\
                   [abs](https://wiki.example/top/page) [frag](#local) end";
    let mut w = walk(&corpus, "dir/page", content);
    let mut keys = Vec::new();
    while let Some((_, key)) = w.next() {
        keys.push(key);
    }
    assert_eq!(
        keys,
        vec![
            ObjectKey::File("dir/page/other".to_string()),
            ObjectKey::External("https://x.org/p".to_string()),
            ObjectKey::File("top/page".to_string()),
        ]
    );
    let page = WikiPage::from(w);
    assert_eq!(page.words, 3 + 2 + 1 + 1 + 1 + 1 + 1);
}

#[test]
fn process_markdown_file_links_the_page() {
    let corpus = Corpus::from_args(None, PathBuf::from("/nonexistent-wiki-root"));
    let mut walker = CorpusWalker { corpus: &corpus, g: LinkGraph::new() };
    let ok = walker.process_markdown_file(
        "hello [x](x.md) [y](https://y.org) [x again](./x)",
        "p",
        |_: &Path| false,
    );
    assert!(ok);
    let g = walker.g;
    assert_eq!(g.nodes.len(), 3);
    assert_eq!(
        g.nodes[0].object,
        Object::File(FileObject::WikiPage(page(1 + 1 + 1 + 2)))
    );
    assert_eq!(g.nodes[1].object, Object::File(FileObject::Mystery { found: false }));
    assert_eq!(g.nodes[2].object, Object::External);
    let edges: Vec<(usize, usize)> = g.edges.iter().map(|&(a, b)| (a.into(), b.into())).collect();
    assert_eq!(edges, vec![(0, 1), (0, 2), (0, 1)]);
}

#[test]
fn process_markdown_file_probes_the_disk_paths() {
    let corpus = Corpus::from_args(None, PathBuf::from("/wiki"));
    let mut walker = CorpusWalker { corpus: &corpus, g: LinkGraph::new() };
    let ok = walker.process_markdown_file("[a](a) [b](b)", "p", |p: &Path| p == Path::new("/wiki/p/a.md"));
    assert!(ok);
    assert_eq!(walker.g.nodes[1].object, Object::File(FileObject::Mystery { found: true }));
    assert_eq!(walker.g.nodes[2].object, Object::File(FileObject::Mystery { found: false }));
}

#[test]
fn count_words_adds_up_across_a_blank() {
    for (a, b) in [("one two", "three"), ("", "x y"), ("a ", " b"), ("", "")] {
        let joined = format!("{a} {b}");
        assert_eq!(count_words(&joined), count_words(a) + count_words(b));
    }
}

#[test]
fn hidden_entries_are_passed_over() {
    assert!(is_hidden_entry(None));
    assert!(is_hidden_entry(Some(b"")));
    assert!(is_hidden_entry(Some(b".git")));
    assert!(!is_hidden_entry(Some(b"notes.md")));
}

#[test]
fn only_md_files_are_pages() {
    assert!(has_markdown_extension(Some(b"md")));
    assert!(!has_markdown_extension(Some(b"mdx")));
    assert!(!has_markdown_extension(Some(b"txt")));
    assert!(!has_markdown_extension(None));
}

#[test]
fn page_locations_are_normalised_links() {
    assert_eq!(page_location(Path::new("dir/page")), Some(Some("dir/page".to_string())));
    assert_eq!(page_location(Path::new("./a/../b")), Some(Some("b".to_string())));
    assert_eq!(page_location(Path::new("")), Some(Some(".".to_string())));
    assert_eq!(page_location(Path::new("../x")), Some(None));
    assert_eq!(page_location(Path::new("/abs/page")), None);
}

#[test]
fn intern_unknown_probes_files_and_keeps_urls() {
    let corpus = Corpus::from_args(None, PathBuf::from("/wiki"));
    let mut walker = CorpusWalker { corpus: &corpus, g: LinkGraph::new() };
    let probe = |p: &Path| p == Path::new("/wiki/docs/a");
    let a = walker.intern_unknown(ObjectKey::File("docs/a".to_string()), probe);
    let b = walker.intern_unknown(ObjectKey::File("docs/b".to_string()), probe);
    let u = walker.intern_unknown(ObjectKey::External("https://u".to_string()), probe);
    let a2 = walker.intern_unknown(ObjectKey::File("docs/a".to_string()), |_: &Path| false);
    assert_eq!(a.index(), 0);
    assert_eq!(b.index(), 1);
    assert_eq!(u.index(), 2);
    assert_eq!(a2, a);
    assert_eq!(walker.g.nodes[1].object, Object::File(FileObject::Mystery { found: false }));
    assert_eq!(walker.g.nodes[2].object, Object::External);
    // Probing again without finding the file marks it as missing.
    assert_eq!(walker.g.nodes[0].object, Object::File(FileObject::Mystery { found: false }));
    assert!(walker.g.edges.is_empty());
}

#[test]
fn process_markdown_file_stops_at_a_disk_path_ending_in_a_slash() {
    // The wiki's own directory, written with a trailing slash, is where `/` leads.
    let corpus = Corpus::from_args(None, PathBuf::from("/wiki/"));
    let mut walker = CorpusWalker { corpus: &corpus, g: LinkGraph::new() };
    let ok = walker.process_markdown_file("[x](https://x.org) [root](/) [y](y)", "p", |_: &Path| false);
    assert!(!ok);
    // The page and the link before the bad one are in; nothing after it is.
    assert_eq!(walker.g.nodes.len(), 2);
    assert_eq!(walker.g.edges.len(), 1);
}

#[test]
fn page_locations_from_canonical_paths() {
    let root = Path::new("/srv/wiki");
    assert_eq!(
        page_location_in(Path::new("/srv/wiki/dir/page.md"), root),
        Some(Some("dir/page".to_string()))
    );
    assert_eq!(page_location_in(Path::new("/srv/wiki/top.md"), root), Some(Some("top".to_string())));
    assert_eq!(page_location_in(Path::new("/elsewhere/page.md"), root), None);
}
