use std::ops::ControlFlow;
use std::path::{Path, PathBuf};

use wikigraph_model::links::{
    extend_path_with_link, path_to_link, permute_markdown_aliases, relative_path_to_link,
};

#[test]
fn extend_path_follows_the_link() {
    let root = Path::new("/wiki");
    let here = Path::new("/wiki/guide");
    assert_eq!(extend_path_with_link(root, here, "a/b"), PathBuf::from("/wiki/guide/a/b"));
    assert_eq!(extend_path_with_link(root, here, "../c"), PathBuf::from("/wiki/c"));
    assert_eq!(extend_path_with_link(root, here, "/top/./x"), PathBuf::from("/wiki/top/x"));
    assert_eq!(extend_path_with_link(root, here, ""), PathBuf::from("/wiki/guide"));
}

#[test]
fn path_to_link_writes_each_component_with_a_slash() {
    assert_eq!(path_to_link(Path::new("a/b")).as_deref(), Some("a/b/"));
    assert_eq!(path_to_link(Path::new("./x/../y")).as_deref(), Some("./x/../y/"));
    assert_eq!(path_to_link(Path::new("")).as_deref(), Some(""));
}

#[test]
fn relative_path_to_link_refuses_absolute_paths() {
    assert_eq!(relative_path_to_link(Path::new("/a/b")), None);
    assert_eq!(relative_path_to_link(Path::new("a/b")), Some(Some("a/b/".to_string())));
}

#[test]
fn permute_tries_the_path_then_the_md_alias() {
    let mut seen = Vec::new();
    let r: ControlFlow<()> = permute_markdown_aliases(PathBuf::from("/w/page"), |p: &Path| {
        seen.push(p.to_path_buf());
        ControlFlow::Continue(())
    });
    assert_eq!(r, ControlFlow::Continue(()));
    assert_eq!(seen, vec![PathBuf::from("/w/page"), PathBuf::from("/w/page.md")]);

    let r = permute_markdown_aliases(PathBuf::from("/w/page"), |p: &Path| {
        if p == Path::new("/w/page") { ControlFlow::Break(1) } else { ControlFlow::Break(2) }
    });
    assert_eq!(r, ControlFlow::Break(1));

    let r = permute_markdown_aliases(PathBuf::from("/w/page"), |p: &Path| {
        if p.extension().is_some() { ControlFlow::Break("md") } else { ControlFlow::Continue(()) }
    });
    assert_eq!(r, ControlFlow::Break("md"));
}

#[test]
fn following_two_links_in_turn_is_following_them_joined() {
    let root = Path::new("/wiki");
    let here = Path::new("/wiki/docs");
    for (l1, l2) in [("a", "b"), ("../x", "y/z"), ("a/..", ".."), ("./a", "")] {
        let joined = format!("{l1}/{l2}");
        let step = extend_path_with_link(root, here, l1);
        assert_eq!(
            extend_path_with_link(root, here, &joined),
            extend_path_with_link(root, &step, l2),
            "{l1} then {l2}"
        );
    }
}

#[test]
fn path_to_link_of_a_joined_path_joins_the_links() {
    let p = Path::new("a/../b");
    let q = Path::new("c/d");
    let joined = path_to_link(&p.join(q)).unwrap();
    assert_eq!(joined, format!("{}{}", path_to_link(p).unwrap(), path_to_link(q).unwrap()));
}
