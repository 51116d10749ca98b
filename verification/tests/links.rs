use wikigraph_model::links::{lexical_normalize_relative_to, NormalizeError};

#[test]
fn normalizes_relative_to() {
    let a = "foo/bar/baz";
    let b = "this/and/that";
    assert_eq!(
        lexical_normalize_relative_to(a, b).as_deref(),
        Ok("this/and/that/foo/bar/baz"),
    );
}

#[test]
fn normalizes_relative_to_empty_str() {
    let a = "foo/bar/baz";
    let b = "";
    assert_eq!(
        lexical_normalize_relative_to(a, b).as_deref(),
        Ok("foo/bar/baz")
    );
}

#[test]
fn normalizes_relative_to_empty_str2() {
    let a = "";
    let b = "this/and/that";
    assert_eq!(
        lexical_normalize_relative_to(a, b).as_deref(),
        Ok("this/and/that")
    );
}

#[test]
fn normalizes_relative_to_empty_str3() {
    let a = "";
    let b = "";
    assert_eq!(lexical_normalize_relative_to(a, b).as_deref(), Ok("."));
}

#[test]
fn normalizes_relative_to_trailing_slashes() {
    let a = "foo/bar/baz//";
    let b = "this/and/that";
    assert_eq!(
        lexical_normalize_relative_to(a, b).as_deref(),
        Ok("this/and/that/foo/bar/baz"),
    );
}

#[test]
fn normalizes_relative_to_trailing_slash_base() {
    let a = "foo/bar/baz";
    let b = "this/and/that/";
    assert_eq!(
        lexical_normalize_relative_to(a, b).as_deref(),
        Ok("this/and/that/foo/bar/baz"),
    );
}

#[test]
fn normalizes_relative_to_curdir() {
    let a = "./foo/./bar/./././baz/.";
    let b = "this/and/that";
    assert_eq!(
        lexical_normalize_relative_to(a, b).as_deref(),
        Ok("this/and/that/foo/bar/baz"),
    );
}

#[test]
fn normalizes_relative_to_pardir() {
    let a = "../foo/../bar/../baz/..";
    let b = "this/and/that";
    assert_eq!(
        lexical_normalize_relative_to(a, b).as_deref(),
        Ok("this/and"),
    );
}

#[test]
fn normalizes_relative_to_absolute() {
    let a = "/foo/bar/../baz";
    let b = "this/and/that";
    assert_eq!(
        lexical_normalize_relative_to(a, b).as_deref(),
        Ok("foo/baz"),
    );
}

#[test]
fn normalizes_relative_to_back2root() {
    let a = "../../..";
    let b = "this/and/that";
    assert_eq!(lexical_normalize_relative_to(a, b).as_deref(), Ok("."));
}

#[test]
fn normalizes_relative_to_noescape() {
    let a = "../../../..";
    let b = "this/and/that";
    assert_eq!(
        lexical_normalize_relative_to(a, b).as_deref(),
        Err(&NormalizeError),
    );
}

#[test]
fn normalizes_relative_to_root_curdur() {
    let a = ".";
    let b = "/";
    assert_eq!(lexical_normalize_relative_to(a, b).as_deref(), Ok("/"));
}

use wikigraph_model::links::{components, LinkComponent};

fn component_list(s: &str) -> Vec<String> {
    let mut comps = components(s);
    let mut out = Vec::new();
    while let Some(c) = comps.next() {
        out.push(match c {
            LinkComponent::Root => "<root>".to_string(),
            LinkComponent::Current => ".".to_string(),
            LinkComponent::Parent => "..".to_string(),
            LinkComponent::Text(t) => t.to_string(),
        });
    }
    out
}

#[test]
fn components_split_on_slashes() {
    assert_eq!(component_list("a/b//c/"), vec!["a", "b", "c"]);
    assert_eq!(component_list("/a/../b"), vec!["<root>", "a", "..", "b"]);
    assert_eq!(component_list("./"), vec!["."]);
    assert_eq!(component_list("./x/./y"), vec![".", "x", ".", "y"]);
    assert_eq!(component_list(""), Vec::<String>::new());
    assert_eq!(component_list("//"), vec!["<root>"]);
    assert_eq!(component_list("...//x"), vec!["...", "x"]);
}

#[test]
fn components_after_the_first_never_root() {
    for s in ["/a//b", "x/y", "//", "/./..", "a/"] {
        let list = component_list(s);
        assert!(list.iter().skip(1).all(|c| c != "<root>"));
    }
}

#[test]
fn next_component_counts_bytes_and_keeps_state() {
    let mut comps = components("h\u{e9}llo/w");
    let (n, c) = comps.next_component();
    assert_eq!(n, "h\u{e9}llo".len() + 1);
    assert!(matches!(c, Some(LinkComponent::Text("h\u{e9}llo"))));
    // It does not consume anything.
    let (n2, _) = comps.next_component();
    assert_eq!(n2, n);
    let mut last = components("..");
    assert!(matches!(last.next_component(), (2, Some(LinkComponent::Parent))));
    let mut empty = components("/x");
    assert!(matches!(empty.next_component(), (1, None)));
}

#[test]
fn normalize_strips_markdown_suffix_once() {
    assert_eq!(lexical_normalize_relative_to("a/b.md", "r").as_deref(), Ok("r/a/b"));
    assert_eq!(lexical_normalize_relative_to("b.md.md", "").as_deref(), Ok("b.md"));
    assert_eq!(lexical_normalize_relative_to(".md", "r").as_deref(), Ok("r"));
}

#[test]
fn normalize_root_slash_base() {
    assert_eq!(lexical_normalize_relative_to("x", "/").as_deref(), Ok("/x"));
    assert_eq!(lexical_normalize_relative_to("..", "/").as_deref(), Ok("."));
    assert_eq!(lexical_normalize_relative_to("../..", "/").as_deref(), Err(&NormalizeError));
}

#[test]
fn normalize_absolute_links_ignore_the_location() {
    for s in ["/a/b", "/a/../c", "/", "/../x", "/p.md"] {
        assert_eq!(
            lexical_normalize_relative_to(s, "one/two"),
            lexical_normalize_relative_to(s, "three")
        );
    }
}

#[test]
fn normalize_never_returns_empty() {
    for (s, r) in [("", ""), ("a/..", ""), ("/", "x"), ("..", "x")] {
        if let Ok(out) = lexical_normalize_relative_to(s, r) {
            assert!(!out.is_empty());
        }
    }
}

#[test]
fn normalize_ignores_a_trailing_slash() {
    for s in ["a", "a/b", "../c", "./d"] {
        let with = format!("{s}/");
        assert_eq!(
            lexical_normalize_relative_to(&with, "x/y"),
            lexical_normalize_relative_to(s, "x/y")
        );
    }
}

#[test]
fn normalize_ignores_a_leading_current_dir() {
    for s in ["", "a", "a/b", "../c", "b.md", "x/./y"] {
        let with = format!("./{s}");
        assert_eq!(
            lexical_normalize_relative_to(&with, "x/y"),
            lexical_normalize_relative_to(s, "x/y")
        );
    }
}

#[test]
fn collect_runs_the_components_to_the_end() {
    for s in ["/a//./../b", "a/b//c/", "", "./", "x"] {
        let mut comps = components(s);
        let all = comps.collect();
        let names: Vec<String> = all
            .iter()
            .map(|c| match c {
                LinkComponent::Root => "<root>".to_string(),
                LinkComponent::Current => ".".to_string(),
                LinkComponent::Parent => "..".to_string(),
                LinkComponent::Text(t) => t.to_string(),
            })
            .collect();
        assert_eq!(names, component_list(s));
        assert!(comps.next().is_none());
        assert!(comps.next().is_none());
    }
}
