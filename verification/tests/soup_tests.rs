use bsr::rusty_soup::{HTMLContent, ParseTree, PtLevelOrderIter, PtPreOrderIter};

fn label(node: &HTMLContent) -> String {
    match node {
        HTMLContent::Raw(s) => s.clone(),
        HTMLContent::Tag(t) => format!("<{}>", t.get_tag()),
    }
}

fn pre_labels(mut it: PtPreOrderIter) -> Vec<String> {
    let mut out = Vec::new();
    while let Some(n) = it.next() {
        out.push(label(n));
    }
    out
}

fn level_labels(mut it: PtLevelOrderIter) -> Vec<String> {
    let mut out = Vec::new();
    while let Some(n) = it.next() {
        out.push(label(n));
    }
    out
}

#[test]
fn soup_pre_order() {
    let tree = ParseTree::testing_tree();
    assert_eq!(
        pre_labels(tree.pre_iter()),
        vec!["<body>", "<div>", "<h1>", "foo", "<a>", "link", "<div>", "<p>", "baz", "<a>", "bar", "qux"]
    );
}

#[test]
fn soup_level_order() {
    let tree = ParseTree::testing_tree();
    assert_eq!(
        level_labels(tree.level_iter()),
        vec!["<body>", "<div>", "<div>", "<h1>", "<a>", "<p>", "foo", "link", "baz", "<a>", "qux", "bar"]
    );
}

#[test]
fn soup_find_tags() {
    let tree = ParseTree::testing_tree();
    let found = tree.pre_iter().find_tags("a".to_string());
    assert_eq!(found.len(), 2);
    assert!(found.iter().all(|n| label(n) == "<a>"));
    assert!(tree.pre_iter().find_tags("table".to_string()).is_empty());
    let divs = tree.pre_iter().find_tags("div".to_string());
    let inner: Vec<String> = divs.iter().map(|d| pre_labels(d.pre_iter()).join(",")).collect();
    assert_eq!(inner, vec!["<div>,<h1>,foo,<a>,link", "<div>,<p>,baz,<a>,bar,qux"]);
}

#[test]
fn soup_find_tags2() {
    let tree = ParseTree::testing_tree();
    let found = tree.pre_iter().find_tags2("a".to_string());
    let names: Vec<&String> = found.iter().map(|t| t.get_tag()).collect();
    assert_eq!(names, vec!["a", "a"]);
    let mut it = tree.pre_iter();
    it.next();
    it.next();
    assert_eq!(it.find_tags2("div".to_string()).len(), 1);
}

#[test]
fn soup_new_is_placeholder() {
    let tree = ParseTree::new("https://example.com");
    assert_eq!(pre_labels(tree.pre_iter()), vec!["link"]);
    assert_eq!(level_labels(tree.level_iter()), vec!["link"]);
}

#[test]
fn soup_content_iterators() {
    let leaf = HTMLContent::Raw("x".to_string());
    assert_eq!(pre_labels(leaf.pre_iter()), vec!["x"]);
    assert_eq!(level_labels(leaf.level_iter()), vec!["x"]);
    let mut it = PtPreOrderIter::new(&leaf);
    assert!(it.next().is_some());
    assert!(it.next().is_none());
    let mut lv = PtLevelOrderIter::new(&leaf);
    assert!(lv.next().is_some());
    assert!(lv.next().is_none());
}

#[test]
fn soup_find_tags_agree() {
    let tree = ParseTree::testing_tree();
    let nodes = tree.pre_iter().find_tags("div".to_string());
    let tags = tree.pre_iter().find_tags2("div".to_string());
    assert_eq!(nodes.len(), tags.len());
    for (n, t) in nodes.iter().zip(tags.iter()) {
        match n {
            HTMLContent::Tag(b) => assert!(std::ptr::eq(&**b, *t)),
            HTMLContent::Raw(_) => panic!("a tag was expected"),
        }
    }
}
