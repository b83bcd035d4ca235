use bsr::attributes::Attributes;
use bsr::parse::{get_and_parse_html, parse_html, HTMLParser, HtmlError};
use bsr::tree::{
    BSRObject, HTMLContent, NodeFilter, NodeTest, ParseTree, PrunedSearchIter, SearchIter,
    SearchTreeIter, Searcher, Tag, TreeIter,
};

const PAGE: &str = "<body>\n        <div>\n            <h1>foo</h1>\n            <a>link</a>\n        </div>\n        <div>\n            <p>baz<a>bar</a>qux</p>\n        </div>\n    </body>";

fn attrs(pairs: &[(&str, &str)]) -> Attributes {
    let mut a = Attributes::new();
    for (k, v) in pairs {
        a.insert(k.to_string(), v.to_string());
    }
    a
}

fn label(node: &HTMLContent) -> String {
    match node {
        HTMLContent::Raw(s) => s.clone(),
        HTMLContent::Tag(t) => format!("<{}>", t.get_tag()),
    }
}

fn labels(mut it: TreeIter) -> Vec<String> {
    let mut out = Vec::new();
    while let Some(n) = it.next() {
        out.push(label(n));
    }
    out
}

fn search_labels(mut it: SearchIter<NodeTest>) -> Vec<String> {
    let mut out = Vec::new();
    while let Some(n) = it.next() {
        out.push(label(n));
    }
    out
}

fn pruned_labels(mut it: PrunedSearchIter<NodeTest, NodeTest>) -> Vec<String> {
    let mut out = Vec::new();
    while let Some(n) = it.next() {
        out.push(label(n));
    }
    out
}

fn search_tree_labels<F: NodeFilter>(mut it: SearchTreeIter<F>) -> Vec<String> {
    let mut out = Vec::new();
    while let Some(n) = it.next() {
        out.push(label(n));
    }
    out
}

const PRE: [&str; 12] =
    ["<body>", "<div>", "<h1>", "foo", "<a>", "link", "<div>", "<p>", "baz", "<a>", "bar", "qux"];
const LEVEL: [&str; 12] =
    ["<body>", "<div>", "<div>", "<h1>", "<a>", "<p>", "foo", "link", "baz", "<a>", "qux", "bar"];

#[test]
fn testing_tree_pre_order() {
    let tree = ParseTree::testing_tree();
    assert_eq!(labels(tree.pre_iter()), PRE.to_vec());
    assert_eq!(labels(tree.iter(true)), PRE.to_vec());
}

#[test]
fn testing_tree_level_order() {
    let tree = ParseTree::testing_tree();
    assert_eq!(labels(tree.level_iter()), LEVEL.to_vec());
    assert_eq!(labels(tree.iter(false)), LEVEL.to_vec());
}

#[test]
fn traversals_visit_same_nodes() {
    let tree = ParseTree::testing_tree();
    let mut pre = labels(tree.pre_iter());
    let mut level = labels(tree.level_iter());
    assert_eq!(pre.len(), 12);
    assert_eq!(pre[0], level[0]);
    pre.sort();
    level.sort();
    assert_eq!(pre, level);
}

#[test]
fn subtree_iterators() {
    let tree = ParseTree::testing_tree();
    let div2 = match &tree.root {
        HTMLContent::Tag(body) => &body.content[1],
        HTMLContent::Raw(_) => panic!("root is a tag"),
    };
    assert_eq!(labels(div2.pre_iter()), vec!["<div>", "<p>", "baz", "<a>", "bar", "qux"]);
    assert_eq!(labels(div2.level_iter()), vec!["<div>", "<p>", "baz", "<a>", "qux", "bar"]);
    assert_eq!(labels(div2.iter(false)), labels(div2.level_iter()));
    let leaf = HTMLContent::Raw("x".to_string());
    assert_eq!(labels(leaf.iter(true)), vec!["x"]);
}

#[test]
fn iterator_stays_empty() {
    let leaf = HTMLContent::Raw("x".to_string());
    let mut it = leaf.pre_iter();
    assert!(it.next().is_some());
    assert!(it.next().is_none());
    assert!(it.next().is_none());
}

#[test]
fn search_raw_pre_order() {
    let tree = ParseTree::testing_tree();
    let res = tree.search(true, "raw").ok().unwrap();
    assert_eq!(search_labels(res), vec!["foo", "link", "baz", "bar", "qux"]);
}

#[test]
fn search_raw_level_order() {
    let tree = ParseTree::testing_tree();
    let res = tree.search(false, "raw").ok().unwrap();
    assert_eq!(search_labels(res), vec!["foo", "link", "baz", "qux", "bar"]);
}

#[test]
fn search_unknown_pattern() {
    let tree = ParseTree::testing_tree();
    assert_eq!(tree.search(true, "tag=a").err(), Some("could not parse search pattern"));
    assert_eq!(tree.search2(true, "rawx").err(), Some("could not parse search pattern"));
    assert_eq!(tree.root.search(false, "").err(), Some("could not parse search pattern"));
}

#[test]
fn search2_matches_search() {
    let tree = ParseTree::testing_tree();
    for order in [true, false] {
        let a = search_labels(tree.search(order, "raw").ok().unwrap());
        let b = pruned_labels(tree.search2(order, "raw").ok().unwrap());
        assert_eq!(a, b);
    }
}

#[test]
fn content_search() {
    let tree = ParseTree::testing_tree();
    let res = tree.root.search(true, "raw").ok().unwrap();
    assert_eq!(search_labels(res), vec!["foo", "link", "baz", "bar", "qux"]);
}

#[test]
fn search_closures() {
    assert_eq!(Searcher::generate_closure("raw"), Ok(NodeTest::IsRaw));
    assert_eq!(Searcher::generate_closure("Raw"), Err("could not parse search pattern"));
    assert_eq!(Searcher::generate_closure2("raw"), Ok((NodeTest::IsRaw, NodeTest::Nothing)));
    assert_eq!(Searcher::generate_closure2("ra"), Err("could not parse search pattern"));
}

#[test]
fn node_tests() {
    let raw = HTMLContent::Raw("x".to_string());
    let tag = HTMLContent::Tag(Box::new(Tag {
        tag_type: "p".to_string(),
        attributes: Attributes::new(),
        content: vec![],
    }));
    assert!(NodeTest::IsRaw.test(&raw));
    assert!(!NodeTest::IsRaw.test(&tag));
    assert!(!NodeTest::Nothing.test(&raw));
    assert!(!NodeTest::Nothing.test(&tag));
}

#[test]
fn pruned_traversal_skips_raw_subtrees() {
    let tree = ParseTree::testing_tree();
    let pre = SearchTreeIter::new(true, NodeTest::IsRaw, &tree.root);
    assert_eq!(search_tree_labels(pre), vec!["<body>", "<div>", "<h1>", "<a>", "<div>", "<p>", "<a>"]);
    let level = SearchTreeIter::new(false, NodeTest::IsRaw, &tree.root);
    assert_eq!(search_tree_labels(level), vec!["<body>", "<div>", "<div>", "<h1>", "<a>", "<p>", "<a>"]);
    let leaf = HTMLContent::Raw("x".to_string());
    let mut none = SearchTreeIter::new(true, NodeTest::IsRaw, &leaf);
    assert!(none.next().is_none());
}

#[test]
fn pruned_search_iter_filters() {
    let tree = ParseTree::testing_tree();
    let inner = SearchTreeIter::new(false, NodeTest::Nothing, &tree.root);
    let it = PrunedSearchIter::new(inner, NodeTest::IsRaw);
    assert_eq!(pruned_labels(it), vec!["foo", "link", "baz", "qux", "bar"]);
    let plain = SearchIter::new(TreeIter::new(true, &tree.root), NodeTest::Nothing);
    assert!(search_labels(plain).is_empty());
}

#[test]
fn get_tag_gives_type() {
    let t = Tag { tag_type: "span".to_string(), attributes: Attributes::new(), content: vec![] };
    assert_eq!(t.get_tag(), "span");
}

#[test]
fn fetched_page_parses_to_testing_tree() {
    let tree = get_and_parse_html(PAGE).unwrap();
    let expected = ParseTree::testing_tree();
    assert_eq!(tree, expected);
    assert_eq!(ParseTree::new(PAGE), expected);
    assert_eq!(parse_html(PAGE).unwrap(), expected);
    assert_eq!(get_and_parse_html("<p>other page</p>").unwrap(), parse_html("<p>other page</p>").unwrap());
}

#[test]
fn bsr_object_builds_trees() {
    let b = BSRObject::new();
    assert_eq!(b.build_tree(PAGE), ParseTree::testing_tree());
    assert_eq!(b.build_tree("<a/>"), parse_html("<a/>").unwrap());
}

#[test]
fn parse_syntax_errors() {
    assert_eq!(parse_html("no tags here"), Err(HtmlError::Syntax));
    assert_eq!(parse_html("<div>"), Err(HtmlError::Syntax));
    assert_eq!(parse_html("<div></div> trailing"), Err(HtmlError::Syntax));
    assert_eq!(parse_html("<div><!-- note --></div>"), Err(HtmlError::Syntax));
    assert_eq!(parse_html("<a href=x></a>"), Err(HtmlError::Syntax));
    assert_eq!(parse_html(""), Err(HtmlError::Syntax));
}

#[test]
fn parse_unmatched_tags() {
    assert_eq!(HTMLParser::parse("<div><p>x</div></p>"), Err(HtmlError::UnmatchedTags));
    assert_eq!(HTMLParser::parse("<div></span>"), Err(HtmlError::UnmatchedTags));
    // a syntax error anywhere comes before a mismatch
    assert_eq!(HTMLParser::parse("<div></span> x"), Err(HtmlError::Syntax));
    assert!(HTMLParser::parse("<div></div>").is_ok());
}

#[test]
fn parse_attributes_as_map() {
    let tree = parse_html("<a x=\"1\" y = \"2\" x=\"3\"/>").unwrap();
    let expected = ParseTree {
        root: HTMLContent::Tag(Box::new(Tag {
            tag_type: "a".to_string(),
            attributes: attrs(&[("x", "3"), ("y", "2")]),
            content: vec![],
        })),
    };
    assert_eq!(tree, expected);
}

#[test]
fn parse_trims_and_drops_text() {
    let tree = parse_html("  <p>  <b>\u{3000}x y\u{a0}</b>\n\t</p>\n").unwrap();
    let b = HTMLContent::Tag(Box::new(Tag {
        tag_type: "b".to_string(),
        attributes: Attributes::new(),
        content: vec![HTMLContent::Raw("x y".to_string())],
    }));
    let expected = ParseTree {
        root: HTMLContent::Tag(Box::new(Tag {
            tag_type: "p".to_string(),
            attributes: Attributes::new(),
            content: vec![b],
        })),
    };
    assert_eq!(tree, expected);
}

#[test]
fn parse_close_tag_space_and_text_with_gt() {
    let tree = parse_html("<p>a > b</p >").unwrap();
    let expected = ParseTree {
        root: HTMLContent::Tag(Box::new(Tag {
            tag_type: "p".to_string(),
            attributes: Attributes::new(),
            content: vec![HTMLContent::Raw("a > b".to_string())],
        })),
    };
    assert_eq!(tree, expected);
}

#[test]
fn attributes_compare_as_maps() {
    assert_eq!(attrs(&[("x", "1"), ("y", "2")]), attrs(&[("y", "2"), ("x", "1")]));
    assert_eq!(attrs(&[("x", "1"), ("x", "2")]), attrs(&[("x", "2")]));
    assert_ne!(attrs(&[("x", "1")]), attrs(&[("x", "2")]));
    assert_ne!(attrs(&[("x", "1")]), attrs(&[("x", "1"), ("y", "1")]));
    assert_ne!(attrs(&[("x", "1"), ("y", "1")]), attrs(&[("x", "1")]));
    let a = attrs(&[("x", "1"), ("y", "2"), ("x", "3")]);
    let names: Vec<(String, String)> = a.entries().clone();
    assert_eq!(names, vec![("x".to_string(), "3".to_string()), ("y".to_string(), "2".to_string())]);
}

struct TagNamed(&'static str);

impl NodeFilter for TagNamed {
    fn holds(&self, node: HTMLContent) -> bool {
        self.test(&node)
    }

    fn test(&self, node: &HTMLContent) -> bool {
        match node {
            HTMLContent::Tag(t) => t.tag_type == self.0,
            HTMLContent::Raw(_) => false,
        }
    }
}

#[test]
fn pruning_by_any_filter() {
    let tree = ParseTree::testing_tree();
    let pre = SearchTreeIter::new(true, TagNamed("div"), &tree.root);
    assert_eq!(search_tree_labels(pre), vec!["<body>"]);
    let pre = SearchTreeIter::new(true, TagNamed("p"), &tree.root);
    assert_eq!(search_tree_labels(pre), vec!["<body>", "<div>", "<h1>", "foo", "<a>", "link", "<div>"]);
    let level = SearchTreeIter::new(false, TagNamed("a"), &tree.root);
    assert_eq!(search_tree_labels(level), vec!["<body>", "<div>", "<div>", "<h1>", "<p>", "foo", "baz", "qux"]);
    let none = SearchTreeIter::new(false, TagNamed("body"), &tree.root);
    assert!(search_tree_labels(none).is_empty());
}
