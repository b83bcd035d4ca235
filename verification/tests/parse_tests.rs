use bsr::parse::{parse_end_tag, parse_html, parse_html_element, parse_start_tag};
use bsr::attributes::Attributes;
use bsr::text::to_chars;
use bsr::tree::{HTMLContent, ParseTree, Tag};

fn generate_hashmap(tuples: Vec<(&str, &str)>) -> Attributes {
    let mut hm = Attributes::new();
    for tup in tuples {
        hm.insert(tup.0.to_string(), tup.1.to_string());
    }
    hm
}

fn tag(tag_name: &str, attributes: Vec<(&str, &str)>, content: Vec<HTMLContent>) -> Tag {
    Tag { tag_type: tag_name.to_string(), attributes: generate_hashmap(attributes), content }
}

fn raw(s: &str) -> HTMLContent {
    HTMLContent::Raw(s.to_string())
}

fn node(t: Tag) -> HTMLContent {
    HTMLContent::Tag(Box::new(t))
}

fn assert_element(element: Tag, tag_name: &str, attributes: Vec<(&str, &str)>, content: Vec<HTMLContent>) {
    assert_eq!(element, tag(tag_name, attributes, content));
}

fn element_of(html: &str) -> Tag {
    let chars = to_chars(html);
    parse_html_element(&chars, 0).unwrap().0
}

#[test]
fn parse_end_tag_test() {
    assert_eq!("div", parse_end_tag(&to_chars("</div>"), 0).unwrap().0);
}

#[test]
fn parse_start_tag_attribute_test() {
    let hm = generate_hashmap(vec![("href", "google.com"), ("id", "foo")]);
    let t = parse_start_tag(&to_chars("<a href=\"google.com\" id=\"foo\">"), 0).unwrap();
    assert_eq!(("a".to_string(), hm), (t.name, t.attributes));
}

#[test]
fn parse_self_closing_tag_test() {
    let hm = generate_hashmap(vec![("href", "google.com"), ("foo", "bar")]);
    let t = parse_start_tag(&to_chars("<br href=\"google.com\" foo=\"bar\"/>"), 0).unwrap();
    assert_eq!(("br".to_string(), hm), (t.name, t.attributes));
}

#[test]
fn parse_element_empty_content_test() {
    let res = element_of("<div></div>");
    assert_element(res, "div", vec![], vec![]);
}

#[test]
fn parse_element_raw_content_only_test() {
    let res = element_of("<div>FOO</div>");
    let c = raw("FOO");
    assert_element(res, "div", vec![], vec![c]);
}

#[test]
fn parse_element_nested_test1() {
    let res = element_of("<div><p>FOO</p></div>");
    let foo = raw("FOO");
    let p = node(tag("p", vec![], vec![foo]));
    assert_element(res, "div", vec![], vec![p]);
}

#[test]
fn parse_element_nested_test2() {
    let res = element_of("<div>HI<p>FOO</p>HELLO</div>");
    let foo = raw("FOO");
    let hi = raw("HI");
    let hello = raw("HELLO");
    let p = node(tag("p", vec![], vec![foo]));
    assert_element(res, "div", vec![], vec![hi, p, hello]);
}

#[test]
fn parse_full_html_test1() {
    let raw_html = r#"<html>
            <head>
                <title>   TITLE  </title>
            </head>
            <body>
            SOME INITIAL TEXT
                <div id="id1">
                    <p>This is paragraph 1.</p>
                    <p>This is <br /> paragraph 2.</p>
                    <h3>Header!!</h3>
                    <a href="https://www.theatlantic.com/" id="link">Atlantic</a>
                </div>
                <div id="empty">

                </div>
            SOME FINAL TEXT
            </body>
            </html>"#;

    let res = parse_html(raw_html).unwrap();

    let title = raw("TITLE");
    let initial_text = raw("SOME INITIAL TEXT");
    let final_text = raw("SOME FINAL TEXT");
    let p1 = raw("This is paragraph 1.");
    let p2_1 = raw("This is");
    let p2_2 = raw("paragraph 2.");
    let h3 = raw("Header!!");
    let a = raw("Atlantic");

    let title = node(tag("title", vec![], vec![title]));
    let p1 = node(tag("p", vec![], vec![p1]));
    let br = node(tag("br", vec![], vec![]));
    let p2 = node(tag("p", vec![], vec![p2_1, br, p2_2]));
    let h3 = node(tag("h3", vec![], vec![h3]));
    let a = node(tag("a", vec![("href", "https://www.theatlantic.com/"), ("id", "link")], vec![a]));
    let div1 = node(tag("div", vec![("id", "id1")], vec![p1, p2, h3, a]));
    let div2 = node(tag("div", vec![("id", "empty")], vec![]));
    let head = node(tag("head", vec![], vec![title]));
    let body = node(tag("body", vec![], vec![initial_text, div1, div2, final_text]));

    let parsed_html = ParseTree { root: node(tag("html", vec![], vec![head, body])) };

    assert_eq!(res, parsed_html);
}

#[test]
fn parse_full_html_test2() {
    let raw_html = r#"<body>
            <div>
                <h1>foo</h1>
                <a>link</a>
            </div>
            <div>
                <p>baz<a>bar</a>qux</p>
            </div>
        </body>"#;

    let res = parse_html(raw_html).unwrap();

    let h1 = tag("h1", vec![], vec![raw("foo")]);
    let a1 = tag("a", vec![], vec![raw("link")]);
    let div1 = tag("div", vec![], vec![node(h1), node(a1)]);
    let a2 = tag("a", vec![], vec![raw("bar")]);
    let p = tag("p", vec![], vec![raw("baz"), node(a2), raw("qux")]);
    let div2 = tag("div", vec![], vec![node(p)]);
    let body = tag("body", vec![], vec![node(div1), node(div2)]);

    let parse_tree = ParseTree { root: node(body) };

    assert_eq!(res, parse_tree);
}

#[test]
fn written_tree_reads_back() {
    let written = "<p class=\"x\" id=\"y\">one<b>two</b>three<i></i></p>";
    let expected = ParseTree {
        root: node(tag(
            "p",
            vec![("class", "x"), ("id", "y")],
            vec![raw("one"), node(tag("b", vec![], vec![raw("two")])), raw("three"), node(tag("i", vec![], vec![]))],
        )),
    };
    assert_eq!(parse_html(written).unwrap(), expected);
}

#[test]
fn space_at_tag_boundaries_is_ignored() {
    let tight = "<p class=\"x\"><b>two</b>three<i></i></p>";
    let spaced = " \n<p class=\"x\">\n\t<b>two</b>three<i>\r\n</i>\n</p>\n ";
    assert_eq!(parse_html(spaced).unwrap(), parse_html(tight).unwrap());
}

#[test]
fn element_shape_ends_at_its_close() {
    let chars = to_chars("<br x=\"1\" />tail");
    let (t, end) = parse_html_element(&chars, 0).unwrap();
    assert_element(t, "br", vec![("x", "1")], vec![]);
    assert_eq!(end, 12);
    assert_eq!(chars[end - 1], '>');
    let chars = to_chars("<div-x ><p>a</p></div-x >rest");
    let (t, end) = parse_html_element(&chars, 0).unwrap();
    assert_eq!(t.get_tag(), "div-x");
    assert_eq!(end, 25);
    assert_eq!(chars[end - 1], '>');
}

#[test]
fn space_at_any_tag_boundary_is_ignored() {
    let plain = parse_html("<p>a<b>x</b>c<i/></p>").unwrap();
    let spaced = parse_html(" <p>\n a \t<b> x </b>\r\nc <i/>  </p>\n").unwrap();
    assert_eq!(plain, spaced);
    let expected = ParseTree {
        root: node(tag(
            "p",
            vec![],
            vec![raw("a"), node(tag("b", vec![], vec![raw("x")])), raw("c"), node(tag("i", vec![], vec![]))],
        )),
    };
    assert_eq!(plain, expected);
}
