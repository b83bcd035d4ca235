use vstd::prelude::*;
use crate::grammar::{
    CharClass, scan, lemma_scan, attribute, attribute_list, lemma_attribute_list,
    collect_attributes, open_tag, close_tag, lemma_open_tag, rest_len, element,
    content_item, content, document,
};
use crate::text::{to_chars, trim_bounds, string_of};
use crate::tree::{ParseTree, HTMLContent, Tag, nodes_model};
use crate::attributes::Attributes;

verus! {

impl CharClass {
    /// Whether `c` belongs to this class.
    pub fn has(&self, c: char) -> (r: bool)
        ensures
            r == self.contains(c),
    {
        match self {
            CharClass::Space => c == ' ' || c == '\t' || c == '\n' || c == '\r',
            CharClass::Name => ('a' <= c && c <= 'z') || ('A' <= c && c <= 'Z') || ('0' <= c && c
                <= '9') || c == '-' || c == '_' || c == ':',
            CharClass::Text => c != '<',
            CharClass::Quoted => c != '"',
        }
    }
}

/// The end of the run of characters of `class` that starts at `pos`.
pub fn scan_chars(input: &Vec<char>, pos: usize, class: CharClass) -> (r: usize)
    requires
        pos <= input@.len(),
    ensures
        r == scan(input@, pos as int, class),
        pos <= r <= input@.len(),
{
    proof {
        lemma_scan(input@, pos as int, class);
    }
    let mut p = pos;
    while p < input.len() && class.has(input[p])
        invariant
            pos <= p <= input@.len(),
            scan(input@, pos as int, class) == scan(input@, p as int, class),
        decreases input@.len() - p,
    {
        p = p + 1;
    }
    p
}

/// `attribute` at `pos`: name, value and the position after it.
pub fn parse_attribute(input: &Vec<char>, pos: usize) -> (r: Option<(String, String, usize)>)
    requires
        pos <= input@.len(),
    ensures
        match attribute(input@, pos as int) {
            None => r is None,
            Some((name, value, e)) => r matches Some((n, v, f)) && n@ == name && v@ == value && f
                == e,
        },
{
    let j = scan_chars(input, pos, CharClass::Name);
    let k = scan_chars(input, j, CharClass::Space);
    if !(pos < j && k < input.len() && input[k] == '=') {
        return None;
    }
    let m = scan_chars(input, k + 1, CharClass::Space);
    if !(m < input.len() && input[m] == '"') {
        return None;
    }
    let e = scan_chars(input, m + 1, CharClass::Quoted);
    if e < input.len() {
        Some((string_of(input, pos, j), string_of(input, m + 1, e), e + 1))
    } else {
        None
    }
}

/// The start tag of an element: `<name attributes>` or `<name attributes/>`.
pub struct StartTag {
    pub name: String,
    pub attributes: Attributes,
    pub self_closing: bool,
    /// The position after the tag.
    pub end: usize,
}

/// The start tag at `pos`, if one stands there.
pub fn parse_start_tag(input: &Vec<char>, pos: usize) -> (r: Option<StartTag>)
    requires
        pos <= input@.len(),
    ensures
        match open_tag(input@, pos as int) {
            None => r is None,
            Some((name, raw, closed, e)) => r matches Some(t) && t.name@ == name
                && t.attributes.pairs() == collect_attributes(raw) && t.self_closing == closed
                && t.end == e,
        },
        r matches Some(t) ==> t.end <= input@.len(),
{
    proof {
        lemma_open_tag(input@, pos as int);
    }
    let s = Ghost(input@);
    if !(pos < input.len() && input[pos] == '<') {
        return None;
    }
    let j = scan_chars(input, pos + 1, CharClass::Name);
    if !(pos + 1 < j) {
        return None;
    }
    let mut attrs = Attributes::new();
    let ghost mut raw: Seq<(Seq<char>, Seq<char>)> = seq![];
    let mut p = j;
    proof {
        lemma_attribute_list(s@, j as int);
    }
    loop
        invariant
            j <= p <= input@.len(),
            s@ == input@,
            attribute_list(s@, j as int) == (raw + attribute_list(s@, p as int).0, attribute_list(
                s@,
                p as int,
            ).1),
            attrs.pairs() == collect_attributes(raw),
        ensures
            j <= p <= input@.len(),
            attribute_list(s@, j as int) == (raw, p as int),
            attrs.pairs() == collect_attributes(raw),
        decreases input@.len() - p,
    {
        let q = scan_chars(input, p, CharClass::Space);
        if !(p < input.len() && p < q) {
            assert(raw + seq![] =~= raw);
            break;
        }
        match parse_attribute(input, q) {
            None => {
                assert(raw + seq![] =~= raw);
                break;
            },
            Some((name, value, k)) => {
                if !(p < k) {
                    assert(raw + seq![] =~= raw);
                    break;
                }
                proof {
                    lemma_attribute_list(s@, k as int);
                    let rest = attribute_list(s@, k as int).0;
                    assert(raw + (seq![(name@, value@)] + rest) =~= raw.push((name@, value@))
                        + rest);
                    assert(raw.push((name@, value@)).drop_last() =~= raw);
                    raw = raw.push((name@, value@));
                }
                attrs.insert(name, value);
                p = k;
            },
        }
    }
    let m = scan_chars(input, p, CharClass::Space);
    if m < input.len() && m + 1 < input.len() && input[m] == '/' && input[m + 1] == '>' {
        Some(StartTag { name: string_of(input, pos + 1, j), attributes: attrs, self_closing: true, end: m + 2 })
    } else if m < input.len() && input[m] == '>' {
        Some(StartTag { name: string_of(input, pos + 1, j), attributes: attrs, self_closing: false, end: m + 1 })
    } else {
        None
    }
}

/// The close tag at `pos`, if one stands there: its name and the position
/// after it.
pub fn parse_end_tag(input: &Vec<char>, pos: usize) -> (r: Option<(String, usize)>)
    requires
        pos <= input@.len(),
    ensures
        match close_tag(input@, pos as int) {
            None => r is None,
            Some((name, e)) => r matches Some((n, f)) && n@ == name && f == e,
        },
        r matches Some((_, f)) ==> f <= input@.len(),
{
    if !(pos < input.len() && pos + 1 < input.len() && input[pos] == '<' && input[pos + 1] == '/') {
        return None;
    }
    let j = scan_chars(input, pos + 2, CharClass::Name);
    if !(pos + 2 < j) {
        return None;
    }
    let k = scan_chars(input, j, CharClass::Space);
    if k < input.len() && input[k] == '>' {
        Some((string_of(input, pos + 2, j), k + 1))
    } else {
        None
    }
}

/// The element at `pos`, if one stands there: its tag, whether all its close
/// tags match, and the position after it. Unlike `parse_html_element`, it
/// reads on past a close tag that does not match, so that a syntax error
/// further on can still be told.
pub fn read_element(input: &Vec<char>, pos: usize) -> (r: Option<(Tag, bool, usize)>)
    requires
        pos <= input@.len(),
    ensures
        match element(input@, pos as int) {
            None => r is None,
            Some((n, ok, e)) => r matches Some((t, b, f)) && t@ == n && b == ok && f == e,
        },
        r matches Some((_, _, f)) ==> f <= input@.len(),
    decreases rest_len(input@, pos as int), 0nat,
{
    let start = match parse_start_tag(input, pos) {
        None => {
            return None;
        },
        Some(t) => t,
    };
    if start.self_closing {
        let tag = Tag { tag_type: start.name, attributes: start.attributes, content: Vec::new() };
        assert(nodes_model(tag.content@) =~= seq![]);
        return Some((tag, true, start.end));
    }
    proof {
        lemma_open_tag(input@, pos as int);
    }
    let (content, ok, k) = read_content(input, start.end);
    match parse_end_tag(input, k) {
        None => None,
        Some((end, e)) => {
            let matched = ok && end == start.name;
            Some((Tag { tag_type: start.name, attributes: start.attributes, content }, matched, e))
        },
    }
}

/// One item of content at `pos`: raw text (`None` where it trims to
/// nothing) or an element; whether its close tags match; the position after
/// it.
pub fn read_content_item(input: &Vec<char>, pos: usize) -> (r: Option<(Option<HTMLContent>, bool, usize)>)
    requires
        pos <= input@.len(),
    ensures
        match content_item(input@, pos as int) {
            None => r is None,
            Some((item, ok, e)) => r matches Some((c, b, f)) && b == ok && f == e && match item {
                None => c is None,
                Some(n) => c matches Some(x) && x@ == n,
            },
        },
        r matches Some((_, _, f)) ==> f <= input@.len(),
    decreases rest_len(input@, pos as int), 1nat,
{
    if pos < input.len() && input[pos] != '<' {
        let j = scan_chars(input, pos, CharClass::Text);
        let (lo, hi) = trim_bounds(input, pos, j);
        if lo < hi {
            Some((Some(HTMLContent::Raw(string_of(input, lo, hi))), true, j))
        } else {
            Some((None, true, j))
        }
    } else {
        match read_element(input, pos) {
            Some((t, ok, j)) => Some((Some(HTMLContent::Tag(Box::new(t))), ok, j)),
            None => None,
        }
    }
}

/// The content at `pos`: its items, whether their close tags match, and the
/// position after it.
pub fn read_content(input: &Vec<char>, pos: usize) -> (r: (Vec<HTMLContent>, bool, usize))
    requires
        pos <= input@.len(),
    ensures
        (nodes_model(r.0@), r.1, r.2 as int) == content(input@, pos as int),
        pos <= r.2 <= input@.len(),
    decreases rest_len(input@, pos as int), 2nat,
{
    let mut items: Vec<HTMLContent> = Vec::new();
    let mut ok = true;
    let mut p = pos;
    let ghost s = input@;
    loop
        invariant
            pos <= p <= input@.len(),
            s == input@,
            content(s, pos as int) == (nodes_model(items@) + content(s, p as int).0, ok && content(
                s,
                p as int,
            ).1, content(s, p as int).2),
        ensures
            pos <= p <= input@.len(),
            content(s, pos as int) == (nodes_model(items@), ok, p as int),
        decreases input@.len() - p,
    {
        if p >= input.len() {
            assert(nodes_model(items@) + seq![] =~= nodes_model(items@));
            break;
        }
        match read_content_item(input, p) {
            None => {
                assert(nodes_model(items@) + seq![] =~= nodes_model(items@));
                break;
            },
            Some((item, ok1, j)) => {
                if !(p < j) {
                    assert(nodes_model(items@) + seq![] =~= nodes_model(items@));
                    break;
                }
                let ghost old_items = items@;
                let ghost rest = content(s, j as int).0;
                match item {
                    Some(c) => {
                        items.push(c);
                        assert(items@.drop_last() =~= old_items);
                        assert(nodes_model(old_items) + (seq![c@] + rest) =~= nodes_model(items@)
                            + rest);
                    },
                    None => {},
                }
                ok = ok && ok1;
                p = j;
            },
        }
    }
    (items, ok, p)
}

/// The element at `pos`, if one stands there: its tag and the position after
/// it. Every close tag within it must name the tag that it closes.
pub fn parse_html_element(input: &Vec<char>, pos: usize) -> (r: Option<(Tag, usize)>)
    requires
        pos <= input@.len(),
        element(input@, pos as int) matches Some((_, ok, _)) ==> ok,
    ensures
        match element(input@, pos as int) {
            None => r is None,
            Some((n, _, e)) => r matches Some((t, f)) && t@ == n && f == e,
        },
{
    match read_element(input, pos) {
        None => None,
        Some((t, _, e)) => Some((t, e)),
    }
}

/// Why a document could not be read.
#[derive(Debug, Clone, Copy, PartialEq, Eq)]
pub enum HtmlError {
    /// The document does not follow the grammar.
    Syntax,
    /// The document follows the grammar, but a close tag names another tag
    /// than the one it closes.
    UnmatchedTags,
}

/// Whether the close tags of `s` all match, where `s` follows the grammar.
pub open spec fn tags_match(s: Seq<char>) -> bool {
    document(s) matches Some((_, ok)) ==> ok
}

/// The reader of the HTML grammar.
pub struct HTMLParser;

impl HTMLParser {
    /// Reads a whole document, telling a document that does not follow the
    /// grammar from one whose close tags do not match.
    pub fn parse(input: &str) -> (r: Result<ParseTree, HtmlError>)
        ensures
            match document(input@) {
                None => r matches Err(HtmlError::Syntax),
                Some((n, ok)) => if ok {
                    r matches Ok(t) && t.root@ == n
                } else {
                    r matches Err(HtmlError::UnmatchedTags)
                },
            },
    {
        let chars = to_chars(input);
        let i = scan_chars(&chars, 0, CharClass::Space);
        match read_element(&chars, i) {
            None => Err(HtmlError::Syntax),
            Some((tag, ok, j)) => {
                if scan_chars(&chars, j, CharClass::Space) != chars.len() {
                    Err(HtmlError::Syntax)
                } else if !ok {
                    Err(HtmlError::UnmatchedTags)
                } else {
                    Ok(ParseTree { root: HTMLContent::Tag(Box::new(tag)) })
                }
            },
        }
    }
}

/// Returns a `ParseTree` that parses the valid HTML.
pub fn parse_html(unparsed_html: &str) -> (r: Result<ParseTree, HtmlError>)
    requires
        tags_match(unparsed_html@),
    ensures
        match document(unparsed_html@) {
            None => r matches Err(HtmlError::Syntax),
            Some((n, _)) => r matches Ok(t) && t.root@ == n,
        },
{
    HTMLParser::parse(unparsed_html)
}

/// The tree of a page fetched from a url: `page` is the text that the fetch
/// brought (the fetch itself is I/O, and stays with the caller). The tree is
/// the one `parse_html` gives of that text.
pub fn get_and_parse_html(page: &str) -> (r: Result<ParseTree, HtmlError>)
    requires
        tags_match(page@),
    ensures
        match document(page@) {
            None => r matches Err(HtmlError::Syntax),
            Some((n, _)) => r matches Ok(t) && t.root@ == n,
        },
{
    parse_html(page)
}

/// Whether `s` follows the grammar with every close tag matching: the
/// documents that `parse_html` reads without an error.
pub open spec fn parses(s: Seq<char>) -> bool {
    document(s) matches Some((_, ok)) && ok
}

} // verus!
