//! How a tree is written out as HTML, and the law that the grammar reads
//! what is written back as the same tree.
use vstd::prelude::*;
use crate::grammar::{
    lemma_scan, lemma_attribute_list, lemma_open_tag, lemma_trim_idempotent, law_attributes_form_a_map,
    last_value, has_name, rest_len,
    CharClass, scan, attribute, attribute_list, collect_attributes, key_index,
    lemma_key_index, open_tag, close_tag, element, content_item, content, document,
    lemma_content_advances, law_element_shape,
};
use crate::text::{trim, trim_start, trim_end, is_white_space};
use crate::tree::Node;

verus! {

/// A name: one or more name characters.
pub open spec fn is_name(t: Seq<char>) -> bool {
    t.len() as int > 0 && forall|k: int| 0 <= k < t.len() as int ==> CharClass::Name.contains(#[trigger] t[k])
}

/// Text that a document can hold as it is: non-empty, trimmed, without '<'.
pub open spec fn is_text(t: Seq<char>) -> bool {
    t.len() as int > 0 && trim(t) == t && forall|k: int| 0 <= k < t.len() as int ==> #[trigger] t[k] != '<'
}

/// An attribute value that can stand between double quotes.
pub open spec fn is_value(v: Seq<char>) -> bool {
    forall|k: int| 0 <= k < v.len() as int ==> #[trigger] v[k] != '"'
}

/// Attributes that can be written: valid names, each once, quotable values.
pub open spec fn writable_attributes(a: Seq<(Seq<char>, Seq<char>)>) -> bool {
    &&& forall|i: int| 0 <= i < a.len() as int ==> is_name(#[trigger] a[i].0) && is_value(a[i].1)
    &&& forall|i: int, j: int| 0 <= i < j < a.len() as int ==> a[i].0 != a[j].0
}

/// Whether the tree under `n` can be written out and read back: its names,
/// attributes and texts can be written, and no two texts stand side by
/// side (they would be read as one).
pub open spec fn writable(n: Node) -> bool
    decreases n,
{
    match n {
        Node::Text(t) => is_text(t),
        Node::Element(name, a, kids) => {
            &&& is_name(name)
            &&& writable_attributes(a)
            &&& writable_all(kids)
            &&& forall|i: int|
                0 <= i < kids.len() as int - 1 ==> !(#[trigger] kids[i] is Text && kids[i + 1] is Text)
        },
    }
}

/// Whether every tree in `s` is `writable`.
pub open spec fn writable_all(s: Seq<Node>) -> bool
    decreases s,
{
    s.len() as int == 0 || (writable(s[0]) && writable_all(s.drop_first()))
}

/// The attributes `a` as written in a start tag: ` name="value"` each.
pub open spec fn attributes_html(a: Seq<(Seq<char>, Seq<char>)>) -> Seq<char>
    decreases a.len() as int,
{
    if a.len() as int == 0 {
        seq![]
    } else {
        seq![' '] + a[0].0 + seq!['=', '"'] + a[0].1 + seq!['"'] + attributes_html(a.drop_first())
    }
}

/// The tree under `n` written as HTML: text as it is; an element as its
/// start tag, its content, and its close tag.
pub open spec fn to_html(n: Node) -> Seq<char>
    decreases n,
{
    match n {
        Node::Text(t) => t,
        Node::Element(name, a, kids) => seq!['<'] + name + attributes_html(a) + seq!['>']
            + all_html(kids) + seq!['<', '/'] + name + seq!['>'],
    }
}

/// The trees of `s` written one after the other.
pub open spec fn all_html(s: Seq<Node>) -> Seq<char>
    decreases s,
{
    if s.len() as int == 0 {
        seq![]
    } else {
        to_html(s[0]) + all_html(s.drop_first())
    }
}

/// Whether `x` stands in `s` from position `i` on.
pub open spec fn occurs_at(s: Seq<char>, x: Seq<char>, i: int) -> bool {
    0 <= i && i + x.len() as int <= s.len() as int && s.subrange(i, i + x.len() as int) == x
}

proof fn lemma_occurs_chars(s: Seq<char>, x: Seq<char>, i: int)
    requires
        occurs_at(s, x, i),
    ensures
        forall|k: int| 0 <= k < x.len() as int ==> s[i + k] == #[trigger] x[k],
{
    assert forall|k: int| 0 <= k < x.len() as int implies s[i + k] == #[trigger] x[k] by {
        assert(s.subrange(i, i + x.len() as int)[k] == s[i + k]);
    }
}

/// A scan ends exactly where the run of its class ends.
proof fn lemma_scan_to(s: Seq<char>, i: int, j: int, class: CharClass)
    requires
        0 <= i <= j <= s.len() as int,
        forall|k: int| i <= k < j ==> class.contains(#[trigger] s[k]),
        j == s.len() as int || !class.contains(s[j]),
    ensures
        scan(s, i, class) == j,
    decreases j - i,
{
    if i < j {
        lemma_scan_to(s, i + 1, j, class);
    }
}

proof fn lemma_occurs_sub(s: Seq<char>, x: Seq<char>, i: int, a: int, b: int)
    requires
        occurs_at(s, x, i),
        0 <= a <= b <= x.len() as int,
    ensures
        occurs_at(s, x.subrange(a, b), i + a),
{
    lemma_occurs_chars(s, x, i);
    assert forall|k: int| 0 <= k < b - a implies s.subrange(i + a, i + b)[k] == x.subrange(a, b)[k] by {
        assert(x[a + k] == s[i + (a + k)]);
    }
    assert(s.subrange(i + a, i + b) =~= x.subrange(a, b));
}

proof fn lemma_attribute_written(s: Seq<char>, k: Seq<char>, v: Seq<char>, i: int)
    requires
        is_name(k),
        is_value(v),
        occurs_at(s, k + seq!['=', '"'] + v + seq!['"'], i),
    ensures
        attribute(s, i) == Some((k, v, i + k.len() as int + v.len() as int + 3)),
{
    let x = k + seq!['=', '"'] + v + seq!['"'];
    lemma_occurs_chars(s, x, i);
    let j = i + k.len() as int;
    assert(s[j] == x[k.len() as int]);
    assert(s[j + 1] == x[k.len() as int + 1]);
    let e = j + 2 + v.len() as int;
    assert(s[e] == x[k.len() as int + 2 + v.len() as int]);
    assert forall|m: int| i <= m < j implies CharClass::Name.contains(#[trigger] s[m]) by {
        assert(s[m] == x[m - i]);
        assert(x[m - i] == k[m - i]);
    }
    lemma_scan_to(s, i, j, CharClass::Name);
    lemma_scan_to(s, j, j, CharClass::Space);
    lemma_scan_to(s, j + 1, j + 1, CharClass::Space);
    assert forall|m: int| j + 2 <= m < e implies CharClass::Quoted.contains(#[trigger] s[m]) by {
        assert(s[m] == x[m - i]);
        assert(x[m - i] == v[m - j - 2]);
    }
    lemma_scan_to(s, j + 2, e, CharClass::Quoted);
    lemma_occurs_sub(s, x, i, 0, k.len() as int);
    assert(x.subrange(0, k.len() as int) =~= k);
    lemma_occurs_sub(s, x, i, k.len() as int + 2, k.len() as int + 2 + v.len() as int);
    assert(x.subrange(k.len() as int + 2, k.len() as int + 2 + v.len() as int) =~= v);
}

proof fn lemma_attributes_written(s: Seq<char>, a: Seq<(Seq<char>, Seq<char>)>, i: int)
    requires
        writable_attributes(a),
        occurs_at(s, attributes_html(a), i),
        i + attributes_html(a).len() < s.len(),
        !CharClass::Space.contains(s[i + attributes_html(a).len() as int]),
    ensures
        attribute_list(s, i) == (a, i + attributes_html(a).len() as int),
    decreases a.len() as int,
{
    if a.len() as int == 0 {
        lemma_scan_to(s, i, i, CharClass::Space);
        assert(a =~= seq![]);
    } else {
        let (k, v) = a[0];
        let part = k + seq!['=', '"'] + v + seq!['"'];
        let rest = a.drop_first();
        let x = attributes_html(a);
        assert(x =~= seq![' '] + part + attributes_html(rest));
        assert(writable_attributes(rest)) by {
            assert forall|p: int| 0 <= p < rest.len() as int implies is_name(#[trigger] rest[p].0) && is_value(rest[p].1) by {
                assert(rest[p] == a[p + 1]);
            }
            assert forall|p: int, q: int| 0 <= p < q < rest.len() as int implies rest[p].0 != rest[q].0 by {
                assert(rest[p] == a[p + 1]);
                assert(rest[q] == a[q + 1]);
            }
        }
        assert(is_name(a[0].0) && is_value(a[0].1));
        lemma_occurs_sub(s, x, i, 1, 1 + part.len() as int);
        assert(x.subrange(1, 1 + part.len() as int) =~= part);
        lemma_attribute_written(s, k, v, i + 1);
        lemma_occurs_sub(s, x, i, 1 + part.len() as int, x.len() as int);
        assert(x.subrange(1 + part.len() as int, x.len() as int) =~= attributes_html(rest));
        lemma_attributes_written(s, rest, i + 1 + part.len() as int);
        lemma_occurs_chars(s, x, i);
        assert(s[i] == x[0]);
        assert(s[i + 1] == x[1]);
        assert(x[1] == k[0]);
        lemma_scan_to(s, i, i + 1, CharClass::Space);
        assert(seq![(k, v)] + attribute_list(s, i + 1 + part.len() as int).0 =~= a);
    }
}

/// Attributes with distinct names are kept as they are.
proof fn lemma_collect_distinct(a: Seq<(Seq<char>, Seq<char>)>)
    requires
        forall|i: int, j: int| 0 <= i < j < a.len() as int ==> a[i].0 != a[j].0,
    ensures
        collect_attributes(a) == a,
    decreases a.len() as int,
{
    if a.len() as int > 0 {
        let init = a.drop_last();
        assert forall|i: int, j: int| 0 <= i < j < init.len() as int implies init[i].0 != init[j].0 by {
            assert(init[i] == a[i] && init[j] == a[j]);
        }
        lemma_collect_distinct(init);
        lemma_key_index(init, a.last().0);
        if let Some(p) = key_index(init, a.last().0) {
            assert(init[p] == a[p]);
        }
        assert(init.push(a.last()) =~= a);
    }
}

proof fn lemma_open_tag_written(s: Seq<char>, name: Seq<char>, a: Seq<(Seq<char>, Seq<char>)>, i: int)
    requires
        is_name(name),
        writable_attributes(a),
        occurs_at(s, seq!['<'] + name + attributes_html(a) + seq!['>'], i),
    ensures
        open_tag(s, i) == Some(
            (name, a, false, i + 2 + name.len() as int + attributes_html(a).len() as int),
        ),
{
    let at = attributes_html(a);
    let x = seq!['<'] + name + at + seq!['>'];
    lemma_occurs_chars(s, x, i);
    let j = i + 1 + name.len() as int;
    let k = j + at.len() as int;
    assert(s[i] == x[0]);
    assert(s[k] == x[1 + name.len() as int + at.len() as int]);
    assert forall|m: int| i + 1 <= m < j implies CharClass::Name.contains(#[trigger] s[m]) by {
        assert(s[m] == x[m - i]);
        assert(x[m - i] == name[m - i - 1]);
    }
    assert(s[j] == x[1 + name.len() as int]);
    if a.len() as int > 0 {
        assert(at[0] == ' ');
    }
    lemma_scan_to(s, i + 1, j, CharClass::Name);
    lemma_occurs_sub(s, x, i, 1 + name.len() as int, 1 + name.len() as int + at.len() as int);
    assert(x.subrange(1 + name.len() as int, 1 + name.len() as int + at.len() as int) =~= at);
    lemma_attributes_written(s, a, j);
    lemma_scan_to(s, k, k, CharClass::Space);
    lemma_occurs_sub(s, x, i, 1, 1 + name.len() as int);
    assert(x.subrange(1, 1 + name.len() as int) =~= name);
}

proof fn lemma_close_tag_written(s: Seq<char>, name: Seq<char>, i: int)
    requires
        is_name(name),
        occurs_at(s, seq!['<', '/'] + name + seq!['>'], i),
    ensures
        close_tag(s, i) == Some((name, i + 3 + name.len() as int)),
{
    let x = seq!['<', '/'] + name + seq!['>'];
    lemma_occurs_chars(s, x, i);
    let j = i + 2 + name.len() as int;
    assert(s[i] == x[0]);
    assert(s[i + 1] == x[1]);
    assert(s[j] == x[2 + name.len() as int]);
    assert forall|m: int| i + 2 <= m < j implies CharClass::Name.contains(#[trigger] s[m]) by {
        assert(s[m] == x[m - i]);
        assert(x[m - i] == name[m - i - 2]);
    }
    lemma_scan_to(s, i + 2, j, CharClass::Name);
    lemma_scan_to(s, j, j, CharClass::Space);
    lemma_occurs_sub(s, x, i, 2, 2 + name.len() as int);
    assert(x.subrange(2, 2 + name.len() as int) =~= name);
}

/// What a written sequence of trees starts with, where it starts with an
/// element.
proof fn lemma_all_html_starts(kids: Seq<Node>)
    requires
        kids.len() > 0,
        kids[0] is Element,
    ensures
        all_html(kids).len() > 0,
        all_html(kids)[0] == '<',
{
    let h = to_html(kids[0]);
    assert(h[0] == '<');
    assert((h + all_html(kids.drop_first()))[0] == h[0]);
}

proof fn lemma_element_written(s: Seq<char>, n: Node, i: int)
    requires
        writable(n),
        n is Element,
        occurs_at(s, to_html(n), i),
    ensures
        element(s, i) == Some((n, true, i + to_html(n).len())),
    decreases n,
{
    if let Node::Element(name, a, kids) = n {
        let at = attributes_html(a);
        let open = seq!['<'] + name + at + seq!['>'];
        let body = all_html(kids);
        let x = to_html(n);
        assert(x =~= open + body + (seq!['<', '/'] + name + seq!['>']));
        let lo = open.len() as int;
        let lb = body.len() as int;
        lemma_occurs_sub(s, x, i, 0, lo);
        assert(x.subrange(0, lo) =~= open);
        lemma_open_tag_written(s, name, a, i);
        lemma_occurs_sub(s, x, i, lo, lo + lb + 2);
        assert(x.subrange(lo, lo + lb + 2) =~= body + seq!['<', '/']);
        lemma_content_written(s, kids, i + lo);
        lemma_occurs_sub(s, x, i, lo + lb, x.len() as int);
        assert(x.subrange(lo + lb, x.len() as int) =~= seq!['<', '/'] + name + seq!['>']);
        lemma_close_tag_written(s, name, i + lo + lb);
        lemma_collect_distinct(a);
    }
}

proof fn lemma_content_written(s: Seq<char>, kids: Seq<Node>, i: int)
    requires
        writable_all(kids),
        forall|p: int| 0 <= p < kids.len() - 1 ==> !(#[trigger] kids[p] is Text && kids[p + 1] is Text),
        occurs_at(s, all_html(kids) + seq!['<', '/'], i),
    ensures
        content(s, i) == (kids, true, i + all_html(kids).len()),
    decreases kids,
{
    let x = all_html(kids) + seq!['<', '/'];
    lemma_occurs_chars(s, x, i);
    if kids.len() == 0 {
        assert(x =~= seq!['<', '/']);
        assert(s[i] == '<' && s[i + 1] == '/');
        lemma_scan_to(s, i + 1, i + 1, CharClass::Name);
        assert(open_tag(s, i) is None);
        assert(kids =~= seq![]);
    } else {
        let first = kids[0];
        let rest = kids.drop_first();
        let h = to_html(first);
        let l1 = h.len() as int;
        assert(x =~= h + (all_html(rest) + seq!['<', '/']));
        lemma_occurs_sub(s, x, i, 0, l1);
        assert(x.subrange(0, l1) =~= h);
        lemma_occurs_sub(s, x, i, l1, x.len() as int);
        assert(x.subrange(l1, x.len() as int) =~= all_html(rest) + seq!['<', '/']);
        assert forall|p: int| 0 <= p < rest.len() - 1 implies !(#[trigger] rest[p] is Text && rest[p + 1] is Text) by {
            assert(rest[p] == kids[p + 1]);
            assert(rest[p + 1] == kids[p + 2]);
        }
        lemma_content_written(s, rest, i + l1);
        let tail = all_html(rest) + seq!['<', '/'];
        assert(writable(first));
        assert(s[i + l1] == x[l1]);
        match first {
            Node::Text(t) => {
                assert(is_text(t));
                if rest.len() > 0 {
                    assert(rest[0] == kids[1]);
                    assert(!(kids[0] is Text && kids[1] is Text));
                    lemma_all_html_starts(rest);
                    assert(tail[0] == all_html(rest)[0]);
                } else {
                    assert(all_html(rest) =~= seq![]);
                    assert(tail =~= seq!['<', '/']);
                }
                assert(x[l1] == tail[0]);
                assert(forall|m: int| i <= m < i + l1 ==> s[m] == x[m - i]);
                assert forall|m: int| i <= m < i + l1 implies CharClass::Text.contains(#[trigger] s[m]) by {
                    assert(s[m] == x[m - i]);
                    assert(x[m - i] == t[m - i]);
                }
                lemma_scan_to(s, i, i + l1, CharClass::Text);
                assert(s[i] == t[0]);
                assert(s.subrange(i, i + l1) == t);
                assert(content_item(s, i) == Some((Some(first), true, i + l1)));
            },
            Node::Element(_, _, _) => {
                lemma_element_written(s, first, i);
                assert(s[i] == h[0]);
                assert(content_item(s, i) == Some((Some(first), true, i + l1)));
            },
        }
        assert(seq![first] + rest =~= kids);
    }
}

/// Writing a tree out as HTML and reading it back gives the same tree, with
/// every close tag matching: for any element whose names, attributes and
/// texts can be written, and in which no two texts stand side by side.
pub proof fn law_reads_back_what_is_written(n: Node)
    requires
        writable(n),
        n is Element,
    ensures
        document(to_html(n)) == Some((n, true)),
{
    let s = to_html(n);
    assert(s.subrange(0, s.len() as int) =~= s);
    lemma_element_written(s, n, 0);
    assert(s[0] == '<');
    lemma_scan_to(s, 0, 0, CharClass::Space);
    lemma_scan_to(s, s.len() as int, s.len() as int, CharClass::Space);
}

/// Whether every character of `w` is a space of the grammar.
pub open spec fn is_space_run(w: Seq<char>) -> bool {
    forall|k: int| 0 <= k < w.len() ==> CharClass::Space.contains(#[trigger] w[k])
}

/// White space before and after the root element leaves the tree that is
/// read unchanged.
pub proof fn law_space_around_root_is_ignored(n: Node, w1: Seq<char>, w2: Seq<char>)
    requires
        writable(n),
        n is Element,
        is_space_run(w1),
        is_space_run(w2),
    ensures
        document(w1 + to_html(n) + w2) == Some((n, true)),
{
    let h = to_html(n);
    let s = w1 + h + w2;
    let a = w1.len() as int;
    let b = a + h.len() as int;
    assert(s.subrange(a, b) =~= h);
    lemma_element_written(s, n, a);
    assert(h[0] == '<');
    assert(s[a] == h[0]);
    assert forall|k: int| 0 <= k < a implies CharClass::Space.contains(#[trigger] s[k]) by {
        assert(s[k] == w1[k]);
    }
    lemma_scan_to(s, 0, a, CharClass::Space);
    assert forall|k: int| b <= k < s.len() implies CharClass::Space.contains(#[trigger] s[k]) by {
        assert(s[k] == w2[k - b]);
    }
    lemma_scan_to(s, b, s.len() as int, CharClass::Space);
}

/// The white space `w` where the text after a tag boundary is not a text:
/// nothing right after a text.
pub open spec fn gap(w: Seq<char>, after_text: bool) -> Seq<char> {
    if after_text {
        seq![]
    } else {
        w
    }
}

/// The tree under `n` written as HTML with the white space `w` at every tag
/// boundary that no text touches: before and after each child element and
/// at both ends of a content that does not start or end with a text.
pub open spec fn spaced_html(n: Node, w: Seq<char>) -> Seq<char>
    decreases n,
{
    match n {
        Node::Text(t) => t,
        Node::Element(name, a, kids) => seq!['<'] + name + attributes_html(a) + seq!['>']
            + spaced_all(kids, w, false) + seq!['<', '/'] + name + seq!['>'],
    }
}

/// The trees of `kids` written with `w` at the tag boundaries between them;
/// `after_text` tells whether a text stands just before.
pub open spec fn spaced_all(kids: Seq<Node>, w: Seq<char>, after_text: bool) -> Seq<char>
    decreases kids,
{
    if kids.len() == 0 {
        gap(w, after_text)
    } else if kids[0] is Text {
        spaced_html(kids[0], w) + spaced_all(kids.drop_first(), w, true)
    } else {
        gap(w, after_text) + spaced_html(kids[0], w) + spaced_all(kids.drop_first(), w, false)
    }
}

proof fn lemma_space_trims_away(g: Seq<char>)
    requires
        is_space_run(g),
    ensures
        trim(g).len() == 0,
    decreases g.len(),
{
    if g.len() > 0 {
        assert(CharClass::Space.contains(g[0]));
        let r = g.drop_first();
        assert forall|k: int| 0 <= k < r.len() implies CharClass::Space.contains(#[trigger] r[k]) by {
            assert(r[k] == g[k + 1]);
        }
        lemma_space_trims_away(r);
        assert(trim_start(g) == trim_start(r));
    }
}

/// White space before a '<' is read as raw text that trims to nothing.
proof fn lemma_space_item(s: Seq<char>, g: Seq<char>, i: int)
    requires
        g.len() > 0,
        is_space_run(g),
        occurs_at(s, g, i),
        i + g.len() < s.len(),
        s[i + g.len()] == '<',
    ensures
        content_item(s, i) == Some((Option::<Node>::None, true, i + g.len())),
{
    lemma_occurs_chars(s, g, i);
    assert(CharClass::Space.contains(g[0]));
    assert forall|m: int| i <= m < i + g.len() implies CharClass::Text.contains(#[trigger] s[m]) by {
        assert(s[m] == g[m - i]);
        assert(CharClass::Space.contains(g[m - i]));
    }
    lemma_scan_to(s, i, i + g.len() as int, CharClass::Text);
    assert(s.subrange(i, i + g.len() as int) == g);
    lemma_space_trims_away(g);
}

/// At a close tag, content ends.
proof fn lemma_content_at_close(s: Seq<char>, i: int)
    requires
        0 <= i,
        i + 1 < s.len(),
        s[i] == '<',
        s[i + 1] == '/',
    ensures
        content(s, i) == (Seq::<Node>::empty(), true, i),
{
    lemma_scan_to(s, i + 1, i + 1, CharClass::Name);
    assert(open_tag(s, i) is None);
    assert(element(s, i) is None);
    assert(content_item(s, i) is None);
}

proof fn lemma_spaced_all_starts(kids: Seq<Node>, w: Seq<char>)
    requires
        kids.len() == 0 || kids[0] is Element,
    ensures
        (spaced_all(kids, w, true) + seq!['<', '/'])[0] == '<',
{
    let x = spaced_all(kids, w, true) + seq!['<', '/'];
    if kids.len() == 0 {
        assert(x =~= seq!['<', '/']);
    } else {
        let h = spaced_html(kids[0], w);
        assert(h[0] == '<');
        assert(spaced_all(kids, w, true) =~= h + spaced_all(kids.drop_first(), w, false));
        assert(x[0] == h[0]);
    }
}

proof fn lemma_element_spaced(s: Seq<char>, n: Node, w: Seq<char>, i: int)
    requires
        writable(n),
        n is Element,
        is_space_run(w),
        occurs_at(s, spaced_html(n, w), i),
    ensures
        element(s, i) == Some((n, true, i + spaced_html(n, w).len())),
    decreases n, 2int,
{
    if let Node::Element(name, a, kids) = n {
        let at = attributes_html(a);
        let open = seq!['<'] + name + at + seq!['>'];
        let body = spaced_all(kids, w, false);
        let x = spaced_html(n, w);
        assert(x =~= open + body + (seq!['<', '/'] + name + seq!['>']));
        let lo = open.len() as int;
        let lb = body.len() as int;
        lemma_occurs_sub(s, x, i, 0, lo);
        assert(x.subrange(0, lo) =~= open);
        lemma_open_tag_written(s, name, a, i);
        lemma_occurs_sub(s, x, i, lo, lo + lb + 2);
        assert(x.subrange(lo, lo + lb + 2) =~= body + seq!['<', '/']);
        lemma_content_spaced(s, kids, w, false, i + lo);
        lemma_occurs_sub(s, x, i, lo + lb, x.len() as int);
        assert(x.subrange(lo + lb, x.len() as int) =~= seq!['<', '/'] + name + seq!['>']);
        lemma_close_tag_written(s, name, i + lo + lb);
        lemma_collect_distinct(a);
    }
}

#[verifier::rlimit(60)]
proof fn lemma_content_spaced(s: Seq<char>, kids: Seq<Node>, w: Seq<char>, after_text: bool, i: int)
    requires
        writable_all(kids),
        forall|p: int| 0 <= p < kids.len() - 1 ==> !(#[trigger] kids[p] is Text && kids[p + 1] is Text),
        after_text ==> kids.len() == 0 || kids[0] is Element,
        is_space_run(w),
        occurs_at(s, spaced_all(kids, w, after_text) + seq!['<', '/'], i),
    ensures
        content(s, i) == (kids, true, i + spaced_all(kids, w, after_text).len()),
    decreases kids, if after_text { 0int } else { 1int },
{
    let x = spaced_all(kids, w, after_text) + seq!['<', '/'];
    lemma_occurs_chars(s, x, i);
    let g = gap(w, after_text);
    if g.len() > 0 && (kids.len() == 0 || kids[0] is Element) {
        // the white space first: raw text that trims to nothing
        let y = spaced_all(kids, w, true) + seq!['<', '/'];
        if kids.len() == 0 {
            assert(x =~= g + y);
        } else {
            assert(x =~= g + y);
        }
        lemma_occurs_sub(s, x, i, 0, g.len() as int);
        assert(x.subrange(0, g.len() as int) =~= g);
        lemma_occurs_sub(s, x, i, g.len() as int, x.len() as int);
        assert(x.subrange(g.len() as int, x.len() as int) =~= y);
        lemma_spaced_all_starts(kids, w);
        lemma_occurs_chars(s, y, i + g.len());
        assert(s[i + g.len()] == y[0]);
        lemma_space_item(s, g, i);
        lemma_content_spaced(s, kids, w, true, i + g.len());
        assert(spaced_all(kids, w, after_text).len() == g.len() + spaced_all(kids, w, true).len());
    } else if kids.len() == 0 {
        assert(x =~= seq!['<', '/']);
        lemma_content_at_close(s, i);
        assert(kids =~= seq![]);
    } else {
        let first = kids[0];
        let rest = kids.drop_first();
        let h = spaced_html(first, w);
        let l1 = h.len() as int;
        let after = first is Text;
        let tail = spaced_all(rest, w, after) + seq!['<', '/'];
        assert(x =~= h + tail);
        lemma_occurs_sub(s, x, i, 0, l1);
        assert(x.subrange(0, l1) =~= h);
        lemma_occurs_sub(s, x, i, l1, x.len() as int);
        assert(x.subrange(l1, x.len() as int) =~= tail);
        assert forall|p: int| 0 <= p < rest.len() - 1 implies !(#[trigger] rest[p] is Text && rest[p + 1] is Text) by {
            assert(rest[p] == kids[p + 1]);
            assert(rest[p + 1] == kids[p + 2]);
        }
        if after && rest.len() > 0 {
            assert(rest[0] == kids[1]);
            assert(!(kids[0] is Text && kids[1] is Text));
        }
        lemma_content_spaced(s, rest, w, after, i + l1);
        assert(writable(first));
        assert(s[i + l1] == x[l1]);
        match first {
            Node::Text(t) => {
                assert(is_text(t));
                lemma_spaced_all_starts(rest, w);
                assert(x[l1] == tail[0]);
                assert forall|m: int| i <= m < i + l1 implies CharClass::Text.contains(#[trigger] s[m]) by {
                    assert(s[m] == x[m - i]);
                    assert(x[m - i] == t[m - i]);
                }
                lemma_scan_to(s, i, i + l1, CharClass::Text);
                assert(s[i] == t[0]);
                assert(s.subrange(i, i + l1) == t);
                assert(content_item(s, i) == Some((Some(first), true, i + l1)));
            },
            Node::Element(_, _, _) => {
                lemma_element_spaced(s, first, w, i);
                assert(s[i] == h[0]);
                assert(content_item(s, i) == Some((Some(first), true, i + l1)));
            },
        }
        assert(seq![first] + rest =~= kids);
    }
}

/// White space at the tag boundaries that no text touches leaves the tree
/// that is read unchanged: around the root, between child elements, and at
/// the ends of a content next to an element.
pub proof fn law_space_at_tag_boundaries_is_ignored(n: Node, w: Seq<char>)
    requires
        writable(n),
        n is Element,
        is_space_run(w),
    ensures
        document(w + spaced_html(n, w) + w) == Some((n, true)),
{
    let h = spaced_html(n, w);
    let s = w + h + w;
    let a = w.len() as int;
    let b = a + h.len() as int;
    assert(s.subrange(a, b) =~= h);
    lemma_element_spaced(s, n, w, a);
    assert(h[0] == '<');
    assert(s[a] == h[0]);
    assert forall|k: int| 0 <= k < a implies CharClass::Space.contains(#[trigger] s[k]) by {
        assert(s[k] == w[k]);
    }
    lemma_scan_to(s, 0, a, CharClass::Space);
    assert forall|k: int| b <= k < s.len() implies CharClass::Space.contains(#[trigger] s[k]) by {
        assert(s[k] == w[k - b]);
    }
    lemma_scan_to(s, b, s.len() as int, CharClass::Space);
}

proof fn lemma_scanned_name(s: Seq<char>, i: int, j: int)
    requires
        0 <= i <= s.len(),
        j == scan(s, i, CharClass::Name),
        i < j,
    ensures
        is_name(s.subrange(i, j)),
{
    lemma_scan(s, i, CharClass::Name);
    assert forall|k: int| 0 <= k < j - i implies CharClass::Name.contains(#[trigger] s.subrange(i, j)[k]) by {
        assert(s.subrange(i, j)[k] == s[i + k]);
    }
}

proof fn lemma_attribute_shape(s: Seq<char>, i: int)
    requires
        0 <= i <= s.len(),
    ensures
        attribute(s, i) matches Some((k, v, _)) ==> is_name(k) && is_value(v),
{
    let j = scan(s, i, CharClass::Name);
    lemma_scan(s, i, CharClass::Name);
    if i < j {
        lemma_scanned_name(s, i, j);
        lemma_scan(s, j, CharClass::Space);
        let k = scan(s, j, CharClass::Space);
        if k < s.len() {
            lemma_scan(s, k + 1, CharClass::Space);
            let m = scan(s, k + 1, CharClass::Space);
            if m < s.len() {
                lemma_scan(s, m + 1, CharClass::Quoted);
                let e = scan(s, m + 1, CharClass::Quoted);
                assert forall|q: int| 0 <= q < e - m - 1 implies #[trigger] s.subrange(m + 1, e)[q] != '"' by {
                    assert(s.subrange(m + 1, e)[q] == s[m + 1 + q]);
                    assert(CharClass::Quoted.contains(s[m + 1 + q]));
                }
            }
        }
    }
}

/// Whether every pair of `a` has a name and a value that can be written.
pub open spec fn pairs_writable(a: Seq<(Seq<char>, Seq<char>)>) -> bool {
    forall|i: int| 0 <= i < a.len() ==> is_name(#[trigger] a[i].0) && is_value(a[i].1)
}

proof fn lemma_attribute_list_shape(s: Seq<char>, i: int)
    requires
        0 <= i <= s.len(),
    ensures
        pairs_writable(attribute_list(s, i).0),
    decreases rest_len(s, i),
{
    lemma_scan(s, i, CharClass::Space);
    let j = scan(s, i, CharClass::Space);
    if 0 <= i < s.len() && i < j {
        lemma_attribute_shape(s, j);
        match attribute(s, j) {
            Some((name, value, k)) => if i < k {
                lemma_attribute_list(s, j);
                lemma_attribute_list_shape(s, k);
                let rest = attribute_list(s, k).0;
                let all = seq![(name, value)] + rest;
                assert(attribute_list(s, i).0 == all);
                assert forall|p: int| 0 <= p < all.len() implies is_name(#[trigger] all[p].0) && is_value(all[p].1) by {
                    if p > 0 {
                        assert(all[p] == rest[p - 1]);
                    }
                }
            },
            None => {},
        }
    }
}

proof fn lemma_last_value_writable(raw: Seq<(Seq<char>, Seq<char>)>, key: Seq<char>)
    requires
        pairs_writable(raw),
    ensures
        is_value(last_value(raw, key)),
    decreases raw.len(),
{
    if raw.len() > 0 {
        let init = raw.drop_last();
        assert forall|p: int| 0 <= p < init.len() implies is_name(#[trigger] init[p].0) && is_value(init[p].1) by {
            assert(init[p] == raw[p]);
            assert(is_name(raw[p].0) && is_value(raw[p].1));
        }
        lemma_last_value_writable(init, key);
        assert(is_name(raw[raw.len() - 1].0) && is_value(raw[raw.len() - 1].1));
    }
}

proof fn lemma_collect_writable(raw: Seq<(Seq<char>, Seq<char>)>)
    requires
        pairs_writable(raw),
    ensures
        writable_attributes(collect_attributes(raw)),
{
    law_attributes_form_a_map(raw);
    let m = collect_attributes(raw);
    assert forall|i: int| 0 <= i < m.len() implies is_name(#[trigger] m[i].0) && is_value(m[i].1) by {
        assert(has_name(m, m[i].0));
        assert(has_name(raw, m[i].0));
        let p = choose|p: int| 0 <= p < raw.len() && raw[p].0 == m[i].0;
        assert(is_name(raw[p].0));
        lemma_last_value_writable(raw, m[i].0);
    }
}

proof fn lemma_trim_keeps_no_lt(t: Seq<char>)
    requires
        forall|k: int| 0 <= k < t.len() ==> #[trigger] t[k] != '<',
    ensures
        forall|k: int| 0 <= k < trim_start(t).len() ==> #[trigger] trim_start(t)[k] != '<',
        forall|k: int| 0 <= k < trim_end(t).len() ==> #[trigger] trim_end(t)[k] != '<',
    decreases t.len(),
{
    if t.len() > 0 {
        let a = t.drop_first();
        let b = t.drop_last();
        assert forall|k: int| 0 <= k < a.len() implies #[trigger] a[k] != '<' by {
            assert(a[k] == t[k + 1]);
        }
        assert forall|k: int| 0 <= k < b.len() implies #[trigger] b[k] != '<' by {
            assert(b[k] == t[k]);
        }
        lemma_trim_keeps_no_lt(a);
        lemma_trim_keeps_no_lt(b);
        if is_white_space(t[0]) {
            assert(trim_start(t) == trim_start(a));
        } else {
            assert(trim_start(t) == t);
        }
        if is_white_space(t.last()) {
            assert(trim_end(t) == trim_end(b));
        } else {
            assert(trim_end(t) == t);
        }
    }
}

/// Whether no two texts of `kids` stand side by side.
pub open spec fn texts_apart(kids: Seq<Node>) -> bool {
    forall|p: int| 0 <= p < kids.len() - 1 ==> !(#[trigger] kids[p] is Text && kids[p + 1] is Text)
}

proof fn lemma_element_shape(s: Seq<char>, i: int)
    ensures
        element(s, i) matches Some((n, _, _)) ==> n is Element && writable(n),
    decreases rest_len(s, i), 0nat,
{
    match open_tag(s, i) {
        None => {},
        Some((name, raw, closed, j)) => {
            lemma_scan(s, i + 1, CharClass::Name);
            let j0 = scan(s, i + 1, CharClass::Name);
            lemma_scanned_name(s, i + 1, j0);
            lemma_attribute_list(s, j0);
            lemma_attribute_list_shape(s, j0);
            lemma_collect_writable(raw);
            if !closed {
                lemma_open_tag(s, i);
                lemma_content_shape(s, j);
            } else {
                assert(writable_all(Seq::<Node>::empty()));
            }
        },
    }
}

proof fn lemma_content_item_shape(s: Seq<char>, i: int)
    ensures
        content_item(s, i) matches Some((Some(n), _, _)) ==> writable(n),
        0 <= i < s.len() && s[i] == '<' ==> (content_item(s, i) matches Some((Some(n), _, _)) ==> n is Element),
        content_item(s, i) matches Some((Some(n), _, j)) ==> (n is Text ==> (j == s.len() || (0 <= j < s.len() && s[j] == '<'))),
    decreases rest_len(s, i), 1nat,
{
    if 0 <= i < s.len() && s[i] != '<' {
        let j = scan(s, i, CharClass::Text);
        lemma_scan(s, i, CharClass::Text);
        let sub = s.subrange(i, j);
        lemma_trim_idempotent(sub);
        assert forall|k: int| 0 <= k < sub.len() implies #[trigger] sub[k] != '<' by {
            assert(sub[k] == s[i + k]);
            assert(CharClass::Text.contains(s[i + k]));
        }
        lemma_trim_keeps_no_lt(sub);
        lemma_trim_keeps_no_lt(crate::text::trim_start(sub));
    } else {
        lemma_element_shape(s, i);
    }
}

proof fn lemma_content_shape(s: Seq<char>, i: int)
    ensures
        writable_all(content(s, i).0),
        texts_apart(content(s, i).0),
        0 <= i < s.len() && s[i] == '<' ==> (content(s, i).0.len() == 0 || content(s, i).0[0] is Element),
    decreases rest_len(s, i), 2nat,
{
    if 0 <= i < s.len() {
        match content_item(s, i) {
            Some((item, ok1, j)) => if i < j {
                lemma_content_item_shape(s, i);
                lemma_content_shape(s, j);
                let rest = content(s, j).0;
                if let Some(n) = item {
                    let all = seq![n] + rest;
                    assert(all.drop_first() =~= rest);
                    assert(all[0] == n);
                    assert forall|p: int| 0 <= p < all.len() - 1 implies !(#[trigger] all[p] is Text && all[p + 1] is Text) by {
                        if p > 0 {
                            assert(all[p] == rest[p - 1]);
                            assert(all[p + 1] == rest[p]);
                        } else if n is Text {
                            assert(all[1] == rest[0]);
                        }
                    }
                }
            } else {
                assert(writable_all(Seq::<Node>::empty()));
            },
            None => {
                assert(writable_all(Seq::<Node>::empty()));
            },
        }
    } else {
        assert(writable_all(Seq::<Node>::empty()));
    }
}

/// Every tree that the grammar reads can be written out and read back: its
/// root is an element, its names are names, its attributes have each name
/// once with values that can be quoted, its texts are non-empty, trimmed and
/// free of '<', and no two of its texts stand side by side.
pub proof fn law_read_tree_is_writable(s: Seq<char>)
    ensures
        document(s) matches Some((n, _)) ==> n is Element && writable(n),
{
    lemma_element_shape(s, scan(s, 0, CharClass::Space));
}

/// Reading a document, writing the tree out and reading again gives the
/// same tree, every close tag matching.
pub proof fn law_read_write_read(s: Seq<char>)
    ensures
        document(s) matches Some((n, _)) ==> document(to_html(n)) == Some((n, true)),
{
    law_read_tree_is_writable(s);
    if let Some((n, _)) = document(s) {
        law_reads_back_what_is_written(n);
    }
}


/// Whether `t` holds the characters of `s` from `a` to `b`, each `d` places
/// further on.
spec fn agree(s: Seq<char>, t: Seq<char>, a: int, b: int, d: int) -> bool {
    &&& 0 <= a <= b <= s.len()
    &&& 0 <= d
    &&& b + d <= t.len()
    &&& forall|q: int| a <= q < b ==> t[q + d] == #[trigger] s[q]
}

/// A scan that stops within the agreeing stretch, or runs to the end of
/// both, stops at the same place in `t`.
proof fn lemma_scan_window(s: Seq<char>, t: Seq<char>, i: int, class: CharClass, b: int, d: int)
    requires
        agree(s, t, i, b, d),
        scan(s, i, class) < b || (b == s.len() && t.len() == s.len() + d),
    ensures
        scan(t, i + d, class) == scan(s, i, class) + d,
    decreases s.len() - i,
{
    if i < s.len() && class.contains(s[i]) {
        lemma_scan(s, i + 1, class);
        assert(t[i + d] == s[i]);
        lemma_scan_window(s, t, i + 1, class, b, d);
    } else if i < s.len() {
        assert(t[i + d] == s[i]);
    }
}

proof fn lemma_attribute_window(
    s: Seq<char>,
    t: Seq<char>,
    i: int,
    d: int,
    name: Seq<char>,
    value: Seq<char>,
    e: int,
)
    requires
        attribute(s, i) == Some((name, value, e)),
        agree(s, t, i, e, d),
    ensures
        attribute(t, i + d) == Some((name, value, e + d)),
{
    let j = scan(s, i, CharClass::Name);
    let k = scan(s, j, CharClass::Space);
    let m = scan(s, k + 1, CharClass::Space);
    let q = scan(s, m + 1, CharClass::Quoted);
    lemma_scan(s, i, CharClass::Name);
    lemma_scan(s, j, CharClass::Space);
    lemma_scan(s, k + 1, CharClass::Space);
    lemma_scan(s, m + 1, CharClass::Quoted);
    lemma_scan_window(s, t, i, CharClass::Name, e, d);
    lemma_scan_window(s, t, j, CharClass::Space, e, d);
    lemma_scan_window(s, t, k + 1, CharClass::Space, e, d);
    lemma_scan_window(s, t, m + 1, CharClass::Quoted, e, d);
    assert(t[k + d] == s[k]);
    assert(t[m + d] == s[m]);
    assert(t.subrange(i + d, j + d) =~= s.subrange(i, j));
    assert(t.subrange(m + 1 + d, q + d) =~= s.subrange(m + 1, q));
}

proof fn lemma_attribute_ends_after(s: Seq<char>, i: int)
    ensures
        attribute(s, i) matches Some((_, _, e)) ==> i < e,
{
    if attribute(s, i) is Some {
        lemma_scan(s, i, CharClass::Name);
        let j = scan(s, i, CharClass::Name);
        lemma_scan(s, j, CharClass::Space);
        let k = scan(s, j, CharClass::Space);
        lemma_scan(s, k + 1, CharClass::Space);
        let m = scan(s, k + 1, CharClass::Space);
        lemma_scan(s, m + 1, CharClass::Quoted);
    }
}

proof fn lemma_attribute_list_window(s: Seq<char>, t: Seq<char>, i: int, d: int)
    requires
        0 <= i <= s.len(),
        scan(s, attribute_list(s, i).1, CharClass::Space) < s.len(),
        !CharClass::Name.contains(s[scan(s, attribute_list(s, i).1, CharClass::Space)]),
        agree(s, t, i, scan(s, attribute_list(s, i).1, CharClass::Space) + 1, d),
    ensures
        attribute_list(t, i + d) == (attribute_list(s, i).0, attribute_list(s, i).1 + d),
    decreases rest_len(s, i),
{
    let k = attribute_list(s, i).1;
    let m = scan(s, k, CharClass::Space);
    lemma_attribute_list(s, i);
    lemma_scan(s, k, CharClass::Space);
    let j = scan(s, i, CharClass::Space);
    lemma_scan(s, i, CharClass::Space);
    if 0 <= i < s.len() && i < j {
        lemma_attribute_ends_after(s, j);
        match attribute(s, j) {
            Some((name, value, k1)) => {
                lemma_attribute_list(s, k1);
                lemma_scan_window(s, t, i, CharClass::Space, m + 1, d);
                lemma_attribute_window(s, t, j, d, name, value, k1);
                lemma_attribute_list_window(s, t, k1, d);
            },
            None => {
                assert(m == j);
                lemma_scan_window(s, t, i, CharClass::Space, m + 1, d);
                assert(scan(s, j, CharClass::Name) == j);
                lemma_scan_window(s, t, j, CharClass::Name, m + 1, d);
            },
        }
    } else {
        assert(m == j);
        lemma_scan_window(s, t, i, CharClass::Space, m + 1, d);
    }
}

proof fn lemma_open_tag_window(
    s: Seq<char>,
    t: Seq<char>,
    i: int,
    d: int,
    name: Seq<char>,
    raw: Seq<(Seq<char>, Seq<char>)>,
    closed: bool,
    e: int,
)
    requires
        open_tag(s, i) == Some((name, raw, closed, e)),
        agree(s, t, i, e, d),
    ensures
        open_tag(t, i + d) == Some((name, raw, closed, e + d)),
{
    let j = scan(s, i + 1, CharClass::Name);
    lemma_scan(s, i + 1, CharClass::Name);
    lemma_attribute_list(s, j);
    let k = attribute_list(s, j).1;
    lemma_scan(s, k, CharClass::Space);
    let m = scan(s, k, CharClass::Space);
    lemma_scan_window(s, t, i + 1, CharClass::Name, e, d);
    lemma_attribute_list_window(s, t, j, d);
    lemma_scan_window(s, t, k, CharClass::Space, e, d);
    assert(t[i + d] == s[i]);
    assert(t[m + d] == s[m]);
    if closed {
        assert(t[m + 1 + d] == s[m + 1]);
    }
    assert(t.subrange(i + 1 + d, j + d) =~= s.subrange(i + 1, j));
}

proof fn lemma_close_tag_window(s: Seq<char>, t: Seq<char>, i: int, d: int, name: Seq<char>, e: int)
    requires
        close_tag(s, i) == Some((name, e)),
        agree(s, t, i, e, d),
    ensures
        close_tag(t, i + d) == Some((name, e + d)),
{
    let j = scan(s, i + 2, CharClass::Name);
    lemma_scan(s, i + 2, CharClass::Name);
    lemma_scan(s, j, CharClass::Space);
    let k = scan(s, j, CharClass::Space);
    lemma_scan_window(s, t, i + 2, CharClass::Name, e, d);
    lemma_scan_window(s, t, j, CharClass::Space, e, d);
    assert(t[i + d] == s[i]);
    assert(t[i + 1 + d] == s[i + 1]);
    assert(t[k + d] == s[k]);
    assert(t.subrange(i + 2 + d, j + d) =~= s.subrange(i + 2, j));
}


proof fn lemma_element_window(s: Seq<char>, t: Seq<char>, i: int, d: int)
    requires
        element(s, i) matches Some((_, _, e)) && agree(s, t, i, e, d),
    ensures
        element(s, i) matches Some((n, ok, e)) && element(t, i + d) == Some((n, ok, e + d)),
    decreases rest_len(s, i), 0nat,
{
    lemma_open_tag(s, i);
    if let Some((name, raw, closed, j)) = open_tag(s, i) {
        if closed {
            lemma_open_tag_window(s, t, i, d, name, raw, closed, j);
        } else {
            lemma_content_advances(s, j);
            let k = content(s, j).2;
            if let Some((end, e)) = close_tag(s, k) {
                lemma_scan(s, k + 2, CharClass::Name);
                lemma_scan(s, scan(s, k + 2, CharClass::Name), CharClass::Space);
                lemma_open_tag_window(s, t, i, d, name, raw, closed, j);
                lemma_content_window(s, t, j, d);
                lemma_close_tag_window(s, t, k, d, end, e);
            }
        }
    }
}

proof fn lemma_content_item_window(s: Seq<char>, t: Seq<char>, i: int, d: int)
    requires
        content_item(s, i) matches Some((_, _, j)) && j < s.len() && agree(s, t, i, j + 1, d),
    ensures
        content_item(s, i) matches Some((item, ok, j)) && content_item(t, i + d) == Some((item, ok, j + d)),
    decreases rest_len(s, i), 1nat,
{
    if 0 <= i < s.len() && s[i] != '<' {
        let j = scan(s, i, CharClass::Text);
        lemma_scan(s, i, CharClass::Text);
        assert(t[i + d] == s[i]);
        lemma_scan_window(s, t, i, CharClass::Text, j + 1, d);
        assert(t.subrange(i + d, j + d) =~= s.subrange(i, j));
    } else {
        law_element_shape(s, i);
        assert(t[i + d] == s[i]);
        lemma_element_window(s, t, i, d);
    }
}

proof fn lemma_content_window(s: Seq<char>, t: Seq<char>, j: int, d: int)
    requires
        0 <= j,
        content(s, j).2 + 1 < s.len(),
        s[content(s, j).2] == '<',
        s[content(s, j).2 + 1] == '/',
        agree(s, t, j, content(s, j).2 + 2, d),
    ensures
        content(t, j + d) == (content(s, j).0, content(s, j).1, content(s, j).2 + d),
    decreases rest_len(s, j), 2nat,
{
    let k = content(s, j).2;
    lemma_content_advances(s, j);
    match content_item(s, j) {
        Some((item, ok1, j1)) => {
            if 0 <= j < s.len() && s[j] != '<' {
                lemma_scan(s, j + 1, CharClass::Text);
            } else {
                law_element_shape(s, j);
            }
            lemma_content_advances(s, j1);
            lemma_content_item_window(s, t, j, d);
            lemma_content_window(s, t, j1, d);
        },
        None => {
            assert(t[j + d] == s[j]);
            assert(t[j + 1 + d] == s[j + 1]);
            lemma_content_at_close(t, j + d);
        },
    }
}


proof fn lemma_trim_start_concat(x: Seq<char>, y: Seq<char>)
    ensures
        trim_start(x + y) == if trim_start(x).len() > 0 {
            trim_start(x) + y
        } else {
            trim_start(y)
        },
    decreases x.len(),
{
    if x.len() > 0 {
        assert((x + y)[0] == x[0]);
        if is_white_space(x[0]) {
            assert((x + y).drop_first() =~= x.drop_first() + y);
            lemma_trim_start_concat(x.drop_first(), y);
        }
    } else {
        assert(x + y =~= y);
    }
}

proof fn lemma_trim_start_spaces(w: Seq<char>)
    requires
        is_space_run(w),
    ensures
        trim_start(w).len() == 0,
    decreases w.len(),
{
    if w.len() > 0 {
        assert(CharClass::Space.contains(w[0]));
        let r = w.drop_first();
        assert forall|k: int| 0 <= k < r.len() implies CharClass::Space.contains(#[trigger] r[k]) by {
            assert(r[k] == w[k + 1]);
        }
        lemma_trim_start_spaces(r);
    }
}

proof fn lemma_trim_end_spaces(x: Seq<char>, w: Seq<char>)
    requires
        is_space_run(w),
    ensures
        trim_end(x + w) == trim_end(x),
    decreases w.len(),
{
    if w.len() > 0 {
        let v = w.drop_last();
        assert((x + w).drop_last() =~= x + v);
        assert((x + w).last() == w[w.len() - 1]);
        assert(CharClass::Space.contains(w[w.len() - 1]));
        assert forall|k: int| 0 <= k < v.len() implies CharClass::Space.contains(#[trigger] v[k]) by {
            assert(v[k] == w[k]);
        }
        lemma_trim_end_spaces(x, v);
    } else {
        assert(x + w =~= x);
    }
}

/// Spaces before a text do not change its trimmed form.
proof fn lemma_trim_spaces_before(w: Seq<char>, x: Seq<char>)
    requires
        is_space_run(w),
    ensures
        trim(w + x) == trim(x),
{
    lemma_trim_start_spaces(w);
    lemma_trim_start_concat(w, x);
}

/// Spaces after a text do not change its trimmed form.
proof fn lemma_trim_spaces_after(x: Seq<char>, w: Seq<char>)
    requires
        is_space_run(w),
    ensures
        trim(x + w) == trim(x),
{
    lemma_trim_start_concat(x, w);
    lemma_trim_start_spaces(w);
    if trim_start(x).len() > 0 {
        lemma_trim_end_spaces(trim_start(x), w);
    } else {
        assert(trim_start(x + w) =~= trim_start(x));
    }
}

/// `s` with `w` put in at position `p`.
pub open spec fn insert_at(s: Seq<char>, p: int, w: Seq<char>) -> Seq<char> {
    s.take(p) + w + s.skip(p)
}

proof fn lemma_insert_at(s: Seq<char>, p: int, w: Seq<char>)
    requires
        0 <= p <= s.len(),
    ensures
        insert_at(s, p, w).len() == s.len() + w.len(),
        forall|q: int| 0 <= q < p ==> #[trigger] insert_at(s, p, w)[q] == s[q],
        forall|q: int| p <= q < p + w.len() ==> #[trigger] insert_at(s, p, w)[q] == w[q - p],
        forall|q: int| p <= q < s.len() ==> insert_at(s, p, w)[q + w.len()] == #[trigger] s[q],
{
    let t = insert_at(s, p, w);
    assert forall|q: int| p <= q < s.len() implies t[q + w.len()] == #[trigger] s[q] by {
        assert(s.skip(p)[q - p] == s[q]);
    }
}

proof fn lemma_agree_before(s: Seq<char>, p: int, w: Seq<char>, a: int, b: int)
    requires
        0 <= a <= b <= p <= s.len(),
    ensures
        agree(s, insert_at(s, p, w), a, b, 0),
{
    lemma_insert_at(s, p, w);
}

proof fn lemma_agree_after(s: Seq<char>, p: int, w: Seq<char>, a: int, b: int)
    requires
        0 <= p <= a <= b <= s.len(),
    ensures
        agree(s, insert_at(s, p, w), a, b, w.len() as int),
{
    lemma_insert_at(s, p, w);
}


/// Whether `p` is a tag boundary inside the element that the grammar reads
/// at `i`: a place in its content where a tag begins or ends, the end of
/// its start tag and the start of its close tag included, at any depth.
pub open spec fn element_boundary(s: Seq<char>, i: int, p: int) -> bool
    decreases rest_len(s, i), 0nat,
{
    match open_tag(s, i) {
        Some((_, _, closed, j)) => if closed {
            false
        } else {
            proof {
                lemma_open_tag(s, i);
            }
            content_boundary(s, j, p)
        },
        None => false,
    }
}

/// Whether `p` is a tag boundary within the content that the grammar reads
/// at `j`: where one of its items begins or where it ends, or a tag
/// boundary inside one of its elements.
pub open spec fn content_boundary(s: Seq<char>, j: int, p: int) -> bool
    decreases rest_len(s, j), 1nat,
{
    if p == j {
        true
    } else if 0 <= j < s.len() {
        match content_item(s, j) {
            Some((_, _, j1)) => if j < j1 {
                (s[j] == '<' && element_boundary(s, j, p)) || content_boundary(s, j1, p)
            } else {
                false
            },
            None => false,
        }
    } else {
        false
    }
}

/// Whether white space may go in at `p` of document `s`: within the white
/// space before or after its root element, or at a tag boundary inside it.
pub open spec fn space_may_go_at(s: Seq<char>, p: int) -> bool {
    let r = scan(s, 0, CharClass::Space);
    &&& 0 <= p <= s.len()
    &&& element(s, r) matches Some((_, _, e)) && (p <= r || e <= p || element_boundary(s, r, p))
}

proof fn lemma_element_insert(s: Seq<char>, w: Seq<char>, p: int, i: int)
    requires
        is_space_run(w),
        0 <= p <= s.len(),
        element(s, i) is Some,
        element_boundary(s, i, p),
    ensures
        element(s, i) matches Some((n, ok, e)) && i < p < e && element(insert_at(s, p, w), i)
            == Some((n, ok, e + w.len())),
    decreases rest_len(s, i), 0nat,
{
    let t = insert_at(s, p, w);
    let d = w.len() as int;
    lemma_open_tag(s, i);
    if let Some((name, raw, closed, j)) = open_tag(s, i) {
        lemma_content_advances(s, j);
        let k = content(s, j).2;
        if let Some((end, e)) = close_tag(s, k) {
            lemma_scan(s, k + 2, CharClass::Name);
            lemma_scan(s, scan(s, k + 2, CharClass::Name), CharClass::Space);
            lemma_content_insert(s, w, p, j);
            lemma_agree_before(s, p, w, i, j);
            lemma_open_tag_window(s, t, i, 0, name, raw, closed, j);
            lemma_agree_after(s, p, w, k, e);
            lemma_close_tag_window(s, t, k, d, end, e);
        }
    }
}

/// What the insertion lemmas on content assume of the content at `j`: that
/// a close tag follows it.
spec fn closed_content(s: Seq<char>, j: int) -> bool {
    &&& 0 <= j
    &&& content(s, j).2 + 1 < s.len()
    &&& s[content(s, j).2] == '<'
    &&& s[content(s, j).2 + 1] == '/'
}

/// White space put in before a text joins it, and trims away.
proof fn lemma_space_before_text(s: Seq<char>, w: Seq<char>, j: int)
    requires
        is_space_run(w),
        w.len() > 0,
        closed_content(s, j),
        j < s.len(),
        s[j] != '<',
    ensures
        content(insert_at(s, j, w), j) == (content(s, j).0, content(s, j).1, content(s, j).2 + w.len()),
{
    let t = insert_at(s, j, w);
    let d = w.len() as int;
    let k = content(s, j).2;
    lemma_content_advances(s, j);
    lemma_insert_at(s, j, w);
    let j1 = scan(s, j, CharClass::Text);
    lemma_scan(s, j + 1, CharClass::Text);
    lemma_content_advances(s, j1);
    assert forall|q: int| j <= q < j1 + d implies CharClass::Text.contains(#[trigger] t[q]) by {
        if q < j + d {
            assert(t[q] == w[q - j]);
            assert(CharClass::Space.contains(w[q - j]));
        } else {
            assert(t[(q - d) + d] == s[q - d]);
        }
    }
    assert(t[j1 + d] == s[j1]);
    lemma_scan_to(t, j, j1 + d, CharClass::Text);
    assert(t.subrange(j, j1 + d) =~= w + s.subrange(j, j1));
    lemma_trim_spaces_before(w, s.subrange(j, j1));
    let x = trim(s.subrange(j, j1));
    let item = if x.len() > 0 { Some(Node::Text(x)) } else { None };
    assert(content_item(s, j) == Some((item, true, j1)));
    assert(content(s, j1).2 == k);
    lemma_agree_after(s, j, w, j1, k + 2);
    lemma_content_window(s, t, j1, d);
    assert(t[j] == w[0]);
    assert(content_item(t, j) == Some((item, true, j1 + d)));
}

/// White space put in before a tag is text that trims to nothing.
proof fn lemma_space_before_tag(s: Seq<char>, w: Seq<char>, j: int)
    requires
        is_space_run(w),
        w.len() > 0,
        closed_content(s, j),
        j < s.len(),
        s[j] == '<',
    ensures
        content(insert_at(s, j, w), j) == (content(s, j).0, content(s, j).1, content(s, j).2 + w.len()),
{
    let t = insert_at(s, j, w);
    let d = w.len() as int;
    let k = content(s, j).2;
    lemma_content_advances(s, j);
    lemma_insert_at(s, j, w);
    assert(t.subrange(j, j + d) =~= w);
    assert(t[j + d] == s[j]);
    lemma_space_item(t, w, j);
    lemma_agree_after(s, j, w, j, k + 2);
    lemma_content_window(s, t, j, d);
}

/// White space put in after a text joins it, and trims away.
proof fn lemma_space_after_text(s: Seq<char>, w: Seq<char>, j: int)
    requires
        is_space_run(w),
        closed_content(s, j),
        j < s.len(),
        s[j] != '<',
    ensures
        content(insert_at(s, scan(s, j, CharClass::Text), w), j) == (
            content(s, j).0,
            content(s, j).1,
            content(s, j).2 + w.len(),
        ),
{
    let j1 = scan(s, j, CharClass::Text);
    let t = insert_at(s, j1, w);
    let d = w.len() as int;
    let k = content(s, j).2;
    lemma_content_advances(s, j);
    lemma_scan(s, j + 1, CharClass::Text);
    lemma_scan(s, j, CharClass::Text);
    lemma_content_advances(s, j1);
    lemma_insert_at(s, j1, w);
    assert forall|q: int| j <= q < j1 + d implies CharClass::Text.contains(#[trigger] t[q]) by {
        if q < j1 {
            assert(t[q] == s[q]);
        } else {
            assert(t[q] == w[q - j1]);
            assert(CharClass::Space.contains(w[q - j1]));
        }
    }
    assert(t[j1 + d] == s[j1]);
    lemma_scan_to(t, j, j1 + d, CharClass::Text);
    assert(t.subrange(j, j1 + d) =~= s.subrange(j, j1) + w);
    lemma_trim_spaces_after(s.subrange(j, j1), w);
    let x = trim(s.subrange(j, j1));
    let item = if x.len() > 0 { Some(Node::Text(x)) } else { None };
    assert(content_item(s, j) == Some((item, true, j1)));
    assert(content(s, j1).2 == k);
    lemma_agree_after(s, j1, w, j1, k + 2);
    lemma_content_window(s, t, j1, d);
    assert(t[j] == s[j]);
    assert(content_item(t, j) == Some((item, true, j1 + d)));
}

#[verifier::rlimit(50)]
proof fn lemma_content_insert(s: Seq<char>, w: Seq<char>, p: int, j: int)
    requires
        is_space_run(w),
        0 <= p <= s.len(),
        content_boundary(s, j, p),
        closed_content(s, j),
    ensures
        j <= p <= content(s, j).2,
        content(insert_at(s, p, w), j) == (content(s, j).0, content(s, j).1, content(s, j).2 + w.len()),
    decreases rest_len(s, j), 1nat,
{
    let t = insert_at(s, p, w);
    let d = w.len() as int;
    let k = content(s, j).2;
    lemma_content_advances(s, j);
    if p == j {
        if d == 0 {
            assert(t =~= s);
        } else if s[j] != '<' {
            lemma_space_before_text(s, w, j);
        } else {
            lemma_space_before_tag(s, w, j);
        }
    } else {
        let (item, ok1, j1) = content_item(s, j).unwrap();
        lemma_content_advances(s, j1);
        lemma_insert_at(s, p, w);
        assert(content(s, j1).2 == k);
        if s[j] == '<' && element_boundary(s, j, p) {
            lemma_element_insert(s, w, p, j);
            assert(t[j] == s[j]);
            lemma_agree_after(s, p, w, j1, k + 2);
            lemma_content_window(s, t, j1, d);
            assert(content_item(t, j) == Some((item, ok1, j1 + d)));
        } else if p == j1 && s[j] != '<' {
            lemma_space_after_text(s, w, j);
        } else {
            lemma_content_insert(s, w, p, j1);
            if s[j] == '<' {
                law_element_shape(s, j);
                lemma_agree_before(s, p, w, j, j1);
                lemma_element_window(s, t, j, 0);
                assert(t[j] == s[j]);
            } else {
                lemma_scan(s, j, CharClass::Text);
                lemma_agree_before(s, p, w, j, j1 + 1);
                lemma_content_item_window(s, t, j, 0);
            }
            assert(content_item(t, j) == Some((item, ok1, j1)));
        }
    }
}

/// White space put into a document at a tag boundary, or before or after
/// its root element, leaves what the grammar reads unchanged: the same
/// tree, and the same answer on whether its close tags match.
pub proof fn law_space_at_any_tag_boundary_is_ignored(s: Seq<char>, p: int, w: Seq<char>)
    requires
        document(s) is Some,
        is_space_run(w),
        space_may_go_at(s, p),
    ensures
        document(insert_at(s, p, w)) == document(s),
{
    let t = insert_at(s, p, w);
    let d = w.len() as int;
    let r = scan(s, 0, CharClass::Space);
    lemma_scan(s, 0, CharClass::Space);
    law_element_shape(s, r);
    lemma_insert_at(s, p, w);
    let e = element(s, r).unwrap().2;
    lemma_scan(s, e, CharClass::Space);
    if p <= r {
        assert forall|q: int| 0 <= q < r + d implies CharClass::Space.contains(#[trigger] t[q]) by {
            if q < p {
                assert(t[q] == s[q]);
            } else if q < p + d {
                assert(t[q] == w[q - p]);
            } else {
                assert(t[(q - d) + d] == s[q - d]);
            }
        }
        assert(t[r + d] == s[r]);
        lemma_scan_to(t, 0, r + d, CharClass::Space);
        lemma_agree_after(s, p, w, r, e);
        lemma_element_window(s, t, r, d);
        lemma_agree_after(s, p, w, e, s.len() as int);
        lemma_scan_window(s, t, e, CharClass::Space, s.len() as int, d);
    } else if e <= p {
        lemma_agree_before(s, p, w, 0, p);
        lemma_scan_window(s, t, 0, CharClass::Space, p, 0);
        lemma_agree_before(s, p, w, r, e);
        lemma_element_window(s, t, r, 0);
        assert forall|q: int| e <= q < t.len() implies CharClass::Space.contains(#[trigger] t[q]) by {
            if q < p {
                assert(t[q] == s[q]);
            } else if q < p + d {
                assert(t[q] == w[q - p]);
            } else {
                assert(t[(q - d) + d] == s[q - d]);
            }
        }
        lemma_scan_to(t, e, t.len() as int, CharClass::Space);
    } else {
        lemma_element_insert(s, w, p, r);
        lemma_agree_before(s, p, w, 0, p);
        lemma_scan_window(s, t, 0, CharClass::Space, p, 0);
        lemma_agree_after(s, p, w, e, s.len() as int);
        lemma_scan_window(s, t, e, CharClass::Space, s.len() as int, d);
    }
}


proof fn lemma_element_boundary_at_tag(s: Seq<char>, i: int, p: int)
    requires
        element(s, i) is Some,
        element_boundary(s, i, p),
    ensures
        0 < p < s.len(),
        s[p] == '<' || s[p - 1] == '>',
    decreases rest_len(s, i), 0nat,
{
    lemma_open_tag(s, i);
    if let Some((_, _, _, j)) = open_tag(s, i) {
        lemma_scan(s, i + 1, CharClass::Name);
        lemma_attribute_list(s, scan(s, i + 1, CharClass::Name));
        lemma_content_advances(s, j);
        lemma_content_boundary_at_tag(s, j, p);
    }
}

proof fn lemma_content_boundary_at_tag(s: Seq<char>, j: int, p: int)
    requires
        j >= 1,
        closed_content(s, j),
        content_boundary(s, j, p),
        s[j] == '<' || s[j - 1] == '>',
    ensures
        0 < p < s.len(),
        s[p] == '<' || s[p - 1] == '>',
    decreases rest_len(s, j), 1nat,
{
    let k = content(s, j).2;
    lemma_content_advances(s, j);
    if p != j {
        let (item, ok1, j1) = content_item(s, j).unwrap();
        lemma_content_advances(s, j1);
        assert(content(s, j1).2 == k);
        if s[j] == '<' && element_boundary(s, j, p) {
            lemma_element_boundary_at_tag(s, j, p);
        } else {
            if s[j] == '<' {
                law_element_shape(s, j);
            } else {
                lemma_scan(s, j, CharClass::Text);
            }
            lemma_content_boundary_at_tag(s, j1, p);
        }
    }
}

/// Inside the root element, the places where white space may go are
/// tag boundaries: right before a '<' that starts a tag, or right after a
/// '>' that ends one.
pub proof fn law_boundaries_touch_tags(s: Seq<char>, p: int)
    requires
        element(s, scan(s, 0, CharClass::Space)) is Some,
        element_boundary(s, scan(s, 0, CharClass::Space), p),
    ensures
        0 < p < s.len(),
        s[p] == '<' || s[p - 1] == '>',
{
    lemma_element_boundary_at_tag(s, scan(s, 0, CharClass::Space), p);
}


/// Whether the element read at `p`, if one is, closes itself or ends with a
/// close tag that names it.
pub open spec fn closed_by_its_name(s: Seq<char>, p: int) -> bool {
    match (open_tag(s, p), element(s, p)) {
        (Some((name, _, closed, _)), Some((_, _, e))) => closed || exists|k: int|
            close_tag(s, k) == Some((name, e)),
        _ => true,
    }
}

/// Whether an element is read at `p` whose close tag names another tag.
pub open spec fn closed_by_another_name(s: Seq<char>, p: int) -> bool {
    &&& open_tag(s, p) matches Some((name, _, closed, _))
    &&& !closed
    &&& element(s, p) matches Some((_, _, e))
    &&& exists|k: int| #[trigger] close_tag(s, k) matches Some((end, f)) && f == e && end != name
}

/// Whether reading document `s` reads an element at `p`, if one stands
/// there: its root, or a place inside the root where a tag may begin.
pub open spec fn element_in_document(s: Seq<char>, p: int) -> bool {
    p == scan(s, 0, CharClass::Space) || element_boundary(s, scan(s, 0, CharClass::Space), p)
}

/// An element read at `i` is read as matching exactly when every element in
/// it, itself included, closes itself or is closed by a close tag with its
/// own name; where it is read as not matching, some element in it is closed
/// by a close tag with another name.
pub proof fn law_element_close_tags(s: Seq<char>, i: int)
    ensures
        element(s, i) matches Some((_, ok, _)) ==> {
            &&& ok ==> forall|p: int| (p == i || element_boundary(s, i, p)) ==> #[trigger] closed_by_its_name(s, p)
            &&& !ok ==> exists|p: int| (p == i || element_boundary(s, i, p)) && #[trigger] closed_by_another_name(s, p)
        },
    decreases rest_len(s, i), 0nat,
{
    lemma_open_tag(s, i);
    if let Some((name, raw, closed, j)) = open_tag(s, i) {
        if !closed {
            let k = content(s, j).2;
            lemma_content_close_tags(s, j);
            if let Some((end, e)) = close_tag(s, k) {
                let ok = content(s, j).1 && end == name;
                if ok {
                    assert forall|p: int| (p == i || element_boundary(s, i, p)) implies #[trigger] closed_by_its_name(s, p) by {
                        if p == i {
                            assert(close_tag(s, k) == Some((name, e)));
                        } else {
                            assert(content_boundary(s, j, p));
                        }
                    }
                } else if end != name {
                    assert(element(s, i) matches Some((_, _, f)) && f == e);
                    assert(close_tag(s, k) matches Some((end2, f)) && f == e && end2 != name);
                    assert(closed_by_another_name(s, i));
                } else {
                    let p = choose|p: int| content_boundary(s, j, p) && #[trigger] closed_by_another_name(s, p);
                    assert(element_boundary(s, i, p));
                }
            }
        }
    }
}

proof fn lemma_content_close_tags(s: Seq<char>, j: int)
    ensures
        content(s, j).1 ==> forall|p: int| content_boundary(s, j, p) ==> #[trigger] closed_by_its_name(s, p),
        !content(s, j).1 ==> exists|p: int| content_boundary(s, j, p) && #[trigger] closed_by_another_name(s, p),
    decreases rest_len(s, j), 1nat,
{
    if 0 <= j < s.len() {
        match content_item(s, j) {
            Some((item, ok1, j1)) => {
                if s[j] == '<' {
                    law_element_shape(s, j);
                    law_element_close_tags(s, j);
                    assert(element(s, j) matches Some((_, f, _)) && f == ok1);
                } else {
                    lemma_scan(s, j + 1, CharClass::Text);
                    assert(open_tag(s, j) is None);
                    assert(ok1);
                }
                assert(j < j1);
                assert(content(s, j).1 == (ok1 && content(s, j1).1));
                lemma_content_close_tags(s, j1);
                if content(s, j).1 {
                    assert forall|p: int| content_boundary(s, j, p) implies #[trigger] closed_by_its_name(s, p) by {
                        if p == j {
                            if s[j] == '<' {
                                assert(p == j || element_boundary(s, j, p));
                            }
                        } else if s[j] == '<' && element_boundary(s, j, p) {
                        } else {
                            assert(content_boundary(s, j1, p));
                        }
                    }
                } else if !ok1 {
                    let p = choose|p: int| (p == j || element_boundary(s, j, p)) && #[trigger] closed_by_another_name(s, p);
                    assert(content_boundary(s, j, p));
                } else {
                    let p = choose|p: int| content_boundary(s, j1, p) && #[trigger] closed_by_another_name(s, p);
                    assert(content_boundary(s, j, p));
                }
            },
            None => {
                assert(element(s, j) is None);
                assert forall|p: int| content_boundary(s, j, p) implies #[trigger] closed_by_its_name(s, p) by {
                    assert(p == j);
                }
            },
        }
    } else {
        assert(open_tag(s, j) is None);
        assert forall|p: int| content_boundary(s, j, p) implies #[trigger] closed_by_its_name(s, p) by {
            assert(p == j);
        }
    }
}

/// A document is read as having all its close tags match exactly when every
/// element in it closes itself or is closed by a close tag with its own
/// name; where it is read as not matching, some element in it is closed by
/// a close tag with another name.
pub proof fn law_close_tags_match_exactly(s: Seq<char>)
    ensures
        document(s) matches Some((_, ok)) ==> {
            &&& ok ==> forall|p: int| element_in_document(s, p) ==> #[trigger] closed_by_its_name(s, p)
            &&& !ok ==> exists|p: int| element_in_document(s, p) && #[trigger] closed_by_another_name(s, p)
        },
{
    let r = scan(s, 0, CharClass::Space);
    law_element_close_tags(s, r);
    if let Some((_, ok)) = document(s) {
        if ok {
            assert forall|p: int| element_in_document(s, p) implies #[trigger] closed_by_its_name(s, p) by {
                assert(p == r || element_boundary(s, r, p));
            }
        } else {
            let p = choose|p: int| (p == r || element_boundary(s, r, p)) && #[trigger] closed_by_another_name(s, p);
            assert(element_in_document(s, p));
        }
    }
}

} // verus!
