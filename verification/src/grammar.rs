//! The HTML grammar that this library reads, stated over the characters of a
//! document. Positions are indices into the character sequence.
//!
//! ```text
//! html          = space* element space* EOI
//! element       = "<" name attribute_list space* "/>"
//!               | "<" name attribute_list space* ">" content close_tag
//! attribute_list= (space+ attribute)*
//! attribute     = name space* "=" space* "\"" quoted* "\""
//! close_tag     = "</" name space* ">"
//! content       = (raw | element)*
//! raw           = text+
//! ```
//! `space` is ' ', '\t', '\n' or '\r'; a `name` character is an ASCII letter
//! or digit, '-', '_' or ':'; `text` is any character but '<'; `quoted` is
//! any character but '"'. A repetition ends where its next iteration fails
//! or consumes nothing. Raw text is kept trimmed, and dropped when the trim
//! leaves nothing; attributes are kept as a map keyed by name, in the order
//! in which each name first occurs, with the value of its last occurrence.
use vstd::prelude::*;
use crate::text::{trim, trim_start, trim_end, is_white_space};
use crate::tree::Node;

verus! {

/// The classes of characters that the grammar scans over.
pub enum CharClass {
    Space,
    Name,
    Text,
    Quoted,
}

impl CharClass {
    pub open spec fn contains(self, c: char) -> bool {
        match self {
            CharClass::Space => c == ' ' || c == '\t' || c == '\n' || c == '\r',
            CharClass::Name => ('a' <= c <= 'z') || ('A' <= c <= 'Z') || ('0' <= c <= '9') || c
                == '-' || c == '_' || c == ':',
            CharClass::Text => c != '<',
            CharClass::Quoted => c != '"',
        }
    }
}

/// The end of the longest run of characters of `class` that starts at `i`.
pub open spec fn scan(s: Seq<char>, i: int, class: CharClass) -> int
    decreases s.len() - i,
{
    if 0 <= i < s.len() && class.contains(s[i]) {
        scan(s, i + 1, class)
    } else {
        i
    }
}

/// What is left of the input from `i` on: the measure by which the grammar's
/// recursion ends.
pub open spec fn rest_len(s: Seq<char>, i: int) -> nat {
    if i < s.len() {
        (s.len() - i) as nat
    } else {
        0
    }
}

/// `attribute` at `i`: its name, its value and the position after it.
pub open spec fn attribute(s: Seq<char>, i: int) -> Option<(Seq<char>, Seq<char>, int)> {
    let j = scan(s, i, CharClass::Name);
    let k = scan(s, j, CharClass::Space);
    let m = scan(s, k + 1, CharClass::Space);
    let e = scan(s, m + 1, CharClass::Quoted);
    if i < j && k < s.len() && s[k] == '=' && m < s.len() && s[m] == '"' && e < s.len() {
        Some((s.subrange(i, j), s.subrange(m + 1, e), e + 1))
    } else {
        None
    }
}

/// `attribute_list` at `i`: the attributes in document order and the
/// position after them.
pub open spec fn attribute_list(s: Seq<char>, i: int) -> (Seq<(Seq<char>, Seq<char>)>, int)
    decreases rest_len(s, i),
{
    let j = scan(s, i, CharClass::Space);
    if 0 <= i < s.len() && i < j {
        match attribute(s, j) {
            Some((name, value, k)) => if i < k {
                let (rest, e) = attribute_list(s, k);
                (seq![(name, value)] + rest, e)
            } else {
                (seq![], i)
            },
            None => (seq![], i),
        }
    } else {
        (seq![], i)
    }
}

/// The position of the first entry of `m` whose key is `key`, if any.
pub open spec fn key_index(m: Seq<(Seq<char>, Seq<char>)>, key: Seq<char>) -> Option<int>
    decreases m.len(),
{
    if m.len() == 0 {
        None
    } else {
        match key_index(m.drop_last(), key) {
            Some(i) => Some(i),
            None => if m.last().0 == key {
                Some(m.len() - 1)
            } else {
                None
            },
        }
    }
}

/// Whether `i` is the position of the first pair in `attrs` whose name is
/// `key`.
pub open spec fn first_key(attrs: Seq<(Seq<char>, Seq<char>)>, key: Seq<char>, i: int) -> bool {
    &&& 0 <= i < attrs.len()
    &&& attrs[i].0 == key
    &&& forall|j: int| 0 <= j < i ==> attrs[j].0 != key
}

pub proof fn lemma_key_index(attrs: Seq<(Seq<char>, Seq<char>)>, key: Seq<char>)
    ensures
        key_index(attrs, key) matches Some(i) ==> first_key(attrs, key, i),
        key_index(attrs, key) is None ==> forall|j: int| 0 <= j < attrs.len() ==> attrs[j].0 != key,
    decreases attrs.len(),
{
    if attrs.len() > 0 {
        let init = attrs.drop_last();
        lemma_key_index(init, key);
        assert(forall|j: int| 0 <= j < init.len() ==> init[j] == attrs[j]);
    }
}

/// `m` with `kv` inserted as into a map: an entry with the same key gets the
/// new value in place, otherwise the pair is added at the end.
pub open spec fn map_insert(
    m: Seq<(Seq<char>, Seq<char>)>,
    kv: (Seq<char>, Seq<char>),
) -> Seq<(Seq<char>, Seq<char>)> {
    match key_index(m, kv.0) {
        Some(i) => m.update(i, kv),
        None => m.push(kv),
    }
}

/// The attribute map of a tag whose attributes are `raw`, in document order.
pub open spec fn collect_attributes(raw: Seq<(Seq<char>, Seq<char>)>) -> Seq<(Seq<char>, Seq<char>)>
    decreases raw.len(),
{
    if raw.len() == 0 {
        seq![]
    } else {
        map_insert(collect_attributes(raw.drop_last()), raw.last())
    }
}

/// A start tag at `i`: its name, its attributes in document order, whether
/// it closes itself (`/>`), and the position after it.
pub open spec fn open_tag(s: Seq<char>, i: int) -> Option<(Seq<char>, Seq<(Seq<char>, Seq<char>)>, bool, int)> {
    let j = scan(s, i + 1, CharClass::Name);
    let (attrs, k) = attribute_list(s, j);
    let m = scan(s, k, CharClass::Space);
    if 0 <= i < s.len() && s[i] == '<' && i + 1 < j {
        if m + 1 < s.len() && s[m] == '/' && s[m + 1] == '>' {
            Some((s.subrange(i + 1, j), attrs, true, m + 2))
        } else if m < s.len() && s[m] == '>' {
            Some((s.subrange(i + 1, j), attrs, false, m + 1))
        } else {
            None
        }
    } else {
        None
    }
}

/// `close_tag` at `i`: its name and the position after it.
pub open spec fn close_tag(s: Seq<char>, i: int) -> Option<(Seq<char>, int)> {
    let j = scan(s, i + 2, CharClass::Name);
    let k = scan(s, j, CharClass::Space);
    if 0 <= i && i + 1 < s.len() && s[i] == '<' && s[i + 1] == '/' && i + 2 < j && k < s.len()
        && s[k] == '>' {
        Some((s.subrange(i + 2, j), k + 1))
    } else {
        None
    }
}

/// `element` at `i`: its node, whether every close tag within it (its own
/// included) names the tag that it closes, and the position after it.
pub open spec fn element(s: Seq<char>, i: int) -> Option<(Node, bool, int)>
    decreases rest_len(s, i), 0nat,
{
    match open_tag(s, i) {
        None => None,
        Some((name, raw, closed, j)) => if closed {
            Some((Node::Element(name, collect_attributes(raw), seq![]), true, j))
        } else {
            proof {
                lemma_open_tag(s, i);
            }
            let (items, ok, k) = content(s, j);
            match close_tag(s, k) {
                None => None,
                Some((end, e)) => Some(
                    (Node::Element(name, collect_attributes(raw), items), ok && end == name, e),
                ),
            }
        },
    }
}

/// One iteration of `content` at `i`: the node it adds (none for raw text
/// that trims to nothing), whether its close tags match, and the position
/// after it.
pub open spec fn content_item(s: Seq<char>, i: int) -> Option<(Option<Node>, bool, int)>
    decreases rest_len(s, i), 1nat,
{
    if 0 <= i < s.len() && s[i] != '<' {
        let j = scan(s, i, CharClass::Text);
        let t = trim(s.subrange(i, j));
        Some((if t.len() > 0 { Some(Node::Text(t)) } else { None }, true, j))
    } else {
        match element(s, i) {
            Some((n, ok, j)) => Some((Some(n), ok, j)),
            None => None,
        }
    }
}

/// `content` at `i`: its nodes, whether their close tags match, and the
/// position after it.
pub open spec fn content(s: Seq<char>, i: int) -> (Seq<Node>, bool, int)
    decreases rest_len(s, i), 2nat,
{
    if 0 <= i < s.len() {
        match content_item(s, i) {
            Some((item, ok1, j)) => if i < j {
                let (rest, ok2, k) = content(s, j);
                (
                    match item {
                        Some(n) => seq![n] + rest,
                        None => rest,
                    },
                    ok1 && ok2,
                    k,
                )
            } else {
                (seq![], true, i)
            },
            None => (seq![], true, i),
        }
    } else {
        (seq![], true, i)
    }
}

/// A whole document: its root element and whether its close tags all match.
pub open spec fn document(s: Seq<char>) -> Option<(Node, bool)> {
    let i = scan(s, 0, CharClass::Space);
    match element(s, i) {
        Some((n, ok, j)) => if scan(s, j, CharClass::Space) == s.len() {
            Some((n, ok))
        } else {
            None
        },
        None => None,
    }
}

pub proof fn lemma_scan(s: Seq<char>, i: int, class: CharClass)
    requires
        0 <= i <= s.len(),
    ensures
        i <= scan(s, i, class) <= s.len(),
        forall|k: int| i <= k < scan(s, i, class) ==> class.contains(#[trigger] s[k]),
        scan(s, i, class) < s.len() ==> !class.contains(s[scan(s, i, class)]),
    decreases s.len() - i,
{
    if i < s.len() && class.contains(s[i]) {
        lemma_scan(s, i + 1, class);
    }
}

pub proof fn lemma_attribute_list(s: Seq<char>, i: int)
    requires
        0 <= i <= s.len(),
    ensures
        i <= attribute_list(s, i).1 <= s.len(),
    decreases rest_len(s, i),
{
    lemma_scan(s, i, CharClass::Space);
    let j = scan(s, i, CharClass::Space);
    if 0 <= i < s.len() && i < j {
        lemma_scan(s, j, CharClass::Name);
        let j2 = scan(s, j, CharClass::Name);
        lemma_scan(s, j2, CharClass::Space);
        let k = scan(s, j2, CharClass::Space);
        if k < s.len() {
            lemma_scan(s, k + 1, CharClass::Space);
            let m = scan(s, k + 1, CharClass::Space);
            if m < s.len() {
                lemma_scan(s, m + 1, CharClass::Quoted);
            }
        }
        match attribute(s, j) {
            Some((name, value, k)) => if i < k {
                lemma_attribute_list(s, k);
            },
            None => {},
        }
    }
}

pub proof fn lemma_open_tag(s: Seq<char>, i: int)
    ensures
        open_tag(s, i) matches Some((_, _, _, j)) ==> i < j <= s.len(),
{
    if 0 <= i < s.len() {
        lemma_scan(s, i + 1, CharClass::Name);
        let j = scan(s, i + 1, CharClass::Name);
        lemma_attribute_list(s, j);
        lemma_scan(s, attribute_list(s, j).1, CharClass::Space);
    }
}

/// Whether every text node in the tree under `n` is non-empty and without
/// leading or trailing white space.
pub open spec fn texts_trimmed(n: Node) -> bool
    decreases n,
{
    match n {
        Node::Text(t) => t.len() > 0 && trim(t) == t,
        Node::Element(_, _, kids) => all_texts_trimmed(kids),
    }
}

/// Whether `texts_trimmed` holds of every tree in `s`.
pub open spec fn all_texts_trimmed(s: Seq<Node>) -> bool
    decreases s,
{
    s.len() == 0 || (texts_trimmed(s[0]) && all_texts_trimmed(s.drop_first()))
}

proof fn lemma_trim_start_shape(t: Seq<char>)
    ensures
        trim_start(t).len() > 0 ==> !is_white_space(trim_start(t)[0]),
    decreases t.len(),
{
    if t.len() > 0 && is_white_space(t[0]) {
        lemma_trim_start_shape(t.drop_first());
    }
}

proof fn lemma_trim_end_shape(t: Seq<char>)
    ensures
        trim_end(t).len() > 0 ==> !is_white_space(trim_end(t).last()),
        trim_end(t).len() <= t.len(),
        trim_end(t) == t.subrange(0, trim_end(t).len() as int),
    decreases t.len(),
{
    if t.len() > 0 && is_white_space(t.last()) {
        lemma_trim_end_shape(t.drop_last());
        let u = trim_end(t.drop_last());
        assert(t.drop_last().subrange(0, u.len() as int) =~= t.subrange(0, u.len() as int));
    } else {
        assert(t.subrange(0, t.len() as int) =~= t);
    }
}

/// Trimming twice trims no more than trimming once.
pub proof fn lemma_trim_idempotent(t: Seq<char>)
    ensures
        trim(trim(t)) == trim(t),
{
    let a = trim_start(t);
    let b = trim_end(a);
    lemma_trim_start_shape(t);
    lemma_trim_end_shape(a);
    if b.len() > 0 {
        assert(b[0] == a[0]);
        assert(trim_start(b) == b);
        lemma_trim_end_shape(b);
        assert(trim_end(b) == b);
    } else {
        assert(trim_start(b) == b);
        assert(trim_end(b) == b);
    }
}

proof fn lemma_element_texts(s: Seq<char>, i: int)
    ensures
        element(s, i) matches Some((n, _, _)) ==> texts_trimmed(n),
    decreases rest_len(s, i), 0nat,
{
    match open_tag(s, i) {
        None => {},
        Some((name, raw, closed, j)) => {
            if !closed {
                lemma_open_tag(s, i);
                lemma_content_texts(s, j);
            } else {
                assert(all_texts_trimmed(seq![]));
            }
        },
    }
}

proof fn lemma_content_item_texts(s: Seq<char>, i: int)
    ensures
        content_item(s, i) matches Some((Some(n), _, _)) ==> texts_trimmed(n),
    decreases rest_len(s, i), 1nat,
{
    if 0 <= i < s.len() && s[i] != '<' {
        let j = scan(s, i, CharClass::Text);
        lemma_trim_idempotent(s.subrange(i, j));
    } else {
        lemma_element_texts(s, i);
    }
}

proof fn lemma_content_texts(s: Seq<char>, i: int)
    ensures
        all_texts_trimmed(content(s, i).0),
    decreases rest_len(s, i), 2nat,
{
    if 0 <= i < s.len() {
        match content_item(s, i) {
            Some((item, ok1, j)) => if i < j {
                lemma_content_item_texts(s, i);
                lemma_content_texts(s, j);
                let rest = content(s, j).0;
                if let Some(n) = item {
                    assert((seq![n] + rest).drop_first() =~= rest);
                    assert((seq![n] + rest)[0] == n);
                }
            } else {
                assert(all_texts_trimmed(seq![]));
            },
            None => {
                assert(all_texts_trimmed(seq![]));
            },
        }
    } else {
        assert(all_texts_trimmed(seq![]));
    }
}

/// Every piece of text in a document read by the grammar is non-empty and
/// trimmed: raw text that trims to nothing is dropped, other raw text is
/// kept without its surrounding white space.
pub proof fn law_document_texts_trimmed(s: Seq<char>)
    ensures
        document(s) matches Some((n, _)) ==> texts_trimmed(n),
{
    lemma_element_texts(s, scan(s, 0, CharClass::Space));
}

/// `content` never ends before it starts.
pub proof fn lemma_content_advances(s: Seq<char>, i: int)
    ensures
        content(s, i).2 >= i,
    decreases rest_len(s, i),
{
    if 0 <= i < s.len() {
        match content_item(s, i) {
            Some((_, _, j)) => if i < j {
                lemma_content_advances(s, j);
            },
            None => {},
        }
    }
}

/// Every element that the grammar reads has one shape: it starts with `<`
/// and its name, the whole non-empty run of name characters that follows,
/// and it ends with `>` just before the position after it. A self-closing one has no content.
pub proof fn law_element_shape(s: Seq<char>, i: int)
    ensures
        element(s, i) matches Some((n, _, e)) ==> {
            &&& n matches Node::Element(name, _, items)
            &&& 0 <= i < e <= s.len()
            &&& s[i] == '<'
            &&& name.len() > 0
            &&& s.subrange(i + 1, i + 1 + name.len()) == name
            &&& forall|k: int| 0 <= k < name.len() ==> CharClass::Name.contains(#[trigger] name[k])
            &&& i + 1 + name.len() < e
            &&& !CharClass::Name.contains(s[i + 1 + name.len()])
            &&& s[e - 1] == '>'
            &&& (s[e - 2] == '/' ==> items.len() == 0)
        },
{
    law_start_tag_name(s, i);
    if 0 <= i < s.len() {
        lemma_scan(s, i + 1, CharClass::Name);
        lemma_open_tag(s, i);
        match open_tag(s, i) {
            None => {},
            Some((name, raw, closed, j)) => {
                let t = scan(s, i + 1, CharClass::Name);
                assert forall|k: int| 0 <= k < name.len() implies CharClass::Name.contains(
                    #[trigger] name[k],
                ) by {
                    assert(name[k] == s[i + 1 + k]);
                }
                if !closed {
                    lemma_content_advances(s, j);
                    let k = content(s, j).2;
                    match close_tag(s, k) {
                        None => {},
                        Some((end, e)) => {
                            lemma_scan(s, k + 2, CharClass::Name);
                            let m = scan(s, k + 2, CharClass::Name);
                            lemma_scan(s, m, CharClass::Space);
                            assert(s[e - 2] != '/');
                        },
                    }
                }
            },
        }
    }
}

/// The value of the last pair in `raw` whose name is `key`.
pub open spec fn last_value(raw: Seq<(Seq<char>, Seq<char>)>, key: Seq<char>) -> Seq<char>
    decreases raw.len(),
{
    if raw.len() == 0 {
        seq![]
    } else if raw.last().0 == key {
        raw.last().1
    } else {
        last_value(raw.drop_last(), key)
    }
}

/// Whether some pair in `m` has the name `key`.
pub open spec fn has_name(m: Seq<(Seq<char>, Seq<char>)>, key: Seq<char>) -> bool {
    exists|i: int| 0 <= i < m.len() && m[i].0 == key
}

/// The attributes of a tag form a map, as a `HashMap` filled in document
/// order would: each name once, exactly the names that occur, each with the
/// value of its last occurrence.
pub proof fn law_attributes_form_a_map(raw: Seq<(Seq<char>, Seq<char>)>)
    ensures
        forall|i: int, j: int|
            0 <= i < j < collect_attributes(raw).len() ==> collect_attributes(raw)[i].0
                != collect_attributes(raw)[j].0,
        forall|key: Seq<char>| has_name(collect_attributes(raw), key) <==> has_name(raw, key),
        forall|j: int|
            0 <= j < collect_attributes(raw).len() ==> collect_attributes(raw)[j].1 == last_value(
                raw,
                collect_attributes(raw)[j].0,
            ),
    decreases raw.len(),
{
    if raw.len() > 0 {
        let init = raw.drop_last();
        let kv = raw.last();
        law_attributes_form_a_map(init);
        let m0 = collect_attributes(init);
        let m = collect_attributes(raw);
        lemma_key_index(m0, kv.0);
        assert forall|key: Seq<char>| has_name(raw, key) <==> (has_name(init, key) || key == kv.0) by {
            if has_name(raw, key) {
                let i = choose|i: int| 0 <= i < raw.len() && raw[i].0 == key;
                if i < raw.len() - 1 {
                    assert(init[i] == raw[i]);
                }
            }
            if has_name(init, key) {
                let i = choose|i: int| 0 <= i < init.len() && init[i].0 == key;
                assert(raw[i] == init[i]);
            }
            if key == kv.0 {
                assert(raw[raw.len() - 1].0 == key);
            }
        }
        match key_index(m0, kv.0) {
            Some(idx) => {
                assert(m == m0.update(idx, kv));
                assert forall|key: Seq<char>| has_name(m, key) <==> has_name(m0, key) by {
                    if has_name(m, key) {
                        let i = choose|i: int| 0 <= i < m.len() && m[i].0 == key;
                        assert(m0[i].0 == key);
                    }
                    if has_name(m0, key) {
                        let i = choose|i: int| 0 <= i < m0.len() && m0[i].0 == key;
                        assert(m[i].0 == key);
                    }
                }
                assert(has_name(m0, kv.0));
            },
            None => {
                assert(m == m0.push(kv));
                assert forall|key: Seq<char>| has_name(m, key) <==> (has_name(m0, key) || key == kv.0) by {
                    if has_name(m, key) {
                        let i = choose|i: int| 0 <= i < m.len() && m[i].0 == key;
                        if i < m0.len() {
                            assert(m0[i].0 == key);
                        }
                    }
                    if has_name(m0, key) {
                        let i = choose|i: int| 0 <= i < m0.len() && m0[i].0 == key;
                        assert(m[i].0 == key);
                    }
                    if key == kv.0 {
                        assert(m[m.len() - 1].0 == key);
                    }
                }
            },
        }
    }
}


/// The name of a start tag is the whole run of name characters after its
/// '<': not empty, made of name characters, and followed by a character
/// that is not one. This holds of self-closing tags too.
pub proof fn law_start_tag_name(s: Seq<char>, i: int)
    ensures
        open_tag(s, i) matches Some((name, _, _, e)) ==> {
            &&& name.len() > 0
            &&& i + 1 + name.len() < e
            &&& s.subrange(i + 1, i + 1 + name.len()) == name
            &&& forall|k: int| 0 <= k < name.len() ==> CharClass::Name.contains(#[trigger] name[k])
            &&& !CharClass::Name.contains(s[i + 1 + name.len()])
        },
{
    if 0 <= i < s.len() {
        lemma_scan(s, i + 1, CharClass::Name);
        lemma_open_tag(s, i);
        let j = scan(s, i + 1, CharClass::Name);
        lemma_attribute_list(s, j);
        lemma_scan(s, attribute_list(s, j).1, CharClass::Space);
        if let Some((name, _, _, e)) = open_tag(s, i) {
            assert forall|k: int| 0 <= k < name.len() implies CharClass::Name.contains(#[trigger] name[k]) by {
                assert(name[k] == s[i + 1 + k]);
            }
        }
    }
}

/// The name of a close tag is the whole run of name characters after its
/// "</": not empty, made of name characters, and followed by a character
/// that is not one.
pub proof fn law_close_tag_name(s: Seq<char>, i: int)
    ensures
        close_tag(s, i) matches Some((name, e)) ==> {
            &&& name.len() > 0
            &&& i + 2 + name.len() < e
            &&& s.subrange(i + 2, i + 2 + name.len()) == name
            &&& forall|k: int| 0 <= k < name.len() ==> CharClass::Name.contains(#[trigger] name[k])
            &&& !CharClass::Name.contains(s[i + 2 + name.len()])
        },
{
    if 0 <= i && i + 1 < s.len() {
        lemma_scan(s, i + 2, CharClass::Name);
        let j = scan(s, i + 2, CharClass::Name);
        lemma_scan(s, j, CharClass::Space);
        if let Some((name, e)) = close_tag(s, i) {
            assert forall|k: int| 0 <= k < name.len() implies CharClass::Name.contains(#[trigger] name[k]) by {
                assert(name[k] == s[i + 2 + k]);
            }
        }
    }
}


/// An attribute is its name, the whole non-empty run of name characters at
/// its start, then one '=' with only spaces around it, then its value
/// between two '"', the value holding no '"'.
pub proof fn law_attribute_text(s: Seq<char>, i: int)
    ensures
        attribute(s, i) matches Some((name, value, e)) ==> {
            let a = i + name.len();
            let b = e - 2 - value.len();
            &&& name.len() > 0
            &&& 0 <= i < a <= b
            &&& e <= s.len()
            &&& s.subrange(i, a) == name
            &&& forall|k: int| 0 <= k < name.len() ==> CharClass::Name.contains(#[trigger] name[k])
            &&& !CharClass::Name.contains(s[a])
            &&& exists|q: int|
                a <= q < b && s[q] == '=' && forall|r: int|
                    a <= r < b && r != q ==> CharClass::Space.contains(#[trigger] s[r])
            &&& s[b] == '"'
            &&& s.subrange(b + 1, e - 1) == value
            &&& forall|k: int| 0 <= k < value.len() ==> #[trigger] value[k] != '"'
            &&& s[e - 1] == '"'
        },
{
    if let Some((name, value, e)) = attribute(s, i) {
        let j = scan(s, i, CharClass::Name);
        let k = scan(s, j, CharClass::Space);
        let m = scan(s, k + 1, CharClass::Space);
        let q = scan(s, m + 1, CharClass::Quoted);
        lemma_scan(s, i, CharClass::Name);
        lemma_scan(s, j, CharClass::Space);
        lemma_scan(s, k + 1, CharClass::Space);
        lemma_scan(s, m + 1, CharClass::Quoted);
        assert(j == i + name.len());
        assert(m == e - 2 - value.len());
        assert forall|x: int| 0 <= x < name.len() implies CharClass::Name.contains(#[trigger] name[x]) by {
            assert(name[x] == s[i + x]);
        }
        assert forall|x: int| 0 <= x < value.len() implies #[trigger] value[x] != '"' by {
            assert(value[x] == s[m + 1 + x]);
        }
        assert forall|r: int| j <= r < m && r != k implies CharClass::Space.contains(#[trigger] s[r]) by {}
        assert(j <= k < m && s[k] == '=');
    }
}

} // verus!
