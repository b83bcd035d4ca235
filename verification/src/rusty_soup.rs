//! A small document tree with a stack-based pre-order iterator and a
//! queue-based level-order iterator.
use vstd::prelude::*;
use std::collections::HashMap;
use std::collections::VecDeque;
use crate::traversal::lemma_filter_front;

verus! {

/// A document tree.
pub struct ParseTree {
    root: HTMLContent,
}

/// A tag: its type, its attributes, and its content.
pub struct Tag {
    tag_type: String,
    attributes: HashMap<String, String>,
    content: Vec<HTMLContent>,
}

/// A node of a document tree: raw text or a tag.
pub enum HTMLContent {
    Raw(String),
    Tag(Box<Tag>),
}

/// The mathematical model of a node.
pub enum SoupNode {
    Text(Seq<char>),
    Element(Seq<char>, Map<String, String>, Seq<SoupNode>),
}

/// The model of the node `c`.
pub open spec fn node_model(c: HTMLContent) -> SoupNode
    decreases c,
{
    match c {
        HTMLContent::Raw(s) => SoupNode::Text(s@),
        HTMLContent::Tag(t) => {
            proof {
                lemma_content_smaller(c);
            }
            SoupNode::Element(t.tag_name()@, t.spec_attributes()@, nodes_model(t.spec_content()@))
        },
    }
}

/// The models of the nodes `s`.
pub open spec fn nodes_model(s: Seq<HTMLContent>) -> Seq<SoupNode>
    decreases s,
{
    if s.len() == 0 {
        Seq::empty()
    } else {
        nodes_model(s.drop_last()).push(node_model(s.last()))
    }
}

impl View for HTMLContent {
    type V = SoupNode;

    open spec fn view(&self) -> SoupNode {
        node_model(*self)
    }
}

impl ParseTree {
    /// The root of the tree.
    pub closed spec fn root(&self) -> HTMLContent {
        self.root
    }

    /// The tree for `url`: as no page is fetched, a single piece of text,
    /// `link`.
    pub fn new(url: &str) -> (r: Self)
        ensures
            r.root()@ == SoupNode::Text("link"@),
    {
        ParseTree { root: ParseTree::parse_html(ParseTree::get_html(url)) }
    }

    /// The page for `url`: a placeholder, `foobar`.
    fn get_html(url: &str) -> (r: String)
        ensures
            r@ == "foobar"@,
    {
        "foobar".to_owned()
    }

    /// The tree of `html`: a placeholder, the text `link`.
    fn parse_html(html: String) -> (r: HTMLContent)
        ensures
            r@ == SoupNode::Text("link"@),
    {
        HTMLContent::Raw("link".to_owned())
    }

    /// An iterator over the tree in pre-order.
    pub fn pre_iter<'a>(&'a self) -> (r: PtPreOrderIter<'a>)
        ensures
            r@ == pre_order(self.root()),
    {
        PtPreOrderIter::new(&self.root)
    }

    /// An iterator over the tree in level order.
    pub fn level_iter<'a>(&'a self) -> (r: PtLevelOrderIter<'a>)
        ensures
            r@ == level_order(self.root()),
    {
        PtLevelOrderIter::new(&self.root)
    }
}

impl HTMLContent {
    /// An iterator over the tree under this node in pre-order.
    pub fn pre_iter<'a>(&'a self) -> (r: PtPreOrderIter<'a>)
        ensures
            r@ == pre_order(*self),
    {
        PtPreOrderIter::new(self)
    }

    /// An iterator over the tree under this node in level order.
    pub fn level_iter<'a>(&'a self) -> (r: PtLevelOrderIter<'a>)
        ensures
            r@ == level_order(*self),
    {
        PtLevelOrderIter::new(self)
    }
}

impl Tag {
    /// The tag's type.
    pub closed spec fn tag_name(&self) -> String {
        self.tag_type
    }

    /// The tag's attributes.
    pub closed spec fn spec_attributes(&self) -> HashMap<String, String> {
        self.attributes
    }

    /// The tag's content.
    pub closed spec fn spec_content(&self) -> Vec<HTMLContent> {
        self.content
    }

    /// The tag's type, such as `div`.
    pub fn get_tag(&self) -> (r: &String)
        ensures
            *r == self.tag_name(),
    {
        &self.tag_type
    }
}

/// The children of a node: the content of a tag; none for raw text.
pub open spec fn children(n: HTMLContent) -> Seq<HTMLContent> {
    match n {
        HTMLContent::Raw(_) => seq![],
        HTMLContent::Tag(t) => t.spec_content()@,
    }
}

/// The content of a tag is smaller than the tag: what recursion over a tree
/// goes down by.
pub proof fn lemma_content_smaller(n: HTMLContent)
    ensures
        n matches HTMLContent::Tag(t) ==> decreases_to!(n => t.spec_content()@),
{
}

/// The pre-order of the tree under `n`: the node, then the pre-order of each
/// child in turn.
pub open spec fn pre_order(n: HTMLContent) -> Seq<HTMLContent>
    decreases n,
{
    match n {
        HTMLContent::Raw(_) => seq![n],
        HTMLContent::Tag(t) => {
            proof {
                lemma_content_smaller(n);
            }
            seq![n] + pre_order_all(t.spec_content()@)
        },
    }
}

/// The pre-orders of the trees in `s`, one after the other.
pub open spec fn pre_order_all(s: Seq<HTMLContent>) -> Seq<HTMLContent>
    decreases s,
{
    if s.len() == 0 {
        seq![]
    } else {
        pre_order(s[0]) + pre_order_all(s.drop_first())
    }
}

/// The number of nodes in the tree under `n`.
pub open spec fn size(n: HTMLContent) -> nat
    decreases n,
{
    match n {
        HTMLContent::Raw(_) => 1,
        HTMLContent::Tag(t) => {
            proof {
                lemma_content_smaller(n);
            }
            1 + size_all(t.spec_content()@)
        },
    }
}

/// The number of nodes in the trees of `s`.
pub open spec fn size_all(s: Seq<HTMLContent>) -> nat
    decreases s,
{
    if s.len() == 0 {
        0
    } else {
        size(s[0]) + size_all(s.drop_first())
    }
}

/// The level order that a queue `q` of nodes produces: the first node, then
/// the level order of the rest of the queue followed by that node's
/// children.
pub open spec fn level_order_from(q: Seq<HTMLContent>) -> Seq<HTMLContent>
    decreases size_all(q),
{
    if q.len() == 0 {
        seq![]
    } else {
        proof {
            lemma_level_step_smaller(q);
        }
        seq![q[0]] + level_order_from(q.drop_first() + children(q[0]))
    }
}

/// The level order (breadth first, each level left to right) of the tree
/// under `n`.
pub open spec fn level_order(n: HTMLContent) -> Seq<HTMLContent> {
    level_order_from(seq![n])
}

/// The nodes that a sequence of references points to.
pub open spec fn deref_all<'a>(s: Seq<&'a HTMLContent>) -> Seq<HTMLContent> {
    s.map_values(|r: &'a HTMLContent| *r)
}

pub proof fn lemma_size_all_concat(a: Seq<HTMLContent>, b: Seq<HTMLContent>)
    ensures
        size_all(a + b) == size_all(a) + size_all(b),
    decreases a.len(),
{
    if a.len() > 0 {
        assert((a + b).drop_first() =~= a.drop_first() + b);
        lemma_size_all_concat(a.drop_first(), b);
    } else {
        assert(a + b =~= b);
    }
}

pub proof fn lemma_level_step_smaller(q: Seq<HTMLContent>)
    requires
        q.len() > 0,
    ensures
        size_all(q.drop_first() + children(q[0])) < size_all(q),
{
    lemma_size_all_concat(q.drop_first(), children(q[0]));
    assert(size_all(q) == size(q[0]) + size_all(q.drop_first()));
    match q[0] {
        HTMLContent::Raw(_) => {
            assert(size_all(children(q[0])) == 0);
        },
        HTMLContent::Tag(t) => {},
    }
}

proof fn lemma_pre_order_all_concat(a: Seq<HTMLContent>, b: Seq<HTMLContent>)
    ensures
        pre_order_all(a + b) == pre_order_all(a) + pre_order_all(b),
    decreases a.len(),
{
    if a.len() > 0 {
        assert((a + b).drop_first() =~= a.drop_first() + b);
        assert((a + b)[0] == a[0]);
        lemma_pre_order_all_concat(a.drop_first(), b);
        let p0 = pre_order(a[0]);
        let pa = pre_order_all(a.drop_first());
        let pb = pre_order_all(b);
        assert(p0 + (pa + pb) =~= (p0 + pa) + pb);
    } else {
        assert(a + b =~= b);
        assert(seq![] + pre_order_all(b) =~= pre_order_all(b));
    }
}

/// Unfolds one node of a pre-order.
proof fn lemma_pre_order_step(q: Seq<HTMLContent>)
    requires
        q.len() > 0,
    ensures
        pre_order_all(q).len() > 0,
        pre_order_all(q)[0] == q[0],
        pre_order_all(q).drop_first() == pre_order_all(children(q[0]) + q.drop_first()),
{
    let ch = children(q[0]);
    lemma_pre_order_all_concat(ch, q.drop_first());
    match q[0] {
        HTMLContent::Raw(_) => {
            assert(pre_order_all(ch) =~= seq![]);
        },
        HTMLContent::Tag(t) => {},
    }
    let a = pre_order_all(ch);
    let b = pre_order_all(q.drop_first());
    assert(pre_order(q[0]) == seq![q[0]] + a);
    assert(pre_order_all(q) == seq![q[0]] + a + b);
    assert((seq![q[0]] + a + b).drop_first() =~= a + b);
}

/// Unfolds one node of a level order.
proof fn lemma_level_order_step(q: Seq<HTMLContent>)
    requires
        q.len() > 0,
    ensures
        level_order_from(q).len() > 0,
        level_order_from(q)[0] == q[0],
        level_order_from(q).drop_first() == level_order_from(q.drop_first() + children(q[0])),
{
    let l = level_order_from(q.drop_first() + children(q[0]));
    assert(level_order_from(q) == seq![q[0]] + l);
    assert((seq![q[0]] + l).drop_first() =~= l);
}

/// An iterator over a tree in pre-order, by a stack of nodes.
pub struct PtPreOrderIter<'a> {
    stack: Vec<&'a HTMLContent>,
}

impl<'a> View for PtPreOrderIter<'a> {
    type V = Seq<HTMLContent>;

    /// The nodes that the iterator has yet to give, in order.
    closed spec fn view(&self) -> Seq<HTMLContent> {
        pre_order_all(deref_all(self.stack@).reverse())
    }
}

/// An iterator over a tree in level order, by a queue of nodes.
pub struct PtLevelOrderIter<'a> {
    queue: VecDeque<&'a HTMLContent>,
}

impl<'a> View for PtLevelOrderIter<'a> {
    type V = Seq<HTMLContent>;

    /// The nodes that the iterator has yet to give, in order.
    closed spec fn view(&self) -> Seq<HTMLContent> {
        level_order_from(deref_all(self.queue@))
    }
}

proof fn lemma_reverse_push(s: Seq<HTMLContent>, x: HTMLContent)
    ensures
        s.push(x).reverse() == seq![x] + s.reverse(),
{
    assert(s.push(x).reverse() =~= seq![x] + s.reverse());
}

proof fn lemma_deref_push<'a>(s: Seq<&'a HTMLContent>, x: &'a HTMLContent)
    ensures
        deref_all(s.push(x)) == deref_all(s).push(*x),
{
    assert(deref_all(s.push(x)) =~= deref_all(s).push(*x));
}

impl<'a> PtPreOrderIter<'a> {
    /// An iterator over the tree under `content` in pre-order.
    pub fn new(content: &'a HTMLContent) -> (r: Self)
        ensures
            r@ == pre_order(*content),
    {
        let r = PtPreOrderIter { stack: vec![content] };
        proof {
            let c = *content;
            assert(deref_all(r.stack@) =~= seq![c]);
            assert(seq![c].reverse() =~= seq![c]);
            assert(seq![c].drop_first() =~= seq![]);
            assert(pre_order_all(seq![c]) == pre_order(c) + pre_order_all(seq![]));
            assert(pre_order(c) + seq![] =~= pre_order(c));
        }
        r
    }

    /// The next node, if any is left.
    pub fn next(&mut self) -> (r: Option<&'a HTMLContent>)
        ensures
            old(self)@.len() == 0 ==> r is None && final(self)@ == old(self)@,
            old(self)@.len() > 0 ==> (r matches Some(x) && *x == old(self)@[0] && final(self)@
                == old(self)@.drop_first()),
    {
        let ghost q = deref_all(self.stack@).reverse();
        if let Some(node) = self.stack.pop() {
            let ghost rest = deref_all(self.stack@).reverse();
            proof {
                lemma_deref_push(self.stack@, node);
                assert(old(self).stack@ =~= self.stack@.push(node));
                lemma_reverse_push(deref_all(self.stack@), *node);
                lemma_pre_order_step(q);
                assert(q.drop_first() =~= rest);
            }
            if let HTMLContent::Tag(tag_box) = node {
                let content = &tag_box.content;
                assert(children(*node) == content@);
                let mut i = content.len();
                while i > 0
                    invariant
                        i <= content@.len(),
                        deref_all(self.stack@).reverse() == content@.subrange(
                            i as int,
                            content@.len() as int,
                        ) + rest,
                    decreases i,
                {
                    i = i - 1;
                    let ghost before = self.stack@;
                    self.stack.push(&content[i]);
                    proof {
                        lemma_deref_push(before, &content[i as int]);
                        lemma_reverse_push(deref_all(before), content@[i as int]);
                        assert(content@.subrange(i as int, content@.len() as int) =~= seq![
                            content@[i as int],
                        ] + content@.subrange(i + 1, content@.len() as int));
                    }
                }
                assert(content@.subrange(0, content@.len() as int) =~= content@);
            } else {
                assert(children(*node) =~= seq![]);
                assert(deref_all(self.stack@).reverse() =~= seq![] + rest);
            }
            Some(node)
        } else {
            assert(q =~= seq![]);
            None
        }
    }

    /// The nodes still to come that are tags of type `html_tag_type`, in
    /// pre-order.
    pub fn find_tags(self, html_tag_type: String) -> (r: Vec<&'a HTMLContent>)
        ensures
            deref_all(r@) == tags_of_type(self@, html_tag_type@),
    {
        let ghost all = self@;
        let mut it = self;
        let mut r: Vec<&'a HTMLContent> = Vec::new();
        loop
            invariant
                deref_all(r@) + tags_of_type(it@, html_tag_type@) == tags_of_type(all, html_tag_type@),
            ensures
                deref_all(r@) == tags_of_type(all, html_tag_type@),
            decreases it@.len(),
        {
            let ghost before = it@;
            match it.next() {
                None => {
                    assert(deref_all(r@) + seq![] =~= deref_all(r@));
                    break;
                },
                Some(node) => {
                    let ghost old_r = r@;
                    let keep = match node {
                        HTMLContent::Tag(box_tag) => box_tag.tag_type == html_tag_type,
                        HTMLContent::Raw(_) => false,
                    };
                    if keep {
                        r.push(node);
                        proof {
                            lemma_deref_push(old_r, node);
                            let t = tags_of_type(it@, html_tag_type@);
                            assert(deref_all(old_r) + (seq![*node] + t) =~= deref_all(old_r).push(*node) + t);
                        }
                    }
                },
            }
        }
        r
    }

    /// The tags still to come whose type is `html_tag_type`, in pre-order.
    pub fn find_tags2(self, html_tag_type: String) -> (r: Vec<&'a Tag>)
        ensures
            r@.map_values(|t: &'a Tag| *t) == tag_values(self@, html_tag_type@),
    {
        let ghost all = self@;
        let mut it = self;
        let mut r: Vec<&'a Tag> = Vec::new();
        loop
            invariant
                r@.map_values(|t: &'a Tag| *t) + tag_values(it@, html_tag_type@) == tag_values(all, html_tag_type@),
            ensures
                r@.map_values(|t: &'a Tag| *t) == tag_values(all, html_tag_type@),
            decreases it@.len(),
        {
            match it.next() {
                None => {
                    assert(r@.map_values(|t: &'a Tag| *t) + seq![] =~= r@.map_values(|t: &'a Tag| *t));
                    break;
                },
                Some(node) => {
                    if let HTMLContent::Tag(box_tag) = node {
                        if box_tag.tag_type == html_tag_type {
                            let ghost old_r = r@;
                            let t: &'a Tag = &**box_tag;
                            r.push(t);
                            proof {
                                let rest = tag_values(it@, html_tag_type@);
                                assert(r@.map_values(|t: &'a Tag| *t) =~= old_r.map_values(|t: &'a Tag| *t).push(*t));
                                assert(old_r.map_values(|t: &'a Tag| *t) + (seq![*t] + rest) =~= old_r.map_values(|t: &'a Tag| *t).push(*t) + rest);
                            }
                        }
                    }
                },
            }
        }
        r
    }
}

/// The nodes of `s` that are tags of type `name`, in order.
pub open spec fn tags_of_type(s: Seq<HTMLContent>, name: Seq<char>) -> Seq<HTMLContent>
    decreases s.len(),
{
    if s.len() == 0 {
        seq![]
    } else if s[0] matches HTMLContent::Tag(t) && t.tag_name()@ == name {
        seq![s[0]] + tags_of_type(s.drop_first(), name)
    } else {
        tags_of_type(s.drop_first(), name)
    }
}

/// The tags among the nodes of `s` whose type is `name`, in order.
pub open spec fn tag_values(s: Seq<HTMLContent>, name: Seq<char>) -> Seq<Tag>
    decreases s.len(),
{
    if s.len() == 0 {
        seq![]
    } else {
        match s[0] {
            HTMLContent::Tag(t) => if t.tag_name()@ == name {
                seq![*t] + tag_values(s.drop_first(), name)
            } else {
                tag_values(s.drop_first(), name)
            },
            HTMLContent::Raw(_) => tag_values(s.drop_first(), name),
        }
    }
}

/// The children of the nodes of `q`, one node's after another's.
pub open spec fn children_all(q: Seq<HTMLContent>) -> Seq<HTMLContent>
    decreases q.len(),
{
    if q.len() == 0 {
        seq![]
    } else {
        children(q[0]) + children_all(q.drop_first())
    }
}

pub proof fn lemma_children_all_smaller(q: Seq<HTMLContent>)
    ensures
        size_all(q) == q.len() + size_all(children_all(q)),
    decreases q.len(),
{
    if q.len() > 0 {
        lemma_children_all_smaller(q.drop_first());
        lemma_size_all_concat(children(q[0]), children_all(q.drop_first()));
        assert(size_all(q) == size(q[0]) + size_all(q.drop_first()));
        assert(children_all(q) == children(q[0]) + children_all(q.drop_first()));
        match q[0] {
            HTMLContent::Raw(_) => {
                assert(size_all(children(q[0])) == 0);
            },
            HTMLContent::Tag(t) => {
                assert(size(q[0]) == 1 + size_all(t.spec_content()@));
            },
        }
    } else {
        assert(size_all(children_all(q)) == 0);
    }
}

/// The nodes level by level: the nodes of `q`, then all their children,
/// then all the children of those, and so on, each level in order.
pub open spec fn depth_order_from(q: Seq<HTMLContent>) -> Seq<HTMLContent>
    decreases size_all(q),
{
    if q.len() == 0 {
        seq![]
    } else {
        proof {
            lemma_children_all_smaller(q);
        }
        q + depth_order_from(children_all(q))
    }
}

proof fn lemma_level_order_queue(q: Seq<HTMLContent>, r: Seq<HTMLContent>)
    ensures
        level_order_from(q + r) == q + level_order_from(r + children_all(q)),
    decreases q.len(),
{
    if q.len() == 0 {
        assert(q + r =~= r);
        assert(r + children_all(q) =~= r);
        assert(q + level_order_from(r) =~= level_order_from(r));
    } else {
        let qr = q + r;
        let q1 = q.drop_first();
        let r1 = r + children(q[0]);
        assert(qr[0] == q[0]);
        assert(qr.drop_first() + children(q[0]) =~= q1 + r1);
        lemma_level_order_step(qr);
        assert(level_order_from(qr) =~= seq![q[0]] + level_order_from(q1 + r1));
        lemma_level_order_queue(q1, r1);
        assert(r1 + children_all(q1) =~= r + children_all(q));
        assert(seq![q[0]] + (q1 + level_order_from(r + children_all(q))) =~= q + level_order_from(
            r + children_all(q),
        ));
    }
}

proof fn lemma_level_order_by_depth(q: Seq<HTMLContent>)
    ensures
        level_order_from(q) == depth_order_from(q),
    decreases size_all(q),
{
    if q.len() > 0 {
        lemma_children_all_smaller(q);
        lemma_level_order_queue(q, seq![]);
        assert(q + seq![] =~= q);
        assert(seq![] + children_all(q) =~= children_all(q));
        lemma_level_order_by_depth(children_all(q));
    } else {
        assert(level_order_from(q) =~= depth_order_from(q));
    }
}

/// The level order is ordered by depth: the root, then all nodes one level
/// below it, then all nodes two levels below, and so on, each level in
/// document order.
pub proof fn law_level_order_by_depth(n: HTMLContent)
    ensures
        level_order(n) == depth_order_from(seq![n]),
{
    lemma_level_order_by_depth(seq![n]);
}

/// `find_tags` and `find_tags2` agree: the tags that `find_tags2` gives are
/// those inside the nodes that `find_tags` gives, one for one and in order.
pub proof fn law_find_tags_agree(s: Seq<HTMLContent>, name: Seq<char>)
    ensures
        tags_of_type(s, name).len() == tag_values(s, name).len(),
        forall|i: int|
            0 <= i < tags_of_type(s, name).len() ==> #[trigger] tags_of_type(s, name)[i]
                == HTMLContent::Tag(Box::new(tag_values(s, name)[i])),
    decreases s.len(),
{
    if s.len() > 0 {
        law_find_tags_agree(s.drop_first(), name);
        let a = tags_of_type(s.drop_first(), name);
        let b = tag_values(s.drop_first(), name);
        match s[0] {
            HTMLContent::Tag(t) => {
                if t.tag_name()@ == name {
                    assert forall|i: int| 0 <= i < tags_of_type(s, name).len() implies #[trigger] tags_of_type(s, name)[i]
                        == HTMLContent::Tag(Box::new(tag_values(s, name)[i])) by {
                        if i > 0 {
                            assert(tags_of_type(s, name)[i] == a[i - 1]);
                            assert(tag_values(s, name)[i] == b[i - 1]);
                        }
                    }
                }
            },
            HTMLContent::Raw(_) => {},
        }
    }
}

impl<'a> PtLevelOrderIter<'a> {
    /// An iterator over the tree under `content` in level order.
    pub fn new(content: &'a HTMLContent) -> (r: Self)
        ensures
            r@ == level_order(*content),
    {
        let mut temp_queue = VecDeque::new();
        temp_queue.push_back(content);
        let r = PtLevelOrderIter { queue: temp_queue };
        assert(deref_all(r.queue@) =~= seq![*content]);
        r
    }

    /// The next node, if any is left.
    pub fn next(&mut self) -> (r: Option<&'a HTMLContent>)
        ensures
            old(self)@.len() == 0 ==> r is None && final(self)@ == old(self)@,
            old(self)@.len() > 0 ==> (r matches Some(x) && *x == old(self)@[0] && final(self)@
                == old(self)@.drop_first()),
    {
        let ghost q = deref_all(self.queue@);
        if let Some(node) = self.queue.pop_front() {
            let ghost rest = deref_all(self.queue@);
            assert(rest =~= q.drop_first());
            assert(q[0] == *node);
            proof {
                lemma_level_order_step(q);
            }
            if let HTMLContent::Tag(tag_box) = node {
                let content = &tag_box.content;
                assert(children(*node) == content@);
                let mut i: usize = 0;
                while i < content.len()
                    invariant
                        i <= content@.len(),
                        deref_all(self.queue@) == rest + content@.subrange(0, i as int),
                    decreases content@.len() - i,
                {
                    let ghost before = self.queue@;
                    self.queue.push_back(&content[i]);
                    assert(deref_all(self.queue@) =~= deref_all(before).push(content@[i as int]));
                    assert(content@.subrange(0, i + 1) =~= content@.subrange(0, i as int).push(
                        content@[i as int],
                    ));
                    i = i + 1;
                }
                assert(content@.subrange(0, content@.len() as int) =~= content@);
            } else {
                assert(children(*node) =~= seq![]);
                assert(deref_all(self.queue@) =~= rest + seq![]);
            }
            Some(node)
        } else {
            None
        }
    }
}

proof fn lemma_level_order_from_multiset(q: Seq<HTMLContent>)
    ensures
        level_order_from(q).to_multiset() == pre_order_all(q).to_multiset(),
    decreases size_all(q),
{
    broadcast use vstd::seq_lib::lemma_multiset_commutative;
    broadcast use vstd::seq_lib::group_to_multiset_ensures;

    if q.len() == 0 {
        assert(level_order_from(q) =~= pre_order_all(q));
    } else {
        let rest = q.drop_first();
        let ch = children(q[0]);
        let q2 = rest + ch;
        lemma_level_step_smaller(q);
        lemma_level_order_from_multiset(q2);
        lemma_pre_order_step(q);
        lemma_level_order_step(q);
        lemma_pre_order_all_concat(ch, rest);
        lemma_pre_order_all_concat(rest, ch);
        let pa = pre_order_all(q);
        let la = level_order_from(q);
        assert(pa =~= seq![q[0]] + pa.drop_first());
        assert(la =~= seq![q[0]] + la.drop_first());
        assert(pre_order_all(ch).to_multiset().add(pre_order_all(rest).to_multiset())
            =~= pre_order_all(rest).to_multiset().add(pre_order_all(ch).to_multiset()));
    }
}

/// The pre-order and the level order of a tree hold the same nodes, each as
/// many times: the two iterators visit the same nodes.
pub proof fn law_traversals_visit_same_nodes(n: HTMLContent)
    ensures
        pre_order(n).to_multiset() == level_order(n).to_multiset(),
        pre_order(n).len() == level_order(n).len(),
{
    broadcast use vstd::seq_lib::group_to_multiset_ensures;

    lemma_level_order_from_multiset(seq![n]);
    let e = Seq::<HTMLContent>::empty();
    assert(seq![n].drop_first() =~= e);
    assert(pre_order_all(seq![n]) == pre_order(n) + pre_order_all(e));
    assert(pre_order(n) + e =~= pre_order(n));
    assert(pre_order(n).to_multiset().len() == pre_order(n).len());
    assert(level_order(n).to_multiset().len() == level_order(n).len());
}

/// An element with no attributes that holds one piece of text.
pub open spec fn text_element(tag: Seq<char>, text: Seq<char>) -> SoupNode {
    SoupNode::Element(tag, Map::empty(), seq![SoupNode::Text(text)])
}

/// The tree of `testing_tree`.
pub open spec fn testing_tree_model() -> SoupNode {
    SoupNode::Element(
        "body"@,
        Map::empty(),
        seq![
            SoupNode::Element("div"@, Map::empty(), seq![text_element("h1"@, "foo"@), text_element("a"@, "link"@)]),
            SoupNode::Element(
                "div"@,
                Map::empty(),
                seq![
                    SoupNode::Element(
                        "p"@,
                        Map::empty(),
                        seq![SoupNode::Text("baz"@), text_element("a"@, "bar"@), SoupNode::Text("qux"@)],
                    ),
                ],
            ),
        ],
    )
}

proof fn lemma_nodes_model_of(s: Seq<HTMLContent>, m: Seq<SoupNode>)
    requires
        s.len() == m.len(),
        forall|i: int| 0 <= i < s.len() ==> node_model(#[trigger] s[i]) == m[i],
    ensures
        nodes_model(s) == m,
    decreases s.len(),
{
    if s.len() > 0 {
        lemma_nodes_model_of(s.drop_last(), m.drop_last());
        assert(m =~= m.drop_last().push(m.last()));
    } else {
        assert(m =~= seq![]);
    }
}

/// A tag with no attributes whose content is `content`.
fn element_of(tag: &str, content: Vec<HTMLContent>) -> (r: HTMLContent)
    ensures
        r@ == SoupNode::Element(tag@, Map::empty(), nodes_model(content@)),
{
    HTMLContent::Tag(Box::new(Tag { tag_type: tag.to_owned(), attributes: HashMap::new(), content }))
}

/// Raw text holding `text`.
fn raw_of(text: &str) -> (r: HTMLContent)
    ensures
        r@ == SoupNode::Text(text@),
{
    HTMLContent::Raw(text.to_owned())
}

impl ParseTree {
    /// A small fixed tree: a body of two divs.
    pub fn testing_tree() -> (r: Self)
        ensures
            r.root()@ == testing_tree_model(),
    {
        let c1 = vec![raw_of("foo")];
        proof {
            lemma_nodes_model_of(c1@, seq![SoupNode::Text("foo"@)]);
        }
        let h1 = element_of("h1", c1);
        let c2 = vec![raw_of("link")];
        proof {
            lemma_nodes_model_of(c2@, seq![SoupNode::Text("link"@)]);
        }
        let a1 = element_of("a", c2);
        let ghost (m1, m2) = (h1@, a1@);
        let c3 = vec![h1, a1];
        proof {
            lemma_nodes_model_of(c3@, seq![m1, m2]);
        }
        let div1 = element_of("div", c3);
        let c4 = vec![raw_of("bar")];
        proof {
            lemma_nodes_model_of(c4@, seq![SoupNode::Text("bar"@)]);
        }
        let a2 = element_of("a", c4);
        let t1 = raw_of("baz");
        let t2 = raw_of("qux");
        let ghost (m3, m4, m5) = (t1@, a2@, t2@);
        let c5 = vec![t1, a2, t2];
        proof {
            lemma_nodes_model_of(c5@, seq![m3, m4, m5]);
        }
        let p = element_of("p", c5);
        let ghost m6 = p@;
        let c6 = vec![p];
        proof {
            lemma_nodes_model_of(c6@, seq![m6]);
        }
        let div2 = element_of("div", c6);
        let ghost (m7, m8) = (div1@, div2@);
        let c7 = vec![div1, div2];
        proof {
            lemma_nodes_model_of(c7@, seq![m7, m8]);
        }
        let body = element_of("body", c7);
        ParseTree { root: body }
    }
}


/// `find_tags` keeps exactly the tags whose type is `name`, in order: the
/// sequence filtered by that test.
pub proof fn law_tags_of_type_is_filter(s: Seq<HTMLContent>, name: Seq<char>)
    ensures
        tags_of_type(s, name) == s.filter(
            |n: HTMLContent| n matches HTMLContent::Tag(t) && t.tag_name()@ == name,
        ),
    decreases s.len(),
{
    let f = |n: HTMLContent| n matches HTMLContent::Tag(t) && t.tag_name()@ == name;
    if s.len() > 0 {
        law_tags_of_type_is_filter(s.drop_first(), name);
        lemma_filter_front(s, f);
    } else {
        reveal_with_fuel(Seq::filter, 1);
        assert(s.filter(f) =~= s);
    }
}


proof fn lemma_pre_order_len(n: HTMLContent)
    ensures
        pre_order(n).len() == size(n),
    decreases n,
{
    if let HTMLContent::Tag(t) = n {
        lemma_content_smaller(n);
        lemma_pre_order_all_len(t.spec_content()@);
    }
}

proof fn lemma_pre_order_all_len(s: Seq<HTMLContent>)
    ensures
        pre_order_all(s).len() == size_all(s),
    decreases s,
{
    if s.len() > 0 {
        lemma_pre_order_len(s[0]);
        lemma_pre_order_all_len(s.drop_first());
    }
}

proof fn lemma_pre_order_all_slice(c: Seq<HTMLContent>, k: int)
    requires
        0 <= k < c.len(),
    ensures
        size_all(c.take(k)) + size(c[k]) <= pre_order_all(c).len(),
        pre_order_all(c).subrange(size_all(c.take(k)) as int, (size_all(c.take(k)) + size(c[k])) as int)
            == pre_order(c[k]),
    decreases k,
{
    let first = pre_order(c[0]);
    let rest = c.drop_first();
    lemma_pre_order_len(c[0]);
    lemma_pre_order_all_len(c);
    lemma_pre_order_all_len(rest);
    assert(pre_order_all(c) == first + pre_order_all(rest));
    if k == 0 {
        assert(c.take(0) =~= Seq::<HTMLContent>::empty());
        assert((first + pre_order_all(rest)).subrange(0, size(c[0]) as int) =~= first);
    } else {
        lemma_pre_order_all_slice(rest, k - 1);
        assert(c.take(k).drop_first() =~= rest.take(k - 1));
        assert(c.take(k)[0] == c[0]);
        assert(size_all(c.take(k)) == size(c[0]) + size_all(rest.take(k - 1)));
        assert(rest[k - 1] == c[k]);
        let a = size_all(rest.take(k - 1)) as int;
        let l = first.len() as int;
        let z = size(c[k]) as int;
        assert((first + pre_order_all(rest)).subrange(l + a, l + a + z) =~= pre_order_all(rest).subrange(
            a,
            a + z,
        ));
    }
}

/// In pre-order every child of a tag stands, with its whole subtree, right
/// after the tag and the subtrees of the children before it: the subtree of
/// the `k`-th child fills the places from 1 plus the sizes of the children
/// before it, and the child itself comes first there.
pub proof fn law_pre_order_places_children(n: HTMLContent, k: int)
    requires
        0 <= k < children(n).len(),
    ensures
        pre_order(n).subrange(
            1 + size_all(children(n).take(k)) as int,
            1 + size_all(children(n).take(k)) + size(children(n)[k]) as int,
        ) == pre_order(children(n)[k]),
        pre_order(n)[1 + size_all(children(n).take(k)) as int] == children(n)[k],
{
    let c = children(n);
    lemma_pre_order_all_slice(c, k);
    let a = size_all(c.take(k)) as int;
    let z = size(c[k]) as int;
    let rest = pre_order_all(c);
    assert(pre_order(n) == seq![n] + rest);
    assert((seq![n] + rest).subrange(1 + a, 1 + a + z) =~= rest.subrange(a, a + z));
    lemma_pre_order_len(c[k]);
    assert(pre_order(c[k])[0] == c[k]);
    assert(pre_order(n)[1 + a] == pre_order(c[k])[0]);
}

} // verus!
