use vstd::prelude::*;
use std::collections::VecDeque;
use crate::grammar::document;
use crate::attributes::Attributes;
use crate::parse::{get_and_parse_html, parses};
use crate::traversal::{
    children, unpruned, pre_order, pre_order_all, level_order, level_order_from, deref_all,
    select, law_select_is_filter, keep_all, lemma_unpruned_nothing, lemma_pre_order_step, lemma_unpruned_concat, lemma_unpruned_single,
};

verus! {

/// The mathematical model of a node of a document tree: a text, or an
/// element with its name, its attributes (name and value, in order) and its
/// children.
pub enum Node {
    Text(Seq<char>),
    Element(Seq<char>, Seq<(Seq<char>, Seq<char>)>, Seq<Node>),
}

/// A document tree.
#[derive(Debug, PartialEq)]
pub struct ParseTree {
    pub root: HTMLContent,
}

/// A tag: its type, its attributes, and its content.
#[derive(Debug, PartialEq)]
pub struct Tag {
    pub tag_type: String,
    pub attributes: Attributes,
    pub content: Vec<HTMLContent>,
}

/// A node of a document tree: raw text or a tag.
#[derive(Debug, PartialEq)]
pub enum HTMLContent {
    Raw(String),
    Tag(Box<Tag>),
}

/// The model of the node `c`.
pub open spec fn node_model(c: HTMLContent) -> Node
    decreases c,
{
    match c {
        HTMLContent::Raw(s) => Node::Text(s@),
        HTMLContent::Tag(t) => tag_model(*t),
    }
}

/// The model of the tag `t`.
pub open spec fn tag_model(t: Tag) -> Node
    decreases t,
{
    Node::Element(t.tag_type@, t.attributes.pairs(), nodes_model(t.content@))
}

/// The models of the nodes `s`, in order.
pub open spec fn nodes_model(s: Seq<HTMLContent>) -> Seq<Node>
    decreases s,
{
    if s.len() == 0 {
        Seq::empty()
    } else {
        nodes_model(s.drop_last()).push(node_model(s.last()))
    }
}

/// The tests that search patterns make on a node.
#[derive(Clone, Copy, Debug, PartialEq, Eq)]
pub enum NodeTest {
    /// Holds of raw text.
    IsRaw,
    /// Holds of no node.
    Nothing,
}

/// A test on nodes, such as the pruning closure of a search: its answer on a
/// node is `holds` of that node.
pub trait NodeFilter {
    /// Whether the test holds of `n`.
    spec fn holds(&self, n: HTMLContent) -> bool;

    /// Whether the test holds of `node`.
    fn test(&self, node: &HTMLContent) -> (r: bool)
        ensures
            r == self.holds(*node),
    ;
}

impl NodeFilter for NodeTest {
    open spec fn holds(&self, n: HTMLContent) -> bool {
        match self {
            NodeTest::IsRaw => n is Raw,
            NodeTest::Nothing => false,
        }
    }

    fn test(&self, node: &HTMLContent) -> (r: bool) {
        match self {
            NodeTest::IsRaw => match node {
                HTMLContent::Raw(_) => true,
                HTMLContent::Tag(_) => false,
            },
            NodeTest::Nothing => false,
        }
    }
}

/// The test `f` as a predicate on nodes.
pub open spec fn pred<F: NodeFilter>(f: F) -> spec_fn(HTMLContent) -> bool {
    |n: HTMLContent| f.holds(n)
}

pub proof fn lemma_nodes_model(s: Seq<HTMLContent>)
    ensures
        nodes_model(s).len() == s.len(),
        forall|i: int| 0 <= i < s.len() ==> #[trigger] nodes_model(s)[i] == node_model(s[i]),
    decreases s.len(),
{
    if s.len() > 0 {
        lemma_nodes_model(s.drop_last());
        assert(forall|i: int| 0 <= i < s.len() - 1 ==> s.drop_last()[i] == s[i]);
    }
}

/// The nodes that a traversal of the tree under `n` gives: its pre-order if
/// `is_pre_order`, else its level order, without the subtrees whose root
/// `prune` holds of.
pub open spec fn traversal(n: HTMLContent, is_pre_order: bool, prune: spec_fn(HTMLContent) -> bool) -> Seq<HTMLContent> {
    if is_pre_order {
        pre_order(n, prune)
    } else {
        level_order(n, prune)
    }
}

impl View for Tag {
    type V = Node;

    open spec fn view(&self) -> Node {
        tag_model(*self)
    }
}

impl View for HTMLContent {
    type V = Node;

    open spec fn view(&self) -> Node {
        node_model(*self)
    }
}

/// An iterator over the nodes of a tree, in pre-order or in level order.
pub struct TreeIter<'a> {
    is_pre_order: bool,
    state: VecDeque<&'a HTMLContent>,
}

impl<'a> View for TreeIter<'a> {
    type V = Seq<HTMLContent>;

    /// The nodes that the iterator has yet to give, in order.
    closed spec fn view(&self) -> Seq<HTMLContent> {
        if self.is_pre_order {
            pre_order_all(deref_all(self.state@), keep_all())
        } else {
            level_order_from(deref_all(self.state@), keep_all())
        }
    }
}

impl<'a> TreeIter<'a> {
    /// An iterator over the tree under `content`: in pre-order if
    /// `is_pre_order`, else in level order.
    pub fn new(is_pre_order: bool, content: &'a HTMLContent) -> (r: Self)
        ensures
            r@ == if is_pre_order {
                pre_order(*content, keep_all())
            } else {
                level_order(*content, keep_all())
            },
    {
        let mut temp_queue = VecDeque::new();
        temp_queue.push_back(content);
        let r = TreeIter { is_pre_order, state: temp_queue };
        proof {
            assert(deref_all(r.state@) =~= seq![*content]);
            lemma_unpruned_nothing(seq![*content]);
            assert(pre_order_all(seq![*content], keep_all()) =~= pre_order(*content, keep_all())
                + pre_order_all(seq![*content].drop_first(), keep_all()));
            assert(seq![*content].drop_first() =~= seq![]);
            assert(pre_order(*content, keep_all()) + seq![] =~= pre_order(*content, keep_all()));
        }
        r
    }

    /// The next node, if any is left.
    pub fn next(&mut self) -> (r: Option<&'a HTMLContent>)
        ensures
            old(self)@.len() == 0 ==> r is None && final(self)@ == old(self)@,
            old(self)@.len() > 0 ==> (r matches Some(x) && *x == old(self)@[0] && final(self)@
                == old(self)@.drop_first()),
    {
        let ghost q = deref_all(self.state@);
        match self.state.pop_front() {
            Some(node) => {
                let ghost rest = deref_all(self.state@);
                assert(rest =~= q.drop_first());
                proof {
                    lemma_pre_order_step(q, keep_all());
                    lemma_unpruned_nothing(children(*node));
                }
                if let HTMLContent::Tag(tag_box) = node {
                    let content = &tag_box.content;
                    assert(children(*node) == content@);
                    if self.is_pre_order {
                        let mut i = content.len();
                        while i > 0
                            invariant
                                i <= content@.len(),
                                self.is_pre_order == old(self).is_pre_order,
                                deref_all(self.state@) == content@.subrange(i as int, content@.len() as int) + rest,
                            decreases i,
                        {
                            i = i - 1;
                            let ghost before = self.state@;
                            self.state.push_front(&content[i]);
                            assert(deref_all(self.state@) =~= seq![content@[i as int]] + deref_all(before));
                            assert(content@.subrange(i as int, content@.len() as int) =~= seq![content@[i as int]]
                                + content@.subrange(i + 1, content@.len() as int));
                        }
                        assert(content@.subrange(0, content@.len() as int) =~= content@);
                    } else {
                        let mut i: usize = 0;
                        while i < content.len()
                            invariant
                                i <= content@.len(),
                                self.is_pre_order == old(self).is_pre_order,
                                deref_all(self.state@) == rest + content@.subrange(0, i as int),
                            decreases content@.len() - i,
                        {
                            let ghost before = self.state@;
                            self.state.push_back(&content[i]);
                            assert(deref_all(self.state@) =~= deref_all(before).push(content@[i as int]));
                            assert(content@.subrange(0, i + 1) =~= content@.subrange(0, i as int).push(content@[i as int]));
                            i = i + 1;
                        }
                        assert(content@.subrange(0, content@.len() as int) =~= content@);
                    }
                } else {
                    assert(children(*node) =~= seq![]);
                    assert(deref_all(self.state@) =~= seq![] + rest);
                    assert(deref_all(self.state@) =~= rest + seq![]);
                }
                proof {
                    assert(q[0] == *node);
                    if !self.is_pre_order {
                        let l = level_order_from(rest + children(*node), keep_all());
                        assert(level_order_from(q, keep_all()) == seq![q[0]] + level_order_from(
                            q.drop_first() + unpruned(children(q[0]), keep_all()),
                            keep_all(),
                        ));
                        assert((seq![q[0]] + l).drop_first() =~= l);
                    }
                }
                Some(node)
            },
            None => None,
        }
    }
}

/// An iterator over the nodes of a tree, in pre-order or in level order,
/// that leaves out every subtree whose root its pruning test holds of. Any
/// `NodeFilter` can serve as that test.
pub struct SearchTreeIter<'a, F: NodeFilter> {
    is_pre_order: bool,
    prune_closure: F,
    state: VecDeque<&'a HTMLContent>,
}

impl<'a, F: NodeFilter> View for SearchTreeIter<'a, F> {
    type V = Seq<HTMLContent>;

    /// The nodes that the iterator has yet to give, in order.
    closed spec fn view(&self) -> Seq<HTMLContent> {
        if self.is_pre_order {
            pre_order_all(deref_all(self.state@), pred(self.prune_closure))
        } else {
            level_order_from(deref_all(self.state@), pred(self.prune_closure))
        }
    }
}

impl<'a, F: NodeFilter> SearchTreeIter<'a, F> {
    /// The iterator's own invariant: the pruning test holds of no node that
    /// it holds.
    pub closed spec fn wf(&self) -> bool {
        forall|i: int|
            0 <= i < self.state@.len() ==> !self.prune_closure.holds(
                #[trigger] deref_all(self.state@)[i],
            )
    }

    /// An iterator over the tree under `content`, in pre-order if
    /// `is_pre_order`, else in level order, without the subtrees whose root
    /// `prune_closure` holds of.
    pub fn new(is_pre_order: bool, prune_closure: F, content: &'a HTMLContent) -> (r: Self)
        ensures
            r.wf(),
            r@ == traversal(*content, is_pre_order, pred(prune_closure)),
    {
        let mut temp_queue = VecDeque::new();
        if !prune_closure.test(content) {
            temp_queue.push_back(content);
        }
        let ghost p = pred(prune_closure);
        let r = SearchTreeIter { is_pre_order, prune_closure, state: temp_queue };
        proof {
            let c = *content;
            lemma_unpruned_single(c, p);
            assert(seq![c].drop_first() =~= seq![]);
            assert(pre_order_all(seq![c], p) =~= pre_order(c, p) + pre_order_all(seq![], p));
            assert(pre_order(c, p) + seq![] =~= pre_order(c, p));
            if p(c) {
                assert(deref_all(r.state@) =~= seq![]);
            } else {
                assert(deref_all(r.state@) =~= seq![c]);
            }
        }
        r
    }

    /// The next node, if any is left.
    pub fn next(&mut self) -> (r: Option<&'a HTMLContent>)
        requires
            old(self).wf(),
        ensures
            final(self).wf(),
            old(self)@.len() == 0 ==> r is None && final(self)@ == old(self)@,
            old(self)@.len() > 0 ==> (r matches Some(x) && *x == old(self)@[0] && final(self)@
                == old(self)@.drop_first()),
    {
        let ghost q = deref_all(self.state@);
        let ghost prune = pred(self.prune_closure);
        match self.state.pop_front() {
            Some(node) => {
                let ghost rest = deref_all(self.state@);
                assert(rest =~= q.drop_first());
                assert(q[0] == *node);
                assert(!prune(q[0]));
                assert(forall|i: int| 0 <= i < rest.len() ==> rest[i] == q[i + 1]);
                proof {
                    lemma_pre_order_step(q, prune);
                }
                if let HTMLContent::Tag(tag_box) = node {
                    let content = &tag_box.content;
                    assert(children(*node) == content@);
                    if self.is_pre_order {
                        let mut i = content.len();
                        while i > 0
                            invariant
                                i <= content@.len(),
                                self.is_pre_order == old(self).is_pre_order,
                                self.prune_closure == old(self).prune_closure,
                                prune == pred(self.prune_closure),
                                deref_all(self.state@) == unpruned(
                                    content@.subrange(i as int, content@.len() as int),
                                    prune,
                                ) + rest,
                                forall|j: int|
                                    0 <= j < self.state@.len() ==> !prune(
                                        #[trigger] deref_all(self.state@)[j],
                                    ),
                            decreases i,
                        {
                            i = i - 1;
                            let ghost before = deref_all(self.state@);
                            let ghost sub = content@.subrange(i as int, content@.len() as int);
                            assert(sub.drop_first() =~= content@.subrange(i + 1, content@.len() as int));
                            assert(sub[0] == content@[i as int]);
                            if !self.prune_closure.test(&content[i]) {
                                self.state.push_front(&content[i]);
                                assert(deref_all(self.state@) =~= seq![content@[i as int]] + before);
                                assert(forall|j: int| 0 < j < self.state@.len() ==> deref_all(self.state@)[j] == before[j - 1]);
                            }
                        }
                        assert(content@.subrange(0, content@.len() as int) =~= content@);
                    } else {
                        let mut i: usize = 0;
                        while i < content.len()
                            invariant
                                i <= content@.len(),
                                self.is_pre_order == old(self).is_pre_order,
                                self.prune_closure == old(self).prune_closure,
                                prune == pred(self.prune_closure),
                                deref_all(self.state@) == rest + unpruned(content@.subrange(0, i as int), prune),
                                forall|j: int|
                                    0 <= j < self.state@.len() ==> !prune(
                                        #[trigger] deref_all(self.state@)[j],
                                    ),
                            decreases content@.len() - i,
                        {
                            let ghost before = deref_all(self.state@);
                            let c = &content[i];
                            proof {
                                assert(content@.subrange(0, i + 1) =~= content@.subrange(0, i as int) + seq![*c]);
                                lemma_unpruned_concat(content@.subrange(0, i as int), seq![*c], prune);
                                lemma_unpruned_single(*c, prune);
                            }
                            if !self.prune_closure.test(c) {
                                self.state.push_back(c);
                                assert(deref_all(self.state@) =~= before.push(*c));
                                assert(before + seq![*c] =~= before.push(*c));
                            } else {
                                assert(before + seq![] =~= before);
                            }
                            i = i + 1;
                        }
                        assert(content@.subrange(0, content@.len() as int) =~= content@);
                    }
                } else {
                    assert(children(*node) =~= seq![]);
                    assert(unpruned(children(*node), prune) =~= seq![]);
                    assert(deref_all(self.state@) =~= seq![] + rest);
                    assert(deref_all(self.state@) =~= rest + seq![]);
                }
                proof {
                    if !self.is_pre_order {
                        let l = level_order_from(rest + unpruned(children(*node), prune), prune);
                        assert(level_order_from(q, prune) == seq![q[0]] + level_order_from(
                            q.drop_first() + unpruned(children(q[0]), prune),
                            prune,
                        ));
                        assert((seq![q[0]] + l).drop_first() =~= l);
                    }
                }
                Some(node)
            },
            None => None,
        }
    }
}

/// The nodes of a tree iterator that a test holds of.
pub struct SearchIter<'a, K: NodeFilter> {
    iter: TreeIter<'a>,
    keep: K,
}

impl<'a, K: NodeFilter> View for SearchIter<'a, K> {
    type V = Seq<HTMLContent>;

    /// The nodes that the iterator has yet to give, in order.
    closed spec fn view(&self) -> Seq<HTMLContent> {
        select(self.iter@, pred(self.keep))
    }
}

impl<'a, K: NodeFilter> SearchIter<'a, K> {
    /// The nodes of `iter` that `keep` holds of.
    pub fn new(iter: TreeIter<'a>, keep: K) -> (r: Self)
        ensures
            r@ == select(iter@, pred(keep)),
    {
        SearchIter { iter, keep }
    }

    /// The next node, if any is left.
    pub fn next(&mut self) -> (r: Option<&'a HTMLContent>)
        ensures
            old(self)@.len() == 0 ==> r is None && final(self)@ == old(self)@,
            old(self)@.len() > 0 ==> (r matches Some(x) && *x == old(self)@[0] && final(self)@
                == old(self)@.drop_first()),
    {
        loop
            invariant
                self.keep == old(self).keep,
                old(self)@ == select(self.iter@, pred(self.keep)),
            decreases self.iter@.len(),
        {
            let ghost before = self.iter@;
            match self.iter.next() {
                None => {
                    return None;
                },
                Some(node) => {
                    if self.keep.test(node) {
                        let ghost tail = select(self.iter@, pred(self.keep));
                        assert((seq![*node] + tail).drop_first() =~= tail);
                        return Some(node);
                    }
                },
            }
        }
    }
}

/// The nodes of a pruning tree iterator that a test holds of.
pub struct PrunedSearchIter<'a, F: NodeFilter, K: NodeFilter> {
    iter: SearchTreeIter<'a, F>,
    keep: K,
}

impl<'a, F: NodeFilter, K: NodeFilter> View for PrunedSearchIter<'a, F, K> {
    type V = Seq<HTMLContent>;

    /// The nodes that the iterator has yet to give, in order.
    closed spec fn view(&self) -> Seq<HTMLContent> {
        select(self.iter@, pred(self.keep))
    }
}

impl<'a, F: NodeFilter, K: NodeFilter> PrunedSearchIter<'a, F, K> {
    /// The iterator's own invariant: that of the iterator it filters.
    pub closed spec fn wf(&self) -> bool {
        self.iter.wf()
    }

    /// The nodes of `iter` that `keep` holds of.
    pub fn new(iter: SearchTreeIter<'a, F>, keep: K) -> (r: Self)
        requires
            iter.wf(),
        ensures
            r.wf(),
            r@ == select(iter@, pred(keep)),
    {
        PrunedSearchIter { iter, keep }
    }

    /// The next node, if any is left.
    pub fn next(&mut self) -> (r: Option<&'a HTMLContent>)
        requires
            old(self).wf(),
        ensures
            final(self).wf(),
            old(self)@.len() == 0 ==> r is None && final(self)@ == old(self)@,
            old(self)@.len() > 0 ==> (r matches Some(x) && *x == old(self)@[0] && final(self)@
                == old(self)@.drop_first()),
    {
        loop
            invariant
                self.wf(),
                self.keep == old(self).keep,
                old(self)@ == select(self.iter@, pred(self.keep)),
            decreases self.iter@.len(),
        {
            match self.iter.next() {
                None => {
                    return None;
                },
                Some(node) => {
                    if self.keep.test(node) {
                        let ghost tail = select(self.iter@, pred(self.keep));
                        assert((seq![*node] + tail).drop_first() =~= tail);
                        return Some(node);
                    }
                },
            }
        }
    }
}

impl Tag {
    /// The tag's type, such as `div`.
    pub fn get_tag(&self) -> (r: &String)
        ensures
            *r == self.tag_type,
    {
        &self.tag_type
    }
}

impl ParseTree {
    /// An iterator over the tree in pre-order.
    pub fn pre_iter<'a>(&'a self) -> (r: TreeIter<'a>)
        ensures
            r@ == pre_order(self.root, keep_all()),
    {
        TreeIter::new(true, &self.root)
    }

    /// An iterator over the tree in level order.
    pub fn level_iter<'a>(&'a self) -> (r: TreeIter<'a>)
        ensures
            r@ == level_order(self.root, keep_all()),
    {
        TreeIter::new(false, &self.root)
    }

    /// An iterator over the tree: in pre-order if `is_pre_order`, else in
    /// level order.
    pub fn iter<'a>(&'a self, is_pre_order: bool) -> (r: TreeIter<'a>)
        ensures
            r@ == traversal(self.root, is_pre_order, keep_all()),
    {
        TreeIter::new(is_pre_order, &self.root)
    }

    /// The nodes of the tree, in the order of `iter(is_pre_order)`, that the
    /// search `search_pattern` keeps.
    pub fn search<'a>(&'a self, is_pre_order: bool, search_pattern: &str) -> (r: Result<
        SearchIter<'a, NodeTest>,
        &'static str,
    >)
        ensures
            is_raw_pattern(search_pattern@) ==> (r matches Ok(it) && it@ == select(
                traversal(self.root, is_pre_order, keep_all()),
                pred(NodeTest::IsRaw),
            )),
            !is_raw_pattern(search_pattern@) ==> (r matches Err(e) && e@ == pattern_error()),
    {
        match Searcher::generate_closure(search_pattern) {
            Err(e) => Err(e),
            Ok(c) => Ok(SearchIter::new(self.iter(is_pre_order), c)),
        }
    }

    /// As `search`, by an iterator that prunes the subtrees that the search
    /// pattern's pruning test holds of (for `raw`, none).
    pub fn search2<'a>(&'a self, is_pre_order: bool, search_pattern: &str) -> (r: Result<
        PrunedSearchIter<'a, NodeTest, NodeTest>,
        &'static str,
    >)
        ensures
            is_raw_pattern(search_pattern@) ==> (r matches Ok(it) && it.wf() && it@ == select(
                traversal(self.root, is_pre_order, keep_all()),
                pred(NodeTest::IsRaw),
            )),
            !is_raw_pattern(search_pattern@) ==> (r matches Err(e) && e@ == pattern_error()),
    {
        match Searcher::generate_closure2(search_pattern) {
            Err(e) => Err(e),
            Ok((keep, prune)) => {
                assert(pred(prune) =~= keep_all());
                Ok(
                    PrunedSearchIter::new(SearchTreeIter::new(is_pre_order, prune, &self.root), keep),
                )
            },
        }
    }
}

/// A cache of tree iterators.
pub struct IterCache<'a> {
    cache: Vec<TreeIter<'a>>,
}

/// Builds trees, and holds a cache of tree iterators.
pub struct BSRObject<'a> {
    cache: Vec<TreeIter<'a>>,
}

impl<'a> BSRObject<'a> {
    /// The number of iterators in the cache.
    pub closed spec fn cached(&self) -> nat {
        self.cache@.len()
    }

    /// A builder with an empty cache.
    pub fn new() -> (r: Self)
        ensures
            r.cached() == 0,
    {
        BSRObject { cache: Vec::new() }
    }

    /// The tree of a fetched page, as `ParseTree::new` builds it: `page` is
    /// the text that the fetch brought.
    pub fn build_tree(&self, page: &str) -> (r: ParseTree)
        requires
            parses(page@),
        ensures
            document(page@) matches Some((n, _)) && r.root@ == n,
    {
        ParseTree::new(page)
    }
}

/// An element with no attributes that holds one piece of text.
pub open spec fn text_element(tag: Seq<char>, text: Seq<char>) -> Node {
    Node::Element(tag, seq![], seq![Node::Text(text)])
}

/// The tree of `testing_tree`.
pub open spec fn testing_tree_model() -> Node {
    Node::Element(
        "body"@,
        seq![],
        seq![
            Node::Element("div"@, seq![], seq![text_element("h1"@, "foo"@), text_element("a"@, "link"@)]),
            Node::Element(
                "div"@,
                seq![],
                seq![
                    Node::Element(
                        "p"@,
                        seq![],
                        seq![Node::Text("baz"@), text_element("a"@, "bar"@), Node::Text("qux"@)],
                    ),
                ],
            ),
        ],
    )
}

/// An element with no attributes whose content is `content`.
fn element_of(tag: &str, content: Vec<HTMLContent>) -> (r: HTMLContent)
    ensures
        r@ == Node::Element(tag@, seq![], nodes_model(content@)),
{
    let attributes = Attributes::new();
    HTMLContent::Tag(Box::new(Tag { tag_type: tag.to_owned(), attributes, content }))
}

/// Raw text holding `text`.
fn raw_of(text: &str) -> (r: HTMLContent)
    ensures
        r@ == Node::Text(text@),
{
    HTMLContent::Raw(text.to_owned())
}

proof fn lemma_nodes_model_of(s: Seq<HTMLContent>, m: Seq<Node>)
    requires
        s.len() == m.len(),
        forall|i: int| 0 <= i < s.len() ==> node_model(#[trigger] s[i]) == m[i],
    ensures
        nodes_model(s) == m,
{
    lemma_nodes_model(s);
    assert(nodes_model(s) =~= m);
}

impl ParseTree {
    /// The tree of a fetched page, `get_and_parse_html(page).unwrap()`:
    /// `page` is the text that the fetch brought.
    pub fn new(page: &str) -> (r: Self)
        requires
            parses(page@),
        ensures
            document(page@) matches Some((n, _)) && r.root@ == n,
    {
        match get_and_parse_html(page) {
            Ok(t) => t,
            Err(_) => vstd::pervasive::unreached(),
        }
    }

    /// A small fixed tree: a body of two divs.
    pub fn testing_tree() -> (r: Self)
        ensures
            r.root@ == testing_tree_model(),
    {
        let c1 = vec![raw_of("foo")];
        proof {
            lemma_nodes_model_of(c1@, seq![Node::Text("foo"@)]);
        }
        let h1 = element_of("h1", c1);
        let c2 = vec![raw_of("link")];
        proof {
            lemma_nodes_model_of(c2@, seq![Node::Text("link"@)]);
        }
        let a1 = element_of("a", c2);
        let ghost (m1, m2) = (h1@, a1@);
        let c3 = vec![h1, a1];
        proof {
            lemma_nodes_model_of(c3@, seq![m1, m2]);
        }
        let div1 = element_of("div", c3);
        let c4 = vec![raw_of("bar")];
        proof {
            lemma_nodes_model_of(c4@, seq![Node::Text("bar"@)]);
        }
        let a2 = element_of("a", c4);
        let t1 = raw_of("baz");
        let t2 = raw_of("qux");
        let ghost (m3, m4, m5) = (t1@, a2@, t2@);
        let c5 = vec![t1, a2, t2];
        proof {
            lemma_nodes_model_of(c5@, seq![m3, m4, m5]);
        }
        let p = element_of("p", c5);
        let ghost m6 = p@;
        let c6 = vec![p];
        proof {
            lemma_nodes_model_of(c6@, seq![m6]);
        }
        let div2 = element_of("div", c6);
        let ghost (m7, m8) = (div1@, div2@);
        let c7 = vec![div1, div2];
        proof {
            lemma_nodes_model_of(c7@, seq![m7, m8]);
        }
        let body = element_of("body", c7);
        ParseTree { root: body }
    }
}

impl HTMLContent {
    /// An iterator over the tree under this node in pre-order.
    pub fn pre_iter<'a>(&'a self) -> (r: TreeIter<'a>)
        ensures
            r@ == pre_order(*self, keep_all()),
    {
        TreeIter::new(true, self)
    }

    /// An iterator over the tree under this node in level order.
    pub fn level_iter<'a>(&'a self) -> (r: TreeIter<'a>)
        ensures
            r@ == level_order(*self, keep_all()),
    {
        TreeIter::new(false, self)
    }

    /// An iterator over the tree under this node: in pre-order if
    /// `is_pre_order`, else in level order.
    pub fn iter<'a>(&'a self, is_pre_order: bool) -> (r: TreeIter<'a>)
        ensures
            r@ == traversal(*self, is_pre_order, keep_all()),
    {
        TreeIter::new(is_pre_order, self)
    }

    /// The nodes of the tree under this node, in the order of
    /// `iter(is_pre_order)`, that the search `search_pattern` keeps.
    pub fn search<'a>(&'a self, is_pre_order: bool, search_pattern: &str) -> (r: Result<
        SearchIter<'a, NodeTest>,
        &'static str,
    >)
        ensures
            is_raw_pattern(search_pattern@) ==> (r matches Ok(it) && it@ == select(
                traversal(*self, is_pre_order, keep_all()),
                pred(NodeTest::IsRaw),
            )),
            !is_raw_pattern(search_pattern@) ==> (r matches Err(e) && e@ == pattern_error()),
    {
        match Searcher::generate_closure(search_pattern) {
            Err(e) => Err(e),
            Ok(c) => Ok(SearchIter::new(self.iter(is_pre_order), c)),
        }
    }
}

/// Turns search patterns into tests on nodes.
pub struct Searcher {}

/// The message of a search pattern that cannot be read.
pub open spec fn pattern_error() -> Seq<char> {
    "could not parse search pattern"@
}

/// Whether `pattern` is the one pattern that searches understand: `raw`,
/// which keeps the raw text of a tree.
pub open spec fn is_raw_pattern(pattern: Seq<char>) -> bool {
    pattern == seq!['r', 'a', 'w']
}

impl Searcher {
    fn pattern_is_raw(pattern: &str) -> (r: bool)
        ensures
            r == is_raw_pattern(pattern@),
    {
        if pattern.unicode_len() != 3 {
            return false;
        }
        let r = pattern.get_char(0) == 'r' && pattern.get_char(1) == 'a' && pattern.get_char(2)
            == 'w';
        assert(r ==> pattern@ =~= seq!['r', 'a', 'w']);
        r
    }

    /// The test that a search with `pattern` keeps nodes by.
    pub fn generate_closure(pattern: &str) -> (r: Result<NodeTest, &'static str>)
        ensures
            is_raw_pattern(pattern@) ==> r == Ok::<NodeTest, &'static str>(NodeTest::IsRaw),
            !is_raw_pattern(pattern@) ==> (r matches Err(e) && e@ == pattern_error()),
    {
        if Self::pattern_is_raw(pattern) {
            Ok(NodeTest::IsRaw)
        } else {
            Err("could not parse search pattern")
        }
    }

    /// The tests that a pruned search with `pattern` keeps nodes by and
    /// prunes subtrees by.
    pub fn generate_closure2(pattern: &str) -> (r: Result<(NodeTest, NodeTest), &'static str>)
        ensures
            is_raw_pattern(pattern@) ==> r == Ok::<(NodeTest, NodeTest), &'static str>(
                (NodeTest::IsRaw, NodeTest::Nothing),
            ),
            !is_raw_pattern(pattern@) ==> (r matches Err(e) && e@ == pattern_error()),
    {
        if Self::pattern_is_raw(pattern) {
            Ok((NodeTest::IsRaw, NodeTest::Nothing))
        } else {
            Err("could not parse search pattern")
        }
    }
}


/// A search with the pattern `raw` gives exactly the raw text of the
/// traversal, in its order, and no tag.
pub proof fn law_raw_search_keeps_raw_text(n: HTMLContent, is_pre_order: bool)
    ensures
        select(traversal(n, is_pre_order, keep_all()), pred(NodeTest::IsRaw)) == traversal(
            n,
            is_pre_order,
            keep_all(),
        ).filter(|x: HTMLContent| x is Raw),
{
    let t = traversal(n, is_pre_order, keep_all());
    law_select_is_filter(t, pred(NodeTest::IsRaw));
    assert(pred(NodeTest::IsRaw) =~= (|x: HTMLContent| x is Raw));
}

} // verus!
