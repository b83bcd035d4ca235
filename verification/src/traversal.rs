//! The orders in which the iterators of this library visit a document tree,
//! stated over the nodes themselves.
use vstd::prelude::*;
use crate::tree::HTMLContent;

verus! {

/// The pruning test that prunes nothing.
pub open spec fn keep_all() -> spec_fn(HTMLContent) -> bool {
    |n: HTMLContent| false
}

/// The children of a node: the content of a tag; none for raw text.
pub open spec fn children(n: HTMLContent) -> Seq<HTMLContent> {
    match n {
        HTMLContent::Raw(_) => seq![],
        HTMLContent::Tag(t) => t.content@,
    }
}

/// The nodes of `s` that `prune` does not hold of, in order.
pub open spec fn unpruned(s: Seq<HTMLContent>, prune: spec_fn(HTMLContent) -> bool) -> Seq<HTMLContent>
    decreases s.len(),
{
    if s.len() == 0 {
        seq![]
    } else if prune(s[0]) {
        unpruned(s.drop_first(), prune)
    } else {
        seq![s[0]] + unpruned(s.drop_first(), prune)
    }
}

/// The nodes of `s` that `test` holds of, in order.
pub open spec fn select(s: Seq<HTMLContent>, test: spec_fn(HTMLContent) -> bool) -> Seq<HTMLContent>
    decreases s.len(),
{
    if s.len() == 0 {
        seq![]
    } else if test(s[0]) {
        seq![s[0]] + select(s.drop_first(), test)
    } else {
        select(s.drop_first(), test)
    }
}

/// The pre-order of the tree under `n` (a node, then the pre-order of each
/// child in turn), leaving out every subtree whose root `prune` holds of.
pub open spec fn pre_order(n: HTMLContent, prune: spec_fn(HTMLContent) -> bool) -> Seq<HTMLContent>
    decreases n,
{
    if prune(n) {
        seq![]
    } else {
        match n {
            HTMLContent::Raw(_) => seq![n],
            HTMLContent::Tag(t) => seq![n] + pre_order_all(t.content@, prune),
        }
    }
}

/// The pre-orders of the trees in `s`, one after the other.
pub open spec fn pre_order_all(s: Seq<HTMLContent>, prune: spec_fn(HTMLContent) -> bool) -> Seq<HTMLContent>
    decreases s,
{
    if s.len() == 0 {
        seq![]
    } else {
        pre_order(s[0], prune) + pre_order_all(s.drop_first(), prune)
    }
}

/// The number of nodes in the tree under `n`.
pub open spec fn size(n: HTMLContent) -> nat
    decreases n,
{
    match n {
        HTMLContent::Raw(_) => 1,
        HTMLContent::Tag(t) => 1 + size_all(t.content@),
    }
}

/// The number of nodes in the trees of `s`.
pub open spec fn size_all(s: Seq<HTMLContent>) -> nat
    decreases s,
{
    if s.len() == 0 {
        0
    } else {
        size(s[0]) + size_all(s.drop_first())
    }
}

/// The level order that a queue `q` of nodes produces: the first node, then
/// the level order of the rest of the queue followed by that node's
/// children, those that `prune` holds of left out.
pub open spec fn level_order_from(q: Seq<HTMLContent>, prune: spec_fn(HTMLContent) -> bool) -> Seq<HTMLContent>
    decreases size_all(q),
{
    if q.len() == 0 {
        seq![]
    } else {
        proof {
            lemma_level_step_smaller(q, prune);
        }
        seq![q[0]] + level_order_from(q.drop_first() + unpruned(children(q[0]), prune), prune)
    }
}

/// The level order (breadth first, each level left to right) of the tree
/// under `n`, leaving out every subtree whose root `prune` holds of.
pub open spec fn level_order(n: HTMLContent, prune: spec_fn(HTMLContent) -> bool) -> Seq<HTMLContent> {
    level_order_from(unpruned(seq![n], prune), prune)
}

pub proof fn lemma_size_all_concat(a: Seq<HTMLContent>, b: Seq<HTMLContent>)
    ensures
        size_all(a + b) == size_all(a) + size_all(b),
    decreases a.len(),
{
    if a.len() > 0 {
        assert((a + b).drop_first() =~= a.drop_first() + b);
        lemma_size_all_concat(a.drop_first(), b);
    } else {
        assert(a + b =~= b);
    }
}

pub proof fn lemma_size_unpruned(s: Seq<HTMLContent>, prune: spec_fn(HTMLContent) -> bool)
    ensures
        size_all(unpruned(s, prune)) <= size_all(s),
    decreases s.len(),
{
    if s.len() > 0 {
        lemma_size_unpruned(s.drop_first(), prune);
        if !prune(s[0]) {
            let u = unpruned(s.drop_first(), prune);
            assert((seq![s[0]] + u).drop_first() =~= u);
        }
    }
}

pub proof fn lemma_level_step_smaller(q: Seq<HTMLContent>, prune: spec_fn(HTMLContent) -> bool)
    requires
        q.len() > 0,
    ensures
        size_all(q.drop_first() + unpruned(children(q[0]), prune)) < size_all(q),
{
    lemma_size_all_concat(q.drop_first(), unpruned(children(q[0]), prune));
    lemma_size_unpruned(children(q[0]), prune);
    assert(size_all(q) == size(q[0]) + size_all(q.drop_first()));
    match q[0] {
        HTMLContent::Raw(_) => {
            assert(size_all(children(q[0])) == 0);
        },
        HTMLContent::Tag(t) => {},
    }
}

/// The nodes that a sequence of references points to.
pub open spec fn deref_all<'a>(s: Seq<&'a HTMLContent>) -> Seq<HTMLContent> {
    s.map_values(|r: &'a HTMLContent| *r)
}

pub proof fn lemma_unpruned_nothing(s: Seq<HTMLContent>)
    ensures
        unpruned(s, keep_all()) == s,
    decreases s.len(),
{
    if s.len() > 0 {
        lemma_unpruned_nothing(s.drop_first());
        assert(seq![s[0]] + s.drop_first() =~= s);
    }
}

pub proof fn lemma_unpruned_single(c: HTMLContent, prune: spec_fn(HTMLContent) -> bool)
    ensures
        unpruned(seq![c], prune) == if prune(c) {
            Seq::<HTMLContent>::empty()
        } else {
            seq![c]
        },
{
    let e = Seq::<HTMLContent>::empty();
    assert(seq![c].drop_first() =~= e);
    assert(seq![c][0] == c);
    assert(unpruned(e, prune) == e);
    assert(seq![c] + e =~= seq![c]);
    if !prune(c) {
        assert(unpruned(seq![c], prune) == seq![c] + unpruned(e, prune));
    }
}

pub proof fn lemma_unpruned_concat(a: Seq<HTMLContent>, b: Seq<HTMLContent>, prune: spec_fn(HTMLContent) -> bool)
    ensures
        unpruned(a + b, prune) == unpruned(a, prune) + unpruned(b, prune),
    decreases a.len(),
{
    if a.len() > 0 {
        assert((a + b).drop_first() =~= a.drop_first() + b);
        assert((a + b)[0] == a[0]);
        lemma_unpruned_concat(a.drop_first(), b, prune);
        let ua = unpruned(a.drop_first(), prune);
        let ub = unpruned(b, prune);
        assert(seq![a[0]] + (ua + ub) =~= (seq![a[0]] + ua) + ub);
    } else {
        assert(a + b =~= b);
        assert(seq![] + unpruned(b, prune) =~= unpruned(b, prune));
    }
}

pub proof fn lemma_unpruned_kept(s: Seq<HTMLContent>, prune: spec_fn(HTMLContent) -> bool)
    ensures
        forall|i: int| 0 <= i < unpruned(s, prune).len() ==> !prune(#[trigger] unpruned(s, prune)[i]),
    decreases s.len(),
{
    if s.len() > 0 {
        lemma_unpruned_kept(s.drop_first(), prune);
        let u = unpruned(s.drop_first(), prune);
        if !prune(s[0]) {
            assert forall|i: int| 0 <= i < unpruned(s, prune).len() implies !prune(
                #[trigger] unpruned(s, prune)[i],
            ) by {
                if i > 0 {
                    assert(unpruned(s, prune)[i] == u[i - 1]);
                }
            }
        }
    }
}

pub proof fn lemma_pre_order_all_concat(a: Seq<HTMLContent>, b: Seq<HTMLContent>, prune: spec_fn(HTMLContent) -> bool)
    ensures
        pre_order_all(a + b, prune) == pre_order_all(a, prune) + pre_order_all(b, prune),
    decreases a.len(),
{
    if a.len() > 0 {
        assert((a + b).drop_first() =~= a.drop_first() + b);
        assert((a + b)[0] == a[0]);
        lemma_pre_order_all_concat(a.drop_first(), b, prune);
        let p0 = pre_order(a[0], prune);
        let pa = pre_order_all(a.drop_first(), prune);
        let pb = pre_order_all(b, prune);
        assert(p0 + (pa + pb) =~= (p0 + pa) + pb);
    } else {
        assert(a + b =~= b);
        assert(seq![] + pre_order_all(b, prune) =~= pre_order_all(b, prune));
    }
}

pub proof fn lemma_pre_order_all_unpruned(s: Seq<HTMLContent>, prune: spec_fn(HTMLContent) -> bool)
    ensures
        pre_order_all(unpruned(s, prune), prune) == pre_order_all(s, prune),
    decreases s.len(),
{
    if s.len() > 0 {
        lemma_pre_order_all_unpruned(s.drop_first(), prune);
        let u = unpruned(s.drop_first(), prune);
        if prune(s[0]) {
            assert(pre_order(s[0], prune) == Seq::<HTMLContent>::empty());
            assert(seq![] + pre_order_all(s.drop_first(), prune) =~= pre_order_all(
                s.drop_first(),
                prune,
            ));
        } else {
            assert((seq![s[0]] + u).drop_first() =~= u);
            assert((seq![s[0]] + u)[0] == s[0]);
        }
    }
}

/// Unfolds one node of a pre-order whose first root is not pruned.
pub proof fn lemma_pre_order_step(q: Seq<HTMLContent>, prune: spec_fn(HTMLContent) -> bool)
    requires
        q.len() > 0,
        !prune(q[0]),
    ensures
        pre_order_all(q, prune).len() > 0,
        pre_order_all(q, prune)[0] == q[0],
        pre_order_all(q, prune).drop_first() == pre_order_all(
            unpruned(children(q[0]), prune) + q.drop_first(),
            prune,
        ),
{
    let ch = children(q[0]);
    lemma_pre_order_all_concat(unpruned(ch, prune), q.drop_first(), prune);
    lemma_pre_order_all_unpruned(ch, prune);
    match q[0] {
        HTMLContent::Raw(_) => {
            assert(unpruned(ch, prune) =~= seq![]);
            assert(pre_order_all(ch, prune) =~= seq![]);
        },
        HTMLContent::Tag(t) => {},
    }
    let a = pre_order_all(ch, prune);
    let b = pre_order_all(q.drop_first(), prune);
    assert(pre_order(q[0], prune) == seq![q[0]] + a);
    assert(pre_order_all(q, prune) == seq![q[0]] + a + b);
    assert((seq![q[0]] + a + b).drop_first() =~= a + b);
}

proof fn lemma_level_order_from_multiset(q: Seq<HTMLContent>, prune: spec_fn(HTMLContent) -> bool)
    requires
        forall|i: int| 0 <= i < q.len() ==> !prune(#[trigger] q[i]),
    ensures
        level_order_from(q, prune).to_multiset() == pre_order_all(q, prune).to_multiset(),
    decreases size_all(q),
{
    broadcast use vstd::seq_lib::lemma_multiset_commutative;
    broadcast use vstd::seq_lib::group_to_multiset_ensures;

    if q.len() == 0 {
        assert(level_order_from(q, prune) =~= pre_order_all(q, prune));
    } else {
        let rest = q.drop_first();
        let ch = unpruned(children(q[0]), prune);
        let q2 = rest + ch;
        lemma_level_step_smaller(q, prune);
        lemma_unpruned_kept(children(q[0]), prune);
        assert forall|i: int| 0 <= i < q2.len() implies !prune(#[trigger] q2[i]) by {
            if i < rest.len() {
                assert(q2[i] == q[i + 1]);
            } else {
                assert(q2[i] == ch[i - rest.len()]);
            }
        }
        lemma_level_order_from_multiset(q2, prune);
        lemma_pre_order_step(q, prune);
        lemma_pre_order_all_concat(ch, rest, prune);
        lemma_pre_order_all_concat(rest, ch, prune);
        let pa = pre_order_all(q, prune);
        assert(pa =~= seq![q[0]] + pa.drop_first());
        assert(level_order_from(q, prune) == seq![q[0]] + level_order_from(q2, prune));
        assert(pre_order_all(ch, prune).to_multiset().add(pre_order_all(rest, prune).to_multiset())
            =~= pre_order_all(rest, prune).to_multiset().add(pre_order_all(ch, prune).to_multiset()));
    }
}

/// Pre-order and level order visit the same nodes, each as many times: for
/// any tree and any pruning test, the two traversals are permutations of
/// each other.
pub proof fn law_traversals_visit_same_nodes(n: HTMLContent, prune: spec_fn(HTMLContent) -> bool)
    ensures
        pre_order(n, prune).to_multiset() == level_order(n, prune).to_multiset(),
        pre_order(n, prune).len() == level_order(n, prune).len(),
{
    broadcast use vstd::seq_lib::group_to_multiset_ensures;

    lemma_unpruned_single(n, prune);
    let e = Seq::<HTMLContent>::empty();
    assert(seq![n].drop_first() =~= e);
    assert(pre_order_all(seq![n], prune) == pre_order(n, prune) + pre_order_all(e, prune));
    assert(pre_order(n, prune) + e =~= pre_order(n, prune));
    if prune(n) {
        assert(level_order(n, prune) == level_order_from(e, prune));
    } else {
        lemma_level_order_from_multiset(seq![n], prune);
    }
    assert(pre_order(n, prune).to_multiset().len() == pre_order(n, prune).len());
    assert(level_order(n, prune).to_multiset().len() == level_order(n, prune).len());
}

proof fn lemma_pre_order_len(n: HTMLContent)
    ensures
        pre_order(n, keep_all()).len() == size(n),
    decreases n,
{
    match n {
        HTMLContent::Raw(_) => {},
        HTMLContent::Tag(t) => {
            lemma_pre_order_all_len(t.content@);
        },
    }
}

proof fn lemma_pre_order_all_len(s: Seq<HTMLContent>)
    ensures
        pre_order_all(s, keep_all()).len() == size_all(s),
    decreases s,
{
    if s.len() > 0 {
        lemma_pre_order_len(s[0]);
        lemma_pre_order_all_len(s.drop_first());
    }
}

/// A traversal without pruning gives every node of the tree exactly once:
/// as many nodes as the tree holds, its root first, in either order.
pub proof fn law_traversal_gives_every_node(n: HTMLContent)
    ensures
        pre_order(n, keep_all()).len() == size(n),
        level_order(n, keep_all()).len() == size(n),
        pre_order(n, keep_all())[0] == n,
        level_order(n, keep_all())[0] == n,
{
    lemma_pre_order_len(n);
    law_traversals_visit_same_nodes(n, keep_all());
    lemma_unpruned_single(n, keep_all());
    match n {
        HTMLContent::Raw(_) => {},
        HTMLContent::Tag(t) => {},
    }
}

/// The pre-order of the tree under `n`, each node paired with whether
/// `prune` holds of some node on the path from `n` down to it, both ends
/// included; `above` stands for the nodes above `n`.
pub open spec fn marked_pre_order(n: HTMLContent, prune: spec_fn(HTMLContent) -> bool, above: bool) -> Seq<(HTMLContent, bool)>
    decreases n,
{
    let m = above || prune(n);
    match n {
        HTMLContent::Raw(_) => seq![(n, m)],
        HTMLContent::Tag(t) => seq![(n, m)] + marked_pre_order_all(t.content@, prune, m),
    }
}

/// The marked pre-orders of the trees in `s`, one after the other.
pub open spec fn marked_pre_order_all(s: Seq<HTMLContent>, prune: spec_fn(HTMLContent) -> bool, above: bool) -> Seq<(HTMLContent, bool)>
    decreases s,
{
    if s.len() == 0 {
        seq![]
    } else {
        marked_pre_order(s[0], prune, above) + marked_pre_order_all(s.drop_first(), prune, above)
    }
}

/// The nodes of a marked sequence.
pub open spec fn marked_nodes(s: Seq<(HTMLContent, bool)>) -> Seq<HTMLContent> {
    s.map_values(|x: (HTMLContent, bool)| x.0)
}

/// The nodes of a marked sequence that are not marked, in order.
pub open spec fn unmarked(s: Seq<(HTMLContent, bool)>) -> Seq<HTMLContent>
    decreases s.len(),
{
    if s.len() == 0 {
        seq![]
    } else if s[0].1 {
        unmarked(s.drop_first())
    } else {
        seq![s[0].0] + unmarked(s.drop_first())
    }
}

proof fn lemma_unmarked_concat(a: Seq<(HTMLContent, bool)>, b: Seq<(HTMLContent, bool)>)
    ensures
        unmarked(a + b) == unmarked(a) + unmarked(b),
    decreases a.len(),
{
    if a.len() > 0 {
        assert((a + b).drop_first() =~= a.drop_first() + b);
        assert((a + b)[0] == a[0]);
        lemma_unmarked_concat(a.drop_first(), b);
        let ua = unmarked(a.drop_first());
        let ub = unmarked(b);
        assert(seq![a[0].0] + (ua + ub) =~= (seq![a[0].0] + ua) + ub);
    } else {
        assert(a + b =~= b);
        assert(seq![] + unmarked(b) =~= unmarked(b));
    }
}

proof fn lemma_marked_nodes_concat(a: Seq<(HTMLContent, bool)>, b: Seq<(HTMLContent, bool)>)
    ensures
        marked_nodes(a + b) == marked_nodes(a) + marked_nodes(b),
{
    assert(marked_nodes(a + b) =~= marked_nodes(a) + marked_nodes(b));
}

proof fn lemma_marked_pre_order(n: HTMLContent, prune: spec_fn(HTMLContent) -> bool, above: bool)
    ensures
        marked_nodes(marked_pre_order(n, prune, above)) == pre_order(n, keep_all()),
        unmarked(marked_pre_order(n, prune, above)) == if above {
            Seq::<HTMLContent>::empty()
        } else {
            pre_order(n, prune)
        },
    decreases n,
{
    let m = above || prune(n);
    let e = Seq::<(HTMLContent, bool)>::empty();
    assert(seq![(n, m)].drop_first() =~= e);
    assert(marked_nodes(seq![(n, m)]) =~= seq![n]);
    assert(unmarked(e) == Seq::<HTMLContent>::empty());
    match n {
        HTMLContent::Raw(_) => {
            assert(unmarked(seq![(n, m)]) =~= if m { Seq::<HTMLContent>::empty() } else { seq![n] + Seq::<HTMLContent>::empty() });
        },
        HTMLContent::Tag(t) => {
            let rest = marked_pre_order_all(t.content@, prune, m);
            lemma_marked_pre_order_all(t.content@, prune, m);
            lemma_marked_nodes_concat(seq![(n, m)], rest);
            lemma_unmarked_concat(seq![(n, m)], rest);
            assert(unmarked(seq![(n, m)]) =~= if m { Seq::<HTMLContent>::empty() } else { seq![n] + Seq::<HTMLContent>::empty() });
            assert(Seq::<HTMLContent>::empty() + Seq::<HTMLContent>::empty() =~= Seq::<HTMLContent>::empty());
            assert(seq![n] + Seq::<HTMLContent>::empty() =~= seq![n]);
        },
    }
}

proof fn lemma_marked_pre_order_all(s: Seq<HTMLContent>, prune: spec_fn(HTMLContent) -> bool, above: bool)
    ensures
        marked_nodes(marked_pre_order_all(s, prune, above)) == pre_order_all(s, keep_all()),
        unmarked(marked_pre_order_all(s, prune, above)) == if above {
            Seq::<HTMLContent>::empty()
        } else {
            pre_order_all(s, prune)
        },
    decreases s,
{
    if s.len() == 0 {
        assert(marked_nodes(Seq::<(HTMLContent, bool)>::empty()) =~= Seq::<HTMLContent>::empty());
    } else {
        let a = marked_pre_order(s[0], prune, above);
        let b = marked_pre_order_all(s.drop_first(), prune, above);
        lemma_marked_pre_order(s[0], prune, above);
        lemma_marked_pre_order_all(s.drop_first(), prune, above);
        lemma_marked_nodes_concat(a, b);
        lemma_unmarked_concat(a, b);
        assert(Seq::<HTMLContent>::empty() + Seq::<HTMLContent>::empty() =~= Seq::<HTMLContent>::empty());
    }
}

/// A pruned pre-order is the plain pre-order with every node left out that
/// has a pruned node on its path from the root (itself included): marking
/// each node of the plain pre-order by that, the pruned pre-order is exactly
/// the unmarked nodes, in order.
pub proof fn law_pruned_pre_order_filters_paths(n: HTMLContent, prune: spec_fn(HTMLContent) -> bool)
    ensures
        marked_nodes(marked_pre_order(n, prune, false)) == pre_order(n, keep_all()),
        unmarked(marked_pre_order(n, prune, false)) == pre_order(n, prune),
{
    lemma_marked_pre_order(n, prune, false);
}

/// The nodes of `s`, each marked as `prune` holds of it or as `above` is.
pub open spec fn mark_all(s: Seq<HTMLContent>, prune: spec_fn(HTMLContent) -> bool, above: bool) -> Seq<(HTMLContent, bool)> {
    s.map_values(|c: HTMLContent| (c, above || prune(c)))
}

pub proof fn lemma_marked_level_step_smaller(q: Seq<(HTMLContent, bool)>, prune: spec_fn(HTMLContent) -> bool)
    requires
        q.len() > 0,
    ensures
        size_all(marked_nodes(q.drop_first() + mark_all(children(q[0].0), prune, q[0].1)))
            < size_all(marked_nodes(q)),
{
    let nq = marked_nodes(q);
    assert(marked_nodes(q.drop_first() + mark_all(children(q[0].0), prune, q[0].1)) =~= nq.drop_first()
        + children(nq[0]));
    lemma_unpruned_nothing(children(nq[0]));
    lemma_level_step_smaller(nq, keep_all());
}

/// The level order that a queue `q` of marked nodes produces, each node
/// with its mark: a node's children are marked where it is marked or where
/// `prune` holds of them.
pub open spec fn marked_level_order_from(q: Seq<(HTMLContent, bool)>, prune: spec_fn(HTMLContent) -> bool) -> Seq<(HTMLContent, bool)>
    decreases size_all(marked_nodes(q)),
{
    if q.len() == 0 {
        seq![]
    } else {
        proof {
            lemma_marked_level_step_smaller(q, prune);
        }
        seq![q[0]] + marked_level_order_from(
            q.drop_first() + mark_all(children(q[0].0), prune, q[0].1),
            prune,
        )
    }
}

proof fn lemma_unmarked_mark_all(s: Seq<HTMLContent>, prune: spec_fn(HTMLContent) -> bool, above: bool)
    ensures
        unmarked(mark_all(s, prune, above)) == if above {
            Seq::<HTMLContent>::empty()
        } else {
            unpruned(s, prune)
        },
    decreases s.len(),
{
    let m = mark_all(s, prune, above);
    if s.len() > 0 {
        assert(m.drop_first() =~= mark_all(s.drop_first(), prune, above));
        lemma_unmarked_mark_all(s.drop_first(), prune, above);
    } else {
        assert(m =~= Seq::<(HTMLContent, bool)>::empty());
    }
}

proof fn lemma_marked_level_order(q: Seq<(HTMLContent, bool)>, prune: spec_fn(HTMLContent) -> bool)
    ensures
        marked_nodes(marked_level_order_from(q, prune)) == level_order_from(marked_nodes(q), keep_all()),
        unmarked(marked_level_order_from(q, prune)) == level_order_from(unmarked(q), prune),
    decreases size_all(marked_nodes(q)),
{
    if q.len() == 0 {
        assert(marked_nodes(q) =~= Seq::<HTMLContent>::empty());
        assert(marked_nodes(Seq::<(HTMLContent, bool)>::empty()) =~= Seq::<HTMLContent>::empty());
    } else {
        let (x, f) = q[0];
        let kids = mark_all(children(x), prune, f);
        let q2 = q.drop_first() + kids;
        lemma_marked_level_step_smaller(q, prune);
        lemma_marked_level_order(q2, prune);
        let l = marked_level_order_from(q2, prune);
        assert(marked_level_order_from(q, prune) == seq![q[0]] + l);
        // the nodes
        let nq = marked_nodes(q);
        lemma_marked_nodes_concat(seq![q[0]], l);
        assert(marked_nodes(seq![q[0]]) =~= seq![x]);
        assert(marked_nodes(q2) =~= nq.drop_first() + children(x));
        lemma_unpruned_nothing(children(x));
        assert(nq[0] == x);
        assert(level_order_from(nq, keep_all()) == seq![nq[0]] + level_order_from(
            nq.drop_first() + unpruned(children(nq[0]), keep_all()),
            keep_all(),
        ));
        // the unmarked nodes
        lemma_unmarked_concat(seq![q[0]], l);
        lemma_unmarked_concat(q.drop_first(), kids);
        lemma_unmarked_mark_all(children(x), prune, f);
        assert(seq![q[0]].drop_first() =~= Seq::<(HTMLContent, bool)>::empty());
        assert(unmarked(Seq::<(HTMLContent, bool)>::empty()) == Seq::<HTMLContent>::empty());
        let uq = unmarked(q);
        if f {
            assert(uq == unmarked(q.drop_first()));
            assert(unmarked(seq![q[0]]) == Seq::<HTMLContent>::empty());
            assert(unmarked(q.drop_first()) + Seq::<HTMLContent>::empty() =~= unmarked(q.drop_first()));
            assert(Seq::<HTMLContent>::empty() + unmarked(l) =~= unmarked(l));
        } else {
            assert(uq == seq![x] + unmarked(q.drop_first()));
            assert(unmarked(seq![q[0]]) =~= seq![x]);
            assert(uq[0] == x);
            assert(uq.drop_first() =~= unmarked(q.drop_first()));
            assert(level_order_from(uq, prune) == seq![uq[0]] + level_order_from(
                uq.drop_first() + unpruned(children(uq[0]), prune),
                prune,
            ));
        }
    }
}

/// A pruned level order is the plain level order with every node left out
/// that has a pruned node on its path from the root (itself included):
/// marking each node of the plain level order by that, the pruned level
/// order is exactly the unmarked nodes, in order.
pub proof fn law_pruned_level_order_filters_paths(n: HTMLContent, prune: spec_fn(HTMLContent) -> bool)
    ensures
        marked_nodes(marked_level_order_from(seq![(n, prune(n))], prune)) == level_order(n, keep_all()),
        unmarked(marked_level_order_from(seq![(n, prune(n))], prune)) == level_order(n, prune),
{
    let q = seq![(n, prune(n))];
    lemma_marked_level_order(q, prune);
    assert(marked_nodes(q) =~= seq![n]);
    lemma_unpruned_nothing(seq![n]);
    lemma_unpruned_single(n, prune);
    assert(q.drop_first() =~= Seq::<(HTMLContent, bool)>::empty());
    assert(unmarked(Seq::<(HTMLContent, bool)>::empty()) == Seq::<HTMLContent>::empty());
    if !prune(n) {
        assert(unmarked(q) =~= seq![n]);
    }
}

/// The children of the nodes of `q`, one node's after another's.
pub open spec fn children_all(q: Seq<HTMLContent>) -> Seq<HTMLContent>
    decreases q.len(),
{
    if q.len() == 0 {
        seq![]
    } else {
        children(q[0]) + children_all(q.drop_first())
    }
}

pub proof fn lemma_children_all_smaller(q: Seq<HTMLContent>)
    ensures
        size_all(q) == q.len() + size_all(children_all(q)),
    decreases q.len(),
{
    if q.len() > 0 {
        lemma_children_all_smaller(q.drop_first());
        lemma_size_all_concat(children(q[0]), children_all(q.drop_first()));
        assert(size_all(q) == size(q[0]) + size_all(q.drop_first()));
        assert(children_all(q) == children(q[0]) + children_all(q.drop_first()));
        match q[0] {
            HTMLContent::Raw(_) => {
                assert(size_all(children(q[0])) == 0);
            },
            HTMLContent::Tag(t) => {
                assert(size(q[0]) == 1 + size_all(t.content@));
            },
        }
    } else {
        assert(size_all(children_all(q)) == 0);
    }
}

/// The nodes level by level: the nodes of `q`, then all their children,
/// then all the children of those, and so on, each level in order.
pub open spec fn depth_order_from(q: Seq<HTMLContent>) -> Seq<HTMLContent>
    decreases size_all(q),
{
    if q.len() == 0 {
        seq![]
    } else {
        proof {
            lemma_children_all_smaller(q);
        }
        q + depth_order_from(children_all(q))
    }
}

proof fn lemma_level_order_queue(q: Seq<HTMLContent>, r: Seq<HTMLContent>)
    ensures
        level_order_from(q + r, keep_all()) == q + level_order_from(r + children_all(q), keep_all()),
    decreases q.len(),
{
    if q.len() == 0 {
        assert(q + r =~= r);
        assert(r + children_all(q) =~= r);
        assert(q + level_order_from(r, keep_all()) =~= level_order_from(r, keep_all()));
    } else {
        let qr = q + r;
        let q1 = q.drop_first();
        let r1 = r + children(q[0]);
        lemma_unpruned_nothing(children(q[0]));
        assert(qr[0] == q[0]);
        assert(qr.drop_first() + children(q[0]) =~= q1 + r1);
        assert(level_order_from(qr, keep_all()) == seq![q[0]] + level_order_from(
            qr.drop_first() + unpruned(children(qr[0]), keep_all()),
            keep_all(),
        ));
        lemma_level_order_queue(q1, r1);
        assert(r1 + children_all(q1) =~= r + children_all(q));
        assert(seq![q[0]] + (q1 + level_order_from(r + children_all(q), keep_all())) =~= q
            + level_order_from(r + children_all(q), keep_all()));
    }
}

proof fn lemma_level_order_by_depth(q: Seq<HTMLContent>)
    ensures
        level_order_from(q, keep_all()) == depth_order_from(q),
    decreases size_all(q),
{
    if q.len() > 0 {
        lemma_children_all_smaller(q);
        lemma_level_order_queue(q, seq![]);
        assert(q + seq![] =~= q);
        assert(seq![] + children_all(q) =~= children_all(q));
        lemma_level_order_by_depth(children_all(q));
    } else {
        assert(level_order_from(q, keep_all()) =~= depth_order_from(q));
    }
}

/// The level order is ordered by depth: the root, then all nodes one level
/// below it, then all nodes two levels below, and so on, each level in
/// document order.
pub proof fn law_level_order_by_depth(n: HTMLContent)
    ensures
        level_order(n, keep_all()) == depth_order_from(seq![n]),
{
    lemma_unpruned_nothing(seq![n]);
    lemma_level_order_by_depth(seq![n]);
}


/// Filtering a non-empty sequence: its first element, if the predicate
/// holds of it, then the filtered rest.
pub proof fn lemma_filter_front<A>(s: Seq<A>, f: spec_fn(A) -> bool)
    requires
        s.len() > 0,
    ensures
        s.filter(f) == (if f(s[0]) {
            seq![s[0]]
        } else {
            Seq::<A>::empty()
        }) + s.drop_first().filter(f),
{
    let head = seq![s[0]];
    assert(s =~= head + s.drop_first());
    Seq::filter_distributes_over_add(head, s.drop_first(), f);
    reveal_with_fuel(Seq::filter, 2);
    assert(head.drop_last() =~= Seq::<A>::empty());
    if f(s[0]) {
        assert(head.filter(f) =~= Seq::<A>::empty().push(s[0]));
    } else {
        assert(head.filter(f) =~= Seq::<A>::empty());
    }
}

/// A selection keeps exactly the nodes that its test holds of, in their
/// order: it is the sequence filtered by the test.
pub proof fn law_select_is_filter(s: Seq<HTMLContent>, test: spec_fn(HTMLContent) -> bool)
    ensures
        select(s, test) == s.filter(test),
    decreases s.len(),
{
    if s.len() > 0 {
        law_select_is_filter(s.drop_first(), test);
        lemma_filter_front(s, test);
    } else {
        reveal_with_fuel(Seq::filter, 1);
        assert(s.filter(test) =~= s);
    }
}


proof fn lemma_pre_order_all_slice(c: Seq<HTMLContent>, k: int)
    requires
        0 <= k < c.len(),
    ensures
        size_all(c.take(k)) + size(c[k]) <= pre_order_all(c, keep_all()).len(),
        pre_order_all(c, keep_all()).subrange(
            size_all(c.take(k)) as int,
            (size_all(c.take(k)) + size(c[k])) as int,
        ) == pre_order(c[k], keep_all()),
    decreases k,
{
    let first = pre_order(c[0], keep_all());
    let rest = c.drop_first();
    lemma_pre_order_len(c[0]);
    lemma_pre_order_all_len(c);
    lemma_pre_order_all_len(rest);
    assert(pre_order_all(c, keep_all()) == first + pre_order_all(rest, keep_all()));
    if k == 0 {
        assert(c.take(0) =~= Seq::<HTMLContent>::empty());
        assert((first + pre_order_all(rest, keep_all())).subrange(0, size(c[0]) as int) =~= first);
    } else {
        lemma_pre_order_all_slice(rest, k - 1);
        assert(c.take(k).drop_first() =~= rest.take(k - 1));
        assert(c.take(k)[0] == c[0]);
        assert(size_all(c.take(k)) == size(c[0]) + size_all(rest.take(k - 1)));
        assert(rest[k - 1] == c[k]);
        let a = size_all(rest.take(k - 1)) as int;
        let l = first.len() as int;
        let z = size(c[k]) as int;
        assert((first + pre_order_all(rest, keep_all())).subrange(l + a, l + a + z)
            =~= pre_order_all(rest, keep_all()).subrange(a, a + z));
    }
}

/// In pre-order every child of a tag stands, with its whole subtree, right
/// after the tag and the subtrees of the children before it: the subtree of
/// the `k`-th child fills the places from 1 plus the sizes of the children
/// before it, and the child itself comes first there.
pub proof fn law_pre_order_places_children(n: HTMLContent, k: int)
    requires
        0 <= k < children(n).len(),
    ensures
        pre_order(n, keep_all()).subrange(
            1 + size_all(children(n).take(k)) as int,
            1 + size_all(children(n).take(k)) + size(children(n)[k]) as int,
        ) == pre_order(children(n)[k], keep_all()),
        pre_order(n, keep_all())[1 + size_all(children(n).take(k)) as int] == children(n)[k],
{
    let c = children(n);
    lemma_pre_order_all_slice(c, k);
    let a = size_all(c.take(k)) as int;
    let z = size(c[k]) as int;
    let rest = pre_order_all(c, keep_all());
    assert(pre_order(n, keep_all()) == seq![n] + rest);
    assert((seq![n] + rest).subrange(1 + a, 1 + a + z) =~= rest.subrange(a, a + z));
    law_traversal_gives_every_node(c[k]);
    lemma_pre_order_len(c[k]);
    assert(pre_order(n, keep_all())[1 + a] == pre_order(c[k], keep_all())[0]);
}

} // verus!
