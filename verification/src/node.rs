//! The tree node of the heap: a key together with an ordered, owned list of
//! child nodes, heap-ordered (a parent's key is at most every key below it).

use vstd::multiset::Multiset;
use vstd::prelude::*;

verus! {

broadcast use vstd::multiset::group_multiset_axioms;

/// One tree of the root forest: an owned recursive node. The degree of a
/// node is the length of its child list; it is derived, never stored.
pub(crate) struct Node {
    pub(crate) value: u64,
    pub(crate) children: Vec<Node>,
}

/// The multiset of all keys in the tree rooted at `n`.
pub(crate) open spec fn node_ms(n: Node) -> Multiset<u64>
    decreases n,
{
    forest_ms(n.children@).insert(n.value)
}

/// The multiset of all keys in a forest of trees.
pub(crate) open spec fn forest_ms(s: Seq<Node>) -> Multiset<u64>
    decreases s,
{
    if s.len() == 0 {
        Multiset::empty()
    } else {
        node_ms(s[0]).add(forest_ms(s.drop_first()))
    }
}

/// Heap order: every node's key is at most each of its children's keys, and
/// each child is itself heap-ordered.
pub(crate) open spec fn node_ok(n: Node) -> bool
    decreases n,
{
    forall|i: int|
        0 <= i < n.children@.len() ==> node_ok(#[trigger] n.children@[i]) && n.value
            <= n.children@[i].value
}

impl Node {
    /// A fresh degree-0 node holding `value`.
    pub(crate) fn new(value: u64) -> (r: Node)
        ensures
            r.value == value,
            r.children@ =~= Seq::<Node>::empty(),
            node_ok(r),
            node_ms(r) =~= Multiset::empty().insert(value),
    {
        let r = Node { value, children: Vec::new() };
        proof {
            assert(forest_ms(r.children@) =~= Multiset::empty());
        }
        r
    }

    /// The key held at this node.
    pub(crate) fn value(&self) -> (r: u64)
        ensures
            r == self.value,
    {
        self.value
    }

    /// The ordered child list.
    pub(crate) fn children(&self) -> (r: &Vec<Node>)
        ensures
            r@ == self.children@,
    {
        &self.children
    }

    /// The degree: how many direct children this node has.
    pub(crate) fn degree(&self) -> (r: usize)
        ensures
            r == self.children@.len(),
    {
        self.children.len()
    }

    /// Appends `node` to the child list, raising the degree by one. This is
    /// the sole mutator of a node.
    pub(crate) fn push_child(&mut self, node: Node)
        ensures
            final(self).value == old(self).value,
            final(self).children@ == old(self).children@.push(node),
            node_ms(*final(self)) == node_ms(*old(self)).add(node_ms(node)),
            node_ok(*old(self)) && node_ok(node) && old(self).value <= node.value ==> node_ok(
                *final(self),
            ),
    {
        let ghost nd = node;
        self.children.push(node);
        proof {
            lemma_forest_ms_push(old(self).children@, nd);
            assert(node_ms(*self) =~= node_ms(*old(self)).add(node_ms(nd)));
            if node_ok(*old(self)) && node_ok(nd) && old(self).value <= nd.value {
                assert forall|i: int| 0 <= i < self.children@.len() implies node_ok(
                    #[trigger] self.children@[i],
                ) && self.value <= self.children@[i].value by {
                    if i < old(self).children@.len() {
                        assert(self.children@[i] == old(self).children@[i]);
                    } else {
                        assert(self.children@[i] == nd);
                    }
                }
            }
        }
    }
}

/// Appending a tree to a forest adds exactly that tree's keys.
pub(crate) proof fn lemma_forest_ms_push(s: Seq<Node>, n: Node)
    ensures
        forest_ms(s.push(n)) == forest_ms(s).add(node_ms(n)),
    decreases s.len(),
{
    assert(forest_ms(s.push(n)) == node_ms(s.push(n)[0]).add(forest_ms(s.push(n).drop_first())));
    if s.len() == 0 {
        assert(s.push(n).drop_first() =~= Seq::<Node>::empty());
        assert(forest_ms(Seq::<Node>::empty()) == Multiset::<u64>::empty());
        assert(s.push(n)[0] == n);
        assert(forest_ms(s.push(n)) =~= forest_ms(s).add(node_ms(n)));
    } else {
        assert(s.push(n).drop_first() =~= s.drop_first().push(n));
        lemma_forest_ms_push(s.drop_first(), n);
        assert(s.push(n)[0] == s[0]);
        assert(forest_ms(s.push(n)) =~= forest_ms(s).add(node_ms(n)));
    }
}

/// The keys of a concatenated forest are the keys of the two halves together.
pub(crate) proof fn lemma_forest_ms_concat(s1: Seq<Node>, s2: Seq<Node>)
    ensures
        forest_ms(s1 + s2) == forest_ms(s1).add(forest_ms(s2)),
    decreases s1.len(),
{
    if s1.len() == 0 {
        assert(s1 + s2 =~= s2);
        assert(forest_ms(s1 + s2) =~= forest_ms(s1).add(forest_ms(s2)));
    } else {
        assert((s1 + s2).drop_first() =~= s1.drop_first() + s2);
        lemma_forest_ms_concat(s1.drop_first(), s2);
        assert((s1 + s2)[0] == s1[0]);
        assert(forest_ms(s1 + s2) =~= forest_ms(s1).add(forest_ms(s2)));
    }
}

/// A forest holds at least one key per tree.
pub(crate) proof fn lemma_forest_len(s: Seq<Node>)
    ensures
        forest_ms(s).len() >= s.len(),
    decreases s,
{
    if s.len() > 0 {
        lemma_forest_len(s.drop_first());
        assert(node_ms(s[0]).len() == forest_ms(s[0].children@).insert(s[0].value).len());
        assert(forest_ms(s[0].children@).insert(s[0].value).len() == forest_ms(
            s[0].children@,
        ).add(Multiset::singleton(s[0].value)).len());
    }
}

/// A forest contains the key at the root of each of its trees.
pub(crate) proof fn lemma_forest_contains_root(s: Seq<Node>, i: int)
    requires
        0 <= i < s.len(),
    ensures
        forest_ms(s).count(s[i].value) > 0,
    decreases s,
{
    if i == 0 {
        assert(node_ms(s[0]).count(s[0].value) > 0);
        assert(forest_ms(s).count(s[0].value) == node_ms(s[0]).count(s[0].value) + forest_ms(
            s.drop_first(),
        ).count(s[0].value));
    } else {
        lemma_forest_contains_root(s.drop_first(), i - 1);
        assert(s.drop_first()[i - 1] == s[i]);
        assert(forest_ms(s).count(s[i].value) == node_ms(s[0]).count(s[i].value) + forest_ms(
            s.drop_first(),
        ).count(s[i].value));
    }
}

/// In a heap-ordered tree the root's key bounds every key of the tree.
pub(crate) proof fn lemma_node_min(n: Node)
    requires
        node_ok(n),
    ensures
        forall|v: u64| node_ms(n).count(v) > 0 ==> n.value <= v,
    decreases n,
{
    lemma_forest_min(n.children@, n.value);
    assert forall|v: u64| node_ms(n).count(v) > 0 implies n.value <= v by {
        assert(node_ms(n).count(v) == forest_ms(n.children@).count(v) + Multiset::singleton(
            n.value,
        ).count(v));
        if v != n.value {
            assert(forest_ms(n.children@).count(v) > 0);
        }
    }
}

/// A key bounding the roots of a heap-ordered forest bounds every key in it.
pub(crate) proof fn lemma_forest_min(s: Seq<Node>, b: u64)
    requires
        forall|i: int| 0 <= i < s.len() ==> node_ok(#[trigger] s[i]) && b <= s[i].value,
    ensures
        forall|v: u64| forest_ms(s).count(v) > 0 ==> b <= v,
    decreases s,
{
    if s.len() > 0 {
        assert(node_ok(s[0]) && b <= s[0].value);
        lemma_node_min(s[0]);
        assert forall|i: int| 0 <= i < s.drop_first().len() implies node_ok(
            #[trigger] s.drop_first()[i],
        ) && b <= s.drop_first()[i].value by {
            assert(s.drop_first()[i] == s[i + 1]);
        }
        lemma_forest_min(s.drop_first(), b);
        assert forall|v: u64| forest_ms(s).count(v) > 0 implies b <= v by {
            assert(forest_ms(s).count(v) == node_ms(s[0]).count(v) + forest_ms(
                s.drop_first(),
            ).count(v));
        }
    }
}

} // verus!
