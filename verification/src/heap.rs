//! The heap container: a root forest, a cached index of the minimum root,
//! and the total key count, together with every public operation.

use crate::consolidate::lemma_table_push;
use crate::consolidate::map_update;
use crate::consolidate::slot_ms;
use crate::consolidate::slot_ok;
use crate::consolidate::table_ms;
use crate::consolidate::table_ok;
use crate::node::forest_ms;
use crate::node::lemma_forest_contains_root;
use crate::node::lemma_forest_len;
use crate::node::lemma_forest_ms_concat;
use crate::node::lemma_forest_min;
use crate::node::lemma_forest_ms_push;
use crate::node::node_ms;
use crate::node::node_ok;
use crate::node::Node;
use vstd::assert_multisets_equal;
use vstd::multiset::Multiset;
use vstd::prelude::*;

verus! {

broadcast use vstd::multiset::group_multiset_axioms, vstd::seq_lib::group_to_multiset_ensures;

/// `m` is a least key of the multiset `ms`: it occurs in `ms` and bounds
/// every key of `ms` from below.
pub open spec fn is_min_of(m: u64, ms: Multiset<u64>) -> bool {
    &&& ms.count(m) > 0
    &&& forall|v: u64| ms.count(v) > 0 ==> m <= v
}

/// The sequence is in non-decreasing order.
pub open spec fn sorted(s: Seq<u64>) -> bool {
    forall|i: int, j: int| 0 <= i <= j < s.len() ==> s[i] <= s[j]
}

/// A priority queue of `u64` keys in the Fibonacci-heap family: a forest of
/// heap-ordered trees, consolidated lazily on extraction. Its mathematical
/// view (`self@`) is the multiset of keys it holds.
pub struct FibonacciHeap {
    roots: Vec<Node>,
    top_index: usize,
    len: usize,
}

impl View for FibonacciHeap {
    type V = Multiset<u64>;

    closed spec fn view(&self) -> Multiset<u64> {
        forest_ms(self.roots@)
    }
}

impl FibonacciHeap {
    /// The internal invariant: the count caches the forest's size, the
    /// cached index points (when the heap is non-empty) at a root whose key
    /// is a least key of the whole forest, and every tree is heap-ordered.
    pub closed spec fn wf(self) -> bool {
        &&& self.len == self@.len()
        &&& (self.roots@.len() == 0 <==> self.len == 0)
        &&& (self.len == 0 ==> self.top_index == 0)
        &&& (self.len > 0 ==> self.top_index < self.roots@.len())
        &&& (forall|i: int| 0 <= i < self.roots@.len() ==> node_ok(#[trigger] self.roots@[i]))
        &&& (self.len > 0 ==> is_min_of(self.roots@[self.top_index as int].value, self@))
    }

    /// The empty heap.
    pub fn new() -> (r: Self)
        ensures
            r.wf(),
            r@ =~= Multiset::<u64>::empty(),
    {
        Self::default()
    }

    /// The number of keys held, across the whole forest.
    pub fn len(&self) -> (r: usize)
        requires
            self.wf(),
        ensures
            r == self@.len(),
    {
        self.len
    }

    /// Whether the heap holds no key at all.
    pub fn is_empty(&self) -> (r: bool)
        requires
            self.wf(),
        ensures
            r <==> self@.len() == 0,
    {
        self.len == 0
    }

    /// The least key, or `None` exactly when the heap is empty. A pure
    /// read: it never changes the heap.
    pub fn top(&self) -> (r: Option<&u64>)
        requires
            self.wf(),
        ensures
            r is None <==> self@.len() == 0,
            r matches Some(v) ==> is_min_of(*v, self@),
    {
        if self.is_empty() {
            None
        } else {
            Some(&self.roots[self.top_index].value)
        }
    }

    /// Bulk construction in one pass: every key becomes a degree-0 root, a
    /// pending slot keeps the running minimum, and the minimum is emitted
    /// last, so the cached minimum index is simply the final position. No
    /// structural merging happens at build time; consolidation is deferred
    /// to the first extraction.
    pub fn from_vec(vec: Vec<u64>) -> (r: Self)
        ensures
            r.wf(),
            r@ == vec@.to_multiset(),
            r@.len() == vec@.len(),
    {
        if vec.is_empty() {
            proof {
                assert(vec@.to_multiset() =~= Multiset::<u64>::empty());
            }
            return Self::new();
        }

        let n = vec.len();
        let top_index = n - 1;
        let mut roots: Vec<Node> = Vec::with_capacity(n);
        let mut pending: u64 = vec[0];
        let mut i: usize = 1;
        proof {
            assert(vec@.take(1) =~= Seq::<u64>::empty().push(vec@[0]));
            assert(Seq::<u64>::empty().to_multiset() =~= Multiset::<u64>::empty());
            assert(forest_ms(roots@) =~= Multiset::<u64>::empty());
            assert(forest_ms(roots@).insert(pending) =~= vec@.take(1).to_multiset());
        }
        while i < n
            invariant
                1 <= i <= n,
                n == vec@.len(),
                roots@.len() == i - 1,
                forest_ms(roots@).insert(pending) =~= vec@.take(i as int).to_multiset(),
                forall|j: int|
                    0 <= j < roots@.len() ==> node_ok(#[trigger] roots@[j]) && pending
                        <= roots@[j].value,
            decreases n - i,
        {
            let ghost pre_roots = roots@;
            let ghost pre_pending = pending;
            let value = vec[i];
            if value > pending {
                let leaf = Node::new(value);
                proof {
                    lemma_forest_ms_push(pre_roots, leaf);
                }
                roots.push(leaf);
            } else {
                let leaf = Node::new(pending);
                proof {
                    lemma_forest_ms_push(pre_roots, leaf);
                }
                roots.push(leaf);
                pending = value;
            }
            proof {
                assert(vec@.take(i + 1) =~= vec@.take(i as int).push(vec@[i as int]));
                assert(vec@.take(i + 1).to_multiset() =~= vec@.take(i as int).to_multiset().insert(
                    vec@[i as int],
                ));
                assert forall|v: u64| forest_ms(roots@).insert(pending).count(v) == vec@.take(
                    i + 1,
                ).to_multiset().count(v) by {
                    assert(forest_ms(pre_roots).insert(pre_pending).count(v) == vec@.take(
                        i as int,
                    ).to_multiset().count(v));
                }
                assert(forest_ms(roots@).insert(pending) =~= vec@.take(i + 1).to_multiset());
                assert forall|j: int| 0 <= j < roots@.len() implies node_ok(#[trigger] roots@[j])
                    && pending <= roots@[j].value by {
                    if j < pre_roots.len() {
                        assert(roots@[j] == pre_roots[j]);
                    }
                }
            }
            i = i + 1;
        }
        let ghost pre_roots = roots@;
        let last = Node::new(pending);
        proof {
            lemma_forest_ms_push(pre_roots, last);
        }
        roots.push(last);
        let r = FibonacciHeap { roots, top_index, len: n };
        proof {
            assert(vec@.take(n as int) =~= vec@);
            assert(r@ =~= vec@.to_multiset());
            assert forall|j: int| 0 <= j < r.roots@.len() implies node_ok(#[trigger] r.roots@[j])
                && pending <= r.roots@[j].value by {
                if j < pre_roots.len() {
                    assert(r.roots@[j] == pre_roots[j]);
                }
            }
            assert(r.roots@[top_index as int] == last);
            lemma_forest_min(r.roots@, pending);
            lemma_forest_contains_root(r.roots@, top_index as int);
        }
        r
    }

    /// Appends `value` as a fresh degree-0 root, retargeting the cached
    /// minimum index when the new key undercuts the current minimum.
    pub fn push(&mut self, value: u64)
        requires
            old(self).wf(),
            old(self)@.len() < usize::MAX,
        ensures
            final(self).wf(),
            final(self)@ == old(self)@.insert(value),
            final(self)@.len() == old(self)@.len() + 1,
    {
        if !self.roots.is_empty() {
            let cur = self.roots[self.top_index].value();
            if value < cur {
                self.top_index = self.roots.len();
            }
        }
        let ghost pre = *self;
        let leaf = Node::new(value);
        let ghost lf = leaf;
        self.roots.push(leaf);
        self.len = self.len + 1;
        proof {
            lemma_forest_ms_push(pre.roots@, lf);
            assert(self@ =~= old(self)@.insert(value));
            assert forall|i: int| 0 <= i < self.roots@.len() implies node_ok(
                #[trigger] self.roots@[i],
            ) by {
                if i < pre.roots@.len() {
                    assert(self.roots@[i] == pre.roots@[i]);
                    assert(node_ok(old(self).roots@[i]));
                }
            }
            let m = self.roots@[self.top_index as int].value;
            assert forall|v: u64| self@.count(v) > 0 implies m <= v by {
                assert(self@.count(v) == old(self)@.count(v) + Multiset::empty().insert(
                    value,
                ).count(v));
                if old(self)@.len() > 0 {
                    let oldtop = old(self).roots@[old(self).top_index as int].value;
                    if value < oldtop {
                        assert(self.roots@[self.top_index as int] == lf);
                    } else {
                        assert(self.roots@[self.top_index as int] == old(
                            self,
                        ).roots@[old(self).top_index as int]);
                    }
                } else {
                    assert(self.roots@[self.top_index as int] == lf);
                    assert(old(self)@.count(v) == 0) by {
                        assert(pre.roots@.len() == 0);
                    }
                }
            }
            assert(self@.count(m) > 0) by {
                assert(self@.count(self.roots@[self.top_index as int].value) > 0) by {
                    lemma_forest_contains_root(self.roots@, self.top_index as int);
                }
            }
        }
    }

    /// Extract-minimum. Detaches the minimum root, promotes its children to
    /// candidate roots beside every other former root, carry-merges the
    /// candidates into a degree table, and rebuilds the forest from the
    /// table through the running-minimum reduction, so the new minimum again
    /// sits at the cached index. On an empty heap: `None`, no change.
    pub fn pop(&mut self) -> (r: Option<u64>)
        requires
            old(self).wf(),
        ensures
            final(self).wf(),
            old(self)@.len() == 0 ==> r is None && *final(self) == *old(self),
            old(self)@.len() > 0 ==> (r matches Some(m) && is_min_of(m, old(self)@)
                && final(self)@ == old(self)@.remove(m)
                && final(self)@.len() == old(self)@.len() - 1),
    {
        if self.len == 0 {
            return None;
        }
        let top = self.top_index;
        let ghost roots0 = self.roots@;
        let ghost m = roots0[top as int].value;
        let mut table: Vec<Option<Node>> = Vec::new();
        let mut ret: u64 = 0;

        proof {
            assert(forest_ms(Seq::<Node>::empty()) == Multiset::<u64>::empty());
            assert(roots0.take(roots0.len() as int) =~= roots0);
        }
        // Feed the forest into the degree table, back to front. The
        // minimum root contributes its children and surrenders its key.
        while self.roots.len() > 0
            invariant
                old(self).wf(),
                self.len == old(self).len,
                top == old(self).top_index,
                roots0 == old(self).roots@,
                m == roots0[top as int].value,
                top < roots0.len(),
                self.roots@.len() <= roots0.len(),
                self.roots@ == roots0.take(self.roots@.len() as int),
                table_ok(table@),
                self.roots@.len() > top ==> table_ms(table@).add(forest_ms(self.roots@)) =~= forest_ms(roots0),
                self.roots@.len() <= top ==> ret == m && table_ms(table@).add(
                    forest_ms(self.roots@),
                ).insert(m) =~= forest_ms(roots0),
            decreases self.roots@.len(),
        {
            let ghost r_pre = self.roots@;
            let ghost t_pre = table@;
            let k = self.roots.len() - 1;
            let node = self.roots.pop().unwrap();
            let ghost nd = node;
            proof {
                assert(r_pre == roots0.take(k + 1));
                assert(self.roots@ =~= roots0.take(k as int));
                assert(nd == roots0[k as int]);
                assert(node_ok(nd));
                assert(roots0.take(k as int).push(nd) =~= roots0.take(k + 1));
                lemma_forest_ms_push(roots0.take(k as int), nd);
            }
            if k == top {
                let Node { value, children: mut cs } = node;
                ret = value;
                let ghost cs0 = cs@;
                let ghost t_in = table@;
                proof {
                    assert(node_ms(nd) == forest_ms(cs0).insert(value));
                    assert(cs0.take(cs0.len() as int) =~= cs0);
                }
                while cs.len() > 0
                    invariant
                        table_ok(table@),
                        node_ok(nd),
                        cs0 == nd.children@,
                        cs@.len() <= cs0.len(),
                        cs@ == cs0.take(cs@.len() as int),
                        table_ms(table@).add(forest_ms(cs@)) =~= table_ms(t_in).add(
                            forest_ms(cs0),
                        ),
                    decreases cs@.len(),
                {
                    let ghost c_pre = cs@;
                    let ghost tt_pre = table@;
                    let j = cs.len() - 1;
                    let c = cs.pop().unwrap();
                    let ghost cc = c;
                    proof {
                        assert(cs@ =~= cs0.take(j as int));
                        assert(cc == cs0[j as int]);
                        assert(node_ok(cc)) by {
                            assert(node_ok(nd));
                            assert(node_ok(nd.children@[j as int]));
                        }
                        assert(cs0.take(j as int).push(cc) =~= cs0.take(j + 1));
                        lemma_forest_ms_push(cs0.take(j as int), cc);
                    }
                    map_update(&mut table, c);
                    proof {
                        assert_multisets_equal!(table_ms(table@).add(forest_ms(cs@)), table_ms(t_in).add(forest_ms(cs0)), v => {
                            assert(table_ms(table@).count(v) == table_ms(tt_pre).add(
                                node_ms(cc),
                            ).count(v));
                            assert(table_ms(tt_pre).add(forest_ms(c_pre)).count(v) == table_ms(
                                t_in,
                            ).add(forest_ms(cs0)).count(v));
                            assert(forest_ms(c_pre).count(v) == forest_ms(cs@).add(
                                node_ms(cc),
                            ).count(v));
                        });
                    }
                }
                proof {
                    assert(forest_ms(cs@) == Multiset::<u64>::empty()) by {
                        assert(cs@ =~= Seq::<Node>::empty());
                    }
                    assert(value == m);
                    assert_multisets_equal!(table_ms(table@).add(forest_ms(self.roots@)).insert(m), forest_ms(roots0), v => {
                        assert(table_ms(table@).add(forest_ms(cs@)).count(v) == table_ms(
                            t_in,
                        ).add(forest_ms(cs0)).count(v));
                        assert(forest_ms(cs@).count(v) == 0);
                        assert(node_ms(nd).count(v) == forest_ms(cs0).insert(value).count(v));
                        assert(forest_ms(cs0).insert(value).count(v) == forest_ms(cs0).add(
                            Multiset::singleton(value),
                        ).count(v));
                        assert(t_pre.len() == 0 ==> table_ms(t_pre) == Multiset::<u64>::empty());
                        assert(table_ms(t_pre).add(forest_ms(r_pre)).count(v) == forest_ms(
                            roots0,
                        ).count(v));
                        assert(forest_ms(r_pre).count(v) == forest_ms(self.roots@).add(
                            node_ms(nd),
                        ).count(v));
                        assert(table_ms(table@).add(forest_ms(self.roots@)).insert(m).count(v)
                            == table_ms(table@).add(forest_ms(self.roots@)).add(
                            Multiset::singleton(m),
                        ).count(v));
                    });
                }
            } else {
                map_update(&mut table, node);
                proof {
                    if k > top {
                        assert_multisets_equal!(table_ms(table@).add(forest_ms(self.roots@)), forest_ms(roots0), v => {
                            assert(table_ms(table@).count(v) == table_ms(t_pre).add(
                                node_ms(nd),
                            ).count(v));
                            assert(table_ms(t_pre).add(forest_ms(r_pre)).count(v) == forest_ms(
                                roots0,
                            ).count(v));
                            assert(forest_ms(r_pre).count(v) == forest_ms(self.roots@).add(
                                node_ms(nd),
                            ).count(v));
                        });
                    } else {
                        assert_multisets_equal!(table_ms(table@).add(forest_ms(self.roots@)).insert(m), forest_ms(roots0), v => {
                            assert(table_ms(table@).count(v) == table_ms(t_pre).add(
                                node_ms(nd),
                            ).count(v));
                            assert(table_ms(t_pre).add(forest_ms(r_pre)).insert(m).count(v)
                                == forest_ms(roots0).count(v));
                            assert(table_ms(t_pre).add(forest_ms(r_pre)).insert(m).count(v)
                                == table_ms(t_pre).add(forest_ms(r_pre)).add(
                                Multiset::singleton(m),
                            ).count(v));
                            assert(table_ms(table@).add(forest_ms(self.roots@)).insert(m).count(
                                v,
                            ) == table_ms(table@).add(forest_ms(self.roots@)).add(
                                Multiset::singleton(m),
                            ).count(v));
                            assert(forest_ms(r_pre).count(v) == forest_ms(self.roots@).add(
                                node_ms(nd),
                            ).count(v));
                        });
                    }
                }
            }
        }
        let ghost t_full = table@;
        proof {
            assert(forest_ms(self.roots@) == Multiset::<u64>::empty()) by {
                assert(self.roots@ =~= Seq::<Node>::empty());
            }
            assert_multisets_equal!(table_ms(t_full).insert(m), old(self)@, v => {
                assert(table_ms(t_full).add(forest_ms(self.roots@)).insert(m).count(v)
                    == forest_ms(roots0).count(v));
                assert(table_ms(t_full).add(forest_ms(self.roots@)).insert(m).count(v)
                    == table_ms(t_full).add(forest_ms(self.roots@)).add(
                    Multiset::singleton(m),
                ).count(v));
                assert(table_ms(t_full).insert(m).count(v) == table_ms(t_full).add(
                    Multiset::singleton(m),
                ).count(v));
            });
            assert(is_min_of(m, old(self)@));
        }

        // Rebuild the forest from the table through the running-minimum
        // reduction: every surviving tree is emitted, the least-keyed one
        // last, so the cached minimum index is the final position.
        let mut newroots: Vec<Node> = Vec::new();
        let mut pending: Option<Node> = None;
        while table.len() > 0
            invariant
                table_ok(table@),
                forall|i: int| 0 <= i < newroots@.len() ==> node_ok(#[trigger] newroots@[i]),
                pending matches Some(p) ==> node_ok(p) && (forall|i: int|
                    0 <= i < newroots@.len() ==> p.value <= #[trigger] newroots@[i].value),
                pending is None ==> newroots@.len() == 0 && table_ms(t_full) == table_ms(table@),
                forest_ms(newroots@).add(slot_ms(pending)).add(table_ms(table@)) =~= table_ms(
                    t_full,
                ),
            decreases table@.len(),
        {
            let ghost tb_pre = table@;
            let ghost nr_pre = newroots@;
            let ghost p_pre = pending;
            let slot = table.pop().unwrap();
            let ghost sl = slot;
            proof {
                assert(tb_pre =~= table@.push(sl));
                lemma_table_push(table@, sl);
                assert forall|i: int| 0 <= i < table@.len() implies slot_ok(
                    #[trigger] table@[i],
                ) by {
                    assert(table@[i] == tb_pre[i]);
                    assert(slot_ok(tb_pre[i]));
                }
                assert(slot_ok(sl)) by {
                    assert(slot_ok(tb_pre[tb_pre.len() - 1]));
                }
            }
            match slot {
                None => {
                    proof {
                        assert(slot_ms(sl) == Multiset::<u64>::empty());
                        assert_multisets_equal!(forest_ms(newroots@).add(slot_ms(pending)).add(table_ms(table@)), table_ms(t_full), v => {
                            assert(table_ms(tb_pre).count(v) == table_ms(table@).add(
                                slot_ms(sl),
                            ).count(v));
                        });
                    }
                },
                Some(node) => {
                    let ghost en = node;
                    match pending {
                        None => {
                            pending = Some(node);
                            proof {
                                assert(forest_ms(newroots@) == Multiset::<u64>::empty()) by {
                                    assert(newroots@ =~= Seq::<Node>::empty());
                                }
                                assert_multisets_equal!(forest_ms(newroots@).add(slot_ms(pending)).add(table_ms(table@)), table_ms(t_full), v => {
                                    assert(table_ms(tb_pre).count(v) == table_ms(table@).add(
                                        slot_ms(sl),
                                    ).count(v));
                                    assert(forest_ms(nr_pre).add(slot_ms(p_pre)).add(table_ms(
                                        tb_pre,
                                    )).count(v) == table_ms(t_full).count(v));
                                });
                            }
                        },
                        Some(prev) => {
                            let ghost pv = prev;
                            if node.value() > prev.value() {
                                let ghost b0 = newroots@;
                                newroots.push(node);
                                pending = Some(prev);
                                proof {
                                    lemma_forest_ms_push(b0, en);
                                }
                            } else {
                                let ghost b0 = newroots@;
                                newroots.push(prev);
                                pending = Some(node);
                                proof {
                                    lemma_forest_ms_push(b0, pv);
                                }
                            }
                            proof {
                                assert forall|i: int| 0 <= i < newroots@.len() implies node_ok(
                                    #[trigger] newroots@[i],
                                ) by {
                                    if i < nr_pre.len() {
                                        assert(newroots@[i] == nr_pre[i]);
                                    }
                                }
                                assert(pending matches Some(p) ==> node_ok(p) && (forall|i: int|
                                    0 <= i < newroots@.len() ==> p.value
                                        <= #[trigger] newroots@[i].value)) by {
                                    let p = pending.unwrap();
                                    assert forall|i: int| 0 <= i < newroots@.len() implies p.value
                                        <= #[trigger] newroots@[i].value by {
                                        if i < nr_pre.len() {
                                            assert(newroots@[i] == nr_pre[i]);
                                            assert(pv.value <= nr_pre[i].value);
                                        }
                                    }
                                }
                                assert_multisets_equal!(forest_ms(newroots@).add(slot_ms(pending)).add(table_ms(table@)), table_ms(t_full), v => {
                                    assert(table_ms(tb_pre).count(v) == table_ms(table@).add(
                                        slot_ms(sl),
                                    ).count(v));
                                    assert(forest_ms(nr_pre).add(slot_ms(p_pre)).add(table_ms(
                                        tb_pre,
                                    )).count(v) == table_ms(t_full).count(v));
                                    assert(forest_ms(newroots@).count(v) == forest_ms(nr_pre).add(
                                        node_ms(if en.value > pv.value {
                                            en
                                        } else {
                                            pv
                                        }),
                                    ).count(v));
                                });
                            }
                        },
                    }
                },
            }
        }
        proof {
            assert(table_ms(table@) == Multiset::<u64>::empty()) by {
                assert(table@ =~= Seq::<Option<Node>>::empty());
            }
        }
        match pending {
            Some(node) => {
                let ghost p = node;
                let ghost nr = newroots@;
                newroots.push(node);
                proof {
                    lemma_forest_ms_push(nr, p);
                }
                self.roots = newroots;
                self.top_index = self.roots.len() - 1;
                self.len = self.len - 1;
                proof {
                    assert(self.roots@[self.top_index as int] == p);
                    assert_multisets_equal!(self@, old(self)@.remove(m), v => {
                        assert(forest_ms(nr).add(slot_ms(Some(p))).add(table_ms(
                            table@,
                        )).count(v) == table_ms(t_full).count(v));
                        assert(self@.count(v) == forest_ms(nr).add(node_ms(p)).count(v));
                        assert(table_ms(t_full).insert(m).count(v) == table_ms(t_full).add(
                            Multiset::singleton(m),
                        ).count(v));
                        assert(old(self)@.remove(m).count(v) == old(self)@.sub(
                            Multiset::singleton(m),
                        ).count(v));
                    });
                    assert(old(self)@.len() == table_ms(t_full).len() + 1) by {
                        assert(table_ms(t_full).insert(m).len() == table_ms(t_full).add(
                            Multiset::singleton(m),
                        ).len());
                    }
                    assert(self@.len() == old(self)@.len() - 1);
                    assert forall|i: int| 0 <= i < self.roots@.len() implies node_ok(
                        #[trigger] self.roots@[i],
                    ) && p.value <= self.roots@[i].value by {
                        if i < nr.len() {
                            assert(self.roots@[i] == nr[i]);
                        }
                    }
                    lemma_forest_min(self.roots@, p.value);
                    lemma_forest_contains_root(self.roots@, self.top_index as int);
                    assert(self.wf());
                }
                Some(ret)
            },
            None => {
                self.roots = newroots;
                self.top_index = 0;
                self.len = 0;
                proof {
                    assert(table_ms(t_full) == Multiset::<u64>::empty());
                    assert(self.roots@ =~= Seq::<Node>::empty());
                    assert(forest_ms(self.roots@) == Multiset::<u64>::empty());
                    assert_multisets_equal!(self@, old(self)@.remove(m), v => {
                        assert(table_ms(t_full).insert(m).count(v) == table_ms(t_full).add(
                            Multiset::singleton(m),
                        ).count(v));
                        assert(old(self)@.remove(m).count(v) == old(self)@.sub(
                            Multiset::singleton(m),
                        ).count(v));
                    });
                    assert(old(self)@.len() == 1) by {
                        assert(table_ms(t_full).insert(m).len() == table_ms(t_full).add(
                            Multiset::singleton(m),
                        ).len());
                    }
                    assert(self.wf());
                }
                Some(ret)
            },
        }
    }

    /// Merge by concatenation, consuming `other`: O(1), no consolidation.
    /// The root lists are concatenated and the cached minimum index is
    /// retargeted to whichever of the two minima is smaller. Equal-degree
    /// roots may coexist afterwards; the next extraction consolidates them,
    /// and extraction order is proved to stay correct regardless.
    pub fn append(&mut self, other: FibonacciHeap)
        requires
            old(self).wf(),
            other.wf(),
            old(self)@.len() + other@.len() <= usize::MAX,
        ensures
            final(self).wf(),
            final(self)@ == old(self)@.add(other@),
            final(self)@.len() == old(self)@.len() + other@.len(),
    {
        if other.is_empty() {
            proof {
                assert(self@ =~= old(self)@.add(other@));
            }
            return ;
        }
        if self.is_empty() {
            let FibonacciHeap { roots, top_index, len } = other;
            self.roots = roots;
            self.top_index = top_index;
            self.len = len;
            proof {
                assert(self@ =~= old(self)@.add(other@));
            }
            return ;
        }
        let my_top = self.roots[self.top_index].value();
        let FibonacciHeap { roots: mut oroots, top_index: otop, len: olen } = other;
        let their_top = oroots[otop].value();
        proof {
            lemma_forest_len(self.roots@);
            lemma_forest_len(oroots@);
        }
        if my_top > their_top {
            self.top_index = self.roots.len() + otop;
        }
        let ghost r1 = self.roots@;
        let ghost r2 = oroots@;
        self.roots.append(&mut oroots);
        self.len = self.len + olen;
        proof {
            lemma_forest_ms_concat(r1, r2);
            assert(self.roots@ == r1 + r2);
            assert(self@ == old(self)@.add(other@));
            assert forall|i: int| 0 <= i < self.roots@.len() implies node_ok(
                #[trigger] self.roots@[i],
            ) by {
                if i < r1.len() {
                    assert((r1 + r2)[i] == r1[i]);
                    assert(node_ok(old(self).roots@[i]));
                } else {
                    assert((r1 + r2)[i] == r2[i - r1.len()]);
                    assert(node_ok(other.roots@[i - r1.len()]));
                }
            }
            let t = self.roots@[self.top_index as int].value;
            assert forall|v: u64| self@.count(v) > 0 implies t <= v by {
                assert(self@.count(v) == old(self)@.count(v) + other@.count(v));
                if my_top > their_top {
                    assert((r1 + r2)[self.top_index as int] == r2[otop as int]);
                } else {
                    assert((r1 + r2)[self.top_index as int] == r1[old(self).top_index as int]);
                }
            }
            assert(self@.count(t) > 0) by {
                lemma_forest_contains_root(self.roots@, self.top_index as int);
            }
        }
    }

    /// Exhaustive drain: repeatedly extracts the minimum until the heap is
    /// empty, consuming it. The result holds exactly the heap's keys, in
    /// non-decreasing order.
    pub fn into_vec(self) -> (r: Vec<u64>)
        requires
            self.wf(),
        ensures
            r@.to_multiset() == self@,
            r@.len() == self@.len(),
            sorted(r@),
    {
        let ghost orig = self@;
        let mut h = self;
        let mut vec: Vec<u64> = Vec::with_capacity(h.len());
        proof {
            assert(Seq::<u64>::empty().to_multiset() =~= Multiset::<u64>::empty());
            assert(vec@.to_multiset().add(h@) =~= orig);
        }
        loop
            invariant
                h.wf(),
                vec@.to_multiset().add(h@) =~= orig,
                sorted(vec@),
                forall|j: int, v: u64|
                    #![trigger vec@[j], h@.count(v)]
                    0 <= j < vec@.len() && h@.count(v) > 0 ==> vec@[j] <= v,
            ensures
                h@.len() == 0,
                vec@.to_multiset().add(h@) =~= orig,
                sorted(vec@),
            decreases h@.len(),
        {
            let ghost hp = h@;
            let ghost vec0 = vec@;
            match h.pop() {
                None => { break ; },
                Some(value) => {
                    vec.push(value);
                    proof {
                        assert(vec@ == vec0.push(value));
                        assert(vec@.to_multiset() =~= vec0.to_multiset().insert(value));
                        assert_multisets_equal!(vec@.to_multiset().add(h@), orig, v => {
                            assert(vec0.to_multiset().add(hp).count(v) == orig.count(v));
                            assert(h@.count(v) == hp.remove(value).count(v));
                            assert(hp.remove(value).count(v) == hp.sub(
                                Multiset::singleton(value),
                            ).count(v));
                        });
                        assert forall|i: int, j: int| 0 <= i <= j < vec@.len() implies vec@[i]
                            <= vec@[j] by {
                            if j < vec0.len() {
                                assert(vec@[i] == vec0[i] && vec@[j] == vec0[j]);
                            } else {
                                assert(vec@[j] == value);
                                if i < vec0.len() {
                                    assert(vec@[i] == vec0[i]);
                                    assert(vec0[i] <= value) by {
                                        assert(hp.count(value) > 0);
                                    }
                                }
                            }
                        }
                        assert forall|j: int, v: u64|
                            0 <= j < vec@.len() && #[trigger] h@.count(v) > 0 implies #[trigger] vec@[j]
                            <= v by {
                            assert(hp.count(v) >= h@.count(v)) by {
                                assert(h@.count(v) == hp.sub(Multiset::singleton(value)).count(v));
                            }
                            if j < vec0.len() {
                                assert(vec@[j] == vec0[j]);
                            } else {
                                assert(vec@[j] == value);
                                assert(is_min_of(value, hp));
                            }
                        }
                    }
                },
            }
        }
        proof {
            assert_multisets_equal!(vec@.to_multiset(), orig, v => {
                assert(vec@.to_multiset().add(h@).count(v) == orig.count(v));
                assert(h@.count(v) == 0) by {
                    assert(h@.count(v) <= h@.len());
                }
            });
        }
        vec
    }
}

impl Default for FibonacciHeap {
    /// The empty heap: no roots, count zero.
    fn default() -> (r: Self)
        ensures
            r.wf(),
            r@ =~= Multiset::<u64>::empty(),
    {
        let r = FibonacciHeap { roots: Vec::new(), top_index: 0, len: 0 };
        proof {
            assert(forest_ms(r.roots@) =~= Multiset::empty());
        }
        r
    }
}

} // verus!
