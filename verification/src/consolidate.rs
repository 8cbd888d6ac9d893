//! The consolidation step of extraction: a degree-indexed table of trees and
//! the carry-merge that collapses equal-degree collisions, cascading like
//! binary-counter carry propagation.

use crate::node::node_ms;
use crate::node::node_ok;
use crate::node::Node;
use vstd::assert_multisets_equal;
use vstd::multiset::Multiset;
use vstd::prelude::*;

verus! {

broadcast use vstd::multiset::group_multiset_axioms;

/// The keys held by one table slot.
pub(crate) open spec fn slot_ms(s: Option<Node>) -> Multiset<u64> {
    match s {
        Option::Some(n) => node_ms(n),
        Option::None => Multiset::empty(),
    }
}

/// An occupied slot holds a heap-ordered tree.
pub(crate) open spec fn slot_ok(s: Option<Node>) -> bool {
    match s {
        Option::Some(n) => node_ok(n),
        Option::None => true,
    }
}

/// All keys held across the table.
pub(crate) open spec fn table_ms(t: Seq<Option<Node>>) -> Multiset<u64>
    decreases t,
{
    if t.len() == 0 {
        Multiset::empty()
    } else {
        slot_ms(t[0]).add(table_ms(t.drop_first()))
    }
}

/// Every occupied slot of the table holds a heap-ordered tree.
pub(crate) open spec fn table_ok(t: Seq<Option<Node>>) -> bool {
    forall|i: int| 0 <= i < t.len() ==> slot_ok(#[trigger] t[i])
}

/// 1 for an occupied slot, 0 for a vacant one.
pub(crate) open spec fn slot_count(s: Option<Node>) -> nat {
    if s is Some {
        1nat
    } else {
        0nat
    }
}

/// How many slots of the table are occupied: the carry-merge's termination
/// measure, since every collision vacates one slot.
pub(crate) open spec fn count_some(t: Seq<Option<Node>>) -> nat
    decreases t,
{
    if t.len() == 0 {
        0nat
    } else {
        slot_count(t[0]) + count_some(t.drop_first())
    }
}

/// Appending a slot adds its keys and its occupancy.
pub(crate) proof fn lemma_table_push(t: Seq<Option<Node>>, s: Option<Node>)
    ensures
        table_ms(t.push(s)) == table_ms(t).add(slot_ms(s)),
        count_some(t.push(s)) == count_some(t) + slot_count(s),
    decreases t.len(),
{
    assert(table_ms(t.push(s)) == slot_ms(t.push(s)[0]).add(table_ms(t.push(s).drop_first())));
    assert(count_some(t.push(s)) == slot_count(t.push(s)[0]) + count_some(t.push(s).drop_first()));
    if t.len() == 0 {
        assert(t.push(s).drop_first() =~= Seq::<Option<Node>>::empty());
        assert(table_ms(Seq::<Option<Node>>::empty()) == Multiset::<u64>::empty());
        assert(count_some(Seq::<Option<Node>>::empty()) == 0nat);
        assert(t.push(s)[0] == s);
        assert(table_ms(t.push(s)) =~= table_ms(t).add(slot_ms(s)));
    } else {
        assert(t.push(s).drop_first() =~= t.drop_first().push(s));
        lemma_table_push(t.drop_first(), s);
        assert(t.push(s)[0] == t[0]);
        assert(table_ms(t.push(s)) =~= table_ms(t).add(slot_ms(s)));
    }
}

/// Replacing the slot at `i` exchanges exactly its keys and its occupancy.
pub(crate) proof fn lemma_table_update(t: Seq<Option<Node>>, i: int, s: Option<Node>)
    requires
        0 <= i < t.len(),
    ensures
        table_ms(t.update(i, s)).add(slot_ms(t[i])) == table_ms(t).add(slot_ms(s)),
        count_some(t.update(i, s)) + slot_count(t[i]) == count_some(t) + slot_count(s),
    decreases t.len(),
{
    let u = t.update(i, s);
    assert(table_ms(u) == slot_ms(u[0]).add(table_ms(u.drop_first())));
    assert(count_some(u) == slot_count(u[0]) + count_some(u.drop_first()));
    assert(table_ms(t) == slot_ms(t[0]).add(table_ms(t.drop_first())));
    assert(count_some(t) == slot_count(t[0]) + count_some(t.drop_first()));
    if i == 0 {
        assert(u.drop_first() =~= t.drop_first());
        assert(u[0] == s);
        assert(table_ms(u.drop_first()) == table_ms(t.drop_first()));
        assert(count_some(u.drop_first()) == count_some(t.drop_first()));
        assert_multisets_equal!(table_ms(u).add(slot_ms(t[i])), table_ms(t).add(slot_ms(s)), v => {
            assert(table_ms(u).count(v) == slot_ms(s).count(v) + table_ms(u.drop_first()).count(v));
            assert(table_ms(t).count(v) == slot_ms(t[0]).count(v) + table_ms(
                t.drop_first(),
            ).count(v));
        });
    } else {
        assert(u.drop_first() =~= t.drop_first().update(i - 1, s));
        lemma_table_update(t.drop_first(), i - 1, s);
        assert(t.drop_first()[i - 1] == t[i]);
        assert(u[0] == t[0]);
        assert_multisets_equal!(table_ms(u).add(slot_ms(t[i])), table_ms(t).add(slot_ms(s)), v => {
            assert(table_ms(u).count(v) == slot_ms(t[0]).count(v) + table_ms(
                u.drop_first(),
            ).count(v));
            assert(table_ms(t).count(v) == slot_ms(t[0]).count(v) + table_ms(
                t.drop_first(),
            ).count(v));
            assert(table_ms(u.drop_first()).add(slot_ms(t[i])).count(v) == table_ms(
                t.drop_first(),
            ).add(slot_ms(s)).count(v));
        });
    }
}

/// Vacates and returns the slot at `i`.
fn slot_take(table: &mut Vec<Option<Node>>, i: usize) -> (r: Option<Node>)
    requires
        i < old(table)@.len(),
    ensures
        final(table)@ == old(table)@.update(i as int, None::<Node>),
        r == old(table)@[i as int],
{
    let mut slot: Option<Node> = None;
    core::mem::swap(&mut table[i], &mut slot);
    slot
}

/// Carry-merge of one candidate tree into the degree table. The table is
/// grown so the candidate's degree is in range; on a collision the
/// strictly-smaller-keyed tree absorbs the other as a new child, raising its
/// degree by one, and the attempt repeats at that higher degree. Keys are
/// conserved and heap order is preserved.
pub(crate) fn map_update(table: &mut Vec<Option<Node>>, node: Node)
    requires
        table_ok(old(table)@),
        node_ok(node),
    ensures
        table_ok(final(table)@),
        table_ms(final(table)@) == table_ms(old(table)@).add(node_ms(node)),
{
    let ghost nd = node;
    let mut cur = node;
    loop
        invariant_except_break
            node_ok(cur),
            table_ms(table@).add(node_ms(cur)) =~= table_ms(old(table)@).add(node_ms(nd)),
        invariant
            table_ok(table@),
        ensures
            table_ok(table@),
            table_ms(table@) == table_ms(old(table)@).add(node_ms(nd)),
        decreases count_some(table@),
    {
        let ghost m_start = count_some(table@);
        let ghost t_enter = table@;
        let deg = cur.degree();
        while table.len() <= deg
            invariant
                table_ok(table@),
                table_ms(table@) == table_ms(t_enter),
                count_some(table@) == count_some(t_enter),
            decreases deg + 1 - table@.len(),
        {
            let ghost tb = table@;
            table.push(None);
            proof {
                lemma_table_push(tb, None::<Node>);
                assert(table_ms(table@) =~= table_ms(t_enter));
                assert forall|i: int| 0 <= i < table@.len() implies slot_ok(
                    #[trigger] table@[i],
                ) by {
                    if i < tb.len() {
                        assert(table@[i] == tb[i]);
                    }
                }
            }
        }
        let ghost t0 = table@;
        if table[deg].is_some() {
            let taken = slot_take(table, deg);
            let other = taken.unwrap();
            let ghost c0 = cur;
            let ghost o0 = other;
            proof {
                lemma_table_update(t0, deg as int, None::<Node>);
                assert(slot_ok(t0[deg as int]));
                assert(slot_ms(t0[deg as int]) == node_ms(o0));
                assert(slot_count(t0[deg as int]) == 1nat);
            }
            let (mut winner, loser) = if cur.value() < other.value() {
                (cur, other)
            } else {
                (other, cur)
            };
            let ghost w0 = winner;
            let ghost l0 = loser;
            winner.push_child(loser);
            let ghost w1 = winner;
            cur = winner;
            proof {
                assert(node_ms(w1) == node_ms(w0).add(node_ms(l0)));
                assert(node_ok(w1));
                assert(table@ == t0.update(deg as int, None::<Node>));
                assert(table_ms(table@).add(node_ms(o0)) == table_ms(t0).add(slot_ms(
                    None::<Node>,
                )));
                assert(table_ms(t0) == table_ms(t_enter));
                assert_multisets_equal!(table_ms(table@).add(node_ms(cur)), table_ms(old(table)@).add(node_ms(nd)), v => {
                    assert(table_ms(t_enter).add(node_ms(c0)).count(v) == table_ms(
                        old(table)@,
                    ).add(node_ms(nd)).count(v));
                    assert(table_ms(table@).add(node_ms(o0)).count(v) == table_ms(t0).add(
                        slot_ms(None::<Node>),
                    ).count(v));
                    assert(node_ms(w0).add(node_ms(l0)).count(v) == node_ms(w0).count(v)
                        + node_ms(l0).count(v));
                });
                assert(count_some(table@) < m_start);
            }
        } else {
            proof {
                lemma_table_update(t0, deg as int, Some(cur));
                assert(slot_ms(t0[deg as int]) == Multiset::<u64>::empty());
            }
            let ghost c0 = cur;
            table[deg] = Some(cur);
            proof {
                assert(table@ == t0.update(deg as int, Some(c0)));
                assert forall|i: int| 0 <= i < table@.len() implies slot_ok(
                    #[trigger] table@[i],
                ) by {
                    if i != deg as int {
                        assert(table@[i] == t0[i]);
                    }
                }
                assert(table_ms(table@) =~= table_ms(old(table)@).add(node_ms(nd)));
            }
            break ;
        }
    }
}

} // verus!
