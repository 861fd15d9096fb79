//! Every prefix-free list of code words is matched by a weighted tree: it
//! carries the same weights on its leaves and costs no more than the code
//! words do.

use crate::shape::Shape;
use vstd::multiset::Multiset;
use vstd::prelude::*;

verus! {

/// A code word with the weight of its symbol.
pub type Item = (Seq<bool>, nat);

/// The sum of the lengths of the code words.
pub open spec fn total_len(items: Seq<Item>) -> nat
    decreases items.len(),
{
    if items.len() == 0 {
        0
    } else {
        total_len(items.drop_last()) + items.last().0.len()
    }
}

/// The sum over the items of weight times length of the code word.
pub open spec fn weighted_len(items: Seq<Item>) -> nat
    decreases items.len(),
{
    if items.len() == 0 {
        0
    } else {
        weighted_len(items.drop_last()) + items.last().1 * items.last().0.len()
    }
}

/// The sum of the weights.
pub open spec fn total_weight(items: Seq<Item>) -> nat
    decreases items.len(),
{
    if items.len() == 0 {
        0
    } else {
        total_weight(items.drop_last()) + items.last().1
    }
}

/// The weights, each as often as it occurs.
pub open spec fn weights(items: Seq<Item>) -> Multiset<nat>
    decreases items.len(),
{
    if items.len() == 0 {
        Multiset::<nat>::empty()
    } else {
        weights(items.drop_last()).insert(items.last().1)
    }
}

/// The items whose code word starts with the bit `b`, each without that
/// bit.
pub open spec fn split(items: Seq<Item>, b: bool) -> Seq<Item>
    decreases items.len(),
{
    if items.len() == 0 {
        Seq::<Item>::empty()
    } else {
        let rest = split(items.drop_last(), b);
        let last = items.last();
        if last.0.len() > 0 && last.0[0] == b {
            rest.push((last.0.drop_first(), last.1))
        } else {
            rest
        }
    }
}

/// Whether no code word of the list is a prefix of another.
pub open spec fn list_prefix_free(items: Seq<Item>) -> bool {
    forall|i: int, j: int|
        0 <= i < items.len() && 0 <= j < items.len() && i != j ==> !(#[trigger] items[i]).0.is_prefix_of(
            (#[trigger] items[j]).0,
        )
}

/// Whether no code word of the list is empty.
pub open spec fn none_empty(items: Seq<Item>) -> bool {
    forall|i: int| 0 <= i < items.len() ==> (#[trigger] items[i]).0.len() > 0
}

/// Whether each item of `part` is an item of `items` whose code word
/// starts with `b`, without that bit.
pub open spec fn taken_from(part: Seq<Item>, items: Seq<Item>, b: bool) -> bool {
    forall|k: int|
        0 <= k < part.len() ==> exists|i: int|
            0 <= i < items.len() && (#[trigger] items[i]).0.len() > 0 && items[i].0[0] == b
                && #[trigger] part[k] == (items[i].0.drop_first(), items[i].1)
}

/// Splitting by the first bit shares out the items: lengths, weights and
/// weighted lengths add up.
pub proof fn lemma_split_sums(items: Seq<Item>)
    requires
        none_empty(items),
    ensures
        split(items, false).len() + split(items, true).len() == items.len(),
        total_len(split(items, false)) + total_len(split(items, true)) + items.len()
            == total_len(items),
        total_weight(split(items, false)) + total_weight(split(items, true)) == total_weight(
            items,
        ),
        weighted_len(split(items, false)) + weighted_len(split(items, true)) + total_weight(items)
            == weighted_len(items),
        weights(split(items, false)).add(weights(split(items, true))) == weights(items),
    decreases items.len(),
{
    if items.len() == 0 {
        assert(weights(split(items, false)).add(weights(split(items, true))) =~= weights(items));
    } else {
        let front = items.drop_last();
        let last = items.last();
        assert forall|i: int| 0 <= i < front.len() implies (#[trigger] front[i]).0.len() > 0 by {
            assert(front[i] == items[i]);
        }
        lemma_split_sums(front);
        assert(items[items.len() - 1].0.len() > 0);
        let b = last.0[0];
        let cut = (last.0.drop_first(), last.1);
        let part = split(items, b);
        assert(part == split(front, b).push(cut));
        assert(split(items, !b) == split(front, !b));
        assert(part.drop_last() =~= split(front, b));
        assert(part.last() == cut);
        assert(last.1 * last.0.len() == last.1 * cut.0.len() + last.1) by (nonlinear_arith)
            requires
                last.0.len() == cut.0.len() + 1,
        ;
        assert(weights(split(items, false)).add(weights(split(items, true))) =~= weights(items));
    }
}

/// Each item of a part comes from an item of the list.
pub proof fn lemma_split_taken(items: Seq<Item>, b: bool)
    ensures
        taken_from(split(items, b), items, b),
    decreases items.len(),
{
    if items.len() > 0 {
        let front = items.drop_last();
        let last = items.last();
        lemma_split_taken(front, b);
        let part = split(items, b);
        assert forall|k: int| 0 <= k < part.len() implies exists|i: int|
            0 <= i < items.len() && (#[trigger] items[i]).0.len() > 0 && items[i].0[0] == b
                && #[trigger] part[k] == (items[i].0.drop_first(), items[i].1) by {
            if k < split(front, b).len() {
                assert(part[k] == split(front, b)[k]);
                let i = choose|i: int|
                    0 <= i < front.len() && (#[trigger] front[i]).0.len() > 0 && front[i].0[0] == b
                        && split(front, b)[k] == (front[i].0.drop_first(), front[i].1);
                assert(front[i] == items[i]);
            } else {
                let i = items.len() - 1;
                assert(part[k] == (items[i].0.drop_first(), items[i].1));
            }
        }
    }
}

/// A code word is a prefix of another if both start with the same bit and
/// this holds of what follows.
pub proof fn lemma_prefix_step(a: Seq<bool>, c: Seq<bool>)
    requires
        a.len() > 0,
        c.len() > 0,
        a[0] == c[0],
        a.drop_first().is_prefix_of(c.drop_first()),
    ensures
        a.is_prefix_of(c),
{
    let a1 = a.drop_first();
    let c1 = c.drop_first();
    assert(a1 == c1.subrange(0, a1.len() as int));
    assert forall|i: int| 0 <= i < a.len() implies a[i] == c.subrange(0, a.len() as int)[i] by {
        if i > 0 {
            assert(a[i] == a1[i - 1]);
            assert(a1[i - 1] == c1.subrange(0, a1.len() as int)[i - 1]);
            assert(c1[i - 1] == c[i]);
        }
    }
    assert(a =~= c.subrange(0, a.len() as int));
}

/// The parts of a prefix-free list are prefix-free.
pub proof fn lemma_split_prefix_free(items: Seq<Item>, b: bool)
    requires
        list_prefix_free(items),
    ensures
        list_prefix_free(split(items, b)),
    decreases items.len(),
{
    if items.len() > 0 {
        let front = items.drop_last();
        let last = items.last();
        assert forall|i: int, j: int|
            0 <= i < front.len() && 0 <= j < front.len() && i != j implies !(#[trigger] front[i]).0.is_prefix_of(
            (#[trigger] front[j]).0,
        ) by {
            assert(front[i] == items[i] && front[j] == items[j]);
        }
        lemma_split_prefix_free(front, b);
        lemma_split_taken(front, b);
        let rest = split(front, b);
        let part = split(items, b);
        if part.len() > rest.len() {
            let n = items.len() - 1;
            let cut = (last.0.drop_first(), last.1);
            assert forall|i: int, j: int|
                0 <= i < part.len() && 0 <= j < part.len() && i != j implies !(#[trigger] part[i]).0.is_prefix_of(
                (#[trigger] part[j]).0,
            ) by {
                if i < rest.len() && j < rest.len() {
                    assert(part[i] == rest[i] && part[j] == rest[j]);
                } else {
                    let k = if i < rest.len() {
                        i
                    } else {
                        j
                    };
                    assert(part[k] == rest[k]);
                    let o = choose|o: int|
                        0 <= o < front.len() && (#[trigger] front[o]).0.len() > 0 && front[o].0[0]
                            == b && rest[k] == (front[o].0.drop_first(), front[o].1);
                    assert(front[o] == items[o]);
                    assert(part[rest.len() as int] == cut);
                    if i < rest.len() {
                        if part[i].0.is_prefix_of(part[j].0) {
                            lemma_prefix_step(items[o].0, items[n].0);
                        }
                    } else {
                        if part[i].0.is_prefix_of(part[j].0) {
                            lemma_prefix_step(items[n].0, items[o].0);
                        }
                    }
                }
            }
        }
    }
}

/// A prefix-free list of code words is matched by a weighted tree: the
/// tree returned carries the weights of the list on its leaves, and its
/// cost is no more than the weighted length of the list.
pub proof fn lemma_code_tree(items: Seq<Item>) -> (u: Shape)
    requires
        items.len() >= 1,
        list_prefix_free(items),
    ensures
        u.leaf_weights() == weights(items),
        u.weight() == total_weight(items),
        u.cost() <= weighted_len(items),
    decreases total_len(items),
{
    if items.len() == 1 {
        assert(items.drop_last().len() == 0);
        assert(weights(items.drop_last()) =~= Multiset::<nat>::empty());
        assert(total_weight(items.drop_last()) == 0);
        let u = Shape::Tip { w: items[0].1 };
        assert(u.leaf_weights() =~= weights(items));
        u
    } else {
        assert forall|i: int| 0 <= i < items.len() implies (#[trigger] items[i]).0.len() > 0 by {
            let j = if i == 0 {
                1int
            } else {
                0int
            };
            if items[i].0.len() == 0 {
                assert(items[i].0 =~= items[j].0.subrange(0, 0));
                assert(items[i].0.is_prefix_of(items[j].0));
            }
        }
        let zeros = split(items, false);
        let ones = split(items, true);
        lemma_split_sums(items);
        lemma_split_prefix_free(items, false);
        lemma_split_prefix_free(items, true);
        if zeros.len() == 0 {
            assert(weights(zeros) =~= Multiset::<nat>::empty());
            let u = lemma_code_tree(ones);
            assert(u.leaf_weights() =~= weights(items));
            u
        } else if ones.len() == 0 {
            assert(weights(ones) =~= Multiset::<nat>::empty());
            let u = lemma_code_tree(zeros);
            assert(u.leaf_weights() =~= weights(items));
            u
        } else {
            let l = lemma_code_tree(zeros);
            let r = lemma_code_tree(ones);
            Shape::Fork { l: Box::new(l), r: Box::new(r) }
        }
    }
}

} // verus!
