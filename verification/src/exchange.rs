//! The exchange argument: in any weighted tree the two least weights can
//! be brought side by side to the greatest depth and merged into one leaf,
//! and the cost falls by their sum at least.

use crate::shape::{differ, Shape};
use vstd::multiset::Multiset;
use vstd::prelude::*;

verus! {

/// Whether `a` is no greater than any member of `m`.
pub open spec fn at_most_all(a: nat, m: Multiset<nat>) -> bool {
    forall|w: nat| m.count(w) >= 1 ==> a <= w
}

/// The parent of two leaves with the weights `c` and `d`.
pub open spec fn pair(c: nat, d: nat) -> Shape {
    Shape::Fork { l: Box::new(Shape::Tip { w: c }), r: Box::new(Shape::Tip { w: d }) }
}

/// What holds of the parent of two leaves.
pub proof fn lemma_pair(c: nat, d: nat)
    ensures
        pair(c, d).cost() == c + d,
        pair(c, d).weight() == c + d,
        pair(c, d).height() == 1,
        pair(c, d).leaf_weights() == Multiset::<nat>::singleton(c).add(
            Multiset::<nat>::singleton(d),
        ),
{
    let l = Shape::Tip { w: c };
    let r = Shape::Tip { w: d };
    assert(l.cost() == 0 && r.cost() == 0);
    assert(l.weight() == c && r.weight() == d);
    assert(l.height() == 0 && r.height() == 0);
    assert(l.leaf_weights() == Multiset::<nat>::singleton(c));
    assert(r.leaf_weights() == Multiset::<nat>::singleton(d));
}

/// Paths that part do so whichever is named first.
pub proof fn lemma_differ_sym(p: Seq<bool>, q: Seq<bool>)
    requires
        differ(p, q),
    ensures
        differ(q, p),
    decreases p.len(),
{
    if p[0] == q[0] {
        lemma_differ_sym(p.drop_first(), q.drop_first());
    }
}

/// No path parts from itself.
pub proof fn lemma_differ_irreflexive(p: Seq<bool>)
    ensures
        !differ(p, p),
    decreases p.len(),
{
    if p.len() > 0 {
        lemma_differ_irreflexive(p.drop_first());
    }
}

/// A path into one of two leaves side by side leads to that leaf.
pub proof fn lemma_pair_tips(u: Shape, p: Seq<bool>, c: nat, d: nat)
    requires
        u.reaches(p),
        u.descend(p) == pair(c, d),
    ensures
        u.tip_at(p.push(false), c),
        u.tip_at(p.push(true), d),
    decreases p.len(),
{
    let x = p.push(false);
    let y = p.push(true);
    if p.len() == 0 {
        assert(x[0] == false && y[0] == true);
        assert(x.drop_first().len() == 0);
        assert(y.drop_first().len() == 0);
        assert(u.child(false).reaches(x.drop_first()));
        assert(u.child(true).reaches(y.drop_first()));
        assert(u.child(false).descend(x.drop_first()) == u.child(false));
        assert(u.child(true).descend(y.drop_first()) == u.child(true));
    } else {
        lemma_pair_tips(u.child(p[0]), p.drop_first(), c, d);
        assert(x[0] == p[0] && y[0] == p[0]);
        assert(x.drop_first() =~= p.drop_first().push(false));
        assert(y.drop_first() =~= p.drop_first().push(true));
    }
}

/// Two leaves side by side can change places: leaves, cost and height
/// stay as they are.
pub proof fn lemma_pair_flip(u: Shape, p: Seq<bool>, c: nat, d: nat) -> (v: Shape)
    requires
        u.reaches(p),
        u.descend(p) == pair(c, d),
    ensures
        v.reaches(p),
        v.descend(p) == pair(d, c),
        v.leaf_weights() == u.leaf_weights(),
        v.cost() == u.cost(),
        v.height() == u.height(),
{
    let v = u.replace(p, pair(d, c));
    u.lemma_replace(p, pair(d, c));
    lemma_pair(c, d);
    lemma_pair(d, c);
    assert(v.leaf_weights() =~= u.leaf_weights()) by {
        assert forall|w: nat| v.leaf_weights().count(w) == u.leaf_weights().count(w) by {
            assert(v.leaf_weights().add(pair(c, d).leaf_weights()).count(w)
                == u.leaf_weights().add(pair(d, c).leaf_weights()).count(w));
        }
    }
    assert(p.len() * (c + d) == p.len() * (d + c)) by (nonlinear_arith);
    v
}

/// A weight that stands elsewhere in the tree can change places with the
/// left one of two deepest leaves side by side, if it is no greater: the
/// leaves and the height stay as they are, and the cost does not grow. The
/// weight that was on the right then stands on the left, and the one
/// brought in on the right.
pub proof fn lemma_pair_swap(
    u: Shape,
    p: Seq<bool>,
    out: nat,
    keep: nat,
    q: Seq<bool>,
    w: nat,
) -> (v: Shape)
    requires
        u.reaches(p),
        u.descend(p) == pair(out, keep),
        p.len() + 1 == u.height(),
        u.tip_at(q, w),
        differ(p, q),
        w <= out,
    ensures
        v.reaches(p),
        v.descend(p) == pair(keep, w),
        v.leaf_weights() == u.leaf_weights(),
        v.cost() <= u.cost(),
        v.height() == u.height(),
{
    let tip_out = Shape::Tip { w: out };
    let tip_w = Shape::Tip { w };
    let u1 = u.replace(q, tip_out);
    u.lemma_replace(q, tip_out);
    u.lemma_depth(q);
    lemma_differ_sym(p, q);
    u.lemma_replace_elsewhere(q, tip_out, p);
    let v = u1.replace(p, pair(keep, w));
    u1.lemma_replace(p, pair(keep, w));
    lemma_pair(out, keep);
    lemma_pair(keep, w);
    assert(tip_out.height() == 0 && tip_w.height() == 0);
    assert(tip_out.cost() == 0 && tip_w.cost() == 0);
    assert(tip_out.weight() == out && tip_w.weight() == w);
    assert(v.leaf_weights() =~= u.leaf_weights()) by {
        assert forall|x: nat| v.leaf_weights().count(x) == u.leaf_weights().count(x) by {
            assert(v.leaf_weights().add(pair(out, keep).leaf_weights()).count(x)
                == u1.leaf_weights().add(pair(keep, w).leaf_weights()).count(x));
            assert(u1.leaf_weights().add(tip_w.leaf_weights()).count(x) == u.leaf_weights().add(
                tip_out.leaf_weights(),
            ).count(x));
        }
    }
    let n = p.len() as int;
    let m = q.len() as int;
    let cu = u.cost() as int;
    let c1 = u1.cost() as int;
    let cv = v.cost() as int;
    assert(c1 + m * w == cu + m * out);
    assert(cv + (out + keep) + n * (out + keep) == c1 + (keep + w) + n * (keep + w));
    assert(cv <= cu) by (nonlinear_arith)
        requires
            c1 + m * w == cu + m * out,
            cv + (out + keep) + n * (out + keep) == c1 + (keep + w) + n * (keep + w),
            w <= out,
            0 <= m <= n + 1,
    ;
    v
}

/// A least weight of a tree can be brought to the right of two deepest
/// leaves side by side: the leaves stay as they are, and the cost does not
/// grow. Returned are the new tree, the path to the parent of the two
/// leaves, and the weight on the left.
pub proof fn lemma_bring_first(u: Shape, a: nat) -> (res: (Shape, Seq<bool>, nat))
    requires
        u is Fork,
        u.leaf_weights().count(a) >= 1,
        at_most_all(a, u.leaf_weights()),
    ensures
        res.0.reaches(res.1),
        res.0.descend(res.1) == pair(res.2, a),
        res.1.len() + 1 == res.0.height(),
        res.0.leaf_weights() == u.leaf_weights(),
        res.0.cost() <= u.cost(),
{
    let p = u.lemma_deepest_pair();
    let d = u.descend(p);
    let x = d.child(false)->w;
    let y = d.child(true)->w;
    assert(d == pair(x, y));
    lemma_pair(x, y);
    lemma_pair_tips(u, p, x, y);
    u.lemma_replace(p, d);
    assert(u.leaf_weights().count(x) >= 1);
    let pa = u.lemma_find_tip(a);
    u.lemma_tip_beside_pair(p, pa, a);
    if pa == p.push(true) {
        (u, p, x)
    } else if pa == p.push(false) {
        (lemma_pair_flip(u, p, x, y), p, y)
    } else {
        (lemma_pair_swap(u, p, x, y, pa, a), p, y)
    }
}

/// Where `a` stands on the right of two deepest leaves side by side, a
/// least weight among the others can be brought to its side: the leaves
/// stay as they are, and the cost does not grow.
pub proof fn lemma_bring_second(u: Shape, p: Seq<bool>, z: nat, a: nat, b: nat) -> (v: Shape)
    requires
        u.reaches(p),
        u.descend(p) == pair(z, a),
        p.len() + 1 == u.height(),
        u.leaf_weights().remove(a).count(b) >= 1,
        at_most_all(b, u.leaf_weights().remove(a)),
    ensures
        v.reaches(p),
        v.descend(p) == pair(a, b) || v.descend(p) == pair(b, a),
        v.leaf_weights() == u.leaf_weights(),
        v.cost() <= u.cost(),
{
    lemma_pair(z, a);
    lemma_pair_tips(u, p, z, a);
    u.lemma_replace(p, pair(z, a));
    assert(u.leaf_weights().remove(a).count(z) >= 1);
    let pb = u.lemma_find_other_tip(p.push(true), a, b);
    u.lemma_tip_beside_pair(p, pb, b);
    lemma_differ_irreflexive(pb);
    if pb == p.push(false) {
        u
    } else {
        lemma_pair_swap(u, p, z, a, pb, b)
    }
}

/// Two leaves side by side can be merged into one leaf that carries the
/// sum of their weights: the cost falls by that sum.
pub proof fn lemma_merge_pair(u: Shape, p: Seq<bool>, c: nat, e: nat) -> (v: Shape)
    requires
        u.reaches(p),
        u.descend(p) == pair(c, e),
    ensures
        v.leaf_weights() == u.leaf_weights().remove(c).remove(e).insert(c + e),
        v.cost() + c + e == u.cost(),
{
    lemma_pair(c, e);
    let merged = Shape::Tip { w: c + e };
    let v = u.replace(p, merged);
    u.lemma_replace(p, merged);
    assert(merged.cost() == 0 && merged.weight() == c + e);
    assert(merged.leaf_weights() == Multiset::<nat>::singleton(c + e));
    assert(v.leaf_weights() =~= u.leaf_weights().remove(c).remove(e).insert(c + e)) by {
        assert forall|k: nat|
            v.leaf_weights().count(k) == u.leaf_weights().remove(c).remove(e).insert(
                c + e,
            ).count(k) by {
            assert(v.leaf_weights().add(pair(c, e).leaf_weights()).count(k)
                == u.leaf_weights().add(merged.leaf_weights()).count(k));
            assert(pair(c, e).leaf_weights().subset_of(u.leaf_weights()));
            assert(pair(c, e).leaf_weights().count(k) <= u.leaf_weights().count(k));
        }
    }
    assert(p.len() * (c + e) == p.len() * merged.weight());
    v
}

/// The exchange step: a tree whose leaves hold `a` as a least weight, and
/// `b` as a least weight among the others, can be turned into a tree that
/// holds one leaf of weight `a + b` in place of these two, and the cost of
/// that tree is lower by `a + b` at least.
pub proof fn lemma_merge_least(u: Shape, a: nat, b: nat) -> (v: Shape)
    requires
        u.leaf_weights().count(a) >= 1,
        u.leaf_weights().remove(a).count(b) >= 1,
        at_most_all(a, u.leaf_weights()),
        at_most_all(b, u.leaf_weights().remove(a)),
    ensures
        v.leaf_weights() == u.leaf_weights().remove(a).remove(b).insert(a + b),
        v.cost() + a + b <= u.cost(),
{
    if u is Tip {
        assert(u.leaf_weights().remove(a) =~= Multiset::<nat>::empty());
    }
    let (u1, p, z) = lemma_bring_first(u, a);
    let u2 = lemma_bring_second(u1, p, z, a, b);
    if u2.descend(p) == pair(a, b) {
        lemma_merge_pair(u2, p, a, b)
    } else {
        let v = lemma_merge_pair(u2, p, b, a);
        assert(u.leaf_weights().remove(b).remove(a) =~= u.leaf_weights().remove(a).remove(b));
        v
    }
}

} // verus!
