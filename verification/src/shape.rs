//! Weighted binary trees without symbols, and how their cost changes when
//! a subtree is replaced. The proof that merging gives a tree of least cost
//! is made on these.

use vstd::multiset::Multiset;
use vstd::prelude::*;

verus! {

/// A binary tree whose leaves carry a weight.
pub enum Shape {
    Tip { w: nat },
    Fork { l: Box<Shape>, r: Box<Shape> },
}

/// Whether two paths part at some step that both take.
pub open spec fn differ(p: Seq<bool>, q: Seq<bool>) -> bool
    decreases p.len(),
{
    p.len() > 0 && q.len() > 0 && (p[0] != q[0] || differ(p.drop_first(), q.drop_first()))
}

impl Shape {
    /// The sum of the weights of all leaves.
    pub open spec fn weight(self) -> nat
        decreases self,
    {
        match self {
            Shape::Fork { l, r } => l.weight() + r.weight(),
            Shape::Tip { w } => w,
        }
    }

    /// The weights of the leaves, each as often as it occurs.
    pub open spec fn leaf_weights(self) -> Multiset<nat>
        decreases self,
    {
        match self {
            Shape::Fork { l, r } => l.leaf_weights().add(r.leaf_weights()),
            Shape::Tip { w } => Multiset::<nat>::singleton(w),
        }
    }

    /// The length of the longest path from the root to a leaf.
    pub open spec fn height(self) -> nat
        decreases self,
    {
        match self {
            Shape::Fork { l, r } => 1 + if l.height() >= r.height() {
                l.height()
            } else {
                r.height()
            },
            Shape::Tip { .. } => 0,
        }
    }

    /// The sum over the leaves of weight times depth.
    pub open spec fn cost(self) -> nat
        decreases self,
    {
        match self {
            Shape::Fork { l, r } => l.cost() + r.cost() + l.weight() + r.weight(),
            Shape::Tip { .. } => 0,
        }
    }

    /// The child that the bit `b` leads to; a leaf stays where it is.
    pub open spec fn child(self, b: bool) -> Shape {
        match self {
            Shape::Fork { l, r } => if b {
                *r
            } else {
                *l
            },
            Shape::Tip { .. } => self,
        }
    }

    /// Whether the path `p` can be walked from the root without stepping
    /// below a leaf.
    pub open spec fn reaches(self, p: Seq<bool>) -> bool
        decreases p.len(),
    {
        p.len() == 0 || (self is Fork && self.child(p[0]).reaches(p.drop_first()))
    }

    /// The subtree that the path `p` leads to.
    pub open spec fn descend(self, p: Seq<bool>) -> Shape
        decreases p.len(),
    {
        if p.len() == 0 {
            self
        } else {
            self.child(p[0]).descend(p.drop_first())
        }
    }

    /// The tree with the subtree at the path `p` replaced by `s`.
    pub open spec fn replace(self, p: Seq<bool>, s: Shape) -> Shape
        decreases p.len(),
    {
        if p.len() == 0 {
            s
        } else {
            match self {
                Shape::Fork { l, r } => if p[0] {
                    Shape::Fork { l, r: Box::new(r.replace(p.drop_first(), s)) }
                } else {
                    Shape::Fork { l: Box::new(l.replace(p.drop_first(), s)), r }
                },
                Shape::Tip { .. } => self,
            }
        }
    }

    /// Whether the path `p` leads to a leaf of weight `w`.
    pub open spec fn tip_at(self, p: Seq<bool>, w: nat) -> bool {
        self.reaches(p) && self.descend(p) == (Shape::Tip { w })
    }

    /// What replacing the subtree at `p` by `s` does to the leaves, the
    /// weight, the cost and the height of a tree.
    pub proof fn lemma_replace(self, p: Seq<bool>, s: Shape)
        requires
            self.reaches(p),
        ensures
            self.replace(p, s).reaches(p),
            self.replace(p, s).descend(p) == s,
            self.replace(p, s).leaf_weights().add(self.descend(p).leaf_weights())
                == self.leaf_weights().add(s.leaf_weights()),
            self.replace(p, s).weight() + self.descend(p).weight() == self.weight() + s.weight(),
            self.replace(p, s).cost() + self.descend(p).cost() + p.len() * self.descend(p).weight()
                == self.cost() + s.cost() + p.len() * s.weight(),
            s.height() == self.descend(p).height() ==> self.replace(p, s).height()
                == self.height(),
            self.descend(p).leaf_weights().subset_of(self.leaf_weights()),
        decreases p.len(),
    {
        let d = self.descend(p);
        let res = self.replace(p, s);
        if p.len() == 0 {
            assert(res.leaf_weights().add(d.leaf_weights()) =~= self.leaf_weights().add(
                s.leaf_weights(),
            ));
        } else {
            let q = p.drop_first();
            let sub = self.child(p[0]);
            let other = self.child(!p[0]);
            sub.lemma_replace(q, s);
            let sub2 = sub.replace(q, s);
            assert(res.child(p[0]) == sub2);
            assert(res.child(!p[0]) == other);
            assert(sub.descend(q) == d);
            assert forall|v: nat|
                res.leaf_weights().add(d.leaf_weights()).count(v) == self.leaf_weights().add(
                    s.leaf_weights(),
                ).count(v) by {
                assert(sub2.leaf_weights().add(d.leaf_weights()).count(v)
                    == sub.leaf_weights().add(s.leaf_weights()).count(v));
            }
            assert(res.leaf_weights().add(d.leaf_weights()) =~= self.leaf_weights().add(
                s.leaf_weights(),
            ));
            assert(p.len() * d.weight() == q.len() * d.weight() + d.weight()) by (nonlinear_arith)
                requires
                    p.len() == q.len() + 1,
            ;
            assert(p.len() * s.weight() == q.len() * s.weight() + s.weight()) by (nonlinear_arith)
                requires
                    p.len() == q.len() + 1,
            ;
            assert(self.cost() == sub.cost() + other.cost() + sub.weight() + other.weight());
            assert(res.cost() == sub2.cost() + other.cost() + sub2.weight() + other.weight());
        }
    }

    /// Replacing the subtree at `p` leaves alone what lies on a path that
    /// parts from `p`.
    pub proof fn lemma_replace_elsewhere(self, p: Seq<bool>, s: Shape, q: Seq<bool>)
        requires
            self.reaches(p),
            self.reaches(q),
            differ(p, q),
        ensures
            self.replace(p, s).reaches(q),
            self.replace(p, s).descend(q) == self.descend(q),
        decreases p.len(),
    {
        let res = self.replace(p, s);
        if p[0] != q[0] {
            assert(res.child(q[0]) == self.child(q[0]));
        } else {
            self.child(p[0]).lemma_replace_elsewhere(p.drop_first(), s, q.drop_first());
            assert(res.child(q[0]) == self.child(p[0]).replace(p.drop_first(), s));
        }
    }

    /// A path that can be walked is no longer than the tree is high.
    pub proof fn lemma_depth(self, p: Seq<bool>)
        requires
            self.reaches(p),
        ensures
            p.len() + self.descend(p).height() <= self.height(),
        decreases p.len(),
    {
        if p.len() > 0 {
            self.child(p[0]).lemma_depth(p.drop_first());
        }
    }

    /// A tree that is no single leaf has, at its greatest depth, two leaves
    /// side by side: the path returned leads to their parent.
    pub proof fn lemma_deepest_pair(self) -> (p: Seq<bool>)
        requires
            self is Fork,
        ensures
            self.reaches(p),
            self.descend(p) is Fork,
            self.descend(p).child(false) is Tip,
            self.descend(p).child(true) is Tip,
            p.len() + 1 == self.height(),
        decreases self,
    {
        let l = self.child(false);
        let r = self.child(true);
        if l is Tip && r is Tip {
            assert(l.height() == 0);
            assert(r.height() == 0);
            Seq::<bool>::empty()
        } else {
            let b = !(l.height() >= r.height());
            let below = self.child(b);
            assert(below is Fork);
            let q = below.lemma_deepest_pair();
            let p = seq![b] + q;
            assert(p[0] == b);
            assert(p.drop_first() =~= q);
            assert(p.len() == q.len() + 1);
            assert(self.height() == 1 + below.height());
            p
        }
    }

    /// Each weight among the leaves stands on a leaf: the path returned
    /// leads to one.
    pub proof fn lemma_find_tip(self, w: nat) -> (p: Seq<bool>)
        requires
            self.leaf_weights().count(w) >= 1,
        ensures
            self.tip_at(p, w),
        decreases self,
    {
        match self {
            Shape::Fork { l, r } => {
                let b = !(l.leaf_weights().count(w) >= 1);
                let q = self.child(b).lemma_find_tip(w);
                let p = seq![b] + q;
                assert(p[0] == b);
                assert(p.drop_first() =~= q);
                p
            },
            Shape::Tip { .. } => Seq::<bool>::empty(),
        }
    }

    /// A weight that is still among the leaves when the leaf at `x` is left
    /// out stands on another leaf: the path returned leads to one, and
    /// parts from `x`.
    pub proof fn lemma_find_other_tip(self, x: Seq<bool>, a: nat, w: nat) -> (p: Seq<bool>)
        requires
            self.tip_at(x, a),
            self.leaf_weights().remove(a).count(w) >= 1,
        ensures
            self.tip_at(p, w),
            differ(x, p),
        decreases self,
    {
        match self {
            Shape::Fork { l, r } => {
                let c = x[0];
                let sub = self.child(c);
                let other = self.child(!c);
                sub.lemma_replace(x.drop_first(), Shape::Tip { w: a });
                assert(sub.leaf_weights().count(a) >= 1);
                assert(self.leaf_weights().remove(a) =~= sub.leaf_weights().remove(a).add(
                    other.leaf_weights(),
                ));
                if other.leaf_weights().count(w) >= 1 {
                    let q = other.lemma_find_tip(w);
                    let p = seq![!c] + q;
                    assert(p[0] == !c);
                    assert(p.drop_first() =~= q);
                    p
                } else {
                    let q = sub.lemma_find_other_tip(x.drop_first(), a, w);
                    let p = seq![c] + q;
                    assert(p[0] == c);
                    assert(p.drop_first() =~= q);
                    p
                }
            },
            Shape::Tip { .. } => {
                assert(self.leaf_weights().remove(a) =~= Multiset::<nat>::empty());
                Seq::<bool>::empty()
            },
        }
    }

    /// Where `p` leads to the parent of two leaves, a path to a leaf either
    /// leads to one of these two or parts from `p`.
    pub proof fn lemma_tip_beside_pair(self, p: Seq<bool>, q: Seq<bool>, w: nat)
        requires
            self.reaches(p),
            self.descend(p) is Fork,
            self.descend(p).child(false) is Tip,
            self.descend(p).child(true) is Tip,
            self.tip_at(q, w),
        ensures
            q == p.push(false) || q == p.push(true) || differ(p, q),
        decreases p.len(),
    {
        if p.len() == 0 {
            assert(q.len() > 0);
            assert(self.child(q[0]) is Tip);
            assert(self.child(q[0]).reaches(q.drop_first()));
            assert(q.drop_first().len() == 0);
            assert(q =~= p.push(q[0]));
        } else {
            assert(q.len() > 0);
            if p[0] == q[0] {
                self.child(p[0]).lemma_tip_beside_pair(p.drop_first(), q.drop_first(), w);
                let p_rest = p.drop_first();
                let q_rest = q.drop_first();
                assert(q =~= seq![q[0]] + q_rest);
                assert(p =~= seq![p[0]] + p_rest);
                if q_rest == p_rest.push(false) {
                    assert(seq![p[0]] + p_rest.push(false) =~= p.push(false));
                } else if q_rest == p_rest.push(true) {
                    assert(seq![p[0]] + p_rest.push(true) =~= p.push(true));
                }
            }
        }
    }
}

} // verus!
