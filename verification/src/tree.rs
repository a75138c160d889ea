use vstd::prelude::*;

use crate::model::{
    TreeModel, accepts_values, clones_of, lemma_unit_shape, mapped_by, maps_values,
    rebuilt_from,
};

verus! {

/// A tree of values: empty, a single value, or a sequence of subtrees.
#[derive(Debug, PartialEq, Eq)]
pub enum Tree<T: Sized + Clone + Eq> {
    Zero,
    One(T),
    Many(Vec<Tree<T>>),
}

impl<T: Sized + Clone + Eq> Tree<T> {
    /// The mathematical value of the tree.
    pub open spec fn model(self) -> TreeModel<T>
        decreases self,
    {
        match self {
            Tree::Zero => TreeModel::Zero,
            Tree::One(x) => TreeModel::One(x),
            Tree::Many(ts) => TreeModel::Many(Self::model_all(ts@)),
        }
    }

    /// The mathematical values of a sequence of trees.
    pub open spec fn model_all(ts: Seq<Tree<T>>) -> Seq<TreeModel<T>>
        decreases ts,
    {
        if ts.len() == 0 {
            Seq::empty()
        } else {
            Self::model_all(ts.drop_last()).push(ts.last().model())
        }
    }

    /// `model_all` takes the model of each tree, in place.
    pub proof fn lemma_model_all(ts: Seq<Tree<T>>)
        ensures
            Self::model_all(ts).len() == ts.len(),
            forall|i: int| 0 <= i < ts.len() ==> #[trigger] Self::model_all(ts)[i] == ts[i].model(),
        decreases ts.len(),
    {
        if ts.len() > 0 {
            Self::lemma_model_all(ts.drop_last());
        }
    }
}

impl<T: Sized + Clone + Eq> View for Tree<T> {
    type V = TreeModel<T>;

    open spec fn view(&self) -> TreeModel<T> {
        self.model()
    }
}

/// Moves the values of `t`, left to right, onto the end of `out`, and returns
/// the shape of `t`.
#[verifier::loop_isolation(false)]
fn take_apart<T: Sized + Clone + Eq>(t: Tree<T>, out: &mut Vec<T>) -> (shape: Tree<()>)
    ensures
        final(out)@ == old(out)@ + t@.values(),
        shape@ == t@.shape(),
    decreases t,
{
    let ghost t0 = t;
    match t {
        Tree::Zero => {
            assert(old(out)@ + Seq::<T>::empty() =~= old(out)@);
            Tree::Zero
        },
        Tree::One(x) => {
            out.push(x);
            Tree::One(())
        },
        Tree::Many(ts) => {
            let ghost gts = ts;
            let ghost ms = Tree::model_all(ts@);
            let ghost out0 = out@;
            proof {
                Tree::lemma_model_all(ts@);
            }
            let mut shapes: Vec<Tree<()>> = Vec::new();
            for s in it: ts.into_iter()
                invariant
                    t0 == Tree::Many(gts),
                    ms == Tree::model_all(gts@),
                    ms.len() == gts@.len(),
                    forall|i: int| 0 <= i < gts@.len() ==> #[trigger] ms[i] == gts@[i].model(),
                    it.seq() == gts@,
                    Tree::model_all(shapes@) == TreeModel::shape_all(ms.take(it.index() as int)),
                    out@ == out0 + TreeModel::values_all(ms.take(it.index() as int)),
            {
                let ghost k = it.index() as int;
                proof {
                    vstd::std_specs::vec::axiom_vec_index_decreases(gts, k);
                    assert(decreases_to!(t0 => t0->Many_0));
                }
                let ghost before = shapes@;
                let sh = take_apart(s, out);
                shapes.push(sh);
                proof {
                    assert(ms.take(k + 1).drop_last() =~= ms.take(k));
                    assert(shapes@.drop_last() =~= before);
                }
            }
            proof {
                assert(ms.take(ms.len() as int) =~= ms);
            }
            Tree::Many(shapes)
        },
    }
}

/// Builds a tree of the given shape from the back of `xs`, taking one element
/// for each value, and leaves the rest of `xs` in place.
#[verifier::loop_isolation(false)]
fn put_back<T: Sized + Clone + Eq>(shape: &Tree<()>, xs: &mut Vec<T>) -> (t: Tree<T>)
    requires
        old(xs)@.len() >= shape@.size(),
    ensures
        final(xs)@ == old(xs)@.take(old(xs)@.len() - shape@.size()),
        rebuilt_from(shape@, old(xs)@, t@),
    decreases shape,
{
    proof {
        lemma_unit_shape(shape@);
    }
    match shape {
        Tree::Zero => {
            assert(old(xs)@.take(old(xs)@.len() as int) =~= old(xs)@);
            assert(old(xs)@.skip(old(xs)@.len() as int).reverse() =~= Seq::<T>::empty());
            Tree::Zero
        },
        Tree::One(_) => {
            let x = xs.pop().unwrap();
            proof {
                assert(shape@.values() =~= seq![()]);
                assert(old(xs)@.skip(old(xs)@.len() - 1).reverse() =~= seq![x]);
                assert(xs@ =~= old(xs)@.take(old(xs)@.len() - 1));
            }
            Tree::One(x)
        },
        Tree::Many(ss) => {
            let ghost xs0 = xs@;
            let ghost ms = Tree::model_all(ss@);
            proof {
                Tree::lemma_model_all(ss@);
                assert(ms.take(ms.len() as int) =~= ms);
            }
            let ghost total = TreeModel::values_all(ms).len();
            let mut parts: Vec<Tree<T>> = Vec::new();
            let mut i: usize = 0;
            proof {
                assert(ms.take(0) =~= Seq::<TreeModel<()>>::empty());
                assert(xs0.subrange(xs0.len() as int, xs0.len() as int).reverse() =~= Seq::<T>::empty());
                assert(xs0.take(xs0.len() as int) =~= xs0);
            }
            while i < ss.len()
                invariant
                    i <= ss@.len(),
                    ms == Tree::model_all(ss@),
                    ms.len() == ss@.len(),
                    forall|j: int| 0 <= j < ss@.len() ==> #[trigger] ms[j] == ss@[j].model(),
                    total == TreeModel::values_all(ms).len(),
                    total <= xs0.len(),
                    TreeModel::values_all(ms.take(i as int)).len() <= total,
                    xs@ == xs0.take(xs0.len() - TreeModel::values_all(ms.take(i as int)).len()),
                    TreeModel::shape_all(Tree::model_all(parts@)) == ms.take(i as int),
                    TreeModel::values_all(Tree::model_all(parts@)) == xs0.subrange(
                        xs0.len() - TreeModel::values_all(ms.take(i as int)).len(),
                        xs0.len() as int,
                    ).reverse(),
                decreases ss@.len() - i,
            {
                let ghost c = TreeModel::values_all(ms.take(i as int)).len();
                let ghost before = parts@;
                let ghost xs_before = xs@;
                proof {
                    assert(ms.take(i + 1).drop_last() =~= ms.take(i as int));
                    assert(ms.take(i + 1) + ms.skip(i + 1) =~= ms);
                    TreeModel::lemma_values_all_append(ms.take(i + 1), ms.skip(i + 1));
                    vstd::std_specs::vec::axiom_vec_index_decreases(*ss, i as int);
                    assert(decreases_to!(*shape => shape->Many_0));
                }
                let part = put_back(&ss[i], xs);
                parts.push(part);
                proof {
                    lemma_unit_shape(ms[i as int]);
                    let k = ms[i as int].size();
                    assert(parts@.drop_last() =~= before);
                    let mp = Tree::model_all(parts@);
                    assert(mp == Tree::model_all(before).push(part@));
                    assert(mp.drop_last() =~= Tree::model_all(before));
                    assert(TreeModel::shape_all(mp) == TreeModel::shape_all(Tree::model_all(before)).push(part@.shape()));
                    assert(TreeModel::shape_all(mp) =~= ms.take(i + 1));
                    assert(TreeModel::values_all(mp) == TreeModel::values_all(Tree::model_all(before)) + part@.values());
                    let mid = xs0.subrange(xs0.len() - c - k, xs0.len() - c);
                    assert(xs_before.skip(xs_before.len() - k) =~= mid);
                    assert(xs@ =~= xs0.take(xs0.len() - (c + k)));
                    let s0 = xs0.subrange(xs0.len() - c, xs0.len() as int);
                    assert(xs0.subrange(xs0.len() - (c + k), xs0.len() as int) =~= mid + s0);
                    assert((mid + s0).reverse() =~= s0.reverse() + mid.reverse());
                }
                i = i + 1;
            }
            proof {
                assert(ms.take(ss@.len() as int) =~= ms);
                assert(xs0.subrange(xs0.len() - total, xs0.len() as int) =~= xs0.skip(xs0.len() - total));
            }
            Tree::Many(parts)
        },
    }
}

/// The elements of `v` in the opposite order.
fn reversed<T>(v: Vec<T>) -> (r: Vec<T>)
    ensures
        r@ == v@.reverse(),
{
    let ghost v0 = v@;
    let mut v = v;
    let mut r: Vec<T> = Vec::new();
    while v.len() > 0
        invariant
            v@ == v0.take(v0.len() - r@.len()),
            r@ == v0.skip(v0.len() - r@.len()).reverse(),
            r@.len() <= v0.len(),
        decreases v@.len(),
    {
        let ghost n = r@.len();
        let x = v.pop().unwrap();
        r.push(x);
        proof {
            assert(v@ =~= v0.take(v0.len() - r@.len()));
            assert(r@ =~= v0.skip(v0.len() - r@.len()).reverse());
        }
    }
    proof {
        assert(v0.skip(0) =~= v0);
    }
    r
}

impl<T: Sized + Clone + Eq> Tree<T> {
    /// Returns the tree as a list alongside a function to reconstruct the tree from a list.
    ///
    /// This preserves the structure of the tree: the list holds the values of the
    /// tree, last value first, and the function puts the last elements of a list
    /// back into the nodes of the tree, the last element into the first node.
    pub fn list(self) -> (res: (Vec<T>, impl Fn(Vec<T>) -> Tree<T>))
        ensures
            res.0@ == self@.values().reverse(),
            forall|xs: Vec<T>| xs@.len() >= self@.size() ==> call_requires(res.1, (xs,)),
            forall|xs: Vec<T>, t: Tree<T>|
                call_ensures(res.1, (xs,), t) ==> rebuilt_from(self@.shape(), xs@, t@),
            forall|xs: Vec<T>, t: Tree<T>|
                call_ensures(res.1, (xs,), t) ==> {
                    &&& t@.shape() == self@.shape()
                    &&& t@.values() == xs@.skip(xs@.len() - self@.size()).reverse()
                },
    {
        let ghost m = self@;
        let mut vals: Vec<T> = Vec::new();
        let shape = take_apart(self, &mut vals);
        proof {
            assert(vals@ =~= m.values());
            m.lemma_shape_size();
        }
        let rebuild = move |xs: Vec<T>| -> (t: Tree<T>)
            requires
                xs@.len() >= shape@.size(),
            ensures
                rebuilt_from(shape@, xs@, t@),
            {
                let mut xs = xs;
                put_back(&shape, &mut xs)
            };
        (reversed(vals), rebuild)
    }
}

impl<T: Sized + Clone + Eq> Tree<T> {
    /// Performs a map over all elements in the tree.
    #[verifier::loop_isolation(false)]
    pub fn map<F: Fn(T) -> T>(self, op: &F) -> (res: Tree<T>)
        requires
            accepts_values(*op, self@),
        ensures
            res@.shape() == self@.shape(),
            res@.size() == self@.size(),
            forall|i: int|
                0 <= i < self@.size() ==> call_ensures(
                    *op,
                    (self@.values()[i],),
                    #[trigger] res@.values()[i],
                ),
            mapped_by(*op, self@, res@),
        decreases self,
    {
        let ghost t0 = self;
        match self {
            Tree::Zero => Tree::Zero,
            Tree::One(x) => {
                assert(t0@.values().contains(x)) by {
                    assert(t0@.values()[0] == x);
                }
                let y = op(x);
                proof {
                    assert(seq![y][0] == y);
                }
                Tree::One(y)
            },
            Tree::Many(ts) => {
                let ghost gts = ts;
                let ghost ms = Tree::model_all(ts@);
                proof {
                    Tree::lemma_model_all(ts@);
                    assert(ms.take(0) =~= Seq::<TreeModel<T>>::empty());
                }
                let mut out: Vec<Tree<T>> = Vec::new();
                for s in it: ts.into_iter()
                    invariant
                        t0 == Tree::Many(gts),
                        accepts_values(*op, t0@),
                        t0@ == TreeModel::Many(ms),
                        ms == Tree::model_all(gts@),
                        ms.len() == gts@.len(),
                        forall|i: int| 0 <= i < gts@.len() ==> #[trigger] ms[i] == gts@[i].model(),
                        it.seq() == gts@,
                        TreeModel::shape_all(Tree::model_all(out@)) == TreeModel::shape_all(
                            ms.take(it.index() as int),
                        ),
                        maps_values(
                            *op,
                            TreeModel::values_all(ms.take(it.index() as int)),
                            TreeModel::values_all(Tree::model_all(out@)),
                        ),
                {
                    let ghost k = it.index() as int;
                    let ghost before = out@;
                    let ghost va = TreeModel::values_all(ms.take(k));
                    let ghost wa = TreeModel::values_all(Tree::model_all(before));
                    proof {
                        vstd::std_specs::vec::axiom_vec_index_decreases(gts, k);
                        assert(decreases_to!(t0 => t0->Many_0));
                        assert(ms.take(k + 1).drop_last() =~= ms.take(k));
                        assert(ms.take(k + 1) + ms.skip(k + 1) =~= ms);
                        TreeModel::lemma_values_all_append(ms.take(k + 1), ms.skip(k + 1));
                        let whole = TreeModel::values_all(ms);
                        assert(s == gts@[k]);
                        assert(s@ == ms[k]);
                        assert(t0@.values() == whole);
                        assert(whole == va + ms[k].values() + TreeModel::values_all(ms.skip(k + 1)));
                        assert forall|x: T| s@.values().contains(x) implies call_requires(*op, (x,)) by {
                            let j = choose|j: int| 0 <= j < s@.values().len() && s@.values()[j] == x;
                            assert(whole[va.len() + j] == x);
                            assert(t0@.values().contains(x));
                        }
                    }
                    let r = s.map(op);
                    out.push(r);
                    proof {
                        assert(out@.drop_last() =~= before);
                        let mo = Tree::model_all(out@);
                        assert(mo.drop_last() =~= Tree::model_all(before));
                        assert(TreeModel::values_all(mo) == wa + r@.values());
                        assert(TreeModel::values_all(ms.take(k + 1)) == va + ms[k].values());
                        assert forall|i: int|
                            0 <= i < va.len() + ms[k].values().len() implies call_ensures(
                            *op,
                            ((va + ms[k].values())[i],),
                            #[trigger] (wa + r@.values())[i],
                        ) by {
                            if i < va.len() {
                                assert((va + ms[k].values())[i] == va[i]);
                                assert((wa + r@.values())[i] == wa[i]);
                            } else {
                                assert((va + ms[k].values())[i] == ms[k].values()[i - va.len()]);
                                assert((wa + r@.values())[i] == r@.values()[i - va.len()]);
                            }
                        }
                    }
                }
                proof {
                    assert(ms.take(ms.len() as int) =~= ms);
                }
                Tree::Many(out)
            },
        }
    }
}

impl<T: Sized + Clone + Eq> Tree<T> {
    /// A tree with the nodes of `self`, each value cloned.
    pub fn duplicate(&self) -> (res: Tree<T>)
        ensures
            res@.shape() == self@.shape(),
            clones_of(self@.values(), res@.values()),
            res@.size() == self@.size(),
            forall|i: int|
                0 <= i < self@.size() ==> cloned(self@.values()[i], #[trigger] res@.values()[i]),
        decreases self,
    {
        match self {
            Tree::Zero => Tree::Zero,
            Tree::One(x) => {
                let y = x.clone();
                proof {
                    assert(seq![y][0] == y);
                }
                Tree::One(y)
            },
            Tree::Many(ts) => {
                let ghost ms = Tree::model_all(ts@);
                proof {
                    Tree::lemma_model_all(ts@);
                    assert(ms.take(0) =~= Seq::<TreeModel<T>>::empty());
                }
                let mut out: Vec<Tree<T>> = Vec::new();
                let mut i: usize = 0;
                while i < ts.len()
                    invariant
                        i <= ts@.len(),
                        *self == Tree::Many(*ts),
                        ms == Tree::model_all(ts@),
                        ms.len() == ts@.len(),
                        forall|j: int| 0 <= j < ts@.len() ==> #[trigger] ms[j] == ts@[j].model(),
                        TreeModel::shape_all(Tree::model_all(out@)) == TreeModel::shape_all(
                            ms.take(i as int),
                        ),
                        clones_of(
                            TreeModel::values_all(ms.take(i as int)),
                            TreeModel::values_all(Tree::model_all(out@)),
                        ),
                    decreases ts@.len() - i,
                {
                    let ghost k = i as int;
                    let ghost before = out@;
                    let ghost va = TreeModel::values_all(ms.take(k));
                    let ghost wa = TreeModel::values_all(Tree::model_all(before));
                    proof {
                        vstd::std_specs::vec::axiom_vec_index_decreases(*ts, k);
                        assert(decreases_to!(*self => self->Many_0));
                        assert(ms.take(k + 1).drop_last() =~= ms.take(k));
                    }
                    let r = ts[i].duplicate();
                    out.push(r);
                    proof {
                        assert(out@.drop_last() =~= before);
                        let mo = Tree::model_all(out@);
                        assert(mo.drop_last() =~= Tree::model_all(before));
                        assert(TreeModel::values_all(mo) == wa + r@.values());
                        assert(TreeModel::values_all(ms.take(k + 1)) == va + ms[k].values());
                        assert forall|j: int|
                            0 <= j < va.len() + ms[k].values().len() implies cloned(
                            (va + ms[k].values())[j],
                            #[trigger] (wa + r@.values())[j],
                        ) by {
                            if j < va.len() {
                                assert((va + ms[k].values())[j] == va[j]);
                                assert((wa + r@.values())[j] == wa[j]);
                            } else {
                                assert((va + ms[k].values())[j] == ms[k].values()[j - va.len()]);
                                assert((wa + r@.values())[j] == r@.values()[j - va.len()]);
                            }
                        }
                    }
                    i = i + 1;
                }
                proof {
                    assert(ms.take(ms.len() as int) =~= ms);
                }
                Tree::Many(out)
            },
        }
    }
}

impl<T: Sized + Clone + Eq> Clone for Tree<T> {
    fn clone(&self) -> (res: Self)
        ensures
            res@.shape() == self@.shape(),
            clones_of(self@.values(), res@.values()),
            res@.size() == self@.size(),
            forall|i: int|
                0 <= i < self@.size() ==> cloned(self@.values()[i], #[trigger] res@.values()[i]),
    {
        self.duplicate()
    }
}

} // verus!
