use vstd::prelude::*;

verus! {

/// The mathematical value of a `Tree`: the same three forms, with the subtrees
/// held in a `Seq`.
pub enum TreeModel<T> {
    Zero,
    One(T),
    Many(Seq<TreeModel<T>>),
}

impl<T> TreeModel<T> {
    /// The values held by the tree, in left-to-right order.
    pub open spec fn values(self) -> Seq<T>
        decreases self,
    {
        match self {
            TreeModel::Zero => Seq::empty(),
            TreeModel::One(x) => seq![x],
            TreeModel::Many(ts) => Self::values_all(ts),
        }
    }

    /// The values of a sequence of trees, one tree after the other.
    pub open spec fn values_all(ts: Seq<TreeModel<T>>) -> Seq<T>
        decreases ts,
    {
        if ts.len() == 0 {
            Seq::empty()
        } else {
            Self::values_all(ts.drop_last()) + ts.last().values()
        }
    }

    /// The tree with every value replaced by `()`: its nodes and nothing else.
    pub open spec fn shape(self) -> TreeModel<()>
        decreases self,
    {
        match self {
            TreeModel::Zero => TreeModel::Zero,
            TreeModel::One(_) => TreeModel::One(()),
            TreeModel::Many(ts) => TreeModel::Many(Self::shape_all(ts)),
        }
    }

    /// The shapes of a sequence of trees.
    pub open spec fn shape_all(ts: Seq<TreeModel<T>>) -> Seq<TreeModel<()>>
        decreases ts,
    {
        if ts.len() == 0 {
            Seq::empty()
        } else {
            Self::shape_all(ts.drop_last()).push(ts.last().shape())
        }
    }

    /// The number of values in the tree.
    pub open spec fn size(self) -> nat {
        self.values().len()
    }

    /// The values of two sequences of trees put together are the values of the
    /// first followed by those of the second.
    pub proof fn lemma_values_all_append(a: Seq<TreeModel<T>>, b: Seq<TreeModel<T>>)
        ensures
            Self::values_all(a + b) == Self::values_all(a) + Self::values_all(b),
        decreases b.len(),
    {
        if b.len() == 0 {
            assert(a + b =~= a);
            assert(Self::values_all(a) + Self::values_all(b) =~= Self::values_all(a));
        } else {
            Self::lemma_values_all_append(a, b.drop_last());
            assert((a + b).drop_last() =~= a + b.drop_last());
            assert((a + b).last() == b.last());
            assert(Self::values_all(a + b) =~= Self::values_all(a) + Self::values_all(b));
        }
    }

    /// `shape_all` takes the shape of each tree, in place.
    pub proof fn lemma_shape_all(ts: Seq<TreeModel<T>>)
        ensures
            Self::shape_all(ts).len() == ts.len(),
            forall|i: int| 0 <= i < ts.len() ==> #[trigger] Self::shape_all(ts)[i] == ts[i].shape(),
        decreases ts.len(),
    {
        if ts.len() > 0 {
            Self::lemma_shape_all(ts.drop_last());
        }
    }

    /// A tree and its shape have as many values.
    pub proof fn lemma_shape_size(self)
        ensures
            self.shape().size() == self.size(),
        decreases self,
    {
        if let TreeModel::Many(ts) = self {
            Self::lemma_shape_size_all(ts);
        }
    }

    /// A sequence of trees and their shapes have as many values.
    pub proof fn lemma_shape_size_all(ts: Seq<TreeModel<T>>)
        ensures
            TreeModel::values_all(Self::shape_all(ts)).len() == Self::values_all(ts).len(),
        decreases ts,
    {
        if ts.len() > 0 {
            Self::lemma_shape_size_all(ts.drop_last());
            ts.last().lemma_shape_size();
            assert(Self::shape_all(ts).drop_last() =~= Self::shape_all(ts.drop_last()));
        }
    }
}

/// Holds when `t` has the nodes of `shape` and its values are the last
/// `shape.size()` elements of `xs`, taken from the back: the last element of `xs`
/// is the first value of `t`.
pub open spec fn rebuilt_from<T>(shape: TreeModel<()>, xs: Seq<T>, t: TreeModel<T>) -> bool {
    &&& t.shape() == shape
    &&& t.values() == xs.skip(xs.len() - shape.size()).reverse()
}

/// A tree of `()` values is its own shape.
pub proof fn lemma_unit_shape(m: TreeModel<()>)
    ensures
        m.shape() == m,
    decreases m,
{
    if let TreeModel::One(u) = m {
        assert(u == ());
    }
    if let TreeModel::Many(ts) = m {
        TreeModel::lemma_shape_all(ts);
        assert forall|i: int| 0 <= i < ts.len() implies #[trigger] ts[i].shape() == ts[i] by {
            lemma_unit_shape(ts[i]);
        }
        assert(TreeModel::shape_all(ts) =~= ts);
    }
}

/// Holds when `after` is `before` with `op` applied to each element: each
/// element of `after` is a result that `op` may give for the element of `before`
/// at the same place.
pub open spec fn maps_values<T, F: Fn(T) -> T>(op: F, before: Seq<T>, after: Seq<T>) -> bool {
    &&& after.len() == before.len()
    &&& forall|i: int| 0 <= i < before.len() ==> call_ensures(op, (before[i],), #[trigger] after[i])
}

/// Holds when `after` has the nodes of `before`, and its values are those of
/// `before` with `op` applied to each.
pub open spec fn mapped_by<T, F: Fn(T) -> T>(op: F, before: TreeModel<T>, after: TreeModel<T>) -> bool {
    &&& after.shape() == before.shape()
    &&& maps_values(op, before.values(), after.values())
}

/// Holds when `op` may be called on every value of `t`.
pub open spec fn accepts_values<T, F: Fn(T) -> T>(op: F, t: TreeModel<T>) -> bool {
    forall|x: T| t.values().contains(x) ==> call_requires(op, (x,))
}

/// Holds when each element of `after` is a clone of the element of `before` at
/// the same place.
pub open spec fn clones_of<T: Clone>(before: Seq<T>, after: Seq<T>) -> bool {
    &&& after.len() == before.len()
    &&& forall|i: int| 0 <= i < before.len() ==> cloned(before[i], #[trigger] after[i])
}

} // verus!
