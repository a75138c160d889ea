use vstd::prelude::*;

use crate::model::{TreeModel, maps_values, mapped_by, rebuilt_from};

verus! {

/// A tree is determined by its nodes and its values: two trees with the same
/// shape and the same values, in the same order, are the same tree.
pub proof fn law_shape_and_values_determine_tree<T>(a: TreeModel<T>, b: TreeModel<T>)
    requires
        a.shape() == b.shape(),
        a.values() == b.values(),
    ensures
        a == b,
    decreases a,
{
    match a {
        TreeModel::Zero => {},
        TreeModel::One(x) => {
            if let TreeModel::One(y) = b {
                assert(a.values()[0] == x);
                assert(b.values()[0] == y);
            }
        },
        TreeModel::Many(xs) => {
            if let TreeModel::Many(ys) = b {
                lemma_determined_all(xs, ys);
            }
        },
    }
}

proof fn lemma_determined_all<T>(xs: Seq<TreeModel<T>>, ys: Seq<TreeModel<T>>)
    requires
        TreeModel::shape_all(xs) == TreeModel::shape_all(ys),
        TreeModel::values_all(xs) == TreeModel::values_all(ys),
    ensures
        xs == ys,
    decreases xs,
{
    TreeModel::lemma_shape_all(xs);
    TreeModel::lemma_shape_all(ys);
    if xs.len() == 0 {
        assert(xs =~= ys);
    } else {
        let n = xs.len() - 1;
        assert(TreeModel::shape_all(xs)[n] == TreeModel::shape_all(ys)[n]);
        assert(TreeModel::shape_all(xs)[n] == xs[n].shape());
        assert(TreeModel::shape_all(ys)[n] == ys[n].shape());
        let (xl, yl) = (xs.last(), ys.last());
        assert(xl.shape() == yl.shape());
        xl.lemma_shape_size();
        yl.lemma_shape_size();
        assert(TreeModel::shape_all(xs).drop_last() =~= TreeModel::shape_all(xs.drop_last()));
        assert(TreeModel::shape_all(ys).drop_last() =~= TreeModel::shape_all(ys.drop_last()));
        let vx = TreeModel::values_all(xs.drop_last());
        let vy = TreeModel::values_all(ys.drop_last());
        let all = TreeModel::values_all(xs);
        assert(all == vx + xl.values());
        assert(all == vy + yl.values());
        assert(vx.len() == vy.len());
        assert(vx =~= all.take(vx.len() as int));
        assert(vy =~= all.take(vx.len() as int));
        assert(xl.values() =~= all.skip(vx.len() as int));
        assert(yl.values() =~= all.skip(vx.len() as int));
        law_shape_and_values_determine_tree(xl, yl);
        lemma_determined_all(xs.drop_last(), ys.drop_last());
        assert(xs =~= ys.drop_last().push(yl));
        assert(ys =~= ys.drop_last().push(yl));
    }
}

/// Putting the list of a tree back into the tree's own shape gives the tree back.
pub proof fn law_list_round_trip<T>(t: TreeModel<T>, r: TreeModel<T>)
    requires
        rebuilt_from(t.shape(), t.values().reverse(), r),
    ensures
        r == t,
{
    t.lemma_shape_size();
    let xs = t.values().reverse();
    assert(xs.skip(0) =~= xs);
    assert(xs.reverse() =~= t.values());
    law_shape_and_values_determine_tree(r, t);
}

/// Listing a tree that was built from a list of exactly the right length gives
/// that list back.
pub proof fn law_rebuild_round_trip<T>(shape: TreeModel<()>, ys: Seq<T>, r: TreeModel<T>)
    requires
        ys.len() == shape.size(),
        rebuilt_from(shape, ys, r),
    ensures
        r.values().reverse() == ys,
        r.shape() == shape,
{
    assert(ys.skip(0) =~= ys);
    assert(ys.reverse().reverse() =~= ys);
}

/// Only the last `shape.size()` elements of a list go into the tree: what comes
/// before them does not matter.
pub proof fn law_rebuild_uses_last<T>(shape: TreeModel<()>, xs: Seq<T>, ys: Seq<T>, r: TreeModel<T>)
    requires
        ys.len() >= shape.size(),
    ensures
        rebuilt_from(shape, xs + ys, r) == rebuilt_from(shape, ys, r),
{
    assert((xs + ys).skip((xs + ys).len() - shape.size()) =~= ys.skip(ys.len() - shape.size()));
}

/// The list of a mapped tree is the list of the tree with the map applied to
/// each element.
pub proof fn law_map_list<T, F: Fn(T) -> T>(op: F, t: TreeModel<T>, r: TreeModel<T>)
    requires
        mapped_by(op, t, r),
    ensures
        maps_values(op, t.values().reverse(), r.values().reverse()),
        r.size() == t.size(),
{
    let (a, b) = (t.values(), r.values());
    assert forall|i: int| 0 <= i < a.len() implies call_ensures(
        op,
        (a.reverse()[i],),
        #[trigger] b.reverse()[i],
    ) by {
        assert(a.reverse()[i] == a[a.len() - 1 - i]);
        assert(b.reverse()[i] == b[b.len() - 1 - i]);
    }
}

/// Mapping keeps the nodes of a tree: the mapped tree has the shape of the tree
/// it came from, as many values, and putting its list back into the shape of the
/// original tree gives the mapped tree.
pub proof fn law_map_keeps_nodes<T, F: Fn(T) -> T>(op: F, t: TreeModel<T>, r: TreeModel<T>)
    requires
        mapped_by(op, t, r),
    ensures
        r.shape() == t.shape(),
        r.size() == t.size(),
        rebuilt_from(t.shape(), r.values().reverse(), r),
{
    t.lemma_shape_size();
    let xs = r.values().reverse();
    assert(xs.skip(0) =~= xs);
    assert(xs.reverse() =~= r.values());
}

} // verus!
