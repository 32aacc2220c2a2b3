//! Routes: the positions of the children on the way from the root of a
//! document to one of its nodes, and what it is to replace the node at the
//! end of one.

use vstd::prelude::*;
use crate::tree::{
    entry_trees, lemma_mapping_view, lemma_sequence_view, lemma_valid_untag, same, trees, untag,
    valid, Tree, Yaml,
};

verus! {

/// The child of `t` at position `i`: item `i` of a sequence, or the value of
/// entry `i` of a mapping. Tags on `t` are looked through.
pub open spec fn child(t: Tree, i: int) -> Option<Tree> {
    match untag(t) {
        Tree::Sequence(items) => if 0 <= i < items.len() {
            Some(items[i])
        } else {
            None
        },
        Tree::Mapping(entries) => if 0 <= i < entries.len() {
            Some(entries[i].1)
        } else {
            None
        },
        _ => None,
    }
}

/// `t` with its child at position `i` replaced by `c`. The tags on `t`, the
/// keys of a mapping and every other child stay.
pub open spec fn set_child(t: Tree, i: int, c: Tree) -> Tree
    decreases t,
{
    match t {
        Tree::Tagged(tag, inner) => Tree::Tagged(tag, Box::new(set_child(*inner, i, c))),
        Tree::Sequence(items) => if 0 <= i < items.len() {
            Tree::Sequence(items.update(i, c))
        } else {
            t
        },
        Tree::Mapping(entries) => if 0 <= i < entries.len() {
            Tree::Mapping(entries.update(i, (entries[i].0, c)))
        } else {
            t
        },
        _ => t,
    }
}

/// The node that `route` leads to from `t`, each element of the route being
/// the position of a child.
pub open spec fn node_at(t: Tree, route: Seq<int>) -> Option<Tree>
    decreases route.len(),
{
    if route.len() == 0 {
        Some(t)
    } else {
        match child(t, route[0]) {
            Some(c) => node_at(c, route.drop_first()),
            None => None,
        }
    }
}

/// `t` with the node that `route` leads to replaced by `v`, and `t` itself
/// where the route leads nowhere.
pub open spec fn put(t: Tree, route: Seq<int>, v: Tree) -> Tree
    decreases route.len(),
{
    if route.len() == 0 {
        v
    } else {
        match child(t, route[0]) {
            Some(c) => set_child(t, route[0], put(c, route.drop_first(), v)),
            None => t,
        }
    }
}

/// One step more: the node at the end of a longer route is a child of the
/// node at the end of the route.
pub proof fn lemma_node_at_push(t: Tree, route: Seq<int>, j: int)
    ensures
        node_at(t, route.push(j)) == (match node_at(t, route) {
            Some(n) => child(n, j),
            None => None,
        }),
    decreases route.len(),
{
    if route.len() == 0 {
        reveal_with_fuel(node_at, 2);
        assert(route.push(j).drop_first() =~= Seq::<int>::empty());
    } else {
        assert(route.push(j).drop_first() =~= route.drop_first().push(j));
        match child(t, route[0]) {
            Some(c) => lemma_node_at_push(c, route.drop_first(), j),
            None => {},
        }
    }
}

/// Replacing a child looks through the same tags as finding it.
pub proof fn lemma_untag_set_child(t: Tree, i: int, c: Tree)
    ensures
        untag(set_child(t, i, c)) == set_child(untag(t), i, c),
    decreases t,
{
    match t {
        Tree::Tagged(_, inner) => lemma_untag_set_child(*inner, i, c),
        _ => {},
    }
}

/// After a child is replaced, it is the child at its position, and every
/// other child is as before.
pub proof fn lemma_child_set_child(t: Tree, i: int, c: Tree, j: int)
    requires
        child(t, i) is Some,
    ensures
        child(set_child(t, i, c), j) == (if j == i {
            Some(c)
        } else {
            child(t, j)
        }),
{
    lemma_untag_set_child(t, i, c);
}

/// Replacing a child twice is replacing it once, by the later node.
pub proof fn lemma_set_child_twice(t: Tree, i: int, c: Tree, d: Tree)
    ensures
        set_child(set_child(t, i, c), i, d) == set_child(t, i, d),
    decreases t,
{
    match t {
        Tree::Tagged(_, inner) => lemma_set_child_twice(*inner, i, c, d),
        Tree::Sequence(items) => {
            if 0 <= i < items.len() {
                assert(items.update(i, c).update(i, d) =~= items.update(i, d));
            }
        },
        Tree::Mapping(entries) => {
            if 0 <= i < entries.len() {
                assert(entries.update(i, (entries[i].0, c)).update(i, (entries[i].0, d))
                    =~= entries.update(i, (entries[i].0, d)));
            }
        },
        _ => {},
    }
}

/// A child of a valid node is valid.
pub proof fn lemma_child_valid(t: Tree, i: int)
    requires
        valid(t),
        child(t, i) is Some,
    ensures
        valid(child(t, i)->Some_0),
{
    lemma_valid_untag(t);
}

/// A valid node stays valid when a child of it is replaced by a valid node.
pub proof fn lemma_set_child_valid(t: Tree, i: int, c: Tree)
    requires
        valid(t),
        valid(c),
    ensures
        valid(set_child(t, i, c)),
    decreases t,
{
    match t {
        Tree::Tagged(_, inner) => lemma_set_child_valid(*inner, i, c),
        Tree::Sequence(items) => {},
        Tree::Mapping(entries) => {
            if 0 <= i < entries.len() {
                let after = entries.update(i, (entries[i].0, c));
                assert forall|a: int, b: int| 0 <= a < b < after.len() implies !same(
                    #[trigger] after[b].0,
                    #[trigger] after[a].0,
                ) by {
                    assert(after[b].0 == entries[b].0);
                    assert(after[a].0 == entries[a].0);
                }
                assert forall|a: int| 0 <= a < after.len() implies valid(
                    (#[trigger] after[a]).0,
                ) && valid(after[a].1) by {
                    assert(valid(entries[a].0) && valid(entries[a].1));
                }
            }
        },
        _ => {},
    }
}

/// The node that was put at the end of a route is found there.
pub proof fn lemma_put_get(t: Tree, route: Seq<int>, v: Tree)
    requires
        node_at(t, route) is Some,
    ensures
        node_at(put(t, route, v), route) == Some(v),
    decreases route.len(),
{
    if route.len() > 0 {
        let c = child(t, route[0])->Some_0;
        lemma_put_get(c, route.drop_first(), v);
        lemma_child_set_child(t, route[0], put(c, route.drop_first(), v), route[0]);
    }
}

/// Whether two routes part: at some position both have an element, the
/// elements differ, and up to there the routes are equal.
pub open spec fn parting(route: Seq<int>, other: Seq<int>) -> bool {
    exists|k: int|
        0 <= k < route.len() && k < other.len() && #[trigger] route[k] != other[k] && route.take(k)
            == other.take(k)
}

/// What a route that parts from the route of a `put` leads to is as before.
pub proof fn lemma_put_frame(t: Tree, route: Seq<int>, other: Seq<int>, v: Tree)
    requires
        node_at(t, route) is Some,
        parting(route, other),
    ensures
        node_at(put(t, route, v), other) == node_at(t, other),
    decreases route.len(),
{
    let k = choose|k: int|
        0 <= k < route.len() && k < other.len() && #[trigger] route[k] != other[k] && route.take(k)
            == other.take(k);
    let c = child(t, route[0])->Some_0;
    let new = put(c, route.drop_first(), v);
    lemma_child_set_child(t, route[0], new, other[0]);
    if k > 0 {
        assert(route.take(k)[0] == other.take(k)[0]);
        assert(route.drop_first().take(k - 1) =~= route.take(k).drop_first());
        assert(other.drop_first().take(k - 1) =~= other.take(k).drop_first());
        assert(route.drop_first()[k - 1] != other.drop_first()[k - 1]);
        lemma_put_frame(c, route.drop_first(), other.drop_first(), v);
    }
}

/// Putting twice at the end of one route is putting once, the later node.
pub proof fn lemma_put_twice(t: Tree, route: Seq<int>, v: Tree, w: Tree)
    requires
        node_at(t, route) is Some,
    ensures
        put(put(t, route, v), route, w) == put(t, route, w),
    decreases route.len(),
{
    if route.len() > 0 {
        let c = child(t, route[0])->Some_0;
        let rest = route.drop_first();
        lemma_put_twice(c, rest, v, w);
        lemma_child_set_child(t, route[0], put(c, rest, v), route[0]);
        lemma_set_child_twice(t, route[0], put(c, rest, v), put(c, rest, w));
    }
}

/// A valid document stays valid when a valid node is put into it.
pub proof fn lemma_put_valid(t: Tree, route: Seq<int>, v: Tree)
    requires
        valid(t),
        valid(v),
    ensures
        valid(put(t, route, v)),
    decreases route.len(),
{
    if route.len() > 0 {
        match child(t, route[0]) {
            Some(c) => {
                lemma_child_valid(t, route[0]);
                lemma_put_valid(c, route.drop_first(), v);
                lemma_set_child_valid(t, route[0], put(c, route.drop_first(), v));
            },
            None => {},
        }
    }
}

/// The positions of a route, as integers.
pub open spec fn ints(route: Seq<usize>) -> Seq<int> {
    Seq::new(route.len(), |i: int| route[i] as int)
}

/// Under a tag, `put` works on the tagged node.
pub proof fn lemma_put_tagged(tag: Seq<char>, inner: Tree, route: Seq<int>, v: Tree)
    requires
        route.len() > 0,
    ensures
        put(Tree::Tagged(tag, Box::new(inner)), route, v) == Tree::Tagged(
            tag,
            Box::new(put(inner, route, v)),
        ),
{
}

impl Yaml {
    /// Replaces the node that `route` leads to by `value`. Where the route
    /// leads nowhere, `self` stays as it is.
    pub fn replace_at(&mut self, route: &Vec<usize>, value: Yaml)
        ensures
            final(self)@ == put(old(self)@, ints(route@), value@),
    {
        assert(ints(route@).subrange(0, route@.len() as int) =~= ints(route@));
        replace_from(self, route, 0, value);
    }
}

/// Replaces the node that `route`, from its element `depth` on, leads to from
/// `node`.
fn replace_from(node: &mut Yaml, route: &Vec<usize>, depth: usize, value: Yaml)
    requires
        depth <= route.len(),
    ensures
        final(node)@ == put(
            old(node)@,
            ints(route@).subrange(depth as int, route@.len() as int),
            value@,
        ),
    decreases route.len() - depth, *old(node),
{
    broadcast use vstd::std_specs::vec::axiom_vec_index_decreases;

    let ghost rest = ints(route@).subrange(depth as int, route@.len() as int);
    if depth == route.len() {
        *node = value;
    } else {
        let i = route[depth];
        assert(rest[0] == i);
        assert(rest.drop_first() =~= ints(route@).subrange(depth + 1, route@.len() as int));
        match node {
            Yaml::Tagged(tag, inner) => {
                proof {
                    lemma_put_tagged(tag@, inner@, rest, value@);
                }
                replace_from(&mut **inner, route, depth, value);
            },
            Yaml::Sequence(items) => {
                proof {
                    lemma_sequence_view(*items);
                }
                if i < items.len() {
                    let ghost before = items@;
                    replace_from(&mut items[i], route, depth + 1, value);
                    proof {
                        lemma_sequence_view(*items);
                        assert(trees(items@) =~= trees(before).update(i as int, items[i as int]@));
                    }
                }
            },
            Yaml::Mapping(entries) => {
                proof {
                    lemma_mapping_view(*entries);
                }
                if i < entries.len() {
                    let ghost before = entries@;
                    replace_from(&mut entries[i].1, route, depth + 1, value);
                    proof {
                        lemma_mapping_view(*entries);
                        assert(entry_trees(entries@) =~= entry_trees(before).update(
                            i as int,
                            (before[i as int].0@, entries[i as int].1@),
                        ));
                    }
                }
            },
            _ => {},
        }
    }
}

} // verus!
