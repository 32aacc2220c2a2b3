//! Paths: their segments, and the walk along them through a document.

use vstd::prelude::*;
use vstd::string::*;
use crate::codec::{emit, emitted, parse, parsed, number_as_u64};
use crate::failure::{texts, Failure, FailureModel, Miss};
use crate::text::{trim_line_ends, trimmed};
use crate::route::{
    child, ints, lemma_child_set_child, lemma_node_at_push, lemma_untag_set_child, node_at, put,
    set_child,
};
use crate::tree::{
    find_key, lemma_mapping_view, lemma_position_bounds, lemma_sequence_view, lemma_valid_untag,
    position, same, trees, untag, valid, Num, Tree, Yaml,
};

verus! {

/// One segment of a path: what it names, and how it is written.
#[derive(Debug, PartialEq)]
pub struct Segment {
    /// The key, or the sequence of one index.
    pub value: Yaml,
    /// The segment as YAML text, without the line feed at its end; or the
    /// emitter's message, where it cannot be written.
    pub text: Result<String, String>,
}

/// The model of a [`Segment`].
pub ghost struct Leg {
    pub tree: Tree,
    pub text: Result<Seq<char>, Seq<char>>,
}

impl View for Segment {
    type V = Leg;

    open spec fn view(&self) -> Leg {
        Leg {
            tree: self.value@,
            text: match self.text {
                Ok(text) => Ok(text@),
                Err(message) => Err(message@),
            },
        }
    }
}

/// The models of segments.
pub open spec fn legs(segments: Seq<Segment>) -> Seq<Leg> {
    Seq::new(segments.len(), |i: int| segments[i]@)
}

/// Where one segment leads from one node.
#[derive(Debug, Clone, Copy, PartialEq, Eq)]
pub enum Hop {
    /// To the child at this position.
    To(usize),
    /// Nowhere: the segment is a sequence that does not have exactly one
    /// element.
    Unsupported,
    /// Nowhere: the node has no such child.
    Missing(Miss),
}

/// The model of a [`Hop`].
pub ghost enum Turn {
    To(int),
    Unsupported,
    Missing(Miss),
}

impl View for Hop {
    type V = Turn;

    open spec fn view(&self) -> Turn {
        match self {
            Hop::To(j) => Turn::To(*j as int),
            Hop::Unsupported => Turn::Unsupported,
            Hop::Missing(miss) => Turn::Missing(*miss),
        }
    }
}

/// Where `segment` leads from `node`.
///
/// A sequence of one non-negative integer is an index: it leads to that item
/// of a sequence. A sequence of another length is not supported, and one of
/// one element that is no such integer leads nowhere. Every other segment is
/// a key: it leads to the value of the first entry of a mapping whose key is
/// the same. Tags on the node, on the segment and on the index are looked
/// through; the key is compared as it is.
pub open spec fn hop(node: Tree, segment: Tree) -> Turn {
    match untag(segment) {
        Tree::Sequence(items) => if items.len() != 1 {
            Turn::Unsupported
        } else {
            match untag(items[0]) {
                Tree::Number(Num::PosInt(index)) => match untag(node) {
                    Tree::Sequence(children) => if index < children.len() {
                        Turn::To(index as int)
                    } else {
                        Turn::Missing(Miss::Index(index))
                    },
                    _ => Turn::Missing(Miss::Index(index)),
                },
                _ => Turn::Missing(Miss::BadIndex),
            }
        },
        _ => match untag(node) {
            Tree::Mapping(entries) => {
                let j = position(segment, entries, 0);
                if j < entries.len() {
                    Turn::To(j)
                } else {
                    Turn::Missing(Miss::Key)
                }
            },
            _ => Turn::Missing(Miss::Key),
        },
    }
}

/// Why a walk stopped.
pub ghost enum Stop {
    /// The segment cannot be written; the emitter's message.
    Unwritable(Seq<char>),
    /// The segment is a sequence that does not have exactly one element.
    Unsupported,
    /// The segment leads nowhere.
    Missing(Miss),
}

/// The walk from `node` along the segments from number `from` on: the
/// positions of the children it passes, or the number of the segment at which
/// it stops, and why. A segment is written before it is followed.
pub open spec fn walk(node: Tree, legs: Seq<Leg>, from: int) -> Result<Seq<int>, (int, Stop)>
    decreases legs.len() - from,
{
    if from < 0 || from >= legs.len() {
        Ok(Seq::empty())
    } else {
        match legs[from].text {
            Err(message) => Err((from, Stop::Unwritable(message))),
            Ok(_) => match hop(node, legs[from].tree) {
                Turn::Unsupported => Err((from, Stop::Unsupported)),
                Turn::Missing(miss) => Err((from, Stop::Missing(miss))),
                Turn::To(j) => match walk(child(node, j)->Some_0, legs, from + 1) {
                    Ok(rest) => Ok(seq![j] + rest),
                    Err(stop) => Err(stop),
                },
            },
        }
    }
}

/// The texts of the segments up to number `upto`.
pub open spec fn cursor(legs: Seq<Leg>, upto: int) -> Seq<Seq<char>> {
    Seq::new((upto + 1) as nat, |i: int| legs[i].text->Ok_0)
}

/// The route to the node that the segments lead to in `doc`, or the failure.
/// Where `require_null` is set, the node must be null.
pub open spec fn located(doc: Tree, legs: Seq<Leg>, path: Seq<char>, require_null: bool) -> Result<
    Seq<int>,
    FailureModel,
> {
    match walk(doc, legs, 0) {
        Err((at, Stop::Unwritable(message))) => Err(FailureModel::Unwritable { error: message }),
        Err((at, Stop::Unsupported)) => Err(
            FailureModel::UnsupportedPath { cursor: cursor(legs, at), path },
        ),
        Err((at, Stop::Missing(miss))) => Err(
            FailureModel::PathNotFound { cursor: cursor(legs, at), path, miss },
        ),
        Ok(route) => if require_null && !(untag(node_at(doc, route)->Some_0) is Null) {
            Err(FailureModel::PreconditionFailed { path })
        } else {
            Ok(route)
        },
    }
}

/// A walk leads to a node.
pub proof fn lemma_walk_arrives(node: Tree, legs: Seq<Leg>, from: int)
    requires
        walk(node, legs, from) is Ok,
    ensures
        node_at(node, walk(node, legs, from)->Ok_0) is Some,
    decreases legs.len() - from,
{
    if 0 <= from < legs.len() {
        let j = hop(node, legs[from].tree)->To_0;
        let next = child(node, j)->Some_0;
        lemma_hop_child(node, legs[from].tree);
        lemma_walk_arrives(next, legs, from + 1);
        let rest = walk(next, legs, from + 1)->Ok_0;
        assert((seq![j] + rest).drop_first() =~= rest);
    }
}

/// Where a segment leads, there is a child.
pub proof fn lemma_hop_child(node: Tree, segment: Tree)
    ensures
        hop(node, segment) matches Turn::To(j) ==> child(node, j) is Some,
{
    match untag(node) {
        Tree::Mapping(entries) => lemma_position_bounds(segment, entries, 0),
        _ => {},
    }
}

/// Where a key is found depends on the keys alone.
pub proof fn lemma_position_keys(
    key: Tree,
    entries: Seq<(Tree, Tree)>,
    others: Seq<(Tree, Tree)>,
    from: int,
)
    requires
        entries.len() == others.len(),
        forall|i: int| 0 <= i < entries.len() ==> (#[trigger] entries[i]).0 == others[i].0,
    ensures
        position(key, entries, from) == position(key, others, from),
    decreases entries.len() - from,
{
    if 0 <= from < entries.len() {
        assert(entries[from].0 == others[from].0);
        if !same(key, entries[from].0) {
            lemma_position_keys(key, entries, others, from + 1);
        }
    }
}

/// Where a segment leads from a node does not depend on the node's children.
pub proof fn lemma_hop_set_child(node: Tree, i: int, c: Tree, segment: Tree)
    ensures
        hop(set_child(node, i, c), segment) == hop(node, segment),
{
    lemma_untag_set_child(node, i, c);
    match untag(node) {
        Tree::Mapping(entries) => {
            if 0 <= i < entries.len() {
                lemma_position_keys(segment, entries.update(i, (entries[i].0, c)), entries, 0);
            }
        },
        _ => {},
    }
}

/// A walk that led to a node leads along the same route after that node was
/// replaced.
pub proof fn lemma_walk_after_put(node: Tree, legs: Seq<Leg>, from: int, v: Tree)
    requires
        walk(node, legs, from) is Ok,
    ensures
        walk(put(node, walk(node, legs, from)->Ok_0, v), legs, from) == walk(node, legs, from),
    decreases legs.len() - from,
{
    if 0 <= from < legs.len() {
        let j = hop(node, legs[from].tree)->To_0;
        let next = child(node, j)->Some_0;
        let rest = walk(next, legs, from + 1)->Ok_0;
        let route = seq![j] + rest;
        lemma_hop_child(node, legs[from].tree);
        lemma_walk_after_put(next, legs, from + 1, v);
        assert(route.drop_first() =~= rest);
        assert(route[0] == j);
        let new = put(next, rest, v);
        assert(put(node, route, v) == set_child(node, j, new));
        lemma_hop_set_child(node, j, new, legs[from].tree);
        lemma_child_set_child(node, j, new, j);
    }
}

/// A walk along the first `upto` segments is the beginning of the walk along
/// all of them.
pub proof fn lemma_walk_prefix(node: Tree, legs: Seq<Leg>, upto: int, from: int)
    requires
        0 <= from <= upto <= legs.len(),
        walk(node, legs.take(upto), from) is Ok,
    ensures
        node_at(node, walk(node, legs.take(upto), from)->Ok_0) is Some,
        walk(node, legs, from) == walk_on(
            walk(node, legs.take(upto), from)->Ok_0,
            walk(node_at(node, walk(node, legs.take(upto), from)->Ok_0)->Some_0, legs, upto),
        ),
    decreases upto - from,
{
    let first = legs.take(upto);
    if from < upto {
        assert(first[from] == legs[from]);
        let j = hop(node, legs[from].tree)->To_0;
        let next = child(node, j)->Some_0;
        lemma_hop_child(node, legs[from].tree);
        lemma_walk_prefix(next, legs, upto, from + 1);
        let rest = walk(next, first, from + 1)->Ok_0;
        let route = seq![j] + rest;
        assert(route.drop_first() =~= rest);
        assert(route[0] == j);
        let end = node_at(next, rest)->Some_0;
        match walk(end, legs, upto) {
            Ok(more) => {
                assert(seq![j] + (rest + more) =~= route + more);
            },
            Err(_) => {},
        }
    } else {
        match walk(node, legs, upto) {
            Ok(more) => {
                assert(Seq::<int>::empty() + more =~= more);
            },
            Err(_) => {},
        }
    }
}

impl Yaml {
    /// Where `segment` leads from `self`.
    pub fn hop(&self, segment: &Yaml) -> (r: Hop)
        ensures
            r@ == hop(self@, segment@),
    {
        match segment.untagged() {
            Yaml::Sequence(items) => {
                proof {
                    lemma_sequence_view(*items);
                }
                if items.len() != 1 {
                    return Hop::Unsupported;
                }
                assert(trees(items@)[0] == items[0]@);
                match items[0].untagged() {
                    Yaml::Number(n) => match number_as_u64(n) {
                        Some(index) => match self.untagged() {
                            Yaml::Sequence(children) => {
                                proof {
                                    lemma_sequence_view(*children);
                                }
                                if index < children.len() as u64 {
                                    Hop::To(index as usize)
                                } else {
                                    Hop::Missing(Miss::Index(index))
                                }
                            },
                            _ => Hop::Missing(Miss::Index(index)),
                        },
                        None => Hop::Missing(Miss::BadIndex),
                    },
                    _ => Hop::Missing(Miss::BadIndex),
                }
            },
            _ => match self.untagged() {
                Yaml::Mapping(entries) => {
                    proof {
                        lemma_mapping_view(*entries);
                    }
                    let j = find_key(segment, entries);
                    if j < entries.len() {
                        Hop::To(j)
                    } else {
                        Hop::Missing(Miss::Key)
                    }
                },
                _ => Hop::Missing(Miss::Key),
            },
        }
    }

    /// The child at position `j`: an item of a sequence, or the value of an
    /// entry of a mapping. Tags on `self` are looked through.
    pub fn child(&self, j: usize) -> (r: Option<&Yaml>)
        ensures
            match r {
                Some(c) => child(self@, j as int) == Some(c@),
                None => child(self@, j as int) is None,
            },
    {
        match self.untagged() {
            Yaml::Sequence(items) => {
                proof {
                    lemma_sequence_view(*items);
                }
                if j < items.len() {
                    Some(&items[j])
                } else {
                    None
                }
            },
            Yaml::Mapping(entries) => {
                proof {
                    lemma_mapping_view(*entries);
                }
                if j < entries.len() {
                    Some(&entries[j].1)
                } else {
                    None
                }
            },
            _ => None,
        }
    }
}

/// A segment that names `t`, with the text that the emitter writes for it.
pub open spec fn leg_of(t: Tree) -> Leg {
    Leg {
        tree: t,
        text: match emitted(t) {
            Ok(text) => Ok(trimmed(text)),
            Err(message) => Err(message),
        },
    }
}

/// The segments of a path. The path must be YAML, and a sequence: each
/// element of it is one segment.
pub open spec fn decoded(path: Seq<char>) -> Result<Seq<Leg>, FailureModel> {
    match parsed(path) {
        Err(message) => Err(FailureModel::MalformedPath { path, cause: Some(message) }),
        Ok(whole) => match untag(whole) {
            Tree::Sequence(items) => Ok(Seq::new(items.len(), |i: int| leg_of(items[i]))),
            _ => Err(FailureModel::MalformedPath { path, cause: None }),
        },
    }
}

/// The outcome of decoding, as the contracts speak of it.
pub open spec fn legs_result(r: Result<Vec<Segment>, Failure>) -> Result<Seq<Leg>, FailureModel> {
    match r {
        Ok(segments) => Ok(legs(segments@)),
        Err(e) => Err(e@),
    }
}

/// The outcome of a search, as the contracts speak of it.
pub open spec fn route_result(r: Result<Vec<usize>, Failure>) -> Result<Seq<int>, FailureModel> {
    match r {
        Ok(route) => Ok(ints(route@)),
        Err(e) => Err(e@),
    }
}

/// Decodes a path: parses it as YAML, and takes the elements of the sequence
/// as its segments.
pub fn decode_path(path: &str) -> (r: Result<Vec<Segment>, Failure>)
    ensures
        legs_result(r) == decoded(path@),
{
    match parse(path) {
        Err(message) => Err(
            Failure::MalformedPath { path: String::from_str(path), cause: Some(message) },
        ),
        Ok(whole) => {
            proof {
                lemma_valid_untag(whole@);
            }
            match whole.untagged() {
                Yaml::Sequence(items) => {
                    proof {
                        lemma_sequence_view(*items);
                    }
                    let mut segments: Vec<Segment> = Vec::new();
                    let mut i: usize = 0;
                    while i < items.len()
                        invariant
                            i <= items.len(),
                            untag(whole@) == Tree::Sequence(trees(items@)),
                            valid(untag(whole@)),
                            segments.len() == i,
                            forall|k: int|
                                0 <= k < i ==> (#[trigger] segments[k])@ == leg_of(items[k]@),
                        decreases items.len() - i,
                    {
                        assert(trees(items@)[i as int] == items[i as int]@);
                        assert(valid(untag(whole@)->Sequence_0[i as int]));
                        let text = match emit(&items[i]) {
                            Ok(text) => Ok(trim_line_ends(text.as_str())),
                            Err(message) => Err(message),
                        };
                        segments.push(Segment { value: items[i].duplicate(), text });
                        i += 1;
                    }
                    proof {
                        assert(legs(segments@) =~= Seq::new(
                            trees(items@).len(),
                            |i: int| leg_of(trees(items@)[i]),
                        ));
                    }
                    Ok(segments)
                },
                _ => Err(Failure::MalformedPath { path: String::from_str(path), cause: None }),
            }
        },
    }
}

/// A walk that has come along `route` and goes on as `rest` tells.
pub open spec fn walk_on(route: Seq<int>, rest: Result<Seq<int>, (int, Stop)>) -> Result<
    Seq<int>,
    (int, Stop),
> {
    match rest {
        Ok(more) => Ok(route + more),
        Err(stop) => Err(stop),
    }
}

/// Finds the node that the segments lead to in `doc`, and gives the route to
/// it. Where `require_null` is set, the node must be null.
pub fn locate(doc: &Yaml, segments: &Vec<Segment>, path: &str, require_null: bool) -> (r: Result<
    Vec<usize>,
    Failure,
>)
    ensures
        route_result(r) == located(doc@, legs(segments@), path@, require_null),
        r is Ok ==> node_at(doc@, route_result(r)->Ok_0) is Some,
{
    let mut route: Vec<usize> = Vec::new();
    let mut trail: Vec<String> = Vec::new();
    let mut node: &Yaml = doc;
    let mut i: usize = 0;
    let ghost all = legs(segments@);
    proof {
        assert(Seq::<int>::empty() + walk(doc@, all, 0)->Ok_0 =~= walk(doc@, all, 0)->Ok_0);
    }
    while i < segments.len()
        invariant
            i <= segments.len(),
            all == legs(segments@),
            route.len() == i,
            trail.len() == i,
            forall|k: int| 0 <= k < i ==> (#[trigger] all[k]).text is Ok,
            texts(trail@) == Seq::new(i as nat, |k: int| all[k].text->Ok_0),
            walk(doc@, all, 0) == walk_on(ints(route@), walk(node@, all, i as int)),
            node_at(doc@, ints(route@)) == Some(node@),
        decreases segments.len() - i,
    {
        assert(all[i as int] == segments[i as int]@);
        let ghost written = texts(trail@);
        match &segments[i].text {
            Err(message) => {
                return Err(Failure::Unwritable { error: message.clone() });
            },
            Ok(text) => {
                trail.push(text.clone());
            },
        }
        proof {
            assert forall|k: int| 0 <= k <= i implies texts(trail@)[k] == all[k].text->Ok_0 by {
                if k < i {
                    assert(written[k] == all[k].text->Ok_0);
                }
            }
            assert(texts(trail@) =~= cursor(all, i as int));
            lemma_hop_child(node@, all[i as int].tree);
        }
        match node.hop(&segments[i].value) {
            Hop::Unsupported => {
                return Err(Failure::UnsupportedPath { cursor: trail, path: String::from_str(path) });
            },
            Hop::Missing(miss) => {
                return Err(Failure::PathNotFound { cursor: trail, path: String::from_str(path), miss });
            },
            Hop::To(j) => {
                let ghost before = ints(route@);
                let ghost rest = walk(child(node@, j as int)->Some_0, all, i + 1);
                proof {
                    lemma_node_at_push(doc@, before, j as int);
                }
                node = node.child(j).unwrap();
                route.push(j);
                proof {
                    assert(ints(route@) =~= before.push(j as int));
                    if rest is Ok {
                        assert(before + (seq![j as int] + rest->Ok_0) =~= before.push(j as int)
                            + rest->Ok_0);
                    }
                }
            },
        }
        i += 1;
    }
    proof {
        assert(ints(route@) + Seq::<int>::empty() =~= ints(route@));
    }
    if require_null && !node.is_null() {
        Err(Failure::PreconditionFailed { path: String::from_str(path) })
    } else {
        Ok(route)
    }
}

} // verus!
