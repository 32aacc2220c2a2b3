//! Overwriting the node that a path leads to.

use vstd::prelude::*;
use vstd::string::*;
use crate::codec::{parse, parsed, tree_result};
use crate::failure::{done, Failure, FailureModel, Origin, Source};
use crate::failure::Miss;
use crate::path::{
    cursor, decode_path, decoded, hop, legs, lemma_walk_after_put, lemma_walk_arrives,
    lemma_walk_prefix, locate, located, walk, Leg, Segment, Turn,
};
use crate::route::{
    lemma_put_frame, lemma_put_get, lemma_put_twice, lemma_put_valid, node_at, parting, put,
};
use crate::tree::{lemma_position_absent, same, untag, valid, Num, Tree, Yaml};

verus! {

/// What an update does, given the segments that the path was decoded to and
/// the value that the new text was parsed to: the outcome, and the document
/// after it.
///
/// The segments are followed from the root. Where they lead to a node, and
/// the node is null if that is required, and the new value is YAML, the node
/// is replaced by the new value. Otherwise the first of these that fails is
/// the outcome, and the document stays as it is.
pub open spec fn outcome(
    doc: Tree,
    path: Seq<char>,
    legs: Result<Seq<Leg>, FailureModel>,
    text: Seq<char>,
    value: Result<Tree, Seq<char>>,
    require_null: bool,
) -> (Result<(), FailureModel>, Tree) {
    match legs {
        Err(failure) => (Err(failure), doc),
        Ok(legs) => match located(doc, legs, path, require_null) {
            Err(failure) => (Err(failure), doc),
            Ok(route) => match value {
                Err(message) => (
                    Err(
                        FailureModel::InvalidValue {
                            value: text,
                            origin: Source::Path(path),
                            error: message,
                        },
                    ),
                    doc,
                ),
                Ok(new) => (Ok(()), put(doc, route, new)),
            },
        },
    }
}

/// What an update does: the outcome, and the document after it.
pub open spec fn updated(doc: Tree, path: Seq<char>, text: Seq<char>, require_null: bool) -> (
    Result<(), FailureModel>,
    Tree,
) {
    outcome(doc, path, decoded(path), text, parsed(text), require_null)
}

/// Replaces the node that `segments` lead to in `doc` by `value`, which
/// `new_value` was parsed to. Where `require_null` is set, the node must be
/// null. On a failure `doc` stays as it is.
pub fn apply_update(
    doc: &mut Yaml,
    segments: &Vec<Segment>,
    path: &str,
    new_value: &str,
    value: Result<Yaml, String>,
    require_null: bool,
) -> (r: Result<(), Failure>)
    ensures
        (done(r), final(doc)@) == outcome(
            old(doc)@,
            path@,
            Ok(legs(segments@)),
            new_value@,
            tree_result(value),
            require_null,
        ),
        valid(old(doc)@) && (value matches Ok(new) ==> valid(new@)) ==> valid(final(doc)@),
{
    proof {
        if value is Ok {
            lemma_put_valid_any(old(doc)@, value->Ok_0@);
        }
    }
    let route = match locate(doc, segments, path, require_null) {
        Ok(route) => route,
        Err(failure) => {
            return Err(failure);
        },
    };
    match value {
        Err(message) => Err(
            Failure::InvalidValue {
                value: String::from_str(new_value),
                origin: Origin::Path(String::from_str(path)),
                error: message,
            },
        ),
        Ok(new) => {
            doc.replace_at(&route, new);
            Ok(())
        },
    }
}

/// Replaces the node that `path` leads to in `doc` by the value that
/// `new_value` is in YAML. Where `require_null` is set, the node must be
/// null. On a failure `doc` stays as it is.
pub fn update_value(doc: &mut Yaml, path: &str, new_value: &str, require_null: bool) -> (r: Result<
    (),
    Failure,
>)
    ensures
        (done(r), final(doc)@) == updated(old(doc)@, path@, new_value@, require_null),
        valid(old(doc)@) ==> valid(final(doc)@),
{
    match decode_path(path) {
        Err(failure) => Err(failure),
        Ok(segments) => apply_update(doc, &segments, path, new_value, parse(new_value), require_null),
    }
}

/// A valid document stays valid whatever route a valid node is put at.
proof fn lemma_put_valid_any(doc: Tree, new: Tree)
    ensures
        valid(doc) && valid(new) ==> forall|route: Seq<int>| valid(#[trigger] put(doc, route, new)),
{
    if valid(doc) && valid(new) {
        assert forall|route: Seq<int>| valid(#[trigger] put(doc, route, new)) by {
            lemma_put_valid(doc, route, new);
        }
    }
}

/// An update that fails leaves the document as it was.
pub proof fn law_failure_keeps(
    doc: Tree,
    path: Seq<char>,
    legs: Result<Seq<Leg>, FailureModel>,
    text: Seq<char>,
    value: Result<Tree, Seq<char>>,
    require_null: bool,
)
    ensures
        outcome(doc, path, legs, text, value, require_null).0 is Err ==> outcome(
            doc,
            path,
            legs,
            text,
            value,
            require_null,
        ).1 == doc,
{
}

/// An update that succeeds changes the node that the path leads to, and no
/// other: afterwards the new value stands at the end of the route that the
/// segments walk, and every route that parts from that one leads to what it
/// led to before.
pub proof fn law_update_writes(
    doc: Tree,
    path: Seq<char>,
    legs: Seq<Leg>,
    text: Seq<char>,
    new: Tree,
    require_null: bool,
)
    requires
        outcome(doc, path, Ok(legs), text, Ok(new), require_null).0 is Ok,
    ensures
        walk(doc, legs, 0) is Ok,
        ({
            let route = walk(doc, legs, 0)->Ok_0;
            let after = outcome(doc, path, Ok(legs), text, Ok(new), require_null).1;
            &&& after == put(doc, route, new)
            &&& node_at(after, route) == Some(new)
            &&& forall|other: Seq<int>| #[trigger]
                parting(route, other) ==> node_at(after, other) == node_at(doc, other)
        }),
{
    let route = walk(doc, legs, 0)->Ok_0;
    lemma_walk_arrives(doc, legs, 0);
    lemma_put_get(doc, route, new);
    assert forall|other: Seq<int>| #[trigger] parting(route, other) implies node_at(
        put(doc, route, new),
        other,
    ) == node_at(doc, other) by {
        lemma_put_frame(doc, route, other, new);
    }
}

/// An update that has succeeded changes nothing when it is made once more.
/// Where the node had to be null and the new value is not, the second
/// update fails; the document is then as the first one left it, too.
pub proof fn law_update_idempotent(
    doc: Tree,
    path: Seq<char>,
    legs: Result<Seq<Leg>, FailureModel>,
    text: Seq<char>,
    value: Result<Tree, Seq<char>>,
    require_null: bool,
)
    requires
        outcome(doc, path, legs, text, value, require_null).0 is Ok,
    ensures
        ({
            let once = outcome(doc, path, legs, text, value, require_null).1;
            outcome(once, path, legs, text, value, require_null).1 == once
        }),
{
    let segments = legs->Ok_0;
    let new = value->Ok_0;
    let route = walk(doc, segments, 0)->Ok_0;
    lemma_walk_arrives(doc, segments, 0);
    lemma_walk_after_put(doc, segments, 0, new);
    lemma_put_twice(doc, route, new, new);
}

/// The same of an update as it is called, with the path and the new value
/// as texts: one that has succeeded changes nothing when it is made once
/// more.
pub proof fn law_update_value_idempotent(
    doc: Tree,
    path: Seq<char>,
    text: Seq<char>,
    require_null: bool,
)
    requires
        updated(doc, path, text, require_null).0 is Ok,
    ensures
        ({
            let once = updated(doc, path, text, require_null).1;
            updated(once, path, text, require_null).1 == once
        }),
{
    law_update_idempotent(doc, path, decoded(path), text, parsed(text), require_null);
}

/// The node at which segment `k` of a path is tried: the one that the
/// segments before it lead to.
pub open spec fn reached(doc: Tree, legs: Seq<Leg>, k: int) -> Option<Tree> {
    match walk(doc, legs.take(k), 0) {
        Ok(route) => node_at(doc, route),
        Err(_) => None,
    }
}

/// The first segment is tried at the root, whatever the document is.
pub proof fn lemma_reached_first(doc: Tree, legs: Seq<Leg>)
    ensures
        reached(doc, legs, 0) == Some(doc),
{
}

/// A segment that leads nowhere ends the update, whatever follows it and
/// whatever the new value is. The failure tells why, and holds the text of
/// the segments up to that one.
pub proof fn law_walk_stops(
    doc: Tree,
    path: Seq<char>,
    legs: Seq<Leg>,
    text: Seq<char>,
    value: Result<Tree, Seq<char>>,
    require_null: bool,
    k: int,
)
    requires
        0 <= k < legs.len(),
        reached(doc, legs, k) is Some,
        legs[k].text is Ok,
        !(hop(reached(doc, legs, k)->Some_0, legs[k].tree) is To),
    ensures
        outcome(doc, path, Ok(legs), text, value, require_null) == (
            Err::<(), FailureModel>(
                match hop(reached(doc, legs, k)->Some_0, legs[k].tree) {
                    Turn::Missing(miss) => FailureModel::PathNotFound {
                        cursor: cursor(legs, k),
                        path,
                        miss,
                    },
                    _ => FailureModel::UnsupportedPath { cursor: cursor(legs, k), path },
                },
            ),
            doc,
        ),
{
    lemma_walk_prefix(doc, legs, k, 0);
}

/// A key that the mapping does not have is not found: where a segment that
/// is no sequence is tried at a node that is no mapping, or at a mapping none
/// of whose keys is the same, the update fails, and the document stays as it
/// is.
pub proof fn law_absent_key(
    doc: Tree,
    path: Seq<char>,
    legs: Seq<Leg>,
    text: Seq<char>,
    value: Result<Tree, Seq<char>>,
    require_null: bool,
    k: int,
)
    requires
        0 <= k < legs.len(),
        reached(doc, legs, k) is Some,
        legs[k].text is Ok,
        !(untag(legs[k].tree) is Sequence),
        untag(reached(doc, legs, k)->Some_0) matches Tree::Mapping(entries) ==> forall|j: int|
            0 <= j < entries.len() ==> !same(legs[k].tree, (#[trigger] entries[j]).0),
    ensures
        outcome(doc, path, Ok(legs), text, value, require_null) == (
            Err::<(), FailureModel>(
                FailureModel::PathNotFound { cursor: cursor(legs, k), path, miss: Miss::Key },
            ),
            doc,
        ),
{
    match untag(reached(doc, legs, k)->Some_0) {
        Tree::Mapping(entries) => lemma_position_absent(legs[k].tree, entries, 0),
        _ => {},
    }
    law_walk_stops(doc, path, legs, text, value, require_null, k);
}

/// A segment that is a sequence of no element, or of more than one, is not
/// supported: the update fails at it, whatever the node it is tried at.
pub proof fn law_unsupported_segment(
    doc: Tree,
    path: Seq<char>,
    legs: Seq<Leg>,
    text: Seq<char>,
    value: Result<Tree, Seq<char>>,
    require_null: bool,
    k: int,
)
    requires
        0 <= k < legs.len(),
        reached(doc, legs, k) is Some,
        legs[k].text is Ok,
        untag(legs[k].tree) matches Tree::Sequence(items) && items.len() != 1,
    ensures
        outcome(doc, path, Ok(legs), text, value, require_null) == (
            Err::<(), FailureModel>(
                FailureModel::UnsupportedPath { cursor: cursor(legs, k), path },
            ),
            doc,
        ),
{
    law_walk_stops(doc, path, legs, text, value, require_null, k);
}

/// A segment that is a sequence of one element which is no index, that is
/// anything but a non-negative integer, leads nowhere: the update fails at
/// it, whatever the node it is tried at.
pub proof fn law_bad_index(
    doc: Tree,
    path: Seq<char>,
    legs: Seq<Leg>,
    text: Seq<char>,
    value: Result<Tree, Seq<char>>,
    require_null: bool,
    k: int,
)
    requires
        0 <= k < legs.len(),
        reached(doc, legs, k) is Some,
        legs[k].text is Ok,
        untag(legs[k].tree) matches Tree::Sequence(items) && items.len() == 1 && !(untag(items[0])
            matches Tree::Number(Num::PosInt(_))),
    ensures
        outcome(doc, path, Ok(legs), text, value, require_null) == (
            Err::<(), FailureModel>(
                FailureModel::PathNotFound { cursor: cursor(legs, k), path, miss: Miss::BadIndex },
            ),
            doc,
        ),
{
    law_walk_stops(doc, path, legs, text, value, require_null, k);
}

/// Where the node must be null: an update of a node that is not null, with or
/// without a tag, fails and leaves the document as it is; an update of a
/// node that is null does what it does without the requirement.
pub proof fn law_require_null(
    doc: Tree,
    path: Seq<char>,
    legs: Seq<Leg>,
    text: Seq<char>,
    value: Result<Tree, Seq<char>>,
)
    requires
        walk(doc, legs, 0) is Ok,
    ensures
        node_at(doc, walk(doc, legs, 0)->Ok_0) is Some,
        outcome(doc, path, Ok(legs), text, value, true) == (if untag(
            node_at(doc, walk(doc, legs, 0)->Ok_0)->Some_0,
        ) is Null {
            outcome(doc, path, Ok(legs), text, value, false)
        } else {
            (Err::<(), FailureModel>(FailureModel::PreconditionFailed { path }), doc)
        }),
{
    lemma_walk_arrives(doc, legs, 0);
}

} // verus!
