//! The boundary to `serde_yaml`: the parser, the emitter, and the conversion
//! between its values and [`Yaml`].
//!
//! Nothing in this module is proved about `serde_yaml` itself. Each item
//! marked `external_body` states what the crate's source shows of one of its
//! functions; the rest of the library is proved from those statements.

use vstd::prelude::*;
use crate::tree::{
    distinct_keys, entry_trees, lemma_mapping_view, lemma_sequence_view, same_num, tag_text, trees,
    valid, Num, Tree, Yaml,
};

verus! {

/// `serde_yaml::Value`, a parsed YAML value. Nothing is known of what is in
/// one but what [`value_tree`] says.
#[verifier::external_type_specification]
#[verifier::external_body]
pub struct ExValue(serde_yaml::Value);

/// `serde_yaml::Number`, a YAML number. Nothing is known of what is in one but
/// what [`number_of`] says.
#[verifier::external_type_specification]
#[verifier::external_body]
pub struct ExNumber(serde_yaml::Number);

/// `serde_yaml::Error`, a failure of the parser or the emitter. Nothing is
/// known of one but the message that [`error_text`] stands for.
#[verifier::external_type_specification]
#[verifier::external_body]
pub struct ExError(serde_yaml::Error);

/// The number that a `serde_yaml::Number` holds: the variant of its private
/// representation, with a float given by its bit pattern.
pub uninterp spec fn number_of(n: serde_yaml::Number) -> Num;

/// `serde_yaml::Number::as_u64`: the value of a non-negative integer, and
/// `None` for a negative integer or a float.
#[verifier::external_body]
pub(crate) fn number_as_u64(n: &serde_yaml::Number) -> (r: Option<u64>)
    ensures
        r == (match number_of(*n) {
            Num::PosInt(u) => Some(u),
            _ => None::<u64>,
        }),
{
    n.as_u64()
}

/// `==` on `serde_yaml::Number`: integers of one sign are equal when their
/// values are, floats when both are NaN or IEEE 754 calls them equal, and
/// numbers of different kinds never.
#[verifier::external_body]
pub(crate) fn number_eq(a: &serde_yaml::Number, b: &serde_yaml::Number) -> (r: bool)
    ensures
        r == same_num(number_of(*a), number_of(*b)),
{
    a == b
}

/// `Clone::clone` on `serde_yaml::Number`: a number that holds the same.
pub assume_specification[ <serde_yaml::Number as Clone>::clone ](n: &serde_yaml::Number) -> (r:
    serde_yaml::Number)
    ensures
        number_of(r) == number_of(*n),
;

/// What a `serde_yaml::Value` holds. A tag is given as its `Display` writes
/// it, a number by [`number_of`], and the entries of a mapping in the order
/// in which the mapping yields them.
pub uninterp spec fn value_tree(v: serde_yaml::Value) -> Tree;

/// The message that the `Display` of a `serde_yaml::Error` writes.
pub uninterp spec fn error_text(e: serde_yaml::Error) -> Seq<char>;

/// What `serde_yaml::from_str` makes of a text: the value it holds, or the
/// message of the error.
pub uninterp spec fn parsed(text: Seq<char>) -> Result<Tree, Seq<char>>;

/// What `serde_yaml::to_string` writes for a value that holds `t`, or the
/// message of the error.
pub uninterp spec fn emitted(t: Tree) -> Result<Seq<char>, Seq<char>>;

/// One level of a `serde_yaml::Value`: its variant, with what the variant
/// holds.
pub(crate) enum Parts<'a> {
    Null,
    Bool(bool),
    Number(&'a serde_yaml::Number),
    String(&'a String),
    Sequence(&'a Vec<serde_yaml::Value>),
    Mapping(Vec<(&'a serde_yaml::Value, &'a serde_yaml::Value)>),
    Tagged(String, &'a serde_yaml::Value),
}

/// What the values of a sequence hold.
pub(crate) open spec fn value_trees(items: Seq<serde_yaml::Value>) -> Seq<Tree> {
    Seq::new(items.len(), |i: int| value_tree(items[i]))
}

/// What the entries of a mapping hold.
pub(crate) open spec fn pair_trees(entries: Seq<(serde_yaml::Value, serde_yaml::Value)>) -> Seq<
    (Tree, Tree),
> {
    Seq::new(entries.len(), |i: int| (value_tree(entries[i].0), value_tree(entries[i].1)))
}

/// What borrowed entries of a mapping hold.
pub(crate) open spec fn borrowed_trees(
    entries: Seq<(&serde_yaml::Value, &serde_yaml::Value)>,
) -> Seq<(Tree, Tree)> {
    Seq::new(entries.len(), |i: int| (value_tree(*entries[i].0), value_tree(*entries[i].1)))
}

/// The tree that one level of a value stands for.
pub(crate) open spec fn parts_tree(p: Parts) -> Tree {
    match p {
        Parts::Null => Tree::Null,
        Parts::Bool(b) => Tree::Bool(b),
        Parts::Number(n) => Tree::Number(number_of(*n)),
        Parts::String(s) => Tree::Str(s@),
        Parts::Sequence(items) => Tree::Sequence(value_trees(items@)),
        Parts::Mapping(entries) => Tree::Mapping(borrowed_trees(entries@)),
        Parts::Tagged(tag, inner) => Tree::Tagged(tag@, Box::new(value_tree(*inner))),
    }
}

/// `serde_yaml::from_str` at the type `serde_yaml::Value`. The result
/// depends on the text alone.
#[verifier::external_body]
fn read_value(text: &str) -> (r: Result<serde_yaml::Value, serde_yaml::Error>)
    ensures
        parsed(text@) == (match r {
            Ok(v) => Ok::<Tree, Seq<char>>(value_tree(v)),
            Err(e) => Err::<Tree, Seq<char>>(error_text(e)),
        }),
{
    serde_yaml::from_str::<serde_yaml::Value>(text)
}

/// `serde_yaml::to_string` on a `serde_yaml::Value`. The result depends on
/// what the value holds alone.
#[verifier::external_body]
fn write_value(v: &serde_yaml::Value) -> (r: Result<String, serde_yaml::Error>)
    ensures
        emitted(value_tree(*v)) == (match r {
            Ok(s) => Ok::<Seq<char>, Seq<char>>(s@),
            Err(e) => Err::<Seq<char>, Seq<char>>(error_text(e)),
        }),
{
    serde_yaml::to_string(v)
}

/// The `Display` of a `serde_yaml::Error`.
#[verifier::external_body]
fn describe(e: &serde_yaml::Error) -> (s: String)
    ensures
        s@ == error_text(*e),
{
    e.to_string()
}

/// Takes one level of a `serde_yaml::Value` apart. The tag of a tagged value
/// comes as `Display` writes it: a `!`, then the tag's name, which is never
/// empty. The entries of a mapping come in the order of `Mapping::iter`; no
/// two keys of a mapping are equal.
#[verifier::external_body]
fn unpack(v: &serde_yaml::Value) -> (p: Parts<'_>)
    ensures
        value_tree(*v) == parts_tree(p),
        p matches Parts::Mapping(entries) ==> distinct_keys(borrowed_trees(entries@)),
        p matches Parts::Tagged(tag, _) ==> tag_text(tag@),
{
    match v {
        serde_yaml::Value::Null => Parts::Null,
        serde_yaml::Value::Bool(b) => Parts::Bool(*b),
        serde_yaml::Value::Number(n) => Parts::Number(n),
        serde_yaml::Value::String(s) => Parts::String(s),
        serde_yaml::Value::Sequence(items) => Parts::Sequence(items),
        serde_yaml::Value::Mapping(m) => Parts::Mapping(m.iter().collect()),
        serde_yaml::Value::Tagged(t) => Parts::Tagged(t.tag.to_string(), &t.value),
    }
}

/// `serde_yaml::Value::Null`.
#[verifier::external_body]
fn value_null() -> (v: serde_yaml::Value)
    ensures
        value_tree(v) == Tree::Null,
{
    serde_yaml::Value::Null
}

/// `serde_yaml::Value::Bool`.
#[verifier::external_body]
fn value_bool(b: bool) -> (v: serde_yaml::Value)
    ensures
        value_tree(v) == Tree::Bool(b),
{
    serde_yaml::Value::Bool(b)
}

/// `serde_yaml::Value::Number`.
#[verifier::external_body]
fn value_number(n: serde_yaml::Number) -> (v: serde_yaml::Value)
    ensures
        value_tree(v) == Tree::Number(number_of(n)),
{
    serde_yaml::Value::Number(n)
}

/// `serde_yaml::Value::String`.
#[verifier::external_body]
fn value_string(s: String) -> (v: serde_yaml::Value)
    ensures
        value_tree(v) == Tree::Str(s@),
{
    serde_yaml::Value::String(s)
}

/// `serde_yaml::Value::Sequence`.
#[verifier::external_body]
fn value_sequence(items: Vec<serde_yaml::Value>) -> (v: serde_yaml::Value)
    ensures
        value_tree(v) == Tree::Sequence(value_trees(items@)),
{
    serde_yaml::Value::Sequence(items)
}

/// `serde_yaml::Mapping::from_iter`, in a `serde_yaml::Value::Mapping`. An
/// entry whose key is equal to an earlier one would take that entry's place;
/// where there is none, the mapping holds the entries as they are given.
#[verifier::external_body]
fn value_mapping(entries: Vec<(serde_yaml::Value, serde_yaml::Value)>) -> (v: serde_yaml::Value)
    requires
        distinct_keys(pair_trees(entries@)),
    ensures
        value_tree(v) == Tree::Mapping(pair_trees(entries@)),
{
    serde_yaml::Value::Mapping(entries.into_iter().collect())
}

/// `serde_yaml::value::Tag::new`, in a `serde_yaml::Value::Tagged`. The tag
/// must not be empty. One that begins with `!` before its name is kept as it
/// is written.
#[verifier::external_body]
fn value_tagged(tag: String, inner: serde_yaml::Value) -> (v: serde_yaml::Value)
    requires
        tag_text(tag@),
    ensures
        value_tree(v) == Tree::Tagged(tag@, Box::new(value_tree(inner))),
{
    let tag = serde_yaml::value::Tag::new(tag);
    serde_yaml::Value::Tagged(Box::new(serde_yaml::value::TaggedValue { tag, value: inner }))
}

/// The document that a parsed value holds.
fn from_value(v: &serde_yaml::Value) -> (y: Yaml)
    ensures
        y@ == value_tree(*v),
        valid(y@),
    decreases value_tree(*v),
{
    broadcast use vstd::seq::axiom_seq_index_decreases;

    let ghost whole = value_tree(*v);
    match unpack(v) {
        Parts::Null => Yaml::Null,
        Parts::Bool(b) => Yaml::Bool(b),
        Parts::Number(n) => Yaml::Number(n.clone()),
        Parts::String(s) => Yaml::String(s.clone()),
        Parts::Sequence(items) => {
            let mut nodes: Vec<Yaml> = Vec::new();
            let mut i: usize = 0;
            while i < items.len()
                invariant
                    i <= items.len(),
                    whole == value_tree(*v),
                    whole == Tree::Sequence(value_trees(items@)),
                    nodes.len() == i,
                    forall|k: int|
                        0 <= k < i ==> (#[trigger] nodes[k])@ == value_tree(items[k]) && valid(
                            nodes[k]@,
                        ),
                decreases items.len() - i,
            {
                assert(whole->Sequence_0[i as int] == value_tree(items[i as int]));
                nodes.push(from_value(&items[i]));
                i += 1;
            }
            proof {
                lemma_sequence_view(nodes);
                assert(trees(nodes@) =~= value_trees(items@));
            }
            Yaml::Sequence(nodes)
        },
        Parts::Mapping(entries) => {
            let mut nodes: Vec<(Yaml, Yaml)> = Vec::new();
            let mut i: usize = 0;
            while i < entries.len()
                invariant
                    i <= entries.len(),
                    whole == value_tree(*v),
                    whole == Tree::Mapping(borrowed_trees(entries@)),
                    nodes.len() == i,
                    forall|k: int|
                        0 <= k < i ==> {
                            &&& (#[trigger] nodes[k]).0@ == value_tree(*entries[k].0)
                            &&& nodes[k].1@ == value_tree(*entries[k].1)
                            &&& valid(nodes[k].0@)
                            &&& valid(nodes[k].1@)
                        },
                decreases entries.len() - i,
            {
                assert(whole->Mapping_0[i as int] == (
                    value_tree(*entries[i as int].0),
                    value_tree(*entries[i as int].1),
                ));
                assert(whole->Mapping_0[i as int].0 == value_tree(*entries[i as int].0));
                assert(whole->Mapping_0[i as int].1 == value_tree(*entries[i as int].1));
                let key = from_value(entries[i].0);
                let value = from_value(entries[i].1);
                nodes.push((key, value));
                i += 1;
            }
            proof {
                lemma_mapping_view(nodes);
                assert(entry_trees(nodes@) =~= borrowed_trees(entries@));
            }
            Yaml::Mapping(nodes)
        },
        Parts::Tagged(tag, inner) => {
            assert(*whole->Tagged_1 == value_tree(*inner));
            Yaml::Tagged(tag, Box::new(from_value(inner)))
        },
    }
}

/// A value for the parser's emitter that holds what `y` holds.
fn to_value(y: &Yaml) -> (v: serde_yaml::Value)
    requires
        valid(y@),
    ensures
        value_tree(v) == y@,
    decreases y,
{
    broadcast use vstd::std_specs::vec::axiom_vec_index_decreases;

    match y {
        Yaml::Null => value_null(),
        Yaml::Bool(b) => value_bool(*b),
        Yaml::Number(n) => value_number(n.clone()),
        Yaml::String(s) => value_string(s.clone()),
        Yaml::Sequence(items) => {
            proof {
                lemma_sequence_view(*items);
            }
            let mut values: Vec<serde_yaml::Value> = Vec::new();
            let mut i: usize = 0;
            while i < items.len()
                invariant
                    i <= items.len(),
                    y == Yaml::Sequence(*items),
                    y@ == Tree::Sequence(trees(items@)),
                    valid(y@),
                    values.len() == i,
                    forall|k: int| 0 <= k < i ==> value_tree(#[trigger] values[k]) == items[k]@,
                decreases items.len() - i,
            {
                assert(y->Sequence_0 == *items);
                assert(trees(items@)[i as int] == items[i as int]@);
                assert(valid(y@->Sequence_0[i as int]));
                values.push(to_value(&items[i]));
                i += 1;
            }
            proof {
                assert(value_trees(values@) =~= trees(items@));
            }
            value_sequence(values)
        },
        Yaml::Mapping(entries) => {
            proof {
                lemma_mapping_view(*entries);
            }
            let mut values: Vec<(serde_yaml::Value, serde_yaml::Value)> = Vec::new();
            let mut i: usize = 0;
            while i < entries.len()
                invariant
                    i <= entries.len(),
                    y == Yaml::Mapping(*entries),
                    y@ == Tree::Mapping(entry_trees(entries@)),
                    valid(y@),
                    values.len() == i,
                    forall|k: int|
                        0 <= k < i ==> {
                            &&& value_tree((#[trigger] values[k]).0) == entries[k].0@
                            &&& value_tree(values[k].1) == entries[k].1@
                        },
                decreases entries.len() - i,
            {
                assert(y->Mapping_0 == *entries);
                assert(entry_trees(entries@)[i as int] == (entries[i as int].0@, entries[i as int].1@));
                assert(valid(y@->Mapping_0[i as int].0) && valid(y@->Mapping_0[i as int].1));
                let key = to_value(&entries[i].0);
                let value = to_value(&entries[i].1);
                values.push((key, value));
                i += 1;
            }
            proof {
                assert(pair_trees(values@) =~= entry_trees(entries@));
            }
            value_mapping(values)
        },
        Yaml::Tagged(tag, inner) => value_tagged(tag.clone(), to_value(inner)),
    }
}

/// A parser's or emitter's outcome, as the contracts speak of it.
pub open spec fn tree_result(r: Result<Yaml, String>) -> Result<Tree, Seq<char>> {
    match r {
        Ok(y) => Ok(y@),
        Err(message) => Err(message@),
    }
}

/// An emitter's outcome, as the contracts speak of it.
pub open spec fn text_result(r: Result<String, String>) -> Result<Seq<char>, Seq<char>> {
    match r {
        Ok(text) => Ok(text@),
        Err(message) => Err(message@),
    }
}

/// Parses a YAML text. The error is the parser's message.
pub fn parse(text: &str) -> (r: Result<Yaml, String>)
    ensures
        tree_result(r) == parsed(text@),
        r matches Ok(y) ==> valid(y@),
{
    match read_value(text) {
        Ok(v) => Ok(from_value(&v)),
        Err(e) => Err(describe(&e)),
    }
}

/// Writes a document as YAML text. The error is the emitter's message.
pub fn emit(doc: &Yaml) -> (r: Result<String, String>)
    requires
        valid(doc@),
    ensures
        text_result(r) == emitted(doc@),
{
    let v = to_value(doc);
    match write_value(&v) {
        Ok(text) => Ok(text),
        Err(e) => Err(describe(&e)),
    }
}

} // verus!
