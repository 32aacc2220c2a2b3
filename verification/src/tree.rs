//! The document tree, its mathematical model, and the relations on it that
//! path resolution is stated in.

use vstd::prelude::*;
use vstd::string::*;
use crate::codec::{number_of, number_eq};

verus! {

/// A YAML document, or any node of one.
///
/// A mapping keeps its entries in the order in which they were written. A
/// number stays in the parser's own type, which alone can hold a float.
#[derive(Debug, PartialEq)]
pub enum Yaml {
    Null,
    Bool(bool),
    Number(serde_yaml::Number),
    String(String),
    Sequence(Vec<Yaml>),
    Mapping(Vec<(Yaml, Yaml)>),
    /// A node with a tag. The tag is written with its leading `!`.
    Tagged(String, Box<Yaml>),
}

/// The model of a number.
pub ghost enum Num {
    /// A non-negative integer.
    PosInt(u64),
    /// A negative integer.
    NegInt(i64),
    /// A float, by its IEEE 754 binary64 bit pattern.
    Float(u64),
}

/// The model of a [`Yaml`] value.
pub ghost enum Tree {
    Null,
    Bool(bool),
    Number(Num),
    Str(Seq<char>),
    Sequence(Seq<Tree>),
    Mapping(Seq<(Tree, Tree)>),
    Tagged(Seq<char>, Box<Tree>),
}

/// Whether a bit pattern is a NaN: all exponent bits set, and a mantissa
/// that is not zero.
pub open spec fn float_is_nan(bits: u64) -> bool {
    bits % 0x8000_0000_0000_0000 > 0x7ff0_0000_0000_0000
}

/// Whether a bit pattern is one of the two zeros.
pub open spec fn float_is_zero(bits: u64) -> bool {
    bits % 0x8000_0000_0000_0000 == 0
}

/// Equality of numbers as keys: by kind and value, with every NaN equal to
/// every other and the two zeros equal.
pub open spec fn same_num(a: Num, b: Num) -> bool {
    match (a, b) {
        (Num::PosInt(x), Num::PosInt(y)) => x == y,
        (Num::NegInt(x), Num::NegInt(y)) => x == y,
        (Num::Float(x), Num::Float(y)) => if float_is_nan(x) || float_is_nan(y) {
            float_is_nan(x) && float_is_nan(y)
        } else {
            x == y || (float_is_zero(x) && float_is_zero(y))
        },
        _ => false,
    }
}

/// Equality of nodes as keys. Sequences are compared item by item, tagged
/// nodes by tag and content, and mappings without regard to the order of
/// their entries: each key of the first must be a key of the second, with
/// the same value.
pub open spec fn same(a: Tree, b: Tree) -> bool
    decreases a, 0nat, 0nat,
{
    match (a, b) {
        (Tree::Null, Tree::Null) => true,
        (Tree::Bool(x), Tree::Bool(y)) => x == y,
        (Tree::Number(x), Tree::Number(y)) => same_num(x, y),
        (Tree::Str(x), Tree::Str(y)) => x == y,
        (Tree::Sequence(xs), Tree::Sequence(ys)) => {
            &&& xs.len() == ys.len()
            &&& forall|i: int| 0 <= i < xs.len() ==> same(#[trigger] xs[i], ys[i])
        },
        (Tree::Mapping(xs), Tree::Mapping(ys)) => {
            &&& xs.len() == ys.len()
            &&& forall|i: int| 0 <= i < xs.len() ==> same_entry(#[trigger] xs[i], ys)
        },
        (Tree::Tagged(s, x), Tree::Tagged(t, y)) => s == t && same(*x, *y),
        _ => false,
    }
}

/// Whether `entries` has the key of `entry`, with the same value.
pub open spec fn same_entry(entry: (Tree, Tree), entries: Seq<(Tree, Tree)>) -> bool
    decreases entry, 0nat, 0nat,
{
    let j = position(entry.0, entries, 0);
    j < entries.len() && same(entry.1, entries[j].1)
}

/// The index of the first entry at or after `from` whose key is the same as
/// `key`, or the number of entries where there is none.
pub open spec fn position(key: Tree, entries: Seq<(Tree, Tree)>, from: int) -> int
    decreases key, 1nat, entries.len() - from,
{
    if from < 0 || from >= entries.len() {
        entries.len() as int
    } else if same(key, entries[from].0) {
        from
    } else {
        position(key, entries, from + 1)
    }
}

impl Yaml {
    /// The model of this value.
    pub open spec fn tree(&self) -> Tree
        decreases self,
    {
        match self {
            Yaml::Null => Tree::Null,
            Yaml::Bool(b) => Tree::Bool(*b),
            Yaml::Number(n) => Tree::Number(number_of(*n)),
            Yaml::String(s) => Tree::Str(s@),
            Yaml::Sequence(items) => Tree::Sequence(
                Seq::new(
                    items@.len(),
                    |i: int|
                        if 0 <= i < items@.len() {
                            items@[i].tree()
                        } else {
                            Tree::Null
                        },
                ),
            ),
            Yaml::Mapping(entries) => Tree::Mapping(
                Seq::new(
                    entries@.len(),
                    |i: int|
                        if 0 <= i < entries@.len() {
                            (entries@[i].0.tree(), entries@[i].1.tree())
                        } else {
                            (Tree::Null, Tree::Null)
                        },
                ),
            ),
            Yaml::Tagged(tag, inner) => Tree::Tagged(tag@, Box::new(inner.tree())),
        }
    }
}

impl View for Yaml {
    type V = Tree;

    open spec fn view(&self) -> Tree {
        self.tree()
    }
}

impl Clone for Yaml {
    fn clone(&self) -> (r: Yaml)
        ensures
            r@ == self@,
    {
        self.duplicate()
    }
}

/// The models of the items of a sequence.
pub open spec fn trees(items: Seq<Yaml>) -> Seq<Tree> {
    Seq::new(items.len(), |i: int| items[i]@)
}

/// The models of the entries of a mapping.
pub open spec fn entry_trees(entries: Seq<(Yaml, Yaml)>) -> Seq<(Tree, Tree)> {
    Seq::new(entries.len(), |i: int| (entries[i].0@, entries[i].1@))
}

/// The model of a sequence is the sequence of its items' models.
pub broadcast proof fn lemma_sequence_view(items: Vec<Yaml>)
    ensures
        #[trigger] Yaml::Sequence(items)@ == Tree::Sequence(trees(items@)),
{
    assert(Yaml::Sequence(items).tree()->Sequence_0 =~= trees(items@));
}

/// The model of a mapping is the sequence of its entries' models.
pub broadcast proof fn lemma_mapping_view(entries: Vec<(Yaml, Yaml)>)
    ensures
        #[trigger] Yaml::Mapping(entries)@ == Tree::Mapping(entry_trees(entries@)),
{
    assert(Yaml::Mapping(entries).tree()->Mapping_0 =~= entry_trees(entries@));
}

impl Yaml {
    /// Whether `self` and `other` are equal as keys.
    pub fn same(&self, other: &Yaml) -> (r: bool)
        ensures
            r == same(self@, other@),
        decreases self, 0nat, 0nat,
    {
        broadcast use vstd::std_specs::vec::axiom_vec_index_decreases;

        match (self, other) {
            (Yaml::Null, Yaml::Null) => true,
            (Yaml::Bool(x), Yaml::Bool(y)) => *x == *y,
            (Yaml::Number(x), Yaml::Number(y)) => number_eq(x, y),
            (Yaml::String(x), Yaml::String(y)) => *x == *y,
            (Yaml::Sequence(xs), Yaml::Sequence(ys)) => {
                proof {
                    lemma_sequence_view(*xs);
                    lemma_sequence_view(*ys);
                }
                if xs.len() != ys.len() {
                    return false;
                }
                let mut i: usize = 0;
                while i < xs.len()
                    invariant
                        i <= xs.len(),
                        xs.len() == ys.len(),
                        self == Yaml::Sequence(*xs),
                        self@ == Tree::Sequence(trees(xs@)),
                        other@ == Tree::Sequence(trees(ys@)),
                        forall|k: int| 0 <= k < i ==> same(#[trigger] trees(xs@)[k], trees(ys@)[k]),
                    decreases xs.len() - i,
                {
                    assert(trees(xs@)[i as int] == xs[i as int]@);
                    if !xs[i].same(&ys[i]) {
                        assert(!same(trees(xs@)[i as int], trees(ys@)[i as int]));
                        return false;
                    }
                    i += 1;
                }
                true
            },
            (Yaml::Mapping(xs), Yaml::Mapping(ys)) => {
                proof {
                    lemma_mapping_view(*xs);
                    lemma_mapping_view(*ys);
                }
                if xs.len() != ys.len() {
                    return false;
                }
                let mut i: usize = 0;
                while i < xs.len()
                    invariant
                        i <= xs.len(),
                        xs.len() == ys.len(),
                        self == Yaml::Mapping(*xs),
                        self@ == Tree::Mapping(entry_trees(xs@)),
                        other@ == Tree::Mapping(entry_trees(ys@)),
                        forall|k: int|
                            0 <= k < i ==> same_entry(
                                #[trigger] entry_trees(xs@)[k],
                                entry_trees(ys@),
                            ),
                    decreases xs.len() - i,
                {
                    let ghost entry = entry_trees(xs@)[i as int];
                    assert(entry == (xs[i as int].0@, xs[i as int].1@));
                    let j = find_key(&xs[i].0, ys);
                    if j >= ys.len() {
                        assert(!same_entry(entry, entry_trees(ys@)));
                        return false;
                    }
                    assert(entry_trees(ys@)[j as int].1 == ys[j as int].1@);
                    if !xs[i].1.same(&ys[j].1) {
                        assert(!same_entry(entry, entry_trees(ys@)));
                        return false;
                    }
                    i += 1;
                }
                true
            },
            (Yaml::Tagged(s, x), Yaml::Tagged(t, y)) => *s == *t && x.same(y),
            _ => false,
        }
    }
}

/// A position is an index of an entry, or the number of entries.
pub proof fn lemma_position_bounds(key: Tree, entries: Seq<(Tree, Tree)>, from: int)
    requires
        0 <= from,
    ensures
        from <= position(key, entries, from) <= entries.len() || (from > entries.len()
            && position(key, entries, from) == entries.len()),
    decreases entries.len() - from,
{
    if from < entries.len() && !same(key, entries[from].0) {
        lemma_position_bounds(key, entries, from + 1);
    }
}

/// A key that no entry has is found nowhere.
pub proof fn lemma_position_absent(key: Tree, entries: Seq<(Tree, Tree)>, from: int)
    requires
        0 <= from,
        forall|j: int| 0 <= j < entries.len() ==> !same(key, (#[trigger] entries[j]).0),
    ensures
        position(key, entries, from) == entries.len(),
    decreases entries.len() - from,
{
    if from < entries.len() {
        assert(!same(key, entries[from].0));
        lemma_position_absent(key, entries, from + 1);
    }
}

/// Whether no key of `entries` is the same as a key before it.
pub open spec fn distinct_keys(entries: Seq<(Tree, Tree)>) -> bool {
    forall|i: int, j: int|
        0 <= i < j < entries.len() ==> !same(#[trigger] entries[j].0, #[trigger] entries[i].0)
}

/// Whether `tag` is written as a tag is: a `!` and at least one more
/// character.
pub open spec fn tag_text(tag: Seq<char>) -> bool {
    tag.len() >= 2 && tag[0] == '!'
}

/// Whether `t` is a document that can be written out: in every mapping no key
/// occurs twice, and every tag is written as a tag is.
pub open spec fn valid(t: Tree) -> bool
    decreases t,
{
    match t {
        Tree::Sequence(items) => forall|i: int| 0 <= i < items.len() ==> valid(#[trigger] items[i]),
        Tree::Mapping(entries) => {
            &&& forall|i: int|
                0 <= i < entries.len() ==> valid((#[trigger] entries[i]).0) && valid(entries[i].1)
            &&& distinct_keys(entries)
        },
        Tree::Tagged(tag, inner) => tag_text(tag) && valid(*inner),
        _ => true,
    }
}

/// The node under every tag of `t`.
pub open spec fn untag(t: Tree) -> Tree
    decreases t,
{
    match t {
        Tree::Tagged(_, inner) => untag(*inner),
        _ => t,
    }
}

/// What is under the tags of a valid node is valid.
pub proof fn lemma_valid_untag(t: Tree)
    requires
        valid(t),
    ensures
        valid(untag(t)),
    decreases t,
{
    match t {
        Tree::Tagged(_, inner) => lemma_valid_untag(*inner),
        _ => {},
    }
}

impl Yaml {
    /// The node under every tag of `self`.
    pub fn untagged(&self) -> (r: &Yaml)
        ensures
            r@ == untag(self@),
            !(r@ is Tagged),
        decreases self,
    {
        match self {
            Yaml::Tagged(_, inner) => inner.untagged(),
            _ => self,
        }
    }

    /// Whether `self` is null, with or without a tag.
    pub fn is_null(&self) -> (r: bool)
        ensures
            r == (untag(self@) is Null),
    {
        match self.untagged() {
            Yaml::Null => true,
            _ => false,
        }
    }

    /// A copy of `self`.
    pub fn duplicate(&self) -> (r: Yaml)
        ensures
            r@ == self@,
        decreases self,
    {
        broadcast use vstd::std_specs::vec::axiom_vec_index_decreases;

        match self {
            Yaml::Null => Yaml::Null,
            Yaml::Bool(b) => Yaml::Bool(*b),
            Yaml::Number(n) => Yaml::Number(n.clone()),
            Yaml::String(s) => Yaml::String(s.clone()),
            Yaml::Sequence(items) => {
                let mut copy: Vec<Yaml> = Vec::new();
                let mut i: usize = 0;
                while i < items.len()
                    invariant
                        i <= items.len(),
                        self == Yaml::Sequence(*items),
                        copy.len() == i,
                        forall|k: int| 0 <= k < i ==> (#[trigger] copy[k])@ == items[k]@,
                    decreases items.len() - i,
                {
                    assert(self->Sequence_0 == *items);
                    copy.push(items[i].duplicate());
                    i += 1;
                }
                proof {
                    lemma_sequence_view(*items);
                    lemma_sequence_view(copy);
                    assert(trees(copy@) =~= trees(items@));
                }
                Yaml::Sequence(copy)
            },
            Yaml::Mapping(entries) => {
                let mut copy: Vec<(Yaml, Yaml)> = Vec::new();
                let mut i: usize = 0;
                while i < entries.len()
                    invariant
                        i <= entries.len(),
                        self == Yaml::Mapping(*entries),
                        copy.len() == i,
                        forall|k: int|
                            0 <= k < i ==> (#[trigger] copy[k]).0@ == entries[k].0@ && copy[k].1@
                                == entries[k].1@,
                    decreases entries.len() - i,
                {
                    assert(self->Mapping_0 == *entries);
                    let key = entries[i].0.duplicate();
                    let value = entries[i].1.duplicate();
                    copy.push((key, value));
                    i += 1;
                }
                proof {
                    lemma_mapping_view(*entries);
                    lemma_mapping_view(copy);
                    assert(entry_trees(copy@) =~= entry_trees(entries@));
                }
                Yaml::Mapping(copy)
            },
            Yaml::Tagged(tag, inner) => Yaml::Tagged(tag.clone(), Box::new(inner.duplicate())),
        }
    }

    /// Whether `self` is a document that can be written out.
    pub fn is_valid(&self) -> (r: bool)
        ensures
            r == valid(self@),
        decreases self,
    {
        broadcast use vstd::std_specs::vec::axiom_vec_index_decreases;

        match self {
            Yaml::Sequence(items) => {
                proof {
                    lemma_sequence_view(*items);
                }
                let mut i: usize = 0;
                while i < items.len()
                    invariant
                        i <= items.len(),
                        self == Yaml::Sequence(*items),
                        self@ == Tree::Sequence(trees(items@)),
                        forall|k: int| 0 <= k < i ==> valid(#[trigger] trees(items@)[k]),
                    decreases items.len() - i,
                {
                    assert(self->Sequence_0 == *items);
                    assert(trees(items@)[i as int] == items[i as int]@);
                    if !items[i].is_valid() {
                        assert(!valid(self@->Sequence_0[i as int]));
                        return false;
                    }
                    i += 1;
                }
                true
            },
            Yaml::Mapping(entries) => {
                proof {
                    lemma_mapping_view(*entries);
                }
                let ghost all = entry_trees(entries@);
                let mut j: usize = 0;
                while j < entries.len()
                    invariant
                        j <= entries.len(),
                        self == Yaml::Mapping(*entries),
                        self@ == Tree::Mapping(all),
                        all == entry_trees(entries@),
                        forall|k: int|
                            0 <= k < j ==> valid((#[trigger] all[k]).0) && valid(all[k].1),
                        forall|a: int, b: int|
                            0 <= a < b < j ==> !same(#[trigger] all[b].0, #[trigger] all[a].0),
                    decreases entries.len() - j,
                {
                    assert(self->Mapping_0 == *entries);
                    assert(all[j as int] == (entries[j as int].0@, entries[j as int].1@));
                    if !entries[j].0.is_valid() || !entries[j].1.is_valid() {
                        return false;
                    }
                    let mut i: usize = 0;
                    while i < j
                        invariant
                            i <= j < entries.len(),
                            all == entry_trees(entries@),
                            self@ == Tree::Mapping(all),
                            forall|a: int| 0 <= a < i ==> !same(all[j as int].0, #[trigger] all[a].0),
                        decreases j - i,
                    {
                        assert(all[i as int] == (entries[i as int].0@, entries[i as int].1@));
                        assert(all[j as int] == (entries[j as int].0@, entries[j as int].1@));
                        if entries[j].0.same(&entries[i].0) {
                            return false;
                        }
                        i += 1;
                    }
                    j += 1;
                }
                true
            },
            Yaml::Tagged(tag, inner) => {
                let shaped = tag.as_str().unicode_len() >= 2 && tag.as_str().get_char(0) == '!';
                shaped && inner.is_valid()
            },
            _ => true,
        }
    }
}

/// The index of the first entry whose key is the same as `key`, or the number
/// of entries where there is none.
pub fn find_key(key: &Yaml, entries: &Vec<(Yaml, Yaml)>) -> (j: usize)
    ensures
        j == position(key@, entry_trees(entries@), 0),
        j <= entries.len(),
    decreases key, 2nat, 0nat,
{
    let mut j: usize = 0;
    while j < entries.len()
        invariant
            j <= entries.len(),
            position(key@, entry_trees(entries@), 0) == position(key@, entry_trees(entries@), j as int),
        decreases entries.len() - j,
    {
        assert(entry_trees(entries@)[j as int].0 == entries[j as int].0@);
        if key.same(&entries[j].0) {
            return j;
        }
        j += 1;
    }
    j
}

} // verus!
