//! Placeholders: scalars of a document, and arguments of a command, that
//! stand for what an environment variable holds.

use vstd::prelude::*;
use vstd::string::*;
use crate::codec::{parse, parsed};
use crate::failure::{done, texts, Failure, FailureModel, Origin, Source};
use crate::tree::{
    entry_trees, lemma_mapping_view, lemma_sequence_view, same, trees, untag, valid, Tree, Yaml,
};

verus! {

/// What a variable is bound to.
#[derive(Debug, PartialEq)]
pub enum Bound {
    /// The variable is not set.
    Unset,
    /// The variable holds `raw`, which is not YAML; `error` is the parser's
    /// message.
    Invalid { raw: String, error: String },
    /// The variable holds this, in YAML.
    Value(Yaml),
}

/// A placeholder and what stands in its place.
#[derive(Debug, PartialEq)]
pub struct Binding {
    /// The placeholder: a string scalar that is this text is replaced.
    pub token: String,
    /// The name of the variable.
    pub name: String,
    /// What the variable is bound to.
    pub bound: Bound,
}

/// The model of a [`Bound`].
pub ghost enum BoundModel {
    Unset,
    Invalid { raw: Seq<char>, error: Seq<char> },
    Value(Tree),
}

/// The model of a [`Binding`].
pub ghost struct BindingModel {
    pub token: Seq<char>,
    pub name: Seq<char>,
    pub bound: BoundModel,
}

impl View for Bound {
    type V = BoundModel;

    open spec fn view(&self) -> BoundModel {
        match self {
            Bound::Unset => BoundModel::Unset,
            Bound::Invalid { raw, error } => BoundModel::Invalid { raw: raw@, error: error@ },
            Bound::Value(value) => BoundModel::Value(value@),
        }
    }
}

impl View for Binding {
    type V = BindingModel;

    open spec fn view(&self) -> BindingModel {
        BindingModel { token: self.token@, name: self.name@, bound: self.bound@ }
    }
}

/// The models of bindings.
pub open spec fn binding_models(bindings: Seq<Binding>) -> Seq<BindingModel> {
    Seq::new(bindings.len(), |i: int| bindings[i]@)
}

/// The index of the first binding at or after `from` whose placeholder is
/// `text`, or the number of bindings where there is none.
pub open spec fn binding_of(text: Seq<char>, bindings: Seq<BindingModel>, from: int) -> int
    decreases bindings.len() - from,
{
    if from < 0 || from >= bindings.len() {
        bindings.len() as int
    } else if bindings[from].token == text {
        from
    } else {
        binding_of(text, bindings, from + 1)
    }
}

/// What stands in the place of a placeholder: the value of its variable, or
/// the failure where the variable is not set or does not hold YAML.
pub open spec fn replacement(binding: BindingModel) -> Result<Tree, FailureModel> {
    match binding.bound {
        BoundModel::Unset => Err(FailureModel::MissingEnvVar { name: binding.name }),
        BoundModel::Invalid { raw, error } => Err(
            FailureModel::InvalidValue { value: raw, origin: Source::EnvVar(binding.name), error },
        ),
        BoundModel::Value(value) => Ok(value),
    }
}

/// What a string scalar becomes: where it is, as a whole, a placeholder, what
/// stands in the place of the first such; otherwise itself.
pub open spec fn scalar_substituted(
    node: Tree,
    text: Seq<char>,
    bindings: Seq<BindingModel>,
) -> Result<Tree, FailureModel> {
    let i = binding_of(text, bindings, 0);
    if i < bindings.len() {
        replacement(bindings[i])
    } else {
        Ok(node)
    }
}

/// The document with every placeholder replaced, or the first failure in the
/// order of the document.
///
/// The values of a mapping and the items of a sequence are gone through, the
/// keys of a mapping are not. A string scalar that is a placeholder is
/// replaced together with its tags; what replaces it is not gone through
/// again. Every other scalar stays.
pub open spec fn substituted(t: Tree, bindings: Seq<BindingModel>) -> Result<Tree, FailureModel>
    decreases t, 0nat,
{
    match t {
        Tree::Tagged(tag, inner) => match untag(*inner) {
            Tree::Str(text) => scalar_substituted(t, text, bindings),
            _ => match substituted(*inner, bindings) {
                Ok(new) => Ok(Tree::Tagged(tag, Box::new(new))),
                Err(failure) => Err(failure),
            },
        },
        Tree::Mapping(entries) => match substituted_values(entries, bindings, entries.len() as int) {
            Ok(new) => Ok(Tree::Mapping(new)),
            Err(failure) => Err(failure),
        },
        Tree::Sequence(items) => match substituted_items(items, bindings, items.len() as int) {
            Ok(new) => Ok(Tree::Sequence(new)),
            Err(failure) => Err(failure),
        },
        Tree::Str(text) => scalar_substituted(t, text, bindings),
        _ => Ok(t),
    }
}

/// The first `upto` items with every placeholder replaced, or the first
/// failure.
pub open spec fn substituted_items(items: Seq<Tree>, bindings: Seq<BindingModel>, upto: int) -> Result<
    Seq<Tree>,
    FailureModel,
>
    decreases items, upto,
{
    if upto <= 0 || upto > items.len() {
        Ok(Seq::empty())
    } else {
        match substituted_items(items, bindings, upto - 1) {
            Err(failure) => Err(failure),
            Ok(before) => match substituted(items[upto - 1], bindings) {
                Err(failure) => Err(failure),
                Ok(new) => Ok(before.push(new)),
            },
        }
    }
}

/// The first `upto` entries with every placeholder in their values replaced,
/// or the first failure.
pub open spec fn substituted_values(
    entries: Seq<(Tree, Tree)>,
    bindings: Seq<BindingModel>,
    upto: int,
) -> Result<Seq<(Tree, Tree)>, FailureModel>
    decreases entries, upto,
{
    if upto <= 0 || upto > entries.len() {
        Ok(Seq::empty())
    } else {
        match substituted_values(entries, bindings, upto - 1) {
            Err(failure) => Err(failure),
            Ok(before) => match substituted(entries[upto - 1].1, bindings) {
                Err(failure) => Err(failure),
                Ok(new) => Ok(before.push((entries[upto - 1].0, new))),
            },
        }
    }
}

/// Once a failure, always that failure: a failure among the first items is
/// the failure of every longer beginning.
pub proof fn lemma_items_failure_stays(
    items: Seq<Tree>,
    bindings: Seq<BindingModel>,
    upto: int,
    longer: int,
)
    requires
        0 <= upto <= longer <= items.len(),
        substituted_items(items, bindings, upto) is Err,
    ensures
        substituted_items(items, bindings, longer) == substituted_items(items, bindings, upto),
    decreases longer - upto,
{
    if upto < longer {
        lemma_items_failure_stays(items, bindings, upto, longer - 1);
    }
}

/// Once a failure, always that failure: a failure among the first entries is
/// the failure of every longer beginning.
pub proof fn lemma_values_failure_stays(
    entries: Seq<(Tree, Tree)>,
    bindings: Seq<BindingModel>,
    upto: int,
    longer: int,
)
    requires
        0 <= upto <= longer <= entries.len(),
        substituted_values(entries, bindings, upto) is Err,
    ensures
        substituted_values(entries, bindings, longer) == substituted_values(entries, bindings, upto),
    decreases longer - upto,
{
    if upto < longer {
        lemma_values_failure_stays(entries, bindings, upto, longer - 1);
    }
}

/// The outcome of a substitution, as the contracts speak of it.
pub open spec fn yaml_result(r: Result<Yaml, Failure>) -> Result<Tree, FailureModel> {
    match r {
        Ok(y) => Ok(y@),
        Err(e) => Err(e@),
    }
}

/// The index of the first binding whose placeholder is `text`, or the number
/// of bindings where there is none.
fn find_binding(text: &String, bindings: &Vec<Binding>) -> (i: usize)
    ensures
        i == binding_of(text@, binding_models(bindings@), 0),
        i <= bindings.len(),
{
    let mut i: usize = 0;
    while i < bindings.len()
        invariant
            i <= bindings.len(),
            binding_of(text@, binding_models(bindings@), 0) == binding_of(
                text@,
                binding_models(bindings@),
                i as int,
            ),
        decreases bindings.len() - i,
    {
        assert(binding_models(bindings@)[i as int] == bindings[i as int]@);
        if bindings[i].token == *text {
            return i;
        }
        i += 1;
    }
    i
}

/// What stands in the place of the placeholder of `binding`.
fn replacement_of(binding: &Binding) -> (r: Result<Yaml, Failure>)
    ensures
        yaml_result(r) == replacement(binding@),
{
    match &binding.bound {
        Bound::Unset => Err(Failure::MissingEnvVar { name: binding.name.clone() }),
        Bound::Invalid { raw, error } => Err(
            Failure::InvalidValue {
                value: raw.clone(),
                origin: Origin::EnvVar(binding.name.clone()),
                error: error.clone(),
            },
        ),
        Bound::Value(value) => Ok(value.duplicate()),
    }
}

/// What the string scalar `node`, which holds `text`, becomes.
fn scalar_substituted_of(node: &Yaml, text: &String, bindings: &Vec<Binding>) -> (r: Result<
    Yaml,
    Failure,
>)
    ensures
        yaml_result(r) == scalar_substituted(node@, text@, binding_models(bindings@)),
{
    let i = find_binding(text, bindings);
    if i < bindings.len() {
        assert(binding_models(bindings@)[i as int] == bindings[i as int]@);
        replacement_of(&bindings[i])
    } else {
        Ok(node.duplicate())
    }
}

impl Yaml {
    /// The document with every placeholder replaced, or the first failure in
    /// the order of the document.
    pub fn substituted(&self, bindings: &Vec<Binding>) -> (r: Result<Yaml, Failure>)
        ensures
            yaml_result(r) == substituted(self@, binding_models(bindings@)),
        decreases self,
    {
        broadcast use vstd::std_specs::vec::axiom_vec_index_decreases;

        let ghost models = binding_models(bindings@);
        match self {
            Yaml::Tagged(tag, inner) => match inner.untagged() {
                Yaml::String(text) => scalar_substituted_of(self, text, bindings),
                _ => match inner.substituted(bindings) {
                    Ok(new) => Ok(Yaml::Tagged(tag.clone(), Box::new(new))),
                    Err(failure) => Err(failure),
                },
            },
            Yaml::Mapping(entries) => {
                proof {
                    lemma_mapping_view(*entries);
                }
                let ghost before = entry_trees(entries@);
                let mut out: Vec<(Yaml, Yaml)> = Vec::new();
                let mut i: usize = 0;
                assert(entry_trees(out@) =~= Seq::empty());
                while i < entries.len()
                    invariant
                        i <= entries.len(),
                        self == Yaml::Mapping(*entries),
                        self@ == Tree::Mapping(before),
                        before == entry_trees(entries@),
                        models == binding_models(bindings@),
                        out.len() == i,
                        substituted_values(before, models, i as int) == Ok::<
                            Seq<(Tree, Tree)>,
                            FailureModel,
                        >(entry_trees(out@)),
                    decreases entries.len() - i,
                {
                    assert(self->Mapping_0 == *entries);
                    assert(before[i as int] == (entries[i as int].0@, entries[i as int].1@));
                    let ghost so_far = entry_trees(out@);
                    match entries[i].1.substituted(bindings) {
                        Err(failure) => {
                            proof {
                                lemma_values_failure_stays(
                                    before,
                                    models,
                                    i + 1,
                                    entries.len() as int,
                                );
                            }
                            return Err(failure);
                        },
                        Ok(new) => {
                            out.push((entries[i].0.duplicate(), new));
                            assert(entry_trees(out@) =~= so_far.push((before[i as int].0, new@)));
                        },
                    }
                    i += 1;
                }
                proof {
                    lemma_mapping_view(out);
                }
                Ok(Yaml::Mapping(out))
            },
            Yaml::Sequence(items) => {
                proof {
                    lemma_sequence_view(*items);
                }
                let ghost before = trees(items@);
                let mut out: Vec<Yaml> = Vec::new();
                let mut i: usize = 0;
                assert(trees(out@) =~= Seq::empty());
                while i < items.len()
                    invariant
                        i <= items.len(),
                        self == Yaml::Sequence(*items),
                        self@ == Tree::Sequence(before),
                        before == trees(items@),
                        models == binding_models(bindings@),
                        out.len() == i,
                        substituted_items(before, models, i as int) == Ok::<
                            Seq<Tree>,
                            FailureModel,
                        >(trees(out@)),
                    decreases items.len() - i,
                {
                    assert(self->Sequence_0 == *items);
                    assert(before[i as int] == items[i as int]@);
                    let ghost so_far = trees(out@);
                    match items[i].substituted(bindings) {
                        Err(failure) => {
                            proof {
                                lemma_items_failure_stays(before, models, i + 1, items.len() as int);
                            }
                            return Err(failure);
                        },
                        Ok(new) => {
                            out.push(new);
                            assert(trees(out@) =~= so_far.push(out[i as int]@));
                        },
                    }
                    i += 1;
                }
                proof {
                    lemma_sequence_view(out);
                }
                Ok(Yaml::Sequence(out))
            },
            Yaml::String(text) => scalar_substituted_of(self, text, bindings),
            _ => Ok(self.duplicate()),
        }
    }
}

/// Whether every value that is bound is a valid document.
pub open spec fn bindings_valid(bindings: Seq<BindingModel>) -> bool {
    forall|i: int|
        0 <= i < bindings.len() ==> ((#[trigger] bindings[i]).bound matches BoundModel::Value(value)
            ==> valid(value))
}

/// A placeholder is bound, if at all, to one of the bindings.
proof fn lemma_binding_of_bounds(text: Seq<char>, bindings: Seq<BindingModel>, from: int)
    requires
        0 <= from,
    ensures
        from <= binding_of(text, bindings, from) || from > bindings.len(),
        binding_of(text, bindings, from) <= bindings.len(),
    decreases bindings.len() - from,
{
    if from < bindings.len() && bindings[from].token != text {
        lemma_binding_of_bounds(text, bindings, from + 1);
    }
}

/// A valid document with valid values in the place of its placeholders is a
/// valid document.
pub proof fn lemma_substituted_valid(t: Tree, bindings: Seq<BindingModel>)
    requires
        valid(t),
        bindings_valid(bindings),
        substituted(t, bindings) is Ok,
    ensures
        valid(substituted(t, bindings)->Ok_0),
    decreases t, 0nat,
{
    match t {
        Tree::Tagged(tag, inner) => match untag(*inner) {
            Tree::Str(text) => lemma_binding_of_bounds(text, bindings, 0),
            _ => lemma_substituted_valid(*inner, bindings),
        },
        Tree::Mapping(entries) => {
            lemma_values_valid(entries, bindings, entries.len() as int);
            let new = substituted_values(entries, bindings, entries.len() as int)->Ok_0;
            assert forall|i: int, j: int| 0 <= i < j < new.len() implies !same(
                #[trigger] new[j].0,
                #[trigger] new[i].0,
            ) by {
                assert(new[j].0 == entries[j].0);
                assert(new[i].0 == entries[i].0);
            }
            assert forall|i: int| 0 <= i < new.len() implies valid((#[trigger] new[i]).0) && valid(
                new[i].1,
            ) by {
                assert(new[i].0 == entries[i].0);
                assert(valid(entries[i].0));
            }
        },
        Tree::Sequence(items) => lemma_items_valid(items, bindings, items.len() as int),
        Tree::Str(text) => lemma_binding_of_bounds(text, bindings, 0),
        _ => {},
    }
}

/// Valid items with valid values in the place of their placeholders are as
/// many valid items.
proof fn lemma_items_valid(items: Seq<Tree>, bindings: Seq<BindingModel>, upto: int)
    requires
        forall|i: int| 0 <= i < items.len() ==> valid(#[trigger] items[i]),
        bindings_valid(bindings),
        0 <= upto <= items.len(),
        substituted_items(items, bindings, upto) is Ok,
    ensures
        substituted_items(items, bindings, upto)->Ok_0.len() == upto,
        forall|i: int|
            0 <= i < upto ==> valid(#[trigger] substituted_items(items, bindings, upto)->Ok_0[i]),
    decreases items, upto,
{
    if upto > 0 {
        lemma_items_valid(items, bindings, upto - 1);
        lemma_substituted_valid(items[upto - 1], bindings);
    }
}

/// Valid entries with valid values in the place of the placeholders of their
/// values are as many entries, with the same keys and valid values.
proof fn lemma_values_valid(entries: Seq<(Tree, Tree)>, bindings: Seq<BindingModel>, upto: int)
    requires
        forall|i: int|
            0 <= i < entries.len() ==> valid((#[trigger] entries[i]).0) && valid(entries[i].1),
        bindings_valid(bindings),
        0 <= upto <= entries.len(),
        substituted_values(entries, bindings, upto) is Ok,
    ensures
        substituted_values(entries, bindings, upto)->Ok_0.len() == upto,
        forall|i: int|
            0 <= i < upto ==> {
                &&& (#[trigger] substituted_values(entries, bindings, upto)->Ok_0[i]).0
                    == entries[i].0
                &&& valid(substituted_values(entries, bindings, upto)->Ok_0[i].1)
            },
    decreases entries, upto,
{
    if upto > 0 {
        lemma_values_valid(entries, bindings, upto - 1);
        assert(valid(entries[upto - 1].0) && valid(entries[upto - 1].1));
        lemma_substituted_valid(entries[upto - 1].1, bindings);
    }
}

/// The placeholder of a variable: its name between two pairs of braces.
pub open spec fn token(name: Seq<char>) -> Seq<char> {
    seq!['{', '{'] + name + seq!['}', '}']
}

/// What the variables of an environment hold, by their names.
pub open spec fn pairs(env: Seq<(String, String)>) -> Seq<(Seq<char>, Seq<char>)> {
    Seq::new(env.len(), |i: int| (env[i].0@, env[i].1@))
}

/// What the first variable at or after `from` with this name holds.
pub open spec fn value_of(name: Seq<char>, env: Seq<(Seq<char>, Seq<char>)>, from: int) -> Option<
    Seq<char>,
>
    decreases env.len() - from,
{
    if from < 0 || from >= env.len() {
        None
    } else if env[from].0 == name {
        Some(env[from].1)
    } else {
        value_of(name, env, from + 1)
    }
}

/// What a variable is bound to in an environment.
pub open spec fn bound_of(name: Seq<char>, env: Seq<(Seq<char>, Seq<char>)>) -> BoundModel {
    match value_of(name, env, 0) {
        None => BoundModel::Unset,
        Some(raw) => match parsed(raw) {
            Ok(value) => BoundModel::Value(value),
            Err(message) => BoundModel::Invalid { raw, error: message },
        },
    }
}

/// The bindings of the variables that are declared, in their order.
pub open spec fn bindings_of(vars: Seq<Seq<char>>, env: Seq<(Seq<char>, Seq<char>)>) -> Seq<
    BindingModel,
> {
    Seq::new(
        vars.len(),
        |i: int| BindingModel { token: token(vars[i]), name: vars[i], bound: bound_of(vars[i], env) },
    )
}

/// What the variable `name` holds in `env`.
pub fn lookup<'a>(name: &String, env: &'a Vec<(String, String)>) -> (r: Option<&'a String>)
    ensures
        match r {
            Some(value) => value_of(name@, pairs(env@), 0) == Some(value@),
            None => value_of(name@, pairs(env@), 0) is None,
        },
{
    let mut i: usize = 0;
    while i < env.len()
        invariant
            i <= env.len(),
            value_of(name@, pairs(env@), 0) == value_of(name@, pairs(env@), i as int),
        decreases env.len() - i,
    {
        assert(pairs(env@)[i as int] == (env[i as int].0@, env[i as int].1@));
        if env[i].0 == *name {
            return Some(&env[i].1);
        }
        i += 1;
    }
    None
}

/// The placeholder of the variable `name`.
pub fn token_of(name: &String) -> (r: String)
    ensures
        r@ == token(name@),
{
    let mut text = String::from_str("{{");
    text.append(name.as_str());
    text.append("}}");
    proof {
        reveal_strlit("{{");
        reveal_strlit("}}");
        assert("{{"@ =~= seq!['{', '{']);
        assert("}}"@ =~= seq!['}', '}']);
    }
    text
}

/// Binds each of `vars` to what it holds in `env`, parsed as YAML.
pub fn bind(vars: &Vec<String>, env: &Vec<(String, String)>) -> (r: Vec<Binding>)
    ensures
        binding_models(r@) == bindings_of(texts(vars@), pairs(env@)),
        bindings_valid(binding_models(r@)),
{
    let mut bindings: Vec<Binding> = Vec::new();
    let mut i: usize = 0;
    while i < vars.len()
        invariant
            i <= vars.len(),
            bindings.len() == i,
            forall|k: int|
                0 <= k < i ==> (#[trigger] bindings[k])@ == bindings_of(
                    texts(vars@),
                    pairs(env@),
                )[k],
            forall|k: int|
                0 <= k < i ==> ((#[trigger] bindings[k]).bound matches Bound::Value(value)
                    ==> valid(value@)),
        decreases vars.len() - i,
    {
        assert(texts(vars@)[i as int] == vars[i as int]@);
        let bound = match lookup(&vars[i], env) {
            None => Bound::Unset,
            Some(raw) => match parse(raw.as_str()) {
                Ok(value) => Bound::Value(value),
                Err(message) => Bound::Invalid { raw: raw.clone(), error: message },
            },
        };
        bindings.push(Binding { token: token_of(&vars[i]), name: vars[i].clone(), bound });
        i += 1;
    }
    proof {
        assert(binding_models(bindings@) =~= bindings_of(texts(vars@), pairs(env@)));
        assert forall|k: int| 0 <= k < bindings.len() implies ((#[trigger] binding_models(
            bindings@,
        )[k]).bound matches BoundModel::Value(value) ==> valid(value)) by {
            assert(binding_models(bindings@)[k] == bindings[k]@);
        }
    }
    bindings
}

/// Replaces every string scalar of `doc` that is the placeholder of one of
/// `vars` by what the variable holds in `env`, parsed as YAML. On a failure
/// `doc` stays as it is.
pub fn substitute_env(doc: &mut Yaml, vars: &Vec<String>, env: &Vec<(String, String)>) -> (r:
    Result<(), Failure>)
    ensures
        match substituted(old(doc)@, bindings_of(texts(vars@), pairs(env@))) {
            Ok(new) => r is Ok && final(doc)@ == new,
            Err(failure) => done(r) == Err::<(), FailureModel>(failure) && final(doc)@ == old(
                doc,
            )@,
        },
        valid(old(doc)@) ==> valid(final(doc)@),
{
    let bindings = bind(vars, env);
    match doc.substituted(&bindings) {
        Ok(new) => {
            proof {
                if valid(doc@) {
                    lemma_substituted_valid(doc@, binding_models(bindings@));
                }
            }
            *doc = new;
            Ok(())
        },
        Err(failure) => Err(failure),
    }
}

/// The name of the variable that an argument of a command stands for: what
/// is between two opening braces at its beginning and two closing braces at
/// its end.
pub open spec fn placeholder_name(arg: Seq<char>) -> Option<Seq<char>> {
    if arg.len() >= 4 && arg[0] == '{' && arg[1] == '{' && arg[arg.len() - 2] == '}' && arg[arg.len()
        - 1] == '}' {
        Some(arg.subrange(2, arg.len() - 2))
    } else {
        None
    }
}

/// What an argument of a command becomes: where it stands for a variable,
/// what the variable holds, as it is; otherwise itself.
pub open spec fn argument(arg: Seq<char>, env: Seq<(Seq<char>, Seq<char>)>) -> Result<
    Seq<char>,
    FailureModel,
> {
    match placeholder_name(arg) {
        None => Ok(arg),
        Some(name) => match value_of(name, env, 0) {
            Some(value) => Ok(value),
            None => Err(FailureModel::MissingEnvVar { name }),
        },
    }
}

/// What the first `upto` arguments become, or the first failure.
pub open spec fn arguments(args: Seq<Seq<char>>, env: Seq<(Seq<char>, Seq<char>)>, upto: int) -> Result<
    Seq<Seq<char>>,
    FailureModel,
>
    decreases upto,
{
    if upto <= 0 || upto > args.len() {
        Ok(Seq::empty())
    } else {
        match arguments(args, env, upto - 1) {
            Err(failure) => Err(failure),
            Ok(before) => match argument(args[upto - 1], env) {
                Err(failure) => Err(failure),
                Ok(new) => Ok(before.push(new)),
            },
        }
    }
}

/// Once a failure, always that failure.
proof fn lemma_arguments_failure_stays(
    args: Seq<Seq<char>>,
    env: Seq<(Seq<char>, Seq<char>)>,
    upto: int,
    longer: int,
)
    requires
        0 <= upto <= longer <= args.len(),
        arguments(args, env, upto) is Err,
    ensures
        arguments(args, env, longer) == arguments(args, env, upto),
    decreases longer - upto,
{
    if upto < longer {
        lemma_arguments_failure_stays(args, env, upto, longer - 1);
    }
}

/// The outcome of a substitution in arguments, as the contracts speak of it.
pub open spec fn texts_result(r: Result<Vec<String>, Failure>) -> Result<
    Seq<Seq<char>>,
    FailureModel,
> {
    match r {
        Ok(strings) => Ok(texts(strings@)),
        Err(e) => Err(e@),
    }
}

/// The name of the variable that `arg` stands for, if it stands for one.
pub fn variable_of(arg: &str) -> (r: Option<String>)
    ensures
        match r {
            Some(name) => placeholder_name(arg@) == Some(name@),
            None => placeholder_name(arg@) is None,
        },
{
    let n = arg.unicode_len();
    if n >= 4 && arg.get_char(0) == '{' && arg.get_char(1) == '{' && arg.get_char(n - 2) == '}'
        && arg.get_char(n - 1) == '}' {
        Some(String::from_str(arg.substring_char(2, n - 2)))
    } else {
        None
    }
}

/// Replaces each argument that stands for a variable by what the variable
/// holds in `env`.
pub fn substitute_exec_args(args: &Vec<String>, env: &Vec<(String, String)>) -> (r: Result<
    Vec<String>,
    Failure,
>)
    ensures
        texts_result(r) == arguments(texts(args@), pairs(env@), args.len() as int),
{
    let mut result: Vec<String> = Vec::new();
    let mut i: usize = 0;
    assert(texts(result@) =~= Seq::empty());
    while i < args.len()
        invariant
            i <= args.len(),
            result.len() == i,
            arguments(texts(args@), pairs(env@), i as int) == Ok::<Seq<Seq<char>>, FailureModel>(
                texts(result@),
            ),
        decreases args.len() - i,
    {
        assert(texts(args@)[i as int] == args[i as int]@);
        let ghost so_far = texts(result@);
        let value = match variable_of(args[i].as_str()) {
            None => args[i].clone(),
            Some(name) => match lookup(&name, env) {
                Some(value) => value.clone(),
                None => {
                    proof {
                        lemma_arguments_failure_stays(
                            texts(args@),
                            pairs(env@),
                            i + 1,
                            args.len() as int,
                        );
                    }
                    return Err(Failure::MissingEnvVar { name });
                },
            },
        };
        result.push(value);
        assert(texts(result@) =~= so_far.push(result[i as int]@));
        i += 1;
    }
    Ok(result)
}

} // verus!
