//! A whole run on one document: parse, replace, substitute, write.

use vstd::prelude::*;
use vstd::string::*;
use crate::codec::{emit, emitted, parse, parsed};
use crate::failure::{done, texts, Failure, FailureModel};
use crate::subst::{bindings_of, pairs, substitute_env, substituted};
use crate::tree::{valid, Tree, Yaml};
use crate::update::{update_value, updated};

verus! {

/// The paths and new values of replacements, as texts.
pub open spec fn requests(replacements: Seq<(String, String)>) -> Seq<(Seq<char>, Seq<char>)> {
    Seq::new(replacements.len(), |i: int| (replacements[i].0@, replacements[i].1@))
}

/// What the first `upto` replacements do, one after the other, each on the
/// document that the one before it left: the outcome, and the document after
/// it. The first failure ends it.
pub open spec fn replaced(
    doc: Tree,
    requests: Seq<(Seq<char>, Seq<char>)>,
    require_null: bool,
    upto: int,
) -> (Result<(), FailureModel>, Tree)
    decreases upto,
{
    if upto <= 0 || upto > requests.len() {
        (Ok(()), doc)
    } else {
        let before = replaced(doc, requests, require_null, upto - 1);
        if before.0 is Err {
            before
        } else {
            updated(before.1, requests[upto - 1].0, requests[upto - 1].1, require_null)
        }
    }
}

/// Once a failure, always that failure, and the document stays as the
/// failure left it.
proof fn lemma_replaced_failure_stays(
    doc: Tree,
    requests: Seq<(Seq<char>, Seq<char>)>,
    require_null: bool,
    upto: int,
    longer: int,
)
    requires
        0 <= upto <= longer <= requests.len(),
        replaced(doc, requests, require_null, upto).0 is Err,
    ensures
        replaced(doc, requests, require_null, longer) == replaced(doc, requests, require_null, upto),
    decreases longer - upto,
{
    if upto < longer {
        lemma_replaced_failure_stays(doc, requests, require_null, upto, longer - 1);
    }
}

/// Makes the replacements in their order, each on the document that the one
/// before it left. The first failure ends it; the replacements before it
/// stay made.
pub fn apply_replacements(
    doc: &mut Yaml,
    replacements: &Vec<(String, String)>,
    require_null: bool,
) -> (r: Result<(), Failure>)
    ensures
        (done(r), final(doc)@) == replaced(
            old(doc)@,
            requests(replacements@),
            require_null,
            replacements.len() as int,
        ),
        valid(old(doc)@) ==> valid(final(doc)@),
{
    let mut i: usize = 0;
    while i < replacements.len()
        invariant
            i <= replacements.len(),
            replaced(old(doc)@, requests(replacements@), require_null, i as int) == (
                Ok::<(), FailureModel>(()),
                doc@,
            ),
            valid(old(doc)@) ==> valid(doc@),
        decreases replacements.len() - i,
    {
        assert(requests(replacements@)[i as int] == (
            replacements[i as int].0@,
            replacements[i as int].1@,
        ));
        match update_value(
            doc,
            replacements[i].0.as_str(),
            replacements[i].1.as_str(),
            require_null,
        ) {
            Ok(()) => {},
            Err(failure) => {
                proof {
                    lemma_replaced_failure_stays(
                        old(doc)@,
                        requests(replacements@),
                        require_null,
                        i + 1,
                        replacements.len() as int,
                    );
                }
                return Err(failure);
            },
        }
        i += 1;
    }
    Ok(())
}

/// What a run makes of a document: the text of the document after the
/// replacements and then the substitutions, or the first failure.
pub open spec fn transformed(
    input: Seq<char>,
    requests: Seq<(Seq<char>, Seq<char>)>,
    require_null: bool,
    vars: Seq<Seq<char>>,
    env: Seq<(Seq<char>, Seq<char>)>,
) -> Result<Seq<char>, FailureModel> {
    match parsed(input) {
        Err(message) => Err(FailureModel::InvalidDocument { error: message }),
        Ok(doc) => {
            let after = replaced(doc, requests, require_null, requests.len() as int);
            match after.0 {
                Err(failure) => Err(failure),
                Ok(()) => match substituted(after.1, bindings_of(vars, env)) {
                    Err(failure) => Err(failure),
                    Ok(last) => match emitted(last) {
                        Ok(text) => Ok(text),
                        Err(message) => Err(FailureModel::Unwritable { error: message }),
                    },
                },
            }
        },
    }
}

/// The outcome of a run, as the contracts speak of it.
pub open spec fn text_or_failure(r: Result<String, Failure>) -> Result<Seq<char>, FailureModel> {
    match r {
        Ok(text) => Ok(text@),
        Err(e) => Err(e@),
    }
}

/// Runs on one document: parses `input`, makes the replacements in their
/// order, then replaces the placeholders of `vars` by what the variables hold
/// in `env`, and writes the document out.
pub fn transform(
    input: &str,
    replacements: &Vec<(String, String)>,
    require_null: bool,
    vars: &Vec<String>,
    env: &Vec<(String, String)>,
) -> (r: Result<String, Failure>)
    ensures
        text_or_failure(r) == transformed(
            input@,
            requests(replacements@),
            require_null,
            texts(vars@),
            pairs(env@),
        ),
{
    let mut doc = match parse(input) {
        Ok(doc) => doc,
        Err(message) => {
            return Err(Failure::InvalidDocument { error: message });
        },
    };
    match apply_replacements(&mut doc, replacements, require_null) {
        Ok(()) => {},
        Err(failure) => {
            return Err(failure);
        },
    }
    match substitute_env(&mut doc, vars, env) {
        Ok(()) => {},
        Err(failure) => {
            return Err(failure);
        },
    }
    match emit(&doc) {
        Ok(text) => Ok(text),
        Err(message) => Err(Failure::Unwritable { error: message }),
    }
}

} // verus!
