//! What a run is asked to do, as the command line says it.

use vstd::prelude::*;
use vstd::string::*;
use crate::failure::{texts, Failure, FailureModel};
use crate::subst::{arguments, lookup, pairs, substitute_exec_args, value_of};
use crate::transform::requests;

verus! {

/// The command line, taken apart but not yet understood.
#[derive(Debug, PartialEq, Eq)]
pub struct Arguments {
    /// Whether every node that is replaced must be null.
    pub require_null: bool,
    /// Whether the new values are names of environment variables.
    pub env_values: bool,
    /// The replacements: a path, its new value, the next path, and so on.
    pub replacements: Vec<String>,
    /// The variables whose placeholders are replaced.
    pub env_substitutions: Vec<String>,
    /// The command to run afterwards and its arguments, if one is given.
    pub command: Option<Vec<String>>,
    /// Whether arguments of the command that stand for variables are
    /// replaced.
    pub subst_args_with_env: bool,
}

/// What a run is to do.
#[derive(Debug, PartialEq, Eq)]
pub struct Config {
    /// Whether every node that is replaced must be null.
    pub require_null: bool,
    /// The replacements: each a path and the new value, as YAML.
    pub replacements: Vec<(String, String)>,
    /// The variables whose placeholders are replaced.
    pub env_substitutions: Vec<String>,
    /// The program to run afterwards.
    pub program: Option<String>,
    /// Whether arguments that stand for variables were replaced.
    pub subst_args_from_env: bool,
    /// The arguments of the command.
    pub exec_args: Vec<String>,
}

/// The model of [`Arguments`].
pub ghost struct ArgumentsModel {
    pub require_null: bool,
    pub env_values: bool,
    pub replacements: Seq<Seq<char>>,
    pub env_substitutions: Seq<Seq<char>>,
    pub command: Option<Seq<Seq<char>>>,
    pub subst_args_with_env: bool,
}

/// The model of a [`Config`].
pub ghost struct ConfigModel {
    pub require_null: bool,
    pub replacements: Seq<(Seq<char>, Seq<char>)>,
    pub env_substitutions: Seq<Seq<char>>,
    pub program: Option<Seq<char>>,
    pub subst_args_from_env: bool,
    pub exec_args: Seq<Seq<char>>,
}

impl View for Arguments {
    type V = ArgumentsModel;

    open spec fn view(&self) -> ArgumentsModel {
        ArgumentsModel {
            require_null: self.require_null,
            env_values: self.env_values,
            replacements: texts(self.replacements@),
            env_substitutions: texts(self.env_substitutions@),
            command: match self.command {
                Some(words) => Some(texts(words@)),
                None => None,
            },
            subst_args_with_env: self.subst_args_with_env,
        }
    }
}

impl View for Config {
    type V = ConfigModel;

    open spec fn view(&self) -> ConfigModel {
        ConfigModel {
            require_null: self.require_null,
            replacements: requests(self.replacements@),
            env_substitutions: texts(self.env_substitutions@),
            program: match self.program {
                Some(program) => Some(program@),
                None => None,
            },
            subst_args_from_env: self.subst_args_from_env,
            exec_args: texts(self.exec_args@),
        }
    }
}

/// The values two by two: each path with the new value that follows it.
pub open spec fn paired(values: Seq<Seq<char>>) -> Seq<(Seq<char>, Seq<char>)> {
    Seq::new(values.len() / 2, |i: int| (values[2 * i], values[2 * i + 1]))
}

/// The first `upto` replacements, each new value being what the variable of
/// that name holds; or the failure for the first variable that is not set.
pub open spec fn from_env(
    requests: Seq<(Seq<char>, Seq<char>)>,
    env: Seq<(Seq<char>, Seq<char>)>,
    upto: int,
) -> Result<Seq<(Seq<char>, Seq<char>)>, FailureModel>
    decreases upto,
{
    if upto <= 0 || upto > requests.len() {
        Ok(Seq::empty())
    } else {
        match from_env(requests, env, upto - 1) {
            Err(failure) => Err(failure),
            Ok(before) => match value_of(requests[upto - 1].1, env, 0) {
                None => Err(FailureModel::MissingEnvVar { name: requests[upto - 1].1 }),
                Some(value) => Ok(before.push((requests[upto - 1].0, value))),
            },
        }
    }
}

/// Once a failure, always that failure.
proof fn lemma_from_env_failure_stays(
    requests: Seq<(Seq<char>, Seq<char>)>,
    env: Seq<(Seq<char>, Seq<char>)>,
    upto: int,
    longer: int,
)
    requires
        0 <= upto <= longer <= requests.len(),
        from_env(requests, env, upto) is Err,
    ensures
        from_env(requests, env, longer) == from_env(requests, env, upto),
    decreases longer - upto,
{
    if upto < longer {
        lemma_from_env_failure_stays(requests, env, upto, longer - 1);
    }
}

/// What a run is to do, as the command line says it. The new values are
/// looked up first, then the arguments of the command; the first variable
/// that is not set is the failure.
pub open spec fn configured(args: ArgumentsModel, env: Seq<(Seq<char>, Seq<char>)>) -> Result<
    ConfigModel,
    FailureModel,
> {
    let requests = paired(args.replacements);
    let replacements = if args.env_values {
        from_env(requests, env, requests.len() as int)
    } else {
        Ok(requests)
    };
    let exec_args = match args.command {
        None => Ok(Seq::empty()),
        Some(words) => if args.subst_args_with_env {
            arguments(words.drop_first(), env, words.len() - 1)
        } else {
            Ok(words.drop_first())
        },
    };
    match replacements {
        Err(failure) => Err(failure),
        Ok(replacements) => match exec_args {
            Err(failure) => Err(failure),
            Ok(exec_args) => Ok(
                ConfigModel {
                    require_null: args.require_null,
                    replacements,
                    env_substitutions: args.env_substitutions,
                    program: match args.command {
                        Some(words) => Some(words[0]),
                        None => None,
                    },
                    subst_args_from_env: args.command is Some && args.subst_args_with_env,
                    exec_args,
                },
            ),
        },
    }
}

/// The outcome of reading the command line, as the contracts speak of it.
pub open spec fn config_result(r: Result<Config, Failure>) -> Result<ConfigModel, FailureModel> {
    match r {
        Ok(config) => Ok(config@),
        Err(e) => Err(e@),
    }
}

/// The outcome of looking the new values up, as the contracts speak of it.
pub open spec fn requests_result(r: Result<Vec<(String, String)>, Failure>) -> Result<
    Seq<(Seq<char>, Seq<char>)>,
    FailureModel,
> {
    match r {
        Ok(replacements) => Ok(requests(replacements@)),
        Err(e) => Err(e@),
    }
}

/// Takes the values two by two: each path with the new value that follows
/// it.
pub fn pair_up(values: &Vec<String>) -> (r: Vec<(String, String)>)
    requires
        values.len() % 2 == 0,
    ensures
        requests(r@) == paired(texts(values@)),
{
    let mut out: Vec<(String, String)> = Vec::new();
    let mut i: usize = 0;
    while i < values.len()
        invariant
            i <= values.len(),
            i % 2 == 0,
            values.len() % 2 == 0,
            out.len() == i / 2,
            forall|k: int|
                0 <= k < out.len() ==> (#[trigger] out[k]).0@ == values[2 * k]@ && out[k].1@
                    == values[2 * k + 1]@,
        decreases values.len() - i,
    {
        out.push((values[i].clone(), values[i + 1].clone()));
        i += 2;
    }
    proof {
        assert(requests(out@) =~= paired(texts(values@)));
    }
    out
}

/// Replaces each new value by what the variable of that name holds in `env`.
pub fn values_from_env(replacements: &Vec<(String, String)>, env: &Vec<(String, String)>) -> (r:
    Result<Vec<(String, String)>, Failure>)
    ensures
        requests_result(r) == from_env(
            requests(replacements@),
            pairs(env@),
            replacements.len() as int,
        ),
{
    let mut out: Vec<(String, String)> = Vec::new();
    let mut i: usize = 0;
    assert(requests(out@) =~= Seq::empty());
    while i < replacements.len()
        invariant
            i <= replacements.len(),
            out.len() == i,
            from_env(requests(replacements@), pairs(env@), i as int) == Ok::<
                Seq<(Seq<char>, Seq<char>)>,
                FailureModel,
            >(requests(out@)),
        decreases replacements.len() - i,
    {
        assert(requests(replacements@)[i as int] == (
            replacements[i as int].0@,
            replacements[i as int].1@,
        ));
        let ghost so_far = requests(out@);
        match lookup(&replacements[i].1, env) {
            None => {
                proof {
                    lemma_from_env_failure_stays(
                        requests(replacements@),
                        pairs(env@),
                        i + 1,
                        replacements.len() as int,
                    );
                }
                return Err(Failure::MissingEnvVar { name: replacements[i].1.clone() });
            },
            Some(value) => {
                out.push((replacements[i].0.clone(), value.clone()));
                assert(requests(out@) =~= so_far.push((replacements[i as int].0@, value@)));
            },
        }
        i += 1;
    }
    Ok(out)
}

/// Works out what a run is to do. The replacements must come in pairs, and
/// a command, where one is given, must have a first word: the program.
pub fn configure(args: &Arguments, env: &Vec<(String, String)>) -> (r: Result<Config, Failure>)
    requires
        args.replacements.len() % 2 == 0,
        args.command matches Some(words) ==> words.len() > 0,
    ensures
        config_result(r) == configured(args@, pairs(env@)),
{
    let requested = pair_up(&args.replacements);
    let replacements = if args.env_values {
        match values_from_env(&requested, env) {
            Ok(replacements) => replacements,
            Err(failure) => {
                return Err(failure);
            },
        }
    } else {
        requested
    };
    let mut vars: Vec<String> = Vec::new();
    let mut i: usize = 0;
    while i < args.env_substitutions.len()
        invariant
            i <= args.env_substitutions.len(),
            vars.len() == i,
            forall|k: int| 0 <= k < i ==> (#[trigger] vars[k])@ == args.env_substitutions[k]@,
        decreases args.env_substitutions.len() - i,
    {
        vars.push(args.env_substitutions[i].clone());
        i += 1;
    }
    proof {
        assert(texts(vars@) =~= texts(args.env_substitutions@));
    }
    let mut config = Config {
        require_null: args.require_null,
        replacements,
        env_substitutions: vars,
        program: None,
        subst_args_from_env: false,
        exec_args: Vec::new(),
    };
    proof {
        assert(texts(config.exec_args@) =~= Seq::empty());
    }
    match &args.command {
        None => {},
        Some(words) => {
            let mut rest: Vec<String> = Vec::new();
            let mut j: usize = 1;
            while j < words.len()
                invariant
                    1 <= j <= words.len(),
                    rest.len() == j - 1,
                    forall|k: int| 0 <= k < rest.len() ==> (#[trigger] rest[k])@ == words[k + 1]@,
                decreases words.len() - j,
            {
                rest.push(words[j].clone());
                j += 1;
            }
            proof {
                assert(texts(rest@) =~= texts(words@).drop_first());
            }
            let exec_args = if args.subst_args_with_env {
                match substitute_exec_args(&rest, env) {
                    Ok(exec_args) => exec_args,
                    Err(failure) => {
                        return Err(failure);
                    },
                }
            } else {
                rest
            };
            config.program = Some(words[0].clone());
            config.subst_args_from_env = args.subst_args_with_env;
            config.exec_args = exec_args;
        },
    }
    Ok(config)
}

} // verus!
