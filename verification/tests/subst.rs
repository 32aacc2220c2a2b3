use xyaml::codec::parse;
use xyaml::failure::{Failure, Origin};
use xyaml::subst::{
    bind, lookup, substitute_env, substitute_exec_args, token_of, variable_of, Binding, Bound,
};
use xyaml::transform::{apply_replacements, transform};
use xyaml::tree::Yaml;

fn strings(items: &[&str]) -> Vec<String> {
    items.iter().map(|s| s.to_string()).collect()
}

fn env(items: &[(&str, &str)]) -> Vec<(String, String)> {
    items.iter().map(|(k, v)| (k.to_string(), v.to_string())).collect()
}

fn text(s: &str) -> Yaml {
    Yaml::String(s.to_string())
}

#[test]
fn only_a_whole_scalar_is_a_placeholder() {
    let mut d = parse("{a: \"{{FOO}}\", b: \"x{{FOO}}y\"}").unwrap();
    assert_eq!(substitute_env(&mut d, &strings(&["FOO"]), &env(&[("FOO", "hello")])), Ok(()));
    assert_eq!(d, Yaml::Mapping(vec![(text("a"), text("hello")), (text("b"), text("x{{FOO}}y"))]));
}

#[test]
fn the_value_of_a_variable_is_parsed_as_yaml() {
    let mut d = parse("['{{L}}', '{{N}}', '{{M}}', '{{S}}']").unwrap();
    let e = env(&[("L", "[1, 2]"), ("N", "42"), ("M", "{a: b}"), ("S", "'42'")]);
    assert_eq!(substitute_env(&mut d, &strings(&["L", "N", "M", "S"]), &e), Ok(()));
    assert_eq!(d, parse("[[1, 2], 42, {a: b}, '42']").unwrap());
}

#[test]
fn values_and_items_are_gone_through_and_keys_are_not() {
    let mut d = parse("{'{{K}}': [{'{{K}}': '{{K}}'}, '{{K}}'], n: 1, t: true, z: null}").unwrap();
    assert_eq!(substitute_env(&mut d, &strings(&["K"]), &env(&[("K", "v")])), Ok(()));
    assert_eq!(d, parse("{'{{K}}': [{'{{K}}': v}, v], n: 1, t: true, z: null}").unwrap());
}

#[test]
fn what_replaces_a_placeholder_is_not_gone_through_again() {
    let mut d = parse("['{{A}}']").unwrap();
    let e = env(&[("A", "'{{B}}'"), ("B", "x")]);
    assert_eq!(substitute_env(&mut d, &strings(&["A", "B"]), &e), Ok(()));
    assert_eq!(d, parse("['{{B}}']").unwrap());
}

#[test]
fn a_variable_that_is_not_declared_is_left() {
    let mut d = parse("['{{A}}', '{{B}}']").unwrap();
    assert_eq!(substitute_env(&mut d, &strings(&["B"]), &env(&[("A", "1"), ("B", "2")])), Ok(()));
    assert_eq!(d, parse("['{{A}}', 2]").unwrap());
}

#[test]
fn a_tagged_placeholder_goes_with_its_tag() {
    let mut d = parse("a: !t '{{V}}'\nb: !u ['{{V}}']\n").unwrap();
    assert_eq!(substitute_env(&mut d, &strings(&["V"]), &env(&[("V", "1")])), Ok(()));
    assert_eq!(d, parse("a: 1\nb: !u [1]\n").unwrap());
}

#[test]
fn a_variable_that_is_not_set_is_missing() {
    let mut d = parse("{a: '{{FOO}}'}").unwrap();
    assert_eq!(
        substitute_env(&mut d, &strings(&["FOO"]), &env(&[("BAR", "1")])),
        Err(Failure::MissingEnvVar { name: "FOO".to_string() })
    );
    assert_eq!(d, parse("{a: '{{FOO}}'}").unwrap());
}

#[test]
fn a_variable_that_is_not_used_need_not_be_set() {
    let mut d = parse("{a: 1}").unwrap();
    assert_eq!(substitute_env(&mut d, &strings(&["FOO", "BAD"]), &env(&[("BAD", "[1")])), Ok(()));
    assert_eq!(d, parse("{a: 1}").unwrap());
}

#[test]
fn a_variable_that_holds_no_yaml_is_invalid() {
    let mut d = parse("[ok, '{{OK}}', '{{BAD}}', '{{GONE}}']").unwrap();
    match substitute_env(&mut d, &strings(&["OK", "BAD", "GONE"]), &env(&[("OK", "1"), ("BAD", "[1")])) {
        Err(Failure::InvalidValue { value, origin, error }) => {
            assert_eq!(value, "[1");
            assert_eq!(origin, Origin::EnvVar("BAD".to_string()));
            assert_eq!(Err(error), parse("[1"));
        }
        other => panic!("{:?}", other),
    }
    assert_eq!(d, parse("[ok, '{{OK}}', '{{BAD}}', '{{GONE}}']").unwrap());
}

#[test]
fn the_first_failure_in_the_order_of_the_document_is_the_failure() {
    let mut d = parse("{a: ['{{GONE}}'], b: '{{BAD}}'}").unwrap();
    assert_eq!(
        substitute_env(&mut d, &strings(&["BAD", "GONE"]), &env(&[("BAD", "[1")])),
        Err(Failure::MissingEnvVar { name: "GONE".to_string() })
    );
}

#[test]
fn substituted_takes_the_bindings_as_they_are() {
    let d = parse("[x, y, '{{x}}']").unwrap();
    let bindings = vec![
        Binding { token: "x".to_string(), name: "first".to_string(), bound: Bound::Value(Yaml::Null) },
        Binding { token: "x".to_string(), name: "second".to_string(), bound: Bound::Unset },
        Binding {
            token: "y".to_string(),
            name: "third".to_string(),
            bound: Bound::Invalid { raw: "r".to_string(), error: "e".to_string() },
        },
    ];
    assert_eq!(
        d.substituted(&bindings),
        Err(Failure::InvalidValue {
            value: "r".to_string(),
            origin: Origin::EnvVar("third".to_string()),
            error: "e".to_string(),
        })
    );
    assert_eq!(
        parse("[x, z, '{{x}}']").unwrap().substituted(&bindings),
        Ok(parse("[null, z, '{{x}}']").unwrap())
    );
    assert_eq!(parse("[z]").unwrap().substituted(&vec![]), Ok(parse("[z]").unwrap()));
}

#[test]
fn bind_gives_each_variable_its_placeholder_and_value() {
    let bindings = bind(&strings(&["A", "B", "C"]), &env(&[("A", "[1]"), ("C", "{")]));
    assert_eq!(bindings.len(), 3);
    assert_eq!(
        bindings[0],
        Binding {
            token: "{{A}}".to_string(),
            name: "A".to_string(),
            bound: Bound::Value(parse("[1]").unwrap()),
        }
    );
    assert_eq!(
        bindings[1],
        Binding { token: "{{B}}".to_string(), name: "B".to_string(), bound: Bound::Unset }
    );
    assert_eq!(bindings[2].token, "{{C}}");
    assert_eq!(
        bindings[2].bound,
        Bound::Invalid { raw: "{".to_string(), error: parse("{").unwrap_err() }
    );
}

#[test]
fn the_placeholder_of_a_name_is_in_two_pairs_of_braces() {
    assert_eq!(token_of(&"FOO".to_string()), "{{FOO}}");
    assert_eq!(token_of(&"".to_string()), "{{}}");
}

#[test]
fn lookup_gives_what_the_first_variable_of_the_name_holds() {
    let e = env(&[("A", "1"), ("B", "2"), ("A", "3")]);
    assert_eq!(lookup(&"A".to_string(), &e), Some(&"1".to_string()));
    assert_eq!(lookup(&"B".to_string(), &e), Some(&"2".to_string()));
    assert_eq!(lookup(&"C".to_string(), &e), None);
    assert_eq!(lookup(&"a".to_string(), &e), None);
}

#[test]
fn an_argument_in_braces_stands_for_a_variable() {
    assert_eq!(variable_of("{{FOO}}"), Some("FOO".to_string()));
    assert_eq!(variable_of("{{}}"), Some("".to_string()));
    assert_eq!(variable_of("{{é}}"), Some("é".to_string()));
    assert_eq!(variable_of("{{a}}}}"), Some("a}}".to_string()));
    assert_eq!(variable_of("{{}"), None);
    assert_eq!(variable_of("{}}"), None);
    assert_eq!(variable_of("x{{FOO}}"), None);
    assert_eq!(variable_of("{{FOO}}x"), None);
    assert_eq!(variable_of("FOO"), None);
    assert_eq!(variable_of(""), None);
}

#[test]
fn arguments_get_the_raw_value() {
    let e = env(&[("N", "[1, 2]"), ("E", "")]);
    assert_eq!(
        substitute_exec_args(&strings(&["-x", "{{N}}", "a{{N}}", "{{E}}"]), &e),
        Ok(strings(&["-x", "[1, 2]", "a{{N}}", ""]))
    );
    assert_eq!(substitute_exec_args(&vec![], &e), Ok(vec![]));
    assert_eq!(
        substitute_exec_args(&strings(&["{{N}}", "{{GONE}}", "{{ALSO}}"]), &e),
        Err(Failure::MissingEnvVar { name: "GONE".to_string() })
    );
}

#[test]
fn replacements_are_made_in_their_order() {
    let mut d = parse("{a: null, b: 1}").unwrap();
    let requests = env(&[("[a]", "{c: null}"), ("[a, c]", "[1]"), ("[b]", "2")]);
    assert_eq!(apply_replacements(&mut d, &requests, false), Ok(()));
    assert_eq!(d, parse("{a: {c: [1]}, b: 2}").unwrap());
}

#[test]
fn the_first_failing_replacement_ends_them() {
    let mut d = parse("{a: null, b: 1}").unwrap();
    let requests = env(&[("[a]", "5"), ("[b]", "6"), ("[a]", "7")]);
    assert_eq!(
        apply_replacements(&mut d, &requests, true),
        Err(Failure::PreconditionFailed { path: "[b]".to_string() })
    );
    assert_eq!(d, parse("{a: 5, b: 1}").unwrap());
}

#[test]
fn a_run_replaces_then_substitutes_then_writes() {
    let out = transform(
        "{a: {b: [1,2,3]}}",
        &env(&[("[a, b, [1]]", "99")]),
        false,
        &vec![],
        &vec![],
    );
    assert_eq!(out, Ok("a:\n  b:\n  - 1\n  - 99\n  - 3\n".to_string()));
}

#[test]
fn a_new_value_may_hold_a_placeholder() {
    let out = transform(
        "{a: null, b: '{{X}}'}",
        &env(&[("[a]", "'{{X}}'")]),
        true,
        &strings(&["X"]),
        &env(&[("X", "[1]")]),
    );
    assert_eq!(out, Ok("a:\n- 1\nb:\n- 1\n".to_string()));
}

#[test]
fn a_run_with_require_null_fails_when_repeated() {
    let requests = env(&[("[a]", "5")]);
    let once = transform("{a: null}", &requests, true, &vec![], &vec![]).unwrap();
    assert_eq!(once, "a: 5\n");
    assert_eq!(
        transform(&once, &requests, true, &vec![], &vec![]),
        Err(Failure::PreconditionFailed { path: "[a]".to_string() })
    );
}

#[test]
fn a_run_on_what_is_no_yaml_fails() {
    match transform("{a", &vec![], false, &vec![], &vec![]) {
        Err(Failure::InvalidDocument { error }) => assert_eq!(Err(error), parse("{a")),
        other => panic!("{:?}", other),
    }
}

#[test]
fn a_run_stops_at_the_first_failure() {
    assert_eq!(
        transform("{a: 1}", &env(&[("[b]", "1")]), false, &strings(&["GONE"]), &vec![]),
        Err(Failure::PathNotFound {
            cursor: vec!["b".to_string()],
            path: "[b]".to_string(),
            miss: xyaml::failure::Miss::Key,
        })
    );
    assert_eq!(
        transform("{a: '{{GONE}}'}", &vec![], false, &strings(&["GONE"]), &vec![]),
        Err(Failure::MissingEnvVar { name: "GONE".to_string() })
    );
}
