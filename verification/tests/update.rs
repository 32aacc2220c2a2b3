use serde_yaml::Number;
use xyaml::codec::{emit, parse};
use xyaml::failure::{Failure, Miss, Origin};
use xyaml::path::{decode_path, locate, Hop, Segment};
use xyaml::tree::Yaml;
use xyaml::update::{apply_update, update_value};

fn doc(text: &str) -> Yaml {
    parse(text).unwrap()
}

fn text(s: &str) -> Yaml {
    Yaml::String(s.to_string())
}

fn num(n: u64) -> Yaml {
    Yaml::Number(Number::from(n))
}

fn key(name: &str) -> Segment {
    Segment { value: text(name), text: Ok(name.to_string()) }
}

fn index(n: u64) -> Segment {
    Segment { value: Yaml::Sequence(vec![num(n)]), text: Ok(format!("- {}", n)) }
}

#[test]
fn replaces_an_item_of_a_nested_sequence() {
    let mut d = doc("{a: {b: [1,2,3]}}");
    assert_eq!(update_value(&mut d, "[a, b, [1]]", "99", false), Ok(()));
    assert_eq!(d, doc("{a: {b: [1,99,3]}}"));
    assert_eq!(
        d,
        Yaml::Mapping(vec![(
            text("a"),
            Yaml::Mapping(vec![(text("b"), Yaml::Sequence(vec![num(1), num(99), num(3)]))]),
        )])
    );
}

#[test]
fn replacing_twice_changes_nothing_more() {
    let mut d = doc("{a: {b: [1,2,3]}, c: x}");
    assert_eq!(update_value(&mut d, "[a, b]", "{k: [true]}", false), Ok(()));
    let once = doc("{a: {b: {k: [true]}}, c: x}");
    assert_eq!(d, once);
    assert_eq!(update_value(&mut d, "[a, b]", "{k: [true]}", false), Ok(()));
    assert_eq!(d, once);
}

#[test]
fn an_empty_path_replaces_the_document() {
    let mut d = doc("{a: 1}");
    assert_eq!(update_value(&mut d, "[]", "[x, y]", false), Ok(()));
    assert_eq!(d, Yaml::Sequence(vec![text("x"), text("y")]));
}

#[test]
fn the_new_value_is_parsed_as_yaml() {
    let mut d = doc("{a: 0, b: 0, c: 0, d: 0, e: 0}");
    assert_eq!(update_value(&mut d, "[a]", "42", false), Ok(()));
    assert_eq!(update_value(&mut d, "[b]", "true", false), Ok(()));
    assert_eq!(update_value(&mut d, "[c]", "[1,2]", false), Ok(()));
    assert_eq!(update_value(&mut d, "[d]", "{a: 1}", false), Ok(()));
    assert_eq!(update_value(&mut d, "[e]", "'42'", false), Ok(()));
    assert_eq!(
        d,
        Yaml::Mapping(vec![
            (text("a"), num(42)),
            (text("b"), Yaml::Bool(true)),
            (text("c"), Yaml::Sequence(vec![num(1), num(2)])),
            (text("d"), Yaml::Mapping(vec![(text("a"), num(1))])),
            (text("e"), text("42")),
        ])
    );
}

#[test]
fn an_absent_key_is_not_found_and_nothing_changes() {
    let mut d = doc("{a: {b: 1}}");
    let before = doc("{a: {b: 1}}");
    assert_eq!(
        update_value(&mut d, "[a, zz, more]", "5", false),
        Err(Failure::PathNotFound {
            cursor: vec!["a".to_string(), "zz".to_string()],
            path: "[a, zz, more]".to_string(),
            miss: Miss::Key,
        })
    );
    assert_eq!(d, before);
}

#[test]
fn a_key_into_a_scalar_is_not_found() {
    let mut d = doc("{a: 1}");
    assert_eq!(
        update_value(&mut d, "[a, b]", "5", false),
        Err(Failure::PathNotFound {
            cursor: vec!["a".to_string(), "b".to_string()],
            path: "[a, b]".to_string(),
            miss: Miss::Key,
        })
    );
    assert_eq!(d, doc("{a: 1}"));
}

#[test]
fn a_segment_of_two_indexes_is_not_supported() {
    for text in ["{a: 1}", "[[1, 2], [3, 4]]", "null", "x"] {
        let mut d = doc(text);
        assert_eq!(
            update_value(&mut d, "[[0,1]]", "5", false),
            Err(Failure::UnsupportedPath {
                cursor: vec!["- 0\n- 1".to_string()],
                path: "[[0,1]]".to_string(),
            })
        );
        assert_eq!(d, doc(text));
    }
}

#[test]
fn a_segment_of_no_index_is_not_supported() {
    let mut d = doc("[1, 2]");
    assert_eq!(
        update_value(&mut d, "[[]]", "5", false),
        Err(Failure::UnsupportedPath { cursor: vec!["[]".to_string()], path: "[[]]".to_string() })
    );
}

#[test]
fn a_negative_index_leads_nowhere() {
    let mut d = doc("[1, 2]");
    assert_eq!(
        update_value(&mut d, "[[-1]]", "5", false),
        Err(Failure::PathNotFound {
            cursor: vec!["- -1".to_string()],
            path: "[[-1]]".to_string(),
            miss: Miss::BadIndex,
        })
    );
    assert_eq!(d, doc("[1, 2]"));
}

#[test]
fn an_index_that_is_no_integer_leads_nowhere() {
    for path in ["[[a]]", "[[1.5]]", "[[true]]", "[[null]]", "[[[0]]]"] {
        let mut d = doc("[1, 2]");
        match update_value(&mut d, path, "5", false) {
            Err(Failure::PathNotFound { miss, path: named, cursor }) => {
                assert_eq!(miss, Miss::BadIndex);
                assert_eq!(named, path);
                assert_eq!(cursor.len(), 1);
            }
            other => panic!("{:?}", other),
        }
        assert_eq!(d, doc("[1, 2]"));
    }
}

#[test]
fn an_index_beyond_the_end_is_not_found() {
    let mut d = doc("{a: [1, 2]}");
    assert_eq!(
        update_value(&mut d, "[a, [2]]", "5", false),
        Err(Failure::PathNotFound {
            cursor: vec!["a".to_string(), "- 2".to_string()],
            path: "[a, [2]]".to_string(),
            miss: Miss::Index(2),
        })
    );
    assert_eq!(update_value(&mut d, "[a, [1]]", "5", false), Ok(()));
    assert_eq!(d, doc("{a: [1, 5]}"));
}

#[test]
fn an_index_into_a_mapping_is_not_found() {
    let mut d = doc("{0: x}");
    assert_eq!(
        update_value(&mut d, "[[0]]", "5", false),
        Err(Failure::PathNotFound {
            cursor: vec!["- 0".to_string()],
            path: "[[0]]".to_string(),
            miss: Miss::Index(0),
        })
    );
    assert_eq!(update_value(&mut d, "[0]", "5", false), Ok(()));
    assert_eq!(d, doc("{0: 5}"));
}

#[test]
fn a_huge_index_is_not_truncated() {
    let mut d = doc("[1, 2]");
    assert_eq!(
        update_value(&mut d, "[[18446744073709551615]]", "5", false),
        Err(Failure::PathNotFound {
            cursor: vec!["- 18446744073709551615".to_string()],
            path: "[[18446744073709551615]]".to_string(),
            miss: Miss::Index(18446744073709551615),
        })
    );
}

#[test]
fn require_null_refuses_false_and_accepts_null() {
    let mut d = doc("{a: false, b: null}");
    assert_eq!(
        update_value(&mut d, "[a]", "5", true),
        Err(Failure::PreconditionFailed { path: "[a]".to_string() })
    );
    assert_eq!(d, doc("{a: false, b: null}"));
    assert_eq!(update_value(&mut d, "[b]", "5", true), Ok(()));
    assert_eq!(d, doc("{a: false, b: 5}"));
}

#[test]
fn require_null_fails_when_repeated() {
    let mut d = doc("{a: null}");
    assert_eq!(update_value(&mut d, "[a]", "5", true), Ok(()));
    assert_eq!(d, doc("{a: 5}"));
    assert_eq!(
        update_value(&mut d, "[a]", "5", true),
        Err(Failure::PreconditionFailed { path: "[a]".to_string() })
    );
    assert_eq!(d, doc("{a: 5}"));
}

#[test]
fn require_null_is_asked_before_the_value_is_parsed() {
    let mut d = doc("{a: 1}");
    assert_eq!(
        update_value(&mut d, "[a]", "[1", true),
        Err(Failure::PreconditionFailed { path: "[a]".to_string() })
    );
}

#[test]
fn a_path_that_is_no_sequence_is_malformed() {
    let mut d = doc("{a: 1}");
    assert_eq!(
        update_value(&mut d, "a", "5", false),
        Err(Failure::MalformedPath { path: "a".to_string(), cause: None })
    );
    assert_eq!(
        update_value(&mut d, "{a: b}", "5", false),
        Err(Failure::MalformedPath { path: "{a: b}".to_string(), cause: None })
    );
    assert_eq!(d, doc("{a: 1}"));
}

#[test]
fn a_path_that_is_no_yaml_is_malformed() {
    let mut d = doc("{a: 1}");
    match update_value(&mut d, "[a", "5", false) {
        Err(Failure::MalformedPath { path, cause: Some(message) }) => {
            assert_eq!(path, "[a");
            assert!(!message.is_empty());
            assert_eq!(Err(message), parse("[a"));
        }
        other => panic!("{:?}", other),
    }
    assert_eq!(d, doc("{a: 1}"));
}

#[test]
fn a_value_that_is_no_yaml_is_invalid() {
    let mut d = doc("{a: 1}");
    match update_value(&mut d, "[a]", "[1", false) {
        Err(Failure::InvalidValue { value, origin, error }) => {
            assert_eq!(value, "[1");
            assert_eq!(origin, Origin::Path("[a]".to_string()));
            assert_eq!(Err(error), parse("[1"));
        }
        other => panic!("{:?}", other),
    }
    assert_eq!(d, doc("{a: 1}"));
}

#[test]
fn the_path_is_walked_before_the_value_is_parsed() {
    let mut d = doc("{a: 1}");
    assert_eq!(
        update_value(&mut d, "[b]", "[1", false),
        Err(Failure::PathNotFound {
            cursor: vec!["b".to_string()],
            path: "[b]".to_string(),
            miss: Miss::Key,
        })
    );
}

#[test]
fn keys_need_not_be_strings() {
    let mut d = doc("{1: a, true: b, null: c, [x, y]: d, 2.5: e}");
    assert_eq!(update_value(&mut d, "[1]", "A", false), Ok(()));
    assert_eq!(update_value(&mut d, "[true]", "B", false), Ok(()));
    assert_eq!(update_value(&mut d, "[null]", "C", false), Ok(()));
    assert_eq!(update_value(&mut d, "[2.5]", "E", false), Ok(()));
    assert_eq!(d, doc("{1: A, true: B, null: C, [x, y]: d, 2.5: E}"));
    assert_eq!(
        update_value(&mut d, "['1']", "5", false),
        Err(Failure::PathNotFound {
            cursor: vec!["'1'".to_string()],
            path: "['1']".to_string(),
            miss: Miss::Key,
        })
    );
}

#[test]
fn a_mapping_is_a_key_whatever_the_order_of_its_entries() {
    let mut d = doc("? {a: 1, b: 2}\n: x\n");
    assert_eq!(update_value(&mut d, "[{b: 2, a: 1}]", "y", false), Ok(()));
    assert_eq!(d, doc("? {a: 1, b: 2}\n: y\n"));
    assert!(update_value(&mut d, "[{b: 2, a: 3}]", "z", false).is_err());
    assert!(update_value(&mut d, "[{b: 2}]", "z", false).is_err());
}

#[test]
fn the_two_zeros_are_one_key() {
    let mut d = doc("{0.0: a}");
    assert_eq!(update_value(&mut d, "[-0.0]", "b", false), Ok(()));
    assert_eq!(d, doc("{0.0: b}"));
    assert!(update_value(&mut d, "[0]", "c", false).is_err());
}

#[test]
fn not_a_number_is_a_key() {
    let mut d = doc("{.nan: a}");
    assert_eq!(update_value(&mut d, "[.NaN]", "b", false), Ok(()));
    assert_eq!(emit(&d), Ok(".nan: b\n".to_string()));
}

#[test]
fn tags_on_the_way_are_looked_through_and_kept() {
    let mut d = doc("a: !t\n  b: [1, 2]\n");
    assert_eq!(update_value(&mut d, "[a, b, [0]]", "9", false), Ok(()));
    assert_eq!(d, doc("a: !t\n  b: [9, 2]\n"));
    assert_eq!(update_value(&mut d, "[a]", "z", false), Ok(()));
    assert_eq!(d, doc("a: z\n"));
}

#[test]
fn a_tagged_null_is_null() {
    let mut d = doc("a: !t null\n");
    assert_eq!(update_value(&mut d, "[a]", "1", true), Ok(()));
    assert_eq!(d, doc("a: 1\n"));
}

#[test]
fn decoding_gives_each_segment_with_its_text() {
    let segments = decode_path("[a, [0], {k: v}, 7]").unwrap();
    assert_eq!(segments.len(), 4);
    assert_eq!(segments[0], key("a"));
    assert_eq!(segments[1], index(0));
    assert_eq!(segments[2].value, Yaml::Mapping(vec![(text("k"), text("v"))]));
    assert_eq!(segments[2].text, Ok("k: v".to_string()));
    assert_eq!(segments[3], Segment { value: num(7), text: Ok("7".to_string()) });
}

#[test]
fn a_hop_is_a_key_or_an_index() {
    let d = doc("{a: [x, y], b: 1}");
    assert_eq!(d.hop(&text("b")), Hop::To(1));
    assert_eq!(d.hop(&text("c")), Hop::Missing(Miss::Key));
    assert_eq!(d.hop(&Yaml::Sequence(vec![num(0)])), Hop::Missing(Miss::Index(0)));
    let list = d.child(0).unwrap();
    assert_eq!(list.hop(&Yaml::Sequence(vec![num(1)])), Hop::To(1));
    assert_eq!(list.hop(&Yaml::Sequence(vec![num(2)])), Hop::Missing(Miss::Index(2)));
    assert_eq!(list.hop(&Yaml::Sequence(vec![num(1), num(1)])), Hop::Unsupported);
    assert_eq!(list.hop(&Yaml::Sequence(vec![text("1")])), Hop::Missing(Miss::BadIndex));
    assert_eq!(list.hop(&text("a")), Hop::Missing(Miss::Key));
    assert_eq!(list.child(1), Some(&text("y")));
    assert_eq!(list.child(2), None);
    assert_eq!(d.child(1), Some(&num(1)));
}

#[test]
fn locating_gives_the_positions_on_the_way() {
    let d = doc("{z: 0, a: {y: 0, b: [1, 2, 3]}}");
    let segments = vec![key("a"), key("b"), index(2)];
    assert_eq!(locate(&d, &segments, "p", false), Ok(vec![1, 1, 2]));
    assert_eq!(
        locate(&d, &segments, "p", true),
        Err(Failure::PreconditionFailed { path: "p".to_string() })
    );
    assert_eq!(locate(&d, &vec![], "p", false), Ok(vec![]));
}

#[test]
fn a_segment_that_cannot_be_written_ends_the_walk() {
    let d = doc("{a: 1}");
    let segments = vec![
        key("a"),
        Segment { value: text("b"), text: Err("no".to_string()) },
    ];
    assert_eq!(
        locate(&d, &segments, "p", false),
        Err(Failure::Unwritable { error: "no".to_string() })
    );
    let first = vec![Segment { value: text("zz"), text: Ok("zz".to_string()) }, key("b")];
    assert_eq!(
        locate(&d, &first, "p", false),
        Err(Failure::PathNotFound {
            cursor: vec!["zz".to_string()],
            path: "p".to_string(),
            miss: Miss::Key,
        })
    );
}

#[test]
fn applying_takes_the_parsed_value() {
    let mut d = doc("{a: [1]}");
    let segments = vec![key("a"), index(0)];
    assert_eq!(apply_update(&mut d, &segments, "p", "v", Ok(text("new")), false), Ok(()));
    assert_eq!(d, doc("{a: [new]}"));
    assert_eq!(
        apply_update(&mut d, &segments, "p", "v", Err("bad".to_string()), false),
        Err(Failure::InvalidValue {
            value: "v".to_string(),
            origin: Origin::Path("p".to_string()),
            error: "bad".to_string(),
        })
    );
    assert_eq!(d, doc("{a: [new]}"));
}

#[test]
fn a_later_path_may_lead_into_an_earlier_value() {
    let mut d = doc("{a: null}");
    assert_eq!(update_value(&mut d, "[a]", "{b: [null]}", false), Ok(()));
    assert_eq!(update_value(&mut d, "[a, b, [0]]", "1", true), Ok(()));
    assert_eq!(d, doc("{a: {b: [1]}}"));
}
