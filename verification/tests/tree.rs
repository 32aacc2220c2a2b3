use serde_yaml::Number;
use xyaml::codec::{emit, parse};
use xyaml::tree::{find_key, Yaml};

fn text(s: &str) -> Yaml {
    Yaml::String(s.to_string())
}

fn num(n: i64) -> Yaml {
    Yaml::Number(Number::from(n))
}

fn float(x: f64) -> Yaml {
    Yaml::Number(Number::from(x))
}

#[test]
fn parsing_gives_the_tree() {
    let d = parse("a: [1, -2, 1.5, x, true, null]\n'b': !tag {c: ~}\n").unwrap();
    assert_eq!(
        d,
        Yaml::Mapping(vec![
            (
                text("a"),
                Yaml::Sequence(vec![
                    num(1),
                    num(-2),
                    float(1.5),
                    text("x"),
                    Yaml::Bool(true),
                    Yaml::Null
                ])
            ),
            (
                text("b"),
                Yaml::Tagged(
                    "!tag".to_string(),
                    Box::new(Yaml::Mapping(vec![(text("c"), Yaml::Null)]))
                )
            ),
        ])
    );
    assert!(d.is_valid());
}

#[test]
fn parsing_nothing_gives_null() {
    assert_eq!(parse(""), Ok(Yaml::Null));
}

#[test]
fn parsing_fails_with_the_message_of_the_parser() {
    let message = parse("{a").unwrap_err();
    let theirs = serde_yaml::from_str::<serde_yaml::Value>("{a").unwrap_err().to_string();
    assert_eq!(message, theirs);
    assert_ne!(message, "{a");
}

#[test]
fn a_key_twice_is_refused_by_the_parser() {
    assert!(parse("{a: 1, a: 2}").is_err());
}

#[test]
fn emitting_writes_block_style() {
    let d = Yaml::Mapping(vec![
        (text("a"), Yaml::Mapping(vec![(text("b"), Yaml::Sequence(vec![num(1), num(99)]))])),
        (num(7), float(0.5)),
        (text("t"), Yaml::Tagged("!x".to_string(), Box::new(text("y")))),
        (text("n"), Yaml::Null),
        (Yaml::Bool(false), Yaml::Bool(true)),
    ]);
    assert_eq!(
        emit(&d),
        Ok("a:\n  b:\n  - 1\n  - 99\n7: 0.5\nt: !x y\nn: null\nfalse: true\n".to_string())
    );
}

#[test]
fn emitting_then_parsing_gives_the_same_tree() {
    let texts = [
        "{a: {b: [1, 2, 3]}, c: [x, {d: null}], e: -4, f: 2.5, g: 'yes', h: true}",
        "[]",
        "{}",
        "- !t [1, 2]\n- !u {a: b}\n- !v w\n",
        "? [1, 2]\n: seq\n? {k: v}\n: map\n",
        "'multi\n\n  line'",
        ".inf",
    ];
    for t in texts {
        let d = parse(t).unwrap();
        let written = emit(&d).unwrap();
        assert_eq!(parse(&written), Ok(d));
    }
}

#[test]
fn nested_tags_cannot_be_written() {
    let d = Yaml::Tagged(
        "!a".to_string(),
        Box::new(Yaml::Tagged("!b".to_string(), Box::new(text("x")))),
    );
    assert!(d.is_valid());
    let message = emit(&d).unwrap_err();
    assert!(!message.is_empty());
}

#[test]
fn same_compares_as_keys() {
    assert!(num(1).same(&num(1)));
    assert!(!num(1).same(&num(2)));
    assert!(!num(1).same(&float(1.0)));
    assert!(!num(1).same(&text("1")));
    assert!(num(-3).same(&num(-3)));
    assert!(float(0.0).same(&float(-0.0)));
    assert!(float(f64::NAN).same(&float(f64::NAN)));
    assert!(!float(f64::NAN).same(&float(1.0)));
    assert!(float(f64::INFINITY).same(&float(f64::INFINITY)));
    assert!(!float(f64::INFINITY).same(&float(f64::NEG_INFINITY)));
    assert!(Yaml::Null.same(&Yaml::Null));
    assert!(!Yaml::Null.same(&Yaml::Bool(false)));
    assert!(Yaml::Bool(true).same(&Yaml::Bool(true)));
    assert!(!Yaml::Bool(true).same(&Yaml::Bool(false)));
    assert!(text("a").same(&text("a")));
    assert!(!text("a").same(&text("b")));
    let s = Yaml::Sequence(vec![num(1), text("a")]);
    assert!(s.same(&Yaml::Sequence(vec![num(1), text("a")])));
    assert!(!s.same(&Yaml::Sequence(vec![text("a"), num(1)])));
    assert!(!s.same(&Yaml::Sequence(vec![num(1)])));
    let m = Yaml::Mapping(vec![(text("a"), num(1)), (text("b"), num(2))]);
    assert!(m.same(&Yaml::Mapping(vec![(text("b"), num(2)), (text("a"), num(1))])));
    assert!(!m.same(&Yaml::Mapping(vec![(text("b"), num(2)), (text("a"), num(3))])));
    assert!(!m.same(&Yaml::Mapping(vec![(text("a"), num(1))])));
    assert!(!m.same(&s));
    let t = Yaml::Tagged("!t".to_string(), Box::new(num(1)));
    assert!(t.same(&Yaml::Tagged("!t".to_string(), Box::new(num(1)))));
    assert!(!t.same(&Yaml::Tagged("!u".to_string(), Box::new(num(1)))));
    assert!(!t.same(&num(1)));
}

#[test]
fn same_agrees_with_the_parser_on_keys() {
    let pairs = [
        ("1", "1"),
        ("1", "1.0"),
        ("0.0", "-0.0"),
        (".nan", ".NaN"),
        ("{a: 1, b: [2]}", "{b: [2], a: 1}"),
        ("!t x", "!t x"),
        ("!t x", "!u x"),
        ("[1, 2]", "[2, 1]"),
        ("a", "'a'"),
        ("~", "null"),
        ("~", "''"),
    ];
    for (a, b) in pairs {
        let theirs = serde_yaml::from_str::<serde_yaml::Value>(a).unwrap()
            == serde_yaml::from_str::<serde_yaml::Value>(b).unwrap();
        assert_eq!(parse(a).unwrap().same(&parse(b).unwrap()), theirs, "{} {}", a, b);
    }
}

#[test]
fn find_key_gives_the_first_entry_with_the_key() {
    let entries = vec![(text("a"), num(1)), (num(2), num(2)), (text("a"), num(3))];
    assert_eq!(find_key(&text("a"), &entries), 0);
    assert_eq!(find_key(&num(2), &entries), 1);
    assert_eq!(find_key(&text("b"), &entries), 3);
    assert_eq!(find_key(&text("b"), &vec![]), 0);
}

#[test]
fn replace_at_follows_positions() {
    let mut d = parse("{a: [1, {b: 2}], c: !t [3]}").unwrap();
    d.replace_at(&vec![0, 1, 0], text("x"));
    assert_eq!(d, parse("{a: [1, {b: x}], c: !t [3]}").unwrap());
    d.replace_at(&vec![1, 0], text("y"));
    assert_eq!(d, parse("{a: [1, {b: x}], c: !t [y]}").unwrap());
    d.replace_at(&vec![0, 5], text("z"));
    d.replace_at(&vec![0, 0, 0], text("z"));
    assert_eq!(d, parse("{a: [1, {b: x}], c: !t [y]}").unwrap());
    d.replace_at(&vec![], Yaml::Null);
    assert_eq!(d, Yaml::Null);
}

#[test]
fn duplicate_gives_an_equal_tree() {
    let d = parse("{a: [1, {b: 2.5}], c: !t [x, null, true]}").unwrap();
    assert_eq!(d.duplicate(), d);
}

#[test]
fn untagged_and_is_null_look_through_tags() {
    let d = Yaml::Tagged(
        "!a".to_string(),
        Box::new(Yaml::Tagged("!b".to_string(), Box::new(Yaml::Null))),
    );
    assert_eq!(d.untagged(), &Yaml::Null);
    assert!(d.is_null());
    assert!(Yaml::Null.is_null());
    assert!(!Yaml::Bool(false).is_null());
    assert!(!text("null").is_null());
    assert_eq!(text("a").untagged(), &text("a"));
}

#[test]
fn a_document_with_a_key_twice_is_not_valid() {
    let twice = Yaml::Mapping(vec![(text("a"), num(1)), (text("a"), num(2))]);
    assert!(!twice.is_valid());
    assert!(!Yaml::Sequence(vec![Yaml::Null, twice]).is_valid());
    let zeros = Yaml::Mapping(vec![(float(0.0), num(1)), (float(-0.0), num(2))]);
    assert!(!zeros.is_valid());
    assert!(Yaml::Mapping(vec![(text("a"), num(1)), (text("b"), num(1))]).is_valid());
    let inside_key = Yaml::Mapping(vec![(
        Yaml::Mapping(vec![(num(1), num(1)), (num(1), num(1))]),
        num(1),
    )]);
    assert!(!inside_key.is_valid());
}

#[test]
fn a_tag_must_be_written_as_a_tag() {
    assert!(Yaml::Tagged("!t".to_string(), Box::new(Yaml::Null)).is_valid());
    assert!(!Yaml::Tagged("t".to_string(), Box::new(Yaml::Null)).is_valid());
    assert!(!Yaml::Tagged("!".to_string(), Box::new(Yaml::Null)).is_valid());
    assert!(!Yaml::Tagged("".to_string(), Box::new(Yaml::Null)).is_valid());
}

#[test]
fn clone_gives_an_equal_tree() {
    let d = parse("{a: [1, {b: 2.5}], c: !t [x, null, true]}").unwrap();
    let copy = d.clone();
    assert_eq!(copy, d);
    assert!(copy.same(&d));
}
