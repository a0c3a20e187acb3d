use rowan::{GreenNode, NodeOrToken};
use rustre_parser::error::Error;
use rustre_parser::lustre::{LustreLang, COMMENT, ERROR, WHITESPACE};
use rustre_parser::rowan_nom::{
    alt, fallible, fallible_with, join, many0, node, root_node, split_slice_predicate, t, Input,
    RowanNomLanguage, Rule,
};
use rustre_parser::source::SourceFile;

const LET: u16 = 10;
const IDENT: u16 = 11;
const EQUAL: u16 = 12;
const ROOT: u16 = 20;
const BINDING: u16 = 21;

fn run_root<'a, 'src>(
    rule: &Rule,
    toks: &'a [(u16, &'src str)],
) -> Result<(Input<'a, 'src>, (GreenNode, Vec<Error>)), Error> {
    root_node::<LustreLang>(ROOT, rule, Input::new::<LustreLang>(toks))
}

/// Kind and text of each leaf, left to right.
fn leaves(node: &rowan::GreenNodeData, out: &mut Vec<(u16, String)>) {
    for child in node.children() {
        match child {
            NodeOrToken::Node(n) => leaves(n, out),
            NodeOrToken::Token(tok) => out.push((tok.kind().0, tok.text().to_string())),
        }
    }
}

fn child_kinds(node: &rowan::GreenNodeData) -> Vec<u16> {
    node.children().map(|c| c.kind().0).collect()
}

#[test]
fn language_trivia_kinds() {
    assert!(LustreLang::is_trivia(WHITESPACE));
    assert!(LustreLang::is_trivia(COMMENT));
    assert!(!LustreLang::is_trivia(LET));
    assert_eq!(LustreLang::get_error_kind(), ERROR);
}

#[test]
fn missing_identifier_is_recovered() {
    let toks = vec![(LET, "let"), (WHITESPACE, " "), (EQUAL, "=")];
    let rule = join(vec![t(LET), fallible(t(IDENT)), t(EQUAL)]);
    let (rest, (root, errors)) = run_root(&rule, &toks).ok().unwrap();
    assert_eq!(rest.input_len::<LustreLang>(), 0);
    assert_eq!(errors.len(), 1);
    assert_eq!(errors[0].msg, format!("expected {:?}, found {:?}", IDENT, EQUAL));
    assert_eq!(errors[0].start, 4);
    assert_eq!(errors[0].end, 5);
    assert_eq!(child_kinds(&root), vec![LET, ERROR, WHITESPACE, EQUAL]);
    assert_eq!(root.to_string(), "let =");
}

#[test]
fn context_wraps_the_error() {
    let toks = vec![(LET, "let")];
    let rule = join(vec![t(LET), fallible_with(t(IDENT), "binding name".to_string())]);
    let (_, (_, errors)) = run_root(&rule, &toks).ok().unwrap();
    assert_eq!(errors.len(), 1);
    assert_eq!(errors[0].msg, "binding name");
    let cause = errors[0].cause.as_ref().unwrap();
    assert_eq!(cause.msg, "unexpected eof");
    assert_eq!(cause.start, 3);
    assert_eq!(errors[0].start, 3);
}

#[test]
fn failed_sequence_fails_whole() {
    let toks = vec![(LET, "let"), (IDENT, "x")];
    let rule = join(vec![t(LET), t(IDENT), t(EQUAL)]);
    let r = run_root(&rule, &toks);
    assert!(r.is_err());
    assert_eq!(r.err().unwrap().msg, "unexpected eof");
}

#[test]
fn repeat_with_no_match_consumes_nothing() {
    let toks = vec![(LET, "let"), (IDENT, "x")];
    let rule = many0(t(IDENT));
    let (rest, (root, errors)) = run_root(&rule, &toks).ok().unwrap();
    assert_eq!(rest.input_len::<LustreLang>(), 2);
    assert!(errors.is_empty());
    assert_eq!(child_kinds(&root), Vec::<u16>::new());
}

#[test]
fn repeat_stops_after_three() {
    let toks = vec![
        (IDENT, "a"),
        (WHITESPACE, " "),
        (IDENT, "b"),
        (IDENT, "c"),
        (EQUAL, "="),
        (IDENT, "d"),
    ];
    let rule = many0(t(IDENT));
    let (rest, (root, _)) = run_root(&rule, &toks).ok().unwrap();
    assert_eq!(rest.input_len::<LustreLang>(), 2);
    assert_eq!(child_kinds(&root), vec![IDENT, WHITESPACE, IDENT, IDENT]);
}

#[test]
fn repeat_of_recovering_rule_terminates() {
    let toks = vec![(LET, "let")];
    let rule = many0(fallible(t(IDENT)));
    let (rest, (root, errors)) = run_root(&rule, &toks).ok().unwrap();
    assert_eq!(rest.input_len::<LustreLang>(), 1);
    assert!(errors.is_empty());
    assert_eq!(child_kinds(&root), Vec::<u16>::new());
}

#[test]
fn leading_comments_attach_to_first_token() {
    let toks = vec![
        (COMMENT, "-- header"),
        (WHITESPACE, "\n"),
        (COMMENT, "(* more *)"),
        (LET, "let"),
    ];
    let rule = t(LET);
    let (_, (root, _)) = run_root(&rule, &toks).ok().unwrap();
    assert_eq!(child_kinds(&root), vec![COMMENT, WHITESPACE, COMMENT, LET]);
    assert_eq!(root.to_string(), "-- header\n(* more *)let");
}

#[test]
fn nested_nodes_keep_every_token() {
    let toks = vec![
        (WHITESPACE, "  "),
        (LET, "let"),
        (WHITESPACE, " "),
        (IDENT, "x"),
        (COMMENT, "/* c */"),
        (EQUAL, "="),
        (IDENT, "y"),
        (WHITESPACE, "\n"),
    ];
    let binding = node(BINDING, join(vec![t(LET), t(IDENT), t(EQUAL), t(IDENT)]));
    let rule = many0(binding);
    let (rest, (root, errors)) = run_root(&rule, &toks).ok().unwrap();
    assert!(errors.is_empty());
    // the trailing whitespace has no token after it to attach to
    assert_eq!(rest.input_len::<LustreLang>(), 1);
    assert_eq!(child_kinds(&root), vec![BINDING]);
    let mut got = Vec::new();
    leaves(&root, &mut got);
    let expected: Vec<(u16, String)> =
        toks[..7].iter().map(|(k, s)| (*k, s.to_string())).collect();
    assert_eq!(got, expected);
    assert_eq!(root.to_string(), "  let x/* c */=y");
}

#[test]
fn whole_stream_round_trips() {
    let toks = vec![
        (COMMENT, "-- only comments\n"),
        (LET, "let"),
        (WHITESPACE, " "),
        (IDENT, "x"),
    ];
    let rule = join(vec![t(LET), t(IDENT)]);
    let (rest, (root, _)) = run_root(&rule, &toks).ok().unwrap();
    assert_eq!(rest.input_len::<LustreLang>(), 0);
    let text: String = toks.iter().map(|(_, s)| *s).collect();
    assert_eq!(root.to_string(), text);
}

#[test]
fn unexpected_token_span_and_message() {
    let toks = vec![(WHITESPACE, "  "), (EQUAL, "==")];
    let r = run_root(&t(LET), &toks);
    let e = r.err().unwrap();
    assert_eq!(e.start, 2);
    assert_eq!(e.end, 4);
    assert_eq!(e.msg, format!("expected {:?}, found {:?}", LET, EQUAL));
    assert!(e.cause.is_none());
}

#[test]
fn error_constructors() {
    let e = Error::message("oops");
    assert_eq!((e.start, e.end, e.msg.as_str()), (0, 0, "oops"));
    let e = Error::from_unexpected_eof(9);
    assert_eq!((e.start, e.end, e.msg.as_str()), (9, 9, "unexpected eof"));
    let e = Error::from_unexpected_token(1, 3, 4, 5).with_context("in a node");
    assert_eq!((e.start, e.end, e.msg.as_str()), (1, 3, "in a node"));
    assert_eq!(e.cause.unwrap().msg, "expected 4, found 5");
}

#[test]
fn split_at_first_match() {
    let v = [1, 3, 5, 6, 7];
    let (a, b) = split_slice_predicate(&v, |x: &i32| x % 2 == 0);
    assert_eq!(a, &[1, 3, 5]);
    assert_eq!(b, &[6, 7]);
    let (a, b) = split_slice_predicate(&v, |x: &i32| *x > 100);
    assert_eq!(a, &v[..]);
    assert!(b.is_empty());
}

#[test]
fn source_file_keeps_fields() {
    let f = SourceFile::new("main.lus".to_string(), "node n() returns ()".to_string());
    assert_eq!(f.path, "main.lus");
    assert_eq!(f.text, "node n() returns ()");
}

#[test]
fn ordered_choice_tries_in_order() {
    let toks = vec![(WHITESPACE, " "), (IDENT, "x")];
    let rule = alt(t(LET), t(IDENT));
    let (rest, (root, errors)) = run_root(&rule, &toks).ok().unwrap();
    assert_eq!(rest.input_len::<LustreLang>(), 0);
    assert!(errors.is_empty());
    assert_eq!(child_kinds(&root), vec![WHITESPACE, IDENT]);
    // both fail: the second rule's error comes out
    let toks = vec![(EQUAL, "=")];
    let e = run_root(&rule, &toks).err().unwrap();
    assert_eq!(e.msg, format!("expected {:?}, found {:?}", IDENT, EQUAL));
}

#[test]
fn mismatch_message_digits() {
    let e = Error::from_unexpected_token(0, 1, 0, 65535);
    assert_eq!(e.msg, "expected 0, found 65535");
    let e = Error::from_unexpected_token(0, 1, 10, 9);
    assert_eq!(e.msg, "expected 10, found 9");
}
