use scrambler::definition::{Definition, Field, Generator, ParseError, Twist};

fn twist(token: &str) -> Twist {
    Twist(token.to_string())
}

fn generator(tokens: &[&str]) -> Generator {
    Generator(tokens.iter().map(|t| twist(t)).collect())
}

const WELL_FORMED: &str = "n: 3\nd: 3\ndepth: 2\nprefix: a b\npostfix: c\ngenerators:\nR U\nF\n";

#[test]
fn test_parse() {
    let input = "n:3
d:  4
depth: 100
prefix: zy 
postfix:  
generators: 
IU//
 IU//a
IU IU // a 
";
    let def = Definition::parse(input).unwrap();
    assert_eq!(def.n, 3);
    assert_eq!(def.d, 4);
    assert_eq!(def.depth, 100);
    assert_eq!(def.prefix, Generator(vec![Twist("zy".to_string())]));
    assert_eq!(def.postfix, Generator(vec![]));
    assert_eq!(
        def.generators,
        vec![
            Generator(vec![Twist("IU".to_string())]),
            Generator(vec![Twist("IU".to_string())]),
            Generator(vec![Twist("IU".to_string()), Twist("IU".to_string())])
        ]
    );
}

#[test]
fn parses_every_field() {
    let def = Definition::parse(WELL_FORMED).unwrap();
    assert_eq!(
        def,
        Definition {
            n: 3,
            d: 3,
            depth: 2,
            prefix: generator(&["a", "b"]),
            postfix: generator(&["c"]),
            generators: vec![generator(&["R", "U"]), generator(&["F"])],
        }
    );
}

#[test]
fn pool_may_be_empty() {
    let def = Definition::parse("n:1\nd:2\ndepth:3\nprefix:\npostfix:\ngenerators:").unwrap();
    assert_eq!(def.n, 1);
    assert_eq!(def.d, 2);
    assert_eq!(def.depth, 3);
    assert_eq!(def.prefix, generator(&[]));
    assert_eq!(def.postfix, generator(&[]));
    assert!(def.generators.is_empty());
}

#[test]
fn blank_and_comment_only_lines_are_dropped() {
    let input = "\n// a definition\n\nn: 3\n   \n  // between\nd: 3\n\t\ndepth: 2\nprefix: a b\n//\npostfix: c\n\ngenerators:\n\nR U\n   // nothing\nF\n\n\n";
    assert_eq!(Definition::parse(input), Definition::parse(WELL_FORMED));
}

#[test]
fn a_trailing_comment_changes_nothing() {
    let expected = Definition::parse(WELL_FORMED);
    let lines: Vec<&str> = WELL_FORMED.lines().collect();
    for at in 0..lines.len() {
        let mut text = String::new();
        for (i, line) in lines.iter().enumerate() {
            text.push_str(line);
            if i == at {
                text.push_str(" // anything");
            }
            text.push('\n');
        }
        assert_eq!(Definition::parse(&text), expected);
    }
}

#[test]
fn a_trailing_comment_on_a_faulty_line_keeps_the_fault() {
    assert_eq!(
        Definition::parse("n: abc // anything"),
        Definition::parse("n: abc")
    );
    assert_eq!(
        Definition::parse("n: 1\nd: 2 // anything"),
        Definition::parse("n: 1\nd: 2")
    );
}

#[test]
fn carriage_returns_are_white_space() {
    let input = WELL_FORMED.replace('\n', "\r\n");
    assert_eq!(Definition::parse(&input), Definition::parse(WELL_FORMED));
}

#[test]
fn unicode_white_space_separates_and_trims() {
    let input = "\u{3000}n:\u{a0}3\u{2003}\nd: 3\ndepth: 2\nprefix: a\u{2028}b\npostfix:\u{85}c\ngenerators:\nR\u{1680}U\nF\u{205f}\n";
    assert_eq!(Definition::parse(input), Definition::parse(WELL_FORMED));
}

#[test]
fn zero_width_space_is_part_of_a_twist() {
    let input = "n: 3\nd: 3\ndepth: 2\nprefix: a\u{200b}b\npostfix:\ngenerators:\n";
    let def = Definition::parse(input).unwrap();
    assert_eq!(def.prefix, generator(&["a\u{200b}b"]));
}

#[test]
fn a_single_slash_is_no_comment() {
    let input = "n: 3\nd: 3\ndepth: 2\nprefix: a/b / c/ /d\npostfix: x///y\ngenerators:\n";
    let def = Definition::parse(input).unwrap();
    assert_eq!(def.prefix, generator(&["a/b", "/", "c/", "/d"]));
    assert_eq!(def.postfix, generator(&["x"]));
}

#[test]
fn numbers_may_have_leading_zeros() {
    let def = Definition::parse("n: 007\nd: 0000255\ndepth: 00\nprefix:\npostfix:\ngenerators:")
        .unwrap();
    assert_eq!((def.n, def.d, def.depth), (7, 255, 0));
}

#[test]
fn a_plus_sign_is_no_digit() {
    assert_eq!(
        Definition::parse("n: +7\nd:+0\ndepth: +0012\nprefix:\npostfix:\ngenerators:"),
        Err(ParseError::InvalidNumber(Field::N))
    );
    assert_eq!(
        Definition::parse("n:+3\nd: 4\ndepth: 1\nprefix:\npostfix:\ngenerators:"),
        Err(ParseError::InvalidNumber(Field::N))
    );
    assert_eq!(
        Definition::parse("n: 7\nd:+0\ndepth: 12\nprefix:\npostfix:\ngenerators:"),
        Err(ParseError::InvalidNumber(Field::D))
    );
    assert_eq!(
        Definition::parse("n: 7\nd: 0\ndepth: +0012\nprefix:\npostfix:\ngenerators:"),
        Err(ParseError::InvalidNumber(Field::Depth))
    );
    assert_eq!(
        Definition::parse("n: +256"),
        Err(ParseError::InvalidNumber(Field::N))
    );
}

#[test]
fn digit_runs_are_read_as_numbers() {
    let cases: [(&str, Option<(u8, u32)>); 12] = [
        ("0", Some((0, 0))),
        ("9", Some((9, 9))),
        ("255", Some((255, 255))),
        ("00000000000000000000001", Some((1, 1))),
        ("", None),
        ("+", None),
        ("+255", None),
        ("-1", None),
        ("1a", None),
        ("a1", None),
        ("+ 1", None),
        ("99999999999", None),
    ];
    for (value, expected) in cases {
        let text = format!("n: 1\nd: {value}\ndepth: {value}\nprefix:\npostfix:\ngenerators:");
        assert_eq!(
            Definition::parse(&text).map(|def| (def.d, def.depth)),
            expected.ok_or(ParseError::InvalidNumber(Field::D)),
            "{value:?}"
        );
    }
}

#[test]
fn a_number_that_fits_one_field_may_not_fit_another() {
    for value in ["256", "4294967295"] {
        let text = format!("n: 1\nd: {value}\ndepth: {value}\nprefix:\npostfix:\ngenerators:");
        assert_eq!(
            Definition::parse(&text),
            Err(ParseError::InvalidNumber(Field::D))
        );
        let text = format!("n: 1\nd: 1\ndepth: {value}\nprefix:\npostfix:\ngenerators:");
        assert_eq!(
            Definition::parse(&text).map(|def| def.depth),
            Ok(value.parse::<u32>().unwrap())
        );
    }
    assert_eq!(
        Definition::parse("n: 1\nd: 1\ndepth: 4294967296\nprefix:\npostfix:\ngenerators:"),
        Err(ParseError::InvalidNumber(Field::Depth))
    );
}

#[test]
fn numbers_reach_the_top_of_their_range() {
    let def = Definition::parse("n: 255\nd: 0\ndepth: 4294967295\nprefix:\npostfix:\ngenerators:")
        .unwrap();
    assert_eq!((def.n, def.d, def.depth), (255, 0, 4294967295));
}

#[test]
fn missing_depth_line_is_unexpected_eof() {
    assert_eq!(
        Definition::parse("n: 3\nd: 4\n"),
        Err(ParseError::UnexpectedEof(Field::Depth))
    );
}

#[test]
fn non_digit_number_is_invalid_number() {
    assert_eq!(
        Definition::parse("n: abc\nd: 4\ndepth: 1\nprefix:\npostfix:\ngenerators:\n"),
        Err(ParseError::InvalidNumber(Field::N))
    );
    assert_eq!(
        Definition::parse("n: abc"),
        Err(ParseError::InvalidNumber(Field::N))
    );
}

#[test]
fn generators_without_colon_is_invalid_header() {
    assert_eq!(
        Definition::parse("n: 3\nd: 4\ndepth: 1\nprefix: a\npostfix: b\ngenerators\nR\n"),
        Err(ParseError::InvalidGeneratorsHeader)
    );
}

#[test]
fn content_after_the_generators_key_is_invalid_header() {
    assert_eq!(
        Definition::parse("n: 3\nd: 4\ndepth: 1\nprefix: a\npostfix: b\ngenerators: R\n"),
        Err(ParseError::InvalidGeneratorsHeader)
    );
    assert_eq!(
        Definition::parse("n: 3\nd: 4\ndepth: 1\nprefix: a\npostfix: b\n generators:x\n"),
        Err(ParseError::InvalidGeneratorsHeader)
    );
}

#[test]
fn every_missing_line_is_named() {
    let lines = ["n: 3", "d: 4", "depth: 1", "prefix: a", "postfix: b", "generators:"];
    let fields = [
        Field::N,
        Field::D,
        Field::Depth,
        Field::Prefix,
        Field::Postfix,
        Field::Generators,
    ];
    for count in 0..lines.len() {
        let text = lines[..count].join("\n");
        assert_eq!(
            Definition::parse(&text),
            Err(ParseError::UnexpectedEof(fields[count]))
        );
    }
    assert!(Definition::parse(&lines.join("\n")).is_ok());
}

#[test]
fn empty_text_lacks_the_first_line() {
    assert_eq!(Definition::parse(""), Err(ParseError::UnexpectedEof(Field::N)));
    assert_eq!(
        Definition::parse("  \n// only a comment\n\n"),
        Err(ParseError::UnexpectedEof(Field::N))
    );
}

#[test]
fn every_missing_key_is_named() {
    let lines = ["n: 3", "d: 4", "depth: 1", "prefix: a", "postfix: b"];
    let fields = [Field::N, Field::D, Field::Depth, Field::Prefix, Field::Postfix];
    for at in 0..lines.len() {
        let mut text = lines[..at].join("\n");
        text.push_str("\nkey: 1\n");
        assert_eq!(
            Definition::parse(&text),
            Err(ParseError::MissingKey(fields[at]))
        );
    }
}

#[test]
fn lines_out_of_order_miss_their_key() {
    assert_eq!(
        Definition::parse("d: 4\nn: 3\ndepth: 1\nprefix:\npostfix:\ngenerators:\n"),
        Err(ParseError::MissingKey(Field::N))
    );
    assert_eq!(
        Definition::parse("n: 3\ndepth: 1\nd: 4\nprefix:\npostfix:\ngenerators:\n"),
        Err(ParseError::MissingKey(Field::D))
    );
    assert_eq!(
        Definition::parse("n: 3\nd: 4\nd: 1\nprefix:\npostfix:\ngenerators:\n"),
        Err(ParseError::MissingKey(Field::Depth))
    );
}

#[test]
fn key_must_open_the_line_exactly() {
    assert_eq!(
        Definition::parse("N: 3"),
        Err(ParseError::MissingKey(Field::N))
    );
    assert_eq!(
        Definition::parse("n : 3"),
        Err(ParseError::MissingKey(Field::N))
    );
    assert_eq!(
        Definition::parse("n"),
        Err(ParseError::MissingKey(Field::N))
    );
}

#[test]
fn numbers_out_of_range_are_invalid() {
    assert_eq!(
        Definition::parse("n: 256"),
        Err(ParseError::InvalidNumber(Field::N))
    );
    assert_eq!(
        Definition::parse("n: 1\nd: 1000"),
        Err(ParseError::InvalidNumber(Field::D))
    );
    assert_eq!(
        Definition::parse("n: 1\nd: 1\ndepth: 4294967296"),
        Err(ParseError::InvalidNumber(Field::Depth))
    );
    assert_eq!(
        Definition::parse("n: 1\nd: 1\ndepth: 99999999999999999999999999"),
        Err(ParseError::InvalidNumber(Field::Depth))
    );
}

#[test]
fn numbers_that_are_no_digit_runs_are_invalid() {
    for value in [
        "", " ", "+", "-", "+1", "+0", "-1", "-0", "++1", "+-1", "+ 1", "1+", "1 2", "1_0", "0x10",
        "1.0", "١",
    ] {
        let text = format!("n:{value}");
        assert_eq!(
            Definition::parse(&text),
            Err(ParseError::InvalidNumber(Field::N))
        );
    }
}

#[test]
fn the_first_fault_is_reported() {
    assert_eq!(
        Definition::parse("n: x\nd: y\ndepth"),
        Err(ParseError::InvalidNumber(Field::N))
    );
    assert_eq!(
        Definition::parse("n: 1\nd: y\ndepth"),
        Err(ParseError::InvalidNumber(Field::D))
    );
    assert_eq!(
        Definition::parse("n: 1\nd: 2\ndepth"),
        Err(ParseError::MissingKey(Field::Depth))
    );
}

#[test]
fn parsed_twists_are_single_words() {
    let def = Definition::parse(WELL_FORMED).unwrap();
    let mut all: Vec<&Twist> = Vec::new();
    all.extend(def.prefix.0.iter());
    all.extend(def.postfix.0.iter());
    for g in &def.generators {
        assert!(!g.0.is_empty());
        all.extend(g.0.iter());
    }
    for t in all {
        assert!(!t.0.is_empty());
        assert!(!t.0.chars().any(char::is_whitespace));
    }
}

#[test]
fn messages_name_the_line_at_fault() {
    assert_eq!(
        ParseError::UnexpectedEof(Field::Depth).message(),
        "the definition ends before its line depth:"
    );
    assert_eq!(
        ParseError::InvalidNumber(Field::N).message(),
        "not an unsigned number in range after n:"
    );
    assert_eq!(
        ParseError::MissingKey(Field::Postfix).message(),
        "expected a line that starts with postfix:"
    );
    assert_eq!(
        ParseError::InvalidGeneratorsHeader.message(),
        "expected the line generators: and nothing after it"
    );
}

#[test]
fn keys_are_the_words_of_the_grammar() {
    assert_eq!(Field::N.key_text(), "n:");
    assert_eq!(Field::D.key_text(), "d:");
    assert_eq!(Field::Depth.key_text(), "depth:");
    assert_eq!(Field::Prefix.key_text(), "prefix:");
    assert_eq!(Field::Postfix.key_text(), "postfix:");
    assert_eq!(Field::Generators.key_text(), "generators:");
}

fn write_out(def: &Definition) -> String {
    let line = |key: &str, twists: &Generator| {
        let mut line = key.to_string();
        for t in &twists.0 {
            line.push(' ');
            line.push_str(&t.0);
        }
        line.push('\n');
        line
    };
    let mut text = format!("n: {}\nd: {}\ndepth: {}\n", def.n, def.d, def.depth);
    text.push_str(&line("prefix:", &def.prefix));
    text.push_str(&line("postfix:", &def.postfix));
    text.push_str("generators:\n");
    for g in &def.generators {
        let words: Vec<&str> = g.0.iter().map(|t| t.0.as_str()).collect();
        text.push_str(&words.join(" "));
        text.push('\n');
    }
    text
}

#[test]
fn a_written_definition_reads_back() {
    let definitions = [
        Definition {
            n: 0,
            d: 0,
            depth: 0,
            prefix: generator(&[]),
            postfix: generator(&[]),
            generators: vec![],
        },
        Definition {
            n: 3,
            d: 4,
            depth: 100,
            prefix: generator(&["zy"]),
            postfix: generator(&[]),
            generators: vec![generator(&["IU"]), generator(&["IU"]), generator(&["IU", "IU"])],
        },
        Definition {
            n: 255,
            d: 255,
            depth: u32::MAX,
            prefix: generator(&["n:", "/", "prefix:"]),
            postfix: generator(&["generators:", "a/b", "/"]),
            generators: vec![generator(&["depth:", "7"]), generator(&["é", "漢字", "/x/"])],
        },
    ];
    for def in &definitions {
        assert_eq!(Definition::parse(&write_out(def)).as_ref(), Ok(def));
    }
}

#[test]
fn a_twist_with_two_slashes_cannot_be_written() {
    let def = Definition {
        n: 1,
        d: 1,
        depth: 1,
        prefix: generator(&["a//b", "c"]),
        postfix: generator(&[]),
        generators: vec![],
    };
    let read = Definition::parse(&write_out(&def)).unwrap();
    assert_eq!(read.prefix, generator(&["a"]));
}

#[test]
fn no_parsed_twist_holds_two_slashes() {
    let def = Definition::parse(
        "n: 1\nd: 1\ndepth: 1\nprefix: a/ /b a//b c\npostfix: /// x\ngenerators:\nR/ //U\nF///\n",
    )
    .unwrap();
    assert_eq!(def.prefix, generator(&["a/", "/b", "a"]));
    assert_eq!(def.postfix, generator(&[]));
    assert_eq!(def.generators, vec![generator(&["R/"]), generator(&["F"])]);
}

#[test]
fn a_parsed_definition_reads_back_when_written() {
    let text = "  n:0003 // layers\n\nd:4\ndepth:   100\nprefix:zy   x //\npostfix:\n generators:\nIU//\n IU//a\nIU IU // a \n";
    let def = Definition::parse(text).unwrap();
    assert_eq!(
        write_out(&def),
        "n: 3\nd: 4\ndepth: 100\nprefix: zy x\npostfix:\ngenerators:\nIU\nIU\nIU IU\n"
    );
    assert_eq!(Definition::parse(&write_out(&def)), Ok(def));
}
