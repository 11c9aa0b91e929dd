use pcb_rs::description::DescriptionError;
use pcb_rs::syntax::{parse_tokens, ExposedPins, PcbMacroInput};
use pcb_rs::token::{tokenize, LexError, Token};
use pcb_rs::ChipPin;

fn pin(chip: &str, pin: &str) -> ChipPin {
    ChipPin::new(chip, pin)
}

#[test]
fn tokens_of_a_small_description() {
    let tokens = tokenize("B{chip a_1;\n a_1::p - b::q ; expose x , y as z }").unwrap();
    assert_eq!(
        tokens,
        vec![
            Token::Ident("B".to_string()),
            Token::LeftBrace,
            Token::Chip,
            Token::Ident("a_1".to_string()),
            Token::Semicolon,
            Token::Ident("a_1".to_string()),
            Token::PathSep,
            Token::Ident("p".to_string()),
            Token::Dash,
            Token::Ident("b".to_string()),
            Token::PathSep,
            Token::Ident("q".to_string()),
            Token::Semicolon,
            Token::Expose,
            Token::Ident("x".to_string()),
            Token::Comma,
            Token::Ident("y".to_string()),
            Token::As,
            Token::Ident("z".to_string()),
            Token::RightBrace,
        ]
    );
}

#[test]
fn words_are_as_long_as_they_can_be() {
    assert_eq!(
        tokenize("chips chip asx as exposed").unwrap(),
        vec![
            Token::Ident("chips".to_string()),
            Token::Chip,
            Token::Ident("asx".to_string()),
            Token::As,
            Token::Ident("exposed".to_string()),
        ]
    );
    assert_eq!(tokenize("").unwrap(), vec![]);
    assert_eq!(tokenize(" \t\r\n").unwrap(), vec![]);
}

#[test]
fn characters_that_start_no_token() {
    assert_eq!(tokenize("a : b"), Err(LexError::BadCharacter { position: 2 }));
    assert_eq!(tokenize("a::b:"), Err(LexError::BadCharacter { position: 4 }));
    assert_eq!(tokenize("ab 1c"), Err(LexError::BadCharacter { position: 3 }));
    assert_eq!(tokenize("a + b"), Err(LexError::BadCharacter { position: 2 }));
    assert_eq!(tokenize("a \u{e9}"), Err(LexError::NotAscii));
    assert_eq!(tokenize("+ \u{e9}"), Err(LexError::NotAscii));
}

#[test]
fn parse_the_documented_example() {
    let text = "BoardName {
        chip a; chip b; chip c;
        a::p - b::q;
        b::r - c::s;
        expose a::x as clk;
        expose b::in1, c::in1 as data;
    }";
    let input = PcbMacroInput::parse(text).unwrap();
    assert_eq!(input.name, "BoardName");
    assert_eq!(input.chips, vec!["a".to_string(), "b".to_string(), "c".to_string()]);
    assert_eq!(
        input.connections,
        vec![(pin("a", "p"), pin("b", "q")), (pin("b", "r"), pin("c", "s"))]
    );
    assert_eq!(
        input.exposed_pins,
        vec![
            ExposedPins { pins: vec![pin("a", "x")], as_name: "clk".to_string() },
            ExposedPins {
                pins: vec![pin("b", "in1"), pin("c", "in1")],
                as_name: "data".to_string()
            },
        ]
    );
    assert_eq!(input.check(), None);
}

#[test]
fn empty_description_is_rejected() {
    assert_eq!(PcbMacroInput::parse(""), Err(DescriptionError::Syntax { token: 0 }));
    assert_eq!(PcbMacroInput::parse("Board { }"), Err(DescriptionError::NoChips));
    assert_eq!(PcbMacroInput::parse("Board"), Err(DescriptionError::Syntax { token: 1 }));
}

#[test]
fn chips_without_connections_are_accepted() {
    let input = PcbMacroInput::parse("Board { chip a; chip b; }").unwrap();
    assert_eq!(input.chips.len(), 2);
    assert!(input.connections.is_empty());
    assert!(input.exposed_pins.is_empty());
    assert!(input.get_short_pin_set().is_empty());
}

#[test]
fn self_connection_is_rejected() {
    assert_eq!(
        PcbMacroInput::parse("Board { chip a; a::p - a::p; }"),
        Err(DescriptionError::SelfConnection { pin: pin("a", "p") })
    );
    assert!(PcbMacroInput::parse("Board { chip a; a::p - a::q; }").is_ok());
}

#[test]
fn connection_to_an_undeclared_chip_is_rejected() {
    assert_eq!(
        PcbMacroInput::parse("Board { chip a; a::p - b::q; }"),
        Err(DescriptionError::UndeclaredChip { chip: "b".to_string() })
    );
    assert_eq!(
        PcbMacroInput::parse("Board { chip a; z::p - b::q; }"),
        Err(DescriptionError::UndeclaredChip { chip: "z".to_string() })
    );
    assert_eq!(
        PcbMacroInput::parse("Board { chip a; expose a::p, c::p as d; }"),
        Err(DescriptionError::UndeclaredChip { chip: "c".to_string() })
    );
}

#[test]
fn self_connection_comes_before_an_undeclared_chip() {
    assert_eq!(
        PcbMacroInput::parse("Board { chip a; z::p - z::p; }"),
        Err(DescriptionError::SelfConnection { pin: pin("z", "p") })
    );
}

#[test]
fn duplicate_chip_is_rejected() {
    assert_eq!(
        PcbMacroInput::parse("Board { chip a; chip b; chip a; chip b; }"),
        Err(DescriptionError::DuplicateChip { chip: "a".to_string() })
    );
}

#[test]
fn a_pin_exposed_twice_is_rejected_with_both_names() {
    assert_eq!(
        PcbMacroInput::parse(
            "Board { chip a; chip b; expose a::p as x; expose b::q, a::p as y; }"
        ),
        Err(DescriptionError::ExposedTwice {
            pin: pin("a", "p"),
            first: "x".to_string(),
            second: "y".to_string()
        })
    );
    assert_eq!(
        PcbMacroInput::parse("Board { chip a; expose a::p, a::p as x; }"),
        Err(DescriptionError::ExposedTwice {
            pin: pin("a", "p"),
            first: "x".to_string(),
            second: "x".to_string()
        })
    );
}

#[test]
fn grammar_errors_name_the_offending_token() {
    // a trailing comma in an expose list
    assert_eq!(
        PcbMacroInput::parse("B { chip a; expose a::p, as x; }"),
        Err(DescriptionError::Syntax { token: 10 })
    );
    // a missing dash
    assert_eq!(
        PcbMacroInput::parse("B { chip a; a::p a::q; }"),
        Err(DescriptionError::Syntax { token: 8 })
    );
    // a chip declared after a connection
    assert_eq!(
        PcbMacroInput::parse("B { chip a; a::p - a::q; chip b; }"),
        Err(DescriptionError::Syntax { token: 13 })
    );
    // a connection after an expose entry
    assert_eq!(
        PcbMacroInput::parse("B { chip a; expose a::p as x; a::p - a::q; }"),
        Err(DescriptionError::Syntax { token: 12 })
    );
    // the closing brace is missing
    assert_eq!(
        PcbMacroInput::parse("B { chip a;"),
        Err(DescriptionError::Syntax { token: 5 })
    );
    // something follows the closing brace
    assert_eq!(
        PcbMacroInput::parse("B { chip a; } x"),
        Err(DescriptionError::Syntax { token: 6 })
    );
    // an expose entry without a name
    assert_eq!(
        PcbMacroInput::parse("B { chip a; expose a::p; }"),
        Err(DescriptionError::Syntax { token: 9 })
    );
    // a reserved word where a name is expected
    assert_eq!(
        PcbMacroInput::parse("B { chip chip; }"),
        Err(DescriptionError::Syntax { token: 3 })
    );
}

#[test]
fn lexical_errors_come_first() {
    assert_eq!(
        PcbMacroInput::parse("B { chip a; a::p - a::p; ? }"),
        Err(DescriptionError::Lex(LexError::BadCharacter { position: 25 }))
    );
}

#[test]
fn parse_tokens_reads_what_tokenize_gives() {
    let tokens = tokenize("B { chip a; }").unwrap();
    let input = parse_tokens(&tokens).unwrap();
    assert_eq!(input.name, "B");
    assert_eq!(input.chips, vec!["a".to_string()]);
    assert_eq!(parse_tokens(&vec![]), Err(0));
    assert_eq!(parse_tokens(&vec![Token::LeftBrace]), Err(0));
}

fn sorted(groups: Vec<Vec<ChipPin>>) -> Vec<Vec<(String, String)>> {
    let mut out: Vec<Vec<(String, String)>> = groups
        .into_iter()
        .map(|g| {
            let mut g: Vec<(String, String)> = g.into_iter().map(|p| (p.chip, p.pin)).collect();
            g.sort();
            g
        })
        .collect();
    out.sort();
    out
}

fn names(group: &[(&str, &str)]) -> Vec<(String, String)> {
    group.iter().map(|(c, p)| (c.to_string(), p.to_string())).collect()
}

#[test]
fn shorted_groups_are_the_connected_components() {
    let input = PcbMacroInput::parse(
        "B { chip a; chip b; chip c;
             a::p - b::q;
             c::s - c::t;
             b::q - c::u;
             b::r - a::v; }",
    )
    .unwrap();
    assert_eq!(
        sorted(input.get_short_pin_set()),
        vec![
            names(&[("a", "p"), ("b", "q"), ("c", "u")]),
            names(&[("a", "v"), ("b", "r")]),
            names(&[("c", "s"), ("c", "t")]),
        ]
    );
}

#[test]
fn a_late_connection_joins_two_groups() {
    let input = PcbMacroInput::parse(
        "B { chip p; chip x; chip y;
             p::lo - p::hi;
             x::lo - x::hi;
             y::mid - p::hi;
             y::mid - x::hi; }",
    )
    .unwrap();
    assert_eq!(
        sorted(input.get_short_pin_set()),
        vec![names(&[
            ("p", "hi"),
            ("p", "lo"),
            ("x", "hi"),
            ("x", "lo"),
            ("y", "mid")
        ])]
    );
}

#[test]
fn repeated_connections_add_nothing() {
    let input = PcbMacroInput::parse("B { chip a; a::p - a::q; a::q - a::p; a::p - a::q; }").unwrap();
    assert_eq!(sorted(input.get_short_pin_set()), vec![names(&[("a", "p"), ("a", "q")])]);
}
