use turtle_parser::parser::{Parser, ParseError};
use turtle_parser::syntax_tree::{Flow, Nest, ProgramIsland, Value};
use turtle_parser::token::TokenType;
use turtle_parser::lexer::LexError;

fn chars(s: &str) -> Vec<char> {
    s.chars().collect()
}

fn parse(s: &str) -> Result<ProgramIsland, ParseError> {
    let mut parser = Parser::new(chars(s));
    parser.parse()
}

fn name(s: &str) -> Value {
    Value::Name(chars(s))
}

#[test]
fn empty_program() {
    let island = parse("~~~ --- ").unwrap();
    assert_eq!(island.nests, Vec::new());
    assert_eq!(island.sea_flow, Flow(Vec::new()));
}

#[test]
fn nest_then_empty_flow() {
    let island = parse("nest of Green turtles ( a b c ) ~~~ --- ").unwrap();
    assert_eq!(
        island.nests,
        vec![Nest::Green(vec![chars("a"), chars("b"), chars("c")])]
    );
    assert_eq!(island.sea_flow, Flow(Vec::new()));
}

#[test]
fn empty_nest() {
    let island = parse("nest of Green turtles ( ) ~~~ --- ").unwrap();
    assert_eq!(island.nests, vec![Nest::Green(Vec::new())]);
    assert_eq!(island.sea_flow, Flow(Vec::new()));
}

#[test]
fn simple_values_in_order() {
    let island = parse("~~~ 42 \"hi\" ! --- ").unwrap();
    assert_eq!(island.nests, Vec::new());
    assert_eq!(
        island.sea_flow,
        Flow(vec![Value::Number(42), Value::Str(chars("hi")), Value::Trigger])
    );
}

#[test]
fn group_splices() {
    let island = parse("~~~ ( x y ) --- ").unwrap();
    assert_eq!(island.sea_flow, Flow(vec![name("x"), name("y")]));
}

#[test]
fn internal_flow_wraps() {
    let island = parse("~~~ { x y } --- ").unwrap();
    assert_eq!(
        island.sea_flow,
        Flow(vec![Value::InternalFlow(vec![name("x"), name("y")])])
    );
}

#[test]
fn truncated_program_reports_eof() {
    match parse("~~~ --") {
        Err(ParseError::Unexpected { expected, got }) => {
            assert_eq!(got, TokenType::EOF);
            assert!(expected.contains(&TokenType::HORIZON));
            assert!(expected.contains(&TokenType::NAME));
        }
        other => panic!("expected a grammar violation, got {:?}", other),
    }
}

#[test]
fn group_is_transparent() {
    let grouped = parse("~~~ ( x 1 ) y --- ").unwrap();
    let plain = parse("~~~ x 1 y --- ").unwrap();
    assert_eq!(grouped, plain);
    assert_eq!(
        grouped.sea_flow,
        Flow(vec![name("x"), Value::Number(1), name("y")])
    );
}

#[test]
fn nested_groups_splice_flat() {
    let island = parse("~~~ ( ( x ) y ) --- ").unwrap();
    assert_eq!(island.sea_flow, Flow(vec![name("x"), name("y")]));
}

#[test]
fn internal_flow_inner_matches_bare_parse() {
    let wrapped = parse("~~~ { x 1 ! } --- ").unwrap();
    let bare = parse("~~~ x 1 ! --- ").unwrap();
    match &wrapped.sea_flow.0[..] {
        [Value::InternalFlow(inner)] => assert_eq!(inner, &bare.sea_flow.0),
        other => panic!("expected one internal flow, got {:?}", other),
    }
}

#[test]
fn deeply_nested_internal_flows() {
    let island = parse("~~~ { { ! } } --- ").unwrap();
    assert_eq!(
        island.sea_flow,
        Flow(vec![Value::InternalFlow(vec![Value::InternalFlow(vec![
            Value::Trigger
        ])])])
    );
}

#[test]
fn group_inside_internal_flow() {
    let island = parse("~~~ { ( x 1 ) \"s\" } --- ").unwrap();
    assert_eq!(
        island.sea_flow,
        Flow(vec![Value::InternalFlow(vec![
            name("x"),
            Value::Number(1),
            Value::Str(chars("s"))
        ])])
    );
}

#[test]
fn whitespace_is_insignificant() {
    let spaced = parse("~~~ 42 \"hi\" ! --- ").unwrap();
    let tabbed = parse("~~~\t\t42\n\"hi\"\r\n!\n--- ").unwrap();
    let tight = parse("~~~ 42 \"hi\" !--- ").unwrap();
    assert_eq!(spaced, tabbed);
    assert_eq!(spaced, tight);
}

#[test]
fn no_trailing_whitespace_needed() {
    let island = parse("~~~ x ---").unwrap();
    assert_eq!(island.sea_flow, Flow(vec![name("x")]));
}

#[test]
fn keyword_never_a_name() {
    // `nest` spells a keyword, so it cannot stand where a name would.
    match parse("~~~ nest --- ") {
        Err(ParseError::Unexpected { got, .. }) => assert_eq!(got, TokenType::NEST),
        other => panic!("expected a grammar violation, got {:?}", other),
    }
    // One more character makes it an ordinary name again.
    let island = parse("~~~ nest' --- ").unwrap();
    assert_eq!(island.sea_flow, Flow(vec![name("nest'")]));
}

#[test]
fn shoreline_keyword_inside_flow_rejected() {
    match parse("~~~ ~~~ --- ") {
        Err(ParseError::Unexpected { got, .. }) => assert_eq!(got, TokenType::SHORELINE),
        other => panic!("expected a grammar violation, got {:?}", other),
    }
}

#[test]
fn second_nest_rejected() {
    match parse("nest of Green turtles ( a ) nest of Green turtles ( b ) ~~~ --- ") {
        Err(ParseError::Unexpected { expected, got }) => {
            assert_eq!(got, TokenType::NEST);
            assert_eq!(expected, vec![TokenType::SHORELINE]);
        }
        other => panic!("expected a grammar violation, got {:?}", other),
    }
}

#[test]
fn largest_number_parses() {
    let island = parse("~~~ 2147483647 --- ").unwrap();
    assert_eq!(island.sea_flow, Flow(vec![Value::Number(2147483647)]));
}

#[test]
fn number_overflow_is_lexical_error() {
    match parse("~~~ 2147483648 --- ") {
        Err(ParseError::Lexical(LexError::NumberOverflow)) => {}
        other => panic!("expected an overflow error, got {:?}", other),
    }
}

#[test]
fn leading_zeros_are_plain_digits() {
    let island = parse("~~~ 007 --- ").unwrap();
    assert_eq!(island.sea_flow, Flow(vec![Value::Number(7)]));
}

#[test]
fn unexpected_character_is_lexical_error() {
    match parse("~~~ # --- ") {
        Err(ParseError::Lexical(LexError::BadChar(c))) => assert_eq!(c, '#'),
        other => panic!("expected a bad-character error, got {:?}", other),
    }
}

#[test]
fn unterminated_string_is_lexical_error() {
    match parse("~~~ \"abc") {
        Err(ParseError::Lexical(LexError::UnterminatedStr)) => {}
        other => panic!("expected an unterminated-string error, got {:?}", other),
    }
}

#[test]
fn string_payload_is_verbatim() {
    let island = parse("~~~ \"a b\nc\" --- ").unwrap();
    assert_eq!(island.sea_flow, Flow(vec![Value::Str(chars("a b\nc"))]));
}

#[test]
fn empty_string_literal() {
    let island = parse("~~~ \"\" --- ").unwrap();
    assert_eq!(island.sea_flow, Flow(vec![Value::Str(Vec::new())]));
}

#[test]
fn punctuation_names() {
    let island = parse("~~~ a'b @$% <=> --- ").unwrap();
    assert_eq!(
        island.sea_flow,
        Flow(vec![name("a'b"), name("@$%"), name("<=>")])
    );
}

#[test]
fn missing_closing_brace_rejected() {
    match parse("~~~ { x --- ") {
        Err(ParseError::Unexpected { got, .. }) => assert_eq!(got, TokenType::HORIZON),
        other => panic!("expected a grammar violation, got {:?}", other),
    }
}

#[test]
fn nest_with_wrong_species_rejected() {
    match parse("nest of turtles ~~~ --- ") {
        Err(ParseError::Unexpected { expected, got }) => {
            assert_eq!(expected, vec![TokenType::GREEN]);
            assert_eq!(got, TokenType::TURTLES);
        }
        other => panic!("expected a grammar violation, got {:?}", other),
    }
}

#[test]
fn input_after_horizon_rejected() {
    match parse("~~~ --- x") {
        Err(ParseError::Unexpected { expected, got }) => {
            assert_eq!(expected, vec![TokenType::EOF]);
            assert_eq!(got, TokenType::NAME);
        }
        other => panic!("expected a grammar violation, got {:?}", other),
    }
}
