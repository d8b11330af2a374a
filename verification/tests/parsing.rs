use emailang::error::{SyntaxError, SyntaxErrorFactory, SyntaxErrorType};
use emailang::instruction::{CondBlock, Instruction};
use emailang::parser::parse;
use emailang::parser::symbolparser::{is_expression, parse_symbols, split_expression, split_semicolon};
use emailang::parser::textparser::parse_text;
use emailang::symbols::{OperatorType, Symbol, SymbolDef};
use emailang::types::Type;
use emailang::user::UserDef;

fn text(s: &str) -> Type {
    Type::Text(s.to_string())
}

fn deferred(i: Instruction) -> Type {
    Type::Expression(Box::new(i))
}

fn address(name: &str, server: &str) -> Type {
    Type::UserPath(Box::new(text(name)), Box::new(text(server)))
}

fn kind_of(code: &str) -> SyntaxErrorType {
    parse(code).unwrap_err().errortype
}

#[test]
fn parses_the_scenario_program() {
    let program = parse(
        "!<bob@srv>{\"hi\" {\"content\" > <alice@srv>;};}; !<alice@srv>{\"*\" {};}; \"hi\" > <bob@srv>;",
    )
    .unwrap();
    let reply = Instruction::MailTo(text("content"), address("alice", "srv"));
    assert_eq!(
        program,
        vec![
            Instruction::CreateUser(
                text("bob"),
                text("srv"),
                UserDef::create_def_internal(vec![("hi".to_string(), vec![reply])]),
            ),
            Instruction::CreateUser(
                text("alice"),
                text("srv"),
                UserDef::create_def_internal(vec![("*".to_string(), vec![])]),
            ),
            Instruction::MailTo(text("hi"), address("bob", "srv")),
        ]
    );
}

#[test]
fn empty_program_is_empty() {
    assert_eq!(parse(""), Ok(vec![]));
    assert_eq!(parse(";;"), Ok(vec![]));
}

#[test]
fn a_statement_needs_its_terminator() {
    assert_eq!(parse("!srv"), Err(SyntaxError::new(1, 4, SyntaxErrorType::ExpectedSemicolon)));
}

#[test]
fn defines_a_server() {
    assert_eq!(parse("!srv;"), Ok(vec![Instruction::CreateServer(text("srv"))]));
}

#[test]
fn a_definition_needs_a_name() {
    assert_eq!(parse("!;"), Err(SyntaxError::new(1, 1, SyntaxErrorType::BadDefinition(None))));
    assert_eq!(
        parse(" !(a, b);"),
        Err(SyntaxError::new(1, 2, SyntaxErrorType::BadDefinition(Some("tuple".to_string()))))
    );
    assert_eq!(
        parse("!(a + b);"),
        Ok(vec![Instruction::CreateServer(deferred(Instruction::Concatenate(text("a"), text("b"))))])
    );
}

#[test]
fn a_user_block_holds_patterns_with_blocks() {
    assert_eq!(kind_of("!<a@b> x;"), SyntaxErrorType::BadUserBlock);
    assert_eq!(kind_of("!<a@b> {x {};};"), SyntaxErrorType::BadUserBlock);
    assert_eq!(kind_of("!<a@b> {\"x\" y;};"), SyntaxErrorType::BadUserBlock);
    assert_eq!(kind_of("!<a@b> {\"x\" {} z;};"), SyntaxErrorType::BadUserBlock);
    assert_eq!(kind_of("!<a@b> {\"x\" {}};"), SyntaxErrorType::ExpectedSemicolon);
}

#[test]
fn assignment_splits_before_the_arrow_and_the_arrow_before_the_plus() {
    let program = parse("a = \"x\" + \"y\" > <u@s>;").unwrap();
    assert_eq!(
        program,
        vec![Instruction::Assign(
            text("a"),
            deferred(Instruction::MailTo(
                deferred(Instruction::Concatenate(text("x"), text("y"))),
                address("u", "s"),
            )),
        )]
    );
}

#[test]
fn equal_left_to_right_operators_split_at_the_first() {
    let program = parse("a + b + c;").unwrap();
    assert_eq!(
        program,
        vec![Instruction::Concatenate(
            text("a"),
            deferred(Instruction::Concatenate(text("b"), text("c"))),
        )]
    );
}

#[test]
fn equal_right_to_left_operators_split_at_the_last() {
    let program = parse("a[0][1];").unwrap();
    assert_eq!(
        program,
        vec![Instruction::Index(deferred(Instruction::Index(text("a"), text("0"))), text("1"))]
    );
}

#[test]
fn reads_the_environment() {
    assert_eq!(parse("@key;"), Ok(vec![Instruction::GetEnv(text("key"))]));
    assert_eq!(kind_of("a @key;"), SyntaxErrorType::BadExpression);
}

#[test]
fn parses_slices_with_missing_bounds() {
    assert_eq!(
        parse("a[1:];"),
        Ok(vec![Instruction::Slice(text("a"), Some(text("1")), None)])
    );
    assert_eq!(
        parse("a[:-1];"),
        Ok(vec![Instruction::Slice(text("a"), None, Some(text("-1")))])
    );
}

#[test]
fn parses_tuples() {
    let program = parse("(a, b) = (\"x\", @y, );").unwrap();
    assert_eq!(
        program,
        vec![Instruction::Assign(
            Type::Tuple(vec![text("a"), text("b")]),
            Type::Tuple(vec![text("x"), deferred(Instruction::GetEnv(text("y")))]),
        )]
    );
}

#[test]
fn parses_the_modifier_pipe() {
    assert_eq!(
        parse("a | (filter, \"x\");"),
        Ok(vec![Instruction::Modify(text("a"), Type::Tuple(vec![text("filter"), text("x")]))])
    );
}

#[test]
fn an_operand_must_be_one_value() {
    assert_eq!(parse("a b;"), Err(SyntaxError::new(1, 2, SyntaxErrorType::BadExpression)));
    assert_eq!(parse("a + ;"), Err(SyntaxError::new(1, 3, SyntaxErrorType::BadExpression)));
    assert_eq!(kind_of("a + b c;"), SyntaxErrorType::BadExpression);
    assert_eq!(kind_of("a = ();"), SyntaxErrorType::BadExpression);
}

#[test]
fn a_separator_is_no_value() {
    assert_eq!(kind_of("a + {};"), SyntaxErrorType::NotAType);
    assert_eq!(kind_of("!else;"), SyntaxErrorType::NotAType);
}

#[test]
fn parses_a_conditional_chain() {
    let program = parse("if (a) {!x;} elif (@b) {} else {!y;};").unwrap();
    assert_eq!(
        program,
        vec![Instruction::IfBlock(CondBlock {
            cond: Some(text("a")),
            block: vec![Instruction::CreateServer(text("x"))],
            elseblock: Some(Box::new(CondBlock {
                cond: Some(deferred(Instruction::GetEnv(text("b")))),
                block: vec![],
                elseblock: Some(Box::new(CondBlock {
                    cond: None,
                    block: vec![Instruction::CreateServer(text("y"))],
                    elseblock: None,
                })),
            })),
        })]
    );
}

#[test]
fn a_malformed_chain_is_reported_at_its_if() {
    assert_eq!(parse(" if;"), Err(SyntaxError::new(1, 4, SyntaxErrorType::MalformedIfStatement)));
    assert_eq!(kind_of("if {};"), SyntaxErrorType::MalformedIfStatement);
    assert_eq!(kind_of("if (a) b;"), SyntaxErrorType::MalformedIfStatement);
    assert_eq!(kind_of("if (a) {} else (b) {};"), SyntaxErrorType::MalformedIfStatement);
    assert_eq!(kind_of("if (a) {} if (b) {};"), SyntaxErrorType::MalformedIfStatement);
}

#[test]
fn the_first_error_wins() {
    assert_eq!(parse("a b; ^"), Err(SyntaxError::new(1, 6, SyntaxErrorType::UnexpectedSymbol('^'))));
    assert_eq!(kind_of("a b; c d;"), SyntaxErrorType::BadExpression);
    assert_eq!(parse("a b; c d;").unwrap_err().pos, Some((1, 2)));
}

#[test]
fn split_semicolon_cuts_at_each_terminator() {
    let symbols = parse_text("a b; ; c;").unwrap();
    let pieces = split_semicolon(&symbols).unwrap();
    let lengths: Vec<usize> = pieces.iter().map(|p| p.len()).collect();
    assert_eq!(lengths, vec![2, 0, 1, 0]);
    assert_eq!(split_semicolon(&[]), Ok(vec![]));
    let open = parse_text("a; b").unwrap();
    assert_eq!(
        split_semicolon(&open),
        Err(SyntaxError::new(1, 4, SyntaxErrorType::ExpectedSemicolon))
    );
}

#[test]
fn split_expression_finds_the_loosest_operator() {
    let symbols = parse_text("a + b = c + d").unwrap();
    assert!(is_expression(&symbols));
    let (pre, mid, post) = split_expression(&symbols, SyntaxErrorFactory::new_eof()).unwrap();
    assert_eq!(pre.len(), 3);
    assert_eq!(mid.symbol, Symbol::Assign);
    assert_eq!(post.len(), 3);
    let plain = parse_text("a b").unwrap();
    assert!(!is_expression(&plain));
    assert_eq!(
        split_expression(&plain, SyntaxErrorFactory::new(3, 4)),
        Err(SyntaxError::new(3, 4, SyntaxErrorType::BadExpression))
    );
}

#[test]
fn operators_have_their_ranks() {
    let rank = |s: Symbol| SymbolDef { errfactory: SyntaxErrorFactory::new_eof(), symbol: s }.get_operator();
    assert_eq!(rank(Symbol::Assign), OperatorType::LeftToRight(1002, true, true));
    assert_eq!(rank(Symbol::Arrow), OperatorType::LeftToRight(1001, true, true));
    assert_eq!(rank(Symbol::Addition), OperatorType::LeftToRight(1000, true, true));
    assert_eq!(rank(Symbol::Modifier), OperatorType::RightToLeft(3, true, true));
    assert_eq!(rank(Symbol::Slice(None, None)), OperatorType::RightToLeft(2, true, false));
    assert_eq!(rank(Symbol::Receive), OperatorType::LeftToRight(1, false, true));
    assert_eq!(rank(Symbol::Comma), OperatorType::Neither);
    assert!(OperatorType::LeftToRight(5, true, true).compare(4));
    assert!(!OperatorType::LeftToRight(5, true, true).compare(5));
    assert!(OperatorType::RightToLeft(5, true, true).compare(5));
    assert!(!OperatorType::Neither.compare(0));
    assert_eq!(OperatorType::RightToLeft(7, false, true).get(), 7);
    assert_eq!(OperatorType::Neither.get(), 0);
    assert!(!OperatorType::Neither.is_op());
    assert!(OperatorType::RightToLeft(7, false, true).postval());
    assert!(!OperatorType::RightToLeft(7, false, true).preval());
}

#[test]
fn commas_split_a_block() {
    let symbols = parse_text("(a b, , c)").unwrap();
    match &symbols[0].symbol {
        Symbol::Parenthesis(block) => {
            assert!(block.is_comma_delimited());
            let lengths: Vec<usize> = block.split_commas().iter().map(|p| p.len()).collect();
            assert_eq!(lengths, vec![2, 0, 1]);
        }
        other => panic!("{:?}", other),
    }
    assert_eq!(parse_symbols(&[]), Ok(vec![]));
}

#[test]
fn errors_are_reported_in_words() {
    assert_eq!(
        SyntaxError::new(12, 340, SyntaxErrorType::UnexpectedSymbol('^')).to_string(),
        "Syntax Error on line 12:340! Unexpected character '^'."
    );
    assert_eq!(
        SyntaxError::new_eof(SyntaxErrorType::BadExpression).to_string(),
        "Syntax Error at end of file! Bad expression."
    );
    assert_eq!(
        SyntaxError::new(1, 0, SyntaxErrorType::BadDefinition(Some("tuple".to_string()))).to_string(),
        "Syntax Error on line 1:0! Bad definition of type tuple, expected Userpath or servername."
    );
    assert_eq!(
        SyntaxErrorType::BadDefinition(None).to_string(),
        "Bad definition, expected Userpath or servername"
    );
    assert_eq!(SyntaxErrorType::ExpectedSemicolon.to_string(), "Expected semicolon");
    assert_eq!(SyntaxErrorType::MalformedUserpath.to_string(), "Malformed Userpath");
    assert_eq!(SyntaxErrorType::MalformedIfStatement.to_string(), "Malformed if statement");
    assert_eq!(SyntaxErrorType::NotAType.to_string(), "Not a type");
    assert_eq!(SyntaxErrorType::BadUserBlock.to_string(), "Bad user block");
    let factory = SyntaxErrorFactory::new(3, 4);
    assert_eq!(factory.gen_error(SyntaxErrorType::NotAType), SyntaxError::new(3, 4, SyntaxErrorType::NotAType));
    assert_eq!(SyntaxErrorFactory::from_symbols(&[]), SyntaxErrorFactory::new_eof());
}
