use emailang::error::{SyntaxError, SyntaxErrorType};
use emailang::parser::textparser::{
    codechars_find, codechars_to_string, codechars_trimmed, parse_text, take_until,
    take_until_matched, take_until_unescaped, CodeChar,
};
use emailang::symbols::{Block, Symbol, SymbolDef};

fn symbols_of(code: &str) -> Vec<Symbol> {
    plain(parse_text(code).unwrap())
}

fn plain(defs: Vec<SymbolDef>) -> Vec<Symbol> {
    defs.into_iter().map(|d: SymbolDef| d.symbol).collect()
}

fn chars(text: &str) -> Vec<CodeChar> {
    text.chars().map(|c| CodeChar { val: c, line: 1, column: 1 }).collect()
}

fn word(text: &str) -> Symbol {
    Symbol::Identifier(text.to_string())
}

fn inside(block: &Block) -> Vec<Symbol> {
    block.0.iter().map(|d| d.symbol.clone()).collect()
}

#[test]
fn lexes_operators_and_words() {
    assert_eq!(
        symbols_of("!srv; a = b + c | d > @e,"),
        vec![
            Symbol::Define,
            word("srv"),
            Symbol::Semicolon,
            word("a"),
            Symbol::Assign,
            word("b"),
            Symbol::Addition,
            word("c"),
            Symbol::Modifier,
            word("d"),
            Symbol::Arrow,
            Symbol::Receive,
            word("e"),
            Symbol::Comma,
        ]
    );
}

#[test]
fn keywords_are_whole_words_only() {
    assert_eq!(
        symbols_of("if elif else iffy"),
        vec![Symbol::If, Symbol::ElseIf, Symbol::Else, word("iffy")]
    );
}

#[test]
fn words_hold_dots_dashes_and_underscores() {
    assert_eq!(symbols_of("std.com a_b -3"), vec![word("std.com"), word("a_b"), word("-3")]);
}

#[test]
fn a_comment_runs_to_the_end_of_the_line() {
    assert_eq!(symbols_of("a # b c\n;"), vec![word("a"), Symbol::Semicolon]);
}

#[test]
fn a_string_keeps_its_escapes() {
    assert_eq!(symbols_of("\"a\\\"b\" c"), vec![Symbol::Text("a\\\"b".to_string()), word("c")]);
}

#[test]
fn braces_nest() {
    let got = symbols_of("{a {b;} c}");
    assert_eq!(got.len(), 1);
    match &got[0] {
        Symbol::CurlyBraced(block) => {
            let parts = inside(block);
            assert_eq!(parts.len(), 3);
            assert_eq!(parts[0], word("a"));
            match &parts[1] {
                Symbol::CurlyBraced(inner) => {
                    assert_eq!(inside(inner), vec![word("b"), Symbol::Semicolon])
                }
                other => panic!("{:?}", other),
            }
            assert_eq!(parts[2], word("c"));
        }
        other => panic!("{:?}", other),
    }
}

#[test]
fn an_address_is_cut_at_its_first_at_sign() {
    let got = symbols_of("<bob@srv>");
    match &got[0] {
        Symbol::UserPath(name, server) => {
            assert_eq!(inside(name), vec![word("bob")]);
            assert_eq!(inside(server), vec![word("srv")]);
        }
        other => panic!("{:?}", other),
    }
}

#[test]
fn an_address_without_at_sign_is_malformed() {
    assert_eq!(parse_text("  <bob>"), Err(SyntaxError::new(1, 3, SyntaxErrorType::MalformedUserpath)));
}

#[test]
fn brackets_give_an_index_or_a_slice() {
    let got = symbols_of("[1] [2:] [:3] [a:b] [ : ]");
    match &got[0] {
        Symbol::Index(block) => assert_eq!(inside(block), vec![word("1")]),
        other => panic!("{:?}", other),
    }
    match &got[1] {
        Symbol::Slice(Some(a), None) => assert_eq!(inside(a), vec![word("2")]),
        other => panic!("{:?}", other),
    }
    match &got[2] {
        Symbol::Slice(None, Some(b)) => assert_eq!(inside(b), vec![word("3")]),
        other => panic!("{:?}", other),
    }
    match &got[3] {
        Symbol::Slice(Some(a), Some(b)) => {
            assert_eq!(inside(a), vec![word("a")]);
            assert_eq!(inside(b), vec![word("b")]);
        }
        other => panic!("{:?}", other),
    }
    assert_eq!(got[4], Symbol::Slice(None, None));
}

#[test]
fn brackets_balance() {
    let got = symbols_of("a[b[0]]");
    assert_eq!(got.len(), 2);
    match &got[1] {
        Symbol::Index(block) => assert_eq!(inside(block).len(), 2),
        other => panic!("{:?}", other),
    }
}

#[test]
fn an_unknown_character_is_reported_where_it_stands() {
    assert_eq!(
        parse_text("a;\n b ^"),
        Err(SyntaxError::new(2, 5, SyntaxErrorType::UnexpectedSymbol('^')))
    );
    assert_eq!(parse_text("}"), Err(SyntaxError::new(1, 1, SyntaxErrorType::UnexpectedSymbol('}'))));
}

#[test]
fn tokens_carry_line_and_column() {
    let got = parse_text("a;\nbc d").unwrap();
    let places: Vec<Option<(usize, usize)>> = got.iter().map(|d| d.errfactory.pos).collect();
    // a word is placed at the character that ends it
    assert_eq!(places, vec![Some((1, 2)), Some((1, 2)), Some((2, 4)), Some((2, 5))]);
}

#[test]
fn unterminated_string_is_reported_at_end_of_input() {
    assert_eq!(parse_text("x = \"abc"), Err(SyntaxError::new_eof(SyntaxErrorType::BadExpression)));
    assert_eq!(parse_text("\"abc\\\""), Err(SyntaxError::new_eof(SyntaxErrorType::BadExpression)));
}

#[test]
fn unbalanced_brace_is_reported_at_end_of_input() {
    assert_eq!(parse_text("!a; { b; { c; }"), Err(SyntaxError::new_eof(SyntaxErrorType::BadExpression)));
    assert_eq!(parse_text("(a, b"), Err(SyntaxError::new_eof(SyntaxErrorType::BadExpression)));
    assert_eq!(parse_text("a[1"), Err(SyntaxError::new_eof(SyntaxErrorType::BadExpression)));
}

#[test]
fn empty_text_has_no_tokens() {
    assert_eq!(parse_text(""), Ok(vec![]));
    assert_eq!(parse_text("  \n\t"), Ok(vec![]));
}

#[test]
fn take_until_stops_behind_the_character() {
    let code = chars("ab>cd");
    let mut pos = 0;
    assert_eq!(codechars_to_string(&take_until(&code, &mut pos, '>')), "ab");
    assert_eq!(pos, 3);
    assert_eq!(codechars_to_string(&take_until(&code, &mut pos, '>')), "cd");
    assert_eq!(pos, 5);
}

#[test]
fn take_until_unescaped_skips_escaped_characters() {
    let code = chars("a\\\"b\\\\\"c");
    let mut pos = 0;
    assert_eq!(codechars_to_string(&take_until_unescaped(&code, &mut pos, '"')), "a\\\"b\\\\");
    assert_eq!(pos, 7);
}

#[test]
fn take_until_matched_counts_levels() {
    let code = chars("a{b}c}d");
    let mut pos = 0;
    assert_eq!(codechars_to_string(&take_until_matched(&code, &mut pos, '{', '}', 0)), "a{b}c");
    assert_eq!(pos, 6);
}

#[test]
fn codechars_helpers() {
    let code = chars("  a:b \n");
    assert_eq!(codechars_find(&code, ':'), Some(3));
    assert_eq!(codechars_find(&code, '!'), None);
    assert_eq!(codechars_trimmed(&code), "a:b");
    assert_eq!(codechars_trimmed(&chars(" \t ")), "");
}

fn without_places(defs: &[SymbolDef]) -> Vec<SymbolDef> {
    let eof = emailang::error::SyntaxErrorFactory::new_eof();
    let block = |b: &Block| Block(without_places(&b.0));
    defs.iter()
        .map(|d| SymbolDef {
            errfactory: eof,
            symbol: match &d.symbol {
                Symbol::CurlyBraced(b) => Symbol::CurlyBraced(block(b)),
                Symbol::Parenthesis(b) => Symbol::Parenthesis(block(b)),
                Symbol::Index(b) => Symbol::Index(block(b)),
                Symbol::UserPath(a, b) => Symbol::UserPath(block(a), block(b)),
                Symbol::Slice(a, b) => Symbol::Slice(a.as_ref().map(block), b.as_ref().map(block)),
                other => other.clone(),
            },
        })
        .collect()
}

fn survives(code: &str) -> bool {
    let first = parse_text(code).unwrap();
    let source = emailang::parser::textparser::unparse(&first);
    match parse_text(&source) {
        Ok(second) => without_places(&first) == without_places(&second),
        Err(_) => false,
    }
}

#[test]
fn unparse_writes_each_token_with_a_blank() {
    let tokens = parse_text("!<bob@srv>{\"hi\" {a[1:] = b[2] | c,d;};};#x\nif(x){}else{};").unwrap();
    assert_eq!(
        emailang::parser::textparser::unparse(&tokens),
        "! <bob @srv > {\"hi\" {a [1 :] = b [2 ] | c , d ; } ; } ; if (x ) {} else {} ; "
    );
}

#[test]
fn reading_what_was_written_gives_the_same_tree() {
    assert!(survives(""));
    assert!(survives("a b  c"));
    assert!(survives("!srv; a = b + c | d > @e, if elif else"));
    assert!(survives("\"a b\" \"\" \"x\\\"y\\\\\" \"# no comment\""));
    assert!(survives("{a {b; (c, d)} } (()) # gone\n x"));
    assert!(survives("a[1] b[2:3] c[:] d[ : -1] e[f[0]] g[h:i[1:2]]"));
    assert!(survives("<bob@srv> <(a + b)@{c}> <a@@b>"));
    assert!(survives(
        "!<bob@srv>{\"hi\" {\"content\" > <alice@srv>;};}; !<alice@srv>{\"*\" {};}; \"hi\" > <bob@srv>;"
    ));
}

#[test]
fn a_string_that_closes_a_bracket_does_not_survive() {
    assert!(!survives("( # (\n \")\" )"));
}

#[test]
fn whitespace_is_what_ends_a_word() {
    let listed = |c: char| {
        ('\u{9}'..='\u{d}').contains(&c)
            || c == ' '
            || c == '\u{85}'
            || c == '\u{a0}'
            || c == '\u{1680}'
            || ('\u{2000}'..='\u{200a}').contains(&c)
            || c == '\u{2028}'
            || c == '\u{2029}'
            || c == '\u{202f}'
            || c == '\u{205f}'
            || c == '\u{3000}'
    };
    for c in '\0'..=char::MAX {
        assert_eq!(c.is_whitespace(), listed(c), "{:?}", c);
    }
    assert_eq!(symbols_of("a\u{a0}b\u{3000}c\td"), vec![word("a"), word("b"), word("c"), word("d")]);
    assert_eq!(symbols_of("h\u{e9}llo \u{4e16}\u{754c}"), vec![word("h\u{e9}llo"), word("\u{4e16}\u{754c}")]);
}
