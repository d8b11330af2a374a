use vstd::prelude::*;
use crate::error::{error_at, lemma_prepend_nothing, lemma_prepend_twice, prepend, SyntaxError, SyntaxErrorFactory, SyntaxErrorKind, SyntaxErrorType, SyntaxErrorView};
use crate::instruction::{instructions_view, lemma_block_model, CondBlock, CondBlockView, Instruction, InstructionView};
use crate::symbols::{
    lemma_block_view,
    operator_of,
    pieces_view,
    split_on,
    split_symbols,
    symbols_view,
    Block,
    OperatorType,
    Symbol,
    SymbolDef,
    SymbolDefView,
    SymbolView,
};
use crate::types::{lemma_tuple_view, types_view, Type, TypeView};
use crate::user::{matchers_view, UserDef, UserDefView};

verus! {

/// What parsing a value gives.
pub type ValueResult = Result<TypeView, SyntaxErrorView>;

/// What parsing one instruction gives.
pub type InstructionResult = Result<InstructionView, SyntaxErrorView>;

/// What parsing a block gives.
pub type BlockResult = Result<Seq<InstructionView>, SyntaxErrorView>;

/// The place of the first token, or the end of the input for an empty run.
pub open spec fn first_pos(tokens: Seq<SymbolDefView>) -> Option<(usize, usize)> {
    if tokens.len() == 0 {
        None
    } else {
        tokens[0].pos
    }
}

/// Whether some token of the run is an operator.
pub open spec fn has_operator(tokens: Seq<SymbolDefView>) -> bool {
    exists|j: int| 0 <= j < tokens.len() && !(#[trigger] operator_of(tokens[j].symbol) is Neither)
}

/// The best operator among the first `i` tokens, as its index and rank:
/// scanning from the left, an operator replaces the best so far when it
/// beats the rank of that one. Without an operator the index is the length
/// of the run and the rank 0.
pub open spec fn best_operator(tokens: Seq<SymbolDefView>, i: int) -> (int, usize)
    decreases i,
{
    if i <= 0 || i > tokens.len() {
        (tokens.len() as int, 0)
    } else {
        let before = best_operator(tokens, i - 1);
        let op = operator_of(tokens[i - 1].symbol);
        if op.beats(before.1) {
            (i - 1, op.rank())
        } else {
            before
        }
    }
}

/// The index at which an expression is split: that of its loosest-binding
/// operator, or the length of the run when it holds no operator.
pub open spec fn split_point(tokens: Seq<SymbolDefView>) -> int {
    best_operator(tokens, tokens.len() as int).0
}

pub proof fn lemma_best_operator(tokens: Seq<SymbolDefView>, i: int)
    requires
        0 <= i <= tokens.len(),
    ensures
        0 <= best_operator(tokens, i).0 < i || best_operator(tokens, i).0 == tokens.len(),
        best_operator(tokens, i).0 < i ==> !(operator_of(
            tokens[best_operator(tokens, i).0].symbol,
        ) is Neither) && operator_of(tokens[best_operator(tokens, i).0].symbol).rank()
            == best_operator(tokens, i).1,
        best_operator(tokens, i).0 == tokens.len() ==> best_operator(tokens, i).1 == 0,
        forall|j: int| 0 <= j < i ==> operator_of(#[trigger] tokens[j].symbol).rank()
            <= best_operator(tokens, i).1,
        best_operator(tokens, i).0 == tokens.len() ==> forall|j: int|
            0 <= j < i ==> operator_of(#[trigger] tokens[j].symbol) is Neither,
    decreases i,
{
    if i > 0 {
        lemma_best_operator(tokens, i - 1);
    }
}

/// Whether the token at `pos` is the loosest-binding operator of the first
/// `i` tokens: none of them has a higher rank, and of those with the same
/// rank it is the first where the operator is left-to-right, and the last
/// where it is right-to-left.
pub open spec fn is_loosest(tokens: Seq<SymbolDefView>, pos: int, i: int) -> bool {
    let op = operator_of(tokens[pos].symbol);
    &&& 0 <= pos < i
    &&& !(op is Neither)
    &&& forall|j: int| 0 <= j < i ==> operator_of(#[trigger] tokens[j].symbol).rank() <= op.rank()
    &&& op is LeftToRight ==> forall|j: int|
        0 <= j < pos ==> operator_of(#[trigger] tokens[j].symbol).rank() < op.rank()
    &&& op is RightToLeft ==> forall|j: int|
        pos < j < i ==> operator_of(#[trigger] tokens[j].symbol).rank() < op.rank()
}

/// The operator that the scan settles on is the loosest-binding one, and
/// the scan finds one wherever there is one.
pub proof fn lemma_split_point_is_loosest(tokens: Seq<SymbolDefView>, i: int)
    requires
        0 <= i <= tokens.len(),
    ensures
        best_operator(tokens, i).0 < i ==> is_loosest(tokens, best_operator(tokens, i).0, i)
            && best_operator(tokens, i).1 == operator_of(
            tokens[best_operator(tokens, i).0].symbol,
        ).rank(),
        best_operator(tokens, i).0 >= i ==> best_operator(tokens, i) == (tokens.len() as int, 0usize)
            && forall|j: int| 0 <= j < i ==> operator_of(#[trigger] tokens[j].symbol) is Neither,
    decreases i,
{
    if i > 0 {
        lemma_split_point_is_loosest(tokens, i - 1);
        lemma_best_operator(tokens, i - 1);
        let before = best_operator(tokens, i - 1);
        let op = operator_of(tokens[i - 1].symbol);
        if before.0 < i - 1 {
            let best = operator_of(tokens[before.0].symbol);
            assert(op.rank() == best.rank() ==> (op is LeftToRight) == (best is LeftToRight));
        }
    }
}

/// The first index at or after `from` whose token is `separator`, or the
/// length of the run when there is none.
pub open spec fn next_separator(tokens: Seq<SymbolDefView>, from: int, separator: SymbolView) -> int
    decreases tokens.len() - from,
{
    if from < 0 || from >= tokens.len() {
        tokens.len() as int
    } else if tokens[from].symbol == separator {
        from
    } else {
        next_separator(tokens, from + 1, separator)
    }
}

pub proof fn lemma_next_separator(tokens: Seq<SymbolDefView>, from: int, separator: SymbolView)
    requires
        0 <= from <= tokens.len(),
    ensures
        from <= next_separator(tokens, from, separator) <= tokens.len(),
        next_separator(tokens, from, separator) < tokens.len() ==> tokens[next_separator(
            tokens,
            from,
            separator,
        )].symbol == separator,
    decreases tokens.len() - from,
{
    if from < tokens.len() && tokens[from].symbol != separator {
        lemma_next_separator(tokens, from + 1, separator);
    }
}

/// Whether the token is one of the keywords of a conditional chain.
pub open spec fn is_branch_keyword(symbol: SymbolView) -> bool {
    symbol is If || symbol is ElseIf || symbol is Else
}

/// The first index at or after `from` whose token is a keyword of a
/// conditional chain, or the length of the run when there is none.
pub open spec fn next_branch(tokens: Seq<SymbolDefView>, from: int) -> int
    decreases tokens.len() - from,
{
    if from < 0 || from >= tokens.len() {
        tokens.len() as int
    } else if is_branch_keyword(tokens[from].symbol) {
        from
    } else {
        next_branch(tokens, from + 1)
    }
}

pub proof fn lemma_next_branch(tokens: Seq<SymbolDefView>, from: int)
    requires
        0 <= from <= tokens.len(),
    ensures
        from <= next_branch(tokens, from) <= tokens.len(),
    decreases tokens.len() - from,
{
    if from < tokens.len() && !is_branch_keyword(tokens[from].symbol) {
        lemma_next_branch(tokens, from + 1);
    }
}

/// The run from `from` to `to`; the run itself where that is all of it.
pub open spec fn piece(tokens: Seq<SymbolDefView>, from: int, to: int) -> Seq<SymbolDefView> {
    if from == 0 && to == tokens.len() {
        tokens
    } else {
        tokens.subrange(from, to)
    }
}

/// The instruction that an operator makes of the values on its two sides.
///
/// An operator that wants a value on a side is refused when that side is
/// null, and one that wants none is refused when it is not.
pub open spec fn parse_operation(
    tokens: Seq<SymbolDefView>,
    at: Option<(usize, usize)>,
) -> InstructionResult
    decreases tokens, 0nat, 0nat,
{
    let pos = split_point(tokens);
    proof {
        lemma_best_operator(tokens, tokens.len() as int);
    }
    if pos < 0 || pos >= tokens.len() {
        Err(error_at(at, SyntaxErrorKind::BadExpression))
    } else {
        let mid = tokens[pos];
        let op = operator_of(mid.symbol);
        match parse_value(tokens.subrange(0, pos)) {
            Err(e) => Err(e),
            Ok(pre) => match parse_value(tokens.subrange(pos + 1, tokens.len() as int)) {
                Err(e) => Err(e),
                Ok(post) => if (pre is Null) == op.wants_left() || (post is Null)
                    == op.wants_right() {
                    Err(error_at(mid.pos, SyntaxErrorKind::BadExpression))
                } else {
                    match mid.symbol {
                        SymbolView::Arrow => Ok(InstructionView::MailTo(pre, post)),
                        SymbolView::Addition => Ok(InstructionView::Concatenate(pre, post)),
                        SymbolView::Assign => Ok(InstructionView::Assign(pre, post)),
                        SymbolView::Modifier => Ok(InstructionView::Modify(pre, post)),
                        SymbolView::Receive => Ok(InstructionView::GetEnv(post)),
                        SymbolView::Index(inside) => match parse_value(inside) {
                            Err(e) => Err(e),
                            Ok(index) => Ok(InstructionView::Index(pre, index)),
                        },
                        SymbolView::Slice(first, second) => match parse_bound(first) {
                            Err(e) => Err(e),
                            Ok(start) => match parse_bound(second) {
                                Err(e) => Err(e),
                                Ok(end) => Ok(InstructionView::Slice(pre, start, end)),
                            },
                        },
                        _ => Err(error_at(first_pos(tokens), SyntaxErrorKind::BadExpression)),
                    }
                },
            },
        }
    }
}

/// The value of one bound of a slice, where there is one.
pub open spec fn parse_bound(bound: Option<Seq<SymbolDefView>>) -> Result<
    Option<TypeView>,
    SyntaxErrorView,
>
    decreases bound, 0nat, 0nat,
{
    match bound {
        None => Ok(None),
        Some(tokens) => match parse_value(tokens) {
            Err(e) => Err(e),
            Ok(value) => Ok(Some(value)),
        },
    }
}

/// The value that a run of tokens stands for: a deferred expression where
/// the run holds an operator, the value of the token where it is a single
/// one, and null where it is empty. Several tokens without an operator are
/// no value.
pub open spec fn parse_value(tokens: Seq<SymbolDefView>) -> ValueResult
    decreases tokens, 1nat, 0nat,
{
    if has_operator(tokens) {
        match parse_operation(tokens, first_pos(tokens)) {
            Err(e) => Err(e),
            Ok(instruction) => Ok(TypeView::Expression(Box::new(instruction))),
        }
    } else if tokens.len() == 1 {
        token_value(tokens[0])
    } else if tokens.len() == 0 {
        Ok(TypeView::Null)
    } else {
        Err(error_at(first_pos(tokens), SyntaxErrorKind::BadExpression))
    }
}

/// The value that a single token stands for. Text and identifiers are
/// text; an address holds the values of its two halves; parentheses hold a
/// tuple where they hold a comma, and else the one value inside them.
pub open spec fn token_value(token: SymbolDefView) -> ValueResult
    decreases token, 0nat, 0nat,
{
    match token.symbol {
        SymbolView::Text(text) => Ok(TypeView::Text(text)),
        SymbolView::Identifier(text) => Ok(TypeView::Text(text)),
        SymbolView::UserPath(name, server) => match parse_value(name) {
            Err(e) => Err(e),
            Ok(a) => match parse_value(server) {
                Err(e) => Err(e),
                Ok(b) => Ok(TypeView::UserPath(Box::new(a), Box::new(b))),
            },
        },
        SymbolView::Parenthesis(inside) => if crate::symbols::has_comma(inside) {
            match tuple_items(inside, 0) {
                Err(e) => Err(e),
                Ok(items) => Ok(TypeView::Tuple(items)),
            }
        } else if has_operator(inside) {
            match parse_operation(inside, first_pos(inside)) {
                Err(e) => Err(e),
                Ok(instruction) => Ok(TypeView::Expression(Box::new(instruction))),
            }
        } else if inside.len() == 1 {
            token_value(inside[0])
        } else {
            Err(error_at(token.pos, SyntaxErrorKind::BadExpression))
        },
        _ => Err(error_at(token.pos, SyntaxErrorKind::NotAType)),
    }
}

/// The values of the tokens from `from` to `to`, one for each token.
pub open spec fn each_value(tokens: Seq<SymbolDefView>, from: int, to: int) -> Result<
    Seq<TypeView>,
    SyntaxErrorView,
>
    decreases tokens, 2nat, to - from,
{
    if from < 0 || from >= to || to > tokens.len() {
        Ok(Seq::empty())
    } else {
        match token_value(tokens[from]) {
            Err(e) => Err(e),
            Ok(value) => match each_value(tokens, from + 1, to) {
                Err(e) => Err(e),
                Ok(more) => Ok(seq![value] + more),
            },
        }
    }
}

/// The items of a tuple, read from index `from` on. Each piece between two
/// commas gives one deferred expression where it holds an operator, and
/// else one item for each of its tokens.
pub open spec fn tuple_items(tokens: Seq<SymbolDefView>, from: int) -> Result<
    Seq<TypeView>,
    SyntaxErrorView,
>
    decreases tokens, 3nat, tokens.len() - from,
{
    if from < 0 || from > tokens.len() {
        Ok(Seq::empty())
    } else {
        let to = next_separator(tokens, from, SymbolView::Comma);
        proof {
            lemma_next_separator(tokens, from, SymbolView::Comma);
        }
        let part = piece(tokens, from, to);
        let items = if has_operator(part) {
            match parse_operation(part, first_pos(part)) {
                Err(e) => Err(e),
                Ok(instruction) => Ok(seq![TypeView::Expression(Box::new(instruction))]),
            }
        } else {
            each_value(tokens, from, to)
        };
        match items {
            Err(e) => Err(e),
            Ok(found) => if to >= tokens.len() {
                Ok(found)
            } else {
                match tuple_items(tokens, to + 1) {
                    Err(e) => Err(e),
                    Ok(more) => Ok(found + more),
                }
            },
        }
    }
}

/// The conditional chain whose first link starts with the keyword at
/// `from`. A link is `if` or `elif`, a condition and a braced block, or
/// `else` and a braced block; `first` says whether this is the first link.
pub open spec fn conditional(tokens: Seq<SymbolDefView>, from: int, first: bool) -> Result<
    CondBlockView,
    SyntaxErrorView,
>
    decreases tokens, 3nat, tokens.len() - from,
{
    let malformed = Err(error_at(first_pos(tokens), SyntaxErrorKind::MalformedIfStatement));
    if from < 0 || from >= tokens.len() {
        malformed
    } else {
        let end = next_branch(tokens, from + 1);
        proof {
            lemma_next_branch(tokens, from + 1);
        }
        let keyword = tokens[from].symbol;
        let last = tokens[end - 1];
        if !(last.symbol is CurlyBraced) || (keyword is If) != first || !is_branch_keyword(
            keyword,
        ) {
            malformed
        } else if keyword is Else && end - from != 2 {
            malformed
        } else if !(keyword is Else) && end - from < 3 {
            malformed
        } else {
            let cond = if keyword is Else {
                Ok(None)
            } else {
                match parse_value(tokens.subrange(from + 1, end - 1)) {
                    Err(e) => Err(e),
                    Ok(value) => Ok(Some(value)),
                }
            };
            match cond {
                Err(e) => Err(e),
                Ok(cond) => match parse_program(last.symbol->CurlyBraced_0) {
                    Err(e) => Err(e),
                    Ok(block) => if end >= tokens.len() {
                        Ok(CondBlockView { cond, block, elseblock: None })
                    } else {
                        match conditional(tokens, end, false) {
                            Err(e) => Err(e),
                            Ok(rest) => Ok(
                                CondBlockView { cond, block, elseblock: Some(Box::new(rest)) },
                            ),
                        }
                    },
                },
            }
        }
    }
}

/// The reactions of a user, read from index `from` on: each statement is
/// a quoted pattern and a braced block.
pub open spec fn reactions_from(tokens: Seq<SymbolDefView>, from: int) -> Result<
    Seq<(Seq<char>, Seq<InstructionView>)>,
    SyntaxErrorView,
>
    decreases tokens, 5nat, tokens.len() - from,
{
    if from < 0 || from >= tokens.len() {
        Ok(Seq::empty())
    } else {
        let to = next_separator(tokens, from, SymbolView::Semicolon);
        proof {
            lemma_next_separator(tokens, from, SymbolView::Semicolon);
        }
        let bad = Err(error_at(first_pos(tokens), SyntaxErrorKind::BadUserBlock));
        if to >= tokens.len() {
            Ok(Seq::empty())
        } else if to == from {
            reactions_from(tokens, to + 1)
        } else if to - from != 2 {
            bad
        } else {
            match (tokens[from].symbol, tokens[from + 1].symbol) {
                (SymbolView::Text(pattern), SymbolView::CurlyBraced(inside)) => match parse_program(
                    inside,
                ) {
                    Err(e) => Err(e),
                    Ok(block) => match reactions_from(tokens, to + 1) {
                        Err(e) => Err(e),
                        Ok(more) => Ok(seq![(pattern, block)] + more),
                    },
                },
                _ => bad,
            }
        }
    }
}

/// The reactions that the inside of a user's block stands for.
pub open spec fn reactions(tokens: Seq<SymbolDefView>) -> Result<
    Seq<(Seq<char>, Seq<InstructionView>)>,
    SyntaxErrorView,
>
    decreases tokens, 6nat, 0nat,
{
    if tokens.len() == 0 {
        Ok(Seq::empty())
    } else if !(tokens.last().symbol is Semicolon) {
        Err(error_at(tokens.last().pos, SyntaxErrorKind::ExpectedSemicolon))
    } else {
        reactions_from(tokens, 0)
    }
}

/// The instruction that one statement stands for. `!` defines a user when
/// an address follows it and a server otherwise, whose name is a value but
/// no tuple; `if` starts a conditional chain; everything else is an
/// expression.
pub open spec fn statement(tokens: Seq<SymbolDefView>) -> InstructionResult
    decreases tokens, 4nat, 0nat,
{
    if tokens.len() == 0 {
        Err(error_at(None, SyntaxErrorKind::BadExpression))
    } else if tokens[0].symbol is Define {
        if tokens.len() < 2 {
            Err(error_at(tokens[0].pos, SyntaxErrorKind::BadDefinition(None)))
        } else {
            match tokens[1].symbol {
                SymbolView::UserPath(name, server) => {
                    let bad = Err(error_at(tokens[2].pos, SyntaxErrorKind::BadUserBlock));
                    let found = if tokens.len() == 2 {
                        Ok(Seq::empty())
                    } else if tokens.len() == 3 {
                        match tokens[2].symbol {
                            SymbolView::CurlyBraced(inside) => reactions(inside),
                            _ => bad,
                        }
                    } else {
                        bad
                    };
                    match found {
                        Err(e) => Err(e),
                        Ok(matchers) => match parse_value(name) {
                            Err(e) => Err(e),
                            Ok(a) => match parse_value(server) {
                                Err(e) => Err(e),
                                Ok(b) => Ok(
                                    InstructionView::CreateUser(
                                        a,
                                        b,
                                        UserDefView::Internal(matchers),
                                    ),
                                ),
                            },
                        },
                    }
                },
                _ => match parse_value(tokens.subrange(1, tokens.len() as int)) {
                    Err(e) => Err(e),
                    Ok(name) => if name is Tuple {
                        Err(
                            error_at(
                                tokens[0].pos,
                                SyntaxErrorKind::BadDefinition(Some(crate::types::typename(name))),
                            ),
                        )
                    } else {
                        Ok(InstructionView::CreateServer(name))
                    },
                },
            }
        }
    } else if tokens[0].symbol is If {
        match conditional(tokens, 0, true) {
            Err(e) => Err(e),
            Ok(chain) => Ok(InstructionView::IfBlock(chain)),
        }
    } else {
        parse_operation(tokens, first_pos(tokens))
    }
}

/// The instructions of the statements from index `from` on. A statement
/// runs up to the next terminator; an empty one gives nothing.
pub open spec fn statements_from(tokens: Seq<SymbolDefView>, from: int) -> BlockResult
    decreases tokens, 5nat, tokens.len() - from,
{
    if from < 0 || from >= tokens.len() {
        Ok(Seq::empty())
    } else {
        let to = next_separator(tokens, from, SymbolView::Semicolon);
        proof {
            lemma_next_separator(tokens, from, SymbolView::Semicolon);
        }
        if to >= tokens.len() {
            Ok(Seq::empty())
        } else if to == from {
            statements_from(tokens, to + 1)
        } else {
            match statement(tokens.subrange(from, to)) {
                Err(e) => Err(e),
                Ok(instruction) => match statements_from(tokens, to + 1) {
                    Err(e) => Err(e),
                    Ok(more) => Ok(seq![instruction] + more),
                },
            }
        }
    }
}

/// The instructions that a block of tokens stands for, or the first error
/// met. An empty block is empty; any other must end with a terminator.
pub open spec fn parse_program(tokens: Seq<SymbolDefView>) -> BlockResult
    decreases tokens, 6nat, 0nat,
{
    if tokens.len() == 0 {
        Ok(Seq::empty())
    } else if !(tokens.last().symbol is Semicolon) {
        Err(error_at(tokens.last().pos, SyntaxErrorKind::ExpectedSemicolon))
    } else {
        statements_from(tokens, 0)
    }
}

/// The value of what parsing a value returns.
pub open spec fn parsed_value(r: Result<Type, SyntaxError>) -> ValueResult {
    match r {
        Ok(value) => Ok(value@),
        Err(e) => Err(e@),
    }
}

/// The value of what parsing one instruction returns.
pub open spec fn parsed_instruction(r: Result<Instruction, SyntaxError>) -> InstructionResult {
    match r {
        Ok(instruction) => Ok(instruction@),
        Err(e) => Err(e@),
    }
}

/// The value of what parsing a block returns.
pub open spec fn parsed_block(r: Result<Vec<Instruction>, SyntaxError>) -> BlockResult {
    match r {
        Ok(block) => Ok(instructions_view(block@)),
        Err(e) => Err(e@),
    }
}

pub proof fn lemma_view_subrange(symbols: Seq<SymbolDef>, from: int, to: int)
    requires
        0 <= from <= to <= symbols.len(),
    ensures
        symbols_view(symbols.subrange(from, to)) == symbols_view(symbols).subrange(from, to),
        from == 0 && to == symbols.len() ==> symbols_view(symbols.subrange(from, to))
            == symbols_view(symbols),
{
    assert(symbols_view(symbols.subrange(from, to)) =~= symbols_view(symbols).subrange(from, to));
    if from == 0 && to == symbols.len() {
        assert(symbols_view(symbols.subrange(from, to)) =~= symbols_view(symbols));
    }
}

/// Cuts a block into its statements. An empty block has none; any other
/// must end with a terminator, and then has one piece before each
/// terminator and an empty one behind the last.
pub fn split_semicolon(symbols: &[SymbolDef]) -> (r: Result<Vec<Vec<SymbolDef>>, SyntaxError>)
    ensures
        match r {
            Ok(pieces) => if symbols@.len() == 0 {
                pieces@.len() == 0
            } else {
                symbols_view(symbols@).last().symbol is Semicolon && pieces_view(pieces@)
                    == split_on(symbols_view(symbols@), SymbolView::Semicolon)
            },
            Err(e) => symbols@.len() > 0 && !(symbols_view(symbols@).last().symbol is Semicolon)
                && e@ == error_at(
                symbols_view(symbols@).last().pos,
                SyntaxErrorKind::ExpectedSemicolon,
            ),
        },
{
    if symbols.len() == 0 {
        return Ok(Vec::new());
    }
    let last = &symbols[symbols.len() - 1];
    if let Symbol::Semicolon = last.symbol {
    } else {
        return Err(last.errfactory.gen_error(SyntaxErrorType::ExpectedSemicolon));
    }
    Ok(split_symbols(symbols, false))
}

pub fn is_expression(symbols: &[SymbolDef]) -> (r: bool)
    ensures
        r == has_operator(symbols_view(symbols@)),
{
    let mut i: usize = 0;
    while i < symbols.len()
        invariant
            i <= symbols.len(),
            forall|j: int|
                0 <= j < i ==> #[trigger] operator_of(symbols_view(symbols@)[j].symbol) is Neither,
        decreases symbols.len() - i,
    {
        if symbols[i].get_operator().is_op() {
            assert(!(operator_of(symbols_view(symbols@)[i as int].symbol) is Neither));
            return true;
        }
        i += 1;
    }
    false
}

/// Cuts an expression at its loosest-binding operator into what stands
/// before it, the operator, and what stands behind it.
pub fn split_expression<'a>(symbols: &'a [SymbolDef], errfact: SyntaxErrorFactory) -> (r: Result<
    (&'a [SymbolDef], &'a SymbolDef, &'a [SymbolDef]),
    SyntaxError,
>)
    ensures
        match r {
            Ok((pre, mid, post)) => {
                let pos = split_point(symbols_view(symbols@));
                &&& 0 <= pos < symbols@.len()
                &&& pre@ == symbols@.subrange(0, pos)
                &&& *mid == symbols@[pos]
                &&& post@ == symbols@.subrange(pos + 1, symbols@.len() as int)
            },
            Err(e) => split_point(symbols_view(symbols@)) == symbols@.len() && e@ == error_at(
                errfact.pos,
                SyntaxErrorKind::BadExpression,
            ),
        },
{
    let ghost tokens = symbols_view(symbols@);
    let mut pos: usize = symbols.len();
    let mut p: usize = 0;
    let mut i: usize = 0;
    while i < symbols.len()
        invariant
            i <= symbols.len(),
            tokens == symbols_view(symbols@),
            best_operator(tokens, i as int) == (pos as int, p),
        decreases symbols.len() - i,
    {
        let op = symbols[i].get_operator();
        if op.compare(p) {
            pos = i;
            p = op.get();
        }
        i += 1;
    }
    proof {
        lemma_best_operator(tokens, tokens.len() as int);
    }
    if pos == symbols.len() {
        Err(errfact.gen_error(SyntaxErrorType::BadExpression))
    } else {
        Ok((&symbols[0..pos], &symbols[pos], &symbols[pos + 1..symbols.len()]))
    }
}

/// The first index at or after `from` that holds a comma (or, with
/// `commas` false, a terminator), or the length of the run.
pub fn find_separator(symbols: &[SymbolDef], from: usize, commas: bool) -> (r: usize)
    requires
        from <= symbols@.len(),
    ensures
        r == next_separator(
            symbols_view(symbols@),
            from as int,
            if commas {
                SymbolView::Comma
            } else {
                SymbolView::Semicolon
            },
        ),
        from <= r <= symbols@.len(),
{
    let ghost separator = if commas {
        SymbolView::Comma
    } else {
        SymbolView::Semicolon
    };
    let ghost tokens = symbols_view(symbols@);
    let mut i: usize = from;
    while i < symbols.len()
        invariant
            from <= i <= symbols.len(),
            tokens == symbols_view(symbols@),
            separator == (if commas {
                SymbolView::Comma
            } else {
                SymbolView::Semicolon
            }),
            next_separator(tokens, from as int, separator) == next_separator(
                tokens,
                i as int,
                separator,
            ),
        decreases symbols.len() - i,
    {
        let found = match symbols[i].symbol {
            Symbol::Comma => commas,
            Symbol::Semicolon => !commas,
            _ => false,
        };
        assert(found == (tokens[i as int].symbol == separator));
        if found {
            return i;
        }
        i += 1;
    }
    i
}

/// The first index at or after `from` that holds `if`, `elif` or `else`,
/// or the length of the run.
pub fn find_branch(symbols: &[SymbolDef], from: usize) -> (r: usize)
    requires
        from <= symbols@.len(),
    ensures
        r == next_branch(symbols_view(symbols@), from as int),
        from <= r <= symbols@.len(),
{
    let ghost tokens = symbols_view(symbols@);
    let mut i: usize = from;
    while i < symbols.len()
        invariant
            from <= i <= symbols.len(),
            tokens == symbols_view(symbols@),
            next_branch(tokens, from as int) == next_branch(tokens, i as int),
        decreases symbols.len() - i,
    {
        let found = match symbols[i].symbol {
            Symbol::If => true,
            Symbol::ElseIf => true,
            Symbol::Else => true,
            _ => false,
        };
        assert(found == is_branch_keyword(tokens[i as int].symbol));
        if found {
            return i;
        }
        i += 1;
    }
    i
}

/// The tokens of one bound of a slice, where there is one.
pub open spec fn bound_view(bound: Option<Block>) -> Option<Seq<SymbolDefView>> {
    match bound {
        Some(block) => Some(block@),
        None => None,
    }
}

/// The value of one bound of a slice, where there is one.
pub fn parse_slice_bound(bound: &Option<Block>) -> (r: Result<Option<Type>, SyntaxError>)
    ensures
        match r {
            Ok(value) => parse_bound(bound_view(*bound)) == Ok::<_, SyntaxErrorView>(
                crate::instruction::option_model(value),
            ),
            Err(e) => parse_bound(bound_view(*bound)) == Err::<Option<TypeView>, _>(e@),
        },
    decreases bound_view(*bound), 0nat, 0nat,
{
    match bound {
        None => Ok(None),
        Some(block) => {
            proof {
                lemma_block_view(block);
            }
            match parse_type(block.0.as_slice()) {
                Ok(value) => Ok(Some(value)),
                Err(e) => Err(e),
            }
        },
    }
}

pub fn parse_expression(symbols: &[SymbolDef], errfact: SyntaxErrorFactory) -> (r: Result<
    Instruction,
    SyntaxError,
>)
    ensures
        parsed_instruction(r) == parse_operation(symbols_view(symbols@), errfact.pos),
    decreases symbols_view(symbols@), 0nat, 0nat,
{
    let ghost tokens = symbols_view(symbols@);
    let (pre, mid, post) = match split_expression(symbols, errfact) {
        Ok(parts) => parts,
        Err(e) => {
            return Err(e);
        },
    };
    let ghost pos = split_point(tokens);
    proof {
        lemma_view_subrange(symbols@, 0, pos);
        lemma_view_subrange(symbols@, pos + 1, symbols@.len() as int);
        assert(mid@ == tokens[pos]);
    }
    let preval = match parse_type(pre) {
        Ok(value) => value,
        Err(e) => {
            return Err(e);
        },
    };
    let postval = match parse_type(post) {
        Ok(value) => value,
        Err(e) => {
            return Err(e);
        },
    };
    if preval.is_null() == mid.get_operator().preval() {
        return Err(mid.errfactory.gen_error(SyntaxErrorType::BadExpression));
    }
    if postval.is_null() == mid.get_operator().postval() {
        return Err(mid.errfactory.gen_error(SyntaxErrorType::BadExpression));
    }
    proof {
        assert(decreases_to!(tokens => tokens[pos]));
        assert(decreases_to!(tokens[pos] => tokens[pos].symbol));
    }
    match &mid.symbol {
        Symbol::Arrow => Ok(Instruction::MailTo(preval, postval)),
        Symbol::Addition => Ok(Instruction::Concatenate(preval, postval)),
        Symbol::Assign => Ok(Instruction::Assign(preval, postval)),
        Symbol::Modifier => Ok(Instruction::Modify(preval, postval)),
        Symbol::Receive => Ok(Instruction::GetEnv(postval)),
        Symbol::Index(inside) => {
            proof {
                lemma_block_view(inside);
                assert(decreases_to!(tokens[pos].symbol => tokens[pos].symbol->Index_0));
            }
            match parse_type(inside.0.as_slice()) {
                Ok(index) => Ok(Instruction::Index(preval, index)),
                Err(e) => Err(e),
            }
        },
        Symbol::Slice(first, second) => {
            proof {
                assert(decreases_to!(tokens[pos].symbol => tokens[pos].symbol->Slice_0));
                assert(decreases_to!(tokens[pos].symbol => tokens[pos].symbol->Slice_1));
                assert(tokens[pos].symbol->Slice_0 == bound_view(*first));
                assert(tokens[pos].symbol->Slice_1 == bound_view(*second));
            }
            let start = match parse_slice_bound(first) {
                Ok(value) => value,
                Err(e) => {
                    return Err(e);
                },
            };
            let end = match parse_slice_bound(second) {
                Ok(value) => value,
                Err(e) => {
                    return Err(e);
                },
            };
            Ok(Instruction::Slice(preval, start, end))
        },
        _ => Err(SyntaxErrorFactory::from_symbols(symbols).gen_error(SyntaxErrorType::BadExpression)),
    }
}

pub fn parse_type(symbols: &[SymbolDef]) -> (r: Result<Type, SyntaxError>)
    ensures
        parsed_value(r) == parse_value(symbols_view(symbols@)),
    decreases symbols_view(symbols@), 1nat, 0nat,
{
    if is_expression(symbols) {
        match parse_expression(symbols, SyntaxErrorFactory::from_symbols(symbols)) {
            Ok(instruction) => Ok(Type::Expression(Box::new(instruction))),
            Err(e) => Err(e),
        }
    } else if symbols.len() == 1 {
        proof {
            assert(decreases_to!(symbols_view(symbols@) => symbols_view(symbols@)[0]));
        }
        symbols[0].get_type()
    } else if symbols.len() == 0 {
        Ok(Type::Null)
    } else {
        Err(SyntaxErrorFactory::from_symbols(symbols).gen_error(SyntaxErrorType::BadExpression))
    }
}

/// The items of a tuple literal.
pub fn parse_tuple(symbols: &[SymbolDef]) -> (r: Result<Vec<Type>, SyntaxError>)
    ensures
        match r {
            Ok(items) => tuple_items(symbols_view(symbols@), 0) == Ok::<_, SyntaxErrorView>(
                types_view(items@),
            ),
            Err(e) => tuple_items(symbols_view(symbols@), 0) == Err::<Seq<TypeView>, _>(e@),
        },
    decreases symbols_view(symbols@), 3nat, symbols@.len() + 1,
{
    let ghost tokens = symbols_view(symbols@);
    let mut tuple: Vec<Type> = Vec::new();
    let mut from: usize = 0;
    proof {
        lemma_prepend_nothing(tuple_items(tokens, 0));
        assert(types_view(tuple@) =~= Seq::empty());
    }
    loop
        invariant
            from <= symbols.len(),
            tokens == symbols_view(symbols@),
            tuple_items(tokens, 0) == prepend(types_view(tuple@), tuple_items(tokens, from as int)),
        decreases symbols.len() - from,
    {
        let to = find_separator(symbols, from, true);
        let part = &symbols[from..to];
        let ghost before = types_view(tuple@);
        proof {
            lemma_view_subrange(symbols@, from as int, to as int);
            assert(symbols_view(part@) == piece(tokens, from as int, to as int));
        }
        if is_expression(part) {
            match parse_expression(part, SyntaxErrorFactory::from_symbols(part)) {
                Ok(instruction) => {
                    let item = Type::Expression(Box::new(instruction));
                    proof {
                        assert(types_view(tuple@.push(item)) =~= before + seq![item@]);
                    }
                    tuple.push(item);
                },
                Err(e) => {
                    return Err(e);
                },
            }
        } else {
            let mut i: usize = from;
            proof {
                lemma_prepend_nothing(each_value(tokens, from as int, to as int));
                assert(before + Seq::<TypeView>::empty() =~= before);
            }
            let ghost mut added: Seq<TypeView> = Seq::empty();
            while i < to
                invariant
                    from <= i <= to <= symbols.len(),
                    tokens == symbols_view(symbols@),
                    types_view(tuple@) == before + added,
                    each_value(tokens, from as int, to as int) == prepend(
                        added,
                        each_value(tokens, i as int, to as int),
                    ),
                    tuple_items(tokens, 0) == prepend(before, tuple_items(tokens, from as int)),
                    !has_operator(piece(tokens, from as int, to as int)),
                    to == next_separator(tokens, from as int, SymbolView::Comma),
                decreases to - i,
            {
                proof {
                    assert(decreases_to!(tokens => tokens[i as int]));
                }
                match symbols[i].get_type() {
                    Ok(value) => {
                        proof {
                            lemma_prepend_twice(
                                added,
                                seq![value@],
                                each_value(tokens, i + 1, to as int),
                            );
                            assert(types_view(tuple@.push(value)) =~= types_view(tuple@).push(
                                value@,
                            ));
                            assert((before + added).push(value@) =~= before + (added + seq![
                                value@,
                            ]));
                            added = added + seq![value@];
                        }
                        tuple.push(value);
                    },
                    Err(e) => {
                        return Err(e);
                    },
                }
                i += 1;
            }
            proof {
                assert(added + Seq::<TypeView>::empty() =~= added);
            }
        }
        if to >= symbols.len() {
            proof {
                assert(types_view(tuple@) + Seq::<TypeView>::empty() =~= types_view(tuple@));
            }
            return Ok(tuple);
        }
        proof {
            let found = if has_operator(piece(tokens, from as int, to as int)) {
                seq![types_view(tuple@).last()]
            } else {
                each_value(tokens, from as int, to as int)->Ok_0
            };
            assert(types_view(tuple@) =~= before + found);
            lemma_prepend_twice(before, found, tuple_items(tokens, to + 1));
        }
        from = to + 1;
    }
}

impl SymbolDef {
    /// The value that this token stands for.
    pub fn get_type(&self) -> (r: Result<Type, SyntaxError>)
        ensures
            parsed_value(r) == token_value(self@),
        decreases self@, 0nat, 0nat,
    {
        proof {
            assert(decreases_to!(self@ => self@.symbol));
        }
        match &self.symbol {
            Symbol::Text(val) => Ok(Type::Text(val.clone())),
            Symbol::Identifier(val) => Ok(Type::Text(val.clone())),
            Symbol::UserPath(a, b) => {
                proof {
                    lemma_block_view(a);
                    lemma_block_view(b);
                    assert(decreases_to!(self@.symbol => self@.symbol->UserPath_0));
                    assert(decreases_to!(self@.symbol => self@.symbol->UserPath_1));
                }
                let name = match parse_type(a.0.as_slice()) {
                    Ok(value) => value,
                    Err(e) => {
                        return Err(e);
                    },
                };
                let server = match parse_type(b.0.as_slice()) {
                    Ok(value) => value,
                    Err(e) => {
                        return Err(e);
                    },
                };
                Ok(Type::UserPath(Box::new(name), Box::new(server)))
            },
            Symbol::Parenthesis(val) => {
                proof {
                    lemma_block_view(val);
                    assert(decreases_to!(self@.symbol => self@.symbol->Parenthesis_0));
                }
                if val.is_comma_delimited() {
                    match parse_tuple(val.0.as_slice()) {
                        Ok(items) => {
                            let r = Type::Tuple(items);
                            proof {
                                lemma_tuple_view(&r);
                            }
                            Ok(r)
                        },
                        Err(e) => Err(e),
                    }
                } else if is_expression(val.0.as_slice()) {
                    match parse_expression(
                        val.0.as_slice(),
                        SyntaxErrorFactory::from_symbols(val.0.as_slice()),
                    ) {
                        Ok(instruction) => Ok(Type::Expression(Box::new(instruction))),
                        Err(e) => Err(e),
                    }
                } else if val.0.len() == 1 {
                    proof {
                        assert(decreases_to!(val@ => val@[0]));
                    }
                    val.0[0].get_type()
                } else {
                    Err(self.errfactory.gen_error(SyntaxErrorType::BadExpression))
                }
            },
            _ => Err(self.errfactory.gen_error(SyntaxErrorType::NotAType)),
        }
    }
}

/// The conditional chain whose first link starts at `from`.
pub fn parse_chain(symbols: &[SymbolDef], from: usize, first: bool) -> (r: Result<
    CondBlock,
    SyntaxError,
>)
    ensures
        match r {
            Ok(chain) => conditional(symbols_view(symbols@), from as int, first) == Ok::<
                _,
                SyntaxErrorView,
            >(chain@),
            Err(e) => conditional(symbols_view(symbols@), from as int, first) == Err::<
                CondBlockView,
                _,
            >(e@),
        },
    decreases symbols_view(symbols@), 3nat, symbols@.len() - from,
{
    let ghost tokens = symbols_view(symbols@);
    let errfact = SyntaxErrorFactory::from_symbols(symbols);
    if from >= symbols.len() {
        return Err(errfact.gen_error(SyntaxErrorType::MalformedIfStatement));
    }
    let end = find_branch(symbols, from + 1);
    let (is_if, is_else) = match symbols[from].symbol {
        Symbol::If => (true, false),
        Symbol::ElseIf => (false, false),
        Symbol::Else => (false, true),
        _ => {
            return Err(errfact.gen_error(SyntaxErrorType::MalformedIfStatement));
        },
    };
    let last = &symbols[end - 1];
    proof {
        assert(last@ == tokens[end - 1]);
        assert(decreases_to!(tokens => tokens[end - 1]));
        assert(decreases_to!(tokens[end - 1] => tokens[end - 1].symbol));
    }
    let inside = match &last.symbol {
        Symbol::CurlyBraced(inside) => inside,
        _ => {
            return Err(errfact.gen_error(SyntaxErrorType::MalformedIfStatement));
        },
    };
    if is_if != first || (is_else && end - from != 2) || (!is_else && end - from < 3) {
        return Err(errfact.gen_error(SyntaxErrorType::MalformedIfStatement));
    }
    let cond = if is_else {
        None
    } else {
        proof {
            lemma_view_subrange(symbols@, from + 1, end - 1);
        }
        match parse_type(&symbols[from + 1..end - 1]) {
            Ok(value) => Some(value),
            Err(e) => {
                return Err(e);
            },
        }
    };
    proof {
        lemma_block_view(inside);
        assert(decreases_to!(tokens[end - 1].symbol => tokens[end - 1].symbol->CurlyBraced_0));
    }
    let block = match parse_symbols(inside.0.as_slice()) {
        Ok(block) => block,
        Err(e) => {
            return Err(e);
        },
    };
    proof {
        lemma_block_model(block);
    }
    let ghost cond_view = crate::instruction::option_model(cond);
    let ghost block_view = instructions_view(block@);
    assert(is_else ==> cond_view is None);
    assert(!is_else ==> cond_view == Some(
        parse_value(tokens.subrange(from + 1, end - 1))->Ok_0,
    ));
    assert(parse_program(tokens[end - 1].symbol->CurlyBraced_0) == Ok::<_, SyntaxErrorView>(
        block_view,
    ));
    if end >= symbols.len() {
        let chain = CondBlock { cond, block, elseblock: None };
        assert(chain@ == CondBlockView { cond: cond_view, block: block_view, elseblock: None });
        Ok(chain)
    } else {
        match parse_chain(symbols, end, false) {
            Ok(rest) => {
                let ghost rest_view = rest@;
                let chain = CondBlock { cond, block, elseblock: Some(Box::new(rest)) };
                assert(chain@ == CondBlockView {
                    cond: cond_view,
                    block: block_view,
                    elseblock: Some(Box::new(rest_view)),
                });
                Ok(chain)
            },
            Err(e) => Err(e),
        }
    }
}

/// Parses a statement that starts with `if` into its conditional chain.
pub fn parse_ifblock(symbols: &[SymbolDef]) -> (r: Result<Instruction, SyntaxError>)
    ensures
        parsed_instruction(r) == (match conditional(symbols_view(symbols@), 0, true) {
            Ok(chain) => Ok(InstructionView::IfBlock(chain)),
            Err(e) => Err(e),
        }),
    decreases symbols_view(symbols@), 3nat, symbols@.len() + 1,
{
    match parse_chain(symbols, 0, true) {
        Ok(chain) => Ok(Instruction::IfBlock(chain)),
        Err(e) => Err(e),
    }
}

/// Parses the inside of a user's block into its reactions.
pub fn parse_user_block(block: &[SymbolDef]) -> (r: Result<
    Vec<(String, Vec<Instruction>)>,
    SyntaxError,
>)
    ensures
        match r {
            Ok(found) => reactions(symbols_view(block@)) == Ok::<_, SyntaxErrorView>(
                matchers_view(found@),
            ),
            Err(e) => reactions(symbols_view(block@)) == Err::<
                Seq<(Seq<char>, Seq<InstructionView>)>,
                _,
            >(e@),
        },
    decreases symbols_view(block@), 6nat, 0nat,
{
    let ghost tokens = symbols_view(block@);
    let mut ret: Vec<(String, Vec<Instruction>)> = Vec::new();
    let errfact = SyntaxErrorFactory::from_symbols(block);
    if block.len() == 0 {
        assert(matchers_view(ret@) =~= Seq::empty());
        return Ok(ret);
    }
    let last = &block[block.len() - 1];
    if let Symbol::Semicolon = last.symbol {
    } else {
        return Err(last.errfactory.gen_error(SyntaxErrorType::ExpectedSemicolon));
    }
    let mut from: usize = 0;
    proof {
        lemma_prepend_nothing(reactions_from(tokens, 0));
        assert(matchers_view(ret@) =~= Seq::empty());
    }
    while from < block.len()
        invariant
            from <= block.len(),
            tokens == symbols_view(block@),
            errfact.pos == first_pos(tokens),
            tokens.len() > 0,
            tokens.last().symbol is Semicolon,
            reactions_from(tokens, 0) == prepend(
                matchers_view(ret@),
                reactions_from(tokens, from as int),
            ),
        decreases block.len() - from,
    {
        let to = find_separator(block, from, false);
        if to >= block.len() {
            proof {
                assert(matchers_view(ret@) + Seq::<(Seq<char>, Seq<InstructionView>)>::empty()
                    =~= matchers_view(ret@));
            }
            return Ok(ret);
        }
        if to != from {
            if to - from != 2 {
                return Err(errfact.gen_error(SyntaxErrorType::BadUserBlock));
            }
            let name = match &block[from].symbol {
                Symbol::Text(contents) => contents,
                _ => {
                    return Err(errfact.gen_error(SyntaxErrorType::BadUserBlock));
                },
            };
            proof {
                assert(decreases_to!(tokens => tokens[from + 1]));
                assert(decreases_to!(tokens[from + 1] => tokens[from + 1].symbol));
            }
            let inside = match &block[from + 1].symbol {
                Symbol::CurlyBraced(contents) => contents,
                _ => {
                    return Err(errfact.gen_error(SyntaxErrorType::BadUserBlock));
                },
            };
            proof {
                lemma_block_view(inside);
                assert(decreases_to!(tokens[from + 1].symbol => tokens[from
                    + 1].symbol->CurlyBraced_0));
            }
            let body = match parse_symbols(inside.0.as_slice()) {
                Ok(body) => body,
                Err(e) => {
                    return Err(e);
                },
            };
            let ghost before = matchers_view(ret@);
            let ghost added = (name@, instructions_view(body@));
            ret.push((name.clone(), body));
            proof {
                assert(matchers_view(ret@) =~= before + seq![added]);
                lemma_prepend_twice(before, seq![added], reactions_from(tokens, to + 1));
            }
        }
        from = to + 1;
    }
    proof {
        assert(matchers_view(ret@) + Seq::<(Seq<char>, Seq<InstructionView>)>::empty()
            =~= matchers_view(ret@));
    }
    Ok(ret)
}

/// Parses one statement, without its terminator.
pub fn parse_statement(chunk: &[SymbolDef]) -> (r: Result<Instruction, SyntaxError>)
    ensures
        parsed_instruction(r) == statement(symbols_view(chunk@)),
    decreases symbols_view(chunk@), 4nat, 0nat,
{
    let ghost tokens = symbols_view(chunk@);
    if chunk.len() == 0 {
        return Err(SyntaxError::new_eof(SyntaxErrorType::BadExpression));
    }
    if let Symbol::Define = chunk[0].symbol {
        if chunk.len() < 2 {
            return Err(chunk[0].errfactory.gen_error(SyntaxErrorType::BadDefinition(None)));
        }
        proof {
            assert(decreases_to!(tokens => tokens[1]));
            assert(decreases_to!(tokens[1] => tokens[1].symbol));
        }
        match &chunk[1].symbol {
            Symbol::UserPath(name, server) => {
                let block = if chunk.len() == 2 {
                    let none: Vec<(String, Vec<Instruction>)> = Vec::new();
                    assert(matchers_view(none@) =~= Seq::empty());
                    none
                } else if chunk.len() == 3 {
                    proof {
                        assert(decreases_to!(tokens => tokens[2]));
                        assert(decreases_to!(tokens[2] => tokens[2].symbol));
                    }
                    if let Symbol::CurlyBraced(inside) = &chunk[2].symbol {
                        proof {
                            lemma_block_view(inside);
                            assert(decreases_to!(tokens[2].symbol => tokens[2].symbol->CurlyBraced_0));
                        }
                        match parse_user_block(inside.0.as_slice()) {
                            Ok(found) => found,
                            Err(e) => {
                                return Err(e);
                            },
                        }
                    } else {
                        return Err(chunk[2].errfactory.gen_error(SyntaxErrorType::BadUserBlock));
                    }
                } else {
                    return Err(chunk[2].errfactory.gen_error(SyntaxErrorType::BadUserBlock));
                };
                let user = UserDef::create_def_internal(block);
                proof {
                    lemma_block_view(name);
                    lemma_block_view(server);
                    assert(decreases_to!(tokens[1].symbol => tokens[1].symbol->UserPath_0));
                    assert(decreases_to!(tokens[1].symbol => tokens[1].symbol->UserPath_1));
                }
                let a = match parse_type(name.0.as_slice()) {
                    Ok(value) => value,
                    Err(e) => {
                        return Err(e);
                    },
                };
                let b = match parse_type(server.0.as_slice()) {
                    Ok(value) => value,
                    Err(e) => {
                        return Err(e);
                    },
                };
                Ok(Instruction::CreateUser(a, b, user))
            },
            _ => {
                proof {
                    lemma_view_subrange(chunk@, 1, chunk@.len() as int);
                }
                match parse_type(&chunk[1..chunk.len()]) {
                    Ok(name) => {
                        if let Type::Tuple(_) = name {
                            let kind = name.get_typename().to_string();
                            Err(
                                chunk[0].errfactory.gen_error(
                                    SyntaxErrorType::BadDefinition(Some(kind)),
                                ),
                            )
                        } else {
                            Ok(Instruction::CreateServer(name))
                        }
                    },
                    Err(e) => Err(e),
                }
            },
        }
    } else if let Symbol::If = chunk[0].symbol {
        parse_ifblock(chunk)
    } else {
        parse_expression(chunk, SyntaxErrorFactory::from_symbols(chunk))
    }
}

/// Parses a block of tokens into its instructions.
pub fn parse_symbols(symbols: &[SymbolDef]) -> (r: Result<Vec<Instruction>, SyntaxError>)
    ensures
        parsed_block(r) == parse_program(symbols_view(symbols@)),
    decreases symbols_view(symbols@), 6nat, 0nat,
{
    let ghost tokens = symbols_view(symbols@);
    let mut ret: Vec<Instruction> = Vec::new();
    if symbols.len() == 0 {
        assert(instructions_view(ret@) =~= Seq::empty());
        return Ok(ret);
    }
    let last = &symbols[symbols.len() - 1];
    if let Symbol::Semicolon = last.symbol {
    } else {
        return Err(last.errfactory.gen_error(SyntaxErrorType::ExpectedSemicolon));
    }
    let mut from: usize = 0;
    proof {
        lemma_prepend_nothing(statements_from(tokens, 0));
        assert(instructions_view(ret@) =~= Seq::empty());
    }
    while from < symbols.len()
        invariant
            from <= symbols.len(),
            tokens == symbols_view(symbols@),
            tokens.len() > 0,
            tokens.last().symbol is Semicolon,
            statements_from(tokens, 0) == prepend(
                instructions_view(ret@),
                statements_from(tokens, from as int),
            ),
        decreases symbols.len() - from,
    {
        let to = find_separator(symbols, from, false);
        if to >= symbols.len() {
            proof {
                assert(instructions_view(ret@) + Seq::<InstructionView>::empty()
                    =~= instructions_view(ret@));
            }
            return Ok(ret);
        }
        if to != from {
            proof {
                lemma_view_subrange(symbols@, from as int, to as int);
            }
            let inst = match parse_statement(&symbols[from..to]) {
                Ok(inst) => inst,
                Err(e) => {
                    return Err(e);
                },
            };
            let ghost before = instructions_view(ret@);
            let ghost added = inst@;
            ret.push(inst);
            proof {
                assert(instructions_view(ret@) =~= before + seq![added]);
                lemma_prepend_twice(before, seq![added], statements_from(tokens, to + 1));
            }
        }
        from = to + 1;
    }
    proof {
        assert(instructions_view(ret@) + Seq::<InstructionView>::empty() =~= instructions_view(
            ret@,
        ));
    }
    Ok(ret)
}

} // verus!
