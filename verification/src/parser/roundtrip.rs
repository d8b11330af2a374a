//! Writing a token tree and reading it again.

use vstd::prelude::*;
use crate::error::{prepend, SyntaxErrorView};
use crate::parser::textparser::{
    after,
    bound_source,
    codechars_text,
    find_from,
    level_after,
    lex,
    lex_bound,
    lex_from,
    lex_symbol,
    placed,
    trim_end,
    trim_start,
    trimmed,
    matched_end,
    opens_token,
    pending_word,
    simple_symbol,
    source_from,
    source_of,
    token_end,
    token_source,
    unescaped_end,
    word_char,
    word_symbol,
    CodeChar,
};
use crate::symbols::{SymbolDefView, SymbolView};
use crate::text::whitespace;

verus! {

/// A token without its place, and without the places inside it.
pub open spec fn bare_token(token: SymbolDefView) -> SymbolDefView
    decreases token, 0nat,
{
    SymbolDefView { pos: None, symbol: bare_symbol(token.symbol) }
}

/// A token tree without its places.
pub open spec fn bare(tokens: Seq<SymbolDefView>) -> Seq<SymbolDefView>
    decreases tokens, 1nat,
{
    Seq::new(
        tokens.len(),
        |i: int|
            if 0 <= i < tokens.len() {
                bare_token(tokens[i])
            } else {
                SymbolDefView { pos: None, symbol: SymbolView::Comma }
            },
    )
}

/// One bound of a slice without its places.
pub open spec fn bare_bound(bound: Option<Seq<SymbolDefView>>) -> Option<Seq<SymbolDefView>>
    decreases bound, 0nat,
{
    match bound {
        Some(tokens) => Some(bare(tokens)),
        None => None,
    }
}

/// A symbol without the places inside it.
pub open spec fn bare_symbol(symbol: SymbolView) -> SymbolView
    decreases symbol, 0nat,
{
    match symbol {
        SymbolView::CurlyBraced(inside) => SymbolView::CurlyBraced(bare(inside)),
        SymbolView::Parenthesis(inside) => SymbolView::Parenthesis(bare(inside)),
        SymbolView::UserPath(name, server) => SymbolView::UserPath(bare(name), bare(server)),
        SymbolView::Index(inside) => SymbolView::Index(bare(inside)),
        SymbolView::Slice(first, second) => SymbolView::Slice(
            bare_bound(first),
            bare_bound(second),
        ),
        other => other,
    }
}

/// Whether the character means something to the reader by itself.
pub open spec fn special(c: char) -> bool {
    opens_token(c) || c == '#' || c == '}' || c == ')' || c == ']' || c == ':' || c == '\\'
        || whitespace(c)
}

/// Whether the text is a word that is no keyword.
pub open spec fn plain_word(text: Seq<char>) -> bool {
    &&& text.len() > 0
    &&& forall|i: int|
        0 <= i < text.len() ==> word_char(#[trigger] text[i]) && !special(text[i])
    &&& word_symbol(text) == SymbolView::Identifier(text)
}

/// Whether the text holds no quote, no backslash and no bracket.
pub open spec fn plain_text(text: Seq<char>) -> bool {
    forall|i: int|
        0 <= i < text.len() ==> {
            let c = #[trigger] text[i];
            c != '"' && c != '\\' && c != '{' && c != '}' && c != '(' && c != ')' && c != '['
                && c != ']'
        }
}

/// Whether the text does not hold the character.
pub open spec fn free_of(text: Seq<char>, c: char) -> bool {
    forall|i: int| 0 <= i < text.len() ==> #[trigger] text[i] != c
}

/// Whether the tree is one that reading its source text gives back. Its
/// words are no keywords and hold no character that means something by
/// itself; its strings hold no quote, no backslash and no bracket; an
/// address holds no `>`, and its name no `@` and no backslash; an index
/// and the first bound of a slice hold no `:`; and a bound of a slice that
/// is there holds a token.
pub open spec fn plain(tokens: Seq<SymbolDefView>) -> bool
    decreases tokens, 1nat,
{
    forall|i: int| 0 <= i < tokens.len() ==> plain_symbol((#[trigger] tokens[i]).symbol)
}

/// Whether the bound of a slice is one that `plain` allows.
pub open spec fn plain_bound(bound: Option<Seq<SymbolDefView>>) -> bool
    decreases bound, 0nat,
{
    match bound {
        Some(tokens) => tokens.len() > 0 && plain(tokens),
        None => true,
    }
}

/// Whether the token is one that `plain` allows.
pub open spec fn plain_symbol(symbol: SymbolView) -> bool
    decreases symbol, 0nat,
{
    match symbol {
        SymbolView::CurlyBraced(inside) => plain(inside),
        SymbolView::Parenthesis(inside) => plain(inside),
        SymbolView::Identifier(text) => plain_word(text),
        SymbolView::Text(text) => plain_text(text),
        SymbolView::UserPath(name, server) => plain(name) && plain(server) && free_of(
            source_of(name),
            '@',
        ) && free_of(source_of(name), '\\') && free_of(source_of(name), '>') && free_of(
            source_of(server),
            '>',
        ),
        SymbolView::Index(inside) => plain(inside) && free_of(source_of(inside), ':'),
        SymbolView::Slice(first, second) => plain_bound(first) && plain_bound(second) && free_of(
            bound_source(first),
            ':',
        ),
        _ => true,
    }
}

/// Whether the characters of `text` stand in `code` from index `i` on.
pub open spec fn stands_at(code: Seq<CodeChar>, i: int, text: Seq<char>) -> bool {
    &&& 0 <= i
    &&& i + text.len() <= code.len()
    &&& forall|j: int| 0 <= j < text.len() ==> code[i + j].val == #[trigger] text[j]
}

pub proof fn lemma_stands_split(code: Seq<CodeChar>, i: int, a: Seq<char>, b: Seq<char>)
    requires
        stands_at(code, i, a + b),
    ensures
        stands_at(code, i, a),
        stands_at(code, i + a.len(), b),
{
    assert forall|j: int| 0 <= j < a.len() implies code[i + j].val == #[trigger] a[j] by {
        assert((a + b)[j] == a[j]);
    }
    assert forall|j: int| 0 <= j < b.len() implies code[i + a.len() + j].val == #[trigger] b[j] by {
        assert((a + b)[a.len() + j] == b[j]);
    }
}

/// Scanning for the end of a bracket passes over characters that are
/// neither of the two brackets.
pub proof fn lemma_level_keeps(
    code: Seq<CodeChar>,
    j: int,
    text: Seq<char>,
    open: char,
    close: char,
    level: int,
)
    requires
        stands_at(code, j, text),
        level >= 1,
        forall|x: int| 0 <= x < text.len() ==> #[trigger] text[x] != open && text[x] != close,
    ensures
        matched_end(code, j, open, close, level, 0) == matched_end(
            code,
            j + text.len(),
            open,
            close,
            level,
            0,
        ),
    decreases text.len(),
{
    if text.len() > 0 {
        let rest = text.subrange(1, text.len() as int);
        assert(text =~= seq![text[0]] + rest);
        lemma_stands_split(code, j, seq![text[0]], rest);
        assert(code[j + 0].val == text[0]);
        assert forall|x: int| 0 <= x < rest.len() implies #[trigger] rest[x] != open && rest[x]
            != close by {
            assert(rest[x] == text[x + 1]);
        }
        lemma_level_keeps(code, j + 1, rest, open, close, level);
        assert(level_after(level, code[j].val, open, close) == level);
    }
}

/// Scanning for the end of a string passes over characters that are
/// neither a quote nor a backslash.
pub proof fn lemma_string_keeps(code: Seq<CodeChar>, j: int, text: Seq<char>)
    requires
        stands_at(code, j, text),
        forall|x: int| 0 <= x < text.len() ==> #[trigger] text[x] != '"' && text[x] != '\\',
    ensures
        unescaped_end(code, j, '"', false) == unescaped_end(code, j + text.len(), '"', false),
    decreases text.len(),
{
    if text.len() > 0 {
        let rest = text.subrange(1, text.len() as int);
        assert(text =~= seq![text[0]] + rest);
        lemma_stands_split(code, j, seq![text[0]], rest);
        assert(code[j + 0].val == text[0]);
        assert forall|x: int| 0 <= x < rest.len() implies #[trigger] rest[x] != '"' && rest[x]
            != '\\' by {
            assert(rest[x] == text[x + 1]);
        }
        lemma_string_keeps(code, j + 1, rest);
    }
}

/// Whether the two characters are a pair of brackets.
pub open spec fn nests(open: char, close: char) -> bool {
    (open == '{' && close == '}') || (open == '(' && close == ')') || (open == '[' && close
        == ']')
}

/// Scanning for a character passes over a text that does not hold it.
pub proof fn lemma_find_keeps(code: Seq<CodeChar>, j: int, text: Seq<char>, c: char)
    requires
        stands_at(code, j, text),
        free_of(text, c),
    ensures
        find_from(code, j, c) == find_from(code, j + text.len(), c),
    decreases text.len(),
{
    if text.len() > 0 {
        let rest = text.subrange(1, text.len() as int);
        assert(text =~= seq![text[0]] + rest);
        lemma_stands_split(code, j, seq![text[0]], rest);
        assert(code[j + 0].val == text[0]);
        assert forall|x: int| 0 <= x < rest.len() implies #[trigger] rest[x] != c by {
            assert(rest[x] == text[x + 1]);
        }
        lemma_find_keeps(code, j + 1, rest, c);
    }
}

/// Scanning for an unescaped character passes over a text that holds
/// neither it nor a backslash.
pub proof fn lemma_unescaped_keeps(code: Seq<CodeChar>, j: int, text: Seq<char>, m: char)
    requires
        stands_at(code, j, text),
        free_of(text, m),
        free_of(text, '\\'),
    ensures
        unescaped_end(code, j, m, false) == unescaped_end(code, j + text.len(), m, false),
    decreases text.len(),
{
    if text.len() > 0 {
        let rest = text.subrange(1, text.len() as int);
        assert(text =~= seq![text[0]] + rest);
        lemma_stands_split(code, j, seq![text[0]], rest);
        assert(code[j + 0].val == text[0]);
        assert forall|x: int| 0 <= x < rest.len() implies #[trigger] rest[x] != m by {
            assert(rest[x] == text[x + 1]);
        }
        assert forall|x: int| 0 <= x < rest.len() implies #[trigger] rest[x] != '\\' by {
            assert(rest[x] == text[x + 1]);
        }
        lemma_unescaped_keeps(code, j + 1, rest, m);
    }
}

/// The characters of `code` from `from` up to `to`, where `text` stands
/// there, are `text`.
pub proof fn lemma_cut(code: Seq<CodeChar>, from: int, to: int, text: Seq<char>)
    requires
        stands_at(code, from, text),
        to == from + text.len(),
    ensures
        stands_at(code.subrange(from, to), 0, text),
        code.subrange(from, to).len() == text.len(),
        codechars_text(code.subrange(from, to)) == text,
{
    let cut = code.subrange(from, to);
    assert forall|x: int| 0 <= x < text.len() implies cut[0 + x].val == #[trigger] text[x] by {
        assert(code[from + x].val == text[x]);
    }
    assert(codechars_text(cut) =~= text);
}

/// The source text of a plain token starts with a character that is no
/// whitespace.
pub proof fn lemma_source_starts(symbol: SymbolView)
    requires
        plain_symbol(symbol),
    ensures
        token_source(symbol).len() > 0,
        !whitespace(token_source(symbol)[0]),
{
    match symbol {
        SymbolView::Identifier(text) => {
            assert(word_char(text[0]) && !special(text[0]));
        },
        _ => {},
    }
}

/// A text that starts with a character that is no whitespace keeps it
/// when the whitespace at its end is cut off.
pub proof fn lemma_trim_end_keeps(text: Seq<char>)
    requires
        text.len() > 0,
        !whitespace(text[0]),
    ensures
        trim_end(text).len() > 0,
    decreases text.len(),
{
    if whitespace(text.last()) {
        assert(text.len() > 1);
        assert(text.drop_last()[0] == text[0]);
        lemma_trim_end_keeps(text.drop_last());
    }
}

/// Scanning for the end of a bracket passes over the source text of a
/// plain token: whatever it opens, it closes.
pub proof fn lemma_level_through_token(
    symbol: SymbolView,
    code: Seq<CodeChar>,
    j: int,
    open: char,
    close: char,
    level: int,
)
    requires
        plain_symbol(symbol),
        stands_at(code, j, token_source(symbol)),
        level >= 1,
        nests(open, close),
    ensures
        matched_end(code, j, open, close, level, 0) == matched_end(
            code,
            j + token_source(symbol).len(),
            open,
            close,
            level,
            0,
        ),
    decreases symbol, 0nat,
{
    let text = token_source(symbol);
    match symbol {
        SymbolView::CurlyBraced(inside) => {
            lemma_level_through_block(inside, '{', '}', code, j, open, close, level);
        },
        SymbolView::Parenthesis(inside) => {
            lemma_level_through_block(inside, '(', ')', code, j, open, close, level);
        },
        SymbolView::Index(inside) => {
            lemma_level_through_block(inside, '[', ']', code, j, open, close, level);
        },
        SymbolView::Slice(first, second) => {
            let a = bound_source(first);
            let b = bound_source(second);
            lemma_stands_split(code, j, seq!['['] + a + seq![':'] + b, seq![']']);
            lemma_stands_split(code, j, seq!['['] + a + seq![':'], b);
            lemma_stands_split(code, j, seq!['['] + a, seq![':']);
            lemma_stands_split(code, j, seq!['['], a);
            assert(code[j + 0].val == seq!['['][0]);
            let deeper = if open == '[' {
                level + 1
            } else {
                level
            };
            assert(level_after(level, code[j].val, open, close) == deeper);
            assert(matched_end(code, j, open, close, level, 0) == matched_end(
                code,
                j + 1,
                open,
                close,
                deeper,
                0,
            ));
            lemma_level_through_bound(first, code, j + 1, open, close, deeper);
            lemma_level_keeps(code, j + 1 + a.len(), seq![':'], open, close, deeper);
            lemma_level_through_bound(second, code, j + 2 + a.len(), open, close, deeper);
            let end = j + 2 + a.len() + b.len();
            assert(code[end + 0].val == seq![']'][0]);
            assert(level_after(deeper, code[end].val, open, close) == level);
            assert(matched_end(code, end, open, close, deeper, 0) == matched_end(
                code,
                end + 1,
                open,
                close,
                level,
                0,
            ));
        },
        SymbolView::UserPath(name, server) => {
            let a = source_of(name);
            let b = source_of(server);
            lemma_stands_split(code, j, seq!['<'] + a + seq!['@'] + b, seq!['>']);
            lemma_stands_split(code, j, seq!['<'] + a + seq!['@'], b);
            lemma_stands_split(code, j, seq!['<'] + a, seq!['@']);
            lemma_stands_split(code, j, seq!['<'], a);
            lemma_level_keeps(code, j, seq!['<'], open, close, level);
            lemma_level_through(name, 0, code, j + 1, open, close, level);
            lemma_level_keeps(code, j + 1 + a.len(), seq!['@'], open, close, level);
            lemma_level_through(server, 0, code, j + 2 + a.len(), open, close, level);
            lemma_level_keeps(code, j + 2 + a.len() + b.len(), seq!['>'], open, close, level);
        },
        SymbolView::Identifier(word) => {
            lemma_level_keeps(code, j, text, open, close, level);
        },
        SymbolView::Text(content) => {
            assert forall|x: int| 0 <= x < text.len() implies #[trigger] text[x] != open && text[x]
                != close by {
                if 0 < x <= content.len() {
                    assert(text[x] == content[x - 1]);
                }
            }
            lemma_level_keeps(code, j, text, open, close, level);
        },
        _ => {
            lemma_level_keeps(code, j, text, open, close, level);
        },
    }
}

/// Scanning for the end of a bracket passes over a bound of a slice.
pub proof fn lemma_level_through_bound(
    bound: Option<Seq<SymbolDefView>>,
    code: Seq<CodeChar>,
    j: int,
    open: char,
    close: char,
    level: int,
)
    requires
        plain_bound(bound),
        stands_at(code, j, bound_source(bound)),
        level >= 1,
        nests(open, close),
    ensures
        matched_end(code, j, open, close, level, 0) == matched_end(
            code,
            j + bound_source(bound).len(),
            open,
            close,
            level,
            0,
        ),
    decreases bound, 0nat,
{
    match bound {
        Some(tokens) => {
            lemma_level_through(tokens, 0, code, j, open, close, level);
        },
        None => {},
    }
}

/// Scanning for the end of a bracket passes over a plain tree between its
/// own two brackets `left` and `right`.
pub proof fn lemma_level_through_block(
    inside: Seq<SymbolDefView>,
    left: char,
    right: char,
    code: Seq<CodeChar>,
    j: int,
    open: char,
    close: char,
    level: int,
)
    requires
        plain(inside),
        nests(left, right),
        stands_at(code, j, seq![left] + source_of(inside) + seq![right]),
        level >= 1,
        nests(open, close),
    ensures
        matched_end(code, j, open, close, level, 0) == matched_end(
            code,
            j + source_of(inside).len() + 2,
            open,
            close,
            level,
            0,
        ),
    decreases inside, inside.len() + 1,
{
    let src = source_of(inside);
    lemma_stands_split(code, j, seq![left] + src, seq![right]);
    lemma_stands_split(code, j, seq![left], src);
    assert(code[j + 0].val == seq![left][0]);
    let end = j + 1 + src.len();
    assert(code[end + 0].val == seq![right][0]);
    let deeper = if left == open {
        level + 1
    } else {
        level
    };
    assert(level_after(level, code[j].val, open, close) == deeper);
    assert(matched_end(code, j, open, close, level, 0) == matched_end(
        code,
        j + 1,
        open,
        close,
        deeper,
        0,
    ));
    lemma_level_through(inside, 0, code, j + 1, open, close, deeper);
    assert(level_after(deeper, code[end].val, open, close) == level);
    assert(matched_end(code, end, open, close, deeper, 0) == matched_end(
        code,
        end + 1,
        open,
        close,
        level,
        0,
    ));
}

/// Scanning for the end of a bracket passes over the source text of a
/// plain tree.
pub proof fn lemma_level_through(
    tokens: Seq<SymbolDefView>,
    k: int,
    code: Seq<CodeChar>,
    j: int,
    open: char,
    close: char,
    level: int,
)
    requires
        plain(tokens),
        0 <= k <= tokens.len(),
        stands_at(code, j, source_from(tokens, k)),
        level >= 1,
        nests(open, close),
    ensures
        matched_end(code, j, open, close, level, 0) == matched_end(
            code,
            j + source_from(tokens, k).len(),
            open,
            close,
            level,
            0,
        ),
    decreases tokens, tokens.len() - k,
{
    if k < tokens.len() {
        let text = token_source(tokens[k].symbol);
        let rest = source_from(tokens, k + 1);
        lemma_stands_split(code, j, text + seq![' '], rest);
        lemma_stands_split(code, j, text, seq![' ']);
        lemma_level_through_token(tokens[k].symbol, code, j, open, close, level);
        lemma_level_keeps(code, j + text.len(), seq![' '], open, close, level);
        lemma_level_through(tokens, k + 1, code, j + text.len() + 1, open, close, level);
    }
}

/// While reading, the character read last matters only to a word that is
/// still open.
pub proof fn lemma_last_is_forgotten(
    code: Seq<CodeChar>,
    i: int,
    one: Option<CodeChar>,
    other: Option<CodeChar>,
)
    ensures
        lex_from(code, i, Seq::empty(), one) == lex_from(code, i, Seq::empty(), other),
{
}

/// Reading collects characters that may stand in a word and mean nothing
/// by themselves.
pub proof fn lemma_word_read(
    code: Seq<CodeChar>,
    i: int,
    word: Seq<char>,
    before: Seq<char>,
    last: Option<CodeChar>,
)
    requires
        stands_at(code, i, word),
        word.len() > 0,
        forall|x: int| 0 <= x < word.len() ==> word_char(#[trigger] word[x]) && !special(word[x]),
    ensures
        lex_from(code, i, before, last) == lex_from(
            code,
            i + word.len(),
            before + word,
            Some(code[i + word.len() - 1]),
        ),
    decreases word.len(),
{
    let rest = word.subrange(1, word.len() as int);
    assert(word =~= seq![word[0]] + rest);
    lemma_stands_split(code, i, seq![word[0]], rest);
    assert(code[i + 0].val == word[0]);
    assert(word_char(word[0]) && !special(word[0]));
    assert(lex_from(code, i, before, last) == lex_from(
        code,
        i + 1,
        before.push(word[0]),
        Some(code[i]),
    ));
    if rest.len() > 0 {
        assert forall|x: int| 0 <= x < rest.len() implies word_char(#[trigger] rest[x])
            && !special(rest[x]) by {
            assert(rest[x] == word[x + 1]);
        }
        lemma_word_read(code, i + 1, rest, before.push(word[0]), Some(code[i]));
        assert(before.push(word[0]) + rest =~= before + word);
    } else {
        assert(before.push(word[0]) =~= before + word);
    }
}

/// Whether the token is a sign or a keyword.
pub open spec fn is_sign(symbol: SymbolView) -> bool {
    !(symbol is CurlyBraced || symbol is Parenthesis || symbol is UserPath || symbol
        is Identifier || symbol is Text || symbol is Index || symbol is Slice)
}

/// Whether the token is a keyword.
pub open spec fn is_keyword(symbol: SymbolView) -> bool {
    symbol is If || symbol is Else || symbol is ElseIf
}

/// Reading the source text of a plain token and the blank behind it gives
/// a token that is the same but for its places, and goes on behind the
/// blank.
pub proof fn lemma_reread_token(
    symbol: SymbolView,
    code: Seq<CodeChar>,
    i: int,
    last: Option<CodeChar>,
) -> (found: SymbolDefView)
    requires
        plain_symbol(symbol),
        stands_at(code, i, token_source(symbol) + seq![' ']),
    ensures
        bare_symbol(found.symbol) == bare_symbol(symbol),
        lex_from(code, i, Seq::empty(), last) == prepend(
            seq![found],
            lex_from(code, i + token_source(symbol).len() + 1, Seq::empty(), last),
        ),
    decreases symbol, 1nat,
{
    let text = token_source(symbol);
    let n = text.len() as int;
    lemma_stands_split(code, i, text, seq![' ']);
    assert(code[i + n + 0].val == seq![' '][0]);
    let blank = code[i + n];
    let behind = lex_from(code, i + n + 1, Seq::empty(), last);
    lemma_last_is_forgotten(code, i + n + 1, last, Some(blank));
    let empty = Seq::<SymbolDefView>::empty();
    if symbol is Identifier || is_keyword(symbol) {
        assert(text.len() > 0);
        assert forall|x: int| 0 <= x < text.len() implies word_char(#[trigger] text[x])
            && !special(text[x]) by {}
        lemma_word_read(code, i, text, Seq::empty(), last);
        assert(Seq::<char>::empty() + text =~= text);
        let found = SymbolDefView { pos: Some((blank.line, blank.column)), symbol: word_symbol(text) };
        assert(word_symbol(text) == symbol);
        assert(pending_word(text, blank) == seq![found]);
        found
    } else {
        let first = code[i];
        assert(code[i + 0].val == text[0]);
        let read = lemma_reread_symbol(symbol, code, i);
        let found = SymbolDefView { pos: Some((first.line, first.column)), symbol: read };
        assert(opens_token(first.val));
        assert(lex_from(code, i + n, Seq::empty(), Some(first)) == prepend(empty, behind));
        assert(empty + seq![found] =~= seq![found]);
        match behind {
            Ok(more) => {
                assert(empty + more =~= more);
            },
            Err(_) => {},
        }
        found
    }
}

/// Reading a plain token that starts with a sign, a quote or a bracket
/// gives a symbol that is the same but for its places, and ends behind the
/// source text of the token.
pub proof fn lemma_reread_symbol(symbol: SymbolView, code: Seq<CodeChar>, i: int) -> (read:
    SymbolView)
    requires
        plain_symbol(symbol),
        !(symbol is Identifier),
        !is_keyword(symbol),
        stands_at(code, i, token_source(symbol) + seq![' ']),
    ensures
        lex_symbol(code, i) == Ok::<_, SyntaxErrorView>(read),
        bare_symbol(read) == bare_symbol(symbol),
        token_end(code, i) == i + token_source(symbol).len(),
        opens_token(code[i].val),
    decreases symbol, 0nat,
{
    let text = token_source(symbol);
    let n = text.len() as int;
    lemma_stands_split(code, i, text, seq![' ']);
    assert(code[i + 0].val == text[0]);
    match symbol {
        SymbolView::CurlyBraced(inside) => lemma_reread_block(inside, '{', '}', code, i),
        SymbolView::Parenthesis(inside) => lemma_reread_block(inside, '(', ')', code, i),
        SymbolView::Index(inside) => lemma_reread_block(inside, '[', ']', code, i),
        SymbolView::Slice(first, second) => {
            let a = bound_source(first);
            let b = bound_source(second);
            lemma_stands_split(code, i, seq!['['] + a + seq![':'] + b, seq![']']);
            lemma_stands_split(code, i, seq!['['] + a + seq![':'], b);
            lemma_stands_split(code, i, seq!['['] + a, seq![':']);
            lemma_stands_split(code, i, seq!['['], a);
            lemma_level_through_bound(first, code, i + 1, '[', ']', 1);
            lemma_level_keeps(code, i + 1 + a.len(), seq![':'], '[', ']', 1);
            lemma_level_through_bound(second, code, i + 2 + a.len(), '[', ']', 1);
            let end = i + 2 + a.len() + b.len();
            assert(code[end + 0].val == seq![']'][0]);
            assert(level_after(1, code[end].val, '[', ']') == 0);
            assert(matched_end(code, end, '[', ']', 1, 0) == end);
            assert(after(code, end) == end + 1);
            let within = code.subrange(i + 1, end);
            let whole = a + seq![':'] + b;
            assert(stands_at(code, i + 1, whole)) by {
                assert forall|x: int| 0 <= x < whole.len() implies code[i + 1 + x].val
                    == #[trigger] whole[x] by {
                    assert(text[x + 1] == whole[x]);
                    assert(code[i + (x + 1)].val == text[x + 1]);
                }
            }
            lemma_cut(code, i + 1, end, whole);
            lemma_stands_split(within, 0, a + seq![':'], b);
            lemma_stands_split(within, 0, a, seq![':']);
            lemma_find_keeps(within, 0, a, ':');
            assert(within[a.len() as int + 0].val == seq![':'][0]);
            assert(find_from(within, a.len() as int, ':') == a.len());
            let left_half = within.subrange(0, a.len() as int);
            let right_half = within.subrange(a.len() as int + 1, within.len() as int);
            lemma_cut(within, 0, a.len() as int, a);
            lemma_cut(within, a.len() as int + 1, within.len() as int, b);
            let one = lemma_reread_bound(first, left_half);
            let two = lemma_reread_bound(second, right_half);
            SymbolView::Slice(one, two)
        },
        SymbolView::UserPath(name, server) => {
            let a = source_of(name);
            let b = source_of(server);
            lemma_stands_split(code, i, seq!['<'] + a + seq!['@'] + b, seq!['>']);
            lemma_stands_split(code, i, seq!['<'] + a + seq!['@'], b);
            lemma_stands_split(code, i, seq!['<'] + a, seq!['@']);
            lemma_stands_split(code, i, seq!['<'], a);
            let whole = a + seq!['@'] + b;
            let end = i + 1 + whole.len();
            assert(stands_at(code, i + 1, whole)) by {
                assert forall|x: int| 0 <= x < whole.len() implies code[i + 1 + x].val
                    == #[trigger] whole[x] by {
                    assert(text[x + 1] == whole[x]);
                    assert(code[i + (x + 1)].val == text[x + 1]);
                }
            }
            assert(free_of(whole, '>')) by {
                assert forall|x: int| 0 <= x < whole.len() implies #[trigger] whole[x] != '>' by {
                    if x < a.len() {
                        assert(whole[x] == a[x]);
                    } else if x > a.len() {
                        assert(whole[x] == b[x - a.len() - 1]);
                    }
                }
            }
            lemma_find_keeps(code, i + 1, whole, '>');
            assert(code[end + 0].val == seq!['>'][0]);
            assert(find_from(code, end, '>') == end);
            assert(after(code, end) == end + 1);
            let path = code.subrange(i + 1, end);
            lemma_cut(code, i + 1, end, whole);
            lemma_stands_split(path, 0, a + seq!['@'], b);
            lemma_stands_split(path, 0, a, seq!['@']);
            lemma_unescaped_keeps(path, 0, a, '@');
            assert(path[a.len() as int + 0].val == seq!['@'][0]);
            assert(unescaped_end(path, a.len() as int, '@', false) == a.len());
            let left_half = path.subrange(0, a.len() as int);
            let right_half = path.subrange(a.len() as int + 1, path.len() as int);
            lemma_cut(path, 0, a.len() as int, a);
            lemma_cut(path, a.len() as int + 1, path.len() as int, b);
            lemma_reread(name, 0, left_half, 0, None);
            lemma_reread(server, 0, right_half, 0, None);
            assert(name.subrange(0, name.len() as int) =~= name);
            assert(server.subrange(0, server.len() as int) =~= server);
            SymbolView::UserPath(lex(left_half)->Ok_0, lex(right_half)->Ok_0)
        },
        SymbolView::Text(content) => {
            lemma_stands_split(code, i, seq!['"'] + content, seq!['"']);
            lemma_stands_split(code, i, seq!['"'], content);
            lemma_string_keeps(code, i + 1, content);
            let end = i + 1 + content.len();
            assert(code[end + 0].val == seq!['"'][0]);
            assert(unescaped_end(code, end, '"', false) == end);
            assert(codechars_text(code.subrange(i + 1, end)) =~= content) by {
                assert forall|x: int| 0 <= x < content.len() implies codechars_text(
                    code.subrange(i + 1, end),
                )[x] == content[x] by {
                    assert(code[i + 1 + x].val == content[x]);
                }
            }
            assert(after(code, end) == end + 1);
            symbol
        },
        _ => {
            assert(text.len() == 1);
            assert(simple_symbol(code[i].val) == Some(symbol));
            symbol
        },
    }
}

/// Reading a plain tree between its brackets gives the tree back, but for
/// its places.
pub proof fn lemma_reread_block(
    inside: Seq<SymbolDefView>,
    left: char,
    right: char,
    code: Seq<CodeChar>,
    i: int,
) -> (read: SymbolView)
    requires
        plain(inside),
        nests(left, right),
        stands_at(code, i, seq![left] + source_of(inside) + seq![right]),
        left == '[' ==> free_of(source_of(inside), ':'),
    ensures
        lex_symbol(code, i) == Ok::<_, SyntaxErrorView>(read),
        bare_symbol(read) == (if left == '{' {
            SymbolView::CurlyBraced(bare(inside))
        } else if left == '(' {
            SymbolView::Parenthesis(bare(inside))
        } else {
            SymbolView::Index(bare(inside))
        }),
        token_end(code, i) == i + source_of(inside).len() + 2,
        opens_token(code[i].val),
    decreases inside, inside.len() + 1,
{
    let src = source_of(inside);
    lemma_stands_split(code, i, seq![left] + src, seq![right]);
    lemma_stands_split(code, i, seq![left], src);
    assert(code[i + 0].val == seq![left][0]);
    let end = i + 1 + src.len();
    assert(code[end + 0].val == seq![right][0]);
    lemma_level_through(inside, 0, code, i + 1, left, right, 1);
    assert(level_after(1, code[end].val, left, right) == 0);
    assert(matched_end(code, end, left, right, 1, 0) == end);
    let within = code.subrange(i + 1, end);
    assert(stands_at(within, 0, src)) by {
        assert forall|x: int| 0 <= x < src.len() implies within[0 + x].val == #[trigger] src[x] by {
            assert(code[i + 1 + x].val == src[x]);
        }
    }
    lemma_reread(inside, 0, within, 0, None);
    let tokens = lex(within)->Ok_0;
    assert(inside.subrange(0, inside.len() as int) =~= inside);
    assert(after(code, end) == end + 1);
    if left == '[' {
        lemma_find_keeps(within, 0, src, ':');
    }
    if left == '{' {
        SymbolView::CurlyBraced(tokens)
    } else if left == '(' {
        SymbolView::Parenthesis(tokens)
    } else {
        SymbolView::Index(tokens)
    }
}

/// Reading the source text of a bound of a slice gives the bound back,
/// but for its places.
pub proof fn lemma_reread_bound(bound: Option<Seq<SymbolDefView>>, half: Seq<CodeChar>) -> (read:
    Option<Seq<SymbolDefView>>)
    requires
        plain_bound(bound),
        stands_at(half, 0, bound_source(bound)),
        half.len() == bound_source(bound).len(),
        codechars_text(half) == bound_source(bound),
    ensures
        lex_bound(half) == Ok::<_, SyntaxErrorView>(read),
        bare_bound(read) == bare_bound(bound),
    decreases bound, 0nat,
{
    match bound {
        Some(tokens) => {
            let text = source_of(tokens);
            lemma_source_starts(tokens[0].symbol);
            assert(text[0] == token_source(tokens[0].symbol)[0]);
            assert(trim_start(text) == text);
            lemma_trim_end_keeps(text);
            lemma_reread(tokens, 0, half, 0, None);
            assert(tokens.subrange(0, tokens.len() as int) =~= tokens);
            Some(lex(half)->Ok_0)
        },
        None => {
            assert(bound_source(bound).len() == 0);
            assert(trim_start(codechars_text(half)).len() == 0);
            None
        },
    }
}

/// Reading the source text of a plain tree from its token `k` on, up to
/// the end of the text, gives those tokens back, but for their places.
pub proof fn lemma_reread(
    tokens: Seq<SymbolDefView>,
    k: int,
    code: Seq<CodeChar>,
    i: int,
    last: Option<CodeChar>,
)
    requires
        plain(tokens),
        0 <= k <= tokens.len(),
        stands_at(code, i, source_from(tokens, k)),
        i + source_from(tokens, k).len() == code.len(),
    ensures
        lex_from(code, i, Seq::empty(), last) is Ok,
        bare(lex_from(code, i, Seq::empty(), last)->Ok_0) == bare(
            tokens.subrange(k, tokens.len() as int),
        ),
    decreases tokens, tokens.len() - k,
{
    if k < tokens.len() {
        let symbol = tokens[k].symbol;
        let text = token_source(symbol);
        let rest = source_from(tokens, k + 1);
        lemma_stands_split(code, i, text + seq![' '], rest);
        let found = lemma_reread_token(symbol, code, i, last);
        let next = i + text.len() + 1;
        lemma_reread(tokens, k + 1, code, next, last);
        let more = lex_from(code, next, Seq::empty(), last)->Ok_0;
        let all = seq![found] + more;
        assert(bare(all) =~= bare(tokens.subrange(k, tokens.len() as int))) by {
            let want = tokens.subrange(k, tokens.len() as int);
            let tail = tokens.subrange(k + 1, tokens.len() as int);
            assert(bare(more) == bare(tail));
            assert forall|x: int| 0 <= x < all.len() implies bare(all)[x] == bare(want)[x] by {
                if x == 0 {
                    assert(all[0] == found);
                    assert(want[0] == tokens[k]);
                } else {
                    assert(all[x] == more[x - 1]);
                    assert(bare(more)[x - 1] == bare(tail)[x - 1]);
                    assert(want[x] == tail[x - 1]);
                }
            }
        }
    } else {
        assert(bare(Seq::<SymbolDefView>::empty()) =~= bare(
            tokens.subrange(k, tokens.len() as int),
        ));
    }
}

/// Writing a plain tree and reading what was written gives the tree
/// back, but for the places of its tokens.
pub proof fn lemma_round_trip(tokens: Seq<SymbolDefView>)
    requires
        plain(tokens),
    ensures
        lex(placed(source_of(tokens))) is Ok,
        bare(lex(placed(source_of(tokens)))->Ok_0) == bare(tokens),
{
    let text = source_of(tokens);
    let code = placed(text);
    assert(stands_at(code, 0, text)) by {
        assert forall|x: int| 0 <= x < text.len() implies code[0 + x].val == #[trigger] text[x] by {}
    }
    lemma_reread(tokens, 0, code, 0, None);
    assert(tokens.subrange(0, tokens.len() as int) =~= tokens);
}

/// Reading a text, writing the tree that was read, and reading what was
/// written gives the same tree, but for the places of its tokens, where
/// the tree is a plain one.
pub proof fn lemma_read_write_read(text: Seq<char>)
    requires
        lex(placed(text)) is Ok,
        plain(lex(placed(text))->Ok_0),
    ensures
        lex(placed(source_of(lex(placed(text))->Ok_0))) is Ok,
        bare(lex(placed(source_of(lex(placed(text))->Ok_0)))->Ok_0) == bare(
            lex(placed(text))->Ok_0,
        ),
{
    lemma_round_trip(lex(placed(text))->Ok_0);
}

} // verus!
