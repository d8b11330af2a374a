use vstd::prelude::*;
use vstd::string::*;
use crate::error::{error_at, lemma_prepend_twice, prepend, SyntaxError, SyntaxErrorFactory, SyntaxErrorKind, SyntaxErrorType, SyntaxErrorView};
use crate::symbols::{lemma_block_view, symbols_view, Block, Symbol, SymbolDef, SymbolDefView, SymbolView};
use crate::text::{alphanumeric, whitespace};

verus! {

/// One character of the source with the line and column it stands at.
#[derive(Clone, Copy, Debug, PartialEq)]
pub struct CodeChar {
    pub val: char,
    pub line: usize,
    pub column: usize,
}

/// The characters of a run, without their places.
pub open spec fn codechars_text(chars: Seq<CodeChar>) -> Seq<char> {
    Seq::new(chars.len(), |i: int| chars[i].val)
}

/// The first index at or after `start` whose character is `c`, or the
/// length of `code` when there is none.
pub open spec fn find_from(code: Seq<CodeChar>, start: int, c: char) -> int
    decreases code.len() - start,
{
    if start < 0 || start >= code.len() {
        code.len() as int
    } else if code[start].val == c {
        start
    } else {
        find_from(code, start + 1, c)
    }
}

/// The first index at or after `start` whose character is `m` and is not
/// escaped, or the length of `code` when there is none. A backslash that is
/// not itself escaped escapes the character after it; `escaped` says whether
/// the character at `start` is escaped.
pub open spec fn unescaped_end(code: Seq<CodeChar>, start: int, m: char, escaped: bool) -> int
    decreases code.len() - start,
{
    if start < 0 || start >= code.len() {
        code.len() as int
    } else if escaped {
        unescaped_end(code, start + 1, m, false)
    } else if code[start].val == '\\' {
        unescaped_end(code, start + 1, m, true)
    } else if code[start].val == m {
        start
    } else {
        unescaped_end(code, start + 1, m, false)
    }
}

/// The nesting level after the character `c`, coming from `level`: `begin`
/// opens a level and `end` closes one.
pub open spec fn level_after(level: int, c: char, begin: char, end: char) -> int {
    level + (if c == begin {
        1int
    } else {
        0int
    }) - (if c == end {
        1int
    } else {
        0int
    })
}

/// The first index at or after `start` at which the nesting level, counted
/// from `level` just before `start`, reaches `target`; or the length of
/// `code` when it never does.
pub open spec fn matched_end(
    code: Seq<CodeChar>,
    start: int,
    begin: char,
    end: char,
    level: int,
    target: int,
) -> int
    decreases code.len() - start,
{
    if start < 0 || start >= code.len() {
        code.len() as int
    } else if level_after(level, code[start].val, begin, end) == target {
        start
    } else {
        matched_end(
            code,
            start + 1,
            begin,
            end,
            level_after(level, code[start].val, begin, end),
            target,
        )
    }
}

/// Where reading goes on after a delimiter found at `end`: just behind it,
/// or at the end of `code` when `end` is the end.
pub open spec fn after(code: Seq<CodeChar>, end: int) -> int {
    if end < code.len() {
        end + 1
    } else {
        code.len() as int
    }
}

pub proof fn lemma_find_from(code: Seq<CodeChar>, start: int, c: char)
    requires
        0 <= start <= code.len(),
    ensures
        start <= find_from(code, start, c) <= code.len(),
        find_from(code, start, c) < code.len() ==> code[find_from(code, start, c)].val == c,
        forall|j: int| start <= j < find_from(code, start, c) ==> code[j].val != c,
    decreases code.len() - start,
{
    if start < code.len() && code[start].val != c {
        lemma_find_from(code, start + 1, c);
    }
}

pub proof fn lemma_unescaped_end(code: Seq<CodeChar>, start: int, m: char, escaped: bool)
    requires
        0 <= start <= code.len(),
    ensures
        start <= unescaped_end(code, start, m, escaped) <= code.len(),
        unescaped_end(code, start, m, escaped) < code.len() ==> code[unescaped_end(
            code,
            start,
            m,
            escaped,
        )].val == m,
    decreases code.len() - start,
{
    if start < code.len() {
        if escaped {
            lemma_unescaped_end(code, start + 1, m, false);
        } else if code[start].val == '\\' {
            lemma_unescaped_end(code, start + 1, m, true);
        } else if code[start].val != m {
            lemma_unescaped_end(code, start + 1, m, false);
        }
    }
}

pub proof fn lemma_matched_end(
    code: Seq<CodeChar>,
    start: int,
    begin: char,
    end: char,
    level: int,
    target: int,
)
    requires
        0 <= start <= code.len(),
    ensures
        start <= matched_end(code, start, begin, end, level, target) <= code.len(),
    decreases code.len() - start,
{
    if start < code.len() && level_after(level, code[start].val, begin, end) != target {
        lemma_matched_end(
            code,
            start + 1,
            begin,
            end,
            level_after(level, code[start].val, begin, end),
            target,
        );
    }
}

pub fn codechars_to_string(chars: &[CodeChar]) -> (r: String)
    ensures
        r@ == codechars_text(chars@),
{
    let mut out = String::new();
    let mut i: usize = 0;
    while i < chars.len()
        invariant
            i <= chars.len(),
            out@ == codechars_text(chars@).take(i as int),
        decreases chars.len() - i,
    {
        out.push(chars[i].val);
        assert(codechars_text(chars@).take(i + 1) =~= codechars_text(chars@).take(i as int).push(
            chars@[i as int].val,
        ));
        i += 1;
    }
    assert(codechars_text(chars@).take(i as int) =~= codechars_text(chars@));
    out
}

/// The index of the first `c`, if there is one.
pub fn codechars_find(chars: &[CodeChar], c: char) -> (r: Option<usize>)
    ensures
        match r {
            Some(i) => i < chars@.len() && chars@[i as int].val == c && forall|j: int|
                0 <= j < i ==> chars@[j].val != c,
            None => forall|j: int| 0 <= j < chars@.len() ==> chars@[j].val != c,
        },
        match r {
            Some(i) => i == find_from(chars@, 0, c),
            None => find_from(chars@, 0, c) == chars@.len(),
        },
{
    let mut i: usize = 0;
    while i < chars.len()
        invariant
            i <= chars.len(),
            forall|j: int| 0 <= j < i ==> chars@[j].val != c,
            find_from(chars@, 0, c) == find_from(chars@, i as int, c),
        decreases chars.len() - i,
    {
        if chars[i].val == c {
            return Some(i);
        }
        i += 1;
    }
    None
}

/// Takes the characters from `*pos` up to the first `c` and moves `*pos`
/// behind that `c`; without a `c`, takes the rest and moves `*pos` to the end.
pub fn take_until(code: &[CodeChar], pos: &mut usize, c: char) -> (r: Vec<CodeChar>)
    requires
        *old(pos) <= code@.len(),
    ensures
        r@ == code@.subrange(*old(pos) as int, find_from(code@, *old(pos) as int, c)),
        *final(pos) == after(code@, find_from(code@, *old(pos) as int, c)),
{
    let mut ret: Vec<CodeChar> = Vec::new();
    let start: usize = *pos;
    let mut i: usize = start;
    proof {
        lemma_find_from(code@, start as int, c);
    }
    while i < code.len()
        invariant
            start <= i <= code.len(),
            start == *old(pos),
            ret@ == code@.subrange(start as int, i as int),
            find_from(code@, start as int, c) == find_from(code@, i as int, c),
        decreases code.len() - i,
    {
        if code[i].val == c {
            *pos = i + 1;
            return ret;
        }
        ret.push(code[i]);
        assert(ret@ =~= code@.subrange(start as int, i + 1));
        i += 1;
    }
    *pos = i;
    ret
}

/// Takes the characters from `*pos` up to the first `m` that no backslash
/// escapes and moves `*pos` behind it; without one, takes the rest.
pub fn take_until_unescaped(code: &[CodeChar], pos: &mut usize, m: char) -> (r: Vec<CodeChar>)
    requires
        *old(pos) <= code@.len(),
    ensures
        r@ == code@.subrange(
            *old(pos) as int,
            unescaped_end(code@, *old(pos) as int, m, false),
        ),
        *final(pos) == after(code@, unescaped_end(code@, *old(pos) as int, m, false)),
{
    let mut ret: Vec<CodeChar> = Vec::new();
    let mut is_esc = false;
    let start: usize = *pos;
    let mut i: usize = start;
    while i < code.len()
        invariant
            start <= i <= code.len(),
            start == *old(pos),
            ret@ == code@.subrange(start as int, i as int),
            unescaped_end(code@, start as int, m, false) == unescaped_end(
                code@,
                i as int,
                m,
                is_esc,
            ),
        decreases code.len() - i,
    {
        let other = code[i];
        if is_esc {
            is_esc = false;
        } else if other.val == '\\' {
            is_esc = true;
        } else if other.val == m {
            *pos = i + 1;
            return ret;
        }
        ret.push(other);
        assert(ret@ =~= code@.subrange(start as int, i + 1));
        i += 1;
    }
    *pos = i;
    ret
}

/// Takes the characters from `*pos` up to the one at which the nesting
/// level, which starts at 1, reaches `target_level`, and moves `*pos` behind
/// it; if the level is never reached, takes the rest.
pub fn take_until_matched(
    code: &[CodeChar],
    pos: &mut usize,
    begin: char,
    end: char,
    target_level: i32,
) -> (r: Vec<CodeChar>)
    requires
        *old(pos) <= code@.len(),
    ensures
        r@ == code@.subrange(
            *old(pos) as int,
            matched_end(code@, *old(pos) as int, begin, end, 1, target_level as int),
        ),
        *final(pos) == after(
            code@,
            matched_end(code@, *old(pos) as int, begin, end, 1, target_level as int),
        ),
{
    let mut ret: Vec<CodeChar> = Vec::new();
    let mut level: i128 = 1;
    let target: i128 = target_level as i128;
    let start: usize = *pos;
    let mut i: usize = start;
    while i < code.len()
        invariant
            start <= i <= code.len(),
            start == *old(pos),
            ret@ == code@.subrange(start as int, i as int),
            1 - (i - start) <= level <= 1 + (i - start),
            target == target_level,
            matched_end(code@, start as int, begin, end, 1, target as int) == matched_end(
                code@,
                i as int,
                begin,
                end,
                level as int,
                target as int,
            ),
        decreases code.len() - i,
    {
        let val = code[i];
        if val.val == begin {
            level = level + 1;
        }
        if val.val == end {
            level = level - 1;
        }
        if level == target {
            *pos = i + 1;
            return ret;
        }
        ret.push(val);
        assert(ret@ =~= code@.subrange(start as int, i + 1));
        i += 1;
    }
    *pos = i;
    ret
}

/// A text without the whitespace at its start.
pub open spec fn trim_start(text: Seq<char>) -> Seq<char>
    decreases text.len(),
{
    if text.len() > 0 && whitespace(text[0]) {
        trim_start(text.drop_first())
    } else {
        text
    }
}

/// A text without the whitespace at its end.
pub open spec fn trim_end(text: Seq<char>) -> Seq<char>
    decreases text.len(),
{
    if text.len() > 0 && whitespace(text.last()) {
        trim_end(text.drop_last())
    } else {
        text
    }
}

/// A text without the whitespace at its start and at its end.
pub open spec fn trimmed(text: Seq<char>) -> Seq<char> {
    trim_end(trim_start(text))
}

pub fn codechars_trimmed(chars: &[CodeChar]) -> (r: String)
    ensures
        r@ == trimmed(codechars_text(chars@)),
{
    let ghost text = codechars_text(chars@);
    let n = chars.len();
    let mut i: usize = 0;
    assert(text.subrange(0, n as int) =~= text);
    while i < n && chars[i].val.is_whitespace()
        invariant
            i <= n,
            n == chars@.len(),
            text == codechars_text(chars@),
            trim_start(text) == trim_start(text.subrange(i as int, n as int)),
        decreases n - i,
    {
        assert(text.subrange(i as int, n as int).drop_first() =~= text.subrange(i + 1, n as int));
        i += 1;
    }
    assert(trim_start(text) == text.subrange(i as int, n as int));
    let mut j: usize = n;
    while j > i && chars[j - 1].val.is_whitespace()
        invariant
            i <= j <= n,
            n == chars@.len(),
            text == codechars_text(chars@),
            trimmed(text) == trim_end(text.subrange(i as int, j as int)),
        decreases j,
    {
        assert(text.subrange(i as int, j as int).drop_last() =~= text.subrange(i as int, j - 1));
        j -= 1;
    }
    assert(trimmed(text) == text.subrange(i as int, j as int));
    let r = codechars_to_string(&chars[i..j]);
    assert(r@ =~= text.subrange(i as int, j as int));
    r
}

/// The token that a single character stands for, if it is one of the
/// operator and separator characters.
pub open spec fn simple_symbol(c: char) -> Option<SymbolView> {
    if c == '!' {
        Some(SymbolView::Define)
    } else if c == ',' {
        Some(SymbolView::Comma)
    } else if c == ';' {
        Some(SymbolView::Semicolon)
    } else if c == '>' {
        Some(SymbolView::Arrow)
    } else if c == '+' {
        Some(SymbolView::Addition)
    } else if c == '@' {
        Some(SymbolView::Receive)
    } else if c == '=' {
        Some(SymbolView::Assign)
    } else if c == '|' {
        Some(SymbolView::Modifier)
    } else {
        None
    }
}

/// Whether a token other than a word starts with this character.
pub open spec fn opens_token(c: char) -> bool {
    simple_symbol(c) is Some || c == '<' || c == '{' || c == '(' || c == '"' || c == '['
}

/// Whether the character may stand in a word.
pub open spec fn word_char(c: char) -> bool {
    plain_letter(c) || alphanumeric(c) || c == '.' || c == '@' || c == '_' || c == '-'
}

/// Whether the character is one of the unaccented letters or the digits.
pub open spec fn plain_letter(c: char) -> bool {
    ('a' <= c <= 'z') || ('A' <= c <= 'Z') || ('0' <= c <= '9')
}

/// Whether the character may stand in a word.
pub fn is_word_char(c: char) -> (r: bool)
    ensures
        r == word_char(c),
{
    ('a' <= c && c <= 'z') || ('A' <= c && c <= 'Z') || ('0' <= c && c <= '9')
        || c.is_alphanumeric() || c == '.' || c == '@' || c == '_' || c == '-'
}

/// The token that a finished word stands for: a keyword, or an identifier.
pub open spec fn word_symbol(text: Seq<char>) -> SymbolView {
    if text == seq!['i', 'f'] {
        SymbolView::If
    } else if text == seq!['e', 'l', 's', 'e'] {
        SymbolView::Else
    } else if text == seq!['e', 'l', 'i', 'f'] {
        SymbolView::ElseIf
    } else {
        SymbolView::Identifier(text)
    }
}

/// The word collected so far as a token placed at `at`, or nothing when no
/// character has been collected.
pub open spec fn pending_word(text: Seq<char>, at: CodeChar) -> Seq<SymbolDefView> {
    if text.len() > 0 {
        seq![SymbolDefView { pos: Some((at.line, at.column)), symbol: word_symbol(text) }]
    } else {
        Seq::empty()
    }
}

/// The index just behind the token that starts at `i` with a character
/// that `opens_token` accepts.
pub open spec fn token_end(code: Seq<CodeChar>, i: int) -> int {
    let v = code[i].val;
    if v == '<' {
        after(code, find_from(code, i + 1, '>'))
    } else if v == '{' {
        after(code, matched_end(code, i + 1, '{', '}', 1, 0))
    } else if v == '(' {
        after(code, matched_end(code, i + 1, '(', ')', 1, 0))
    } else if v == '[' {
        after(code, matched_end(code, i + 1, '[', ']', 1, 0))
    } else if v == '"' {
        after(code, unescaped_end(code, i + 1, '"', false))
    } else {
        i + 1
    }
}

pub proof fn lemma_token_end(code: Seq<CodeChar>, i: int)
    requires
        0 <= i < code.len(),
    ensures
        i < token_end(code, i) <= code.len(),
{
    lemma_find_from(code, i + 1, '>');
    lemma_matched_end(code, i + 1, '{', '}', 1, 0);
    lemma_matched_end(code, i + 1, '(', ')', 1, 0);
    lemma_matched_end(code, i + 1, '[', ']', 1, 0);
    lemma_unescaped_end(code, i + 1, '"', false);
}

/// The error of an opening delimiter whose closing one is missing: it is
/// reported at the end of the input.
pub open spec fn unclosed() -> SyntaxErrorView {
    error_at(None, SyntaxErrorKind::BadExpression)
}

/// The token tree of a whole run of characters, or the first error met.
///
/// Reading goes from left to right. An operator or separator character is a
/// token by itself. `{..}`, `(..)` and `[..]` take everything up to the
/// balancing closing character and hold the token tree of what is inside;
/// a `:` inside `[..]` makes it a slice, each half of which is absent when
/// blank. `"` takes everything up to the next `"` that no backslash escapes.
/// `<..>` takes everything up to the next `>` and is cut at its first
/// unescaped `@` into a name and a server. `#` drops the rest of the line.
/// Letters, digits, `.`, `_` and `-` collect into a word, which whitespace
/// or a token ends.
pub open spec fn lex(code: Seq<CodeChar>) -> Result<Seq<SymbolDefView>, SyntaxErrorView>
    decreases code.len(), code.len() + 1, 0nat,
{
    lex_from(code, 0, Seq::empty(), None)
}

/// The tokens read from index `i` on, when `text` is the word collected so
/// far and `last` the character read before `i`.
pub open spec fn lex_from(
    code: Seq<CodeChar>,
    i: int,
    text: Seq<char>,
    last: Option<CodeChar>,
) -> Result<Seq<SymbolDefView>, SyntaxErrorView>
    decreases code.len(), code.len() - i, 1nat,
{
    if i < 0 || i >= code.len() {
        match last {
            Some(c) => Ok(pending_word(text, c)),
            None => Ok(Seq::empty()),
        }
    } else {
        let c = code[i];
        let here = Some((c.line, c.column));
        if opens_token(c.val) {
            proof {
                lemma_token_end(code, i);
            }
            match lex_symbol(code, i) {
                Err(e) => Err(e),
                Ok(symbol) => prepend(
                    pending_word(text, c) + seq![SymbolDefView { pos: here, symbol }],
                    lex_from(code, token_end(code, i), Seq::empty(), Some(c)),
                ),
            }
        } else if c.val == '#' {
            proof {
                lemma_find_from(code, i + 1, '\n');
            }
            lex_from(code, after(code, find_from(code, i + 1, '\n')), text, Some(c))
        } else if whitespace(c.val) {
            prepend(pending_word(text, c), lex_from(code, i + 1, Seq::empty(), Some(c)))
        } else if word_char(c.val) {
            lex_from(code, i + 1, text.push(c.val), Some(c))
        } else {
            Err(error_at(here, SyntaxErrorKind::UnexpectedSymbol(c.val)))
        }
    }
}

/// One half of a slice: absent when it is blank, else its token tree.
pub open spec fn lex_bound(half: Seq<CodeChar>) -> Result<
    Option<Seq<SymbolDefView>>,
    SyntaxErrorView,
>
    decreases half.len(), half.len() + 2, 0nat,
{
    if trimmed(codechars_text(half)).len() == 0 {
        Ok(None)
    } else {
        match lex(half) {
            Ok(tokens) => Ok(Some(tokens)),
            Err(e) => Err(e),
        }
    }
}

/// The token that starts at `i` with a character that `opens_token`
/// accepts, or the first error met in it.
pub open spec fn lex_symbol(code: Seq<CodeChar>, i: int) -> Result<SymbolView, SyntaxErrorView>
    decreases code.len(), code.len() - i, 0nat,
{
    if i < 0 || i >= code.len() {
        Err(unclosed())
    } else {
        let c = code[i];
        let v = c.val;
        if v == '<' {
            proof {
                lemma_find_from(code, i + 1, '>');
            }
            let path = code.subrange(i + 1, find_from(code, i + 1, '>'));
            let at = unescaped_end(path, 0, '@', false);
            proof {
                lemma_unescaped_end(path, 0, '@', false);
            }
            if at >= path.len() {
                Err(error_at(Some((c.line, c.column)), SyntaxErrorKind::MalformedUserpath))
            } else {
                match lex(path.subrange(0, at)) {
                    Err(e) => Err(e),
                    Ok(name) => match lex(path.subrange(at + 1, path.len() as int)) {
                        Err(e) => Err(e),
                        Ok(server) => Ok(SymbolView::UserPath(name, server)),
                    },
                }
            }
        } else if v == '{' || v == '(' || v == '[' {
            let close = if v == '{' {
                '}'
            } else if v == '(' {
                ')'
            } else {
                ']'
            };
            let end = matched_end(code, i + 1, v, close, 1, 0);
            proof {
                lemma_matched_end(code, i + 1, v, close, 1, 0);
            }
            if end >= code.len() {
                Err(unclosed())
            } else {
                let inside = code.subrange(i + 1, end);
                let colon = find_from(inside, 0, ':');
                proof {
                    lemma_find_from(inside, 0, ':');
                }
                if v == '[' && colon < inside.len() {
                    match lex_bound(inside.subrange(0, colon)) {
                        Err(e) => Err(e),
                        Ok(first) => match lex_bound(
                            inside.subrange(colon + 1, inside.len() as int),
                        ) {
                            Err(e) => Err(e),
                            Ok(second) => Ok(SymbolView::Slice(first, second)),
                        },
                    }
                } else {
                    match lex(inside) {
                        Err(e) => Err(e),
                        Ok(tokens) => Ok(
                            if v == '{' {
                                SymbolView::CurlyBraced(tokens)
                            } else if v == '(' {
                                SymbolView::Parenthesis(tokens)
                            } else {
                                SymbolView::Index(tokens)
                            },
                        ),
                    }
                }
            }
        } else if v == '"' {
            let end = unescaped_end(code, i + 1, '"', false);
            if end >= code.len() {
                Err(unclosed())
            } else {
                Ok(SymbolView::Text(codechars_text(code.subrange(i + 1, end))))
            }
        } else {
            match simple_symbol(v) {
                Some(symbol) => Ok(symbol),
                None => Err(unclosed()),
            }
        }
    }
}

/// The value of what the lexer returns.
pub open spec fn lexed(r: Result<Vec<SymbolDef>, SyntaxError>) -> Result<
    Seq<SymbolDefView>,
    SyntaxErrorView,
> {
    match r {
        Ok(symbols) => Ok(symbols_view(symbols@)),
        Err(e) => Err(e@),
    }
}

/// Ends the word collected in `text`, if there is one: appends its token,
/// placed at `c`, to `chars` and empties `text`.
pub fn take_identifier(chars: &mut Vec<SymbolDef>, text: &mut String, c: &CodeChar)
    ensures
        symbols_view(final(chars)@) == symbols_view(old(chars)@) + pending_word(old(text)@, *c),
        final(text)@ == Seq::<char>::empty(),
{
    if !text.as_str().is_empty() {
        proof {
            reveal_strlit("if");
            reveal_strlit("else");
            reveal_strlit("elif");
            assert("if"@ =~= seq!['i', 'f']);
            assert("else"@ =~= seq!['e', 'l', 's', 'e']);
            assert("elif"@ =~= seq!['e', 'l', 'i', 'f']);
        }
        let symbol = if text.as_str().eq("if") {
            Symbol::If
        } else if text.as_str().eq("else") {
            Symbol::Else
        } else if text.as_str().eq("elif") {
            Symbol::ElseIf
        } else {
            Symbol::Identifier(text.clone())
        };
        chars.push(SymbolDef { symbol, errfactory: SyntaxErrorFactory::new(c.line, c.column) });
        *text = String::new();
        assert(symbols_view(chars@) =~= symbols_view(old(chars)@) + pending_word(old(text)@, *c));
    } else {
        assert(symbols_view(chars@) =~= symbols_view(old(chars)@) + pending_word(old(text)@, *c));
    }
}

/// Whether a token other than a word starts with this character.
pub fn starts_token(c: char) -> (r: bool)
    ensures
        r == opens_token(c),
{
    c == '!' || c == ',' || c == ';' || c == '>' || c == '+' || c == '@' || c == '=' || c == '|'
        || c == '<' || c == '{' || c == '(' || c == '"' || c == '['
}

/// One half of a slice.
fn parse_bound(half: &[CodeChar]) -> (r: Result<Option<Block>, SyntaxError>)
    ensures
        match r {
            Ok(Some(block)) => lex_bound(half@) == Ok::<_, SyntaxErrorView>(Some(block@)),
            Ok(None) => lex_bound(half@) == Ok::<Option<Seq<SymbolDefView>>, SyntaxErrorView>(None),
            Err(e) => lex_bound(half@) == Err::<Option<Seq<SymbolDefView>>, _>(e@),
        },
    decreases half@.len(), half@.len() + 2, 0nat,
{
    if codechars_trimmed(half).as_str().is_empty() {
        Ok(None)
    } else {
        match parse_code(half) {
            Ok(tokens) => {
                let block = Block(tokens);
                proof {
                    lemma_block_view(&block);
                }
                Ok(Some(block))
            },
            Err(e) => Err(e),
        }
    }
}

/// Reads the token that starts at `i`, and says where reading goes on.
pub fn read_symbol(code: &[CodeChar], i: usize) -> (r: Result<(Symbol, usize), SyntaxError>)
    requires
        i < code@.len(),
        opens_token(code@[i as int].val),
    ensures
        match r {
            Ok((symbol, next)) => lex_symbol(code@, i as int) == Ok::<_, SyntaxErrorView>(symbol@)
                && next == token_end(code@, i as int),
            Err(e) => lex_symbol(code@, i as int) == Err::<SymbolView, _>(e@),
        },
    decreases code@.len(), code@.len() - i, 0nat,
{
    let c = code[i];
    let v = c.val;
    let mut pos: usize = i + 1;
    if v == '<' {
        let path = take_until(code, &mut pos, '>');
        let mut at: usize = 0;
        let name = take_until_unescaped(path.as_slice(), &mut at, '@');
        proof {
            lemma_find_from(code@, i + 1, '>');
            lemma_unescaped_end(path@, 0, '@', false);
        }
        if at <= name.len() {
            return Err(SyntaxError::new(c.line, c.column, SyntaxErrorType::MalformedUserpath));
        }
        let a = match parse_code(name.as_slice()) {
            Ok(tokens) => Block(tokens),
            Err(e) => {
                return Err(e);
            },
        };
        let b = match parse_code(&path.as_slice()[at..path.len()]) {
            Ok(tokens) => Block(tokens),
            Err(e) => {
                return Err(e);
            },
        };
        proof {
            lemma_block_view(&a);
            lemma_block_view(&b);
        }
        Ok((Symbol::UserPath(a, b), pos))
    } else if v == '{' || v == '(' || v == '[' {
        let close = if v == '{' {
            '}'
        } else if v == '(' {
            ')'
        } else {
            ']'
        };
        let inside = take_until_matched(code, &mut pos, v, close, 0);
        proof {
            lemma_matched_end(code@, i + 1, v, close, 1, 0);
        }
        if pos <= i + 1 + inside.len() {
            return Err(SyntaxError::new_eof(SyntaxErrorType::BadExpression));
        }
        let colon = if v == '[' {
            codechars_find(inside.as_slice(), ':')
        } else {
            None
        };
        match colon {
            Some(at) => {
                let first = match parse_bound(&inside.as_slice()[0..at]) {
                    Ok(bound) => bound,
                    Err(e) => {
                        return Err(e);
                    },
                };
                let second = match parse_bound(&inside.as_slice()[at + 1..inside.len()]) {
                    Ok(bound) => bound,
                    Err(e) => {
                        return Err(e);
                    },
                };
                Ok((Symbol::Slice(first, second), pos))
            },
            None => {
                let block = match parse_code(inside.as_slice()) {
                    Ok(tokens) => Block(tokens),
                    Err(e) => {
                        return Err(e);
                    },
                };
                proof {
                    lemma_block_view(&block);
                }
                if v == '{' {
                    Ok((Symbol::CurlyBraced(block), pos))
                } else if v == '(' {
                    Ok((Symbol::Parenthesis(block), pos))
                } else {
                    Ok((Symbol::Index(block), pos))
                }
            },
        }
    } else if v == '"' {
        let inside = take_until_unescaped(code, &mut pos, '"');
        proof {
            lemma_unescaped_end(code@, i + 1, '"', false);
        }
        if pos <= i + 1 + inside.len() {
            return Err(SyntaxError::new_eof(SyntaxErrorType::BadExpression));
        }
        Ok((Symbol::Text(codechars_to_string(inside.as_slice())), pos))
    } else if v == '!' {
        Ok((Symbol::Define, pos))
    } else if v == ',' {
        Ok((Symbol::Comma, pos))
    } else if v == ';' {
        Ok((Symbol::Semicolon, pos))
    } else if v == '>' {
        Ok((Symbol::Arrow, pos))
    } else if v == '+' {
        Ok((Symbol::Addition, pos))
    } else if v == '@' {
        Ok((Symbol::Receive, pos))
    } else if v == '=' {
        Ok((Symbol::Assign, pos))
    } else {
        Ok((Symbol::Modifier, pos))
    }
}

/// Reads a run of placed characters into its token tree.
pub fn parse_code(code: &[CodeChar]) -> (r: Result<Vec<SymbolDef>, SyntaxError>)
    ensures
        lexed(r) == lex(code@),
    decreases code@.len(), code@.len() + 1, 0nat,
{
    let mut ret: Vec<SymbolDef> = Vec::new();
    let mut text = String::new();
    let mut last: Option<CodeChar> = None;
    let mut i: usize = 0;
    assert(symbols_view(ret@) + lex(code@)->Ok_0 =~= lex(code@)->Ok_0);
    while i < code.len()
        invariant
            i <= code.len(),
            lex(code@) == prepend(symbols_view(ret@), lex_from(code@, i as int, text@, last)),
        decreases code.len() - i,
    {
        let c = code[i];
        let v = c.val;
        let ghost before = symbols_view(ret@);
        let ghost word = pending_word(text@, c);
        if starts_token(v) {
            let (symbol, next) = match read_symbol(code, i) {
                Ok(found) => found,
                Err(e) => {
                    return Err(e);
                },
            };
            proof {
                lemma_token_end(code@, i as int);
            }
            take_identifier(&mut ret, &mut text, &c);
            let ghost middle = symbols_view(ret@);
            let ghost token = SymbolDefView { pos: Some((c.line, c.column)), symbol: symbol@ };
            let def = SymbolDef { symbol, errfactory: SyntaxErrorFactory::new(c.line, c.column) };
            assert(def@ == token);
            ret.push(def);
            proof {
                assert(symbols_view(ret@) =~= middle.push(token));
                assert(middle.push(token) =~= before + (word + seq![token]));
                lemma_prepend_twice(
                    before,
                    word + seq![token],
                    lex_from(code@, next as int, Seq::empty(), Some(c)),
                );
            }
            last = Some(c);
            i = next;
        } else if v == '#' {
            let mut pos: usize = i + 1;
            let _ = take_until(code, &mut pos, '\n');
            proof {
                lemma_find_from(code@, i + 1, '\n');
            }
            last = Some(c);
            i = pos;
        } else if v.is_whitespace() {
            take_identifier(&mut ret, &mut text, &c);
            proof {
                lemma_prepend_twice(
                    before,
                    word,
                    lex_from(code@, i + 1, Seq::empty(), Some(c)),
                );
            }
            last = Some(c);
            i += 1;
        } else if is_word_char(v) {
            text.push(v);
            last = Some(c);
            i += 1;
        } else {
            return Err(SyntaxError::new(c.line, c.column, SyntaxErrorType::UnexpectedSymbol(v)));
        }
    }
    if let Some(lastc) = last {
        take_identifier(&mut ret, &mut text, &lastc);
    } else {
        assert(symbols_view(ret@) + Seq::<SymbolDefView>::empty() =~= symbols_view(ret@));
    }
    Ok(ret)
}

/// The line of the character at index `i`: lines count from 1, and a line
/// break already stands on the line that it starts.
pub open spec fn line_at(text: Seq<char>, i: int) -> int
    decreases i + 1,
{
    if i < 0 {
        1
    } else {
        line_at(text, i - 1) + (if text[i] == '\n' {
            1int
        } else {
            0int
        })
    }
}

/// The column of the character at index `i`: a line break stands in column
/// 1 of the line that it starts, and the characters behind it follow.
pub open spec fn column_at(text: Seq<char>, i: int) -> int
    decreases i + 1,
{
    if i < 0 {
        0
    } else if text[i] == '\n' {
        1
    } else {
        column_at(text, i - 1) + 1
    }
}

/// The character at index `i` of a text, with its line and column.
pub open spec fn place_of(text: Seq<char>, i: int) -> CodeChar {
    CodeChar {
        val: text[i],
        line: line_at(text, i) as usize,
        column: column_at(text, i) as usize,
    }
}

/// The characters of a text, each with its line and column.
pub open spec fn placed(text: Seq<char>) -> Seq<CodeChar> {
    Seq::new(text.len(), |i: int| place_of(text, i))
}

pub proof fn lemma_place_bounds(text: Seq<char>, i: int)
    requires
        -1 <= i < text.len(),
    ensures
        1 <= line_at(text, i) <= i + 2,
        0 <= column_at(text, i) <= i + 1,
    decreases i + 1,
{
    if i >= 0 {
        lemma_place_bounds(text, i - 1);
    }
}

/// Reads a source text into its token tree.
pub fn parse_text(code: &str) -> (r: Result<Vec<SymbolDef>, SyntaxError>)
    requires
        code@.len() < usize::MAX,
    ensures
        lexed(r) == lex(placed(code@)),
{
    let mut line: usize = 1;
    let mut column: usize = 0;
    let mut chars: Vec<CodeChar> = Vec::new();
    for v in it: code.chars()
        invariant
            it.seq() == code@,
            code@.len() < usize::MAX,
            chars@ == placed(code@).take(it.index()),
            line == line_at(code@, it.index() - 1),
            column == column_at(code@, it.index() - 1),
    {
        proof {
            lemma_place_bounds(code@, it.index() - 1);
            lemma_place_bounds(code@, it.index() as int);
            assert(v == code@[it.index() as int]);
        }
        if v == '\n' {
            line += 1;
            column = 0;
        }
        column += 1;
        let ghost at = it.index() as int;
        assert(line == line_at(code@, at));
        assert(column == column_at(code@, at));
        let placed_char = CodeChar { val: v, line, column };
        assert(placed_char == place_of(code@, at));
        chars.push(placed_char);
        assert(placed(code@).take(at + 1) =~= placed(code@).take(at).push(place_of(code@, at)));
    }
    assert(placed(code@).take(code@.len() as int) =~= placed(code@));
    parse_code(chars.as_slice())
}

/// Whether the character opens a string or a bracket that must be
/// closed.
pub open spec fn must_close(c: char) -> bool {
    c == '"' || c == '{' || c == '(' || c == '['
}

/// Whether what the character at `i` opens is never closed.
pub open spec fn never_closed(code: Seq<CodeChar>, i: int) -> bool {
    let v = code[i].val;
    if v == '"' {
        unescaped_end(code, i + 1, '"', false) >= code.len()
    } else if v == '{' {
        matched_end(code, i + 1, '{', '}', 1, 0) >= code.len()
    } else if v == '(' {
        matched_end(code, i + 1, '(', ')', 1, 0) >= code.len()
    } else if v == '[' {
        matched_end(code, i + 1, '[', ']', 1, 0) >= code.len()
    } else {
        false
    }
}

/// Where reading goes on after the character at `i`: behind the token that
/// starts there, behind the comment that starts there, or at the next
/// character.
pub open spec fn next_stop(code: Seq<CodeChar>, i: int) -> int {
    if opens_token(code[i].val) {
        token_end(code, i)
    } else if code[i].val == '#' {
        after(code, find_from(code, i + 1, '\n'))
    } else {
        i + 1
    }
}

/// Whether reading, on its way from `from`, comes to stand at `to`.
pub open spec fn reaches(code: Seq<CodeChar>, from: int, to: int) -> bool
    decreases to - from,
{
    from == to || (0 <= from < to && from < code.len() && from < next_stop(code, from) <= to
        && reaches(code, next_stop(code, from), to))
}

/// A string or a bracket that is never closed is an error, reported at
/// the end of the input.
pub proof fn lemma_unclosed(code: Seq<CodeChar>, i: int, text: Seq<char>, last: Option<CodeChar>)
    requires
        0 <= i < code.len(),
        never_closed(code, i),
    ensures
        lex_from(code, i, text, last) == Err::<Seq<SymbolDefView>, _>(unclosed()),
        unclosed().pos is None,
{
    lemma_unescaped_end(code, i + 1, '"', false);
    lemma_matched_end(code, i + 1, '{', '}', 1, 0);
    lemma_matched_end(code, i + 1, '(', ')', 1, 0);
    lemma_matched_end(code, i + 1, '[', ']', 1, 0);
    assert(opens_token(code[i].val));
    assert(simple_symbol(code[i].val) is None);
    assert(lex_symbol(code, i) == Err::<SymbolView, _>(unclosed()));
}

/// An error at a place where reading comes to stand is an error of the
/// whole.
pub proof fn lemma_error_reached(
    code: Seq<CodeChar>,
    from: int,
    to: int,
    text: Seq<char>,
    last: Option<CodeChar>,
)
    requires
        reaches(code, from, to),
        0 <= to < code.len(),
        forall|t: Seq<char>, l: Option<CodeChar>| #[trigger] lex_from(code, to, t, l) is Err,
    ensures
        lex_from(code, from, text, last) is Err,
    decreases to - from,
{
    if from != to {
        let c = code[from];
        let next = next_stop(code, from);
        if opens_token(c.val) {
            lemma_error_reached(code, next, to, Seq::empty(), Some(c));
        } else if c.val == '#' {
            lemma_error_reached(code, next, to, text, Some(c));
        } else if whitespace(c.val) {
            lemma_error_reached(code, next, to, Seq::empty(), Some(c));
        } else if word_char(c.val) {
            lemma_error_reached(code, next, to, text.push(c.val), Some(c));
        }
    }
}

/// A text in which reading comes to stand at a string or a bracket that
/// is never closed has no token tree: reading it is an error, and unless
/// an earlier error is met, that error is reported at the end of the
/// input.
pub proof fn lemma_unclosed_is_error(code: Seq<CodeChar>, i: int)
    requires
        0 <= i < code.len(),
        reaches(code, 0, i),
        never_closed(code, i),
    ensures
        lex(code) is Err,
        forall|t: Seq<char>, l: Option<CodeChar>| #[trigger]
            lex_from(code, i, t, l) == Err::<Seq<SymbolDefView>, _>(unclosed()),
{
    assert forall|t: Seq<char>, l: Option<CodeChar>| #[trigger]
        lex_from(code, i, t, l) == Err::<Seq<SymbolDefView>, _>(unclosed()) by {
        lemma_unclosed(code, i, t, l);
    }
    lemma_error_reached(code, 0, i, Seq::empty(), None);
}

/// The source text of a token tree from index `i` on: the text of each
/// token, with a blank behind it.
pub open spec fn source_from(tokens: Seq<SymbolDefView>, i: int) -> Seq<char>
    decreases tokens, tokens.len() - i,
{
    if i < 0 || i >= tokens.len() {
        Seq::empty()
    } else {
        token_source(tokens[i].symbol) + seq![' '] + source_from(tokens, i + 1)
    }
}

/// The source text of a token tree.
pub open spec fn source_of(tokens: Seq<SymbolDefView>) -> Seq<char>
    decreases tokens, tokens.len() + 1,
{
    source_from(tokens, 0)
}

/// The source text of one bound of a slice: nothing for a missing one.
pub open spec fn bound_source(bound: Option<Seq<SymbolDefView>>) -> Seq<char>
    decreases bound, 0nat,
{
    match bound {
        Some(tokens) => source_of(tokens),
        None => Seq::empty(),
    }
}

/// The source text of one token.
pub open spec fn token_source(symbol: SymbolView) -> Seq<char>
    decreases symbol, 0nat,
{
    match symbol {
        SymbolView::CurlyBraced(inside) => seq!['{'] + source_of(inside) + seq!['}'],
        SymbolView::Parenthesis(inside) => seq!['('] + source_of(inside) + seq![')'],
        SymbolView::UserPath(name, server) => seq!['<'] + source_of(name) + seq!['@'] + source_of(
            server,
        ) + seq!['>'],
        SymbolView::Identifier(text) => text,
        SymbolView::Text(text) => seq!['"'] + text + seq!['"'],
        SymbolView::Comma => seq![','],
        SymbolView::Semicolon => seq![';'],
        SymbolView::Index(inside) => seq!['['] + source_of(inside) + seq![']'],
        SymbolView::Slice(first, second) => seq!['['] + bound_source(first) + seq![':']
            + bound_source(second) + seq![']'],
        SymbolView::If => seq!['i', 'f'],
        SymbolView::Else => seq!['e', 'l', 's', 'e'],
        SymbolView::ElseIf => seq!['e', 'l', 'i', 'f'],
        SymbolView::Define => seq!['!'],
        SymbolView::Arrow => seq!['>'],
        SymbolView::Addition => seq!['+'],
        SymbolView::Receive => seq!['@'],
        SymbolView::Assign => seq!['='],
        SymbolView::Modifier => seq!['|'],
    }
}

/// Writes the source text of a block behind what `out` holds.
pub fn push_block(out: &mut String, block: &Block)
    ensures
        final(out)@ == old(out)@ + source_of(block@),
    decreases block@, block@.len() + 2,
{
    proof {
        lemma_block_view(block);
    }
    push_source(out, block.0.as_slice());
}

/// Writes a block between two characters behind what `out` holds.
pub fn push_wrapped(out: &mut String, open: char, inside: &Block, close: char)
    ensures
        final(out)@ == old(out)@ + (seq![open] + source_of(inside@) + seq![close]),
    decreases inside@, inside@.len() + 3,
{
    let ghost before = out@;
    out.push(open);
    push_block(out, inside);
    out.push(close);
    assert(out@ =~= before + (seq![open] + source_of(inside@) + seq![close]));
}

/// Writes one bound of a slice behind what `out` holds.
pub fn push_bound(out: &mut String, bound: &Option<Block>)
    ensures
        final(out)@ == old(out)@ + bound_source(
            match *bound {
                Some(block) => Some(block@),
                None => None,
            },
        ),
    decreases
            (match *bound {
                Some(block) => Some(block@),
                None => None,
            }),
            0nat,
{
    match bound {
        Some(inside) => {
            proof {
                let whole = Some(inside@);
                match whole {
                    Some(tokens) => {
                        assert(decreases_to!(whole => tokens));
                    },
                    None => {},
                }
            }
            push_block(out, inside);
        },
        None => {
            assert(out@ =~= old(out)@ + Seq::<char>::empty());
        },
    }
}

/// The source text of a token that is a single sign or a keyword.
pub fn sign_source(symbol: &Symbol) -> (r: &'static str)
    requires
        !(symbol is CurlyBraced || symbol is Parenthesis || symbol is UserPath || symbol
            is Identifier || symbol is Text || symbol is Index || symbol is Slice),
    ensures
        r@ == token_source(symbol@),
{
    proof {
        reveal_strlit("if");
        reveal_strlit("else");
        reveal_strlit("elif");
        reveal_strlit(",");
        reveal_strlit(";");
        reveal_strlit("!");
        reveal_strlit(">");
        reveal_strlit("+");
        reveal_strlit("@");
        reveal_strlit("=");
        reveal_strlit("|");
    }
    let text = match symbol {
        Symbol::Comma => ",",
        Symbol::Semicolon => ";",
        Symbol::If => "if",
        Symbol::Else => "else",
        Symbol::ElseIf => "elif",
        Symbol::Define => "!",
        Symbol::Arrow => ">",
        Symbol::Addition => "+",
        Symbol::Receive => "@",
        Symbol::Assign => "=",
        _ => "|",
    };
    assert(text@ =~= token_source(symbol@));
    text
}

/// Writes the source text of one token behind what `out` holds.
pub fn push_token(out: &mut String, symbol: &Symbol)
    ensures
        final(out)@ == old(out)@ + token_source(symbol@),
    decreases symbol@, 0nat,
{
    let ghost before = out@;
    match symbol {
        Symbol::CurlyBraced(inside) => {
            proof {
                assert(decreases_to!(symbol@ => symbol@->CurlyBraced_0));
            }
            push_wrapped(out, '{', inside, '}');
        },
        Symbol::Parenthesis(inside) => {
            proof {
                assert(decreases_to!(symbol@ => symbol@->Parenthesis_0));
            }
            push_wrapped(out, '(', inside, ')');
        },
        Symbol::Index(inside) => {
            proof {
                assert(decreases_to!(symbol@ => symbol@->Index_0));
            }
            push_wrapped(out, '[', inside, ']');
        },
        Symbol::UserPath(name, server) => {
            proof {
                assert(decreases_to!(symbol@ => symbol@->UserPath_0));
                assert(decreases_to!(symbol@ => symbol@->UserPath_1));
            }
            out.push('<');
            push_block(out, name);
            out.push('@');
            push_block(out, server);
            out.push('>');
            assert(out@ =~= before + token_source(symbol@));
        },
        Symbol::Identifier(text) => {
            out.append(text.as_str());
        },
        Symbol::Text(text) => {
            out.push('"');
            out.append(text.as_str());
            out.push('"');
            assert(out@ =~= before + token_source(symbol@));
        },
        Symbol::Slice(first, second) => {
            proof {
                assert(decreases_to!(symbol@ => symbol@->Slice_0));
                assert(decreases_to!(symbol@ => symbol@->Slice_1));
            }
            out.push('[');
            push_bound(out, first);
            out.push(':');
            push_bound(out, second);
            out.push(']');
            assert(out@ =~= before + token_source(symbol@));
        },
        _ => {
            out.append(sign_source(symbol));
        },
    }
}

/// Writes the source text of a token tree behind what `out` holds.
pub fn push_source(out: &mut String, symbols: &[SymbolDef])
    ensures
        final(out)@ == old(out)@ + source_of(symbols_view(symbols@)),
    decreases symbols_view(symbols@), symbols@.len() + 1,
{
    let ghost tokens = symbols_view(symbols@);
    let ghost before = out@;
    let mut i: usize = 0;
    assert(before + source_of(tokens) =~= out@ + source_from(tokens, 0));
    while i < symbols.len()
        invariant
            i <= symbols.len(),
            tokens == symbols_view(symbols@),
            out@ + source_from(tokens, i as int) == before + source_of(tokens),
        decreases symbols.len() - i,
    {
        proof {
            assert(decreases_to!(tokens => tokens[i as int]));
            assert(decreases_to!(tokens[i as int] => tokens[i as int].symbol));
        }
        let ghost start = out@;
        push_token(out, &symbols[i].symbol);
        out.push(' ');
        assert(out@ + source_from(tokens, i + 1) =~= start + source_from(tokens, i as int));
        i += 1;
    }
    assert(out@ + source_from(tokens, i as int) =~= out@);
}

/// The source text of a token tree: reading it gives the tree back where
/// no string holds a character that ends it early.
pub fn unparse(symbols: &[SymbolDef]) -> (r: String)
    ensures
        r@ == source_of(symbols_view(symbols@)),
{
    let mut out = String::new();
    push_source(&mut out, symbols);
    assert(out@ =~= source_of(symbols_view(symbols@)));
    out
}

} // verus!
