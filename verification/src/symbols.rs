use vstd::prelude::*;
use crate::error::SyntaxErrorFactory;

verus! {

/// A run of tokens that was read as one unit: the inside of a pair of
/// delimiters, or one half of an address.
#[derive(Debug, PartialEq)]
pub struct Block(pub Vec<SymbolDef>);

#[derive(Debug, PartialEq)]
pub enum Symbol {
    // Structures
    CurlyBraced(Block),
    Parenthesis(Block),
    // Types
    UserPath(Block, Block),
    Identifier(String),
    Text(String),
    // Syntax
    Comma,
    Semicolon,
    Index(Block),
    Slice(Option<Block>, Option<Block>),
    If,
    Else,
    ElseIf,
    // Operators
    Define,
    Arrow,
    Addition,
    Receive,
    Assign,
    Modifier,
}

/// A token together with the place where it was read.
#[derive(Debug, PartialEq)]
pub struct SymbolDef {
    pub errfactory: SyntaxErrorFactory,
    pub symbol: Symbol,
}

/// The mathematical value of a `Symbol`: the same tree, over sequences.
pub enum SymbolView {
    CurlyBraced(Seq<SymbolDefView>),
    Parenthesis(Seq<SymbolDefView>),
    UserPath(Seq<SymbolDefView>, Seq<SymbolDefView>),
    Identifier(Seq<char>),
    Text(Seq<char>),
    Comma,
    Semicolon,
    Index(Seq<SymbolDefView>),
    Slice(Option<Seq<SymbolDefView>>, Option<Seq<SymbolDefView>>),
    If,
    Else,
    ElseIf,
    Define,
    Arrow,
    Addition,
    Receive,
    Assign,
    Modifier,
}

/// The mathematical value of a `SymbolDef`.
pub struct SymbolDefView {
    pub pos: Option<(usize, usize)>,
    pub symbol: SymbolView,
}

impl Block {
    pub open spec fn model(&self) -> Seq<SymbolDefView>
        decreases self,
    {
        Seq::new(
            self.0.len() as nat,
            |i: int|
                if 0 <= i < self.0.len() {
                    self.0[i].model()
                } else {
                    SymbolDefView { pos: None, symbol: SymbolView::Comma }
                },
        )
    }
}

impl Symbol {
    pub open spec fn model(&self) -> SymbolView
        decreases self,
    {
        match self {
            Symbol::CurlyBraced(b) => SymbolView::CurlyBraced(b.model()),
            Symbol::Parenthesis(b) => SymbolView::Parenthesis(b.model()),
            Symbol::UserPath(a, b) => SymbolView::UserPath(a.model(), b.model()),
            Symbol::Identifier(s) => SymbolView::Identifier(s@),
            Symbol::Text(s) => SymbolView::Text(s@),
            Symbol::Comma => SymbolView::Comma,
            Symbol::Semicolon => SymbolView::Semicolon,
            Symbol::Index(b) => SymbolView::Index(b.model()),
            Symbol::Slice(a, b) => SymbolView::Slice(
                match a {
                    Some(x) => Some(x.model()),
                    None => None,
                },
                match b {
                    Some(x) => Some(x.model()),
                    None => None,
                },
            ),
            Symbol::If => SymbolView::If,
            Symbol::Else => SymbolView::Else,
            Symbol::ElseIf => SymbolView::ElseIf,
            Symbol::Define => SymbolView::Define,
            Symbol::Arrow => SymbolView::Arrow,
            Symbol::Addition => SymbolView::Addition,
            Symbol::Receive => SymbolView::Receive,
            Symbol::Assign => SymbolView::Assign,
            Symbol::Modifier => SymbolView::Modifier,
        }
    }
}

impl SymbolDef {
    pub open spec fn model(&self) -> SymbolDefView
        decreases self,
    {
        SymbolDefView { pos: self.errfactory.pos, symbol: self.symbol.model() }
    }
}

impl View for Block {
    type V = Seq<SymbolDefView>;

    open spec fn view(&self) -> Seq<SymbolDefView> {
        self.model()
    }
}

impl View for Symbol {
    type V = SymbolView;

    open spec fn view(&self) -> SymbolView {
        self.model()
    }
}

impl View for SymbolDef {
    type V = SymbolDefView;

    open spec fn view(&self) -> SymbolDefView {
        self.model()
    }
}

/// A copy of every token of `symbols`, in order.
pub fn clone_symbols(symbols: &Vec<SymbolDef>) -> (r: Vec<SymbolDef>)
    ensures
        symbols_view(r@) == symbols_view(symbols@),
    decreases symbols,
{
    let mut out: Vec<SymbolDef> = Vec::new();
    let mut i: usize = 0;
    while i < symbols.len()
        invariant
            i <= symbols.len(),
            out.len() == i,
            forall|j: int| 0 <= j < i ==> out[j]@ == symbols[j]@,
        decreases symbols.len() - i,
    {
        proof {
            assert(decreases_to!(*symbols => symbols[i as int]));
        }
        let copy = symbols[i].clone();
        out.push(copy);
        i += 1;
    }
    assert(symbols_view(out@) =~= symbols_view(symbols@));
    out
}

/// A copy of every token of a slice, in order.
pub fn symbols_to_vec(symbols: &[SymbolDef]) -> (r: Vec<SymbolDef>)
    ensures
        symbols_view(r@) == symbols_view(symbols@),
{
    let mut out: Vec<SymbolDef> = Vec::new();
    let mut i: usize = 0;
    while i < symbols.len()
        invariant
            i <= symbols.len(),
            out.len() == i,
            forall|j: int| 0 <= j < i ==> out[j]@ == symbols[j]@,
        decreases symbols.len() - i,
    {
        let copy = symbols[i].clone();
        out.push(copy);
        i += 1;
    }
    assert(symbols_view(out@) =~= symbols_view(symbols@));
    out
}

impl Clone for Block {
    fn clone(&self) -> (r: Self)
        ensures
            r@ == self@,
        decreases self,
    {
        let r = Block(clone_symbols(&self.0));
        proof {
            lemma_block_view(self);
            lemma_block_view(&r);
        }
        r
    }
}

impl Clone for Symbol {
    fn clone(&self) -> (r: Self)
        ensures
            r@ == self@,
        decreases self,
    {
        match self {
            Symbol::CurlyBraced(b) => Symbol::CurlyBraced(b.clone()),
            Symbol::Parenthesis(b) => Symbol::Parenthesis(b.clone()),
            Symbol::UserPath(a, b) => Symbol::UserPath(a.clone(), b.clone()),
            Symbol::Identifier(s) => Symbol::Identifier(s.clone()),
            Symbol::Text(s) => Symbol::Text(s.clone()),
            Symbol::Comma => Symbol::Comma,
            Symbol::Semicolon => Symbol::Semicolon,
            Symbol::Index(b) => Symbol::Index(b.clone()),
            Symbol::Slice(a, b) => Symbol::Slice(
                match a {
                    Some(x) => Some(x.clone()),
                    None => None,
                },
                match b {
                    Some(x) => Some(x.clone()),
                    None => None,
                },
            ),
            Symbol::If => Symbol::If,
            Symbol::Else => Symbol::Else,
            Symbol::ElseIf => Symbol::ElseIf,
            Symbol::Define => Symbol::Define,
            Symbol::Arrow => Symbol::Arrow,
            Symbol::Addition => Symbol::Addition,
            Symbol::Receive => Symbol::Receive,
            Symbol::Assign => Symbol::Assign,
            Symbol::Modifier => Symbol::Modifier,
        }
    }
}

impl Clone for SymbolDef {
    fn clone(&self) -> (r: Self)
        ensures
            r@ == self@,
        decreases self,
    {
        SymbolDef { errfactory: self.errfactory, symbol: self.symbol.clone() }
    }
}

/// How an operator binds: its rank (a higher rank splits first), and
/// whether it wants a value on its left and on its right. A left-to-right
/// operator yields to an earlier one of the same rank, a right-to-left one
/// to a later one.
#[derive(Clone, Copy, Debug, PartialEq)]
pub enum OperatorType {
    LeftToRight(usize, bool, bool),
    RightToLeft(usize, bool, bool),
    Neither,
}

impl OperatorType {
    /// Whether this operator replaces a best-so-far of rank `other`.
    pub open spec fn beats(&self, other: usize) -> bool {
        match *self {
            OperatorType::LeftToRight(val, _, _) => val > other,
            OperatorType::RightToLeft(val, _, _) => val >= other,
            OperatorType::Neither => false,
        }
    }

    pub open spec fn rank(&self) -> usize {
        match *self {
            OperatorType::LeftToRight(val, _, _) => val,
            OperatorType::RightToLeft(val, _, _) => val,
            OperatorType::Neither => 0,
        }
    }

    pub open spec fn wants_left(&self) -> bool {
        match *self {
            OperatorType::LeftToRight(_, l, _) => l,
            OperatorType::RightToLeft(_, l, _) => l,
            OperatorType::Neither => false,
        }
    }

    pub open spec fn wants_right(&self) -> bool {
        match *self {
            OperatorType::LeftToRight(_, _, r) => r,
            OperatorType::RightToLeft(_, _, r) => r,
            OperatorType::Neither => false,
        }
    }

    pub fn compare(&self, other: usize) -> (r: bool)
        ensures
            r == self.beats(other),
    {
        match *self {
            OperatorType::LeftToRight(val, _, _) => val > other,
            OperatorType::RightToLeft(val, _, _) => val >= other,
            OperatorType::Neither => false,
        }
    }

    pub fn get(&self) -> (r: usize)
        ensures
            r == self.rank(),
    {
        match *self {
            OperatorType::LeftToRight(val, _, _) => val,
            OperatorType::RightToLeft(val, _, _) => val,
            OperatorType::Neither => 0,
        }
    }

    pub fn is_op(&self) -> (r: bool)
        ensures
            r == !(*self is Neither),
    {
        if let OperatorType::Neither = *self {
            false
        } else {
            true
        }
    }

    pub fn preval(&self) -> (r: bool)
        ensures
            r == self.wants_left(),
    {
        match *self {
            OperatorType::LeftToRight(_, l, _) => l,
            OperatorType::RightToLeft(_, l, _) => l,
            OperatorType::Neither => false,
        }
    }

    pub fn postval(&self) -> (r: bool)
        ensures
            r == self.wants_right(),
    {
        match *self {
            OperatorType::LeftToRight(_, _, r) => r,
            OperatorType::RightToLeft(_, _, r) => r,
            OperatorType::Neither => false,
        }
    }
}

/// The binding of each token: assignment, then the mail arrow, then
/// concatenation split first; the modifier pipe, indexing and slicing, and
/// the environment read bind tightest. Every other token is no operator.
pub open spec fn operator_of(symbol: SymbolView) -> OperatorType {
    match symbol {
        SymbolView::Assign => OperatorType::LeftToRight(1002, true, true),
        SymbolView::Arrow => OperatorType::LeftToRight(1001, true, true),
        SymbolView::Addition => OperatorType::LeftToRight(1000, true, true),
        SymbolView::Modifier => OperatorType::RightToLeft(3, true, true),
        SymbolView::Slice(_, _) => OperatorType::RightToLeft(2, true, false),
        SymbolView::Index(_) => OperatorType::RightToLeft(2, true, false),
        SymbolView::Receive => OperatorType::LeftToRight(1, false, true),
        _ => OperatorType::Neither,
    }
}

impl SymbolDef {
    pub fn get_operator(&self) -> (r: OperatorType)
        ensures
            r == operator_of(self@.symbol),
    {
        match self.symbol {
            Symbol::Assign => OperatorType::LeftToRight(1002, true, true),
            Symbol::Arrow => OperatorType::LeftToRight(1001, true, true),
            Symbol::Addition => OperatorType::LeftToRight(1000, true, true),
            Symbol::Modifier => OperatorType::RightToLeft(3, true, true),
            Symbol::Slice(_, _) => OperatorType::RightToLeft(2, true, false),
            Symbol::Index(_) => OperatorType::RightToLeft(2, true, false),
            Symbol::Receive => OperatorType::LeftToRight(1, false, true),
            _ => OperatorType::Neither,
        }
    }
}

/// The pieces of `tokens` between the tokens equal to `separator`, in order.
pub open spec fn split_on(tokens: Seq<SymbolDefView>, separator: SymbolView) -> Seq<Seq<SymbolDefView>>
    decreases tokens.len(),
{
    if tokens.len() == 0 {
        seq![Seq::empty()]
    } else {
        let before = split_on(tokens.drop_last(), separator);
        if tokens.last().symbol == separator {
            before.push(Seq::empty())
        } else {
            before.drop_last().push(before.last().push(tokens.last()))
        }
    }
}

/// The values of several runs of tokens.
pub open spec fn pieces_view(pieces: Seq<Vec<SymbolDef>>) -> Seq<Seq<SymbolDefView>> {
    Seq::new(pieces.len(), |i: int| symbols_view(pieces[i]@))
}

/// Cuts a run of tokens at every comma, or with `at_commas` false at every
/// terminator, into the pieces between them.
pub fn split_symbols(symbols: &[SymbolDef], at_commas: bool) -> (r: Vec<Vec<SymbolDef>>)
    ensures
        pieces_view(r@) == split_on(
            symbols_view(symbols@),
            if at_commas {
                SymbolView::Comma
            } else {
                SymbolView::Semicolon
            },
        ),
{
    let ghost separator = if at_commas {
        SymbolView::Comma
    } else {
        SymbolView::Semicolon
    };
    let ghost tokens = symbols_view(symbols@);
    let mut ret: Vec<Vec<SymbolDef>> = Vec::new();
    let mut vec: Vec<SymbolDef> = Vec::new();
    let mut i: usize = 0;
    assert(tokens.take(0) =~= Seq::empty());
    assert(symbols_view(vec@) =~= Seq::empty());
    assert(pieces_view(ret@).push(symbols_view(vec@)) =~= seq![Seq::<SymbolDefView>::empty()]);
    while i < symbols.len()
        invariant
            i <= symbols.len(),
            tokens == symbols_view(symbols@),
            separator == (if at_commas {
                SymbolView::Comma
            } else {
                SymbolView::Semicolon
            }),
            split_on(tokens.take(i as int), separator) == pieces_view(ret@).push(
                symbols_view(vec@),
            ),
        decreases symbols.len() - i,
    {
        let ghost before = split_on(tokens.take(i as int), separator);
        let ghost old_ret = pieces_view(ret@);
        let ghost old_vec = symbols_view(vec@);
        proof {
            assert(tokens.take(i + 1).drop_last() =~= tokens.take(i as int));
            assert(tokens.take(i + 1).last() == symbols@[i as int]@);
            assert(before.last() == old_vec);
            assert(before.drop_last() =~= old_ret);
        }
        let is_separator = match symbols[i].symbol {
            Symbol::Comma => at_commas,
            Symbol::Semicolon => !at_commas,
            _ => false,
        };
        assert(is_separator == (symbols@[i as int]@.symbol == separator));
        if is_separator {
            ret.push(vec);
            vec = Vec::new();
            proof {
                assert(pieces_view(ret@) =~= old_ret.push(old_vec));
                assert(symbols_view(vec@) =~= Seq::empty());
            }
        } else {
            vec.push(symbols[i].clone());
            proof {
                assert(symbols_view(vec@) =~= old_vec.push(symbols@[i as int]@));
            }
        }
        i += 1;
    }
    assert(tokens.take(i as int) =~= tokens);
    ret.push(vec);
    assert(pieces_view(ret@) =~= split_on(tokens, separator));
    ret
}

impl Block {
    pub fn is_comma_delimited(&self) -> (r: bool)
        ensures
            r == has_comma(self@),
    {
        let mut i: usize = 0;
        while i < self.0.len()
            invariant
                i <= self.0.len(),
                forall|j: int| 0 <= j < i ==> !(#[trigger] self@[j].symbol is Comma),
            decreases self.0.len() - i,
        {
            if let Symbol::Comma = self.0[i].symbol {
                assert(self@[i as int].symbol is Comma);
                return true;
            }
            assert(!(self@[i as int].symbol is Comma));
            i += 1;
        }
        false
    }

    pub fn split_commas(&self) -> (r: Vec<Vec<SymbolDef>>)
        ensures
            pieces_view(r@) == split_on(self@, SymbolView::Comma),
    {
        proof {
            lemma_block_view(self);
        }
        split_symbols(self.0.as_slice(), true)
    }
}

/// Whether some token of the run is a comma.
pub open spec fn has_comma(tokens: Seq<SymbolDefView>) -> bool {
    exists|j: int| 0 <= j < tokens.len() && #[trigger] tokens[j].symbol is Comma
}

/// The values of a run of tokens, in order.
pub open spec fn symbols_view(symbols: Seq<SymbolDef>) -> Seq<SymbolDefView> {
    Seq::new(symbols.len(), |i: int| symbols[i]@)
}

/// A block's value is the values of its tokens.
pub proof fn lemma_block_view(block: &Block)
    ensures
        block@ == symbols_view(block.0@),
{
    assert(block.model() =~= symbols_view(block.0@));
}

} // verus!
