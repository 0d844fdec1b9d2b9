use crate::node::{lemma_call_view, lemma_trees_view_empty, lemma_trees_view_push, opt_view, trees_view, ASTNode, Tree};
use crate::token::{toks_view, Tok, Token, TokenKind};
use crate::utils::some;
use vstd::prelude::*;

verus! {

/// Why a token sequence is not a formula.
#[derive(Clone, Copy, Debug, PartialEq, Eq, Structural)]
pub enum ParseError {
    UnexpectedToken,
    UnexpectedEof,
    /// The two sides of a `:` do not make a range.
    InvalidRange,
    UnmatchedParenthesis,
    /// A sheet marker followed by neither a cell, a column name nor a row.
    InvalidCrossSheetReference,
    /// A sheet name not followed by `!`.
    ExpectedCrossSheetMarker,
}

/// The result of parsing from a position: the tree and the offset of its
/// last token from that position.
pub type Parsed = Result<(Tree, nat), ParseError>;

/// The operators of the binary precedence levels, loosest first:
/// comparison, `&`, `+ -`, `* /`.
pub open spec fn level_op(level: nat, k: TokenKind) -> bool {
    if level == 0 {
        k == TokenKind::Ee || k == TokenKind::Ne || k == TokenKind::Gt || k == TokenKind::Lt || k
            == TokenKind::Gte || k == TokenKind::Lte
    } else if level == 1 {
        k == TokenKind::And
    } else if level == 2 {
        k == TokenKind::Plus || k == TokenKind::Minus
    } else {
        k == TokenKind::Mul || k == TokenKind::Div
    }
}

/// `p` with its offset moved by `by`.
pub open spec fn shifted<A>(p: Result<(A, nat), ParseError>, by: int) -> Result<(A, nat), ParseError> {
    match p {
        Ok((x, c)) => Ok((x, (c + by) as nat)),
        Err(e) => Err(e),
    }
}

/// How many tokens lie at or after `i`.
pub open spec fn tokens_left(t: Seq<Tok>, i: int) -> nat {
    if i < t.len() {
        (t.len() - i) as nat
    } else {
        0
    }
}

/// How many binary levels lie below `level`.
pub open spec fn looseness(level: nat) -> nat {
    if level >= 3 {
        0
    } else {
        (3 - level) as nat
    }
}

/// A binary level: an operand, then any number of (operator, operand) pairs
/// folded to the left.
pub open spec fn p_level(t: Seq<Tok>, i: int, level: nat) -> Parsed
    decreases tokens_left(t, i), 8 + 4 * looseness(level),
{
    match p_operand(t, i, level) {
        Err(e) => Err(e),
        Ok((x, e)) => match p_rest(t, i + e + 1, level, x) {
            Err(err) => Err(err),
            Ok((y, c)) => Ok((y, e + c)),
        },
    }
}

/// The (operator, operand) pairs of a level from `j` on, folded onto `acc`;
/// the offset counts the tokens they take.
pub open spec fn p_rest(t: Seq<Tok>, j: int, level: nat, acc: Tree) -> Parsed
    decreases tokens_left(t, j), 7 + 4 * looseness(level),
{
    if 0 <= j < t.len() && level_op(level, t[j].kind()) {
        match p_operand(t, j + 1, level) {
            Err(e) => Err(e),
            Ok((r, e)) => match p_rest(
                t,
                j + e + 2,
                level,
                Tree::BinaryOp(t[j], Box::new(acc), Box::new(r)),
            ) {
                Err(err) => Err(err),
                Ok((y, c)) => Ok((y, c + e + 2)),
            },
        }
    } else {
        Ok((acc, 0))
    }
}

/// The operand of a level: the next tighter level, or a factor.
pub open spec fn p_operand(t: Seq<Tok>, i: int, level: nat) -> Parsed
    decreases tokens_left(t, i), 6 + 4 * looseness(level),
{
    if level >= 3 {
        p_factor(t, i)
    } else {
        p_level(t, i, level + 1)
    }
}

/// An optional unary sign applied to a range expression.
pub open spec fn p_factor(t: Seq<Tok>, i: int) -> Parsed
    decreases tokens_left(t, i), 5nat,
{
    if i < 0 || i >= t.len() {
        Err(ParseError::UnexpectedEof)
    } else if t[i] is Plus || t[i] is Minus {
        match p_range(t, i + 1) {
            Err(e) => Err(e),
            Ok((x, e)) => Ok((Tree::SignedNumber(t[i] is Minus, Box::new(x)), e + 1)),
        }
    } else {
        p_range(t, i)
    }
}

/// An atom, and a range when a `:` follows it.
pub open spec fn p_range(t: Seq<Tok>, i: int) -> Parsed
    decreases tokens_left(t, i), 4nat,
{
    match p_atom(t, i) {
        Err(e) => Err(e),
        Ok((left, e)) => {
            let j = i + e + 1;
            if 0 <= j < t.len() && t[j] is Colon {
                let k = j + 1;
                match left {
                    Tree::Var(_) => shifted(p_row_or_col(t, k, left, None), e + 2 as int),
                    Tree::Number(_) => shifted(p_row_or_col(t, k, left, None), e + 2 as int),
                    Tree::UndeterminedRange(sheet, anchor) => shifted(
                        p_row_or_col(t, k, *anchor, Some(sheet)),
                        e + 2 as int,
                    ),
                    Tree::Ref(_, _) => match p_atom(t, k) {
                        Err(err) => Err(err),
                        Ok((right, e2)) => if right is Ref {
                            Ok((Tree::Range(Box::new(left), Box::new(right)), e + e2 + 2))
                        } else {
                            Err(ParseError::InvalidRange)
                        },
                    },
                    _ => Err(ParseError::InvalidRange),
                }
            } else {
                Ok((left, e))
            }
        },
    }
}

/// A row or column range whose right side is at `k`; the offset is taken
/// from `k`.
pub open spec fn p_row_or_col(t: Seq<Tok>, k: int, left: Tree, sheet: Option<Seq<char>>) -> Parsed
    decreases tokens_left(t, k), 3nat,
{
    match left {
        Tree::Number(from) => match p_atom(t, k) {
            Err(e) => Err(e),
            Ok((Tree::Number(to), e)) => Ok((Tree::RowRange(from, to, sheet), e)),
            Ok(_) => Err(ParseError::InvalidRange),
        },
        Tree::Var(from) => match p_atom(t, k) {
            Err(e) => Err(e),
            Ok((Tree::Var(to), e)) => Ok((Tree::ColRange(from, to, sheet), e)),
            Ok(_) => Err(ParseError::InvalidRange),
        },
        _ => Err(ParseError::InvalidRange),
    }
}

/// A literal, a reference, a parenthesized formula, a call or a
/// sheet-qualified reference.
pub open spec fn p_atom(t: Seq<Tok>, i: int) -> Parsed
    decreases tokens_left(t, i), 2nat,
{
    if i < 0 || i >= t.len() {
        Err(ParseError::UnexpectedEof)
    } else {
        match t[i] {
            Tok::Number(n) => Ok((Tree::Number(n), 0)),
            Tok::String(s) => Ok((Tree::String(s), 0)),
            Tok::Bool(b) => Ok((Tree::Bool(b), 0)),
            Tok::Ref(r) => Ok((Tree::Ref(r, None), 0)),
            Tok::Lparen => p_paren(t, i),
            Tok::Var(v) => if i + 1 < t.len() && t[i + 1] is Lparen {
                p_call(t, i, v)
            } else {
                Ok((Tree::Var(v), 0))
            },
            Tok::Sheet(sheet) => p_sheet(t, i, sheet),
            _ => Err(ParseError::UnexpectedToken),
        }
    }
}

/// A formula in parentheses, whose `(` is at `i`.
pub open spec fn p_paren(t: Seq<Tok>, i: int) -> Parsed
    decreases tokens_left(t, i), 1nat,
{
    if i < 0 || i >= t.len() {
        Err(ParseError::UnexpectedEof)
    } else {
        match p_level(t, i + 1, 0) {
            Err(e) => Err(e),
            Ok((x, e)) => if i + e + 2 < t.len() && t[i + e + 2] is Rparen {
                Ok((x, e + 2))
            } else {
                Err(ParseError::UnmatchedParenthesis)
            },
        }
    }
}

/// A call of `name`, which stands at `i`, with its `(` at `i + 1`.
pub open spec fn p_call(t: Seq<Tok>, i: int, name: Seq<char>) -> Parsed
    decreases tokens_left(t, i), 1nat,
{
    if i < 0 || i >= t.len() {
        Err(ParseError::UnexpectedEof)
    } else {
        match p_args(t, i + 2, Seq::empty()) {
            Err(e) => Err(e),
            Ok((args, e)) => Ok((Tree::Call(name, args), e + 2)),
        }
    }
}

/// What follows the sheet name `sheet` at `i`: the marker `!`, then a cell,
/// a column name or a row number.
pub open spec fn p_sheet(t: Seq<Tok>, i: int, sheet: Seq<char>) -> Parsed {
    if i + 1 >= t.len() {
        Err(ParseError::UnexpectedEof)
    } else if !(t[i + 1] is Csref) {
        Err(ParseError::ExpectedCrossSheetMarker)
    } else if i + 2 >= t.len() {
        Err(ParseError::UnexpectedEof)
    } else {
        match t[i + 2] {
            Tok::Ref(r) => Ok((Tree::Ref(r, Some(sheet)), 2)),
            Tok::Var(v) => Ok((Tree::UndeterminedRange(sheet, Box::new(Tree::Var(v))), 2)),
            Tok::Number(n) => Ok((Tree::UndeterminedRange(sheet, Box::new(Tree::Number(n))), 2)),
            _ => Err(ParseError::InvalidCrossSheetReference),
        }
    }
}

/// The arguments of a call from `j` on, after those in `acc`, up to the
/// closing parenthesis; the offset is that of the closing parenthesis.
pub open spec fn p_args(t: Seq<Tok>, j: int, acc: Seq<Tree>) -> Result<
    (Seq<Tree>, nat),
    ParseError,
>
    decreases tokens_left(t, j), 25nat,
{
    if j < 0 || j >= t.len() {
        Err(ParseError::UnexpectedEof)
    } else if t[j] is Rparen {
        Ok((acc, 0))
    } else if t[j] is Comma {
        match p_args(t, j + 1, acc) {
            Err(e) => Err(e),
            Ok((a, c)) => Ok((a, c + 1)),
        }
    } else {
        match p_level(t, j, 0) {
            Err(e) => Err(e),
            Ok((x, e)) => match p_args(t, j + e + 1, acc.push(x)) {
                Err(err) => Err(err),
                Ok((a, c)) => Ok((a, c + e + 1)),
            },
        }
    }
}

/// The syntax tree of a token sequence: a comparison-level formula from its
/// first token.
pub open spec fn parse_tokens(t: Seq<Tok>) -> Result<Tree, ParseError> {
    match p_level(t, 0, 0) {
        Ok((x, _)) => Ok(x),
        Err(e) => Err(e),
    }
}

/// `r` is what the spec result `p` says, for a parse that started at `i`:
/// the same tree, ending after its last token, or the same error.
pub open spec fn parsed_as(r: Result<(ASTNode, usize), ParseError>, i: int, p: Parsed) -> bool {
    match p {
        Ok((x, e)) => r matches Ok((n, j)) && n@ == x && j == i + e + 1,
        Err(err) => r matches Err(f) && f == err,
    }
}

/// Builds a syntax tree from a token sequence by recursive descent.
#[derive(Debug)]
pub struct Parser {
    tokens: Vec<Token>,
    compare_op: Vec<Token>,
    and_op: Vec<Token>,
    arith_op: Vec<Token>,
    term_op: Vec<Token>,
}

impl Parser {
    /// The operator tables hold the operators of their levels.
    pub closed spec fn wf(&self) -> bool {
        &&& self.compare_op@ == seq![
            Token::Ee,
            Token::Ne,
            Token::Gt,
            Token::Lt,
            Token::Gte,
            Token::Lte,
        ]
        &&& self.and_op@ == seq![Token::And]
        &&& self.arith_op@ == seq![Token::Plus, Token::Minus]
        &&& self.term_op@ == seq![Token::Mul, Token::Div]
    }

    spec fn tv(&self) -> Seq<Tok> {
        toks_view(self.tokens@)
    }

    /// A parser with its operator tables and no tokens.
    pub fn new() -> (r: Parser)
        ensures
            r.wf(),
    {
        let compare_op = vec![Token::Ee, Token::Ne, Token::Gt, Token::Lt, Token::Gte, Token::Lte];
        let and_op = vec![Token::And];
        let arith_op = vec![Token::Plus, Token::Minus];
        let term_op = vec![Token::Mul, Token::Div];
        assert(compare_op@ =~= seq![
            Token::Ee,
            Token::Ne,
            Token::Gt,
            Token::Lt,
            Token::Gte,
            Token::Lte,
        ]);
        assert(and_op@ =~= seq![Token::And]);
        assert(arith_op@ =~= seq![Token::Plus, Token::Minus]);
        assert(term_op@ =~= seq![Token::Mul, Token::Div]);
        Parser { tokens: Vec::new(), compare_op, and_op, arith_op, term_op }
    }

    /// The syntax tree of `tokens`, or the first error met.
    pub fn parse(&mut self, tokens: Vec<Token>) -> (r: Result<ASTNode, ParseError>)
        requires
            old(self).wf(),
        ensures
            final(self).wf(),
            match parse_tokens(toks_view(tokens@)) {
                Ok(x) => r matches Ok(n) && n@ == x,
                Err(e) => r matches Err(f) && f == e,
            },
    {
        self.tokens = tokens;
        match self.compare_expr(0) {
            Ok((n, _)) => Ok(n),
            Err(e) => Err(e),
        }
    }

    /// Whether `tok` is an operator of the binary level `level`.
    fn is_level_op(&self, level: u8, tok: &Token) -> (r: bool)
        requires
            self.wf(),
        ensures
            r == level_op(level as nat, tok@.kind()),
    {
        let ops = if level == 0 {
            &self.compare_op
        } else if level == 1 {
            &self.and_op
        } else if level == 2 {
            &self.arith_op
        } else {
            &self.term_op
        };
        let same_kind = |t: &Token| -> (b: bool)
            ensures
                b == (t@.kind() == tok@.kind()),
            { t.matches(tok) };
        let r = some(ops, same_kind);
        proof {
            if !r {
                assert forall|k: int| 0 <= k < ops@.len() implies ops@[k]@.kind() != tok@.kind() by {
                    assert(ops@[k] == ops[k]);
                }
            }
            if level == 0 {
                assert(ops@[0]@.kind() == TokenKind::Ee);
                assert(ops@[1]@.kind() == TokenKind::Ne);
                assert(ops@[2]@.kind() == TokenKind::Gt);
                assert(ops@[3]@.kind() == TokenKind::Lt);
                assert(ops@[4]@.kind() == TokenKind::Gte);
                assert(ops@[5]@.kind() == TokenKind::Lte);
            } else if level == 1 {
                assert(ops@[0]@.kind() == TokenKind::And);
            } else if level == 2 {
                assert(ops@[0]@.kind() == TokenKind::Plus);
                assert(ops@[1]@.kind() == TokenKind::Minus);
            } else {
                assert(ops@[0]@.kind() == TokenKind::Mul);
                assert(ops@[1]@.kind() == TokenKind::Div);
            }
        }
        r
    }

    /// A formula at the loosest level, from position `i`.
    fn compare_expr(&self, i: usize) -> (r: Result<(ASTNode, usize), ParseError>)
        requires
            self.wf(),
            i <= self.tokens.len(),
        ensures
            parsed_as(r, i as int, p_level(self.tv(), i as int, 0)),
            r matches Ok((_, j)) ==> j <= self.tokens.len(),
        decreases tokens_left(self.tv(), i as int), 21nat,
    {
        self.binary_expr(i, 0)
    }

    /// The binary level `level` from position `i`.
    fn binary_expr(&self, i: usize, level: u8) -> (r: Result<(ASTNode, usize), ParseError>)
        requires
            self.wf(),
            i <= self.tokens.len(),
            level <= 3,
        ensures
            parsed_as(r, i as int, p_level(self.tv(), i as int, level as nat)),
            r matches Ok((_, j)) ==> j <= self.tokens.len(),
        decreases tokens_left(self.tv(), i as int), 8 + 4 * looseness(level as nat),
    {
        let ghost t = self.tv();
        let n = self.tokens.len();
        let (mut node, mut j) = match self.operand(i, level) {
            Err(e) => {
                return Err(e);
            },
            Ok(p) => p,
        };
        while j < n && self.is_level_op(level, &self.tokens[j])
            invariant
                self.wf(),
                t == self.tv(),
                n == self.tokens.len(),
                t.len() == n,
                i < j <= n,
                level <= 3,
                p_level(t, i as int, level as nat) == shifted(
                    p_rest(t, j as int, level as nat, node@),
                    j - i - 1,
                ),
            decreases n - j,
        {
            let op = self.tokens[j].duplicate();
            match self.operand(j + 1, level) {
                Err(e) => {
                    return Err(e);
                },
                Ok((right, k)) => {
                    node = ASTNode::BinaryOp(op, Box::new(node), Box::new(right));
                    j = k;
                },
            }
        }
        Ok((node, j))
    }

    /// The operand of the binary level `level`.
    fn operand(&self, i: usize, level: u8) -> (r: Result<(ASTNode, usize), ParseError>)
        requires
            self.wf(),
            i <= self.tokens.len(),
            level <= 3,
        ensures
            parsed_as(r, i as int, p_operand(self.tv(), i as int, level as nat)),
            r matches Ok((_, j)) ==> j <= self.tokens.len(),
        decreases tokens_left(self.tv(), i as int), 6 + 4 * looseness(level as nat),
    {
        if level >= 3 {
            self.factor_expr(i)
        } else {
            self.binary_expr(i, level + 1)
        }
    }

    fn factor_expr(&self, i: usize) -> (r: Result<(ASTNode, usize), ParseError>)
        requires
            self.wf(),
            i <= self.tokens.len(),
        ensures
            parsed_as(r, i as int, p_factor(self.tv(), i as int)),
            r matches Ok((_, j)) ==> j <= self.tokens.len(),
        decreases tokens_left(self.tv(), i as int), 5nat,
    {
        if i >= self.tokens.len() {
            return Err(ParseError::UnexpectedEof);
        }
        let plus = self.tokens[i].matches(&Token::Plus);
        let minus = self.tokens[i].matches(&Token::Minus);
        if plus || minus {
            match self.range_expr(i + 1) {
                Err(e) => Err(e),
                Ok((x, j)) => Ok((ASTNode::SignedNumber(minus, Box::new(x)), j)),
            }
        } else {
            self.range_expr(i)
        }
    }

    fn range_expr(&self, i: usize) -> (r: Result<(ASTNode, usize), ParseError>)
        requires
            self.wf(),
            i <= self.tokens.len(),
        ensures
            parsed_as(r, i as int, p_range(self.tv(), i as int)),
            r matches Ok((_, j)) ==> j <= self.tokens.len(),
        decreases tokens_left(self.tv(), i as int), 4nat,
    {
        let (left, j) = match self.atom_expr(i) {
            Err(e) => {
                return Err(e);
            },
            Ok(p) => p,
        };
        if !(j < self.tokens.len() && self.tokens[j].matches(&Token::Colon)) {
            return Ok((left, j));
        }
        let k = j + 1;
        match left {
            ASTNode::Var(v) => self.make_row_or_col_range(k, ASTNode::Var(v), None),
            ASTNode::Number(x) => self.make_row_or_col_range(k, ASTNode::Number(x), None),
            ASTNode::UndeterminedRange(sheet, anchor) => self.make_row_or_col_range(
                k,
                *anchor,
                Some(sheet),
            ),
            ASTNode::Ref(cell, sheet) => match self.atom_expr(k) {
                Err(e) => Err(e),
                Ok((right, end)) => {
                    let is_ref = match &right {
                        ASTNode::Ref(_, _) => true,
                        _ => false,
                    };
                    if is_ref {
                        Ok((ASTNode::Range(Box::new(ASTNode::Ref(cell, sheet)), Box::new(right)), end))
                    } else {
                        Err(ParseError::InvalidRange)
                    }
                },
            },
            _ => Err(ParseError::InvalidRange),
        }
    }

    /// A row range or a column range, whose right side starts at `k`.
    fn make_row_or_col_range(&self, k: usize, left: ASTNode, sheet: Option<String>) -> (r: Result<
        (ASTNode, usize),
        ParseError,
    >)
        requires
            self.wf(),
            k <= self.tokens.len(),
        ensures
            parsed_as(r, k as int, p_row_or_col(self.tv(), k as int, left@, opt_view(sheet))),
            r matches Ok((_, j)) ==> j <= self.tokens.len(),
        decreases tokens_left(self.tv(), k as int), 3nat,
    {
        match left {
            ASTNode::Number(from) => match self.atom_expr(k) {
                Err(e) => Err(e),
                Ok((right, end)) => match right {
                    ASTNode::Number(to) => Ok((ASTNode::RowRange(from, to, sheet), end)),
                    _ => Err(ParseError::InvalidRange),
                },
            },
            ASTNode::Var(from) => match self.atom_expr(k) {
                Err(e) => Err(e),
                Ok((right, end)) => match right {
                    ASTNode::Var(to) => Ok((ASTNode::ColRange(from, to, sheet), end)),
                    _ => Err(ParseError::InvalidRange),
                },
            },
            _ => Err(ParseError::InvalidRange),
        }
    }

    #[verifier::rlimit(100)]
    #[verifier::spinoff_prover]
    fn atom_expr(&self, i: usize) -> (r: Result<(ASTNode, usize), ParseError>)
        requires
            self.wf(),
            i <= self.tokens.len(),
        ensures
            parsed_as(r, i as int, p_atom(self.tv(), i as int)),
            r matches Ok((_, j)) ==> j <= self.tokens.len(),
        decreases tokens_left(self.tv(), i as int), 2nat,
    {
        let n = self.tokens.len();
        if i >= n {
            return Err(ParseError::UnexpectedEof);
        }
        assert(self.tv()[i as int] == self.tokens@[i as int]@);
        match &self.tokens[i] {
            Token::Number(x) => Ok((ASTNode::Number(x.duplicate()), i + 1)),
            Token::String(s) => Ok((ASTNode::String(s.clone()), i + 1)),
            Token::Bool(b) => Ok((ASTNode::Bool(*b), i + 1)),
            Token::Ref(cell) => Ok((ASTNode::Ref(cell.clone(), None), i + 1)),
            Token::Lparen => self.sub_expr(i),
            Token::Var(v) => {
                if i + 1 < n && self.tokens[i + 1].matches(&Token::Lparen) {
                    self.call_expr(i, v.clone())
                } else {
                    Ok((ASTNode::Var(v.clone()), i + 1))
                }
            },
            Token::Sheet(sheet) => self.sheet_expr(i, sheet),
            _ => Err(ParseError::UnexpectedToken),
        }
    }

    /// A sheet-qualified reference whose sheet name `sheet` is at `i`.
    fn sheet_expr(&self, i: usize, sheet: &String) -> (r: Result<(ASTNode, usize), ParseError>)
        requires
            i < self.tokens.len(),
        ensures
            parsed_as(r, i as int, p_sheet(self.tv(), i as int, sheet@)),
            r matches Ok((_, j)) ==> j <= self.tokens.len(),
    {
        let n = self.tokens.len();
        if i + 1 >= n {
            return Err(ParseError::UnexpectedEof);
        }
        if !self.tokens[i + 1].matches(&Token::Csref) {
            return Err(ParseError::ExpectedCrossSheetMarker);
        }
        if i + 2 >= n {
            return Err(ParseError::UnexpectedEof);
        }
        match &self.tokens[i + 2] {
            Token::Ref(cell) => Ok((ASTNode::Ref(cell.clone(), Some(sheet.clone())), i + 3)),
            Token::Var(v) => {
                let anchor = ASTNode::Var(v.clone());
                assert(anchor@ == Tree::Var(v@));
                Ok((ASTNode::UndeterminedRange(sheet.clone(), Box::new(anchor)), i + 3))
            },
            Token::Number(x) => {
                let anchor = ASTNode::Number(x.duplicate());
                assert(anchor@ == Tree::Number(x@));
                Ok((ASTNode::UndeterminedRange(sheet.clone(), Box::new(anchor)), i + 3))
            },
            _ => Err(ParseError::InvalidCrossSheetReference),
        }
    }

    /// A parenthesized formula whose `(` is at `i`.
    fn sub_expr(&self, i: usize) -> (r: Result<(ASTNode, usize), ParseError>)
        requires
            self.wf(),
            i < self.tokens.len(),
            self.tv()[i as int] is Lparen,
        ensures
            parsed_as(r, i as int, p_paren(self.tv(), i as int)),
            r matches Ok((_, j)) ==> j <= self.tokens.len(),
        decreases tokens_left(self.tv(), i as int), 1nat,
    {
        match self.compare_expr(i + 1) {
            Err(e) => Err(e),
            Ok((node, j)) => {
                if j < self.tokens.len() && self.tokens[j].matches(&Token::Rparen) {
                    Ok((node, j + 1))
                } else {
                    Err(ParseError::UnmatchedParenthesis)
                }
            },
        }
    }

    /// A call of `name`, which stands at `i`, with its `(` at `i + 1`.
    #[verifier::rlimit(80)]
    #[verifier::spinoff_prover]
    fn call_expr(&self, i: usize, name: String) -> (r: Result<(ASTNode, usize), ParseError>)
        requires
            self.wf(),
            i + 1 < self.tokens.len(),
            self.tv()[i as int] == Tok::Var(name@),
            self.tv()[i + 1] is Lparen,
        ensures
            parsed_as(r, i as int, p_call(self.tv(), i as int, name@)),
            r matches Ok((_, j)) ==> j <= self.tokens.len(),
        decreases tokens_left(self.tv(), i as int), 1nat,
    {
        let ghost t = self.tv();
        let n = self.tokens.len();
        let mut args: Vec<ASTNode> = Vec::new();
        let mut j = i + 2;
        proof {
            lemma_trees_view_empty();
        }
        loop
            invariant
                self.wf(),
                t == self.tv(),
                n == self.tokens.len(),
                t.len() == n,
                i + 2 <= j <= n,
                t[i as int] == Tok::Var(name@),
                t[i + 1] is Lparen,
                p_args(t, i + 2, Seq::empty()) == shifted(
                    p_args(t, j as int, trees_view(args@)),
                    j - i - 2,
                ),
            decreases n - j,
        {
            if j >= n {
                return Err(ParseError::UnexpectedEof);
            }
            if self.tokens[j].matches(&Token::Rparen) {
                proof {
                    lemma_call_view(name, args);
                }
                return Ok((ASTNode::Call(name, args), j + 1));
            }
            if self.tokens[j].matches(&Token::Comma) {
                assert(p_args(t, j as int, trees_view(args@)) == shifted(
                    p_args(t, j + 1, trees_view(args@)),
                    1,
                ));
                j += 1;
            } else {
                match self.compare_expr(j) {
                    Err(e) => {
                        return Err(e);
                    },
                    Ok((arg, k)) => {
                        proof {
                            lemma_trees_view_push(args@, arg);
                            assert(p_args(t, j as int, trees_view(args@)) == shifted(
                                p_args(t, k as int, trees_view(args@).push(arg@)),
                                k - j,
                            ));
                        }
                        args.push(arg);
                        j = k;
                    },
                }
            }
        }
    }
}

} // verus!
