use vstd::prelude::*;

verus! {

/// A numeric literal as it was written, decoded into its parts.
///
/// The digit strings hold ASCII digits and at most one decimal point, with at
/// least one digit. Turning a numeral into a binary floating-point value is
/// left to the caller.
#[derive(Debug)]
pub enum Numeral {
    /// `12.5`
    Plain(String),
    /// `50%`: the digits divided by one hundred.
    Percent(String),
    /// `1.5e-2`: the digits times ten to the power of the exponent numeral,
    /// negated when the flag is set.
    Scaled(String, bool, Box<Numeral>),
}

/// The mathematical model of a [`Numeral`].
pub enum Lit {
    Plain(Seq<char>),
    Percent(Seq<char>),
    Scaled(Seq<char>, bool, Box<Lit>),
}

impl View for Numeral {
    type V = Lit;

    open spec fn view(&self) -> Lit
        decreases self,
    {
        match self {
            Numeral::Plain(d) => Lit::Plain(d@),
            Numeral::Percent(d) => Lit::Percent(d@),
            Numeral::Scaled(d, neg, e) => Lit::Scaled(d@, *neg, Box::new((**e)@)),
        }
    }
}

impl Numeral {
    /// A copy of this numeral.
    pub fn duplicate(&self) -> (r: Numeral)
        ensures
            r@ == self@,
        decreases self,
    {
        match self {
            Numeral::Plain(d) => Numeral::Plain(d.clone()),
            Numeral::Percent(d) => Numeral::Percent(d.clone()),
            Numeral::Scaled(d, neg, e) => Numeral::Scaled(d.clone(), *neg, Box::new(e.duplicate())),
        }
    }
}

/// A lexical unit of a formula.
#[derive(Debug)]
pub enum Token {
    Number(Numeral),
    Plus,
    Minus,
    Mul,
    Div,
    Lparen,
    Rparen,
    Ref(String),
    Var(String),
    Sheet(String),
    Ee,
    Ne,
    Lt,
    Gt,
    Lte,
    Gte,
    Comma,
    Colon,
    String(String),
    Csref,
    And,
    Bool(bool),
}

/// The mathematical model of a [`Token`].
pub enum Tok {
    Number(Lit),
    Plus,
    Minus,
    Mul,
    Div,
    Lparen,
    Rparen,
    Ref(Seq<char>),
    Var(Seq<char>),
    Sheet(Seq<char>),
    Ee,
    Ne,
    Lt,
    Gt,
    Lte,
    Gte,
    Comma,
    Colon,
    String(Seq<char>),
    Csref,
    And,
    Bool(bool),
}

/// The kind of a token, without its payload.
#[derive(Clone, Copy, Debug, PartialEq, Eq, Structural)]
pub enum TokenKind {
    Number,
    Plus,
    Minus,
    Mul,
    Div,
    Lparen,
    Rparen,
    Ref,
    Var,
    Sheet,
    Ee,
    Ne,
    Lt,
    Gt,
    Lte,
    Gte,
    Comma,
    Colon,
    String,
    Csref,
    And,
    Bool,
}

impl Tok {
    pub open spec fn kind(self) -> TokenKind {
        match self {
            Tok::Number(_) => TokenKind::Number,
            Tok::Plus => TokenKind::Plus,
            Tok::Minus => TokenKind::Minus,
            Tok::Mul => TokenKind::Mul,
            Tok::Div => TokenKind::Div,
            Tok::Lparen => TokenKind::Lparen,
            Tok::Rparen => TokenKind::Rparen,
            Tok::Ref(_) => TokenKind::Ref,
            Tok::Var(_) => TokenKind::Var,
            Tok::Sheet(_) => TokenKind::Sheet,
            Tok::Ee => TokenKind::Ee,
            Tok::Ne => TokenKind::Ne,
            Tok::Lt => TokenKind::Lt,
            Tok::Gt => TokenKind::Gt,
            Tok::Lte => TokenKind::Lte,
            Tok::Gte => TokenKind::Gte,
            Tok::Comma => TokenKind::Comma,
            Tok::Colon => TokenKind::Colon,
            Tok::String(_) => TokenKind::String,
            Tok::Csref => TokenKind::Csref,
            Tok::And => TokenKind::And,
            Tok::Bool(_) => TokenKind::Bool,
        }
    }
}

impl View for Token {
    type V = Tok;

    open spec fn view(&self) -> Tok {
        match self {
            Token::Number(n) => Tok::Number(n@),
            Token::Plus => Tok::Plus,
            Token::Minus => Tok::Minus,
            Token::Mul => Tok::Mul,
            Token::Div => Tok::Div,
            Token::Lparen => Tok::Lparen,
            Token::Rparen => Tok::Rparen,
            Token::Ref(s) => Tok::Ref(s@),
            Token::Var(s) => Tok::Var(s@),
            Token::Sheet(s) => Tok::Sheet(s@),
            Token::Ee => Tok::Ee,
            Token::Ne => Tok::Ne,
            Token::Lt => Tok::Lt,
            Token::Gt => Tok::Gt,
            Token::Lte => Tok::Lte,
            Token::Gte => Tok::Gte,
            Token::Comma => Tok::Comma,
            Token::Colon => Tok::Colon,
            Token::String(s) => Tok::String(s@),
            Token::Csref => Tok::Csref,
            Token::And => Tok::And,
            Token::Bool(b) => Tok::Bool(*b),
        }
    }
}

/// The models of a sequence of tokens.
pub open spec fn toks_view(v: Seq<Token>) -> Seq<Tok> {
    v.map_values(|t: Token| t@)
}

impl Token {
    /// The kind of this token.
    pub fn kind(&self) -> (k: TokenKind)
        ensures
            k == self@.kind(),
    {
        match self {
            Token::Number(_) => TokenKind::Number,
            Token::Plus => TokenKind::Plus,
            Token::Minus => TokenKind::Minus,
            Token::Mul => TokenKind::Mul,
            Token::Div => TokenKind::Div,
            Token::Lparen => TokenKind::Lparen,
            Token::Rparen => TokenKind::Rparen,
            Token::Ref(_) => TokenKind::Ref,
            Token::Var(_) => TokenKind::Var,
            Token::Sheet(_) => TokenKind::Sheet,
            Token::Ee => TokenKind::Ee,
            Token::Ne => TokenKind::Ne,
            Token::Lt => TokenKind::Lt,
            Token::Gt => TokenKind::Gt,
            Token::Lte => TokenKind::Lte,
            Token::Gte => TokenKind::Gte,
            Token::Comma => TokenKind::Comma,
            Token::Colon => TokenKind::Colon,
            Token::String(_) => TokenKind::String,
            Token::Csref => TokenKind::Csref,
            Token::And => TokenKind::And,
            Token::Bool(_) => TokenKind::Bool,
        }
    }

    /// Whether the two tokens are of the same kind, whatever their payloads.
    pub fn matches(&self, token: &Token) -> (r: bool)
        ensures
            r == (self@.kind() == token@.kind()),
    {
        self.kind() == token.kind()
    }

    /// A copy of this token.
    pub fn duplicate(&self) -> (r: Token)
        ensures
            r@ == self@,
    {
        match self {
            Token::Number(n) => Token::Number(n.duplicate()),
            Token::Plus => Token::Plus,
            Token::Minus => Token::Minus,
            Token::Mul => Token::Mul,
            Token::Div => Token::Div,
            Token::Lparen => Token::Lparen,
            Token::Rparen => Token::Rparen,
            Token::Ref(s) => Token::Ref(s.clone()),
            Token::Var(s) => Token::Var(s.clone()),
            Token::Sheet(s) => Token::Sheet(s.clone()),
            Token::Ee => Token::Ee,
            Token::Ne => Token::Ne,
            Token::Lt => Token::Lt,
            Token::Gt => Token::Gt,
            Token::Lte => Token::Lte,
            Token::Gte => Token::Gte,
            Token::Comma => Token::Comma,
            Token::Colon => Token::Colon,
            Token::String(s) => Token::String(s.clone()),
            Token::Csref => Token::Csref,
            Token::And => Token::And,
            Token::Bool(b) => Token::Bool(*b),
        }
    }
}

} // verus!
