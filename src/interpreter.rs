use crate::lexer::{is_digit, lex, LexError, Lexer};
use crate::node::{ASTNode, Tree};
use crate::parser::{parse_tokens, ParseError, Parser};
use crate::token::{Lit, Numeral, Tok, Token};
use crate::utils::chars_of;
use vstd::prelude::*;

verus! {

/// The arithmetic operators.
#[derive(Clone, Copy, Debug, PartialEq, Eq, Structural)]
pub enum ArithOp {
    Add,
    Sub,
    Mul,
    Div,
}

/// The comparison operators.
#[derive(Clone, Copy, Debug, PartialEq, Eq, Structural)]
pub enum CmpOp {
    Eq,
    Ne,
    Lt,
    Gt,
    Lte,
    Gte,
}

/// A number, kept exactly as the arithmetic that produces it. Rounding it to
/// binary floating point, operation by operation, gives its value.
#[derive(Debug)]
pub enum Num {
    Lit(Numeral),
    /// The number that a text spells in the usual floating-point syntax.
    Text(String),
    Neg(Box<Num>),
    Arith(ArithOp, Box<Num>, Box<Num>),
}

/// A truth value: known, or the comparison of two numbers.
#[derive(Debug)]
pub enum Truth {
    Lit(bool),
    Compare(CmpOp, Box<Num>, Box<Num>),
}

/// The value of a formula.
#[derive(Debug)]
pub enum ComputeResult {
    Number(Num),
    String(String),
    Bool(Truth),
}

/// The mathematical model of a [`Num`].
pub enum NumTerm {
    Lit(Lit),
    Text(Seq<char>),
    Neg(Box<NumTerm>),
    Arith(ArithOp, Box<NumTerm>, Box<NumTerm>),
}

/// The mathematical model of a [`Truth`].
pub enum TruthTerm {
    Lit(bool),
    Compare(CmpOp, Box<NumTerm>, Box<NumTerm>),
}

/// The mathematical model of a [`ComputeResult`].
pub enum Value {
    Number(NumTerm),
    String(Seq<char>),
    Bool(TruthTerm),
}

/// Why a syntax tree has no value.
#[derive(Debug)]
pub enum EvalError {
    /// A text that an arithmetic operator needed as a number.
    NotNumeric(String),
    /// An operand of a kind that the operation does not take.
    TypeMismatch,
    /// A reference, range or call, or the `&` operator: they need a cell
    /// store or a function table.
    NotImplemented,
}

/// The mathematical model of an [`EvalError`].
pub enum EvalFault {
    NotNumeric(Seq<char>),
    TypeMismatch,
    NotImplemented,
}

/// Why a formula has no value.
#[derive(Debug)]
pub enum FormulaError {
    Lex(LexError),
    Parse(ParseError),
    Eval(EvalError),
}

/// The mathematical model of a [`FormulaError`].
pub enum Fault {
    Lex(LexError),
    Parse(ParseError),
    Eval(EvalFault),
}

/// Where the formula stands. Evaluation does not consult it yet.
#[derive(Clone, Debug)]
pub struct CellPosition {
    pub sheet: String,
    pub row: usize,
    pub col: usize,
}

impl View for Num {
    type V = NumTerm;

    open spec fn view(&self) -> NumTerm
        decreases self,
    {
        match self {
            Num::Lit(n) => NumTerm::Lit(n@),
            Num::Text(s) => NumTerm::Text(s@),
            Num::Neg(x) => NumTerm::Neg(Box::new((**x)@)),
            Num::Arith(o, a, b) => NumTerm::Arith(*o, Box::new((**a)@), Box::new((**b)@)),
        }
    }
}

impl View for Truth {
    type V = TruthTerm;

    open spec fn view(&self) -> TruthTerm {
        match self {
            Truth::Lit(b) => TruthTerm::Lit(*b),
            Truth::Compare(o, a, b) => TruthTerm::Compare(*o, Box::new((**a)@), Box::new((**b)@)),
        }
    }
}

impl View for ComputeResult {
    type V = Value;

    open spec fn view(&self) -> Value {
        match self {
            ComputeResult::Number(x) => Value::Number(x@),
            ComputeResult::String(s) => Value::String(s@),
            ComputeResult::Bool(t) => Value::Bool(t@),
        }
    }
}

impl View for EvalError {
    type V = EvalFault;

    open spec fn view(&self) -> EvalFault {
        match self {
            EvalError::NotNumeric(s) => EvalFault::NotNumeric(s@),
            EvalError::TypeMismatch => EvalFault::TypeMismatch,
            EvalError::NotImplemented => EvalFault::NotImplemented,
        }
    }
}

impl View for FormulaError {
    type V = Fault;

    open spec fn view(&self) -> Fault {
        match self {
            FormulaError::Lex(e) => Fault::Lex(*e),
            FormulaError::Parse(e) => Fault::Parse(*e),
            FormulaError::Eval(e) => Fault::Eval(e@),
        }
    }
}

/// The end of the digits of `s` from `i` on.
pub open spec fn digits_end(s: Seq<char>, i: int) -> int
    decreases s.len() - i,
{
    if 0 <= i < s.len() && is_digit(s[i]) {
        digits_end(s, i + 1)
    } else {
        i
    }
}

/// `s` spells `lower` with each letter in lower or upper case (`upper`).
pub open spec fn spells(s: Seq<char>, lower: Seq<char>, upper: Seq<char>) -> bool {
    &&& s.len() == lower.len()
    &&& forall|k: int| 0 <= k < s.len() ==> #[trigger] s[k] == lower[k] || s[k] == upper[k]
}

/// `s` names an infinity or not-a-number, in any case.
pub open spec fn is_special_float(s: Seq<char>) -> bool {
    ||| spells(s, seq!['i', 'n', 'f'], seq!['I', 'N', 'F'])
    ||| spells(
        s,
        seq!['i', 'n', 'f', 'i', 'n', 'i', 't', 'y'],
        seq!['I', 'N', 'F', 'I', 'N', 'I', 'T', 'Y'],
    )
    ||| spells(s, seq!['n', 'a', 'n'], seq!['N', 'A', 'N'])
}

/// `s` is a number in the usual floating-point syntax: an optional sign, then
/// `inf`, `infinity` or `nan` in any case, or digits with an optional decimal
/// point and at least one digit, then an optional exponent of `e` or `E`, an
/// optional sign and digits.
pub open spec fn is_float_text(s: Seq<char>) -> bool {
    let a: int = if s.len() > 0 && (s[0] == '+' || s[0] == '-') { 1 } else { 0 };
    is_special_float(s.subrange(a, s.len() as int)) || is_decimal_text(s, a)
}

/// `s` from `a` on is digits with an optional decimal point and at least one
/// digit, then an optional exponent.
pub open spec fn is_decimal_text(s: Seq<char>, a: int) -> bool {
    let p = digits_end(s, a);
    let q = if p < s.len() && s[p] == '.' { digits_end(s, p + 1) } else { p };
    let has_digits = p > a || q > p + 1;
    let r: int = if q < s.len() && (s[q] == 'e' || s[q] == 'E') {
        if q + 1 < s.len() && (s[q + 1] == '+' || s[q + 1] == '-') { q + 2 } else { q + 1 }
    } else {
        q
    };
    &&& has_digits
    &&& (r == q || digits_end(s, r) > r)
    &&& digits_end(s, r) == s.len()
}

/// `l` comes before `r`: at the first position where they differ, `l` holds
/// the smaller character code.
pub open spec fn str_less(l: Seq<char>, r: Seq<char>) -> bool {
    exists|i: int|
        0 <= i < l.len() && i < r.len() && (forall|k: int| 0 <= k < i ==> l[k] == r[k]) && (
        #[trigger] l[i]) < r[i]
}

/// How `l` orders against `r`: equal texts are equal, and a text is greater
/// unless it comes before the other. So of a text and its strict prefix, each
/// is greater than the other.
pub open spec fn str_order(l: Seq<char>, r: Seq<char>) -> std::cmp::Ordering {
    if str_less(l, r) {
        std::cmp::Ordering::Less
    } else if l == r {
        std::cmp::Ordering::Equal
    } else {
        std::cmp::Ordering::Greater
    }
}

/// Whether the comparison `c` holds of operands ordered by `o`.
pub open spec fn holds(c: CmpOp, o: std::cmp::Ordering) -> bool {
    match c {
        CmpOp::Eq => o is Equal,
        CmpOp::Ne => !(o is Equal),
        CmpOp::Lt => o is Less,
        CmpOp::Gt => o is Greater,
        CmpOp::Lte => !(o is Greater),
        CmpOp::Gte => !(o is Less),
    }
}

/// The number an operand stands for: a number, or a text that spells one.
pub open spec fn coerce(v: Value) -> Result<NumTerm, EvalFault> {
    match v {
        Value::Number(x) => Ok(x),
        Value::String(s) => if is_float_text(s) {
            Ok(NumTerm::Text(s))
        } else {
            Err(EvalFault::NotNumeric(s))
        },
        Value::Bool(_) => Err(EvalFault::TypeMismatch),
    }
}

/// Compares two operands: numbers by value, texts by `str_order`, and a text
/// is greater than any number.
pub open spec fn compare(c: CmpOp, a: Value, b: Value) -> Result<Value, EvalFault> {
    match (a, b) {
        (Value::Number(x), Value::Number(y)) => Ok(
            Value::Bool(TruthTerm::Compare(c, Box::new(x), Box::new(y))),
        ),
        (Value::String(x), Value::String(y)) => Ok(
            Value::Bool(TruthTerm::Lit(holds(c, str_order(x, y)))),
        ),
        (Value::String(_), Value::Number(_)) => Ok(
            Value::Bool(TruthTerm::Lit(holds(c, std::cmp::Ordering::Greater))),
        ),
        (Value::Number(_), Value::String(_)) => Ok(
            Value::Bool(TruthTerm::Lit(holds(c, std::cmp::Ordering::Less))),
        ),
        _ => Err(EvalFault::TypeMismatch),
    }
}

pub open spec fn arith_of(t: Tok) -> Option<ArithOp> {
    match t {
        Tok::Plus => Some(ArithOp::Add),
        Tok::Minus => Some(ArithOp::Sub),
        Tok::Mul => Some(ArithOp::Mul),
        Tok::Div => Some(ArithOp::Div),
        _ => None,
    }
}

pub open spec fn cmp_of(t: Tok) -> Option<CmpOp> {
    match t {
        Tok::Ee => Some(CmpOp::Eq),
        Tok::Ne => Some(CmpOp::Ne),
        Tok::Lt => Some(CmpOp::Lt),
        Tok::Gt => Some(CmpOp::Gt),
        Tok::Lte => Some(CmpOp::Lte),
        Tok::Gte => Some(CmpOp::Gte),
        _ => None,
    }
}

/// The binary operator `op` applied to two operand values.
pub open spec fn apply(op: Tok, a: Value, b: Value) -> Result<Value, EvalFault> {
    if let Some(o) = arith_of(op) {
        match coerce(a) {
            Err(e) => Err(e),
            Ok(x) => match coerce(b) {
                Err(e) => Err(e),
                Ok(y) => Ok(Value::Number(NumTerm::Arith(o, Box::new(x), Box::new(y)))),
            },
        }
    } else if let Some(c) = cmp_of(op) {
        compare(c, a, b)
    } else {
        Err(EvalFault::NotImplemented)
    }
}

/// The value of a syntax tree. A sign applied to a text is written in front
/// of it (`-"ab"` is `"-ab"`, `+"ab"` is `"+ab"`); applied to a truth value it
/// is a type error. References, ranges, calls and bare names have no value
/// here.
pub open spec fn eval(t: Tree) -> Result<Value, EvalFault>
    decreases t,
{
    match t {
        Tree::Number(n) => Ok(Value::Number(NumTerm::Lit(n))),
        Tree::SignedNumber(neg, c) => match eval(*c) {
            Err(e) => Err(e),
            Ok(Value::Number(x)) => Ok(
                Value::Number(
                    if neg {
                        NumTerm::Neg(Box::new(x))
                    } else {
                        x
                    },
                ),
            ),
            Ok(Value::String(s)) => Ok(
                Value::String(
                    seq![
                        if neg {
                            '-'
                        } else {
                            '+'
                        },
                    ] + s,
                ),
            ),
            Ok(Value::Bool(_)) => Err(EvalFault::TypeMismatch),
        },
        Tree::String(s) => Ok(Value::String(s)),
        Tree::Bool(b) => Ok(Value::Bool(TruthTerm::Lit(b))),
        Tree::BinaryOp(op, l, r) => match eval(*l) {
            Err(e) => Err(e),
            Ok(a) => match eval(*r) {
                Err(e) => Err(e),
                Ok(b) => apply(op, a, b),
            },
        },
        _ => Err(EvalFault::NotImplemented),
    }
}

/// The value of a formula text.
pub open spec fn formula_value(s: Seq<char>) -> Result<Value, Fault> {
    match lex(s) {
        Err(e) => Err(Fault::Lex(e)),
        Ok(ts) => match parse_tokens(ts) {
            Err(e) => Err(Fault::Parse(e)),
            Ok(t) => match eval(t) {
                Err(e) => Err(Fault::Eval(e)),
                Ok(v) => Ok(v),
            },
        },
    }
}

fn scan_digits(c: &Vec<char>, i: usize) -> (r: usize)
    requires
        i <= c.len(),
    ensures
        r as int == digits_end(c@, i as int),
        i <= r <= c.len(),
{
    let mut j = i;
    while j < c.len() && '0' <= c[j] && c[j] <= '9'
        invariant
            i <= j <= c.len(),
            digits_end(c@, i as int) == digits_end(c@, j as int),
        decreases c.len() - j,
    {
        j += 1;
    }
    j
}

/// Whether `c` from `from` on spells `lower`, each letter in either case.
fn spells_from(c: &Vec<char>, from: usize, lower: &Vec<char>, upper: &Vec<char>) -> (r: bool)
    requires
        from <= c.len(),
        lower.len() == upper.len(),
    ensures
        r == spells(c@.subrange(from as int, c.len() as int), lower@, upper@),
{
    let ghost w = c@.subrange(from as int, c.len() as int);
    if c.len() - from != lower.len() {
        return false;
    }
    let mut k: usize = 0;
    while k < lower.len()
        invariant
            k <= lower.len(),
            lower.len() == upper.len(),
            w.len() == lower.len(),
            from + lower.len() == c.len(),
            w == c@.subrange(from as int, c.len() as int),
            forall|m: int| 0 <= m < k ==> #[trigger] w[m] == lower@[m] || w[m] == upper@[m],
        decreases lower.len() - k,
    {
        if c[from + k] != lower[k] && c[from + k] != upper[k] {
            assert(!(w[k as int] == lower@[k as int] || w[k as int] == upper@[k as int]));
            return false;
        }
        k += 1;
    }
    true
}

/// Whether `c` from `from` on names an infinity or not-a-number.
fn special_from(c: &Vec<char>, from: usize) -> (r: bool)
    requires
        from <= c.len(),
    ensures
        r == is_special_float(c@.subrange(from as int, c.len() as int)),
{
    let inf_lo = vec!['i', 'n', 'f'];
    let inf_up = vec!['I', 'N', 'F'];
    let infinity_lo = vec!['i', 'n', 'f', 'i', 'n', 'i', 't', 'y'];
    let infinity_up = vec!['I', 'N', 'F', 'I', 'N', 'I', 'T', 'Y'];
    let nan_lo = vec!['n', 'a', 'n'];
    let nan_up = vec!['N', 'A', 'N'];
    assert(inf_lo@ =~= seq!['i', 'n', 'f']);
    assert(inf_up@ =~= seq!['I', 'N', 'F']);
    assert(infinity_lo@ =~= seq!['i', 'n', 'f', 'i', 'n', 'i', 't', 'y']);
    assert(infinity_up@ =~= seq!['I', 'N', 'F', 'I', 'N', 'I', 'T', 'Y']);
    assert(nan_lo@ =~= seq!['n', 'a', 'n']);
    assert(nan_up@ =~= seq!['N', 'A', 'N']);
    spells_from(c, from, &inf_lo, &inf_up) || spells_from(c, from, &infinity_lo, &infinity_up)
        || spells_from(c, from, &nan_lo, &nan_up)
}

/// Whether `s` spells a number in the usual floating-point syntax.
pub fn is_number_text(s: &String) -> (r: bool)
    ensures
        r == is_float_text(s@),
{
    let c = chars_of(s.as_str());
    let n = c.len();
    let a: usize = if n > 0 && (c[0] == '+' || c[0] == '-') {
        1
    } else {
        0
    };
    if special_from(&c, a) {
        return true;
    }
    let p = scan_digits(&c, a);
    let q = if p < n && c[p] == '.' {
        scan_digits(&c, p + 1)
    } else {
        p
    };
    let has_digits = p > a || q > p + 1;
    let r: usize = if q < n && (c[q] == 'e' || c[q] == 'E') {
        if q + 1 < n && (c[q + 1] == '+' || c[q + 1] == '-') {
            q + 2
        } else {
            q + 1
        }
    } else {
        q
    };
    let end = scan_digits(&c, r);
    has_digits && (r == q || end > r) && end == n
}

/// Whether `left` comes before `right` (see `str_less`).
pub fn bigger_string(left: &String, right: &String) -> (r: bool)
    ensures
        r == str_less(left@, right@),
{
    let l = chars_of(left.as_str());
    let rr = chars_of(right.as_str());
    let ghost ls = left@;
    let ghost rs = right@;
    let mut i: usize = 0;
    while i < l.len()
        invariant
            i <= l.len(),
            l@ == ls,
            rr@ == rs,
            ls == left@,
            rs == right@,
            i <= rs.len(),
            forall|k: int| 0 <= k < i ==> ls[k] == rs[k],
        decreases l.len() - i,
    {
        if i >= rr.len() {
            assert(!str_less(ls, rs)) by {
                if str_less(ls, rs) {
                    let j = choose|j: int|
                        0 <= j < ls.len() && j < rs.len() && (forall|k: int|
                            0 <= k < j ==> ls[k] == rs[k]) && (#[trigger] ls[j]) < rs[j];
                    assert(ls[j] == rs[j]);
                }
            }
            return false;
        }
        if l[i] < rr[i] {
            assert(str_less(ls, rs)) by {
                assert(0 <= i < ls.len() && i < rs.len() && (forall|k: int|
                    0 <= k < i ==> ls[k] == rs[k]) && ls[i as int] < rs[i as int]);
            }
            return true;
        } else if l[i] > rr[i] {
            assert(!str_less(ls, rs)) by {
                if str_less(ls, rs) {
                    let j = choose|j: int|
                        0 <= j < ls.len() && j < rs.len() && (forall|k: int|
                            0 <= k < j ==> ls[k] == rs[k]) && (#[trigger] ls[j]) < rs[j];
                    if j < i {
                        assert(ls[j] == rs[j]);
                    } else if j > i {
                        assert(ls[i as int] == rs[i as int]);
                    }
                }
            }
            return false;
        }
        i += 1;
    }
    assert(!str_less(ls, rs)) by {
        if str_less(ls, rs) {
            let j = choose|j: int|
                0 <= j < ls.len() && j < rs.len() && (forall|k: int| 0 <= k < j ==> ls[k] == rs[k])
                    && (#[trigger] ls[j]) < rs[j];
            assert(ls[j] == rs[j]);
        }
    }
    false
}

fn holds_exec(c: CmpOp, o: std::cmp::Ordering) -> (r: bool)
    ensures
        r == holds(c, o),
{
    let less = match o {
        std::cmp::Ordering::Less => true,
        _ => false,
    };
    let equal = match o {
        std::cmp::Ordering::Equal => true,
        _ => false,
    };
    let greater = match o {
        std::cmp::Ordering::Greater => true,
        _ => false,
    };
    match c {
        CmpOp::Eq => equal,
        CmpOp::Ne => !equal,
        CmpOp::Lt => less,
        CmpOp::Gt => greater,
        CmpOp::Lte => !greater,
        CmpOp::Gte => !less,
    }
}

impl Num {
    /// A copy of this number.
    pub fn duplicate(&self) -> (r: Num)
        ensures
            r@ == self@,
        decreases self,
    {
        match self {
            Num::Lit(n) => Num::Lit(n.duplicate()),
            Num::Text(s) => Num::Text(s.clone()),
            Num::Neg(x) => Num::Neg(Box::new(x.duplicate())),
            Num::Arith(o, a, b) => Num::Arith(*o, Box::new(a.duplicate()), Box::new(b.duplicate())),
        }
    }
}

impl ComputeResult {
    /// This value as a number: a number, or a text that spells one.
    pub fn as_num(&self) -> (r: Result<Num, EvalError>)
        ensures
            match coerce(self@) {
                Ok(x) => r matches Ok(n) && n@ == x,
                Err(e) => r matches Err(f) && f@ == e,
            },
    {
        match self {
            ComputeResult::Number(n) => Ok(n.duplicate()),
            ComputeResult::String(s) => {
                if is_number_text(s) {
                    Ok(Num::Text(s.clone()))
                } else {
                    Err(EvalError::NotNumeric(s.clone()))
                }
            },
            ComputeResult::Bool(_) => Err(EvalError::TypeMismatch),
        }
    }
}

/// Compares two operand values with `c`.
fn compare_values(c: CmpOp, a: ComputeResult, b: ComputeResult) -> (r: Result<ComputeResult, EvalError>)
    ensures
        match compare(c, a@, b@) {
            Ok(v) => r matches Ok(x) && x@ == v,
            Err(e) => r matches Err(f) && f@ == e,
        },
{
    match (a, b) {
        (ComputeResult::Number(x), ComputeResult::Number(y)) => Ok(
            ComputeResult::Bool(Truth::Compare(c, Box::new(x), Box::new(y))),
        ),
        (ComputeResult::String(x), ComputeResult::String(y)) => {
            let o = if bigger_string(&x, &y) {
                std::cmp::Ordering::Less
            } else if x == y {
                std::cmp::Ordering::Equal
            } else {
                std::cmp::Ordering::Greater
            };
            Ok(ComputeResult::Bool(Truth::Lit(holds_exec(c, o))))
        },
        (ComputeResult::String(_), ComputeResult::Number(_)) => Ok(
            ComputeResult::Bool(Truth::Lit(holds_exec(c, std::cmp::Ordering::Greater))),
        ),
        (ComputeResult::Number(_), ComputeResult::String(_)) => Ok(
            ComputeResult::Bool(Truth::Lit(holds_exec(c, std::cmp::Ordering::Less))),
        ),
        _ => Err(EvalError::TypeMismatch),
    }
}

/// The binary operator `token` applied to two operand values.
fn do_bin_op(token: &Token, left: ComputeResult, right: ComputeResult) -> (r: Result<
    ComputeResult,
    EvalError,
>)
    ensures
        match apply(token@, left@, right@) {
            Ok(v) => r matches Ok(x) && x@ == v,
            Err(e) => r matches Err(f) && f@ == e,
        },
{
    let arith = match token {
        Token::Plus => Some(ArithOp::Add),
        Token::Minus => Some(ArithOp::Sub),
        Token::Mul => Some(ArithOp::Mul),
        Token::Div => Some(ArithOp::Div),
        _ => None,
    };
    if let Some(op) = arith {
        let x = match left.as_num() {
            Err(e) => {
                return Err(e);
            },
            Ok(x) => x,
        };
        let y = match right.as_num() {
            Err(e) => {
                return Err(e);
            },
            Ok(y) => y,
        };
        return Ok(ComputeResult::Number(Num::Arith(op, Box::new(x), Box::new(y))));
    }
    let cmp = match token {
        Token::Ee => Some(CmpOp::Eq),
        Token::Ne => Some(CmpOp::Ne),
        Token::Lt => Some(CmpOp::Lt),
        Token::Gt => Some(CmpOp::Gt),
        Token::Lte => Some(CmpOp::Lte),
        Token::Gte => Some(CmpOp::Gte),
        _ => None,
    };
    match cmp {
        Some(c) => compare_values(c, left, right),
        None => Err(EvalError::NotImplemented),
    }
}

/// Computes the value of formula texts.
#[derive(Debug)]
pub struct Interpreter {
    lexer: Lexer,
    parser: Parser,
}

impl Interpreter {
    /// The parser's operator tables are in place.
    pub closed spec fn wf(&self) -> bool {
        self.parser.wf()
    }

    /// An interpreter with fresh scratch buffers.
    pub fn new() -> (r: Interpreter)
        ensures
            r.wf(),
    {
        Interpreter { lexer: Lexer::new(), parser: Parser::new() }
    }

    /// The value of `input`, a formula standing at `position`, or the first
    /// error met in scanning, parsing or evaluating it.
    pub fn compute(&mut self, input: String, position: CellPosition) -> (r: Result<
        ComputeResult,
        FormulaError,
    >)
        requires
            old(self).wf(),
        ensures
            final(self).wf(),
            match formula_value(input@) {
                Ok(v) => r matches Ok(x) && x@ == v,
                Err(e) => r matches Err(f) && f@ == e,
            },
    {
        let tokens = match self.lexer.make_tokens(input) {
            Err(e) => {
                return Err(FormulaError::Lex(e));
            },
            Ok(t) => t,
        };
        let node = match self.parser.parse(tokens) {
            Err(e) => {
                return Err(FormulaError::Parse(e));
            },
            Ok(n) => n,
        };
        match self.evaluate(&node, &position) {
            Err(e) => Err(FormulaError::Eval(e)),
            Ok(v) => Ok(v),
        }
    }

    /// The value of a syntax tree.
    fn evaluate(&self, node: &ASTNode, position: &CellPosition) -> (r: Result<
        ComputeResult,
        EvalError,
    >)
        ensures
            match eval(node@) {
                Ok(v) => r matches Ok(x) && x@ == v,
                Err(e) => r matches Err(f) && f@ == e,
            },
        decreases node,
    {
        match node {
            ASTNode::Number(n) => Ok(ComputeResult::Number(Num::Lit(n.duplicate()))),
            ASTNode::SignedNumber(neg, child) => match self.evaluate(child, position) {
                Err(e) => Err(e),
                Ok(ComputeResult::Number(x)) => {
                    if *neg {
                        Ok(ComputeResult::Number(Num::Neg(Box::new(x))))
                    } else {
                        Ok(ComputeResult::Number(x))
                    }
                },
                Ok(ComputeResult::String(s)) => {
                    let mut out = String::new();
                    out.push(
                        if *neg {
                            '-'
                        } else {
                            '+'
                        },
                    );
                    let c = chars_of(s.as_str());
                    let ghost head = out@;
                    let mut k: usize = 0;
                    while k < c.len()
                        invariant
                            k <= c.len(),
                            head.len() == 1,
                            out@ == head + c@.take(k as int),
                        decreases c.len() - k,
                    {
                        proof {
                            assert(c@.take(k + 1) =~= c@.take(k as int).push(c@[k as int]));
                        }
                        out.push(c[k]);
                        k += 1;
                    }
                    assert(c@.take(c.len() as int) =~= c@);
                    Ok(ComputeResult::String(out))
                },
                Ok(ComputeResult::Bool(_)) => Err(EvalError::TypeMismatch),
            },
            ASTNode::String(s) => Ok(ComputeResult::String(s.clone())),
            ASTNode::Bool(b) => Ok(ComputeResult::Bool(Truth::Lit(*b))),
            ASTNode::BinaryOp(token, left, right) => {
                let a = match self.evaluate(left, position) {
                    Err(e) => {
                        return Err(e);
                    },
                    Ok(a) => a,
                };
                let b = match self.evaluate(right, position) {
                    Err(e) => {
                        return Err(e);
                    },
                    Ok(b) => b,
                };
                do_bin_op(token, a, b)
            },
            _ => Err(EvalError::NotImplemented),
        }
    }
}

} // verus!
