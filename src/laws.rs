use crate::interpreter::{
    compare, eval, holds, str_less, str_order, ArithOp, CmpOp, EvalFault, NumTerm, TruthTerm, Value,
};
use crate::lexer::{
    has_cell_shape, is_digit, is_letter, letters_end, lex, lex_from, mantissa_len, next_token, scan_number,
    strip_dollars, LexError,
};
use crate::node::Tree;
use crate::parser::{
    level_op, p_atom, p_factor, p_level, p_operand, p_paren, p_range, p_rest, parse_tokens, ParseError,
};
use crate::token::{Lit, Tok};
use vstd::prelude::*;

verus! {

/// A text compares as greater than a number, and a number as less than a
/// text, whatever the two values are.
pub proof fn text_above_number(c: CmpOp, s: Seq<char>, x: NumTerm)
    ensures
        compare(c, Value::String(s), Value::Number(x)) == Ok::<Value, EvalFault>(
            Value::Bool(TruthTerm::Lit(holds(c, std::cmp::Ordering::Greater))),
        ),
        compare(c, Value::Number(x), Value::String(s)) == Ok::<Value, EvalFault>(
            Value::Bool(TruthTerm::Lit(holds(c, std::cmp::Ordering::Less))),
        ),
{
}

/// Equal texts compare equal.
pub proof fn equal_texts_compare_equal(s: Seq<char>)
    ensures
        str_order(s, s) == std::cmp::Ordering::Equal,
{
    assert(!str_less(s, s));
}

/// Two texts are ordered by their first differing character code.
pub proof fn first_difference_decides(l: Seq<char>, r: Seq<char>, i: int)
    requires
        0 <= i < l.len(),
        i < r.len(),
        forall|k: int| 0 <= k < i ==> l[k] == r[k],
        l[i] != r[i],
    ensures
        str_order(l, r) == if l[i] < r[i] {
            std::cmp::Ordering::Less
        } else {
            std::cmp::Ordering::Greater
        },
{
    if l[i] < r[i] {
        assert(str_less(l, r));
    } else {
        assert(!str_less(l, r)) by {
            if str_less(l, r) {
                let j = choose|j: int|
                    0 <= j < l.len() && j < r.len() && (forall|k: int| 0 <= k < j ==> l[k] == r[k])
                        && (#[trigger] l[j]) < r[j];
                if j < i {
                    assert(l[j] == r[j]);
                } else if j > i {
                    assert(l[i] == r[i]);
                }
            }
        }
        assert(l != r);
    }
}

/// A numeral not followed by `:` is a factor of one token.
proof fn lemma_number_factor(t: Seq<Tok>, i: int, a: Lit)
    requires
        0 <= i < t.len(),
        t[i] == Tok::Number(a),
        i + 1 >= t.len() || !(t[i + 1] is Colon),
    ensures
        p_factor(t, i) == Ok::<(Tree, nat), ParseError>((Tree::Number(a), 0)),
{
}

/// An operand that no operator of its level follows is the whole level.
proof fn lemma_level_of_operand(t: Seq<Tok>, i: int, level: nat, x: Tree, e: nat)
    requires
        p_operand(t, i, level) == Ok::<(Tree, nat), ParseError>((x, e)),
        i + e + 1 >= t.len() || !level_op(level, t[i + e + 1].kind()),
        0 <= i,
    ensures
        p_level(t, i, level) == Ok::<(Tree, nat), ParseError>((x, e)),
{
    assert(p_rest(t, i + e + 1, level, x) == Ok::<(Tree, nat), ParseError>((x, 0)));
}

/// The term of a numeral.
pub open spec fn lit(a: Lit) -> NumTerm {
    NumTerm::Lit(a)
}

/// The term of an arithmetic operation.
pub open spec fn arith(o: ArithOp, x: NumTerm, y: NumTerm) -> NumTerm {
    NumTerm::Arith(o, Box::new(x), Box::new(y))
}

/// Operators of one level apply from left to right: `a - b - c` is
/// `(a - b) - c`.
pub proof fn subtraction_folds_left(a: Lit, b: Lit, c: Lit)
    ensures
        ({
            let t = seq![Tok::Number(a), Tok::Minus, Tok::Number(b), Tok::Minus, Tok::Number(c)];
            &&& parse_tokens(t) is Ok
            &&& eval(parse_tokens(t)->Ok_0) == Ok::<Value, EvalFault>(
                Value::Number(arith(ArithOp::Sub, arith(ArithOp::Sub, lit(a), lit(b)), lit(c))),
            )
        }),
{
    let t = seq![Tok::Number(a), Tok::Minus, Tok::Number(b), Tok::Minus, Tok::Number(c)];
    let na = Tree::Number(a);
    let nb = Tree::Number(b);
    let nc = Tree::Number(c);
    lemma_number_factor(t, 0, a);
    lemma_number_factor(t, 2, b);
    lemma_number_factor(t, 4, c);
    // the term level leaves each numeral alone
    assert(p_operand(t, 0, 3) == p_factor(t, 0));
    lemma_level_of_operand(t, 0, 3, na, 0);
    assert(p_operand(t, 2, 3) == p_factor(t, 2));
    lemma_level_of_operand(t, 2, 3, nb, 0);
    assert(p_operand(t, 4, 3) == p_factor(t, 4));
    lemma_level_of_operand(t, 4, 3, nc, 0);
    // the additive level folds them to the left
    let ab = Tree::BinaryOp(Tok::Minus, Box::new(na), Box::new(nb));
    let abc = Tree::BinaryOp(Tok::Minus, Box::new(ab), Box::new(nc));
    assert(p_operand(t, 0, 2) == p_level(t, 0, 3));
    assert(p_operand(t, 2, 2) == p_level(t, 2, 3));
    assert(p_operand(t, 4, 2) == p_level(t, 4, 3));
    assert(p_rest(t, 5, 2, abc) == Ok::<(Tree, nat), ParseError>((abc, 0)));
    assert(p_rest(t, 3, 2, ab) == Ok::<(Tree, nat), ParseError>((abc, 2)));
    assert(p_rest(t, 1, 2, na) == Ok::<(Tree, nat), ParseError>((abc, 4)));
    assert(p_level(t, 0, 2) == Ok::<(Tree, nat), ParseError>((abc, 4)));
    assert(p_operand(t, 0, 1) == p_level(t, 0, 2));
    lemma_level_of_operand(t, 0, 1, abc, 4);
    assert(p_operand(t, 0, 0) == p_level(t, 0, 1));
    lemma_level_of_operand(t, 0, 0, abc, 4);
    assert(parse_tokens(t) == Ok::<Tree, ParseError>(abc));
    assert(eval(na) == Ok::<Value, EvalFault>(Value::Number(lit(a))));
    assert(eval(nb) == Ok::<Value, EvalFault>(Value::Number(lit(b))));
    assert(eval(nc) == Ok::<Value, EvalFault>(Value::Number(lit(c))));
    assert(eval(ab) == Ok::<Value, EvalFault>(
        Value::Number(arith(ArithOp::Sub, lit(a), lit(b))),
    ));
}

/// `*` and `/` bind tighter than `+` and `-`: `a + b * c` is `a + (b * c)`.
pub proof fn product_binds_tighter(a: Lit, b: Lit, c: Lit)
    ensures
        ({
            let t = seq![Tok::Number(a), Tok::Plus, Tok::Number(b), Tok::Mul, Tok::Number(c)];
            let bc = Tree::BinaryOp(Tok::Mul, Box::new(Tree::Number(b)), Box::new(Tree::Number(c)));
            &&& parse_tokens(t) == Ok::<Tree, ParseError>(
                Tree::BinaryOp(Tok::Plus, Box::new(Tree::Number(a)), Box::new(bc)),
            )
            &&& eval(parse_tokens(t)->Ok_0) == Ok::<Value, EvalFault>(
                Value::Number(arith(ArithOp::Add, lit(a), arith(ArithOp::Mul, lit(b), lit(c)))),
            )
        }),
{
    let t = seq![Tok::Number(a), Tok::Plus, Tok::Number(b), Tok::Mul, Tok::Number(c)];
    let na = Tree::Number(a);
    let nb = Tree::Number(b);
    let nc = Tree::Number(c);
    lemma_number_factor(t, 0, a);
    lemma_number_factor(t, 2, b);
    lemma_number_factor(t, 4, c);
    let bc = Tree::BinaryOp(Tok::Mul, Box::new(nb), Box::new(nc));
    let abc = Tree::BinaryOp(Tok::Plus, Box::new(na), Box::new(bc));
    // the term level
    assert(p_operand(t, 0, 3) == p_factor(t, 0));
    lemma_level_of_operand(t, 0, 3, na, 0);
    assert(p_operand(t, 2, 3) == p_factor(t, 2));
    assert(p_operand(t, 4, 3) == p_factor(t, 4));
    assert(p_rest(t, 5, 3, bc) == Ok::<(Tree, nat), ParseError>((bc, 0)));
    assert(p_rest(t, 3, 3, nb) == Ok::<(Tree, nat), ParseError>((bc, 2)));
    assert(p_level(t, 2, 3) == Ok::<(Tree, nat), ParseError>((bc, 2)));
    // the additive level
    assert(p_operand(t, 0, 2) == p_level(t, 0, 3));
    assert(p_operand(t, 2, 2) == p_level(t, 2, 3));
    assert(p_rest(t, 5, 2, abc) == Ok::<(Tree, nat), ParseError>((abc, 0)));
    assert(p_rest(t, 1, 2, na) == Ok::<(Tree, nat), ParseError>((abc, 4)));
    assert(p_level(t, 0, 2) == Ok::<(Tree, nat), ParseError>((abc, 4)));
    assert(p_operand(t, 0, 1) == p_level(t, 0, 2));
    lemma_level_of_operand(t, 0, 1, abc, 4);
    assert(p_operand(t, 0, 0) == p_level(t, 0, 1));
    lemma_level_of_operand(t, 0, 0, abc, 4);
    assert(parse_tokens(t) == Ok::<Tree, ParseError>(abc));
    assert(eval(na) == Ok::<Value, EvalFault>(Value::Number(lit(a))));
    assert(eval(nb) == Ok::<Value, EvalFault>(Value::Number(lit(b))));
    assert(eval(nc) == Ok::<Value, EvalFault>(Value::Number(lit(c))));
    assert(eval(bc) == Ok::<Value, EvalFault>(
        Value::Number(arith(ArithOp::Mul, lit(b), lit(c))),
    ));
}

/// Parentheses that repeat the precedence change nothing: `a + (b * c)`
/// parses to the same tree as `a + b * c`, so it has the same value.
pub proof fn redundant_parentheses_change_nothing(a: Lit, b: Lit, c: Lit)
    ensures
        ({
            let plain = seq![Tok::Number(a), Tok::Plus, Tok::Number(b), Tok::Mul, Tok::Number(c)];
            let grouped = seq![
                Tok::Number(a),
                Tok::Plus,
                Tok::Lparen,
                Tok::Number(b),
                Tok::Mul,
                Tok::Number(c),
                Tok::Rparen,
            ];
            &&& parse_tokens(plain) is Ok
            &&& parse_tokens(grouped) == parse_tokens(plain)
        }),
{
    product_binds_tighter(a, b, c);
    let t = seq![
        Tok::Number(a),
        Tok::Plus,
        Tok::Lparen,
        Tok::Number(b),
        Tok::Mul,
        Tok::Number(c),
        Tok::Rparen,
    ];
    let na = Tree::Number(a);
    let nb = Tree::Number(b);
    let nc = Tree::Number(c);
    lemma_number_factor(t, 0, a);
    lemma_number_factor(t, 3, b);
    lemma_number_factor(t, 5, c);
    let bc = Tree::BinaryOp(Tok::Mul, Box::new(nb), Box::new(nc));
    let abc = Tree::BinaryOp(Tok::Plus, Box::new(na), Box::new(bc));
    // inside the parentheses
    assert(p_operand(t, 3, 3) == p_factor(t, 3));
    assert(p_operand(t, 5, 3) == p_factor(t, 5));
    assert(p_rest(t, 6, 3, bc) == Ok::<(Tree, nat), ParseError>((bc, 0)));
    assert(p_rest(t, 4, 3, nb) == Ok::<(Tree, nat), ParseError>((bc, 2)));
    assert(p_level(t, 3, 3) == Ok::<(Tree, nat), ParseError>((bc, 2)));
    assert(p_operand(t, 3, 2) == p_level(t, 3, 3));
    lemma_level_of_operand(t, 3, 2, bc, 2);
    assert(p_operand(t, 3, 1) == p_level(t, 3, 2));
    lemma_level_of_operand(t, 3, 1, bc, 2);
    assert(p_operand(t, 3, 0) == p_level(t, 3, 1));
    lemma_level_of_operand(t, 3, 0, bc, 2);
    assert(p_paren(t, 2) == Ok::<(Tree, nat), ParseError>((bc, 4)));
    assert(p_atom(t, 2) == Ok::<(Tree, nat), ParseError>((bc, 4)));
    assert(p_range(t, 2) == Ok::<(Tree, nat), ParseError>((bc, 4)));
    assert(p_factor(t, 2) == Ok::<(Tree, nat), ParseError>((bc, 4)));
    assert(p_operand(t, 2, 3) == p_factor(t, 2));
    lemma_level_of_operand(t, 2, 3, bc, 4);
    // around them
    assert(p_operand(t, 0, 3) == p_factor(t, 0));
    lemma_level_of_operand(t, 0, 3, na, 0);
    assert(p_operand(t, 0, 2) == p_level(t, 0, 3));
    assert(p_operand(t, 2, 2) == p_level(t, 2, 3));
    assert(p_rest(t, 7, 2, abc) == Ok::<(Tree, nat), ParseError>((abc, 0)));
    assert(p_rest(t, 1, 2, na) == Ok::<(Tree, nat), ParseError>((abc, 6)));
    assert(p_level(t, 0, 2) == Ok::<(Tree, nat), ParseError>((abc, 6)));
    assert(p_operand(t, 0, 1) == p_level(t, 0, 2));
    lemma_level_of_operand(t, 0, 1, abc, 6);
    assert(p_operand(t, 0, 0) == p_level(t, 0, 1));
    lemma_level_of_operand(t, 0, 0, abc, 6);
    assert(parse_tokens(t) == Ok::<Tree, ParseError>(abc));
}

/// A range from a cell to a column name is rejected when parsing.
pub proof fn cell_to_column_range_rejected(cell: Seq<char>, column: Seq<char>)
    ensures
        parse_tokens(seq![Tok::Ref(cell), Tok::Colon, Tok::Var(column)]) == Err::<Tree, ParseError>(
            ParseError::InvalidRange,
        ),
{
    let t = seq![Tok::Ref(cell), Tok::Colon, Tok::Var(column)];
    let err = Err::<(Tree, nat), ParseError>(ParseError::InvalidRange);
    assert(p_atom(t, 0) == Ok::<(Tree, nat), ParseError>((Tree::Ref(cell, None), 0)));
    assert(p_atom(t, 2) == Ok::<(Tree, nat), ParseError>((Tree::Var(column), 0)));
    assert(p_range(t, 0) == err);
    assert(p_factor(t, 0) == err);
    assert(p_operand(t, 0, 3) == err);
    assert(p_level(t, 0, 3) == err);
    assert(p_operand(t, 0, 2) == err);
    assert(p_level(t, 0, 2) == err);
    assert(p_operand(t, 0, 1) == err);
    assert(p_level(t, 0, 1) == err);
    assert(p_operand(t, 0, 0) == err);
    assert(p_level(t, 0, 0) == err);
}

/// References, ranges and calls parse, but have no value here: evaluating
/// one fails as not implemented, whatever it holds.
pub proof fn references_not_implemented(t: Tree)
    requires
        t is Ref || t is Range || t is RowRange || t is ColRange || t is UndeterminedRange
            || t is Call || t is Var,
    ensures
        eval(t) == Err::<Value, EvalFault>(EvalFault::NotImplemented),
{
}

proof fn lemma_letters_end(w: Seq<char>, a: int, n: int)
    requires
        0 <= a,
        0 <= n,
        a + n <= w.len(),
        forall|k: int| a <= k < a + n ==> is_letter(#[trigger] w[k]),
        a + n == w.len() || !is_letter(w[a + n]),
    ensures
        letters_end(w, a) == a + n,
    decreases n,
{
    if n > 0 {
        lemma_letters_end(w, a + 1, n - 1);
    }
}

proof fn lemma_strip_plain(x: Seq<char>)
    requires
        forall|k: int| 0 <= k < x.len() ==> #[trigger] x[k] != '$',
    ensures
        strip_dollars(x) == x,
    decreases x.len(),
{
    if x.len() > 0 {
        lemma_strip_plain(x.drop_last());
        assert(x.drop_last().push(x.last()) =~= x);
    }
}

proof fn lemma_strip_concat(x: Seq<char>, y: Seq<char>)
    ensures
        strip_dollars(x + y) == strip_dollars(x) + strip_dollars(y),
    decreases y.len(),
{
    if y.len() == 0 {
        assert(x + y =~= x);
        assert(strip_dollars(x) + strip_dollars(y) =~= strip_dollars(x));
    } else {
        lemma_strip_concat(x, y.drop_last());
        assert((x + y).drop_last() =~= x + y.drop_last());
        assert((x + y).last() == y.last());
        if y.last() != '$' {
            assert(strip_dollars(x) + strip_dollars(y.drop_last()).push(y.last()) =~= (
            strip_dollars(x) + strip_dollars(y.drop_last())).push(y.last()));
        }
    }
}

proof fn lemma_cell_form(w: Seq<char>, l: Seq<char>, d: Seq<char>, a: int, q: int)
    requires
        a == 0 || a == 1,
        l.len() > 0,
        d.len() > 0,
        forall|k: int| 0 <= k < l.len() ==> is_letter(#[trigger] l[k]),
        forall|k: int| 0 <= k < d.len() ==> is_digit(#[trigger] d[k]),
        w.len() == q + d.len(),
        q == a + l.len() || (q == a + l.len() + 1 && w[a + l.len()] == '$'),
        a == 1 ==> w[0] == '$',
        forall|k: int| 0 <= k < l.len() ==> w[a + k] == l[k],
        forall|k: int| 0 <= k < d.len() ==> w[q + k] == d[k],
    ensures
        has_cell_shape(w),
{
    let p = a + l.len();
    assert forall|k: int| a <= k < p implies is_letter(#[trigger] w[k]) by {
        assert(w[a + (k - a)] == l[k - a]);
    }
    if q == p {
        assert(w[q + 0] == d[0]);
    }
    lemma_letters_end(w, a, l.len() as int);
    assert forall|k: int| q <= k < w.len() implies is_digit(#[trigger] w[k]) by {
        assert(w[q + (k - q)] == d[k - q]);
    }
    if a == 0 {
        assert(w[0] == l[0]);
    }
}

/// A cell name keeps its shape with a `$` before its letters, before its
/// digits, or both, and each of the four forms stores the same name.
pub proof fn cell_anchors_stripped(l: Seq<char>, d: Seq<char>)
    requires
        l.len() > 0,
        d.len() > 0,
        forall|k: int| 0 <= k < l.len() ==> is_letter(#[trigger] l[k]),
        forall|k: int| 0 <= k < d.len() ==> is_digit(#[trigger] d[k]),
    ensures
        ({
            let s = seq!['$'];
            &&& has_cell_shape(l + d)
            &&& has_cell_shape(s + l + d)
            &&& has_cell_shape(l + s + d)
            &&& has_cell_shape(s + l + s + d)
            &&& strip_dollars(l + d) == l + d
            &&& strip_dollars(s + l + d) == l + d
            &&& strip_dollars(l + s + d) == l + d
            &&& strip_dollars(s + l + s + d) == l + d
        }),
{
    let s = seq!['$'];
    let n = l.len() as int;
    lemma_cell_form(l + d, l, d, 0, n);
    lemma_cell_form(s + l + d, l, d, 1, n + 1);
    lemma_cell_form(l + s + d, l, d, 0, n + 1);
    lemma_cell_form(s + l + s + d, l, d, 1, n + 2);
    assert forall|k: int| 0 <= k < l.len() implies #[trigger] l[k] != '$' by {
        assert(is_letter(l[k]));
    }
    assert forall|k: int| 0 <= k < d.len() implies #[trigger] d[k] != '$' by {
        assert(is_digit(d[k]));
    }
    lemma_strip_plain(l);
    lemma_strip_plain(d);
    assert(strip_dollars(s.drop_last()) == Seq::<char>::empty());
    assert(s.drop_last() =~= Seq::<char>::empty());
    assert(strip_dollars(s) == Seq::<char>::empty());
    lemma_strip_concat(l, d);
    lemma_strip_concat(s, l);
    lemma_strip_concat(s + l, d);
    lemma_strip_concat(l, s);
    lemma_strip_concat(l + s, d);
    lemma_strip_concat(s + l, s);
    lemma_strip_concat(s + l + s, d);
    assert(Seq::<char>::empty() + l =~= l);
    assert(l + Seq::<char>::empty() =~= l);
}

proof fn lemma_mantissa_digits(s: Seq<char>, i: int, n: int, dot: bool)
    requires
        0 <= i,
        0 <= n,
        i + n <= s.len(),
        forall|k: int| i <= k < i + n ==> is_digit(#[trigger] s[k]),
    ensures
        match mantissa_len(s, i + n, dot) {
            Ok(m) => mantissa_len(s, i, dot) == Ok::<nat, LexError>(m + n as nat),
            Err(e) => mantissa_len(s, i, dot) == Err::<nat, LexError>(e),
        },
    decreases n,
{
    if n > 0 {
        lemma_mantissa_digits(s, i + 1, n - 1, dot);
    }
}

/// A numeral with a second decimal point is rejected, not cut short:
/// digits, a point, digits and another point fail to scan, whatever follows.
pub proof fn second_decimal_point_rejected(x: Seq<char>, y: Seq<char>, rest: Seq<char>)
    requires
        x.len() > 0,
        forall|k: int| 0 <= k < x.len() ==> is_digit(#[trigger] x[k]),
        forall|k: int| 0 <= k < y.len() ==> is_digit(#[trigger] y[k]),
    ensures
        lex(x + seq!['.'] + y + seq!['.'] + rest) == Err::<Seq<Tok>, LexError>(
            LexError::MalformedNumber,
        ),
{
    let s = x + seq!['.'] + y + seq!['.'] + rest;
    let a = x.len() as int;
    let b = a + 1 + y.len();
    assert forall|k: int| 0 <= k < a implies is_digit(#[trigger] s[k]) by {
        assert(s[k] == x[k]);
    }
    assert forall|k: int| a + 1 <= k < b implies is_digit(#[trigger] s[k]) by {
        assert(s[k] == y[k - a - 1]);
    }
    assert(s[a] == '.');
    assert(s[b] == '.');
    let err = Err::<nat, LexError>(LexError::MalformedNumber);
    assert(mantissa_len(s, b, true) == err);
    lemma_mantissa_digits(s, a + 1, y.len() as int, true);
    assert(mantissa_len(s, a + 1, true) == err);
    assert(mantissa_len(s, a, false) == err);
    lemma_mantissa_digits(s, 0, a, false);
    assert(mantissa_len(s, 0, false) == err);
    assert(scan_number(s, 0) == Err::<(Lit, int), LexError>(LexError::MalformedNumber));
    assert(s[0] == x[0]);
    assert(next_token(s, 0) == Err::<(Tok, int), LexError>(LexError::MalformedNumber));
    assert(lex_from(s, 0) == Err::<Seq<Tok>, LexError>(LexError::MalformedNumber));
}

/// Digits followed by `%` scan as one percent numeral of those digits.
pub proof fn percent_numeral(d: Seq<char>)
    requires
        d.len() > 0,
        forall|k: int| 0 <= k < d.len() ==> is_digit(#[trigger] d[k]),
    ensures
        lex(d + seq!['%']) == Ok::<Seq<Tok>, LexError>(seq![Tok::Number(Lit::Percent(d))]),
{
    let s = d + seq!['%'];
    let n = d.len() as int;
    assert forall|k: int| 0 <= k < n implies is_digit(#[trigger] s[k]) by {
        assert(s[k] == d[k]);
    }
    assert(s[n] == '%');
    assert(mantissa_len(s, n, false) == Ok::<nat, LexError>(0));
    lemma_mantissa_digits(s, 0, n, false);
    assert(s.subrange(0, n) =~= d);
    assert(scan_number(s, 0) == Ok::<(Lit, int), LexError>((Lit::Percent(d), n + 1)));
    assert(s[0] == d[0]);
    let t = Tok::Number(Lit::Percent(d));
    assert(next_token(s, 0) == Ok::<(Tok, int), LexError>((t, n + 1)));
    assert(lex_from(s, n + 1) == Ok::<Seq<Tok>, LexError>(Seq::empty()));
    assert(seq![t] + Seq::<Tok>::empty() =~= seq![t]);
}

/// Digits, `e`, `-` and digits scan as one numeral: the first digits scaled
/// by ten to the negated power of the second.
pub proof fn negative_exponent_numeral(m: Seq<char>, x: Seq<char>)
    requires
        m.len() > 0,
        x.len() > 0,
        forall|k: int| 0 <= k < m.len() ==> is_digit(#[trigger] m[k]),
        forall|k: int| 0 <= k < x.len() ==> is_digit(#[trigger] x[k]),
    ensures
        lex(m + seq!['e', '-'] + x) == Ok::<Seq<Tok>, LexError>(
            seq![Tok::Number(Lit::Scaled(m, true, Box::new(Lit::Plain(x))))],
        ),
{
    let s = m + seq!['e', '-'] + x;
    let n = m.len() as int;
    let k0 = n + 2;
    assert forall|k: int| 0 <= k < n implies is_digit(#[trigger] s[k]) by {
        assert(s[k] == m[k]);
    }
    assert forall|k: int| k0 <= k < s.len() implies is_digit(#[trigger] s[k]) by {
        assert(s[k] == x[k - k0]);
    }
    assert(s[n] == 'e');
    assert(s[n + 1] == '-');
    assert(mantissa_len(s, n, false) == Ok::<nat, LexError>(0));
    lemma_mantissa_digits(s, 0, n, false);
    assert(mantissa_len(s, s.len() as int, false) == Ok::<nat, LexError>(0));
    lemma_mantissa_digits(s, k0, x.len() as int, false);
    assert(s.subrange(0, n) =~= m);
    assert(s.subrange(k0, s.len() as int) =~= x);
    assert(s[k0] == x[0]);
    assert(scan_number(s, k0) == Ok::<(Lit, int), LexError>(
        (Lit::Plain(x), s.len() as int),
    ));
    let lit = Lit::Scaled(m, true, Box::new(Lit::Plain(x)));
    assert(scan_number(s, 0) == Ok::<(Lit, int), LexError>((lit, s.len() as int)));
    assert(s[0] == m[0]);
    let t = Tok::Number(lit);
    assert(next_token(s, 0) == Ok::<(Tok, int), LexError>((t, s.len() as int)));
    assert(lex_from(s, s.len() as int) == Ok::<Seq<Tok>, LexError>(Seq::empty()));
    assert(seq![t] + Seq::<Tok>::empty() =~= seq![t]);
}

} // verus!
