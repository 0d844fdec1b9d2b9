use formula_calc::{
    bigger_string, some, ASTNode, ArithOp, CellPosition, CmpOp, ComputeResult, EvalError,
    FormulaError, Interpreter, LexError, Lexer, Num, Numeral, ParseError, Parser, Token, Truth,
};

fn numeral_value(n: &Numeral) -> f32 {
    match n {
        Numeral::Plain(d) => d.parse::<f32>().unwrap(),
        Numeral::Percent(d) => d.parse::<f32>().unwrap() / 100_f32,
        Numeral::Scaled(d, neg, e) => {
            let sign = if *neg { -1_f32 } else { 1_f32 };
            d.parse::<f32>().unwrap() * 10_f32.powf(sign * numeral_value(e))
        }
    }
}

fn num_value(n: &Num) -> f32 {
    match n {
        Num::Lit(x) => numeral_value(x),
        Num::Text(s) => s.parse::<f32>().unwrap(),
        Num::Neg(x) => -num_value(x),
        Num::Arith(op, a, b) => {
            let (a, b) = (num_value(a), num_value(b));
            match op {
                ArithOp::Add => a + b,
                ArithOp::Sub => a - b,
                ArithOp::Mul => a * b,
                ArithOp::Div => a / b,
            }
        }
    }
}

fn truth_value(t: &Truth) -> bool {
    match t {
        Truth::Lit(b) => *b,
        Truth::Compare(op, a, b) => {
            let (a, b) = (num_value(a), num_value(b));
            match op {
                CmpOp::Eq => a == b,
                CmpOp::Ne => a != b,
                CmpOp::Lt => a < b,
                CmpOp::Gt => a > b,
                CmpOp::Lte => a <= b,
                CmpOp::Gte => a >= b,
            }
        }
    }
}

fn position() -> CellPosition {
    CellPosition { sheet: "Sheet1".to_string(), row: 1, col: 1 }
}

fn run(text: &str) -> Result<ComputeResult, FormulaError> {
    let mut itp = Interpreter::new();
    itp.compute(text.to_string(), position())
}

fn number(text: &str) -> f32 {
    match run(text) {
        Ok(ComputeResult::Number(n)) => num_value(&n),
        other => panic!("{:?} gave {:?}", text, other),
    }
}

fn truth(text: &str) -> bool {
    match run(text) {
        Ok(ComputeResult::Bool(t)) => truth_value(&t),
        other => panic!("{:?} gave {:?}", text, other),
    }
}

fn text(text: &str) -> String {
    match run(text) {
        Ok(ComputeResult::String(s)) => s,
        other => panic!("{:?} gave {:?}", text, other),
    }
}

fn tokens(text: &str) -> Vec<Token> {
    Lexer::new().make_tokens(text.to_string()).unwrap()
}

fn tree(text: &str) -> Result<ASTNode, ParseError> {
    Parser::new().parse(tokens(text))
}

#[test]
fn compute() {
    let now = std::time::Instant::now();
    let mut itp = Interpreter::new();
    let mut i = 0;
    while i < 10 {
        let input = "1+2+3+4+5+6+7+8+9+10";
        let position = CellPosition { sheet: "Sheet1".to_string(), row: 1, col: 1 };
        let _ = itp.compute(input.to_string(), position);
        i += 1;
    }
    println!("{:?}", now.elapsed());
}

#[test]
fn sum_of_one_to_ten() {
    assert_eq!(number("1+2+3+4+5+6+7+8+9+10"), 55.0);
}

#[test]
fn interpreter_is_reusable() {
    let mut itp = Interpreter::new();
    for _ in 0..3 {
        match itp.compute("2*3".to_string(), position()) {
            Ok(ComputeResult::Number(n)) => assert_eq!(num_value(&n), 6.0),
            other => panic!("{:?}", other),
        }
    }
}

#[test]
fn left_to_right_subtraction_and_division() {
    assert_eq!(number("10-4-3"), 3.0);
    assert_eq!(number("64/8/2"), 4.0);
    match run("1-2-3") {
        Ok(ComputeResult::Number(Num::Arith(ArithOp::Sub, left, _))) => {
            assert!(matches!(*left, Num::Arith(ArithOp::Sub, _, _)));
        }
        other => panic!("{:?}", other),
    }
}

#[test]
fn parentheses_and_precedence() {
    assert_eq!(number("(1+2)*3"), 9.0);
    assert_eq!(number("1+2*3"), 7.0);
    assert_eq!(number("1+(2*3)"), 7.0);
    assert_eq!(number("((7))"), 7.0);
}

#[test]
fn division_by_zero_follows_floats() {
    assert!(number("1/0").is_infinite());
}

#[test]
fn unary_signs() {
    assert_eq!(number("-5+2"), -3.0);
    assert_eq!(number("+5"), 5.0);
    assert_eq!(number("2*-3"), -6.0);
}

#[test]
fn text_against_number() {
    assert!(truth("\"abc\" > 5"));
    assert!(!truth("5 > \"abc\""));
    assert!(truth("5 <> \"abc\""));
}

#[test]
fn text_ordering() {
    assert!(truth("\"apple\" < \"banana\""));
    assert!(truth("\"abc\" = \"abc\""));
    assert!(truth("\"abc\" >= \"abc\""));
    assert!(!truth("\"abc\" <> \"abc\""));
    assert!(!truth("\"ab\" < \"abc\""));
    assert!(!truth("\"abc\" < \"ab\""));
    assert!(truth("\"ab\" > \"abc\""));
}

#[test]
fn number_comparisons() {
    assert!(truth("1 < 2"));
    assert!(truth("2 <= 2"));
    assert!(!truth("3 = 4"));
    assert!(truth("1+1 = 2"));
    assert!(truth("TRUE"));
    assert!(!truth("FALSE"));
}

#[test]
fn percent_and_scientific_literals() {
    assert_eq!(number("50%"), 0.5);
    assert_eq!(number("1E2"), 100.0);
    assert!((number("1.5e-1") - 0.15).abs() < 1e-6);
    assert_eq!(number("2e+1"), 20.0);
    assert_eq!(number("12.25"), 12.25);
}

#[test]
fn malformed_numerals() {
    assert!(matches!(run("1.2.3"), Err(FormulaError::Lex(LexError::MalformedNumber))));
    assert!(matches!(run("1e"), Err(FormulaError::Lex(LexError::MalformedNumber))));
    assert!(matches!(run("1e+"), Err(FormulaError::Lex(LexError::MalformedNumber))));
    assert!(matches!(run("3E."), Err(FormulaError::Lex(LexError::MalformedNumber))));
}

#[test]
fn other_lex_errors() {
    assert!(matches!(run("1 # 2"), Err(FormulaError::Lex(LexError::UnexpectedChar('#')))));
    assert!(matches!(run("\"abc"), Err(FormulaError::Lex(LexError::UnterminatedString))));
    assert!(matches!(run("'Sheet"), Err(FormulaError::Lex(LexError::UnterminatedString))));
}

#[test]
fn cell_anchors_are_stripped() {
    for cell in ["A1", "$A1", "A$1", "$A$1"] {
        let t = tokens(cell);
        assert_eq!(t.len(), 1);
        match &t[0] {
            Token::Ref(r) => assert_eq!(r, "A1"),
            other => panic!("{} gave {:?}", cell, other),
        }
    }
}

#[test]
fn identifiers_that_are_not_cells() {
    assert!(matches!(&tokens("AB")[0], Token::Var(v) if v == "AB"));
    assert!(matches!(&tokens("A1B")[0], Token::Var(v) if v == "A1B"));
    assert!(matches!(&tokens("$$A1")[0], Token::Var(v) if v == "$$A1"));
    assert!(matches!(&tokens("TRUE")[0], Token::Bool(true)));
    assert!(matches!(&tokens("True")[0], Token::Var(_)));
    assert!(matches!(&tokens("Sheet1!A1")[0], Token::Sheet(s) if s == "Sheet1"));
    assert!(matches!(&tokens("'My Sheet'")[0], Token::Sheet(s) if s == "My Sheet"));
}

#[test]
fn operators_lex() {
    let t = tokens("<= <> < >= > = & ! , : ( )");
    let kinds: Vec<bool> = vec![
        matches!(t[0], Token::Lte),
        matches!(t[1], Token::Ne),
        matches!(t[2], Token::Lt),
        matches!(t[3], Token::Gte),
        matches!(t[4], Token::Gt),
        matches!(t[5], Token::Ee),
        matches!(t[6], Token::And),
        matches!(t[7], Token::Csref),
        matches!(t[8], Token::Comma),
        matches!(t[9], Token::Colon),
        matches!(t[10], Token::Lparen),
        matches!(t[11], Token::Rparen),
    ];
    assert_eq!(t.len(), 12);
    assert!(kinds.iter().all(|k| *k));
}

#[test]
fn range_shape_mismatch() {
    assert!(matches!(run("A1:B"), Err(FormulaError::Parse(ParseError::InvalidRange))));
    assert!(matches!(run("1:B"), Err(FormulaError::Parse(ParseError::InvalidRange))));
    assert!(matches!(run("A:1"), Err(FormulaError::Parse(ParseError::InvalidRange))));
    assert!(matches!(run("\"x\":A1"), Err(FormulaError::Parse(ParseError::InvalidRange))));
}

#[test]
fn ranges_and_calls_parse() {
    assert!(matches!(tree("A1:B2"), Ok(ASTNode::Range(_, _))));
    assert!(matches!(tree("A:C"), Ok(ASTNode::ColRange(f, t, None)) if f == "A" && t == "C"));
    assert!(matches!(tree("1:3"), Ok(ASTNode::RowRange(_, _, None))));
    assert!(matches!(tree("Sheet1!A:B"), Ok(ASTNode::ColRange(_, _, Some(s))) if s == "Sheet1"));
    assert!(matches!(tree("'My Sheet'!2:4"), Ok(ASTNode::RowRange(_, _, Some(s))) if s == "My Sheet"));
    assert!(matches!(tree("Sheet1!B7"), Ok(ASTNode::Ref(c, Some(s))) if c == "B7" && s == "Sheet1"));
    match tree("SUM(A1:A5, 2, , 3)") {
        Ok(ASTNode::Call(name, args)) => {
            assert_eq!(name, "SUM");
            assert_eq!(args.len(), 3);
            assert!(matches!(args[0], ASTNode::Range(_, _)));
        }
        other => panic!("{:?}", other),
    }
}

#[test]
fn references_are_not_implemented() {
    assert!(matches!(run("SUM(A1:A5)"), Err(FormulaError::Eval(EvalError::NotImplemented))));
    assert!(matches!(run("A1:B2"), Err(FormulaError::Eval(EvalError::NotImplemented))));
    assert!(matches!(run("A1+1"), Err(FormulaError::Eval(EvalError::NotImplemented))));
    assert!(matches!(run("\"a\" & \"b\""), Err(FormulaError::Eval(EvalError::NotImplemented))));
}

#[test]
fn parse_errors() {
    assert!(matches!(run(""), Err(FormulaError::Parse(ParseError::UnexpectedEof))));
    assert!(matches!(run("1+"), Err(FormulaError::Parse(ParseError::UnexpectedEof))));
    assert!(matches!(run("(1+2"), Err(FormulaError::Parse(ParseError::UnmatchedParenthesis))));
    assert!(matches!(run(")"), Err(FormulaError::Parse(ParseError::UnexpectedToken))));
    assert!(matches!(run("'S' A1"), Err(FormulaError::Parse(ParseError::ExpectedCrossSheetMarker))));
    assert!(matches!(run("'S'!+"), Err(FormulaError::Parse(ParseError::InvalidCrossSheetReference))));
    assert!(matches!(run("'S'!"), Err(FormulaError::Parse(ParseError::UnexpectedEof))));
    assert!(matches!(run("SUM(1,"), Err(FormulaError::Parse(ParseError::UnexpectedEof))));
}

#[test]
fn coercion_of_texts() {
    assert_eq!(number("\"2\" * 3"), 6.0);
    assert_eq!(number("\"1.5e1\" + 1"), 16.0);
    assert_eq!(number("\".5\" * 4"), 2.0);
    assert!(number("\"-Infinity\" + 1").is_infinite());
    assert!(number("\"nan\" * 1").is_nan());
    assert!(matches!(run("\"1e\" + 1"), Err(FormulaError::Eval(EvalError::NotNumeric(_)))));
    assert!(matches!(run("\" 1\" + 1"), Err(FormulaError::Eval(EvalError::NotNumeric(_)))));
    match run("\"abc\" + 1") {
        Err(FormulaError::Eval(EvalError::NotNumeric(s))) => assert_eq!(s, "abc"),
        other => panic!("{:?}", other),
    }
    assert!(matches!(run("TRUE + 1"), Err(FormulaError::Eval(EvalError::TypeMismatch))));
    assert!(matches!(run("TRUE < 1"), Err(FormulaError::Eval(EvalError::TypeMismatch))));
}

#[test]
fn sign_on_text_and_bool() {
    assert_eq!(text("-\"abc\""), "-abc");
    assert_eq!(text("+\"abc\""), "+abc");
    assert!(matches!(run("-TRUE"), Err(FormulaError::Eval(EvalError::TypeMismatch))));
}

#[test]
fn as_num_conversions() {
    assert!(matches!(ComputeResult::String("12.5".to_string()).as_num(), Ok(Num::Text(s)) if s == "12.5"));
    assert!(matches!(ComputeResult::String("x".to_string()).as_num(), Err(EvalError::NotNumeric(s)) if s == "x"));
    assert!(matches!(ComputeResult::Bool(Truth::Lit(true)).as_num(), Err(EvalError::TypeMismatch)));
}

#[test]
fn bigger_string_orders_by_code() {
    assert!(bigger_string(&"apple".to_string(), &"banana".to_string()));
    assert!(!bigger_string(&"banana".to_string(), &"apple".to_string()));
    assert!(!bigger_string(&"ab".to_string(), &"abc".to_string()));
    assert!(!bigger_string(&"abc".to_string(), &"abc".to_string()));
    assert!(bigger_string(&"B".to_string(), &"a".to_string()));
}

#[test]
fn token_kinds_match() {
    let one = Token::Number(Numeral::Plain("1".to_string()));
    let two = Token::Number(Numeral::Plain("2".to_string()));
    assert!(one.matches(&two));
    assert!(!Token::Plus.matches(&Token::Minus));
    assert!(Token::Var("a".to_string()).matches(&Token::Var("b".to_string())));
}

#[test]
fn some_finds_items() {
    let v = vec![1, 2, 3];
    assert!(some(&v, |x: &i32| *x == 2));
    assert!(!some(&v, |x: &i32| *x > 3));
    assert!(!some(&Vec::<i32>::new(), |_: &i32| true));
}
