use crate::token::{toks_view, Lit, Numeral, Tok, Token};
use crate::utils::chars_of;
use vstd::prelude::*;

verus! {

/// Why a formula text could not be split into tokens.
#[derive(Clone, Copy, Debug, PartialEq, Eq, Structural)]
pub enum LexError {
    /// A character that starts no token.
    UnexpectedChar(char),
    /// A second decimal point, or no digits where a numeral needs them.
    MalformedNumber,
    /// A quoted text that the end of the input cuts off.
    UnterminatedString,
}

/// The regular expression of a cell reference: an optional `$`, letters, an
/// optional `$`, digits.
pub const CELL_PATTERN: &'static str = "^\\$?[A-Za-z]+\\$?\\d+$";

pub open spec fn is_space(c: char) -> bool {
    c == ' ' || c == '\t' || c == '\n' || c == '\r'
}

pub open spec fn is_digit(c: char) -> bool {
    '0' <= c <= '9'
}

pub open spec fn is_letter(c: char) -> bool {
    ('a' <= c <= 'z') || ('A' <= c <= 'Z')
}

/// A character that may start an identifier.
pub open spec fn is_word_start(c: char) -> bool {
    c == '$' || is_letter(c)
}

/// A character that may continue an identifier.
pub open spec fn is_word_char(c: char) -> bool {
    is_word_start(c) || is_digit(c)
}

/// The end of the letters of `w` from `i` on.
pub open spec fn letters_end(w: Seq<char>, i: int) -> int
    decreases w.len() - i,
{
    if 0 <= i < w.len() && is_letter(w[i]) {
        letters_end(w, i + 1)
    } else {
        i
    }
}

/// `w` is an optional `$`, one or more letters, an optional `$` and one or
/// more digits.
pub open spec fn has_cell_shape(w: Seq<char>) -> bool {
    let a: int = if w.len() > 0 && w[0] == '$' { 1 } else { 0 };
    let p = letters_end(w, a);
    let q = if p < w.len() && w[p] == '$' { p + 1 } else { p };
    &&& a < p
    &&& q < w.len()
    &&& forall|k: int| q <= k < w.len() ==> is_digit(#[trigger] w[k])
}

/// `w` without its `$` characters.
pub open spec fn strip_dollars(w: Seq<char>) -> Seq<char>
    decreases w.len(),
{
    if w.len() == 0 {
        w
    } else if w.last() == '$' {
        strip_dollars(w.drop_last())
    } else {
        strip_dollars(w.drop_last()).push(w.last())
    }
}

/// The length of the run of digits and decimal points at `i`, or an error at
/// a second decimal point (`dot` tells whether one was already seen).
pub open spec fn mantissa_len(s: Seq<char>, i: int, dot: bool) -> Result<nat, LexError>
    decreases s.len() - i,
{
    if 0 <= i < s.len() && is_digit(s[i]) {
        match mantissa_len(s, i + 1, dot) {
            Ok(n) => Ok(n + 1),
            Err(e) => Err(e),
        }
    } else if 0 <= i < s.len() && s[i] == '.' {
        if dot {
            Err(LexError::MalformedNumber)
        } else {
            match mantissa_len(s, i + 1, true) {
                Ok(n) => Ok(n + 1),
                Err(e) => Err(e),
            }
        }
    } else {
        Ok(0)
    }
}

/// The numeral at `i` and the position after it.
pub open spec fn scan_number(s: Seq<char>, i: int) -> Result<(Lit, int), LexError>
    decreases s.len() - i,
{
    match mantissa_len(s, i, false) {
        Err(e) => Err(e),
        Ok(n) => {
            let j = i + n;
            let d = s.subrange(i, j);
            if n == 0 || (n == 1 && s[i] == '.') {
                Err(LexError::MalformedNumber)
            } else if j < s.len() && (s[j] == 'E' || s[j] == 'e') {
                let signed = j + 1 < s.len() && (s[j + 1] == '+' || s[j + 1] == '-');
                let neg = j + 1 < s.len() && s[j + 1] == '-';
                let k = if signed { j + 2 } else { j + 1 };
                match scan_number(s, k) {
                    Err(e) => Err(e),
                    Ok((x, end)) => Ok((Lit::Scaled(d, neg, Box::new(x)), end)),
                }
            } else if j < s.len() && s[j] == '%' {
                Ok((Lit::Percent(d), j + 1))
            } else {
                Ok((Lit::Plain(d), j))
            }
        }
    }
}

/// The end of the identifier characters from `i` on.
pub open spec fn word_end(s: Seq<char>, i: int) -> int
    decreases s.len() - i,
{
    if 0 <= i < s.len() && is_word_char(s[i]) {
        word_end(s, i + 1)
    } else {
        i
    }
}

/// The identifier at `i`, classified, and the position after it.
pub open spec fn scan_word(s: Seq<char>, i: int) -> (Tok, int) {
    let j = word_end(s, i);
    let w = s.subrange(i, j);
    if w == seq!['T', 'R', 'U', 'E'] {
        (Tok::Bool(true), j)
    } else if w == seq!['F', 'A', 'L', 'S', 'E'] {
        (Tok::Bool(false), j)
    } else if j < s.len() && s[j] == '!' {
        (Tok::Sheet(w), j)
    } else if has_cell_shape(w) {
        (Tok::Ref(strip_dollars(w)), j)
    } else {
        (Tok::Var(w), j)
    }
}

/// The first position from `k` on that holds `q`, or the end of `s`.
pub open spec fn quote_end(s: Seq<char>, k: int, q: char) -> int
    decreases s.len() - k,
{
    if 0 <= k < s.len() && s[k] != q {
        quote_end(s, k + 1, q)
    } else {
        k
    }
}

/// The quoted text opened at `i` and the position after its closing quote.
pub open spec fn scan_quoted(s: Seq<char>, i: int) -> Result<(Tok, int), LexError> {
    let q = s[i];
    let e = quote_end(s, i + 1, q);
    if e >= s.len() {
        Err(LexError::UnterminatedString)
    } else if q == '"' {
        Ok((Tok::String(s.subrange(i + 1, e)), e + 1))
    } else {
        Ok((Tok::Sheet(s.subrange(i + 1, e)), e + 1))
    }
}

/// The token that starts at `i` (not a space) and the position after it.
pub open spec fn next_token(s: Seq<char>, i: int) -> Result<(Tok, int), LexError> {
    let c = s[i];
    let has_next = i + 1 < s.len();
    if c == '(' {
        Ok((Tok::Lparen, i + 1))
    } else if c == ')' {
        Ok((Tok::Rparen, i + 1))
    } else if c == '+' {
        Ok((Tok::Plus, i + 1))
    } else if c == '-' {
        Ok((Tok::Minus, i + 1))
    } else if c == '*' {
        Ok((Tok::Mul, i + 1))
    } else if c == '/' {
        Ok((Tok::Div, i + 1))
    } else if c == ',' {
        Ok((Tok::Comma, i + 1))
    } else if c == ':' {
        Ok((Tok::Colon, i + 1))
    } else if c == '=' {
        Ok((Tok::Ee, i + 1))
    } else if c == '!' {
        Ok((Tok::Csref, i + 1))
    } else if c == '&' {
        Ok((Tok::And, i + 1))
    } else if c == '<' {
        if has_next && s[i + 1] == '=' {
            Ok((Tok::Lte, i + 2))
        } else if has_next && s[i + 1] == '>' {
            Ok((Tok::Ne, i + 2))
        } else {
            Ok((Tok::Lt, i + 1))
        }
    } else if c == '>' {
        if has_next && s[i + 1] == '=' {
            Ok((Tok::Gte, i + 2))
        } else {
            Ok((Tok::Gt, i + 1))
        }
    } else if c == '"' || c == '\'' {
        scan_quoted(s, i)
    } else if is_digit(c) {
        match scan_number(s, i) {
            Ok((x, j)) => Ok((Tok::Number(x), j)),
            Err(e) => Err(e),
        }
    } else if is_word_start(c) {
        Ok(scan_word(s, i))
    } else {
        Err(LexError::UnexpectedChar(c))
    }
}

/// `ts` followed by the tokens of `r`, or the error of `r`.
pub open spec fn prepend(ts: Seq<Tok>, r: Result<Seq<Tok>, LexError>) -> Result<Seq<Tok>, LexError> {
    match r {
        Ok(rest) => Ok(ts + rest),
        Err(e) => Err(e),
    }
}

/// The tokens of `s` from position `i` on.
pub open spec fn lex_from(s: Seq<char>, i: int) -> Result<Seq<Tok>, LexError>
    decreases s.len() - i,
    via lex_from_decreases
{
    if i < 0 || i >= s.len() {
        Ok(Seq::empty())
    } else if is_space(s[i]) {
        lex_from(s, i + 1)
    } else {
        match next_token(s, i) {
            Err(e) => Err(e),
            Ok((t, j)) => prepend(seq![t], lex_from(s, j)),
        }
    }
}

/// The tokens of the formula text `s`.
pub open spec fn lex(s: Seq<char>) -> Result<Seq<Tok>, LexError> {
    lex_from(s, 0)
}

proof fn lemma_word_end(s: Seq<char>, i: int)
    ensures
        word_end(s, i) >= i,
        0 <= i ==> word_end(s, i) <= s.len() || word_end(s, i) == i,
        forall|k: int| i <= k < word_end(s, i) ==> is_word_char(#[trigger] s[k]),
        0 <= i <= s.len() ==> word_end(s, i) <= s.len(),
        0 <= word_end(s, i) < s.len() && 0 <= i ==> !is_word_char(s[word_end(s, i)]),
    decreases s.len() - i,
{
    if 0 <= i < s.len() && is_word_char(s[i]) {
        lemma_word_end(s, i + 1);
    }
}

proof fn lemma_quote_end(s: Seq<char>, k: int, q: char)
    ensures
        quote_end(s, k, q) >= k,
        0 <= k <= s.len() ==> quote_end(s, k, q) <= s.len(),
        forall|m: int| k <= m < quote_end(s, k, q) ==> #[trigger] s[m] != q,
        0 <= k && quote_end(s, k, q) < s.len() ==> s[quote_end(s, k, q)] == q,
    decreases s.len() - k,
{
    if 0 <= k < s.len() && s[k] != q {
        lemma_quote_end(s, k + 1, q);
    }
}

proof fn lemma_mantissa_len(s: Seq<char>, i: int, dot: bool)
    requires
        0 <= i <= s.len(),
    ensures
        mantissa_len(s, i, dot) is Ok ==> i + mantissa_len(s, i, dot)->Ok_0 <= s.len(),
    decreases s.len() - i,
{
    if 0 <= i < s.len() && (is_digit(s[i]) || s[i] == '.') {
        lemma_mantissa_len(s, i + 1, dot);
        lemma_mantissa_len(s, i + 1, true);
    }
}

proof fn lemma_scan_number(s: Seq<char>, i: int)
    requires
        0 <= i <= s.len(),
    ensures
        scan_number(s, i) is Ok ==> i < scan_number(s, i)->Ok_0.1 <= s.len(),
    decreases s.len() - i,
{
    lemma_mantissa_len(s, i, false);
    if let Ok(n) = mantissa_len(s, i, false) {
        let j = i + n;
        if n > 0 && j < s.len() && (s[j] == 'E' || s[j] == 'e') {
            let signed = j + 1 < s.len() && (s[j + 1] == '+' || s[j + 1] == '-');
            let k = if signed { j + 2 } else { j + 1 };
            lemma_scan_number(s, k);
        }
    }
}

proof fn lemma_next_token(s: Seq<char>, i: int)
    requires
        0 <= i < s.len(),
    ensures
        next_token(s, i) is Ok ==> i < next_token(s, i)->Ok_0.1 <= s.len(),
{
    lemma_scan_number(s, i);
    lemma_word_end(s, i);
    lemma_quote_end(s, i + 1, s[i]);
}

#[via_fn]
proof fn lex_from_decreases(s: Seq<char>, i: int) {
    if 0 <= i < s.len() && !is_space(s[i]) {
        lemma_next_token(s, i);
    }
}

fn space_char(c: char) -> (r: bool)
    ensures
        r == is_space(c),
{
    c == ' ' || c == '\t' || c == '\n' || c == '\r'
}

fn digit_char(c: char) -> (r: bool)
    ensures
        r == is_digit(c),
{
    '0' <= c && c <= '9'
}

fn word_start_char(c: char) -> (r: bool)
    ensures
        r == is_word_start(c),
{
    c == '$' || ('a' <= c && c <= 'z') || ('A' <= c && c <= 'Z')
}

fn word_char(c: char) -> (r: bool)
    ensures
        r == is_word_char(c),
{
    word_start_char(c) || digit_char(c)
}

/// Relies on `regex::Regex::new` and `regex::Regex::is_match`: compiled from
/// the cell pattern, the expression matches a word of letters, digits and `$`
/// exactly when the word has the cell shape.
#[verifier::external_body]
fn pattern_matches(pattern: &str, word: &str) -> (r: bool)
    requires
        pattern@ == CELL_PATTERN@,
        forall|k: int| 0 <= k < word@.len() ==> is_word_char(#[trigger] word@[k]),
    ensures
        r == has_cell_shape(word@),
{
    regex::Regex::new(pattern).unwrap().is_match(word)
}

/// Splits formula text into tokens.
#[derive(Debug)]
pub struct Lexer {
    chars: Vec<char>,
}

impl Lexer {
    /// A lexer with an empty character buffer.
    pub fn new() -> Lexer {
        Lexer { chars: Vec::new() }
    }

    /// The numeral that starts at `i`.
    fn make_num(&self, i: usize) -> (r: Result<(Numeral, usize), LexError>)
        requires
            i <= self.chars.len(),
        ensures
            match scan_number(self.chars@, i as int) {
                Ok((x, j)) => r matches Ok((n, k)) && n@ == x && k == j,
                Err(e) => r == Err::<(Numeral, usize), LexError>(e),
            },
        decreases self.chars.len() - i,
    {
        let ghost s = self.chars@;
        let n = self.chars.len();
        let mut j = i;
        let mut dot = false;
        let mut digits = String::new();
        while j < n && (digit_char(self.chars[j]) || self.chars[j] == '.')
            invariant
                i <= j <= n,
                n == s.len(),
                s == self.chars@,
                digits@ == s.subrange(i as int, j as int),
                match mantissa_len(s, j as int, dot) {
                    Ok(m) => mantissa_len(s, i as int, false) == Ok::<nat, LexError>(
                        (m + j - i) as nat,
                    ),
                    Err(e) => mantissa_len(s, i as int, false) == Err::<nat, LexError>(e),
                },
            decreases n - j,
        {
            let c = self.chars[j];
            if c == '.' {
                if dot {
                    return Err(LexError::MalformedNumber);
                }
                dot = true;
            }
            digits.push(c);
            proof {
                assert(s.subrange(i as int, j + 1) =~= s.subrange(i as int, j as int).push(c));
            }
            j += 1;
        }
        assert(mantissa_len(s, i as int, false) == Ok::<nat, LexError>((j - i) as nat));
        let len = j - i;
        if len == 0 || (len == 1 && self.chars[i] == '.') {
            return Err(LexError::MalformedNumber);
        }
        if j < n && (self.chars[j] == 'E' || self.chars[j] == 'e') {
            let signed = j + 1 < n && (self.chars[j + 1] == '+' || self.chars[j + 1] == '-');
            let neg = j + 1 < n && self.chars[j + 1] == '-';
            let k = if signed {
                j + 2
            } else {
                j + 1
            };
            match self.make_num(k) {
                Err(e) => Err(e),
                Ok((x, end)) => Ok((Numeral::Scaled(digits, neg, Box::new(x)), end)),
            }
        } else if j < n && self.chars[j] == '%' {
            Ok((Numeral::Percent(digits), j + 1))
        } else {
            Ok((Numeral::Plain(digits), j))
        }
    }

    /// The identifier that starts at `i`, classified.
    fn make_identifier(&self, i: usize) -> (r: (Token, usize))
        requires
            i < self.chars.len(),
            is_word_start(self.chars@[i as int]),
        ensures
            (r.0@, r.1 as int) == scan_word(self.chars@, i as int),
    {
        let ghost s = self.chars@;
        let n = self.chars.len();
        let mut j = i;
        let mut word = String::new();
        while j < n && word_char(self.chars[j])
            invariant
                i <= j <= n,
                n == s.len(),
                s == self.chars@,
                word@ == s.subrange(i as int, j as int),
                word_end(s, i as int) == word_end(s, j as int),
                forall|k: int| i <= k < j ==> is_word_char(#[trigger] s[k]),
            decreases n - j,
        {
            word.push(self.chars[j]);
            proof {
                assert(s.subrange(i as int, j + 1) =~= s.subrange(i as int, j as int).push(s[j as int]));
            }
            j += 1;
        }
        let ghost w = s.subrange(i as int, j as int);
        let len = j - i;
        if len == 4 && self.chars[i] == 'T' && self.chars[i + 1] == 'R' && self.chars[i + 2] == 'U'
            && self.chars[i + 3] == 'E' {
            assert(w =~= seq!['T', 'R', 'U', 'E']);
            return (Token::Bool(true), j);
        }
        assert(w != seq!['T', 'R', 'U', 'E']) by {
            if w == seq!['T', 'R', 'U', 'E'] {
                assert(w.len() == 4 && w[0] == 'T' && w[1] == 'R' && w[2] == 'U' && w[3] == 'E');
            }
        }
        if len == 5 && self.chars[i] == 'F' && self.chars[i + 1] == 'A' && self.chars[i + 2] == 'L'
            && self.chars[i + 3] == 'S' && self.chars[i + 4] == 'E' {
            assert(w =~= seq!['F', 'A', 'L', 'S', 'E']);
            return (Token::Bool(false), j);
        }
        assert(w != seq!['F', 'A', 'L', 'S', 'E']) by {
            if w == seq!['F', 'A', 'L', 'S', 'E'] {
                assert(w.len() == 5 && w[0] == 'F' && w[1] == 'A' && w[2] == 'L' && w[3] == 'S'
                    && w[4] == 'E');
            }
        }
        if j < n && self.chars[j] == '!' {
            return (Token::Sheet(word), j);
        }
        if pattern_matches(CELL_PATTERN, word.as_str()) {
            let mut stripped = String::new();
            let mut k = i;
            while k < j
                invariant
                    i <= k <= j <= n,
                    n == s.len(),
                    s == self.chars@,
                    stripped@ == strip_dollars(s.subrange(i as int, k as int)),
                decreases j - k,
            {
                let c = self.chars[k];
                proof {
                    assert(s.subrange(i as int, k + 1).drop_last() =~= s.subrange(i as int, k as int));
                }
                if c != '$' {
                    stripped.push(c);
                }
                k += 1;
            }
            (Token::Ref(stripped), j)
        } else {
            (Token::Var(word), j)
        }
    }

    /// The quoted text that starts at `i`.
    fn make_str(&self, i: usize) -> (r: Result<(Token, usize), LexError>)
        requires
            i < self.chars.len(),
        ensures
            match scan_quoted(self.chars@, i as int) {
                Ok((t, j)) => r matches Ok((x, k)) && x@ == t && k == j,
                Err(e) => r matches Err(f) && f == e,
            },
    {
        let ghost s = self.chars@;
        let n = self.chars.len();
        let q = self.chars[i];
        let mut k = i + 1;
        let mut text = String::new();
        while k < n && self.chars[k] != q
            invariant
                i + 1 <= k <= n,
                n == s.len(),
                s == self.chars@,
                q == s[i as int],
                text@ == s.subrange(i + 1, k as int),
                quote_end(s, i + 1, q) == quote_end(s, k as int, q),
            decreases n - k,
        {
            text.push(self.chars[k]);
            proof {
                assert(s.subrange(i + 1, k + 1) =~= s.subrange(i + 1, k as int).push(s[k as int]));
            }
            k += 1;
        }
        if k >= n {
            Err(LexError::UnterminatedString)
        } else if q == '"' {
            Ok((Token::String(text), k + 1))
        } else {
            Ok((Token::Sheet(text), k + 1))
        }
    }

    /// The token that starts at `i`, which is not a space.
    fn make_token(&self, i: usize) -> (r: Result<(Token, usize), LexError>)
        requires
            i < self.chars.len(),
        ensures
            match next_token(self.chars@, i as int) {
                Ok((t, j)) => r matches Ok((x, k)) && x@ == t && k == j,
                Err(e) => r matches Err(f) && f == e,
            },
    {
        let n = self.chars.len();
        let c = self.chars[i];
        let has_next = i + 1 < n;
        if c == '(' {
            Ok((Token::Lparen, i + 1))
        } else if c == ')' {
            Ok((Token::Rparen, i + 1))
        } else if c == '+' {
            Ok((Token::Plus, i + 1))
        } else if c == '-' {
            Ok((Token::Minus, i + 1))
        } else if c == '*' {
            Ok((Token::Mul, i + 1))
        } else if c == '/' {
            Ok((Token::Div, i + 1))
        } else if c == ',' {
            Ok((Token::Comma, i + 1))
        } else if c == ':' {
            Ok((Token::Colon, i + 1))
        } else if c == '=' {
            Ok((Token::Ee, i + 1))
        } else if c == '!' {
            Ok((Token::Csref, i + 1))
        } else if c == '&' {
            Ok((Token::And, i + 1))
        } else if c == '<' {
            if has_next && self.chars[i + 1] == '=' {
                Ok((Token::Lte, i + 2))
            } else if has_next && self.chars[i + 1] == '>' {
                Ok((Token::Ne, i + 2))
            } else {
                Ok((Token::Lt, i + 1))
            }
        } else if c == '>' {
            if has_next && self.chars[i + 1] == '=' {
                Ok((Token::Gte, i + 2))
            } else {
                Ok((Token::Gt, i + 1))
            }
        } else if c == '"' || c == '\'' {
            self.make_str(i)
        } else if digit_char(c) {
            match self.make_num(i) {
                Ok((x, j)) => Ok((Token::Number(x), j)),
                Err(e) => Err(e),
            }
        } else if word_start_char(c) {
            Ok(self.make_identifier(i))
        } else {
            Err(LexError::UnexpectedChar(c))
        }
    }

    /// The tokens of `input`, or the first lexical error in it.
    pub fn make_tokens(&mut self, input: String) -> (r: Result<Vec<Token>, LexError>)
        ensures
            match lex(input@) {
                Ok(ts) => r matches Ok(v) && toks_view(v@) == ts,
                Err(e) => r matches Err(f) && f == e,
            },
    {
        self.chars = chars_of(input.as_str());
        let ghost s = input@;
        let n = self.chars.len();
        let mut i: usize = 0;
        let mut tokens: Vec<Token> = Vec::new();
        while i < n
            invariant
                i <= n,
                n == s.len(),
                s == input@,
                self.chars@ == s,
                lex(s) == prepend(toks_view(tokens@), lex_from(s, i as int)),
            decreases n - i,
        {
            if space_char(self.chars[i]) {
                i += 1;
            } else {
                match self.make_token(i) {
                    Err(e) => {
                        assert(lex_from(s, i as int) == Err::<Seq<Tok>, LexError>(e));
                        return Err(e);
                    },
                    Ok((t, j)) => {
                        proof {
                            lemma_next_token(s, i as int);
                            let old_view = toks_view(tokens@);
                            assert(toks_view(tokens@.push(t)) =~= old_view.push(t@));
                            match lex_from(s, j as int) {
                                Ok(rest) => {
                                    assert(old_view + (seq![t@] + rest) =~= old_view.push(t@) + rest);
                                },
                                Err(_) => {},
                            }
                        }
                        tokens.push(t);
                        i = j;
                    },
                }
            }
        }
        assert(toks_view(tokens@) + Seq::<Tok>::empty() =~= toks_view(tokens@));
        Ok(tokens)
    }
}

} // verus!
