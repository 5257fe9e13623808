use vstd::prelude::*;
use vstd::string::StrSliceExecFns;

verus! {

/// A lexical token of the language.
#[derive(Debug)]
pub enum Token {
    Number(i64),
    Plus,
    Minus,
    Star,
    Slash,
    LParen,
    RParen,
    Semicolon,
    Equals,
    Identifier(String),
    Let,
    If,
    Else,
    While,
    Print,
    DoubleEquals,
    LessThan,
    GreaterThan,
}

/// The mathematical value of a token: as `Token`, with the identifier's
/// text as a character sequence.
pub ghost enum Lexeme {
    Number(i64),
    Plus,
    Minus,
    Star,
    Slash,
    LParen,
    RParen,
    Semicolon,
    Equals,
    Identifier(Seq<char>),
    Let,
    If,
    Else,
    While,
    Print,
    DoubleEquals,
    LessThan,
    GreaterThan,
}

impl View for Token {
    type V = Lexeme;

    open spec fn view(&self) -> Lexeme {
        match self {
            Token::Number(n) => Lexeme::Number(*n),
            Token::Plus => Lexeme::Plus,
            Token::Minus => Lexeme::Minus,
            Token::Star => Lexeme::Star,
            Token::Slash => Lexeme::Slash,
            Token::LParen => Lexeme::LParen,
            Token::RParen => Lexeme::RParen,
            Token::Semicolon => Lexeme::Semicolon,
            Token::Equals => Lexeme::Equals,
            Token::Identifier(s) => Lexeme::Identifier(s@),
            Token::Let => Lexeme::Let,
            Token::If => Lexeme::If,
            Token::Else => Lexeme::Else,
            Token::While => Lexeme::While,
            Token::Print => Lexeme::Print,
            Token::DoubleEquals => Lexeme::DoubleEquals,
            Token::LessThan => Lexeme::LessThan,
            Token::GreaterThan => Lexeme::GreaterThan,
        }
    }
}

impl PartialEq for Token {
    /// Two tokens are equal when they are the same lexeme.
    fn eq(&self, other: &Token) -> (r: bool) {
        match (self, other) {
            (Token::Number(a), Token::Number(b)) => *a == *b,
            (Token::Plus, Token::Plus) => true,
            (Token::Minus, Token::Minus) => true,
            (Token::Star, Token::Star) => true,
            (Token::Slash, Token::Slash) => true,
            (Token::LParen, Token::LParen) => true,
            (Token::RParen, Token::RParen) => true,
            (Token::Semicolon, Token::Semicolon) => true,
            (Token::Equals, Token::Equals) => true,
            (Token::Identifier(a), Token::Identifier(b)) => *a == *b,
            (Token::Let, Token::Let) => true,
            (Token::If, Token::If) => true,
            (Token::Else, Token::Else) => true,
            (Token::While, Token::While) => true,
            (Token::Print, Token::Print) => true,
            (Token::DoubleEquals, Token::DoubleEquals) => true,
            (Token::LessThan, Token::LessThan) => true,
            (Token::GreaterThan, Token::GreaterThan) => true,
            _ => false,
        }
    }
}

impl Clone for Token {
    /// The clone is the same lexeme.
    fn clone(&self) -> (r: Token)
        ensures
            r@ == self@,
    {
        match self {
            Token::Number(n) => Token::Number(*n),
            Token::Plus => Token::Plus,
            Token::Minus => Token::Minus,
            Token::Star => Token::Star,
            Token::Slash => Token::Slash,
            Token::LParen => Token::LParen,
            Token::RParen => Token::RParen,
            Token::Semicolon => Token::Semicolon,
            Token::Equals => Token::Equals,
            Token::Identifier(s) => Token::Identifier(s.clone()),
            Token::Let => Token::Let,
            Token::If => Token::If,
            Token::Else => Token::Else,
            Token::While => Token::While,
            Token::Print => Token::Print,
            Token::DoubleEquals => Token::DoubleEquals,
            Token::LessThan => Token::LessThan,
            Token::GreaterThan => Token::GreaterThan,
        }
    }
}

impl vstd::std_specs::cmp::PartialEqSpecImpl for Token {
    open spec fn obeys_eq_spec() -> bool {
        true
    }

    open spec fn eq_spec(&self, other: &Token) -> bool {
        self@ == other@
    }
}

/// The characters skipped between tokens: the Unicode whitespace set.
pub open spec fn is_ws_char(c: char) -> bool {
    ||| 0x09 <= c as u32 <= 0x0D
    ||| c as u32 == 0x20
    ||| c as u32 == 0x85
    ||| c as u32 == 0xA0
    ||| c as u32 == 0x1680
    ||| 0x2000 <= c as u32 <= 0x200A
    ||| c as u32 == 0x2028
    ||| c as u32 == 0x2029
    ||| c as u32 == 0x202F
    ||| c as u32 == 0x205F
    ||| c as u32 == 0x3000
}

/// Whitespace test on a character.
fn is_ws(c: char) -> (b: bool)
    ensures
        b == is_ws_char(c),
{
    let u = c as u32;
    (0x09 <= u && u <= 0x0D) || u == 0x20 || u == 0x85 || u == 0xA0 || u == 0x1680
        || (0x2000 <= u && u <= 0x200A) || u == 0x2028 || u == 0x2029 || u == 0x202F
        || u == 0x205F || u == 0x3000
}

pub open spec fn is_digit_char(c: char) -> bool {
    48 <= c as u32 <= 57
}

pub open spec fn is_letter_char(c: char) -> bool {
    (65 <= c as u32 <= 90) || (97 <= c as u32 <= 122)
}

/// An identifier begins with an ASCII letter or an underscore...
pub open spec fn is_ident_start_char(c: char) -> bool {
    is_letter_char(c) || c == '_'
}

/// ...and continues over ASCII letters, digits and underscores.
pub open spec fn is_ident_char(c: char) -> bool {
    is_ident_start_char(c) || is_digit_char(c)
}

/// The first position at or after `pos` holding a non-whitespace
/// character, or the end of input.
pub open spec fn skip_ws(s: Seq<char>, pos: nat) -> nat
    decreases s.len() - pos,
{
    if pos < s.len() && is_ws_char(s[pos as int]) {
        skip_ws(s, (pos + 1) as nat)
    } else {
        pos
    }
}

/// The end of the maximal digit run starting at `pos`.
pub open spec fn scan_digits(s: Seq<char>, pos: nat) -> nat
    decreases s.len() - pos,
{
    if pos < s.len() && is_digit_char(s[pos as int]) {
        scan_digits(s, (pos + 1) as nat)
    } else {
        pos
    }
}

/// The end of the maximal identifier run starting at `pos`.
pub open spec fn scan_ident(s: Seq<char>, pos: nat) -> nat
    decreases s.len() - pos,
{
    if pos < s.len() && is_ident_char(s[pos as int]) {
        scan_ident(s, (pos + 1) as nat)
    } else {
        pos
    }
}

/// The number a run of decimal digits denotes.
pub open spec fn digits_value(w: Seq<char>) -> nat
    decreases w.len(),
{
    if w.len() == 0 {
        0
    } else {
        (digits_value(w.drop_last()) * 10 + (w.last() as u32 - 48)) as nat
    }
}

/// The token an identifier run denotes: one of the five keywords, or an
/// identifier holding the text itself.
pub open spec fn ident_lexeme(w: Seq<char>) -> Lexeme {
    if w == "let"@ {
        Lexeme::Let
    } else if w == "if"@ {
        Lexeme::If
    } else if w == "else"@ {
        Lexeme::Else
    } else if w == "while"@ {
        Lexeme::While
    } else if w == "print"@ {
        Lexeme::Print
    } else {
        Lexeme::Identifier(w)
    }
}

/// The bound above which a digit run no longer fits in a signed word.
pub open spec fn number_limit() -> nat {
    0x8000_0000_0000_0000
}

/// What the lexer does at position `pos`: the token produced, or
/// nothing (end of input, an unrecognized character, or a numeric
/// literal too large for a signed word), and the position after.
pub open spec fn spec_next_token(s: Seq<char>, pos: nat) -> (Option<Lexeme>, nat) {
    let p = skip_ws(s, pos);
    if p >= s.len() {
        (None, p)
    } else {
        let c = s[p as int];
        if is_digit_char(c) {
            let e = scan_digits(s, p);
            let v = digits_value(s.subrange(p as int, e as int));
            if v < number_limit() {
                (Some(Lexeme::Number(v as i64)), e)
            } else {
                (None, e)
            }
        } else if is_ident_start_char(c) {
            let e = scan_ident(s, p);
            (Some(ident_lexeme(s.subrange(p as int, e as int))), e)
        } else if c == '+' {
            (Some(Lexeme::Plus), (p + 1) as nat)
        } else if c == '-' {
            (Some(Lexeme::Minus), (p + 1) as nat)
        } else if c == '*' {
            (Some(Lexeme::Star), (p + 1) as nat)
        } else if c == '/' {
            (Some(Lexeme::Slash), (p + 1) as nat)
        } else if c == '(' {
            (Some(Lexeme::LParen), (p + 1) as nat)
        } else if c == ')' {
            (Some(Lexeme::RParen), (p + 1) as nat)
        } else if c == ';' {
            (Some(Lexeme::Semicolon), (p + 1) as nat)
        } else if c == '=' {
            if p + 1 < s.len() && s[p as int + 1] == '=' {
                (Some(Lexeme::DoubleEquals), (p + 2) as nat)
            } else {
                (Some(Lexeme::Equals), (p + 1) as nat)
            }
        } else if c == '<' {
            (Some(Lexeme::LessThan), (p + 1) as nat)
        } else if c == '>' {
            (Some(Lexeme::GreaterThan), (p + 1) as nat)
        } else {
            (None, p)
        }
    }
}

pub proof fn lemma_skip_ws_bounds(s: Seq<char>, pos: nat)
    requires
        pos <= s.len(),
    ensures
        pos <= skip_ws(s, pos) <= s.len(),
    decreases s.len() - pos,
{
    if pos < s.len() && is_ws_char(s[pos as int]) {
        lemma_skip_ws_bounds(s, (pos + 1) as nat);
    }
}

pub proof fn lemma_scan_digits_bounds(s: Seq<char>, pos: nat)
    requires
        pos <= s.len(),
    ensures
        pos <= scan_digits(s, pos) <= s.len(),
    decreases s.len() - pos,
{
    if pos < s.len() && is_digit_char(s[pos as int]) {
        lemma_scan_digits_bounds(s, (pos + 1) as nat);
    }
}

pub proof fn lemma_scan_ident_bounds(s: Seq<char>, pos: nat)
    requires
        pos <= s.len(),
    ensures
        pos <= scan_ident(s, pos) <= s.len(),
    decreases s.len() - pos,
{
    if pos < s.len() && is_ident_char(s[pos as int]) {
        lemma_scan_ident_bounds(s, (pos + 1) as nat);
    }
}

/// Law of the token stream's progress: the lexer never moves backwards
/// or past the end, and producing a token consumes at least one
/// character.
pub proof fn lemma_next_token_advances(s: Seq<char>, pos: nat)
    requires
        pos <= s.len(),
    ensures
        ({
            let (t, p) = spec_next_token(s, pos);
            pos <= p <= s.len() && (t is Some ==> p > pos)
        }),
{
    lemma_skip_ws_bounds(s, pos);
    let q = skip_ws(s, pos);
    if q < s.len() {
        if is_digit_char(s[q as int]) {
            lemma_scan_digits_bounds(s, (q + 1) as nat);
        }
        if is_ident_char(s[q as int]) {
            lemma_scan_ident_bounds(s, (q + 1) as nat);
        }
    }
}

/// The mathematical state of a lexer: the input text and the cursor.
#[verifier::ext_equal]
pub ghost struct LexerModel {
    pub input: Seq<char>,
    pub position: nat,
}

/// A lexer over a character buffer, producing one token at a time.
pub struct Lexer {
    input: Vec<char>,
    position: usize,
}

impl View for Lexer {
    type V = LexerModel;

    closed spec fn view(&self) -> LexerModel {
        LexerModel { input: self.input@, position: self.position as nat }
    }
}

/// Relies on `String: FromIterator<char>` through `Iterator::collect`:
/// the string of exactly the given characters, in order.
#[verifier::external_body]
fn chars_to_string(v: &Vec<char>) -> (s: String)
    ensures
        s@ == v@,
{
    v.iter().collect()
}

/// Character-sequence comparison against a literal.
fn vec_chars_eq_str(v: &Vec<char>, s: &str) -> (r: bool)
    ensures
        r == (v@ == s@),
{
    let n = s.unicode_len();
    if v.len() != n {
        proof {
            assert(v@ != s@);
        }
        return false;
    }
    let mut i: usize = 0;
    while i < n
        invariant
            i <= n,
            n == s@.len(),
            n == v@.len(),
            forall|j: int| 0 <= j < i ==> v@[j] == s@[j],
        decreases n - i,
    {
        if v[i] != s.get_char(i) {
            proof {
                assert(v@[i as int] != s@[i as int]);
            }
            return false;
        }
        i = i + 1;
    }
    proof {
        assert(v@ =~= s@);
    }
    true
}

impl Lexer {
    /// A lexer positioned at the start of the given text.
    pub fn new(input: &str) -> (l: Lexer)
        ensures
            l@.input == input@,
            l@.position == 0,
    {
        let n = input.unicode_len();
        let mut v: Vec<char> = Vec::new();
        let mut i: usize = 0;
        while i < n
            invariant
                i <= n,
                n == input@.len(),
                v@ == input@.subrange(0, i as int),
            decreases n - i,
        {
            let c = input.get_char(i);
            v.push(c);
            proof {
                assert(v@ =~= input@.subrange(0, i + 1));
            }
            i = i + 1;
        }
        proof {
            assert(v@ =~= input@);
        }
        Lexer { input: v, position: 0 }
    }

    fn peek(&self) -> (r: Option<char>)
        ensures
            r == (if self@.position < self@.input.len() {
                Some(self@.input[self@.position as int])
            } else {
                Option::<char>::None
            }),
    {
        if self.position < self.input.len() {
            Some(self.input[self.position])
        } else {
            None
        }
    }

    fn advance(&mut self) -> (r: Option<char>)
        ensures
            final(self)@.input == old(self)@.input,
            r == (if old(self)@.position < old(self)@.input.len() {
                Some(old(self)@.input[old(self)@.position as int])
            } else {
                Option::<char>::None
            }),
            final(self)@.position == (if old(self)@.position < old(self)@.input.len() {
                (old(self)@.position + 1) as nat
            } else {
                old(self)@.position
            }),
    {
        if self.position < self.input.len() {
            let ch = self.input[self.position];
            self.position = self.position + 1;
            Some(ch)
        } else {
            None
        }
    }

    fn skip_whitespace(&mut self)
        requires
            old(self)@.position <= old(self)@.input.len(),
        ensures
            final(self)@.input == old(self)@.input,
            final(self)@.position == skip_ws(old(self)@.input, old(self)@.position),
            final(self)@.position <= final(self)@.input.len(),
    {
        loop
            invariant
                self@.position <= self@.input.len(),
                self@.input == old(self)@.input,
                skip_ws(self@.input, self@.position)
                    == skip_ws(old(self)@.input, old(self)@.position),
            ensures
                self@.position <= self@.input.len(),
                self@.input == old(self)@.input,
                self@.position == skip_ws(old(self)@.input, old(self)@.position),
            decreases self@.input.len() - self@.position,
        {
            match self.peek() {
                Some(ch) => {
                    if !is_ws(ch) {
                        break;
                    }
                    self.advance();
                },
                None => {
                    break;
                },
            }
        }
    }

    /// Read the maximal digit run at the cursor as a number token, or
    /// nothing if its value does not fit in a signed word.
    fn read_number(&mut self) -> (r: Option<Token>)
        requires
            old(self)@.position < old(self)@.input.len(),
            is_digit_char(old(self)@.input[old(self)@.position as int]),
        ensures
            final(self)@.input == old(self)@.input,
            final(self)@.position == scan_digits(old(self)@.input, old(self)@.position),
            ({
                let w = old(self)@.input.subrange(
                    old(self)@.position as int,
                    scan_digits(old(self)@.input, old(self)@.position) as int,
                );
                if digits_value(w) < number_limit() {
                    r matches Some(t) && t@ == Lexeme::Number(digits_value(w) as i64)
                } else {
                    r is None
                }
            }),
    {
        let ghost s = self@.input;
        let ghost p0 = self@.position;
        proof {
            lemma_scan_digits_bounds(s, p0);
        }
        let mut acc: Option<u64> = Some(0);
        loop
            invariant
                self@.input == s,
                p0 <= self@.position <= s.len(),
                scan_digits(s, self@.position) == scan_digits(s, p0),
                ({
                    let w = s.subrange(p0 as int, self@.position as int);
                    match acc {
                        Some(v) => v as nat == digits_value(w),
                        None => digits_value(w) >= number_limit(),
                    }
                }),
            ensures
                self@.input == s,
                self@.position == scan_digits(s, p0),
                ({
                    let w = s.subrange(p0 as int, self@.position as int);
                    match acc {
                        Some(v) => v as nat == digits_value(w),
                        None => digits_value(w) >= number_limit(),
                    }
                }),
            decreases s.len() - self@.position,
        {
            let c = match self.peek() {
                Some(c) => c,
                None => {
                    break;
                },
            };
            let u = c as u32;
            if !(48 <= u && u <= 57) {
                break;
            }
            let ghost pos_before = self@.position;
            self.advance();
            let d = (u - 48) as u64;
            acc = match acc {
                Some(v) => {
                    match v.checked_mul(10) {
                        Some(v10) => v10.checked_add(d),
                        None => None,
                    }
                },
                None => None,
            };
            proof {
                let w1 = s.subrange(p0 as int, pos_before as int);
                let w2 = s.subrange(p0 as int, pos_before as int + 1);
                assert(w2.drop_last() =~= w1);
                assert(w2.last() == s[pos_before as int]);
            }
        }
        proof {
            assert(self@.position == scan_digits(s, p0));
        }
        match acc {
            Some(v) => {
                if v < 0x8000_0000_0000_0000u64 {
                    Some(Token::Number(v as i64))
                } else {
                    None
                }
            },
            None => None,
        }
    }

    /// Read the maximal identifier run at the cursor: a keyword token
    /// where it matches one of the five reserved words.
    fn read_identifier(&mut self) -> (r: Token)
        requires
            old(self)@.position < old(self)@.input.len(),
            is_ident_char(old(self)@.input[old(self)@.position as int]),
        ensures
            final(self)@.input == old(self)@.input,
            final(self)@.position == scan_ident(old(self)@.input, old(self)@.position),
            r@ == ident_lexeme(
                old(self)@.input.subrange(
                    old(self)@.position as int,
                    scan_ident(old(self)@.input, old(self)@.position) as int,
                ),
            ),
    {
        let ghost s = self@.input;
        let ghost p0 = self@.position;
        proof {
            lemma_scan_ident_bounds(s, p0);
        }
        let mut w: Vec<char> = Vec::new();
        loop
            invariant
                self@.input == s,
                p0 <= self@.position <= s.len(),
                scan_ident(s, self@.position) == scan_ident(s, p0),
                w@ == s.subrange(p0 as int, self@.position as int),
            ensures
                self@.input == s,
                self@.position == scan_ident(s, p0),
                w@ == s.subrange(p0 as int, self@.position as int),
            decreases s.len() - self@.position,
        {
            let c = match self.peek() {
                Some(c) => c,
                None => {
                    break;
                },
            };
            let u = c as u32;
            let is_ident = (65 <= u && u <= 90) || (97 <= u && u <= 122) || c == '_'
                || (48 <= u && u <= 57);
            if !is_ident {
                break;
            }
            let ghost pos_before = self@.position;
            self.advance();
            w.push(c);
            proof {
                assert(w@ =~= s.subrange(p0 as int, pos_before as int + 1));
            }
        }
        if vec_chars_eq_str(&w, "let") {
            Token::Let
        } else if vec_chars_eq_str(&w, "if") {
            Token::If
        } else if vec_chars_eq_str(&w, "else") {
            Token::Else
        } else if vec_chars_eq_str(&w, "while") {
            Token::While
        } else if vec_chars_eq_str(&w, "print") {
            Token::Print
        } else {
            Token::Identifier(chars_to_string(&w))
        }
    }

    /// Produce the next token. `None` is the end of the stream: the
    /// input is exhausted, an unrecognized character was reached, or a
    /// numeric literal did not fit in a signed word.
    pub fn next_token(&mut self) -> (r: Option<Token>)
        requires
            old(self)@.position <= old(self)@.input.len(),
        ensures
            final(self)@.input == old(self)@.input,
            final(self)@.position <= final(self)@.input.len(),
            ({
                let (t, p) = spec_next_token(old(self)@.input, old(self)@.position);
                final(self)@.position == p && (match (r, t) {
                    (Some(tok), Some(lx)) => tok@ == lx,
                    (None, None) => true,
                    _ => false,
                })
            }),
    {
        self.skip_whitespace();
        proof {
            lemma_skip_ws_bounds(old(self)@.input, old(self)@.position);
            if self@.position < self@.input.len() {
                lemma_scan_digits_bounds(self@.input, self@.position);
                lemma_scan_ident_bounds(self@.input, self@.position);
            }
        }
        let ch = match self.peek() {
            Some(c) => c,
            None => {
                return None;
            },
        };
        let u = ch as u32;
        if 48 <= u && u <= 57 {
            self.read_number()
        } else if (65 <= u && u <= 90) || (97 <= u && u <= 122) || ch == '_' {
            Some(self.read_identifier())
        } else if ch == '+' {
            self.advance();
            Some(Token::Plus)
        } else if ch == '-' {
            self.advance();
            Some(Token::Minus)
        } else if ch == '*' {
            self.advance();
            Some(Token::Star)
        } else if ch == '/' {
            self.advance();
            Some(Token::Slash)
        } else if ch == '(' {
            self.advance();
            Some(Token::LParen)
        } else if ch == ')' {
            self.advance();
            Some(Token::RParen)
        } else if ch == ';' {
            self.advance();
            Some(Token::Semicolon)
        } else if ch == '=' {
            self.advance();
            match self.peek() {
                Some(c2) => {
                    if c2 == '=' {
                        self.advance();
                        Some(Token::DoubleEquals)
                    } else {
                        Some(Token::Equals)
                    }
                },
                None => Some(Token::Equals),
            }
        } else if ch == '<' {
            self.advance();
            Some(Token::LessThan)
        } else if ch == '>' {
            self.advance();
            Some(Token::GreaterThan)
        } else {
            None
        }
    }
}

} // verus!
