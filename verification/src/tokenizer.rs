//! Character-class state-machine tokenizer.
//!
//! A raw text line is converted into an ordered sequence of typed tokens,
//! always beginning with `Token::Start` and ending with `Token::End`.

use vstd::prelude::*;

use crate::text::push_char;
use crate::text::str_eq;

verus! {

/// Mathematical model of a token: string contents are sequences of chars.
pub enum TokenView {
    Start,
    Word(Seq<char>),
    Punctuation(Seq<char>, bool),
    Link(Seq<char>),
    End,
}

/// One atomic unit of tokenized text.
#[derive(Debug)]
pub enum Token {
    Start,
    Word(String),
    Punctuation(String, bool),
    Link(String),
    End,
}

impl View for Token {
    type V = TokenView;

    open spec fn view(&self) -> TokenView {
        match self {
            Token::Start => TokenView::Start,
            Token::Word(w) => TokenView::Word(w@),
            Token::Punctuation(p, ws) => TokenView::Punctuation(p@, *ws),
            Token::Link(l) => TokenView::Link(l@),
            Token::End => TokenView::End,
        }
    }
}

impl DeepView for Token {
    type V = TokenView;

    open spec fn deep_view(&self) -> TokenView {
        self.view()
    }
}

impl Clone for Token {
    fn clone(&self) -> (r: Self)
        ensures
            r@ == self@,
    {
        match self {
            Token::Start => Token::Start,
            Token::Word(w) => Token::Word(w.clone()),
            Token::Punctuation(p, ws) => Token::Punctuation(p.clone(), *ws),
            Token::Link(l) => Token::Link(l.clone()),
            Token::End => Token::End,
        }
    }
}

/// Structural equality of two tokens, over their views.
pub fn token_eq(a: &Token, b: &Token) -> (r: bool)
    ensures
        r == (a@ == b@),
{
    match (a, b) {
        (Token::Start, Token::Start) => true,
        (Token::End, Token::End) => true,
        (Token::Word(x), Token::Word(y)) => x.eq(y),
        (Token::Link(x), Token::Link(y)) => x.eq(y),
        (Token::Punctuation(x, xs), Token::Punctuation(y, ys)) => *xs == *ys && x.eq(y),
        _ => false,
    }
}

/// True of the digits `'0'` through `'9'`.
pub open spec fn is_digit_char(c: char) -> bool {
    '0' <= c && c <= '9'
}

/// True of the lower-case letters `'a'` through `'z'`.
pub open spec fn is_lower_char(c: char) -> bool {
    'a' <= c && c <= 'z'
}

/// True of the upper-case letters `'A'` through `'Z'`.
pub open spec fn is_upper_char(c: char) -> bool {
    'A' <= c && c <= 'Z'
}

/// Characters that may begin a word: letters and digits.
pub open spec fn starts_word(c: char) -> bool {
    is_digit_char(c) || is_lower_char(c) || is_upper_char(c)
}

/// Characters that may continue a word: word starters, apostrophe, underscore.
pub open spec fn continues_word(c: char) -> bool {
    starts_word(c) || c == '\'' || c == '_'
}

/// The fixed punctuation character set.
pub open spec fn is_punctuation_char(c: char) -> bool {
    c == ',' || c == '.' || c == '(' || c == ')' || c == ':' || c == ';' || c == '/' || c == '-'
        || c == '?'
}

/// Executable test for [`starts_word`].
pub fn starts_word_exec(c: char) -> (r: bool)
    ensures
        r == starts_word(c),
{
    ('0' <= c && c <= '9') || ('a' <= c && c <= 'z') || ('A' <= c && c <= 'Z')
}

/// Executable test for [`continues_word`].
pub fn continues_word_exec(c: char) -> (r: bool)
    ensures
        r == continues_word(c),
{
    starts_word_exec(c) || c == '\'' || c == '_'
}

/// Executable test for [`is_punctuation_char`].
pub fn is_punctuation_char_exec(c: char) -> (r: bool)
    ensures
        r == is_punctuation_char(c),
{
    c == ',' || c == '.' || c == '(' || c == ')' || c == ':' || c == ';' || c == '/' || c == '-'
        || c == '?'
}

/// True of punctuation tokens alone.
pub fn is_punctuation(token: &Token) -> (r: bool)
    ensures
        r == (token@ is Punctuation),
{
    match token {
        Token::Punctuation(_, _) => true,
        _ => false,
    }
}

/// The views of a sequence of tokens.
pub open spec fn line_view(s: Seq<Token>) -> Seq<TokenView> {
    s.map_values(|t: Token| t@)
}

/// The tokenizer's four scanning states.
#[derive(Clone, Copy)]
pub enum ParseState {
    Word,
    Punctuation,
    Link,
    Whitespace,
}

/// Whether the state keeps accepting the character into the pending buffer.
pub open spec fn will_consume(st: ParseState, c: char) -> bool {
    match st {
        ParseState::Word => continues_word(c),
        ParseState::Punctuation => is_punctuation_char(c),
        ParseState::Link => c != ' ',
        ParseState::Whitespace => c == ' ',
    }
}

/// Executable test for [`will_consume`].
pub fn will_consume_char(st: &ParseState, c: char) -> (r: bool)
    ensures
        r == will_consume(*st, c),
{
    match st {
        ParseState::Word => continues_word_exec(c),
        ParseState::Punctuation => is_punctuation_char_exec(c),
        ParseState::Link => c != ' ',
        ParseState::Whitespace => c == ' ',
    }
}

/// The token a finalized buffer produces in the given state; a whitespace
/// run produces none.
pub open spec fn create_token_view(st: ParseState, buf: Seq<char>, trailing_whitespace: bool) -> Option<
    TokenView,
> {
    match st {
        ParseState::Word => Some(TokenView::Word(buf)),
        ParseState::Punctuation => Some(TokenView::Punctuation(buf, trailing_whitespace)),
        ParseState::Link => Some(TokenView::Link(buf)),
        ParseState::Whitespace => None,
    }
}

/// Executable construction of the token for a finalized buffer.
pub fn create_token(st: &ParseState, string: &str, trailing_whitespace: bool) -> (r: Option<Token>)
    ensures
        r.deep_view() == create_token_view(*st, string@, trailing_whitespace),
{
    match st {
        ParseState::Word => Some(Token::Word(String::from_str(string))),
        ParseState::Punctuation => Some(
            Token::Punctuation(String::from_str(string), trailing_whitespace),
        ),
        ParseState::Link => Some(Token::Link(String::from_str(string))),
        ParseState::Whitespace => None,
    }
}

/// The state that a non-consumed character opens.
pub open spec fn new_state_view(c: char) -> ParseState {
    if starts_word(c) {
        ParseState::Word
    } else if is_punctuation_char(c) {
        ParseState::Punctuation
    } else {
        ParseState::Whitespace
    }
}

/// Executable form of [`new_state_view`].
pub fn new_state_for_char(c: char) -> (st: ParseState)
    ensures
        st == new_state_view(c),
{
    if starts_word_exec(c) {
        ParseState::Word
    } else if is_punctuation_char_exec(c) {
        ParseState::Punctuation
    } else {
        ParseState::Whitespace
    }
}

/// The known link-prefix literals that trigger lookahead reclassification.
pub open spec fn is_link_word(buf: Seq<char>) -> bool {
    buf == "http"@ || buf == "https"@ || buf == "www"@
}

/// Executable test for [`is_link_word`].
pub fn is_link_word_exec(token: &str) -> (r: bool)
    ensures
        r == is_link_word(token@),
{
    str_eq(token, "http") || str_eq(token, "https") || str_eq(token, "www")
}

/// The scanner's full configuration: state, pending buffer, emitted tokens.
pub ghost struct TokSt {
    pub state: ParseState,
    pub buf: Seq<char>,
    pub out: Seq<TokenView>,
}

/// The scanner's starting configuration: whitespace state, empty buffer,
/// the unconditional start marker already emitted.
pub open spec fn tok_init() -> TokSt {
    TokSt { state: ParseState::Whitespace, buf: Seq::empty(), out: seq![TokenView::Start] }
}

/// One scanner transition on the next character.
pub open spec fn tok_step(st: TokSt, c: char) -> TokSt {
    if will_consume(st.state, c) {
        TokSt { state: st.state, buf: st.buf.push(c), out: st.out }
    } else {
        if st.buf.len() > 0 {
            if is_link_word(st.buf) {
                TokSt { state: ParseState::Link, buf: st.buf.push(c), out: st.out }
            } else {
                let out2 = match create_token_view(st.state, st.buf, c == ' ') {
                    Some(t) => st.out.push(t),
                    None => st.out,
                };
                TokSt { state: new_state_view(c), buf: seq![c], out: out2 }
            }
        } else {
            TokSt { state: new_state_view(c), buf: seq![c], out: st.out }
        }
    }
}

/// The scanner's configuration after the first `i` characters of `s`.
pub open spec fn tok_run(s: Seq<char>, i: int) -> TokSt
    decreases i,
{
    if i <= 0 {
        tok_init()
    } else {
        tok_step(tok_run(s, i - 1), s[i - 1])
    }
}

/// The full token sequence for a line: run the scanner, finalize the
/// pending buffer as trailing-whitespace-terminated, append the end marker.
pub open spec fn tokenize_view(s: Seq<char>) -> Seq<TokenView> {
    let st = tok_run(s, s.len() as int);
    let out = match create_token_view(st.state, st.buf, true) {
        Some(t) => st.out.push(t),
        None => st.out,
    };
    out.push(TokenView::End)
}

/// The scanner only appends to its output, which begins with the start marker.
proof fn lemma_tok_run_start(s: Seq<char>, i: int)
    ensures
        tok_run(s, i).out.len() >= 1,
        tok_run(s, i).out.first() == TokenView::Start,
    decreases i,
{
    if i > 0 {
        lemma_tok_run_start(s, i - 1);
    }
}

/// Every input line yields a non-vacuous token sequence: it begins with
/// the start marker, ends with the end marker, and is the scanner's output.
pub fn tokenize_line(line: &str) -> (tokens: Vec<Token>)
    ensures
        line_view(tokens@) == tokenize_view(line@),
        tokens@.len() >= 2,
        tokens@[0]@ == TokenView::Start,
        tokens@.last()@ == TokenView::End,
{
    broadcast use vstd::prelude::Seq::lemma_push_map_commute;

    let n = line.unicode_len();
    let mut parse_state = ParseState::Whitespace;
    let mut tokens: Vec<Token> = Vec::new();
    let mut token: String = String::new();

    tokens.push(Token::Start);
    proof {
        assert(line_view(tokens@) =~= tok_run(line@, 0).out);
        assert(token@ =~= tok_run(line@, 0).buf);
    }

    let mut i: usize = 0;
    while i < n
        invariant
            n == line@.len(),
            i <= n,
            parse_state == tok_run(line@, i as int).state,
            token@ == tok_run(line@, i as int).buf,
            line_view(tokens@) == tok_run(line@, i as int).out,
        decreases n - i,
    {
        let ghost st = tok_run(line@, i as int);
        let c = line.get_char(i);
        let consume = will_consume_char(&parse_state, c);
        if consume {
            push_char(&mut token, c);
        } else {
            let is_whitespace = c == ' ';
            let evaluate_new_parser: bool = if !token.as_str().is_empty() {
                if is_link_word_exec(token.as_str()) {
                    parse_state = ParseState::Link;
                    false
                } else if let Some(new_token) = create_token(&parse_state, token.as_str(), is_whitespace) {
                    tokens.push(new_token);
                    token = String::new();
                    true
                } else {
                    token = String::new();
                    true
                }
            } else {
                true
            };
            if evaluate_new_parser {
                parse_state = new_state_for_char(c);
            }
            push_char(&mut token, c);
            proof {
                assert(token@ =~= tok_step(st, c).buf);
            }
        }
        i += 1;
        proof {
            assert(tok_run(line@, i as int) == tok_step(st, line@[i - 1]));
        }
    }

    let ghost st = tok_run(line@, n as int);
    if let Some(t) = create_token(&parse_state, token.as_str(), true) {
        tokens.push(t);
    }
    tokens.push(Token::End);

    proof {
        lemma_tok_run_start(line@, n as int);
        assert(line_view(tokens@) =~= tokenize_view(line@));
        assert(tokens@[0]@ == line_view(tokens@)[0]);
        assert(tokens@.last()@ == line_view(tokens@).last());
    }
    tokens
}

} // verus!
