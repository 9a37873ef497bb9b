//! Lines of source text to ops and definitions. Tokens are separated by
//! whitespace; `: NAME ... ;` defines a word; an integer literal pushes its
//! value; any other token names an op or a word.
use vstd::prelude::*;
use crate::ops::{Op, OpV, copy_ops, ops_view};
use crate::words::Words;

verus! {

/// Unicode white space, as `char::is_whitespace` documents it: the
/// White_Space property.
pub open spec fn is_ws(c: char) -> bool {
    let u = c as u32;
    (0x09 <= u && u <= 0x0D) || u == 0x20 || u == 0x85 || u == 0xA0 || u == 0x1680
        || (0x2000 <= u && u <= 0x200A) || u == 0x2028 || u == 0x2029 || u == 0x202F
        || u == 0x205F || u == 0x3000
}

/// The whitespace-separated pieces of a text, in order: its maximal runs of
/// characters that are not white space.
pub open spec fn words_of(s: Seq<char>) -> Seq<Seq<char>>
    decreases s.len(),
{
    if s.len() == 0 {
        seq![]
    } else {
        let w = words_of(s.drop_last());
        let c = s.last();
        if is_ws(c) {
            w
        } else if s.len() >= 2 && !is_ws(s[s.len() - 2]) {
            w.update(w.len() - 1, w.last().push(c))
        } else {
            w.push(seq![c])
        }
    }
}

pub open spec fn strings_view(s: Seq<String>) -> Seq<Seq<char>> {
    s.map_values(|w: String| w@)
}

/// Relies on `str::split_whitespace`: the sub-slices separated by any amount
/// of Unicode white space, in order, none of them empty.
#[verifier::external_body]
fn split_words(input: &str) -> (r: Vec<String>)
    ensures
        strings_view(r@) == words_of(input@),
{
    input.split_whitespace().map(|w| w.to_string()).collect()
}

pub open spec fn is_digit(c: char) -> bool {
    '0' <= c && c <= '9'
}

/// The value of a non-empty run of decimal digits.
pub open spec fn digits_value(d: Seq<char>) -> int
    decreases d.len(),
{
    if d.len() == 0 {
        0
    } else {
        digits_value(d.drop_last()) * 10 + (d.last() as int - '0' as int)
    }
}

/// A base-10 integer literal: an optional `+` or `-`, then one or more
/// digits, with a value that fits in `i64`.
pub open spec fn int_literal(s: Seq<char>) -> Option<i64> {
    let neg = s.len() > 0 && s[0] == '-';
    let d = if s.len() > 0 && (s[0] == '-' || s[0] == '+') { s.drop_first() } else { s };
    let v = if neg { -digits_value(d) } else { digits_value(d) };
    if d.len() > 0 && (forall|i: int| 0 <= i < d.len() ==> is_digit(#[trigger] d[i])) && i64::MIN <= v
        && v <= i64::MAX {
        Some(v as i64)
    } else {
        None
    }
}

/// Relies on `<i64 as FromStr>::from_str`: an optional sign followed by
/// decimal digits, in range, and nothing else.
#[verifier::external_body]
fn parse_i64(s: &str) -> (r: Option<i64>)
    ensures
        r == int_literal(s@),
{
    s.parse::<i64>().ok()
}

/// A token of a line.
pub enum Token {
    Num(i64),
    Word(String),
}

pub enum TokenV {
    Num(i64),
    Word(Seq<char>),
}

impl View for Token {
    type V = TokenV;

    open spec fn view(&self) -> TokenV {
        match self {
            Token::Num(n) => TokenV::Num(*n),
            Token::Word(w) => TokenV::Word(w@),
        }
    }
}

pub open spec fn tokens_view(s: Seq<Token>) -> Seq<TokenV> {
    s.map_values(|t: Token| t@)
}

/// The token that a piece of text is.
pub open spec fn token_of(w: Seq<char>) -> TokenV {
    match int_literal(w) {
        Some(n) => TokenV::Num(n),
        None => TokenV::Word(w),
    }
}

/// Why a line does not parse.
#[derive(PartialEq, Eq, Structural, Clone, Copy, Debug)]
pub enum ParserError {
    /// `:` is not followed by a name.
    NoWordName,
}

impl Token {
    /// The token that closes a definition.
    pub fn is_end_of_word(&self) -> (r: bool)
        ensures
            r == (self@ == TokenV::Word(";"@)),
    {
        match self {
            Token::Num(_) => false,
            Token::Word(word) => {
                let end = ";".to_owned();
                proof {
                    reveal_strlit(";");
                }
                *word == end
            },
        }
    }
}

/// Turns a piece of text into a token.
pub fn classify(w: String) -> (r: Token)
    ensures
        r@ == token_of(w@),
{
    match parse_i64(w.as_str()) {
        Some(n) => Token::Num(n),
        None => Token::Word(w),
    }
}

/// The op that a word token names.
pub open spec fn word_op(w: Seq<char>) -> OpV {
    if w == "+"@ {
        OpV::Add
    } else if w == "-"@ {
        OpV::Sub
    } else if w == "*"@ {
        OpV::Mul
    } else if w == "/"@ {
        OpV::Div
    } else if w == "."@ {
        OpV::Dot
    } else if w == "emit"@ {
        OpV::Emit
    } else if w == "swap"@ {
        OpV::Swap
    } else if w == "dup"@ {
        OpV::Dup
    } else if w == "over"@ {
        OpV::Over
    } else if w == "rot"@ {
        OpV::Rot
    } else if w == "drop"@ {
        OpV::Drop
    } else {
        OpV::Word(w)
    }
}

fn same_text(a: &String, b: &str) -> (r: bool)
    ensures
        r == (a@ == b@),
{
    *a == b.to_owned()
}

/// The op that a word names: a primitive, or a call of a user word.
pub fn parse_word(word: &str) -> (r: Op)
    ensures
        r@ == word_op(word@),
{
    let w = word.to_owned();
    if same_text(&w, "+") {
        Op::Add
    } else if same_text(&w, "-") {
        Op::Sub
    } else if same_text(&w, "*") {
        Op::Mul
    } else if same_text(&w, "/") {
        Op::Div
    } else if same_text(&w, ".") {
        Op::Dot
    } else if same_text(&w, "emit") {
        Op::Emit
    } else if same_text(&w, "swap") {
        Op::Swap
    } else if same_text(&w, "dup") {
        Op::Dup
    } else if same_text(&w, "over") {
        Op::Over
    } else if same_text(&w, "rot") {
        Op::Rot
    } else if same_text(&w, "drop") {
        Op::Drop
    } else {
        Op::Word(w)
    }
}

pub open spec fn token_op(t: TokenV) -> OpV {
    match t {
        TokenV::Num(n) => OpV::Num(n),
        TokenV::Word(w) => word_op(w),
    }
}

/// Where the parser stands: at top level, after `:`, or inside the body of a
/// definition.
pub enum Mode {
    Top,
    Name,
    Body(Seq<char>, Seq<OpV>),
}

/// The parser's state after one more token.
pub open spec fn scan_step(ops: Seq<OpV>, d: Map<Seq<char>, Seq<OpV>>, m: Mode, t: TokenV)
    -> Result<(Seq<OpV>, Map<Seq<char>, Seq<OpV>>, Mode), ParserError>
{
    match m {
        Mode::Top => if t == TokenV::Word(":"@) {
            Ok((ops, d, Mode::Name))
        } else {
            Ok((ops.push(token_op(t)), d, Mode::Top))
        },
        Mode::Name => match t {
            TokenV::Word(n) => Ok((ops, d, Mode::Body(n, seq![]))),
            TokenV::Num(_) => Err(ParserError::NoWordName),
        },
        Mode::Body(n, b) => if t == TokenV::Word(";"@) {
            Ok((ops, d.insert(n, b), Mode::Top))
        } else {
            Ok((ops, d, Mode::Body(n, b.push(token_op(t)))))
        },
    }
}

/// The parser's state after a sequence of tokens.
pub open spec fn scan(toks: Seq<TokenV>) -> Result<(Seq<OpV>, Map<Seq<char>, Seq<OpV>>, Mode), ParserError>
    decreases toks.len(),
{
    if toks.len() == 0 {
        Ok((seq![], Map::empty(), Mode::Top))
    } else {
        match scan(toks.drop_last()) {
            Ok((ops, d, m)) => scan_step(ops, d, m, toks.last()),
            Err(e) => Err(e),
        }
    }
}

/// The top-level ops and the definitions of a line of tokens. A definition
/// left open at the end of the line ends there; a `:` with no name after it is
/// an error.
pub open spec fn parse_model(toks: Seq<TokenV>) -> Result<(Seq<OpV>, Map<Seq<char>, Seq<OpV>>), ParserError> {
    match scan(toks) {
        Ok((ops, d, Mode::Top)) => Ok((ops, d)),
        Ok((ops, d, Mode::Name)) => Err(ParserError::NoWordName),
        Ok((ops, d, Mode::Body(n, b))) => Ok((ops, d.insert(n, b))),
        Err(e) => Err(e),
    }
}

/// Once a prefix of the tokens fails, the whole line fails the same way.
proof fn lemma_scan_err_extends(toks: Seq<TokenV>, k: int)
    requires
        0 <= k <= toks.len(),
        scan(toks.take(k)) is Err,
    ensures
        scan(toks) == scan(toks.take(k)),
    decreases toks.len() - k,
{
    if k < toks.len() {
        assert(toks.take(k + 1).drop_last() =~= toks.take(k));
        lemma_scan_err_extends(toks, k + 1);
    } else {
        assert(toks.take(k) =~= toks);
    }
}

pub open spec fn parsed_view(r: Result<(Vec<Op>, Words), ParserError>) -> Result<(Seq<OpV>, Map<Seq<char>, Seq<OpV>>), ParserError> {
    match r {
        Ok((ops, w)) => Ok((ops_view(ops@), w@)),
        Err(e) => Err(e),
    }
}

/// Parses a line given as tokens.
pub fn parse_tokens(tokens: &Vec<Token>) -> (r: Result<(Vec<Op>, Words), ParserError>)
    ensures
        parsed_view(r) == parse_model(tokens_view(tokens@)),
{
    let ghost toks = tokens_view(tokens@);
    let mut ops: Vec<Op> = Vec::new();
    let mut words = Words::new();
    // 0: top level; 1: after `:`; 2: in a body.
    let mut phase: u8 = 0;
    let mut name = String::new();
    let mut body: Vec<Op> = Vec::new();
    let mut i: usize = 0;
    proof {
        assert(toks.take(0) =~= seq![]);
        assert(ops_view(ops@) =~= seq![]);
    }
    while i < tokens.len()
        invariant
            i <= tokens@.len(),
            toks == tokens_view(tokens@),
            phase <= 2,
            scan(toks.take(i as int)) == Ok::<(Seq<OpV>, Map<Seq<char>, Seq<OpV>>, Mode), ParserError>((ops_view(ops@), words@,
                if phase == 0 { Mode::Top } else if phase == 1 { Mode::Name } else { Mode::Body(name@, ops_view(body@)) })),
        decreases tokens@.len() - i,
    {
        proof {
            assert(toks.take(i + 1).drop_last() =~= toks.take(i as int));
            assert(toks.take(i + 1).last() == tokens@[i as int]@);
        }
        let t = &tokens[i];
        if phase == 0 {
            let is_colon = match t {
                Token::Word(w) => same_text(w, ":"),
                Token::Num(_) => false,
            };
            proof {
                reveal_strlit(":");
            }
            if is_colon {
                phase = 1;
            } else {
                let op = match t {
                    Token::Num(n) => Op::Num(*n),
                    Token::Word(w) => parse_word(w.as_str()),
                };
                let ghost before = ops@;
                ops.push(op);
                proof {
                    assert(ops_view(ops@) =~= ops_view(before).push(op@));
                }
            }
        } else if phase == 1 {
            match t {
                Token::Word(w) => {
                    name = w.clone();
                    body = Vec::new();
                    phase = 2;
                    proof {
                        assert(ops_view(body@) =~= seq![]);
                    }
                },
                Token::Num(_) => {
                    proof {
                        lemma_scan_err_extends(toks, i + 1);
                    }
                    return Err(ParserError::NoWordName);
                },
            }
        } else {
            proof {
                reveal_strlit(";");
            }
            if t.is_end_of_word() {
                words.define(name.clone(), copy_ops(&body));
                phase = 0;
            } else {
                let op = match t {
                    Token::Num(n) => Op::Num(*n),
                    Token::Word(w) => parse_word(w.as_str()),
                };
                let ghost before = body@;
                body.push(op);
                proof {
                    assert(ops_view(body@) =~= ops_view(before).push(op@));
                }
            }
        }
        i = i + 1;
    }
    proof {
        assert(toks.take(i as int) =~= toks);
    }
    if phase == 1 {
        return Err(ParserError::NoWordName);
    }
    if phase == 2 {
        words.define(name, body);
    }
    Ok((ops, words))
}

/// The tokens of a line of text.
pub fn tokenize(input: &str) -> (r: Vec<Token>)
    ensures
        tokens_view(r@) == words_of(input@).map_values(|w: Seq<char>| token_of(w)),
{
    let pieces = split_words(input);
    let mut r: Vec<Token> = Vec::new();
    let mut i: usize = 0;
    while i < pieces.len()
        invariant
            i <= pieces@.len(),
            strings_view(pieces@) == words_of(input@),
            r@.len() == i,
            forall|j: int| 0 <= j < i ==> (#[trigger] r@[j])@ == token_of(pieces@[j]@),
        decreases pieces@.len() - i,
    {
        r.push(classify(pieces[i].clone()));
        i = i + 1;
    }
    proof {
        assert(tokens_view(r@) =~= words_of(input@).map_values(|w: Seq<char>| token_of(w)));
    }
    r
}

/// Parses a line of text into its top-level ops and its definitions.
pub fn parser(input: &str) -> (r: Result<(Vec<Op>, Words), ParserError>)
    ensures
        parsed_view(r) == parse_model(words_of(input@).map_values(|w: Seq<char>| token_of(w))),
{
    let tokens = tokenize(input);
    parse_tokens(&tokens)
}

} // verus!
