use vstd::prelude::*;
use vstd::string::StringSliceAdditionalSpecFns;

verus! {

/// Tokens that could be encountered in a Brainfuck program.
#[derive(Debug, Clone, Copy, PartialEq, Eq, Structural)]
pub enum Token {
    /// `+`
    Inc,
    /// `-`
    Dec,
    /// `>`
    Next,
    /// `<`
    Prev,
    /// `.`
    Print,
    /// `,`
    Read,
    /// `[`
    LoopStart,
    /// `]`
    LoopEnd,
}

/// The token that one byte of source stands for, if any; every other byte is
/// a comment.
pub open spec fn token_of_byte(b: u8) -> Option<Token> {
    if b == 43 {
        Some(Token::Inc)
    } else if b == 45 {
        Some(Token::Dec)
    } else if b == 62 {
        Some(Token::Next)
    } else if b == 60 {
        Some(Token::Prev)
    } else if b == 46 {
        Some(Token::Print)
    } else if b == 44 {
        Some(Token::Read)
    } else if b == 91 {
        Some(Token::LoopStart)
    } else if b == 93 {
        Some(Token::LoopEnd)
    } else {
        None
    }
}

/// The tokens of a byte sequence, in order, with all comment bytes dropped.
pub open spec fn lex(bytes: Seq<u8>) -> Seq<Token>
    decreases bytes.len(),
{
    if bytes.len() == 0 {
        seq![]
    } else {
        let rest = lex(bytes.drop_last());
        match token_of_byte(bytes.last()) {
            Some(t) => rest.push(t),
            None => rest,
        }
    }
}

fn byte_token(b: u8) -> (r: Option<Token>)
    ensures
        r == token_of_byte(b),
{
    // the ASCII codes of + - > < . , [ ]
    match b {
        43 => Some(Token::Inc),
        45 => Some(Token::Dec),
        62 => Some(Token::Next),
        60 => Some(Token::Prev),
        46 => Some(Token::Print),
        44 => Some(Token::Read),
        91 => Some(Token::LoopStart),
        93 => Some(Token::LoopEnd),
        _ => None,
    }
}

impl Token {
    /// Tokenizes source text byte by byte: each command character gives its
    /// token, in order, and anything else is skipped.
    pub fn tokenize(code: &str) -> (r: Vec<Token>)
        ensures
            r@ == lex(code.spec_bytes()),
    {
        let bytes = code.as_bytes();
        let mut tokens: Vec<Token> = Vec::new();
        let mut i: usize = 0;
        while i < bytes.len()
            invariant
                i <= bytes@.len(),
                bytes@ == code.spec_bytes(),
                tokens@ == lex(bytes@.subrange(0, i as int)),
            decreases bytes@.len() - i,
        {
            let ghost prefix = bytes@.subrange(0, i as int);
            assert(bytes@.subrange(0, i + 1).drop_last() == prefix);
            if let Some(t) = byte_token(bytes[i]) {
                tokens.push(t);
            }
            i += 1;
        }
        assert(bytes@.subrange(0, i as int) == bytes@);
        tokens
    }
}

} // verus!
