use vstd::prelude::*;
use vstd::string::StringSliceAdditionalSpecFns;

verus! {

/// One instruction symbol of the language.
#[derive(Debug, Copy, Clone, PartialEq, Eq, Structural)]
pub enum BFToken {
    Inc,
    Dec,
    Left,
    Right,
    BeginLoop,
    EndLoop,
    Read,
    Write,
}

/// The symbol that a source byte stands for, if any.
pub open spec fn token_of(b: u8) -> Option<BFToken> {
    if b == 43 {
        Some(BFToken::Inc)
    } else if b == 45 {
        Some(BFToken::Dec)
    } else if b == 60 {
        Some(BFToken::Left)
    } else if b == 62 {
        Some(BFToken::Right)
    } else if b == 91 {
        Some(BFToken::BeginLoop)
    } else if b == 93 {
        Some(BFToken::EndLoop)
    } else if b == 44 {
        Some(BFToken::Read)
    } else if b == 46 {
        Some(BFToken::Write)
    } else {
        None
    }
}

/// The symbols of a byte string in order, every other byte dropped.
pub open spec fn symbols(bytes: Seq<u8>) -> Seq<BFToken>
    decreases bytes.len(),
{
    if bytes.len() == 0 {
        Seq::empty()
    } else {
        let rest = symbols(bytes.drop_last());
        match token_of(bytes.last()) {
            Some(t) => rest.push(t),
            None => rest,
        }
    }
}

impl BFToken {
    /// The symbol for a source byte; `None` for any byte that is not one of
    /// the eight instruction characters `+ - < > [ ] , .` (ASCII 43, 45, 60,
    /// 62, 91, 93, 44, 46).
    pub fn from_byte(b: u8) -> (r: Option<BFToken>)
        ensures
            r == token_of(b),
    {
        match b {
            43 => Some(BFToken::Inc),
            45 => Some(BFToken::Dec),
            60 => Some(BFToken::Left),
            62 => Some(BFToken::Right),
            91 => Some(BFToken::BeginLoop),
            93 => Some(BFToken::EndLoop),
            44 => Some(BFToken::Read),
            46 => Some(BFToken::Write),
            _ => None,
        }
    }
}

/// Turns source text into its instruction symbols, dropping every other
/// character. The symbols are ASCII and every byte of a multi-byte UTF-8
/// character is at least 128, so a scan of the bytes drops exactly the
/// characters that are not symbols.
pub fn tokenize(input: &str) -> (r: Vec<BFToken>)
    ensures
        r@ == symbols(input.spec_bytes()),
{
    let bytes = input.as_bytes();
    let mut out: Vec<BFToken> = Vec::new();
    let mut i: usize = 0;
    while i < bytes.len()
        invariant
            bytes@ == input.spec_bytes(),
            0 <= i <= bytes@.len(),
            out@ == symbols(bytes@.take(i as int)),
        decreases bytes@.len() - i,
    {
        assert(bytes@.take(i as int + 1).drop_last() == bytes@.take(i as int));
        if let Some(t) = BFToken::from_byte(bytes[i]) {
            out.push(t);
        }
        i = i + 1;
    }
    assert(bytes@.take(i as int) == bytes@);
    out
}

} // verus!
