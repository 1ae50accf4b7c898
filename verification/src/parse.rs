//! Validating conversions from text to the engine's value types.

use vstd::prelude::*;
use vstd::string::{StrSliceExecFns, StringSliceAdditionalSpecFns};
use crate::symbol::{Symbol, SYMBOL_CAPACITY};
use crate::types::{EngineError, Side, TimeInForce};

verus! {

/// The lower-case form of an ASCII capital letter; any other character unchanged.
pub open spec fn ascii_lower(c: char) -> char {
    if 'A' <= c && c <= 'Z' {
        ((c as u8 + 32) as u8) as char
    } else {
        c
    }
}

/// The text with each ASCII capital letter replaced by its lower-case form.
pub open spec fn lowercase(s: Seq<char>) -> Seq<char> {
    Seq::new(s.len(), |i: int| ascii_lower(s[i]))
}

/// The side that a text names, ignoring the case of ASCII letters: `buy` or `b` for the
/// buy side, `sell` or `s` for the sell side.
pub open spec fn side_named(s: Seq<char>) -> Option<Side> {
    if lowercase(s) == seq!['b', 'u', 'y'] || lowercase(s) == seq!['b'] {
        Some(Side::Buy)
    } else if lowercase(s) == seq!['s', 'e', 'l', 'l'] || lowercase(s) == seq!['s'] {
        Some(Side::Sell)
    } else {
        None
    }
}

/// The time in force that a text names, ignoring the case of ASCII letters: `gtc`, `ioc`
/// or `fok`.
pub open spec fn tif_named(s: Seq<char>) -> Option<TimeInForce> {
    if lowercase(s) == seq!['g', 't', 'c'] {
        Some(TimeInForce::GTC)
    } else if lowercase(s) == seq!['i', 'o', 'c'] {
        Some(TimeInForce::IOC)
    } else if lowercase(s) == seq!['f', 'o', 'k'] {
        Some(TimeInForce::FOK)
    } else {
        None
    }
}

/// Whether `c`, put in lower case, is the character `w`.
fn lowers_to(c: char, w: char) -> (b: bool)
    ensures
        b == (ascii_lower(c) == w),
{
    if 'A' <= c && c <= 'Z' {
        c as u32 + 32 == w as u32
    } else {
        c == w
    }
}

/// Whether `s`, put in lower case, is the text `word`.
fn spells(s: &str, word: &str) -> (b: bool)
    ensures
        b == (lowercase(s@) == word@),
{
    let n = s.unicode_len();
    if n != word.unicode_len() {
        return false;
    }
    let mut i: usize = 0;
    while i < n
        invariant
            i <= n,
            n == s@.len() == word@.len(),
            forall|k: int| 0 <= k < i ==> ascii_lower(s@[k]) == word@[k],
        decreases n - i,
    {
        if !lowers_to(s.get_char(i), word.get_char(i)) {
            assert(lowercase(s@)[i as int] != word@[i as int]);
            return false;
        }
        i += 1;
    }
    assert(lowercase(s@) =~= word@);
    true
}

/// Reads a side from text. Accepts `buy`, `b`, `sell` and `s` in any mix of upper and
/// lower case, and rejects everything else as invalid input.
pub fn parse_side(s: &str) -> (side: Result<Side, EngineError>)
    ensures
        side == (match side_named(s@) {
            Some(named) => Ok::<Side, EngineError>(named),
            None => Err(EngineError::InvalidInput),
        }),
{
    proof {
        reveal_strlit("buy");
        reveal_strlit("b");
        reveal_strlit("sell");
        reveal_strlit("s");
        assert("buy"@ =~= seq!['b', 'u', 'y']);
        assert("b"@ =~= seq!['b']);
        assert("sell"@ =~= seq!['s', 'e', 'l', 'l']);
        assert("s"@ =~= seq!['s']);
    }
    if spells(s, "buy") || spells(s, "b") {
        Ok(Side::Buy)
    } else if spells(s, "sell") || spells(s, "s") {
        Ok(Side::Sell)
    } else {
        Err(EngineError::InvalidInput)
    }
}

/// Reads a time in force from text. Accepts `gtc`, `ioc` and `fok` in any mix of upper
/// and lower case, and rejects everything else as invalid input.
pub fn parse_tif(s: &str) -> (tif: Result<TimeInForce, EngineError>)
    ensures
        tif == (match tif_named(s@) {
            Some(named) => Ok::<TimeInForce, EngineError>(named),
            None => Err(EngineError::InvalidInput),
        }),
{
    proof {
        reveal_strlit("gtc");
        reveal_strlit("ioc");
        reveal_strlit("fok");
        assert("gtc"@ =~= seq!['g', 't', 'c']);
        assert("ioc"@ =~= seq!['i', 'o', 'c']);
        assert("fok"@ =~= seq!['f', 'o', 'k']);
    }
    if spells(s, "gtc") {
        Ok(TimeInForce::GTC)
    } else if spells(s, "ioc") {
        Ok(TimeInForce::IOC)
    } else if spells(s, "fok") {
        Ok(TimeInForce::FOK)
    } else {
        Err(EngineError::InvalidInput)
    }
}

/// The lower-case name of a side.
pub fn side_str(side: Side) -> (name: &'static str)
    ensures
        name@ == (match side {
            Side::Buy => seq!['b', 'u', 'y'],
            Side::Sell => seq!['s', 'e', 'l', 'l'],
        }),
{
    proof {
        reveal_strlit("buy");
        reveal_strlit("sell");
        assert("buy"@ =~= seq!['b', 'u', 'y']);
        assert("sell"@ =~= seq!['s', 'e', 'l', 'l']);
    }
    match side {
        Side::Buy => "buy",
        Side::Sell => "sell",
    }
}

/// Reads a symbol from text, rejecting text longer than the capacity of a symbol.
pub fn parse_symbol(s: &str) -> (symbol: Result<Symbol, EngineError>)
    ensures
        match symbol {
            Ok(sym) => sym@ == s.spec_bytes(),
            Err(e) => e == EngineError::SymbolTooLong && s.spec_bytes().len() > SYMBOL_CAPACITY,
        },
{
    match Symbol::try_new(s) {
        Some(symbol) => Ok(symbol),
        None => Err(EngineError::SymbolTooLong),
    }
}

} // verus!
