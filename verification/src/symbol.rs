//! Ticker symbols: short byte strings of fixed capacity.

use vstd::prelude::*;
use vstd::slice::slice_subrange;
use vstd::string::StringSliceAdditionalSpecFns;
use vstd::utf8::{encode_utf8_valid_utf8, valid_utf8};

verus! {

/// The largest number of bytes a symbol can hold.
pub const SYMBOL_CAPACITY: usize = 8;

/// A ticker symbol: at most [`SYMBOL_CAPACITY`] bytes of UTF-8 text, fixed once
/// constructed. Two symbols are equal when their bytes are.
#[derive(Clone, Copy, Debug, Eq, Hash)]
pub struct Symbol {
    bytes: [u8; 8],
    len: u8,
}

impl View for Symbol {
    type V = Seq<u8>;

    closed spec fn view(&self) -> Seq<u8> {
        self.bytes@.take(self.spec_len() as int)
    }
}

impl Symbol {
    /// The number of bytes of the symbol.
    pub closed spec fn spec_len(&self) -> nat {
        if self.len <= 8 {
            self.len as nat
        } else {
            8
        }
    }

    /// The symbol fits its capacity, its unused bytes are zero, and its bytes are UTF-8
    /// text.
    #[verifier::type_invariant]
    closed spec fn wf(&self) -> bool {
        &&& self.len <= 8
        &&& forall|i: int| self.len <= i < 8 ==> self.bytes@[i] == 0
        &&& valid_utf8(self@)
    }

    /// The symbol spelled by `s`, or nothing if `s` is longer than
    /// [`SYMBOL_CAPACITY`] bytes.
    pub fn try_new(s: &str) -> (symbol: Option<Symbol>)
        ensures
            match symbol {
                Some(sym) => sym@ == s.spec_bytes(),
                None => s.spec_bytes().len() > SYMBOL_CAPACITY,
            },
    {
        let source = s.as_bytes();
        let n = source.len();
        if n > SYMBOL_CAPACITY {
            return None;
        }
        let mut bytes = [0u8;8];
        let mut i: usize = 0;
        while i < n
            invariant
                i <= n <= 8,
                n == source@.len(),
                forall|k: int| 0 <= k < i ==> bytes@[k] == source@[k],
                forall|k: int| i <= k < 8 ==> bytes@[k] == 0,
            decreases n - i,
        {
            bytes[i] = source[i];
            i += 1;
        }
        proof {
            assert(bytes@.take(n as int) =~= s.spec_bytes());
            encode_utf8_valid_utf8(s@);
        }
        Some(Symbol { bytes, len: n as u8 })
    }

    /// The symbol spelled by `s`, which must fit the capacity.
    pub fn new(s: &str) -> (symbol: Symbol)
        requires
            s.spec_bytes().len() <= SYMBOL_CAPACITY,
        ensures
            symbol@ == s.spec_bytes(),
    {
        match Symbol::try_new(s) {
            Some(symbol) => symbol,
            None => vstd::pervasive::unreached(),
        }
    }

    /// The number of bytes of the symbol, which is at most [`SYMBOL_CAPACITY`].
    pub fn len(&self) -> (n: usize)
        ensures
            n == self@.len(),
            n <= SYMBOL_CAPACITY,
    {
        if self.len <= 8 {
            self.len as usize
        } else {
            8
        }
    }

    /// Whether the symbol has no bytes.
    pub fn is_empty(&self) -> (b: bool)
        ensures
            b == (self@.len() == 0),
    {
        self.len == 0
    }

    /// The bytes of the symbol.
    pub fn as_bytes(&self) -> (bytes: &[u8])
        ensures
            bytes@ == self@,
    {
        slice_subrange(self.bytes.as_slice(), 0, self.len())
    }

    /// The text of the symbol.
    pub fn as_str(&self) -> (text: &str)
        ensures
            text.spec_bytes() == self@,
            valid_utf8(self@),
    {
        proof {
            use_type_invariant(self);
        }
        match utf8_text(self.as_bytes()) {
            Some(text) => text,
            None => vstd::pervasive::unreached(),
        }
    }
}

/// Calls [`core::str::from_utf8`]. Its contract is taken from the documentation of that
/// function and is not proved here: valid UTF-8 comes back as text that consists of
/// exactly the given bytes, and anything else is refused.
#[verifier::external_body]
fn utf8_text(bytes: &[u8]) -> (text: Option<&str>)
    ensures
        match text {
            Some(s) => s.spec_bytes() == bytes@,
            None => !valid_utf8(bytes@),
        },
{
    core::str::from_utf8(bytes).ok()
}

impl PartialEq for Symbol {
    fn eq(&self, other: &Symbol) -> (equal: bool) {
        let n = self.len();
        if n != other.len() {
            assert(self@.len() != other@.len());
            return false;
        }
        let mut i: usize = 0;
        while i < n
            invariant
                i <= n <= 8,
                n == self.spec_len() == other.spec_len(),
                forall|k: int| 0 <= k < i ==> self.bytes@[k] == other.bytes@[k],
            decreases n - i,
        {
            if self.bytes[i] != other.bytes[i] {
                assert(self@[i as int] != other@[i as int]);
                return false;
            }
            i += 1;
        }
        assert(self@ =~= other@);
        true
    }
}

impl vstd::std_specs::cmp::PartialEqSpecImpl for Symbol {
    open spec fn obeys_eq_spec() -> bool {
        true
    }

    open spec fn eq_spec(&self, other: &Symbol) -> bool {
        self@ == other@
    }
}

} // verus!
