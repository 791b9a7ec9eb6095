//! Key chords: a modifier mask and a key symbol.

use vstd::prelude::*;

use crate::text::{split_trimmed, str_eq, strings_view, tokens_spec, trim, trim_spec};

verus! {

/// Modifier masks of the X protocol.
pub const SHIFT: u32 = 1;
pub const LOCK: u32 = 2;
pub const CONTROL: u32 = 4;
pub const MOD1: u32 = 8;
pub const MOD2: u32 = 16;
pub const MOD3: u32 = 32;
pub const MOD4: u32 = 64;
pub const MOD5: u32 = 128;
/// The wildcard modifier: any set of modifiers.
pub const ANY: u32 = 0x8000;

/// Symbol value of a chord that names no key (only modifiers).
pub const NO_SYMBOL: u64 = 0xffff_ffff_ffff_ffff;

/// A key chord: the key symbol and the mask of held modifiers.
#[derive(Debug, Clone, Copy, PartialEq, Eq, Structural)]
pub struct Key {
    pub sym: u64,
    pub mask: u32,
}

impl Key {
    /// A chord made of modifiers only.
    pub fn mask(mask: u32) -> (r: Key)
        ensures
            r == (Key { sym: NO_SYMBOL, mask }),
    {
        Key { sym: NO_SYMBOL, mask }
    }

    /// A chord made of one key symbol and no modifier.
    pub fn sym(sym: u64) -> (r: Key)
        ensures
            r == (Key { sym, mask: 0 }),
    {
        Key { sym, mask: 0 }
    }

    /// The empty chord that parsing starts from.
    pub fn builder() -> (r: Key)
        ensures
            r == (Key { sym: NO_SYMBOL, mask: 0 }),
    {
        Key::mask(0)
    }

    /// Adds the modifiers of `other`, and its symbol where this chord has none.
    pub fn merge(self, other: Key) -> (r: Key)
        ensures
            r.mask == self.mask | other.mask,
            r.sym == if self.sym == NO_SYMBOL {
                other.sym
            } else {
                self.sym
            },
    {
        let mut k = self;
        if k.sym == NO_SYMBOL {
            k.sym = other.sym;
        }
        k.mask = k.mask | other.mask;
        k
    }

    /// Little-endian bytes of the symbol followed by those of the mask.
    pub open spec fn spec_bytes(self) -> Seq<u8> {
        seq![
            self.sym as u8, (self.sym >> 8) as u8, (self.sym >> 16) as u8, (self.sym >> 24) as u8,
            (self.sym >> 32) as u8, (self.sym >> 40) as u8, (self.sym >> 48) as u8, (self.sym >> 56) as u8,
            self.mask as u8, (self.mask >> 8) as u8, (self.mask >> 16) as u8, (self.mask >> 24) as u8,
        ]
    }

    /// The fixed-width table key of this chord.
    pub fn to_bytes(self) -> (r: [u8; 12])
        ensures
            r@ == self.spec_bytes(),
    {
        let s = self.sym;
        let m = self.mask;
        let r = [
            s as u8, (s >> 8) as u8, (s >> 16) as u8, (s >> 24) as u8,
            (s >> 32) as u8, (s >> 40) as u8, (s >> 48) as u8, (s >> 56) as u8,
            m as u8, (m >> 8) as u8, (m >> 16) as u8, (m >> 24) as u8,
        ];
        assert(r@ =~= self.spec_bytes());
        r
    }

    /// The chord whose encoding is `b`.
    pub open spec fn spec_from_bytes(b: Seq<u8>) -> Key {
        Key {
            sym: (b[0] as u64) | ((b[1] as u64) << 8) | ((b[2] as u64) << 16) | ((b[3] as u64) << 24)
                | ((b[4] as u64) << 32) | ((b[5] as u64) << 40) | ((b[6] as u64) << 48) | ((
            b[7] as u64) << 56),
            mask: (b[8] as u32) | ((b[9] as u32) << 8) | ((b[10] as u32) << 16) | ((b[11] as u32)
                << 24),
        }
    }

    /// The chord whose table key is `b`.
    pub fn from_bytes(b: &[u8; 12]) -> (r: Key)
        ensures
            r == Key::spec_from_bytes(b@),
    {
        let sym = (b[0] as u64) | ((b[1] as u64) << 8) | ((b[2] as u64) << 16) | ((b[3] as u64) << 24)
            | ((b[4] as u64) << 32) | ((b[5] as u64) << 40) | ((b[6] as u64) << 48) | ((
        b[7] as u64) << 56);
        let mask = (b[8] as u32) | ((b[9] as u32) << 8) | ((b[10] as u32) << 16) | ((b[11] as u32)
            << 24);
        Key { sym, mask }
    }
}

/// Mask of the modifier group that `name` stands for in the keyboard's
/// modifier map (`alt` is `mod1`, `super` is `mod4`, ...).
pub open spec fn alias_mask(name: Seq<char>) -> Option<u32> {
    if name == "alt"@ {
        Some(MOD1)
    } else if name == "Num_Lock"@ {
        Some(MOD2)
    } else if name == "_mod3"@ {
        Some(MOD3)
    } else if name == "super"@ {
        Some(MOD4)
    } else if name == "_mod5"@ {
        Some(MOD5)
    } else {
        None
    }
}

/// Mask of the modifier that a pattern token names, if it names one.
pub open spec fn modifier_mask(t: Seq<char>) -> Option<u32> {
    if t == "any"@ {
        Some(ANY)
    } else if t == "shift"@ {
        Some(SHIFT)
    } else if t == "ctrl"@ || t == "control"@ {
        Some(CONTROL)
    } else if t == "lock"@ {
        Some(LOCK)
    } else if t == "mod1"@ {
        Some(MOD1)
    } else if t == "mod2"@ {
        Some(MOD2)
    } else if t == "mod3"@ {
        Some(MOD3)
    } else if t == "mod4"@ {
        Some(MOD4)
    } else if t == "mod5"@ {
        Some(MOD5)
    } else {
        alias_mask(t)
    }
}

/// Mask of the modifier group that `name` stands for, if any.
pub fn alias_of(name: &str) -> (r: Option<u32>)
    ensures
        r == alias_mask(name@),
{
    if str_eq(name, "alt") {
        Some(MOD1)
    } else if str_eq(name, "Num_Lock") {
        Some(MOD2)
    } else if str_eq(name, "_mod3") {
        Some(MOD3)
    } else if str_eq(name, "super") {
        Some(MOD4)
    } else if str_eq(name, "_mod5") {
        Some(MOD5)
    } else {
        None
    }
}

/// The modifier chord that token `k` names, or `None` where it names none.
pub fn parse_convert_modifier(k: &str) -> (r: Option<Key>)
    ensures
        r == match modifier_mask(k@) {
            Some(m) => Some(Key { sym: NO_SYMBOL, mask: m }),
            None => None,
        },
{
    let m = if str_eq(k, "any") {
        Some(ANY)
    } else if str_eq(k, "shift") {
        Some(SHIFT)
    } else if str_eq(k, "ctrl") || str_eq(k, "control") {
        Some(CONTROL)
    } else if str_eq(k, "lock") {
        Some(LOCK)
    } else if str_eq(k, "mod1") {
        Some(MOD1)
    } else if str_eq(k, "mod2") {
        Some(MOD2)
    } else if str_eq(k, "mod3") {
        Some(MOD3)
    } else if str_eq(k, "mod4") {
        Some(MOD4)
    } else if str_eq(k, "mod5") {
        Some(MOD5)
    } else {
        alias_of(k)
    };
    match m {
        Some(m) => Some(Key::mask(m)),
        None => None,
    }
}

/// The modifiers that the lock keys add to a chord while they are on.
#[derive(Debug, Clone, Copy, PartialEq, Eq, Structural)]
pub struct Locks {
    pub num: Option<u32>,
    pub caps: Option<u32>,
}

impl Locks {
    pub open spec fn new_spec() -> Locks {
        Locks { num: Some(MOD2), caps: None }
    }

    /// Num lock and caps lock as the modifier map places them.
    pub fn new() -> (r: Locks)
        ensures
            r == Locks::new_spec(),
            r.num == alias_mask("Num_Lock"@),
            r.caps == alias_mask("Caps_Lock"@),
            r.num == Some(MOD2),
            r.caps is None,
    {
        proof {
            reveal_strlit("Num_Lock");
            reveal_strlit("Caps_Lock");
            reveal_strlit("alt");
            reveal_strlit("_mod3");
            reveal_strlit("super");
            reveal_strlit("_mod5");
            assert("Num_Lock"@.len() == 8 && "Caps_Lock"@.len() == 9 && "alt"@.len() == 3);
            assert("super"@.len() == 5 && "_mod3"@.len() == 5 && "_mod5"@.len() == 5);
            assert("Num_Lock"@ != "alt"@);
            assert("Caps_Lock"@ != "alt"@);
            assert("Caps_Lock"@ != "Num_Lock"@);
            assert("Caps_Lock"@ != "_mod3"@);
            assert("Caps_Lock"@ != "super"@);
            assert("Caps_Lock"@ != "_mod5"@);
        }
        Locks { num: alias_of("Num_Lock"), caps: alias_of("Caps_Lock") }
    }

    /// Mask added while num lock is on; none where no group holds it.
    pub open spec fn num_mask(self) -> u32 {
        match self.num {
            Some(m) => m,
            None => 0,
        }
    }

    /// Mask added while caps lock is on; the lock modifier where no group holds it.
    pub open spec fn caps_mask(self) -> u32 {
        match self.caps {
            Some(m) => m,
            None => LOCK,
        }
    }
}

/// Why a binding pattern does not give a chord.
#[derive(Debug, Clone, Copy, PartialEq, Eq, Structural)]
pub enum ParseError {
    /// A token is neither a modifier nor a known key symbol.
    UnknownSymbol,
    /// The pattern names neither a modifier nor a key.
    Empty,
}

/// A binding pattern read up to its key names: the modifiers that it holds
/// and, in order, the tokens that must name key symbols.
pub struct Pattern {
    pub mask: u32,
    pub symbols: Vec<String>,
}

/// Mask and symbol names of a pattern with tokens `ts`: modifier masks are
/// or-ed together, every other token, an empty one included, is a symbol name.
pub open spec fn pattern_spec(ts: Seq<Seq<char>>) -> (u32, Seq<Seq<char>>)
    decreases ts.len(),
{
    if ts.len() == 0 {
        (0u32, Seq::<Seq<char>>::empty())
    } else {
        let (m, names) = pattern_spec(ts.drop_last());
        let t = ts.last();
        match modifier_mask(t) {
            Some(x) => (m | x, names),
            None => (m, names.push(t)),
        }
    }
}

/// The chord of a pattern with modifier mask `mask` whose symbol names
/// resolved to `syms` (zero: unknown); the last symbol wins.
pub open spec fn resolve_spec(mask: u32, syms: Seq<u64>) -> Result<Key, ParseError> {
    if exists|i: int| 0 <= i < syms.len() && syms[i] == 0 {
        Err(ParseError::UnknownSymbol)
    } else if syms.len() == 0 && mask == 0 {
        Err(ParseError::Empty)
    } else {
        Ok(Key { sym: if syms.len() == 0 { NO_SYMBOL } else { syms.last() }, mask })
    }
}

impl Pattern {
    /// Reads `input`: tokens separated by `+`, trimmed. A blank pattern holds
    /// neither modifiers nor symbol names.
    pub fn parse(input: &str) -> (r: Pattern)
        ensures
            trim_spec(input@).len() == 0 ==> r.mask == 0 && r.symbols@.len() == 0,
            trim_spec(input@).len() != 0 ==> (r.mask, strings_view(r.symbols@)) == pattern_spec(
                tokens_spec(input@, '+'),
            ),
    {
        if trim(input).unicode_len() == 0 {
            return Pattern { mask: 0, symbols: Vec::new() };
        }
        let tokens = split_trimmed(input, '+');
        let ghost ts = tokens_spec(input@, '+');
        let mut mask: u32 = 0;
        let mut symbols: Vec<String> = Vec::new();
        let mut i: usize = 0;
        while i < tokens.len()
            invariant
                strings_view(tokens@) == ts,
                i <= tokens@.len(),
                (mask, strings_view(symbols@)) == pattern_spec(ts.subrange(0, i as int)),
            decreases tokens.len() - i,
        {
            let ghost before = strings_view(symbols@);
            assert(ts.subrange(0, i + 1).drop_last() =~= ts.subrange(0, i as int));
            assert(ts[i as int] == tokens@[i as int]@);
            let t = &tokens[i];
            match parse_convert_modifier(t.as_str()) {
                Some(k) => {
                    mask = mask | k.mask;
                },
                None => {
                    symbols.push(t.clone());
                    assert(strings_view(symbols@) =~= before.push(t@));
                },
            }
            i = i + 1;
        }
        assert(ts.subrange(0, i as int) =~= ts);
        Pattern { mask, symbols }
    }

    /// The chord of this pattern, given in `syms` the key symbol of each of
    /// its symbol names, zero for a name that the symbol table lacks.
    pub fn resolve(&self, syms: &Vec<u64>) -> (r: Result<Key, ParseError>)
        requires
            syms@.len() == self.symbols@.len(),
        ensures
            r == resolve_spec(self.mask, syms@),
    {
        let mut i: usize = 0;
        while i < syms.len()
            invariant
                i <= syms@.len(),
                forall|j: int| 0 <= j < i ==> syms@[j] != 0,
            decreases syms.len() - i,
        {
            if syms[i] == 0 {
                return Err(ParseError::UnknownSymbol);
            }
            i = i + 1;
        }
        if syms.len() == 0 {
            if self.mask == 0 {
                Err(ParseError::Empty)
            } else {
                Ok(Key::mask(self.mask))
            }
        } else {
            Ok(Key { sym: syms[syms.len() - 1], mask: self.mask })
        }
    }
}

/// What the event source reports.
#[derive(Debug, Clone, Copy, PartialEq, Eq, Structural)]
pub enum Event {
    KeyPress(Key),
    KeyRelease(Key),
    Other,
}

impl Event {
    /// Whether this event is the press or the release of chord `key`.
    pub fn matches_key(&self, key: &Key) -> (r: bool)
        ensures
            r == match *self {
                Event::KeyPress(k) => k == *key,
                Event::KeyRelease(k) => k == *key,
                Event::Other => false,
            },
    {
        match self {
            Event::KeyPress(k) => *k == *key,
            Event::KeyRelease(k) => *k == *key,
            Event::Other => false,
        }
    }
}

/// Decoding the encoding of a chord gives the chord back.
pub proof fn lemma_bytes_round_trip(k: Key)
    ensures
        Key::spec_from_bytes(k.spec_bytes()) == k,
        k.spec_bytes().len() == 12,
{
    let s = k.sym;
    let m = k.mask;
    assert(((s as u8) as u64) | ((((s >> 8) as u8) as u64) << 8) | ((((s >> 16) as u8) as u64)
        << 16) | ((((s >> 24) as u8) as u64) << 24) | ((((s >> 32) as u8) as u64) << 32) | ((((s
        >> 40) as u8) as u64) << 40) | ((((s >> 48) as u8) as u64) << 48) | ((((s >> 56) as u8)
        as u64) << 56) == s) by (bit_vector);
    assert(((m as u8) as u32) | ((((m >> 8) as u8) as u32) << 8) | ((((m >> 16) as u8) as u32)
        << 16) | ((((m >> 24) as u8) as u32) << 24) == m) by (bit_vector);
}

/// Two chords with the same encoding are the same chord.
pub proof fn lemma_bytes_injective(a: Key, b: Key)
    ensures
        a.spec_bytes() == b.spec_bytes() <==> a == b,
{
    lemma_bytes_round_trip(a);
    lemma_bytes_round_trip(b);
}

} // verus!
