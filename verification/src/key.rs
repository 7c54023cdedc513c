//! Keys as the user names them: an xkb symbol together with the modifiers held alongside it.
use crate::text::{
    char_is_control, char_is_whitespace, chars_of, debug_str, debug_text, is_control,
    is_whitespace, str_eq, str_to_string, string_push, string_push_str,
};
use vstd::prelude::*;

verus! {

/// The keysym that xkb assigns to a character (`xkeysym::Keysym::from_char`, which xkbcommon
/// re-exports as `xkb::Keysym::from_char`).
pub uninterp spec fn xkb_keysym_of_char(c: char) -> u32;

/// The character xkb gives for a keysym, if any (`xkeysym::Keysym::key_char`, which follows
/// libxkbcommon's `xkb_keysym_to_utf32`).
pub uninterp spec fn xkb_keysym_char(keysym: u32) -> Option<char>;

/// The keysym `xkeysym::Keysym::from_char` gives for a character ahead of its table, as its
/// source shows: a Latin-1 character keeps its number; BackSpace, Tab, Linefeed, Clear, Return
/// and Escape as control characters are their function keysyms (the character with `0xff00`
/// added), DEL is `Delete` (`0xffff`); a Unicode noncharacter has none (`NoSymbol`, 0). `None`
/// for the characters found in its table.
pub open spec fn keysym_of_char_rule(c: char) -> Option<u32> {
    let u = c as u32;
    if (0x20 <= u && u <= 0x7e) || (0xa0 <= u && u <= 0xff) {
        Some(u)
    } else if (0x08 <= u && u <= 0x0b) || u == 0x0d || u == 0x1b {
        Some((u + 0xff00) as u32)
    } else if u == 0x7f {
        Some(0xffff)
    } else if (0xfdd0 <= u && u <= 0xfdef) || u % 0x10000 >= 0xfffe {
        Some(0)
    } else {
        None
    }
}

/// Calls `xkeysym::Keysym::from_char`. What its source gives ahead of its table is stated by
/// [`keysym_of_char_rule`]; the table itself is not restated here, its result is only named.
#[verifier::external_body]
fn keysym_from_char(c: char) -> (k: u32)
    ensures
        k == xkb_keysym_of_char(c),
        keysym_of_char_rule(c) matches Some(r) ==> k == r,
{
    xkeysym::Keysym::from_char(c).raw()
}

/// The character `xkeysym::Keysym::key_char` gives for a keysym ahead of its table, as its source
/// shows: a Latin-1 keysym is the character with its number; `KP_Space` is a space; BackSpace to
/// Clear, Return, Escape, Delete, `KP_Tab`, `KP_Enter`, `KP_Equal` and `KP_Multiply` to `KP_9`
/// are the ASCII character of their low seven bits; a keysym that encodes a Unicode code point
/// directly (`0x01000000` plus the code point) is that character, none for a surrogate. `None`
/// for the keysyms looked up in its table.
pub open spec fn keysym_char_rule(k: u32) -> Option<Option<char>> {
    if (0x20 <= k && k <= 0x7e) || (0xa0 <= k && k <= 0xff) {
        Some(Some(k as char))
    } else if k == 0xff80 {
        Some(Some(' '))
    } else if (0xff08 <= k && k <= 0xff0b) || (0xffaa <= k && k <= 0xffb9) || k == 0xff0d || k
        == 0xff1b || k == 0xffff || k == 0xff89 || k == 0xff8d || k == 0xffbd {
        Some(Some((k % 128) as char))
    } else if 0x0100d800 <= k && k <= 0x0100dfff {
        Some(None)
    } else if 0x01000000 <= k && k <= 0x0110ffff {
        Some(Some((k - 0x01000000) as char))
    } else {
        None
    }
}

/// Calls `xkeysym::Keysym::key_char`. What its source gives ahead of its table is stated by
/// [`keysym_char_rule`]; the table itself is not restated here, its result is only named.
#[verifier::external_body]
fn keysym_char(keysym: u32) -> (r: Option<char>)
    ensures
        r == xkb_keysym_char(keysym),
        keysym_char_rule(keysym) matches Some(x) ==> r == x,
{
    xkeysym::Keysym::new(keysym).key_char()
}

/// What libxkbcommon says of the keysym names at hand: the keysym it finds under each name
/// (`xkb::keysym_from_name`), and the canonical name of each keysym (`xkb::keysym_get_name`).
/// Names and keysyms that are not listed are unknown to it.
#[derive(Debug)]
pub struct XkbNames {
    /// Names, each with the keysym found under it (`NoSymbol`, 0, for a name xkb does not know).
    pub keysyms: Vec<(String, u32)>,
    /// Keysyms, each with its canonical name.
    pub names: Vec<(u32, String)>,
}

/// The keysym listed for a name: the first entry with that name, or `NoSymbol`.
pub open spec fn listed_keysym(entries: Seq<(String, u32)>, name: Seq<char>) -> u32
    decreases entries.len(),
{
    if entries.len() == 0 {
        0
    } else if entries[0].0@ == name {
        entries[0].1
    } else {
        listed_keysym(entries.drop_first(), name)
    }
}

/// The name listed for a keysym: the first entry for it, or nothing.
pub open spec fn listed_name(entries: Seq<(u32, String)>, keysym: u32) -> Seq<char>
    decreases entries.len(),
{
    if entries.len() == 0 {
        Seq::empty()
    } else if entries[0].0 == keysym {
        entries[0].1@
    } else {
        listed_name(entries.drop_first(), keysym)
    }
}

impl XkbNames {
    /// The keysym xkb finds under a name.
    pub open spec fn keysym_of_name(self, name: Seq<char>) -> u32 {
        listed_keysym(self.keysyms@, name)
    }

    /// The canonical xkb name of a keysym.
    pub open spec fn name_of(self, keysym: u32) -> Seq<char> {
        listed_name(self.names@, keysym)
    }

    /// The keysym xkb finds under a name.
    pub fn find_keysym(&self, name: &str) -> (k: u32)
        ensures
            k == self.keysym_of_name(name@),
    {
        let mut i: usize = 0;
        proof {
            assert(self.keysyms@.skip(0) =~= self.keysyms@);
        }
        while i < self.keysyms.len()
            invariant
                i <= self.keysyms@.len(),
                listed_keysym(self.keysyms@, name@) == listed_keysym(self.keysyms@.skip(i as int), name@),
            decreases self.keysyms@.len() - i,
        {
            proof {
                assert(self.keysyms@.skip(i as int).drop_first() =~= self.keysyms@.skip(i + 1));
            }
            if str_eq(self.keysyms[i].0.as_str(), name) {
                return self.keysyms[i].1;
            }
            i += 1;
        }
        0
    }

    /// The canonical xkb name of a keysym.
    pub fn find_name(&self, keysym: u32) -> (r: String)
        ensures
            r@ == self.name_of(keysym),
    {
        let mut i: usize = 0;
        proof {
            assert(self.names@.skip(0) =~= self.names@);
        }
        while i < self.names.len()
            invariant
                i <= self.names@.len(),
                listed_name(self.names@, keysym) == listed_name(self.names@.skip(i as int), keysym),
            decreases self.names@.len() - i,
        {
            proof {
                assert(self.names@.skip(i as int).drop_first() =~= self.names@.skip(i + 1));
            }
            if self.names[i].0 == keysym {
                return self.names[i].1.clone();
            }
            i += 1;
        }
        String::new()
    }
}

/// The keysym xkb calls `NoSymbol`, which stands for no symbol at all.
pub open spec fn no_symbol() -> u32 {
    0
}

/// What a key means under the active keyboard layout: the character or named key it types,
/// held as its xkb keysym. A symbol is named the way xkb names keysyms: `a`, `exclam`, `Escape`,
/// `Caps_Lock`, `Page_Up`. The keysym `NoSymbol` (0) stands for no symbol.
#[derive(Clone, Copy, Debug, PartialEq, Eq, Structural, PartialOrd, Ord, Hash)]
pub struct Symbol(pub u32);

/// The character a keysym types, if any: the character xkb gives for it, unless that is a
/// control character.
pub open spec fn typed_character(keysym: u32) -> Option<char> {
    match xkb_keysym_char(keysym) {
        Some(c) => if is_control(c) {
            None
        } else {
            Some(c)
        },
        None => None,
    }
}

/// How a symbol is rendered: its character when it types a visible one, otherwise its canonical
/// xkb name.
pub open spec fn symbol_text(xkb: XkbNames, s: Symbol) -> Seq<char> {
    match typed_character(s.0) {
        Some(c) => if !is_whitespace(c) {
            seq![c]
        } else {
            xkb.name_of(s.0)
        },
        None => xkb.name_of(s.0),
    }
}

/// The symbol a name stands for: a single character stands for the symbol that types it,
/// anything else must be an xkb keysym name, spelled exactly as xkb does.
pub open spec fn parse_symbol_keysym(xkb: XkbNames, name: Seq<char>) -> u32 {
    if name.len() == 1 {
        xkb_keysym_of_char(name[0])
    } else {
        xkb.keysym_of_name(name)
    }
}

impl Symbol {
    /// The Escape key.
    pub fn escape() -> (s: Symbol)
        ensures
            s.0 == 0xff1b,
    {
        Symbol(0xff1b)
    }

    /// The Return key.
    pub fn return_key() -> (s: Symbol)
        ensures
            s.0 == 0xff0d,
    {
        Symbol(0xff0d)
    }

    /// The BackSpace key.
    pub fn backspace() -> (s: Symbol)
        ensures
            s.0 == 0xff08,
    {
        Symbol(0xff08)
    }

    /// The symbol that types `c`. Unicode noncharacters have none.
    pub fn from_char(c: char) -> (r: Option<Symbol>)
        ensures
            keysym_of_char_rule(c) matches Some(k) ==> xkb_keysym_of_char(c) == k,
            r == (if xkb_keysym_of_char(c) == no_symbol() {
                None
            } else {
                Some(Symbol(xkb_keysym_of_char(c)))
            }),
    {
        Self::from_keysym(keysym_from_char(c))
    }

    /// The symbol an xkb keysym stands for; `NoSymbol` stands for none.
    pub fn from_keysym(keysym: u32) -> (r: Option<Symbol>)
        ensures
            r == (if keysym == no_symbol() {
                None
            } else {
                Some(Symbol(keysym))
            }),
    {
        if keysym != 0 {
            Some(Symbol(keysym))
        } else {
            None
        }
    }

    /// The xkb keysym the symbol stands for.
    pub fn keysym(self) -> (k: u32)
        ensures
            k == self.0,
    {
        self.0
    }

    /// The character the symbol types. Control characters and named keys type none.
    pub fn character(self) -> (r: Option<char>)
        ensures
            keysym_char_rule(self.0) matches Some(x) ==> xkb_keysym_char(self.0) == x,
            r == typed_character(self.0),
    {
        match keysym_char(self.0) {
            Some(c) => {
                if char_is_control(c) {
                    None
                } else {
                    Some(c)
                }
            },
            None => None,
        }
    }

    /// Parses a symbol's name: a single character stands for the symbol that types it, anything
    /// else must be an xkb keysym name, spelled exactly as xkb does.
    pub fn from_str(name: &str, xkb: &XkbNames) -> (r: Result<Symbol, KeyParseError>)
        ensures
            parse_symbol_keysym(*xkb, name@) == no_symbol() ==> (r matches Err(
                KeyParseError::UnknownSymbol(n),
            ) && n@ == name@),
            parse_symbol_keysym(*xkb, name@) != no_symbol() ==> r == Ok::<Symbol, KeyParseError>(
                Symbol(parse_symbol_keysym(*xkb, name@)),
            ),
    {
        let chars = chars_of(name);
        let looked_up = if chars.len() == 1 {
            keysym_from_char(chars[0])
        } else {
            xkb.find_keysym(name)
        };
        Self::from_lookup(name, looked_up)
    }

    /// The symbol a name stands for, given the keysym looked up for it: `NoSymbol` means the
    /// name is unknown.
    pub fn from_lookup(name: &str, looked_up: u32) -> (r: Result<Symbol, KeyParseError>)
        ensures
            looked_up == no_symbol() ==> (r matches Err(KeyParseError::UnknownSymbol(n))
                && n@ == name@),
            looked_up != no_symbol() ==> r == Ok::<Symbol, KeyParseError>(Symbol(looked_up)),
    {
        match Self::from_keysym(looked_up) {
            Some(s) => Ok(s),
            None => Err(KeyParseError::UnknownSymbol(str_to_string(name))),
        }
    }

    /// Renders the symbol as it is named: its character when it types a visible one, otherwise
    /// its xkb keysym name. A symbol with several xkb names renders under the canonical one.
    pub fn to_string(&self, xkb: &XkbNames) -> (r: String)
        ensures
            r@ == symbol_text(*xkb, *self),
    {
        match self.character() {
            Some(c) => {
                if !char_is_whitespace(c) {
                    let mut r = String::new();
                    string_push(&mut r, c);
                    r
                } else {
                    xkb.find_name(self.0)
                }
            },
            None => xkb.find_name(self.0),
        }
    }
}

/// A modifier key held while another key is pressed.
#[derive(Clone, Copy, Debug, PartialEq, Eq, Structural, PartialOrd, Ord, Hash)]
pub enum Modifier {
    Alt,
    Control,
    Shift,
    Super,
}

/// The xkb name of a modifier, which is also its configured spelling.
pub open spec fn modifier_name(m: Modifier) -> Seq<char> {
    match m {
        Modifier::Alt => "Alt"@,
        Modifier::Control => "Control"@,
        Modifier::Shift => "Shift"@,
        Modifier::Super => "Super"@,
    }
}

impl Modifier {
    /// The modifier's xkb name, which is also its configured spelling.
    pub fn name(self) -> (r: &'static str)
        ensures
            r@ == modifier_name(self),
    {
        match self {
            Modifier::Alt => "Alt",
            Modifier::Control => "Control",
            Modifier::Shift => "Shift",
            Modifier::Super => "Super",
        }
    }

    /// Parses a modifier by its exact name.
    pub fn from_str(name: &str) -> (r: Result<Modifier, KeyParseError>)
        ensures
            r matches Ok(m) ==> modifier_name(m) == name@,
            r is Err <==> (forall|m: Modifier| modifier_name(m) != name@),
            r matches Err(e) ==> (e matches KeyParseError::UnknownModifier(n) && n@ == name@),
    {
        let all = [Modifier::Alt, Modifier::Control, Modifier::Shift, Modifier::Super];
        let mut i: usize = 0;
        while i < 4
            invariant
                i <= 4,
                all@ == seq![Modifier::Alt, Modifier::Control, Modifier::Shift, Modifier::Super],
                forall|j: int| 0 <= j < i ==> modifier_name(all@[j]) != name@,
            decreases 4 - i,
        {
            let m = all[i];
            if str_eq(m.name(), name) {
                return Ok(m);
            }
            i += 1;
        }
        proof {
            assert forall|m: Modifier| modifier_name(m) != name@ by {
                match m {
                    Modifier::Alt => assert(modifier_name(all@[0]) != name@),
                    Modifier::Control => assert(modifier_name(all@[1]) != name@),
                    Modifier::Shift => assert(modifier_name(all@[2]) != name@),
                    Modifier::Super => assert(modifier_name(all@[3]) != name@),
                }
            }
        }
        Err(KeyParseError::UnknownModifier(str_to_string(name)))
    }
}

/// A set of modifiers.
#[derive(Clone, Copy, Debug, PartialEq, Eq, Structural, PartialOrd, Ord, Hash, Default)]
pub struct ModifierSet {
    pub alt: bool,
    pub control: bool,
    pub shift: bool,
    pub super_key: bool,
}

impl ModifierSet {
    /// Whether `m` is in the set.
    pub open spec fn has(self, m: Modifier) -> bool {
        match m {
            Modifier::Alt => self.alt,
            Modifier::Control => self.control,
            Modifier::Shift => self.shift,
            Modifier::Super => self.super_key,
        }
    }

    /// The set with `m` added.
    pub open spec fn with(self, m: Modifier) -> ModifierSet {
        match m {
            Modifier::Alt => ModifierSet { alt: true, ..self },
            Modifier::Control => ModifierSet { control: true, ..self },
            Modifier::Shift => ModifierSet { shift: true, ..self },
            Modifier::Super => ModifierSet { super_key: true, ..self },
        }
    }

    /// The set as a mathematical set.
    pub open spec fn view(self) -> Set<Modifier> {
        Set::new(|m: Modifier| self.has(m))
    }

    /// The members in ascending order: Alt, Control, Shift, Super.
    pub open spec fn members(self) -> Seq<Modifier> {
        (if self.alt { seq![Modifier::Alt] } else { Seq::empty() })
        + (if self.control { seq![Modifier::Control] } else { Seq::empty() })
        + (if self.shift { seq![Modifier::Shift] } else { Seq::empty() })
        + (if self.super_key { seq![Modifier::Super] } else { Seq::empty() })
    }

    /// The empty set.
    pub fn empty() -> (r: ModifierSet)
        ensures
            r == (ModifierSet { alt: false, control: false, shift: false, super_key: false }),
            forall|m: Modifier| !r.has(m),
    {
        ModifierSet { alt: false, control: false, shift: false, super_key: false }
    }

    /// Whether `m` is in the set.
    pub fn contains(&self, m: Modifier) -> (r: bool)
        ensures
            r == self.has(m),
    {
        match m {
            Modifier::Alt => self.alt,
            Modifier::Control => self.control,
            Modifier::Shift => self.shift,
            Modifier::Super => self.super_key,
        }
    }

    /// Adds `m` to the set.
    pub fn insert(&mut self, m: Modifier)
        ensures
            *final(self) == old(self).with(m),
    {
        match m {
            Modifier::Alt => self.alt = true,
            Modifier::Control => self.control = true,
            Modifier::Shift => self.shift = true,
            Modifier::Super => self.super_key = true,
        }
    }
}

/// The position of a modifier set when the sets are ordered lexicographically by their members in
/// ascending order, which is how a `BTreeSet<Modifier>` orders: `[]`, `[Alt]`, `[Alt, Control]`,
/// `[Alt, Control, Shift]`, ..., `[Super]`.
pub open spec fn modifier_rank(m: ModifierSet) -> int {
    let r1 = if m.super_key { 1int } else { 0 };
    let r2 = if m.shift { 1 + r1 } else if !m.super_key { 0 } else { 2 + r1 };
    let rest2 = m.shift || m.super_key;
    let r3 = if m.control { 1 + r2 } else if !rest2 { 0 } else { 4 + r2 };
    let rest3 = m.control || rest2;
    if m.alt { 1 + r3 } else if !rest3 { 0 } else { 8 + r3 }
}

/// The sort key of a key: keys order by symbol first, then by modifier set, as the derived order
/// of a symbol and a `BTreeSet` of modifiers does.
pub open spec fn key_code(k: Key) -> int {
    k.symbol.0 * 16 + modifier_rank(k.modifiers)
}

/// Distinct modifier sets have distinct ranks, all between 0 and 15.
pub proof fn lemma_modifier_rank_injective(a: ModifierSet, b: ModifierSet)
    ensures
        0 <= modifier_rank(a) < 16,
        modifier_rank(a) == modifier_rank(b) <==> a == b,
{
}

/// Distinct keys have distinct sort keys.
pub proof fn lemma_key_code_injective(a: Key, b: Key)
    ensures
        key_code(a) == key_code(b) <==> a == b,
        0 <= key_code(a),
{
    lemma_modifier_rank_injective(a.modifiers, b.modifiers);
}

/// A key with no modifiers.
pub open spec fn plain_key(symbol: Symbol) -> Key {
    Key { symbol, modifiers: ModifierSet { alt: false, control: false, shift: false, super_key: false } }
}

/// A key as the user names it: a symbol with the modifiers held alongside it.
#[derive(Clone, Copy, Debug, PartialEq, Eq, Structural, PartialOrd, Ord, Hash)]
pub struct Key {
    pub symbol: Symbol,
    pub modifiers: ModifierSet,
}

/// How a key is rendered: each modifier's name followed by `+`, then the symbol.
pub open spec fn key_text(xkb: XkbNames, k: Key) -> Seq<char> {
    (if k.modifiers.alt { "Alt+"@ } else { Seq::empty() }) + (if k.modifiers.control {
        "Control+"@
    } else {
        Seq::empty()
    }) + (if k.modifiers.shift { "Shift+"@ } else { Seq::empty() }) + (if k.modifiers.super_key {
        "Super+"@
    } else {
        Seq::empty()
    }) + symbol_text(xkb, k.symbol)
}

impl Key {
    /// A key with the given symbol and no modifiers.
    pub fn new(symbol: Symbol) -> (k: Key)
        ensures
            k == plain_key(symbol),
    {
        Key { symbol, modifiers: ModifierSet::empty() }
    }

    /// Adds a modifier to the key.
    pub fn add_modifier(&mut self, modifier: Modifier)
        ensures
            final(self).symbol == old(self).symbol,
            final(self).modifiers == old(self).modifiers.with(modifier),
    {
        self.modifiers.insert(modifier);
    }

    /// The sort key of the key, see [`key_code`].
    pub fn code(&self) -> (c: u64)
        ensures
            c == key_code(*self),
    {
        let m = self.modifiers;
        let r1: u64 = if m.super_key { 1 } else { 0 };
        let r2: u64 = if m.shift { 1 + r1 } else if !m.super_key { 0 } else { 2 + r1 };
        let rest2 = m.shift || m.super_key;
        let r3: u64 = if m.control { 1 + r2 } else if !rest2 { 0 } else { 4 + r2 };
        let rest3 = m.control || rest2;
        let rank: u64 = if m.alt { 1 + r3 } else if !rest3 { 0 } else { 8 + r3 };
        (self.symbol.0 as u64) * 16 + rank
    }

    /// Renders the key as it is configured: the modifiers, then the symbol, joined with `+`.
    pub fn to_string(&self, xkb: &XkbNames) -> (r: String)
        ensures
            r@ == key_text(*xkb, *self),
    {
        let mut r = String::new();
        if self.modifiers.alt {
            string_push_str(&mut r, "Alt+");
        }
        if self.modifiers.control {
            string_push_str(&mut r, "Control+");
        }
        if self.modifiers.shift {
            string_push_str(&mut r, "Shift+");
        }
        if self.modifiers.super_key {
            string_push_str(&mut r, "Super+");
        }
        let s = self.symbol.to_string(xkb);
        string_push_str(&mut r, s.as_str());
        proof {
            assert(r@ =~= key_text(*xkb, *self));
        }
        r
    }
}

/// Why a key name could not be parsed.
#[derive(Clone, Debug, PartialEq, Eq)]
pub enum KeyParseError {
    /// The name is neither a single character nor an xkb keysym name.
    UnknownSymbol(String),
    /// The name is not one of the modifier names.
    UnknownModifier(String),
}

/// How a key parse error is reported: the quoted name and what it is not.
pub open spec fn key_parse_error_text(e: KeyParseError) -> Seq<char> {
    match e {
        KeyParseError::UnknownSymbol(name) => debug_text(name@) + " is not an xkb keysym name"@,
        KeyParseError::UnknownModifier(name) => debug_text(name@) + " is not a modifier name"@,
    }
}

impl KeyParseError {
    /// The error as it is reported.
    pub fn to_string(&self) -> (r: String)
        ensures
            r@ == key_parse_error_text(*self),
    {
        match self {
            KeyParseError::UnknownSymbol(name) => {
                let mut r = debug_str(name.as_str());
                string_push_str(&mut r, " is not an xkb keysym name");
                r
            },
            KeyParseError::UnknownModifier(name) => {
                let mut r = debug_str(name.as_str());
                string_push_str(&mut r, " is not a modifier name");
                r
            },
        }
    }
}

/// Each modifier's name followed by `+`, in the order given.
pub open spec fn modifiers_text(ms: Seq<Modifier>) -> Seq<char>
    decreases ms.len(),
{
    if ms.len() == 0 {
        Seq::empty()
    } else {
        modifier_name(ms[0]) + "+"@ + modifiers_text(ms.drop_first())
    }
}

/// The place of a modifier in the order keys are rendered in.
pub open spec fn modifier_position(m: Modifier) -> int {
    match m {
        Modifier::Alt => 0,
        Modifier::Control => 1,
        Modifier::Shift => 2,
        Modifier::Super => 3,
    }
}

/// A key renders as the name of each modifier it has, each followed by `+`, in the order Alt,
/// Control, Shift, Super, and then its symbol: `Alt+t` for `t` held with Alt. The modifiers so
/// named are exactly those of the key, each once.
pub proof fn lemma_key_text_names_its_modifiers(xkb: XkbNames, k: Key)
    ensures
        key_text(xkb, k) == modifiers_text(k.modifiers.members()) + symbol_text(xkb, k.symbol),
        forall|m: Modifier| k.modifiers.has(m) <==> k.modifiers.members().contains(m),
        forall|i: int, j: int|
            0 <= i < j < k.modifiers.members().len() ==> modifier_position(
                #[trigger] k.modifiers.members()[i],
            ) < modifier_position(#[trigger] k.modifiers.members()[j]),
{
    lemma_key_text_decomposes(xkb, k);
    lemma_members_are_the_set(k.modifiers);
    lemma_members_ascend(k.modifiers);
}

/// The members of a modifier set, as a sequence of four optional parts.
proof fn lemma_members_parts(s: ModifierSet)
    ensures
        s.members() == (if s.alt { seq![Modifier::Alt] } else { Seq::empty() }) + ((if s.control {
            seq![Modifier::Control]
        } else {
            Seq::empty()
        }) + ((if s.shift { seq![Modifier::Shift] } else { Seq::empty() }) + (if s.super_key {
            seq![Modifier::Super]
        } else {
            Seq::empty()
        }))),
{
    let a: Seq<Modifier> = if s.alt { seq![Modifier::Alt] } else { Seq::empty() };
    let c: Seq<Modifier> = if s.control { seq![Modifier::Control] } else { Seq::empty() };
    let sh: Seq<Modifier> = if s.shift { seq![Modifier::Shift] } else { Seq::empty() };
    let su: Seq<Modifier> = if s.super_key { seq![Modifier::Super] } else { Seq::empty() };
    assert(a + c + sh + su =~= a + (c + (sh + su)));
}

/// A key's text is its modifiers' text, then its symbol's.
proof fn lemma_key_text_decomposes(xkb: XkbNames, k: Key)
    ensures
        key_text(xkb, k) == modifiers_text(k.modifiers.members()) + symbol_text(xkb, k.symbol),
{
    let s = k.modifiers;
    let a: Seq<Modifier> = if s.alt { seq![Modifier::Alt] } else { Seq::empty() };
    let c: Seq<Modifier> = if s.control { seq![Modifier::Control] } else { Seq::empty() };
    let sh: Seq<Modifier> = if s.shift { seq![Modifier::Shift] } else { Seq::empty() };
    let su: Seq<Modifier> = if s.super_key { seq![Modifier::Super] } else { Seq::empty() };
    lemma_members_parts(s);
    lemma_modifiers_text_concat(a, c + (sh + su));
    lemma_modifiers_text_concat(c, sh + su);
    lemma_modifiers_text_concat(sh, su);
    lemma_modifier_spellings();
    lemma_part_text(Modifier::Alt, s.alt);
    lemma_part_text(Modifier::Control, s.control);
    lemma_part_text(Modifier::Shift, s.shift);
    lemma_part_text(Modifier::Super, s.super_key);
    assert(key_text(xkb, k) =~= modifiers_text(s.members()) + symbol_text(xkb, k.symbol));
}

/// The members of a modifier set are exactly the modifiers it has.
proof fn lemma_members_are_the_set(s: ModifierSet)
    ensures
        forall|m: Modifier| s.has(m) <==> s.members().contains(m),
{
    let ms = s.members();
    assert forall|m: Modifier| s.has(m) <==> ms.contains(m) by {
        if ms.contains(m) {
            let i = choose|i: int| 0 <= i < ms.len() && ms[i] == m;
        }
        if s.has(m) {
            match m {
                Modifier::Alt => assert(ms[0] == m),
                Modifier::Control => {
                    let p = if s.alt { 1int } else { 0 };
                    assert(ms[p] == m);
                },
                Modifier::Shift => {
                    let p = (if s.alt { 1int } else { 0 }) + (if s.control { 1int } else { 0 });
                    assert(ms[p] == m);
                },
                Modifier::Super => {
                    let p = (if s.alt { 1int } else { 0 }) + (if s.control { 1int } else { 0 }) + (
                    if s.shift { 1int } else { 0 });
                    assert(ms[p] == m);
                },
            }
        }
    }
}

/// The members of a modifier set come in ascending order.
proof fn lemma_members_ascend(s: ModifierSet)
    ensures
        forall|i: int, j: int|
            0 <= i < j < s.members().len() ==> modifier_position(#[trigger] s.members()[i])
                < modifier_position(#[trigger] s.members()[j]),
{
}

/// Each modifier's name followed by `+` is how a key spells it.
proof fn lemma_modifier_spellings()
    ensures
        modifier_name(Modifier::Alt) + "+"@ == "Alt+"@,
        modifier_name(Modifier::Control) + "+"@ == "Control+"@,
        modifier_name(Modifier::Shift) + "+"@ == "Shift+"@,
        modifier_name(Modifier::Super) + "+"@ == "Super+"@,
{
    reveal_strlit("+");
    reveal_strlit("Alt");
    reveal_strlit("Alt+");
    reveal_strlit("Control");
    reveal_strlit("Control+");
    reveal_strlit("Shift");
    reveal_strlit("Shift+");
    reveal_strlit("Super");
    reveal_strlit("Super+");
    assert("Alt"@ + "+"@ =~= "Alt+"@);
    assert("Control"@ + "+"@ =~= "Control+"@);
    assert("Shift"@ + "+"@ =~= "Shift+"@);
    assert("Super"@ + "+"@ =~= "Super+"@);
}

/// The text of one modifier, or of none.
proof fn lemma_part_text(m: Modifier, present: bool)
    ensures
        modifiers_text(if present { seq![m] } else { Seq::empty() }) == (if present {
            modifier_name(m) + "+"@
        } else {
            Seq::empty()
        }),
{
    if present {
        let one = seq![m];
        assert(one.drop_first() =~= Seq::<Modifier>::empty());
        assert(modifiers_text(one.drop_first()) == Seq::<char>::empty());
        assert(modifier_name(m) + "+"@ + Seq::<char>::empty() =~= modifier_name(m) + "+"@);
    }
}

/// The text of modifiers one after another is the text of each, one after the other.
proof fn lemma_modifiers_text_concat(a: Seq<Modifier>, b: Seq<Modifier>)
    ensures
        modifiers_text(a + b) == modifiers_text(a) + modifiers_text(b),
    decreases a.len(),
{
    if a.len() == 0 {
        assert(a + b =~= b);
        assert(Seq::<char>::empty() + modifiers_text(b) =~= modifiers_text(b));
    } else {
        lemma_modifiers_text_concat(a.drop_first(), b);
        assert((a + b).drop_first() =~= a.drop_first() + b);
        assert((a + b)[0] == a[0]);
        assert(modifier_name(a[0]) + "+"@ + (modifiers_text(a.drop_first()) + modifiers_text(b))
            =~= modifier_name(a[0]) + "+"@ + modifiers_text(a.drop_first()) + modifiers_text(b));
    }
}

} // verus!
