//! The floats that a document speaks of: which number a text writes, and which
//! text a number is written as. Both are plain values that a caller fills in.

use std::collections::HashMap;
use vstd::hash_map::StringHashMap;
use vstd::prelude::*;

verus! {

/// Decimal texts with the bits of the numbers they write, and bits with the
/// texts that they are shown as.
pub struct FloatTable {
    bits: StringHashMap<u64>,
    texts: HashMap<u64, String>,
}

/// The mathematical reading of a [`FloatTable`].
#[verifier::ext_equal]
pub struct Floats {
    pub bits: Map<Seq<char>, u64>,
    pub texts: Map<u64, Seq<char>>,
}

impl View for FloatTable {
    type V = Floats;

    closed spec fn view(&self) -> Floats {
        Floats { bits: self.bits@, texts: self.texts@.map_values(|s: String| s@) }
    }
}

impl FloatTable {
    /// Knows no floats.
    pub fn new() -> (t: Self)
        ensures
            t@ == (Floats { bits: Map::empty(), texts: Map::empty() }),
    {
        let t = Self { bits: StringHashMap::new(), texts: HashMap::new() };
        assert(t@.texts == Map::<u64, Seq<char>>::empty());
        t
    }

    /// Notes that `text` writes the number with these bits.
    pub fn set_bits(&mut self, text: String, bits: u64)
        ensures
            final(self)@ == (Floats { bits: old(self)@.bits.insert(text@, bits), ..old(self)@ }),
    {
        self.bits.insert(text, bits);
    }

    /// Notes that the number with these bits is shown as `text`.
    pub fn set_text(&mut self, bits: u64, text: String)
        ensures
            final(self)@ == (Floats { texts: old(self)@.texts.insert(bits, text@), ..old(self)@ }),
    {
        broadcast use vstd::std_specs::hash::group_hash_axioms;

        self.texts.insert(bits, text);
        assert(self@.texts == old(self)@.texts.insert(bits, text@));
    }

    /// The bits of the number that `text` writes, if they are known.
    pub fn bits_of(&self, text: &str) -> (b: Option<u64>)
        ensures
            match b {
                Some(b) => self@.bits.contains_key(text@) && self@.bits[text@] == b,
                None => !self@.bits.contains_key(text@),
            },
    {
        match self.bits.get(text) {
            Some(b) => Some(*b),
            None => None,
        }
    }

    /// The text that a number is shown as, if it is known.
    pub fn text_of(&self, bits: u64) -> (t: Option<&String>)
        ensures
            match t {
                Some(t) => self@.texts.contains_key(bits) && self@.texts[bits] == t@,
                None => !self@.texts.contains_key(bits),
            },
    {
        broadcast use vstd::std_specs::hash::group_hash_axioms;

        self.texts.get(&bits)
    }
}

} // verus!
