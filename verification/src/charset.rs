//! Sets of characters that label the transitions of the command matcher.
//!
//! ASCII characters are kept in two 64-bit masks; every other character is
//! either in the set or not as a whole, which is all the command grammar needs.

use vstd::prelude::*;

verus! {

/// Two characters with the same code point are the same character.
proof fn lemma_code_point_injective(c: char, d: char)
    ensures
        (c as u32 == d as u32) ==> c == d,
{
    vstd::utf8::char_u32_cast(c, c as u32);
    vstd::utf8::char_u32_cast(d, d as u32);
}

/// Whether `c` is an ASCII character (code point below 128).
pub open spec fn is_ascii_char(c: char) -> bool {
    (c as u32) < 128
}

/// Whether bit `k` of `m` is set.
pub open spec fn bit_set(m: u64, k: u64) -> bool {
    m & (1u64 << k) != 0
}

/// A set of characters.
#[derive(Clone, Copy, PartialEq, Eq, Structural)]
pub struct CharacterSet {
    low_mask: u64,
    high_mask: u64,
    any: bool,
}

impl CharacterSet {
    /// Whether `c` belongs to the set.
    pub closed spec fn has(self, c: char) -> bool {
        let v = c as u32;
        if v < 64 {
            bit_set(self.low_mask, v as u64)
        } else if v < 128 {
            bit_set(self.high_mask, (v - 64) as u64)
        } else {
            self.any
        }
    }

    /// The empty set.
    pub fn new() -> (r: Self)
        ensures
            forall|c: char| !#[trigger] r.has(c),
    {
        let r = CharacterSet { low_mask: 0, high_mask: 0, any: false };
        assert forall|c: char| !#[trigger] r.has(c) by {
            let v = c as u32;
            if v < 64 {
                let k = v as u64;
                assert(0u64 & (1u64 << k) == 0) by (bit_vector);
            } else if v < 128 {
                let k = (v - 64) as u64;
                assert(0u64 & (1u64 << k) == 0) by (bit_vector);
            }
        }
        r
    }

    /// The set of all characters.
    pub fn any() -> (r: Self)
        ensures
            forall|c: char| #[trigger] r.has(c),
    {
        let r = CharacterSet { low_mask: u64::MAX, high_mask: u64::MAX, any: true };
        assert forall|c: char| #[trigger] r.has(c) by {
            let v = c as u32;
            if v < 64 {
                let k = v as u64;
                assert(k < 64 ==> 0xffff_ffff_ffff_ffffu64 & (1u64 << k) != 0) by (bit_vector);
            } else if v < 128 {
                let k = (v - 64) as u64;
                assert(k < 64 ==> 0xffff_ffff_ffff_ffffu64 & (1u64 << k) != 0) by (bit_vector);
            }
        }
        r
    }

    /// Adds the ASCII character `ch` to the set.
    pub fn insert(&mut self, ch: char)
        requires
            is_ascii_char(ch),
        ensures
            forall|c: char| #[trigger] final(self).has(c) == (old(self).has(c) || c == ch),
    {
        let v = ch as u32;
        let ghost old_self = *self;
        if v < 64 {
            let k = v as u64;
            let old_mask = self.low_mask;
            self.low_mask = old_mask | (1u64 << k);
            let new_mask = self.low_mask;
            assert forall|c: char| #[trigger] self.has(c) == (old_self.has(c) || c == ch) by {
                let w = c as u32;
                if w < 64 {
                    let j = w as u64;
                    assert(j < 64 && k < 64 && new_mask == old_mask | (1u64 << k) ==> (new_mask & (1u64 << j) != 0) == (old_mask & (1u64 << j) != 0 || j == k)) by (bit_vector);
                    lemma_code_point_injective(c, ch);
                }
            }
        } else {
            let k = (v - 64) as u64;
            let old_mask = self.high_mask;
            self.high_mask = old_mask | (1u64 << k);
            let new_mask = self.high_mask;
            assert forall|c: char| #[trigger] self.has(c) == (old_self.has(c) || c == ch) by {
                let w = c as u32;
                if 64 <= w < 128 {
                    let j = (w - 64) as u64;
                    assert(j < 64 && k < 64 && new_mask == old_mask | (1u64 << k) ==> (new_mask & (1u64 << j) != 0) == (old_mask & (1u64 << j) != 0 || j == k)) by (bit_vector);
                    lemma_code_point_injective(c, ch);
                }
            }
        }
    }

    /// Removes the ASCII character `ch` from the set.
    pub fn remove_char(&mut self, ch: char)
        requires
            is_ascii_char(ch),
        ensures
            forall|c: char| #[trigger] final(self).has(c) == (old(self).has(c) && c != ch),
    {
        let v = ch as u32;
        let ghost old_self = *self;
        if v < 64 {
            let k = v as u64;
            let old_mask = self.low_mask;
            self.low_mask = old_mask & !(1u64 << k);
            let new_mask = self.low_mask;
            assert forall|c: char| #[trigger] self.has(c) == (old_self.has(c) && c != ch) by {
                let w = c as u32;
                if w < 64 {
                    let j = w as u64;
                    assert(j < 64 && k < 64 && new_mask == old_mask & !(1u64 << k) ==> (new_mask & (1u64 << j) != 0) == (old_mask & (1u64 << j) != 0 && j != k)) by (bit_vector);
                    lemma_code_point_injective(c, ch);
                }
            }
        } else {
            let k = (v - 64) as u64;
            let old_mask = self.high_mask;
            self.high_mask = old_mask & !(1u64 << k);
            let new_mask = self.high_mask;
            assert forall|c: char| #[trigger] self.has(c) == (old_self.has(c) && c != ch) by {
                let w = c as u32;
                if 64 <= w < 128 {
                    let j = (w - 64) as u64;
                    assert(j < 64 && k < 64 && new_mask == old_mask & !(1u64 << k) ==> (new_mask & (1u64 << j) != 0) == (old_mask & (1u64 << j) != 0 && j != k)) by (bit_vector);
                    lemma_code_point_injective(c, ch);
                }
            }
        }
    }

    /// Removes every character of `chars` from the set.
    pub fn remove(&mut self, chars: &[char])
        requires
            forall|i: int| 0 <= i < chars@.len() ==> is_ascii_char(#[trigger] chars@[i]),
        ensures
            forall|c: char| #[trigger] final(self).has(c) == (old(self).has(c) && !chars@.contains(c)),
    {
        let ghost old_self = *self;
        let mut i: usize = 0;
        while i < chars.len()
            invariant
                0 <= i <= chars@.len(),
                forall|j: int| 0 <= j < chars@.len() ==> is_ascii_char(#[trigger] chars@[j]),
                forall|c: char| #[trigger] self.has(c) == (old_self.has(c) && !chars@.take(i as int).contains(c)),
            decreases chars@.len() - i,
        {
            let ch = chars[i];
            self.remove_char(ch);
            proof {
                assert(chars@.take(i + 1) =~= chars@.take(i as int).push(ch));
                assert forall|c: char| #[trigger] self.has(c) == (old_self.has(c) && !chars@.take(i + 1).contains(c)) by {
                    if chars@.take(i as int).contains(c) {
                        let j = choose|j: int| 0 <= j < i && #[trigger] chars@.take(i as int)[j] == c;
                        assert(chars@.take(i + 1)[j] == c);
                    }
                    if c == ch {
                        assert(chars@.take(i + 1)[i as int] == c);
                    }
                    if chars@.take(i + 1).contains(c) && c != ch {
                        let j = choose|j: int| 0 <= j < i + 1 && #[trigger] chars@.take(i + 1)[j] == c;
                        assert(chars@.take(i as int)[j] == c);
                    }
                }
            }
            i = i + 1;
        }
        proof {
            assert(chars@.take(chars@.len() as int) =~= chars@);
        }
    }

    /// The set holding exactly the ASCII character `ch`.
    pub fn from_char(ch: char) -> (r: Self)
        requires
            is_ascii_char(ch),
        ensures
            forall|c: char| #[trigger] r.has(c) == (c == ch),
    {
        let mut r = CharacterSet::new();
        r.insert(ch);
        r
    }

    /// The set holding exactly the ASCII characters of `chars`.
    pub fn from_chars(chars: &[char]) -> (r: Self)
        requires
            forall|i: int| 0 <= i < chars@.len() ==> is_ascii_char(#[trigger] chars@[i]),
        ensures
            forall|c: char| #[trigger] r.has(c) == chars@.contains(c),
    {
        let mut r = CharacterSet::new();
        let mut i: usize = 0;
        while i < chars.len()
            invariant
                0 <= i <= chars@.len(),
                forall|j: int| 0 <= j < chars@.len() ==> is_ascii_char(#[trigger] chars@[j]),
                forall|c: char| #[trigger] r.has(c) == chars@.take(i as int).contains(c),
            decreases chars@.len() - i,
        {
            let ch = chars[i];
            r.insert(ch);
            proof {
                assert forall|c: char| #[trigger] r.has(c) == chars@.take(i + 1).contains(c) by {
                    if chars@.take(i as int).contains(c) {
                        let j = choose|j: int| 0 <= j < i && #[trigger] chars@.take(i as int)[j] == c;
                        assert(chars@.take(i + 1)[j] == c);
                    }
                    if c == ch {
                        assert(chars@.take(i + 1)[i as int] == c);
                    }
                    if chars@.take(i + 1).contains(c) && c != ch {
                        let j = choose|j: int| 0 <= j < i + 1 && #[trigger] chars@.take(i + 1)[j] == c;
                        assert(chars@.take(i as int)[j] == c);
                    }
                }
            }
            i = i + 1;
        }
        proof {
            assert(chars@.take(chars@.len() as int) =~= chars@);
        }
        r
    }

    /// Whether `ch` belongs to the set.
    pub fn contains(&self, ch: char) -> (r: bool)
        ensures
            r == self.has(ch),
    {
        let v = ch as u32;
        if v < 64 {
            let k = v as u64;
            self.low_mask & (1u64 << k) != 0
        } else if v < 128 {
            let k = (v - 64) as u64;
            self.high_mask & (1u64 << k) != 0
        } else {
            self.any
        }
    }
}

} // verus!
