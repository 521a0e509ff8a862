//! The deterministic background pattern for unclaimed land.
use vstd::prelude::*;
use crate::pos::Pos;

verus! {

/// The background generator's whole state: one integer seed.
#[derive(Debug, Hash, PartialEq, Eq, Structural, Clone, Copy)]
pub struct Background(pub i64);

/// One round of the fixed integer mixing function: multiply, add, keep
/// the low 32 bits.
pub open spec fn mix(num: i64) -> i64 {
    vstd::wrapping::i64_specs::wrapping_add(
        vstd::wrapping::i64_specs::wrapping_mul(num, 104399),
        617,
    ) & 0xffffffff
}

fn hash(num: i64) -> (r: i64)
    ensures
        r == mix(num),
{
    num.wrapping_mul(104399).wrapping_add(617) & 0xffffffff
}

/// The seed the next rebuild uses, derived from this one.
pub open spec fn next_seed(seed: i64) -> i64 {
    vstd::wrapping::i64_specs::wrapping_add(
        vstd::wrapping::i64_specs::wrapping_mul(seed, 211),
        53,
    ) & 0xffffffff
}

/// The index into the decorative character list for a seed and a
/// character-grid position.
pub open spec fn bg_index(seed: i64, p: Pos) -> int {
    ((mix(mix(mix(seed) ^ p.x) ^ p.y) >> 8) % 128) as int
}

/// The decorative character for an index: one of a small fixed set for the
/// first few indices, a space for all others.
pub open spec fn bg_char(h: int) -> char {
    if h == 0 || h == 1 {
        '\''
    } else if h == 2 || h == 3 {
        ','
    } else if h == 4 || h == 5 {
        '.'
    } else if h == 6 || h == 7 {
        '`'
    } else if h == 8 {
        '"'
    } else {
        ' '
    }
}

/// The background character at a character-grid position, a pure function
/// of the seed and the position.
pub open spec fn char_at_spec(seed: i64, p: Pos) -> char {
    bg_char(bg_index(seed, p))
}

impl Background {
    /// Advances the seed for the next rebuild.
    pub fn next(&self) -> (r: Self)
        ensures
            r.0 == next_seed(self.0),
    {
        Background(self.0.wrapping_mul(211).wrapping_add(53) & 0xffffffff)
    }

    /// The decorative character for this seed at an absolute
    /// character-grid position.
    pub fn char_at(&self, pos: Pos) -> (c: char)
        ensures
            c == char_at_spec(self.0, pos),
    {
        let v: i64 = hash(hash(hash(self.0) ^ pos.x) ^ pos.y);
        proof {
            let m = mix(mix(mix(self.0) ^ pos.x) ^ pos.y);
            assert(m == v);
            assert forall|a: i64| #[trigger] (a & 0xffffffff) >= 0 && (a & 0xffffffff)
                <= 0xffffffff by {
                assert(a & 0xffffffff >= 0 && a & 0xffffffff <= 0xffffffff) by (bit_vector);
            }
            assert(v >= 0);
        }
        let shifted: i64 = v >> 8u64;
        proof {
            assert(v >= 0 ==> (v >> 8u64) >= 0 && (v >> 8u64) <= v) by (bit_vector);
        }
        let h: i64 = shifted % 128;
        if h == 0 || h == 1 {
            '\''
        } else if h == 2 || h == 3 {
            ','
        } else if h == 4 || h == 5 {
            '.'
        } else if h == 6 || h == 7 {
            '`'
        } else if h == 8 {
            '"'
        } else {
            ' '
        }
    }
}

} // verus!
