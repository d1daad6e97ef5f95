//! The packed transposition record.
//!
//! A record packs a search result into 16 bits: bits 0..6 hold the score
//! magnitude, bit 6 the score sign, bits 7..14 the depth searched, and
//! bits 14..16 the bound flag (01 encodes a lower bound, 10 an upper
//! bound, 00 an exact score).

use vstd::prelude::*;

verus! {

/// The score bits of a record: six magnitude bits and a sign bit.
pub open spec fn score_bits(score: i8) -> u16 {
    if score < 0 {
        (((-score) as u16) | 0x40)
    } else {
        score as u16
    }
}

/// The flag bits of a record, already shifted into bits 14..16.
pub open spec fn flag_bits(flag: i8) -> u16 {
    if flag == -1 {
        0x4000
    } else if flag == 1 {
        0x8000
    } else {
        0
    }
}

/// The packed form of a `(depth, score, flag)` triple.
pub open spec fn encode_record(depth: u8, score: i8, flag: i8) -> u16 {
    (flag_bits(flag) | ((depth as u16) << 7)) | score_bits(score)
}

/// The depth stored in packed data.
pub open spec fn decode_depth(data: u16) -> u8 {
    ((data >> 7) & 0x7f) as u8
}

/// The score stored in packed data, as a mathematical integer.
pub open spec fn decode_score(data: u16) -> int {
    if data & 0x40 != 0 {
        -((data & 0x3f) as int)
    } else {
        (data & 0x3f) as int
    }
}

/// The bound flag stored in packed data: -1 lower bound, 1 upper bound, 0 exact.
pub open spec fn decode_flag(data: u16) -> int {
    if (data >> 14) & 0x3 == 1 {
        -1
    } else if (data >> 14) & 0x3 == 2 {
        1
    } else {
        0
    }
}

/// Packing then unpacking a triple in range returns the identical triple.
pub proof fn lemma_record_round_trip(depth: u8, score: i8, flag: i8)
    requires
        depth < 128,
        -63 <= score <= 63,
        flag == -1 || flag == 0 || flag == 1,
    ensures
        decode_depth(encode_record(depth, score, flag)) == depth,
        decode_score(encode_record(depth, score, flag)) == score as int,
        decode_flag(encode_record(depth, score, flag)) == flag as int,
{
    assert(decode_depth(encode_record(depth, score, flag)) == depth
        && decode_score(encode_record(depth, score, flag)) == score as int
        && decode_flag(encode_record(depth, score, flag)) == flag as int) by (bit_vector)
        requires
            depth < 128,
            -63 <= score <= 63,
            flag == -1 || flag == 0 || flag == 1,
    ;
}

/// One transposition-table record, bit-packed into 16 bits.
#[derive(Clone)]
pub struct TTEntry {
    data: u16,
}

impl TTEntry {
    /// The packed bits of this record.
    pub closed spec fn raw(&self) -> u16 {
        self.data
    }

    /// The record value that packs a given triple: what `new` returns.
    pub closed spec fn spec_record(depth: u8, score: i8, flag: i8) -> TTEntry {
        TTEntry { data: encode_record(depth, score, flag) }
    }

    /// The packed bits of `spec_record` are exactly the encoded triple.
    pub proof fn lemma_spec_record_raw(depth: u8, score: i8, flag: i8)
        ensures
            Self::spec_record(depth, score, flag).raw() == encode_record(depth, score, flag),
    {
    }

    pub fn new(depth: u8, score: i8, flag: i8) -> (entry: Self)
        requires
            depth < 128,
            -63 <= score <= 63,
            flag == -1 || flag == 0 || flag == 1,
        ensures
            entry == Self::spec_record(depth, score, flag),
            entry.raw() == encode_record(depth, score, flag),
            decode_depth(entry.raw()) == depth,
            decode_score(entry.raw()) == score as int,
            decode_flag(entry.raw()) == flag as int,
    {
        let mut entry = Self { data: 0u16 };
        entry.set_flag(flag);
        entry.set_depth(depth);
        entry.set_score(score);
        proof {
            assert((((((0u16 & 0x3fff) | flag_bits(flag)) & !(0x7fu16 << 7)) | ((depth as u16)
                << 7)) & 0xff80) | score_bits(score) == encode_record(depth, score, flag))
                by (bit_vector)
                requires
                    depth < 128,
                    -63 <= score <= 63,
                    flag == -1 || flag == 0 || flag == 1,
            ;
            lemma_record_round_trip(depth, score, flag);
        }
        entry
    }

    pub fn score(&self) -> (score: i8)
        ensures
            score as int == decode_score(self.raw()),
            -63 <= score <= 63,
    {
        let raw: u16 = self.data & 0x7f;
        let magnitude: i8 = (raw & 0x3f) as i8;
        let sign_bit: bool = (raw & 0x40) != 0;
        proof {
            let d = self.data;
            assert((d & 0x7f) & 0x3f == d & 0x3f && (d & 0x7f) & 0x40 == d & 0x40
                && d & 0x3f < 64) by (bit_vector);
        }
        if sign_bit {
            -magnitude
        } else {
            magnitude
        }
    }

    pub fn flag(&self) -> (flag: i8)
        ensures
            flag as int == decode_flag(self.raw()),
            flag == -1 || flag == 0 || flag == 1,
    {
        let bits: u16 = (self.data >> 14) & 0x3;
        if bits == 1 {
            -1
        } else if bits == 2 {
            1
        } else {
            0
        }
    }

    pub fn depth(&self) -> (depth: u8)
        ensures
            depth == decode_depth(self.raw()),
            depth < 128,
    {
        proof {
            let d = self.data;
            assert((d >> 7) & 0x7f < 128) by (bit_vector);
        }
        ((self.data >> 7) & 0x7f) as u8
    }

    fn set_depth(&mut self, depth: u8)
        requires
            depth < 128,
        ensures
            final(self).raw() == (old(self).raw() & !(0x7fu16 << 7)) | ((depth as u16) << 7),
    {
        self.data = (self.data & !(0x7fu16 << 7)) | ((depth as u16) << 7);
    }

    fn set_score(&mut self, score: i8)
        requires
            -63 <= score <= 63,
        ensures
            final(self).raw() == (old(self).raw() & 0xff80) | score_bits(score),
    {
        let s: u16 = if score < 0 {
            ((-score) as u16) | 0x40
        } else {
            score as u16
        };
        self.data = (self.data & 0xff80) | s;
    }

    fn set_flag(&mut self, flag: i8)
        requires
            flag == -1 || flag == 0 || flag == 1,
        ensures
            final(self).raw() == (old(self).raw() & 0x3fff) | flag_bits(flag),
    {
        self.data = self.data & 0x3fff;
        if flag == -1 {
            self.data = self.data | 0x4000;
        } else if flag == 1 {
            self.data = self.data | 0x8000;
        }
        proof {
            let d: u16 = self.data;
            assert(d | 0 == d) by (bit_vector);
        }
    }
}

} // verus!
