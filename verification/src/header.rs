//! The fixed 12-byte DNS header. Storage is the raw bytes; every field is
//! reached through a typed accessor whose contract is stated over spec-level
//! extractors on the byte sequence.
//!
//! Layout: ID (2 bytes), flags byte with QR/OPCODE/AA/TC/RD, flags byte with
//! RA/Z/AD/CD/RCODE, then QDCOUNT, ANCOUNT, NSCOUNT, ARCOUNT (2 bytes each,
//! network byte order).

use vstd::prelude::*;
use vstd::slice::{slice_subrange, slice_to_vec};

verus! {

/// Transaction ID: bytes 0 and 1.
pub open spec fn spec_id(s: Seq<u8>) -> u16 {
    ((s[0] as int) * 256 + (s[1] as int)) as u16
}

/// QR bit clear: the message is a query.
pub open spec fn spec_is_question(s: Seq<u8>) -> bool {
    s[2] & 0x80 == 0
}

/// The four OPCODE bits of the first flags byte.
pub open spec fn spec_opcode_bits(s: Seq<u8>) -> u8 {
    (s[2] & 0x78) >> 3
}

/// AA: authoritative answer.
pub open spec fn spec_aa(s: Seq<u8>) -> bool {
    s[2] & 0x04 == 0x04
}

/// TC: truncated.
pub open spec fn spec_tc(s: Seq<u8>) -> bool {
    s[2] & 0x02 == 0x02
}

/// RD: recursion desired.
pub open spec fn spec_rd(s: Seq<u8>) -> bool {
    s[2] & 0x01 == 0x01
}

/// RA: recursion available.
pub open spec fn spec_ra(s: Seq<u8>) -> bool {
    s[3] & 0x80 == 0x80
}

/// Z: the reserved bit.
pub open spec fn spec_z(s: Seq<u8>) -> bool {
    s[3] & 0x40 == 0x40
}

/// AD: authenticated data.
pub open spec fn spec_ad(s: Seq<u8>) -> bool {
    s[3] & 0x20 == 0x20
}

/// CD: checking disabled.
pub open spec fn spec_cd(s: Seq<u8>) -> bool {
    s[3] & 0x10 == 0x10
}

/// The four RCODE bits of the second flags byte.
pub open spec fn spec_rcode_bits(s: Seq<u8>) -> u8 {
    s[3] & 0x0F
}

/// QDCOUNT: bytes 4 and 5.
pub open spec fn spec_qdcount(s: Seq<u8>) -> u16 {
    ((s[4] as int) * 256 + (s[5] as int)) as u16
}

/// ANCOUNT: bytes 6 and 7.
pub open spec fn spec_ancount(s: Seq<u8>) -> u16 {
    ((s[6] as int) * 256 + (s[7] as int)) as u16
}

/// NSCOUNT: bytes 8 and 9.
pub open spec fn spec_nscount(s: Seq<u8>) -> u16 {
    ((s[8] as int) * 256 + (s[9] as int)) as u16
}

/// ARCOUNT: bytes 10 and 11.
pub open spec fn spec_arcount(s: Seq<u8>) -> u16 {
    ((s[10] as int) * 256 + (s[11] as int)) as u16
}

/// The fixed 12-byte DNS header.
#[derive(Debug)]
pub struct Header {
    content: Vec<u8>,
}

impl View for Header {
    type V = Seq<u8>;

    closed spec fn view(&self) -> Seq<u8> {
        self.content@
    }
}

#[verifier::type_invariant]
spec fn header_len_inv(h: Header) -> bool {
    h.content@.len() == 12
}

impl Clone for Header {
    fn clone(&self) -> (r: Self)
        ensures
            r@ == self@,
    {
        proof {
            use_type_invariant(&*self);
        }
        let c = self.content.clone();
        proof {
            assert forall|i: int| 0 <= i < self.content@.len() implies c@[i]
                == self.content@[i] by {
                assert(cloned::<u8>(self.content@[i], c@[i]));
            }
            assert(c@ =~= self.content@);
        }
        Header { content: c }
    }
}

impl Header {
    /// The wire length of a header.
    pub const LENGTH: u16 = 12;

    /// Reads a header from the first 12 bytes of `stream`.
    pub fn unserialize(stream: &[u8]) -> (r: Self)
        requires
            stream@.len() >= 12,
        ensures
            r@ == stream@.subrange(0, 12),
    {
        let content = slice_to_vec(slice_subrange(stream, 0, 12));
        Header { content }
    }

    /// The raw 12 bytes.
    pub fn serialize(self) -> (r: Vec<u8>)
        ensures
            r@ == self@,
            r@.len() == 12,
    {
        proof {
            use_type_invariant(&self);
        }
        self.content
    }

    /// Transaction ID.
    pub fn get_id(&self) -> (r: u16)
        ensures
            r == spec_id(self@),
    {
        proof {
            use_type_invariant(&*self);
        }
        (self.content[0] as u16) * 256 + (self.content[1] as u16)
    }

    /// Sets the transaction ID.
    pub fn set_id(&mut self, id: u16)
        ensures
            final(self)@ == old(self)@.update(0, (id / 256) as u8).update(1, (id % 256) as u8),
            spec_id(final(self)@) == id,
    {
        proof {
            use_type_invariant(&*self);
        }
        self.content[0] = (id / 256) as u8;
        self.content[1] = (id % 256) as u8;
    }

    /// Whether the QR bit marks this message as a query.
    pub fn is_question(&self) -> (r: bool)
        ensures
            r == spec_is_question(self@),
    {
        proof {
            use_type_invariant(&*self);
        }
        self.content[2] & 0x80 == 0
    }

    /// Sets or clears the QR bit; the other fields are unchanged.
    pub fn set_question(&mut self, is_question: bool)
        ensures
            final(self)@ == old(self)@.update(2, final(self)@[2]),
            spec_is_question(final(self)@) == is_question,
            spec_opcode_bits(final(self)@) == spec_opcode_bits(old(self)@),
            spec_aa(final(self)@) == spec_aa(old(self)@),
            spec_tc(final(self)@) == spec_tc(old(self)@),
            spec_rd(final(self)@) == spec_rd(old(self)@),
    {
        proof {
            use_type_invariant(&*self);
        }
        let b = self.content[2];
        let nb: u8 = if is_question {
            b & 0x7F
        } else {
            (b & 0x7F) | 0x80
        };
        self.content[2] = nb;
        proof {
            assert((b & 0x7F) & 0x80 == 0 && ((b & 0x7F) | 0x80) & 0x80 != 0 && ((b & 0x7F)
                & 0x78) >> 3 == (b & 0x78) >> 3 && (((b & 0x7F) | 0x80) & 0x78) >> 3 == (b & 0x78)
                >> 3 && (b & 0x7F) & 0x04 == b & 0x04 && ((b & 0x7F) | 0x80) & 0x04 == b & 0x04 && (
            b & 0x7F) & 0x02 == b & 0x02 && ((b & 0x7F) | 0x80) & 0x02 == b & 0x02 && (b & 0x7F)
                & 0x01 == b & 0x01 && ((b & 0x7F) | 0x80) & 0x01 == b & 0x01) by (bit_vector);
        }
    }

    /// The OPCODE field.
    pub fn get_opcode(&self) -> (r: OPCODE)
        ensures
            r == spec_opcode_from_u8(spec_opcode_bits(self@)),
            opcode_wf(r),
    {
        proof {
            use_type_invariant(&*self);
        }
        OPCODE::from_u8((self.content[2] & 0x78) >> 3)
    }

    /// Sets the OPCODE field; the other fields are unchanged.
    pub fn set_opcode(&mut self, opcode: OPCODE)
        requires
            spec_opcode_to_u8(opcode) < 16,
        ensures
            final(self)@ == old(self)@.update(2, final(self)@[2]),
            spec_opcode_bits(final(self)@) == spec_opcode_to_u8(opcode),
            spec_is_question(final(self)@) == spec_is_question(old(self)@),
            spec_aa(final(self)@) == spec_aa(old(self)@),
            spec_tc(final(self)@) == spec_tc(old(self)@),
            spec_rd(final(self)@) == spec_rd(old(self)@),
    {
        proof {
            use_type_invariant(&*self);
        }
        let b = self.content[2];
        let v = opcode.to_u8();
        let nb: u8 = (b & 0x87) | (v << 3u8);
        self.content[2] = nb;
        proof {
            assert((((b & 0x87) | (v << 3u8)) & 0x78) >> 3 == v && (((b & 0x87) | (v << 3u8))
                & 0x80) == (b & 0x80) && (((b & 0x87) | (v << 3u8)) & 0x04) == (b & 0x04) && (((b
                & 0x87) | (v << 3u8)) & 0x02) == (b & 0x02) && (((b & 0x87) | (v << 3u8)) & 0x01)
                == (b & 0x01)) by (bit_vector)
                requires
                    v < 16,
            ;
        }
    }

    /// AA: authoritative answer.
    pub fn is_authoritative_answer(&self) -> (r: bool)
        ensures
            r == spec_aa(self@),
    {
        proof {
            use_type_invariant(&*self);
        }
        self.content[2] & 0x04 == 0x04
    }

    /// Sets or clears the AA bit; the other fields are unchanged.
    pub fn set_authoritative_answer(&mut self, is_authoritative_answer: bool)
        ensures
            final(self)@ == old(self)@.update(2, final(self)@[2]),
            spec_aa(final(self)@) == is_authoritative_answer,
            spec_is_question(final(self)@) == spec_is_question(old(self)@),
            spec_opcode_bits(final(self)@) == spec_opcode_bits(old(self)@),
            spec_tc(final(self)@) == spec_tc(old(self)@),
            spec_rd(final(self)@) == spec_rd(old(self)@),
    {
        proof {
            use_type_invariant(&*self);
        }
        let b = self.content[2];
        let nb: u8 = if is_authoritative_answer {
            (b & 0xFB) | 0x04
        } else {
            b & 0xFB
        };
        self.content[2] = nb;
        proof {
            assert((b & 0xFB) & 0x04 == 0 && ((b & 0xFB) | 0x04) & 0x04 == 0x04 && (b & 0xFB)
                & 0x80 == b & 0x80 && ((b & 0xFB) | 0x04) & 0x80 == b & 0x80 && ((b & 0xFB) & 0x78)
                >> 3 == (b & 0x78) >> 3 && (((b & 0xFB) | 0x04) & 0x78) >> 3 == (b & 0x78) >> 3 && (
            b & 0xFB) & 0x02 == b & 0x02 && ((b & 0xFB) | 0x04) & 0x02 == b & 0x02 && (b & 0xFB)
                & 0x01 == b & 0x01 && ((b & 0xFB) | 0x04) & 0x01 == b & 0x01) by (bit_vector);
        }
    }

    /// TC: truncated.
    pub fn is_truncated(&self) -> (r: bool)
        ensures
            r == spec_tc(self@),
    {
        proof {
            use_type_invariant(&*self);
        }
        self.content[2] & 0x02 == 0x02
    }

    /// Sets or clears the TC bit; the other fields are unchanged.
    pub fn set_truncated(&mut self, is_truncated: bool)
        ensures
            final(self)@ == old(self)@.update(2, final(self)@[2]),
            spec_tc(final(self)@) == is_truncated,
            spec_is_question(final(self)@) == spec_is_question(old(self)@),
            spec_opcode_bits(final(self)@) == spec_opcode_bits(old(self)@),
            spec_aa(final(self)@) == spec_aa(old(self)@),
            spec_rd(final(self)@) == spec_rd(old(self)@),
    {
        proof {
            use_type_invariant(&*self);
        }
        let b = self.content[2];
        let nb: u8 = if is_truncated {
            (b & 0xFD) | 0x02
        } else {
            b & 0xFD
        };
        self.content[2] = nb;
        proof {
            assert((b & 0xFD) & 0x02 == 0 && ((b & 0xFD) | 0x02) & 0x02 == 0x02 && (b & 0xFD)
                & 0x80 == b & 0x80 && ((b & 0xFD) | 0x02) & 0x80 == b & 0x80 && ((b & 0xFD) & 0x78)
                >> 3 == (b & 0x78) >> 3 && (((b & 0xFD) | 0x02) & 0x78) >> 3 == (b & 0x78) >> 3 && (
            b & 0xFD) & 0x04 == b & 0x04 && ((b & 0xFD) | 0x02) & 0x04 == b & 0x04 && (b & 0xFD)
                & 0x01 == b & 0x01 && ((b & 0xFD) | 0x02) & 0x01 == b & 0x01) by (bit_vector);
        }
    }

    /// RD: recursion desired.
    pub fn is_recursion_desired(&self) -> (r: bool)
        ensures
            r == spec_rd(self@),
    {
        proof {
            use_type_invariant(&*self);
        }
        self.content[2] & 0x01 == 0x01
    }

    /// Sets or clears the RD bit; the other fields are unchanged.
    pub fn set_recursion_desired(&mut self, is_recursion_desired: bool)
        ensures
            final(self)@ == old(self)@.update(2, final(self)@[2]),
            spec_rd(final(self)@) == is_recursion_desired,
            spec_is_question(final(self)@) == spec_is_question(old(self)@),
            spec_opcode_bits(final(self)@) == spec_opcode_bits(old(self)@),
            spec_aa(final(self)@) == spec_aa(old(self)@),
            spec_tc(final(self)@) == spec_tc(old(self)@),
    {
        proof {
            use_type_invariant(&*self);
        }
        let b = self.content[2];
        let nb: u8 = if is_recursion_desired {
            (b & 0xFE) | 0x01
        } else {
            b & 0xFE
        };
        self.content[2] = nb;
        proof {
            assert((b & 0xFE) & 0x01 == 0 && ((b & 0xFE) | 0x01) & 0x01 == 0x01 && (b & 0xFE)
                & 0x80 == b & 0x80 && ((b & 0xFE) | 0x01) & 0x80 == b & 0x80 && ((b & 0xFE) & 0x78)
                >> 3 == (b & 0x78) >> 3 && (((b & 0xFE) | 0x01) & 0x78) >> 3 == (b & 0x78) >> 3 && (
            b & 0xFE) & 0x04 == b & 0x04 && ((b & 0xFE) | 0x01) & 0x04 == b & 0x04 && (b & 0xFE)
                & 0x02 == b & 0x02 && ((b & 0xFE) | 0x01) & 0x02 == b & 0x02) by (bit_vector);
        }
    }

    /// RA: recursion available.
    pub fn is_recursion_available(&self) -> (r: bool)
        ensures
            r == spec_ra(self@),
    {
        proof {
            use_type_invariant(&*self);
        }
        self.content[3] & 0x80 == 0x80
    }

    /// Sets or clears the RA bit; the other fields are unchanged.
    pub fn set_recursion_available(&mut self, is_recursion_available: bool)
        ensures
            final(self)@ == old(self)@.update(3, final(self)@[3]),
            spec_ra(final(self)@) == is_recursion_available,
            spec_z(final(self)@) == spec_z(old(self)@),
            spec_ad(final(self)@) == spec_ad(old(self)@),
            spec_cd(final(self)@) == spec_cd(old(self)@),
            spec_rcode_bits(final(self)@) == spec_rcode_bits(old(self)@),
    {
        proof {
            use_type_invariant(&*self);
        }
        let b = self.content[3];
        let nb: u8 = if is_recursion_available {
            (b & 0x7F) | 0x80
        } else {
            b & 0x7F
        };
        self.content[3] = nb;
        proof {
            assert((b & 0x7F) & 0x80 == 0 && ((b & 0x7F) | 0x80) & 0x80 == 0x80 && (b & 0x7F)
                & 0x40 == b & 0x40 && ((b & 0x7F) | 0x80) & 0x40 == b & 0x40 && (b & 0x7F) & 0x20
                == b & 0x20 && ((b & 0x7F) | 0x80) & 0x20 == b & 0x20 && (b & 0x7F) & 0x10 == b
                & 0x10 && ((b & 0x7F) | 0x80) & 0x10 == b & 0x10 && (b & 0x7F) & 0x0F == b & 0x0F
                && ((b & 0x7F) | 0x80) & 0x0F == b & 0x0F) by (bit_vector);
        }
    }

    /// AD: authenticated data.
    pub fn is_authenticated_data(&self) -> (r: bool)
        ensures
            r == spec_ad(self@),
    {
        proof {
            use_type_invariant(&*self);
        }
        self.content[3] & 0x20 == 0x20
    }

    /// Sets or clears the AD bit; the other fields are unchanged.
    pub fn set_authenticated_data(&mut self, is_authenticated_data: bool)
        ensures
            final(self)@ == old(self)@.update(3, final(self)@[3]),
            spec_ad(final(self)@) == is_authenticated_data,
            spec_ra(final(self)@) == spec_ra(old(self)@),
            spec_z(final(self)@) == spec_z(old(self)@),
            spec_cd(final(self)@) == spec_cd(old(self)@),
            spec_rcode_bits(final(self)@) == spec_rcode_bits(old(self)@),
    {
        proof {
            use_type_invariant(&*self);
        }
        let b = self.content[3];
        let nb: u8 = if is_authenticated_data {
            (b & 0xDF) | 0x20
        } else {
            b & 0xDF
        };
        self.content[3] = nb;
        proof {
            assert((b & 0xDF) & 0x20 == 0 && ((b & 0xDF) | 0x20) & 0x20 == 0x20 && (b & 0xDF)
                & 0x80 == b & 0x80 && ((b & 0xDF) | 0x20) & 0x80 == b & 0x80 && (b & 0xDF) & 0x40
                == b & 0x40 && ((b & 0xDF) | 0x20) & 0x40 == b & 0x40 && (b & 0xDF) & 0x10 == b
                & 0x10 && ((b & 0xDF) | 0x20) & 0x10 == b & 0x10 && (b & 0xDF) & 0x0F == b & 0x0F
                && ((b & 0xDF) | 0x20) & 0x0F == b & 0x0F) by (bit_vector);
        }
    }

    /// CD: checking disabled.
    pub fn is_checked_data(&self) -> (r: bool)
        ensures
            r == spec_cd(self@),
    {
        proof {
            use_type_invariant(&*self);
        }
        self.content[3] & 0x10 == 0x10
    }

    /// Sets or clears the CD bit; the other fields are unchanged.
    pub fn set_checked_data(&mut self, is_checked_data: bool)
        ensures
            final(self)@ == old(self)@.update(3, final(self)@[3]),
            spec_cd(final(self)@) == is_checked_data,
            spec_ra(final(self)@) == spec_ra(old(self)@),
            spec_z(final(self)@) == spec_z(old(self)@),
            spec_ad(final(self)@) == spec_ad(old(self)@),
            spec_rcode_bits(final(self)@) == spec_rcode_bits(old(self)@),
    {
        proof {
            use_type_invariant(&*self);
        }
        let b = self.content[3];
        let nb: u8 = if is_checked_data {
            (b & 0xEF) | 0x10
        } else {
            b & 0xEF
        };
        self.content[3] = nb;
        proof {
            assert((b & 0xEF) & 0x10 == 0 && ((b & 0xEF) | 0x10) & 0x10 == 0x10 && (b & 0xEF)
                & 0x80 == b & 0x80 && ((b & 0xEF) | 0x10) & 0x80 == b & 0x80 && (b & 0xEF) & 0x40
                == b & 0x40 && ((b & 0xEF) | 0x10) & 0x40 == b & 0x40 && (b & 0xEF) & 0x20 == b
                & 0x20 && ((b & 0xEF) | 0x10) & 0x20 == b & 0x20 && (b & 0xEF) & 0x0F == b & 0x0F
                && ((b & 0xEF) | 0x10) & 0x0F == b & 0x0F) by (bit_vector);
        }
    }

    /// The RCODE field.
    pub fn get_rcode(&self) -> (r: RCODE)
        ensures
            r == spec_rcode_from_u8(spec_rcode_bits(self@)),
            rcode_wf(r),
    {
        proof {
            use_type_invariant(&*self);
        }
        RCODE::from_u8(self.content[3] & 0x0F)
    }

    /// Sets the RCODE field; the other fields are unchanged.
    pub fn set_rcode(&mut self, rcode: RCODE)
        requires
            spec_rcode_to_u8(rcode) < 16,
        ensures
            final(self)@ == old(self)@.update(3, final(self)@[3]),
            spec_rcode_bits(final(self)@) == spec_rcode_to_u8(rcode),
            spec_ra(final(self)@) == spec_ra(old(self)@),
            spec_z(final(self)@) == spec_z(old(self)@),
            spec_ad(final(self)@) == spec_ad(old(self)@),
            spec_cd(final(self)@) == spec_cd(old(self)@),
    {
        proof {
            use_type_invariant(&*self);
        }
        let b = self.content[3];
        let v = rcode.to_u8();
        let nb: u8 = (b & 0xF0) | v;
        self.content[3] = nb;
        proof {
            assert(((b & 0xF0) | v) & 0x0F == v && ((b & 0xF0) | v) & 0x80 == b & 0x80 && ((b
                & 0xF0) | v) & 0x40 == b & 0x40 && ((b & 0xF0) | v) & 0x20 == b & 0x20 && ((b
                & 0xF0) | v) & 0x10 == b & 0x10) by (bit_vector)
                requires
                    v < 16,
            ;
        }
    }

    /// QDCOUNT.
    pub fn question_count(&self) -> (r: u16)
        ensures
            r == spec_qdcount(self@),
    {
        proof {
            use_type_invariant(&*self);
        }
        (self.content[4] as u16) * 256 + (self.content[5] as u16)
    }

    /// Sets QDCOUNT.
    pub fn set_question_count(&mut self, count: u16)
        ensures
            final(self)@ == old(self)@.update(4, (count / 256) as u8).update(
                5,
                (count % 256) as u8,
            ),
            spec_qdcount(final(self)@) == count,
    {
        proof {
            use_type_invariant(&*self);
        }
        self.content[4] = (count / 256) as u8;
        self.content[5] = (count % 256) as u8;
    }

    /// ANCOUNT.
    pub fn answer_count(&self) -> (r: u16)
        ensures
            r == spec_ancount(self@),
    {
        proof {
            use_type_invariant(&*self);
        }
        (self.content[6] as u16) * 256 + (self.content[7] as u16)
    }

    /// Sets ANCOUNT.
    pub fn set_answer_count(&mut self, count: u16)
        ensures
            final(self)@ == old(self)@.update(6, (count / 256) as u8).update(
                7,
                (count % 256) as u8,
            ),
            spec_ancount(final(self)@) == count,
    {
        proof {
            use_type_invariant(&*self);
        }
        self.content[6] = (count / 256) as u8;
        self.content[7] = (count % 256) as u8;
    }

    /// NSCOUNT.
    pub fn authority_count(&self) -> (r: u16)
        ensures
            r == spec_nscount(self@),
    {
        proof {
            use_type_invariant(&*self);
        }
        (self.content[8] as u16) * 256 + (self.content[9] as u16)
    }

    /// Sets NSCOUNT.
    pub fn set_authority_count(&mut self, count: u16)
        ensures
            final(self)@ == old(self)@.update(8, (count / 256) as u8).update(
                9,
                (count % 256) as u8,
            ),
            spec_nscount(final(self)@) == count,
    {
        proof {
            use_type_invariant(&*self);
        }
        self.content[8] = (count / 256) as u8;
        self.content[9] = (count % 256) as u8;
    }

    /// ARCOUNT.
    pub fn additional_count(&self) -> (r: u16)
        ensures
            r == spec_arcount(self@),
    {
        proof {
            use_type_invariant(&*self);
        }
        (self.content[10] as u16) * 256 + (self.content[11] as u16)
    }

    /// Sets ARCOUNT.
    pub fn set_additional_count(&mut self, count: u16)
        ensures
            final(self)@ == old(self)@.update(10, (count / 256) as u8).update(
                11,
                (count % 256) as u8,
            ),
            spec_arcount(final(self)@) == count,
    {
        proof {
            use_type_invariant(&*self);
        }
        self.content[10] = (count / 256) as u8;
        self.content[11] = (count % 256) as u8;
    }

    /// Z: the reserved bit.
    pub fn get_z(&self) -> (r: bool)
        ensures
            r == spec_z(self@),
    {
        proof {
            use_type_invariant(&*self);
        }
        self.content[3] & 0x40 == 0x40
    }

    /// A fresh query header with a random ID: QR clear, OPCODE query,
    /// RA set, QDCOUNT 1, everything else zero.
    pub fn new_question() -> (r: Self)
        ensures
            spec_is_question(r@),
            spec_opcode_bits(r@) == 0,
            !spec_aa(r@) && !spec_tc(r@) && !spec_rd(r@),
            spec_ra(r@) && !spec_z(r@) && !spec_ad(r@) && !spec_cd(r@),
            spec_rcode_bits(r@) == 0,
            spec_qdcount(r@) == 1,
            spec_ancount(r@) == 0 && spec_nscount(r@) == 0 && spec_arcount(r@) == 0,
            r@.len() == 12,
    {
        let r = Self::fresh_header(0x00);
        proof {
            assert(0x00u8 & 0x80 == 0 && (0x00u8 & 0x78) >> 3 == 0 && 0x00u8 & 0x04 == 0 && 0x00u8
                & 0x02 == 0 && 0x00u8 & 0x01 == 0 && 0x80u8 & 0x80 == 0x80 && 0x80u8 & 0x40 == 0
                && 0x80u8 & 0x20 == 0 && 0x80u8 & 0x10 == 0 && 0x80u8 & 0x0F == 0) by (bit_vector);
        }
        r
    }

    /// A fresh reply header with a random ID: QR set, OPCODE query,
    /// RA set, QDCOUNT 1, everything else zero.
    pub fn new_reply() -> (r: Self)
        ensures
            !spec_is_question(r@),
            spec_opcode_bits(r@) == 0,
            !spec_aa(r@) && !spec_tc(r@) && !spec_rd(r@),
            spec_ra(r@) && !spec_z(r@) && !spec_ad(r@) && !spec_cd(r@),
            spec_rcode_bits(r@) == 0,
            spec_qdcount(r@) == 1,
            spec_ancount(r@) == 0 && spec_nscount(r@) == 0 && spec_arcount(r@) == 0,
            r@.len() == 12,
    {
        let r = Self::fresh_header(0x80);
        proof {
            assert(0x80u8 & 0x80 == 0x80 && (0x80u8 & 0x78) >> 3 == 0 && 0x80u8 & 0x04 == 0
                && 0x80u8 & 0x02 == 0 && 0x80u8 & 0x01 == 0 && 0x80u8 & 0x40 == 0 && 0x80u8 & 0x20
                == 0 && 0x80u8 & 0x10 == 0 && 0x80u8 & 0x0F == 0) by (bit_vector);
        }
        r
    }

    /// Builds a header with the given first flags byte, RA set, QDCOUNT 1,
    /// and a random transaction ID.
    fn fresh_header(flags: u8) -> (r: Self)
        ensures
            r@.len() == 12,
            r@[2] == flags,
            r@[3] == 0x80,
            r@[4] == 0 && r@[5] == 1,
            r@[6] == 0 && r@[7] == 0 && r@[8] == 0 && r@[9] == 0 && r@[10] == 0 && r@[11] == 0,
    {
        let mut content: Vec<u8> = Vec::new();
        content.push(0);
        content.push(0);
        content.push(flags);
        content.push(0x80);
        content.push(0);
        content.push(1);
        content.push(0);
        content.push(0);
        content.push(0);
        content.push(0);
        content.push(0);
        content.push(0);
        let mut header = Header { content };
        header.set_id(random_u16());
        header
    }
}

/// A header's view is always exactly 12 bytes.
pub fn header_len_fact(h: &Header)
    ensures
        h@.len() == 12,
{
    proof {
        use_type_invariant(h);
    }
}

/// Relies on rand::random: a pseudo-random u16; nothing is promised of the
/// value.
#[verifier::external_body]
fn random_u16() -> u16 {
    rand::random()
}

/// The operation code of a message. Unknown values are carried as-is.
#[derive(Clone, Copy, Debug, PartialEq, Eq, Structural)]
#[allow(non_camel_case_types)]
pub enum OPCODE {
    /// A standard query.
    QUERY,
    /// An inverse query.
    IQUERY,
    /// A server status request.
    STATUS,
    /// A zone change notification.
    NOTIFY,
    /// A dynamic update.
    UPDATE,
    /// A DNS stateful operation.
    DSO,
    /// Any other value, carried as-is.
    NotImplemented(u8),
}

/// The numeric value of an OPCODE.
pub open spec fn spec_opcode_to_u8(o: OPCODE) -> u8 {
    match o {
        OPCODE::QUERY => 0,
        OPCODE::IQUERY => 1,
        OPCODE::STATUS => 2,
        OPCODE::NOTIFY => 4,
        OPCODE::UPDATE => 5,
        OPCODE::DSO => 6,
        OPCODE::NotImplemented(v) => v,
    }
}

/// The OPCODE a numeric value decodes to.
pub open spec fn spec_opcode_from_u8(value: u8) -> OPCODE {
    if value == 0 {
        OPCODE::QUERY
    } else if value == 1 {
        OPCODE::IQUERY
    } else if value == 2 {
        OPCODE::STATUS
    } else if value == 4 {
        OPCODE::NOTIFY
    } else if value == 5 {
        OPCODE::UPDATE
    } else if value == 6 {
        OPCODE::DSO
    } else {
        OPCODE::NotImplemented(value)
    }
}

/// An OPCODE is canonical when its catch-all variant holds no known value.
pub open spec fn opcode_wf(o: OPCODE) -> bool {
    match o {
        OPCODE::NotImplemented(v) => v != 0 && v != 1 && v != 2 && v != 4 && v != 5 && v != 6,
        _ => true,
    }
}

impl OPCODE {
    /// Decodes a numeric OPCODE value.
    pub fn from_u8(value: u8) -> (r: OPCODE)
        ensures
            r == spec_opcode_from_u8(value),
            opcode_wf(r),
    {
        match value {
            0 => OPCODE::QUERY,
            1 => OPCODE::IQUERY,
            2 => OPCODE::STATUS,
            4 => OPCODE::NOTIFY,
            5 => OPCODE::UPDATE,
            6 => OPCODE::DSO,
            _ => OPCODE::NotImplemented(value),
        }
    }

    /// Encodes this OPCODE as its numeric value.
    pub fn to_u8(&self) -> (r: u8)
        ensures
            r == spec_opcode_to_u8(*self),
    {
        match self {
            OPCODE::QUERY => 0,
            OPCODE::IQUERY => 1,
            OPCODE::STATUS => 2,
            OPCODE::NOTIFY => 4,
            OPCODE::UPDATE => 5,
            OPCODE::DSO => 6,
            OPCODE::NotImplemented(v) => *v,
        }
    }
}

/// Every numeric OPCODE value survives a decode-encode round trip, and every
/// canonical OPCODE survives an encode-decode round trip.
pub proof fn lemma_opcode_round_trip(value: u8, o: OPCODE)
    requires
        opcode_wf(o),
    ensures
        spec_opcode_to_u8(spec_opcode_from_u8(value)) == value,
        spec_opcode_from_u8(spec_opcode_to_u8(o)) == o,
{
}

/// The response code of a reply. Unknown values are carried as-is.
#[derive(Clone, Copy, Debug, PartialEq, Eq, Structural)]
#[allow(non_camel_case_types)]
pub enum RCODE {
    /// No error.
    NoError,
    /// The request was malformed.
    FormError,
    /// The server failed.
    ServFail,
    /// The domain does not exist.
    NXDomain,
    /// The operation is not implemented by the server.
    NotImp,
    /// The server refused the request.
    Refused,
    /// Any other value, carried as-is.
    NotImplemented(u8),
}

/// The numeric value of an RCODE.
pub open spec fn spec_rcode_to_u8(r: RCODE) -> u8 {
    match r {
        RCODE::NoError => 0,
        RCODE::FormError => 1,
        RCODE::ServFail => 2,
        RCODE::NXDomain => 3,
        RCODE::NotImp => 4,
        RCODE::Refused => 5,
        RCODE::NotImplemented(v) => v,
    }
}

/// The RCODE a numeric value decodes to.
pub open spec fn spec_rcode_from_u8(value: u8) -> RCODE {
    if value == 0 {
        RCODE::NoError
    } else if value == 1 {
        RCODE::FormError
    } else if value == 2 {
        RCODE::ServFail
    } else if value == 3 {
        RCODE::NXDomain
    } else if value == 4 {
        RCODE::NotImp
    } else if value == 5 {
        RCODE::Refused
    } else {
        RCODE::NotImplemented(value)
    }
}

/// An RCODE is canonical when its catch-all variant holds no known value.
pub open spec fn rcode_wf(r: RCODE) -> bool {
    match r {
        RCODE::NotImplemented(v) => v > 5,
        _ => true,
    }
}

impl RCODE {
    /// Decodes a numeric RCODE value.
    pub fn from_u8(value: u8) -> (r: RCODE)
        ensures
            r == spec_rcode_from_u8(value),
            rcode_wf(r),
    {
        match value {
            0 => RCODE::NoError,
            1 => RCODE::FormError,
            2 => RCODE::ServFail,
            3 => RCODE::NXDomain,
            4 => RCODE::NotImp,
            5 => RCODE::Refused,
            _ => RCODE::NotImplemented(value),
        }
    }

    /// Encodes this RCODE as its numeric value.
    pub fn to_u8(&self) -> (r: u8)
        ensures
            r == spec_rcode_to_u8(*self),
    {
        match self {
            RCODE::NoError => 0,
            RCODE::FormError => 1,
            RCODE::ServFail => 2,
            RCODE::NXDomain => 3,
            RCODE::NotImp => 4,
            RCODE::Refused => 5,
            RCODE::NotImplemented(v) => *v,
        }
    }
}

/// Every numeric RCODE value survives a decode-encode round trip, and every
/// canonical RCODE survives an encode-decode round trip.
pub proof fn lemma_rcode_round_trip(value: u8, r: RCODE)
    requires
        rcode_wf(r),
    ensures
        spec_rcode_to_u8(spec_rcode_from_u8(value)) == value,
        spec_rcode_from_u8(spec_rcode_to_u8(r)) == r,
{
}

} // verus!
