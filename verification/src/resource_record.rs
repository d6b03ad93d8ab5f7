//! A resource record: NAME, TYPE, CLASS, TTL and RDATA. The TTL is the one
//! field mutated after construction — the cache decays it on read. RDATA is
//! carried verbatim; the codec never rewrites names embedded in it.

use vstd::prelude::*;
use vstd::slice::{slice_subrange, slice_to_vec};

use crate::compression::{lemma_wf_parse_grow, LabelTree};
use crate::enums::{spec_class_from_u16, spec_type_from_u16, CLASS, TYPE};
use crate::name::{
    lemma_parse_bounds, lemma_parse_extend, name_enc_len, spec_parse_name, valid_name, Name,
    POINTER_BUDGET,
};
use crate::question::{Question, QuestionView};
use crate::DecodeError;

verus! {

/// The mathematical content of a resource record.
pub ghost struct RecordView {
    pub name: Seq<Seq<u8>>,
    pub rtype: u16,
    pub rclass: u16,
    pub ttl: u32,
    pub rdata: Seq<u8>,
}

impl RecordView {
    /// The question this record answers.
    pub open spec fn question(self) -> QuestionView {
        QuestionView { qname: self.name, qtype: self.rtype, qclass: self.rclass }
    }
}

/// Parses a resource record at offset `i`: a name, then TYPE, CLASS, TTL and
/// RDLENGTH, then RDLENGTH bytes of RDATA.
pub open spec fn spec_parse_rr(s: Seq<u8>, i: int) -> Option<(RecordView, int)> {
    match spec_parse_name(s, i) {
        Some((name, o)) => {
            if o + 10 <= s.len() {
                let rdlength = (s[o + 8] as int) * 256 + (s[o + 9] as int);
                if o + 10 + rdlength <= s.len() {
                    Some(
                        (
                            RecordView {
                                name,
                                rtype: ((s[o] as int) * 256 + (s[o + 1] as int)) as u16,
                                rclass: ((s[o + 2] as int) * 256 + (s[o + 3] as int)) as u16,
                                ttl: ((s[o + 4] as int) * 16777216 + (s[o + 5] as int) * 65536 + (
                                s[o + 6] as int) * 256 + (s[o + 7] as int)) as u32,
                                rdata: s.subrange(o + 10, o + 10 + rdlength),
                            },
                            o + 10 + rdlength,
                        ),
                    )
                } else {
                    None
                }
            } else {
                None
            }
        },
        None => None,
    }
}

/// NAME, TYPE, CLASS, TTL and RDATA.
#[derive(Debug)]
pub struct ResourceRecord {
    pub name: Name,
    pub rtype: u16,
    pub rclass: u16,
    pub ttl: u32,
    pub rdata: Vec<u8>,
}

impl View for ResourceRecord {
    type V = RecordView;

    open spec fn view(&self) -> RecordView {
        RecordView {
            name: self.name@,
            rtype: self.rtype,
            rclass: self.rclass,
            ttl: self.ttl,
            rdata: self.rdata@,
        }
    }
}

impl Clone for ResourceRecord {
    fn clone(&self) -> (r: Self)
        ensures
            r@ == self@,
    {
        let r = ResourceRecord {
            name: self.name.clone(),
            rtype: self.rtype,
            rclass: self.rclass,
            ttl: self.ttl,
            rdata: slice_to_vec(self.rdata.as_slice()),
        };
        r
    }
}

impl PartialEq for ResourceRecord {
    fn eq(&self, other: &Self) -> (r: bool)
        ensures
            r == (self@ == other@),
    {
        let fields = self.name == other.name && self.rtype == other.rtype && self.rclass
            == other.rclass && self.ttl == other.ttl;
        if !fields {
            return false;
        }
        let r = self.rdata == other.rdata;
        proof {
            if r {
                assert(self.rdata@ =~= other.rdata@);
            }
        }
        r
    }
}

impl Eq for ResourceRecord {

}

impl vstd::std_specs::cmp::PartialEqSpecImpl for ResourceRecord {
    open spec fn obeys_eq_spec() -> bool {
        true
    }

    open spec fn eq_spec(&self, other: &Self) -> bool {
        self@ == other@
    }
}

impl ResourceRecord {
    /// Reads a resource record from `stream` at `offset`.
    pub fn unserialize(stream: &[u8], offset: usize) -> (r: Result<
        (ResourceRecord, usize),
        DecodeError,
    >)
        ensures
            match r {
                Ok((rr, end)) => {
                    &&& spec_parse_rr(stream@, offset as int) == Some((rr@, end as int))
                    &&& valid_name(rr.name@)
                    &&& rr.rdata@.len() <= 65535
                    &&& offset < end <= stream@.len()
                },
                Err(_) => spec_parse_rr(stream@, offset as int) is None,
            },
    {
        let (name, o) = match Name::unserialize(stream, offset) {
            Ok(p) => p,
            Err(e) => {
                return Err(e);
            },
        };
        if stream.len() - o < 10 {
            return Err(DecodeError::Truncated);
        }
        let rtype = (stream[o] as u16) * 256 + (stream[o + 1] as u16);
        let rclass = (stream[o + 2] as u16) * 256 + (stream[o + 3] as u16);
        let ttl = (stream[o + 4] as u32) * 16777216 + (stream[o + 5] as u32) * 65536 + (stream[o
            + 6] as u32) * 256 + (stream[o + 7] as u32);
        let rdlength = (stream[o + 8] as usize) * 256 + (stream[o + 9] as usize);
        if rdlength > stream.len() - o - 10 {
            return Err(DecodeError::Truncated);
        }
        let rdata = slice_to_vec(slice_subrange(stream, o + 10, o + 10 + rdlength));
        Ok((ResourceRecord { name, rtype, rclass, ttl, rdata }, o + 10 + rdlength))
    }

    /// The record's TYPE.
    pub fn get_type(&self) -> (r: TYPE)
        ensures
            r == spec_type_from_u16(self.rtype),
    {
        TYPE::from_u16(self.rtype)
    }

    /// The record's CLASS.
    pub fn get_class(&self) -> (r: CLASS)
        ensures
            r == spec_class_from_u16(self.rclass),
    {
        CLASS::from_u16(self.rclass)
    }

    /// The remaining time to live, in seconds.
    pub fn get_ttl(&self) -> (r: u32)
        ensures
            r == self.ttl,
    {
        self.ttl
    }

    /// Replaces the time to live; every other field is unchanged.
    pub fn set_ttl(&mut self, ttl: u32)
        ensures
            final(self)@ == (RecordView { ttl, ..old(self)@ }),
    {
        self.ttl = ttl;
    }

    /// The number of RDATA bytes.
    pub fn get_rdata_length(&self) -> (r: usize)
        ensures
            r == self.rdata@.len(),
    {
        self.rdata.len()
    }

    /// The RDATA bytes.
    pub fn get_rdata(&self) -> (r: &Vec<u8>)
        ensures
            r@ == self.rdata@,
    {
        &self.rdata
    }

    /// Appends this record's wire form to `bytes`, sharing the message's
    /// compression table. RDATA is emitted verbatim.
    #[verifier::rlimit(100)]
    pub fn serialize(&self, bytes: &mut Vec<u8>, lt: &mut LabelTree)
        requires
            valid_name(self.name@),
            self.rdata@.len() <= 65535,
            old(lt).wf(),
            old(lt).buf@ == old(bytes)@,
        ensures
            final(lt).wf(),
            final(lt).buf@ == final(bytes)@,
            final(bytes)@.len() > old(bytes)@.len(),
            final(bytes)@.subrange(0, old(bytes)@.len() as int) == old(bytes)@,
            spec_parse_rr(final(bytes)@, old(bytes)@.len() as int) == Some(
                (self@, final(bytes)@.len() as int),
            ),
            final(bytes)@.len() <= old(bytes)@.len() + name_enc_len(self.name@) + 11
                + self.rdata@.len(),
    {
        let ghost old_bytes = bytes@;
        self.name.serialize(bytes, lt);
        let ghost mid_bytes = bytes@;
        bytes.push((self.rtype / 256) as u8);
        bytes.push((self.rtype % 256) as u8);
        bytes.push((self.rclass / 256) as u8);
        bytes.push((self.rclass % 256) as u8);
        bytes.push((self.ttl / 16777216) as u8);
        bytes.push(((self.ttl / 65536) % 256) as u8);
        bytes.push(((self.ttl / 256) % 256) as u8);
        bytes.push((self.ttl % 256) as u8);
        let rdlength = self.rdata.len();
        bytes.push((rdlength / 256) as u8);
        bytes.push((rdlength % 256) as u8);
        bytes.extend_from_slice(self.rdata.as_slice());
        lt.buf = Ghost(bytes@);
        proof {
            let s = bytes@;
            let o = mid_bytes.len() as int;
            assert(s.subrange(0, mid_bytes.len() as int) =~= mid_bytes);
            assert(s.subrange(0, old_bytes.len() as int) =~= old_bytes);
            lemma_wf_parse_grow(lt.elements@, mid_bytes, s);
            let ext = s.subrange(mid_bytes.len() as int, s.len() as int);
            assert(s =~= mid_bytes + ext);
            lemma_parse_extend(mid_bytes, ext, old_bytes.len() as int, POINTER_BUDGET as nat, 0);
            assert(spec_parse_name(s, old_bytes.len() as int) == Some((self.name@, o)));
            assert((s[o] as int) * 256 + (s[o + 1] as int) == self.rtype);
            assert((s[o + 2] as int) * 256 + (s[o + 3] as int) == self.rclass);
            assert((s[o + 4] as int) * 16777216 + (s[o + 5] as int) * 65536 + (s[o + 6] as int)
                * 256 + (s[o + 7] as int) == self.ttl);
            assert((s[o + 8] as int) * 256 + (s[o + 9] as int) == self.rdata@.len());
            assert(s.subrange(o + 10, o + 10 + self.rdata@.len()) =~= self.rdata@);
        }
    }

    /// The question this record answers.
    pub fn get_question(&self) -> (r: Question)
        ensures
            r@ == self@.question(),
    {
        Question { qname: self.name.clone(), qtype: self.rtype, qclass: self.rclass }
    }
}

/// A parsed record is unchanged when the stream is extended.
pub proof fn lemma_parse_rr_extend(s: Seq<u8>, t: Seq<u8>, i: int)
    requires
        spec_parse_rr(s, i) is Some,
    ensures
        spec_parse_rr(s + t, i) == spec_parse_rr(s, i),
{
    let st = s + t;
    lemma_parse_extend(s, t, i, POINTER_BUDGET as nat, 0);
    lemma_parse_bounds(s, i, POINTER_BUDGET as nat, 0);
    let o = spec_parse_name(s, i)->Some_0.1;
    let rdlength = (s[o + 8] as int) * 256 + (s[o + 9] as int);
    assert(0 < o && o + 10 + rdlength <= s.len());
    assert(forall|j: int| 0 <= j < s.len() ==> #[trigger] st[j] == s[j]);
    assert(st.subrange(o + 10, o + 10 + rdlength) =~= s.subrange(o + 10, o + 10 + rdlength));
}

} // verus!
