//! A question: QNAME, QTYPE and QCLASS. Value equality over all three
//! fields makes it the cache key.

use vstd::prelude::*;

use crate::compression::{lemma_wf_parse_grow, LabelTree};
use crate::enums::{spec_class_from_u16, spec_type_from_u16, CLASS, TYPE};
use crate::name::{
    lemma_parse_extend, name_enc_len, spec_parse_name, valid_name, Name, POINTER_BUDGET,
};
use crate::DecodeError;

verus! {

/// The mathematical content of a question.
pub ghost struct QuestionView {
    pub qname: Seq<Seq<u8>>,
    pub qtype: u16,
    pub qclass: u16,
}

/// Parses a question at offset `i`: a name followed by the two 16-bit
/// type and class fields.
pub open spec fn spec_parse_question(s: Seq<u8>, i: int) -> Option<(QuestionView, int)> {
    match spec_parse_name(s, i) {
        Some((qname, o)) => {
            if o + 4 <= s.len() {
                Some(
                    (
                        QuestionView {
                            qname,
                            qtype: ((s[o] as int) * 256 + (s[o + 1] as int)) as u16,
                            qclass: ((s[o + 2] as int) * 256 + (s[o + 3] as int)) as u16,
                        },
                        o + 4,
                    ),
                )
            } else {
                None
            }
        },
        None => None,
    }
}

/// QNAME, QTYPE and QCLASS.
#[derive(Debug)]
pub struct Question {
    pub qname: Name,
    pub qtype: u16,
    pub qclass: u16,
}

impl View for Question {
    type V = QuestionView;

    open spec fn view(&self) -> QuestionView {
        QuestionView { qname: self.qname@, qtype: self.qtype, qclass: self.qclass }
    }
}

impl Clone for Question {
    fn clone(&self) -> (r: Self)
        ensures
            r@ == self@,
    {
        Question { qname: self.qname.clone(), qtype: self.qtype, qclass: self.qclass }
    }
}

impl PartialEq for Question {
    fn eq(&self, other: &Self) -> (r: bool)
        ensures
            r == (self@ == other@),
    {
        self.qname == other.qname && self.qtype == other.qtype && self.qclass == other.qclass
    }
}

impl Eq for Question {

}

impl vstd::std_specs::cmp::PartialEqSpecImpl for Question {
    open spec fn obeys_eq_spec() -> bool {
        true
    }

    open spec fn eq_spec(&self, other: &Self) -> bool {
        self@ == other@
    }
}

impl Question {
    /// Reads a question from `stream` at `offset`.
    pub fn unserialize(stream: &[u8], offset: usize) -> (r: Result<
        (Question, usize),
        DecodeError,
    >)
        ensures
            match r {
                Ok((q, end)) => {
                    &&& spec_parse_question(stream@, offset as int) == Some((q@, end as int))
                    &&& valid_name(q.qname@)
                    &&& offset < end <= stream@.len()
                },
                Err(_) => spec_parse_question(stream@, offset as int) is None,
            },
    {
        let (qname, o) = match Name::unserialize(stream, offset) {
            Ok(p) => p,
            Err(e) => {
                return Err(e);
            },
        };
        if stream.len() - o < 4 {
            return Err(DecodeError::Truncated);
        }
        let qtype = (stream[o] as u16) * 256 + (stream[o + 1] as u16);
        let qclass = (stream[o + 2] as u16) * 256 + (stream[o + 3] as u16);
        Ok((Question { qname, qtype, qclass }, o + 4))
    }

    /// Appends this question's wire form to `bytes`, sharing the message's
    /// compression table.
    pub fn serialize(&self, bytes: &mut Vec<u8>, lt: &mut LabelTree)
        requires
            valid_name(self.qname@),
            old(lt).wf(),
            old(lt).buf@ == old(bytes)@,
        ensures
            final(lt).wf(),
            final(lt).buf@ == final(bytes)@,
            final(bytes)@.len() > old(bytes)@.len(),
            final(bytes)@.subrange(0, old(bytes)@.len() as int) == old(bytes)@,
            spec_parse_question(final(bytes)@, old(bytes)@.len() as int) == Some(
                (self@, final(bytes)@.len() as int),
            ),
            final(bytes)@.len() <= old(bytes)@.len() + name_enc_len(self.qname@) + 5,
    {
        let ghost old_bytes = bytes@;
        self.qname.serialize(bytes, lt);
        let ghost mid_bytes = bytes@;
        bytes.push((self.qtype / 256) as u8);
        bytes.push((self.qtype % 256) as u8);
        bytes.push((self.qclass / 256) as u8);
        bytes.push((self.qclass % 256) as u8);
        lt.buf = Ghost(bytes@);
        proof {
            let s = bytes@;
            assert(s.subrange(0, mid_bytes.len() as int) =~= mid_bytes);
            assert(s.subrange(0, old_bytes.len() as int) =~= old_bytes);
            lemma_wf_parse_grow(lt.elements@, mid_bytes, s);
            let ext = s.subrange(mid_bytes.len() as int, s.len() as int);
            assert(s =~= mid_bytes + ext);
            lemma_parse_extend(mid_bytes, ext, old_bytes.len() as int, POINTER_BUDGET as nat, 0);
            let o = mid_bytes.len() as int;
            assert(spec_parse_name(s, old_bytes.len() as int) == Some((self.qname@, o)));
            assert((s[o] as int) * 256 + (s[o + 1] as int) == self.qtype);
            assert((s[o + 2] as int) * 256 + (s[o + 3] as int) == self.qclass);
        }
    }

    /// The question's TYPE.
    pub fn get_type(&self) -> (r: TYPE)
        ensures
            r == spec_type_from_u16(self.qtype),
    {
        TYPE::from_u16(self.qtype)
    }

    /// The question's CLASS.
    pub fn get_class(&self) -> (r: CLASS)
        ensures
            r == spec_class_from_u16(self.qclass),
    {
        CLASS::from_u16(self.qclass)
    }
}

/// A parsed question is unchanged when the stream is extended.
pub proof fn lemma_parse_question_extend(s: Seq<u8>, t: Seq<u8>, i: int)
    requires
        spec_parse_question(s, i) is Some,
    ensures
        spec_parse_question(s + t, i) == spec_parse_question(s, i),
{
    let st = s + t;
    lemma_parse_extend(s, t, i, POINTER_BUDGET as nat, 0);
    crate::name::lemma_parse_bounds(s, i, POINTER_BUDGET as nat, 0);
    let o = spec_parse_name(s, i)->Some_0.1;
    assert(0 < o && o + 4 <= s.len());
    assert(st[o] == s[o]);
    assert(st[o + 1] == s[o + 1]);
    assert(st[o + 2] == s[o + 2]);
    assert(st[o + 3] == s[o + 3]);
}

} // verus!
