//! A complete DNS message: the fixed header, then the questions, answers,
//! authorities and additionals it declares. Decoding reads exactly the
//! declared counts and tolerates trailing bytes; encoding emits the
//! sections in order, all names sharing one compression table.

use vstd::prelude::*;

use crate::compression::LabelTree;
use crate::header::{spec_ancount, spec_arcount, spec_nscount, spec_qdcount, Header};
use crate::name::valid_name;
use crate::question::{
    lemma_parse_question_extend, spec_parse_question, Question, QuestionView,
};
use crate::resource_record::{
    lemma_parse_rr_extend, spec_parse_rr, RecordView, ResourceRecord,
};
use crate::DecodeError;

verus! {

/// The mathematical content of a datagram.
pub ghost struct DatagramView {
    pub header: Seq<u8>,
    pub questions: Seq<QuestionView>,
    pub answers: Seq<RecordView>,
    pub authorities: Seq<RecordView>,
    pub additionals: Seq<RecordView>,
}

/// The views of a list of questions.
pub open spec fn qviews(qs: Seq<Question>) -> Seq<QuestionView> {
    Seq::new(qs.len(), |i: int| qs[i]@)
}

/// The views of a list of records.
pub open spec fn rviews(rs: Seq<ResourceRecord>) -> Seq<RecordView> {
    Seq::new(rs.len(), |i: int| rs[i]@)
}

/// Parses `count` questions in sequence starting at `i`.
pub open spec fn spec_parse_questions(s: Seq<u8>, i: int, count: int) -> Option<
    (Seq<QuestionView>, int),
>
    decreases count,
{
    if count <= 0 {
        Some((Seq::empty(), i))
    } else {
        match spec_parse_question(s, i) {
            Some((q, o)) => match spec_parse_questions(s, o, count - 1) {
                Some((qs, e)) => Some((seq![q] + qs, e)),
                None => None,
            },
            None => None,
        }
    }
}

/// Parses `count` resource records in sequence starting at `i`.
pub open spec fn spec_parse_rrs(s: Seq<u8>, i: int, count: int) -> Option<(Seq<RecordView>, int)>
    decreases count,
{
    if count <= 0 {
        Some((Seq::empty(), i))
    } else {
        match spec_parse_rr(s, i) {
            Some((rr, o)) => match spec_parse_rrs(s, o, count - 1) {
                Some((rs, e)) => Some((seq![rr] + rs, e)),
                None => None,
            },
            None => None,
        }
    }
}

/// Parses a whole datagram: the header, then exactly the declared counts of
/// questions, answers, authorities and additionals. Trailing bytes are
/// tolerated.
pub open spec fn spec_parse_datagram(s: Seq<u8>) -> Option<DatagramView> {
    if s.len() < 12 {
        None
    } else {
        let hv = s.subrange(0, 12);
        match spec_parse_questions(s, 12, spec_qdcount(hv) as int) {
            Some((qs, o1)) => match spec_parse_rrs(s, o1, spec_ancount(hv) as int) {
                Some((ans, o2)) => match spec_parse_rrs(s, o2, spec_nscount(hv) as int) {
                    Some((auth, o3)) => match spec_parse_rrs(s, o3, spec_arcount(hv) as int) {
                        Some((add, _)) => Some(
                            DatagramView {
                                header: hv,
                                questions: qs,
                                answers: ans,
                                authorities: auth,
                                additionals: add,
                            },
                        ),
                        None => None,
                    },
                    None => None,
                },
                None => None,
            },
            None => None,
        }
    }
}

/// Header plus the four record sections.
#[derive(Debug)]
pub struct Datagram {
    pub header: Header,
    pub questions: Vec<Question>,
    pub answers: Vec<ResourceRecord>,
    pub authorities: Vec<ResourceRecord>,
    pub additionals: Vec<ResourceRecord>,
}

impl View for Datagram {
    type V = DatagramView;

    open spec fn view(&self) -> DatagramView {
        DatagramView {
            header: self.header@,
            questions: qviews(self.questions@),
            answers: rviews(self.answers@),
            authorities: rviews(self.authorities@),
            additionals: rviews(self.additionals@),
        }
    }
}

/// Every question of a list is encodable.
pub open spec fn questions_wf(qs: Seq<QuestionView>) -> bool {
    forall|i: int| 0 <= i < qs.len() ==> valid_name(#[trigger] qs[i].qname)
}

/// Every record of a list is encodable.
pub open spec fn records_wf(rs: Seq<RecordView>) -> bool {
    forall|i: int|
        0 <= i < rs.len() ==> valid_name(#[trigger] rs[i].name) && rs[i].rdata.len() <= 65535
}

impl Datagram {
    /// The section lengths match the header counts and every name and RDATA
    /// is encodable.
    pub open spec fn wf(self) -> bool {
        &&& spec_qdcount(self@.header) == self@.questions.len()
        &&& spec_ancount(self@.header) == self@.answers.len()
        &&& spec_nscount(self@.header) == self@.authorities.len()
        &&& spec_arcount(self@.header) == self@.additionals.len()
        &&& questions_wf(self@.questions)
        &&& records_wf(self@.answers)
        &&& records_wf(self@.authorities)
        &&& records_wf(self@.additionals)
    }

    /// Decodes a datagram from `stream`.
    pub fn unserialize(stream: &[u8]) -> (r: Result<Datagram, DecodeError>)
        ensures
            match r {
                Ok(d) => spec_parse_datagram(stream@) == Some(d@) && d.wf(),
                Err(_) => spec_parse_datagram(stream@) is None,
            },
    {
        if stream.len() < 12 {
            return Err(DecodeError::Truncated);
        }
        let header = Header::unserialize(stream);
        let (questions, o1) = match parse_questions(stream, 12, header.question_count()) {
            Ok(p) => p,
            Err(e) => {
                return Err(e);
            },
        };
        let (answers, o2) = match parse_records(stream, o1, header.answer_count()) {
            Ok(p) => p,
            Err(e) => {
                return Err(e);
            },
        };
        let (authorities, o3) = match parse_records(stream, o2, header.authority_count()) {
            Ok(p) => p,
            Err(e) => {
                return Err(e);
            },
        };
        let (additionals, _) = match parse_records(stream, o3, header.additional_count()) {
            Ok(p) => p,
            Err(e) => {
                return Err(e);
            },
        };
        let d = Datagram { header, questions, answers, authorities, additionals };
        Ok(d)
    }

    /// Encodes this datagram: the header, then each section in order, all
    /// names sharing one compression table. Decoding the result yields this
    /// datagram back.
    #[verifier::rlimit(100)]
    pub fn serialize(self) -> (r: Vec<u8>)
        requires
            self.wf(),
        ensures
            spec_parse_datagram(r@) == Some(self@),
            r@.len() >= 12,
    {
        let ghost dv = self@;
        let Datagram { header, questions, answers, authorities, additionals } = self;
        let mut bytes = header.serialize();
        let mut lt = LabelTree::default();
        lt.buf = Ghost(bytes@);
        proof {
            assert(lt.wf());
            assert(bytes@.subrange(0, 12) =~= bytes@);
            assert(spec_parse_questions(bytes@, 12, 0) == Some(
                (Seq::<QuestionView>::empty(), 12int),
            ));
            assert(qviews(questions@.take(0)) =~= Seq::<QuestionView>::empty());
        }
        let mut i: usize = 0;
        while i < questions.len()
            invariant
                i <= questions@.len(),
                questions_wf(qviews(questions@)),
                lt.wf(),
                lt.buf@ == bytes@,
                bytes@.len() >= 12,
                bytes@.subrange(0, 12) == dv.header,
                spec_parse_questions(bytes@, 12, i as int) == Some(
                    (qviews(questions@.take(i as int)), bytes@.len() as int),
                ),
            decreases questions@.len() - i,
        {
            let ghost pre = bytes@;
            proof {
                assert(valid_name(qviews(questions@)[i as int].qname));
                assert(qviews(questions@)[i as int] == questions@[i as int]@);
            }
            questions[i].serialize(&mut bytes, &mut lt);
            i = i + 1;
            proof {
                let s = bytes@;
                let ext = s.subrange(pre.len() as int, s.len() as int);
                assert(s =~= pre + ext);
                assert(s.subrange(0, 12) =~= pre.subrange(0, 12));
                lemma_parse_questions_extend(pre, ext, 12, i - 1);
                lemma_parse_questions_snoc(s, 12, i - 1);
                assert(qviews(questions@.take(i as int)) =~= qviews(
                    questions@.take(i - 1),
                ).push(questions@[i - 1]@));
            }
        }
        proof {
            assert(questions@.take(questions@.len() as int) =~= questions@);
        }
        let ghost s1 = bytes@;
        let ghost nq = questions@.len() as int;
        serialize_records(&mut bytes, &mut lt, &answers);
        let ghost s2 = bytes@;
        proof {
            let ext = s2.subrange(s1.len() as int, s2.len() as int);
            assert(s2 =~= s1 + ext);
            lemma_parse_questions_extend(s1, ext, 12, nq);
            assert(s2.subrange(0, 12) =~= s1.subrange(0, 12));
        }
        serialize_records(&mut bytes, &mut lt, &authorities);
        let ghost s3 = bytes@;
        proof {
            let ext = s3.subrange(s2.len() as int, s3.len() as int);
            assert(s3 =~= s2 + ext);
            lemma_parse_questions_extend(s2, ext, 12, nq);
            lemma_parse_rrs_extend(s2, ext, s1.len() as int, answers@.len() as int);
            assert(s3.subrange(0, 12) =~= s2.subrange(0, 12));
        }
        serialize_records(&mut bytes, &mut lt, &additionals);
        let ghost s4 = bytes@;
        proof {
            let ext = s4.subrange(s3.len() as int, s4.len() as int);
            assert(s4 =~= s3 + ext);
            lemma_parse_questions_extend(s3, ext, 12, nq);
            lemma_parse_rrs_extend(s3, ext, s1.len() as int, answers@.len() as int);
            lemma_parse_rrs_extend(s3, ext, s2.len() as int, authorities@.len() as int);
            assert(s4.subrange(0, 12) =~= s3.subrange(0, 12));
            assert(s4.subrange(0, 12) == dv.header);
            assert(spec_qdcount(dv.header) as int == nq);
            assert(spec_parse_questions(s4, 12, nq) == Some((dv.questions, s1.len() as int)));
            assert(spec_parse_rrs(s4, s1.len() as int, dv.answers.len() as int) == Some(
                (dv.answers, s2.len() as int),
            ));
            assert(spec_parse_rrs(s4, s2.len() as int, dv.authorities.len() as int) == Some(
                (dv.authorities, s3.len() as int),
            ));
            assert(spec_parse_rrs(s4, s3.len() as int, dv.additionals.len() as int) == Some(
                (dv.additionals, s4.len() as int),
            ));
            assert(spec_parse_datagram(s4) == Some(dv));
        }
        bytes
    }
}

/// Reads `count` questions in sequence from `stream` at `offset`.
fn parse_questions(stream: &[u8], offset: usize, count: u16) -> (r: Result<
    (Vec<Question>, usize),
    DecodeError,
>)
    requires
        offset <= stream@.len(),
    ensures
        match r {
            Ok((qs, end)) => {
                &&& spec_parse_questions(stream@, offset as int, count as int) == Some(
                    (qviews(qs@), end as int),
                )
                &&& qs@.len() == count
                &&& questions_wf(qviews(qs@))
                &&& offset <= end <= stream@.len()
            },
            Err(_) => spec_parse_questions(stream@, offset as int, count as int) is None,
        },
{
    let mut qs: Vec<Question> = Vec::new();
    let mut o = offset;
    let mut i: u16 = 0;
    proof {
        assert(qviews(qs@) =~= Seq::<QuestionView>::empty());
    }
    while i < count
        invariant
            i <= count,
            qs@.len() == i,
            offset <= o <= stream@.len(),
            questions_wf(qviews(qs@)),
            ({
                match spec_parse_questions(stream@, o as int, count - i) {
                    Some((rest, e)) => spec_parse_questions(stream@, offset as int, count as int)
                        == Some((qviews(qs@) + rest, e)),
                    None => spec_parse_questions(stream@, offset as int, count as int) is None,
                }
            }),
        decreases count - i,
    {
        match Question::unserialize(stream, o) {
            Ok((q, o2)) => {
                let ghost qs0 = qs@;
                let ghost qv = q@;
                qs.push(q);
                proof {
                    assert(qviews(qs@) =~= qviews(qs0).push(qv));
                    assert forall|m: int|
                        0 <= m < qviews(qs@).len() implies valid_name(
                        #[trigger] qviews(qs@)[m].qname,
                    ) by {
                        if m < qs0.len() {
                            assert(qviews(qs@)[m] == qviews(qs0)[m]);
                            assert(valid_name(qviews(qs0)[m].qname));
                        } else {
                            assert(qviews(qs@)[m] == qv);
                        }
                    }
                }
                o = o2;
                i = i + 1;
                proof {
                    if spec_parse_questions(stream@, o as int, count - i) is Some {
                        let rest = spec_parse_questions(stream@, o as int, count - i)->Some_0.0;
                        assert(qviews(qs0) + (seq![qv] + rest) =~= qviews(qs@) + rest);
                    }
                }
            },
            Err(e) => {
                return Err(e);
            },
        }
    }
    proof {
        assert(qviews(qs@) + Seq::<QuestionView>::empty() =~= qviews(qs@));
    }
    Ok((qs, o))
}

/// Reads `count` resource records in sequence from `stream` at `offset`.
fn parse_records(stream: &[u8], offset: usize, count: u16) -> (r: Result<
    (Vec<ResourceRecord>, usize),
    DecodeError,
>)
    requires
        offset <= stream@.len(),
    ensures
        match r {
            Ok((rs, end)) => {
                &&& spec_parse_rrs(stream@, offset as int, count as int) == Some(
                    (rviews(rs@), end as int),
                )
                &&& rs@.len() == count
                &&& records_wf(rviews(rs@))
                &&& offset <= end <= stream@.len()
            },
            Err(_) => spec_parse_rrs(stream@, offset as int, count as int) is None,
        },
{
    let mut rs: Vec<ResourceRecord> = Vec::new();
    let mut o = offset;
    let mut i: u16 = 0;
    proof {
        assert(rviews(rs@) =~= Seq::<RecordView>::empty());
    }
    while i < count
        invariant
            i <= count,
            rs@.len() == i,
            offset <= o <= stream@.len(),
            records_wf(rviews(rs@)),
            ({
                match spec_parse_rrs(stream@, o as int, count - i) {
                    Some((rest, e)) => spec_parse_rrs(stream@, offset as int, count as int) == Some(
                        (rviews(rs@) + rest, e),
                    ),
                    None => spec_parse_rrs(stream@, offset as int, count as int) is None,
                }
            }),
        decreases count - i,
    {
        match ResourceRecord::unserialize(stream, o) {
            Ok((rr, o2)) => {
                let ghost rs0 = rs@;
                let ghost rv = rr@;
                rs.push(rr);
                proof {
                    assert(rviews(rs@) =~= rviews(rs0).push(rv));
                    assert forall|m: int|
                        0 <= m < rviews(rs@).len() implies valid_name(
                        #[trigger] rviews(rs@)[m].name,
                    ) && rviews(rs@)[m].rdata.len() <= 65535 by {
                        if m < rs0.len() {
                            assert(rviews(rs@)[m] == rviews(rs0)[m]);
                            assert(valid_name(rviews(rs0)[m].name));
                        } else {
                            assert(rviews(rs@)[m] == rv);
                        }
                    }
                }
                o = o2;
                i = i + 1;
                proof {
                    if spec_parse_rrs(stream@, o as int, count - i) is Some {
                        let rest = spec_parse_rrs(stream@, o as int, count - i)->Some_0.0;
                        assert(rviews(rs0) + (seq![rv] + rest) =~= rviews(rs@) + rest);
                    }
                }
            },
            Err(e) => {
                return Err(e);
            },
        }
    }
    proof {
        assert(rviews(rs@) + Seq::<RecordView>::empty() =~= rviews(rs@));
    }
    Ok((rs, o))
}

/// Appends each record's wire form to `bytes`, in order, sharing the
/// message's compression table; the appended run parses back to the records.
fn serialize_records(bytes: &mut Vec<u8>, lt: &mut LabelTree, records: &Vec<ResourceRecord>)
    requires
        records_wf(rviews(records@)),
        old(lt).wf(),
        old(lt).buf@ == old(bytes)@,
    ensures
        final(lt).wf(),
        final(lt).buf@ == final(bytes)@,
        final(bytes)@.len() >= old(bytes)@.len(),
        final(bytes)@.subrange(0, old(bytes)@.len() as int) == old(bytes)@,
        spec_parse_rrs(final(bytes)@, old(bytes)@.len() as int, records@.len() as int) == Some(
            (rviews(records@), final(bytes)@.len() as int),
        ),
{
    let ghost start = bytes@.len() as int;
    let ghost old_bytes = bytes@;
    proof {
        assert(rviews(records@.take(0)) =~= Seq::<RecordView>::empty());
        assert(old_bytes.subrange(0, start) =~= old_bytes);
    }
    let mut i: usize = 0;
    while i < records.len()
        invariant
            i <= records@.len(),
            records_wf(rviews(records@)),
            lt.wf(),
            lt.buf@ == bytes@,
            bytes@.len() >= start,
            start == old_bytes.len(),
            bytes@.subrange(0, start) == old_bytes,
            spec_parse_rrs(bytes@, start, i as int) == Some(
                (rviews(records@.take(i as int)), bytes@.len() as int),
            ),
        decreases records@.len() - i,
    {
        let ghost pre = bytes@;
        proof {
            assert(valid_name(rviews(records@)[i as int].name) && rviews(records@)[i as int].rdata.len() <= 65535);
            assert(rviews(records@)[i as int] == records@[i as int]@);
        }
        records[i].serialize(bytes, lt);
        i = i + 1;
        proof {
            let s = bytes@;
            let ext = s.subrange(pre.len() as int, s.len() as int);
            assert(s =~= pre + ext);
            assert(s.subrange(0, start) =~= pre.subrange(0, start));
            lemma_parse_rrs_extend(pre, ext, start, i - 1);
            lemma_parse_rrs_snoc(s, start, i - 1);
            assert(rviews(records@.take(i as int)) =~= rviews(records@.take(i - 1)).push(
                records@[i - 1]@,
            ));
        }
    }
    proof {
        assert(records@.take(records@.len() as int) =~= records@);
    }
}

/// A parsed question run is unchanged when the stream is extended.
pub proof fn lemma_parse_questions_extend(s: Seq<u8>, t: Seq<u8>, i: int, count: int)
    requires
        spec_parse_questions(s, i, count) is Some,
    ensures
        spec_parse_questions(s + t, i, count) == spec_parse_questions(s, i, count),
    decreases count,
{
    if count > 0 {
        lemma_parse_question_extend(s, t, i);
        let o = spec_parse_question(s, i)->Some_0.1;
        lemma_parse_questions_extend(s, t, o, count - 1);
    }
}

/// A parsed record run is unchanged when the stream is extended.
pub proof fn lemma_parse_rrs_extend(s: Seq<u8>, t: Seq<u8>, i: int, count: int)
    requires
        spec_parse_rrs(s, i, count) is Some,
    ensures
        spec_parse_rrs(s + t, i, count) == spec_parse_rrs(s, i, count),
    decreases count,
{
    if count > 0 {
        lemma_parse_rr_extend(s, t, i);
        let o = spec_parse_rr(s, i)->Some_0.1;
        lemma_parse_rrs_extend(s, t, o, count - 1);
    }
}

/// A question parsed where a question run ended extends the run by one.
pub proof fn lemma_parse_questions_snoc(s: Seq<u8>, i: int, count: int)
    requires
        count >= 0,
        spec_parse_questions(s, i, count) is Some,
        spec_parse_question(s, spec_parse_questions(s, i, count)->Some_0.1) is Some,
    ensures
        spec_parse_questions(s, i, count + 1) == Some(
            (
                spec_parse_questions(s, i, count)->Some_0.0.push(
                    spec_parse_question(s, spec_parse_questions(s, i, count)->Some_0.1)->Some_0.0,
                ),
                spec_parse_question(s, spec_parse_questions(s, i, count)->Some_0.1)->Some_0.1,
            ),
        ),
    decreases count,
{
    let (qs, m) = spec_parse_questions(s, i, count)->Some_0;
    let (q, e) = spec_parse_question(s, m)->Some_0;
    if count == 0 {
        assert(spec_parse_questions(s, e, 0) == Some((Seq::<QuestionView>::empty(), e)));
        assert(seq![q] + Seq::<QuestionView>::empty() =~= qs.push(q));
    } else {
        let (q0, o0) = spec_parse_question(s, i)->Some_0;
        lemma_parse_questions_snoc(s, o0, count - 1);
        let rest = spec_parse_questions(s, o0, count - 1)->Some_0.0;
        assert(qs == seq![q0] + rest);
        assert(seq![q0] + rest.push(q) =~= qs.push(q));
    }
}

/// A record parsed where a record run ended extends the run by one.
pub proof fn lemma_parse_rrs_snoc(s: Seq<u8>, i: int, count: int)
    requires
        count >= 0,
        spec_parse_rrs(s, i, count) is Some,
        spec_parse_rr(s, spec_parse_rrs(s, i, count)->Some_0.1) is Some,
    ensures
        spec_parse_rrs(s, i, count + 1) == Some(
            (
                spec_parse_rrs(s, i, count)->Some_0.0.push(
                    spec_parse_rr(s, spec_parse_rrs(s, i, count)->Some_0.1)->Some_0.0,
                ),
                spec_parse_rr(s, spec_parse_rrs(s, i, count)->Some_0.1)->Some_0.1,
            ),
        ),
    decreases count,
{
    let (rs, m) = spec_parse_rrs(s, i, count)->Some_0;
    let (rr, e) = spec_parse_rr(s, m)->Some_0;
    if count == 0 {
        assert(spec_parse_rrs(s, e, 0) == Some((Seq::<RecordView>::empty(), e)));
        assert(seq![rr] + Seq::<RecordView>::empty() =~= rs.push(rr));
    } else {
        let (r0, o0) = spec_parse_rr(s, i)->Some_0;
        lemma_parse_rrs_snoc(s, o0, count - 1);
        let rest = spec_parse_rrs(s, o0, count - 1)->Some_0.0;
        assert(rs == seq![r0] + rest);
        assert(seq![r0] + rest.push(rr) =~= rs.push(rr));
    }
}

} // verus!
