//! The per-request decision pipeline: classify the first question, answer
//! blocked names with a synthesized NXDOMAIN, serve cache hits with the
//! decayed record, and hand everything else to the forwarder. Blocking is
//! decided before the cache is consulted.
//!
//! The networking around this — sockets, timeouts, task spawning — lives
//! outside the library; it feeds decoded datagrams and a monotonic clock
//! reading in, performs the returned action, and hands upstream replies
//! back for cache population.

use vstd::prelude::*;

use crate::blocklist::{entry_matches, labels_view, spec_lower_name, Blocklist, EntryView};
use crate::cache::{spec_cache_lookup, Cache};
use crate::datagram::{qviews, rviews, spec_parse_datagram, Datagram, DatagramView};
use crate::header::{
    spec_aa, spec_ancount, spec_arcount, spec_id, spec_is_question, spec_nscount,
    spec_opcode_bits, spec_qdcount, spec_ra, spec_rcode_bits, spec_rd, spec_tc, RCODE,
};
use crate::question::QuestionView;
use crate::resource_record::RecordView;
use crate::DecodeError;

verus! {

/// Whether the blocklist blocks a (not yet lowercased) name.
pub open spec fn blocked_name(bl: Blocklist, qname: Seq<Seq<u8>>) -> bool {
    exists|e: EntryView| #[trigger] bl.entries@.contains(e) && entry_matches(
        e,
        spec_lower_name(qname),
    )
}

/// The shape of a synthesized negative reply to `req`: the request's ID,
/// opcode and RD echoed; QR and RA set; AA and TC clear; RCODE NXDOMAIN;
/// exactly the request's first question echoed and no records.
pub open spec fn nxdomain_reply(req: DatagramView, rep: DatagramView) -> bool {
    &&& rep.questions == seq![req.questions[0]]
    &&& rep.answers.len() == 0
    &&& rep.authorities.len() == 0
    &&& rep.additionals.len() == 0
    &&& spec_id(rep.header) == spec_id(req.header)
    &&& !spec_is_question(rep.header)
    &&& spec_opcode_bits(rep.header) == spec_opcode_bits(req.header)
    &&& !spec_aa(rep.header)
    &&& !spec_tc(rep.header)
    &&& spec_rd(rep.header) == spec_rd(req.header)
    &&& spec_ra(rep.header)
    &&& spec_rcode_bits(rep.header) == 3
    &&& spec_qdcount(rep.header) == 1
    &&& spec_ancount(rep.header) == 0
    &&& spec_nscount(rep.header) == 0
    &&& spec_arcount(rep.header) == 0
}

/// The shape of a cache-hit reply to `req`: the request's ID, opcode and RD
/// echoed; QR and RA set; AA and TC clear; RCODE NOERROR; the request's
/// first question echoed and the decayed record as the one answer.
pub open spec fn cache_hit_reply(req: DatagramView, rv: RecordView, rep: DatagramView) -> bool {
    &&& rep.questions == seq![req.questions[0]]
    &&& rep.answers == seq![rv]
    &&& rep.authorities.len() == 0
    &&& rep.additionals.len() == 0
    &&& spec_id(rep.header) == spec_id(req.header)
    &&& !spec_is_question(rep.header)
    &&& spec_opcode_bits(rep.header) == spec_opcode_bits(req.header)
    &&& !spec_aa(rep.header)
    &&& !spec_tc(rep.header)
    &&& spec_rd(rep.header) == spec_rd(req.header)
    &&& spec_ra(rep.header)
    &&& spec_rcode_bits(rep.header) == 0
    &&& spec_qdcount(rep.header) == 1
    &&& spec_ancount(rep.header) == 1
    &&& spec_nscount(rep.header) == 0
    &&& spec_arcount(rep.header) == 0
}

/// What the responder decides for one request.
pub enum ResponderAction {
    /// Send this reply back to the client.
    Reply(Datagram),
    /// Forward the original request bytes upstream.
    Forward,
    /// Drop the request silently.
    Drop,
}

/// Builds the NXDOMAIN envelope for a request: its header with QR set,
/// AA and TC cleared, RA set, RCODE NXDOMAIN and only the first question
/// kept.
pub fn empty_answer(datagram: &Datagram) -> (r: Datagram)
    requires
        datagram.wf(),
        datagram@.questions.len() >= 1,
    ensures
        nxdomain_reply(datagram@, r@),
        r.wf(),
{
    let mut header = datagram.header.clone();
    crate::header::header_len_fact(&header);
    header.set_question(false);
    header.set_authoritative_answer(false);
    header.set_truncated(false);
    header.set_recursion_available(true);
    header.set_rcode(RCODE::NXDomain);
    header.set_question_count(1);
    header.set_answer_count(0);
    header.set_authority_count(0);
    header.set_additional_count(0);
    let mut questions: Vec<crate::question::Question> = Vec::new();
    questions.push(datagram.questions[0].clone());
    let r = Datagram {
        header,
        questions,
        answers: Vec::new(),
        authorities: Vec::new(),
        additionals: Vec::new(),
    };
    proof {
        assert(qviews(r.questions@) =~= seq![datagram@.questions[0]]);
        assert(rviews(r.answers@) =~= Seq::<RecordView>::empty());
        assert(rviews(r.authorities@) =~= Seq::<RecordView>::empty());
        assert(rviews(r.additionals@) =~= Seq::<RecordView>::empty());
        assert(valid_first_question(datagram@));
    }
    r
}

/// The first question of a well-formed datagram carries a valid name.
spec fn valid_first_question(dv: DatagramView) -> bool {
    dv.questions.len() >= 1 ==> crate::name::valid_name(dv.questions[0].qname)
}

/// The NXDOMAIN reply when the first question's name is blocked, nothing
/// otherwise.
pub fn get_blocked_answer(datagram: &Datagram, blocklist: &Blocklist) -> (r: Option<Datagram>)
    requires
        datagram.wf(),
        datagram@.questions.len() >= 1,
        blocklist.wf(),
    ensures
        match r {
            Some(a) => blocked_name(*blocklist, datagram@.questions[0].qname) && nxdomain_reply(
                datagram@,
                a@,
            ) && a.wf(),
            None => !blocked_name(*blocklist, datagram@.questions[0].qname),
        },
{
    let question = &datagram.questions[0];
    proof {
        assert(labels_view(question.qname.labels@) =~= datagram@.questions[0].qname);
    }
    if blocklist.contains(&question.qname.labels) {
        Some(empty_answer(datagram))
    } else {
        None
    }
}

/// A reply carrying the cached record for the first question, decayed by the
/// elapsed time, if one is live in the cache; an expired entry is evicted
/// and nothing is returned.
pub fn get_cached_answer(datagram: &Datagram, cache: &mut Cache, now_ms: u64) -> (r: Option<
    Datagram,
>)
    requires
        datagram.wf(),
        datagram@.questions.len() >= 1,
        old(cache).wf(),
    ensures
        final(cache).wf(),
        ({
            let q = datagram@.questions[0];
            match spec_cache_lookup(old(cache)@, q, now_ms) {
                Some(rv) => {
                    &&& r is Some
                    &&& cache_hit_reply(datagram@, rv, r->Some_0@)
                    &&& r->Some_0.wf()
                    &&& final(cache)@ == old(cache)@
                },
                None => {
                    &&& r is None
                    &&& (old(cache)@.dom().contains(q) ==> final(cache)@ == old(cache)@.remove(q))
                    &&& (!old(cache)@.dom().contains(q) ==> final(cache)@ == old(cache)@)
                },
            }
        }),
{
    let question = &datagram.questions[0];
    proof {
        assert(question@ == datagram@.questions[0]);
    }
    let answer = match cache.get(question, now_ms) {
        Some(a) => a,
        None => {
            return None;
        },
    };
    let mut header = datagram.header.clone();
    crate::header::header_len_fact(&header);
    header.set_question(false);
    header.set_authoritative_answer(false);
    header.set_truncated(false);
    header.set_recursion_available(true);
    header.set_rcode(RCODE::NoError);
    header.set_question_count(1);
    header.set_answer_count(1);
    header.set_authority_count(0);
    header.set_additional_count(0);
    let mut questions: Vec<crate::question::Question> = Vec::new();
    questions.push(question.clone());
    let mut answers: Vec<crate::resource_record::ResourceRecord> = Vec::new();
    answers.push(answer);
    let r = Datagram {
        header,
        questions,
        answers,
        authorities: Vec::new(),
        additionals: Vec::new(),
    };
    proof {
        assert(qviews(r.questions@) =~= seq![datagram@.questions[0]]);
        assert(rviews(r.answers@) =~= seq![
            spec_cache_lookup(old(cache)@, datagram@.questions[0], now_ms)->Some_0,
        ]);
        assert(rviews(r.authorities@) =~= Seq::<RecordView>::empty());
        assert(rviews(r.additionals@) =~= Seq::<RecordView>::empty());
    }
    Some(r)
}

/// Decides one request: unsupported types are forwarded untouched; a blocked
/// first question is answered NXDOMAIN (blocking wins over the cache); a
/// live cached record is served with its TTL decayed; anything else is
/// forwarded. A request without a question is dropped.
pub fn respond_local(
    datagram: &Datagram,
    blocklist: &Blocklist,
    cache: &mut Cache,
    now_ms: u64,
) -> (r: ResponderAction)
    requires
        datagram.wf(),
        blocklist.wf(),
        old(cache).wf(),
    ensures
        final(cache).wf(),
        ({
            let dv = datagram@;
            if dv.questions.len() == 0 {
                r is Drop && final(cache)@ == old(cache)@
            } else {
                let q = dv.questions[0];
                if q.qtype != 1 && q.qtype != 28 {
                    r is Forward && final(cache)@ == old(cache)@
                } else if blocked_name(*blocklist, q.qname) {
                    &&& r is Reply
                    &&& nxdomain_reply(dv, r->Reply_0@)
                    &&& r->Reply_0.wf()
                    &&& final(cache)@ == old(cache)@
                } else {
                    match spec_cache_lookup(old(cache)@, q, now_ms) {
                        Some(rv) => {
                            &&& r is Reply
                            &&& cache_hit_reply(dv, rv, r->Reply_0@)
                            &&& r->Reply_0.wf()
                            &&& final(cache)@ == old(cache)@
                        },
                        None => {
                            &&& r is Forward
                            &&& (old(cache)@.dom().contains(q) ==> final(cache)@ == old(
                                cache,
                            )@.remove(q))
                            &&& (!old(cache)@.dom().contains(q) ==> final(cache)@ == old(cache)@)
                        },
                    }
                }
            }
        }),
{
    if datagram.questions.len() == 0 {
        return ResponderAction::Drop;
    }
    let qtype = datagram.questions[0].qtype;
    if qtype != 1 && qtype != 28 {
        return ResponderAction::Forward;
    }
    if let Some(blocked) = get_blocked_answer(datagram, blocklist) {
        return ResponderAction::Reply(blocked);
    }
    if let Some(cached) = get_cached_answer(datagram, cache, now_ms) {
        return ResponderAction::Reply(cached);
    }
    ResponderAction::Forward
}

/// The cache after storing each answer of a reply, in order, keyed by the
/// question the answer responds to.
pub open spec fn spec_insert_answers(
    m: Map<QuestionView, (RecordView, u64)>,
    answers: Seq<RecordView>,
    now: u64,
) -> Map<QuestionView, (RecordView, u64)>
    decreases answers.len(),
{
    if answers.len() == 0 {
        m
    } else {
        spec_insert_answers(
            m.insert(answers[0].question(), (answers[0], now)),
            answers.drop_first(),
            now,
        )
    }
}

/// Folding one more answer at the end.
proof fn lemma_insert_answers_snoc(
    m: Map<QuestionView, (RecordView, u64)>,
    answers: Seq<RecordView>,
    a: RecordView,
    now: u64,
)
    ensures
        spec_insert_answers(m, answers.push(a), now) == spec_insert_answers(
            m,
            answers,
            now,
        ).insert(a.question(), (a, now)),
    decreases answers.len(),
{
    if answers.len() == 0 {
        assert(answers.push(a)[0] == a);
        assert(answers.push(a).drop_first() =~= Seq::<RecordView>::empty());
        assert(spec_insert_answers(
            m.insert(a.question(), (a, now)),
            Seq::<RecordView>::empty(),
            now,
        ) == m.insert(a.question(), (a, now)));
    } else {
        assert(answers.push(a)[0] == answers[0]);
        assert(answers.push(a).drop_first() =~= answers.drop_first().push(a));
        lemma_insert_answers_snoc(
            m.insert(answers[0].question(), (answers[0], now)),
            answers.drop_first(),
            a,
            now,
        );
    }
}

/// Decodes an upstream reply and stores each answer in the cache, keyed by
/// the question it answers, all stamped with the current time.
pub fn process_upstream_reply(stream: &[u8], cache: &mut Cache, now_ms: u64) -> (r: Result<
    Datagram,
    DecodeError,
>)
    requires
        old(cache).wf(),
    ensures
        final(cache).wf(),
        match r {
            Ok(d) => {
                &&& spec_parse_datagram(stream@) == Some(d@)
                &&& d.wf()
                &&& final(cache)@ == spec_insert_answers(old(cache)@, d@.answers, now_ms)
            },
            Err(_) => spec_parse_datagram(stream@) is None && final(cache)@ == old(cache)@,
        },
{
    let reply = match Datagram::unserialize(stream) {
        Ok(d) => d,
        Err(e) => {
            return Err(e);
        },
    };
    let mut i: usize = 0;
    proof {
        assert(rviews(reply.answers@).take(0) =~= Seq::<RecordView>::empty());
    }
    while i < reply.answers.len()
        invariant
            i <= reply.answers@.len(),
            cache.wf(),
            crate::datagram::records_wf(rviews(reply.answers@)),
            cache@ == spec_insert_answers(old(cache)@, rviews(reply.answers@).take(i as int), now_ms),
        decreases reply.answers@.len() - i,
    {
        let answer = &reply.answers[i];
        let question = answer.get_question();
        proof {
            assert(rviews(reply.answers@)[i as int] == reply.answers@[i as int]@);
            assert(crate::name::valid_name(rviews(reply.answers@)[i as int].name));
        }
        cache.insert(&question, answer.clone(), now_ms);
        i = i + 1;
        proof {
            let avs = rviews(reply.answers@);
            assert(avs.take(i as int) =~= avs.take(i - 1).push(avs[i - 1]));
            lemma_insert_answers_snoc(old(cache)@, avs.take(i - 1), avs[i - 1], now_ms);
        }
    }
    proof {
        assert(rviews(reply.answers@).take(reply.answers@.len() as int) =~= rviews(
            reply.answers@,
        ));
    }
    Ok(reply)
}

} // verus!
