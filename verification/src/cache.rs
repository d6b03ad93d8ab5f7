//! The response cache: a map from question to (record, insertion time).
//! Reads decay the stored TTL by the elapsed whole seconds and lazily evict
//! entries whose TTL has run out; the stored record itself is never mutated.
//!
//! Time is handed in by the caller as a monotonic reading in milliseconds,
//! so every operation is a pure function of its arguments.

use vstd::prelude::*;

use crate::name::valid_name;
use crate::question::{Question, QuestionView};
use crate::resource_record::{RecordView, ResourceRecord};

verus! {

/// One cached reply: the question it answers, the record, and when it was
/// stored (a monotonic reading, in milliseconds).
pub struct CacheEntry {
    pub question: Question,
    pub record: ResourceRecord,
    pub inserted_at: u64,
}

/// The first entry answering `q`, if any.
pub open spec fn spec_find(s: Seq<CacheEntry>, q: QuestionView) -> Option<(RecordView, u64)>
    decreases s.len(),
{
    if s.len() == 0 {
        None
    } else if s[0].question@ == q {
        Some((s[0].record@, s[0].inserted_at))
    } else {
        spec_find(s.drop_first(), q)
    }
}

/// Whole seconds elapsed since `t`, by a clock now reading `now` (both in
/// milliseconds); a reading older than `t` counts as zero.
pub open spec fn spec_elapsed(t: u64, now: u64) -> int {
    if now >= t {
        (now - t) / 1000
    } else {
        0
    }
}

/// What a cache read returns: nothing for an absent or expired entry, else
/// the record with its TTL decayed by the elapsed whole seconds.
pub open spec fn spec_cache_lookup(
    m: Map<QuestionView, (RecordView, u64)>,
    q: QuestionView,
    now: u64,
) -> Option<RecordView> {
    if !m.dom().contains(q) {
        None
    } else {
        let (rv, t) = m[q];
        if spec_elapsed(t, now) >= rv.ttl {
            None
        } else {
            Some(RecordView { ttl: (rv.ttl - spec_elapsed(t, now)) as u32, ..rv })
        }
    }
}

/// The TTL decay law: right after `insert(q, rr)` at time `t`, a read at
/// time `now` returns the record with TTL reduced by the elapsed whole
/// seconds, as long as that is less than the stored TTL; once the elapsed
/// whole seconds reach the stored TTL, the read returns nothing.
pub proof fn lemma_cache_decay(
    m: Map<QuestionView, (RecordView, u64)>,
    q: QuestionView,
    rv: RecordView,
    t: u64,
    now: u64,
)
    requires
        t <= now,
    ensures
        ({
            let delta = (now - t) / 1000;
            let looked = spec_cache_lookup(m.insert(q, (rv, t)), q, now);
            &&& delta < rv.ttl ==> looked == Some(
                (RecordView { ttl: (rv.ttl - delta) as u32, ..rv }),
            )
            &&& delta >= rv.ttl ==> looked is None
        }),
{
}

/// The response cache.
pub struct Cache {
    entries: Vec<CacheEntry>,
}

impl Cache {
    /// No two entries answer the same question, and every stored record is
    /// encodable. Established by `new` and preserved by every operation.
    pub closed spec fn wf(self) -> bool {
        &&& (forall|i: int, j: int|
            #![trigger self.entries@[i].question@, self.entries@[j].question@]
            0 <= i < j < self.entries@.len() ==> self.entries@[i].question@
                != self.entries@[j].question@)
        &&& (forall|i: int|
            0 <= i < self.entries@.len() ==> valid_name(
                #[trigger] self.entries@[i].record@.name,
            ) && self.entries@[i].record@.rdata.len() <= 65535)
    }
}

impl View for Cache {
    type V = Map<QuestionView, (RecordView, u64)>;

    closed spec fn view(&self) -> Map<QuestionView, (RecordView, u64)> {
        Map::new(
            |q: QuestionView| spec_find(self.entries@, q) is Some,
            |q: QuestionView| spec_find(self.entries@, q)->Some_0,
        )
    }
}

impl Cache {
    /// An empty cache.
    pub fn new() -> (r: Self)
        ensures
            r@ == Map::<QuestionView, (RecordView, u64)>::empty(),
            r.wf(),
    {
        let r = Cache { entries: Vec::new() };
        proof {
            assert(r@ =~= Map::<QuestionView, (RecordView, u64)>::empty());
        }
        r
    }

    /// Looks `question` up at time `now_ms`. An absent question returns
    /// nothing. An entry whose TTL has run out is evicted and returns
    /// nothing. A live entry returns the record with its TTL decayed by the
    /// elapsed whole seconds; the stored entry is unchanged.
    pub fn get(&mut self, question: &Question, now_ms: u64) -> (r: Option<ResourceRecord>)
        requires
            old(self).wf(),
        ensures
            final(self).wf(),
            r is Some ==> valid_name(r->Some_0@.name) && r->Some_0@.rdata.len() <= 65535,
            ({
                let m = old(self)@;
                let q = question@;
                match spec_cache_lookup(m, q, now_ms) {
                    Some(rv) => {
                        &&& r is Some
                        &&& r->Some_0@ == rv
                        &&& final(self)@ == m
                    },
                    None => {
                        &&& r is None
                        &&& (m.dom().contains(q) ==> final(self)@ == m.remove(q))
                        &&& (!m.dom().contains(q) ==> final(self)@ == m)
                    },
                }
            }),
    {
        let idx = match self.find_entry(question) {
            Some(i) => i,
            None => {
                return None;
            },
        };
        let t = self.entries[idx].inserted_at;
        let ttl = self.entries[idx].record.get_ttl();
        let elapsed_s: u64 = if now_ms >= t {
            (now_ms - t) / 1000
        } else {
            0
        };
        if elapsed_s >= ttl as u64 {
            let ghost s0 = self.entries@;
            self.entries.remove(idx);
            proof {
                lemma_find_remove(s0, idx as int, question@);
                assert(self@ =~= old(self)@.remove(question@));
                assert forall|a: int, b: int|
                    #![trigger self.entries@[a].question@, self.entries@[b].question@]
                    0 <= a < b < self.entries@.len() implies self.entries@[a].question@
                    != self.entries@[b].question@ by {
                    assert(self.entries@[a] == (if a < idx {
                        s0[a]
                    } else {
                        s0[a + 1]
                    }));
                    assert(self.entries@[b] == (if b < idx {
                        s0[b]
                    } else {
                        s0[b + 1]
                    }));
                }
                assert forall|a: int|
                    0 <= a < self.entries@.len() implies valid_name(
                    #[trigger] self.entries@[a].record@.name,
                ) && self.entries@[a].record@.rdata.len() <= 65535 by {
                    assert(self.entries@[a] == (if a < idx {
                        s0[a]
                    } else {
                        s0[a + 1]
                    }));
                }
            }
            None
        } else {
            let mut record = self.entries[idx].record.clone();
            record.set_ttl(ttl - elapsed_s as u32);
            proof {
                assert(spec_cache_lookup(old(self)@, question@, now_ms) == Some(record@));
            }
            Some(record)
        }
    }

    /// Stores `rr` for `question` at time `now_ms`, replacing any previous
    /// entry for the same question.
    pub fn insert(&mut self, question: &Question, rr: ResourceRecord, now_ms: u64)
        requires
            old(self).wf(),
            valid_name(rr@.name),
            rr@.rdata.len() <= 65535,
        ensures
            final(self).wf(),
            final(self)@ == old(self)@.insert(question@, (rr@, now_ms)),
    {
        let entry = CacheEntry { question: question.clone(), record: rr, inserted_at: now_ms };
        let ghost s0 = self.entries@;
        match self.find_entry(question) {
            Some(i) => {
                self.entries[i] = entry;
                proof {
                    lemma_find_update(s0, i as int, self.entries@[i as int], question@);
                    assert(self@ =~= old(self)@.insert(question@, (rr@, now_ms)));
                    assert forall|a: int, b: int|
                        #![trigger self.entries@[a].question@, self.entries@[b].question@]
                        0 <= a < b < self.entries@.len() implies self.entries@[a].question@
                        != self.entries@[b].question@ by {
                        assert(s0[a].question@ != s0[b].question@);
                        if a != i {
                            assert(self.entries@[a] == s0[a]);
                        }
                        if b != i {
                            assert(self.entries@[b] == s0[b]);
                        }
                    }
                }
            },
            None => {
                self.entries.push(entry);
                proof {
                    lemma_find_push(s0, self.entries@.last(), question@);
                    assert(self@ =~= old(self)@.insert(question@, (rr@, now_ms)));
                    assert forall|a: int, b: int|
                        #![trigger self.entries@[a].question@, self.entries@[b].question@]
                        0 <= a < b < self.entries@.len() implies self.entries@[a].question@
                        != self.entries@[b].question@ by {
                        if b < s0.len() {
                            assert(self.entries@[a] == s0[a]);
                            assert(self.entries@[b] == s0[b]);
                            assert(s0[a].question@ != s0[b].question@);
                        } else {
                            assert(self.entries@[a] == s0[a]);
                            assert(self.entries@[b].question@ == question@);
                        }
                    }
                }
            },
        }
    }

    /// Empties the cache.
    pub fn reset(&mut self)
        ensures
            final(self)@ == Map::<QuestionView, (RecordView, u64)>::empty(),
            final(self).wf(),
    {
        self.entries = Vec::new();
        proof {
            assert(self@ =~= Map::<QuestionView, (RecordView, u64)>::empty());
        }
    }

    /// The index of the entry answering `question`, if any.
    fn find_entry(&self, question: &Question) -> (r: Option<usize>)
        ensures
            match r {
                Some(i) => {
                    &&& i < self.entries@.len()
                    &&& self.entries@[i as int].question@ == question@
                    &&& forall|p: int|
                        0 <= p < i ==> self.entries@[p].question@ != question@
                    &&& spec_find(self.entries@, question@) == Some(
                        (self.entries@[i as int].record@, self.entries@[i as int].inserted_at),
                    )
                    &&& self@.dom().contains(question@)
                    &&& self@[question@] == (
                        self.entries@[i as int].record@,
                        self.entries@[i as int].inserted_at,
                    )
                },
                None => {
                    &&& spec_find(self.entries@, question@) is None
                    &&& !self@.dom().contains(question@)
                    &&& forall|p: int|
                        0 <= p < self.entries@.len() ==> self.entries@[p].question@ != question@
                },
            },
    {
        let mut i: usize = 0;
        proof {
            assert(self.entries@.skip(0) =~= self.entries@);
        }
        while i < self.entries.len()
            invariant
                i <= self.entries@.len(),
                forall|p: int| 0 <= p < i ==> self.entries@[p].question@ != question@,
                spec_find(self.entries@, question@) == spec_find(
                    self.entries@.skip(i as int),
                    question@,
                ),
            decreases self.entries@.len() - i,
        {
            proof {
                let sk = self.entries@.skip(i as int);
                assert(sk[0] == self.entries@[i as int]);
                assert(sk.drop_first() =~= self.entries@.skip(i + 1));
            }
            if self.entries[i].question == *question {
                return Some(i);
            }
            i = i + 1;
        }
        proof {
            assert(self.entries@.skip(self.entries@.len() as int) =~= Seq::<CacheEntry>::empty());
        }
        None
    }
}

/// Replacing the first entry for a question with another entry for the same
/// question changes only that question's binding.
proof fn lemma_find_update(s: Seq<CacheEntry>, i: int, e: CacheEntry, q: QuestionView)
    requires
        0 <= i < s.len(),
        s[i].question@ == q,
        e.question@ == q,
        forall|p: int| 0 <= p < i ==> s[p].question@ != q,
    ensures
        forall|q2: QuestionView| #[trigger]
            spec_find(s.update(i, e), q2) == (if q2 == q {
                Some((e.record@, e.inserted_at))
            } else {
                spec_find(s, q2)
            }),
    decreases s.len(),
{
    assert forall|q2: QuestionView| #[trigger]
        spec_find(s.update(i, e), q2) == (if q2 == q {
            Some((e.record@, e.inserted_at))
        } else {
            spec_find(s, q2)
        }) by {
        lemma_find_update_one(s, i, e, q, q2);
    }
}

/// One-query version of `lemma_find_update`.
proof fn lemma_find_update_one(s: Seq<CacheEntry>, i: int, e: CacheEntry, q: QuestionView, q2: QuestionView)
    requires
        0 <= i < s.len(),
        s[i].question@ == q,
        e.question@ == q,
        forall|p: int| 0 <= p < i ==> s[p].question@ != q,
    ensures
        spec_find(s.update(i, e), q2) == (if q2 == q {
            Some((e.record@, e.inserted_at))
        } else {
            spec_find(s, q2)
        }),
    decreases s.len(),
{
    let s2 = s.update(i, e);
    if i == 0 {
        if q2 != q {
            assert(s2.drop_first() =~= s.drop_first());
        }
    } else {
        assert(s2[0] == s[0]);
        assert(s2.drop_first() =~= s.drop_first().update(i - 1, e));
        assert(forall|p: int| 0 <= p < i - 1 ==> s.drop_first()[p].question@ != q);
        lemma_find_update_one(s.drop_first(), i - 1, e, q, q2);
    }
}

/// Appending an entry for a question the cache does not know adds only that
/// question's binding.
proof fn lemma_find_push(s: Seq<CacheEntry>, e: CacheEntry, q: QuestionView)
    requires
        e.question@ == q,
        forall|p: int| 0 <= p < s.len() ==> s[p].question@ != q,
    ensures
        forall|q2: QuestionView| #[trigger]
            spec_find(s.push(e), q2) == (if q2 == q {
                Some((e.record@, e.inserted_at))
            } else {
                spec_find(s, q2)
            }),
{
    assert forall|q2: QuestionView| #[trigger]
        spec_find(s.push(e), q2) == (if q2 == q {
            Some((e.record@, e.inserted_at))
        } else {
            spec_find(s, q2)
        }) by {
        lemma_find_push_one(s, e, q, q2);
    }
}

/// One-query version of `lemma_find_push`.
proof fn lemma_find_push_one(s: Seq<CacheEntry>, e: CacheEntry, q: QuestionView, q2: QuestionView)
    requires
        e.question@ == q,
        forall|p: int| 0 <= p < s.len() ==> s[p].question@ != q,
    ensures
        spec_find(s.push(e), q2) == (if q2 == q {
            Some((e.record@, e.inserted_at))
        } else {
            spec_find(s, q2)
        }),
    decreases s.len(),
{
    let s2 = s.push(e);
    if s.len() == 0 {
        assert(s2[0] == e);
        if q2 != q {
            assert(s2.drop_first() =~= Seq::<CacheEntry>::empty());
            assert(spec_find(Seq::<CacheEntry>::empty(), q2) is None);
        }
    } else {
        assert(s2[0] == s[0]);
        assert(s2.drop_first() =~= s.drop_first().push(e));
        assert(forall|p: int|
            0 <= p < s.drop_first().len() ==> s.drop_first()[p].question@ != q);
        lemma_find_push_one(s.drop_first(), e, q, q2);
    }
}

/// Removing the unique entry for a question removes only that question's
/// binding.
proof fn lemma_find_remove(s: Seq<CacheEntry>, i: int, q: QuestionView)
    requires
        0 <= i < s.len(),
        s[i].question@ == q,
        forall|p: int, p2: int|
            #![trigger s[p].question@, s[p2].question@]
            0 <= p < p2 < s.len() ==> s[p].question@ != s[p2].question@,
    ensures
        forall|q2: QuestionView| #[trigger]
            spec_find(s.remove(i), q2) == (if q2 == q {
                None
            } else {
                spec_find(s, q2)
            }),
{
    assert forall|q2: QuestionView| #[trigger]
        spec_find(s.remove(i), q2) == (if q2 == q {
            None
        } else {
            spec_find(s, q2)
        }) by {
        lemma_find_remove_one(s, i, q, q2);
    }
}

/// One-query version of `lemma_find_remove`.
proof fn lemma_find_remove_one(s: Seq<CacheEntry>, i: int, q: QuestionView, q2: QuestionView)
    requires
        0 <= i < s.len(),
        s[i].question@ == q,
        forall|p: int, p2: int|
            #![trigger s[p].question@, s[p2].question@]
            0 <= p < p2 < s.len() ==> s[p].question@ != s[p2].question@,
    ensures
        spec_find(s.remove(i), q2) == (if q2 == q {
            None
        } else {
            spec_find(s, q2)
        }),
    decreases s.len(),
{
    let s2 = s.remove(i);
    if i == 0 {
        assert(s2 =~= s.drop_first());
        if q2 == q {
            assert(forall|p: int|
                0 <= p < s.drop_first().len() ==> s.drop_first()[p].question@ != q);
            lemma_find_absent(s.drop_first(), q2);
        }
    } else {
        assert(s2[0] == s[0]);
        assert(s2.drop_first() =~= s.drop_first().remove(i - 1));
        assert(s.drop_first()[i - 1].question@ == q);
        assert(forall|p: int, p2: int|
            #![trigger s.drop_first()[p].question@, s.drop_first()[p2].question@]
            0 <= p < p2 < s.drop_first().len() ==> s.drop_first()[p].question@
                != s.drop_first()[p2].question@);
        lemma_find_remove_one(s.drop_first(), i - 1, q, q2);
    }
}

/// A question no entry carries is not found.
proof fn lemma_find_absent(s: Seq<CacheEntry>, q: QuestionView)
    requires
        forall|p: int| 0 <= p < s.len() ==> s[p].question@ != q,
    ensures
        spec_find(s, q) is None,
    decreases s.len(),
{
    if s.len() > 0 {
        assert(forall|p: int|
            0 <= p < s.drop_first().len() ==> s.drop_first()[p].question@ != q);
        lemma_find_absent(s.drop_first(), q);
    }
}

} // verus!
