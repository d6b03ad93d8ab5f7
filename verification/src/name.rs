//! A domain name: an ordered sequence of labels, most-significant-last
//! (`www.example.com` is `[www, example, com]`), together with its wire
//! codec. Decoding follows compression pointers under a recursion budget;
//! encoding with compression lives in `Name::serialize`.

use vstd::prelude::*;

use crate::compression::{
    best_suffix_len, lemma_reaches_prefix, reaches, reaches_to, rl_claim, rls_labels, LabelTree,
    ReferencedLabel,
};
use crate::label::{spec_parse_label, valid_label, Label};
use crate::DecodeError;

verus! {

/// The recursion budget for compression-pointer jumps while decoding a name.
pub const POINTER_BUDGET: u8 = 128;

/// Byte length of the label part of a name's wire form: one length byte plus
/// the label bytes for each label (the final zero terminator not included).
pub open spec fn name_enc_len(ls: Seq<Seq<u8>>) -> int
    decreases ls.len(),
{
    if ls.len() == 0 {
        0
    } else {
        1 + ls[0].len() + name_enc_len(ls.drop_first())
    }
}

/// A name is valid when every label is valid and the whole wire form
/// (labels plus the terminator) fits in 255 bytes.
pub open spec fn valid_name(ls: Seq<Seq<u8>>) -> bool {
    &&& (forall|i: int| 0 <= i < ls.len() ==> valid_label(#[trigger] ls[i]))
    &&& name_enc_len(ls) <= 254
}

/// The uncompressed wire form of a name's labels, without the terminator.
pub open spec fn spec_encode_plain(ls: Seq<Seq<u8>>) -> Seq<u8>
    decreases ls.len(),
{
    if ls.len() == 0 {
        Seq::empty()
    } else {
        seq![ls[0].len() as u8] + ls[0] + spec_encode_plain(ls.drop_first())
    }
}

/// Parses a name at offset `i` of `s`: labels until a zero terminator or a
/// two-byte compression pointer. `fuel` bounds pointer jumps; `acc` carries
/// the label bytes already accumulated toward the 255-byte cap. Returns the
/// label sequence and the offset just past the terminator or pointer.
pub open spec fn spec_parse_name_rec(s: Seq<u8>, i: int, fuel: nat, acc: int) -> Option<
    (Seq<Seq<u8>>, int),
>
    decreases fuel, s.len() - i,
{
    if !(0 <= i < s.len()) {
        None
    } else if s[i] == 0 {
        Some((Seq::empty(), i + 1))
    } else if s[i] >= 192 {
        if i + 1 < s.len() && fuel > 0 {
            let target = (s[i] - 192) * 256 + s[i + 1];
            match spec_parse_name_rec(s, target, (fuel - 1) as nat, acc) {
                Some((ls, _)) => Some((ls, i + 2)),
                None => None,
            }
        } else {
            None
        }
    } else {
        let len = s[i] as int;
        if len <= 63 && i + 1 + len <= s.len() && valid_label(s.subrange(i + 1, i + 1 + len)) && acc
            + 1 + len <= 254 {
            match spec_parse_name_rec(s, i + 1 + len, fuel, acc + 1 + len) {
                Some((ls, end)) => Some((seq![s.subrange(i + 1, i + 1 + len)] + ls, end)),
                None => None,
            }
        } else {
            None
        }
    }
}

/// Parsing a name with the full pointer budget and nothing accumulated.
pub open spec fn spec_parse_name(s: Seq<u8>, i: int) -> Option<(Seq<Seq<u8>>, int)> {
    spec_parse_name_rec(s, i, POINTER_BUDGET as nat, 0)
}

/// An ordered sequence of labels, most-significant-last.
#[derive(Debug)]
pub struct Name {
    pub labels: Vec<Label>,
}

impl View for Name {
    type V = Seq<Seq<u8>>;

    open spec fn view(&self) -> Seq<Seq<u8>> {
        Seq::new(self.labels@.len(), |i: int| self.labels@[i]@)
    }
}

impl Clone for Name {
    fn clone(&self) -> (r: Self)
        ensures
            r@ == self@,
    {
        let mut labels: Vec<Label> = Vec::new();
        let mut i: usize = 0;
        while i < self.labels.len()
            invariant
                i <= self.labels@.len(),
                labels@.len() == i,
                forall|j: int| 0 <= j < i ==> #[trigger] labels@[j]@ == self.labels@[j]@,
            decreases self.labels@.len() - i,
        {
            labels.push(self.labels[i].clone());
            i = i + 1;
        }
        let r = Name { labels };
        proof {
            assert(r@ =~= self@);
        }
        r
    }
}

impl PartialEq for Name {
    fn eq(&self, other: &Self) -> (r: bool)
        ensures
            r == (self@ == other@),
    {
        if self.labels.len() != other.labels.len() {
            proof {
                assert(self@.len() != other@.len());
            }
            return false;
        }
        let mut i: usize = 0;
        while i < self.labels.len()
            invariant
                i <= self.labels@.len() == other.labels@.len(),
                forall|j: int| 0 <= j < i ==> #[trigger] self.labels@[j]@ == other.labels@[j]@,
            decreases self.labels@.len() - i,
        {
            if !(self.labels[i] == other.labels[i]) {
                proof {
                    assert(self@[i as int] != other@[i as int]);
                }
                return false;
            }
            i = i + 1;
        }
        proof {
            assert(self@ =~= other@);
        }
        true
    }
}

impl Eq for Name {

}

impl vstd::std_specs::cmp::PartialEqSpecImpl for Name {
    open spec fn obeys_eq_spec() -> bool {
        true
    }

    open spec fn eq_spec(&self, other: &Self) -> bool {
        self@ == other@
    }
}

impl Name {
    /// Reads a (possibly compressed) name from `stream` at `offset`.
    pub fn unserialize(stream: &[u8], offset: usize) -> (r: Result<
        (Name, usize),
        DecodeError,
    >)
        ensures
            match r {
                Ok((n, end)) => {
                    &&& spec_parse_name(stream@, offset as int) == Some((n@, end as int))
                    &&& valid_name(n@)
                    &&& offset < end <= stream@.len()
                },
                Err(_) => spec_parse_name(stream@, offset as int) is None,
            },
    {
        let r = Self::unserialize_rec(stream, offset, POINTER_BUDGET, 0);
        proof {
            if r is Ok {
                let (n, end) = r->Ok_0;
                lemma_parse_enc_len(stream@, offset as int, POINTER_BUDGET as nat, 0);
            }
        }
        r
    }

    /// Recursive worker for `unserialize`, mirroring `spec_parse_name_rec`.
    fn unserialize_rec(stream: &[u8], offset: usize, fuel: u8, acc: usize) -> (r: Result<
        (Name, usize),
        DecodeError,
    >)
        requires
            acc <= 254,
        ensures
            match r {
                Ok((n, end)) => {
                    &&& spec_parse_name_rec(stream@, offset as int, fuel as nat, acc as int)
                        == Some((n@, end as int))
                    &&& offset < end <= stream@.len()
                },
                Err(_) => spec_parse_name_rec(stream@, offset as int, fuel as nat, acc as int)
                    is None,
            },
        decreases fuel, stream@.len() - offset,
    {
        if offset >= stream.len() {
            return Err(DecodeError::Truncated);
        }
        let b = stream[offset];
        if b == 0 {
            return Ok((Name { labels: Vec::new() }, offset + 1));
        }
        if b >= 192 {
            if offset + 1 >= stream.len() {
                return Err(DecodeError::Truncated);
            }
            if fuel == 0 {
                return Err(DecodeError::PointerLoop);
            }
            let target = (b as usize - 192) * 256 + stream[offset + 1] as usize;
            match Self::unserialize_rec(stream, target, fuel - 1, acc) {
                Ok((n, _)) => {
                    return Ok((n, offset + 2));
                },
                Err(e) => {
                    return Err(e);
                },
            }
        }
        // a plain label
        match Label::unserialize(stream, offset) {
            Ok((label, end)) => {
                if acc + 1 + label.len() > 254 {
                    return Err(DecodeError::NameTooLong);
                }
                match Self::unserialize_rec(stream, end, fuel, acc + 1 + label.len()) {
                    Ok((mut n, end2)) => {
                        n.labels.insert(0, label);
                        proof {
                            let s = stream@;
                            let i = offset as int;
                            let len = s[i] as int;
                            assert(n@ =~= seq![s.subrange(i + 1, i + 1 + len)]
                                + n@.drop_first());
                        }
                        Ok((n, end2))
                    },
                    Err(e) => Err(e),
                }
            },
            Err(e) => {
                proof {
                    let s = stream@;
                    let i = offset as int;
                    let len = s[i] as int;
                    if 1 <= len <= 63 && i + 1 + len <= s.len() {
                        assert(spec_parse_label(s, i) is None);
                    }
                }
                Err(e)
            },
        }
    }

    /// Appends this name's wire form to `bytes`, compressing against (and
    /// extending) the per-message table: emits the labels the table does not
    /// yet know, then either a two-byte pointer to the known suffix or the
    /// zero terminator. Decoding the appended bytes yields the name back and
    /// consumes exactly what was emitted.
    #[verifier::rlimit(100)]
    #[verifier::spinoff_prover]
    pub fn serialize(&self, bytes: &mut Vec<u8>, tree: &mut LabelTree)
        requires
            valid_name(self@),
            old(tree).wf(),
            old(tree).buf@ == old(bytes)@,
        ensures
            final(tree).wf(),
            final(tree).buf@ == final(bytes)@,
            final(bytes)@.len() > old(bytes)@.len(),
            final(bytes)@.subrange(0, old(bytes)@.len() as int) == old(bytes)@,
            spec_parse_name(final(bytes)@, old(bytes)@.len() as int) == Some(
                (self@, final(bytes)@.len() as int),
            ),
            final(bytes)@.len() <= old(bytes)@.len() + name_enc_len(self@) + 1,
            ({
                // what was emitted: the labels the table did not know,
                // length-prefixed, then a pointer to the deepest known
                // suffix, or the terminator when nothing matched
                let t0 = old(tree).elements@;
                let n = self@.len() as int;
                let k = best_suffix_len(t0, self@);
                let head = old(bytes)@ + spec_encode_plain(self@.take(n - k));
                if k == 0 {
                    final(bytes)@ == head + seq![0u8]
                } else {
                    exists|e: int|
                        0 <= e < t0.len() && #[trigger] reaches_to(
                            t0,
                            0,
                            self@.subrange(n - k, n).reverse(),
                            e,
                        ) && final(bytes)@ == head + seq![
                            (192 + t0[e].referenced_label.position / 256) as u8,
                            (t0[e].referenced_label.position % 256) as u8,
                        ]
                }
            }),
    {
        let ghost old_bytes = bytes@;
        let ghost t = tree.elements@;
        let n = self.labels.len();
        proof {
            assert(forall|i: int| 0 <= i < n ==> #[trigger] self.labels@[i]@ == self@[i]);
            assert(forall|i: int| 0 <= i < n ==> valid_label(#[trigger] self@[i]));
            lemma_enc_len_lower(self@);
        }
        let reference = tree.find_best_reference(self);
        let k = reference.index;
        let emit_count = n - k;
        let ghost pref = self@.take(emit_count as int);
        let ghost suffix = self@.subrange(emit_count as int, n as int);
        proof {
            assert(pref + suffix =~= self@);
            lemma_enc_len_concat(pref, suffix);
            assert(pref.take(0) =~= Seq::<Seq<u8>>::empty());
            assert(spec_encode_plain(pref.take(0)) =~= Seq::<u8>::empty());
            assert(bytes@ =~= old_bytes + Seq::<u8>::empty());
            lemma_enc_len_nonneg(pref);
            lemma_enc_len_nonneg(suffix);
        }
        // the labels the table does not know yet, with their offsets
        let mut positions: Vec<usize> = Vec::new();
        let mut i: usize = 0;
        while i < emit_count
            invariant
                i <= emit_count <= n,
                n == self.labels@.len() == self@.len(),
                valid_name(self@),
                pref == self@.take(emit_count as int),
                positions@.len() == i,
                forall|m: int|
                    0 <= m < i ==> #[trigger] positions@[m] == old_bytes.len() + name_enc_len(
                        self@.take(m),
                    ),
                bytes@ == old_bytes + spec_encode_plain(self@.take(i as int)),
            decreases emit_count - i,
        {
            proof {
                lemma_encode_plain_len(self@.take(i as int));
                lemma_enc_len_nonneg(self@.take(i as int));
                assert(name_enc_len(self@.take(i as int)) <= name_enc_len(self@)) by {
                    assert(self@.take(i as int) + self@.subrange(i as int, n as int) =~= self@);
                    lemma_enc_len_concat(
                        self@.take(i as int),
                        self@.subrange(i as int, n as int),
                    );
                    lemma_enc_len_nonneg(self@.subrange(i as int, n as int));
                }
            }
            positions.push(bytes.len());
            proof {
                assert(self.labels@[i as int]@ == self@[i as int]);
                assert(valid_label(self@[i as int]));
            }
            self.labels[i].serialize(bytes);
            i = i + 1;
            proof {
                assert(self@.take(i as int) =~= self@.take(i - 1).push(self@[i - 1]));
                lemma_encode_plain_concat(self@.take(i - 1), seq![self@[i - 1]]);
                assert(self@.take(i - 1).push(self@[i - 1]) =~= self@.take(i - 1) + seq![
                    self@[i - 1],
                ]);
                lemma_encode_plain_singleton(self@[i - 1]);
                assert(bytes@ =~= old_bytes + spec_encode_plain(self@.take(i as int)));
            }
        }
        let ghost plain_end = old_bytes.len() + name_enc_len(pref);
        proof {
            lemma_encode_plain_len(pref);
            assert(bytes@.len() == plain_end);
        }
        // the known suffix as a pointer, or the terminator
        if reference.is_valid() {
            let ghost e = choose|e: int|
                1 <= e < t.len() && #[trigger] t[e].suffix@ == suffix
                    && t[e].referenced_label.position == reference.position && reaches_to(
                    t,
                    0,
                    suffix.reverse(),
                    e,
                );
            proof {
                assert(t[e].referenced_label.position < 16384);
            }
            let p = reference.position;
            bytes.push(192 + (p / 256) as u8);
            bytes.push((p % 256) as u8);
            proof {
                let s = bytes@;
                let appended = s.subrange(old_bytes.len() as int, s.len() as int);
                assert(s =~= old_bytes + appended);
                // the stamped offset parses to the suffix in the old buffer,
                // hence in the extended one, with enough fuel and the
                // emitted labels accumulated
                assert(suffix.len() == k);
                lemma_parse_extend(old_bytes, appended, p as int, suffix.len() as nat, 0);
                lemma_parse_fuel_mono(s, p as int, suffix.len() as nat, 127, 0);
                lemma_parse_acc(s, p as int, 127, 0, name_enc_len(pref));
                assert(name_enc_len(pref) + name_enc_len(suffix) <= 254);
                assert(spec_parse_name_rec(s, p as int, 127, name_enc_len(pref)) is Some);
                assert(spec_parse_name_rec(s, p as int, 127, name_enc_len(pref))->Some_0.0
                    == suffix);
                // the two pointer bytes decode back to the stamped offset
                assert(s[plain_end] == 192 + (p / 256) as u8);
                assert(s[plain_end + 1] == (p % 256) as u8);
                assert(s[plain_end] >= 192);
                assert((s[plain_end] - 192) * 256 + s[plain_end + 1] == p as int);
                assert(spec_parse_name_rec(s, plain_end, 128, name_enc_len(pref)) == Some(
                    (suffix, plain_end + 2),
                ));
                // prepend the emitted labels
                assert(s.subrange(old_bytes.len() as int, plain_end) =~= spec_encode_plain(pref));
                lemma_parse_plain(s, old_bytes.len() as int, pref, 128, 0);
                assert(pref + suffix =~= self@);
                assert(spec_parse_name(s, old_bytes.len() as int) == Some(
                    (self@, s.len() as int),
                ));
                // the emitted bytes are exactly the unknown labels plus the
                // two pointer bytes to the deepest known suffix
                assert(s =~= old_bytes + spec_encode_plain(pref) + seq![
                    s[plain_end],
                    s[plain_end + 1],
                ]);
                assert(s[plain_end] == (192 + t[e].referenced_label.position / 256) as u8);
                assert(s[plain_end + 1] == (t[e].referenced_label.position % 256) as u8);
                assert(pref == self@.take(n as int - best_suffix_len(t, self@)));
                assert(suffix == self@.subrange(
                    n as int - best_suffix_len(t, self@),
                    n as int,
                ));
                assert(0 <= e < t.len() && reaches_to(
                    t,
                    0,
                    self@.subrange(n as int - best_suffix_len(t, self@), n as int).reverse(),
                    e,
                ) && s == old_bytes + spec_encode_plain(
                    self@.take(n as int - best_suffix_len(t, self@)),
                ) + seq![
                    (192 + t[e].referenced_label.position / 256) as u8,
                    (t[e].referenced_label.position % 256) as u8,
                ]);
            }
        } else {
            bytes.push(0);
            proof {
                let s = bytes@;
                assert(s[plain_end] == 0);
                assert(spec_parse_name_rec(s, plain_end, 128, name_enc_len(pref)) == Some(
                    (Seq::<Seq<u8>>::empty(), plain_end + 1),
                ));
                assert(k == 0 && pref =~= self@);
                assert(s.subrange(old_bytes.len() as int, plain_end) =~= spec_encode_plain(pref));
                lemma_parse_plain(s, old_bytes.len() as int, pref, 128, 0);
                assert(pref + Seq::<Seq<u8>>::empty() =~= self@);
                assert(spec_parse_name(s, old_bytes.len() as int) == Some(
                    (self@, s.len() as int),
                ));
                // the emitted bytes are the whole name plus the terminator
                assert(best_suffix_len(t, self@) == 0);
                assert(s =~= old_bytes + spec_encode_plain(pref) + seq![0u8]);
                assert(pref == self@.take(n as int - best_suffix_len(t, self@)));
            }
        }
        let ghost final_bytes = bytes@;
        let ghost appended = final_bytes.subrange(old_bytes.len() as int, final_bytes.len() as int);
        proof {
            assert(final_bytes =~= old_bytes + appended);
            assert(final_bytes.subrange(0, old_bytes.len() as int) =~= old_bytes);
            if k > 0 {
                assert forall|m: int| 0 <= m < suffix.len() implies #[trigger] suffix[m].len()
                    >= 1 by {
                    assert(suffix[m] == self@[emit_count + m]);
                    assert(valid_label(self@[emit_count + m]));
                }
                lemma_enc_len_lower(suffix);
            }
        }
        // the table now describes the grown buffer
        tree.buf = Ghost(final_bytes);
        proof {
            assert forall|ei: int| 1 <= ei < tree.elements@.len() implies {
                let el = #[trigger] tree.elements@[ei];
                &&& el.referenced_label.position < 16384
                &&& 1 <= el.suffix@.len()
                &&& valid_name(el.suffix@)
                &&& spec_parse_name_rec(
                    final_bytes,
                    el.referenced_label.position as int,
                    el.suffix@.len() as nat,
                    0,
                ) is Some
                &&& spec_parse_name_rec(
                    final_bytes,
                    el.referenced_label.position as int,
                    el.suffix@.len() as nat,
                    0,
                )->Some_0.0 == el.suffix@
            } by {
                let el = tree.elements@[ei];
                lemma_parse_extend(
                    old_bytes,
                    appended,
                    el.referenced_label.position as int,
                    el.suffix@.len() as nat,
                    0,
                );
            }
            assert(tree.wf());
        }
        // remember the labels just emitted, keyed root-down
        if bytes.len() <= 16383 {
            proof {
                assert forall|m: int| 0 <= m < n - k implies #[trigger] positions@[m] < 16384 by {
                    assert(positions@[m] == old_bytes.len() + name_enc_len(self@.take(m)));
                    assert(self@.take(m) + self@.subrange(m, emit_count as int) =~= pref);
                    lemma_enc_len_concat(self@.take(m), self@.subrange(m, emit_count as int));
                    lemma_enc_len_nonneg(self@.subrange(m, emit_count as int));
                    assert(positions@[m] <= plain_end);
                    assert(plain_end < final_bytes.len());
                }
            }
            let mut rls: Vec<ReferencedLabel> = Vec::new();
            let mut j: usize = 0;
            while j < n
                invariant
                    j <= n,
                    n == self.labels@.len() == self@.len(),
                    k <= n,
                    rls@.len() == j,
                    positions@.len() == n - k,
                    forall|m: int|
                        0 <= m < n - k ==> #[trigger] positions@[m] == old_bytes.len()
                            + name_enc_len(self@.take(m)),
                    forall|m: int|
                        0 <= m < n - k ==> #[trigger] positions@[m] < 16384,
                    forall|m: int|
                        0 <= m < j ==> #[trigger] rls@[m].label@ == self@[n - 1 - m],
                    forall|m: int|
                        k <= m < j ==> #[trigger] rls@[m].position == positions@[n - 1 - m],
                    forall|m: int| 0 <= m < j && m < k ==> #[trigger] rls@[m].position == 0,
                    bytes@ == final_bytes,
                    final_bytes.len() <= 16383,
                decreases n - j,
            {
                proof {
                    if j >= k {
                        assert(positions@[n - 1 - j] < 16384);
                    }
                }
                let pos: u16 = if j >= k {
                    positions[n - 1 - j] as u16
                } else {
                    0
                };
                rls.push(ReferencedLabel::new(self.labels[n - 1 - j].clone(), pos));
                j = j + 1;
            }
            proof {
                let s = final_bytes;
                let lbls = rls_labels(rls@);
                assert(lbls.len() == n);
                assert(forall|m: int| 0 <= m < n ==> #[trigger] lbls[m] == self@[n - 1 - m]);
                assert forall|j: int| 0 <= j < rls@.len() implies rl_claim(
                    #[trigger] rls@[j],
                    rls_labels(rls@).take(j + 1).reverse(),
                    tree.buf@,
                ) || reaches(tree.elements@, 0, rls_labels(rls@).take(j + 1)) by {
                    if j < k {
                        let sufk_r = suffix.reverse();
                        let end0 = choose|end0: int| #[trigger] reaches_to(t, 0, sufk_r, end0);
                        lemma_reaches_prefix(t, 0, sufk_r, end0, j + 1);
                        assert(sufk_r.take(j + 1) =~= lbls.take(j + 1));
                    } else {
                        let i = n - 1 - j;
                        let suffix_j = lbls.take(j + 1).reverse();
                        assert(suffix_j =~= self@.subrange(i, n as int));
                        let prefix_j = self@.subrange(i, emit_count as int);
                        let pos = positions@[i] as int;
                        assert(rls@[j].position == positions@[i]);
                        assert(pos == old_bytes.len() + name_enc_len(self@.take(i)));
                        assert(self@.take(i) + prefix_j =~= pref);
                        lemma_encode_plain_concat(self@.take(i), prefix_j);
                        lemma_encode_plain_len(self@.take(i));
                        lemma_encode_plain_len(prefix_j);
                        lemma_encode_plain_len(pref);
                        lemma_enc_len_nonneg(self@.take(i));
                        lemma_enc_len_nonneg(prefix_j);
                        lemma_enc_len_concat(self@.take(i), prefix_j);
                        assert(s.subrange(old_bytes.len() as int, plain_end) =~= spec_encode_plain(
                            pref,
                        ));
                        assert(pos + name_enc_len(prefix_j) == plain_end);
                        assert(s.subrange(pos, plain_end) =~= spec_encode_plain(prefix_j)) by {
                            let shift = name_enc_len(self@.take(i));
                            assert(forall|m: int|
                                0 <= m < name_enc_len(prefix_j) ==> #[trigger] s.subrange(
                                    pos,
                                    plain_end,
                                )[m] == s.subrange(old_bytes.len() as int, plain_end)[shift + m]
                                    && spec_encode_plain(pref)[shift + m] == spec_encode_plain(
                                    prefix_j,
                                )[m]);
                        }
                        assert(prefix_j + suffix =~= suffix_j);
                        lemma_enc_len_concat(prefix_j, suffix);
                        assert(forall|m: int|
                            0 <= m < suffix_j.len() ==> valid_label(#[trigger] suffix_j[m]));
                        assert(name_enc_len(suffix_j) <= 254) by {
                            lemma_enc_len_concat(pref, suffix);
                        }
                        // the bytes after the emitted labels parse with fuel j + 1
                        // and the emitted prefix accumulated
                        if k > 0 {
                            let e2 = choose|e2: int|
                                1 <= e2 < t.len() && #[trigger] t[e2].suffix@ == suffix
                                    && t[e2].referenced_label.position == reference.position;
                            let p = reference.position;
                            assert(spec_parse_name_rec(s, p as int, k as nat, 0) is Some
                                && spec_parse_name_rec(s, p as int, k as nat, 0)->Some_0.0
                                == suffix);
                            if j > k {
                                lemma_parse_fuel_mono(s, p as int, k as nat, j as nat, 0);
                            }
                            lemma_parse_acc(s, p as int, j as nat, 0, name_enc_len(prefix_j));
                            assert(s[plain_end] == 192 + (p / 256) as u8);
                            assert(s[plain_end + 1] == (p % 256) as u8);
                            assert(s[plain_end] >= 192);
                            assert((s[plain_end] - 192) * 256 + s[plain_end + 1] == p as int);
                            assert(spec_parse_name_rec(
                                s,
                                plain_end,
                                (j + 1) as nat,
                                name_enc_len(prefix_j),
                            ) == Some((suffix, plain_end + 2)));
                        } else {
                            assert(s[plain_end] == 0);
                            assert(suffix =~= Seq::<Seq<u8>>::empty());
                            assert(spec_parse_name_rec(
                                s,
                                plain_end,
                                (j + 1) as nat,
                                name_enc_len(prefix_j),
                            ) == Some((suffix, plain_end + 1)));
                        }
                        lemma_parse_plain(s, pos, prefix_j, (j + 1) as nat, 0);
                        assert(spec_parse_name_rec(s, pos, (j + 1) as nat, 0)->Some_0.0
                            == prefix_j + suffix);
                        assert(rl_claim(rls@[j], suffix_j, s));
                        assert(rls_labels(rls@).take(j + 1).reverse() == suffix_j);
                    }
                }
            }
            tree.insert(rls);
        }
    }

    /// The display form of this name: its labels joined with `.` (the empty
    /// name displays as the empty string).
    pub fn get_string(&self) -> (r: String)
        requires
            forall|i: int|
                #![trigger self@[i]]
                0 <= i < self@.len() ==> (forall|j: int|
                    0 <= j < self@[i].len() ==> #[trigger] self@[i][j] < 128),
        ensures
            r@ == spec_name_string(self@),
    {
        let mut r = String::new();
        let mut i: usize = 0;
        proof {
            assert(self@.take(0) =~= Seq::<Seq<u8>>::empty());
            assert(r@ =~= spec_name_string(self@.take(0)));
        }
        while i < self.labels.len()
            invariant
                i <= self.labels@.len() == self@.len(),
                forall|m: int|
                    #![trigger self@[m]]
                    0 <= m < self@.len() ==> (forall|j: int|
                        0 <= j < self@[m].len() ==> #[trigger] self@[m][j] < 128),
                r@ == spec_name_string(self@.take(i as int)),
            decreases self.labels@.len() - i,
        {
            if i > 0 {
                r.append(".");
                proof {
                    reveal_strlit(".");
                    assert("."@ =~= seq!['.']);
                }
            }
            proof {
                assert(self.labels@[i as int]@ == self@[i as int]);
                assert(forall|j: int|
                    0 <= j < self@[i as int].len() ==> #[trigger] self@[i as int][j] < 128);
            }
            let label_str = self.labels[i].as_str();
            r.append(label_str.as_str());
            i = i + 1;
            proof {
                assert(label_str@ =~= chars_of(self@[i - 1]));
                assert(self@.take(i as int).drop_last() =~= self@.take(i - 1));
                assert(self@.take(i as int).last() == self@[i - 1]);
                assert(r@ =~= spec_name_string(self@.take(i as int)));
            }
        }
        proof {
            assert(self@.take(self@.len() as int) =~= self@);
        }
        r
    }

    /// The labels of this name.
    pub fn as_labels(&self) -> (r: &Vec<Label>)
        ensures
            r@.len() == self@.len(),
            forall|i: int| 0 <= i < self@.len() ==> #[trigger] r@[i]@ == self@[i],
    {
        &self.labels
    }
}

/// Splitting a label sequence splits its encoded length.
pub proof fn lemma_enc_len_concat(a: Seq<Seq<u8>>, b: Seq<Seq<u8>>)
    ensures
        name_enc_len(a + b) == name_enc_len(a) + name_enc_len(b),
    decreases a.len(),
{
    if a.len() == 0 {
        assert(a + b =~= b);
    } else {
        assert((a + b).drop_first() =~= a.drop_first() + b);
        assert((a + b)[0] == a[0]);
        lemma_enc_len_concat(a.drop_first(), b);
    }
}

/// The plain encoding occupies exactly the encoded length.
pub proof fn lemma_encode_plain_len(ls: Seq<Seq<u8>>)
    ensures
        spec_encode_plain(ls).len() == name_enc_len(ls),
    decreases ls.len(),
{
    if ls.len() > 0 {
        lemma_encode_plain_len(ls.drop_first());
    }
}

/// The plain encoding of a single label: its length byte, then its bytes.
pub proof fn lemma_encode_plain_singleton(l: Seq<u8>)
    ensures
        spec_encode_plain(seq![l]) == seq![l.len() as u8] + l,
{
    let ls = seq![l];
    assert(ls.len() == 1);
    assert(ls[0] == l);
    assert(ls.drop_first() =~= Seq::<Seq<u8>>::empty());
    assert(spec_encode_plain(Seq::<Seq<u8>>::empty()) =~= Seq::<u8>::empty());
    assert(spec_encode_plain(ls) =~= seq![l.len() as u8] + l);
}

/// Splitting a label sequence splits its plain encoding.
pub proof fn lemma_encode_plain_concat(a: Seq<Seq<u8>>, b: Seq<Seq<u8>>)
    ensures
        spec_encode_plain(a + b) == spec_encode_plain(a) + spec_encode_plain(b),
    decreases a.len(),
{
    if a.len() == 0 {
        assert(a + b =~= b);
        assert(spec_encode_plain(a) + spec_encode_plain(b) =~= spec_encode_plain(b));
    } else {
        assert((a + b).drop_first() =~= a.drop_first() + b);
        assert((a + b)[0] == a[0]);
        lemma_encode_plain_concat(a.drop_first(), b);
        assert(seq![a[0].len() as u8] + a[0] + (spec_encode_plain(a.drop_first())
            + spec_encode_plain(b)) =~= (seq![a[0].len() as u8] + a[0] + spec_encode_plain(
            a.drop_first(),
        )) + spec_encode_plain(b));
    }
}

/// A sequence of nonempty labels encodes to at least two bytes per label.
pub proof fn lemma_enc_len_lower(ls: Seq<Seq<u8>>)
    requires
        forall|i: int| 0 <= i < ls.len() ==> #[trigger] ls[i].len() >= 1,
    ensures
        name_enc_len(ls) >= 2 * ls.len(),
    decreases ls.len(),
{
    if ls.len() > 0 {
        assert(forall|i: int|
            0 <= i < ls.drop_first().len() ==> #[trigger] ls.drop_first()[i].len() >= 1);
        lemma_enc_len_lower(ls.drop_first());
    }
}

/// Parsing a plain label run: if the bytes at `o` are the plain encoding of
/// `prefix` and the bytes after it parse to some labels, then parsing at `o`
/// yields `prefix` followed by those labels, ending where they end.
pub proof fn lemma_parse_plain(s: Seq<u8>, o: int, prefix: Seq<Seq<u8>>, fuel: nat, acc: int)
    requires
        0 <= acc,
        acc + name_enc_len(prefix) <= 254,
        forall|i: int| 0 <= i < prefix.len() ==> valid_label(#[trigger] prefix[i]),
        0 <= o,
        o + name_enc_len(prefix) <= s.len(),
        s.subrange(o, o + name_enc_len(prefix)) == spec_encode_plain(prefix),
        spec_parse_name_rec(s, o + name_enc_len(prefix), fuel, acc + name_enc_len(prefix)) is Some,
    ensures
        spec_parse_name_rec(s, o, fuel, acc) is Some,
        spec_parse_name_rec(s, o, fuel, acc)->Some_0.0 == prefix + spec_parse_name_rec(
            s,
            o + name_enc_len(prefix),
            fuel,
            acc + name_enc_len(prefix),
        )->Some_0.0,
        spec_parse_name_rec(s, o, fuel, acc)->Some_0.1 == spec_parse_name_rec(
            s,
            o + name_enc_len(prefix),
            fuel,
            acc + name_enc_len(prefix),
        )->Some_0.1,
    decreases prefix.len(),
{
    if prefix.len() == 0 {
        let tail = spec_parse_name_rec(s, o, fuel, acc)->Some_0.0;
        assert(prefix + tail =~= tail);
    } else {
        let l0 = prefix[0];
        let rest = prefix.drop_first();
        let len = l0.len() as int;
        lemma_enc_len_nonneg(rest);
        assert(name_enc_len(prefix) == 1 + len + name_enc_len(rest));
        lemma_encode_plain_len(rest);
        let plain = spec_encode_plain(prefix);
        assert(plain[0] == l0.len() as u8);
        assert(s[o] == plain[0]);
        assert(1 <= len <= 63);
        assert(s[o] as int == len);
        assert(s.subrange(o + 1, o + 1 + len) =~= l0) by {
            assert(forall|i: int| 0 <= i < len ==> #[trigger] plain[1 + i] == l0[i]);
            assert(forall|i: int|
                0 <= i < len ==> #[trigger] s.subrange(o + 1, o + 1 + len)[i] == s[o + 1 + i] && s[
                    o + 1 + i] == plain[1 + i]);
        }
        assert(s.subrange(o + 1 + len, o + 1 + len + name_enc_len(rest)) =~= spec_encode_plain(
            rest,
        )) by {
            assert(forall|i: int|
                0 <= i < name_enc_len(rest) ==> #[trigger] s.subrange(
                    o + 1 + len,
                    o + 1 + len + name_enc_len(rest),
                )[i] == s[o + 1 + len + i] && s[o + 1 + len + i] == plain[1 + len + i]
                    && plain[1 + len + i] == spec_encode_plain(rest)[i]);
        }
        assert(forall|i: int| 0 <= i < rest.len() ==> valid_label(#[trigger] rest[i])) by {
            assert(forall|i: int|
                0 <= i < rest.len() ==> #[trigger] rest[i] == prefix[i + 1] && valid_label(
                    prefix[i + 1],
                ));
        }
        lemma_parse_plain(s, o + 1 + len, rest, fuel, acc + 1 + len);
        let tail = spec_parse_name_rec(s, o + name_enc_len(prefix), fuel, acc + name_enc_len(
            prefix,
        ))->Some_0.0;
        let inner = spec_parse_name_rec(s, o + 1 + len, fuel, acc + 1 + len)->Some_0.0;
        assert(inner == rest + tail);
        assert(spec_parse_name_rec(s, o, fuel, acc)->Some_0.0 == seq![s.subrange(
            o + 1,
            o + 1 + len,
        )] + inner);
        assert(seq![l0] + (rest + tail) =~= prefix + tail);
    }
}

/// A byte sequence read as characters, one per byte.
pub open spec fn chars_of(s: Seq<u8>) -> Seq<char> {
    Seq::new(s.len(), |i: int| s[i] as char)
}

/// The display form of a name: its labels joined with `.`.
pub open spec fn spec_name_string(ls: Seq<Seq<u8>>) -> Seq<char>
    decreases ls.len(),
{
    if ls.len() == 0 {
        Seq::empty()
    } else if ls.len() == 1 {
        chars_of(ls.last())
    } else {
        spec_name_string(ls.drop_last()) + seq!['.'] + chars_of(ls.last())
    }
}

impl From<&str> for Name {
    /// Splits a dotted name into labels. The labels are not validated;
    /// `Label::is_valid` tells whether each may go on the wire.
    fn from(value: &str) -> (r: Self) {
        let bytes = value.as_bytes();
        let mut labels: Vec<Label> = Vec::new();
        let mut current: Vec<u8> = Vec::new();
        let mut i: usize = 0;
        while i < bytes.len()
            decreases bytes@.len() - i,
        {
            let b = bytes[i];
            if b == 46 {
                labels.push(Label { value: current });
                current = Vec::new();
            } else {
                current.push(b);
            }
            i = i + 1;
        }
        labels.push(Label { value: current });
        Name { labels }
    }
}

impl vstd::std_specs::convert::FromSpecImpl<&str> for Name {
    open spec fn obeys_from_spec() -> bool {
        false
    }

    open spec fn from_spec(v: &str) -> Name {
        arbitrary()
    }
}

/// A successful parse starts in bounds and ends past its start, within the
/// stream.
pub proof fn lemma_parse_bounds(s: Seq<u8>, i: int, fuel: nat, acc: int)
    requires
        spec_parse_name_rec(s, i, fuel, acc) is Some,
    ensures
        0 <= i < s.len(),
        i < spec_parse_name_rec(s, i, fuel, acc)->Some_0.1 <= s.len(),
    decreases fuel, s.len() - i,
{
    if s[i] == 0 {
    } else if s[i] >= 192 {
    } else {
        let len = s[i] as int;
        lemma_parse_bounds(s, i + 1 + len, fuel, acc + 1 + len);
    }
}

/// The encoded length of a label sequence is never negative.
pub proof fn lemma_enc_len_nonneg(ls: Seq<Seq<u8>>)
    ensures
        name_enc_len(ls) >= 0,
    decreases ls.len(),
{
    if ls.len() > 0 {
        lemma_enc_len_nonneg(ls.drop_first());
    }
}

/// A successful parse accounts for the cap: the accumulated length plus the
/// parsed labels' encoded length stays within the 255-byte limit, and every
/// parsed label is valid.
pub proof fn lemma_parse_enc_len(s: Seq<u8>, i: int, fuel: nat, acc: int)
    requires
        spec_parse_name_rec(s, i, fuel, acc) is Some,
        0 <= acc <= 254,
    ensures
        acc + name_enc_len(spec_parse_name_rec(s, i, fuel, acc)->Some_0.0) <= 254,
        valid_name(spec_parse_name_rec(s, i, fuel, acc)->Some_0.0),
    decreases fuel, s.len() - i,
{
    let ls = spec_parse_name_rec(s, i, fuel, acc)->Some_0.0;
    if s[i] == 0 {
        assert(name_enc_len(ls) == 0);
    } else if s[i] >= 192 {
        let target = (s[i] - 192) * 256 + s[i + 1];
        lemma_parse_enc_len(s, target, (fuel - 1) as nat, acc);
    } else {
        let len = s[i] as int;
        lemma_parse_enc_len(s, i + 1 + len, fuel, acc + 1 + len);
        let rest = spec_parse_name_rec(s, i + 1 + len, fuel, acc + 1 + len)->Some_0.0;
        assert(ls.drop_first() =~= rest);
        assert(ls[0] =~= s.subrange(i + 1, i + 1 + len));
        assert(ls[0].len() == len);
        assert(name_enc_len(ls) == 1 + len + name_enc_len(rest));
        assert(forall|j: int| 0 <= j < ls.len() ==> valid_label(#[trigger] ls[j])) by {
            assert(forall|j: int|
                1 <= j < ls.len() ==> #[trigger] ls[j] == rest[j - 1] && valid_label(
                    rest[j - 1],
                ));
        }
    }
}

/// More fuel cannot change a successful parse.
pub proof fn lemma_parse_fuel_mono(s: Seq<u8>, i: int, fuel: nat, fuel2: nat, acc: int)
    requires
        spec_parse_name_rec(s, i, fuel, acc) is Some,
        fuel2 >= fuel,
    ensures
        spec_parse_name_rec(s, i, fuel2, acc) == spec_parse_name_rec(s, i, fuel, acc),
    decreases fuel, s.len() - i,
{
    if s[i] == 0 {
    } else if s[i] >= 192 {
        let target = (s[i] - 192) * 256 + s[i + 1];
        lemma_parse_fuel_mono(s, target, (fuel - 1) as nat, (fuel2 - 1) as nat, acc);
    } else {
        let len = s[i] as int;
        lemma_parse_fuel_mono(s, i + 1 + len, fuel, fuel2, acc + 1 + len);
    }
}

/// A successful parse is unchanged when the accumulated length changes, as
/// long as the cap still holds for the parsed labels.
pub proof fn lemma_parse_acc(s: Seq<u8>, i: int, fuel: nat, acc: int, acc2: int)
    requires
        spec_parse_name_rec(s, i, fuel, acc) is Some,
        acc2 + name_enc_len(spec_parse_name_rec(s, i, fuel, acc)->Some_0.0) <= 254,
        acc2 >= 0,
    ensures
        spec_parse_name_rec(s, i, fuel, acc2) == spec_parse_name_rec(s, i, fuel, acc),
    decreases fuel, s.len() - i,
{
    let ls = spec_parse_name_rec(s, i, fuel, acc)->Some_0.0;
    if s[i] == 0 {
    } else if s[i] >= 192 {
        let target = (s[i] - 192) * 256 + s[i + 1];
        lemma_parse_acc(s, target, (fuel - 1) as nat, acc, acc2);
    } else {
        let len = s[i] as int;
        let rest = spec_parse_name_rec(s, i + 1 + len, fuel, acc + 1 + len)->Some_0.0;
        assert(ls.drop_first() =~= rest);
        assert(ls[0] =~= s.subrange(i + 1, i + 1 + len));
        assert(ls[0].len() == len);
        assert(name_enc_len(ls) == 1 + len + name_enc_len(rest));
        lemma_enc_len_nonneg(rest);
        lemma_parse_acc(s, i + 1 + len, fuel, acc + 1 + len, acc2 + 1 + len);
    }
}

/// Appending bytes to the stream does not change a successful parse at an
/// offset within the original bytes.
pub proof fn lemma_parse_extend(s: Seq<u8>, t: Seq<u8>, i: int, fuel: nat, acc: int)
    requires
        spec_parse_name_rec(s, i, fuel, acc) is Some,
    ensures
        spec_parse_name_rec(s + t, i, fuel, acc) == spec_parse_name_rec(s, i, fuel, acc),
    decreases fuel, s.len() - i,
{
    let st = s + t;
    assert(forall|j: int| 0 <= j < s.len() ==> #[trigger] st[j] == s[j]);
    if s[i] == 0 {
    } else if s[i] >= 192 {
        let target = (s[i] - 192) * 256 + s[i + 1];
        lemma_parse_extend(s, t, target, (fuel - 1) as nat, acc);
    } else {
        let len = s[i] as int;
        assert(st.subrange(i + 1, i + 1 + len) =~= s.subrange(i + 1, i + 1 + len));
        lemma_parse_extend(s, t, i + 1 + len, fuel, acc + 1 + len);
        let ls = spec_parse_name_rec(s, i, fuel, acc)->Some_0.0;
        let rest = spec_parse_name_rec(s, i + 1 + len, fuel, acc + 1 + len)->Some_0.0;
        assert(seq![st.subrange(i + 1, i + 1 + len)] + rest =~= seq![
            s.subrange(i + 1, i + 1 + len),
        ] + rest);
    }
}

} // verus!
