//! The per-message compression table: a trie of already-emitted label
//! suffixes keyed root-down by the least-significant label, each node
//! stamped with the byte offset at which that suffix was emitted.
//!
//! Every node carries (as ghost data) the suffix it stands for, in name
//! order. Well-formedness ties each node's stamped offset to the output
//! buffer: parsing the buffer at that offset yields exactly the node's
//! suffix. `Name::serialize` maintains this as the buffer grows.

use vstd::prelude::*;

use crate::label::Label;
use crate::name::{name_enc_len, spec_parse_name_rec, valid_name};

verus! {

/// A label together with the byte offset at which it was emitted.
#[derive(Debug)]
pub struct ReferencedLabel {
    pub label: Label,
    pub position: u16,
}

impl Clone for ReferencedLabel {
    fn clone(&self) -> (r: Self)
        ensures
            r.label@ == self.label@,
            r.position == self.position,
    {
        ReferencedLabel { label: self.label.clone(), position: self.position }
    }
}

impl ReferencedLabel {
    /// Pairs a label with the offset where it was emitted.
    pub fn new(label: Label, position: u16) -> (r: Self)
        ensures
            r.label@ == label@,
            r.position == position,
    {
        ReferencedLabel { label, position }
    }
}

/// One trie node: its label and offset, its children (indices into the
/// arena), and the suffix it stands for, in name order.
pub struct TreeElement {
    pub referenced_label: ReferencedLabel,
    pub children: Vec<usize>,
    pub suffix: Ghost<Seq<Seq<u8>>>,
}

/// The compression table: an arena of trie nodes rooted at index 0.
pub struct LabelTree {
    pub elements: Vec<TreeElement>,
    /// The output buffer the stamped offsets refer to. `Name::serialize`
    /// keeps this in step with the bytes it appends.
    pub buf: Ghost<Seq<u8>>,
}

/// The result of a table lookup: how many trailing labels of the queried
/// name are already in the buffer, and at which offset they start.
#[derive(Debug)]
pub struct CompressionReference {
    /// The number of trailing labels already emitted.
    pub index: usize,
    /// The byte offset of that suffix in the output buffer.
    pub position: u16,
}

impl CompressionReference {
    /// Whether the lookup found anything to compress against.
    pub fn is_valid(&self) -> (r: bool)
        ensures
            r == (self.index > 0),
    {
        self.index > 0
    }
}

/// Structural well-formedness of the arena: a root standing for the empty
/// suffix, child edges in bounds and consistent with the ghost suffixes,
/// and per-node distinct child labels.
pub open spec fn wf_struct(t: Seq<TreeElement>) -> bool {
    &&& t.len() >= 1
    &&& t[0].suffix@ == Seq::<Seq<u8>>::empty()
    &&& (forall|i: int, j: int|
        0 <= i < t.len() && 0 <= j < t[i].children@.len() ==> {
            let c = #[trigger] t[i].children@[j] as int;
            &&& 0 < c < t.len()
            &&& t[c].suffix@ == seq![t[c].referenced_label.label@] + t[i].suffix@
        })
    &&& (forall|i: int, j1: int, j2: int|
        #![trigger t[i].children@[j1], t[i].children@[j2]]
        0 <= i < t.len() && 0 <= j1 < t[i].children@.len() && 0 <= j2 < t[i].children@.len() && j1
            != j2 ==> t[t[i].children@[j1] as int].referenced_label.label@ != t[t[i].children@[j2] as int].referenced_label.label@)
}

/// Every non-root node's offset points at its suffix in `buf`: parsing
/// there, with one pointer jump allowed per suffix label, yields the suffix.
pub open spec fn wf_parse(t: Seq<TreeElement>, buf: Seq<u8>) -> bool {
    forall|i: int|
        1 <= i < t.len() ==> {
            let e = #[trigger] t[i];
            &&& e.referenced_label.position < 16384
            &&& 1 <= e.suffix@.len()
            &&& valid_name(e.suffix@)
            &&& spec_parse_name_rec(
                buf,
                e.referenced_label.position as int,
                e.suffix@.len() as nat,
                0,
            ) is Some
            &&& spec_parse_name_rec(
                buf,
                e.referenced_label.position as int,
                e.suffix@.len() as nat,
                0,
            )->Some_0.0 == e.suffix@
        }
}

impl LabelTree {
    /// The table is well-formed with respect to its recorded output buffer.
    pub open spec fn wf(self) -> bool {
        wf_struct(self.elements@) && wf_parse(self.elements@, self.buf@)
    }
}

/// The label views of a list of referenced labels, in list order.
pub open spec fn rls_labels(rls: Seq<ReferencedLabel>) -> Seq<Seq<u8>> {
    Seq::new(rls.len(), |j: int| rls[j].label@)
}

/// What `insert` needs to know of one referenced label at depth `j`: its
/// offset is a 14-bit value at which `buf` parses to exactly the suffix the
/// new node will stand for.
pub open spec fn rl_claim(rl: ReferencedLabel, suffix: Seq<Seq<u8>>, buf: Seq<u8>) -> bool {
    &&& rl.position < 16384
    &&& valid_name(suffix)
    &&& suffix.len() >= 1
    &&& spec_parse_name_rec(buf, rl.position as int, suffix.len() as nat, 0) is Some
    &&& spec_parse_name_rec(buf, rl.position as int, suffix.len() as nat, 0)->Some_0.0 == suffix
}

/// Every element's child list is a prefix of itself.
proof fn lemma_children_prefix_refl(t: Seq<TreeElement>)
    ensures
        forall|i: int|
            0 <= i < t.len() ==> #[trigger] t[i].children@.is_prefix_of(t[i].children@),
{
    assert forall|i: int|
        0 <= i < t.len() implies #[trigger] t[i].children@.is_prefix_of(t[i].children@) by {
        assert(t[i].children@ =~= t[i].children@.subrange(0, t[i].children@.len() as int));
    }
}

/// A table well-formed for a buffer stays well-formed when the buffer grows.
pub proof fn lemma_wf_parse_grow(t: Seq<TreeElement>, b1: Seq<u8>, b2: Seq<u8>)
    requires
        wf_parse(t, b1),
        b1.len() <= b2.len(),
        b2.subrange(0, b1.len() as int) == b1,
    ensures
        wf_parse(t, b2),
{
    let ext = b2.subrange(b1.len() as int, b2.len() as int);
    assert(b2 =~= b1 + ext);
    assert forall|i: int| 1 <= i < t.len() implies {
        let e = #[trigger] t[i];
        &&& e.referenced_label.position < 16384
        &&& 1 <= e.suffix@.len()
        &&& valid_name(e.suffix@)
        &&& spec_parse_name_rec(
            b2,
            e.referenced_label.position as int,
            e.suffix@.len() as nat,
            0,
        ) is Some
        &&& spec_parse_name_rec(
            b2,
            e.referenced_label.position as int,
            e.suffix@.len() as nat,
            0,
        )->Some_0.0 == e.suffix@
    } by {
        let e = t[i];
        crate::name::lemma_parse_extend(
            b1,
            ext,
            e.referenced_label.position as int,
            e.suffix@.len() as nat,
            0,
        );
    }
}

/// Whether the root-down path labelled `rpath` exists below `node` and ends
/// at node `end`.
pub open spec fn reaches_to(t: Seq<TreeElement>, node: int, rpath: Seq<Seq<u8>>, end: int) -> bool
    decreases rpath.len(),
{
    if rpath.len() == 0 {
        end == node
    } else {
        exists|j: int|
            0 <= j < t[node].children@.len() && {
                let c = #[trigger] t[node].children@[j] as int;
                0 < c < t.len() && t[c].referenced_label.label@ == rpath[0] && reaches_to(
                    t,
                    c,
                    rpath.drop_first(),
                    end,
                )
            }
    }
}

/// Whether some root-down path labelled `rpath` exists below `node`.
pub open spec fn reaches(t: Seq<TreeElement>, node: int, rpath: Seq<Seq<u8>>) -> bool {
    exists|end: int| #[trigger] reaches_to(t, node, rpath, end)
}

/// The number of trailing labels of `name` whose reversed path the table
/// holds, counting down from `k`: the deepest match within the last `k`
/// labels.
pub open spec fn best_suffix_len_rec(t: Seq<TreeElement>, name: Seq<Seq<u8>>, k: int) -> int
    decreases k,
{
    if k <= 0 {
        0
    } else if reaches(t, 0, name.subrange(name.len() - k, name.len() as int).reverse()) {
        k
    } else {
        best_suffix_len_rec(t, name, k - 1)
    }
}

/// The deepest match for `name` in the table: the largest number of trailing
/// labels whose reversed path exists below the root.
pub open spec fn best_suffix_len(t: Seq<TreeElement>, name: Seq<Seq<u8>>) -> int {
    best_suffix_len_rec(t, name, name.len() as int)
}

/// A lower bound that no deeper match beats is the deepest match.
pub proof fn lemma_best_suffix_from_bounds(t: Seq<TreeElement>, name: Seq<Seq<u8>>, idx: int, hi: int)
    requires
        0 <= idx <= hi <= name.len(),
        idx > 0 ==> reaches(
            t,
            0,
            name.subrange(name.len() - idx, name.len() as int).reverse(),
        ),
        forall|k: int|
            idx < k <= hi ==> !reaches(
                t,
                0,
                #[trigger] name.subrange(name.len() - k, name.len() as int).reverse(),
            ),
    ensures
        best_suffix_len_rec(t, name, hi) == idx,
    decreases hi,
{
    if hi > idx {
        lemma_best_suffix_from_bounds(t, name, idx, hi - 1);
    }
}

/// Under distinct child labels, a path's endpoint is unique.
pub proof fn lemma_reaches_to_unique(
    t: Seq<TreeElement>,
    node: int,
    rpath: Seq<Seq<u8>>,
    e1: int,
    e2: int,
)
    requires
        wf_struct(t),
        0 <= node < t.len(),
        reaches_to(t, node, rpath, e1),
        reaches_to(t, node, rpath, e2),
    ensures
        e1 == e2,
    decreases rpath.len(),
{
    if rpath.len() > 0 {
        let j1 = choose|j1: int|
            0 <= j1 < t[node].children@.len() && {
                let c = #[trigger] t[node].children@[j1] as int;
                0 < c < t.len() && t[c].referenced_label.label@ == rpath[0] && reaches_to(
                    t,
                    c,
                    rpath.drop_first(),
                    e1,
                )
            };
        let j2 = choose|j2: int|
            0 <= j2 < t[node].children@.len() && {
                let c = #[trigger] t[node].children@[j2] as int;
                0 < c < t.len() && t[c].referenced_label.label@ == rpath[0] && reaches_to(
                    t,
                    c,
                    rpath.drop_first(),
                    e2,
                )
            };
        let c1 = t[node].children@[j1] as int;
        let c2 = t[node].children@[j2] as int;
        if j1 != j2 {
            assert(t[c1].referenced_label.label@ != t[c2].referenced_label.label@);
            assert(false);
        }
        lemma_reaches_to_unique(t, c1, rpath.drop_first(), e1, e2);
    }
}

/// A path stays walkable when the arena grows: appending elements and
/// appending children (without touching what was there) preserves every
/// walked path and its endpoint.
pub proof fn lemma_reaches_to_grow(
    t1: Seq<TreeElement>,
    t2: Seq<TreeElement>,
    node: int,
    rpath: Seq<Seq<u8>>,
    e: int,
)
    requires
        wf_struct(t1),
        0 <= node < t1.len(),
        reaches_to(t1, node, rpath, e),
        t1.len() <= t2.len(),
        forall|i: int|
            0 <= i < t1.len() ==> #[trigger] t2[i].referenced_label.label@
                == t1[i].referenced_label.label@ && t1[i].children@.is_prefix_of(
                t2[i].children@,
            ),
    ensures
        reaches_to(t2, node, rpath, e),
    decreases rpath.len(),
{
    if rpath.len() > 0 {
        let j = choose|j: int|
            0 <= j < t1[node].children@.len() && {
                let c = #[trigger] t1[node].children@[j] as int;
                0 < c < t1.len() && t1[c].referenced_label.label@ == rpath[0] && reaches_to(
                    t1,
                    c,
                    rpath.drop_first(),
                    e,
                )
            };
        let c = t1[node].children@[j] as int;
        assert(t2[node].referenced_label.label@ == t1[node].referenced_label.label@);
        assert(t2[c].referenced_label.label@ == t1[c].referenced_label.label@);
        let pre = t1[node].children@;
        assert(pre.is_prefix_of(t2[node].children@));
        assert(pre =~= t2[node].children@.subrange(0, pre.len() as int));
        assert(t2[node].children@[j] == t2[node].children@.subrange(0, pre.len() as int)[j]);
        assert(t2[node].children@[j] == t1[node].children@[j]);
        lemma_reaches_to_grow(t1, t2, c, rpath.drop_first(), e);
        assert(0 <= j < t2[node].children@.len() && {
            let cc = t2[node].children@[j] as int;
            0 < cc < t2.len() && t2[cc].referenced_label.label@ == rpath[0] && reaches_to(
                t2,
                cc,
                rpath.drop_first(),
                e,
            )
        });
    }
}

/// A reachable path's prefixes are reachable.
pub proof fn lemma_reaches_prefix(t: Seq<TreeElement>, node: int, rpath: Seq<Seq<u8>>, end: int, m: int)
    requires
        reaches_to(t, node, rpath, end),
        0 <= m <= rpath.len(),
    ensures
        reaches(t, node, rpath.take(m)),
    decreases m,
{
    if m == 0 {
        assert(rpath.take(0) =~= Seq::<Seq<u8>>::empty());
        assert(reaches_to(t, node, rpath.take(0), node));
    } else {
        let j = choose|j: int|
            0 <= j < t[node].children@.len() && {
                let c = #[trigger] t[node].children@[j] as int;
                0 < c < t.len() && t[c].referenced_label.label@ == rpath[0] && reaches_to(
                    t,
                    c,
                    rpath.drop_first(),
                    end,
                )
            };
        let c = t[node].children@[j] as int;
        lemma_reaches_prefix(t, c, rpath.drop_first(), end, m - 1);
        let end2 = choose|end2: int| #[trigger] reaches_to(t, c, rpath.drop_first().take(m - 1), end2);
        assert(rpath.take(m).drop_first() =~= rpath.drop_first().take(m - 1));
        assert(rpath.take(m)[0] == rpath[0]);
        assert(0 <= j < t[node].children@.len() && {
            let cc = t[node].children@[j] as int;
            0 < cc < t.len() && t[cc].referenced_label.label@ == rpath.take(m)[0] && reaches_to(
                t,
                cc,
                rpath.take(m).drop_first(),
                end2,
            )
        });
        assert(reaches_to(t, node, rpath.take(m), end2));
    }
}

/// Extending a walked path by one child edge.
pub proof fn lemma_reaches_snoc(
    t: Seq<TreeElement>,
    node: int,
    rpath: Seq<Seq<u8>>,
    end: int,
    j: int,
    l: Seq<u8>,
)
    requires
        reaches_to(t, node, rpath, end),
        0 <= j < t[end].children@.len(),
        0 < t[end].children@[j] < t.len(),
        t[t[end].children@[j] as int].referenced_label.label@ == l,
    ensures
        reaches_to(t, node, rpath.push(l), t[end].children@[j] as int),
    decreases rpath.len(),
{
    let c = t[end].children@[j] as int;
    if rpath.len() == 0 {
        assert(rpath.push(l)[0] == l);
        assert(rpath.push(l).drop_first() =~= Seq::<Seq<u8>>::empty());
        assert(reaches_to(t, c, rpath.push(l).drop_first(), c));
    } else {
        let j0 = choose|j0: int|
            0 <= j0 < t[node].children@.len() && {
                let c0 = #[trigger] t[node].children@[j0] as int;
                0 < c0 < t.len() && t[c0].referenced_label.label@ == rpath[0] && reaches_to(
                    t,
                    c0,
                    rpath.drop_first(),
                    end,
                )
            };
        let c0 = t[node].children@[j0] as int;
        lemma_reaches_snoc(t, c0, rpath.drop_first(), end, j, l);
        assert(rpath.push(l).drop_first() =~= rpath.drop_first().push(l));
        assert(rpath.push(l)[0] == rpath[0]);
        assert(0 <= j0 < t[node].children@.len() && {
            let cc = t[node].children@[j0] as int;
            0 < cc < t.len() && t[cc].referenced_label.label@ == rpath.push(l)[0] && reaches_to(
                t,
                cc,
                rpath.push(l).drop_first(),
                c,
            )
        });
    }
}

impl LabelTree {
    /// The child of `parent_index` carrying `child`, if there is one.
    fn find_child(&self, parent_index: usize, child: &Label) -> (r: Option<usize>)
        requires
            wf_struct(self.elements@),
            parent_index < self.elements@.len(),
        ensures
            ({
                let t = self.elements@;
                let p = parent_index as int;
                match r {
                    Some(c) => {
                        &&& 0 < c < t.len()
                        &&& t[c as int].referenced_label.label@ == child@
                        &&& t[c as int].suffix@ == seq![child@] + t[p].suffix@
                        &&& exists|j: int|
                            #![trigger t[p].children@[j]]
                            0 <= j < t[p].children@.len() && t[p].children@[j] == c
                    },
                    None => forall|j: int|
                        #![trigger t[p].children@[j]]
                        0 <= j < t[p].children@.len()
                            ==> t[t[p].children@[j] as int].referenced_label.label@ != child@,
                }
            }),
    {
        let mut i: usize = 0;
        let n = self.elements[parent_index].children.len();
        while i < n
            invariant
                wf_struct(self.elements@),
                parent_index < self.elements@.len(),
                n == self.elements@[parent_index as int].children@.len(),
                i <= n,
                forall|j: int|
                    0 <= j < i
                        ==> self.elements@[#[trigger] self.elements@[parent_index as int].children@[j] as int].referenced_label.label@
                        != child@,
            decreases n - i,
        {
            let c = self.elements[parent_index].children[i];
            if self.elements[c].referenced_label.label == *child {
                return Some(c);
            }
            i = i + 1;
        }
        None
    }

    /// Walks the trie over the trailing labels of `name` and returns the
    /// deepest match: how many trailing labels are known and the offset
    /// stamped on the deepest matching node.
    pub fn find_best_reference(&self, name: &crate::name::Name) -> (r: CompressionReference)
        requires
            wf_struct(self.elements@),
        ensures
            r.index <= name@.len(),
            self.elements@[0].children@.len() == 0 ==> r.index == 0,
            r.index == best_suffix_len(self.elements@, name@),
            forall|k: int|
                r.index < k <= name@.len() ==> !reaches(
                    self.elements@,
                    0,
                    #[trigger] name@.subrange(name@.len() - k, name@.len() as int).reverse(),
                ),
            r.index > 0 ==> {
                let suffix = name@.subrange(name@.len() - r.index, name@.len() as int);
                &&& exists|e: int|
                    1 <= e < self.elements@.len() && #[trigger] self.elements@[e].suffix@ == suffix
                        && self.elements@[e].referenced_label.position == r.position
                        && reaches_to(self.elements@, 0, suffix.reverse(), e)
                &&& reaches(self.elements@, 0, suffix.reverse())
            },
    {
        let ghost t = self.elements@;
        let n = name.labels.len();
        let mut index: usize = 0;
        let mut position: u16 = 0;
        let mut node: usize = 0;
        proof {
            assert(name@.subrange(n as int, n as int) =~= Seq::<Seq<u8>>::empty());
            assert(name@.subrange(n as int, n as int).reverse() =~= Seq::<Seq<u8>>::empty());
        }
        while index < n
            invariant
                wf_struct(t),
                t == self.elements@,
                n == name@.len() == name.labels@.len(),
                index <= n,
                node < t.len(),
                t[node as int].suffix@ == name@.subrange(n - index, n as int),
                reaches_to(t, 0, name@.subrange(n - index, n as int).reverse(), node as int),
                index > 0 ==> node >= 1 && t[node as int].referenced_label.position == position,
                index == 0 ==> node == 0,
            decreases n - index,
        {
            let next = &name.labels[n - 1 - index];
            match self.find_child(node, next) {
                Some(c) => {
                    proof {
                        let prev_suffix = name@.subrange(n - index, n as int);
                        let new_suffix = name@.subrange(n - index - 1, n as int);
                        assert(next@ == name@[n - 1 - index]);
                        assert(new_suffix =~= seq![name@[n - 1 - index]] + prev_suffix);
                        let j = choose|j: int|
                            0 <= j < t[node as int].children@.len() && t[node as int].children@[j]
                                == c;
                        lemma_reaches_snoc(
                            t,
                            0,
                            prev_suffix.reverse(),
                            node as int,
                            j,
                            name@[n - 1 - index],
                        );
                        assert(new_suffix.reverse() =~= prev_suffix.reverse().push(
                            name@[n - 1 - index],
                        ));
                    }
                    position = self.elements[c].referenced_label.position;
                    index = index + 1;
                    node = c;
                },
                None => {
                    proof {
                        let suffix = name@.subrange(n - index, n as int);
                        if index > 0 {
                            assert(reaches(t, 0, suffix.reverse()));
                            assert(t[node as int].suffix@ == suffix);
                        }
                        // nothing deeper matches: the walked node has no
                        // child carrying the next label
                        assert forall|k: int| index < k <= n implies !reaches(
                            t,
                            0,
                            #[trigger] name@.subrange(n - k, n as int).reverse(),
                        ) by {
                            if reaches(t, 0, name@.subrange(n - k, n as int).reverse()) {
                                let e = choose|e: int|
                                    #[trigger] reaches_to(
                                        t,
                                        0,
                                        name@.subrange(n - k, n as int).reverse(),
                                        e,
                                    );
                                lemma_reaches_prefix(
                                    t,
                                    0,
                                    name@.subrange(n - k, n as int).reverse(),
                                    e,
                                    index + 1,
                                );
                                assert(name@.subrange(n - k, n as int).reverse().take(index + 1)
                                    =~= suffix.reverse().push(name@[n - 1 - index]));
                                let e2 = choose|e2: int|
                                    #[trigger] reaches_to(
                                        t,
                                        0,
                                        suffix.reverse().push(name@[n - 1 - index]),
                                        e2,
                                    );
                                lemma_reaches_extend_walk(
                                    t,
                                    0,
                                    suffix.reverse(),
                                    node as int,
                                    e2,
                                    name@[n - 1 - index],
                                );
                                assert(next@ == name@[n - 1 - index]);
                                assert(false);
                            }
                        }
                        lemma_best_suffix_from_bounds(t, name@, index as int, n as int);
                    }
                    return CompressionReference { index, position };
                },
            }
        }
        proof {
            if index > 0 {
                let suffix = name@.subrange(n - index, n as int);
                assert(reaches(t, 0, suffix.reverse()));
            }
            lemma_best_suffix_from_bounds(t, name@, index as int, n as int);
        }
        CompressionReference { index, position }
    }

    /// Inserts a list of referenced labels, given in root-down order (for
    /// `www.antoinec.dev` the list is ordered `[dev, antoinec, www]`): walks
    /// the existing path as far as it goes, then adds one node per remaining
    /// label, each stamped with its label's offset.
    pub fn insert(&mut self, referenced_labels: Vec<ReferencedLabel>)
        requires
            old(self).wf(),
            forall|j: int|
                #![trigger referenced_labels@[j]]
                0 <= j < referenced_labels@.len() ==> rl_claim(
                    referenced_labels@[j],
                    rls_labels(referenced_labels@).take(j + 1).reverse(),
                    old(self).buf@,
                ) || reaches(
                    old(self).elements@,
                    0,
                    rls_labels(referenced_labels@).take(j + 1),
                ),
        ensures
            final(self).wf(),
            final(self).buf == old(self).buf,
            old(self).elements@.len() <= final(self).elements@.len(),
            forall|i: int|
                #![trigger final(self).elements@[i]]
                0 <= i < old(self).elements@.len() ==> {
                    &&& final(self).elements@[i].referenced_label.label@ == old(
                        self,
                    ).elements@[i].referenced_label.label@
                    &&& final(self).elements@[i].referenced_label.position == old(
                        self,
                    ).elements@[i].referenced_label.position
                    &&& final(self).elements@[i].suffix@ == old(self).elements@[i].suffix@
                    &&& old(self).elements@[i].children@.is_prefix_of(
                        final(self).elements@[i].children@,
                    )
                },
            forall|j: int|
                0 <= j < referenced_labels@.len() ==> reaches(
                    final(self).elements@,
                    0,
                    #[trigger] rls_labels(referenced_labels@).take(j + 1),
                ),
            forall|j: int|
                0 <= j < referenced_labels@.len() && !reaches(
                    old(self).elements@,
                    0,
                    #[trigger] rls_labels(referenced_labels@).take(j + 1),
                ) ==> (exists|e: int|
                    0 <= e < final(self).elements@.len() && #[trigger] reaches_to(
                        final(self).elements@,
                        0,
                        rls_labels(referenced_labels@).take(j + 1),
                        e,
                    ) && final(self).elements@[e].referenced_label.position
                        == referenced_labels@[j].position),
    {
        let ghost buf = self.buf@;
        let ghost lbls = rls_labels(referenced_labels@);
        let n = referenced_labels.len();
        if n == 0 {
            proof {
                lemma_children_prefix_refl(self.elements@);
            }
            return ;
        }
        let mut node: usize = 0;
        let mut ci: usize = 0;
        let mut walking = true;
        proof {
            assert(lbls.take(0) =~= Seq::<Seq<u8>>::empty());
            assert(lbls.take(0).reverse() =~= Seq::<Seq<u8>>::empty());
        }
        while walking && ci < n
            invariant
                self.elements@ == old(self).elements@,
                self.buf == old(self).buf,
                self.buf@ == buf,
                old(self).wf(),
                n == referenced_labels@.len(),
                lbls == rls_labels(referenced_labels@),
                forall|j: int|
                    #![trigger referenced_labels@[j]]
                    0 <= j < n ==> rl_claim(
                        referenced_labels@[j],
                        lbls.take(j + 1).reverse(),
                        buf,
                    ) || reaches(self.elements@, 0, lbls.take(j + 1)),
                ci <= n,
                node < self.elements@.len(),
                self.elements@[node as int].suffix@ == lbls.take(ci as int).reverse(),
                reaches_to(self.elements@, 0, lbls.take(ci as int), node as int),
                !walking ==> ci < n && (forall|j: int|
                    #![trigger self.elements@[node as int].children@[j]]
                    0 <= j < self.elements@[node as int].children@.len()
                        ==> self.elements@[self.elements@[node as int].children@[j] as int].referenced_label.label@
                        != lbls[ci as int]),
            decreases n - ci, (if walking { 1int } else { 0int }),
        {
            let ghost t = self.elements@;
            match self.find_child(node, &referenced_labels[ci].label) {
                Some(c) => {
                    proof {
                        assert(referenced_labels@[ci as int].label@ == lbls[ci as int]);
                        assert(lbls.take(ci as int + 1).reverse() =~= seq![lbls[ci as int]]
                            + lbls.take(ci as int).reverse());
                        let j = choose|j: int|
                            #![trigger t[node as int].children@[j]]
                            0 <= j < t[node as int].children@.len() && t[node as int].children@[j]
                                == c;
                        lemma_reaches_snoc(
                            t,
                            0,
                            lbls.take(ci as int),
                            node as int,
                            j,
                            lbls[ci as int],
                        );
                        assert(lbls.take(ci as int + 1) =~= lbls.take(ci as int).push(
                            lbls[ci as int],
                        ));
                    }
                    node = c;
                    ci = ci + 1;
                },
                None => {
                    proof {
                        assert(referenced_labels@[ci as int].label@ == lbls[ci as int]);
                    }
                    walking = false;
                },
            }
        }
        if ci >= n {
            proof {
                lemma_children_prefix_refl(self.elements@);
                assert forall|j: int| 0 <= j < n implies reaches(
                    self.elements@,
                    0,
                    #[trigger] lbls.take(j + 1),
                ) by {
                    lemma_reaches_prefix(
                        self.elements@,
                        0,
                        lbls.take(ci as int),
                        node as int,
                        j + 1,
                    );
                    assert(lbls.take(ci as int).take(j + 1) =~= lbls.take(j + 1));
                }
            }
            return ;
        }
        let ghost start = ci as int;
        let ghost mut wit: Seq<int> = Seq::empty();
        proof {
            lemma_children_prefix_refl(self.elements@);
            // every path walked so far already existed
            assert forall|j: int| 0 <= j < start implies reaches(
                old(self).elements@,
                0,
                #[trigger] lbls.take(j + 1),
            ) by {
                lemma_reaches_prefix(
                    self.elements@,
                    0,
                    lbls.take(ci as int),
                    node as int,
                    j + 1,
                );
                assert(lbls.take(ci as int).take(j + 1) =~= lbls.take(j + 1));
            }
        }
        proof {
            let t = self.elements@;
            assert forall|j: int| ci <= j < n implies rl_claim(
                referenced_labels@[j],
                lbls.take(j + 1).reverse(),
                buf,
            ) by {
                assert(0 <= j < referenced_labels@.len());
                if !rl_claim(referenced_labels@[j], lbls.take(j + 1).reverse(), buf) {
                    assert(reaches(t, 0, lbls.take(j + 1)));
                    let e = choose|e: int| #[trigger] reaches_to(t, 0, lbls.take(j + 1), e);
                    lemma_reaches_prefix(t, 0, lbls.take(j + 1), e, ci + 1);
                    assert(lbls.take(j + 1).take(ci + 1) =~= lbls.take(ci + 1));
                    let e2 = choose|e2: int| #[trigger] reaches_to(t, 0, lbls.take(ci + 1), e2);
                    assert(lbls.take(ci + 1) =~= lbls.take(ci as int).push(lbls[ci as int]));
                    lemma_reaches_extend_walk(
                        t,
                        0,
                        lbls.take(ci as int),
                        node as int,
                        e2,
                        lbls[ci as int],
                    );
                    assert(false);
                }
            }
        }
        while ci < n
            invariant
                self.wf(),
                self.buf == old(self).buf,
                self.buf@ == buf,
                n == referenced_labels@.len(),
                lbls == rls_labels(referenced_labels@),
                forall|j: int|
                    #![trigger referenced_labels@[j]]
                    ci <= j < n ==> rl_claim(referenced_labels@[j], lbls.take(j + 1).reverse(), buf),
                0 <= start <= ci <= n,
                node < self.elements@.len(),
                self.elements@[node as int].suffix@ == lbls.take(ci as int).reverse(),
                reaches_to(self.elements@, 0, lbls.take(ci as int), node as int),
                old(self).elements@.len() <= self.elements@.len(),
                forall|i: int|
                    #![trigger self.elements@[i]]
                    0 <= i < old(self).elements@.len() ==> {
                        &&& self.elements@[i].referenced_label.label@ == old(
                            self,
                        ).elements@[i].referenced_label.label@
                        &&& self.elements@[i].referenced_label.position == old(
                            self,
                        ).elements@[i].referenced_label.position
                        &&& self.elements@[i].suffix@ == old(self).elements@[i].suffix@
                        &&& old(self).elements@[i].children@.is_prefix_of(
                            self.elements@[i].children@,
                        )
                    },
                wit.len() == ci - start,
                forall|m: int|
                    #![trigger wit[m]]
                    0 <= m < wit.len() ==> 0 <= wit[m] < self.elements@.len() && reaches_to(
                        self.elements@,
                        0,
                        lbls.take(start + m + 1),
                        wit[m],
                    ) && self.elements@[wit[m]].referenced_label.position
                        == referenced_labels@[start + m].position,
                ci < n ==> (forall|j: int|
                    #![trigger self.elements@[node as int].children@[j]]
                    0 <= j < self.elements@[node as int].children@.len()
                        ==> self.elements@[self.elements@[node as int].children@[j] as int].referenced_label.label@
                        != lbls[ci as int]),
            decreases n - ci,
        {
            let ghost t0 = self.elements@;
            let new_idx = self.elements.len();
            let ghost parent_suffix = self.elements@[node as int].suffix@;
            let elem = TreeElement {
                referenced_label: referenced_labels[ci].clone(),
                children: Vec::new(),
                suffix: Ghost(seq![referenced_labels@[ci as int].label@] + parent_suffix),
            };
            self.elements.push(elem);
            let mut kids = clone_children(&self.elements[node].children);
            kids.push(new_idx);
            let parent = TreeElement {
                referenced_label: self.elements[node].referenced_label.clone(),
                children: kids,
                suffix: Ghost(parent_suffix),
            };
            self.elements[node] = parent;
            proof {
                let t2 = self.elements@;
                let li = node as int;
                let le = new_idx as int;
                assert(t2.len() == t0.len() + 1);
                assert(forall|i: int| 0 <= i < t0.len() && i != li ==> t2[i] == t0[i]);
                assert(t2[le].referenced_label.label@ == lbls[ci as int]);
                assert(t2[le].referenced_label.position == referenced_labels@[ci as int].position);
                assert(t2[le].suffix@ == seq![lbls[ci as int]] + parent_suffix);
                assert(t2[le].children@.len() == 0);
                assert(t2[li].children@ == t0[li].children@.push(new_idx));
                assert(t2[li].suffix@ == t0[li].suffix@);
                assert(t2[li].referenced_label.label@ == t0[li].referenced_label.label@);
                assert(t2[li].referenced_label.position == t0[li].referenced_label.position);
                assert(lbls.take(ci as int + 1).reverse() =~= seq![lbls[ci as int]]
                    + lbls.take(ci as int).reverse());
                // structural well-formedness of the grown arena
                assert forall|i: int, j: int|
                    0 <= i < t2.len() && 0 <= j < t2[i].children@.len() implies {
                    let c = #[trigger] t2[i].children@[j] as int;
                    &&& 0 < c < t2.len()
                    &&& t2[c].suffix@ == seq![t2[c].referenced_label.label@] + t2[i].suffix@
                } by {
                    if i < t0.len() {
                        if i == li && j == t0[li].children@.len() {
                            assert(t2[i].children@[j] == new_idx);
                        } else {
                            assert(t0[i].children@[j] == t2[i].children@[j]);
                            let c = t2[i].children@[j] as int;
                            assert(0 < c < t0.len());
                            assert(t2[c].suffix@ == t0[c].suffix@);
                            assert(t2[c].referenced_label.label@ == t0[c].referenced_label.label@);
                        }
                    }
                }
                assert forall|i: int, j1: int, j2: int|
                    0 <= i < t2.len() && 0 <= j1 < t2[i].children@.len() && 0 <= j2
                        < t2[i].children@.len() && j1 != j2 implies t2[t2[i].children@[j1] as int].referenced_label.label@
                    != t2[t2[i].children@[j2] as int].referenced_label.label@ by {
                    if i < t0.len() && i != li {
                        assert(t0[i].children@[j1] == t2[i].children@[j1]);
                        assert(t0[i].children@[j2] == t2[i].children@[j2]);
                    } else if i == li {
                        let old_n = t0[li].children@.len() as int;
                        if j1 < old_n && j2 < old_n {
                            assert(t0[i].children@[j1] == t2[i].children@[j1]);
                            assert(t0[i].children@[j2] == t2[i].children@[j2]);
                        } else if j1 == old_n {
                            assert(t0[i].children@[j2] == t2[i].children@[j2]);
                            assert(t2[t2[i].children@[j2] as int].referenced_label.label@
                                != lbls[ci as int]);
                        } else {
                            assert(j2 == old_n);
                            assert(t0[i].children@[j1] == t2[i].children@[j1]);
                            assert(t2[t2[i].children@[j1] as int].referenced_label.label@
                                != lbls[ci as int]);
                        }
                    }
                }
                assert(wf_struct(t2));
                // every stamped offset still parses to its suffix
                assert forall|i: int| 1 <= i < t2.len() implies {
                    let e = #[trigger] t2[i];
                    &&& e.referenced_label.position < 16384
                    &&& 1 <= e.suffix@.len()
                    &&& valid_name(e.suffix@)
                    &&& spec_parse_name_rec(
                        buf,
                        e.referenced_label.position as int,
                        e.suffix@.len() as nat,
                        0,
                    ) is Some
                    &&& spec_parse_name_rec(
                        buf,
                        e.referenced_label.position as int,
                        e.suffix@.len() as nat,
                        0,
                    )->Some_0.0 == e.suffix@
                } by {
                    if i < t0.len() {
                        if i == li {
                            assert(t2[i].referenced_label.position == t0[i].referenced_label.position);
                            assert(t2[i].suffix@ == t0[i].suffix@);
                        }
                    } else {
                        assert(i == le);
                        assert(referenced_labels@[ci as int] == referenced_labels@[ci as int]);
                        assert(rl_claim(
                            referenced_labels@[ci as int],
                            lbls.take(ci as int + 1).reverse(),
                            buf,
                        ));
                        assert(t2[le].suffix@ =~= lbls.take(ci as int + 1).reverse());
                    }
                }
                assert(wf_parse(t2, buf));
                // the walked path survives the growth, and extends to the
                // new node
                assert(t0[li].children@.is_prefix_of(t2[li].children@)) by {
                    assert(t0[li].children@ =~= t2[li].children@.subrange(
                        0,
                        t0[li].children@.len() as int,
                    ));
                }
                assert forall|i: int|
                    0 <= i < t0.len() implies #[trigger] t2[i].referenced_label.label@
                    == t0[i].referenced_label.label@ && t0[i].children@.is_prefix_of(
                    t2[i].children@,
                ) by {
                    if i != li {
                        assert(t2[i] == t0[i]);
                        assert(t0[i].children@ =~= t2[i].children@.subrange(
                            0,
                            t0[i].children@.len() as int,
                        ));
                    }
                }
                lemma_reaches_to_grow(t0, t2, 0, lbls.take(ci as int), node as int);
                let jn = t0[li].children@.len() as int;
                assert(t2[li].children@[jn] == new_idx);
                lemma_reaches_snoc(t2, 0, lbls.take(ci as int), node as int, jn, lbls[ci as int]);
                assert(lbls.take(ci as int + 1) =~= lbls.take(ci as int).push(lbls[ci as int]));
                assert(reaches_to(t2, 0, lbls.take(ci as int + 1), le));
                // previously recorded nodes keep their paths and offsets
                assert forall|m: int|
                    #![trigger wit[m]]
                    0 <= m < wit.len() implies 0 <= wit[m] < t2.len() && reaches_to(
                    t2,
                    0,
                    lbls.take(start + m + 1),
                    wit[m],
                ) && t2[wit[m]].referenced_label.position
                    == referenced_labels@[start + m].position by {
                    lemma_reaches_to_grow(t0, t2, 0, lbls.take(start + m + 1), wit[m]);
                    if wit[m] != li {
                        assert(t2[wit[m]] == t0[wit[m]]);
                    }
                }
                wit = wit.push(le);
                assert(reaches_to(t2, 0, lbls.take(start + (wit.len() - 1) + 1), le));
                // preservation composes across the step
                assert forall|i: int|
                    0 <= i < old(self).elements@.len() implies {
                    &&& (#[trigger] t2[i]).referenced_label.label@ == old(
                        self,
                    ).elements@[i].referenced_label.label@
                    &&& t2[i].referenced_label.position == old(
                        self,
                    ).elements@[i].referenced_label.position
                    &&& t2[i].suffix@ == old(self).elements@[i].suffix@
                    &&& old(self).elements@[i].children@.is_prefix_of(t2[i].children@)
                } by {
                    assert(old(self).elements@[i].children@.is_prefix_of(t0[i].children@));
                    assert(t0[i].children@.is_prefix_of(t2[i].children@));
                    assert(old(self).elements@[i].children@ =~= t2[i].children@.subrange(
                        0,
                        old(self).elements@[i].children@.len() as int,
                    ));
                }
            }
            node = new_idx;
            ci = ci + 1;
        }
        proof {
            // every prefix of the inserted path is now present
            assert forall|j: int| 0 <= j < n implies reaches(
                self.elements@,
                0,
                #[trigger] lbls.take(j + 1),
            ) by {
                lemma_reaches_prefix(
                    self.elements@,
                    0,
                    lbls.take(n as int),
                    node as int,
                    j + 1,
                );
                assert(lbls.take(n as int).take(j + 1) =~= lbls.take(j + 1));
            }
            // paths that were new carry the offsets they were handed
            assert forall|j: int|
                0 <= j < n && !reaches(old(self).elements@, 0, #[trigger] lbls.take(j + 1)) implies (
            exists|e: int|
                0 <= e < self.elements@.len() && #[trigger] reaches_to(
                    self.elements@,
                    0,
                    lbls.take(j + 1),
                    e,
                ) && self.elements@[e].referenced_label.position
                    == referenced_labels@[j].position) by {
                if j < start {
                    assert(reaches(old(self).elements@, 0, lbls.take(j + 1)));
                } else {
                    let m = j - start;
                    assert(0 <= m < wit.len());
                    assert(reaches_to(self.elements@, 0, lbls.take(start + m + 1), wit[m]));
                    assert(lbls.take(start + m + 1) == lbls.take(j + 1));
                    assert(self.elements@[wit[m]].referenced_label.position
                        == referenced_labels@[j].position);
                }
            }
        }
    }
}

/// The unique continuation of a walked path: if the walked path extended by
/// one more label also exists, the walked path's endpoint has a child with
/// that label.
pub proof fn lemma_reaches_extend_walk(
    t: Seq<TreeElement>,
    start: int,
    rpath: Seq<Seq<u8>>,
    node: int,
    e: int,
    l: Seq<u8>,
)
    requires
        wf_struct(t),
        0 <= start < t.len(),
        reaches_to(t, start, rpath, node),
        reaches_to(t, start, rpath.push(l), e),
    ensures
        exists|j: int|
            #![trigger t[node].children@[j]]
            0 <= j < t[node].children@.len()
                && t[t[node].children@[j] as int].referenced_label.label@ == l,
    decreases rpath.len(),
{
    if rpath.len() == 0 {
        assert(node == start);
        assert(rpath.push(l)[0] == l);
        let j = choose|j: int|
            0 <= j < t[start].children@.len() && {
                let c = #[trigger] t[start].children@[j] as int;
                0 < c < t.len() && t[c].referenced_label.label@ == rpath.push(l)[0] && reaches_to(
                    t,
                    c,
                    rpath.push(l).drop_first(),
                    e,
                )
            };
        assert(t[t[node].children@[j] as int].referenced_label.label@ == l);
    } else {
        let j1 = choose|j1: int|
            0 <= j1 < t[start].children@.len() && {
                let c = #[trigger] t[start].children@[j1] as int;
                0 < c < t.len() && t[c].referenced_label.label@ == rpath[0] && reaches_to(
                    t,
                    c,
                    rpath.drop_first(),
                    node,
                )
            };
        assert(rpath.push(l)[0] == rpath[0]);
        let j2 = choose|j2: int|
            0 <= j2 < t[start].children@.len() && {
                let c = #[trigger] t[start].children@[j2] as int;
                0 < c < t.len() && t[c].referenced_label.label@ == rpath.push(l)[0] && reaches_to(
                    t,
                    c,
                    rpath.push(l).drop_first(),
                    e,
                )
            };
        let c1 = t[start].children@[j1] as int;
        let c2 = t[start].children@[j2] as int;
        if j1 != j2 {
            assert(t[c1].referenced_label.label@ != t[c2].referenced_label.label@);
            assert(false);
        }
        assert(rpath.push(l).drop_first() =~= rpath.drop_first().push(l));
        lemma_reaches_extend_walk(t, c1, rpath.drop_first(), node, e, l);
    }
}

/// Copies a child-index list.
fn clone_children(v: &Vec<usize>) -> (r: Vec<usize>)
    ensures
        r@ == v@,
{
    let mut r: Vec<usize> = Vec::new();
    proof {
        assert(r@ =~= v@.take(0));
    }
    let mut i: usize = 0;
    while i < v.len()
        invariant
            i <= v@.len(),
            r@ == v@.take(i as int),
        decreases v@.len() - i,
    {
        r.push(v[i]);
        i = i + 1;
        proof {
            assert(r@ =~= v@.take(i as int));
        }
    }
    proof {
        assert(v@.take(v@.len() as int) =~= v@);
    }
    r
}

impl Default for LabelTree {
    /// An empty table: one root node standing for the empty suffix.
    fn default() -> (r: Self)
        ensures
            r.wf(),
            r.buf@ == Seq::<u8>::empty(),
            r.elements@.len() == 1,
            r.elements@[0].children@.len() == 0,
    {
        let mut elements: Vec<TreeElement> = Vec::new();
        elements.push(
            TreeElement {
                referenced_label: ReferencedLabel { label: Label { value: Vec::new() }, position: 0 },
                children: Vec::new(),
                suffix: Ghost(Seq::empty()),
            },
        );
        LabelTree { elements, buf: Ghost(Seq::empty()) }
    }
}

} // verus!
