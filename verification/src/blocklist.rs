//! The blocklist: a label trie over blocked names, walked most-significant
//! label first, supporting exact entries and wildcard entries (`*.suffix`,
//! matching every strict descendant of the suffix but not the suffix
//! itself). Labels are folded to ASCII lowercase on insert and lookup.
//!
//! The list carries its own model: the (ghost) set of entries inserted so
//! far. Well-formedness states that the trie blocks a name exactly when
//! some entry matches it, which is what `contains` promises.

use vstd::prelude::*;

use vstd::string::StringSliceAdditionalSpecFns;

use crate::label::{byte_to_lower, bytes_eq, spec_lower_seq, Label};

verus! {

/// One trie node: its label (lowercased), whether an exact entry ends here,
/// whether a wildcard entry ends here, and its children.
pub struct Node {
    pub label: Vec<u8>,
    pub blocked: bool,
    pub wildcard: bool,
    pub children: Vec<Node>,
}

/// A blocklist entry as a value: its labels, lowercased, in name order
/// (most-significant-last), and whether it is a wildcard entry.
pub type EntryView = (Seq<Seq<u8>>, bool);

/// Whether an entry matches a (lowercased) name: an exact entry matches the
/// equal name; a wildcard entry matches every strict descendant of its
/// suffix and not the suffix itself.
pub open spec fn entry_matches(e: EntryView, name: Seq<Seq<u8>>) -> bool {
    if e.1 {
        name.len() > e.0.len() && name.skip(name.len() - e.0.len()) == e.0
    } else {
        name == e.0
    }
}

/// The first child carrying `label`, if any.
pub open spec fn spec_find_child(children: Seq<Node>, label: Seq<u8>) -> Option<Node>
    decreases children.len(),
{
    if children.len() == 0 {
        None
    } else if children[0].label@ == label {
        Some(children[0])
    } else {
        spec_find_child(children.drop_first(), label)
    }
}

/// Whether the trie below `node` blocks `name`: walk labels most-significant
/// first; a wildcard node blocks every name that still has labels left; a
/// name that ends on a node is blocked iff the node is marked.
pub open spec fn blocked_spec(node: Node, name: Seq<Seq<u8>>) -> bool
    decreases name.len(),
{
    if name.len() == 0 {
        node.blocked
    } else if node.wildcard {
        true
    } else {
        match spec_find_child(node.children@, name.last()) {
            Some(c) => blocked_spec(c, name.drop_last()),
            None => false,
        }
    }
}

/// The views of a list of labels.
pub open spec fn labels_view(ls: Seq<Label>) -> Seq<Seq<u8>> {
    Seq::new(ls.len(), |i: int| ls[i]@)
}

/// A name's labels, each folded to ASCII lowercase.
pub open spec fn spec_lower_name(ls: Seq<Seq<u8>>) -> Seq<Seq<u8>> {
    Seq::new(ls.len(), |i: int| spec_lower_seq(ls[i]))
}

/// The static set of blocked names, stored as a trie.
pub struct Blocklist {
    pub root: Node,
    /// The entries inserted so far.
    pub entries: Ghost<Set<EntryView>>,
}

impl Blocklist {
    /// The trie blocks a name exactly when some inserted entry matches it.
    pub open spec fn wf(self) -> bool {
        forall|name: Seq<Seq<u8>>|
            #![trigger blocked_spec(self.root, name)]
            (blocked_spec(self.root, name) <==> exists|e: EntryView|
                #[trigger] self.entries@.contains(e) && entry_matches(e, name))
    }

    /// An empty blocklist.
    pub fn new() -> (r: Self)
        ensures
            r.wf(),
            r.entries@ == Set::<EntryView>::empty(),
    {
        let r = Blocklist {
            root: Node { label: Vec::new(), blocked: false, wildcard: false, children: Vec::new() },
            entries: Ghost(Set::empty()),
        };
        proof {
            assert forall|name: Seq<Seq<u8>>| !(#[trigger] blocked_spec(r.root, name)) by {
                lemma_fresh_blocks_nothing(r.root, name);
            }
        }
        r
    }

    /// Adds one entry: the name's labels (lowercased) with the wildcard flag.
    pub fn add_element(&mut self, name: Vec<Label>, wildcard: bool)
        requires
            old(self).wf(),
        ensures
            final(self).wf(),
            final(self).entries@ == old(self).entries@.insert(
                (spec_lower_name(labels_view(name@)), wildcard),
            ),
    {
        let lowered = lower_labels(&name);
        let ghost entry_labels = spec_lower_name(labels_view(name@));
        let mut root = Node {
            label: Vec::new(),
            blocked: false,
            wildcard: false,
            children: Vec::new(),
        };
        core::mem::swap(&mut self.root, &mut root);
        let n = lowered.len();
        proof {
            assert(vec_views(lowered@) =~= entry_labels);
        }
        let new_root = insert_rec(root, &lowered, n, wildcard);
        self.root = new_root;
        let ghost entry = (entry_labels, wildcard);
        proof {
            self.entries@ = old(self).entries@.insert(entry);
        }
        proof {
            assert(entry_labels.take(n as int) =~= entry_labels);
            assert forall|nm: Seq<Seq<u8>>|
                #![trigger blocked_spec(self.root, nm)]
                (blocked_spec(self.root, nm) <==> exists|e: EntryView|
                    #[trigger] self.entries@.contains(e) && entry_matches(e, nm)) by {
                if blocked_spec(self.root, nm) {
                    if entry_matches(entry, nm) {
                        assert(self.entries@.contains(entry));
                    } else {
                        assert(blocked_spec(old(self).root, nm));
                        let e = choose|e: EntryView|
                            #[trigger] old(self).entries@.contains(e) && entry_matches(e, nm);
                        assert(self.entries@.contains(e));
                    }
                }
                if exists|e: EntryView|
                    #[trigger] self.entries@.contains(e) && entry_matches(e, nm) {
                    let e = choose|e: EntryView|
                        #[trigger] self.entries@.contains(e) && entry_matches(e, nm);
                    if e == entry {
                        assert(blocked_spec(self.root, nm));
                    } else {
                        assert(old(self).entries@.contains(e));
                        assert(blocked_spec(old(self).root, nm));
                    }
                }
            }
        }
    }

    /// Whether the blocklist blocks `name`: true exactly when some inserted
    /// entry matches the lowercased name — an exact entry equal to it, or a
    /// wildcard entry whose suffix it strictly descends from.
    pub fn contains(&self, name: &Vec<Label>) -> (r: bool)
        requires
            self.wf(),
        ensures
            r == (exists|e: EntryView|
                #[trigger] self.entries@.contains(e) && entry_matches(
                    e,
                    spec_lower_name(labels_view(name@)),
                )),
    {
        let lowered = lower_labels(name);
        let ghost query = spec_lower_name(labels_view(name@));
        proof {
            assert(vec_views(lowered@) =~= query);
        }
        let mut node = &self.root;
        let mut remaining = lowered.len();
        proof {
            assert(query.take(remaining as int) =~= query);
        }
        while remaining > 0
            invariant
                self.wf(),
                query == spec_lower_name(labels_view(name@)),
                remaining <= lowered@.len() == query.len(),
                vec_views(lowered@) == query,
                blocked_spec(self.root, query) == blocked_spec(
                    *node,
                    query.take(remaining as int),
                ),
            decreases remaining,
        {
            if node.wildcard {
                proof {
                    assert(query.take(remaining as int).len() > 0);
                    assert(blocked_spec(self.root, query));
                }
                return true;
            }
            match find_child(&node.children, &lowered[remaining - 1]) {
                Some(c) => {
                    proof {
                        assert(lowered@[remaining - 1]@ == query[remaining - 1]);
                        assert(query.take(remaining as int).last() == query[remaining - 1]);
                        assert(query.take(remaining as int).drop_last() =~= query.take(
                            remaining - 1,
                        ));
                    }
                    node = c;
                    remaining = remaining - 1;
                },
                None => {
                    proof {
                        assert(query.take(remaining as int).last() == query[remaining - 1]);
                        assert(lowered@[remaining - 1]@ == query[remaining - 1]);
                        assert(!blocked_spec(self.root, query));
                    }
                    return false;
                },
            }
        }
        proof {
            assert(query.take(0) =~= Seq::<Seq<u8>>::empty());
        }
        node.blocked
    }
}

/// The views of a list of byte vectors.
pub open spec fn vec_views(ls: Seq<Vec<u8>>) -> Seq<Seq<u8>> {
    Seq::new(ls.len(), |i: int| ls[i]@)
}

/// The pieces of a byte string split on `.`: always at least one piece,
/// the separators dropped (an empty string is one empty piece).
pub open spec fn spec_split(s: Seq<u8>) -> Seq<Seq<u8>>
    decreases s.len(),
{
    if s.len() == 0 {
        seq![Seq::<u8>::empty()]
    } else {
        let rest = spec_split(s.drop_first());
        if s[0] == 46 {
            seq![Seq::<u8>::empty()] + rest
        } else {
            seq![seq![s[0]] + rest[0]] + rest.drop_first()
        }
    }
}

/// A split has at least one piece.
proof fn lemma_split_len(s: Seq<u8>)
    ensures
        spec_split(s).len() >= 1,
    decreases s.len(),
{
    if s.len() > 0 {
        lemma_split_len(s.drop_first());
    }
}

/// Splitting at the first separator: the bytes before it are the first
/// piece, and the rest splits on its own; with no separator, the whole
/// string is the one piece.
proof fn lemma_split_at_first_dot(s: Seq<u8>, d: int)
    requires
        0 <= d <= s.len(),
        forall|m: int| 0 <= m < d ==> s[m] != 46,
        d < s.len() ==> s[d] == 46,
    ensures
        d == s.len() ==> spec_split(s) == seq![s],
        d < s.len() ==> spec_split(s) == seq![s.subrange(0, d)] + spec_split(
            s.subrange(d + 1, s.len() as int),
        ),
    decreases s.len(),
{
    lemma_split_len(s);
    if d == s.len() {
        if s.len() == 0 {
            assert(s =~= Seq::<u8>::empty());
        } else {
            lemma_split_at_first_dot(s.drop_first(), d - 1);
            let rest = spec_split(s.drop_first());
            assert(rest == seq![s.drop_first()]);
            assert(seq![s[0]] + rest[0] =~= s);
            assert(seq![seq![s[0]] + rest[0]] + rest.drop_first() =~= seq![s]);
        }
    } else {
        if d == 0 {
            assert(s.subrange(0, 0) =~= Seq::<u8>::empty());
            assert(s.drop_first() =~= s.subrange(1, s.len() as int));
            assert(seq![Seq::<u8>::empty()] + spec_split(s.drop_first()) =~= seq![
                s.subrange(0, 0),
            ] + spec_split(s.subrange(1, s.len() as int)));
        } else {
            lemma_split_at_first_dot(s.drop_first(), d - 1);
            lemma_split_len(s.drop_first().subrange(d, s.len() - 1));
            let rest = spec_split(s.drop_first());
            assert(s.drop_first().subrange(0, d - 1) =~= s.subrange(1, d));
            assert(s.drop_first().subrange(d, s.len() - 1) =~= s.subrange(d + 1, s.len() as int));
            assert(rest == seq![s.subrange(1, d)] + spec_split(s.subrange(d + 1, s.len() as int)));
            assert(seq![s[0]] + rest[0] =~= s.subrange(0, d));
            assert(rest.drop_first() =~= spec_split(s.subrange(d + 1, s.len() as int)));
            assert(seq![seq![s[0]] + rest[0]] + rest.drop_first() =~= seq![s.subrange(0, d)]
                + spec_split(s.subrange(d + 1, s.len() as int)));
        }
    }
}

/// Whether a blocklist line's bytes begin with the wildcard marker `*.`.
pub open spec fn line_wildcard(bytes: Seq<u8>) -> bool {
    bytes.len() >= 2 && bytes[0] == 42 && bytes[1] == 46
}

/// A line's labels: what remains after a wildcard marker, split on `.`.
pub open spec fn line_parts(bytes: Seq<u8>) -> Seq<Seq<u8>> {
    spec_split(
        if line_wildcard(bytes) {
            bytes.subrange(2, bytes.len() as int)
        } else {
            bytes
        },
    )
}

/// Whether every piece of a line is a valid label.
pub open spec fn line_ok(bytes: Seq<u8>) -> bool {
    forall|i: int|
        0 <= i < line_parts(bytes).len() ==> crate::label::valid_label(
            #[trigger] line_parts(bytes)[i],
        )
}

/// Reads one blocklist line: a leading `*.` marks a wildcard entry and is
/// dropped; what remains splits on `.` into labels. The line is accepted
/// exactly when every piece of that split is a valid label, and then the
/// returned labels are those pieces in order.
pub fn parse_entry(line: &str) -> (r: Option<(Vec<Label>, bool)>)
    ensures
        (r is Some) == line_ok(line.spec_bytes()),
        match r {
            Some((labels, w)) => {
                &&& w == line_wildcard(line.spec_bytes())
                &&& labels_view(labels@) == line_parts(line.spec_bytes())
            },
            None => true,
        },
{
    let bytes = line.as_bytes();
    let ghost full = line.spec_bytes();
    let wildcard = bytes.len() >= 2 && bytes[0] == 42 && bytes[1] == 46;
    let start: usize = if wildcard {
        2
    } else {
        0
    };
    let ghost sb = if wildcard {
        full.subrange(2, full.len() as int)
    } else {
        full
    };
    let ghost parts = spec_split(sb);
    proof {
        if !wildcard {
            assert(sb =~= full.subrange(0, full.len() as int));
            assert(sb =~= full);
        }
        assert(wildcard == line_wildcard(full));
        assert(parts == line_parts(full));
    }
    let mut labels: Vec<Label> = Vec::new();
    let mut current: Vec<u8> = Vec::new();
    let mut seg_start: usize = start;
    let mut i = start;
    while i < bytes.len()
        invariant
            bytes@ == full,
            full == line.spec_bytes(),
            wildcard == line_wildcard(full),
            wildcard ==> start == 2,
            !wildcard ==> start == 0,
            sb == full.subrange(start as int, full.len() as int),
            parts == spec_split(sb),
            parts == line_parts(full),
            start <= seg_start <= i <= full.len(),
            forall|m: int| seg_start <= m < i ==> full[m] != 46,
            current@ == full.subrange(seg_start as int, i as int),
            parts == labels_view(labels@) + spec_split(
                full.subrange(seg_start as int, full.len() as int),
            ),
            forall|m: int|
                0 <= m < labels@.len() ==> crate::label::valid_label(#[trigger] labels@[m]@)
                    && labels@[m]@ == parts[m],
        decreases full.len() - i,
    {
        let b = bytes[i];
        if b == 46 {
            let ghost seg = full.subrange(seg_start as int, full.len() as int);
            proof {
                assert forall|m: int| 0 <= m < i - seg_start implies seg[m] != 46 by {
                    assert(seg[m] == full[seg_start + m]);
                }
                assert(seg[i - seg_start] == 46);
                lemma_split_at_first_dot(seg, i - seg_start);
                assert(seg.subrange(0, i - seg_start) =~= full.subrange(
                    seg_start as int,
                    i as int,
                ));
                assert(seg.subrange(i - seg_start + 1, seg.len() as int) =~= full.subrange(
                    i + 1,
                    full.len() as int,
                ));
            }
            let label = Label { value: current };
            if !label.is_valid() {
                proof {
                    lemma_split_len(full.subrange(i + 1, full.len() as int));
                    assert(parts.len() >= labels@.len() + 1);
                    assert(parts[labels@.len() as int] == label@);
                    assert(!crate::label::valid_label(line_parts(full)[labels@.len() as int]));
                    assert(!line_ok(line.spec_bytes()));
                }
                return None;
            }
            labels.push(label);
            current = Vec::new();
            seg_start = i + 1;
            proof {
                assert(current@ =~= full.subrange(seg_start as int, i + 1));
                assert(labels_view(labels@) =~= labels_view(labels@.drop_last()).push(
                    labels@.last()@,
                ));
                assert(parts =~= labels_view(labels@) + spec_split(
                    full.subrange(seg_start as int, full.len() as int),
                ));
            }
        } else {
            current.push(b);
            proof {
                assert(current@ =~= full.subrange(seg_start as int, i + 1));
            }
        }
        i = i + 1;
    }
    let ghost seg = full.subrange(seg_start as int, full.len() as int);
    proof {
        assert forall|m: int| 0 <= m < seg.len() implies seg[m] != 46 by {
            assert(seg[m] == full[seg_start + m]);
        }
        lemma_split_at_first_dot(seg, seg.len() as int);
        assert(spec_split(seg) == seq![seg]);
        assert(current@ =~= seg);
    }
    let label = Label { value: current };
    if !label.is_valid() {
        proof {
            assert(parts.len() == labels@.len() + 1);
            assert(parts[labels@.len() as int] == label@);
            assert(!crate::label::valid_label(line_parts(full)[labels@.len() as int]));
            assert(!line_ok(line.spec_bytes()));
        }
        return None;
    }
    labels.push(label);
    proof {
        assert(labels_view(labels@) =~= labels_view(labels@.drop_last()).push(labels@.last()@));
        assert(labels_view(labels@) =~= parts);
        assert forall|i: int| 0 <= i < line_parts(full).len() implies crate::label::valid_label(
            #[trigger] line_parts(full)[i],
        ) by {
            assert(line_parts(full)[i] == labels@[i]@);
        }
        assert(line_ok(line.spec_bytes()));
    }
    Some((labels, wildcard))
}

/// Lowercases each label of a name.
fn lower_labels(name: &Vec<Label>) -> (r: Vec<Vec<u8>>)
    ensures
        vec_views(r@) == spec_lower_name(labels_view(name@)),
{
    let mut r: Vec<Vec<u8>> = Vec::new();
    let mut i: usize = 0;
    while i < name.len()
        invariant
            i <= name@.len(),
            r@.len() == i,
            forall|j: int| 0 <= j < i ==> #[trigger] r@[j]@ == spec_lower_seq(name@[j]@),
        decreases name@.len() - i,
    {
        let label = &name[i];
        let mut low: Vec<u8> = Vec::new();
        let mut b: usize = 0;
        while b < label.value.len()
            invariant
                b <= label.value@.len(),
                low@.len() == b,
                forall|m: int|
                    0 <= m < b ==> #[trigger] low@[m] == crate::label::spec_lower(
                        label.value@[m],
                    ),
            decreases label.value@.len() - b,
        {
            low.push(byte_to_lower(label.value[b]));
            b = b + 1;
        }
        proof {
            assert(low@ =~= spec_lower_seq(name@[i as int]@));
        }
        r.push(low);
        i = i + 1;
    }
    proof {
        assert(vec_views(r@) =~= spec_lower_name(labels_view(name@)));
    }
    r
}

/// The first child of `children` carrying `label`, if any.
fn find_child<'a>(children: &'a Vec<Node>, label: &Vec<u8>) -> (r: Option<&'a Node>)
    ensures
        match r {
            Some(c) => spec_find_child(children@, label@) == Some(*c),
            None => spec_find_child(children@, label@) is None,
        },
{
    let mut i: usize = 0;
    proof {
        assert(children@.skip(0) =~= children@);
    }
    while i < children.len()
        invariant
            i <= children@.len(),
            spec_find_child(children@, label@) == spec_find_child(
                children@.skip(i as int),
                label@,
            ),
        decreases children@.len() - i,
    {
        let eq = bytes_eq(&children[i].label, label);
        proof {
            let sk = children@.skip(i as int);
            assert(sk[0] == children@[i as int]);
            assert(sk.drop_first() =~= children@.skip(i + 1));
        }
        if eq {
            return Some(&children[i]);
        }
        i = i + 1;
    }
    proof {
        assert(children@.skip(children@.len() as int) =~= Seq::<Node>::empty());
    }
    None
}

/// A node with no marks and no children blocks nothing.
proof fn lemma_fresh_blocks_nothing(node: Node, name: Seq<Seq<u8>>)
    requires
        !node.blocked,
        !node.wildcard,
        node.children@.len() == 0,
    ensures
        !blocked_spec(node, name),
{
}

/// An entry with at least one label matches no empty name.
proof fn lemma_entry_matches_empty(labels: Seq<Seq<u8>>, idx: int, wildcard: bool)
    requires
        1 <= idx <= labels.len(),
    ensures
        !entry_matches((labels.take(idx), wildcard), Seq::<Seq<u8>>::empty()),
{
    assert(labels.take(idx).len() == idx);
}

/// Peeling the most significant label off both the entry and the name keeps
/// the match, when the name ends with the entry's most significant label.
proof fn lemma_entry_matches_step(labels: Seq<Seq<u8>>, idx: int, wildcard: bool, nm: Seq<Seq<u8>>)
    requires
        1 <= idx <= labels.len(),
        nm.len() >= 1,
        nm.last() == labels[idx - 1],
    ensures
        entry_matches((labels.take(idx - 1), wildcard), nm.drop_last()) == entry_matches(
            (labels.take(idx), wildcard),
            nm,
        ),
{
    let e1 = labels.take(idx - 1);
    let e2 = labels.take(idx);
    let d = nm.drop_last();
    assert(e2.drop_last() =~= e1);
    assert(e2.last() == labels[idx - 1]);
    if wildcard {
        if d.len() > e1.len() && d.skip(d.len() - e1.len()) == e1 {
            assert(nm.skip(nm.len() - e2.len()) =~= e2);
        }
        if nm.len() > e2.len() && nm.skip(nm.len() - e2.len()) == e2 {
            assert(d.skip(d.len() - e1.len()) =~= e1);
        }
    } else {
        if d == e1 {
            assert(nm =~= e2);
        }
        if nm == e2 {
            assert(d =~= e1);
        }
    }
}

/// An entry matches no name whose most significant label differs from the
/// entry's.
proof fn lemma_entry_matches_mismatch(
    labels: Seq<Seq<u8>>,
    idx: int,
    wildcard: bool,
    nm: Seq<Seq<u8>>,
)
    requires
        1 <= idx <= labels.len(),
        nm.len() >= 1,
        nm.last() != labels[idx - 1],
    ensures
        !entry_matches((labels.take(idx), wildcard), nm),
{
    let e2 = labels.take(idx);
    assert(e2.last() == labels[idx - 1]);
    if wildcard {
        if nm.len() > e2.len() && nm.skip(nm.len() - e2.len()) == e2 {
            assert(nm.skip(nm.len() - e2.len()).last() == nm.last());
            assert(false);
        }
    } else {
        if nm == e2 {
            assert(false);
        }
    }
}

/// How replacing the first child carrying `lv` changes lookups: lookups of
/// `lv` now find the replacement; other lookups are unchanged.
proof fn lemma_find_child_update(ch0: Seq<Node>, ch1: Seq<Node>, m: int, lv: Seq<u8>, nl: Seq<u8>)
    requires
        0 <= m < ch0.len(),
        ch1 == ch0.update(m, ch1[m]),
        ch0[m].label@ == lv,
        ch1[m].label@ == lv,
        forall|p: int| 0 <= p < m ==> #[trigger] ch0[p].label@ != lv,
    ensures
        nl == lv ==> spec_find_child(ch0, nl) == Some(ch0[m]) && spec_find_child(ch1, nl) == Some(
            ch1[m],
        ),
        nl != lv ==> spec_find_child(ch1, nl) == spec_find_child(ch0, nl),
    decreases ch0.len(),
{
    if m == 0 {
        if nl != lv {
            assert(ch1.drop_first() =~= ch0.drop_first());
        }
    } else {
        assert(ch1[0] == ch0[0]);
        assert(ch0[0].label@ != lv);
        let d0 = ch0.drop_first();
        let d1 = ch1.drop_first();
        assert(d1 =~= d0.update(m - 1, ch1[m]));
        assert(d0[m - 1] == ch0[m]);
        assert(d1[m - 1] == ch1[m]);
        assert(forall|p: int| 0 <= p < m - 1 ==> #[trigger] d0[p].label@ != lv);
        lemma_find_child_update(d0, d1, m - 1, lv, nl);
    }
}

/// How appending a child carrying a label no sibling has changes lookups:
/// lookups of that label find it; other lookups are unchanged.
proof fn lemma_find_child_push(ch0: Seq<Node>, child: Node, lv: Seq<u8>, nl: Seq<u8>)
    requires
        child.label@ == lv,
        forall|p: int| 0 <= p < ch0.len() ==> #[trigger] ch0[p].label@ != lv,
    ensures
        nl == lv ==> spec_find_child(ch0.push(child), nl) == Some(child),
        nl != lv ==> spec_find_child(ch0.push(child), nl) == spec_find_child(ch0, nl),
    decreases ch0.len(),
{
    let ch1 = ch0.push(child);
    if ch0.len() == 0 {
        assert(ch1[0] == child);
        if nl != lv {
            assert(ch1.drop_first() =~= Seq::<Node>::empty());
            assert(spec_find_child(Seq::<Node>::empty(), nl) is None);
        }
    } else {
        assert(ch1[0] == ch0[0]);
        assert(ch1.drop_first() =~= ch0.drop_first().push(child));
        assert(forall|p: int|
            0 <= p < ch0.drop_first().len() ==> #[trigger] ch0.drop_first()[p].label@ != lv);
        lemma_find_child_push(ch0.drop_first(), child, lv, nl);
    }
}

/// A label no child carries is not found.
proof fn lemma_find_child_none(ch: Seq<Node>, lv: Seq<u8>)
    requires
        forall|p: int| 0 <= p < ch.len() ==> #[trigger] ch[p].label@ != lv,
    ensures
        spec_find_child(ch, lv) is None,
    decreases ch.len(),
{
    if ch.len() > 0 {
        assert(forall|p: int|
            0 <= p < ch.drop_first().len() ==> #[trigger] ch.drop_first()[p].label@ != lv);
        lemma_find_child_none(ch.drop_first(), lv);
    }
}

/// Inserts the first `idx` labels of the entry (walking from the most
/// significant, `labels[idx - 1]`, downward) below `node`, marking the final
/// node blocked or wildcard. The subtree then blocks exactly what it blocked
/// before, plus what the entry `(labels[..idx], wildcard)` matches.
fn insert_rec(node: Node, labels: &Vec<Vec<u8>>, idx: usize, wildcard: bool) -> (r: Node)
    requires
        idx <= labels@.len(),
    ensures
        r.label@ == node.label@,
        forall|nm: Seq<Seq<u8>>| #[trigger]
            blocked_spec(r, nm) == (blocked_spec(node, nm) || entry_matches(
                (vec_views(labels@).take(idx as int), wildcard),
                nm,
            )),
    decreases idx,
{
    let ghost entry = (vec_views(labels@).take(idx as int), wildcard);
    let ghost node0 = node;
    if idx == 0 {
        let mut node = node;
        if wildcard {
            node.wildcard = true;
        } else {
            node.blocked = true;
        }
        proof {
            assert(entry.0 =~= Seq::<Seq<u8>>::empty());
            assert forall|nm: Seq<Seq<u8>>| #[trigger]
                blocked_spec(node, nm) == (blocked_spec(node0, nm) || entry_matches(
                    entry,
                    nm,
                )) by {
                if nm.len() == 0 {
                    assert(nm =~= Seq::<Seq<u8>>::empty());
                }
                if nm.len() > 0 {
                    assert(nm.skip(nm.len() as int) =~= Seq::<Seq<u8>>::empty());
                    if entry.1 {
                        assert(entry_matches(entry, nm));
                        assert(blocked_spec(node, nm));
                    } else {
                        assert(node.wildcard == node0.wildcard);
                        assert(node.children == node0.children);
                    }
                }
            }
        }
        node
    } else {
        let l = &labels[idx - 1];
        let ghost lv = l@;
        let mut node = node;
        let mut j: usize = 0;
        let n_children = node.children.len();
        let mut found: Option<usize> = None;
        proof {
            assert(vec_views(labels@)[idx - 1] == lv);
        }
        while j < n_children
            invariant
                j <= n_children == node.children@.len(),
                node == node0,
                lv == l@,
                match found {
                    Some(m) => 0 <= m < j && node.children@[m as int].label@ == lv && (forall|
                        p: int,
                    |
                        0 <= p < m ==> #[trigger] node.children@[p].label@ != lv),
                    None => forall|p: int|
                        0 <= p < j ==> #[trigger] node.children@[p].label@ != lv,
                },
            decreases n_children - j,
        {
            if found.is_none() {
                let eq = bytes_eq(&node.children[j].label, l);
                if eq {
                    found = Some(j);
                }
            }
            j = j + 1;
        }
        match found {
            Some(m) => {
                let child = node.children.remove(m);
                let ghost child0 = child;
                let child2 = insert_rec(child, labels, idx - 1, wildcard);
                node.children.insert(m, child2);
                proof {
                    assert(node.children@ =~= node0.children@.update(m as int, child2));
                    assert(child0 == node0.children@[m as int]);
                    assert forall|nm: Seq<Seq<u8>>| #[trigger]
                        blocked_spec(node, nm) == (blocked_spec(node0, nm) || entry_matches(
                            entry,
                            nm,
                        )) by {
                        if nm.len() == 0 {
                            lemma_entry_matches_empty(vec_views(labels@), idx as int, wildcard);
                        } else if !node0.wildcard {
                            let nl = nm.last();
                            lemma_find_child_update(
                                node0.children@,
                                node.children@,
                                m as int,
                                lv,
                                nl,
                            );
                            if nl == lv {
                                assert(spec_find_child(node.children@, nl) == Some(child2));
                                assert(spec_find_child(node0.children@, nl) == Some(child0));
                                assert(blocked_spec(node, nm) == blocked_spec(
                                    child2,
                                    nm.drop_last(),
                                ));
                                assert(blocked_spec(node0, nm) == blocked_spec(
                                    child0,
                                    nm.drop_last(),
                                ));
                                assert(blocked_spec(child2, nm.drop_last()) == (blocked_spec(
                                    child0,
                                    nm.drop_last(),
                                ) || entry_matches(
                                    (vec_views(labels@).take(idx - 1), wildcard),
                                    nm.drop_last(),
                                )));
                                lemma_entry_matches_step(
                                    vec_views(labels@),
                                    idx as int,
                                    wildcard,
                                    nm,
                                );
                            } else {
                                assert(spec_find_child(node.children@, nl) == spec_find_child(
                                    node0.children@,
                                    nl,
                                ));
                                lemma_entry_matches_mismatch(
                                    vec_views(labels@),
                                    idx as int,
                                    wildcard,
                                    nm,
                                );
                            }
                        }
                    }
                }
                node
            },
            None => {
                let fresh = Node {
                    label: vstd::slice::slice_to_vec(l.as_slice()),
                    blocked: false,
                    wildcard: false,
                    children: Vec::new(),
                };
                let ghost fresh0 = fresh;
                let child2 = insert_rec(fresh, labels, idx - 1, wildcard);
                node.children.push(child2);
                proof {
                    assert(node.children@ =~= node0.children@.push(child2));
                    assert forall|nm: Seq<Seq<u8>>| #[trigger]
                        blocked_spec(node, nm) == (blocked_spec(node0, nm) || entry_matches(
                            entry,
                            nm,
                        )) by {
                        if nm.len() == 0 {
                            lemma_entry_matches_empty(vec_views(labels@), idx as int, wildcard);
                        } else if !node0.wildcard {
                            let nl = nm.last();
                            lemma_find_child_push(node0.children@, child2, lv, nl);
                            lemma_find_child_none(node0.children@, lv);
                            if nl == lv {
                                assert(spec_find_child(node.children@, nl) == Some(child2));
                                assert(spec_find_child(node0.children@, nl) is None);
                                assert(blocked_spec(node, nm) == blocked_spec(
                                    child2,
                                    nm.drop_last(),
                                ));
                                assert(!blocked_spec(node0, nm));
                                assert(blocked_spec(child2, nm.drop_last()) == (blocked_spec(
                                    fresh0,
                                    nm.drop_last(),
                                ) || entry_matches(
                                    (vec_views(labels@).take(idx - 1), wildcard),
                                    nm.drop_last(),
                                )));
                                lemma_entry_matches_step(
                                    vec_views(labels@),
                                    idx as int,
                                    wildcard,
                                    nm,
                                );
                                lemma_fresh_blocks_nothing(fresh0, nm.drop_last());
                            } else {
                                assert(spec_find_child(node.children@, nl) == spec_find_child(
                                    node0.children@,
                                    nl,
                                ));
                                lemma_entry_matches_mismatch(
                                    vec_views(labels@),
                                    idx as int,
                                    wildcard,
                                    nm,
                                );
                            }
                        }
                    }
                }
                node
            },
        }
    }
}

} // verus!
