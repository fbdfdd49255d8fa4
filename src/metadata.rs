//! The metadata container of a contract node and its flattening into leaves.

use vstd::prelude::*;

use crate::data::{copy_bytes, FieldType, Kind, Revealed, Value};
use crate::keyed::last_value_of;
use crate::encoding::{encodable, encode_value, le_bytes, push_le, push_value, MAX_LEN};

verus! {

/// Models of a sequence of typed values.
pub open spec fn values_view(v: Seq<Revealed>) -> Seq<Value> {
    v.map_values(|r: Revealed| r@)
}

/// Keys strictly ascending: every field appears once, in canonical order.
pub open spec fn keys_ascending(s: Seq<(FieldType, Seq<Value>)>) -> bool {
    forall|i: int, j: int| 0 <= i < j < s.len() ==> s[i].0 < s[j].0
}

/// The values held for `f`; empty where `f` has no entry.
pub open spec fn lookup(s: Seq<(FieldType, Seq<Value>)>, f: FieldType) -> Seq<Value>
    decreases s.len(),
{
    if s.len() == 0 {
        Seq::empty()
    } else if s[0].0 == f {
        s[0].1
    } else {
        lookup(s.drop_first(), f)
    }
}

/// Whether `f` has an entry.
pub open spec fn has_key(s: Seq<(FieldType, Seq<Value>)>, f: FieldType) -> bool {
    exists|i: int| 0 <= i < s.len() && s[i].0 == f
}

/// The values of kind `k`, in the order they were given.
pub open spec fn of_kind(s: Seq<Value>, k: Kind) -> Seq<Value>
    decreases s.len(),
{
    if s.len() == 0 {
        Seq::empty()
    } else if s.last().kind() == k {
        of_kind(s.drop_last(), k).push(s.last())
    } else {
        of_kind(s.drop_last(), k)
    }
}

/// One leaf per disclosed value: fields in container order, values in
/// their order within the field.
pub open spec fn flatten(s: Seq<(FieldType, Seq<Value>)>) -> Seq<(FieldType, Value)>
    decreases s.len(),
{
    if s.len() == 0 {
        Seq::empty()
    } else {
        flatten(s.drop_last()) + leaves_of(s.last().0, s.last().1)
    }
}

/// The leaves of one field.
pub open spec fn leaves_of(f: FieldType, vals: Seq<Value>) -> Seq<(FieldType, Value)> {
    vals.map_values(|v: Value| (f, v))
}

/// In a container with ascending keys, the lookup of an entry's key yields
/// that entry's values.
pub proof fn lemma_lookup_index(s: Seq<(FieldType, Seq<Value>)>, k: int)
    requires
        keys_ascending(s),
        0 <= k < s.len(),
    ensures
        lookup(s, s[k].0) == s[k].1,
    decreases s.len(),
{
    if k > 0 {
        assert(s[0].0 < s[k].0);
        assert(s.drop_first()[k - 1] == s[k]);
        lemma_lookup_index(s.drop_first(), k - 1);
    }
}

/// A key without an entry looks up to the empty sequence.
pub proof fn lemma_lookup_absent(s: Seq<(FieldType, Seq<Value>)>, g: FieldType)
    requires
        !has_key(s, g),
    ensures
        lookup(s, g) == Seq::<Value>::empty(),
    decreases s.len(),
{
    if s.len() > 0 {
        assert(s[0].0 != g);
        assert forall|j: int| 0 <= j < s.drop_first().len() implies s.drop_first()[j].0 != g by {
            assert(s.drop_first()[j] == s[j + 1]);
        }
        lemma_lookup_absent(s.drop_first(), g);
    }
}

/// Two containers with ascending keys that agree on which fields have an
/// entry and on every field's values are the same sequence.
pub proof fn lemma_ascending_unique(s1: Seq<(FieldType, Seq<Value>)>, s2: Seq<(FieldType, Seq<Value>)>)
    requires
        keys_ascending(s1),
        keys_ascending(s2),
        forall|g: FieldType| #[trigger] has_key(s1, g) <==> has_key(s2, g),
        forall|g: FieldType| #[trigger] lookup(s1, g) == lookup(s2, g),
    ensures
        s1 == s2,
    decreases s1.len(),
{
    if s1.len() == 0 {
        if s2.len() > 0 {
            assert(has_key(s2, s2[0].0));
            assert(has_key(s1, s2[0].0));
        }
        assert(s1 =~= s2);
    } else if s2.len() == 0 {
        assert(has_key(s1, s1[0].0));
        assert(has_key(s2, s1[0].0));
    } else {
        let a = s1[0].0;
        let b = s2[0].0;
        assert(has_key(s1, a));
        assert(has_key(s2, b));
        assert(has_key(s2, a));
        assert(has_key(s1, b));
        let j2 = choose|j: int| 0 <= j < s2.len() && s2[j].0 == a;
        let j1 = choose|j: int| 0 <= j < s1.len() && s1[j].0 == b;
        assert(b <= a) by {
            if j2 > 0 {
                assert(s2[0].0 < s2[j2].0);
            }
        }
        assert(a <= b) by {
            if j1 > 0 {
                assert(s1[0].0 < s1[j1].0);
            }
        }
        lemma_lookup_index(s1, 0);
        lemma_lookup_index(s2, 0);
        let t1 = s1.drop_first();
        let t2 = s2.drop_first();
        assert forall|g: FieldType| #[trigger] has_key(t1, g) <==> (has_key(s1, g) && g != a) by {
            if has_key(t1, g) {
                let j = choose|j: int| 0 <= j < t1.len() && t1[j].0 == g;
                assert(s1[j + 1].0 == g);
                assert(s1[0].0 < s1[j + 1].0);
            }
            if has_key(s1, g) && g != a {
                let j = choose|j: int| 0 <= j < s1.len() && s1[j].0 == g;
                assert(t1[j - 1].0 == g);
            }
        }
        assert forall|g: FieldType| #[trigger] has_key(t2, g) <==> (has_key(s2, g) && g != a) by {
            if has_key(t2, g) {
                let j = choose|j: int| 0 <= j < t2.len() && t2[j].0 == g;
                assert(s2[j + 1].0 == g);
                assert(s2[0].0 < s2[j + 1].0);
            }
            if has_key(s2, g) && g != a {
                let j = choose|j: int| 0 <= j < s2.len() && s2[j].0 == g;
                assert(t2[j - 1].0 == g);
            }
        }
        assert forall|g: FieldType| #[trigger] lookup(t1, g) == lookup(t2, g) by {
            if g == a {
                lemma_lookup_absent(t1, g);
                lemma_lookup_absent(t2, g);
            } else {
                assert(lookup(s1, g) == lookup(t1, g));
                assert(lookup(s2, g) == lookup(t2, g));
            }
        }
        assert forall|i: int, j: int| 0 <= i < j < t1.len() implies t1[i].0 < t1[j].0 by {
            assert(s1[i + 1].0 < s1[j + 1].0);
        }
        assert forall|i: int, j: int| 0 <= i < j < t2.len() implies t2[i].0 < t2[j].0 by {
            assert(s2[i + 1].0 < s2[j + 1].0);
        }
        lemma_ascending_unique(t1, t2);
        assert forall|i: int| 0 <= i < s1.len() implies s1[i] == s2[i] by {
            if i > 0 {
                assert(s1[i] == t1[i - 1]);
                assert(s2[i] == t2[i - 1]);
            }
        }
        assert(s1 =~= s2);
    }
}

/// A field without an entry has no values of any kind: every accessor
/// returns an empty sequence for it.
pub proof fn lemma_absent_field_is_empty(m: Metadata, f: FieldType, k: Kind)
    requires
        !has_key(m@, f),
    ensures
        of_kind(m.get(f), k) == Seq::<Value>::empty(),
{
    lemma_lookup_absent(m@, f);
}

/// Replacing or adding one entry, keys staying ascending: lookups of the new
/// key give the new values, all others are unchanged.
proof fn lemma_put(
    old_s: Seq<(FieldType, Seq<Value>)>,
    new_s: Seq<(FieldType, Seq<Value>)>,
    i: int,
    field: FieldType,
    vals: Seq<Value>,
)
    requires
        keys_ascending(old_s),
        keys_ascending(new_s),
        0 <= i < new_s.len(),
        new_s[i] == (field, vals),
        forall|g: FieldType| #[trigger] has_key(new_s, g) <==> (g == field || has_key(old_s, g)),
        forall|j: int| 0 <= j < old_s.len() && old_s[j].0 != field ==> exists|k: int|
            0 <= k < new_s.len() && #[trigger] new_s[k] == #[trigger] old_s[j],
    ensures
        forall|g: FieldType| #[trigger]
            lookup(new_s, g) == if g == field {
                vals
            } else {
                lookup(old_s, g)
            },
{
    assert forall|g: FieldType| #[trigger]
        lookup(new_s, g) == if g == field {
            vals
        } else {
            lookup(old_s, g)
        } by {
        if g == field {
            lemma_lookup_index(new_s, i);
        } else if has_key(old_s, g) {
            let j = choose|j: int| 0 <= j < old_s.len() && old_s[j].0 == g;
            let k = choose|k: int| 0 <= k < new_s.len() && new_s[k] == old_s[j];
            lemma_lookup_index(old_s, j);
            lemma_lookup_index(new_s, k);
        } else {
            lemma_lookup_absent(old_s, g);
            lemma_lookup_absent(new_s, g);
        }
    }
}

/// Encodings of the values, one after another.
pub open spec fn values_body(vs: Seq<Value>) -> Seq<u8>
    decreases vs.len(),
{
    if vs.len() == 0 {
        Seq::empty()
    } else {
        values_body(vs.drop_last()) + encode_value(vs.last())
    }
}

/// Encodings of the entries: each field type, its number of values, and
/// the values.
pub open spec fn entries_body(s: Seq<(FieldType, Seq<Value>)>) -> Seq<u8>
    decreases s.len(),
{
    if s.len() == 0 {
        Seq::empty()
    } else {
        entries_body(s.drop_last()) + le_bytes(s.last().0 as u64, 2) + le_bytes(
            s.last().1.len() as u64,
            2,
        ) + values_body(s.last().1)
    }
}

/// The canonical encoding of a container: its number of fields, then its
/// entries in order.
pub open spec fn encode_metadata(s: Seq<(FieldType, Seq<Value>)>) -> Seq<u8> {
    le_bytes(s.len() as u64, 2) + entries_body(s)
}

/// Whether a container has an encoding: every count fits two bytes and
/// every value is encodable.
pub open spec fn serializable(s: Seq<(FieldType, Seq<Value>)>) -> bool {
    &&& s.len() <= MAX_LEN
    &&& forall|i: int| 0 <= i < s.len() ==> #[trigger] s[i].1.len() <= MAX_LEN
    &&& forall|i: int, j: int|
        0 <= i < s.len() && 0 <= j < s[i].1.len() ==> encodable(#[trigger] s[i].1[j])
}

/// Models of (field type, values) pairs.
pub open spec fn pairs_view(p: Seq<(FieldType, Vec<Revealed>)>) -> Seq<(FieldType, Seq<Value>)> {
    p.map_values(|e: (FieldType, Vec<Revealed>)| (e.0, values_view(e.1@)))
}

/// A fresh vector holding copies of the values.
fn copy_values(v: &Vec<Revealed>) -> (r: Vec<Revealed>)
    ensures
        values_view(r@) == values_view(v@),
{
    let mut r: Vec<Revealed> = Vec::new();
    let mut i: usize = 0;
    while i < v.len()
        invariant
            i <= v@.len(),
            values_view(r@) == values_view(v@).subrange(0, i as int),
        decreases v@.len() - i,
    {
        let ghost before = r@;
        let d = v[i].duplicate();
        r.push(d);
        assert(values_view(r@) =~= values_view(before).push(v@[i as int]@));
        assert(values_view(r@) =~= values_view(v@).subrange(0, i + 1));
        i = i + 1;
    }
    assert(values_view(v@).subrange(0, v@.len() as int) =~= values_view(v@));
    r
}

/// Transition and genesis metadata: field type to the values disclosed for it.
#[derive(Clone, Debug)]
pub struct Metadata {
    entries: Vec<(FieldType, Vec<Revealed>)>,
}

/// One disclosed value together with its field type: the unit committed into
/// the Merkle tree.
#[derive(Clone, PartialEq, Eq, PartialOrd, Ord, Debug)]
pub struct MetadataLeaf(pub FieldType, pub Revealed);

impl View for MetadataLeaf {
    type V = (FieldType, Value);

    open spec fn view(&self) -> (FieldType, Value) {
        (self.0, self.1@)
    }
}

impl View for Metadata {
    type V = Seq<(FieldType, Seq<Value>)>;

    closed spec fn view(&self) -> Seq<(FieldType, Seq<Value>)> {
        self.entries@.map_values(|e: (FieldType, Vec<Revealed>)| (e.0, values_view(e.1@)))
    }
}

impl Metadata {
    /// Every field appears once, fields in ascending order.
    pub open spec fn wf(&self) -> bool {
        keys_ascending(self@)
    }

    /// The values held for `f`.
    pub open spec fn get(&self, f: FieldType) -> Seq<Value> {
        lookup(self@, f)
    }

    /// The empty container.
    pub fn new() -> (r: Metadata)
        ensures
            r.wf(),
            r@ == Seq::<(FieldType, Seq<Value>)>::empty(),
    {
        let r = Metadata { entries: Vec::new() };
        assert(r@ =~= Seq::<(FieldType, Seq<Value>)>::empty());
        r
    }

    /// Sets the values of `field`, replacing any held before; the entry
    /// takes its place in ascending key order.
    pub fn insert(&mut self, field: FieldType, values: Vec<Revealed>)
        requires
            old(self).wf(),
        ensures
            final(self).wf(),
            forall|g: FieldType| #[trigger]
                final(self).get(g) == if g == field {
                    values_view(values@)
                } else {
                    old(self).get(g)
                },
            forall|g: FieldType| #[trigger]
                has_key(final(self)@, g) <==> (g == field || has_key(old(self)@, g)),
    {
        let ghost old_s = self@;
        let ghost vals = values_view(values@);
        let mut i: usize = 0;
        while i < self.entries.len() && self.entries[i].0 < field
            invariant
                old_s == self@,
                i <= old_s.len(),
                forall|j: int| 0 <= j < i ==> old_s[j].0 < field,
            decreases old_s.len() - i,
        {
            i = i + 1;
        }
        if i < self.entries.len() && self.entries[i].0 == field {
            self.entries.set(i, (field, values));
            assert(self@ =~= old_s.update(i as int, (field, vals)));
            assert forall|k: int| 0 <= k < self@.len() implies self@[k].0 == old_s[k].0 by {
                if k != i {
                    assert(self@[k] == old_s[k]);
                }
            }
            assert(self@[i as int].0 == field);
            assert forall|a: int, b: int| 0 <= a < b < self@.len() implies self@[a].0 < self@[b].0 by {
                assert(old_s[a].0 < old_s[b].0);
            }
            assert forall|g: FieldType| #[trigger]
                has_key(self@, g) <==> (g == field || has_key(old_s, g)) by {
                if has_key(old_s, g) {
                    let j = choose|j: int| 0 <= j < old_s.len() && old_s[j].0 == g;
                    assert(self@[j].0 == g);
                }
                if has_key(self@, g) {
                    let j = choose|j: int| 0 <= j < self@.len() && self@[j].0 == g;
                    if j != i {
                        assert(old_s[j].0 == g);
                    }
                }
            }
            assert forall|j: int| 0 <= j < old_s.len() && old_s[j].0 != field implies exists|k: int|
                0 <= k < self@.len() && #[trigger] self@[k] == #[trigger] old_s[j] by {
                assert(self@[j] == old_s[j]);
            }
            proof {
                lemma_put(old_s, self@, i as int, field, vals);
            }
        } else {
            self.entries.insert(i, (field, values));
            assert(self@ =~= old_s.insert(i as int, (field, vals)));
            assert(self@[i as int].0 == field);
            assert forall|a: int, b: int| 0 <= a < b < self@.len() implies self@[a].0 < self@[b].0 by {
                if b < i {
                    assert(old_s[a].0 < old_s[b].0);
                } else if a > i {
                    assert(old_s[a - 1].0 < old_s[b - 1].0);
                } else if a < i && b > i {
                    assert(old_s[a].0 < field);
                    assert(old_s[i as int].0 > field);
                    assert(old_s[i as int].0 <= old_s[b - 1].0);
                } else if a == i {
                    assert(old_s[i as int].0 > field);
                    assert(old_s[i as int].0 <= old_s[b - 1].0);
                }
            }
            assert forall|g: FieldType| #[trigger]
                has_key(self@, g) <==> (g == field || has_key(old_s, g)) by {
                if has_key(old_s, g) {
                    let j = choose|j: int| 0 <= j < old_s.len() && old_s[j].0 == g;
                    if j < i {
                        assert(self@[j].0 == g);
                    } else {
                        assert(self@[j + 1].0 == g);
                    }
                }
                if has_key(self@, g) {
                    let j = choose|j: int| 0 <= j < self@.len() && self@[j].0 == g;
                    if j < i {
                        assert(old_s[j].0 == g);
                    } else if j > i {
                        assert(old_s[j - 1].0 == g);
                    }
                }
            }
            assert forall|j: int| 0 <= j < old_s.len() && old_s[j].0 != field implies exists|k: int|
                0 <= k < self@.len() && #[trigger] self@[k] == #[trigger] old_s[j] by {
                if j < i {
                    assert(self@[j] == old_s[j]);
                } else {
                    assert(self@[j + 1] == old_s[j]);
                }
            }
            proof {
                lemma_put(old_s, self@, i as int, field, vals);
            }
        }
    }

    /// The leaves of this container: for each field in ascending order, one
    /// leaf per value, in the field's order.
    pub fn to_leaves(&self) -> (r: Vec<MetadataLeaf>)
        ensures
            r@.map_values(|l: MetadataLeaf| l@) == flatten(self@),
    {
        let mut r: Vec<MetadataLeaf> = Vec::new();
        let ghost s = self@;
        let mut i: usize = 0;
        assert(r@.map_values(|l: MetadataLeaf| l@) =~= flatten(s.subrange(0, 0)));
        while i < self.entries.len()
            invariant
                s == self@,
                i <= s.len(),
                r@.map_values(|l: MetadataLeaf| l@) == flatten(s.subrange(0, i as int)),
            decreases s.len() - i,
        {
            let f = self.entries[i].0;
            let vals = &self.entries[i].1;
            let ghost base = r@.map_values(|l: MetadataLeaf| l@);
            let ghost vs = values_view(vals@);
            let mut j: usize = 0;
            assert(base =~= base + leaves_of(f, vs.subrange(0, 0)));
            while j < vals.len()
                invariant
                    j <= vals@.len(),
                    vs == values_view(vals@),
                    r@.map_values(|l: MetadataLeaf| l@) == base + leaves_of(f, vs.subrange(0, j as int)),
                decreases vals@.len() - j,
            {
                let ghost before = r@;
                r.push(MetadataLeaf(f, vals[j].duplicate()));
                assert(r@.map_values(|l: MetadataLeaf| l@) =~= before.map_values(|l: MetadataLeaf| l@).push((f, vs[j as int])));
                assert(leaves_of(f, vs.subrange(0, j + 1)) =~= leaves_of(f, vs.subrange(0, j as int)).push((f, vs[j as int])));
                j = j + 1;
            }
            assert(vs.subrange(0, vals@.len() as int) =~= vs);
            assert(s.subrange(0, i + 1).drop_last() =~= s.subrange(0, i as int));
            assert(s.subrange(0, i + 1).last() == (f, vs));
            i = i + 1;
        }
        assert(s.subrange(0, s.len() as int) =~= s);
        r
    }

    /// Each field with the number of values it holds.
    pub open spec fn counts_spec(&self) -> Seq<(FieldType, usize)> {
        self@.map_values(|e: (FieldType, Seq<Value>)| (e.0, e.1.len() as usize))
    }

    /// Each field with the number of values it holds, in ascending order.
    pub fn counts(&self) -> (r: Vec<(FieldType, usize)>)
        ensures
            r@ == self.counts_spec(),
    {
        let mut r: Vec<(FieldType, usize)> = Vec::new();
        let mut i: usize = 0;
        while i < self.entries.len()
            invariant
                i <= self@.len(),
                r@ == self.counts_spec().subrange(0, i as int),
            decreases self@.len() - i,
        {
            r.push((self.entries[i].0, self.entries[i].1.len()));
            assert(r@ =~= self.counts_spec().subrange(0, i + 1));
            i = i + 1;
        }
        assert(self.counts_spec().subrange(0, self@.len() as int) =~= self.counts_spec());
        r
    }

    /// The canonical encoding of this container.
    pub fn encode(&self) -> (r: Vec<u8>)
        requires
            serializable(self@),
        ensures
            r@ == encode_metadata(self@),
    {
        let ghost s = self@;
        let mut out: Vec<u8> = Vec::new();
        push_le(&mut out, self.entries.len() as u64, 2);
        let ghost start = out@;
        let mut i: usize = 0;
        assert(start =~= start + entries_body(s.subrange(0, 0)));
        while i < self.entries.len()
            invariant
                s == self@,
                serializable(s),
                i <= s.len(),
                out@ == start + entries_body(s.subrange(0, i as int)),
            decreases s.len() - i,
        {
            let vals = &self.entries[i].1;
            let ghost vs = values_view(vals@);
            assert(vs == s[i as int].1);
            assert(vs.len() <= MAX_LEN);
            push_le(&mut out, self.entries[i].0 as u64, 2);
            push_le(&mut out, vals.len() as u64, 2);
            let ghost mid = out@;
            let mut j: usize = 0;
            assert(mid =~= mid + values_body(vs.subrange(0, 0)));
            while j < vals.len()
                invariant
                    s == self@,
                    serializable(s),
                    i < s.len(),
                    vs == s[i as int].1,
                    vs == values_view(vals@),
                    j <= vs.len(),
                    out@ == mid + values_body(vs.subrange(0, j as int)),
                decreases vs.len() - j,
            {
                assert(encodable(s[i as int].1[j as int]));
                push_value(&mut out, &vals[j]);
                assert(vs.subrange(0, j + 1).drop_last() =~= vs.subrange(0, j as int));
                assert(out@ =~= mid + values_body(vs.subrange(0, j + 1)));
                j = j + 1;
            }
            assert(vs.subrange(0, vs.len() as int) =~= vs);
            assert(s.subrange(0, i + 1).drop_last() =~= s.subrange(0, i as int));
            assert(out@ =~= start + entries_body(s.subrange(0, i + 1)));
            i = i + 1;
        }
        assert(s.subrange(0, s.len() as int) =~= s);
        assert(out@ =~= encode_metadata(s));
        out
    }

    /// The entry at position `i`: entries come in ascending field order.
    pub fn entry(&self, i: usize) -> (r: (FieldType, &Vec<Revealed>))
        requires
            i < self@.len(),
        ensures
            (r.0, values_view(r.1@)) == self@[i as int],
    {
        (self.entries[i].0, &self.entries[i].1)
    }

    /// What the container maps `f` to: its values where it has an entry.
    pub open spec fn mapping(&self, f: FieldType) -> Option<Seq<Value>> {
        if has_key(self@, f) {
            Some(self.get(f))
        } else {
            None
        }
    }

    /// The container holding the given pairs, inserted in order: where a
    /// field type repeats, its last pair wins.
    pub fn from_inner(pairs: &Vec<(FieldType, Vec<Revealed>)>) -> (r: Metadata)
        ensures
            r.wf(),
            forall|g: FieldType| #[trigger] r.mapping(g) == last_value_of(pairs_view(pairs@), g),
    {
        let ghost pv = pairs_view(pairs@);
        let mut m = Metadata::new();
        let mut i: usize = 0;
        proof {
            assert forall|g: FieldType| #[trigger] m.mapping(g) == last_value_of(pv.subrange(0, 0), g) by {
                assert(!has_key(m@, g));
            }
        }
        while i < pairs.len()
            invariant
                pv == pairs_view(pairs@),
                i <= pv.len(),
                m.wf(),
                forall|g: FieldType| #[trigger] m.mapping(g) == last_value_of(pv.subrange(0, i as int), g),
            decreases pv.len() - i,
        {
            let f = pairs[i].0;
            let vals = copy_values(&pairs[i].1);
            let ghost before = m;
            m.insert(f, vals);
            proof {
                let sub = pv.subrange(0, i + 1);
                assert(sub.drop_last() =~= pv.subrange(0, i as int));
                assert(sub.last() == pv[i as int]);
                assert forall|g: FieldType| #[trigger] m.mapping(g) == last_value_of(sub, g) by {
                    assert(m.get(g) == before.get(g) || g == f);
                    assert(before.mapping(g) == last_value_of(pv.subrange(0, i as int), g));
                }
            }
            i = i + 1;
        }
        assert(pv.subrange(0, pv.len() as int) =~= pv);
        m
    }

    /// Number of fields with an entry.
    pub fn len(&self) -> (r: usize)
        ensures
            r == self@.len(),
    {
        self.entries.len()
    }

    /// The `u8` values disclosed for `field`, in order; values of other
    /// kinds are skipped.
    pub fn u8(&self, field: FieldType) -> (r: Vec<u8>)
        ensures
            r@ == of_kind(self.get(field), Kind::U8).map_values(|v: Value| v->U8_0),
    {
        let mut r: Vec<u8> = Vec::new();
        match self.find(field) {
            None => {},
            Some(k) => {
                let vals = &self.entries[k].1;
                let ghost s = values_view(vals@);
                assert(s == self.get(field));
                let mut i: usize = 0;
                while i < vals.len()
                    invariant
                        i <= vals@.len(),
                        s == values_view(vals@),
                        r@ == of_kind(s.subrange(0, i as int), Kind::U8).map_values(|v: Value| v->U8_0),
                    decreases vals@.len() - i,
                {
                    assert(s.subrange(0, i + 1).drop_last() =~= s.subrange(0, i as int));
                    match &vals[i] {
                        Revealed::U8(x) => {
                            r.push(*x);
                        },
                        _ => {},
                    }
                    assert(r@ =~= of_kind(s.subrange(0, i + 1), Kind::U8).map_values(|v: Value| v->U8_0));
                    i = i + 1;
                }
                assert(s.subrange(0, vals@.len() as int) =~= s);
            },
        }
        r
    }
    /// The `u16` values disclosed for `field`, in order; values of other
    /// kinds are skipped.
    pub fn u16(&self, field: FieldType) -> (r: Vec<u16>)
        ensures
            r@ == of_kind(self.get(field), Kind::U16).map_values(|v: Value| v->U16_0),
    {
        let mut r: Vec<u16> = Vec::new();
        match self.find(field) {
            None => {},
            Some(k) => {
                let vals = &self.entries[k].1;
                let ghost s = values_view(vals@);
                assert(s == self.get(field));
                let mut i: usize = 0;
                while i < vals.len()
                    invariant
                        i <= vals@.len(),
                        s == values_view(vals@),
                        r@ == of_kind(s.subrange(0, i as int), Kind::U16).map_values(|v: Value| v->U16_0),
                    decreases vals@.len() - i,
                {
                    assert(s.subrange(0, i + 1).drop_last() =~= s.subrange(0, i as int));
                    match &vals[i] {
                        Revealed::U16(x) => {
                            r.push(*x);
                        },
                        _ => {},
                    }
                    assert(r@ =~= of_kind(s.subrange(0, i + 1), Kind::U16).map_values(|v: Value| v->U16_0));
                    i = i + 1;
                }
                assert(s.subrange(0, vals@.len() as int) =~= s);
            },
        }
        r
    }
    /// The `u32` values disclosed for `field`, in order; values of other
    /// kinds are skipped.
    pub fn u32(&self, field: FieldType) -> (r: Vec<u32>)
        ensures
            r@ == of_kind(self.get(field), Kind::U32).map_values(|v: Value| v->U32_0),
    {
        let mut r: Vec<u32> = Vec::new();
        match self.find(field) {
            None => {},
            Some(k) => {
                let vals = &self.entries[k].1;
                let ghost s = values_view(vals@);
                assert(s == self.get(field));
                let mut i: usize = 0;
                while i < vals.len()
                    invariant
                        i <= vals@.len(),
                        s == values_view(vals@),
                        r@ == of_kind(s.subrange(0, i as int), Kind::U32).map_values(|v: Value| v->U32_0),
                    decreases vals@.len() - i,
                {
                    assert(s.subrange(0, i + 1).drop_last() =~= s.subrange(0, i as int));
                    match &vals[i] {
                        Revealed::U32(x) => {
                            r.push(*x);
                        },
                        _ => {},
                    }
                    assert(r@ =~= of_kind(s.subrange(0, i + 1), Kind::U32).map_values(|v: Value| v->U32_0));
                    i = i + 1;
                }
                assert(s.subrange(0, vals@.len() as int) =~= s);
            },
        }
        r
    }
    /// The `u64` values disclosed for `field`, in order; values of other
    /// kinds are skipped.
    pub fn u64(&self, field: FieldType) -> (r: Vec<u64>)
        ensures
            r@ == of_kind(self.get(field), Kind::U64).map_values(|v: Value| v->U64_0),
    {
        let mut r: Vec<u64> = Vec::new();
        match self.find(field) {
            None => {},
            Some(k) => {
                let vals = &self.entries[k].1;
                let ghost s = values_view(vals@);
                assert(s == self.get(field));
                let mut i: usize = 0;
                while i < vals.len()
                    invariant
                        i <= vals@.len(),
                        s == values_view(vals@),
                        r@ == of_kind(s.subrange(0, i as int), Kind::U64).map_values(|v: Value| v->U64_0),
                    decreases vals@.len() - i,
                {
                    assert(s.subrange(0, i + 1).drop_last() =~= s.subrange(0, i as int));
                    match &vals[i] {
                        Revealed::U64(x) => {
                            r.push(*x);
                        },
                        _ => {},
                    }
                    assert(r@ =~= of_kind(s.subrange(0, i + 1), Kind::U64).map_values(|v: Value| v->U64_0));
                    i = i + 1;
                }
                assert(s.subrange(0, vals@.len() as int) =~= s);
            },
        }
        r
    }
    /// The `i8` values disclosed for `field`, in order; values of other
    /// kinds are skipped.
    pub fn i8(&self, field: FieldType) -> (r: Vec<i8>)
        ensures
            r@ == of_kind(self.get(field), Kind::I8).map_values(|v: Value| v->I8_0),
    {
        let mut r: Vec<i8> = Vec::new();
        match self.find(field) {
            None => {},
            Some(k) => {
                let vals = &self.entries[k].1;
                let ghost s = values_view(vals@);
                assert(s == self.get(field));
                let mut i: usize = 0;
                while i < vals.len()
                    invariant
                        i <= vals@.len(),
                        s == values_view(vals@),
                        r@ == of_kind(s.subrange(0, i as int), Kind::I8).map_values(|v: Value| v->I8_0),
                    decreases vals@.len() - i,
                {
                    assert(s.subrange(0, i + 1).drop_last() =~= s.subrange(0, i as int));
                    match &vals[i] {
                        Revealed::I8(x) => {
                            r.push(*x);
                        },
                        _ => {},
                    }
                    assert(r@ =~= of_kind(s.subrange(0, i + 1), Kind::I8).map_values(|v: Value| v->I8_0));
                    i = i + 1;
                }
                assert(s.subrange(0, vals@.len() as int) =~= s);
            },
        }
        r
    }
    /// The `i16` values disclosed for `field`, in order; values of other
    /// kinds are skipped.
    pub fn i16(&self, field: FieldType) -> (r: Vec<i16>)
        ensures
            r@ == of_kind(self.get(field), Kind::I16).map_values(|v: Value| v->I16_0),
    {
        let mut r: Vec<i16> = Vec::new();
        match self.find(field) {
            None => {},
            Some(k) => {
                let vals = &self.entries[k].1;
                let ghost s = values_view(vals@);
                assert(s == self.get(field));
                let mut i: usize = 0;
                while i < vals.len()
                    invariant
                        i <= vals@.len(),
                        s == values_view(vals@),
                        r@ == of_kind(s.subrange(0, i as int), Kind::I16).map_values(|v: Value| v->I16_0),
                    decreases vals@.len() - i,
                {
                    assert(s.subrange(0, i + 1).drop_last() =~= s.subrange(0, i as int));
                    match &vals[i] {
                        Revealed::I16(x) => {
                            r.push(*x);
                        },
                        _ => {},
                    }
                    assert(r@ =~= of_kind(s.subrange(0, i + 1), Kind::I16).map_values(|v: Value| v->I16_0));
                    i = i + 1;
                }
                assert(s.subrange(0, vals@.len() as int) =~= s);
            },
        }
        r
    }
    /// The `i32` values disclosed for `field`, in order; values of other
    /// kinds are skipped.
    pub fn i32(&self, field: FieldType) -> (r: Vec<i32>)
        ensures
            r@ == of_kind(self.get(field), Kind::I32).map_values(|v: Value| v->I32_0),
    {
        let mut r: Vec<i32> = Vec::new();
        match self.find(field) {
            None => {},
            Some(k) => {
                let vals = &self.entries[k].1;
                let ghost s = values_view(vals@);
                assert(s == self.get(field));
                let mut i: usize = 0;
                while i < vals.len()
                    invariant
                        i <= vals@.len(),
                        s == values_view(vals@),
                        r@ == of_kind(s.subrange(0, i as int), Kind::I32).map_values(|v: Value| v->I32_0),
                    decreases vals@.len() - i,
                {
                    assert(s.subrange(0, i + 1).drop_last() =~= s.subrange(0, i as int));
                    match &vals[i] {
                        Revealed::I32(x) => {
                            r.push(*x);
                        },
                        _ => {},
                    }
                    assert(r@ =~= of_kind(s.subrange(0, i + 1), Kind::I32).map_values(|v: Value| v->I32_0));
                    i = i + 1;
                }
                assert(s.subrange(0, vals@.len() as int) =~= s);
            },
        }
        r
    }
    /// The `i64` values disclosed for `field`, in order; values of other
    /// kinds are skipped.
    pub fn i64(&self, field: FieldType) -> (r: Vec<i64>)
        ensures
            r@ == of_kind(self.get(field), Kind::I64).map_values(|v: Value| v->I64_0),
    {
        let mut r: Vec<i64> = Vec::new();
        match self.find(field) {
            None => {},
            Some(k) => {
                let vals = &self.entries[k].1;
                let ghost s = values_view(vals@);
                assert(s == self.get(field));
                let mut i: usize = 0;
                while i < vals.len()
                    invariant
                        i <= vals@.len(),
                        s == values_view(vals@),
                        r@ == of_kind(s.subrange(0, i as int), Kind::I64).map_values(|v: Value| v->I64_0),
                    decreases vals@.len() - i,
                {
                    assert(s.subrange(0, i + 1).drop_last() =~= s.subrange(0, i as int));
                    match &vals[i] {
                        Revealed::I64(x) => {
                            r.push(*x);
                        },
                        _ => {},
                    }
                    assert(r@ =~= of_kind(s.subrange(0, i + 1), Kind::I64).map_values(|v: Value| v->I64_0));
                    i = i + 1;
                }
                assert(s.subrange(0, vals@.len() as int) =~= s);
            },
        }
        r
    }
    /// The 32-bit float values (bit patterns) disclosed for `field`, in order; values of other
    /// kinds are skipped.
    pub fn f32_bits(&self, field: FieldType) -> (r: Vec<u32>)
        ensures
            r@ == of_kind(self.get(field), Kind::F32).map_values(|v: Value| v->F32_0),
    {
        let mut r: Vec<u32> = Vec::new();
        match self.find(field) {
            None => {},
            Some(k) => {
                let vals = &self.entries[k].1;
                let ghost s = values_view(vals@);
                assert(s == self.get(field));
                let mut i: usize = 0;
                while i < vals.len()
                    invariant
                        i <= vals@.len(),
                        s == values_view(vals@),
                        r@ == of_kind(s.subrange(0, i as int), Kind::F32).map_values(|v: Value| v->F32_0),
                    decreases vals@.len() - i,
                {
                    assert(s.subrange(0, i + 1).drop_last() =~= s.subrange(0, i as int));
                    match &vals[i] {
                        Revealed::F32(x) => {
                            r.push(*x);
                        },
                        _ => {},
                    }
                    assert(r@ =~= of_kind(s.subrange(0, i + 1), Kind::F32).map_values(|v: Value| v->F32_0));
                    i = i + 1;
                }
                assert(s.subrange(0, vals@.len() as int) =~= s);
            },
        }
        r
    }
    /// The 64-bit float values (bit patterns) disclosed for `field`, in order; values of other
    /// kinds are skipped.
    pub fn f64_bits(&self, field: FieldType) -> (r: Vec<u64>)
        ensures
            r@ == of_kind(self.get(field), Kind::F64).map_values(|v: Value| v->F64_0),
    {
        let mut r: Vec<u64> = Vec::new();
        match self.find(field) {
            None => {},
            Some(k) => {
                let vals = &self.entries[k].1;
                let ghost s = values_view(vals@);
                assert(s == self.get(field));
                let mut i: usize = 0;
                while i < vals.len()
                    invariant
                        i <= vals@.len(),
                        s == values_view(vals@),
                        r@ == of_kind(s.subrange(0, i as int), Kind::F64).map_values(|v: Value| v->F64_0),
                    decreases vals@.len() - i,
                {
                    assert(s.subrange(0, i + 1).drop_last() =~= s.subrange(0, i as int));
                    match &vals[i] {
                        Revealed::F64(x) => {
                            r.push(*x);
                        },
                        _ => {},
                    }
                    assert(r@ =~= of_kind(s.subrange(0, i + 1), Kind::F64).map_values(|v: Value| v->F64_0));
                    i = i + 1;
                }
                assert(s.subrange(0, vals@.len() as int) =~= s);
            },
        }
        r
    }
    /// The byte-string values disclosed for `field`, in order; values of other
    /// kinds are skipped.
    pub fn bytes(&self, field: FieldType) -> (r: Vec<Vec<u8>>)
        ensures
            r@.map_values(|b: Vec<u8>| b@) == of_kind(self.get(field), Kind::Bytes).map_values(|v: Value| v->Bytes_0),
    {
        let mut r: Vec<Vec<u8>> = Vec::new();
        match self.find(field) {
            None => {},
            Some(k) => {
                let vals = &self.entries[k].1;
                let ghost s = values_view(vals@);
                assert(s == self.get(field));
                let mut i: usize = 0;
                while i < vals.len()
                    invariant
                        i <= vals@.len(),
                        s == values_view(vals@),
                        r@.map_values(|b: Vec<u8>| b@) == of_kind(s.subrange(0, i as int), Kind::Bytes).map_values(|v: Value| v->Bytes_0),
                    decreases vals@.len() - i,
                {
                    let ghost before = r@;
                    assert(s.subrange(0, i + 1).drop_last() =~= s.subrange(0, i as int));
                    match &vals[i] {
                        Revealed::Bytes(x) => {
                            r.push(copy_bytes(x));
                            assert(r@.map_values(|b: Vec<u8>| b@) =~= before.map_values(
                                |b: Vec<u8>| b@,
                            ).push(x@));
                        },
                        _ => {},
                    }
                    assert(r@.map_values(|b: Vec<u8>| b@) =~= of_kind(s.subrange(0, i + 1), Kind::Bytes).map_values(|v: Value| v->Bytes_0));
                    i = i + 1;
                }
                assert(s.subrange(0, vals@.len() as int) =~= s);
            },
        }
        r
    }
    /// The unicode string values disclosed for `field`, in order; values of other
    /// kinds are skipped.
    pub fn unicode_string(&self, field: FieldType) -> (r: Vec<String>)
        ensures
            r@.map_values(|b: String| b@) == of_kind(self.get(field), Kind::UnicodeString).map_values(|v: Value| v->Text_0),
    {
        let mut r: Vec<String> = Vec::new();
        match self.find(field) {
            None => {},
            Some(k) => {
                let vals = &self.entries[k].1;
                let ghost s = values_view(vals@);
                assert(s == self.get(field));
                let mut i: usize = 0;
                while i < vals.len()
                    invariant
                        i <= vals@.len(),
                        s == values_view(vals@),
                        r@.map_values(|b: String| b@) == of_kind(s.subrange(0, i as int), Kind::UnicodeString).map_values(|v: Value| v->Text_0),
                    decreases vals@.len() - i,
                {
                    let ghost before = r@;
                    assert(s.subrange(0, i + 1).drop_last() =~= s.subrange(0, i as int));
                    match &vals[i] {
                        Revealed::UnicodeString(x) => {
                            r.push(x.clone());
                            assert(r@.map_values(|b: String| b@) =~= before.map_values(
                                |b: String| b@,
                            ).push(x@));
                        },
                        _ => {},
                    }
                    assert(r@.map_values(|b: String| b@) =~= of_kind(s.subrange(0, i + 1), Kind::UnicodeString).map_values(|v: Value| v->Text_0));
                    i = i + 1;
                }
                assert(s.subrange(0, vals@.len() as int) =~= s);
            },
        }
        r
    }

    /// Position of the entry for `f`, if any.
    fn find(&self, f: FieldType) -> (r: Option<usize>)
        ensures
            match r {
                Some(k) => k < self@.len() && self@[k as int].0 == f && self.get(f) == self@[k as int].1,
                None => !has_key(self@, f) && self.get(f) == Seq::<Value>::empty(),
            },
    {
        let ghost s = self@;
        let mut i: usize = 0;
        assert(s.subrange(0, s.len() as int) =~= s);
        while i < self.entries.len()
            invariant
                s == self@,
                i <= s.len(),
                forall|j: int| 0 <= j < i ==> s[j].0 != f,
                lookup(s, f) == lookup(s.subrange(i as int, s.len() as int), f),
            decreases s.len() - i,
        {
            if self.entries[i].0 == f {
                return Some(i);
            }
            assert(s.subrange(i as int, s.len() as int).drop_first() =~= s.subrange(
                i + 1,
                s.len() as int,
            ));
            i = i + 1;
        }
        assert(s.subrange(i as int, s.len() as int).len() == 0);
        None
    }
}

} // verus!
