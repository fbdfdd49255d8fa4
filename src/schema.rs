//! Schema structures and the structural validation of contract nodes.

use vstd::prelude::*;

use crate::data::FieldType;
use crate::encoding::{le_bytes, push_bytes, push_le, MAX_LEN};
use crate::merkle::{tagged_hash, tagged_hash_bytes};
use crate::keyed::{
    ascending, distinct_keys, is_ascending, lemma_ascending_same_mapping, lemma_value_of_index,
    lemma_value_of_none, value_of,
};
use crate::metadata::Metadata;
use vstd::string::StringSliceAdditionalSpecFns;

verus! {

/// Identifier of an owned or public right type, scoped to a schema.
pub type RightType = u16;

/// An inclusive range `[min, max]` of allowed counts.
#[derive(Clone, Copy, PartialEq, Eq, Structural, Debug)]
pub struct Occurrences {
    min: u16,
    max: u16,
}

/// A count outside the allowed range.
#[derive(Clone, Copy, PartialEq, Eq, Structural, Debug)]
pub enum OccurrencesMismatch {
    TooFew { min: u16, max: u16, found: usize },
    TooMany { min: u16, max: u16, found: usize },
}

/// Refusal of a range whose minimum exceeds its maximum.
#[derive(Clone, Copy, PartialEq, Eq, Structural, Debug)]
pub enum OccurrencesError {
    InvalidRange { min: u16, max: u16 },
}

/// What `check` gives for a count.
pub open spec fn check_spec(min: u16, max: u16, found: usize) -> Result<(), OccurrencesMismatch> {
    if found < min {
        Err(OccurrencesMismatch::TooFew { min, max, found })
    } else if found > max {
        Err(OccurrencesMismatch::TooMany { min, max, found })
    } else {
        Ok(())
    }
}

impl Occurrences {
    pub closed spec fn min_spec(&self) -> u16 {
        self.min
    }

    pub closed spec fn max_spec(&self) -> u16 {
        self.max
    }

    pub open spec fn wf(&self) -> bool {
        self.min_spec() <= self.max_spec()
    }

    /// The range `[min, max]`; refused where `min > max`.
    pub fn new(min: u16, max: u16) -> (r: Result<Occurrences, OccurrencesError>)
        ensures
            min <= max <==> r.is_ok(),
            r matches Ok(o) ==> o.min_spec() == min && o.max_spec() == max && o.wf(),
            r matches Err(e) ==> e == (OccurrencesError::InvalidRange { min, max }),
    {
        if min <= max {
            Ok(Occurrences { min, max })
        } else {
            Err(OccurrencesError::InvalidRange { min, max })
        }
    }

    /// Exactly one.
    pub fn once() -> (r: Occurrences)
        ensures
            r.min_spec() == 1 && r.max_spec() == 1,
    {
        Occurrences { min: 1, max: 1 }
    }

    pub fn min(&self) -> (r: u16)
        ensures
            r == self.min_spec(),
    {
        self.min
    }

    pub fn max(&self) -> (r: u16)
        ensures
            r == self.max_spec(),
    {
        self.max
    }

    /// Whether `found` lies in the range; which bound it misses otherwise.
    pub fn check(&self, found: usize) -> (r: Result<(), OccurrencesMismatch>)
        ensures
            r == check_spec(self.min_spec(), self.max_spec(), found),
    {
        if found < self.min as usize {
            Err(OccurrencesMismatch::TooFew { min: self.min, max: self.max, found })
        } else if found > self.max as usize {
            Err(OccurrencesMismatch::TooMany { min: self.min, max: self.max, found })
        } else {
            Ok(())
        }
    }
}

impl Default for Occurrences {
    /// Exactly one.
    fn default() -> (r: Occurrences)
        ensures
            r.min_spec() == 1 && r.max_spec() == 1,
    {
        Occurrences { min: 1, max: 1 }
    }
}

/// A problem of one declared or present type.
#[derive(Clone, Copy, PartialEq, Eq, Structural, Debug)]
pub enum StructureIssue {
    /// A declared type whose count is outside its range.
    Mismatch(u16, OccurrencesMismatch),
    /// A present type that the schema does not declare.
    Unknown(u16),
}

/// Which collection of a node a violation concerns.
#[derive(Clone, Copy, PartialEq, Eq, Structural, Debug)]
pub enum Scope {
    Metadata,
    OwnedRights,
    PublicRights,
}

/// One violation of a node schema.
#[derive(Clone, Copy, PartialEq, Eq, Structural, Debug)]
pub struct Violation {
    pub scope: Scope,
    pub issue: StructureIssue,
}

/// The count recorded for `t`; zero where it has no entry.
pub open spec fn count_of(present: Seq<(u16, usize)>, t: u16) -> usize
    decreases present.len(),
{
    if present.len() == 0 {
        0
    } else if present[0].0 == t {
        present[0].1
    } else {
        count_of(present.drop_first(), t)
    }
}

/// Whether the structure declares `t`.
pub open spec fn declared(decl: Seq<(u16, Occurrences)>, t: u16) -> bool {
    exists|i: int| 0 <= i < decl.len() && decl[i].0 == t
}

/// A mismatch for each declared type whose count is outside its range, in
/// declaration order.
pub open spec fn mismatches(decl: Seq<(u16, Occurrences)>, present: Seq<(u16, usize)>) -> Seq<StructureIssue>
    decreases decl.len(),
{
    if decl.len() == 0 {
        Seq::empty()
    } else {
        let rest = mismatches(decl.drop_last(), present);
        let t = decl.last().0;
        let o = decl.last().1;
        match check_spec(o.min_spec(), o.max_spec(), count_of(present, t)) {
            Ok(_) => rest,
            Err(m) => rest.push(StructureIssue::Mismatch(t, m)),
        }
    }
}

/// An unknown-type issue for each present type the structure does not
/// declare, in order of presence.
pub open spec fn unknowns(decl: Seq<(u16, Occurrences)>, present: Seq<(u16, usize)>) -> Seq<StructureIssue>
    decreases present.len(),
{
    if present.len() == 0 {
        Seq::empty()
    } else {
        let rest = unknowns(decl, present.drop_last());
        let t = present.last().0;
        if declared(decl, t) {
            rest
        } else {
            rest.push(StructureIssue::Unknown(t))
        }
    }
}

/// Every issue of a collection against its declared structure.
pub open spec fn structure_issues(decl: Seq<(u16, Occurrences)>, present: Seq<(u16, usize)>) -> Seq<StructureIssue> {
    mismatches(decl, present) + unknowns(decl, present)
}

/// Issues attributed to one collection.
pub open spec fn in_scope(scope: Scope, issues: Seq<StructureIssue>) -> Seq<Violation> {
    issues.map_values(|i: StructureIssue| Violation { scope, issue: i })
}

/// The count recorded for `t`.
fn count_in(present: &Vec<(u16, usize)>, t: u16) -> (r: usize)
    ensures
        r == count_of(present@, t),
{
    let ghost s = present@;
    let mut i: usize = 0;
    assert(s.subrange(0, s.len() as int) =~= s);
    while i < present.len()
        invariant
            s == present@,
            i <= s.len(),
            count_of(s, t) == count_of(s.subrange(i as int, s.len() as int), t),
        decreases s.len() - i,
    {
        if present[i].0 == t {
            return present[i].1;
        }
        assert(s.subrange(i as int, s.len() as int).drop_first() =~= s.subrange(i + 1, s.len() as int));
        i = i + 1;
    }
    0
}

/// Whether the structure declares `t`.
fn is_declared(decl: &Vec<(u16, Occurrences)>, t: u16) -> (r: bool)
    ensures
        r == declared(decl@, t),
{
    let mut i: usize = 0;
    while i < decl.len()
        invariant
            i <= decl@.len(),
            forall|j: int| 0 <= j < i ==> decl@[j].0 != t,
        decreases decl@.len() - i,
    {
        if decl[i].0 == t {
            return true;
        }
        i = i + 1;
    }
    false
}

/// Every issue of a collection with the counts `present` against the
/// declared structure `decl`: all of them, not only the first.
pub fn check_structure(decl: &Vec<(u16, Occurrences)>, present: &Vec<(u16, usize)>) -> (r: Vec<StructureIssue>)
    ensures
        r@ == structure_issues(decl@, present@),
{
    let mut r: Vec<StructureIssue> = Vec::new();
    let mut i: usize = 0;
    assert(decl@.subrange(0, 0) =~= Seq::<(u16, Occurrences)>::empty());
    while i < decl.len()
        invariant
            i <= decl@.len(),
            r@ == mismatches(decl@.subrange(0, i as int), present@),
        decreases decl@.len() - i,
    {
        let (t, o) = decl[i];
        assert(decl@.subrange(0, i + 1).drop_last() =~= decl@.subrange(0, i as int));
        let c = count_in(present, t);
        match o.check(c) {
            Ok(_) => {},
            Err(m) => {
                r.push(StructureIssue::Mismatch(t, m));
            },
        }
        i = i + 1;
    }
    assert(decl@.subrange(0, decl@.len() as int) =~= decl@);
    let ghost first = r@;
    let mut j: usize = 0;
    assert(present@.subrange(0, 0) =~= Seq::<(u16, usize)>::empty());
    assert(first =~= first + unknowns(decl@, present@.subrange(0, 0)));
    while j < present.len()
        invariant
            j <= present@.len(),
            first == mismatches(decl@, present@),
            r@ == first + unknowns(decl@, present@.subrange(0, j as int)),
        decreases present@.len() - j,
    {
        let t = present[j].0;
        assert(present@.subrange(0, j + 1).drop_last() =~= present@.subrange(0, j as int));
        if !is_declared(decl, t) {
            r.push(StructureIssue::Unknown(t));
        }
        assert(r@ =~= first + unknowns(decl@, present@.subrange(0, j + 1)));
        j = j + 1;
    }
    assert(present@.subrange(0, present@.len() as int) =~= present@);
    r
}

/// Appends the issues, attributed to `scope`.
fn push_scoped(out: &mut Vec<Violation>, scope: Scope, issues: Vec<StructureIssue>)
    ensures
        final(out)@ == old(out)@ + in_scope(scope, issues@),
{
    let mut i: usize = 0;
    while i < issues.len()
        invariant
            i <= issues@.len(),
            out@ == old(out)@ + in_scope(scope, issues@.subrange(0, i as int)),
        decreases issues@.len() - i,
    {
        out.push(Violation { scope, issue: issues[i] });
        assert(out@ =~= old(out)@ + in_scope(scope, issues@.subrange(0, i + 1)));
        i = i + 1;
    }
    assert(issues@.subrange(0, issues@.len() as int) =~= issues@);
}

/// The structure a schema declares for one kind of node.
#[derive(Clone, Debug)]
pub struct NodeSchema {
    /// Metadata field types and how many values each may carry.
    pub metadata: Vec<(FieldType, Occurrences)>,
    /// Owned right types and how many assignments each may have.
    pub owned_rights: Vec<(RightType, Occurrences)>,
    /// Public right types and how many each may have.
    pub public_rights: Vec<(RightType, Occurrences)>,
}

/// Model of a node schema: its metadata, owned-right and public-right
/// declarations.
pub type NodeView = (Seq<(u16, Occurrences)>, Seq<(u16, Occurrences)>, Seq<(u16, Occurrences)>);

impl View for NodeSchema {
    type V = NodeView;

    open spec fn view(&self) -> NodeView {
        (self.metadata@, self.owned_rights@, self.public_rights@)
    }
}

/// Each declaration list declares every type once, in ascending order.
pub open spec fn node_wf(v: NodeView) -> bool {
    ascending(v.0) && ascending(v.1) && ascending(v.2)
}

/// All violations of a node against its schema: first those of its
/// metadata, then of its owned rights, then of its public rights.
pub open spec fn node_violations(
    schema: NodeSchema,
    metadata: Seq<(u16, usize)>,
    owned: Seq<(u16, usize)>,
    public: Seq<(u16, usize)>,
) -> Seq<Violation> {
    in_scope(Scope::Metadata, structure_issues(schema.metadata@, metadata))
        + in_scope(Scope::OwnedRights, structure_issues(schema.owned_rights@, owned))
        + in_scope(Scope::PublicRights, structure_issues(schema.public_rights@, public))
}

impl NodeSchema {
    pub open spec fn wf(&self) -> bool {
        node_wf(self@)
    }

    /// Whether every declaration list is in strictly ascending type order.
    pub fn is_wf(&self) -> (r: bool)
        ensures
            r == self.wf(),
    {
        is_ascending(&self.metadata) && is_ascending(&self.owned_rights) && is_ascending(
            &self.public_rights,
        )
    }

    /// Checks a node, given its metadata and the number of assignments of
    /// each owned and public right type, and reports every violation.
    pub fn validate(
        &self,
        metadata: &Metadata,
        owned_rights: &Vec<(RightType, usize)>,
        public_rights: &Vec<(RightType, usize)>,
    ) -> (r: Vec<Violation>)
        requires
            self.wf(),
            metadata.wf(),
            distinct_keys(owned_rights@),
            distinct_keys(public_rights@),
        ensures
            r@ == node_violations(*self, metadata.counts_spec(), owned_rights@, public_rights@),
    {
        let counts = metadata.counts();
        let mut r: Vec<Violation> = Vec::new();
        push_scoped(&mut r, Scope::Metadata, check_structure(&self.metadata, &counts));
        push_scoped(&mut r, Scope::OwnedRights, check_structure(&self.owned_rights, owned_rights));
        push_scoped(&mut r, Scope::PublicRights, check_structure(&self.public_rights, public_rights));
        assert(r@ =~= node_violations(*self, metadata.counts_spec(), owned_rights@, public_rights@));
        r
    }
}

/// Identifier of a state-transition type, scoped to a schema.
pub type TransitionType = u16;

/// Identifier of a state-extension type, scoped to a schema.
pub type ExtensionType = u16;

/// The kind of a contract node, with its type where the schema declares
/// several.
#[derive(Clone, Copy, PartialEq, Eq, Structural, Debug)]
pub enum NodeSubtype {
    Genesis,
    StateTransition(TransitionType),
    StateExtension(ExtensionType),
}

/// The virtual machine that runs a schema's validation scripts.
#[derive(Clone, Copy, PartialEq, Eq, Structural, Debug)]
pub enum VmType {
    Embedded,
    AluVM,
}

/// Binding of a schema to its validation scripts, which this library does
/// not interpret.
#[derive(Clone, Debug)]
pub struct Scripts {
    pub vm_type: VmType,
    pub script: Vec<u8>,
}

/// The structural template of a contract.
#[derive(Clone, Debug)]
pub struct Schema {
    pub genesis: NodeSchema,
    pub transitions: Vec<(TransitionType, NodeSchema)>,
    pub extensions: Vec<(ExtensionType, NodeSchema)>,
    pub scripts: Scripts,
}

/// The node schema declared for `t`.
fn find_node_schema(decl: &Vec<(u16, NodeSchema)>, t: u16) -> (r: Option<&NodeSchema>)
    ensures
        match r {
            Some(n) => value_of(decl@, t) == Some(*n),
            None => value_of(decl@, t) is None,
        },
{
    let ghost s = decl@;
    let mut i: usize = 0;
    assert(s.subrange(0, s.len() as int) =~= s);
    while i < decl.len()
        invariant
            s == decl@,
            i <= s.len(),
            value_of(s, t) == value_of(s.subrange(i as int, s.len() as int), t),
        decreases s.len() - i,
    {
        if decl[i].0 == t {
            return Some(&decl[i].1);
        }
        assert(s.subrange(i as int, s.len() as int).drop_first() =~= s.subrange(i + 1, s.len() as int));
        i = i + 1;
    }
    None
}

/// Node types declared once each, in ascending order, each with a
/// well-formed node schema.
pub open spec fn nodes_wf(s: Seq<(u16, NodeSchema)>) -> bool {
    ascending(s) && forall|i: int| 0 <= i < s.len() ==> (#[trigger] s[i]).1.wf()
}

/// A node schema found in a well-formed list is well formed.
proof fn lemma_found_node_wf(s: Seq<(u16, NodeSchema)>, t: u16)
    requires
        nodes_wf(s),
        value_of(s, t) is Some,
    ensures
        value_of(s, t)->0.wf(),
{
    lemma_value_of_none(s, t);
    let i = choose|i: int| 0 <= i < s.len() && s[i].0 == t;
    lemma_value_of_index(s, i);
    assert(s[i].1.wf());
}

/// Whether the node types ascend and every node schema is well formed.
fn nodes_are_wf(s: &Vec<(u16, NodeSchema)>) -> (r: bool)
    ensures
        r == nodes_wf(s@),
{
    if !is_ascending(s) {
        return false;
    }
    let mut i: usize = 0;
    while i < s.len()
        invariant
            i <= s@.len(),
            forall|j: int| 0 <= j < i ==> (#[trigger] s@[j]).1.wf(),
        decreases s@.len() - i,
    {
        if !s[i].1.is_wf() {
            return false;
        }
        i = i + 1;
    }
    true
}

impl Schema {
    /// Every declaration list of the schema is in strictly ascending key
    /// order, so that equal content has one representation.
    pub open spec fn wf(&self) -> bool {
        self.genesis.wf() && nodes_wf(self.transitions@) && nodes_wf(self.extensions@)
    }

    /// Whether every declaration list is in strictly ascending key order.
    pub fn is_wf(&self) -> (r: bool)
        ensures
            r == self.wf(),
    {
        self.genesis.is_wf() && nodes_are_wf(&self.transitions) && nodes_are_wf(&self.extensions)
    }

    /// The node schema governing nodes of `subtype`.
    pub open spec fn node_schema_spec(&self, subtype: NodeSubtype) -> Option<NodeSchema> {
        match subtype {
            NodeSubtype::Genesis => Some(self.genesis),
            NodeSubtype::StateTransition(t) => value_of(self.transitions@, t),
            NodeSubtype::StateExtension(t) => value_of(self.extensions@, t),
        }
    }

    /// The node schema governing nodes of `subtype`; `None` where the schema
    /// declares no such transition or extension.
    pub fn node_schema(&self, subtype: NodeSubtype) -> (r: Option<&NodeSchema>)
        ensures
            match r {
                Some(n) => self.node_schema_spec(subtype) == Some(*n),
                None => self.node_schema_spec(subtype) is None,
            },
    {
        match subtype {
            NodeSubtype::Genesis => Some(&self.genesis),
            NodeSubtype::StateTransition(t) => find_node_schema(&self.transitions, t),
            NodeSubtype::StateExtension(t) => find_node_schema(&self.extensions, t),
        }
    }

    /// Checks a node of `subtype` and reports every violation; `None` where
    /// the schema declares no such node type.
    pub fn validate(
        &self,
        subtype: NodeSubtype,
        metadata: &Metadata,
        owned_rights: &Vec<(RightType, usize)>,
        public_rights: &Vec<(RightType, usize)>,
    ) -> (r: Option<Vec<Violation>>)
        requires
            self.wf(),
            metadata.wf(),
            distinct_keys(owned_rights@),
            distinct_keys(public_rights@),
        ensures
            match self.node_schema_spec(subtype) {
                None => r is None,
                Some(n) => r matches Some(v) && v@ == node_violations(
                    n,
                    metadata.counts_spec(),
                    owned_rights@,
                    public_rights@,
                ),
            },
    {
        match self.node_schema(subtype) {
            None => None,
            Some(n) => {
                proof {
                    match subtype {
                        NodeSubtype::StateTransition(t) => lemma_found_node_wf(self.transitions@, t),
                        NodeSubtype::StateExtension(t) => lemma_found_node_wf(self.extensions@, t),
                        NodeSubtype::Genesis => {},
                    }
                }
                Some(n.validate(metadata, owned_rights, public_rights))
            },
        }
    }
}

/// Encoding of a range: minimum, then maximum.
pub open spec fn encode_occurrences(o: Occurrences) -> Seq<u8> {
    le_bytes(o.min_spec() as u64, 2) + le_bytes(o.max_spec() as u64, 2)
}

/// Encodings of the declarations, one after another.
pub open spec fn decl_body(s: Seq<(u16, Occurrences)>) -> Seq<u8>
    decreases s.len(),
{
    if s.len() == 0 {
        Seq::empty()
    } else {
        decl_body(s.drop_last()) + le_bytes(s.last().0 as u64, 2) + encode_occurrences(s.last().1)
    }
}

/// Encoding of a structure: its length, then its declarations.
pub open spec fn encode_decl(s: Seq<(u16, Occurrences)>) -> Seq<u8> {
    le_bytes(s.len() as u64, 2) + decl_body(s)
}

/// Encoding of a node schema: its metadata, owned and public structures.
pub open spec fn encode_node(n: NodeView) -> Seq<u8> {
    encode_decl(n.0) + encode_decl(n.1) + encode_decl(n.2)
}

/// Models of typed node schemas.
pub open spec fn nodes_view(s: Seq<(u16, NodeSchema)>) -> Seq<(u16, NodeView)> {
    s.map_values(|e: (u16, NodeSchema)| (e.0, e.1@))
}

/// Encodings of the typed node schemas, one after another.
pub open spec fn nodes_body(s: Seq<(u16, NodeView)>) -> Seq<u8>
    decreases s.len(),
{
    if s.len() == 0 {
        Seq::empty()
    } else {
        nodes_body(s.drop_last()) + le_bytes(s.last().0 as u64, 2) + encode_node(s.last().1)
    }
}

/// Encoding of typed node schemas: their number, then each.
pub open spec fn encode_nodes(s: Seq<(u16, NodeView)>) -> Seq<u8> {
    le_bytes(s.len() as u64, 2) + nodes_body(s)
}

pub open spec fn vm_tag(v: VmType) -> u8 {
    match v {
        VmType::Embedded => 0x00,
        VmType::AluVM => 0x01,
    }
}

/// Encoding of the script binding: the machine, then the script's length
/// and bytes.
pub open spec fn encode_scripts(s: Scripts) -> Seq<u8> {
    seq![vm_tag(s.vm_type)] + le_bytes(s.script@.len() as u64, 2) + s.script@
}

/// The canonical encoding of a schema.
pub open spec fn encode_schema(s: Schema) -> Seq<u8> {
    encode_node(s.genesis@) + encode_nodes(nodes_view(s.transitions@)) + encode_nodes(
        nodes_view(s.extensions@),
    )
        + encode_scripts(s.scripts)
}

pub open spec fn node_encodable(n: NodeSchema) -> bool {
    n.metadata@.len() <= MAX_LEN && n.owned_rights@.len() <= MAX_LEN && n.public_rights@.len()
        <= MAX_LEN
}

pub open spec fn nodes_encodable(s: Seq<(u16, NodeSchema)>) -> bool {
    s.len() <= MAX_LEN && forall|i: int| 0 <= i < s.len() ==> #[trigger] node_encodable(s[i].1)
}

/// Domain of schema identifiers.
pub const SCHEMA_PREFIX: &'static str = "urn:lnpbp:rgb:schema";

/// The identifier of a schema: the hash of its canonical encoding.
pub open spec fn schema_id_spec(s: Schema) -> Seq<u8> {
    tagged_hash(SCHEMA_PREFIX.spec_bytes(), encode_schema(s))
}

fn push_decl(out: &mut Vec<u8>, decl: &Vec<(u16, Occurrences)>)
    requires
        decl@.len() <= MAX_LEN,
    ensures
        final(out)@ == old(out)@ + encode_decl(decl@),
{
    push_le(out, decl.len() as u64, 2);
    let ghost start = out@;
    let mut i: usize = 0;
    assert(start =~= start + decl_body(decl@.subrange(0, 0)));
    while i < decl.len()
        invariant
            i <= decl@.len(),
            out@ == start + decl_body(decl@.subrange(0, i as int)),
        decreases decl@.len() - i,
    {
        let (t, o) = decl[i];
        push_le(out, t as u64, 2);
        push_le(out, o.min() as u64, 2);
        push_le(out, o.max() as u64, 2);
        assert(decl@.subrange(0, i + 1).drop_last() =~= decl@.subrange(0, i as int));
        assert(out@ =~= start + decl_body(decl@.subrange(0, i + 1)));
        i = i + 1;
    }
    assert(decl@.subrange(0, decl@.len() as int) =~= decl@);
    assert(out@ =~= old(out)@ + encode_decl(decl@));
}

fn push_node(out: &mut Vec<u8>, n: &NodeSchema)
    requires
        node_encodable(*n),
    ensures
        final(out)@ == old(out)@ + encode_node(n@),
{
    push_decl(out, &n.metadata);
    push_decl(out, &n.owned_rights);
    push_decl(out, &n.public_rights);
    assert(out@ =~= old(out)@ + encode_node(n@));
}

fn push_nodes(out: &mut Vec<u8>, nodes: &Vec<(u16, NodeSchema)>)
    requires
        nodes_encodable(nodes@),
    ensures
        final(out)@ == old(out)@ + encode_nodes(nodes_view(nodes@)),
{
    push_le(out, nodes.len() as u64, 2);
    let ghost start = out@;
    let mut i: usize = 0;
    let ghost nv = nodes_view(nodes@);
    assert(start =~= start + nodes_body(nv.subrange(0, 0)));
    while i < nodes.len()
        invariant
            i <= nodes@.len(),
            nodes_encodable(nodes@),
            nv == nodes_view(nodes@),
            out@ == start + nodes_body(nv.subrange(0, i as int)),
        decreases nodes@.len() - i,
    {
        assert(node_encodable(nodes@[i as int].1));
        push_le(out, nodes[i].0 as u64, 2);
        push_node(out, &nodes[i].1);
        assert(nv.subrange(0, i + 1).drop_last() =~= nv.subrange(0, i as int));
        assert(out@ =~= start + nodes_body(nv.subrange(0, i + 1)));
        i = i + 1;
    }
    assert(nv.subrange(0, nv.len() as int) =~= nv);
    assert(out@ =~= old(out)@ + encode_nodes(nv));
}

impl Schema {
    /// Every collection fits its two-byte length prefix.
    pub open spec fn encodable(&self) -> bool {
        node_encodable(self.genesis) && nodes_encodable(self.transitions@) && nodes_encodable(
            self.extensions@,
        ) && self.scripts.script@.len() <= MAX_LEN
    }

    /// The canonical encoding of this schema.
    pub fn encode(&self) -> (r: Vec<u8>)
        requires
            self.wf(),
            self.encodable(),
        ensures
            r@ == encode_schema(*self),
    {
        let mut out: Vec<u8> = Vec::new();
        push_node(&mut out, &self.genesis);
        push_nodes(&mut out, &self.transitions);
        push_nodes(&mut out, &self.extensions);
        let tag: u8 = match self.scripts.vm_type {
            VmType::Embedded => 0x00,
            VmType::AluVM => 0x01,
        };
        out.push(tag);
        push_le(&mut out, self.scripts.script.len() as u64, 2);
        push_bytes(&mut out, self.scripts.script.as_slice());
        assert(out@ =~= encode_schema(*self));
        out
    }

    /// The identifier of this schema, derived from its content.
    pub fn schema_id(&self) -> (r: Vec<u8>)
        requires
            self.wf(),
            self.encodable(),
        ensures
            r@ == schema_id_spec(*self),
    {
        let enc = self.encode();
        tagged_hash_bytes(SCHEMA_PREFIX.as_bytes(), enc.as_slice())
    }
}

/// The schema identifier is a function of the schema's content: schemas
/// with equal content have equal identifiers.
pub proof fn lemma_schema_id_deterministic(a: Schema, b: Schema)
    requires
        a == b,
    ensures
        schema_id_spec(a) == schema_id_spec(b),
{
}

/// Two node schemas declare the same types with the same ranges.
pub open spec fn same_declarations(a: NodeView, b: NodeView) -> bool {
    &&& forall|k: u16| #[trigger] value_of(a.0, k) == value_of(b.0, k)
    &&& forall|k: u16| #[trigger] value_of(a.1, k) == value_of(b.1, k)
    &&& forall|k: u16| #[trigger] value_of(a.2, k) == value_of(b.2, k)
}

/// Two lists of typed node schemas declare the same node types, each with
/// the same declarations.
pub open spec fn same_node_types(a: Seq<(u16, NodeSchema)>, b: Seq<(u16, NodeSchema)>) -> bool {
    forall|t: u16|
        match (#[trigger] value_of(a, t), value_of(b, t)) {
            (None, None) => true,
            (Some(x), Some(y)) => same_declarations(x@, y@),
            _ => false,
        }
}

/// Two schemas have the same structural content.
pub open spec fn same_content(a: Schema, b: Schema) -> bool {
    &&& same_declarations(a.genesis@, b.genesis@)
    &&& same_node_types(a.transitions@, b.transitions@)
    &&& same_node_types(a.extensions@, b.extensions@)
    &&& a.scripts.vm_type == b.scripts.vm_type
    &&& a.scripts.script@ == b.scripts.script@
}

/// Well-formed node schemas with the same declarations have one model.
pub proof fn lemma_same_declarations(a: NodeView, b: NodeView)
    requires
        node_wf(a),
        node_wf(b),
        same_declarations(a, b),
    ensures
        a == b,
{
    lemma_ascending_same_mapping(a.0, b.0);
    lemma_ascending_same_mapping(a.1, b.1);
    lemma_ascending_same_mapping(a.2, b.2);
}

/// What the model of a node list maps a type to is the model of what the
/// list maps it to.
proof fn lemma_value_of_nodes_view(s: Seq<(u16, NodeSchema)>, t: u16)
    ensures
        value_of(nodes_view(s), t) == match value_of(s, t) {
            Some(n) => Some(n@),
            None => None::<NodeView>,
        },
    decreases s.len(),
{
    if s.len() > 0 {
        assert(nodes_view(s).drop_first() =~= nodes_view(s.drop_first()));
        lemma_value_of_nodes_view(s.drop_first(), t);
    }
}

/// Well-formed node lists with the same node types and declarations have
/// one model.
proof fn lemma_same_node_types(a: Seq<(u16, NodeSchema)>, b: Seq<(u16, NodeSchema)>)
    requires
        nodes_wf(a),
        nodes_wf(b),
        same_node_types(a, b),
    ensures
        nodes_view(a) == nodes_view(b),
{
    let va = nodes_view(a);
    let vb = nodes_view(b);
    assert forall|i: int, j: int| 0 <= i < j < va.len() implies va[i].0 < va[j].0 by {
        assert(a[i].0 < a[j].0);
    }
    assert forall|i: int, j: int| 0 <= i < j < vb.len() implies vb[i].0 < vb[j].0 by {
        assert(b[i].0 < b[j].0);
    }
    assert forall|t: u16| #[trigger] value_of(va, t) == value_of(vb, t) by {
        lemma_value_of_nodes_view(a, t);
        lemma_value_of_nodes_view(b, t);
        if value_of(a, t) is Some && value_of(b, t) is Some {
            lemma_value_of_none(a, t);
            lemma_value_of_none(b, t);
            let i = choose|i: int| 0 <= i < a.len() && a[i].0 == t;
            let j = choose|j: int| 0 <= j < b.len() && b[j].0 == t;
            lemma_value_of_index(a, i);
            lemma_value_of_index(b, j);
            assert(a[i].1.wf());
            assert(b[j].1.wf());
            lemma_same_declarations(a[i].1@, b[j].1@);
        }
    }
    lemma_ascending_same_mapping(va, vb);
}

/// Schemas with the same structural content have the same identifier,
/// whatever order their declarations were written in before being put in
/// canonical order.
pub proof fn lemma_schema_id_same_content(a: Schema, b: Schema)
    requires
        a.wf(),
        b.wf(),
        same_content(a, b),
    ensures
        schema_id_spec(a) == schema_id_spec(b),
{
    lemma_same_declarations(a.genesis@, b.genesis@);
    lemma_same_node_types(a.transitions@, b.transitions@);
    lemma_same_node_types(a.extensions@, b.extensions@);
    assert(encode_schema(a) == encode_schema(b));
}

} // verus!
