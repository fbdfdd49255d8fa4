use rgb_core::data::Revealed;
use rgb_core::metadata::Metadata;
use rgb_core::schema::{
    NodeSchema, NodeSubtype, Occurrences, OccurrencesMismatch, Schema, Scope, Scripts,
    StructureIssue, Violation, VmType,
};

fn sample_schema() -> Schema {
    Schema {
        genesis: NodeSchema {
            metadata: vec![(1, Occurrences::new(1, 1).unwrap())],
            owned_rights: vec![],
            public_rights: vec![],
        },
        transitions: vec![(5, NodeSchema {
            metadata: vec![(2, Occurrences::new(0, 3).unwrap())],
            owned_rights: vec![(1, Occurrences::new(1, 2).unwrap())],
            public_rights: vec![],
        })],
        extensions: vec![],
        scripts: Scripts { vm_type: VmType::Embedded, script: vec![0xaa, 0xbb] },
    }
}

#[test]
fn schema_id_vector() {
    let expected: Vec<u8> = vec![
        220, 126, 180, 149, 34, 108, 127, 147, 245, 176, 127, 60, 51, 89, 198, 155, 130, 111, 178,
        173, 83, 178, 13, 245, 145, 141, 118, 80, 245, 121, 87, 69,
    ];
    let s = sample_schema();
    assert_eq!(s.schema_id(), expected);
    assert_eq!(s.schema_id(), s.clone().schema_id());
}

#[test]
fn schema_id_follows_content() {
    let a = sample_schema();
    let mut b = sample_schema();
    b.scripts.vm_type = VmType::AluVM;
    assert_ne!(a.schema_id(), b.schema_id());
    assert_eq!(a.encode().len(), b.encode().len());
}

#[test]
fn node_schema_lookup() {
    let s = sample_schema();
    assert!(s.node_schema(NodeSubtype::Genesis).is_some());
    assert_eq!(
        s.node_schema(NodeSubtype::StateTransition(5)).map(|n| n.metadata.len()),
        Some(1)
    );
    assert!(s.node_schema(NodeSubtype::StateTransition(6)).is_none());
    assert!(s.node_schema(NodeSubtype::StateExtension(5)).is_none());
}

#[test]
fn validate_by_subtype() {
    let s = sample_schema();
    let mut m = Metadata::new();
    m.insert(2, vec![Revealed::U8(1), Revealed::U8(2)]);
    assert_eq!(s.validate(NodeSubtype::StateTransition(5), &m, &vec![(1, 1)], &vec![]), Some(vec![]));
    assert_eq!(s.validate(NodeSubtype::StateExtension(1), &m, &vec![], &vec![]), None);
    assert_eq!(s.validate(NodeSubtype::Genesis, &m, &vec![], &vec![]), Some(vec![
        Violation {
            scope: Scope::Metadata,
            issue: StructureIssue::Mismatch(1, OccurrencesMismatch::TooFew {
                min: 1,
                max: 1,
                found: 0
            }),
        },
        Violation { scope: Scope::Metadata, issue: StructureIssue::Unknown(2) },
    ]));
}

#[test]
fn well_formedness_checks() {
    let s = sample_schema();
    assert!(s.is_wf());
    let unsorted = NodeSchema {
        metadata: vec![(2, Occurrences::once()), (1, Occurrences::once())],
        owned_rights: vec![],
        public_rights: vec![],
    };
    assert!(!unsorted.is_wf());
    let repeated = NodeSchema {
        metadata: vec![(1, Occurrences::once()), (1, Occurrences::once())],
        owned_rights: vec![],
        public_rights: vec![],
    };
    assert!(!repeated.is_wf());
    let mut t = sample_schema();
    t.transitions.push((5, t.transitions[0].1.clone()));
    assert!(!t.is_wf());
    let mut u = sample_schema();
    u.transitions[0].1.owned_rights = vec![(3, Occurrences::once()), (1, Occurrences::once())];
    assert!(!u.is_wf());
}

#[test]
fn same_content_same_id() {
    // Declarations written in two orders, then put in ascending order.
    let mut first = vec![(2u16, Occurrences::once()), (1u16, Occurrences::new(0, 4).unwrap())];
    let mut second = vec![(1u16, Occurrences::new(0, 4).unwrap()), (2u16, Occurrences::once())];
    first.sort_by_key(|e| e.0);
    second.sort_by_key(|e| e.0);
    let mut a = sample_schema();
    a.genesis.metadata = first;
    let mut b = sample_schema();
    b.genesis.metadata = second;
    assert!(a.is_wf() && b.is_wf());
    assert_eq!(a.schema_id(), b.schema_id());
}
