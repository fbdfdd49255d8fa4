use rgb_core::data::{Kind, Revealed};
use rgb_core::merkle::tagged_hash_bytes;
use rgb_core::metadata::{Metadata, MetadataLeaf};
use rgb_core::schema::{
    NodeSchema, Occurrences, OccurrencesError, OccurrencesMismatch, Scope, StructureIssue,
    Violation,
};

fn three_fields() -> (Vec<Revealed>, Vec<Revealed>, Vec<Revealed>) {
    (
        vec![Revealed::U8(1), Revealed::U16(2), Revealed::U32(3), Revealed::U64(4)],
        vec![Revealed::I8(-1), Revealed::I16(-2), Revealed::I32(-3), Revealed::I64(-4)],
        vec![
            Revealed::F32(1.5f32.to_bits()),
            Revealed::Bytes(vec![1, 2, 3]),
            Revealed::UnicodeString("Random String".to_string()),
            Revealed::F64(2.5f64.to_bits()),
        ],
    )
}

#[test]
fn commitment_vector() {
    let (a, b, c) = three_fields();
    let mut m = Metadata::new();
    m.insert(1, a);
    m.insert(2, b);
    m.insert(3, c);
    let expected: Vec<u8> = vec![
        19, 103, 72, 65, 127, 43, 159, 44, 57, 208, 66, 120, 134, 174, 27, 250, 71, 204, 17, 170,
        112, 174, 74, 72, 33, 38, 84, 66, 238, 165, 158, 107,
    ];
    assert_eq!(m.commit(), expected);
    assert_eq!(m.to_leaves().len(), 12);
}

#[test]
fn commitment_of_empty_container() {
    let expected: Vec<u8> = vec![
        60, 155, 95, 19, 122, 193, 236, 137, 192, 40, 13, 176, 45, 84, 158, 196, 152, 151, 219,
        16, 163, 234, 25, 147, 96, 153, 85, 213, 41, 238, 91, 43,
    ];
    assert_eq!(Metadata::new().commit(), expected);
}

#[test]
fn tagged_hash_value() {
    let expected: Vec<u8> = vec![
        159, 182, 43, 137, 213, 188, 2, 55, 73, 221, 3, 250, 31, 119, 104, 125, 225, 144, 135, 84,
        90, 145, 206, 69, 78, 176, 28, 24, 156, 107, 142, 123,
    ];
    assert_eq!(tagged_hash_bytes(b"abc", b"hello"), expected);
}

#[test]
fn commitment_is_deterministic() {
    let (a, b, c) = three_fields();
    let mut m = Metadata::new();
    m.insert(1, a);
    m.insert(2, b);
    m.insert(3, c);
    assert_eq!(m.commit(), m.commit());
    assert_eq!(m.commit(), m.clone().commit());
}

#[test]
fn insertion_order_across_fields_is_irrelevant() {
    let (a, b, c) = three_fields();
    let mut m1 = Metadata::new();
    m1.insert(1, a.clone());
    m1.insert(2, b.clone());
    m1.insert(3, c.clone());
    let mut m2 = Metadata::new();
    m2.insert(3, c);
    m2.insert(1, a);
    m2.insert(2, b);
    assert_eq!(m1.commit(), m2.commit());
}

#[test]
fn order_within_field_matters() {
    let mut m1 = Metadata::new();
    m1.insert(1, vec![Revealed::U8(1), Revealed::U8(2)]);
    let mut m2 = Metadata::new();
    m2.insert(1, vec![Revealed::U8(2), Revealed::U8(1)]);
    assert_ne!(m1.commit(), m2.commit());
}

#[test]
fn insert_replaces_values() {
    let mut m = Metadata::new();
    m.insert(4, vec![Revealed::U8(1)]);
    m.insert(4, vec![Revealed::U8(9), Revealed::U8(8)]);
    assert_eq!(m.len(), 1);
    assert_eq!(m.u8(4), vec![9, 8]);
}

#[test]
fn leaves_follow_key_then_value_order() {
    let mut m = Metadata::new();
    m.insert(7, vec![Revealed::U8(5), Revealed::U16(6)]);
    m.insert(2, vec![Revealed::I8(-1)]);
    let leaves = m.to_leaves();
    assert_eq!(leaves, vec![
        MetadataLeaf(2, Revealed::I8(-1)),
        MetadataLeaf(7, Revealed::U8(5)),
        MetadataLeaf(7, Revealed::U16(6)),
    ]);
}

#[test]
fn accessor_filters_by_kind() {
    let mut m = Metadata::new();
    m.insert(5, vec![
        Revealed::U16(10),
        Revealed::U8(1),
        Revealed::Bytes(vec![7]),
        Revealed::U16(20),
        Revealed::U16(30),
    ]);
    assert_eq!(m.u16(5), vec![10, 20, 30]);
    assert_eq!(m.u8(5), vec![1]);
    assert_eq!(m.bytes(5), vec![vec![7u8]]);
    assert_eq!(m.u32(5), Vec::<u32>::new());
    assert_eq!(m.u16(6), Vec::<u16>::new());
    assert_eq!(Revealed::U16(3).kind(), Kind::U16);
}

#[test]
fn occurrences_boundary() {
    let o = Occurrences::new(1, 3).unwrap();
    assert_eq!(o.check(0), Err(OccurrencesMismatch::TooFew { min: 1, max: 3, found: 0 }));
    assert_eq!(o.check(1), Ok(()));
    assert_eq!(o.check(2), Ok(()));
    assert_eq!(o.check(3), Ok(()));
    assert_eq!(o.check(4), Err(OccurrencesMismatch::TooMany { min: 1, max: 3, found: 4 }));
}

#[test]
fn occurrences_invalid_range() {
    assert_eq!(Occurrences::new(4, 2), Err(OccurrencesError::InvalidRange { min: 4, max: 2 }));
    let d = Occurrences::default();
    assert_eq!((d.min(), d.max()), (1, 1));
    assert_eq!(Occurrences::once(), d);
}

#[test]
fn validation_reports_every_violation() {
    let schema = NodeSchema {
        metadata: vec![(1, Occurrences::once())],
        owned_rights: vec![],
        public_rights: vec![],
    };
    let mut m = Metadata::new();
    m.insert(2, vec![Revealed::U8(1)]);
    let v = schema.validate(&m, &vec![], &vec![]);
    assert_eq!(v, vec![
        Violation {
            scope: Scope::Metadata,
            issue: StructureIssue::Mismatch(1, OccurrencesMismatch::TooFew {
                min: 1,
                max: 1,
                found: 0
            }),
        },
        Violation { scope: Scope::Metadata, issue: StructureIssue::Unknown(2) },
    ]);
}

#[test]
fn validation_of_rights() {
    let schema = NodeSchema {
        metadata: vec![],
        owned_rights: vec![(1, Occurrences::new(0, 2).unwrap())],
        public_rights: vec![(3, Occurrences::once())],
    };
    let m = Metadata::new();
    assert_eq!(schema.validate(&m, &vec![(1, 2)], &vec![(3, 1)]), vec![]);
    assert_eq!(schema.validate(&m, &vec![(1, 3), (9, 1)], &vec![]), vec![
        Violation {
            scope: Scope::OwnedRights,
            issue: StructureIssue::Mismatch(1, OccurrencesMismatch::TooMany {
                min: 0,
                max: 2,
                found: 3
            }),
        },
        Violation { scope: Scope::OwnedRights, issue: StructureIssue::Unknown(9) },
        Violation {
            scope: Scope::PublicRights,
            issue: StructureIssue::Mismatch(3, OccurrencesMismatch::TooFew {
                min: 1,
                max: 1,
                found: 0
            }),
        },
    ]);
}

#[test]
fn entries_in_key_order() {
    let mut m = Metadata::new();
    m.insert(9, vec![Revealed::U8(1)]);
    m.insert(3, vec![Revealed::U8(2), Revealed::U8(3)]);
    let keys: Vec<u16> = (0..m.len()).map(|i| m.entry(i).0).collect();
    assert_eq!(keys, vec![3, 9]);
    assert_eq!(m.entry(0).1, &vec![Revealed::U8(2), Revealed::U8(3)]);
}

#[test]
fn from_inner_in_two_orders() {
    let (a, b, c) = three_fields();
    let m1 = Metadata::from_inner(&vec![(1, a.clone()), (2, b.clone()), (3, c.clone())]);
    let m2 = Metadata::from_inner(&vec![(3, c.clone()), (1, a.clone()), (2, b.clone())]);
    let keys1: Vec<u16> = (0..m1.len()).map(|i| m1.entry(i).0).collect();
    let keys2: Vec<u16> = (0..m2.len()).map(|i| m2.entry(i).0).collect();
    assert_eq!(keys1, vec![1, 2, 3]);
    assert_eq!(keys1, keys2);
    for i in 0..m1.len() {
        assert_eq!(m1.entry(i).1, m2.entry(i).1);
    }
    assert_eq!(m1.commit(), m2.commit());
}

#[test]
fn from_inner_last_pair_wins() {
    let m = Metadata::from_inner(&vec![
        (4, vec![Revealed::U8(1)]),
        (2, vec![Revealed::U8(2)]),
        (4, vec![Revealed::U8(3)]),
    ]);
    assert_eq!(m.len(), 2);
    assert_eq!(m.u8(4), vec![3]);
    assert_eq!(m.u8(2), vec![2]);
}
