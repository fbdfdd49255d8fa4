use rand::{thread_rng, RngCore};
use rgb_core::data::Revealed;
use rgb_core::merkle::{hash_leaf, merklize_leaf_hashes};
use rgb_core::metadata::{Metadata, MetadataLeaf};

fn sample() -> Metadata {
    let mut m = Metadata::new();
    m.insert(
        13,
        vec![
            Revealed::U8(2),
            Revealed::U8(3),
            Revealed::U16(2),
            Revealed::U32(2),
            Revealed::U32(3),
            Revealed::U64(2),
            Revealed::U64(3),
            Revealed::I8(2),
            Revealed::I8(3),
            Revealed::I32(2),
            Revealed::I32(3),
            Revealed::I64(2),
            Revealed::I64(3),
            Revealed::F32(2f32.to_bits()),
            Revealed::F32(3f32.to_bits()),
            Revealed::F64(2f64.to_bits()),
            Revealed::F64(3f64.to_bits()),
            Revealed::Bytes(vec![1, 2, 3, 4, 5]),
            Revealed::Bytes(vec![10, 20, 30, 40, 50]),
            Revealed::UnicodeString("One Random String".to_string()),
            Revealed::UnicodeString("Another Random String".to_string()),
        ],
    );
    m
}

#[test]
fn test_extraction() {
    let metadata = sample();
    let field_type = 13u16;

    assert_eq!(metadata.u8(field_type), vec![2, 3]);
    assert_eq!(metadata.u16(field_type), vec![2]);
    assert_eq!(metadata.u32(field_type), vec![2, 3]);
    assert_eq!(metadata.u64(field_type), vec![2, 3]);
    assert_eq!(metadata.i8(field_type), vec![2, 3]);
    assert_eq!(metadata.i16(field_type), Vec::<i16>::new());
    assert_eq!(metadata.i32(field_type), vec![2, 3]);
    assert_eq!(metadata.i64(field_type), vec![2, 3]);
    let f32s: Vec<f32> = metadata.f32_bits(field_type).into_iter().map(f32::from_bits).collect();
    assert_eq!(f32s, vec![2 as f32, 3 as f32]);
    let f64s: Vec<f64> = metadata.f64_bits(field_type).into_iter().map(f64::from_bits).collect();
    assert_eq!(f64s, vec![2 as f64, 3 as f64]);
    assert_eq!(metadata.bytes(field_type), vec![
        [1u8, 2, 3, 4, 5].to_vec(),
        [10u8, 20, 30, 40, 50].to_vec()
    ]);
    assert_eq!(metadata.unicode_string(field_type), vec![
        "One Random String".to_string(),
        "Another Random String".to_string()
    ]);
}

#[test]
fn test_iteration_field() {
    let metadata = sample();
    let field_values: Vec<f32> = metadata.f32_bits(13).into_iter().map(f32::from_bits).collect();
    assert_eq!(field_values.into_iter().sum::<f32>(), 5f32);
}

#[test]
fn test_commitencoding_field() {
    let mut rng = thread_rng();
    let data1 = vec![
        Revealed::U8(rng.next_u64() as u8),
        Revealed::U16(rng.next_u64() as u16),
        Revealed::U32(rng.next_u64() as u32),
        Revealed::U64(rng.next_u64()),
    ];
    let data2 = vec![
        Revealed::I8(rng.next_u64() as i8),
        Revealed::I16(rng.next_u64() as i16),
        Revealed::I32(rng.next_u64() as i32),
        Revealed::I64(rng.next_u64() as i64),
    ];
    let mut byte_vec = vec![];
    for i in 0..10 {
        byte_vec.insert(i, rng.next_u32() as u8);
    }
    let data3 = vec![
        Revealed::F32((rng.next_u32() as f32).to_bits()),
        Revealed::F64((rng.next_u32() as f64).to_bits()),
        Revealed::Bytes(byte_vec),
        Revealed::UnicodeString("Random String".to_string()),
    ];

    let (field1, field2, field3) = (1u16, 2u16, 3u16);
    let mut metadata = Metadata::new();
    metadata.insert(field1, data1.clone());
    metadata.insert(field2, data2.clone());
    metadata.insert(field3, data3.clone());
    let committed = metadata.commit();

    // Hand-made: leaves by field, then value order; hashed; merklized.
    let mut leaves = Vec::new();
    for (f, data) in [(field1, &data1), (field2, &data2), (field3, &data3)] {
        for v in data.iter() {
            leaves.push(MetadataLeaf(f, v.clone()));
        }
    }
    let nodes: Vec<Vec<u8>> = leaves.iter().map(hash_leaf).collect();
    let handmade = merklize_leaf_hashes(nodes);
    assert_eq!(committed, handmade);
}

#[test]
fn sample_encodes_to_fixture_layout() {
    let enc = sample().encode();
    assert_eq!(enc.len(), 161);
    // one field, field type 13, 21 values, the first a `u8` of value 2
    assert_eq!(enc[..8].to_vec(), vec![1u8, 0, 13, 0, 21, 0, 0x00, 2]);
    // the last value: tag, length 21, then the text
    let tail = &enc[161 - 24..];
    assert_eq!(tail[..3].to_vec(), vec![0x21u8, 21, 0]);
    assert_eq!(&tail[3..], "Another Random String".as_bytes());
}

#[test]
fn signed_values_encode_in_twos_complement() {
    let mut m = Metadata::new();
    m.insert(0x0102, vec![Revealed::I16(-2), Revealed::U32(0x0a0b0c0d)]);
    assert_eq!(m.encode(), vec![
        1u8, 0, 0x02, 0x01, 2, 0, 0x09, 0xfe, 0xff, 0x02, 0x0d, 0x0c, 0x0b, 0x0a
    ]);
}
