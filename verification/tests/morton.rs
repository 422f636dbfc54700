use wkwrap::Morton;
use wkwrap::Vec3;

#[test]
fn test_encoding() {
    assert_eq!(Morton::encode(&Vec3 { x: 0, y: 0, z: 0 }), Morton::new(0 as u64));
    assert_eq!(Morton::encode(&Vec3 { x: 1, y: 0, z: 0 }), Morton::new(1 as u64));
    assert_eq!(Morton::encode(&Vec3 { x: 0, y: 1, z: 0 }), Morton::new(2 as u64));
    assert_eq!(Morton::encode(&Vec3 { x: 1, y: 1, z: 0 }), Morton::new(3 as u64));
    assert_eq!(Morton::encode(&Vec3 { x: 0, y: 0, z: 1 }), Morton::new(4 as u64));
    assert_eq!(Morton::encode(&Vec3 { x: 1, y: 0, z: 1 }), Morton::new(5 as u64));
    assert_eq!(Morton::encode(&Vec3 { x: 0, y: 1, z: 1 }), Morton::new(6 as u64));
    assert_eq!(Morton::encode(&Vec3 { x: 1, y: 1, z: 1 }), Morton::new(7 as u64));
    assert_eq!(Morton::encode(&Vec3 { x: 2, y: 0, z: 0 }), Morton::new(8 as u64));
    assert_eq!(Morton::encode(&Vec3 { x: 0, y: 2, z: 0 }), Morton::new(16 as u64));
    assert_eq!(Morton::encode(&Vec3 { x: 0, y: 0, z: 2 }), Morton::new(32 as u64));
    assert_eq!(Morton::encode(&Vec3 { x: 29, y: 20, z: 3 }), Morton::new(13029 as u64));
    assert_eq!(Morton::encode(&Vec3 { x: 23, y: 20, z: 3 }), Morton::new(12525 as u64));
}

#[test]
fn test_decoding() {
    assert_eq!(Vec3 { x: 0, y: 0, z: 0 }, Morton::new(0 as u64).decode());
    assert_eq!(Vec3 { x: 1, y: 0, z: 0 }, Morton::new(1 as u64).decode());
    assert_eq!(Vec3 { x: 0, y: 1, z: 0 }, Morton::new(2 as u64).decode());
    assert_eq!(Vec3 { x: 1, y: 1, z: 0 }, Morton::new(3 as u64).decode());
    assert_eq!(Vec3 { x: 0, y: 0, z: 1 }, Morton::new(4 as u64).decode());
    assert_eq!(Vec3 { x: 1, y: 0, z: 1 }, Morton::new(5 as u64).decode());
    assert_eq!(Vec3 { x: 0, y: 1, z: 1 }, Morton::new(6 as u64).decode());
    assert_eq!(Vec3 { x: 1, y: 1, z: 1 }, Morton::new(7 as u64).decode());
    assert_eq!(Vec3 { x: 2, y: 0, z: 0 }, Morton::new(8 as u64).decode());
    assert_eq!(Vec3 { x: 0, y: 2, z: 0 }, Morton::new(16 as u64).decode());
    assert_eq!(Vec3 { x: 0, y: 0, z: 2 }, Morton::new(32 as u64).decode());
    assert_eq!(Vec3 { x: 29, y: 20, z: 3 }, Morton::new(13029 as u64).decode());
    assert_eq!(Vec3 { x: 23, y: 20, z: 3 }, Morton::new(12525 as u64).decode());
}

#[test]
fn morton_round_trip_samples() {
    for v in [
        Vec3 { x: 0, y: 0, z: 0 },
        Vec3 { x: 1, y: 2, z: 3 },
        Vec3 { x: 31, y: 17, z: 5 },
        Vec3 { x: 2097151, y: 2097151, z: 2097151 },
        Vec3 { x: 123456, y: 654321, z: 7 },
    ] {
        assert_eq!(Morton::encode(&v).decode(), v);
    }
    for k in [0u64, 1, 7, 8, 63, 4095, 123456789, (1u64 << 63) - 1] {
        assert_eq!(Morton::encode(&Morton::new(k).decode()), Morton::new(k));
    }
}

#[test]
fn morton_iter_walks_query_box() {
    // a box of side four inside a cube of side eight
    let bbox = wkwrap::Box3::new(Vec3 { x: 2, y: 2, z: 2 }, Vec3 { x: 6, y: 6, z: 6 }).unwrap();
    let mut it = wkwrap::Iter::new(3, bbox).unwrap();
    let mut seen: Vec<u64> = Vec::new();
    while let Some(k) = it.next() {
        seen.push(k);
    }
    assert_eq!(seen.len(), 64);
    let mut prev: Option<u64> = None;
    for &k in &seen {
        if let Some(p) = prev {
            assert!(p < k);
        }
        prev = Some(k);
        let v = Morton::new(k).decode();
        assert!(v.x >= 2 && v.x < 6);
        assert!(v.y >= 2 && v.y < 6);
        assert!(v.z >= 2 && v.z < 6);
    }
    // every cell of the box is present
    for x in 2..6u32 {
        for y in 2..6u32 {
            for z in 2..6u32 {
                let k: u64 = Morton::encode(&Vec3 { x, y, z }).value();
                assert!(seen.contains(&k));
            }
        }
    }
}
