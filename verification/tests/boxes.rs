use wkwrap::Box3;
use wkwrap::Vec3;
use wkwrap::WkwError;

#[test]
fn box_new_and_accessors() {
    let b = Box3::new(Vec3 { x: 1, y: 2, z: 3 }, Vec3 { x: 4, y: 5, z: 6 }).unwrap();
    assert_eq!(b.min(), Vec3 { x: 1, y: 2, z: 3 });
    assert_eq!(b.max(), Vec3 { x: 4, y: 5, z: 6 });
    assert_eq!(b.width(), Vec3 { x: 3, y: 3, z: 3 });
    assert!(!b.is_empty());
    let empty = Box3::new(Vec3 { x: 1, y: 2, z: 3 }, Vec3 { x: 4, y: 2, z: 6 }).unwrap();
    assert!(empty.is_empty());
    assert_eq!(
        Box3::new(Vec3 { x: 5, y: 0, z: 0 }, Vec3 { x: 4, y: 9, z: 9 }),
        Err(WkwError::InvalidBox)
    );
}

#[test]
fn box_intersection_laws_on_values() {
    let a = Box3::new(Vec3 { x: 0, y: 0, z: 0 }, Vec3 { x: 10, y: 10, z: 10 }).unwrap();
    let b = Box3::new(Vec3 { x: 4, y: 5, z: 6 }, Vec3 { x: 12, y: 13, z: 14 }).unwrap();
    // idempotence
    assert_eq!(a.intersect(a), a);
    assert_eq!(b.intersect(b), b);
    // commutativity for overlapping boxes
    assert_eq!(a.intersect(b), b.intersect(a));
    let i = a.intersect(b);
    assert_eq!(i.min(), Vec3 { x: 4, y: 5, z: 6 });
    assert_eq!(i.max(), Vec3 { x: 10, y: 10, z: 10 });
    // disjoint boxes meet in an empty box
    let c = Box3::new(Vec3 { x: 20, y: 20, z: 20 }, Vec3 { x: 30, y: 30, z: 30 }).unwrap();
    assert!(a.intersect(c).is_empty());
    assert!(c.intersect(a).is_empty());
}

#[test]
fn vec3_componentwise_helpers() {
    let v = Vec3 { x: 3, y: 9, z: 1 };
    let w = Vec3 { x: 5, y: 2, z: 1 };
    assert_eq!(v.elem_max(w), Vec3 { x: 5, y: 9, z: 1 });
    assert_eq!(v.elem_min(w), Vec3 { x: 3, y: 2, z: 1 });
    assert_eq!(v.flip(), Vec3 { x: 1, y: 9, z: 3 });
    assert_eq!(v.product(), 27);
    assert!(!v.is_zero());
    assert!(Vec3 { x: 0, y: 0, z: 0 }.is_zero());
}

#[test]
fn vec3_partial_order() {
    let a = Vec3 { x: 1, y: 2, z: 3 };
    let b = Vec3 { x: 2, y: 3, z: 4 };
    assert!(a < b);
    assert!(b > a);
    assert_eq!(a.partial_cmp(&a), Some(std::cmp::Ordering::Equal));
    // mixed directions are incomparable
    let c = Vec3 { x: 5, y: 0, z: 0 };
    assert_eq!(a.partial_cmp(&c), None);
}
