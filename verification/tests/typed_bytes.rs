use std::cmp::Ordering;
use trmnl::typed_bytes::TypedBytes;

#[test]
fn keys_order_as_byte_strings() {
    assert_eq!(TypedBytes::<u32>::compare(&[1, 2], &[1, 3]), Ordering::Less);
    assert_eq!(TypedBytes::<u32>::compare(&[1, 2], &[1, 2]), Ordering::Equal);
    assert_eq!(TypedBytes::<u32>::compare(&[1, 2, 0], &[1, 2]), Ordering::Greater);
    assert_eq!(TypedBytes::<u32>::compare(&[], &[0]), Ordering::Less);
    assert_eq!(TypedBytes::<u32>::compare(&[9], &[1, 2, 3]), Ordering::Greater);
    assert_eq!(TypedBytes::<u32>::compare(&[], &[]), Ordering::Equal);
}

#[test]
fn compare_agrees_with_slice_order() {
    let samples: Vec<Vec<u8>> = vec![vec![], vec![0], vec![0, 0], vec![0, 1], vec![1], vec![255, 0], vec![255]];
    for a in &samples {
        for b in &samples {
            assert_eq!(TypedBytes::<()>::compare(a, b), a.as_slice().cmp(b.as_slice()));
            assert_eq!(TypedBytes::<()>::compare(a, b), TypedBytes::<()>::compare(b, a).reverse());
        }
    }
}

#[test]
fn bytes_round_trip() {
    let t = TypedBytes::<String>::from_bytes(&[4, 5, 6]);
    assert_eq!(t.as_bytes(), &[4, 5, 6]);
    assert_eq!(TypedBytes::<String>::from_vec(vec![1]).as_bytes(), &[1]);
    assert_eq!(TypedBytes::<String>::fixed_width(), None);
}
