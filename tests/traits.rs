use vec_utils::traits::{Oneable, Signed, Zeroable};

#[test]
fn integer_zero_and_one() {
    assert!(<i64 as Zeroable>::zero().is_zero());
    assert!(!5i64.is_zero());
    assert!(<i32 as Oneable>::one().is_one());
    assert!(!2i32.is_one());
    assert_eq!(<u64 as Zeroable>::zero(), 0);
}

#[test]
fn integer_abs_and_flip() {
    assert_eq!(Signed::abs(&-7i64), 7);
    assert_eq!(Signed::abs(&7i32), 7);
    let mut v: i32 = 4;
    v.flip();
    assert_eq!(v, -4);
    v.flip();
    assert_eq!(v, 4);
}
