use trait_mux::{Match, Test};

#[test]
fn binary_accessor_recognizes_binary_variants() {
    let x = 5u32;
    let m = Match(&x);
    assert_eq!(Test::BinaryDebug(m.0).try_as_binary(), Some(&5));
    assert_eq!(Test::Binary(&x).try_as_binary(), Some(&5));
    assert_eq!(Test::Debug(&x).try_as_binary(), None);
    assert_eq!(Test::Display(&x).try_as_binary(), None);
    assert_eq!(Test::<u32>::NoTrait.try_as_binary(), None);
}

#[test]
fn debug_accessor_recognizes_debug_variants() {
    let x = 7u8;
    assert_eq!(Test::BinaryDebug(&x).try_as_debug(), Some(&7));
    assert_eq!(Test::Debug(&x).try_as_debug(), Some(&7));
    assert_eq!(Test::Binary(&x).try_as_debug(), None);
    assert_eq!(Test::Display(&x).try_as_debug(), None);
    assert_eq!(Test::<u8>::NoTrait.try_as_debug(), None);
}
