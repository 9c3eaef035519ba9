use merkle::node::NodeRange;
use merkle::token::{IntegerToken, Token};

#[test]
fn test_integer_cmp() {
    let a1 = IntegerToken::new(1);
    let a1_1 = IntegerToken::new(1);
    let a2 = IntegerToken::new(2);

    assert!(a2 > a1);
    assert!(a1_1 == a1);
}

#[test]
fn test_token_value_and_midpoint() {
    let a = IntegerToken::new(4);
    let b = IntegerToken::new(9);
    assert_eq!(a.value(), 4);
    assert_eq!(a.midpoint(&b).value(), 6);
    assert_eq!(a.midpoint(&a).value(), 4);
}

#[test]
fn test_range_from_token() {
    let r = NodeRange::from_token(IntegerToken::new(3), IntegerToken::new(8));
    assert_eq!((r.start, r.end), (3, 8));
    assert_eq!(r.mid, 5);
}
