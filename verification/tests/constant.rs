use aper::constant::Constant;

#[test]
fn test_replace() {
    let constant = Constant::new(5);
    assert_eq!(5, *constant.value());
}
