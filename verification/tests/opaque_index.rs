use aper::opaque_index::OpaqueIndex;

#[test]
fn test_order() {
    let p5 = OpaqueIndex::default();
    println!("p5 {:?}", &p5);

    let p10 = OpaqueIndex::new_after(&p5);

    let p1 = OpaqueIndex::new_before(&p5);
    println!("p1 {:?}", &p1);

    let _p8 = OpaqueIndex::new_between(&p5, &p10);

    assert!(p1 < p5);
    assert!(p5 < p10);
}

#[test]
fn opaque_index_exact_values() {
    let p5 = OpaqueIndex::default();
    assert_eq!(OpaqueIndex::new_after(&p5), OpaqueIndex(vec![1]));
    assert_eq!(OpaqueIndex::new_before(&p5), OpaqueIndex(vec![0]));
    let p10 = OpaqueIndex::new_after(&p5);
    let p8 = OpaqueIndex::new_between(&p5, &p10);
    assert!(p5 <= p8 && p8 <= p10);
}
