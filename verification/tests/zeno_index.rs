use aper::zeno_index::{FractionByte, ZenoIndex};

const MAGIC: FractionByte = FractionByte::Magic;

fn byte(v: u8) -> FractionByte {
    FractionByte::Byte(v)
}

#[test]
fn test_zeno_index() {
    let mut indices: Vec<ZenoIndex> = Vec::new();

    let c = ZenoIndex::default();

    {
        let mut m = c.clone();
        let mut low = Vec::new();
        for _ in 0..20 {
            m = ZenoIndex::new_before(&m);
            low.push(m.clone())
        }

        low.reverse();
        indices.append(&mut low)
    }

    indices.push(c.clone());

    {
        let mut m = c.clone();
        let mut high = Vec::new();
        for _ in 0..20 {
            m = ZenoIndex::new_after(&m);
            high.push(m.clone())
        }

        indices.append(&mut high)
    }

    for i in 0..(indices.len() - 1) {
        assert!(indices[i] < indices[i + 1])
    }

    for _ in 0..12 {
        let mut new_indices: Vec<ZenoIndex> = Vec::new();
        for i in 0..(indices.len() - 1) {
            let cb = ZenoIndex::new_between(&indices[i], &indices[i + 1]);
            assert!(&indices[i] < &cb);
            assert!(&cb < &indices[i + 1]);
            new_indices.push(cb);
            new_indices.push(indices[i + 1].clone());
        }

        indices = new_indices;
    }
}

#[test]
fn test_fraction_byte_comparisons() {
    assert!(byte(0) < MAGIC);
    assert!(byte(255) > MAGIC);
    assert!(byte(127) < MAGIC);
    assert!(byte(128) > MAGIC);
    assert_eq!(MAGIC, MAGIC);
    assert_eq!(byte(128), byte(128));
    assert!(byte(8) < byte(9));
}

#[test]
fn test_fraction_byte_new_between_bytes() {
    assert_eq!(Some(byte(8)), FractionByte::new_between_bytes(7, 9));
    assert_eq!(None, FractionByte::new_between_bytes(5, 6));
    assert_eq!(None, FractionByte::new_between_bytes(5, 5));
    assert_eq!(None, FractionByte::new_between_bytes(5, 4));
}

#[test]
fn test_fraction_byte_new_between() {
    assert_eq!(Some(byte(8)), FractionByte::new_between(byte(7), byte(9)));
    assert_eq!(Some(MAGIC), FractionByte::new_between(byte(7), byte(192)));
    assert_eq!(Some(byte(67)), FractionByte::new_between(byte(7), MAGIC));
    assert_eq!(Some(byte(126)), FractionByte::new_between(byte(125), MAGIC));
    assert_eq!(Some(byte(127)), FractionByte::new_between(byte(126), MAGIC));
    assert_eq!(Some(byte(128)), FractionByte::new_between(MAGIC, byte(129)));
    assert_eq!(None, FractionByte::new_between(byte(127), MAGIC));
    assert_eq!(None, FractionByte::new_between(MAGIC, byte(128)));
    assert_eq!(Some(byte(191)), FractionByte::new_between(MAGIC, byte(255)));
    assert_eq!(None, FractionByte::new_between(MAGIC, MAGIC));
    assert_eq!(None, FractionByte::new_between(byte(191), byte(191)));
}

#[test]
fn zeno_new_before_and_after_exact_values() {
    let half = ZenoIndex::default();
    assert_eq!(ZenoIndex::new_before(&half), ZenoIndex(vec![127]));
    assert_eq!(ZenoIndex::new_after(&half), ZenoIndex(vec![128]));
    assert_eq!(ZenoIndex::new_before(&ZenoIndex(vec![200, 5])), ZenoIndex(vec![199]));
    assert_eq!(ZenoIndex::new_after(&ZenoIndex(vec![10, 5])), ZenoIndex(vec![11]));
    assert_eq!(ZenoIndex::new_before(&ZenoIndex(vec![0, 3])), ZenoIndex(vec![0, 2]));
    assert_eq!(ZenoIndex::new_after(&ZenoIndex(vec![255, 3])), ZenoIndex(vec![255, 4]));
    assert_eq!(ZenoIndex::new_before(&ZenoIndex(vec![0, 0])), ZenoIndex(vec![0, 0, 127]));
}

#[test]
fn zeno_new_between_is_strictly_between() {
    let a = ZenoIndex(vec![10]);
    let b = ZenoIndex(vec![20]);
    let m = ZenoIndex::new_between(&a, &b);
    assert!(a < m && m < b);
    let c = ZenoIndex(vec![127]);
    let d = ZenoIndex(vec![]);
    let n = ZenoIndex::new_between(&c, &d);
    assert!(c < n && n < d);
    assert_eq!(n, ZenoIndex(vec![127, 128]));
}

#[test]
fn zeno_order_digits() {
    assert_eq!(ZenoIndex(vec![1, 2]).digit(1), byte(2));
    assert_eq!(ZenoIndex(vec![1, 2]).digit(5), MAGIC);
    assert!(ZenoIndex(vec![50]) < ZenoIndex(vec![]));
    assert!(ZenoIndex(vec![]) < ZenoIndex(vec![200]));
    assert!(ZenoIndex(vec![127, 255]) < ZenoIndex(vec![128]));
    assert_eq!(ZenoIndex(vec![3]), ZenoIndex(vec![3]));
}

#[test]
fn fraction_byte_values() {
    assert_eq!(MAGIC.value(), 255);
    assert_eq!(byte(100).value(), 200);
    assert_eq!(FractionByte::default(), MAGIC);
}
