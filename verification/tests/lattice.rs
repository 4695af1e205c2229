use lh_mount::lattice::{
    create_lattice, lattice_pair_default, lattice_pair_strictest, Lattice, LatticeType,
    LatticeValue, Order,
};

#[test]
fn compare_follows_numeric_order() {
    let lattice = create_lattice(&LatticeType::LinearNumber);
    let one = LatticeValue::Number(1);
    let three = LatticeValue::Number(3);
    assert_eq!(lattice.compare(&one, &three), Order::Less);
    assert_eq!(lattice.compare(&three, &one), Order::Greater);
    assert_eq!(lattice.compare(&three, &three), Order::Equal);
}

#[test]
fn default_and_strictest_pairs() {
    assert_eq!(lattice_pair_default(), (LatticeType::LinearNumber, LatticeValue::Number(3)));
    assert_eq!(lattice_pair_strictest(), (LatticeType::LinearNumber, LatticeValue::Number(1)));
    assert_eq!(LatticeType::LinearNumber.default(), LatticeValue::Number(3));
}

#[test]
fn values_read_from_text() {
    let t = LatticeType::LinearNumber;
    assert_eq!(LatticeValue::from_string(&t, "3"), LatticeValue::Number(3));
    assert_eq!(LatticeValue::from_string(&t, "-17"), LatticeValue::Number(-17));
    assert_eq!(LatticeValue::parse(&t, "9223372036854775807"), Some(LatticeValue::Number(i64::MAX)));
    assert_eq!(LatticeValue::parse(&t, "-9223372036854775808"), Some(LatticeValue::Number(i64::MIN)));
    assert_eq!(LatticeValue::parse(&t, "9223372036854775808"), None);
    assert_eq!(LatticeValue::parse(&t, ""), None);
    assert_eq!(LatticeValue::parse(&t, "+"), None);
    assert_eq!(LatticeValue::parse(&t, " 3"), None);
    assert_eq!(LatticeValue::parse(&t, "+42"), Some(LatticeValue::Number(42)));
    assert_eq!(LatticeValue::parse(&t, "0003"), Some(LatticeValue::Number(3)));
}

#[test]
fn values_written_as_text() {
    assert_eq!(LatticeValue::Number(3).to_string(), "3");
    assert_eq!(LatticeValue::Number(0).to_string(), "0");
    assert_eq!(LatticeValue::Number(-120).to_string(), "-120");
    assert_eq!(LatticeValue::Number(i64::MIN).to_string(), "-9223372036854775808");
    assert_eq!(LatticeValue::Number(i64::MAX).to_string(), "9223372036854775807");
    assert_eq!(LatticeType::LinearNumber.to_string(), "linear");
}

#[test]
fn the_order_is_total() {
    let lattice = create_lattice(&LatticeType::LinearNumber);
    let values: Vec<LatticeValue> =
        [i64::MIN, -2, -1, 0, 1, 2, 3, i64::MAX].iter().map(|n| LatticeValue::Number(*n)).collect();
    let flip = |o: Order| match o {
        Order::Less => Order::Greater,
        Order::Equal => Order::Equal,
        Order::Greater => Order::Less,
    };
    for a in values.iter() {
        for b in values.iter() {
            let ab = lattice.compare(a, b);
            assert_eq!(lattice.compare(b, a), flip(ab));
            assert_eq!(ab == Order::Equal, a == b);
            for c in values.iter() {
                if ab != Order::Greater && lattice.compare(b, c) != Order::Greater {
                    assert_ne!(lattice.compare(a, c), Order::Greater);
                }
            }
        }
    }
}
