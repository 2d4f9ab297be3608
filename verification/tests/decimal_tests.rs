use orderbook::decimal::Decimal;

type Rd = rust_decimal::Decimal;

fn d(m: i128, s: u32) -> Decimal {
    Decimal::from_parts(m, s).unwrap()
}

#[test]
fn parts_out_of_range_are_refused() {
    assert!(Decimal::from_parts(1, 29).is_none());
    assert!(Decimal::from_parts(0x1_0000_0000_0000_0000_0000_0000, 0).is_none());
    assert!(Decimal::from_parts(-0x1_0000_0000_0000_0000_0000_0000, 0).is_none());
    assert!(Decimal::from_parts(0xFFFF_FFFF_FFFF_FFFF_FFFF_FFFF, 28).is_some());
    let x = d(-12345, 3);
    assert_eq!(x.mantissa(), -12345);
    assert_eq!(x.scale(), 3);
}

#[test]
fn keys_split_whole_and_fraction() {
    assert_eq!(d(12345, 3).key(), (12, 3_450_000_000_000_000_000_000_000_000));
    assert_eq!(d(-12345, 3).key(), (-13, 6_550_000_000_000_000_000_000_000_000));
    assert_eq!(d(-12000, 3).key(), (-12, 0));
    assert_eq!(d(7, 0).key(), (7, 0));
    assert_eq!(d(1, 28).key(), (0, 1));
}

#[test]
fn keys_order_as_values() {
    let values = [d(-15, 1), d(-1, 0), d(-1, 28), d(0, 5), d(1, 28), d(999, 3), d(1, 0), d(15, 1), d(2, 0)];
    for i in 0..values.len() {
        for j in 0..values.len() {
            let ki = values[i].key();
            let kj = values[j].key();
            let vi = Rd::from_i128_with_scale(values[i].mantissa(), values[i].scale());
            let vj = Rd::from_i128_with_scale(values[j].mantissa(), values[j].scale());
            assert_eq!(ki < kj, vi < vj);
            assert_eq!(ki == kj, vi == vj);
        }
    }
}

#[test]
fn equal_values_of_different_scales_are_equal() {
    assert_eq!(d(10, 1), d(1, 0));
    assert_eq!(d(0, 7), Decimal::zero());
    assert_ne!(d(11, 1), d(1, 0));
    assert!(d(0, 3).is_zero());
    assert!(!d(1, 3).is_zero());
}

#[test]
fn difference_is_exact_where_it_fits() {
    let r = d(21000, 0).checked_sub(&d(205000, 1)).unwrap();
    assert_eq!(Rd::from_i128_with_scale(r.mantissa(), r.scale()), Rd::from(500));
    let r = d(1, 2).checked_sub(&d(3, 0)).unwrap();
    assert_eq!(Rd::from_i128_with_scale(r.mantissa(), r.scale()), Rd::new(-299, 2));
}

#[test]
fn difference_overflows_at_the_limits() {
    let max = d(0xFFFF_FFFF_FFFF_FFFF_FFFF_FFFF, 0);
    let min = d(-0xFFFF_FFFF_FFFF_FFFF_FFFF_FFFF, 0);
    assert!(max.checked_sub(&min).is_none());
    assert!(max.checked_sub(&max).unwrap().is_zero());
}
