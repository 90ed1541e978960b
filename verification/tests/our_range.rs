use redos_detector::our_range::{
    create_ranges, intersect_ranges, invert_ranges, subtract_ranges, Bound, InvalidRanges,
    OurRange,
};
use std::collections::HashSet;

fn b(x: f64) -> Bound {
    if x == f64::INFINITY {
        Bound::PosInfinity
    } else if x == f64::NEG_INFINITY {
        Bound::NegInfinity
    } else {
        Bound::Finite(x as i64)
    }
}

/// The range with the given endpoints, written as the original wrote them.
fn r(range: (f64, f64)) -> OurRange {
    (b(range.0), b(range.1))
}

fn rs(ranges: &[(f64, f64)]) -> Vec<OurRange> {
    ranges.iter().map(|x| r(*x)).collect()
}

fn set(values: &[i64]) -> HashSet<i64> {
    values.iter().copied().collect()
}

#[test]
fn intersect_ranges_works() {
    assert_eq!(intersect_ranges(r((0.0, 1.0)), r((2.0, 3.0))), None);
    assert_eq!(intersect_ranges(r((1.0, 1.0)), r((1.0, 1.0))), Some(r((1.0, 1.0))));
    assert_eq!(intersect_ranges(r((0.0, 1.0)), r((1.0, 2.0))), Some(r((1.0, 1.0))));
    assert_eq!(intersect_ranges(r((1.0, 2.0)), r((0.0, 3.0))), Some(r((1.0, 2.0))));
    assert_eq!(intersect_ranges(r((1.0, 4.0)), r((3.0, 6.0))), Some(r((3.0, 4.0))));
}

#[test]
fn subtract_ranges_works() {
    assert_eq!(subtract_ranges(r((1.0, 3.0)), r((1.0, 3.0))), rs(&[]));
    assert_eq!(subtract_ranges(r((1.0, 3.0)), r((1.0, 2.0))), rs(&[(3.0, 3.0)]));
    assert_eq!(
        subtract_ranges(r((0.0, 3.0)), r((1.0, 2.0))),
        rs(&[(0.0, 0.0), (3.0, 3.0)])
    );
    assert_eq!(
        subtract_ranges(r((0.0, 5.0)), r((2.0, 3.0))),
        rs(&[(0.0, 1.0), (4.0, 5.0)])
    );
}

#[test]
fn create_ranges_works() {
    assert_eq!(create_ranges(&set(&[])), rs(&[]));
    assert_eq!(create_ranges(&set(&[1])), rs(&[(1.0, 1.0)]));
    assert_eq!(create_ranges(&set(&[1, 2])), rs(&[(1.0, 2.0)]));
    assert_eq!(create_ranges(&set(&[1, 3])), rs(&[(1.0, 1.0), (3.0, 3.0)]));
    assert_eq!(create_ranges(&set(&[1, 2, 3])), rs(&[(1.0, 3.0)]));
    assert_eq!(
        create_ranges(&set(&[5, 4, 1, 0])),
        rs(&[(0.0, 1.0), (4.0, 5.0)])
    );
}

#[test]
fn invert_ranges_works() {
    let inf = f64::INFINITY;
    let ninf = f64::NEG_INFINITY;
    assert_eq!(invert_ranges(&rs(&[])).unwrap(), rs(&[(ninf, inf)]));
    assert_eq!(
        invert_ranges(&rs(&[(0.0, 0.0)])).unwrap(),
        rs(&[(ninf, -1.0), (1.0, inf)])
    );
    assert_eq!(
        invert_ranges(&rs(&[(1.0, 2.0)])).unwrap(),
        rs(&[(ninf, 0.0), (3.0, inf)])
    );
    assert_eq!(
        invert_ranges(&rs(&[(1.0, 2.0), (3.0, 4.0)])).unwrap(),
        rs(&[(ninf, 0.0), (5.0, inf)])
    );
    assert_eq!(
        invert_ranges(&rs(&[(1.0, 2.0), (4.0, 6.0), (10.0, 12.0)])).unwrap(),
        rs(&[(ninf, 0.0), (3.0, 3.0), (7.0, 9.0), (13.0, inf)])
    );
}

#[test]
#[should_panic(expected = "Internal error: invalid ranges input")]
fn invert_ranges_rejects_unsorted() {
    invert_ranges(&rs(&[(1.0, 1.0), (0.0, 0.0)])).expect("Internal error: invalid ranges input");
}

#[test]
fn invert_reports_overlap() {
    assert_eq!(invert_ranges(&rs(&[(1.0, 5.0), (3.0, 8.0)])), Err(InvalidRanges));
}

#[test]
fn infinite_endpoints_take_part() {
    let inf = f64::INFINITY;
    let ninf = f64::NEG_INFINITY;
    assert_eq!(
        subtract_ranges(r((ninf, inf)), r((10.0, 20.0))),
        rs(&[(ninf, 9.0), (21.0, inf)])
    );
    assert_eq!(intersect_ranges(r((ninf, 5.0)), r((3.0, inf))), Some(r((3.0, 5.0))));
    assert_eq!(
        invert_ranges(&rs(&[(ninf, 5.0)])).unwrap(),
        rs(&[(ninf, ninf), (6.0, inf)])
    );
}
