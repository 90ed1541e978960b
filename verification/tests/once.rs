use redos_detector::once::once;
use std::cell::Cell;
use std::rc::Rc;

fn check<T: Clone + PartialEq + std::fmt::Debug>(value: T) {
    let calls = Rc::new(Cell::new(0));
    let calls_inner = calls.clone();
    let v = value.clone();
    let mut f = once(move || {
        calls_inner.set(calls_inner.get() + 1);
        v
    });

    assert_eq!(calls.get(), 0);
    assert_eq!(f.call(), value);
    assert_eq!(calls.get(), 1);
    assert_eq!(f.call(), value);
    assert_eq!(calls.get(), 1);
}

#[test]
fn works_for_value() {
    check(1);
}

#[test]
fn works_for_unit() {
    check(());
}
