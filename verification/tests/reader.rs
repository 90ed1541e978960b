use redos_detector::reader::{
    build_array_reader, chain_readers, empty_reader, ArrayReader, EmptyReader, ForkLog, LogRead, Step,
};
use std::cell::RefCell;
use std::rc::Rc;

/// A fork over an array reader whose forks share one log.
struct TestFork<R: Copy> {
    shared: Rc<RefCell<(ArrayReader<i32, R>, ForkLog<i32, R>)>>,
    cursor: usize,
}

impl<R: Copy> TestFork<R> {
    fn new(source: ArrayReader<i32, R>) -> Self {
        TestFork { shared: Rc::new(RefCell::new((source, ForkLog::new()))), cursor: 0 }
    }

    fn fork(&self) -> Self {
        TestFork { shared: Rc::clone(&self.shared), cursor: self.cursor }
    }

    fn next(&mut self) -> Step<i32, R> {
        let mut shared = self.shared.borrow_mut();
        let step = match shared.1.read_at(self.cursor) {
            LogRead::Value => Step::Value(shared.1.values[self.cursor]),
            LogRead::Done => Step::Done(shared.1.done.unwrap()),
            LogRead::Pull => {
                let step = shared.0.next();
                let kept = match &step {
                    Step::Value(v) => Step::Value(*v),
                    Step::Done(r) => Step::Done(*r),
                };
                shared.1.record(kept);
                step
            }
        };
        if let Step::Value(_) = step {
            self.cursor += 1;
        }
        step
    }
}

#[test]
fn chain_yields_in_order() {
    let mut reader = chain_readers(vec![
        build_array_reader(vec![0, 1]),
        build_array_reader(vec![2, 3]),
    ]);
    assert!(matches!(reader.next(), Step::Value(0)));
    assert!(matches!(reader.next(), Step::Value(1)));
    assert!(matches!(reader.next(), Step::Value(2)));
    assert!(matches!(reader.next(), Step::Value(3)));
    assert!(matches!(reader.next(), Step::Done(())));
}

#[test]
fn empty_is_immediately_done() {
    let mut reader: EmptyReader<()> = empty_reader();
    assert!(matches!(reader.next::<i32>(), Step::Done(())));
}

#[test]
fn fork_replays() {
    let source: ArrayReader<i32, ()> = build_array_reader(vec![1, 2, 3]);
    let mut a = TestFork::new(source);
    assert!(matches!(a.next(), Step::Value(1)));
    let mut b = a.fork();
    assert!(matches!(a.next(), Step::Value(2)));
    assert!(matches!(b.next(), Step::Value(2)));
    assert!(matches!(b.next(), Step::Value(3)));
    assert!(matches!(a.next(), Step::Value(3)));
    assert!(matches!(a.next(), Step::Done(())));
    assert!(matches!(b.next(), Step::Done(())));
}

#[test]
fn chain_skips_empty_readers_and_array_returns_value() {
    let mut reader = chain_readers(vec![
        build_array_reader(vec![]),
        build_array_reader(vec![5]),
        build_array_reader(vec![]),
    ]);
    assert!(matches!(reader.next(), Step::Value(5)));
    assert!(matches!(reader.next(), Step::Done(())));
    let mut array: ArrayReader<u8, u32> = build_array_reader(vec![9]);
    assert!(matches!(array.next(), Step::Value(9)));
    assert!(matches!(array.next(), Step::Done(0)));
}

#[test]
fn forkable_reader_keeps_returning_its_value() {
    let source: ArrayReader<i32, u8> = build_array_reader(vec![]);
    let mut a = TestFork::new(source);
    assert!(matches!(a.next(), Step::Done(0)));
    assert!(matches!(a.next(), Step::Done(0)));
    let mut log: ForkLog<i32, u8> = ForkLog::new();
    assert_eq!(log.read_at(0), LogRead::Pull);
    log.record(Step::Value(4));
    assert_eq!(log.read_at(0), LogRead::Value);
    assert_eq!(log.read_at(1), LogRead::Pull);
    log.record(Step::Done(7));
    assert_eq!(log.read_at(1), LogRead::Done);
    assert_eq!(log.done, Some(7));
}
