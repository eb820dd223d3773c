use tifflin::irqs::{Bindings, Handler};

struct Counter {
    calls: u32,
}

impl Handler for Counter {
    fn handle(&mut self) -> bool {
        self.calls += 1;
        true
    }
}

#[test]
fn bind_hands_out_increasing_indices() {
    let mut b: Bindings<Counter> = Bindings::new();
    let r1 = b.bind(5, Counter { calls: 0 });
    let r2 = b.bind(5, Counter { calls: 0 });
    let (h3, first3) = b.bind_object(9, Counter { calls: 0 });
    assert_eq!(r1.index, 0);
    assert!(r1.first_for_irq);
    assert_eq!(r2.index, 1);
    assert!(!r2.first_for_irq);
    assert_eq!(h3.get_index(), 2);
    assert_eq!(h3.get_num(), 9);
    assert!(first3);
    assert_eq!(b.next_index(), 3);
    assert!(b.is_bound(5));
    assert!(b.is_bound(9));
    assert!(!b.is_bound(6));
    assert!(!b.is_bound(300));
}

use std::sync::{Arc, Mutex};

struct Logger {
    id: u32,
    log: Arc<Mutex<Vec<u32>>>,
}

impl Handler for Logger {
    fn handle(&mut self) -> bool {
        self.log.lock().unwrap().push(self.id);
        true
    }
}

#[test]
fn dispatch_runs_fired_only() {
    let log = Arc::new(Mutex::new(Vec::new()));
    let mut b: Bindings<Logger> = Bindings::new();
    b.bind(3, Logger { id: 30, log: log.clone() });
    b.bind(7, Logger { id: 70, log: log.clone() });
    b.bind(1, Logger { id: 10, log: log.clone() });
    b.bind(7, Logger { id: 71, log: log.clone() });
    assert!(b.dispatch().is_empty());
    assert!(log.lock().unwrap().is_empty());
    b.handle(7);
    b.handle(1);
    b.handle(2);
    b.handle(200);
    assert_eq!(b.dispatch(), vec![1, 7]);
    assert_eq!(*log.lock().unwrap(), vec![10, 70, 71]);
    assert!(b.dispatch().is_empty());
    assert_eq!(log.lock().unwrap().len(), 3);
    b.handle(3);
    b.handle(3);
    assert_eq!(b.dispatch(), vec![3]);
    assert_eq!(*log.lock().unwrap(), vec![10, 70, 71, 30]);
}

#[test]
fn number_is_first_bound_once() {
    let mut b: Bindings<Counter> = Bindings::new();
    let firsts: Vec<bool> = [4u32, 4, 8, 4, 8]
        .iter()
        .map(|&n| b.bind(n, Counter { calls: 0 }).first_for_irq)
        .collect();
    assert_eq!(firsts, vec![true, false, true, false, false]);
    b.handle(4);
    b.dispatch();
    assert!(!b.bind(4, Counter { calls: 0 }).first_for_irq);
}
