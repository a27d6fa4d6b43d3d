use oskernel::task::manager::{StrideTask, TaskManager, BIG_STRIDE};

fn task(id: usize, stride: usize, priority: usize) -> StrideTask {
    StrideTask { id, stride, priority }
}

#[test]
fn fetch_takes_least_stride() {
    let mut m = TaskManager::new();
    m.add(task(1, 30, 2));
    m.add(task(2, 10, 4));
    m.add(task(3, 20, 2));
    let t = m.fetch().unwrap();
    assert_eq!(t, task(2, 10 + BIG_STRIDE / 4, 4));
    assert_eq!(m.len(), 2);
    let t = m.fetch().unwrap();
    assert_eq!(t.id, 3);
    assert_eq!(t.stride, 20 + 500000);
}

#[test]
fn fetch_from_empty_queue_gives_none() {
    let mut m = TaskManager::new();
    assert_eq!(m.fetch(), None);
    assert_eq!(m.len(), 0);
    m.add(task(4, 0, 3));
    assert_eq!(m.fetch().unwrap().id, 4);
    assert_eq!(m.fetch(), None);
}

#[test]
fn fetch_takes_first_of_equal_strides() {
    let mut m = TaskManager::new();
    m.add(task(7, 5, 1));
    m.add(task(8, 5, 1));
    let t = m.fetch().unwrap();
    assert_eq!(t.id, 7);
    assert_eq!(t.stride, 5 + BIG_STRIDE);
    assert_eq!(m.fetch().unwrap().id, 8);
    assert_eq!(m.len(), 0);
}

#[test]
fn strides_stay_close() {
    // Priorities of at least 2: the spread of strides stays within BIG_STRIDE / 2.
    let mut m = TaskManager::new();
    m.add(task(1, 0, 2));
    m.add(task(2, 0, 5));
    m.add(task(3, 0, 100));
    let mut strides = [0usize; 4];
    for _ in 0..50 {
        let t = m.fetch().unwrap();
        strides[t.id] = t.stride;
        m.add(t);
        let hi = strides[1..].iter().max().unwrap();
        let lo = strides[1..].iter().min().unwrap();
        assert!(hi - lo <= BIG_STRIDE / 2);
    }
}

