use hyperpaths_rs::PriorityQueue;

fn queue_of(keys: &[u64]) -> PriorityQueue {
    let mut q = PriorityQueue::with_capacity(keys.len());
    for (k, &key) in keys.iter().enumerate() {
        assert_eq!(q.push(100 + k, key), k);
    }
    q.init();
    q
}

fn drain(q: &mut PriorityQueue) -> Vec<u64> {
    let mut out = Vec::new();
    while let Some(id) = q.pop() {
        out.push(q.priority(id));
    }
    out
}

#[test]
fn pop_returns_smallest_key_first() {
    let mut q = PriorityQueue::with_capacity(4);
    assert_eq!(q.push(10, 30), 0);
    assert_eq!(q.push(11, 10), 1);
    assert_eq!(q.push(12, 20), 2);
    q.init();
    assert_eq!(q.len(), 3);
    assert_eq!(q.pop(), Some(1));
    assert_eq!(q.pop(), Some(2));
    assert_eq!(q.pop(), Some(0));
    assert_eq!(q.pop(), None);
    assert_eq!(q.len(), 0);
}

#[test]
fn keys_leave_in_non_decreasing_order() {
    let keys = [9, 4, 7, 1, 8, 2, 6, 3, 5, 0, 4, 7];
    let mut q = queue_of(&keys);
    let mut sorted = keys.to_vec();
    sorted.sort();
    assert_eq!(drain(&mut q), sorted);
}

#[test]
fn entries_keep_their_link_and_key() {
    let q = queue_of(&[5, 3, 8]);
    assert_eq!(q.link(0), 100);
    assert_eq!(q.link(2), 102);
    assert_eq!(q.priority(1), 3);
    assert_eq!(q.priority(2), 8);
}

#[test]
fn pop_on_empty_queue_is_none() {
    let mut q = PriorityQueue::with_capacity(0);
    q.init();
    assert_eq!(q.len(), 0);
    assert_eq!(q.pop(), None);
}

#[test]
fn decreasing_a_key_moves_the_entry_forward() {
    let mut q = queue_of(&[50, 40, 30, 20, 10]);
    q.update(0, 5);
    assert_eq!(q.priority(0), 5);
    assert_eq!(q.pop(), Some(0));
    assert_eq!(q.pop(), Some(4));
}

#[test]
fn increasing_a_key_moves_the_entry_back() {
    let mut q = queue_of(&[50, 40, 30, 20, 10]);
    q.update(4, 60);
    assert_eq!(q.pop(), Some(3));
    assert_eq!(drain(&mut q), vec![30, 40, 50, 60]);
}

#[test]
fn updating_a_popped_entry_changes_nothing() {
    let mut q = queue_of(&[3, 1, 2]);
    assert_eq!(q.pop(), Some(1));
    q.update(1, 0);
    assert_eq!(q.priority(1), 1);
    assert_eq!(q.len(), 2);
    assert_eq!(q.pop(), Some(2));
    assert_eq!(q.pop(), Some(0));
}

#[test]
fn equal_keys_all_come_out() {
    let mut q = queue_of(&[7, 7, 7, 7]);
    let mut ids = Vec::new();
    while let Some(id) = q.pop() {
        ids.push(id);
    }
    ids.sort();
    assert_eq!(ids, vec![0, 1, 2, 3]);
}

#[test]
fn clear_empties_the_queue() {
    let mut q = queue_of(&[1, 2, 3]);
    q.clear();
    assert_eq!(q.len(), 0);
    assert_eq!(q.pop(), None);
    assert_eq!(q.push(7, 70), 0);
    q.init();
    assert_eq!(q.pop(), Some(0));
}

#[test]
fn pending_ids_lists_each_queued_entry_once() {
    let mut q = queue_of(&[4, 2, 6, 1]);
    q.pop();
    let mut ids = q.pending_ids();
    assert_eq!(ids.len(), q.len());
    ids.sort();
    assert_eq!(ids, vec![0, 1, 2]);
    assert_eq!(q.pending_ids()[0], 1);
}

#[test]
fn pushes_after_pops_get_fresh_ids() {
    let mut q = queue_of(&[4, 2]);
    assert_eq!(q.pop(), Some(1));
    assert_eq!(q.push(9, 1), 2);
    q.init();
    assert_eq!(q.pop(), Some(2));
    assert_eq!(q.pop(), Some(0));
}

#[test]
fn updates_above_the_last_popped_key_keep_the_order() {
    let mut q = queue_of(&[10, 20, 30, 40]);
    let mut out = Vec::new();
    let a = q.pop().unwrap();
    out.push(q.priority(a));
    q.update(3, 15);
    q.update(2, 35);
    while let Some(id) = q.pop() {
        out.push(q.priority(id));
    }
    assert_eq!(out, vec![10, 15, 20, 35]);
}

#[test]
fn draining_returns_every_id_once() {
    let keys = [5, 5, 1, 9, 3, 3, 0];
    let mut q = queue_of(&keys);
    let mut ids = Vec::new();
    for _ in 0..keys.len() {
        ids.push(q.pop().unwrap());
    }
    assert_eq!(q.pop(), None);
    let mut seen = ids.clone();
    seen.sort();
    assert_eq!(seen, (0..keys.len()).collect::<Vec<_>>());
    for w in ids.windows(2) {
        assert!(keys[w[0]] <= keys[w[1]]);
    }
}

#[test]
fn equal_keys_leave_in_the_heap_layout_order() {
    let pop_all = |keys: &[u64]| {
        let mut q = queue_of(keys);
        let mut ids = Vec::new();
        while let Some(id) = q.pop() {
            ids.push(id);
        }
        ids
    };
    assert_eq!(pop_all(&[7, 7, 7, 7]), vec![2, 0, 3, 1]);
    assert_eq!(pop_all(&[7, 7, 7, 7, 7]), vec![2, 0, 1, 4, 3]);
    assert_eq!(pop_all(&[2, 1, 2, 1, 2]), vec![3, 1, 2, 0, 4]);
}
