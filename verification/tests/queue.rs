use linked_lists::queue::Queue;

#[test]
fn queue_push_pop() {
    let mut s = Queue::new();
    s.push("foo");
    s.push("bar");
    s.push("baz");
    assert_eq!(s.size(), 3);
    let maybe_foo = s.pop();
    assert_eq!(maybe_foo, Some("foo"));
    let maybe_bar = s.pop();
    assert_eq!(maybe_bar, Some("bar"));
    let maybe_baz = s.pop();
    assert_eq!(maybe_baz, Some("baz"));
    let nothing = s.pop();
    assert_eq!(nothing, None);
    assert_eq!(s.size(), 0);
}

#[test]
fn queue_new_is_empty() {
    let mut q: Queue<u32> = Queue::new();
    assert_eq!(q.size(), 0);
    assert_eq!(q.pop(), None);
}

#[test]
fn queue_pop_on_empty_stays_empty() {
    let mut q: Queue<String> = Queue::new();
    for _ in 0..5 {
        assert_eq!(q.pop(), None);
        assert_eq!(q.size(), 0);
    }
    q.push(String::from("a"));
    assert_eq!(q.pop(), Some(String::from("a")));
    for _ in 0..5 {
        assert_eq!(q.pop(), None);
        assert_eq!(q.size(), 0);
    }
}

#[test]
fn queue_hands_back_in_push_order() {
    let mut q = Queue::new();
    for i in 0..1000u32 {
        q.push(i);
    }
    assert_eq!(q.size(), 1000);
    for i in 0..1000u32 {
        assert_eq!(q.pop(), Some(i));
        assert_eq!(q.size(), (999 - i) as usize);
    }
    assert_eq!(q.pop(), None);
    assert_eq!(q.size(), 0);
}

#[test]
fn queue_push_after_last_pop() {
    let mut q = Queue::new();
    q.push(1);
    assert_eq!(q.pop(), Some(1));
    assert_eq!(q.size(), 0);
    q.push(2);
    q.push(3);
    assert_eq!(q.size(), 2);
    assert_eq!(q.pop(), Some(2));
    q.push(4);
    assert_eq!(q.pop(), Some(3));
    assert_eq!(q.pop(), Some(4));
    assert_eq!(q.pop(), None);
    q.push(5);
    assert_eq!(q.size(), 1);
    assert_eq!(q.pop(), Some(5));
    assert_eq!(q.pop(), None);
}

#[test]
fn queue_size_is_pushes_less_served_pops() {
    let mut q = Queue::new();
    let mut pushes: usize = 0;
    let mut served: usize = 0;
    let mut next_out: usize = 0;
    for round in 0..200usize {
        if round % 3 == 2 || round % 7 == 0 {
            match q.pop() {
                Some(x) => {
                    assert_eq!(x, next_out);
                    next_out += 1;
                    served += 1;
                }
                None => assert_eq!(pushes, served),
            }
        } else {
            q.push(pushes);
            pushes += 1;
        }
        assert_eq!(q.size(), pushes - served);
    }
    while let Some(x) = q.pop() {
        assert_eq!(x, next_out);
        next_out += 1;
    }
    assert_eq!(next_out, pushes);
    assert_eq!(q.size(), 0);
}

#[test]
fn queue_holds_owned_values() {
    let mut q = Queue::new();
    q.push(vec![1, 2]);
    q.push(vec![]);
    q.push(vec![3]);
    assert_eq!(q.pop(), Some(vec![1, 2]));
    assert_eq!(q.pop(), Some(vec![]));
    assert_eq!(q.size(), 1);
    assert_eq!(q.pop(), Some(vec![3]));
}

#[test]
fn long_queue_is_released() {
    let mut q = Queue::new();
    for i in 0..1_000_000u32 {
        q.push(i);
    }
    assert_eq!(q.size(), 1_000_000);
    assert_eq!(q.pop(), Some(0));
    drop(q);
}
