use mru::atomic::TaggedPtr;
use mru::heap::Heap;
use mru::lockfree::{
    IntrusiveStack, Node, Queue, QueueConsumer, QueueProducer, Stack, StackConsumer, StackProducer,
};
use std::sync::{Arc, Mutex};

fn node(heap: &mut Heap<Node<usize>>, value: usize) -> TaggedPtr {
    TaggedPtr::from_box(Box::new(Node { value: Some(value), next: TaggedPtr::nil() }), heap)
}

#[test]
fn intrusive_stack_hands_nodes_from_one_stack_to_another() {
    let mut heap: Heap<Node<usize>> = Heap::new();
    let mut stack1: IntrusiveStack<usize> = IntrusiveStack::new();
    let mut stack2: IntrusiveStack<usize> = IntrusiveStack::new();
    assert!(stack1.is_empty(&heap));
    let first = node(&mut heap, 42);
    let second = node(&mut heap, 5);
    stack1.push(&mut heap, first);
    stack1.push(&mut heap, second);
    assert!(!stack1.is_empty(&heap));
    let upper = stack1.pop(&heap).unwrap();
    let lower = stack1.pop(&heap).unwrap();
    assert!(stack1.pop(&heap).is_none());
    assert!(stack1.is_empty(&heap));
    assert_eq!(heap.get(upper.get()).value, Some(5));
    assert_eq!(heap.get(lower.get()).value, Some(42));
    stack2.push(&mut heap, upper);
    stack2.push(&mut heap, lower);
    let mut top = stack2.pop(&heap).unwrap();
    let mut bottom = stack2.pop(&heap).unwrap();
    assert_eq!(heap.get(top.get()).value, Some(42));
    assert_eq!(heap.get(bottom.get()).value, Some(5));
    assert_eq!(top.to_box(&mut heap).unwrap().value, Some(42));
    assert_eq!(bottom.to_box(&mut heap).unwrap().value, Some(5));
    assert_eq!(heap.len(), 0);
}

#[test]
fn intrusive_stack_advances_the_head_tag_on_each_push_and_pop() {
    let mut heap: Heap<Node<usize>> = Heap::new();
    let mut stack: IntrusiveStack<usize> = IntrusiveStack::new();
    let first = node(&mut heap, 1);
    let first_addr = first.get();
    stack.push(&mut heap, first);
    let p = stack.pop(&heap).unwrap();
    assert_eq!(p.get(), first_addr);
    assert_eq!(p.get_tag(), 1);
    stack.push(&mut heap, p);
    let p = stack.pop(&heap).unwrap();
    assert_eq!(p.get(), first_addr);
    assert_eq!(p.get_tag(), 3);
    assert!(heap.get(first_addr).next.is_nil());
    assert_eq!(heap.get(first_addr).next.get_tag(), 2);
}

#[test]
fn single_thread_stack() {
    let mut stack: Stack<usize> = Stack::new(4);
    stack.push(1);
    stack.push(2);
    stack.push(3);
    assert_eq!(stack.pop(), Some(3));
    assert_eq!(stack.pop(), Some(2));
    assert_eq!(stack.pop(), Some(1));
    assert_eq!(stack.pop(), None);
}

#[test]
fn single_thread_queue() {
    let mut queue: Queue<usize> = Queue::new(4);
    queue.push(10);
    queue.push(20);
    queue.push(30);
    assert_eq!(queue.pop(), Some(10));
    assert_eq!(queue.pop(), Some(20));
    assert_eq!(queue.pop(), Some(30));
    assert_eq!(queue.pop(), None);
}

#[test]
fn one_producer_one_consumer_queue() {
    let mut queue: Queue<usize> = Queue::new(128);
    let mut popped: Vec<usize> = Vec::new();
    let mut next = 0;
    while popped.len() < 10000 {
        let burst = 1 + (next % 7);
        let mut i = 0;
        while i < burst && next < 10000 {
            queue.push(next);
            next += 1;
            i += 1;
        }
        let take = 1 + (popped.len() % 3);
        let mut j = 0;
        while j < take {
            if let Some(v) = queue.pop() {
                popped.push(v);
            }
            j += 1;
        }
    }
    let expected: Vec<usize> = (0..10000).collect();
    assert_eq!(popped, expected);
    assert_eq!(queue.pop(), None);
    assert!(queue.is_empty());
}

#[test]
fn four_producers_four_consumers_queue() {
    let n = 40000;
    let per = 10000;
    let mut queue: Queue<usize> = Queue::new(128);
    let mut seen: Vec<u64> = vec![0; n];
    let mut by_consumer: Vec<Vec<usize>> = vec![Vec::new(), Vec::new(), Vec::new(), Vec::new()];
    let mut pushed = 0;
    let mut popped = 0;
    let mut round = 0;
    while popped < n {
        if pushed < n {
            for producer in 0..4 {
                queue.push(producer * per + round);
                pushed += 1;
            }
            round += 1;
        }
        for consumer in 0..4 {
            if (round + consumer) % 3 != 0 || pushed == n {
                if let Some(id) = queue.pop() {
                    seen[id] += 1;
                    by_consumer[consumer].push(id);
                    popped += 1;
                }
            }
        }
    }
    assert!(seen.iter().all(|&count| count == 1));
    assert_eq!(queue.pop(), None);
    let mut all: Vec<usize> = Vec::new();
    for ids in &by_consumer {
        for producer in 0..4 {
            let own: Vec<usize> =
                ids.iter().copied().filter(|id| id / per == producer).collect();
            assert!(own.windows(2).all(|w| w[0] < w[1]));
        }
        all.extend(ids);
    }
    all.sort();
    let expected: Vec<usize> = (0..n).collect();
    assert_eq!(all, expected);
}

#[test]
fn capacity_reuse() {
    let mut stack: Stack<usize> = Stack::new(1);
    assert_eq!(stack.node_count(), 1);
    let mut i = 0;
    while i < 1_000_000 {
        stack.push(i);
        assert_eq!(stack.pop(), Some(i));
        i += 1;
    }
    assert_eq!(stack.node_count(), 1);
    assert!(stack.is_empty());
}

#[test]
fn stack_allocates_only_beyond_its_capacity() {
    let mut stack: Stack<usize> = Stack::new(2);
    assert_eq!(stack.node_count(), 2);
    stack.push(1);
    stack.push(2);
    assert_eq!(stack.node_count(), 2);
    stack.push(3);
    assert_eq!(stack.node_count(), 3);
    assert_eq!(stack.pop(), Some(3));
    assert_eq!(stack.pop(), Some(2));
    stack.push(4);
    stack.push(5);
    assert_eq!(stack.node_count(), 3);
    assert_eq!(stack.pop(), Some(5));
    assert_eq!(stack.pop(), Some(4));
    assert_eq!(stack.pop(), Some(1));
    assert_eq!(stack.pop(), None);
    assert_eq!(stack.node_count(), 3);
}

#[test]
fn stack_without_capacity_allocates_on_first_push() {
    let mut stack: Stack<usize> = Stack::new(0);
    assert!(stack.is_empty());
    assert_eq!(stack.node_count(), 0);
    assert_eq!(stack.pop(), None);
    stack.push(7);
    assert!(!stack.is_empty());
    assert_eq!(stack.node_count(), 1);
    assert_eq!(stack.pop(), Some(7));
    assert!(stack.is_empty());
}

#[test]
fn stack_extend_and_compact_change_the_freelist_only() {
    let mut stack: Stack<usize> = Stack::new(1);
    stack.push(1);
    stack.push(2);
    assert_eq!(stack.node_count(), 2);
    stack.extend(3);
    assert_eq!(stack.node_count(), 5);
    stack.push(3);
    assert_eq!(stack.node_count(), 5);
    stack.compact();
    assert_eq!(stack.node_count(), 3);
    stack.compact();
    assert_eq!(stack.node_count(), 3);
    assert_eq!(stack.pop(), Some(3));
    assert_eq!(stack.node_count(), 3);
    stack.compact();
    assert_eq!(stack.node_count(), 2);
    assert_eq!(stack.pop(), Some(2));
    assert_eq!(stack.pop(), Some(1));
    assert_eq!(stack.pop(), None);
    stack.compact();
    assert_eq!(stack.node_count(), 0);
    stack.push(9);
    assert_eq!(stack.pop(), Some(9));
}

#[test]
fn stack_moves_values_that_are_not_copied() {
    let mut stack: Stack<String> = Stack::new(0);
    stack.push(String::from("a"));
    stack.push(String::from("b"));
    assert_eq!(stack.pop(), Some(String::from("b")));
    stack.push(String::from("c"));
    assert_eq!(stack.pop(), Some(String::from("c")));
    assert_eq!(stack.pop(), Some(String::from("a")));
    assert_eq!(stack.pop(), None);
}

#[test]
fn queue_is_empty_until_pushed_and_after_the_last_pop() {
    let mut queue: Queue<usize> = Queue::new(0);
    assert!(queue.is_empty());
    assert_eq!(queue.pop(), None);
    queue.push(1);
    assert!(!queue.is_empty());
    queue.push(2);
    assert_eq!(queue.pop(), Some(1));
    assert!(!queue.is_empty());
    assert_eq!(queue.pop(), Some(2));
    assert!(queue.is_empty());
    assert_eq!(queue.pop(), None);
    assert_eq!(queue.pop(), None);
    assert!(queue.is_empty());
}

#[test]
fn queue_hands_out_copies_of_values_that_are_not_copied() {
    let mut queue: Queue<String> = Queue::new(2);
    queue.push(String::from("a"));
    queue.push(String::from("b"));
    assert_eq!(queue.pop(), Some(String::from("a")));
    queue.push(String::from("c"));
    assert_eq!(queue.pop(), Some(String::from("b")));
    assert_eq!(queue.pop(), Some(String::from("c")));
    assert_eq!(queue.pop(), None);
}

#[test]
fn stack_handles_share_one_stack() {
    let stack: Arc<Mutex<Stack<usize>>> = Arc::new(Mutex::new(Stack::new(4)));
    assert_eq!(Arc::strong_count(&stack), 1);
    let producer = StackProducer::new(&stack);
    assert_eq!(Arc::strong_count(&stack), 2);
    let consumer = StackConsumer::new(&stack);
    let producer2 = producer.clone();
    let consumer2 = consumer.clone();
    assert_eq!(Arc::strong_count(&stack), 5);
    assert!(Arc::ptr_eq(producer.stack(), &stack));
    assert!(Arc::ptr_eq(producer2.stack(), &stack));
    assert!(Arc::ptr_eq(consumer.stack(), &stack));
    assert!(Arc::ptr_eq(consumer2.stack(), &stack));
    producer2.stack().lock().unwrap().push(3);
    assert_eq!(consumer.stack().lock().unwrap().pop(), Some(3));
    drop(producer);
    drop(consumer2);
    assert_eq!(Arc::strong_count(&stack), 3);
}

#[test]
fn queue_handles_share_one_queue() {
    let queue: Arc<Mutex<Queue<usize>>> = Arc::new(Mutex::new(Queue::new(4)));
    let producer = QueueProducer::new(&queue);
    let consumer = QueueConsumer::new(&queue);
    let producer2 = producer.clone();
    let consumer2 = consumer.clone();
    assert_eq!(Arc::strong_count(&queue), 5);
    assert!(Arc::ptr_eq(producer.queue(), &queue));
    assert!(Arc::ptr_eq(producer2.queue(), &queue));
    assert!(Arc::ptr_eq(consumer.queue(), &queue));
    assert!(Arc::ptr_eq(consumer2.queue(), &queue));
    producer.queue().lock().unwrap().push(7);
    assert_eq!(consumer2.queue().lock().unwrap().pop(), Some(7));
    assert!(producer2.queue().lock().unwrap().is_empty());
}

#[test]
fn stale_pop_attempt_fails_and_the_retry_takes_the_node() {
    let mut heap: Heap<Node<usize>> = Heap::new();
    let mut stack: IntrusiveStack<usize> = IntrusiveStack::new();
    let first = node(&mut heap, 1);
    let second = node(&mut heap, 2);
    let first_addr = first.get();
    let second_addr = second.get();
    stack.push(&mut heap, first);
    stack.push(&mut heap, second);

    let seen = stack.observe();
    let link = stack.follow(&heap, &seen);
    assert_eq!(seen.head().get(), second_addr);
    assert_eq!(link.next().get(), first_addr);

    let held = stack.pop(&heap).unwrap();
    let other = stack.pop(&heap).unwrap();
    assert_eq!(held.get(), second_addr);
    assert_eq!(other.get(), first_addr);
    stack.push(&mut heap, held);

    let now = stack.observe();
    assert_eq!(now.head().get(), seen.head().get());
    assert!(now.head().get_tag() != seen.head().get_tag());
    assert!(heap.get(second_addr).next.is_nil());

    let mut failures = 0;
    let mut taken: Vec<usize> = vec![heap.get(other.get()).value.unwrap()];
    let mut attempt = (seen, link);
    loop {
        match stack.try_pop(&heap, &attempt.0, &attempt.1) {
            Some(p) => {
                taken.push(heap.get(p.get()).value.unwrap());
                break;
            }
            None => {
                failures += 1;
                let seen = stack.observe();
                let link = stack.follow(&heap, &seen);
                attempt = (seen, link);
            }
        }
    }
    assert_eq!(failures, 1);
    assert!(stack.is_empty(&heap));
    assert!(stack.pop(&heap).is_none());
    taken.sort();
    assert_eq!(taken, vec![1, 2]);
}

#[test]
fn stale_push_attempt_fails_and_changes_the_node_only() {
    let mut heap: Heap<Node<usize>> = Heap::new();
    let mut stack: IntrusiveStack<usize> = IntrusiveStack::new();
    let first = node(&mut heap, 1);
    let second = node(&mut heap, 2);
    let first_addr = first.get();
    let second_addr = second.get();
    let seen = stack.observe();
    stack.push(&mut heap, first);
    assert!(!stack.try_push(&mut heap, &second, &seen));
    assert!(heap.get(second_addr).next.is_nil());
    let seen = stack.observe();
    assert!(stack.try_push(&mut heap, &second, &seen));
    assert_eq!(heap.get(second_addr).next.get(), first_addr);
    assert_eq!(stack.pop(&heap).unwrap().get(), second_addr);
    assert_eq!(stack.pop(&heap).unwrap().get(), first_addr);
    assert!(stack.pop(&heap).is_none());
}

#[test]
fn pop_attempt_on_the_head_as_it_stands_succeeds() {
    let mut heap: Heap<Node<usize>> = Heap::new();
    let mut stack: IntrusiveStack<usize> = IntrusiveStack::new();
    let first = node(&mut heap, 1);
    let first_addr = first.get();
    stack.push(&mut heap, first);
    let seen = stack.observe();
    let link = stack.follow(&heap, &seen);
    let p = stack.try_pop(&heap, &seen, &link).unwrap();
    assert_eq!(p.get(), first_addr);
    assert_eq!(p.get_tag(), 1);
    assert!(stack.is_empty(&heap));
    assert_eq!(stack.observe().head().value(), 0x0002_0000_0000_0000);
}

#[test]
fn stack_loses_and_repeats_no_value() {
    let mut stack: Stack<usize> = Stack::new(16);
    let mut i = 0;
    while i < 1000 {
        stack.push(i * 7 + 3);
        i += 1;
    }
    let mut popped: Vec<usize> = Vec::new();
    let mut j = 0;
    while j < 1000 {
        popped.push(stack.pop().unwrap());
        j += 1;
    }
    assert_eq!(stack.pop(), None);
    let in_order: Vec<usize> = (0..1000).rev().map(|i| i * 7 + 3).collect();
    assert_eq!(popped, in_order);
    popped.sort();
    popped.dedup();
    assert_eq!(popped.len(), 1000);
}

#[test]
fn first_pop_after_pushes_takes_the_last_pushed() {
    let mut stack: Stack<usize> = Stack::new(0);
    stack.push(5);
    assert_eq!(stack.pop(), Some(5));
    stack.push(6);
    stack.push(7);
    stack.push(8);
    assert_eq!(stack.pop(), Some(8));
    stack.push(9);
    assert_eq!(stack.pop(), Some(9));
    assert_eq!(stack.pop(), Some(7));
}

#[test]
fn head_tag_is_the_same_again_after_65536_installs() {
    let mut heap: Heap<Node<usize>> = Heap::new();
    let mut stack: IntrusiveStack<usize> = IntrusiveStack::new();
    let mut held = node(&mut heap, 1);
    let addr = held.get();
    assert_eq!(stack.observe().head().get_tag(), 0);
    let mut i = 0;
    while i < 32768 {
        stack.push(&mut heap, held);
        assert_eq!(stack.observe().head().get_tag() as usize, (2 * i + 1) % 65536);
        held = stack.pop(&heap).unwrap();
        assert_eq!(held.get(), addr);
        assert_eq!(stack.observe().head().get_tag() as usize, (2 * i + 2) % 65536);
        i += 1;
    }
    assert_eq!(stack.observe().head().value(), 0);
    assert!(stack.is_empty(&heap));
}

#[test]
fn queue_nodes_stay_within_the_fullest_it_has_been() {
    let mut queue: Queue<usize> = Queue::new(0);
    let mut round = 0;
    while round < 50 {
        let mut i = 0;
        while i < 10 {
            queue.push(round * 10 + i);
            i += 1;
        }
        let mut j = 0;
        while j < 10 {
            assert_eq!(queue.pop(), Some(round * 10 + j));
            j += 1;
        }
        assert_eq!(queue.node_count(), 11);
        round += 1;
    }
    assert!(queue.is_empty());
}

#[test]
fn pop_moves_a_lagging_tail_on_before_it_takes_the_value() {
    let mut queue: Queue<usize> = Queue::new(0);
    queue.link(1);
    assert!(!queue.is_empty());
    assert_eq!(queue.pop(), Some(1));
    assert!(queue.is_empty());
    assert_eq!(queue.pop(), None);
    queue.push(2);
    assert_eq!(queue.pop(), Some(2));
    assert_eq!(queue.pop(), None);
}

#[test]
fn push_and_link_move_a_lagging_tail_on_before_they_link() {
    let mut queue: Queue<usize> = Queue::new(2);
    queue.link(1);
    queue.link(2);
    queue.link(3);
    queue.push(4);
    queue.link(5);
    assert_eq!(queue.node_count(), 6);
    assert_eq!(queue.pop(), Some(1));
    assert_eq!(queue.pop(), Some(2));
    assert_eq!(queue.pop(), Some(3));
    assert_eq!(queue.pop(), Some(4));
    assert_eq!(queue.pop(), Some(5));
    assert_eq!(queue.pop(), None);
    assert!(queue.is_empty());
    queue.link(6);
    queue.push(7);
    assert_eq!(queue.node_count(), 6);
    assert_eq!(queue.pop(), Some(6));
    assert_eq!(queue.pop(), Some(7));
    assert_eq!(queue.pop(), None);
}

#[test]
fn queue_has_its_initial_capacity_in_nodes() {
    let mut queue: Queue<usize> = Queue::new(4);
    assert_eq!(queue.node_count(), 5);
    queue.push(1);
    queue.push(2);
    queue.push(3);
    queue.push(4);
    assert_eq!(queue.node_count(), 5);
    queue.push(5);
    assert_eq!(queue.node_count(), 6);
    assert_eq!(queue.pop(), Some(1));
    assert_eq!(queue.pop(), Some(2));
    assert_eq!(queue.node_count(), 6);
    let empty: Queue<usize> = Queue::new(0);
    assert_eq!(empty.node_count(), 1);
    assert!(empty.is_empty());
}

#[test]
fn queue_uses_retired_nodes_again() {
    let mut queue: Queue<usize> = Queue::new(0);
    assert_eq!(queue.node_count(), 1);
    queue.push(1);
    assert_eq!(queue.node_count(), 2);
    assert_eq!(queue.pop(), Some(1));
    assert_eq!(queue.node_count(), 2);
    let mut i = 0;
    while i < 100_000 {
        queue.push(i);
        assert_eq!(queue.pop(), Some(i));
        i += 1;
    }
    assert_eq!(queue.node_count(), 2);
    queue.push(1);
    queue.push(2);
    queue.push(3);
    assert_eq!(queue.node_count(), 4);
    assert_eq!(queue.pop(), Some(1));
    assert_eq!(queue.pop(), Some(2));
    assert_eq!(queue.pop(), Some(3));
    queue.push(4);
    queue.push(5);
    assert_eq!(queue.node_count(), 4);
    assert_eq!(queue.pop(), Some(4));
    assert_eq!(queue.pop(), Some(5));
    assert_eq!(queue.pop(), None);
}

#[test]
fn queue_extend_makes_as_many_pushes_allocate_nothing() {
    let mut queue: Queue<usize> = Queue::new(0);
    assert_eq!(queue.node_count(), 1);
    queue.extend(3);
    assert_eq!(queue.node_count(), 4);
    queue.push(1);
    assert_eq!(queue.node_count(), 4);
    queue.push(2);
    queue.push(3);
    assert_eq!(queue.node_count(), 4);
    queue.push(4);
    assert_eq!(queue.node_count(), 5);
    queue.extend(0);
    assert_eq!(queue.node_count(), 5);
    assert_eq!(queue.pop(), Some(1));
    assert_eq!(queue.pop(), Some(2));
    assert_eq!(queue.pop(), Some(3));
    assert_eq!(queue.pop(), Some(4));
    assert_eq!(queue.pop(), None);
    assert_eq!(queue.node_count(), 5);
}

#[test]
fn queue_compact_releases_the_retired_nodes() {
    let mut queue: Queue<usize> = Queue::new(0);
    queue.push(1);
    assert_eq!(queue.pop(), Some(1));
    assert_eq!(queue.node_count(), 2);
    queue.compact();
    assert_eq!(queue.node_count(), 1);
    queue.compact();
    assert_eq!(queue.node_count(), 1);
    assert!(queue.is_empty());
    queue.push(2);
    assert_eq!(queue.node_count(), 2);
    assert_eq!(queue.pop(), Some(2));
    assert_eq!(queue.pop(), None);
}

#[test]
fn queue_extend_and_compact_keep_the_values() {
    let mut queue: Queue<usize> = Queue::new(0);
    queue.push(1);
    queue.push(2);
    assert_eq!(queue.node_count(), 3);
    queue.extend(8);
    assert_eq!(queue.node_count(), 11);
    assert_eq!(queue.pop(), Some(1));
    assert_eq!(queue.node_count(), 11);
    queue.compact();
    assert_eq!(queue.node_count(), 2);
    queue.push(3);
    assert_eq!(queue.node_count(), 3);
    assert_eq!(queue.pop(), Some(2));
    assert_eq!(queue.pop(), Some(3));
    assert_eq!(queue.pop(), None);
    queue.compact();
    assert_eq!(queue.node_count(), 1);
    queue.link(4);
    queue.extend(2);
    queue.compact();
    assert_eq!(queue.node_count(), 2);
    assert_eq!(queue.pop(), Some(4));
    assert_eq!(queue.pop(), None);
}
