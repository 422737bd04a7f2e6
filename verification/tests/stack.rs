//! Tests of the priority stack and its two component containers.

use cursor_stack::index::PriorityIndex;
use cursor_stack::registry::HandleRegistry;
use cursor_stack::stack::PriorityStack;

#[test]
fn peek_empty_stack_is_none() {
    let stack: PriorityStack<u64> = PriorityStack::new();
    assert!(stack.peek_top().is_none());
}

#[test]
fn insert_then_peek() {
    let mut stack: PriorityStack<u64> = PriorityStack::new();
    stack.insert_prioritized(0, 7);
    assert_eq!(stack.peek_top(), Some(&7));
}

#[test]
fn top_invariant_through_inserts_and_removes() {
    // P-style walk: after each operation the top is the maximum-priority
    // value, ties to the most recent insertion.
    let mut stack: PriorityStack<u64> = PriorityStack::new();
    let _a = stack.insert_prioritized(0, 10);
    assert_eq!(stack.peek_top(), Some(&10));
    let b = stack.insert_prioritized(2, 20);
    assert_eq!(stack.peek_top(), Some(&20));
    let c = stack.insert_prioritized(1, 30);
    assert_eq!(stack.peek_top(), Some(&20));
    assert_eq!(stack.remove(b), Some(20));
    assert_eq!(stack.peek_top(), Some(&30));
    let d = stack.insert_prioritized(1, 40);
    assert_eq!(stack.peek_top(), Some(&40)); // tie at priority 1: latest wins
    assert_eq!(stack.remove(d), Some(40));
    assert_eq!(stack.peek_top(), Some(&30));
    assert_eq!(stack.remove(c), Some(30));
    assert_eq!(stack.peek_top(), Some(&10));
}

#[test]
fn remove_twice_yields_value_then_nothing() {
    // Idempotent removal: the second removal is a silent no-op.
    let mut stack: PriorityStack<u64> = PriorityStack::new();
    let keep = stack.insert_prioritized(0, 1);
    let h = stack.insert_prioritized(5, 2);
    assert_eq!(stack.remove(h), Some(2));
    assert_eq!(stack.remove(h), None);
    assert_eq!(stack.peek_top(), Some(&1));
    assert_eq!(stack.remove(keep), Some(1));
    assert_eq!(stack.remove(keep), None);
    assert!(stack.peek_top().is_none());
}

#[test]
fn tie_break_toward_most_recent() {
    let mut stack: PriorityStack<u64> = PriorityStack::new();
    let _first = stack.insert_prioritized(3, 100);
    let second = stack.insert_prioritized(3, 200);
    assert_eq!(stack.peek_top(), Some(&200));
    stack.remove(second);
    assert_eq!(stack.peek_top(), Some(&100));
}

#[test]
fn handles_are_not_reused() {
    let mut stack: PriorityStack<u64> = PriorityStack::new();
    let h = stack.insert_prioritized(0, 1);
    assert_eq!(stack.remove(h), Some(1));
    let _h2 = stack.insert_prioritized(0, 2);
    // The old handle stays dead even after a new insertion.
    assert_eq!(stack.remove(h), None);
    assert_eq!(stack.peek_top(), Some(&2));
}

#[test]
fn registry_insert_get_remove() {
    let mut reg: HandleRegistry<u64> = HandleRegistry::new();
    let a = reg.insert(11);
    let b = reg.insert(22);
    assert_eq!(reg.get(a), Some(&11));
    assert_eq!(reg.get(b), Some(&22));
    assert_eq!(reg.remove(a), Some(11));
    assert_eq!(reg.get(a), None);
    assert_eq!(reg.remove(a), None);
    assert_eq!(reg.get(b), Some(&22));
}

#[test]
fn index_orders_by_priority_then_recency() {
    let mut reg: HandleRegistry<u64> = HandleRegistry::new();
    let mut idx = PriorityIndex::new();
    assert_eq!(idx.last(), None);
    let a = reg.insert(1);
    let b = reg.insert(2);
    let c = reg.insert(3);
    idx.insert(a, 1);
    idx.insert(b, 0);
    assert_eq!(idx.last(), Some(a)); // priority 1 beats priority 0
    idx.insert(c, 1);
    assert_eq!(idx.last(), Some(c)); // tie at priority 1: latest wins
    idx.remove(c);
    assert_eq!(idx.last(), Some(a));
    idx.remove(c); // absent: silent no-op
    assert_eq!(idx.last(), Some(a));
    idx.remove(a);
    assert_eq!(idx.last(), Some(b));
    idx.remove(b);
    assert_eq!(idx.last(), None);
}
