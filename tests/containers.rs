use dsa::queue::Queue;
use dsa::stack::Stack;

#[test]
fn stack_it_works() {
    let mut list = Stack::new();

    list.push(5);
    list.push(7);
    list.push(9);

    assert_eq!(list.pop(), Some(9));
    assert_eq!(list.length, 2);

    list.push(11);

    assert_eq!(list.pop(), Some(11));
    assert_eq!(list.pop(), Some(7));
    assert_eq!(list.peek(), Some(&5));
    assert_eq!(list.pop(), Some(5));
    assert_eq!(list.pop(), None);
    assert_eq!(list.length, 0);

    list.push(69);
    assert_eq!(list.peek(), Some(&69));
    assert_eq!(list.length, 1);
}

#[test]
fn queue_it_works() {
    let mut list = Queue::new();

    list.enqueue(5);
    list.enqueue(7);
    list.enqueue(9);

    assert_eq!(list.deque(), Some(5));
    assert_eq!(list.length, 2);

    list.enqueue(11);

    assert_eq!(list.deque(), Some(7));
    assert_eq!(list.deque(), Some(9));
    assert_eq!(list.peek(), Some(&11));
    assert_eq!(list.deque(), Some(11));
    assert_eq!(list.deque(), None);
    assert_eq!(list.length, 0);

    list.enqueue(69);
    assert_eq!(list.peek(), Some(&69));
    assert_eq!(list.length, 1);
}

#[test]
fn empty_stack_and_queue() {
    let mut s: Stack<u8> = Stack::new();
    assert_eq!(s.peek(), None);
    assert_eq!(s.pop(), None);
    assert_eq!(s.len(), 0);
    let mut q: Queue<u8> = Queue::new();
    assert_eq!(q.peek(), None);
    assert_eq!(q.deque(), None);
    assert_eq!(q.len(), 0);
}
