use binary_tree::list::DoublyLinkedList;
use binary_tree::queue::Queue;
use binary_tree::stack::Stack;

#[test]
fn stack_is_last_in_first_out() {
    let mut stack: Stack<i32> = Stack::new();
    stack.push(1);
    stack.push(2);
    stack.push(3);
    assert_eq!(stack.pop(), Some(3));
    assert_eq!(stack.pop(), Some(2));
    assert_eq!(stack.pop(), Some(1));
    assert_eq!(stack.pop(), None);
}

#[test]
fn queue_is_first_in_first_out() {
    let mut queue: Queue<i32> = Queue::new();
    queue.enqueue(1);
    queue.enqueue(2);
    queue.enqueue(3);
    assert_eq!(queue.dequeue(), Some(1));
    assert_eq!(queue.dequeue(), Some(2));
    queue.enqueue(4);
    assert_eq!(queue.dequeue(), Some(3));
    assert_eq!(queue.dequeue(), Some(4));
    assert_eq!(queue.dequeue(), None);
}

#[test]
fn list_pushes_and_pops_at_both_ends() {
    let mut list: DoublyLinkedList<i32> = DoublyLinkedList::new();
    list.push_back(1);
    list.push_back(2);
    list.push_back(3);
    list.push_front(4);
    list.push_front(5);
    // Front to back: 5, 4, 1, 2, 3.
    assert_eq!(list.pop_front(), Some(5));
    assert_eq!(list.pop_back(), Some(3));
    assert_eq!(list.pop_front(), Some(4));
    assert_eq!(list.pop_front(), Some(1));
    assert_eq!(list.pop_back(), Some(2));
    assert_eq!(list.pop_back(), None);
    assert_eq!(list.pop_front(), None);
}

#[test]
fn containers_carry_non_integer_payloads() {
    let mut stack: Stack<String> = Stack::new();
    stack.push(String::from("a"));
    stack.push(String::from("b"));
    assert_eq!(stack.pop(), Some(String::from("b")));

    let mut queue: Queue<(u8, bool)> = Queue::new();
    queue.enqueue((1, true));
    queue.enqueue((2, false));
    assert_eq!(queue.dequeue(), Some((1, true)));
}
