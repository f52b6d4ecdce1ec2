use data_struct::{fibonacci, SeqList, SqDoubleStack, StackNum};

#[test]
fn seq_list_push_insert_get_remove() {
    let mut list: SeqList<i32, 4> = SeqList::new();
    assert!(list.is_empty());
    assert_eq!(list.capacity(), 4);
    assert_eq!(list.insert(10, 1), Ok(()));
    assert_eq!(list.push(30), Ok(()));
    assert_eq!(list.insert(20, 2), Ok(()));
    assert_eq!(list.len(), 3);
    assert_eq!(list.get(1), Some(&10));
    assert_eq!(list.get(2), Some(&20));
    assert_eq!(list.get(3), Some(&30));
    assert_eq!(list.get(0), None);
    assert_eq!(list.get(4), None);
    assert_eq!(list.insert(5, 5), Err("Out of List!"));
    assert_eq!(list.insert(5, 0), Err("Out of List!"));
    assert_eq!(list.push(40), Ok(()));
    assert!(list.is_full());
    assert_eq!(list.push(50), Err("List is full!"));
    assert_eq!(list.insert(50, 1), Err("List is full"));
    assert_eq!(list.remove(2), Ok(Some(20)));
    assert_eq!(list.get(2), Some(&30));
    assert_eq!(list.remove(0), Err("Out of List"));
    assert_eq!(list.remove(4), Err("Out of List"));
    assert_eq!(list.len(), 3);
}

#[test]
fn seq_list_remove_on_empty() {
    let mut list: SeqList<i32, 2> = SeqList::new();
    assert_eq!(list.remove(1), Err("List is empty"));
    assert_eq!(list.remove(0), Err("Out of List"));
}

#[test]
fn double_stack_two_ends() {
    let mut stacks: SqDoubleStack<i32, 6> = SqDoubleStack::new();
    assert_eq!(stacks.get(StackNum::First), Err("Left stack is empty!"));
    assert_eq!(stacks.get(StackNum::Second), Err("Right stack is empty!"));
    assert_eq!(stacks.push(1, StackNum::First), Ok(()));
    assert_eq!(stacks.push(2, StackNum::First), Ok(()));
    assert_eq!(stacks.push(9, StackNum::Second), Ok(()));
    assert_eq!(stacks.push(8, StackNum::Second), Ok(()));
    assert_eq!(stacks.push(7, StackNum::Second), Err("stack is full!"));
    assert_eq!(stacks.get(StackNum::First), Ok(&2));
    assert_eq!(stacks.get(StackNum::Second), Ok(&8));
    assert_eq!(stacks.pop(StackNum::First), Ok(2));
    assert_eq!(stacks.pop(StackNum::First), Ok(1));
    assert_eq!(stacks.pop(StackNum::First), Err("Left stack is empty!"));
    assert_eq!(stacks.pop(StackNum::Second), Ok(8));
    assert_eq!(stacks.pop(StackNum::Second), Ok(9));
    assert_eq!(stacks.pop(StackNum::Second), Err("Right stack is empty!"));
}

#[test]
fn double_stack_smallest_buffer_is_full_at_once() {
    let mut stacks: SqDoubleStack<i32, 2> = SqDoubleStack::new();
    assert_eq!(stacks.push(1, StackNum::First), Err("stack is full!"));
    assert_eq!(stacks.pop(StackNum::Second), Err("Right stack is empty!"));
}

#[test]
fn fibonacci_values() {
    assert_eq!(fibonacci(0), Ok(0));
    assert_eq!(fibonacci(1), Ok(1));
    assert_eq!(fibonacci(2), Ok(1));
    assert_eq!(fibonacci(13), Ok(233));
    assert_eq!(fibonacci(49), Ok(7778742049));
    assert!(fibonacci(50).is_err());
    assert!(fibonacci(1000).is_err());
}
