use data_struct::LinkedStack;
use std::time::Instant;

#[derive(Debug, PartialEq, Clone)]
struct TestStruct {
    id: u32,
    name: String,
}

#[test]
fn linked_stack_test_new_stack() {
    let stack: LinkedStack<i32> = LinkedStack::new();
    assert_eq!(stack.len, 0);
}

#[test]
fn test_push_and_pop() {
    let mut stack = LinkedStack::new();

    stack.push(1);
    assert_eq!(stack.len, 1);

    stack.push(2);
    assert_eq!(stack.len, 2);

    stack.push(3);
    assert_eq!(stack.len, 3);

    assert_eq!(stack.pop().unwrap(), 3);
    assert_eq!(stack.len, 2);

    assert_eq!(stack.pop().unwrap(), 2);
    assert_eq!(stack.len, 1);

    assert_eq!(stack.pop().unwrap(), 1);
    assert_eq!(stack.len, 0);
}

#[test]
fn linked_stack_test_get_top_element() {
    let mut stack = LinkedStack::new();

    assert!(stack.get().is_err());

    stack.push(10);
    assert_eq!(*stack.get().unwrap(), 10);
    assert_eq!(stack.len, 1);

    stack.push(20);
    assert_eq!(*stack.get().unwrap(), 20);
    assert_eq!(stack.len, 2);

    stack.pop().unwrap();
    assert_eq!(*stack.get().unwrap(), 10);
    assert_eq!(stack.len, 1);
}

#[test]
fn test_empty_stack_operations() {
    let mut stack: LinkedStack<i32> = LinkedStack::new();

    assert!(stack.pop().is_err());
    assert_eq!(stack.pop().unwrap_err(), "Stack is empty!");

    assert!(stack.get().is_err());
    assert_eq!(stack.get().unwrap_err(), "Stack is empty!");
}

#[test]
fn test_single_element_stack() {
    let mut stack = LinkedStack::new();

    stack.push(42);
    assert_eq!(stack.len, 1);
    assert_eq!(*stack.get().unwrap(), 42);

    let popped = stack.pop().unwrap();
    assert_eq!(popped, 42);
    assert_eq!(stack.len, 0);

    assert!(stack.pop().is_err());
    assert!(stack.get().is_err());
}

#[test]
fn test_large_number_of_elements() {
    let mut stack = LinkedStack::new();
    const COUNT: usize = 1000;

    for i in 0..COUNT {
        stack.push(i as i32);
    }
    assert_eq!(stack.len, COUNT);
    assert_eq!(*stack.get().unwrap(), (COUNT - 1) as i32);

    for i in (0..COUNT).rev() {
        assert_eq!(stack.pop().unwrap(), i as i32);
    }
    assert_eq!(stack.len, 0);
    assert!(stack.pop().is_err());
}

#[test]
fn test_string_elements() {
    let mut stack = LinkedStack::new();

    stack.push("Hello".to_string());
    stack.push("World".to_string());

    assert_eq!(stack.get().unwrap(), "World");
    assert_eq!(stack.pop().unwrap(), "World");
    assert_eq!(stack.pop().unwrap(), "Hello");
}

#[test]
fn test_complex_struct_elements() {
    let mut stack = LinkedStack::new();

    let s1 = TestStruct { id: 1, name: "First".to_string() };
    let s2 = TestStruct { id: 2, name: "Second".to_string() };

    stack.push(s1.clone());
    stack.push(s2.clone());

    assert_eq!(stack.get().unwrap(), &s2);
    assert_eq!(stack.pop().unwrap(), s2);
    assert_eq!(stack.pop().unwrap(), s1);
}

#[test]
fn test_option_elements() {
    let mut stack = LinkedStack::new();

    stack.push(Some(1));
    stack.push(None);
    stack.push(Some(3));

    assert_eq!(stack.get().unwrap(), &Some(3));
    assert_eq!(stack.pop().unwrap(), Some(3));
    assert_eq!(stack.pop().unwrap(), None);
    assert_eq!(stack.pop().unwrap(), Some(1));
}

#[test]
fn test_drop_semantics() {
    let mut stack = LinkedStack::new();

    stack.push(vec![1, 2, 3]);
    stack.push(vec![4, 5]);

    let vec1 = stack.pop().unwrap();
    assert_eq!(vec1, vec![4, 5]);

    let vec2 = stack.pop().unwrap();
    assert_eq!(vec2, vec![1, 2, 3]);

    assert_eq!(stack.len, 0);
    assert!(stack.pop().is_err());
}

#[test]
fn test_multiple_operations_memory_safety() {
    let mut stack = LinkedStack::new();

    for i in 0..100 {
        stack.push(i);
        if i % 3 == 0 {
            let _ = stack.pop();
        }
    }

    assert!(stack.len > 0);

    while stack.pop().is_ok() {}
    assert_eq!(stack.len, 0);
}

#[test]
fn test_performance_basic() {
    let mut stack = LinkedStack::new();
    const COUNT: usize = 10000;

    let start = Instant::now();

    for i in 0..COUNT {
        stack.push(i);
    }

    for _ in 0..COUNT {
        let _ = stack.pop();
    }

    let duration = start.elapsed();
    println!("Performance test took: {:?}", duration);

    assert_eq!(stack.len, 0);
}
