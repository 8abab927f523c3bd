use tasks_rust::workers::TaskStack;

#[test]
fn takes_the_task_posted_last() {
    let mut stack: TaskStack<u32> = TaskStack::new();
    assert_eq!(stack.take(), None);
    stack.post(1);
    stack.post(2);
    assert_eq!(stack.len(), 2);
    assert_eq!(stack.take(), Some(2));
    stack.post(3);
    assert_eq!(stack.take(), Some(3));
    assert_eq!(stack.take(), Some(1));
    assert_eq!(stack.take(), None);
    assert_eq!(stack.len(), 0);
}

#[test]
fn second_posted_is_taken_first() {
    let mut stack: TaskStack<&str> = TaskStack::new();
    stack.post("f");
    stack.post("g");
    assert_eq!(stack.take(), Some("g"));
    assert_eq!(stack.take(), Some("f"));
    assert_eq!(stack.take(), None);
}
