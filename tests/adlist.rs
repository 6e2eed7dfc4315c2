use rcli::adlist::Stack;

#[test]
pub fn test_adlist() {
    let stack = Stack::new().push(3).push(2).push(1);

    let mut cur = stack;
    while !cur.is_empty() {
        let (head, tail) = cur.pop().expect("should have head");
        println!("pop: {}", head);
        println!("stack: {:?}", tail);
        cur = tail;
    }
}

#[test]
fn stack_pops_in_reverse_push_order() {
    let stack = Stack::new().push("a").push("b").push("c");
    assert_eq!(stack.len(), 3);
    assert!(!stack.is_empty());
    let (top, rest) = stack.pop().unwrap();
    assert_eq!(top, "c");
    assert_eq!(rest.len(), 2);
    let (top, rest) = rest.pop().unwrap();
    assert_eq!(top, "b");
    let (top, rest) = rest.pop().unwrap();
    assert_eq!(top, "a");
    assert!(rest.is_empty());
    assert_eq!(rest.len(), 0);
    assert!(rest.pop().is_none());
}
