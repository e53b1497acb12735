use ringo::art::Node4;

#[test]
fn it_works() {
    let node = Node4::new();
    assert_eq!(node.len(), 0);
    assert!(!node.is_full());
}

#[test]
fn test_mut() {
    let var = Some(Box::new(Node4::new()));
    assert!(var.is_some());
}

#[test]
fn test_node4_add_child() {
    let mut node4 = Node4::new();

    for i in 1..5u8 {
        node4.add_child(i, Some(Box::new(Node4::new())));
        let mut max_key = 0;
        for j in 0..i as usize {
            assert!(node4.key_at(j) > max_key);
            assert!(node4.has_child_at(j));
            max_key = node4.key_at(j);
        }
        assert_eq!(node4.len(), i as usize);
    }
    assert!(node4.is_full());
}

#[test]
fn node4_keeps_keys_sorted_whatever_the_order() {
    let mut node4 = Node4::new();
    for b in [200u8, 3, 77, 10] {
        node4.add_child(b, None);
    }
    let keys: Vec<u8> = (0..node4.len()).map(|j| node4.key_at(j)).collect();
    assert_eq!(keys, vec![3, 10, 77, 200]);
    assert_eq!(node4.find_child(77), Some(2));
    assert_eq!(node4.find_child(78), None);
    assert!(!node4.has_child_at(0));
    assert!(!node4.is_leaf());
    assert_eq!(node4.prefix_len(), 0);
}
