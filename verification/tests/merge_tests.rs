use rath::merge_k_sorted_list::{merge_k_lists, ListNode};

#[test]
fn test_empty_list() {
    assert_eq!(None, merge_k_lists(vec![]));
}

#[test]
fn test_singleton_list() {
    let l = Some(Box::new(ListNode::new(5)));
    let actual = merge_k_lists(vec![None, l]).unwrap();

    assert_eq!(5, actual.val);
    assert_eq!(None, actual.next);
}

#[test]
fn test_singleton_none_list() {
    let actual = merge_k_lists(vec![None]);

    assert_eq!(None, actual);
}

#[test]
fn test_valid_list() {
    let l1 = Some(Box::new(ListNode {
        val: 2,
        next: Some(Box::new(ListNode::new(5))),
    }));
    let l2 = Some(Box::new(ListNode {
        val: 3,
        next: Some(Box::new(ListNode::new(4))),
    }));

    let list = vec![None, l1, None, l2];
    let actual = merge_k_lists(list);

    let expected = Some(Box::new(ListNode {
        val: 2,
        next: Some(Box::new(ListNode {
            val: 3,
            next: Some(Box::new(ListNode {
                val: 4,
                next: Some(Box::new(ListNode { val: 5, next: None })),
            })),
        })),
    }));
    assert_eq!(expected, actual);
}

#[test]
fn merge_interleaves_duplicate_values() {
    let l1 = Some(Box::new(ListNode {
        val: 1,
        next: Some(Box::new(ListNode::new(3))),
    }));
    let l2 = Some(Box::new(ListNode {
        val: 1,
        next: Some(Box::new(ListNode::new(2))),
    }));

    let mut vals = Vec::new();
    let mut curr = merge_k_lists(vec![l1, l2]);
    while let Some(node) = curr {
        vals.push(node.val);
        curr = node.next;
    }
    assert_eq!(vals, vec![1, 1, 2, 3]);
}
