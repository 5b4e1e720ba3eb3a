use dsa::tree::BinaryNode;

#[test]
fn in_order() {
    let tree: BinaryNode<i32> = Default::default();
    let order = tree.in_order();
    assert_eq!(order, vec![&5, &7, &10, &15, &20, &29, &30, &45, &50, &100])
}

#[test]
fn post_order() {
    let tree: BinaryNode<i32> = Default::default();
    let order = tree.post_order();
    assert_eq!(order, vec![&7, &5, &15, &10, &29, &45, &30, &100, &50, &20])
}

#[test]
fn pre_order() {
    let tree: BinaryNode<i32> = Default::default();
    let order = tree.pre_order();
    assert_eq!(order, vec![&20, &10, &5, &7, &15, &50, &30, &29, &45, &100])
}

#[test]
fn bfs() {
    let tree: BinaryNode<i32> = Default::default();
    assert!(tree.breadth_first_search(&45));
    assert!(tree.breadth_first_search(&7));
    assert!(!tree.breadth_first_search(&69));
}

#[test]
fn dfs() {
    let tree: BinaryNode<i32> = Default::default();
    assert!(tree.depth_first_search(&45));
    assert!(tree.depth_first_search(&7));
    assert!(!tree.depth_first_search(&69));
}

#[test]
fn compare() {
    let tree: BinaryNode<i32> = Default::default();
    let tree2 = BinaryNode {
        value: &20,
        right: Some(Box::new(BinaryNode {
            value: &50,
            right: None,
            left: Some(Box::new(BinaryNode {
                value: &30,
                right: Some(Box::new(BinaryNode {
                    value: &45,
                    right: Some(Box::new(BinaryNode {
                        value: &49,
                        left: None,
                        right: None,
                    })),
                    left: None,
                })),
                left: Some(Box::new(BinaryNode {
                    value: &29,
                    right: None,
                    left: None,
                })),
            })),
        })),
        left: Some(Box::new(BinaryNode {
            value: &10,
            right: Some(Box::new(BinaryNode {
                value: &15,
                right: None,
                left: None,
            })),
            left: Some(Box::new(BinaryNode {
                value: &5,
                right: Some(Box::new(BinaryNode {
                    value: &7,
                    right: None,
                    left: None,
                })),
                left: None,
            })),
        })),
    };
    assert_eq!(tree, tree);
    assert_ne!(tree, tree2);
}

#[test]
fn bfs_finds_values_off_the_search_order() {
    let tree = BinaryNode {
        value: &1,
        left: Some(Box::new(BinaryNode { value: &9, left: None, right: None })),
        right: None,
    };
    assert!(tree.breadth_first_search(&9));
    assert!(tree.breadth_first_search(&1));
    assert!(!tree.breadth_first_search(&2));
}
