use permissive_search::SearchTree;

#[test]
fn empty_tree_has_no_terminals() {
    let tree = SearchTree::default();
    assert_eq!(tree.for_each(), Vec::<usize>::new());
}

#[test]
fn traversal_is_preorder_in_character_order() {
    let mut tree = SearchTree::default();
    tree.push("cat", 0);
    tree.push("car", 1);
    tree.push("cats", 2);
    // 'r' sorts before 't'; "cat" ends before its extension "cats".
    assert_eq!(tree.for_each(), vec![1, 0, 2]);
}

#[test]
fn duplicate_key_last_write_wins() {
    let mut tree = SearchTree::default();
    tree.push("cat", 0);
    tree.push("cat", 7);
    assert_eq!(tree.for_each(), vec![7]);
}

#[test]
fn empty_key_terminates_at_the_root() {
    let mut tree = SearchTree::default();
    tree.push("", 5);
    tree.push("a", 1);
    assert_eq!(tree.for_each(), vec![5, 1]);
}

#[test]
fn get_follows_single_characters() {
    let mut tree = SearchTree::default();
    tree.push("cat", 0);
    tree.push("car", 1);
    let c = tree.get('c').expect("child for 'c'");
    let a = c.get('a').expect("child for 'a'");
    assert!(a.get('t').is_some());
    assert!(a.get('r').is_some());
    assert!(a.get('z').is_none());
    assert!(tree.get('x').is_none());
    // probe past the largest sibling: the short-circuit path
    assert!(tree.get('~').is_none());
    // probe before the smallest sibling
    assert!(tree.get('a').is_none());
}

#[test]
fn insertion_order_does_not_matter_without_duplicates() {
    let mut forward = SearchTree::default();
    forward.push("cat", 0);
    forward.push("car", 1);
    forward.push("cats", 2);
    let mut backward = SearchTree::default();
    backward.push("cats", 2);
    backward.push("car", 1);
    backward.push("cat", 0);
    assert_eq!(forward.for_each(), backward.for_each());
}

#[test]
fn from_pairs_inserts_in_order() {
    let pairs = vec![
        (0usize, String::from("cat")),
        (1usize, String::from("car")),
        (2usize, String::from("cats")),
    ];
    let tree = SearchTree::from_pairs(&pairs);
    assert_eq!(tree.for_each(), vec![1, 0, 2]);

    let duplicated = vec![
        (3usize, String::from("dog")),
        (4usize, String::from("dog")),
    ];
    let tree = SearchTree::from_pairs(&duplicated);
    assert_eq!(tree.for_each(), vec![4]);
}

#[test]
fn keys_sharing_a_prefix_share_its_chain() {
    let mut tree = SearchTree::default();
    tree.push("cat", 0);
    tree.push("cats", 2);
    // one chain: the 'c' child's subtree carries both terminals
    let c = tree.get('c').expect("child for 'c'");
    assert_eq!(c.for_each(), vec![0, 2]);
}
