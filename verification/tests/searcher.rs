use permissive_search::lookalikes::{NoLookalikes, QwertyMisclicks, ScriptVariants};
use permissive_search::{SearchTree, Searcher};

fn cat_tree() -> SearchTree {
    let mut tree = SearchTree::default();
    tree.push("cat", 0);
    tree.push("car", 1);
    tree.push("cats", 2);
    tree
}

#[test]
fn round_trip_membership() {
    // every inserted key, typed exactly, yields its own index
    let tree = cat_tree();
    for (key, index) in [("cat", 0usize), ("car", 1), ("cats", 2)] {
        let mut searcher = Searcher::new(&tree, NoLookalikes);
        for ch in key.chars() {
            searcher.push(ch);
        }
        assert!(searcher.for_each_candidate().contains(&index));
    }
}

#[test]
fn concrete_scenario() {
    let tree = cat_tree();
    let mut searcher = Searcher::new(&tree, NoLookalikes);
    searcher.push('c');
    searcher.push('a');
    // the frontier sits at the shared "ca" node: every stored key is still
    // reachable below it, in traversal order
    let after_ca = searcher.for_each_candidate();
    assert_eq!(after_ca, vec![1, 0, 2]);

    searcher.push('t');
    assert_eq!(searcher.for_each_candidate(), vec![0, 2]);

    // under the adjacency table, where 'z' is adjacent to neither 'r' nor
    // 't', the keystroke is unmatched noise: the frontier and candidates
    // stay, yet the input grows
    let mut searcher = Searcher::new(&tree, QwertyMisclicks);
    searcher.push('c');
    searcher.push('a');
    assert_eq!(searcher.for_each_candidate(), after_ca);
    searcher.push('z');
    assert_eq!(searcher.for_each_candidate(), after_ca);
    assert_eq!(searcher.input(), &vec!['c', 'a', 'z']);
}

#[test]
fn stickiness_keeps_frontier_and_records_input() {
    let tree = cat_tree();
    let mut searcher = Searcher::new(&tree, NoLookalikes);
    searcher.push('c');
    let before = searcher.for_each_candidate();
    searcher.push('q');
    assert_eq!(searcher.for_each_candidate(), before);
    assert_eq!(searcher.input(), &vec!['c', 'q']);
}

#[test]
fn pop_restores_the_frontier_before_the_push() {
    let tree = cat_tree();
    let mut searcher = Searcher::new(&tree, QwertyMisclicks);
    searcher.push('c');
    searcher.push('a');
    let before = searcher.for_each_candidate();

    // a matching push, undone
    searcher.push('t');
    searcher.pop();
    assert_eq!(searcher.for_each_candidate(), before);
    assert_eq!(searcher.input(), &vec!['c', 'a']);

    // an unmatched (sticky) push, undone
    searcher.push('q');
    searcher.pop();
    assert_eq!(searcher.for_each_candidate(), before);
    assert_eq!(searcher.input(), &vec!['c', 'a']);
}

#[test]
fn pop_on_empty_input_is_a_no_op() {
    let tree = cat_tree();
    let mut searcher = Searcher::new(&tree, NoLookalikes);
    let at_root = searcher.for_each_candidate();
    searcher.pop();
    assert!(searcher.input().is_empty());
    assert_eq!(searcher.for_each_candidate(), at_root);
}

#[test]
fn reset_then_replay_reproduces_the_frontier() {
    let tree = cat_tree();
    let mut searcher = Searcher::new(&tree, QwertyMisclicks);
    let typed: Vec<char> = vec!['c', 'a', 't'];
    searcher.extend(&typed);
    let before = searcher.for_each_candidate();

    searcher.reset();
    assert!(searcher.input().is_empty());
    assert_eq!(searcher.for_each_candidate(), vec![1, 0, 2]);

    searcher.extend(&typed);
    assert_eq!(searcher.for_each_candidate(), before);
    assert_eq!(searcher.input(), &typed);
}

#[test]
fn candidates_shrink_to_a_subset_as_the_prefix_grows() {
    let tree = cat_tree();
    let mut searcher = Searcher::new(&tree, NoLookalikes);
    let mut previous = searcher.for_each_candidate();
    for ch in "cats".chars() {
        searcher.push(ch);
        let current = searcher.for_each_candidate();
        assert!(current.iter().all(|i| previous.contains(i)));
        previous = current;
    }
    assert_eq!(previous, vec![2]);
}

#[test]
fn searching_an_empty_tree_stays_at_the_root() {
    let tree = SearchTree::default();
    let mut searcher = Searcher::new(&tree, NoLookalikes);
    searcher.push('x');
    assert_eq!(searcher.for_each_candidate(), Vec::<usize>::new());
    assert_eq!(searcher.input(), &vec!['x']);
}

#[test]
fn misclicked_characters_still_reach_keys() {
    // typing 'w' for 'q': 'q' is adjacent to 'w' on the layout
    let mut tree = SearchTree::default();
    tree.push("quo", 0);
    let mut searcher = Searcher::new(&tree, QwertyMisclicks);
    searcher.push('w');
    searcher.push('u');
    searcher.push('o');
    assert_eq!(searcher.for_each_candidate(), vec![0]);
}

#[test]
fn duplicate_frontier_entries_emit_duplicate_candidates() {
    // the variant table lists the Greek character twice, so the same node
    // enters the frontier twice and its terminal is emitted twice
    let mut tree = SearchTree::default();
    tree.push("\u{390}", 0);
    let mut searcher = Searcher::new(&tree, ScriptVariants);
    searcher.push('\u{3b9}');
    assert_eq!(searcher.for_each_candidate(), vec![0, 0]);
}

#[test]
fn root_returns_the_searched_tree() {
    let tree = cat_tree();
    let searcher = Searcher::new(&tree, NoLookalikes);
    assert_eq!(searcher.root().for_each(), vec![1, 0, 2]);
}
