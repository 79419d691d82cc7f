use libfqcat::tree::{build_merge_tree, plan_level, MergePair, MergeTree};

fn file_names(count: usize) -> Vec<String> {
    (0..count).map(|i| format!("f{}", i)).collect()
}

fn pairs_as_tuples(pairs: &Vec<MergePair>) -> Vec<(String, String)> {
    pairs.iter().map(|p| (p.left_file().clone(), p.right_file().clone())).collect()
}

fn levels_of(tree: &MergeTree) -> Vec<&MergeTree> {
    let mut levels = vec![tree];
    let mut node = tree;
    while let Some(child) = node.subtree() {
        levels.push(child);
        node = child;
    }
    levels
}

fn ceil_log2(count: usize) -> usize {
    let mut levels = 0;
    let mut reach = 1usize;
    while reach < count {
        reach *= 2;
        levels += 1;
    }
    levels
}

#[test]
fn a_pair_keeps_its_two_names() {
    let pair = MergePair::new("left".to_string(), "right".to_string());
    assert_eq!(pair.left_file(), "left");
    assert_eq!(pair.right_file(), "right");
}

#[test]
fn an_empty_list_has_no_pairs_and_no_survivors() {
    let (pairs, survivors) = plan_level(&Vec::new());
    assert!(pairs.is_empty());
    assert!(survivors.is_empty());
}

#[test]
fn a_single_file_is_carried_over() {
    let (pairs, survivors) = plan_level(&file_names(1));
    assert!(pairs.is_empty());
    assert_eq!(survivors, vec!["f0".to_string()]);
}

#[test]
fn an_even_list_is_paired_completely() {
    let (pairs, survivors) = plan_level(&file_names(4));
    assert_eq!(
        pairs_as_tuples(&pairs),
        vec![("f0".to_string(), "f1".to_string()), ("f2".to_string(), "f3".to_string())]
    );
    assert_eq!(survivors, vec!["f0".to_string(), "f2".to_string()]);
}

#[test]
fn an_odd_list_carries_its_last_file() {
    let (pairs, survivors) = plan_level(&file_names(5));
    assert_eq!(
        pairs_as_tuples(&pairs),
        vec![("f0".to_string(), "f1".to_string()), ("f2".to_string(), "f3".to_string())]
    );
    assert_eq!(survivors, vec!["f0".to_string(), "f2".to_string(), "f4".to_string()]);
}

#[test]
fn pairs_and_survivors_are_counted() {
    for count in 0..40usize {
        let (pairs, survivors) = plan_level(&file_names(count));
        assert_eq!(pairs.len(), count / 2);
        assert_eq!(survivors.len(), (count + 1) / 2);
    }
}

#[test]
fn planning_is_by_position_alone() {
    let names = vec!["same".to_string(), "same".to_string(), "same".to_string()];
    let (pairs, survivors) = plan_level(&names);
    assert_eq!(pairs_as_tuples(&pairs), vec![("same".to_string(), "same".to_string())]);
    assert_eq!(survivors, vec!["same".to_string(), "same".to_string()]);
}

#[test]
fn three_files_take_two_levels() {
    let names = vec!["a.fastq.gz".to_string(), "b.fastq.gz".to_string(), "c.fastq.gz".to_string()];
    let tree = build_merge_tree(&names, None).unwrap();
    assert_eq!(tree.level(), 1);
    assert_eq!(
        pairs_as_tuples(tree.merge_pairs()),
        vec![("a.fastq.gz".to_string(), "b.fastq.gz".to_string())]
    );
    assert_eq!(tree.post_merge_files(), &vec!["a.fastq.gz".to_string(), "c.fastq.gz".to_string()]);
    let second = tree.subtree().unwrap();
    assert_eq!(second.level(), 2);
    assert_eq!(
        pairs_as_tuples(second.merge_pairs()),
        vec![("a.fastq.gz".to_string(), "c.fastq.gz".to_string())]
    );
    assert_eq!(second.post_merge_files(), &vec!["a.fastq.gz".to_string()]);
    assert!(second.subtree().is_none());
}

#[test]
fn one_file_gives_one_level_without_pairs() {
    let tree = build_merge_tree(&file_names(1), None).unwrap();
    assert_eq!(tree.level(), 1);
    assert!(tree.merge_pairs().is_empty());
    assert_eq!(tree.post_merge_files(), &vec!["f0".to_string()]);
    assert!(tree.subtree().is_none());
}

#[test]
fn no_file_gives_one_empty_level() {
    let tree = build_merge_tree(&Vec::new(), None).unwrap();
    assert_eq!(tree.level(), 1);
    assert!(tree.merge_pairs().is_empty());
    assert!(tree.post_merge_files().is_empty());
    assert!(tree.subtree().is_none());
}

#[test]
fn levels_are_numbered_from_the_given_level() {
    let tree = build_merge_tree(&file_names(5), Some(&7)).unwrap();
    let numbers: Vec<usize> = levels_of(&tree).iter().map(|t| t.level()).collect();
    assert_eq!(numbers, vec![8, 9, 10]);
}

#[test]
fn the_tree_is_as_deep_as_the_logarithm() {
    for count in 2..200usize {
        let tree = build_merge_tree(&file_names(count), None).unwrap();
        assert_eq!(levels_of(&tree).len(), ceil_log2(count));
    }
}

#[test]
fn every_level_plans_the_survivors_of_the_level_before() {
    let tree = build_merge_tree(&file_names(11), None).unwrap();
    let levels = levels_of(&tree);
    let mut input = file_names(11);
    for (index, level) in levels.iter().enumerate() {
        let (pairs, survivors) = plan_level(&input);
        assert_eq!(level.level(), index + 1);
        assert_eq!(pairs_as_tuples(level.merge_pairs()), pairs_as_tuples(&pairs));
        assert_eq!(level.post_merge_files(), &survivors);
        assert_eq!(level.subtree().is_none(), survivors.len() <= 1);
        input = survivors;
    }
    assert_eq!(input, vec!["f0".to_string()]);
}

#[test]
fn the_level_before_the_last_machine_number_is_accepted() {
    let previous = usize::MAX - 1;
    let tree = build_merge_tree(&file_names(2), Some(&previous)).unwrap();
    assert_eq!(tree.level(), usize::MAX);
}

#[test]
fn the_first_level_pairs_half_and_leaves_half() {
    for count in 1..60usize {
        let tree = build_merge_tree(&file_names(count), Some(&3)).unwrap();
        assert_eq!(tree.level(), 4);
        assert_eq!(tree.merge_pairs().len(), count / 2);
        assert_eq!(tree.post_merge_files().len(), (count + 1) / 2);
    }
}
