use dir_compare::path::RelPath;
use dir_compare::path_set::PathSet;

fn path(names: &[&str]) -> RelPath {
    RelPath::new(names.iter().map(|n| n.as_bytes().to_vec()).collect())
}

fn set_of(paths: &[&[&str]]) -> PathSet {
    let mut set = PathSet::new();
    for p in paths {
        set.insert(path(p));
    }
    set
}

#[test]
fn new_set_is_empty() {
    let set = PathSet::new();
    assert!(set.is_empty());
    assert_eq!(set.len(), 0);
    assert!(!set.contains(&path(&["a"])));
    assert!(set.into_sorted().is_empty());
}

#[test]
fn insert_says_whether_the_path_was_new() {
    let mut set = PathSet::new();
    assert!(set.insert(path(&["a"])));
    assert!(!set.insert(path(&["a"])));
    assert!(set.insert(path(&["a", "b"])));
    assert_eq!(set.len(), 2);
    assert!(!set.is_empty());
}

#[test]
fn contains_finds_exactly_the_members() {
    let set = set_of(&[&["m"], &["a", "x"], &["z"], &["a"]]);
    assert!(set.contains(&path(&["m"])));
    assert!(set.contains(&path(&["a", "x"])));
    assert!(set.contains(&path(&["z"])));
    assert!(set.contains(&path(&["a"])));
    assert!(!set.contains(&path(&["a", "y"])));
    assert!(!set.contains(&path(&["x"])));
    assert!(!set.contains(&RelPath::root()));
}

#[test]
fn members_come_out_sorted_whatever_the_insertion_order() {
    let forward = set_of(&[&["a"], &["b"], &["c"], &["d"]]);
    let backward = set_of(&[&["d"], &["c"], &["b"], &["a"]]);
    let mixed = set_of(&[&["c"], &["a"], &["d"], &["b"], &["a"]]);
    let expected = vec![path(&["a"]), path(&["b"]), path(&["c"]), path(&["d"])];
    assert_eq!(forward.into_sorted(), expected);
    assert_eq!(backward.into_sorted(), expected);
    assert_eq!(mixed.into_sorted(), expected);
}

#[test]
fn get_walks_the_members_in_order() {
    let set = set_of(&[&["b"], &["a", "z"], &["a"]]);
    assert_eq!(set.len(), 3);
    assert_eq!(set.get(0), Some(&path(&["a"])));
    assert_eq!(set.get(1), Some(&path(&["a", "z"])));
    assert_eq!(set.get(2), Some(&path(&["b"])));
    assert_eq!(set.get(3), None);
}

#[test]
fn difference_lists_what_the_other_lacks() {
    let a = set_of(&[&["notes.txt"], &["readme.txt"], &["src", "main.rs"]]);
    let b = set_of(&[&["old.txt"], &["readme.txt"]]);
    assert_eq!(a.difference(&b), vec![path(&["notes.txt"]), path(&["src", "main.rs"])]);
    assert_eq!(b.difference(&a), vec![path(&["old.txt"])]);
    assert!(a.difference(&a).is_empty());
    assert_eq!(PathSet::new().difference(&a), Vec::<RelPath>::new());
}

#[test]
fn intersection_lists_what_both_hold() {
    let a = set_of(&[&["notes.txt"], &["readme.txt"], &["x"]]);
    let b = set_of(&[&["x"], &["old.txt"], &["readme.txt"]]);
    assert_eq!(a.intersection(&b), vec![path(&["readme.txt"]), path(&["x"])]);
    assert_eq!(b.intersection(&a), vec![path(&["readme.txt"]), path(&["x"])]);
    assert!(a.intersection(&PathSet::new()).is_empty());
}

#[test]
fn union_lists_each_member_once() {
    let a = set_of(&[&["logs"], &["docs"]]);
    let b = set_of(&[&["cache"], &["docs"]]);
    assert_eq!(a.union(&b), vec![path(&["cache"]), path(&["docs"]), path(&["logs"])]);
    assert_eq!(b.union(&a), vec![path(&["cache"]), path(&["docs"]), path(&["logs"])]);
    assert!(PathSet::new().union(&PathSet::new()).is_empty());
}

#[test]
fn difference_and_intersection_split_a_set() {
    let a = set_of(&[&["1"], &["2"], &["3"], &["4"], &["5"]]);
    let b = set_of(&[&["2"], &["4"], &["6"]]);
    let only = a.difference(&b);
    let both = a.intersection(&b);
    assert_eq!(only.len() + both.len(), a.len());
    for p in only.iter() {
        assert!(a.contains(p) && !b.contains(p));
    }
    for p in both.iter() {
        assert!(a.contains(p) && b.contains(p));
    }
}

#[test]
fn many_insertions_keep_the_set_sorted() {
    let mut set = PathSet::new();
    let mut n: u32 = 7;
    for _ in 0..500 {
        n = n.wrapping_mul(1103515245).wrapping_add(12345);
        let name = format!("f{}", (n >> 16) % 300);
        set.insert(path(&[name.as_str()]));
    }
    let listed = set.into_sorted();
    for w in listed.windows(2) {
        assert!(w[0].segments < w[1].segments);
    }
}
