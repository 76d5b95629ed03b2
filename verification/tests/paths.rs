use dir_compare::path::{compare_names, copy_name, Rank, RelPath};

fn path(names: &[&str]) -> RelPath {
    RelPath::new(names.iter().map(|n| n.as_bytes().to_vec()).collect())
}

#[test]
fn names_compare_bytewise() {
    assert_eq!(compare_names(&b"abc".to_vec(), &b"abd".to_vec()), Rank::Before);
    assert_eq!(compare_names(&b"abd".to_vec(), &b"abc".to_vec()), Rank::After);
    assert_eq!(compare_names(&b"abc".to_vec(), &b"abc".to_vec()), Rank::Equal);
    assert_eq!(compare_names(&b"Z".to_vec(), &b"a".to_vec()), Rank::Before);
    assert_eq!(compare_names(&vec![0x7f], &vec![0x80]), Rank::Before);
}

#[test]
fn shorter_name_sorts_before_its_extension() {
    assert_eq!(compare_names(&b"ab".to_vec(), &b"abc".to_vec()), Rank::Before);
    assert_eq!(compare_names(&b"abc".to_vec(), &b"ab".to_vec()), Rank::After);
    assert_eq!(compare_names(&Vec::new(), &b"a".to_vec()), Rank::Before);
    assert_eq!(compare_names(&Vec::new(), &Vec::new()), Rank::Equal);
}

#[test]
fn paths_compare_segment_by_segment() {
    // As one string "a-b" would sort before "a/b"; as paths the first segment decides.
    assert_eq!(path(&["a", "b"]).compare(&path(&["a-b"])), Rank::Before);
    assert_eq!(path(&["a-b"]).compare(&path(&["a", "b"])), Rank::After);
    assert_eq!(path(&["a", "b"]).compare(&path(&["a", "c"])), Rank::Before);
    assert_eq!(path(&["b"]).compare(&path(&["a", "z"])), Rank::After);
    assert_eq!(path(&["a", "b"]).compare(&path(&["a", "b"])), Rank::Equal);
}

#[test]
fn parent_sorts_before_what_is_below_it() {
    assert_eq!(path(&["a"]).compare(&path(&["a", "b"])), Rank::Before);
    assert_eq!(path(&["a", "b"]).compare(&path(&["a"])), Rank::After);
    assert_eq!(RelPath::root().compare(&path(&["a"])), Rank::Before);
    assert_eq!(RelPath::root().compare(&RelPath::root()), Rank::Equal);
}

#[test]
fn comparison_is_antisymmetric_on_samples() {
    let samples = [
        path(&[]),
        path(&["a"]),
        path(&["a", "b"]),
        path(&["a-b"]),
        path(&["ab"]),
        path(&["b"]),
        path(&["a", "b", "c"]),
    ];
    for x in samples.iter() {
        for y in samples.iter() {
            let forth = x.compare(y);
            let back = y.compare(x);
            match forth {
                Rank::Before => assert_eq!(back, Rank::After),
                Rank::After => assert_eq!(back, Rank::Before),
                Rank::Equal => {
                    assert_eq!(back, Rank::Equal);
                    assert_eq!(x, y);
                }
            }
        }
    }
}

#[test]
fn comparison_is_transitive_on_samples() {
    let samples = [
        path(&[]),
        path(&["a"]),
        path(&["a", "b"]),
        path(&["a-b"]),
        path(&["ab"]),
        path(&["b"]),
    ];
    for x in samples.iter() {
        for y in samples.iter() {
            for z in samples.iter() {
                if x.compare(y) == Rank::Before && y.compare(z) == Rank::Before {
                    assert_eq!(x.compare(z), Rank::Before);
                }
            }
        }
    }
}

#[test]
fn root_is_the_empty_path() {
    let root = RelPath::root();
    assert_eq!(root.depth(), 0);
    assert!(root.segments.is_empty());
}

#[test]
fn single_holds_one_name() {
    let p = RelPath::single(b"docs".to_vec());
    assert_eq!(p.depth(), 1);
    assert_eq!(p.segment(0), Some(&b"docs".to_vec()));
    assert_eq!(p.segment(1), None);
}

#[test]
fn child_appends_a_name() {
    let parent = path(&["docs"]);
    let below = parent.child(&b"readme.txt".to_vec());
    assert_eq!(below, path(&["docs", "readme.txt"]));
    assert_eq!(below.depth(), 2);
    assert_eq!(parent, path(&["docs"]));
}

#[test]
fn duplicate_equals_the_original() {
    let p = path(&["a", "bb", "ccc"]);
    assert_eq!(p.duplicate(), p);
    assert_eq!(RelPath::root().duplicate(), RelPath::root());
}

#[test]
fn copy_name_copies_every_byte() {
    let name: Vec<u8> = (0u8..=255).collect();
    assert_eq!(copy_name(&name), name);
    assert_eq!(copy_name(&Vec::new()), Vec::<u8>::new());
}

#[test]
fn join_appends_every_name() {
    let base = path(&["docs"]);
    assert_eq!(base.join(&path(&["a", "b"])), path(&["docs", "a", "b"]));
    assert_eq!(base.join(&RelPath::root()), base);
    assert_eq!(RelPath::root().join(&base), base);
    assert_eq!(base, path(&["docs"]));
}

#[test]
fn names_need_not_be_text() {
    let odd = RelPath::new(vec![vec![0xff, 0x00, 0x2f], vec![]]);
    assert_eq!(odd.depth(), 2);
    assert_eq!(odd.duplicate(), odd);
    assert_eq!(odd.compare(&path(&["zzz"])), Rank::After);
}
