use dir_compare::path::RelPath;
use dir_compare::path_set::PathSet;
use dir_compare::walk::{direct_subdirs, Entry, Probe, Walker};

fn path(names: &[&str]) -> RelPath {
    RelPath::new(names.iter().map(|n| n.as_bytes().to_vec()).collect())
}

fn names(list: &[&str]) -> Vec<Vec<u8>> {
    list.iter().map(|n| n.as_bytes().to_vec()).collect()
}

/// A tree in memory: what each path holds.
fn look(tree: &[(&[&str], Probe)], at: &RelPath) -> Probe {
    for (p, found) in tree {
        if &path(p) == at {
            return match found {
                Probe::Directory(entries) => Probe::Directory(entries.to_vec()),
                Probe::Unreadable => Probe::Unreadable,
                Probe::File => Probe::File,
                Probe::Other => Probe::Other,
            };
        }
    }
    Probe::Other
}

fn collect(tree: &[(&[&str], Probe)]) -> (PathSet, Vec<RelPath>) {
    let mut walker = Walker::new();
    let mut visited = Vec::new();
    loop {
        let at = match walker.current() {
            Some(p) => p.duplicate(),
            None => break,
        };
        walker.advance(look(tree, &at));
        visited.push(at);
    }
    (walker.finish(), visited)
}

#[test]
fn walk_starts_at_the_root() {
    let walker = Walker::new();
    assert_eq!(walker.current(), Some(&RelPath::root()));
}

#[test]
fn walk_of_an_empty_directory_finds_nothing() {
    let (files, visited) = collect(&[(&[], Probe::Directory(Vec::new()))]);
    assert!(files.is_empty());
    assert_eq!(visited, vec![RelPath::root()]);
}

#[test]
fn walk_of_a_missing_root_finds_nothing() {
    let (files, visited) = collect(&[]);
    assert!(files.is_empty());
    assert_eq!(visited, vec![RelPath::root()]);
}

#[test]
fn walk_of_an_unreadable_root_finds_nothing() {
    let (files, _) = collect(&[(&[], Probe::Unreadable)]);
    assert!(files.is_empty());
}

#[test]
fn walk_of_a_file_finds_the_empty_path() {
    let (files, _) = collect(&[(&[], Probe::File)]);
    assert_eq!(files.into_sorted(), vec![RelPath::root()]);
}

#[test]
fn walk_finds_files_at_every_depth() {
    let tree: Vec<(&[&str], Probe)> = vec![
        (&[], Probe::Directory(names(&["b.txt", "sub", "a.txt"]))),
        (&["a.txt"], Probe::File),
        (&["b.txt"], Probe::File),
        (&["sub"], Probe::Directory(names(&["deep", "c.txt"]))),
        (&["sub", "c.txt"], Probe::File),
        (&["sub", "deep"], Probe::Directory(names(&["d.txt"]))),
        (&["sub", "deep", "d.txt"], Probe::File),
    ];
    let (files, _) = collect(&tree);
    assert_eq!(
        files.into_sorted(),
        vec![
            path(&["a.txt"]),
            path(&["b.txt"]),
            path(&["sub", "c.txt"]),
            path(&["sub", "deep", "d.txt"]),
        ]
    );
}

#[test]
fn walk_lists_no_directories() {
    let tree: Vec<(&[&str], Probe)> = vec![
        (&[], Probe::Directory(names(&["empty", "full"]))),
        (&["empty"], Probe::Directory(Vec::new())),
        (&["full"], Probe::Directory(names(&["f"]))),
        (&["full", "f"], Probe::File),
    ];
    let (files, _) = collect(&tree);
    assert_eq!(files.into_sorted(), vec![path(&["full", "f"])]);
}

#[test]
fn walk_skips_an_unreadable_directory_and_goes_on() {
    let tree: Vec<(&[&str], Probe)> = vec![
        (&[], Probe::Directory(names(&["locked", "open"]))),
        (&["locked"], Probe::Unreadable),
        (&["locked", "secret"], Probe::File),
        (&["open"], Probe::Directory(names(&["f"]))),
        (&["open", "f"], Probe::File),
    ];
    let (files, visited) = collect(&tree);
    assert_eq!(files.into_sorted(), vec![path(&["open", "f"])]);
    assert!(!visited.contains(&path(&["locked", "secret"])));
}

#[test]
fn walk_passes_over_what_is_neither_file_nor_directory() {
    let tree: Vec<(&[&str], Probe)> = vec![
        (&[], Probe::Directory(names(&["socket", "f"]))),
        (&["socket"], Probe::Other),
        (&["f"], Probe::File),
    ];
    let (files, _) = collect(&tree);
    assert_eq!(files.into_sorted(), vec![path(&["f"])]);
}

#[test]
fn walk_looks_at_the_last_listed_entry_first() {
    let tree: Vec<(&[&str], Probe)> = vec![
        (&[], Probe::Directory(names(&["x", "y", "z"]))),
        (&["x"], Probe::File),
        (&["y"], Probe::File),
        (&["z"], Probe::File),
    ];
    let (_, visited) = collect(&tree);
    assert_eq!(visited, vec![RelPath::root(), path(&["z"]), path(&["y"]), path(&["x"])]);
}

#[test]
fn walk_that_is_over_ignores_what_it_is_told() {
    let mut walker = Walker::new();
    walker.advance(Probe::Other);
    assert_eq!(walker.current(), None);
    walker.advance(Probe::File);
    walker.advance(Probe::Directory(names(&["a"])));
    assert_eq!(walker.current(), None);
    assert!(walker.finish().is_empty());
}

#[test]
fn direct_subdirs_keeps_directories_only() {
    let listing = Some(vec![
        Entry { name: b"docs".to_vec(), is_dir: true },
        Entry { name: b"readme.txt".to_vec(), is_dir: false },
        Entry { name: b"cache".to_vec(), is_dir: true },
    ]);
    let dirs = direct_subdirs(&listing);
    assert_eq!(dirs.into_sorted(), vec![path(&["cache"]), path(&["docs"])]);
}

#[test]
fn direct_subdirs_of_an_unreadable_root_is_empty() {
    assert!(direct_subdirs(&None).is_empty());
    assert!(direct_subdirs(&Some(Vec::new())).is_empty());
}

#[test]
fn direct_subdirs_does_not_go_deeper() {
    let listing = Some(vec![Entry { name: b"a".to_vec(), is_dir: true }]);
    let dirs = direct_subdirs(&listing);
    assert_eq!(dirs.len(), 1);
    assert_eq!(dirs.get(0).map(|p| p.depth()), Some(1));
}
