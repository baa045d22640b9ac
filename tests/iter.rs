use std::path::PathBuf;

use file_structure::file::{File, FileType};
use file_structure::file::FileType::{Directory, Regular, Symlink};

fn c(f: &File<()>, index: usize) -> &File<()> {
    &f.file_type.children().unwrap()[index]
}

fn node(path: &str, file_type: FileType<()>) -> File<()> {
    File::new(path.to_string(), file_type)
}

// .config/ [ i3/ [ file1, file2, dir/ [ innerfile1, innerfile2 ], file3 ], outerfile1, outerfile2 ]
fn sample() -> File<()> {
    node(".config/", Directory(vec![
        node(".config/i3/", Directory(vec![
            node(".config/i3/file1", Regular),
            node(".config/i3/file2", Regular),
            node(".config/i3/dir/", Directory(vec![
                node(".config/i3/dir/innerfile1", Regular),
                node(".config/i3/dir/innerfile2", Regular),
            ])),
            node(".config/i3/file3", Regular),
        ])),
        node(".config/outerfile1", Regular),
        node(".config/outerfile2", Regular),
    ]))
}

#[test]
fn testing_files_and_paths_iters() {
    let root = sample();
    let refs = vec![
        &root,
        c(&root, 0),
        c(c(&root, 0), 0),
        c(c(&root, 0), 1),
        c(c(&root, 0), 2),
        c(c(c(&root, 0), 2), 0),
        c(c(c(&root, 0), 2), 1),
        c(c(&root, 0), 3),
        c(&root, 1),
        c(&root, 2),
    ];

    let mut it = root.files();
    assert_eq!(it.next(), Some(refs[0]));
    assert_eq!(it.next(), Some(refs[1]));
    assert_eq!(it.next(), Some(refs[4]));
    assert_eq!(it.next(), Some(refs[5]));
    assert_eq!(it.next(), Some(refs[6]));
    assert_eq!(it.next(), Some(refs[2]));
    assert_eq!(it.next(), Some(refs[3]));
    assert_eq!(it.next(), Some(refs[7]));
    assert_eq!(it.next(), Some(refs[8]));
    assert_eq!(it.next(), Some(refs[9]));

    let mut it = root.files().files_before_directories(true);
    assert_eq!(it.next(), Some(refs[0]));
    assert_eq!(it.next(), Some(refs[8]));
    assert_eq!(it.next(), Some(refs[9]));
    assert_eq!(it.next(), Some(refs[1]));
    assert_eq!(it.next(), Some(refs[2]));
    assert_eq!(it.next(), Some(refs[3]));
    assert_eq!(it.next(), Some(refs[7]));
    assert_eq!(it.next(), Some(refs[4]));
    assert_eq!(it.next(), Some(refs[5]));
    assert_eq!(it.next(), Some(refs[6]));

    let mut it = root.files().skip_dirs(true);
    assert_eq!(it.next(), Some(refs[5]));
    assert_eq!(it.next(), Some(refs[6]));
    assert_eq!(it.next(), Some(refs[2]));
    assert_eq!(it.next(), Some(refs[3]));
    assert_eq!(it.next(), Some(refs[7]));
    assert_eq!(it.next(), Some(refs[8]));
    assert_eq!(it.next(), Some(refs[9]));

    let mut it = root.files().skip_regular_files(true);
    assert_eq!(it.next(), Some(refs[0]));
    assert_eq!(it.next(), Some(refs[1]));
    assert_eq!(it.next(), Some(refs[4]));

    let mut it = root.files().min_depth(1).max_depth(2);
    assert_eq!(it.next(), Some(refs[1]));
    assert_eq!(it.next(), Some(refs[4]));
    assert_eq!(it.next(), Some(refs[2]));
    assert_eq!(it.next(), Some(refs[3]));
    assert_eq!(it.next(), Some(refs[7]));
    assert_eq!(it.next(), Some(refs[8]));
    assert_eq!(it.next(), Some(refs[9]));

    let mut it = root.paths();
    assert_eq!(PathBuf::from(it.next().unwrap()), PathBuf::from(".config/"));
    assert_eq!(PathBuf::from(it.next().unwrap()), PathBuf::from(".config/i3/"));
    assert_eq!(PathBuf::from(it.next().unwrap()), PathBuf::from(".config/i3/dir/"));
    assert_eq!(PathBuf::from(it.next().unwrap()), PathBuf::from(".config/i3/dir/innerfile1"));
    assert_eq!(PathBuf::from(it.next().unwrap()), PathBuf::from(".config/i3/dir/innerfile2"));
    assert_eq!(PathBuf::from(it.next().unwrap()), PathBuf::from(".config/i3/file1"));
    assert_eq!(PathBuf::from(it.next().unwrap()), PathBuf::from(".config/i3/file2"));
    assert_eq!(PathBuf::from(it.next().unwrap()), PathBuf::from(".config/i3/file3"));
    assert_eq!(PathBuf::from(it.next().unwrap()), PathBuf::from(".config/outerfile1"));
    assert_eq!(PathBuf::from(it.next().unwrap()), PathBuf::from(".config/outerfile2"));

    let mut it = root.paths().only_show_last_segment(true);
    assert_eq!(PathBuf::from(it.next().unwrap()), PathBuf::from(".config/"));
    assert_eq!(PathBuf::from(it.next().unwrap()), PathBuf::from("i3/"));
    assert_eq!(PathBuf::from(it.next().unwrap()), PathBuf::from("dir/"));
    assert_eq!(PathBuf::from(it.next().unwrap()), PathBuf::from("innerfile1"));
    assert_eq!(PathBuf::from(it.next().unwrap()), PathBuf::from("innerfile2"));
    assert_eq!(PathBuf::from(it.next().unwrap()), PathBuf::from("file1"));
    assert_eq!(PathBuf::from(it.next().unwrap()), PathBuf::from("file2"));
    assert_eq!(PathBuf::from(it.next().unwrap()), PathBuf::from("file3"));
    assert_eq!(PathBuf::from(it.next().unwrap()), PathBuf::from("outerfile1"));
    assert_eq!(PathBuf::from(it.next().unwrap()), PathBuf::from("outerfile2"));
}

fn paths_of_files(mut it: file_structure::iter::FilesIter<'_, ()>) -> Vec<String> {
    let mut out = Vec::new();
    while let Some(f) = it.next() {
        out.push(f.path.clone());
    }
    out
}

#[test]
fn every_node_once_in_both_orders() {
    let root = sample();
    let mut a = paths_of_files(root.files());
    let mut b = paths_of_files(root.files().files_before_directories(true));
    assert_eq!(a.len(), 10);
    assert_eq!(b.len(), 10);
    a.sort();
    b.sort();
    assert_eq!(a, b);
    a.dedup();
    assert_eq!(a.len(), 10);
}

#[test]
fn skip_flags_keep_relative_order() {
    let root = sample();
    let all = paths_of_files(root.files());
    let kept = paths_of_files(root.files().skip_regular_files(true));
    let expected: Vec<String> = all.iter().filter(|p| p.ends_with('/')).cloned().collect();
    assert_eq!(kept, expected);
    let none = paths_of_files(root.files().skip_dirs(true).skip_regular_files(true));
    assert!(none.is_empty());
}

#[test]
fn skip_symlinks_filters_symlinks() {
    let root = node("r/", Directory(vec![
        node("r/link", Symlink),
        node("r/file", Regular),
    ]));
    assert_eq!(paths_of_files(root.files()), vec!["r/", "r/link", "r/file"]);
    assert_eq!(paths_of_files(root.files().skip_symlinks(true)), vec!["r/", "r/file"]);
}

#[test]
fn depth_bounds_select_a_band() {
    let root = sample();
    let band = paths_of_files(root.files().min_depth(2).max_depth(2));
    assert_eq!(band, vec![
        ".config/i3/dir/",
        ".config/i3/file1",
        ".config/i3/file2",
        ".config/i3/file3",
    ]);
    let empty = paths_of_files(root.files().min_depth(3).max_depth(1));
    assert!(empty.is_empty());
}

#[test]
fn depth_tracks_last_node() {
    let root = sample();
    let mut it = root.files().files_before_directories(true);
    assert_eq!(it.depth(), 0);
    let mut depths = Vec::new();
    let mut last = 0usize;
    while it.next().is_some() {
        assert!(it.depth() <= last + 1);
        last = it.depth();
        depths.push(last);
    }
    assert_eq!(depths, vec![0, 1, 1, 1, 2, 2, 2, 2, 3, 3]);
    let mut p = root.paths();
    assert_eq!(p.depth(), 0);
    p.next();
    p.next();
    assert_eq!(p.depth(), 1);
}

#[test]
fn exhausted_iterator_stays_exhausted() {
    let root = node("only", Regular);
    let mut it = root.files();
    assert_eq!(it.next().map(|f| f.path.as_str()), Some("only"));
    assert!(it.next().is_none());
    assert!(it.next().is_none());
    let empty_dir = node("d/", Directory(vec![]));
    assert_eq!(paths_of_files(empty_dir.files()), vec!["d/"]);
}

#[test]
fn path_projection_matches_nodes() {
    let root = sample();
    let nodes = paths_of_files(root.files().files_before_directories(true).skip_dirs(true));
    let mut it = root.files().files_before_directories(true).skip_dirs(true).paths();
    let mut paths = Vec::new();
    while let Some(p) = it.next() {
        paths.push(p);
    }
    assert_eq!(nodes, paths);
}

#[test]
fn last_segment_passes_over_paths_without_one() {
    let root = node("a/", Directory(vec![
        node("a/..", Regular),
        node("a/b", Regular),
    ]));
    let mut it = root.paths().only_show_last_segment(true);
    assert_eq!(it.next(), Some("a".to_string()));
    assert_eq!(it.next(), Some("b".to_string()));
    assert_eq!(it.next(), None);
}
