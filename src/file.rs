use vstd::prelude::*;

verus! {

/// What kind of node a `File` is; a directory owns its children, in order.
#[derive(Debug, PartialEq, Eq)]
pub enum FileType<T> {
    Regular,
    Directory(Vec<File<T>>),
    Symlink,
}

/// A node of the tree: its path, its kind and an optional payload.
#[derive(Debug, PartialEq, Eq)]
pub struct File<T> {
    pub path: String,
    pub file_type: FileType<T>,
    pub extra: Option<T>,
}

/// The children of a node, empty for anything but a directory.
pub open spec fn children_of<T>(f: File<T>) -> Seq<File<T>> {
    match f.file_type {
        FileType::Directory(children) => children@,
        _ => Seq::empty(),
    }
}

/// The number of levels below the nodes of a forest: 0 for a forest of
/// nodes without children.
pub open spec fn forest_height<T>(s: Seq<File<T>>) -> nat
    decreases s,
{
    if s.len() == 0 {
        0
    } else {
        let first = s[0];
        let below: nat = match first.file_type {
            FileType::Directory(children) => forest_height(children@),
            _ => 0,
        };
        let rest = forest_height(s.drop_first());
        if below + 1 > rest {
            (below + 1) as nat
        } else {
            rest
        }
    }
}

/// The number of levels below a node: 0 for a leaf.
pub open spec fn height<T>(f: File<T>) -> nat {
    forest_height(children_of(f))
}

/// A child lies at least one level lower than the forest that holds it.
pub proof fn lemma_child_height<T>(s: Seq<File<T>>, i: int)
    requires
        0 <= i < s.len(),
    ensures
        height(s[i]) + 1 <= forest_height(s),
    decreases s.len(),
{
    if i > 0 {
        lemma_child_height(s.drop_first(), i - 1);
        assert(s.drop_first()[i - 1] == s[i]);
    }
}

impl<T> FileType<T> {
    pub fn is_dir(&self) -> (r: bool)
        ensures
            r == self is Directory,
    {
        match self {
            FileType::Directory(_) => true,
            _ => false,
        }
    }

    pub fn is_regular(&self) -> (r: bool)
        ensures
            r == self is Regular,
    {
        match self {
            FileType::Regular => true,
            _ => false,
        }
    }

    pub fn is_symlink(&self) -> (r: bool)
        ensures
            r == self is Symlink,
    {
        match self {
            FileType::Symlink => true,
            _ => false,
        }
    }

    /// The children of a directory, `None` for any other kind.
    pub fn children(&self) -> (r: Option<&Vec<File<T>>>)
        ensures
            match self {
                FileType::Directory(v) => r == Some(v),
                _ => r is None,
            },
    {
        match self {
            FileType::Directory(v) => Some(v),
            _ => None,
        }
    }
}

impl<T> File<T> {
    /// A node with no payload.
    pub fn new(path: String, file_type: FileType<T>) -> (r: File<T>)
        ensures
            r.path == path,
            r.file_type == file_type,
            r.extra is None,
    {
        File { path, file_type, extra: None }
    }

    /// A node that carries a payload.
    pub fn with_extra(path: String, file_type: FileType<T>, extra: T) -> (r: File<T>)
        ensures
            r.path == path,
            r.file_type == file_type,
            r.extra == Some(extra),
    {
        File { path, file_type, extra: Some(extra) }
    }
}

} // verus!
