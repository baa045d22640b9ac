//! The node iterator and the path iterator over a tree of `File`s.
use vstd::prelude::*;
use std::collections::VecDeque;
use crate::file::{children_of, height, lemma_child_height, File, FileType};
use crate::traversal::{
    lemma_kept_cons, lemma_step_nodes, lemma_traversal_step, queue_nodes,
    after_pop, back_part, default_options, front_part, popped, pops_front,
    traversal, yielded, Entry, Options,
};

verus! {

broadcast use vstd::seq_lib::group_seq_properties;

/// The state of a node iterator: its queue, the depth of the entry it popped
/// last, and its options.
pub struct FilesIterView<T> {
    pub queue: Seq<Entry<T>>,
    pub depth: int,
    pub options: Options,
}

/// The state of a node iterator that starts at `root`.
pub open spec fn start_view<T>(root: File<T>) -> FilesIterView<T> {
    FilesIterView { queue: seq![(root, 0int)], depth: 0, options: default_options() }
}

/// What the iterator in state `v` will yield from now on.
pub open spec fn remaining<T>(v: FilesIterView<T>) -> Seq<Entry<T>> {
    yielded(v.queue, v.options)
}

/// The depth that the iterator in state `v` is left at once it has run dry.
pub open spec fn drained_depth<T>(v: FilesIterView<T>) -> int {
    let t = traversal(v.queue, v.options.files_before_directories);
    if t.len() == 0 {
        v.depth
    } else {
        t.last().1
    }
}

/// An iterator over the nodes of a tree, in one of two orders, with filters.
pub struct FilesIter<'a, T> {
    // Directories at the back, other nodes at the front, each with its depth.
    file_deque: VecDeque<(&'a File<T>, usize)>,
    current_depth: usize,
    options: Options,
}

impl<'a, T> View for FilesIter<'a, T> {
    type V = FilesIterView<T>;

    closed spec fn view(&self) -> FilesIterView<T> {
        FilesIterView {
            queue: self.file_deque@.map_values(|e: (&'a File<T>, usize)| (*e.0, e.1 as int)),
            depth: self.current_depth as int,
            options: self.options,
        }
    }
}

impl<'a, T> FilesIter<'a, T> {
    /// Every depth that the iterator can reach fits in a `usize`.
    pub closed spec fn wf(&self) -> bool {
        forall|i: int|
            0 <= i < self.file_deque@.len() ==> self.file_deque@[i].1 + height(
                *self.file_deque@[i].0,
            ) <= usize::MAX
    }

    /// An iterator over `start_file` and everything below it.
    pub fn new(start_file: &'a File<T>) -> (r: Self)
        requires
            height(*start_file) <= usize::MAX,
        ensures
            r.wf(),
            r@ == start_view(*start_file),
    {
        let mut file_deque = VecDeque::new();
        file_deque.push_back((start_file, 0));
        let r = FilesIter { file_deque, current_depth: 0, options: Options {
            files_before_directories: false,
            skip_dirs: false,
            skip_regular_files: false,
            skip_symlinks: false,
            min_depth: 0,
            max_depth: usize::MAX,
        } };
        assert(r@.queue =~= seq![(*start_file, 0int)]);
        r
    }

    /// The depth of the entry popped last; 0 before the first pull.
    pub fn depth(&self) -> (r: usize)
        ensures
            r == self@.depth,
    {
        self.current_depth
    }

    /// Turn this iterator into one over the paths of the same nodes.
    pub fn paths(self) -> (r: PathsIter<'a, T>)
        requires
            self.wf(),
        ensures
            r.wf(),
            r@.files == self@,
            !r@.last_segment,
    {
        PathsIter::new(self)
    }

    /// Yield the nodes that are not directories before descending into the
    /// directories, or (by default) the other way round.
    pub fn files_before_directories(self, arg: bool) -> (r: Self)
        requires
            self.wf(),
        ensures
            r.wf(),
            r@ == (FilesIterView {
                options: Options { files_before_directories: arg, ..self@.options },
                ..self@
            }),
    {
        let mut s = self;
        s.options.files_before_directories = arg;
        s
    }

    /// Leave out every directory.
    pub fn skip_dirs(self, arg: bool) -> (r: Self)
        requires
            self.wf(),
        ensures
            r.wf(),
            r@ == (FilesIterView { options: Options { skip_dirs: arg, ..self@.options }, ..self@ }),
    {
        let mut s = self;
        s.options.skip_dirs = arg;
        s
    }

    /// Leave out every regular file.
    pub fn skip_regular_files(self, arg: bool) -> (r: Self)
        requires
            self.wf(),
        ensures
            r.wf(),
            r@ == (FilesIterView {
                options: Options { skip_regular_files: arg, ..self@.options },
                ..self@
            }),
    {
        let mut s = self;
        s.options.skip_regular_files = arg;
        s
    }

    /// Leave out every symlink.
    pub fn skip_symlinks(self, arg: bool) -> (r: Self)
        requires
            self.wf(),
        ensures
            r.wf(),
            r@ == (FilesIterView {
                options: Options { skip_symlinks: arg, ..self@.options },
                ..self@
            }),
    {
        let mut s = self;
        s.options.skip_symlinks = arg;
        s
    }

    /// Leave out the entries shallower than `min`; their subtrees are still
    /// visited.
    pub fn min_depth(self, min: usize) -> (r: Self)
        requires
            self.wf(),
        ensures
            r.wf(),
            r@ == (FilesIterView { options: Options { min_depth: min, ..self@.options }, ..self@ }),
    {
        let mut s = self;
        s.options.min_depth = min;
        s
    }

    /// Leave out the entries deeper than `max`.
    pub fn max_depth(self, max: usize) -> (r: Self)
        requires
            self.wf(),
        ensures
            r.wf(),
            r@ == (FilesIterView { options: Options { max_depth: max, ..self@.options }, ..self@ }),
    {
        let mut s = self;
        s.options.max_depth = max;
        s
    }
}


impl<'a, T> FilesIter<'a, T> {
    /// The next node that the options let through. Entries that they filter
    /// out are popped all the same, and their children queued.
    pub fn next(&mut self) -> (r: Option<&'a File<T>>)
        requires
            old(self).wf(),
        ensures
            final(self).wf(),
            final(self)@.options == old(self)@.options,
            match r {
                None => {
                    &&& remaining(old(self)@).len() == 0
                    &&& final(self)@.queue.len() == 0
                    &&& final(self)@.depth == drained_depth(old(self)@)
                },
                Some(f) => {
                    &&& remaining(old(self)@).len() > 0
                    &&& *f == remaining(old(self)@)[0].0
                    &&& final(self)@.depth == remaining(old(self)@)[0].1
                    &&& remaining(final(self)@) == remaining(old(self)@).drop_first()
                },
            },
    {
        let ghost start = self@;
        let ghost o = self@.options;
        let ghost fbd = o.files_before_directories;
        let ghost mut done: Seq<Entry<T>> = Seq::empty();
        loop
            invariant
                start == old(self)@,
                o == start.options,
                self.wf(),
                self@.options == o,
                fbd == o.files_before_directories,
                traversal(start.queue, fbd) == done + traversal(self@.queue, fbd),
                remaining(start) == remaining(self@),
                done.len() == 0 ==> self@.depth == start.depth,
                done.len() > 0 ==> self@.depth == done.last().1,
            decreases queue_nodes(self@.queue).len(),
        {
            let len = self.file_deque.len();
            if len == 0 {
                assert(done + traversal(self@.queue, fbd) =~= done);
                return None;
            }
            let ghost q = self@.queue;
            proof {
                lemma_step_nodes(q, fbd);
                lemma_traversal_step(q, fbd);
            }
            let last_is_dir = self.file_deque[len - 1].0.file_type.is_dir();
            let pop_front = self.options.files_before_directories || !last_is_dir;
            assert(pop_front == pops_front(q, fbd));
            let popped_entry = if pop_front {
                self.file_deque.pop_front()
            } else {
                self.file_deque.pop_back()
            };
            let (file, depth) = match popped_entry {
                Some(x) => x,
                None => return None,
            };
            assert((*file, depth as int) == popped(q, fbd));
            assert(depth + height(*file) <= usize::MAX);
            let ghost rest = self@.queue;
            assert(rest == if pop_front {
                q.drop_first()
            } else {
                q.drop_last()
            });
            self.current_depth = depth;
            match &file.file_type {
                FileType::Directory(children) => {
                    let ghost ch = children@;
                    assert(ch == children_of(*file));
                    let n = children.len();
                    let mut i = n;
                    assert(ch.subrange(n as int, n as int) =~= Seq::<File<T>>::empty());
                    assert(self@.queue =~= front_part(ch.subrange(n as int, n as int), depth + 1)
                        + rest + back_part(ch.subrange(n as int, n as int), depth + 1));
                    while i > 0
                        invariant
                            i <= n,
                            n == ch.len(),
                            ch == children@,
                            ch == children_of(*file),
                            depth + height(*file) <= usize::MAX,
                            self.wf(),
                            self@.options == o,
                            self@.depth == depth,
                            self@.queue == front_part(ch.subrange(i as int, n as int), depth + 1)
                                + rest + back_part(ch.subrange(i as int, n as int), depth + 1),
                        decreases i,
                    {
                        i = i - 1;
                        let child = &children[i];
                        proof {
                            lemma_child_height(ch, i as int);
                        }
                        let ghost before = self@.queue;
                        let ghost sub = ch.subrange(i as int, n as int);
                        assert(sub[0] == *child);
                        assert(sub.drop_first() =~= ch.subrange(i + 1, n as int));
                        if child.file_type.is_dir() {
                            self.file_deque.push_back((child, depth + 1));
                            assert(self@.queue =~= before.push((*child, depth + 1)));
                        } else {
                            self.file_deque.push_front((child, depth + 1));
                            assert(self@.queue =~= seq![(*child, depth + 1)] + before);
                        }
                        assert(self@.queue =~= front_part(sub, depth + 1) + rest + back_part(
                            sub,
                            depth + 1,
                        ));
                    }
                    assert(ch.subrange(0, n as int) =~= ch);
                },
                _ => {
                    assert(children_of(*file) =~= Seq::<File<T>>::empty());
                    assert(self@.queue =~= front_part(children_of(*file), depth + 1) + rest
                        + back_part(children_of(*file), depth + 1));
                },
            }
            assert(self@.queue == after_pop(q, fbd));
            let ghost e = popped(q, fbd);
            proof {
                lemma_kept_cons(e, traversal(self@.queue, fbd), o);
            }
            let kind = &file.file_type;
            if self.options.min_depth <= depth && depth <= self.options.max_depth && !(
            self.options.skip_dirs && kind.is_dir()) && !(self.options.skip_regular_files
                && kind.is_regular()) && !(self.options.skip_symlinks && kind.is_symlink()) {
                return Some(file);
            }
            proof {
                assert(done + traversal(q, fbd) =~= done.push(e) + traversal(self@.queue, fbd));
                done = done.push(e);
            }
        }
    }
}

/// The state of a path iterator: the node iterator it draws from, and
/// whether it shows only the last segment of each path.
pub struct PathsIterView<T> {
    pub files: FilesIterView<T>,
    pub last_segment: bool,
}

/// The last segment of a path, as `std::path::Path::file_name` gives it;
/// `None` where the path has none (it ends in `..`, or is a root).
pub uninterp spec fn last_segment_of(path: Seq<char>) -> Option<Seq<char>>;

/// Relies on `std::path::Path::file_name`: the last segment of the path,
/// if it has one. It depends on the path alone.
#[verifier::external_body]
fn file_name(path: &String) -> (r: Option<String>)
    ensures
        r is Some == last_segment_of(path@) is Some,
        r is Some ==> r->0@ == last_segment_of(path@)->0,
{
    match std::path::Path::new(path.as_str()).file_name() {
        Some(name) => name.to_str().map(String::from),
        None => None,
    }
}

/// How an entry is shown: its whole path, or its last segment if it has one.
pub open spec fn shown<T>(e: Entry<T>, last_segment: bool) -> Option<Seq<char>> {
    if last_segment {
        last_segment_of(e.0.path@)
    } else {
        Some(e.0.path@)
    }
}

/// The paths shown for a sequence of entries; entries with nothing to show
/// are passed over.
pub open spec fn paths_of<T>(s: Seq<Entry<T>>, last_segment: bool) -> Seq<Seq<char>>
    decreases s.len(),
{
    if s.len() == 0 {
        Seq::empty()
    } else {
        let head: Seq<Seq<char>> = match shown(s[0], last_segment) {
            Some(p) => seq![p],
            None => Seq::empty(),
        };
        head + paths_of(s.drop_first(), last_segment)
    }
}

/// What the path iterator in state `v` will yield from now on.
pub open spec fn remaining_paths<T>(v: PathsIterView<T>) -> Seq<Seq<char>> {
    paths_of(remaining(v.files), v.last_segment)
}

proof fn lemma_paths_of_first<T>(s: Seq<Entry<T>>, last_segment: bool)
    requires
        s.len() > 0,
    ensures
        paths_of(s, last_segment) == match shown(s[0], last_segment) {
            Some(p) => seq![p] + paths_of(s.drop_first(), last_segment),
            None => paths_of(s.drop_first(), last_segment),
        },
{
    if shown(s[0], last_segment) is None {
        assert(Seq::<Seq<char>>::empty() + paths_of(s.drop_first(), last_segment) =~= paths_of(
            s.drop_first(),
            last_segment,
        ));
    }
}

proof fn lemma_full_paths<T>(s: Seq<Entry<T>>)
    ensures
        paths_of(s, false) == s.map_values(|e: Entry<T>| e.0.path@),
    decreases s.len(),
{
    if s.len() > 0 {
        lemma_full_paths(s.drop_first());
        lemma_paths_of_first(s, false);
        assert(paths_of(s, false) =~= s.map_values(|e: Entry<T>| e.0.path@));
    } else {
        assert(paths_of(s, false) =~= s.map_values(|e: Entry<T>| e.0.path@));
    }
}

/// A path iterator that shows whole paths yields, at each position, the
/// path of the node that its node iterator yields at that position.
pub proof fn lemma_paths_follow_nodes<T>(v: FilesIterView<T>)
    ensures
        remaining_paths(PathsIterView { files: v, last_segment: false }).len() == remaining(v).len(),
        forall|i: int|
            0 <= i < remaining(v).len() ==> #[trigger] remaining_paths(
                PathsIterView { files: v, last_segment: false },
            )[i] == remaining(v)[i].0.path@,
{
    lemma_full_paths(remaining(v));
}

/// An iterator over the paths of the nodes that a `FilesIter` yields.
pub struct PathsIter<'a, T> {
    file_iter: FilesIter<'a, T>,
    only_show_last_segment: bool,
}

impl<'a, T> View for PathsIter<'a, T> {
    type V = PathsIterView<T>;

    closed spec fn view(&self) -> PathsIterView<T> {
        PathsIterView { files: self.file_iter@, last_segment: self.only_show_last_segment }
    }
}

impl<'a, T> PathsIter<'a, T> {
    pub closed spec fn wf(&self) -> bool {
        self.file_iter.wf()
    }

    pub fn new(file_iter: FilesIter<'a, T>) -> (r: Self)
        requires
            file_iter.wf(),
        ensures
            r.wf(),
            r@.files == file_iter@,
            !r@.last_segment,
    {
        PathsIter { file_iter, only_show_last_segment: false }
    }

    /// Show only the last segment of each path.
    pub fn only_show_last_segment(self, arg: bool) -> (r: Self)
        requires
            self.wf(),
        ensures
            r.wf(),
            r@ == (PathsIterView { last_segment: arg, ..self@ }),
    {
        let mut s = self;
        s.only_show_last_segment = arg;
        s
    }

    /// The depth of the node popped last; 0 before the first pull.
    pub fn depth(&self) -> (r: usize)
        ensures
            r == self@.files.depth,
    {
        self.file_iter.depth()
    }

    /// The next path.
    pub fn next(&mut self) -> (r: Option<String>)
        requires
            old(self).wf(),
        ensures
            final(self).wf(),
            final(self)@.last_segment == old(self)@.last_segment,
            final(self)@.files.options == old(self)@.files.options,
            match r {
                None => remaining_paths(old(self)@).len() == 0,
                Some(p) => {
                    &&& remaining_paths(old(self)@).len() > 0
                    &&& p@ == remaining_paths(old(self)@)[0]
                    &&& remaining_paths(final(self)@) == remaining_paths(old(self)@).drop_first()
                },
            },
    {
        let ghost start = self@;
        loop
            invariant
                start == old(self)@,
                self.wf(),
                self@.last_segment == start.last_segment,
                self@.files.options == start.files.options,
                remaining_paths(self@) == remaining_paths(start),
            decreases remaining(self@.files).len(),
        {
            let ghost before = self@;
            match self.file_iter.next() {
                None => {
                    return None;
                },
                Some(file) => {
                    proof {
                        lemma_paths_of_first(remaining(before.files), before.last_segment);
                    }
                    if self.only_show_last_segment {
                        match file_name(&file.path) {
                            Some(name) => {
                                return Some(name);
                            },
                            None => {},
                        }
                    } else {
                        return Some(file.path.clone());
                    }
                },
            }
        }
    }
}

impl<T> File<T> {
    /// An iterator over this node and everything below it.
    pub fn files<'a>(&'a self) -> (r: FilesIter<'a, T>)
        requires
            height(*self) <= usize::MAX,
        ensures
            r.wf(),
            r@ == start_view(*self),
    {
        FilesIter::new(self)
    }

    /// An iterator over the paths of this node and everything below it.
    pub fn paths<'a>(&'a self) -> (r: PathsIter<'a, T>)
        requires
            height(*self) <= usize::MAX,
        ensures
            r.wf(),
            r@ == (PathsIterView { files: start_view(*self), last_segment: false }),
    {
        FilesIter::new(self).paths()
    }
}

} // verus!
