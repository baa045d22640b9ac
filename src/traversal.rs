//! The traversal as a mathematical object: the work queue of (node, depth)
//! entries, the step that pops one entry and queues its children, the
//! sequence of entries that repeated steps pop, and the facts about it.
use vstd::prelude::*;
use vstd::multiset::Multiset;
use crate::file::{children_of, forest_height, height, lemma_child_height, File, FileType};

verus! {

broadcast use vstd::seq_lib::group_seq_properties, vstd::multiset::group_multiset_axioms;

/// A node of the tree together with its distance from the root.
pub type Entry<T> = (File<T>, int);

/// The configuration of a traversal: order and filters.
#[derive(Clone, Copy)]
pub struct Options {
    pub files_before_directories: bool,
    pub skip_dirs: bool,
    pub skip_regular_files: bool,
    pub skip_symlinks: bool,
    pub min_depth: usize,
    pub max_depth: usize,
}

/// Directories before files, no filter, every depth.
pub open spec fn default_options() -> Options {
    Options {
        files_before_directories: false,
        skip_dirs: false,
        skip_regular_files: false,
        skip_symlinks: false,
        min_depth: 0,
        max_depth: usize::MAX,
    }
}

/// Every node of a forest whose roots lie at depth `d`, with its depth.
pub open spec fn forest_nodes<T>(s: Seq<File<T>>, d: int) -> Multiset<Entry<T>>
    decreases s,
{
    if s.len() == 0 {
        Multiset::empty()
    } else {
        let first = s[0];
        let below = match first.file_type {
            FileType::Directory(children) => forest_nodes(children@, d + 1),
            _ => Multiset::empty(),
        };
        below.insert((first, d)).add(forest_nodes(s.drop_first(), d))
    }
}

/// Every node that a queue holds or lies below an entry of it.
pub open spec fn queue_nodes<T>(q: Seq<Entry<T>>) -> Multiset<Entry<T>>
    decreases q.len(),
{
    if q.len() == 0 {
        Multiset::empty()
    } else {
        forest_nodes(seq![q[0].0], q[0].1).add(queue_nodes(q.drop_first()))
    }
}

/// The children that are not directories, in order, at depth `d`.
pub open spec fn front_part<T>(s: Seq<File<T>>, d: int) -> Seq<Entry<T>>
    decreases s.len(),
{
    if s.len() == 0 {
        Seq::empty()
    } else {
        let head: Seq<Entry<T>> = if s[0].file_type is Directory {
            Seq::empty()
        } else {
            seq![(s[0], d)]
        };
        head + front_part(s.drop_first(), d)
    }
}

/// The children that are directories, in reverse order, at depth `d`.
pub open spec fn back_part<T>(s: Seq<File<T>>, d: int) -> Seq<Entry<T>>
    decreases s.len(),
{
    if s.len() == 0 {
        Seq::empty()
    } else {
        let tail: Seq<Entry<T>> = if s[0].file_type is Directory {
            seq![(s[0], d)]
        } else {
            Seq::empty()
        };
        back_part(s.drop_first(), d) + tail
    }
}

/// Whether the next entry comes from the front of the queue: always when
/// files come first, else once no directory is left at the back.
pub open spec fn pops_front<T>(q: Seq<Entry<T>>, files_first: bool) -> bool {
    files_first || !(q.last().0.file_type is Directory)
}

/// The entry that the next step pops.
pub open spec fn popped<T>(q: Seq<Entry<T>>, files_first: bool) -> Entry<T> {
    if pops_front(q, files_first) {
        q[0]
    } else {
        q.last()
    }
}

/// The queue after one step: the popped entry is gone, and its children are
/// queued one level deeper, files at the front and directories at the back.
pub open spec fn after_pop<T>(q: Seq<Entry<T>>, files_first: bool) -> Seq<Entry<T>> {
    let e = popped(q, files_first);
    let rest = if pops_front(q, files_first) {
        q.drop_first()
    } else {
        q.drop_last()
    };
    front_part(children_of(e.0), e.1 + 1) + rest + back_part(children_of(e.0), e.1 + 1)
}

/// The entries that repeated steps pop from `q` until it is empty, unfiltered.
pub open spec fn traversal<T>(q: Seq<Entry<T>>, files_first: bool) -> Seq<Entry<T>>
    decreases queue_nodes(q).len(),
    via traversal_decreases::<T>
{
    if q.len() == 0 {
        Seq::empty()
    } else {
        seq![popped(q, files_first)] + traversal(after_pop(q, files_first), files_first)
    }
}

#[via_fn]
proof fn traversal_decreases<T>(q: Seq<Entry<T>>, files_first: bool) {
    if q.len() != 0 {
        lemma_step_nodes(q, files_first);
    }
}

/// Whether the options let an entry through.
pub open spec fn keeps<T>(o: Options, e: Entry<T>) -> bool {
    &&& o.min_depth <= e.1 <= o.max_depth
    &&& !(o.skip_dirs && e.0.file_type is Directory)
    &&& !(o.skip_regular_files && e.0.file_type is Regular)
    &&& !(o.skip_symlinks && e.0.file_type is Symlink)
}

/// The entries of `s` that the options let through, in order.
pub open spec fn kept<T>(s: Seq<Entry<T>>, o: Options) -> Seq<Entry<T>>
    decreases s.len(),
{
    if s.len() == 0 {
        Seq::empty()
    } else {
        let head: Seq<Entry<T>> = if keeps(o, s[0]) {
            seq![s[0]]
        } else {
            Seq::empty()
        };
        head + kept(s.drop_first(), o)
    }
}

/// What a traversal from queue `q` under options `o` yields.
pub open spec fn yielded<T>(q: Seq<Entry<T>>, o: Options) -> Seq<Entry<T>> {
    kept(traversal(q, o.files_before_directories), o)
}

pub proof fn lemma_forest_single<T>(f: File<T>, d: int)
    ensures
        forest_nodes(seq![f], d) == forest_nodes(children_of(f), d + 1).insert((f, d)),
{
    let s = seq![f];
    assert(s.drop_first() =~= Seq::<File<T>>::empty());
    assert(s[0] == f);
    assert(forest_nodes(s.drop_first(), d) == Multiset::<Entry<T>>::empty());
    let below = match f.file_type {
        FileType::Directory(children) => forest_nodes(children@, d + 1),
        _ => Multiset::empty(),
    };
    assert(below == forest_nodes(children_of(f), d + 1));
    assert(forest_nodes(s, d) == below.insert((f, d)).add(forest_nodes(s.drop_first(), d)));
    assert(forest_nodes(s, d) =~= forest_nodes(children_of(f), d + 1).insert((f, d)));
}

pub proof fn lemma_queue_nodes_add<T>(a: Seq<Entry<T>>, b: Seq<Entry<T>>)
    ensures
        queue_nodes(a + b) == queue_nodes(a).add(queue_nodes(b)),
    decreases a.len(),
{
    if a.len() == 0 {
        assert(a + b =~= b);
        assert(queue_nodes(a + b) =~= queue_nodes(a).add(queue_nodes(b)));
    } else {
        assert((a + b).drop_first() =~= a.drop_first() + b);
        lemma_queue_nodes_add(a.drop_first(), b);
        assert(queue_nodes(a + b) =~= queue_nodes(a).add(queue_nodes(b)));
    }
}

pub proof fn lemma_queue_nodes_single<T>(e: Entry<T>)
    ensures
        queue_nodes(seq![e]) == forest_nodes(children_of(e.0), e.1 + 1).insert(e),
{
    let q = seq![e];
    assert(q.drop_first() =~= Seq::<Entry<T>>::empty());
    assert(q[0] == e);
    assert(queue_nodes(q.drop_first()) == Multiset::<Entry<T>>::empty());
    lemma_forest_single(e.0, e.1);
    assert(queue_nodes(q) == forest_nodes(seq![e.0], e.1).add(queue_nodes(q.drop_first())));
    assert(queue_nodes(seq![e]) =~= forest_nodes(children_of(e.0), e.1 + 1).insert(e));
}

/// Splitting children between the two ends of the queue loses none of them.
pub proof fn lemma_parts_nodes<T>(s: Seq<File<T>>, d: int)
    ensures
        queue_nodes(front_part(s, d)).add(queue_nodes(back_part(s, d))) == forest_nodes(s, d),
    decreases s.len(),
{
    if s.len() == 0 {
        assert(queue_nodes(front_part(s, d)).add(queue_nodes(back_part(s, d))) =~= forest_nodes(s, d));
    } else {
        let f = s[0];
        lemma_parts_nodes(s.drop_first(), d);
        lemma_queue_nodes_single((f, d));
        lemma_forest_single(f, d);
        let fr = front_part(s.drop_first(), d);
        let bk = back_part(s.drop_first(), d);
        if f.file_type is Directory {
            lemma_queue_nodes_add(Seq::empty(), fr);
            assert(Seq::<Entry<T>>::empty() + fr =~= fr);
            lemma_queue_nodes_add(bk, seq![(f, d)]);
        } else {
            lemma_queue_nodes_add(seq![(f, d)], fr);
            lemma_queue_nodes_add(bk, Seq::empty());
            assert(bk + Seq::<Entry<T>>::empty() =~= bk);
        }
        assert(queue_nodes(front_part(s, d)).add(queue_nodes(back_part(s, d))) =~= forest_nodes(s, d));
    }
}

/// One step takes exactly the popped entry out of the nodes still to visit.
pub proof fn lemma_step_nodes<T>(q: Seq<Entry<T>>, files_first: bool)
    requires
        q.len() > 0,
    ensures
        queue_nodes(q) == queue_nodes(after_pop(q, files_first)).insert(popped(q, files_first)),
        queue_nodes(after_pop(q, files_first)).len() < queue_nodes(q).len(),
{
    let e = popped(q, files_first);
    let fr = front_part(children_of(e.0), e.1 + 1);
    let bk = back_part(children_of(e.0), e.1 + 1);
    let rest = if pops_front(q, files_first) {
        q.drop_first()
    } else {
        q.drop_last()
    };
    if pops_front(q, files_first) {
        assert(q =~= seq![e] + rest);
        lemma_queue_nodes_add(seq![e], rest);
    } else {
        assert(q =~= rest + seq![e]);
        lemma_queue_nodes_add(rest, seq![e]);
    }
    lemma_queue_nodes_single(e);
    lemma_parts_nodes(children_of(e.0), e.1 + 1);
    lemma_queue_nodes_add(fr + rest, bk);
    lemma_queue_nodes_add(fr, rest);
    assert(queue_nodes(q) =~= queue_nodes(after_pop(q, files_first)).insert(e));
}


/// One step of the traversal, unfolded.
pub proof fn lemma_traversal_step<T>(q: Seq<Entry<T>>, files_first: bool)
    requires
        q.len() > 0,
    ensures
        traversal(q, files_first) == seq![popped(q, files_first)] + traversal(
            after_pop(q, files_first),
            files_first,
        ),
{
}

/// Filtering a sequence that starts with `e`, unfolded.
pub proof fn lemma_kept_cons<T>(e: Entry<T>, t: Seq<Entry<T>>, o: Options)
    ensures
        kept(seq![e] + t, o) == if keeps(o, e) {
            seq![e] + kept(t, o)
        } else {
            kept(t, o)
        },
{
    let s = seq![e] + t;
    assert(s[0] == e);
    assert(s.drop_first() =~= t);
    if !keeps(o, e) {
        assert(Seq::<Entry<T>>::empty() + kept(t, o) =~= kept(t, o));
    }
}


/// The traversal from any queue pops every node of it exactly once, with its
/// depth, whichever end it favours.
pub proof fn lemma_traversal_nodes<T>(q: Seq<Entry<T>>, files_first: bool)
    ensures
        traversal(q, files_first).to_multiset() == queue_nodes(q),
    decreases queue_nodes(q).len(),
{
    if q.len() == 0 {
        assert(traversal(q, files_first).to_multiset() =~= queue_nodes(q));
    } else {
        let e = popped(q, files_first);
        let q2 = after_pop(q, files_first);
        lemma_step_nodes(q, files_first);
        lemma_traversal_nodes(q2, files_first);
        let t = traversal(q2, files_first);
        vstd::seq_lib::lemma_multiset_commutative(seq![e], t);
        assert(seq![e] =~= Seq::<Entry<T>>::empty().push(e));
        assert(seq![e].to_multiset() =~= Multiset::<Entry<T>>::empty().insert(e));
        assert(traversal(q, files_first).to_multiset() =~= queue_nodes(q));
    }
}

/// Every node below a forest whose roots lie at depth `d` lies at a depth
/// from `d` to `d + forest_height(s)`, the latter excluded.
pub proof fn lemma_forest_depths<T>(s: Seq<File<T>>, d: int, x: Entry<T>)
    requires
        forest_nodes(s, d).count(x) > 0,
    ensures
        d <= x.1 < d + forest_height(s),
    decreases s,
{
    let first = s[0];
    lemma_child_height(s, 0);
    if forest_nodes(s.drop_first(), d).count(x) > 0 {
        lemma_forest_depths(s.drop_first(), d, x);
    } else if x != (first, d) {
        match first.file_type {
            FileType::Directory(children) => {
                lemma_forest_depths(children@, d + 1, x);
            },
            _ => {},
        }
    }
}

/// A filter that lets every entry through leaves the sequence as it is.
pub proof fn lemma_kept_all<T>(s: Seq<Entry<T>>, o: Options)
    requires
        forall|i: int| 0 <= i < s.len() ==> keeps(o, #[trigger] s[i]),
    ensures
        kept(s, o) == s,
    decreases s.len(),
{
    if s.len() > 0 {
        lemma_kept_all(s.drop_first(), o);
        lemma_kept_cons(s[0], s.drop_first(), o);
        assert(s =~= seq![s[0]] + s.drop_first());
    }
}

/// Filtering twice, first with a looser filter, is filtering once.
pub proof fn lemma_kept_twice<T>(s: Seq<Entry<T>>, loose: Options, strict: Options)
    requires
        forall|e: Entry<T>| keeps(strict, e) ==> keeps(loose, e),
    ensures
        kept(kept(s, loose), strict) == kept(s, strict),
    decreases s.len(),
{
    if s.len() > 0 {
        let t = s.drop_first();
        assert(s =~= seq![s[0]] + t);
        lemma_kept_cons(s[0], t, loose);
        lemma_kept_cons(s[0], t, strict);
        lemma_kept_twice(t, loose, strict);
        if keeps(loose, s[0]) {
            lemma_kept_cons(s[0], kept(t, loose), strict);
        }
    }
}

/// How often a filtered sequence holds an entry.
pub proof fn lemma_kept_count<T>(s: Seq<Entry<T>>, o: Options, x: Entry<T>)
    ensures
        kept(s, o).to_multiset().count(x) == if keeps(o, x) {
            s.to_multiset().count(x)
        } else {
            0
        },
    decreases s.len(),
{
    if s.len() == 0 {
        assert(kept(s, o) =~= Seq::<Entry<T>>::empty());
    } else {
        let t = s.drop_first();
        assert(s =~= seq![s[0]] + t);
        lemma_kept_cons(s[0], t, o);
        lemma_kept_count(t, o, x);
        vstd::seq_lib::lemma_multiset_commutative(seq![s[0]], t);
        vstd::seq_lib::lemma_multiset_commutative(seq![s[0]], kept(t, o));
        assert(seq![s[0]] =~= Seq::<Entry<T>>::empty().push(s[0]));
        assert(seq![s[0]].to_multiset() =~= Multiset::<Entry<T>>::empty().insert(s[0]));
    }
}

/// With no filter and every depth allowed, the traversal from a root yields
/// every node of its tree exactly once, with its depth, in either order.
pub proof fn lemma_complete<T>(root: File<T>, files_first: bool)
    requires
        height(root) <= usize::MAX,
    ensures
        yielded(
            seq![(root, 0int)],
            Options { files_before_directories: files_first, ..default_options() },
        ).to_multiset() == forest_nodes(seq![root], 0),
{
    lemma_unfiltered_from_root(root, files_first);
}

/// From a root whose depths fit, the options with no filter let every entry
/// of the traversal through.
proof fn lemma_unfiltered_from_root<T>(root: File<T>, files_first: bool)
    requires
        height(root) <= usize::MAX,
    ensures
        yielded(
            seq![(root, 0int)],
            Options { files_before_directories: files_first, ..default_options() },
        ) == traversal(seq![(root, 0int)], files_first),
        traversal(seq![(root, 0int)], files_first).to_multiset() == forest_nodes(seq![root], 0),
{
    let q = seq![(root, 0int)];
    let o = Options { files_before_directories: files_first, ..default_options() };
    let t = traversal(q, files_first);
    lemma_traversal_nodes(q, files_first);
    assert(q.drop_first() =~= Seq::<Entry<T>>::empty());
    assert(q[0] == (root, 0int));
    assert(queue_nodes(q.drop_first()) == Multiset::<Entry<T>>::empty());
    assert(queue_nodes(q) =~= forest_nodes(seq![root], 0));
    let r = seq![root];
    assert(r.drop_first() =~= Seq::<File<T>>::empty());
    assert(r[0] == root);
    assert(forest_height(r.drop_first()) == 0);
    let below: nat = match root.file_type {
        FileType::Directory(children) => forest_height(children@),
        _ => 0,
    };
    assert(below == height(root));
    assert(forest_height(r) == height(root) + 1);
    assert forall|i: int| 0 <= i < t.len() implies keeps(o, #[trigger] t[i]) by {
        vstd::seq_lib::to_multiset_contains(t, t[i]);
        assert(t.contains(t[i]));
        assert(t.to_multiset().count(t[i]) > 0);
        lemma_forest_depths(seq![root], 0, t[i]);
    }
    lemma_kept_all(t, o);
}

/// The two orders yield the same entries, as many times each, under any
/// options: only the order differs.
pub proof fn lemma_orders_same_nodes<T>(q: Seq<Entry<T>>, o: Options)
    ensures
        yielded(q, Options { files_before_directories: true, ..o }).to_multiset() == yielded(
            q,
            Options { files_before_directories: false, ..o },
        ).to_multiset(),
{
    let ot = Options { files_before_directories: true, ..o };
    let of = Options { files_before_directories: false, ..o };
    lemma_traversal_nodes(q, true);
    lemma_traversal_nodes(q, false);
    assert forall|x: Entry<T>|
        yielded(q, ot).to_multiset().count(x) == yielded(q, of).to_multiset().count(x) by {
        lemma_kept_count(traversal(q, true), ot, x);
        lemma_kept_count(traversal(q, false), of, x);
    }
    assert(yielded(q, ot).to_multiset() =~= yielded(q, of).to_multiset());
}

/// The type filters drop from the sequence yielded without them exactly the
/// entries of the skipped kinds, and keep the order of the rest.
pub proof fn lemma_type_filters<T>(q: Seq<Entry<T>>, o: Options)
    ensures
        yielded(q, o) == kept(
            yielded(q, Options { skip_dirs: false, skip_regular_files: false, skip_symlinks: false, ..o }),
            o,
        ),
{
    let loose = Options { skip_dirs: false, skip_regular_files: false, skip_symlinks: false, ..o };
    lemma_kept_twice(traversal(q, o.files_before_directories), loose, o);
}

/// Depth bounds `[a, b]` keep exactly the entries, among those yielded with
/// every depth allowed, whose depth lies in `[a, b]`, in the same order.
pub proof fn lemma_depth_bounds<T>(q: Seq<Entry<T>>, o: Options, a: usize, b: usize)
    ensures
        yielded(q, Options { min_depth: a, max_depth: b, ..o }) == kept(
            yielded(q, Options { min_depth: 0, max_depth: usize::MAX, ..o }),
            Options { min_depth: a, max_depth: b, ..o },
        ),
        forall|i: int|
            0 <= i < yielded(q, Options { min_depth: a, max_depth: b, ..o }).len() ==> a <= (
            #[trigger] yielded(q, Options { min_depth: a, max_depth: b, ..o })[i]).1 <= b,
{
    let strict = Options { min_depth: a, max_depth: b, ..o };
    let loose = Options { min_depth: 0, max_depth: usize::MAX, ..o };
    lemma_kept_twice(traversal(q, o.files_before_directories), loose, strict);
    lemma_kept_keeps(traversal(q, o.files_before_directories), strict);
}

/// Every entry that a filter lets through passes it.
pub proof fn lemma_kept_keeps<T>(s: Seq<Entry<T>>, o: Options)
    ensures
        forall|i: int| 0 <= i < kept(s, o).len() ==> keeps(o, #[trigger] kept(s, o)[i]),
    decreases s.len(),
{
    if s.len() > 0 {
        let t = s.drop_first();
        assert(s =~= seq![s[0]] + t);
        lemma_kept_cons(s[0], t, o);
        lemma_kept_keeps(t, o);
        assert forall|i: int| 0 <= i < kept(s, o).len() implies keeps(o, #[trigger] kept(s, o)[i]) by {
            if keeps(o, s[0]) && i > 0 {
                assert(kept(s, o)[i] == kept(t, o)[i - 1]);
            }
        }
    }
}


/// The shape of the queue when files come first: the entries that are not
/// directories stand before the directories, all at depth `m + 1`; the
/// directories lie at depth `m` or `m + 1`, shallower ones first.
pub open spec fn files_first_shape<T>(q: Seq<Entry<T>>, m: int) -> bool {
    &&& forall|i: int, j: int|
        0 <= i < j < q.len() && (#[trigger] q[i]).0.file_type is Directory ==> (
        #[trigger] q[j]).0.file_type is Directory && q[i].1 <= q[j].1
    &&& forall|i: int|
        0 <= i < q.len() ==> if (#[trigger] q[i]).0.file_type is Directory {
            m <= q[i].1 <= m + 1
        } else {
            q[i].1 == m + 1
        }
}

proof fn lemma_front_part_entries<T>(s: Seq<File<T>>, d: int)
    ensures
        forall|i: int|
            0 <= i < front_part(s, d).len() ==> !((#[trigger] front_part(s, d)[i]).0.file_type is Directory)
                && front_part(s, d)[i].1 == d,
    decreases s.len(),
{
    if s.len() > 0 {
        lemma_front_part_entries(s.drop_first(), d);
    }
}

proof fn lemma_back_part_entries<T>(s: Seq<File<T>>, d: int)
    ensures
        forall|i: int|
            0 <= i < back_part(s, d).len() ==> (#[trigger] back_part(s, d)[i]).0.file_type is Directory
                && back_part(s, d)[i].1 == d,
    decreases s.len(),
{
    if s.len() > 0 {
        lemma_back_part_entries(s.drop_first(), d);
    }
}

proof fn lemma_files_first_step<T>(q: Seq<Entry<T>>, m: int)
    requires
        q.len() > 0,
        files_first_shape(q, m),
    ensures
        files_first_shape(
            after_pop(q, true),
            if q[0].0.file_type is Directory {
                q[0].1
            } else {
                m
            },
        ),
        forall|i: int|
            0 <= i < after_pop(q, true).len() ==> (#[trigger] after_pop(q, true)[i]).1 <= q[0].1
                + 1,
{
    let e = q[0];
    let fr = front_part(children_of(e.0), e.1 + 1);
    let bk = back_part(children_of(e.0), e.1 + 1);
    let rest = q.drop_first();
    let q2 = after_pop(q, true);
    assert(q2 == fr + rest + bk);
    if !(e.0.file_type is Directory) {
        assert(children_of(e.0) =~= Seq::<File<T>>::empty());
        assert(fr =~= Seq::<Entry<T>>::empty());
        assert(bk =~= Seq::<Entry<T>>::empty());
        assert(q2 =~= rest);
        assert forall|i: int| 0 <= i < rest.len() implies (#[trigger] rest[i]).1 <= e.1 + 1 by {
            assert(rest[i] == q[i + 1]);
        }
    } else {
        let d = e.1;
        lemma_front_part_entries(children_of(e.0), d + 1);
        lemma_back_part_entries(children_of(e.0), d + 1);
        assert forall|i: int| 0 <= i < rest.len() implies (#[trigger] rest[i]).0.file_type is Directory
            && d <= rest[i].1 <= d + 1 by {
            assert(rest[i] == q[i + 1]);
        }
        assert forall|i: int, j: int|
            0 <= i < j < rest.len() implies (#[trigger] rest[i]).1 <= (#[trigger] rest[j]).1 by {
            assert(rest[i] == q[i + 1]);
            assert(rest[j] == q[j + 1]);
        }
        let a = fr.len();
        let b = fr.len() + rest.len();
        assert forall|i: int| 0 <= i < q2.len() implies if (#[trigger] q2[i]).0.file_type is Directory {
            d <= q2[i].1 <= d + 1
        } else {
            q2[i].1 == d + 1
        } by {
            if i < a {
                assert(q2[i] == fr[i]);
            } else if i < b {
                assert(q2[i] == rest[i - a]);
            } else {
                assert(q2[i] == bk[i - b]);
            }
        }
        assert forall|i: int, j: int|
            0 <= i < j < q2.len() && (#[trigger] q2[i]).0.file_type is Directory implies (
            #[trigger] q2[j]).0.file_type is Directory && q2[i].1 <= q2[j].1 by {
            if i < a {
                assert(q2[i] == fr[i]);
            } else if i < b {
                assert(q2[i] == rest[i - a]);
                if j < b {
                    assert(q2[j] == rest[j - a]);
                } else {
                    assert(q2[j] == bk[j - b]);
                }
            } else {
                assert(q2[i] == bk[i - b]);
                assert(q2[j] == bk[j - b]);
            }
        }
    }
}

proof fn lemma_files_first_traversal<T>(q: Seq<Entry<T>>, m: int)
    requires
        files_first_shape(q, m),
    ensures
        forall|i: int|
            0 <= i < traversal(q, true).len() - 1 ==> (#[trigger] traversal(q, true)[i + 1]).1
                <= traversal(q, true)[i].1 + 1,
    decreases queue_nodes(q).len(),
{
    if q.len() > 0 {
        let e = q[0];
        let q2 = after_pop(q, true);
        let m2 = if e.0.file_type is Directory {
            e.1
        } else {
            m
        };
        lemma_step_nodes(q, true);
        lemma_traversal_step(q, true);
        lemma_files_first_step(q, m);
        lemma_files_first_traversal(q2, m2);
        let t = traversal(q, true);
        let t2 = traversal(q2, true);
        if q2.len() > 0 {
            lemma_traversal_step(q2, true);
            assert(t2[0] == q2[0]);
        }
        assert forall|i: int| 0 <= i < t.len() - 1 implies (#[trigger] t[i + 1]).1 <= t[i].1 + 1 by {
            assert(t[0] == e);
            if i == 0 {
                assert(t[1] == t2[0]);
                assert(q2[0] == after_pop(q, true)[0]);
                assert(q2[0].1 <= e.1 + 1);
            } else {
                let k = i - 1;
                assert(t[i] == t2[k]);
                assert(t[i + 1] == t2[k + 1]);
                assert(t2[k + 1].1 <= t2[k].1 + 1);
            }
        }
    }
}

/// Each entry lies at most one level deeper than the one before it.
pub open spec fn deepens_by_at_most_one<T>(s: Seq<Entry<T>>) -> bool {
    forall|i: int| 0 <= i < s.len() - 1 ==> (#[trigger] s[i + 1]).1 <= s[i].1 + 1
}

/// No filter on the kind of node.
pub open spec fn no_type_filter(o: Options) -> bool {
    !o.skip_dirs && !o.skip_regular_files && !o.skip_symlinks
}

/// After an entry kept at depth `c`, the next entry kept lies at most at
/// depth `c + 1`: to climb higher the sequence would pass through depth
/// `c + 1`, which the depth bounds keep.
proof fn lemma_next_kept_depth<T>(s: Seq<Entry<T>>, o: Options, c: int)
    requires
        deepens_by_at_most_one(s),
        s.len() > 0,
        no_type_filter(o),
        o.min_depth <= c <= o.max_depth,
        s[0].1 <= c + 1 || (s[0].1 > o.max_depth && c == o.max_depth),
    ensures
        kept(s, o).len() > 0 ==> kept(s, o)[0].1 <= c + 1,
    decreases s.len(),
{
    let t = s.drop_first();
    assert(s =~= seq![s[0]] + t);
    lemma_kept_cons(s[0], t, o);
    if !keeps(o, s[0]) && t.len() > 0 {
        assert(t[0] == s[1]);
        assert(s[0int + 1].1 <= s[0].1 + 1);
        assert forall|i: int| 0 <= i < t.len() - 1 implies (#[trigger] t[i + 1]).1 <= t[i].1 + 1 by {
            assert(t[i] == s[i + 1]);
            assert(t[i + 1] == s[(i + 1) + 1]);
        }
        lemma_next_kept_depth(t, o, c);
    }
}

/// Depth bounds keep the property that depths climb by at most one.
pub proof fn lemma_kept_deepens<T>(s: Seq<Entry<T>>, o: Options)
    requires
        deepens_by_at_most_one(s),
        no_type_filter(o),
    ensures
        deepens_by_at_most_one(kept(s, o)),
    decreases s.len(),
{
    if s.len() > 0 {
        let t = s.drop_first();
        assert(s =~= seq![s[0]] + t);
        lemma_kept_cons(s[0], t, o);
        assert forall|i: int| 0 <= i < t.len() - 1 implies (#[trigger] t[i + 1]).1 <= t[i].1 + 1 by {
            assert(t[i] == s[i + 1]);
            assert(t[i + 1] == s[(i + 1) + 1]);
        }
        lemma_kept_deepens(t, o);
        if keeps(o, s[0]) {
            let k = kept(t, o);
            let r = seq![s[0]] + k;
            if t.len() > 0 {
                assert(t[0] == s[1]);
                assert(s[0int + 1].1 <= s[0].1 + 1);
                lemma_next_kept_depth(t, o, s[0].1);
            }
            assert forall|i: int| 0 <= i < r.len() - 1 implies (#[trigger] r[i + 1]).1 <= r[i].1 + 1 by {
                if i == 0 {
                    assert(r[1] == k[0]);
                } else {
                    let j = i - 1;
                    assert(r[i] == k[j]);
                    assert(r[i + 1] == k[j + 1]);
                }
            }
        }
    }
}

/// With files first and no filter on the kind of node, each node yielded
/// lies at most one level deeper than the one before it, whatever the depth
/// bounds.
pub proof fn lemma_files_first_depth_steps<T>(root: File<T>, o: Options)
    requires
        o.files_before_directories,
        no_type_filter(o),
    ensures
        deepens_by_at_most_one(yielded(seq![(root, 0int)], o)),
{
    let q = seq![(root, 0int)];
    assert(files_first_shape(q, -1));
    lemma_files_first_traversal(q, -1);
    lemma_kept_deepens(traversal(q, true), o);
}

} // verus!
