use vstd::prelude::*;
use crate::model::{
    child_batch, dir_children, entries_of, file_children, lemma_advance_wf, lemma_children_not_reserved,
    lemma_expand_wf, lemma_top_dir, top_dir, DirEntryType, Listed, PendingEntry, WalkModel,
};

verus! {

/// The topmost directory of a stack is the directory above which only files lie.
proof fn lemma_top_dir_at(p: Seq<PendingEntry>, i: int)
    requires
        0 <= i < p.len(),
        p[i].kind == DirEntryType::Dir,
        forall|j: int| i < j < p.len() ==> #[trigger] p[j].kind == DirEntryType::File,
    ensures
        top_dir(p) == Some(i as nat),
{
    lemma_top_dir(p);
}

/// The root is the first directory visited: at depth 1, with the path still
/// at the root.
pub proof fn lemma_root_first(root: Seq<char>, reserved: Seq<char>)
    ensures
        WalkModel::initial(root, reserved).advance().1 == Some(1nat),
        WalkModel::initial(root, reserved).advance().0.path == seq![Seq::<char>::empty()],
        WalkModel::initial(root, reserved).advance().0.depth() == 1,
{
    let m = WalkModel::initial(root, reserved);
    lemma_top_dir_at(m.pending, 0);
    assert(m.advance().0.path =~= seq![Seq::<char>::empty()]);
}

/// Every visit is at depth 1 or more, that depth is the length of the
/// visited path, and the visited path keeps the part of the previous path
/// above it.
pub proof fn lemma_visit_depth(m: WalkModel)
    requires
        m.wf(),
    ensures
        m.advance().1 matches Some(d) ==> {
            &&& d >= 1
            &&& m.advance().0.depth() == d
            &&& m.advance().0.path.subrange(0, d - 1) == m.path.subrange(0, d - 1)
        },
{
    lemma_top_dir(m.pending);
    if let Some(d) = m.advance().1 {
        assert(m.advance().0.path.subrange(0, d - 1) =~= m.path.subrange(0, d - 1));
    }
}

/// Descent goes one level at a time: after a directory is expanded with a
/// listing that holds subdirectories, the next step visits the first listed
/// one, at the directory's depth plus one, under the directory's own path.
pub proof fn lemma_descent_one_deeper(m: WalkModel, ls: Seq<Listed>)
    requires
        m.wf(),
        m.listing_due,
        dir_children(ls, m.reserved).len() > 0,
    ensures
        m.expand(ls).advance().1 == Some(m.depth() + 1),
        m.expand(ls).advance().0.path == m.path.push(dir_children(ls, m.reserved)[0]),
{
    let dirs = dir_children(ls, m.reserved);
    let files = file_children(ls, m.reserved);
    let dir_entries = entries_of(dirs.reverse(), m.depth() + 1, DirEntryType::Dir);
    let file_entries = entries_of(files, m.depth() + 1, DirEntryType::File);
    let p = m.expand(ls).pending;
    let i = m.pending.len() + dirs.len() - 1;
    assert(p == m.pending + dir_entries + file_entries);
    assert(p[i] == dir_entries[dirs.len() - 1]);
    assert forall|j: int| i < j < p.len() implies #[trigger] p[j].kind == DirEntryType::File by {
        assert(p[j] == file_entries[j - i - 1]);
    }
    lemma_top_dir_at(p, i);
    assert(m.expand(ls).advance().0.path =~= m.path.push(dirs[0]));
}

/// The reserved name is never reported among a directory's files, and no
/// directory below the root that is visited carries it.
pub proof fn lemma_reserved_excluded(m: WalkModel, ls: Seq<Listed>)
    requires
        m.wf(),
    ensures
        forall|k: int| 0 <= k < m.expand_files(ls).len() ==> #[trigger] m.expand_files(ls)[k] != m.reserved,
        m.advance().1 matches Some(d) && d > 1 ==> m.advance().0.path.last() != m.reserved,
{
    lemma_children_not_reserved(ls, m.reserved);
    lemma_advance_wf(m);
    lemma_visit_depth(m);
}

/// Expanding a directory keeps each of its subdirectories on the frontier, in
/// listing order from the top, one level deeper than the directory; its files
/// lie above them.
pub proof fn lemma_subdirs_pending(m: WalkModel, ls: Seq<Listed>)
    requires
        m.listing_due,
    ensures
        m.expand(ls).pending == m.pending + child_batch(ls, m.reserved, m.depth()),
        forall|k: int| 0 <= k < dir_children(ls, m.reserved).len() ==> #[trigger] m.expand(ls).pending[
            m.pending.len() + dir_children(ls, m.reserved).len() - 1 - k
        ] == (PendingEntry { depth: m.depth() + 1, kind: DirEntryType::Dir, name: dir_children(ls, m.reserved)[k] }),
{
    let dirs = dir_children(ls, m.reserved);
    let dir_entries = entries_of(dirs.reverse(), m.depth() + 1, DirEntryType::Dir);
    assert forall|k: int| 0 <= k < dirs.len() implies #[trigger] m.expand(ls).pending[
        m.pending.len() + dirs.len() - 1 - k
    ] == (PendingEntry { depth: m.depth() + 1, kind: DirEntryType::Dir, name: dirs[k] }) by {
        assert(m.expand(ls).pending[m.pending.len() + dirs.len() - 1 - k] == dir_entries[dirs.len() - 1 - k]);
    }
}

/// Choosing the next directory only drops files from the frontier, besides
/// the directory it visits: so every pending directory is visited by a later
/// step.
pub proof fn lemma_advance_drops_only_files(m: WalkModel)
    ensures
        m.advance().0.pending == m.pending.subrange(0, m.advance().0.pending.len() as int),
        forall|i: int| m.advance().0.pending.len() <= i < m.pending.len() ==> {
            ||| #[trigger] m.pending[i].kind == DirEntryType::File
            ||| {
                &&& i == m.advance().0.pending.len()
                &&& m.advance().1 == Some(m.pending[i].depth)
                &&& m.advance().0.path.last() == m.pending[i].name
            }
        },
{
    lemma_top_dir(m.pending);
    assert(m.pending.subrange(0, m.pending.len() as int) =~= m.pending);
}

/// Once the walk is over it stays over: choosing again reports the end and
/// changes nothing, and no listing can be recorded.
pub proof fn lemma_end_absorbing(m: WalkModel, ls: Seq<Listed>)
    requires
        m.advance().1 is None,
    ensures
        m.advance().0.advance() == m.advance(),
        m.advance().0.expand(ls) == m.advance().0,
        m.advance().0.expand_files(ls) == Seq::<Seq<char>>::empty(),
{
}

/// A directory that cannot be read is recorded with an empty listing: it
/// reports no file and leaves the frontier as it was, so the walk goes on with
/// its siblings as if the directory had been empty.
pub proof fn lemma_unreadable_dir(m: WalkModel)
    requires
        m.listing_due,
    ensures
        m.expand_files(Seq::empty()) == Seq::<Seq<char>>::empty(),
        m.expand(Seq::empty()).pending == m.pending,
        m.expand(Seq::empty()).advance() == (WalkModel { listing_due: false, ..m }).advance(),
{
    assert(m.expand(Seq::empty()).pending =~= m.pending);
}

/// Every state that the walk reaches keeps the invariant.
pub proof fn lemma_steps_keep_wf(m: WalkModel, ls: Seq<Listed>)
    requires
        m.wf(),
    ensures
        m.advance().0.wf(),
        m.expand(ls).wf(),
        WalkModel::initial(m.root, m.reserved).wf(),
{
    lemma_advance_wf(m);
    lemma_expand_wf(m, ls);
}

} // verus!
