use vstd::prelude::*;

verus! {

/// Kind of a pending traversal item. Directories are grouped before files.
#[derive(PartialEq, Eq, Structural, Clone, Copy, Debug)]
pub enum DirEntryType {
    File,
    Dir,
}

impl DirEntryType {
    /// Discriminator used when grouping a batch of children: directories first.
    pub fn is_dir(&self) -> (r: bool)
        ensures
            r == (*self == DirEntryType::Dir),
    {
        match self {
            DirEntryType::Dir => true,
            DirEntryType::File => false,
        }
    }
}

/// One entry of a directory listing, as the filesystem reported it: its bare
/// name and its kind, or `None` when the kind could not be determined or the
/// entry is neither a directory nor a regular file.
pub struct Listed {
    pub name: String,
    pub kind: Option<DirEntryType>,
}

/// Mathematical value of a pending traversal item.
pub struct PendingEntry {
    /// 1-based nesting level at which the item is visited.
    pub depth: nat,
    pub kind: DirEntryType,
    pub name: Seq<char>,
}

/// Mathematical value of the walker.
pub struct WalkModel {
    pub root: Seq<char>,
    /// The reserved metadata filename, never reported nor descended into.
    pub reserved: Seq<char>,
    /// Components appended beyond the root; the first is the root's empty name.
    pub path: Seq<Seq<char>>,
    /// The traversal frontier, top of the stack last.
    pub pending: Seq<PendingEntry>,
    /// True right after a directory was chosen and before its listing came.
    pub listing_due: bool,
}

/// Whether a listed entry takes part in the walk as a child of the given kind.
pub open spec fn keeps(l: Listed, reserved: Seq<char>, kind: DirEntryType) -> bool {
    l.name@ != reserved && l.kind == Some(kind)
}

/// Names of the regular-file children, in listing order.
pub open spec fn file_children(ls: Seq<Listed>, reserved: Seq<char>) -> Seq<Seq<char>>
    decreases ls.len(),
{
    if ls.len() == 0 {
        Seq::empty()
    } else {
        let rest = file_children(ls.drop_last(), reserved);
        if keeps(ls.last(), reserved, DirEntryType::File) {
            rest.push(ls.last().name@)
        } else {
            rest
        }
    }
}

/// Names of the subdirectory children, in listing order.
pub open spec fn dir_children(ls: Seq<Listed>, reserved: Seq<char>) -> Seq<Seq<char>>
    decreases ls.len(),
{
    if ls.len() == 0 {
        Seq::empty()
    } else {
        let rest = dir_children(ls.drop_last(), reserved);
        if keeps(ls.last(), reserved, DirEntryType::Dir) {
            rest.push(ls.last().name@)
        } else {
            rest
        }
    }
}

/// Pending items for the given names, all at one depth and of one kind, in the
/// order of the names.
pub open spec fn entries_of(names: Seq<Seq<char>>, depth: nat, kind: DirEntryType) -> Seq<PendingEntry> {
    names.map_values(|n: Seq<char>| PendingEntry { depth, kind, name: n })
}

/// The batch that expanding a directory at `depth` pushes: its subdirectories,
/// the first listed on top of them so that it is visited first, then its files.
pub open spec fn child_batch(ls: Seq<Listed>, reserved: Seq<char>, depth: nat) -> Seq<PendingEntry> {
    entries_of(dir_children(ls, reserved).reverse(), depth + 1, DirEntryType::Dir)
        + entries_of(file_children(ls, reserved), depth + 1, DirEntryType::File)
}

/// Index of the topmost directory item of a stack, if any.
pub open spec fn top_dir(p: Seq<PendingEntry>) -> Option<nat>
    decreases p.len(),
{
    if p.len() == 0 {
        None
    } else if p.last().kind == DirEntryType::Dir {
        Some((p.len() - 1) as nat)
    } else {
        top_dir(p.drop_last())
    }
}

impl WalkModel {
    /// The walker as created over a root directory.
    pub open spec fn initial(root: Seq<char>, reserved: Seq<char>) -> WalkModel {
        WalkModel {
            root,
            reserved,
            path: Seq::empty(),
            pending: seq![PendingEntry { depth: 1, kind: DirEntryType::Dir, name: Seq::empty() }],
            listing_due: false,
        }
    }

    /// Depth of the current path.
    pub open spec fn depth(self) -> nat {
        self.path.len()
    }

    /// Choosing the next directory: the walker after the step, and the depth of
    /// the directory chosen, or `None` at the end of the walk.
    pub open spec fn advance(self) -> (WalkModel, Option<nat>) {
        match top_dir(self.pending) {
            None => (WalkModel { pending: Seq::empty(), listing_due: false, ..self }, None),
            Some(i) => {
                let e = self.pending[i as int];
                (
                    WalkModel {
                        path: self.path.subrange(0, e.depth - 1).push(e.name),
                        pending: self.pending.subrange(0, i as int),
                        listing_due: true,
                        ..self
                    },
                    Some(e.depth),
                )
            },
        }
    }

    /// Recording the listing of the chosen directory. Without a directory
    /// awaiting its listing nothing changes.
    pub open spec fn expand(self, ls: Seq<Listed>) -> WalkModel {
        if self.listing_due {
            WalkModel {
                pending: self.pending + child_batch(ls, self.reserved, self.depth()),
                listing_due: false,
                ..self
            }
        } else {
            self
        }
    }

    /// What expanding reports: the chosen directory's files.
    pub open spec fn expand_files(self, ls: Seq<Listed>) -> Seq<Seq<char>> {
        if self.listing_due {
            file_children(ls, self.reserved)
        } else {
            Seq::empty()
        }
    }

    /// The walker's invariant.
    pub open spec fn wf(self) -> bool {
        &&& forall|i: int| 0 <= i < self.pending.len() ==> 1 <= #[trigger] self.pending[i].depth
        &&& forall|i: int, j: int| 0 <= i < j < self.pending.len()
            ==> self.pending[i].depth <= self.pending[j].depth
        &&& forall|i: int| 0 <= i < self.pending.len()
            ==> #[trigger] self.pending[i].depth <= self.depth() + 1
        &&& forall|i: int| 0 <= i < self.pending.len() && #[trigger] self.pending[i].depth > 1
            ==> self.pending[i].name != self.reserved
        &&& forall|k: int| 1 <= k < self.path.len() ==> #[trigger] self.path[k] != self.reserved
        &&& self.listing_due ==> self.depth() >= 1
    }
}

/// Where the topmost directory of a stack stands: everything above it is a
/// file; with none, the whole stack is files.
pub proof fn lemma_top_dir(p: Seq<PendingEntry>)
    ensures
        match top_dir(p) {
            Some(i) => {
                &&& i < p.len()
                &&& p[i as int].kind == DirEntryType::Dir
                &&& forall|j: int| i < j < p.len() ==> #[trigger] p[j].kind == DirEntryType::File
            },
            None => forall|j: int| 0 <= j < p.len() ==> #[trigger] p[j].kind == DirEntryType::File,
        },
    decreases p.len(),
{
    if p.len() > 0 {
        lemma_top_dir(p.drop_last());
        assert forall|j: int| 0 <= j < p.len() - 1 implies p.drop_last()[j] == p[j] by {}
    }
}

/// No child kept from a listing carries the reserved name.
pub proof fn lemma_children_not_reserved(ls: Seq<Listed>, reserved: Seq<char>)
    ensures
        forall|k: int| 0 <= k < file_children(ls, reserved).len()
            ==> #[trigger] file_children(ls, reserved)[k] != reserved,
        forall|k: int| 0 <= k < dir_children(ls, reserved).len()
            ==> #[trigger] dir_children(ls, reserved)[k] != reserved,
    decreases ls.len(),
{
    if ls.len() > 0 {
        lemma_children_not_reserved(ls.drop_last(), reserved);
        let files = file_children(ls.drop_last(), reserved);
        let dirs = dir_children(ls.drop_last(), reserved);
        assert forall|k: int| 0 <= k < file_children(ls, reserved).len() implies #[trigger] file_children(
            ls,
            reserved,
        )[k] != reserved by {
            if k < files.len() {
                assert(file_children(ls, reserved)[k] == files[k]);
            }
        }
        assert forall|k: int| 0 <= k < dir_children(ls, reserved).len() implies #[trigger] dir_children(
            ls,
            reserved,
        )[k] != reserved by {
            if k < dirs.len() {
                assert(dir_children(ls, reserved)[k] == dirs[k]);
            }
        }
    }
}

/// Choosing the next directory keeps the invariant.
pub proof fn lemma_advance_wf(m: WalkModel)
    requires
        m.wf(),
    ensures
        m.advance().0.wf(),
{
    lemma_top_dir(m.pending);
    let m2 = m.advance().0;
    match top_dir(m.pending) {
        None => {},
        Some(i) => {
            let e = m.pending[i as int];
            assert forall|k: int| 1 <= k < m2.path.len() implies #[trigger] m2.path[k] != m2.reserved by {
                if k < e.depth - 1 {
                    assert(m2.path[k] == m.path[k]);
                }
            }
            assert forall|a: int| 0 <= a < m2.pending.len() implies #[trigger] m2.pending[a].depth
                <= m2.depth() + 1 by {
                assert(m2.pending[a] == m.pending[a]);
            }
        },
    }
}

/// Recording a listing keeps the invariant.
pub proof fn lemma_expand_wf(m: WalkModel, ls: Seq<Listed>)
    requires
        m.wf(),
    ensures
        m.expand(ls).wf(),
{
    if m.listing_due {
        lemma_children_not_reserved(ls, m.reserved);
        let m2 = m.expand(ls);
        let n = m.pending.len();
        let dirs = dir_children(ls, m.reserved).reverse();
        let files = file_children(ls, m.reserved);
        let b = child_batch(ls, m.reserved, m.depth());
        assert forall|i: int| n <= i < m2.pending.len() implies #[trigger] m2.pending[i]
            == b[i - n] && b[i - n].depth == m.depth() + 1 && b[i - n].name != m.reserved by {
            if i - n < dirs.len() {
                assert(dirs[i - n] == dir_children(ls, m.reserved)[dirs.len() - 1 - (i - n)]);
            }
        }
    }
}

} // verus!
