use vstd::prelude::*;
use crate::model::{
    child_batch, dir_children, entries_of, file_children, lemma_advance_wf, lemma_expand_wf, lemma_top_dir,
    top_dir, DirEntryType, Listed, PendingEntry, WalkModel,
};

verus! {

/// The names that a sequence of strings holds.
pub open spec fn names(v: Seq<String>) -> Seq<Seq<char>> {
    v.map_values(|s: String| s@)
}

/// The depth that an optional exec depth stands for.
pub open spec fn depth_of(r: Option<usize>) -> Option<nat> {
    match r {
        Some(d) => Some(d as nat),
        None => None,
    }
}

/// A pending traversal item: a directory to visit or a file already reported.
pub struct DirEntry {
    depth: usize,
    entry_type: DirEntryType,
    name: String,
}

impl View for DirEntry {
    type V = PendingEntry;

    closed spec fn view(&self) -> PendingEntry {
        PendingEntry { depth: self.depth as nat, kind: self.entry_type, name: self.name@ }
    }
}

impl DirEntry {
    /// The entry's bare filename.
    pub fn name(&self) -> (r: &str)
        ensures
            r@ == self@.name,
    {
        self.name.as_str()
    }

    /// The depth at which the entry is visited.
    pub fn depth(&self) -> (r: usize)
        ensures
            r as nat == self@.depth,
    {
        self.depth
    }

    /// Whether the entry is a directory or a file.
    pub fn entry_type(&self) -> (r: DirEntryType)
        ensures
            r == self@.kind,
    {
        self.entry_type
    }
}

/// Why a walker could not be created.
#[derive(PartialEq, Eq, Debug)]
pub enum Error {
    /// The root is not an existing directory.
    InvalidPath(String),
}

/// Depth-first walker over a directory tree.
pub struct WalkDirectories {
    root: String,
    reserved: String,
    cur_path: Vec<String>,
    stack: Vec<DirEntry>,
    cur_depth: usize,
    listing_due: bool,
}

impl View for WalkDirectories {
    type V = WalkModel;

    closed spec fn view(&self) -> WalkModel {
        WalkModel {
            root: self.root@,
            reserved: self.reserved@,
            path: names(self.cur_path@),
            pending: self.stack@.map_values(|e: DirEntry| e@),
            listing_due: self.listing_due,
        }
    }
}

impl WalkDirectories {
    /// Well-formedness: the depth counter matches the path, and the model's
    /// invariant holds.
    pub closed spec fn inv(&self) -> bool {
        &&& self.cur_depth == self.cur_path.len()
        &&& self@.wf()
    }

    /// Creates a walker over `dirpath`, whose directory status the caller has
    /// queried. Entries named `reserved` are never reported nor descended into.
    pub fn from(dirpath: String, root_is_dir: bool, reserved: String) -> (r: Result<Self, Error>)
        ensures
            r is Err <==> !root_is_dir,
            r matches Err(e) ==> e == Error::InvalidPath(dirpath),
            r matches Ok(w) ==> w.inv() && w@ == WalkModel::initial(dirpath@, reserved@),
    {
        if !root_is_dir {
            return Err(Error::InvalidPath(dirpath));
        }
        let mut stack: Vec<DirEntry> = Vec::new();
        stack.push(DirEntry { depth: 1, entry_type: DirEntryType::Dir, name: String::new() });
        let w = WalkDirectories {
            root: dirpath,
            reserved,
            cur_path: Vec::new(),
            stack,
            cur_depth: 0,
            listing_due: false,
        };
        assert(w@.path =~= Seq::<Seq<char>>::empty());
        assert(w@.pending =~= WalkModel::initial(dirpath@, reserved@).pending);
        Ok(w)
    }

    /// Moves to the next directory of the walk and returns its depth, or
    /// `None` once the walk is over (and on every later call). Files left on
    /// the stack, already reported, are dropped on the way.
    pub fn advance(&mut self) -> (r: Option<usize>)
        requires
            old(self).inv(),
        ensures
            final(self).inv(),
            final(self)@ == old(self)@.advance().0,
            depth_of(r) == old(self)@.advance().1,
    {
        proof {
            lemma_advance_wf(self@);
            lemma_top_dir(self@.pending);
        }
        let ghost old_model = self@;
        loop
            invariant
                self.cur_depth == self.cur_path.len(),
                old_model == old(self)@,
                old_model.wf(),
                self@ == (WalkModel { pending: self@.pending, ..old_model }),
                self@.pending.len() <= old_model.pending.len(),
                self@.pending == old_model.pending.subrange(0, self@.pending.len() as int),
                top_dir(self@.pending) == top_dir(old_model.pending),
            decreases self.stack.len(),
        {
            let ghost before = self@.pending;
            let popped = self.stack.pop();
            proof {
                if before.len() > 0 {
                    assert(self@.pending =~= before.drop_last());
                }
            }
            match popped {
                None => {
                    self.listing_due = false;
                    assert(before.len() == 0);
                    assert(top_dir(before) == None::<nat>);
                    assert(self@.pending =~= Seq::<PendingEntry>::empty());
                    assert(self@ == old_model.advance().0);
                    return None;
                },
                Some(e) => {
                    assert(e@ == before.last());
                    assert(self@.pending =~= old_model.pending.subrange(0, self@.pending.len() as int));
                    if e.entry_type.is_dir() {
                        assert(old_model.pending[self@.pending.len() as int] == e@);
                        let depth = e.depth;
                        let ghost outer = self@;
                        assert(top_dir(before) == Some((before.len() - 1) as nat));
                        while self.cur_depth > depth - 1
                            invariant
                                self@ == (WalkModel { path: self@.path, ..outer }),
                                1 <= depth <= old_model.depth() + 1,
                                depth - 1 <= self.cur_depth <= old_model.depth(),
                                self.cur_depth == self.cur_path.len(),
                                names(self.cur_path@) == old_model.path.subrange(0, self.cur_depth as int),
                            decreases self.cur_depth,
                        {
                            self.cur_path.pop();
                            self.cur_depth -= 1;
                        }
                        self.cur_path.push(e.name);
                        self.cur_depth += 1;
                        self.listing_due = true;
                        assert(self@.path =~= old_model.advance().0.path);
                        return Some(depth);
                    }
                },
            }
        }
    }

    /// Records the listing of the directory that `advance` chose and returns
    /// its regular files, in listing order. Entries with the reserved name or
    /// of unknown kind are skipped; subdirectories are kept for later visits,
    /// the first listed to be visited first. An unreadable directory is
    /// recorded with an empty listing. Without a directory awaiting its
    /// listing, nothing changes and no file is returned.
    pub fn expand(&mut self, listing: &[Listed]) -> (files: Vec<String>)
        requires
            old(self).inv(),
            old(self)@.listing_due ==> old(self)@.depth() < usize::MAX,
        ensures
            final(self).inv(),
            final(self)@ == old(self)@.expand(listing@),
            names(files@) == old(self)@.expand_files(listing@),
    {
        proof {
            lemma_expand_wf(self@, listing@);
        }
        let mut files: Vec<String> = Vec::new();
        if !self.listing_due {
            assert(names(files@) =~= Seq::<Seq<char>>::empty());
            return files;
        }
        let ghost old_model = self@;
        let child_depth = self.cur_depth + 1;
        // Split the listing into subdirectories and files, each in listing order.
        let mut dirs: Vec<String> = Vec::new();
        let mut i: usize = 0;
        while i < listing.len()
            invariant
                i <= listing.len(),
                names(files@) == file_children(listing@.subrange(0, i as int), old_model.reserved),
                names(dirs@) == dir_children(listing@.subrange(0, i as int), old_model.reserved),
                self@ == old_model,
                old_model.reserved == self.reserved@,
            decreases listing.len() - i,
        {
            let l = &listing[i];
            let ghost prefix = listing@.subrange(0, i as int + 1);
            assert(prefix.drop_last() =~= listing@.subrange(0, i as int));
            assert(prefix.last() == *l);
            if l.name != self.reserved {
                match l.kind {
                    Some(DirEntryType::Dir) => {
                        dirs.push(l.name.clone());
                        assert(names(dirs@) =~= dir_children(prefix, old_model.reserved));
                    },
                    Some(DirEntryType::File) => {
                        files.push(l.name.clone());
                        assert(names(files@) =~= file_children(prefix, old_model.reserved));
                    },
                    None => {},
                }
            }
            i += 1;
        }
        assert(listing@.subrange(0, listing@.len() as int) =~= listing@);
        let ghost batch = child_batch(listing@, old_model.reserved, old_model.depth());
        let ghost dir_entries = entries_of(
            dir_children(listing@, old_model.reserved).reverse(),
            old_model.depth() + 1,
            DirEntryType::Dir,
        );
        // Subdirectories go first, the last listed at the bottom, so that the
        // first listed ends up on top of them and is visited first.
        assert(dir_entries.len() == dirs.len());
        let mut k: usize = dirs.len();
        while k > 0
            invariant
                k <= dirs.len(),
                dir_entries.len() == dirs.len(),
                dir_entries == entries_of(
                    dir_children(listing@, old_model.reserved).reverse(),
                    old_model.depth() + 1,
                    DirEntryType::Dir,
                ),
                names(dirs@) == dir_children(listing@, old_model.reserved),
                self.cur_depth == self.cur_path.len(),
                child_depth == old_model.depth() + 1,
                self@ == (WalkModel { pending: self@.pending, ..old_model }),
                self@.pending == old_model.pending + dir_entries.subrange(0, dirs.len() - k),
            decreases k,
        {
            k -= 1;
            let ghost pushed = self@.pending;
            let entry = DirEntry {
                depth: child_depth,
                entry_type: DirEntryType::Dir,
                name: dirs[k].clone(),
            };
            assert(entry@ == dir_entries[dirs.len() - k - 1]);
            self.stack.push(entry);
            assert(self@.pending =~= pushed.push(dir_entries[dirs.len() - k - 1]));
            assert(self@.pending =~= old_model.pending + dir_entries.subrange(0, dirs.len() - k));
        }
        assert(dir_entries.subrange(0, dirs.len() as int) =~= dir_entries);
        let ghost file_entries = entries_of(
            file_children(listing@, old_model.reserved),
            old_model.depth() + 1,
            DirEntryType::File,
        );
        // Files above their sibling subdirectories: the next step drops them.
        assert(file_entries.len() == files.len());
        let mut j: usize = 0;
        while j < files.len()
            invariant
                j <= files.len(),
                file_entries.len() == files.len(),
                file_entries == entries_of(
                    file_children(listing@, old_model.reserved),
                    old_model.depth() + 1,
                    DirEntryType::File,
                ),
                names(files@) == file_children(listing@, old_model.reserved),
                self.cur_depth == self.cur_path.len(),
                child_depth == old_model.depth() + 1,
                self@ == (WalkModel { pending: self@.pending, ..old_model }),
                self@.pending == old_model.pending + dir_entries + file_entries.subrange(0, j as int),
            decreases files.len() - j,
        {
            let ghost pushed = self@.pending;
            let entry = DirEntry {
                depth: child_depth,
                entry_type: DirEntryType::File,
                name: files[j].clone(),
            };
            assert(entry@ == file_entries[j as int]);
            self.stack.push(entry);
            assert(self@.pending =~= pushed.push(file_entries[j as int]));
            j += 1;
            assert(self@.pending =~= old_model.pending + dir_entries + file_entries.subrange(0, j as int));
        }
        assert(file_entries.subrange(0, files.len() as int) =~= file_entries);
        assert(dir_entries + file_entries =~= batch);
        self.listing_due = false;
        assert(self@.pending =~= old_model.pending + batch);
        files
    }

    /// The root directory that the walk started from.
    pub fn root(&self) -> (r: &str)
        ensures
            r@ == self@.root,
    {
        self.root.as_str()
    }

    /// The reserved filename that the walk excludes.
    pub fn reserved(&self) -> (r: &str)
        ensures
            r@ == self@.reserved,
    {
        self.reserved.as_str()
    }

    /// Depth of the current directory; 0 before the first visit.
    pub fn depth(&self) -> (r: usize)
        requires
            self.inv(),
        ensures
            r as nat == self@.depth(),
    {
        self.cur_depth
    }

    /// Components of the current directory beyond the root, the first being
    /// the root's own empty name.
    pub fn path_components(&self) -> (r: &[String])
        ensures
            names(r@) == self@.path,
    {
        self.cur_path.as_slice()
    }
    /// The traversal frontier, top of the stack last.
    pub fn pending(&self) -> (r: &[DirEntry])
        ensures
            r@.map_values(|e: DirEntry| e@) == self@.pending,
    {
        self.stack.as_slice()
    }
}

} // verus!
