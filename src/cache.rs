use vstd::prelude::*;

verus! {

struct Entry<H> {
    path: String,
    handle: H,
}

/// A bounded map from file path to open handle. Entries are kept from
/// least to most recently used; when full, inserting a new path evicts the
/// least recently used entry.
pub struct FileCache<H> {
    entries: Vec<Entry<H>>,
    max_open_files: usize,
}

/// The paths of a cache view, in order.
pub open spec fn paths_of<H>(s: Seq<(Seq<char>, H)>) -> Seq<Seq<char>> {
    s.map_values(|e: (Seq<char>, H)| e.0)
}

/// No path occurs twice.
pub open spec fn paths_unique<H>(s: Seq<(Seq<char>, H)>) -> bool {
    forall|i: int, j: int| 0 <= i < j < s.len() ==> s[i].0 != s[j].0
}

/// The position of `path` in a cache view, or -1.
pub open spec fn index_of<H>(s: Seq<(Seq<char>, H)>, path: Seq<char>) -> int {
    if exists|i: int| 0 <= i < s.len() && s[i].0 == path {
        choose|i: int| 0 <= i < s.len() && s[i].0 == path
    } else {
        -1
    }
}

impl<H> View for FileCache<H> {
    type V = Seq<(Seq<char>, H)>;

    closed spec fn view(&self) -> Seq<(Seq<char>, H)> {
        self.entries@.map_values(|e: Entry<H>| (e.path@, e.handle))
    }
}

impl<H> FileCache<H> {
    /// The most handles the cache holds at once.
    pub closed spec fn capacity(&self) -> nat {
        self.max_open_files as nat
    }

    /// Paths are unique and there are at most `capacity` of them.
    pub open spec fn wf(&self) -> bool {
        &&& paths_unique(self@)
        &&& self@.len() <= self.capacity()
        &&& self.capacity() >= 1
    }

    /// An empty cache holding at most `max_open_files` handles.
    pub fn new(max_open_files: usize) -> (r: FileCache<H>)
        requires
            max_open_files >= 1,
        ensures
            r.wf(),
            r@.len() == 0,
            r.capacity() == max_open_files,
    {
        let r = FileCache { entries: Vec::new(), max_open_files };
        assert(r@ =~= Seq::empty());
        r
    }

    /// Number of cached handles.
    pub fn len(&self) -> (r: usize)
        ensures
            r == self@.len(),
    {
        self.entries.len()
    }

    /// The position of `path`, if cached.
    fn position(&self, path: &String) -> (r: Option<usize>)
        requires
            self.wf(),
        ensures
            match r {
                Some(i) => i < self@.len() && self@[i as int].0 == path@ && index_of(self@, path@)
                    == i,
                None => index_of(self@, path@) == -1,
            },
    {
        let mut i: usize = 0;
        while i < self.entries.len()
            invariant
                self.wf(),
                i <= self@.len(),
                self@.len() == self.entries@.len(),
                forall|k: int| 0 <= k < i ==> self@[k].0 != path@,
            decreases self.entries@.len() - i,
        {
            if self.entries[i].path == *path {
                assert(self@[i as int].0 == path@);
                let ghost w = index_of(self@, path@);
                assert(0 <= w < self@.len() && self@[w].0 == path@);
                assert(w == i) by {
                    if w < i {
                    } else if w > i {
                        assert(self@[i as int].0 != self@[w].0);
                    }
                }
                return Some(i);
            }
            i = i + 1;
        }
        None
    }

    /// Whether `path` has a cached handle.
    pub fn contains(&self, path: &String) -> (r: bool)
        requires
            self.wf(),
        ensures
            r == paths_of(self@).contains(path@),
    {
        let r = self.position(path);
        proof {
            if paths_of(self@).contains(path@) {
                let k = choose|k: int| 0 <= k < paths_of(self@).len() && paths_of(self@)[k] == path@;
                assert(self@[k].0 == path@);
            }
            if let Some(i) = r {
                assert(paths_of(self@)[i as int] == path@);
            }
        }
        r.is_some()
    }

    /// Takes the handle of `path` out of the cache, if it is there; the
    /// other entries keep their order.
    pub fn take(&mut self, path: &String) -> (r: Option<H>)
        requires
            old(self).wf(),
        ensures
            final(self).wf(),
            final(self).capacity() == old(self).capacity(),
            index_of(old(self)@, path@) == -1 ==> r is None && final(self)@ == old(self)@,
            index_of(old(self)@, path@) != -1 ==> r == Some(
                old(self)@[index_of(old(self)@, path@)].1,
            ) && final(self)@ == old(self)@.remove(index_of(old(self)@, path@)),
    {
        match self.position(path) {
            Some(i) => {
                let e = self.entries.remove(i);
                proof {
                    assert(self@ =~= old(self)@.remove(i as int));
                }
                Some(e.handle)
            },
            None => None,
        }
    }

    /// Drops the handle of `path`, if cached. The file itself is untouched.
    pub fn remove_file(&mut self, path: &String)
        requires
            old(self).wf(),
        ensures
            final(self).wf(),
            final(self).capacity() == old(self).capacity(),
            index_of(old(self)@, path@) == -1 ==> final(self)@ == old(self)@,
            index_of(old(self)@, path@) != -1 ==> final(self)@ == old(self)@.remove(
                index_of(old(self)@, path@),
            ),
    {
        let _ = self.take(path);
    }

    /// Frees a slot for `path` before its file is opened: when `path` is not
    /// cached and the cache is full, removes and returns the least recently
    /// used entry; otherwise changes nothing and returns `None`.
    pub fn make_room(&mut self, path: &String) -> (r: Option<(String, H)>)
        requires
            old(self).wf(),
        ensures
            final(self).wf(),
            final(self).capacity() == old(self).capacity(),
            if index_of(old(self)@, path@) == -1 && old(self)@.len() >= old(self).capacity() {
                &&& r is Some
                &&& r.unwrap().0@ == old(self)@[0].0
                &&& r.unwrap().1 == old(self)@[0].1
                &&& final(self)@ == old(self)@.remove(0)
                &&& final(self)@.len() < final(self).capacity()
            } else {
                &&& r is None
                &&& final(self)@ == old(self)@
            },
    {
        match self.position(path) {
            Some(_) => None,
            None => {
                if self.entries.len() >= self.max_open_files {
                    let e = self.entries.remove(0);
                    proof {
                        assert(self@ =~= old(self)@.remove(0));
                    }
                    Some((e.path, e.handle))
                } else {
                    None
                }
            },
        }
    }

    /// Caches `handle` for `path` as the most recently used entry. An entry
    /// already cached for `path` is replaced; otherwise, when the cache is
    /// full, the least recently used entry is evicted. Returns the entry
    /// that left the cache, if any.
    pub fn insert(&mut self, path: String, handle: H) -> (r: Option<(String, H)>)
        requires
            old(self).wf(),
        ensures
            final(self).wf(),
            final(self).capacity() == old(self).capacity(),
            ({
                let i = index_of(old(self)@, path@);
                let full = old(self)@.len() >= old(self).capacity();
                if i != -1 {
                    &&& r is Some
                    &&& r.unwrap().0@ == path@
                    &&& r.unwrap().1 == old(self)@[i].1
                    &&& final(self)@ == old(self)@.remove(i).push((path@, handle))
                } else if full {
                    &&& r is Some
                    &&& r.unwrap().0@ == old(self)@[0].0
                    &&& r.unwrap().1 == old(self)@[0].1
                    &&& final(self)@ == old(self)@.remove(0).push((path@, handle))
                } else {
                    &&& r is None
                    &&& final(self)@ == old(self)@.push((path@, handle))
                }
            }),
    {
        let ghost pre = self@;
        let out = match self.position(&path) {
            Some(i) => {
                let e = self.entries.remove(i);
                Some((e.path, e.handle))
            },
            None => {
                if self.entries.len() >= self.max_open_files {
                    let e = self.entries.remove(0);
                    Some((e.path, e.handle))
                } else {
                    None
                }
            },
        };
        let ghost mid = self@;
        proof {
            let i = index_of(pre, path@);
            if i != -1 {
                assert(mid =~= pre.remove(i));
            } else if pre.len() >= self.max_open_files {
                assert(mid =~= pre.remove(0));
            } else {
                assert(mid =~= pre);
            }
            assert(forall|k: int| 0 <= k < mid.len() ==> mid[k].0 != path@);
        }
        self.entries.push(Entry { path, handle });
        proof {
            assert(self@ =~= mid.push((path@, handle)));
        }
        out
    }
}

} // verus!
