//! Sets of file paths.

use vstd::prelude::*;

verus! {

/// What a list of paths stands for in contracts.
pub open spec fn path_views(paths: Seq<String>) -> Seq<Seq<char>> {
    paths.map_values(|path: String| path@)
}

/// A set of file paths. A path is held once however often it is inserted,
/// and the paths are kept in the order in which they first arrived.
pub struct PathSet {
    items: Vec<String>,
}

impl View for PathSet {
    type V = Set<Seq<char>>;

    open spec fn view(&self) -> Set<Seq<char>> {
        self.paths().to_set()
    }
}

impl PathSet {
    /// The paths of the set, in the order of their first insertion.
    pub closed spec fn paths(&self) -> Seq<Seq<char>> {
        path_views(self.items@)
    }

    /// No path is listed twice.
    pub open spec fn well_formed(&self) -> bool {
        self.paths().no_duplicates()
    }

    /// A well-formed set has as many members as it lists paths.
    pub proof fn lemma_len(&self)
        requires
            self.well_formed(),
        ensures
            self@.finite(),
            self@.len() == self.paths().len(),
    {
        self.paths().unique_seq_to_set();
    }

    /// The empty set.
    pub fn new() -> (set: PathSet)
        ensures
            set.well_formed(),
            set.paths() == Seq::<Seq<char>>::empty(),
            set@ == Set::<Seq<char>>::empty(),
    {
        let set = PathSet { items: Vec::new() };
        assert(set.paths() =~= Seq::<Seq<char>>::empty());
        assert(set@ =~= Set::<Seq<char>>::empty());
        set
    }

    /// The number of paths in the set.
    pub fn len(&self) -> (count: usize)
        requires
            self.well_formed(),
        ensures
            count == self@.len(),
            count == self.paths().len(),
    {
        proof {
            self.lemma_len();
        }
        self.items.len()
    }

    /// Whether the path is in the set.
    pub fn contains(&self, path: &str) -> (found: bool)
        ensures
            found == self@.contains(path@),
    {
        let wanted = path.to_owned();
        let mut i: usize = 0;
        while i < self.items.len()
            invariant
                i <= self.items.len(),
                wanted@ == path@,
                forall|j: int| 0 <= j < i ==> self.paths()[j] != path@,
            decreases self.items.len() - i,
        {
            if self.items[i] == wanted {
                assert(self.paths()[i as int] == path@);
                return true;
            }
            i += 1;
        }
        false
    }

    /// Adds a path. Returns whether the path was new to the set.
    pub fn insert(&mut self, path: &str) -> (fresh: bool)
        requires
            old(self).well_formed(),
        ensures
            final(self).well_formed(),
            final(self)@ == old(self)@.insert(path@),
            fresh == !old(self)@.contains(path@),
            final(self).paths() == if fresh {
                old(self).paths().push(path@)
            } else {
                old(self).paths()
            },
    {
        if self.contains(path) {
            assert(self@.insert(path@) =~= self@);
            false
        } else {
            let ghost before = self.paths();
            self.items.push(path.to_owned());
            proof {
                assert(self.paths() =~= before.push(path@));
                before.lemma_push_to_set_commute(path@);
            }
            true
        }
    }

    /// The path at a position of the listing.
    pub fn get(&self, index: usize) -> (path: &str)
        requires
            index < self.paths().len(),
        ensures
            path@ == self.paths()[index as int],
    {
        self.items[index].as_str()
    }

    /// The paths as owned strings, in listing order.
    pub fn to_vec(&self) -> (paths: Vec<String>)
        ensures
            path_views(paths@) == self.paths(),
    {
        let mut paths: Vec<String> = Vec::new();
        let mut i: usize = 0;
        while i < self.items.len()
            invariant
                i <= self.items.len(),
                paths@.len() == i,
                forall|j: int| 0 <= j < i ==> paths@[j]@ == self.items@[j]@,
            decreases self.items.len() - i,
        {
            paths.push(self.items[i].clone());
            i += 1;
        }
        assert(path_views(paths@) =~= self.paths());
        paths
    }
}

} // verus!
