//! Grouping of file paths under keys.

use vstd::prelude::*;
use crate::paths::PathSet;

verus! {

/// A value under which file paths are grouped. Two keys name the same
/// group exactly when their identities are equal.
pub trait GroupKey: Sized {
    /// What identifies the group in contracts.
    type Id;

    spec fn id(&self) -> Self::Id;

    fn same(&self, other: &Self) -> (same: bool)
        ensures
            same == (self.id() == other.id()),
    ;
}

/// The list `paths`, with `path` added at the end unless it is in it already.
pub open spec fn listed_once(paths: Seq<Seq<char>>, path: Seq<char>) -> Seq<Seq<char>> {
    if paths.contains(path) {
        paths
    } else {
        paths.push(path)
    }
}

/// The groups that more than one file shares.
pub open spec fn shared<Id>(groups: Map<Id, Set<Seq<char>>>) -> Map<Id, Set<Seq<char>>> {
    groups.restrict(Set::new(|id: Id| groups[id].len() >= 2))
}

/// One key and the files recorded under it.
struct Group<K> {
    key: K,
    files: PathSet,
}

/// A mapping from keys to the sets of files recorded under them.
///
/// Keys and files are kept in the order in which they first arrived; the
/// mathematical view of the mapping forgets that order.
pub struct Groups<K> {
    entries: Vec<Group<K>>,
}

impl<K: GroupKey> View for Groups<K> {
    type V = Map<K::Id, Set<Seq<char>>>;

    open spec fn view(&self) -> Map<K::Id, Set<Seq<char>>> {
        Map::new(|id: K::Id| self.ids().contains(id), |id: K::Id| self.files_of(id))
    }
}

impl<K: GroupKey> Groups<K> {
    /// The identities of the groups, in the order of their first appearance.
    pub closed spec fn ids(&self) -> Seq<K::Id> {
        self.entries@.map_values(|group: Group<K>| group.key.id())
    }

    /// The files of the group at `index`, in the order of their first appearance.
    pub closed spec fn listing(&self, index: int) -> Seq<Seq<char>> {
        self.entries@[index].files.paths()
    }

    /// The files of all groups, group by group.
    pub open spec fn listings(&self) -> Seq<Seq<Seq<char>>> {
        Seq::new(self.ids().len(), |index: int| self.listing(index))
    }

    /// No key has two groups, and every group lists at least one file and
    /// none of them twice.
    pub open spec fn well_formed(&self) -> bool {
        &&& self.ids().no_duplicates()
        &&& forall|i: int|
            0 <= i < self.ids().len() ==> (#[trigger] self.listing(i)).no_duplicates()
                && self.listing(i).len() > 0
    }

    /// The files recorded under `id`: none when `id` has no group.
    pub open spec fn files_of(&self, id: K::Id) -> Set<Seq<char>> {
        if self.ids().contains(id) {
            self.listing(self.ids().index_of(id)).to_set()
        } else {
            Set::empty()
        }
    }

    /// The mapping without groups.
    pub fn new() -> (groups: Groups<K>)
        ensures
            groups.well_formed(),
            groups.ids() == Seq::<K::Id>::empty(),
            groups@ == Map::<K::Id, Set<Seq<char>>>::empty(),
    {
        let groups = Groups { entries: Vec::new() };
        assert(groups.ids() =~= Seq::<K::Id>::empty());
        assert(groups@ =~= Map::<K::Id, Set<Seq<char>>>::empty());
        groups
    }

    /// The number of groups.
    pub fn len(&self) -> (count: usize)
        ensures
            count == self.ids().len(),
    {
        self.entries.len()
    }

    /// The key of the group at `index`.
    pub fn key(&self, index: usize) -> (key: &K)
        requires
            index < self.ids().len(),
        ensures
            key.id() == self.ids()[index as int],
    {
        &self.entries[index].key
    }

    /// The files of the group at `index`.
    pub fn files(&self, index: usize) -> (files: &PathSet)
        requires
            self.well_formed(),
            index < self.ids().len(),
        ensures
            files.well_formed(),
            files.paths() == self.listing(index as int),
            files@ == self@[self.ids()[index as int]],
    {
        proof {
            self.lemma_group(index as int);
        }
        &self.entries[index].files
    }

    /// In a well-formed mapping the group at `index` is the group of its key.
    pub proof fn lemma_group(&self, index: int)
        requires
            self.well_formed(),
            0 <= index < self.ids().len(),
        ensures
            self.ids().contains(self.ids()[index]),
            self.ids().index_of(self.ids()[index]) == index,
            self@.dom().contains(self.ids()[index]),
            self@[self.ids()[index]] == self.listing(index).to_set(),
            self.listing(index).no_duplicates(),
            self.listing(index).len() > 0,
    {
        let id = self.ids()[index];
        assert(self.ids().contains(id));
        let chosen = self.ids().index_of(id);
        assert(0 <= chosen < self.ids().len() && self.ids()[chosen] == id);
    }

    /// What recording a file under a key does to the mapping, read off the
    /// listings before and after.
    proof fn lemma_recorded(&self, after: Groups<K>, id: K::Id, path: Seq<char>)
        requires
            self.well_formed(),
            after.ids() == if self.ids().contains(id) {
                self.ids()
            } else {
                self.ids().push(id)
            },
            forall|i: int|
                0 <= i < self.ids().len() ==> #[trigger] after.listing(i) == if self.ids()[i]
                    == id {
                    listed_once(self.listing(i), path)
                } else {
                    self.listing(i)
                },
            !self.ids().contains(id) ==> after.listing(self.ids().len() as int) == seq![path],
        ensures
            after.well_formed(),
            after@ == self@.insert(id, self.files_of(id).insert(path)),
    {
        let target = self@.insert(id, self.files_of(id).insert(path));
        assert(after.well_formed()) by {
            assert forall|i: int| 0 <= i < after.ids().len() implies (#[trigger] after.listing(
                i,
            )).no_duplicates() && after.listing(i).len() > 0 by {
                if i < self.ids().len() {
                    assert(self.listing(i).no_duplicates());
                }
            }
        }
        assert forall|other: K::Id| after@.dom().contains(other) == target.dom().contains(
            other,
        ) by {
            if self.ids().contains(other) {
                let i = self.ids().index_of(other);
                assert(after.ids()[i] == other);
                assert(after.ids().contains(other));
            }
            if other == id && !self.ids().contains(id) {
                assert(after.ids()[self.ids().len() as int] == id);
                assert(after.ids().contains(other));
            }
            if after.ids().contains(other) {
                let i = after.ids().index_of(other);
                if i < self.ids().len() {
                    assert(self.ids()[i] == other);
                    assert(self.ids().contains(other));
                }
            }
        }
        assert forall|other: K::Id| after@.dom().contains(other) implies after@[other]
            == target[other] by {
            let i = after.ids().index_of(other);
            after.lemma_group(i);
            if i < self.ids().len() {
                assert(self.ids()[i] == other);
                self.lemma_group(i);
                if other == id {
                    if self.listing(i).contains(path) {
                        assert(self.listing(i).to_set().insert(path) =~= self.listing(i).to_set());
                    } else {
                        self.listing(i).lemma_push_to_set_commute(path);
                    }
                }
            } else {
                assert(other == id);
                assert(seq![path].to_set() =~= Set::<Seq<char>>::empty().insert(path)) by {
                    assert(seq![path][0] == path);
                }
            }
        }
        assert(after@ =~= target);
    }

    /// Where the group of `key` stands, if there is one.
    pub fn position(&self, key: &K) -> (found: Option<usize>)
        ensures
            match found {
                Some(index) => index < self.ids().len() && self.ids()[index as int] == key.id(),
                None => !self.ids().contains(key.id()),
            },
    {
        let mut i: usize = 0;
        while i < self.entries.len()
            invariant
                i <= self.entries.len(),
                forall|j: int| 0 <= j < i ==> self.ids()[j] != key.id(),
            decreases self.entries.len() - i,
        {
            if self.entries[i].key.same(key) {
                return Some(i);
            }
            i += 1;
        }
        None
    }

    /// The files recorded under `key`, if any were.
    pub fn get(&self, key: &K) -> (files: Option<&PathSet>)
        requires
            self.well_formed(),
        ensures
            files.is_some() == self@.dom().contains(key.id()),
            files matches Some(set) ==> set.well_formed() && set@ == self@[key.id()],
    {
        match self.position(key) {
            Some(index) => Some(self.files(index)),
            None => None,
        }
    }

    /// Records that the file at `path` holds a document with this key.
    pub fn add(&mut self, key: K, path: &str)
        requires
            old(self).well_formed(),
        ensures
            final(self).well_formed(),
            final(self)@ == old(self)@.insert(
                key.id(),
                old(self).files_of(key.id()).insert(path@),
            ),
            final(self).ids() == if old(self).ids().contains(key.id()) {
                old(self).ids()
            } else {
                old(self).ids().push(key.id())
            },
            forall|i: int|
                0 <= i < old(self).ids().len() ==> #[trigger] final(self).listing(i) == if old(
                    self,
                ).ids()[i] == key.id() {
                    listed_once(old(self).listing(i), path@)
                } else {
                    old(self).listing(i)
                },
            !old(self).ids().contains(key.id()) ==> final(self).listing(
                old(self).ids().len() as int,
            ) == seq![path@],
    {
        let ghost before = *self;
        match self.position(&key) {
            Some(index) => {
                proof {
                    before.lemma_group(index as int);
                }
                self.entries[index].files.insert(path);
                proof {
                    assert(self.ids() =~= before.ids());
                    assert forall|i: int| 0 <= i < before.ids().len() implies #[trigger] self.listing(i)
                        == if before.ids()[i] == key.id() {
                        listed_once(before.listing(i), path@)
                    } else {
                        before.listing(i)
                    } by {
                        if i != index {
                            assert(before.ids()[i] != before.ids()[index as int]);
                        }
                    }
                    before.lemma_recorded(*self, key.id(), path@);
                }
            },
            None => {
                let mut files = PathSet::new();
                files.insert(path);
                self.entries.push(Group { key, files });
                proof {
                    assert(self.ids() =~= before.ids().push(key.id()));
                    assert forall|i: int| 0 <= i < before.ids().len() implies #[trigger] self.listing(i)
                        == before.listing(i) by {}
                    assert(self.listing(before.ids().len() as int) =~= seq![path@]);
                    before.lemma_recorded(*self, key.id(), path@);
                }
            },
        }
    }

    /// Drops the groups that a single file makes up, and keeps those that
    /// two or more files share.
    pub fn retain_shared(&mut self)
        requires
            old(self).well_formed(),
        ensures
            final(self).well_formed(),
            final(self)@ == shared(old(self)@),
    {
        let ghost before = *self;
        let mut i: usize = 0;
        while i < self.entries.len()
            invariant
                before.well_formed(),
                self.well_formed(),
                i <= self.ids().len(),
                self.ids().len() == self.entries@.len(),
                forall|k: int| 0 <= k < i ==> (#[trigger] self.listing(k)).len() >= 2,
                forall|id: K::Id| #[trigger]
                    self.ids().contains(id) ==> before.ids().contains(id) && self.files_of(id)
                        == before.files_of(id),
                forall|id: K::Id|
                    before.ids().contains(id) && before.files_of(id).len() >= 2
                        ==> #[trigger] self.ids().contains(id),
            decreases self.entries.len() - i,
        {
            proof {
                self.lemma_group(i as int);
            }
            if self.entries[i].files.len() < 2 {
                let ghost earlier = *self;
                self.entries.remove(i);
                proof {
                    assert(self.ids() =~= earlier.ids().remove(i as int));
                    assert forall|k: int| 0 <= k < self.ids().len() implies #[trigger] self.listing(k)
                        == earlier.listing(if k < i { k } else { k + 1 }) by {}
                    assert(self.well_formed()) by {
                        assert forall|a: int, b: int|
                            0 <= a < self.ids().len() && 0 <= b < self.ids().len() && a
                                != b implies self.ids()[a] != self.ids()[b] by {
                            let a0 = if a < i { a } else { a + 1 };
                            let b0 = if b < i { b } else { b + 1 };
                            assert(earlier.ids()[a0] != earlier.ids()[b0]);
                        }
                        assert forall|k: int| 0 <= k < self.ids().len() implies (
                        #[trigger] self.listing(k)).no_duplicates() && self.listing(k).len()
                            > 0 by {
                            let k0 = if k < i { k } else { k + 1 };
                            assert(earlier.listing(k0).no_duplicates());
                        }
                    }
                    assert forall|id: K::Id| #[trigger] self.ids().contains(id) implies earlier.ids().contains(
                        id,
                    ) && self.files_of(id) == earlier.files_of(id) by {
                        let k = self.ids().index_of(id);
                        let k0 = if k < i { k } else { k + 1 };
                        assert(earlier.ids()[k0] == id);
                        self.lemma_group(k);
                        earlier.lemma_group(k0);
                    }
                    assert forall|id: K::Id|
                        before.ids().contains(id) && before.files_of(id).len()
                            >= 2 implies #[trigger] self.ids().contains(id) by {
                        assert(earlier.ids().contains(id));
                        let k0 = earlier.ids().index_of(id);
                        earlier.lemma_group(k0);
                        earlier.listing(i as int).unique_seq_to_set();
                        assert(k0 != i);
                        let k = if k0 < i { k0 } else { k0 - 1 };
                        assert(self.ids()[k] == id);
                    }
                }
            } else {
                i += 1;
            }
        }
        proof {
            let kept = shared(before@);
            assert forall|id: K::Id| self@.dom().contains(id) == kept.dom().contains(id) by {
                if self.ids().contains(id) {
                    let k = self.ids().index_of(id);
                    self.lemma_group(k);
                    self.listing(k).unique_seq_to_set();
                }
            }
            assert(self@ =~= kept);
        }
    }
}

} // verus!
