use vstd::prelude::*;
use crate::id::ConnectionID;

verus! {

broadcast use vstd::seq_lib::group_seq_properties;

/// One path with the connections listed under it, in order of registration,
/// and the next round-robin turn for that path.
pub struct PathEntry {
    pub path: String,
    pub ids: Vec<ConnectionID>,
    pub turn: u32,
}

/// Keeps `x` unless it is the connection being removed.
pub open spec fn keeps(id: ConnectionID) -> spec_fn(ConnectionID) -> bool {
    |x: ConnectionID| x != id
}

/// A map from path to an ordered list of connections; each path appears once.
pub struct PathTable {
    entries: Vec<PathEntry>,
    model: Ghost<Map<Seq<char>, (Seq<ConnectionID>, u32)>>,
}

impl PathTable {
    /// Path to (list, next turn), for every path that was ever written.
    pub closed spec fn view(&self) -> Map<Seq<char>, (Seq<ConnectionID>, u32)> {
        self.model@
    }

    /// The list under `p`; empty where nothing was written.
    pub open spec fn list(&self, p: Seq<char>) -> Seq<ConnectionID> {
        if self@.contains_key(p) { self@[p].0 } else { Seq::empty() }
    }

    /// The next round-robin turn of `p`; zero before the first ask.
    pub open spec fn turn(&self, p: Seq<char>) -> u32 {
        if self@.contains_key(p) { self@[p].1 } else { 0 }
    }

    /// Whether `id` stands in any list.
    pub open spec fn listed(&self, id: ConnectionID) -> bool {
        exists|p: Seq<char>| #[trigger] self.list(p).contains(id)
    }

    pub closed spec fn wf(&self) -> bool {
        &&& forall|i: int, j: int|
            0 <= i < j < self.entries@.len() ==> self.entries@[i].path@ != self.entries@[j].path@
        &&& forall|i: int|
            0 <= i < self.entries@.len() ==> {
                &&& self.model@.contains_key(#[trigger] self.entries@[i].path@)
                &&& self.model@[self.entries@[i].path@] == (
                    self.entries@[i].ids@,
                    self.entries@[i].turn,
                )
            }
        &&& forall|p: Seq<char>|
            #[trigger] self.model@.contains_key(p) ==> exists|i: int|
                0 <= i < self.entries@.len() && self.entries@[i].path@ == p
    }

    pub fn new() -> (r: Self)
        ensures
            r.wf(),
            r@ == Map::<Seq<char>, (Seq<ConnectionID>, u32)>::empty(),
    {
        PathTable { entries: Vec::new(), model: Ghost(Map::empty()) }
    }

    fn find(&self, path: &String) -> (r: Option<usize>)
        requires
            self.wf(),
        ensures
            match r {
                Some(i) => i < self.entries@.len() && self.entries@[i as int].path@ == path@,
                None => !self@.contains_key(path@),
            },
    {
        let mut i: usize = 0;
        while i < self.entries.len()
            invariant
                i <= self.entries@.len(),
                forall|j: int| 0 <= j < i ==> self.entries@[j].path@ != path@,
            decreases self.entries@.len() - i,
        {
            if self.entries[i].path == *path {
                return Some(i);
            }
            i = i + 1;
        }
        None
    }

    /// Appends `id` to the list of `path`, creating the list if needed.
    pub fn push(&mut self, path: String, id: ConnectionID)
        requires
            old(self).wf(),
        ensures
            final(self).wf(),
            final(self)@ == old(self)@.insert(
                path@,
                (old(self).list(path@).push(id), old(self).turn(path@)),
            ),
    {
        match self.find(&path) {
            Some(i) => {
                let mut ids = self.entries[i].ids.clone();
                ids.push(id);
                let turn = self.entries[i].turn;
                self.replace(i, ids, turn);
                assert(self.wf());
            },
            None => {
                let ghost key = path@;
                let mut ids = Vec::new();
                ids.push(id);
                let entry = PathEntry { path, ids, turn: 0 };
                let ghost e = entry;
                self.entries.push(entry);
                assert(self.entries@ =~= old(self).entries@.push(e));
                assert forall|k: int| 0 <= k < old(self).entries@.len() implies
                    #[trigger] old(self).entries@[k].path@ != key by {
                    assert(old(self).model@.contains_key(old(self).entries@[k].path@));
                }
                assert(e.path@ == key);
                self.model = Ghost(self.model@.insert(key, (seq![id], 0u32)));
                assert(Seq::<ConnectionID>::empty().push(id) =~= seq![id]);
                assert forall|k: int| 0 <= k < self.entries@.len() implies {
                    &&& self.model@.contains_key(#[trigger] self.entries@[k].path@)
                    &&& self.model@[self.entries@[k].path@] == (
                        self.entries@[k].ids@,
                        self.entries@[k].turn,
                    )
                } by {
                    if k < old(self).entries@.len() {
                        assert(self.entries@[k] == old(self).entries@[k]);
                        assert(old(self).entries@[k].path@ != key);
                    }
                }
                assert forall|a: int, b: int| 0 <= a < b < self.entries@.len() implies
                    self.entries@[a].path@ != self.entries@[b].path@ by {
                    if b == old(self).entries@.len() {
                        assert(old(self).entries@[a].path@ != key);
                    }
                }
                assert forall|p: Seq<char>| #[trigger] self.model@.contains_key(p) implies exists|k: int|
                    0 <= k < self.entries@.len() && self.entries@[k].path@ == p by {
                    if p != key {
                        let k = choose|k: int| 0 <= k < old(self).entries@.len() && old(self).entries@[k].path@ == p;
                        assert(self.entries@[k].path@ == p);
                    } else {
                        assert(self.entries@[self.entries@.len() - 1].path@ == p);
                    }
                }
                assert(self.wf());
            },
        }
    }

    /// Replaces the list and turn of entry `i`; paths stay where they are.
    fn replace(&mut self, i: usize, ids: Vec<ConnectionID>, turn: u32)
        requires
            old(self).wf(),
            i < old(self).entries@.len(),
        ensures
            final(self).wf(),
            final(self).entries@.len() == old(self).entries@.len(),
            forall|k: int|
                0 <= k < final(self).entries@.len() ==> #[trigger] final(self).entries@[k].path@
                    == old(self).entries@[k].path@,
            final(self)@ == old(self)@.insert(old(self).entries@[i as int].path@, (ids@, turn)),
    {
        let ghost key = self.entries@[i as int].path@;
        let ghost new_ids = ids@;
        let mut entry = self.entries.remove(i);
        entry.ids = ids;
        entry.turn = turn;
        let ghost e = entry;
        self.entries.insert(i, entry);
        assert(self.entries@ =~= old(self).entries@.update(i as int, e));
        self.model = Ghost(self.model@.insert(key, (new_ids, turn)));
        assert forall|p: Seq<char>| #[trigger] self.model@.contains_key(p) implies exists|k: int|
            0 <= k < self.entries@.len() && self.entries@[k].path@ == p by {
            if p != key {
                let k = choose|k: int|
                    0 <= k < old(self).entries@.len() && old(self).entries@[k].path@ == p;
                assert(self.entries@[k].path@ == p);
            } else {
                assert(self.entries@[i as int].path@ == p);
            }
        }
    }

    /// Removes every occurrence of `id` from the list of `path`.
    pub fn remove(&mut self, path: &String, id: ConnectionID)
        requires
            old(self).wf(),
        ensures
            final(self).wf(),
            old(self)@.contains_key(path@) ==> final(self)@ == old(self)@.insert(
                path@,
                (old(self).list(path@).filter(keeps(id)), old(self).turn(path@)),
            ),
            !old(self)@.contains_key(path@) ==> final(self)@ == old(self)@,
    {
        match self.find(path) {
            Some(i) => {
                let ids = without(&self.entries[i].ids, id);
                let turn = self.entries[i].turn;
                self.replace(i, ids, turn);
            },
            None => {},
        }
    }

    /// Removes `id` from every list; paths and turns stay.
    pub fn purge(&mut self, id: ConnectionID)
        requires
            old(self).wf(),
        ensures
            final(self).wf(),
            final(self)@.dom() == old(self)@.dom(),
            forall|p: Seq<char>| #[trigger] final(self).list(p) == old(self).list(p).filter(keeps(id)),
            forall|p: Seq<char>| #[trigger] final(self).turn(p) == old(self).turn(p),
    {
        let mut i: usize = 0;
        while i < self.entries.len()
            invariant
                self.wf(),
                self.entries@.len() == old(self).entries@.len(),
                0 <= i <= self.entries@.len(),
                old(self).wf(),
                self@.dom() == old(self)@.dom(),
                forall|k: int|
                    0 <= k < self.entries@.len() ==> #[trigger] self.entries@[k].path@
                        == old(self).entries@[k].path@,
                forall|k: int|
                    0 <= k < self.entries@.len() ==> #[trigger] self@[self.entries@[k].path@]
                        == if k < i {
                        (
                            old(self).entries@[k].ids@.filter(keeps(id)),
                            old(self).entries@[k].turn,
                        )
                    } else {
                        (old(self).entries@[k].ids@, old(self).entries@[k].turn)
                    },
            decreases self.entries@.len() - i,
        {
            let ids = without(&self.entries[i].ids, id);
            let turn = self.entries[i].turn;
            let ghost before = self@;
            self.replace(i, ids, turn);
            assert(self@.dom() =~= before.dom());
            i = i + 1;
        }
        assert forall|p: Seq<char>| #[trigger] self.list(p) == old(self).list(p).filter(keeps(id))
            && self.turn(p) == old(self).turn(p) by {
            if old(self)@.contains_key(p) {
                let k = choose|k: int|
                    0 <= k < old(self).entries@.len() && old(self).entries@[k].path@ == p;
                assert(self.entries@[k].path@ == p);
            } else {
                assert(Seq::<ConnectionID>::empty().filter(keeps(id)) =~= Seq::empty()) by {
                    reveal(Seq::filter);
                }
            }
        }
        assert forall|p: Seq<char>| #[trigger] self.turn(p) == old(self).turn(p) by {
            assert(self.list(p) == old(self).list(p).filter(keeps(id)));
        }
    }

    /// A copy of the list of `path`.
    pub fn get(&self, path: &String) -> (r: Vec<ConnectionID>)
        requires
            self.wf(),
        ensures
            r@ == self.list(path@),
    {
        match self.find(path) {
            Some(i) => self.entries[i].ids.clone(),
            None => Vec::new(),
        }
    }

    /// Whether `id` stands in any list.
    pub fn contains(&self, id: ConnectionID) -> (r: bool)
        requires
            self.wf(),
        ensures
            r == self.listed(id),
    {
        let mut i: usize = 0;
        while i < self.entries.len()
            invariant
                self.wf(),
                0 <= i <= self.entries@.len(),
                forall|k: int| 0 <= k < i ==> !(#[trigger] self.entries@[k]).ids@.contains(id),
            decreases self.entries@.len() - i,
        {
            if vec_contains(&self.entries[i].ids, id) {
                assert(self.list(self.entries@[i as int].path@).contains(id));
                return true;
            }
            i = i + 1;
        }
        assert forall|p: Seq<char>| !#[trigger] self.list(p).contains(id) by {
            if self@.contains_key(p) {
                let k = choose|k: int| 0 <= k < self.entries@.len() && self.entries@[k].path@ == p;
                assert(!self.entries@[k].ids@.contains(id));
            }
        }
        false
    }

    /// Picks the handler whose turn it is on `path` and advances the turn;
    /// nothing changes where the list is empty.
    pub fn take_turn(&mut self, path: &String) -> (r: Option<ConnectionID>)
        requires
            old(self).wf(),
        ensures
            final(self).wf(),
            old(self).list(path@).len() == 0 ==> r.is_none() && final(self)@ == old(self)@,
            old(self).list(path@).len() > 0 ==> {
                let l = old(self).list(path@);
                let t = old(self).turn(path@);
                &&& r == Some(l[(t as int) % (l.len() as int)])
                &&& final(self)@ == old(self)@.insert(path@, (l, next_turn(t)))
            },
    {
        match self.find(path) {
            Some(i) => {
                let n = self.entries[i].ids.len();
                if n == 0 {
                    return None;
                }
                let t = self.entries[i].turn;
                let h = self.entries[i].ids[(t as usize) % n];
                let ids = self.entries[i].ids.clone();
                let next = if t == u32::MAX { 0 } else { t + 1 };
                self.replace(i, ids, next);
                Some(h)
            },
            None => None,
        }
    }
}

/// The round-robin counter after one more ask; it wraps like an atomic add.
pub open spec fn next_turn(t: u32) -> u32 {
    if t == u32::MAX { 0 } else { (t + 1) as u32 }
}

/// `ids` without any occurrence of `id`, order kept.
pub fn without(ids: &Vec<ConnectionID>, id: ConnectionID) -> (r: Vec<ConnectionID>)
    ensures
        r@ == ids@.filter(keeps(id)),
{
    let mut out: Vec<ConnectionID> = Vec::new();
    let mut i: usize = 0;
    while i < ids.len()
        invariant
            0 <= i <= ids@.len(),
            out@ == ids@.subrange(0, i as int).filter(keeps(id)),
        decreases ids@.len() - i,
    {
        proof {
            assert(ids@.subrange(0, i + 1) =~= ids@.subrange(0, i as int).push(ids@[i as int]));
            ids@.subrange(0, i as int).lemma_filter_push(ids@[i as int], keeps(id));
        }
        if ids[i] != id {
            out.push(ids[i]);
        }
        i = i + 1;
    }
    assert(ids@.subrange(0, ids@.len() as int) =~= ids@);
    out
}

/// Whether `id` stands in `ids`.
pub fn vec_contains(ids: &Vec<ConnectionID>, id: ConnectionID) -> (r: bool)
    ensures
        r == ids@.contains(id),
{
    let mut i: usize = 0;
    while i < ids.len()
        invariant
            0 <= i <= ids@.len(),
            forall|k: int| 0 <= k < i ==> ids@[k] != id,
        decreases ids@.len() - i,
    {
        if ids[i] == id {
            assert(ids@[i as int] == id);
            return true;
        }
        i = i + 1;
    }
    false
}

} // verus!
