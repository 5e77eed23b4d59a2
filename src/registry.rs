//! The registry of open patches: logical name to engine id, with reverse
//! removal by id.
use vstd::prelude::*;
use crate::text::{same_text, starts_with_text};

verus! {

/// `s` begins with `prefix`.
pub open spec fn has_prefix(s: Seq<char>, prefix: Seq<char>) -> bool {
    prefix.len() <= s.len() && s.subrange(0, prefix.len() as int) == prefix
}

/// What the registry maps, as a map from name to id.
pub struct NameRegistry {
    entries: Vec<(String, String)>,
    map: Ghost<Map<Seq<char>, Seq<char>>>,
}

impl View for NameRegistry {
    type V = Map<Seq<char>, Seq<char>>;

    closed spec fn view(&self) -> Map<Seq<char>, Seq<char>> {
        self.map@
    }
}

impl NameRegistry {
    /// The entries agree with the map, one entry per name.
    pub closed spec fn wf(&self) -> bool {
        &&& forall|i: int|
            0 <= i < self.entries@.len() ==> self.map@.contains_key(#[trigger] self.entries@[i].0@)
                && self.map@[self.entries@[i].0@] == self.entries@[i].1@
        &&& forall|k: Seq<char>|
            #[trigger] self.map@.contains_key(k) ==> exists|i: int|
                0 <= i < self.entries@.len() && #[trigger] self.entries@[i].0@ == k
        &&& forall|i: int, j: int|
            0 <= i < j < self.entries@.len() ==> #[trigger] self.entries@[i].0@ != #[trigger] self.entries@[j].0@
    }

    pub fn new() -> (r: NameRegistry)
        ensures
            r.wf(),
            r@ == Map::<Seq<char>, Seq<char>>::empty(),
    {
        NameRegistry { entries: Vec::new(), map: Ghost(Map::empty()) }
    }

    /// Position of the entry for `name`, if any.
    fn position(&self, name: &str) -> (r: Option<usize>)
        requires
            self.wf(),
        ensures
            match r {
                Some(i) => i < self.entries@.len() && self.entries@[i as int].0@ == name@,
                None => !self@.contains_key(name@),
            },
    {
        let mut i: usize = 0;
        while i < self.entries.len()
            invariant
                self.wf(),
                i <= self.entries@.len(),
                forall|j: int| 0 <= j < i ==> self.entries@[j].0@ != name@,
            decreases self.entries@.len() - i,
        {
            if same_text(self.entries[i].0.as_str(), name) {
                return Some(i);
            }
            i = i + 1;
        }
        None
    }

    /// The id registered under `name`.
    pub fn lookup(&self, name: &str) -> (r: Option<String>)
        requires
            self.wf(),
        ensures
            match r {
                Some(id) => self@.contains_key(name@) && self@[name@] == id@,
                None => !self@.contains_key(name@),
            },
    {
        match self.position(name) {
            Some(i) => Some(self.entries[i].1.clone()),
            None => None,
        }
    }

    /// Whether any name is registered with the id `id`.
    pub fn contains_id(&self, id: &str) -> (r: bool)
        requires
            self.wf(),
        ensures
            r == exists|k: Seq<char>| #[trigger] self@.contains_key(k) && self@[k] == id@,
    {
        let mut i: usize = 0;
        while i < self.entries.len()
            invariant
                self.wf(),
                i <= self.entries@.len(),
                forall|j: int| 0 <= j < i ==> self.entries@[j].1@ != id@,
            decreases self.entries@.len() - i,
        {
            if same_text(self.entries[i].1.as_str(), id) {
                assert(self@.contains_key(self.entries@[i as int].0@));
                return true;
            }
            i = i + 1;
        }
        assert forall|k: Seq<char>| #[trigger] self@.contains_key(k) implies self@[k] != id@ by {
            let j = choose|j: int| 0 <= j < self.entries@.len() && #[trigger] self.entries@[j].0@ == k;
        }
        false
    }

    /// Registers `id` under `name`, replacing any id the name had.
    pub fn insert(&mut self, name: String, id: String)
        requires
            old(self).wf(),
        ensures
            final(self).wf(),
            final(self)@ == old(self)@.insert(name@, id@),
    {
        let ghost nm = name@;
        let ghost iv = id@;
        let ghost new_map = self.map@.insert(nm, iv);
        match self.position(name.as_str()) {
            Some(i) => {
                self.entries.set(i, (name, id));
                self.map = Ghost(new_map);
                assert forall|k: Seq<char>| #[trigger] self.map@.contains_key(k) implies exists|j: int|
                    0 <= j < self.entries@.len() && #[trigger] self.entries@[j].0@ == k by {
                    if k != nm {
                        let j = choose|j: int|
                            0 <= j < old(self).entries@.len() && #[trigger] old(self).entries@[j].0@
                                == k;
                        assert(self.entries@[j].0@ == k);
                    } else {
                        assert(self.entries@[i as int].0@ == k);
                    }
                }
            },
            None => {
                self.entries.push((name, id));
                self.map = Ghost(new_map);
                assert forall|k: Seq<char>| #[trigger] self.map@.contains_key(k) implies exists|j: int|
                    0 <= j < self.entries@.len() && #[trigger] self.entries@[j].0@ == k by {
                    if k != nm {
                        let j = choose|j: int|
                            0 <= j < old(self).entries@.len() && #[trigger] old(self).entries@[j].0@
                                == k;
                        assert(self.entries@[j].0@ == k);
                    } else {
                        assert(self.entries@[old(self).entries@.len() as int].0@ == k);
                    }
                }
            },
        }
    }

    /// Drops the entry for `name` and gives back its id.
    pub fn remove_by_name(&mut self, name: &str) -> (r: Option<String>)
        requires
            old(self).wf(),
        ensures
            final(self).wf(),
            final(self)@ == old(self)@.remove(name@),
            match r {
                Some(id) => old(self)@.contains_key(name@) && old(self)@[name@] == id@,
                None => !old(self)@.contains_key(name@),
            },
    {
        match self.position(name) {
            Some(i) => {
                let ghost old_entries = self.entries@;
                let (_, id) = self.entries.remove(i);
                self.map = Ghost(self.map@.remove(name@));
                assert forall|j: int| 0 <= j < self.entries@.len() implies #[trigger] self.map@.contains_key(
                    self.entries@[j].0@) && self.map@[self.entries@[j].0@] == self.entries@[j].1@ by {
                    if j < i {
                        assert(self.entries@[j] == old_entries[j]);
                    } else {
                        assert(self.entries@[j] == old_entries[j + 1]);
                    }
                }
                assert forall|k: Seq<char>| #[trigger] self.map@.contains_key(k) implies exists|j: int|
                    0 <= j < self.entries@.len() && #[trigger] self.entries@[j].0@ == k by {
                    let j = choose|j: int|
                        0 <= j < old_entries.len() && #[trigger] old_entries[j].0@ == k;
                    if j < i {
                        assert(self.entries@[j].0@ == k);
                    } else {
                        assert(j != i);
                        assert(self.entries@[j - 1].0@ == k);
                    }
                }
                assert forall|a: int, b: int| 0 <= a < b < self.entries@.len() implies self.entries@[a].0@
                    != self.entries@[b].0@ by {
                    let a0 = if a < i { a } else { a + 1 };
                    let b0 = if b < i { b } else { b + 1 };
                    assert(self.entries@[a] == old_entries[a0]);
                    assert(self.entries@[b] == old_entries[b0]);
                }
                Some(id)
            },
            None => {
                assert(self.map@.remove(name@) =~= self.map@);
                None
            },
        }
    }

    /// Drops every entry whose id is `id`.
    pub fn remove_by_id(&mut self, id: &str)
        requires
            old(self).wf(),
        ensures
            final(self).wf(),
            final(self)@ == old(self)@.restrict(
                old(self)@.dom().filter(|k: Seq<char>| old(self)@[k] != id@),
            ),
    {
        let ghost m = self.map@;
        let ghost target = m.restrict(m.dom().filter(|k: Seq<char>| m[k] != id@));
        let ghost old_entries = self.entries@;
        let mut kept: Vec<(String, String)> = Vec::new();
        let ghost mut src: Seq<int> = Seq::empty();
        let mut i: usize = 0;
        let n = self.entries.len();
        while i < n
            invariant
                n == old_entries.len(),
                old_entries == self.entries@,
                m == self.map@,
                self.wf(),
                i <= n,
                src.len() == kept@.len(),
                forall|j: int| 0 <= j < src.len() ==> 0 <= #[trigger] src[j] < i,
                forall|j: int| 0 <= j < src.len() ==> #[trigger] kept@[j] == old_entries[src[j]],
                forall|j: int| 0 <= j < src.len() ==> old_entries[#[trigger] src[j]].1@ != id@,
                forall|p: int, q: int| 0 <= p < q < src.len() ==> #[trigger] src[p] < #[trigger] src[q],
                forall|a: int| 0 <= a < i && old_entries[a].1@ != id@ ==> exists|j: int|
                    0 <= j < src.len() && #[trigger] src[j] == a,
            decreases n - i,
        {
            let e = &self.entries[i];
            if !same_text(e.1.as_str(), id) {
                kept.push((e.0.clone(), e.1.clone()));
                proof {
                    let before = src;
                    src = src.push(i as int);
                    assert forall|a: int| 0 <= a < i + 1 && old_entries[a].1@ != id@ implies exists|j: int|
                        0 <= j < src.len() && #[trigger] src[j] == a by {
                        if a < i {
                            let j = choose|j: int| 0 <= j < before.len() && #[trigger] before[j] == a;
                            assert(src[j] == a);
                        } else {
                            assert(src[before.len() as int] == a);
                        }
                    }
                }
            }
            i = i + 1;
        }
        self.entries = kept;
        self.map = Ghost(target);
        proof {
            assert forall|j: int| 0 <= j < self.entries@.len() implies self.map@.contains_key(
                #[trigger] self.entries@[j].0@) && self.map@[self.entries@[j].0@] == self.entries@[j].1@ by {
                let a = src[j];
                assert(self.entries@[j] == old_entries[a]);
                assert(m.contains_key(old_entries[a].0@));
            }
            assert forall|k: Seq<char>| #[trigger] self.map@.contains_key(k) implies exists|j: int|
                0 <= j < self.entries@.len() && #[trigger] self.entries@[j].0@ == k by {
                let a = choose|a: int| 0 <= a < n && #[trigger] old_entries[a].0@ == k;
                let j = choose|j: int| 0 <= j < src.len() && #[trigger] src[j] == a;
                assert(self.entries@[j] == old_entries[a]);
            }
            assert forall|p: int, q: int| 0 <= p < q < self.entries@.len() implies #[trigger] self.entries@[p].0@
                != #[trigger] self.entries@[q].0@ by {
                assert(src[p] < src[q]);
                assert(self.entries@[p] == old_entries[src[p]]);
                assert(self.entries@[q] == old_entries[src[q]]);
            }
        }
    }

    /// The entries whose name begins with `prefix`, each once.
    pub fn entries_with_prefix(&self, prefix: &str) -> (r: Vec<(String, String)>)
        requires
            self.wf(),
        ensures
            forall|j: int|
                0 <= j < r@.len() ==> has_prefix(#[trigger] r@[j].0@, prefix@) && self@.contains_key(
                    r@[j].0@) && self@[r@[j].0@] == r@[j].1@,
            forall|k: Seq<char>|
                #[trigger] self@.contains_key(k) && has_prefix(k, prefix@) ==> exists|j: int|
                    0 <= j < r@.len() && #[trigger] r@[j].0@ == k,
            forall|p: int, q: int|
                0 <= p < q < r@.len() ==> #[trigger] r@[p].0@ != #[trigger] r@[q].0@,
    {
        let ghost old_entries = self.entries@;
        let mut out: Vec<(String, String)> = Vec::new();
        let ghost mut src: Seq<int> = Seq::empty();
        let mut i: usize = 0;
        let n = self.entries.len();
        while i < n
            invariant
                n == old_entries.len(),
                old_entries == self.entries@,
                self.wf(),
                i <= n,
                src.len() == out@.len(),
                forall|j: int| 0 <= j < src.len() ==> 0 <= #[trigger] src[j] < i,
                forall|j: int| 0 <= j < src.len() ==> #[trigger] out@[j] == old_entries[src[j]],
                forall|j: int| 0 <= j < src.len() ==> has_prefix(old_entries[#[trigger] src[j]].0@, prefix@),
                forall|p: int, q: int| 0 <= p < q < src.len() ==> #[trigger] src[p] < #[trigger] src[q],
                forall|a: int| 0 <= a < i && has_prefix(old_entries[a].0@, prefix@) ==> exists|j: int|
                    0 <= j < src.len() && #[trigger] src[j] == a,
            decreases n - i,
        {
            let e = &self.entries[i];
            if starts_with_text(e.0.as_str(), prefix) {
                out.push((e.0.clone(), e.1.clone()));
                proof {
                    let before = src;
                    src = src.push(i as int);
                    assert forall|a: int| 0 <= a < i + 1 && has_prefix(old_entries[a].0@, prefix@) implies exists|j: int|
                        0 <= j < src.len() && #[trigger] src[j] == a by {
                        if a < i {
                            let j = choose|j: int| 0 <= j < before.len() && #[trigger] before[j] == a;
                            assert(src[j] == a);
                        } else {
                            assert(src[before.len() as int] == a);
                        }
                    }
                }
            }
            i = i + 1;
        }
        proof {
            assert forall|j: int| 0 <= j < out@.len() implies has_prefix(#[trigger] out@[j].0@, prefix@)
                && self@.contains_key(out@[j].0@) && self@[out@[j].0@] == out@[j].1@ by {
                let a = src[j];
                assert(out@[j] == old_entries[a]);
                assert(self.map@.contains_key(old_entries[a].0@));
            }
            assert forall|k: Seq<char>| #[trigger] self@.contains_key(k) && has_prefix(k, prefix@) implies exists|j: int|
                0 <= j < out@.len() && #[trigger] out@[j].0@ == k by {
                let a = choose|a: int| 0 <= a < n && #[trigger] old_entries[a].0@ == k;
                let j = choose|j: int| 0 <= j < src.len() && #[trigger] src[j] == a;
                assert(out@[j] == old_entries[a]);
            }
            assert forall|p: int, q: int| 0 <= p < q < out@.len() implies #[trigger] out@[p].0@
                != #[trigger] out@[q].0@ by {
                assert(src[p] < src[q]);
                assert(out@[p] == old_entries[src[p]]);
                assert(out@[q] == old_entries[src[q]]);
            }
        }
        out
    }
}

} // verus!
