//! A finite map keyed by text, for the table of open requests.
use vstd::prelude::*;

verus! {

/// A finite map from texts to values, kept as a list of distinct keys.
pub struct TextMap<T> {
    entries: Vec<(String, T)>,
}

impl<T> TextMap<T> {
    /// No key occurs twice.
    pub closed spec fn wf(&self) -> bool {
        forall|a: int, b: int|
            0 <= a < b < self.entries@.len() ==> #[trigger] self.entries@[a].0@ != #[trigger] self.entries@[b].0@
    }

    /// The map.
    pub closed spec fn view(&self) -> Map<Seq<char>, T> {
        Map::new(
            |id: Seq<char>| exists|k: int| 0 <= k < self.entries@.len() && #[trigger] self.entries@[k].0@ == id,
            |id: Seq<char>| {
                let k = choose|k: int| 0 <= k < self.entries@.len() && #[trigger] self.entries@[k].0@ == id;
                self.entries@[k].1
            },
        )
    }

    proof fn lemma_view_at(&self, k: int)
        requires
            self.wf(),
            0 <= k < self.entries@.len(),
        ensures
            self.view().dom().contains(self.entries@[k].0@),
            self.view()[self.entries@[k].0@] == self.entries@[k].1,
    {
        let id = self.entries@[k].0@;
        assert(self.view().dom().contains(id));
        let c = choose|c: int| 0 <= c < self.entries@.len() && #[trigger] self.entries@[c].0@ == id;
        if c != k {
            if c < k {
                assert(self.entries@[c].0@ != self.entries@[k].0@);
            } else {
                assert(self.entries@[k].0@ != self.entries@[c].0@);
            }
        }
    }

    /// The empty map.
    pub fn new() -> (r: Self)
        ensures
            r.wf(),
            r.view() == Map::<Seq<char>, T>::empty(),
    {
        let r = TextMap { entries: Vec::new() };
        assert(r.view() =~= Map::<Seq<char>, T>::empty());
        r
    }

    fn find(&self, id: &String) -> (r: Option<usize>)
        requires
            self.wf(),
        ensures
            match r {
                Some(k) => k < self.entries@.len() && self.entries@[k as int].0@ == id@,
                None => !self.view().dom().contains(id@),
            },
    {
        let mut k: usize = 0;
        while k < self.entries.len()
            invariant
                k <= self.entries@.len(),
                forall|m: int| 0 <= m < k ==> self.entries@[m].0@ != id@,
            decreases self.entries.len() - k,
        {
            if self.entries[k].0 == *id {
                return Some(k);
            }
            k += 1;
        }
        None
    }

    /// Whether `id` is a key.
    pub fn contains(&self, id: &String) -> (r: bool)
        requires
            self.wf(),
        ensures
            r == self.view().dom().contains(id@),
    {
        match self.find(id) {
            Some(k) => {
                proof {
                    self.lemma_view_at(k as int);
                }
                true
            },
            None => false,
        }
    }

    /// Map `id` to `value`, replacing what it was mapped to.
    pub fn insert(&mut self, id: String, value: T)
        requires
            old(self).wf(),
        ensures
            final(self).wf(),
            final(self).view() == old(self).view().insert(id@, value),
    {
        let ghost old_self = *self;
        match self.find(&id) {
            Some(k) => {
                let _ = self.entries.remove(k);
                proof {
                    assert forall|a: int, b: int|
                        0 <= a < b < self.entries@.len() implies #[trigger] self.entries@[a].0@ != #[trigger] self.entries@[b].0@ by {
                        let oa = if a < k { a } else { a + 1 };
                        let ob = if b < k { b } else { b + 1 };
                        assert(self.entries@[a] == old_self.entries@[oa]);
                        assert(self.entries@[b] == old_self.entries@[ob]);
                        assert(old_self.entries@[oa].0@ != old_self.entries@[ob].0@);
                    }
                }
                let ghost mid = *self;
                self.entries.push((id, value));
                proof {
                    self.lemma_insert_view(old_self, mid, k as int);
                }
            },
            None => {
                self.entries.push((id, value));
                proof {
                    assert forall|a: int, b: int|
                        0 <= a < b < self.entries@.len() implies #[trigger] self.entries@[a].0@ != #[trigger] self.entries@[b].0@ by {
                        if b == self.entries@.len() - 1 {
                            assert(old_self.entries@[a].0@ == self.entries@[a].0@);
                            if self.entries@[a].0@ == id@ {
                                assert(old_self.view().dom().contains(id@));
                            }
                        } else {
                            assert(old_self.entries@[a] == self.entries@[a]);
                            assert(old_self.entries@[b] == self.entries@[b]);
                        }
                    }
                    self.lemma_push_view(old_self);
                }
            },
        }
    }

    proof fn lemma_push_view(&self, before: Self)
        requires
            before.wf(),
            self.wf(),
            self.entries@.len() == before.entries@.len() + 1,
            forall|m: int| 0 <= m < before.entries@.len() ==> self.entries@[m] == before.entries@[m],
        ensures
            self.view() == before.view().insert(
                self.entries@.last().0@,
                self.entries@.last().1,
            ),
    {
        let last = self.entries@.len() - 1;
        let id = self.entries@[last].0@;
        assert forall|x: Seq<char>| #[trigger] self.view().dom().contains(x) <==> before.view().insert(id, self.entries@[last].1).dom().contains(x) by {
            if self.view().dom().contains(x) {
                let c = choose|c: int| 0 <= c < self.entries@.len() && #[trigger] self.entries@[c].0@ == x;
                if c < last {
                    assert(before.entries@[c].0@ == x);
                }
            }
            if before.view().dom().contains(x) {
                let c = choose|c: int| 0 <= c < before.entries@.len() && #[trigger] before.entries@[c].0@ == x;
                assert(self.entries@[c].0@ == x);
            }
            if x == id {
                assert(self.entries@[last].0@ == x);
            }
        }
        assert forall|x: Seq<char>| #[trigger] self.view().dom().contains(x) implies self.view()[x] == before.view().insert(id, self.entries@[last].1)[x] by {
            let c = choose|c: int| 0 <= c < self.entries@.len() && #[trigger] self.entries@[c].0@ == x;
            self.lemma_view_at(c);
            if c < last {
                before.lemma_view_at(c);
                assert(self.entries@[c] == before.entries@[c]);
                assert(self.entries@[c].0@ != self.entries@[last].0@);
            }
        }
        assert(self.view() =~= before.view().insert(id, self.entries@[last].1));
    }

    proof fn lemma_insert_view(&self, before: Self, mid: Self, k: int)
        requires
            before.wf(),
            mid.wf(),
            self.wf(),
            0 <= k < before.entries@.len(),
            mid.entries@ == before.entries@.remove(k),
            self.entries@ == mid.entries@.push(self.entries@.last()),
            self.entries@.last().0@ == before.entries@[k].0@,
        ensures
            self.view() == before.view().insert(self.entries@.last().0@, self.entries@.last().1),
    {
        mid.lemma_remove_view(before, k);
        assert forall|m: int| 0 <= m < mid.entries@.len() implies self.entries@[m] == mid.entries@[m] by {}
        self.lemma_push_view(mid);
        assert(before.view().remove(before.entries@[k].0@).insert(self.entries@.last().0@, self.entries@.last().1)
            =~= before.view().insert(self.entries@.last().0@, self.entries@.last().1));
    }

    proof fn lemma_remove_view(&self, before: Self, k: int)
        requires
            before.wf(),
            0 <= k < before.entries@.len(),
            self.entries@ == before.entries@.remove(k),
        ensures
            self.wf(),
            self.view() == before.view().remove(before.entries@[k].0@),
    {
        let id = before.entries@[k].0@;
        assert forall|a: int, b: int|
            0 <= a < b < self.entries@.len() implies #[trigger] self.entries@[a].0@ != #[trigger] self.entries@[b].0@ by {
            let oa = if a < k { a } else { a + 1 };
            let ob = if b < k { b } else { b + 1 };
            assert(before.entries@[oa].0@ != before.entries@[ob].0@);
        }
        assert forall|x: Seq<char>| #[trigger] self.view().dom().contains(x) <==> before.view().remove(id).dom().contains(x) by {
            if self.view().dom().contains(x) {
                let c = choose|c: int| 0 <= c < self.entries@.len() && #[trigger] self.entries@[c].0@ == x;
                let oc = if c < k { c } else { c + 1 };
                assert(before.entries@[oc].0@ == x);
                if x == id {
                    if oc < k {
                        assert(before.entries@[oc].0@ != before.entries@[k].0@);
                    } else {
                        assert(before.entries@[k].0@ != before.entries@[oc].0@);
                    }
                }
            }
            if before.view().remove(id).dom().contains(x) {
                let c = choose|c: int| 0 <= c < before.entries@.len() && #[trigger] before.entries@[c].0@ == x;
                assert(c != k);
                let nc = if c < k { c } else { c - 1 };
                assert(self.entries@[nc].0@ == x);
            }
        }
        assert forall|x: Seq<char>| #[trigger] self.view().dom().contains(x) implies self.view()[x] == before.view().remove(id)[x] by {
            let c = choose|c: int| 0 <= c < self.entries@.len() && #[trigger] self.entries@[c].0@ == x;
            self.lemma_view_at(c);
            let oc = if c < k { c } else { c + 1 };
            before.lemma_view_at(oc);
        }
        assert(self.view() =~= before.view().remove(id));
    }

    /// Take out the value under `id`, if there is one.
    pub fn remove(&mut self, id: &String) -> (r: Option<T>)
        requires
            old(self).wf(),
        ensures
            final(self).wf(),
            final(self).view() == old(self).view().remove(id@),
            match r {
                Some(v) => old(self).view().dom().contains(id@) && v == old(self).view()[id@],
                None => !old(self).view().dom().contains(id@),
            },
    {
        let ghost old_self = *self;
        match self.find(id) {
            Some(k) => {
                proof {
                    old_self.lemma_view_at(k as int);
                }
                let (_, v) = self.entries.remove(k);
                proof {
                    self.lemma_remove_view(old_self, k as int);
                }
                Some(v)
            },
            None => {
                assert(old_self.view().remove(id@) =~= old_self.view());
                None
            },
        }
    }
}

impl<T> TextMap<T> {
    /// The value under `id`, if there is one.
    pub fn get(&self, id: &String) -> (r: Option<&T>)
        requires
            self.wf(),
        ensures
            match r {
                Some(v) => self.view().dom().contains(id@) && *v == self.view()[id@],
                None => !self.view().dom().contains(id@),
            },
    {
        match self.find(id) {
            Some(k) => {
                proof {
                    self.lemma_view_at(k as int);
                }
                Some(&self.entries[k].1)
            },
            None => None,
        }
    }
}

} // verus!
