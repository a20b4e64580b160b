use vstd::prelude::*;

use std::sync::Arc;

verus! {

/// Assets shared by string key.
pub struct AssetStore<T> {
    assets: Vec<(String, Arc<T>)>,
}

impl<T> AssetStore<T> {
    /// The stored keys, in order of first insertion.
    pub closed spec fn keys(&self) -> Seq<Seq<char>> {
        self.assets@.map_values(|p: (String, Arc<T>)| p.0@)
    }

    /// The asset stored under each key.
    pub closed spec fn contents(&self) -> Map<Seq<char>, T> {
        Map::new(
            |k: Seq<char>| self.keys().contains(k),
            |k: Seq<char>| *self.assets@[self.keys().index_of(k)].1,
        )
    }

    pub closed spec fn wf(&self) -> bool {
        self.keys().no_duplicates()
    }

    pub fn new() -> (r: AssetStore<T>)
        ensures
            r.wf(),
            r.contents() == Map::<Seq<char>, T>::empty(),
    {
        let r = AssetStore { assets: Vec::new() };
        assert(r.contents() =~= Map::<Seq<char>, T>::empty());
        r
    }

    fn position(&self, key: &String) -> (r: Option<usize>)
        requires
            self.wf(),
        ensures
            match r {
                Some(i) => i < self.assets.len() && self.keys()[i as int] == key@,
                None => !self.keys().contains(key@),
            },
    {
        let mut i: usize = 0;
        while i < self.assets.len()
            invariant
                i <= self.assets.len(),
                forall|j: int| 0 <= j < i ==> self.keys()[j] != key@,
            decreases self.assets.len() - i,
        {
            if self.assets[i].0 == *key {
                return Some(i);
            }
            i = i + 1;
        }
        None
    }

    /// Stores `asset` under `key`, replacing what was there.
    pub fn add(&mut self, key: &String, asset: T)
        requires
            old(self).wf(),
        ensures
            final(self).wf(),
            final(self).contents() == old(self).contents().insert(key@, asset),
    {
        let ghost before = self.contents();
        match self.position(key) {
            Some(i) => {
                self.assets.set(i, (key.clone(), Arc::new(asset)));
                proof {
                    assert(self.keys() =~= old(self).keys());
                    assert(self.keys().index_of(key@) == i) by {
                        assert(self.keys().contains(key@));
                        if self.keys().index_of(key@) != i {
                            assert(self.keys().no_duplicates());
                        }
                    }
                    assert forall|k: Seq<char>| #[trigger] self.contents().contains_key(k) && k != key@ implies self.contents()[k] == before[k] by {
                        let j = self.keys().index_of(k);
                        assert(self.keys().contains(k));
                    }
                    assert(self.contents() =~= before.insert(key@, asset));
                }
            },
            None => {
                self.assets.push((key.clone(), Arc::new(asset)));
                proof {
                    let n = old(self).assets.len() as int;
                    let ks = self.keys();
                    let oks = old(self).keys();
                    assert(ks =~= oks.push(key@));
                    assert(ks[n] == key@);
                    assert(ks.contains(key@));
                    assert(ks.no_duplicates()) by {
                        assert forall|i: int, j: int|
                            0 <= i < ks.len() && 0 <= j < ks.len() && i != j implies ks[i] != ks[j] by {
                            if i == n {
                                assert(ks[j] == oks[j]);
                            } else if j == n {
                                assert(ks[i] == oks[i]);
                            } else {
                                assert(ks[i] == oks[i] && ks[j] == oks[j]);
                            }
                        }
                    }
                    assert(ks.index_of(key@) == n);
                    assert forall|k: Seq<char>| #[trigger] self.contents().contains_key(k) && k != key@ implies self.contents()[k] == before[k] by {
                        assert(ks.contains(k));
                        let j = ks.index_of(k);
                        assert(j != n);
                        assert(oks[j] == k);
                        assert(oks.contains(k));
                        let j2 = oks.index_of(k);
                        assert(oks[j2] == k);
                        assert(ks[j2] == k);
                        assert(j == j2);
                        assert(self.assets@[j] == old(self).assets@[j]);
                    }
                    assert forall|k: Seq<char>| #[trigger] before.contains_key(k) implies self.contents().contains_key(k) by {
                        assert(oks.contains(k));
                        let j = oks.index_of(k);
                        assert(ks[j] == k);
                    }
                    assert forall|k: Seq<char>| #[trigger] self.contents().contains_key(k) implies k == key@ || before.contains_key(k) by {
                        assert(ks.contains(k));
                        let j = ks.index_of(k);
                        if j < n {
                            assert(oks[j] == k);
                        }
                    }
                    assert(self.contents() =~= before.insert(key@, asset));
                }
            },
        }
    }

    /// The asset stored under `key`.
    pub fn get(&self, key: &String) -> (r: Option<&Arc<T>>)
        requires
            self.wf(),
        ensures
            match r {
                Some(a) => self.contents().contains_key(key@) && **a == self.contents()[key@],
                None => !self.contents().contains_key(key@),
            },
    {
        match self.position(key) {
            Some(i) => {
                proof {
                    assert(self.keys().contains(key@));
                    if self.keys().index_of(key@) != i {
                        assert(self.keys().no_duplicates());
                    }
                }
                Some(&self.assets[i].1)
            },
            None => None,
        }
    }
}

} // verus!
