use vstd::prelude::*;

verus! {

/// The lifecycle state of one node, ordered by progress.
#[derive(Clone, Copy, Debug, PartialEq, Eq, Structural)]
pub enum ObjectiveState {
    Disabled,
    Locked,
    GlitchLocked,
    Unlocked,
    Complete,
}

/// The name the rule engine uses for a node's lifecycle state.
pub type NodeState = ObjectiveState;

/// Position of a state in the progress order.
pub open spec fn rank(s: ObjectiveState) -> nat {
    match s {
        ObjectiveState::Disabled => 0,
        ObjectiveState::Locked => 1,
        ObjectiveState::GlitchLocked => 2,
        ObjectiveState::Unlocked => 3,
        ObjectiveState::Complete => 4,
    }
}

/// `s` has made at least as much progress as `threshold`.
pub open spec fn reaches(s: ObjectiveState, threshold: ObjectiveState) -> bool {
    rank(s) >= rank(threshold)
}

impl ObjectiveState {
    pub fn at_least(&self, threshold: &Self) -> (r: bool)
        ensures
            r == reaches(*self, *threshold),
    {
        self.ordinal() >= threshold.ordinal()
    }

    pub fn is(&self, threshold: &Self) -> (r: bool)
        ensures
            r == (*self == *threshold),
    {
        *self == *threshold
    }

    pub fn ordinal(&self) -> (r: u32)
        ensures
            r as nat == rank(*self),
    {
        match self {
            ObjectiveState::Disabled => 0,
            ObjectiveState::Locked => 1,
            ObjectiveState::GlitchLocked => 2,
            ObjectiveState::Unlocked => 3,
            ObjectiveState::Complete => 4,
        }
    }
}

/// The progress order is `Disabled < Locked < GlitchLocked < Unlocked < Complete`,
/// and only `Unlocked` and `Complete` are at least `Unlocked`.
pub proof fn lemma_progress_order(s: ObjectiveState)
    ensures
        rank(ObjectiveState::Disabled) < rank(ObjectiveState::Locked),
        rank(ObjectiveState::Locked) < rank(ObjectiveState::GlitchLocked),
        rank(ObjectiveState::GlitchLocked) < rank(ObjectiveState::Unlocked),
        rank(ObjectiveState::Unlocked) < rank(ObjectiveState::Complete),
        reaches(s, ObjectiveState::Unlocked) <==> (s == ObjectiveState::Unlocked || s
            == ObjectiveState::Complete),
        forall|a: ObjectiveState, b: ObjectiveState| rank(a) == rank(b) ==> a == b,
{
}

/// The state of each node, keyed by node id.
pub struct StateMap {
    pub ids: Vec<String>,
    pub states: Vec<ObjectiveState>,
}

impl StateMap {
    /// One state per id, and no id twice.
    pub open spec fn wf(&self) -> bool {
        &&& self.ids.len() == self.states.len()
        &&& forall|i: int, j: int|
            0 <= i < j < self.ids.len() ==> #[trigger] self.ids[i]@ != #[trigger] self.ids[j]@
    }

    pub open spec fn has(&self, k: Seq<char>) -> bool {
        exists|i: int| 0 <= i < self.ids.len() && self.ids[i]@ == k
    }

    pub open spec fn slot(&self, k: Seq<char>) -> int {
        choose|i: int| 0 <= i < self.ids.len() && self.ids[i]@ == k
    }

    pub proof fn lemma_slot(&self, i: int)
        requires
            self.wf(),
            0 <= i < self.ids.len(),
        ensures
            self.has(self.ids[i]@),
            self.slot(self.ids[i]@) == i,
            self@.contains_key(self.ids[i]@),
            self@[self.ids[i]@] == self.states[i],
    {
        let k = self.ids[i]@;
        assert(self.has(k));
        let j = self.slot(k);
        if j != i {
            if j < i {
                assert(self.ids[j]@ != self.ids[i]@);
            } else {
                assert(self.ids[i]@ != self.ids[j]@);
            }
        }
    }

    pub fn new() -> (r: StateMap)
        ensures
            r.wf(),
            r@ == Map::<Seq<char>, ObjectiveState>::empty(),
    {
        let r = StateMap { ids: Vec::new(), states: Vec::new() };
        assert(r@ =~= Map::<Seq<char>, ObjectiveState>::empty());
        r
    }

    /// Index of `id` among the keys.
    pub fn find(&self, id: &String) -> (r: Option<usize>)
        requires
            self.wf(),
        ensures
            match r {
                Some(i) => i < self.ids.len() && self.ids[i as int]@ == id@,
                None => !self@.contains_key(id@),
            },
    {
        let mut i: usize = 0;
        while i < self.ids.len()
            invariant
                self.wf(),
                i <= self.ids.len(),
                forall|j: int| 0 <= j < i ==> self.ids[j]@ != id@,
            decreases self.ids.len() - i,
        {
            if self.ids[i] == *id {
                return Some(i);
            }
            i = i + 1;
        }
        None
    }

    pub fn get(&self, id: &String) -> (r: Option<ObjectiveState>)
        requires
            self.wf(),
        ensures
            r == (if self@.contains_key(id@) {
                Some(self@[id@])
            } else {
                None::<ObjectiveState>
            }),
    {
        match self.find(id) {
            Some(i) => {
                proof {
                    self.lemma_slot(i as int);
                }
                Some(self.states[i])
            },
            None => None,
        }
    }

    /// Replaces the state stored at position `i`.
    pub fn set_at(&mut self, i: usize, s: ObjectiveState)
        requires
            old(self).wf(),
            i < old(self).ids.len(),
        ensures
            final(self).wf(),
            final(self).ids == old(self).ids,
            final(self).states@ == old(self).states@.update(i as int, s),
            final(self)@ == old(self)@.insert(old(self).ids[i as int]@, s),
    {
        let ghost before = *self;
        self.states.set(i, s);
        proof {
            before.lemma_slot(i as int);
            self.lemma_slot(i as int);
            assert forall|k: Seq<char>| #[trigger] self@.contains_key(k) && k != before.ids[i as int]@ implies self@[k] == before@[k] by {
                {
                    let j = self.slot(k);
                    assert(self.has(k));
                    assert(j != i);
                }
            }
            assert(self@ =~= before@.insert(before.ids[i as int]@, s));
        }
    }

    /// Sets the state of `id`, adding the id if it is not there yet.
    pub fn insert(&mut self, id: String, s: ObjectiveState)
        requires
            old(self).wf(),
        ensures
            final(self).wf(),
            final(self)@ == old(self)@.insert(id@, s),
    {
        match self.find(&id) {
            Some(i) => {
                self.set_at(i, s);
            },
            None => {
                let ghost before = *self;
                self.ids.push(id);
                self.states.push(s);
                proof {
                    let n = before.ids.len() as int;
                    assert forall|i: int, j: int|
                        0 <= i < j < self.ids.len() implies #[trigger] self.ids[i]@
                        != #[trigger] self.ids[j]@ by {
                        if j == n {
                            assert(before.ids[i]@ != self.ids[n]@) by {
                                if before.ids[i]@ == self.ids[n]@ {
                                    before.lemma_slot(i);
                                }
                            }
                        } else {
                            assert(before.ids[i]@ != before.ids[j]@);
                        }
                    }
                    self.lemma_slot(n);
                    assert forall|k: Seq<char>| #[trigger] self@.contains_key(k) && k != self.ids[n]@ implies self@[k] == before@[k] by {
                        {
                            let j = self.slot(k);
                            assert(self.has(k));
                            assert(j < n);
                            before.lemma_slot(j);
                            self.lemma_slot(j);
                        }
                    }
                    assert forall|k: Seq<char>| #[trigger] before@.contains_key(k) implies self@.contains_key(k) by {
                        let j = before.slot(k);
                        assert(before.has(k));
                        assert(self.ids[j]@ == k);
                    }
                    assert(self@ =~= before@.insert(self.ids[n]@, s));
                }
            },
        }
    }
}

impl View for StateMap {
    type V = Map<Seq<char>, ObjectiveState>;

    open spec fn view(&self) -> Map<Seq<char>, ObjectiveState> {
        Map::new(|k: Seq<char>| self.has(k), |k: Seq<char>| self.states[self.slot(k)])
    }
}

} // verus!
