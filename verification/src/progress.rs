use vstd::prelude::*;

verus! {

/// Where a progress display stands. Completion and cancellation are final.
#[derive(Clone, Copy, Debug, PartialEq, Eq, Structural)]
pub enum Status {
    Running,
    Completed,
    Cancelled,
}

/// Progress of a long operation: its status and the position shown, in
/// hundredths of a percent (`0..=10000`).
#[derive(Clone, Copy, Debug, PartialEq, Eq, Structural)]
pub struct ProgressState {
    pub status: Status,
    pub position: u32,
}

/// Hundredths of a percent shown for `done` of `total` steps, rounded.
pub open spec fn fraction_position(done: int, total: int) -> int {
    (done * 10000 + total / 2) / total
}

/// The position shown for `done` of `total` steps, at most 100%.
pub open spec fn shown_position(done: int, total: int) -> int {
    if fraction_position(done, total) > 10000 {
        10000
    } else {
        fraction_position(done, total)
    }
}

/// The display after a completion: a running one completes, an ended one
/// stays as it is.
pub open spec fn completed(s: ProgressState) -> ProgressState {
    if s.status == Status::Running {
        ProgressState { status: Status::Completed, position: s.position }
    } else {
        s
    }
}

/// The display after a cancellation: a running one is cancelled, an ended
/// one stays as it is.
pub open spec fn cancelled(s: ProgressState) -> ProgressState {
    if s.status == Status::Running {
        ProgressState { status: Status::Cancelled, position: s.position }
    } else {
        s
    }
}

impl ProgressState {
    pub fn new() -> (r: ProgressState)
        ensures
            r.status == Status::Running,
            r.position == 0,
    {
        ProgressState { status: Status::Running, position: 0 }
    }

    pub fn running(&self) -> (r: bool)
        ensures
            r == (self.status == Status::Running),
    {
        self.status == Status::Running
    }

    /// Moves a running display to `position` (clamped to 100%); `finished`
    /// completes it. Answers whether it is still running, or for `finished`,
    /// whether this call completed it. A display that has ended is unchanged.
    pub fn update(&mut self, position: u32, finished: bool) -> (r: bool)
        ensures
            old(self).status != Status::Running ==> !r && *final(self) == *old(self),
            old(self).status == Status::Running ==> {
                &&& final(self).position == if position > 10000 { 10000 } else { position }
                &&& finished ==> r && final(self).status == Status::Completed
                &&& !finished ==> r && final(self).status == Status::Running
            },
    {
        if !self.running() {
            return false;
        }
        self.position = if position > 10000 {
            10000
        } else {
            position
        };
        if finished {
            self.complete()
        } else {
            self.running()
        }
    }

    /// Completes a running display; answers whether this call did so.
    pub fn complete(&mut self) -> (r: bool)
        ensures
            r == (old(self).status == Status::Running),
            *final(self) == completed(*old(self)),
    {
        if self.running() {
            self.status = Status::Completed;
            true
        } else {
            false
        }
    }

    /// Cancels a running display; answers whether this call did so.
    pub fn cancel(&mut self) -> (r: bool)
        ensures
            r == (old(self).status == Status::Running),
            *final(self) == cancelled(*old(self)),
    {
        if self.running() {
            self.status = Status::Cancelled;
            true
        } else {
            false
        }
    }
}

/// Whichever of completion and cancellation comes first decides the outcome:
/// after either, the other fails and leaves the display as it is.
pub proof fn lemma_first_ending_wins(s: ProgressState)
    requires
        s.status == Status::Running,
    ensures
        completed(s).status == Status::Completed,
        cancelled(completed(s)) == completed(s),
        cancelled(s).status == Status::Cancelled,
        completed(cancelled(s)) == cancelled(s),
        completed(s).position == s.position,
        cancelled(s).position == s.position,
{
}

/// Windows whose input is held off while progress displays are open: the
/// window, how many displays hold it, and whether to enable it again when
/// the last one closes (it was enabled before the first).
pub struct OwnerLocks {
    pub owners: Vec<(isize, usize, bool)>,
}

/// The holds after `acquire`: one more on a held window; none taken on
/// another, which the caller records with `insert`.
pub open spec fn hold_acquired(m: Map<isize, (usize, bool)>, owner: isize) -> Map<isize, (usize, bool)> {
    if m.dom().contains(owner) {
        m.insert(owner, ((m[owner].0 + 1) as usize, m[owner].1))
    } else {
        m
    }
}

/// The holds after `insert`: the first hold on `owner`.
pub open spec fn hold_inserted(m: Map<isize, (usize, bool)>, owner: isize, restore: bool) -> Map<isize, (usize, bool)> {
    m.insert(owner, (1usize, restore))
}

/// The holds after `release`, and its answer: the last hold removes the
/// window and tells whether to enable it again; an earlier one only counts
/// down.
pub open spec fn hold_released(m: Map<isize, (usize, bool)>, owner: isize) -> (Map<isize, (usize, bool)>, Option<bool>) {
    if m[owner].0 == 1 {
        (m.remove(owner), Some(m[owner].1))
    } else {
        (m.insert(owner, ((m[owner].0 - 1) as usize, m[owner].1)), None)
    }
}

/// `n` holds on a window that was not held, the first recorded with
/// `restore`.
pub open spec fn held(m: Map<isize, (usize, bool)>, owner: isize, restore: bool, n: nat) -> Map<isize, (usize, bool)>
    decreases n,
{
    if n <= 1 {
        hold_inserted(m, owner, restore)
    } else {
        hold_acquired(held(m, owner, restore, (n - 1) as nat), owner)
    }
}

proof fn lemma_held(m: Map<isize, (usize, bool)>, owner: isize, restore: bool, n: nat)
    requires
        1 <= n <= usize::MAX,
    ensures
        held(m, owner, restore, n) == m.insert(owner, (n as usize, restore)),
    decreases n,
{
    if n > 1 {
        lemma_held(m, owner, restore, (n - 1) as nat);
        assert(held(m, owner, restore, n) =~= m.insert(owner, (n as usize, restore)));
    }
}

/// A window stays disabled while any progress display holds it. Released
/// from `n` holds, it keeps `n - 1`, and the last release gives the
/// holds back as they were before the first, answering whether the window
/// was enabled then.
pub proof fn lemma_last_release_restores(m: Map<isize, (usize, bool)>, owner: isize, restore: bool, n: nat)
    requires
        !m.dom().contains(owner),
        1 <= n <= usize::MAX,
    ensures
        n == 1 ==> hold_released(held(m, owner, restore, n), owner) == (m, Some(restore)),
        n > 1 ==> hold_released(held(m, owner, restore, n), owner) == (held(m, owner, restore, (n - 1) as nat), None::<bool>),
{
    lemma_held(m, owner, restore, n);
    if n == 1 {
        assert(m.insert(owner, (1usize, restore)).remove(owner) =~= m);
    } else {
        lemma_held(m, owner, restore, (n - 1) as nat);
        assert(m.insert(owner, (n as usize, restore)).insert(owner, ((n - 1) as usize, restore))
            =~= m.insert(owner, ((n - 1) as usize, restore)));
    }
}

impl OwnerLocks {
    /// Each held window with its hold count and whether to enable it again.
    pub open spec fn holds(&self) -> Map<isize, (usize, bool)> {
        Map::new(
            |o: isize| self.entry(o) is Some,
            |o: isize| (self.owners@[self.entry(o)->0].1, self.owners@[self.entry(o)->0].2),
        )
    }

    proof fn lemma_entry_at(&self, j: int)
        requires
            self.wf(),
            0 <= j < self.owners@.len(),
        ensures
            self.entry(self.owners@[j].0) == Some(j),
    {
        let o = self.owners@[j].0;
        assert(exists|i: int| 0 <= i < self.owners@.len() && #[trigger] self.owners@[i].0 == o);
        let i = self.entry(o)->0;
        if i != j {
            if i < j {
                assert(self.owners@[i].0 != self.owners@[j].0);
            } else {
                assert(self.owners@[j].0 != self.owners@[i].0);
            }
        }
    }

    /// Each window is listed at most once, with a positive count.
    pub open spec fn wf(&self) -> bool {
        &&& forall|i: int, j: int| 0 <= i < j < self.owners@.len() ==> self.owners@[i].0 != self.owners@[j].0
        &&& forall|i: int| 0 <= i < self.owners@.len() ==> #[trigger] self.owners@[i].1 > 0
    }

    /// The entry for `owner`, if it is held.
    pub open spec fn entry(&self, owner: isize) -> Option<int> {
        if exists|i: int| 0 <= i < self.owners@.len() && #[trigger] self.owners@[i].0 == owner {
            Some(choose|i: int| 0 <= i < self.owners@.len() && #[trigger] self.owners@[i].0 == owner)
        } else {
            None
        }
    }

    pub fn new() -> (r: OwnerLocks)
        ensures
            r.wf(),
            r.owners@.len() == 0,
    {
        OwnerLocks { owners: Vec::new() }
    }

    fn find(&self, owner: isize) -> (r: Option<usize>)
        requires
            self.wf(),
        ensures
            match r {
                Some(i) => i < self.owners@.len() && self.owners@[i as int].0 == owner,
                None => forall|i: int| 0 <= i < self.owners@.len() ==> #[trigger] self.owners@[i].0 != owner,
            },
    {
        let mut i: usize = 0;
        while i < self.owners.len()
            invariant
                i <= self.owners@.len(),
                forall|j: int| 0 <= j < i ==> #[trigger] self.owners@[j].0 != owner,
            decreases self.owners@.len() - i,
        {
            if self.owners[i].0 == owner {
                return Some(i);
            }
            i = i + 1;
        }
        None
    }

    /// Takes one more hold on `owner` if it is held already. Answers `true`
    /// when it was not held: the caller then disables the window and records
    /// it with `insert`.
    pub fn acquire(&mut self, owner: isize) -> (first: bool)
        requires
            old(self).wf(),
            forall|i: int| 0 <= i < old(self).owners@.len() ==> #[trigger] old(self).owners@[i].1 < usize::MAX,
        ensures
            final(self).wf(),
            first == (old(self).entry(owner) is None),
            first ==> *final(self) == *old(self),
            final(self).holds() == hold_acquired(old(self).holds(), owner),
            !first ==> {
                let i = old(self).entry(owner)->0;
                let (hwnd, count, restore) = old(self).owners@[i];
                final(self).owners@ == old(self).owners@.update(i, (hwnd, (count + 1) as usize, restore))
            },
    {
        match self.find(owner) {
            Some(i) => {
                let (hwnd, count, restore) = self.owners[i];
                self.owners.set(i, (hwnd, count + 1, restore));
                proof {
                    assert(old(self).entry(owner) == Some(i as int));
                    self.lemma_updated_holds(old(self), i as int);
                    assert(self.holds() =~= hold_acquired(old(self).holds(), owner));
                }
                false
            },
            None => {
                assert(self.holds() =~= hold_acquired(old(self).holds(), owner));
                true
            },
        }
    }

    /// With one entry's count changed, every window keeps its entry, and
    /// only that entry's hold changes.
    proof fn lemma_updated_holds(&self, before: &OwnerLocks, i: int)
        requires
            before.wf(),
            self.wf(),
            0 <= i < before.owners@.len(),
            self.owners@.len() == before.owners@.len(),
            self.owners@[i].0 == before.owners@[i].0,
            forall|j: int| 0 <= j < before.owners@.len() && j != i ==> self.owners@[j] == before.owners@[j],
        ensures
            forall|o: isize| #[trigger] self.entry(o) == before.entry(o),
    {
        assert forall|o: isize| #[trigger] self.entry(o) == before.entry(o) by {
            if before.entry(o) is Some {
                let j = before.entry(o)->0;
                before.lemma_entry_at(j);
                assert(self.owners@[j].0 == o);
                self.lemma_entry_at(j);
            } else if self.entry(o) is Some {
                let j = self.entry(o)->0;
                assert(before.owners@[j].0 == o);
            }
        };
    }

    /// Records the first hold on `owner`; `restore` tells whether to enable
    /// the window again when the last hold is released.
    pub fn insert(&mut self, owner: isize, restore: bool)
        requires
            old(self).wf(),
            old(self).entry(owner) is None,
        ensures
            final(self).wf(),
            final(self).owners@ == old(self).owners@.push((owner, 1usize, restore)),
            final(self).holds() == hold_inserted(old(self).holds(), owner, restore),
    {
        self.owners.push((owner, 1, restore));
        proof {
            let n = old(self).owners@.len() as int;
            self.lemma_entry_at(n);
            assert forall|o: isize| o != owner implies #[trigger] self.entry(o) == old(self).entry(o) by {
                if old(self).entry(o) is Some {
                    let j = old(self).entry(o)->0;
                    old(self).lemma_entry_at(j);
                    assert(self.owners@[j].0 == o);
                    self.lemma_entry_at(j);
                } else if self.entry(o) is Some {
                    let j = self.entry(o)->0;
                    assert(old(self).owners@[j].0 == o);
                }
            };
            assert(self.holds() =~= hold_inserted(old(self).holds(), owner, restore));
        }
    }

    /// Releases one hold on `owner`. When it was the last one the entry is
    /// removed and the answer tells whether to enable the window again.
    pub fn release(&mut self, owner: isize) -> (restore: Option<bool>)
        requires
            old(self).wf(),
            old(self).entry(owner) is Some,
        ensures
            final(self).wf(),
            (final(self).holds(), restore) == hold_released(old(self).holds(), owner),
            ({
                let i = old(self).entry(owner)->0;
                let (hwnd, count, restore_window) = old(self).owners@[i];
                if count == 1 {
                    &&& restore == Some(restore_window)
                    &&& final(self).entry(owner) is None
                    &&& final(self).owners@.len() == old(self).owners@.len() - 1
                    &&& forall|o: isize| o != owner ==> (final(self).entry(o) is Some <==> old(self).entry(o) is Some)
                    &&& forall|o: isize| o != owner && old(self).entry(o) is Some ==> final(self).owners@[final(self).entry(o)->0] == old(self).owners@[old(self).entry(o)->0]
                } else {
                    &&& restore is None
                    &&& final(self).owners@ == old(self).owners@.update(i, (hwnd, (count - 1) as usize, restore_window))
                }
            }),
    {
        let i = match self.find(owner) {
            Some(i) => i,
            None => {
                return None;
            },
        };
        proof {
            assert(old(self).entry(owner) == Some(i as int));
        }
        let (hwnd, count, restore) = self.owners[i];
        if count == 1 {
            let ghost before = self.owners@;
            let removed = self.owners.swap_remove(i);
            proof {
                assert forall|o: isize| o != owner implies (final(self).entry(o) is Some <==> old(self).entry(o) is Some) by {
                    if old(self).entry(o) is Some {
                        let j = old(self).entry(o)->0;
                        if j == before.len() - 1 {
                            assert(self.owners@[i as int].0 == o);
                        } else {
                            assert(self.owners@[j].0 == o);
                        }
                    }
                    if final(self).entry(o) is Some {
                        let j = final(self).entry(o)->0;
                        if j == i {
                            assert(before[before.len() - 1].0 == o);
                        } else {
                            assert(before[j].0 == o);
                        }
                    }
                };
                assert forall|o: isize| o != owner && old(self).entry(o) is Some implies final(self).owners@[final(self).entry(o)->0] == old(self).owners@[old(self).entry(o)->0] by {
                    let j = old(self).entry(o)->0;
                    let k = final(self).entry(o)->0;
                    if k == i {
                        assert(before[before.len() - 1].0 == o);
                    } else {
                        assert(before[k].0 == o);
                    }
                };
                assert(self.entry(owner) is None) by {
                    if self.entry(owner) is Some {
                        let k = self.entry(owner)->0;
                        if k == i {
                            assert(before[before.len() - 1].0 == owner);
                            old(self).lemma_entry_at(before.len() - 1);
                        } else {
                            assert(before[k].0 == owner);
                            old(self).lemma_entry_at(k);
                        }
                    }
                };
                assert(self.holds() =~= old(self).holds().remove(owner));
            }
            Some(restore)
        } else {
            self.owners.set(i, (hwnd, count - 1, restore));
            proof {
                self.lemma_updated_holds(old(self), i as int);
                assert(self.holds() =~= hold_released(old(self).holds(), owner).0);
            }
            None
        }
    }
}

} // verus!
