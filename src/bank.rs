//! The memory bank: arrays of platters named by 32-bit identifiers.
use vstd::prelude::*;

use crate::fault::Fault;

verus! {

/// Number of distinct array identifiers.
pub const IDENTIFIERS: u64 = 0x1_0000_0000;

/// `id` is the smallest identifier that names no array of `m`.
pub open spec fn is_least_unused(m: Map<u32, Seq<u32>>, id: u32) -> bool {
    &&& !m.contains_key(id)
    &&& forall|j: u32| j < id ==> m.contains_key(j)
}

/// Every identifier names an array of `m`.
pub open spec fn exhausted(m: Map<u32, Seq<u32>>) -> bool {
    forall|j: u32| m.contains_key(j)
}

/// The smallest identifier that names no array of `m` (where there is one).
pub open spec fn least_unused(m: Map<u32, Seq<u32>>) -> u32 {
    choose|id: u32| is_least_unused(m, id)
}

/// A fresh array of `n` zero platters.
pub open spec fn zeros(n: nat) -> Seq<u32> {
    Seq::new(n, |i: int| 0u32)
}

/// The bank after allocating an array of `n` platters: it goes under the
/// smallest unused identifier.
pub open spec fn allocated(m: Map<u32, Seq<u32>>, n: nat) -> Map<u32, Seq<u32>> {
    m.insert(least_unused(m), zeros(n))
}

/// The arrays of the bank, slot by slot (`None` for an unused identifier
/// below the highest one ever handed out), and the pool of freed
/// identifiers, kept in strictly decreasing order so that the smallest one
/// is last.
pub struct Bank {
    slots: Vec<Option<Vec<u32>>>,
    free: Vec<u32>,
}

impl View for Bank {
    type V = Map<u32, Seq<u32>>;

    closed spec fn view(&self) -> Map<u32, Seq<u32>> {
        Map::new(
            |id: u32| (id as int) < self.slots@.len() && self.slots@[id as int] is Some,
            |id: u32| self.slots@[id as int]->Some_0@,
        )
    }
}

/// The smallest unused identifier is the only one that is least.
pub proof fn lemma_least_unused(m: Map<u32, Seq<u32>>, id: u32)
    requires
        is_least_unused(m, id),
    ensures
        least_unused(m) == id,
{
    let k = least_unused(m);
    assert(is_least_unused(m, k));
    if k < id {
        assert(m.contains_key(k));
    } else if id < k {
        assert(m.contains_key(id));
    }
}

/// Where some identifier is unused, there is a smallest one.
pub proof fn lemma_least_unused_exists(m: Map<u32, Seq<u32>>, j: u32)
    requires
        !m.contains_key(j),
    ensures
        is_least_unused(m, least_unused(m)),
        least_unused(m) <= j,
    decreases j,
{
    if forall|k: u32| k < j ==> m.contains_key(k) {
        assert(is_least_unused(m, j));
        lemma_least_unused(m, j);
    } else {
        let k = choose|k: u32| k < j && !m.contains_key(k);
        lemma_least_unused_exists(m, k);
    }
}

/// Freeing an array right after allocating it and then allocating again
/// hands out the same identifier.
pub proof fn lemma_free_then_allocate_reuses(m: Map<u32, Seq<u32>>, n: nat, n2: nat)
    requires
        !exhausted(m),
    ensures
        !exhausted(allocated(m, n).remove(least_unused(m))),
        least_unused(allocated(m, n).remove(least_unused(m))) == least_unused(m),
        allocated(allocated(m, n).remove(least_unused(m)), n2) == allocated(m, n2),
{
    let j = choose|j: u32| !m.contains_key(j);
    lemma_least_unused_exists(m, j);
    let id = least_unused(m);
    let m3 = allocated(m, n).remove(id);
    assert(m3 =~= m);
}

/// The bank after freeing the identifiers of `ids`, first to last.
pub open spec fn freed_all(m: Map<u32, Seq<u32>>, ids: Seq<u32>) -> Map<u32, Seq<u32>>
    decreases ids.len(),
{
    if ids.len() == 0 {
        m
    } else {
        freed_all(m, ids.drop_last()).remove(ids.last())
    }
}

proof fn lemma_freed_all_keys(m: Map<u32, Seq<u32>>, ids: Seq<u32>, j: u32)
    ensures
        freed_all(m, ids).contains_key(j) <==> m.contains_key(j) && !ids.contains(j),
    decreases ids.len(),
{
    if ids.len() > 0 {
        lemma_freed_all_keys(m, ids.drop_last(), j);
        if ids.drop_last().contains(j) {
            let t = choose|t: int| 0 <= t < ids.drop_last().len() && ids.drop_last()[t] == j;
            assert(ids[t] == j);
        }
        if ids.contains(j) && j != ids.last() {
            let t = choose|t: int| 0 <= t < ids.len() && ids[t] == j;
            assert(ids.drop_last()[t] == j);
        }
    }
}

/// Where every identifier below `k` is in use (as after allocating arrays
/// one after another from a fresh bank), and some of them other than 0 are
/// then freed in any order, the next allocation takes the smallest of the
/// freed identifiers.
pub proof fn lemma_smallest_freed_first(m: Map<u32, Seq<u32>>, k: u32, ids: Seq<u32>)
    requires
        forall|j: u32| j < k ==> m.contains_key(j),
        ids.len() > 0,
        forall|i: int| 0 <= i < ids.len() ==> 0 < #[trigger] ids[i] < k,
    ensures
        !exhausted(freed_all(m, ids)),
        ids.contains(least_unused(freed_all(m, ids))),
        forall|i: int| 0 <= i < ids.len() ==> least_unused(freed_all(m, ids)) <= #[trigger] ids[i],
{
    let f = freed_all(m, ids);
    assert(ids.contains(ids[0]));
    lemma_freed_all_keys(m, ids, ids[0]);
    lemma_least_unused_exists(f, ids[0]);
    let l = least_unused(f);
    lemma_freed_all_keys(m, ids, l);
    assert forall|i: int| 0 <= i < ids.len() implies l <= #[trigger] ids[i] by {
        assert(ids.contains(ids[i]));
        lemma_freed_all_keys(m, ids, ids[i]);
    };
}

impl Bank {
    /// The bank's internal invariant: array 0 exists, the identifiers in use
    /// are all below `slots.len()`, and the pool holds, in strictly decreasing
    /// order, exactly the unused identifiers below it.
    pub closed spec fn wf(&self) -> bool {
        &&& 1 <= self.slots@.len() <= IDENTIFIERS
        &&& self.slots@[0] is Some
        &&& forall|i: int|
            0 <= i < self.free@.len() ==> {
                &&& (#[trigger] self.free@[i] as int) < self.slots@.len()
                &&& self.slots@[self.free@[i] as int] is None
            }
        &&& forall|i: int, j: int|
            0 <= i < j < self.free@.len() ==> #[trigger] self.free@[i] > #[trigger] self.free@[j]
        &&& forall|id: int|
            0 <= id < self.slots@.len() && (#[trigger] self.slots@[id]) is None
                ==> self.free@.contains(id as u32)
    }

    /// A bank that holds `program` as array 0 and nothing else.
    pub fn new(program: Vec<u32>) -> (b: Bank)
        ensures
            b.wf(),
            b@ == map![0u32 => program@],
    {
        let mut slots: Vec<Option<Vec<u32>>> = Vec::new();
        slots.push(Some(program));
        let b = Bank { slots, free: Vec::new() };
        assert(b@ =~= map![0u32 => program@]);
        b
    }

    /// Allocates a zero-filled array of `n` platters under the smallest
    /// identifier that is not in use, and returns that identifier. Fails only
    /// when every identifier is in use.
    pub fn allocate(&mut self, n: u32) -> (r: Result<u32, Fault>)
        requires
            old(self).wf(),
        ensures
            final(self).wf(),
            match r {
                Ok(id) => {
                    &&& !exhausted(old(self)@)
                    &&& id == least_unused(old(self)@)
                    &&& final(self)@ == allocated(old(self)@, n as nat)
                },
                Err(f) => {
                    &&& exhausted(old(self)@)
                    &&& f == Fault::OutOfIdentifiers
                    &&& final(self)@ == old(self)@
                },
            },
    {
        let ghost m = self@;
        let fresh: Vec<u32> = vec![0u32; n as usize];
        assert(fresh@ =~= zeros(n as nat));
        let len: usize = self.slots.len();
        let ghost pool = self.free@;
        if self.free.len() > 0 {
            let id: u32 = self.free.pop().unwrap();
            assert(pool =~= self.free@.push(id));
            proof {
                assert forall|j: u32| j < id implies m.contains_key(j) by {
                    if !m.contains_key(j) {
                        assert(self.free@.push(id).contains(j));
                    }
                };
                assert(is_least_unused(m, id));
                lemma_least_unused(m, id);
            }
            let ghost before = self.slots@;
            self.slots.set(id as usize, Some(fresh));
            proof {
                assert forall|i: int| 0 <= i < self.free@.len() implies self.free@[i] > id by {
                    assert(pool[i] > pool[pool.len() - 1]);
                };
                assert forall|k: int|
                    0 <= k < self.slots@.len() && (#[trigger] self.slots@[k]) is None
                    implies self.free@.contains(k as u32) by {
                    assert(before[k] is None);
                    assert(pool.contains(k as u32));
                    let t = choose|t: int| 0 <= t < pool.len() && pool[t] == k as u32;
                    assert(self.free@[t] == k as u32);
                };
            }
            assert(self@ =~= m.insert(id, zeros(n as nat)));
            Ok(id)
        } else if len as u64 >= IDENTIFIERS {
            proof {
                assert forall|j: u32| m.contains_key(j) by {
                    if !m.contains_key(j) {
                        assert(self.free@.contains(j));
                    }
                };
            }
            Err(Fault::OutOfIdentifiers)
        } else {
            let id: u32 = len as u32;
            proof {
                assert forall|j: u32| j < id implies m.contains_key(j) by {
                    if !m.contains_key(j) {
                        assert(self.free@.contains(j));
                    }
                };
                assert(is_least_unused(m, id));
                lemma_least_unused(m, id);
            }
            let ghost before = self.slots@;
            self.slots.push(Some(fresh));
            proof {
                assert forall|k: int|
                    0 <= k < self.slots@.len() && (#[trigger] self.slots@[k]) is None
                    implies self.free@.contains(k as u32) by {
                    assert(before[k] is None);
                    assert(pool.contains(k as u32));
                };
            }
            assert(self@ =~= m.insert(id, zeros(n as nat)));
            Ok(id)
        }
    }

    /// Removes the array named `id` and returns its identifier to the pool.
    /// Array 0, the running program, cannot be removed.
    pub fn free(&mut self, id: u32) -> (r: Result<(), Fault>)
        requires
            old(self).wf(),
        ensures
            final(self).wf(),
            id == 0 ==> r == Err::<(), Fault>(Fault::FreeProgram),
            id != 0 && !old(self)@.contains_key(id) ==> r == Err::<(), Fault>(Fault::UnknownArray),
            id != 0 && old(self)@.contains_key(id) ==> r is Ok,
            r is Ok ==> final(self)@ == old(self)@.remove(id),
            r is Err ==> final(self)@ == old(self)@,
    {
        if id == 0 {
            return Err(Fault::FreeProgram);
        }
        let slot: usize = id as usize;
        if slot >= self.slots.len() || self.slots[slot].is_none() {
            return Err(Fault::UnknownArray);
        }
        let ghost m = self@;
        let ghost pool = self.free@;
        let ghost before = self.slots@;
        self.slots.set(slot, None);
        let mut p: usize = self.free.len();
        while p > 0 && self.free[p - 1] < id
            invariant
                p <= self.free@.len(),
                self.free@ == pool,
                forall|q: int| p <= q < pool.len() ==> pool[q] < id,
            decreases p,
        {
            p = p - 1;
        }
        proof {
            if p > 0 {
                assert(pool[p - 1] != id);
            }
        }
        self.free.insert(p, id);
        proof {
            let f = self.free@;
            assert(f == pool.insert(p as int, id));
            assert forall|i: int, j: int| 0 <= i < j < f.len() implies #[trigger] f[i] > #[trigger] f[j] by {
                if j < p {
                } else if i < p && j == p {
                    assert(pool[i] >= pool[p - 1]);
                } else if i < p {
                    assert(f[j] == pool[j - 1]);
                } else if i == p {
                    assert(f[j] == pool[j - 1]);
                } else {
                    assert(f[i] == pool[i - 1] && f[j] == pool[j - 1]);
                }
            };
            assert forall|i: int| 0 <= i < f.len() implies {
                &&& (#[trigger] f[i] as int) < self.slots@.len()
                &&& self.slots@[f[i] as int] is None
            } by {
                if i < p {
                    assert(f[i] == pool[i]);
                } else if i > p {
                    assert(f[i] == pool[i - 1]);
                }
            };
            assert forall|k: int|
                0 <= k < self.slots@.len() && (#[trigger] self.slots@[k]) is None
                implies f.contains(k as u32) by {
                if k == id as int {
                    assert(f[p as int] == id);
                } else {
                    assert(before[k] is None);
                    assert(pool.contains(k as u32));
                    let t = choose|t: int| 0 <= t < pool.len() && pool[t] == k as u32;
                    if t < p {
                        assert(f[t] == k as u32);
                    } else {
                        assert(f[t + 1] == k as u32);
                    }
                }
            };
        }
        assert(self@ =~= m.remove(id));
        Ok(())
    }

    /// The platter at `index` of the array named `id`.
    pub fn get(&self, id: u32, index: u32) -> (r: Result<u32, Fault>)
        requires
            self.wf(),
        ensures
            !self@.contains_key(id) ==> r == Err::<u32, Fault>(Fault::UnknownArray),
            self@.contains_key(id) && index >= self@[id].len()
                ==> r == Err::<u32, Fault>(Fault::IndexOutOfBounds),
            self@.contains_key(id) && index < self@[id].len()
                ==> r == Ok::<u32, Fault>(self@[id][index as int]),
    {
        let slot: usize = id as usize;
        if slot >= self.slots.len() {
            return Err(Fault::UnknownArray);
        }
        match &self.slots[slot] {
            None => Err(Fault::UnknownArray),
            Some(a) => {
                if (index as usize) < a.len() {
                    Ok(a[index as usize])
                } else {
                    Err(Fault::IndexOutOfBounds)
                }
            },
        }
    }

    /// Stores `value` at `index` of the array named `id`.
    pub fn set(&mut self, id: u32, index: u32, value: u32) -> (r: Result<(), Fault>)
        requires
            old(self).wf(),
        ensures
            final(self).wf(),
            !old(self)@.contains_key(id) ==> r == Err::<(), Fault>(Fault::UnknownArray),
            old(self)@.contains_key(id) && index >= old(self)@[id].len()
                ==> r == Err::<(), Fault>(Fault::IndexOutOfBounds),
            old(self)@.contains_key(id) && index < old(self)@[id].len() ==> {
                &&& r is Ok
                &&& final(self)@ == old(self)@.insert(id, old(self)@[id].update(index as int, value))
            },
            r is Err ==> final(self)@ == old(self)@,
    {
        let slot: usize = id as usize;
        if slot >= self.slots.len() {
            return Err(Fault::UnknownArray);
        }
        let ghost m = self@;
        let mut taken: Option<Vec<u32>> = None;
        self.slots.set_and_swap(slot, &mut taken);
        match taken {
            None => {
                self.slots.set(slot, None);
                assert(self@ =~= m);
                Err(Fault::UnknownArray)
            },
            Some(mut a) => {
                if (index as usize) < a.len() {
                    a.set(index as usize, value);
                    self.slots.set(slot, Some(a));
                    assert(self@ =~= m.insert(id, m[id].update(index as int, value)));
                    Ok(())
                } else {
                    self.slots.set(slot, Some(a));
                    assert(self@ =~= m);
                    Err(Fault::IndexOutOfBounds)
                }
            },
        }
    }

    /// The platter at offset `ip` of array 0, the running program.
    pub fn fetch(&self, ip: usize) -> (r: Result<u32, Fault>)
        requires
            self.wf(),
        ensures
            self@.contains_key(0),
            self@[0].len() <= usize::MAX,
            ip >= self@[0].len() ==> r == Err::<u32, Fault>(Fault::PcOutOfRange),
            ip < self@[0].len() ==> r == Ok::<u32, Fault>(self@[0][ip as int]),
    {
        match &self.slots[0] {
            Some(a) => {
                let len: usize = a.len();
                if ip < len {
                    Ok(a[ip])
                } else {
                    Err(Fault::PcOutOfRange)
                }
            },
            None => Err(Fault::PcOutOfRange),
        }
    }

    /// Replaces the contents of array 0 with a copy of the array named `id`,
    /// which stays in the bank as it was.
    pub fn load_program(&mut self, id: u32) -> (r: Result<(), Fault>)
        requires
            old(self).wf(),
        ensures
            final(self).wf(),
            !old(self)@.contains_key(id) ==> r == Err::<(), Fault>(Fault::UnknownArray),
            old(self)@.contains_key(id) ==> {
                &&& r is Ok
                &&& final(self)@ == old(self)@.insert(0, old(self)@[id])
            },
            r is Err ==> final(self)@ == old(self)@,
    {
        let slot: usize = id as usize;
        if slot >= self.slots.len() {
            return Err(Fault::UnknownArray);
        }
        let ghost m = self@;
        let copy: Vec<u32> = match &self.slots[slot] {
            None => {
                return Err(Fault::UnknownArray);
            },
            Some(a) => a.clone(),
        };
        assert(copy@ =~= m[id]);
        self.slots.set(0, Some(copy));
        assert(self@ =~= m.insert(0, m[id]));
        Ok(())
    }
}

} // verus!
