//! The executor's decisions: the per-contract queues that hand out at most
//! one request per contract at a time, last in first out, and the worker
//! step that runs one request against storage.

use crate::contracts::compiler;
use crate::contracts::request::ContractRequest;
use vstd::prelude::*;

verus! {

/// Where `name` stands among the queue names, if it does.
pub open spec fn name_index(names: Seq<Seq<char>>, name: Seq<char>) -> Option<nat>
    decreases names.len(),
{
    if names.len() == 0 {
        None
    } else if names.last() == name {
        Some((names.len() - 1) as nat)
    } else {
        name_index(names.drop_last(), name)
    }
}

/// The requests waiting for each contract, and the contracts running now.
/// A found position lies within the sequence.
pub proof fn lemma_name_index_bound(names: Seq<Seq<char>>, n: Seq<char>)
    ensures
        name_index(names, n) matches Some(j) ==> j < names.len(),
{
    lemma_name_index(names, n);
}

proof fn lemma_name_index(names: Seq<Seq<char>>, n: Seq<char>)
    ensures
        match name_index(names, n) {
            Some(j) => j < names.len() && names[j as int] == n,
            None => forall|j: int| 0 <= j < names.len() ==> names[j] != n,
        },
    decreases names.len(),
{
    if names.len() > 0 && names.last() != n {
        lemma_name_index(names.drop_last(), n);
        match name_index(names, n) {
            Some(j) => {
                assert(names.drop_last()[j as int] == names[j as int]);
            },
            None => {
                assert forall|j: int| 0 <= j < names.len() implies names[j] != n by {
                    if j < names.len() - 1 {
                        assert(names.drop_last()[j] == names[j]);
                    }
                };
            },
        }
    }
}

proof fn lemma_name_index_unique(names: Seq<Seq<char>>, j: int)
    requires
        0 <= j < names.len(),
        forall|a: int, b: int| 0 <= a < b < names.len() ==> names[a] != names[b],
    ensures
        name_index(names, names[j]) == Some(j as nat),
    decreases names.len(),
{
    if j < names.len() - 1 {
        assert(names.last() != names[j]);
        assert(names.drop_last()[j] == names[j]);
        lemma_name_index_unique(names.drop_last(), j);
    }
}

/// The sequence with every `x` taken out.
pub open spec fn without(s: Seq<Seq<char>>, x: Seq<char>) -> Seq<Seq<char>>
    decreases s.len(),
{
    if s.len() == 0 {
        s
    } else if s.last() == x {
        without(s.drop_last(), x)
    } else {
        without(s.drop_last(), x).push(s.last())
    }
}

pub struct ContractQueues {
    queues: Vec<(String, Vec<ContractRequest>)>,
    busy: Vec<String>,
}

impl ContractQueues {
    pub closed spec fn names(&self) -> Seq<Seq<char>> {
        self.queues@.map_values(|e: (String, Vec<ContractRequest>)| e.0@)
    }

    /// The requests waiting for `name`, oldest first.
    pub closed spec fn pending(&self, name: Seq<char>) -> Seq<ContractRequest> {
        match name_index(self.names(), name) {
            Some(i) => self.queues@[i as int].1@,
            None => Seq::empty(),
        }
    }

    /// The contracts that have a request running.
    pub closed spec fn running(&self) -> Seq<Seq<char>> {
        compiler::names_view(self.busy@)
    }

    pub closed spec fn wf(&self) -> bool {
        &&& forall|i: int, j: int|
            0 <= i < j < self.queues@.len() ==> #[trigger] self.queues@[i].0@
                != #[trigger] self.queues@[j].0@
        &&& forall|i: int|
            0 <= i < self.queues@.len() ==> forall|k: int|
                0 <= k < #[trigger] self.queues@[i].1@.len() ==> self.queues@[i].1@[k].contract_name@
                    == self.queues@[i].0@
    }

    pub fn new() -> (r: ContractQueues)
        ensures
            r.wf(),
            forall|n: Seq<char>| r.pending(n) == Seq::<ContractRequest>::empty(),
            r.running() == Seq::<Seq<char>>::empty(),
    {
        let r = ContractQueues { queues: Vec::new(), busy: Vec::new() };
        assert(r.names() =~= Seq::<Seq<char>>::empty());
        assert(r.running() =~= Seq::<Seq<char>>::empty());
        r
    }

    fn find(&self, name: &String) -> (r: Option<usize>)
        ensures
            match r {
                Some(i) => name_index(self.names(), name@) == Some(i as nat) && i
                    < self.queues@.len(),
                None => name_index(self.names(), name@) is None,
            },
    {
        let ghost ns = self.names();
        let mut i = self.queues.len();
        assert(ns.take(i as int) == ns);
        while i > 0
            invariant
                i <= self.queues@.len(),
                ns == self.names(),
                ns.len() == self.queues@.len(),
                name_index(ns, name@) == name_index(ns.take(i as int), name@),
            decreases i,
        {
            assert(ns[i - 1] == self.queues@[i - 1].0@);
            assert(ns.take(i as int).drop_last() == ns.take(i - 1));
            if self.queues[i - 1].0 == *name {
                return Some(i - 1);
            }
            i = i - 1;
        }
        None
    }

    /// Adds a request behind the others waiting for its contract.
    pub fn schedule(&mut self, req: ContractRequest)
        requires
            old(self).wf(),
        ensures
            final(self).wf(),
            final(self).running() == old(self).running(),
            final(self).pending(req.contract_name@) == old(self).pending(req.contract_name@).push(
                req,
            ),
            forall|n: Seq<char>|
                n != req.contract_name@ ==> #[trigger] final(self).pending(n) == old(self).pending(n),
    {
        let ghost old_names = self.names();
        let name = req.contract_name.clone();
        match self.find(&name) {
            Some(i) => {
                let ghost qs = self.queues@;
                let mut entry = self.queues.remove(i);
                entry.1.push(req);
                self.queues.insert(i, entry);
                assert(self.queues@ =~= qs.update(i as int, entry));
                assert(self.names() =~= old_names);
                proof {
                    lemma_name_index(old_names, name@);
                    assert(self.pending(name@) =~= old(self).pending(name@).push(req));
                    assert forall|n: Seq<char>| n != name@ implies #[trigger] self.pending(n)
                        == old(self).pending(n) by {
                        lemma_name_index(old_names, n);
                        match name_index(old_names, n) {
                            Some(j) => {
                                assert(j != i);
                                assert(self.queues@[j as int] == qs[j as int]);
                            },
                            None => {},
                        }
                    };
                    assert forall|a: int|
                        0 <= a < self.queues@.len() implies forall|k: int|
                        0 <= k < #[trigger] self.queues@[a].1@.len() ==> self.queues@[a].1@[k].contract_name@
                            == self.queues@[a].0@ by {
                        if a == i {
                            assert forall|k: int| 0 <= k < self.queues@[a].1@.len() implies self.queues@[a].1@[k].contract_name@
                                == self.queues@[a].0@ by {
                                if k < qs[a].1@.len() {
                                    assert(self.queues@[a].1@[k] == qs[a].1@[k]);
                                }
                            };
                        }
                    };
                }
            },
            None => {
                let mut v: Vec<ContractRequest> = Vec::new();
                v.push(req);
                let ghost qs = self.queues@;
                self.queues.push((name, v));
                assert(self.names() =~= old_names.push(name@));
                proof {
                    lemma_name_index(old_names, name@);
                    assert forall|n: Seq<char>| n != name@ implies name_index(self.names(), n)
                        == name_index(old_names, n) by {
                        assert(self.names().drop_last() == old_names);
                    };
                    assert forall|n: Seq<char>| n != name@ implies #[trigger] self.pending(n)
                        == old(self).pending(n) by {
                        match name_index(old_names, n) {
                            Some(j) => {
                                lemma_name_index(old_names, n);
                                assert(self.queues@[j as int] == qs[j as int]);
                            },
                            None => {},
                        }
                    };
                    assert(self.pending(name@) =~= old(self).pending(name@).push(req));
                    assert forall|a: int, b: int|
                        0 <= a < b < self.queues@.len() implies #[trigger] self.queues@[a].0@
                        != #[trigger] self.queues@[b].0@ by {
                        assert(self.names()[a] == self.queues@[a].0@);
                        assert(self.names()[b] == self.queues@[b].0@);
                    };
                }
            },
        }
    }

    /// Whether a request of `name` is running.
    fn is_busy(&self, name: &String) -> (r: bool)
        ensures
            r == self.running().contains(name@),
    {
        let mut i: usize = 0;
        while i < self.busy.len()
            invariant
                i <= self.busy@.len(),
                forall|j: int| 0 <= j < i ==> self.busy@[j]@ != name@,
            decreases self.busy@.len() - i,
        {
            if self.busy[i] == *name {
                assert(self.running()[i as int] == name@);
                return true;
            }
            i = i + 1;
        }
        assert forall|j: int| 0 <= j < self.running().len() implies self.running()[j] != name@ by {
            assert(self.running()[j] == self.busy@[j]@);
        };
        false
    }

    /// Hands out the newest waiting request of the first contract that has
    /// one and is not running, and marks that contract running.
    pub fn take(&mut self) -> (r: Option<ContractRequest>)
        requires
            old(self).wf(),
        ensures
            final(self).wf(),
            match r {
                Some(x) => {
                    let n = x.contract_name@;
                    &&& old(self).pending(n).len() > 0
                    &&& !old(self).running().contains(n)
                    &&& x == old(self).pending(n).last()
                    &&& final(self).pending(n) == old(self).pending(n).drop_last()
                    &&& forall|m: Seq<char>|
                        m != n ==> #[trigger] final(self).pending(m) == old(self).pending(m)
                    &&& final(self).running() == old(self).running().push(n)
                },
                None => {
                    &&& forall|m: Seq<char>|
                        #[trigger] old(self).pending(m).len() > 0 ==> old(self).running().contains(
                            m,
                        )
                    &&& forall|m: Seq<char>| #[trigger] final(self).pending(m) == old(self).pending(m)
                    &&& final(self).running() == old(self).running()
                },
            },
    {
        let ghost names = self.names();
        let mut i: usize = 0;
        while i < self.queues.len()
            invariant
                i <= self.queues@.len(),
                self == old(self),
                self.wf(),
                names == self.names(),
                forall|j: int|
                    0 <= j < i ==> self.queues@[j].1@.len() == 0 || self.running().contains(
                        #[trigger] names[j],
                    ),
            decreases self.queues@.len() - i,
        {
            assert(names[i as int] == self.queues@[i as int].0@);
            if self.queues[i].1.len() > 0 && !self.is_busy(&self.queues[i].0) {
                let ghost qs = self.queues@;
                proof {
                    assert forall|a: int, b: int| 0 <= a < b < names.len() implies names[a] != names[b] by {
                        assert(names[a] == qs[a].0@);
                        assert(names[b] == qs[b].0@);
                    };
                    let last = qs[i as int].1@.len() - 1;
                    assert(0 <= last < qs[i as int].1@.len());
                    assert(qs[i as int].1@[last].contract_name@ == qs[i as int].0@);
                }
                let mut entry = self.queues.remove(i);
                let x = match entry.1.pop() {
                    Some(x) => x,
                    None => {
                        return None;
                    },
                };
                let name = entry.0.clone();
                self.queues.insert(i, entry);
                assert(self.queues@ =~= qs.update(i as int, entry));
                assert(self.names() =~= names);
                proof {
                    assert forall|a: int|
                        0 <= a < self.queues@.len() implies forall|k: int|
                        0 <= k < #[trigger] self.queues@[a].1@.len() ==> self.queues@[a].1@[k].contract_name@
                            == self.queues@[a].0@ by {
                        if a == i {
                            assert forall|k: int| 0 <= k < self.queues@[a].1@.len() implies self.queues@[a].1@[k].contract_name@
                                == self.queues@[a].0@ by {
                                assert(self.queues@[a].1@[k] == qs[a].1@[k]);
                            };
                        }
                    };
                }
                let ghost b = self.busy@;
                self.busy.push(name);
                assert(self.running() =~= old(self).running().push(name@));
                proof {
                    lemma_name_index_unique(names, i as int);
                    assert(x.contract_name@ == names[i as int]);
                    assert forall|m: Seq<char>| m != name@ implies #[trigger] self.pending(m)
                        == old(self).pending(m) by {
                        lemma_name_index(names, m);
                    };
                }
                return Some(x);
            }
            i = i + 1;
        }
        proof {
            assert forall|m: Seq<char>| #[trigger] old(self).pending(m).len() > 0 implies old(
                self,
            ).running().contains(m) by {
                lemma_name_index(names, m);
            };
        }
        None
    }

    /// Marks `name` as no longer running.
    pub fn finish(&mut self, name: &String)
        requires
            old(self).wf(),
        ensures
            final(self).wf(),
            forall|m: Seq<char>| #[trigger] final(self).pending(m) == old(self).pending(m),
            final(self).running() == without(old(self).running(), name@),
    {
        let mut kept: Vec<String> = Vec::new();
        let mut i: usize = 0;
        let ghost r = self.running();
        assert(r.take(0) =~= Seq::<Seq<char>>::empty());
        assert(compiler::names_view(kept@) =~= Seq::<Seq<char>>::empty());
        while i < self.busy.len()
            invariant
                i <= self.busy@.len(),
                self.queues == old(self).queues,
                self.busy == old(self).busy,
                r == self.running(),
                compiler::names_view(kept@) == without(r.take(i as int), name@),
            decreases self.busy@.len() - i,
        {
            let ghost before = compiler::names_view(kept@);
            assert(r.take(i + 1).drop_last() == r.take(i as int));
            assert(r.take(i + 1).last() == self.busy@[i as int]@);
            if self.busy[i] != *name {
                kept.push(self.busy[i].clone());
                assert(compiler::names_view(kept@) =~= before.push(self.busy@[i as int]@));
            }
            i = i + 1;
        }
        assert(r.take(i as int) == r);
        self.busy = kept;
    }
}

/// Per-contract order is last in, first out: once `r` is scheduled, the
/// request that `take` hands out next for its contract is `r`, and what
/// waits behind it is what waited before.
pub proof fn lemma_last_in_first_out(before: ContractQueues, after: ContractQueues, r: ContractRequest)
    requires
        after.pending(r.contract_name@) == before.pending(r.contract_name@).push(r),
    ensures
        after.pending(r.contract_name@).len() > 0,
        after.pending(r.contract_name@).last() == r,
        after.pending(r.contract_name@).drop_last() == before.pending(r.contract_name@),
{
    assert(before.pending(r.contract_name@).push(r).drop_last() =~= before.pending(r.contract_name@));
}

} // verus!
