//! The validator: assigns request ids, keeps the requests scheduled since
//! the last block, keeps those whose receipt says accepted, and turns them
//! into the next block.

use crate::chain;
use crate::chain::{Block, Chain};
use crate::contracts::executor::ContractQueues;
use crate::contracts::request::{ContractRequest, RequestView};
use crate::storage::Storage;
use vstd::prelude::*;

verus! {

/// Whether some receipt accepts the request with this id.
pub open spec fn reported_ok(receipts: Seq<(u64, bool)>, id: u64) -> bool
    decreases receipts.len(),
{
    if receipts.len() == 0 {
        false
    } else {
        reported_ok(receipts.drop_last(), id) || receipts.last() == (id, true)
    }
}

/// The scheduled requests that some receipt accepts, in scheduling order.
pub open spec fn survivors(scheduled: Seq<ContractRequest>, receipts: Seq<(u64, bool)>) -> Seq<
    ContractRequest,
>
    decreases scheduled.len(),
{
    if scheduled.len() == 0 {
        Seq::empty()
    } else if reported_ok(receipts, scheduled.last().request_id) {
        survivors(scheduled.drop_last(), receipts).push(scheduled.last())
    } else {
        survivors(scheduled.drop_last(), receipts)
    }
}

fn is_reported_ok(receipts: &Vec<(u64, bool)>, id: u64) -> (r: bool)
    ensures
        r == reported_ok(receipts@, id),
{
    let mut i: usize = 0;
    assert(receipts@.take(0) =~= Seq::<(u64, bool)>::empty());
    while i < receipts.len()
        invariant
            i <= receipts@.len(),
            !reported_ok(receipts@.take(i as int), id),
        decreases receipts@.len() - i,
    {
        assert(receipts@.take(i + 1).drop_last() == receipts@.take(i as int));
        if receipts[i].0 == id && receipts[i].1 {
            assert(reported_ok(receipts@.take(i + 1), id));
            proof {
                lemma_reported_ok_prefix(receipts@, id, (i + 1) as nat);
            }
            return true;
        }
        i = i + 1;
    }
    assert(receipts@.take(i as int) == receipts@);
    false
}

proof fn lemma_reported_ok_prefix(rs: Seq<(u64, bool)>, id: u64, k: nat)
    requires
        k <= rs.len(),
        reported_ok(rs.take(k as int), id),
    ensures
        reported_ok(rs, id),
    decreases rs.len() - k,
{
    if k < rs.len() {
        assert(rs.take(k as int + 1).drop_last() == rs.take(k as int));
        lemma_reported_ok_prefix(rs, id, k + 1);
    } else {
        assert(rs.take(k as int) == rs);
    }
}

/// The scheduled requests that some receipt accepts, in scheduling order;
/// a request without an accepting receipt (rejected, or not reported in
/// time) is left out.
pub fn accepted_requests(scheduled: Vec<ContractRequest>, receipts: &Vec<(u64, bool)>) -> (r: Vec<
    ContractRequest,
>)
    ensures
        r@ == survivors(scheduled@, receipts@),
{
    let mut out: Vec<ContractRequest> = Vec::new();
    let ghost mut i: int = 0;
    assert(scheduled@.take(0) =~= Seq::<ContractRequest>::empty());
    let ghost s = scheduled@;
    let mut rest = scheduled;
    assert(rest@ =~= s.skip(0));
    while rest.len() > 0
        invariant
            0 <= i <= s.len(),
            rest@ == s.skip(i as int),
            out@ == survivors(s.take(i as int), receipts@),
        decreases rest@.len(),
    {
        assert(s.take(i + 1).drop_last() == s.take(i as int));
        assert(s.take(i + 1).last() == s[i as int]);
        let x = rest.remove(0);
        assert(rest@ =~= s.skip(i + 1));
        if is_reported_ok(receipts, x.request_id) {
            out.push(x);
        }
        proof {
            i = i + 1;
        }
    }
    assert(s.take(i as int) == s);
    out
}

pub struct Validator {
    chain: Chain,
    scheduled: Vec<ContractRequest>,
    next_id: u64,
}

impl Validator {
    pub closed spec fn head(&self) -> Seq<u8> {
        self.chain.head()
    }

    /// The requests scheduled since the last block, in order.
    pub closed spec fn pending(&self) -> Seq<ContractRequest> {
        self.scheduled@
    }

    pub closed spec fn next_id(&self) -> u64 {
        self.next_id
    }

    /// Opens the chain kept in `storage`.
    pub fn new<S: Storage>(storage: &mut S) -> (r: Validator)
        requires
            old(storage).inv(),
        ensures
            final(storage).inv(),
            chain::opened(old(storage).kv()) ==> final(storage).kv() == old(storage).kv()
                && r.head() == old(storage).kv()[chain::latest_key()],
            !chain::opened(old(storage).kv()) ==> final(storage).kv() == chain::bootstrapped(
                old(storage).kv(),
            ) && r.head() == chain::zero_digest(),
            r.pending() == Seq::<ContractRequest>::empty(),
            r.next_id() == 0,
    {
        let chain = Chain::new(storage);
        Validator { chain, scheduled: Vec::new(), next_id: 0 }
    }

    /// Gives the request the next id, queues it for its contract and keeps
    /// it as provisionally accepted; `None` once the ids have run out.
    pub fn schedule_contract(&mut self, queues: &mut ContractQueues, req: ContractRequest) -> (r:
        Option<u64>)
        requires
            old(queues).wf(),
        ensures
            final(queues).wf(),
            final(self).head() == old(self).head(),
            match r {
                Some(id) => {
                    &&& id == old(self).next_id()
                    &&& final(self).next_id() == id + 1
                    &&& final(self).pending().len() == old(self).pending().len() + 1
                    &&& final(self).pending().drop_last() == old(self).pending()
                    &&& final(self).pending().last()@ == (RequestView { request_id: id, ..req@ })
                    &&& final(queues).pending(req.contract_name@).len() == old(queues).pending(
                        req.contract_name@,
                    ).len() + 1
                    &&& final(queues).pending(req.contract_name@).last()@ == (RequestView {
                        request_id: id,
                        ..req@
                    })
                    &&& final(queues).pending(req.contract_name@).drop_last() == old(queues).pending(
                        req.contract_name@,
                    )
                    &&& forall|n: Seq<char>|
                        n != req.contract_name@ ==> #[trigger] final(queues).pending(n) == old(queues).pending(n)
                },
                None => old(self).next_id() == u64::MAX && *final(self) == *old(self) && *final(queues) == *old(queues),
            },
    {
        if self.next_id == u64::MAX {
            return None;
        }
        let id = self.next_id;
        self.next_id = id + 1;
        let mut req = req;
        req.request_id = id;
        let queued = ContractRequest {
            author: req.author,
            contract_name: req.contract_name.clone(),
            method_name: req.method_name.clone(),
            args: clone_args(&req.args),
            request_id: id,
        };
        queues.schedule(queued);
        self.scheduled.push(req);
        assert(self.scheduled@.drop_last() =~= old(self).scheduled@);
        Some(id)
    }

    /// The requests scheduled since the last block that a receipt accepts,
    /// in scheduling order; the list of scheduled requests starts afresh.
    pub fn summary(&mut self, receipts: &Vec<(u64, bool)>) -> (r: Vec<ContractRequest>)
        ensures
            r@ == survivors(old(self).pending(), receipts@),
            final(self).pending() == Seq::<ContractRequest>::empty(),
            final(self).head() == old(self).head(),
            final(self).next_id() == old(self).next_id(),
    {
        let mut taken: Vec<ContractRequest> = Vec::new();
        std::mem::swap(&mut taken, &mut self.scheduled);
        accepted_requests(taken, receipts)
    }

    /// The block of the accepted requests, following the head.
    pub fn finalize_contracts(&mut self, receipts: &Vec<(u64, bool)>) -> (r: Block)
        ensures
            r@.previous_digest == old(self).head(),
            r@.receipts == survivors(old(self).pending(), receipts@).map_values(
                |q: ContractRequest| chain::receipt_of(q),
            ),
            r@.digest == chain::block_digest(r@.receipts, r@.time),
            final(self).pending() == Seq::<ContractRequest>::empty(),
            final(self).head() == old(self).head(),
    {
        let transactions = self.summary(receipts);
        self.chain.block_with_transactions(chain::requests_to_recipts(transactions))
    }

    /// Builds the block of the accepted requests and stores it as the new head.
    pub fn finalize_block<S: Storage>(&mut self, storage: &mut S, receipts: &Vec<(u64, bool)>) -> (r:
        Block)
        requires
            old(storage).inv(),
        ensures
            final(storage).inv(),
            r@.previous_digest == old(self).head(),
            r@.receipts == survivors(old(self).pending(), receipts@).map_values(
                |q: ContractRequest| chain::receipt_of(q),
            ),
            r@.digest == chain::block_digest(r@.receipts, r@.time),
            final(storage).kv() == chain::inserted(old(storage).kv(), r@),
            final(self).head() == r@.digest,
            final(self).pending() == Seq::<ContractRequest>::empty(),
    {
        let block = self.finalize_contracts(receipts);
        let copy = chain::copy_block(&block);
        self.chain.insert_block(storage, block);
        copy
    }
}

fn clone_args(args: &Vec<(String, crate::contracts::request::ArgValue)>) -> (r: Vec<
    (String, crate::contracts::request::ArgValue),
>)
    ensures
        crate::contracts::request::args_view(r@) == crate::contracts::request::args_view(args@),
{
    let mut out: Vec<(String, crate::contracts::request::ArgValue)> = Vec::new();
    let mut i: usize = 0;
    while i < args.len()
        invariant
            i <= args@.len(),
            crate::contracts::request::args_view(out@) == crate::contracts::request::args_view(
                args@,
            ).take(i as int),
        decreases args@.len() - i,
    {
        let ghost pre = crate::contracts::request::args_view(out@);
        let v = match &args[i].1 {
            crate::contracts::request::ArgValue::Str(s) => crate::contracts::request::ArgValue::Str(
                s.clone(),
            ),
            crate::contracts::request::ArgValue::U64(n) => crate::contracts::request::ArgValue::U64(*n),
            crate::contracts::request::ArgValue::Bool(b) => crate::contracts::request::ArgValue::Bool(
                *b,
            ),
        };
        out.push((args[i].0.clone(), v));
        assert(crate::contracts::request::args_view(out@) =~= pre.push(
            (args@[i as int].0@, args@[i as int].1@),
        ));
        assert(crate::contracts::request::args_view(out@) =~= crate::contracts::request::args_view(
            args@,
        ).take(i + 1));
        i = i + 1;
    }
    assert(crate::contracts::request::args_view(args@).take(i as int)
        == crate::contracts::request::args_view(args@));
    out
}

} // verus!
