//! The chain: blocks of receipts, each hashed over its receipts and time and
//! linked to the block before it, kept in the store under their digests.

use crate::contracts::compiler::literal;
use crate::contracts::request;
use crate::contracts::request::ContractRequest;
use crate::digest;
use crate::storage::Storage;
use crate::word;
use vstd::prelude::*;

verus! {

/// What an accepted request leaves in a block: the contract, the method and
/// the canonical bytes of the arguments.
#[derive(Debug, Clone)]
pub struct ContractRecipt {
    pub contract_name: String,
    pub contract_method: String,
    pub req: Vec<u8>,
}

/// A receipt as the bytes that go into its block's digest.
pub struct ReceiptView {
    pub name: Seq<u8>,
    pub method: Seq<u8>,
    pub req: Seq<u8>,
}

impl View for ContractRecipt {
    type V = ReceiptView;

    open spec fn view(&self) -> ReceiptView {
        ReceiptView {
            name: request::utf8(self.contract_name@),
            method: request::utf8(self.contract_method@),
            req: self.req@,
        }
    }
}

pub open spec fn receipts_view(rs: Seq<ContractRecipt>) -> Seq<ReceiptView> {
    rs.map_values(|r: ContractRecipt| r@)
}

/// The receipt of a request: its contract, method and canonical arguments.
pub open spec fn receipt_of(r: ContractRequest) -> ReceiptView {
    ReceiptView {
        name: request::utf8(r.contract_name@),
        method: request::utf8(r.method_name@),
        req: request::canonical(request::args_view(r.args@)),
    }
}

impl ContractRecipt {
    pub fn from_request(req: &ContractRequest) -> (r: ContractRecipt)
        ensures
            r@ == receipt_of(*req),
            r.contract_name@ == req.contract_name@,
            r.contract_method@ == req.method_name@,
    {
        ContractRecipt {
            contract_name: req.contract_name.clone(),
            contract_method: req.method_name.clone(),
            req: request::canonical_args(&req.args),
        }
    }
}

pub fn requests_to_recipts(req: Vec<ContractRequest>) -> (r: Vec<ContractRecipt>)
    ensures
        receipts_view(r@) == req@.map_values(|q: ContractRequest| receipt_of(q)),
{
    let mut out: Vec<ContractRecipt> = Vec::new();
    let mut i: usize = 0;
    while i < req.len()
        invariant
            i <= req@.len(),
            receipts_view(out@) == req@.take(i as int).map_values(|q: ContractRequest| receipt_of(q)),
        decreases req@.len() - i,
    {
        let ghost pre = receipts_view(out@);
        let r = ContractRecipt::from_request(&req[i]);
        out.push(r);
        assert(receipts_view(out@) =~= pre.push(receipt_of(req@[i as int])));
        assert(req@.take(i + 1).map_values(|q: ContractRequest| receipt_of(q)) =~= req@.take(
            i as int,
        ).map_values(|q: ContractRequest| receipt_of(q)).push(receipt_of(req@[i as int])));
        i = i + 1;
    }
    assert(req@.take(i as int) == req@);
    out
}

/// What one receipt adds to the digest's input.
pub open spec fn receipt_bytes(r: ReceiptView) -> Seq<u8> {
    r.name + r.method + r.req
}

pub open spec fn receipts_bytes(rs: Seq<ReceiptView>) -> Seq<u8>
    decreases rs.len(),
{
    if rs.len() == 0 {
        Seq::empty()
    } else {
        receipts_bytes(rs.drop_last()) + receipt_bytes(rs.last())
    }
}

/// The eight big-endian bytes of a time, in two's complement.
pub open spec fn time_bytes(t: i64) -> Seq<u8> {
    word::le_bytes((t as u64) as nat, 8).reverse()
}

/// SHA3-256 over each receipt's contract, method and arguments, then the time.
pub open spec fn block_digest(rs: Seq<ReceiptView>, time: i64) -> Seq<u8> {
    digest::sha3_256_of(receipts_bytes(rs) + time_bytes(time))
}

/// The digest is a function of the receipts and the time alone.
pub proof fn lemma_digest_determinism(
    first: Seq<ReceiptView>,
    second: Seq<ReceiptView>,
    time: i64,
)
    requires
        first == second,
    ensures
        block_digest(first, time) == block_digest(second, time),
{
}

#[derive(Debug)]
pub struct Block {
    digest: [u8; 32],
    previous_digest: [u8; 32],
    recipts: Vec<ContractRecipt>,
    time: i64,
}

/// A block as its two digests, its receipts and its time.
pub struct BlockView {
    pub digest: Seq<u8>,
    pub previous_digest: Seq<u8>,
    pub receipts: Seq<ReceiptView>,
    pub time: i64,
}

impl View for Block {
    type V = BlockView;

    closed spec fn view(&self) -> BlockView {
        BlockView {
            digest: self.digest@,
            previous_digest: self.previous_digest@,
            receipts: receipts_view(self.recipts@),
            time: self.time,
        }
    }
}

pub open spec fn zero_digest() -> Seq<u8> {
    Seq::new(32, |i: int| 0u8)
}

pub open spec fn genesis() -> BlockView {
    BlockView {
        digest: zero_digest(),
        previous_digest: zero_digest(),
        receipts: Seq::empty(),
        time: 0,
    }
}

impl Block {
    pub fn digest(&self) -> (r: [u8; 32])
        ensures
            r@ == self@.digest,
    {
        self.digest
    }

    pub fn previous_digest(&self) -> (r: [u8; 32])
        ensures
            r@ == self@.previous_digest,
    {
        self.previous_digest
    }

    pub fn time(&self) -> (r: i64)
        ensures
            r == self@.time,
    {
        self.time
    }

    pub fn recipts(&self) -> (r: &Vec<ContractRecipt>)
        ensures
            receipts_view(r@) == self@.receipts,
    {
        &self.recipts
    }

    /// A block of these receipts stamped with the current time, with both
    /// digests still zero.
    pub fn with_transactions(transactions: Vec<ContractRecipt>) -> (r: Block)
        ensures
            r@.digest == zero_digest(),
            r@.previous_digest == zero_digest(),
            r@.receipts == receipts_view(transactions@),
    {
        let r = Block {
            digest: [0; 32],
            previous_digest: [0; 32],
            recipts: transactions,
            time: now_millis(),
        };
        assert(r@.digest =~= zero_digest());
        assert(r@.previous_digest =~= zero_digest());
        r
    }

    fn genesis() -> (r: Block)
        ensures
            r@ == genesis(),
    {
        let r = Block { digest: [0; 32], previous_digest: [0; 32], recipts: Vec::new(), time: 0 };
        assert(r@.digest =~= zero_digest());
        assert(r@.previous_digest =~= zero_digest());
        assert(r@.receipts =~= Seq::<ReceiptView>::empty());
        r
    }
}

fn time_be(t: i64) -> (r: Vec<u8>)
    ensures
        r@ == time_bytes(t),
{
    let le = literal::le_bytes_of(t as u64 as u128, 8);
    let mut out: Vec<u8> = Vec::new();
    let mut i: usize = 8;
    assert(le@.len() == 8) by {
        lemma_le_bytes_len((t as u64) as nat, 8);
    };
    while i > 0
        invariant
            i <= 8,
            le@.len() == 8,
            le@ == word::le_bytes((t as u64) as nat, 8),
            out@ == le@.reverse().take(8 - i),
        decreases i,
    {
        out.push(le[i - 1]);
        assert(le@.reverse().take(8 - i + 1) =~= le@.reverse().take(8 - i).push(le@[i - 1]));
        i = i - 1;
    }
    assert(le@.reverse().take(8) == le@.reverse());
    out
}

proof fn lemma_le_bytes_len(v: nat, n: nat)
    ensures
        word::le_bytes(v, n).len() == n,
    decreases n,
{
    if n > 0 {
        lemma_le_bytes_len(v / 256, (n - 1) as nat);
    }
}

/// Relies on chrono's `Utc::now().timestamp_millis()`: the current time in
/// milliseconds since the Unix epoch; nothing is assumed of its value.
#[verifier::external_body]
fn now_millis() -> i64 {
    chrono::Utc::now().timestamp_millis()
}

/// The block of these receipts at this time, following `previous_digest`.
pub fn build_block(transactions: Vec<ContractRecipt>, previous_digest: [u8; 32], time: i64) -> (r:
    Block)
    ensures
        r@.digest == block_digest(receipts_view(transactions@), time),
        r@.previous_digest == previous_digest@,
        r@.receipts == receipts_view(transactions@),
        r@.time == time,
{
    let ghost rs = receipts_view(transactions@);
    let mut data: Vec<u8> = Vec::new();
    let mut i: usize = 0;
    while i < transactions.len()
        invariant
            i <= transactions@.len(),
            rs == receipts_view(transactions@),
            data@ == receipts_bytes(rs.take(i as int)),
        decreases transactions@.len() - i,
    {
        let t = &transactions[i];
        let ghost pre = data@;
        digest::push_all(&mut data, t.contract_name.as_str().as_bytes());
        digest::push_all(&mut data, t.contract_method.as_str().as_bytes());
        digest::push_all(&mut data, t.req.as_slice());
        assert(rs.take(i + 1).drop_last() == rs.take(i as int));
        assert(rs[i as int] == t@);
        assert(data@ =~= pre + receipt_bytes(rs[i as int]));
        i = i + 1;
    }
    assert(rs.take(i as int) == rs);
    let tb = time_be(time);
    digest::push_all(&mut data, tb.as_slice());
    let d = digest::sha3_256(data.as_slice());
    Block { digest: d, previous_digest, recipts: transactions, time }
}

/// The key of the current head's digest.
pub open spec fn latest_key() -> Seq<u8> {
    seq![0x6cu8, 0x61, 0x74, 0x65, 0x73, 0x74, 0x5f, 0x62, 0x6c, 0x6f, 0x63, 0x6b]
}

/// The key of the block with digest `d`: `block` then the digest.
pub open spec fn block_key(d: Seq<u8>) -> Seq<u8> {
    seq![0x62u8, 0x6c, 0x6f, 0x63, 0x6b] + d
}

/// Eight little-endian bytes of the length, then the bytes.
pub open spec fn framed(b: Seq<u8>) -> Seq<u8> {
    word::le_bytes(b.len(), 8) + b
}

pub open spec fn receipts_record(rs: Seq<ReceiptView>) -> Seq<u8>
    decreases rs.len(),
{
    if rs.len() == 0 {
        Seq::empty()
    } else {
        receipts_record(rs.drop_last()) + framed(rs.last().name) + framed(rs.last().method)
            + framed(rs.last().req)
    }
}

/// How a block is stored: its digest, the previous digest, its time, then
/// each receipt's fields with their lengths.
pub open spec fn record(b: BlockView) -> Seq<u8> {
    b.digest + b.previous_digest + time_bytes(b.time) + receipts_record(b.receipts)
}

pub open spec fn record_digest(rec: Seq<u8>) -> Seq<u8> {
    rec.take(32)
}

pub open spec fn record_previous(rec: Seq<u8>) -> Seq<u8> {
    rec.subrange(32, 64)
}

/// Every block entry holds a record whose first 32 bytes are its key's digest.
pub open spec fn well_stored(kv: Map<Seq<u8>, Seq<u8>>) -> bool {
    forall|d: Seq<u8>|
        #[trigger] kv.contains_key(block_key(d)) && d.len() == 32 ==> kv[block_key(d)].len() >= 64
            && record_digest(kv[block_key(d)]) == d
}

/// Every stored block but the genesis block has its previous block stored.
pub open spec fn linked(kv: Map<Seq<u8>, Seq<u8>>) -> bool {
    &&& well_stored(kv)
    &&& forall|d: Seq<u8>|
        #[trigger] kv.contains_key(block_key(d)) && d.len() == 32 && d != zero_digest()
            ==> kv.contains_key(block_key(record_previous(kv[block_key(d)])))
}

/// A linked store whose head is `head`, stored.
pub open spec fn chain_state(kv: Map<Seq<u8>, Seq<u8>>, head: Seq<u8>) -> bool {
    &&& linked(kv)
    &&& kv.contains_key(latest_key())
    &&& kv[latest_key()] == head
    &&& head.len() == 32
    &&& kv.contains_key(block_key(head))
}

/// The store after `b` is inserted and made the head.
pub open spec fn inserted(kv: Map<Seq<u8>, Seq<u8>>, b: BlockView) -> Map<Seq<u8>, Seq<u8>> {
    kv.insert(latest_key(), b.digest).insert(block_key(b.digest), record(b))
}

/// Whether a store already holds a chain: a 32-byte head whose block is stored.
pub open spec fn opened(kv: Map<Seq<u8>, Seq<u8>>) -> bool {
    &&& kv.contains_key(latest_key())
    &&& kv[latest_key()].len() == 32
    &&& kv.contains_key(block_key(kv[latest_key()]))
}

proof fn lemma_block_key_injective(x: Seq<u8>, y: Seq<u8>)
    ensures
        block_key(x) == block_key(y) ==> x == y,
        x.len() == 32 ==> block_key(x) != latest_key(),
{
    assert(block_key(x).skip(5) =~= x);
    assert(block_key(y).skip(5) =~= y);
    assert(block_key(x).len() == x.len() + 5);
}

proof fn lemma_record_header(b: BlockView)
    requires
        b.digest.len() == 32,
        b.previous_digest.len() == 32,
    ensures
        record(b).len() >= 64,
        record_digest(record(b)) == b.digest,
        record_previous(record(b)) == b.previous_digest,
{
    let rest = time_bytes(b.time) + receipts_record(b.receipts);
    assert(record(b) =~= b.digest + b.previous_digest + rest);
    assert(record_digest(record(b)) =~= b.digest);
    assert(record_previous(record(b)) =~= b.previous_digest);
}

/// Inserting a block that follows the head keeps every stored block but the
/// genesis block linked to a stored predecessor whose digest is the one it names.
pub proof fn lemma_insert_keeps_linkage(kv: Map<Seq<u8>, Seq<u8>>, head: Seq<u8>, b: BlockView)
    requires
        chain_state(kv, head),
        b.previous_digest == head,
        b.digest.len() == 32,
    ensures
        chain_state(inserted(kv, b), b.digest),
{
    let kv2 = inserted(kv, b);
    lemma_record_header(b);
    lemma_block_key_injective(b.digest, b.digest);
    assert forall|d: Seq<u8>|
        #[trigger] kv2.contains_key(block_key(d)) && d.len() == 32 implies kv2[block_key(d)].len()
        >= 64 && record_digest(kv2[block_key(d)]) == d by {
        lemma_block_key_injective(d, b.digest);
        if d != b.digest {
            assert(kv.contains_key(block_key(d)));
        }
    };
    assert forall|d: Seq<u8>|
        #[trigger] kv2.contains_key(block_key(d)) && d.len() == 32 && d != zero_digest()
            implies kv2.contains_key(block_key(record_previous(kv2[block_key(d)]))) by {
        lemma_block_key_injective(d, b.digest);
        if d != b.digest {
            assert(kv.contains_key(block_key(d)));
            let p = record_previous(kv[block_key(d)]);
            assert(kv.contains_key(block_key(p)));
        } else {
            assert(kv.contains_key(block_key(head)));
        }
    };
}

/// The store of a fresh chain: the genesis block, which is the head.
pub open spec fn bootstrapped(kv: Map<Seq<u8>, Seq<u8>>) -> Map<Seq<u8>, Seq<u8>> {
    inserted(kv, genesis())
}

/// Opening an empty store leaves exactly one block in it, the genesis block,
/// with the head at the all-zero digest; and that store is a linked chain.
pub proof fn lemma_bootstrap(kv: Map<Seq<u8>, Seq<u8>>)
    requires
        kv == Map::<Seq<u8>, Seq<u8>>::empty(),
    ensures
        chain_state(bootstrapped(kv), zero_digest()),
        forall|d: Seq<u8>|
            #[trigger] bootstrapped(kv).contains_key(block_key(d)) ==> d == zero_digest(),
        bootstrapped(kv)[latest_key()] == zero_digest(),
{
    let kv2 = bootstrapped(kv);
    let g = genesis();
    lemma_record_header(g);
    lemma_block_key_injective(g.digest, g.digest);
    assert forall|d: Seq<u8>| #[trigger] kv2.contains_key(block_key(d)) implies d == zero_digest() by {
        lemma_block_key_injective(d, g.digest);
        if d.len() == 32 {
        } else {
            assert(block_key(d).len() != latest_key().len());
        }
    };
    assert forall|d: Seq<u8>|
        #[trigger] kv2.contains_key(block_key(d)) && d.len() == 32 implies kv2[block_key(d)].len()
        >= 64 && record_digest(kv2[block_key(d)]) == d by {
        lemma_block_key_injective(d, g.digest);
    };
}

fn push_framed(out: &mut Vec<u8>, b: &[u8])
    ensures
        final(out)@ == old(out)@ + framed(b@),
{
    let len = literal::le_bytes_of(b.len() as u128, 8);
    digest::push_all(out, len.as_slice());
    digest::push_all(out, b);
    assert(final(out)@ =~= old(out)@ + framed(b@)) by {
        assert(out@ =~= old(out)@ + len@ + b@);
    };
}

fn block_record(b: &Block) -> (r: Vec<u8>)
    ensures
        r@ == record(b@),
{
    let ghost rs = b@.receipts;
    let mut out: Vec<u8> = Vec::new();
    digest::push_all(&mut out, &b.digest);
    digest::push_all(&mut out, &b.previous_digest);
    let tb = time_be(b.time);
    digest::push_all(&mut out, tb.as_slice());
    let ghost head = out@;
    let mut i: usize = 0;
    assert(rs.take(0) =~= Seq::<ReceiptView>::empty());
    assert(out@ =~= head + receipts_record(rs.take(0)));
    while i < b.recipts.len()
        invariant
            i <= b.recipts@.len(),
            rs == receipts_view(b.recipts@),
            out@ == head + receipts_record(rs.take(i as int)),
        decreases b.recipts@.len() - i,
    {
        let t = &b.recipts[i];
        let ghost pre = out@;
        push_framed(&mut out, t.contract_name.as_str().as_bytes());
        push_framed(&mut out, t.contract_method.as_str().as_bytes());
        push_framed(&mut out, t.req.as_slice());
        assert(rs.take(i + 1).drop_last() == rs.take(i as int));
        assert(rs[i as int] == t@);
        assert(out@ =~= head + receipts_record(rs.take(i + 1)));
        i = i + 1;
    }
    assert(rs.take(i as int) == rs);
    out
}

fn latest_key_bytes() -> (r: Vec<u8>)
    ensures
        r@ == latest_key(),
{
    let mut k: Vec<u8> = Vec::new();
    k.push(0x6c);
    k.push(0x61);
    k.push(0x74);
    k.push(0x65);
    k.push(0x73);
    k.push(0x74);
    k.push(0x5f);
    k.push(0x62);
    k.push(0x6c);
    k.push(0x6f);
    k.push(0x63);
    k.push(0x6b);
    assert(k@ =~= latest_key());
    k
}

fn block_key_bytes(d: &[u8]) -> (r: Vec<u8>)
    ensures
        r@ == block_key(d@),
{
    let mut k: Vec<u8> = Vec::new();
    k.push(0x62);
    k.push(0x6c);
    k.push(0x6f);
    k.push(0x63);
    k.push(0x6b);
    digest::push_all(&mut k, d);
    assert(k@ =~= block_key(d@));
    k
}

/// Writes the block under its digest and makes it the head.
fn store_block<S: Storage>(storage: &mut S, block: &Block)
    requires
        old(storage).inv(),
    ensures
        final(storage).inv(),
        final(storage).kv() == inserted(old(storage).kv(), block@),
{
    let latest = latest_key_bytes();
    storage.set(latest.as_slice(), &block.digest);
    let key = block_key_bytes(&block.digest);
    let rec = block_record(block);
    storage.set(key.as_slice(), rec.as_slice());
}

fn copy_receipt(r: &ContractRecipt) -> (c: ContractRecipt)
    ensures
        c@ == r@,
{
    ContractRecipt {
        contract_name: r.contract_name.clone(),
        contract_method: r.contract_method.clone(),
        req: vstd::slice::slice_to_vec(r.req.as_slice()),
    }
}

/// A copy of the block.
pub fn copy_block(b: &Block) -> (c: Block)
    ensures
        c@ == b@,
{
    let mut rs: Vec<ContractRecipt> = Vec::new();
    let mut i: usize = 0;
    while i < b.recipts.len()
        invariant
            i <= b.recipts@.len(),
            receipts_view(rs@) == receipts_view(b.recipts@).take(i as int),
        decreases b.recipts@.len() - i,
    {
        let ghost pre = receipts_view(rs@);
        rs.push(copy_receipt(&b.recipts[i]));
        assert(receipts_view(rs@) =~= pre.push(b.recipts@[i as int]@));
        assert(receipts_view(rs@) =~= receipts_view(b.recipts@).take(i + 1));
        i = i + 1;
    }
    assert(receipts_view(b.recipts@).take(i as int) == receipts_view(b.recipts@));
    Block { digest: b.digest, previous_digest: b.previous_digest, recipts: rs, time: b.time }
}

/// Relies on `String::from_utf8`: it accepts exactly the valid UTF-8 byte
/// strings, and gives the characters they encode.
#[verifier::external_body]
fn text_of_utf8(bytes: Vec<u8>) -> (r: Option<String>)
    ensures
        match r {
            Some(t) => vstd::utf8::valid_utf8(bytes@) && t@ == vstd::utf8::decode_utf8(bytes@),
            None => !vstd::utf8::valid_utf8(bytes@),
        },
{
    String::from_utf8(bytes).ok()
}

/// The number bytes spell, most significant first.
pub open spec fn be_value(s: Seq<u8>) -> nat
    decreases s.len(),
{
    if s.len() == 0 {
        0
    } else {
        be_value(s.drop_last()) * 256 + s.last() as nat
    }
}

proof fn lemma_be_le(x: nat, n: nat)
    requires
        x < word::le_limit(n),
    ensures
        be_value(word::le_bytes(x, n).reverse()) == x,
    decreases n,
{
    if n > 0 {
        let l = word::le_bytes(x, n);
        let l2 = word::le_bytes(x / 256, (n - 1) as nat);
        let lim = word::le_limit((n - 1) as nat);
        assert(x / 256 < lim && (x / 256) * 256 + x % 256 == x) by (nonlinear_arith)
            requires
                x < 256 * lim,
        ;
        lemma_be_le(x / 256, (n - 1) as nat);
        assert(l == seq![(x % 256) as u8] + l2);
        assert(l.reverse().drop_last() =~= l2.reverse());
        assert(l.reverse().last() == (x % 256) as u8);
    }
}

/// Every block's record, and the block for any record that is well formed.
pub open spec fn stored_well(v: BlockView) -> bool {
    &&& v.digest.len() == 32
    &&& v.previous_digest.len() == 32
    &&& forall|i: int|
        0 <= i < v.receipts.len() ==> vstd::utf8::valid_utf8(#[trigger] v.receipts[i].name)
            && vstd::utf8::valid_utf8(v.receipts[i].method)
}

/// Every block is well formed for storing.
pub proof fn lemma_block_stored_well(b: Block)
    ensures
        stored_well(b@),
{
    assert forall|i: int| 0 <= i < b@.receipts.len() implies vstd::utf8::valid_utf8(
        #[trigger] b@.receipts[i].name,
    ) && vstd::utf8::valid_utf8(b@.receipts[i].method) by {
        assert(b@.receipts[i] == b.recipts@[i]@);
        vstd::utf8::encode_utf8_valid_utf8(b.recipts@[i].contract_name@);
        vstd::utf8::encode_utf8_valid_utf8(b.recipts@[i].contract_method@);
    };
}

proof fn lemma_receipts_record_front(rs: Seq<ReceiptView>)
    requires
        rs.len() > 0,
    ensures
        receipts_record(rs) == framed(rs[0].name) + framed(rs[0].method) + framed(rs[0].req)
            + receipts_record(rs.drop_first()),
    decreases rs.len(),
{
    if rs.len() == 1 {
        assert(rs.drop_last() =~= Seq::<ReceiptView>::empty());
        assert(rs.drop_first() =~= Seq::<ReceiptView>::empty());
        assert(receipts_record(rs) =~= framed(rs[0].name) + framed(rs[0].method) + framed(
            rs[0].req,
        ) + receipts_record(rs.drop_first()));
    } else {
        lemma_receipts_record_front(rs.drop_last());
        assert(rs.drop_last().drop_first() =~= rs.drop_first().drop_last());
        assert(rs.drop_first().last() == rs.last());
        assert(receipts_record(rs) =~= framed(rs[0].name) + framed(rs[0].method) + framed(
            rs[0].req,
        ) + receipts_record(rs.drop_first()));
    }
}

proof fn lemma_framed_read(bytes: Seq<u8>, at: int, x: Seq<u8>, rest: Seq<u8>)
    requires
        0 <= at <= bytes.len(),
        bytes.skip(at) == framed(x) + rest,
        bytes.len() < 0x1_0000_0000_0000_0000,
    ensures
        at + 8 + x.len() <= bytes.len(),
        word::le_value(bytes.subrange(at, at + 8)) == x.len(),
        bytes.subrange(at + 8, at + 8 + x.len()) == x,
        bytes.skip(at + 8 + x.len()) == rest,
{
    lemma_le_bytes_len(x.len(), 8);
    reveal_with_fuel(word::le_limit, 9);
    let f = framed(x) + rest;
    assert(bytes.skip(at).len() == bytes.len() - at);
    assert(f.len() == 8 + x.len() + rest.len());
    assert(x.len() < word::le_limit(8));
    word::lemma_le_round_trip(x.len(), 8);
    assert(bytes.len() == at + f.len());
    assert forall|j: int| 0 <= j < f.len() implies bytes[at + j] == f[j] by {
        assert(bytes.skip(at)[j] == bytes[at + j]);
    };
    assert(bytes.subrange(at, at + 8) =~= word::le_bytes(x.len(), 8)) by {
        assert forall|j: int| 0 <= j < 8 implies bytes.subrange(at, at + 8)[j] == word::le_bytes(
            x.len(),
            8,
        )[j] by {
            assert(f[j] == word::le_bytes(x.len(), 8)[j]);
        };
    };
    assert(bytes.subrange(at + 8, at + 8 + x.len()) =~= x) by {
        assert forall|j: int| 0 <= j < x.len() implies bytes.subrange(at + 8, at + 8 + x.len())[j]
            == x[j] by {
            assert(f[8 + j] == x[j]);
        };
    };
    assert(bytes.skip(at + 8 + x.len()) =~= rest) by {
        assert forall|j: int| 0 <= j < rest.len() implies bytes.skip(at + 8 + x.len())[j]
            == rest[j] by {
            assert(f[8 + x.len() + j] == rest[j]);
        };
    };
}

/// Where the bytes at `at` hold the records of receipts `k` on, the next
/// three framed fields are receipt `k`'s, and the records of the rest follow.
proof fn lemma_next_receipt(bytes: Seq<u8>, at: int, rs: Seq<ReceiptView>, k: int)
    requires
        0 <= at < bytes.len(),
        bytes.len() < 0x1_0000_0000_0000_0000,
        0 <= k <= rs.len(),
        bytes.skip(at) == receipts_record(rs.skip(k)),
    ensures
        k < rs.len(),
        ({
            let x = rs[k];
            let a2 = at + 8 + x.name.len();
            let a3 = a2 + 8 + x.method.len();
            let next = a3 + 8 + x.req.len();
            &&& next <= bytes.len()
            &&& word::le_value(bytes.subrange(at, at + 8)) == x.name.len()
            &&& bytes.subrange(at + 8, a2) == x.name
            &&& word::le_value(bytes.subrange(a2, a2 + 8)) == x.method.len()
            &&& bytes.subrange(a2 + 8, a3) == x.method
            &&& word::le_value(bytes.subrange(a3, a3 + 8)) == x.req.len()
            &&& bytes.subrange(a3 + 8, next) == x.req
            &&& bytes.skip(next) == receipts_record(rs.skip(k + 1))
        }),
{
    if k == rs.len() {
        assert(rs.skip(k) =~= Seq::<ReceiptView>::empty());
        assert(bytes.skip(at).len() > 0);
    }
    lemma_receipts_record_front(rs.skip(k));
    assert(rs.skip(k)[0] == rs[k]);
    assert(rs.skip(k).drop_first() =~= rs.skip(k + 1));
    let x = rs[k];
    let rest = receipts_record(rs.skip(k + 1));
    let r1 = framed(x.method) + framed(x.req) + rest;
    let r2 = framed(x.req) + rest;
    assert(bytes.skip(at) =~= framed(x.name) + r1);
    lemma_framed_read(bytes, at, x.name, r1);
    let a2 = at + 8 + x.name.len();
    assert(bytes.skip(a2) =~= framed(x.method) + r2);
    lemma_framed_read(bytes, a2, x.method, r2);
    let a3 = a2 + 8 + x.method.len();
    assert(bytes.skip(a3) =~= framed(x.req) + rest);
    lemma_framed_read(bytes, a3, x.req, rest);
}

/// The records of receipts are empty only when there are none.
proof fn lemma_receipts_record_empty(rs: Seq<ReceiptView>)
    requires
        receipts_record(rs).len() == 0,
    ensures
        rs.len() == 0,
{
    if rs.len() > 0 {
        lemma_receipts_record_front(rs);
        lemma_le_bytes_len(rs[0].name.len(), 8);
    }
}

/// The number eight little-endian bytes at `at` spell, if it fits in a `usize`.
fn read_length(bytes: &[u8], at: usize) -> (r: Option<usize>)
    requires
        at + 8 <= bytes@.len(),
    ensures
        ({
            let v = word::le_value(bytes@.subrange(at as int, at + 8));
            if v <= usize::MAX {
                r == Some(v as usize)
            } else {
                r is None
            }
        }),
{
    let total = bytes.len();
    let ghost seg = bytes@.subrange(at as int, at + 8);
    let mut acc: u128 = 0;
    let mut i: usize = 8;
    proof {
        reveal_with_fuel(word::le_limit, 9);
    }
    assert(seg.skip(8) =~= Seq::<u8>::empty());
    while i > 0
        invariant
            i <= 8,
            total == bytes@.len(),
            at + 8 <= bytes@.len(),
            seg == bytes@.subrange(at as int, at + 8),
            acc == word::le_value(seg.skip(i as int)),
            acc < word::le_limit((8 - i) as nat),
        decreases i,
    {
        assert(seg.skip(i - 1).drop_first() =~= seg.skip(i as int));
        assert(seg.skip(i - 1)[0] == bytes@[at + i - 1]);
        proof {
            reveal_with_fuel(word::le_limit, 9);
        }
        acc = bytes[at + i - 1] as u128 + 256 * acc;
        i = i - 1;
    }
    assert(seg.skip(0) == seg);
    if acc > usize::MAX as u128 {
        None
    } else {
        Some(acc as usize)
    }
}

/// One length-framed field at `at`, and the position after it.
fn read_field(bytes: &[u8], at: usize) -> (r: Option<(Vec<u8>, usize)>)
    ensures
        r matches Some((f, next)) ==> at + 8 <= bytes@.len() && next == at + 8 + f@.len() && next
            <= bytes@.len() && f@ == bytes@.subrange(at + 8, next as int) && f@.len()
            == word::le_value(bytes@.subrange(at as int, at + 8)),
        (at + 8 <= bytes@.len() && at + 8 + word::le_value(bytes@.subrange(at as int, at + 8))
            <= bytes@.len()) ==> r is Some,
{
    if at > bytes.len() || bytes.len() - at < 8 {
        return None;
    }
    let n = match read_length(bytes, at) {
        Some(n) => n,
        None => return None,
    };
    if n > bytes.len() - at - 8 {
        return None;
    }
    let start = at + 8;
    let field = vstd::slice::slice_to_vec(vstd::slice::slice_subrange(bytes, start, start + n));
    Some((field, start + n))
}

fn read_digest(bytes: &[u8], at: usize) -> (r: [u8; 32])
    requires
        at + 32 <= bytes@.len(),
    ensures
        r@ == bytes@.subrange(at as int, at + 32),
{
    let total = bytes.len();
    let mut d = [0u8; 32];
    let mut i: usize = 0;
    while i < 32
        invariant
            i <= 32,
            total == bytes@.len(),
            at + 32 <= bytes@.len(),
            d@.len() == 32,
            forall|j: int| 0 <= j < i ==> d@[j] == bytes@[at + j],
        decreases 32 - i,
    {
        d[i] = bytes[at + i];
        i = i + 1;
    }
    assert(d@ =~= bytes@.subrange(at as int, at + 32));
    d
}

#[verifier::rlimit(60)]
/// Reads a stored block back. Whatever it returns is stored exactly as
/// `bytes` are, and the record of every block reads back.
pub fn decode_record(bytes: &[u8]) -> (r: Option<Block>)
    ensures
        r matches Some(b) ==> record(b@) == bytes@,
        (exists|v: BlockView| stored_well(v) && record(v) == bytes@) ==> r is Some,
        (exists|b: Block| record(b@) == bytes@) ==> r is Some,
{
    let total = bytes.len();
    let ghost has = exists|v: BlockView| stored_well(v) && record(v) == bytes@;
    proof {
        if exists|b: Block| record(b@) == bytes@ {
            let b = choose|b: Block| record(b@) == bytes@;
            lemma_block_stored_well(b);
            assert(stored_well(b@) && record(b@) == bytes@);
        }
    }
    let ghost wv = choose|v: BlockView| stored_well(v) && record(v) == bytes@;
    let ghost rs = wv.receipts;
    let ghost tb = time_bytes(wv.time);
    proof {
        if has {
            lemma_le_bytes_len((wv.time as u64) as nat, 8);
            assert(tb.len() == 8);
            assert(bytes@ =~= wv.digest + wv.previous_digest + tb + receipts_record(rs));
            assert(bytes@.subrange(0, 32) =~= wv.digest);
            assert(bytes@.subrange(32, 64) =~= wv.previous_digest);
            assert(bytes@.subrange(64, 72) =~= tb);
            assert(bytes@.skip(72) =~= receipts_record(rs));
        }
    }
    if total < 72 {
        return None;
    }
    let digest = read_digest(bytes, 0);
    let previous_digest = read_digest(bytes, 32);
    let mut t: u64 = 0;
    let mut i: usize = 64;
    proof {
        reveal_with_fuel(word::le_limit, 9);
    }
    assert(bytes@.subrange(64, 64) =~= Seq::<u8>::empty());
    while i < 72
        invariant
            64 <= i <= 72,
            total == bytes@.len(),
            bytes@.len() >= 72,
            t == be_value(bytes@.subrange(64, i as int)),
            t < word::le_limit((i - 64) as nat),
        decreases 72 - i,
    {
        assert(bytes@.subrange(64, i + 1).drop_last() =~= bytes@.subrange(64, i as int));
        proof {
            reveal_with_fuel(word::le_limit, 9);
        }
        t = t * 256 + bytes[i] as u64;
        i = i + 1;
    }
    let time = t as i64;
    proof {
        if has {
            let tm = wv.time;
            reveal_with_fuel(word::le_limit, 9);
            lemma_be_le((tm as u64) as nat, 8);
            assert(t == tm as u64);
            assert(((tm as u64) as i64) == tm) by (bit_vector);
            assert(time == tm);
        }
    }
    let mut recipts: Vec<ContractRecipt> = Vec::new();
    let mut at: usize = 72;
    let ghost mut k: int = 0;
    assert(rs.skip(0) == rs);
    assert(receipts_view(recipts@) =~= rs.take(0));
    while at < total
        invariant
            72 <= at <= bytes@.len(),
            total == bytes@.len(),
            has == (exists|v: BlockView| stored_well(v) && record(v) == bytes@),
            (exists|b: Block| record(b@) == bytes@) ==> has,
            has ==> stored_well(wv) && record(wv) == bytes@,
            rs == wv.receipts,
            has ==> 0 <= k <= rs.len() && receipts_view(recipts@) == rs.take(k) && bytes@.skip(
                at as int,
            ) == receipts_record(rs.skip(k)),
        decreases bytes@.len() - at,
    {
        proof {
            if has {
                lemma_next_receipt(bytes@, at as int, rs, k);
            }
        }
        assert(has ==> at + 8 <= bytes@.len() && at + 8 + word::le_value(
            bytes@.subrange(at as int, at + 8),
        ) <= bytes@.len());
        let (name, next) = match read_field(bytes, at) {
            Some(f) => f,
            None => return None,
        };
        assert(has ==> name@ == rs[k].name && next == at + 8 + rs[k].name.len());
        let (method, next) = match read_field(bytes, next) {
            Some(f) => f,
            None => return None,
        };
        assert(has ==> method@ == rs[k].method);
        let (req, next) = match read_field(bytes, next) {
            Some(f) => f,
            None => return None,
        };
        assert(has ==> req@ == rs[k].req && bytes@.skip(next as int) == receipts_record(
            rs.skip(k + 1),
        ));
        let ghost nb = name@;
        let ghost mb = method@;
        let contract_name = match text_of_utf8(name) {
            Some(s) => s,
            None => return None,
        };
        let contract_method = match text_of_utf8(method) {
            Some(s) => s,
            None => return None,
        };
        let receipt = ContractRecipt { contract_name, contract_method, req };
        proof {
            if has {
                vstd::utf8::decode_utf8_encode_utf8(nb);
                vstd::utf8::decode_utf8_encode_utf8(mb);
                assert(receipt@ == rs[k]);
            }
        }
        let ghost before = receipts_view(recipts@);
        recipts.push(receipt);
        proof {
            if has {
                assert(receipts_view(recipts@) =~= before.push(receipt@));
                assert(rs.take(k + 1) =~= rs.take(k).push(rs[k]));
            }
            k = k + 1;
        }
        at = next;
    }
    proof {
        if has {
            assert(bytes@.skip(at as int).len() == 0);
            lemma_receipts_record_empty(rs.skip(k));
            assert(rs.take(k) == rs);
        }
    }
    let block = Block { digest, previous_digest, recipts, time };
    proof {
        if has {
            assert(block@.digest =~= wv.digest);
            assert(block@.previous_digest =~= wv.previous_digest);
            assert(block@ == wv);
        }
    }
    let again = block_record(&block);
    if crate::storage::bytes_eq(again.as_slice(), bytes) {
        Some(block)
    } else {
        None
    }
}

/// The block stored under a digest, if there is one that reads back.
pub fn block_by_hash<S: Storage>(storage: &S, hash: &[u8]) -> (r: Option<Block>)
    requires
        storage.inv(),
    ensures
        r matches Some(b) ==> storage.kv().contains_key(block_key(hash@)) && record(b@)
            == storage.kv()[block_key(hash@)],
        !storage.kv().contains_key(block_key(hash@)) ==> r is None,
        storage.kv().contains_key(block_key(hash@)) && (exists|v: BlockView|
            stored_well(v) && record(v) == storage.kv()[block_key(hash@)]) ==> r is Some,
{
    let key = block_key_bytes(hash);
    match storage.get(key.as_slice()) {
        Some(bytes) => decode_record(bytes.as_slice()),
        None => None,
    }
}

/// The head block, if the store has one that reads back.
pub fn latest_block<S: Storage>(storage: &S) -> (r: Option<Block>)
    requires
        storage.inv(),
    ensures
        r matches Some(b) ==> storage.kv().contains_key(latest_key())
            && storage.kv().contains_key(block_key(storage.kv()[latest_key()])) && record(b@)
            == storage.kv()[block_key(storage.kv()[latest_key()])],
        !storage.kv().contains_key(latest_key()) ==> r is None,
        storage.kv().contains_key(latest_key()) && storage.kv().contains_key(
            block_key(storage.kv()[latest_key()]),
        ) && (exists|v: BlockView|
            stored_well(v) && record(v) == storage.kv()[block_key(storage.kv()[latest_key()])])
            ==> r is Some,
{
    let latest = latest_key_bytes();
    match storage.get(latest.as_slice()) {
        Some(h) => block_by_hash(storage, h.as_slice()),
        None => None,
    }
}

pub struct Chain {
    head: [u8; 32],
}

impl Chain {
    /// The digest of the current head.
    pub closed spec fn head(&self) -> Seq<u8> {
        self.head@
    }

    /// Opens the chain kept in `storage`; a store that holds none gets the
    /// genesis block as its head.
    pub fn new<S: Storage>(storage: &mut S) -> (r: Chain)
        requires
            old(storage).inv(),
        ensures
            final(storage).inv(),
            opened(old(storage).kv()) ==> final(storage).kv() == old(storage).kv() && r.head()
                == old(storage).kv()[latest_key()],
            !opened(old(storage).kv()) ==> final(storage).kv() == bootstrapped(old(storage).kv())
                && r.head() == zero_digest(),
            old(storage).kv() == Map::<Seq<u8>, Seq<u8>>::empty() ==> chain_state(
                final(storage).kv(),
                r.head(),
            ),
            chain_state(old(storage).kv(), old(storage).kv()[latest_key()]) ==> final(storage).kv()
                == old(storage).kv() && chain_state(final(storage).kv(), r.head()),
    {
        proof {
            if old(storage).kv() == Map::<Seq<u8>, Seq<u8>>::empty() {
                lemma_bootstrap(old(storage).kv());
            }
        }
        let latest = latest_key_bytes();
        if let Some(h) = storage.get(latest.as_slice()) {
            if h.len() == 32 {
                let key = block_key_bytes(h.as_slice());
                if storage.get(key.as_slice()).is_some() {
                    let mut head = [0u8; 32];
                    let mut i: usize = 0;
                    while i < 32
                        invariant
                            i <= 32,
                            h@.len() == 32,
                            head@.len() == 32,
                            forall|j: int| 0 <= j < i ==> head@[j] == h@[j],
                        decreases 32 - i,
                    {
                        head[i] = h[i];
                        i = i + 1;
                    }
                    assert(head@ =~= h@);
                    return Chain { head };
                }
            }
        }
        let g = Block::genesis();
        store_block(storage, &g);
        let r = Chain { head: [0; 32] };
        assert(r.head() =~= zero_digest());
        r
    }

    /// Stores the block and makes it the head.
    pub fn insert_block<S: Storage>(&mut self, storage: &mut S, block: Block)
        requires
            old(storage).inv(),
        ensures
            final(storage).inv(),
            final(storage).kv() == inserted(old(storage).kv(), block@),
            final(self).head() == block@.digest,
            chain_state(old(storage).kv(), old(self).head()) && block@.previous_digest == old(self).head() ==> chain_state(final(storage).kv(), final(self).head()),
    {
        proof {
            if chain_state(old(storage).kv(), self.head()) && block@.previous_digest == self.head() {
                lemma_insert_keeps_linkage(old(storage).kv(), self.head(), block@);
            }
        }
        store_block(storage, &block);
        self.head = block.digest;
    }

    /// A block of these receipts, stamped with the current time, following the head.
    pub fn block_with_transactions(&self, transactions: Vec<ContractRecipt>) -> (r: Block)
        ensures
            r@.digest == block_digest(receipts_view(transactions@), r@.time),
            r@.previous_digest == self.head(),
            r@.receipts == receipts_view(transactions@),
    {
        let time = now_millis();
        build_block(transactions, self.head, time)
    }
}

} // verus!
