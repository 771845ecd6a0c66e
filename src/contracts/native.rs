//! Native contracts: currency balances kept under `native` keys, and the
//! transfer between them.

use crate::contracts::compiler::literal;
use crate::contracts::request;
use crate::digest;
use crate::storage::Storage;
use crate::word;
use vstd::prelude::*;

verus! {

/// The key of an account's balance: `native` then the account name.
pub open spec fn native_key(account: Seq<char>) -> Seq<u8> {
    seq![0x6eu8, 0x61, 0x74, 0x69, 0x76, 0x65] + request::utf8(account)
}

/// `{"balance":`, the start of a balance record.
pub open spec fn balance_prefix() -> Seq<u8> {
    seq![0x7bu8, 0x22, 0x62, 0x61, 0x6c, 0x61, 0x6e, 0x63, 0x65, 0x22, 0x3a]
}

/// The record of a balance: `{"balance":N}`, N in decimal.
pub open spec fn balance_record(n: nat) -> Seq<u8> {
    balance_prefix() + request::decimal(n) + seq![0x7du8]
}

/// The number ASCII decimal digits spell.
pub open spec fn decimal_value(d: Seq<u8>) -> nat
    decreases d.len(),
{
    if d.len() == 0 {
        0
    } else {
        decimal_value(d.drop_last()) * 10 + (d.last() - 0x30) as nat
    }
}

/// Decimal digits without a leading zero (but `0` itself).
pub open spec fn is_decimal(d: Seq<u8>) -> bool {
    &&& d.len() > 0
    &&& forall|i: int| 0 <= i < d.len() ==> 0x30 <= #[trigger] d[i] <= 0x39
    &&& (d.len() == 1 || d[0] != 0x30)
}

/// The balance a record holds, if it is a well-formed record of a `u64`.
pub open spec fn record_balance(b: Seq<u8>) -> Option<nat> {
    if b.len() >= 13 && b.take(11) == balance_prefix() && b.last() == 0x7d {
        let d = b.subrange(11, b.len() - 1);
        if is_decimal(d) && decimal_value(d) < word::limb_base() {
            Some(decimal_value(d))
        } else {
            None
        }
    } else {
        None
    }
}

/// An account's balance: the record under its key.
pub open spec fn balance_of(kv: Map<Seq<u8>, Seq<u8>>, account: Seq<char>) -> Option<nat> {
    let k = native_key(account);
    if kv.contains_key(k) {
        record_balance(kv[k])
    } else {
        None
    }
}

proof fn lemma_decimal(n: nat)
    ensures
        request::decimal(n).len() >= 1,
        forall|i: int|
            0 <= i < request::decimal(n).len() ==> 0x30 <= #[trigger] request::decimal(n)[i] <= 0x39,
        decimal_value(request::decimal(n)) == n,
        n >= 1 ==> request::decimal(n)[0] != 0x30,
        n == 0 ==> request::decimal(n).len() == 1,
    decreases n,
{
    let d = request::decimal(n);
    if n < 10 {
        assert(d.drop_last() =~= Seq::<u8>::empty());
        assert(d.last() as nat == 0x30 + n);
        assert(decimal_value(d) == decimal_value(d.drop_last()) * 10 + (d.last() - 0x30) as nat);
    } else {
        lemma_decimal(n / 10);
        let p = request::decimal(n / 10);
        assert(d.drop_last() == p);
        assert(d[0] == p[0]);
        assert forall|i: int| 0 <= i < d.len() implies 0x30 <= #[trigger] d[i] <= 0x39 by {
            if i < p.len() {
                assert(d[i] == p[i]);
            }
        };
        assert(d.last() as nat == 0x30 + n % 10);
        assert(decimal_value(d) == decimal_value(p) * 10 + (d.last() - 0x30) as nat);
        assert((n / 10) * 10 + n % 10 == n) by (nonlinear_arith);
    }
}

/// A written balance reads back as itself.
pub proof fn lemma_record_round_trip(n: nat)
    requires
        n < word::limb_base(),
    ensures
        record_balance(balance_record(n)) == Some(n),
{
    lemma_decimal(n);
    let d = request::decimal(n);
    let b = balance_record(n);
    assert(b.take(11) =~= balance_prefix());
    assert(b.subrange(11, b.len() - 1) =~= d);
}

proof fn lemma_decimal_prefix(d: Seq<u8>, k: nat)
    requires
        k <= d.len(),
    ensures
        decimal_value(d.take(k as int)) <= decimal_value(d),
    decreases d.len() - k,
{
    if k < d.len() {
        lemma_decimal_prefix(d, k + 1);
        assert(d.take(k as int + 1).drop_last() == d.take(k as int));
    } else {
        assert(d.take(k as int) == d);
    }
}

/// The store after moving `amount` from `from` to `to`, or `None` when
/// `from` has no balance or too small a balance, `to` holds a malformed
/// record, or `to` would overflow. A missing balance of `to` counts as zero.
pub open spec fn transferred(
    kv: Map<Seq<u8>, Seq<u8>>,
    from: Seq<char>,
    to: Seq<char>,
    amount: nat,
) -> Option<Map<Seq<u8>, Seq<u8>>> {
    match balance_of(kv, from) {
        None => None,
        Some(f) => if amount > f {
            None
        } else {
            let t0: nat = if to == from {
                (f - amount) as nat
            } else {
                match balance_of(kv, to) {
                    Some(t) => t,
                    None => 0,
                }
            };
            if to != from && kv.contains_key(native_key(to)) && balance_of(kv, to) is None {
                None
            } else if t0 + amount >= word::limb_base() {
                None
            } else {
                Some(
                    kv.insert(native_key(from), balance_record((f - amount) as nat)).insert(
                        native_key(to),
                        balance_record(t0 + amount),
                    ),
                )
            }
        },
    }
}

proof fn lemma_native_key_injective(a: Seq<char>, b: Seq<char>)
    ensures
        native_key(a) == native_key(b) ==> a == b,
{
    if native_key(a) == native_key(b) {
        assert(native_key(a).skip(6) =~= request::utf8(a));
        assert(native_key(b).skip(6) =~= request::utf8(b));
        vstd::utf8::encode_utf8_decode_utf8(a);
        vstd::utf8::encode_utf8_decode_utf8(b);
    }
}

/// A transfer between two different accounts that succeeds takes `amount`
/// from the sender's balance and adds it to the receiver's (absent counting
/// as zero), leaving every other key as it was.
pub proof fn lemma_transfer_conservation(
    kv: Map<Seq<u8>, Seq<u8>>,
    from: Seq<char>,
    to: Seq<char>,
    amount: nat,
)
    requires
        from != to,
        transferred(kv, from, to, amount) is Some,
    ensures
        ({
            let m = transferred(kv, from, to, amount)->0;
            let before_to: nat = match balance_of(kv, to) {
                Some(t) => t,
                None => 0,
            };
            &&& balance_of(m, from) == Some((balance_of(kv, from)->0 - amount) as nat)
            &&& balance_of(m, to) == Some(before_to + amount)
            &&& balance_of(kv, from)->0 + before_to == balance_of(m, from)->0 + balance_of(
                m,
                to,
            )->0
            &&& forall|k: Seq<u8>|
                k != native_key(from) && k != native_key(to) ==> m.contains_key(k)
                    == kv.contains_key(k) && m[k] == kv[k]
        }),
{
    let f = balance_of(kv, from)->0;
    let before_to: nat = match balance_of(kv, to) {
        Some(t) => t,
        None => 0,
    };
    lemma_native_key_injective(from, to);
    lemma_record_round_trip((f - amount) as nat);
    lemma_record_round_trip(before_to + amount);
}

fn native_key_bytes(account: &str) -> (r: Vec<u8>)
    ensures
        r@ == native_key(account@),
{
    let mut k: Vec<u8> = Vec::new();
    k.push(0x6e);
    k.push(0x61);
    k.push(0x74);
    k.push(0x69);
    k.push(0x76);
    k.push(0x65);
    digest::push_all(&mut k, account.as_bytes());
    assert(k@ =~= native_key(account@));
    k
}

/// The balance a record holds, if it is a well-formed record of a `u64`.
fn read_record(v: &[u8]) -> (r: Option<u64>)
    ensures
        match record_balance(v@) {
            Some(b) => r == Some(b as u64) && b < word::limb_base(),
            None => r is None,
        },
{
    let len = v.len();
    if len < 13 || v[len - 1] != 0x7d {
        return None;
    }
    let prefix: [u8; 11] = [0x7b, 0x22, 0x62, 0x61, 0x6c, 0x61, 0x6e, 0x63, 0x65, 0x22, 0x3a];
    assert(prefix@ =~= balance_prefix());
    let head = vstd::slice::slice_subrange(v, 0, 11);
    assert(head@ =~= v@.take(11));
    if !crate::storage::bytes_eq(head, &prefix) {
        return None;
    }
    let ghost d = v@.subrange(11, len - 1);
    if len - 12 > 1 && v[11] == 0x30 {
        assert(d[0] == 0x30);
        return None;
    }
    let mut acc: u128 = 0;
    let mut i: usize = 11;
    assert(d.take(0) =~= Seq::<u8>::empty());
    while i < len - 1
        invariant
            len == v@.len(),
            len >= 13,
            11 <= i <= len - 1,
            d == v@.subrange(11, len - 1),
            forall|m: int| 0 <= m < i - 11 ==> 0x30 <= #[trigger] d[m] <= 0x39,
            acc == decimal_value(d.take(i - 11)),
            acc < word::limb_base(),
        decreases len - 1 - i,
    {
        let c = v[i];
        assert(d[i - 11] == c);
        if c < 0x30 || c > 0x39 {
            assert(!is_decimal(d));
            return None;
        }
        assert(d.take(i - 11 + 1).drop_last() == d.take(i - 11));
        let next = acc * 10 + (c - 0x30) as u128;
        if next >= 0x1_0000_0000_0000_0000 {
            proof {
                lemma_decimal_prefix(d, (i - 11 + 1) as nat);
            }
            return None;
        }
        acc = next;
        i = i + 1;
    }
    assert(d.take(i - 11) == d);
    Some(acc as u64)
}

/// The balance of an account, if it has one.
pub fn balance<S: Storage>(storage: &S, account: &str) -> (r: Option<u64>)
    requires
        storage.inv(),
    ensures
        match balance_of(storage.kv(), account@) {
            Some(b) => r == Some(b as u64) && b < word::limb_base(),
            None => r is None,
        },
{
    let key = native_key_bytes(account);
    match storage.get(key.as_slice()) {
        Some(v) => read_record(v.as_slice()),
        None => None,
    }
}

fn set_balance<S: Storage>(storage: &mut S, account: &str, value: u64)
    requires
        old(storage).inv(),
    ensures
        final(storage).inv(),
        final(storage).kv() == old(storage).kv().insert(
            native_key(account@),
            balance_record(value as nat),
        ),
{
    let key = native_key_bytes(account);
    let mut bytes: Vec<u8> = Vec::new();
    let prefix: [u8; 11] = [0x7b, 0x22, 0x62, 0x61, 0x6c, 0x61, 0x6e, 0x63, 0x65, 0x22, 0x3a];
    assert(prefix@ =~= balance_prefix());
    digest::push_all(&mut bytes, &prefix);
    request::push_decimal(&mut bytes, value);
    bytes.push(0x7d);
    assert(bytes@ =~= balance_record(value as nat));
    storage.set(key.as_slice(), bytes.as_slice());
}

/// Moves `amount` from `from` to `to`; on failure nothing is written.
pub fn teral_transfer<S: Storage>(storage: &mut S, from: &str, to: &str, amount: u64) -> (r: Result<
    (),
    (),
>)
    requires
        old(storage).inv(),
    ensures
        final(storage).inv(),
        match transferred(old(storage).kv(), from@, to@, amount as nat) {
            Some(m) => r is Ok && final(storage).kv() == m,
            None => r is Err && final(storage).kv() == old(storage).kv(),
        },
{
    let f = match balance(storage, from) {
        Some(f) => f,
        None => return Err(()),
    };
    if amount > f {
        return Err(());
    }
    let same = crate::contracts::compiler::lexer::str_eq(from, to);
    let t0: u64 = if same {
        f - amount
    } else {
        match balance(storage, to) {
            Some(t) => t,
            None => {
                let key = native_key_bytes(to);
                if storage.get(key.as_slice()).is_some() {
                    return Err(());
                }
                0
            },
        }
    };
    if t0 as u128 + amount as u128 >= 0x1_0000_0000_0000_0000 {
        return Err(());
    }
    set_balance(storage, from, f - amount);
    set_balance(storage, to, t0 + amount);
    Ok(())
}

/// Reserved; accepted without effect.
pub fn teral_stake() -> (r: Result<(), ()>)
    ensures
        r is Ok,
{
    Ok(())
}

/// Seeds the genesis account with its initial supply.
pub fn teral_init<S: Storage>(storage: &mut S)
    requires
        old(storage).inv(),
    ensures
        final(storage).inv(),
        final(storage).kv() == old(storage).kv().insert(
            native_key("ghostway"@),
            balance_record(1000),
        ),
        balance_of(final(storage).kv(), "ghostway"@) == Some(1000nat),
{
    set_balance(storage, "ghostway", 1000);
    proof {
        lemma_record_round_trip(1000);
    }
}

} // verus!
