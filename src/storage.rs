//! The byte-keyed store that contracts, balances and blocks are kept in.

use vstd::prelude::*;

verus! {

/// Whether `s` begins with `prefix`.
pub open spec fn has_prefix(s: Seq<u8>, prefix: Seq<u8>) -> bool {
    prefix.len() <= s.len() && s.subrange(0, prefix.len() as int) == prefix
}

/// A persistent map from byte strings to byte strings.
pub trait Storage {
    /// The contents of the store.
    spec fn kv(&self) -> Map<Seq<u8>, Seq<u8>>;

    /// What the implementation keeps true between calls.
    spec fn inv(&self) -> bool;

    fn get(&self, key: &[u8]) -> (r: Option<Vec<u8>>)
        requires
            self.inv(),
        ensures
            match r {
                Some(v) => self.kv().contains_key(key@) && self.kv()[key@] == v@,
                None => !self.kv().contains_key(key@),
            },
    ;

    fn set(&mut self, key: &[u8], value: &[u8])
        requires
            old(self).inv(),
        ensures
            final(self).inv(),
            final(self).kv() == old(self).kv().insert(key@, value@),
    ;

    fn delete(&mut self, key: &[u8])
        requires
            old(self).inv(),
        ensures
            final(self).inv(),
            final(self).kv() == old(self).kv().remove(key@),
    ;

    fn delete_prefix(&mut self, prefix: &[u8])
        requires
            old(self).inv(),
        ensures
            final(self).inv(),
            final(self).kv() == old(self).kv().restrict(
                old(self).kv().dom().filter(|k: Seq<u8>| !has_prefix(k, prefix@)),
            ),
    ;

    fn get_or_set(&mut self, key: &[u8], alternative_value: &[u8]) -> (r: Vec<u8>)
        requires
            old(self).inv(),
        ensures
            final(self).inv(),
            old(self).kv().contains_key(key@) ==> r@ == old(self).kv()[key@] && final(self).kv() == old(self).kv(),
            !old(self).kv().contains_key(key@) ==> r@ == alternative_value@ && final(self).kv() == old(self).kv().insert(key@, alternative_value@),
    ;
}

/// Whether two byte strings are equal.
pub fn bytes_eq(a: &[u8], b: &[u8]) -> (r: bool)
    ensures
        r == (a@ == b@),
{
    if a.len() != b.len() {
        return false;
    }
    let mut i: usize = 0;
    while i < a.len()
        invariant
            a@.len() == b@.len(),
            i <= a@.len(),
            a@.subrange(0, i as int) == b@.subrange(0, i as int),
        decreases a@.len() - i,
    {
        if a[i] != b[i] {
            assert(a@[i as int] == a@.subrange(0, i as int + 1)[i as int]);
            return false;
        }
        assert(a@.subrange(0, i as int + 1) == a@.subrange(0, i as int).push(a@[i as int]));
        assert(b@.subrange(0, i as int + 1) == b@.subrange(0, i as int).push(b@[i as int]));
        i = i + 1;
    }
    assert(a@ == a@.subrange(0, i as int));
    assert(b@ == b@.subrange(0, i as int));
    true
}

/// Whether `s` begins with `prefix`.
pub fn starts_with(s: &[u8], prefix: &[u8]) -> (r: bool)
    ensures
        r == has_prefix(s@, prefix@),
{
    if prefix.len() > s.len() {
        return false;
    }
    let mut i: usize = 0;
    while i < prefix.len()
        invariant
            prefix@.len() <= s@.len(),
            i <= prefix@.len(),
            s@.subrange(0, i as int) == prefix@.subrange(0, i as int),
        decreases prefix@.len() - i,
    {
        if s[i] != prefix[i] {
            assert(s@.subrange(0, prefix@.len() as int)[i as int] == s@[i as int]);
            return false;
        }
        assert(s@.subrange(0, i as int + 1) == s@.subrange(0, i as int).push(s@[i as int]));
        assert(prefix@.subrange(0, i as int + 1) == prefix@.subrange(0, i as int).push(
            prefix@[i as int],
        ));
        i = i + 1;
    }
    assert(prefix@ == prefix@.subrange(0, i as int));
    true
}

/// What the first `n` writes of a log say about `k`: the value of the last
/// write to `k` among them, or `None` when there is none or it was a deletion.
pub open spec fn lookup(log: Seq<(Seq<u8>, Option<Seq<u8>>)>, n: nat, k: Seq<u8>) -> Option<Seq<u8>>
    decreases n,
{
    if n == 0 || n > log.len() {
        None
    } else if log[n - 1].0 == k {
        log[n - 1].1
    } else {
        lookup(log, (n - 1) as nat, k)
    }
}

/// A value of the last-write-wins lookup names a key that the log wrote.
proof fn lemma_lookup_written(log: Seq<(Seq<u8>, Option<Seq<u8>>)>, n: nat, k: Seq<u8>)
    requires
        lookup(log, n, k) is Some,
    ensures
        exists|j: int| 0 <= j < n && j < log.len() && #[trigger] log[j].0 == k,
    decreases n,
{
    if log[n - 1].0 == k {
        assert(log[n - 1].0 == k);
    } else {
        lemma_lookup_written(log, (n - 1) as nat, k);
    }
}

/// Writes past the first `n` leave the lookup of the first `n` as it was.
proof fn lemma_lookup_prefix(
    log: Seq<(Seq<u8>, Option<Seq<u8>>)>,
    more: Seq<(Seq<u8>, Option<Seq<u8>>)>,
    n: nat,
    k: Seq<u8>,
)
    requires
        n <= log.len(),
    ensures
        lookup(log + more, n, k) == lookup(log, n, k),
    decreases n,
{
    if n > 0 {
        assert((log + more)[n - 1] == log[n - 1]);
        lemma_lookup_prefix(log, more, (n - 1) as nat, k);
    }
}

/// A write as byte strings: a key with its value, or `None` for a deletion.
pub open spec fn write_view(e: (Vec<u8>, Option<Vec<u8>>)) -> (Seq<u8>, Option<Seq<u8>>) {
    (
        e.0@,
        match e.1 {
            Some(v) => Some(v@),
            None => None,
        },
    )
}

/// Writes as byte strings.
pub open spec fn writes_view(v: Seq<(Vec<u8>, Option<Vec<u8>>)>) -> Seq<(Seq<u8>, Option<Seq<u8>>)> {
    v.map_values(|e: (Vec<u8>, Option<Vec<u8>>)| write_view(e))
}

/// A store held in memory: a log of writes in which the last write to a key wins.
pub struct MemStorage {
    log: Vec<(Vec<u8>, Option<Vec<u8>>)>,
}

impl MemStorage {
    /// The log with each buffer replaced by its contents.
    pub closed spec fn log_view(&self) -> Seq<(Seq<u8>, Option<Seq<u8>>)> {
        writes_view(self.log@)
    }

    pub fn new() -> (r: MemStorage)
        ensures
            r.inv(),
            r.kv() == Map::<Seq<u8>, Seq<u8>>::empty(),
    {
        let r = MemStorage { log: Vec::new() };
        assert(r.kv() =~= Map::<Seq<u8>, Seq<u8>>::empty());
        r
    }

    /// The writes made so far, in order: a key with its value, or with
    /// `None` for a deletion. Replaying them into an empty store rebuilds it.
    pub fn writes(&self) -> (r: Vec<(Vec<u8>, Option<Vec<u8>>)>)
        ensures
            writes_view(r@) == self.log_view(),
    {
        let mut out: Vec<(Vec<u8>, Option<Vec<u8>>)> = Vec::new();
        let mut i: usize = 0;
        while i < self.log.len()
            invariant
                i <= self.log@.len(),
                out@.len() == i,
                writes_view(out@) == self.log_view().take(i as int),
            decreases self.log@.len() - i,
        {
            let value = match &self.log[i].1 {
                Some(v) => Some(vstd::slice::slice_to_vec(v.as_slice())),
                None => None,
            };
            let ghost before = out@;
            let e = (vstd::slice::slice_to_vec(self.log[i].0.as_slice()), value);
            assert(write_view(e) == write_view(self.log@[i as int]));
            out.push(e);
            assert(out@ == before.push(e));
            assert forall|j: int| 0 <= j < i + 1 implies writes_view(out@)[j] == self.log_view().take(
                i + 1,
            )[j] by {
                assert(writes_view(out@)[j] == write_view(out@[j]));
                assert(self.log_view()[j] == write_view(self.log@[j]));
                if j < i {
                    assert(out@[j] == before[j]);
                    assert(writes_view(before)[j] == write_view(before[j]));
                    assert(writes_view(before)[j] == self.log_view().take(i as int)[j]);
                }
            };
            assert(writes_view(out@) =~= self.log_view().take(i + 1));
            i = i + 1;
        }
        assert(self.log_view().take(i as int) =~= self.log_view());
        out
    }

    fn append(&mut self, key: &[u8], value: Option<&[u8]>)
        ensures
            final(self).log_view() == old(self).log_view().push(
                (
                    key@,
                    match value {
                        Some(v) => Some(v@),
                        None => None,
                    },
                ),
            ),
    {
        let v = match value {
            Some(v) => Some(vstd::slice::slice_to_vec(v)),
            None => None,
        };
        self.log.push((vstd::slice::slice_to_vec(key), v));
        assert(self.log_view() =~= old(self).log_view().push(
            (
                key@,
                match value {
                    Some(v) => Some(v@),
                    None => None,
                },
            ),
        ));
    }

    proof fn lemma_append(old_log: Seq<(Seq<u8>, Option<Seq<u8>>)>, e: (Seq<u8>, Option<Seq<u8>>), k: Seq<u8>)
        ensures
            lookup(old_log.push(e), (old_log.len() + 1) as nat, k) == if e.0 == k {
                e.1
            } else {
                lookup(old_log, old_log.len(), k)
            },
    {
        lemma_lookup_prefix(old_log, seq![e], old_log.len(), k);
        assert(old_log.push(e) == old_log + seq![e]);
    }
}

impl Storage for MemStorage {
    closed spec fn kv(&self) -> Map<Seq<u8>, Seq<u8>> {
        Map::new(
            |k: Seq<u8>| lookup(self.log_view(), self.log_view().len(), k) is Some,
            |k: Seq<u8>| lookup(self.log_view(), self.log_view().len(), k)->0,
        )
    }

    closed spec fn inv(&self) -> bool {
        true
    }

    fn get(&self, key: &[u8]) -> (r: Option<Vec<u8>>) {
        let ghost lv = self.log_view();
        let mut i: usize = self.log.len();
        while i > 0
            invariant
                i <= lv.len(),
                lv == self.log_view(),
                lookup(lv, lv.len(), key@) == lookup(lv, i as nat, key@),
            decreases i,
        {
            if bytes_eq(self.log[i - 1].0.as_slice(), key) {
                return match &self.log[i - 1].1 {
                    Some(v) => Some(vstd::slice::slice_to_vec(v.as_slice())),
                    None => None,
                };
            }
            i = i - 1;
        }
        None
    }

    fn set(&mut self, key: &[u8], value: &[u8]) {
        let ghost old_log = self.log_view();
        self.append(key, Some(value));
        assert forall|k: Seq<u8>| true implies lookup(self.log_view(), self.log_view().len(), k) == if k == key@ {
            Some(value@)
        } else {
            lookup(old_log, old_log.len(), k)
        } by {
            MemStorage::lemma_append(old_log, (key@, Some(value@)), k);
        };
        assert(self.kv() =~= old(self).kv().insert(key@, value@));
    }

    fn delete(&mut self, key: &[u8]) {
        let ghost old_log = self.log_view();
        self.append(key, None);
        assert forall|k: Seq<u8>| true implies lookup(self.log_view(), self.log_view().len(), k) == if k == key@ {
            None
        } else {
            lookup(old_log, old_log.len(), k)
        } by {
            MemStorage::lemma_append(old_log, (key@, None), k);
        };
        assert(self.kv() =~= old(self).kv().remove(key@));
    }

    fn delete_prefix(&mut self, prefix: &[u8]) {
        let ghost old_log = self.log_view();
        let n = self.log.len();
        let mut i: usize = 0;
        while i < n
            invariant
                n == old_log.len(),
                i <= n,
                self.log_view().len() >= n,
                self.log_view().subrange(0, n as int) == old_log,
                forall|k: Seq<u8>|
                    #![trigger lookup(self.log_view(), self.log_view().len(), k)]
                    lookup(self.log_view(), self.log_view().len(), k) == if has_prefix(k, prefix@)
                        && exists|j: int| 0 <= j < i && #[trigger] old_log[j].0 == k {
                        None
                    } else {
                        lookup(old_log, old_log.len(), k)
                    },
            decreases n - i,
        {
            let ghost before = self.log_view();
            if starts_with(self.log[i].0.as_slice(), prefix) {
                assert(self.log_view()[i as int] == old_log[i as int]);
                let key = vstd::slice::slice_to_vec(self.log[i].0.as_slice());
                self.append(key.as_slice(), None);
                assert forall|k: Seq<u8>| true implies lookup(self.log_view(), self.log_view().len(), k)
                    == if k == key@ {
                    None
                } else {
                    lookup(before, before.len(), k)
                } by {
                    MemStorage::lemma_append(before, (key@, None), k);
                };
                assert(self.log_view().subrange(0, n as int) == before.subrange(0, n as int));
            }
            assert forall|k: Seq<u8>| true implies (has_prefix(k, prefix@) && exists|j: int|
                0 <= j < i + 1 && #[trigger] old_log[j].0 == k) == (has_prefix(k, prefix@) && (
            (exists|j: int| 0 <= j < i && #[trigger] old_log[j].0 == k) || old_log[i as int].0 == k)) by {
                if exists|j: int| 0 <= j < i + 1 && #[trigger] old_log[j].0 == k {
                    let j = choose|j: int| 0 <= j < i + 1 && #[trigger] old_log[j].0 == k;
                    if j < i {
                    }
                }
            };
            i = i + 1;
        }
        let ghost keep = old(self).kv().dom().filter(|k: Seq<u8>| !has_prefix(k, prefix@));
        assert forall|k: Seq<u8>| true implies (self.kv().contains_key(k) == keep.contains(k)) && (
        keep.contains(k) ==> self.kv()[k] == old(self).kv()[k]) by {
            if has_prefix(k, prefix@) && lookup(old_log, old_log.len(), k) is Some {
                lemma_lookup_written(old_log, old_log.len(), k);
            }
        };
        assert(self.kv() =~= old(self).kv().restrict(keep));
    }

    fn get_or_set(&mut self, key: &[u8], alternative_value: &[u8]) -> (r: Vec<u8>) {
        match self.get(key) {
            Some(v) => v,
            None => {
                self.set(key, alternative_value);
                vstd::slice::slice_to_vec(alternative_value)
            },
        }
    }
}

} // verus!
