//! One worker's step: run a request against storage and say whether it was
//! accepted. Native requests go to the built-in contracts; others run their
//! contract's bytecode in the virtual machine, whose writes are applied only
//! when it ends without error.

use crate::contracts::compiler;
use crate::contracts::language;
use crate::contracts::native;
use crate::contracts::request;
use crate::contracts::request::{ArgValue, ArgView, ContractRequest};
use crate::contracts::schema;
use crate::contracts::schema::ArgKind;
use crate::digest;
use crate::storage::Storage;
use crate::word;
use crate::word::Word;
use vstd::prelude::*;

verus! {

/// The character of a six-bit value in the standard base64 alphabet.
pub open spec fn base64_char(v: nat) -> char {
    "ABCDEFGHIJKLMNOPQRSTUVWXYZabcdefghijklmnopqrstuvwxyz0123456789+/"@[v as int]
}

/// The standard base64 text of some bytes: each group of three bytes as four
/// characters of six bits each, a short last group padded with `=`.
pub open spec fn base64_of(b: Seq<u8>) -> Seq<char>
    decreases b.len(),
{
    if b.len() == 0 {
        Seq::empty()
    } else if b.len() == 1 {
        let x = b[0] as nat;
        seq![base64_char(x / 4), base64_char((x % 4) * 16), '=', '=']
    } else if b.len() == 2 {
        let x = b[0] as nat;
        let y = b[1] as nat;
        seq![base64_char(x / 4), base64_char((x % 4) * 16 + y / 16), base64_char((y % 16) * 4), '=']
    } else {
        let x = b[0] as nat;
        let y = b[1] as nat;
        let z = b[2] as nat;
        seq![
            base64_char(x / 4),
            base64_char((x % 4) * 16 + y / 16),
            base64_char((y % 16) * 4 + z / 64),
            base64_char(z % 64),
        ] + base64_of(b.skip(3))
    }
}

/// Relies on `base64::encode` (0.13): the standard alphabet, with padding,
/// as `base64_of` spells out.
#[verifier::external_body]
fn base64_encode(bytes: &[u8]) -> (r: String)
    ensures
        r@ == base64_of(bytes@),
{
    base64::encode(bytes)
}

pub open spec fn entrypoint_suffix() -> Seq<u8> {
    seq![0x65u8, 0x6e, 0x74, 0x72, 0x79, 0x70, 0x6f, 0x69, 0x6e, 0x74]
}

pub open spec fn schema_suffix() -> Seq<u8> {
    seq![0x73u8, 0x63, 0x68, 0x65, 0x6d, 0x61]
}

pub open spec fn author_suffix() -> Seq<u8> {
    seq![0x61u8, 0x75, 0x74, 0x68, 0x6f, 0x72]
}

/// A contract's entry: its name, then the suffix.
pub open spec fn contract_key(name: Seq<char>, suffix: Seq<u8>) -> Seq<u8> {
    request::utf8(name) + suffix
}

/// The identity of a contract, which keys its storage slots.
pub open spec fn identity(name: Seq<char>) -> Seq<u8> {
    digest::sha3_256_of(request::utf8(name))
}

pub open spec fn from_name() -> Seq<char> {
    seq!['f', 'r', 'o', 'm']
}

/// The arguments with `from` set to the caller's text.
pub open spec fn with_caller(args: Seq<(Seq<char>, ArgView)>, caller: Seq<char>) -> Seq<
    (Seq<char>, ArgView),
> {
    match schema::arg_index(args, request::utf8(from_name())) {
        Some(j) => args.update(j as int, (args[j as int].0, ArgView::Str(caller))),
        None => args.push((from_name(), ArgView::Str(caller))),
    }
}

/// The word an argument is passed to the machine as: a number as itself, a
/// truth value as 1 or 0, a text as its SHA3-256 digest read little-endian.
pub open spec fn arg_word(v: ArgView) -> Word {
    match v {
        ArgView::U64(n) => word::word_of(n as nat),
        ArgView::Bool(b) => language::bool_word(b),
        ArgView::Str(s) => word::word_of(word::le_value(digest::sha3_256_of(request::utf8(s)))),
    }
}

/// The machine's arguments: the value of each schema entry, in schema order.
pub open spec fn vm_args(args: Seq<(Seq<char>, ArgView)>, entries: Seq<(Seq<u8>, ArgKind)>) -> Seq<
    Word,
> {
    entries.map_values(
        |e: (Seq<u8>, ArgKind)| arg_word(args[schema::arg_index(args, e.0)->0 as int].1),
    )
}

/// The bytecode a worker uses: its cached copy, else the stored entrypoint.
pub open spec fn loaded_code(
    kv: Map<Seq<u8>, Seq<u8>>,
    cached: Option<Seq<u8>>,
    name: Seq<char>,
) -> Option<Seq<u8>> {
    match cached {
        Some(c) => Some(c),
        None => if kv.contains_key(contract_key(name, entrypoint_suffix())) {
            Some(kv[contract_key(name, entrypoint_suffix())])
        } else {
            None
        },
    }
}

/// The final machine state of a contract request that is accepted: its
/// schema is stored and well formed, the arguments satisfy it, its code is
/// at hand, and the machine runs without error.
pub open spec fn contract_run(
    kv: Map<Seq<u8>, Seq<u8>>,
    code: Option<Seq<u8>>,
    name: Seq<char>,
    args: Seq<(Seq<char>, ArgView)>,
) -> Option<language::VmState> {
    let sk = contract_key(name, schema_suffix());
    if !kv.contains_key(sk) {
        None
    } else {
        match schema::schema_of(kv[sk]) {
            None => None,
            Some(es) => if !schema::satisfies(args, es) {
                None
            } else {
                match code {
                    None => None,
                    Some(c) => match language::outcome(c, identity(name), kv, vm_args(args, es)) {
                        Ok(t) => Some(t),
                        Err(_) => None,
                    },
                }
            },
        }
    }
}

/// A worker's compiled programs, by contract name.
pub struct Worker {
    cache: Vec<(String, Vec<u8>)>,
}

impl Worker {
    pub closed spec fn names(&self) -> Seq<Seq<char>> {
        self.cache@.map_values(|e: (String, Vec<u8>)| e.0@)
    }

    /// The cached program of a contract.
    pub closed spec fn code_of(&self, name: Seq<char>) -> Option<Seq<u8>> {
        match crate::contracts::executor::name_index(self.names(), name) {
            Some(i) => Some(self.cache@[i as int].1@),
            None => None,
        }
    }

    pub fn new() -> (r: Worker)
        ensures
            forall|n: Seq<char>| r.code_of(n) is None,
    {
        let r = Worker { cache: Vec::new() };
        assert(r.names() =~= Seq::<Seq<char>>::empty());
        r
    }

    fn cached(&self, name: &String) -> (r: Option<Vec<u8>>)
        ensures
            match self.code_of(name@) {
                Some(c) => r matches Some(v) && v@ == c,
                None => r is None,
            },
    {
        let ghost ns = self.names();
        let mut i = self.cache.len();
        assert(ns.take(i as int) == ns);
        while i > 0
            invariant
                i <= self.cache@.len(),
                ns == self.names(),
                ns.len() == self.cache@.len(),
                crate::contracts::executor::name_index(ns, name@)
                    == crate::contracts::executor::name_index(ns.take(i as int), name@),
            decreases i,
        {
            assert(ns[i - 1] == self.cache@[i - 1].0@);
            assert(ns.take(i as int).drop_last() == ns.take(i - 1));
            if self.cache[i - 1].0 == *name {
                return Some(vstd::slice::slice_to_vec(self.cache[i - 1].1.as_slice()));
            }
            i = i - 1;
        }
        None
    }

    /// Caches a program; the newest entry for a name is the one used.
    fn remember(&mut self, name: String, code: Vec<u8>)
        ensures
            final(self).code_of(name@) == Some(code@),
            forall|n: Seq<char>| n != name@ ==> #[trigger] final(self).code_of(n) == old(self).code_of(n),
    {
        let ghost ns = self.names();
        let ghost c = code@;
        let ghost nm = name@;
        let ghost cache = self.cache@;
        self.cache.push((name, code));
        assert(self.names() =~= ns.push(nm));
        assert(self.names().drop_last() == ns);
        assert forall|n: Seq<char>| n != nm implies #[trigger] self.code_of(n) == old(self).code_of(n) by {
            match crate::contracts::executor::name_index(ns, n) {
                Some(i) => {
                    crate::contracts::executor::lemma_name_index_bound(ns, n);
                    assert(self.cache@[i as int] == cache[i as int]);
                },
                None => {},
            }
        };
    }
}

/// The text of the argument at the first entry named `name`, if it is a text.
pub open spec fn str_arg(args: Seq<(Seq<char>, ArgView)>, name: Seq<u8>) -> Seq<char> {
    match schema::arg_index(args, name) {
        Some(j) => match args[j as int].1 {
            ArgView::Str(s) => s,
            _ => Seq::empty(),
        },
        None => Seq::empty(),
    }
}

pub open spec fn u64_arg(args: Seq<(Seq<char>, ArgView)>, name: Seq<u8>) -> nat {
    match schema::arg_index(args, name) {
        Some(j) => match args[j as int].1 {
            ArgView::U64(n) => n as nat,
            _ => 0,
        },
        None => 0,
    }
}

pub open spec fn name_bytes() -> Seq<u8> {
    seq![0x6eu8, 0x61, 0x6d, 0x65]
}

pub open spec fn code_bytes() -> Seq<u8> {
    seq![0x63u8, 0x6f, 0x64, 0x65]
}

pub open spec fn from_bytes() -> Seq<u8> {
    seq![0x66u8, 0x72, 0x6f, 0x6d]
}

pub open spec fn to_bytes() -> Seq<u8> {
    seq![0x74u8, 0x6f]
}

pub open spec fn amount_bytes() -> Seq<u8> {
    seq![0x61u8, 0x6d, 0x6f, 0x75, 0x6e, 0x74]
}

/// The schema of `add`: `name:str;code:str;schema:str`.
pub open spec fn add_entries() -> Seq<(Seq<u8>, ArgKind)> {
    seq![(name_bytes(), ArgKind::Str), (code_bytes(), ArgKind::Str), (schema_suffix(), ArgKind::Str)]
}

/// The schema of `transfer`: `from:str;to:str;amount:u64`.
pub open spec fn transfer_entries() -> Seq<(Seq<u8>, ArgKind)> {
    seq![(from_bytes(), ArgKind::Str), (to_bytes(), ArgKind::Str), (amount_bytes(), ArgKind::U64)]
}

/// What `add` writes, and the bytecode it caches, when it is accepted: the
/// arguments fit its schema, the name is unowned or owned by the caller, the
/// given schema is well formed and the code compiles.
pub open spec fn added(
    kv: Map<Seq<u8>, Seq<u8>>,
    author: Seq<u8>,
    args: Seq<(Seq<char>, ArgView)>,
) -> Option<(Map<Seq<u8>, Seq<u8>>, Seq<u8>)> {
    if !schema::satisfies(args, add_entries()) {
        None
    } else {
        let name = str_arg(args, name_bytes());
        let ak = contract_key(name, author_suffix());
        let schema_text = request::utf8(str_arg(args, schema_suffix()));
        if kv.contains_key(ak) && kv[ak] != author {
            None
        } else if schema::schema_of(schema_text) is None {
            None
        } else {
            match compiler::compiled(str_arg(args, code_bytes())) {
                Err(_) => None,
                Ok(code) => Some(
                    (
                        kv.insert(contract_key(name, entrypoint_suffix()), code).insert(
                            contract_key(name, schema_suffix()),
                            schema_text,
                        ).insert(ak, author),
                        code,
                    ),
                ),
            }
        }
    }
}

/// What `transfer` leaves, when its arguments fit its schema and the move succeeds.
pub open spec fn transfer_request(kv: Map<Seq<u8>, Seq<u8>>, args: Seq<(Seq<char>, ArgView)>) -> Option<
    Map<Seq<u8>, Seq<u8>>,
> {
    if !schema::satisfies(args, transfer_entries()) {
        None
    } else {
        native::transferred(
            kv,
            str_arg(args, from_bytes()),
            str_arg(args, to_bytes()),
            u64_arg(args, amount_bytes()),
        )
    }
}

fn key_of(name: &str, suffix: &[u8]) -> (r: Vec<u8>)
    ensures
        r@ == request::utf8(name@) + suffix@,
{
    let mut k: Vec<u8> = Vec::new();
    digest::push_all(&mut k, name.as_bytes());
    digest::push_all(&mut k, suffix);
    k
}

fn entries3(a: &[u8], ka: ArgKind, b: &[u8], kb: ArgKind, c: &[u8], kc: ArgKind) -> (r: Vec<
    (Vec<u8>, ArgKind),
>)
    ensures
        schema::entries_view(r@) == seq![(a@, ka), (b@, kb), (c@, kc)],
{
    let mut v: Vec<(Vec<u8>, ArgKind)> = Vec::new();
    v.push((vstd::slice::slice_to_vec(a), ka));
    v.push((vstd::slice::slice_to_vec(b), kb));
    v.push((vstd::slice::slice_to_vec(c), kc));
    assert(schema::entries_view(v@) =~= seq![(a@, ka), (b@, kb), (c@, kc)]);
    v
}

/// The text argument named `name`, which the arguments are known to hold.
fn get_str(args: &Vec<(String, ArgValue)>, name: &[u8]) -> (r: String)
    ensures
        r@ == str_arg(request::args_view(args@), name@),
{
    match schema::find_arg(args, name) {
        Some(j) => {
            assert(request::args_view(args@)[j as int] == (args@[j as int].0@, args@[j as int].1@));
            match &args[j].1 {
                ArgValue::Str(s) => s.clone(),
                _ => String::new(),
            }
        },
        None => String::new(),
    }
}

fn get_u64(args: &Vec<(String, ArgValue)>, name: &[u8]) -> (r: u64)
    ensures
        r as nat == u64_arg(request::args_view(args@), name@),
{
    match schema::find_arg(args, name) {
        Some(j) => {
            assert(request::args_view(args@)[j as int] == (args@[j as int].0@, args@[j as int].1@));
            match &args[j].1 {
                ArgValue::U64(n) => *n,
                _ => 0,
            }
        },
        None => 0,
    }
}

fn clone_value(v: &ArgValue) -> (r: ArgValue)
    ensures
        r@ == v@,
{
    match v {
        ArgValue::Str(s) => ArgValue::Str(s.clone()),
        ArgValue::U64(n) => ArgValue::U64(*n),
        ArgValue::Bool(b) => ArgValue::Bool(*b),
    }
}

/// The arguments with `from` set to the caller's text.
pub fn set_caller(args: &Vec<(String, ArgValue)>, caller: &String) -> (r: Vec<(String, ArgValue)>)
    ensures
        request::args_view(r@) == with_caller(request::args_view(args@), caller@),
{
    let ghost av = request::args_view(args@);
    let from: [u8; 4] = [0x66, 0x72, 0x6f, 0x6d];
    assert(from@ =~= from_bytes());
    proof {
        assert(vstd::utf8::is_ascii_chars(from_name()));
        vstd::utf8::is_ascii_chars_encode_utf8(from_name());
        assert(request::utf8(from_name()) =~= from_bytes());
    }
    let found = schema::find_arg(args, &from);
    let mut out: Vec<(String, ArgValue)> = Vec::new();
    let mut i: usize = 0;
    while i < args.len()
        invariant
            i <= args@.len(),
            av == request::args_view(args@),
            match found {
                Some(j) => schema::arg_index(av, from_bytes()) == Some(j as nat) && j < av.len(),
                None => schema::arg_index(av, from_bytes()) is None,
            },
            request::args_view(out@) == (match found {
                Some(j) => av.update(j as int, (av[j as int].0, ArgView::Str(caller@))),
                None => av,
            }).take(i as int),
        decreases args@.len() - i,
    {
        let ghost pre = request::args_view(out@);
        let key = args[i].0.clone();
        let hit = match found {
            Some(j) => j == i,
            None => false,
        };
        let value = if hit {
            ArgValue::Str(caller.clone())
        } else {
            clone_value(&args[i].1)
        };
        out.push((key, value));
        proof {
            let target = match found {
                Some(j) => av.update(j as int, (av[j as int].0, ArgView::Str(caller@))),
                None => av,
            };
            assert(target.take(i + 1) =~= target.take(i as int).push(target[i as int]));
            assert(request::args_view(out@) =~= pre.push(target[i as int]));
        }
        i = i + 1;
    }
    if found.is_none() {
        let name = String::from_str("from");
        proof {
            reveal_strlit("from");
        }
        assert(name@ =~= from_name());
        let ghost pre = request::args_view(out@);
        out.push((name, ArgValue::Str(caller.clone())));
        assert(request::args_view(out@) =~= pre.push((from_name(), ArgView::Str(caller@))));
        assert(av.take(av.len() as int) == av);
    } else {
        assert(request::args_view(out@).len() == av.len());
    }
    out
}

fn arg_to_word(v: &ArgValue) -> (r: Word)
    ensures
        r == arg_word(v@),
{
    match v {
        ArgValue::U64(n) => {
            Word::from_u64(*n)
        },
        ArgValue::Bool(b) => language::word_of_bool(*b),
        ArgValue::Str(s) => {
            let d = digest::sha3_256(s.as_str().as_bytes());
            word::from_le_slice(&d)
        },
    }
}

fn build_vm_args(args: &Vec<(String, ArgValue)>, entries: &Vec<(Vec<u8>, ArgKind)>) -> (r: Vec<Word>)
    requires
        schema::satisfies(request::args_view(args@), schema::entries_view(entries@)),
    ensures
        r@ == vm_args(request::args_view(args@), schema::entries_view(entries@)),
{
    let ghost av = request::args_view(args@);
    let ghost ev = schema::entries_view(entries@);
    let mut out: Vec<Word> = Vec::new();
    let mut i: usize = 0;
    while i < entries.len()
        invariant
            i <= entries@.len(),
            av == request::args_view(args@),
            ev == schema::entries_view(entries@),
            schema::satisfies(av, ev),
            out@ == vm_args(av, ev).take(i as int),
        decreases entries@.len() - i,
    {
        assert(ev[i as int] == (entries@[i as int].0@, entries@[i as int].1));
        assert(ev[i as int].0 == entries@[i as int].0@);
        assert(schema::arg_index(av, ev[i as int].0) is Some);
        let j = match schema::find_arg(args, entries[i].0.as_slice()) {
            Some(j) => j,
            None => {
                assert(false);
                0
            },
        };
        assert(av[j as int] == (args@[j as int].0@, args@[j as int].1@));
        let w = arg_to_word(&args[j].1);
        out.push(w);
        assert(vm_args(av, ev).take(i + 1) =~= vm_args(av, ev).take(i as int).push(w));
        i = i + 1;
    }
    assert(vm_args(av, ev).take(i as int) =~= vm_args(av, ev));
    out
}

impl Worker {
    /// Runs a contract with these arguments: its code (cached, else loaded
    /// and cached), checked against its stored schema, then the machine,
    /// whose writes are applied only when it ends without error.
    pub fn run_contract<S: Storage>(
        &mut self,
        storage: &mut S,
        name: &String,
        args: &Vec<(String, ArgValue)>,
    ) -> (ok: bool)
        requires
            old(storage).inv(),
        ensures
            final(storage).inv(),
            final(self).code_of(name@) == loaded_code(
                old(storage).kv(),
                old(self).code_of(name@),
                name@,
            ),
            forall|n: Seq<char>| n != name@ ==> #[trigger] final(self).code_of(n) == old(self).code_of(n),
            match contract_run(
                old(storage).kv(),
                loaded_code(old(storage).kv(), old(self).code_of(name@), name@),
                name@,
                request::args_view(args@),
            ) {
                Some(t) => ok && final(storage).kv() == language::committed(
                    old(storage).kv(),
                    t.stores,
                    identity(name@),
                ),
                None => !ok && final(storage).kv() == old(storage).kv(),
            },
    {
        let entry_suffix: [u8; 10] = [0x65, 0x6e, 0x74, 0x72, 0x79, 0x70, 0x6f, 0x69, 0x6e, 0x74];
        let schema_sfx: [u8; 6] = [0x73, 0x63, 0x68, 0x65, 0x6d, 0x61];
        assert(entry_suffix@ =~= entrypoint_suffix());
        assert(schema_sfx@ =~= schema_suffix());
        let code = match self.cached(name) {
            Some(c) => Some(c),
            None => {
                let ep = key_of(name.as_str(), &entry_suffix);
                match storage.get(ep.as_slice()) {
                    Some(c) => {
                        self.remember(name.clone(), vstd::slice::slice_to_vec(c.as_slice()));
                        Some(c)
                    },
                    None => None,
                }
            },
        };
        let sk = key_of(name.as_str(), &schema_sfx);
        let text = match storage.get(sk.as_slice()) {
            Some(t) => t,
            None => return false,
        };
        let entries = match schema::parse_schema(text.as_slice()) {
            Some(e) => e,
            None => return false,
        };
        if !schema::check_args(args, &entries) {
            return false;
        }
        let code = match code {
            Some(c) => c,
            None => return false,
        };
        let vargs = build_vm_args(args, &entries);
        let hash = digest::sha3_256(name.as_str().as_bytes());
        match language::execute(hash, code, vargs, storage) {
            Ok(vm) => {
                vm.commit(storage);
                true
            },
            Err(_) => false,
        }
    }

    /// The native `add`: registers a contract under its name, owned by the
    /// first caller that registered it, and caches its bytecode.
    pub fn add_contract<S: Storage>(
        &mut self,
        storage: &mut S,
        author: &[u8; 32],
        args: &Vec<(String, ArgValue)>,
    ) -> (ok: bool)
        requires
            old(storage).inv(),
        ensures
            final(storage).inv(),
            match added(old(storage).kv(), author@, request::args_view(args@)) {
                Some((m, code)) => ok && final(storage).kv() == m && final(self).code_of(
                    str_arg(request::args_view(args@), name_bytes()),
                ) == Some(code) && forall|n: Seq<char>|
                    n != str_arg(request::args_view(args@), name_bytes()) ==> #[trigger] final(self).code_of(n) == old(self).code_of(n),
                None => !ok && final(storage).kv() == old(storage).kv() && forall|n: Seq<char>|
                    #[trigger] final(self).code_of(n) == old(self).code_of(n),
            },
    {
        let ghost av = request::args_view(args@);
        let name_b: [u8; 4] = [0x6e, 0x61, 0x6d, 0x65];
        let code_b: [u8; 4] = [0x63, 0x6f, 0x64, 0x65];
        let schema_b: [u8; 6] = [0x73, 0x63, 0x68, 0x65, 0x6d, 0x61];
        let author_b: [u8; 6] = [0x61, 0x75, 0x74, 0x68, 0x6f, 0x72];
        let entry_b: [u8; 10] = [0x65, 0x6e, 0x74, 0x72, 0x79, 0x70, 0x6f, 0x69, 0x6e, 0x74];
        assert(name_b@ =~= name_bytes());
        assert(code_b@ =~= code_bytes());
        assert(schema_b@ =~= schema_suffix());
        assert(author_b@ =~= author_suffix());
        assert(entry_b@ =~= entrypoint_suffix());
        let entries = entries3(&name_b, ArgKind::Str, &code_b, ArgKind::Str, &schema_b, ArgKind::Str);
        if !schema::check_args(args, &entries) {
            return false;
        }
        let name = get_str(args, &name_b);
        let code = get_str(args, &code_b);
        let schema_text = get_str(args, &schema_b);
        let ak = key_of(name.as_str(), &author_b);
        match storage.get(ak.as_slice()) {
            Some(a) => {
                if !crate::storage::bytes_eq(a.as_slice(), author) {
                    return false;
                }
            },
            None => {},
        }
        if schema::parse_schema(schema_text.as_str().as_bytes()).is_none() {
            return false;
        }
        let bytecode = match compiler::compile(code) {
            Ok(b) => b,
            Err(_) => return false,
        };
        let ep = key_of(name.as_str(), &entry_b);
        let sk = key_of(name.as_str(), &schema_b);
        storage.set(ep.as_slice(), bytecode.as_slice());
        storage.set(sk.as_slice(), schema_text.as_str().as_bytes());
        storage.set(ak.as_slice(), author);
        self.remember(name, bytecode);
        true
    }

    /// The native `transfer`, once its arguments fit `from:str;to:str;amount:u64`.
    pub fn transfer<S: Storage>(&self, storage: &mut S, args: &Vec<(String, ArgValue)>) -> (ok:
        bool)
        requires
            old(storage).inv(),
        ensures
            final(storage).inv(),
            match transfer_request(old(storage).kv(), request::args_view(args@)) {
                Some(m) => ok && final(storage).kv() == m,
                None => !ok && final(storage).kv() == old(storage).kv(),
            },
    {
        let from_b: [u8; 4] = [0x66, 0x72, 0x6f, 0x6d];
        let to_b: [u8; 2] = [0x74, 0x6f];
        let amount_b: [u8; 6] = [0x61, 0x6d, 0x6f, 0x75, 0x6e, 0x74];
        assert(from_b@ =~= from_bytes());
        assert(to_b@ =~= to_bytes());
        assert(amount_b@ =~= amount_bytes());
        let entries = entries3(&from_b, ArgKind::Str, &to_b, ArgKind::Str, &amount_b, ArgKind::U64);
        if !schema::check_args(args, &entries) {
            return false;
        }
        let from = get_str(args, &from_b);
        let to = get_str(args, &to_b);
        let amount = get_u64(args, &amount_b);
        native::teral_transfer(storage, from.as_str(), to.as_str(), amount).is_ok()
    }

    /// Runs one request with `caller` as the caller's text: a native
    /// request by its method, any other by its contract with `from` set to
    /// the caller.
    pub fn run_request<S: Storage>(&mut self, storage: &mut S, req: &ContractRequest, caller: &String) -> (ok: bool)
        requires
            old(storage).inv(),
        ensures
            final(storage).inv(),
            match accepted(
                old(storage).kv(),
                loaded_code(old(storage).kv(), old(self).code_of(req.contract_name@), req.contract_name@),
                *req,
                caller@,
            ) {
                Some(m) => ok && final(storage).kv() == m,
                None => !ok && final(storage).kv() == old(storage).kv(),
            },
    {
        if crate::contracts::compiler::lexer::str_eq(req.contract_name.as_str(), "native") {
            if crate::contracts::compiler::lexer::str_eq(req.method_name.as_str(), "add") {
                self.add_contract(storage, &req.author, &req.args)
            } else if crate::contracts::compiler::lexer::str_eq(req.method_name.as_str(), "transfer") {
                self.transfer(storage, &req.args)
            } else if crate::contracts::compiler::lexer::str_eq(req.method_name.as_str(), "stake") {
                native::teral_stake().is_ok()
            } else {
                false
            }
        } else {
            let args = set_caller(&req.args, caller);
            self.run_contract(storage, &req.contract_name, &args)
        }
    }

    /// Runs one request, the caller's text being the base64 of its author.
    pub fn execute_request<S: Storage>(&mut self, storage: &mut S, req: &ContractRequest) -> (ok: bool)
        requires
            old(storage).inv(),
        ensures
            final(storage).inv(),
            match accepted(
                old(storage).kv(),
                loaded_code(old(storage).kv(), old(self).code_of(req.contract_name@), req.contract_name@),
                *req,
                base64_of(req.author@),
            ) {
                Some(m) => ok && final(storage).kv() == m,
                None => !ok && final(storage).kv() == old(storage).kv(),
            },
    {
        let caller = base64_encode(&req.author);
        self.run_request(storage, req, &caller)
    }
}

/// The store after a request is accepted, or `None` when it is rejected:
/// a native request (contract `native`) by its method, `add`, `transfer` or
/// `stake`; any other by running its contract's `code` with `from` set to
/// the caller.
pub open spec fn accepted(
    kv: Map<Seq<u8>, Seq<u8>>,
    code: Option<Seq<u8>>,
    req: ContractRequest,
    caller: Seq<char>,
) -> Option<Map<Seq<u8>, Seq<u8>>> {
    let a = request::args_view(req.args@);
    if req.contract_name@ == "native"@ {
        if req.method_name@ == "add"@ {
            match added(kv, req.author@, a) {
                Some((m, _)) => Some(m),
                None => None,
            }
        } else if req.method_name@ == "transfer"@ {
            transfer_request(kv, a)
        } else if req.method_name@ == "stake"@ {
            Some(kv)
        } else {
            None
        }
    } else {
        match contract_run(kv, code, req.contract_name@, with_caller(a, caller)) {
            Some(t) => Some(language::committed(kv, t.stores, identity(req.contract_name@))),
            None => None,
        }
    }
}

} // verus!
