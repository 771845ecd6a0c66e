//! Argument schemas: `name:type` entries separated by `;`, where a type is
//! `str`, `u64` or `bool`; and the check of arguments against them.

use crate::contracts::request;
use crate::contracts::request::{ArgValue, ArgView};
use crate::storage;
use vstd::prelude::*;

verus! {

#[derive(Clone, Copy, PartialEq, Eq, Debug, Structural)]
pub enum ArgKind {
    Str,
    U64,
    Bool,
}

/// The pieces of `s` between separators (one more than there are separators).
pub open spec fn pieces(s: Seq<u8>, sep: u8) -> Seq<Seq<u8>>
    decreases s.len(),
{
    if s.len() == 0 {
        seq![Seq::empty()]
    } else {
        let r = pieces(s.drop_last(), sep);
        if s.last() == sep {
            r.push(Seq::empty())
        } else {
            r.update(r.len() - 1, r.last().push(s.last()))
        }
    }
}

proof fn lemma_pieces_nonempty(s: Seq<u8>, sep: u8)
    ensures
        pieces(s, sep).len() >= 1,
    decreases s.len(),
{
    if s.len() > 0 {
        lemma_pieces_nonempty(s.drop_last(), sep);
    }
}

pub open spec fn kind_of(t: Seq<u8>) -> Option<ArgKind> {
    if t == seq![0x73u8, 0x74, 0x72] {
        Some(ArgKind::Str)
    } else if t == seq![0x75u8, 0x36, 0x34] {
        Some(ArgKind::U64)
    } else if t == seq![0x62u8, 0x6f, 0x6f, 0x6c] {
        Some(ArgKind::Bool)
    } else {
        None
    }
}

/// Position of the first `b` in `s`, if any.
pub open spec fn first_index(s: Seq<u8>, b: u8) -> Option<nat>
    decreases s.len(),
{
    if s.len() == 0 {
        None
    } else if s[0] == b {
        Some(0)
    } else {
        match first_index(s.drop_first(), b) {
            Some(i) => Some(i + 1),
            None => None,
        }
    }
}

/// One entry: a non-empty name, `:`, and a type.
pub open spec fn entry_of(piece: Seq<u8>) -> Option<(Seq<u8>, ArgKind)> {
    match first_index(piece, 0x3a) {
        None => None,
        Some(c) => if c == 0 {
            None
        } else {
            match kind_of(piece.skip(c as int + 1)) {
                Some(k) => Some((piece.take(c as int), k)),
                None => None,
            }
        },
    }
}

pub open spec fn entries_of(ps: Seq<Seq<u8>>) -> Option<Seq<(Seq<u8>, ArgKind)>>
    decreases ps.len(),
{
    if ps.len() == 0 {
        Some(Seq::empty())
    } else {
        match (entries_of(ps.drop_last()), entry_of(ps.last())) {
            (Some(es), Some(e)) => Some(es.push(e)),
            _ => None,
        }
    }
}

/// The entries of a schema text; the empty text has none.
pub open spec fn schema_of(s: Seq<u8>) -> Option<Seq<(Seq<u8>, ArgKind)>> {
    if s.len() == 0 {
        Some(Seq::empty())
    } else {
        entries_of(pieces(s, 0x3b))
    }
}

pub open spec fn kind_matches(v: ArgView, k: ArgKind) -> bool {
    match (v, k) {
        (ArgView::Str(_), ArgKind::Str) => true,
        (ArgView::U64(_), ArgKind::U64) => true,
        (ArgView::Bool(_), ArgKind::Bool) => true,
        _ => false,
    }
}

/// The first argument with the name, if any.
pub open spec fn arg_index(args: Seq<(Seq<char>, ArgView)>, name: Seq<u8>) -> Option<nat>
    decreases args.len(),
{
    if args.len() == 0 {
        None
    } else {
        match arg_index(args.drop_last(), name) {
            Some(i) => Some(i),
            None => if request::utf8(args.last().0) == name {
                Some((args.len() - 1) as nat)
            } else {
                None
            },
        }
    }
}

/// Every entry of the schema names an argument of its type.
pub open spec fn satisfies(args: Seq<(Seq<char>, ArgView)>, entries: Seq<(Seq<u8>, ArgKind)>) -> bool {
    forall|i: int|
        0 <= i < entries.len() ==> match arg_index(args, #[trigger] entries[i].0) {
            Some(j) => kind_matches(args[j as int].1, entries[i].1),
            None => false,
        }
}

/// Splits at each separator.
fn split(s: &[u8], sep: u8) -> (r: Vec<Vec<u8>>)
    ensures
        r@.map_values(|p: Vec<u8>| p@) == pieces(s@, sep),
{
    let mut done: Vec<Vec<u8>> = Vec::new();
    let mut cur: Vec<u8> = Vec::new();
    let mut i: usize = 0;
    assert(s@.take(0) =~= Seq::<u8>::empty());
    assert(done@.map_values(|p: Vec<u8>| p@).push(cur@) =~= pieces(s@.take(0), sep));
    while i < s.len()
        invariant
            i <= s@.len(),
            done@.map_values(|p: Vec<u8>| p@).push(cur@) == pieces(s@.take(i as int), sep),
        decreases s@.len() - i,
    {
        let ghost before = done@.map_values(|p: Vec<u8>| p@);
        let ghost cur0 = cur@;
        assert(s@.take(i + 1).drop_last() == s@.take(i as int));
        assert(s@.take(i + 1).last() == s@[i as int]);
        if s[i] == sep {
            done.push(cur);
            cur = Vec::new();
            assert(done@.map_values(|p: Vec<u8>| p@).push(cur@) =~= before.push(cur0).push(
                Seq::empty(),
            ));
        } else {
            cur.push(s[i]);
            assert(done@.map_values(|p: Vec<u8>| p@).push(cur@) =~= before.push(cur0).update(
                before.len() as int,
                cur0.push(s@[i as int]),
            ));
        }
        i = i + 1;
    }
    assert(s@.take(i as int) == s@);
    done.push(cur);
    done
}

pub open spec fn entries_view(es: Seq<(Vec<u8>, ArgKind)>) -> Seq<(Seq<u8>, ArgKind)> {
    es.map_values(|e: (Vec<u8>, ArgKind)| (e.0@, e.1))
}

fn kind(t: &[u8]) -> (r: Option<ArgKind>)
    ensures
        r == kind_of(t@),
{
    let ghost s3 = seq![0x73u8, 0x74, 0x72];
    let ghost u3 = seq![0x75u8, 0x36, 0x34];
    let ghost b4 = seq![0x62u8, 0x6f, 0x6f, 0x6c];
    if t.len() == 3 && t[0] == 0x73 && t[1] == 0x74 && t[2] == 0x72 {
        assert(t@ =~= s3);
        Some(ArgKind::Str)
    } else if t.len() == 3 && t[0] == 0x75 && t[1] == 0x36 && t[2] == 0x34 {
        assert(t@ =~= u3);
        assert(t@ != s3);
        Some(ArgKind::U64)
    } else if t.len() == 4 && t[0] == 0x62 && t[1] == 0x6f && t[2] == 0x6f && t[3] == 0x6c {
        assert(t@ =~= b4);
        Some(ArgKind::Bool)
    } else {
        assert(t@ != s3 && t@ != u3 && t@ != b4) by {
            if t@ == s3 {
                assert(t@[0] == 0x73 && t@[1] == 0x74 && t@[2] == 0x72);
            }
            if t@ == u3 {
                assert(t@[0] == 0x75 && t@[1] == 0x36 && t@[2] == 0x34);
            }
            if t@ == b4 {
                assert(t@[0] == 0x62 && t@[1] == 0x6f && t@[2] == 0x6f && t@[3] == 0x6c);
            }
        };
        None
    }
}

proof fn lemma_first_index(s: Seq<u8>, b: u8, k: nat)
    requires
        k <= s.len(),
        forall|m: int| 0 <= m < k ==> #[trigger] s[m] != b,
    ensures
        k < s.len() && s[k as int] == b ==> first_index(s, b) == Some(k),
        k == s.len() ==> first_index(s, b) is None,
    decreases k,
{
    if k > 0 {
        assert forall|m: int| 0 <= m < k - 1 implies #[trigger] s.drop_first()[m] != b by {
            assert(s.drop_first()[m] == s[m + 1]);
        };
        if k < s.len() {
            assert(s.drop_first()[k - 1] == s[k as int]);
        }
        lemma_first_index(s.drop_first(), b, (k - 1) as nat);
    }
}

fn entry(piece: &[u8]) -> (r: Option<(Vec<u8>, ArgKind)>)
    ensures
        match entry_of(piece@) {
            Some(e) => r matches Some(x) && x.0@ == e.0 && x.1 == e.1,
            None => r is None,
        },
{
    let mut c: usize = 0;
    while c < piece.len() && piece[c] != 0x3a
        invariant
            c <= piece@.len(),
            forall|m: int| 0 <= m < c ==> #[trigger] piece@[m] != 0x3a,
        decreases piece@.len() - c,
    {
        c = c + 1;
    }
    proof {
        lemma_first_index(piece@, 0x3a, c as nat);
    }
    if c == piece.len() || c == 0 {
        return None;
    }
    let t = vstd::slice::slice_subrange(piece, c + 1, piece.len());
    assert(t@ =~= piece@.skip(c as int + 1));
    match kind(t) {
        Some(k) => {
            let name = vstd::slice::slice_to_vec(vstd::slice::slice_subrange(piece, 0, c));
            assert(name@ =~= piece@.take(c as int));
            Some((name, k))
        },
        None => None,
    }
}

/// The entries of a schema text, if it is well formed.
pub fn parse_schema(s: &[u8]) -> (r: Option<Vec<(Vec<u8>, ArgKind)>>)
    ensures
        match schema_of(s@) {
            Some(es) => r matches Some(v) && entries_view(v@) == es,
            None => r is None,
        },
{
    let mut out: Vec<(Vec<u8>, ArgKind)> = Vec::new();
    if s.len() == 0 {
        assert(entries_view(out@) =~= Seq::<(Seq<u8>, ArgKind)>::empty());
        return Some(out);
    }
    let ps = split(s, 0x3b);
    let ghost pv = ps@.map_values(|p: Vec<u8>| p@);
    let mut i: usize = 0;
    assert(pv.take(0) =~= Seq::<Seq<u8>>::empty());
    assert(entries_view(out@) =~= Seq::<(Seq<u8>, ArgKind)>::empty());
    while i < ps.len()
        invariant
            i <= ps@.len(),
            pv == ps@.map_values(|p: Vec<u8>| p@),
            pv == pieces(s@, 0x3b),
            s@.len() > 0,
            entries_of(pv.take(i as int)) == Some(entries_view(out@)),
        decreases ps@.len() - i,
    {
        assert(pv.take(i + 1).drop_last() == pv.take(i as int));
        assert(pv.take(i + 1).last() == ps@[i as int]@);
        match entry(ps[i].as_slice()) {
            Some(e) => {
                let ghost pre = entries_view(out@);
                out.push(e);
                assert(entries_view(out@) =~= pre.push((e.0@, e.1)));
            },
            None => {
                proof {
                    lemma_entries_none(pv, (i + 1) as nat);
                }
                return None;
            },
        }
        i = i + 1;
    }
    assert(pv.take(i as int) == pv);
    Some(out)
}

proof fn lemma_entries_none(ps: Seq<Seq<u8>>, k: nat)
    requires
        k <= ps.len(),
        entries_of(ps.take(k as int)) is None,
    ensures
        entries_of(ps) is None,
    decreases ps.len() - k,
{
    if k < ps.len() {
        assert(ps.take(k as int + 1).drop_last() == ps.take(k as int));
        lemma_entries_none(ps, k + 1);
    } else {
        assert(ps.take(k as int) == ps);
    }
}

proof fn lemma_arg_index_prefix(args: Seq<(Seq<char>, ArgView)>, name: Seq<u8>, k: nat)
    requires
        k <= args.len(),
        arg_index(args.take(k as int), name) is Some,
    ensures
        arg_index(args, name) == arg_index(args.take(k as int), name),
    decreases args.len() - k,
{
    if k < args.len() {
        assert(args.take(k as int + 1).drop_last() == args.take(k as int));
        lemma_arg_index_prefix(args, name, k + 1);
    } else {
        assert(args.take(k as int) == args);
    }
}

/// The position of the first argument named `name`.
pub fn find_arg(args: &Vec<(String, ArgValue)>, name: &[u8]) -> (r: Option<usize>)
    ensures
        match r {
            Some(j) => arg_index(request::args_view(args@), name@) == Some(j as nat) && j
                < args@.len(),
            None => arg_index(request::args_view(args@), name@) is None,
        },
{
    let ghost av = request::args_view(args@);
    let mut i: usize = 0;
    assert(av.take(0) =~= Seq::<(Seq<char>, ArgView)>::empty());
    while i < args.len()
        invariant
            i <= args@.len(),
            av == request::args_view(args@),
            arg_index(av.take(i as int), name@) is None,
        decreases args@.len() - i,
    {
        assert(av.take(i + 1).drop_last() == av.take(i as int));
        assert(av.take(i + 1).last() == av[i as int]);
        if storage::bytes_eq(args[i].0.as_str().as_bytes(), name) {
            proof {
                lemma_arg_index_prefix(av, name@, (i + 1) as nat);
            }
            return Some(i);
        }
        i = i + 1;
    }
    assert(av.take(i as int) == av);
    None
}

/// Whether every schema entry names an argument of its type.
pub fn check_args(args: &Vec<(String, ArgValue)>, entries: &Vec<(Vec<u8>, ArgKind)>) -> (r: bool)
    ensures
        r == satisfies(request::args_view(args@), entries_view(entries@)),
{
    let ghost av = request::args_view(args@);
    let ghost ev = entries_view(entries@);
    let mut i: usize = 0;
    while i < entries.len()
        invariant
            i <= entries@.len(),
            av == request::args_view(args@),
            ev == entries_view(entries@),
            forall|m: int|
                0 <= m < i ==> match arg_index(av, #[trigger] ev[m].0) {
                    Some(j) => kind_matches(av[j as int].1, ev[m].1),
                    None => false,
                },
        decreases entries@.len() - i,
    {
        assert(ev[i as int] == (entries@[i as int].0@, entries@[i as int].1));
        let ok = match find_arg(args, entries[i].0.as_slice()) {
            Some(j) => {
                let k = entries[i].1;
                assert(av[j as int] == (args@[j as int].0@, args@[j as int].1@));
                match (&args[j].1, k) {
                    (ArgValue::Str(_), ArgKind::Str) => true,
                    (ArgValue::U64(_), ArgKind::U64) => true,
                    (ArgValue::Bool(_), ArgKind::Bool) => true,
                    _ => false,
                }
            },
            None => false,
        };
        assert(ok == match arg_index(av, ev[i as int].0) {
            Some(j) => kind_matches(av[j as int].1, ev[i as int].1),
            None => false,
        });
        if !ok {
            assert(!satisfies(av, ev));
            return false;
        }
        i = i + 1;
    }
    true
}

} // verus!
