//! Contract requests, their arguments, and the canonical text of arguments.

use vstd::prelude::*;

verus! {

/// A primitive argument value.
#[derive(Debug, Clone)]
pub enum ArgValue {
    Str(String),
    U64(u64),
    Bool(bool),
}

pub enum ArgView {
    Str(Seq<char>),
    U64(u64),
    Bool(bool),
}

impl View for ArgValue {
    type V = ArgView;

    open spec fn view(&self) -> ArgView {
        match self {
            ArgValue::Str(s) => ArgView::Str(s@),
            ArgValue::U64(n) => ArgView::U64(*n),
            ArgValue::Bool(b) => ArgView::Bool(*b),
        }
    }
}

/// The fields of a request's arguments, in order.
pub open spec fn args_view(args: Seq<(String, ArgValue)>) -> Seq<(Seq<char>, ArgView)> {
    args.map_values(|f: (String, ArgValue)| (f.0@, f.1@))
}

/// A signed request to run a contract's method.
#[derive(Debug, Clone)]
pub struct ContractRequest {
    pub author: [u8; 32],
    pub contract_name: String,
    pub method_name: String,
    pub args: Vec<(String, ArgValue)>,
    pub request_id: u64,
}

/// A request with its texts as character sequences.
pub struct RequestView {
    pub author: Seq<u8>,
    pub contract_name: Seq<char>,
    pub method_name: Seq<char>,
    pub args: Seq<(Seq<char>, ArgView)>,
    pub request_id: u64,
}

impl View for ContractRequest {
    type V = RequestView;

    open spec fn view(&self) -> RequestView {
        RequestView {
            author: self.author@,
            contract_name: self.contract_name@,
            method_name: self.method_name@,
            args: args_view(self.args@),
            request_id: self.request_id,
        }
    }
}

/// The UTF-8 bytes of a text.
pub open spec fn utf8(s: Seq<char>) -> Seq<u8> {
    vstd::utf8::encode_utf8(s)
}

/// The bytes of one byte inside a quoted string, escaped as JSON writers
/// do: a quote and a backslash get a backslash, control characters their
/// short escape or `u00XX` after a backslash.
pub open spec fn escaped_byte(b: u8) -> Seq<u8> {
    if b == 0x22 {
        seq![0x5cu8, 0x22u8]
    } else if b == 0x5c {
        seq![0x5cu8, 0x5cu8]
    } else if b == 0x08 {
        seq![0x5cu8, 0x62u8]
    } else if b == 0x0c {
        seq![0x5cu8, 0x66u8]
    } else if b == 0x0a {
        seq![0x5cu8, 0x6eu8]
    } else if b == 0x0d {
        seq![0x5cu8, 0x72u8]
    } else if b == 0x09 {
        seq![0x5cu8, 0x74u8]
    } else if b < 0x20 {
        seq![0x5cu8, 0x75u8, 0x30u8, 0x30u8, hex_digit(b / 16), hex_digit(b % 16)]
    } else {
        seq![b]
    }
}

/// A lowercase hexadecimal digit.
pub open spec fn hex_digit(d: u8) -> u8 {
    if d < 10 {
        (0x30 + d) as u8
    } else {
        (0x57 + d) as u8
    }
}

pub open spec fn escaped(b: Seq<u8>) -> Seq<u8>
    decreases b.len(),
{
    if b.len() == 0 {
        Seq::empty()
    } else {
        escaped(b.drop_last()) + escaped_byte(b.last())
    }
}

/// Decimal digits of `n` in ASCII, without leading zeros.
pub open spec fn decimal(n: nat) -> Seq<u8>
    decreases n,
{
    if n < 10 {
        seq![(0x30 + n) as u8]
    } else {
        decimal(n / 10).push((0x30 + n % 10) as u8)
    }
}

pub open spec fn quoted(b: Seq<u8>) -> Seq<u8> {
    seq![0x22u8] + escaped(b) + seq![0x22u8]
}

pub open spec fn value_bytes(v: ArgView) -> Seq<u8> {
    match v {
        ArgView::Str(s) => quoted(utf8(s)),
        ArgView::U64(n) => decimal(n as nat),
        ArgView::Bool(b) => if b {
            seq![0x74u8, 0x72u8, 0x75u8, 0x65u8]
        } else {
            seq![0x66u8, 0x61u8, 0x6cu8, 0x73u8, 0x65u8]
        },
    }
}

pub open spec fn field_bytes(f: (Seq<char>, ArgView)) -> Seq<u8> {
    quoted(utf8(f.0)) + seq![0x3au8] + value_bytes(f.1)
}

pub open spec fn fields_bytes(fs: Seq<(Seq<char>, ArgView)>) -> Seq<u8>
    decreases fs.len(),
{
    if fs.len() == 0 {
        Seq::empty()
    } else if fs.len() == 1 {
        field_bytes(fs[0])
    } else {
        fields_bytes(fs.drop_last()) + seq![0x2cu8] + field_bytes(fs.last())
    }
}

/// The canonical form of arguments: a JSON object with the fields in order,
/// as UTF-8 bytes.
pub open spec fn canonical(fs: Seq<(Seq<char>, ArgView)>) -> Seq<u8> {
    seq![0x7bu8] + fields_bytes(fs) + seq![0x7du8]
}

fn push_escaped(out: &mut Vec<u8>, b: &[u8])
    ensures
        final(out)@ == old(out)@ + escaped(b@),
{
    let mut i: usize = 0;
    while i < b.len()
        invariant
            i <= b@.len(),
            out@ == old(out)@ + escaped(b@.take(i as int)),
        decreases b@.len() - i,
    {
        let x = b[i];
        let ghost pre = out@;
        if x == 0x22 || x == 0x5c {
            out.push(0x5c);
            out.push(x);
        } else if x == 0x08 {
            out.push(0x5c);
            out.push(0x62);
        } else if x == 0x0c {
            out.push(0x5c);
            out.push(0x66);
        } else if x == 0x0a {
            out.push(0x5c);
            out.push(0x6e);
        } else if x == 0x0d {
            out.push(0x5c);
            out.push(0x72);
        } else if x == 0x09 {
            out.push(0x5c);
            out.push(0x74);
        } else if x < 0x20 {
            out.push(0x5c);
            out.push(0x75);
            out.push(0x30);
            out.push(0x30);
            out.push(if x / 16 < 10 { 0x30 + x / 16 } else { 0x57 + x / 16 });
            out.push(if x % 16 < 10 { 0x30 + x % 16 } else { 0x57 + x % 16 });
        } else {
            out.push(x);
        }
        assert(b@.take(i + 1).drop_last() == b@.take(i as int));
        assert(out@ =~= pre + escaped_byte(x));
        assert(old(out)@ + escaped(b@.take(i + 1)) =~= old(out)@ + escaped(b@.take(i as int))
            + escaped_byte(x));
        i = i + 1;
    }
    assert(b@.take(i as int) == b@);
}

fn push_quoted(out: &mut Vec<u8>, s: &str)
    ensures
        final(out)@ == old(out)@ + quoted(utf8(s@)),
{
    out.push(0x22);
    push_escaped(out, s.as_bytes());
    out.push(0x22);
    assert(out@ =~= old(out)@ + quoted(utf8(s@)));
}

pub fn push_decimal(out: &mut Vec<u8>, n: u64)
    ensures
        final(out)@ == old(out)@ + decimal(n as nat),
    decreases n,
{
    if n >= 10 {
        push_decimal(out, n / 10);
    }
    out.push((0x30 + n % 10) as u8);
    assert(out@ =~= old(out)@ + decimal(n as nat));
}

fn push_field(out: &mut Vec<u8>, f: &(String, ArgValue))
    ensures
        final(out)@ == old(out)@ + field_bytes((f.0@, f.1@)),
{
    push_quoted(out, f.0.as_str());
    out.push(0x3a);
    match &f.1 {
        ArgValue::Str(s) => push_quoted(out, s.as_str()),
        ArgValue::U64(n) => push_decimal(out, *n),
        ArgValue::Bool(b) => {
            if *b {
                out.push(0x74);
                out.push(0x72);
                out.push(0x75);
                out.push(0x65);
            } else {
                out.push(0x66);
                out.push(0x61);
                out.push(0x6c);
                out.push(0x73);
                out.push(0x65);
            }
        },
    }
    assert(out@ =~= old(out)@ + field_bytes((f.0@, f.1@)));
}

/// The canonical bytes of a request's arguments.
pub fn canonical_args(args: &Vec<(String, ArgValue)>) -> (r: Vec<u8>)
    ensures
        r@ == canonical(args_view(args@)),
{
    let ghost fs = args_view(args@);
    let mut out: Vec<u8> = Vec::new();
    out.push(0x7b);
    let mut i: usize = 0;
    while i < args.len()
        invariant
            i <= args@.len(),
            fs == args_view(args@),
            out@ == seq![0x7bu8] + fields_bytes(fs.take(i as int)),
        decreases args@.len() - i,
    {
        let ghost pre = out@;
        if i > 0 {
            out.push(0x2c);
        }
        push_field(&mut out, &args[i]);
        assert(fs.take(i + 1).drop_last() == fs.take(i as int));
        assert(fs[i as int] == (args@[i as int].0@, args@[i as int].1@));
        if i == 0 {
            assert(fs.take(1)[0] == fs[0]);
            assert(out@ =~= seq![0x7bu8] + fields_bytes(fs.take(1)));
        } else {
            assert(out@ =~= seq![0x7bu8] + fields_bytes(fs.take(i + 1)));
        }
        i = i + 1;
    }
    assert(fs.take(i as int) == fs);
    out.push(0x7d);
    assert(out@ =~= canonical(fs));
    out
}

} // verus!
