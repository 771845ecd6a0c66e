//! The compiler from contract source to bytecode.

pub mod lexer;
pub mod literal;

pub use lexer::lex;

use crate::contracts::language;
use crate::contracts::language::Opcode;
use crate::word::Word;
use crate::word;
use lexer::{Bin, Keyword, Token, TokenKind, TokenView, Type};
use vstd::prelude::*;
use vstd::string::StringExecFns;

verus! {

#[derive(Debug, Clone, PartialEq, Eq)]
pub enum CompileError {
    ShouldStop,
    UnexpectedEow,
    UnexpectedEoc,
    SyntaxError(usize, String, String),
    UnexpectedToken(String),
    CantInterpret(String, String),
    BaseParse(u32),
    EventuallyExpected(String),
}

/// A compile error with its texts as character sequences.
pub enum ErrorView {
    ShouldStop,
    UnexpectedEow,
    UnexpectedEoc,
    SyntaxError(nat, Seq<char>, Seq<char>),
    UnexpectedToken(Seq<char>),
    CantInterpret(Seq<char>, Seq<char>),
    BaseParse(u32),
    EventuallyExpected(Seq<char>),
}

impl View for CompileError {
    type V = ErrorView;

    open spec fn view(&self) -> ErrorView {
        match self {
            CompileError::ShouldStop => ErrorView::ShouldStop,
            CompileError::UnexpectedEow => ErrorView::UnexpectedEow,
            CompileError::UnexpectedEoc => ErrorView::UnexpectedEoc,
            CompileError::SyntaxError(p, a, b) => ErrorView::SyntaxError(*p as nat, a@, b@),
            CompileError::UnexpectedToken(t) => ErrorView::UnexpectedToken(t@),
            CompileError::CantInterpret(a, b) => ErrorView::CantInterpret(a@, b@),
            CompileError::BaseParse(b) => ErrorView::BaseParse(*b),
            CompileError::EventuallyExpected(k) => ErrorView::EventuallyExpected(k@),
        }
    }
}


/// The byte of an opcode.
pub open spec fn byte(op: Opcode) -> u8 {
    op.encoding() as u8
}

/// The name of a literal type as written in source.
pub open spec fn type_text(t: Type) -> Seq<char> {
    match t {
        Type::U256 => "u256"@,
        Type::U64 => "u64"@,
        Type::U32 => "u32"@,
        Type::U16 => "u16"@,
        Type::U8 => "u8"@,
    }
}

/// `Push(n)` then the literal's value in `n` little-endian bytes, `n` the
/// width of its type.
pub open spec fn literal_code(value: Seq<char>, radix: nat, t: Type) -> Result<Seq<u8>, ErrorView> {
    let parsed = if t == Type::U256 {
        literal::u256_text_value(value, radix)
    } else {
        match literal::unsigned_text_value(value, radix) {
            Some(v) => if v < word::le_limit(t.bytes()) {
                Some(v)
            } else {
                None
            },
            None => None,
        }
    };
    match parsed {
        Some(v) => Ok(seq![byte(Opcode::Push(t.bytes() as u8))] + word::le_bytes(v, t.bytes())),
        None => Err(ErrorView::CantInterpret(value, type_text(t))),
    }
}

/// The names from position `i` up to the next `in`, and the position after that `in`.
pub open spec fn names_until_in(toks: Seq<TokenView>, i: nat) -> Result<
    (Seq<Seq<char>>, nat),
    ErrorView,
>
    decreases toks.len() - i,
{
    if i >= toks.len() {
        Err(ErrorView::EventuallyExpected("in"@))
    } else if toks[i as int].kind == TokenKind::Keyword(Keyword::In) {
        Ok((Seq::empty(), i + 1))
    } else {
        match names_until_in(toks, i + 1) {
            Ok((ns, j)) => Ok((seq![toks[i as int].value] + ns, j)),
            Err(e) => Err(e),
        }
    }
}

/// The position of the innermost binding of `name`: its last occurrence.
pub open spec fn binding_index(ctx: Seq<Seq<char>>, name: Seq<char>) -> Option<nat>
    decreases ctx.len(),
{
    if ctx.len() == 0 {
        None
    } else if ctx.last() == name {
        Some((ctx.len() - 1) as nat)
    } else {
        binding_index(ctx.drop_last(), name)
    }
}

/// The opcode of a binary operator.
pub open spec fn op_code(b: Bin) -> Opcode {
    match b {
        Bin::Sub => Opcode::Sub,
        Bin::Add => Opcode::Add,
        Bin::Mul => Opcode::Mul,
        Bin::Div => Opcode::Div,
        Bin::Lt => Opcode::Lt,
        Bin::Gt => Opcode::Gt,
        Bin::Geq => Opcode::Geq,
        Bin::Leq => Opcode::Leq,
        Bin::EqSign => Opcode::Eqi,
    }
}

/// Whether a token ends a block: `end`, or also `else` where one may come.
pub open spec fn ends_block(k: TokenKind, else_too: bool) -> bool {
    k == TokenKind::Keyword(Keyword::End) || (else_too && k == TokenKind::Keyword(Keyword::Else))
}

/// The error for a branch too long for a one-byte jump offset.
pub open spec fn long_branch(i: nat) -> ErrorView {
    ErrorView::SyntaxError(i, "a branch of at most 255 bytes"@, "a longer branch"@)
}

/// The error for a `let` or `peek` that binds no name or more than 32.
pub open spec fn bad_binding_count(i: nat) -> ErrorView {
    ErrorView::SyntaxError(i, "1 to 32 names"@, "in"@)
}

/// The error for a name bound deeper than the locals stack reaches.
pub open spec fn deep_binding(i: nat, name: Seq<char>) -> ErrorView {
    ErrorView::SyntaxError(i, "a binding within the first 32"@, name)
}

/// The code of the statements from position `i` up to the block's closing
/// keyword, and the position after that keyword.
pub open spec fn block(toks: Seq<TokenView>, ctx: Seq<Seq<char>>, i: nat, else_too: bool) -> Result<
    (Seq<u8>, nat),
    ErrorView,
>
    decreases toks.len() - i, 2nat,
{
    if i >= toks.len() {
        Err(ErrorView::UnexpectedEoc)
    } else if ends_block(toks[i as int].kind, else_too) {
        Ok((Seq::empty(), i + 1))
    } else {
        match statement(toks, ctx, i) {
            Err(e) => Err(e),
            Ok((c, j)) => if j >= toks.len() {
                Err(ErrorView::UnexpectedEoc)
            } else if j <= i {
                Err(ErrorView::ShouldStop)
            } else {
                match block(toks, ctx, j, else_too) {
                    Ok((c2, k)) => Ok((c + c2, k)),
                    Err(e) => Err(e),
                }
            },
        }
    }
}

/// The code of the statement at position `i`, and the position after it.
pub open spec fn statement(toks: Seq<TokenView>, ctx: Seq<Seq<char>>, i: nat) -> Result<
    (Seq<u8>, nat),
    ErrorView,
>
    decreases toks.len() - i, 1nat,
{
    if i >= toks.len() {
        Err(ErrorView::UnexpectedEoc)
    } else {
        let t = toks[i as int];
        match t.kind {
            TokenKind::Num(base, ty) => match literal_code(t.value, base.radix(), ty) {
                Ok(c) => Ok((c, i + 1)),
                Err(e) => Err(e),
            },
            TokenKind::Keyword(Keyword::Let) => bind_block(toks, ctx, i, true),
            TokenKind::Keyword(Keyword::Peek) => bind_block(toks, ctx, i, false),
            TokenKind::Keyword(Keyword::If) => match block(toks, ctx, i + 1, true) {
                Err(e) => Err(e),
                Ok((then, j)) => if j <= i + 1 || j > toks.len() {
                    Err(ErrorView::ShouldStop)
                } else if toks[j - 1].kind == TokenKind::Keyword(Keyword::Else) {
                    {
                        match block(toks, ctx, j, false) {
                            Err(e) => Err(e),
                            Ok((other, k)) => if then.len() + 3 > 255 || other.len() > 255 {
                                Err(long_branch(i))
                            } else {
                                Ok(
                                    (
                                        seq![
                                            byte(Opcode::Push(1)),
                                            (then.len() + 3) as u8,
                                            byte(Opcode::Jumpif),
                                        ] + then + seq![
                                            byte(Opcode::Push(1)),
                                            other.len() as u8,
                                            byte(Opcode::Jump),
                                        ] + other,
                                        k,
                                    ),
                                )
                            },
                        }
                    }
                } else if then.len() > 255 {
                    Err(long_branch(i))
                } else {
                    Ok(
                        (
                            seq![byte(Opcode::Push(1)), then.len() as u8, byte(Opcode::Jumpif)]
                                + then,
                            j,
                        ),
                    )
                },
            },
            TokenKind::Keyword(Keyword::Require) => Ok(
                (
                    seq![
                        byte(Opcode::Push(1)),
                        1u8,
                        byte(Opcode::Jumpifnot),
                        byte(Opcode::Terminate),
                    ],
                    i + 1,
                ),
            ),
            TokenKind::Keyword(Keyword::Iszero) => Ok((seq![byte(Opcode::Iszero)], i + 1)),
            TokenKind::Keyword(Keyword::Get) => Ok((seq![byte(Opcode::Get)], i + 1)),
            TokenKind::Keyword(Keyword::Store) => Ok((seq![byte(Opcode::Store)], i + 1)),
            TokenKind::Ident => match binding_index(ctx, t.value) {
                Some(x) => if x < 32 {
                    Ok((seq![byte(Opcode::CopyToMain(x as u8))], i + 1))
                } else {
                    Err(deep_binding(i, t.value))
                },
                None => Err(ErrorView::UnexpectedToken(t.value)),
            },
            TokenKind::Op(b) => Ok((seq![byte(op_code(b))], i + 1)),
            _ => Err(ErrorView::UnexpectedToken(t.value)),
        }
    }
}

/// `let` (which moves) or `peek` (which copies) at position `i`: the names
/// up to `in` are bound for the block that follows.
pub open spec fn bind_block(toks: Seq<TokenView>, ctx: Seq<Seq<char>>, i: nat, moves: bool) -> Result<
    (Seq<u8>, nat),
    ErrorView,
>
    decreases toks.len() - i, 0nat,
{
    match names_until_in(toks, i + 1) {
        Err(e) => Err(e),
        Ok((names, j)) => if names.len() == 0 || names.len() > 32 {
            Err(bad_binding_count(i))
        } else if j <= i || j > toks.len() {
            Err(ErrorView::ShouldStop)
        } else {
            match block(toks, ctx + names, j, false) {
                Err(e) => Err(e),
                Ok((c, k)) => Ok(
                    (
                        seq![
                            byte(
                                if moves {
                                    Opcode::MoveToReturn(names.len() as u8)
                                } else {
                                    Opcode::CopyToReturn(names.len() as u8)
                                },
                            ),
                        ] + c,
                        k,
                    ),
                ),
            }
        },
    }
}

/// A function's entry in the table: its name, the offset of its code, and
/// its parameter names.
pub type FunctionView = (Seq<char>, nat, Seq<Seq<char>>);

/// Where the table holds `name`, if it does.
pub open spec fn function_index(fns: Seq<FunctionView>, name: Seq<char>) -> Option<nat>
    decreases fns.len(),
{
    if fns.len() == 0 {
        None
    } else if fns.last().0 == name {
        Some((fns.len() - 1) as nat)
    } else {
        function_index(fns.drop_last(), name)
    }
}

/// The table with `name` mapped to the entry: replaced where present, added otherwise.
pub open spec fn function_insert(fns: Seq<FunctionView>, entry: FunctionView) -> Seq<FunctionView> {
    match function_index(fns, entry.0) {
        Some(i) => fns.update(i as int, entry),
        None => fns.push(entry),
    }
}

/// The state after one top-level item: its code, the bindings, the
/// function table, and the position after the item.
pub type ItemResult = (Seq<u8>, Seq<Seq<char>>, Seq<FunctionView>, nat);

/// A top-level item at position `i`: `fn NAME PARAMS in BODY end`, whose code
/// starts at `out_len`, or `mapping NAME`, which binds the name.
pub open spec fn item(
    toks: Seq<TokenView>,
    ctx: Seq<Seq<char>>,
    fns: Seq<FunctionView>,
    out_len: nat,
    i: nat,
) -> Result<ItemResult, ErrorView> {
    if i >= toks.len() {
        Err(ErrorView::ShouldStop)
    } else {
        match toks[i as int].kind {
            TokenKind::Keyword(Keyword::Fnk) => if i + 1 >= toks.len() {
                Err(ErrorView::UnexpectedEoc)
            } else {
                let name = toks[i as int + 1].value;
                match names_until_in(toks, i + 2) {
                    Err(e) => Err(e),
                    Ok((params, j)) => if j > toks.len() {
                        Err(ErrorView::ShouldStop)
                    } else {
                        match block(toks, ctx + params, j, false) {
                            Err(e) => Err(e),
                            Ok((c, k)) => Ok(
                                (c, ctx, function_insert(fns, (name, out_len, params)), k),
                            ),
                        }
                    },
                }
            },
            TokenKind::Keyword(Keyword::Mapping) => if i + 1 >= toks.len() {
                Err(ErrorView::UnexpectedEoc)
            } else if toks[i as int + 1].kind != TokenKind::Ident {
                Err(ErrorView::UnexpectedToken(toks[i as int + 1].value))
            } else {
                Ok((Seq::empty(), ctx.push(toks[i as int + 1].value), fns, i + 2))
            },
            _ => Err(ErrorView::UnexpectedToken(toks[i as int].value)),
        }
    }
}

/// The code and function table of the items from position `i` on.
pub open spec fn program(
    toks: Seq<TokenView>,
    ctx: Seq<Seq<char>>,
    fns: Seq<FunctionView>,
    out: Seq<u8>,
    i: nat,
) -> Result<(Seq<u8>, Seq<FunctionView>), ErrorView>
    decreases toks.len() - i,
{
    if i >= toks.len() {
        Ok((out, fns))
    } else {
        match item(toks, ctx, fns, out.len(), i) {
            Err(e) => Err(e),
            Ok((c, ctx2, fns2, j)) => if j <= i || j > toks.len() {
                Err(ErrorView::ShouldStop)
            } else {
                program(toks, ctx2, fns2, out + c, j)
            },
        }
    }
}

/// The bytecode of a source text.
pub open spec fn compiled(source: Seq<char>) -> Result<Seq<u8>, ErrorView> {
    match lexer::lex_words(lexer::words(source)) {
        Err(e) => Err(e),
        Ok(toks) => match program(toks, Seq::empty(), Seq::empty(), Seq::empty(), 0) {
            Ok((out, _)) => Ok(out),
            Err(e) => Err(e),
        },
    }
}

/// Two compilations of one source give the same bytecode.
pub proof fn lemma_bytecode_determinism(source: Seq<char>, first: Seq<u8>, second: Seq<u8>)
    requires
        compiled(source) == Ok::<Seq<u8>, ErrorView>(first),
        compiled(source) == Ok::<Seq<u8>, ErrorView>(second),
    ensures
        first == second,
{
}

pub struct Compiler {
    input: Vec<Token>,
    index: usize,
    functions: Vec<(String, usize, Vec<String>)>,
    output: Vec<u8>,
    binded_context: Vec<String>,
}

pub open spec fn names_view(v: Seq<String>) -> Seq<Seq<char>> {
    v.map_values(|s: String| s@)
}

impl Compiler {
    pub closed spec fn toks(&self) -> Seq<TokenView> {
        self.input@.map_values(|t: Token| t@)
    }

    pub closed spec fn position(&self) -> nat {
        self.index as nat
    }

    pub closed spec fn out(&self) -> Seq<u8> {
        self.output@
    }

    pub closed spec fn ctx(&self) -> Seq<Seq<char>> {
        names_view(self.binded_context@)
    }

    pub closed spec fn fns(&self) -> Seq<FunctionView> {
        self.functions@.map_values(
            |f: (String, usize, Vec<String>)| (f.0@, f.1 as nat, names_view(f.2@)),
        )
    }

    pub closed spec fn wf(&self) -> bool {
        self.index <= self.input@.len()
    }

    pub fn new(input: Vec<Token>) -> (r: Compiler)
        ensures
            r.wf(),
            r.toks() == input@.map_values(|t: Token| t@),
            r.position() == 0,
            r.out() == Seq::<u8>::empty(),
            r.ctx() == Seq::<Seq<char>>::empty(),
            r.fns() == Seq::<FunctionView>::empty(),
    {
        let r = Compiler {
            input,
            index: 0,
            functions: Vec::new(),
            output: Vec::new(),
            binded_context: Vec::new(),
        };
        assert(r.ctx() =~= Seq::<Seq<char>>::empty());
        assert(r.fns() =~= Seq::<FunctionView>::empty());
        r
    }

    pub fn should_stop(&self) -> (r: bool)
        ensures
            r == (self.position() >= self.toks().len()),
    {
        self.index >= self.input.len()
    }

    /// The code emitted so far.
    pub fn output(&self) -> (r: &Vec<u8>)
        ensures
            r@ == self.out(),
    {
        &self.output
    }

    /// The function table: name, code offset, parameter names.
    pub fn functions(&self) -> (r: &Vec<(String, usize, Vec<String>)>)
        ensures
            r@.map_values(|f: (String, usize, Vec<String>)| (f.0@, f.1 as nat, names_view(f.2@)))
                == self.fns(),
    {
        &self.functions
    }

    fn push_opcode(&mut self, opcode: Opcode)
        requires
            opcode.valid(),
        ensures
            final(self).out() == old(self).out().push(byte(opcode)),
            final(self).input == old(self).input,
            final(self).index == old(self).index,
            final(self).binded_context == old(self).binded_context,
            final(self).functions == old(self).functions,
    {
        proof {
            crate::contracts::language::lemma_decode_encoding(opcode);
        }
        self.output.push(opcode.to_u8());
    }

    /// Reads the names up to the next `in`, starting after the current token.
    fn get_parameters(&mut self) -> (r: Result<Vec<String>, CompileError>)
        requires
            old(self).wf(),
            old(self).position() < old(self).toks().len(),
        ensures
            final(self).wf(),
            final(self).input == old(self).input,
            final(self).output == old(self).output,
            final(self).binded_context == old(self).binded_context,
            final(self).functions == old(self).functions,
            match names_until_in(old(self).toks(), old(self).position() + 1) {
                Ok((ns, j)) => r matches Ok(v) && names_view(v@) == ns && final(self).position()
                    == j && j > old(self).position() + 1 && j <= old(self).toks().len(),
                Err(e) => r matches Err(x) && x@ == e,
            },
    {
        let ghost toks = self.toks();
        let ghost start = self.index + 1;
        let len = self.input.len();
        assert(toks.len() == len);
        let mut parameters: Vec<String> = Vec::new();
        self.index = self.index + 1;
        assert(names_view(parameters@) =~= Seq::<Seq<char>>::empty());
        loop
            invariant
                self.wf(),
                toks == self.toks(),
                self.input == old(self).input,
                self.output == old(self).output,
                self.binded_context == old(self).binded_context,
                self.functions == old(self).functions,
                start <= self.index,
                start == old(self).index + 1,
                toks == old(self).toks(),
                toks.len() == len,
                len == self.input@.len(),
                names_until_in(toks, start as nat) == match names_until_in(
                    toks,
                    self.index as nat,
                ) {
                    Ok((ns, j)) => Ok((names_view(parameters@) + ns, j)),
                    Err(e) => Err(e),
                },
            ensures
                self.wf(),
                toks == self.toks(),
                self.input == old(self).input,
                self.output == old(self).output,
                self.binded_context == old(self).binded_context,
                self.functions == old(self).functions,
                self.index < len,
                toks[self.index as int].kind == TokenKind::Keyword(Keyword::In),
                names_until_in(toks, start as nat) == Ok::<(Seq<Seq<char>>, nat), ErrorView>(
                    (names_view(parameters@), (self.index + 1) as nat),
                ),
            decreases self.input@.len() - self.index,
        {
            if self.index >= self.input.len() {
                let e = CompileError::EventuallyExpected(String::from_str("in"));
                assert(names_until_in(toks, self.index as nat) == Err::<(Seq<Seq<char>>, nat), ErrorView>(e@));
                assert(names_until_in(toks, start as nat) == Err::<(Seq<Seq<char>>, nat), ErrorView>(e@));
                return Err(e);
            }
            assert(toks[self.index as int] == self.input@[self.index as int]@);
            if self.input[self.index].kind == TokenKind::Keyword(Keyword::In) {
                assert(names_view(parameters@) + Seq::<Seq<char>>::empty() =~= names_view(
                    parameters@,
                ));
                break;
            }
            let ghost before = names_view(parameters@);
            let name = self.input[self.index].value.clone();
            parameters.push(name);
            assert(names_view(parameters@) =~= before.push(toks[self.index as int].value));
            proof {
                match names_until_in(toks, self.index as nat + 1) {
                    Ok((ns, j)) => {
                        assert(before + (seq![toks[self.index as int].value] + ns) =~= before.push(
                            toks[self.index as int].value,
                        ) + ns);
                    },
                    Err(e) => {},
                }
            }
            self.index = self.index + 1;
        }
        self.index = self.index + 1;
        Ok(parameters)
    }

    /// `new` follows `self` as the lowering `res` says, `r` being what was returned.
    pub closed spec fn lowered(
        self,
        new: Self,
        res: Result<(Seq<u8>, nat), ErrorView>,
        r: Result<(), CompileError>,
    ) -> bool {
        &&& new.wf()
        &&& new.input == self.input
        &&& match res {
            Ok((c, j)) => {
                &&& r is Ok
                &&& new.out() == self.out() + c
                &&& new.position() == j
                &&& new.binded_context@ == self.binded_context@
                &&& new.functions@ == self.functions@
            },
            Err(e) => r matches Err(x) && x@ == e,
        }
    }

    fn bump(&mut self)
        requires
            old(self).index < old(self).input@.len(),
        ensures
            final(self).index == old(self).index + 1,
            final(self).input == old(self).input,
            final(self).output == old(self).output,
            final(self).binded_context == old(self).binded_context,
            final(self).functions == old(self).functions,
    {
        let _len = self.input.len();
        self.index = self.index + 1;
    }

    fn number(&mut self, base: lexer::Base, ty: Type) -> (r: Result<(), CompileError>)
        requires
            old(self).wf(),
            old(self).position() < old(self).toks().len(),
            old(self).toks()[old(self).position() as int].kind == TokenKind::Num(base, ty),
        ensures
            old(self).lowered(
                *final(self),
                statement(old(self).toks(), old(self).ctx(), old(self).position()),
                r,
            ),
    {
        assert(self.toks()[self.index as int] == self.input@[self.index as int]@);
        let value = self.input[self.index].value.clone();
        let radix: u32 = match base {
            lexer::Base::Dec => 10,
            lexer::Base::Hex => 16,
        };
        proof {
            reveal_with_fuel(word::le_limit, 9);
        }
        let bytes: Vec<u8> = if ty == Type::U256 {
            match literal::parse_u256(value.as_str(), radix) {
                Some(w) => {
                    let a = word::to_le_array(w);
                    vstd::slice::slice_to_vec(&a)
                },
                None => {
                    return Err(
                        CompileError::CantInterpret(value.clone(), String::from_str("u256")),
                    );
                },
            }
        } else {
            let limit: u128 = match ty {
                Type::U64 => 0x1_0000_0000_0000_0000,
                Type::U32 => 0x1_0000_0000,
                Type::U16 => 0x1_0000,
                _ => 0x100,
            };
            match literal::parse_unsigned(value.as_str(), radix, limit) {
                Some(v) => literal::le_bytes_of(v, ty.byte_count() as usize),
                None => {
                    return Err(CompileError::CantInterpret(value.clone(), type_string(ty)));
                },
            }
        };
        self.push_opcode(Opcode::Push(ty.byte_count()));
        crate::digest::push_all(&mut self.output, bytes.as_slice());
        assert(self.out() =~= old(self).out() + (seq![byte(Opcode::Push(ty.bytes() as u8))]
            + bytes@));
        self.bump();
        Ok(())
    }

    /// The position of the innermost binding of `name`.
    fn find_binding(&self, name: &String) -> (r: Option<usize>)
        ensures
            match r {
                Some(x) => binding_index(self.ctx(), name@) == Some(x as nat),
                None => binding_index(self.ctx(), name@) is None,
            },
    {
        let ghost ctx = self.ctx();
        let mut i = self.binded_context.len();
        assert(ctx.take(i as int) == ctx);
        while i > 0
            invariant
                i <= self.binded_context@.len(),
                ctx == self.ctx(),
                ctx.len() == self.binded_context@.len(),
                binding_index(ctx, name@) == binding_index(ctx.take(i as int), name@),
            decreases i,
        {
            assert(ctx[i - 1] == self.binded_context@[i - 1]@);
            assert(ctx.take(i as int).drop_last() == ctx.take(i - 1));
            if self.binded_context[i - 1] == *name {
                return Some(i - 1);
            }
            i = i - 1;
        }
        None
    }

    fn identifier(&mut self) -> (r: Result<(), CompileError>)
        requires
            old(self).wf(),
            old(self).position() < old(self).toks().len(),
            old(self).toks()[old(self).position() as int].kind == TokenKind::Ident,
        ensures
            old(self).lowered(
                *final(self),
                statement(old(self).toks(), old(self).ctx(), old(self).position()),
                r,
            ),
            r is Err ==> final(self).out() == old(self).out() && final(self).position() == old(self).position(),
    {
        assert(self.toks()[self.index as int] == self.input@[self.index as int]@);
        let name = self.input[self.index].value.clone();
        match self.find_binding(&name) {
            Some(x) => {
                if x >= 32 {
                    return Err(
                        CompileError::SyntaxError(
                            self.index,
                            String::from_str("a binding within the first 32"),
                            name,
                        ),
                    );
                }
                self.push_opcode(Opcode::CopyToMain(x as u8));
                assert(self.out() =~= old(self).out() + seq![byte(Opcode::CopyToMain(x as u8))]);
                self.bump();
                Ok(())
            },
            None => Err(CompileError::UnexpectedToken(name)),
        }
    }

    fn op(&mut self, b: Bin) -> (r: Result<(), CompileError>)
        requires
            old(self).wf(),
            old(self).position() < old(self).toks().len(),
            old(self).toks()[old(self).position() as int].kind == TokenKind::Op(b),
        ensures
            old(self).lowered(
                *final(self),
                statement(old(self).toks(), old(self).ctx(), old(self).position()),
                r,
            ),
    {
        let kind = match b {
            Bin::Sub => Opcode::Sub,
            Bin::Add => Opcode::Add,
            Bin::Mul => Opcode::Mul,
            Bin::Div => Opcode::Div,
            Bin::Lt => Opcode::Lt,
            Bin::Gt => Opcode::Gt,
            Bin::Geq => Opcode::Geq,
            Bin::Leq => Opcode::Leq,
            Bin::EqSign => Opcode::Eqi,
        };
        self.push_opcode(kind);
        assert(self.out() =~= old(self).out() + seq![byte(op_code(b))]);
        self.bump();
        Ok(())
    }

    /// `require`: terminates when the value on top is not zero, goes on otherwise.
    fn require(&mut self) -> (r: Result<(), CompileError>)
        requires
            old(self).wf(),
            old(self).position() < old(self).toks().len(),
            old(self).toks()[old(self).position() as int].kind == TokenKind::Keyword(
                Keyword::Require,
            ),
        ensures
            old(self).lowered(
                *final(self),
                statement(old(self).toks(), old(self).ctx(), old(self).position()),
                r,
            ),
    {
        self.push_opcode(Opcode::Push(1));
        self.output.push(1);
        self.push_opcode(Opcode::Jumpifnot);
        self.push_opcode(Opcode::Terminate);
        assert(self.output@ =~= old(self).output@ + seq![
            byte(Opcode::Push(1)),
            1u8,
            byte(Opcode::Jumpifnot),
            byte(Opcode::Terminate),
        ]);
        self.bump();
        Ok(())
    }

    /// One statement, whatever it starts with.
    fn advance_within_function(&mut self) -> (r: Result<(), CompileError>)
        requires
            old(self).wf(),
            old(self).position() < old(self).toks().len(),
        ensures
            old(self).lowered(
                *final(self),
                statement(old(self).toks(), old(self).ctx(), old(self).position()),
                r,
            ),
            r is Ok ==> final(self).position() > old(self).position(),
        decreases old(self).toks().len() - old(self).position(), 1nat,
    {
        assert(self.toks()[self.index as int] == self.input@[self.index as int]@);
        match self.input[self.index].kind {
            TokenKind::Num(base, ty) => self.number(base, ty),
            TokenKind::Keyword(Keyword::Let) => self.bind_block(true),
            TokenKind::Keyword(Keyword::Peek) => self.bind_block(false),
            TokenKind::Keyword(Keyword::If) => self.if_(),
            TokenKind::Keyword(Keyword::Require) => self.require(),
            TokenKind::Ident => self.identifier(),
            TokenKind::Keyword(Keyword::Iszero) => {
                self.push_opcode(Opcode::Iszero);
                assert(self.out() =~= old(self).out() + seq![byte(Opcode::Iszero)]);
                self.bump();
                Ok(())
            },
            TokenKind::Keyword(Keyword::Get) => {
                self.push_opcode(Opcode::Get);
                assert(self.out() =~= old(self).out() + seq![byte(Opcode::Get)]);
                self.bump();
                Ok(())
            },
            TokenKind::Keyword(Keyword::Store) => {
                self.push_opcode(Opcode::Store);
                assert(self.out() =~= old(self).out() + seq![byte(Opcode::Store)]);
                self.bump();
                Ok(())
            },
            TokenKind::Op(b) => self.op(b),
            _ => Err(CompileError::UnexpectedToken(self.input[self.index].value.clone())),
        }
    }

    /// Statements up to the block's closing keyword (`end`, or also `else`
    /// when `else_too`), which is consumed.
    fn advance_while(&mut self, else_too: bool) -> (r: Result<(), CompileError>)
        requires
            old(self).wf(),
        ensures
            old(self).lowered(
                *final(self),
                block(old(self).toks(), old(self).ctx(), old(self).position(), else_too),
                r,
            ),
            r is Ok ==> final(self).position() > old(self).position(),
        decreases old(self).toks().len() - old(self).position(), 2nat,
    {
        let len = self.input.len();
        assert(self.toks().len() == len);
        if self.index >= len {
            return Err(CompileError::UnexpectedEoc);
        }
        let ghost toks = self.toks();
        let ghost ctx = self.ctx();
        let ghost start = self.index as nat;
        let ghost out0 = self.out();
        let ghost mut acc: Seq<u8> = Seq::empty();
        assert(self.out() =~= out0 + acc);
        assert forall|c: Seq<u8>| #[trigger] (acc + c) == c by {
            assert(acc + c =~= c);
        };
        while !block_ends(self.input[self.index].kind, else_too)
            invariant
                self.wf(),
                self.input == old(self).input,
                self.binded_context@ == old(self).binded_context@,
                self.functions@ == old(self).functions@,
                toks == self.toks(),
                toks == old(self).toks(),
                ctx == self.ctx(),
                ctx == old(self).ctx(),
                out0 == old(self).out(),
                start == old(self).position(),
                toks.len() == len,
                start <= self.index < len,
                self.out() == out0 + acc,
                block(toks, ctx, start, else_too) == match block(
                    toks,
                    ctx,
                    self.index as nat,
                    else_too,
                ) {
                    Ok((c, k)) => Ok((acc + c, k)),
                    Err(e) => Err(e),
                },
            decreases len - self.index,
        {
            let ghost i = self.index as nat;
            let ghost pre = self.out();
            assert(toks[i as int] == self.input@[i as int]@);
            match self.advance_within_function() {
                Ok(()) => {},
                Err(e) => {
                    return Err(e);
                },
            }
            if self.index >= len {
                return Err(CompileError::UnexpectedEoc);
            }
            proof {
                let c = statement(toks, ctx, i)->Ok_0.0;
                match block(toks, ctx, self.index as nat, else_too) {
                    Ok((c2, k)) => {
                        assert(acc + (c + c2) =~= (acc + c) + c2);
                    },
                    Err(e) => {},
                }
                acc = acc + c;
                assert(self.out() =~= out0 + acc);
            }
        }
        assert(toks[self.index as int] == self.input@[self.index as int]@);
        assert(acc + Seq::<u8>::empty() =~= acc);
        self.bump();
        Ok(())
    }

    fn advance_until_end(&mut self) -> (r: Result<(), CompileError>)
        requires
            old(self).wf(),
        ensures
            old(self).lowered(
                *final(self),
                block(old(self).toks(), old(self).ctx(), old(self).position(), false),
                r,
            ),
            r is Ok ==> final(self).position() > old(self).position(),
        decreases old(self).toks().len() - old(self).position(), 3nat,
    {
        self.advance_while(false)
    }

    /// `if THEN end` or `if THEN else OTHER end`: a conditional jump over the
    /// then-branch, and, with an else-branch, a jump over it at the then-branch's end.
    #[verifier::rlimit(40)]
    fn if_(&mut self) -> (r: Result<(), CompileError>)
        requires
            old(self).wf(),
            old(self).position() < old(self).toks().len(),
            old(self).toks()[old(self).position() as int].kind == TokenKind::Keyword(Keyword::If),
        ensures
            old(self).lowered(
                *final(self),
                statement(old(self).toks(), old(self).ctx(), old(self).position()),
                r,
            ),
            r is Ok ==> final(self).position() > old(self).position(),
        decreases old(self).toks().len() - old(self).position(), 0nat,
    {
        let ghost o = self.out();
        let start = self.index;
        self.bump();
        self.push_opcode(Opcode::Push(1));
        let before = self.output.len();
        self.push_opcode(Opcode::Jumpif);
        self.advance_while(true)?;
        let j = self.index;
        let then_len = self.output.len() - before - 1;
        let ghost then = block(old(self).toks(), old(self).ctx(), start as nat + 1, true)->Ok_0.0;
        assert(self.out() == o + seq![byte(Opcode::Push(1)), byte(Opcode::Jumpif)] + then);
        assert(then_len == then.len());
        assert(self.toks()[j - 1] == self.input@[j - 1]@);
        if self.input[j - 1].kind == TokenKind::Keyword(Keyword::Else) {
            self.push_opcode(Opcode::Push(1));
            let before2 = self.output.len();
            self.push_opcode(Opcode::Jump);
            self.advance_until_end()?;
            let other_len = self.output.len() - before2 - 1;
            let ghost other = block(old(self).toks(), old(self).ctx(), j as nat, false)->Ok_0.0;
            if then_len + 3 > 255 || other_len > 255 {
                return Err(
                    CompileError::SyntaxError(
                        start,
                        String::from_str("a branch of at most 255 bytes"),
                        String::from_str("a longer branch"),
                    ),
                );
            }
            let ghost mid = self.out();
            assert(mid == o + seq![byte(Opcode::Push(1)), byte(Opcode::Jumpif)] + then + seq![
                byte(Opcode::Push(1)),
                byte(Opcode::Jump),
            ] + other);
            self.output.insert(before2, other_len as u8);
            self.output.insert(before, (then_len + 3) as u8);
            assert(self.out() =~= o + (seq![
                byte(Opcode::Push(1)),
                (then.len() + 3) as u8,
                byte(Opcode::Jumpif),
            ] + then + seq![byte(Opcode::Push(1)), other.len() as u8, byte(Opcode::Jump)]
                + other));
        } else {
            if then_len > 255 {
                return Err(
                    CompileError::SyntaxError(
                        start,
                        String::from_str("a branch of at most 255 bytes"),
                        String::from_str("a longer branch"),
                    ),
                );
            }
            self.output.insert(before, then_len as u8);
            assert(self.out() =~= o + (seq![
                byte(Opcode::Push(1)),
                then.len() as u8,
                byte(Opcode::Jumpif),
            ] + then));
        }
        Ok(())
    }

    /// `let NAMES in BODY end` moves the top values to the locals stack and
    /// binds them; `peek` copies them instead.
    fn bind_block(&mut self, moves: bool) -> (r: Result<(), CompileError>)
        requires
            old(self).wf(),
            old(self).position() < old(self).toks().len(),
            old(self).toks()[old(self).position() as int].kind == TokenKind::Keyword(
                if moves {
                    Keyword::Let
                } else {
                    Keyword::Peek
                },
            ),
        ensures
            old(self).lowered(
                *final(self),
                statement(old(self).toks(), old(self).ctx(), old(self).position()),
                r,
            ),
            r is Ok ==> final(self).position() > old(self).position(),
        decreases old(self).toks().len() - old(self).position(), 0nat,
    {
        let ghost o = self.out();
        let start = self.index;
        let mut names = self.get_parameters()?;
        let k = names.len();
        if k == 0 || k > 32 {
            return Err(
                CompileError::SyntaxError(
                    start,
                    String::from_str("1 to 32 names"),
                    String::from_str("in"),
                ),
            );
        }
        if moves {
            self.push_opcode(Opcode::MoveToReturn(k as u8));
        } else {
            self.push_opcode(Opcode::CopyToReturn(k as u8));
        }
        let ctx_len = self.binded_context.len();
        let ghost names_v = names_view(names@);
        let ghost bc = self.binded_context@;
        self.binded_context.append(&mut names);
        assert(self.ctx() =~= old(self).ctx() + names_v);
        let ghost mid = self.out();
        let ghost j = self.index as nat;
        let ghost b = byte(
            if moves {
                Opcode::MoveToReturn(k as u8)
            } else {
                Opcode::CopyToReturn(k as u8)
            },
        );
        assert(mid == o.push(b));
        assert(names_v.len() == k);
        self.advance_until_end()?;
        self.binded_context.truncate(ctx_len);
        assert(self.binded_context@ =~= bc);
        let ghost c = block(old(self).toks(), old(self).ctx() + names_v, j, false)->Ok_0.0;
        assert(self.out() == mid + c);
        assert(self.out() =~= o + (seq![b] + c));
        Ok(())
    }

    /// Maps `name` to the entry: the existing entry is replaced, or one is added.
    fn insert_function(&mut self, name: String, offset: usize, params: Vec<String>)
        ensures
            final(self).fns() == function_insert(
                old(self).fns(),
                (name@, offset as nat, names_view(params@)),
            ),
            final(self).input == old(self).input,
            final(self).index == old(self).index,
            final(self).output == old(self).output,
            final(self).binded_context == old(self).binded_context,
    {
        let ghost fns = self.fns();
        let ghost entry = (name@, offset as nat, names_view(params@));
        let mut i = self.functions.len();
        assert(fns.take(i as int) == fns);
        while i > 0
            invariant
                i <= self.functions@.len(),
                fns == self.fns(),
                fns.len() == self.functions@.len(),
                self.input == old(self).input,
                self.index == old(self).index,
                self.output == old(self).output,
                self.binded_context == old(self).binded_context,
                fns == old(self).fns(),
                entry == (name@, offset as nat, names_view(params@)),
                function_index(fns, name@) == function_index(fns.take(i as int), name@),
            decreases i,
        {
            assert(fns[i - 1] == (
                self.functions@[i - 1].0@,
                self.functions@[i - 1].1 as nat,
                names_view(self.functions@[i - 1].2@),
            ));
            assert(fns.take(i as int).drop_last() == fns.take(i - 1));
            if self.functions[i - 1].0 == name {
                let ghost fv = self.functions@;
                let e = (name, offset, params);
                let ghost ev = (e.0@, e.1 as nat, names_view(e.2@));
                assert(ev == entry);
                self.functions.set(i - 1, e);
                assert(self.functions@ == fv.update(i - 1, e));
                assert(self.fns() =~= fns.update(i - 1, entry));
                return ;
            }
            i = i - 1;
        }
        self.functions.push((name, offset, params));
        assert(self.fns() =~= fns.push(entry));
    }

    /// `fn NAME PARAMS in BODY end`: the function is entered in the table at
    /// the current end of the code, and its parameters are bound for its body.
    fn function(&mut self) -> (r: Result<(), CompileError>)
        requires
            old(self).wf(),
            old(self).position() < old(self).toks().len(),
            old(self).toks()[old(self).position() as int].kind == TokenKind::Keyword(Keyword::Fnk),
        ensures
            old(self).advanced(*final(self), r),
    {
        let len = self.input.len();
        let start = self.index;
        if start + 1 >= len {
            return Err(CompileError::UnexpectedEoc);
        }
        self.bump();
        assert(self.toks()[self.index as int] == self.input@[self.index as int]@);
        let name = self.input[self.index].value.clone();
        let mut parameters = self.get_parameters()?;
        let offset = self.output.len();
        let mut copy: Vec<String> = Vec::new();
        let mut i: usize = 0;
        while i < parameters.len()
            invariant
                i <= parameters@.len(),
                names_view(copy@) == names_view(parameters@.take(i as int)),
            decreases parameters@.len() - i,
        {
            let ghost before = names_view(copy@);
            copy.push(parameters[i].clone());
            assert(names_view(copy@) =~= before.push(parameters@[i as int]@));
            assert(names_view(parameters@.take(i + 1)) =~= names_view(parameters@.take(i as int)).push(
                parameters@[i as int]@,
            ));
            i = i + 1;
        }
        assert(parameters@.take(i as int) == parameters@);
        let ghost params_v = names_view(parameters@);
        self.insert_function(name, offset, copy);
        let ctx_len = self.binded_context.len();
        let ghost bc = self.binded_context@;
        self.binded_context.append(&mut parameters);
        assert(self.ctx() =~= old(self).ctx() + params_v);
        self.advance_until_end()?;
        self.binded_context.truncate(ctx_len);
        assert(self.binded_context@ =~= bc);
        Ok(())
    }

    /// `new` follows `self` by one top-level item, as `item` says.
    pub open spec fn advanced(self, new: Self, r: Result<(), CompileError>) -> bool {
        match item(self.toks(), self.ctx(), self.fns(), self.out().len(), self.position()) {
            Ok((c, ctx2, fns2, j)) => {
                &&& r is Ok
                &&& new.wf()
                &&& new.toks() == self.toks()
                &&& new.out() == self.out() + c
                &&& new.ctx() == ctx2
                &&& new.fns() == fns2
                &&& new.position() == j
                &&& j > self.position()
            },
            Err(e) => r matches Err(x) && x@ == e,
        }
    }

    /// Compiles one top-level item: a function or a mapping declaration.
    pub fn advance(&mut self) -> (r: Result<(), CompileError>)
        requires
            old(self).wf(),
            old(self).position() < old(self).toks().len(),
        ensures
            old(self).advanced(*final(self), r),
    {
        let len = self.input.len();
        assert(self.toks()[self.index as int] == self.input@[self.index as int]@);
        match self.input[self.index].kind {
            TokenKind::Keyword(Keyword::Fnk) => self.function(),
            TokenKind::Keyword(Keyword::Mapping) => {
                if self.index + 1 >= len {
                    return Err(CompileError::UnexpectedEoc);
                }
                assert(self.toks()[self.index + 1] == self.input@[self.index + 1]@);
                if self.input[self.index + 1].kind != TokenKind::Ident {
                    return Err(CompileError::UnexpectedToken(self.input[self.index + 1].value.clone()));
                }
                let name = self.input[self.index + 1].value.clone();
                let ghost ctx = self.ctx();
                self.binded_context.push(name);
                assert(self.ctx() =~= ctx.push(name@));
                assert(self.out() =~= old(self).out() + Seq::<u8>::empty());
                self.index = self.index + 2;
                Ok(())
            },
            _ => Err(CompileError::UnexpectedToken(self.input[self.index].value.clone())),
        }
    }
}

fn block_ends(k: TokenKind, else_too: bool) -> (r: bool)
    ensures
        r == ends_block(k, else_too),
{
    k == TokenKind::Keyword(Keyword::End) || (else_too && k == TokenKind::Keyword(Keyword::Else))
}

fn type_string(t: Type) -> (r: String)
    ensures
        r@ == type_text(t),
{
    match t {
        Type::U256 => String::from_str("u256"),
        Type::U64 => String::from_str("u64"),
        Type::U32 => String::from_str("u32"),
        Type::U16 => String::from_str("u16"),
        Type::U8 => String::from_str("u8"),
    }
}

/// Compiles a source text: its tokens, then each top-level item in turn.
pub fn compile(source: String) -> (r: Result<Vec<u8>, CompileError>)
    ensures
        match compiled(source@) {
            Ok(code) => r matches Ok(v) && v@ == code,
            Err(e) => r matches Err(x) && x@ == e,
        },
{
    let ghost src = source@;
    let tokens = match lex(source) {
        Ok(t) => t,
        Err(e) => return Err(e),
    };
    let ghost toks = tokens@.map_values(|t: Token| t@);
    let mut compiler = Compiler::new(tokens);
    assert(Seq::<u8>::empty() + Seq::<u8>::empty() =~= Seq::<u8>::empty());
    while !compiler.should_stop()
        invariant
            compiler.wf(),
            compiler.toks() == toks,
            src == source@,
            lexer::lex_words(lexer::words(src)) == Ok::<Seq<TokenView>, ErrorView>(toks),
            program(toks, Seq::empty(), Seq::empty(), Seq::empty(), 0) == program(
                toks,
                compiler.ctx(),
                compiler.fns(),
                compiler.out(),
                compiler.position(),
            ),
        decreases toks.len() - compiler.position(),
    {
        match compiler.advance() {
            Ok(()) => {},
            Err(e) => {
                return Err(e);
            },
        }
    }
    Ok(compiler.output)
}

/// A listing of bytecode from position `i`: each opcode, with the value a
/// push carries (zero for the others); undefined bytes are skipped, and a
/// push cut short by the end of the code ends the listing.
pub open spec fn listing(code: Seq<u8>, i: nat) -> Seq<(Opcode, Word)>
    decreases code.len() - i,
{
    if i >= code.len() {
        Seq::empty()
    } else {
        match language::decode(code[i as int]) {
            None => listing(code, i + 1),
            Some(Opcode::Push(n)) => if i + 1 + n > code.len() {
                Seq::empty()
            } else {
                seq![
                    (
                        Opcode::Push(n),
                        word::word_of(word::le_value(code.subrange(i as int + 1, i as int + 1 + n))),
                    ),
                ] + listing(code, (i + 1 + n) as nat)
            },
            Some(op) => seq![(op, language::zero_word())] + listing(code, i + 1),
        }
    }
}

/// Reads bytecode back as a list of opcodes and pushed values.
pub fn somewhat_decompile(input: &[u8]) -> (r: Vec<(Opcode, Word)>)
    ensures
        r@ == listing(input@, 0),
{
    let mut out: Vec<(Opcode, Word)> = Vec::new();
    let mut i: usize = 0;
    let len = input.len();
    assert(out@ + listing(input@, 0) =~= listing(input@, 0));
    while i < len
        invariant
            len == input@.len(),
            i <= len,
            out@ + listing(input@, i as nat) == listing(input@, 0),
        decreases len - i,
    {
        let ghost pre = out@;
        match Opcode::from_u8(input[i]) {
            None => {
                i = i + 1;
            },
            Some(Opcode::Push(n)) => {
                if n as usize > len - i - 1 {
                    assert(pre + Seq::<(Opcode, Word)>::empty() =~= pre);
                    return out;
                }
                let value = word::from_le_slice(
                    vstd::slice::slice_subrange(input, i + 1, i + 1 + n as usize),
                );
                out.push((Opcode::Push(n), value));
                proof {
                    lemma_decode_push(input[i as int], n);
                }
                assert(out@ + listing(input@, (i + 1 + n) as nat) =~= pre + listing(
                    input@,
                    i as nat,
                ));
                i = i + 1 + n as usize;
            },
            Some(op) => {
                out.push((op, Word { l0: 0, l1: 0, l2: 0, l3: 0 }));
                assert(out@ + listing(input@, (i + 1) as nat) =~= pre + listing(input@, i as nat));
                i = i + 1;
            },
        }
    }
    assert(out@ + Seq::<(Opcode, Word)>::empty() =~= out@);
    out
}

proof fn lemma_decode_push(b: u8, n: u8)
    requires
        language::decode(b) == Some(Opcode::Push(n)),
    ensures
        1 <= n <= 32,
{
}

/// Compiling one item is deterministic: two compilers in the same state
/// (the same tokens, bindings, table, output and position) give the same
/// result, the same output and the same function table.
pub proof fn lemma_advance_determinism(
    c1: Compiler,
    c2: Compiler,
    n1: Compiler,
    n2: Compiler,
    r1: Result<(), CompileError>,
    r2: Result<(), CompileError>,
)
    requires
        c1.toks() == c2.toks(),
        c1.ctx() == c2.ctx(),
        c1.fns() == c2.fns(),
        c1.out() == c2.out(),
        c1.position() == c2.position(),
        c1.advanced(n1, r1),
        c2.advanced(n2, r2),
    ensures
        r1 is Ok <==> r2 is Ok,
        r1 is Ok ==> n1.out() == n2.out() && n1.fns() == n2.fns() && n1.position() == n2.position(),
        r1 matches Err(e1) ==> (r2 matches Err(e2) && e1@ == e2@),
{
}

} // verus!
