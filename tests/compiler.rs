use std::collections::HashMap;

use teral::contracts::compiler::lexer::Base;
use teral::contracts::compiler::{compile, lex, somewhat_decompile, CompileError, Compiler};
use teral::contracts::language::Opcode;
use teral::word::Word;

fn function_table(compiler: &Compiler) -> HashMap<String, (usize, Vec<String>)> {
    compiler
        .functions()
        .iter()
        .map(|(name, offset, params)| (name.clone(), (*offset, params.clone())))
        .collect()
}

#[test]
fn if_else() {
    let input = lex(r#"
fn transfer from to amount in
    amount 100_u8 >
    require
    0_u8
    if
        10
    else
        11
    end
    100 get
end"#
        .to_string())
    .unwrap();
    let mut compiler = Compiler::new(input);
    if let Err(err) = compiler.advance() {
        assert!(false, "{:?}", err);
    }
    let mut expected_functions = HashMap::new();
    expected_functions.insert(
        "transfer".to_string(),
        (
            0_usize,
            vec!["from".to_string(), "to".to_string(), "amount".to_string()],
        ),
    );
    assert_eq!(expected_functions, function_table(&compiler));

    let expected_output = vec![
        76, 7, 100, 177, 7, 1, 180, 0, 7, 0, 7, 36, 72, 38, 10, 0, 0, 0, 0, 0, 0, 0, 0, 0, 0,
        0, 0, 0, 0, 0, 0, 0, 0, 0, 0, 0, 0, 0, 0, 0, 0, 0, 0, 0, 0, 0, 7, 33, 73, 38, 11, 0, 0,
        0, 0, 0, 0, 0, 0, 0, 0, 0, 0, 0, 0, 0, 0, 0, 0, 0, 0, 0, 0, 0, 0, 0, 0, 0, 0, 0, 0, 0,
        38, 100, 0, 0, 0, 0, 0, 0, 0, 0, 0, 0, 0, 0, 0, 0, 0, 0, 0, 0, 0, 0, 0, 0, 0, 0, 0, 0,
        0, 0, 0, 0, 0, 6,
    ];
    assert_eq!(expected_output, compiler.output().clone());
}

#[test]
fn only_if() {
    let input = lex(r#"
fn transfer from to amount in
    0_u8
    if
        10
    end

    from amount +
    if
        20
    end
end"#
        .to_string())
    .unwrap();
    let mut compiler = Compiler::new(input);
    if let Err(err) = compiler.advance() {
        assert!(false, "{:?}", err);
    }
    let mut expected_functions = HashMap::new();
    expected_functions.insert(
        "transfer".to_string(),
        (
            0_usize,
            vec!["from".to_string(), "to".to_string(), "amount".to_string()],
        ),
    );
    assert_eq!(expected_functions, function_table(&compiler));

    let expected_output = vec![
        7, 0, 7, 33, 72, 38, 10, 0, 0, 0, 0, 0, 0, 0, 0, 0, 0, 0, 0, 0, 0, 0, 0, 0, 0, 0, 0, 0,
        0, 0, 0, 0, 0, 0, 0, 0, 0, 0, 74, 76, 1, 7, 33, 72, 38, 20, 0, 0, 0, 0, 0, 0, 0, 0, 0,
        0, 0, 0, 0, 0, 0, 0, 0, 0, 0, 0, 0, 0, 0, 0, 0, 0, 0, 0, 0, 0, 0,
    ];
    assert_eq!(expected_output, compiler.output().clone());
}

#[test]
fn iszero() {
    let input = lex(r#"
fn transfer from to amount in
    10
    iszero if
        amount +
    end
end"#
        .to_string())
    .unwrap();
    let mut compiler = Compiler::new(input);
    if let Err(err) = compiler.advance() {
        assert!(false, "{:?}", err);
    }
    let mut expected_functions = HashMap::new();
    expected_functions.insert(
        "transfer".to_string(),
        (
            0_usize,
            vec!["from".to_string(), "to".to_string(), "amount".to_string()],
        ),
    );
    assert_eq!(expected_functions, function_table(&compiler));

    let expected_output = vec![
        38, 10, 0, 0, 0, 0, 0, 0, 0, 0, 0, 0, 0, 0, 0, 0, 0, 0, 0, 0, 0, 0, 0, 0, 0, 0, 0, 0,
        0, 0, 0, 0, 0, 181, 7, 2, 72, 76, 1,
    ];
    assert_eq!(expected_output, compiler.output().clone());
}

#[test]
fn compile_is_deterministic() {
    let source = "fn f a b in a b + end".to_string();
    let first = compile(source.clone()).unwrap();
    let second = compile(source).unwrap();
    assert_eq!(first, second);
    assert_eq!(first, vec![0x4a, 0x4b, 0x01]);
}

#[test]
fn less_or_equal_emits_leq() {
    assert_eq!(compile("fn f a b in a b <= end".to_string()).unwrap(), vec![0x4a, 0x4b, 0xb3]);
    assert_eq!(compile("fn f a b in a b >= end".to_string()).unwrap(), vec![0x4a, 0x4b, 0xb2]);
    assert_eq!(compile("fn f a b in a b == end".to_string()).unwrap(), vec![0x4a, 0x4b, 0xaf]);
}

#[test]
fn typed_literals_use_their_width() {
    assert_eq!(compile("fn f in 0x10_u16 end".to_string()).unwrap(), vec![0x08, 0x10, 0x00]);
    assert_eq!(
        compile("fn f in 258_u32 end".to_string()).unwrap(),
        vec![0x0a, 0x02, 0x01, 0x00, 0x00]
    );
    let hex = compile("fn f in 0xff end".to_string()).unwrap();
    assert_eq!(hex.len(), 33);
    assert_eq!(hex[0], 0x26);
    assert_eq!(hex[1], 0xff);
}

#[test]
fn literal_out_of_range_is_rejected() {
    assert_eq!(
        compile("fn f in 256_u8 end".to_string()),
        Err(CompileError::CantInterpret("256".to_string(), "u8".to_string()))
    );
}

#[test]
fn let_moves_and_binds_names() {
    // 5, then let x: MoveToReturn(1); x is bound after the parameter a.
    let code = compile("fn f a in 5_u8 let x in x a + end end".to_string()).unwrap();
    assert_eq!(code, vec![0x07, 5, 0x6d, 0x4b, 0x4a, 0x01]);
    let code = compile("fn f a in 5_u8 peek x in x end end".to_string()).unwrap();
    assert_eq!(code, vec![0x07, 5, 0x8e, 0x4b]);
}

#[test]
fn mapping_binds_a_name() {
    let code = compile("mapping balances fn f a in balances a end".to_string()).unwrap();
    assert_eq!(code, vec![0x4a, 0x4b]);
}

#[test]
fn unknown_identifier_is_rejected() {
    assert_eq!(
        compile("fn f a in b end".to_string()),
        Err(CompileError::UnexpectedToken("b".to_string()))
    );
}

#[test]
fn missing_in_is_reported() {
    assert_eq!(
        compile("fn f a b".to_string()),
        Err(CompileError::EventuallyExpected("in".to_string()))
    );
}

#[test]
fn unterminated_body_is_reported() {
    assert_eq!(compile("fn f a in a".to_string()), Err(CompileError::UnexpectedEoc));
}

#[test]
fn lexer_rejects_bad_words() {
    assert_eq!(
        lex("fn f in 1 $ end".to_string()).unwrap_err(),
        CompileError::CantInterpret("$".to_string(), "any".to_string())
    );
    assert_eq!(lex("=".to_string()).unwrap_err(), CompileError::UnexpectedEow);
    assert_eq!(
        lex("<x".to_string()).unwrap_err(),
        CompileError::CantInterpret("<x".to_string(), "any".to_string())
    );
    assert_eq!(
        lex("1_u7".to_string()).unwrap_err(),
        CompileError::CantInterpret("u7".to_string(), "type".to_string())
    );
    assert_eq!(
        lex("07".to_string()).unwrap_err(),
        CompileError::CantInterpret("07".to_string(), "num".to_string())
    );
}

#[test]
fn lexer_reads_token_values() {
    let tokens = lex("  0x1f_u8\t12_u64 abc  ".to_string()).unwrap();
    assert_eq!(tokens.len(), 3);
    assert_eq!(tokens[0].value, "1f");
    assert_eq!(tokens[1].value, "12");
    assert_eq!(tokens[2].value, "abc");
}

#[test]
fn long_branch_is_rejected() {
    let body = "1 ".repeat(8);
    let source = format!("fn f in 1 if {} end end", body);
    assert!(matches!(
        compile(source),
        Err(CompileError::SyntaxError(_, _, _))
    ));
}

#[test]
fn decompile_lists_opcodes_and_pushed_values() {
    let listing = somewhat_decompile(&[0x07, 5, 0x4a, 0xff, 0x01, 0x08, 1]);
    assert_eq!(
        listing,
        vec![
            (Opcode::Push(1), Word::from_u64(5)),
            (Opcode::CopyToMain(0), Word::from_u64(0)),
            (Opcode::Add, Word::from_u64(0)),
        ]
    );
}

#[test]
fn base_from_radix() {
    assert_eq!(Base::from_radix(10), Ok(Base::Dec));
    assert_eq!(Base::from_radix(16), Ok(Base::Hex));
    assert_eq!(Base::from_radix(8), Err(CompileError::BaseParse(8)));
    assert_eq!(Base::Hex.radix_value(), 16);
}

#[test]
fn digit_led_words_must_be_numbers() {
    for word in ["5$", "10abc", "1x_u8", "0x", "0x_u8", "12_"] {
        assert!(matches!(lex(word.to_string()), Err(CompileError::CantInterpret(_, _))), "{}", word);
    }
    assert_eq!(
        lex("10abc".to_string()).unwrap_err(),
        CompileError::CantInterpret("10abc".to_string(), "num".to_string())
    );
    assert!(compile("fn f in 1x_u8 end".to_string()).is_err());
    let tokens = lex("0x10 7".to_string()).unwrap();
    assert_eq!(tokens[0].value, "10");
    assert_eq!(tokens[1].value, "7");
}

#[test]
fn identifiers_take_ascii_letters_digits_and_underscore() {
    assert!(lex("a_b9".to_string()).is_ok());
    assert_eq!(
        lex("a$b".to_string()).unwrap_err(),
        CompileError::CantInterpret("a$b".to_string(), "identifier".to_string())
    );
}

#[test]
fn operator_words_are_exact() {
    for word in ["+$", "-1", "*x", "/a", "==x", "=x", "<=x", ">==", "<<"] {
        assert!(matches!(lex(word.to_string()), Err(CompileError::CantInterpret(_, _))), "{}", word);
    }
    let tokens = lex("+ - * / == < > <= >=".to_string()).unwrap();
    assert_eq!(tokens.len(), 9);
}

#[test]
fn bindings_beyond_the_locals_stack_are_rejected() {
    let params: Vec<String> = (0..33).map(|i| format!("p{}", i)).collect();
    let source = format!("fn f {} in p32 end", params.join(" "));
    assert!(matches!(compile(source), Err(CompileError::SyntaxError(_, _, _))));
    let source = format!("fn f {} in p31 end", params.join(" "));
    assert_eq!(compile(source).unwrap(), vec![0x4a + 31]);
}
