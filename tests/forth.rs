use std::collections::HashMap;

use esgueva_forth::jit::{lower_batch, lower_word, BinOp, Inst, JitError};
use esgueva_forth::machine::{Action, Machine};
use esgueva_forth::ops::{Op, OpError, Out};
use esgueva_forth::parser::{classify, parse_tokens, parse_word, parser, tokenize, ParserError, Token};
use esgueva_forth::words::Words;

/// Runs compiled code the way native code does, through push/pop/print host
/// callbacks (pop on an empty stack yields 0).
fn run_code(code: &[Inst], stack: &mut Vec<i64>, out: &mut String, table: &HashMap<String, Vec<Inst>>) {
    let mut env: Vec<i64> = Vec::new();
    for inst in code {
        let v = match inst {
            Inst::Const(n) => *n,
            Inst::Bin(op, a, b) => {
                let (a, b) = (env[*a], env[*b]);
                match op {
                    BinOp::Add => a.wrapping_add(b),
                    BinOp::Sub => a.wrapping_sub(b),
                    BinOp::Mul => a.wrapping_mul(b),
                    BinOp::Div => a / b,
                }
            }
            Inst::Pop => stack.pop().unwrap_or(0),
            Inst::Push(v) => {
                stack.push(env[*v]);
                0
            }
            Inst::Print(v) => {
                out.push_str(&env[*v].to_string());
                0
            }
            Inst::Call(name) => {
                run_code(&table[name], stack, out, table);
                0
            }
        };
        env.push(v);
    }
}

fn drive(m: &mut Machine, ops: &Vec<Op>, table: &HashMap<String, Vec<Inst>>, out: &mut String) -> Result<(), OpError> {
    m.start(ops);
    loop {
        match m.step() {
            Action::Continue => {}
            Action::Output(Out::Int(n)) => out.push_str(&n.to_string()),
            Action::Output(Out::Char(c)) => out.push(char::from_u32(c).unwrap()),
            Action::CallCompiled(name) => run_code(&table[&name], &mut m.stack, out, table),
            Action::Done => return Ok(()),
            Action::Failed(e) => return Err(e),
        }
    }
}

fn run_line(m: &mut Machine, line: &str) -> Result<String, OpError> {
    let (ops, words) = match parser(line) {
        Ok(r) => r,
        Err(_) => panic!("line does not parse"),
    };
    m.words.extend(words);
    let mut out = String::new();
    drive(m, &ops, &HashMap::new(), &mut out).map(|_| out)
}

fn interpret(line: &str) -> Result<String, OpError> {
    run_line(&mut Machine::new(), line)
}

fn stack_after(line: &str) -> Vec<i64> {
    let mut m = Machine::new();
    run_line(&mut m, line).unwrap();
    m.stack
}

#[test]
fn add_and_print() {
    assert_eq!(interpret("1 2 + .").unwrap(), "3");
}

#[test]
fn subtract_order() {
    assert_eq!(interpret("5 3 - .").unwrap(), "2");
    assert_eq!(stack_after("3 4 -"), vec![-1]);
}

#[test]
fn divide_truncates_toward_zero() {
    assert_eq!(stack_after("7 2 /"), vec![3]);
    assert_eq!(stack_after("-7 2 /"), vec![-3]);
    assert_eq!(stack_after("7 -2 /"), vec![-3]);
    assert_eq!(stack_after("-7 -2 /"), vec![3]);
}

#[test]
fn multiply() {
    assert_eq!(stack_after("6 7 *"), vec![42]);
}

#[test]
fn define_square() {
    assert_eq!(interpret(": sq dup * ; 4 sq .").unwrap(), "16");
}

#[test]
fn emit_greeting() {
    assert_eq!(interpret(": greet 72 emit 105 emit ; greet").unwrap(), "Hi");
}

#[test]
fn rot_then_print() {
    assert_eq!(interpret("1 2 3 rot . . .").unwrap(), "132");
}

#[test]
fn shuffle_identities() {
    assert_eq!(stack_after("9 5 dup dup drop drop"), vec![9, 5]);
    assert_eq!(stack_after("9 5 6 swap swap"), vec![9, 5, 6]);
    assert_eq!(stack_after("9 1 2 over over"), vec![9, 1, 2, 1, 2]);
    assert_eq!(stack_after("9 1 2 3 rot rot rot"), vec![9, 1, 2, 3]);
    assert_eq!(stack_after("1 2 3 rot"), vec![2, 3, 1]);
    assert_eq!(stack_after("1 2 over"), vec![1, 2, 1]);
}

#[test]
fn underflow_is_reported() {
    assert_eq!(interpret("1 +"), Err(OpError::StackUnderflow));
    assert_eq!(interpret("."), Err(OpError::StackUnderflow));
    assert_eq!(interpret("1 2 rot"), Err(OpError::StackUnderflow));
}

#[test]
fn underflow_keeps_earlier_effects() {
    let mut m = Machine::new();
    assert_eq!(run_line(&mut m, "5 . 1 +"), Err(OpError::StackUnderflow));
    assert_eq!(m.stack, Vec::<i64>::new());
    let mut m = Machine::new();
    let mut out = String::new();
    let (ops, _) = parser("4 . 7 0 /").ok().unwrap();
    assert_eq!(drive(&mut m, &ops, &HashMap::new(), &mut out), Err(OpError::InvalidDivision));
    assert_eq!(out, "4");
}

#[test]
fn undefined_word_is_reported() {
    assert_eq!(interpret("1 frob"), Err(OpError::UndefinedWord));
}

#[test]
fn invalid_char_code_is_reported() {
    assert_eq!(interpret("-1 emit"), Err(OpError::InvalidCharCode));
    assert_eq!(interpret("55296 emit"), Err(OpError::InvalidCharCode));
    assert_eq!(interpret("1114112 emit"), Err(OpError::InvalidCharCode));
    assert_eq!(interpret("1114111 emit").unwrap(), "\u{10FFFF}");
}

#[test]
fn division_faults() {
    assert_eq!(interpret("1 0 /"), Err(OpError::InvalidDivision));
    assert_eq!(interpret("-9223372036854775808 -1 /"), Err(OpError::InvalidDivision));
}

#[test]
fn arithmetic_wraps() {
    assert_eq!(stack_after("9223372036854775807 1 +"), vec![i64::MIN]);
}

#[test]
fn error_messages() {
    assert_eq!(OpError::StackUnderflow.message(), "stack underflow");
    assert_eq!(OpError::UndefinedWord.message(), "undefined word");
    assert_eq!(OpError::InvalidCharCode.message(), "invalid char code");
    assert_eq!(OpError::InvalidDivision.message(), "invalid division");
}

#[test]
fn parser_splits_definitions() {
    let (ops, words) = parser("  1 : two 2 ; two\t+ ").ok().unwrap();
    assert_eq!(ops.len(), 3);
    assert!(matches!(ops[0], Op::Num(1)));
    assert!(matches!(&ops[1], Op::Word(w) if w == "two"));
    assert!(matches!(ops[2], Op::Add));
    let body = words.find("two").unwrap();
    assert_eq!(body.len(), 1);
    assert!(matches!(body[0], Op::Num(2)));
}

#[test]
fn parser_missing_name() {
    assert!(matches!(parser("1 : 5 dup ;"), Err(ParserError::NoWordName)));
    assert!(matches!(parser(":"), Err(ParserError::NoWordName)));
}

#[test]
fn parser_open_definition_ends_with_line() {
    let (ops, words) = parser(": inc 1 +").ok().unwrap();
    assert!(ops.is_empty());
    assert_eq!(words.find("inc").unwrap().len(), 2);
}

#[test]
fn parser_last_definition_wins() {
    let (_, words) = parser(": a 1 ; : a 2 3 ;").ok().unwrap();
    assert_eq!(words.find("a").unwrap().len(), 2);
}

#[test]
fn parse_tokens_given_tokens() {
    let toks = vec![Token::Word(":".to_string()), Token::Word("w".to_string()), Token::Num(7), Token::Word(";".to_string()), Token::Word("w".to_string())];
    let (ops, words) = parse_tokens(&toks).ok().unwrap();
    assert_eq!(ops.len(), 1);
    assert!(matches!(words.find("w").unwrap()[0], Op::Num(7)));
    assert!(matches!(parse_tokens(&vec![Token::Word(":".to_string()), Token::Num(1)]), Err(ParserError::NoWordName)));
}

#[test]
fn tokens_and_literals() {
    assert!(matches!(classify("-42".to_string()), Token::Num(-42)));
    assert!(matches!(classify("+5".to_string()), Token::Num(5)));
    assert!(matches!(classify("12a".to_string()), Token::Word(_)));
    assert!(matches!(classify("99999999999999999999".to_string()), Token::Word(_)));
    let toks = tokenize(" a\n 1  ");
    assert_eq!(toks.len(), 2);
    assert!(toks[0].is_end_of_word() == false);
    assert!(Token::Word(";".to_string()).is_end_of_word());
    assert!(!Token::Num(1).is_end_of_word());
}

#[test]
fn primitive_names() {
    assert!(matches!(parse_word("+"), Op::Add));
    assert!(matches!(parse_word("-"), Op::Sub));
    assert!(matches!(parse_word("*"), Op::Mul));
    assert!(matches!(parse_word("/"), Op::Div));
    assert!(matches!(parse_word("."), Op::Dot));
    assert!(matches!(parse_word("emit"), Op::Emit));
    assert!(matches!(parse_word("swap"), Op::Swap));
    assert!(matches!(parse_word("dup"), Op::Dup));
    assert!(matches!(parse_word("over"), Op::Over));
    assert!(matches!(parse_word("rot"), Op::Rot));
    assert!(matches!(parse_word("drop"), Op::Drop));
    assert!(matches!(parse_word("DUP"), Op::Word(_)));
}

#[test]
fn words_extend_and_find() {
    let mut w = Words::new();
    assert_eq!(w.find("x").err(), Some(OpError::UndefinedWord));
    w.define("x".to_string(), vec![Op::Num(1)]);
    let mut other = Words::new();
    other.define("x".to_string(), vec![Op::Num(2), Op::Num(3)]);
    other.define("y".to_string(), vec![]);
    w.extend(other);
    assert_eq!(w.find("x").unwrap().len(), 2);
    assert_eq!(w.find("y").unwrap().len(), 0);
    assert_eq!(w.definitions().len(), 2);
}

#[test]
fn definition_spans_lines() {
    let (ops, words) = parser(": sq\ndup * ;\n4 sq .").ok().unwrap();
    assert_eq!(ops.len(), 3);
    assert!(matches!(ops[0], Op::Num(4)));
    assert!(matches!(&ops[1], Op::Word(w) if w == "sq"));
    assert!(matches!(ops[2], Op::Dot));
    let body = words.find("sq").unwrap();
    assert_eq!(body.len(), 2);
    assert!(matches!(body[0], Op::Dup));
    assert!(matches!(body[1], Op::Mul));
    let mut m = Machine::new();
    m.words.extend(words);
    let mut out = String::new();
    drive(&mut m, &ops, &HashMap::new(), &mut out).unwrap();
    assert_eq!(out, "16");
}

fn compile_all(words: &Words) -> HashMap<String, Vec<Inst>> {
    lower_batch(words).ok().unwrap().into_iter().collect()
}

#[test]
fn shadow_stack_defers_pushes() {
    let (_, words) = parser(": w 10 20 + ;").ok().unwrap();
    let code = lower_word(&words.find("w").unwrap()).ok().unwrap();
    assert_eq!(code.len(), 4);
    assert!(matches!(code[0], Inst::Const(10)));
    assert!(matches!(code[1], Inst::Const(20)));
    assert!(matches!(code[2], Inst::Bin(BinOp::Add, 0, 1)));
    assert!(matches!(code[3], Inst::Push(2)));
}

#[test]
fn shadow_stack_pops_missing_operands() {
    let code = lower_word(&vec![Op::Dup, Op::Mul]).ok().unwrap();
    assert_eq!(code.len(), 3);
    assert!(matches!(code[0], Inst::Pop));
    assert!(matches!(code[1], Inst::Bin(BinOp::Mul, 0, 0)));
    assert!(matches!(code[2], Inst::Push(1)));
}

#[test]
fn emit_is_not_compiled() {
    assert!(matches!(lower_word(&vec![Op::Num(65), Op::Emit]), Err(JitError::Unsupported)));
    let (_, words) = parser(": a 65 emit ;").ok().unwrap();
    assert!(matches!(lower_batch(&words), Err(JitError::Unsupported)));
}

#[test]
fn unresolved_word_fails_batch() {
    let (_, words) = parser(": a b ; : c 1 emit ;").ok().unwrap();
    assert!(matches!(lower_batch(&words), Err(JitError::UnresolvedWord)));
}

#[test]
fn jit_word_sum() {
    let mut m = Machine::new();
    let (ops, words) = parser(": w 10 20 + ; w .").ok().unwrap();
    m.words.extend(words);
    let mut out = String::new();
    drive(&mut m, &ops, &HashMap::new(), &mut out).unwrap();
    assert_eq!(out, "30");
    let table = compile_all(&m.words);
    m.set_jit(table.keys().cloned().collect());
    let mut out = String::new();
    drive(&mut m, &ops, &table, &mut out).unwrap();
    assert_eq!(out, "30");
}

#[test]
fn flush_before_call() {
    let mut m = Machine::new();
    let (ops, words) = parser(": w 7 x ; : x . ; w").ok().unwrap();
    m.words.extend(words);
    let table = compile_all(&m.words);
    m.set_jit(table.keys().cloned().collect());
    let mut out = String::new();
    drive(&mut m, &ops, &table, &mut out).unwrap();
    assert_eq!(out, "7");
}

#[test]
fn dispatch_prefers_compiled() {
    let mut m = Machine::new();
    let (ops, words) = parser(": w 1 2 + ; w").ok().unwrap();
    m.words.extend(words);
    m.start(&ops);
    assert!(matches!(m.step(), Action::Continue));
    m.set_jit(vec!["w".to_string()]);
    m.start(&ops);
    assert!(matches!(m.step(), Action::CallCompiled(ref n) if n == "w"));
}

#[test]
fn compiled_agrees_with_interpreter() {
    let bodies = ["1 2 + 3 *", "dup * swap -", "over over + rot", "5 . 8 2 / drop", "swap 3 -"];
    for body in bodies {
        let line = format!(": w {} ;", body);
        let (_, words) = parser(&line).ok().unwrap();
        let table = compile_all(&words);
        let start = vec![4, 9, 2];
        let mut m = Machine::new();
        m.words.extend(words);
        m.stack = start.clone();
        let mut out_i = String::new();
        drive(&mut m, &vec![Op::Word("w".to_string())], &HashMap::new(), &mut out_i).unwrap();
        let mut stack = start.clone();
        let mut out_c = String::new();
        run_code(&table["w"], &mut stack, &mut out_c, &table);
        assert_eq!(m.stack, stack, "{}", body);
        assert_eq!(out_i, out_c, "{}", body);
    }
}

#[test]
fn compiled_pop_on_empty_yields_zero() {
    let code = lower_word(&vec![Op::Num(3), Op::Add]).ok().unwrap();
    let mut stack = Vec::new();
    let mut out = String::new();
    run_code(&code, &mut stack, &mut out, &HashMap::new());
    assert_eq!(stack, vec![3]);
}

#[test]
fn step_runs_to_done() {
    let mut m = Machine::new();
    assert!(matches!(m.step(), Action::Done));
    m.start(&vec![Op::Num(2), Op::Dot]);
    assert!(matches!(m.step(), Action::Continue));
    assert!(matches!(m.step(), Action::Output(Out::Int(2))));
    assert!(matches!(m.step(), Action::Continue));
    assert!(matches!(m.step(), Action::Done));
}

#[test]
fn unicode_whitespace_separates_tokens() {
    let toks = tokenize("a\u{3000}b\u{85}c\u{A0}\t 7");
    assert_eq!(toks.len(), 4);
    assert!(matches!(toks[3], Token::Num(7)));
    assert!(tokenize(" \n\u{2028} ").is_empty());
}

#[test]
fn flush_before_call_after_short_stack() {
    let mut m = Machine::new();
    let (ops, words) = parser(": w 5 + x ; : x . ; w").ok().unwrap();
    m.words.extend(words);
    let table = compile_all(&m.words);
    m.set_jit(table.keys().cloned().collect());
    let mut out = String::new();
    drive(&mut m, &ops, &table, &mut out).unwrap();
    assert_eq!(out, "5");
    assert!(m.stack.is_empty());
}
