use taro_lang::builtin::{format_impl, range, FormatError, ObjectRangeIter, RangeError};
use taro_lang::chunk::{Chunk, ChunkError};
use taro_lang::cli::{parse_args, Action};
use taro_lang::heap::ObjectHeap;
use taro_lang::instruct::{ByteCode, Instruction, UpvalueDesc};
use taro_lang::object::ObjectHandle;
use taro_lang::parse::{compile, unescape_string, CompileError, ParseErrorKind, Prec};
use taro_lang::repl::ReplBuffer;

fn args(list: &[&str]) -> Vec<String> {
    list.iter().map(|s| s.to_string()).collect()
}

fn strings(list: &[&str]) -> Vec<String> {
    list.iter().map(|s| s.to_string()).collect()
}

// ---------------------------------------------------------------------------
//  What is written to a chunk reads back the same
// ---------------------------------------------------------------------------

#[test]
fn chunk_reads_back_what_was_written() {
    let mut heap = ObjectHeap::new();
    let seven = heap.alloc_integer_instance(7);
    let function = heap.alloc_integer_instance(1234);
    let program = vec![
        Instruction::Nil,
        Instruction::Constant(seven),
        Instruction::DefineGlobal("answer".to_string()),
        Instruction::GetLocal(300),
        Instruction::Jump(65535),
        Instruction::Call(255),
        Instruction::Invoke("method".to_string(), 3),
        Instruction::Closure {
            function,
            upvalues: vec![UpvalueDesc { is_local: true, index: 1 }, UpvalueDesc { is_local: false, index: 200 }],
        },
        Instruction::CallKw { pos_count: 2, kw_count: 2, kw_names: strings(&["a", "b"]) },
        Instruction::ForInNext(12),
        Instruction::Return,
    ];
    let mut chunk = Chunk::new();
    for (i, inst) in program.iter().enumerate() {
        chunk.write_instruction(inst.clone(), i + 1, 0, &mut heap);
    }
    let mut ip = 0;
    for inst in &program {
        let read = chunk.read_instruction(&mut ip, &heap).unwrap();
        assert_eq!(format!("{:?}", read), format!("{:?}", inst));
    }
    let n = chunk.codes.len();
    assert_eq!(ip, n);
    assert_eq!(chunk.read_instruction(&mut ip, &heap).unwrap_err(), ChunkError::IpOutOfRange(n, n));
}

#[test]
fn chunk_rejects_unknown_and_truncated_code() {
    let heap = ObjectHeap::new();
    let mut chunk = Chunk::new();
    chunk.codes.push(255);
    chunk.lines.push(1);
    chunk.columns.push(1);
    let mut ip = 0;
    assert_eq!(chunk.read_instruction(&mut ip, &heap).unwrap_err(), ChunkError::InvalidByteCode(255));

    let mut chunk = Chunk::new();
    chunk.codes.push(ByteCode::Constant.to_byte());
    chunk.codes.push(0);
    chunk.codes.push(0);
    chunk.lines.extend([1, 1, 1]);
    chunk.columns.extend([1, 1, 1]);
    let mut ip = 0;
    assert_eq!(chunk.read_instruction(&mut ip, &heap).unwrap_err(), ChunkError::ConstantOutOfRange(0, 0));

    let mut chunk = Chunk::new();
    chunk.codes.push(ByteCode::Jump.to_byte());
    chunk.codes.push(1);
    chunk.lines.extend([1, 1]);
    chunk.columns.extend([1, 1]);
    let mut ip = 0;
    assert_eq!(chunk.read_instruction(&mut ip, &heap).unwrap_err(), ChunkError::IpOutOfRange(2, 2));
}

#[test]
fn chunk_name_operand_must_be_a_string_constant() {
    let mut heap = ObjectHeap::new();
    let n = heap.alloc_integer_instance(5);
    let mut chunk = Chunk::new();
    chunk.write_instruction(Instruction::Constant(n), 1, 1, &mut heap);
    chunk.codes[0] = ByteCode::GetGlobal.to_byte();
    let mut ip = 0;
    assert_eq!(chunk.read_instruction(&mut ip, &heap).unwrap_err(), ChunkError::ExpectedStringConstant);
}

#[test]
fn bytecodes_and_bytes_convert_both_ways() {
    let mut known = 0;
    for b in 0..=255u8 {
        if let Some(op) = ByteCode::from_byte(b) {
            assert_eq!(op.to_byte(), b);
            assert_eq!(op as u8, b);
            known += 1;
        }
    }
    assert_eq!(known, 50);
}

// ---------------------------------------------------------------------------
//  Collection keeps exactly what is reachable
// ---------------------------------------------------------------------------

#[test]
fn garbage_collection_frees_exactly_the_unreachable() {
    let mut heap = ObjectHeap::new();
    let kept_item = heap.alloc_integer_instance(100_000);
    let kept = heap.alloc_list_instance(vec![kept_item]);
    let lost_item = heap.alloc_integer_instance(200_000);
    let lost = heap.alloc_list_instance(vec![lost_item]);
    let interned = heap.alloc_string_instance("kept by the cache".to_string());
    let small = heap.alloc_integer_instance(42);
    heap.mark_object(kept);
    heap.collect_garbage();
    assert!(heap.get(kept).is_some());
    assert!(heap.get(kept_item).is_some());
    assert!(heap.get(lost).is_none());
    assert!(heap.get(lost_item).is_none());
    assert!(heap.get(interned).is_some());
    assert!(heap.get(small).is_some());
    assert_eq!(heap.get_bool_instance(heap.true_instance()), Some(true));
    // Freed slots are used again.
    let again = heap.alloc_integer_instance(300_000);
    assert!(again == lost || again == lost_item);
}

#[test]
fn interning_shares_strings_and_small_integers() {
    let mut heap = ObjectHeap::new();
    let a = heap.alloc_string_instance("same".to_string());
    let b = heap.alloc_string_instance("same".to_string());
    assert_eq!(a, b);
    let c = heap.alloc_integer_instance(-5);
    let d = heap.alloc_integer_instance(-5);
    assert_eq!(c, d);
    let e = heap.alloc_integer_instance(257);
    let f = heap.alloc_integer_instance(257);
    assert_ne!(e, f);
    assert_eq!(heap.alloc_bool_instance(true), heap.true_instance());
}

// ---------------------------------------------------------------------------
//  range
// ---------------------------------------------------------------------------

fn drain(mut it: ObjectRangeIter) -> Vec<i64> {
    let mut out = Vec::new();
    while let Some(v) = it.next_value() {
        out.push(v);
    }
    out
}

#[test]
fn range_yields_as_many_values_as_its_length() {
    for (start, stop, step) in [(0, 10, 3), (10, 0, -3), (5, 5, 1), (0, -3, 1), (i64::MAX - 2, i64::MAX, 1), (-3, 3, 2)] {
        let it = ObjectRangeIter::new(start, stop, step);
        let values = drain(it);
        assert_eq!(values.len() as i64, it.len());
    }
    assert_eq!(drain(ObjectRangeIter::new(0, 10, 3)), vec![0, 3, 6, 9]);
    assert_eq!(drain(ObjectRangeIter::new(10, 0, -3)), vec![10, 7, 4, 1]);
    assert_eq!(drain(ObjectRangeIter::new(i64::MAX - 2, i64::MAX, 1)), vec![i64::MAX - 2, i64::MAX - 1]);
}

#[test]
fn range_reads_its_arguments() {
    let mut heap = ObjectHeap::new();
    let two = heap.alloc_integer_instance(2);
    let nine = heap.alloc_integer_instance(9);
    let zero = heap.alloc_integer_instance(0);
    let text = heap.alloc_string_instance("x".to_string());
    assert_eq!(range(&heap, &vec![nine]), Ok(ObjectRangeIter::new(0, 9, 1)));
    assert_eq!(range(&heap, &vec![two, nine]), Ok(ObjectRangeIter::new(2, 9, 1)));
    assert_eq!(range(&heap, &vec![two, nine, two]), Ok(ObjectRangeIter::new(2, 9, 2)));
    assert_eq!(range(&heap, &vec![]), Err(RangeError::ArgumentCount(0)));
    assert_eq!(range(&heap, &vec![two, two, two, two]), Err(RangeError::ArgumentCount(4)));
    assert_eq!(range(&heap, &vec![two, text]), Err(RangeError::NotAnInteger(1)));
    assert_eq!(range(&heap, &vec![two, nine, zero]), Err(RangeError::StepZero));
}

// ---------------------------------------------------------------------------
//  format
// ---------------------------------------------------------------------------

#[test]
fn format_fills_placeholders_in_order() {
    assert_eq!(format_impl(&strings(&["{} + {} = {}", "1", "2", "3"])), Ok("1 + 2 = 3".to_string()));
    assert_eq!(format_impl(&strings(&["{{}} {}", "x"])), Ok("{} x".to_string()));
    assert_eq!(format_impl(&strings(&["plain"])), Ok("plain".to_string()));
}

#[test]
fn format_errors() {
    assert_eq!(format_impl(&strings(&[])), Err(FormatError::MissingFormatString));
    assert_eq!(
        format_impl(&strings(&["{} {}", "a"])),
        Err(FormatError::NotEnoughArguments { placeholders: 2, given: 1 })
    );
    assert_eq!(format_impl(&strings(&["{x}"])), Err(FormatError::UnclosedBrace));
    assert_eq!(format_impl(&strings(&["a } b"])), Err(FormatError::StrayBrace));
    assert_eq!(
        format_impl(&strings(&["{}", "a", "b"])),
        Err(FormatError::TooManyArguments { placeholders: 1, given: 2 })
    );
    assert_eq!(
        FormatError::NotEnoughArguments { placeholders: 2, given: 1 }.message(),
        "not enough arguments: format string has at least 2 placeholder(s), got 1 argument(s)"
    );
    assert_eq!(
        FormatError::TooManyArguments { placeholders: 1, given: 12 }.message(),
        "too many arguments: 1 placeholder(s), 12 argument(s)"
    );
}

// ---------------------------------------------------------------------------
//  Command line
// ---------------------------------------------------------------------------

#[test]
fn command_line_actions() {
    assert!(matches!(parse_args(&args(&[])), Action::Repl));
    assert!(matches!(parse_args(&args(&["-h"])), Action::Help));
    assert!(matches!(parse_args(&args(&["--version"])), Action::Version));
    assert!(matches!(parse_args(&args(&["-"])), Action::RunStdin));
    assert!(matches!(parse_args(&args(&["script.taro", "-h"])), Action::RunFile(f) if f == "script.taro"));
    assert!(matches!(parse_args(&args(&["-c", "print(1);"])), Action::RunCommand(c) if c == "print(1);"));
    assert!(matches!(parse_args(&args(&["-eprint(2);"])), Action::RunCommand(c) if c == "print(2);"));
    assert!(matches!(parse_args(&args(&["--command=x", "--eval=y"])), Action::RunCommand(c) if c == "y"));
    assert!(matches!(parse_args(&args(&["-c", "x", "-h"])), Action::Help));
    assert!(matches!(parse_args(&args(&["--eval"])), Action::MissingArgument(o) if o == "--eval"));
    assert!(matches!(parse_args(&args(&["--nope"])), Action::UnknownOption(o) if o == "--nope"));
}

// ---------------------------------------------------------------------------
//  Interactive input
// ---------------------------------------------------------------------------

#[test]
fn repl_buffer_collects_until_complete() {
    let mut buffer = ReplBuffer::new();
    assert!(buffer.is_empty());
    assert_eq!(buffer.prompt(), ">> ");
    assert!(buffer.push_line("fun f() {").is_none());
    assert_eq!(buffer.prompt(), ".. ");
    let done = buffer.push_line("  return 1;   }  ").unwrap();
    assert_eq!(done.source, "fun f() {\n  return 1;   }  \n");
    assert_eq!(done.history_entry, Some("fun f() {\n  return 1;   }".to_string()));
    assert!(buffer.is_empty());
    let blank = buffer.push_line("   ").unwrap();
    assert_eq!(blank.history_entry, None);
    assert!(buffer.push_line("\"open").is_none());
    buffer.interrupt();
    assert!(buffer.is_empty());
}

// ---------------------------------------------------------------------------
//  Compiler pieces
// ---------------------------------------------------------------------------

#[test]
fn precedence_climbs_one_level_at_a_time() {
    let order = [
        Prec::Lowest, Prec::Assignment, Prec::Or, Prec::And, Prec::Equality, Prec::Comparison,
        Prec::Term, Prec::Factor, Prec::Unary, Prec::Call, Prec::Primary,
    ];
    for w in order.windows(2) {
        assert_eq!(w[0].next(), w[1]);
        assert!(w[0].looser_than(w[1]));
        assert!(!w[1].looser_than(w[0]));
    }
    assert_eq!(Prec::Primary.next(), Prec::Primary);
}

#[test]
fn escapes_in_string_literals() {
    assert_eq!(unescape_string("a\\nb\\t\\\\\\\"").unwrap(), "a\nb\t\\\"");
    assert_eq!(unescape_string("plain").unwrap(), "plain");
    assert_eq!(unescape_string("bad \\q"), Err('q'));
    assert_eq!(unescape_string("end \\"), Err('\\'));
}

#[test]
fn compile_reports_each_kind_of_error() {
    let mut heap = ObjectHeap::new();
    assert!(matches!(compile("var s = \"open;", &mut heap), Err(CompileError::Scan(_))));
    match compile("var = 1;", &mut heap) {
        Err(CompileError::Parse(errors)) => {
            assert!(!errors.is_empty());
            assert!(matches!(errors[0].kind, ParseErrorKind::ExpectedToken(m) if m == "Expect variable name."));
        }
        other => panic!("unexpected: {:?}", other.is_ok()),
    }
    let f = compile("var x = 1; print(x);", &mut heap).unwrap();
    assert!(heap.get_function(f).is_some());
    assert!(!f.is_nil());
    let _ = ObjectHandle::nil();
}

// ---------------------------------------------------------------------------
//  Compiled code is whole instructions that read back one after the other
// ---------------------------------------------------------------------------

fn read_all(chunk: &Chunk, heap: &ObjectHeap) -> Vec<Instruction> {
    let mut ip = 0;
    let mut out = Vec::new();
    while ip < chunk.codes.len() {
        out.push(chunk.read_instruction(&mut ip, heap).unwrap());
    }
    assert_eq!(ip, chunk.codes.len());
    out
}

#[test]
fn compiled_code_reads_back_instruction_by_instruction() {
    let mut heap = ObjectHeap::new();
    let source = "var total = 0;\n\
                  fun add(a, b = 2) { return a + b; }\n\
                  for (var i = 0; i < 10; i = i + 1) {\n\
                      if (i == 3 and total > 1) { continue; } else { total = add(total, i); }\n\
                      while (true or false) { break; }\n\
                      if (i > 8) break;\n\
                  }\n\
                  for x in [1, 2, 3] { total = total + x; }\n\
                  print(total);";
    let f = compile(source, &mut heap).unwrap();
    let chunk = heap.get_function(f).unwrap().chunk.clone();
    let program = read_all(&chunk, &heap);
    assert!(matches!(program.last(), Some(Instruction::Return)));
    let mut inner = 0;
    for inst in &program {
        if let Instruction::Closure { function, .. } = inst {
            let body = heap.get_function(*function).unwrap().chunk.clone();
            let code = read_all(&body, &heap);
            assert!(matches!(code.last(), Some(Instruction::Return)));
            inner += 1;
        }
    }
    assert_eq!(inner, 1);
}

// ---------------------------------------------------------------------------
//  Global declarations, function declarations and misplaced loop jumps
// ---------------------------------------------------------------------------

#[test]
fn global_declarations_define_their_value_or_nil() {
    let mut heap = ObjectHeap::new();
    let f = compile("var x; var y = 1 + 2;", &mut heap).unwrap();
    let chunk = heap.get_function(f).unwrap().chunk.clone();
    let program = read_all(&chunk, &heap);
    assert_eq!(program.len(), 8);
    assert!(matches!(program[0], Instruction::Nil));
    assert!(matches!(&program[1], Instruction::DefineGlobal(n) if n.as_str() == "x"));
    match (&program[2], &program[3]) {
        (Instruction::Constant(a), Instruction::Constant(b)) => {
            assert_eq!(heap.get_integer_instance(*a), Some(1));
            assert_eq!(heap.get_integer_instance(*b), Some(2));
        },
        _ => panic!("expected two constants"),
    }
    assert!(matches!(program[4], Instruction::Add));
    assert!(matches!(&program[5], Instruction::DefineGlobal(n) if n.as_str() == "y"));
    assert!(matches!(program[6], Instruction::Nil));
    assert!(matches!(program[7], Instruction::Return));
}

#[test]
fn function_declaration_compiles_its_body_and_arity() {
    let mut heap = ObjectHeap::new();
    let f = compile("fun three(a, b, c) { a; 7 * 2; }", &mut heap).unwrap();
    let chunk = heap.get_function(f).unwrap().chunk.clone();
    let program = read_all(&chunk, &heap);
    let inner = match &program[0] {
        Instruction::Closure { function, upvalues } => {
            assert!(upvalues.is_empty());
            *function
        },
        _ => panic!("expected a closure"),
    };
    assert!(matches!(&program[1], Instruction::DefineGlobal(n) if n.as_str() == "three"));
    let fun = heap.get_function(inner).unwrap();
    assert_eq!(fun.arity, 3);
    assert_eq!(fun.name.as_str(), "three");
    let names: Vec<&str> = fun.param_names.iter().map(|s| s.as_str()).collect();
    assert_eq!(names, vec!["a", "b", "c"]);
    let body = read_all(&fun.chunk.clone(), &heap);
    assert_eq!(body.len(), 8);
    assert!(matches!(body[0], Instruction::GetLocal(1)));
    assert!(matches!(body[1], Instruction::Pop));
    assert!(matches!(body[4], Instruction::Mul));
    assert!(matches!(body[5], Instruction::Pop));
    assert!(matches!(body[6], Instruction::Nil));
    assert!(matches!(body[7], Instruction::Return));
}

#[test]
fn loop_jumps_outside_a_loop_are_refused() {
    for source in ["break;", "continue;", "break; 1;", "continue; var x = 2;"] {
        let mut heap = ObjectHeap::new();
        assert!(compile(source, &mut heap).is_err(), "{source}");
    }
}

#[test]
fn allocated_bytes_follow_allocation_and_sweeping() {
    let size = std::mem::size_of::<taro_lang::object::Object>();
    let mut heap = ObjectHeap::new();
    let start = heap.bytes_allocated();
    assert_eq!(start, 17 * size);
    let kept = heap.alloc_integer_instance(100_000);
    let lost = heap.alloc_integer_instance(200_000);
    assert_eq!(heap.bytes_allocated(), start + 2 * size);
    heap.mark_object(kept);
    heap.collect_garbage();
    assert!(heap.get(lost).is_none());
    assert_eq!(heap.bytes_allocated(), start + size);
}
