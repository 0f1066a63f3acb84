use cambridge_asm::compile::{compile, jit, parse};
use cambridge_asm::context::Io;
use cambridge_asm::error::RtError;
use cambridge_asm::exec::Status;
use cambridge_asm::inst_set::{Core, DefaultSet, Extended, InstSet, FIRST_PARENT_ID};
use cambridge_asm::lexer::{ErrorKind, Span};
use cambridge_asm::context::Context;
use cambridge_asm::exec::{DebugInfo, ExecInst, Executor, Source};
use cambridge_asm::inst::Op;
use cambridge_asm::memory::Memory;
use std::collections::BTreeMap;

fn run(src: &str, input: &[u8]) -> Executor {
    let mut exe = jit::<DefaultSet>(src, Io::new(input.to_vec())).unwrap();
    exe.exec::<DefaultSet>();
    exe
}

fn errors(src: &str) -> Vec<(Span, ErrorKind)> {
    match jit::<DefaultSet>(src, Io::new(vec![])) {
        Ok(_) => panic!("expected errors"),
        Err(map) => map.entries,
    }
}

#[test]
fn undefined_label_is_a_link_error_with_its_span() {
    let errs = errors("LDD MISSING\nEND\n\nNONE:\n");
    assert_eq!(errs, vec![(Span { start: 4, end: 11 }, ErrorKind::UndefinedSymbol("MISSING".into()))]);
}

#[test]
fn labelled_memory_takes_lowest_free_address_below() {
    let exe = run("LDD X\nEND\n\n5 1\n6 2\nX: 9\n", b"");
    assert_eq!(exe.ctx.acc, 9);
    assert_eq!(exe.ctx.mem.inner().get(&0), Some(&9));
    assert_eq!(exe.ctx.mem.len(), 3);
}

#[test]
fn labelled_memory_goes_above_when_nothing_is_free_below() {
    let exe = run("LDD X\nLDD Y\nEND\n\n0 1\n1 2\nX: 9\nY: 4\n", b"");
    assert_eq!(exe.ctx.acc, 4);
    assert_eq!(exe.ctx.mem.inner().get(&2), Some(&9));
    assert_eq!(exe.ctx.mem.inner().get(&3), Some(&4));
}

#[test]
fn labelled_memory_fills_gaps_in_order() {
    let (_, mem, _, dbg) = parse::<DefaultSet>("LDD A\nLDD B\nEND\n\n0 1\n2 2\nA: 7\nB: 8\n").unwrap();
    assert_eq!(mem.get(&1), Some(&7));
    assert_eq!(mem.get(&3), Some(&8));
    assert_eq!(dbg.mem.get(&1).map(String::as_str), Some("A"));
}

#[test]
fn linking_is_deterministic() {
    let src = "L: LDD A\nCMP #3\nJPN L\nEND\n\n9 3\nA: 7\nB: 8\n";
    let (p1, m1, _, _) = parse::<DefaultSet>(src).unwrap();
    let (p2, m2, _, _) = parse::<DefaultSet>(src).unwrap();
    assert_eq!(m1, m2);
    assert_eq!(p1.len(), p2.len());
    for (a, i) in &p1 {
        assert_eq!(i.id, p2[a].id);
        assert_eq!(i.op, p2[a].op);
    }
}

#[test]
fn duplicate_bare_memory_is_an_error() {
    let errs = errors("LDM #1\nEND\n\n5 1\n5 2\n");
    assert_eq!(errs, vec![(Span { start: 16, end: 19 }, ErrorKind::DuplicateSymbol("5".into()))]);
}

#[test]
fn duplicate_label_is_an_error() {
    let errs = errors("LDD X\nEND\n\nX: 1\nX: 2\n");
    assert_eq!(errs, vec![(Span { start: 16, end: 20 }, ErrorKind::DuplicateSymbol("X".into()))]);
}

#[test]
fn missing_memory_block_is_an_error() {
    let errs = errors("LDM #1\nEND\n");
    assert_eq!(errs.len(), 1);
    assert_eq!(errs[0].1, ErrorKind::MissingMemoryBlock);
}

#[test]
fn lexical_and_syntax_errors_are_all_reported() {
    let errs = errors("LDM #b12\nFOO #1\nLDM [1;2]\nEND\n\nNONE:\n");
    assert!(errs.contains(&(Span { start: 4, end: 8 }, ErrorKind::ParseIntError)));
    assert!(errs.contains(&(Span { start: 9, end: 12 }, ErrorKind::InvalidOpcode("FOO".into()))));
    assert!(errs.contains(&(Span { start: 20, end: 25 }, ErrorKind::InvalidOperand)));
    assert_eq!(errs.len(), 3);
}

#[test]
fn out_of_range_byte_is_reported_with_context() {
    let exe = run("LDM #300\nOUT\nEND\n\nNONE:\n", b"");
    let text = String::from_utf8(exe.ctx.io.output.clone()).unwrap();
    assert_eq!(
        text,
        "Runtime Error:\n\n1    LDM #300\n2    OUT <-\n3    END\n\nmessage: #x12C is not a valid UTF-8 byte.\n\n"
    );
}

#[test]
fn indirect_miss_names_both_addresses() {
    let exe = run("LDI 200\nEND\n\n200 999\n", b"");
    let text = String::from_utf8(exe.ctx.io.output.clone()).unwrap();
    assert_eq!(
        text,
        "Runtime Error:\n\n1    LDI 200 <-\n2    END\n\nmessage: Invalid indirect access address 999 at memory address 200\n\n"
    );
}

#[test]
fn error_messages() {
    assert_eq!(
        RtError::InvalidIndexedAddr { src: 5, offset: 3 }.message(),
        "Invalid indexed access address `8` from 5 + 3"
    );
    assert_eq!(RtError::InvalidAddr(7).message(), "Invalid memory address `7`");
    assert_eq!(RtError::NoOperand.message(), "Operand missing");
    assert_eq!(RtError::InvalidInstId(255).message(), "0xFF is not a valid instruction ID");
}

#[test]
fn input_instructions() {
    let exe = run("IN\nRIN r1\nIN 200\nEND\n\n200 0\n", b"A  42\nZ");
    assert_eq!(exe.ctx.acc, 65);
    assert_eq!(exe.ctx.gprs[1], 42);
    assert_eq!(exe.ctx.mem.inner().get(&200), Some(&90));
}

#[test]
fn input_exhausted_is_an_error() {
    let mut exe = jit::<DefaultSet>("IN\nEND\n\nNONE:\n", Io::new(vec![])).unwrap();
    match exe.step::<DefaultSet>() {
        Status::Error(RtError::IoError(_)) => {}
        _ => panic!("expected an I/O error"),
    }
}

#[test]
fn rin_rejects_text() {
    let mut exe = jit::<DefaultSet>("RIN\nEND\n\nNONE:\n", Io::new(b"abc\n".to_vec())).unwrap();
    assert!(matches!(exe.step::<DefaultSet>(), Status::Error(RtError::Other(_))));
}

#[test]
fn debug_output() {
    let exe = run("LDM #5\nDBG ACC,#7\nDBG\nEND\n\nNONE:\n", b"");
    assert_eq!(
        String::from_utf8(exe.ctx.io.output).unwrap(),
        "5, 7\nContext { mar: 2, acc: 5, ix: 0, ar: 0, cmp: false }\n"
    );
}

#[test]
fn indexed_and_linear_memory() {
    let exe = run("LDR #2\nLDX 100\nEND\n\n100 [7;2]\n102 3\n", b"");
    assert_eq!(exe.ctx.acc, 3);
    assert_eq!(exe.ctx.mem.inner().get(&101), Some(&7));
}

#[test]
fn arithmetic_wraps_and_shifts() {
    let exe = run("LDM #0\nSUB #1\nMOV r0\nLDM #1\nLSL #3\nMOV r1\nLSL #64\nMOV r2\nLDM #12\nAND #10\nMOV r3\nXOR r3,#1\nOR r3,#16\nADD r4,#2,#3\nEND\n\nNONE:\n", b"");
    assert_eq!(exe.ctx.gprs[0], usize::MAX);
    assert_eq!(exe.ctx.gprs[1], 8);
    assert_eq!(exe.ctx.gprs[2], 0);
    assert_eq!(exe.ctx.gprs[3], 25);
    assert_eq!(exe.ctx.gprs[4], 5);
}

#[test]
fn compare_and_jump() {
    let src = "0 LDM #4\n1 CMP #4\n2 JPE 4\n3 LDM #9\n4 CMI 200\n5 JPN 7\n6 INC ACC\n7 STO 201\n8 END\n\n200 201\n201 4\n";
    let exe = run(src, b"");
    assert_eq!(exe.ctx.acc, 5);
    assert!(exe.ctx.cmp);
    assert_eq!(exe.ctx.mem.inner().get(&201), Some(&5));
}

#[test]
fn zero_clears_operands() {
    let exe = run("LDM #4\nLDM r2,#6\nZERO r2,200\nEND\n\n200 9\n", b"");
    assert_eq!(exe.ctx.acc, 4);
    assert_eq!(exe.ctx.gprs[2], 0);
    assert_eq!(exe.ctx.mem.inner().get(&200), Some(&0));
}

#[test]
fn instruction_ids() {
    assert_eq!(Extended::Parent(Core::LDM).id(), FIRST_PARENT_ID);
    assert_eq!(Extended::from_id(FIRST_PARENT_ID + 17), Some(Extended::Parent(Core::ADD)));
    assert_eq!(Extended::from_name("call").map(|i| i.name()), Some("CALL".to_string()));
    assert_eq!(Core::from_name("lsr"), Some(Core::LSR));
    assert_eq!(Core::from_name("call"), None);
}

#[test]
fn compiled_program_keeps_debug_info_on_request() {
    let with = compile::<DefaultSet>("X: END\n\nNONE:\n", true).unwrap();
    let without = compile::<DefaultSet>("X: END\n\nNONE:\n", false).unwrap();
    assert!(with.debug_info.is_some());
    assert!(without.debug_info.is_none());
    assert_eq!(with.prog[0].1.inst, "END");
}

#[test]
fn comments_and_crlf() {
    let exe = run("// a comment\r\nLDM #3 // three\r\nEND\r\n\r\nNONE:\r\n", b"");
    assert_eq!(exe.ctx.acc, 3);
}

fn first_error(src: &str) -> RtError {
    let mut exe = jit::<DefaultSet>(src, Io::new(vec![])).unwrap();
    loop {
        match exe.step::<DefaultSet>() {
            Status::Continue => {}
            Status::Complete => panic!("expected a runtime error"),
            Status::Error(e) => return e,
        }
    }
}

#[test]
fn runtime_error_variants() {
    assert_eq!(first_error("ADD\nEND\n\nNONE:\n"), RtError::NoOperand);
    assert_eq!(first_error("ADD CMP\nEND\n\nNONE:\n"), RtError::InvalidOperand);
    assert_eq!(first_error("ADD 200,200,200,200\nEND\n\n200 1\n"), RtError::InvalidMultiOp);
    assert_eq!(
        first_error("LDR #5\nLDX 200\nEND\n\n200 1\n"),
        RtError::InvalidIndexedAddr { src: 200, offset: 5 }
    );
    assert_eq!(first_error("LDM #300\nOUT\nEND\n\nNONE:\n"), RtError::InvalidUtf8Byte(300));
    assert_eq!(first_error("0 JMP 200\n1 END\n\n200 1\n"), RtError::InvalidProgAddr(200));
    assert_eq!(
        first_error("MOV (ACC)\nEND\n\n200 0\n"),
        RtError::InvalidIndirectAddr { src: 0, redirect: 0 }
    );
    assert_eq!(
        first_error("ADD (200)\nEND\n\n200 7\n"),
        RtError::InvalidIndirectAddr { src: 200, redirect: 7 }
    );
}

#[test]
fn unknown_instruction_id_is_an_error() {
    let mut prog = BTreeMap::new();
    prog.insert(0, ExecInst::new(999, Op::Null));
    let mut exe = Executor::new(
        Source::new("BAD"),
        prog,
        Context::new(Memory::new(BTreeMap::new())),
        DebugInfo::default(),
    );
    assert!(matches!(exe.step::<DefaultSet>(), Status::Error(RtError::InvalidInstId(999))));
}

#[test]
fn indirect_register_operand_writes_memory() {
    let exe = run("LDM #200\nMOV (ACC),#7\nLDD 200\nEND\n\n200 0\n", b"");
    assert_eq!(exe.ctx.acc, 7);
}

#[test]
fn program_listing() {
    let exe = jit::<DefaultSet>("LDM #5\nADD ACC,(200),r3\nEND\n\n200 1\n", Io::new(vec![])).unwrap();
    assert_eq!(
        exe.display(),
        "Executor {     0: #5\n     1: ACC,(200),r3\n     2: \n}"
    );
    assert_eq!(Op::from("be").to_text(), "be");
}

#[test]
fn program_listing_with_opcodes() {
    let exe = jit::<DefaultSet>("LDM #5\nEND\n\nNONE:\n", Io::new(vec![])).unwrap();
    assert_eq!(
        exe.display_with_opcodes::<DefaultSet>(),
        Ok("Executor {\n     0: LDM #5\n     1: END \n}".to_string())
    );
    let shifted = jit::<DefaultSet>("LSR #1\nEND\n\nNONE:\n", Io::new(vec![])).unwrap();
    assert_eq!(shifted.display_with_opcodes::<Core>(), Err(FIRST_PARENT_ID + 23));
}

#[test]
fn unused_duplicate_labels_are_an_error() {
    let errs = errors("A: LDM #1\nA: END\n\nNONE:\n");
    assert_eq!(errs, vec![(Span { start: 10, end: 16 }, ErrorKind::DuplicateSymbol("A".into()))]);
    let errs = errors("END\n\nX: 1\nX: 2\n");
    assert_eq!(errs.len(), 1);
    assert_eq!(errs[0].1, ErrorKind::DuplicateSymbol("X".into()));
}

#[test]
fn undefined_label_in_a_slot_reports_that_slot() {
    let errs = errors("ADD ACC,MISSING\nEND\n\n200 1\n");
    assert_eq!(errs, vec![(Span { start: 8, end: 15 }, ErrorKind::UndefinedSymbol("MISSING".into()))]);
}

#[test]
fn line_errors_are_kept_and_linking_is_skipped() {
    let errs = errors("FOO 1\nLDD MISSING\n\n5 x y\n");
    assert_eq!(
        errs,
        vec![
            (Span { start: 21, end: 24 }, ErrorKind::SyntaxError),
            (Span { start: 0, end: 3 }, ErrorKind::InvalidOpcode("FOO".into())),
        ]
    );
}

#[test]
fn missing_block_keeps_lexical_errors() {
    let errs = errors("LDM #b12\n");
    assert_eq!(
        errs,
        vec![
            (Span { start: 4, end: 8 }, ErrorKind::ParseIntError),
            (Span { start: 0, end: 0 }, ErrorKind::MissingMemoryBlock),
        ]
    );
}
