use cambridge_asm::compile::{compile, jit};
use cambridge_asm::context::{Context, Io};
use cambridge_asm::exec::{DebugInfo, ExecInst, Executor, Source, Status};
use cambridge_asm::inst::Op;
use cambridge_asm::inst_set::{Core, DefaultSet, Extended, InstSet};
use cambridge_asm::memory::Memory;
use std::collections::BTreeMap;

fn core_id(c: Core) -> u64 {
    Extended::Parent(c).id()
}

#[test]
fn mod_exec() {
    let mut prog = BTreeMap::new();
    prog.insert(0, ExecInst::new(core_id(Core::INC), Op::from("202")));
    prog.insert(1, ExecInst::new(core_id(Core::ADD), Op::from("203,201")));
    prog.insert(2, ExecInst::new(core_id(Core::CMP), Op::from("203,204")));
    prog.insert(3, ExecInst::new(core_id(Core::JPN), Op::from("0")));
    prog.insert(4, ExecInst::new(core_id(Core::LDD), Op::from("202")));
    prog.insert(5, ExecInst::new(core_id(Core::END), Op::from("")));

    let mut mem = BTreeMap::new();
    for (a, v) in [(200, 0), (201, 5), (202, 0), (203, 0), (204, 15)] {
        mem.insert(a, v);
    }

    let mut exec = Executor::new(
        Source::new("None"),
        prog,
        Context::new(Memory::new(mem)),
        DebugInfo::default(),
    );

    exec.exec::<DefaultSet>();

    assert_eq!(exec.ctx.acc, 3);
}

const HELLO: &str = "LDM #72
OUT
LDM #69
OUT
LDM #76
OUT
OUT
LDM #79
OUT
LDM #10
OUT
LDM #207
END

NONE:
";

const DIVISION: &str = "// division by repeated subtraction
0 INC 202
1 ADD 203,201
2 CMP 203,204
3 JPN 0
4 LDD 202
5 END

200 0
201 5
202 0
203 0
204 15
";

const FUNCTIONS: &str = "LDM #60
CALL ADDFIVE
OUT
END
ADDFIVE: ADD #5
RET

NONE:
";

const PROGRAMS: [(&str, usize, &[u8], &[u8]); 3] = [
    (HELLO, 207, b"", b"HELLO\n"),
    (DIVISION, 3, b"", b""),
    (FUNCTIONS, 65, b"", b"A"),
];

#[test]
fn exec() {
    let steps: [(Core, &str); 14] = [
        (Core::LDD, "200"),
        (Core::STO, "202"),
        (Core::STO, "203"),
        (Core::LDD, "202"),
        (Core::INC, "ACC"),
        (Core::STO, "202"),
        (Core::LDD, "203"),
        (Core::ADD, "201"),
        (Core::STO, "203"),
        (Core::CMP, "204"),
        (Core::JPN, "3"),
        (Core::LDD, "202"),
        (Core::OUT, ""),
        (Core::END, ""),
    ];
    let mut prog = BTreeMap::new();
    for (i, (c, op)) in steps.into_iter().enumerate() {
        prog.insert(i, ExecInst::new(core_id(c), Op::from(op)));
    }
    let mut mem = BTreeMap::new();
    for (a, v) in [(200, 0), (201, 5), (202, 0), (203, 0), (204, 75)] {
        mem.insert(a, v);
    }
    let mut exec = Executor::new(
        Source::new("None"),
        prog,
        Context::new(Memory::new(mem)),
        DebugInfo::default(),
    );
    exec.exec::<DefaultSet>();
    assert_eq!(exec.ctx.acc, 15);
}

#[test]
fn test() {
    for (prog, exp, inp, _) in PROGRAMS {
        let mut exe = jit::<DefaultSet>(prog, Io::new(inp.to_vec())).unwrap();
        exe.exec::<DefaultSet>();
        assert_eq!(exe.ctx.acc, exp);
    }
}

#[test]
fn division_of_sixty_five_by_five() {
    let src = DIVISION.replace("204 15", "204 65");
    let mut exe = jit::<DefaultSet>(&src, Io::new(vec![])).unwrap();
    exe.exec::<DefaultSet>();
    assert_eq!(exe.ctx.acc, 13);
}

#[test]
fn parse_test() {
    for (prog, exp, inp, out) in PROGRAMS {
        let mut exe = jit::<DefaultSet>(prog, Io::new(inp.to_vec())).unwrap();
        exe.exec::<DefaultSet>();
        assert_eq!(exe.ctx.acc, exp, "Expected '{}' in ACC, got '{}'", exp, exe.ctx.acc);
        assert_eq!(exe.ctx.io.output, out);
    }
}

#[test]
fn mod_test() {
    for (prog, exp, inp, out) in PROGRAMS {
        let mut exe = jit::<DefaultSet>(prog, Io::new(inp.to_vec())).unwrap();
        exe.exec::<DefaultSet>();
        assert_eq!(exe.ctx.acc, exp, "Expected '{}' in ACC, got '{}'", exp, exe.ctx.acc);
        assert_eq!(
            exe.ctx.io.output,
            out,
            "Expected '{}' in output, got '{}'",
            String::from_utf8_lossy(out),
            String::from_utf8_lossy(&exe.ctx.io.output)
        );
    }
}

#[test]
fn compile_test() {
    for (prog, exp, inp, out) in PROGRAMS {
        let compiled = compile::<DefaultSet>(prog, false).unwrap();
        let mut exe = compiled.to_executor::<DefaultSet>(Io::new(inp.to_vec()));
        exe.exec::<DefaultSet>();
        assert_eq!(exe.ctx.acc, exp, "Expected '{}' in ACC, got '{}'", exp, exe.ctx.acc);
        assert_eq!(exe.ctx.io.output, out);
    }
}

#[test]
fn call_saves_return_address() {
    let mut exe = jit::<DefaultSet>(FUNCTIONS, Io::new(vec![])).unwrap();
    assert!(matches!(exe.step::<DefaultSet>(), Status::Continue));
    assert!(matches!(exe.step::<DefaultSet>(), Status::Continue));
    assert_eq!(exe.ctx.ret, 2);
    assert_eq!(exe.ctx.mar, 4);
    assert!(matches!(exe.step::<DefaultSet>(), Status::Continue));
    assert_eq!(exe.ctx.acc, 65);
    assert!(matches!(exe.step::<DefaultSet>(), Status::Continue));
    assert_eq!(exe.ctx.mar, 2);
    assert_eq!(exe.ctx.ret, 2);
}

#[test]
fn jump_is_not_followed_by_increment() {
    let mut exe = jit::<DefaultSet>("0 JMP 2\n1 LDM #1\n2 LDM #7\n3 END\n\nNONE:\n", Io::new(vec![])).unwrap();
    assert!(matches!(exe.step::<DefaultSet>(), Status::Continue));
    assert_eq!(exe.ctx.mar, 2);
    assert!(!exe.ctx.flow_override_reg);
    assert!(matches!(exe.step::<DefaultSet>(), Status::Continue));
    assert_eq!(exe.ctx.mar, 3);
    assert_eq!(exe.ctx.acc, 7);
    assert!(matches!(exe.step::<DefaultSet>(), Status::Continue));
    assert!(matches!(exe.step::<DefaultSet>(), Status::Complete));
    assert_eq!(exe.count, 3);
}

fn assert_send_sync<T: Send + Sync>() {}

#[test]
fn ensure_send_sync() {
    assert_send_sync::<Executor>();
}
