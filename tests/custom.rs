use cambridge_asm::compile::jit;
use cambridge_asm::context::{Context, Io};
use cambridge_asm::error::{RtError, RtResult};
use cambridge_asm::inst::Op;
use cambridge_asm::inst_set::{Core, InstSet};

const EXT_PROG: &str = "LDM #65
OUT
EXT
LDM #0
LDM #1
LDM #14
INC ACC
DEC ACC
LDD NONE
ADD #65
OUT
END

NONE:
";

/// The core set extended by one instruction, `EXT`.
#[derive(Clone, Copy)]
enum Ext {
    Ext,
    Parent(Core),
}

const EXT_FIRST_PARENT: u64 = 1;

impl InstSet for Ext {
    fn from_name(name: &str) -> Option<Self> {
        if name.eq_ignore_ascii_case("EXT") {
            Some(Ext::Ext)
        } else {
            Core::from_name(name).map(Ext::Parent)
        }
    }

    fn id(&self) -> u64 {
        match self {
            Ext::Ext => 0,
            Ext::Parent(c) => EXT_FIRST_PARENT + c.id(),
        }
    }

    fn from_id(id: u64) -> Option<Self> {
        if id >= EXT_FIRST_PARENT {
            Core::from_id(id - EXT_FIRST_PARENT).map(Ext::Parent)
        } else {
            Some(Ext::Ext)
        }
    }

    fn name(&self) -> String {
        match self {
            Ext::Ext => "EXT".to_string(),
            Ext::Parent(c) => c.name(),
        }
    }

    fn exec(&self, ctx: &mut Context, op: &Op) -> RtResult<()> {
        match self {
            Ext::Ext => {
                ctx.io.output.extend_from_slice(b"This is a custom instruction\n");
                ctx.gprs[0] = 20;
                Ok(())
            }
            Ext::Parent(c) => c.exec(ctx, op),
        }
    }
}

fn run_extension() -> (usize, usize, Vec<u8>) {
    let mut e = jit::<Ext>(EXT_PROG, Io::new(vec![])).unwrap();
    e.exec::<Ext>();
    (e.ctx.acc, e.ctx.gprs[0], e.ctx.io.output)
}

#[test]
fn extension() {
    let (acc, r0, out) = run_extension();
    assert_eq!(acc, 65);
    assert_eq!(r0, 20);
    assert_eq!(out, b"AThis is a custom instruction\nA");
}

#[test]
fn int_test_extension() {
    let (acc, r0, out) = run_extension();
    assert_eq!(acc, 65);
    assert_eq!(r0, 20);
    assert_eq!(out, b"AThis is a custom instruction\nA");
}

#[test]
fn test_ext() {
    let (acc, r0, _) = run_extension();
    assert_eq!(acc, 65);
    assert_eq!(r0, 20);
}

#[test]
fn extension_test_ext() {
    let (acc, _, _) = run_extension();
    assert_eq!(acc, 65);
}

/// A set that writes letters.
#[derive(Clone, Copy)]
enum Letters {
    H,
    E,
    L,
    O,
    End,
}

const LETTERS: [(Letters, &str); 5] = [
    (Letters::H, "H"),
    (Letters::E, "E"),
    (Letters::L, "L"),
    (Letters::O, "O"),
    (Letters::End, "END"),
];

impl InstSet for Letters {
    fn from_name(name: &str) -> Option<Self> {
        LETTERS
            .iter()
            .find(|(_, n)| n.eq_ignore_ascii_case(name))
            .map(|(l, _)| *l)
    }

    fn id(&self) -> u64 {
        *self as u64
    }

    fn from_id(id: u64) -> Option<Self> {
        LETTERS.get(id as usize).map(|(l, _)| *l)
    }

    fn name(&self) -> String {
        LETTERS[*self as usize].1.to_string()
    }

    fn exec(&self, ctx: &mut Context, op: &Op) -> RtResult<()> {
        match self {
            Letters::End => cambridge_asm::io::end(ctx, op),
            l => {
                ctx.io.output.extend_from_slice(LETTERS[*l as usize].1.as_bytes());
                Ok(())
            }
        }
    }
}

#[test]
fn custom() {
    const PROG: &str = "H
E
L
L
O
END

NONE:
";
    let mut e = jit::<Letters>(PROG, Io::new(vec![])).unwrap();
    e.exec::<Letters>();
    assert_eq!(e.ctx.io.output, b"HELLO");
}

/// A set working on the bits of floating-point numbers.
#[derive(Clone, Copy)]
enum Floats {
    Sqrtf,
    Outf,
    End,
}

impl InstSet for Floats {
    fn from_name(name: &str) -> Option<Self> {
        match name.to_uppercase().as_str() {
            "SQRTF" => Some(Floats::Sqrtf),
            "OUTF" => Some(Floats::Outf),
            "END" => Some(Floats::End),
            _ => None,
        }
    }

    fn id(&self) -> u64 {
        *self as u64
    }

    fn from_id(id: u64) -> Option<Self> {
        match id {
            0 => Some(Floats::Sqrtf),
            1 => Some(Floats::Outf),
            2 => Some(Floats::End),
            _ => None,
        }
    }

    fn name(&self) -> String {
        match self {
            Floats::Sqrtf => "SQRTF",
            Floats::Outf => "OUTF",
            Floats::End => "END",
        }
        .to_string()
    }

    fn exec(&self, ctx: &mut Context, op: &Op) -> RtResult<()> {
        match self {
            Floats::Sqrtf => {
                if !op.is_usizeable() {
                    return Err(RtError::InvalidOperand);
                }
                let float = f64::from_bits(ctx.read(op)? as u64);
                ctx.acc = float.sqrt().to_bits() as usize;
                Ok(())
            }
            Floats::Outf => {
                if !op.is_usizeable() {
                    return Err(RtError::InvalidOperand);
                }
                let float = f64::from_bits(ctx.read(op)? as u64);
                ctx.io.output.extend_from_slice(format!("{float}\n").as_bytes());
                Ok(())
            }
            Floats::End => cambridge_asm::io::end(ctx, op),
        }
    }
}

#[test]
fn int_test_custom() {
    const PROG: &str = "sqrtf #x4000000000000000
outf acc
end

none:
";
    let mut e = jit::<Floats>(PROG, Io::new(vec![])).unwrap_or_else(|e| {
        e.entries
            .iter()
            .for_each(|(r, e)| println!("{} : {e:?}", &PROG[r.start..r.end]));
        panic!()
    });
    e.exec::<Floats>();
    assert!(f64::from_bits(e.ctx.acc as u64) >= 1.4);
    println!("{}", String::from_utf8_lossy(e.ctx.io.output.as_slice()));
}
