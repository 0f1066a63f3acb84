use cambridge_asm::inst::Op;
use cambridge_asm::inst::Op::{Acc, Addr, Fail, Gpr, Literal, MultiOp, Null};

fn check_ops() {
    let ops = [
        ("200", Addr(200)),
        ("#x80", Literal(128)),
        ("#b001", Literal(1)),
        ("#800", Literal(800)),
        (
            "200,#8,be",
            MultiOp(vec![Addr(200), Literal(8), Fail("be".into())]),
        ),
        ("", Null),
        ("ACC,r10,#x10", MultiOp(vec![Acc, Gpr(10), Literal(16)])),
    ];

    for (op, res) in ops {
        assert_eq!(Op::from(op), res);
    }
}

#[test]
fn op_parsing() {
    check_ops();
}

#[test]
fn inst_op_parsing() {
    check_ops();
}

#[test]
fn op_text_edge_cases() {
    assert_eq!(Op::from("r30"), Fail("r30".into()));
    assert_eq!(Op::from("r29"), Gpr(29));
    assert_eq!(Op::from("ix"), Op::Ix);
    assert_eq!(Op::from("Cmp"), Op::Cmp);
    assert_eq!(Op::from("ar"), Op::Ar);
    assert_eq!(Op::from("#o17"), Literal(15));
    assert_eq!(Op::from("#b102"), Fail("#b102".into()));
    assert_eq!(Op::from("+12"), Addr(12));
    assert_eq!(Op::from("99999999999999999999999"), Fail("99999999999999999999999".into()));
}
