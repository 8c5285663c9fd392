use bf::backend::{construct, Context};
use bf::compiler::{compile, Instruction};
use bf::interpreter::{Interpreter, Output};

#[test]
fn construct_seeds_one_increment() {
    let bytes = construct(|ctx: Context| ctx);
    assert_eq!(bytes, b"+".to_vec());
}

#[test]
fn builder_appends_instruction_characters() {
    let mut ctx = Context::new(Vec::new());
    ctx.increase(3);
    ctx.move_right(2);
    ctx.decrease(1);
    ctx.move_left(2);
    ctx.output();
    ctx.input();
    assert_eq!(ctx.bf, b"+++>>-<<.,".to_vec());
}

#[test]
fn begin_loop_wraps_the_body_in_brackets() {
    let ctx = Context::new(Vec::new());
    let (ctx, marker) = ctx.begin_loop(|mut inner: Context| {
        inner.decrease(1);
        (inner, 42u32)
    });
    assert_eq!(ctx.bf, b"[-]".to_vec());
    assert_eq!(marker, 42);
}

#[test]
fn constructed_programs_compile() {
    let bytes = construct(|mut ctx: Context| {
        ctx.increase(2);
        let (ctx, _unit) = ctx.begin_loop(|mut inner: Context| {
            inner.decrease(1);
            (inner, ())
        });
        ctx
    });
    assert_eq!(bytes, b"+++[-]".to_vec());
    let p = compile(&bytes).unwrap();
    assert_eq!(p.get(0), Instruction::Add(3));
}

#[test]
fn constructed_programs_run() {
    let bytes = construct(|mut ctx: Context| {
        ctx.increase(64);
        ctx.output();
        ctx
    });
    let mut interpreter = Interpreter::new(&bytes);
    assert_eq!(interpreter.run(), Ok(65));
    assert_eq!(interpreter.run(), Err(Output::End));
}
