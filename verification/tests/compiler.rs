use bf::compiler::{compile, CompileError, Instruction};

#[test]
fn empty_source_compiles_to_nothing() {
    let p = compile(b"").unwrap();
    assert_eq!(p.len(), 0);
}

#[test]
fn plain_instructions_compile_in_order() {
    let p = compile(b".,").unwrap();
    assert_eq!(p.len(), 2);
    assert_eq!(p.get(0), Instruction::Output);
    assert_eq!(p.get(1), Instruction::Input);
}

#[test]
fn runs_fold_to_single_instructions() {
    let p = compile(b"+++>>>.<<.").unwrap();
    assert_eq!(p.len(), 5);
    assert_eq!(p.get(0), Instruction::Add(3));
    assert_eq!(p.get(1), Instruction::MoveRight(3));
    assert_eq!(p.get(2), Instruction::Output);
    assert_eq!(p.get(3), Instruction::MoveLeft(2));
    assert_eq!(p.get(4), Instruction::Output);
}

#[test]
fn folding_crosses_zero_without_losing_characters() {
    // +-- nets to one decrement; saturating at zero would wrongly drop it
    let p = compile(b"+--").unwrap();
    assert_eq!(p.len(), 1);
    assert_eq!(p.get(0), Instruction::Sub(1));

    let q = compile(b"><<").unwrap();
    assert_eq!(q.len(), 1);
    assert_eq!(q.get(0), Instruction::MoveLeft(1));

    let r = compile(b"+++-").unwrap();
    assert_eq!(r.len(), 1);
    assert_eq!(r.get(0), Instruction::Add(2));
}

#[test]
fn bracket_pair_points_at_each_other() {
    let p = compile(b"[-]").unwrap();
    assert_eq!(p.len(), 3);
    assert_eq!(p.get(0), Instruction::JumpIfZero(2));
    assert_eq!(p.get(1), Instruction::Sub(1));
    assert_eq!(p.get(2), Instruction::JumpIfNonZero(0));
}

#[test]
fn nested_brackets_resolve_mutually() {
    let p = compile(b"[[]]").unwrap();
    assert_eq!(p.get(0), Instruction::JumpIfZero(3));
    assert_eq!(p.get(1), Instruction::JumpIfZero(2));
    assert_eq!(p.get(2), Instruction::JumpIfNonZero(1));
    assert_eq!(p.get(3), Instruction::JumpIfNonZero(0));
}

#[test]
fn unexpected_character_is_reported_at_its_offset() {
    assert_eq!(
        compile(b"++@"),
        Err(CompileError::UnexpectedCharacter(2))
    );
    assert_eq!(compile(b"}"), Err(CompileError::UnexpectedCharacter(0)));
}

#[test]
fn unmatched_close_is_reported_at_its_offset() {
    assert_eq!(
        compile(b"+]"),
        Err(CompileError::UnmatchedCloseBracket(1))
    );
    assert_eq!(
        compile(b"[]]"),
        Err(CompileError::UnmatchedCloseBracket(2))
    );
}

#[test]
fn unmatched_open_is_blamed_on_the_first_unclosed() {
    assert_eq!(
        compile(b"[[]"),
        Err(CompileError::UnmatchedOpenBracket(0))
    );
    assert_eq!(
        compile(b"+[+[]"),
        Err(CompileError::UnmatchedOpenBracket(1))
    );
}

#[test]
fn comments_are_skipped_entirely() {
    let p = compile(b"+{ anything [ here, {nested blocks} too }+").unwrap();
    assert_eq!(p.len(), 1);
    assert_eq!(p.get(0), Instruction::Add(2));
}

#[test]
fn unterminated_comment_is_an_unmatched_open() {
    assert_eq!(
        compile(b"+{+"),
        Err(CompileError::UnmatchedOpenBracket(1))
    );
}
