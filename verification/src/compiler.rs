//! The compiler: validates and folds raw source bytes into a compact
//! instruction stream, resolving every bracket pair into a direct jump
//! target. Runs once per program; the result is immutable.

use vstd::prelude::*;
use crate::source::{
    OP_ADD, OP_SUB, OP_RIGHT, OP_LEFT, OP_OUT, OP_IN, OP_OPEN, OP_CLOSE, OP_COMMENT_OPEN,
    OP_COMMENT_CLOSE,
};

verus! {

broadcast use vstd::slice::axiom_spec_len;

/// One executable instruction. Counts are folded run lengths; jump targets
/// are absolute indices into the instruction stream, resolved at compile
/// time so that a bracket pair points at each other's position.
#[derive(Debug, Clone, Copy, PartialEq, Eq, Structural)]
pub enum Instruction {
    Add(usize),
    Sub(usize),
    MoveRight(usize),
    MoveLeft(usize),
    Output,
    Input,
    JumpIfZero(usize),
    JumpIfNonZero(usize),
}

/// Why compilation failed; each variant carries the byte offset it blames.
#[derive(Debug, Clone, Copy, PartialEq, Eq, Structural)]
pub enum CompileError {
    UnexpectedCharacter(usize),
    UnmatchedOpenBracket(usize),
    UnmatchedCloseBracket(usize),
}

/// An ordered, immutable sequence of instructions, produced once by
/// `compile` and never mutated afterwards.
#[derive(Debug, Clone, PartialEq)]
pub struct Program {
    code: Vec<Instruction>,
}

impl View for Program {
    type V = Seq<Instruction>;

    closed spec fn view(&self) -> Seq<Instruction> {
        self.code@
    }
}

impl Program {
    /// How many instructions the program holds.
    pub fn len(&self) -> (n: usize)
        ensures
            n == self@.len(),
    {
        self.code.len()
    }

    /// The instruction at index `i`.
    pub fn get(&self, i: usize) -> (ins: Instruction)
        requires
            i < self@.len(),
        ensures
            ins == self@[i as int],
    {
        self.code[i]
    }
}

/// The folded run length an instruction carries.
pub open spec fn instr_count(ins: Instruction) -> int {
    match ins {
        Instruction::Add(c) => c as int,
        Instruction::Sub(c) => c as int,
        Instruction::MoveRight(c) => c as int,
        Instruction::MoveLeft(c) => c as int,
        _ => 0,
    }
}

/// Is this a folded `+`/`-` instruction?
pub open spec fn is_arith(ins: Instruction) -> bool {
    ins matches Instruction::Add(_) || ins matches Instruction::Sub(_)
}

/// Is this a folded `>`/`<` instruction?
pub open spec fn is_move(ins: Instruction) -> bool {
    ins matches Instruction::MoveRight(_) || ins matches Instruction::MoveLeft(_)
}

/// The signed net cell change of an arithmetic instruction.
pub open spec fn arith_net(ins: Instruction) -> int {
    match ins {
        Instruction::Add(c) => c as int,
        Instruction::Sub(c) => -(c as int),
        _ => 0,
    }
}

/// The signed net pointer change of a move instruction.
pub open spec fn move_net(ins: Instruction) -> int {
    match ins {
        Instruction::MoveRight(c) => c as int,
        Instruction::MoveLeft(c) => -(c as int),
        _ => 0,
    }
}

/// How one more `+` (`positive`) or `-` source character folds into the
/// arithmetic instruction accumulated so far: the magnitude moves toward
/// the true net, switching variant when it crosses zero.
pub open spec fn fold_arith(prev: Instruction, positive: bool) -> Instruction {
    match prev {
        Instruction::Add(c) => if positive {
            Instruction::Add((c + 1) as usize)
        } else if c > 0 {
            Instruction::Add((c - 1) as usize)
        } else {
            Instruction::Sub(1)
        },
        Instruction::Sub(c) => if !positive {
            Instruction::Sub((c + 1) as usize)
        } else if c > 0 {
            Instruction::Sub((c - 1) as usize)
        } else {
            Instruction::Add(1)
        },
        _ => prev,
    }
}

/// How one more `>` (`rightward`) or `<` source character folds into the
/// move instruction accumulated so far.
pub open spec fn fold_move(prev: Instruction, rightward: bool) -> Instruction {
    match prev {
        Instruction::MoveRight(c) => if rightward {
            Instruction::MoveRight((c + 1) as usize)
        } else if c > 0 {
            Instruction::MoveRight((c - 1) as usize)
        } else {
            Instruction::MoveLeft(1)
        },
        Instruction::MoveLeft(c) => if !rightward {
            Instruction::MoveLeft((c + 1) as usize)
        } else if c > 0 {
            Instruction::MoveLeft((c - 1) as usize)
        } else {
            Instruction::MoveRight(1)
        },
        _ => prev,
    }
}

/// What compilation yields from position `i` onward, given the
/// instructions already emitted, the stack of unresolved open brackets
/// (source position, instruction index), and the current comment nesting
/// (`copen` is the position of the outermost unclosed `{`). This is the
/// whole meaning of `compile`.
pub open spec fn compile_from(
    src: Seq<u8>,
    i: int,
    code: Seq<Instruction>,
    opens: Seq<(usize, usize)>,
    cdepth: nat,
    copen: usize,
) -> Result<Seq<Instruction>, CompileError>
    decreases src.len() - i,
{
    if i >= src.len() {
        if cdepth > 0 {
            Err(CompileError::UnmatchedOpenBracket(copen))
        } else if opens.len() > 0 {
            Err(CompileError::UnmatchedOpenBracket(opens[0].0))
        } else {
            Ok(code)
        }
    } else {
        let c = src[i];
        if cdepth > 0 {
            if c == OP_COMMENT_OPEN {
                compile_from(src, i + 1, code, opens, cdepth + 1, copen)
            } else if c == OP_COMMENT_CLOSE {
                compile_from(src, i + 1, code, opens, (cdepth - 1) as nat, copen)
            } else {
                compile_from(src, i + 1, code, opens, cdepth, copen)
            }
        } else if c == OP_ADD || c == OP_SUB {
            if code.len() > 0 && is_arith(code.last()) {
                compile_from(
                    src,
                    i + 1,
                    code.update(code.len() - 1, fold_arith(code.last(), c == OP_ADD)),
                    opens,
                    0,
                    copen,
                )
            } else if c == OP_ADD {
                compile_from(src, i + 1, code.push(Instruction::Add(1)), opens, 0, copen)
            } else {
                compile_from(src, i + 1, code.push(Instruction::Sub(1)), opens, 0, copen)
            }
        } else if c == OP_RIGHT || c == OP_LEFT {
            if code.len() > 0 && is_move(code.last()) {
                compile_from(
                    src,
                    i + 1,
                    code.update(code.len() - 1, fold_move(code.last(), c == OP_RIGHT)),
                    opens,
                    0,
                    copen,
                )
            } else if c == OP_RIGHT {
                compile_from(src, i + 1, code.push(Instruction::MoveRight(1)), opens, 0, copen)
            } else {
                compile_from(src, i + 1, code.push(Instruction::MoveLeft(1)), opens, 0, copen)
            }
        } else if c == OP_OUT {
            compile_from(src, i + 1, code.push(Instruction::Output), opens, 0, copen)
        } else if c == OP_IN {
            compile_from(src, i + 1, code.push(Instruction::Input), opens, 0, copen)
        } else if c == OP_OPEN {
            compile_from(
                src,
                i + 1,
                code.push(Instruction::JumpIfZero(0)),
                opens.push((i as usize, code.len() as usize)),
                0,
                copen,
            )
        } else if c == OP_CLOSE {
            if opens.len() == 0 {
                Err(CompileError::UnmatchedCloseBracket(i as usize))
            } else {
                compile_from(
                    src,
                    i + 1,
                    code.update(
                        opens.last().1 as int,
                        Instruction::JumpIfZero(code.len() as usize),
                    ).push(Instruction::JumpIfNonZero(opens.last().1)),
                    opens.drop_last(),
                    0,
                    copen,
                )
            }
        } else if c == OP_COMMENT_OPEN {
            compile_from(src, i + 1, code, opens, 1, i as usize)
        } else {
            Err(CompileError::UnexpectedCharacter(i as usize))
        }
    }
}

/// What compiling a whole source yields: the instruction stream, or the
/// error and the byte offset it blames. An unmatched `]` is blamed on its
/// own position; unclosed `[`s are blamed on the first of them; an
/// unterminated comment is blamed on its outermost `{`.
pub open spec fn spec_compile(src: Seq<u8>) -> Result<Seq<Instruction>, CompileError> {
    compile_from(src, 0, Seq::empty(), Seq::empty(), 0, 0)
}

/// Instruction index `k` is still waiting on the open-bracket stack.
pub open spec fn on_stack(stack: Seq<(usize, usize)>, k: int) -> bool {
    exists|m: int| 0 <= m < stack.len() && (#[trigger] stack[m]).1 == k
}

/// Mid-resolution shape of the instruction stream: stack entries point at
/// placeholder opens in strictly increasing order, and every jump off the
/// stack is already resolved, mutually with its partner.
pub open spec fn partially_resolved(code: Seq<Instruction>, stack: Seq<(usize, usize)>) -> bool {
    &&& forall|m: int|
        0 <= m < stack.len() ==> (#[trigger] stack[m]).1 < code.len() && code[stack[m].1 as int]
            == Instruction::JumpIfZero(0)
    &&& forall|m1: int, m2: int|
        0 <= m1 < m2 < stack.len() ==> (#[trigger] stack[m1]).1 < (#[trigger] stack[m2]).1
    &&& forall|k: int|
        0 <= k < code.len() ==> match #[trigger] code[k] {
            Instruction::JumpIfZero(t) => on_stack(stack, k) || (k < t < code.len() && code[
                t as int
            ] == Instruction::JumpIfNonZero(k as usize)),
            Instruction::JumpIfNonZero(t) => t < k && code[t as int] == Instruction::JumpIfZero(
                k as usize,
            ),
            _ => true,
        }
}

/// Every `JumpIfZero` and its matching `JumpIfNonZero` point at each
/// other's position: the closed bracket graph with no dangling jumps.
pub open spec fn jumps_resolved(code: Seq<Instruction>) -> bool {
    forall|k: int|
        0 <= k < code.len() ==> match #[trigger] code[k] {
            Instruction::JumpIfZero(t) => k < t < code.len() && code[t as int]
                == Instruction::JumpIfNonZero(k as usize),
            Instruction::JumpIfNonZero(t) => t < k && code[t as int] == Instruction::JumpIfZero(
                k as usize,
            ),
            _ => true,
        }
}

/// Validate and fold `source` into a program: one linear scan folds runs
/// of compatible characters and skips comment blocks, while a stack of
/// open brackets resolves every pair into mutual jump targets.
#[verifier::loop_isolation(false)]
#[verifier::rlimit(60)]
pub fn compile(source: &[u8]) -> (r: Result<Program, CompileError>)
    ensures
        match r {
            Ok(p) => spec_compile(source@) == Ok::<Seq<Instruction>, CompileError>(p@)
                && jumps_resolved(p@),
            Err(e) => spec_compile(source@) == Err::<Seq<Instruction>, CompileError>(e),
        },
{
    let ghost src = source@;
    let mut code: Vec<Instruction> = Vec::new();
    let mut stack: Vec<(usize, usize)> = Vec::new();
    let mut cdepth: usize = 0;
    let mut copen: usize = 0;
    let mut i: usize = 0;
    proof {
        slice_len_bound_local(source);
    }
    while i < source.len()
        invariant
            i <= src.len(),
            cdepth <= i,
            code@.len() <= i,
            forall|k: int| 0 <= k < code@.len() ==> instr_count(#[trigger] code@[k]) <= i,
            partially_resolved(code@, stack@),
            compile_from(src, 0, Seq::empty(), Seq::empty(), 0, 0) == compile_from(
                src,
                i as int,
                code@,
                stack@,
                cdepth as nat,
                copen,
            ),
        decreases src.len() - i,
    {
        let c = source[i];
        let ghost code_at_entry = code@;
        if cdepth > 0 {
            if c == OP_COMMENT_OPEN {
                cdepth += 1;
            } else if c == OP_COMMENT_CLOSE {
                cdepth -= 1;
            }
        } else if c == OP_ADD || c == OP_SUB {
            let n = code.len();
            let mut folded = false;
            if n > 0 {
                let last = code[n - 1];
                match last {
                    Instruction::Add(_) | Instruction::Sub(_) => {
                        let merged = fold_arith_exec(last, c == OP_ADD);
                        code[n - 1] = merged;
                        folded = true;
                        proof {
                            lemma_fold_last(code_at_entry, stack@, merged);
                        }
                    },
                    _ => {},
                }
            }
            if !folded {
                if c == OP_ADD {
                    code.push(Instruction::Add(1));
                    proof {
                        lemma_push_plain(code_at_entry, stack@, Instruction::Add(1));
                    }
                } else {
                    code.push(Instruction::Sub(1));
                    proof {
                        lemma_push_plain(code_at_entry, stack@, Instruction::Sub(1));
                    }
                }
            }
        } else if c == OP_RIGHT || c == OP_LEFT {
            let n = code.len();
            let mut folded = false;
            if n > 0 {
                let last = code[n - 1];
                match last {
                    Instruction::MoveRight(_) | Instruction::MoveLeft(_) => {
                        let merged = fold_move_exec(last, c == OP_RIGHT);
                        code[n - 1] = merged;
                        folded = true;
                        proof {
                            lemma_fold_last(code_at_entry, stack@, merged);
                        }
                    },
                    _ => {},
                }
            }
            if !folded {
                if c == OP_RIGHT {
                    code.push(Instruction::MoveRight(1));
                    proof {
                        lemma_push_plain(code_at_entry, stack@, Instruction::MoveRight(1));
                    }
                } else {
                    code.push(Instruction::MoveLeft(1));
                    proof {
                        lemma_push_plain(code_at_entry, stack@, Instruction::MoveLeft(1));
                    }
                }
            }
        } else if c == OP_OUT {
            code.push(Instruction::Output);
            proof {
                lemma_push_plain(code_at_entry, stack@, Instruction::Output);
            }
        } else if c == OP_IN {
            code.push(Instruction::Input);
            proof {
                lemma_push_plain(code_at_entry, stack@, Instruction::Input);
            }
        } else if c == OP_OPEN {
            let ghost stack_at_entry = stack@;
            stack.push((i, code.len()));
            code.push(Instruction::JumpIfZero(0));
            proof {
                lemma_push_open(code_at_entry, stack_at_entry, i);
            }
        } else if c == OP_CLOSE {
            let ghost stack_old = stack@;
            let ghost code_old = code@;
            match stack.pop() {
                None => {
                    return Err(CompileError::UnmatchedCloseBracket(i));
                },
                Some(pair) => {
                    proof {
                        assert(stack_old[stack_old.len() - 1] == pair);
                        assert(stack_old[stack_old.len() - 1].1 < code_old.len());
                    }
                    let oidx = pair.1;
                    let close_at = code.len();
                    code[oidx] = Instruction::JumpIfZero(close_at);
                    code.push(Instruction::JumpIfNonZero(oidx));
                    proof {
                        assert(stack@ =~= stack_old.drop_last());
                        assert(code@ =~= code_old.update(
                            oidx as int,
                            Instruction::JumpIfZero(close_at as usize),
                        ).push(Instruction::JumpIfNonZero(oidx)));
                        lemma_resolve_pair(code_old, stack_old, oidx);
                    }
                },
            }
        } else if c == OP_COMMENT_OPEN {
            cdepth = 1;
            copen = i;
        } else {
            return Err(CompileError::UnexpectedCharacter(i));
        }
        i += 1;
    }
    if cdepth > 0 {
        return Err(CompileError::UnmatchedOpenBracket(copen));
    }
    if stack.len() > 0 {
        let first = stack[0];
        return Err(CompileError::UnmatchedOpenBracket(first.0));
    }
    proof {
        assert(jumps_resolved(code@)) by {
            assert forall|k: int| 0 <= k < code@.len() implies match #[trigger] code@[k] {
                Instruction::JumpIfZero(t) => k < t < code@.len() && code@[t as int]
                    == Instruction::JumpIfNonZero(k as usize),
                Instruction::JumpIfNonZero(t) => t < k && code@[t as int]
                    == Instruction::JumpIfZero(k as usize),
                _ => true,
            } by {
                assert(!on_stack(stack@, k));
            }
        }
    }
    Ok(Program { code })
}

/// The length of a slice always fits the machine's word.
proof fn slice_len_bound_local<T>(s: &[T])
    ensures
        s@.len() <= usize::MAX,
{
    assert(vstd::slice::spec_slice_len(s) == s@.len());
}

/// Appending a non-jump instruction leaves the stream partially resolved.
proof fn lemma_push_plain(code: Seq<Instruction>, stack: Seq<(usize, usize)>, ins: Instruction)
    requires
        partially_resolved(code, stack),
        !(ins matches Instruction::JumpIfZero(_)),
        !(ins matches Instruction::JumpIfNonZero(_)),
    ensures
        partially_resolved(code.push(ins), stack),
{
    let code2 = code.push(ins);
    assert forall|k: int| 0 <= k < code2.len() implies match #[trigger] code2[k] {
        Instruction::JumpIfZero(t) => on_stack(stack, k) || (k < t < code2.len() && code2[t as int]
            == Instruction::JumpIfNonZero(k as usize)),
        Instruction::JumpIfNonZero(t) => t < k && code2[t as int] == Instruction::JumpIfZero(
            k as usize,
        ),
        _ => true,
    } by {
        if k < code.len() {
            assert(code2[k] == code[k]);
        }
    }
}

/// Replacing the last, non-jump instruction by another non-jump
/// instruction leaves the stream partially resolved.
proof fn lemma_fold_last(code: Seq<Instruction>, stack: Seq<(usize, usize)>, ins: Instruction)
    requires
        partially_resolved(code, stack),
        code.len() > 0,
        !(code.last() matches Instruction::JumpIfZero(_)),
        !(code.last() matches Instruction::JumpIfNonZero(_)),
        !(ins matches Instruction::JumpIfZero(_)),
        !(ins matches Instruction::JumpIfNonZero(_)),
    ensures
        partially_resolved(code.update(code.len() - 1, ins), stack),
{
    let n = code.len() - 1;
    let code2 = code.update(n, ins);
    assert forall|m: int|
        0 <= m < stack.len() implies (#[trigger] stack[m]).1 < code2.len() && code2[stack[m].1 as int]
        == Instruction::JumpIfZero(0) by {
        assert(stack[m].1 != n);
    }
    assert forall|k: int| 0 <= k < code2.len() implies match #[trigger] code2[k] {
        Instruction::JumpIfZero(t) => on_stack(stack, k) || (k < t < code2.len() && code2[t as int]
            == Instruction::JumpIfNonZero(k as usize)),
        Instruction::JumpIfNonZero(t) => t < k && code2[t as int] == Instruction::JumpIfZero(
            k as usize,
        ),
        _ => true,
    } by {
        if k != n {
            assert(code2[k] == code[k]);
            match code[k] {
                Instruction::JumpIfZero(t) => {
                    if !on_stack(stack, k) {
                        assert(t != n);
                    }
                },
                Instruction::JumpIfNonZero(t) => {
                    assert(t != n);
                },
                _ => {},
            }
        }
    }
}

/// Pushing a fresh placeholder open bracket, recorded on the stack,
/// leaves the stream partially resolved.
proof fn lemma_push_open(code: Seq<Instruction>, stack: Seq<(usize, usize)>, spos: usize)
    requires
        partially_resolved(code, stack),
        code.len() < usize::MAX,
    ensures
        partially_resolved(
            code.push(Instruction::JumpIfZero(0)),
            stack.push((spos, code.len() as usize)),
        ),
{
    let code2 = code.push(Instruction::JumpIfZero(0));
    let stack2 = stack.push((spos, code.len() as usize));
    assert forall|m: int|
        0 <= m < stack2.len() implies (#[trigger] stack2[m]).1 < code2.len() && code2[stack2[m].1 as int]
        == Instruction::JumpIfZero(0) by {
        if m < stack.len() {
            assert(stack2[m] == stack[m]);
        }
    }
    assert forall|k: int| 0 <= k < code2.len() implies match #[trigger] code2[k] {
        Instruction::JumpIfZero(t) => on_stack(stack2, k) || (k < t < code2.len() && code2[t as int]
            == Instruction::JumpIfNonZero(k as usize)),
        Instruction::JumpIfNonZero(t) => t < k && code2[t as int] == Instruction::JumpIfZero(
            k as usize,
        ),
        _ => true,
    } by {
        if k < code.len() {
            assert(code2[k] == code[k]);
            match code[k] {
                Instruction::JumpIfZero(t) => {
                    if on_stack(stack, k) {
                        let m = choose|m: int|
                            0 <= m < stack.len() && (#[trigger] stack[m]).1 == k;
                        assert(stack2[m].1 == k);
                        assert(on_stack(stack2, k));
                    }
                },
                _ => {},
            }
        } else {
            assert(code2[k] == Instruction::JumpIfZero(0));
            assert(stack2[stack.len() as int].1 == k);
            assert(on_stack(stack2, k));
        }
    }
}

/// Resolving the top of the stack into a mutual pair keeps the stream
/// partially resolved: nothing else pointed at the placeholder, and every
/// remaining stack entry sits strictly below it.
#[verifier::rlimit(100)]
proof fn lemma_resolve_pair(
    code_old: Seq<Instruction>,
    stack_old: Seq<(usize, usize)>,
    oidx: usize,
)
    requires
        partially_resolved(code_old, stack_old),
        stack_old.len() > 0,
        stack_old.last().1 == oidx,
        code_old.len() < usize::MAX,
    ensures
        partially_resolved(
            code_old.update(oidx as int, Instruction::JumpIfZero(code_old.len() as usize)).push(
                Instruction::JumpIfNonZero(oidx),
            ),
            stack_old.drop_last(),
        ),
{
    let close_at = code_old.len() as int;
    let code = code_old.update(oidx as int, Instruction::JumpIfZero(close_at as usize)).push(
        Instruction::JumpIfNonZero(oidx),
    );
    let stack_after = stack_old.drop_last();
    assert(stack_old[stack_old.len() - 1].1 == oidx);
    assert(code_old[oidx as int] == Instruction::JumpIfZero(0));
    assert forall|m: int|
        0 <= m < stack_after.len() implies (#[trigger] stack_after[m]).1 < code.len() && code[
        stack_after[m].1 as int
    ] == Instruction::JumpIfZero(0) by {
        assert(stack_old[m] == stack_after[m]);
        assert(stack_old[m].1 < stack_old[stack_old.len() - 1].1);
    }
    assert forall|m1: int, m2: int|
        0 <= m1 < m2 < stack_after.len() implies (#[trigger] stack_after[m1]).1 < (
    #[trigger] stack_after[m2]).1 by {
        assert(stack_old[m1] == stack_after[m1]);
        assert(stack_old[m2] == stack_after[m2]);
    }
    assert forall|k: int| 0 <= k < code.len() implies match #[trigger] code[k] {
        Instruction::JumpIfZero(t) => on_stack(stack_after, k) || (k < t < code.len() && code[
            t as int
        ] == Instruction::JumpIfNonZero(k as usize)),
        Instruction::JumpIfNonZero(t) => t < k && code[t as int] == Instruction::JumpIfZero(
            k as usize,
        ),
        _ => true,
    } by {
        if k == oidx {
            assert(code[k] == Instruction::JumpIfZero(close_at as usize));
            assert(code[close_at] == Instruction::JumpIfNonZero(oidx));
        } else if k == close_at {
            assert(code[k] == Instruction::JumpIfNonZero(oidx));
            assert(code[oidx as int] == Instruction::JumpIfZero(close_at as usize));
        } else {
            assert(code[k] == code_old[k]);
            match code_old[k] {
                Instruction::JumpIfZero(t) => {
                    if on_stack(stack_old, k) {
                        let m = choose|m: int|
                            0 <= m < stack_old.len() && (#[trigger] stack_old[m]).1 == k;
                        assert(m < stack_old.len() - 1);
                        assert(stack_after[m].1 == k);
                        assert(on_stack(stack_after, k));
                    } else {
                        assert(k < t < code_old.len() && code_old[t as int]
                            == Instruction::JumpIfNonZero(k as usize));
                        assert(t != oidx);
                        assert(code[t as int] == Instruction::JumpIfNonZero(k as usize));
                    }
                },
                Instruction::JumpIfNonZero(t) => {
                    assert(t < k && code_old[t as int] == Instruction::JumpIfZero(k as usize));
                    assert(t != oidx) by {
                        if t == oidx {
                            assert(code_old[t as int] == Instruction::JumpIfZero(0));
                            assert(k as usize == 0);
                        }
                    }
                    assert(code[t as int] == Instruction::JumpIfZero(k as usize));
                },
                _ => {},
            }
        }
    }
}

/// Which way a byte moves the bracket depth.
pub open spec fn bracket_delta(c: u8) -> int {
    if c == OP_OPEN {
        1
    } else if c == OP_CLOSE {
        -1
    } else {
        0
    }
}

/// The bracket depth after the first `i` bytes of `src`.
pub open spec fn depth_through(src: Seq<u8>, i: int) -> int
    decreases i,
{
    if i <= 0 {
        0
    } else {
        depth_through(src, i - 1) + bracket_delta(src[i - 1])
    }
}

/// One of the eight instruction characters.
pub open spec fn is_instruction_byte(c: u8) -> bool {
    c == OP_ADD || c == OP_SUB || c == OP_RIGHT || c == OP_LEFT || c == OP_OUT || c == OP_IN || c
        == OP_OPEN || c == OP_CLOSE
}

/// Composed only of instruction characters, no comments and nothing else.
pub open spec fn all_instruction_bytes(src: Seq<u8>) -> bool {
    forall|k: int| 0 <= k < src.len() ==> is_instruction_byte(#[trigger] src[k])
}

/// Brackets are balanced: the depth never dips below zero and ends at zero.
pub open spec fn balanced(src: Seq<u8>) -> bool {
    &&& depth_through(src, src.len() as int) == 0
    &&& forall|i: int| 0 <= i <= src.len() ==> depth_through(src, i) >= 0
}

proof fn lemma_balanced_from(
    src: Seq<u8>,
    i: int,
    code: Seq<Instruction>,
    opens: Seq<(usize, usize)>,
    copen: usize,
)
    requires
        all_instruction_bytes(src),
        balanced(src),
        0 <= i <= src.len(),
        opens.len() == depth_through(src, i),
    ensures
        compile_from(src, i, code, opens, 0, copen) is Ok,
    decreases src.len() - i,
{
    if i == src.len() {
    } else {
        let c = src[i];
        assert(is_instruction_byte(c));
        assert(depth_through(src, i + 1) == depth_through(src, i) + bracket_delta(c));
        if c == OP_ADD || c == OP_SUB {
            if code.len() > 0 && is_arith(code.last()) {
                lemma_balanced_from(
                    src,
                    i + 1,
                    code.update(code.len() - 1, fold_arith(code.last(), c == OP_ADD)),
                    opens,
                    copen,
                );
            } else if c == OP_ADD {
                lemma_balanced_from(src, i + 1, code.push(Instruction::Add(1)), opens, copen);
            } else {
                lemma_balanced_from(src, i + 1, code.push(Instruction::Sub(1)), opens, copen);
            }
        } else if c == OP_RIGHT || c == OP_LEFT {
            if code.len() > 0 && is_move(code.last()) {
                lemma_balanced_from(
                    src,
                    i + 1,
                    code.update(code.len() - 1, fold_move(code.last(), c == OP_RIGHT)),
                    opens,
                    copen,
                );
            } else if c == OP_RIGHT {
                lemma_balanced_from(src, i + 1, code.push(Instruction::MoveRight(1)), opens, copen);
            } else {
                lemma_balanced_from(src, i + 1, code.push(Instruction::MoveLeft(1)), opens, copen);
            }
        } else if c == OP_OUT {
            lemma_balanced_from(src, i + 1, code.push(Instruction::Output), opens, copen);
        } else if c == OP_IN {
            lemma_balanced_from(src, i + 1, code.push(Instruction::Input), opens, copen);
        } else if c == OP_OPEN {
            lemma_balanced_from(
                src,
                i + 1,
                code.push(Instruction::JumpIfZero(0)),
                opens.push((i as usize, code.len() as usize)),
                copen,
            );
        } else {
            assert(c == OP_CLOSE);
            assert(depth_through(src, i + 1) >= 0);
            assert(opens.len() >= 1);
            lemma_balanced_from(
                src,
                i + 1,
                code.update(
                    opens.last().1 as int,
                    Instruction::JumpIfZero(code.len() as usize),
                ).push(Instruction::JumpIfNonZero(opens.last().1)),
                opens.drop_last(),
                copen,
            );
        }
    }
}

/// For a program composed only of instruction characters with balanced
/// bracket pairs, compilation succeeds — and `compile`'s contract then
/// adds that every bracket pair in the result points at each other's
/// position.
pub proof fn lemma_balanced_compiles(src: Seq<u8>)
    requires
        all_instruction_bytes(src),
        balanced(src),
    ensures
        spec_compile(src) is Ok,
{
    lemma_balanced_from(src, 0, Seq::empty(), Seq::empty(), 0);
}

proof fn lemma_unmatched_close_from(
    src: Seq<u8>,
    i: int,
    m: int,
    code: Seq<Instruction>,
    opens: Seq<(usize, usize)>,
    copen: usize,
)
    requires
        all_instruction_bytes(src),
        0 <= i < src.len(),
        depth_through(src, i + 1) < 0,
        forall|k: int| 0 <= k <= i ==> depth_through(src, k) >= 0,
        0 <= m <= i,
        opens.len() == depth_through(src, m),
    ensures
        compile_from(src, m, code, opens, 0, copen) == Err::<Seq<Instruction>, CompileError>(
            CompileError::UnmatchedCloseBracket(i as usize),
        ),
    decreases i - m,
{
    let c = src[m];
    assert(is_instruction_byte(c));
    assert(depth_through(src, m + 1) == depth_through(src, m) + bracket_delta(c));
    if m == i {
        assert(depth_through(src, i) >= 0);
        assert(bracket_delta(c) < 0);
        assert(c == OP_CLOSE);
        assert(opens.len() == 0);
    } else if c == OP_ADD || c == OP_SUB {
        if code.len() > 0 && is_arith(code.last()) {
            lemma_unmatched_close_from(
                src,
                i,
                m + 1,
                code.update(code.len() - 1, fold_arith(code.last(), c == OP_ADD)),
                opens,
                copen,
            );
        } else if c == OP_ADD {
            lemma_unmatched_close_from(src, i, m + 1, code.push(Instruction::Add(1)), opens, copen);
        } else {
            lemma_unmatched_close_from(src, i, m + 1, code.push(Instruction::Sub(1)), opens, copen);
        }
    } else if c == OP_RIGHT || c == OP_LEFT {
        if code.len() > 0 && is_move(code.last()) {
            lemma_unmatched_close_from(
                src,
                i,
                m + 1,
                code.update(code.len() - 1, fold_move(code.last(), c == OP_RIGHT)),
                opens,
                copen,
            );
        } else if c == OP_RIGHT {
            lemma_unmatched_close_from(
                src,
                i,
                m + 1,
                code.push(Instruction::MoveRight(1)),
                opens,
                copen,
            );
        } else {
            lemma_unmatched_close_from(
                src,
                i,
                m + 1,
                code.push(Instruction::MoveLeft(1)),
                opens,
                copen,
            );
        }
    } else if c == OP_OUT {
        lemma_unmatched_close_from(src, i, m + 1, code.push(Instruction::Output), opens, copen);
    } else if c == OP_IN {
        lemma_unmatched_close_from(src, i, m + 1, code.push(Instruction::Input), opens, copen);
    } else if c == OP_OPEN {
        lemma_unmatched_close_from(
            src,
            i,
            m + 1,
            code.push(Instruction::JumpIfZero(0)),
            opens.push((m as usize, code.len() as usize)),
            copen,
        );
    } else {
        assert(c == OP_CLOSE);
        assert(depth_through(src, m + 1) >= 0);
        assert(opens.len() >= 1);
        lemma_unmatched_close_from(
            src,
            i,
            m + 1,
            code.update(opens.last().1 as int, Instruction::JumpIfZero(code.len() as usize)).push(
                Instruction::JumpIfNonZero(opens.last().1),
            ),
            opens.drop_last(),
            copen,
        );
    }
}

/// For a program of instruction characters with an unmatched `]`,
/// compilation fails with `UnmatchedCloseBracket` at exactly that
/// bracket's position: the first one that dips the depth below zero.
pub proof fn lemma_unmatched_close_position(src: Seq<u8>, i: int)
    requires
        all_instruction_bytes(src),
        0 <= i < src.len(),
        depth_through(src, i + 1) < 0,
        forall|k: int| 0 <= k <= i ==> depth_through(src, k) >= 0,
    ensures
        spec_compile(src) == Err::<Seq<Instruction>, CompileError>(
            CompileError::UnmatchedCloseBracket(i as usize),
        ),
{
    lemma_unmatched_close_from(src, i, 0, Seq::empty(), Seq::empty(), 0);
}

proof fn lemma_unmatched_open_from(
    src: Seq<u8>,
    j: int,
    m: int,
    code: Seq<Instruction>,
    opens: Seq<(usize, usize)>,
    copen: usize,
)
    requires
        all_instruction_bytes(src),
        0 <= j < src.len(),
        src[j] == OP_OPEN,
        forall|k: int| j < k <= src.len() ==> depth_through(src, k) >= 1,
        j < m <= src.len(),
        opens.len() == depth_through(src, m),
        opens[0].0 == j as usize,
    ensures
        compile_from(src, m, code, opens, 0, copen) == Err::<Seq<Instruction>, CompileError>(
            CompileError::UnmatchedOpenBracket(j as usize),
        ),
    decreases src.len() - m,
{
    assert(opens.len() >= 1);
    if m == src.len() {
    } else {
        let c = src[m];
        assert(is_instruction_byte(c));
        assert(depth_through(src, m + 1) == depth_through(src, m) + bracket_delta(c));
        if c == OP_ADD || c == OP_SUB {
            if code.len() > 0 && is_arith(code.last()) {
                lemma_unmatched_open_from(
                    src,
                    j,
                    m + 1,
                    code.update(code.len() - 1, fold_arith(code.last(), c == OP_ADD)),
                    opens,
                    copen,
                );
            } else if c == OP_ADD {
                lemma_unmatched_open_from(
                    src,
                    j,
                    m + 1,
                    code.push(Instruction::Add(1)),
                    opens,
                    copen,
                );
            } else {
                lemma_unmatched_open_from(
                    src,
                    j,
                    m + 1,
                    code.push(Instruction::Sub(1)),
                    opens,
                    copen,
                );
            }
        } else if c == OP_RIGHT || c == OP_LEFT {
            if code.len() > 0 && is_move(code.last()) {
                lemma_unmatched_open_from(
                    src,
                    j,
                    m + 1,
                    code.update(code.len() - 1, fold_move(code.last(), c == OP_RIGHT)),
                    opens,
                    copen,
                );
            } else if c == OP_RIGHT {
                lemma_unmatched_open_from(
                    src,
                    j,
                    m + 1,
                    code.push(Instruction::MoveRight(1)),
                    opens,
                    copen,
                );
            } else {
                lemma_unmatched_open_from(
                    src,
                    j,
                    m + 1,
                    code.push(Instruction::MoveLeft(1)),
                    opens,
                    copen,
                );
            }
        } else if c == OP_OUT {
            lemma_unmatched_open_from(src, j, m + 1, code.push(Instruction::Output), opens, copen);
        } else if c == OP_IN {
            lemma_unmatched_open_from(src, j, m + 1, code.push(Instruction::Input), opens, copen);
        } else if c == OP_OPEN {
            lemma_unmatched_open_from(
                src,
                j,
                m + 1,
                code.push(Instruction::JumpIfZero(0)),
                opens.push((m as usize, code.len() as usize)),
                copen,
            );
        } else {
            assert(c == OP_CLOSE);
            assert(depth_through(src, m + 1) >= 1);
            assert(opens.len() >= 2);
            assert(opens.drop_last()[0] == opens[0]);
            lemma_unmatched_open_from(
                src,
                j,
                m + 1,
                code.update(
                    opens.last().1 as int,
                    Instruction::JumpIfZero(code.len() as usize),
                ).push(Instruction::JumpIfNonZero(opens.last().1)),
                opens.drop_last(),
                copen,
            );
        }
    }
}

/// For a program of instruction characters whose depth never dips below
/// zero but ends positive, compilation fails with `UnmatchedOpenBracket`
/// at the position of the first unclosed bracket: the last `[` opened at
/// depth zero, after which the depth never returns to zero.
pub proof fn lemma_unmatched_open_position(src: Seq<u8>, j: int)
    requires
        all_instruction_bytes(src),
        0 <= j < src.len(),
        src[j] == OP_OPEN,
        depth_through(src, j) == 0,
        forall|k: int| 0 <= k <= src.len() ==> depth_through(src, k) >= 0,
        forall|k: int| j < k <= src.len() ==> depth_through(src, k) >= 1,
    ensures
        spec_compile(src) == Err::<Seq<Instruction>, CompileError>(
            CompileError::UnmatchedOpenBracket(j as usize),
        ),
{
    lemma_unmatched_open_prefix(src, j, 0, Seq::empty(), Seq::empty(), 0);
}

proof fn lemma_unmatched_open_prefix(
    src: Seq<u8>,
    j: int,
    m: int,
    code: Seq<Instruction>,
    opens: Seq<(usize, usize)>,
    copen: usize,
)
    requires
        all_instruction_bytes(src),
        0 <= j < src.len(),
        src[j] == OP_OPEN,
        depth_through(src, j) == 0,
        forall|k: int| 0 <= k <= src.len() ==> depth_through(src, k) >= 0,
        forall|k: int| j < k <= src.len() ==> depth_through(src, k) >= 1,
        0 <= m <= j,
        opens.len() == depth_through(src, m),
    ensures
        compile_from(src, m, code, opens, 0, copen) == Err::<Seq<Instruction>, CompileError>(
            CompileError::UnmatchedOpenBracket(j as usize),
        ),
    decreases j - m,
{
    let c = src[m];
    assert(is_instruction_byte(c));
    assert(depth_through(src, m + 1) == depth_through(src, m) + bracket_delta(c));
    if m == j {
        assert(opens.len() == 0);
        lemma_unmatched_open_from(
            src,
            j,
            m + 1,
            code.push(Instruction::JumpIfZero(0)),
            opens.push((m as usize, code.len() as usize)),
            copen,
        );
    } else if c == OP_ADD || c == OP_SUB {
        if code.len() > 0 && is_arith(code.last()) {
            lemma_unmatched_open_prefix(
                src,
                j,
                m + 1,
                code.update(code.len() - 1, fold_arith(code.last(), c == OP_ADD)),
                opens,
                copen,
            );
        } else if c == OP_ADD {
            lemma_unmatched_open_prefix(
                src,
                j,
                m + 1,
                code.push(Instruction::Add(1)),
                opens,
                copen,
            );
        } else {
            lemma_unmatched_open_prefix(
                src,
                j,
                m + 1,
                code.push(Instruction::Sub(1)),
                opens,
                copen,
            );
        }
    } else if c == OP_RIGHT || c == OP_LEFT {
        if code.len() > 0 && is_move(code.last()) {
            lemma_unmatched_open_prefix(
                src,
                j,
                m + 1,
                code.update(code.len() - 1, fold_move(code.last(), c == OP_RIGHT)),
                opens,
                copen,
            );
        } else if c == OP_RIGHT {
            lemma_unmatched_open_prefix(
                src,
                j,
                m + 1,
                code.push(Instruction::MoveRight(1)),
                opens,
                copen,
            );
        } else {
            lemma_unmatched_open_prefix(
                src,
                j,
                m + 1,
                code.push(Instruction::MoveLeft(1)),
                opens,
                copen,
            );
        }
    } else if c == OP_OUT {
        lemma_unmatched_open_prefix(src, j, m + 1, code.push(Instruction::Output), opens, copen);
    } else if c == OP_IN {
        lemma_unmatched_open_prefix(src, j, m + 1, code.push(Instruction::Input), opens, copen);
    } else if c == OP_OPEN {
        lemma_unmatched_open_prefix(
            src,
            j,
            m + 1,
            code.push(Instruction::JumpIfZero(0)),
            opens.push((m as usize, code.len() as usize)),
            copen,
        );
    } else {
        assert(c == OP_CLOSE);
        assert(depth_through(src, m + 1) >= 0);
        assert(opens.len() >= 1);
        lemma_unmatched_open_prefix(
            src,
            j,
            m + 1,
            code.update(opens.last().1 as int, Instruction::JumpIfZero(code.len() as usize)).push(
                Instruction::JumpIfNonZero(opens.last().1),
            ),
            opens.drop_last(),
            copen,
        );
    }
}

/// The net cell change a run of `+`/`-` characters asks for.
pub open spec fn arith_char_net(cs: Seq<u8>) -> int
    decreases cs.len(),
{
    if cs.len() == 0 {
        0
    } else {
        arith_char_net(cs.drop_last()) + (if cs.last() == OP_ADD {
            1int
        } else {
            -1int
        })
    }
}

/// The single instruction an uninterrupted run of `+`/`-` characters
/// folds to, one `fold_arith` step per character.
pub open spec fn fold_arith_run(cs: Seq<u8>) -> Instruction
    decreases cs.len(),
{
    if cs.len() == 0 {
        Instruction::Add(0)
    } else {
        fold_arith(fold_arith_run(cs.drop_last()), cs.last() == OP_ADD)
    }
}

/// Folding never loses a character: the folded arithmetic instruction
/// carries exactly the run's signed net change.
pub proof fn lemma_fold_arith_net(cs: Seq<u8>)
    requires
        cs.len() < usize::MAX,
    ensures
        is_arith(fold_arith_run(cs)),
        instr_count(fold_arith_run(cs)) <= cs.len(),
        arith_net(fold_arith_run(cs)) == arith_char_net(cs),
    decreases cs.len(),
{
    if cs.len() > 0 {
        lemma_fold_arith_net(cs.drop_last());
    }
}

/// The canonical cell value after moving `v` by `n`, modulo 256.
pub open spec fn cell_shift(v: u8, n: int) -> u8 {
    (((v + n) % 256) as u8)
}

/// The cell value a run of `+`/`-` characters produces when applied one
/// character at a time, wrapping as the stepping engines do.
pub open spec fn apply_arith_chars(v: u8, cs: Seq<u8>) -> u8
    decreases cs.len(),
{
    if cs.len() == 0 {
        v
    } else {
        let v2 = apply_arith_chars(v, cs.drop_last());
        if cs.last() == OP_ADD {
            crate::tape::wrap_add(v2, 1)
        } else {
            crate::tape::wrap_sub(v2, 1)
        }
    }
}

/// One wrapping increment or decrement shifts the canonical value by one.
proof fn lemma_cell_shift_step(v: u8, n: int)
    ensures
        crate::tape::wrap_add(cell_shift(v, n), 1) == cell_shift(v, n + 1),
        crate::tape::wrap_sub(cell_shift(v, n), 1) == cell_shift(v, n - 1),
{
    let x = v + n;
    vstd::arithmetic::div_mod::lemma_mod_bound(x, 256);
    vstd::arithmetic::div_mod::lemma_add_mod_noop(x, 1, 256);
    vstd::arithmetic::div_mod::lemma_add_mod_noop(x, 255, 256);
    vstd::arithmetic::div_mod::lemma_mod_add_multiples_vanish(x - 1, 256);
    assert(1int % 256int == 1);
    assert(255int % 256int == 255);
    assert((x % 256 + 1) % 256 == (x + 1) % 256);
    assert((x % 256 + 255) % 256 == (x + 255) % 256);
    assert((x + 255) % 256 == (x - 1) % 256);
}

/// Folding is semantically transparent for arithmetic runs: executing the
/// folded instruction and executing the characters one at a time land the
/// current cell on exactly the same value, for every starting value.
pub proof fn lemma_fold_arith_transparent(v: u8, cs: Seq<u8>)
    requires
        cs.len() < usize::MAX,
    ensures
        cell_shift(v, arith_net(fold_arith_run(cs))) == apply_arith_chars(v, cs),
    decreases cs.len(),
{
    lemma_fold_arith_net(cs);
    if cs.len() == 0 {
        vstd::arithmetic::div_mod::lemma_small_mod(v as nat, 256);
    } else {
        lemma_fold_arith_transparent(v, cs.drop_last());
        lemma_fold_arith_net(cs.drop_last());
        lemma_cell_shift_step(v, arith_char_net(cs.drop_last()));
    }
}

/// The net pointer change a run of `>`/`<` characters asks for.
pub open spec fn move_char_net(cs: Seq<u8>) -> int
    decreases cs.len(),
{
    if cs.len() == 0 {
        0
    } else {
        move_char_net(cs.drop_last()) + (if cs.last() == OP_RIGHT {
            1int
        } else {
            -1int
        })
    }
}

/// The single instruction an uninterrupted run of `>`/`<` characters
/// folds to, one `fold_move` step per character.
pub open spec fn fold_move_run(cs: Seq<u8>) -> Instruction
    decreases cs.len(),
{
    if cs.len() == 0 {
        Instruction::MoveRight(0)
    } else {
        fold_move(fold_move_run(cs.drop_last()), cs.last() == OP_RIGHT)
    }
}

/// Folding never loses a character: the folded move instruction carries
/// exactly the run's signed net displacement.
pub proof fn lemma_fold_move_net(cs: Seq<u8>)
    requires
        cs.len() < usize::MAX,
    ensures
        is_move(fold_move_run(cs)),
        instr_count(fold_move_run(cs)) <= cs.len(),
        move_net(fold_move_run(cs)) == move_char_net(cs),
    decreases cs.len(),
{
    if cs.len() > 0 {
        lemma_fold_move_net(cs.drop_last());
    }
}

/// Where a folded move instruction puts a pointer at `p`: moving left
/// past the zero bound is an error, reported as `None`.
pub open spec fn apply_move(p: int, ins: Instruction) -> Option<int> {
    match ins {
        Instruction::MoveRight(c) => Some(p + c),
        Instruction::MoveLeft(c) => if c <= p {
            Some(p - c)
        } else {
            None
        },
        _ => Some(p),
    }
}

/// Where a run of `>`/`<` characters puts a pointer at `p` when applied
/// one character at a time; `None` as soon as one `<` would cross zero.
pub open spec fn apply_move_chars(p: int, cs: Seq<u8>) -> Option<int>
    decreases cs.len(),
{
    if cs.len() == 0 {
        Some(p)
    } else {
        match apply_move_chars(p, cs.drop_last()) {
            None => None,
            Some(q) => if cs.last() == OP_RIGHT {
                Some(q + 1)
            } else if q >= 1 {
                Some(q - 1)
            } else {
                None
            },
        }
    }
}

proof fn lemma_apply_move_chars_net(p: int, cs: Seq<u8>)
    requires
        p >= 0,
        apply_move_chars(p, cs) is Some,
    ensures
        apply_move_chars(p, cs) == Some(p + move_char_net(cs)),
        p + move_char_net(cs) >= 0,
    decreases cs.len(),
{
    if cs.len() > 0 {
        lemma_apply_move_chars_net(p, cs.drop_last());
    }
}

/// Folding is semantically transparent for move runs that stay within the
/// left bound: the folded instruction lands the pointer on the same cell
/// the characters reach one at a time. (Only this direction holds: a run
/// that dips below zero midway errors character by character, while its
/// fold can be a harmless net move.)
pub proof fn lemma_fold_move_transparent(p: int, cs: Seq<u8>)
    requires
        cs.len() < usize::MAX,
        p >= 0,
        apply_move_chars(p, cs) is Some,
    ensures
        apply_move(p, fold_move_run(cs)) == apply_move_chars(p, cs),
{
    lemma_fold_move_net(cs);
    lemma_apply_move_chars_net(p, cs);
}

/// One arithmetic source character folded into the accumulated
/// instruction, exactly as `fold_arith` says.
fn fold_arith_exec(prev: Instruction, positive: bool) -> (r: Instruction)
    requires
        is_arith(prev),
        instr_count(prev) < usize::MAX,
    ensures
        r == fold_arith(prev, positive),
{
    match prev {
        Instruction::Add(c) => {
            if positive {
                Instruction::Add(c + 1)
            } else if c > 0 {
                Instruction::Add(c - 1)
            } else {
                Instruction::Sub(1)
            }
        },
        Instruction::Sub(c) => {
            if !positive {
                Instruction::Sub(c + 1)
            } else if c > 0 {
                Instruction::Sub(c - 1)
            } else {
                Instruction::Add(1)
            }
        },
        _ => prev,
    }
}

/// One move source character folded into the accumulated instruction,
/// exactly as `fold_move` says.
fn fold_move_exec(prev: Instruction, rightward: bool) -> (r: Instruction)
    requires
        is_move(prev),
        instr_count(prev) < usize::MAX,
    ensures
        r == fold_move(prev, rightward),
{
    match prev {
        Instruction::MoveRight(c) => {
            if rightward {
                Instruction::MoveRight(c + 1)
            } else if c > 0 {
                Instruction::MoveRight(c - 1)
            } else {
                Instruction::MoveLeft(1)
            }
        },
        Instruction::MoveLeft(c) => {
            if !rightward {
                Instruction::MoveLeft(c + 1)
            } else if c > 0 {
                Instruction::MoveLeft(c - 1)
            } else {
                Instruction::MoveRight(1)
            }
        },
        _ => prev,
    }
}

} // verus!
