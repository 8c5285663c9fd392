//! The program-generation helper: builder-style operations that append raw
//! instruction characters to a growable byte buffer. Its output is valid
//! input to the compiler and the interpreter.

use vstd::prelude::*;
use crate::source::{OP_ADD, OP_SUB, OP_RIGHT, OP_LEFT, OP_OUT, OP_IN, OP_OPEN, OP_CLOSE};

verus! {

/// Marker for the builder's loop nesting; it carries no data.
pub struct Stack;

/// A builder appending source characters to a byte buffer.
pub struct Context {
    pub bf: Vec<u8>,
    pub stack: Stack,
}

/// A run of `n` copies of the byte `b`.
pub open spec fn run_of(b: u8, n: int) -> Seq<u8> {
    Seq::new(
        if n >= 0 {
            n as nat
        } else {
            0
        },
        |_j: int| b,
    )
}

impl Context {
    /// Wrap a buffer for appending.
    pub fn new(bf: Vec<u8>) -> (r: Context)
        ensures
            r.bf == bf,
    {
        Context { bf, stack: Stack }
    }

    /// Append `amount` increment characters.
    pub fn increase(&mut self, amount: u8)
        ensures
            final(self).bf@ == old(self).bf@ + run_of(OP_ADD, amount as int),
    {
        self.push_run(OP_ADD, amount);
    }

    /// Append `amount` decrement characters.
    pub fn decrease(&mut self, amount: u8)
        ensures
            final(self).bf@ == old(self).bf@ + run_of(OP_SUB, amount as int),
    {
        self.push_run(OP_SUB, amount);
    }

    /// Append `amount` move-right characters.
    pub fn move_right(&mut self, amount: u8)
        ensures
            final(self).bf@ == old(self).bf@ + run_of(OP_RIGHT, amount as int),
    {
        self.push_run(OP_RIGHT, amount);
    }

    /// Append `amount` move-left characters.
    pub fn move_left(&mut self, amount: u8)
        ensures
            final(self).bf@ == old(self).bf@ + run_of(OP_LEFT, amount as int),
    {
        self.push_run(OP_LEFT, amount);
    }

    /// Append one output character.
    pub fn output(&mut self)
        ensures
            final(self).bf@ == old(self).bf@.push(OP_OUT),
    {
        self.bf.push(OP_OUT);
    }

    /// Append one input character.
    pub fn input(&mut self)
        ensures
            final(self).bf@ == old(self).bf@.push(OP_IN),
    {
        self.bf.push(OP_IN);
    }

    /// Append `amount` copies of `b`.
    fn push_run(&mut self, b: u8, amount: u8)
        ensures
            final(self).bf@ == old(self).bf@ + run_of(b, amount as int),
    {
        let mut k: u8 = 0;
        while k < amount
            invariant
                k <= amount,
                self.bf@ == old(self).bf@ + run_of(b, k as int),
            decreases amount - k,
        {
            proof {
                assert(old(self).bf@ + run_of(b, k as int + 1) =~= (old(self).bf@ + run_of(
                    b,
                    k as int,
                )).push(b));
            }
            self.bf.push(b);
            k += 1;
        }
        proof {
            assert(old(self).bf@ + run_of(b, 0) =~= old(self).bf@);
        }
    }

    /// Emit a loop: an open bracket, whatever `inner` emits between the
    /// brackets, a close bracket. Hands back the builder together with
    /// `inner`'s own result.
    pub fn begin_loop<O, F: FnOnce(Context) -> (Context, O)>(self, inner: F) -> (r: (Context, O))
        requires
            forall|c: Context|
                c.bf@ == self.bf@.push(OP_OPEN) ==> #[trigger] call_requires(inner, (c,)),
        ensures
            exists|c: Context, mid: (Context, O)|
                {
                    &&& c.bf@ == self.bf@.push(OP_OPEN)
                    &&& #[trigger] call_ensures(inner, (c,), mid)
                    &&& r.0.bf@ == mid.0.bf@.push(OP_CLOSE)
                    &&& r.1 == mid.1
                },
    {
        let mut ctx = self;
        ctx.bf.push(OP_OPEN);
        let inner_result = inner(ctx);
        let (mut ctx2, result) = inner_result;
        ctx2.bf.push(OP_CLOSE);
        (ctx2, result)
    }
}

/// Build a program through builder calls: a fresh buffer is seeded with
/// one increment character, handed to `f`, and the finished byte buffer
/// is returned. This is the sanctioned way to construct source programs
/// without hand-writing instruction characters.
pub fn construct<F: FnOnce(Context) -> Context>(f: F) -> (r: Vec<u8>)
    requires
        forall|c: Context| c.bf@ == seq![OP_ADD] ==> #[trigger] call_requires(f, (c,)),
    ensures
        exists|c: Context, c2: Context|
            {
                &&& c.bf@ == seq![OP_ADD]
                &&& #[trigger] call_ensures(f, (c,), c2)
                &&& r@ == c2.bf@
            },
{
    let bf = Vec::new();
    let mut context = Context::new(bf);
    context.increase(1);
    proof {
        assert(context.bf@ =~= seq![OP_ADD]);
    }
    let done = f(context);
    done.bf
}

} // verus!
