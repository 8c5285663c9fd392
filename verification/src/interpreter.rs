//! The direct stepping engine: executes raw source bytes one instruction per
//! `tick`, resolving bracket and comment jumps lazily with a memoized cache,
//! and optionally recording an undo log of every executed instruction.

use vstd::prelude::*;
use std::collections::HashMap;
use std::collections::VecDeque;
use crate::compiler::{bracket_delta, depth_through};
use crate::source::{OP_ADD, OP_SUB, OP_RIGHT, OP_LEFT, OP_OUT, OP_IN, OP_OPEN, OP_CLOSE, OP_COMMENT_OPEN, OP_COMMENT_CLOSE};
use crate::tape::{cell_at, grown, wrap_add, wrap_sub, grow_to};

verus! {

broadcast use vstd::std_specs::hash::group_hash_axioms, vstd::slice::axiom_spec_len;

/// The length of a slice always fits the machine's word.
proof fn slice_len_bound<T>(s: &[T])
    ensures
        s@.len() <= usize::MAX,
{
    assert(vstd::slice::spec_slice_len(s) == s@.len());
}

/// One reversible record of a state mutation made by an executed
/// instruction: `Add`/`Sub` carry how far the current cell moved (modulo
/// 256), `Move` the cell pointer's signed offset, and `Jump` the position
/// control jumped away from — each exactly enough to reverse that one
/// instruction.
#[derive(Debug, Clone, PartialEq, Eq, Hash, Structural)]
pub enum Delta {
    Add(u8),
    Sub(u8),
    Move(isize),
    Jump(usize),
}

/// Suspension and failure signals returned by the stepping engine. `End` and
/// `RequiresInput` are expected pause/termination signals, not errors.
#[derive(Debug, Clone, PartialEq, Eq, Hash, Structural)]
pub enum Output {
    RequiresInput,
    End,
    UnallowedCharacter(usize),
    TriedToMoveOutOfBounds,
}

/// The observable machine state of an interpreter: everything a step acts
/// on. The memoized jump cache is deliberately absent: it never changes
/// what a step does, only how fast a jump target is found. What a step
/// does to the cache is pinned separately, by `cache_after`.
#[verifier::ext_equal]
pub ghost struct State {
    pub pc: int,
    pub tape: Seq<u8>,
    pub location: int,
    pub input: Seq<u8>,
    pub history: Seq<Delta>,
}

/// The history log after recording one delta, if recording is on.
pub open spec fn hist(h: Seq<Delta>, keep: bool, d: Delta) -> Seq<Delta> {
    if keep {
        h.push(d)
    } else {
        h
    }
}

/// Forward depth-counting scan over `open`/`close` delimiters, starting at
/// position `i` with `depth` pairs already open. Yields the position just
/// past the close that balances the scan, or `None` if the source ends first.
pub open spec fn scan_forward(bf: Seq<u8>, i: int, depth: int, open: u8, close: u8) -> Option<int>
    decreases bf.len() - i,
{
    if i < 0 || i >= bf.len() {
        None
    } else {
        let d = if bf[i] == open {
            depth + 1
        } else if bf[i] == close {
            depth - 1
        } else {
            depth
        };
        if d == 0 {
            Some(i + 1)
        } else {
            scan_forward(bf, i + 1, d, open, close)
        }
    }
}

/// Backward depth-counting scan over `[`/`]`, starting at position `i` with
/// `depth` pairs open. Yields the position of the `[` that balances the
/// scan, or `None` if the scan falls off the left end of the source.
pub open spec fn scan_back(bf: Seq<u8>, i: int, depth: int) -> Option<int>
    decreases i + 1,
{
    if i < 0 || i >= bf.len() {
        None
    } else {
        let d = if bf[i] == OP_CLOSE {
            depth + 1
        } else if bf[i] == OP_OPEN {
            depth - 1
        } else {
            depth
        };
        if d == 0 {
            Some(i)
        } else {
            scan_back(bf, i - 1, d)
        }
    }
}

/// Where an open bracket at `p` jumps when taken: just past its matching `]`.
pub open spec fn bracket_forward_target(bf: Seq<u8>, p: int) -> Option<int> {
    scan_forward(bf, p + 1, 1, OP_OPEN, OP_CLOSE)
}

/// Where a close bracket at `p` jumps when taken: its matching `[`.
pub open spec fn bracket_back_target(bf: Seq<u8>, p: int) -> Option<int> {
    scan_back(bf, p - 1, 1)
}

/// Where a comment opener at `p` skips to: just past its matching `}`.
pub open spec fn comment_skip_target(bf: Seq<u8>, p: int) -> Option<int> {
    scan_forward(bf, p + 1, 1, OP_COMMENT_OPEN, OP_COMMENT_CLOSE)
}

proof fn lemma_scan_back_found(bf: Seq<u8>, i: int, d: int, p: int)
    requires
        d >= 1,
        i < bf.len(),
        scan_back(bf, i, d) == Some(p),
    ensures
        0 <= p <= i,
        bf[p] == OP_OPEN,
        depth_through(bf, p) == depth_through(bf, i + 1) - d,
        forall|m: int| p < m <= i ==> #[trigger] depth_through(bf, m) >= depth_through(bf, i + 1) - d + 1,
    decreases i + 1,
{
    let c = bf[i];
    let dd = if c == OP_CLOSE {
        d + 1
    } else if c == OP_OPEN {
        d - 1
    } else {
        d
    };
    assert(depth_through(bf, i + 1) == depth_through(bf, i) + bracket_delta(c));
    if dd == 0 {
    } else {
        lemma_scan_back_found(bf, i - 1, dd, p);
    }
}

proof fn lemma_scan_forward_reaches(bf: Seq<u8>, i: int, d: int, q: int)
    requires
        d >= 1,
        0 <= i <= q < bf.len(),
        depth_through(bf, q + 1) == depth_through(bf, i) - d,
        forall|m: int| i <= m < q ==> #[trigger] depth_through(bf, m + 1) >= depth_through(bf, i) - d + 1,
    ensures
        scan_forward(bf, i, d, OP_OPEN, OP_CLOSE) == Some(q + 1),
    decreases q - i,
{
    let c = bf[i];
    let dd = if c == OP_OPEN {
        d + 1
    } else if c == OP_CLOSE {
        d - 1
    } else {
        d
    };
    assert(depth_through(bf, i + 1) == depth_through(bf, i) + bracket_delta(c));
    if i == q {
    } else {
        assert(depth_through(bf, i + 1) >= depth_through(bf, i) - d + 1);
        lemma_scan_forward_reaches(bf, i + 1, dd, q);
    }
}

/// Scan symmetry over raw source: the `[` that the backward scan finds
/// for a `]` at `q` is an open bracket whose own forward scan lands just
/// past that same `]` — the two members of a bracket pair reference each
/// other, with either engine's scans.
pub proof fn lemma_scan_symmetry(bf: Seq<u8>, q: int, p: int)
    requires
        0 <= q < bf.len(),
        bf[q] == OP_CLOSE,
        bracket_back_target(bf, q) == Some(p),
    ensures
        0 <= p < q,
        bf[p] == OP_OPEN,
        bracket_forward_target(bf, p) == Some(q + 1),
{
    lemma_scan_back_found(bf, q - 1, 1, p);
    assert(depth_through(bf, p + 1) == depth_through(bf, p) + bracket_delta(bf[p]));
    assert(depth_through(bf, q + 1) == depth_through(bf, q) + bracket_delta(bf[q]));
    assert(depth_through(bf, p + 1) == depth_through(bf, q));
    assert forall|m: int| p + 1 <= m < q implies #[trigger] depth_through(bf, m + 1)
        >= depth_through(bf, p + 1) - 1 + 1 by {
        if m + 1 <= q - 1 {
            assert(depth_through(bf, m + 1) >= depth_through(bf, q) - 1 + 1);
        }
    }
    lemma_scan_forward_reaches(bf, p + 1, 1, q);
}

/// What one `tick` does: the next state and the returned signal, as a
/// function of the source bytes, the history switch and the abstract state.
/// A step that fails (or pauses for input) leaves the state as it was,
/// except that reading the current cell may already have grown the tape.
/// Moving right stops one growth block short of the address-space end.
pub open spec fn istep(bf: Seq<u8>, keep: bool, s: State) -> (State, Result<Option<u8>, Output>) {
    if !(0 <= s.pc < bf.len()) {
        (s, Err(Output::End))
    } else {
        let c = bf[s.pc];
        if c == OP_RIGHT {
            if s.location >= usize::MAX - 100 {
                (s, Err(Output::TriedToMoveOutOfBounds))
            } else {
                (
                    State {
                        pc: s.pc + 1,
                        location: s.location + 1,
                        history: hist(s.history, keep, Delta::Move(1)),
                        ..s
                    },
                    Ok(None),
                )
            }
        } else if c == OP_LEFT {
            if s.location == 0 {
                (s, Err(Output::TriedToMoveOutOfBounds))
            } else {
                (
                    State {
                        pc: s.pc + 1,
                        location: s.location - 1,
                        history: hist(s.history, keep, Delta::Move(-1isize)),
                        ..s
                    },
                    Ok(None),
                )
            }
        } else if c == OP_ADD {
            let v = wrap_add(cell_at(s.tape, s.location), 1);
            (
                State {
                    pc: s.pc + 1,
                    tape: grown(s.tape, s.location).update(s.location, v),
                    history: hist(s.history, keep, Delta::Add(1)),
                    ..s
                },
                Ok(None),
            )
        } else if c == OP_SUB {
            let v = wrap_sub(cell_at(s.tape, s.location), 1);
            (
                State {
                    pc: s.pc + 1,
                    tape: grown(s.tape, s.location).update(s.location, v),
                    history: hist(s.history, keep, Delta::Sub(1)),
                    ..s
                },
                Ok(None),
            )
        } else if c == OP_OUT {
            (
                State {
                    pc: s.pc + 1,
                    tape: grown(s.tape, s.location),
                    history: hist(s.history, keep, Delta::Add(0)),
                    ..s
                },
                Ok(Some(cell_at(s.tape, s.location))),
            )
        } else if c == OP_IN {
            if s.input.len() == 0 {
                (s, Err(Output::RequiresInput))
            } else {
                let b0 = s.input[0];
                (
                    State {
                        pc: s.pc + 1,
                        tape: grown(s.tape, s.location).update(s.location, b0),
                        input: s.input.drop_first(),
                        history: hist(s.history, keep, Delta::Add(wrap_sub(b0, cell_at(s.tape, s.location)))),
                        ..s
                    },
                    Ok(None),
                )
            }
        } else if c == OP_OPEN {
            let t = grown(s.tape, s.location);
            if cell_at(s.tape, s.location) != 0 {
                (State { pc: s.pc + 1, tape: t, ..s }, Ok(None))
            } else {
                match bracket_forward_target(bf, s.pc) {
                    Some(j) => (
                        State {
                            pc: j,
                            tape: t,
                            history: hist(s.history, keep, Delta::Jump(s.pc as usize)),
                            ..s
                        },
                        Ok(None),
                    ),
                    None => (State { tape: t, ..s }, Err(Output::TriedToMoveOutOfBounds)),
                }
            }
        } else if c == OP_CLOSE {
            let t = grown(s.tape, s.location);
            if cell_at(s.tape, s.location) == 0 {
                (State { pc: s.pc + 1, tape: t, ..s }, Ok(None))
            } else {
                match bracket_back_target(bf, s.pc) {
                    Some(j) => (
                        State {
                            pc: j,
                            tape: t,
                            history: hist(s.history, keep, Delta::Jump(s.pc as usize)),
                            ..s
                        },
                        Ok(None),
                    ),
                    None => (State { tape: t, ..s }, Err(Output::TriedToMoveOutOfBounds)),
                }
            }
        } else if c == OP_COMMENT_OPEN {
            match comment_skip_target(bf, s.pc) {
                Some(j) => (
                    State { pc: j, history: hist(s.history, keep, Delta::Jump(s.pc as usize)), ..s },
                    Ok(None),
                ),
                None => (s, Err(Output::TriedToMoveOutOfBounds)),
            }
        } else {
            (s, Err(Output::UnallowedCharacter(s.pc as usize)))
        }
    }
}

/// Stepping bounded by `fuel`: steps silently until a byte is emitted, a
/// signal is raised, or the fuel is spent (`Ok(None)` then means "budget
/// exhausted, no event yet").
pub open spec fn irun(bf: Seq<u8>, keep: bool, s: State, fuel: nat) -> (
    State,
    Result<Option<u8>, Output>,
)
    decreases fuel,
{
    if !(0 <= s.pc < bf.len()) {
        if fuel == 0 {
            (s, Ok(None))
        } else {
            (s, Err(Output::End))
        }
    } else if fuel == 0 {
        (s, Ok(None))
    } else {
        let (s2, r) = istep(bf, keep, s);
        match r {
            Ok(None) => irun(bf, keep, s2, (fuel - 1) as nat),
            Ok(Some(b)) => (s2, Ok(Some(b))),
            Err(e) => (s2, Err(e)),
        }
    }
}

/// Spending one more unit of fuel after an exhausted run performs exactly
/// one further step (or reports `End` past the end of the source).
pub proof fn lemma_irun_step(bf: Seq<u8>, keep: bool, s: State, n: nat)
    requires
        irun(bf, keep, s, n).1 == Ok::<Option<u8>, Output>(None),
    ensures
        ({
            let m = irun(bf, keep, s, n).0;
            irun(bf, keep, s, n + 1) == (if !(0 <= m.pc < bf.len()) {
                (m, Err::<Option<u8>, Output>(Output::End))
            } else {
                istep(bf, keep, m)
            })
        }),
    decreases n,
{
    reveal_with_fuel(irun, 3);
    if n == 0 {
    } else {
        if !(0 <= s.pc < bf.len()) {
        } else {
            let (s2, r) = istep(bf, keep, s);
            lemma_irun_step(bf, keep, s2, (n - 1) as nat);
        }
    }
}

/// A run that comes back silent with `n` units of fuel was silent for every
/// smaller budget as well.
pub proof fn lemma_irun_quiet_prefix(bf: Seq<u8>, keep: bool, s: State, k: nat, n: nat)
    requires
        k <= n,
        irun(bf, keep, s, n).1 == Ok::<Option<u8>, Output>(None),
    ensures
        irun(bf, keep, s, k).1 == Ok::<Option<u8>, Output>(None),
    decreases n,
{
    if !(0 <= s.pc < bf.len()) {
    } else if n == 0 {
    } else {
        let (s2, r) = istep(bf, keep, s);
        if k > 0 {
            lemma_irun_quiet_prefix(bf, keep, s2, (k - 1) as nat, (n - 1) as nat);
        }
    }
}

/// Some number of abstract steps from `s` reaches an emit or a signal; what
/// an unbounded run demands, since it would otherwise never return.
pub open spec fn concludes(bf: Seq<u8>, keep: bool, s: State) -> bool {
    exists|n: nat| irun(bf, keep, s, n).1 != Ok::<Option<u8>, Output>(None)
}

/// Running with `fuel` units of work, collecting at most `max` emitted
/// bytes: the final state, the bytes in order, and the signal that ended
/// the run — `None` when the byte budget or the fuel ran out first.
pub open spec fn iemits(bf: Seq<u8>, keep: bool, s: State, fuel: nat, max: nat) -> (
    State,
    Seq<u8>,
    Option<Output>,
)
    decreases fuel,
{
    if max == 0 {
        (s, Seq::<u8>::empty(), None)
    } else if !(0 <= s.pc < bf.len()) {
        (s, Seq::<u8>::empty(), Some(Output::End))
    } else if fuel == 0 {
        (s, Seq::<u8>::empty(), None)
    } else {
        let (s2, r) = istep(bf, keep, s);
        match r {
            Ok(None) => iemits(bf, keep, s2, (fuel - 1) as nat, max),
            Ok(Some(b)) => {
                let (s3, rest, e) = iemits(bf, keep, s2, (fuel - 1) as nat, (max - 1) as nat);
                (s3, seq![b] + rest, e)
            },
            Err(e) => (s2, Seq::<u8>::empty(), Some(e)),
        }
    }
}

/// With `fuel` units of work the collecting run comes to a conclusion: the
/// byte budget is filled, or a signal ends it.
pub open spec fn emits_conclude(bf: Seq<u8>, keep: bool, s: State, fuel: nat, max: nat) -> bool {
    let (s2, bytes, e) = iemits(bf, keep, s, fuel, max);
    bytes.len() == max || e is Some
}

/// Terminal state is idempotent: past the end of the source every further
/// step reports `End` and mutates nothing, every time.
pub proof fn lemma_end_idempotent(bf: Seq<u8>, keep: bool, s: State, fuel: nat)
    requires
        s.pc >= bf.len(),
        fuel >= 1,
    ensures
        istep(bf, keep, s) == (s, Err::<Option<u8>, Output>(Output::End)),
        irun(bf, keep, s, fuel) == (s, Err::<Option<u8>, Output>(Output::End)),
{
}

/// Resumability: a step that pauses for input leaves the state untouched,
/// and after exactly one byte is appended to the (empty) queue the very same
/// instruction consumes it and execution advances exactly one instruction.
pub proof fn lemma_input_resumes(bf: Seq<u8>, keep: bool, s: State, b: u8)
    requires
        istep(bf, keep, s).1 == Err::<Option<u8>, Output>(Output::RequiresInput),
    ensures
        istep(bf, keep, s).0 == s,
        ({
            let (s2, r2) = istep(bf, keep, State { input: s.input.push(b), ..s });
            &&& r2 == Ok::<Option<u8>, Output>(None)
            &&& s2.pc == s.pc + 1
            &&& s2.tape == grown(s.tape, s.location).update(s.location, b)
            &&& s2.location == s.location
            &&& s2.input == s.input
            &&& s2.history == hist(s.history, keep, Delta::Add(wrap_sub(b, cell_at(s.tape, s.location))))
        }),
{
    assert(0 <= s.pc < bf.len() && bf[s.pc] == OP_IN && s.input.len() == 0);
    let s1 = State { input: s.input.push(b), ..s };
    assert(s1.input[0] == b);
    assert(s1.input.drop_first() =~= s.input);
}

/// Left-bound safety: a step on `<` with the cell pointer at zero reports an
/// error and leaves everything, the pointer included, unchanged.
pub proof fn lemma_left_bound_safe(bf: Seq<u8>, keep: bool, s: State)
    requires
        0 <= s.pc < bf.len(),
        bf[s.pc] == OP_LEFT,
        s.location == 0,
    ensures
        istep(bf, keep, s) == (s, Err::<Option<u8>, Output>(Output::TriedToMoveOutOfBounds)),
{
}

/// Every memoized entry agrees with the depth-counting scan it stands for.
pub open spec fn cache_wf(bf: Seq<u8>, cache: Map<usize, usize>) -> bool {
    forall|p: usize| #[trigger]
        cache.contains_key(p) ==> {
            &&& p < bf.len()
            &&& (bf[p as int] == OP_OPEN || bf[p as int] == OP_CLOSE || bf[p as int] == OP_COMMENT_OPEN)
            &&& (bf[p as int] == OP_OPEN ==> bracket_forward_target(bf, p as int) == Some(
                cache[p] as int,
            ))
            &&& (bf[p as int] == OP_CLOSE ==> bracket_back_target(bf, p as int) == Some(
                cache[p] as int,
            ))
            &&& (bf[p as int] == OP_COMMENT_OPEN ==> comment_skip_target(bf, p as int) == Some(
                cache[p] as int,
            ))
        }
}

/// Inserting a freshly scanned target under the position it was
/// scanned from keeps every memoized entry a true scan result.
proof fn lemma_cache_insert_wf(bf: Seq<u8>, cache: Map<usize, usize>, p: usize, target: usize)
    requires
        cache_wf(bf, cache),
        p < bf.len(),
        bf[p as int] == OP_OPEN || bf[p as int] == OP_CLOSE || bf[p as int] == OP_COMMENT_OPEN,
        bf[p as int] == OP_OPEN ==> bracket_forward_target(bf, p as int) == Some(target as int),
        bf[p as int] == OP_CLOSE ==> bracket_back_target(bf, p as int) == Some(target as int),
        bf[p as int] == OP_COMMENT_OPEN ==> comment_skip_target(bf, p as int) == Some(
            target as int,
        ),
    ensures
        cache_wf(bf, cache.insert(p, target)),
{
    let cache2 = cache.insert(p, target);
    assert forall|k: usize| #[trigger] cache2.contains_key(k) implies {
        &&& k < bf.len()
        &&& (bf[k as int] == OP_OPEN || bf[k as int] == OP_CLOSE || bf[k as int]
            == OP_COMMENT_OPEN)
        &&& (bf[k as int] == OP_OPEN ==> bracket_forward_target(bf, k as int) == Some(
            cache2[k] as int,
        ))
        &&& (bf[k as int] == OP_CLOSE ==> bracket_back_target(bf, k as int) == Some(
            cache2[k] as int,
        ))
        &&& (bf[k as int] == OP_COMMENT_OPEN ==> comment_skip_target(bf, k as int) == Some(
            cache2[k] as int,
        ))
    } by {
        if k != p {
            assert(cache.contains_key(k));
            assert(cache2[k] == cache[k]);
        }
    }
}

/// The memo cache after one step: a taken jump or a comment skip inserts
/// exactly the discovered target under the position control left; every
/// other step — fall-through, arithmetic, moves, output, input, pause,
/// error, end — leaves the cache alone. (Re-taking a memoized jump
/// re-inserts the same binding, so a position is only ever bound once.)
pub open spec fn cache_after(bf: Seq<u8>, s: State, cache: Map<usize, usize>) -> Map<
    usize,
    usize,
> {
    if !(0 <= s.pc < bf.len()) {
        cache
    } else {
        let c = bf[s.pc];
        if c == OP_OPEN && cell_at(s.tape, s.location) == 0 {
            match bracket_forward_target(bf, s.pc) {
                Some(j) => cache.insert(s.pc as usize, j as usize),
                None => cache,
            }
        } else if c == OP_CLOSE && cell_at(s.tape, s.location) != 0 {
            match bracket_back_target(bf, s.pc) {
                Some(j) => cache.insert(s.pc as usize, j as usize),
                None => cache,
            }
        } else if c == OP_COMMENT_OPEN {
            match comment_skip_target(bf, s.pc) {
                Some(j) => cache.insert(s.pc as usize, j as usize),
                None => cache,
            }
        } else {
            cache
        }
    }
}

/// A step only ever extends a well-formed memo cache: the one entry it
/// may insert is the target the scans would find, so an already-memoized
/// position keeps its binding — entries are never changed or removed.
pub proof fn lemma_cache_after_extends(bf: Seq<u8>, s: State, cache: Map<usize, usize>)
    requires
        cache_wf(bf, cache),
        bf.len() <= usize::MAX,
    ensures
        cache.submap_of(cache_after(bf, s, cache)),
{
    let after = cache_after(bf, s, cache);
    assert forall|k: usize| #[trigger]
        cache.dom().contains(k) implies after.dom().contains(k) && cache[k] == after[k] by {
        assert(cache.contains_key(k));
    }
}

/// The direct interpreter: source bytes, a program counter into them, the
/// tape with its cell pointer, a FIFO input queue, the memoized jump cache,
/// and the optional undo log.
#[derive(Debug, Clone, PartialEq)]
pub struct Interpreter<'a> {
    pub bf: &'a [u8],
    pub pc: usize,
    pub cache: HashMap<usize, usize>,
    pub tape: Vec<u8>,
    pub location: usize,
    pub input: VecDeque<u8>,
    pub history: Vec<Delta>,
    pub keep_history: bool,
}

impl<'a> Interpreter<'a> {
    /// The abstract machine state this interpreter is in.
    pub open spec fn abs(&self) -> State {
        State {
            pc: self.pc as int,
            tape: self.tape@,
            location: self.location as int,
            input: self.input@,
            history: self.history@,
        }
    }

    /// Well-formed: the cell pointer leaves room for a growth block, and the
    /// jump cache only memoizes true scan results.
    pub open spec fn wf(&self) -> bool {
        &&& self.location <= usize::MAX - 100
        &&& cache_wf(self.bf@, self.cache@)
    }

    /// A fresh machine over `bf`: 30,000 zeroed cells, both pointers at
    /// zero, no pending input, no history being kept.
    pub fn new(bf: &'a [u8]) -> (r: Self)
        ensures
            r.wf(),
            r.bf@ == bf@,
            r.keep_history == false,
            r.cache@ == Map::<usize, usize>::empty(),
            r.abs() == (State {
                pc: 0,
                tape: Seq::new(30000, |_i: int| 0u8),
                location: 0,
                input: Seq::<u8>::empty(),
                history: Seq::<Delta>::empty(),
            }),
    {
        let r = Self {
            bf,
            pc: 0,
            cache: HashMap::new(),
            tape: vec![0u8; 30000],
            location: 0,
            input: VecDeque::new(),
            history: Vec::new(),
            keep_history: false,
        };
        proof {
            assert(r.tape@ =~= Seq::new(30000, |_i: int| 0u8));
            assert(r.abs() =~= (State {
                pc: 0,
                tape: Seq::new(30000, |_i: int| 0u8),
                location: 0,
                input: Seq::<u8>::empty(),
                history: Seq::<Delta>::empty(),
            }));
        }
        r
    }

    /// Turn history recording on; every following mutating step appends one
    /// `Delta` to the log.
    pub fn keep_history(&mut self) -> (r: &mut Self)
        ensures
            *r == (Interpreter { keep_history: true, ..*old(self) }),
            *final(self) == *final(r),
    {
        self.keep_history = true;
        self
    }

    /// Turn history recording off and discard the log.
    pub fn stop_keeping_histroy(&mut self) -> (r: &mut Self)
        ensures
            r.bf == old(self).bf,
            r.pc == old(self).pc,
            r.cache == old(self).cache,
            r.tape == old(self).tape,
            r.location == old(self).location,
            r.input == old(self).input,
            r.history@ == Seq::<Delta>::empty(),
            r.keep_history == false,
            *final(self) == *final(r),
    {
        self.keep_history = false;
        self.history.clear();
        self
    }

    /// Mutable access to tape cell `index`, growing the tape on demand.
    pub fn cell(&mut self, index: usize) -> (c: &mut u8)
        requires
            index <= usize::MAX - 100,
        ensures
            *c == cell_at(old(self).tape@, index as int),
            final(self).tape@ == grown(old(self).tape@, index as int).update(
                index as int,
                *final(c),
            ),
            final(self).bf == old(self).bf,
            final(self).pc == old(self).pc,
            final(self).cache == old(self).cache,
            final(self).location == old(self).location,
            final(self).input == old(self).input,
            final(self).history == old(self).history,
            final(self).keep_history == old(self).keep_history,
    {
        grow_to(&mut self.tape, index);
        &mut self.tape[index]
    }

    /// The tape cells in `start..end` as a slice.
    pub fn cells(&self, start: usize, end: usize) -> (r: &[u8])
        requires
            start <= end <= self.tape@.len(),
        ensures
            r@ == self.tape@.subrange(start as int, end as int),
    {
        &self.tape[start..end]
    }

    /// Append bytes to the back of the pending-input queue.
    pub fn load_input(&mut self, input: &[u8])
        ensures
            final(self).input@ == old(self).input@ + input@,
            final(self).bf == old(self).bf,
            final(self).pc == old(self).pc,
            final(self).cache == old(self).cache,
            final(self).tape == old(self).tape,
            final(self).location == old(self).location,
            final(self).history == old(self).history,
            final(self).keep_history == old(self).keep_history,
    {
        let mut i: usize = 0;
        while i < input.len()
            invariant
                i <= input@.len(),
                self.input@ == old(self).input@ + input@.subrange(0, i as int),
                self.bf == old(self).bf,
                self.pc == old(self).pc,
                self.cache == old(self).cache,
                self.tape == old(self).tape,
                self.location == old(self).location,
                self.history == old(self).history,
                self.keep_history == old(self).keep_history,
            decreases input@.len() - i,
        {
            proof {
                assert(old(self).input@ + input@.subrange(0, i as int + 1) =~= (old(self).input@
                    + input@.subrange(0, i as int)).push(input@[i as int]));
            }
            self.input.push_back(input[i]);
            i += 1;
        }
        proof {
            assert(input@.subrange(0, input@.len() as int) =~= input@);
        }
    }

    /// `>`: advance the cell pointer by one.
    pub fn move_right(&mut self) -> (r: Result<Option<u8>, Output>)
        requires
            old(self).wf(),
            old(self).pc < old(self).bf@.len(),
            old(self).bf@[old(self).pc as int] == OP_RIGHT,
        ensures
            final(self).wf(),
            final(self).bf == old(self).bf,
            final(self).keep_history == old(self).keep_history,
            final(self).cache@ == cache_after(old(self).bf@, old(self).abs(), old(self).cache@),
            (final(self).abs(), r) == istep(
                old(self).bf@,
                old(self).keep_history,
                old(self).abs(),
            ),
    {
        let ghost s0 = self.abs();
        let ghost bf0 = self.bf@;
        if self.location >= usize::MAX - 100 {
            return Err(Output::TriedToMoveOutOfBounds);
        }
        proof {
            slice_len_bound(self.bf);
        }
        self.pc += 1;
        self.location += 1;
        if self.keep_history {
            self.history.push(Delta::Move(1));
        }
        proof {
            assert(self.abs() =~= istep(bf0, self.keep_history, s0).0);
        }
        Ok(None)
    }

    /// `<`: retreat the cell pointer by one; at position zero this is an
    /// error and nothing changes.
    pub fn move_left(&mut self) -> (r: Result<Option<u8>, Output>)
        requires
            old(self).wf(),
            old(self).pc < old(self).bf@.len(),
            old(self).bf@[old(self).pc as int] == OP_LEFT,
        ensures
            final(self).wf(),
            final(self).bf == old(self).bf,
            final(self).keep_history == old(self).keep_history,
            final(self).cache@ == cache_after(old(self).bf@, old(self).abs(), old(self).cache@),
            (final(self).abs(), r) == istep(
                old(self).bf@,
                old(self).keep_history,
                old(self).abs(),
            ),
    {
        let ghost s0 = self.abs();
        let ghost bf0 = self.bf@;
        if self.location == 0 {
            return Err(Output::TriedToMoveOutOfBounds);
        }
        proof {
            slice_len_bound(self.bf);
        }
        self.pc += 1;
        self.location -= 1;
        if self.keep_history {
            self.history.push(Delta::Move(-1));
        }
        proof {
            assert(self.abs() =~= istep(bf0, self.keep_history, s0).0);
        }
        Ok(None)
    }

    /// `+`: increment the current cell, wrapping modulo 256.
    pub fn add(&mut self) -> (r: Result<Option<u8>, Output>)
        requires
            old(self).wf(),
            old(self).pc < old(self).bf@.len(),
            old(self).bf@[old(self).pc as int] == OP_ADD,
        ensures
            final(self).wf(),
            final(self).bf == old(self).bf,
            final(self).keep_history == old(self).keep_history,
            final(self).cache@ == cache_after(old(self).bf@, old(self).abs(), old(self).cache@),
            (final(self).abs(), r) == istep(
                old(self).bf@,
                old(self).keep_history,
                old(self).abs(),
            ),
    {
        let ghost s0 = self.abs();
        let ghost bf0 = self.bf@;
        proof {
            slice_len_bound(self.bf);
        }
        self.pc += 1;
        let loc = self.location;
        let c = self.cell(loc);
        let v = *c;
        *c = v.wrapping_add(1);
        if self.keep_history {
            self.history.push(Delta::Add(1));
        }
        proof {
            assert(v.wrapping_add(1) == wrap_add(cell_at(s0.tape, s0.location), 1));
            assert(self.abs() =~= istep(bf0, self.keep_history, s0).0);
        }
        Ok(None)
    }

    /// `-`: decrement the current cell, wrapping modulo 256.
    pub fn sub(&mut self) -> (r: Result<Option<u8>, Output>)
        requires
            old(self).wf(),
            old(self).pc < old(self).bf@.len(),
            old(self).bf@[old(self).pc as int] == OP_SUB,
        ensures
            final(self).wf(),
            final(self).bf == old(self).bf,
            final(self).keep_history == old(self).keep_history,
            final(self).cache@ == cache_after(old(self).bf@, old(self).abs(), old(self).cache@),
            (final(self).abs(), r) == istep(
                old(self).bf@,
                old(self).keep_history,
                old(self).abs(),
            ),
    {
        let ghost s0 = self.abs();
        let ghost bf0 = self.bf@;
        proof {
            slice_len_bound(self.bf);
        }
        self.pc += 1;
        let loc = self.location;
        let c = self.cell(loc);
        let v = *c;
        *c = v.wrapping_sub(1);
        if self.keep_history {
            self.history.push(Delta::Sub(1));
        }
        proof {
            assert(v.wrapping_sub(1) == wrap_sub(cell_at(s0.tape, s0.location), 1));
            assert(self.abs() =~= istep(bf0, self.keep_history, s0).0);
        }
        Ok(None)
    }

    /// `.`: emit the current cell's value; the machine state is unchanged
    /// apart from growth of the tape and the advancing program counter.
    pub fn output(&mut self) -> (r: Result<Option<u8>, Output>)
        requires
            old(self).wf(),
            old(self).pc < old(self).bf@.len(),
            old(self).bf@[old(self).pc as int] == OP_OUT,
        ensures
            final(self).wf(),
            final(self).bf == old(self).bf,
            final(self).keep_history == old(self).keep_history,
            final(self).cache@ == cache_after(old(self).bf@, old(self).abs(), old(self).cache@),
            (final(self).abs(), r) == istep(
                old(self).bf@,
                old(self).keep_history,
                old(self).abs(),
            ),
    {
        let ghost s0 = self.abs();
        let ghost bf0 = self.bf@;
        proof {
            slice_len_bound(self.bf);
        }
        self.pc += 1;
        if self.keep_history {
            self.history.push(Delta::Add(0));
        }
        let loc = self.location;
        let c = *self.cell(loc);
        proof {
            assert(grown(s0.tape, s0.location).update(
                s0.location,
                cell_at(s0.tape, s0.location),
            ) =~= grown(s0.tape, s0.location));
            assert(self.abs() =~= istep(bf0, self.keep_history, s0).0);
        }
        Ok(Some(c))
    }

    /// `,`: consume the front of the input queue into the current cell; with
    /// an empty queue, pause — nothing changes, and the same instruction
    /// runs again once input arrives.
    pub fn input(&mut self) -> (r: Result<Option<u8>, Output>)
        requires
            old(self).wf(),
            old(self).pc < old(self).bf@.len(),
            old(self).bf@[old(self).pc as int] == OP_IN,
        ensures
            final(self).wf(),
            final(self).bf == old(self).bf,
            final(self).keep_history == old(self).keep_history,
            final(self).cache@ == cache_after(old(self).bf@, old(self).abs(), old(self).cache@),
            (final(self).abs(), r) == istep(
                old(self).bf@,
                old(self).keep_history,
                old(self).abs(),
            ),
    {
        let ghost s0 = self.abs();
        let ghost bf0 = self.bf@;
        match self.input.pop_front() {
            Some(byte) => {
                proof {
                    slice_len_bound(self.bf);
                }
                self.pc += 1;
                let loc = self.location;
                let c = self.cell(loc);
                let prev = *c;
                *c = byte;
                if self.keep_history {
                    self.history.push(Delta::Add(byte.wrapping_sub(prev)));
                }
                proof {
                    assert(self.input@ =~= s0.input.drop_first());
                    assert(self.abs() =~= istep(bf0, self.keep_history, s0).0);
                }
                Ok(None)
            },
            None => Err(Output::RequiresInput),
        }
    }

    /// `[`: jump past the matching `]` when the current cell is zero, else
    /// fall through. The first jump from a given position finds its target
    /// by a depth-counting scan; the pair is memoized, so later jumps from
    /// the same position cost one lookup.
    #[verifier::loop_isolation(false)]
    pub fn jump_forward(&mut self) -> (r: Result<Option<u8>, Output>)
        requires
            old(self).wf(),
            old(self).pc < old(self).bf@.len(),
            old(self).bf@[old(self).pc as int] == OP_OPEN,
        ensures
            final(self).wf(),
            final(self).bf == old(self).bf,
            final(self).keep_history == old(self).keep_history,
            final(self).cache@ == cache_after(old(self).bf@, old(self).abs(), old(self).cache@),
            (final(self).abs(), r) == istep(
                old(self).bf@,
                old(self).keep_history,
                old(self).abs(),
            ),
    {
        let ghost s0 = self.abs();
        let ghost bf0 = self.bf@;
        proof {
            slice_len_bound(self.bf);
        }
        let loc = self.location;
        let c = *self.cell(loc);
        proof {
            assert(grown(s0.tape, s0.location).update(
                s0.location,
                cell_at(s0.tape, s0.location),
            ) =~= grown(s0.tape, s0.location));
            assert(self.abs() =~= (State { tape: grown(s0.tape, s0.location), ..s0 }));
        }
        if c != 0 {
            self.pc += 1;
            proof {
                assert(self.abs() =~= istep(bf0, self.keep_history, s0).0);
            }
            return Ok(None);
        }
        let p0 = self.pc;
        let mut cached: Option<usize> = None;
        match self.cache.get(&p0) {
            Some(j) => {
                cached = Some(*j);
            },
            None => {},
        }
        if let Some(jump) = cached {
            self.pc = jump;
            if self.keep_history {
                self.history.push(Delta::Jump(p0));
            }
            proof {
                assert(self.abs() =~= istep(bf0, self.keep_history, s0).0);
            }
            return Ok(None);
        }
        let ghost cache0 = self.cache@;
        let mut j: usize = p0;
        let mut depth: usize = 1;
        while depth > 0
            invariant
                self.bf@ == bf0,
                self.pc == p0,
                p0 < bf0.len(),
                bf0.len() <= usize::MAX,
                bf0[p0 as int] == OP_OPEN,
                self.wf(),
                self.cache@ == cache0,
                self.keep_history == old(self).keep_history,
                self.abs() == (State { tape: grown(s0.tape, s0.location), ..s0 }),
                cell_at(s0.tape, s0.location) == 0,
                p0 <= j < bf0.len(),
                depth <= j - p0 + 1,
                depth > 0 ==> scan_forward(bf0, p0 + 1, 1, OP_OPEN, OP_CLOSE) == scan_forward(
                    bf0,
                    j + 1,
                    depth as int,
                    OP_OPEN,
                    OP_CLOSE,
                ),
                depth == 0 ==> scan_forward(bf0, p0 + 1, 1, OP_OPEN, OP_CLOSE) == Some(j + 1),
            decreases bf0.len() - j,
        {
            j += 1;
            if j >= self.bf.len() {
                proof {
                    assert(scan_forward(bf0, j as int, depth as int, OP_OPEN, OP_CLOSE) is None);
                    assert(self.abs() =~= istep(bf0, self.keep_history, s0).0);
                }
                return Err(Output::TriedToMoveOutOfBounds);
            }
            let b = self.bf[j];
            if b == OP_OPEN {
                depth += 1;
            } else if b == OP_CLOSE {
                depth -= 1;
            }
        }
        let target = j + 1;
        self.cache.insert(p0, target);
        proof {
            lemma_cache_insert_wf(bf0, cache0, p0, target);
        }
        self.pc = target;
        if self.keep_history {
            self.history.push(Delta::Jump(p0));
        }
        proof {
            assert(self.abs() =~= istep(bf0, self.keep_history, s0).0);
        }
        Ok(None)
    }

    /// `]`: jump back to the matching `[` when the current cell is
    /// non-zero, else fall through; the found pair is memoized like a
    /// forward jump.
    #[verifier::loop_isolation(false)]
    pub fn jump_back(&mut self) -> (r: Result<Option<u8>, Output>)
        requires
            old(self).wf(),
            old(self).pc < old(self).bf@.len(),
            old(self).bf@[old(self).pc as int] == OP_CLOSE,
        ensures
            final(self).wf(),
            final(self).bf == old(self).bf,
            final(self).keep_history == old(self).keep_history,
            final(self).cache@ == cache_after(old(self).bf@, old(self).abs(), old(self).cache@),
            (final(self).abs(), r) == istep(
                old(self).bf@,
                old(self).keep_history,
                old(self).abs(),
            ),
    {
        let ghost s0 = self.abs();
        let ghost bf0 = self.bf@;
        proof {
            slice_len_bound(self.bf);
        }
        let loc = self.location;
        let c = *self.cell(loc);
        proof {
            assert(grown(s0.tape, s0.location).update(
                s0.location,
                cell_at(s0.tape, s0.location),
            ) =~= grown(s0.tape, s0.location));
            assert(self.abs() =~= (State { tape: grown(s0.tape, s0.location), ..s0 }));
        }
        if c == 0 {
            self.pc += 1;
            proof {
                assert(self.abs() =~= istep(bf0, self.keep_history, s0).0);
            }
            return Ok(None);
        }
        let p0 = self.pc;
        let mut cached: Option<usize> = None;
        match self.cache.get(&p0) {
            Some(j) => {
                cached = Some(*j);
            },
            None => {},
        }
        if let Some(jump) = cached {
            self.pc = jump;
            if self.keep_history {
                self.history.push(Delta::Jump(p0));
            }
            proof {
                assert(self.abs() =~= istep(bf0, self.keep_history, s0).0);
            }
            return Ok(None);
        }
        let ghost cache0 = self.cache@;
        let mut j: usize = p0;
        let mut depth: usize = 1;
        while depth > 0
            invariant
                self.bf@ == bf0,
                self.pc == p0,
                p0 < bf0.len(),
                bf0.len() <= usize::MAX,
                bf0[p0 as int] == OP_CLOSE,
                self.wf(),
                self.cache@ == cache0,
                self.keep_history == old(self).keep_history,
                self.abs() == (State { tape: grown(s0.tape, s0.location), ..s0 }),
                cell_at(s0.tape, s0.location) != 0,
                j <= p0,
                depth <= p0 - j + 1,
                depth > 0 ==> scan_back(bf0, p0 - 1, 1) == scan_back(bf0, j - 1, depth as int),
                depth == 0 ==> scan_back(bf0, p0 - 1, 1) == Some(j as int),
            decreases j,
        {
            if j == 0 {
                proof {
                    assert(scan_back(bf0, j - 1, depth as int) is None);
                    assert(self.abs() =~= istep(bf0, self.keep_history, s0).0);
                }
                return Err(Output::TriedToMoveOutOfBounds);
            }
            j -= 1;
            let b = self.bf[j];
            if b == OP_CLOSE {
                depth += 1;
            } else if b == OP_OPEN {
                depth -= 1;
            }
        }
        self.cache.insert(p0, j);
        proof {
            lemma_cache_insert_wf(bf0, cache0, p0, j);
        }
        self.pc = j;
        if self.keep_history {
            self.history.push(Delta::Jump(p0));
        }
        proof {
            assert(self.abs() =~= istep(bf0, self.keep_history, s0).0);
        }
        Ok(None)
    }

    /// `{`: skip to just past the matching `}` without touching the tape;
    /// the discovered region end is memoized like a bracket target.
    #[verifier::loop_isolation(false)]
    pub fn comment(&mut self) -> (r: Result<Option<u8>, Output>)
        requires
            old(self).wf(),
            old(self).pc < old(self).bf@.len(),
            old(self).bf@[old(self).pc as int] == OP_COMMENT_OPEN,
        ensures
            final(self).wf(),
            final(self).bf == old(self).bf,
            final(self).keep_history == old(self).keep_history,
            final(self).cache@ == cache_after(old(self).bf@, old(self).abs(), old(self).cache@),
            (final(self).abs(), r) == istep(
                old(self).bf@,
                old(self).keep_history,
                old(self).abs(),
            ),
    {
        let ghost s0 = self.abs();
        let ghost bf0 = self.bf@;
        proof {
            slice_len_bound(self.bf);
        }
        let p0 = self.pc;
        let mut cached: Option<usize> = None;
        match self.cache.get(&p0) {
            Some(j) => {
                cached = Some(*j);
            },
            None => {},
        }
        if let Some(jump) = cached {
            self.pc = jump;
            if self.keep_history {
                self.history.push(Delta::Jump(p0));
            }
            proof {
                assert(self.abs() =~= istep(bf0, self.keep_history, s0).0);
            }
            return Ok(None);
        }
        let ghost cache0 = self.cache@;
        let mut j: usize = p0;
        let mut depth: usize = 1;
        while depth > 0
            invariant
                self.bf@ == bf0,
                self.pc == p0,
                p0 < bf0.len(),
                bf0.len() <= usize::MAX,
                bf0[p0 as int] == OP_COMMENT_OPEN,
                self.wf(),
                self.cache@ == cache0,
                self.keep_history == old(self).keep_history,
                self.abs() == s0,
                p0 <= j < bf0.len(),
                depth <= j - p0 + 1,
                depth > 0 ==> scan_forward(bf0, p0 + 1, 1, OP_COMMENT_OPEN, OP_COMMENT_CLOSE)
                    == scan_forward(bf0, j + 1, depth as int, OP_COMMENT_OPEN, OP_COMMENT_CLOSE),
                depth == 0 ==> scan_forward(bf0, p0 + 1, 1, OP_COMMENT_OPEN, OP_COMMENT_CLOSE)
                    == Some(j + 1),
            decreases bf0.len() - j,
        {
            j += 1;
            if j >= self.bf.len() {
                proof {
                    assert(scan_forward(
                        bf0,
                        j as int,
                        depth as int,
                        OP_COMMENT_OPEN,
                        OP_COMMENT_CLOSE,
                    ) is None);
                    assert(self.abs() =~= istep(bf0, self.keep_history, s0).0);
                }
                return Err(Output::TriedToMoveOutOfBounds);
            }
            let b = self.bf[j];
            if b == OP_COMMENT_OPEN {
                depth += 1;
            } else if b == OP_COMMENT_CLOSE {
                depth -= 1;
            }
        }
        let target = j + 1;
        self.cache.insert(p0, target);
        proof {
            lemma_cache_insert_wf(bf0, cache0, p0, target);
        }
        self.pc = target;
        if self.keep_history {
            self.history.push(Delta::Jump(p0));
        }
        proof {
            assert(self.abs() =~= istep(bf0, self.keep_history, s0).0);
        }
        Ok(None)
    }

    /// Execute exactly one instruction: dispatch on the current source
    /// byte. Past the end of the source this reports `End`, forever.
    pub fn tick(&mut self) -> (r: Result<Option<u8>, Output>)
        requires
            old(self).wf(),
        ensures
            final(self).wf(),
            final(self).bf == old(self).bf,
            final(self).keep_history == old(self).keep_history,
            final(self).cache@ == cache_after(old(self).bf@, old(self).abs(), old(self).cache@),
            (final(self).abs(), r) == istep(
                old(self).bf@,
                old(self).keep_history,
                old(self).abs(),
            ),
    {
        if self.pc >= self.bf.len() {
            return Err(Output::End);
        }
        let command = self.bf[self.pc];
        if command == OP_RIGHT {
            self.move_right()
        } else if command == OP_LEFT {
            self.move_left()
        } else if command == OP_ADD {
            self.add()
        } else if command == OP_SUB {
            self.sub()
        } else if command == OP_OUT {
            self.output()
        } else if command == OP_IN {
            self.input()
        } else if command == OP_OPEN {
            self.jump_forward()
        } else if command == OP_CLOSE {
            self.jump_back()
        } else if command == OP_COMMENT_OPEN {
            self.comment()
        } else {
            Err(Output::UnallowedCharacter(self.pc))
        }
    }

    /// Step repeatedly until a byte is emitted or a signal (pause, end,
    /// error) is raised: the returned value together with the final state
    /// is what some number of abstract steps produces from the old state.
    #[verifier::loop_isolation(false)]
    pub fn run(&mut self) -> (r: Result<u8, Output>)
        requires
            old(self).wf(),
            concludes(old(self).bf@, old(self).keep_history, old(self).abs()),
        ensures
            final(self).wf(),
            final(self).bf == old(self).bf,
            final(self).keep_history == old(self).keep_history,
            old(self).cache@.submap_of(final(self).cache@),
            exists|n: nat|
                irun(old(self).bf@, old(self).keep_history, old(self).abs(), n) == (
                    final(self).abs(),
                    match r {
                        Ok(b) => Ok::<Option<u8>, Output>(Some(b)),
                        Err(e) => Err::<Option<u8>, Output>(e),
                    },
                ),
    {
        let ghost s0 = self.abs();
        let ghost bf0 = self.bf@;
        let ghost keep0 = self.keep_history;
        let ghost fuel = choose|m: nat|
            irun(bf0, keep0, s0, m).1 != Ok::<Option<u8>, Output>(None);
        let ghost mut n: nat = 0;
        proof {
            slice_len_bound(self.bf);
        }
        while self.pc < self.bf.len()
            invariant
                self.wf(),
                self.bf == old(self).bf,
                self.bf@ == bf0,
                self.keep_history == keep0,
                old(self).cache@.submap_of(self.cache@),
                n <= fuel,
                irun(bf0, keep0, s0, fuel).1 != Ok::<Option<u8>, Output>(None),
                irun(bf0, keep0, s0, n) == (self.abs(), Ok::<Option<u8>, Output>(None)),
            decreases fuel - n,
        {
            let ghost pre = self.abs();
            let ghost pre_cache = self.cache@;
            let r = self.tick();
            proof {
                lemma_irun_step(bf0, keep0, s0, n);
                lemma_cache_after_extends(bf0, pre, pre_cache);
                vstd::map_lib::lemma_submap_of_trans(old(self).cache@, pre_cache, self.cache@);
            }
            match r {
                Ok(None) => {
                    proof {
                        n = n + 1;
                        if n > fuel {
                            lemma_irun_quiet_prefix(bf0, keep0, s0, fuel, n);
                        }
                    }
                },
                Ok(Some(byte)) => {
                    return Ok(byte);
                },
                Err(e) => {
                    return Err(e);
                },
            }
        }
        proof {
            lemma_irun_step(bf0, keep0, s0, n);
        }
        Err(Output::End)
    }

    /// Like `run`, but also stop after `steps` silent instructions:
    /// `Ok(None)` then means the budget ran out before any event.
    #[verifier::loop_isolation(false)]
    pub fn run_steps(&mut self, steps: usize) -> (r: Result<Option<u8>, Output>)
        requires
            old(self).wf(),
        ensures
            final(self).wf(),
            final(self).bf == old(self).bf,
            final(self).keep_history == old(self).keep_history,
            old(self).cache@.submap_of(final(self).cache@),
            (final(self).abs(), r) == irun(
                old(self).bf@,
                old(self).keep_history,
                old(self).abs(),
                steps as nat,
            ),
    {
        let ghost s0 = self.abs();
        let ghost bf0 = self.bf@;
        let ghost keep0 = self.keep_history;
        let mut left: usize = steps;
        proof {
            slice_len_bound(self.bf);
        }
        while self.pc < self.bf.len() && left > 0
            invariant
                self.wf(),
                self.bf == old(self).bf,
                self.bf@ == bf0,
                self.keep_history == keep0,
                old(self).cache@.submap_of(self.cache@),
                irun(bf0, keep0, s0, steps as nat) == irun(bf0, keep0, self.abs(), left as nat),
            decreases left,
        {
            let ghost pre = self.abs();
            let ghost pre_cache = self.cache@;
            let r = self.tick();
            proof {
                lemma_cache_after_extends(bf0, pre, pre_cache);
                vstd::map_lib::lemma_submap_of_trans(old(self).cache@, pre_cache, self.cache@);
            }
            match r {
                Ok(None) => {
                    left -= 1;
                },
                Ok(Some(byte)) => {
                    return Ok(Some(byte));
                },
                Err(e) => {
                    return Err(e);
                },
            }
        }
        if left == 0 {
            Ok(None)
        } else {
            Err(Output::End)
        }
    }

    /// Fill `output` with the machine's next emitted bytes, running until
    /// the buffer is full or the program concludes. Returns how many bytes
    /// were written; reaching the end of the program is a normal way to
    /// stop, not an error.
    #[verifier::loop_isolation(false)]
    #[verifier::rlimit(60)]
    pub fn take_output(&mut self, output: &mut [u8]) -> (r: Result<usize, Output>)
        requires
            old(self).wf(),
            exists|fuel: nat|
                emits_conclude(
                    old(self).bf@,
                    old(self).keep_history,
                    old(self).abs(),
                    fuel,
                    old(output)@.len(),
                ),
        ensures
            final(self).wf(),
            final(self).bf == old(self).bf,
            final(self).keep_history == old(self).keep_history,
            old(self).cache@.submap_of(final(self).cache@),
            final(output)@.len() == old(output)@.len(),
            exists|fuel: nat|
                ({
                    let (s2, bytes, e) = #[trigger] iemits(
                        old(self).bf@,
                        old(self).keep_history,
                        old(self).abs(),
                        fuel,
                        old(output)@.len(),
                    );
                    &&& final(self).abs() == s2
                    &&& bytes.len() <= old(output)@.len()
                    &&& final(output)@ == bytes + old(output)@.skip(bytes.len() as int)
                    &&& match r {
                        Ok(n) => n == bytes.len() && (n == old(output)@.len() || e == Some(
                            Output::End,
                        )),
                        Err(o) => e == Some(o) && o != Output::End,
                    }
                }),
    {
        let ghost s0 = self.abs();
        let ghost bf0 = self.bf@;
        let ghost keep0 = self.keep_history;
        let ghost max: nat = output@.len();
        let ghost fuel = choose|f: nat| emits_conclude(bf0, keep0, s0, f, max);
        let ghost spec_run = iemits(bf0, keep0, s0, fuel, max);
        let ghost mut fuel_rem: nat = fuel;
        let mut i: usize = 0;
        proof {
            assert(spec_run.1.skip(0) =~= spec_run.1);
            assert(spec_run.1.take(0) + old(output)@.skip(0) =~= old(output)@);
        }
        proof {
            slice_len_bound(self.bf);
        }
        while i < output.len()
            invariant
                self.wf(),
                self.bf == old(self).bf,
                self.bf@ == bf0,
                self.keep_history == keep0,
                old(self).cache@.submap_of(self.cache@),
                i <= output.len(),
                output@.len() == old(output)@.len(),
                i <= spec_run.1.len(),
                iemits(bf0, keep0, self.abs(), fuel_rem, (max - i) as nat) == (
                    spec_run.0,
                    spec_run.1.skip(i as int),
                    spec_run.2,
                ),
                output@ == spec_run.1.take(i as int) + old(output)@.skip(i as int),
            decreases fuel_rem,
        {
            let ghost cur = self.abs();
            let ghost pre_cache = self.cache@;
            let r = self.tick();
            proof {
                lemma_cache_after_extends(bf0, cur, pre_cache);
                vstd::map_lib::lemma_submap_of_trans(old(self).cache@, pre_cache, self.cache@);
            }
            match r {
                Ok(Some(byte)) => {
                    proof {
                        assert(fuel_rem > 0) by {
                            if fuel_rem == 0 {
                                assert(spec_run.1.skip(i as int).len() == 0);
                            }
                        }
                        assert(0 <= cur.pc < bf0.len());
                        let rest = iemits(
                            bf0,
                            keep0,
                            self.abs(),
                            (fuel_rem - 1) as nat,
                            (max - i - 1) as nat,
                        ).1;
                        assert(spec_run.1.skip(i as int) == seq![byte] + rest);
                        assert(spec_run.1.skip(i as int).len() >= 1);
                        assert(i < spec_run.1.len());
                        vstd::seq_lib::lemma_seq_skip_index(spec_run.1, i as int, 0);
                        assert(spec_run.1[i as int] == byte);
                    }
                    output[i] = byte;
                    i += 1;
                    proof {
                        fuel_rem = (fuel_rem - 1) as nat;
                        assert(spec_run.1.skip(i - 1).drop_first() =~= spec_run.1.skip(i as int));
                        assert(seq![byte] + spec_run.1.skip(i as int) =~= spec_run.1.skip(i - 1));
                        assert(output@ =~= spec_run.1.take(i as int) + old(output)@.skip(i as int));
                    }
                },
                Ok(None) => {
                    proof {
                        assert(fuel_rem > 0) by {
                            if fuel_rem == 0 {
                                assert(spec_run.1.skip(i as int).len() == 0);
                            }
                        }
                        fuel_rem = (fuel_rem - 1) as nat;
                    }
                },
                Err(Output::End) => {
                    proof {
                        assert(spec_run.1.take(i as int) =~= spec_run.1);
                        assert(output@ =~= spec_run.1 + old(output)@.skip(
                            spec_run.1.len() as int,
                        ));
                    }
                    return Ok(i);
                },
                Err(e) => {
                    proof {
                        assert(spec_run.1.take(i as int) =~= spec_run.1);
                        assert(output@ =~= spec_run.1 + old(output)@.skip(
                            spec_run.1.len() as int,
                        ));
                    }
                    return Err(e);
                },
            }
        }
        proof {
            assert(spec_run.1.take(i as int) =~= spec_run.1);
            assert(output@ =~= spec_run.1 + old(output)@.skip(spec_run.1.len() as int));
        }
        Ok(i)
    }
}

} // verus!
