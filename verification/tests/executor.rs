use bf::compiler::compile;
use bf::executor::{Event, Executor, RunError};

#[test]
fn increment_then_output() {
    // source `++.` with empty input: exactly one Emit(2), then Halted
    let p = compile(b"++.").unwrap();
    let mut ex = Executor::new(p);
    assert_eq!(ex.run(), Event::Emit(2));
    assert_eq!(ex.run(), Event::Halted);
}

#[test]
fn wraparound_subtraction() {
    // source `-.`: wrapping subtraction from 0 emits 255
    let p = compile(b"-.").unwrap();
    let mut ex = Executor::new(p);
    assert_eq!(ex.run(), Event::Emit(255));
    assert_eq!(ex.run(), Event::Halted);
}

#[test]
fn hello_world_emits_thirteen_bytes() {
    let p = compile(b"++++++++[>++++[>++>+++>+++>+<<<<-]>+>+>->>+[<]<-]>>.>---.+++++++..+++.>>.<-.<.+++.------.--------.>>+.>++.").unwrap();
    let mut ex = Executor::new(p);
    let mut bytes = Vec::new();
    loop {
        match ex.run() {
            Event::Emit(b) => bytes.push(b),
            Event::Halted => break,
            other => panic!("unexpected event: {:?}", other),
        }
    }
    assert_eq!(bytes.len(), 13);
    assert_eq!(std::str::from_utf8(&bytes).unwrap(), "Hello World!\n");
}

#[test]
fn executor_input_pause_and_resume() {
    // `,.` pauses on the empty queue; byte 65 resumes the same instruction
    let p = compile(b",.").unwrap();
    let mut ex = Executor::new(p);
    assert_eq!(ex.step(), Some(Event::NeedsInput));
    assert_eq!(ex.ip, 0);
    ex.push_input(65);
    assert_eq!(ex.step(), None);
    assert_eq!(ex.step(), Some(Event::Emit(65)));
}

#[test]
fn left_bound_is_an_error_and_pointer_stays() {
    let p = compile(b"<").unwrap();
    let mut ex = Executor::new(p);
    assert_eq!(ex.step(), Some(Event::Error(RunError::OutOfBounds, 0)));
    assert_eq!(ex.pointer, 0);
    assert_eq!(ex.ip, 0);
}

#[test]
fn halted_is_idempotent() {
    let p = compile(b"+").unwrap();
    let mut ex = Executor::new(p);
    assert_eq!(ex.run(), Event::Halted);
    let pointer_before = ex.pointer;
    let tape_before = ex.tape.clone();
    assert_eq!(ex.run(), Event::Halted);
    assert_eq!(ex.step(), Some(Event::Halted));
    assert_eq!(ex.pointer, pointer_before);
    assert_eq!(ex.tape, tape_before);
}

#[test]
fn run_bounded_reports_an_exhausted_budget() {
    // `+[]` loops forever: the budget runs out with no event
    let p = compile(b"+[]").unwrap();
    let mut ex = Executor::new(p);
    assert_eq!(ex.run_bounded(50), None);
    let p2 = compile(b"+.").unwrap();
    let mut ex2 = Executor::new(p2);
    assert_eq!(ex2.run_bounded(50), Some(Event::Emit(1)));
}

#[test]
fn folded_moves_grow_the_tape() {
    let p = compile(b">>>").unwrap();
    let mut ex = Executor::new(p);
    assert_eq!(ex.step(), None);
    assert_eq!(ex.pointer, 3);
    assert_eq!(ex.run(), Event::Halted);
}

#[test]
fn folded_and_unfolded_programs_emit_the_same_bytes() {
    // the folded stream and the character-by-character effect agree
    for source in [&b"+++--."[..], &b">+++>++<-.<."[..], &b"++[->+++<]>."[..]] {
        let folded = compile(source).unwrap();
        let mut ex = Executor::new(folded);
        let mut folded_bytes = Vec::new();
        loop {
            match ex.run() {
                Event::Emit(b) => folded_bytes.push(b),
                Event::Halted => break,
                other => panic!("unexpected event: {:?}", other),
            }
        }
        let mut direct = bf::interpreter::Interpreter::new(source);
        let mut direct_bytes = Vec::new();
        loop {
            match direct.run() {
                Ok(b) => direct_bytes.push(b),
                Err(bf::interpreter::Output::End) => break,
                other => panic!("unexpected signal: {:?}", other),
            }
        }
        assert_eq!(folded_bytes, direct_bytes);
    }
}

#[test]
fn feed_queues_bytes_in_order() {
    let p = compile(b",.,.").unwrap();
    let mut ex = Executor::new(p);
    ex.feed(b"AB");
    assert_eq!(ex.run(), Event::Emit(65));
    assert_eq!(ex.run(), Event::Emit(66));
    assert_eq!(ex.run(), Event::Halted);
}
