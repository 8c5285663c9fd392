use bf::interpreter::{Delta, Interpreter, Output};

#[test]
fn inc() {
    let mut interpreter = Interpreter::new(b"+");
    assert_eq!(interpreter.run(), Err(Output::End));
    assert_eq!(interpreter.tape[0], 1);
}

#[test]
fn dec() {
    let mut interpreter = Interpreter::new(b"-");
    assert_eq!(interpreter.run(), Err(Output::End));
    assert_eq!(interpreter.tape[0], 255);
}

#[test]
fn move_forward() {
    let mut interpreter = Interpreter::new(b">");
    assert_eq!(interpreter.run(), Err(Output::End));
    assert_eq!(interpreter.location, 1);
}

#[test]
fn move_back() {
    let mut interpreter = Interpreter::new(b"><");
    assert_eq!(interpreter.run(), Err(Output::End));
    assert_eq!(interpreter.location, 0);
}

#[test]
fn output() {
    let mut interpreter = Interpreter::new(b".");
    interpreter.tape[0] = 65; // ASCII for 'A'
    assert_eq!(interpreter.run(), Ok(65));
}

#[test]
fn input() {
    let mut interpreter = Interpreter::new(b",");
    interpreter.input.push_back(65); // ASCII for 'A'
    assert_eq!(interpreter.run(), Err(Output::End));
    assert_eq!(interpreter.tape[0], 65);
}

#[test]
fn jump_forward() {
    let mut interpreter = Interpreter::new(b"[+]");
    assert_eq!(interpreter.run_steps(100), Err(Output::End));
    assert_eq!(interpreter.tape[0], 0);
}

#[test]
fn jump_back() {
    let mut interpreter = Interpreter::new(b"+++++[-]");
    assert_eq!(interpreter.run(), Err(Output::End));
    assert_eq!(interpreter.tape[0], 0);
}

#[test]
fn move_out_of_bounds() {
    let mut interpreter = Interpreter::new(b"<");
    interpreter.location = 0;
    assert_eq!(interpreter.move_left(), Err(Output::TriedToMoveOutOfBounds));
}

#[test]
fn unallowed_character() {
    let mut interpreter = Interpreter::new(b"@");
    assert_eq!(interpreter.run(), Err(Output::UnallowedCharacter(0)));
}

#[test]
fn comment() {
    let mut interpreter = Interpreter::new(b"{+}");
    assert_eq!(interpreter.run(), Err(Output::End));
    assert_eq!(interpreter.tape[0], 0);
}

#[test]
fn hello_world() {
    let mut interpreter = Interpreter::new(b"++++++++[>++++[>++>+++>+++>+<<<<-]>+>+>->>+[<]<-]>>.>---.+++++++..+++.>>.<-.<.+++.------.--------.>>+.>++.");
    let mut output = [0; 13];
    assert_eq!(
        interpreter.take_output(&mut output),
        Ok(b"Hello World!\n".len())
    );
    assert_eq!(std::str::from_utf8(&output).unwrap(), "Hello World!\n");
}

#[test]
fn input_pause_and_resume() {
    // an empty queue pauses `,` without advancing; one byte resumes it
    let mut interpreter = Interpreter::new(b",.");
    assert_eq!(interpreter.tick(), Err(Output::RequiresInput));
    assert_eq!(interpreter.pc, 0);
    interpreter.input.push_back(65);
    assert_eq!(interpreter.tick(), Ok(None));
    assert_eq!(interpreter.tape[0], 65);
    assert_eq!(interpreter.tick(), Ok(Some(65)));
}

#[test]
fn end_is_idempotent() {
    let mut interpreter = Interpreter::new(b"+");
    assert_eq!(interpreter.run(), Err(Output::End));
    let tape_before = interpreter.tape.clone();
    let location_before = interpreter.location;
    assert_eq!(interpreter.run(), Err(Output::End));
    assert_eq!(interpreter.tick(), Err(Output::End));
    assert_eq!(interpreter.tape, tape_before);
    assert_eq!(interpreter.location, location_before);
}

#[test]
fn history_records_each_instruction() {
    let mut interpreter = Interpreter::new(b"+->");
    interpreter.keep_history();
    assert_eq!(interpreter.run(), Err(Output::End));
    assert_eq!(
        interpreter.history,
        vec![Delta::Add(1), Delta::Sub(1), Delta::Move(1)]
    );
}

#[test]
fn history_makes_jumps_and_input_reversible() {
    // a taken jump logs the position control left; a consumed input byte
    // logs how far the cell moved
    let mut interpreter = Interpreter::new(b",[-]");
    interpreter.keep_history();
    interpreter.input.push_back(2);
    assert_eq!(interpreter.run(), Err(Output::End));
    assert_eq!(
        interpreter.history,
        vec![
            Delta::Add(2),  // cell 0 -> 2
            Delta::Sub(1),
            Delta::Jump(3), // `]` at 3 jumps back
            Delta::Sub(1),
        ]
    );
}

#[test]
fn stopping_history_clears_the_log() {
    let mut interpreter = Interpreter::new(b"++");
    interpreter.keep_history();
    assert_eq!(interpreter.run(), Err(Output::End));
    assert!(!interpreter.history.is_empty());
    interpreter.stop_keeping_histroy();
    assert!(interpreter.history.is_empty());
    assert!(!interpreter.keep_history);
}

#[test]
fn load_input_feeds_the_queue() {
    let mut interpreter = Interpreter::new(b",>,>,");
    interpreter.load_input(b"abc");
    assert_eq!(interpreter.run(), Err(Output::End));
    assert_eq!(interpreter.cells(0, 3), &b"abc"[..]);
}

#[test]
fn run_steps_budget_exhausted() {
    // an endless loop makes no event; the budget runs out silently
    let mut interpreter = Interpreter::new(b"+[]");
    assert_eq!(interpreter.run_steps(50), Ok(None));
}

#[test]
fn unmatched_bracket_is_a_runtime_error() {
    let mut interpreter = Interpreter::new(b"[");
    assert_eq!(interpreter.run(), Err(Output::TriedToMoveOutOfBounds));
    assert_eq!(interpreter.pc, 0);
}

#[test]
fn jump_cache_is_reused_on_reruns() {
    let mut interpreter = Interpreter::new(b"++[-]");
    assert_eq!(interpreter.run(), Err(Output::End));
    assert_eq!(interpreter.tape[0], 0);
    // the taken back jump memoized exactly its matching open bracket
    assert_eq!(interpreter.cache.get(&4), Some(&2));
}

#[test]
fn forward_jump_target_is_memoized() {
    let mut interpreter = Interpreter::new(b"[+]>");
    assert_eq!(interpreter.run(), Err(Output::End));
    // the open bracket at 0 memoized one past its matching close
    assert_eq!(interpreter.cache.get(&0), Some(&3));
    assert_eq!(interpreter.cache.len(), 1);
}

#[test]
fn comment_skip_is_memoized() {
    let mut interpreter = Interpreter::new(b"{+}-");
    assert_eq!(interpreter.run(), Err(Output::End));
    assert_eq!(interpreter.cache.get(&0), Some(&3));
    assert_eq!(interpreter.tape[0], 255);
}

#[test]
fn cell_grows_the_tape() {
    let mut interpreter = Interpreter::new(b"");
    assert_eq!(interpreter.tape.len(), 30_000);
    *interpreter.cell(40_000) = 7;
    assert!(interpreter.tape.len() > 40_000);
    assert_eq!(interpreter.tape[40_000], 7);
}
