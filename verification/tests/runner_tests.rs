use brainfsck::parser::{BracketKind, ParseError};
use brainfsck::runner::{Environment, EvalError, Fault};

const FUEL: u64 = 1_000_000;

const HELLO_WORLD: &str = "++++++++[>++++[>++>+++>+++>+<<<<-]>+>+>->>+[<]<-]>>.>---.+++++++..+++.>>.<-.<.+++.------.--------.>>+.>++.";

#[test]
fn new_tape_is_zeroed() {
    let env = Environment::new(5);
    assert_eq!(env.cursor(), 0);
    for k in 0..5 {
        assert_eq!(env.cell_at(k), Some(0));
    }
    assert_eq!(env.cell_at(5), None);
}

#[test]
fn evaluate_is_deterministic() {
    let input = vec![7u8, 8u8];
    let mut a = Environment::new(100);
    let mut b = Environment::new(100);
    let src = ",>,<[->+<]>.";
    let out1 = a.evaluate(src, &input, FUEL).unwrap();
    let out2 = b.evaluate(src, &input, FUEL).unwrap();
    assert_eq!(out1, out2);
    assert_eq!(out1, vec![15u8]);
}

#[test]
fn increment_wraps_modulo_256() {
    let mut env = Environment::new(1);
    let src: String = "+".repeat(256);
    env.evaluate(&src, &Vec::new(), FUEL).unwrap();
    assert_eq!(env.cell_at(0), Some(0));

    let mut env2 = Environment::new(1);
    env2.evaluate(&"+".repeat(255), &Vec::new(), FUEL).unwrap();
    assert_eq!(env2.cell_at(0), Some(255));

    // Decrement from zero wraps the other way.
    let mut env3 = Environment::new(1);
    env3.evaluate("-", &Vec::new(), FUEL).unwrap();
    assert_eq!(env3.cell_at(0), Some(255));
}

#[test]
fn loop_runs_to_zero() {
    let mut env = Environment::new(1);
    env.evaluate("+++[-]", &Vec::new(), FUEL).unwrap();
    assert_eq!(env.cursor(), 0);
    assert_eq!(env.cell_at(0), Some(0));
}

#[test]
fn echo_one_character() {
    let mut env = Environment::new(10);
    let out = env.evaluate(",.", &vec![0x41u8], FUEL).unwrap();
    assert_eq!(out, vec![0x41u8]);
}

#[test]
fn hello_world_interpreted() {
    let mut env = Environment::new(30000);
    let out = env.evaluate(HELLO_WORLD, &Vec::new(), FUEL).unwrap();
    assert_eq!(out, b"Hello World!\n".to_vec());
}

#[test]
fn print_repeats_current_cell() {
    let mut env = Environment::new(1);
    let out = env.evaluate("++...", &Vec::new(), FUEL).unwrap();
    assert_eq!(out, vec![2u8, 2u8, 2u8]);
}

#[test]
fn moving_left_of_the_tape_faults() {
    let mut env = Environment::new(4);
    assert_eq!(
        env.evaluate("<", &Vec::new(), FUEL),
        Err(EvalError::Runtime(Fault::TapeOutOfBounds))
    );
}

#[test]
fn moving_right_off_the_tape_faults() {
    let mut env = Environment::new(4);
    assert_eq!(
        env.evaluate(">>>>", &Vec::new(), FUEL),
        Err(EvalError::Runtime(Fault::TapeOutOfBounds))
    );
}

#[test]
fn reading_without_input_faults() {
    let mut env = Environment::new(4);
    assert_eq!(
        env.evaluate(",", &Vec::new(), FUEL),
        Err(EvalError::Runtime(Fault::InputExhausted))
    );
}

#[test]
fn endless_loop_exhausts_fuel() {
    let mut env = Environment::new(4);
    assert_eq!(
        env.evaluate("+[]", &Vec::new(), 1000),
        Err(EvalError::Runtime(Fault::OutOfFuel))
    );
}

#[test]
fn parse_error_reaches_the_caller() {
    let mut env = Environment::new(4);
    assert_eq!(
        env.evaluate("[", &Vec::new(), FUEL),
        Err(EvalError::Parse(ParseError::UnmatchedBracket(BracketKind::Open)))
    );
}

#[test]
fn read_takes_the_last_of_a_run() {
    let mut env = Environment::new(4);
    env.evaluate(",,,", &vec![1u8, 2u8, 3u8], FUEL).unwrap();
    assert_eq!(env.cell_at(0), Some(3));
}
