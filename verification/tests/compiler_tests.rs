use brainfsck::compiler::{compile, lower, run_blocks, CompilerError, Terminator};
use brainfsck::parser::{parse, BracketKind, ParseError};
use brainfsck::runner::{Environment, Fault};

const FUEL: u64 = 1_000_000;
const STEP_FUEL: u64 = 10_000_000;
const TAPE: usize = 30000;

const HELLO_WORLD: &str = "++++++++[>++++[>++>+++>+++>+<<<<-]>+>+>->>+[<]<-]>>.>---.+++++++..+++.>>.<-.<.+++.------.--------.>>+.>++.";

#[test]
fn compile_reports_parse_errors() {
    match compile("]") {
        Err(CompilerError::Parse(e)) => {
            assert_eq!(e, ParseError::UnmatchedBracket(BracketKind::Close));
        }
        _ => panic!("expected a parse error"),
    }
}

#[test]
fn lower_gives_each_loop_three_blocks() {
    let prog = parse("[]").unwrap();
    let blocks = lower(&prog);
    // Entry block, then check, contents and exit blocks for the one loop.
    assert_eq!(blocks.len(), 4);
    assert_eq!(blocks[0].ops.len(), 0);
    assert_eq!(blocks[0].term, Terminator::Jump(1));
    assert_eq!(blocks[1].term, Terminator::CondJump(2, 3));
    assert_eq!(blocks[2].term, Terminator::Jump(1));
    assert_eq!(blocks[3].term, Terminator::Ret);
}

#[test]
fn lowered_hello_world_runs() {
    let blocks = compile(HELLO_WORLD).unwrap();
    let out = run_blocks(&blocks, TAPE, &Vec::new(), STEP_FUEL).unwrap();
    assert_eq!(out, b"Hello World!\n".to_vec());
}

#[test]
fn lowered_code_matches_the_interpreter() {
    let corpus = [
        "",
        "+++.",
        "++[>+<-]>.",
        "+[-].",
        ">++++[<++>-]<.",
        "++++++[>++++++<-]>.",
        "+++[>+++[>+++<-]<-]>>.",
        "--.",
        HELLO_WORLD,
    ];
    for src in corpus {
        let mut env = Environment::new(TAPE);
        let expected = env.evaluate(src, &Vec::new(), FUEL).unwrap();
        let blocks = compile(src).unwrap();
        let got = run_blocks(&blocks, TAPE, &Vec::new(), STEP_FUEL).unwrap();
        assert_eq!(got, expected, "outputs differ for {:?}", src);
    }
}

#[test]
fn lowered_read_matches_the_interpreter() {
    let input = vec![0x41u8, 0x42u8];
    let src = ",.,.";
    let mut env = Environment::new(TAPE);
    let expected = env.evaluate(src, &input, FUEL).unwrap();
    let blocks = compile(src).unwrap();
    let got = run_blocks(&blocks, TAPE, &input, STEP_FUEL).unwrap();
    assert_eq!(got, expected);
    assert_eq!(got, input);
}

#[test]
fn lowered_code_faults_like_the_interpreter() {
    let blocks = compile("<").unwrap();
    assert_eq!(
        run_blocks(&blocks, TAPE, &Vec::new(), STEP_FUEL),
        Err(Fault::TapeOutOfBounds)
    );
    let blocks2 = compile(",").unwrap();
    assert_eq!(
        run_blocks(&blocks2, TAPE, &Vec::new(), STEP_FUEL),
        Err(Fault::InputExhausted)
    );
    let blocks3 = compile("+[]").unwrap();
    assert_eq!(
        run_blocks(&blocks3, TAPE, &Vec::new(), 1000),
        Err(Fault::OutOfFuel)
    );
}
