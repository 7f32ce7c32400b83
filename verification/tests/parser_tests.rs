use brainfsck::parser::{parse, BracketKind, Instruction, OpCode, ParseError};

/// Total of the repetition counts of the non-loop nodes of a forest.
fn amount_sum(prog: &[Instruction]) -> usize {
    let mut total = 0;
    for i in prog {
        if i.opcode == OpCode::Loop {
            total += amount_sum(&i.instructions);
        } else {
            total += i.amount;
        }
    }
    total
}

#[test]
fn parse_empty_source() {
    let prog = parse("").unwrap();
    assert_eq!(prog.len(), 0);
}

#[test]
fn parse_coalesces_runs() {
    let prog = parse("+++").unwrap();
    assert_eq!(prog.len(), 1);
    assert_eq!(prog[0].opcode, OpCode::Inc);
    assert_eq!(prog[0].amount, 3);
    assert_eq!(prog[0].instructions.len(), 0);
}

#[test]
fn parse_coalesces_across_comments() {
    let prog = parse("a+b+c").unwrap();
    assert_eq!(prog.len(), 1);
    assert_eq!(prog[0].opcode, OpCode::Inc);
    assert_eq!(prog[0].amount, 2);
}

#[test]
fn parse_does_not_coalesce_distinct_ops() {
    let prog = parse("+-+").unwrap();
    assert_eq!(prog.len(), 3);
    assert_eq!(prog[0].opcode, OpCode::Inc);
    assert_eq!(prog[1].opcode, OpCode::Dec);
    assert_eq!(prog[2].opcode, OpCode::Inc);
    assert!(prog.iter().all(|i| i.amount == 1));
}

#[test]
fn parse_balanced_amount_sum_matches_plain_count() {
    // 7 recognized non-bracket characters, all of them inside or around one loop.
    let prog = parse("++[>+<-].").unwrap();
    assert_eq!(amount_sum(&prog), 7);
    // Ignored characters do not count.
    let prog2 = parse("+ hello + [ world - ]").unwrap();
    assert_eq!(amount_sum(&prog2), 3);
}

#[test]
fn parse_nested_loops() {
    let prog = parse("[[]]").unwrap();
    assert_eq!(prog.len(), 1);
    assert_eq!(prog[0].opcode, OpCode::Loop);
    assert_eq!(prog[0].amount, 0);
    assert_eq!(prog[0].instructions.len(), 1);
    assert_eq!(prog[0].instructions[0].opcode, OpCode::Loop);
    assert_eq!(prog[0].instructions[0].instructions.len(), 0);
}

#[test]
fn parse_unmatched_open_bracket() {
    assert_eq!(
        parse("[").unwrap_err(),
        ParseError::UnmatchedBracket(BracketKind::Open)
    );
    assert_eq!(
        parse("+[+").unwrap_err(),
        ParseError::UnmatchedBracket(BracketKind::Open)
    );
}

#[test]
fn parse_unmatched_close_bracket() {
    assert_eq!(
        parse("]").unwrap_err(),
        ParseError::UnmatchedBracket(BracketKind::Close)
    );
    // An early close wins over a trailing open.
    assert_eq!(
        parse("+]+[").unwrap_err(),
        ParseError::UnmatchedBracket(BracketKind::Close)
    );
}
