use rsbf::error::BfError;
use rsbf::runtime::{parse, Inst};

#[test]
fn unmatched_close_alone() {
    assert_eq!(parse("]"), Err(BfError::UnmatchedClose));
}

#[test]
fn unmatched_open_alone() {
    assert_eq!(parse("["), Err(BfError::UnmatchedOpen));
}

#[test]
fn unmatched_open_nested() {
    assert_eq!(parse("[[]"), Err(BfError::UnmatchedOpen));
}

#[test]
fn unmatched_close_after_pair() {
    assert_eq!(parse("[]]"), Err(BfError::UnmatchedClose));
}

#[test]
fn empty_source_is_empty_program() {
    assert_eq!(parse(""), Ok(vec![]));
}

#[test]
fn each_simple_character_maps_to_its_instruction() {
    assert_eq!(
        parse("><+-.,"),
        Ok(vec![
            Inst::Right,
            Inst::Left,
            Inst::Inc,
            Inst::Dec,
            Inst::Out,
            Inst::In,
        ])
    );
}

#[test]
fn jump_targets_are_mutual_in_simple_loop() {
    assert_eq!(parse("[+]"), Ok(vec![Inst::Enter(2), Inst::Inc, Inst::Exit(0)]));
}

#[test]
fn jump_targets_are_mutual_in_nested_loops() {
    // indices:        0 1 2 3 4 5
    let code = parse("+[>[-]<]").unwrap();
    assert_eq!(
        code,
        vec![
            Inst::Inc,
            Inst::Enter(7),
            Inst::Right,
            Inst::Enter(5),
            Inst::Dec,
            Inst::Exit(3),
            Inst::Left,
            Inst::Exit(1),
        ]
    );
}

#[test]
fn adjacent_loops_pair_up_independently() {
    assert_eq!(
        parse("[][]"),
        Ok(vec![Inst::Enter(1), Inst::Exit(0), Inst::Enter(3), Inst::Exit(2)])
    );
}

#[test]
fn loading_twice_yields_identical_programs() {
    let src = "++[>+<-]>.";
    let first = parse(src);
    let second = parse(src);
    assert_eq!(first, second);
    assert!(first.is_ok());
}

#[test]
fn commentary_characters_contribute_no_instructions() {
    assert_eq!(parse("a+++b."), parse("+++."));
    assert_eq!(
        parse("a+++b."),
        Ok(vec![Inst::Inc, Inst::Inc, Inst::Inc, Inst::Out])
    );
}

#[test]
fn whitespace_and_newlines_are_commentary() {
    assert_eq!(parse("+ +\n+\t[ - ]"), parse("+++[-]"));
}

#[test]
fn unmatched_close_wins_over_later_unmatched_open() {
    // the scan fails at the first structural fault it meets
    assert_eq!(parse("]["), Err(BfError::UnmatchedClose));
}
