use lru_sim::expansion::{select_case, ExpansionError, Instruction};
use lru_sim::trace::{TraceFile, TraceParseError};

fn traces(text: &str) -> Vec<(String, Vec<Instruction>)> {
    let file = TraceFile::try_from(text).unwrap();
    file.into_iter(64).unwrap()
}

fn addresses(instructions: &[Instruction]) -> Vec<usize> {
    instructions.iter().map(|i| i.address).collect()
}

#[test]
fn range_steps_by_instruction_bytes() {
    let t = traces("compare 'main' {\n    0x100..32..0x110\n}\n");
    assert_eq!(t.len(), 1);
    assert_eq!(t[0].0, "main");
    assert_eq!(addresses(&t[0].1), vec![0x100, 0x104, 0x108, 0x10c]);
    assert!(t[0].1.iter().all(|i| i.length == 32));
}

#[test]
fn numbers_in_every_radix() {
    let t = traces("compare 'r' {\n 0b1000..0o100..0x10\n 16..64..24\n}\n");
    assert_eq!(addresses(&t[0].1), vec![8, 16]);
}

#[test]
fn calls_and_loops_unfold_in_order() {
    let text = "'helper' {\n 0..8..2\n}\ncompare 'main' {\n loop(2) {\n  helper()\n  10..16..12\n }\n}\n";
    let t = traces(text);
    assert_eq!(t.len(), 1);
    assert_eq!(addresses(&t[0].1), vec![0, 1, 10, 0, 1, 10]);
    assert_eq!(t[0].1[2].length, 16);
}

#[test]
fn only_compared_blocks_are_traces() {
    let text = "compare 'a' {\n 0..8..1\n}\n'b' {\n 4..8..5\n}\ncompare 'c' {\n b()\n}\n";
    let t = traces(text);
    let names: Vec<&str> = t.iter().map(|(n, _)| n.as_str()).collect();
    assert_eq!(names, vec!["a", "c"]);
    assert_eq!(addresses(&t[1].1), vec![4]);
}

#[test]
fn comments_and_blank_lines() {
    let text = "// a trace\n\ncompare 'x' { // opens\n  // inside\n  0..8..2 // two\n}\n\n// done\n";
    let t = traces(text);
    assert_eq!(addresses(&t[0].1), vec![0, 1]);
}

#[test]
fn switch_with_single_case_takes_it() {
    let text = "compare 's' {\n switch:\n  (1): {\n   0..8..1\n  }\n endswitch\n}\n";
    let t = traces(text);
    assert_eq!(addresses(&t[0].1), vec![0]);
}

#[test]
fn switch_takes_one_of_its_cases() {
    let text = "compare 's' {\n loop(20) {\n  switch:\n   (1): {\n    0..8..1\n   }\n   (1): {\n    5..8..6\n   }\n  endswitch\n }\n}\n";
    let t = traces(text);
    assert_eq!(t[0].1.len(), 20);
    assert!(t[0].1.iter().all(|i| i.address == 0 || i.address == 5));
    // Each trace starts its generator afresh.
    let again = traces(text);
    assert_eq!(addresses(&t[0].1), addresses(&again[0].1));
}

#[test]
fn select_case_goes_by_weight_order() {
    // Weights 3, 1, 2 in order of weight: case 1 (1), case 2 (2), case 0 (3).
    let w = vec![3, 1, 2];
    assert_eq!(select_case(&w, 0), Some(1));
    assert_eq!(select_case(&w, 1), Some(1));
    assert_eq!(select_case(&w, 2), Some(2));
    assert_eq!(select_case(&w, 3), Some(2));
    assert_eq!(select_case(&w, 4), Some(0));
    assert_eq!(select_case(&w, 6), Some(0));
    assert_eq!(select_case(&w, 7), None);
    // Equal weights keep their order in the file.
    assert_eq!(select_case(&vec![2, 2], 2), Some(0));
    assert_eq!(select_case(&vec![2, 2], 3), Some(1));
    // A draw of 0 picks the first case even if its weight is 0.
    assert_eq!(select_case(&vec![5, 0], 0), Some(1));
}

#[test]
fn parse_errors() {
    assert!(matches!(TraceFile::try_from("compare 'x' {\n 0..8..1\n"), Err(TraceParseError::ParseError { .. })));
    // An empty range.
    assert!(matches!(TraceFile::try_from("'x' {\n 8..8..8\n}\n"), Err(TraceParseError::ParseError { .. })));
    // An instruction size that is no whole number of bytes.
    assert!(matches!(TraceFile::try_from("'x' {\n 0..4..8\n}\n"), Err(TraceParseError::ParseError { .. })));
    // Instructions that do not fill the range.
    assert!(matches!(TraceFile::try_from("'x' {\n 0..16..3\n}\n"), Err(TraceParseError::ParseError { .. })));
    // An instruction size of zero.
    assert!(matches!(TraceFile::try_from("'x' {\n 0..0..8\n}\n"), Err(TraceParseError::ParseError { .. })));
    // Blank space alone is no trace file, though nothing at all is one.
    assert!(matches!(TraceFile::try_from("  \n"), Err(TraceParseError::ParseError { .. })));
    assert!(TraceFile::try_from("").is_ok());
    // A hexadecimal prefix needs digits.
    assert!(matches!(TraceFile::try_from("'x' {\n 0x..8..0x8\n}\n"), Err(TraceParseError::ParseError { .. })));
    // Numbers past usize::MAX.
    assert!(matches!(
        TraceFile::try_from("'x' {\n 0..8..0x1FFFFFFFFFFFFFFFFF\n}\n"),
        Err(TraceParseError::ParseError { .. })
    ));
}

#[test]
fn duplicate_block_is_named() {
    let r = TraceFile::try_from("'a' {\n}\n'b' {\n}\n'a' {\n}\n");
    match r {
        Err(TraceParseError::DuplicateBlock { name }) => assert_eq!(name, b"a"),
        _ => panic!("expected a duplicate block"),
    }
}

#[test]
fn unknown_block_is_named() {
    let r = TraceFile::try_from("compare 'a' {\n loop(0) {\n  nowhere()\n }\n}\n");
    match r {
        Err(TraceParseError::UnknownBlock { name }) => assert_eq!(name, b"nowhere"),
        _ => panic!("expected an unknown block"),
    }
}

#[test]
fn recursion_deeper_than_allowed_fails() {
    let file = TraceFile::try_from("compare 'a' {\n a()\n}\n").unwrap();
    assert_eq!(file.into_iter(10).unwrap_err(), ExpansionError::CallDepth);
    let file = TraceFile::try_from("'b' {\n 0..8..1\n}\ncompare 'a' {\n b()\n}\n").unwrap();
    assert_eq!(file.into_iter(0).unwrap_err(), ExpansionError::CallDepth);
    assert!(file.into_iter(1).is_ok());
}

#[test]
fn weights_that_overflow_are_reported() {
    let text = format!(
        "compare 'a' {{\n switch:\n  ({}): {{\n  }}\n  (1): {{\n  }}\n endswitch\n}}\n",
        usize::MAX
    );
    let file = TraceFile::try_from(text.as_str()).unwrap();
    assert_eq!(file.into_iter(8).unwrap_err(), ExpansionError::WeightOverflow);
}

#[test]
fn weights_that_overflow_in_a_switch_never_reached_are_harmless() {
    // The overflowing switch sits in a block that no trace runs.
    let text = format!(
        "'unused' {{\n switch:\n  ({}): {{\n  }}\n  (1): {{\n  }}\n endswitch\n}}\ncompare 'a' {{\n 0..8..2\n}}\n",
        usize::MAX
    );
    let file = TraceFile::try_from(text.as_str()).unwrap();
    let t = file.into_iter(8).unwrap();
    assert_eq!(t.len(), 1);
    assert_eq!(addresses(&t[0].1), vec![0, 1]);
}

#[test]
fn refusals_read_as_text() {
    let dup = TraceFile::try_from("'a' {\n}\n'a' {\n}\n").unwrap_err();
    assert_eq!(dup.describe(), "block 'a()' defined multiple times");
    let unknown = TraceFile::try_from("compare 'a' {\n b()\n}\n").unwrap_err();
    assert_eq!(unknown.describe(), "unknown function 'b()'");
    let bad = TraceFile::try_from("compare 'a' {").unwrap_err();
    assert_eq!(bad.describe(), "the text does not follow the trace syntax at byte 0");
    // The first block is read whole; the text stops following the grammar
    // where the second starts.
    let later = TraceFile::try_from("'a' {\n}\ncompare 'b' {").unwrap_err();
    assert!(matches!(later, TraceParseError::ParseError { offset: 8 }));
    assert_eq!(later.describe(), "the text does not follow the trace syntax at byte 8");
}

#[test]
fn switches_always_pick_a_case() {
    // Every switch draws within its total weight, so it always picks a case
    // and the trace unfolds; weights of 0 included.
    let text = "compare 's' {\n loop(50) {\n  switch:\n   (0): {\n    0..8..1\n   }\n   (3): {\n    1..8..2\n   }\n  endswitch\n }\n}\n";
    let file = TraceFile::try_from(text).unwrap();
    let t = file.into_iter(1).unwrap();
    assert_eq!(t[0].1.len(), 50);
    assert!(t[0].1.iter().all(|i| i.address <= 1));
}

#[test]
fn shallow_calls_under_switches_unfold() {
    let text = "'leaf' {\n 8..8..9\n}\ncompare 's' {\n switch:\n  (1): {\n   leaf()\n  }\n  (1): {\n   leaf()\n  }\n endswitch\n}\n";
    let file = TraceFile::try_from(text).unwrap();
    assert_eq!(addresses(&file.into_iter(1).unwrap()[0].1), vec![8]);
    assert!(file.into_iter(0).is_err());
}

#[test]
fn unfolding_is_reproducible() {
    let text = "'leaf' {\n 8..8..9\n}\ncompare 's' {\n loop(40) {\n  switch:\n   (1): {\n    0..8..1\n   }\n   (2): {\n    leaf()\n   }\n   (3): {\n    16..8..17\n   }\n  endswitch\n }\n}\n";
    let first = TraceFile::try_from(text).unwrap().into_iter(4).unwrap();
    let second = TraceFile::try_from(text).unwrap().into_iter(4).unwrap();
    assert_eq!(addresses(&first[0].1), addresses(&second[0].1));
    assert_eq!(first[0].1.len(), 40);
}
