use lru_sim::access_trace::{parse_block, AccessTrace, Statement};

#[test]
fn test() {
    let trace = String::from(
        r#"
            {
                0x00
                0x00..0x20
                abc()

                switch:
                    (0.5): {
                        loop(10) {
                            0x05..0x06
                        }
                    }
                    (0.5): {
                        0x03..0x04
                    }
                endswitch

                loop(10) {
                    0x05..0x06
                }
            }
            "#,
    );

    println!("{:?}", parse_block(trace.as_str()).unwrap());
}

#[test]
fn block_statements_in_order() {
    let block = parse_block("{\n 0x10\n 1..2\n f()\n}\n").unwrap();
    assert_eq!(block.len(), 3);
    assert!(matches!(block[0], Statement::Address { addr: 16 }));
    assert!(matches!(block[1], Statement::Range { addr_start: 1, addr_end: 2 }));
    match &block[2] {
        Statement::FunctionCall { function_name } => assert_eq!(function_name, b"f"),
        _ => panic!("expected a call"),
    }
}

#[test]
fn switch_keeps_probability_text() {
    let block = parse_block("{\nswitch:\n (0.25): {\n 1\n }\n (.75): {\n 2\n }\nendswitch\n}").unwrap();
    match &block[0] {
        Statement::Switch { cases } => {
            assert_eq!(cases.len(), 2);
            assert_eq!(cases[0].probability, b"0.25");
            assert_eq!(cases[1].probability, b".75");
        }
        _ => panic!("expected a switch"),
    }
}

#[test]
fn prefixed_number_falls_back_to_decimal() {
    // `0b2` is no binary number, so `0` is read and the line does not end.
    assert!(parse_block("{\n0b2\n}").is_none());
    assert!(parse_block("{\n0b101\n}").is_some());
}

#[test]
fn trailing_text_is_refused() {
    assert!(parse_block("{\n}\nx").is_none());
    assert!(parse_block("{\n}\n").is_some());
}

#[test]
fn access_trace_collects_switch_probabilities() {
    let t = AccessTrace::parse("{\nswitch:\n (0.5): {\n switch:\n (1): {\n 1\n }\n endswitch\n }\nendswitch\n}\n").unwrap();
    let p = t.switch_probabilities();
    assert_eq!(p, vec![vec![b"0.5".to_vec()], vec![b"1".to_vec()]]);
}

#[test]
fn function_before_main_block_is_refused() {
    // A function's own block ends its line, and the function then needs
    // another line end, which only the end of the input gives.
    assert!(AccessTrace::parse("fn a {\n1\n}\n{\n}\n").is_none());
    assert!(AccessTrace::parse("{\n1\n}\n").is_some());
}
