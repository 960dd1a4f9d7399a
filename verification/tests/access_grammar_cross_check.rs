use winnow::ascii::{alphanumeric1, float, line_ending, multispace0, space0};
use winnow::combinator::{alt, delimited, eof, fail, preceded, repeat, repeat_till, separated_pair, terminated};
use winnow::stream::AsChar;
use winnow::token::take_while;
use winnow::{ModalResult, Parser};
use lru_sim::access_trace::{parse_block, AccessTrace, Statement};

#[derive(Debug)]
enum St { A(usize), R(usize, usize), C(String), L(usize, Vec<St>), S(Vec<(f32, Vec<St>)>) }

fn function<'a>(input: &mut &'a str) -> ModalResult<(&'a str, Vec<St>)> {
    delimited((multispace0, "fn", space0), (function_name, block), end).parse_next(input)
}
fn function_name<'a>(input: &mut &'a str) -> ModalResult<&'a str> {
    if input.chars().next().is_some_and(|c| c.is_alpha()) { (alphanumeric1).parse_next(input) } else { fail.parse_next(input) }
}
fn end<'a>(input: &mut &'a str) -> ModalResult<(&'a str, &'a str, &'a str)> { (space0, alt((line_ending, eof)), multispace0).parse_next(input) }
fn block(input: &mut &str) -> ModalResult<Vec<St>> {
    delimited((multispace0, '{'), repeat_till(0.., statement, (multispace0, '}')), end).parse_next(input).map(|(s, _): (Vec<St>, _)| s)
}
fn statement(input: &mut &str) -> ModalResult<St> { preceded(multispace0, alt((range, address, function_call, looop, switch))).parse_next(input) }
fn address(input: &mut &str) -> ModalResult<St> { terminated(integer, end).parse_next(input).map(St::A) }
fn range(input: &mut &str) -> ModalResult<St> { terminated(separated_pair(integer, "..", integer), end).parse_next(input).map(|(a, b)| St::R(a, b)) }
fn function_call(input: &mut &str) -> ModalResult<St> { terminated(function_name, ("()", end)).parse_next(input).map(|n| St::C(n.to_string())) }
fn looop(input: &mut &str) -> ModalResult<St> {
    preceded("loop", (delimited((space0, '(', space0), integer, (space0, ')')), block)).parse_next(input).map(|(c, b)| St::L(c, b))
}
fn switch(input: &mut &str) -> ModalResult<St> {
    let (cases, _): (Vec<(f32, Vec<St>)>, _) = delimited(("switch:", end), repeat_till(1.., switch_case, (multispace0, "endswitch")), end).parse_next(input)?;
    Ok(St::S(cases))
}
fn switch_case(input: &mut &str) -> ModalResult<(f32, Vec<St>)> {
    separated_pair(delimited((space0, '(', space0), float, (space0, ')', space0)), (space0, ':', space0), block).parse_next(input)
}
fn integer(input: &mut &str) -> ModalResult<usize> {
    alt((
        alt((
            preceded("0b", take_while(1.., '0'..='1').try_map(|s| usize::from_str_radix(s, 2))),
            preceded("0o", take_while(1.., '0'..='7').try_map(|s| usize::from_str_radix(s, 8))),
            preceded("0x", take_while(1.., ('0'..='9', 'a'..='f', 'A'..='F')).try_map(|s| usize::from_str_radix(s, 16))),
        )),
        decimal_integer,
    )).parse_next(input)
}
fn decimal_integer(input: &mut &str) -> ModalResult<usize> { take_while(1.., '0'..='9').try_map(str::parse::<usize>).parse_next(input) }

fn rw(v: &[St], o: &mut String) {
    for s in v { match s {
        St::A(a) => o.push_str(&format!("A{a};")), St::R(a, b) => o.push_str(&format!("R{a},{b};")), St::C(n) => o.push_str(&format!("C{n};")),
        St::L(c, b) => { o.push_str(&format!("L{c}[")); rw(b, o); o.push(']'); }
        St::S(cs) => { o.push('S'); for (_, b) in cs { o.push('('); rw(b, o); o.push(')'); } o.push(';'); }
    }}
}
fn rm(v: &[Statement], o: &mut String) {
    for s in v { match s {
        Statement::Address { addr } => o.push_str(&format!("A{addr};")),
        Statement::Range { addr_start, addr_end } => o.push_str(&format!("R{addr_start},{addr_end};")),
        Statement::FunctionCall { function_name } => o.push_str(&format!("C{};", String::from_utf8(function_name.clone()).unwrap())),
        Statement::Loop { count, block } => { o.push_str(&format!("L{count}[")); rm(block, o); o.push(']'); }
        Statement::Switch { cases } => { o.push('S'); for c in cases { assert!(std::str::from_utf8(&c.probability).unwrap().parse::<f32>().is_ok()); o.push('('); rm(&c.block, o); o.push(')'); } o.push(';'); }
    }}
}

const PIECES: &[&str] = &[" ", "\t", "\n", "\r\n", "\r", "fn", "fn a", "{", "}", "(", ")", ":", "()", "loop", "loop(2)", "switch:", "endswitch", "..", "0", "8", "0x", "0x1F", "0b", "0b11", "0o7", "0b2", "1.5", ".5", "5.", "1e3", "1e", "-0.5", "+inf", "NaN", "infinity", "inF", "x", "abc", "9999999999999999999999"];
const SAMPLES: &[&str] = &[
    "{\n 0x00\n 0x00..0x20\n abc()\n switch:\n  (0.5): {\n   loop(10) {\n    0x05..0x06\n   }\n  }\n  (0.5): {\n   0x03..0x04\n  }\n endswitch\n loop(10) {\n  1\n }\n}\n",
    "{\nswitch:\n (1e-1): {\n 1\n }\n (.9) : {\n }\nendswitch\n}",
    "fn f {\n 1\n}\n",
    "{\n}",
];

#[test]
fn access_grammar_matches_winnow_combinators() {
    let mut seed: u64 = 999;
    let mut next = || { seed = seed.wrapping_mul(6364136223846793005).wrapping_add(1442695040888963407); (seed >> 33) as usize };
    let mut bad = 0;
    let mut ok_count = 0;
    for round in 0..30000 {
        let mut text = SAMPLES[next() % SAMPLES.len()].to_string();
        for _ in 0..(next() % 4) {
            let chars: Vec<char> = text.chars().collect();
            let pos = if chars.is_empty() { 0 } else { next() % (chars.len() + 1) };
            let mut nc: Vec<char> = chars[..pos].to_vec();
            if next() % 3 == 1 { nc.extend_from_slice(&chars[(pos + 1).min(chars.len())..]); }
            else { nc.extend(PIECES[next() % PIECES.len()].chars()); nc.extend_from_slice(&chars[pos..]); }
            text = nc.into_iter().collect();
        }
        if round % 7 == 0 { text = (0..(next() % 12)).map(|_| PIECES[next() % PIECES.len()]).collect(); }
        let w = block.parse(text.as_str()).ok().map(|b| { let mut s = String::new(); rw(&b, &mut s); s });
        let m = parse_block(&text).map(|b| { let mut s = String::new(); rm(&b, &mut s); s });
        if w.is_some() { ok_count += 1; }
        if w != m { bad += 1; if bad < 10 { println!("DIFF {:?}\n w {:?}\n m {:?}", text, w, m); } }
        let wt: Result<(Vec<(&str, Vec<St>)>, Vec<St>), _> = (repeat(0.., function), block).parse(text.as_str());
        let mt = AccessTrace::parse(&text);
        if wt.is_ok() != mt.is_some() { bad += 1; if bad < 10 { println!("DIFF file {:?}", text); } }
    }
    println!("accepted {ok_count}");
    assert!(ok_count > 100);
    assert_eq!(bad, 0);
}
