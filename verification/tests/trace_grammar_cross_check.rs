use winnow::ascii::{line_ending, multispace0, space0, space1, till_line_ending};
use winnow::combinator::{alt, cut_err, delimited, eof, fail, opt, peek, preceded, repeat, repeat_till, separated_pair, terminated};
use winnow::error::{ContextError, StrContext};
use winnow::stream::AsChar;
use winnow::token::take_while;
use winnow::{ModalResult, Parser};
use lru_sim::syntax::Op;

#[derive(Debug)]
enum WOp { Range(usize, usize, usize), Call(String), Loop(usize, Vec<WOp>), Switch(Vec<(usize, Vec<WOp>)>) }
struct WBlock { compare: bool, name: String, ops: Vec<WOp> }

fn block_name<'a>(input: &mut &'a str) -> ModalResult<&'a str> { take_while(1.., (AsChar::is_alphanum, '_', '-')).parse_next(input) }
fn named_block(input: &mut &str) -> ModalResult<WBlock> {
    (opt(terminated("compare", space1)).map(|c| c.is_some()), delimited('\'', cut_err(block_name), cut_err('\'')), cut_err(block))
        .map(|(compare, name, ops)| WBlock { compare, name: name.to_string(), ops }).parse_next(input)
}
fn block(input: &mut &str) -> ModalResult<Vec<WOp>> {
    delimited((multispace, '{'), cut_err(repeat_till(0.., op, (multispace, '}')).map(|(ops, _): (Vec<WOp>, _)| ops)), end).parse_next(input)
}
fn op(input: &mut &str) -> ModalResult<WOp> { preceded(multispace, alt((block_call, looop, switch, range))).parse_next(input) }
fn range(input: &mut &str) -> ModalResult<WOp> {
    fn inner(input: &mut &str) -> ModalResult<(usize, usize, usize)> { terminated((integer, delimited("..", integer, ".."), integer), end).parse_next(input) }
    let (a, l, e) = peek(inner).parse_next(input)?;
    if a >= e { return fail.context(StrContext::Label("x")).parse_next(input)?; }
    if l % 8 != 0 { return fail.context(StrContext::Label("x")).parse_next(input)?; }
    if l == 0 { return fail.context(StrContext::Label("x")).parse_next(input)?; }
    if (e - a) % (l / 8) != 0 { return fail.context(StrContext::Label("x")).parse_next(input)?; }
    inner.parse_next(input).map(|(a, l, e)| WOp::Range(a, l, e))
}
fn block_call(input: &mut &str) -> ModalResult<WOp> {
    terminated(block_name, ("()", end)).map(|n| WOp::Call(n.to_string())).parse_next(input).map_err(|e| e.backtrack())
}
fn looop(input: &mut &str) -> ModalResult<WOp> {
    preceded("loop", cut_err((delimited((space, '(', space), decimal_integer, (space, ')', space)), block)).map(|(c, b)| WOp::Loop(c, b))).parse_next(input)
}
fn switch(input: &mut &str) -> ModalResult<WOp> {
    preceded(("switch:", cut_err(end)), cut_err(terminated(repeat_till(1.., switch_case, (multispace, "endswitch")).map(|(c, _): (Vec<_>, _)| WOp::Switch(c)), end))).parse_next(input)
}
fn switch_case(input: &mut &str) -> ModalResult<(usize, Vec<WOp>)> {
    separated_pair(delimited((space, '(', space), decimal_integer, (space, ')', space)), (space, ':', space), block).parse_next(input)
}
fn integer(input: &mut &str) -> ModalResult<usize> {
    alt((
        preceded("0x", cut_err(take_while(1.., ('0'..='9', 'a'..='f', 'A'..='F'))).try_map(|s| usize::from_str_radix(s, 16))),
        preceded("0b", cut_err(take_while(1.., '0'..='1')).try_map(|s| usize::from_str_radix(s, 2))),
        preceded("0o", cut_err(take_while(1.., '0'..='7')).try_map(|s| usize::from_str_radix(s, 8))),
        cut_err(decimal_integer),
    )).parse_next(input)
}
fn decimal_integer(input: &mut &str) -> ModalResult<usize> { take_while(1.., '0'..='9').try_map(str::parse::<usize>).parse_next(input) }
fn end(input: &mut &str) -> ModalResult<()> { (space, alt((line_ending, eof)), multispace).void().parse_next(input) }
fn space(input: &mut &str) -> ModalResult<()> { (space0, opt(("//", till_line_ending)), space0).void().parse_next(input) }
fn multispace(input: &mut &str) -> ModalResult<()> {
    (multispace0, repeat::<_, _, (), _, _>(0.., ("//", till_line_ending, multispace0)), multispace0).void().parse_next(input)
}
fn wparse(input: &str) -> Option<Vec<WBlock>> {
    let r: Result<Vec<WBlock>, _> = repeat(0.., preceded(multispace, named_block)).parse(input);
    r.ok()
}

fn render_w(ops: &[WOp], out: &mut String) {
    for o in ops { match o {
        WOp::Range(a, l, e) => out.push_str(&format!("R{a},{l},{e};")),
        WOp::Call(n) => out.push_str(&format!("C{n};")),
        WOp::Loop(c, b) => { out.push_str(&format!("L{c}[")); render_w(b, out); out.push(']'); }
        WOp::Switch(cs) => { out.push('S'); for (w, b) in cs { out.push_str(&format!("{w}(")); render_w(b, out); out.push(')'); } out.push(';'); }
    }}
}
fn render_m(ops: &[lru_sim::syntax::Op], out: &mut String) {
    for o in ops { match o {
        Op::Range { addr_start, instr_length, addr_end } => out.push_str(&format!("R{addr_start},{instr_length},{addr_end};")),
        Op::BlockCall { block_name } => out.push_str(&format!("C{};", String::from_utf8(block_name.clone()).unwrap())),
        Op::Loop { count, block } => { out.push_str(&format!("L{count}[")); render_m(&block.ops, out); out.push(']'); }
        Op::Switch { cases } => { out.push('S'); for c in cases { out.push_str(&format!("{}(", c.weight)); render_m(&c.block.ops, out); out.push(')'); } out.push(';'); }
    }}
}

const PIECES: &[&str] = &[" ", "\t", "\n", "\r\n", "\r", "//c", "// x\n", "compare", "compare ", "'", "main", "a_b", "-", "{", "}", "(", ")", ":", "()", "loop", "loop(2)", "switch:", "endswitch", "..", "0", "8", "16", "32", "0x", "0x10", "0b", "0b101", "0o17", "7", "99999999999999999999999", "x", "é"];
const SAMPLES: &[&str] = &[
    "compare 'main' {\n  0x100..32..0x110\n  helper()\n}\n'helper' {\n loop(2) {\n 0..8..4\n }\n}\n",
    "// head\ncompare 's' { // c\n switch:\n  (1): {\n   0..8..1\n  }\n  (2) : {\n  }\n endswitch\n}\n",
    "'a' {\n}",
    "",
];

#[test]
fn trace_grammar_matches_winnow_combinators() {
    let mut seed: u64 = 12345;
    let mut next = || { seed = seed.wrapping_mul(6364136223846793005).wrapping_add(1442695040888963407); (seed >> 33) as usize };
    let mut disagreements = 0;
    for round in 0..30000 {
        let base = SAMPLES[next() % SAMPLES.len()];
        let mut text: String = base.to_string();
        let edits = next() % 4;
        for _ in 0..edits {
            let chars: Vec<char> = text.chars().collect();
            let pos = if chars.is_empty() { 0 } else { next() % (chars.len() + 1) };
            let kind = next() % 3;
            let mut newc: Vec<char> = chars[..pos].to_vec();
            match kind {
                0 => newc.extend(PIECES[next() % PIECES.len()].chars()),
                1 => { if pos < chars.len() { } }
                _ => newc.extend(PIECES[next() % PIECES.len()].chars()),
            }
            let skip = if kind == 1 && pos < chars.len() { 1 } else { 0 };
            newc.extend_from_slice(&chars[(pos + skip).min(chars.len())..]);
            text = newc.into_iter().collect();
        }
        if round % 7 == 0 {
            text = (0..(next() % 12)).map(|_| PIECES[next() % PIECES.len()]).collect();
        }
        let w = wparse(&text);
        let m = lru_sim::syntax::parse_named_blocks(text.as_bytes()).ok();
        let ws = w.map(|bs| { let mut s = String::new(); for b in bs { s.push_str(&format!("<{}{}:", b.compare, b.name)); render_w(&b.ops, &mut s); s.push('>'); } s });
        let ms = m.map(|bs| { let mut s = String::new(); for b in bs { s.push_str(&format!("<{}{}:", b.compare, String::from_utf8(b.name.clone()).unwrap())); render_m(&b.ops, &mut s); s.push('>'); } s });
        if ws != ms {
            disagreements += 1;
            if disagreements < 10 { println!("DIFF on {:?}\n winnow: {:?}\n mine: {:?}", text, ws, ms); }
        }
    }
    assert_eq!(disagreements, 0);
}
