use brainfuck::brackets::{process_parens, Malformed};
use brainfuck::cell::Brain;
use brainfuck::encode::{optimize_zero_loop, rle};
use brainfuck::engine::{Action, BrainFuck, RunError};
use brainfuck::instruction::{parse_num_idx, Instruction, ToInstruction, IR};

const FUEL: u64 = 10_000_000;

fn expand(encoded: &str) -> String {
    let s = encoded.chars().collect::<Vec<char>>();
    let mut ir_ptr = 0;
    let mut out = String::new();
    loop {
        match parse_num_idx(&s, &ir_ptr) {
            IR::Eof => break,
            IR::CntSym(count, symbol, ptr) => {
                ir_ptr = ptr;
                for _ in 0..count {
                    out.push(symbol.to_char());
                }
            }
            IR::Sym(symbol, ptr) => {
                ir_ptr = ptr;
                out.push(symbol.to_char());
            }
        }
    }
    out
}

fn run(src: &str, input: &[u8]) -> Result<String, RunError> {
    let mut b = BrainFuck::new(src).unwrap();
    b.eval(&input.to_vec(), FUEL)
}

#[test]
fn comp_decomp_bf_src() {
    let c = "++++++>>>>>>+++.";
    let encoded = rle(c);
    let decoded = expand(&encoded);
    assert_eq!(c, decoded);
}

#[test]
fn paren_idx() {
    let src = "++[.[-]]";
    let map = process_parens(src).unwrap();
    assert_eq!(map.get(&6).unwrap(), &4);
    assert_eq!(map.get(&2).unwrap(), &7);
    assert_eq!(map.get(&4).unwrap(), &6);
    assert_eq!(map.get(&7).unwrap(), &2);
}

#[test]
fn cell_clear() {
    let a = "[[-]]";
    let res = optimize_zero_loop(a);
    assert_eq!(res, "[|]");
}

#[test]
fn hello_world_program() {
    let src = "++++++++++[>+++++++>++++++++++>+++>+<<<<-]>++.>+.+++++++..+++.>++.<<+++++++++++++++.>.+++.------.--------.>+.>.";
    let mut b = BrainFuck::new(src).unwrap();
    assert_eq!(Ok("Hello World!\n".to_string()), b.eval(&vec![], FUEL));
}

#[test]
fn test_parse_num() {
    let s = "3+[----]".chars().collect::<Vec<char>>();
    let mut ir_ptr = 0;
    let mut parsed = String::new();
    loop {
        match parse_num_idx(&s, &ir_ptr) {
            IR::Eof => break,
            IR::CntSym(count, symbol, ptr) => {
                ir_ptr = ptr;
                parsed.push_str(&format!("{}{}", count, symbol.to_char()));
            }
            IR::Sym(symbol, ptr) => {
                ir_ptr = ptr;
                parsed.push_str(&format!("{}", symbol.to_char()));
            }
        }
    }
    assert_eq!(parsed, s.iter().collect::<String>());
}

#[test]
fn encoder_keeps_short_runs_and_counts_long_ones() {
    assert_eq!(rle(""), "");
    assert_eq!(rle("+"), "+");
    assert_eq!(rle("++"), "++");
    assert_eq!(rle("+++"), "3+");
    assert_eq!(rle("++++++>>>>>>+++."), "6+6>3+.");
    assert_eq!(rle("[[[[]]]]"), "[[[[]]]]");
    assert_eq!(rle("------------"), "12-");
    assert_eq!(rle("ab"), "ab");
    assert_eq!(rle("+...."), "+....");
    assert_eq!(rle(",,,,"), "4,");
}

#[test]
fn optimizer_rewrites_only_the_idiom() {
    assert_eq!(optimize_zero_loop("[-][-]"), "||");
    assert_eq!(optimize_zero_loop("[+]"), "[+]");
    assert_eq!(optimize_zero_loop("[--]"), "[--]");
    assert_eq!(optimize_zero_loop("[[-]-]]"), "[|-]]");
    assert_eq!(optimize_zero_loop(""), "");
}

#[test]
fn bracket_map_is_symmetric() {
    let src = "[[]][][[[]]]";
    let map = process_parens(src).unwrap();
    assert_eq!(map.len(), 12);
    for (p, q) in map.iter() {
        assert_eq!(map.get(q).unwrap(), p);
    }
    assert_eq!(map.get(&0).unwrap(), &3);
    assert_eq!(map.get(&6).unwrap(), &11);
}

#[test]
fn unbalanced_brackets_are_refused() {
    assert_eq!(process_parens("[").unwrap_err(), Malformed::UnbalancedBrackets);
    assert_eq!(process_parens("]").unwrap_err(), Malformed::UnbalancedBrackets);
    assert_eq!(process_parens("[]]").unwrap_err(), Malformed::UnbalancedBrackets);
    assert!(BrainFuck::new("[").is_err());
    assert!(BrainFuck::new("+[[-]").is_err());
}

#[test]
fn cells_wrap_around() {
    assert_eq!(run("-.", b""), Ok("\u{ff}".to_string()));
    assert_eq!(run("-+.", b""), Ok("\u{0}".to_string()));
    let mut src = String::new();
    for _ in 0..256 {
        src.push('+');
    }
    src.push('.');
    assert_eq!(run(&src, b""), Ok("\u{0}".to_string()));
    assert_eq!(run("---.", b""), Ok("\u{fd}".to_string()));
}

#[test]
fn loop_clear_scenario() {
    let encoded = optimize_zero_loop(&rle("[[-]]"));
    assert_eq!(encoded, "[|]");
    for v in [0usize, 1, 7, 255] {
        let mut prefix = String::new();
        for _ in 0..v {
            prefix.push('+');
        }
        let with_idiom = format!("{}[[-]].", prefix);
        let expected = format!("{}[[-+-]].", prefix);
        assert_eq!(run(&with_idiom, b""), run(&expected, b""));
        assert_eq!(run(&with_idiom, b""), Ok("\u{0}".to_string()));
    }
}

#[test]
fn counted_decode() {
    let s = "5+".chars().collect::<Vec<char>>();
    assert_eq!(parse_num_idx(&s, &0), IR::CntSym(5, Instruction::IncCell, 2));
    let s = "+".chars().collect::<Vec<char>>();
    assert_eq!(parse_num_idx(&s, &0), IR::Sym(Instruction::IncCell, 1));
    assert_eq!(parse_num_idx(&s, &1), IR::Eof);
    let s = "12>[".chars().collect::<Vec<char>>();
    assert_eq!(parse_num_idx(&s, &0), IR::CntSym(12, Instruction::MoveRight, 3));
    assert_eq!(parse_num_idx(&s, &3), IR::Sym(Instruction::LBrace, 4));
}

#[test]
fn decode_without_a_usable_count() {
    let s = "0+".chars().collect::<Vec<char>>();
    assert_eq!(parse_num_idx(&s, &0), IR::Sym(Instruction::IncCell, 2));
    let s = "3.".chars().collect::<Vec<char>>();
    assert_eq!(parse_num_idx(&s, &0), IR::Sym(Instruction::Stdout, 2));
    let s = "99999999999999999999999+".chars().collect::<Vec<char>>();
    assert_eq!(parse_num_idx(&s, &0), IR::Sym(Instruction::IncCell, 24));
    let s = "42".chars().collect::<Vec<char>>();
    assert_eq!(parse_num_idx(&s, &0), IR::Sym(Instruction::Nop, 2));
    assert_eq!(parse_num_idx(&s, &2), IR::Eof);
    assert_eq!(run("+.42", b""), Ok("\u{1}".to_string()));
    let s = "x".chars().collect::<Vec<char>>();
    assert_eq!(parse_num_idx(&s, &0), IR::Sym(Instruction::Nop, 1));
}

#[test]
fn encoding_keeps_the_output() {
    let programs = [
        "++++++++[>++++[>++>+++>+++>+<<<<-]>+>+>->>+[<]<-]>>.>---.+++++++..+++.>>.<-.<.+++.------.--------.>>+.",
        "+++++[>+++++<-]>.",
        ">>>+++<<<>>>.",
    ];
    for p in programs.iter() {
        let encoded = rle(p);
        assert!(encoded.len() <= p.len());
        let expanded = expand(&encoded);
        assert_eq!(&expanded, p);
        assert!(run(p, b"").is_ok());
    }
    assert_eq!(run("++++++++[>++++[>++>+++>+++>+<<<<-]>+>+>->>+[<]<-]>>.>---.+++++++..+++.>>.<-.<.+++.------.--------.>>+.>++.", b""), Ok("Hello World!\n".to_string()));
}

#[test]
fn output_runs_print_every_time() {
    assert_eq!(run("+...", b""), Ok("\u{1}\u{1}\u{1}".to_string()));
    assert_eq!(run("++++++++[>++++++++<-]>+.....", b""), Ok("AAAAA".to_string()));
}

#[test]
fn runtime_errors() {
    assert_eq!(run("<", b""), Err(RunError::OutOfBounds { cursor: 0 }));
    assert_eq!(run("+.<", b""), Err(RunError::OutOfBounds { cursor: 2 }));
    assert_eq!(run(",", b""), Err(RunError::InputExhausted { cursor: 0 }));
    assert_eq!(run("+[]", b""), Err(RunError::StepLimit));
    let mut right = String::new();
    for _ in 0..30000 {
        right.push('>');
    }
    assert_eq!(run(&right, b""), Err(RunError::OutOfBounds { cursor: 0 }));
    right.pop();
    assert_eq!(run(&right, b""), Ok(String::new()));
}

#[test]
fn input_is_stored_lower_cased() {
    assert_eq!(run(",.", b"A"), Ok("a".to_string()));
    assert_eq!(run(",.,.", b"z!"), Ok("z!".to_string()));
    assert_eq!(run(",,,.", b"Qx"), Err(RunError::InputExhausted { cursor: 0 }));
    assert_eq!(run(",,,.", b"abC"), Ok("c".to_string()));
    assert_eq!(run(",,,.,.", b"abcDe"), Ok("cd".to_string()));
}

#[test]
fn stepping_reports_each_action() {
    let mut b = BrainFuck::new("+.,").unwrap();
    assert_eq!(b.step(), Action::Continue);
    assert_eq!(b.step(), Action::Output(1));
    assert_eq!(b.step(), Action::Input(1));
    b.store_input(b'B');
    assert_eq!(b.step(), Action::Halt);
}

#[test]
fn prototype_helpers() {
    let mut b = Brain::new();
    assert_eq!(b.pre_process("+++[-]"), Ok("3+[-]".to_string()));
    assert_eq!(b.pre_process("[["), Err(Malformed::UnbalancedBrackets));
    b.incr_ptr();
    b.incr_ptr();
    b.decr_ptr();
    b.decr_ptr();
    b.decr_ptr();
    assert_eq!(b.expand(), "");
    assert_eq!(b.parse_instruction('['), Ok(Instruction::LBrace));
    assert_eq!(b.parse_instruction('|'), Ok(Instruction::Nop));
    assert_eq!('|'.to_ir(), Instruction::Zero);
}

#[test]
fn encoding_keeps_bracket_order() {
    let src = "[[[[+++++]]]]>>>>[-----]";
    let encoded = rle(src);
    assert_eq!(encoded, "[[[[5+]]]]4>[5-]");
    let only = |t: &str| t.chars().filter(|c| *c == '[' || *c == ']').collect::<String>();
    assert_eq!(only(&encoded), only(src));
}

#[test]
fn loop_clear_rewrite_can_be_undone() {
    let src = "+[-]>[[-]]<[-[-]]";
    let cleared = optimize_zero_loop(src);
    assert_eq!(cleared, "+|>[|]<[-|]");
    assert_eq!(cleared.replace('|', "[-]"), src);
}
