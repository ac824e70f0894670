use malbolge::{encrypt, Interpreter, Outcome, Step, Word, MAX_INT};

fn word(v: usize) -> Word {
    Word::new(v).unwrap()
}

fn loaded(text: &str) -> Interpreter {
    let mut m = Interpreter::new();
    m.init_mem(text).unwrap();
    m
}

fn cell(m: &Interpreter, addr: usize) -> usize {
    m.get(word(addr)).value()
}

fn regs(m: &Interpreter) -> (usize, usize, usize) {
    let r = m.registers();
    (r.a.value(), r.c.value(), r.d.value())
}

fn text(output: &[char]) -> String {
    output.iter().collect()
}

#[test]
fn end_program_halts_at_once() {
    let mut m = loaded("Q");
    let run = m.execute(&[], 1000);
    assert_eq!(run.outcome, Outcome::Halted);
    assert_eq!(run.cycles, 0);
    assert_eq!(run.consumed, 0);
    assert!(run.output.is_empty());
    assert_eq!(regs(&m), (0, 0, 0));
    assert_eq!(cell(&m, 0), 81);
}

#[test]
fn end_program_halts_without_fuel() {
    let mut m = loaded("Q");
    let run = m.execute(&[1, 2, 3], 0);
    assert_eq!(run.outcome, Outcome::Halted);
    assert_eq!(run.cycles, 0);
    assert_eq!(run.consumed, 0);
    assert!(run.output.is_empty());
    assert_eq!(m.step(None), Step::Halted);
    assert_eq!(m.step(Some(7)), Step::Halted);
    assert_eq!(regs(&m), (0, 0, 0));
}

#[test]
fn program_prints_h() {
    let mut m = loaded("D'B;:^K");
    let run = m.execute(&[], 1000);
    assert_eq!(run.outcome, Outcome::Halted);
    assert_eq!(text(&run.output), "H");
    assert_eq!(run.cycles, 6);
    assert_eq!(run.consumed, 0);
    assert_eq!(regs(&m), (72, 6, 44));
}

#[test]
fn program_prints_h_step_by_step() {
    let mut m = loaded("D'B;:^K");
    let expected = [
        (68, Step::Continue, (0, 1, 1)),
        (40, Step::Continue, (0, 2, 40)),
        (68, Step::Continue, (0, 3, 41)),
        (62, Step::Continue, (29524, 4, 42)),
        (62, Step::Continue, (72, 5, 43)),
        (5, Step::Output('H'), (72, 6, 44)),
    ];
    for (op, step, after) in expected.iter() {
        assert_eq!(m.decode_instruction(), *op);
        assert_eq!(m.step(None), *step);
        assert_eq!(regs(&m), *after);
    }
    assert_eq!(m.decode_instruction(), 81);
    assert_eq!(m.step(None), Step::Halted);
    assert_eq!(regs(&m), (72, 6, 44));
    let mem: Vec<usize> = (0..8).map(|i| cell(&m, i)).collect();
    assert_eq!(mem, [33, 116, 62, 92, 37, 57, 75, 29503]);
    let data: Vec<usize> = (39..47).map(|i| cell(&m, i)).collect();
    assert_eq!(data, [29503, 75, 29524, 72, 29503, 66, 29503, 75]);
}

#[test]
fn execute_stops_at_the_cycle_limit() {
    let mut m = loaded("D'B;:^K");
    let run = m.execute(&[], 4);
    assert_eq!(run.outcome, Outcome::CycleLimit);
    assert_eq!(run.cycles, 4);
    assert!(run.output.is_empty());
    assert_eq!(regs(&m), (29524, 4, 42));
    let run = m.execute(&[], 1);
    assert_eq!(run.outcome, Outcome::CycleLimit);
    assert_eq!(run.cycles, 1);
    assert_eq!(regs(&m), (72, 5, 43));
    let run = m.execute(&[], 1);
    assert_eq!(run.outcome, Outcome::Halted);
    assert_eq!(run.cycles, 1);
    assert_eq!(text(&run.output), "H");
    let run = m.execute(&[], 0);
    assert_eq!(run.outcome, Outcome::Halted);
    assert_eq!(run.cycles, 0);
}

#[test]
fn execute_with_no_fuel_does_nothing() {
    let mut m = loaded("D'B;:^K");
    let run = m.execute(&[], 0);
    assert_eq!(run.outcome, Outcome::CycleLimit);
    assert_eq!(run.cycles, 0);
    assert_eq!(regs(&m), (0, 0, 0));
    assert_eq!(cell(&m, 0), 68);
}

#[test]
fn input_is_echoed() {
    let mut m = loaded("ubO");
    let run = m.execute(b"A", 1000);
    assert_eq!(run.outcome, Outcome::Halted);
    assert_eq!(text(&run.output), "A");
    assert_eq!(run.cycles, 2);
    assert_eq!(run.consumed, 1);
    assert_eq!(regs(&m), (65, 2, 2));
    assert_eq!(cell(&m, 0), 111);
    assert_eq!(cell(&m, 1), 84);
    assert_eq!(cell(&m, 2), 79);
}

#[test]
fn input_takes_one_byte_at_a_time_in_order() {
    let mut m = loaded("ubs`M");
    let run = m.execute(&[200, 105, 33], 1000);
    assert_eq!(run.outcome, Outcome::Halted);
    assert_eq!(text(&run.output), "Hi");
    assert_eq!(run.cycles, 4);
    assert_eq!(run.consumed, 2);
    assert_eq!(regs(&m), (105, 4, 4));
}

#[test]
fn input_sets_the_accumulator_to_the_byte() {
    let mut m = loaded("ubO");
    assert_eq!(m.step(Some(200)), Step::InputTaken);
    assert_eq!(regs(&m), (200, 1, 1));
    let mut m = loaded("ubO");
    m.input(255);
    assert_eq!(regs(&m), (255, 0, 0));
    m.input(0);
    assert_eq!(regs(&m), (0, 0, 0));
}

#[test]
fn execute_stops_when_input_runs_out() {
    let mut m = loaded("ubs`M");
    let run = m.execute(b"x", 1000);
    assert_eq!(run.outcome, Outcome::InputExhausted);
    assert_eq!(text(&run.output), "x");
    assert_eq!(run.cycles, 2);
    assert_eq!(run.consumed, 1);
    assert_eq!(regs(&m), (120, 2, 2));
    let run = m.execute(b"", 0);
    assert_eq!(run.outcome, Outcome::InputExhausted);
    let run = m.execute(b"y", 1000);
    assert_eq!(run.outcome, Outcome::Halted);
    assert_eq!(text(&run.output), "y");
    assert_eq!(run.cycles, 2);
    assert_eq!(run.consumed, 1);
}

#[test]
fn step_without_input_waits_and_changes_nothing() {
    let mut m = loaded("ubO");
    assert_eq!(m.decode_instruction(), 23);
    assert_eq!(m.step(None), Step::InputNeeded);
    assert_eq!(m.step(None), Step::InputNeeded);
    assert_eq!(regs(&m), (0, 0, 0));
    assert_eq!(cell(&m, 0), 117);
    assert_eq!(m.step(Some(65)), Step::InputTaken);
    assert_eq!(m.step(Some(66)), Step::Output('A'));
    assert_eq!(m.step(Some(66)), Step::Halted);
}

#[test]
fn out_takes_the_accumulator_modulo_128() {
    let mut m = Interpreter::new();
    assert_eq!(m.out(), '\0');
    m.input(72);
    assert_eq!(m.out(), 'H');
    m.input(200);
    assert_eq!(m.out(), 'H');
    m.input(127);
    assert_eq!(m.out(), '\u{7f}');
    m.input(128);
    assert_eq!(m.out(), '\0');
    m.input(255);
    assert_eq!(m.out(), '\u{7f}');
    // An accumulator beyond a byte: 29524 is 84 modulo 128.
    let mut m = loaded("D'B;:^K");
    m.execute(&[], 4);
    assert_eq!(regs(&m).0, 29524);
    assert_eq!(m.out(), 'T');
}

#[test]
fn jmp_loads_the_program_counter_from_memory() {
    let mut m = loaded("D'B;:^K");
    m.jmp();
    assert_eq!(regs(&m), (0, 68, 0));
    m.set_d();
    assert_eq!(regs(&m), (0, 68, 68));
    m.jmp();
    assert_eq!(regs(&m), (0, 66, 68));
}

#[test]
fn set_d_follows_the_data_pointer() {
    let mut m = loaded("D'B;:^K");
    m.set_d();
    assert_eq!(regs(&m), (0, 0, 68));
    m.set_d();
    assert_eq!(regs(&m), (0, 0, 66));
    assert_eq!(cell(&m, 0), 68);
}

#[test]
fn rot_rotates_the_cell_and_copies_it() {
    let mut m = loaded("D'B;:^K");
    m.rot();
    assert_eq!(cell(&m, 0), word(68).rot().value());
    assert_eq!(cell(&m, 0), 39388);
    assert_eq!(regs(&m), (39388, 0, 0));
    assert_eq!(cell(&m, 1), 39);
}

#[test]
fn crz_combines_the_cell_with_the_accumulator() {
    let mut m = loaded("D'B;:^K");
    m.input(72);
    m.crz();
    let expected = word(68).crz(word(72)).value();
    assert_ne!(expected, word(72).crz(word(68)).value());
    assert_eq!(cell(&m, 0), expected);
    assert_eq!(regs(&m), (expected, 0, 0));
    assert_eq!(cell(&m, 1), 39);
}

#[test]
fn decode_adds_cell_and_address_as_words() {
    let mut m = Interpreter::new();
    // The cell at 59048 holds 66: 66 + 59048 wraps to 65.
    m.init_mem("D'B;:^K").unwrap();
    assert_eq!(cell(&m, 59048), 66);
    *m.get_mut(word(0)) = word(59048);
    m.jmp();
    assert_eq!(regs(&m).1, 59048);
    assert_eq!(m.decode_instruction(), 65);
}

#[test]
fn encrypt_and_advance_rewrites_the_cell_and_moves_on() {
    let mut m = loaded("D'B;:^K");
    m.encrypt_and_advance_pc();
    assert_eq!(cell(&m, 0), encrypt(68));
    assert_eq!(cell(&m, 0), 33);
    assert_eq!(regs(&m), (0, 1, 1));
    m.encrypt_and_advance_pc();
    assert_eq!(cell(&m, 1), encrypt(39));
    assert_eq!(regs(&m), (0, 2, 2));
    assert_eq!(cell(&m, 2), 66);
}

#[test]
fn pointers_wrap_past_the_last_address() {
    let mut m = loaded("D'B;:^K");
    *m.get_mut(word(0)) = word(59048);
    m.jmp();
    m.set_d();
    assert_eq!(regs(&m), (0, 59048, 59048));
    m.encrypt_and_advance_pc();
    assert_eq!(regs(&m), (0, 0, 0));
    assert_eq!(cell(&m, 59048), encrypt(66));
}

#[test]
fn the_rewrite_follows_a_jump() {
    // The second instruction jumps: the cell it lands on is rewritten, not
    // the cell that held the jump.
    let mut m = loaded("(aB_");
    assert_eq!(m.step(None), Step::Continue);
    assert_eq!(regs(&m), (0, 1, 41));
    assert_eq!(m.decode_instruction(), 4);
    let target = cell(&m, 41);
    assert_eq!(target, 95);
    let landed_on = cell(&m, 95);
    assert_eq!(m.step(None), Step::Continue);
    assert_eq!(regs(&m), (0, 96, 42));
    assert_eq!(cell(&m, 1), 97);
    assert_eq!(cell(&m, 95), encrypt(landed_on % 94));
}

#[test]
fn a_revisited_cell_decodes_differently() {
    let mut m = loaded("(aB_");
    let mut first_visit: Vec<Option<usize>> = vec![None; MAX_INT];
    let mut revisited = None;
    for _ in 0..10 {
        let c = m.registers().c.value();
        let op = m.decode_instruction();
        if let Some(before) = first_visit[c] {
            revisited = Some((c, before, op));
            break;
        }
        first_visit[c] = Some(op);
        assert_ne!(m.step(None), Step::Halted);
    }
    assert_eq!(revisited, Some((96, 37, 1)));
}

#[test]
fn every_rewrite_changes_the_opcode_where_the_sum_does_not_wrap() {
    for v in (0..MAX_INT).step_by(7) {
        let e = encrypt(v % 94);
        for c in [0usize, 1, 93, 94, 1000, 58000] {
            if v + c < MAX_INT && e + c < MAX_INT {
                assert_ne!((v + c) % 94, (e + c) % 94);
            }
        }
    }
    // Where only one of the sums wraps, the opcode can stay: 64 at 58984.
    assert_eq!(encrypt(64), 81);
    assert_eq!((64 + 58984) % 59049 % 94, (81 + 58984) % 59049 % 94);
}

#[test]
fn get_mut_writes_one_cell() {
    let mut m = Interpreter::new();
    *m.get_mut(word(5)) = word(12345);
    assert_eq!(cell(&m, 5), 12345);
    assert_eq!(cell(&m, 4), 0);
    assert_eq!(cell(&m, 6), 0);
    m.get_mut(word(5)).inc();
    assert_eq!(cell(&m, 5), 12346);
    assert_eq!(regs(&m), (0, 0, 0));
}

#[test]
fn unknown_opcodes_do_nothing() {
    // 33 selects no instruction at address 0.
    let mut m = loaded("D'B;:^K");
    *m.get_mut(word(0)) = word(33);
    assert_eq!(m.decode_instruction(), 33);
    assert_eq!(m.step(Some(9)), Step::Continue);
    assert_eq!(regs(&m), (0, 1, 1));
    assert_eq!(cell(&m, 0), encrypt(33));
    assert_eq!(cell(&m, 1), 39);
}

#[test]
fn a_run_in_pieces_is_the_run_in_one() {
    let input = [200u8, 105, 33];
    let mut whole = loaded("ubs`M");
    let all = whole.execute(&input, 1000);
    for first in 0..6u64 {
        let mut pieces = loaded("ubs`M");
        let head = pieces.execute(&input, first);
        let tail = pieces.execute(&input[head.consumed..], 1000);
        let mut output = head.output.clone();
        output.extend(tail.output.iter());
        assert_eq!(tail.outcome, all.outcome);
        assert_eq!(head.cycles + tail.cycles, all.cycles);
        assert_eq!(head.consumed + tail.consumed, all.consumed);
        assert_eq!(output, all.output);
        assert_eq!(regs(&pieces), regs(&whole));
        for addr in 0..16 {
            assert_eq!(cell(&pieces, addr), cell(&whole, addr));
        }
    }
}
