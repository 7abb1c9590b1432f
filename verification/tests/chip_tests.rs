use chipviii::chipviii::{ChipVIIIState, Opcode, DISPLAY_HEIGHT, DISPLAY_WIDTH, SCALE};

fn machine() -> ChipVIIIState {
    ChipVIIIState::new()
}

fn run(chip: &mut ChipVIIIState, op: Opcode) {
    assert!(chip.can_execute_op(op));
    chip.execute(op, 0);
}

#[test]
fn power_on_state() {
    let chip = machine();
    assert_eq!(chip.pc(), 0x200);
    assert_eq!(chip.index_register(), 0);
    assert_eq!(chip.stack_pointer(), 0);
    assert_eq!(chip.cycles_per_second, 500);
    assert_eq!(chip.wait_for_key, None);
    assert!(!chip.draw_flag);
    let zero = [0xF0, 0x90, 0x90, 0x90, 0xF0];
    for (k, b) in zero.iter().enumerate() {
        assert_eq!(chip.memory_byte(k), *b);
    }
    assert_eq!(chip.memory_byte(75), 0xF0);
    assert_eq!(chip.memory_byte(79), 0x80);
    assert_eq!(chip.memory_byte(80), 0);
    assert_eq!(chip.display.len(), DISPLAY_WIDTH * DISPLAY_HEIGHT);
    assert!(chip.display.iter().all(|p| !p));
    assert_eq!(SCALE, 10);
}

#[test]
fn decode_table() {
    assert_eq!(Opcode::decode(0x00E0), Opcode::Cls);
    assert_eq!(Opcode::decode(0x00EE), Opcode::Ret);
    assert_eq!(Opcode::decode(0x0123), Opcode::Unknown(0x0123));
    assert_eq!(Opcode::decode(0x1234), Opcode::Jp { addr: 0x234 });
    assert_eq!(Opcode::decode(0x2ABC), Opcode::Call { addr: 0xABC });
    assert_eq!(Opcode::decode(0x3A12), Opcode::SeByte { x: 0xA, byte: 0x12 });
    assert_eq!(Opcode::decode(0x5120), Opcode::SeReg { x: 1, y: 2 });
    assert_eq!(Opcode::decode(0x5121), Opcode::Unknown(0x5121));
    assert_eq!(Opcode::decode(0x8AB6), Opcode::Shr { x: 0xA });
    assert_eq!(Opcode::decode(0x8ABE), Opcode::Shl { x: 0xA });
    assert_eq!(Opcode::decode(0x8AB8), Opcode::Unknown(0x8AB8));
    assert_eq!(Opcode::decode(0x9AB0), Opcode::SneReg { x: 0xA, y: 0xB });
    assert_eq!(Opcode::decode(0xB123), Opcode::JpV0 { addr: 0x123 });
    assert_eq!(Opcode::decode(0xC2FF), Opcode::Rnd { x: 2, byte: 0xFF });
    assert_eq!(Opcode::decode(0xD125), Opcode::Draw { x: 1, y: 2, n: 5 });
    assert_eq!(Opcode::decode(0xE19E), Opcode::Skp { x: 1 });
    assert_eq!(Opcode::decode(0xE1A1), Opcode::Sknp { x: 1 });
    assert_eq!(Opcode::decode(0xE1A2), Opcode::Unknown(0xE1A2));
    assert_eq!(Opcode::decode(0xF165), Opcode::LdRegI { x: 1 });
    assert_eq!(Opcode::decode(0xF133), Opcode::LdB { x: 1 });
    assert_eq!(Opcode::decode(0xF1FF), Opcode::Unknown(0xF1FF));
}

#[test]
fn program_from_rom() {
    let mut chip = machine();
    chip.read_rom(&[0x60, 0x05, 0x70, 0x03]);
    assert_eq!(chip.memory_byte(0x200), 0x60);
    assert_eq!(chip.memory_byte(0x203), 0x03);
    assert_eq!(chip.memory_byte(0x204), 0x00);
    assert!(chip.can_cycle());
    chip.cycle();
    assert!(chip.can_cycle());
    chip.cycle();
    assert_eq!(chip.register(0), 8);
    assert_eq!(chip.pc(), 0x204);
    // the next word is 0x0000, which is no instruction
    assert!(!chip.can_cycle());
    assert_eq!(chip.fetch_opcode(), Opcode::Unknown(0));
}

#[test]
fn add_with_carry() {
    let mut chip = machine();
    run(&mut chip, Opcode::LdByte { x: 0, byte: 200 });
    run(&mut chip, Opcode::LdByte { x: 1, byte: 100 });
    run(&mut chip, Opcode::AddReg { x: 0, y: 1 });
    assert_eq!(chip.register(0), 44);
    assert_eq!(chip.register(15), 1);
    run(&mut chip, Opcode::AddReg { x: 0, y: 1 });
    assert_eq!(chip.register(0), 144);
    assert_eq!(chip.register(15), 0);
    run(&mut chip, Opcode::AddByte { x: 0, byte: 200 });
    assert_eq!(chip.register(0), 88);
}

#[test]
fn subtract_with_borrow() {
    let mut chip = machine();
    run(&mut chip, Opcode::LdByte { x: 0, byte: 5 });
    run(&mut chip, Opcode::LdByte { x: 1, byte: 10 });
    run(&mut chip, Opcode::Sub { x: 0, y: 1 });
    assert_eq!(chip.register(0), 251);
    assert_eq!(chip.register(15), 0);
    run(&mut chip, Opcode::LdByte { x: 0, byte: 5 });
    run(&mut chip, Opcode::SubN { x: 0, y: 1 });
    assert_eq!(chip.register(0), 5);
    assert_eq!(chip.register(15), 1);
}

#[test]
fn shifts_and_the_flag_register() {
    let mut chip = machine();
    run(&mut chip, Opcode::LdByte { x: 2, byte: 0x81 });
    run(&mut chip, Opcode::Shr { x: 2 });
    assert_eq!(chip.register(2), 0x40);
    assert_eq!(chip.register(15), 1);
    run(&mut chip, Opcode::LdByte { x: 2, byte: 0x81 });
    run(&mut chip, Opcode::Shl { x: 2 });
    assert_eq!(chip.register(2), 0x02);
    assert_eq!(chip.register(15), 1);
    // shifting VF itself: the flag is written first, then shifted
    run(&mut chip, Opcode::LdByte { x: 15, byte: 0x81 });
    run(&mut chip, Opcode::Shr { x: 15 });
    assert_eq!(chip.register(15), 0);
}

#[test]
fn logic_operations() {
    let mut chip = machine();
    run(&mut chip, Opcode::LdByte { x: 0, byte: 0b1100 });
    run(&mut chip, Opcode::LdByte { x: 1, byte: 0b1010 });
    run(&mut chip, Opcode::LdReg { x: 2, y: 0 });
    run(&mut chip, Opcode::Or { x: 2, y: 1 });
    assert_eq!(chip.register(2), 0b1110);
    run(&mut chip, Opcode::LdReg { x: 2, y: 0 });
    run(&mut chip, Opcode::And { x: 2, y: 1 });
    assert_eq!(chip.register(2), 0b1000);
    run(&mut chip, Opcode::LdReg { x: 2, y: 0 });
    run(&mut chip, Opcode::Xor { x: 2, y: 1 });
    assert_eq!(chip.register(2), 0b0110);
}

#[test]
fn call_and_return() {
    let mut chip = machine();
    run(&mut chip, Opcode::Call { addr: 0x300 });
    assert_eq!(chip.pc(), 0x300);
    assert_eq!(chip.stack_pointer(), 1);
    assert_eq!(chip.stack_entry(0), 0x202);
    run(&mut chip, Opcode::Ret);
    assert_eq!(chip.pc(), 0x202);
    assert_eq!(chip.stack_pointer(), 0);
}

#[test]
fn return_with_empty_stack_stops() {
    let chip = machine();
    assert!(!chip.can_execute_op(Opcode::Ret));
}

#[test]
fn stack_overflow_stops() {
    let mut chip = machine();
    for _ in 0..16 {
        run(&mut chip, Opcode::Call { addr: 0x300 });
    }
    assert_eq!(chip.stack_pointer(), 16);
    assert!(!chip.can_execute_op(Opcode::Call { addr: 0x300 }));
}

#[test]
fn skips() {
    let mut chip = machine();
    run(&mut chip, Opcode::LdByte { x: 0, byte: 5 });
    assert_eq!(chip.pc(), 0x202);
    run(&mut chip, Opcode::SeByte { x: 0, byte: 5 });
    assert_eq!(chip.pc(), 0x206);
    run(&mut chip, Opcode::SneByte { x: 0, byte: 5 });
    assert_eq!(chip.pc(), 0x208);
    run(&mut chip, Opcode::SneReg { x: 0, y: 1 });
    assert_eq!(chip.pc(), 0x20C);
    run(&mut chip, Opcode::SeReg { x: 0, y: 1 });
    assert_eq!(chip.pc(), 0x20E);
}

#[test]
fn jumps() {
    let mut chip = machine();
    run(&mut chip, Opcode::Jp { addr: 0x456 });
    assert_eq!(chip.pc(), 0x456);
    run(&mut chip, Opcode::LdByte { x: 0, byte: 0x10 });
    run(&mut chip, Opcode::JpV0 { addr: 0x300 });
    assert_eq!(chip.pc(), 0x310);
}

#[test]
fn draw_font_digit_and_collide() {
    let mut chip = machine();
    run(&mut chip, Opcode::LdI { addr: 0 });
    run(&mut chip, Opcode::Draw { x: 0, y: 1, n: 5 });
    assert!(chip.draw_flag);
    assert_eq!(chip.register(15), 0);
    // top row of the glyph "0" is 0xF0: four pixels lit
    for x in 0..8 {
        assert_eq!(chip.display[x], x < 4);
    }
    // second row 0x90: pixels 0 and 3
    assert!(chip.display[64]);
    assert!(!chip.display[65]);
    assert!(chip.display[67]);
    run(&mut chip, Opcode::Draw { x: 0, y: 1, n: 5 });
    assert_eq!(chip.register(15), 1);
    assert!(chip.display.iter().all(|p| !p));
}

#[test]
fn draw_wraps_around_the_edges() {
    let mut chip = machine();
    run(&mut chip, Opcode::LdByte { x: 0, byte: 62 });
    run(&mut chip, Opcode::LdByte { x: 1, byte: 31 });
    run(&mut chip, Opcode::LdI { addr: 0 });
    run(&mut chip, Opcode::Draw { x: 0, y: 1, n: 2 });
    // row 0xF0 at y=31 from x=62: x=62,63,0,1
    assert!(chip.display[31 * 64 + 62]);
    assert!(chip.display[31 * 64 + 63]);
    assert!(chip.display[31 * 64]);
    assert!(chip.display[31 * 64 + 1]);
    assert!(!chip.display[31 * 64 + 2]);
    // row 0x90 wraps to y=0: x=62 and x=1
    assert!(chip.display[62]);
    assert!(chip.display[1]);
    assert!(!chip.display[63]);
}

#[test]
fn clear_screen() {
    let mut chip = machine();
    run(&mut chip, Opcode::LdI { addr: 0 });
    run(&mut chip, Opcode::Draw { x: 0, y: 0, n: 5 });
    chip.draw_flag = false;
    run(&mut chip, Opcode::Cls);
    assert!(chip.display.iter().all(|p| !p));
    assert!(chip.draw_flag);
}

#[test]
fn draw_past_memory_stops() {
    let mut chip = machine();
    run(&mut chip, Opcode::LdI { addr: 0xFFE });
    assert!(!chip.can_execute_op(Opcode::Draw { x: 0, y: 0, n: 3 }));
    assert!(chip.can_execute_op(Opcode::Draw { x: 0, y: 0, n: 2 }));
}

#[test]
fn decimal_digits() {
    let mut chip = machine();
    run(&mut chip, Opcode::LdByte { x: 4, byte: 123 });
    run(&mut chip, Opcode::LdI { addr: 0x300 });
    run(&mut chip, Opcode::LdB { x: 4 });
    assert_eq!(chip.memory_byte(0x300), 1);
    assert_eq!(chip.memory_byte(0x301), 2);
    assert_eq!(chip.memory_byte(0x302), 3);
}

#[test]
fn store_and_load_registers() {
    let mut chip = machine();
    for x in 0..4u8 {
        run(&mut chip, Opcode::LdByte { x, byte: 10 + x });
    }
    run(&mut chip, Opcode::LdI { addr: 0x400 });
    run(&mut chip, Opcode::LdIReg { x: 2 });
    assert_eq!(chip.memory_byte(0x400), 10);
    assert_eq!(chip.memory_byte(0x402), 12);
    assert_eq!(chip.memory_byte(0x403), 0);
    for x in 0..4u8 {
        run(&mut chip, Opcode::LdByte { x, byte: 0 });
    }
    run(&mut chip, Opcode::LdRegI { x: 2 });
    assert_eq!(chip.register(0), 10);
    assert_eq!(chip.register(2), 12);
    assert_eq!(chip.register(3), 0);
}

#[test]
fn index_register_operations() {
    let mut chip = machine();
    run(&mut chip, Opcode::LdByte { x: 3, byte: 0xA });
    run(&mut chip, Opcode::LdF { x: 3 });
    assert_eq!(chip.index_register(), 50);
    run(&mut chip, Opcode::LdI { addr: 0xFFF });
    run(&mut chip, Opcode::AddI { x: 3 });
    assert_eq!(chip.index_register(), 0x1009);
}

#[test]
fn random_byte_is_masked() {
    let mut chip = machine();
    chip.execute(Opcode::Rnd { x: 0, byte: 0x0F }, 0xAB);
    assert_eq!(chip.register(0), 0x0B);
    let mut chip2 = ChipVIIIState::new();
    chip2.read_rom(&[0xC1, 0x0F]);
    chip2.cycle();
    assert_eq!(chip2.register(1) & 0xF0, 0);
}

#[test]
fn key_wait_and_press() {
    let mut chip = machine();
    run(&mut chip, Opcode::LdXK { x: 3 });
    assert_eq!(chip.wait_for_key, Some(3));
    chip.set_key(7, false);
    assert_eq!(chip.wait_for_key, Some(3));
    chip.set_key(7, true);
    assert_eq!(chip.register(3), 7);
    assert_eq!(chip.wait_for_key, None);
    assert!(chip.keys[7]);
    run(&mut chip, Opcode::LdByte { x: 1, byte: 7 });
    let pc = chip.pc();
    run(&mut chip, Opcode::Skp { x: 1 });
    assert_eq!(chip.pc(), pc + 4);
    run(&mut chip, Opcode::Sknp { x: 1 });
    assert_eq!(chip.pc(), pc + 6);
    run(&mut chip, Opcode::LdByte { x: 1, byte: 16 });
    assert!(!chip.can_execute_op(Opcode::Skp { x: 1 }));
}

#[test]
fn run_cycle_waits_for_a_key() {
    let mut chip = machine();
    chip.read_rom(&[0xF2, 0x0A, 0x60, 0x09]);
    assert!(!chip.run_cycle(0));
    assert_eq!(chip.wait_for_key, Some(2));
    assert_eq!(chip.pc(), 0x202);
    chip.run_cycle(0);
    assert_eq!(chip.pc(), 0x202);
    chip.set_key(5, true);
    assert_eq!(chip.register(2), 5);
    chip.run_cycle(0);
    assert_eq!(chip.register(0), 9);
}

#[test]
fn timers_count_down() {
    let mut chip = machine();
    run(&mut chip, Opcode::LdByte { x: 0, byte: 10 });
    run(&mut chip, Opcode::LdDtX { x: 0 });
    assert_eq!(chip.delay_timer(), 10);
    assert!(chip.update_timers(3));
    assert_eq!(chip.delay_timer(), 7);
    assert_eq!(chip.sound_timer(), 0);
    assert!(!chip.update_timers(0));
    assert_eq!(chip.delay_timer(), 7);
    assert!(chip.update_timers(100));
    assert_eq!(chip.delay_timer(), 0);
    run(&mut chip, Opcode::LdStX { x: 0 });
    assert!(chip.update_timers(4));
    assert_eq!(chip.sound_timer(), 6);
    run(&mut chip, Opcode::LdXDt { x: 1 });
    assert_eq!(chip.register(1), 0);
}

#[test]
fn tick_counts_are_taken_modulo_256() {
    let mut chip = machine();
    run(&mut chip, Opcode::LdByte { x: 0, byte: 200 });
    run(&mut chip, Opcode::LdDtX { x: 0 });
    run(&mut chip, Opcode::LdStX { x: 0 });
    assert!(chip.update_timers(256));
    assert_eq!(chip.delay_timer(), 200);
    assert_eq!(chip.sound_timer(), 200);
    assert!(chip.update_timers(300));
    assert_eq!(chip.delay_timer(), 156);
    assert_eq!(chip.sound_timer(), 156);
    assert!(chip.update_timers(1000));
    assert_eq!(chip.delay_timer(), 0);
    assert_eq!(chip.sound_timer(), 0);
}

#[test]
fn render_lists_lit_pixels() {
    let mut chip = machine();
    run(&mut chip, Opcode::LdByte { x: 0, byte: 2 });
    run(&mut chip, Opcode::LdByte { x: 1, byte: 3 });
    run(&mut chip, Opcode::LdI { addr: 5 });
    run(&mut chip, Opcode::Draw { x: 0, y: 1, n: 1 });
    // glyph "1" first row 0x20: one pixel at column 2 of the sprite
    let lit = chip.render();
    assert_eq!(lit, vec![(4, 3)]);
    assert!(!chip.draw_flag);
}

#[test]
fn cycle_delay() {
    let mut chip = machine();
    assert_eq!(chip.cycle_delay_micros(), 2000);
    chip.cycles_per_second = 3;
    assert_eq!(chip.cycle_delay_micros(), 333_333);
}

#[test]
fn program_counter_past_memory_stops() {
    let mut chip = machine();
    run(&mut chip, Opcode::Jp { addr: 0xFFF });
    assert!(!chip.can_cycle());
}

#[test]
fn setters_write_the_public_fields() {
    let mut chip = machine();
    chip.set_draw_flag(true);
    assert!(chip.draw_flag);
    chip.set_wait_for_key(Some(3));
    assert_eq!(chip.wait_for_key, Some(3));
    chip.set_wait_for_key(None);
    assert_eq!(chip.wait_for_key, None);
    chip.set_cycles_per_second(1000);
    assert_eq!(chip.cycles_per_second, 1000);
    assert_eq!(chip.cycle_delay_micros(), 1000);
    chip.set_pixel(64 * 2 + 5, true);
    assert!(chip.display[133]);
    assert_eq!(chip.render(), vec![(5, 2)]);
}
