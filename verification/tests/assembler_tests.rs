use chipviii::assembler::Assembler;
use chipviii::chipviii::{ChipVIIIState, Opcode};

fn assemble(src: &str) -> Result<Vec<u8>, String> {
    let mut assembler = Assembler::new();
    assembler.assemble(src)
}

fn try_assemble(src: &str) -> Option<Result<Vec<u8>, String>> {
    let mut assembler = Assembler::new();
    assembler.try_assemble(src)
}

#[test]
fn clear_and_return() {
    assert_eq!(assemble("CLS\nRET\n"), Ok(vec![0x00, 0xE0, 0x00, 0xEE]));
}

#[test]
fn comments_and_blank_lines_are_skipped() {
    assert_eq!(assemble("  ; header\n\n   CLS ; clear\r\n\t\n"), Ok(vec![0x00, 0xE0]));
}

#[test]
fn jumps_resolve_labels_in_both_directions() {
    let src = "start:\nJP end\nCLS\nend:\nJP start";
    assert_eq!(assemble(src), Ok(vec![0x12, 0x04, 0x00, 0xE0, 0x12, 0x00]));
}

#[test]
fn jump_to_a_number() {
    assert_eq!(assemble("JP 0x345"), Ok(vec![0x13, 0x45]));
    assert_eq!(assemble("JP 0xF345"), Ok(vec![0x13, 0x45]));
    assert_eq!(assemble("JP 512"), Ok(vec![0x12, 0x00]));
}

#[test]
fn load_forms() {
    assert_eq!(assemble("LD I, 0x300"), Ok(vec![0xA3, 0x00]));
    assert_eq!(assemble("LD V1, V2"), Ok(vec![0x81, 0x20]));
    assert_eq!(assemble("ld v1, v2"), Ok(vec![0x81, 0x20]));
    assert_eq!(assemble("LD VA, 0x2F"), Ok(vec![0x6A, 0x2F]));
    assert_eq!(assemble("ld v3, 7"), Ok(vec![0x63, 0x07]));
}

#[test]
fn add_and_draw() {
    assert_eq!(assemble("ADD V0, 1"), Ok(vec![0x70, 0x01]));
    assert_eq!(assemble("ADD V0, 0x1FF"), Ok(vec![0x70, 0xFF]));
    assert_eq!(assemble("DRW V0, V1, 5"), Ok(vec![0xD0, 0x15]));
    assert_eq!(assemble("DRW V0, V1, 0x1F"), Ok(vec![0xD0, 0x1F]));
}

#[test]
fn data_bytes_and_alignment() {
    assert_eq!(assemble("DB 0x12\nDB 34\nCLS"), Ok(vec![0x12, 34, 0x00, 0xE0]));
    assert_eq!(assemble("DB 1\nCLS"), Ok(vec![1, 0, 0x00, 0xE0]));
    assert_eq!(assemble("DB 0x100"), Ok(vec![0]));
    assert_eq!(assemble("DB +5"), Ok(vec![5]));
}

#[test]
fn db_with_a_comma_counts_as_two_bytes_in_the_first_pass() {
    // The first pass splits at white space only and sees "DB,5"; the second
    // splits at commas too and emits one byte.
    assert_eq!(assemble("DB,5\nhere:\nCLS\nJP here"), Ok(vec![5, 0, 0x00, 0xE0, 0x12, 0x02]));
}

#[test]
fn error_messages() {
    assert_eq!(assemble("LD X, 1"), Err("Invalid LD".to_string()));
    assert_eq!(assemble("JP nowhere"), Err("Num err".to_string()));
    assert_eq!(assemble("LD VZ, 1"), Err("Reg err".to_string()));
    assert_eq!(assemble("FOO V1"), Err("Unknown: FOO".to_string()));
    assert_eq!(assemble("jmp 1"), Err("Unknown: JMP".to_string()));
    assert_eq!(assemble("ADD V1, abc"), Err("Num err".to_string()));
    assert_eq!(assemble("DB -5"), Err("Num err".to_string()));
    assert_eq!(assemble("DB 0X10"), Err("Num err".to_string()));
    assert_eq!(assemble("DB 70000"), Err("Num err".to_string()));
    assert_eq!(assemble("DRW V1, Vx, 3"), Err("Reg err".to_string()));
}

#[test]
fn first_error_wins() {
    assert_eq!(assemble("CLS\nFOO\nLD X, 1"), Err("Unknown: FOO".to_string()));
}

#[test]
fn sources_that_abort() {
    assert_eq!(try_assemble("JP"), None);
    assert_eq!(try_assemble(","), None);
    assert_eq!(try_assemble("DB"), None);
    assert_eq!(try_assemble("LD V1"), None);
    assert_eq!(try_assemble("ADD \u{e9}1, 2"), None);
    assert_eq!(try_assemble("CLS\nRET"), Some(Ok(vec![0x00, 0xE0, 0x00, 0xEE])));
}

#[test]
fn error_before_an_abort_is_reported() {
    assert_eq!(try_assemble("LD VZ"), Some(Err("Reg err".to_string())));
}

#[test]
fn addresses_past_the_end_of_memory_space_stop() {
    let ok = "CLS\n".repeat(32511);
    assert!(matches!(try_assemble(&ok), Some(Ok(_))));
    let too_long = "CLS\n".repeat(32512);
    assert_eq!(try_assemble(&too_long), None);
}

#[test]
fn labels_persist_between_calls() {
    let mut assembler = Assembler::new();
    assert_eq!(assembler.assemble("loop:\nCLS"), Ok(vec![0x00, 0xE0]));
    assert_eq!(assembler.assemble("JP loop"), Ok(vec![0x12, 0x00]));
}

#[test]
fn later_label_definition_wins() {
    assert_eq!(assemble("a:\nCLS\na:\nJP a"), Ok(vec![0x00, 0xE0, 0x12, 0x02]));
}

#[test]
fn mnemonics_are_case_insensitive_in_unicode() {
    assert_eq!(assemble("cls"), Ok(vec![0x00, 0xE0]));
    // U+017F LATIN SMALL LETTER LONG S uppercases to 'S'.
    assert_eq!(assemble("cl\u{17f}"), Ok(vec![0x00, 0xE0]));
}

#[test]
fn a_tab_does_not_separate_operands() {
    assert_eq!(assemble("LD\tV1, 2"), Err("Unknown: LD\tV1".to_string()));
}

#[test]
fn assembled_code_runs() {
    let rom = assemble("LD V0, 5\nADD V0, 3\nLD I, 0x300\nDRW V0, V1, 1").unwrap();
    let mut chip = ChipVIIIState::new();
    chip.read_rom(&rom);
    let expected = [
        Opcode::LdByte { x: 0, byte: 5 },
        Opcode::AddByte { x: 0, byte: 3 },
        Opcode::LdI { addr: 0x300 },
        Opcode::Draw { x: 0, y: 1, n: 1 },
    ];
    for op in expected.iter() {
        assert_eq!(chip.fetch_opcode(), *op);
        assert!(chip.can_cycle());
        chip.cycle();
    }
    assert_eq!(chip.register(0), 8);
    assert_eq!(chip.index_register(), 0x300);
}

#[test]
fn label_address_counts_data_and_instruction_lines() {
    // two DB lines (one byte each) and one instruction (two bytes) before `l`
    assert_eq!(assemble("DB 1\nDB 2\nCLS\nl:\nJP l"), Ok(vec![1, 2, 0x00, 0xE0, 0x12, 0x04]));
}

#[test]
fn assembling_again_gives_the_same_result() {
    let mut assembler = Assembler::new();
    let src = "top:\nLD V0, 1\nJP top\nJP later\nlater:\nRET";
    let first = assembler.assemble(src);
    let second = assembler.assemble(src);
    assert_eq!(first, second);
    assert_eq!(first, Ok(vec![0x60, 0x01, 0x12, 0x00, 0x12, 0x06, 0x00, 0xEE]));
}

#[test]
fn register_operands_read_in_hex_after_their_first_character() {
    assert_eq!(assemble("ADD V, 1"), Err("Reg err".to_string()));
    assert_eq!(assemble("ADD VG, 1"), Err("Reg err".to_string()));
    assert_eq!(assemble("ADD V10000, 1"), Err("Reg err".to_string()));
    assert_eq!(assemble("ADD xF, 1"), Ok(vec![0x7F, 0x01]));
}

#[test]
fn ascii_case_does_not_change_an_instruction() {
    assert_eq!(assemble("drw va, vb, 0xf"), assemble("DRW VA, VB, 0xF"));
    assert_eq!(assemble("drw va, vb, 0xf"), Ok(vec![0xDA, 0xBF]));
    assert_eq!(assemble("Ld i, 0xabc"), Ok(vec![0xAA, 0xBC]));
    assert_eq!(assemble("ADD vc, 0x1a"), assemble("add VC, 0x1A"));
}

#[test]
fn a_number_reads_alike_in_decimal_and_hexadecimal() {
    assert_eq!(assemble("JP 768"), assemble("JP 0x300"));
    assert_eq!(assemble("LD V2, 255"), assemble("LD V2, 0xff"));
    assert_eq!(assemble("ADD V2, +16"), assemble("ADD V2, 0x10"));
    assert_eq!(assemble("DRW V0, V1, 15"), Ok(vec![0xD0, 0x1F]));
    assert_eq!(assemble("DRW V0, V1, 0xF"), Ok(vec![0xD0, 0x1F]));
}
