use mips_sim::program::{parse_program_line, ProgramLine};

#[test]
fn program_lines_with_words() {
    assert_eq!(parse_program_line("00430820"), ProgramLine::Word(0x0043_0820));
    assert_eq!(parse_program_line("  2002000a   # addi $2, $0, 10"), ProgramLine::Word(0x2002_000a));
    assert_eq!(parse_program_line("\t0000000C\r"), ProgramLine::Word(0xc));
    assert_eq!(parse_program_line("ABCDEF01"), ProgramLine::Word(0xabcd_ef01));
    assert_eq!(parse_program_line("+1f"), ProgramLine::Word(0x1f));
    assert_eq!(parse_program_line("0000000000000001"), ProgramLine::Word(1));
    assert_eq!(parse_program_line("ffffffff#x"), ProgramLine::Word(0xffff_ffff));
}

#[test]
fn program_lines_that_are_blank() {
    assert_eq!(parse_program_line(""), ProgramLine::Blank);
    assert_eq!(parse_program_line("   \t "), ProgramLine::Blank);
    assert_eq!(parse_program_line("# a comment"), ProgramLine::Blank);
    assert_eq!(parse_program_line("   # 00430820"), ProgramLine::Blank);
}

#[test]
fn program_lines_that_are_malformed() {
    assert_eq!(parse_program_line("100000000"), ProgramLine::Malformed);
    assert_eq!(parse_program_line("0x10"), ProgramLine::Malformed);
    assert_eq!(parse_program_line("+"), ProgramLine::Malformed);
    assert_eq!(parse_program_line("-1"), ProgramLine::Malformed);
    assert_eq!(parse_program_line("12 34"), ProgramLine::Malformed);
    assert_eq!(parse_program_line("zz"), ProgramLine::Malformed);
    assert_eq!(parse_program_line("+ 1"), ProgramLine::Malformed);
}

#[test]
fn program_lines_agree_with_std_parsing() {
    for text in ["00430820", "+7", "fFfF", "100000000", "g", "+", "-0", "0", "+-1"] {
        let expected = match u32::from_str_radix(text, 16) {
            Ok(w) => ProgramLine::Word(w),
            Err(_) => ProgramLine::Malformed,
        };
        assert_eq!(parse_program_line(text), expected, "{}", text);
    }
}
