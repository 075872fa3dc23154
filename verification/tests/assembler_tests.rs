use transient::assembler::{preprocess_source_code, Diagnostic, ErrorCode};
use transient::isa::Operation;
use transient::text::split_bytes_by;

fn lines_of(src: &str) -> Vec<Vec<u8>> {
    split_bytes_by(&src.as_bytes().to_vec(), b'\n')
}

fn expect_error(src: &str) -> Diagnostic {
    match preprocess_source_code(lines_of(src)) {
        Err(d) => d,
        Ok(_) => panic!("expected a diagnostic"),
    }
}

#[test]
fn comments_and_blanks_are_ignored() {
    let (ops, vars) = preprocess_source_code(lines_of("// a comment\n\nhlt\n")).unwrap();
    assert_eq!(ops, vec![Operation::Hlt()]);
    assert!(vars.is_empty());
}

#[test]
fn a_declaration_binds_past_the_text_section() {
    let (ops, vars) = preprocess_source_code(lines_of("set8 $c 65\nputc8 $c\nhlt")).unwrap();
    // Two instructions of eight bytes each: the variable sits at offset 16.
    assert_eq!(ops, vec![Operation::PutC(1, 16), Operation::Hlt()]);
    assert_eq!(vars.len(), 1);
    assert_eq!(vars[0].name, b"c".to_vec());
    assert_eq!(vars[0].address, 16);
    assert_eq!(vars[0].value, 65);
    assert_eq!(vars[0].width, 1);
}

#[test]
fn variable_addresses_increase_by_width_in_declaration_order() {
    let src = "set8 $a 1\nset32 $b 2\nset16 $c 3\nset64 $d 4\nhlt";
    let (_ops, vars) = preprocess_source_code(lines_of(src)).unwrap();
    let addresses: Vec<usize> = vars.iter().map(|v| v.address).collect();
    let widths: Vec<usize> = vars.iter().map(|v| v.width).collect();
    assert_eq!(addresses, vec![8, 9, 13, 15]);
    assert_eq!(widths, vec![1, 4, 2, 8]);
    // No two variables share an address range.
    for j in 0..vars.len() {
        for k in (j + 1)..vars.len() {
            assert!(vars[j].address + vars[j].width <= vars[k].address);
        }
    }
}

#[test]
fn tags_bind_to_the_following_instruction() {
    let src = "#top\nputi8 $x\n#mid\njmp8 #top\n#end\nhlt\nset8 $x 7";
    let (ops, _vars) = preprocess_source_code(lines_of(src)).unwrap();
    // #top is offset 0, #mid is 8 (one instruction before it), #end is 16.
    assert_eq!(ops[1], Operation::Jmp(0));
    assert_eq!(ops, vec![Operation::PutI(1, 24), Operation::Jmp(0), Operation::Hlt()]);
}

#[test]
fn a_repeated_tag_keeps_its_last_binding() {
    let src = "#t\nputi8 $x\n#t\njmp8 #t\nhlt\nset8 $x 7";
    let (ops, _vars) = preprocess_source_code(lines_of(src)).unwrap();
    assert_eq!(ops[1], Operation::Jmp(8));
}

#[test]
fn immediates_are_interned_by_token_text() {
    let src = "add8 !8_2 !8_2 $r\nhlt\nset8 $r 0";
    let (ops, vars) = preprocess_source_code(lines_of(src)).unwrap();
    // One synthetic declaration for the repeated token, then $r.
    assert_eq!(vars.len(), 2);
    assert_eq!(vars[0].name, b"!8_2".to_vec());
    assert_eq!(vars[0].value, 2);
    assert_eq!(vars[0].width, 1);
    assert_eq!(vars[0].address, 16);
    assert_eq!(vars[1].name, b"r".to_vec());
    assert_eq!(vars[1].address, 17);
    assert_eq!(ops[0], Operation::Add(1, 16, 16, 17));
}

#[test]
fn distinct_immediates_get_distinct_slots() {
    let src = "add16 !16_300 !16_299 $r\nhlt\nset16 $r 0";
    let (_ops, vars) = preprocess_source_code(lines_of(src)).unwrap();
    assert_eq!(vars.len(), 3);
    assert_eq!(vars[0].name, b"!16_300".to_vec());
    assert_eq!(vars[0].value, 300);
    assert_eq!(vars[0].width, 2);
    assert_eq!(vars[1].name, b"!16_299".to_vec());
    assert_eq!(vars[1].address, vars[0].address + 2);
}

#[test]
fn malformed_set_is_refused() {
    let d = expect_error("set8 $x\nhlt");
    assert_eq!(d.code, ErrorCode::MalformedSet);
    assert_eq!(d.line, b"set8 $x".to_vec());
}

#[test]
fn a_variable_needs_its_dollar() {
    let d = expect_error("set8 x 5\nhlt");
    assert_eq!(d.code, ErrorCode::MissingDollar);
}

#[test]
fn an_unparseable_declaration_size_is_refused() {
    let d = expect_error("setq $x 5\nhlt");
    assert_eq!(d.code, ErrorCode::BadSize);
}

#[test]
fn a_meaningless_declaration_size_is_refused() {
    let d = expect_error("set12 $x 5\nhlt");
    assert_eq!(d.code, ErrorCode::BadSize);
}

#[test]
fn an_instruction_without_a_size_suffix_is_refused() {
    let d = expect_error("set8 $a 1\nmov $a $a\nhlt");
    assert_eq!(d.code, ErrorCode::BadSize);
    assert_eq!(d.line, b"mov $a $a".to_vec());
}

#[test]
fn an_unparseable_declaration_value_is_refused() {
    let d = expect_error("set8 $x five\nhlt");
    assert_eq!(d.code, ErrorCode::BadValue);
}

#[test]
fn an_undefined_tag_is_refused() {
    let d = expect_error("jmp8 #nowhere\nhlt");
    assert_eq!(d.code, ErrorCode::UnknownTag);
}

#[test]
fn an_undeclared_variable_is_refused() {
    let d = expect_error("puti8 $nowhere\nhlt");
    assert_eq!(d.code, ErrorCode::UnknownVariable);
}

#[test]
fn a_bare_argument_is_refused() {
    let d = expect_error("puti8 somewhere\nhlt");
    assert_eq!(d.code, ErrorCode::BadArgument);
}

#[test]
fn a_wrong_argument_count_is_refused() {
    let d = expect_error("set8 $a 1\nmov8 $a\nhlt");
    assert_eq!(d.code, ErrorCode::ArityMismatch);
}

#[test]
fn arguments_to_hlt_are_refused() {
    let d = expect_error("set8 $a 1\nhlt $a");
    assert_eq!(d.code, ErrorCode::ArityMismatch);
}

#[test]
fn an_unknown_mnemonic_is_refused() {
    let d = expect_error("set8 $a 1\nbogus8 $a\nhlt");
    assert_eq!(d.code, ErrorCode::UnknownMnemonic);
}

#[test]
fn a_duplicate_declaration_is_refused() {
    let d = expect_error("set8 $a 1\nset8 $a 2\nhlt");
    assert_eq!(d.code, ErrorCode::DuplicateVariable);
    assert_eq!(d.line, b"set8 $a 2".to_vec());
}

#[test]
fn an_immediate_without_a_size_marker_is_refused() {
    let d = expect_error("putc8 !8\nhlt");
    assert_eq!(d.code, ErrorCode::ImmediateSyntax);
}

#[test]
fn an_immediate_with_a_bad_size_is_refused() {
    let d = expect_error("putc8 !q_5\nhlt");
    assert_eq!(d.code, ErrorCode::BadSize);
}

#[test]
fn an_immediate_with_a_bad_value_is_refused() {
    let d = expect_error("putc8 !8_x\nhlt");
    assert_eq!(d.code, ErrorCode::ImmediateValue);
}

#[test]
fn a_trailing_tag_binds_to_the_end_of_the_text_section() {
    let (ops, _vars) = preprocess_source_code(lines_of("jmp8 #end\n#end")).unwrap();
    assert_eq!(ops, vec![Operation::Jmp(8)]);
}

#[test]
fn an_immediate_with_an_unsupported_width_is_refused_at_its_declaration() {
    // The synthetic declaration the immediate lowers to carries the bad width.
    let d = expect_error("putc8 !12_5\nhlt");
    assert_eq!(d.code, ErrorCode::BadSize);
    assert_eq!(d.line, b"set12 $!12_5 5".to_vec());
}

#[test]
fn the_first_error_in_line_order_wins() {
    let d = expect_error("set8 x 5\nbogus8 $a\nhlt");
    assert_eq!(d.code, ErrorCode::MissingDollar);
    assert_eq!(d.line, b"set8 x 5".to_vec());
}
