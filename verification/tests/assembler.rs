use antics::formica::{parse, Address, AsmError, Instruction};

#[test]
fn assemble_loop_program() {
    // A label, two instructions, and a jump back to the label: three
    // instructions, with the jump resolved to address 0 (the ADVANCE).
    let program = parse("loop:\nADVANCE\nTURN_L\nJMP loop\n").unwrap();
    assert_eq!(program.len(), 3);
    assert_eq!(program[0], Instruction::Advance);
    assert_eq!(program[1], Instruction::TurnLeft);
    assert_eq!(program[2], Instruction::Jmp(Address::Absolute(0)));
}

#[test]
fn assemble_all_mnemonics() {
    let text = "start:\nTURN_L\nTURN_R\nADVANCE\nPICKUP\nDROP\nRELEASE_PH 5\nERASE_PH\nCHECK_FOOD\nCHECK_PH\nCHECK_NEST\nJMP start\nJZ start\nJNZ start\n";
    let program = parse(text).unwrap();
    assert_eq!(
        program,
        vec![
            Instruction::TurnLeft,
            Instruction::TurnRight,
            Instruction::Advance,
            Instruction::Pickup,
            Instruction::Drop,
            Instruction::ReleasePh(5),
            Instruction::ErasePh,
            Instruction::CheckFood,
            Instruction::CheckPh,
            Instruction::CheckNest,
            Instruction::Jmp(Address::Absolute(0)),
            Instruction::Jz(Address::Absolute(0)),
            Instruction::Jnz(Address::Absolute(0)),
        ]
    );
}

#[test]
fn label_address_counts_only_instruction_lines() {
    // Labels and blank lines occupy no instruction slot.
    let text = "ADVANCE\n\nmid:\nTURN_L\nend:\nJMP mid\nJZ end\n";
    let program = parse(text).unwrap();
    assert_eq!(program.len(), 4);
    // "mid" is bound to 1 (after one instruction), "end" to 2.
    assert_eq!(program[2], Instruction::Jmp(Address::Absolute(1)));
    assert_eq!(program[3], Instruction::Jz(Address::Absolute(2)));
}

#[test]
fn later_label_definition_shadows_earlier() {
    let text = "x:\nADVANCE\nx:\nTURN_L\nJMP x\n";
    let program = parse(text).unwrap();
    assert_eq!(program[2], Instruction::Jmp(Address::Absolute(1)));
}

#[test]
fn leading_and_trailing_whitespace_is_trimmed() {
    let program = parse("  loop:  \n\tADVANCE \n  JMP loop\n").unwrap();
    assert_eq!(program.len(), 2);
    assert_eq!(program[0], Instruction::Advance);
    assert_eq!(program[1], Instruction::Jmp(Address::Absolute(0)));
}

#[test]
fn extra_tokens_after_operand_are_ignored() {
    let program = parse("ADVANCE onward\nRELEASE_PH 3 extra\n").unwrap();
    assert_eq!(program[0], Instruction::Advance);
    assert_eq!(program[1], Instruction::ReleasePh(3));
}

#[test]
fn unknown_mnemonic_fails() {
    assert_eq!(parse("FLY\n"), Err(AsmError::UnknownMnemonic));
    assert_eq!(parse("advance\n"), Err(AsmError::UnknownMnemonic));
}

#[test]
fn missing_operand_fails() {
    assert_eq!(parse("JMP\n"), Err(AsmError::MissingOperand));
    assert_eq!(parse("RELEASE_PH\n"), Err(AsmError::MissingOperand));
    assert_eq!(parse("JZ\n"), Err(AsmError::MissingOperand));
    assert_eq!(parse("JNZ\n"), Err(AsmError::MissingOperand));
}

#[test]
fn malformed_scent_operand_fails() {
    assert_eq!(parse("RELEASE_PH abc\n"), Err(AsmError::InvalidOperand));
    assert_eq!(parse("RELEASE_PH 256\n"), Err(AsmError::InvalidOperand));
    assert_eq!(parse("RELEASE_PH -1\n"), Err(AsmError::InvalidOperand));
}

#[test]
fn scent_operand_boundaries() {
    assert_eq!(
        parse("RELEASE_PH 0\nRELEASE_PH 255\nRELEASE_PH 007\n").unwrap(),
        vec![
            Instruction::ReleasePh(0),
            Instruction::ReleasePh(255),
            Instruction::ReleasePh(7),
        ]
    );
}

#[test]
fn undefined_label_fails() {
    assert_eq!(parse("JMP nowhere\n"), Err(AsmError::UndefinedLabel));
    assert_eq!(parse("x:\nJNZ y\n"), Err(AsmError::UndefinedLabel));
}

#[test]
fn first_error_in_line_order_wins() {
    // The unknown mnemonic on line 1 is hit before the undefined label.
    assert_eq!(parse("FLY\nJMP nowhere\n"), Err(AsmError::UnknownMnemonic));
}

#[test]
fn empty_and_blank_programs_assemble_to_nothing() {
    assert_eq!(parse("").unwrap(), vec![]);
    assert_eq!(parse("\n\n   \n").unwrap(), vec![]);
    assert_eq!(parse("only:\n").unwrap(), vec![]);
}

#[test]
fn final_line_without_newline_still_counts() {
    let program = parse("loop:\nJMP loop").unwrap();
    assert_eq!(program, vec![Instruction::Jmp(Address::Absolute(0))]);
}
