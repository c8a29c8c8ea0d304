use lib::isa::{instruction_length, is_branch, is_terminator};

#[test]
fn test_instruction_length() {
    assert_eq!(instruction_length(0), 1); // trap
    assert_eq!(instruction_length(51), 9); // load_imm
    assert_eq!(instruction_length(181), 5); // branch
}

#[test]
fn test_is_terminator() {
    assert!(is_terminator(0)); // trap
    assert!(is_terminator(40)); // jump
    assert!(is_terminator(200)); // conditional branch
    assert!(!is_terminator(52)); // load
}

#[test]
fn test_is_branch() {
    assert!(is_branch(181));
    assert!(is_branch(200));
    assert!(is_branch(255));
    assert!(!is_branch(52));
}

#[test]
fn instruction_length_covers_every_encoding() {
    assert_eq!(instruction_length(39), 1);
    assert_eq!(instruction_length(50), 1);
    assert_eq!(instruction_length(70), 3);
    assert_eq!(instruction_length(73), 3);
    assert_eq!(instruction_length(80), 9);
    assert_eq!(instruction_length(100), 1);
    assert_eq!(instruction_length(120), 3);
    assert_eq!(instruction_length(131), 3);
    assert_eq!(instruction_length(179), 3);
    assert_eq!(instruction_length(180), 9);
    assert_eq!(instruction_length(255), 5);
    for op in 0..=255u8 {
        let len = instruction_length(op);
        assert!((1..=9).contains(&len));
    }
}

#[test]
fn terminators_and_branches() {
    assert!(is_terminator(1));
    assert!(is_terminator(50));
    assert!(is_terminator(180));
    assert!(!is_terminator(2));
    assert!(!is_terminator(41));
    assert!(!is_terminator(179));
    assert!(!is_branch(180));
    for op in 0..=255u8 {
        if is_branch(op) {
            assert!(is_terminator(op));
        }
    }
}
