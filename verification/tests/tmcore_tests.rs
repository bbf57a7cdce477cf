use tmtinker::advanced::AdvancedCommands;
use tmtinker::glyphs::SPACE;
use tmtinker::tmcore::{BasicCommands, TMCore};

fn fmt(tm: &TMCore, end: i32) -> String {
    tm.format_tape(0..=end, true, true)
}

// --- left

#[test]
fn test_left_1() {
    // default tape: " 01 ", head starts at 0
    // after left(1): head is at -1 (outside 0..=3)
    let mut tm = TMCore::default();
    tm.left(1);
    assert_eq!(tm.head_position(), -1);
    assert_eq!(tm.format_tape(-1..=3, true, true), "[ (λ), λ, 0, 1, λ >");
}

#[test]
fn test_left_from_index_4() {
    let mut tm = TMCore {
        head_position: 4,
        ..Default::default()
    };
    tm.left(1);
    assert_eq!(fmt(&tm, 3), "[ λ, 0, 1, (λ) >");
}

#[test]
fn test_left_3_from_index_4() {
    let mut tm = TMCore {
        head_position: 4,
        ..Default::default()
    };
    tm.left(3);
    assert_eq!(fmt(&tm, 3), "[ λ, (0), 1, λ >");
}

// --- right

#[test]
fn test_right_1() {
    let mut tm = TMCore::default();
    tm.right(1);
    assert_eq!(fmt(&tm, 3), "[ λ, (0), 1, λ >");
}

#[test]
fn test_right_3() {
    let mut tm = TMCore::default();
    tm.right(3);
    assert_eq!(fmt(&tm, 3), "[ λ, 0, 1, (λ) >");
}

#[test]
fn test_right_4() {
    let mut tm = TMCore::default();
    tm.right(4);
    assert_eq!(fmt(&tm, 4), "[ λ, 0, 1, λ, (λ) >");
}

// --- word_left

#[test]
fn test_word_left_from_end() {
    let mut tm = TMCore {
        head_position: 3,
        ..Default::default()
    };
    tm.word_left(1);
    assert_eq!(fmt(&tm, 3), "[ (λ), 0, 1, λ >");
}

#[test]
fn test_word_left_2_from_index_4() {
    let mut tm = TMCore {
        head_position: 4,
        ..Default::default()
    };
    tm.word_left(2);
    assert_eq!(fmt(&tm, 3), "[ (λ), 0, 1, λ >");
}

#[test]
fn test_word_left_mid_word() {
    let mut tm = TMCore {
        head_position: 2,
        ..Default::default()
    };
    tm.word_left(1);
    assert_eq!(fmt(&tm, 3), "[ (λ), 0, 1, λ >");
}

// --- word_right

#[test]
fn test_word_right_1() {
    let mut tm = TMCore::default();
    tm.word_right(1);
    assert_eq!(fmt(&tm, 3), "[ λ, 0, 1, (λ) >");
}

#[test]
fn test_word_right_2_from_minus_1() {
    let mut tm = TMCore {
        head_position: -1,
        ..Default::default()
    };
    tm.word_right(2);
    assert_eq!(fmt(&tm, 3), "[ λ, 0, 1, (λ) >");
}

// --- write

#[test]
fn test_write_1() {
    let mut tm = TMCore::default();
    tm.write('1');
    assert_eq!(fmt(&tm, 3), "[ (1), 0, 1, λ >");
}

#[test]
fn test_write_space() {
    let mut tm = TMCore::default();
    tm.right(2);
    tm.write(SPACE);
    assert_eq!(fmt(&tm, 3), "[ λ, 0, (λ), λ >");
}

// --- inverse_word

#[test]
fn test_inverse_word() {
    let mut tm = TMCore {
        head_position: 3,
        ..Default::default()
    };
    tm.inverse_word();
    assert_eq!(fmt(&tm, 3), "[ (λ), 1, 0, λ >");
}

// --- copy

#[test]
fn test_copy_single_word() {
    // tape: "  101  ", head at index 5 (first SPACE after 101)
    let mut tm = TMCore::with_tape("  101  ", 5, vec![SPACE, '0', '1']);
    tm.copy(1);
    let expected = "[ λ, λ, 1, 0, 1, λ, 1, 0, 1, (λ) >";
    assert_eq!(tm.format_tape(0..=9, true, true), expected);
}

#[test]
fn test_copy_two_words() {
    // tape: " 10 01 ", head at index 6 (SPACE after "01")
    let mut tm = TMCore::with_tape(" 10 01 ", 6, vec![SPACE, '1', '0']);
    tm.copy(2);
    assert_eq!(
        tm.format_tape(0..=13, true, true),
        "[ λ, 1, 0, λ, 0, 1, λ, 1, 0, λ, 0, 1, (λ), λ >"
    );
}
