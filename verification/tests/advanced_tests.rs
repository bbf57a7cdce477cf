use tmtinker::advanced::AdvancedCommands;
use tmtinker::glyphs::SPACE;
use tmtinker::tmcore::{BasicCommands, TMCore};

fn machine(tape: &str, head: i32) -> TMCore {
    TMCore::with_tape(tape, head, vec![SPACE, '0', '1'])
}

#[test]
fn delete_word_left_erases_the_word() {
    let mut tm = machine(" 10 ", 3);
    tm.delete_word_left();
    assert_eq!(tm.head_position(), 0);
    assert_eq!(tm.format_tape(0..=3, true, true), "[ (λ), λ, λ, λ >");
}

#[test]
fn delete_word_right_erases_the_word() {
    let mut tm = machine(" 10 ", 0);
    tm.delete_word_right();
    assert_eq!(tm.head_position(), 3);
    assert_eq!(tm.format_tape(0..=3, true, true), "[ λ, λ, λ, (λ) >");
}

#[test]
fn skip_sequence_left_skips_a_group_of_words() {
    let mut tm = machine(" 1 0 ", 4);
    tm.skip_sequence_left(1);
    assert_eq!(tm.format_tape(0..=4, true, true), "[ (λ), 1, λ, 0, λ >");
}

#[test]
fn skip_sequence_right_skips_a_group_of_words() {
    let mut tm = machine(" 1 0 ", 0);
    tm.skip_sequence_right(1);
    assert_eq!(tm.format_tape(0..=4, true, true), "[ λ, 1, λ, 0, (λ) >");
}

#[test]
fn shift_one_word_backwards_closes_the_gap() {
    let mut tm = machine(" 1  0 ", 5);
    tm.shift_one_word_backwards();
    assert_eq!(tm.format_tape(0..=5, true, true), "[ λ, 1, λ, 0, (λ), λ >");
}

#[test]
fn shift_keeps_the_order_of_a_longer_word() {
    let mut tm = machine(" 1   10 ", 7);
    tm.shift_one_word_backwards();
    assert_eq!(tm.format_tape(0..=7, true, true), "[ λ, 1, λ, 1, 0, (λ), λ, λ >");
}

#[test]
fn copy_nth_word_copies_the_second_word() {
    let mut tm = machine(" 1 0 1 ", 6);
    tm.copy_nth_word(2);
    assert_eq!(tm.format_tape(0..=8, true, true), "[ λ, 1, λ, 0, λ, 1, λ, 0, (λ) >");
}

#[test]
fn inverse_word_reverses_two_symbols() {
    let mut tm = machine(" 10 ", 3);
    tm.inverse_word();
    assert_eq!(tm.format_tape(0..=3, true, true), "[ (λ), 0, 1, λ >");
}

#[test]
fn word_moves_there_and_back() {
    let mut tm = machine(" 10 01 ", 6);
    tm.word_left(2);
    assert_eq!(tm.head_position(), 0);
    tm.word_right(2);
    assert_eq!(tm.head_position(), 6);
}
