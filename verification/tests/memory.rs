use noumisou::memory::{Memory, DEFAULT_MEM_SIZE};

#[test]
fn a_fresh_tape_is_zeroed() {
    let mut tape = Memory::with_size(4);
    for _ in 0..4 {
        assert_eq!(*tape.get(), 0);
        tape.right();
    }
}

#[test]
fn the_default_capacity_is_thirty_thousand() {
    assert_eq!(DEFAULT_MEM_SIZE, 30_000);
    let mut tape = Memory::new();
    *tape.get_mut() = 9;
    for _ in 0..DEFAULT_MEM_SIZE - 1 {
        tape.right();
        assert_eq!(*tape.get(), 0);
    }
    tape.right();
    assert_eq!(*tape.get(), 9);
}

#[test]
fn a_written_cell_keeps_its_value() {
    let mut tape = Memory::with_size(3);
    *tape.get_mut() = 7;
    tape.right();
    *tape.get_mut() = 8;
    assert_eq!(*tape.get(), 8);
    tape.left();
    assert_eq!(*tape.get(), 7);
}

#[test]
fn left_from_the_first_cell_goes_to_the_last() {
    let mut tape = Memory::with_size(3);
    tape.left();
    *tape.get_mut() = 5;
    tape.right();
    assert_eq!(*tape.get(), 0);
    tape.right();
    tape.right();
    assert_eq!(*tape.get(), 5);
}

#[test]
fn as_many_moves_left_as_cells_come_back() {
    let mut tape = Memory::with_size(6);
    *tape.get_mut() = 1;
    for _ in 0..6 {
        tape.left();
    }
    assert_eq!(*tape.get(), 1);
}

#[test]
fn right_from_the_last_cell_goes_to_the_first() {
    let mut tape = Memory::with_size(2);
    *tape.get_mut() = 3;
    tape.right();
    assert_eq!(*tape.get(), 0);
    tape.right();
    assert_eq!(*tape.get(), 3);
}

#[test]
fn a_tape_of_one_cell_stays_on_that_cell() {
    let mut tape = Memory::with_size(1);
    *tape.get_mut() = 4;
    tape.left();
    assert_eq!(*tape.get(), 4);
    tape.right();
    assert_eq!(*tape.get(), 4);
}

#[test]
fn a_cell_wraps_like_a_byte() {
    let mut tape = Memory::with_size(1);
    *tape.get_mut() = tape.get().wrapping_sub(1);
    assert_eq!(*tape.get(), 255);
    *tape.get_mut() = tape.get().wrapping_add(1);
    assert_eq!(*tape.get(), 0);
}

#[test]
fn reset_zeroes_the_tape_and_rewinds_the_pointer() {
    let mut tape = Memory::with_size(3);
    *tape.get_mut() = 1;
    tape.right();
    *tape.get_mut() = 2;
    tape.right();
    *tape.get_mut() = 3;
    tape.reset();
    for _ in 0..3 {
        assert_eq!(*tape.get(), 0);
        tape.right();
    }
    *tape.get_mut() = 4;
    tape.left();
    tape.reset();
    *tape.get_mut() = 5;
    tape.right();
    tape.right();
    tape.right();
    assert_eq!(*tape.get(), 5);
}
