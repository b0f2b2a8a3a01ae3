use logic_sim::blocks::{Component, MergeLayers};
use logic_sim::wiring::Wiring;

fn numbered(n: usize) -> Vec<Vec<bool>> {
    (0..n)
        .map(|hot| (0..n).map(|i| i == hot).collect())
        .collect()
}

fn table_of(w: &Wiring, n: usize, m: usize) -> Vec<usize> {
    let mut table = vec![usize::MAX; m];
    for (source, input) in numbered(n).iter().enumerate() {
        for (j, bit) in w.eval(input).iter().enumerate() {
            if *bit {
                table[j] = source;
            }
        }
    }
    table
}

#[test]
fn create_reads_the_table() {
    let w = Wiring::create(3, vec![2, 2, 0, 1, 0]);
    assert_eq!(w.input_width(), 3);
    assert_eq!(w.output_width(), 5);
    assert_eq!(w.eval(&[true, false, false]), [false, false, true, false, true]);
    assert_eq!(w.eval(&[false, false, true]), [true, true, false, false, false]);
}

#[test]
fn create_projects() {
    let w = Wiring::create(4, vec![3]);
    assert_eq!(w.eval(&[true, true, true, false]), [false]);
    let none = Wiring::create(4, vec![]);
    assert_eq!(none.eval(&[true, true, true, false]), Vec::<bool>::new());
}

#[test]
fn wrapper_is_an_identity_prefix() {
    assert_eq!(table_of(&Wiring::wrapper(4, 4), 4, 4), [0, 1, 2, 3]);
    assert_eq!(table_of(&Wiring::wrapper(4, 2), 4, 2), [0, 1]);
    assert_eq!(table_of(&Wiring::wrapper(2, 4), 2, 4), [0, 1, 0, 0]);
    assert_eq!(Wiring::wrapper(0, 0).eval(&[]), Vec::<bool>::new());
}

#[test]
fn unzip_separates_streams() {
    assert_eq!(table_of(&Wiring::unzip(6, 2), 6, 6), [0, 2, 4, 1, 3, 5]);
    assert_eq!(table_of(&Wiring::unzip(6, 3), 6, 6), [0, 3, 1, 4, 2, 5]);
    assert_eq!(table_of(&Wiring::unzip(4, 1), 4, 4), [0, 1, 2, 3]);
}

#[test]
fn zip_interleaves_streams() {
    assert_eq!(table_of(&Wiring::zip(6, 2), 6, 6), [0, 3, 1, 4, 2, 5]);
    assert_eq!(table_of(&Wiring::zip(6, 3), 6, 6), [0, 2, 4, 1, 3, 5]);
    assert_eq!(
        table_of(&Wiring::zip(16, 2), 16, 16),
        [0, 8, 1, 9, 2, 10, 3, 11, 4, 12, 5, 13, 6, 14, 7, 15]
    );
}

#[test]
fn zip_with_chunk_interleaves_halves() {
    assert_eq!(
        table_of(&Wiring::zip_with_chunk(8, 2), 8, 8),
        [0, 1, 4, 5, 2, 3, 6, 7]
    );
    assert_eq!(table_of(&Wiring::zip_with_chunk(4, 1), 4, 4), [0, 2, 1, 3]);
    assert_eq!(table_of(&Wiring::zip_with_chunk(5, 1), 5, 5), [0, 2, 1, 3, 2]);
}

#[test]
fn rotate_right_moves_every_bit_up() {
    assert_eq!(table_of(&Wiring::rotate_right(5, 1), 5, 5), [4, 0, 1, 2, 3]);
    assert_eq!(table_of(&Wiring::rotate_right(5, 3), 5, 5), [2, 3, 4, 0, 1]);
    assert_eq!(table_of(&Wiring::rotate_right(5, 0), 5, 5), [0, 1, 2, 3, 4]);
    assert_eq!(table_of(&Wiring::rotate_right(5, 5), 5, 5), [0, 1, 2, 3, 4]);
    assert_eq!(
        Wiring::rotate_right(4, 1).eval(&[true, false, false, false]),
        [false, true, false, false]
    );
}

#[test]
fn reverse_turns_the_bus_around() {
    assert_eq!(table_of(&Wiring::reverse(4), 4, 4), [3, 2, 1, 0]);
    assert_eq!(Wiring::reverse(0).eval(&[]), Vec::<bool>::new());
    assert_eq!(Wiring::reverse(3).eval(&[true, true, false]), [false, true, true]);
}

fn after_both(first: Wiring, second: Wiring, input: &[bool]) -> Vec<bool> {
    MergeLayers::create(first.into_block(), second.into_block()).eval(input)
}

#[test]
fn zip_and_unzip_undo_each_other() {
    for (n, s) in [(6, 2), (6, 3), (12, 4), (8, 8), (8, 1)] {
        for input in numbered(n) {
            assert_eq!(after_both(Wiring::zip(n, s), Wiring::unzip(n, s), &input), input);
            assert_eq!(after_both(Wiring::unzip(n, s), Wiring::zip(n, s), &input), input);
        }
    }
}

#[test]
fn reverse_undoes_itself() {
    for n in [1, 2, 7] {
        for input in numbered(n) {
            assert_eq!(after_both(Wiring::reverse(n), Wiring::reverse(n), &input), input);
        }
    }
}

#[test]
fn rotations_by_k_and_by_n_minus_k_undo_each_other() {
    let n = 7;
    for k in 0..=n {
        for input in numbered(n) {
            assert_eq!(
                after_both(Wiring::rotate_right(n, k), Wiring::rotate_right(n, n - k), &input),
                input
            );
        }
    }
}

#[test]
fn wiring_has_no_state() {
    let mut w = Wiring::reverse(3);
    let pure = w.eval(&[true, false, false]);
    assert_eq!(w.eval_mut(&[true, false, false]), pure);
    assert_eq!(w.eval_mut(&[true, false, false]), pure);
}
