use openstark::exchange::{
    reference_inputs, test_hasher_1, test_hasher_2, test_hasher_3, test_row, test_trace_table,
    Point, PublicInputs,
};
use openstark::field::FieldElement;
use openstark::trace_table::{get_trace_table, TraceTable};

fn f(n: u64) -> FieldElement {
    FieldElement::from_u64(n)
}

/// Inputs under which a trace of zeros satisfies the three hashers.
fn zero_points() -> PublicInputs {
    let origin = Point { x: f(0), y: f(0) };
    let mut inputs = reference_inputs();
    inputs.merkle_shift_point = origin;
    inputs.merkle_hash_points = origin;
    inputs.hash_pool_shift_point = origin;
    inputs.hash_pool_points = origin;
    inputs
}

#[test]
fn empty_trace_has_its_shape() {
    let table = get_trace_table();
    assert_eq!(table.num_rows(), 32768);
    assert_eq!(table.num_columns(), 10);
    assert_eq!(table.get(0, 0), f(0));
    assert_eq!(table.get(9, 32767), f(0));
    assert_eq!(table.cell(4, 32767, 1), f(0));
}

#[test]
fn table_cells_are_set_and_read_cyclically() {
    let mut table = TraceTable::new(8, 3);
    table.set(2, 7, f(5));
    table.set(0, 0, f(9));
    assert_eq!(table.get(2, 7), f(5));
    assert_eq!(table.get(1, 7), f(0));
    assert_eq!(table.get(2, 6), f(0));
    assert_eq!(table.cell(2, 7, 0), f(5));
    assert_eq!(table.cell(2, 5, 2), f(5));
    assert_eq!(table.cell(2, 7, 8), f(5));
    assert_eq!(table.cell(0, 7, 1), f(9));
    assert_eq!(table.cell(0, 6, 10), f(9));
    assert_eq!(table.cell(0, 15, usize::MAX - 14), f(9));
}

#[test]
fn starkware_inputs_consistent() {
    let table = get_trace_table();
    let inputs = reference_inputs();
    // the empty trace is no valid trace: the first row already fails
    assert_eq!(test_trace_table(&table, &inputs), Some(0));
    assert!(!test_row(&table, &inputs, 0));
    assert!(!test_hasher_1(&table, &inputs, 0));
}

#[test]
fn zero_trace_satisfies_the_hashers() {
    let table = TraceTable::new(4096, 10);
    let inputs = zero_points();
    for i in 0..4096 {
        assert!(test_hasher_1(&table, &inputs, i));
        assert!(test_hasher_2(&table, &inputs, i));
        assert!(test_hasher_3(&table, &inputs, i));
    }
}

#[test]
fn mutation_fails_at_the_predicted_rows() {
    let inputs = zero_points();
    // a one in column 0 at row 100 breaks the chord of the first hasher at
    // the rows that read it: 99 and 100
    let mut table = TraceTable::new(4096, 10);
    table.set(0, 100, f(1));
    let failing: Vec<usize> = (0..4096)
        .filter(|&i| !test_hasher_1(&table, &inputs, i))
        .collect();
    assert_eq!(failing, vec![99, 100]);
    for i in 0..4096 {
        assert!(test_hasher_2(&table, &inputs, i));
        assert!(test_hasher_3(&table, &inputs, i));
    }
    // a two in the bit column is no bit
    let mut table = TraceTable::new(4096, 10);
    table.set(7, 9, f(2));
    let failing: Vec<usize> = (0..4096)
        .filter(|&i| !test_hasher_2(&table, &inputs, i))
        .collect();
    assert_eq!(failing, vec![8, 9]);
    // the hash pool reads column 8 four rows to a step
    let mut table = TraceTable::new(4096, 10);
    table.set(8, 40, f(1));
    let failing: Vec<usize> = (0..4096)
        .filter(|&i| !test_hasher_3(&table, &inputs, i))
        .collect();
    assert_eq!(failing, vec![36, 40]);
}

#[test]
fn first_failing_row_is_reported() {
    let mut inputs = zero_points();
    inputs.column0_row_expr0 = inputs.initial_root;
    inputs.column4_row_expr0 = inputs.column0_row_expr2;
    inputs.prev_authentication_leaf_0 = f(0);
    inputs.sig_config.shift_point = Point { x: f(0), y: f(0) };
    let table = TraceTable::new(4096, 10);
    // row 0 needs column 9 to hold an inverse, which zero is not
    assert_eq!(test_trace_table(&table, &inputs), Some(0));
    assert!(!test_row(&table, &inputs, 0));
    // the rows that no such relation guards hold
    assert!(test_row(&table, &inputs, 1));
    assert!(test_row(&table, &inputs, 63));
    assert!(!test_row(&table, &inputs, 64));
}

#[test]
fn shift_points_are_read_at_the_start_of_a_hash() {
    let inputs = reference_inputs();
    let mut table = TraceTable::new(1024, 10);
    // with the shift point (1, 0) row 512 of the first hasher wants a one
    assert!(!test_hasher_1(&table, &inputs, 512));
    let mut inputs_zero = zero_points();
    inputs_zero.merkle_shift_point = Point { x: f(1), y: f(0) };
    assert!(!test_hasher_1(&table, &inputs_zero, 512));
    table.set(0, 512, f(1));
    // now the shift point is there, but the step from row 511 and the one
    // to row 513 no longer copy
    assert!(!test_hasher_1(&table, &inputs_zero, 512));
    assert!(test_hasher_1(&table, &inputs_zero, 300));
}
