use openstark::exchange::{
    check_amounts_in_range, check_chord_step, check_copy_step, check_decompositions_end,
    check_generator_exponentiation, check_hash_pool, check_key_exponentiation,
    check_merkle_update, check_modification, check_roots, check_settlement, check_signature,
    check_vault_flag, reference_inputs, Point,
};
use openstark::field::FieldElement;
use openstark::trace_table::{get_trace_table, TraceTable};

fn f(n: i64) -> FieldElement {
    FieldElement::from_i64(n)
}

/// The quotient `a / b` in the field.
fn q(a: i64, b: i64) -> FieldElement {
    f(a).div(&f(b)).unwrap()
}

fn fill(table: &mut TraceTable, cells: &[(usize, usize, FieldElement)]) {
    for &(column, row, value) in cells {
        table.set(column, row, value);
    }
}

/// Every cell of the list, changed, makes the check fail.
fn each_cell_matters(
    table: &TraceTable,
    cells: &[(usize, usize, FieldElement)],
    check: &dyn Fn(&TraceTable) -> bool,
) {
    assert!(check(table));
    for &(column, row, value) in cells {
        let mut changed = TraceTable::new(table.num_rows(), table.num_columns());
        fill(&mut changed, cells);
        changed.set(column, row, value.add(&f(1)));
        assert!(!check(&changed), "column {} row {}", column, row);
    }
}

#[test]
fn chord_and_copy_steps() {
    // (3, 5) plus (1, 1): the slope is 2, the sum is (0, 1)
    let point = Point { x: f(1), y: f(1) };
    let cells = [
        (0, 10, f(3)),
        (1, 10, f(5)),
        (2, 10, f(2)),
        (0, 11, f(0)),
        (1, 11, f(1)),
    ];
    let mut table = TraceTable::new(16, 10);
    fill(&mut table, &cells);
    assert!(check_chord_step(&table, 0, 1, 2, 10, &point));
    assert!(!check_chord_step(&table, 0, 1, 2, 11, &point));
    assert!(!check_copy_step(&table, 0, 1, 2, 10));
    each_cell_matters(&table, &cells, &|t| check_chord_step(t, 0, 1, 2, 10, &point));
    // a step that copies (3, 5)
    let cells = [(4, 7, f(3)), (5, 7, f(5)), (4, 8, f(3)), (5, 8, f(5))];
    let mut table = TraceTable::new(16, 10);
    fill(&mut table, &cells);
    assert!(check_copy_step(&table, 4, 5, 6, 7));
    each_cell_matters(&table, &cells, &|t| check_copy_step(t, 4, 5, 6, 7));
    table.set(6, 7, f(1));
    assert!(!check_copy_step(&table, 4, 5, 6, 7));
}

#[test]
fn merkle_update_wants_a_bit_and_one_sibling() {
    let mut inputs = reference_inputs();
    assert!(check_merkle_update(&inputs, 0));
    inputs.side_bit_0 = f(1);
    assert!(check_merkle_update(&inputs, 512));
    inputs.side_bit_0 = f(2);
    assert!(!check_merkle_update(&inputs, 512));
    // the rows that the guard leaves out
    assert!(check_merkle_update(&inputs, 15872));
    assert!(check_merkle_update(&inputs, 15872 + 16384));
    assert!(check_merkle_update(&inputs, 513));
    inputs.side_bit_0 = f(0);
    inputs.new_authentication_sibling_0 = f(1);
    assert!(!check_merkle_update(&inputs, 1024));
}

#[test]
fn hash_pool_links_leaves_and_vault() {
    let mut inputs = reference_inputs();
    inputs.prev_authentication_leaf_0 = f(7);
    inputs.new_authentication_leaf_0 = f(9);
    inputs.sig_config.shift_point = Point { x: f(19), y: f(23) };
    let cells = [
        (8, 4092, f(7)),
        (8, 12284, f(9)),
        (8, 9213, f(3)),
        (9, 16376, f(11)),
        (8, 8195, f(-22)),
        (9, 16360, f(13)),
        (8, 9219, f(-26)),
        (9, 8196, f(17)),
        (8, 11267, f(17)),
        (9, 48, f(19)),
        (9, 8, f(23)),
        (9, 24, f(2)),
        (9, 16336, q(1, 2)),
    ];
    let mut table = get_trace_table();
    fill(&mut table, &cells);
    // a full vault in the first half: the flag at 1021 is one
    table.set(8, 1021, f(1));
    assert!(check_hash_pool(&table, &inputs, 0));
    assert!(!check_hash_pool(&table, &inputs, 16384));
    assert!(check_hash_pool(&table, &inputs, 1));
    for &(column, row, value) in &cells {
        let mut changed = get_trace_table();
        fill(&mut changed, &cells);
        changed.set(8, 1021, f(1));
        changed.set(column, row, value.add(&f(1)));
        assert!(!check_hash_pool(&changed, &inputs, 0), "column {} row {}", column, row);
    }
    table.set(8, 3, f(1));
    assert!(!check_hash_pool(&table, &inputs, 0));
}

#[test]
fn decompositions_end_in_zero() {
    let mut inputs = reference_inputs();
    let mut table = get_trace_table();
    assert!(check_decompositions_end(&table, &inputs, 16064));
    table.set(9, 16064 + 24, f(1));
    assert!(!check_decompositions_end(&table, &inputs, 16064));
    assert!(check_decompositions_end(&table, &inputs, 16063));
    table.set(9, 16320 + 24, f(1));
    assert!(!check_decompositions_end(&table, &inputs, 16320));
    // a path of length 3 ends at row 1536
    table.set(6, 1536 + 255, f(1));
    assert!(check_decompositions_end(&table, &inputs, 1536));
    inputs.path_length = 3;
    assert!(!check_decompositions_end(&table, &inputs, 1536));
    assert!(check_decompositions_end(&table, &inputs, 1536 + 16384));
    table.set(6, 1536 + 16384 + 255, f(1));
    assert!(!check_decompositions_end(&table, &inputs, 1536 + 16384));
    assert!(check_decompositions_end(&table, &inputs, 1024));
    inputs.path_length = usize::MAX;
    assert!(check_decompositions_end(&table, &inputs, 1536));
}

#[test]
fn amounts_are_sums_of_bits() {
    let mut table = get_trace_table();
    assert!(check_amounts_in_range(&table, 0));
    table.set(9, 4, f(5));
    table.set(9, 132, f(2));
    assert!(check_amounts_in_range(&table, 0));
    table.set(9, 132, f(1));
    assert!(!check_amounts_in_range(&table, 0));
    assert!(check_amounts_in_range(&table, 1));
    // where the decomposition ends the amount is used up
    table.set(9, 8064 + 4, f(2));
    assert!(!check_amounts_in_range(&table, 8064));
    table.set(9, 8064 + 4, f(0));
    table.set(9, 8064 + 132, f(1));
    assert!(check_amounts_in_range(&table, 8064));
}

#[test]
fn key_exponentiation_adds_and_doubles() {
    let mut inputs = reference_inputs();
    inputs.sig_config.alpha = f(-27);
    // the key (3, 0) with slope 3 is doubled into itself; the sum (0, -3)
    // plus the key is (-2, 5), with chord slope 1
    let i = 64;
    let cells = [
        (9, i, f(3)),
        (9, i + 8, f(-3)),
        (9, i + 16, f(3)),
        (9, i + 40, f(1)),
        (9, i + 56, q(-1, 3)),
        (9, i + 64, f(3)),
        (9, i + 72, f(5)),
        (9, i + 112, f(-2)),
    ];
    let mut table = get_trace_table();
    fill(&mut table, &cells);
    assert!(check_key_exponentiation(&table, &inputs, i));
    assert!(!check_key_exponentiation(&table, &inputs, 0));
    assert!(check_key_exponentiation(&table, &inputs, i + 1));
    each_cell_matters(&table, &cells, &|t| check_key_exponentiation(t, &inputs, i));
    // with the bit at zero nothing is added: the sum is copied
    inputs.exponentiate_key_bit = f(0);
    assert!(!check_key_exponentiation(&table, &inputs, i));
    let cells = [
        (9, i, f(3)),
        (9, i + 8, f(7)),
        (9, i + 16, f(3)),
        (9, i + 48, f(5)),
        (9, i + 56, q(1, 2)),
        (9, i + 64, f(3)),
        (9, i + 72, f(7)),
        (9, i + 112, f(5)),
    ];
    let mut table = get_trace_table();
    fill(&mut table, &cells);
    assert!(check_key_exponentiation(&table, &inputs, i));
    each_cell_matters(&table, &cells, &|t| check_key_exponentiation(t, &inputs, i));
    inputs.exponentiate_key_bit = f(2);
    assert!(!check_key_exponentiation(&table, &inputs, i));
}

#[test]
fn generator_exponentiation_adds_or_copies() {
    let mut inputs = reference_inputs();
    inputs.ecdsa_points = Point { x: f(1), y: f(2) };
    // (3, 6) plus (1, 2): the slope is 2, the sum is (0, 0)
    let i = 128;
    let cells = [
        (9, i + 36, f(6)),
        (9, i + 68, f(3)),
        (9, i + 84, q(1, 2)),
        (9, i + 100, f(2)),
    ];
    let mut table = get_trace_table();
    fill(&mut table, &cells);
    assert!(check_generator_exponentiation(&table, &inputs, i));
    assert!(!check_generator_exponentiation(&table, &inputs, 0));
    assert!(check_generator_exponentiation(&table, &inputs, i + 64));
    each_cell_matters(&table, &cells, &|t| check_generator_exponentiation(t, &inputs, i));
    table.set(9, i + 196, f(1));
    assert!(!check_generator_exponentiation(&table, &inputs, i));
    // with the bit at zero the point is copied
    inputs.exponentiate_generator_bit = f(0);
    let cells = [
        (9, i + 36, f(6)),
        (9, i + 68, f(3)),
        (9, i + 84, q(1, 2)),
        (9, i + 164, f(6)),
        (9, i + 196, f(3)),
    ];
    let mut table = get_trace_table();
    fill(&mut table, &cells);
    assert!(check_generator_exponentiation(&table, &inputs, i));
    each_cell_matters(&table, &cells, &|t| check_generator_exponentiation(t, &inputs, i));
    table.set(9, i + 100, f(1));
    assert!(!check_generator_exponentiation(&table, &inputs, i));
}

#[test]
fn signature_relations() {
    let mut inputs = reference_inputs();
    inputs.sig_config.shift_point = Point { x: f(0), y: f(1) };
    inputs.sig_config.alpha = f(1);
    inputs.sig_config.beta = f(-1);
    let cells = [
        (9, 36, f(1)),
        (9, 32676, f(9)),
        (9, 16328, f(1)),
        (9, 32724, f(2)),
        (9, 32708, f(5)),
        (9, 16368, f(1)),
        (9, 16384, f(-2)),
        (9, 16416, f(5)),
        (9, 32740, q(1, 4)),
        (9, 32712, f(5)),
        (8, 3069, f(2)),
        (9, 32752, f(3)),
        (9, 24, f(1)),
        (8, 19453, q(1, 3)),
        (9, 20, f(2)),
        (8, 11261, q(1, 2)),
        (8, 27645, f(4)),
        (9, 0, f(2)),
        (9, 32, f(3)),
    ];
    let mut table = get_trace_table();
    fill(&mut table, &cells);
    assert!(check_signature(&table, &inputs, 0));
    assert!(check_signature(&table, &inputs, 1));
    for &(column, row, value) in &cells {
        let mut changed = get_trace_table();
        fill(&mut changed, &cells);
        changed.set(column, row, value.add(&f(1)));
        assert!(!check_signature(&changed, &inputs, 0), "column {} row {}", column, row);
    }
    table.set(9, 68, f(1));
    assert!(!check_signature(&table, &inputs, 0));
    // the exponent is used up at the end of its decomposition
    let mut table = get_trace_table();
    assert!(check_signature(&table, &inputs, 32128));
    assert!(check_signature(&table, &inputs, 32640));
    table.set(9, 32128 + 20, f(1));
    assert!(!check_signature(&table, &inputs, 32128));
    assert!(check_signature(&table, &inputs, 32640));
    table.set(9, 32640 + 20, f(1));
    assert!(!check_signature(&table, &inputs, 32640));
}

#[test]
fn settlement_relations() {
    let mut inputs = reference_inputs();
    inputs.vault_shift = f(2);
    inputs.amount_shift = f(3);
    inputs.trade_shift = f(5);
    let cells = [
        (6, 255, f(1)),
        (6, 49407, f(4)),
        (9, 4, f(7)),
        (9, 32772, f(6)),
        (8, 7171, f(405)),
        (8, 3075, f(10)),
        (8, 11267, f(3)),
        (8, 27651, f(9)),
        (8, 19459, f(2)),
        (8, 35843, f(8)),
        (8, 44035, f(2)),
        (8, 60419, f(7)),
        (8, 52227, f(1)),
        (8, 36867, f(11)),
        (8, 8188, f(11)),
        (9, 20, f(11)),
        (8, 37891, f(12)),
        (6, 16639, f(12)),
        (8, 39939, f(13)),
        (6, 33023, f(13)),
        (8, 40956, f(14)),
        (9, 32788, f(14)),
        (8, 4099, f(15)),
        (9, 16360, f(15)),
        (9, 32744, f(15)),
        (8, 5123, f(16)),
        (9, 65512, f(16)),
        (9, 49128, f(16)),
        (9, 0, f(17)),
        (9, 16376, f(17)),
        (9, 65528, f(17)),
        (9, 32768, f(18)),
        (9, 32760, f(18)),
        (9, 49144, f(18)),
    ];
    let mut table = TraceTable::new(65536, 10);
    fill(&mut table, &cells);
    // no settlement, no relation
    let mut empty = TraceTable::new(65536, 10);
    empty.set(8, 7171, f(1));
    assert!(check_settlement(&empty, &inputs, 0));
    inputs.is_settlement = f(1);
    assert!(!check_settlement(&empty, &inputs, 0));
    assert!(check_settlement(&empty, &inputs, 1));
    assert!(check_settlement(&table, &inputs, 0));
    for &(column, row, value) in &cells {
        let mut changed = TraceTable::new(65536, 10);
        fill(&mut changed, &cells);
        changed.set(column, row, value.add(&f(1)));
        assert!(!check_settlement(&changed, &inputs, 0), "column {} row {}", column, row);
    }
}

#[test]
fn modification_relations() {
    let mut inputs = reference_inputs();
    inputs.boundary_base = f(2);
    inputs.boundary_key = f(6);
    inputs.boundary_token = f(8);
    inputs.boundary_amount0 = f(10);
    inputs.boundary_amount1 = f(12);
    inputs.boundary_vault_id = f(14);
    let cells = [
        (9, 16376, f(3)),
        (9, 16360, f(4)),
        (8, 3075, f(5)),
        (8, 11267, f(6)),
        (6, 255, f(7)),
    ];
    let mut table = TraceTable::new(65536, 10);
    fill(&mut table, &cells);
    let empty = TraceTable::new(65536, 10);
    assert!(check_modification(&empty, &inputs, 0));
    inputs.is_modification = f(1);
    assert!(!check_modification(&empty, &inputs, 0));
    assert!(check_modification(&empty, &inputs, 65535));
    assert!(check_modification(&table, &inputs, 0));
    each_cell_matters(&table, &cells, &|t| check_modification(t, &inputs, 0));
    inputs.column4_row_expr0 = f(5);
    assert!(!check_modification(&table, &inputs, 0));
}

#[test]
fn vault_flag_is_exclusive() {
    let i = 8192;
    // an empty vault: the flag is one and there is no amount
    let mut table = get_trace_table();
    table.set(8, i + 1021, f(1));
    assert!(check_vault_flag(&table, i));
    table.set(8, i + 3075, f(4));
    assert!(!check_vault_flag(&table, i));
    // a full vault: the flag is zero and the amount has an inverse
    let cells = [(8, i + 3075, f(4)), (8, i + 5117, q(1, 4))];
    let mut table = get_trace_table();
    fill(&mut table, &cells);
    assert!(check_vault_flag(&table, i));
    each_cell_matters(&table, &cells, &|t| check_vault_flag(t, i));
    table.set(8, i + 1021, f(2));
    assert!(!check_vault_flag(&table, i));
    // neither flag nor amount
    assert!(!check_vault_flag(&get_trace_table(), i));
    assert!(check_vault_flag(&get_trace_table(), i + 1));
}

#[test]
fn roots_are_linked() {
    let mut inputs = reference_inputs();
    // minus one is not the initial root
    assert!(!check_roots(&inputs, 0));
    inputs.column0_row_expr0 = inputs.initial_root;
    assert!(check_roots(&inputs, 0));
    assert!(check_roots(&inputs, 16384));
    inputs.column0_row_expr2 = f(3);
    assert!(!check_roots(&inputs, 16384));
    assert!(check_roots(&inputs, 16385));
    // the last update of a trace is not linked to a next one
    inputs.trace_length = 65536;
    assert!(check_roots(&inputs, 49152));
    assert!(!check_roots(&inputs, 32768));
    // the final root is read where the last unit of the trace begins
    inputs.trace_length = 70000;
    assert!(!check_roots(&inputs, 4464));
    inputs.column4_row_expr1 = inputs.final_root;
    assert!(check_roots(&inputs, 4464));
}
