use openstark::exchange::{
    check_generator_exponentiation, check_hash_pool, check_key_exponentiation, check_signature,
    reference_inputs, test_hasher_1, test_hasher_3, test_row, test_trace_table, Point,
    PublicInputs,
};
use openstark::field::FieldElement;
use openstark::trace_table::{get_trace_table, TraceTable};

fn f(n: i64) -> FieldElement {
    FieldElement::from_i64(n)
}

fn inverse(a: &FieldElement) -> FieldElement {
    a.inv().unwrap()
}

/// The values that a valid trace is made of.
///
/// The public key is the point `(x, y)` that doubling leaves where it is but
/// for the sign of `y`; its slope is a cube root of three, up to sign. The
/// running sum of the key and the running sum of the generator both come
/// back after two steps.
struct Values {
    x: FieldElement,
    y: FieldElement,
    slope: FieldElement,
    chord: FieldElement,
    sum_x: [FieldElement; 2],
    sum_y: [FieldElement; 2],
    sum_inverse: [FieldElement; 2],
    generator_slope: FieldElement,
    generator_x: FieldElement,
    point_x: FieldElement,
}

fn values() -> Values {
    // a cube root of three
    let rho = FieldElement::from_limbs([
        0x9369_7af9_1ccb_d8af,
        0x2856_170b_30d6_54f5,
        0x0b58_12ef_9927_b316,
        0x0380_7dbc_7100_90a5,
    ])
    .unwrap();
    assert_eq!(rho.pow(3), f(3));
    let x = inverse(&rho);
    // a root of 2 g^3 + (3 x - 5) g + 3
    let g = FieldElement::from_limbs([
        0xb98f_8290_418f_37ea,
        0xc784_5bd4_9615_f106,
        0xc75e_bbe7_e4b2_a537,
        0x00a1_50c7_47a6_8be6,
    ])
    .unwrap();
    assert_eq!(
        f(2).mul(&g.pow(3))
            .add(&f(3).mul(&x).sub(&f(5)).mul(&g))
            .add(&f(3)),
        f(0)
    );
    let chord = f(1);
    let u = g.square().sub(&f(1)).div(&f(3)).unwrap();
    let other_x = chord.square().sub(&u).sub(&x);
    let y = g.neg().sub(&u.sub(&x));
    let sum_y = y.add(&chord.mul(&u.sub(&x)));
    let other_y = y.neg().sub(&chord.mul(&other_x.sub(&x)));
    Values {
        x,
        y,
        slope: rho,
        chord,
        sum_x: [u, other_x],
        sum_y: [sum_y, other_y],
        sum_inverse: [inverse(&u.sub(&x)), inverse(&other_x.sub(&x))],
        generator_slope: g,
        generator_x: u,
        point_x: u.add(&f(1)),
    }
}

fn inputs(v: &Values) -> PublicInputs {
    let origin = Point { x: f(0), y: f(0) };
    let mut inputs = reference_inputs();
    inputs.merkle_shift_point = origin;
    inputs.merkle_hash_points = origin;
    inputs.hash_pool_shift_point = origin;
    inputs.hash_pool_points = origin;
    inputs.prev_authentication_leaf_0 = f(0);
    inputs.column0_row_expr0 = inputs.initial_root;
    inputs.trace_length = 32768;
    // the curve through the key: y^2 = x^3 + alpha x + beta
    let alpha = f(-2)
        .mul(&v.y)
        .mul(&v.slope)
        .sub(&f(3).mul(&v.x.square()));
    let beta = v.y.square().sub(&v.x.pow(3)).sub(&alpha.mul(&v.x));
    inputs.sig_config.alpha = alpha;
    inputs.sig_config.beta = beta;
    inputs.sig_config.shift_point = Point {
        x: v.sum_x[0],
        y: v.sum_y[0],
    };
    inputs.ecdsa_points = Point {
        x: v.point_x,
        y: f(0),
    };
    inputs
}

fn trace(v: &Values) -> TraceTable {
    let mut table = get_trace_table();
    let rows = table.num_rows();
    let minus_chord = v.chord.neg();
    for row in 0..rows {
        // the key and its running sum, 64 rows to a step
        let odd = (row / 64) % 2;
        let cell = match row % 64 {
            0 => Some(v.x),
            8 => Some(v.sum_y[odd]),
            16 => Some(if odd == 1 { v.slope } else { v.slope.neg() }),
            32 => Some(if odd == 1 { v.y.neg() } else { v.y }),
            40 => Some(if odd == 1 { minus_chord } else { v.chord }),
            48 => Some(v.sum_x[odd]),
            56 => Some(v.sum_inverse[odd]),
            _ => None,
        };
        if let Some(cell) = cell {
            table.set(9, row, cell);
        }
        // the running sum of the generator, 128 rows to a step
        let odd = (row / 128) % 2;
        let cell = match row % 128 {
            36 => Some(if odd == 1 { v.sum_y[0].neg() } else { v.sum_y[0] }),
            68 => Some(v.generator_x),
            84 => Some(minus_chord),
            100 => Some(if odd == 1 {
                v.generator_slope.neg()
            } else {
                v.generator_slope
            }),
            _ => None,
        };
        if let Some(cell) = cell {
            table.set(9, row, cell);
        }
    }
    // the signature
    table.set(9, 24, v.x);
    table.set(9, 16408, v.x);
    table.set(9, 20, f(1));
    table.set(8, 11261, f(1));
    table.set(8, 3069, minus_chord);
    table.set(8, 19453, inverse(&v.sum_x[1].sub(&v.sum_x[0])));
    table.set(8, 27645, v.x.square());
    // four empty vaults
    for k in 0..4 {
        table.set(8, 1021 + 8192 * k, f(1));
    }
    table
}

#[test]
fn valid_trace_satisfies_every_relation() {
    let v = values();
    let inputs = inputs(&v);
    let table = trace(&v);
    assert!(check_key_exponentiation(&table, &inputs, 0));
    assert!(check_key_exponentiation(&table, &inputs, 64));
    assert!(check_generator_exponentiation(&table, &inputs, 0));
    assert!(check_generator_exponentiation(&table, &inputs, 128));
    assert!(check_hash_pool(&table, &inputs, 0));
    assert!(check_hash_pool(&table, &inputs, 16384));
    assert!(check_signature(&table, &inputs, 0));
    assert!(test_row(&table, &inputs, 0));
    assert_eq!(test_trace_table(&table, &inputs), None);
}

#[test]
fn mutated_trace_fails_at_the_first_row_that_reads_the_cell() {
    let v = values();
    let inputs = inputs(&v);
    let table = trace(&v);
    // each cell with the first row whose relations read it
    let cells = [
        (0, 100, 99),
        (3, 5, 4),
        (6, 1278, 1278),
        (7, 9, 8),
        (8, 40, 36),
        (8, 1021, 0),
        (8, 27645, 0),
        (9, 0, 0),
        (9, 20, 0),
        (9, 64, 0),
        (9, 128 + 100, 128),
        (9, 4 + 256, 128),
        (9, 16408, 16384),
        (9, 16088, 16064),
        (9, 32767 - 7, 32704),
    ];
    let mut found = Vec::new();
    for &(column, row, _) in &cells {
        let mut changed = trace(&v);
        changed.set(column, row, table.get(column, row).add(&f(1)));
        found.push((column, row, test_trace_table(&changed, &inputs)));
    }
    let expected: Vec<(usize, usize, Option<usize>)> = cells
        .iter()
        .map(|&(column, row, failing)| (column, row, Some(failing)))
        .collect();
    assert_eq!(found, expected);
    // a relation that fails is told apart from the others
    let mut changed = trace(&v);
    changed.set(0, 100, f(1));
    assert!(!test_hasher_1(&changed, &inputs, 99));
    assert!(test_hasher_3(&changed, &inputs, 99));
    // no relation reads the second row of the last column, and a bit may
    // as well be one where the step then copies
    let mut changed = trace(&v);
    changed.set(9, 1, f(1));
    assert_eq!(test_trace_table(&changed, &inputs), None);
    let mut changed = trace(&v);
    changed.set(3, 0, f(1));
    assert_eq!(test_trace_table(&changed, &inputs), None);
    // the side bit selects between two cells that are the same here
    let mut changed = trace(&v);
    changed.set(6, 1279, f(1));
    assert_eq!(test_trace_table(&changed, &inputs), None);
}
