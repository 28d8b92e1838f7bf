//! The exchange circuit as relations between the cells of its trace.
//!
//! Each relation is guarded by a condition on the row index and ties a few
//! cells near that row together. The trace is valid at a row when every
//! relation whose guard holds there is satisfied; [`test_trace_table`] looks
//! for the first row where that fails.
//!
//! Columns 0 to 3 and 4 to 7 hold the two Merkle hashers, column 8 the hash
//! pool and column 9 the signature and range checks.

use crate::field::FieldElement;
use crate::modular::{add_mod, modulus, mul_mod, sub_mod};
use crate::trace_table::{TableView, TraceTable};
use vstd::prelude::*;

verus! {

/// A point on the curve, by its affine coordinates.
#[derive(Clone, Copy, Debug)]
pub struct Point {
    pub x: FieldElement,
    pub y: FieldElement,
}

/// The curve `y^2 = x^3 + alpha * x + beta` and the point that accumulators
/// start from.
#[derive(Clone, Copy, Debug)]
pub struct SigConfig {
    pub alpha: FieldElement,
    pub beta: FieldElement,
    pub shift_point: Point,
}

/// The values that the relations take from outside the trace: the public
/// input, the periodic columns (constant here) and the cells that are read
/// at shifts the trace itself does not fix.
#[derive(Clone, Copy, Debug)]
pub struct PublicInputs {
    pub merkle_shift_point: Point,
    pub merkle_hash_points: Point,
    pub hash_pool_shift_point: Point,
    pub hash_pool_points: Point,
    pub is_settlement: FieldElement,
    pub is_modification: FieldElement,
    pub side_bit_0: FieldElement,
    pub prev_authentication_leaf_0: FieldElement,
    pub prev_authentication_sibling_0: FieldElement,
    pub new_authentication_sibling_0: FieldElement,
    pub new_authentication_leaf_0: FieldElement,
    pub initial_root: FieldElement,
    pub final_root: FieldElement,
    pub sig_config: SigConfig,
    pub column4_row_expr0: FieldElement,
    pub column4_row_expr1: FieldElement,
    pub column0_row_expr2: FieldElement,
    pub column0_row_expr0: FieldElement,
    pub trace_length: usize,
    pub path_length: usize,
    pub exponentiate_key_bit: FieldElement,
    pub exponentiate_generator_bit: FieldElement,
    pub ecdsa_points: Point,
    pub vault_shift: FieldElement,
    pub trade_shift: FieldElement,
    pub amount_shift: FieldElement,
    pub boundary_vault_id: FieldElement,
    pub boundary_base: FieldElement,
    pub boundary_amount0: FieldElement,
    pub boundary_amount1: FieldElement,
    pub boundary_token: FieldElement,
    pub boundary_key: FieldElement,
}

/// The inputs of a trace that is still to be filled: no settlement and no
/// modification, every point at one or zero, and minus one for the cells that
/// the trace does not fix.
pub fn reference_inputs() -> (inputs: PublicInputs)
    ensures
        inputs.merkle_shift_point.x@ == 1 && inputs.merkle_shift_point.y@ == 0,
        inputs.merkle_hash_points.x@ == 1 && inputs.merkle_hash_points.y@ == 1,
        inputs.hash_pool_shift_point.x@ == 1 && inputs.hash_pool_shift_point.y@ == 1,
        inputs.hash_pool_points.x@ == 1 && inputs.hash_pool_points.y@ == 1,
        inputs.is_settlement@ == 0 && inputs.is_modification@ == 0,
        inputs.side_bit_0@ == 0,
        inputs.prev_authentication_leaf_0@ == 1 && inputs.new_authentication_leaf_0@ == 0,
        inputs.prev_authentication_sibling_0@ == 0 && inputs.new_authentication_sibling_0@ == 0,
        inputs.initial_root@ == 1 && inputs.final_root@ == 1,
        inputs.sig_config.alpha@ == 1 && inputs.sig_config.beta@ == 1,
        inputs.sig_config.shift_point.x@ == 1 && inputs.sig_config.shift_point.y@ == 1,
        inputs.column4_row_expr0@ == modulus() - 1 && inputs.column4_row_expr1@ == modulus() - 1,
        inputs.column0_row_expr2@ == modulus() - 1 && inputs.column0_row_expr0@ == modulus() - 1,
        inputs.trace_length == 0 && inputs.path_length == 256,
        inputs.exponentiate_key_bit@ == 1 && inputs.exponentiate_generator_bit@ == 1,
        inputs.ecdsa_points.x@ == 1 && inputs.ecdsa_points.y@ == 1,
        inputs.vault_shift@ == 1 && inputs.trade_shift@ == 0 && inputs.amount_shift@ == 0,
        inputs.boundary_vault_id@ == 1 && inputs.boundary_base@ == 1,
        inputs.boundary_amount0@ == 1 && inputs.boundary_amount1@ == 1,
        inputs.boundary_token@ == 1 && inputs.boundary_key@ == 1,
{
    let zero = FieldElement::zero();
    let one = FieldElement::one();
    let minus_one = FieldElement::negative_one();
    let ones = Point { x: one, y: one };
    PublicInputs {
        merkle_shift_point: Point { x: one, y: zero },
        merkle_hash_points: ones,
        hash_pool_shift_point: ones,
        hash_pool_points: ones,
        is_settlement: zero,
        is_modification: zero,
        side_bit_0: zero,
        prev_authentication_leaf_0: one,
        prev_authentication_sibling_0: zero,
        new_authentication_sibling_0: zero,
        new_authentication_leaf_0: zero,
        initial_root: one,
        final_root: one,
        sig_config: SigConfig { alpha: one, beta: one, shift_point: ones },
        column4_row_expr0: minus_one,
        column4_row_expr1: minus_one,
        column0_row_expr2: minus_one,
        column0_row_expr0: minus_one,
        trace_length: 0,
        path_length: 256,
        exponentiate_key_bit: one,
        exponentiate_generator_bit: one,
        ecdsa_points: ones,
        vault_shift: one,
        trade_shift: zero,
        amount_shift: zero,
        boundary_vault_id: one,
        boundary_base: one,
        boundary_amount0: one,
        boundary_amount1: one,
        boundary_token: one,
        boundary_key: one,
    }
}

/// Twice a residue.
pub open spec fn double_mod(a: nat) -> nat {
    add_mod(a, a)
}

/// The square of a residue.
pub open spec fn square_mod(a: nat) -> nat {
    mul_mod(a, a)
}

/// One step of a subset sum on the curve, read from three columns: `x`, `y`
/// and the slope. Where the step adds the point `q`, the slope is that of the
/// chord through the accumulator and `q`, and the next row holds their sum.
pub open spec fn chord_step(t: TableView, x: int, y: int, slope: int, i: int, q: Point) -> bool {
    &&& sub_mod(t.at(y, i), q.y@) == mul_mod(t.at(slope, i), sub_mod(t.at(x, i), q.x@))
    &&& square_mod(t.at(slope, i)) == add_mod(add_mod(t.at(x, i), q.x@), t.at(x, i + 1))
    &&& add_mod(t.at(y, i), t.at(y, i + 1)) == mul_mod(
        t.at(slope, i),
        sub_mod(t.at(x, i), t.at(x, i + 1)),
    )
}

/// A step that adds nothing: the accumulator is copied and the slope is zero.
pub open spec fn copy_step(t: TableView, x: int, y: int, slope: int, i: int) -> bool {
    &&& t.at(x, i) == t.at(x, i + 1)
    &&& t.at(y, i) == t.at(y, i + 1)
    &&& t.at(slope, i) == 0
}

/// The relations of the first Merkle hasher (columns 0 to 3) at row `i`.
pub open spec fn hasher_1_holds(t: TableView, p: PublicInputs, i: int) -> bool {
    let bit = sub_mod(t.at(3, i), double_mod(t.at(3, i + 1)));
    let side_bit_1 = sub_mod(t.at(6, i + 767), double_mod(t.at(6, i + 767 + 512)));
    &&& i % 256 != 255 ==> {
        &&& bit == 0 || bit == 1
        &&& bit == 0 ==> chord_step(t, 0, 1, 2, i, p.merkle_hash_points)
        &&& bit != 0 ==> copy_step(t, 0, 1, 2, i)
    }
    &&& i % 256 == 0 && i % 512 != 256 ==> {
        &&& t.at(0, i + 256) == t.at(0, i + 255)
        &&& t.at(1, i + 256) == t.at(1, i + 255)
    }
    &&& i % 512 == 0 ==> {
        &&& t.at(0, i) == p.merkle_shift_point.x@
        &&& t.at(1, i) == p.merkle_shift_point.y@
    }
    &&& i % 256 == 251 || i % 256 == 255 ==> t.at(3, i) == 0
    &&& i % 512 == 0 && i % 16384 != 15872 && i % 16384 != 15360 ==> {
        if side_bit_1 == 0 {
            t.at(0, i + 511) == t.at(3, i + 512)
        } else {
            t.at(0, i + 511) == t.at(3, i + 768)
        }
    }
}

/// The relations of the second Merkle hasher (columns 4 to 7) at row `i`.
pub open spec fn hasher_2_holds(t: TableView, p: PublicInputs, i: int) -> bool {
    let bit = sub_mod(t.at(7, i), double_mod(t.at(7, i + 1)));
    let side_bit_1 = sub_mod(t.at(6, i + 767), double_mod(t.at(6, i + 767 + 512)));
    &&& i % 256 != 255 ==> {
        &&& bit == 0 || bit == 1
        &&& bit == 0 ==> copy_step(t, 4, 5, 6, i)
        &&& bit != 0 ==> chord_step(t, 4, 5, 6, i, p.merkle_hash_points)
    }
    &&& i % 256 == 0 && i % 512 != 256 ==> {
        &&& t.at(4, i + 256) == t.at(4, i + 255)
        &&& t.at(5, i + 256) == t.at(5, i + 255)
    }
    &&& i % 512 == 0 ==> {
        &&& t.at(4, i) == p.merkle_shift_point.x@
        &&& t.at(5, i) == p.merkle_shift_point.y@
    }
    &&& i % 512 == 0 && (i / 512) % 32 != 31 && (i / 512) % 32 != 30 ==> {
        if side_bit_1 == 0 {
            t.at(4, i + 511) == t.at(7, i + 512)
        } else {
            t.at(4, i + 511) == t.at(7, i + 768)
        }
    }
    &&& i % 256 == 251 || i % 256 == 255 ==> t.at(7, i) == 0
}

/// The relations of the hash pool (column 8, four rows to a step) at row `i`.
pub open spec fn hasher_3_holds(t: TableView, p: PublicInputs, i: int) -> bool {
    let bit = sub_mod(t.at(8, i + 3), double_mod(t.at(8, i + 7)));
    &&& i % 4 == 0 && (i / 4) % 256 != 255 ==> {
        &&& bit == 0 || bit == 1
        &&& bit == 0 ==> {
            &&& t.at(8, i + 4) == t.at(8, i)
            &&& t.at(8, i + 6) == t.at(8, i + 2)
        }
        &&& bit != 0 ==> {
            &&& sub_mod(t.at(8, i + 2), p.hash_pool_points.y@) == mul_mod(
                t.at(8, i + 1),
                sub_mod(t.at(8, i), p.hash_pool_points.x@),
            )
            &&& square_mod(t.at(8, i + 1)) == add_mod(
                add_mod(t.at(8, i), p.hash_pool_points.x@),
                t.at(8, i + 4),
            )
            &&& add_mod(t.at(8, i + 2), t.at(8, i + 6)) == mul_mod(
                t.at(8, i + 1),
                sub_mod(t.at(8, i), t.at(8, i + 4)),
            )
        }
    }
    &&& i % 1024 == 0 && i % 2048 != 1024 ==> {
        &&& t.at(8, i + 1024) == t.at(8, i + 1020)
        &&& t.at(8, i + 1026) == t.at(8, i + 1022)
    }
    &&& i % 2048 == 0 ==> {
        &&& t.at(8, i) == p.hash_pool_shift_point.x@
        &&& t.at(8, i + 2) == p.hash_pool_shift_point.y@
    }
    &&& i % 4096 == 0 ==> t.at(8, i + 2044) == t.at(8, i + 2051)
    &&& i % 1024 == 1004 || i % 1024 == 1020 ==> t.at(8, i + 3) == 0
}

/// The side bit is a bit and both authentication paths share their sibling.
pub open spec fn merkle_update_holds(p: PublicInputs, i: int) -> bool {
    i % 512 == 0 && i % 16384 != 15872 ==> {
        &&& sub_mod(mul_mod(p.side_bit_0@, p.side_bit_0@), p.side_bit_0@) == 0
        &&& sub_mod(p.prev_authentication_sibling_0@, p.new_authentication_sibling_0@) == 0
    }
}

/// The leaves of both authentication paths come out of the hash pool, and
/// the pool's inputs are the vault's key, token and amounts.
pub open spec fn hash_pool_holds(t: TableView, p: PublicInputs, i: int) -> bool {
    i % 16384 == 0 ==> {
        &&& p.prev_authentication_leaf_0@ == t.at(8, i + 4092)
        &&& p.new_authentication_leaf_0@ == t.at(8, i + 12284)
        &&& sub_mod(mul_mod(sub_mod(1, t.at(8, i + 1021)), t.at(9, i + 16376)), t.at(8, i + 3))
            == 0
        &&& sub_mod(
            mul_mod(sub_mod(1, t.at(8, i + 1021)), t.at(9, i + 16360)),
            t.at(8, i + 1027),
        ) == 0
        &&& sub_mod(
            mul_mod(sub_mod(1, t.at(8, i + 9213)), t.at(9, i + 16376)),
            t.at(8, i + 8195),
        ) == 0
        &&& sub_mod(
            mul_mod(sub_mod(1, t.at(8, i + 9213)), t.at(9, i + 16360)),
            t.at(8, i + 9219),
        ) == 0
        &&& sub_mod(t.at(9, i + 8196), t.at(8, i + 11267)) == 0
        &&& t.at(9, i + 48) == p.sig_config.shift_point.x@
        &&& t.at(9, i + 8) == p.sig_config.shift_point.y@
        &&& sub_mod(mul_mod(t.at(9, i + 24), t.at(9, i + 16336)), 1) == 0
    }
}

/// The guard `i % 16384 == 16384 / 32 * path_length`, in integers.
pub open spec fn at_path_end(p: PublicInputs, i: int) -> bool {
    i % 16384 == 512 * p.path_length
}

/// The exponent of the key and the side bits are used up where their
/// decompositions end.
pub open spec fn decompositions_end(t: TableView, p: PublicInputs, i: int) -> bool {
    &&& i % 16384 == 16064 ==> t.at(9, i + 24) == 0
    &&& i % 16384 == 16320 ==> t.at(9, i + 24) == 0
    &&& at_path_end(p, i) ==> t.at(6, i + 255) == 0
}

/// The amounts are sums of bits: they lie in range.
pub open spec fn amounts_in_range(t: TableView, i: int) -> bool {
    let bit = sub_mod(t.at(9, i + 4), double_mod(t.at(9, i + 132)));
    &&& i % 128 == 0 && i % 8192 != 8064 ==> sub_mod(mul_mod(bit, bit), bit) == 0
    &&& i % 8192 == 8064 ==> t.at(9, i + 4) == 0
}

/// One step of raising the public key to the message's exponent: a
/// conditional addition of the doubled key, and the doubling itself.
pub open spec fn key_exponentiation_holds(t: TableView, p: PublicInputs, i: int) -> bool {
    let bit = p.exponentiate_key_bit@;
    let slope = t.at(9, i + 16);
    let x_squared = square_mod(t.at(9, i));
    i % 64 == 0 && (i % 64) * 256 != 16320 ==> {
        &&& bit == 0 || bit == 1
        &&& bit == 1 ==> sub_mod(t.at(9, i + 8), t.at(9, i + 32)) == mul_mod(
            t.at(9, i + 40),
            sub_mod(t.at(9, i + 48), t.at(9, i)),
        )
        &&& bit != 1 ==> {
            &&& t.at(9, i + 40) == 0
            &&& t.at(9, i + 112) == t.at(9, i + 48)
            &&& t.at(9, i + 72) == t.at(9, i + 8)
        }
        &&& sub_mod(
            square_mod(t.at(9, i + 40)),
            mul_mod(bit, add_mod(add_mod(t.at(9, i + 48), t.at(9, i)), t.at(9, i + 112))),
        ) == 0
        &&& sub_mod(
            mul_mod(bit, add_mod(t.at(9, i + 8), t.at(9, i + 72))),
            mul_mod(t.at(9, i + 40), sub_mod(t.at(9, i + 48), t.at(9, i + 112))),
        ) == 0
        &&& sub_mod(mul_mod(t.at(9, i + 56), sub_mod(t.at(9, i + 48), t.at(9, i))), 1) == 0
        &&& add_mod(add_mod(add_mod(x_squared, x_squared), x_squared), p.sig_config.alpha@)
            == mul_mod(add_mod(t.at(9, i + 32), t.at(9, i + 32)), slope)
        &&& t.at(9, i + 64) == sub_mod(sub_mod(square_mod(slope), t.at(9, i)), t.at(9, i))
        &&& t.at(9, i + 96) == sub_mod(
            mul_mod(slope, sub_mod(t.at(9, i), t.at(9, i + 64))),
            t.at(9, i + 32),
        )
    }
}

/// One step of raising the generator to the signature's exponent.
pub open spec fn generator_exponentiation_holds(t: TableView, p: PublicInputs, i: int) -> bool {
    let bit = p.exponentiate_generator_bit@;
    let bit_neg = sub_mod(1, bit);
    i % 128 == 0 && i % 32768 != 32768 ==> {
        &&& bit == 0 || bit == 1
        &&& sub_mod(
            mul_mod(bit, sub_mod(t.at(9, i + 36), p.ecdsa_points.y@)),
            mul_mod(t.at(9, i + 100), sub_mod(t.at(9, i + 68), p.ecdsa_points.x@)),
        ) == 0
        &&& sub_mod(
            mul_mod(t.at(9, i + 100), t.at(9, i + 100)),
            mul_mod(
                bit,
                add_mod(add_mod(t.at(9, i + 68), p.ecdsa_points.x@), t.at(9, i + 196)),
            ),
        ) == 0
        &&& sub_mod(
            mul_mod(bit, add_mod(t.at(9, i + 36), t.at(9, i + 164))),
            mul_mod(t.at(9, i + 100), sub_mod(t.at(9, i + 68), t.at(9, i + 196))),
        ) == 0
        &&& sub_mod(
            mul_mod(t.at(9, i + 84), sub_mod(t.at(9, i + 68), p.ecdsa_points.x@)),
            1,
        ) == 0
        &&& mul_mod(bit_neg, sub_mod(t.at(9, i + 196), t.at(9, i + 68))) == 0
        &&& mul_mod(bit_neg, sub_mod(t.at(9, i + 164), t.at(9, i + 36))) == 0
    }
}

/// The two powers are added, the sum's abscissa is the signature's `r`, and
/// the public key lies on the curve.
pub open spec fn signature_holds(t: TableView, p: PublicInputs, i: int) -> bool {
    let shift = p.sig_config.shift_point;
    &&& i % 32768 == 0 ==> {
        &&& t.at(9, i + 68) == shift.x@
        &&& t.at(9, i + 36) == shift.y@
        &&& sub_mod(
            sub_mod(t.at(9, i + 32676), t.at(9, i + 16328)),
            mul_mod(t.at(9, i + 32724), sub_mod(t.at(9, i + 32708), t.at(9, i + 16368))),
        ) == 0
        &&& square_mod(t.at(9, i + 32724)) == add_mod(
            add_mod(t.at(9, i + 32708), t.at(9, i + 16368)),
            t.at(9, i + 16384),
        )
        &&& sub_mod(
            add_mod(t.at(9, i + 32676), t.at(9, i + 16416)),
            mul_mod(t.at(9, i + 32724), sub_mod(t.at(9, i + 32708), t.at(9, i + 16384))),
        ) == 0
        &&& sub_mod(
            mul_mod(t.at(9, i + 32740), sub_mod(t.at(9, i + 32708), t.at(9, i + 16368))),
            1,
        ) == 0
        &&& sub_mod(
            add_mod(t.at(9, i + 32712), shift.y@),
            mul_mod(t.at(8, i + 3069), sub_mod(t.at(9, i + 32752), shift.x@)),
        ) == 0
        &&& sub_mod(
            mul_mod(t.at(8, i + 3069), t.at(8, i + 3069)),
            add_mod(add_mod(t.at(9, i + 32752), shift.x@), t.at(9, i + 24)),
        ) == 0
        &&& sub_mod(
            mul_mod(t.at(8, i + 19453), sub_mod(t.at(9, i + 32752), shift.x@)),
            1,
        ) == 0
        &&& sub_mod(mul_mod(t.at(9, i + 20), t.at(8, i + 11261)), 1) == 0
        &&& t.at(8, i + 27645) == square_mod(t.at(9, i))
        &&& square_mod(t.at(9, i + 32)) == add_mod(
            add_mod(
                mul_mod(t.at(9, i), t.at(8, i + 27645)),
                mul_mod(p.sig_config.alpha@, t.at(9, i)),
            ),
            p.sig_config.beta@,
        )
    }
    &&& i % 32768 == 32128 ==> t.at(9, i + 20) == 0
    &&& i % 32768 == 32640 ==> t.at(9, i + 20) == 0
}

/// The packed message of a settlement and the links between its two
/// parties' vaults, amounts and keys.
pub open spec fn settlement_holds(t: TableView, p: PublicInputs, i: int) -> bool {
    i % 65536 == 0 && p.is_settlement@ == 1 ==> {
        &&& sub_mod(
            t.at(8, i + 7171),
            mul_mod(
                add_mod(
                    mul_mod(
                        add_mod(
                            mul_mod(
                                add_mod(
                                    mul_mod(t.at(6, i + 255), p.vault_shift@),
                                    t.at(6, i + 49407),
                                ),
                                p.amount_shift@,
                            ),
                            t.at(9, i + 4),
                        ),
                        p.amount_shift@,
                    ),
                    t.at(9, i + 32772),
                ),
                p.trade_shift@,
            ),
        ) == 0
        &&& sub_mod(
            sub_mod(t.at(8, i + 3075), t.at(8, i + 11267)),
            sub_mod(t.at(8, i + 27651), t.at(8, i + 19459)),
        ) == 0
        &&& sub_mod(
            sub_mod(t.at(8, i + 35843), t.at(8, i + 44035)),
            sub_mod(t.at(8, i + 60419), t.at(8, i + 52227)),
        ) == 0
        &&& sub_mod(t.at(9, i + 4), sub_mod(t.at(8, i + 3075), t.at(8, i + 11267))) == 0
        &&& sub_mod(t.at(9, i + 32772), sub_mod(t.at(8, i + 35843), t.at(8, i + 44035))) == 0
        &&& t.at(8, i + 36867) == t.at(8, i + 8188)
        &&& t.at(8, i + 37891) == t.at(6, i + 16639)
        &&& t.at(8, i + 39939) == t.at(6, i + 33023)
        &&& t.at(8, i + 8188) == t.at(9, i + 20)
        &&& t.at(8, i + 40956) == t.at(9, i + 32788)
        &&& t.at(8, i + 4099) == t.at(9, i + 16360)
        &&& t.at(8, i + 4099) == t.at(9, i + 32744)
        &&& t.at(8, i + 5123) == t.at(9, i + 65512)
        &&& t.at(8, i + 5123) == t.at(9, i + 49128)
        &&& t.at(9, i) == t.at(9, i + 16376)
        &&& t.at(9, i) == t.at(9, i + 65528)
        &&& t.at(9, i + 32768) == t.at(9, i + 32760)
        &&& t.at(9, i + 32768) == t.at(9, i + 49144)
    }
}

/// A modification changes one vault, whose contents the boundary gives.
pub open spec fn modification_holds(t: TableView, p: PublicInputs, i: int) -> bool {
    i % 65536 == 0 && p.is_modification@ == 1 ==> {
        &&& p.column4_row_expr0@ == p.column4_row_expr1@
        &&& mul_mod(t.at(9, i + 16376), p.boundary_base@) == p.boundary_key@
        &&& mul_mod(t.at(9, i + 16360), p.boundary_base@) == p.boundary_token@
        &&& mul_mod(t.at(8, i + 3075), p.boundary_base@) == p.boundary_amount0@
        &&& mul_mod(t.at(8, i + 11267), p.boundary_base@) == p.boundary_amount1@
        &&& mul_mod(t.at(6, i + 255), p.boundary_base@) == p.boundary_vault_id@
    }
}

/// A vault is empty exactly when its flag says so.
pub open spec fn vault_flag_holds(t: TableView, i: int) -> bool {
    i % 8192 == 0 ==> {
        &&& mul_mod(t.at(8, i + 1021), sub_mod(1, t.at(8, i + 1021))) == 0
        &&& mul_mod(t.at(8, i + 1021), t.at(8, i + 3075)) == 0
        &&& mul_mod(t.at(8, i + 1021), t.at(8, i + 5117)) == 0
        &&& sub_mod(
            mul_mod(t.at(8, i + 3075), t.at(8, i + 5117)),
            sub_mod(1, t.at(8, i + 1021)),
        ) == 0
    }
}

/// The first root is the initial one, the last root the final one, and each
/// update starts from the root that the one before it ended with.
pub open spec fn roots_hold(p: PublicInputs, i: int) -> bool {
    &&& i == 0 ==> sub_mod(p.column0_row_expr0@, p.initial_root@) == 0
    &&& i == p.trace_length - 65536 ==> sub_mod(p.column4_row_expr1@, p.final_root@) == 0
    &&& i % 16384 == 0 && i != p.trace_length - 65536 + 49152 ==> sub_mod(
        p.column4_row_expr0@,
        p.column0_row_expr2@,
    ) == 0
}

/// Every relation of the circuit whose guard holds at row `i` is satisfied.
pub open spec fn row_holds(t: TableView, p: PublicInputs, i: int) -> bool {
    &&& hasher_1_holds(t, p, i)
    &&& hasher_2_holds(t, p, i)
    &&& hasher_3_holds(t, p, i)
    &&& merkle_update_holds(p, i)
    &&& hash_pool_holds(t, p, i)
    &&& decompositions_end(t, p, i)
    &&& amounts_in_range(t, i)
    &&& key_exponentiation_holds(t, p, i)
    &&& generator_exponentiation_holds(t, p, i)
    &&& signature_holds(t, p, i)
    &&& settlement_holds(t, p, i)
    &&& modification_holds(t, p, i)
    &&& vault_flag_holds(t, i)
    &&& roots_hold(p, i)
}

/// A table that the relations can be read from: ten columns and a row.
pub open spec fn readable(t: TableView) -> bool {
    t.num_columns >= 10 && t.num_rows > 0
}

/// Whether the step at row `i` adds the point `q` to the accumulator held in
/// the columns `x`, `y` and `slope`.
pub fn check_chord_step(
    t: &TraceTable,
    x: usize,
    y: usize,
    slope: usize,
    i: usize,
    q: &Point,
) -> (holds: bool)
    requires
        readable(t@),
        x < 10,
        y < 10,
        slope < 10,
    ensures
        holds == chord_step(t@, x as int, y as int, slope as int, i as int, *q),
{
    let x0 = t.cell(x, i, 0);
    let x1 = t.cell(x, i, 1);
    let y0 = t.cell(y, i, 0);
    let y1 = t.cell(y, i, 1);
    let s = t.cell(slope, i, 0);
    y0.sub(&q.y).equals(&s.mul(&x0.sub(&q.x))) && s.square().equals(&x0.add(&q.x).add(&x1))
        && y0.add(&y1).equals(&s.mul(&x0.sub(&x1)))
}

/// Whether the step at row `i` copies the accumulator held in the columns
/// `x`, `y` and `slope`.
pub fn check_copy_step(t: &TraceTable, x: usize, y: usize, slope: usize, i: usize) -> (holds: bool)
    requires
        readable(t@),
        x < 10,
        y < 10,
        slope < 10,
    ensures
        holds == copy_step(t@, x as int, y as int, slope as int, i as int),
{
    t.cell(x, i, 0).equals(&t.cell(x, i, 1)) && t.cell(y, i, 0).equals(&t.cell(y, i, 1))
        && t.cell(slope, i, 0).is_zero()
}

/// Whether the relations of the first Merkle hasher hold at row `i`.
pub fn test_hasher_1(trace_table: &TraceTable, inputs: &PublicInputs, i: usize) -> (holds: bool)
    requires
        readable(trace_table@),
    ensures
        holds == hasher_1_holds(trace_table@, *inputs, i as int),
{
    let t = trace_table;
    let source_bit = t.cell(3, i, 0).sub(&t.cell(3, i, 1).double());
    let side_bit_1 = t.cell(6, i, 767).sub(&t.cell(6, i, 767 + 512).double());
    let mut holds = true;
    if i % 256 != 255 {
        if source_bit.is_zero() {
            holds = holds && check_chord_step(t, 0, 1, 2, i, &inputs.merkle_hash_points);
        } else {
            holds = holds && source_bit.is_one() && check_copy_step(t, 0, 1, 2, i);
        }
    }
    if i % 256 == 0 && i % 512 != 256 {
        holds = holds && t.cell(0, i, 256).equals(&t.cell(0, i, 255)) && t.cell(1, i, 256).equals(
            &t.cell(1, i, 255),
        );
    }
    if i % 512 == 0 {
        holds = holds && t.cell(0, i, 0).equals(&inputs.merkle_shift_point.x) && t.cell(
            1,
            i,
            0,
        ).equals(&inputs.merkle_shift_point.y);
    }
    if i % 256 == 251 || i % 256 == 255 {
        holds = holds && t.cell(3, i, 0).is_zero();
    }
    if i % 512 == 0 && i % 16384 != 15872 && i % 16384 != 15360 {
        if side_bit_1.is_zero() {
            holds = holds && t.cell(0, i, 511).equals(&t.cell(3, i, 512));
        } else {
            holds = holds && t.cell(0, i, 511).equals(&t.cell(3, i, 768));
        }
    }
    holds
}

/// Whether the relations of the second Merkle hasher hold at row `i`.
pub fn test_hasher_2(trace_table: &TraceTable, inputs: &PublicInputs, i: usize) -> (holds: bool)
    requires
        readable(trace_table@),
    ensures
        holds == hasher_2_holds(trace_table@, *inputs, i as int),
{
    let t = trace_table;
    let source_bit = t.cell(7, i, 0).sub(&t.cell(7, i, 1).double());
    let side_bit_1 = t.cell(6, i, 767).sub(&t.cell(6, i, 767 + 512).double());
    let mut holds = true;
    if i % 256 != 255 {
        if source_bit.is_zero() {
            holds = holds && check_copy_step(t, 4, 5, 6, i);
        } else {
            holds = holds && source_bit.is_one() && check_chord_step(
                t,
                4,
                5,
                6,
                i,
                &inputs.merkle_hash_points,
            );
        }
    }
    if i % 256 == 0 && i % 512 != 256 {
        holds = holds && t.cell(4, i, 256).equals(&t.cell(4, i, 255)) && t.cell(5, i, 256).equals(
            &t.cell(5, i, 255),
        );
    }
    if i % 512 == 0 {
        holds = holds && t.cell(4, i, 0).equals(&inputs.merkle_shift_point.x) && t.cell(
            5,
            i,
            0,
        ).equals(&inputs.merkle_shift_point.y);
    }
    if i % 512 == 0 && i / 512 % 32 != 31 && i / 512 % 32 != 30 {
        if side_bit_1.is_zero() {
            holds = holds && t.cell(4, i, 511).equals(&t.cell(7, i, 512));
        } else {
            holds = holds && t.cell(4, i, 511).equals(&t.cell(7, i, 768));
        }
    }
    if i % 256 == 251 || i % 256 == 255 {
        holds = holds && t.cell(7, i, 0).is_zero();
    }
    holds
}

/// Whether the relations of the hash pool hold at row `i`.
pub fn test_hasher_3(trace_table: &TraceTable, inputs: &PublicInputs, i: usize) -> (holds: bool)
    requires
        readable(trace_table@),
    ensures
        holds == hasher_3_holds(trace_table@, *inputs, i as int),
{
    let t = trace_table;
    let source_bit = t.cell(8, i, 3).sub(&t.cell(8, i, 7).double());
    let points = &inputs.hash_pool_points;
    let mut holds = true;
    if i % 4 == 0 && i / 4 % 256 != 255 {
        if source_bit.is_zero() {
            holds = holds && t.cell(8, i, 4).equals(&t.cell(8, i, 0)) && t.cell(8, i, 6).equals(
                &t.cell(8, i, 2),
            );
        } else {
            let x = t.cell(8, i, 0);
            let slope = t.cell(8, i, 1);
            let y = t.cell(8, i, 2);
            holds = holds && source_bit.is_one() && y.sub(&points.y).equals(
                &slope.mul(&x.sub(&points.x)),
            ) && slope.square().equals(&x.add(&points.x).add(&t.cell(8, i, 4))) && y.add(
                &t.cell(8, i, 6),
            ).equals(&slope.mul(&x.sub(&t.cell(8, i, 4))));
        }
    }
    if i % 1024 == 0 && i % 2048 != 1024 {
        holds = holds && t.cell(8, i, 1024).equals(&t.cell(8, i, 1020)) && t.cell(
            8,
            i,
            1026,
        ).equals(&t.cell(8, i, 1022));
    }
    if i % 2048 == 0 {
        holds = holds && t.cell(8, i, 0).equals(&inputs.hash_pool_shift_point.x) && t.cell(
            8,
            i,
            2,
        ).equals(&inputs.hash_pool_shift_point.y);
    }
    if i % 4096 == 0 {
        holds = holds && t.cell(8, i, 2044).equals(&t.cell(8, i, 2051));
    }
    if i % 1024 == 4 * 251 || i % 1024 == 4 * 255 {
        holds = holds && t.cell(8, i, 3).is_zero();
    }
    holds
}

/// Whether the side bit is a bit and the authentication paths share their
/// sibling, where row `i` asks for it.
pub fn check_merkle_update(inputs: &PublicInputs, i: usize) -> (holds: bool)
    ensures
        holds == merkle_update_holds(*inputs, i as int),
{
    if i % 512 == 0 && i % 16384 != 16384 / 32 * 31 {
        let bit = &inputs.side_bit_0;
        bit.mul(bit).sub(bit).is_zero() && inputs.prev_authentication_sibling_0.sub(
            &inputs.new_authentication_sibling_0,
        ).is_zero()
    } else {
        true
    }
}

/// Whether the hash pool is linked to the leaves and to the vault, where
/// row `i` asks for it.
pub fn check_hash_pool(t: &TraceTable, inputs: &PublicInputs, i: usize) -> (holds: bool)
    requires
        readable(t@),
    ensures
        holds == hash_pool_holds(t@, *inputs, i as int),
{
    if i % 16384 == 0 {
        let one = FieldElement::one();
        let empty_0 = one.sub(&t.cell(8, i, 1021));
        let empty_1 = one.sub(&t.cell(8, i, 9213));
        let key = t.cell(9, i, 16376);
        let token = t.cell(9, i, 16360);
        inputs.prev_authentication_leaf_0.equals(&t.cell(8, i, 4092))
            && inputs.new_authentication_leaf_0.equals(&t.cell(8, i, 12284)) && empty_0.mul(
            &key,
        ).sub(&t.cell(8, i, 3)).is_zero() && empty_0.mul(&token).sub(
            &t.cell(8, i, 1027),
        ).is_zero() && empty_1.mul(&key).sub(&t.cell(8, i, 8195)).is_zero() && empty_1.mul(
            &token,
        ).sub(&t.cell(8, i, 9219)).is_zero() && t.cell(9, i, 8196).sub(
            &t.cell(8, i, 11267),
        ).is_zero() && t.cell(9, i, 48).equals(&inputs.sig_config.shift_point.x) && t.cell(
            9,
            i,
            8,
        ).equals(&inputs.sig_config.shift_point.y) && t.cell(9, i, 24).mul(
            &t.cell(9, i, 16336),
        ).sub(&one).is_zero()
    } else {
        true
    }
}

/// Whether the decompositions that end at row `i` are used up.
pub fn check_decompositions_end(t: &TraceTable, inputs: &PublicInputs, i: usize) -> (holds: bool)
    requires
        readable(t@),
    ensures
        holds == decompositions_end(t@, *inputs, i as int),
{
    let mut holds = true;
    if i % 16384 == 16384 / 256 * 251 {
        holds = holds && t.cell(9, i, 24).is_zero();
    }
    if i % 16384 == 16384 / 256 * 255 {
        holds = holds && t.cell(9, i, 24).is_zero();
    }
    if inputs.path_length < 32 && i % 16384 == 16384 / 32 * inputs.path_length {
        holds = holds && t.cell(6, i, 255).is_zero();
    }
    holds
}

/// Whether the amount at row `i` is decomposed into bits.
pub fn check_amounts_in_range(t: &TraceTable, i: usize) -> (holds: bool)
    requires
        readable(t@),
    ensures
        holds == amounts_in_range(t@, i as int),
{
    let mut holds = true;
    if i % 128 == 0 && i % 8192 != 8192 / 64 * 63 {
        let bit = t.cell(9, i, 4).sub(&t.cell(9, i, 132).double());
        holds = holds && bit.mul(&bit).sub(&bit).is_zero();
    }
    if i % 8192 == 8192 / 64 * 63 {
        holds = holds && t.cell(9, i, 4).is_zero();
    }
    holds
}

/// Whether the step of raising the public key holds at row `i`.
pub fn check_key_exponentiation(t: &TraceTable, inputs: &PublicInputs, i: usize) -> (holds: bool)
    requires
        readable(t@),
    ensures
        holds == key_exponentiation_holds(t@, *inputs, i as int),
{
    if i % 64 == 0 && i % 64 * 256 != 64 * 255 {
        let one = FieldElement::one();
        let bit = &inputs.exponentiate_key_bit;
        let x = t.cell(9, i, 0);
        let y = t.cell(9, i, 32);
        let sum_x = t.cell(9, i, 48);
        let sum_y = t.cell(9, i, 8);
        let chord = t.cell(9, i, 40);
        let next_x = t.cell(9, i, 112);
        let next_y = t.cell(9, i, 72);
        let slope = t.cell(9, i, 16);
        let x_squared = x.square();
        let added = if bit.is_one() {
            sum_y.sub(&y).equals(&chord.mul(&sum_x.sub(&x)))
        } else {
            bit.is_zero() && chord.is_zero() && next_x.equals(&sum_x) && next_y.equals(&sum_y)
        };
        added && chord.square().sub(&bit.mul(&sum_x.add(&x).add(&next_x))).is_zero() && bit.mul(
            &sum_y.add(&next_y),
        ).sub(&chord.mul(&sum_x.sub(&next_x))).is_zero() && t.cell(9, i, 56).mul(
            &sum_x.sub(&x),
        ).sub(&one).is_zero() && x_squared.add(&x_squared).add(&x_squared).add(
            &inputs.sig_config.alpha,
        ).equals(&y.add(&y).mul(&slope)) && t.cell(9, i, 64).equals(
            &slope.square().sub(&x).sub(&x),
        ) && t.cell(9, i, 96).equals(&slope.mul(&x.sub(&t.cell(9, i, 64))).sub(&y))
    } else {
        true
    }
}

/// Whether the step of raising the generator holds at row `i`.
pub fn check_generator_exponentiation(t: &TraceTable, inputs: &PublicInputs, i: usize) -> (holds:
    bool)
    requires
        readable(t@),
    ensures
        holds == generator_exponentiation_holds(t@, *inputs, i as int),
{
    if i % 128 == 0 && i % 32768 != 32768 / 256 * 256 {
        let one = FieldElement::one();
        let bit = &inputs.exponentiate_generator_bit;
        let bit_neg = one.sub(bit);
        let points = &inputs.ecdsa_points;
        let x = t.cell(9, i, 68);
        let y = t.cell(9, i, 36);
        let slope = t.cell(9, i, 100);
        let next_x = t.cell(9, i, 196);
        let next_y = t.cell(9, i, 164);
        (bit.is_zero() || bit.is_one()) && bit.mul(&y.sub(&points.y)).sub(
            &slope.mul(&x.sub(&points.x)),
        ).is_zero() && slope.mul(&slope).sub(&bit.mul(&x.add(&points.x).add(&next_x))).is_zero()
            && bit.mul(&y.add(&next_y)).sub(&slope.mul(&x.sub(&next_x))).is_zero() && t.cell(
            9,
            i,
            84,
        ).mul(&x.sub(&points.x)).sub(&one).is_zero() && bit_neg.mul(&next_x.sub(&x)).is_zero()
            && bit_neg.mul(&next_y.sub(&y)).is_zero()
    } else {
        true
    }
}

/// Whether the signature is verified, where row `i` asks for it.
pub fn check_signature(t: &TraceTable, inputs: &PublicInputs, i: usize) -> (holds: bool)
    requires
        readable(t@),
    ensures
        holds == signature_holds(t@, *inputs, i as int),
{
    let mut holds = true;
    if i % 32768 == 0 {
        let one = FieldElement::one();
        let shift = &inputs.sig_config.shift_point;
        let slope = t.cell(9, i, 32724);
        let sum_x = t.cell(9, i, 32708);
        let sum_y = t.cell(9, i, 32676);
        let key_x = t.cell(9, i, 16368);
        let r_slope = t.cell(8, i, 3069);
        let r_x = t.cell(9, i, 32752);
        let x = t.cell(9, i, 0);
        let x_squared = t.cell(8, i, 27645);
        holds = holds && t.cell(9, i, 68).equals(&shift.x) && t.cell(9, i, 36).equals(&shift.y)
            && sum_y.sub(&t.cell(9, i, 16328)).sub(&slope.mul(&sum_x.sub(&key_x))).is_zero()
            && slope.square().equals(&sum_x.add(&key_x).add(&t.cell(9, i, 16384))) && sum_y.add(
            &t.cell(9, i, 16416),
        ).sub(&slope.mul(&sum_x.sub(&t.cell(9, i, 16384)))).is_zero() && t.cell(
            9,
            i,
            32740,
        ).mul(&sum_x.sub(&key_x)).sub(&one).is_zero() && t.cell(9, i, 32712).add(&shift.y).sub(
            &r_slope.mul(&r_x.sub(&shift.x)),
        ).is_zero() && r_slope.mul(&r_slope).sub(
            &r_x.add(&shift.x).add(&t.cell(9, i, 24)),
        ).is_zero() && t.cell(8, i, 19453).mul(&r_x.sub(&shift.x)).sub(&one).is_zero()
            && t.cell(9, i, 20).mul(&t.cell(8, i, 11261)).sub(&one).is_zero()
            && x_squared.equals(&x.square()) && t.cell(9, i, 32).square().equals(
            &x.mul(&x_squared).add(&inputs.sig_config.alpha.mul(&x)).add(
                &inputs.sig_config.beta,
            ),
        );
    }
    if i % 32768 == 32768 / 256 * 251 {
        holds = holds && t.cell(9, i, 20).is_zero();
    }
    if i % 32768 == 32768 / 256 * 255 {
        holds = holds && t.cell(9, i, 20).is_zero();
    }
    holds
}

/// Whether the relations of a settlement hold, where row `i` asks for them.
pub fn check_settlement(t: &TraceTable, inputs: &PublicInputs, i: usize) -> (holds: bool)
    requires
        readable(t@),
    ensures
        holds == settlement_holds(t@, *inputs, i as int),
{
    if i % 65536 == 0 && inputs.is_settlement.is_one() {
        let amount_0 = t.cell(9, i, 4);
        let amount_1 = t.cell(9, i, 32772);
        let packed = t.cell(6, i, 255).mul(&inputs.vault_shift).add(&t.cell(6, i, 49407)).mul(
            &inputs.amount_shift,
        ).add(&amount_0).mul(&inputs.amount_shift).add(&amount_1).mul(&inputs.trade_shift);
        let sold_0 = t.cell(8, i, 3075).sub(&t.cell(8, i, 11267));
        let sold_1 = t.cell(8, i, 35843).sub(&t.cell(8, i, 44035));
        t.cell(8, i, 7171).sub(&packed).is_zero() && sold_0.sub(
            &t.cell(8, i, 27651).sub(&t.cell(8, i, 19459)),
        ).is_zero() && sold_1.sub(&t.cell(8, i, 60419).sub(&t.cell(8, i, 52227))).is_zero()
            && amount_0.sub(&sold_0).is_zero() && amount_1.sub(&sold_1).is_zero() && t.cell(
            8,
            i,
            36867,
        ).equals(&t.cell(8, i, 8188)) && t.cell(8, i, 37891).equals(&t.cell(6, i, 16639))
            && t.cell(8, i, 39939).equals(&t.cell(6, i, 33023)) && t.cell(8, i, 8188).equals(
            &t.cell(9, i, 20),
        ) && t.cell(8, i, 40956).equals(&t.cell(9, i, 32788)) && t.cell(8, i, 4099).equals(
            &t.cell(9, i, 16360),
        ) && t.cell(8, i, 4099).equals(&t.cell(9, i, 32744)) && t.cell(8, i, 5123).equals(
            &t.cell(9, i, 65512),
        ) && t.cell(8, i, 5123).equals(&t.cell(9, i, 49128)) && t.cell(9, i, 0).equals(
            &t.cell(9, i, 16376),
        ) && t.cell(9, i, 0).equals(&t.cell(9, i, 65528)) && t.cell(9, i, 32768).equals(
            &t.cell(9, i, 32760),
        ) && t.cell(9, i, 32768).equals(&t.cell(9, i, 49144))
    } else {
        true
    }
}

/// Whether the relations of a modification hold, where row `i` asks for
/// them.
pub fn check_modification(t: &TraceTable, inputs: &PublicInputs, i: usize) -> (holds: bool)
    requires
        readable(t@),
    ensures
        holds == modification_holds(t@, *inputs, i as int),
{
    if i % 65536 == 0 && inputs.is_modification.is_one() {
        let base = &inputs.boundary_base;
        inputs.column4_row_expr0.equals(&inputs.column4_row_expr1) && t.cell(9, i, 16376).mul(
            base,
        ).equals(&inputs.boundary_key) && t.cell(9, i, 16360).mul(base).equals(
            &inputs.boundary_token,
        ) && t.cell(8, i, 3075).mul(base).equals(&inputs.boundary_amount0) && t.cell(
            8,
            i,
            11267,
        ).mul(base).equals(&inputs.boundary_amount1) && t.cell(6, i, 255).mul(base).equals(
            &inputs.boundary_vault_id,
        )
    } else {
        true
    }
}

/// Whether the flag of an empty vault is consistent, where row `i` asks for
/// it.
pub fn check_vault_flag(t: &TraceTable, i: usize) -> (holds: bool)
    requires
        readable(t@),
    ensures
        holds == vault_flag_holds(t@, i as int),
{
    if i % 8192 == 0 {
        let one = FieldElement::one();
        let empty = t.cell(8, i, 1021);
        let amount = t.cell(8, i, 3075);
        let inverse = t.cell(8, i, 5117);
        empty.mul(&one.sub(&empty)).is_zero() && empty.mul(&amount).is_zero() && empty.mul(
            &inverse,
        ).is_zero() && amount.mul(&inverse).sub(&one.sub(&empty)).is_zero()
    } else {
        true
    }
}

/// Whether the roots are linked, where row `i` asks for it.
pub fn check_roots(inputs: &PublicInputs, i: usize) -> (holds: bool)
    ensures
        holds == roots_hold(*inputs, i as int),
{
    let length = inputs.trace_length;
    let mut holds = true;
    if i == 0 {
        holds = holds && inputs.column0_row_expr0.sub(&inputs.initial_root).is_zero();
    }
    if length >= 65536 && i == length - 65536 {
        holds = holds && inputs.column4_row_expr1.sub(&inputs.final_root).is_zero();
    }
    if i % 16384 == 0 && !(length >= 16384 && i == length - 16384) {
        holds = holds && inputs.column4_row_expr0.sub(&inputs.column0_row_expr2).is_zero();
    }
    holds
}

/// Whether every relation of the circuit holds at row `i` of the table.
pub fn test_row(trace_table: &TraceTable, inputs: &PublicInputs, i: usize) -> (holds: bool)
    requires
        readable(trace_table@),
    ensures
        holds == row_holds(trace_table@, *inputs, i as int),
{
    test_hasher_1(trace_table, inputs, i) && test_hasher_2(trace_table, inputs, i)
        && test_hasher_3(trace_table, inputs, i) && check_merkle_update(inputs, i)
        && check_hash_pool(trace_table, inputs, i) && check_decompositions_end(
        trace_table,
        inputs,
        i,
    ) && check_amounts_in_range(trace_table, i) && check_key_exponentiation(
        trace_table,
        inputs,
        i,
    ) && check_generator_exponentiation(trace_table, inputs, i) && check_signature(
        trace_table,
        inputs,
        i,
    ) && check_settlement(trace_table, inputs, i) && check_modification(trace_table, inputs, i)
        && check_vault_flag(trace_table, i) && check_roots(inputs, i)
}

/// The first row of the table at which a relation of the circuit fails, if
/// there is one.
pub fn test_trace_table(trace_table: &TraceTable, inputs: &PublicInputs) -> (failing: Option<
    usize,
>)
    requires
        readable(trace_table@),
    ensures
        match failing {
            Some(i) => {
                &&& i < trace_table@.num_rows
                &&& !row_holds(trace_table@, *inputs, i as int)
                &&& forall|j: int| 0 <= j < i ==> row_holds(trace_table@, *inputs, j)
            },
            None => forall|j: int|
                0 <= j < trace_table@.num_rows ==> row_holds(trace_table@, *inputs, j),
        },
{
    let rows = trace_table.num_rows();
    let mut i: usize = 0;
    while i < rows
        invariant
            i <= rows,
            rows == trace_table@.num_rows,
            readable(trace_table@),
            forall|j: int| 0 <= j < i ==> row_holds(trace_table@, *inputs, j),
        decreases rows - i,
    {
        if !test_row(trace_table, inputs, i) {
            return Some(i);
        }
        i += 1;
    }
    None
}

} // verus!
