//! The integer and floating-point arithmetic, without a hart around it.

use nanoemu::alu;
use nanoemu::cpu::Xlen;
use nanoemu::decode;
use nanoemu::fpu::{self, Fmt, Rm};
use nanoemu::wide;

const S: Fmt = Fmt { bits: 32, sig: 23 };
const D: Fmt = Fmt { bits: 64, sig: 52 };
const MODES: [Rm; 5] = [Rm::Rne, Rm::Rtz, Rm::Rdn, Rm::Rup, Rm::Rmm];

// ------------------------------------------------------------------- integers

#[test]
fn the_two_multiplies_give_both_halves_of_the_product() {
    let pairs = [
        (3u64, 5u64),
        (u64::MAX, u64::MAX),
        (1 << 63, 2),
        (1 << 63, 1 << 63),
        (0x1234_5678_9abc_def0, 0xfedc_ba98_7654_3210),
    ];
    for (a, b) in pairs {
        let low = alu::muldiv(Xlen::Rv64, 0, a, b) as u128;
        let high = alu::muldiv(Xlen::Rv64, 3, a, b) as u128;
        assert_eq!((high << 64) | low, a as u128 * b as u128);
        let high = alu::muldiv(Xlen::Rv64, 1, a, b) as i64 as i128;
        assert_eq!(
            (high << 64) + low as i128,
            (a as i64 as i128) * (b as i64 as i128)
        );
        let high = alu::muldiv(Xlen::Rv64, 2, a, b) as i64 as i128;
        assert_eq!((high << 64) + low as i128, (a as i64 as i128) * (b as i128));
    }
    assert_eq!(alu::muldiv(Xlen::Rv32, 0, 0x1_0000, 0x1_0001), 0x1_0000);
    assert_eq!(alu::muldiv(Xlen::Rv32, 3, 0x1_0000, 0x1_0001), 1);
    assert_eq!(alu::muldiv(Xlen::Rv32, 1, 0xffff_ffff, 2), 0xffff_ffff);
    assert_eq!(alu::muldiv(Xlen::Rv32, 2, 0xffff_ffff, 2), 0xffff_ffff);
}

#[test]
fn division_rounds_toward_zero_and_the_remainder_follows_the_dividend() {
    for (a, b, q, r) in [(7i64, 2i64, 3i64, 1i64), (-7, 2, -3, -1), (7, -2, -3, 1), (-7, -2, 3, -1)]
    {
        for width in [Xlen::Rv32, Xlen::Rv64] {
            let cut = |v: i64| width.trunc(v as u64);
            assert_eq!(alu::muldiv(width, 4, cut(a), cut(b)), cut(q));
            assert_eq!(alu::muldiv(width, 6, cut(a), cut(b)), cut(r));
        }
    }
    assert_eq!(alu::muldiv(Xlen::Rv64, 5, u64::MAX, 10), u64::MAX / 10);
    assert_eq!(alu::muldiv(Xlen::Rv64, 7, u64::MAX, 10), u64::MAX % 10);
}

#[test]
fn dividing_by_zero_and_overflowing_have_results() {
    assert_eq!(alu::muldiv(Xlen::Rv64, 4, 9, 0), u64::MAX);
    assert_eq!(alu::muldiv(Xlen::Rv64, 5, 9, 0), u64::MAX);
    assert_eq!(alu::muldiv(Xlen::Rv64, 6, 9, 0), 9);
    assert_eq!(alu::muldiv(Xlen::Rv64, 7, 9, 0), 9);
    assert_eq!(alu::muldiv(Xlen::Rv32, 4, 9, 0), 0xffff_ffff);
    assert_eq!(alu::muldiv(Xlen::Rv64, 4, 1 << 63, u64::MAX), 1 << 63);
    assert_eq!(alu::muldiv(Xlen::Rv64, 6, 1 << 63, u64::MAX), 0);
    assert_eq!(
        alu::muldiv(Xlen::Rv32, 4, 0x8000_0000, 0xffff_ffff),
        0x8000_0000
    );
    assert_eq!(alu::muldiv(Xlen::Rv32, 6, 0x8000_0000, 0xffff_ffff), 0);
}

#[test]
fn the_base_operations_work_at_both_widths() {
    let minus_one = 0xffff_ffffu64;
    assert_eq!(alu::alu(Xlen::Rv32, 0, false, minus_one, 1), 0);
    assert_eq!(alu::alu(Xlen::Rv32, 0, true, 0, 1), minus_one);
    assert_eq!(alu::alu(Xlen::Rv64, 0, true, 0, 1), u64::MAX);
    assert_eq!(alu::alu(Xlen::Rv32, 1, false, 1, 33), 2);
    assert_eq!(alu::alu(Xlen::Rv64, 1, false, 3, 63), 1 << 63);
    assert_eq!(alu::alu(Xlen::Rv32, 2, false, minus_one, 0), 1);
    assert_eq!(alu::alu(Xlen::Rv32, 3, false, minus_one, 0), 0);
    assert_eq!(alu::alu(Xlen::Rv64, 4, false, 0b1100, 0b1010), 0b0110);
    assert_eq!(alu::alu(Xlen::Rv64, 6, false, 0b1100, 0b1010), 0b1110);
    assert_eq!(alu::alu(Xlen::Rv64, 7, false, 0b1100, 0b1010), 0b1000);
    assert_eq!(alu::alu(Xlen::Rv32, 5, false, 0x8000_0000, 4), 0x0800_0000);
    assert_eq!(alu::alu(Xlen::Rv32, 5, true, 0x8000_0000, 4), 0xf800_0000);
    assert_eq!(alu::alu(Xlen::Rv64, 5, true, 0x8000_0000, 4), 0x0800_0000);
    assert_eq!(alu::alu(Xlen::Rv64, 5, true, u64::MAX, 63), u64::MAX);
}

#[test]
fn a_word_operation_does_not_see_the_upper_half() {
    for f3 in [0u32, 1, 2, 3, 5] {
        for alt in [false, true] {
            let (a, b) = (0x8000_0001u64, 0x0000_0003u64);
            assert_eq!(
                alu::alu(Xlen::Rv32, f3, alt, a, b),
                alu::alu(Xlen::Rv32, f3, alt, a | 7 << 40, b | 5 << 33)
            );
        }
    }
}

#[test]
fn every_branch_condition_is_distinct() {
    let (a, b) = (0xffff_ffffu64, 1u64);
    let taken = |f3| alu::branch(Xlen::Rv32, f3, a, b);
    assert_eq!(taken(0), Some(false));
    assert_eq!(taken(1), Some(true));
    assert_eq!(taken(4), Some(true));
    assert_eq!(taken(5), Some(false));
    assert_eq!(taken(6), Some(false));
    assert_eq!(taken(7), Some(true));
    assert_eq!(taken(2), None);
    assert_eq!(taken(3), None);
    // Where the signs agree, so do the two orders.
    assert_eq!(
        alu::branch(Xlen::Rv32, 4, 2, 3),
        alu::branch(Xlen::Rv32, 6, 2, 3)
    );
}

#[test]
fn the_atomic_operations_combine_at_their_own_width() {
    let op = |f5, a, b| alu::amo(Xlen::Rv32, f5, a, b);
    assert_eq!(op(0x00, 0xffff_ffff, 2), Some(1));
    assert_eq!(op(0x01, 5, 9), Some(9));
    assert_eq!(op(0x04, 0b1100, 0b1010), Some(0b0110));
    assert_eq!(op(0x08, 0b1100, 0b1010), Some(0b1110));
    assert_eq!(op(0x0c, 0b1100, 0b1010), Some(0b1000));
    assert_eq!(op(0x10, 0xffff_ffff, 1), Some(0xffff_ffff));
    assert_eq!(op(0x14, 0xffff_ffff, 1), Some(1));
    assert_eq!(op(0x18, 0xffff_ffff, 1), Some(1));
    assert_eq!(op(0x1c, 0xffff_ffff, 1), Some(0xffff_ffff));
    assert_eq!(op(0x05, 1, 1), None);
}

#[test]
fn extension_fills_up_to_the_register_width() {
    assert_eq!(Xlen::Rv64.extend(0x80, 8), 0xffff_ffff_ffff_ff80);
    assert_eq!(Xlen::Rv32.extend(0x80, 8), 0xffff_ff80);
    assert_eq!(Xlen::Rv64.extend(0x7fff, 16), 0x7fff);
    assert_eq!(Xlen::Rv64.extend(0x8000_0000, 32), 0xffff_ffff_8000_0000);
    assert_eq!(Xlen::Rv32.extend(0x8000_0000, 32), 0x8000_0000);
    assert_eq!(Xlen::Rv64.immediate(-1), u64::MAX);
    assert_eq!(Xlen::Rv32.number(i64::MIN), 0);
    assert_eq!(Xlen::Rv32.offset(0, -4), 0xffff_fffc);
    assert_eq!(Xlen::Rv32.sum(0xffff_ffff, 1), 0);
}

#[test]
fn instruction_fields_come_out_where_the_formats_put_them() {
    // addi x10, x11, -3
    let inst = 0xffd5_8513;
    assert_eq!(decode::opcode(inst), 0x13);
    assert_eq!(decode::rd(inst), 10);
    assert_eq!(decode::rs1(inst), 11);
    assert_eq!(decode::funct3(inst), 0);
    assert_eq!(decode::imm_i(inst), -3);
    // sw x6, -4(x5)
    let inst = 0xfe62_ae23;
    assert_eq!(decode::rs2(inst), 6);
    assert_eq!(decode::imm_s(inst), -4);
    // beq x0, x0, -8
    assert_eq!(decode::imm_b(0xfe00_0ce3), -8);
    // lui x1, 0x80000
    assert_eq!(decode::imm_u(0x8000_00b7), i32::MIN);
    // jal x0, -4
    assert_eq!(decode::imm_j(0xffdf_f06f), -4);
    // csrrw x0, mscratch, x5
    assert_eq!(decode::csr(0x3402_9073), 0x340);
    assert_eq!(decode::funct7(0x4020_8033), 0x20);
    assert_eq!(decode::sext(0b100, 3), -4);
    assert_eq!(decode::sext(0b011, 3), 3);
    assert_eq!(decode::bits(0xabcd_1234, 15, 8), 0x12);
}

#[test]
fn shifts_are_multiplications_and_divisions() {
    assert_eq!(wide::shl128(3, 100), 3 << 100);
    assert_eq!(wide::shr128(u128::MAX, 127), 1);
    assert_eq!(wide::low128(0b1011, 3), 0b011);
    assert_eq!(wide::shl64(3, 62), 3 << 62);
    assert_eq!(wide::shr64(u64::MAX, 63), 1);
    assert_eq!(wide::low64(u64::MAX, 64), u64::MAX);
    assert_eq!(wide::low64(0b1011, 2), 0b11);
    assert_eq!(wide::bit_len(0), 0);
    assert_eq!(wide::bit_len(u128::MAX), 128);
    assert_eq!(wide::bit_len(1 << 77), 78);
}

// -------------------------------------------------------------- floating point

/// A spread of encodings: zeroes, subnormals, normals, infinities and NaNs.
fn samples(f: Fmt) -> Vec<u64> {
    let one = f.inf(false) / 2;
    let magnitudes = [
        0,
        1,
        (1 << f.sig) - 1,
        1 << f.sig,
        one,
        one + 1,
        one + (1 << (f.sig - 1)),
        f.inf(false) - 1,
        f.inf(false),
        f.inf(false) + 1,
        f.nan(),
    ];
    let mut all = Vec::new();
    for m in magnitudes {
        all.push(m);
        all.push(m | f.sign_mask());
    }
    all
}

#[test]
fn addition_and_multiplication_commute() {
    for f in [S, D] {
        for a in samples(f) {
            for b in samples(f) {
                for rm in MODES {
                    assert_eq!(fpu::add(f, a, b, rm), fpu::add(f, b, a, rm));
                    assert_eq!(fpu::mul(f, a, b, rm), fpu::mul(f, b, a, rm));
                }
            }
        }
    }
}

#[test]
fn subtracting_is_adding_the_negation() {
    for a in samples(S) {
        for b in samples(S) {
            let negated = fpu::sign_inject(S, b, b, 1);
            for rm in MODES {
                assert_eq!(fpu::sub(S, a, b, rm), fpu::add(S, a, negated, rm));
            }
        }
    }
}

#[test]
fn fusing_with_one_or_with_zero_fuses_nothing() {
    for (f, one) in [(S, 1f32.to_bits() as u64), (D, 1f64.to_bits())] {
        for a in samples(f) {
            for b in samples(f) {
                for rm in MODES {
                    assert_eq!(
                        fpu::fma(f, a, one, b, false, false, rm),
                        fpu::add(f, a, b, rm)
                    );
                    let zero = f.zero((a ^ b) & f.sign_mask() != 0);
                    assert_eq!(
                        fpu::fma(f, a, b, zero, false, false, rm),
                        fpu::mul(f, a, b, rm)
                    );
                }
            }
        }
    }
}

#[test]
fn a_fused_negation_flips_one_sign() {
    for f in [S, D] {
        let m = f.sign_mask();
        for a in samples(f) {
            for b in samples(f) {
                for c in samples(f) {
                    for other in [false, true] {
                        let negated = fpu::fma(f, a, b, c, true, other, Rm::Rup);
                        assert_eq!(negated, fpu::fma(f, a ^ m, b, c, false, other, Rm::Rup));
                        assert_eq!(negated, fpu::fma(f, a, b ^ m, c, false, other, Rm::Rup));
                        assert_eq!(
                            fpu::fma(f, a, b, c, other, true, Rm::Rdn),
                            fpu::fma(f, a, b, c ^ m, other, false, Rm::Rdn)
                        );
                    }
                }
            }
        }
    }
}

#[test]
fn the_directed_modes_bracket_the_number() {
    // Across a binade edge, among the subnormals, and past the largest.
    let cases = [
        (0x1ff_ffff_u128, 0, 0x4c00_0000, 0x4bff_ffff, fpu::NX),
        (0x1ff_ffff, -150, 0x0100_0000, 0x00ff_ffff, fpu::NX),
        (3, -150, 2, 1, fpu::UF_NX),
        (0x3, -149, 3, 3, 0),
        (1, 128, 0x7f80_0000, 0x7f7f_ffff, fpu::OF_NX),
    ];
    for (m, e, outer, inner, flags) in cases {
        assert_eq!(fpu::round_pack(S, false, m, e, Rm::Rup), (outer, flags));
        assert_eq!(fpu::round_pack(S, false, m, e, Rm::Rdn), (inner, flags));
        assert_eq!(fpu::round_pack(S, false, m, e, Rm::Rtz), (inner, flags));
        let sign = S.sign_mask();
        assert_eq!(
            fpu::round_pack(S, true, m, e, Rm::Rdn),
            (outer | sign, flags)
        );
        assert_eq!(fpu::round_pack(S, true, m, e, Rm::Rup), (inner | sign, flags));
    }
}

#[test]
fn no_operation_makes_a_nan_but_the_canonical_one() {
    let is_nan = |f: Fmt, v: u64| v & (f.sign_mask() - 1) > f.inf(false);
    for f in [S, D] {
        for a in samples(f) {
            for b in samples(f) {
                for rm in MODES {
                    let results = [
                        fpu::add(f, a, b, rm).0,
                        fpu::sub(f, a, b, rm).0,
                        fpu::mul(f, a, b, rm).0,
                        fpu::div(f, a, b, rm).0,
                        fpu::sqrt(f, a, rm).0,
                        fpu::fma(f, a, b, a, false, true, rm).0,
                    ];
                    for v in results {
                        assert!(!is_nan(f, v) || v == f.nan());
                    }
                }
            }
        }
    }
}

#[test]
fn a_single_goes_to_double_and_back_unchanged() {
    for a in samples(S) {
        if a & 0x7fff_ffff > S.inf(false) {
            continue;
        }
        for rm in MODES {
            let (v, flags) = fpu::convert(S, D, a, rm);
            assert_eq!(flags, 0);
            assert_eq!(fpu::convert(D, S, v, rm), (a, 0));
            assert_eq!(fpu::convert(S, S, a, rm), (a, 0));
        }
    }
    assert_eq!(
        fpu::convert(S, D, 1, Rm::Rne).0,
        (f32::from_bits(1) as f64).to_bits()
    );
}

#[test]
fn an_integer_that_fits_the_significand_survives() {
    for n in [0u64, 1, 2, 3, 1000, (1 << 24) - 1, 1 << 24] {
        for negative in [false, true] {
            for rm in MODES {
                let (v, flags) = fpu::from_int(S, negative, n, rm);
                assert_eq!(flags, 0);
                let bits = if negative { n.wrapping_neg() } else { n };
                assert_eq!(fpu::to_int(S, v, 64, true, rm), (bits, 0));
            }
        }
    }
}

#[test]
fn comparisons_are_a_total_order_on_the_numbers() {
    for a in samples(S) {
        for b in samples(S) {
            let nan = a & 0x7fff_ffff > S.inf(false) || b & 0x7fff_ffff > S.inf(false);
            let less = fpu::lt(S, a, b, false).0;
            let more = fpu::lt(S, b, a, false).0;
            let equal = fpu::eq(S, a, b).0;
            let count = less as u32 + more as u32 + equal as u32;
            assert_eq!(count, if nan { 0 } else { 1 });
            assert_eq!(fpu::lt(S, a, b, true).0, less || equal);
        }
    }
}

#[test]
fn min_and_max_hand_back_one_of_their_operands() {
    for a in samples(S) {
        for b in samples(S) {
            let nans = [a, b].map(|v| v & 0x7fff_ffff > S.inf(false));
            for want_max in [false, true] {
                let picked = fpu::min_max(S, a, b, want_max).0;
                match nans {
                    [true, true] => assert_eq!(picked, S.nan()),
                    [true, false] => assert_eq!(picked, b),
                    [false, true] => assert_eq!(picked, a),
                    [false, false] => assert!(picked == a || picked == b),
                }
            }
        }
    }
}

#[test]
fn every_encoding_is_of_one_kind() {
    for f in [S, D] {
        for a in samples(f) {
            let class = fpu::classify(f, a);
            assert_eq!(class.count_ones(), 1);
            assert!(class < 1 << 10);
        }
    }
}

#[test]
fn sign_injection_moves_the_sign_alone() {
    for a in samples(D) {
        let negated = fpu::sign_inject(D, a, a, 1);
        assert_eq!(negated, a ^ D.sign_mask());
        assert_eq!(fpu::sign_inject(D, negated, negated, 1), a);
        assert_eq!(fpu::sign_inject(D, a, a, 2), a & !D.sign_mask());
        assert_eq!(fpu::sign_inject(D, a, a, 0), a);
    }
}

#[test]
fn the_five_modes_part_on_a_tie() {
    // 2^24 + 1 is halfway between two singles, and 2^24 + 3 likewise.
    let low = fpu::from_int(S, false, 1 << 24, Rm::Rne).0;
    let round = |n, rm| fpu::from_int(S, false, n, rm).0 - low;
    let odd = |rm| round((1 << 24) + 1, rm);
    assert_eq!(MODES.map(odd), [0, 0, 0, 1, 1]);
    let even = |rm| round((1 << 24) + 3, rm);
    assert_eq!(MODES.map(even), [2, 1, 1, 2, 2]);
    let negative = |rm| fpu::from_int(S, true, (1 << 24) + 1, rm).0 - (low | 1 << 31);
    assert_eq!(MODES.map(negative), [0, 0, 1, 0, 1]);
}

#[test]
fn a_significand_of_any_length_rounds_once() {
    // All 128 bits, with the last place above every one of them.
    let (v, flags) = fpu::round_pack(D, false, u128::MAX, -1202, Rm::Rne);
    assert_eq!((v, flags), (1, fpu::UF_NX));
    let (v, flags) = fpu::round_pack(D, false, 1 << 127, -1202, Rm::Rne);
    assert_eq!((v, flags), (0, fpu::UF_NX));
    let (v, flags) = fpu::round_pack(D, false, 1 << 127, -1202, Rm::Rup);
    assert_eq!((v, flags), (1, fpu::UF_NX));
    assert_eq!(fpu::round_pack(D, true, 0, 0, Rm::Rne), (1 << 63, 0));
    assert_eq!(
        fpu::round_pack(D, false, 3, -1, Rm::Rne),
        (1.5f64.to_bits(), 0)
    );
}

#[test]
fn the_rounding_mode_encodings_end_at_five() {
    for (v, rm) in MODES.iter().enumerate() {
        assert_eq!(Rm::from_bits(v as u32), Some(*rm));
    }
    for v in [5, 6, 7] {
        assert_eq!(Rm::from_bits(v), None);
    }
    assert_eq!(Fmt::single(), S);
    assert_eq!(Fmt::double(), D);
    assert_eq!(S.zero(true), 1 << 31);
    assert_eq!(S.inf(true), 0xff80_0000);
    assert_eq!(S.mask(), 0xffff_ffff);
    assert_eq!(D.mask(), u64::MAX);
}
