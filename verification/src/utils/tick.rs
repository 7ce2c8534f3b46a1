//! Ticks and square-root prices.
//!
//! The price at tick `t` is `1.0001^t`; a pool stores its square root in
//! Q64.96. The conversion multiplies, in Q128 fixed point, the precomputed
//! powers `1.0001^(-2^i / 2)` that the bits of `|t|` select, and inverts the
//! product for a positive tick.

use vstd::prelude::*;
use crate::utils::math::q96_value;
use crate::utils::uint::{
    ceil_div, lemma_ceil_at_least, lemma_floor_bounds, modulus, pow2_128, U256,
};

verus! {

/// The least tick with a price.
pub const MIN_TICK: i32 = -887272;

/// The greatest tick with a price.
pub const MAX_TICK: i32 = 887272;

/// The Q128 value of `1.0001^(-2^i / 2)`, for each bit `i` of a tick.
pub open spec fn tick_factor(i: nat) -> nat {
    if i == 0 {
        0xfffc_b933_bd6f_ad37_aa2d_162d_1a59_4001
    } else if i == 1 {
        0xfff9_7272_373d_4132_59a4_6990_580e_213a
    } else if i == 2 {
        0xfff2_e50f_5f65_6932_ef12_357c_f3c7_fdcc
    } else if i == 3 {
        0xffe5_caca_7e10_e4e6_1c36_24ea_a094_1cd0
    } else if i == 4 {
        0xffcb_9843_d60f_6159_c9db_5883_5c92_6644
    } else if i == 5 {
        0xff97_3b41_fa98_c081_472e_6896_dfb2_54c0
    } else if i == 6 {
        0xff2e_a164_66c9_6a38_43ec_78b3_26b5_2861
    } else if i == 7 {
        0xfe5d_ee04_6a99_a2a8_11c4_61f1_969c_3053
    } else if i == 8 {
        0xfcbe_86c7_900a_88ae_dcff_c83b_479a_a3a4
    } else if i == 9 {
        0xf987_a725_3ac4_1317_6f2b_074c_f781_5e54
    } else if i == 10 {
        0xf339_2b08_22b7_0005_940c_7a39_8e4b_70f3
    } else if i == 11 {
        0xe715_9475_a2c2_9b74_43b2_9c7f_a6e8_89d9
    } else if i == 12 {
        0xd097_f3bd_fd20_22b8_845a_d8f7_92aa_5825
    } else if i == 13 {
        0xa9f7_4646_2d87_0fdf_8a65_dc1f_90e0_61e5
    } else if i == 14 {
        0x70d8_69a1_56d2_a1b8_90bb_3df6_2baf_32f7
    } else if i == 15 {
        0x31be_135f_97d0_8fd9_8123_1505_542f_cfa6
    } else if i == 16 {
        0x9aa_508b_5b7a_84e1_c677_de54_f3e9_9bc9
    } else if i == 17 {
        0x5d_6af8_dedb_8119_6699_c329_225e_e604
    } else if i == 18 {
        0x2216_e584_f5fa_1ea9_2604_1bed_fe98
    } else {
        0x48a_1703_91f7_dc42_444e_8fa2
    }
}

/// The Q128 ratio of the tick whose bits below `i` are all set: the least
/// ratio that the first `i` factors can give.
pub open spec fn low_bits_ratio(i: nat) -> nat {
    if i == 0 {
        0x1_0000_0000_0000_0000_0000_0000_0000_0000nat
    } else if i == 1 {
        0xfffc_b933_bd6f_ad37_aa2d_162d_1a59_4001
    } else if i == 2 {
        0xfff6_2bbb_6d45_8ec3_c792_1063_91dc_463e
    } else if i == 3 {
        0xffe9_114b_9cf2_8d39_4c32_03db_d44e_b085
    } else if i == 4 {
        0xffce_de6f_1d8b_e90b_88f3_5042_4e84_e5b7
    } else if i == 5 {
        0xff9a_80c1_ada7_480b_1daa_871d_7c4d_9b36
    } else if i == 6 {
        0xff31_e58d_5a53_c84f_c142_023e_c1b1_dfd7
    } else if i == 7 {
        0xfe61_2f81_83b1_ea21_b72f_b71b_0354_2ae4
    } else if i == 8 {
        0xfcc1_c2f3_8053_6bc6_7ee1_ff56_4d10_80b2
    } else if i == 9 {
        0xf98a_d8c8_d7ec_c0a3_f8a4_2c97_24cf_fb6a
    } else if i == 10 {
        0xf33c_4801_89b4_1523_5ad1_1942_7d89_a1f6
    } else if i == 11 {
        0xe718_89a8_5903_fd03_cb7c_c40b_df37_1a9c
    } else if i == 12 {
        0xd09a_9f3e_93db_5812_d482_0c2f_c67a_3e3a
    } else if i == 13 {
        0xa9f9_7334_5b9e_647c_4163_af91_d00b_255f
    } else if i == 14 {
        0x70d9_db64_85f0_4ddd_567e_07c7_b89f_8e7c
    } else if i == 15 {
        0x31be_b65d_91af_63ae_717a_760b_e3b3_74dc
    } else if i == 16 {
        0x9aa_7036_fd23_5542_9c40_30b0_32e1_cf71
    } else if i == 17 {
        0x5d_6c2a_f97a_aa8d_e0e5_a6bf_23f5_e547
    } else if i == 18 {
        0x2217_5538_8a66_58e1_20f4_a3c5_03cf
    } else if i == 19 {
        0x48a_25e3_6942_a4fc_0c1f_899f
    } else {
        0x14_9b78_73d8_4d48
    }
}

fn tick_factor_at(i: u32) -> (r: U256)
    requires
        i < 20,
    ensures
        r@ == tick_factor(i as nat),
{
    if i == 0 {
        U256 { w3: 0, w2: 0, w1: 0xfffc_b933_bd6f_ad37, w0: 0xaa2d_162d_1a59_4001 }
    } else if i == 1 {
        U256 { w3: 0, w2: 0, w1: 0xfff9_7272_373d_4132, w0: 0x59a4_6990_580e_213a }
    } else if i == 2 {
        U256 { w3: 0, w2: 0, w1: 0xfff2_e50f_5f65_6932, w0: 0xef12_357c_f3c7_fdcc }
    } else if i == 3 {
        U256 { w3: 0, w2: 0, w1: 0xffe5_caca_7e10_e4e6, w0: 0x1c36_24ea_a094_1cd0 }
    } else if i == 4 {
        U256 { w3: 0, w2: 0, w1: 0xffcb_9843_d60f_6159, w0: 0xc9db_5883_5c92_6644 }
    } else if i == 5 {
        U256 { w3: 0, w2: 0, w1: 0xff97_3b41_fa98_c081, w0: 0x472e_6896_dfb2_54c0 }
    } else if i == 6 {
        U256 { w3: 0, w2: 0, w1: 0xff2e_a164_66c9_6a38, w0: 0x43ec_78b3_26b5_2861 }
    } else if i == 7 {
        U256 { w3: 0, w2: 0, w1: 0xfe5d_ee04_6a99_a2a8, w0: 0x11c4_61f1_969c_3053 }
    } else if i == 8 {
        U256 { w3: 0, w2: 0, w1: 0xfcbe_86c7_900a_88ae, w0: 0xdcff_c83b_479a_a3a4 }
    } else if i == 9 {
        U256 { w3: 0, w2: 0, w1: 0xf987_a725_3ac4_1317, w0: 0x6f2b_074c_f781_5e54 }
    } else if i == 10 {
        U256 { w3: 0, w2: 0, w1: 0xf339_2b08_22b7_0005, w0: 0x940c_7a39_8e4b_70f3 }
    } else if i == 11 {
        U256 { w3: 0, w2: 0, w1: 0xe715_9475_a2c2_9b74, w0: 0x43b2_9c7f_a6e8_89d9 }
    } else if i == 12 {
        U256 { w3: 0, w2: 0, w1: 0xd097_f3bd_fd20_22b8, w0: 0x845a_d8f7_92aa_5825 }
    } else if i == 13 {
        U256 { w3: 0, w2: 0, w1: 0xa9f7_4646_2d87_0fdf, w0: 0x8a65_dc1f_90e0_61e5 }
    } else if i == 14 {
        U256 { w3: 0, w2: 0, w1: 0x70d8_69a1_56d2_a1b8, w0: 0x90bb_3df6_2baf_32f7 }
    } else if i == 15 {
        U256 { w3: 0, w2: 0, w1: 0x31be_135f_97d0_8fd9, w0: 0x8123_1505_542f_cfa6 }
    } else if i == 16 {
        U256 { w3: 0, w2: 0, w1: 0x9aa_508b_5b7a_84e1, w0: 0xc677_de54_f3e9_9bc9 }
    } else if i == 17 {
        U256 { w3: 0, w2: 0, w1: 0x5d_6af8_dedb_8119, w0: 0x6699_c329_225e_e604 }
    } else if i == 18 {
        U256 { w3: 0, w2: 0, w1: 0x2216_e584_f5fa, w0: 0x1ea9_2604_1bed_fe98 }
    } else {
        U256 { w3: 0, w2: 0, w1: 0x48a_1703, w0: 0x91f7_dc42_444e_8fa2 }
    }
}

/// The relative distance that two neighbouring ratios keep: one part in
/// 32768, a little less than the 0.005% that one tick is worth.
pub const GAP_SCALE: u64 = 32768;

/// One row of the tables: from the product of the least ratio of a bit and
/// the factor of the bit, written out as quotient and remainder by 2^128,
/// follows what the row has to hold.
proof fn lemma_table_row(bit: nat, low: nat, factor: nat, next: nat, rest: nat)
    requires
        bit < 20,
        low == low_bits_ratio(bit),
        factor == tick_factor(bit),
        next == low_bits_ratio(bit + 1),
        low * factor == next * pow2_128() + rest,
        rest < pow2_128(),
    ensures
        low_bits_ratio(bit) * tick_factor(bit) / pow2_128() == low_bits_ratio(bit + 1),
        low_bits_ratio(bit) * tick_factor(bit) >= low_bits_ratio(bit + 1) * pow2_128(),
{
    vstd::arithmetic::div_mod::lemma_fundamental_div_mod_converse(
        (low * factor) as int,
        pow2_128() as int,
        next as int,
        rest as int,
    );
}

/// What the tables hold, bit by bit: each factor is below one in Q128; the
/// ratio with all lower bits set, times the factor, is exactly the next such
/// ratio; the ratios fall; and the ratio with all lower bits set lies above
/// the factor alone by more than one part in 32768.
proof fn lemma_tables(bit: nat)
    requires
        bit < 20,
    ensures
        0 < tick_factor(bit) < pow2_128(),
        low_bits_ratio(bit) * tick_factor(bit) / pow2_128() == low_bits_ratio(bit + 1),
        low_bits_ratio(bit) * tick_factor(bit) >= low_bits_ratio(bit + 1) * pow2_128(),
        0 < low_bits_ratio(bit + 1) <= low_bits_ratio(bit) <= pow2_128(),
        low_bits_ratio(bit) * GAP_SCALE >= tick_factor(bit) * (GAP_SCALE + 1),
        low_bits_ratio(20) >= 0x10_0000_0000_0000,
{
    if bit == 0 {
        assert(0x1_0000_0000_0000_0000_0000_0000_0000_0000nat
            * 0xfffc_b933_bd6f_ad37_aa2d_162d_1a59_4001nat
            == 0xfffc_b933_bd6f_ad37_aa2d_162d_1a59_4001nat
            * 0x1_0000_0000_0000_0000_0000_0000_0000_0000nat
            + 0x0nat) by (nonlinear_arith);
        lemma_table_row(
            bit,
            0x1_0000_0000_0000_0000_0000_0000_0000_0000nat,
            0xfffc_b933_bd6f_ad37_aa2d_162d_1a59_4001nat,
            0xfffc_b933_bd6f_ad37_aa2d_162d_1a59_4001nat,
            0x0nat,
        );
    } else if bit == 1 {
        assert(0xfffc_b933_bd6f_ad37_aa2d_162d_1a59_4001nat
            * 0xfff9_7272_373d_4132_59a4_6990_580e_213anat
            == 0xfff6_2bbb_6d45_8ec3_c792_1063_91dc_463enat
            * 0x1_0000_0000_0000_0000_0000_0000_0000_0000nat
            + 0x8ed4_8575_4c9a_dc6f_dcb1_5f0f_5186_a13anat) by (nonlinear_arith);
        lemma_table_row(
            bit,
            0xfffc_b933_bd6f_ad37_aa2d_162d_1a59_4001nat,
            0xfff9_7272_373d_4132_59a4_6990_580e_213anat,
            0xfff6_2bbb_6d45_8ec3_c792_1063_91dc_463enat,
            0x8ed4_8575_4c9a_dc6f_dcb1_5f0f_5186_a13anat,
        );
    } else if bit == 2 {
        assert(0xfff6_2bbb_6d45_8ec3_c792_1063_91dc_463enat
            * 0xfff2_e50f_5f65_6932_ef12_357c_f3c7_fdccnat
            == 0xffe9_114b_9cf2_8d39_4c32_03db_d44e_b085nat
            * 0x1_0000_0000_0000_0000_0000_0000_0000_0000nat
            + 0x5b26_0887_34c1_a2f1_b70a_cb6e_6125_3f68nat) by (nonlinear_arith);
        lemma_table_row(
            bit,
            0xfff6_2bbb_6d45_8ec3_c792_1063_91dc_463enat,
            0xfff2_e50f_5f65_6932_ef12_357c_f3c7_fdccnat,
            0xffe9_114b_9cf2_8d39_4c32_03db_d44e_b085nat,
            0x5b26_0887_34c1_a2f1_b70a_cb6e_6125_3f68nat,
        );
    } else if bit == 3 {
        assert(0xffe9_114b_9cf2_8d39_4c32_03db_d44e_b085nat
            * 0xffe5_caca_7e10_e4e6_1c36_24ea_a094_1cd0nat
            == 0xffce_de6f_1d8b_e90b_88f3_5042_4e84_e5b7nat
            * 0x1_0000_0000_0000_0000_0000_0000_0000_0000nat
            + 0xbd01_d27c_5d57_3267_e9a5_2738_4821_f810nat) by (nonlinear_arith);
        lemma_table_row(
            bit,
            0xffe9_114b_9cf2_8d39_4c32_03db_d44e_b085nat,
            0xffe5_caca_7e10_e4e6_1c36_24ea_a094_1cd0nat,
            0xffce_de6f_1d8b_e90b_88f3_5042_4e84_e5b7nat,
            0xbd01_d27c_5d57_3267_e9a5_2738_4821_f810nat,
        );
    } else if bit == 4 {
        assert(0xffce_de6f_1d8b_e90b_88f3_5042_4e84_e5b7nat
            * 0xffcb_9843_d60f_6159_c9db_5883_5c92_6644nat
            == 0xff9a_80c1_ada7_480b_1daa_871d_7c4d_9b36nat
            * 0x1_0000_0000_0000_0000_0000_0000_0000_0000nat
            + 0xa179_667c_2d3f_9fd4_fc29_bbe3_9531_ee9cnat) by (nonlinear_arith);
        lemma_table_row(
            bit,
            0xffce_de6f_1d8b_e90b_88f3_5042_4e84_e5b7nat,
            0xffcb_9843_d60f_6159_c9db_5883_5c92_6644nat,
            0xff9a_80c1_ada7_480b_1daa_871d_7c4d_9b36nat,
            0xa179_667c_2d3f_9fd4_fc29_bbe3_9531_ee9cnat,
        );
    } else if bit == 5 {
        assert(0xff9a_80c1_ada7_480b_1daa_871d_7c4d_9b36nat
            * 0xff97_3b41_fa98_c081_472e_6896_dfb2_54c0nat
            == 0xff31_e58d_5a53_c84f_c142_023e_c1b1_dfd7nat
            * 0x1_0000_0000_0000_0000_0000_0000_0000_0000nat
            + 0x60f_946f_c0d4_9251_103d_ecb4_a6ae_2080nat) by (nonlinear_arith);
        lemma_table_row(
            bit,
            0xff9a_80c1_ada7_480b_1daa_871d_7c4d_9b36nat,
            0xff97_3b41_fa98_c081_472e_6896_dfb2_54c0nat,
            0xff31_e58d_5a53_c84f_c142_023e_c1b1_dfd7nat,
            0x60f_946f_c0d4_9251_103d_ecb4_a6ae_2080nat,
        );
    } else if bit == 6 {
        assert(0xff31_e58d_5a53_c84f_c142_023e_c1b1_dfd7nat
            * 0xff2e_a164_66c9_6a38_43ec_78b3_26b5_2861nat
            == 0xfe61_2f81_83b1_ea21_b72f_b71b_0354_2ae4nat
            * 0x1_0000_0000_0000_0000_0000_0000_0000_0000nat
            + 0x669_5432_c846_e3af_e0fc_4d5d_5c62_6877nat) by (nonlinear_arith);
        lemma_table_row(
            bit,
            0xff31_e58d_5a53_c84f_c142_023e_c1b1_dfd7nat,
            0xff2e_a164_66c9_6a38_43ec_78b3_26b5_2861nat,
            0xfe61_2f81_83b1_ea21_b72f_b71b_0354_2ae4nat,
            0x669_5432_c846_e3af_e0fc_4d5d_5c62_6877nat,
        );
    } else if bit == 7 {
        assert(0xfe61_2f81_83b1_ea21_b72f_b71b_0354_2ae4nat
            * 0xfe5d_ee04_6a99_a2a8_11c4_61f1_969c_3053nat
            == 0xfcc1_c2f3_8053_6bc6_7ee1_ff56_4d10_80b2nat
            * 0x1_0000_0000_0000_0000_0000_0000_0000_0000nat
            + 0x8d69_8796_7d4e_ff3f_c043_8b71_9744_a7ecnat) by (nonlinear_arith);
        lemma_table_row(
            bit,
            0xfe61_2f81_83b1_ea21_b72f_b71b_0354_2ae4nat,
            0xfe5d_ee04_6a99_a2a8_11c4_61f1_969c_3053nat,
            0xfcc1_c2f3_8053_6bc6_7ee1_ff56_4d10_80b2nat,
            0x8d69_8796_7d4e_ff3f_c043_8b71_9744_a7ecnat,
        );
    } else if bit == 8 {
        assert(0xfcc1_c2f3_8053_6bc6_7ee1_ff56_4d10_80b2nat
            * 0xfcbe_86c7_900a_88ae_dcff_c83b_479a_a3a4nat
            == 0xf98a_d8c8_d7ec_c0a3_f8a4_2c97_24cf_fb6anat
            * 0x1_0000_0000_0000_0000_0000_0000_0000_0000nat
            + 0xe2ca_af31_d0f5_afd5_884c_2eff_a997_c808nat) by (nonlinear_arith);
        lemma_table_row(
            bit,
            0xfcc1_c2f3_8053_6bc6_7ee1_ff56_4d10_80b2nat,
            0xfcbe_86c7_900a_88ae_dcff_c83b_479a_a3a4nat,
            0xf98a_d8c8_d7ec_c0a3_f8a4_2c97_24cf_fb6anat,
            0xe2ca_af31_d0f5_afd5_884c_2eff_a997_c808nat,
        );
    } else if bit == 9 {
        assert(0xf98a_d8c8_d7ec_c0a3_f8a4_2c97_24cf_fb6anat
            * 0xf987_a725_3ac4_1317_6f2b_074c_f781_5e54nat
            == 0xf33c_4801_89b4_1523_5ad1_1942_7d89_a1f6nat
            * 0x1_0000_0000_0000_0000_0000_0000_0000_0000nat
            + 0x80b0_c092_a3c1_4d32_f958_e2f5_68f9_6ac8nat) by (nonlinear_arith);
        lemma_table_row(
            bit,
            0xf98a_d8c8_d7ec_c0a3_f8a4_2c97_24cf_fb6anat,
            0xf987_a725_3ac4_1317_6f2b_074c_f781_5e54nat,
            0xf33c_4801_89b4_1523_5ad1_1942_7d89_a1f6nat,
            0x80b0_c092_a3c1_4d32_f958_e2f5_68f9_6ac8nat,
        );
    } else if bit == 10 {
        assert(0xf33c_4801_89b4_1523_5ad1_1942_7d89_a1f6nat
            * 0xf339_2b08_22b7_0005_940c_7a39_8e4b_70f3nat
            == 0xe718_89a8_5903_fd03_cb7c_c40b_df37_1a9cnat
            * 0x1_0000_0000_0000_0000_0000_0000_0000_0000nat
            + 0x6373_d8a0_b1bf_0d15_5201_7bf8_4792_5c82nat) by (nonlinear_arith);
        lemma_table_row(
            bit,
            0xf33c_4801_89b4_1523_5ad1_1942_7d89_a1f6nat,
            0xf339_2b08_22b7_0005_940c_7a39_8e4b_70f3nat,
            0xe718_89a8_5903_fd03_cb7c_c40b_df37_1a9cnat,
            0x6373_d8a0_b1bf_0d15_5201_7bf8_4792_5c82nat,
        );
    } else if bit == 11 {
        assert(0xe718_89a8_5903_fd03_cb7c_c40b_df37_1a9cnat
            * 0xe715_9475_a2c2_9b74_43b2_9c7f_a6e8_89d9nat
            == 0xd09a_9f3e_93db_5812_d482_0c2f_c67a_3e3anat
            * 0x1_0000_0000_0000_0000_0000_0000_0000_0000nat
            + 0x17a8_6762_2281_712f_4431_d119_f853_0a3cnat) by (nonlinear_arith);
        lemma_table_row(
            bit,
            0xe718_89a8_5903_fd03_cb7c_c40b_df37_1a9cnat,
            0xe715_9475_a2c2_9b74_43b2_9c7f_a6e8_89d9nat,
            0xd09a_9f3e_93db_5812_d482_0c2f_c67a_3e3anat,
            0x17a8_6762_2281_712f_4431_d119_f853_0a3cnat,
        );
    } else if bit == 12 {
        assert(0xd09a_9f3e_93db_5812_d482_0c2f_c67a_3e3anat
            * 0xd097_f3bd_fd20_22b8_845a_d8f7_92aa_5825nat
            == 0xa9f9_7334_5b9e_647c_4163_af91_d00b_255fnat
            * 0x1_0000_0000_0000_0000_0000_0000_0000_0000nat
            + 0x49d9_2887_aaf2_cb64_2ebe_adc2_1b92_ee62nat) by (nonlinear_arith);
        lemma_table_row(
            bit,
            0xd09a_9f3e_93db_5812_d482_0c2f_c67a_3e3anat,
            0xd097_f3bd_fd20_22b8_845a_d8f7_92aa_5825nat,
            0xa9f9_7334_5b9e_647c_4163_af91_d00b_255fnat,
            0x49d9_2887_aaf2_cb64_2ebe_adc2_1b92_ee62nat,
        );
    } else if bit == 13 {
        assert(0xa9f9_7334_5b9e_647c_4163_af91_d00b_255fnat
            * 0xa9f7_4646_2d87_0fdf_8a65_dc1f_90e0_61e5nat
            == 0x70d9_db64_85f0_4ddd_567e_07c7_b89f_8e7cnat
            * 0x1_0000_0000_0000_0000_0000_0000_0000_0000nat
            + 0x6275_fc82_87e4_08a6_a240_c68a_7641_6cfbnat) by (nonlinear_arith);
        lemma_table_row(
            bit,
            0xa9f9_7334_5b9e_647c_4163_af91_d00b_255fnat,
            0xa9f7_4646_2d87_0fdf_8a65_dc1f_90e0_61e5nat,
            0x70d9_db64_85f0_4ddd_567e_07c7_b89f_8e7cnat,
            0x6275_fc82_87e4_08a6_a240_c68a_7641_6cfbnat,
        );
    } else if bit == 14 {
        assert(0x70d9_db64_85f0_4ddd_567e_07c7_b89f_8e7cnat
            * 0x70d8_69a1_56d2_a1b8_90bb_3df6_2baf_32f7nat
            == 0x31be_b65d_91af_63ae_717a_760b_e3b3_74dcnat
            * 0x1_0000_0000_0000_0000_0000_0000_0000_0000nat
            + 0x91cf_96a2_529b_b9a5_3182_fceb_868a_b1a4nat) by (nonlinear_arith);
        lemma_table_row(
            bit,
            0x70d9_db64_85f0_4ddd_567e_07c7_b89f_8e7cnat,
            0x70d8_69a1_56d2_a1b8_90bb_3df6_2baf_32f7nat,
            0x31be_b65d_91af_63ae_717a_760b_e3b3_74dcnat,
            0x91cf_96a2_529b_b9a5_3182_fceb_868a_b1a4nat,
        );
    } else if bit == 15 {
        assert(0x31be_b65d_91af_63ae_717a_760b_e3b3_74dcnat
            * 0x31be_135f_97d0_8fd9_8123_1505_542f_cfa6nat
            == 0x9aa_7036_fd23_5542_9c40_30b0_32e1_cf71nat
            * 0x1_0000_0000_0000_0000_0000_0000_0000_0000nat
            + 0x9800_f1f9_302d_7ee8_2eed_2d6a_663f_aaa8nat) by (nonlinear_arith);
        lemma_table_row(
            bit,
            0x31be_b65d_91af_63ae_717a_760b_e3b3_74dcnat,
            0x31be_135f_97d0_8fd9_8123_1505_542f_cfa6nat,
            0x9aa_7036_fd23_5542_9c40_30b0_32e1_cf71nat,
            0x9800_f1f9_302d_7ee8_2eed_2d6a_663f_aaa8nat,
        );
    } else if bit == 16 {
        assert(0x9aa_7036_fd23_5542_9c40_30b0_32e1_cf71nat
            * 0x9aa_508b_5b7a_84e1_c677_de54_f3e9_9bc9nat
            == 0x5d_6c2a_f97a_aa8d_e0e5_a6bf_23f5_e547nat
            * 0x1_0000_0000_0000_0000_0000_0000_0000_0000nat
            + 0x267d_7630_0021_1435_740e_9fa8_bcbe_4ab9nat) by (nonlinear_arith);
        lemma_table_row(
            bit,
            0x9aa_7036_fd23_5542_9c40_30b0_32e1_cf71nat,
            0x9aa_508b_5b7a_84e1_c677_de54_f3e9_9bc9nat,
            0x5d_6c2a_f97a_aa8d_e0e5_a6bf_23f5_e547nat,
            0x267d_7630_0021_1435_740e_9fa8_bcbe_4ab9nat,
        );
    } else if bit == 17 {
        assert(0x5d_6c2a_f97a_aa8d_e0e5_a6bf_23f5_e547nat
            * 0x5d_6af8_dedb_8119_6699_c329_225e_e604nat
            == 0x2217_5538_8a66_58e1_20f4_a3c5_03cfnat
            * 0x1_0000_0000_0000_0000_0000_0000_0000_0000nat
            + 0x409b_9bfa_77c2_25fe_d5d1_ff68_19e7_5f1cnat) by (nonlinear_arith);
        lemma_table_row(
            bit,
            0x5d_6c2a_f97a_aa8d_e0e5_a6bf_23f5_e547nat,
            0x5d_6af8_dedb_8119_6699_c329_225e_e604nat,
            0x2217_5538_8a66_58e1_20f4_a3c5_03cfnat,
            0x409b_9bfa_77c2_25fe_d5d1_ff68_19e7_5f1cnat,
        );
    } else if bit == 18 {
        assert(0x2217_5538_8a66_58e1_20f4_a3c5_03cfnat
            * 0x2216_e584_f5fa_1ea9_2604_1bed_fe98nat
            == 0x48a_25e3_6942_a4fc_0c1f_899fnat
            * 0x1_0000_0000_0000_0000_0000_0000_0000_0000nat
            + 0x8f5e_790b_76e4_9aa3_076b_79c6_1264_a4e8nat) by (nonlinear_arith);
        lemma_table_row(
            bit,
            0x2217_5538_8a66_58e1_20f4_a3c5_03cfnat,
            0x2216_e584_f5fa_1ea9_2604_1bed_fe98nat,
            0x48a_25e3_6942_a4fc_0c1f_899fnat,
            0x8f5e_790b_76e4_9aa3_076b_79c6_1264_a4e8nat,
        );
    } else if bit == 19 {
        assert(0x48a_25e3_6942_a4fc_0c1f_899fnat
            * 0x48a_1703_91f7_dc42_444e_8fa2nat
            == 0x14_9b78_73d8_4d48nat
            * 0x1_0000_0000_0000_0000_0000_0000_0000_0000nat
            + 0x5b16_33bb_fe4c_607a_2028_636d_7446_e79enat) by (nonlinear_arith);
        lemma_table_row(
            bit,
            0x48a_25e3_6942_a4fc_0c1f_899fnat,
            0x48a_1703_91f7_dc42_444e_8fa2nat,
            0x14_9b78_73d8_4d48nat,
            0x5b16_33bb_fe4c_607a_2028_636d_7446_e79enat,
        );
    }
}

/// The Q128 ratio left after the factors that the bits of `rest` select, from
/// bit number `bit` upwards, have been multiplied into `acc`, each product
/// rounded down.
pub open spec fn ratio_steps(acc: nat, rest: nat, bit: nat) -> nat
    decreases 20 - bit,
{
    if bit >= 20 || rest == 0 {
        acc
    } else {
        ratio_steps(
            if rest % 2 == 1 {
                acc * tick_factor(bit) / pow2_128()
            } else {
                acc
            },
            rest / 2,
            bit + 1,
        )
    }
}

/// `1.0001^(-abs_tick / 2)` in Q128.
pub open spec fn ratio_at(abs_tick: nat) -> nat {
    ratio_steps(pow2_128(), abs_tick, 0)
}

/// The absolute value of a tick.
pub open spec fn tick_magnitude(tick: int) -> nat {
    if tick < 0 {
        (-tick) as nat
    } else {
        tick as nat
    }
}

/// The square-root price of a tick in Q64.96: `1.0001^(tick / 2) * 2^96`,
/// rounded up from Q128. A tick outside `MIN_TICK..=MAX_TICK` has the price
/// one.
pub open spec fn sqrt_price_at_tick(tick: int) -> nat {
    if tick < MIN_TICK || tick > MAX_TICK {
        q96_value()
    } else {
        let r = ratio_at(tick_magnitude(tick));
        let ratio = if tick > 0 {
            ((modulus() - 1) / (r as int)) as nat
        } else {
            r
        };
        ceil_div(ratio, 0x1_0000_0000)
    }
}

/// One factor keeps the ratio between the least ratio of its bit and one.
proof fn lemma_factor_step(acc: nat, bit: nat)
    requires
        bit < 20,
        low_bits_ratio(bit) <= acc <= pow2_128(),
    ensures
        acc * tick_factor(bit) < modulus(),
        low_bits_ratio(bit + 1) <= acc * tick_factor(bit) / pow2_128() <= acc,
{
    lemma_tables(bit);
    let f = tick_factor(bit);
    let p = pow2_128();
    assert(acc * f < modulus()) by (nonlinear_arith)
        requires
            acc <= p,
            f < p,
            modulus() == p * p,
    ;
    assert(low_bits_ratio(bit + 1) * p <= acc * f) by (nonlinear_arith)
        requires
            low_bits_ratio(bit) * f >= low_bits_ratio(bit + 1) * p,
            low_bits_ratio(bit) <= acc,
    ;
    lemma_ceil_at_least(acc * f, p, low_bits_ratio(bit + 1));
    lemma_floor_bounds(acc * f, p);
    assert(acc * f / p <= acc) by (nonlinear_arith)
        requires
            (acc * f / p) * p <= acc * f,
            f < p,
            p > 0,
    ;
}

/// The least ratio only falls as more bits are set.
proof fn lemma_low_bits_ratio_falls(i: nat, j: nat)
    requires
        i <= j <= 20,
    ensures
        0 < low_bits_ratio(j) <= low_bits_ratio(i) <= pow2_128(),
    decreases j - i,
{
    if i < j {
        lemma_tables(i);
        lemma_low_bits_ratio_falls(i + 1, j);
    } else if i < 20 {
        lemma_tables(i);
    }
}

/// The ratio of a tick lies between the least ratio of all bits and one.
pub proof fn lemma_ratio_bounds(acc: nat, rest: nat, bit: nat)
    requires
        bit <= 20,
        low_bits_ratio(bit) <= acc <= pow2_128(),
    ensures
        0 < low_bits_ratio(20) <= ratio_steps(acc, rest, bit) <= pow2_128(),
    decreases 20 - bit,
{
    lemma_low_bits_ratio_falls(bit, 20);
    if bit < 20 && rest != 0 {
        lemma_factor_step(acc, bit);
        lemma_tables(bit);
        if rest % 2 == 1 {
            lemma_ratio_bounds(acc * tick_factor(bit) / pow2_128(), rest / 2, bit + 1);
        } else {
            lemma_ratio_bounds(acc, rest / 2, bit + 1);
        }
    }
}

/// Every tick has a price above zero.
pub proof fn lemma_sqrt_price_positive(tick: int)
    ensures
        sqrt_price_at_tick(tick) > 0,
{
    if MIN_TICK <= tick <= MAX_TICK {
        let r = ratio_at(tick_magnitude(tick));
        lemma_ratio_bounds(pow2_128(), tick_magnitude(tick), 0);
        if tick > 0 {
            lemma_ceil_at_least((modulus() - 1) as nat, r, 1);
        }
    }
}

#[verifier::rlimit(50)]
fn ratio_for(abs_tick: u32) -> (r: U256)
    requires
        abs_tick <= MAX_TICK,
    ensures
        r@ == ratio_at(abs_tick as nat),
        low_bits_ratio(20) <= r@ <= pow2_128(),
{
    let scale = U256 { w3: 0, w2: 1, w1: 0, w0: 0 };
    let mut acc = scale;
    let mut rest: u32 = abs_tick;
    let mut bit: u32 = 0;
    while bit < 20 && rest != 0
        invariant
            bit <= 20,
            scale@ == pow2_128(),
            ratio_steps(acc@, rest as nat, bit as nat) == ratio_at(abs_tick as nat),
            low_bits_ratio(bit as nat) <= acc@ <= pow2_128(),
        decreases 20 - bit,
    {
        proof {
            lemma_factor_step(acc@, bit as nat);
            lemma_tables(bit as nat);
        }
        if rest % 2 == 1 {
            let factor = tick_factor_at(bit);
            acc = acc.wrapping_mul(factor).div(scale);
        }
        rest = rest / 2;
        bit = bit + 1;
    }
    proof {
        lemma_low_bits_ratio_falls(bit as nat, 20);
    }
    acc
}

/// The square-root price of `tick` in Q64.96.
pub fn tick_to_sqrt_price_x96(tick: i32) -> (r: U256)
    ensures
        r@ == sqrt_price_at_tick(tick as int),
        r@ > 0,
{
    if tick < MIN_TICK || tick > MAX_TICK {
        return crate::utils::math::q96();
    }
    let abs_tick: u32 = if tick < 0 {
        (-tick) as u32
    } else {
        tick as u32
    };
    let r = ratio_for(abs_tick);
    let ratio = if tick > 0 {
        let all_ones = U256 {
            w3: 0xffff_ffff_ffff_ffff,
            w2: 0xffff_ffff_ffff_ffff,
            w1: 0xffff_ffff_ffff_ffff,
            w0: 0xffff_ffff_ffff_ffff,
        };
        proof {
            lemma_ceil_at_least((modulus() - 1) as nat, r@, 1);
        }
        all_ones.div(r)
    } else {
        r
    };
    ratio.div_ceil(U256::from_u64(0x1_0000_0000))
}

/// The tick that bisection between the ticks `low` and `high` settles on:
/// the interval is halved, keeping the half whose lower end has a price of at
/// most `price`, until its ends are neighbours.
pub open spec fn bisect_tick(price: nat, low: int, high: int) -> int
    decreases high - low,
{
    if high - low <= 1 {
        low
    } else {
        let middle = low + (high - low) / 2;
        if sqrt_price_at_tick(middle) <= price {
            bisect_tick(price, middle, high)
        } else {
            bisect_tick(price, low, middle)
        }
    }
}

/// The tick of a square-root price.
///
/// The price zero has the tick 0; a price below that of `MIN_TICK` has
/// `MIN_TICK`, and one from the price of `MAX_TICK` upwards has `MAX_TICK`.
/// Any other price has the tick that bisection over all ticks settles on.
pub open spec fn tick_at_sqrt_price(price: nat) -> int {
    if price == 0 {
        0
    } else if price < sqrt_price_at_tick(MIN_TICK as int) {
        MIN_TICK as int
    } else if price >= sqrt_price_at_tick(MAX_TICK as int) {
        MAX_TICK as int
    } else {
        bisect_tick(price, MIN_TICK as int, MAX_TICK as int)
    }
}

/// Bisection ends on a tick whose price is at most `price`, while the price
/// of the next tick is above it.
pub proof fn lemma_bisect_brackets(price: nat, low: int, high: int)
    requires
        low < high,
        sqrt_price_at_tick(low) <= price < sqrt_price_at_tick(high),
    ensures
        low <= bisect_tick(price, low, high) < high,
        sqrt_price_at_tick(bisect_tick(price, low, high)) <= price < sqrt_price_at_tick(
            bisect_tick(price, low, high) + 1,
        ),
    decreases high - low,
{
    if high - low > 1 {
        let middle = low + (high - low) / 2;
        if sqrt_price_at_tick(middle) <= price {
            lemma_bisect_brackets(price, middle, high);
        } else {
            lemma_bisect_brackets(price, low, middle);
        }
    }
}

/// The tick of a square-root price, see [`tick_at_sqrt_price`].
pub fn sqrt_price_x96_to_tick(sqrt_price_x96: U256) -> (t: i32)
    ensures
        t == tick_at_sqrt_price(sqrt_price_x96@),
        MIN_TICK <= t <= MAX_TICK,
{
    if sqrt_price_x96.is_zero() {
        return 0;
    }
    if sqrt_price_x96.lt(&tick_to_sqrt_price_x96(MIN_TICK)) {
        return MIN_TICK;
    }
    if tick_to_sqrt_price_x96(MAX_TICK).le(&sqrt_price_x96) {
        return MAX_TICK;
    }
    let mut low: i32 = MIN_TICK;
    let mut high: i32 = MAX_TICK;
    while high - low > 1
        invariant
            MIN_TICK <= low < high <= MAX_TICK,
            bisect_tick(sqrt_price_x96@, low as int, high as int) == bisect_tick(
                sqrt_price_x96@,
                MIN_TICK as int,
                MAX_TICK as int,
            ),
        decreases high - low,
    {
        let middle: i32 = low + (high - low) / 2;
        if tick_to_sqrt_price_x96(middle).le(&sqrt_price_x96) {
            low = middle;
        } else {
            high = middle;
        }
    }
    low
}

/// Whether `a` lies above `b` by one part in 32768 of `b`, less `slack`.
pub open spec fn ahead(a: nat, b: nat, slack: nat) -> bool {
    a * GAP_SCALE + slack * GAP_SCALE >= b * (GAP_SCALE + 1)
}

/// The number of values that the bits from `bit` to the twentieth can spell.
pub open spec fn bit_span(bit: nat) -> nat
    decreases 20 - bit,
{
    if bit >= 20 {
        1
    } else {
        2 * bit_span(bit + 1)
    }
}

/// One factor keeps a ratio ahead of another, at the price of one unit of
/// slack.
#[verifier::rlimit(50)]
proof fn lemma_ahead_step(a: nat, b: nat, slack: nat, factor: nat)
    requires
        ahead(a, b, slack),
        0 < factor <= pow2_128(),
    ensures
        ahead(a * factor / pow2_128(), b * factor / pow2_128(), slack + 1),
{
    let p = pow2_128();
    let g = GAP_SCALE as nat;
    let a2 = a * factor / p;
    let b2 = b * factor / p;
    lemma_floor_bounds(a * factor, p);
    lemma_floor_bounds(b * factor, p);
    assert(a2 * g + (slack + 1) * g >= b2 * (g + 1)) by (nonlinear_arith)
        requires
            a * g + slack * g >= b * (g + 1),
            a * factor < a2 * p + p,
            b2 * p <= b * factor,
            0 < factor <= p,
            g == 32768,
    {
        assert((a * g + slack * g) * factor >= b * (g + 1) * factor);
        assert(slack * g * factor <= slack * g * p);
        assert((a2 * p + p) * g + slack * g * p >= b * factor * (g + 1));
        assert(b * factor * (g + 1) >= b2 * p * (g + 1));
        assert((a2 * g + (slack + 1) * g) * p >= b2 * (g + 1) * p);
    }
}

/// Slack may grow.
proof fn lemma_ahead_slack(a: nat, b: nat, slack: nat, more: nat)
    requires
        ahead(a, b, slack),
        slack <= more,
    ensures
        ahead(a, b, more),
{
    assert(slack * GAP_SCALE <= more * GAP_SCALE) by (nonlinear_arith)
        requires
            slack <= more,
    ;
}

/// The same factors keep a ratio ahead of another, with one unit of slack
/// for every bit.
proof fn lemma_ahead_steps(a: nat, b: nat, slack: nat, rest: nat, bit: nat)
    requires
        ahead(a, b, slack),
        bit <= 20,
    ensures
        ahead(
            ratio_steps(a, rest, bit),
            ratio_steps(b, rest, bit),
            (slack + 20 - bit) as nat,
        ),
    decreases 20 - bit,
{
    if bit >= 20 || rest == 0 {
        lemma_ahead_slack(a, b, slack, (slack + 20 - bit) as nat);
    } else {
        lemma_tables(bit);
        if rest % 2 == 1 {
            lemma_ahead_step(a, b, slack, tick_factor(bit));
            lemma_ahead_steps(
                a * tick_factor(bit) / pow2_128(),
                b * tick_factor(bit) / pow2_128(),
                slack + 1,
                rest / 2,
                bit + 1,
            );
        } else {
            lemma_ahead_slack(a, b, slack, slack + 1);
            lemma_ahead_steps(a, b, slack + 1, rest / 2, bit + 1);
        }
    }
}

/// The ratio of a number whose bits below `bit` are all set stays ahead of
/// the ratio of the next number.
#[verifier::rlimit(50)]
proof fn lemma_next_ratio(rest: nat, bit: nat)
    requires
        bit < 20,
        rest + 1 < bit_span(bit),
    ensures
        ahead(
            ratio_steps(low_bits_ratio(bit), rest, bit),
            ratio_steps(pow2_128(), rest + 1, bit),
            20,
        ),
    decreases 20 - bit,
{
    let p = pow2_128();
    let low = low_bits_ratio(bit);
    let factor = tick_factor(bit);
    lemma_tables(bit);
    reveal_with_fuel(bit_span, 2);
    assert(p * factor / p == factor) by (nonlinear_arith)
        requires
            p > 0,
    ;
    if rest % 2 == 0 {
        // The next number sets this bit; above it both numbers agree.
        assert((rest + 1) / 2 == rest / 2);
        assert(ahead(low, factor, 0));
        lemma_ahead_steps(low, factor, 0, rest / 2, bit + 1);
        lemma_ahead_slack(
            ratio_steps(low, rest / 2, bit + 1),
            ratio_steps(factor, rest / 2, bit + 1),
            (19 - bit) as nat,
            20,
        );
        if rest == 0 {
            assert(ratio_steps(low, rest, bit) == low);
            assert(ratio_steps(low, 0, bit + 1) == low);
        }
    } else {
        // This bit is set and the next number clears it; the carry goes on.
        assert((rest + 1) / 2 == rest / 2 + 1);
        assert(bit + 1 < 20) by {
            if bit + 1 >= 20 {
                assert(bit_span(bit) == 2);
            }
        }
        lemma_next_ratio(rest / 2, bit + 1);
    }
}

/// The ratio falls from one tick to the next by more than 2^32.
proof fn lemma_ratio_falls(n: nat)
    requires
        n < MAX_TICK,
    ensures
        ahead(ratio_at(n), ratio_at(n + 1), 20),
        ratio_at(n) >= ratio_at(n + 1) + 0x1_0000_0000,
        0 < low_bits_ratio(20) <= ratio_at(n + 1),
        ratio_at(n) <= pow2_128(),
{
    assert(bit_span(0) == 1048576) by {
        reveal_with_fuel(bit_span, 21);
    }
    lemma_next_ratio(n, 0);
    lemma_ratio_bounds(pow2_128(), n + 1, 0);
    lemma_ratio_bounds(pow2_128(), n, 0);
    lemma_tables(0);
    let a = ratio_at(n);
    let b = ratio_at(n + 1);
    assert(a >= b + 0x1_0000_0000) by (nonlinear_arith)
        requires
            a * 32768 + 20 * 32768 >= b * 32769,
            b >= 0x10_0000_0000_0000,
    ;
}

/// The Q128 value whose rounding is the price of a tick: the ratio itself
/// for a tick that is not positive, its inverse for a positive one.
pub open spec fn price_q128(tick: int) -> nat {
    let r = ratio_at(tick_magnitude(tick));
    if tick > 0 {
        ((modulus() - 1) / (r as int)) as nat
    } else {
        r
    }
}

/// A higher tick has a higher price: from each tick to the next the price
/// rises.
#[verifier::rlimit(50)]
pub proof fn lemma_price_rises(tick: int)
    requires
        MIN_TICK <= tick < MAX_TICK,
    ensures
        sqrt_price_at_tick(tick) < sqrt_price_at_tick(tick + 1),
{
    let shift = 0x1_0000_0000nat;
    let x = (modulus() - 1) as nat;
    let lower = price_q128(tick);
    let upper = price_q128(tick + 1);
    assert(sqrt_price_at_tick(tick) == ceil_div(lower, shift));
    assert(sqrt_price_at_tick(tick + 1) == ceil_div(upper, shift));
    if tick < 0 {
        let n = (-(tick + 1)) as nat;
        lemma_ratio_falls(n);
        assert(tick_magnitude(tick) == n + 1);
        assert(tick_magnitude(tick + 1) == n);
        assert(upper >= lower + shift);
    } else {
        let n = tick as nat;
        lemma_ratio_falls(n);
        let a = ratio_at(n);
        let b = ratio_at(n + 1);
        let ya = x / a;
        let yb = x / b;
        lemma_floor_bounds(x, a);
        lemma_floor_bounds(x, b);
        assert(ya >= 0x8000_0000_0000_0000_0000_0000_0000_0000) by {
            lemma_ceil_at_least(x, a, 0x8000_0000_0000_0000_0000_0000_0000_0000);
        }
        assert((ya + shift) * b <= x) by (nonlinear_arith)
            requires
                ya * a <= x,
                a * 32768 + 20 * 32768 >= b * 32769,
                b >= 0x10_0000_0000_0000,
                ya >= 0x8000_0000_0000_0000_0000_0000_0000_0000,
                shift == 0x1_0000_0000,
        {
            assert(65536 * (a - b) >= b);
            assert(ya * (a - b) * 65536 >= ya * b);
            assert(ya * b >= 0x8000_0000_0000_0000_0000_0000_0000_0000 * b);
            assert(ya * (a - b) >= shift * b);
            assert((ya + shift) * b == ya * a - ya * (a - b) + shift * b);
        }
        lemma_ceil_at_least(x, b, ya + shift);
        assert(yb >= ya + shift);
        if tick == 0 {
            assert(a == pow2_128()) by {
                assert(ratio_at(0) == pow2_128());
            }
            assert(lower == pow2_128());
            assert(0xffff_ffff_ffff_ffff_ffff_ffff_ffff_ffff_ffff_ffff_ffff_ffff_ffff_ffff_ffff_ffffnat
                == 0xffff_ffff_ffff_ffff_ffff_ffff_ffff_ffffnat
                * 0x1_0000_0000_0000_0000_0000_0000_0000_0000nat
                + 0xffff_ffff_ffff_ffff_ffff_ffff_ffff_ffffnat) by (nonlinear_arith);
            vstd::arithmetic::div_mod::lemma_fundamental_div_mod_converse(
                x as int,
                pow2_128() as int,
                pow2_128() - 1,
                pow2_128() - 1,
            );
            assert(ya == pow2_128() - 1);
        }
        assert(upper == yb);
    }
    lemma_rounding_keeps_order(lower, upper);
}

/// Rounding up to Q96 keeps two Q128 values apart that are 2^32 apart, or
/// of which the lower one needs no rounding.
proof fn lemma_rounding_keeps_order(lower: nat, upper: nat)
    requires
        upper >= lower + 0x1_0000_0000 || (lower % 0x1_0000_0000 == 0 && upper > lower),
    ensures
        ceil_div(lower, 0x1_0000_0000) < ceil_div(upper, 0x1_0000_0000),
{
}

/// A higher tick has a higher price.
pub proof fn lemma_price_ordered(low: int, high: int)
    requires
        MIN_TICK <= low < high <= MAX_TICK,
    ensures
        sqrt_price_at_tick(low) < sqrt_price_at_tick(high),
    decreases high - low,
{
    lemma_price_rises(high - 1);
    if low < high - 1 {
        lemma_price_ordered(low, high - 1);
    }
}

/// The tick of the price of a tick is that tick.
pub proof fn lemma_tick_roundtrip(tick: int)
    requires
        MIN_TICK <= tick <= MAX_TICK,
    ensures
        tick_at_sqrt_price(sqrt_price_at_tick(tick)) == tick,
{
    let price = sqrt_price_at_tick(tick);
    lemma_sqrt_price_positive(tick);
    if tick > MIN_TICK {
        lemma_price_ordered(MIN_TICK as int, tick);
    }
    if tick < MAX_TICK {
        lemma_price_ordered(tick, MAX_TICK as int);
        lemma_bisect_brackets(price, MIN_TICK as int, MAX_TICK as int);
        let found = bisect_tick(price, MIN_TICK as int, MAX_TICK as int);
        if found < tick {
            if found + 1 < tick {
                lemma_price_ordered(found + 1, tick);
            }
        } else if found > tick {
            lemma_price_ordered(tick, found);
        }
    }
}

} // verus!
