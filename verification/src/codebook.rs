//! Reproduction levels of the scalar quantizers.
//!
//! A quantizer of 2, 3, 4, 6 or 8 bits has 2^bits levels, which are Lloyd-Max levels of the
//! standard normal distribution for 2, 3 and 4 bits and evenly spaced for 6 and 8 bits. The
//! levels lie symmetrically around zero, so each table holds the upper half.

use vstd::prelude::*;

use crate::double;

verus! {

/// The positive levels at 2 bits, in increasing order.
pub open spec fn upper_levels_2() -> Seq<u64> {
    seq![
        0x3FDC_FDF3_B645_A1CB, 0x3FF8_28F5_C28F_5C29,
    ]
}

/// The positive levels at 3 bits, in increasing order.
pub open spec fn upper_levels_3() -> Seq<u64> {
    seq![
        0x3FCF_5C28_F5C2_8F5C, 0x3FE8_3126_E978_D4FE, 0x3FF5_8106_24DD_2F1B,
        0x4001_374B_C6A7_EF9E,
    ]
}

/// The positive levels at 4 bits, in increasing order.
pub open spec fn upper_levels_4() -> Seq<u64> {
    seq![
        0x3FC0_A3D7_0A3D_70A4, 0x3FD8_D4FD_F3B6_45A2, 0x3FE5_0624_DD2F_1AA0,
        0x3FEE_24DD_2F1A_9FBE, 0x3FF4_1893_74BC_6A7F, 0x3FF9_E353_F7CE_D917,
        0x4000_8D4F_DF3B_645A, 0x4005_DD2F_1A9F_BE77,
    ]
}

/// The positive levels at 6 bits, in increasing order.
pub open spec fn upper_levels_6() -> Seq<u64> {
    seq![
        0x3FAC_71C8_9A38_250A, 0x3FC5_5558_2129_4574, 0x3FD1_C71D_6063_1727,
        0x3FD8_E38E_B031_8B93, 0x3FE0_0000_0000_0000, 0x3FE3_8E38_A7E7_3A36,
        0x3FE7_1C71_4FCE_746D, 0x3FEA_AAA9_F7B5_AEA3, 0x3FEE_38E2_9F9C_E8D9,
        0x3FF0_E392_E1EF_73C1, 0x3FF2_AAAE_2973_96D1, 0x3FF4_71C9_70F7_B9E0,
        0x3FF6_38E4_B87B_DCF0, 0x3FF8_0000_0000_0000, 0x3FF9_C71B_4784_2310,
        0x3FFB_8E36_8F08_4620, 0x3FFD_5551_D68C_692F, 0x3FFF_1C6D_1E10_8C3F,
        0x4000_71C9_70F7_B9E0, 0x4001_5557_14B9_CB68, 0x4002_38E4_B87B_DCF0,
        0x4003_1C72_5C3D_EE78, 0x4004_0000_0000_0000, 0x4004_E38D_A3C2_1188,
        0x4005_C71B_4784_2310, 0x4006_AAA8_EB46_3498, 0x4007_8E36_8F08_4620,
        0x4008_71C9_70F7_B9E0, 0x4009_5557_14B9_CB68, 0x400A_38E4_B87B_DCF0,
        0x400B_1C72_5C3D_EE78, 0x400C_0000_0000_0000,
    ]
}

/// The positive levels at 8 bits, in increasing order.
pub open spec fn upper_levels_8() -> Seq<u64> {
    seq![
        0x3F90_100F_C295_BC3F, 0x3FA8_1817_F9C6_D5E8, 0x3FB4_1414_0921_66D8,
        0x3FBC_1C1B_BF79_2733, 0x3FC2_1212_513B_5BF7, 0x3FC6_1615_EBFA_8F7E,
        0x3FCA_1A1A_5D79_57DB, 0x3FCE_1E1D_F838_8B62, 0x3FD1_1111_34DB_A9DF,
        0x3FD3_1313_023B_43A3, 0x3FD5_1515_3AFA_A7D1, 0x3FD7_1717_085A_4195,
        0x3FD9_1919_4119_A5C3, 0x3FDB_1B1B_0E79_3F87, 0x3FDD_1D1D_4738_A3B5,
        0x3FDF_1F1F_1498_3D79, 0x3FE0_9090_A6AB_D0D4, 0x3FE1_9191_8D5B_9DB6,
        0x3FE2_9292_A9BB_4FCD, 0x3FE3_9393_906B_1CAF, 0x3FE4_9494_ACCA_CEC6,
        0x3FE5_9595_937A_9BA8, 0x3FE6_9696_AFDA_4DBF, 0x3FE7_9797_968A_1AA1,
        0x3FE8_9898_B2E9_CCB8, 0x3FE9_9999_9999_999A, 0x3FEA_9A9A_8049_667B,
        0x3FEB_9B9B_9CA9_1893, 0x3FEC_9C9C_8358_E574, 0x3FED_9D9D_9FB8_978C,
        0x3FEE_9E9E_8668_646D, 0x3FEF_9F9F_A2C8_1685, 0x3FF0_5050_7A6B_D6E9,
        0x3FF0_D0D0_678C_0054, 0x3FF1_5151_611B_A3CA, 0x3FF1_D1D1_4E3B_CD36,
        0x3FF2_5252_47CB_70AC, 0x3FF2_D2D3_415B_1423, 0x3FF3_5353_2E7B_3D8E,
        0x3FF3_D3D4_280A_E105, 0x3FF4_5454_152B_0A70, 0x3FF4_D4D5_0EBA_ADE6,
        0x3FF5_5554_FBDA_D752, 0x3FF5_D5D5_F56A_7AC8, 0x3FF6_5655_E28A_A433,
        0x3FF6_D6D6_DC1A_47AA, 0x3FF7_5757_D5A9_EB20, 0x3FF7_D7D7_C2CA_148C,
        0x3FF8_5858_BC59_B802, 0x3FF8_D8D8_A979_E16D, 0x3FF9_5959_A309_84E4,
        0x3FF9_D9D9_9029_AE4F, 0x3FFA_5A5A_89B9_51C6, 0x3FFA_DADA_76D9_7B31,
        0x3FFB_5B5B_7069_1EA8, 0x3FFB_DBDB_5D89_4813, 0x3FFC_5C5C_5718_EB89,
        0x3FFC_DCDD_50A8_8F00, 0x3FFD_5D5D_3DC8_B86B, 0x3FFD_DDDE_3758_5BE2,
        0x3FFE_5E5E_2478_854D, 0x3FFE_DEDF_1E08_28C3, 0x3FFF_5F5F_0B28_522F,
        0x3FFF_DFE0_04B7_F5A5, 0x4000_302F_F8EC_0F88, 0x4000_7070_75B3_E143,
        0x4000_B0B0_F27B_B2FF, 0x4000_F0F0_E90B_C7B4, 0x4001_3131_65D3_9970,
        0x4001_7171_5C63_AE25, 0x4001_B1B1_D92B_7FE1, 0x4001_F1F1_CFBB_9496,
        0x4002_3232_4C83_6651, 0x4002_7272_4313_7B07, 0x4002_B2B2_BFDB_4CC2,
        0x4002_F2F2_B66B_6178, 0x4003_3333_3333_3333, 0x4003_7373_AFFB_04EE,
        0x4003_B3B3_A68B_19A4, 0x4003_F3F4_2352_EB5F, 0x4004_3434_19E3_0015,
        0x4004_7474_96AA_D1D0, 0x4004_B4B4_8D3A_E686, 0x4004_F4F5_0A02_B841,
        0x4005_3535_0092_CCF7, 0x4005_7575_7D5A_9EB2, 0x4005_B5B5_73EA_B368,
        0x4005_F5F5_F0B2_8523, 0x4006_3636_6D7A_56DE, 0x4006_7676_640A_6B94,
        0x4006_B6B6_E0D2_3D4F, 0x4006_F6F6_D762_5205, 0x4007_3737_542A_23C0,
        0x4007_7777_4ABA_3876, 0x4007_B7B7_C782_0A31, 0x4007_F7F7_BE12_1EE6,
        0x4008_3838_3AD9_F0A2, 0x4008_7878_B7A1_C25D, 0x4008_B8B8_AE31_D713,
        0x4008_F8F9_2AF9_A8CE, 0x4009_3939_2189_BD84, 0x4009_7979_9E51_8F3F,
        0x4009_B9B9_94E1_A3F4, 0x4009_F9FA_11A9_75B0, 0x400A_3A3A_0839_8A65,
        0x400A_7A7A_8501_5C21, 0x400A_BABA_7B91_70D6, 0x400A_FAFA_F859_4291,
        0x400B_3B3B_7521_144D, 0x400B_7B7B_6BB1_2902, 0x400B_BBBB_E878_FABE,
        0x400B_FBFB_DF09_0F73, 0x400C_3C3C_5BD0_E12F, 0x400C_7C7C_5260_F5E4,
        0x400C_BCBC_CF28_C79F, 0x400C_FCFC_C5B8_DC55, 0x400D_3D3D_4280_AE10,
        0x400D_7D7D_BF48_7FCC, 0x400D_BDBD_B5D8_9481, 0x400D_FDFE_32A0_663C,
        0x400E_3E3E_2930_7AF2, 0x400E_7E7E_A5F8_4CAD, 0x400E_BEBE_9C88_6163,
        0x400E_FEFF_1950_331E, 0x400F_3F3F_0FE0_47D4, 0x400F_7F7F_8CA8_198F,
        0x400F_BFBF_8338_2E45, 0x4010_0000_0000_0000,
    ]
}

/// The positive levels at a bit width, in increasing order; none where there is no table.
pub open spec fn upper_levels(bits: u8) -> Seq<u64> {
    if bits == 2 {
        upper_levels_2()
    } else if bits == 3 {
        upper_levels_3()
    } else if bits == 4 {
        upper_levels_4()
    } else if bits == 6 {
        upper_levels_6()
    } else if bits == 8 {
        upper_levels_8()
    } else {
        Seq::empty()
    }
}

fn upper_half_2() -> (v: Vec<u64>)
    ensures
        v@ == upper_levels_2(),
{
    vec![
        0x3FDC_FDF3_B645_A1CB, 0x3FF8_28F5_C28F_5C29,
    ]
}

fn upper_half_3() -> (v: Vec<u64>)
    ensures
        v@ == upper_levels_3(),
{
    vec![
        0x3FCF_5C28_F5C2_8F5C, 0x3FE8_3126_E978_D4FE, 0x3FF5_8106_24DD_2F1B,
        0x4001_374B_C6A7_EF9E,
    ]
}

fn upper_half_4() -> (v: Vec<u64>)
    ensures
        v@ == upper_levels_4(),
{
    vec![
        0x3FC0_A3D7_0A3D_70A4, 0x3FD8_D4FD_F3B6_45A2, 0x3FE5_0624_DD2F_1AA0,
        0x3FEE_24DD_2F1A_9FBE, 0x3FF4_1893_74BC_6A7F, 0x3FF9_E353_F7CE_D917,
        0x4000_8D4F_DF3B_645A, 0x4005_DD2F_1A9F_BE77,
    ]
}

fn upper_half_6() -> (v: Vec<u64>)
    ensures
        v@ == upper_levels_6(),
{
    vec![
        0x3FAC_71C8_9A38_250A, 0x3FC5_5558_2129_4574, 0x3FD1_C71D_6063_1727,
        0x3FD8_E38E_B031_8B93, 0x3FE0_0000_0000_0000, 0x3FE3_8E38_A7E7_3A36,
        0x3FE7_1C71_4FCE_746D, 0x3FEA_AAA9_F7B5_AEA3, 0x3FEE_38E2_9F9C_E8D9,
        0x3FF0_E392_E1EF_73C1, 0x3FF2_AAAE_2973_96D1, 0x3FF4_71C9_70F7_B9E0,
        0x3FF6_38E4_B87B_DCF0, 0x3FF8_0000_0000_0000, 0x3FF9_C71B_4784_2310,
        0x3FFB_8E36_8F08_4620, 0x3FFD_5551_D68C_692F, 0x3FFF_1C6D_1E10_8C3F,
        0x4000_71C9_70F7_B9E0, 0x4001_5557_14B9_CB68, 0x4002_38E4_B87B_DCF0,
        0x4003_1C72_5C3D_EE78, 0x4004_0000_0000_0000, 0x4004_E38D_A3C2_1188,
        0x4005_C71B_4784_2310, 0x4006_AAA8_EB46_3498, 0x4007_8E36_8F08_4620,
        0x4008_71C9_70F7_B9E0, 0x4009_5557_14B9_CB68, 0x400A_38E4_B87B_DCF0,
        0x400B_1C72_5C3D_EE78, 0x400C_0000_0000_0000,
    ]
}

fn upper_half_8() -> (v: Vec<u64>)
    ensures
        v@ == upper_levels_8(),
{
    vec![
        0x3F90_100F_C295_BC3F, 0x3FA8_1817_F9C6_D5E8, 0x3FB4_1414_0921_66D8,
        0x3FBC_1C1B_BF79_2733, 0x3FC2_1212_513B_5BF7, 0x3FC6_1615_EBFA_8F7E,
        0x3FCA_1A1A_5D79_57DB, 0x3FCE_1E1D_F838_8B62, 0x3FD1_1111_34DB_A9DF,
        0x3FD3_1313_023B_43A3, 0x3FD5_1515_3AFA_A7D1, 0x3FD7_1717_085A_4195,
        0x3FD9_1919_4119_A5C3, 0x3FDB_1B1B_0E79_3F87, 0x3FDD_1D1D_4738_A3B5,
        0x3FDF_1F1F_1498_3D79, 0x3FE0_9090_A6AB_D0D4, 0x3FE1_9191_8D5B_9DB6,
        0x3FE2_9292_A9BB_4FCD, 0x3FE3_9393_906B_1CAF, 0x3FE4_9494_ACCA_CEC6,
        0x3FE5_9595_937A_9BA8, 0x3FE6_9696_AFDA_4DBF, 0x3FE7_9797_968A_1AA1,
        0x3FE8_9898_B2E9_CCB8, 0x3FE9_9999_9999_999A, 0x3FEA_9A9A_8049_667B,
        0x3FEB_9B9B_9CA9_1893, 0x3FEC_9C9C_8358_E574, 0x3FED_9D9D_9FB8_978C,
        0x3FEE_9E9E_8668_646D, 0x3FEF_9F9F_A2C8_1685, 0x3FF0_5050_7A6B_D6E9,
        0x3FF0_D0D0_678C_0054, 0x3FF1_5151_611B_A3CA, 0x3FF1_D1D1_4E3B_CD36,
        0x3FF2_5252_47CB_70AC, 0x3FF2_D2D3_415B_1423, 0x3FF3_5353_2E7B_3D8E,
        0x3FF3_D3D4_280A_E105, 0x3FF4_5454_152B_0A70, 0x3FF4_D4D5_0EBA_ADE6,
        0x3FF5_5554_FBDA_D752, 0x3FF5_D5D5_F56A_7AC8, 0x3FF6_5655_E28A_A433,
        0x3FF6_D6D6_DC1A_47AA, 0x3FF7_5757_D5A9_EB20, 0x3FF7_D7D7_C2CA_148C,
        0x3FF8_5858_BC59_B802, 0x3FF8_D8D8_A979_E16D, 0x3FF9_5959_A309_84E4,
        0x3FF9_D9D9_9029_AE4F, 0x3FFA_5A5A_89B9_51C6, 0x3FFA_DADA_76D9_7B31,
        0x3FFB_5B5B_7069_1EA8, 0x3FFB_DBDB_5D89_4813, 0x3FFC_5C5C_5718_EB89,
        0x3FFC_DCDD_50A8_8F00, 0x3FFD_5D5D_3DC8_B86B, 0x3FFD_DDDE_3758_5BE2,
        0x3FFE_5E5E_2478_854D, 0x3FFE_DEDF_1E08_28C3, 0x3FFF_5F5F_0B28_522F,
        0x3FFF_DFE0_04B7_F5A5, 0x4000_302F_F8EC_0F88, 0x4000_7070_75B3_E143,
        0x4000_B0B0_F27B_B2FF, 0x4000_F0F0_E90B_C7B4, 0x4001_3131_65D3_9970,
        0x4001_7171_5C63_AE25, 0x4001_B1B1_D92B_7FE1, 0x4001_F1F1_CFBB_9496,
        0x4002_3232_4C83_6651, 0x4002_7272_4313_7B07, 0x4002_B2B2_BFDB_4CC2,
        0x4002_F2F2_B66B_6178, 0x4003_3333_3333_3333, 0x4003_7373_AFFB_04EE,
        0x4003_B3B3_A68B_19A4, 0x4003_F3F4_2352_EB5F, 0x4004_3434_19E3_0015,
        0x4004_7474_96AA_D1D0, 0x4004_B4B4_8D3A_E686, 0x4004_F4F5_0A02_B841,
        0x4005_3535_0092_CCF7, 0x4005_7575_7D5A_9EB2, 0x4005_B5B5_73EA_B368,
        0x4005_F5F5_F0B2_8523, 0x4006_3636_6D7A_56DE, 0x4006_7676_640A_6B94,
        0x4006_B6B6_E0D2_3D4F, 0x4006_F6F6_D762_5205, 0x4007_3737_542A_23C0,
        0x4007_7777_4ABA_3876, 0x4007_B7B7_C782_0A31, 0x4007_F7F7_BE12_1EE6,
        0x4008_3838_3AD9_F0A2, 0x4008_7878_B7A1_C25D, 0x4008_B8B8_AE31_D713,
        0x4008_F8F9_2AF9_A8CE, 0x4009_3939_2189_BD84, 0x4009_7979_9E51_8F3F,
        0x4009_B9B9_94E1_A3F4, 0x4009_F9FA_11A9_75B0, 0x400A_3A3A_0839_8A65,
        0x400A_7A7A_8501_5C21, 0x400A_BABA_7B91_70D6, 0x400A_FAFA_F859_4291,
        0x400B_3B3B_7521_144D, 0x400B_7B7B_6BB1_2902, 0x400B_BBBB_E878_FABE,
        0x400B_FBFB_DF09_0F73, 0x400C_3C3C_5BD0_E12F, 0x400C_7C7C_5260_F5E4,
        0x400C_BCBC_CF28_C79F, 0x400C_FCFC_C5B8_DC55, 0x400D_3D3D_4280_AE10,
        0x400D_7D7D_BF48_7FCC, 0x400D_BDBD_B5D8_9481, 0x400D_FDFE_32A0_663C,
        0x400E_3E3E_2930_7AF2, 0x400E_7E7E_A5F8_4CAD, 0x400E_BEBE_9C88_6163,
        0x400E_FEFF_1950_331E, 0x400F_3F3F_0FE0_47D4, 0x400F_7F7F_8CA8_198F,
        0x400F_BFBF_8338_2E45, 0x4010_0000_0000_0000,
    ]
}

/// The bit widths that have a table.
pub open spec fn supported(bits: u8) -> bool {
    bits == 2 || bits == 3 || bits == 4 || bits == 6 || bits == 8
}

/// All levels at a bit width: the positive ones and, before them, their mirror images.
pub open spec fn levels(bits: u8) -> Seq<u64> {
    let upper = upper_levels(bits);
    let half = upper.len() as int;
    Seq::new(
        2 * upper.len(),
        |i: int|
            if i < half {
                double::negated(upper[half - 1 - i])
            } else {
                upper[i - half]
            },
    )
}

/// Whether a bit width has a table of levels.
pub fn is_supported(bits: u8) -> (r: bool)
    ensures
        r == supported(bits),
{
    bits == 2 || bits == 3 || bits == 4 || bits == 6 || bits == 8
}

/// The levels of the quantizer at a bit width, in increasing order.
pub fn get_codebook(bits: u8) -> (v: Vec<u64>)
    requires
        supported(bits),
    ensures
        v@ == levels(bits),
{
    let upper: Vec<u64> = if bits == 2 {
        upper_half_2()
    } else if bits == 3 {
        upper_half_3()
    } else if bits == 4 {
        upper_half_4()
    } else if bits == 6 {
        upper_half_6()
    } else {
        upper_half_8()
    };
    let half: usize = upper.len();
    let mut all: Vec<u64> = Vec::new();
    for i in 0..half
        invariant
            upper@ == upper_levels(bits),
            half == upper@.len(),
            all@ == levels(bits).take(i as int),
    {
        all.push(double::double_neg(upper[half - 1 - i]));
        assert(all@ =~= levels(bits).take(i + 1));
    }
    for i in 0..half
        invariant
            upper@ == upper_levels(bits),
            half == upper@.len(),
            all@ == levels(bits).take(half + i),
    {
        all.push(upper[i]);
        assert(all@ =~= levels(bits).take(half + i + 1));
    }
    assert(all@ =~= levels(bits));
    all
}

/// The first `k` steps of a sequence go upwards.
spec fn rises(s: Seq<u64>, k: nat) -> bool
    decreases k,
{
    k == 0 || (rises(s, (k - 1) as nat) && s[k - 1] < s[k as int])
}

proof fn lemma_rises(s: Seq<u64>, k: nat, i: int, j: int)
    requires
        rises(s, k),
        0 <= i < j <= k,
    ensures
        s[i] < s[j],
    decreases k,
{
    if j < k {
        lemma_rises(s, (k - 1) as nat, i, j);
    } else if i < k - 1 {
        lemma_rises(s, (k - 1) as nat, i, k - 1);
    }
}

/// There are 2^bits levels.
pub proof fn law_codebook_length(bits: u8)
    requires
        supported(bits),
    ensures
        levels(bits).len() == vstd::arithmetic::power2::pow2(bits as nat),
        levels(bits).len() == 1u16 << bits,
{
    vstd::arithmetic::power2::lemma2_to64();
    assert(1u16 << 2u8 == 4 && 1u16 << 3u8 == 8 && 1u16 << 4u8 == 16 && 1u16 << 6u8 == 64 && 1u16
        << 8u8 == 256) by (bit_vector);
}

/// The levels lie symmetrically around zero.
pub proof fn law_codebook_is_symmetric(bits: u8, i: int)
    requires
        0 <= i < levels(bits).len(),
    ensures
        levels(bits)[levels(bits).len() - 1 - i] == double::negated(levels(bits)[i]),
{
    double::law_negation_is_self_inverse(upper_levels(bits)[upper_levels(bits).len() - 1 - i]);
}

proof fn lemma_rises_2()
    ensures
        rises(upper_levels_2(), 1),
{
    reveal_with_fuel(rises, 2);
}

proof fn lemma_rises_3()
    ensures
        rises(upper_levels_3(), 3),
{
    reveal_with_fuel(rises, 4);
}

proof fn lemma_rises_4()
    ensures
        rises(upper_levels_4(), 7),
{
    reveal_with_fuel(rises, 8);
}

proof fn lemma_rises_6()
    ensures
        rises(upper_levels_6(), 31),
{
    reveal_with_fuel(rises, 32);
}

proof fn lemma_rises_8()
    ensures
        rises(upper_levels_8(), 127),
{
    reveal_with_fuel(rises, 33);
    assert(rises(upper_levels_8(), 31));
    assert(rises(upper_levels_8(), 63));
    assert(rises(upper_levels_8(), 95));
}

proof fn lemma_upper_rises(bits: u8)
    requires
        supported(bits),
    ensures
        rises(upper_levels(bits), (upper_levels(bits).len() - 1) as nat),
        upper_levels(bits)[0] > 0,
        upper_levels(bits)[upper_levels(bits).len() - 1] < double::INFINITY,
{
    lemma_rises_2();
    lemma_rises_3();
    lemma_rises_4();
    lemma_rises_6();
    lemma_rises_8();
}

/// The levels are finite and strictly increasing.
pub proof fn law_codebook_is_increasing(bits: u8, i: int, j: int)
    requires
        supported(bits),
        0 <= i < j < levels(bits).len(),
    ensures
        double::less(levels(bits)[i], levels(bits)[j]),
{
    let upper = upper_levels(bits);
    let half = upper.len() as int;
    let k = (half - 1) as nat;
    lemma_upper_rises(bits);
    assert forall|m: int| 0 <= m < half implies 0 < #[trigger] upper[m] < double::INFINITY by {
        if m > 0 {
            lemma_rises(upper, k, 0, m);
        }
        if m < half - 1 {
            lemma_rises(upper, k, m, half - 1);
        }
    }
    if j < half {
        lemma_rises(upper, k, half - 1 - j, half - 1 - i);
        double::lemma_scaled_increases(upper[half - 1 - j] as int, upper[half - 1 - i] as int);
    } else if i < half {
        double::lemma_scaled_increases(0, upper[half - 1 - i] as int);
        double::lemma_scaled_increases(0, upper[j - half] as int);
    } else {
        lemma_rises(upper, k, i - half, j - half);
        double::lemma_scaled_increases(upper[i - half] as int, upper[j - half] as int);
    }
}

} // verus!
