//! Bounds on products of integers, used to show that the exact arithmetic
//! of the constructions stays within `i128`.
use vstd::prelude::*;

verus! {

/// 2^6
pub const B6: i128 = 64;

/// 2^5
pub const B5: i128 = 32;

/// 2^8
pub const B8: i128 = 256;

/// 2^9
pub const B9: i128 = 512;

/// 2^10
pub const B10: i128 = 1024;

/// 2^10
pub const P10: i128 = 1024;

/// 2^11
pub const P11: i128 = 2048;

/// 2^12
pub const P12: i128 = 4096;

/// 2^13
pub const P13: i128 = 8192;

/// 2^14
pub const B14: i128 = 16384;

/// 2^15
pub const B15: i128 = 32768;

/// 2^18
pub const P18: i128 = 262144;

/// 2^19
pub const P19: i128 = 524288;

/// 2^20
pub const B20: i128 = 1048576;

/// 2^20
pub const P20: i128 = 1048576;

/// 2^21
pub const P21: i128 = 2097152;

/// 2^22
pub const P22: i128 = 4194304;

/// 2^26
pub const P26: i128 = 67108864;

/// 2^27
pub const P27: i128 = 134217728;

/// 2^28
pub const P28: i128 = 268435456;

/// 2^29
pub const B29: i128 = 536870912;

/// 2^29
pub const P29: i128 = 536870912;

/// 2^30
pub const B30: i128 = 1073741824;

/// 2^30
pub const P30: i128 = 1073741824;

/// 2^31
pub const P31: i128 = 2147483648;

/// 2^32
pub const P32: i128 = 4294967296;

/// 2^36
pub const P36: i128 = 68719476736;

/// 2^37
pub const P37: i128 = 137438953472;

/// 2^38
pub const P38: i128 = 274877906944;

/// 2^39
pub const P39: i128 = 549755813888;

/// 2^40
pub const B40: i128 = 1099511627776;

/// 2^41
pub const P41: i128 = 2199023255552;

/// 2^42
pub const P42: i128 = 4398046511104;

/// 2^43
pub const P43: i128 = 8796093022208;

/// 2^46
pub const P46: i128 = 70368744177664;

/// 2^47
pub const P47: i128 = 140737488355328;

/// 2^50
pub const P50: i128 = 1125899906842624;

/// 2^53
pub const P53: i128 = 9007199254740992;

/// 2^54
pub const P54: i128 = 18014398509481984;

/// 2^55
pub const P55: i128 = 36028797018963968;

/// 2^57
pub const P57: i128 = 144115188075855872;

/// 2^58
pub const P58: i128 = 288230376151711744;

/// 2^59
pub const P59: i128 = 576460752303423488;

/// 2^60
pub const B60: i128 = 1152921504606846976;

/// 2^60
pub const P60: i128 = 1152921504606846976;

/// 2^61
pub const P61: i128 = 2305843009213693952;

/// 2^62
pub const P62: i128 = 4611686018427387904;

/// 2^64
pub const P64: i128 = 18446744073709551616;

/// 2^71
pub const P71: i128 = 2361183241434822606848;

/// 2^80
pub const P80: i128 = 1208925819614629174706176;

/// 2^81
pub const P81: i128 = 2417851639229258349412352;

/// 2^82
pub const P82: i128 = 4835703278458516698824704;

/// 2^83
pub const P83: i128 = 9671406556917033397649408;

/// 2^84
pub const P84: i128 = 19342813113834066795298816;

/// 2^87
pub const P87: i128 = 154742504910672534362390528;

/// 2^88
pub const P88: i128 = 309485009821345068724781056;

/// 2^89
pub const P89: i128 = 618970019642690137449562112;

/// 2^90
pub const P90: i128 = 1237940039285380274899124224;

/// 2^91
pub const P91: i128 = 2475880078570760549798248448;

/// 2^92
pub const P92: i128 = 4951760157141521099596496896;

/// 2^100
pub const P100: i128 = 1267650600228229401496703205376;

/// 2^101
pub const P101: i128 = 2535301200456458802993406410752;

/// 2^103
pub const P103: i128 = 10141204801825835211973625643008;

/// 2^108
pub const P108: i128 = 324518553658426726783156020576256;

/// 2^116
pub const P116: i128 = 83076749736557242056487941267521536;

/// 2^117
pub const P117: i128 = 166153499473114484112975882535043072;

/// 2^118
pub const P118: i128 = 332306998946228968225951765070086144;

/// 2^120
pub const P120: i128 = 1329227995784915872903807060280344576;

/// 2^121
pub const P121: i128 = 2658455991569831745807614120560689152;

/// 2^122
pub const P122: i128 = 5316911983139663491615228241121378304;

/// 2^123
pub const P123: i128 = 10633823966279326983230456482242756608;

/// 2^124
pub const P124: i128 = 21267647932558653966460912964485513216;

/// 2^34
pub const P34: i128 = 17179869184;

/// 2^68
pub const P68: i128 = 295147905179352825856;

/// 2^69
pub const P69: i128 = 590295810358705651712;

/// 2^76
pub const P76: i128 = 75557863725914323419136;

/// 2^77
pub const P77: i128 = 151115727451828646838272;

/// 2^78
pub const P78: i128 = 302231454903657293676544;

/// 2^85
pub const P85: i128 = 38685626227668133590597632;

/// 2^86
pub const P86: i128 = 77371252455336267181195264;

/// 2^119
pub const P119: i128 = 664613997892457936451903530140172288;

/// 2^79
pub const P79: i128 = 604462909807314587353088;

/// Absolute value of an integer.
pub open spec fn abs(a: int) -> int {
    if a < 0 { -a } else { a }
}

/// `|a * b| <= m * n` whenever `|a| <= m` and `|b| <= n`.
pub proof fn lemma_mul_bound(a: int, b: int, m: int, n: int) by (nonlinear_arith)
    requires
        -m <= a <= m,
        -n <= b <= n,
    ensures
        -(m * n) <= a * b <= m * n,
        0 <= m * n,
{
}

/// `|a * b| <= k` whenever `|a| <= m`, `|b| <= n` and `m * n <= k`.
pub proof fn lemma_mul_le(a: int, b: int, m: int, n: int, k: int) by (nonlinear_arith)
    requires
        -m <= a <= m,
        -n <= b <= n,
        m * n <= k,
    ensures
        -k <= a * b <= k,
{
}

/// A product of two positive integers is positive.
pub proof fn lemma_mul_pos(a: int, b: int) by (nonlinear_arith)
    requires
        a > 0,
        b > 0,
    ensures
        a * b > 0,
{
}

/// A product of two nonnegative integers is nonnegative.
pub proof fn lemma_mul_nonneg(a: int, b: int) by (nonlinear_arith)
    requires
        a >= 0,
        b >= 0,
    ensures
        a * b >= 0,
{
}

/// A square is never negative, and is zero only at zero.
pub proof fn lemma_square_nonneg(a: int) by (nonlinear_arith)
    ensures
        a * a >= 0,
        a != 0 ==> a * a > 0,
{
}

} // verus!
