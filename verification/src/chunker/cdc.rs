use vstd::prelude::*;
use vstd::string::StringExecFns;

use crate::chunker::{all_nonempty, chunk_views, concat_chunks, lemma_concat_push, Chunker};
use crate::error::ChunkStoreError;

verus! {

/// CDC chunker parameters (FastCDC v2020).
#[derive(Debug, Clone, Copy)]
pub struct CdcConfig {
    pub min_size: usize,
    pub avg_size: usize,
    pub max_size: usize,
    pub window_size: usize,
}

/// The default parameters: 256 KiB minimum, 4 MiB average, 8 MiB maximum, window 64.
pub open spec fn default_cdc_config() -> CdcConfig {
    CdcConfig { min_size: 262144, avg_size: 4194304, max_size: 8388608, window_size: 64 }
}

impl Default for CdcConfig {
    fn default() -> (c: Self)
        ensures
            c == default_cdc_config(),
    {
        CdcConfig {
            min_size: 256 * 1024,
            avg_size: 4 * 1024 * 1024,
            max_size: 8 * 1024 * 1024,
            window_size: 64,
        }
    }
}

/// The size parameters pass this library's own checks: a positive minimum, and
/// `min_size <= avg_size <= max_size`.
pub open spec fn sizes_ordered(c: CdcConfig) -> bool {
    c.min_size > 0 && c.avg_size >= c.min_size && c.max_size >= c.avg_size
}

/// The size ranges that `fastcdc::v2020::FastCDC` accepts without panicking.
pub open spec fn fastcdc_accepts(min_size: usize, avg_size: usize, max_size: usize) -> bool {
    &&& 64 <= min_size <= 1_048_576
    &&& 256 <= avg_size <= 4_194_304
    &&& 1024 <= max_size <= 16_777_216
}

/// Chunking with this configuration either is refused by this library's own
/// checks or runs FastCDC on sizes it accepts.
pub open spec fn cdc_config_usable(c: CdcConfig) -> bool {
    sizes_ordered(c) ==> fastcdc_accepts(c.min_size, c.avg_size, c.max_size)
}

/// The gear table of FastCDC v2020 (`fastcdc::v2020::GEAR`); the shifted table
/// the chunker also uses holds each entry shifted left by one bit.
#[verifier::opaque]
pub open spec fn fastcdc_gear() -> Seq<u64> {
    seq![
        0x3b5d3c7d207e37dcu64, 0x784d68ba91123086, 0xcd52880f882e7298, 0xeacf8e4e19fdcca7,
        0xc31f385dfbd1632b, 0x1d5f27001e25abe6, 0x83130bde3c9ad991, 0xc4b225676e9b7649,
        0xaa329b29e08eb499, 0xb67fcbd21e577d58, 0x0027baaada2acf6b, 0xe3ef2d5ac73c2226,
        0x0890f24d6ed312b7, 0xa809e036851d7c7e, 0xf0a6fe5e0013d81b, 0x1d026304452cec14,
        0x03864632648e248f, 0xcdaacf3dcd92b9b4, 0xf5e012e63c187856, 0x8862f9d3821c00b6,
        0xa82f7338750f6f8a, 0x1e583dc6c1cb0b6f, 0x7a3145b69743a7f1, 0xabb20fee404807eb,
        0xb14b3cfe07b83a5d, 0xb9dc27898adb9a0f, 0x3703f5e91baa62be, 0xcf0bb866815f7d98,
        0x3d9867c41ea9dcd3, 0x1be1fa65442bf22c, 0x14300da4c55631d9, 0xe698e9cbc6545c99,
        0x4763107ec64e92a5, 0xc65821fc65696a24, 0x76196c064822f0b7, 0x485be841f3525e01,
        0xf652bc9c85974ff5, 0xcad8352face9e3e9, 0x2a6ed1dceb35e98e, 0xc6f483badc11680f,
        0x3cfd8c17e9cf12f1, 0x89b83c5e2ea56471, 0xae665cfd24e392a9, 0xec33c4e504cb8915,
        0x3fb9b15fc9fe7451, 0xd7fd1fd1945f2195, 0x31ade0853443efd8, 0x255efc9863e1e2d2,
        0x10eab6008d5642cf, 0x46f04863257ac804, 0xa52dc42a789a27d3, 0xdaaadf9ce77af565,
        0x6b479cd53d87febb, 0x6309e2d3f93db72f, 0xc5738ffbaa1ff9d6, 0x6bd57f3f25af7968,
        0x67605486d90d0a4a, 0xe14d0b9663bfbdae, 0xb7bbd8d816eb0414, 0xdef8a4f16b35a116,
        0xe7932d85aaaffed6, 0x08161cbae90cfd48, 0x855507beb294f08b, 0x91234ea6ffd399b2,
        0xad70cf4b2435f302, 0xd289a97565bc2d27, 0x8e558437ffca99de, 0x96d2704b7115c040,
        0x0889bbcdfc660e41, 0x5e0d4e67dc92128d, 0x72a9f8917063ed97, 0x438b69d409e016e3,
        0xdf4fed8a5d8a4397, 0x00f41dcf41d403f7, 0x4814eb038e52603f, 0x9dafbacc58e2d651,
        0xfe2f458e4be170af, 0x4457ec414df6a940, 0x06e62f1451123314, 0xbd1014d173ba92cc,
        0xdef318e25ed57760, 0x9fea0de9dfca8525, 0x459de1e76c20624b, 0xaeec189617e2d666,
        0x126a2c06ab5a83cb, 0xb1321532360f6132, 0x65421503dbb40123, 0x2d67c287ea089ab3,
        0x6c93bff5a56bd6b6, 0x4ffb2036cab6d98d, 0xce7b785b1be7ad4f, 0xedb42ef6189fd163,
        0xdc905288703988f6, 0x365f9c1d2c691884, 0xc640583680d99bfe, 0x3cd4624c07593ec6,
        0x7f1ea8d85d7c5805, 0x014842d480b57149, 0x0b649bcb5a828688, 0xbcd5708ed79b18f0,
        0xe987c862fbd2f2f0, 0x982731671f0cd82c, 0xbaf13e8b16d8c063, 0x8ea3109cbd951bba,
        0xd141045bfb385cad, 0x2acbc1a0af1f7d30, 0xe6444d89df03bfdf, 0xa18cc771b8188ff9,
        0x9834429db01c39bb, 0x214add07fe086a1f, 0x8f07c19b1f6b3ff9, 0x56a297b1bf4ffe55,
        0x94d558e493c54fc7, 0x40bfc24c764552cb, 0x931a706f8a8520cb, 0x32229d322935bd52,
        0x2560d0f5dc4fefaf, 0x9dbcc48355969bb6, 0x0fd81c3985c0b56a, 0xe03817e1560f2bda,
        0xc1bb4f81d892b2d5, 0xb0c4864f4e28d2d7, 0x3ecc49f9d9d6c263, 0x51307e99b52ba65e,
        0x8af2b688da84a752, 0xf5d72523b91b20b6, 0x6d95ff1ff4634806, 0x562f21555458339a,
        0xc0ce47f889336346, 0x487823e5089b40d8, 0xe4727c7ebc6d9592, 0x5a8f7277e94970ba,
        0xfca2f406b1c8bb50, 0x5b1f8a95f1791070, 0xd304af9fc9028605, 0x5440ab7fc930e748,
        0x312d25fbca2ab5a1, 0x10f4a4b234a4d575, 0x90301d55047e7473, 0x3b6372886c61591e,
        0x293402b77c444e06, 0x451f34a4d3e97dd7, 0x3158d814d81bc57b, 0x034942425b9bda69,
        0xe2032ff9e532d9bb, 0x62ae066b8b2179e5, 0x9545e10c2f8d71d8, 0x7ff7483eb2d23fc0,
        0x00945fcebdc98d86, 0x8764bbbe99b26ca2, 0x1b1ec62284c0bfc3, 0x58e0fcc4f0aa362b,
        0x5f4abefa878d458d, 0xfd74ac2f9607c519, 0xa4e3fb37df8cbfa9, 0xbf697e43cac574e5,
        0x86f14a3f68f4cd53, 0x24a23d076f1ce522, 0xe725cd8048868cc8, 0xbf3c729eb2464362,
        0xd8f6cd57b3cc1ed8, 0x6329e52425541577, 0x62aa688ad5ae1ac0, 0x0a242566269bf845,
        0x168b1a4753aca74b, 0xf789afefff2e7e3c, 0x6c3362093b6fccdb, 0x4ce8f50bd28c09b2,
        0x006a2db95ae8aa93, 0x975b0d623c3d1a8c, 0x18605d3935338c5b, 0x5bb6f6136cad3c71,
        0x0f53a20701f8d8a6, 0xab8c5ad2e7e93c67, 0x40b5ac5127acaa29, 0x8c7bf63c2075895f,
        0x78bd9f7e014a805c, 0xb2c9e9f4f9c8c032, 0xefd6049827eb91f3, 0x2be459f482c16fbd,
        0xd92ce0c5745aaa8c, 0x0aaa8fb298d965b9, 0x2b37f92c6c803b15, 0x8c54a5e94e0f0e78,
        0x95f9b6e90c0a3032, 0xe7939faa436c7874, 0xd16bfe8f6a8a40c9, 0x44982b86263fd2fa,
        0xe285fb39f984e583, 0x779a8df72d7619d3, 0xf2d79a8de8d5dd1e, 0xd1037354d66684e2,
        0x004c82a4e668a8e5, 0x31d40a7668b044e6, 0xd70578538bd02c11, 0xdb45431078c5f482,
        0x977121bb7f6a51ad, 0x73d5ccbd34eff8dd, 0xe437a07d356e17cd, 0x47b2782043c95627,
        0x9fb251413e41d49a, 0xccd70b60652513d3, 0x1c95b31e8a1b49b2, 0xcae73dfd1bcb4c1b,
        0x34d98331b1f5b70f, 0x784e39f22338d92f, 0x18613d4a064df420, 0xf1d8dae25f0bcebe,
        0x33f77c15ae855efc, 0x3c88b3b912eb109c, 0x956a2ec96bafeea5, 0x1aa005b5e0ad0e87,
        0x5500d70527c4bb8e, 0xe36c57196421cc44, 0x13c4d286cc36ee39, 0x5654a23d818b2a81,
        0x77b1dc13d161abdc, 0x734f44de5f8d5eb5, 0x60717e174a6c89a2, 0xd47d9649266a211e,
        0x5b13a4322bb69e90, 0xf7669609f8b5fc3c, 0x21e6ac55bedcdac9, 0x9b56b62b61166dea,
        0xf48f66b939797e9c, 0x35f332f9c0e6ae9a, 0xcc733f6a9a878db0, 0x3da161e41cc108c2,
        0xb7d74ae535914d51, 0x4d493b0b11d36469, 0xce264d1dfba9741a, 0xa9d1f2dc7436dc06,
        0x70738016604c2a27, 0x231d36e96e93f3d5, 0x7666881197838d19, 0x4a2a83090aaad40c,
        0xf1e761591668b35d, 0x7363236497f730a7, 0x301080e37379dd4d, 0x502dea2971827042,
        0xc2c5eb858f32625f, 0x786afb9edfafbdff, 0xdaee0d868490b2a4, 0x617366b3268609f6,
        0xae0e35a0fe46173e, 0xd1a07de93e824f11, 0x079b8b115ea4cca8, 0x93a99274558faebb,
        0xfb1e6e22e08a03b3, 0xea635fdba3698dd0, 0xcf53659328503a5c, 0xcde3b31e6fd5d780,
        0x8e3e4221d3614413, 0xef14d0d86bf1a22c, 0xe1d830d3f16c5ddb, 0xaabd2b2a451504e1,
    ]
}

/// The cut masks of FastCDC v2020 by number of bits (`fastcdc::v2020::MASKS`).
#[verifier::opaque]
pub open spec fn fastcdc_masks() -> Seq<u64> {
    seq![0u64, 0, 0, 0, 0, 0x0000000001804110, 0x0000000001803110, 0x0000000018035100, 0x0000001800035300, 0x0000019000353000, 0x0000590003530000, 0x0000d90003530000, 0x0000d90103530000, 0x0000d90303530000, 0x0000d90313530000, 0x0000d90f03530000, 0x0000d90303537000, 0x0000d90703537000, 0x0000d90707537000, 0x0000d91707537000, 0x0000d91747537000, 0x0000d91767537000, 0x0000d93767537000, 0x0000d93777537000, 0x0000d93777577000, 0x0000db3777577000]
}

/// `2` to the power `k`.
pub open spec fn pow2n(k: nat) -> nat
    decreases k,
{
    if k == 0 {
        1
    } else {
        2 * pow2n((k - 1) as nat)
    }
}

/// The least `b >= from` with `v * v < 2^(2b+1)`: for `v >= 1` and `from == 0`
/// this is `log2(v)` rounded to the nearest integer.
pub open spec fn log2_round_from(v: nat, b: nat) -> nat
    decreases 64 - b,
{
    if b >= 64 || v * v < pow2n(2 * b + 1) {
        b
    } else {
        log2_round_from(v, b + 1)
    }
}

/// Addition modulo 2^64.
pub open spec fn add64(x: u64, y: u64) -> u64 {
    ((x + y) % 0x1_0000_0000_0000_0000) as u64
}

/// One phase of the cut search of FastCDC v2020 (`cut_gear`): from pair `index`
/// up to pair `stop`, the gear hash takes in two bytes per step and a cut is
/// found after the first byte whose hash clears `mask` (the first byte of a
/// pair is tested with the mask and hash both shifted one bit left). The
/// result says whether a cut was found, the hash, and the cut position (or the
/// pair where the phase stopped).
pub open spec fn gear_scan(src: Seq<u8>, index: nat, stop: nat, hash: u64, mask: u64) -> (bool, u64, nat)
    decreases stop - index,
{
    if index >= stop {
        (false, hash, index)
    } else {
        let a = 2 * index;
        let h1 = add64(hash << 2u64, fastcdc_gear()[src[a as int] as int] << 1u64);
        if h1 & (mask << 1u64) == 0 {
            (true, h1, a)
        } else {
            let h2 = add64(h1, fastcdc_gear()[src[(a + 1) as int] as int]);
            if h2 & mask == 0 {
                (true, h2, a + 1)
            } else {
                gear_scan(src, index + 1, stop, h2, mask)
            }
        }
    }
}

/// The length of the first chunk FastCDC v2020 cuts from `src`: all of it up to
/// `min`; otherwise the first cut that the small-chunk mask `ms` finds between
/// `min` and the average, else the first the large-chunk mask `ml` finds up to
/// `max` (or the end), else `max` (or the end).
pub open spec fn fastcdc_cut(src: Seq<u8>, min: nat, avg: nat, max: nat, ms: u64, ml: u64) -> nat {
    let len = src.len();
    if len <= min {
        len
    } else {
        let remaining = if len > max {
            max
        } else {
            len
        };
        let center = if len > max {
            avg
        } else if len < avg {
            len
        } else {
            avg
        };
        let p1 = gear_scan(src, min / 2, center / 2, 0, ms);
        if p1.0 {
            p1.2
        } else {
            let p2 = gear_scan(src, p1.2, remaining / 2, p1.1, ml);
            if p2.0 {
                p2.2
            } else {
                remaining
            }
        }
    }
}

/// The chunks FastCDC v2020 cuts from `data` from offset `start` on.
pub open spec fn fastcdc_spans_from(
    data: Seq<u8>,
    start: nat,
    min: nat,
    avg: nat,
    max: nat,
    ms: u64,
    ml: u64,
) -> Seq<(usize, usize)>
    decreases data.len() - start,
{
    if start >= data.len() {
        Seq::empty()
    } else {
        let c = fastcdc_cut(data.subrange(start as int, data.len() as int), min, avg, max, ms, ml);
        if c == 0 || start + c > data.len() {
            Seq::empty()
        } else {
            seq![(start as usize, c as usize)] + fastcdc_spans_from(data, start + c, min, avg, max, ms, ml)
        }
    }
}

/// The cut points (offset, length) that FastCDC v2020 with normalization level 1
/// finds in `data` for the given sizes: the masks are those for one bit more and
/// one bit fewer than `log2(avg_size)` rounded.
pub open spec fn fastcdc_spans(
    data: Seq<u8>,
    min_size: usize,
    avg_size: usize,
    max_size: usize,
) -> Seq<(usize, usize)> {
    let bits = log2_round_from(avg_size as nat, 0);
    fastcdc_spans_from(
        data,
        0,
        min_size as nat,
        avg_size as nat,
        max_size as nat,
        fastcdc_masks()[(bits + 1) as int],
        fastcdc_masks()[bits - 1],
    )
}

/// Where one phase of the cut search stops: a found cut lies in a pair from
/// `index` on and before `stop`; otherwise the search ends at `stop` (or at
/// `index` if that is already past it).
pub proof fn lemma_gear_scan_bounds(src: Seq<u8>, index: nat, stop: nat, hash: u64, mask: u64)
    ensures
        ({
            let r = gear_scan(src, index, stop, hash, mask);
            &&& r.0 ==> index <= r.2 / 2 < stop && 2 * index <= r.2
            &&& !r.0 ==> r.2 == if index >= stop { index } else { stop }
        }),
    decreases stop - index,
{
    if index < stop {
        lemma_gear_scan_bounds(src, index + 1, stop, add64(
            add64(hash << 2u64, fastcdc_gear()[src[(2 * index) as int] as int] << 1u64),
            fastcdc_gear()[src[(2 * index + 1) as int] as int],
        ), mask);
    }
}

/// The cut search reads only the bytes of the pairs it visits: two inputs that
/// agree on them give the same result.
pub proof fn lemma_gear_scan_agree(s1: Seq<u8>, s2: Seq<u8>, index: nat, stop: nat, hash: u64, mask: u64)
    requires
        forall|k: int| 0 <= k < 2 * stop ==> s1[k] == s2[k],
    ensures
        gear_scan(s1, index, stop, hash, mask) == gear_scan(s2, index, stop, hash, mask),
    decreases stop - index,
{
    if index < stop {
        let a = 2 * index;
        assert(s1[a as int] == s2[a as int]);
        assert(s1[(a + 1) as int] == s2[(a + 1) as int]);
        let h1 = add64(hash << 2u64, fastcdc_gear()[s1[a as int] as int] << 1u64);
        let h2 = add64(h1, fastcdc_gear()[s1[(a + 1) as int] as int]);
        lemma_gear_scan_agree(s1, s2, index + 1, stop, h2, mask);
    }
}

/// A cut found before an earlier stop is found the same way with that stop.
pub proof fn lemma_gear_scan_shorter(src: Seq<u8>, index: nat, stop: nat, longer: nat, hash: u64, mask: u64)
    requires
        stop <= longer,
        gear_scan(src, index, longer, hash, mask).0,
        gear_scan(src, index, longer, hash, mask).2 / 2 < stop,
    ensures
        gear_scan(src, index, stop, hash, mask) == gear_scan(src, index, longer, hash, mask),
    decreases longer - index,
{
    lemma_gear_scan_bounds(src, index, longer, hash, mask);
    if index < longer {
        let a = 2 * index;
        let h1 = add64(hash << 2u64, fastcdc_gear()[src[a as int] as int] << 1u64);
        let h2 = add64(h1, fastcdc_gear()[src[(a + 1) as int] as int]);
        if !(h1 & (mask << 1u64) == 0) && !(h2 & mask == 0) {
            lemma_gear_scan_shorter(src, index + 1, stop, longer, h2, mask);
        }
    }
}

/// Content-defined cutting: bytes appended after the first cut do not move it.
/// If FastCDC cuts the first chunk of `x + e` at least two bytes before the end
/// of `x`, and `x` is longer than the minimum and at least the average size, it
/// cuts `x` alone at the same place.
pub proof fn lemma_first_cut_local(x: Seq<u8>, e: Seq<u8>, min: nat, avg: nat, max: nat, ms: u64, ml: u64)
    requires
        min <= avg <= max,
        min < x.len(),
        avg <= x.len(),
        fastcdc_cut(x + e, min, avg, max, ms, ml) + 2 <= x.len(),
    ensures
        fastcdc_cut(x, min, avg, max, ms, ml) == fastcdc_cut(x + e, min, avg, max, ms, ml),
{
    let y = x + e;
    let lx = x.len();
    let ly = y.len();
    let rem_x: nat = if lx > max { max } else { lx };
    let rem_y: nat = if ly > max { max } else { ly };
    assert forall|k: int| 0 <= k < lx implies x[k] == y[k] by {}
    assert(avg / 2 * 2 <= lx);
    lemma_gear_scan_agree(x, y, min / 2, avg / 2, 0, ms);
    let p1 = gear_scan(x, min / 2, avg / 2, 0, ms);
    lemma_gear_scan_bounds(x, min / 2, avg / 2, 0, ms);
    if !p1.0 {
        let j = p1.2;
        let q = gear_scan(y, j, rem_y / 2, p1.1, ml);
        lemma_gear_scan_bounds(y, j, rem_y / 2, p1.1, ml);
        if rem_x == rem_y {
            assert(rem_x / 2 * 2 <= lx);
            lemma_gear_scan_agree(x, y, j, rem_x / 2, p1.1, ml);
        } else {
            assert(rem_x == lx && lx <= max);
            assert(q.0);
            assert(q.2 / 2 < lx / 2);
            lemma_gear_scan_shorter(y, j, lx / 2, rem_y / 2, p1.1, ml);
            assert(lx / 2 * 2 <= lx);
            lemma_gear_scan_agree(x, y, j, lx / 2, p1.1, ml);
        }
    }
}

/// The chunks of `data` from FastCDC v2020 begin with a chunk at offset 0 whose
/// length is the first cut (for nonempty data).
pub proof fn lemma_first_span(data: Seq<u8>, min_size: usize, avg_size: usize, max_size: usize)
    requires
        fastcdc_accepts(min_size, avg_size, max_size),
        min_size <= avg_size <= max_size,
        data.len() > 0,
    ensures
        ({
            let bits = log2_round_from(avg_size as nat, 0);
            let c = fastcdc_cut(
                data,
                min_size as nat,
                avg_size as nat,
                max_size as nat,
                fastcdc_masks()[(bits + 1) as int],
                fastcdc_masks()[bits - 1],
            );
            &&& 0 < c <= data.len()
            &&& fastcdc_spans(data, min_size, avg_size, max_size).len() > 0
            &&& fastcdc_spans(data, min_size, avg_size, max_size)[0] == (0usize, c as usize)
        }),
{
    let bits = log2_round_from(avg_size as nat, 0);
    let ms = fastcdc_masks()[(bits + 1) as int];
    let ml = fastcdc_masks()[bits - 1];
    let (mn, av, mx) = (min_size as nat, avg_size as nat, max_size as nat);
    let len = data.len();
    assert(data.subrange(0, len as int) =~= data);
    if len > mn {
        let remaining: nat = if len > mx { mx } else { len };
        let center: nat = if len > mx { av } else if len < av { len } else { av };
        lemma_gear_scan_bounds(data, mn / 2, center / 2, 0, ms);
        let p1 = gear_scan(data, mn / 2, center / 2, 0, ms);
        lemma_gear_scan_bounds(data, p1.2, remaining / 2, p1.1, ml);
    }
}

/// Content-defined chunking, over all inputs and accepted sizes: bytes appended
/// after FastCDC's first cut in `x` do not move that cut. Whenever the first
/// chunk of `x + e` ends at least two bytes before the end of `x`, and `x` is
/// longer than the minimum and at least the average size, the first chunk of
/// `x` alone is the same chunk.
pub proof fn lemma_first_chunk_local(x: Seq<u8>, e: Seq<u8>, min_size: usize, avg_size: usize, max_size: usize)
    requires
        fastcdc_accepts(min_size, avg_size, max_size),
        min_size <= avg_size <= max_size,
        min_size < x.len(),
        avg_size <= x.len(),
        x.len() + e.len() <= usize::MAX,
        fastcdc_spans(x + e, min_size, avg_size, max_size)[0].1 + 2 <= x.len(),
    ensures
        fastcdc_spans(x, min_size, avg_size, max_size).len() > 0,
        fastcdc_spans(x, min_size, avg_size, max_size)[0] == fastcdc_spans(x + e, min_size, avg_size, max_size)[0],
{
    let bits = log2_round_from(avg_size as nat, 0);
    let ms = fastcdc_masks()[(bits + 1) as int];
    let ml = fastcdc_masks()[bits - 1];
    lemma_first_span(x, min_size, avg_size, max_size);
    lemma_first_span(x + e, min_size, avg_size, max_size);
    lemma_first_cut_local(x, e, min_size as nat, avg_size as nat, max_size as nat, ms, ml);
}

/// The spans moved `k` bytes further on.
pub open spec fn spans_shift(spans: Seq<(usize, usize)>, k: nat) -> Seq<(usize, usize)> {
    spans.map_values(|s: (usize, usize)| ((s.0 + k) as usize, s.1))
}

/// Each span that the cutting from `start` on yields lies within `data`, from
/// `start` on.
proof fn lemma_spans_from_within(data: Seq<u8>, start: nat, min: nat, avg: nat, max: nat, ms: u64, ml: u64)
    requires
        data.len() <= usize::MAX,
    ensures
        forall|i: int|
            0 <= i < fastcdc_spans_from(data, start, min, avg, max, ms, ml).len() ==> {
                let s = #[trigger] fastcdc_spans_from(data, start, min, avg, max, ms, ml)[i];
                start <= s.0 && s.0 + s.1 <= data.len()
            },
    decreases data.len() - start,
{
    if start < data.len() {
        let c = fastcdc_cut(data.subrange(start as int, data.len() as int), min, avg, max, ms, ml);
        if c != 0 && start + c <= data.len() {
            lemma_spans_from_within(data, start + c, min, avg, max, ms, ml);
            let rest = fastcdc_spans_from(data, start + c, min, avg, max, ms, ml);
            let all = fastcdc_spans_from(data, start, min, avg, max, ms, ml);
            assert(all == seq![(start as usize, c as usize)] + rest);
            assert forall|i: int| 0 <= i < all.len() implies {
                let s = #[trigger] all[i];
                start <= s.0 && s.0 + s.1 <= data.len()
            } by {
                if i > 0 {
                    assert(all[i] == rest[i - 1]);
                }
            }
        }
    }
}

/// The cutting from `start` on sees only the bytes from `start` on: after
/// dropping the first `k` bytes it finds the same spans, `k` bytes earlier.
proof fn lemma_spans_from_skip(data: Seq<u8>, k: nat, start: nat, min: nat, avg: nat, max: nat, ms: u64, ml: u64)
    requires
        k <= start,
        k <= data.len(),
        data.len() <= usize::MAX,
    ensures
        fastcdc_spans_from(data, start, min, avg, max, ms, ml) == spans_shift(
            fastcdc_spans_from(data.skip(k as int), (start - k) as nat, min, avg, max, ms, ml),
            k,
        ),
    decreases data.len() - start,
{
    let t = data.skip(k as int);
    let st = (start - k) as nat;
    if start < data.len() {
        assert(data.subrange(start as int, data.len() as int) =~= t.subrange(st as int, t.len() as int));
        let c = fastcdc_cut(data.subrange(start as int, data.len() as int), min, avg, max, ms, ml);
        if c != 0 && start + c <= data.len() {
            lemma_spans_from_skip(data, k, start + c, min, avg, max, ms, ml);
            let rest = fastcdc_spans_from(t, st + c, min, avg, max, ms, ml);
            assert(spans_shift(seq![(st as usize, c as usize)] + rest, k) =~= seq![(start as usize, c as usize)]
                + spans_shift(rest, k));
        } else {
            assert(spans_shift(Seq::<(usize, usize)>::empty(), k) =~= Seq::<(usize, usize)>::empty());
        }
    } else {
        assert(spans_shift(Seq::<(usize, usize)>::empty(), k) =~= Seq::<(usize, usize)>::empty());
    }
}

/// Chunking starts afresh at every cut: whenever FastCDC's first chunk of
/// `a + s` is exactly `a`, the chunks that follow are exactly the chunks of `s`
/// on its own.
pub proof fn lemma_chunks_resume(a: Seq<u8>, s: Seq<u8>, min_size: usize, avg_size: usize, max_size: usize)
    requires
        fastcdc_accepts(min_size, avg_size, max_size),
        min_size <= avg_size <= max_size,
        a.len() > 0,
        a.len() + s.len() <= usize::MAX,
        fastcdc_spans(a + s, min_size, avg_size, max_size)[0].1 == a.len(),
    ensures
        span_pieces(a + s, fastcdc_spans(a + s, min_size, avg_size, max_size)) == seq![a] + span_pieces(
            s,
            fastcdc_spans(s, min_size, avg_size, max_size),
        ),
{
    let d = a + s;
    let bits = log2_round_from(avg_size as nat, 0);
    let ms = fastcdc_masks()[(bits + 1) as int];
    let ml = fastcdc_masks()[bits - 1];
    let (mn, av, mx) = (min_size as nat, avg_size as nat, max_size as nat);
    lemma_first_span(d, min_size, avg_size, max_size);
    let c = fastcdc_cut(d, mn, av, mx, ms, ml);
    assert(d.subrange(0, d.len() as int) =~= d);
    assert(c == a.len());
    let rest = fastcdc_spans_from(d, c, mn, av, mx, ms, ml);
    assert(fastcdc_spans(d, min_size, avg_size, max_size) == seq![(0usize, c as usize)] + rest);
    assert(d.skip(a.len() as int) =~= s);
    lemma_spans_from_skip(d, a.len(), a.len(), mn, av, mx, ms, ml);
    let ss = fastcdc_spans(s, min_size, avg_size, max_size);
    assert(rest == spans_shift(ss, a.len()));
    lemma_spans_from_within(s, 0, mn, av, mx, ms, ml);
    let lhs = span_pieces(d, seq![(0usize, c as usize)] + rest);
    let rhs = seq![a] + span_pieces(s, ss);
    assert(lhs.len() == rhs.len());
    assert forall|i: int| 0 <= i < lhs.len() implies lhs[i] == rhs[i] by {
        if i == 0 {
            assert(d.subrange(0, a.len() as int) =~= a);
        } else {
            let sp = ss[i - 1];
            assert(rest[i - 1] == ((sp.0 + a.len()) as usize, sp.1));
            assert(d.subrange(sp.0 + a.len(), sp.0 + a.len() + sp.1) =~= s.subrange(sp.0 as int, sp.0 + sp.1));
        }
    }
    assert(lhs =~= rhs);
}

/// What content-defined chunking is for: two inputs that differ only before a
/// cut share every chunk after it. Whenever the first chunk of `a + s` is `a`
/// and the first chunk of `b + s` is `b`, all their later chunks are the same.
pub proof fn lemma_shared_tail_chunks(
    a: Seq<u8>,
    b: Seq<u8>,
    s: Seq<u8>,
    min_size: usize,
    avg_size: usize,
    max_size: usize,
)
    requires
        fastcdc_accepts(min_size, avg_size, max_size),
        min_size <= avg_size <= max_size,
        a.len() > 0,
        b.len() > 0,
        a.len() + s.len() <= usize::MAX,
        b.len() + s.len() <= usize::MAX,
        fastcdc_spans(a + s, min_size, avg_size, max_size)[0].1 == a.len(),
        fastcdc_spans(b + s, min_size, avg_size, max_size)[0].1 == b.len(),
    ensures
        span_pieces(a + s, fastcdc_spans(a + s, min_size, avg_size, max_size)).skip(1) == span_pieces(
            b + s,
            fastcdc_spans(b + s, min_size, avg_size, max_size),
        ).skip(1),
{
    lemma_chunks_resume(a, s, min_size, avg_size, max_size);
    lemma_chunks_resume(b, s, min_size, avg_size, max_size);
    let t = span_pieces(s, fastcdc_spans(s, min_size, avg_size, max_size));
    assert((seq![a] + t).skip(1) =~= t);
    assert((seq![b] + t).skip(1) =~= t);
}

/// The sum of the span lengths.
pub open spec fn spans_total(spans: Seq<(usize, usize)>) -> nat
    decreases spans.len(),
{
    if spans.len() == 0 {
        0
    } else {
        spans_total(spans.drop_last()) + spans.last().1 as nat
    }
}

/// The spans are nonempty, each starts where the previous one ended, the first
/// starts at 0 and together they cover exactly `len` bytes.
pub open spec fn spans_tile(spans: Seq<(usize, usize)>, len: nat) -> bool {
    &&& forall|i: int| 0 <= i < spans.len() ==> #[trigger] spans[i].1 > 0
    &&& forall|i: int| 0 <= i < spans.len() ==> #[trigger] spans[i].0 == spans_total(spans.take(i))
    &&& spans_total(spans) == len
}

/// The pieces of `data` that the spans select.
pub open spec fn span_pieces(data: Seq<u8>, spans: Seq<(usize, usize)>) -> Seq<Seq<u8>> {
    spans.map_values(|s: (usize, usize)| data.subrange(s.0 as int, s.0 + s.1))
}

/// Runs `fastcdc::v2020::FastCDC::with_level(.., Normalization::Level1)` over `data`
/// and collects the offset and length of every chunk it yields. The contract claims
/// that these are the cut points of the v2020 algorithm as its source defines
/// them ([`fastcdc_spans`], transcribed from `cut_gear` and the iterator), and
/// what the iterator's source shows:
/// the chunks are nonempty and laid end to end from offset 0 over all of `data`,
/// and none is longer than `max_size`. The sizes must be in order: with an
/// average above the maximum the cutting loop can read past the end of `data`.
#[verifier::external_body]
fn fastcdc_cut_points(data: &[u8], min_size: usize, avg_size: usize, max_size: usize) -> (spans:
    Vec<(usize, usize)>)
    requires
        fastcdc_accepts(min_size, avg_size, max_size),
        min_size <= avg_size <= max_size,
    ensures
        spans@ == fastcdc_spans(data@, min_size, avg_size, max_size),
        spans_tile(spans@, data@.len()),
        forall|i: int| 0 <= i < spans@.len() ==> #[trigger] spans@[i].1 <= max_size,
{
    fastcdc::v2020::FastCDC::with_level(
        data,
        min_size as u32,
        avg_size as u32,
        max_size as u32,
        fastcdc::v2020::Normalization::Level1,
    ).map(|c| (c.offset, c.length)).collect()
}

proof fn lemma_spans_total_take(spans: Seq<(usize, usize)>, i: int)
    requires
        0 <= i < spans.len(),
    ensures
        spans_total(spans.take(i + 1)) == spans_total(spans.take(i)) + spans[i].1,
{
    assert(spans.take(i + 1).drop_last() =~= spans.take(i));
}

proof fn lemma_spans_total_prefix_le(spans: Seq<(usize, usize)>, i: int)
    requires
        0 <= i <= spans.len(),
    ensures
        spans_total(spans.take(i)) <= spans_total(spans),
    decreases spans.len() - i,
{
    if i == spans.len() {
        assert(spans.take(i) =~= spans);
    } else {
        lemma_spans_total_take(spans, i);
        lemma_spans_total_prefix_le(spans, i + 1);
    }
}

/// Cut `data` into the pieces that `spans` select, in order.
pub fn split_at_spans(data: &[u8], spans: &[(usize, usize)]) -> (chunks: Vec<Vec<u8>>)
    requires
        spans_tile(spans@, data@.len()),
    ensures
        chunk_views(chunks@) == span_pieces(data@, spans@),
        concat_chunks(chunks@) == data@,
        all_nonempty(chunks@),
{
    let mut chunks: Vec<Vec<u8>> = Vec::new();
    let n = spans.len();
    let dlen = data.len();
    let mut i: usize = 0;
    while i < n
        invariant
            n == spans@.len(),
            dlen == data@.len(),
            i <= n,
            spans_tile(spans@, data@.len()),
            chunk_views(chunks@) == span_pieces(data@, spans@.take(i as int)),
            concat_chunks(chunks@) == data@.take(spans_total(spans@.take(i as int)) as int),
            all_nonempty(chunks@),
        decreases n - i,
    {
        let (off, len) = spans[i];
        proof {
            lemma_spans_total_take(spans@, i as int);
            lemma_spans_total_prefix_le(spans@, i + 1);
            assert(off == spans_total(spans@.take(i as int)));
            assert(off + len <= dlen);
        }
        let piece = vstd::slice::slice_to_vec(vstd::slice::slice_subrange(data, off, off + len));
        proof {
            lemma_concat_push(chunks@, piece);
            assert(span_pieces(data@, spans@.take(i + 1)) =~= span_pieces(data@, spans@.take(
                i as int,
            )).push(piece@));
            assert(data@.take(off + len) =~= data@.take(off as int) + piece@);
        }
        chunks.push(piece);
        proof {
            assert(chunk_views(chunks@) =~= chunk_views(chunks@.drop_last()).push(piece@));
            assert(chunks@.drop_last() =~= chunks@.take(i as int));
        }
        i = i + 1;
    }
    proof {
        assert(spans@.take(n as int) =~= spans@);
        assert(data@.take(data@.len() as int) =~= data@);
    }
    chunks
}

/// Chunk `data` with FastCDC after checking the size parameters.
fn chunk_bytes(data: &[u8], config: CdcConfig) -> (r: Result<Vec<Vec<u8>>, ChunkStoreError>)
    requires
        cdc_config_usable(config),
    ensures
        r is Err <==> !sizes_ordered(config),
        r matches Err(e) ==> e is InvalidArgument,
        r matches Ok(chunks) ==> {
            &&& chunk_views(chunks@) == span_pieces(
                data@,
                fastcdc_spans(data@, config.min_size, config.avg_size, config.max_size),
            )
            &&& concat_chunks(chunks@) == data@
            &&& all_nonempty(chunks@)
            &&& forall|i: int| 0 <= i < chunks@.len() ==> #[trigger] chunks@[i]@.len() <= config.max_size
        },
{
    if config.min_size == 0 || config.avg_size < config.min_size {
        return Err(ChunkStoreError::invalid_argument(String::from_str("invalid CDC size parameters")));
    }
    if config.max_size < config.avg_size {
        return Err(ChunkStoreError::invalid_argument(String::from_str("max_size must be >= avg_size")));
    }
    let spans = fastcdc_cut_points(data, config.min_size, config.avg_size, config.max_size);
    let chunks = split_at_spans(data, spans.as_slice());
    proof {
        assert forall|i: int| 0 <= i < chunks@.len() implies #[trigger] chunks@[i]@.len() <= config.max_size by {
            assert(chunk_views(chunks@)[i] == chunks@[i]@);
            lemma_spans_total_take(spans@, i);
            lemma_spans_total_prefix_le(spans@, i + 1);
            assert(spans@[i].0 == spans_total(spans@.take(i)));
            assert(span_pieces(data@, spans@)[i] == data@.subrange(spans@[i].0 as int, spans@[i].0 + spans@[i].1));
            assert(spans@[i].1 <= config.max_size);
        }
    }
    Ok(chunks)
}

/// Content-defined chunker backed by FastCDC v2020.
#[derive(Debug)]
pub struct CdcChunker {
    config: CdcConfig,
    buffer: Vec<u8>,
}

impl CdcChunker {
    /// The configuration this chunker was made with.
    pub closed spec fn spec_config(&self) -> CdcConfig {
        self.config
    }

    pub fn new(config: CdcConfig) -> (r: Result<Self, ChunkStoreError>)
        ensures
            r is Err <==> config.window_size == 0,
            r matches Err(e) ==> e is InvalidArgument,
            r matches Ok(c) ==> c.spec_config() == config && c.pending().len() == 0,
    {
        if config.window_size == 0 {
            return Err(ChunkStoreError::invalid_argument(String::from_str("window_size must be > 0")));
        }
        Ok(CdcChunker { config, buffer: Vec::new() })
    }

    pub fn with_defaults() -> (r: Result<Self, ChunkStoreError>)
        ensures
            r matches Ok(c) && c.spec_config() == default_cdc_config() && c.pending().len() == 0
                && c.ready(),
    {
        Self::new(CdcConfig::default())
    }
}

impl Chunker for CdcChunker {
    closed spec fn pending(&self) -> Seq<u8> {
        self.buffer@
    }

    open spec fn chunks_for(&self, data: Seq<u8>) -> Seq<Seq<u8>> {
        let all = self.pending() + data;
        if all.len() == 0 {
            Seq::empty()
        } else {
            span_pieces(
                all,
                fastcdc_spans(all, self.spec_config().min_size, self.spec_config().avg_size, self.spec_config().max_size),
            )
        }
    }

    closed spec fn ready(&self) -> bool {
        cdc_config_usable(self.config)
    }

    open spec fn always_chunks(&self) -> bool {
        sizes_ordered(self.spec_config())
    }

    fn feed(&mut self, data: &[u8]) -> (r: Result<Vec<Vec<u8>>, ChunkStoreError>)
        ensures
            final(self).spec_config() == old(self).spec_config(),
            r matches Ok(chunks) && chunks@.len() == 0,
    {
        let mut incoming = vstd::slice::slice_to_vec(data);
        self.buffer.append(&mut incoming);
        let out: Vec<Vec<u8>> = Vec::new();
        proof {
            assert(concat_chunks(Seq::<Vec<u8>>::empty()) =~= Seq::<u8>::empty());
            assert forall|more: Seq<u8>| #[trigger] old(self).chunks_for(data@ + more) == chunk_views(out@)
                + self.chunks_for(more) by {
                assert(old(self).pending() + (data@ + more) =~= self.pending() + more);
                assert(chunk_views(out@) + self.chunks_for(more) =~= self.chunks_for(more));
            }
        }
        Ok(out)
    }

    fn finish(&mut self) -> (r: Result<Vec<Vec<u8>>, ChunkStoreError>)
        ensures
            final(self).spec_config() == old(self).spec_config(),
            old(self).pending().len() == 0 ==> (r matches Ok(c) && c@.len() == 0),
            old(self).pending().len() > 0 ==> (r is Err <==> !sizes_ordered(old(self).spec_config())),
            r matches Err(e) ==> e is InvalidArgument,
            r matches Ok(chunks) ==> old(self).pending().len() > 0 ==> chunk_views(chunks@)
                == span_pieces(
                old(self).pending(),
                fastcdc_spans(
                    old(self).pending(),
                    old(self).spec_config().min_size,
                    old(self).spec_config().avg_size,
                    old(self).spec_config().max_size,
                ),
            ),
    {
        if self.buffer.len() == 0 {
            proof {
                assert(concat_chunks(Seq::<Vec<u8>>::empty()) =~= Seq::<u8>::empty());
                assert(old(self).pending() + Seq::<u8>::empty() =~= Seq::<u8>::empty());
                assert(chunk_views(Seq::<Vec<u8>>::empty()) =~= Seq::<Seq<u8>>::empty());
            }
            return Ok(Vec::new());
        }
        let mut data: Vec<u8> = Vec::new();
        std::mem::swap(&mut data, &mut self.buffer);
        proof {
            assert(old(self).pending() + Seq::<u8>::empty() =~= data@);
        }
        chunk_bytes(data.as_slice(), self.config)
    }
}

/// The pieces FastCDC cuts `data` into with the default sizes (none for no data).
pub open spec fn cdc_pieces(data: Seq<u8>) -> Seq<Seq<u8>> {
    if data.len() == 0 {
        Seq::empty()
    } else {
        span_pieces(data, fastcdc_spans(data, 262144usize, 4194304usize, 8388608usize))
    }
}

/// Chunk bytes with default CDC settings.
pub fn chunk_cdc(data: &[u8]) -> (r: Result<Vec<Vec<u8>>, ChunkStoreError>)
    ensures
        r matches Ok(chunks) && {
            &&& chunk_views(chunks@) == span_pieces(
                data@,
                fastcdc_spans(data@, 262144usize, 4194304usize, 8388608usize),
            )
            &&& concat_chunks(chunks@) == data@
            &&& all_nonempty(chunks@)
            &&& forall|i: int| 0 <= i < chunks@.len() ==> #[trigger] chunks@[i]@.len() <= 8 * 1024 * 1024
        },
{
    chunk_bytes(data, CdcConfig::default())
}

} // verus!
