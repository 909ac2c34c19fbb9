use rand::rngs::StdRng;
use rand::seq::SliceRandom;
use rand::{Rng, SeedableRng};
use turbospin::codebook::{get_codebook, is_supported};
use turbospin::compression::{
    buffer_bytes, compress, compressed_size_bytes, resolve_bits, sketch_seed, sketch_size,
    statevector_size_bytes, ResidualSketch,
};
use turbospin::double::{double_abs, double_lt, double_neg, sign_bit};
use turbospin::givens::{
    givens_layer, inverse_schedule, layer_count, ordering_pairs, start_schedule, GivensRotation,
};
use turbospin::packing::{pack_indices, unpack_indices};
use turbospin::quantizer::{
    block_scales, bracket, brackets, dequantize_adaptive, find_quantization_index,
    partition_point, settle, settle_all, Bracket, BLOCK_SIZE,
};
use turbospin::state::{deinterleave_state, interleave_state, power_of_two, State};

fn bits_of(v: &[f64]) -> Vec<u64> {
    v.iter().map(|x| x.to_bits()).collect()
}

#[test]
fn packing_three_bits() {
    // 5, 3, 7 at 3 bits: 101 110 111 -> bits 1,0,1,1,1,0,1,1 | 1
    assert_eq!(pack_indices(&[5, 3, 7], 3), vec![0b1101_1101, 0b1]);
    assert_eq!(unpack_indices(&[0b1101_1101, 0b1], 3, 3), vec![5, 3, 7]);
    // 256 indices at 3 bits take 96 bytes
    let indices: Vec<u8> = (0..256).map(|i| (i % 8) as u8).collect();
    let packed = pack_indices(&indices, 3);
    assert_eq!(packed.len(), 96);
    assert_eq!(unpack_indices(&packed, 3, 256), indices);
}

#[test]
fn packing_round_trips_at_every_width() {
    let mut rng = StdRng::seed_from_u64(7);
    for bits in 1u8..=8 {
        for len in [0usize, 1, 2, 7, 8, 9, 31, 64, 100] {
            let indices: Vec<u8> = (0..len)
                .map(|_| (rng.gen_range(0..(1u32 << bits))) as u8)
                .collect();
            let packed = pack_indices(&indices, bits);
            assert_eq!(packed.len(), (len * bits as usize + 7) / 8);
            assert_eq!(unpack_indices(&packed, bits, len), indices);
            assert_eq!(pack_indices(&unpack_indices(&packed, bits, len), bits), packed);
        }
    }
}

#[test]
fn packing_lets_wide_indices_run_over() {
    // At 4 bits, 0x1F spills its fifth bit into the next index.
    assert_eq!(pack_indices(&[0x1F, 0x02], 4), vec![0x3F]);
    assert_eq!(pack_indices(&[0xFF], 2), vec![0xFF]);
    assert_eq!(pack_indices(&[200, 17], 8), vec![200, 17]);
}

#[test]
fn unpacking_whole_bytes_stops_at_the_end() {
    assert_eq!(unpack_indices(&[1, 2, 3], 8, 2), vec![1, 2]);
    assert_eq!(unpack_indices(&[1, 2, 3], 8, 9), vec![1, 2, 3]);
}

#[test]
fn doubles_compare_as_floats_do() {
    let values = [
        0.0,
        -0.0,
        1.0,
        -1.0,
        1.5,
        -2.25,
        f64::MIN_POSITIVE,
        5e-324,
        -5e-324,
        f64::MAX,
        f64::MIN,
        f64::INFINITY,
        f64::NEG_INFINITY,
        f64::NAN,
        -f64::NAN,
        1e-10,
        std::f64::consts::PI,
    ];
    for &a in &values {
        for &b in &values {
            assert_eq!(double_lt(a.to_bits(), b.to_bits()), a < b, "{} < {}", a, b);
        }
        assert_eq!(sign_bit(a.to_bits()), if a >= 0.0 { 1 } else { -1 });
        assert_eq!(double_abs(a.to_bits()), a.abs().to_bits());
        assert_eq!(double_neg(a.to_bits()), (-a).to_bits());
    }
}

#[test]
fn codebooks_hold_the_published_levels() {
    let four: Vec<f64> = get_codebook(4).iter().map(|&b| f64::from_bits(b)).collect();
    assert_eq!(
        four,
        vec![
            -2.733, -2.069, -1.618, -1.256, -0.942, -0.657, -0.388, -0.130, 0.130, 0.388, 0.657,
            0.942, 1.256, 1.618, 2.069, 2.733,
        ]
    );
    assert_eq!(get_codebook(2), bits_of(&[-1.510, -0.453, 0.453, 1.510]));
    assert_eq!(
        get_codebook(3),
        bits_of(&[-2.152, -1.344, -0.756, -0.245, 0.245, 0.756, 1.344, 2.152])
    );
    let six = get_codebook(6);
    assert_eq!(six.len(), 64);
    assert_eq!(f64::from_bits(six[0]), -3.5);
    assert_eq!(f64::from_bits(six[1]), -3.38889);
    assert_eq!(f64::from_bits(six[31]), -0.0555556);
    assert_eq!(f64::from_bits(six[32]), 0.0555556);
    assert_eq!(f64::from_bits(six[63]), 3.5);
    let eight = get_codebook(8);
    assert_eq!(eight.len(), 256);
    assert_eq!(f64::from_bits(eight[0]), -4.0);
    assert_eq!(f64::from_bits(eight[1]), -3.968627);
    assert_eq!(f64::from_bits(eight[127]), -0.01568627);
    assert_eq!(f64::from_bits(eight[128]), 0.01568627);
    assert_eq!(f64::from_bits(eight[255]), 4.0);
    for bits in [2u8, 3, 4, 6, 8] {
        let book: Vec<f64> = get_codebook(bits).iter().map(|&b| f64::from_bits(b)).collect();
        assert_eq!(book.len(), 1 << bits);
        for i in 0..book.len() {
            assert_eq!(book[i], -book[book.len() - 1 - i]);
            assert!(i == 0 || book[i - 1] < book[i]);
        }
    }
}

#[test]
fn every_level_of_the_six_bit_table() {
    assert_eq!(
        get_codebook(6),
        bits_of(&[
            -3.5, -3.38889, -3.27778, -3.16667, -3.05556, -2.94444, -2.83333, -2.72222, -2.61111,
            -2.5, -2.38889, -2.27778, -2.16667, -2.05556, -1.94444, -1.83333, -1.72222, -1.61111,
            -1.5, -1.38889, -1.27778, -1.16667, -1.05556, -0.944444, -0.833333, -0.722222,
            -0.611111, -0.5, -0.388889, -0.277778, -0.166667, -0.0555556, 0.0555556, 0.166667,
            0.277778, 0.388889, 0.5, 0.611111, 0.722222, 0.833333, 0.944444, 1.05556, 1.16667,
            1.27778, 1.38889, 1.5, 1.61111, 1.72222, 1.83333, 1.94444, 2.05556, 2.16667, 2.27778,
            2.38889, 2.5, 2.61111, 2.72222, 2.83333, 2.94444, 3.05556, 3.16667, 3.27778, 3.38889,
            3.5,
        ])
    );
}

#[test]
fn every_level_of_the_eight_bit_table() {
    assert_eq!(
        get_codebook(8),
        bits_of(&[
            -4.0, -3.968627, -3.937255, -3.905882, -3.87451, -3.843137, -3.811765, -3.780392,
            -3.74902, -3.717647, -3.686275, -3.654902, -3.623529, -3.592157, -3.560784, -3.529412,
            -3.498039, -3.466667, -3.435294, -3.403922, -3.372549, -3.341176, -3.309804,
            -3.278431, -3.247059, -3.215686, -3.184314, -3.152941, -3.121569, -3.090196,
            -3.058824, -3.027451, -2.996078, -2.964706, -2.933333, -2.901961, -2.870588,
            -2.839216, -2.807843, -2.776471, -2.745098, -2.713725, -2.682353, -2.65098, -2.619608,
            -2.588235, -2.556863, -2.52549, -2.494118, -2.462745, -2.431373, -2.4, -2.368627,
            -2.337255, -2.305882, -2.27451, -2.243137, -2.211765, -2.180392, -2.14902, -2.117647,
            -2.086275, -2.054902, -2.023529, -1.992157, -1.960784, -1.929412, -1.898039,
            -1.866667, -1.835294, -1.803922, -1.772549, -1.741176, -1.709804, -1.678431,
            -1.647059, -1.615686, -1.584314, -1.552941, -1.521569, -1.490196, -1.458824,
            -1.427451, -1.396078, -1.364706, -1.333333, -1.301961, -1.270588, -1.239216,
            -1.207843, -1.176471, -1.145098, -1.113725, -1.082353, -1.05098, -1.019608,
            -0.9882353, -0.9568627, -0.9254902, -0.8941176, -0.8627451, -0.8313725, -0.8,
            -0.7686275, -0.7372549, -0.7058824, -0.6745098, -0.6431373, -0.6117647, -0.5803922,
            -0.5490196, -0.5176471, -0.4862745, -0.454902, -0.4235294, -0.3921569, -0.3607843,
            -0.3294118, -0.2980392, -0.2666667, -0.2352941, -0.2039216, -0.172549, -0.1411765,
            -0.1098039, -0.07843137, -0.04705882, -0.01568627, 0.01568627, 0.04705882, 0.07843137,
            0.1098039, 0.1411765, 0.172549, 0.2039216, 0.2352941, 0.2666667, 0.2980392, 0.3294118,
            0.3607843, 0.3921569, 0.4235294, 0.454902, 0.4862745, 0.5176471, 0.5490196, 0.5803922,
            0.6117647, 0.6431373, 0.6745098, 0.7058824, 0.7372549, 0.7686275, 0.8, 0.8313725,
            0.8627451, 0.8941176, 0.9254902, 0.9568627, 0.9882353, 1.019608, 1.05098, 1.082353,
            1.113725, 1.145098, 1.176471, 1.207843, 1.239216, 1.270588, 1.301961, 1.333333,
            1.364706, 1.396078, 1.427451, 1.458824, 1.490196, 1.521569, 1.552941, 1.584314,
            1.615686, 1.647059, 1.678431, 1.709804, 1.741176, 1.772549, 1.803922, 1.835294,
            1.866667, 1.898039, 1.929412, 1.960784, 1.992157, 2.023529, 2.054902, 2.086275,
            2.117647, 2.14902, 2.180392, 2.211765, 2.243137, 2.27451, 2.305882, 2.337255,
            2.368627, 2.4, 2.431373, 2.462745, 2.494118, 2.52549, 2.556863, 2.588235, 2.619608,
            2.65098, 2.682353, 2.713725, 2.745098, 2.776471, 2.807843, 2.839216, 2.870588,
            2.901961, 2.933333, 2.964706, 2.996078, 3.027451, 3.058824, 3.090196, 3.121569,
            3.152941, 3.184314, 3.215686, 3.247059, 3.278431, 3.309804, 3.341176, 3.372549,
            3.403922, 3.435294, 3.466667, 3.498039, 3.529412, 3.560784, 3.592157, 3.623529,
            3.654902, 3.686275, 3.717647, 3.74902, 3.780392, 3.811765, 3.843137, 3.87451,
            3.905882, 3.937255, 3.968627, 4.0,
        ])
    );
}

#[test]
fn longer_buffers_are_read_as_far_as_needed() {
    let rotated = bits_of(&[0.5, -1.0, 0.25, 2.0]);
    let mut c = compress(&rotated, &[1, 7, 3, 0], 1.0f64.to_bits(), 1, 3, 9, None);
    let factors = c.decompress();
    c.packed_indices.extend([0xFF, 0xFF]);
    c.block_scales.push(7.0f64.to_bits());
    assert_eq!(c.decompress(), factors);
}

#[test]
fn only_some_widths_have_codebooks() {
    for bits in 0u8..=255 {
        assert_eq!(is_supported(bits), [2, 3, 4, 6, 8].contains(&bits));
    }
}

#[test]
fn brackets_follow_partition_point() {
    let book = get_codebook(4);
    let floats: Vec<f64> = book.iter().map(|&b| f64::from_bits(b)).collect();
    for value in [-5.0, -2.733, -2.7, -0.13, 0.0, 0.13, 0.2, 2.0, 2.733, 9.0, f64::NAN] {
        let pos = floats.partition_point(|&x| x < value);
        assert_eq!(partition_point(&book, value.to_bits()), pos);
        let expected = if pos == 0 {
            Bracket::Level(0)
        } else if pos == 16 {
            Bracket::Level(15)
        } else {
            Bracket::Between((pos - 1) as u8)
        };
        assert_eq!(bracket(value.to_bits(), &book), expected);
    }
    assert_eq!(bracket(0.0f64.to_bits(), &book), Bracket::Between(7));
    assert_eq!(settle(Bracket::Between(7), false), 7);
    assert_eq!(settle(Bracket::Between(7), true), 8);
    assert_eq!(settle(Bracket::Level(15), true), 15);
}

#[test]
fn quantizing_a_vector() {
    let normalized = bits_of(&[-3.0, -0.4, 0.0, 0.2, 1.0]);
    let found = brackets(&normalized, 2);
    assert_eq!(
        found,
        vec![
            Bracket::Level(0),
            Bracket::Between(1),
            Bracket::Between(1),
            Bracket::Between(1),
            Bracket::Between(2),
        ]
    );
    assert_eq!(
        settle_all(&found, &[true, false, false, true, false]),
        vec![0, 1, 1, 2, 2]
    );
}

#[test]
fn boundary_search() {
    let inf = f64::INFINITY;
    let b = bits_of(&[-inf, -1.0, 0.0, 1.0, inf]);
    for (value, expected) in [
        (-5.0, 0),
        (-1.0, 1),
        (-0.5, 1),
        (0.0, 2),
        (0.5, 2),
        (1.0, 3),
        (7.0, 3),
        (inf, 3),
    ] {
        assert_eq!(find_quantization_index(&b, f64::to_bits(value)), expected);
    }
    assert_eq!(find_quantization_index(&bits_of(&[-inf, inf]), 0), 0);
}

#[test]
fn scales_are_block_maxima() {
    let mut v = vec![0.25f64; 70];
    v[3] = -2.0;
    v[40] = f64::NAN;
    for x in v.iter_mut().skip(64) {
        *x = -0.0;
    }
    let scales = block_scales(&bits_of(&v));
    assert_eq!(BLOCK_SIZE, 32);
    assert_eq!(scales, bits_of(&[2.0, 0.25, 1.0]));
    assert_eq!(block_scales(&[]), Vec::<u64>::new());
    assert_eq!(block_scales(&bits_of(&[f64::NEG_INFINITY])), bits_of(&[f64::INFINITY]));
}

#[test]
fn dequantizing_reads_scales_and_levels() {
    let indices: Vec<u8> = (0..40).map(|i| (i % 4) as u8).collect();
    let packed = pack_indices(&indices, 2);
    let scales = bits_of(&[2.0, 0.5]);
    let book = get_codebook(2);
    let factors = dequantize_adaptive(&packed, &scales, 2, 40);
    assert_eq!(factors.len(), 40);
    for i in 0..40 {
        assert_eq!(factors[i], (scales[i / 32], book[i % 4]));
    }
}

#[test]
fn interleaving_round_trips() {
    let state = State {
        reals: bits_of(&[0.1, 0.2, 0.3, 0.4]),
        imags: bits_of(&[-0.1, -0.2, -0.3, -0.4]),
        n: 2,
    };
    let flat = interleave_state(&state);
    assert_eq!(flat, bits_of(&[0.1, -0.1, 0.2, -0.2, 0.3, -0.3, 0.4, -0.4]));
    let back = deinterleave_state(&flat, 2);
    assert_eq!(back.reals, state.reals);
    assert_eq!(back.imags, state.imags);
    assert_eq!(back.n, 2);
    assert_eq!(back.len(), 4);
    assert_eq!(power_of_two(0), 1);
    assert_eq!(power_of_two(10), 1024);
}

#[test]
fn layers_come_from_the_seeded_shuffle() {
    let (mut ordering, mut rng) = start_schedule(16, 42);
    assert_eq!(ordering, (0..16).collect::<Vec<usize>>());
    let mut expected: Vec<usize> = (0..16).collect();
    let mut direct = StdRng::seed_from_u64(42);
    for _ in 0..3 {
        let pairs = givens_layer(&mut ordering, &mut rng);
        expected.shuffle(&mut direct);
        assert_eq!(ordering, expected);
        assert_eq!(pairs.len(), 8);
        let mut seen = vec![false; 16];
        for (i, &(l, r)) in pairs.iter().enumerate() {
            assert_eq!((l, r), (expected[2 * i], expected[2 * i + 1]));
            assert!(!seen[l] && !seen[r] && l != r);
            seen[l] = true;
            seen[r] = true;
        }
        // Angles are drawn from the same generator.
        let pi = std::f64::consts::PI;
        for _ in 0..8 {
            assert_eq!(rng.gen_range(-pi..pi), direct.gen_range(-pi..pi));
        }
    }
    assert_ne!(ordering, (0..16).collect::<Vec<usize>>());
}

#[test]
fn same_seed_same_layers() {
    let (mut a, mut rng_a) = start_schedule(64, 5);
    let (mut b, mut rng_b) = start_schedule(64, 5);
    assert_eq!(givens_layer(&mut a, &mut rng_a), givens_layer(&mut b, &mut rng_b));
    let (mut c, mut rng_c) = start_schedule(64, 6);
    assert_ne!(ordering_pairs(&a), givens_layer(&mut c, &mut rng_c));
}

#[test]
fn odd_one_out_is_left_over() {
    assert_eq!(ordering_pairs(&[4, 2, 9]), vec![(4, 2)]);
    assert_eq!(layer_count(0), 1);
    assert_eq!(layer_count(1), 1);
    assert_eq!(layer_count(9), 9);
}

#[test]
fn inverse_schedule_reverses_and_negates() {
    let schedule = vec![
        GivensRotation { left: 0, right: 1, theta: 0.5f64.to_bits() },
        GivensRotation { left: 2, right: 3, theta: (-1.25f64).to_bits() },
    ];
    let inverse = inverse_schedule(&schedule);
    assert_eq!(
        inverse,
        vec![
            GivensRotation { left: 2, right: 3, theta: 1.25f64.to_bits() },
            GivensRotation { left: 0, right: 1, theta: (-0.5f64).to_bits() },
        ]
    );
    assert_eq!(inverse_schedule(&inverse), schedule);
}

#[test]
fn bit_widths_resolve() {
    assert_eq!(resolve_bits(0), Some(4));
    assert_eq!(resolve_bits(1), Some(1));
    assert_eq!(resolve_bits(8), Some(8));
    assert_eq!(resolve_bits(9), None);
}

#[test]
fn compressing_and_reading_back() {
    let mut rotated = vec![0.0f64; 64];
    rotated[0] = -3.0;
    rotated[40] = 0.5;
    let rotated = bits_of(&rotated);
    let indices: Vec<u8> = (0..64).map(|i| (i % 16) as u8).collect();
    let c = compress(&rotated, &indices, 1.0f64.to_bits(), 5, 4, 99, None);
    assert_eq!(c.packed_indices, pack_indices(&indices, 4));
    assert_eq!(c.packed_indices.len(), 32);
    assert_eq!(c.block_scales, bits_of(&[3.0, 0.5]));
    assert_eq!((c.norm, c.n_qubits, c.bits, c.rotation_seed), (1.0f64.to_bits(), 5, 4, 99));
    assert!(c.residual_sketch.is_none());
    let book = get_codebook(4);
    let factors = c.decompress();
    assert_eq!(factors.len(), 64);
    for i in 0..64 {
        assert_eq!(factors[i], (c.block_scales[i / 32], book[i % 16]));
    }
    // 32 index bytes, 2 scales, norm, qubits, width, seed
    assert_eq!(compressed_size_bytes(&c), 32 + 16 + 8 + std::mem::size_of::<usize>() + 1 + 8);
}

#[test]
fn statevector_size_counts_capacity() {
    let mut reals = Vec::with_capacity(100);
    reals.push(0u64);
    let mut imags = Vec::with_capacity(50);
    imags.push(0u64);
    let state = State { reals, imags, n: 0 };
    assert_eq!(
        statevector_size_bytes(&state),
        8 * state.reals.capacity() + 8 * state.imags.capacity()
    );
    assert!(statevector_size_bytes(&state) >= 1200);
    assert_eq!(buffer_bytes(3, 4), 56);
}

#[test]
fn sketches_correlate_signs() {
    let p = |re: f64, im: f64| (re.to_bits(), im.to_bits());
    let projections = vec![p(1.0, -2.0), p(-0.5, 3.0), p(0.0, -0.0), p(f64::NAN, 1.0)];
    let sketch = ResidualSketch::from_components(&projections, 11, 4, 3);
    assert_eq!((sketch.seed(), sketch.size(), sketch.n_qubits()), (11, 4, 3));
    let own = sketch.estimate_overlap(&projections);
    assert_eq!((own.alpha, own.beta), (4, 4));
    // signs of the sketch: re + - + -, im - + + +
    assert_eq!(own.gamma, own.delta);
    assert_eq!(own.gamma, -1 - 1 + 1 - 1);
    let other = vec![p(1.0, 1.0), p(1.0, 1.0), p(1.0, 1.0), p(1.0, 1.0)];
    let c = sketch.estimate_overlap(&other);
    assert_eq!((c.alpha, c.beta, c.gamma, c.delta), (0, 2, 0, 2));
}

#[test]
fn sketch_parameters() {
    assert_eq!(sketch_size(0), 32);
    assert_eq!(sketch_size(4), 32);
    assert_eq!(sketch_size(5), 40);
    assert_eq!(sketch_seed(0), 0xD1B5_4A32_D192_ED03);
    assert_eq!(sketch_seed(sketch_seed(77)), 77);
}

#[test]
fn settling_by_distance_finds_the_nearest_level() {
    let mut rng = StdRng::seed_from_u64(3);
    for bits in [2u8, 3, 4, 6, 8] {
        let book: Vec<f64> = get_codebook(bits).iter().map(|&b| f64::from_bits(b)).collect();
        for _ in 0..200 {
            let x: f64 = rng.gen_range(-5.0..5.0);
            let b = bracket(x.to_bits(), &get_codebook(bits));
            let upper = match b {
                Bracket::Level(_) => false,
                Bracket::Between(k) => {
                    let k = usize::from(k);
                    assert!(book[k] < x && x <= book[k + 1]);
                    (x - book[k]).abs() > (x - book[k + 1]).abs()
                }
            };
            let chosen = usize::from(settle(b, upper));
            for level in &book {
                assert!((x - book[chosen]).abs() <= (x - level).abs());
                let scaled = |y: f64| 0.25 * y;
                assert!(
                    (scaled(x) - scaled(book[chosen])).abs() <= (scaled(x) - scaled(*level)).abs()
                );
            }
        }
    }
}
