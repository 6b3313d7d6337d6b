use nistrs::approximate::approximate_entropy_counts;
use nistrs::bits::BitsData;
use nistrs::cusum::{cusum_excursions, cusum_sum_ranges};
use nistrs::error::TestError;
use nistrs::fft::fft_signal;
use nistrs::freq::frequency_statistic;
use nistrs::linear::{block_linear_complexity, linear_complexity_profile, linear_params};
use nistrs::non_overlapping_template::{
    aperiodic_template_list, get_template_size, get_tempalte, non_overlapping_counts,
    non_overlapping_params, window_matches,
};
use nistrs::overlapping_template::{
    get_template, get_template_size as periodic_template_size, overlapping_blocks,
    overlapping_counts, periodic_template_list,
};
use nistrs::patterns::{floor_log2, pattern_counts, power_of_two};
use nistrs::random_excursions::excursion_cycles;
use nistrs::random_excursions_variant::{cycles_insufficient, excursion_visits};
use nistrs::runs::runs_statistic;
use nistrs::serial::serial_counts;
use nistrs::universal::{universal_distances, universal_params};

const FREQ_EXAMPLE: &str = "11001001000011111101101010100010001000010110100011000010001101001100010011000110011000101000101110001100";
const RUNS_EXAMPLE: &str = "11001001000011111101101010100010001000010110100011000010001101001100010011000110011000101000101110000000";

fn text(s: &str) -> BitsData {
    BitsData::from_text(s.to_string())
}

fn pseudo_random(nbytes: usize) -> BitsData {
    let mut x: u64 = 12345;
    let mut bytes = Vec::with_capacity(nbytes);
    for _ in 0..nbytes {
        x = x
            .wrapping_mul(6364136223846793005)
            .wrapping_add(1442695040888963407);
        bytes.push((x >> 56) as u8);
    }
    BitsData::from_binary(bytes)
}

#[test]
fn frequency_statistic_of_example() {
    let data = text(FREQ_EXAMPLE);
    assert_eq!(data.len(), 104);
    assert_eq!(data.ones(), 44);
    assert_eq!(frequency_statistic(&data), Ok(-16));
}

#[test]
fn frequency_p_value_of_example() {
    let data = text(FREQ_EXAMPLE);
    let sn = frequency_statistic(&data).unwrap();
    let sobs = sn.abs() as f64 / (data.len() as f64).sqrt();
    let p = libm::erfc(sobs / 2.0_f64.sqrt());
    assert_eq!(p, 0.11666446478102338);
}

#[test]
fn frequency_refuses_short_sequence() {
    let data = text("0101");
    assert_eq!(frequency_statistic(&data), Err(TestError::FrequencyTooShort));
    assert_eq!(
        TestError::FrequencyTooShort.message(),
        "At least 100 bits are required to run the frequency test."
    );
}

#[test]
fn runs_statistic_of_examples() {
    assert_eq!(runs_statistic(&text(FREQ_EXAMPLE)), Ok(54));
    assert_eq!(runs_statistic(&text(RUNS_EXAMPLE)), Ok(52));
    assert_eq!(runs_statistic(&text("01")), Err(TestError::RunsTooShort));
}

#[test]
fn runs_p_value_of_example() {
    let data = text(RUNS_EXAMPLE);
    let v = runs_statistic(&data).unwrap();
    let n = data.len() as f64;
    let pi = data.ones() as f64 / n;
    assert!((pi - 0.5).abs() < 2.0 / n.sqrt());
    let arg = ((v as f64) - 2_f64 * n * pi * (1_f64 - pi)).abs()
        / (2_f64 * pi * (1_f64 - pi) * (2_f64 * n).sqrt());
    assert_eq!(libm::erfc(arg), 0.6953317934158357);
}

#[test]
fn cusum_excursions_of_examples() {
    assert_eq!(cusum_excursions(&text(FREQ_EXAMPLE)), Ok((16, 19)));
    assert_eq!(cusum_excursions(&text(RUNS_EXAMPLE)), Ok((20, 23)));
    assert_eq!(cusum_excursions(&pseudo_random(125_000)), Ok((952, 970)));
    assert_eq!(
        cusum_excursions(&text("0011")),
        Err(TestError::CusumTooShort)
    );
}

#[test]
fn cusum_ranges_truncate_toward_zero() {
    // n / z = 6: (-6 + 1) / 4 = -1, (6 - 1) / 4 = 1, (-6 - 3) / 4 = -2.
    assert_eq!(cusum_sum_ranges(104, 16), (-1, 1, -2));
    // n / z = 1: begin 0, end 0, second begin -1.
    assert_eq!(cusum_sum_ranges(100, 100), (0, 0, -1));
}

#[test]
fn pattern_counts_small() {
    let data = text("0100110101");
    assert_eq!(pattern_counts(&data, 3), vec![0, 1, 3, 1, 1, 3, 1, 0]);
    assert_eq!(pattern_counts(&data, 2), vec![1, 4, 4, 1]);
    assert_eq!(pattern_counts(&data, 1), vec![5, 5]);
    assert_eq!(pattern_counts(&data, 0), vec![10]);
}

#[test]
fn pattern_counts_add_up_to_length() {
    let data = pseudo_random(125_000);
    let counts = pattern_counts(&data, 3);
    assert_eq!(
        counts,
        vec![124864, 125252, 125204, 124689, 125252, 124641, 124689, 125409]
    );
    assert_eq!(counts.iter().sum::<usize>(), data.len());
}

#[test]
fn log_and_power_helpers() {
    assert_eq!(floor_log2(1), 0);
    assert_eq!(floor_log2(104), 6);
    assert_eq!(floor_log2(1024), 10);
    assert_eq!(floor_log2(1_000_000), 19);
    assert_eq!(power_of_two(0), 1);
    assert_eq!(power_of_two(10), 1024);
}

#[test]
fn approximate_entropy_parameters() {
    let data = text(FREQ_EXAMPLE);
    // floor(log2(104)) = 6: only m < 1 is accepted.
    let (c0, c1) = approximate_entropy_counts(&data, 0).unwrap();
    assert_eq!(c0, vec![104]);
    assert_eq!(c1, vec![60, 44]);
    assert_eq!(
        approximate_entropy_counts(&data, 1),
        Err(TestError::ApproximateEntropyParameters)
    );
    assert_eq!(
        approximate_entropy_counts(&text(""), 0),
        Err(TestError::ApproximateEntropyParameters)
    );
}

#[test]
fn serial_parameters_and_counts() {
    let data = pseudo_random(125_000);
    let (c3, c2, c1) = serial_counts(&data, 3).unwrap();
    assert_eq!(
        c3,
        vec![124864, 125252, 125204, 124689, 125252, 124641, 124689, 125409]
    );
    assert_eq!(c2.iter().sum::<usize>(), 1_000_000);
    assert_eq!(c1, vec![1_000_000 - 499_991, 499_991]);
    let (d1, d0, none) = serial_counts(&data, 1).unwrap();
    assert_eq!(d1, vec![1_000_000 - 499_991, 499_991]);
    assert_eq!(d0, vec![1_000_000]);
    assert!(none.is_empty());
    // floor(log2(104)) = 6: m = 4 is refused.
    assert_eq!(
        serial_counts(&text(FREQ_EXAMPLE), 4),
        Err(TestError::SerialParameters)
    );
    assert!(serial_counts(&text(FREQ_EXAMPLE), 3).is_ok());
}

#[test]
fn fft_signal_of_bits() {
    let data = pseudo_random(125);
    let signal = fft_signal(&data).unwrap();
    assert_eq!(signal.len(), 1000);
    // 28 = 0b00011100
    assert_eq!(&signal[..8], &[-1, -1, -1, 1, 1, 1, -1, -1]);
    assert_eq!(fft_signal(&text(FREQ_EXAMPLE)), Err(TestError::FftTooShort));
}

#[test]
fn linear_complexity_of_blocks() {
    let cases: [(&str, usize); 8] = [
        ("1101011110001", 4),
        ("0000", 0),
        ("0001", 4),
        ("1000", 1),
        ("10", 1),
        ("1111", 1),
        ("0101010101", 2),
        ("1001101011", 4),
    ];
    for (s, l) in cases {
        let data = text(s);
        assert_eq!(block_linear_complexity(&data, 0, data.len()), l);
    }
    // A block inside a longer sequence.
    let data = text("000110101111000111");
    assert_eq!(block_linear_complexity(&data, 3, 13), 4);
}

#[test]
fn linear_complexity_parameters() {
    assert_eq!(linear_params(999_999, 500), Err(TestError::LinearTooShort));
    assert_eq!(linear_params(1_000_000, 499), Err(TestError::LinearBlockLength));
    assert_eq!(linear_params(1_000_000, 5_001), Err(TestError::LinearBlockLength));
    assert_eq!(linear_params(1_000_000, 5_000), Ok(200));
    assert_eq!(linear_params(1_100_000, 5_000), Ok(220));
    assert_eq!(linear_params(1_000_000, 4_999), Ok(200));
    assert_eq!(
        linear_complexity_profile(&text(FREQ_EXAMPLE), 500),
        Err(TestError::LinearTooShort)
    );
}

#[test]
fn linear_complexity_profile_blocks() {
    let data = pseudo_random(125_000);
    let profile = linear_complexity_profile(&data, 5_000).unwrap();
    assert_eq!(profile.len(), 200);
    for (i, l) in profile.iter().enumerate().take(3) {
        assert_eq!(*l, block_linear_complexity(&data, i * 5_000, 5_000));
        assert!(*l <= 5_000);
    }
}

#[test]
fn aperiodic_templates() {
    let sizes = [2, 4, 6, 12, 20, 40, 74, 148, 284];
    for (m, size) in (2..=10).zip(sizes) {
        assert_eq!(get_template_size(m), size);
        assert_eq!(aperiodic_template_list(m).len(), size);
    }
    assert_eq!(get_tempalte(0, 2), vec![false, true]);
    assert_eq!(get_tempalte(1, 2), vec![true, false]);
    assert_eq!(get_tempalte(0, 3), vec![false, false, true]);
    assert_eq!(get_tempalte(1, 3), vec![false, true, true]);
    assert_eq!(get_tempalte(2, 3), vec![true, false, false]);
    assert_eq!(get_tempalte(3, 4), vec![true, false, false, false]);
    assert_eq!(get_tempalte(0, 9), vec![false, false, false, false, false, false, false, false, true]);
}

#[test]
fn periodic_templates() {
    assert_eq!(periodic_template_size(2), 2);
    assert_eq!(get_template(0, 2), vec![false, false]);
    assert_eq!(get_template(1, 2), vec![true, true]);
    assert_eq!(
        periodic_template_list(3),
        vec![
            vec![false, false, false],
            vec![false, true, false],
            vec![true, false, true],
            vec![true, true, true],
        ]
    );
    // The all-ones template is the last periodic one.
    let size = periodic_template_size(9);
    assert_eq!(size, 512 - 148);
    assert_eq!(get_template(size - 1, 9), vec![true; 9]);
    // Aperiodic and periodic templates together are all 2^m templates.
    for m in 2..=10 {
        assert_eq!(get_template_size(m) + periodic_template_size(m), 1 << m);
    }
    assert_eq!(periodic_template_size(16), 47914);
}

#[test]
fn window_matching() {
    let data = text("1010010");
    assert!(window_matches(&data, 1, &[false, true, false, false]));
    assert!(!window_matches(&data, 0, &[false, true]));
    assert!(window_matches(&data, 7, &[]));
}

#[test]
fn non_overlapping_parameters() {
    assert_eq!(non_overlapping_params(1000, 1), Err(TestError::TemplateLength));
    assert_eq!(non_overlapping_params(1000, 17), Err(TestError::TemplateLength));
    assert_eq!(non_overlapping_params(1000, 9), Ok(125));
    // 15 bits: 15 / (15 / 8) = 15 != 8.
    assert_eq!(non_overlapping_params(15, 2), Err(TestError::TemplateBlocks));
    assert_eq!(non_overlapping_params(8, 2), Ok(1));
}

#[test]
fn non_overlapping_counts_small() {
    // Blocks of 10 bits; the template 001 is found without overlap.
    let mut s = String::new();
    for _ in 0..4 {
        s.push_str("1010010010");
        s.push_str("1110010110");
    }
    let data = text(&s);
    let counts = non_overlapping_counts(&data, &[false, false, true], 10);
    assert_eq!(counts, vec![2, 1, 2, 1, 2, 1, 2, 1]);
    // Overlapping occurrences are counted once: 0000 holds 00 twice.
    let data = text(&"0000".repeat(8));
    assert_eq!(non_overlapping_counts(&data, &[false, false], 4), vec![2; 8]);
}

#[test]
fn non_overlapping_counts_large() {
    let data = pseudo_random(125_000);
    let m_blocks = non_overlapping_params(data.len(), 3).unwrap();
    assert_eq!(m_blocks, 125_000);
    let counts = non_overlapping_counts(&data, &[false, false, true], m_blocks);
    assert_eq!(counts, vec![15570, 15545, 15702, 15708, 15618, 15715, 15636, 15757]);
}

#[test]
fn overlapping_blocks_and_counts() {
    assert_eq!(overlapping_blocks(998_975), Err(TestError::OverlappingTooShort));
    assert_eq!(overlapping_blocks(998_976), Ok(968));
    let data = pseudo_random(125_000);
    let blocks = overlapping_blocks(data.len()).unwrap();
    assert_eq!(blocks, 968);
    let nu = overlapping_counts(&data, &[true; 9], blocks);
    assert_eq!(nu, vec![343, 170, 151, 94, 59, 151]);
    assert_eq!(nu.iter().sum::<usize>(), blocks);
}

#[test]
fn random_excursions_cycles() {
    let data = pseudo_random(125_000);
    let (j, nu) = excursion_cycles(&data).unwrap();
    assert_eq!(j, 1363);
    let expected: [[usize; 8]; 6] = [
        [1189, 1125, 1016, 676, 687, 1027, 1137, 1208],
        [21, 38, 79, 341, 340, 79, 49, 16],
        [25, 37, 64, 168, 162, 63, 32, 13],
        [17, 27, 48, 81, 87, 53, 19, 12],
        [9, 20, 35, 55, 44, 38, 18, 14],
        [102, 116, 121, 42, 43, 103, 108, 100],
    ];
    for c in 0..6 {
        for i in 0..8 {
            assert_eq!(nu[c * 8 + i], expected[c][i]);
        }
    }
    // Every cycle falls in exactly one class.
    for i in 0..8 {
        assert_eq!((0..6).map(|c| nu[c * 8 + i]).sum::<usize>(), j);
    }
    assert_eq!(
        excursion_cycles(&text(FREQ_EXAMPLE)),
        Err(TestError::ExcursionsTooShort)
    );
}

#[test]
fn random_excursions_of_alternating_bits() {
    // 1010...: the walk goes 1, 0, 1, 0, ...; every cycle visits +1 once.
    let data = BitsData::from_binary(vec![0xaa; 125_000]);
    let (j, nu) = excursion_cycles(&data).unwrap();
    assert_eq!(j, 500_000);
    for i in 0..8 {
        let once = if i == 4 { 500_000 } else { 0 };
        assert_eq!(nu[8 + i], once);
        assert_eq!(nu[i], 500_000 - once);
    }
}

#[test]
fn random_excursions_variant_visits() {
    let data = pseudo_random(125_000);
    let (j, counts) = excursion_visits(&data).unwrap();
    assert_eq!(j, 1363);
    assert_eq!(
        counts,
        vec![
            1510, 1419, 1344, 1294, 1292, 1329, 1386, 1421, 1398, 1345, 1335, 1358, 1403, 1353,
            1307, 1398, 1462, 1414
        ]
    );
    assert_eq!(
        excursion_visits(&text(RUNS_EXAMPLE)),
        Err(TestError::ExcursionsTooShort)
    );
}

#[test]
fn random_excursions_refuse_few_cycles() {
    // All ones: the walk never returns to zero, a single cycle.
    let data = BitsData::from_binary(vec![0xff; 125_000]);
    assert_eq!(excursion_cycles(&data), Err(TestError::ExcursionsTooFewCycles));
    assert_eq!(excursion_visits(&data), Err(TestError::ExcursionsTooFewCycles));
    assert_eq!(
        TestError::ExcursionsTooFewCycles.message(),
        "WARNING:  TEST NOT APPLICABLE.  THERE ARE AN INSUFFICIENT NUMBER OF CYCLES."
    );
}

#[test]
fn cycle_count_threshold() {
    assert!(cycles_insufficient(1_000_000, 499));
    assert!(!cycles_insufficient(1_000_000, 500));
    assert!(cycles_insufficient(40_000_000_001, 1_000));
    assert!(!cycles_insufficient(40_000_000_000, 1_000));
    assert!(!cycles_insufficient(usize::MAX, usize::MAX / 2));
}

#[test]
fn visits_split_over_cycles() {
    // The visits to +1 of the alternating walk, counted cycle by cycle.
    let data = BitsData::from_binary(vec![0xaa; 125_000]);
    let (_, nu) = excursion_cycles(&data).unwrap();
    let (_, counts) = excursion_visits(&data).unwrap();
    assert_eq!(counts[9], nu[8 + 4]);
}

#[test]
fn universal_parameters() {
    assert_eq!(universal_params(1600), Err(TestError::UniversalBlockLength));
    assert_eq!(universal_params(387_839), Err(TestError::UniversalBlockLength));
    assert_eq!(universal_params(387_840), Ok((6, 640, 64_000)));
    assert_eq!(universal_params(1_000_000), Ok((7, 1280, 141_577)));
    assert_eq!(universal_params(1_059_061_760).map(|r| r.0), Ok(16));
}

#[test]
fn universal_distances_of_sequence() {
    let data = pseudo_random(125_000);
    let (l, q, k) = universal_params(data.len()).unwrap();
    let d = universal_distances(&data, l, q, k);
    assert_eq!(d.len(), 141_577);
    assert_eq!(&d[..5], &[410, 17, 121, 38, 244]);
    assert_eq!(d.iter().sum::<usize>(), 18_121_150);
    assert_eq!(*d.iter().max().unwrap(), 1443);
}

#[test]
fn universal_distances_of_constant_sequence() {
    let data = BitsData::from_binary(vec![0u8; 48_480]);
    let (l, q, k) = universal_params(data.len()).unwrap();
    assert_eq!((l, q, k), (6, 640, 64_000));
    let d = universal_distances(&data, l, q, k);
    assert!(d.iter().all(|x| *x == 1));
}

#[test]
fn longer_patterns_refine_shorter() {
    let data = text("0100110101");
    let c2 = pattern_counts(&data, 2);
    let c3 = pattern_counts(&data, 3);
    for v in 0..4 {
        assert_eq!(c2[v], c3[2 * v] + c3[2 * v + 1]);
    }
    let data = pseudo_random(125_000);
    let c2 = pattern_counts(&data, 2);
    let c3 = pattern_counts(&data, 3);
    for v in 0..4 {
        assert_eq!(c2[v], c3[2 * v] + c3[2 * v + 1]);
    }
}

#[test]
fn walk_end_within_excursions() {
    // The walk ends at S_n; both excursions reach at least |S_n|.
    for s in [FREQ_EXAMPLE, RUNS_EXAMPLE] {
        let data = text(s);
        let sn = frequency_statistic(&data).unwrap();
        let (z, zrev) = cusum_excursions(&data).unwrap();
        assert!(sn.unsigned_abs() as usize <= z);
        assert!(sn.unsigned_abs() as usize <= zrev);
    }
}

#[test]
fn serial_with_one_bit_blocks_is_frequency() {
    for s in [FREQ_EXAMPLE, RUNS_EXAMPLE] {
        let data = text(s);
        let n = data.len();
        let (c1, c0, none) = serial_counts(&data, 1).unwrap();
        assert!(none.is_empty());
        let psi1 = c1.iter().map(|c| c.pow(2) as f64).sum::<f64>() * 2_f64 / n as f64 - n as f64;
        let psi0 = c0.iter().map(|c| c.pow(2) as f64).sum::<f64>() / n as f64 - n as f64;
        let p_serial = statrs::function::gamma::gamma_ur(0.5, (psi1 - psi0) / 2_f64);
        let sn = frequency_statistic(&data).unwrap();
        let p_freq = libm::erfc(sn.abs() as f64 / (n as f64).sqrt() / 2_f64.sqrt());
        assert!((p_serial - p_freq).abs() < 1e-6);
    }
}

#[test]
fn binary_text_reads_as_bytes() {
    let v: Vec<u8> = vec![0x12, 0x21, 0xff, 0x00, 0x9c];
    let s: String = v.iter().map(|b| format!("{:08b}", b)).collect();
    let a = BitsData::from_binary(v.clone());
    let b = BitsData::from_text(s);
    assert_eq!(a.len(), b.len());
    assert_eq!(a.ones(), b.ones());
    for i in 0..a.len() {
        assert_eq!(a.index(i), b.index(i));
    }
}

fn rotate(s: &str, r: usize) -> String {
    format!("{}{}", &s[r..], &s[..r])
}

#[test]
fn pattern_counts_of_rotation() {
    let data = text("0100110101");
    let rotated = text(&rotate("0100110101", 3));
    for b in 0..4 {
        assert_eq!(pattern_counts(&rotated, b), pattern_counts(&data, b));
    }
    let rotated = text(&rotate(FREQ_EXAMPLE, 37));
    assert_eq!(
        approximate_entropy_counts(&rotated, 0),
        approximate_entropy_counts(&text(FREQ_EXAMPLE), 0)
    );
    assert_eq!(serial_counts(&rotated, 3), serial_counts(&text(FREQ_EXAMPLE), 3));
}

#[test]
fn runs_of_reversal() {
    for s in [FREQ_EXAMPLE, RUNS_EXAMPLE] {
        let reversed: String = s.chars().rev().collect();
        let data = text(s);
        let back = text(&reversed);
        assert_eq!(runs_statistic(&back), runs_statistic(&data));
        assert_eq!(back.ones(), data.ones());
    }
}

#[test]
fn signal_of_complement() {
    let data = pseudo_random(125);
    let complement: String = data.iter().map(|b| if *b { '0' } else { '1' }).collect();
    let signal = fft_signal(&data).unwrap();
    let negated = fft_signal(&text(&complement)).unwrap();
    for i in 0..signal.len() {
        assert_eq!(negated[i], -signal[i]);
    }
}
