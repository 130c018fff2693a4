use ans_coder::{
    AnsCoder, Categorical, CoderError, DiscreteDistribution, LeakyQuantizer, TOTAL,
};
use statrs::distribution::{ContinuousCDF, Normal};

fn scaled_cdf_table(min: i32, max: i32, dist: &Normal) -> Vec<u32> {
    let span = (max as i64 - min as i64 + 1) as usize;
    let free = (TOTAL as i64 - span as i64) as f64;
    let mut table = Vec::with_capacity(span - 1);
    let mut prev: u32 = 0;
    for i in 0..span - 1 {
        let boundary = min as f64 + i as f64 + 0.5;
        let mut v = (dist.cdf(boundary) * free) as u32;
        if v < prev {
            v = prev;
        }
        prev = v;
        table.push(v);
    }
    table
}

/// A small deterministic pseudo-random generator for test data.
fn next_u32(state: &mut u64) -> u32 {
    *state = state
        .wrapping_mul(6364136223846793005)
        .wrapping_add(1442695040888963407);
    (*state >> 32) as u32
}

#[test]
fn quantizer_rejects_bad_alphabets() {
    assert!(matches!(
        LeakyQuantizer::new(5, 3),
        Err(CoderError::InvalidDistribution)
    ));
    assert!(LeakyQuantizer::new(3, 3).is_ok());
    // an alphabet wider than the total mass is rejected
    assert!(matches!(
        LeakyQuantizer::new(0, TOTAL as i32),
        Err(CoderError::InvalidDistribution)
    ));
}

#[test]
fn quantizer_rejects_bad_tables() {
    let quantizer = LeakyQuantizer::new(0, 2).unwrap();
    // wrong length
    assert!(matches!(
        quantizer.quantize(&vec![1]),
        Err(CoderError::InvalidDistribution)
    ));
    // not monotone
    assert!(matches!(
        quantizer.quantize(&vec![10, 5]),
        Err(CoderError::InvalidDistribution)
    ));
    // exceeds the free mass
    assert!(matches!(
        quantizer.quantize(&vec![5, TOTAL - 2]),
        Err(CoderError::InvalidDistribution)
    ));
}

#[test]
fn quantizer_exact_intervals() {
    let quantizer = LeakyQuantizer::new(0, 2).unwrap();
    let distribution = quantizer.quantize(&vec![5, 10]).unwrap();
    assert_eq!(distribution.left_cumulative_and_probability(0).unwrap(), (0, 6));
    assert_eq!(distribution.left_cumulative_and_probability(1).unwrap(), (6, 6));
    assert_eq!(
        distribution.left_cumulative_and_probability(2).unwrap(),
        (12, TOTAL - 12)
    );
    assert_eq!(distribution.quantile_function(0), (0, 0, 6));
    assert_eq!(distribution.quantile_function(5), (0, 0, 6));
    assert_eq!(distribution.quantile_function(6), (1, 6, 6));
    assert_eq!(distribution.quantile_function(11), (1, 6, 6));
    assert_eq!(distribution.quantile_function(12), (2, 12, TOTAL - 12));
    assert_eq!(distribution.quantile_function(TOTAL - 1), (2, 12, TOTAL - 12));
}

#[test]
fn quantile_and_forward_lookup_agree() {
    let quantizer = LeakyQuantizer::new(-60, 60).unwrap();
    let normal = Normal::new(-4.5, 7.25).unwrap();
    let distribution = quantizer.quantize(&scaled_cdf_table(-60, 60, &normal)).unwrap();
    let mut total: u64 = 0;
    for symbol in -60..=60 {
        let (c, p) = distribution.left_cumulative_and_probability(symbol).unwrap();
        assert!(p >= 1);
        assert_eq!(c as u64, total);
        // the quantile at the left cumulative maps back to the symbol
        assert_eq!(distribution.quantile_function(c), (symbol, c, p));
        // so does the last quantile of the interval
        assert_eq!(distribution.quantile_function(c + p - 1), (symbol, c, p));
        total += p as u64;
    }
    assert_eq!(total, TOTAL as u64);
}

#[test]
fn categorical_rejects_bad_alphabets() {
    assert!(matches!(
        Categorical::from_weights(4, 3, 0, &vec![1, 2]),
        Err(CoderError::InvalidDistribution)
    ));
    assert!(matches!(
        Categorical::from_weights(0, TOTAL as i32, 0, &vec![1]),
        Err(CoderError::InvalidDistribution)
    ));
}

#[test]
fn categorical_exact_probabilities() {
    // weights 3:1 over two symbols; free mass = TOTAL - 2 = 16777214.
    // floor(3 * 16777214 / 4) = 12582910 remainder 2,
    // floor(1 * 16777214 / 4) = 4194303 remainder 2: the tie goes to the
    // smaller symbol, which receives the single leftover unit.
    let d = Categorical::from_weights(0, 1, 0, &vec![3, 1]).unwrap();
    assert_eq!(d.left_cumulative_and_probability(0).unwrap(), (0, 12582912));
    assert_eq!(
        d.left_cumulative_and_probability(1).unwrap(),
        (12582912, 4194304)
    );
    assert_eq!(d.quantile_function(12582911), (0, 0, 12582912));
    assert_eq!(d.quantile_function(12582912), (1, 12582912, 4194304));
}

#[test]
fn categorical_zero_weights_become_equal() {
    // no weight reaches the alphabet, so all four symbols share the mass:
    // 1 + (TOTAL - 4) / 4 = 4194304 each.
    let d = Categorical::from_weights(10, 13, 50, &vec![7, 7]).unwrap();
    let mut total: u64 = 0;
    for symbol in 10..=13 {
        let (c, p) = d.left_cumulative_and_probability(symbol).unwrap();
        assert_eq!(p, 4194304);
        assert_eq!(c as u64, total);
        total += p as u64;
    }
    assert_eq!(total, TOTAL as u64);
    assert_eq!(
        d.left_cumulative_and_probability(14),
        Err(CoderError::UnsupportedSymbol)
    );
}

#[test]
fn categorical_every_symbol_keeps_mass() {
    // weights cover only part of the alphabet; the rest must still get
    // their reserved unit.
    let weights: Vec<u32> = vec![0, 1000000, 0, 0, 2500000, 1];
    let d = Categorical::from_weights(-5, 6, -2, &weights).unwrap();
    let mut total: u64 = 0;
    for symbol in -5..=6 {
        let (c, p) = d.left_cumulative_and_probability(symbol).unwrap();
        assert!(p >= 1);
        assert_eq!(c as u64, total);
        assert_eq!(d.quantile_function(c), (symbol, c, p));
        total += p as u64;
    }
    assert_eq!(total, TOTAL as u64);
}

#[test]
fn gaussian_batch_round_trip() {
    let amount: usize = 200;
    let mut rng: u64 = 97;
    let quantizer = LeakyQuantizer::new(-100, 100).unwrap();
    let mut symbols: Vec<i32> = Vec::new();
    let mut distributions = Vec::new();
    for _ in 0..amount {
        let mean = (next_u32(&mut rng) % 120) as f64 - 60.0;
        let std_dev = (next_u32(&mut rng) % 900) as f64 / 100.0 + 0.1;
        let normal = Normal::new(mean, std_dev).unwrap();
        let d = quantizer.quantize(&scaled_cdf_table(-100, 100, &normal)).unwrap();
        let quantile = next_u32(&mut rng) % TOTAL;
        symbols.push(d.quantile_function(quantile).0);
        distributions.push(d);
    }

    let mut coder = AnsCoder::new();
    coder.push_symbols(&symbols, &distributions).unwrap();
    let decoded = coder.pop_symbols(&distributions).unwrap();
    assert_eq!(decoded, symbols);
    coder.finish_decoding().unwrap();
}

#[test]
fn mixed_batches_round_trip() {
    // the histogram of an empirical model over [-127, 127], provided from
    // symbol -10 onwards
    let hist: Vec<u32> = vec![
        1, 186545, 237403, 295700, 361445, 433686, 509456, 586943, 663946, 737772, 1657269,
        896675, 922197, 930672, 916665, 0, 0, 0, 0, 0, 723031, 650522, 572300, 494702, 418703,
        347600, 1, 283500, 226158, 178194, 136301, 103158, 76823, 55540, 39258, 27988, 54269,
    ];
    let amount: usize = 1000;
    let mut rng: u64 = 1234;

    let categorical = Categorical::from_weights(-127, 127, -10, &hist).unwrap();
    let mut symbols_categorical: Vec<i32> = Vec::new();
    for _ in 0..amount {
        let quantile = next_u32(&mut rng) % TOTAL;
        symbols_categorical.push(categorical.quantile_function(quantile).0);
    }

    let quantizer = LeakyQuantizer::new(-127, 127).unwrap();
    let mut symbols_gaussian: Vec<i32> = Vec::new();
    let mut gaussians = Vec::new();
    for _ in 0..amount / 4 {
        let mean = (next_u32(&mut rng) % 200) as f64 - 100.0;
        let std_dev = (next_u32(&mut rng) % 1000) as f64 / 100.0 + 0.001;
        let normal = Normal::new(mean, std_dev).unwrap();
        let d = quantizer.quantize(&scaled_cdf_table(-127, 127, &normal)).unwrap();
        let quantile = next_u32(&mut rng) % TOTAL;
        symbols_gaussian.push(d.quantile_function(quantile).0);
        gaussians.push(d);
    }

    let mut coder = AnsCoder::new();
    coder
        .push_iid_categorical_symbols(&symbols_categorical, -127, 127, -10, &hist)
        .unwrap();
    coder.push_symbols(&symbols_gaussian, &gaussians).unwrap();

    let reconstructed_gaussian = coder.pop_symbols(&gaussians).unwrap();
    let reconstructed_categorical = coder
        .pop_iid_categorical_symbols(amount, -127, 127, -10, &hist)
        .unwrap();

    coder.finish_decoding().unwrap();

    assert_eq!(reconstructed_gaussian, symbols_gaussian);
    assert_eq!(reconstructed_categorical, symbols_categorical);
}

#[test]
fn iid_quantized_round_trip() {
    let quantizer = LeakyQuantizer::new(-30, 30).unwrap();
    let normal = Normal::new(2.0, 4.0).unwrap();
    let distribution = quantizer.quantize(&scaled_cdf_table(-30, 30, &normal)).unwrap();
    let symbols: Vec<i32> = vec![0, 2, -1, 30, -30, 5, 2, 2, -4, 11];

    let mut coder = AnsCoder::new();
    coder.push_iid_symbols(&symbols, &distribution).unwrap();
    let decoded = coder.pop_iid_symbols(symbols.len(), &distribution).unwrap();
    assert_eq!(decoded, symbols);
    coder.finish_decoding().unwrap();
}

#[test]
fn empty_batches_leave_coder_untouched() {
    let mut coder = AnsCoder::new();
    let empty_symbols: Vec<i32> = Vec::new();
    let empty_distributions: Vec<Categorical> = Vec::new();
    coder.push_symbols(&empty_symbols, &empty_distributions).unwrap();
    assert_eq!(coder.pop_symbols(&empty_distributions).unwrap(), empty_symbols);
    assert_eq!(coder.num_bits(), 64);
    coder.finish_decoding().unwrap();
}

#[test]
fn compressed_size_tracks_entropy() {
    // the serialized size should be within a small constant multiple of
    // the batch's empirical entropy; this is a smoke test, not a bound
    let hist: Vec<u32> = vec![10, 400, 2000, 400, 10];
    let amount: usize = 2000;
    let d = Categorical::from_weights(-2, 2, -2, &hist).unwrap();
    let mut rng: u64 = 7;
    let mut symbols: Vec<i32> = Vec::new();
    for _ in 0..amount {
        let quantile = next_u32(&mut rng) % TOTAL;
        symbols.push(d.quantile_function(quantile).0);
    }
    let mut entropy = 0.0f64;
    for symbol in -2..=2 {
        let (_, p) = d.left_cumulative_and_probability(symbol).unwrap();
        let prob = p as f64 / TOTAL as f64;
        entropy -= prob * prob.log2();
    }
    let mut coder = AnsCoder::new();
    coder.push_iid_symbols(&symbols, &d).unwrap();
    let bits = coder.num_bits() as f64;
    assert!(bits >= amount as f64 * entropy * 0.5);
    assert!(bits <= amount as f64 * entropy * 2.0 + 128.0);
}

#[test]
fn iid_categorical_invalid_arguments() {
    let mut coder = AnsCoder::new();
    assert_eq!(
        coder.push_iid_categorical_symbols(&vec![0], 3, 2, 0, &vec![1]),
        Err(CoderError::InvalidDistribution)
    );
    assert_eq!(
        coder
            .pop_iid_categorical_symbols(1, 3, 2, 0, &vec![1])
            .map(|_| ()),
        Err(CoderError::InvalidDistribution)
    );
    coder.finish_decoding().unwrap();
}
