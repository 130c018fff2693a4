use ans_coder::{AnsCoder, CoderError, DiscreteDistribution, LeakyQuantizer, TOTAL};
use statrs::distribution::{ContinuousCDF, Normal};

/// Scaled CDF of a continuous distribution at the interior symbol
/// boundaries of `[min, max]`: `floor(cdf(min + i + 0.5) * free_mass)` for
/// each `i` in `0..span-1`, clamped to be non-decreasing against floating
/// point noise.
fn scaled_cdf_table(min: i32, max: i32, dist: &Normal) -> Vec<u32> {
    let span = (max as i64 - min as i64 + 1) as usize;
    let free = (TOTAL as i64 - span as i64) as f64;
    let mut table = Vec::with_capacity(span - 1);
    let mut prev: u32 = 0;
    for i in 0..span - 1 {
        let boundary = min as f64 + i as f64 + 0.5;
        let mut v = (dist.cdf(boundary) * free) as u32;
        if v < prev {
            v = prev;
        }
        prev = v;
        table.push(v);
    }
    table
}

#[test]
fn compress_few() {
    let mut coder = AnsCoder::new();
    let quantizer = LeakyQuantizer::new(-127, 127).unwrap();
    let normal = Normal::new(3.2, 5.1).unwrap();
    let distribution = quantizer.quantize(&scaled_cdf_table(-127, 127, &normal)).unwrap();

    coder.push_symbol(3, &distribution).unwrap();
    coder.push_symbol(100, &distribution).unwrap();

    assert_eq!(coder.pop_symbol(&distribution).unwrap(), 100);
    assert_eq!(coder.pop_symbol(&distribution).unwrap(), 3);

    coder.finish_decoding().unwrap();
}

#[test]
fn empty_stream_decodes() {
    let coder = AnsCoder::new();
    assert_eq!(coder.num_bits(), 64);
    coder.finish_decoding().unwrap();
}

#[test]
fn fresh_pop_underflows() {
    let mut coder = AnsCoder::new();
    let quantizer = LeakyQuantizer::new(-10, 10).unwrap();
    let normal = Normal::new(0.0, 2.0).unwrap();
    let distribution = quantizer.quantize(&scaled_cdf_table(-10, 10, &normal)).unwrap();
    assert_eq!(coder.pop_symbol(&distribution), Err(CoderError::Underflow));
}

#[test]
fn unsupported_symbol_rejected() {
    let mut coder = AnsCoder::new();
    let quantizer = LeakyQuantizer::new(-127, 127).unwrap();
    let normal = Normal::new(0.0, 10.0).unwrap();
    let distribution = quantizer.quantize(&scaled_cdf_table(-127, 127, &normal)).unwrap();
    assert_eq!(coder.push_symbol(200, &distribution), Err(CoderError::UnsupportedSymbol));
    assert_eq!(
        distribution.left_cumulative_and_probability(-128),
        Err(CoderError::UnsupportedSymbol)
    );
    // the failed push left the coder untouched
    assert_eq!(coder.num_bits(), 64);
    coder.finish_decoding().unwrap();
}

#[test]
fn residual_state_fails_decoding() {
    let mut coder = AnsCoder::new();
    let quantizer = LeakyQuantizer::new(-10, 10).unwrap();
    let normal = Normal::new(1.0, 3.0).unwrap();
    let distribution = quantizer.quantize(&scaled_cdf_table(-10, 10, &normal)).unwrap();
    coder.push_symbol(7, &distribution).unwrap();
    assert_eq!(coder.finish_decoding(), Err(CoderError::NotFullyConsumed));
}

#[test]
fn num_bits_monotone_and_at_least_64() {
    let mut coder = AnsCoder::new();
    let quantizer = LeakyQuantizer::new(-50, 50).unwrap();
    let normal = Normal::new(0.0, 1.0).unwrap();
    let distribution = quantizer.quantize(&scaled_cdf_table(-50, 50, &normal)).unwrap();
    let mut last = coder.num_bits();
    assert_eq!(last, 64);
    for i in 0..120 {
        let symbol = (i % 101) - 50;
        coder.push_symbol(symbol, &distribution).unwrap();
        let now = coder.num_bits();
        assert!(now >= last);
        assert!(now >= 64);
        assert_eq!(now % 32, 0);
        last = now;
    }
    // 120 improbable symbols must have spilled at least one word
    assert!(last > 64);
}

#[test]
fn serialization_round_trip() {
    let mut coder = AnsCoder::new();
    let quantizer = LeakyQuantizer::new(-127, 127).unwrap();
    let normal = Normal::new(-20.0, 6.5).unwrap();
    let distribution = quantizer.quantize(&scaled_cdf_table(-127, 127, &normal)).unwrap();
    let symbols: Vec<i32> = vec![-25, -20, -13, 0, 3, 99, -127, 127, -19, -21];
    for &s in &symbols {
        coder.push_symbol(s, &distribution).unwrap();
    }
    let words = coder.finish_encoding();
    assert!(words.len() >= 2);

    let mut decoder = AnsCoder::from_compressed(words).unwrap();
    let mut decoded = Vec::new();
    for _ in 0..symbols.len() {
        decoded.push(decoder.pop_symbol(&distribution).unwrap());
    }
    decoded.reverse();
    assert_eq!(decoded, symbols);
    decoder.finish_decoding().unwrap();
}

#[test]
fn truncated_stream_underflows() {
    let mut coder = AnsCoder::new();
    let quantizer = LeakyQuantizer::new(-127, 127).unwrap();
    let normal = Normal::new(3.2, 5.1).unwrap();
    let distribution = quantizer.quantize(&scaled_cdf_table(-127, 127, &normal)).unwrap();
    // improbable symbols spill quickly, so the stream grows past two words
    for _ in 0..10 {
        coder.push_symbol(100, &distribution).unwrap();
        coder.push_symbol(-100, &distribution).unwrap();
    }
    let mut words = coder.finish_encoding();
    assert!(words.len() > 2);
    words.pop();

    let mut decoder = AnsCoder::from_compressed(words).unwrap();
    let mut saw_underflow = false;
    for _ in 0..10000 {
        match decoder.pop_symbol(&distribution) {
            Ok(_) => {},
            Err(e) => {
                assert_eq!(e, CoderError::Underflow);
                saw_underflow = true;
                break;
            },
        }
    }
    assert!(saw_underflow);
}

#[test]
fn stream_too_short_to_load() {
    assert_eq!(
        AnsCoder::from_compressed(vec![17]).map(|_| ()),
        Err(CoderError::Underflow)
    );
    // two words are enough to reload a fresh coder's serialization
    let words = AnsCoder::new().finish_encoding();
    assert_eq!(words.len(), 2);
    let coder = AnsCoder::from_compressed(words).unwrap();
    coder.finish_decoding().unwrap();
}
