use sharded_vault::shamir::{reconstruct, split, split_with_coefficients, Share, SharingError};

fn pick(shares: &[Share], indices: &[u8]) -> Vec<Share> {
    indices
        .iter()
        .map(|i| {
            let s = &shares[(*i - 1) as usize];
            Share { index: s.index, threshold: s.threshold, values: s.values.clone() }
        })
        .collect()
}

#[test]
fn hunter2_three_of_five() {
    let secret = b"hunter2".to_vec();
    let shares = split(&secret, 3, 5).unwrap();
    assert_eq!(shares.len(), 5);
    for (i, s) in shares.iter().enumerate() {
        assert_eq!(s.index as usize, i + 1);
        assert_eq!(s.threshold, 3);
        assert_eq!(s.values.len(), secret.len());
    }
    assert_eq!(reconstruct(&pick(&shares, &[1, 3, 5])).unwrap(), secret);
    assert_eq!(reconstruct(&pick(&shares, &[2, 3, 4])).unwrap(), secret);
    for a in 1..=5u8 {
        for b in (a + 1)..=5u8 {
            assert_eq!(
                reconstruct(&pick(&shares, &[a, b])),
                Err(SharingError::InsufficientShares)
            );
        }
    }
}

#[test]
fn every_subset_of_threshold_size_recovers() {
    let secret = vec![0u8, 1, 127, 128, 255, 42];
    let shares = split(&secret, 3, 6).unwrap();
    for a in 1..=6u8 {
        for b in (a + 1)..=6u8 {
            for c in (b + 1)..=6u8 {
                assert_eq!(reconstruct(&pick(&shares, &[c, a, b])).unwrap(), secret);
            }
        }
    }
    assert_eq!(reconstruct(&pick(&shares, &[1, 2, 3, 4, 5, 6])).unwrap(), secret);
}

#[test]
fn share_values_stay_in_the_field() {
    for _ in 0..20 {
        let secret: Vec<u8> = (0..=255u8).collect();
        let shares = split(&secret, 4, 7).unwrap();
        for s in &shares {
            assert!(s.values.iter().all(|v| *v < 257));
        }
        assert_eq!(reconstruct(&pick(&shares, &[7, 2, 5, 1])).unwrap(), secret);
    }
}

#[test]
fn known_coefficients_give_known_shares() {
    // byte 42 with the polynomial 42 + 1x, byte 200 with 200 + 100x
    let shares = split_with_coefficients(&vec![42u8, 200], 2, 3, &vec![1u16, 100]);
    assert_eq!(shares.len(), 3);
    assert_eq!(shares[0].values, vec![43, 300 % 257]);
    assert_eq!(shares[1].values, vec![44, 400 % 257]);
    assert_eq!(shares[2].values, vec![45, 500 % 257]);
    assert_eq!(reconstruct(&pick(&shares, &[1, 3])).unwrap(), vec![42u8, 200]);
    assert_eq!(reconstruct(&pick(&shares, &[3, 2])).unwrap(), vec![42u8, 200]);
}

#[test]
fn threshold_one_shares_equal_the_secret() {
    let secret = b"open".to_vec();
    let shares = split(&secret, 1, 4).unwrap();
    for s in &shares {
        let values: Vec<u16> = secret.iter().map(|b| *b as u16).collect();
        assert_eq!(s.values, values);
        assert_eq!(reconstruct(&pick(&shares, &[s.index])).unwrap(), secret);
    }
}

#[test]
fn threshold_equal_to_total_needs_all() {
    let secret = b"all of us".to_vec();
    let shares = split(&secret, 5, 5).unwrap();
    assert_eq!(reconstruct(&pick(&shares, &[5, 4, 3, 2, 1])).unwrap(), secret);
    assert_eq!(
        reconstruct(&pick(&shares, &[1, 2, 3, 4])),
        Err(SharingError::InsufficientShares)
    );
}

#[test]
fn empty_secret_splits_and_recovers() {
    let shares = split(&vec![], 2, 3).unwrap();
    assert_eq!(shares.len(), 3);
    assert_eq!(reconstruct(&pick(&shares, &[1, 2])).unwrap(), Vec::<u8>::new());
}

#[test]
fn largest_share_count() {
    let secret = b"wide".to_vec();
    let shares = split(&secret, 255, 255).unwrap();
    assert_eq!(shares.len(), 255);
    assert_eq!(shares[254].index, 255);
    let all: Vec<u8> = (1..=255u8).rev().collect();
    assert_eq!(reconstruct(&pick(&shares, &all)).unwrap(), secret);
}

#[test]
fn invalid_parameters() {
    assert_eq!(split(&vec![1], 0, 3).err(), Some(SharingError::InvalidParameters));
    assert_eq!(split(&vec![1], 4, 3).err(), Some(SharingError::InvalidParameters));
    assert_eq!(split(&vec![1], 1, 0).err(), Some(SharingError::InvalidParameters));
}

#[test]
fn no_shares_is_insufficient() {
    assert_eq!(reconstruct(&vec![]), Err(SharingError::InsufficientShares));
}

#[test]
fn duplicate_index_is_rejected() {
    let shares = split(&b"dup".to_vec(), 2, 3).unwrap();
    assert_eq!(reconstruct(&pick(&shares, &[2, 2])), Err(SharingError::DuplicateIndex));
}

#[test]
fn inconsistent_shares_are_malformed() {
    let shares = split(&b"abc".to_vec(), 2, 3).unwrap();
    let mut short = pick(&shares, &[1, 2]);
    short[1].values.pop();
    assert_eq!(reconstruct(&short), Err(SharingError::MalformedShare));
    let mut other_threshold = pick(&shares, &[1, 2]);
    other_threshold[1].threshold = 1;
    assert_eq!(reconstruct(&other_threshold), Err(SharingError::MalformedShare));
    let mut zero_index = pick(&shares, &[1, 2]);
    zero_index[0].index = 0;
    assert_eq!(reconstruct(&zero_index), Err(SharingError::MalformedShare));
    let mut outside = pick(&shares, &[1, 2]);
    outside[0].values[0] = 257;
    assert_eq!(reconstruct(&outside), Err(SharingError::MalformedShare));
}

#[test]
fn recovered_value_outside_a_byte_is_malformed() {
    let s = Share { index: 1, threshold: 1, values: vec![256] };
    assert_eq!(reconstruct(&vec![s]), Err(SharingError::MalformedShare));
}
