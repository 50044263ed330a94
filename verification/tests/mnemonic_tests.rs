use helium_wallet::create::gen_keypair;
use helium_wallet::error::Error;
use helium_wallet::mnemonic::{entropy_to_mnemonic, mnemonic_to_entropy};

#[test]
fn entropy_round_trips_through_words() {
    let entropy: Vec<u8> = (0u8..16).collect();
    let words = entropy_to_mnemonic(&entropy);
    assert_eq!(words.len(), 12);
    let seed = mnemonic_to_entropy(&words).unwrap();
    assert_eq!(seed.len(), 32);
    assert_eq!(&seed[0..16], &entropy[..]);
    assert_eq!(&seed[16..32], &entropy[..]);
}

#[test]
fn zero_entropy_starts_with_abandon() {
    // Index 0 of the vocabulary is "abandon"; all-zero entropy encodes it
    // eleven times, so a lookup handing back its input would fail here.
    let words = entropy_to_mnemonic(&vec![0u8; 16]);
    for w in 0..11 {
        assert_eq!(words[w], "abandon");
    }
    let seed = mnemonic_to_entropy(&words).unwrap();
    assert_eq!(seed, vec![0u8; 32]);
}

#[test]
fn word_outside_vocabulary_is_invalid() {
    let entropy = vec![5u8; 16];
    let mut words = entropy_to_mnemonic(&entropy);
    words[3] = "zzzz".to_string();
    assert!(matches!(
        mnemonic_to_entropy(&words),
        Err(Error::InvalidMnemonic)
    ));
}

#[test]
fn wrong_word_count_is_invalid() {
    let entropy = vec![9u8; 16];
    let mut words = entropy_to_mnemonic(&entropy);
    words.pop();
    assert!(matches!(
        mnemonic_to_entropy(&words),
        Err(Error::InvalidMnemonic)
    ));
    assert!(matches!(
        mnemonic_to_entropy(&Vec::new()),
        Err(Error::InvalidMnemonic)
    ));
}

#[test]
fn altered_word_fails_checksum() {
    let entropy = vec![0u8; 16];
    let words = entropy_to_mnemonic(&entropy);
    let vocabulary = bip39::Language::English.word_list();
    // Swap the first word ("abandon") for others; each flips entropy bits,
    // so the stored checksum no longer matches the recomputed one.
    let mut failures = 0;
    for replacement in ["ability", "zoo", "yellow", "wagon"] {
        assert_ne!(words[0], replacement);
        let mut altered = words.clone();
        altered[0] = replacement.to_string();
        assert!(vocabulary.contains(&replacement));
        if matches!(mnemonic_to_entropy(&altered), Err(Error::InvalidMnemonic)) {
            failures += 1;
        }
    }
    // A 4-bit checksum leaves each alteration a 1-in-16 chance of slipping
    // through; all four slipping through would mean no checksum at all.
    assert!(failures >= 3);
}

#[test]
fn keypair_from_seed_words_is_deterministic() {
    let entropy = vec![11u8; 16];
    let words = entropy_to_mnemonic(&entropy);
    let a = gen_keypair(Some(words.clone())).unwrap();
    let b = gen_keypair(Some(words)).unwrap();
    assert_eq!(a.secret, b.secret);
    assert_eq!(a.address(), b.address());
    // The seed handed to key derivation is the entropy repeated.
    assert_eq!(&a.secret[0..16], &entropy[..]);
    assert_eq!(&a.secret[16..32], &entropy[..]);
}

#[test]
fn bad_seed_words_reject_keypair_generation() {
    let words: Vec<String> = vec!["notaword".to_string(); 12];
    assert!(matches!(
        gen_keypair(Some(words)),
        Err(Error::InvalidMnemonic)
    ));
}
