use helium_wallet::create;
use helium_wallet::error::Error;
use helium_wallet::format::{Basic, Format, KeyShare, Sharded};
use helium_wallet::keypair::{Keypair, Seed};
use helium_wallet::pwhash::PWHash;
use helium_wallet::upgrade;
use helium_wallet::wallet::Wallet;
use sha2::Digest;

fn test_pwhash() -> PWHash {
    // Small (but still valid) costs keep the tests quick.
    PWHash {
        salt: vec![7u8; 16],
        t_cost: 1,
        m_cost: 8,
    }
}

fn seeded_keypair(fill: u8) -> Keypair {
    Keypair::gen_keypair_from_seed(&Seed(vec![fill; 32]))
}

fn basic_format() -> Format {
    Format::Basic(Basic {
        pwhash: test_pwhash(),
    })
}

fn sharded_format(n: u8, k: u8) -> Format {
    Format::Sharded(Sharded {
        key_share_count: n,
        recovery_threshold: k,
        pwhash: test_pwhash(),
        key_shares: Vec::new(),
    })
}

#[test]
fn basic_encrypt_decrypt_round_trip() {
    let kp = seeded_keypair(1);
    let wallet = Wallet::encrypt(&kp, b"correct-horse", basic_format()).unwrap();
    let back = wallet.decrypt(b"correct-horse").unwrap();
    assert_eq!(back.secret, kp.secret);
    assert_eq!(back.public, kp.public);
    assert_eq!(back.address(), kp.address());
    assert_eq!(wallet.address(), kp.address());
}

#[test]
fn sharded_encrypt_decrypt_round_trip() {
    let kp = seeded_keypair(2);
    let wallet = Wallet::encrypt(&kp, b"correct-horse", sharded_format(5, 3)).unwrap();
    let back = wallet.decrypt(b"correct-horse").unwrap();
    assert_eq!(back.secret, kp.secret);
    assert_eq!(back.public, kp.public);
    assert!(wallet.is_sharded());
}

#[test]
fn wrong_password_fails_basic() {
    let kp = seeded_keypair(3);
    let wallet = Wallet::encrypt(&kp, b"correct-horse", basic_format()).unwrap();
    assert!(matches!(
        wallet.decrypt(b"wrong-password"),
        Err(Error::DecryptionFailed)
    ));
    assert!(matches!(wallet.decrypt(b""), Err(Error::DecryptionFailed)));
}

#[test]
fn wrong_password_fails_sharded() {
    let kp = seeded_keypair(4);
    let wallet = Wallet::encrypt(&kp, b"pw", sharded_format(5, 3)).unwrap();
    assert!(matches!(
        wallet.decrypt(b"pw2"),
        Err(Error::DecryptionFailed)
    ));
}

#[test]
fn wrong_password_random_strings() {
    let kp = seeded_keypair(5);
    let wallet = Wallet::encrypt(&kp, b"the-password", basic_format()).unwrap();
    for i in 0u8..8 {
        let wrong = vec![i; (i as usize % 7) + 1];
        assert!(matches!(
            wallet.decrypt(&wrong),
            Err(Error::DecryptionFailed)
        ));
    }
}

#[test]
fn corrupted_ciphertext_fails() {
    let kp = seeded_keypair(6);
    let mut wallet = Wallet::encrypt(&kp, b"pw", basic_format()).unwrap();
    wallet.ciphertext[0] ^= 0xff;
    assert!(matches!(wallet.decrypt(b"pw"), Err(Error::DecryptionFailed)));
}

#[test]
fn any_three_of_five_shards_recover() {
    let kp = seeded_keypair(7);
    let wallet = Wallet::encrypt(&kp, b"correct-horse", sharded_format(5, 3)).unwrap();
    let shards = wallet.shards().unwrap();
    assert_eq!(shards.len(), 5);
    for a in 0..5 {
        for b in (a + 1)..5 {
            for c in (b + 1)..5 {
                let subset = vec![
                    shards[a].clone(),
                    shards[b].clone(),
                    shards[c].clone(),
                ];
                let back = Wallet::recover(&subset, b"correct-horse").unwrap();
                assert_eq!(back.address(), kp.address());
                assert_eq!(back.secret, kp.secret);
            }
        }
    }
}

#[test]
fn two_of_five_shards_insufficient() {
    let kp = seeded_keypair(8);
    let wallet = Wallet::encrypt(&kp, b"correct-horse", sharded_format(5, 3)).unwrap();
    let shards = wallet.shards().unwrap();
    for a in 0..5 {
        for b in (a + 1)..5 {
            let subset = vec![shards[a].clone(), shards[b].clone()];
            assert!(matches!(
                Wallet::recover(&subset, b"correct-horse"),
                Err(Error::InsufficientShares)
            ));
        }
    }
}

#[test]
fn duplicate_shards_rejected() {
    let kp = seeded_keypair(9);
    let wallet = Wallet::encrypt(&kp, b"correct-horse", sharded_format(5, 3)).unwrap();
    let shards = wallet.shards().unwrap();
    let dup = vec![shards[0].clone(), shards[0].clone(), shards[1].clone()];
    assert!(matches!(
        Wallet::recover(&dup, b"correct-horse"),
        Err(Error::InvalidShare)
    ));
}

#[test]
fn mismatched_shards_rejected() {
    let kp_a = seeded_keypair(30);
    let kp_b = seeded_keypair(31);
    let wallet_a = Wallet::encrypt(&kp_a, b"pw", sharded_format(3, 2)).unwrap();
    let wallet_b = Wallet::encrypt(&kp_b, b"pw", sharded_format(3, 2)).unwrap();
    let shards_a = wallet_a.shards().unwrap();
    let shards_b = wallet_b.shards().unwrap();
    let mixed = vec![shards_a[0].clone(), shards_b[1].clone()];
    assert!(matches!(
        Wallet::recover(&mixed, b"pw"),
        Err(Error::InvalidShare)
    ));
}

#[test]
fn recover_with_no_shards_insufficient() {
    let none: Vec<Wallet> = Vec::new();
    assert!(matches!(
        Wallet::recover(&none, b"pw"),
        Err(Error::InsufficientShares)
    ));
}

#[test]
fn shards_of_basic_wallet_refused() {
    let kp = seeded_keypair(10);
    let wallet = Wallet::encrypt(&kp, b"pw", basic_format()).unwrap();
    assert!(matches!(wallet.shards(), Err(Error::FormatError)));
}

#[test]
fn shard_address_visible_but_not_decryptable_alone() {
    let kp = seeded_keypair(11);
    let wallet = Wallet::encrypt(&kp, b"pw", sharded_format(3, 2)).unwrap();
    let shards = wallet.shards().unwrap();
    // Address is recoverable from a single shard without any password...
    assert_eq!(shards[0].address(), kp.address());
    // ...but one shard alone cannot decrypt even with the password.
    assert!(matches!(
        shards[0].decrypt(b"pw"),
        Err(Error::InsufficientShares)
    ));
}

#[test]
fn seeded_generation_is_deterministic() {
    let a = seeded_keypair(42);
    let b = seeded_keypair(42);
    assert_eq!(a.secret, b.secret);
    assert_eq!(a.public, b.public);
    assert_eq!(a.address(), b.address());
    let c = seeded_keypair(43);
    assert_ne!(a.public, c.public);
    assert_ne!(a.address(), c.address());
}

#[test]
fn random_generation_is_not_reproducible() {
    let a = Keypair::gen_keypair().unwrap();
    let b = Keypair::gen_keypair().unwrap();
    assert_ne!(a.secret, b.secret);
    assert_ne!(a.address(), b.address());
}

#[test]
fn address_matches_known_derivation() {
    // Recompute the address from first principles with the same outside
    // crates the library calls, so a wrapper echoing its input would fail.
    let kp = seeded_keypair(1);
    let signing = ed25519_dalek::SigningKey::from_bytes(&[1u8; 32]);
    let public = signing.verifying_key().to_bytes().to_vec();
    assert_eq!(kp.public, public);
    let mut payload = vec![0u8];
    payload.extend_from_slice(&public);
    let inner = sha2::Sha256::digest(&payload);
    let outer = sha2::Sha256::digest(inner);
    payload.extend_from_slice(&outer[0..4]);
    let expected = bs58::encode(&payload).into_string();
    assert_eq!(kp.address(), expected);
}

#[test]
fn derive_key_matches_argon2id() {
    let fmt = Basic {
        pwhash: test_pwhash(),
    };
    let key = fmt.derive_key(b"swordfish").unwrap();
    let params = argon2::Params::new(8, 1, 1, Some(32)).unwrap();
    let ctx = argon2::Argon2::new(argon2::Algorithm::Argon2id, argon2::Version::V0x13, params);
    let mut expected = vec![0u8; 32];
    ctx.hash_password_into(b"swordfish", &[7u8; 16], &mut expected)
        .unwrap();
    assert_eq!(key, expected);
}

#[test]
fn upgrade_preserves_address() {
    let kp = seeded_keypair(12);
    let wallet = Wallet::encrypt(&kp, b"correct-horse", sharded_format(3, 2)).unwrap();
    let cmd = upgrade::Basic { force: true };
    let upgraded = cmd.run(&wallet, b"correct-horse").unwrap();
    assert_eq!(upgraded.address(), wallet.address());
    assert!(!upgraded.is_sharded());
    let back = upgraded.decrypt(b"correct-horse").unwrap();
    assert_eq!(back.address(), kp.address());
}

#[test]
fn upgrade_with_wrong_password_aborts() {
    let kp = seeded_keypair(13);
    let wallet = Wallet::encrypt(&kp, b"right", basic_format()).unwrap();
    let cmd = upgrade::Basic { force: false };
    assert!(matches!(
        cmd.run(&wallet, b"wrong"),
        Err(Error::DecryptionFailed)
    ));
}

#[test]
fn envelope_round_trips_through_bytes() {
    let kp = seeded_keypair(14);
    let wallet = Wallet::encrypt(&kp, b"pw", basic_format()).unwrap();
    let bytes = wallet.write();
    let back = Wallet::read(&bytes).unwrap();
    assert_eq!(back.address(), wallet.address());
    assert_eq!(back.pwhash().salt, wallet.pwhash().salt);
    assert_eq!(back.pwhash().t_cost, wallet.pwhash().t_cost);
    assert_eq!(back.pwhash().m_cost, wallet.pwhash().m_cost);
    let decrypted = back.decrypt(b"pw").unwrap();
    assert_eq!(decrypted.address(), kp.address());
}

#[test]
fn shard_files_round_trip_and_recover() {
    let kp = seeded_keypair(15);
    let wallet = Wallet::encrypt(&kp, b"correct-horse", sharded_format(3, 2)).unwrap();
    let shards = wallet.shards().unwrap();
    // Write each shard as its own envelope and read it back, as the shard
    // files on disk would be.
    let mut reread = Vec::new();
    for shard in &shards {
        let bytes = shard.write();
        reread.push(Wallet::read(&bytes).unwrap());
    }
    let subset = vec![reread[0].clone(), reread[2].clone()];
    let back = Wallet::recover(&subset, b"correct-horse").unwrap();
    assert_eq!(back.address(), kp.address());
}

#[test]
fn unknown_format_tag_is_hard_error() {
    let kp = seeded_keypair(16);
    let wallet = Wallet::encrypt(&kp, b"pw", basic_format()).unwrap();
    let mut bytes = wallet.write();
    bytes[0] = 9;
    assert!(matches!(Wallet::read(&bytes), Err(Error::FormatError)));
}

#[test]
fn truncated_envelope_is_format_error() {
    let kp = seeded_keypair(17);
    let wallet = Wallet::encrypt(&kp, b"pw", basic_format()).unwrap();
    let bytes = wallet.write();
    let truncated = bytes[..bytes.len() - 1].to_vec();
    assert!(matches!(Wallet::read(&truncated), Err(Error::FormatError)));
}

#[test]
fn trailing_garbage_is_format_error() {
    let kp = seeded_keypair(18);
    let wallet = Wallet::encrypt(&kp, b"pw", basic_format()).unwrap();
    let mut bytes = wallet.write();
    bytes.push(0);
    assert!(matches!(Wallet::read(&bytes), Err(Error::FormatError)));
}

#[test]
fn corrupt_pwhash_tag_is_format_error() {
    let kp = seeded_keypair(19);
    let wallet = Wallet::encrypt(&kp, b"pw", basic_format()).unwrap();
    let mut bytes = wallet.write();
    bytes[1] = 0xee;
    assert!(matches!(Wallet::read(&bytes), Err(Error::FormatError)));
}

#[test]
fn key_share_bytes_round_trip() {
    let bytes: Vec<u8> = (0u8..33).collect();
    let share = KeyShare::from_slice(&bytes);
    assert_eq!(share.to_vec(), bytes);
}

#[test]
fn create_commands_produce_working_wallets() {
    let basic = create::Basic {
        force: false,
        seed: false,
    };
    let w = basic.run(None, b"correct-horse").unwrap();
    assert!(!w.is_sharded());
    assert!(w.decrypt(b"correct-horse").is_ok());

    let sharded = create::Sharded {
        force: false,
        seed: false,
        key_share_count: 5,
        recovery_threshold: 3,
    };
    let sw = sharded.run(None, b"correct-horse").unwrap();
    assert!(sw.is_sharded());
    assert!(sw.decrypt(b"correct-horse").is_ok());
}

#[test]
fn create_sharded_rejects_bad_thresholds() {
    let cmd = create::Sharded {
        force: false,
        seed: false,
        key_share_count: 2,
        recovery_threshold: 3,
    };
    assert!(matches!(
        cmd.run(None, b"pw"),
        Err(Error::FormatError)
    ));
    let zero = create::Sharded {
        force: false,
        seed: false,
        key_share_count: 5,
        recovery_threshold: 0,
    };
    assert!(matches!(zero.run(None, b"pw"), Err(Error::FormatError)));
}

#[test]
fn concrete_scenario_end_to_end() {
    // Create a basic wallet under "correct-horse": verification succeeds.
    let kp = seeded_keypair(20);
    let basic = Wallet::encrypt(&kp, b"correct-horse", basic_format()).unwrap();
    assert!(basic.decrypt(b"correct-horse").is_ok());
    // Verifying with "wrong-password" fails.
    assert!(matches!(
        basic.decrypt(b"wrong-password"),
        Err(Error::DecryptionFailed)
    ));
    // Split the same keypair into 3 shares with threshold 2, combine shares
    // 1 and 3, and recover the same address as the unsharded wallet.
    let sharded = Wallet::encrypt(&kp, b"correct-horse", sharded_format(3, 2)).unwrap();
    let shards = sharded.shards().unwrap();
    let subset = vec![shards[0].clone(), shards[2].clone()];
    let back = Wallet::recover(&subset, b"correct-horse").unwrap();
    assert_eq!(back.address(), basic.address());
}

#[test]
fn error_messages_name_each_kind() {
    assert_eq!(Error::DecryptionFailed.message(), "decryption failed");
    assert_eq!(
        Error::InsufficientShares.message(),
        "not enough key shares"
    );
    assert_eq!(Error::InvalidShare.message(), "invalid key share");
    assert_eq!(
        Error::FormatError.message(),
        "unrecognized or corrupt wallet format"
    );
}
