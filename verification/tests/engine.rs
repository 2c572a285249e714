use mucli::encryption::annex::{
    decrypt_file, decrypt_file_entirely, decrypted_file_path,
    encrypt_file, encrypt_file_x, encrypt_layers, encrypted_file_path, open_layer, seal_layer,
    update_file_encryption_key,
};
use mucli::encryption::keys::{
    add_encryption_key, init_encryption_key, init_new_encryption_key, latest_encryption_version,
    nth_encription_key, purge_encryption_keys,
};
use mucli::encryption::seal::DecryptionFailure;
use mucli::encryption::EncryptionError;
use mucli::utils::config_interact::Config;
use mucli::utils::file::file_layer;

const MAGIC: [u8; 4] = [0xAA, 0xBB, 0xCC, 0xDD];

fn store_with_one_key() -> Config {
    let mut config = Config::open("");
    assert_eq!(init_encryption_key(&mut config), Ok(()));
    config
}

fn header(version: u32, layer: u32) -> Vec<u8> {
    let mut bytes = MAGIC.to_vec();
    bytes.extend_from_slice(&version.to_be_bytes());
    bytes.extend_from_slice(&layer.to_be_bytes());
    bytes
}

#[test]
fn first_encryption_creates_key_zero_and_round_trips() {
    let mut config = Config::open("");
    assert_eq!(
        latest_encryption_version(&config),
        Err(EncryptionError::NoVersionFound)
    );
    assert_eq!(init_encryption_key(&mut config), Ok(()));
    assert_eq!(latest_encryption_version(&config), Ok(0));

    let plain = b"hello, layered world".to_vec();
    let sealed = encrypt_file(&plain, &config).unwrap();
    assert_eq!(
        &sealed[..12],
        &[0xAA, 0xBB, 0xCC, 0xDD, 0, 0, 0, 0, 0, 0, 0, 1]
    );
    assert_eq!(sealed.len(), 12 + 56 + plain.len());
    assert_ne!(&sealed[12 + 56..], &plain[..]);

    let opened = decrypt_file(&sealed, &config).unwrap();
    assert_eq!(opened, plain);
    assert_ne!(&opened[..4], &MAGIC[..]);
}

#[test]
fn one_layer_round_trips_for_several_buffers() {
    let config = store_with_one_key();
    let buffers: Vec<Vec<u8>> = vec![
        vec![0],
        vec![0xAA, 0xBB, 0xCC],
        b"plain text with a line\nand another\r\n".to_vec(),
        (0u8..=255).collect(),
    ];
    for plain in buffers {
        let sealed = encrypt_file(&plain, &config).unwrap();
        assert_eq!(decrypt_file(&sealed, &config), Ok(plain));
    }
}

#[test]
fn sealing_the_same_file_twice_gives_different_bytes() {
    let config = store_with_one_key();
    let plain = b"same input".to_vec();
    let first = encrypt_file(&plain, &config).unwrap();
    let second = encrypt_file(&plain, &config).unwrap();
    assert_eq!(&first[..12], &second[..12]);
    assert_ne!(first, second);
}

#[test]
fn layer_goes_up_by_one_and_down_by_one() {
    let config = store_with_one_key();
    let plain = b"count the layers".to_vec();
    assert_eq!(file_layer(&plain), 0);
    let one = encrypt_file(&plain, &config).unwrap();
    assert_eq!(file_layer(&one), 1);
    let two = encrypt_file(&one, &config).unwrap();
    assert_eq!(file_layer(&two), 2);
    assert_eq!(&two[..12], &header(0, 2)[..]);
    assert_eq!(two.len(), one.len() + 56);

    let back_to_one = decrypt_file(&two, &config).unwrap();
    assert_eq!(file_layer(&back_to_one), 1);
    assert_eq!(back_to_one, one);
    let back_to_plain = decrypt_file(&back_to_one, &config).unwrap();
    assert_eq!(file_layer(&back_to_plain), 0);
    assert_eq!(back_to_plain, plain);
    assert_eq!(
        decrypt_file(&back_to_plain, &config),
        Err(EncryptionError::DecryptNotCryptedFile)
    );
}

#[test]
fn every_layer_comes_off_again() {
    let config = store_with_one_key();
    let plain = b"wrapped several times".to_vec();
    for times in 0u8..=3 {
        let wrapped = encrypt_file_x(&plain, &config, times).unwrap();
        assert_eq!(file_layer(&wrapped), times as u32);
        if times == 0 {
            assert_eq!(wrapped, plain);
        } else {
            assert_eq!(&wrapped[..12], &header(0, times as u32)[..]);
            assert_eq!(wrapped.len(), 12 + plain.len() + 56 * times as usize);
        }
        assert_eq!(decrypt_file_entirely(&wrapped, &config), Ok(plain.clone()));
    }
}

#[test]
fn a_plain_file_is_left_as_it_is_by_full_decryption() {
    let config = Config::open("");
    let plain = b"never encrypted".to_vec();
    assert_eq!(decrypt_file_entirely(&plain, &config), Ok(plain.clone()));
    assert_eq!(encrypt_file_x(&plain, &config, 0), Ok(plain));
}

#[test]
fn header_is_present_exactly_while_the_layer_is_positive() {
    let config = store_with_one_key();
    let plain = b"no header on me".to_vec();
    assert_ne!(&plain[..4], &MAGIC[..]);
    let sealed = encrypt_file(&plain, &config).unwrap();
    assert_eq!(&sealed[..4], &MAGIC[..]);
    assert!(file_layer(&sealed) >= 1);
    let opened = decrypt_file(&sealed, &config).unwrap();
    assert_eq!(file_layer(&opened), 0);
    assert_eq!(opened.len(), plain.len());
    assert_ne!(&opened[..4], &MAGIC[..]);
}

#[test]
fn rotation_keeps_content_and_layer_and_binds_to_latest() {
    let mut config = store_with_one_key();
    let plain = b"to be re-keyed".to_vec();
    let old = encrypt_file_x(&plain, &config, 2).unwrap();
    assert_eq!(&old[..12], &header(0, 2)[..]);

    assert_eq!(init_new_encryption_key(&mut config), Ok(()));
    assert_eq!(latest_encryption_version(&config), Ok(1));
    assert_ne!(
        nth_encription_key(&config, 0).unwrap(),
        nth_encription_key(&config, 1).unwrap()
    );

    let rotated = update_file_encryption_key(&old, &config).unwrap();
    assert_eq!(&rotated[..12], &header(1, 2)[..]);
    assert_eq!(rotated.len(), old.len());
    assert_ne!(rotated, old);
    assert_eq!(decrypt_file_entirely(&rotated, &config), Ok(plain));

    let again = update_file_encryption_key(&rotated, &config).unwrap_err();
    assert_eq!(again.error, EncryptionError::CannotUpdateLatest);
    assert_eq!(again.completed, 0);
    assert_eq!(again.content, rotated);
}

#[test]
fn guards_refuse_what_cannot_be_done() {
    let config = store_with_one_key();
    let plain = b"freshly created".to_vec();
    assert_eq!(
        decrypt_file(&plain, &config),
        Err(EncryptionError::DecryptNotCryptedFile)
    );
    let at_latest = encrypt_file(&plain, &config).unwrap();
    let refused = update_file_encryption_key(&at_latest, &config).unwrap_err();
    assert_eq!(refused.error, EncryptionError::CannotUpdateLatest);
    assert_eq!(refused.content, at_latest);
    let plain_refused = update_file_encryption_key(&plain, &config).unwrap_err();
    assert_eq!(plain_refused.error, EncryptionError::CannotUpdateLatest);
    assert_eq!(
        encrypt_file(&[], &config),
        Err(EncryptionError::CannotProcessEmptyFile)
    );
}

#[test]
fn guards_hold_without_any_key() {
    let config = Config::open("");
    assert_eq!(
        encrypt_file(&[], &config),
        Err(EncryptionError::CannotProcessEmptyFile)
    );
    assert_eq!(
        decrypt_file(b"plain", &config),
        Err(EncryptionError::DecryptNotCryptedFile)
    );
    assert_eq!(
        encrypt_file(b"plain", &config),
        Err(EncryptionError::NoVersionFound)
    );
    let refused = update_file_encryption_key(b"plain", &config).unwrap_err();
    assert_eq!(refused.error, EncryptionError::NoVersionFound);
    let first = encrypt_file_x(b"plain", &config, 3).unwrap_err();
    assert_eq!(first.error, EncryptionError::NoVersionFound);
    assert_eq!(first.completed, 0);
    assert_eq!(first.content, b"plain".to_vec());
}

#[test]
fn a_marker_without_room_for_a_header_is_invalid_content() {
    let config = store_with_one_key();
    let short = vec![0xAA, 0xBB, 0xCC, 0xDD, 0, 0, 0, 1];
    assert_eq!(
        encrypt_file(&short, &config),
        Err(EncryptionError::InvalidFileContent)
    );
    assert_eq!(
        decrypt_file(&short, &config),
        Err(EncryptionError::DecryptNotCryptedFile)
    );
}

#[test]
fn the_largest_layer_count_cannot_grow() {
    let config = store_with_one_key();
    let mut full = header(0, u32::MAX);
    full.extend_from_slice(b"payload");
    assert_eq!(
        encrypt_file(&full, &config),
        Err(EncryptionError::InvalidFileContent)
    );
    let mut almost = header(0, u32::MAX - 1);
    almost.extend_from_slice(b"payload");
    let stopped = encrypt_layers(&almost, &config, 3).unwrap_err();
    assert_eq!(stopped.completed, 1);
    assert_eq!(stopped.error, EncryptionError::InvalidFileContent);
    assert_eq!(file_layer(&stopped.content), u32::MAX);
    assert_eq!(stopped.content.len(), almost.len() + 56);
}

#[test]
fn a_header_alone_is_an_encrypted_file_with_an_empty_payload() {
    let config = store_with_one_key();
    let bare = header(0, 1);
    assert_eq!(file_layer(&bare), 1);
    let sealed = encrypt_file(&bare, &config).unwrap();
    assert_eq!(&sealed[..12], &header(0, 2)[..]);
    assert_eq!(sealed.len(), 12 + 56);
    assert_eq!(decrypt_file(&sealed, &config), Ok(bare.clone()));
    assert_eq!(
        decrypt_file(&bare, &config),
        Err(EncryptionError::Decrypt {
            source: DecryptionFailure::IncompleteSalt(0)
        })
    );
}

#[test]
fn short_content_is_refused_with_its_length() {
    let config = store_with_one_key();
    for (length, failure) in [
        (15, DecryptionFailure::IncompleteSalt(15)),
        (16, DecryptionFailure::IncompleteNonce(16)),
        (39, DecryptionFailure::IncompleteNonce(39)),
        (40, DecryptionFailure::IncompleteMac(40)),
        (55, DecryptionFailure::IncompleteMac(55)),
        (56, DecryptionFailure::Decryption),
    ] {
        let mut file = header(0, 1);
        file.extend_from_slice(&vec![7u8; length]);
        assert_eq!(
            decrypt_file(&file, &config),
            Err(EncryptionError::Decrypt { source: failure })
        );
    }
}

#[test]
fn a_key_is_found_after_the_password_was_stored() {
    let mut config = Config::open("");
    mucli::password::init_password_key(&mut config).unwrap();
    mucli::password::set_password(&mut config, "secret").unwrap();
    assert_eq!(init_encryption_key(&mut config), Ok(()));
    assert_eq!(latest_encryption_version(&config), Ok(0));
    assert_eq!(nth_encription_key(&config, 0).unwrap().len(), 32);
    assert_eq!(
        mucli::password::get_password(&config),
        Ok("secret".to_string())
    );
    assert_eq!(config.lines().len(), 3);
    let sealed = encrypt_file(b"after the password", &config).unwrap();
    assert_eq!(
        decrypt_file(&sealed, &config),
        Ok(b"after the password".to_vec())
    );
    mucli::password::set_password(&mut config, "other").unwrap();
    assert_eq!(init_new_encryption_key(&mut config), Ok(()));
    assert_eq!(latest_encryption_version(&config), Ok(1));
    assert_eq!(
        decrypt_file(&sealed, &config),
        Ok(b"after the password".to_vec())
    );
}

#[test]
fn full_decryption_stops_where_a_layer_does_not_open() {
    let config = store_with_one_key();
    let plain = b"one real layer".to_vec();
    let one = encrypt_file(&plain, &config).unwrap();
    let mut claims_two = header(0, 2);
    claims_two.extend_from_slice(&one[12..]);
    let stopped = decrypt_file_entirely(&claims_two, &config).unwrap_err();
    assert_eq!(stopped.completed, 1);
    assert!(matches!(stopped.error, EncryptionError::Decrypt { .. }));
    let mut after_one = header(0, 1);
    after_one.extend_from_slice(&plain);
    assert_eq!(stopped.content, after_one);
}

#[test]
fn tampered_content_does_not_open() {
    let config = store_with_one_key();
    let mut sealed = encrypt_file(b"integrity matters", &config).unwrap();
    let last = sealed.len() - 1;
    sealed[last] ^= 0x01;
    assert!(matches!(
        decrypt_file(&sealed, &config),
        Err(EncryptionError::Decrypt { .. })
    ));
}

#[test]
fn a_new_layer_is_always_bound_to_the_newest_key() {
    let mut config = store_with_one_key();
    let plain = b"layers of different keys".to_vec();
    let old = encrypt_file(&plain, &config).unwrap();
    assert_eq!(&old[..12], &header(0, 1)[..]);
    assert_eq!(init_new_encryption_key(&mut config), Ok(()));

    let mixed = encrypt_file(&old, &config).unwrap();
    assert_eq!(&mixed[..12], &header(1, 2)[..]);

    let outer_off = decrypt_file(&mixed, &config).unwrap();
    assert_eq!(&outer_off[..12], &header(1, 1)[..]);
    assert_eq!(&outer_off[12..], &old[12..]);
    assert!(matches!(
        decrypt_file(&outer_off, &config),
        Err(EncryptionError::Decrypt { .. })
    ));
    let stopped = decrypt_file_entirely(&mixed, &config).unwrap_err();
    assert_eq!(stopped.completed, 1);
    assert_eq!(stopped.content, outer_off);

    assert_eq!(decrypt_file(&old, &config), Ok(plain));
}

#[test]
fn after_a_purge_nothing_can_be_decrypted() {
    let mut config = store_with_one_key();
    let sealed = encrypt_file(b"soon lost", &config).unwrap();
    assert_eq!(purge_encryption_keys(&mut config), Ok(()));
    assert_eq!(config.content(), "");
    assert_eq!(
        decrypt_file(&sealed, &config),
        Err(EncryptionError::NoKeyFound)
    );
    assert_eq!(
        latest_encryption_version(&config),
        Err(EncryptionError::NoVersionFound)
    );
    assert_eq!(init_encryption_key(&mut config), Ok(()));
    assert!(matches!(
        decrypt_file(&sealed, &config),
        Err(EncryptionError::Decrypt { .. })
    ));
}

#[test]
fn a_file_of_a_version_without_key_is_refused() {
    let config = store_with_one_key();
    let mut file = header(7, 1);
    file.extend_from_slice(&[0u8; 60]);
    assert_eq!(
        decrypt_file(&file, &config),
        Err(EncryptionError::KeyNotExist)
    );
}

#[test]
fn the_layer_builders_place_header_and_content() {
    let plain = b"abc".to_vec();
    assert_eq!(
        seal_layer(&plain, 3, &[9, 9]),
        vec![0xAA, 0xBB, 0xCC, 0xDD, 0, 0, 0, 3, 0, 0, 0, 1, 9, 9]
    );
    let mut two = header(4, 2);
    two.extend_from_slice(&[1, 2, 3]);
    assert_eq!(
        seal_layer(&two, 5, &[7]),
        vec![0xAA, 0xBB, 0xCC, 0xDD, 0, 0, 0, 5, 0, 0, 0, 3, 7]
    );
    assert_eq!(
        open_layer(&two, Ok(vec![8, 8])),
        Ok(vec![0xAA, 0xBB, 0xCC, 0xDD, 0, 0, 0, 4, 0, 0, 0, 1, 8, 8])
    );
    let mut one = header(4, 1);
    one.extend_from_slice(&[1, 2, 3]);
    assert_eq!(open_layer(&one, Ok(vec![8, 8])), Ok(vec![8, 8]));
    assert_eq!(
        open_layer(&one, Err(DecryptionFailure::IncompleteSalt(3))),
        Err(EncryptionError::Decrypt {
            source: DecryptionFailure::IncompleteSalt(3)
        })
    );
}

#[test]
fn copies_are_named_with_and_without_the_marker() {
    assert_eq!(encrypted_file_path("a.txt", "out"), "out/enc.a.txt");
    assert_eq!(encrypted_file_path("a.txt", "out/"), "out/enc.a.txt");
    assert_eq!(encrypted_file_path("a.txt", ""), "enc.a.txt");
    assert_eq!(decrypted_file_path("enc.a.txt", "/tmp"), "/tmp/a.txt");
    assert_eq!(decrypted_file_path("a.txt", "/tmp"), "/tmp/a.txt");
    assert_eq!(decrypted_file_path("enc", "."), "./enc");
    assert_eq!(decrypted_file_path("enc.enc.x", "."), "./enc.x");
    assert_eq!(
        decrypted_file_path(&encrypted_file_path("b.bin", ""), "d"),
        "d/b.bin"
    );
}

#[test]
fn a_registered_key_is_used_as_given() {
    let mut config = Config::open("");
    let key = [7u8; 32];
    assert_eq!(add_encryption_key(&mut config, &key), Ok(0));
    let plain = b"sealed with a known key".to_vec();
    let sealed = encrypt_file(&plain, &config).unwrap();
    assert_eq!(
        simplecrypt::decrypt(&sealed[12..], &key),
        Ok(plain.clone())
    );
    let by_hand = simplecrypt::encrypt(&plain, &key);
    let mut file = header(0, 1);
    file.extend_from_slice(&by_hand);
    assert_eq!(decrypt_file(&file, &config), Ok(plain));
}
