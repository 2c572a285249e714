use mucli::encryption::keys::{
    add_encryption_key, encryption_keys, init_encryption_key, init_new_encryption_key,
    latest_encryption_version, nth_encription_key, parse_encryption_key_line,
    purge_encryption_keys, read_key_line, set_encryption_key, write_key_line,
};
use mucli::encryption::seal::{generate_encryption_key, DecryptionFailure};
use mucli::encryption::EncryptionError;
use mucli::utils::config_interact::Config;

#[test]
fn keys_are_addressed_in_ascending_order_of_version() {
    let config = Config::open(
        "MUCLI_ENCRYPT=2=[2, 2, 2]\nMUCLI_ENCRYPT=0=[0, 0]\nMUCLI_ENCRYPT=1=[1]\n",
    );
    assert_eq!(nth_encription_key(&config, 0), Ok(vec![0, 0]));
    assert_eq!(nth_encription_key(&config, 1), Ok(vec![1]));
    assert_eq!(nth_encription_key(&config, 2), Ok(vec![2, 2, 2]));
    assert_eq!(
        nth_encription_key(&config, 3),
        Err(EncryptionError::KeyNotExist)
    );
    assert_eq!(latest_encryption_version(&config), Ok(2));
    assert_eq!(
        encryption_keys(&config),
        Ok(vec![vec![0, 0], vec![1], vec![2, 2, 2]])
    );
}

#[test]
fn keys_of_one_version_keep_their_order() {
    let config = Config::open(
        "MUCLI_ENCRYPT=1=[10]\nMUCLI_ENCRYPT=0=[20]\nMUCLI_ENCRYPT=1=[30]\nMUCLI_ENCRYPT=0=[40]",
    );
    assert_eq!(
        encryption_keys(&config),
        Ok(vec![vec![20], vec![40], vec![10], vec![30]])
    );
}

#[test]
fn position_is_not_version_where_versions_have_gaps() {
    let config = Config::open("MUCLI_ENCRYPT=5=[5]\nMUCLI_ENCRYPT=0=[1]\n");
    assert_eq!(latest_encryption_version(&config), Ok(5));
    assert_eq!(nth_encription_key(&config, 1), Ok(vec![5]));
    assert_eq!(
        nth_encription_key(&config, 5),
        Err(EncryptionError::KeyNotExist)
    );
}

#[test]
fn other_lines_are_not_part_of_the_registry() {
    let config = Config::open(
        "MUCLI_PASSWORD=[1,2]\nMUCLI_ENCRYPT=0=[9]\nMUCLI_ENCRYPTED=7=[1]\n  MUCLI_ENCRYPT=3=[1]\nMUCLI_ENCRYPT\n",
    );
    assert_eq!(latest_encryption_version(&config), Ok(0));
    assert_eq!(encryption_keys(&config), Ok(vec![vec![9]]));
}

#[test]
fn an_empty_registry_has_no_version_and_no_key() {
    let config = Config::open("MUCLI_PASSWORD=[1,2]\n");
    assert_eq!(
        latest_encryption_version(&config),
        Err(EncryptionError::NoVersionFound)
    );
    assert_eq!(encryption_keys(&config), Err(EncryptionError::NoKeyFound));
    assert_eq!(
        nth_encription_key(&config, 0),
        Err(EncryptionError::NoKeyFound)
    );
}

#[test]
fn a_line_without_a_readable_version_fails_with_version_format() {
    for text in [
        "MUCLI_ENCRYPT=x=[1]\n",
        "MUCLI_ENCRYPT==[1]\n",
        "MUCLI_ENCRYPT=-1=[1]\n",
        "MUCLI_ENCRYPT=4294967296=[1]\n",
        "MUCLI_ENCRYPT=1 2=[1]\n",
        "MUCLI_ENCRYPT=0=[1]\nMUCLI_ENCRYPT=1.5=[1]\n",
    ] {
        let config = Config::open(text);
        assert_eq!(
            latest_encryption_version(&config),
            Err(EncryptionError::VersionFormat)
        );
        assert_eq!(encryption_keys(&config), Err(EncryptionError::VersionFormat));
    }
}

#[test]
fn a_line_without_a_readable_key_fails_with_retrieving_key() {
    for text in [
        "MUCLI_ENCRYPT=0\n",
        "MUCLI_ENCRYPT=0=\n",
        "MUCLI_ENCRYPT=0=1,2\n",
        "MUCLI_ENCRYPT=0=[1,,2]\n",
        "MUCLI_ENCRYPT=0=[256]\n",
        "MUCLI_ENCRYPT=0=[1,a]\n",
        "MUCLI_ENCRYPT=0=[1\n",
    ] {
        let config = Config::open(text);
        assert_eq!(latest_encryption_version(&config), Ok(0));
        assert_eq!(encryption_keys(&config), Err(EncryptionError::RetrievingKey));
        assert_eq!(
            nth_encription_key(&config, 0),
            Err(EncryptionError::RetrievingKey)
        );
    }
}

#[test]
fn the_first_unreadable_line_decides_the_error() {
    let config = Config::open("MUCLI_ENCRYPT=0=oops\nMUCLI_ENCRYPT=x=[1]\n");
    assert_eq!(encryption_keys(&config), Err(EncryptionError::RetrievingKey));
    let config = Config::open("MUCLI_ENCRYPT=x=[1]\nMUCLI_ENCRYPT=0=oops\n");
    assert_eq!(encryption_keys(&config), Err(EncryptionError::VersionFormat));
}

#[test]
fn key_lines_are_read_leniently_and_written_compactly() {
    assert_eq!(
        parse_encryption_key_line("MUCLI_ENCRYPT= 12 = [ 1, 2 ,255 ] "),
        Ok((12, vec![1, 2, 255]))
    );
    assert_eq!(
        parse_encryption_key_line("MUCLI_ENCRYPT=+7=[]=ignored"),
        Ok((7, vec![]))
    );
    assert_eq!(
        parse_encryption_key_line("MUCLI_ENCRYPT=007=[001]"),
        Ok((7, vec![1]))
    );
    assert_eq!(
        parse_encryption_key_line("MUCLI_ENCRYPT=4294967295=[0]"),
        Ok((u32::MAX, vec![0]))
    );
    assert_eq!(
        parse_encryption_key_line("no equals sign"),
        Err(EncryptionError::VersionFormat)
    );
    let chars: Vec<char> = "K=3=[4]".chars().collect();
    assert_eq!(read_key_line(&chars), Ok((3, vec![4])));

    assert_eq!(write_key_line(0, &[]), "MUCLI_ENCRYPT=0=[]");
    assert_eq!(
        write_key_line(4294967295, &[0, 9, 10, 255]),
        "MUCLI_ENCRYPT=4294967295=[0,9,10,255]"
    );
    assert_eq!(
        parse_encryption_key_line(&write_key_line(305, &[1, 20, 200])),
        Ok((305, vec![1, 20, 200]))
    );
}

#[test]
fn the_first_key_is_version_zero_and_later_keys_follow() {
    let mut config = Config::open("");
    assert_eq!(
        init_new_encryption_key(&mut config),
        Err(EncryptionError::KeyUpdateFailed)
    );
    assert_eq!(config.content(), "");

    assert_eq!(init_encryption_key(&mut config), Ok(()));
    let after_first = config.content();
    assert!(after_first.starts_with("MUCLI_ENCRYPT=0=["));
    assert!(after_first.ends_with("]\n"));
    assert_eq!(nth_encription_key(&config, 0).unwrap().len(), 32);

    assert_eq!(init_encryption_key(&mut config), Ok(()));
    assert_eq!(config.content(), after_first);

    assert_eq!(init_new_encryption_key(&mut config), Ok(()));
    let after_second = config.content();
    assert!(after_second.starts_with(&after_first));
    assert!(after_second[after_first.len()..].starts_with("MUCLI_ENCRYPT=1=["));
    assert_eq!(latest_encryption_version(&config), Ok(1));
    assert_eq!(encryption_keys(&config).unwrap().len(), 2);

    assert_eq!(set_encryption_key(&mut config), Ok(()));
    assert_eq!(latest_encryption_version(&config), Ok(2));
}

#[test]
fn a_given_key_is_registered_under_the_next_version() {
    let mut config = Config::open("MUCLI_PASSWORD=[1]\n");
    assert_eq!(add_encryption_key(&mut config, &[1, 2, 3]), Ok(0));
    assert_eq!(
        config.content(),
        "MUCLI_PASSWORD=[1]\nMUCLI_ENCRYPT=0=[1,2,3]\n"
    );
    assert_eq!(add_encryption_key(&mut config, &[4]), Ok(1));
    assert_eq!(
        config.content(),
        "MUCLI_PASSWORD=[1]\nMUCLI_ENCRYPT=0=[1,2,3]\nMUCLI_ENCRYPT=1=[4]\n"
    );
    assert_eq!(nth_encription_key(&config, 0), Ok(vec![1, 2, 3]));
    assert_eq!(nth_encription_key(&config, 1), Ok(vec![4]));
}

#[test]
fn no_key_follows_the_largest_version() {
    let mut config = Config::open("MUCLI_ENCRYPT=4294967295=[1]\n");
    assert_eq!(
        add_encryption_key(&mut config, &[2]),
        Err(EncryptionError::KeyUpdateFailed)
    );
    assert_eq!(
        init_new_encryption_key(&mut config),
        Err(EncryptionError::KeyUpdateFailed)
    );
    assert_eq!(config.content(), "MUCLI_ENCRYPT=4294967295=[1]\n");
}

#[test]
fn no_key_is_added_to_an_unreadable_registry() {
    let mut config = Config::open("MUCLI_ENCRYPT=zero=[1]\n");
    assert_eq!(
        init_new_encryption_key(&mut config),
        Err(EncryptionError::VersionFormat)
    );
    assert_eq!(config.content(), "MUCLI_ENCRYPT=zero=[1]\n");
    assert_eq!(init_encryption_key(&mut config), Ok(()));
    assert_eq!(config.content(), "MUCLI_ENCRYPT=zero=[1]\n");
}

#[test]
fn purging_removes_the_registry_lines_only() {
    let mut config = Config::open(
        "MUCLI_ENCRYPT=0=[1]\nMUCLI_PASSWORD=[5]\nMUCLI_ENCRYPT=1=[2]\nMUCLI_QUESTION=[]\n",
    );
    assert_eq!(purge_encryption_keys(&mut config), Ok(()));
    assert_eq!(config.content(), "MUCLI_PASSWORD=[5]\nMUCLI_QUESTION=[]\n");
    assert_eq!(
        latest_encryption_version(&config),
        Err(EncryptionError::NoVersionFound)
    );
    assert_eq!(purge_encryption_keys(&mut config), Ok(()));
    assert_eq!(config.content(), "MUCLI_PASSWORD=[5]\nMUCLI_QUESTION=[]\n");
}

#[test]
fn failures_of_the_cipher_say_what_the_cipher_says() {
    for length in [0usize, 3, 15, 16, 30, 39, 40, 50, 55, 56, 80] {
        let said = simplecrypt::decrypt(&vec![11u8; length], b"foo")
            .unwrap_err()
            .to_string();
        let failure = if length < 16 {
            DecryptionFailure::IncompleteSalt(length)
        } else if length < 40 {
            DecryptionFailure::IncompleteNonce(length)
        } else if length < 56 {
            DecryptionFailure::IncompleteMac(length)
        } else {
            DecryptionFailure::Decryption
        };
        assert_eq!(failure.message(), said);
    }
}

#[test]
fn every_failure_has_a_message() {
    assert_eq!(
        DecryptionFailure::IncompleteSalt(0).message(),
        "expected a 0 byte at index 16 but only got 0 bytes"
    );
    assert_eq!(
        DecryptionFailure::IncompleteNonce(0).message(),
        "expected a 24 byte nonce at index 16 but only got 0 bytes"
    );
    assert_eq!(
        DecryptionFailure::IncompleteNonce(15).message(),
        "expected a 24 byte nonce at index 16 but only got 0 bytes"
    );
    assert_eq!(
        DecryptionFailure::IncompleteMac(39).message(),
        "expected a 16 byte nonce at index 40 but only got 0 bytes"
    );
    assert_eq!(
        DecryptionFailure::IncompleteMac(usize::MAX).message(),
        format!(
            "expected a 16 byte nonce at index 40 but only got {} bytes",
            usize::MAX - 40
        )
    );
    assert_eq!(
        DecryptionFailure::IncompleteSalt(usize::MAX).message(),
        format!(
            "expected a 0 byte at index 16 but only got {} bytes",
            usize::MAX
        )
    );
}

#[test]
fn a_key_registered_after_other_records_stands_on_its_own_line() {
    let mut config = Config::open("");
    config.replace_key("MUCLI_PASSWORD", "MUCLI_PASSWORD=[1]");
    assert_eq!(add_encryption_key(&mut config, &[9, 9]), Ok(0));
    assert_eq!(
        config.content(),
        "MUCLI_PASSWORD=[1]\nMUCLI_ENCRYPT=0=[9,9]\n"
    );
    assert_eq!(nth_encription_key(&config, 0), Ok(vec![9, 9]));

    let mut open_ended = Config::open("OTHER=1");
    assert_eq!(init_encryption_key(&mut open_ended), Ok(()));
    assert_eq!(latest_encryption_version(&open_ended), Ok(0));
    assert_eq!(open_ended.get_line("OTHER"), Some("OTHER=1".to_string()));
    assert_eq!(open_ended.lines().len(), 2);

    let mut unordered = Config::open("MUCLI_ENCRYPT=1=[1]\nX=1\nMUCLI_ENCRYPT=0=[0]");
    assert_eq!(init_new_encryption_key(&mut unordered), Ok(()));
    assert_eq!(latest_encryption_version(&unordered), Ok(2));
    assert_eq!(nth_encription_key(&unordered, 0), Ok(vec![0]));
    assert_eq!(nth_encription_key(&unordered, 1), Ok(vec![1]));
    assert_eq!(nth_encription_key(&unordered, 2).unwrap().len(), 32);
}

#[test]
fn generated_keys_have_the_length_asked_for() {
    assert_eq!(generate_encryption_key(0).len(), 0);
    assert_eq!(generate_encryption_key(1).len(), 1);
    let first = generate_encryption_key(32);
    let second = generate_encryption_key(32);
    assert_eq!(first.len(), 32);
    assert_eq!(second.len(), 32);
    assert_ne!(first, second);
    assert_ne!(first, vec![0u8; 32]);
}

#[test]
fn errors_say_what_went_wrong() {
    assert_eq!(
        EncryptionError::NoKeyFound.message(),
        "No key found in config.txt"
    );
    assert_eq!(
        EncryptionError::RetrievingKey.message(),
        "Error retrieving encryption key"
    );
    assert_eq!(
        EncryptionError::KeyNotExist.message(),
        "Encryption key does not exist"
    );
    assert_eq!(
        EncryptionError::NoVersionFound.message(),
        "No version found in config.txt"
    );
    assert_eq!(
        EncryptionError::VersionFormat.message(),
        "Invalid version format found in config.txt"
    );
    assert_eq!(
        EncryptionError::InvalidFileContent.message(),
        "Target file must be a crypted file"
    );
    assert_eq!(
        EncryptionError::DecryptNotCryptedFile.message(),
        "Cannot decrypt a non-encrypted file"
    );
    assert_eq!(
        EncryptionError::KeyUpdateFailed.message(),
        "Impossible to update encryption key"
    );
    assert_eq!(
        EncryptionError::CannotUpdateLatest.message(),
        "File is already at the latest encryption version"
    );
    assert_eq!(
        EncryptionError::CannotProcessEmptyFile.message(),
        "Cannot process empty file"
    );
    assert_eq!(
        EncryptionError::Decrypt {
            source: DecryptionFailure::Decryption
        }
        .message(),
        "invalid data or secret key"
    );
    assert_eq!(
        EncryptionError::Decrypt {
            source: DecryptionFailure::IncompleteMac(41)
        }
        .message(),
        "expected a 16 byte nonce at index 40 but only got 1 bytes"
    );
}
