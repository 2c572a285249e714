use mucli::encryption::EncryptionError;
use mucli::utils::config_interact::Config;
use mucli::utils::file::{
    file_layer, main_file_content, starts_with_marker, CryptedFile, FileHeader, HEADER_LENGTH,
    HEADER_SIZE, LAYER_SIZE, VERSION_SIZE,
};

fn with_header(version: u32, layer: u32, payload: &[u8]) -> Vec<u8> {
    let mut bytes = vec![0xAA, 0xBB, 0xCC, 0xDD];
    bytes.extend_from_slice(&version.to_be_bytes());
    bytes.extend_from_slice(&layer.to_be_bytes());
    bytes.extend_from_slice(payload);
    bytes
}

fn one_key() -> Config {
    Config::open("MUCLI_ENCRYPT=0=[1]\nMUCLI_ENCRYPT=1=[2]\nMUCLI_ENCRYPT=2=[3]\n")
}

#[test]
fn the_header_is_marker_version_layer() {
    assert_eq!(HEADER_SIZE + VERSION_SIZE + LAYER_SIZE, HEADER_LENGTH);
    assert_eq!(HEADER_LENGTH, 12);
    let header = FileHeader {
        version: 0x01020304,
        layer: 5,
    };
    assert_eq!(
        header.encode(),
        vec![0xAA, 0xBB, 0xCC, 0xDD, 1, 2, 3, 4, 0, 0, 0, 5]
    );
    assert_eq!(
        FileHeader {
            version: u32::MAX,
            layer: 0x100,
        }
        .encode(),
        vec![0xAA, 0xBB, 0xCC, 0xDD, 255, 255, 255, 255, 0, 0, 1, 0]
    );
    assert_eq!(
        FileHeader {
            version: 0,
            layer: 0,
        }
        .encode(),
        vec![0xAA, 0xBB, 0xCC, 0xDD, 0, 0, 0, 0, 0, 0, 0, 0]
    );
}

#[test]
fn a_header_is_read_back_as_written() {
    for (version, layer) in [(0, 1), (1, 0), (7, 300), (0xDEADBEEF, 0x01000000), (u32::MAX, u32::MAX)] {
        let header = FileHeader { version, layer };
        let mut file = header.encode();
        assert_eq!(FileHeader::parse(&file, 99), header);
        file.extend_from_slice(b"payload");
        assert_eq!(FileHeader::parse(&file, 99), header);
        assert_eq!(file_layer(&file), layer);
    }
}

#[test]
fn a_file_without_a_header_is_plain() {
    let plain = FileHeader {
        version: 42,
        layer: 0,
    };
    assert_eq!(FileHeader::parse(b"", 42), plain);
    assert_eq!(FileHeader::parse(b"hello world, this is text", 42), plain);
    assert_eq!(FileHeader::parse(&[0xAA, 0xBB, 0xCC, 0xDD], 42), plain);
    assert_eq!(
        FileHeader::parse(&[0xAA, 0xBB, 0xCC, 0xDD, 0, 0, 0, 1, 0, 0, 0], 42),
        plain
    );
    assert_eq!(
        FileHeader::parse(&[0xAA, 0xBB, 0xCC, 0xDE, 0, 0, 0, 1, 0, 0, 0, 1], 42),
        plain
    );
    assert_eq!(file_layer(b"hello world, this is text"), 0);
    assert!(starts_with_marker(&[0xAA, 0xBB, 0xCC, 0xDD]));
    assert!(starts_with_marker(&[0xAA, 0xBB, 0xCC, 0xDD, 1]));
    assert!(!starts_with_marker(&[0xAA, 0xBB, 0xCC]));
    assert!(!starts_with_marker(&[0xDD, 0xCC, 0xBB, 0xAA]));
}

#[test]
fn wrapping_writes_the_header_only_for_a_positive_layer() {
    let layered = FileHeader {
        version: 2,
        layer: 1,
    };
    assert_eq!(layered.wrap(b"xy"), with_header(2, 1, b"xy"));
    assert_eq!(layered.wrap(b""), with_header(2, 1, b""));
    let plain = FileHeader {
        version: 2,
        layer: 0,
    };
    assert_eq!(plain.wrap(b"xy"), b"xy".to_vec());
    assert_eq!(plain.wrap(b""), Vec::<u8>::new());
}

#[test]
fn the_payload_is_what_follows_the_header() {
    assert_eq!(main_file_content(b"plain"), Ok(b"plain".to_vec()));
    assert_eq!(
        main_file_content(&with_header(0, 1, b"sealed")),
        Ok(b"sealed".to_vec())
    );
    assert_eq!(main_file_content(&with_header(0, 3, b"")), Ok(vec![]));
    let zero = with_header(9, 0, b"rest");
    assert_eq!(main_file_content(&zero), Ok(zero.clone()));
    assert_eq!(
        main_file_content(b""),
        Err(EncryptionError::CannotProcessEmptyFile)
    );
    assert_eq!(
        main_file_content(&[0xAA, 0xBB, 0xCC, 0xDD, 0, 0]),
        Err(EncryptionError::InvalidFileContent)
    );
    assert_eq!(
        main_file_content(&[0xAA, 0xBB, 0xCC]),
        Ok(vec![0xAA, 0xBB, 0xCC])
    );
}

#[test]
fn a_crypted_file_reports_its_header() {
    let config = one_key();
    let file = CryptedFile::new(with_header(1, 4, b"data"));
    assert_eq!(file.content_as_bytes(), with_header(1, 4, b"data"));
    assert_eq!(file.header(&config), Ok((4, 1)));
    assert_eq!(file.encryption_layer(&config), Ok(4));
    assert_eq!(file.encryption_version(&config), Ok(1));
    assert_eq!(file.main_file_content(), Ok(b"data".to_vec()));

    let plain = CryptedFile::new(b"data".to_vec());
    assert_eq!(plain.header(&config), Ok((0, 2)));
    assert_eq!(plain.encryption_layer(&config), Ok(0));
    assert_eq!(plain.encryption_version(&config), Ok(2));

    let no_keys = Config::open("");
    assert_eq!(file.header(&no_keys), Ok((4, 1)));
    assert_eq!(plain.header(&no_keys), Err(EncryptionError::NoVersionFound));
    assert_eq!(
        plain.encryption_layer(&no_keys),
        Err(EncryptionError::NoVersionFound)
    );
    assert_eq!(
        plain.encryption_version(&Config::open("MUCLI_ENCRYPT=?=[1]\n")),
        Err(EncryptionError::VersionFormat)
    );
}

#[test]
fn a_crypted_file_changes_layer_and_content() {
    let config = one_key();
    let mut file = CryptedFile::new(b"data".to_vec());
    assert_eq!(file.increment_layer(&config), Ok(()));
    assert_eq!(file.content_as_bytes(), with_header(2, 1, b"data"));
    assert_eq!(file.increment_layer(&config), Ok(()));
    assert_eq!(file.content_as_bytes(), with_header(2, 2, b"data"));
    assert_eq!(file.update_content(b"other".to_vec(), &config), Ok(()));
    assert_eq!(file.content_as_bytes(), with_header(2, 2, b"other"));
    assert_eq!(file.decrement_layer(&config), Ok(()));
    assert_eq!(file.content_as_bytes(), with_header(2, 1, b"other"));
    assert_eq!(file.decrement_layer(&config), Ok(()));
    assert_eq!(file.content_as_bytes(), b"other".to_vec());
    assert_eq!(
        file.decrement_layer(&config),
        Err(EncryptionError::DecryptNotCryptedFile)
    );
    assert_eq!(file.content_as_bytes(), b"other".to_vec());
    assert_eq!(file.update_content(b"plain".to_vec(), &config), Ok(()));
    assert_eq!(file.content_as_bytes(), b"plain".to_vec());

    let mut full = CryptedFile::new(with_header(0, u32::MAX, b"x"));
    assert_eq!(
        full.increment_layer(&config),
        Err(EncryptionError::InvalidFileContent)
    );
    let mut empty = CryptedFile::new(vec![]);
    assert_eq!(
        empty.increment_layer(&config),
        Err(EncryptionError::CannotProcessEmptyFile)
    );
    assert_eq!(
        empty.update_content(vec![1], &Config::open("")),
        Err(EncryptionError::NoVersionFound)
    );
    assert_eq!(empty.content_as_bytes(), Vec::<u8>::new());
}

#[test]
fn a_crypted_file_takes_the_header_of_another() {
    let config = one_key();
    let source = CryptedFile::new(with_header(1, 3, b"data"));
    let target = CryptedFile::new(b"old".to_vec())
        .from(&source, &config)
        .unwrap();
    assert_eq!(target.content_as_bytes(), with_header(1, 3, b""));
    let plain = CryptedFile::new(b"data".to_vec());
    let target = CryptedFile::new(b"old".to_vec())
        .from(&plain, &config)
        .unwrap();
    assert_eq!(target.content_as_bytes(), Vec::<u8>::new());
    assert_eq!(
        CryptedFile::new(vec![])
            .from(&plain, &Config::open(""))
            .unwrap_err(),
        EncryptionError::NoVersionFound
    );
}
