//! What holds of the engine whatever the cipher's random choices were:
//! layers that were added come off again, and leave the file as it was.
use vstd::prelude::*;
use crate::encryption::annex::{
    decrypt_file_spec,
    decrypt_run,
    encrypt_failure,
    layered,
    lemma_layered_shape,
    peel,
    rotated,
    sealing_key,
    unsealed,
};
use crate::encryption::keys::{cipher_key, latest_version, nth_key, with_new_key};
use crate::encryption::registry::{lemma_add_key_in_order, lemma_empty_registry};
use crate::encryption::seal::{decryption, DecryptionFailure};
use crate::encryption::EncryptionError;
use crate::utils::file::{
    assemble,
    encode_header,
    has_header,
    layer_of,
    lemma_encode_parsed,
    lemma_parse_encoded,
    parse_header,
    payload_of,
    FileHeader,
    HEADER_LENGTH,
};

verus! {

/// Taking one layer from a file that just got one gives the payload of
/// the file back under a header that records its layer count and the
/// newest version; where the file was plain, that is the file itself.
pub proof fn lemma_decrypt_after_encrypt_rebinds(file: Seq<u8>, content: Seq<char>, out: Seq<u8>)
    requires
        layered(file, content, 1, out),
    ensures
        decrypt_file_spec(out, content) == Ok::<Seq<u8>, EncryptionError>(
            assemble(
                FileHeader { version: latest_version(content)->Ok_0, layer: layer_of(file) },
                payload_of(file),
            ),
        ),
{
    lemma_layered_shape(file, content, 1, out);
    let key = sealing_key(content)->Ok_0;
    let sealed = out.skip(HEADER_LENGTH as int);
    assert(peel(sealed, key, 1) == Some(payload_of(file)));
    assert(decryption(sealed, key) is Ok);
    let inner = decryption(sealed, key)->Ok_0;
    assert(peel(inner, key, 0) == Some(inner));
}

/// Taking one layer from a file that just got one gives the file back, byte
/// for byte. This holds of a plain file, and of an encrypted file whose
/// header records the newest version. (Of a file whose header records an
/// older version it does not hold: the new header records the newest.)
pub proof fn lemma_decrypt_after_encrypt(file: Seq<u8>, content: Seq<char>, out: Seq<u8>)
    requires
        layered(file, content, 1, out),
        layer_of(file) == 0 || parse_header(file, 0).version == latest_version(content)->Ok_0,
    ensures
        decrypt_file_spec(out, content) == Ok::<Seq<u8>, EncryptionError>(file),
{
    lemma_decrypt_after_encrypt_rebinds(file, content, out);
    if layer_of(file) > 0 {
        lemma_encode_parsed(file, 0);
    }
}

/// Adding a layer raises the layer count by one. Taking a layer from a file
/// of two layers or more lowers it by one; taking the last layer leaves what
/// was sealed, with no header before it. A file of layer zero is refused:
/// the count never goes below zero.
pub proof fn lemma_layer_accounting(file: Seq<u8>, content: Seq<char>, out: Seq<u8>)
    ensures
        layered(file, content, 1, out) ==> layer_of(out) == layer_of(file) + 1,
        decrypt_file_spec(file, content) == Ok::<Seq<u8>, EncryptionError>(out) && layer_of(file)
            >= 2 ==> layer_of(out) == layer_of(file) - 1,
        decrypt_file_spec(file, content) == Ok::<Seq<u8>, EncryptionError>(out) && layer_of(file)
            == 1 ==> decryption(
            file.skip(HEADER_LENGTH as int),
            cipher_key(content, parse_header(file, 0).version as int)->Ok_0,
        ) == Ok::<Seq<u8>, DecryptionFailure>(out),
        layer_of(file) == 0 ==> decrypt_file_spec(file, content) == Err::<
            Seq<u8>,
            EncryptionError,
        >(EncryptionError::DecryptNotCryptedFile),
{
    if layered(file, content, 1, out) {
        lemma_layered_shape(file, content, 1, out);
    }
    if decrypt_file_spec(file, content) == Ok::<Seq<u8>, EncryptionError>(out) && layer_of(file)
        >= 1 {
        let key = cipher_key(content, parse_header(file, 0).version as int)->Ok_0;
        let opened = decryption(file.skip(HEADER_LENGTH as int), key);
        assert(unsealed(file, opened) == Ok::<Seq<u8>, EncryptionError>(out));
        let header = FileHeader {
            version: parse_header(file, 0).version,
            layer: (layer_of(file) - 1) as u32,
        };
        if layer_of(file) >= 2 {
            lemma_parse_encoded(header, opened->Ok_0, 0);
        }
    }
}

/// A header of layer `m` before something under `m` seals of the key at the
/// header's version: taking `m` layers opens them all.
pub proof fn lemma_decrypt_run_peels(
    content: Seq<char>,
    version: u32,
    key: Seq<u8>,
    m: nat,
    sealed: Seq<u8>,
    plain: Seq<u8>,
    done: nat,
)
    requires
        1 <= m <= u32::MAX,
        cipher_key(content, version as int) == Ok::<Seq<u8>, EncryptionError>(key),
        peel(sealed, key, m) == Some(plain),
    ensures
        decrypt_run(
            encode_header(FileHeader { version, layer: m as u32 }) + sealed,
            content,
            m,
            done,
        ) == Ok::<Seq<u8>, (Seq<u8>, nat, EncryptionError)>(plain),
    decreases m,
{
    let header = FileHeader { version, layer: m as u32 };
    let file = encode_header(header) + sealed;
    lemma_parse_encoded(header, sealed, 0);
    assert(file.skip(HEADER_LENGTH as int) =~= sealed);
    assert(decryption(sealed, key) is Ok);
    let inner = decryption(sealed, key)->Ok_0;
    assert(peel(inner, key, (m - 1) as nat) == Some(plain));
    let next = assemble(FileHeader { version, layer: (m - 1) as u32 }, inner);
    assert(decrypt_file_spec(file, content) == Ok::<Seq<u8>, EncryptionError>(next));
    if m == 1 {
        assert(peel(inner, key, 0) == Some(inner));
        assert(decrypt_run(next, content, 0, done + 1) == Ok::<
            Seq<u8>,
            (Seq<u8>, nat, EncryptionError),
        >(next));
    } else {
        lemma_decrypt_run_peels(content, version, key, (m - 1) as nat, inner, plain, done + 1);
    }
}

/// Taking every layer from a plain file that got `n` layers gives the file
/// back, byte for byte, for every `n` from zero on. (Of a file that already
/// carried layers it does not hold: all of its layers are then taken, its own
/// too.)
pub proof fn lemma_unwrap_layers(file: Seq<u8>, content: Seq<char>, n: nat, out: Seq<u8>)
    requires
        layer_of(file) == 0,
        layered(file, content, n, out),
    ensures
        layer_of(out) == n,
        decrypt_run(out, content, layer_of(out) as nat, 0) == Ok::<
            Seq<u8>,
            (Seq<u8>, nat, EncryptionError),
        >(file),
{
    if n >= 1 {
        lemma_layered_shape(file, content, n, out);
        let version = latest_version(content)->Ok_0;
        let key = sealing_key(content)->Ok_0;
        let sealed = out.skip(HEADER_LENGTH as int);
        let header = FileHeader { version, layer: n as u32 };
        assert(out =~= encode_header(header) + sealed);
        lemma_decrypt_run_peels(content, version, key, n, sealed, file, 0);
    }
}

/// Re-keying keeps the content: where it succeeds on a file of `n` layers
/// whose full plaintext is a plain file, the result has `n` layers again,
/// its header records the newest version (for `n` above zero), and taking
/// every layer from it gives the same plaintext as from the file before.
pub proof fn lemma_rotation_keeps_content(file: Seq<u8>, content: Seq<char>, out: Seq<u8>)
    requires
        rotated(file, content, Ok::<Seq<u8>, (Seq<u8>, nat, EncryptionError)>(out)),
        layer_of(decrypt_run(file, content, layer_of(file) as nat, 0)->Ok_0) == 0,
    ensures
        layer_of(out) == layer_of(file),
        layer_of(file) >= 1 ==> parse_header(out, 0).version == latest_version(content)->Ok_0,
        decrypt_run(file, content, layer_of(file) as nat, 0) is Ok,
        decrypt_run(out, content, layer_of(out) as nat, 0) == decrypt_run(
            file,
            content,
            layer_of(file) as nat,
            0,
        ),
{
    let layers = layer_of(file) as nat;
    let plain = decrypt_run(file, content, layers, 0)->Ok_0;
    lemma_unwrap_layers(plain, content, layers, out);
    if layers >= 1 {
        lemma_layered_shape(plain, content, layers, out);
    }
}

/// The first encryption under a fresh registry: where an empty store got
/// its first key, that key has version 0; a plain file that gets a layer
/// under it starts with the twelve bytes `AA BB CC DD`, `00 00 00 00`,
/// `00 00 00 01`; and taking the layer gives the file back, with no header.
pub proof fn lemma_first_encryption(key: Seq<u8>, file: Seq<u8>, out: Seq<u8>)
    requires
        layer_of(file) == 0,
        layered(file, with_new_key(Seq::<char>::empty(), key), 1, out),
    ensures
        latest_version(with_new_key(Seq::<char>::empty(), key)) == Ok::<u32, EncryptionError>(0),
        sealing_key(with_new_key(Seq::<char>::empty(), key)) == Ok::<Seq<u8>, EncryptionError>(
            key,
        ),
        out.subrange(0, HEADER_LENGTH as int) == seq![
            0xAAu8,
            0xBBu8,
            0xCCu8,
            0xDDu8,
            0u8,
            0u8,
            0u8,
            0u8,
            0u8,
            0u8,
            0u8,
            1u8,
        ],
        decrypt_file_spec(out, with_new_key(Seq::<char>::empty(), key)) == Ok::<
            Seq<u8>,
            EncryptionError,
        >(file),
{
    let content = with_new_key(Seq::<char>::empty(), key);
    lemma_empty_registry();
    lemma_add_key_in_order(Seq::<char>::empty(), key);
    lemma_decrypt_after_encrypt(file, content, out);
    let header = FileHeader { version: 0, layer: 1 };
    assert(encode_header(header) =~= seq![
        0xAAu8,
        0xBBu8,
        0xCCu8,
        0xDDu8,
        0u8,
        0u8,
        0u8,
        0u8,
        0u8,
        0u8,
        0u8,
        1u8,
    ]);
}

} // verus!
