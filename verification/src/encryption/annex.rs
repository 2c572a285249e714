//! The engine: one layer of encryption added to a file or taken from it,
//! several layers at once, and the re-keying of a file to the newest key.
//!
//! Every layer that the engine adds is sealed with the key of the newest
//! version, and the header of the result records that version, whatever the
//! header of the input recorded. The layers of one file may so be sealed
//! with keys of different versions: layers that an older key sealed stay as
//! they are under the new one, and no longer open under the version that the
//! header then records. A file is therefore re-keyed
//! (`update_file_encryption_key`) before it gets a layer under a newer key.
use vstd::prelude::*;
use crate::encryption::keys::{
    cipher_key,
    cipher_key_at,
    latest_encryption_version,
    latest_version,
};
use crate::encryption::seal::{
    decryption,
    open_sealed,
    opening,
    DecryptionFailure,
    SEAL_OVERHEAD,
};
use crate::encryption::EncryptionError;
use crate::utils::config_interact::Config;
use crate::utils::text::{from_chars, to_chars};
use crate::utils::file::{
    assemble,
    bytes_view,
    encode_header,
    file_layer,
    has_header,
    has_marker,
    layer_of,
    lemma_parse_encoded,
    main_content,
    main_file_content,
    parse_header,
    payload_of,
    FileHeader,
    HEADER_LENGTH,
};

verus! {

/// The key that seals a new layer under the registry in `content`: the one
/// at the position of the newest version, as the cipher takes it.
pub open spec fn sealing_key(content: Seq<char>) -> Result<Seq<u8>, EncryptionError> {
    match latest_version(content) {
        Err(e) => Err(e),
        Ok(v) => cipher_key(content, v as int),
    }
}

/// Why no layer can be added to `file` under the registry in `content`, if
/// none can: the file is empty; it starts with the marker but is too short
/// for a header; its layer count is already the largest `u32`; or the
/// registry gives no version or no key for it.
pub open spec fn encrypt_failure(file: Seq<u8>, content: Seq<char>) -> Option<EncryptionError> {
    if file.len() == 0 {
        Some(EncryptionError::CannotProcessEmptyFile)
    } else if has_marker(file) && file.len() < HEADER_LENGTH {
        Some(EncryptionError::InvalidFileContent)
    } else if layer_of(file) == u32::MAX {
        Some(EncryptionError::InvalidFileContent)
    } else {
        match sealing_key(content) {
            Err(e) => Some(e),
            Ok(_) => None,
        }
    }
}

/// What is left of `sealed` after `n` seals have been opened with `key`, one
/// after the other, if each of them opens.
pub open spec fn peel(sealed: Seq<u8>, key: Seq<u8>, n: nat) -> Option<Seq<u8>>
    decreases n,
{
    if n == 0 {
        Some(sealed)
    } else {
        match decryption(sealed, key) {
            Ok(inner) => peel(inner, key, (n - 1) as nat),
            Err(_) => None,
        }
    }
}

/// Whether `out` is `file` with `n` more layers under the registry in
/// `content`: for `n` above zero, a header with the newest version and the
/// layer count of `file` plus `n`, and after it the payload of `file` under
/// `n` seals of the newest key.
pub open spec fn layered(file: Seq<u8>, content: Seq<char>, n: nat, out: Seq<u8>) -> bool {
    if n == 0 {
        out == file
    } else {
        &&& sealing_key(content) is Ok
        &&& layer_of(file) + n <= u32::MAX
        &&& out.len() == HEADER_LENGTH + payload_of(file).len() + n * SEAL_OVERHEAD
        &&& out.subrange(0, HEADER_LENGTH as int) == encode_header(
            FileHeader {
                version: latest_version(content)->Ok_0,
                layer: (layer_of(file) + n) as u32,
            },
        )
        &&& peel(out.skip(HEADER_LENGTH as int), sealing_key(content)->Ok_0, n) == Some(
            payload_of(file),
        )
    }
}

/// The file that is left when the outer layer of `file` has been opened
/// with the result `opened`: an error where it did not open; else what was
/// opened, under the header of `file` with one layer less, or under no
/// header where that was the last layer.
pub open spec fn unsealed(file: Seq<u8>, opened: Result<Seq<u8>, DecryptionFailure>) -> Result<
    Seq<u8>,
    EncryptionError,
> {
    match opened {
        Err(e) => Err(EncryptionError::Decrypt { source: e }),
        Ok(plain) => Ok(
            assemble(
                FileHeader {
                    version: parse_header(file, 0).version,
                    layer: (layer_of(file) - 1) as u32,
                },
                plain,
            ),
        ),
    }
}

/// What taking one layer from `file` gives under the registry in `content`.
/// A file of layer zero is refused with `DecryptNotCryptedFile`. The key is
/// the one at the position of the version that the header records.
pub open spec fn decrypt_file_spec(file: Seq<u8>, content: Seq<char>) -> Result<
    Seq<u8>,
    EncryptionError,
> {
    if layer_of(file) == 0 {
        Err(EncryptionError::DecryptNotCryptedFile)
    } else {
        match cipher_key(content, parse_header(file, 0).version as int) {
            Err(e) => Err(e),
            Ok(key) => unsealed(file, decryption(file.skip(HEADER_LENGTH as int), key)),
        }
    }
}

/// The file with one more layer, given the sealed payload: the header with
/// the given version and the layer count of `file` plus one, then `sealed`.
pub fn seal_layer(file: &[u8], version: u32, sealed: &[u8]) -> (out: Vec<u8>)
    requires
        layer_of(file@) < u32::MAX,
    ensures
        out@ == encode_header(
            FileHeader { version, layer: (layer_of(file@) + 1) as u32 },
        ) + sealed@,
{
    let header = FileHeader { version, layer: file_layer(file) + 1 };
    header.wrap(sealed)
}

/// The file with one layer less, given what opening its outer layer gave.
pub fn open_layer(file: &[u8], opened: Result<Vec<u8>, DecryptionFailure>) -> (r: Result<
    Vec<u8>,
    EncryptionError,
>)
    requires
        layer_of(file@) > 0,
    ensures
        bytes_view(r) == unsealed(
            file@,
            match opened {
                Ok(plain) => Ok(plain@),
                Err(e) => Err(e),
            },
        ),
{
    match opened {
        Err(e) => Err(EncryptionError::Decrypt { source: e }),
        Ok(plain) => {
            let old_header = FileHeader::parse(file, 0);
            let header = FileHeader { version: old_header.version, layer: old_header.layer - 1 };
            Ok(header.wrap(plain.as_slice()))
        },
    }
}

/// Adds one layer to `file`: seals its payload with the newest key and puts
/// a header before it that records the newest version and one layer more.
///
/// An empty file is refused with `CannotProcessEmptyFile`, whatever the
/// registry holds.
pub fn encrypt_file(file: &[u8], config: &Config) -> (r: Result<Vec<u8>, EncryptionError>)
    ensures
        match r {
            Ok(out) => encrypt_failure(file@, config@) is None && layered(file@, config@, 1, out@),
            Err(e) => encrypt_failure(file@, config@) == Some(e),
        },
        file@.len() == 0 ==> r == Err::<Vec<u8>, EncryptionError>(
            EncryptionError::CannotProcessEmptyFile,
        ),
{
    let payload = main_file_content(file)?;
    if file_layer(file) == u32::MAX {
        return Err(EncryptionError::InvalidFileContent);
    }
    let version = latest_encryption_version(config)?;
    let key = cipher_key_at(config, version as usize)?;
    let sealed = simplecrypt::encrypt(payload.as_slice(), key.as_slice());
    let out = seal_layer(file, version, sealed.as_slice());
    proof {
        let header = FileHeader { version, layer: (layer_of(file@) + 1) as u32 };
        assert(out@.subrange(0, HEADER_LENGTH as int) =~= encode_header(header));
        assert(out@.skip(HEADER_LENGTH as int) =~= sealed@);
        assert(peel(payload@, key@, 0) == Some(payload@));
        assert(peel(sealed@, key@, 1) == Some(payload@));
    }
    Ok(out)
}

/// Takes one layer from `file`: opens its payload with the key of the
/// version that its header records, and puts the header back with one layer
/// less, or no header where that was the last layer.
///
/// A file of layer zero is refused with `DecryptNotCryptedFile`, whatever
/// the registry holds.
pub fn decrypt_file(file: &[u8], config: &Config) -> (r: Result<Vec<u8>, EncryptionError>)
    ensures
        bytes_view(r) == decrypt_file_spec(file@, config@),
        layer_of(file@) == 0 ==> r == Err::<Vec<u8>, EncryptionError>(
            EncryptionError::DecryptNotCryptedFile,
        ),
{
    if file_layer(file) == 0 {
        return Err(EncryptionError::DecryptNotCryptedFile);
    }
    let header = FileHeader::parse(file, 0);
    let key = cipher_key_at(config, header.version as usize)?;
    let sealed = vstd::slice::slice_subrange(file, HEADER_LENGTH, file.len());
    assert(sealed@ =~= file@.skip(HEADER_LENGTH as int));
    let opened = open_sealed(sealed, key.as_slice());
    open_layer(file, opened)
}

/// An operation of several steps that stopped before its end: the file as
/// the steps before left it, how many steps were done, and the error of the
/// step that failed. Nothing is undone.
#[derive(Debug, PartialEq, Eq)]
pub struct LayerFailure {
    pub content: Vec<u8>,
    pub completed: u64,
    pub error: EncryptionError,
}

/// A multi-step result with its bytes as sequences.
pub open spec fn run_view(r: Result<Vec<u8>, LayerFailure>) -> Result<
    Seq<u8>,
    (Seq<u8>, nat, EncryptionError),
> {
    match r {
        Ok(bytes) => Ok(bytes@),
        Err(f) => Err((f.content@, f.completed as nat, f.error)),
    }
}

/// At which step adding `n` layers to `file` stops, if it does: at the
/// first where no layer can be added to `file`, else at the one that would
/// take the layer count above the largest `u32`.
pub open spec fn layering_stops(file: Seq<u8>, content: Seq<char>, n: nat) -> Option<nat> {
    if n == 0 {
        None
    } else if encrypt_failure(file, content) is Some {
        Some(0)
    } else if layer_of(file) + n > u32::MAX {
        Some((u32::MAX - layer_of(file)) as nat)
    } else {
        None
    }
}

/// What taking `n` layers from `file` gives, one after the other, where
/// `done` steps came before: the file after the last step, or the file as it
/// was before the step that failed, the number of steps done, and the error.
pub open spec fn decrypt_run(file: Seq<u8>, content: Seq<char>, n: nat, done: nat) -> Result<
    Seq<u8>,
    (Seq<u8>, nat, EncryptionError),
>
    decreases n,
{
    if n == 0 {
        Ok(file)
    } else {
        match decrypt_file_spec(file, content) {
            Err(e) => Err((file, done, e)),
            Ok(next) => decrypt_run(next, content, (n - 1) as nat, done + 1),
        }
    }
}

/// A file that carries `n` layers or more over `file` reads as one with a
/// header: its layer count and its payload are what `layered` says.
pub proof fn lemma_layered_shape(file: Seq<u8>, content: Seq<char>, n: nat, out: Seq<u8>)
    requires
        n >= 1,
        layered(file, content, n, out),
    ensures
        has_header(out),
        layer_of(out) == layer_of(file) + n,
        parse_header(out, 0).version == latest_version(content)->Ok_0,
        payload_of(out) == out.skip(HEADER_LENGTH as int),
        out.len() >= HEADER_LENGTH,
{
    let header = FileHeader {
        version: latest_version(content)->Ok_0,
        layer: (layer_of(file) + n) as u32,
    };
    let rest = out.skip(HEADER_LENGTH as int);
    assert(out =~= encode_header(header) + rest);
    lemma_parse_encoded(header, rest, 0);
}

/// One more layer over `n` layers is `n + 1` layers.
pub proof fn lemma_layered_step(
    file: Seq<u8>,
    content: Seq<char>,
    n: nat,
    mid: Seq<u8>,
    out: Seq<u8>,
)
    requires
        layered(file, content, n, mid),
        layered(mid, content, 1, out),
    ensures
        layered(file, content, n + 1, out),
{
    if n >= 1 {
        lemma_layered_shape(file, content, n, mid);
        let key = sealing_key(content)->Ok_0;
        let sealed = out.skip(HEADER_LENGTH as int);
        assert(peel(sealed, key, 1) == Some(payload_of(mid)));
        assert(decryption(sealed, key) is Ok);
        let inner = decryption(sealed, key)->Ok_0;
        assert(peel(inner, key, 0) == Some(inner));
        assert(inner == payload_of(mid));
        assert(peel(sealed, key, n + 1) == peel(inner, key, n));
    }
}

/// Adds `times` layers to `file`, one after the other. Where a step fails,
/// the steps before it are not undone: the failure holds the file as they
/// left it.
pub fn encrypt_layers(file: &[u8], config: &Config, times: u32) -> (r: Result<
    Vec<u8>,
    LayerFailure,
>)
    ensures
        match r {
            Ok(out) => layering_stops(file@, config@, times as nat) is None && layered(
                file@,
                config@,
                times as nat,
                out@,
            ),
            Err(f) => layering_stops(file@, config@, times as nat) == Some(f.completed as nat)
                && layered(file@, config@, f.completed as nat, f.content@) && encrypt_failure(
                f.content@,
                config@,
            ) == Some(f.error),
        },
{
    let mut current: Vec<u8> = vstd::slice::slice_to_vec(file);
    let mut done: u32 = 0;
    while done < times
        invariant
            done <= times,
            layered(file@, config@, done as nat, current@),
            done >= 1 ==> encrypt_failure(file@, config@) is None,
        decreases times - done,
    {
        match encrypt_file(current.as_slice(), config) {
            Ok(next) => {
                proof {
                    lemma_layered_step(file@, config@, done as nat, current@, next@);
                }
                current = next;
                done = done + 1;
            },
            Err(error) => {
                proof {
                    if done >= 1 {
                        lemma_layered_shape(file@, config@, done as nat, current@);
                    }
                }
                return Err(LayerFailure { content: current, completed: done as u64, error });
            },
        }
    }
    Ok(current)
}

/// Adds `times` layers to `file`, one after the other; with `times` zero the
/// file comes back as it is. Where a step fails, the steps before it are not
/// undone: the failure holds the file as they left it.
pub fn encrypt_file_x(file: &[u8], config: &Config, times: u8) -> (r: Result<
    Vec<u8>,
    LayerFailure,
>)
    ensures
        match r {
            Ok(out) => layering_stops(file@, config@, times as nat) is None && layered(
                file@,
                config@,
                times as nat,
                out@,
            ),
            Err(f) => layering_stops(file@, config@, times as nat) == Some(f.completed as nat)
                && layered(file@, config@, f.completed as nat, f.content@) && encrypt_failure(
                f.content@,
                config@,
            ) == Some(f.error),
        },
{
    encrypt_layers(file, config, times as u32)
}

/// Takes every layer from `file`: reads its layer count, then takes one
/// layer that many times. A file of layer zero comes back as it is. Where a
/// step fails, the steps before it are not undone: the failure holds the
/// file as they left it.
pub fn decrypt_file_entirely(file: &[u8], config: &Config) -> (r: Result<Vec<u8>, LayerFailure>)
    ensures
        run_view(r) == decrypt_run(file@, config@, layer_of(file@) as nat, 0),
{
    let times = file_layer(file);
    let mut current: Vec<u8> = vstd::slice::slice_to_vec(file);
    let mut done: u32 = 0;
    while done < times
        invariant
            done <= times,
            times == layer_of(file@),
            decrypt_run(file@, config@, times as nat, 0) == decrypt_run(
                current@,
                config@,
                (times - done) as nat,
                done as nat,
            ),
        decreases times - done,
    {
        match decrypt_file(current.as_slice(), config) {
            Ok(next) => {
                current = next;
                done = done + 1;
            },
            Err(error) => {
                return Err(LayerFailure { content: current, completed: done as u64, error });
            },
        }
    }
    Ok(current)
}

/// Why `file` is not re-keyed under the registry in `content`, if it is
/// not: the registry gives no newest version, or the header of `file`
/// already records it (`CannotUpdateLatest`). A file without a header counts
/// as bound to the newest version.
pub open spec fn rotation_guard(file: Seq<u8>, content: Seq<char>) -> Option<EncryptionError> {
    match latest_version(content) {
        Err(e) => Some(e),
        Ok(v) => if parse_header(file, v).version == v {
            Some(EncryptionError::CannotUpdateLatest)
        } else {
            None
        },
    }
}

/// What re-keying `file` gives under the registry in `content`: every layer
/// is taken from it, then as many layers are added again, each sealed with
/// the newest key. Where a step fails, the result holds the file as the
/// steps before left it, and counts the layers taken and added so far.
pub open spec fn rotated(file: Seq<u8>, content: Seq<char>, r: Result<
    Seq<u8>,
    (Seq<u8>, nat, EncryptionError),
>) -> bool {
    let layers = layer_of(file) as nat;
    match rotation_guard(file, content) {
        Some(e) => r == Err::<Seq<u8>, (Seq<u8>, nat, EncryptionError)>((file, 0, e)),
        None => match decrypt_run(file, content, layers, 0) {
            Err(stopped) => r == Err::<Seq<u8>, (Seq<u8>, nat, EncryptionError)>(stopped),
            Ok(plain) => match r {
                Ok(out) => layering_stops(plain, content, layers) is None && layered(
                    plain,
                    content,
                    layers,
                    out,
                ),
                Err((reached, done, e)) => done >= layers && layering_stops(plain, content, layers)
                    == Some((done - layers) as nat) && layered(
                    plain,
                    content,
                    (done - layers) as nat,
                    reached,
                ) && encrypt_failure(reached, content) == Some(e),
            },
        },
    }
}

/// Re-keys `file` to the newest key: takes every layer from it and adds as
/// many again, each sealed with the newest key.
///
/// A file whose header already records the newest version, and a file
/// without a header, is refused with `CannotUpdateLatest`.
pub fn update_file_encryption_key(file: &[u8], config: &Config) -> (r: Result<
    Vec<u8>,
    LayerFailure,
>)
    ensures
        rotated(file@, config@, run_view(r)),
        rotation_guard(file@, config@) == Some(EncryptionError::CannotUpdateLatest) ==> r is Err
            && r->Err_0.error == EncryptionError::CannotUpdateLatest && r->Err_0.content@ == file@,
{
    let latest = match latest_encryption_version(config) {
        Ok(v) => v,
        Err(error) => {
            return Err(
                LayerFailure { content: vstd::slice::slice_to_vec(file), completed: 0, error },
            );
        },
    };
    let header = FileHeader::parse(file, latest);
    if header.version == latest {
        return Err(
            LayerFailure {
                content: vstd::slice::slice_to_vec(file),
                completed: 0,
                error: EncryptionError::CannotUpdateLatest,
            },
        );
    }
    let plain = decrypt_file_entirely(file, config)?;
    match encrypt_layers(plain.as_slice(), config, header.layer) {
        Ok(out) => Ok(out),
        Err(f) => Err(
            LayerFailure {
                content: f.content,
                completed: f.completed + header.layer as u64,
                error: f.error,
            },
        ),
    }
}

/// What marks the name of an encrypted file: `enc.`
pub open spec fn name_marker() -> Seq<char> {
    seq!['e', 'n', 'c', '.']
}

/// The name of the encrypted copy of the file named `name`.
pub open spec fn encrypted_name(name: Seq<char>) -> Seq<char> {
    name_marker() + name
}

/// The name of the decrypted copy of the file named `name`: the name
/// without the marker, where it starts with it.
pub open spec fn decrypted_name(name: Seq<char>) -> Seq<char> {
    if name_marker().is_prefix_of(name) {
        name.skip(4)
    } else {
        name
    }
}

/// The path of the file named `name` in the directory `dir`: a slash stands
/// between them unless `dir` is empty or ends with one.
pub open spec fn path_in(dir: Seq<char>, name: Seq<char>) -> Seq<char> {
    if dir.len() == 0 || dir.last() == '/' {
        dir + name
    } else {
        dir + seq!['/'] + name
    }
}

/// The path of the file named by `name` in the directory `dir`.
fn place_in(dir: &str, name: Vec<char>) -> (path: String)
    ensures
        path@ == path_in(dir@, name@),
{
    let mut out = to_chars(dir);
    if out.len() > 0 && out[out.len() - 1] != '/' {
        out.push('/');
    }
    let ghost wanted = path_in(dir@, name@);
    let mut name = name;
    out.append(&mut name);
    assert(out@ =~= wanted);
    from_chars(out.as_slice())
}

/// Where the encrypted copy of the file named `file_name` goes in the
/// directory `current_dir`: under its name with `enc.` before it.
pub fn encrypted_file_path(file_name: &str, current_dir: &str) -> (path: String)
    ensures
        path@ == path_in(current_dir@, encrypted_name(file_name@)),
{
    let mut name: Vec<char> = Vec::new();
    name.push('e');
    name.push('n');
    name.push('c');
    name.push('.');
    let mut rest = to_chars(file_name);
    name.append(&mut rest);
    assert(name@ =~= encrypted_name(file_name@));
    place_in(current_dir, name)
}

/// Where the decrypted copy of the file named `file_name` goes in the
/// directory `current_dir`: under its name without `enc.` before it.
pub fn decrypted_file_path(file_name: &str, current_dir: &str) -> (path: String)
    ensures
        path@ == path_in(current_dir@, decrypted_name(file_name@)),
{
    let chars = to_chars(file_name);
    let marked = chars.len() >= 4 && chars[0] == 'e' && chars[1] == 'n' && chars[2] == 'c'
        && chars[3] == '.';
    proof {
        if marked {
            assert(chars@.subrange(0, 4) =~= name_marker());
        } else if chars.len() >= 4 {
            let head = chars@.subrange(0, 4);
            assert(head[0] == chars@[0] && head[1] == chars@[1] && head[2] == chars@[2] && head[3]
                == chars@[3]);
        }
    }
    let from: usize = if marked {
        4
    } else {
        0
    };
    let name = crate::utils::text::copy_range(chars.as_slice(), from, chars.len());
    assert(name@ =~= decrypted_name(file_name@));
    place_in(current_dir, name)
}

/// The name of the decrypted copy of an encrypted copy is the name of the
/// file.
pub proof fn lemma_decrypted_name_of_encrypted(name: Seq<char>)
    ensures
        decrypted_name(encrypted_name(name)) == name,
{
    let marked = encrypted_name(name);
    assert(marked.subrange(0, 4) =~= name_marker());
    assert(marked.skip(4) =~= name);
}

} // verus!
