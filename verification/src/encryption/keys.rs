//! The key registry: the lines of the configuration store that carry the
//! registry keyword, one for each key version.
//!
//! A registry line reads `MUCLI_ENCRYPT=<version>=<key>`, the version a
//! decimal `u32` and the key a bracketed list of bytes. Keys are addressed by
//! their position in ascending order of version.
use vstd::prelude::*;
use crate::encryption::EncryptionError;
use crate::encryption::seal::{generate_encryption_key, PASSPHRASE_LIMIT};
use crate::encryption::{ENCRYPTION_KEYWORD, KEY_LENGTH};
use crate::utils::config_interact::{lines_with_key, purged, Config};
use crate::utils::text::appended;
use crate::utils::line::{format_byte_list, parse_byte_list, push_byte_list, read_byte_list};
use crate::utils::number::{decimal, parse_decimal, parse_u32, push_decimal};
use crate::utils::text::{split, split_on, to_chars, trim, trimmed, views};

verus! {

/// One key of the registry: its version and its secret bytes.
pub type KeyEntry = (u32, Seq<u8>);

/// The views of a sequence of entries.
pub open spec fn entry_views(entries: Seq<(u32, Vec<u8>)>) -> Seq<KeyEntry> {
    entries.map_values(|e: (u32, Vec<u8>)| (e.0, e.1@))
}

/// The views of a sequence of keys.
pub open spec fn key_views(keys: Seq<Vec<u8>>) -> Seq<Seq<u8>> {
    keys.map_values(|k: Vec<u8>| k@)
}

/// The version that the registry line `line` records: its second field, a
/// decimal number between optional whitespace.
pub open spec fn parse_version_field(line: Seq<char>) -> Result<u32, EncryptionError> {
    let fields = split_on(line, '=');
    if fields.len() < 2 {
        Err(EncryptionError::VersionFormat)
    } else {
        match parse_decimal(trim(fields[1]), u32::MAX as nat) {
            Some(v) => Ok(v as u32),
            None => Err(EncryptionError::VersionFormat),
        }
    }
}

/// The entry that the registry line `line` records: the version in its
/// second field, the key in its third. Further fields are not read.
pub open spec fn parse_key_line(line: Seq<char>) -> Result<KeyEntry, EncryptionError> {
    let fields = split_on(line, '=');
    match parse_version_field(line) {
        Err(e) => Err(e),
        Ok(version) => if fields.len() < 3 {
            Err(EncryptionError::RetrievingKey)
        } else {
            match parse_byte_list(fields[2]) {
                Some(key) => Ok((version, key)),
                None => Err(EncryptionError::RetrievingKey),
            }
        },
    }
}

/// The registry line for the given version and key.
pub open spec fn format_key_line(version: u32, key: Seq<u8>) -> Seq<char> {
    ENCRYPTION_KEYWORD@ + seq!['='] + decimal(version as nat) + seq!['='] + format_byte_list(key)
}

/// The versions that the given registry lines record, in order, or the
/// error of the first line that records none.
pub open spec fn versions_of(lines: Seq<Seq<char>>) -> Result<Seq<u32>, EncryptionError>
    decreases lines.len(),
{
    if lines.len() == 0 {
        Ok(Seq::empty())
    } else {
        match versions_of(lines.drop_last()) {
            Err(e) => Err(e),
            Ok(head) => match parse_version_field(lines.last()) {
                Err(e) => Err(e),
                Ok(v) => Ok(head.push(v)),
            },
        }
    }
}

/// The entries that the given registry lines record, in order, or the error
/// of the first line that records none.
pub open spec fn entries_of(lines: Seq<Seq<char>>) -> Result<Seq<KeyEntry>, EncryptionError>
    decreases lines.len(),
{
    if lines.len() == 0 {
        Ok(Seq::empty())
    } else {
        match entries_of(lines.drop_last()) {
            Err(e) => Err(e),
            Ok(head) => match parse_key_line(lines.last()) {
                Err(e) => Err(e),
                Ok(entry) => Ok(head.push(entry)),
            },
        }
    }
}

/// The largest of the given versions, or zero where there is none.
pub open spec fn max_version(versions: Seq<u32>) -> u32
    decreases versions.len(),
{
    if versions.len() == 0 {
        0
    } else {
        let head = max_version(versions.drop_last());
        if versions.last() >= head {
            versions.last()
        } else {
            head
        }
    }
}

/// Where a new entry of version `version` goes in entries sorted by version:
/// after every entry whose version is not larger.
pub open spec fn slot_for(sorted: Seq<KeyEntry>, version: u32) -> int
    decreases sorted.len(),
{
    if sorted.len() == 0 || sorted.last().0 <= version {
        sorted.len() as int
    } else {
        slot_for(sorted.drop_last(), version)
    }
}

/// The given entries in ascending order of version; entries of the same
/// version keep their order.
pub open spec fn sort_entries(entries: Seq<KeyEntry>) -> Seq<KeyEntry>
    decreases entries.len(),
{
    if entries.len() == 0 {
        Seq::empty()
    } else {
        let head = sort_entries(entries.drop_last());
        head.insert(slot_for(head, entries.last().0), entries.last())
    }
}

/// The keys of the given entries, in order.
pub open spec fn keys_of(entries: Seq<KeyEntry>) -> Seq<Seq<u8>> {
    entries.map_values(|e: KeyEntry| e.1)
}

/// The registry lines of the store `content`.
pub open spec fn registry_lines(content: Seq<char>) -> Seq<Seq<char>> {
    lines_with_key(content, ENCRYPTION_KEYWORD@)
}

/// The newest version of the registry in `content`: the largest version that
/// a registry line records. Fails with `VersionFormat` where a registry line
/// records none, else with `NoVersionFound` where there is no registry line.
pub open spec fn latest_version(content: Seq<char>) -> Result<u32, EncryptionError> {
    match versions_of(registry_lines(content)) {
        Err(e) => Err(e),
        Ok(versions) => if versions.len() == 0 {
            Err(EncryptionError::NoVersionFound)
        } else {
            Ok(max_version(versions))
        },
    }
}

/// The keys of the registry in `content`, in ascending order of version.
/// Fails with the error of the first registry line that cannot be read, else
/// with `NoKeyFound` where there is no registry line.
pub open spec fn key_list(content: Seq<char>) -> Result<Seq<Seq<u8>>, EncryptionError> {
    match entries_of(registry_lines(content)) {
        Err(e) => Err(e),
        Ok(entries) => if entries.len() == 0 {
            Err(EncryptionError::NoKeyFound)
        } else {
            Ok(keys_of(sort_entries(entries)))
        },
    }
}

/// The key at position `index` of the registry in `content`, the keys taken
/// in ascending order of version. Fails as `key_list` does, else with
/// `KeyNotExist` where the registry holds no more than `index` keys.
pub open spec fn nth_key(content: Seq<char>, index: int) -> Result<Seq<u8>, EncryptionError> {
    match key_list(content) {
        Err(e) => Err(e),
        Ok(keys) => if 0 <= index < keys.len() {
            Ok(keys[index])
        } else {
            Err(EncryptionError::KeyNotExist)
        },
    }
}

/// The version that a registry line records.
fn read_version_field(line: &[char]) -> (r: Result<u32, EncryptionError>)
    ensures
        r == parse_version_field(line@),
{
    let fields = split(line, '=');
    if fields.len() < 2 {
        return Err(EncryptionError::VersionFormat);
    }
    assert(views(fields@)[1] == fields@[1]@);
    let field = trimmed(fields[1].as_slice());
    match parse_u32(field.as_slice()) {
        Some(v) => Ok(v),
        None => Err(EncryptionError::VersionFormat),
    }
}

/// The version and the key that the registry line `line` records.
pub fn parse_encryption_key_line(line: &str) -> (r: Result<(u32, Vec<u8>), EncryptionError>)
    ensures
        match r {
            Ok(entry) => parse_key_line(line@) == Ok::<KeyEntry, EncryptionError>(
                (entry.0, entry.1@),
            ),
            Err(e) => parse_key_line(line@) == Err::<KeyEntry, EncryptionError>(e),
        },
{
    let chars = to_chars(line);
    read_key_line(chars.as_slice())
}

/// The version and the key that a registry line records.
pub fn read_key_line(line: &[char]) -> (r: Result<(u32, Vec<u8>), EncryptionError>)
    ensures
        match r {
            Ok(entry) => parse_key_line(line@) == Ok::<KeyEntry, EncryptionError>(
                (entry.0, entry.1@),
            ),
            Err(e) => parse_key_line(line@) == Err::<KeyEntry, EncryptionError>(e),
        },
{
    let version = read_version_field(line)?;
    let fields = split(line, '=');
    if fields.len() < 3 {
        return Err(EncryptionError::RetrievingKey);
    }
    assert(views(fields@)[2] == fields@[2]@);
    match read_byte_list(fields[2].as_slice()) {
        Some(key) => Ok((version, key)),
        None => Err(EncryptionError::RetrievingKey),
    }
}

/// The registry line for the given version and key.
pub fn write_key_line(version: u32, key: &[u8]) -> (line: String)
    ensures
        line@ == format_key_line(version, key@),
{
    let mut out = to_chars(ENCRYPTION_KEYWORD);
    out.push('=');
    push_decimal(&mut out, version);
    out.push('=');
    push_byte_list(&mut out, key);
    assert(out@ =~= format_key_line(version, key@));
    crate::utils::text::from_chars(out.as_slice())
}

/// The newest key version of the registry: the largest version that a
/// registry line records.
pub fn latest_encryption_version(config: &Config) -> (r: Result<u32, EncryptionError>)
    ensures
        r == latest_version(config@),
{
    let lines = config.records(ENCRYPTION_KEYWORD);
    let mut latest: u32 = 0;
    let mut i: usize = 0;
    let ghost mut seen: Seq<u32> = Seq::empty();
    assert(views(lines@).take(0) =~= Seq::<Seq<char>>::empty());
    while i < lines.len()
        invariant
            i <= lines.len(),
            views(lines@) == registry_lines(config@),
            versions_of(views(lines@).take(i as int)) == Ok::<Seq<u32>, EncryptionError>(seen),
            seen.len() == i,
            latest == max_version(seen),
        decreases lines.len() - i,
    {
        let ghost next = views(lines@).take(i + 1);
        proof {
            assert(next.drop_last() =~= views(lines@).take(i as int));
            assert(next.last() == lines@[i as int]@);
        }
        match read_version_field(lines[i].as_slice()) {
            Ok(v) => {
                proof {
                    assert(seen.push(v).drop_last() =~= seen);
                    seen = seen.push(v);
                }
                if v >= latest {
                    latest = v;
                }
            },
            Err(e) => {
                proof {
                    lemma_versions_prefix(views(lines@), i + 1);
                }
                return Err(e);
            },
        }
        i += 1;
    }
    assert(views(lines@).take(lines.len() as int) =~= views(lines@));
    if lines.len() == 0 {
        Err(EncryptionError::NoVersionFound)
    } else {
        Ok(latest)
    }
}

/// Where the first lines record no version, the error is that of the whole.
pub proof fn lemma_versions_prefix(lines: Seq<Seq<char>>, k: int)
    requires
        0 <= k <= lines.len(),
        versions_of(lines.take(k)) is Err,
    ensures
        versions_of(lines) == versions_of(lines.take(k)),
    decreases lines.len() - k,
{
    if k < lines.len() {
        assert(lines.take(k + 1).drop_last() =~= lines.take(k));
        lemma_versions_prefix(lines, k + 1);
    } else {
        assert(lines.take(k) =~= lines);
    }
}

/// Where the first lines record no entry, the error is that of the whole.
pub proof fn lemma_entries_prefix(lines: Seq<Seq<char>>, k: int)
    requires
        0 <= k <= lines.len(),
        entries_of(lines.take(k)) is Err,
    ensures
        entries_of(lines) == entries_of(lines.take(k)),
    decreases lines.len() - k,
{
    if k < lines.len() {
        assert(lines.take(k + 1).drop_last() =~= lines.take(k));
        lemma_entries_prefix(lines, k + 1);
    } else {
        assert(lines.take(k) =~= lines);
    }
}

/// Puts `entry` into `sorted` after every entry whose version is not larger.
fn insert_entry(sorted: &mut Vec<(u32, Vec<u8>)>, entry: (u32, Vec<u8>))
    ensures
        entry_views(final(sorted)@) == entry_views(old(sorted)@).insert(
            slot_for(entry_views(old(sorted)@), entry.0),
            (entry.0, entry.1@),
        ),
{
    let mut k: usize = sorted.len();
    let ghost all = entry_views(sorted@);
    assert(all.take(k as int) =~= all);
    while k > 0 && sorted[k - 1].0 > entry.0
        invariant
            k <= sorted.len(),
            all == entry_views(sorted@),
            slot_for(all, entry.0) == slot_for(all.take(k as int), entry.0),
        decreases k,
    {
        assert(all.take(k as int).drop_last() =~= all.take(k - 1));
        assert(all.take(k as int).last() == all[k - 1]);
        k -= 1;
    }
    proof {
        if k > 0 {
            assert(all.take(k as int).last() == all[k - 1]);
        }
        assert(slot_for(all, entry.0) == k);
        assert(entry_views(sorted@.insert(k as int, entry)) =~= all.insert(
            k as int,
            (entry.0, entry.1@),
        ));
    }
    sorted.insert(k, entry);
}

/// The keys of the registry, in ascending order of version.
pub fn encryption_keys(config: &Config) -> (r: Result<Vec<Vec<u8>>, EncryptionError>)
    ensures
        match r {
            Ok(keys) => key_list(config@) == Ok::<Seq<Seq<u8>>, EncryptionError>(key_views(keys@)),
            Err(e) => key_list(config@) == Err::<Seq<Seq<u8>>, EncryptionError>(e),
        },
{
    let lines = config.records(ENCRYPTION_KEYWORD);
    let mut sorted: Vec<(u32, Vec<u8>)> = Vec::new();
    let mut i: usize = 0;
    let ghost mut seen: Seq<KeyEntry> = Seq::empty();
    assert(views(lines@).take(0) =~= Seq::<Seq<char>>::empty());
    assert(entry_views(sorted@) =~= sort_entries(seen));
    while i < lines.len()
        invariant
            i <= lines.len(),
            views(lines@) == registry_lines(config@),
            entries_of(views(lines@).take(i as int)) == Ok::<Seq<KeyEntry>, EncryptionError>(seen),
            seen.len() == i,
            entry_views(sorted@) == sort_entries(seen),
        decreases lines.len() - i,
    {
        let ghost next = views(lines@).take(i + 1);
        proof {
            assert(next.drop_last() =~= views(lines@).take(i as int));
            assert(next.last() == lines@[i as int]@);
        }
        match read_key_line(lines[i].as_slice()) {
            Ok(entry) => {
                proof {
                    assert(seen.push((entry.0, entry.1@)).drop_last() =~= seen);
                    seen = seen.push((entry.0, entry.1@));
                }
                insert_entry(&mut sorted, entry);
            },
            Err(e) => {
                proof {
                    lemma_entries_prefix(views(lines@), i + 1);
                }
                return Err(e);
            },
        }
        i += 1;
    }
    assert(views(lines@).take(lines.len() as int) =~= views(lines@));
    if sorted.len() == 0 {
        assert(entry_views(sorted@).len() == 0);
        return Err(EncryptionError::NoKeyFound);
    }
    assert(entry_views(sorted@).len() == sorted@.len());
    let mut keys: Vec<Vec<u8>> = Vec::new();
    let mut j: usize = 0;
    while j < sorted.len()
        invariant
            j <= sorted.len(),
            key_views(keys@) == keys_of(entry_views(sorted@)).take(j as int),
        decreases sorted.len() - j,
    {
        let key = vstd::slice::slice_to_vec(sorted[j].1.as_slice());
        proof {
            assert(key_views(keys@.push(key)) =~= key_views(keys@).push(key@));
            assert(keys_of(entry_views(sorted@)).take(j + 1) =~= keys_of(entry_views(sorted@)).take(
                j as int,
            ).push(sorted@[j as int].1@));
        }
        keys.push(key);
        j += 1;
    }
    assert(keys_of(entry_views(sorted@)).take(sorted.len() as int) =~= keys_of(
        entry_views(sorted@),
    ));
    Ok(keys)
}

/// The key at position `index` of the registry, the keys taken in ascending
/// order of version.
pub fn nth_encription_key(config: &Config, index: usize) -> (r: Result<Vec<u8>, EncryptionError>)
    ensures
        match r {
            Ok(key) => nth_key(config@, index as int) == Ok::<Seq<u8>, EncryptionError>(key@),
            Err(e) => nth_key(config@, index as int) == Err::<Seq<u8>, EncryptionError>(e),
        },
{
    let keys = encryption_keys(config)?;
    if index < keys.len() {
        assert(key_views(keys@)[index as int] == keys@[index as int]@);
        Ok(vstd::slice::slice_to_vec(keys[index].as_slice()))
    } else {
        assert(key_views(keys@).len() == keys@.len());
        Err(EncryptionError::KeyNotExist)
    }
}

/// The key at position `index` of the registry in `content`, as the cipher
/// takes it: fails as `nth_key` does, and with `RetrievingKey` where the
/// key is longer than the passphrase that the cipher takes.
pub open spec fn cipher_key(content: Seq<char>, index: int) -> Result<Seq<u8>, EncryptionError> {
    match nth_key(content, index) {
        Err(e) => Err(e),
        Ok(key) => if key.len() <= PASSPHRASE_LIMIT {
            Ok(key)
        } else {
            Err(EncryptionError::RetrievingKey)
        },
    }
}

/// The key at position `index` of the registry, as the cipher takes it.
pub fn cipher_key_at(config: &Config, index: usize) -> (r: Result<Vec<u8>, EncryptionError>)
    ensures
        match r {
            Ok(key) => cipher_key(config@, index as int) == Ok::<Seq<u8>, EncryptionError>(key@)
                && key@.len() <= PASSPHRASE_LIMIT,
            Err(e) => cipher_key(config@, index as int) == Err::<Seq<u8>, EncryptionError>(e),
        },
{
    let key = nth_encription_key(config, index)?;
    if key.len() as u64 > PASSPHRASE_LIMIT {
        return Err(EncryptionError::RetrievingKey);
    }
    Ok(key)
}

/// The version that the next key of the registry in `content` takes: zero
/// where the registry is empty, else one more than the newest. Fails with
/// `VersionFormat` where a registry line records no version, and with
/// `KeyUpdateFailed` where the newest version is the largest `u32`.
pub open spec fn next_version(content: Seq<char>) -> Result<u32, EncryptionError> {
    match latest_version(content) {
        Ok(v) => if v < u32::MAX {
            Ok((v + 1) as u32)
        } else {
            Err(EncryptionError::KeyUpdateFailed)
        },
        Err(EncryptionError::NoVersionFound) => Ok(0),
        Err(e) => Err(e),
    }
}

/// The store `content` with `key` registered under the next version.
pub open spec fn with_new_key(content: Seq<char>, key: Seq<u8>) -> Seq<char> {
    appended(content, format_key_line(next_version(content)->Ok_0, key))
}

/// Registers `key` under the next version and returns that version. Where
/// no version can be given, the store is left as it was.
pub fn add_encryption_key(config: &mut Config, key: &[u8]) -> (r: Result<u32, EncryptionError>)
    ensures
        match r {
            Ok(v) => next_version(old(config)@) == Ok::<u32, EncryptionError>(v) && final(config)@
                == with_new_key(old(config)@, key@) && latest_version(final(config)@) == Ok::<
                u32,
                EncryptionError,
            >(v) && crate::encryption::registry::grown_by(old(config)@, final(config)@, key@),
            Err(e) => next_version(old(config)@) == Err::<u32, EncryptionError>(e) && final(config)@
                == old(config)@,
        },
{
    let version: u32 = match latest_encryption_version(config) {
        Ok(v) => {
            if v == u32::MAX {
                return Err(EncryptionError::KeyUpdateFailed);
            }
            v + 1
        },
        Err(EncryptionError::NoVersionFound) => 0,
        Err(e) => {
            return Err(e);
        },
    };
    let line = write_key_line(version, key);
    config.set_line(line.as_str());
    proof {
        crate::encryption::registry::lemma_registry_after_add(old(config)@, key@);
        crate::encryption::registry::lemma_grown_by(old(config)@, key@);
    }
    Ok(version)
}

/// Registers a fresh random key of 32 bytes under the next version. Where
/// no version can be given, the store is left as it was.
pub fn set_encryption_key(config: &mut Config) -> (r: Result<(), EncryptionError>)
    ensures
        match r {
            Ok(_) => next_version(old(config)@) is Ok && latest_version(final(config)@)
                == next_version(old(config)@) && exists|key: Seq<u8>|
                key.len() == KEY_LENGTH && final(config)@ == #[trigger] with_new_key(
                    old(config)@,
                    key,
                ) && crate::encryption::registry::grown_by(old(config)@, final(config)@, key),
            Err(e) => next_version(old(config)@) == Err::<u32, EncryptionError>(e) && final(config)@
                == old(config)@,
        },
{
    let key = generate_encryption_key(KEY_LENGTH);
    match add_encryption_key(config, key.as_slice()) {
        Ok(_) => {
            assert(final(config)@ == with_new_key(old(config)@, key@));
            Ok(())
        },
        Err(e) => Err(e),
    }
}

/// Makes sure that the registry holds a key: where it holds none, registers
/// a fresh random key of 32 bytes as version 0; where it holds one, changes
/// nothing.
pub fn init_encryption_key(config: &mut Config) -> (r: Result<(), EncryptionError>)
    ensures
        r is Ok,
        registry_lines(old(config)@).len() > 0 ==> final(config)@ == old(config)@,
        registry_lines(old(config)@).len() == 0 ==> latest_version(final(config)@) == Ok::<
            u32,
            EncryptionError,
        >(0) && exists|key: Seq<u8>|
            key.len() == KEY_LENGTH && final(config)@ == #[trigger] with_new_key(old(config)@, key)
                && registry_lines(final(config)@) == seq![format_key_line(0, key)] && nth_key(
                final(config)@,
                0,
            ) == Ok::<Seq<u8>, EncryptionError>(key),
{
    if config.key_exists(ENCRYPTION_KEYWORD) {
        Ok(())
    } else {
        let r = set_encryption_key(config);
        proof {
            assert(registry_lines(old(config)@) =~= Seq::<Seq<char>>::empty());
            crate::encryption::registry::lemma_empty_versions(old(config)@);
            let key = choose|key: Seq<u8>|
                key.len() == KEY_LENGTH && final(config)@ == #[trigger] with_new_key(
                    old(config)@,
                    key,
                );
            crate::encryption::registry::lemma_first_key(old(config)@, key);
        }
        r
    }
}

/// Registers a fresh random key of 32 bytes as the newest version. Fails
/// with `KeyUpdateFailed` where the registry holds no key yet, and as
/// `next_version` does; the store is then left as it was.
pub fn init_new_encryption_key(config: &mut Config) -> (r: Result<(), EncryptionError>)
    ensures
        match r {
            Ok(_) => registry_lines(old(config)@).len() > 0 && next_version(old(config)@) is Ok
                && latest_version(final(config)@) == next_version(old(config)@) && exists|
                key: Seq<u8>,
            |
                key.len() == KEY_LENGTH && final(config)@ == #[trigger] with_new_key(
                    old(config)@,
                    key,
                ) && crate::encryption::registry::grown_by(old(config)@, final(config)@, key),
            Err(e) => final(config)@ == old(config)@ && if registry_lines(old(config)@).len()
                == 0 {
                e == EncryptionError::KeyUpdateFailed
            } else {
                next_version(old(config)@) == Err::<u32, EncryptionError>(e)
            },
        },
{
    if config.key_exists(ENCRYPTION_KEYWORD) {
        set_encryption_key(config)
    } else {
        Err(EncryptionError::KeyUpdateFailed)
    }
}

/// Removes every registry line from the store. What was encrypted with the
/// keys can no longer be decrypted.
pub fn purge_encryption_keys(config: &mut Config) -> (r: Result<(), EncryptionError>)
    ensures
        r is Ok,
        final(config)@ == purged(old(config)@, ENCRYPTION_KEYWORD@),
        registry_lines(final(config)@).len() == 0,
{
    config.remove_key(ENCRYPTION_KEYWORD);
    proof {
        crate::utils::config_interact::lemma_purged_has_no_key(old(config)@, ENCRYPTION_KEYWORD@);
    }
    Ok(())
}

} // verus!
