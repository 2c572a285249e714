//! What holds of the key registry: the order of its keys, and the registry
//! that the key operations leave.
use vstd::prelude::*;
use crate::encryption::keys::{
    entries_of,
    format_key_line,
    key_list,
    keys_of,
    latest_version,
    max_version,
    next_version,
    nth_key,
    parse_key_line,
    parse_version_field,
    registry_lines,
    slot_for,
    sort_entries,
    versions_of,
    with_new_key,
    KeyEntry,
};
use crate::encryption::{EncryptionError, ENCRYPTION_KEYWORD};
use crate::utils::config_interact::{
    has_key,
    lemma_purged_has_no_key,
    lines_with_key,
    purged,
    with_key,
};
use crate::utils::line::{format_byte_list, lemma_byte_list_round_trip, parse_byte_list};
use crate::utils::number::{
    decimal,
    lemma_decimal_digits,
    lemma_decimal_free_of,
    lemma_decimal_trim,
    lemma_parse_decimal_of_decimal,
};
use crate::utils::text::{
    appended,
    free_of,
    lemma_lines_of_appended,
    lemma_split_on_first_piece,
    lemma_split_on_one_piece,
    lines_of,
    split_on,
    terminated,
};

verus! {

broadcast use vstd::seq_lib::group_to_multiset_ensures;

/// Whether the versions of `entries` never go down from one entry to the
/// next.
pub open spec fn ascending(entries: Seq<KeyEntry>) -> bool {
    forall|i: int, j: int| 0 <= i < j < entries.len() ==> entries[i].0 <= entries[j].0
}

/// In entries of ascending version, the slot for a version stands after
/// every entry whose version is not larger and before every other.
pub proof fn lemma_slot_for(sorted: Seq<KeyEntry>, version: u32)
    requires
        ascending(sorted),
    ensures
        0 <= slot_for(sorted, version) <= sorted.len(),
        forall|i: int| 0 <= i < slot_for(sorted, version) ==> sorted[i].0 <= version,
        forall|i: int| slot_for(sorted, version) <= i < sorted.len() ==> sorted[i].0 > version,
    decreases sorted.len(),
{
    if sorted.len() == 0 || sorted.last().0 <= version {
    } else {
        let head = sorted.drop_last();
        assert(ascending(head)) by {
            assert forall|i: int, j: int| 0 <= i < j < head.len() implies head[i].0
                <= head[j].0 by {
                assert(head[i] == sorted[i] && head[j] == sorted[j]);
            }
        }
        lemma_slot_for(head, version);
        assert forall|i: int| slot_for(sorted, version) <= i < sorted.len() implies sorted[i].0
            > version by {
            if i < head.len() {
                assert(head[i] == sorted[i]);
            }
        }
        assert forall|i: int| 0 <= i < slot_for(sorted, version) implies sorted[i].0
            <= version by {
            assert(head[i] == sorted[i]);
        }
    }
}

/// Sorting keeps every entry, as often as it occurs, and puts the entries
/// in ascending order of version: the key at position 0 is the one of the
/// smallest version, whatever the order of the registry lines.
pub proof fn lemma_sort_entries(entries: Seq<KeyEntry>)
    ensures
        sort_entries(entries).len() == entries.len(),
        ascending(sort_entries(entries)),
        sort_entries(entries).to_multiset() == entries.to_multiset(),
    decreases entries.len(),
{
    if entries.len() == 0 {
        assert(sort_entries(entries) =~= entries);
    } else {
        let head = sort_entries(entries.drop_last());
        let last = entries.last();
        lemma_sort_entries(entries.drop_last());
        lemma_slot_for(head, last.0);
        let k = slot_for(head, last.0);
        let sorted = head.insert(k, last);
        assert(ascending(sorted)) by {
            assert forall|i: int, j: int| 0 <= i < j < sorted.len() implies sorted[i].0
                <= sorted[j].0 by {
                if i < k {
                    assert(sorted[i] == head[i]);
                } else if i > k {
                    assert(sorted[i] == head[i - 1]);
                }
                if j < k {
                    assert(sorted[j] == head[j]);
                } else if j > k {
                    assert(sorted[j] == head[j - 1]);
                }
            }
        }
        assert(entries =~= entries.drop_last().push(last));
        assert(sorted.to_multiset() =~= head.to_multiset().insert(last));
        assert(entries.to_multiset() =~= entries.drop_last().to_multiset().insert(last));
    }
}

/// The newest version is one that the registry records, and none that it
/// records is larger.
pub proof fn lemma_max_version(versions: Seq<u32>)
    requires
        versions.len() > 0,
    ensures
        versions.contains(max_version(versions)),
        forall|i: int| 0 <= i < versions.len() ==> versions[i] <= max_version(versions),
    decreases versions.len(),
{
    let head = versions.drop_last();
    if head.len() == 0 {
        assert(versions[versions.len() - 1] == max_version(versions));
    } else {
        lemma_max_version(head);
        if versions.last() >= max_version(head) {
            assert(versions[versions.len() - 1] == max_version(versions));
        } else {
            let i = choose|i: int| 0 <= i < head.len() && head[i] == max_version(head);
            assert(versions[i] == max_version(versions));
        }
        assert forall|i: int| 0 <= i < versions.len() implies versions[i] <= max_version(
            versions,
        ) by {
            if i < head.len() {
                assert(head[i] == versions[i]);
            }
        }
    }
}

/// Whether no two of the entries carry the same version.
pub open spec fn distinct_versions(entries: Seq<KeyEntry>) -> bool {
    forall|i: int, j: int| 0 <= i < j < entries.len() ==> entries[i].0 != entries[j].0
}

/// Whether the versions of `entries` go up from each entry to the next.
pub open spec fn strictly_ascending(entries: Seq<KeyEntry>) -> bool {
    forall|i: int, j: int| 0 <= i < j < entries.len() ==> entries[i].0 < entries[j].0
}

/// Sorting entries of distinct versions gives the same entries with the
/// versions going up from each to the next.
pub proof fn lemma_sort_distinct(entries: Seq<KeyEntry>)
    requires
        distinct_versions(entries),
    ensures
        sort_entries(entries).len() == entries.len(),
        strictly_ascending(sort_entries(entries)),
        forall|i: int|
            0 <= i < entries.len() ==> entries.contains(#[trigger] sort_entries(entries)[i]),
        forall|i: int|
            0 <= i < entries.len() ==> sort_entries(entries).contains(#[trigger] entries[i]),
    decreases entries.len(),
{
    if entries.len() == 0 {
        assert(sort_entries(entries) =~= entries);
    } else {
        let front = entries.drop_last();
        let last = entries.last();
        assert(distinct_versions(front)) by {
            assert forall|i: int, j: int| 0 <= i < j < front.len() implies front[i].0
                != front[j].0 by {
                assert(front[i] == entries[i] && front[j] == entries[j]);
            }
        }
        lemma_sort_distinct(front);
        lemma_sort_entries(front);
        let head = sort_entries(front);
        lemma_slot_for(head, last.0);
        let k = slot_for(head, last.0);
        let sorted = head.insert(k, last);
        assert forall|i: int| 0 <= i < head.len() implies (#[trigger] head[i]).0 != last.0 by {
            assert(front.contains(head[i]));
            let p = choose|p: int| 0 <= p < front.len() && front[p] == head[i];
            assert(entries[p] == front[p]);
        }
        assert(strictly_ascending(sorted)) by {
            assert forall|i: int, j: int| 0 <= i < j < sorted.len() implies sorted[i].0
                < sorted[j].0 by {
                if i < k {
                    assert(sorted[i] == head[i]);
                } else if i > k {
                    assert(sorted[i] == head[i - 1]);
                }
                if j < k {
                    assert(sorted[j] == head[j]);
                } else if j > k {
                    assert(sorted[j] == head[j - 1]);
                }
            }
        }
        assert forall|i: int| 0 <= i < entries.len() implies entries.contains(
            #[trigger] sorted[i],
        ) by {
            if i == k {
                assert(entries[entries.len() - 1] == last);
            } else {
                let h = if i < k {
                    i
                } else {
                    i - 1
                };
                assert(sorted[i] == head[h]);
                assert(front.contains(head[h]));
                let p = choose|p: int| 0 <= p < front.len() && front[p] == head[h];
                assert(entries[p] == front[p]);
            }
        }
        assert forall|i: int| 0 <= i < entries.len() implies sorted.contains(
            #[trigger] entries[i],
        ) by {
            if i == entries.len() - 1 {
                assert(sorted[k] == last);
            } else {
                assert(front[i] == entries[i]);
                assert(head.contains(front[i]));
                let h = choose|h: int| 0 <= h < head.len() && head[h] == front[i];
                if h < k {
                    assert(sorted[h] == head[h]);
                } else {
                    assert(sorted[h + 1] == head[h]);
                }
            }
        }
    }
}

/// In as many versions below `n` as `n`, going up from each to the next,
/// the version at each position is the position.
pub proof fn lemma_ascending_fills(sorted: Seq<KeyEntry>, i: int)
    requires
        strictly_ascending(sorted),
        forall|j: int| 0 <= j < sorted.len() ==> (#[trigger] sorted[j]).0 < sorted.len(),
        0 <= i < sorted.len(),
    ensures
        sorted[i].0 == i,
{
    lemma_ascending_from_below(sorted, i);
    lemma_ascending_from_above(sorted, i);
}

/// Versions that go up from each entry to the next are at least their
/// position.
pub proof fn lemma_ascending_from_below(sorted: Seq<KeyEntry>, i: int)
    requires
        strictly_ascending(sorted),
        0 <= i < sorted.len(),
    ensures
        sorted[i].0 >= i,
    decreases i,
{
    if i > 0 {
        lemma_ascending_from_below(sorted, i - 1);
    }
}

/// Versions below the number of entries that go up from each entry to the
/// next are at most their position.
pub proof fn lemma_ascending_from_above(sorted: Seq<KeyEntry>, i: int)
    requires
        strictly_ascending(sorted),
        forall|j: int| 0 <= j < sorted.len() ==> (#[trigger] sorted[j]).0 < sorted.len(),
        0 <= i < sorted.len(),
    ensures
        sorted[i].0 <= i,
    decreases sorted.len() - i,
{
    if i < sorted.len() - 1 {
        lemma_ascending_from_above(sorted, i + 1);
    }
}

/// A registry whose versions are 0 up to the number of keys less one, each
/// once and in any order, is addressed by version: sorted, the key at
/// position `n` is the key that was recorded as version `n`.
pub proof fn lemma_dense_registry(entries: Seq<KeyEntry>, i: int)
    requires
        distinct_versions(entries),
        forall|j: int| 0 <= j < entries.len() ==> (#[trigger] entries[j]).0 < entries.len(),
        0 <= i < entries.len(),
    ensures
        sort_entries(entries)[entries[i].0 as int] == entries[i],
        keys_of(sort_entries(entries))[entries[i].0 as int] == entries[i].1,
{
    let sorted = sort_entries(entries);
    lemma_sort_distinct(entries);
    assert forall|j: int| 0 <= j < sorted.len() implies (#[trigger] sorted[j]).0
        < sorted.len() by {
        assert(entries.contains(sorted[j]));
        let p = choose|p: int| 0 <= p < entries.len() && entries[p] == sorted[j];
        assert(entries[p].0 < entries.len());
    }
    assert(sorted.contains(entries[i]));
    let h = choose|h: int| 0 <= h < sorted.len() && sorted[h] == entries[i];
    lemma_ascending_fills(sorted, h);
}

/// Whether the entries carry the versions 0, 1, 2 and so on, in this order:
/// what a registry holds that grew by one key at a time.
pub open spec fn in_order(entries: Seq<KeyEntry>) -> bool {
    forall|i: int| 0 <= i < entries.len() ==> (#[trigger] entries[i]).0 == i
}

/// Entries that carry the versions 0, 1, 2 and so on are sorted as they
/// stand: the key at position `n` is the key of version `n`.
pub proof fn lemma_sort_in_order(entries: Seq<KeyEntry>)
    requires
        in_order(entries),
    ensures
        sort_entries(entries) == entries,
    decreases entries.len(),
{
    if entries.len() == 0 {
        assert(sort_entries(entries) =~= entries);
    } else {
        let head = entries.drop_last();
        assert(in_order(head)) by {
            assert forall|i: int| 0 <= i < head.len() implies (#[trigger] head[i]).0 == i by {
                assert(head[i] == entries[i]);
            }
        }
        lemma_sort_in_order(head);
        if head.len() > 0 {
            assert(head.last() == entries[head.len() - 1]);
        }
        assert(slot_for(head, entries.last().0) == head.len());
        assert(head.insert(head.len() as int, entries.last()) =~= entries);
    }
}

/// The registry keyword holds neither an equals sign nor a line feed.
pub proof fn lemma_keyword_shape()
    ensures
        ENCRYPTION_KEYWORD@.len() == 13,
        free_of(ENCRYPTION_KEYWORD@, '='),
        free_of(ENCRYPTION_KEYWORD@, '\n'),
{
    reveal_strlit("MUCLI_ENCRYPT");
}

/// Reading a registry line that was written for a version and a key gives
/// them back. The line carries the registry keyword and is one line.
pub proof fn lemma_key_line_round_trip(version: u32, key: Seq<u8>)
    ensures
        parse_key_line(format_key_line(version, key)) == Ok::<KeyEntry, EncryptionError>(
            (version, key),
        ),
        parse_version_field(format_key_line(version, key)) == Ok::<u32, EncryptionError>(version),
        has_key(format_key_line(version, key), ENCRYPTION_KEYWORD@),
        free_of(format_key_line(version, key), '\n'),
        format_key_line(version, key).last() == ']',
{
    let keyword = ENCRYPTION_KEYWORD@;
    let number = decimal(version as nat);
    let list = format_byte_list(key);
    let line = format_key_line(version, key);
    lemma_keyword_shape();
    lemma_decimal_digits(version as nat);
    lemma_decimal_free_of(version as nat, '=');
    lemma_decimal_free_of(version as nat, '\n');
    lemma_decimal_trim(version as nat);
    lemma_parse_decimal_of_decimal(version as nat, u32::MAX as nat);
    lemma_byte_list_round_trip(key);
    assert(line =~= keyword + seq!['='] + (number + seq!['='] + list));
    lemma_split_on_first_piece(keyword, '=', number + seq!['='] + list);
    lemma_split_on_first_piece(number, '=', list);
    lemma_split_on_one_piece(list, '=');
    let fields = split_on(line, '=');
    assert(fields =~= seq![keyword, number, list]);
    assert(fields[1] == number && fields[2] == list);
    assert(line.subrange(0, (keyword + seq!['=']).len() as int) =~= keyword + seq!['=']);
    assert forall|i: int| 0 <= i < line.len() implies line[i] != '\n' by {
        if i < keyword.len() {
            assert(line[i] == keyword[i]);
        } else if keyword.len() < i < keyword.len() + 1 + number.len() {
            assert(line[i] == number[i - keyword.len() - 1]);
        } else if i > keyword.len() + 1 + number.len() {
            assert(line[i] == list[i - keyword.len() - number.len() - 2]);
        }
    }
    assert(line.last() == list.last());
}

/// The versions of the given entries, in order.
pub open spec fn entry_versions(entries: Seq<KeyEntry>) -> Seq<u32> {
    Seq::new(entries.len(), |i: int| entries[i].0)
}

/// Lines that record entries record the versions of those entries.
pub proof fn lemma_versions_of_entries(lines: Seq<Seq<char>>)
    requires
        entries_of(lines) is Ok,
    ensures
        versions_of(lines) == Ok::<Seq<u32>, EncryptionError>(
            entry_versions(entries_of(lines)->Ok_0),
        ),
    decreases lines.len(),
{
    if lines.len() == 0 {
        assert(entry_versions(Seq::<KeyEntry>::empty()) =~= Seq::<u32>::empty());
    } else {
        lemma_versions_of_entries(lines.drop_last());
        let head = entries_of(lines.drop_last())->Ok_0;
        let entry = parse_key_line(lines.last())->Ok_0;
        assert(entry_versions(head.push(entry)) =~= entry_versions(head).push(entry.0));
    }
}

/// A line that cannot be read for its version fails with `VersionFormat`.
pub proof fn lemma_versions_error(lines: Seq<Seq<char>>)
    ensures
        versions_of(lines) is Err ==> versions_of(lines) == Err::<Seq<u32>, EncryptionError>(
            EncryptionError::VersionFormat,
        ),
    decreases lines.len(),
{
    if lines.len() > 0 {
        lemma_versions_error(lines.drop_last());
    }
}

/// Among the versions 0, 1, 2 and so on the newest is the last.
pub proof fn lemma_max_in_order(entries: Seq<KeyEntry>)
    requires
        in_order(entries),
        entries.len() > 0,
    ensures
        max_version(entry_versions(entries)) == entries.len() - 1,
    decreases entries.len(),
{
    let versions = entry_versions(entries);
    let head = entries.drop_last();
    assert(versions.drop_last() =~= entry_versions(head));
    assert(versions.last() == entries[entries.len() - 1].0);
    if head.len() > 0 {
        assert(in_order(head)) by {
            assert forall|i: int| 0 <= i < head.len() implies (#[trigger] head[i]).0 == i by {
                assert(head[i] == entries[i]);
            }
        }
        lemma_max_in_order(head);
    } else {
        assert(entry_versions(head) =~= Seq::<u32>::empty());
        assert(max_version(Seq::<u32>::empty()) == 0);
    }
    assert(versions.len() == entries.len());
    assert((#[trigger] entries[entries.len() - 1]).0 == entries.len() - 1);
    assert(max_version(versions) == if versions.last() >= max_version(versions.drop_last()) {
        versions.last()
    } else {
        max_version(versions.drop_last())
    });
}

/// Whether the registry in `content` is as the key operations leave it:
/// every registry line can be read, and the registry lines carry the
/// versions 0, 1, 2 and so on, in this order.
pub open spec fn registry_in_order(content: Seq<char>) -> bool {
    &&& entries_of(registry_lines(content)) is Ok
    &&& in_order(entries_of(registry_lines(content))->Ok_0)
}

/// An empty store holds a registry in order: one without keys.
pub proof fn lemma_empty_registry()
    ensures
        registry_in_order(Seq::<char>::empty()),
        registry_lines(Seq::<char>::empty()) == Seq::<Seq<char>>::empty(),
        next_version(Seq::<char>::empty()) == Ok::<u32, EncryptionError>(0),
{
    reveal(Seq::filter);
    assert(lines_of(Seq::<char>::empty()) =~= Seq::<Seq<char>>::empty());
    assert(registry_lines(Seq::<char>::empty()) =~= Seq::<Seq<char>>::empty());
}

/// In a registry in order the key at position `n` is the key of version
/// `n`, and the newest version is the number of keys less one.
pub proof fn lemma_in_order_registry(content: Seq<char>)
    requires
        registry_in_order(content),
    ensures
        ({
            let entries = entries_of(registry_lines(content))->Ok_0;
            &&& entries.len() == 0 ==> latest_version(content) == Err::<u32, EncryptionError>(
                EncryptionError::NoVersionFound,
            )
            &&& entries.len() > 0 ==> latest_version(content) == Ok::<u32, EncryptionError>(
                (entries.len() - 1) as u32,
            )
            &&& entries.len() <= u32::MAX + 1
            &&& forall|v: int|
                0 <= v < entries.len() ==> nth_key(content, v) == Ok::<Seq<u8>, EncryptionError>(
                    (#[trigger] entries[v]).1,
                )
        }),
{
    let lines = registry_lines(content);
    let entries = entries_of(lines)->Ok_0;
    lemma_versions_of_entries(lines);
    lemma_sort_in_order(entries);
    if entries.len() > 0 {
        lemma_max_in_order(entries);
        assert(entries[entries.len() - 1].0 == entries.len() - 1);
    }
    assert forall|v: int| 0 <= v < entries.len() implies nth_key(content, v) == Ok::<
        Seq<u8>,
        EncryptionError,
    >((#[trigger] entries[v]).1) by {
        assert(keys_of(entries)[v] == entries[v].1);
    }
}

/// Registering a key adds one registry line after those before, whatever
/// the store holds, and makes its version the newest.
pub proof fn lemma_registry_after_add(content: Seq<char>, key: Seq<u8>)
    requires
        next_version(content) is Ok,
    ensures
        terminated(with_new_key(content, key)),
        registry_lines(with_new_key(content, key)) == registry_lines(content).push(
            format_key_line(next_version(content)->Ok_0, key),
        ),
        latest_version(with_new_key(content, key)) == next_version(content),
        entries_of(registry_lines(content)) is Ok ==> entries_of(
            registry_lines(with_new_key(content, key)),
        ) == Ok::<Seq<KeyEntry>, EncryptionError>(
            entries_of(registry_lines(content))->Ok_0.push((next_version(content)->Ok_0, key)),
        ),
{
    let version = next_version(content)->Ok_0;
    let line = format_key_line(version, key);
    let after = with_new_key(content, key);
    let before_lines = registry_lines(content);
    lemma_key_line_round_trip(version, key);
    lemma_lines_of_appended(content, line);
    assert(crate::utils::text::strip_cr(line) == line);
    lines_of(content).lemma_filter_push(line, with_key(ENCRYPTION_KEYWORD@));
    let after_lines = registry_lines(after);
    assert(after_lines == before_lines.push(line));
    assert(after_lines.drop_last() =~= before_lines);
    assert(after_lines.last() == line);
    lemma_versions_error(before_lines);
    let versions = versions_of(before_lines)->Ok_0;
    assert(versions_of(after_lines) == Ok::<Seq<u32>, EncryptionError>(versions.push(version)));
    assert(versions.push(version).drop_last() =~= versions);
    if versions.len() == 0 {
        assert(max_version(versions) == 0);
    }
}

/// Registering a key keeps a registry in order: the new key takes the
/// version after the newest, which is its position; it becomes the newest;
/// and every key before it stays at its position.
pub proof fn lemma_add_key_in_order(content: Seq<char>, key: Seq<u8>)
    requires
        registry_in_order(content),
        next_version(content) is Ok,
    ensures
        registry_in_order(with_new_key(content, key)),
        next_version(content) == Ok::<u32, EncryptionError>(
            entries_of(registry_lines(content))->Ok_0.len() as u32,
        ),
        latest_version(with_new_key(content, key)) == next_version(content),
        nth_key(with_new_key(content, key), next_version(content)->Ok_0 as int) == Ok::<
            Seq<u8>,
            EncryptionError,
        >(key),
        forall|v: int|
            0 <= v < entries_of(registry_lines(content))->Ok_0.len() ==> #[trigger] nth_key(
                with_new_key(content, key),
                v,
            ) == nth_key(content, v),
{
    let entries = entries_of(registry_lines(content))->Ok_0;
    let after = with_new_key(content, key);
    lemma_in_order_registry(content);
    lemma_registry_after_add(content, key);
    let version = next_version(content)->Ok_0;
    assert(version == entries.len());
    let grown = entries.push((version, key));
    assert(in_order(grown)) by {
        assert forall|i: int| 0 <= i < grown.len() implies (#[trigger] grown[i]).0 == i by {
            if i < entries.len() {
                assert(grown[i] == entries[i]);
            }
        }
    }
    lemma_in_order_registry(after);
    assert(grown[version as int].1 == key);
    assert forall|v: int| 0 <= v < entries.len() implies #[trigger] nth_key(after, v) == nth_key(
        content,
        v,
    ) by {
        assert(grown[v] == entries[v]);
    }
}

/// A store without a registry line gives the next key version 0.
pub proof fn lemma_empty_versions(content: Seq<char>)
    requires
        registry_lines(content).len() == 0,
    ensures
        next_version(content) == Ok::<u32, EncryptionError>(0),
{
    assert(registry_lines(content) =~= Seq::<Seq<char>>::empty());
}

/// The first key: in a store without a registry line, whatever else it
/// holds, a registered key takes version 0, stands alone in the registry,
/// is the newest, and is the key at position 0.
pub proof fn lemma_first_key(content: Seq<char>, key: Seq<u8>)
    requires
        registry_lines(content).len() == 0,
    ensures
        next_version(content) == Ok::<u32, EncryptionError>(0),
        registry_lines(with_new_key(content, key)) == seq![format_key_line(0, key)],
        latest_version(with_new_key(content, key)) == Ok::<u32, EncryptionError>(0),
        nth_key(with_new_key(content, key), 0) == Ok::<Seq<u8>, EncryptionError>(key),
{
    let after = with_new_key(content, key);
    assert(registry_lines(content) =~= Seq::<Seq<char>>::empty());
    lemma_registry_after_add(content, key);
    assert(registry_lines(after) =~= seq![format_key_line(0, key)]);
    let grown = Seq::<KeyEntry>::empty().push((0u32, key));
    assert(in_order(grown));
    lemma_in_order_registry(after);
    assert(grown[0].1 == key);
}

/// Whether the entries carry the versions 0 up to their number less one,
/// each once, in any order.
pub open spec fn dense(entries: Seq<KeyEntry>) -> bool {
    &&& distinct_versions(entries)
    &&& forall|j: int| 0 <= j < entries.len() ==> (#[trigger] entries[j]).0 < entries.len()
}

/// Dense entries hold an entry of each version below their number.
pub proof fn lemma_dense_has_version(entries: Seq<KeyEntry>, v: int) -> (j: int)
    requires
        dense(entries),
        0 <= v < entries.len(),
    ensures
        0 <= j < entries.len(),
        entries[j].0 == v,
{
    let sorted = sort_entries(entries);
    lemma_sort_distinct(entries);
    assert forall|i: int| 0 <= i < sorted.len() implies (#[trigger] sorted[i]).0
        < sorted.len() by {
        assert(entries.contains(sorted[i]));
        let p = choose|p: int| 0 <= p < entries.len() && entries[p] == sorted[i];
        assert(entries[p].0 < entries.len());
    }
    lemma_ascending_fills(sorted, v);
    assert(entries.contains(sorted[v]));
    choose|j: int| 0 <= j < entries.len() && entries[j] == sorted[v]
}

/// Registering a key in a dense registry, whatever the order of its lines
/// and whatever else the store holds: the new key takes the version after
/// the newest, which is the number of keys before; it becomes the newest and
/// is the key at the position of its version; every key before it stays at
/// its position; and the registry is dense again.
pub proof fn lemma_add_key_dense(content: Seq<char>, key: Seq<u8>)
    requires
        entries_of(registry_lines(content)) is Ok,
        dense(entries_of(registry_lines(content))->Ok_0),
        next_version(content) is Ok,
    ensures
        next_version(content) == Ok::<u32, EncryptionError>(
            entries_of(registry_lines(content))->Ok_0.len() as u32,
        ),
        next_version(content)->Ok_0 == entries_of(registry_lines(content))->Ok_0.len(),
        entries_of(registry_lines(with_new_key(content, key))) is Ok,
        dense(entries_of(registry_lines(with_new_key(content, key)))->Ok_0),
        latest_version(with_new_key(content, key)) == next_version(content),
        nth_key(with_new_key(content, key), next_version(content)->Ok_0 as int) == Ok::<
            Seq<u8>,
            EncryptionError,
        >(key),
        forall|v: int|
            0 <= v < entries_of(registry_lines(content))->Ok_0.len() ==> #[trigger] nth_key(
                with_new_key(content, key),
                v,
            ) == nth_key(content, v),
{
    let lines = registry_lines(content);
    let entries = entries_of(lines)->Ok_0;
    let n = entries.len();
    let after = with_new_key(content, key);
    lemma_versions_of_entries(lines);
    let versions = entry_versions(entries);
    if n > 0 {
        lemma_max_version(versions);
        let top = choose|i: int| 0 <= i < versions.len() && versions[i] == max_version(versions);
        assert(entries[top].0 < n);
        let last = lemma_dense_has_version(entries, n - 1);
        assert(versions[last] == n - 1);
        assert(max_version(versions) == n - 1);
    }
    lemma_registry_after_add(content, key);
    let version = next_version(content)->Ok_0;
    assert(version == n);
    let grown = entries.push((version, key));
    assert(dense(grown)) by {
        assert forall|i: int, j: int| 0 <= i < j < grown.len() implies grown[i].0
            != grown[j].0 by {
            assert(grown[i] == entries[i]);
            if j < n {
                assert(grown[j] == entries[j]);
            }
        }
        assert forall|j: int| 0 <= j < grown.len() implies (#[trigger] grown[j]).0
            < grown.len() by {
            if j < n {
                assert(grown[j] == entries[j]);
            }
        }
    }
    lemma_sort_entries(grown);
    lemma_sort_entries(entries);
    lemma_dense_registry(grown, n as int);
    assert forall|v: int| 0 <= v < n implies #[trigger] nth_key(after, v) == nth_key(
        content,
        v,
    ) by {
        let j = lemma_dense_has_version(entries, v);
        lemma_dense_registry(entries, j);
        assert(grown[j] == entries[j]);
        lemma_dense_registry(grown, j);
    }
}

/// Whether the store `after` holds the dense registry of `before` grown by
/// `key`: where the registry of `before` is dense, `key` is the newest key
/// of `after`, at the position after the keys before, and each of those
/// is still at its position. (Of a registry that is not dense it says
/// nothing.)
pub open spec fn grown_by(before: Seq<char>, after: Seq<char>, key: Seq<u8>) -> bool {
    let entries = entries_of(registry_lines(before));
    entries is Ok && dense(entries->Ok_0) ==> {
        let n = entries->Ok_0.len() as int;
        &&& latest_version(after) == Ok::<u32, EncryptionError>(n as u32)
        &&& nth_key(after, n) == Ok::<Seq<u8>, EncryptionError>(key)
        &&& forall|v: int| 0 <= v < n ==> #[trigger] nth_key(after, v) == nth_key(before, v)
    }
}

/// Registering a key grows a dense registry by that key.
pub proof fn lemma_grown_by(content: Seq<char>, key: Seq<u8>)
    requires
        next_version(content) is Ok,
    ensures
        grown_by(content, with_new_key(content, key), key),
{
    let entries = entries_of(registry_lines(content));
    if entries is Ok && dense(entries->Ok_0) {
        lemma_add_key_dense(content, key);
    }
}

/// Once the registry lines are removed the registry is empty: it has no
/// newest version and no key at any position, so that nothing can be
/// encrypted or decrypted until a key is registered again.
pub proof fn lemma_purged_registry(content: Seq<char>)
    ensures
        registry_lines(purged(content, ENCRYPTION_KEYWORD@)) == Seq::<Seq<char>>::empty(),
        latest_version(purged(content, ENCRYPTION_KEYWORD@)) == Err::<u32, EncryptionError>(
            EncryptionError::NoVersionFound,
        ),
        forall|index: int| #[trigger]
            nth_key(purged(content, ENCRYPTION_KEYWORD@), index) == Err::<
                Seq<u8>,
                EncryptionError,
            >(EncryptionError::NoKeyFound),
{
    lemma_purged_has_no_key(content, ENCRYPTION_KEYWORD@);
}

} // verus!
