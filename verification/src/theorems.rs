//! What holds of renaming and bucketing taken together.

use vstd::prelude::*;

use crate::bucket::{
    bucket_files, bucket_of, eligible_pred, first_keys, group_of, groups_of, has_duplicates,
    has_duplicates_pred, has_key, keyed_names, lemma_first_keys_distinct,
    lemma_first_keys_members, members, plan_of, takes_part, takes_part_pred, EntryView,
};
use crate::filtering::{
    lemma_filter_absorbs, lemma_filter_source, lemma_filter_target, lemma_rank_grows, rank,
};
use crate::hash::{is_content_hash, prefix_of, HASH_PREFIX_LEN};
use crate::name::{
    eligible, is_hidden, key_of, lemma_key_of_renamed, lemma_separator_index_bounds, renamed,
    separator_free, SEPARATOR,
};

verus! {

/// What the key of a name is: the part of the name before its first
/// separator. It holds no separator, is shorter than the name, and a
/// separator follows it.
pub proof fn key_is_cut_at_the_first_separator(name: Seq<char>)
    requires
        key_of(name) is Some,
    ensures
        separator_free(key_of(name)->0),
        key_of(name)->0.len() < name.len(),
        key_of(name)->0 == name.take(key_of(name)->0.len() as int),
        name[key_of(name)->0.len() as int] == SEPARATOR,
{
    lemma_separator_index_bounds(name);
}

/// A name carries no key exactly when it holds no separator.
pub proof fn no_separator_no_key(name: Seq<char>)
    ensures
        key_of(name) is None <==> separator_free(name),
{
    lemma_separator_index_bounds(name);
}

/// Two files whose content hashes agree on the prefix carry the same key
/// once renamed, even where the hashes differ further on. Two files with the
/// same content have the same hash, and so the same key.
pub proof fn equal_prefixes_share_a_key(
    hash_a: Seq<char>,
    name_a: Seq<char>,
    hash_b: Seq<char>,
    name_b: Seq<char>,
)
    requires
        is_content_hash(hash_a),
        is_content_hash(hash_b),
        prefix_of(hash_a) == prefix_of(hash_b),
    ensures
        key_of(renamed(hash_a, name_a)) == Some(prefix_of(hash_a)),
        key_of(renamed(hash_b, name_b)) == key_of(renamed(hash_a, name_a)),
{
    lemma_key_of_renamed(hash_a, name_a);
    lemma_key_of_renamed(hash_b, name_b);
}

/// Renaming is not idempotent: a renamed file is eligible again, and when it
/// is renamed a second time it carries the prefix twice, which is a
/// different name; its key is still the prefix.
pub proof fn second_renaming_prefixes_again(hash: Seq<char>, name: Seq<char>)
    requires
        is_content_hash(hash),
    ensures
        renamed(hash, renamed(hash, name)) == prefix_of(hash) + seq![SEPARATOR] + prefix_of(hash)
            + seq![SEPARATOR] + name,
        renamed(hash, renamed(hash, name)) != renamed(hash, name),
        key_of(renamed(hash, renamed(hash, name))) == Some(prefix_of(hash)),
        eligible(renamed(hash, name), true),
{
    let once = renamed(hash, name);
    let twice = renamed(hash, once);
    assert(twice =~= prefix_of(hash) + seq![SEPARATOR] + prefix_of(hash) + seq![SEPARATOR] + name);
    assert(twice.len() == once.len() + HASH_PREFIX_LEN + 1);
    lemma_key_of_renamed(hash, once);
}

/// A key that two or more files of the listing carry has exactly one
/// bucket. The bucket keeps the first of these files in listing order and
/// moves all the others, one fewer than there are, each under its own name.
pub proof fn duplicates_are_bucketed(listing: Seq<EntryView>, key: Seq<char>) -> (i: int)
    requires
        members(keyed_names(listing), key).len() >= 2,
    ensures
        0 <= i < plan_of(listing).len(),
        plan_of(listing)[i].key == key,
        plan_of(listing)[i].kept == members(keyed_names(listing), key)[0],
        plan_of(listing)[i].moved == members(keyed_names(listing), key).drop_first(),
        plan_of(listing)[i].moved.len() == members(keyed_names(listing), key).len() - 1,
        forall|j: int|
            0 <= j < plan_of(listing).len() && #[trigger] plan_of(listing)[j].key == key ==> j
                == i,
{
    let names = keyed_names(listing);
    let keys = first_keys(names);
    let groups = groups_of(names);
    let chosen = groups.filter(has_duplicates_pred());
    lemma_first_keys_members(names, key);
    lemma_first_keys_distinct(names);
    let idx = choose|idx: int| 0 <= idx < keys.len() && keys[idx] == key;
    assert(groups[idx] == group_of(names, key));
    assert(has_duplicates(groups[idx]));
    lemma_filter_target(groups, has_duplicates_pred(), idx);
    let i = rank(groups, has_duplicates_pred(), idx);
    assert(plan_of(listing)[i] == bucket_of(chosen[i]));
    assert forall|j: int|
        0 <= j < plan_of(listing).len() && #[trigger] plan_of(listing)[j].key == key implies j
        == i by {
        let src = lemma_filter_source(groups, has_duplicates_pred(), j);
        assert(plan_of(listing)[j] == bucket_of(chosen[j]));
        assert(keys[src] == key);
    }
    i
}

/// A key that fewer than two files of the listing carry has no bucket: a
/// file without a duplicate stays where it is and no subdirectory is made
/// for it.
pub proof fn single_file_stays(listing: Seq<EntryView>, key: Seq<char>)
    requires
        members(keyed_names(listing), key).len() < 2,
    ensures
        forall|j: int| 0 <= j < plan_of(listing).len() ==> #[trigger] plan_of(listing)[j].key != key,
{
    let names = keyed_names(listing);
    let groups = groups_of(names);
    let chosen = groups.filter(has_duplicates_pred());
    assert forall|j: int| 0 <= j < plan_of(listing).len() implies #[trigger] plan_of(
        listing,
    )[j].key != key by {
        let src = lemma_filter_source(groups, has_duplicates_pred(), j);
        assert(plan_of(listing)[j] == bucket_of(chosen[j]));
        assert(has_duplicates(groups[src]));
    }
}

/// The files of a bucket are exactly the files of the listing that carry
/// the bucket's key, in listing order; there are two of them or more, and
/// each carries the key in its name.
pub proof fn buckets_hold_their_key(listing: Seq<EntryView>, i: int)
    requires
        0 <= i < plan_of(listing).len(),
    ensures
        bucket_files(plan_of(listing)[i]) == members(keyed_names(listing), plan_of(listing)[i].key),
        bucket_files(plan_of(listing)[i]).len() >= 2,
        forall|t: int|
            0 <= t < bucket_files(plan_of(listing)[i]).len() ==> key_of(
                #[trigger] bucket_files(plan_of(listing)[i])[t],
            ) == Some(plan_of(listing)[i].key),
{
    let names = keyed_names(listing);
    let groups = groups_of(names);
    let chosen = groups.filter(has_duplicates_pred());
    let src = lemma_filter_source(groups, has_duplicates_pred(), i);
    assert(plan_of(listing)[i] == bucket_of(chosen[i]));
    let key = plan_of(listing)[i].key;
    let files = members(names, key);
    assert(groups[src] == group_of(names, key));
    assert(bucket_files(plan_of(listing)[i]) =~= files);
    assert forall|t: int| 0 <= t < files.len() implies key_of(#[trigger] files[t]) == Some(
        key,
    ) by {
        names.lemma_filter_pred(has_key(key), t);
    }
}

/// Every file of a bucket is the name of an entry of the listing that is a
/// regular file and not hidden: hidden files and directories are never
/// planned to move, nor counted as duplicates.
pub proof fn planned_files_are_eligible(listing: Seq<EntryView>, i: int, t: int) -> (at: int)
    requires
        0 <= i < plan_of(listing).len(),
        0 <= t < bucket_files(plan_of(listing)[i]).len(),
    ensures
        0 <= at < listing.len(),
        listing[at].name == bucket_files(plan_of(listing)[i])[t],
        listing[at].is_file,
        !is_hidden(listing[at].name),
        key_of(listing[at].name) == Some(plan_of(listing)[i].key),
{
    buckets_hold_their_key(listing, i);
    let names = keyed_names(listing);
    let key = plan_of(listing)[i].key;
    let among = lemma_filter_source(names, has_key(key), t);
    let taking_part = listing.filter(takes_part_pred());
    assert(names[among] == taking_part[among].name);
    let at = lemma_filter_source(listing, takes_part_pred(), among);
    at
}

/// The plan depends on the eligible entries alone: taking the hidden files
/// and whatever is no regular file out of the listing leaves it unchanged.
pub proof fn plan_ignores_ineligible_entries(listing: Seq<EntryView>)
    ensures
        plan_of(listing.filter(eligible_pred())) == plan_of(listing),
{
    lemma_filter_absorbs(listing, takes_part_pred(), eligible_pred());
}

/// Two eligible files of the listing that carry the same key end up in the
/// same bucket: the later one is moved, the earlier one is kept or moved.
pub proof fn same_key_same_bucket(listing: Seq<EntryView>, a: int, b: int) -> (i: int)
    requires
        0 <= a < b < listing.len(),
        takes_part(listing[a]),
        takes_part(listing[b]),
        key_of(listing[a].name) == key_of(listing[b].name),
    ensures
        0 <= i < plan_of(listing).len(),
        Some(plan_of(listing)[i].key) == key_of(listing[a].name),
        bucket_files(plan_of(listing)[i]).contains(listing[a].name),
        plan_of(listing)[i].moved.contains(listing[b].name),
{
    let key = key_of(listing[a].name)->0;
    let taking_part = listing.filter(takes_part_pred());
    let names = keyed_names(listing);
    lemma_filter_target(listing, takes_part_pred(), a);
    lemma_filter_target(listing, takes_part_pred(), b);
    lemma_rank_grows(listing, takes_part_pred(), a, b);
    let na = rank(listing, takes_part_pred(), a);
    let nb = rank(listing, takes_part_pred(), b);
    assert(names[na] == listing[a].name);
    assert(names[nb] == listing[b].name);
    lemma_filter_target(names, has_key(key), na);
    lemma_filter_target(names, has_key(key), nb);
    lemma_rank_grows(names, has_key(key), na, nb);
    let ma = rank(names, has_key(key), na);
    let mb = rank(names, has_key(key), nb);
    let files = members(names, key);
    assert(files[ma] == listing[a].name);
    assert(files[mb] == listing[b].name);
    let i = duplicates_are_bucketed(listing, key);
    let bucket = plan_of(listing)[i];
    assert(bucket.moved[mb - 1] == listing[b].name);
    assert(bucket_files(bucket) =~= files);
    assert(bucket_files(bucket)[ma] == listing[a].name);
    i
}

/// Two regular files of the listing whose names come from content hashes
/// that agree on the prefix end up in the bucket of that prefix, whatever
/// their original names were and whether or not the hashes agree further
/// on: the later one is moved, the earlier one is kept or moved.
pub proof fn colliding_files_share_a_bucket(
    listing: Seq<EntryView>,
    a: int,
    hash_a: Seq<char>,
    name_a: Seq<char>,
    b: int,
    hash_b: Seq<char>,
    name_b: Seq<char>,
) -> (i: int)
    requires
        0 <= a < b < listing.len(),
        listing[a] == (EntryView { name: renamed(hash_a, name_a), is_file: true }),
        listing[b] == (EntryView { name: renamed(hash_b, name_b), is_file: true }),
        is_content_hash(hash_a),
        is_content_hash(hash_b),
        prefix_of(hash_a) == prefix_of(hash_b),
    ensures
        0 <= i < plan_of(listing).len(),
        plan_of(listing)[i].key == prefix_of(hash_a),
        bucket_files(plan_of(listing)[i]).contains(listing[a].name),
        plan_of(listing)[i].moved.contains(listing[b].name),
{
    lemma_key_of_renamed(hash_a, name_a);
    lemma_key_of_renamed(hash_b, name_b);
    same_key_same_bucket(listing, a, b)
}

} // verus!
