//! File-name rules: which names are hidden, how a content hash is joined to
//! a name, and how the deduplication key is read back out of a name.

use vstd::prelude::*;
use vstd::string::*;

use crate::hash::{
    compute_sha1, content_hash, hash_prefix, is_content_hash, prefix_of, HASH_PREFIX_LEN,
};
use crate::hex::is_hex_digit;

verus! {

/// The character that joins a hash prefix to the original file name.
pub const SEPARATOR: char = '-';

/// The character that marks a hidden file when it leads the name.
pub const HIDDEN_MARKER: char = '.';

/// Whether `name` is the name of a hidden file: it starts with
/// [`HIDDEN_MARKER`].
pub open spec fn is_hidden(name: Seq<char>) -> bool {
    name.len() > 0 && name[0] == HIDDEN_MARKER
}

/// Whether a directory entry takes part in deduplication: a regular file
/// whose name is not hidden.
pub open spec fn eligible(name: Seq<char>, is_file: bool) -> bool {
    is_file && !is_hidden(name)
}

/// The number of characters of `name` that come before its first
/// [`SEPARATOR`]; the whole length where it holds none.
pub open spec fn separator_index(name: Seq<char>) -> int
    decreases name.len(),
{
    if name.len() == 0 || name[0] == SEPARATOR {
        0
    } else {
        1 + separator_index(name.drop_first())
    }
}

/// The deduplication key that a file name carries: what comes before its
/// first [`SEPARATOR`]. A name without separator carries no key.
pub open spec fn key_of(name: Seq<char>) -> Option<Seq<char>> {
    if separator_index(name) < name.len() {
        Some(name.take(separator_index(name)))
    } else {
        None
    }
}

/// The name a file gets from its content hash: the hash prefix, the
/// separator, then the original name unchanged.
pub open spec fn renamed(hash: Seq<char>, name: Seq<char>) -> Seq<char> {
    prefix_of(hash) + seq![SEPARATOR] + name
}

/// The path of the subdirectory that collects the duplicates of one key.
pub open spec fn bucket_path(dir: Seq<char>, key: Seq<char>) -> Seq<char> {
    dir + seq!['/'] + key
}

/// Characterizes [`separator_index`]: it is the one position `i` such that
/// no separator stands before `i` and `i` is either the end of the name or
/// the place of a separator.
pub proof fn lemma_separator_index(name: Seq<char>, i: int)
    requires
        0 <= i <= name.len(),
        forall|j: int| 0 <= j < i ==> name[j] != SEPARATOR,
        i < name.len() ==> name[i] == SEPARATOR,
    ensures
        separator_index(name) == i,
    decreases name.len(),
{
    if name.len() == 0 || name[0] == SEPARATOR {
    } else {
        let rest = name.drop_first();
        assert forall|j: int| 0 <= j < i - 1 implies rest[j] != SEPARATOR by {
            assert(rest[j] == name[j + 1]);
        }
        lemma_separator_index(rest, i - 1);
    }
}

/// The separator index lies within the name, no separator stands before it,
/// and one stands at it unless it is the end of the name.
pub proof fn lemma_separator_index_bounds(name: Seq<char>)
    ensures
        0 <= separator_index(name) <= name.len(),
        forall|j: int| 0 <= j < separator_index(name) ==> name[j] != SEPARATOR,
        separator_index(name) < name.len() ==> name[separator_index(name)] == SEPARATOR,
    decreases name.len(),
{
    if name.len() == 0 || name[0] == SEPARATOR {
    } else {
        let rest = name.drop_first();
        lemma_separator_index_bounds(rest);
        assert forall|j: int| 0 <= j < separator_index(name) implies name[j] != SEPARATOR by {
            if j > 0 {
                assert(rest[j - 1] == name[j]);
            }
        }
    }
}

/// Whether `s` holds no [`SEPARATOR`].
pub open spec fn separator_free(s: Seq<char>) -> bool {
    forall|i: int| 0 <= i < s.len() ==> s[i] != SEPARATOR
}

/// A name made of a separator-free prefix, a separator and anything else
/// carries that prefix as its key.
pub proof fn lemma_key_of_joined(prefix: Seq<char>, rest: Seq<char>)
    requires
        separator_free(prefix),
    ensures
        key_of(prefix + seq![SEPARATOR] + rest) == Some(prefix),
{
    let name = prefix + seq![SEPARATOR] + rest;
    lemma_separator_index(name, prefix.len() as int);
    assert(name.take(prefix.len() as int) =~= prefix);
}

/// The key read back from a renamed file is the prefix of the hash that the
/// file was renamed with, whatever the original name was; and a renamed file
/// is never hidden, since its name starts with a hexadecimal digit.
pub proof fn lemma_key_of_renamed(hash: Seq<char>, name: Seq<char>)
    requires
        is_content_hash(hash),
    ensures
        prefix_of(hash).len() == HASH_PREFIX_LEN,
        separator_free(prefix_of(hash)),
        key_of(renamed(hash, name)) == Some(prefix_of(hash)),
        !is_hidden(renamed(hash, name)),
{
    assert forall|i: int| 0 <= i < prefix_of(hash).len() implies prefix_of(hash)[i]
        != SEPARATOR by {
        assert(is_hex_digit(hash[i]));
    }
    lemma_key_of_joined(prefix_of(hash), name);
    assert(renamed(hash, name)[0] == hash[0]);
    assert(is_hex_digit(hash[0]));
}

/// Tells whether a file name is that of a hidden file.
pub fn is_dot_file(name: &str) -> (hidden: bool)
    ensures
        hidden == is_hidden(name@),
{
    !name.is_empty() && name.get_char(0) == HIDDEN_MARKER
}

/// Tells whether a directory entry is to be hashed, renamed and bucketed.
pub fn is_eligible(name: &str, is_file: bool) -> (yes: bool)
    ensures
        yes == eligible(name@, is_file),
{
    is_file && !is_dot_file(name)
}

/// Reads the deduplication key out of a file name.
pub fn hash_key(name: &str) -> (key: Option<String>)
    ensures
        key is Some <==> key_of(name@) is Some,
        key matches Some(k) ==> key_of(name@) == Some(k@),
{
    let n: usize = name.unicode_len();
    let mut i: usize = 0;
    for c in it: name.chars()
        invariant
            n == name@.len(),
            it.seq() == name@,
            i == it.index(),
            forall|j: int| 0 <= j < i ==> name@[j] != SEPARATOR,
    {
        if c == SEPARATOR {
            proof {
                lemma_separator_index(name@, i as int);
            }
            return Some(String::from_str(name.substring_char(0, i)));
        }
        i = i + 1;
    }
    proof {
        lemma_separator_index(name@, n as int);
    }
    None
}

/// Builds the name a file gets from its content hash.
pub fn renamed_name(hash: &str, name: &str) -> (new_name: String)
    requires
        hash@.len() >= HASH_PREFIX_LEN,
    ensures
        new_name@ == renamed(hash@, name@),
{
    let mut new_name = hash_prefix(hash);
    new_name.push(SEPARATOR);
    new_name.append(name);
    new_name
}

/// Builds the name a file gets from its content: hashes the content and
/// joins the hash prefix to the original name. The key of the new name is
/// the hash prefix, so it depends on the content alone; and the new name is
/// not hidden, whatever the original name was.
pub fn hashed_name(content: &[u8], name: &str) -> (new_name: String)
    ensures
        new_name@ == renamed(content_hash(content@), name@),
        key_of(new_name@) == Some(prefix_of(content_hash(content@))),
        !is_hidden(new_name@),
{
    let hash = compute_sha1(content);
    proof {
        lemma_key_of_renamed(hash@, name@);
    }
    renamed_name(hash.as_str(), name)
}

/// Builds the path of the subdirectory that collects the duplicates of
/// `key` under the directory `dir`.
pub fn bucket_dir(dir: &str, key: &str) -> (path: String)
    ensures
        path@ == bucket_path(dir@, key@),
{
    let mut path = String::from_str(dir);
    path.push('/');
    path.append(key);
    path
}

} // verus!
