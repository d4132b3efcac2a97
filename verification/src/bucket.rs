//! Bucketing: grouping the files of a directory listing by the key their
//! names carry, and planning which files move into which subdirectory.

use vstd::prelude::*;
use vstd::string::*;

use crate::name::{eligible, hash_key, is_eligible, key_of};

verus! {

/// One entry of a directory listing: its file name and whether it is a
/// regular file.
#[derive(Clone, Debug, PartialEq, Eq)]
pub struct Entry {
    pub name: String,
    pub is_file: bool,
}

/// The mathematical value of an [`Entry`].
pub struct EntryView {
    pub name: Seq<char>,
    pub is_file: bool,
}

impl DeepView for Entry {
    type V = EntryView;

    open spec fn deep_view(&self) -> EntryView {
        EntryView { name: self.name@, is_file: self.is_file }
    }
}

/// The files of a listing that carry one key, in listing order.
#[derive(Clone, Debug, PartialEq, Eq)]
pub struct Group {
    pub key: String,
    pub files: Vec<String>,
}

/// The mathematical value of a [`Group`].
pub struct GroupView {
    pub key: Seq<char>,
    pub files: Seq<Seq<char>>,
}

impl DeepView for Group {
    type V = GroupView;

    open spec fn deep_view(&self) -> GroupView {
        GroupView { key: self.key@, files: self.files.deep_view() }
    }
}

/// Whether an entry takes part in bucketing: it is eligible and its name
/// carries a key.
pub open spec fn takes_part(e: EntryView) -> bool {
    eligible(e.name, e.is_file) && key_of(e.name) is Some
}

/// [`eligible`] as a predicate on entries.
pub open spec fn eligible_pred() -> spec_fn(EntryView) -> bool {
    |e: EntryView| eligible(e.name, e.is_file)
}

/// [`takes_part`] as a predicate value.
pub open spec fn takes_part_pred() -> spec_fn(EntryView) -> bool {
    |e: EntryView| takes_part(e)
}

/// The projection of an entry to its name.
pub open spec fn name_fn() -> spec_fn(EntryView) -> Seq<char> {
    |e: EntryView| e.name
}

/// The names of the entries that take part in bucketing, in listing order.
pub open spec fn keyed_names(listing: Seq<EntryView>) -> Seq<Seq<char>> {
    listing.filter(takes_part_pred()).map_values(name_fn())
}

/// The predicate "carries the key `key`" on file names.
pub open spec fn has_key(key: Seq<char>) -> spec_fn(Seq<char>) -> bool {
    |n: Seq<char>| key_of(n) == Some(key)
}

/// The names among `names` that carry `key`, in their order in `names`.
pub open spec fn members(names: Seq<Seq<char>>, key: Seq<char>) -> Seq<Seq<char>> {
    names.filter(has_key(key))
}

/// The keys that the names of `names` carry, each once, in the order in
/// which they first appear.
pub open spec fn first_keys(names: Seq<Seq<char>>) -> Seq<Seq<char>>
    decreases names.len(),
{
    if names.len() == 0 {
        Seq::empty()
    } else {
        let before = first_keys(names.drop_last());
        match key_of(names.last()) {
            Some(k) => if before.contains(k) {
                before
            } else {
                before.push(k)
            },
            None => before,
        }
    }
}

/// The group of `key` among `names`.
pub open spec fn group_of(names: Seq<Seq<char>>, key: Seq<char>) -> GroupView {
    GroupView { key, files: members(names, key) }
}

/// The groups of `names`: one per key, in the order in which the keys first
/// appear, each holding the names of its key in their order in `names`.
pub open spec fn groups_of(names: Seq<Seq<char>>) -> Seq<GroupView> {
    Seq::new(first_keys(names).len(), |i: int| group_of(names, first_keys(names)[i]))
}

/// Adding an entry to a listing adds its name to the keyed names exactly
/// when the entry takes part.
pub proof fn lemma_keyed_names_push(listing: Seq<EntryView>, e: EntryView)
    ensures
        keyed_names(listing.push(e)) == if takes_part(e) {
            keyed_names(listing).push(e.name)
        } else {
            keyed_names(listing)
        },
{
    listing.lemma_filter_push(e, takes_part_pred());
    if takes_part(e) {
        listing.filter(takes_part_pred()).lemma_push_map_commute(name_fn(), e);
    }
}

/// Adding a name adds it to the members of its own key and of no other.
pub proof fn lemma_members_push(names: Seq<Seq<char>>, n: Seq<char>, key: Seq<char>)
    ensures
        members(names.push(n), key) == if key_of(n) == Some(key) {
            members(names, key).push(n)
        } else {
            members(names, key)
        },
{
    names.lemma_filter_push(n, has_key(key));
}

/// Adding a name adds its key to the first keys unless it is there already.
pub proof fn lemma_first_keys_push(names: Seq<Seq<char>>, n: Seq<char>)
    ensures
        first_keys(names.push(n)) == match key_of(n) {
            Some(k) => if first_keys(names).contains(k) {
                first_keys(names)
            } else {
                first_keys(names).push(k)
            },
            None => first_keys(names),
        },
{
    assert(names.push(n).drop_last() =~= names);
}

/// No key occurs twice among the first keys.
pub proof fn lemma_first_keys_distinct(names: Seq<Seq<char>>)
    ensures
        first_keys(names).no_duplicates(),
    decreases names.len(),
{
    if names.len() > 0 {
        lemma_first_keys_distinct(names.drop_last());
    }
}

/// A key is among the first keys exactly when some name carries it.
pub proof fn lemma_first_keys_members(names: Seq<Seq<char>>, key: Seq<char>)
    ensures
        first_keys(names).contains(key) <==> members(names, key).len() > 0,
    decreases names.len(),
{
    if names.len() == 0 {
        assert(members(names, key).len() == 0) by {
            names.lemma_filter_len(has_key(key));
        }
    } else {
        let before = names.drop_last();
        lemma_first_keys_members(before, key);
        assert(before.push(names.last()) =~= names);
        lemma_members_push(before, names.last(), key);
        lemma_first_keys_push(before, names.last());
        let keys = first_keys(before);
        match key_of(names.last()) {
            Some(k) => {
                if !keys.contains(k) {
                    assert(keys.push(k).last() == k);
                    assert(keys.push(k).contains(k));
                    assert forall|x: Seq<char>| keys.push(k).contains(x) implies keys.contains(x)
                        || x == k by {
                        let i = choose|i: int| 0 <= i < keys.push(k).len() && keys.push(k)[i] == x;
                        if i < keys.len() {
                            assert(keys[i] == x);
                        }
                    }
                    if keys.contains(key) {
                        let i = choose|i: int| 0 <= i < keys.len() && keys[i] == key;
                        assert(keys.push(k)[i] == key);
                    }
                }
            },
            None => {},
        }
    }
}

/// A name whose key already has a group joins that group; the other groups
/// stay as they are.
pub proof fn lemma_groups_join(names: Seq<Seq<char>>, n: Seq<char>, idx: int)
    requires
        0 <= idx < first_keys(names).len(),
        key_of(n) == Some(first_keys(names)[idx]),
    ensures
        groups_of(names.push(n)) == groups_of(names).update(
            idx,
            group_of(names.push(n), first_keys(names)[idx]),
        ),
        members(names.push(n), first_keys(names)[idx]) == groups_of(names)[idx].files.push(n),
{
    let keys = first_keys(names);
    let k = keys[idx];
    lemma_first_keys_push(names, n);
    lemma_first_keys_distinct(names);
    lemma_members_push(names, n, k);
    assert(keys.contains(k));
    let after = groups_of(names.push(n));
    let expected = groups_of(names).update(idx, group_of(names.push(n), k));
    assert(after.len() == expected.len());
    assert forall|j: int| 0 <= j < after.len() implies after[j] == expected[j] by {
        lemma_members_push(names, n, keys[j]);
    }
    assert(after =~= expected);
}

/// A name whose key has no group yet opens a new group, after the others.
pub proof fn lemma_groups_open(names: Seq<Seq<char>>, n: Seq<char>, key: Seq<char>)
    requires
        key_of(n) == Some(key),
        !first_keys(names).contains(key),
    ensures
        groups_of(names.push(n)) == groups_of(names).push(group_of(names.push(n), key)),
        members(names.push(n), key) == seq![n],
{
    let keys = first_keys(names);
    lemma_first_keys_push(names, n);
    lemma_first_keys_members(names, key);
    lemma_members_push(names, n, key);
    assert(members(names, key) =~= Seq::<Seq<char>>::empty());
    assert(members(names, key).push(n) =~= seq![n]);
    let after = groups_of(names.push(n));
    let expected = groups_of(names).push(group_of(names.push(n), key));
    assert(after.len() == expected.len());
    assert forall|j: int| 0 <= j < after.len() implies after[j] == expected[j] by {
        if j < keys.len() {
            assert(keys.contains(keys[j]));
            lemma_members_push(names, n, keys[j]);
        }
    }
    assert(after =~= expected);
}

/// Looks for the group of `key` among `groups`.
fn find_group(groups: &Vec<Group>, key: &String) -> (found: Option<usize>)
    ensures
        match found {
            Some(idx) => idx < groups@.len() && groups@[idx as int].key@ == key@,
            None => forall|j: int| 0 <= j < groups@.len() ==> groups@[j].key@ != key@,
        },
{
    let mut j: usize = 0;
    while j < groups.len()
        invariant
            j <= groups@.len(),
            forall|l: int| 0 <= l < j ==> groups@[l].key@ != key@,
        decreases groups@.len() - j,
    {
        if groups[j].key == *key {
            return Some(j);
        }
        j = j + 1;
    }
    None
}

/// Groups the files of a listing by the key their names carry. Entries that
/// are not eligible, or whose names carry no key, belong to no group. The
/// groups come in the order in which their keys first appear in the listing,
/// and the files of a group in listing order.
pub fn group_by_key(listing: &Vec<Entry>) -> (groups: Vec<Group>)
    ensures
        groups.deep_view() == groups_of(keyed_names(listing.deep_view())),
{
    let mut groups: Vec<Group> = Vec::new();
    let mut i: usize = 0;
    assert(listing.deep_view().take(0) =~= Seq::<EntryView>::empty());
    assert(keyed_names(Seq::<EntryView>::empty()) =~= Seq::<Seq<char>>::empty()) by {
        Seq::<EntryView>::empty().lemma_filter_len(takes_part_pred());
    }
    assert(groups.deep_view() =~= groups_of(Seq::<Seq<char>>::empty()));
    while i < listing.len()
        invariant
            i <= listing@.len(),
            groups.deep_view() == groups_of(keyed_names(listing.deep_view().take(i as int))),
        decreases listing@.len() - i,
    {
        let ghost seen = listing.deep_view().take(i as int);
        let ghost names = keyed_names(seen);
        let ghost e = listing.deep_view()[i as int];
        proof {
            assert(listing.deep_view().take(i + 1) =~= seen.push(e));
            lemma_keyed_names_push(seen, e);
        }
        let entry = &listing[i];
        if is_eligible(entry.name.as_str(), entry.is_file) {
            if let Some(key) = hash_key(entry.name.as_str()) {
                let ghost old_groups = groups.deep_view();
                assert(old_groups.len() == groups@.len());
                assert(old_groups.len() == first_keys(names).len());
                match find_group(&groups, &key) {
                    Some(idx) => {
                        assert(old_groups[idx as int].key == first_keys(names)[idx as int]);
                        groups[idx].files.push(entry.name.clone());
                        proof {
                            lemma_groups_join(names, e.name, idx as int);
                            assert(groups.deep_view() =~= groups_of(names.push(e.name))) by {
                                assert(groups@[idx as int].files.deep_view()
                                    =~= old_groups[idx as int].files.push(e.name));
                            }
                        }
                    },
                    None => {
                        let mut files: Vec<String> = Vec::new();
                        files.push(entry.name.clone());
                        proof {
                            assert(files.deep_view() =~= seq![e.name]);
                            assert forall|j: int| 0 <= j < first_keys(names).len() implies first_keys(
                                names,
                            )[j] != key@ by {
                                assert(old_groups[j].key == first_keys(names)[j]);
                            }
                            lemma_groups_open(names, e.name, key@);
                        }
                        groups.push(Group { key, files });
                        assert(groups.deep_view() =~= groups_of(names.push(e.name)));
                    },
                }
            }
        }
        i = i + 1;
    }
    assert(listing.deep_view().take(i as int) =~= listing.deep_view());
    groups
}

/// The plan for one key with duplicates: the first file of the key stays at
/// the top level, the others move into the subdirectory named after the key.
#[derive(Clone, Debug, PartialEq, Eq)]
pub struct Bucket {
    pub key: String,
    pub kept: String,
    pub moved: Vec<String>,
}

/// The mathematical value of a [`Bucket`].
pub struct BucketView {
    pub key: Seq<char>,
    pub kept: Seq<char>,
    pub moved: Seq<Seq<char>>,
}

impl DeepView for Bucket {
    type V = BucketView;

    open spec fn deep_view(&self) -> BucketView {
        BucketView { key: self.key@, kept: self.kept@, moved: self.moved.deep_view() }
    }
}

/// The files of a bucket, the kept one first.
pub open spec fn bucket_files(b: BucketView) -> Seq<Seq<char>> {
    seq![b.kept] + b.moved
}

/// Whether a group holds duplicates: two files or more.
pub open spec fn has_duplicates(g: GroupView) -> bool {
    g.files.len() >= 2
}

/// [`has_duplicates`] as a predicate value.
pub open spec fn has_duplicates_pred() -> spec_fn(GroupView) -> bool {
    |g: GroupView| has_duplicates(g)
}

/// The bucket of a group: its first file is kept, the rest is moved.
pub open spec fn bucket_of(g: GroupView) -> BucketView {
    BucketView { key: g.key, kept: g.files.first(), moved: g.files.drop_first() }
}

/// [`bucket_of`] as a function value.
pub open spec fn bucket_fn() -> spec_fn(GroupView) -> BucketView {
    |g: GroupView| bucket_of(g)
}

/// The buckets of a sequence of groups: one for each group that holds
/// duplicates, in the order of the groups.
pub open spec fn buckets_of(groups: Seq<GroupView>) -> Seq<BucketView> {
    groups.filter(has_duplicates_pred()).map_values(bucket_fn())
}

/// The plan for a listing: the buckets of the groups of its keyed names.
pub open spec fn plan_of(listing: Seq<EntryView>) -> Seq<BucketView> {
    buckets_of(groups_of(keyed_names(listing)))
}

/// The mathematical values of a sequence of groups.
pub open spec fn group_views(groups: Seq<Group>) -> Seq<GroupView> {
    Seq::new(groups.len(), |i: int| groups[i].deep_view())
}

/// Adding a group adds its bucket exactly when the group holds duplicates.
pub proof fn lemma_buckets_push(groups: Seq<GroupView>, g: GroupView)
    ensures
        buckets_of(groups.push(g)) == if has_duplicates(g) {
            buckets_of(groups).push(bucket_of(g))
        } else {
            buckets_of(groups)
        },
{
    groups.lemma_filter_push(g, has_duplicates_pred());
    if has_duplicates(g) {
        groups.filter(has_duplicates_pred()).lemma_push_map_commute(bucket_fn(), g);
    }
}

/// Turns groups into buckets: a group of one file yields nothing, a larger
/// one yields a bucket that keeps its first file and moves the others.
pub fn buckets_from(groups: Vec<Group>) -> (plan: Vec<Bucket>)
    ensures
        plan.deep_view() == buckets_of(groups.deep_view()),
{
    let mut plan: Vec<Bucket> = Vec::new();
    assert(group_views(groups@.take(0)) =~= Seq::<GroupView>::empty());
    assert(buckets_of(Seq::<GroupView>::empty()) =~= Seq::<BucketView>::empty()) by {
        Seq::<GroupView>::empty().lemma_filter_len(has_duplicates_pred());
    }
    assert(plan.deep_view() =~= Seq::<BucketView>::empty());
    for group in it: groups
        invariant
            it.seq() == groups@,
            plan.deep_view() == buckets_of(group_views(groups@.take(it.index()))),
    {
        let ghost done = group_views(groups@.take(it.index()));
        let ghost g = group.deep_view();
        let ghost old_plan = plan.deep_view();
        proof {
            assert(group_views(groups@.take(it.index() + 1)) =~= done.push(g));
            lemma_buckets_push(done, g);
        }
        if group.files.len() > 1 {
            let Group { key, files } = group;
            let mut moved = files;
            let kept = moved.remove(0);
            assert(moved.deep_view() =~= g.files.drop_first());
            plan.push(Bucket { key, kept, moved });
            assert(plan.deep_view() =~= old_plan.push(bucket_of(g)));
        } else {
            assert(group.files@.len() == g.files.len());
        }
    }
    assert(group_views(groups@.take(groups@.len() as int)) =~= groups.deep_view());
    plan
}

/// Plans the bucketing of a directory listing: for every key that two or
/// more eligible files carry, one bucket that keeps the first of them in
/// listing order and moves the others. The buckets come in the order in
/// which their keys first appear in the listing.
pub fn plan_buckets(listing: &Vec<Entry>) -> (plan: Vec<Bucket>)
    ensures
        plan.deep_view() == plan_of(listing.deep_view()),
{
    buckets_from(group_by_key(listing))
}

} // verus!
