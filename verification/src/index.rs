//! Keeping the index of a version up to date with its sources.
use crate::extract;
use crate::extract::extract_symbols_from_text;
use crate::names;
use crate::symbols;
use crate::symbols::{IndexedFile, ReferenceSymbolIndex, INDEX_VERSION};
use crate::table::StringTable;
use crate::text;
use crate::text::{begins_with, decimal_text, is_text, same_text};
use vstd::prelude::*;
use vstd::string::*;

verus! {

/// The signature of a file with the given length and time of change.
pub open spec fn signature(len: nat, modified_ms: nat) -> Seq<char> {
    text::decimal(len).push(':') + text::decimal(modified_ms)
}

/// The time of change that counts: an unknown one counts as the epoch.
pub open spec fn known_time(modified_ms: Option<u128>) -> nat {
    match modified_ms {
        Some(ms) => ms as nat,
        None => 0,
    }
}

/// Writes the signature by which a change of a file is noticed: its length in
/// bytes and the milliseconds from the epoch to its last change, if they are
/// known.
pub fn file_signature(len: u64, modified_ms: Option<u128>) -> (r: String)
    ensures
        r@ == signature(len as nat, known_time(modified_ms)),
        r@ == text::decimal(len as nat) + seq![':'] + text::decimal(
            match modified_ms {
                Some(ms) => ms as nat,
                None => 0,
            },
        ),
{
    let ms: u128 = match modified_ms {
        Some(ms) => ms,
        None => 0,
    };
    let mut text = decimal_text(len as u128);
    text.append(":");
    text.append(decimal_text(ms).as_str());
    proof {
        reveal_strlit(":");
        assert(text@ =~= signature(len as nat, ms as nat));
        assert(text@ =~= text::decimal(len as nat) + seq![':'] + text::decimal(ms as nat));
    }
    text
}

/// A file that changes in length or in time of change gets another signature.
pub proof fn signatures_are_distinct(len: nat, ms: nat, other_len: nat, other_ms: nat)
    requires
        signature(len, ms) == signature(other_len, other_ms),
    ensures
        len == other_len,
        ms == other_ms,
{
    let a = text::decimal(len);
    let b = text::decimal(other_len);
    let whole = signature(len, ms);
    text::numerals_hold_digits(len);
    text::numerals_hold_digits(other_len);
    assert(whole[a.len() as int] == ':');
    assert(signature(other_len, other_ms)[b.len() as int] == ':');
    if a.len() < b.len() {
        assert(whole[a.len() as int] == b[a.len() as int]);
    } else if b.len() < a.len() {
        assert(whole[b.len() as int] == a[b.len() as int]);
    }
    assert(a =~= whole.take(a.len() as int));
    assert(b =~= whole.take(b.len() as int));
    text::numerals_are_distinct(len, other_len);
    assert(text::decimal(ms) =~= whole.skip(a.len() + 1int));
    assert(text::decimal(other_ms) =~= whole.skip(b.len() + 1int));
    text::numerals_are_distinct(ms, other_ms);
}

/// Something that a walk over the directory of a version came upon: whether it is
/// a regular file, the extension of its name, and its path below the directory,
/// where they can be told.
#[derive(Debug, Clone, PartialEq, Eq)]
pub struct WalkEntry {
    pub is_file: bool,
    pub extension: Option<String>,
    pub rel: Option<String>,
}

/// What a [`WalkEntry`] stands for.
pub struct WalkModel {
    pub is_file: bool,
    pub extension: Option<Seq<char>>,
    pub rel: Option<Seq<char>>,
}

impl DeepView for WalkEntry {
    type V = WalkModel;

    open spec fn deep_view(&self) -> WalkModel {
        WalkModel {
            is_file: self.is_file,
            extension: self.extension.deep_view(),
            rel: self.rel.deep_view(),
        }
    }
}

/// What is asked of a file before it is read: its length, and the milliseconds
/// from the epoch to its last change, if they are known.
#[derive(Debug, Clone, Copy, PartialEq, Eq)]
pub struct FileStat {
    pub len: u64,
    pub modified_ms: Option<u128>,
}

/// The signature of a file of which this was told.
pub open spec fn signature_of(stat: FileStat) -> Seq<char> {
    signature(stat.len as nat, known_time(stat.modified_ms))
}

/// Whether a walk entry is a source file that belongs in the index: a regular
/// file with the extension of C# sources that is not below one of the directories
/// kept for the index itself and for version control.
pub open spec fn is_source(entry: WalkModel) -> bool {
    &&& entry.is_file
    &&& entry.extension == Some("cs"@)
    &&& entry.rel is Some
    &&& !".unity-cli-index"@.is_prefix_of(entry.rel->0)
    &&& !".git"@.is_prefix_of(entry.rel->0)
}

/// Tells whether a walk entry belongs in the index.
pub fn is_indexable(entry: &WalkEntry) -> (r: bool)
    ensures
        r == is_source(entry.deep_view()),
        r == (entry.is_file && entry.extension is Some && entry.extension->0@ == "cs"@ && entry.rel is Some
            && !".unity-cli-index"@.is_prefix_of(entry.rel->0@) && !".git"@.is_prefix_of(
            entry.rel->0@,
        )),
{
    if !entry.is_file {
        return false;
    }
    if !is_text(&entry.extension, "cs") {
        return false;
    }
    match &entry.rel {
        Some(rel) => !begins_with(rel.as_str(), ".unity-cli-index") && !begins_with(
            rel.as_str(),
            ".git",
        ),
        None => false,
    }
}

/// What was heard of one walk entry: what its file was, and what was read from
/// it, as far as that could be had.
pub struct Visit {
    pub stat: Option<FileStat>,
    pub text: Option<String>,
}

/// The value of a key, if there is one.
pub open spec fn lookup<V>(map: Map<Seq<char>, V>, key: Seq<char>) -> Option<V> {
    if map.contains_key(key) {
        Some(map[key])
    } else {
        None
    }
}

/// Whether a file has to be read: what it is can be told, and it is not what the
/// index has of it.
pub open spec fn must_read(known: Option<symbols::FileModel>, stat: Option<FileStat>) -> bool {
    stat is Some && !(known is Some && known->0.signature == signature_of(stat->0))
}

/// What the index has of a file after a visit: the file as read, if it had to be
/// read and could be, else what the index had.
pub open spec fn after_visit(
    known: Option<symbols::FileModel>,
    rel: Seq<char>,
    visit: Visit,
) -> Option<symbols::FileModel> {
    if must_read(known, visit.stat) && visit.text is Some {
        Some(
            symbols::FileModel {
                signature: signature_of(visit.stat->0),
                symbols: extract::extracted(visit.text->0@, rel),
            },
        )
    } else {
        known
    }
}

/// The files of an index after a walk.
pub open spec fn walked(
    files: Map<Seq<char>, symbols::FileModel>,
    entries: Seq<WalkModel>,
    visits: Seq<Visit>,
) -> Map<Seq<char>, symbols::FileModel>
    decreases entries.len(),
{
    if entries.len() == 0 {
        files
    } else {
        let passed = walked(files, entries.drop_last(), visits.drop_last());
        let entry = entries.last();
        if is_source(entry) {
            match after_visit(lookup(passed, entry.rel->0), entry.rel->0, visits.last()) {
                Some(file) => passed.insert(entry.rel->0, file),
                None => passed,
            }
        } else {
            passed
        }
    }
}

/// The keys of the source files that a walk came upon.
pub open spec fn sources(entries: Seq<WalkModel>) -> Set<Seq<char>> {
    Set::new(
        |key: Seq<char>|
            exists|i: int|
                0 <= i < entries.len() && is_source(#[trigger] entries[i]) && entries[i].rel->0 == key,
    )
}

/// The files of an index brought up to date: those of the walk, without the ones
/// that the walk did not come upon.
pub open spec fn refreshed(
    files: Map<Seq<char>, symbols::FileModel>,
    entries: Seq<WalkModel>,
    visits: Seq<Visit>,
) -> Map<Seq<char>, symbols::FileModel> {
    walked(files, entries, visits).restrict(sources(entries))
}

/// The index that an update starts from: the one that was kept, if it is of the
/// current format.
pub open spec fn starting_index(loaded: Option<symbols::IndexModel>) -> symbols::IndexModel {
    if loaded is Some && loaded->0.version == INDEX_VERSION {
        loaded->0
    } else {
        symbols::empty_index()
    }
}

/// Whether the visits are what was answered: `stat` was asked of every source
/// file, and `read` of those that had to be read.
pub open spec fn answered<S, R>(
    stat: S,
    read: R,
    files: Map<Seq<char>, symbols::FileModel>,
    entries: Seq<WalkModel>,
    visits: Seq<Visit>,
) -> bool where S: Fn(usize) -> Option<FileStat>, R: Fn(usize) -> Option<String> {
    &&& visits.len() == entries.len()
    &&& forall|i: int|
        0 <= i < entries.len() && is_source(#[trigger] entries[i]) ==> {
            &&& call_ensures(stat, (i as usize,), visits[i].stat)
            &&& must_read(
                lookup(walked(files, entries.take(i), visits.take(i)), entries[i].rel->0),
                visits[i].stat,
            ) ==> call_ensures(read, (i as usize,), visits[i].text)
        }
}

/// Whether an index is the one that was kept, brought up to date with what was
/// answered on the walk. The time at which it was made is left open.
pub open spec fn is_update<S, R>(
    stat: S,
    read: R,
    loaded: Option<symbols::IndexModel>,
    entries: Seq<WalkModel>,
    index: symbols::IndexModel,
) -> bool where S: Fn(usize) -> Option<FileStat>, R: Fn(usize) -> Option<String> {
    let start = starting_index(loaded);
    &&& index.version == INDEX_VERSION
    &&& index.unity_version == start.unity_version
    &&& index.branch == start.branch
    &&& exists|visits: Seq<Visit>|
        #![trigger refreshed(start.files, entries, visits)]
        {
            &&& answered(stat, read, start.files, entries, visits)
            &&& index.files == refreshed(start.files, entries, visits)
        }
}

/// Takes up the index that was kept, if it is of the current format.
fn start_from(loaded: Option<ReferenceSymbolIndex>) -> (index: ReferenceSymbolIndex)
    ensures
        index.deep_view() == starting_index(loaded.deep_view()),
{
    match loaded {
        Some(index) => if index.version != INDEX_VERSION {
            ReferenceSymbolIndex::default()
        } else {
            index
        },
        None => ReferenceSymbolIndex::default(),
    }
}

/// Brings the index that was kept for a version up to date.
///
/// `entries` are what a walk over the directory of the version came upon. `stat`
/// and `read` are asked about an entry by its position, and answer `None` where
/// the file cannot be had; `now` tells the time. A file whose signature is the
/// one in the index is not read again, and files that the walk did not come upon
/// leave the index.
pub fn build_or_update_index<S, R, N>(
    loaded: Option<ReferenceSymbolIndex>,
    entries: &Vec<WalkEntry>,
    stat: S,
    read: R,
    now: N,
) -> (index: ReferenceSymbolIndex) where
    S: Fn(usize) -> Option<FileStat>,
    R: Fn(usize) -> Option<String>,
    N: Fn() -> u64,

    requires
        forall|i: usize| i < entries@.len() ==> call_requires(stat, (i,)),
        forall|i: usize| i < entries@.len() ==> call_requires(read, (i,)),
        call_requires(now, ()),
    ensures
        is_update(
            stat,
            read,
            loaded.deep_view(),
            entries.deep_view(),
            index.deep_view(),
        ),
        call_ensures(now, (), index.generated_at_epoch_ms),
{
    let mut index = start_from(loaded);
    let ghost start = starting_index(loaded.deep_view());
    let ghost walk = entries.deep_view();
    let ghost mut visits: Seq<Visit> = Seq::empty();
    let mut seen: StringTable<()> = StringTable::new();
    let mut i: usize = 0;
    proof {
        assert(walk.take(0) =~= Seq::empty());
        assert(seen@.dom() =~= sources(walk.take(0)));
    }
    #[verifier::loop_isolation(false)]
    while i < entries.len()
        invariant
            i <= entries@.len(),
            visits.len() == i,
            index.version == INDEX_VERSION,
            index.unity_version.deep_view() == start.unity_version,
            index.branch.deep_view() == start.branch,
            index.files.deep_view() == walked(start.files, walk.take(i as int), visits),
            seen@.dom() == sources(walk.take(i as int)),
            answered(stat, read, start.files, walk.take(i as int), visits),
        decreases entries@.len() - i,
    {
        let entry = &entries[i];
        let ghost before = visits;
        let ghost files = index.files.deep_view();
        let ghost was_seen = seen@;
        let ghost mut heard = Visit { stat: None, text: None };
        if is_indexable(entry) {
            if let Some(rel) = &entry.rel {
                let _ = seen.insert(rel.clone(), ());
                let told = stat(i);
                proof {
                    heard = Visit { stat: told, text: None };
                }
                if let Some(told) = told {
                    let signature = file_signature(told.len, told.modified_ms);
                    let unchanged = match index.files.get(rel.as_str()) {
                        Some(file) => same_text(file.signature.as_str(), signature.as_str()),
                        None => false,
                    };
                    assert(unchanged == !must_read(lookup(files, rel@), Some(told)));
                    if !unchanged {
                        let contents = read(i);
                        proof {
                            heard = Visit { stat: Some(told), text: contents };
                        }
                        if let Some(contents) = contents {
                            let symbols = extract_symbols_from_text(contents.as_str(), rel.as_str());
                            let file = IndexedFile { signature, symbols };
                            let ghost model = file.deep_view();
                            let _ = index.files.insert(rel.clone(), file);
                            assert(index.files.deep_view() =~= files.insert(rel@, model));
                        }
                    }
                }
            }
        }
        proof {
            visits = before.push(heard);
            let now_walk = walk.take(i + 1);
            assert(walk[i as int] == entry.deep_view());
            assert(now_walk =~= walk.take(i as int).push(walk[i as int]));
            assert(now_walk.drop_last() =~= walk.take(i as int));
            assert(visits.drop_last() =~= before);
            assert(files =~= walked(start.files, walk.take(i as int), before));
            assert(index.files.deep_view() =~= walked(start.files, now_walk, visits));
            assert forall|j: int| 0 <= j < now_walk.len() && is_source(#[trigger] now_walk[j]) implies {
                &&& call_ensures(stat, (j as usize,), visits[j].stat)
                &&& must_read(
                    lookup(
                        walked(start.files, now_walk.take(j), visits.take(j)),
                        now_walk[j].rel->0,
                    ),
                    visits[j].stat,
                ) ==> call_ensures(read, (j as usize,), visits[j].text)
            } by {
                assert(now_walk.take(j) =~= walk.take(i as int).take(j));
                assert(visits.take(j) =~= before.take(j));
                if j < i {
                    assert(is_source(walk.take(i as int)[j]));
                } else {
                    assert(walk.take(i as int).take(j) =~= walk.take(i as int));
                    assert(before.take(j) =~= before);
                }
            }
            assert forall|k: Seq<char>| seen@.dom().contains(k) <==> sources(now_walk).contains(k) by {
                if sources(walk.take(i as int)).contains(k) {
                    let j = choose|j: int|
                        0 <= j < walk.take(i as int).len() && is_source(#[trigger] walk.take(i as int)[j])
                            && walk.take(i as int)[j].rel->0 == k;
                    assert(is_source(now_walk[j]));
                }
                if sources(now_walk).contains(k) {
                    let j = choose|j: int|
                        0 <= j < now_walk.len() && is_source(#[trigger] now_walk[j])
                            && now_walk[j].rel->0 == k;
                    if j < i {
                        assert(is_source(walk.take(i as int)[j]));
                    }
                }
                if is_source(walk[i as int]) {
                    assert(is_source(now_walk[i as int]));
                }
            }
            assert(seen@.dom() =~= sources(now_walk));
        }
        i += 1;
    }
    assert(walk.take(i as int) =~= walk);
    index.files.retain_keys_of(&seen);
    index.generated_at_epoch_ms = now();
    proof {
        assert(index.files.deep_view() =~= refreshed(start.files, walk, visits));
    }
    index
}

/// What a walk entry and a file stand for.
pub proof fn walk_entries_stand_for_their_fields(entry: WalkEntry, stat: FileStat)
    ensures
        entry.deep_view().is_file == entry.is_file,
        entry.deep_view().extension == (match entry.extension {
            Some(text) => Some(text@),
            None => None,
        }),
        entry.deep_view().rel == (match entry.rel {
            Some(text) => Some(text@),
            None => None,
        }),
        signature_of(stat) == text::decimal(stat.len as nat) + seq![':'] + text::decimal(
            match stat.modified_ms {
                Some(ms) => ms as nat,
                None => 0,
            },
        ),
{
    assert(signature_of(stat) =~= text::decimal(stat.len as nat) + seq![':'] + text::decimal(
        known_time(stat.modified_ms),
    ));
}

/// A walk goes entry by entry. Anything but a source file leaves the files as they
/// are, and so does a source file of which nothing can be told, that has the
/// signature that the files have of it, or that cannot be read. Else the file is
/// put there, with its signature and the symbols of the text that was read.
pub proof fn walks_go_entry_by_entry(
    files: Map<Seq<char>, symbols::FileModel>,
    entries: Seq<WalkModel>,
    visits: Seq<Visit>,
    i: int,
)
    requires
        visits.len() == entries.len(),
        0 <= i < entries.len(),
    ensures
        walked(files, entries.take(0), visits.take(0)) == files,
        ({
            let before = walked(files, entries.take(i), visits.take(i));
            let after = walked(files, entries.take(i + 1), visits.take(i + 1));
            let entry = entries[i];
            let key = entry.rel->0;
            let stat = visits[i].stat;
            if entry.is_file && entry.extension == Some("cs"@) && entry.rel is Some
                && !".unity-cli-index"@.is_prefix_of(key) && !".git"@.is_prefix_of(key)
                && stat is Some && visits[i].text is Some {
                let signature = text::decimal(stat->0.len as nat) + seq![':'] + text::decimal(
                    match stat->0.modified_ms {
                        Some(ms) => ms as nat,
                        None => 0,
                    },
                );
                if before.contains_key(key) && before[key].signature == signature {
                    after == before
                } else {
                    after == before.insert(
                        key,
                        symbols::FileModel {
                            signature,
                            symbols: extract::extracted(visits[i].text->0@, key),
                        },
                    )
                }
            } else {
                after == before
            }
        }),
{
    let now = entries.take(i + 1);
    assert(now.drop_last() =~= entries.take(i));
    assert(visits.take(i + 1).drop_last() =~= visits.take(i));
    assert(now.last() == entries[i]);
    assert(visits.take(i + 1).last() == visits[i]);
    let before = walked(files, entries.take(i), visits.take(i));
    let key = entries[i].rel->0;
    if before.contains_key(key) {
        assert(before.insert(key, before[key]) =~= before);
    }
    if visits[i].stat is Some {
        let stat = visits[i].stat->0;
        assert(signature_of(stat) =~= text::decimal(stat.len as nat) + seq![':'] + text::decimal(
            known_time(stat.modified_ms),
        ));
    }
}

/// An update keeps, of what the walk left, the files that the walk came upon, and
/// no others.
pub proof fn updates_keep_what_was_met(
    files: Map<Seq<char>, symbols::FileModel>,
    entries: Seq<WalkModel>,
    visits: Seq<Visit>,
)
    ensures
        ({
            let left = walked(files, entries, visits);
            let kept = refreshed(files, entries, visits);
            &&& forall|key: Seq<char>| #[trigger]
                kept.contains_key(key) <==> left.contains_key(key) && exists|i: int|
                    {
                        &&& 0 <= i < entries.len()
                        &&& (#[trigger] entries[i]).is_file
                        &&& entries[i].extension == Some("cs"@)
                        &&& entries[i].rel == Some(key)
                        &&& !".unity-cli-index"@.is_prefix_of(key)
                        &&& !".git"@.is_prefix_of(key)
                    }
            &&& forall|key: Seq<char>| #[trigger] kept.contains_key(key) ==> kept[key] == left[key]
        }),
{
    let left = walked(files, entries, visits);
    let kept = refreshed(files, entries, visits);
    assert forall|key: Seq<char>| #[trigger]
        kept.contains_key(key) <==> left.contains_key(key) && exists|i: int|
            {
                &&& 0 <= i < entries.len()
                &&& (#[trigger] entries[i]).is_file
                &&& entries[i].extension == Some("cs"@)
                &&& entries[i].rel == Some(key)
                &&& !".unity-cli-index"@.is_prefix_of(key)
                &&& !".git"@.is_prefix_of(key)
            } by {
        if kept.contains_key(key) {
            let i = choose|i: int|
                0 <= i < entries.len() && is_source(#[trigger] entries[i]) && entries[i].rel->0 == key;
            assert(entries[i].is_file && entries[i].rel == Some(key));
        }
        if left.contains_key(key) && exists|i: int|
            {
                &&& 0 <= i < entries.len()
                &&& (#[trigger] entries[i]).is_file
                &&& entries[i].extension == Some("cs"@)
                &&& entries[i].rel == Some(key)
                &&& !".unity-cli-index"@.is_prefix_of(key)
                &&& !".git"@.is_prefix_of(key)
            } {
            let i = choose|i: int|
                {
                    &&& 0 <= i < entries.len()
                    &&& (#[trigger] entries[i]).is_file
                    &&& entries[i].extension == Some("cs"@)
                    &&& entries[i].rel == Some(key)
                    &&& !".unity-cli-index"@.is_prefix_of(key)
                    &&& !".git"@.is_prefix_of(key)
                };
            assert(is_source(entries[i]));
        }
    }
}

/// What an update leaves of a source file that the walk came upon once. If its
/// signature can be told and is not the one that the index has, and the file can be
/// read, the index has it with this signature and with exactly the symbols of the
/// text that was read, whether it knew the file before or not. Else the index has
/// of it what it had.
pub proof fn files_read_have_the_symbols_of_their_text(
    files: Map<Seq<char>, symbols::FileModel>,
    entries: Seq<WalkModel>,
    visits: Seq<Visit>,
    i: int,
    key: Seq<char>,
)
    requires
        visits.len() == entries.len(),
        0 <= i < entries.len(),
        entries[i].is_file,
        entries[i].extension == Some("cs"@),
        entries[i].rel == Some(key),
        !".unity-cli-index"@.is_prefix_of(key),
        !".git"@.is_prefix_of(key),
        forall|j: int|
            0 <= j < entries.len() && j != i && (#[trigger] entries[j]).is_file
                && entries[j].extension == Some("cs"@) ==> entries[j].rel != Some(key),
    ensures
        ({
            let kept = refreshed(files, entries, visits);
            let stat = visits[i].stat;
            let signature = text::decimal(stat->0.len as nat) + seq![':'] + text::decimal(
                match stat->0.modified_ms {
                    Some(ms) => ms as nat,
                    None => 0,
                },
            );
            if stat is Some && visits[i].text is Some && !(files.contains_key(key)
                && files[key].signature == signature) {
                &&& kept.contains_key(key)
                &&& kept[key].signature == signature
                &&& kept[key].symbols == extract::extracted(visits[i].text->0@, key)
            } else {
                &&& kept.contains_key(key) <==> files.contains_key(key)
                &&& kept.contains_key(key) ==> kept[key] == files[key]
            }
        }),
{
    assert(is_source(entries[i]));
    if visits[i].stat is Some {
        let stat = visits[i].stat->0;
        assert(signature_of(stat) =~= text::decimal(stat.len as nat) + seq![':'] + text::decimal(
            known_time(stat.modified_ms),
        ));
    }
    lemma_met_once(files, entries, visits, i);
    assert(sources(entries).contains(key));
    let kept = refreshed(files, entries, visits);
    assert(lookup(kept, key) == after_visit(lookup(files, key), key, visits[i]));
}

/// What a walk leaves of a file that it comes upon once.
proof fn lemma_met_once(
    files: Map<Seq<char>, symbols::FileModel>,
    entries: Seq<WalkModel>,
    visits: Seq<Visit>,
    i: int,
)
    requires
        visits.len() == entries.len(),
        0 <= i < entries.len(),
        is_source(entries[i]),
        forall|j: int|
            0 <= j < entries.len() && j != i && is_source(#[trigger] entries[j]) ==> entries[j].rel
                != entries[i].rel,
    ensures
        lookup(walked(files, entries, visits), entries[i].rel->0) == after_visit(
            lookup(files, entries[i].rel->0),
            entries[i].rel->0,
            visits[i],
        ),
    decreases entries.len(),
{
    let passed = entries.drop_last();
    let seen = visits.drop_last();
    let key = entries[i].rel->0;
    assert forall|j: int| 0 <= j < passed.len() && j != i && is_source(#[trigger] passed[j]) implies passed[j].rel
        != entries[i].rel by {
        assert(is_source(entries[j]));
    }
    if i < passed.len() {
        assert(passed[i] == entries[i]);
        lemma_met_once(files, passed, seen, i);
        if is_source(entries.last()) {
            assert(is_source(entries[entries.len() - 1]));
        }
    } else {
        assert forall|j: int| 0 <= j < passed.len() && is_source(#[trigger] passed[j]) implies passed[j].rel->0
            != key by {
            assert(passed[j].rel == Some(passed[j].rel->0));
        }
        lemma_walk_leaves_others(files, passed, seen, key);
    }
}

/// An update of an index: it starts from the index that was kept, if that is of the
/// current format, and from nothing else. Of every source file on the walk it is
/// told what the file is, and where that is not what the files have of it so far,
/// what is in it; the files are those of the walk with these answers.
pub proof fn updates_ask_and_follow<S, R>(
    stat: S,
    read: R,
    loaded: Option<symbols::IndexModel>,
    entries: Seq<WalkModel>,
    index: symbols::IndexModel,
    files: Map<Seq<char>, symbols::FileModel>,
) where S: Fn(usize) -> Option<FileStat>, R: Fn(usize) -> Option<String>
    requires
        is_update(stat, read, loaded, entries, index),
        files == if loaded is Some && loaded->0.version == 1 {
            loaded->0.files
        } else {
            Map::empty()
        },
    ensures
        index.version == 1,
        loaded is Some && loaded->0.version == 1 ==> index.unity_version == loaded->0.unity_version
            && index.branch == loaded->0.branch,
        !(loaded is Some && loaded->0.version == 1) ==> index.unity_version is None
            && index.branch is None,
        exists|visits: Seq<Visit>|
            {
                &&& visits.len() == entries.len()
                &&& index.files == #[trigger] refreshed(files, entries, visits)
                &&& forall|i: int|
                    0 <= i < entries.len() && (#[trigger] entries[i]).is_file
                        && entries[i].extension == Some("cs"@) && entries[i].rel is Some
                        && !".unity-cli-index"@.is_prefix_of(entries[i].rel->0)
                        && !".git"@.is_prefix_of(entries[i].rel->0) ==> {
                        let known = walked(files, entries.take(i), visits.take(i));
                        let key = entries[i].rel->0;
                        let told = visits[i].stat;
                        &&& call_ensures(stat, (i as usize,), told)
                        &&& told is Some && !(known.contains_key(key) && known[key].signature
                            == text::decimal(told->0.len as nat) + seq![':'] + text::decimal(
                            match told->0.modified_ms {
                                Some(ms) => ms as nat,
                                None => 0,
                            },
                        )) ==> call_ensures(read, (i as usize,), visits[i].text)
                    }
            },
{
    assert(files == starting_index(loaded).files);
    let visits = choose|visits: Seq<Visit>|
        #![trigger refreshed(files, entries, visits)]
        answered(stat, read, files, entries, visits) && index.files == refreshed(
            files,
            entries,
            visits,
        );
    assert(answered(stat, read, files, entries, visits));
    assert forall|i: int|
        0 <= i < entries.len() && (#[trigger] entries[i]).is_file && entries[i].extension == Some(
            "cs"@,
        ) && entries[i].rel is Some && !".unity-cli-index"@.is_prefix_of(entries[i].rel->0)
            && !".git"@.is_prefix_of(entries[i].rel->0) implies {
        let known = walked(files, entries.take(i), visits.take(i));
        let key = entries[i].rel->0;
        let told = visits[i].stat;
        &&& call_ensures(stat, (i as usize,), told)
        &&& told is Some && !(known.contains_key(key) && known[key].signature == text::decimal(
            told->0.len as nat,
        ) + seq![':'] + text::decimal(
            match told->0.modified_ms {
                Some(ms) => ms as nat,
                None => 0,
            },
        )) ==> call_ensures(read, (i as usize,), visits[i].text)
    } by {
        assert(is_source(entries[i]));
        let told = visits[i].stat;
        if told is Some {
            assert(signature_of(told->0) =~= text::decimal(told->0.len as nat) + seq![':']
                + text::decimal(known_time(told->0.modified_ms)));
        }
    }
    assert(index.files == refreshed(files, entries, visits));
}

/// Whether the walk came upon each source file once.
pub open spec fn are_distinct(entries: Seq<WalkModel>) -> bool {
    forall|i: int, j: int|
        0 <= i < j < entries.len() && is_source(#[trigger] entries[i]) && is_source(
            #[trigger] entries[j],
        ) ==> entries[i].rel->0 != entries[j].rel->0
}

/// A walk leaves the files alone that it does not come upon.
proof fn lemma_walk_leaves_others(
    files: Map<Seq<char>, symbols::FileModel>,
    entries: Seq<WalkModel>,
    visits: Seq<Visit>,
    key: Seq<char>,
)
    requires
        visits.len() == entries.len(),
        !sources(entries).contains(key),
    ensures
        lookup(walked(files, entries, visits), key) == lookup(files, key),
    decreases entries.len(),
{
    if entries.len() > 0 {
        let passed = entries.drop_last();
        assert forall|i: int| 0 <= i < passed.len() && is_source(#[trigger] passed[i]) implies passed[i].rel->0
            != key by {
            assert(is_source(entries[i]));
        }
        if is_source(entries.last()) {
            assert(is_source(entries[entries.len() - 1]));
        }
        lemma_walk_leaves_others(files, passed, visits.drop_last(), key);
    }
}

proof fn lemma_walk_visits(
    files: Map<Seq<char>, symbols::FileModel>,
    entries: Seq<WalkModel>,
    visits: Seq<Visit>,
    i: int,
)
    requires
        visits.len() == entries.len(),
        are_distinct(entries),
        0 <= i < entries.len(),
        is_source(entries[i]),
    ensures
        lookup(walked(files, entries, visits), entries[i].rel->0) == after_visit(
            lookup(files, entries[i].rel->0),
            entries[i].rel->0,
            visits[i],
        ),
    decreases entries.len(),
{
    let passed = entries.drop_last();
    let key = entries[i].rel->0;
    assert forall|a: int, b: int|
        0 <= a < b < passed.len() && is_source(#[trigger] passed[a]) && is_source(
            #[trigger] passed[b],
        ) implies passed[a].rel->0 != passed[b].rel->0 by {
        assert(is_source(entries[a]) && is_source(entries[b]));
    }
    if i < passed.len() {
        assert(is_source(passed[i]));
        lemma_walk_visits(files, passed, visits.drop_last(), i);
        if is_source(entries.last()) {
            assert(is_source(entries[entries.len() - 1]));
        }
    } else {
        assert forall|a: int| 0 <= a < passed.len() && is_source(#[trigger] passed[a]) implies passed[a].rel->0
            != key by {
            assert(is_source(entries[a]));
        }
        lemma_walk_leaves_others(files, passed, visits.drop_last(), key);
    }
}

/// Files that the walk did not come upon are not in the index afterwards.
pub proof fn files_not_seen_leave_the_index(
    files: Map<Seq<char>, symbols::FileModel>,
    entries: Seq<WalkModel>,
    visits: Seq<Visit>,
)
    ensures
        refreshed(files, entries, visits).dom().subset_of(sources(entries)),
{
}

/// What an update leaves of a file depends on what the index had of it and on
/// the visit to it, and on nothing else.
pub proof fn files_are_updated_one_by_one(
    files: Map<Seq<char>, symbols::FileModel>,
    entries: Seq<WalkModel>,
    visits: Seq<Visit>,
    i: int,
)
    requires
        visits.len() == entries.len(),
        are_distinct(entries),
        0 <= i < entries.len(),
        is_source(entries[i]),
    ensures
        lookup(refreshed(files, entries, visits), entries[i].rel->0) == after_visit(
            lookup(files, entries[i].rel->0),
            entries[i].rel->0,
            visits[i],
        ),
{
    lemma_walk_visits(files, entries, visits, i);
    assert(sources(entries).contains(entries[i].rel->0));
}

/// Whether a symbol belongs to the file with the given key: it has the key as its
/// path, a name, and, in a namespace, the name qualified by it.
pub open spec fn belongs_to(entry: symbols::EntryModel, key: Seq<char>) -> bool {
    &&& entry.path == key
    &&& entry.name.len() > 0
    &&& entry.container is None
    &&& entry.fqn == match entry.namespace {
        Some(namespace) => Some(names::qualified(namespace, entry.name)),
        None => None,
    }
}

/// Whether all symbols of an index belong to the file that they are listed under.
pub open spec fn is_in_order(files: Map<Seq<char>, symbols::FileModel>) -> bool {
    forall|key: Seq<char>, i: int|
        files.contains_key(key) && 0 <= i < files[key].symbols.len() ==> belongs_to(
            #[trigger] files[key].symbols[i],
            key,
        )
}

proof fn lemma_extracted_belong(content: Seq<char>, rel: Seq<char>, i: int)
    requires
        0 <= i < extract::extracted(content, rel).len(),
    ensures
        belongs_to(extract::extracted(content, rel)[i], rel),
{
    let matches = extract::regex_captures_iter(extract::TYPE_PATTERN@, content);
    matches.lemma_filter_pred(|groups: Seq<Option<extract::GroupModel>>| extract::is_named(groups), i);
}

/// The file that a symbol is listed under after a walk had it before, or it
/// belongs to the file.
proof fn lemma_walked_symbol(
    files: Map<Seq<char>, symbols::FileModel>,
    entries: Seq<WalkModel>,
    visits: Seq<Visit>,
    key: Seq<char>,
    i: int,
)
    requires
        walked(files, entries, visits).contains_key(key),
        0 <= i < walked(files, entries, visits)[key].symbols.len(),
    ensures
        ({
            let now = walked(files, entries, visits)[key];
            ||| files.contains_key(key) && files[key] == now
            ||| belongs_to(now.symbols[i], key)
        }),
    decreases entries.len(),
{
    if entries.len() > 0 {
        let passed = walked(files, entries.drop_last(), visits.drop_last());
        let now = walked(files, entries, visits);
        if passed.contains_key(key) && now[key] == passed[key] {
            lemma_walked_symbol(files, entries.drop_last(), visits.drop_last(), key, i);
        } else {
            lemma_extracted_belong(visits.last().text->0@, entries.last().rel->0, i);
        }
    }
}

/// Every update leaves each symbol under the file that it belongs to.
pub proof fn updates_keep_the_index_in_order(
    files: Map<Seq<char>, symbols::FileModel>,
    entries: Seq<WalkModel>,
    visits: Seq<Visit>,
)
    requires
        is_in_order(files),
    ensures
        is_in_order(refreshed(files, entries, visits)),
{
    let kept = refreshed(files, entries, visits);
    assert forall|key: Seq<char>, i: int|
        kept.contains_key(key) && 0 <= i < kept[key].symbols.len() implies belongs_to(
        #[trigger] kept[key].symbols[i],
        key,
    ) by {
        lemma_walked_symbol(files, entries, visits, key, i);
        if files.contains_key(key) && files[key] == kept[key] {
            assert(belongs_to(files[key].symbols[i], key));
        }
    }
}

/// Whether each symbol of an index has the key of its file as its path.
pub open spec fn has_own_paths(files: Map<Seq<char>, symbols::FileModel>) -> bool {
    forall|key: Seq<char>, i: int|
        files.contains_key(key) && 0 <= i < files[key].symbols.len() ==> (
        #[trigger] files[key].symbols[i]).path == key
}

/// Every update leaves each symbol with the key of its file as its path.
pub proof fn updates_keep_the_paths(
    files: Map<Seq<char>, symbols::FileModel>,
    entries: Seq<WalkModel>,
    visits: Seq<Visit>,
)
    requires
        has_own_paths(files),
    ensures
        has_own_paths(refreshed(files, entries, visits)),
{
    let kept = refreshed(files, entries, visits);
    assert forall|key: Seq<char>, i: int|
        kept.contains_key(key) && 0 <= i < kept[key].symbols.len() implies (
    #[trigger] kept[key].symbols[i]).path == key by {
        lemma_walked_symbol(files, entries, visits, key, i);
        if files.contains_key(key) && files[key] == kept[key] {
            assert(files[key].symbols[i].path == key);
        }
    }
}

/// A file of which the signature could be told, and that could be read if it had
/// to be, is in the index with that signature.
pub proof fn updated_files_have_their_signature(
    files: Map<Seq<char>, symbols::FileModel>,
    entries: Seq<WalkModel>,
    visits: Seq<Visit>,
    i: int,
)
    requires
        visits.len() == entries.len(),
        are_distinct(entries),
        0 <= i < entries.len(),
        is_source(entries[i]),
        visits[i].stat is Some,
        must_read(lookup(files, entries[i].rel->0), visits[i].stat) ==> visits[i].text is Some,
    ensures
        refreshed(files, entries, visits).contains_key(entries[i].rel->0),
        refreshed(files, entries, visits)[entries[i].rel->0].signature == signature_of(
            visits[i].stat->0,
        ),
{
    files_are_updated_one_by_one(files, entries, visits, i);
}

/// A file that has not changed keeps what the index has of it, whatever could
/// have been read from it.
pub proof fn unchanged_files_are_kept(
    files: Map<Seq<char>, symbols::FileModel>,
    entries: Seq<WalkModel>,
    visits: Seq<Visit>,
    key: Seq<char>,
)
    requires
        visits.len() == entries.len(),
        sources(entries).contains(key),
        files.contains_key(key),
        forall|i: int|
            0 <= i < entries.len() && is_source(#[trigger] entries[i]) && entries[i].rel->0 == key ==> {
                &&& visits[i].stat is Some
                &&& signature_of(visits[i].stat->0) == files[key].signature
            },
    ensures
        refreshed(files, entries, visits).contains_key(key),
        refreshed(files, entries, visits)[key] == files[key],
{
    lemma_unchanged(files, entries, visits, key);
}

proof fn lemma_unchanged(
    files: Map<Seq<char>, symbols::FileModel>,
    entries: Seq<WalkModel>,
    visits: Seq<Visit>,
    key: Seq<char>,
)
    requires
        visits.len() == entries.len(),
        files.contains_key(key),
        forall|i: int|
            0 <= i < entries.len() && is_source(#[trigger] entries[i]) && entries[i].rel->0 == key ==> {
                &&& visits[i].stat is Some
                &&& signature_of(visits[i].stat->0) == files[key].signature
            },
    ensures
        walked(files, entries, visits).contains_key(key),
        walked(files, entries, visits)[key] == files[key],
    decreases entries.len(),
{
    if entries.len() > 0 {
        let passed = entries.drop_last();
        assert forall|i: int|
            0 <= i < passed.len() && is_source(#[trigger] passed[i]) && passed[i].rel->0 == key implies {
            &&& visits.drop_last()[i].stat is Some
            &&& signature_of(visits.drop_last()[i].stat->0) == files[key].signature
        } by {
            assert(is_source(entries[i]));
        }
        lemma_unchanged(files, passed, visits.drop_last(), key);
        if is_source(entries.last()) {
            assert(is_source(entries[entries.len() - 1]));
        }
    }
}

/// What a walk leaves of one file, from what the index had of it.
spec fn passed_through(
    known: Option<symbols::FileModel>,
    entries: Seq<WalkModel>,
    visits: Seq<Visit>,
    key: Seq<char>,
) -> Option<symbols::FileModel>
    decreases entries.len(),
{
    if entries.len() == 0 {
        known
    } else {
        let passed = passed_through(known, entries.drop_last(), visits.drop_last(), key);
        if is_source(entries.last()) && entries.last().rel->0 == key {
            after_visit(passed, key, visits.last())
        } else {
            passed
        }
    }
}

proof fn lemma_walk_passes_through(
    files: Map<Seq<char>, symbols::FileModel>,
    entries: Seq<WalkModel>,
    visits: Seq<Visit>,
    key: Seq<char>,
)
    ensures
        lookup(walked(files, entries, visits), key) == passed_through(
            lookup(files, key),
            entries,
            visits,
            key,
        ),
    decreases entries.len(),
{
    if entries.len() > 0 {
        lemma_walk_passes_through(files, entries.drop_last(), visits.drop_last(), key);
    }
}

/// A walk leaves whatever the index had of a file, or it leaves the same
/// signature, whatever the index had.
proof fn lemma_walk_ends_alike(
    a: Option<symbols::FileModel>,
    b: Option<symbols::FileModel>,
    entries: Seq<WalkModel>,
    visits: Seq<Visit>,
    key: Seq<char>,
)
    ensures
        ({
            let x = passed_through(a, entries, visits, key);
            let y = passed_through(b, entries, visits, key);
            ||| x == a && y == b
            ||| x is Some && y is Some && x->0.signature == y->0.signature
        }),
    decreases entries.len(),
{
    if entries.len() > 0 {
        lemma_walk_ends_alike(a, b, entries.drop_last(), visits.drop_last(), key);
    }
}

/// The same walk once more leaves of a file what the first one left of it.
proof fn lemma_walk_settles(
    known: Option<symbols::FileModel>,
    entries: Seq<WalkModel>,
    visits: Seq<Visit>,
    key: Seq<char>,
)
    ensures
        ({
            let once = passed_through(known, entries, visits, key);
            passed_through(once, entries, visits, key) == once
        }),
    decreases entries.len(),
{
    if entries.len() > 0 {
        let once = passed_through(known, entries, visits, key);
        lemma_walk_settles(known, entries.drop_last(), visits.drop_last(), key);
        lemma_walk_ends_alike(known, once, entries.drop_last(), visits.drop_last(), key);
    }
}

/// The positions of the source files among the entries of a walk, in order.
pub open spec fn source_places(entries: Seq<WalkModel>) -> Seq<int>
    decreases entries.len(),
{
    if entries.len() == 0 {
        Seq::empty()
    } else {
        let passed = source_places(entries.drop_last());
        if is_source(entries.last()) {
            passed.push(entries.len() - 1)
        } else {
            passed
        }
    }
}

/// The source files among the entries of a walk, in order.
pub open spec fn source_entries(entries: Seq<WalkModel>) -> Seq<WalkModel> {
    source_places(entries).map_values(|i: int| entries[i])
}

proof fn lemma_source_places(entries: Seq<WalkModel>)
    ensures
        forall|k: int|
            0 <= k < source_places(entries).len() ==> {
                &&& 0 <= #[trigger] source_places(entries)[k] < entries.len()
                &&& is_source(entries[source_places(entries)[k]])
            },
        forall|i: int|
            0 <= i < entries.len() && is_source(#[trigger] entries[i]) ==> source_places(
                entries,
            ).contains(i),
    decreases entries.len(),
{
    if entries.len() > 0 {
        let passed = entries.drop_last();
        let places = source_places(entries);
        lemma_source_places(passed);
        assert forall|k: int| 0 <= k < places.len() implies {
            &&& 0 <= #[trigger] places[k] < entries.len()
            &&& is_source(entries[places[k]])
        } by {
            if k < source_places(passed).len() {
                assert(places[k] == source_places(passed)[k]);
                assert(is_source(passed[places[k]]));
            }
        }
        assert forall|i: int| 0 <= i < entries.len() && is_source(#[trigger] entries[i]) implies places.contains(
            i,
        ) by {
            if i < passed.len() {
                assert(is_source(passed[i]));
                let k = choose|k: int| 0 <= k < source_places(passed).len() && source_places(passed)[k] == i;
                assert(places[k] == i);
            } else {
                assert(places[places.len() - 1] == i);
            }
        }
    }
}

/// A walk comes upon the source files that it has among its entries.
proof fn lemma_sources_are_places(entries: Seq<WalkModel>)
    ensures
        sources(source_entries(entries)) == sources(entries),
{
    let list = source_entries(entries);
    lemma_source_places(entries);
    assert forall|key: Seq<char>| sources(list).contains(key) <==> sources(entries).contains(key) by {
        if sources(list).contains(key) {
            let k = choose|k: int|
                0 <= k < list.len() && is_source(#[trigger] list[k]) && list[k].rel->0 == key;
            assert(is_source(entries[source_places(entries)[k]]));
        }
        if sources(entries).contains(key) {
            let i = choose|i: int|
                0 <= i < entries.len() && is_source(#[trigger] entries[i]) && entries[i].rel->0 == key;
            let k = choose|k: int|
                0 <= k < source_places(entries).len() && source_places(entries)[k] == i;
            assert(is_source(list[k]));
        }
    }
    assert(sources(list) =~= sources(entries));
}

/// Whether the visits of a walk found what `disk` has of the source files, in
/// order: of every one what it was, and of those that had to be read what was in
/// them.
pub open spec fn found_on(
    disk: Seq<Visit>,
    files: Map<Seq<char>, symbols::FileModel>,
    entries: Seq<WalkModel>,
    visits: Seq<Visit>,
) -> bool {
    &&& disk.len() == source_places(entries).len()
    &&& visits.len() == entries.len()
    &&& forall|k: int|
        0 <= k < disk.len() ==> {
            let i = source_places(entries)[k];
            &&& visits[i].stat == (#[trigger] disk[k]).stat
            &&& must_read(
                lookup(walked(files, entries.take(i), visits.take(i)), entries[i].rel->0),
                visits[i].stat,
            ) ==> visits[i].text.deep_view() == disk[k].text.deep_view()
        }
}

/// What was not read does not matter, nor what is not a source file.
proof fn lemma_walk_of_disk(
    disk: Seq<Visit>,
    files: Map<Seq<char>, symbols::FileModel>,
    entries: Seq<WalkModel>,
    visits: Seq<Visit>,
)
    requires
        found_on(disk, files, entries, visits),
    ensures
        walked(files, entries, visits) == walked(files, source_entries(entries), disk),
    decreases entries.len(),
{
    if entries.len() > 0 {
        let n = entries.len() - 1;
        let passed = entries.drop_last();
        let seen = visits.drop_last();
        let places = source_places(passed);
        let known = disk.take(places.len() as int);
        lemma_source_places(passed);
        assert forall|k: int| 0 <= k < known.len() implies {
            let i = places[k];
            &&& seen[i].stat == (#[trigger] known[k]).stat
            &&& must_read(
                lookup(walked(files, passed.take(i), seen.take(i)), passed[i].rel->0),
                seen[i].stat,
            ) ==> seen[i].text.deep_view() == known[k].text.deep_view()
        } by {
            let i = places[k];
            assert(disk[k] == known[k]);
            assert(source_places(entries)[k] == i);
            assert(passed.take(i) =~= entries.take(i));
            assert(seen.take(i) =~= visits.take(i));
        }
        lemma_walk_of_disk(known, files, passed, seen);
        assert(entries.take(n) =~= passed);
        assert(visits.take(n) =~= seen);
        let list = source_entries(entries);
        if is_source(entries.last()) {
            let k = places.len() as int;
            assert(source_places(entries)[k] == n);
            assert(disk[k] == disk.last());
            assert(list.drop_last() =~= source_entries(passed));
            assert(list.last() == entries.last());
            assert(disk.drop_last() =~= known);
        } else {
            assert(list =~= source_entries(passed));
            assert(disk =~= known);
        }
    } else {
        assert(source_entries(entries) =~= Seq::empty());
    }
}

/// An update of an index that is up to date changes nothing, as long as both walks
/// come upon the same source files in the same order and find the same on the
/// disk. What else they come upon does not matter.
pub proof fn updating_again_changes_nothing(
    disk: Seq<Visit>,
    files: Map<Seq<char>, symbols::FileModel>,
    entries: Seq<WalkModel>,
    visits: Seq<Visit>,
    later_entries: Seq<WalkModel>,
    later: Seq<Visit>,
)
    requires
        source_entries(later_entries) == source_entries(entries),
        found_on(disk, files, entries, visits),
        found_on(disk, refreshed(files, entries, visits), later_entries, later),
    ensures
        refreshed(refreshed(files, entries, visits), later_entries, later) == refreshed(
            files,
            entries,
            visits,
        ),
{
    let list = source_entries(entries);
    let once = refreshed(files, entries, visits);
    let twice = refreshed(once, later_entries, later);
    lemma_sources_are_places(entries);
    lemma_sources_are_places(later_entries);
    lemma_walk_of_disk(disk, files, entries, visits);
    lemma_walk_of_disk(disk, once, later_entries, later);
    assert forall|key: Seq<char>| lookup(twice, key) == #[trigger] lookup(once, key) by {
        if sources(entries).contains(key) {
            lemma_walk_passes_through(files, list, disk, key);
            lemma_walk_passes_through(once, list, disk, key);
            lemma_walk_settles(lookup(files, key), list, disk, key);
        }
    }
    lemma_same_lookups(twice, once);
}

/// Maps in which every key is looked up with the same result are the same.
proof fn lemma_same_lookups<V>(a: Map<Seq<char>, V>, b: Map<Seq<char>, V>)
    requires
        forall|key: Seq<char>| lookup(a, key) == #[trigger] lookup(b, key),
    ensures
        a == b,
{
    assert forall|key: Seq<char>| a.contains_key(key) <==> b.contains_key(key) by {
        assert(lookup(a, key) == lookup(b, key));
    }
    assert forall|key: Seq<char>| a.contains_key(key) implies a[key] == b[key] by {
        assert(lookup(a, key) == lookup(b, key));
    }
    assert(a =~= b);
}

/// Whether two pairs of functions tell the same of the entries of two walks:
/// `same` says which entry of the one walk is which of the other.
pub open spec fn tell_the_same<S, R, T, Q>(
    stat: S,
    read: R,
    later_stat: T,
    later_read: Q,
    same: spec_fn(int, int) -> bool,
) -> bool where
    S: Fn(usize) -> Option<FileStat>,
    R: Fn(usize) -> Option<String>,
    T: Fn(usize) -> Option<FileStat>,
    Q: Fn(usize) -> Option<String>,
 {
    &&& forall|i: int, j: int, a: Option<FileStat>, b: Option<FileStat>|
        #![trigger same(i, j), call_ensures(stat, (i as usize,), a), call_ensures(later_stat, (j as usize,), b)]
        same(i, j) && call_ensures(stat, (i as usize,), a) && call_ensures(
            later_stat,
            (j as usize,),
            b,
        ) ==> a == b
    &&& forall|i: int, j: int, a: Option<String>, b: Option<String>|
        #![trigger same(i, j), call_ensures(read, (i as usize,), a), call_ensures(later_read, (j as usize,), b)]
        same(i, j) && call_ensures(read, (i as usize,), a) && call_ensures(
            later_read,
            (j as usize,),
            b,
        ) ==> a.deep_view() == b.deep_view()
}

/// Which entries of two walks are the same source file, counted in order.
pub open spec fn in_turn(
    entries: Seq<WalkModel>,
    later_entries: Seq<WalkModel>,
) -> spec_fn(int, int) -> bool {
    |i: int, j: int|
        exists|k: int|
            {
                &&& 0 <= k < source_places(entries).len()
                &&& k < source_places(later_entries).len()
                &&& #[trigger] source_places(entries)[k] == i
                &&& source_places(later_entries)[k] == j
            }
}

/// An index that is updated again while its files stay as they are stays the same,
/// but for the time at which it was made: both walks come upon the same source
/// files in the same order and are told the same of them. What else they come
/// upon, such as the file of the index itself, does not matter.
pub proof fn an_index_stays_while_its_files_stay<S, R, T, Q>(
    stat: S,
    read: R,
    later_stat: T,
    later_read: Q,
    loaded: Option<symbols::IndexModel>,
    entries: Seq<WalkModel>,
    later_entries: Seq<WalkModel>,
    index: symbols::IndexModel,
    again: symbols::IndexModel,
) where
    S: Fn(usize) -> Option<FileStat>,
    R: Fn(usize) -> Option<String>,
    T: Fn(usize) -> Option<FileStat>,
    Q: Fn(usize) -> Option<String>,

    requires
        source_entries(later_entries) == source_entries(entries),
        tell_the_same(stat, read, later_stat, later_read, in_turn(entries, later_entries)),
        is_update(stat, read, loaded, entries, index),
        is_update(later_stat, later_read, Some(index), later_entries, again),
    ensures
        again == (symbols::IndexModel {
            generated_at_epoch_ms: again.generated_at_epoch_ms,
            ..index
        }),
{
    let files = starting_index(loaded).files;
    let visits = choose|visits: Seq<Visit>|
        #![trigger refreshed(files, entries, visits)]
        answered(stat, read, files, entries, visits) && index.files == refreshed(
            files,
            entries,
            visits,
        );
    let later = choose|later: Seq<Visit>|
        #![trigger refreshed(index.files, later_entries, later)]
        answered(later_stat, later_read, index.files, later_entries, later) && again.files
            == refreshed(index.files, later_entries, later);
    assert(answered(stat, read, files, entries, visits));
    assert(answered(later_stat, later_read, index.files, later_entries, later));
    let places = source_places(entries);
    let later_places = source_places(later_entries);
    let same = in_turn(entries, later_entries);
    assert(source_entries(entries).len() == places.len());
    assert(source_entries(later_entries).len() == later_places.len());
    lemma_source_places(entries);
    lemma_source_places(later_entries);
    let was_read = |i: int|
        must_read(
            lookup(walked(files, entries.take(i), visits.take(i)), entries[i].rel->0),
            visits[i].stat,
        );
    let disk = Seq::new(
        places.len(),
        |k: int|
            Visit {
                stat: visits[places[k]].stat,
                text: if was_read(places[k]) {
                    visits[places[k]].text
                } else {
                    later[later_places[k]].text
                },
            },
    );
    assert(found_on(disk, files, entries, visits));
    assert forall|k: int| 0 <= k < disk.len() implies {
        let j = later_places[k];
        &&& later[j].stat == (#[trigger] disk[k]).stat
        &&& must_read(
            lookup(
                walked(index.files, later_entries.take(j), later.take(j)),
                later_entries[j].rel->0,
            ),
            later[j].stat,
        ) ==> later[j].text.deep_view() == disk[k].text.deep_view()
    } by {
        let (i, j) = (places[k], later_places[k]);
        assert(is_source(entries[i]));
        assert(is_source(later_entries[j]));
        assert(same(i, j));
        assert(call_ensures(stat, (i as usize,), visits[i].stat));
        assert(call_ensures(later_stat, (j as usize,), later[j].stat));
    }
    updating_again_changes_nothing(disk, files, entries, visits, later_entries, later);
}

/// Which entries of two walks are source files with the same path.
pub open spec fn by_path(
    entries: Seq<WalkModel>,
    later_entries: Seq<WalkModel>,
) -> spec_fn(int, int) -> bool {
    |i: int, j: int|
        {
            &&& 0 <= i < entries.len()
            &&& 0 <= j < later_entries.len()
            &&& is_source(entries[i])
            &&& is_source(later_entries[j])
            &&& entries[i].rel == later_entries[j].rel
        }
}

/// Walks that come upon each source file once may come upon them in any order: an
/// index that is updated again while its files stay as they are stays the same,
/// but for the time at which it was made.
pub proof fn an_index_stays_whatever_the_order<S, R, T, Q>(
    stat: S,
    read: R,
    later_stat: T,
    later_read: Q,
    loaded: Option<symbols::IndexModel>,
    entries: Seq<WalkModel>,
    later_entries: Seq<WalkModel>,
    index: symbols::IndexModel,
    again: symbols::IndexModel,
) where
    S: Fn(usize) -> Option<FileStat>,
    R: Fn(usize) -> Option<String>,
    T: Fn(usize) -> Option<FileStat>,
    Q: Fn(usize) -> Option<String>,

    requires
        are_distinct(entries),
        are_distinct(later_entries),
        sources(later_entries) == sources(entries),
        tell_the_same(stat, read, later_stat, later_read, by_path(entries, later_entries)),
        is_update(stat, read, loaded, entries, index),
        is_update(later_stat, later_read, Some(index), later_entries, again),
    ensures
        again == (symbols::IndexModel {
            generated_at_epoch_ms: again.generated_at_epoch_ms,
            ..index
        }),
{
    let files = starting_index(loaded).files;
    let visits = choose|visits: Seq<Visit>|
        #![trigger refreshed(files, entries, visits)]
        answered(stat, read, files, entries, visits) && index.files == refreshed(
            files,
            entries,
            visits,
        );
    let later = choose|later: Seq<Visit>|
        #![trigger refreshed(index.files, later_entries, later)]
        answered(later_stat, later_read, index.files, later_entries, later) && again.files
            == refreshed(index.files, later_entries, later);
    assert(answered(stat, read, files, entries, visits));
    assert(answered(later_stat, later_read, index.files, later_entries, later));
    let same = by_path(entries, later_entries);
    assert forall|key: Seq<char>| lookup(again.files, key) == #[trigger] lookup(index.files, key) by {
        if sources(entries).contains(key) {
            let i = choose|i: int|
                0 <= i < entries.len() && is_source(#[trigger] entries[i]) && entries[i].rel->0 == key;
            assert(sources(later_entries).contains(key));
            let j = choose|j: int|
                0 <= j < later_entries.len() && is_source(#[trigger] later_entries[j])
                    && later_entries[j].rel->0 == key;
            files_are_updated_one_by_one(files, entries, visits, i);
            files_are_updated_one_by_one(index.files, later_entries, later, j);
            lemma_first_to_come(files, entries, visits, i);
            lemma_first_to_come(index.files, later_entries, later, j);
            assert(same(i, j));
            assert(call_ensures(stat, (i as usize,), visits[i].stat));
            assert(call_ensures(later_stat, (j as usize,), later[j].stat));
        }
    }
    lemma_same_lookups(again.files, index.files);
}

/// Where each source file is met once, nothing is known of a file at its visit but
/// what the index had of it.
proof fn lemma_first_to_come(
    files: Map<Seq<char>, symbols::FileModel>,
    entries: Seq<WalkModel>,
    visits: Seq<Visit>,
    i: int,
)
    requires
        visits.len() == entries.len(),
        are_distinct(entries),
        0 <= i < entries.len(),
        is_source(entries[i]),
    ensures
        lookup(walked(files, entries.take(i), visits.take(i)), entries[i].rel->0) == lookup(
            files,
            entries[i].rel->0,
        ),
{
    let passed = entries.take(i);
    assert forall|a: int| 0 <= a < passed.len() && is_source(#[trigger] passed[a]) implies passed[a].rel->0
        != entries[i].rel->0 by {
        assert(is_source(entries[a]));
    }
    lemma_walk_leaves_others(files, passed, visits.take(i), entries[i].rel->0);
}

} // verus!
