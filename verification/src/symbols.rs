//! Symbols of the reference sources, and the index that holds them by file.
use crate::table::StringTable;
use vstd::prelude::*;

verus! {

/// Where the index of a version is kept, below the directory of the version.
pub const INDEX_REL_PATH: &'static str = ".unity-cli-index/symbols.json";

/// The version of the index format.
pub const INDEX_VERSION: u32 = 1;

/// A symbol and where it is declared.
#[derive(Debug, PartialEq, Eq)]
pub struct ReferenceSymbolEntry {
    pub path: String,
    pub name: String,
    pub kind: String,
    pub line: u32,
    pub namespace: Option<String>,
    pub container: Option<String>,
    pub fqn: Option<String>,
}

/// What a [`ReferenceSymbolEntry`] stands for.
pub struct EntryModel {
    pub path: Seq<char>,
    pub name: Seq<char>,
    pub kind: Seq<char>,
    pub line: u32,
    pub namespace: Option<Seq<char>>,
    pub container: Option<Seq<char>>,
    pub fqn: Option<Seq<char>>,
}

impl DeepView for ReferenceSymbolEntry {
    type V = EntryModel;

    open spec fn deep_view(&self) -> EntryModel {
        EntryModel {
            path: self.path@,
            name: self.name@,
            kind: self.kind@,
            line: self.line,
            namespace: self.namespace.deep_view(),
            container: self.container.deep_view(),
            fqn: self.fqn.deep_view(),
        }
    }
}

/// Copies an optional text.
pub(crate) fn copy_option(text: &Option<String>) -> (r: Option<String>)
    ensures
        r == *text,
{
    match text {
        Some(text) => Some(text.clone()),
        None => None,
    }
}

impl Clone for ReferenceSymbolEntry {
    fn clone(&self) -> (r: Self)
        ensures
            r == *self,
    {
        ReferenceSymbolEntry {
            path: self.path.clone(),
            name: self.name.clone(),
            kind: self.kind.clone(),
            line: self.line,
            namespace: copy_option(&self.namespace),
            container: copy_option(&self.container),
            fqn: copy_option(&self.fqn),
        }
    }
}

/// The symbols of one file, with the signature that the file had when they were
/// taken from it.
#[derive(Debug, PartialEq, Eq)]
pub struct IndexedFile {
    pub signature: String,
    pub symbols: Vec<ReferenceSymbolEntry>,
}

/// What an [`IndexedFile`] stands for.
#[verifier::ext_equal]
pub struct FileModel {
    pub signature: Seq<char>,
    pub symbols: Seq<EntryModel>,
}

impl DeepView for IndexedFile {
    type V = FileModel;

    open spec fn deep_view(&self) -> FileModel {
        FileModel { signature: self.signature@, symbols: self.symbols.deep_view() }
    }
}

/// Entries, files and indexes stand for all that they hold.
pub proof fn entries_stand_for_their_fields(
    entry: ReferenceSymbolEntry,
    file: IndexedFile,
    index: ReferenceSymbolIndex,
)
    ensures
        entry.deep_view().path == entry.path@,
        entry.deep_view().name == entry.name@,
        entry.deep_view().kind == entry.kind@,
        entry.deep_view().line == entry.line,
        entry.deep_view().namespace == (match entry.namespace {
            Some(text) => Some(text@),
            None => None,
        }),
        entry.deep_view().container == (match entry.container {
            Some(text) => Some(text@),
            None => None,
        }),
        entry.deep_view().fqn == (match entry.fqn {
            Some(text) => Some(text@),
            None => None,
        }),
        file.deep_view().signature == file.signature@,
        file.deep_view().symbols.len() == file.symbols@.len(),
        forall|i: int|
            0 <= i < file.symbols@.len() ==> #[trigger] file.deep_view().symbols[i]
                == file.symbols@[i].deep_view(),
        index.deep_view().version == index.version,
        index.deep_view().unity_version == (match index.unity_version {
            Some(text) => Some(text@),
            None => None,
        }),
        index.deep_view().branch == (match index.branch {
            Some(text) => Some(text@),
            None => None,
        }),
        index.deep_view().generated_at_epoch_ms == index.generated_at_epoch_ms,
        index.deep_view().files.dom() == index.files@.dom(),
        forall|key: Seq<char>| #[trigger]
            index.files@.contains_key(key) ==> index.deep_view().files[key]
                == index.files@[key].deep_view(),
{
    assert(index.deep_view().files.dom() =~= index.files@.dom());
}

impl Clone for IndexedFile {
    fn clone(&self) -> (r: Self)
        ensures
            r.deep_view() == self.deep_view(),
            r.signature@ == self.signature@,
            r.symbols@ == self.symbols@,
    {
        let symbols = self.symbols.clone();
        assert(symbols@ =~= self.symbols@);
        assert(symbols.deep_view() =~= self.symbols.deep_view());
        IndexedFile { signature: self.signature.clone(), symbols }
    }
}

impl Default for IndexedFile {
    fn default() -> (r: Self)
        ensures
            r.signature@ == Seq::<char>::empty(),
            r.symbols@ == Seq::<ReferenceSymbolEntry>::empty(),
    {
        IndexedFile { signature: String::new(), symbols: Vec::new() }
    }
}

/// The symbols of one version of the sources, file by file. The files are keyed
/// by their path below the directory of the version.
#[derive(Debug)]
pub struct ReferenceSymbolIndex {
    pub version: u32,
    pub unity_version: Option<String>,
    pub branch: Option<String>,
    pub generated_at_epoch_ms: u64,
    pub files: StringTable<IndexedFile>,
}

/// What a [`ReferenceSymbolIndex`] stands for.
pub struct IndexModel {
    pub version: u32,
    pub unity_version: Option<Seq<char>>,
    pub branch: Option<Seq<char>>,
    pub generated_at_epoch_ms: u64,
    pub files: Map<Seq<char>, FileModel>,
}

impl DeepView for ReferenceSymbolIndex {
    type V = IndexModel;

    open spec fn deep_view(&self) -> IndexModel {
        IndexModel {
            version: self.version,
            unity_version: self.unity_version.deep_view(),
            branch: self.branch.deep_view(),
            generated_at_epoch_ms: self.generated_at_epoch_ms,
            files: self.files.deep_view(),
        }
    }
}

impl Clone for ReferenceSymbolIndex {
    fn clone(&self) -> (r: Self)
        ensures
            r.deep_view() == self.deep_view(),
    {
        let files = self.files.clone();
        assert(files.deep_view() =~= self.files.deep_view());
        ReferenceSymbolIndex {
            version: self.version,
            unity_version: copy_option(&self.unity_version),
            branch: copy_option(&self.branch),
            generated_at_epoch_ms: self.generated_at_epoch_ms,
            files,
        }
    }
}

/// An index of the current format that holds nothing.
pub open spec fn empty_index() -> IndexModel {
    IndexModel {
        version: INDEX_VERSION,
        unity_version: None,
        branch: None,
        generated_at_epoch_ms: 0,
        files: Map::empty(),
    }
}

impl Default for ReferenceSymbolIndex {
    fn default() -> (r: Self)
        ensures
            r.deep_view() == empty_index(),
            r.version == 1,
            r.unity_version is None,
            r.branch is None,
            r.generated_at_epoch_ms == 0,
            r.files@ == Map::<Seq<char>, IndexedFile>::empty(),
    {
        let files: StringTable<IndexedFile> = StringTable::new();
        assert(files.deep_view() =~= Map::<Seq<char>, FileModel>::empty());
        ReferenceSymbolIndex {
            version: INDEX_VERSION,
            unity_version: None,
            branch: None,
            generated_at_epoch_ms: 0,
            files,
        }
    }
}

} // verus!
