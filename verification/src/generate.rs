//! The entry point: from what was found in a folder to the description of
//! the generated interface, or to the one error that stops generation.

use vstd::prelude::*;
use vstd::pervasive::unreached;
use crate::api::{case_tags, Api, ApiView};
use crate::document::{Document, TableView};
use crate::emit::{cases_of, complete, emit_methods, language_cases, methods_from};
use crate::emit::{lemma_case_names_differ, lemma_emission_succeeds, lemma_methods_complete};
use crate::casing::{case_text, CaseStyle};
use crate::lang::{answering, answering_from, lemma_answering_found};
use crate::lang::{lemma_same_name_same_language, normalized, Lang};
use crate::order::{ascending, before, lemma_ascending_unique, lemma_before_irreflexive};
use crate::order::{lemma_before_total, lemma_position_found, position, texts};
use crate::text::same_ignoring_case;
use crate::schema::{derive_schema, nodes_of};
use crate::store::{ids_of, keeps, tags_of, valid_store, with_language};
use crate::store::{lemma_offer_entries, lemma_offer_is_kept, lemma_offer_keeps_others};
use crate::store::{DocumentStore, StoreEntry, StoreView};
use crate::unify::{conforms, lemma_unified_conforms, unify, unify_outcome};
use crate::unify::{Fault, UnifyError, UnifyErrorView};

verus! {

/// One file found in the folder.
#[derive(Debug, PartialEq, Eq)]
pub struct SourceFile {
    /// The name of the file without its extension: the tag of a language.
    pub stem: String,
    /// What the file holds, or `None` if that is no document.
    pub document: Option<Document>,
}

/// What was found where the documents should be.
#[derive(Debug, PartialEq, Eq)]
pub enum Folder {
    /// There is no such folder.
    Missing,
    /// The document files of the folder, in the order in which they were
    /// found. A folder holds no two files of one name, so no two of them
    /// have the same stem.
    Found(Vec<SourceFile>),
}

/// Why nothing was generated.
#[derive(Debug, PartialEq, Eq)]
pub enum DeriveError {
    /// The configured folder does not exist.
    FolderNotFound,
    /// The folder holds no documents.
    NoDocumentsFound,
    /// The stem of a file is empty or all white space.
    EmptyIdentifier { stem: String },
    /// A language has no variant or selector form that can be used as a
    /// symbol, or shares one with a language that comes before it.
    InvalidIdentifier { lang: String },
    /// The configured fallback names none of the languages.
    UnknownFallback { name: String },
    /// A language lacks a key that the reference has at `path`.
    MissingKey { lang: String, path: Vec<String> },
    /// A language holds, at `path`, a value of another kind than the
    /// reference.
    KindMismatch { lang: String, path: Vec<String> },
    /// A file holds no document.
    MalformedDocument { stem: String },
}

/// The mathematical model of a [`SourceFile`].
pub struct SourceFileView {
    pub stem: Seq<char>,
    pub document: Option<TableView>,
}

/// The mathematical model of a [`DeriveError`].
pub enum DeriveErrorView {
    FolderNotFound,
    NoDocumentsFound,
    EmptyIdentifier { stem: Seq<char> },
    InvalidIdentifier { lang: Seq<char> },
    UnknownFallback { name: Seq<char> },
    MissingKey { lang: Seq<char>, path: Seq<Seq<char>> },
    KindMismatch { lang: Seq<char>, path: Seq<Seq<char>> },
    MalformedDocument { stem: Seq<char> },
}

impl SourceFile {
    /// The model of the file.
    pub open spec fn view(&self) -> SourceFileView {
        SourceFileView {
            stem: self.stem@,
            document: match self.document {
                Some(d) => Some(d@),
                None => None,
            },
        }
    }
}

impl DeriveError {
    /// The model of the error.
    pub open spec fn view(&self) -> DeriveErrorView {
        match self {
            DeriveError::FolderNotFound => DeriveErrorView::FolderNotFound,
            DeriveError::NoDocumentsFound => DeriveErrorView::NoDocumentsFound,
            DeriveError::EmptyIdentifier { stem } => DeriveErrorView::EmptyIdentifier {
                stem: stem@,
            },
            DeriveError::InvalidIdentifier { lang } => DeriveErrorView::InvalidIdentifier {
                lang: lang@,
            },
            DeriveError::UnknownFallback { name } => DeriveErrorView::UnknownFallback {
                name: name@,
            },
            DeriveError::MissingKey { lang, path } => DeriveErrorView::MissingKey {
                lang: lang@,
                path: texts(path@),
            },
            DeriveError::KindMismatch { lang, path } => DeriveErrorView::KindMismatch {
                lang: lang@,
                path: texts(path@),
            },
            DeriveError::MalformedDocument { stem } => DeriveErrorView::MalformedDocument {
                stem: stem@,
            },
        }
    }
}

/// The models of a sequence of files.
pub open spec fn file_views(files: Seq<SourceFile>) -> Seq<SourceFileView> {
    Seq::new(files.len(), |i: int| files[i]@)
}

/// The text of an optional string.
pub open spec fn text_of(name: Option<&str>) -> Option<Seq<char>> {
    match name {
        Some(n) => Some(n@),
        None => None,
    }
}

/// The stems of the files, in order.
pub open spec fn stems_of(files: Seq<SourceFileView>) -> Seq<Seq<char>> {
    Seq::new(files.len(), |i: int| files[i].stem)
}

/// The error of the first file, at index `i` or later, whose stem is
/// blank.
pub open spec fn blank_fault(files: Seq<SourceFileView>, i: int) -> Option<DeriveErrorView>
    decreases files.len() - i,
{
    if i < 0 || i >= files.len() {
        None
    } else if normalized(files[i].stem).len() == 0 {
        Some(DeriveErrorView::EmptyIdentifier { stem: files[i].stem })
    } else {
        blank_fault(files, i + 1)
    }
}

/// The error of the first file, at index `i` or later, that cannot be
/// loaded: its stem is blank, or it holds no document.
pub open spec fn loading_fault(files: Seq<SourceFileView>, i: int) -> Option<DeriveErrorView>
    decreases files.len() - i,
{
    if i < 0 || i >= files.len() {
        None
    } else if normalized(files[i].stem).len() == 0 {
        Some(DeriveErrorView::EmptyIdentifier { stem: files[i].stem })
    } else if files[i].document is None {
        Some(DeriveErrorView::MalformedDocument { stem: files[i].stem })
    } else {
        loading_fault(files, i + 1)
    }
}

/// The store that the first `n` files fill, offered one after the other.
/// This is meant for files that all hold a document.
pub open spec fn store_of(files: Seq<SourceFileView>, n: int) -> StoreView
    decreases n,
{
    if n <= 0 {
        Seq::empty()
    } else {
        with_language(
            store_of(files, n - 1),
            files[n - 1].stem,
            normalized(files[n - 1].stem),
            files[n - 1].document->0,
        )
    }
}

/// The index of the reference language: the language whose identifier is
/// the normalized form of the fallback, or without a fallback the first
/// language of the store.
pub open spec fn reference_of(s: StoreView, fallback: Option<Seq<char>>) -> Option<int> {
    match fallback {
        Some(f) => position(ids_of(s), normalized(f)),
        None => if s.len() > 0 {
            Some(0)
        } else {
            None
        },
    }
}

/// A divergence, as the error that reports it.
pub open spec fn report(e: UnifyErrorView) -> DeriveErrorView {
    match e.fault {
        Fault::MissingKey => DeriveErrorView::MissingKey { lang: e.lang, path: e.path },
        Fault::KindMismatch => DeriveErrorView::KindMismatch { lang: e.lang, path: e.path },
    }
}

/// What generation gives for a store and an optional fallback.
///
/// The reference is found first, then every language is named, then every
/// document is held against the reference, and only then is the interface
/// described. The first of these steps that fails decides the error. Once
/// every document conforms, describing the interface cannot fail: the
/// methods are there, as `lemma_emission_succeeds` shows.
pub open spec fn generated(s: StoreView, fallback: Option<Seq<char>>) -> Result<
    ApiView,
    DeriveErrorView,
> {
    match reference_of(s, fallback) {
        None => match fallback {
            Some(name) => Err(DeriveErrorView::UnknownFallback { name }),
            None => Err(DeriveErrorView::NoDocumentsFound),
        },
        Some(r) => match cases_of(s) {
            Err(l) => Err(DeriveErrorView::InvalidIdentifier { lang: s[l].tag }),
            Ok(cases) => match unify_outcome(s, s[r].document) {
                Some(e) => Err(report(e)),
                None => Ok(
                    ApiView {
                        cases,
                        default_case: if fallback is Some {
                            Some(r)
                        } else {
                            None
                        },
                        methods: methods_from(
                            nodes_of(s[r].document, None, 0),
                            0,
                            Seq::empty(),
                            s,
                        )->0,
                    },
                ),
            },
        },
    }
}

/// What the entry point gives for what was found in the folder (`None`
/// for a folder that does not exist) and an optional fallback.
///
/// The stems are looked at first, then the fallback is held against them,
/// and only then are the documents looked at: a fallback that no stem
/// answers to is reported before any fault of a document.
pub open spec fn derive_outcome(
    folder: Option<Seq<SourceFileView>>,
    fallback: Option<Seq<char>>,
) -> Result<ApiView, DeriveErrorView> {
    match folder {
        None => Err(DeriveErrorView::FolderNotFound),
        Some(files) => match blank_fault(files, 0) {
            Some(e) => Err(e),
            None => if files.len() == 0 {
                Err(DeriveErrorView::NoDocumentsFound)
            } else if fallback is Some && answering(stems_of(files), fallback->0) is None {
                Err(DeriveErrorView::UnknownFallback { name: fallback->0 })
            } else {
                match loading_fault(files, 0) {
                    Some(e) => Err(e),
                    None => generated(store_of(files, files.len() as int), fallback),
                }
            },
        },
    }
}

/// The entry of the store that a file gives.
pub open spec fn entry_of(file: SourceFileView) -> StoreEntry {
    StoreEntry { tag: file.stem, id: normalized(file.stem), document: file.document->0 }
}

/// No two of the files have the same stem, as in any folder.
pub open spec fn stems_differ(files: Seq<SourceFileView>) -> bool {
    forall|i: int, j: int|
        0 <= i < j < files.len() ==> (#[trigger] files[i]).stem != (#[trigger] files[j]).stem
}

/// Every file can be loaded: its stem is not blank and it holds a document.
pub open spec fn all_loadable(files: Seq<SourceFileView>) -> bool {
    forall|i: int|
        0 <= i < files.len() ==> normalized((#[trigger] files[i]).stem).len() > 0
            && files[i].document is Some
}

/// `e` is the entry that one of the files gives.
pub open spec fn offered(e: StoreEntry, files: Seq<SourceFileView>, n: int) -> bool {
    exists|i: int| 0 <= i < n && e == entry_of(#[trigger] files[i])
}

/// The store holds the language of `stem`, under a tag that does not come
/// after `stem`.
pub open spec fn holds_for(s: StoreView, stem: Seq<char>) -> bool {
    keeps(s, normalized(stem), stem)
}

proof fn lemma_loading_fault_none(files: Seq<SourceFileView>, i: int)
    requires
        0 <= i,
    ensures
        loading_fault(files, i) is None <==> forall|j: int|
            i <= j < files.len() ==> normalized((#[trigger] files[j]).stem).len() > 0
                && files[j].document is Some,
        blank_fault(files, i) is None <==> forall|j: int|
            i <= j < files.len() ==> normalized((#[trigger] files[j]).stem).len() > 0,
        loading_fault(files, i) matches Some(e) ==> e is EmptyIdentifier || e is MalformedDocument,
        blank_fault(files, i) matches Some(e) ==> e is EmptyIdentifier,
    decreases files.len() - i,
{
    if i < files.len() {
        lemma_loading_fault_none(files, i + 1);
        if loading_fault(files, i) is None {
            assert forall|j: int| i <= j < files.len() implies normalized(
                (#[trigger] files[j]).stem,
            ).len() > 0 && files[j].document is Some by {
                if j > i {
                }
            }
        } else {
            if normalized(files[i].stem).len() > 0 && files[i].document is Some {
                assert(loading_fault(files, i + 1) is Some);
            }
        }
        if blank_fault(files, i) is None {
            assert forall|j: int| i <= j < files.len() implies normalized(
                (#[trigger] files[j]).stem,
            ).len() > 0 by {
                if j > i {
                }
            }
        } else {
            if normalized(files[i].stem).len() > 0 {
                assert(blank_fault(files, i + 1) is Some);
            }
        }
    }
}

/// The store that the first `n` files fill has its identifiers in
/// ascending order; every entry of it is the entry that one of the files
/// gives; and for every file it holds the language of the file, under a
/// tag that does not come after the stem of the file.
pub proof fn lemma_store_holds_the_files(files: Seq<SourceFileView>, n: int)
    requires
        0 <= n <= files.len(),
    ensures
        ascending(ids_of(store_of(files, n))),
        forall|k: int|
            0 <= k < store_of(files, n).len() ==> offered(
                #[trigger] store_of(files, n)[k],
                files,
                n,
            ),
        forall|i: int| 0 <= i < n ==> holds_for(store_of(files, n), (#[trigger] files[i]).stem),
    decreases n,
{
    let s = store_of(files, n);
    if n == 0 {
        assert(ids_of(s) =~= Seq::<Seq<char>>::empty());
    } else {
        let old = store_of(files, n - 1);
        lemma_store_holds_the_files(files, n - 1);
        let file = files[n - 1];
        let id = normalized(file.stem);
        let document = file.document->0;
        lemma_offer_entries(old, file.stem, id, document);
        lemma_offer_is_kept(old, file.stem, id, document);
        assert forall|k: int| 0 <= k < s.len() implies offered(#[trigger] s[k], files, n) by {
            if s[k] == entry_of(file) {
                assert(s[k] == entry_of(files[n - 1]));
            } else {
                let ok = choose|ok: int| 0 <= ok < old.len() && old[ok] == s[k];
                assert(offered(old[ok], files, n - 1));
                let i = choose|i: int| 0 <= i < n - 1 && old[ok] == entry_of(#[trigger] files[i]);
                assert(s[k] == entry_of(files[i]));
            }
        }
        assert forall|i: int| 0 <= i < n implies holds_for(s, (#[trigger] files[i]).stem) by {
            if i < n - 1 {
                assert(holds_for(old, files[i].stem));
                lemma_offer_keeps_others(
                    old,
                    file.stem,
                    id,
                    document,
                    normalized(files[i].stem),
                    files[i].stem,
                );
            }
        }
    }
}

/// Two stores that hold the same entries, each in ascending order of the
/// identifiers, are the same store.
pub proof fn lemma_store_is_determined(a: StoreView, b: StoreView)
    requires
        ascending(ids_of(a)),
        ascending(ids_of(b)),
        forall|e: StoreEntry| a.contains(e) <==> b.contains(e),
    ensures
        a == b,
{
    let ia = ids_of(a);
    let ib = ids_of(b);
    assert forall|x: Seq<char>| ia.contains(x) <==> ib.contains(x) by {
        if ia.contains(x) {
            let k = choose|k: int| 0 <= k < ia.len() && ia[k] == x;
            assert(a.contains(a[k]));
            let m = choose|m: int| 0 <= m < b.len() && b[m] == a[k];
            assert(ib[m] == x);
        }
        if ib.contains(x) {
            let k = choose|k: int| 0 <= k < ib.len() && ib[k] == x;
            assert(b.contains(b[k]));
            let m = choose|m: int| 0 <= m < a.len() && a[m] == b[k];
            assert(ia[m] == x);
        }
    }
    lemma_ascending_unique(ia, ib);
    assert(a.len() == ia.len() && b.len() == ib.len());
    assert forall|k: int| 0 <= k < a.len() implies a[k] == b[k] by {
        assert(a.contains(a[k]));
        let m = choose|m: int| 0 <= m < b.len() && b[m] == a[k];
        assert(ib[m] == ia[k]);
        assert(ia[k] == ib[k]);
        if m < k {
            assert(before(ib[m], ib[k]));
            lemma_before_irreflexive(ib[k]);
        }
        if k < m {
            assert(before(ib[k], ib[m]));
            lemma_before_irreflexive(ib[k]);
        }
    }
    assert(a =~= b);
}

/// Of two stores filled from the same files, what one holds the other
/// holds too.
proof fn lemma_entry_shared(a: StoreView, b: StoreView, files: Seq<SourceFileView>, e: StoreEntry)
    requires
        stems_differ(files),
        ascending(ids_of(a)),
        forall|k: int| 0 <= k < a.len() ==> offered(#[trigger] a[k], files, files.len() as int),
        forall|k: int| 0 <= k < b.len() ==> offered(#[trigger] b[k], files, files.len() as int),
        forall|i: int| 0 <= i < files.len() ==> holds_for(a, (#[trigger] files[i]).stem),
        forall|i: int| 0 <= i < files.len() ==> holds_for(b, (#[trigger] files[i]).stem),
        a.contains(e),
    ensures
        b.contains(e),
{
    let n = files.len() as int;
    let k = choose|k: int| 0 <= k < a.len() && a[k] == e;
    assert(offered(a[k], files, n));
    let i = choose|i: int| 0 <= i < n && a[k] == entry_of(#[trigger] files[i]);
    let stem = files[i].stem;
    assert(holds_for(b, stem));
    let m = choose|m: int|
        0 <= m < b.len() && (#[trigger] b[m]).id == normalized(stem) && !before(stem, b[m].tag);
    assert(offered(b[m], files, n));
    let j = choose|j: int| 0 <= j < n && b[m] == entry_of(#[trigger] files[j]);
    assert(holds_for(a, files[j].stem));
    let k2 = choose|k2: int|
        0 <= k2 < a.len() && (#[trigger] a[k2]).id == normalized(files[j].stem) && !before(
            files[j].stem,
            a[k2].tag,
        );
    let ia = ids_of(a);
    assert(ia[k] == a[k].id && ia[k2] == a[k2].id);
    if k2 != k {
        lemma_before_irreflexive(ia[k]);
    }
    if files[j].stem != stem {
        lemma_before_total(files[j].stem, stem);
    }
    assert(i == j);
    assert(b[m] == e);
}

/// Two listings of the same files are loadable together, and a name
/// answers to a stem of the one exactly when it does to a stem of the other.
proof fn lemma_same_files(
    files: Seq<SourceFileView>,
    other: Seq<SourceFileView>,
    name: Seq<char>,
)
    requires
        all_loadable(files),
        forall|f: SourceFileView| files.contains(f) <==> other.contains(f),
    ensures
        all_loadable(other),
        files.len() == 0 <==> other.len() == 0,
        answering(stems_of(files), name) is Some <==> answering(stems_of(other), name) is Some,
{
    assert forall|i: int| 0 <= i < other.len() implies normalized(
        (#[trigger] other[i]).stem,
    ).len() > 0 && other[i].document is Some by {
        assert(other.contains(other[i]));
        let j = choose|j: int| 0 <= j < files.len() && files[j] == other[i];
        assert(normalized(files[j].stem).len() > 0);
    }
    if files.len() == 0 {
        if other.len() > 0 {
            assert(other.contains(other[0]));
        }
    } else {
        assert(files.contains(files[0]));
    }
    let sa = stems_of(files);
    let sb = stems_of(other);
    lemma_answering_found(sa, name, 0);
    lemma_answering_found(sb, name, 0);
    if answering(sa, name) is Some {
        let i = answering(sa, name)->0;
        assert(files.contains(files[i]));
        let j = choose|j: int| 0 <= j < other.len() && other[j] == files[i];
        assert(sb[j] == sa[i]);
    }
    if answering(sb, name) is Some {
        let j = answering(sb, name)->0;
        assert(other.contains(other[j]));
        let i = choose|i: int| 0 <= i < files.len() && files[i] == other[j];
        assert(sa[i] == sb[j]);
    }
}

/// Two listings of the same files fill the same store.
proof fn lemma_same_files_same_store(files: Seq<SourceFileView>, other: Seq<SourceFileView>)
    requires
        stems_differ(files),
        forall|f: SourceFileView| files.contains(f) <==> other.contains(f),
    ensures
        store_of(files, files.len() as int) == store_of(other, other.len() as int),
{
    let n = files.len() as int;
    let a = store_of(files, n);
    let b = store_of(other, other.len() as int);
    lemma_store_holds_the_files(files, n);
    lemma_store_holds_the_files(other, other.len() as int);
    assert forall|k: int| 0 <= k < b.len() implies offered(#[trigger] b[k], files, n) by {
        assert(offered(b[k], other, other.len() as int));
        let j = choose|j: int| 0 <= j < other.len() && b[k] == entry_of(#[trigger] other[j]);
        assert(other.contains(other[j]));
        let i = choose|i: int| 0 <= i < files.len() && files[i] == other[j];
        assert(b[k] == entry_of(files[i]));
    }
    assert forall|i: int| 0 <= i < files.len() implies holds_for(
        b,
        (#[trigger] files[i]).stem,
    ) by {
        assert(files.contains(files[i]));
        let j = choose|j: int| 0 <= j < other.len() && other[j] == files[i];
        assert(holds_for(b, other[j].stem));
    }
    assert forall|e: StoreEntry| a.contains(e) <==> b.contains(e) by {
        if a.contains(e) {
            lemma_entry_shared(a, b, files, e);
        }
        if b.contains(e) {
            lemma_entry_shared(b, a, files, e);
        }
    }
    lemma_store_is_determined(a, b);
}

/// What is generated does not depend on the order in which the files were
/// found: two listings of the same loadable files give the same store and
/// the same result, also where several files stand for one language.
pub proof fn lemma_order_of_discovery_is_irrelevant(
    files: Seq<SourceFileView>,
    other: Seq<SourceFileView>,
    fallback: Option<Seq<char>>,
)
    requires
        stems_differ(files),
        all_loadable(files),
        forall|f: SourceFileView| files.contains(f) <==> other.contains(f),
    ensures
        store_of(files, files.len() as int) == store_of(other, other.len() as int),
        derive_outcome(Some(files), fallback) == derive_outcome(Some(other), fallback),
{
    lemma_same_files_same_store(files, other);
    lemma_same_files(files, other, if fallback is Some { fallback->0 } else { Seq::empty() });
    lemma_loading_fault_none(files, 0);
    lemma_loading_fault_none(other, 0);
}

/// A fallback that a stem answers to is never reported as unknown: once
/// the files are loaded, the language of that stem is the reference.
pub proof fn lemma_answered_fallback_is_known(files: Seq<SourceFileView>, name: Seq<char>)
    requires
        answering(stems_of(files), name) is Some,
    ensures
        !(derive_outcome(Some(files), Some(name)) matches Err(e) && e is UnknownFallback),
        blank_fault(files, 0) is None && loading_fault(files, 0) is None ==> reference_of(
            store_of(files, files.len() as int),
            Some(name),
        ) is Some,
{
    let n = files.len() as int;
    let stems = stems_of(files);
    lemma_answering_found(stems, name, 0);
    lemma_loading_fault_none(files, 0);
    let i = answering(stems, name)->0;
    assert(stems[i] == files[i].stem);
    if blank_fault(files, 0) is None && loading_fault(files, 0) is None {
        let s = store_of(files, n);
        lemma_store_holds_the_files(files, n);
        lemma_same_name_same_language(files[i].stem, name);
        assert(holds_for(s, files[i].stem));
        let k = choose|k: int|
            0 <= k < s.len() && (#[trigger] s[k]).id == normalized(files[i].stem) && !before(
                files[i].stem,
                s[k].tag,
            );
        assert(ids_of(s)[k] == normalized(name));
        lemma_position_found(ids_of(s), normalized(name));
    }
}

/// The model of a result of the entry point.
pub open spec fn result_view(r: Result<Api, DeriveError>) -> Result<ApiView, DeriveErrorView> {
    match r {
        Ok(api) => Ok(api@),
        Err(e) => Err(e@),
    }
}

/// The generated interface has a default language exactly when a fallback
/// was configured, and the default is the language of the fallback: its
/// case carries the variant and selector forms of the normalized fallback,
/// so that binding the root accessor to the default is binding it to that
/// language. Whenever parsing the fallback gives a language, it gives the
/// default.
pub proof fn lemma_fallback_is_named_language(s: StoreView, fallback: Option<Seq<char>>)
    requires
        valid_store(s),
        generated(s, fallback) is Ok,
    ensures
        ({
            let api = generated(s, fallback)->Ok_0;
            &&& api.default_case is Some <==> fallback is Some
            &&& fallback matches Some(name) ==> {
                &&& api.default_case matches Some(c)
                &&& 0 <= c < api.cases.len()
                &&& api.cases[c].variant == case_text(CaseStyle::Pascal, normalized(name))
                &&& api.cases[c].selector == case_text(CaseStyle::Snake, normalized(name))
                &&& answering(case_tags(api.cases), name) is Some ==> answering(
                    case_tags(api.cases),
                    name,
                ) == Some(c)
            }
        }),
{
    let api = generated(s, fallback)->Ok_0;
    lemma_case_names_differ(s);
    assert(case_tags(api.cases) =~= tags_of(s));
    if fallback is Some {
        let name = fallback->0;
        let ids = ids_of(s);
        lemma_position_found(ids, normalized(name));
        let c = position(ids, normalized(name))->0;
        assert(ids[c] == s[c].id);
        lemma_answering_found(tags_of(s), name, 0);
        if answering(tags_of(s), name) is Some {
            let d = answering(tags_of(s), name)->0;
            assert(tags_of(s)[d] == s[d].tag);
            lemma_same_name_same_language(s[d].tag, name);
            assert(ids[d] == s[d].id);
            if d != c {
                lemma_before_irreflexive(ids[c]);
            }
        }
    }
}

/// The generated interface serves every language: it has one case per
/// language of the store, and every leaf method, at any depth, holds one
/// template per case.
pub proof fn lemma_generated_interface_is_complete(s: StoreView, fallback: Option<Seq<char>>)
    requires
        valid_store(s),
        generated(s, fallback) is Ok,
    ensures
        ({
            let api = generated(s, fallback)->Ok_0;
            &&& api.cases.len() == s.len()
            &&& complete(api.methods, api.cases.len())
        }),
{
    let r = reference_of(s, fallback)->0;
    lemma_case_names_differ(s);
    if fallback is Some {
        lemma_position_found(ids_of(s), normalized(fallback->0));
    }
    let root = s[r].document;
    lemma_unified_conforms(s, root, 0);
    lemma_emission_succeeds(root, root, None, Seq::empty(), s, 0);
    lemma_methods_complete(nodes_of(root, None, 0), 0, Seq::empty(), s);
}

/// Generation is all or nothing: where some language does not conform to
/// the reference, no interface is described.
pub proof fn lemma_divergence_stops_generation(
    s: StoreView,
    fallback: Option<Seq<char>>,
    l: int,
)
    requires
        valid_store(s),
        0 <= l < s.len(),
        reference_of(s, fallback) matches Some(r) && !conforms(s[r].document, s[l].document),
    ensures
        generated(s, fallback) is Err,
{
    let r = reference_of(s, fallback)->0;
    if fallback is Some {
        lemma_position_found(ids_of(s), normalized(fallback->0));
    }
    if unify_outcome(s, s[r].document) is None {
        lemma_unified_conforms(s, s[r].document, 0);
    }
}

/// Generation is repeatable: what it gives depends on nothing but what
/// was found in the folder and the fallback, so that two runs on the same
/// input give the same names in the same order, or the same error.
pub proof fn lemma_generation_repeats(
    folder: Folder,
    fallback: Option<&str>,
    first: Result<Api, DeriveError>,
    second: Result<Api, DeriveError>,
)
    requires
        delivers(folder, fallback, first),
        delivers(folder, fallback, second),
    ensures
        result_view(first) == result_view(second),
{
}

/// What the entry point promises of its result `r`.
pub open spec fn delivers(
    folder: Folder,
    fallback: Option<&str>,
    r: Result<Api, DeriveError>,
) -> bool {
    result_view(r) == derive_outcome(folder_view(folder), text_of(fallback))
}

/// The model of what was found in the folder.
pub open spec fn folder_view(folder: Folder) -> Option<Seq<SourceFileView>> {
    match folder {
        Folder::Missing => None,
        Folder::Found(files) => Some(file_views(files@)),
    }
}

/// Describes the interface generated for the documents of `store`.
pub fn generate(store: &DocumentStore, fallback: Option<&str>) -> (r: Result<Api, DeriveError>)
    ensures
        result_view(r) == generated(store@, text_of(fallback)),
{
    let n = store.len();
    let reference: usize = match fallback {
        Some(name) => {
            let found = match Lang::new(name.to_owned()) {
                Ok(lang) => store.index_of(&lang),
                Err(_) => {
                    proof {
                        lemma_position_found(ids_of(store@), normalized(name@));
                    }
                    None
                },
            };
            match found {
                Some(i) => i,
                None => {
                    return Err(DeriveError::UnknownFallback { name: name.to_owned() });
                },
            }
        },
        None => {
            if n == 0 {
                return Err(DeriveError::NoDocumentsFound);
            }
            0
        },
    };
    let cases = match language_cases(store) {
        Ok(cases) => cases,
        Err(l) => {
            return Err(DeriveError::InvalidIdentifier { lang: store.language(l).inner() });
        },
    };
    let reference_document = store.document(reference);
    match unify(store, reference_document) {
        Err(e) => {
            let UnifyError { lang, path, fault } = e;
            return Err(
                match fault {
                    Fault::MissingKey => DeriveError::MissingKey { lang, path },
                    Fault::KindMismatch => DeriveError::KindMismatch { lang, path },
                },
            );
        },
        Ok(_) => {},
    }
    let schema = match derive_schema(store, reference) {
        Some(schema) => schema,
        None => unreached(),
    };
    let root_path: Vec<String> = Vec::new();
    proof {
        use_type_invariant(reference_document);
        reference_document.lemma_well_ordered();
        assert(texts(root_path@) =~= Seq::<Seq<char>>::empty());
        lemma_emission_succeeds(
            reference_document@,
            reference_document@,
            None,
            Seq::empty(),
            store@,
            0,
        );
    }
    match emit_methods(&schema.root.children, &root_path, store) {
        Some(methods) => Ok(
            Api {
                cases,
                default_case: if fallback.is_some() {
                    Some(reference)
                } else {
                    None
                },
                methods,
            },
        ),
        None => unreached(),
    }
}

/// Puts the files into a store, one after the other.
pub fn load(files: Vec<SourceFile>) -> (r: Result<DocumentStore, DeriveError>)
    ensures
        match r {
            Ok(store) => loading_fault(file_views(files@), 0) is None && store@ == store_of(
                file_views(files@),
                files@.len() as int,
            ),
            Err(e) => loading_fault(file_views(files@), 0) == Some(e@),
        },
{
    let ghost all = file_views(files@);
    let n = files.len();
    let mut rest = files;
    let mut store = DocumentStore::new();
    let mut i: usize = 0;
    assert(file_views(rest@) =~= all.subrange(0, n as int));
    while i < n
        invariant
            i <= n,
            n == all.len(),
            all == file_views(files@),
            rest.len() == n - i,
            file_views(rest@) == all.subrange(i as int, n as int),
            loading_fault(all, 0) == loading_fault(all, i as int),
            store@ == store_of(all, i as int),
        decreases n - i,
    {
        let ghost before = rest@;
        let file = rest.remove(0);
        proof {
            assert(file@ == file_views(before)[0]);
            assert forall|j: int| 0 <= j < rest@.len() implies file_views(rest@)[j] == all[i + 1
                + j] by {
                assert(rest@[j] == before[j + 1]);
                assert(file_views(before)[j + 1] == all.subrange(i as int, n as int)[j + 1]);
            }
            assert(file_views(rest@) =~= all.subrange(i + 1, n as int));
        }
        let SourceFile { stem, document } = file;
        let lang = match Lang::new(stem.clone()) {
            Ok(lang) => lang,
            Err(_) => {
                return Err(DeriveError::EmptyIdentifier { stem });
            },
        };
        match document {
            None => {
                return Err(DeriveError::MalformedDocument { stem });
            },
            Some(document) => {
                store.insert(lang, document);
            },
        }
        i += 1;
    }
    Ok(store)
}

/// The error of the first file whose stem is blank, if there is one.
pub fn find_blank(files: &Vec<SourceFile>) -> (r: Option<DeriveError>)
    ensures
        match r {
            Some(e) => blank_fault(file_views(files@), 0) == Some(e@),
            None => blank_fault(file_views(files@), 0) is None,
        },
{
    let ghost all = file_views(files@);
    let mut i: usize = 0;
    while i < files.len()
        invariant
            i <= files.len(),
            all == file_views(files@),
            blank_fault(all, 0) == blank_fault(all, i as int),
        decreases files.len() - i,
    {
        assert(all[i as int].stem == files[i as int].stem@);
        match Lang::new(files[i].stem.clone()) {
            Ok(_) => {},
            Err(_) => {
                return Some(DeriveError::EmptyIdentifier { stem: files[i].stem.clone() });
            },
        }
        i += 1;
    }
    None
}

/// Whether one of the stems answers to `name`: whether it equals `name`
/// up to the case of ASCII letters.
pub fn names_a_stem(files: &Vec<SourceFile>, name: &str) -> (r: bool)
    ensures
        r == answering(stems_of(file_views(files@)), name@) is Some,
{
    let ghost stems = stems_of(file_views(files@));
    let mut i: usize = 0;
    while i < files.len()
        invariant
            i <= files.len(),
            stems == stems_of(file_views(files@)),
            answering(stems, name@) == answering_from(stems, name@, i as int),
        decreases files.len() - i,
    {
        assert(stems[i as int] == files[i as int].stem@);
        if same_ignoring_case(files[i].stem.as_str(), name) {
            return true;
        }
        i += 1;
    }
    false
}

/// The entry point. Describes the interface generated for what was found
/// in the folder, with the language that `fallback` names as the reference
/// and the default, or reports the first thing that stands in the way.
pub fn try_derive_i18n(folder: Folder, fallback: Option<&str>) -> (r: Result<Api, DeriveError>)
    ensures
        delivers(folder, fallback, r),
{
    match folder {
        Folder::Missing => Err(DeriveError::FolderNotFound),
        Folder::Found(files) => {
            match find_blank(&files) {
                Some(e) => {
                    return Err(e);
                },
                None => {},
            }
            if files.len() == 0 {
                return Err(DeriveError::NoDocumentsFound);
            }
            match fallback {
                Some(name) => {
                    if !names_a_stem(&files, name) {
                        return Err(DeriveError::UnknownFallback { name: name.to_owned() });
                    }
                },
                None => {},
            }
            match load(files) {
                Err(e) => Err(e),
                Ok(store) => generate(&store, fallback),
            }
        },
    }
}

} // verus!
