//! The document store: the documents of all languages, by language.

use vstd::prelude::*;
use crate::document::{well_ordered, Document, TableView};
use crate::lang::{answering, answering_from, normalized, Lang};
use crate::order::{ascending, before, comes_before, find_position, find_slot};
use crate::order::{position, slot, texts};
use crate::order::{lemma_before_irreflexive, lemma_before_transitive};
use crate::order::lemma_insert_keeps_ascending;
use crate::order::{lemma_position_found, lemma_slot_splits};
use crate::text::same_text;

verus! {

/// Asking the store for a language that it does not hold.
#[derive(Clone, Copy, Debug, PartialEq, Eq, Structural)]
pub enum StoreError {
    UnknownLanguage,
}

/// The mathematical model of one entry of the store.
pub struct StoreEntry {
    /// The tag of the language, as it was given.
    pub tag: Seq<char>,
    /// The normalized form of the tag.
    pub id: Seq<char>,
    /// The document of the language.
    pub document: TableView,
}

/// The mathematical model of a [`DocumentStore`]: its entries in order.
pub type StoreView = Seq<StoreEntry>;

/// The normalized language identifiers of a store, in order.
pub open spec fn ids_of(s: StoreView) -> Seq<Seq<char>> {
    Seq::new(s.len(), |i: int| s[i].id)
}

/// What holds of the model of every store: the identifiers are in strictly
/// ascending order, each is the normalized form of its tag and not empty,
/// and every document is well ordered.
pub open spec fn valid_store(s: StoreView) -> bool {
    &&& ascending(ids_of(s))
    &&& forall|i: int|
        0 <= i < s.len() ==> (#[trigger] s[i]).id == normalized(s[i].tag) && s[i].id.len() > 0
            && well_ordered(s[i].document)
}

/// `s` after the language of the given tag and identifier was offered to
/// it with `document`.
///
/// A language that is new to the store goes where the identifiers stay
/// ascending. Of two offers for one language, the one whose tag comes first
/// takes the place, with its tag and its document; so what a store holds
/// does not depend on the order in which it was filled.
pub open spec fn with_language(
    s: StoreView,
    tag: Seq<char>,
    id: Seq<char>,
    document: TableView,
) -> StoreView {
    let p = slot(ids_of(s), id);
    if p < s.len() && s[p].id == id {
        if before(tag, s[p].tag) {
            s.update(p, StoreEntry { tag, id, document })
        } else {
            s
        }
    } else {
        s.insert(p, StoreEntry { tag, id, document })
    }
}

/// The tags of the languages of a store, in order.
pub open spec fn tags_of(s: StoreView) -> Seq<Seq<char>> {
    Seq::new(s.len(), |i: int| s[i].tag)
}

/// The document that `s` holds for the language of identifier `id`.
pub open spec fn document_of(s: StoreView, id: Seq<char>) -> Option<TableView> {
    match position(ids_of(s), id) {
        Some(i) => Some(s[i].document),
        None => None,
    }
}

/// Offering a document for a language makes the store hold, for that
/// language, the document of the offer whose tag comes first; it leaves
/// what the store holds for every other language as it was, and keeps the
/// identifiers ascending.
pub proof fn lemma_with_language(
    s: StoreView,
    tag: Seq<char>,
    id: Seq<char>,
    document: TableView,
    other: Seq<char>,
)
    requires
        ascending(ids_of(s)),
    ensures
        ascending(ids_of(with_language(s, tag, id, document))),
        document_of(with_language(s, tag, id, document), id) == match position(ids_of(s), id) {
            Some(k) => if before(tag, s[k].tag) {
                Some(document)
            } else {
                Some(s[k].document)
            },
            None => Some(document),
        },
        other != id ==> document_of(with_language(s, tag, id, document), other) == document_of(
            s,
            other,
        ),
{
    let ids = ids_of(s);
    let p = slot(ids, id);
    let r = with_language(s, tag, id, document);
    let after = ids_of(r);
    lemma_slot_splits(ids, id, 0);
    let stored = p < s.len() && s[p].id == id;
    if stored {
        assert(after =~= ids);
    } else {
        if p < s.len() {
            assert(ids[p] == s[p].id);
        }
        lemma_insert_keeps_ascending(ids, id);
        assert(after =~= ids.insert(p, id));
    }
    lemma_position_found(after, id);
    lemma_position_found(ids, id);
    assert(after[p] == id);
    if position(after, id)->0 != p {
        lemma_before_irreflexive(id);
    }
    if stored {
        assert(ids[p] == id);
        if position(ids, id)->0 != p {
            lemma_before_irreflexive(id);
        }
    } else if position(ids, id) is Some {
        let k = position(ids, id)->0;
        assert(after[if k < p { k } else { k + 1 }] == id);
        lemma_before_irreflexive(id);
    }
    if other != id {
        lemma_position_found(ids, other);
        lemma_position_found(after, other);
        match position(ids, other) {
            Some(i) => {
                let j = if stored || i < p { i } else { i + 1 };
                assert(r[j].document == s[i].document && after[j] == other);
                if position(after, other)->0 != j {
                    lemma_before_irreflexive(other);
                }
            },
            None => {
                if position(after, other) is Some {
                    let j = position(after, other)->0;
                    let i = if stored || j < p { j } else { j - 1 };
                    assert(ids[i] == other);
                }
            },
        }
    }
}

/// The store holds the language of identifier `id`, under a tag that does
/// not come after `tag`.
pub open spec fn keeps(s: StoreView, id: Seq<char>, tag: Seq<char>) -> bool {
    exists|k: int| 0 <= k < s.len() && (#[trigger] s[k]).id == id && !before(tag, s[k].tag)
}

/// After an offer the identifiers are still ascending, and every entry is
/// the one offered or one that was there before.
pub proof fn lemma_offer_entries(s: StoreView, tag: Seq<char>, id: Seq<char>, document: TableView)
    requires
        ascending(ids_of(s)),
    ensures
        ascending(ids_of(with_language(s, tag, id, document))),
        forall|k: int|
            0 <= k < with_language(s, tag, id, document).len() ==> (#[trigger] with_language(
                s,
                tag,
                id,
                document,
            )[k]) == (StoreEntry { tag, id, document }) || s.contains(
                with_language(s, tag, id, document)[k],
            ),
{
    let ids = ids_of(s);
    let p = slot(ids, id);
    let r = with_language(s, tag, id, document);
    lemma_slot_splits(ids, id, 0);
    let stored = p < s.len() && s[p].id == id;
    if stored {
        assert(ids_of(r) =~= ids);
    } else {
        if p < s.len() {
            assert(ids[p] == s[p].id);
        }
        lemma_insert_keeps_ascending(ids, id);
        assert(ids_of(r) =~= ids.insert(p, id));
    }
    assert forall|k: int| 0 <= k < r.len() implies (#[trigger] r[k]) == (StoreEntry {
        tag,
        id,
        document,
    }) || s.contains(r[k]) by {
        if r[k] != (StoreEntry { tag, id, document }) {
            let ok = if stored || k < p { k } else { k - 1 };
            assert(s[ok] == r[k]);
        }
    }
}

/// After an offer the store holds the language offered, under a tag that
/// does not come after the tag of the offer.
pub proof fn lemma_offer_is_kept(s: StoreView, tag: Seq<char>, id: Seq<char>, document: TableView)
    ensures
        keeps(with_language(s, tag, id, document), id, tag),
{
    let ids = ids_of(s);
    let p = slot(ids, id);
    let r = with_language(s, tag, id, document);
    lemma_slot_splits(ids, id, 0);
    lemma_before_irreflexive(tag);
    assert(r[p].id == id && !before(tag, r[p].tag));
}

/// What a store holds before an offer it holds after it, under a tag that
/// comes no later.
pub proof fn lemma_offer_keeps_others(
    s: StoreView,
    tag: Seq<char>,
    id: Seq<char>,
    document: TableView,
    other_id: Seq<char>,
    other_tag: Seq<char>,
)
    requires
        keeps(s, other_id, other_tag),
    ensures
        keeps(with_language(s, tag, id, document), other_id, other_tag),
{
    let ids = ids_of(s);
    let p = slot(ids, id);
    let r = with_language(s, tag, id, document);
    lemma_slot_splits(ids, id, 0);
    let k = choose|k: int|
        0 <= k < s.len() && (#[trigger] s[k]).id == other_id && !before(other_tag, s[k].tag);
    let stored = p < s.len() && s[p].id == id;
    let nk = if stored || k < p { k } else { k + 1 };
    if stored && k == p && before(tag, s[p].tag) && before(other_tag, tag) {
        lemma_before_transitive(other_tag, tag, s[p].tag);
    }
    assert(r[nk].id == other_id && !before(other_tag, r[nk].tag));
}

/// An ordered mapping from languages to their documents. The languages are
/// kept in ascending order of their normalized identifiers, and no two of
/// them have the same.
pub struct DocumentStore {
    ids: Vec<String>,
    langs: Vec<Lang>,
    docs: Vec<Document>,
}

impl DocumentStore {
    /// The model of the store: its entries in the order of the languages.
    pub closed spec fn view(&self) -> StoreView {
        Seq::new(
            self.ids.len() as nat,
            |i: int|
                StoreEntry { tag: self.langs[i].tag(), id: self.ids[i]@, document: self.docs[i]@ },
        )
    }

    #[verifier::type_invariant]
    spec fn well_formed(&self) -> bool {
        &&& self.ids.len() == self.langs.len()
        &&& self.ids.len() == self.docs.len()
        &&& forall|i: int|
            0 <= i < self.ids.len() ==> (#[trigger] self.langs[i])@ == self.ids[i]@
                && self.ids[i]@ == normalized(self.langs[i].tag()) && self.ids[i]@.len() > 0
        &&& forall|i: int| 0 <= i < self.docs.len() ==> (#[trigger] self.docs[i]).well_formed()
        &&& ascending(texts(self.ids@))
    }

    /// A store without languages.
    pub fn new() -> (s: DocumentStore)
        ensures
            s@ == Seq::<StoreEntry>::empty(),
    {
        let s = DocumentStore { ids: Vec::new(), langs: Vec::new(), docs: Vec::new() };
        assert(s@ =~= Seq::<StoreEntry>::empty());
        s
    }

    /// The number of languages. The store is valid: its languages are in
    /// strictly ascending order of their identifiers.
    pub fn len(&self) -> (n: usize)
        ensures
            n == self@.len(),
            valid_store(self@),
    {
        proof {
            use_type_invariant(self);
            assert(ids_of(self@) =~= texts(self.ids@));
            assert forall|i: int| 0 <= i < self@.len() implies (#[trigger] self@[i]).id
                == normalized(self@[i].tag) && self@[i].id.len() > 0 && well_ordered(
                self@[i].document,
            ) by {
                assert(self.langs[i]@ == self.ids[i]@);
                self.docs[i].lemma_well_ordered();
            }
        }
        self.ids.len()
    }

    /// The language at index `i`.
    pub fn language(&self, i: usize) -> (l: &Lang)
        requires
            i < self@.len(),
        ensures
            l.tag() == self@[i as int].tag,
            l@ == self@[i as int].id,
    {
        proof {
            use_type_invariant(self);
        }
        &self.langs[i]
    }

    /// The document of the language at index `i`.
    pub fn document(&self, i: usize) -> (d: &Document)
        requires
            i < self@.len(),
        ensures
            d@ == self@[i as int].document,
    {
        proof {
            use_type_invariant(self);
        }
        &self.docs[i]
    }

    /// The languages of the store, in order.
    pub fn languages(&self) -> (r: Vec<Lang>)
        ensures
            r.len() == self@.len(),
            forall|i: int|
                0 <= i < r.len() ==> (#[trigger] r[i]).tag() == self@[i].tag && r[i]@
                    == self@[i].id,
    {
        proof {
            use_type_invariant(self);
        }
        let mut r: Vec<Lang> = Vec::new();
        let mut i: usize = 0;
        while i < self.langs.len()
            invariant
                i <= self.langs.len(),
                self.langs.len() == self.ids.len(),
                r.len() == i,
                forall|j: int| 0 <= j < i ==> (#[trigger] r[j]) == self.langs[j],
                forall|j: int|
                    0 <= j < self.ids.len() ==> (#[trigger] self.langs[j])@ == self.ids[j]@,
            decreases self.langs.len() - i,
        {
            r.push(self.langs[i].clone());
            i += 1;
        }
        r
    }

    /// The index of `lang` in the store, if the store holds it.
    pub fn index_of(&self, lang: &Lang) -> (r: Option<usize>)
        ensures
            match r {
                Some(i) => position(ids_of(self@), lang@) == Some(i as int) && i < self@.len(),
                None => position(ids_of(self@), lang@) is None,
            },
    {
        proof {
            use_type_invariant(self);
            assert(ids_of(self@) =~= texts(self.ids@));
        }
        find_position(&self.ids, lang.id())
    }

    /// The document of `lang`. Fails with `UnknownLanguage` exactly when
    /// the store does not hold `lang`.
    pub fn get(&self, lang: &Lang) -> (r: Result<&Document, StoreError>)
        ensures
            match r {
                Ok(d) => document_of(self@, lang@) == Some(d@),
                Err(e) => e == StoreError::UnknownLanguage && document_of(self@, lang@) is None,
            },
    {
        match self.index_of(lang) {
            Some(i) => Ok(self.document(i)),
            None => Err(StoreError::UnknownLanguage),
        }
    }

    /// The index of the language that `text` names, if there is one.
    pub fn find(&self, text: &str) -> (r: Option<usize>)
        ensures
            match r {
                Some(i) => answering(tags_of(self@), text@) == Some(i as int) && i < self@.len(),
                None => answering(tags_of(self@), text@) is None,
            },
    {
        proof {
            use_type_invariant(self);
        }
        let mut i: usize = 0;
        while i < self.langs.len()
            invariant
                i <= self.langs.len(),
                self.langs.len() == self.ids.len(),
                answering(tags_of(self@), text@) == answering_from(
                    tags_of(self@),
                    text@,
                    i as int,
                ),
            decreases self.langs.len() - i,
        {
            if self.langs[i].answers_to(text) {
                return Some(i);
            }
            i += 1;
        }
        None
    }

    /// Offers `document` for `lang`. Where the store already holds the
    /// language, the offer whose tag comes first takes the place, with its
    /// tag and its document.
    pub fn insert(&mut self, lang: Lang, document: Document)
        ensures
            final(self)@ == with_language(old(self)@, lang.tag(), lang@, document@),
    {
        let ghost before_view = self@;
        let mut taken = DocumentStore::new();
        std::mem::swap(self, &mut taken);
        proof {
            use_type_invariant(&taken);
            use_type_invariant(&document);
        }
        let DocumentStore { mut ids, mut langs, mut docs } = taken;
        let ghost before_ids = texts(ids@);
        assert(ids_of(before_view) =~= before_ids);
        let id: String = lang.id().to_owned();
        let p = find_slot(&ids, id.as_str());
        if p < ids.len() && same_text(ids[p].as_str(), id.as_str()) {
            if comes_before(lang.inner().as_str(), langs[p].inner().as_str()) {
                langs.set(p, lang);
                docs.set(p, document);
            }
        } else {
            proof {
                lemma_insert_keeps_ascending(before_ids, id@);
            }
            ids.insert(p, id);
            langs.insert(p, lang);
            docs.insert(p, document);
            assert(texts(ids@) =~= before_ids.insert(p as int, id@));
        }
        *self = DocumentStore { ids, langs, docs };
        assert(self@ =~= with_language(before_view, lang.tag(), lang@, document@));
    }
}

} // verus!
