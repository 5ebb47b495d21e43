//! The documents that an editor has open.

use vstd::prelude::*;

use crate::text;

verus! {

/// The latest contents of a document in an editor. The client assigns the version, which changes
/// only when the contents do and is reported back with diagnostics. The server assigns the
/// generation, which increases every time a snapshot is stored, including rechecks of unchanged
/// contents after a save, so it identifies which snapshot stale work was computed from.
#[derive(Clone, Debug)]
pub struct OpenDocument {
    pub uri: String,
    pub contents: String,
    pub version: i32,
    pub generation: u64,
}

/// The contents of an open document.
pub struct DocumentView {
    pub uri: Seq<char>,
    pub contents: Seq<char>,
    pub version: i32,
    pub generation: u64,
}

impl View for OpenDocument {
    type V = DocumentView;

    open spec fn view(&self) -> DocumentView {
        DocumentView {
            uri: self.uri@,
            contents: self.contents@,
            version: self.version,
            generation: self.generation,
        }
    }
}

/// The documents that an editor has open.
#[derive(Clone, Debug)]
pub struct OpenDocuments {
    pub documents: Vec<OpenDocument>,
}

impl View for OpenDocuments {
    type V = Seq<DocumentView>;

    open spec fn view(&self) -> Seq<DocumentView> {
        self.documents@.map_values(|document: OpenDocument| document@)
    }
}

/// Whether no two documents have the same URI.
pub open spec fn uris_distinct(documents: Seq<DocumentView>) -> bool {
    forall|i: int, j: int|
        #![trigger documents[i], documents[j]]
        0 <= i < j < documents.len() ==> documents[i].uri != documents[j].uri
}

/// The index of the first document with a URI, if there is one.
pub open spec fn position_of(documents: Seq<DocumentView>, uri: Seq<char>) -> Option<int>
    decreases documents.len(),
{
    if documents.len() == 0 {
        None
    } else {
        match position_of(documents.drop_last(), uri) {
            Some(i) => Some(i),
            None => if documents.last().uri == uri {
                Some(documents.len() - 1)
            } else {
                None
            },
        }
    }
}

proof fn lemma_position_of(documents: Seq<DocumentView>, uri: Seq<char>)
    ensures
        match position_of(documents, uri) {
            Some(i) => {
                &&& 0 <= i < documents.len()
                &&& documents[i].uri == uri
                &&& forall|j: int| 0 <= j < i ==> #[trigger] documents[j].uri != uri
            },
            None => forall|j: int| 0 <= j < documents.len() ==> #[trigger] documents[j].uri != uri,
        },
    decreases documents.len(),
{
    if documents.len() > 0 {
        let front = documents.drop_last();
        lemma_position_of(front, uri);
        assert(forall|j: int| 0 <= j < front.len() ==> front[j] == #[trigger] documents[j]);
        assert(documents[documents.len() - 1] == documents.last());
        match position_of(front, uri) {
            Some(i) => {
                assert forall|j: int| 0 <= j < i implies #[trigger] documents[j].uri != uri by {
                    assert(front[j] == documents[j]);
                }
            },
            None => {
                assert forall|j: int| 0 <= j < documents.len() - 1 implies
                    #[trigger] documents[j].uri != uri by {
                    assert(front[j] == documents[j]);
                }
            },
        }
    }
}

/// The document with a URI, if it is open.
pub open spec fn lookup(documents: Seq<DocumentView>, uri: Seq<char>) -> Option<DocumentView> {
    match position_of(documents, uri) {
        Some(i) => Some(documents[i]),
        None => None,
    }
}

/// The generation that the next snapshot of a document gets.
pub open spec fn next_generation(documents: Seq<DocumentView>, uri: Seq<char>) -> int {
    match lookup(documents, uri) {
        Some(document) => document.generation + 1,
        None => 1,
    }
}

/// The documents after a snapshot of one of them has been stored.
pub open spec fn stored(
    documents: Seq<DocumentView>,
    uri: Seq<char>,
    contents: Seq<char>,
    version: i32,
) -> Seq<DocumentView> {
    let document = DocumentView {
        uri,
        contents,
        version,
        generation: next_generation(documents, uri) as u64,
    };
    match position_of(documents, uri) {
        Some(i) => documents.update(i, document),
        None => documents.push(document),
    }
}

/// The documents after one of them has been closed.
pub open spec fn closed(documents: Seq<DocumentView>, uri: Seq<char>) -> Seq<DocumentView> {
    match position_of(documents, uri) {
        Some(i) => documents.remove(i),
        None => documents,
    }
}

/// Whether a generation is the latest one of a document.
pub open spec fn is_current(documents: Seq<DocumentView>, uri: Seq<char>, generation: u64) -> bool {
    lookup(documents, uri) matches Some(document) && document.generation == generation
}

/// The documents after the contents of one of them have been replaced.
pub open spec fn with_contents(
    documents: Seq<DocumentView>,
    uri: Seq<char>,
    contents: Seq<char>,
) -> Seq<DocumentView> {
    match position_of(documents, uri) {
        Some(i) => documents.update(i, DocumentView { contents, ..documents[i] }),
        None => documents,
    }
}

/// The documents whose URIs are not in a list.
pub open spec fn unchanged(documents: Seq<DocumentView>, changed: Seq<Seq<char>>) -> Seq<
    DocumentView,
>
    decreases documents.len(),
{
    if documents.len() == 0 {
        Seq::empty()
    } else {
        let front = unchanged(documents.drop_last(), changed);
        if changed.contains(documents.last().uri) {
            front
        } else {
            front.push(documents.last())
        }
    }
}

/// After a snapshot is stored, looking the document up gives the snapshot, every other document is
/// what it was, and URIs stay distinct.
pub proof fn law_store_then_lookup(
    documents: Seq<DocumentView>,
    uri: Seq<char>,
    contents: Seq<char>,
    version: i32,
    other: Seq<char>,
)
    requires
        uris_distinct(documents),
    ensures
        uris_distinct(stored(documents, uri, contents, version)),
        lookup(stored(documents, uri, contents, version), uri) == Some(
            DocumentView {
                uri,
                contents,
                version,
                generation: next_generation(documents, uri) as u64,
            },
        ),
        other != uri ==> lookup(stored(documents, uri, contents, version), other) == lookup(
            documents,
            other,
        ),
{
    let after = stored(documents, uri, contents, version);
    lemma_position_of(documents, uri);
    lemma_position_of(after, uri);
    lemma_position_of(documents, other);
    lemma_position_of(after, other);
    let at = match position_of(documents, uri) {
        Some(i) => i,
        None => documents.len() as int,
    };
    assert(after[at].uri == uri);
    assert(forall|j: int| 0 <= j < documents.len() && j != at ==> after[j] == #[trigger] documents[j]);
    assert forall|i: int, j: int|
        #![trigger after[i], after[j]]
        0 <= i < j < after.len() implies after[i].uri != after[j].uri by {
        if i != at {
            assert(after[i] == documents[i]);
        }
        if j != at {
            assert(after[j] == documents[j]);
        }
    }
    assert(position_of(after, uri) == Some(at)) by {
        let found = position_of(after, uri);
        assert(found is Some);
        let k = found->0;
        if k < at {
            assert(after[k].uri != after[at].uri);
        } else if at < k {
            assert(after[at].uri != uri);
        }
    }
    if other != uri {
        match position_of(documents, other) {
            Some(k) => {
                assert(k != at);
                assert(after[k] == documents[k]);
                let found = position_of(after, other);
                assert(found is Some);
                let m = found->0;
                if m != k {
                    assert(m != at);
                    assert(after[m] == documents[m]);
                    if m < k {
                        assert(documents[m].uri != documents[k].uri);
                    } else {
                        assert(documents[k].uri != documents[m].uri);
                    }
                }
            },
            None => {
                if let Some(m) = position_of(after, other) {
                    assert(m != at);
                    assert(after[m] == documents[m]);
                }
            },
        }
    }
}

/// A generation is current until the next snapshot of its document is stored, and never again after
/// that.
pub proof fn law_snapshots_go_stale(
    documents: Seq<DocumentView>,
    uri: Seq<char>,
    contents: Seq<char>,
    version: i32,
    later_contents: Seq<char>,
    later_version: i32,
)
    requires
        uris_distinct(documents),
        next_generation(documents, uri) < u64::MAX,
    ensures
        ({
            let generation = next_generation(documents, uri) as u64;
            let first = stored(documents, uri, contents, version);
            let second = stored(first, uri, later_contents, later_version);
            &&& is_current(first, uri, generation)
            &&& !is_current(second, uri, generation)
            &&& next_generation(second, uri) > next_generation(first, uri)
        }),
{
    let first = stored(documents, uri, contents, version);
    law_store_then_lookup(documents, uri, contents, version, uri);
    law_store_then_lookup(first, uri, later_contents, later_version, uri);
    lemma_position_of(documents, uri);
}

/// After a document is closed, it is not open, every other document is what it was, and URIs stay
/// distinct.
pub proof fn law_close_then_lookup(documents: Seq<DocumentView>, uri: Seq<char>, other: Seq<char>)
    requires
        uris_distinct(documents),
    ensures
        uris_distinct(closed(documents, uri)),
        lookup(closed(documents, uri), uri) is None,
        other != uri ==> lookup(closed(documents, uri), other) == lookup(documents, other),
{
    let after = closed(documents, uri);
    lemma_position_of(documents, uri);
    lemma_position_of(after, uri);
    lemma_position_of(documents, other);
    lemma_position_of(after, other);
    if let Some(at) = position_of(documents, uri) {
        assert(forall|j: int| 0 <= j < at ==> after[j] == #[trigger] documents[j]);
        assert(forall|j: int| at <= j < after.len() ==> #[trigger] after[j] == documents[j + 1]);
        assert forall|i: int, j: int|
            #![trigger after[i], after[j]]
            0 <= i < j < after.len() implies after[i].uri != after[j].uri by {
            let a = if i < at {
                i
            } else {
                i + 1
            };
            let b = if j < at {
                j
            } else {
                j + 1
            };
            assert(after[i] == documents[a] && after[j] == documents[b]);
        }
        if let Some(k) = position_of(after, uri) {
            if k < at {
                assert(documents[k].uri != documents[at].uri);
            } else {
                assert(documents[at].uri != documents[k + 1].uri);
            }
        }
        if other != uri {
            match position_of(documents, other) {
                Some(k) => {
                    let m = if k < at {
                        k
                    } else {
                        k - 1
                    };
                    assert(after[m] == documents[k]);
                    let found = position_of(after, other);
                    assert(found is Some);
                    if found->0 != m {
                        if found->0 < m {
                            assert(after[found->0].uri != after[m].uri);
                        } else {
                            assert(after[m].uri != after[found->0].uri);
                        }
                    }
                },
                None => {
                    if let Some(m) = position_of(after, other) {
                        if m < at {
                            assert(documents[m].uri == other);
                        } else {
                            assert(documents[m + 1].uri == other);
                        }
                    }
                },
            }
        }
    }
}

impl OpenDocuments {
    /// Start with no documents.
    pub fn new() -> (documents: OpenDocuments)
        ensures
            documents@ == Seq::<DocumentView>::empty(),
            uris_distinct(documents@),
    {
        let documents = OpenDocuments { documents: Vec::new() };
        proof {
            assert(documents@ =~= Seq::<DocumentView>::empty());
        }
        documents
    }

    /// Find a document by its URI.
    fn position(&self, uri: &str) -> (found: Option<usize>)
        ensures
            match found {
                Some(i) => position_of(self@, uri@) == Some(i as int) && i < self.documents@.len(),
                None => position_of(self@, uri@) == None::<int>,
            },
    {
        proof {
            lemma_position_of(self@, uri@);
        }
        let mut i: usize = 0;
        while i < self.documents.len()
            invariant
                i <= self.documents@.len(),
                forall|j: int| 0 <= j < i ==> #[trigger] self@[j].uri != uri@,
            decreases self.documents.len() - i,
        {
            proof {
                lemma_position_of(self@, uri@);
                assert(self@[i as int].uri == self.documents@[i as int].uri@);
            }
            if text::same_text(self.documents[i].uri.as_str(), uri) {
                return Some(i);
            }
            i = i + 1;
        }
        None
    }

    /// Copy the current contents of a document.
    pub fn contents(&self, uri: &str) -> (contents: Option<String>)
        ensures
            match lookup(self@, uri@) {
                Some(document) => contents matches Some(found) && found@ == document.contents,
                None => contents is None,
            },
    {
        match self.position(uri) {
            Some(i) => {
                proof {
                    assert(self@[i as int] == self.documents@[i as int]@);
                }
                Some(self.documents[i].contents.clone())
            },
            None => None,
        }
    }

    /// Determine whether a generation is the latest one of a document.
    pub fn is_current(&self, uri: &str, generation: u64) -> (result: bool)
        ensures
            result == is_current(self@, uri@, generation),
    {
        match self.position(uri) {
            Some(i) => {
                proof {
                    assert(self@[i as int] == self.documents@[i as int]@);
                }
                self.documents[i].generation == generation
            },
            None => false,
        }
    }

    /// Replace the snapshot of a document and give it its next generation.
    pub fn store(&mut self, uri: &str, contents: String, version: i32) -> (generation: u64)
        requires
            next_generation(old(self)@, uri@) <= u64::MAX,
        ensures
            final(self)@ == stored(old(self)@, uri@, contents@, version),
            generation == next_generation(old(self)@, uri@),
    {
        let ghost before = self@;
        let ghost text = contents@;
        match self.position(uri) {
            Some(i) => {
                proof {
                    assert(before[i as int] == self.documents@[i as int]@);
                }
                let generation = self.documents[i].generation + 1;
                let document = OpenDocument { uri: uri.to_owned(), contents, version, generation };
                let ghost view = document@;
                self.documents.set(i, document);
                proof {
                    assert(self@ =~= before.update(i as int, view));
                }
                generation
            },
            None => {
                let document = OpenDocument { uri: uri.to_owned(), contents, version, generation: 1 };
                let ghost view = document@;
                self.documents.push(document);
                proof {
                    assert(self@ =~= before.push(view));
                }
                1
            },
        }
    }

    /// Adopt the contents that came with a save, if any did, and copy the resulting snapshot.
    pub fn save(&mut self, uri: &str, contents: Option<String>) -> (snapshot: Option<
        (String, i32),
    >)
        ensures
            final(self)@ == match contents {
                Some(contents) => with_contents(old(self)@, uri@, contents@),
                None => old(self)@,
            },
            match lookup(old(self)@, uri@) {
                Some(document) => snapshot matches Some((found, version)) && version
                    == document.version && found@ == match contents {
                    Some(contents) => contents@,
                    None => document.contents,
                },
                None => snapshot is None,
            },
    {
        let ghost before = self@;
        match self.position(uri) {
            Some(i) => {
                proof {
                    lemma_position_of(before, uri@);
                    assert(before[i as int] == self.documents@[i as int]@);
                }
                let version = self.documents[i].version;
                if let Some(contents) = contents {
                    let copy = contents.clone();
                    let document = OpenDocument {
                        uri: self.documents[i].uri.clone(),
                        contents,
                        version,
                        generation: self.documents[i].generation,
                    };
                    let ghost view = document@;
                    self.documents.set(i, document);
                    proof {
                        assert(self@ =~= before.update(i as int, view));
                    }
                    return Some((copy, version));
                }
                Some((self.documents[i].contents.clone(), version))
            },
            None => None,
        }
    }

    /// Stop tracking a document, reporting whether it was open.
    pub fn close(&mut self, uri: &str) -> (was_open: bool)
        ensures
            final(self)@ == closed(old(self)@, uri@),
            was_open == (lookup(old(self)@, uri@) is Some),
    {
        let ghost before = self@;
        match self.position(uri) {
            Some(i) => {
                self.documents.remove(i);
                proof {
                    assert(self@ =~= before.remove(i as int));
                }
                true
            },
            None => false,
        }
    }

    /// Find the documents to recheck after files have changed: all but those whose own files have,
    /// since editor synchronization covers them.
    pub fn to_recheck(&self, changed_uris: &Vec<String>) -> (documents: Vec<&OpenDocument>)
        ensures
            documents@.map_values(|document: &OpenDocument| document@) == unchanged(
                self@,
                crate::phrase::text_views(changed_uris@),
            ),
    {
        let ghost changed = crate::phrase::text_views(changed_uris@);
        let mut documents: Vec<&OpenDocument> = Vec::new();
        let mut i: usize = 0;
        proof {
            assert(ref_views(documents@) =~= unchanged(self@.take(0), changed));
        }
        while i < self.documents.len()
            invariant
                changed == crate::phrase::text_views(changed_uris@),
                i <= self.documents@.len(),
                ref_views(documents@) == unchanged(self@.take(i as int), changed),
            decreases self.documents.len() - i,
        {
            let document = &self.documents[i];
            let ghost before = ref_views(documents@);
            proof {
                assert(self@[i as int] == document@);
                assert(self@.take(i + 1).drop_last() =~= self@.take(i as int));
                assert(self@.take(i + 1).last() == self@[i as int]);
            }
            if !contains_text(changed_uris, document.uri.as_str()) {
                documents.push(document);
                proof {
                    assert(ref_views(documents@) =~= before.push(document@));
                }
            }
            i = i + 1;
        }
        proof {
            assert(self@.take(i as int) =~= self@);
            assert(ref_views(documents@) =~= documents@.map_values(
                |document: &OpenDocument| document@,
            ));
        }
        documents
    }
}

/// The documents in a vector of references.
spec fn ref_views(documents: Seq<&OpenDocument>) -> Seq<DocumentView> {
    documents.map_values(|document: &OpenDocument| document@)
}

/// Test whether a text is in a vector.
fn contains_text(texts: &Vec<String>, value: &str) -> (result: bool)
    ensures
        result == crate::phrase::text_views(texts@).contains(value@),
{
    let ghost views = crate::phrase::text_views(texts@);
    let mut i: usize = 0;
    while i < texts.len()
        invariant
            views == crate::phrase::text_views(texts@),
            i <= texts@.len(),
            forall|j: int| 0 <= j < i ==> #[trigger] views[j] != value@,
        decreases texts.len() - i,
    {
        proof {
            assert(views[i as int] == texts@[i as int]@);
        }
        if text::same_text(texts[i].as_str(), value) {
            return true;
        }
        i = i + 1;
    }
    false
}

/// What an editor saves becomes the contents of the document, which keeps its version and its generation.
/// Every other document is what it was.
pub proof fn law_saved_contents_are_kept(
    documents: Seq<DocumentView>,
    uri: Seq<char>,
    contents: Seq<char>,
    other: Seq<char>,
)
    requires
        uris_distinct(documents),
    ensures
        match lookup(documents, uri) {
            Some(document) => lookup(with_contents(documents, uri, contents), uri) == Some(
                DocumentView { contents, ..document },
            ),
            None => lookup(with_contents(documents, uri, contents), uri) is None,
        },
        other != uri ==> lookup(with_contents(documents, uri, contents), other) == lookup(
            documents,
            other,
        ),
        uris_distinct(with_contents(documents, uri, contents)),
{
    let after = with_contents(documents, uri, contents);
    lemma_position_of(documents, uri);
    lemma_position_of(after, uri);
    lemma_position_of(documents, other);
    lemma_position_of(after, other);
    if let Some(at) = position_of(documents, uri) {
        assert(after[at] == (DocumentView { contents, ..documents[at] }));
        assert forall|j: int| 0 <= j < documents.len() implies (#[trigger] after[j]).uri
            == documents[j].uri && (j != at ==> after[j] == documents[j]) by {}
        let found = position_of(after, uri)->0;
        assert(found == at) by {
            if found < at {
                assert(after[found].uri == documents[found].uri);
                assert(documents[found].uri != documents[at].uri);
            } else if at < found {
                assert(after[at].uri != uri);
            }
        }
        if other != uri {
            if let Some(k) = position_of(documents, other) {
                assert(after[k].uri == other);
                let m = position_of(after, other)->0;
                if m < k {
                    assert(after[m].uri == documents[m].uri);
                    assert(documents[m].uri != other);
                } else if k < m {
                    assert(after[k].uri != other);
                }
                assert(m == k && k != at);
            } else if let Some(m) = position_of(after, other) {
                assert(after[m].uri == documents[m].uri);
            }
        }
        assert forall|i: int, j: int|
            #![trigger after[i], after[j]]
            0 <= i < j < after.len() implies after[i].uri != after[j].uri by {
            assert(documents[i].uri != documents[j].uri);
        }
    }
}

/// The documents that are checked again after a change are exactly those that have not changed themselves.
pub proof fn law_other_documents_are_checked_again(
    documents: Seq<DocumentView>,
    changed: Seq<Seq<char>>,
    document: DocumentView,
)
    ensures
        unchanged(documents, changed).contains(document) <==> documents.contains(document)
            && !changed.contains(document.uri),
        unchanged(documents, changed).len() <= documents.len(),
    decreases documents.len(),
{
    let found = unchanged(documents, changed);
    if documents.len() == 0 {
        assert(found =~= Seq::<DocumentView>::empty());
    } else {
        let front = documents.drop_last();
        let last = documents.last();
        let before = unchanged(front, changed);
        law_other_documents_are_checked_again(front, changed, document);
        assert(documents =~= front.push(last));
        if front.contains(document) {
            let k = choose|k: int| 0 <= k < front.len() && front[k] == document;
            assert(documents[k] == document);
        }
        if documents.contains(document) && document != last {
            let k = choose|k: int| 0 <= k < documents.len() && documents[k] == document;
            assert(front[k] == document);
        }
        if before.contains(document) {
            let k = choose|k: int| 0 <= k < before.len() && before[k] == document;
            assert(found[k] == document);
        }
        if document == last {
            assert(documents[documents.len() - 1] == document);
            if !changed.contains(last.uri) {
                assert(found[before.len() as int] == last);
            }
        }
        if found.contains(document) && document != last {
            let k = choose|k: int| 0 <= k < found.len() && found[k] == document;
            assert(before[k] == document);
        }
    }
}

} // verus!
