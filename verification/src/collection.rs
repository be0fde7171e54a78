//! The store: documents grouped by collection name, built once by a load and
//! read-only afterwards.

use crate::attrs::Attributes;
use crate::document::{Document, DocumentError, ParamValue};
use crate::table::{ascending_keys, StrMap};
use crate::value::{models, Json};
use vstd::prelude::*;

verus! {

/// Documents by collection name.
#[derive(Debug)]
pub struct Collection {
    pub documents: StrMap<Vec<Document>>,
}

/// Why a store could not be built or a lookup found nothing.
#[derive(Debug)]
pub enum CollectionError {
    DocumentError(DocumentError),
    /// Collection name, document name.
    DocumentNotFound(String, String),
    DocumentsNotFound,
    /// Collection name.
    CollectionNotFound(String),
}

impl From<DocumentError> for CollectionError {
    fn from(inner: DocumentError) -> (r: Self) {
        CollectionError::DocumentError(inner)
    }
}

impl vstd::std_specs::convert::FromSpecImpl<DocumentError> for CollectionError {
    open spec fn obeys_from_spec() -> bool {
        true
    }

    open spec fn from_spec(inner: DocumentError) -> Self {
        CollectionError::DocumentError(inner)
    }
}

/// Index of the first document called `name`, or the number of documents
/// when none is.
pub open spec fn first_named(docs: Seq<Document>, name: Seq<char>) -> int
    decreases docs.len(),
{
    if docs.len() == 0 || docs[0].name@ == name {
        0
    } else {
        1 + first_named(docs.drop_first(), name)
    }
}

pub proof fn lemma_first_named(docs: Seq<Document>, name: Seq<char>, n: int)
    requires
        0 <= n <= docs.len(),
        forall|j: int| 0 <= j < n ==> (#[trigger] docs[j]).name@ != name,
        n < docs.len() ==> docs[n].name@ == name,
    ensures
        first_named(docs, name) == n,
    decreases docs.len(),
{
    if docs.len() == 0 || docs[0].name@ == name {
        if n > 0 {
            assert(docs[0].name@ != name);
        }
    } else {
        let rest = docs.drop_first();
        assert forall|j: int| 0 <= j < n - 1 implies (#[trigger] rest[j]).name@ != name by {
            assert(rest[j] == docs[j + 1]);
        }
        lemma_first_named(rest, name, n - 1);
    }
}

/// The values of the documents for a request: each document's name with
/// its resolved value, a later document replacing an earlier one of the
/// same name.
pub open spec fn resolved_values(docs: Seq<Document>, attrs: Map<Seq<char>, Seq<char>>) -> Map<
    Seq<char>,
    Json,
>
    decreases docs.len(),
{
    if docs.len() == 0 {
        Map::empty()
    } else {
        resolved_values(docs.drop_last(), attrs).insert(
            docs.last().name@,
            docs.last().resolved(attrs),
        )
    }
}

/// Number of documents in the collections whose names are the first `n` of
/// `names`.
pub open spec fn count_in(groups: Map<Seq<char>, Vec<Document>>, names: Seq<Seq<char>>, n: int) -> int
    decreases n,
{
    if n <= 0 {
        0
    } else {
        count_in(groups, names, n - 1) + groups[names[n - 1]]@.len()
    }
}

impl Collection {
    /// Number of documents over all collections.
    pub open spec fn document_count(self) -> int {
        let names = ascending_keys(self.documents@.dom());
        count_in(self.documents@, names, names.len() as int)
    }

    /// Number of collections.
    pub fn total_collections(&self) -> (r: usize)
        ensures
            r == self.documents@.dom().len(),
    {
        self.documents.len()
    }

    /// Number of documents over all collections; `usize::MAX` if there are
    /// more than that.
    pub fn total_documents(&self) -> (r: usize)
        ensures
            r == if self.document_count() <= usize::MAX {
                self.document_count()
            } else {
                usize::MAX as int
            },
    {
        let n = self.documents.len();
        let mut total: usize = 0;
        let mut i: usize = 0;
        let ghost names = ascending_keys(self.documents@.dom());
        proof {
            use_type_invariant(&self.documents);
            self.documents.lemma_rows();
        }
        while i < n
            invariant
                i <= n == self.documents.pairs().len(),
                names == self.documents.keys(),
                forall|j: int|
                    0 <= j < n ==> self.documents@.contains_key(
                        #[trigger] self.documents.pairs()[j].0@,
                    ) && self.documents@[self.documents.pairs()[j].0@]
                        == self.documents.pairs()[j].1,
                count_in(self.documents@, names, i as int) >= 0,
                total == if count_in(self.documents@, names, i as int) <= usize::MAX {
                    count_in(self.documents@, names, i as int)
                } else {
                    usize::MAX as int
                },
            decreases n - i,
        {
            let docs = self.documents.value_at(i);
            proof {
                assert(names[i as int] == self.documents.pairs()[i as int].0@);
                assert(self.documents@[names[i as int]] == *docs);
            }
            total = total.saturating_add(docs.len());
            i += 1;
        }
        total
    }

    /// The document `name` of the collection `collection`: the first of
    /// that name in the collection's list.
    pub open spec fn document_named(self, collection: Seq<char>, name: Seq<char>) -> Option<
        Document,
    > {
        if self.documents@.contains_key(collection) {
            let docs = self.documents@[collection]@;
            let at = first_named(docs, name);
            if at < docs.len() {
                Some(docs[at])
            } else {
                None
            }
        } else {
            None
        }
    }

    /// Gets a document by collection name and document name.
    pub fn get_document(&self, collection_name: &String, name: &String) -> (r: Option<&Document>)
        ensures
            match r {
                Some(doc) => self.document_named(collection_name@, name@) == Some(*doc),
                None => self.document_named(collection_name@, name@) is None,
            },
    {
        match self.documents.get(collection_name.as_str()) {
            Some(docs) => {
                let mut i: usize = 0;
                while i < docs.len()
                    invariant
                        i <= docs.len(),
                        self.documents@.contains_key(collection_name@),
                        *docs == self.documents@[collection_name@],
                        forall|j: int| 0 <= j < i ==> (#[trigger] docs@[j]).name@ != name@,
                    decreases docs.len() - i,
                {
                    if docs[i].name == *name {
                        proof {
                            lemma_first_named(docs@, name@, i as int);
                        }
                        return Some(&docs[i]);
                    }
                    i += 1;
                }
                proof {
                    lemma_first_named(docs@, name@, docs@.len() as int);
                }
                None
            },
            None => None,
        }
    }

    /// The documents of the collection `name`.
    pub fn get_documents(&self, name: &String) -> (r: Option<&Vec<Document>>)
        ensures
            match r {
                Some(docs) => self.documents@.contains_key(name@) && *docs == self.documents@[name@],
                None => !self.documents@.contains_key(name@),
            },
    {
        self.documents.get(name.as_str())
    }

    /// The values of all documents of the collection `collection_name` for
    /// the given attributes, by document name.
    pub fn get_values(&self, collection_name: &String, attrs: &Attributes) -> (r: Option<
        StrMap<ParamValue>,
    >)
        ensures
            match r {
                Some(values) => self.documents@.contains_key(collection_name@) && models(values@)
                    == resolved_values(self.documents@[collection_name@]@, attrs@),
                None => !self.documents@.contains_key(collection_name@),
            },
    {
        match self.get_documents(collection_name) {
            Some(documents) => {
                let mut values: StrMap<ParamValue> = StrMap::new();
                let mut i: usize = 0;
                assert(models(values@) =~= resolved_values(documents@.take(0), attrs@));
                while i < documents.len()
                    invariant
                        i <= documents.len(),
                        models(values@) == resolved_values(documents@.take(i as int), attrs@),
                    decreases documents.len() - i,
                {
                    let doc = &documents[i];
                    let ghost before = values@;
                    let value = doc.get_value(attrs);
                    values.insert(doc.name.clone(), value);
                    proof {
                        assert(documents@.take(i + 1).drop_last() == documents@.take(i as int));
                        assert(documents@.take(i + 1).last() == *doc);
                        assert(models(values@) =~= models(before).insert(doc.name@, value@));
                    }
                    i += 1;
                }
                assert(documents@.take(documents.len() as int) == documents@);
                Some(values)
            },
            _ => None,
        }
    }
}

} // verus!
