//! Summaries of documents and collections, as the query interface reports
//! them.
//!
//! The conversions are `From` and `TryFrom` impls. What each returns is
//! stated in the `ensures` of its method; the spec functions that the
//! standard traits ask for beside an impl are left unused.

use crate::collection::{Collection, CollectionError};
use crate::document::{Document, DocumentOverrides as DocOverrides, DocumentValueType, ParamValue};
use crate::normalize::sorted_unique;
use crate::seqs::{lemma_remaining, remaining, reversed};
use crate::table::{ascending_keys, StrMap};
use crate::text::{join, split_terminator, split_terminator_string, views};
use vstd::prelude::*;
use vstd::std_specs::convert::{FromSpecImpl, TryFromSpecImpl};

verus! {

/// A resolved value.
#[derive(Debug)]
pub struct DocumentValue(pub ParamValue);

/// The attributes that a document's tiers look at.
#[derive(Debug)]
pub struct DocumentAttrs(pub Vec<String>);

/// A document's override table.
#[derive(Debug)]
pub struct DocumentOverrides(pub DocOverrides);

/// What is reported of one document.
#[derive(Debug)]
pub struct DocumentInfo {
    pub enabled: bool,
    pub document: String,
    pub collection: String,
    pub description: String,
    pub total_overrides: usize,
    pub override_order: Vec<String>,
    pub default_value: ParamValue,
    pub value_type: DocumentValueType,
}

/// What is reported of one collection.
#[derive(Debug)]
pub struct CollectionInfo {
    pub collection: String,
    pub total_documents: usize,
    pub documents: Vec<DocumentInfo>,
}

/// What is reported of the whole store.
#[derive(Debug)]
pub struct CollectionList {
    pub total_collections: usize,
    pub total_documents: usize,
    pub collections: Vec<CollectionInfo>,
}

impl DocumentInfo {
    /// The summary is that of `doc`: it has the document's name, collection,
    /// description, enabled flag, type and default value, the number of its
    /// overrides, and its tiers written as comma-separated lists.
    pub open spec fn describes(self, doc: Document) -> bool {
        &&& self.enabled == doc.enabled
        &&& self.document@ == doc.name@
        &&& self.collection@ == doc.collection@
        &&& self.description@ == doc.description@
        &&& self.total_overrides == doc.overrides@.dom().len()
        &&& self.override_order@.len() == doc.order_list@.len()
        &&& forall|i: int|
            0 <= i < self.override_order@.len() ==> (#[trigger] self.override_order@[i])@ == join(
                doc.tier(i),
                ',',
            )
        &&& self.default_value@ == doc.default_value@
        &&& self.value_type == doc.value_type
    }
}

impl CollectionInfo {
    /// The summary is that of the collection `name` with the documents
    /// `docs`: it has the name, the number of documents, and the summary of
    /// each document in order.
    pub open spec fn describes(self, docs: Seq<Document>, name: Seq<char>) -> bool {
        &&& self.collection@ == name
        &&& self.total_documents == docs.len()
        &&& self.documents@.len() == docs.len()
        &&& forall|i: int|
            0 <= i < docs.len() ==> (#[trigger] self.documents@[i]).describes(docs[i])
    }
}

impl From<&Document> for DocumentAttrs {
    fn from(document: &Document) -> (r: Self)
        ensures
            views(r.0@) == ascending_keys(document.tier_names()),
    {
        Self(document.override_attrs())
    }
}

impl FromSpecImpl<&Document> for DocumentAttrs {
    open spec fn obeys_from_spec() -> bool {
        false
    }

    open spec fn from_spec(document: &Document) -> Self {
        arbitrary()
    }
}

impl From<&Document> for DocumentOverrides {
    fn from(document: &Document) -> (r: Self)
        ensures
            r.0@.dom() == document.overrides@.dom(),
            forall|k: Seq<char>|
                #[trigger] r.0@.contains_key(k) ==> r.0@[k].omit == document.overrides@[k].omit
                    && r.0@[k].value@ == document.overrides@[k].value@,
    {
        Self(document.get_overrides())
    }
}

impl FromSpecImpl<&Document> for DocumentOverrides {
    open spec fn obeys_from_spec() -> bool {
        false
    }

    open spec fn from_spec(document: &Document) -> Self {
        arbitrary()
    }
}

impl From<&Document> for DocumentInfo {
    fn from(document: &Document) -> (r: Self)
        ensures
            r.describes(*document),
    {
        Self {
            document: document.name.clone(),
            collection: document.collection.clone(),
            description: document.description.clone(),
            enabled: document.enabled,
            total_overrides: document.total_overrides(),
            default_value: document.default_value.clone(),
            override_order: document.override_order(),
            value_type: document.value_type,
        }
    }
}

impl FromSpecImpl<&Document> for DocumentInfo {
    open spec fn obeys_from_spec() -> bool {
        false
    }

    open spec fn from_spec(document: &Document) -> Self {
        arbitrary()
    }
}

impl TryFrom<(&Collection, &String, &String)> for DocumentInfo {
    type Error = CollectionError;

    /// The summary of the document, or `DocumentNotFound` with both names
    /// when the collection holds no such document.
    fn try_from(input: (&Collection, &String, &String)) -> (r: Result<Self, CollectionError>)
        ensures
            match r {
                Ok(info) => input.0.document_named(input.1@, input.2@) matches Some(doc)
                    && info.describes(doc),
                Err(err) => {
                    &&& input.0.document_named(input.1@, input.2@) is None
                    &&& err matches CollectionError::DocumentNotFound(c, d) && c@ == input.1@ && d@
                        == input.2@
                },
            },
    {
        let (collection, collection_name, document_name) = input;
        match collection.get_document(collection_name, document_name) {
            Some(doc) => Ok(DocumentInfo::from(doc)),
            None => Err(
                CollectionError::DocumentNotFound(collection_name.clone(), document_name.clone()),
            ),
        }
    }
}

impl TryFromSpecImpl<(&Collection, &String, &String)> for DocumentInfo {
    open spec fn obeys_try_from_spec() -> bool {
        false
    }

    open spec fn try_from_spec(input: (&Collection, &String, &String)) -> Result<
        Self,
        CollectionError,
    > {
        arbitrary()
    }
}

/// Builds the summary of a collection from its documents and its name.
impl From<(&Vec<Document>, &String)> for CollectionInfo {
    fn from(request: (&Vec<Document>, &String)) -> (r: Self)
        ensures
            r.describes(request.0@, request.1@),
    {
        let (documents, collection_name) = request;
        let mut infos: Vec<DocumentInfo> = Vec::new();
        let mut i: usize = 0;
        while i < documents.len()
            invariant
                i <= documents.len(),
                infos.len() == i,
                forall|j: int| 0 <= j < i ==> (#[trigger] infos@[j]).describes(documents@[j]),
            decreases documents.len() - i,
        {
            infos.push(DocumentInfo::from(&documents[i]));
            i += 1;
        }
        Self {
            collection: collection_name.clone(),
            total_documents: documents.len(),
            documents: infos,
        }
    }
}

impl FromSpecImpl<(&Vec<Document>, &String)> for CollectionInfo {
    open spec fn obeys_from_spec() -> bool {
        false
    }

    open spec fn from_spec(request: (&Vec<Document>, &String)) -> Self {
        arbitrary()
    }
}

impl TryFrom<(&Collection, &String)> for CollectionInfo {
    type Error = CollectionError;

    /// The summary of the collection, or `CollectionNotFound` with its name
    /// when the store holds no such collection.
    fn try_from(request: (&Collection, &String)) -> (r: Result<Self, CollectionError>)
        ensures
            match r {
                Ok(info) => request.0.documents@.contains_key(request.1@) && info.describes(
                    request.0.documents@[request.1@]@,
                    request.1@,
                ),
                Err(err) => !request.0.documents@.contains_key(request.1@) && (err matches CollectionError::CollectionNotFound(
                    c,
                ) && c@ == request.1@),
            },
    {
        let (collection, collection_name) = request;
        match collection.get_documents(collection_name) {
            Some(documents) => Ok(CollectionInfo::from((documents, collection_name))),
            None => Err(CollectionError::CollectionNotFound(collection_name.clone())),
        }
    }
}

impl TryFromSpecImpl<(&Collection, &String)> for CollectionInfo {
    open spec fn obeys_try_from_spec() -> bool {
        false
    }

    open spec fn try_from_spec(request: (&Collection, &String)) -> Result<Self, CollectionError> {
        arbitrary()
    }
}

/// The names in a list of comma-separated lists, in order.
pub open spec fn listed_names(entries: Seq<Seq<char>>) -> Seq<Seq<char>>
    decreases entries.len(),
{
    if entries.len() == 0 {
        Seq::empty()
    } else {
        listed_names(entries.drop_last()) + split_terminator(entries.last(), ',')
    }
}

/// The names in the tiers of all the documents, in order.
pub open spec fn order_names(infos: Seq<DocumentInfo>) -> Seq<Seq<char>>
    decreases infos.len(),
{
    if infos.len() == 0 {
        Seq::empty()
    } else {
        order_names(infos.drop_last()) + listed_names(views(infos.last().override_order@))
    }
}

/// The tiers of a document written as comma-separated lists.
pub open spec fn written_tiers(doc: Document) -> Seq<Seq<char>> {
    Seq::new(doc.order_list@.len(), |i: int| join(doc.tier(i), ','))
}

/// The names in the written tiers of all the documents, in order.
pub open spec fn written_names(docs: Seq<Document>) -> Seq<Seq<char>>
    decreases docs.len(),
{
    if docs.len() == 0 {
        Seq::empty()
    } else {
        written_names(docs.drop_last()) + listed_names(written_tiers(docs.last()))
    }
}

/// The summaries of documents name what the documents' written tiers name.
pub proof fn lemma_order_names(infos: Seq<DocumentInfo>, docs: Seq<Document>)
    requires
        infos.len() == docs.len(),
        forall|i: int| 0 <= i < docs.len() ==> (#[trigger] infos[i]).describes(docs[i]),
    ensures
        order_names(infos) == written_names(docs),
    decreases docs.len(),
{
    if docs.len() > 0 {
        let head = infos.drop_last();
        assert forall|i: int| 0 <= i < head.len() implies (#[trigger] head[i]).describes(
            docs.drop_last()[i],
        ) by {
            assert(head[i] == infos[i]);
        }
        lemma_order_names(head, docs.drop_last());
        assert(infos.last().describes(docs.last()));
        assert(views(infos.last().override_order@) =~= written_tiers(docs.last()));
    }
}

/// Appends the strings of `src` to `dst`.
fn extend_strings(dst: &mut Vec<String>, src: Vec<String>)
    ensures
        views(final(dst)@) == views(old(dst)@) + views(src@),
{
    let ghost all = src@;
    let ghost start = dst@;
    let mut rest = reversed(src);
    let mut done: usize = 0;
    assert(rest.len() == all.len());
    assert(start + all.take(0) =~= start);
    while rest.len() > 0
        invariant
            done <= all.len(),
            rest@.len() + done == all.len() <= usize::MAX,
            rest@ == remaining(all, done as int),
            dst@ == start + all.take(done as int),
        decreases rest.len(),
    {
        proof {
            lemma_remaining(all, done as int);
        }
        let item = rest.pop().unwrap();
        dst.push(item);
        assert(dst@ =~= start + all.take(done + 1));
        done += 1;
    }
    assert(all.take(all.len() as int) == all);
    assert(views(dst@) =~= views(start) + views(all));
}

impl CollectionInfo {
    /// The attributes found in the tiers of the collection's documents:
    /// each name once, in ascending order.
    pub fn attrs(&self) -> (r: Vec<String>)
        ensures
            views(r@) == ascending_keys(order_names(self.documents@).to_set()),
    {
        let mut names: Vec<String> = Vec::new();
        let mut i: usize = 0;
        assert(views(names@) =~= order_names(self.documents@.take(0)));
        while i < self.documents.len()
            invariant
                i <= self.documents.len(),
                views(names@) == order_names(self.documents@.take(i as int)),
            decreases self.documents.len() - i,
        {
            let order = &self.documents[i].override_order;
            let ghost done = views(names@);
            let mut j: usize = 0;
            assert(listed_names(views(order@).take(0)) =~= Seq::<Seq<char>>::empty());
            assert(done + Seq::<Seq<char>>::empty() =~= done);
            while j < order.len()
                invariant
                    j <= order.len(),
                    views(names@) == done + listed_names(views(order@).take(j as int)),
                decreases order.len() - j,
            {
                let pieces = split_terminator_string(order[j].as_str(), ',');
                let ghost before = views(names@);
                extend_strings(&mut names, pieces);
                proof {
                    let sofar = views(order@).take(j as int);
                    let next = views(order@).take(j + 1);
                    assert(next.drop_last() == sofar);
                    assert(next.last() == order@[j as int]@);
                    assert(views(names@) =~= done + listed_names(next));
                }
                j += 1;
            }
            proof {
                assert(views(order@).take(order.len() as int) == views(order@));
                let next = self.documents@.take(i + 1);
                assert(next.drop_last() == self.documents@.take(i as int));
                assert(next.last() == self.documents@[i as int]);
            }
            i += 1;
        }
        assert(self.documents@.take(self.documents.len() as int) == self.documents@);
        sorted_unique(&names)
    }
}

/// Number of documents in the first `n` collections of the list.
pub open spec fn documents_in(list: Seq<CollectionInfo>, n: int) -> int
    decreases n,
{
    if n <= 0 {
        0
    } else {
        documents_in(list, n - 1) + list[n - 1].documents@.len()
    }
}

impl From<Vec<CollectionInfo>> for CollectionList {
    /// The list with its totals. The number of documents is `usize::MAX`
    /// if there are more than that.
    fn from(list: Vec<CollectionInfo>) -> (r: Self)
        ensures
            r.collections == list,
            r.total_collections == list.len(),
            r.total_documents == if documents_in(list@, list.len() as int) <= usize::MAX {
                documents_in(list@, list.len() as int)
            } else {
                usize::MAX as int
            },
    {
        let mut total: usize = 0;
        let mut i: usize = 0;
        while i < list.len()
            invariant
                i <= list.len(),
                documents_in(list@, i as int) >= 0,
                total == if documents_in(list@, i as int) <= usize::MAX {
                    documents_in(list@, i as int)
                } else {
                    usize::MAX as int
                },
            decreases list.len() - i,
        {
            total = total.saturating_add(list[i].documents.len());
            i += 1;
        }
        Self { total_collections: list.len(), total_documents: total, collections: list }
    }
}

impl FromSpecImpl<Vec<CollectionInfo>> for CollectionList {
    open spec fn obeys_from_spec() -> bool {
        false
    }

    open spec fn from_spec(list: Vec<CollectionInfo>) -> Self {
        arbitrary()
    }
}

/// What a query answers.
#[derive(Debug)]
pub enum CollectionResponse {
    DocumentInfo(DocumentInfo),
    DocumentValue(ParamValue),
    DocumentAttrs(DocumentAttrs),
    /// Collection name, document name.
    DocumentNotFound(String, String),
    DocumentOverrides(DocumentOverrides),
    CollectionInfo(CollectionInfo),
    /// The attributes needed to look up the values of all documents of a
    /// collection.
    CollectionAttrs(Vec<String>),
    CollectionValues(StrMap<ParamValue>),
    Collections(CollectionList),
    /// Collection name.
    CollectionNotFound(String),
}

impl CollectionResponse {
    /// Whether the answer is that something was not found.
    pub open spec fn not_found(self) -> bool {
        self is DocumentNotFound || self is CollectionNotFound
    }

    /// The HTTP status that goes with the answer: 404 when something was
    /// not found, 200 otherwise.
    pub fn status_code(&self) -> (r: u16)
        ensures
            r == if self.not_found() {
                404u16
            } else {
                200u16
            },
    {
        match self {
            CollectionResponse::DocumentNotFound(_, _) => 404,
            CollectionResponse::CollectionNotFound(_) => 404,
            _ => 200,
        }
    }
}

} // verus!
