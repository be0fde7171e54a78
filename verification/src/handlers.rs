//! The queries of the collection interface, as functions from the store
//! and the request's parameters to the answer.

use crate::attrs::Attributes;
use crate::collection::{resolved_values, Collection};
use crate::models::{
    documents_in, lemma_order_names, written_names, CollectionInfo, CollectionList,
    CollectionResponse, DocumentAttrs, DocumentInfo, DocumentOverrides,
};
use crate::table::ascending_keys;
use crate::text::{from_chars, slice_chars, to_chars, views};
use crate::value::models;
use vstd::prelude::*;

verus! {

/// The answer to a liveness probe, with the size of the store.
#[derive(Debug)]
pub struct CollectionsStat {
    pub ping: &'static str,
    pub total_collections: usize,
    pub total_documents: usize,
}

/// `s` without the occurrences of `c` at its end.
pub open spec fn without_trailing(s: Seq<char>, c: char) -> Seq<char>
    decreases s.len(),
{
    if s.len() > 0 && s.last() == c {
        without_trailing(s.drop_last(), c)
    } else {
        s
    }
}

/// The path of a request without the slashes at its end.
pub fn remove_trailing_slash(path: &str) -> (r: String)
    ensures
        r@ == without_trailing(path@, '/'),
{
    let chars = to_chars(path);
    let mut end: usize = chars.len();
    assert(chars@.take(end as int) == chars@);
    while end > 0 && chars[end - 1] == '/'
        invariant
            end <= chars.len(),
            without_trailing(chars@, '/') == without_trailing(chars@.take(end as int), '/'),
        decreases end,
    {
        assert(chars@.take(end as int).drop_last() == chars@.take(end - 1));
        end -= 1;
    }
    let kept = slice_chars(&chars, 0, end);
    assert(chars@.take(end as int) == chars@.subrange(0, end as int));
    from_chars(&kept)
}

/// The size of the store.
pub fn get_collections_stat(collections: &Collection) -> (r: CollectionsStat)
    ensures
        r.ping@ == "pong"@,
        r.total_collections == collections.documents@.dom().len(),
        r.total_documents == if collections.document_count() <= usize::MAX {
            collections.document_count()
        } else {
            usize::MAX as int
        },
{
    let (total_c, total_d) = (collections.total_collections(), collections.total_documents());
    CollectionsStat { ping: "pong", total_collections: total_c, total_documents: total_d }
}

/// The summary of a collection, or that there is no such collection.
pub fn get_collection(collection: &Collection, collection_name: &String) -> (r: Result<
    CollectionResponse,
    CollectionResponse,
>)
    ensures
        match r {
            Ok(response) => {
                &&& collection.documents@.contains_key(collection_name@)
                &&& response matches CollectionResponse::CollectionInfo(info) && info.describes(
                    collection.documents@[collection_name@]@,
                    collection_name@,
                )
            },
            Err(response) => {
                &&& !collection.documents@.contains_key(collection_name@)
                &&& response matches CollectionResponse::CollectionNotFound(c) && c@
                    == collection_name@
            },
        },
{
    match CollectionInfo::try_from((collection, collection_name)) {
        Ok(info) => Ok(CollectionResponse::CollectionInfo(info)),
        Err(_) => Err(CollectionResponse::CollectionNotFound(collection_name.clone())),
    }
}

/// The documents of a collection, or that there is no such collection.
pub fn get_documents(collection: &Collection, collection_name: &String) -> (r: Result<
    CollectionResponse,
    CollectionResponse,
>)
    ensures
        match r {
            Ok(response) => {
                &&& collection.documents@.contains_key(collection_name@)
                &&& response matches CollectionResponse::CollectionInfo(info) && info.describes(
                    collection.documents@[collection_name@]@,
                    collection_name@,
                )
            },
            Err(response) => {
                &&& !collection.documents@.contains_key(collection_name@)
                &&& response matches CollectionResponse::CollectionNotFound(c) && c@
                    == collection_name@
            },
        },
{
    get_collection(collection, collection_name)
}

/// The summary of a document, or that there is no such document.
pub fn get_document(collection: &Collection, collection_name: &String, document_name: &String) -> (r:
    Result<CollectionResponse, CollectionResponse>)
    ensures
        match r {
            Ok(response) => {
                &&& collection.document_named(collection_name@, document_name@) matches Some(doc)
                    && (response matches CollectionResponse::DocumentInfo(info) && info.describes(
                    doc,
                ))
            },
            Err(response) => {
                &&& collection.document_named(collection_name@, document_name@) is None
                &&& response matches CollectionResponse::DocumentNotFound(c, d) && c@
                    == collection_name@ && d@ == document_name@
            },
        },
{
    match collection.get_document(collection_name, document_name) {
        Some(doc) => Ok(CollectionResponse::DocumentInfo(DocumentInfo::from(doc))),
        None => Err(
            CollectionResponse::DocumentNotFound(collection_name.clone(), document_name.clone()),
        ),
    }
}

/// The attributes that a document expects for a lookup, or that there is no
/// such document.
pub fn get_document_attrs(
    collection: &Collection,
    collection_name: &String,
    document_name: &String,
) -> (r: Result<CollectionResponse, CollectionResponse>)
    ensures
        match r {
            Ok(response) => {
                &&& collection.document_named(collection_name@, document_name@) matches Some(doc)
                    && (response matches CollectionResponse::DocumentAttrs(attrs) && views(
                    attrs.0@,
                ) == ascending_keys(doc.tier_names()))
            },
            Err(response) => {
                &&& collection.document_named(collection_name@, document_name@) is None
                &&& response matches CollectionResponse::DocumentNotFound(c, d) && c@
                    == collection_name@ && d@ == document_name@
            },
        },
{
    match collection.get_document(collection_name, document_name) {
        Some(doc) => Ok(CollectionResponse::DocumentAttrs(DocumentAttrs::from(doc))),
        None => Err(
            CollectionResponse::DocumentNotFound(collection_name.clone(), document_name.clone()),
        ),
    }
}

/// The value of a document for the attributes of the query, or that there
/// is no such document.
pub fn get_document_value(
    collection: &Collection,
    collection_name: &String,
    document_name: &String,
    query: &Attributes,
) -> (r: Result<CollectionResponse, CollectionResponse>)
    ensures
        match r {
            Ok(response) => {
                &&& collection.document_named(collection_name@, document_name@) matches Some(doc)
                    && (response matches CollectionResponse::DocumentValue(value) && value@
                    == doc.resolved(query@))
            },
            Err(response) => {
                &&& collection.document_named(collection_name@, document_name@) is None
                &&& response matches CollectionResponse::DocumentNotFound(c, d) && c@
                    == collection_name@ && d@ == document_name@
            },
        },
{
    match collection.get_document(collection_name, document_name) {
        Some(doc) => Ok(CollectionResponse::DocumentValue(doc.get_value(query))),
        None => Err(
            CollectionResponse::DocumentNotFound(collection_name.clone(), document_name.clone()),
        ),
    }
}

/// The override table of a document, or that there is no such document.
/// The query's attributes play no part.
pub fn get_document_overrides(
    collection: &Collection,
    collection_name: &String,
    document_name: &String,
    query: &Attributes,
) -> (r: Result<CollectionResponse, CollectionResponse>)
    ensures
        match r {
            Ok(response) => {
                &&& collection.document_named(collection_name@, document_name@) matches Some(doc)
                    && (response matches CollectionResponse::DocumentOverrides(table)
                    && table.0@.dom() == doc.overrides@.dom() && forall|k: Seq<char>|
                    #[trigger] table.0@.contains_key(k) ==> table.0@[k].omit
                        == doc.overrides@[k].omit && table.0@[k].value@
                        == doc.overrides@[k].value@)
            },
            Err(response) => {
                &&& collection.document_named(collection_name@, document_name@) is None
                &&& response matches CollectionResponse::DocumentNotFound(c, d) && c@
                    == collection_name@ && d@ == document_name@
            },
        },
{
    match collection.get_document(collection_name, document_name) {
        Some(doc) => Ok(CollectionResponse::DocumentOverrides(DocumentOverrides::from(doc))),
        None => Err(
            CollectionResponse::DocumentNotFound(collection_name.clone(), document_name.clone()),
        ),
    }
}

/// The summaries of all collections, by ascending collection name.
pub fn get_collections(collection: &Collection) -> (r: Result<
    CollectionResponse,
    CollectionResponse,
>)
    ensures
        r matches Ok(CollectionResponse::Collections(list)) && {
            let names = ascending_keys(collection.documents@.dom());
            &&& list.total_collections == names.len()
            &&& list.collections@.len() == names.len()
            &&& forall|i: int|
                0 <= i < names.len() ==> (#[trigger] list.collections@[i]).describes(
                    collection.documents@[names[i]]@,
                    names[i],
                )
            &&& list.total_documents == if documents_in(list.collections@, names.len() as int)
                <= usize::MAX {
                documents_in(list.collections@, names.len() as int)
            } else {
                usize::MAX as int
            }
        },
{
    let n = collection.documents.len();
    let mut collections: Vec<CollectionInfo> = Vec::new();
    let mut i: usize = 0;
    let ghost names = ascending_keys(collection.documents@.dom());
    proof {
        use_type_invariant(&collection.documents);
        collection.documents.lemma_rows();
    }
    while i < n
        invariant
            i <= n == collection.documents.pairs().len(),
            names == collection.documents.keys(),
            collections.len() == i,
            forall|j: int|
                0 <= j < i ==> (#[trigger] collections@[j]).describes(
                    collection.documents@[names[j]]@,
                    names[j],
                ),
        decreases n - i,
    {
        let name = collection.documents.key_at(i);
        let documents = collection.documents.value_at(i);
        assert(names[i as int] == name@);
        collections.push(CollectionInfo::from((documents, name)));
        i += 1;
    }
    Ok(CollectionResponse::Collections(CollectionList::from(collections)))
}

/// The attributes needed to look up the values of all documents of a
/// collection, or that there is no such collection.
pub fn get_collection_attrs(collection: &Collection, collection_name: &String) -> (r: Result<
    CollectionResponse,
    CollectionResponse,
>)
    ensures
        match r {
            Ok(response) => {
                &&& collection.documents@.contains_key(collection_name@)
                &&& response matches CollectionResponse::CollectionAttrs(attrs) && views(attrs@)
                    == ascending_keys(
                    written_names(collection.documents@[collection_name@]@).to_set(),
                )
            },
            Err(response) => {
                &&& !collection.documents@.contains_key(collection_name@)
                &&& response matches CollectionResponse::CollectionNotFound(c) && c@
                    == collection_name@
            },
        },
{
    match CollectionInfo::try_from((collection, collection_name)) {
        Ok(info) => {
            let attrs = info.attrs();
            proof {
                lemma_order_names(info.documents@, collection.documents@[collection_name@]@);
            }
            Ok(CollectionResponse::CollectionAttrs(attrs))
        },
        Err(_) => Err(CollectionResponse::CollectionNotFound(collection_name.clone())),
    }
}

/// The values of all documents of a collection for the attributes of the
/// query, or that there is no such collection.
pub fn get_collection_values(
    collection: &Collection,
    collection_name: &String,
    query: &Attributes,
) -> (r: Result<CollectionResponse, CollectionResponse>)
    ensures
        match r {
            Ok(response) => {
                &&& collection.documents@.contains_key(collection_name@)
                &&& response matches CollectionResponse::CollectionValues(values) && models(
                    values@,
                ) == resolved_values(collection.documents@[collection_name@]@, query@)
            },
            Err(response) => {
                &&& !collection.documents@.contains_key(collection_name@)
                &&& response matches CollectionResponse::CollectionNotFound(c) && c@
                    == collection_name@
            },
        },
{
    match collection.get_values(collection_name, query) {
        Some(values) => Ok(CollectionResponse::CollectionValues(values)),
        None => Err(CollectionResponse::CollectionNotFound(collection_name.clone())),
    }
}

} // verus!
