//! Building the store from the outcomes of reading definition files.
//!
//! Walking a directory and parsing files is left to the caller. The caller
//! asks [`is_definition_file`] which files to read, and hands each outcome
//! to a [`CollectionLoader`]; the loader says whether to go on, and in the
//! end gives the store or the reason why there is none.

use crate::collection::{Collection, CollectionError};
use crate::document::{Document, DocumentError};
use crate::seqs::{lemma_remaining, remaining, reversed};
use crate::table::StrMap;
use crate::text::to_chars;
use vstd::prelude::*;

verus! {

pub open spec fn ends_with(s: Seq<char>, suffix: Seq<char>) -> bool {
    s.len() >= suffix.len() && s.skip(s.len() - suffix.len()) == suffix
}

pub open spec fn starts_with(s: Seq<char>, prefix: Seq<char>) -> bool {
    s.len() >= prefix.len() && s.take(prefix.len() as int) == prefix
}

/// A definition file is one whose name ends in `.yml` or `.yaml` and does
/// not begin with a dot.
pub open spec fn definition_file(name: Seq<char>) -> bool {
    (ends_with(name, ".yml"@) || ends_with(name, ".yaml"@)) && !starts_with(name, "."@)
}

fn chars_end_with(s: &Vec<char>, suffix: &Vec<char>) -> (r: bool)
    ensures
        r == ends_with(s@, suffix@),
{
    if s.len() < suffix.len() {
        return false;
    }
    let offset = s.len() - suffix.len();
    let mut i: usize = 0;
    while i < suffix.len()
        invariant
            i <= suffix.len(),
            offset + suffix.len() == s.len(),
            forall|j: int| 0 <= j < i ==> s@[offset + j] == suffix@[j],
        decreases suffix.len() - i,
    {
        if s[offset + i] != suffix[i] {
            assert(s@.skip(offset as int)[i as int] != suffix@[i as int]);
            return false;
        }
        i += 1;
    }
    assert(s@.skip(offset as int) =~= suffix@);
    true
}

fn chars_start_with(s: &Vec<char>, prefix: &Vec<char>) -> (r: bool)
    ensures
        r == starts_with(s@, prefix@),
{
    if s.len() < prefix.len() {
        return false;
    }
    let mut i: usize = 0;
    while i < prefix.len()
        invariant
            i <= prefix.len() <= s.len(),
            forall|j: int| 0 <= j < i ==> s@[j] == prefix@[j],
        decreases prefix.len() - i,
    {
        if s[i] != prefix[i] {
            assert(s@.take(prefix.len() as int)[i as int] != prefix@[i as int]);
            return false;
        }
        i += 1;
    }
    assert(s@.take(prefix.len() as int) =~= prefix@);
    true
}

/// Whether the file called `name` is to be read as a definition.
pub fn is_definition_file(name: &str) -> (r: bool)
    ensures
        r == definition_file(name@),
{
    let chars = to_chars(name);
    let yml = to_chars(".yml");
    let yaml = to_chars(".yaml");
    let dot = to_chars(".");
    (chars_end_with(&chars, &yml) || chars_end_with(&chars, &yaml)) && !chars_start_with(
        &chars,
        &dot,
    )
}

/// The groups after `doc` has been appended to the list of its collection.
pub open spec fn add_document(groups: Map<Seq<char>, Seq<Document>>, doc: Document) -> Map<
    Seq<char>,
    Seq<Document>,
> {
    let list = if groups.contains_key(doc.collection@) {
        groups[doc.collection@]
    } else {
        Seq::empty()
    };
    groups.insert(doc.collection@, list.push(doc))
}

/// The documents grouped by collection name, each list in the order of
/// `docs`.
pub open spec fn grouped(docs: Seq<Document>) -> Map<Seq<char>, Seq<Document>>
    decreases docs.len(),
{
    if docs.len() == 0 {
        Map::empty()
    } else {
        add_document(grouped(docs.drop_last()), docs.last())
    }
}

/// The documents among the outcomes, in order.
pub open spec fn loaded(outcomes: Seq<Result<Document, DocumentError>>) -> Seq<Document>
    decreases outcomes.len(),
{
    if outcomes.len() == 0 {
        Seq::empty()
    } else {
        match outcomes.last() {
            Ok(doc) => loaded(outcomes.drop_last()).push(doc),
            Err(_) => loaded(outcomes.drop_last()),
        }
    }
}

/// Index of the first failure among the outcomes, or their number when
/// there is none.
pub open spec fn first_failure(outcomes: Seq<Result<Document, DocumentError>>) -> int
    decreases outcomes.len(),
{
    if outcomes.len() == 0 || outcomes[0] is Err {
        0
    } else {
        1 + first_failure(outcomes.drop_first())
    }
}

/// What a load makes of the outcomes of reading the definition files, in
/// the order in which they were read.
///
/// Unless bad files are ignored, the first failure is the result. Else,
/// without any document there is no store. Else the store holds the
/// documents grouped by collection.
pub open spec fn load_result(outcomes: Seq<Result<Document, DocumentError>>, ignore_bad: bool)
    -> Result<Map<Seq<char>, Seq<Document>>, CollectionError> {
    if !ignore_bad && first_failure(outcomes) < outcomes.len() {
        Err(CollectionError::DocumentError(outcomes[first_failure(outcomes)]->Err_0))
    } else if loaded(outcomes).len() == 0 {
        Err(CollectionError::DocumentsNotFound)
    } else {
        Ok(grouped(loaded(outcomes)))
    }
}

/// What one more outcome adds to the loaded documents and their groups.
pub proof fn lemma_loaded_step(all: Seq<Result<Document, DocumentError>>, done: int)
    requires
        0 <= done < all.len(),
    ensures
        match all[done] {
            Ok(doc) => loaded(all.take(done + 1)) == loaded(all.take(done)).push(doc) && grouped(
                loaded(all.take(done + 1)),
            ) == add_document(grouped(loaded(all.take(done))), doc),
            Err(_) => loaded(all.take(done + 1)) == loaded(all.take(done)),
        },
{
    assert(all.take(done + 1).drop_last() == all.take(done));
    assert(all.take(done + 1).last() == all[done]);
    if all[done] is Ok {
        let seen = loaded(all.take(done));
        let doc = all[done]->Ok_0;
        assert(seen.push(doc).drop_last() == seen);
    }
}

pub proof fn lemma_first_failure(outcomes: Seq<Result<Document, DocumentError>>, n: int)
    requires
        0 <= n <= outcomes.len(),
        forall|j: int| 0 <= j < n ==> #[trigger] outcomes[j] is Ok,
        n < outcomes.len() ==> outcomes[n] is Err,
    ensures
        first_failure(outcomes) == n,
    decreases outcomes.len(),
{
    if outcomes.len() == 0 || outcomes[0] is Err {
        if n > 0 {
            assert(outcomes[0] is Ok);
        }
    } else {
        let rest = outcomes.drop_first();
        assert forall|j: int| 0 <= j < n - 1 implies #[trigger] rest[j] is Ok by {
            assert(rest[j] == outcomes[j + 1]);
        }
        lemma_first_failure(rest, n - 1);
    }
}

impl Collection {
    /// The documents of each collection, by collection name.
    pub open spec fn groups(self) -> Map<Seq<char>, Seq<Document>> {
        Map::new(
            |k: Seq<char>| self.documents@.contains_key(k),
            |k: Seq<char>| self.documents@[k]@,
        )
    }
}

/// Gathers documents into a store, one file outcome at a time.
#[derive(Debug)]
pub struct CollectionLoader {
    collection: Collection,
    any_loaded: bool,
    ignore_bad: bool,
}

impl CollectionLoader {
    /// The documents taken so far, by collection.
    pub closed spec fn groups(self) -> Map<Seq<char>, Seq<Document>> {
        self.collection.groups()
    }

    /// Whether a document was taken.
    pub closed spec fn loaded_any(self) -> bool {
        self.any_loaded
    }

    /// Whether failures are passed over.
    pub closed spec fn ignores_bad(self) -> bool {
        self.ignore_bad
    }

    /// A loader that has seen nothing yet.
    pub fn new(ignore_bad: bool) -> (r: Self)
        ensures
            r.groups() == Map::<Seq<char>, Seq<Document>>::empty(),
            !r.loaded_any(),
            r.ignores_bad() == ignore_bad,
    {
        let r = CollectionLoader {
            collection: Collection { documents: StrMap::new() },
            any_loaded: false,
            ignore_bad,
        };
        assert(r.collection.groups() =~= Map::<Seq<char>, Seq<Document>>::empty());
        r
    }

    /// Whether a document was taken.
    pub fn has_documents(&self) -> (r: bool)
        ensures
            r == self.loaded_any(),
    {
        self.any_loaded
    }

    /// Takes the outcome of reading one definition file.
    ///
    /// A document is appended to its collection. A failure leaves the
    /// loader as it is; unless bad files are ignored it is handed back as
    /// the error that ends the load.
    pub fn accept(&mut self, outcome: Result<Document, DocumentError>) -> (r: Result<
        (),
        CollectionError,
    >)
        ensures
            final(self).ignores_bad() == old(self).ignores_bad(),
            match outcome {
                Ok(doc) => {
                    &&& r is Ok
                    &&& final(self).loaded_any()
                    &&& final(self).groups() == add_document(old(self).groups(), doc)
                },
                Err(err) => {
                    &&& final(self).loaded_any() == old(self).loaded_any()
                    &&& final(self).groups() == old(self).groups()
                    &&& r == if old(self).ignores_bad() {
                        Ok::<(), CollectionError>(())
                    } else {
                        Err::<(), CollectionError>(CollectionError::DocumentError(err))
                    }
                },
            },
    {
        match outcome {
            Ok(doc) => {
                let ghost before = self.collection.groups();
                let name = doc.collection.clone();
                let mut documents = match self.collection.documents.remove(name.as_str()) {
                    Some(list) => list,
                    None => Vec::new(),
                };
                documents.push(doc);
                self.collection.documents.insert(name, documents);
                self.any_loaded = true;
                assert(self.collection.groups() =~= add_document(before, doc));
                Ok(())
            },
            Err(err) => {
                if self.ignore_bad {
                    Ok(())
                } else {
                    Err(CollectionError::DocumentError(err))
                }
            },
        }
    }

    /// Ends the load: the store, or `DocumentsNotFound` when no document
    /// was taken.
    pub fn finish(self) -> (r: Result<Collection, CollectionError>)
        ensures
            match r {
                Ok(collection) => self.loaded_any() && collection.groups() == self.groups(),
                Err(err) => !self.loaded_any() && err == CollectionError::DocumentsNotFound,
            },
    {
        if self.any_loaded {
            Ok(self.collection)
        } else {
            Err(CollectionError::DocumentsNotFound)
        }
    }
}

impl Collection {
    /// Builds the store from the outcomes of reading the definition files,
    /// in the order in which the files were read.
    pub fn load(outcomes: Vec<Result<Document, DocumentError>>, ignore_bad: bool) -> (r: Result<
        Collection,
        CollectionError,
    >)
        ensures
            match r {
                Ok(collection) => load_result(outcomes@, ignore_bad) == Ok::<
                    Map<Seq<char>, Seq<Document>>,
                    CollectionError,
                >(collection.groups()),
                Err(err) => load_result(outcomes@, ignore_bad) == Err::<
                    Map<Seq<char>, Seq<Document>>,
                    CollectionError,
                >(err),
            },
    {
        let mut loader = CollectionLoader::new(ignore_bad);
        let ghost all = outcomes@;
        let mut rest = reversed(outcomes);
        let mut done: usize = 0;
        assert(rest.len() == all.len());
        assert(loaded(all.take(0)) =~= Seq::<Document>::empty());
        while rest.len() > 0
            invariant
                all == outcomes@,
                done <= all.len(),
                rest@.len() + done == all.len() <= usize::MAX,
            rest@ == remaining(all, done as int),
                loader.ignores_bad() == ignore_bad,
                loader.groups() == grouped(loaded(all.take(done as int))),
                loader.loaded_any() == (loaded(all.take(done as int)).len() > 0),
                !ignore_bad ==> forall|j: int| 0 <= j < done ==> #[trigger] all[j] is Ok,
            decreases rest.len(),
        {
            proof {
                lemma_remaining(all, done as int);
                lemma_loaded_step(all, done as int);
            }
            let outcome = rest.pop().unwrap();
            match loader.accept(outcome) {
                Ok(()) => {},
                Err(err) => {
                    proof {
                        lemma_first_failure(all, done as int);
                    }
                    return Err(err);
                },
            }
            done += 1;
        }
        proof {
            assert(all.take(all.len() as int) == all);
            if !ignore_bad {
                lemma_first_failure(all, all.len() as int);
            }
        }
        loader.finish()
    }
}

} // verus!
