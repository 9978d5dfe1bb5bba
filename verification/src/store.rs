//! Databases and the store: collections by name, databases by name.

use crate::codec::compare::str_equal;
use crate::collection::Collection;
use crate::file::PageFile;
use vstd::prelude::*;

verus! {

/// The position of the first name that is `name`, or the number of names.
pub open spec fn name_index(names: Seq<Seq<char>>, name: Seq<char>) -> int
    decreases names.len(),
{
    if names.len() == 0 {
        0
    } else if names[0] == name {
        0
    } else {
        1 + name_index(names.subrange(1, names.len() as int), name)
    }
}

pub proof fn lemma_name_index(names: Seq<Seq<char>>, name: Seq<char>, at: int)
    requires
        0 <= at <= names.len(),
        forall|i: int| 0 <= i < at ==> #[trigger] names[i] != name,
        at < names.len() ==> names[at] == name,
    ensures
        name_index(names, name) == at,
    decreases names.len(),
{
    if names.len() > 0 && at > 0 {
        let tail = names.subrange(1, names.len() as int);
        assert(names[0] != name);
        assert forall|i: int| 0 <= i < at - 1 implies #[trigger] tail[i] != name by {
            assert(tail[i] == names[i + 1]);
        }
        lemma_name_index(tail, name, at - 1);
    }
}

/// What a file in the directory of a database holds.
#[derive(Clone, Copy, Debug, PartialEq, Eq, Structural)]
pub enum FileKind {
    /// The documents of a collection.
    Collection,
    /// The nodes of a B+ tree; the name ends in `.btree`.
    TreeData,
    /// The metadata of a B+ tree; the name ends in `.btm`.
    TreeMetadata,
}

/// Whether `text` ends with `suffix`.
pub open spec fn ends_with(text: Seq<u8>, suffix: Seq<u8>) -> bool {
    text.len() >= suffix.len() && text.subrange(text.len() - suffix.len(), text.len() as int)
        == suffix
}

/// The bytes of `.btree`.
pub open spec fn tree_data_suffix() -> Seq<u8> {
    seq![46u8, 98u8, 116u8, 114u8, 101u8, 101u8]
}

/// The bytes of `.btm`.
pub open spec fn tree_metadata_suffix() -> Seq<u8> {
    seq![46u8, 98u8, 116u8, 109u8]
}

/// What the file with this name, given by its bytes, holds.
pub open spec fn kind_of(name: Seq<u8>) -> FileKind {
    if ends_with(name, tree_data_suffix()) {
        FileKind::TreeData
    } else if ends_with(name, tree_metadata_suffix()) {
        FileKind::TreeMetadata
    } else {
        FileKind::Collection
    }
}

/// Whether `text` ends with `suffix`.
pub fn has_suffix(text: &[u8], suffix: &[u8]) -> (yes: bool)
    ensures
        yes == ends_with(text@, suffix@),
{
    if text.len() < suffix.len() {
        return false;
    }
    let start: usize = text.len() - suffix.len();
    let total: usize = text.len();
    let mut at: usize = 0;
    while at < suffix.len()
        invariant
            at <= suffix@.len(),
            total == text@.len(),
            start + suffix@.len() == text@.len(),
            forall|i: int| 0 <= i < at ==> text@[start + i] == suffix@[i],
        decreases suffix@.len() - at,
    {
        if text[start + at] != suffix[at] {
            assert(text@.subrange(start as int, text@.len() as int)[at as int] != suffix@[at as int]);
            return false;
        }
        at = at + 1;
    }
    assert(text@.subrange(start as int, text@.len() as int) =~= suffix@);
    true
}

/// What the file named `name` in the directory of a database holds.
pub fn file_kind(name: &str) -> (kind: FileKind)
    ensures
        kind == kind_of(vstd::utf8::encode_utf8(name@)),
{
    let bytes = name.as_bytes();
    let data: Vec<u8> = vec![46u8, 98u8, 116u8, 114u8, 101u8, 101u8];
    let metadata: Vec<u8> = vec![46u8, 98u8, 116u8, 109u8];
    assert(data@ =~= tree_data_suffix());
    assert(metadata@ =~= tree_metadata_suffix());
    if has_suffix(bytes, data.as_slice()) {
        FileKind::TreeData
    } else if has_suffix(bytes, metadata.as_slice()) {
        FileKind::TreeMetadata
    } else {
        FileKind::Collection
    }
}

/// A database: collections by name.
#[derive(Debug)]
pub struct Database {
    collections: Vec<Collection>,
    name: String,
}

impl Database {
    /// The name of the database, as a mathematical value.
    pub closed spec fn name_view(&self) -> Seq<char> {
        self.name@
    }

    /// The collections, in the order in which they were made.
    pub closed spec fn held(&self) -> Seq<Collection> {
        self.collections@
    }

    /// The names of the collections, in the order in which they were made.
    pub open spec fn names(&self) -> Seq<Seq<char>> {
        Seq::new(self.held().len(), |i: int| self.held()[i].name_view())
    }

    /// Every collection is well formed.
    pub open spec fn well_formed(&self) -> bool {
        forall|i: int| 0 <= i < self.held().len() ==> (#[trigger] self.held()[i]).well_formed()
    }

    /// A database without collections.
    pub fn new(name: String) -> (database: Database)
        ensures
            database.well_formed(),
            database.name_view() == name@,
            database.held().len() == 0,
    {
        Database { name, collections: Vec::new() }
    }

    /// A database with the given collections.
    pub fn custom(collections: Vec<Collection>, name: String) -> (database: Database)
        ensures
            database.name_view() == name@,
            database.held() == collections@,
    {
        Database { collections, name }
    }

    /// Makes the collection named `name` over the file `io` and puts it
    /// behind the collections that are there. Returns its position.
    pub fn create_collection(&mut self, name: String, io: PageFile) -> (at: usize)
        requires
            old(self).well_formed(),
            io.well_formed(),
        ensures
            final(self).well_formed(),
            final(self).name_view() == old(self).name_view(),
            at == old(self).held().len(),
            final(self).held().len() == old(self).held().len() + 1,
            final(self).held().subrange(0, at as int) == old(self).held(),
            final(self).held()[at as int].name_view() == name@,
            final(self).held()[at as int]@ == (crate::pager::PagerView {
                frames: io@.frames,
                limit: io@.limit,
                last_free_page: 0,
            }),
    {
        let at: usize = self.collections.len();
        self.collections.push(Collection::new(name, io));
        assert(self.held().subrange(0, at as int) =~= old(self).held());
        at
    }

    /// The position of the first collection named `name`, if there is one.
    pub fn position(&self, name: &str) -> (found: Option<usize>)
        ensures
            match found {
                Some(at) => at == name_index(self.names(), name@) && at < self.held().len(),
                None => name_index(self.names(), name@) == self.held().len(),
            },
    {
        let ghost names = self.names();
        let mut at: usize = 0;
        while at < self.collections.len()
            invariant
                at <= self.collections@.len(),
                names == self.names(),
                forall|i: int| 0 <= i < at ==> #[trigger] names[i] != name@,
            decreases self.collections@.len() - at,
        {
            if str_equal(self.collections[at].name(), name) {
                proof {
                    lemma_name_index(names, name@, at as int);
                }
                return Some(at);
            }
            at = at + 1;
        }
        proof {
            lemma_name_index(names, name@, at as int);
        }
        None
    }

    /// The first collection named `name`, if there is one.
    pub fn collection(&self, name: &str) -> (found: Option<&Collection>)
        ensures
            match found {
                Some(collection) => {
                    let at = name_index(self.names(), name@);
                    at < self.held().len() && *collection == self.held()[at]
                },
                None => name_index(self.names(), name@) == self.held().len(),
            },
    {
        match self.position(name) {
            Some(at) => Some(&self.collections[at]),
            None => None,
        }
    }

    /// The collections, in the order in which they were made.
    pub fn collections(&self) -> (collections: &Vec<Collection>)
        ensures
            collections@ == self.held(),
    {
        &self.collections
    }

    /// The collections, to be changed.
    pub fn collections_mut(&mut self) -> (collections: &mut Vec<Collection>)
        ensures
            collections@ == old(self).held(),
            final(self).held() == final(collections)@,
            final(self).name_view() == old(self).name_view(),
    {
        &mut self.collections
    }

    /// The name of the database.
    pub fn name(&self) -> (name: &str)
        ensures
            name@ == self.name_view(),
    {
        self.name.as_str()
    }
}

/// The store: databases by name.
#[derive(Debug)]
pub struct Comet {
    databases: Vec<Database>,
}

impl Comet {
    /// The databases, in the order in which they were made.
    pub closed spec fn held(&self) -> Seq<Database> {
        self.databases@
    }

    /// The names of the databases, in the order in which they were made.
    pub open spec fn names(&self) -> Seq<Seq<char>> {
        Seq::new(self.held().len(), |i: int| self.held()[i].name_view())
    }

    /// A store without databases.
    pub fn new() -> (store: Comet)
        ensures
            store.held().len() == 0,
    {
        Comet { databases: Vec::new() }
    }

    /// Makes the database named `name` and puts it behind the databases
    /// that are there. Returns its position.
    pub fn create_database(&mut self, name: String) -> (at: usize)
        ensures
            at == old(self).held().len(),
            final(self).held().len() == old(self).held().len() + 1,
            final(self).held().subrange(0, at as int) == old(self).held(),
            final(self).held()[at as int].name_view() == name@,
            final(self).held()[at as int].held().len() == 0,
            final(self).held()[at as int].well_formed(),
    {
        let at: usize = self.databases.len();
        self.databases.push(Database::new(name));
        assert(self.held().subrange(0, at as int) =~= old(self).held());
        at
    }

    /// The position of the first database named `name`, if there is one.
    pub fn position(&self, name: &str) -> (found: Option<usize>)
        ensures
            match found {
                Some(at) => at == name_index(self.names(), name@) && at < self.held().len(),
                None => name_index(self.names(), name@) == self.held().len(),
            },
    {
        let ghost names = self.names();
        let mut at: usize = 0;
        while at < self.databases.len()
            invariant
                at <= self.databases@.len(),
                names == self.names(),
                forall|i: int| 0 <= i < at ==> #[trigger] names[i] != name@,
            decreases self.databases@.len() - at,
        {
            if str_equal(self.databases[at].name(), name) {
                proof {
                    lemma_name_index(names, name@, at as int);
                }
                return Some(at);
            }
            at = at + 1;
        }
        proof {
            lemma_name_index(names, name@, at as int);
        }
        None
    }

    /// The first database named `name`, if there is one.
    pub fn database(&self, name: &str) -> (found: Option<&Database>)
        ensures
            match found {
                Some(database) => {
                    let at = name_index(self.names(), name@);
                    at < self.held().len() && *database == self.held()[at]
                },
                None => name_index(self.names(), name@) == self.held().len(),
            },
    {
        match self.position(name) {
            Some(at) => Some(&self.databases[at]),
            None => None,
        }
    }

    /// The databases, in the order in which they were made.
    pub fn databases(&self) -> (databases: &Vec<Database>)
        ensures
            databases@ == self.held(),
    {
        &self.databases
    }

    /// The databases, to be changed.
    pub fn databases_mut(&mut self) -> (databases: &mut Vec<Database>)
        ensures
            databases@ == old(self).held(),
            final(self).held() == final(databases)@,
    {
        &mut self.databases
    }
}

} // verus!
