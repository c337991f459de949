//! The storage-object abstraction: something that owns a database handle
//! and hands it out, plus the in-memory storage that implements it.

use crate::db::DBError;
use crate::db::Database;
use crate::db::DatabaseConfig;
use vstd::prelude::*;

verus! {

/// Failure to obtain a database handle from a storage object.
#[derive(Debug, PartialEq, Clone)]
pub enum StorageError {
    /// The underlying database failed to open.
    DbError(DBError),
}

/// A storage object: it is constructed from a configuration and hands out
/// the database handle it owns.
pub trait Storage: Sized {
    type Config;

    type Database;

    /// The handle the storage owns, when its opening succeeded.
    spec fn spec_database(&self) -> Option<Self::Database>;

    /// Construct the storage from its configuration.
    fn new(config: Self::Config) -> Self;

    /// Replace the stored configuration.
    fn set_config(&mut self, config: &Self::Config);

    /// The database handle, or the error its opening left behind: the
    /// handle is handed out exactly when the storage owns one, never
    /// swallowed.
    fn use_db(&self) -> (r: Result<&Self::Database, StorageError>)
        ensures
            match self.spec_database() {
                Some(db) => r matches Ok(h) && *h == db,
                None => r is Err,
            },
    ;
}

/// The in-memory storage object: it owns one in-memory database handle.
#[derive(Debug)]
pub struct MemStorage {
    /// The handle, as opening left it.
    pub db: Result<Database, DBError>,
    /// The configuration the storage was constructed with.
    pub config: DatabaseConfig,
}

impl Storage for MemStorage {
    type Config = DatabaseConfig;

    type Database = Database;

    open spec fn spec_database(&self) -> Option<Database> {
        match self.db {
            Ok(db) => Some(db),
            Err(_) => None,
        }
    }

    fn new(config: DatabaseConfig) -> MemStorage {
        let db = Database::new(String::from_str("memory"), &config);
        MemStorage { db, config }
    }

    fn set_config(&mut self, config: &DatabaseConfig) {
        self.config = config.clone();
    }

    fn use_db(&self) -> (r: Result<&Database, StorageError>) {
        match &self.db {
            Ok(db) => Ok(db),
            Err(e) => Err(StorageError::DbError(e.clone())),
        }
    }
}

impl MemStorage {
    /// The handle of a freshly opened in-memory storage: present, well
    /// formed and empty.
    pub fn open(config: DatabaseConfig) -> (r: MemStorage)
        ensures
            r.db matches Ok(db) && db.wf() && db.nodes_map() == Map::<Seq<char>, Seq<u8>>::empty()
                && db.edges_map() == Map::<Seq<char>, Seq<u8>>::empty() && db.entities_map()
                == Map::<Seq<char>, Seq<u8>>::empty(),
    {
        let db = Database::new(String::from_str("memory"), &config);
        MemStorage { db, config }
    }
}

/// The process-level entry point: it wires a storage object to its
/// database handle.
#[derive(Debug)]
pub struct ArkyDB<S: Storage> {
    pub storage: S,
}

impl<S: Storage> ArkyDB<S> {
    /// The database handle of the given storage, passed through untouched,
    /// or the error its opening left behind. Nothing stored is read or
    /// written.
    pub fn init(storage: &S) -> (r: Result<&S::Database, StorageError>)
        ensures
            match storage.spec_database() {
                Some(db) => r matches Ok(h) && *h == db,
                None => r is Err,
            },
    {
        storage.use_db()
    }
}

} // verus!
