//! A storage engine backed by the sled embedded database.

use vstd::prelude::*;
use vstd::utf8::*;

use crate::codec::string_from_utf8;
use crate::engine::KvsEngine;
use crate::error::KvsError;

verus! {

#[verifier::external_type_specification]
#[verifier::external_body]
pub struct ExDb(sled::Db);

#[verifier::external_type_specification]
#[verifier::external_body]
pub struct ExPathBuf(std::path::PathBuf);

/// Relies on `sled::Db`'s `Clone`: another handle on the same database.
pub assume_specification[ <sled::Db as std::clone::Clone>::clone ](db: &sled::Db) -> sled::Db;

/// Relies on `sled::open`: opens the database stored at `path`, creating it
/// if it does not exist.
#[verifier::external_body]
fn sled_open(path: std::path::PathBuf) -> (r: Result<sled::Db, sled::Error>) {
    sled::open(path)
}

/// Relies on `sled::Tree::insert`: stores `value`'s UTF-8 bytes under
/// `key`'s; the previous value that it returns is dropped.
#[verifier::external_body]
fn sled_insert(db: &sled::Db, key: &str, value: &str) -> (r: Result<(), sled::Error>) {
    db.insert(key, value.as_bytes()).map(|_| ())
}

/// Relies on `sled::Tree::get`: the bytes stored under `key`'s, if any.
#[verifier::external_body]
fn sled_get(db: &sled::Db, key: &str) -> (r: Result<Option<Vec<u8>>, sled::Error>) {
    db.get(key).map(|v| v.map(|b| b.to_vec()))
}

/// Relies on `sled::Tree::remove`: deletes what is stored under `key`'s
/// bytes and returns it, if there was anything.
#[verifier::external_body]
fn sled_remove(db: &sled::Db, key: &str) -> (r: Result<Option<Vec<u8>>, sled::Error>) {
    db.remove(key).map(|v| v.map(|b| b.to_vec()))
}

/// Relies on `sled::Tree::flush`: writes the dirty buffers out and syncs
/// them; the byte count that it returns is dropped.
#[verifier::external_body]
fn sled_flush(db: &sled::Db) -> (r: Result<(), sled::Error>) {
    db.flush().map(|_| ())
}

/// A storage engine that keeps its data in a sled database.
#[derive(Clone)]
pub struct SledKvsEngine {
    tree: sled::Db,
}

impl SledKvsEngine {
    /// Opens the sled database in the directory `path`.
    pub fn open(path: std::path::PathBuf) -> (r: Result<SledKvsEngine, KvsError>)
        ensures
            r is Err ==> r->Err_0 is Sled,
    {
        match sled_open(path) {
            Ok(tree) => Ok(SledKvsEngine { tree }),
            Err(e) => Err(KvsError::Sled(e)),
        }
    }
}

/// The value of a key, from the bytes that the database holds for it:
/// `None` for no bytes, the string they encode, or a UTF-8 error.
pub fn stored_value(stored: Option<Vec<u8>>) -> (r: Result<Option<String>, KvsError>)
    ensures
        match stored {
            None => r matches Ok(None),
            Some(b) => if valid_utf8(b@) {
                r matches Ok(Some(s)) && s@ == decode_utf8(b@)
            } else {
                r matches Err(KvsError::Utf8(_))
            },
        },
{
    match stored {
        None => Ok(None),
        Some(b) => match string_from_utf8(b) {
            Ok(s) => Ok(Some(s)),
            Err(e) => Err(KvsError::Utf8(e)),
        },
    }
}

/// The outcome of a removal, from what the database held for the key:
/// `KeyNotFound` when it held nothing.
pub fn removal_outcome(previous: Option<Vec<u8>>) -> (r: Result<(), KvsError>)
    ensures
        previous is None ==> r matches Err(KvsError::KeyNotFound),
        previous is Some ==> r is Ok,
{
    match previous {
        None => Err(KvsError::KeyNotFound),
        Some(_) => Ok(()),
    }
}

impl KvsEngine for SledKvsEngine {
    /// A write succeeds or fails with the database's error.
    open spec fn set_post(&self, key: Seq<char>, value: Seq<char>, r: Result<(), KvsError>) -> bool {
        r is Ok || r matches Err(KvsError::Sled(_))
    }

    /// A read gives the stored value, or fails with the database's error or
    /// because the stored bytes are not UTF-8.
    open spec fn get_post(&self, key: Seq<char>, r: Result<Option<String>, KvsError>) -> bool {
        r is Ok || r matches Err(KvsError::Sled(_)) || r matches Err(KvsError::Utf8(_))
    }

    /// A removal succeeds, finds no key, or fails with the database's error.
    open spec fn remove_post(&self, key: Seq<char>, r: Result<(), KvsError>) -> bool {
        r is Ok || r matches Err(KvsError::KeyNotFound) || r matches Err(KvsError::Sled(_))
    }

    fn set(&self, key: String, value: String) -> Result<(), KvsError> {
        match sled_insert(&self.tree, key.as_str(), value.as_str()) {
            Ok(()) => {},
            Err(e) => return Err(KvsError::Sled(e)),
        }
        match sled_flush(&self.tree) {
            Ok(()) => Ok(()),
            Err(e) => Err(KvsError::Sled(e)),
        }
    }

    fn get(&self, key: String) -> Result<Option<String>, KvsError> {
        match sled_get(&self.tree, key.as_str()) {
            Ok(stored) => stored_value(stored),
            Err(e) => Err(KvsError::Sled(e)),
        }
    }

    fn remove(&self, key: String) -> Result<(), KvsError> {
        match sled_remove(&self.tree, key.as_str()) {
            Ok(previous) => match removal_outcome(previous) {
                Ok(()) => {},
                Err(e) => return Err(e),
            },
            Err(e) => return Err(KvsError::Sled(e)),
        }
        match sled_flush(&self.tree) {
            Ok(()) => Ok(()),
            Err(e) => Err(KvsError::Sled(e)),
        }
    }
}

} // verus!
