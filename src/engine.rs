//! The interface of a storage engine.

use vstd::prelude::*;

use vstd::utf8::*;

use crate::error::KvsError;

verus! {

/// A storage engine that many workers share: each handle is cheap to clone,
/// and an engine serializes access to its state itself where it must.
pub trait KvsEngine: Clone + Send + 'static {
    /// What `set(key, value)` may return on this engine; an engine that
    /// does not say promises nothing.
    open spec fn set_post(&self, key: Seq<char>, value: Seq<char>, r: Result<(), KvsError>) -> bool {
        true
    }

    /// What `get(key)` may return on this engine; an engine that does not
    /// say promises nothing.
    open spec fn get_post(&self, key: Seq<char>, r: Result<Option<String>, KvsError>) -> bool {
        true
    }

    /// What `remove(key)` may return on this engine; an engine that does not
    /// say promises nothing.
    open spec fn remove_post(&self, key: Seq<char>, r: Result<(), KvsError>) -> bool {
        true
    }

    /// Sets `key` to `value`.
    fn set(&self, key: String, value: String) -> (r: Result<(), KvsError>)
        ensures
            self.set_post(key@, value@, r),
    ;

    /// The value of `key`, or `None` if `key` is not live.
    fn get(&self, key: String) -> (r: Result<Option<String>, KvsError>)
        ensures
            self.get_post(key@, r),
    ;

    /// Removes `key`; `KeyNotFound` if `key` is not live.
    fn remove(&self, key: String) -> (r: Result<(), KvsError>)
        ensures
            self.remove_post(key@, r),
    ;
}

/// The storage engines that a server can run with.
#[derive(Clone, Copy, Debug, PartialEq, Eq, Structural)]
pub enum Engine {
    Kvs,
    Sled,
}

/// Whether two strings hold the same characters.
pub fn str_eq(a: &str, b: &str) -> (r: bool)
    ensures
        r == (a@ == b@),
{
    let x = a.as_bytes();
    let y = b.as_bytes();
    proof {
        encode_utf8_decode_utf8(a@);
        encode_utf8_decode_utf8(b@);
    }
    if x.len() != y.len() {
        return false;
    }
    let mut i: usize = 0;
    while i < x.len()
        invariant
            x@ == encode_utf8(a@),
            y@ == encode_utf8(b@),
            x@.len() == y@.len(),
            i <= x@.len(),
            forall|j: int| 0 <= j < i ==> x@[j] == y@[j],
        decreases x@.len() - i,
    {
        if x[i] != y[i] {
            assert(x@[i as int] != y@[i as int]);
            return false;
        }
        i = i + 1;
    }
    assert(x@ == y@);
    true
}

impl Engine {
    /// The engine of the given name: `kvs` or `sled`.
    pub fn from_str(s: &str) -> (r: Result<Engine, KvsError>)
        ensures
            s@ == "kvs"@ ==> r matches Ok(Engine::Kvs),
            s@ == "sled"@ ==> r matches Ok(Engine::Sled),
            s@ != "kvs"@ && s@ != "sled"@ ==> r matches Err(KvsError::EngineNotFound),
    {
        proof {
            reveal_strlit("kvs");
            reveal_strlit("sled");
            assert("kvs"@.len() == 3);
            assert("sled"@.len() == 4);
        }
        if str_eq(s, "kvs") {
            Ok(Engine::Kvs)
        } else if str_eq(s, "sled") {
            Ok(Engine::Sled)
        } else {
            Err(KvsError::EngineNotFound)
        }
    }
}

/// The engine named by `s`, if any.
pub open spec fn engine_named(s: Seq<char>) -> Option<Engine> {
    if s == "kvs"@ {
        Some(Engine::Kvs)
    } else if s == "sled"@ {
        Some(Engine::Sled)
    } else {
        None
    }
}

/// The engine that a server starts with: the requested one, provided the
/// directory was not last used with another. `previous` is the content of
/// the directory's engine file, if it has one.
pub fn select_engine(requested: &str, previous: Option<&str>) -> (r: Result<Engine, KvsError>)
    ensures
        engine_named(requested@) is None ==> r matches Err(KvsError::EngineNotFound),
        engine_named(requested@) matches Some(e) ==> match previous {
            None => r == Ok::<Engine, KvsError>(e),
            Some(p) => match engine_named(p@) {
                None => r matches Err(KvsError::EngineNotFound),
                Some(q) => if q == e {
                    r == Ok::<Engine, KvsError>(e)
                } else {
                    r matches Err(KvsError::EngineMismatch)
                },
            },
        },
{
    let engine = match Engine::from_str(requested) {
        Ok(e) => e,
        Err(e) => return Err(e),
    };
    match previous {
        None => Ok(engine),
        Some(p) => match Engine::from_str(p) {
            Ok(q) => if q == engine {
                Ok(engine)
            } else {
                Err(KvsError::EngineMismatch)
            },
            Err(e) => Err(e),
        },
    }
}

} // verus!
