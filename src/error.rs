use vstd::prelude::*;

verus! {

#[verifier::external_type_specification]
#[verifier::external_body]
pub struct ExIoError(std::io::Error);

#[verifier::external_type_specification]
#[verifier::external_body]
pub struct ExFromUtf8Error(std::string::FromUtf8Error);

#[verifier::external_type_specification]
#[verifier::external_body]
pub struct ExSledError(sled::Error);

/// The errors of the store, its engines and its protocol.
#[derive(Debug)]
pub enum KvsError {
    /// A filesystem or socket operation failed.
    Io(std::io::Error),
    /// The key is not live in the store.
    KeyNotFound,
    /// A record on disk or on the wire is malformed.
    Codec,
    /// The name of a storage engine is not one that is known.
    EngineNotFound,
    /// The directory was last used with another storage engine.
    EngineMismatch,
    /// An error reported by the peer, flattened to its message.
    StringError(String),
    /// The embedded sled database failed.
    Sled(sled::Error),
    /// Stored bytes are not valid UTF-8.
    Utf8(std::string::FromUtf8Error),
}

/// Relies on `std::io::Error`'s `Display`, for the error's text.
#[verifier::external_body]
fn io_error_text(e: &std::io::Error) -> String {
    e.to_string()
}

/// Relies on `sled::Error`'s `Display`, for the error's text.
#[verifier::external_body]
fn sled_error_text(e: &sled::Error) -> String {
    e.to_string()
}

/// Relies on `FromUtf8Error`'s `Display`, for the error's text.
#[verifier::external_body]
fn utf8_error_text(e: &std::string::FromUtf8Error) -> String {
    e.to_string()
}

/// The fixed text of the errors that carry no outside cause.
pub open spec fn known_message(e: KvsError) -> Option<Seq<char>> {
    match e {
        KvsError::KeyNotFound => Some("Key not found"@),
        KvsError::Codec => Some("Malformed record"@),
        KvsError::EngineNotFound => Some("Engine not found"@),
        KvsError::EngineMismatch => Some("Engine mismatch"@),
        KvsError::StringError(s) => Some(s@),
        _ => None,
    }
}

impl KvsError {
    /// The human-readable text of the error, as a peer receives it.
    pub fn message(&self) -> (r: String)
        ensures
            known_message(*self) matches Some(m) ==> r@ == m,
    {
        match self {
            KvsError::Io(e) => io_error_text(e),
            KvsError::KeyNotFound => String::from_str("Key not found"),
            KvsError::Codec => String::from_str("Malformed record"),
            KvsError::EngineNotFound => String::from_str("Engine not found"),
            KvsError::EngineMismatch => String::from_str("Engine mismatch"),
            KvsError::StringError(s) => s.clone(),
            KvsError::Sled(e) => sled_error_text(e),
            KvsError::Utf8(e) => {
                let mut text = String::from_str("UTF-8 error: ");
                text.append(utf8_error_text(e).as_str());
                text
            },
        }
    }
}

impl From<std::io::Error> for KvsError {
    fn from(e: std::io::Error) -> (r: KvsError) {
        KvsError::Io(e)
    }
}

impl vstd::std_specs::convert::FromSpecImpl<std::io::Error> for KvsError {
    open spec fn obeys_from_spec() -> bool {
        true
    }

    open spec fn from_spec(e: std::io::Error) -> KvsError {
        KvsError::Io(e)
    }
}

impl From<sled::Error> for KvsError {
    fn from(e: sled::Error) -> (r: KvsError) {
        KvsError::Sled(e)
    }
}

impl vstd::std_specs::convert::FromSpecImpl<sled::Error> for KvsError {
    open spec fn obeys_from_spec() -> bool {
        true
    }

    open spec fn from_spec(e: sled::Error) -> KvsError {
        KvsError::Sled(e)
    }
}

impl From<std::string::FromUtf8Error> for KvsError {
    fn from(e: std::string::FromUtf8Error) -> (r: KvsError) {
        KvsError::Utf8(e)
    }
}

impl vstd::std_specs::convert::FromSpecImpl<std::string::FromUtf8Error> for KvsError {
    open spec fn obeys_from_spec() -> bool {
        true
    }

    open spec fn from_spec(e: std::string::FromUtf8Error) -> KvsError {
        KvsError::Utf8(e)
    }
}

} // verus!
