//! What the relay decides between its endpoints and the hub: whether a
//! request is accepted, what becomes of a job that is, and how a failure is
//! reported.

use crate::api::sanitized;
use crate::api::selector_of;
use crate::api::AnalyseRequest;
use crate::api::ClientSecret;
use crate::api::InvalidWorkError;
use crate::api::Rejection;
use crate::api::PositionView;
use crate::api::ProviderSelector;
use crate::api::ResolvedPosition;
use crate::api::Work;
use crate::api::WorkView;
use crate::repo::ExternalEngine;
use vstd::prelude::*;
use vstd::string::StringExecFns;

verus! {

/// Why a request was not served.
#[derive(Debug, Clone, PartialEq, Eq)]
pub enum Error {
    /// The store of engines could not be read; the text is the store's own
    /// account of why.
    Storage(String),
    /// No engine is registered under the identity given, or the secret
    /// presented is not its secret. The two are not told apart.
    EngineNotFound,
    /// The job was turned away.
    InvalidWork(InvalidWorkError),
}

impl Error {
    /// The words for each failure. A failure of the store is reported with
    /// the store's own text.
    pub open spec fn text(self) -> Seq<char> {
        match self {
            Error::Storage(why) => "mongodb error: "@ + why@,
            Error::EngineNotFound => "engine not found or invalid clientSecret"@,
            Error::InvalidWork(e) => e@.text(),
        }
    }

    /// The failure in words.
    pub fn message(&self) -> (r: String)
        ensures
            r@ == self.text(),
    {
        match self {
            Error::Storage(why) => {
                let mut words = "mongodb error: ".to_owned();
                words.append(why.as_str());
                words
            },
            Error::EngineNotFound => "engine not found or invalid clientSecret".to_owned(),
            Error::InvalidWork(e) => e.message(),
        }
    }

    /// The HTTP status that reports this failure.
    pub fn status(&self) -> (code: u16)
        ensures
            code == match *self {
                Error::Storage(_) => 500u16,
                Error::EngineNotFound => 404u16,
                Error::InvalidWork(_) => 400u16,
            },
    {
        match self {
            Error::Storage(_) => 500,
            Error::EngineNotFound => 404,
            Error::InvalidWork(_) => 400,
        }
    }
}

/// A job accepted for the hub: the key to deposit it under, the job in
/// canonical form, the position its line ends in, and the engine it is
/// for.
#[derive(Debug)]
pub struct Admission {
    pub selector: ProviderSelector,
    pub work: Work,
    pub end: ResolvedPosition,
    pub engine: ExternalEngine,
}

/// Whether `secret` opens the engine looked up, if one was found.
pub open spec fn opens(found: Option<ExternalEngine>, secret: Seq<char>) -> bool {
    found matches Some(engine) && engine.client_secret@ == secret
}

/// Lets a requester through to the engine looked up under the identity it
/// named: the engine must exist and `secret` must be its client secret.
pub fn authenticate(found: Option<ExternalEngine>, secret: &ClientSecret) -> (r: Result<
    ExternalEngine,
    Error,
>)
    ensures
        match r {
            Ok(engine) => opens(found, secret@) && found == Some(engine),
            Err(e) => !opens(found, secret@) && e == Error::EngineNotFound,
        },
{
    match found {
        Some(engine) => {
            if engine.client_secret == *secret {
                Ok(engine)
            } else {
                Err(Error::EngineNotFound)
            }
        },
        None => Err(Error::EngineNotFound),
    }
}

/// Decides what becomes of a request to analyse: it is refused unless the
/// engine exists and the client secret is right; the job is then
/// normalised for that engine, and what leaves normalisation is to be
/// deposited under the selector of the engine's provider.
pub fn accept(found: Option<ExternalEngine>, request: AnalyseRequest) -> (r: Result<
    Admission,
    Error,
>)
    ensures
        match r {
            Ok(admission) => opens(found, request.client_secret@) && sanitized(
                request.work@,
                found->Some_0@,
            ) == Ok::<(WorkView, PositionView), Rejection>(
                (admission.work@, admission.end@),
            ) && admission.selector@ == selector_of(found->Some_0.provider_secret@) && found
                == Some(admission.engine),
            Err(Error::EngineNotFound) => !opens(found, request.client_secret@),
            Err(Error::InvalidWork(e)) => opens(found, request.client_secret@) && sanitized(
                request.work@,
                found->Some_0@,
            ) == Err::<(WorkView, PositionView), Rejection>(e@),
            Err(Error::Storage(_)) => false,
        },
{
    let engine = match authenticate(found, &request.client_secret) {
        Ok(engine) => engine,
        Err(e) => {
            return Err(e);
        },
    };
    match request.work.sanitize(&engine) {
        Ok((work, end)) => Ok(
            Admission { selector: engine.provider_secret.selector(), work, end, engine },
        ),
        Err(e) => Err(Error::InvalidWork(e)),
    }
}

} // verus!
