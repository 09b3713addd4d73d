//! Decision core of the batch embedding requester.
//!
//! One logical "embed these documents" operation is a loop: send the request,
//! classify the provider's reply, and either finish, fail, or wait and send
//! the same request again. The transport (HTTP, JSON coding, sleeping) lives
//! outside this crate; what stands here is the classification itself, a total
//! function from the submitted documents and one reply to the one outcome the
//! loop must take next.

use vstd::prelude::*;
use crate::duration::RetryDuration;
use crate::duration::parse_spec;
use crate::duration::parse_ratelimit_duration;

verus! {

/// Largest number of documents the provider accepts in one batch request.
/// Chunking a larger set is the caller's responsibility; this component
/// never splits batches itself.
pub const MAX_DOCUMENTS: usize = 1024;

/// One batched embedding request: the model identifier named in the body
/// and the documents in submission order. Built once per logical operation
/// and re-sent unchanged on every retry.
pub struct EmbeddingRequest {
    /// The provider-side model identifier.
    pub model: String,
    /// The documents to embed, in the order their vectors must come back.
    pub documents: Vec<String>,
}

impl EmbeddingRequest {
    pub fn new(model: &str, documents: Vec<String>) -> (r: Self)
        ensures
            r.model@ == model@,
            r.documents@ == documents@,
    {
        EmbeddingRequest { model: model.to_owned(), documents }
    }
}

/// One document paired with the vector the provider computed for it.
pub struct Embedding<V> {
    /// An owned copy of the submitted document text.
    pub document: String,
    /// The embedding vector as the transport decoded it.
    pub vec: V,
}

/// Why an embedding operation failed; every failure is surfaced as one of
/// these, and none is retried except rate limiting with a usable hint,
/// which never reaches the caller at all.
#[derive(Debug, PartialEq, Eq)]
pub enum EmbeddingError {
    /// The request never produced an HTTP response: connection, timeout,
    /// or an undecodable body.
    Transport { message: String },
    /// The provider answered with a non-success status, or a success status
    /// whose body carried an application-level error envelope.
    Provider { status: u16, message: String },
    /// A success reply whose embedding count differs from the number of
    /// submitted documents; pairing them would silently misalign vectors.
    ResponseShape { expected: usize, actual: usize },
    /// Rate limited, and neither reset header carried a usable duration;
    /// waiting a guessed time is refused.
    RateLimitExhausted { body: String },
}

/// One provider reply, as the transport hands it over: already decoded,
/// but not yet judged.
pub enum ProviderReply<V> {
    /// HTTP success whose envelope carried embedding records; `vectors`
    /// holds them in the order the provider returned them.
    Payload { vectors: Vec<V> },
    /// HTTP success whose envelope carried an application-level error.
    Refusal { message: String },
    /// HTTP 429, with the raw bytes of the two reset headers where present,
    /// and the body text for diagnostics.
    RateLimited { reset_requests: Option<Vec<u8>>, reset_tokens: Option<Vec<u8>>, body: String },
    /// Any other HTTP status, with its body text.
    Other { status: u16, body: String },
    /// No HTTP response at all: a connection or timeout failure, or a body
    /// that could not be decoded. Reported as the transport described it.
    TransportFailure { message: String },
}

/// What the retry loop does after one reply.
pub enum Outcome<V> {
    /// The operation is complete; hand the embeddings to the caller.
    Success { embeddings: Vec<Embedding<V>> },
    /// Wait exactly this long, then send the identical request again.
    Retry { wait: RetryDuration },
    /// The operation is over; hand the error to the caller.
    Failure { error: EmbeddingError },
}

/// The duration one reset header yields, if it is present and parses.
pub open spec fn hint_of(h: Option<Vec<u8>>) -> Option<nat> {
    match h {
        Some(v) => parse_spec(v@),
        None => None,
    }
}

/// The wait a rate-limited reply yields: the request-quota header when it
/// is present and parses, else the token-quota header when that one does.
pub open spec fn retry_hint(rr: Option<Vec<u8>>, rt: Option<Vec<u8>>) -> Option<nat> {
    if hint_of(rr) is Some {
        hint_of(rr)
    } else {
        hint_of(rt)
    }
}

/// Pairs each returned vector with the document it was computed for, in the
/// original submission order, refusing any count mismatch outright.
pub fn align_embeddings<V>(documents: &Vec<String>, vectors: Vec<V>) -> (r: Result<
    Vec<Embedding<V>>,
    EmbeddingError,
>)
    ensures
        vectors@.len() == documents@.len() ==> (r matches Ok(out) && out@.len()
            == documents@.len() && forall|k: int|
            0 <= k < documents@.len() ==> (#[trigger] out@[k].document)@ == documents@[k]@
                && out@[k].vec == vectors@[k]),
        vectors@.len() != documents@.len() ==> (r matches Err(e)
            && e matches EmbeddingError::ResponseShape { expected, actual } && expected
            == documents@.len() && actual == vectors@.len()),
{
    if vectors.len() != documents.len() {
        return Err(
            EmbeddingError::ResponseShape { expected: documents.len(), actual: vectors.len() },
        );
    }
    let ghost all = vectors@;
    let mut rest = vectors;
    let mut out: Vec<Embedding<V>> = Vec::new();
    let mut idx: usize = 0;
    while idx < documents.len()
        invariant
            0 <= idx <= documents@.len() == all.len(),
            out@.len() == idx,
            rest@ =~= all.subrange(idx as int, all.len() as int),
            forall|k: int|
                0 <= k < idx ==> (#[trigger] out@[k].document)@ == documents@[k]@ && out@[k].vec
                    == all[k],
        decreases documents@.len() - idx,
    {
        let document = documents[idx].clone();
        proof {
            assert(rest@[0] == all[idx as int]);
            assert(rest@.remove(0) =~= all.subrange(idx as int + 1, all.len() as int));
        }
        let vec = rest.remove(0);
        out.push(Embedding { document, vec });
        idx += 1;
    }
    Ok(out)
}

/// Judges one provider reply against the submitted documents.
///
/// A success reply yields the embeddings aligned to the documents, or a
/// shape failure on a count mismatch. An error envelope and any non-success,
/// non-rate-limit status fail at once with the provider's diagnostics. A
/// rate-limit reply yields a wait exactly when one of its reset headers
/// parses to a positive duration, the request-quota header taking
/// precedence; otherwise it fails, for the loop never guesses a wait. A
/// transport failure ends the operation at once: it is never retried here.
pub fn handle_reply<V>(documents: &Vec<String>, reply: ProviderReply<V>) -> (o: Outcome<V>)
    ensures
        reply matches ProviderReply::Payload { vectors } ==> {
            &&& vectors@.len() == documents@.len() ==> (o matches Outcome::Success { embeddings }
                && embeddings@.len() == documents@.len() && forall|k: int|
                0 <= k < documents@.len() ==> (#[trigger] embeddings@[k].document)@
                    == documents@[k]@ && embeddings@[k].vec == vectors@[k])
            &&& vectors@.len() != documents@.len() ==> (o matches Outcome::Failure { error }
                && error matches EmbeddingError::ResponseShape { expected, actual } && expected
                == documents@.len() && actual == vectors@.len())
        },
        reply matches ProviderReply::Refusal { message } ==> (o matches Outcome::Failure { error }
            && error matches EmbeddingError::Provider { status, message: m } && status == 200 && m@
            == message@),
        reply matches ProviderReply::RateLimited { reset_requests, reset_tokens, body } ==> {
            match retry_hint(reset_requests, reset_tokens) {
                Some(v) => o matches Outcome::Retry { wait } && wait.spec_nanos() == v
                    && wait.wf(),
                None => o matches Outcome::Failure { error }
                    && error matches EmbeddingError::RateLimitExhausted { body: b } && b@ == body@,
            }
        },
        reply matches ProviderReply::Other { status, body } ==> (o matches Outcome::Failure {
            error,
        } && error matches EmbeddingError::Provider { status: st, message: m } && st == status && m@
            == body@),
        reply matches ProviderReply::TransportFailure { message } ==> (o matches Outcome::Failure {
            error,
        } && error matches EmbeddingError::Transport { message: m } && m@ == message@),
{
    match reply {
        ProviderReply::Payload { vectors } => match align_embeddings(documents, vectors) {
            Ok(embeddings) => Outcome::Success { embeddings },
            Err(error) => Outcome::Failure { error },
        },
        ProviderReply::Refusal { message } => Outcome::Failure {
            error: EmbeddingError::Provider { status: 200, message },
        },
        ProviderReply::RateLimited { reset_requests, reset_tokens, body } => {
            let first = match &reset_requests {
                Some(h) => parse_ratelimit_duration(h.as_slice()),
                None => None,
            };
            let hint = match first {
                Some(d) => Some(d),
                None => match &reset_tokens {
                    Some(h) => parse_ratelimit_duration(h.as_slice()),
                    None => None,
                },
            };
            match hint {
                Some(wait) => Outcome::Retry { wait },
                None => Outcome::Failure {
                    error: EmbeddingError::RateLimitExhausted { body },
                },
            }
        },
        ProviderReply::Other { status, body } => Outcome::Failure {
            error: EmbeddingError::Provider { status, message: body },
        },
        ProviderReply::TransportFailure { message } => Outcome::Failure {
            error: EmbeddingError::Transport { message },
        },
    }
}

/// A configured embedding model: which provider model to name in request
/// bodies, and how many dimensions its vectors have.
#[derive(Clone)]
pub struct EmbeddingModel {
    /// The provider-side model identifier sent with every request.
    pub model: String,
    ndims: usize,
}

impl EmbeddingModel {
    /// The vector dimensionality this model was configured with.
    pub closed spec fn spec_ndims(&self) -> usize {
        self.ndims
    }

    /// The model identifier this value was configured with.
    pub closed spec fn spec_model(&self) -> Seq<char> {
        self.model@
    }

    pub fn new(model: &str, ndims: usize) -> (r: Self)
        ensures
            r.spec_model() == model@,
            r.spec_ndims() == ndims,
    {
        EmbeddingModel { model: model.to_owned(), ndims }
    }

    pub fn ndims(&self) -> (r: usize)
        ensures
            r == self.spec_ndims(),
    {
        self.ndims
    }
}

} // verus!
