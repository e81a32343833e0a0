//! The request dispatcher: routes one request's method, path and body to the
//! codecs and the storage port, and produces the response.

use vstd::prelude::*;

use crate::codec::{
    decode_one, encode_many, spec_decode_many, spec_decode_one, spec_encode_many,
    lemma_encode_decode_many, DecodeError,
};
use crate::outpoint::{parse_outpoint, spec_parse, Outpoint, ParseError};
use crate::storage::BifrostDatabase;

verus! {

/// The operation a request asks for, as the transport reports it: a read, a
/// write, or anything else.
#[derive(Clone, Copy, Debug, PartialEq, Eq, Structural)]
pub enum RequestMethod {
    /// Fetch all proofs stored for an outpoint.
    Get,
    /// Publish one proof for an outpoint.
    Post,
    /// Any unsupported method.
    Other,
}

/// Outcome of a request, for the transport to send back.
#[derive(Clone, Copy, Debug, PartialEq, Eq, Structural)]
pub enum Status {
    /// The request was served; a read's body holds the encoded collection.
    Success,
    /// The outpoint or the uploaded proof did not parse.
    BadRequest,
    /// The method is not supported.
    NotFound,
    /// The storage backend failed.
    InternalError,
}

/// A response: a status, and a body that is empty except for a successful
/// read.
pub struct HttpResponse {
    pub status: Status,
    pub body: Vec<u8>,
}

/// The exchange server: the dispatcher around one storage backend, held for
/// the server's lifetime.
pub struct RGBServer<D: BifrostDatabase> {
    pub database: D,
}

impl<D: BifrostDatabase> RGBServer<D> {
    /// A server over the given storage backend.
    pub fn new(database: D) -> (r: RGBServer<D>)
        ensures
            r.database == database,
    {
        RGBServer { database }
    }

    /// Parse the outpoint a request path names.
    fn get_outpoint(&self, path: &[u8]) -> (r: Result<Outpoint, ParseError>)
        ensures
            match r {
                Ok(o) => o.wf() && spec_parse(path@) == Ok::<
                    crate::outpoint::OutpointView,
                    ParseError,
                >(o@),
                Err(e) => spec_parse(path@) == Err::<crate::outpoint::OutpointView, ParseError>(e),
            },
    {
        parse_outpoint(path)
    }

    /// Handle one request: parse the outpoint from the path, then serve a
    /// read by fetching and encoding the stored collection, or a write by
    /// decoding the body and saving the proof under the outpoint's
    /// transaction hash.
    ///
    /// Every parse or decode failure is rejected per-request with a client
    /// error before any storage access; an unsupported method is rejected
    /// without ever invoking the storage port; only a storage failure
    /// surfaces as an internal error.
    pub fn handle(&mut self, method: RequestMethod, path: &[u8], body: &[u8]) -> (r: HttpResponse)
        ensures
            match method {
                RequestMethod::Other => {
                    &&& r.status is NotFound
                    &&& r.body@.len() == 0
                    &&& final(self).database == old(self).database
                },
                RequestMethod::Get => match spec_parse(path@) {
                    Err(e) => {
                        &&& r.status is BadRequest
                        &&& r.body@.len() == 0
                        &&& final(self).database == old(self).database
                    },
                    Ok(o) => {
                        &&& final(self).database == old(self).database
                        &&& (r.status is Success || r.status is InternalError)
                        &&& r.status is Success ==> r.body@ == spec_encode_many(
                            old(self).database.proofs_for_spec(o.txid))
                        &&& r.status is InternalError ==> r.body@.len() == 0
                    },
                },
                RequestMethod::Post => match spec_parse(path@) {
                    Err(e) => {
                        &&& r.status is BadRequest
                        &&& r.body@.len() == 0
                        &&& final(self).database == old(self).database
                    },
                    Ok(o) => match spec_decode_one(body@) {
                        Err(e) => {
                            &&& r.status is BadRequest
                            &&& r.body@.len() == 0
                            &&& final(self).database == old(self).database
                        },
                        Ok(p) => {
                            &&& r.body@.len() == 0
                            &&& (r.status is Success || r.status is InternalError)
                            &&& r.status is Success ==> {
                                &&& final(self).database.proofs_for_spec(o.txid)
                                    == old(self).database.proofs_for_spec(o.txid).push(p)
                                &&& forall|t: Seq<u8>|
                                    t != o.txid
                                        ==> #[trigger] final(self).database.proofs_for_spec(t)
                                        == old(self).database.proofs_for_spec(t)
                            }
                        },
                    },
                },
            },
    {
        match method {
            RequestMethod::Get => {
                let outpoint = match self.get_outpoint(path) {
                    Err(_) => {
                        return HttpResponse { status: Status::BadRequest, body: Vec::new() };
                    },
                    Ok(o) => o,
                };
                match self.database.get_proofs_for(&outpoint) {
                    Err(_) => HttpResponse { status: Status::InternalError, body: Vec::new() },
                    Ok(proofs) => {
                        let encoded = encode_many(&proofs);
                        HttpResponse { status: Status::Success, body: encoded }
                    },
                }
            },
            RequestMethod::Post => {
                let outpoint = match self.get_outpoint(path) {
                    Err(_) => {
                        return HttpResponse { status: Status::BadRequest, body: Vec::new() };
                    },
                    Ok(o) => o,
                };
                let decoded = match decode_one(body) {
                    Err(_) => {
                        return HttpResponse { status: Status::BadRequest, body: Vec::new() };
                    },
                    Ok(p) => p,
                };
                match self.database.save_proof(&decoded, outpoint.txid.as_slice()) {
                    Err(_) => HttpResponse { status: Status::InternalError, body: Vec::new() },
                    Ok(_) => HttpResponse { status: Status::Success, body: Vec::new() },
                }
            },
            RequestMethod::Other => HttpResponse { status: Status::NotFound, body: Vec::new() },
        }
    }
}

/// A write then a read for the same outpoint: once a save of `p` under `txid`
/// has taken the port from `pre` to `post`, the body a read then returns —
/// the encoding of `post`'s collection — decodes back to that collection,
/// and the collection contains `p`: the written proof is visible, not lost.
pub proof fn lemma_write_then_read_visible<D: BifrostDatabase>(
    pre: D,
    post: D,
    txid: Seq<u8>,
    p: Seq<u8>,
)
    requires
        post.proofs_for_spec(txid) == pre.proofs_for_spec(txid).push(p),
        post.proofs_for_spec(txid).len() <= u64::MAX,
        forall|i: int|
            0 <= i < post.proofs_for_spec(txid).len() ==> (#[trigger] post.proofs_for_spec(
                txid,
            )[i]).len() <= u64::MAX,
    ensures
        spec_decode_many(spec_encode_many(post.proofs_for_spec(txid))) == Ok::<
            Seq<Seq<u8>>,
            DecodeError,
        >(post.proofs_for_spec(txid)),
        post.proofs_for_spec(txid).contains(p),
{
    let s = post.proofs_for_spec(txid);
    lemma_encode_decode_many(s);
    assert(s[s.len() - 1] == p);
    assert(s.contains(p));
}

/// Two writes for the same outpoint, applied by the port one after the other
/// in whichever order it serializes them, are both present in the collection
/// a later read sees: neither write is silently lost. (The interleaving of
/// concurrent requests itself is the port's concern, outside this module.)
pub proof fn lemma_two_writes_both_visible(before: Seq<Seq<u8>>, p1: Seq<u8>, p2: Seq<u8>)
    ensures
        before.push(p1).push(p2).contains(p1),
        before.push(p1).push(p2).contains(p2),
{
    let s = before.push(p1).push(p2);
    assert(s[before.len() as int] == p1);
    assert(s[s.len() - 1] == p2);
    assert(s.contains(p1));
    assert(s.contains(p2));
}

} // verus!
