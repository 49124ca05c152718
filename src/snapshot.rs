//! Feeds, and the snapshot that one successful poll of a feed yields.
use vstd::prelude::*;
use crate::datetime::Timestamp;
use crate::decode::batch_of;
use crate::error::DecodeError;
use crate::msg::{Batch, BatchView};
use crate::text::bytes_eq;
use vstd::string::StringSliceAdditionalSpecFns;

verus! {

/// The 128-bit MetroHash (seed 0) of a byte string, as its high and low halves.
pub uninterp spec fn metrohash128_of(b: Seq<u8>) -> (u64, u64);

/// Relies on metrohash's `MetroHash128`: a hasher made with `new` (seed 0), fed the bytes
/// with `Hasher::write`, then read with `finish128`. The result depends on the bytes alone.
#[verifier::external_body]
fn metrohash128(b: &[u8]) -> (r: (u64, u64))
    ensures
        r == metrohash128_of(b@),
{
    let mut h = metrohash::MetroHash128::new();
    std::hash::Hasher::write(&mut h, b);
    h.finish128()
}

/// The 128-bit number whose high and low halves are `hi` and `lo`.
pub open spec fn join_halves(hi: u64, lo: u64) -> u128 {
    (hi as int * 0x1_0000_0000_0000_0000 + lo as int) as u128
}

pub open spec fn content_hash_of(b: Seq<u8>) -> u128 {
    join_halves(metrohash128_of(b).0, metrohash128_of(b).1)
}

/// Joins the halves of a 128-bit hash, high half first.
pub fn hash_from_halves(hi: u64, lo: u64) -> (r: u128)
    ensures
        r == join_halves(hi, lo),
        r as int == hi as int * 0x1_0000_0000_0000_0000 + lo as int,
{
    assert(hi as int * 0x1_0000_0000_0000_0000 + lo as int <= u128::MAX) by (nonlinear_arith)
        requires
            hi <= u64::MAX,
            lo <= u64::MAX,
    {
    }
    hi as u128 * 0x1_0000_0000_0000_0000 + lo as u128
}

/// The duplicate-detection hash of a payload.
pub fn content_hash(b: &[u8]) -> (r: u128)
    ensures
        r == content_hash_of(b@),
{
    let (hi, lo) = metrohash128(b);
    hash_from_halves(hi, lo)
}

/// Payloads with the same bytes have the same content hash.
pub proof fn lemma_same_bytes_same_hash(a: Seq<u8>, b: Seq<u8>)
    requires
        a == b,
    ensures
        content_hash_of(a) == content_hash_of(b),
{
}

/// A polled data source: a short label and the address it is fetched from.
#[derive(Debug, Clone)]
pub struct Feed {
    label: String,
    url: String,
}

pub const FEED_BASE_URL: &'static str = "https://api-endpoint.mta.info/Dataservice/mtagtfsfeeds/nyct%2Fgtfs";

/// The feed labels the registry knows.
pub open spec fn is_known_feed(f: Seq<u8>) -> bool {
    ||| f == "1234567".spec_bytes()
    ||| f == "ace".spec_bytes()
    ||| f == "bdfm".spec_bytes()
    ||| f == "g".spec_bytes()
    ||| f == "jz".spec_bytes()
    ||| f == "nqrw".spec_bytes()
    ||| f == "l".spec_bytes()
    ||| f == "si".spec_bytes()
}

/// The address of a known feed: the base address, followed for every feed but `1234567`
/// by a dash and the label.
pub open spec fn feed_url(f: Seq<char>) -> Seq<char> {
    if f == "1234567"@ {
        FEED_BASE_URL@
    } else {
        FEED_BASE_URL@ + "-"@ + f
    }
}

impl Feed {
    pub fn new(label: &str, url: &str) -> (r: Feed)
        ensures
            r.name_spec() == label@,
            r.url_spec() == url@,
    {
        Feed { label: label.to_owned(), url: url.to_owned() }
    }

    pub closed spec fn name_spec(&self) -> Seq<char> {
        self.label@
    }

    pub closed spec fn url_spec(&self) -> Seq<char> {
        self.url@
    }

    pub fn url(&self) -> (r: &str)
        ensures
            r@ == self.url_spec(),
    {
        self.url.as_str()
    }

    pub fn name(&self) -> (r: &str)
        ensures
            r@ == self.name_spec(),
    {
        self.label.as_str()
    }

    /// Whether the registry knows the feed labelled `f`.
    pub fn is_known(f: &str) -> (r: bool)
        ensures
            r == is_known_feed(f.spec_bytes()),
    {
        let b = f.as_bytes();
        bytes_eq(b, "1234567".as_bytes()) || bytes_eq(b, "ace".as_bytes()) || bytes_eq(
            b,
            "bdfm".as_bytes(),
        ) || bytes_eq(b, "g".as_bytes()) || bytes_eq(b, "jz".as_bytes()) || bytes_eq(
            b,
            "nqrw".as_bytes(),
        ) || bytes_eq(b, "l".as_bytes()) || bytes_eq(b, "si".as_bytes())
    }

    /// The registry's feed labelled `f`.
    pub fn from_static(f: &str) -> (r: Feed)
        requires
            is_known_feed(f.spec_bytes()),
        ensures
            r.name_spec() == f@,
            r.url_spec() == feed_url(f@),
    {
        let mut url = <String as vstd::string::StringExecFns>::from_str(FEED_BASE_URL);
        if bytes_eq(f.as_bytes(), "1234567".as_bytes()) {
            proof {
                reveal_strlit("1234567");
                assert(f@ == "1234567"@) by {
                    vstd::utf8::encode_utf8_decode_utf8(f@);
                    vstd::utf8::encode_utf8_decode_utf8("1234567"@);
                }
            }
        } else {
            proof {
                assert(f@ != "1234567"@);
            }
            url.append("-");
            url.append(f);
        }
        Feed { label: f.to_owned(), url }
    }
}

/// One successful poll: when it was asked for and answered, the feed, the decoded batch,
/// and the payload's length and content hash.
#[derive(Debug)]
pub struct Response {
    pub t_req: Timestamp,
    pub t_rsp: Timestamp,
    pub feed: Feed,
    pub data: Batch,
    pub hash: u128,
    pub length: usize,
}

impl Response {
    pub fn new(msgs: Batch, feed: Feed, data: &[u8], t_req: Timestamp, t_rsp: Timestamp) -> (r: Response)
        ensures
            r.data@ == msgs@,
            r.feed == feed,
            r.length == data@.len(),
            r.hash == content_hash_of(data@),
            r.t_req == t_req,
            r.t_rsp == t_rsp,
    {
        let hash = content_hash(data);
        Response { feed, t_req, t_rsp, data: msgs, length: data.len(), hash }
    }

    /// Decodes a fetched payload into a snapshot; a payload that does not decode yields
    /// the decoding error instead.
    pub fn from_payload(feed: Feed, data: &[u8], t_req: Timestamp, t_rsp: Timestamp) -> (r: Result<Response, DecodeError>)
        ensures
            r matches Ok(x) ==> batch_of(data@) == Ok::<BatchView, DecodeError>(x.data@)
                && x.hash == content_hash_of(data@) && x.length == data@.len() && x.feed == feed
                && x.t_req == t_req && x.t_rsp == t_rsp,
            r matches Err(e) ==> batch_of(data@) == Err::<BatchView, DecodeError>(e),
    {
        match Batch::parse(data) {
            Ok(batch) => Ok(Response::new(batch, feed, data, t_req, t_rsp)),
            Err(e) => Err(e),
        }
    }
}

} // verus!
