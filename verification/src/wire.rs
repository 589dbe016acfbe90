//! The payloads that nodes exchange.
//!
//! A discovery query is the wanted hash followed by one flag byte. Block
//! lists, block requests and metadata travel in bincode's fixed-width
//! little-endian encoding.

use crate::file::{rows, FileMetadata};
use vstd::prelude::*;
use vstd::slice::{slice_subrange, slice_to_vec};

verus! {

/// Flag of a discovery query that asks for the available blocks only.
pub const FLAG_BLOCKS: u8 = 0;

/// Flag of a discovery query that asks for the metadata too.
pub const FLAG_METADATA: u8 = 1;

/// What `bincode::serialize` makes of a list of block ids, `None` where it
/// reports an error.
pub uninterp spec fn bincode_block_list(ids: Seq<usize>) -> Option<Seq<u8>>;

/// What `bincode::deserialize` reads as a list of 64-bit block ids, `None`
/// where it reports an error.
pub uninterp spec fn bincode_block_list_from(bytes: Seq<u8>) -> Option<Seq<u64>>;

/// What `bincode::serialize` makes of a hash and a block id, `None` where it
/// reports an error.
pub uninterp spec fn bincode_block_request(hash: Seq<u8>, block_id: usize) -> Option<Seq<u8>>;

/// What `bincode::deserialize` reads as a hash and a 64-bit block id, `None`
/// where it reports an error.
pub uninterp spec fn bincode_block_request_from(bytes: Seq<u8>) -> Option<(Seq<u8>, u64)>;

/// What `bincode::serialize` makes of a file's whole hash and block hashes,
/// its size and its trailing bytes, `None` where it reports an error.
pub uninterp spec fn bincode_metadata(
    whole_hash: Seq<u8>,
    block_hashes: Seq<Seq<u8>>,
    size: usize,
    trailing_bytes: Seq<u8>,
) -> Option<Seq<u8>>;

/// What `bincode::deserialize` reads as a whole hash and block hashes, a
/// 64-bit size and trailing bytes, `None` where it reports an error.
pub uninterp spec fn bincode_metadata_from(bytes: Seq<u8>) -> Option<
    (Seq<u8>, Seq<Seq<u8>>, u64, Seq<u8>),
>;

/// Calls `bincode::serialize` on a list of block ids. Trusted: the outcome
/// depends on the ids alone.
#[verifier::external_body]
fn serialize_block_list(ids: &Vec<usize>) -> (bytes: Option<Vec<u8>>)
    ensures
        bytes.is_some() == bincode_block_list(ids@).is_some(),
        bytes matches Some(b) ==> bincode_block_list(ids@) == Some(b@),
{
    bincode::serialize(ids).ok()
}

/// Calls `bincode::deserialize` for a list of 64-bit block ids. Trusted: the
/// outcome depends on the bytes alone.
#[verifier::external_body]
fn deserialize_block_list(bytes: &[u8]) -> (ids: Option<Vec<u64>>)
    ensures
        ids.is_some() == bincode_block_list_from(bytes@).is_some(),
        ids matches Some(list) ==> bincode_block_list_from(bytes@) == Some(list@),
{
    bincode::deserialize::<Vec<u64>>(bytes).ok()
}

/// Calls `bincode::serialize` on a pair of hash and block id. Trusted: the
/// outcome depends on the two alone.
#[verifier::external_body]
fn serialize_block_request(hash: &Vec<u8>, block_id: usize) -> (bytes: Option<Vec<u8>>)
    ensures
        bytes.is_some() == bincode_block_request(hash@, block_id).is_some(),
        bytes matches Some(b) ==> bincode_block_request(hash@, block_id) == Some(b@),
{
    bincode::serialize(&(hash, block_id)).ok()
}

/// Calls `bincode::deserialize` for a pair of hash and 64-bit block id.
/// Trusted: the outcome depends on the bytes alone.
#[verifier::external_body]
fn deserialize_block_request(bytes: &[u8]) -> (request: Option<(Vec<u8>, u64)>)
    ensures
        request.is_some() == bincode_block_request_from(bytes@).is_some(),
        request matches Some(r) ==> bincode_block_request_from(bytes@) == Some((r.0@, r.1)),
{
    bincode::deserialize::<(Vec<u8>, u64)>(bytes).ok()
}

/// Calls `bincode::serialize` on the fields of a file's metadata, in their
/// order. Trusted: the outcome depends on the fields alone.
#[verifier::external_body]
fn serialize_metadata(metadata: &FileMetadata) -> (bytes: Option<Vec<u8>>)
    ensures
        bytes.is_some() == bincode_metadata(
            metadata.hash.0@,
            rows(metadata.hash.1@),
            metadata.size,
            metadata.trailing_bytes@,
        ).is_some(),
        bytes matches Some(b) ==> bincode_metadata(
            metadata.hash.0@,
            rows(metadata.hash.1@),
            metadata.size,
            metadata.trailing_bytes@,
        ) == Some(b@),
{
    bincode::serialize(&(&metadata.hash, metadata.size, &metadata.trailing_bytes)).ok()
}

/// Calls `bincode::deserialize` for the fields of a file's metadata, the
/// size as a 64-bit number. Trusted: the outcome depends on the bytes alone.
#[verifier::external_body]
fn deserialize_metadata(bytes: &[u8]) -> (fields: Option<((Vec<u8>, Vec<Vec<u8>>), u64, Vec<u8>)>)
    ensures
        fields.is_some() == bincode_metadata_from(bytes@).is_some(),
        fields matches Some(f) ==> bincode_metadata_from(bytes@) == Some(
            (f.0.0@, rows(f.0.1@), f.1, f.2@),
        ),
{
    bincode::deserialize::<((Vec<u8>, Vec<Vec<u8>>), u64, Vec<u8>)>(bytes).ok()
}

/// The ids of a list read off the wire, as this machine's indices.
pub open spec fn ids_of_wire(ids: Seq<u64>) -> Seq<usize> {
    Seq::new(ids.len(), |i: int| ids[i] as usize)
}

/// Every id of a list read off the wire is an index on this machine.
pub open spec fn ids_fit(ids: Seq<u64>) -> bool {
    forall|i: int| 0 <= i < ids.len() ==> (#[trigger] ids[i]) <= usize::MAX
}

/// Block ids read off the wire as indices, or `None` where one of them is no
/// index on this machine.
pub fn block_ids_from_wire(ids: &Vec<u64>) -> (list: Option<Vec<usize>>)
    ensures
        list.is_some() == ids_fit(ids@),
        list matches Some(l) ==> l@ == ids_of_wire(ids@),
{
    let mut list: Vec<usize> = Vec::new();
    let mut i: usize = 0;
    while i < ids.len()
        invariant
            i <= ids.len(),
            list@.len() == i,
            forall|j: int| 0 <= j < i ==> (#[trigger] ids[j]) <= usize::MAX,
            forall|j: int| 0 <= j < i ==> #[trigger] list@[j] == ids[j] as usize,
        decreases ids.len() - i,
    {
        let id: u64 = ids[i];
        if id > usize::MAX as u64 {
            return None;
        }
        list.push(id as usize);
        i += 1;
    }
    assert(list@ =~= ids_of_wire(ids@));
    Some(list)
}

/// The availability reply that lists `ids`, or `None` where the serializer
/// refuses them.
pub fn encode_block_list(ids: &Vec<usize>) -> (bytes: Option<Vec<u8>>)
    ensures
        bytes.is_some() == bincode_block_list(ids@).is_some(),
        bytes matches Some(b) ==> bincode_block_list(ids@) == Some(b@),
{
    serialize_block_list(ids)
}

/// The block ids of an availability reply, or `None` where the bytes are no
/// such reply.
pub fn decode_block_list(bytes: &[u8]) -> (ids: Option<Vec<usize>>)
    ensures
        ids.is_some() == (bincode_block_list_from(bytes@) matches Some(list) && ids_fit(list)),
        ids matches Some(l) ==> l@ == ids_of_wire(bincode_block_list_from(bytes@).unwrap()),
{
    match deserialize_block_list(bytes) {
        Some(list) => block_ids_from_wire(&list),
        None => None,
    }
}

/// The request for block `block_id` of the file with hash `hash`, or `None`
/// where the serializer refuses it.
pub fn encode_block_request(hash: &Vec<u8>, block_id: usize) -> (bytes: Option<Vec<u8>>)
    ensures
        bytes.is_some() == bincode_block_request(hash@, block_id).is_some(),
        bytes matches Some(b) ==> bincode_block_request(hash@, block_id) == Some(b@),
{
    serialize_block_request(hash, block_id)
}

/// A block request as read off the wire, with its id as an index, or `None`
/// where the id is no index on this machine.
pub fn block_request_from_wire(hash: Vec<u8>, block_id: u64) -> (request: Option<(Vec<u8>, usize)>)
    ensures
        request.is_some() == (block_id <= usize::MAX),
        request matches Some(r) ==> r.0 == hash && r.1 == block_id,
{
    if block_id > usize::MAX as u64 {
        None
    } else {
        Some((hash, block_id as usize))
    }
}

/// The hash and block id of a block request, or `None` where the bytes are
/// no such request.
pub fn decode_block_request(bytes: &[u8]) -> (request: Option<(Vec<u8>, usize)>)
    ensures
        request.is_some() == (bincode_block_request_from(bytes@) matches Some(r) && r.1
            <= usize::MAX),
        request matches Some(r) ==> bincode_block_request_from(bytes@) == Some((r.0@, r.1 as u64)),
{
    match deserialize_block_request(bytes) {
        Some((hash, block_id)) => block_request_from_wire(hash, block_id),
        None => None,
    }
}

/// The metadata reply for `metadata`, or `None` where the serializer
/// refuses it.
pub fn encode_metadata(metadata: &FileMetadata) -> (bytes: Option<Vec<u8>>)
    ensures
        bytes.is_some() == bincode_metadata(
            metadata@.whole_hash,
            metadata@.block_hashes,
            metadata.size,
            metadata@.trailing_bytes,
        ).is_some(),
        bytes matches Some(b) ==> bincode_metadata(
            metadata@.whole_hash,
            metadata@.block_hashes,
            metadata.size,
            metadata@.trailing_bytes,
        ) == Some(b@),
{
    serialize_metadata(metadata)
}

/// Metadata from its fields as read off the wire, or `None` where the size
/// is no size on this machine.
pub fn metadata_from_wire(
    whole_hash: Vec<u8>,
    block_hashes: Vec<Vec<u8>>,
    size: u64,
    trailing_bytes: Vec<u8>,
) -> (metadata: Option<FileMetadata>)
    ensures
        metadata.is_some() == (size <= usize::MAX),
        metadata matches Some(m) ==> m.hash.0 == whole_hash && m.hash.1 == block_hashes && m.size
            == size && m.trailing_bytes == trailing_bytes,
{
    if size > usize::MAX as u64 {
        None
    } else {
        Some(FileMetadata { hash: (whole_hash, block_hashes), size: size as usize, trailing_bytes })
    }
}

/// The metadata of a metadata reply, or `None` where the bytes are no such
/// reply.
pub fn decode_metadata(bytes: &[u8]) -> (metadata: Option<FileMetadata>)
    ensures
        metadata.is_some() == (bincode_metadata_from(bytes@) matches Some(f) && f.2 <= usize::MAX),
        metadata matches Some(m) ==> bincode_metadata_from(bytes@) == Some(
            (m@.whole_hash, m@.block_hashes, m.size as u64, m@.trailing_bytes),
        ),
{
    match deserialize_metadata(bytes) {
        Some(((whole_hash, block_hashes), size, trailing_bytes)) => metadata_from_wire(
            whole_hash,
            block_hashes,
            size,
            trailing_bytes,
        ),
        None => None,
    }
}

/// The bytes of a discovery query: the hash, then the flag.
pub open spec fn query_bytes(hash: Seq<u8>, want_metadata: bool) -> Seq<u8> {
    hash.push(if want_metadata { FLAG_METADATA } else { FLAG_BLOCKS })
}

/// The discovery query for the file with hash `hash`.
pub fn discovery_query(hash: &Vec<u8>, want_metadata: bool) -> (datagram: Vec<u8>)
    ensures
        datagram@ == query_bytes(hash@, want_metadata),
{
    let mut datagram = slice_to_vec(hash.as_slice());
    datagram.push(if want_metadata { FLAG_METADATA } else { FLAG_BLOCKS });
    datagram
}

/// Splits a discovery query into the hash asked for and the flag: the last
/// byte is the flag, what comes before it the hash. An empty datagram is no
/// query.
pub fn parse_query(datagram: &[u8]) -> (query: Option<(Vec<u8>, u8)>)
    ensures
        query.is_some() == (datagram@.len() > 0),
        query matches Some(q) ==> q.0@ == datagram@.drop_last() && q.1 == datagram@.last(),
{
    let len = datagram.len();
    if len == 0 {
        None
    } else {
        let hash = slice_to_vec(slice_subrange(datagram, 0, len - 1));
        Some((hash, datagram[len - 1]))
    }
}

/// Building a query and splitting it again gives back the hash and the flag.
pub proof fn lemma_query_roundtrip(hash: Seq<u8>, want_metadata: bool)
    ensures
        query_bytes(hash, want_metadata).len() > 0,
        query_bytes(hash, want_metadata).drop_last() == hash,
        query_bytes(hash, want_metadata).last() == (if want_metadata {
            FLAG_METADATA
        } else {
            FLAG_BLOCKS
        }),
{
    assert(query_bytes(hash, want_metadata).drop_last() =~= hash);
}

} // verus!
