//! The catalog of hosted files and its answers to discovery queries.

use crate::file::{block_offset, block_start, File};
use crate::helpers::{block_size, bytes_equal, calculate_block_size};
use crate::ranking::{
    lemma_stable_order_exists, reorder, stable_order, stable_order_of, SortKey,
};
use crate::wire::{
    bincode_block_list, bincode_block_request_from, bincode_metadata, decode_block_request,
    encode_block_list, encode_metadata, parse_query, FLAG_BLOCKS, FLAG_METADATA,
};
use vstd::prelude::*;

verus! {

/// Why a file was not taken into the catalog.
#[derive(Debug, Clone, Copy, PartialEq, Eq)]
pub enum CatalogError {
    /// The catalog already holds a file with the same whole hash.
    DuplicateHash,
}

/// The files that this node hosts, no two of them with the same whole hash.
pub struct Catalog {
    pub files: Vec<File>,
}

/// What the node sends in answer to one discovery query.
pub struct AnnounceReply {
    /// The availability reply, a datagram for the sender of the query;
    /// `None` where none is sent.
    pub availability: Option<Vec<u8>>,
    /// The metadata reply, to be written to a stream back to the sender of
    /// the query; `None` where none is sent.
    pub metadata: Option<Vec<u8>>,
}

/// What the block server makes of a block request.
#[derive(Debug, Clone, Copy, PartialEq, Eq)]
pub enum BlockLookup {
    /// The bytes are no block request.
    Malformed,
    /// No hosted file has the hash asked for.
    UnknownFile,
    /// The file has no full block with the id asked for.
    NoSuchBlock,
    /// The block is the `len` bytes from `offset` on of file `file` of the
    /// catalog.
    Found { file: usize, offset: usize, len: usize },
}

/// The whole hashes of a list of files.
pub open spec fn whole_hashes(files: Seq<File>) -> Seq<Seq<u8>> {
    Seq::new(files.len(), |i: int| files[i].metadata.hash.0@)
}

/// Some file of the list has whole hash `hash`.
pub open spec fn hosts(files: Seq<File>, hash: Seq<u8>) -> bool {
    exists|i: int| 0 <= i < files.len() && (#[trigger] files[i]).metadata.hash.0@ == hash
}

/// File `i` is the first of the list with whole hash `hash`.
pub open spec fn is_first_match(files: Seq<File>, hash: Seq<u8>, i: int) -> bool {
    &&& 0 <= i < files.len()
    &&& files[i].metadata.hash.0@ == hash
    &&& forall|j: int| 0 <= j < i ==> (#[trigger] files[j]).metadata.hash.0@ != hash
}

/// The place of the first file with whole hash `hash`.
pub open spec fn position_of(files: Seq<File>, hash: Seq<u8>) -> int {
    choose|i: int| is_first_match(files, hash, i)
}

/// The ids of a list of blocks.
pub open spec fn block_ids(blocks: Seq<(usize, usize)>) -> Seq<usize> {
    Seq::new(blocks.len(), |i: int| blocks[i].0)
}

/// The keys by which blocks are announced: the number of peers fetching the
/// block right now.
pub open spec fn load_keys(blocks: Seq<(usize, usize)>) -> Seq<SortKey> {
    Seq::new(blocks.len(), |i: int| (blocks[i].1 as u64, 0u128))
}

/// Blocks in announcement order: least busy first, equally busy blocks in
/// the order they had.
pub open spec fn by_load(blocks: Seq<(usize, usize)>) -> Seq<(usize, usize)> {
    reorder(blocks, stable_order_of(load_keys(blocks)))
}

/// Whether a datagram is a query that this list of files answers: it ends
/// in a known flag, and what comes before is the whole hash of a file.
pub open spec fn answers(files: Seq<File>, datagram: Seq<u8>) -> bool {
    &&& datagram.len() > 0
    &&& (datagram.last() == FLAG_BLOCKS || datagram.last() == FLAG_METADATA)
    &&& hosts(files, datagram.drop_last())
}

/// Orders blocks for an announcement.
pub fn order_by_load(blocks: &Vec<(usize, usize)>) -> (sorted: Vec<(usize, usize)>)
    ensures
        sorted@ == by_load(blocks@),
{
    let mut keys: Vec<SortKey> = Vec::new();
    let mut i: usize = 0;
    while i < blocks.len()
        invariant
            i <= blocks.len(),
            keys@.len() == i,
            forall|j: int| 0 <= j < i ==> #[trigger] keys@[j] == (blocks@[j].1 as u64, 0u128),
        decreases blocks.len() - i,
    {
        keys.push((blocks[i].1 as u64, 0));
        i += 1;
    }
    assert(keys@ =~= load_keys(blocks@));
    let order = stable_order(&keys);
    let mut sorted: Vec<(usize, usize)> = Vec::new();
    let mut j: usize = 0;
    while j < order.len()
        invariant
            j <= order.len(),
            order@.len() == blocks@.len(),
            forall|a: int| 0 <= a < order@.len() ==> (#[trigger] order@[a]) < blocks@.len(),
            sorted@.len() == j,
            forall|a: int| 0 <= a < j ==> #[trigger] sorted@[a] == blocks@[order@[a] as int],
        decreases order.len() - j,
    {
        sorted.push(blocks[order[j]]);
        j += 1;
    }
    assert(sorted@ =~= reorder(blocks@, order@));
    sorted
}

/// The ids of a list of blocks, in their order.
pub fn ids_of(blocks: &Vec<(usize, usize)>) -> (ids: Vec<usize>)
    ensures
        ids@ == block_ids(blocks@),
{
    let mut ids: Vec<usize> = Vec::new();
    let mut i: usize = 0;
    while i < blocks.len()
        invariant
            i <= blocks.len(),
            ids@.len() == i,
            forall|j: int| 0 <= j < i ==> #[trigger] ids@[j] == blocks@[j].0,
        decreases blocks.len() - i,
    {
        ids.push(blocks[i].0);
        i += 1;
    }
    assert(ids@ =~= block_ids(blocks@));
    ids
}

/// Announcement order keeps every block, and none of them is less busy than
/// the first.
pub proof fn lemma_first_is_least_busy(blocks: Seq<(usize, usize)>)
    requires
        blocks.len() <= usize::MAX,
    ensures
        by_load(blocks).len() == blocks.len(),
        forall|j: int| 0 <= j < blocks.len() ==> by_load(blocks)[0].1 <= (#[trigger] blocks[j]).1,
        forall|a: int, b: int|
            0 <= a <= b < blocks.len() ==> (#[trigger] by_load(blocks)[a]).1 <= (
            #[trigger] by_load(blocks)[b]).1,
{
    let keys = load_keys(blocks);
    let order = stable_order_of(keys);
    let sorted = by_load(blocks);
    lemma_stable_order_exists(keys);
    assert forall|a: int, b: int| 0 <= a <= b < blocks.len() implies (#[trigger] sorted[a]).1 <= (
    #[trigger] sorted[b]).1 by {
        if a < b {
            assert(crate::ranking::precedes(keys, order[a] as int, order[b] as int));
        }
    }
    assert forall|j: int| 0 <= j < blocks.len() implies sorted[0].1 <= (#[trigger] blocks[j]).1 by {
        assert(order.contains(j as usize));
        let a = choose|a: int| 0 <= a < order.len() && order[a] == j as usize;
        assert(sorted[a] == blocks[j]);
        assert(sorted[0].1 <= sorted[a].1);
    }
}

impl Catalog {
    /// No two files have the same whole hash.
    pub open spec fn well_formed(&self) -> bool {
        forall|i: int, j: int|
            0 <= i < j < self.files@.len() ==> (#[trigger] self.files@[i]).metadata.hash.0@ != (
            #[trigger] self.files@[j]).metadata.hash.0@
    }

    /// A catalog without files.
    pub fn new() -> (catalog: Catalog)
        ensures
            catalog.files@.len() == 0,
            catalog.well_formed(),
    {
        Catalog { files: Vec::new() }
    }

    /// Whether no two files have the same whole hash.
    pub fn is_well_formed(&self) -> (sound: bool)
        ensures
            sound == self.well_formed(),
    {
        let mut i: usize = 0;
        while i < self.files.len()
            invariant
                i <= self.files.len(),
                forall|a: int, b: int|
                    0 <= a < b < self.files@.len() && a < i ==> (
                    #[trigger] self.files@[a]).metadata.hash.0@ != (
                    #[trigger] self.files@[b]).metadata.hash.0@,
            decreases self.files.len() - i,
        {
            let mut j: usize = i + 1;
            while j < self.files.len()
                invariant
                    i < j <= self.files.len(),
                    forall|b: int|
                        i < b < j ==> self.files@[i as int].metadata.hash.0@ != (
                        #[trigger] self.files@[b]).metadata.hash.0@,
                decreases self.files.len() - j,
            {
                if bytes_equal(
                    self.files[i].metadata.hash.0.as_slice(),
                    self.files[j].metadata.hash.0.as_slice(),
                ) {
                    return false;
                }
                j += 1;
            }
            i += 1;
        }
        true
    }

    /// The place of the first file with whole hash `hash`, or `None` where
    /// the catalog holds no such file.
    pub fn find(&self, hash: &[u8]) -> (place: Option<usize>)
        ensures
            place.is_some() == hosts(self.files@, hash@),
            place matches Some(i) ==> is_first_match(self.files@, hash@, i as int) && i
                == position_of(self.files@, hash@),
    {
        let mut i: usize = 0;
        while i < self.files.len()
            invariant
                i <= self.files.len(),
                forall|j: int| 0 <= j < i ==> (#[trigger] self.files@[j]).metadata.hash.0@ != hash@,
            decreases self.files.len() - i,
        {
            if bytes_equal(self.files[i].metadata.hash.0.as_slice(), hash) {
                proof {
                    lemma_first_match_unique(
                        self.files@,
                        hash@,
                        i as int,
                        position_of(self.files@, hash@),
                    );
                }
                return Some(i);
            }
            i += 1;
        }
        None
    }

    /// Takes a file into the catalog, unless the catalog already holds one
    /// with the same whole hash: then the catalog stays as it is.
    pub fn insert(&mut self, file: File) -> (outcome: Result<(), CatalogError>)
        requires
            old(self).well_formed(),
        ensures
            final(self).well_formed(),
            outcome.is_err() == hosts(old(self).files@, file.metadata.hash.0@),
            outcome.is_ok() ==> final(self).files@ == old(self).files@.push(file),
            outcome.is_err() ==> final(self).files@ == old(self).files@,
    {
        match self.find(file.metadata.hash.0.as_slice()) {
            Some(_) => Err(CatalogError::DuplicateHash),
            None => {
                self.files.push(file);
                Ok(())
            },
        }
    }
}

/// At most one file is the first with a given whole hash.
pub proof fn lemma_first_match_unique(files: Seq<File>, hash: Seq<u8>, i: int, j: int)
    requires
        is_first_match(files, hash, i),
    ensures
        is_first_match(files, hash, j) ==> i == j,
        position_of(files, hash) == i,
{
    let k = position_of(files, hash);
    assert(is_first_match(files, hash, k));
}

/// What a query asks of the file it names: `blocks` for its available
/// blocks, `metadata` for its metadata.
pub open spec fn reply_to(file: File, flag: u8) -> (Option<Seq<u8>>, Option<Seq<u8>>) {
    (
        if file.blocks@.len() == 0 {
            None
        } else {
            bincode_block_list(block_ids(file.blocks@))
        },
        if flag == FLAG_METADATA {
            bincode_metadata(
                file.metadata@.whole_hash,
                file.metadata@.block_hashes,
                file.metadata.size,
                file.metadata@.trailing_bytes,
            )
        } else {
            None
        },
    )
}

/// The bytes of an optional payload.
pub open spec fn payload(bytes: Option<Vec<u8>>) -> Option<Seq<u8>> {
    match bytes {
        Some(b) => Some(b@),
        None => None,
    }
}

/// Answers one discovery query.
///
/// A datagram that is empty, ends in an unknown flag or names no hosted
/// file gets no reply and changes nothing. Otherwise the first file with
/// the hash asked for has its blocks put in announcement order, least busy
/// first, and the reply lists their ids, unless there are none. With the
/// metadata flag the reply carries the file's metadata too.
pub fn announce(catalog: &mut Catalog, datagram: &[u8]) -> (reply: AnnounceReply)
    ensures
        final(catalog).files@.len() == old(catalog).files@.len(),
        whole_hashes(final(catalog).files@) == whole_hashes(old(catalog).files@),
        old(catalog).well_formed() ==> final(catalog).well_formed(),
        !answers(old(catalog).files@, datagram@) ==> {
            &&& final(catalog).files@ == old(catalog).files@
            &&& reply.availability.is_none()
            &&& reply.metadata.is_none()
        },
        answers(old(catalog).files@, datagram@) ==> {
            let i = position_of(old(catalog).files@, datagram@.drop_last());
            let before = old(catalog).files@[i];
            let after = final(catalog).files@[i];
            &&& is_first_match(old(catalog).files@, datagram@.drop_last(), i)
            &&& forall|j: int|
                0 <= j < old(catalog).files@.len() && j != i ==> final(catalog).files@[j] == old(
                    catalog,
                ).files@[j]
            &&& after.metadata == before.metadata
            &&& after.local_path == before.local_path
            &&& after.blocks@ == by_load(before.blocks@)
            &&& before.blocks@.len() > 0 ==> forall|j: int|
                0 <= j < before.blocks@.len() ==> after.blocks@[0].1 <= (
                #[trigger] before.blocks@[j]).1
            &&& (payload(reply.availability), payload(reply.metadata)) == reply_to(
                after,
                datagram@.last(),
            )
        },
{
    let nothing = AnnounceReply { availability: None, metadata: None };
    let (hash, flag) = match parse_query(datagram) {
        Some(query) => query,
        None => {
            return nothing;
        },
    };
    if flag != FLAG_BLOCKS && flag != FLAG_METADATA {
        return nothing;
    }
    let place = match catalog.find(hash.as_slice()) {
        Some(place) => place,
        None => {
            return nothing;
        },
    };
    let ghost before = catalog.files@;
    let sorted = order_by_load(&catalog.files[place].blocks);
    proof {
        assert(before[place as int].blocks@.len() == before[place as int].blocks.len());
        lemma_first_is_least_busy(before[place as int].blocks@);
    }
    let file = &mut catalog.files[place];
    file.blocks = sorted;
    let ids = ids_of(&catalog.files[place].blocks);
    let availability = if ids.len() == 0 {
        None
    } else {
        encode_block_list(&ids)
    };
    let metadata = if flag == FLAG_METADATA {
        encode_metadata(&catalog.files[place].metadata)
    } else {
        None
    };
    proof {
        assert(whole_hashes(catalog.files@) =~= whole_hashes(before));
        if old(catalog).well_formed() {
            lemma_announce_keeps_catalog(*old(catalog), *catalog);
        }
    }
    AnnounceReply { availability, metadata }
}

/// A catalog stays free of duplicates through any query.
pub proof fn lemma_announce_keeps_catalog(before: Catalog, after: Catalog)
    requires
        before.well_formed(),
        whole_hashes(after.files@) == whole_hashes(before.files@),
    ensures
        after.well_formed(),
{
    assert(whole_hashes(after.files@).len() == after.files@.len());
    assert(whole_hashes(before.files@).len() == before.files@.len());
    assert forall|i: int, j: int| 0 <= i < j < after.files@.len() implies (
    #[trigger] after.files@[i]).metadata.hash.0@ != (#[trigger] after.files@[j]).metadata.hash.0@ by {
        assert(whole_hashes(after.files@)[i] == whole_hashes(before.files@)[i]);
        assert(whole_hashes(after.files@)[j] == whole_hashes(before.files@)[j]);
        assert(before.files@[i].metadata.hash.0@ != before.files@[j].metadata.hash.0@);
    }
}

/// What `locate_block` answers to a request that names `hash` and
/// `block_id`.
pub open spec fn lookup_of(files: Seq<File>, hash: Seq<u8>, block_id: usize) -> BlockLookup {
    if !hosts(files, hash) {
        BlockLookup::UnknownFile
    } else {
        let i = position_of(files, hash);
        let size = files[i].metadata.size as nat;
        match block_start(size, block_id as nat) {
            Some(offset) => BlockLookup::Found {
                file: i as usize,
                offset: offset as usize,
                len: block_size(size) as usize,
            },
            None => BlockLookup::NoSuchBlock,
        }
    }
}

/// Finds the block that a block request asks for: the bytes of one block
/// size, from the block's offset on, of the first hosted file with the hash
/// asked for.
pub fn locate_block(catalog: &Catalog, request: &[u8]) -> (lookup: BlockLookup)
    ensures
        lookup == (match bincode_block_request_from(request@) {
            Some((hash, block_id)) => if block_id <= usize::MAX {
                lookup_of(catalog.files@, hash, block_id as usize)
            } else {
                BlockLookup::Malformed
            },
            None => BlockLookup::Malformed,
        }),
{
    let (hash, block_id) = match decode_block_request(request) {
        Some(asked) => asked,
        None => {
            return BlockLookup::Malformed;
        },
    };
    let file = match catalog.find(hash.as_slice()) {
        Some(file) => file,
        None => {
            return BlockLookup::UnknownFile;
        },
    };
    let size = catalog.files[file].metadata.size;
    match block_offset(size, block_id) {
        Some(offset) => BlockLookup::Found { file, offset, len: calculate_block_size(size) },
        None => BlockLookup::NoSuchBlock,
    }
}

} // verus!
