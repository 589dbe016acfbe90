//! Files, their metadata and their blocks.

use crate::helpers::{
    block_count, block_size, calculate_block_size, full_len, sha256, sha256_digest, trailing_len,
    DIGEST_LEN,
};
use crate::networking::PeerAddr;
use std::path::PathBuf;
use vstd::prelude::*;
use vstd::slice::{slice_subrange, slice_to_vec};

verus! {

/// A filesystem path. The library carries paths and never looks inside one.
#[verifier::external_type_specification]
#[verifier::external_body]
pub struct ExPathBuf(std::path::PathBuf);

/// What peers need to know of a file to fetch and check it.
#[derive(Debug)]
pub struct FileMetadata {
    /// SHA-256 of the full blocks taken together, and the SHA-256 of each
    /// full block.
    pub hash: (Vec<u8>, Vec<Vec<u8>>),
    /// Total size of the file in bytes.
    pub size: usize,
    /// The bytes after the last full block.
    pub trailing_bytes: Vec<u8>,
}

/// A list of byte strings as mathematical values.
pub open spec fn rows(list: Seq<Vec<u8>>) -> Seq<Seq<u8>> {
    Seq::new(list.len(), |i: int| list[i]@)
}

impl Clone for FileMetadata {
    fn clone(&self) -> (copy: FileMetadata)
        ensures
            copy@ == self@,
            copy.size == self.size,
    {
        let mut block_hashes: Vec<Vec<u8>> = Vec::new();
        let mut i: usize = 0;
        while i < self.hash.1.len()
            invariant
                i <= self.hash.1@.len(),
                block_hashes@.len() == i,
                forall|j: int| 0 <= j < i ==> (#[trigger] block_hashes@[j])@ == self.hash.1@[j]@,
            decreases self.hash.1.len() - i,
        {
            block_hashes.push(slice_to_vec(self.hash.1[i].as_slice()));
            i += 1;
        }
        let copy = FileMetadata {
            hash: (slice_to_vec(self.hash.0.as_slice()), block_hashes),
            size: self.size,
            trailing_bytes: slice_to_vec(self.trailing_bytes.as_slice()),
        };
        assert(copy@.block_hashes =~= self@.block_hashes);
        copy
    }
}

/// A file's metadata as mathematical values.
pub struct FileMetadataView {
    pub whole_hash: Seq<u8>,
    pub block_hashes: Seq<Seq<u8>>,
    pub size: nat,
    pub trailing_bytes: Seq<u8>,
}

impl View for FileMetadata {
    type V = FileMetadataView;

    open spec fn view(&self) -> FileMetadataView {
        FileMetadataView {
            whole_hash: self.hash.0@,
            block_hashes: rows(self.hash.1@),
            size: self.size as nat,
            trailing_bytes: self.trailing_bytes@,
        }
    }
}

impl FileMetadataView {
    /// The block hashes and the trailing bytes have the lengths that the size
    /// calls for.
    pub open spec fn has_geometry(self) -> bool {
        &&& self.block_hashes.len() == block_count(self.size)
        &&& self.trailing_bytes.len() == trailing_len(self.size)
    }

    /// Block `i` of `data`, for a file of this size.
    pub open spec fn block_of(self, data: Seq<u8>, i: int) -> Seq<u8> {
        data.subrange(i * block_size(self.size), (i + 1) * block_size(self.size))
    }

    /// This is the metadata of a file whose contents are `data`. The whole
    /// hash covers the full blocks only, not the trailing bytes.
    pub open spec fn describes(self, data: Seq<u8>) -> bool {
        &&& self.size == data.len()
        &&& self.has_geometry()
        &&& forall|i: int|
            0 <= i < self.block_hashes.len() ==> #[trigger] self.block_hashes[i] == sha256(
                self.block_of(data, i),
            )
        &&& self.whole_hash == sha256(data.subrange(0, full_len(self.size) as int))
        &&& self.trailing_bytes == data.subrange(full_len(self.size) as int, data.len() as int)
    }
}

/// Full blocks and trailing bytes of well-shaped metadata add up to the
/// file's size.
pub proof fn lemma_metadata_geometry(m: FileMetadataView)
    requires
        m.has_geometry(),
    ensures
        m.block_hashes.len() * block_size(m.size) + m.trailing_bytes.len() == m.size,
        m.block_hashes.len() * block_size(m.size) == full_len(m.size),
        m.trailing_bytes.len() < block_size(m.size),
{
    crate::helpers::lemma_block_geometry(m.size);
}

/// A file smaller than one block has no block hashes, and its trailing bytes
/// are the whole file.
pub proof fn lemma_small_file(m: FileMetadataView, data: Seq<u8>)
    requires
        m.describes(data),
        data.len() < block_size(data.len()),
    ensures
        m.block_hashes.len() == 0,
        m.trailing_bytes == data,
{
    let n = data.len();
    let b = block_size(n);
    assert(n / b == 0) by (nonlinear_arith)
        requires
            n < b,
    ;
    assert(data.subrange(0, n as int) =~= data);
}

/// A file whose size is a multiple of its block size has no trailing bytes.
pub proof fn lemma_whole_blocks(m: FileMetadataView)
    requires
        m.has_geometry(),
        m.size % block_size(m.size) == 0,
    ensures
        m.trailing_bytes.len() == 0,
{
}

/// A file is its full blocks, each at its offset, followed by its trailing
/// bytes: bytes of the file's length that hold every full block at the
/// block's offset and the trailing bytes after the last full block are the
/// file.
pub proof fn lemma_blocks_and_trailing_make_the_file(
    m: FileMetadataView,
    data: Seq<u8>,
    written: Seq<u8>,
)
    requires
        m.describes(data),
        written.len() == data.len(),
        forall|i: int|
            0 <= i < block_count(m.size) ==> #[trigger] m.block_of(written, i) == m.block_of(
                data,
                i,
            ),
        written.subrange(full_len(m.size) as int, written.len() as int) == m.trailing_bytes,
    ensures
        written == data,
{
    let n = m.size;
    let each = block_size(n);
    let full = full_len(n);
    crate::helpers::lemma_block_geometry(n);
    assert forall|p: int| 0 <= p < data.len() implies written[p] == data[p] by {
        if p < full {
            let i = p / each as int;
            assert(0 <= i < block_count(n) && i * each <= p < (i + 1) * each) by (nonlinear_arith)
                requires
                    0 <= p < block_count(n) * each,
                    each >= 1,
                    i == p / each as int,
            ;
            assert((i + 1) * each <= full) by (nonlinear_arith)
                requires
                    i < block_count(n),
                    full == block_count(n) * each,
            ;
            assert(m.block_of(written, i) == m.block_of(data, i));
            assert(m.block_of(written, i)[p - i * each] == written[p]);
            assert(m.block_of(data, i)[p - i * each] == data[p]);
        } else {
            let tail = written.subrange(full as int, written.len() as int);
            assert(tail[p - full] == written[p]);
            assert(data.subrange(full as int, data.len() as int)[p - full] == data[p]);
        }
    }
    assert(written =~= data);
}

/// A file that this node hosts or fetches.
pub struct File {
    pub metadata: FileMetadata,
    /// Block ids, each with the number of peers fetching that block from
    /// this node right now.
    pub blocks: Vec<(usize, usize)>,
    pub local_path: PathBuf,
}

/// A file being fetched, with the peers each block can be had from.
pub struct FileHandle {
    pub file: File,
    /// For each block, its sources, best first.
    pub sources: Vec<Vec<PeerAddr>>,
}

/// Where block `block_id` of a file of `size` bytes starts, if the file has
/// such a full block.
pub open spec fn block_start(size: nat, block_id: nat) -> Option<nat> {
    if block_id < block_count(size) {
        Some(block_id * block_size(size))
    } else {
        None
    }
}

/// A full block lies inside the file.
pub proof fn lemma_block_in_file(size: nat, block_id: nat)
    requires
        block_id < block_count(size),
    ensures
        block_id * block_size(size) + block_size(size) <= block_count(size) * block_size(size),
        block_count(size) * block_size(size) <= size,
{
    let b = block_size(size);
    let c = block_count(size);
    crate::helpers::lemma_block_geometry(size);
    assert(block_id * b + b <= c * b) by (nonlinear_arith)
        requires
            block_id < c,
    ;
}

/// The offset of block `block_id` in a file of `size` bytes, or `None` where
/// the file has no such full block.
pub fn block_offset(size: usize, block_id: usize) -> (offset: Option<usize>)
    ensures
        offset.is_some() == block_start(size as nat, block_id as nat).is_some(),
        offset matches Some(o) ==> block_start(size as nat, block_id as nat) == Some(o as nat),
{
    let each = calculate_block_size(size);
    if block_id < size / each {
        proof {
            lemma_block_in_file(size as nat, block_id as nat);
        }
        Some(block_id * each)
    } else {
        None
    }
}

impl File {
    /// Hands the file over for fetching, with no sources known yet.
    pub fn to_handle(self) -> (handle: FileHandle)
        ensures
            handle.file == self,
            handle.sources@.len() == 0,
    {
        FileHandle { file: self, sources: Vec::new() }
    }

    /// Describes a local file from its contents: hashes each full block and
    /// the full blocks together, keeps the trailing bytes, and lists every
    /// block as served to nobody.
    pub fn prepare(path: PathBuf, content: &[u8]) -> (file: File)
        ensures
            file.local_path == path,
            file.metadata@.describes(content@),
            file.metadata.hash.0@.len() == DIGEST_LEN,
            forall|i: int|
                0 <= i < file.metadata.hash.1@.len() ==> (#[trigger] file.metadata.hash.1@[i])@.len()
                    == DIGEST_LEN,
            file.blocks@ == Seq::new(
                block_count(content@.len()),
                |i: int| (i as usize, 0usize),
            ),
    {
        let size = content.len();
        let each = calculate_block_size(size);
        let count = size / each;
        proof {
            crate::helpers::lemma_block_geometry(size as nat);
        }
        let mut block_hashes: Vec<Vec<u8>> = Vec::new();
        let mut blocks: Vec<(usize, usize)> = Vec::new();
        let mut i: usize = 0;
        while i < count
            invariant
                i <= count,
                size == content@.len(),
                each == block_size(size as nat),
                count == block_count(size as nat),
                count * each <= size,
                block_hashes@.len() == i,
                blocks@.len() == i,
                forall|j: int|
                    0 <= j < i ==> (#[trigger] block_hashes@[j])@ == sha256(
                        content@.subrange(j * each, (j + 1) * each),
                    ),
                forall|j: int| 0 <= j < i ==> (#[trigger] block_hashes@[j])@.len() == DIGEST_LEN,
                forall|j: int| 0 <= j < i ==> #[trigger] blocks@[j] == (j as usize, 0usize),
            decreases count - i,
        {
            proof {
                lemma_block_in_file(size as nat, i as nat);
                assert((i + 1) * each == i * each + each) by (nonlinear_arith);
            }
            let start = i * each;
            let block = slice_subrange(content, start, start + each);
            block_hashes.push(sha256_digest(block));
            blocks.push((i, 0));
            i += 1;
        }
        let full = count * each;
        let whole_hash = sha256_digest(slice_subrange(content, 0, full));
        let trailing_bytes = slice_to_vec(slice_subrange(content, full, size));
        let file = File {
            metadata: FileMetadata { hash: (whole_hash, block_hashes), size, trailing_bytes },
            blocks,
            local_path: path,
        };
        proof {
            assert(file.blocks@ =~= Seq::new(
                block_count(content@.len()),
                |i: int| (i as usize, 0usize),
            ));
        }
        file
    }

    /// Block `block_id` of a file whose contents are `content`, or `None`
    /// where the contents hold no such full block.
    pub fn get_block(&self, content: &[u8], block_id: usize) -> (block: Option<Vec<u8>>)
        ensures
            block.is_some() == (block_id < block_count(content@.len())),
            block matches Some(bytes) ==> bytes@ == content@.subrange(
                block_id * block_size(content@.len()),
                (block_id + 1) * block_size(content@.len()),
            ),
    {
        let size = content.len();
        match block_offset(size, block_id) {
            Some(start) => {
                let each = calculate_block_size(size);
                proof {
                    lemma_block_in_file(size as nat, block_id as nat);
                    assert((block_id + 1) * each == block_id * each + each) by (nonlinear_arith);
                }
                Some(slice_to_vec(slice_subrange(content, start, start + each)))
            },
            None => None,
        }
    }
}

} // verus!
