//! The requesting side: what peers announce, where each block can be had,
//! in which order blocks are fetched, and the download itself.

use crate::file::{block_offset, block_start, File, FileHandle, FileMetadata};
use crate::helpers::{
    block_count, bytes_equal, calculate_block_size, full_len, sha256, sha256_digest,
};
use crate::networking::PeerAddr;
use crate::ranking::{
    is_stable_order, key_lt, lemma_stable_order_exists, stable_order, stable_order_of, SortKey,
};
use crate::wire::{bincode_block_list_from, decode_block_list, ids_fit, ids_of_wire};
use std::path::PathBuf;
use vstd::prelude::*;

verus! {

/// What one peer announced: its blocks in the order it prefers to serve
/// them, and how long it took to answer a ping, if it did.
pub struct PeerBlocks {
    pub peer: PeerAddr,
    /// Round-trip time of a ping in microseconds; `None` where it is unknown.
    pub latency: Option<u64>,
    pub blocks: Vec<usize>,
}

/// What the peers announced for one file, each peer once, in the order in
/// which they were first heard.
pub struct PeerBlockView {
    pub peers: Vec<PeerBlocks>,
}

/// The addresses of a list of peers.
pub open spec fn addresses(peers: Seq<PeerBlocks>) -> Seq<PeerAddr> {
    Seq::new(peers.len(), |i: int| peers[i].peer)
}

/// A latency as a number to order by: an unknown latency comes after every
/// known one.
pub open spec fn latency_key(latency: Option<u64>) -> u128 {
    match latency {
        Some(micros) => micros as u128,
        None => (u64::MAX as u128 + 1) as u128,
    }
}

/// `rank` is the place at which `block` first stands in `blocks`.
pub open spec fn is_rank(blocks: Seq<usize>, block: usize, rank: int) -> bool {
    &&& 0 <= rank < blocks.len()
    &&& blocks[rank] == block
    &&& forall|j: int| 0 <= j < rank ==> blocks[j] != block
}

/// The rank that a peer gave a block: the place at which the block first
/// stands in the peer's list.
pub open spec fn rank_of(blocks: Seq<usize>, block: usize) -> int {
    choose|rank: int| is_rank(blocks, block, rank)
}

/// `rank` is the rank that a peer gave a block, or `None` and the peer did
/// not announce the block.
pub open spec fn ranks_block(blocks: Seq<usize>, block: usize, rank: Option<usize>) -> bool {
    match rank {
        Some(r) => is_rank(blocks, block, r as int) && r == rank_of(blocks, block),
        None => !blocks.contains(block),
    }
}

/// A block has only one rank in a list.
pub proof fn lemma_rank_unique(blocks: Seq<usize>, block: usize, rank: int)
    requires
        is_rank(blocks, block, rank),
    ensures
        rank_of(blocks, block) == rank,
{
    let r = rank_of(blocks, block);
    assert(is_rank(blocks, block, r));
}

/// The places, among the first `upto` peers, of those that announced
/// `block`, in ascending order.
pub open spec fn announcers(peers: Seq<PeerBlocks>, block: usize, upto: nat) -> Seq<usize>
    decreases upto,
{
    if upto == 0 {
        Seq::<usize>::empty()
    } else {
        let rest = announcers(peers, block, (upto - 1) as nat);
        if peers[upto - 1].blocks@.contains(block) {
            rest.push((upto - 1) as usize)
        } else {
            rest
        }
    }
}

/// The key by which a peer is ranked as a source of `block`: the rank it
/// gave the block, then its latency.
pub open spec fn source_key(peer: PeerBlocks, block: usize) -> SortKey {
    (rank_of(peer.blocks@, block) as u64, latency_key(peer.latency))
}

/// The keys of the peers at `places`.
pub open spec fn source_keys(peers: Seq<PeerBlocks>, block: usize, places: Seq<usize>) -> Seq<
    SortKey,
> {
    Seq::new(places.len(), |c: int| source_key(peers[places[c] as int], block))
}

/// The places of the peers that announced `block`, best source first: by
/// the rank the peer gave the block, then by latency, then in the order in
/// which the peers were first heard.
pub open spec fn source_places(peers: Seq<PeerBlocks>, block: usize) -> Seq<usize> {
    let places = announcers(peers, block, peers.len());
    let order = stable_order_of(source_keys(peers, block, places));
    Seq::new(order.len(), |j: int| places[order[j] as int])
}

/// The addresses of the peers that announced `block`, best source first.
pub open spec fn sources_of(peers: Seq<PeerBlocks>, block: usize) -> Seq<PeerAddr> {
    let places = source_places(peers, block);
    Seq::new(places.len(), |j: int| peers[places[j] as int].peer)
}

/// The announcers of a block are places of peers that announced it, in
/// ascending order, and every such place below `upto` is among them.
pub proof fn lemma_announcers(peers: Seq<PeerBlocks>, block: usize, upto: nat)
    requires
        upto <= peers.len(),
        upto <= usize::MAX,
    ensures
        announcers(peers, block, upto).len() <= upto,
        forall|c: int|
            0 <= c < announcers(peers, block, upto).len() ==> {
                let k = #[trigger] announcers(peers, block, upto)[c];
                k < upto && peers[k as int].blocks@.contains(block)
            },
        forall|c: int, d: int|
            0 <= c < d < announcers(peers, block, upto).len() ==> (#[trigger] announcers(
                peers,
                block,
                upto,
            )[c]) < (#[trigger] announcers(peers, block, upto)[d]),
        forall|k: usize|
            k < upto && peers[k as int].blocks@.contains(block) ==> #[trigger] announcers(
                peers,
                block,
                upto,
            ).contains(k),
    decreases upto,
{
    if upto > 0 {
        lemma_announcers(peers, block, (upto - 1) as nat);
        let rest = announcers(peers, block, (upto - 1) as nat);
        let all = announcers(peers, block, upto);
        assert forall|k: usize|
            k < upto && peers[k as int].blocks@.contains(block) implies #[trigger] all.contains(
            k,
        ) by {
            if k == upto - 1 {
                assert(all[all.len() - 1] == k);
            } else {
                assert(rest.contains(k));
                let c = choose|c: int| 0 <= c < rest.len() && rest[c] == k;
                assert(all[c] == k);
            }
        }
    }
}

/// `after` is `before` with one more reply taken in, in which `peer`
/// announced `blocks`.
pub open spec fn replied(
    before: Seq<PeerBlocks>,
    after: Seq<PeerBlocks>,
    peer: PeerAddr,
    blocks: Seq<usize>,
) -> bool {
    if addresses(before).contains(peer) {
        let i = addresses(before).index_of(peer);
        &&& after.len() == before.len()
        &&& forall|j: int| 0 <= j < before.len() && j != i ==> after[j] == before[j]
        &&& after[i].peer == peer
        &&& after[i].latency == before[i].latency
        &&& after[i].blocks@ == before[i].blocks@ + blocks
    } else {
        &&& after.len() == before.len() + 1
        &&& after.drop_last() == before
        &&& after.last().peer == peer
        &&& after.last().latency.is_none()
        &&& after.last().blocks@ == blocks
    }
}

impl PeerBlockView {
    /// No peer stands in the view twice.
    pub open spec fn well_formed(&self) -> bool {
        forall|i: int, j: int|
            0 <= i < j < self.peers@.len() ==> (#[trigger] self.peers@[i]).peer != (
            #[trigger] self.peers@[j]).peer
    }

    /// A view in which no peer has announced anything.
    pub fn new() -> (view: PeerBlockView)
        ensures
            view.peers@.len() == 0,
            view.well_formed(),
    {
        PeerBlockView { peers: Vec::new() }
    }

    /// Whether no peer stands in the view twice.
    pub fn is_well_formed(&self) -> (sound: bool)
        ensures
            sound == self.well_formed(),
    {
        let mut i: usize = 0;
        while i < self.peers.len()
            invariant
                i <= self.peers.len(),
                forall|a: int, b: int|
                    0 <= a < b < self.peers@.len() && a < i ==> (#[trigger] self.peers@[a]).peer
                        != (#[trigger] self.peers@[b]).peer,
            decreases self.peers.len() - i,
        {
            let mut j: usize = i + 1;
            while j < self.peers.len()
                invariant
                    i < j <= self.peers.len(),
                    forall|b: int|
                        i < b < j ==> self.peers@[i as int].peer != (#[trigger] self.peers@[b]).peer,
                decreases self.peers.len() - j,
            {
                if self.peers[i].peer == self.peers[j].peer {
                    return false;
                }
                j += 1;
            }
            i += 1;
        }
        true
    }

    /// The place of `peer` in the view, or `None` where it has not been
    /// heard.
    pub fn find(&self, peer: PeerAddr) -> (place: Option<usize>)
        ensures
            place.is_some() == addresses(self.peers@).contains(peer),
            place matches Some(i) ==> i < self.peers@.len() && self.peers@[i as int].peer == peer
                && forall|j: int| 0 <= j < i ==> (#[trigger] self.peers@[j]).peer != peer,
    {
        let mut i: usize = 0;
        while i < self.peers.len()
            invariant
                i <= self.peers.len(),
                forall|j: int| 0 <= j < i ==> (#[trigger] self.peers@[j]).peer != peer,
            decreases self.peers.len() - i,
        {
            if self.peers[i].peer == peer {
                assert(addresses(self.peers@)[i as int] == peer);
                return Some(i);
            }
            i += 1;
        }
        assert forall|j: int| 0 <= j < addresses(self.peers@).len() implies addresses(
            self.peers@,
        )[j] != peer by {
            assert(self.peers@[j].peer != peer);
        }
        None
    }

    /// Takes in the blocks of one availability reply. The blocks of a peer
    /// heard before are added to the end of its list; a new peer comes
    /// last, with its latency unknown.
    pub fn record(&mut self, peer: PeerAddr, blocks: Vec<usize>)
        requires
            old(self).well_formed(),
        ensures
            final(self).well_formed(),
            replied(old(self).peers@, final(self).peers@, peer, blocks@),
    {
        let mut blocks = blocks;
        match self.find(peer) {
            Some(i) => {
                proof {
                    lemma_place_of(self.peers@, peer, i as int);
                }
                let entry = &mut self.peers[i];
                entry.blocks.append(&mut blocks);
            },
            None => {
                let ghost before = self.peers@;
                self.peers.push(PeerBlocks { peer, latency: None, blocks });
                assert(self.peers@.drop_last() =~= before);
                assert forall|i: int, j: int| 0 <= i < j < self.peers@.len() implies (
                #[trigger] self.peers@[i]).peer != (#[trigger] self.peers@[j]).peer by {
                    if j == before.len() {
                        assert(addresses(before)[i] == before[i].peer);
                    }
                }
            },
        }
    }

    /// Takes in the datagram of an availability reply from `peer`, and says
    /// whether it was one; other bytes change nothing.
    pub fn record_reply(&mut self, peer: PeerAddr, datagram: &[u8]) -> (taken: bool)
        requires
            old(self).well_formed(),
        ensures
            final(self).well_formed(),
            taken == (bincode_block_list_from(datagram@) matches Some(list) && ids_fit(list)),
            !taken ==> final(self).peers@ == old(self).peers@,
            taken ==> replied(
                old(self).peers@,
                final(self).peers@,
                peer,
                ids_of_wire(bincode_block_list_from(datagram@).unwrap()),
            ),
    {
        match decode_block_list(datagram) {
            Some(blocks) => {
                self.record(peer, blocks);
                true
            },
            None => false,
        }
    }

    /// Notes how long `peer` took to answer a ping. A peer that has not
    /// been heard is not taken in.
    pub fn set_latency(&mut self, peer: PeerAddr, latency: Option<u64>)
        requires
            old(self).well_formed(),
        ensures
            final(self).well_formed(),
            final(self).peers@.len() == old(self).peers@.len(),
            forall|j: int|
                0 <= j < old(self).peers@.len() ==> {
                    let before = #[trigger] old(self).peers@[j];
                    let after = final(self).peers@[j];
                    &&& after.peer == before.peer
                    &&& after.blocks == before.blocks
                    &&& after.latency == if before.peer == peer {
                        latency
                    } else {
                        before.latency
                    }
                },
    {
        match self.find(peer) {
            Some(i) => {
                proof {
                    assert forall|j: int|
                        0 <= j < self.peers@.len() && j != i implies (
                    #[trigger] self.peers@[j]).peer != peer by {
                        if j < i {
                            assert(self.peers@[j].peer != self.peers@[i as int].peer);
                        } else {
                            assert(self.peers@[i as int].peer != self.peers@[j].peer);
                        }
                    }
                }
                let entry = &mut self.peers[i];
                entry.latency = latency;
            },
            None => {
                proof {
                    assert forall|j: int| 0 <= j < self.peers@.len() implies (
                    #[trigger] self.peers@[j]).peer != peer by {
                        assert(addresses(self.peers@)[j] == self.peers@[j].peer);
                    }
                }
            },
        }
    }
}

/// In a view without duplicates, the place where a peer is found is its
/// only place.
pub proof fn lemma_place_of(peers: Seq<PeerBlocks>, peer: PeerAddr, i: int)
    requires
        0 <= i < peers.len(),
        peers[i].peer == peer,
        forall|a: int, b: int|
            0 <= a < b < peers.len() ==> (#[trigger] peers[a]).peer != (#[trigger] peers[b]).peer,
    ensures
        addresses(peers).contains(peer),
        addresses(peers).index_of(peer) == i,
{
    assert(addresses(peers)[i] == peer);
    let k = addresses(peers).index_of(peer);
    assert(0 <= k < peers.len() && addresses(peers)[k] == peer);
    assert(peers[k].peer == peer);
    if k < i {
        assert(peers[k].peer != peers[i].peer);
    } else if i < k {
        assert(peers[i].peer != peers[k].peer);
    }
}

/// The place at which `block` first stands in `blocks`, or `None` where it
/// does not stand there.
pub fn first_rank(blocks: &Vec<usize>, block: usize) -> (rank: Option<usize>)
    ensures
        rank.is_some() == blocks@.contains(block),
        ranks_block(blocks@, block, rank),
{
    let mut i: usize = 0;
    while i < blocks.len()
        invariant
            i <= blocks.len(),
            forall|j: int| 0 <= j < i ==> blocks@[j] != block,
        decreases blocks.len() - i,
    {
        if blocks[i] == block {
            proof {
                lemma_rank_unique(blocks@, block, i as int);
            }
            return Some(i);
        }
        i += 1;
    }
    None
}

/// Exec counterpart of `latency_key`.
pub fn latency_sort_key(latency: Option<u64>) -> (key: u128)
    ensures
        key == latency_key(latency),
{
    match latency {
        Some(micros) => micros as u128,
        None => u64::MAX as u128 + 1,
    }
}

/// The ranks that a peer gave the first `count` blocks: for each of them
/// the place at which it first stands in `blocks`, if it stands there.
pub fn rank_table(blocks: &Vec<usize>, count: usize) -> (table: Vec<Option<usize>>)
    ensures
        table@.len() == count,
        forall|b: usize| b < count ==> ranks_block(blocks@, b, #[trigger] table@[b as int]),
{
    let mut table: Vec<Option<usize>> = Vec::new();
    let mut b: usize = 0;
    while b < count
        invariant
            b <= count,
            table@.len() == b,
            forall|a: int| 0 <= a < b ==> (#[trigger] table@[a]).is_none(),
        decreases count - b,
    {
        table.push(None);
        b += 1;
    }
    let mut j: usize = 0;
    while j < blocks.len()
        invariant
            j <= blocks.len(),
            table@.len() == count,
            forall|b: usize|
                b < count ==> match #[trigger] table@[b as int] {
                    Some(rank) => rank < j && is_rank(blocks@, b, rank as int),
                    None => forall|i: int| 0 <= i < j ==> blocks@[i] != b,
                },
        decreases blocks.len() - j,
    {
        let block = blocks[j];
        if block < count && table[block].is_none() {
            table[block] = Some(j);
        }
        j += 1;
    }
    proof {
        assert forall|b: usize| b < count implies ranks_block(
            blocks@,
            b,
            #[trigger] table@[b as int],
        ) by {
            match table@[b as int] {
                Some(rank) => {
                    lemma_rank_unique(blocks@, b, rank as int);
                },
                None => {},
            }
        }
    }
    table
}

/// The peers that announced `block`, best source first, from the rank that
/// each peer gave the block.
fn ranked_sources(view: &PeerBlockView, ranks: &Vec<Option<usize>>, block: usize) -> (list: Vec<
    PeerAddr,
>)
    requires
        ranks@.len() == view.peers@.len(),
        forall|k: int|
            0 <= k < ranks@.len() ==> ranks_block(
                view.peers@[k].blocks@,
                block,
                #[trigger] ranks@[k],
            ),
    ensures
        list@ == sources_of(view.peers@, block),
{
    let mut places: Vec<usize> = Vec::new();
    let mut keys: Vec<SortKey> = Vec::new();
    let mut k: usize = 0;
    while k < view.peers.len()
        invariant
            k <= view.peers.len(),
            ranks@.len() == view.peers@.len(),
            forall|k: int|
                0 <= k < ranks@.len() ==> ranks_block(
                    view.peers@[k].blocks@,
                    block,
                    #[trigger] ranks@[k],
                ),
            places@ == announcers(view.peers@, block, k as nat),
            keys@.len() == places@.len(),
            forall|c: int| 0 <= c < places@.len() ==> (#[trigger] places@[c]) < k,
            forall|c: int|
                0 <= c < places@.len() ==> #[trigger] keys@[c] == source_key(
                    view.peers@[places@[c] as int],
                    block,
                ),
        decreases view.peers.len() - k,
    {
        match ranks[k] {
            Some(rank) => {
                places.push(k);
                keys.push((rank as u64, latency_sort_key(view.peers[k].latency)));
            },
            None => {},
        }
        k += 1;
    }
    assert(keys@ =~= source_keys(view.peers@, block, places@));
    let order = stable_order(&keys);
    let mut list: Vec<PeerAddr> = Vec::new();
    let mut j: usize = 0;
    while j < order.len()
        invariant
            j <= order.len(),
            order@.len() == places@.len(),
            forall|a: int| 0 <= a < order@.len() ==> (#[trigger] order@[a]) < places@.len(),
            forall|c: int| 0 <= c < places@.len() ==> (#[trigger] places@[c]) < view.peers@.len(),
            list@.len() == j,
            forall|a: int|
                0 <= a < j ==> #[trigger] list@[a] == view.peers@[places@[order@[a] as int] as int].peer,
        decreases order.len() - j,
    {
        list.push(view.peers[places[order[j]]].peer);
        j += 1;
    }
    assert(list@ =~= sources_of(view.peers@, block));
    list
}

/// The peers that announced `block`, best source first.
pub fn block_sources(view: &PeerBlockView, block: usize) -> (list: Vec<PeerAddr>)
    ensures
        list@ == sources_of(view.peers@, block),
{
    let mut ranks: Vec<Option<usize>> = Vec::new();
    let mut k: usize = 0;
    while k < view.peers.len()
        invariant
            k <= view.peers.len(),
            ranks@.len() == k,
            forall|i: int|
                0 <= i < k ==> ranks_block(view.peers@[i].blocks@, block, #[trigger] ranks@[i]),
        decreases view.peers.len() - k,
    {
        ranks.push(first_rank(&view.peers[k].blocks, block));
        k += 1;
    }
    ranked_sources(view, &ranks, block)
}

/// For each block of a file of `filesize` bytes, the peers of `sources`
/// that announced it, best source first: by the rank that the peer gave the
/// block, then by latency, an unknown latency last. Announced ids that are
/// no block of the file are passed over.
pub fn convert_block_sources(filesize: usize, sources: &PeerBlockView) -> (block_sources: Vec<
    Vec<PeerAddr>,
>)
    ensures
        block_sources@.len() == block_count(filesize as nat),
        forall|b: usize|
            b < block_sources@.len() ==> (#[trigger] block_sources@[b as int])@ == sources_of(
                sources.peers@,
                b,
            ),
{
    let count = filesize / calculate_block_size(filesize);
    let mut tables: Vec<Vec<Option<usize>>> = Vec::new();
    let mut k: usize = 0;
    while k < sources.peers.len()
        invariant
            k <= sources.peers.len(),
            tables@.len() == k,
            forall|i: int| 0 <= i < k ==> (#[trigger] tables@[i])@.len() == count,
            forall|i: int, b: usize|
                0 <= i < k && b < count ==> ranks_block(
                    sources.peers@[i].blocks@,
                    b,
                    #[trigger] tables@[i]@[b as int],
                ),
        decreases sources.peers.len() - k,
    {
        tables.push(rank_table(&sources.peers[k].blocks, count));
        k += 1;
    }
    let mut lists: Vec<Vec<PeerAddr>> = Vec::new();
    let mut b: usize = 0;
    while b < count
        invariant
            b <= count,
            tables@.len() == sources.peers@.len(),
            forall|i: int| 0 <= i < tables@.len() ==> (#[trigger] tables@[i])@.len() == count,
            forall|i: int, b: usize|
                0 <= i < tables@.len() && b < count ==> ranks_block(
                    sources.peers@[i].blocks@,
                    b,
                    #[trigger] tables@[i]@[b as int],
                ),
            lists@.len() == b,
            forall|a: usize|
                a < b ==> (#[trigger] lists@[a as int])@ == sources_of(sources.peers@, a),
        decreases count - b,
    {
        let mut ranks: Vec<Option<usize>> = Vec::new();
        let mut i: usize = 0;
        while i < tables.len()
            invariant
                i <= tables.len(),
                b < count,
                tables@.len() == sources.peers@.len(),
                forall|i: int| 0 <= i < tables@.len() ==> (#[trigger] tables@[i])@.len() == count,
                forall|i: int, b: usize|
                    0 <= i < tables@.len() && b < count ==> ranks_block(
                        sources.peers@[i].blocks@,
                        b,
                        #[trigger] tables@[i]@[b as int],
                    ),
                ranks@.len() == i,
                forall|a: int|
                    0 <= a < i ==> ranks_block(sources.peers@[a].blocks@, b, #[trigger] ranks@[a]),
            decreases tables.len() - i,
        {
            ranks.push(tables[i][b]);
            i += 1;
        }
        lists.push(ranked_sources(sources, &ranks, b));
        b += 1;
    }
    lists
}

/// What the order of sources means: the sources of a block are exactly the
/// peers that announced it, each once, and of two sources the one that
/// gave the block the better rank comes first; at equal rank the one with
/// the lower latency, an unknown latency counting as the highest; at equal
/// latency the one heard first.
pub proof fn lemma_source_order(peers: Seq<PeerBlocks>, block: usize)
    requires
        peers.len() <= usize::MAX,
    ensures
        sources_of(peers, block).len() == source_places(peers, block).len(),
        forall|j: int|
            0 <= j < source_places(peers, block).len() ==> {
                let k = #[trigger] source_places(peers, block)[j];
                k < peers.len() && peers[k as int].blocks@.contains(block)
            },
        forall|k: usize|
            k < peers.len() && peers[k as int].blocks@.contains(block) ==> #[trigger] source_places(
                peers,
                block,
            ).contains(k),
        forall|a: int, b: int|
            0 <= a < b < source_places(peers, block).len() ==> {
                let x = #[trigger] source_places(peers, block)[a];
                let y = #[trigger] source_places(peers, block)[b];
                let kx = source_key(peers[x as int], block);
                let ky = source_key(peers[y as int], block);
                key_lt(kx, ky) || (kx == ky && x < y)
            },
{
    let places = announcers(peers, block, peers.len());
    let keys = source_keys(peers, block, places);
    let order = stable_order_of(keys);
    let ranked = source_places(peers, block);
    lemma_announcers(peers, block, peers.len());
    lemma_stable_order_exists(keys);
    assert forall|k: usize|
        k < peers.len() && peers[k as int].blocks@.contains(block) implies #[trigger] ranked.contains(
        k,
    ) by {
        assert(places.contains(k));
        let c = choose|c: int| 0 <= c < places.len() && places[c] == k;
        assert(order.contains(c as usize));
        let j = choose|j: int| 0 <= j < order.len() && order[j] == c as usize;
        assert(ranked[j] == k);
    }
    assert forall|a: int, b: int| 0 <= a < b < ranked.len() implies {
        let x = #[trigger] ranked[a];
        let y = #[trigger] ranked[b];
        let kx = source_key(peers[x as int], block);
        let ky = source_key(peers[y as int], block);
        key_lt(kx, ky) || (kx == ky && x < y)
    } by {
        assert(crate::ranking::precedes(keys, order[a] as int, order[b] as int));
    }
}

/// The key by which a block is scheduled: blocks that some peer has come
/// before blocks that no peer has, and among the former the one with fewer
/// sources comes first.
pub open spec fn rarity_key(count: nat) -> SortKey {
    (if count == 0 { 1u64 } else { 0u64 }, count as u128)
}

/// The scheduling keys of all blocks.
pub open spec fn rarity_keys(sources: Seq<Vec<PeerAddr>>) -> Seq<SortKey> {
    Seq::new(sources.len(), |i: int| rarity_key(sources[i]@.len()))
}

/// The order in which blocks are fetched: rarest first, blocks without a
/// source last, blocks with equally many sources by ascending id.
pub fn availability_order(sources: &Vec<Vec<PeerAddr>>) -> (order: Vec<usize>)
    ensures
        order@ == stable_order_of(rarity_keys(sources@)),
        is_stable_order(rarity_keys(sources@), order@),
        forall|a: int, b: int|
            0 <= a < b < order@.len() && sources@[(#[trigger] order@[b]) as int]@.len() > 0
                ==> sources@[(#[trigger] order@[a]) as int]@.len() > 0,
        forall|a: int, b: int|
            0 <= a < b < order@.len() && sources@[(#[trigger] order@[b]) as int]@.len() > 0
                ==> sources@[(#[trigger] order@[a]) as int]@.len() <= sources@[order@[b] as int]@.len(),
{
    let mut keys: Vec<SortKey> = Vec::new();
    let mut i: usize = 0;
    while i < sources.len()
        invariant
            i <= sources.len(),
            keys@.len() == i,
            forall|j: int| 0 <= j < i ==> #[trigger] keys@[j] == rarity_key(sources@[j]@.len()),
        decreases sources.len() - i,
    {
        let count = sources[i].len();
        keys.push((if count == 0 { 1 } else { 0 }, count as u128));
        i += 1;
    }
    assert(keys@ =~= rarity_keys(sources@));
    let order = stable_order(&keys);
    proof {
        assert forall|a: int, b: int|
            0 <= a < b < order@.len() && sources@[(#[trigger] order@[b]) as int]@.len()
                > 0 implies sources@[(#[trigger] order@[a]) as int]@.len() > 0 && sources@[order@[a] as int]@.len()
            <= sources@[order@[b] as int]@.len() by {
            let x = order@[a] as int;
            let y = order@[b] as int;
            assert(crate::ranking::precedes(keys@, x, y));
            assert(sources@[x]@.len() == sources@[x].len());
            assert(sources@[y]@.len() == sources@[y].len());
            assert(keys@[x] == rarity_key(sources@[x]@.len()));
            assert(keys@[y] == rarity_key(sources@[y]@.len()));
        }
    }
    order
}

/// The order in which blocks are fetched, given the sources of each block:
/// every block with a source comes before every block without one, and
/// among the blocks with sources none has more sources than those after
/// it.
pub fn sort_by_block_availability(sources: Vec<Vec<PeerAddr>>) -> (order: Vec<usize>)
    ensures
        order@ == stable_order_of(rarity_keys(sources@)),
        is_stable_order(rarity_keys(sources@), order@),
        forall|a: int, b: int|
            0 <= a < b < order@.len() && sources@[(#[trigger] order@[b]) as int]@.len() > 0
                ==> sources@[(#[trigger] order@[a]) as int]@.len() > 0,
        forall|a: int, b: int|
            0 <= a < b < order@.len() && sources@[(#[trigger] order@[b]) as int]@.len() > 0
                ==> sources@[(#[trigger] order@[a]) as int]@.len() <= sources@[order@[b] as int]@.len(),
{
    availability_order(&sources)
}

/// Why a request failed.
#[derive(Debug, Clone, Copy, PartialEq, Eq)]
pub enum RequestError {
    /// No peer sent metadata while the requester was collecting.
    NoMetadata,
    /// The metadata that came is that of another file.
    HashMismatch,
    /// Some block could not be had from any of its sources.
    NoSource,
}

impl RequestError {
    /// The exit code of a node that gives up on this error.
    pub fn exit_code(&self) -> (code: i32)
        ensures
            code == (if *self == RequestError::HashMismatch {
                2i32
            } else {
                1i32
            }),
    {
        match self {
            RequestError::HashMismatch => 2,
            _ => 1,
        }
    }
}

impl File {
    /// The file to fetch, from the metadata reply to the discovery query for
    /// `uuid`, if one came. Metadata with another whole hash than the one
    /// asked for ends the request.
    pub fn from_metadata(uuid: &Vec<u8>, path: PathBuf, reply: Option<FileMetadata>) -> (file:
        Result<File, RequestError>)
        ensures
            reply.is_none() ==> file == Err::<File, RequestError>(RequestError::NoMetadata),
            reply matches Some(m) ==> {
                if m.hash.0@ == uuid@ {
                    file matches Ok(f) && f.metadata == m && f.local_path == path
                        && f.blocks@.len() == 0
                } else {
                    file == Err::<File, RequestError>(RequestError::HashMismatch)
                }
            },
    {
        match reply {
            None => Err(RequestError::NoMetadata),
            Some(metadata) => {
                if bytes_equal(metadata.hash.0.as_slice(), uuid.as_slice()) {
                    Ok(File { metadata, blocks: Vec::new(), local_path: path })
                } else {
                    Err(RequestError::HashMismatch)
                }
            },
        }
    }
}

/// What the requester learns after asking a peer for a block.
pub enum DownloadEvent {
    /// The peer could not be reached.
    Unreachable,
    /// The peer answered with these bytes.
    Reply(Vec<u8>),
}

/// What the requester does next.
#[derive(Debug, Clone, Copy, PartialEq, Eq)]
pub enum DownloadAction {
    /// Ask `peer` for block `block_id`.
    Fetch { peer: PeerAddr, block_id: usize },
    /// Write the trailing bytes at `offset`; the download is over.
    Finish { offset: usize },
}

/// The outcome of one step of a download.
#[derive(Debug, Clone, Copy, PartialEq, Eq)]
pub struct DownloadStep {
    /// Where to write the bytes that just came, if they are the block that
    /// was asked for.
    pub store_at: Option<usize>,
    pub next: DownloadAction,
}

/// How far a download has come.
pub struct DownloadState {
    /// The block ids in the order in which they are fetched.
    pub order: Vec<usize>,
    /// The place in `order` of the block being fetched.
    pub next: usize,
    /// The place, among the sources of that block, of the peer being asked.
    pub source: usize,
    /// The blocks that no source could give.
    pub missing: Vec<usize>,
}

impl DownloadState {
    /// Whether every block has been dealt with.
    pub fn is_finished(&self) -> (finished: bool)
        ensures
            finished == (self.next >= self.order@.len()),
    {
        self.next >= self.order.len()
    }

    /// Whether any block has run out of sources so far.
    pub fn outcome(&self) -> (outcome: Result<(), RequestError>)
        ensures
            outcome.is_ok() == (self.missing@.len() == 0),
            outcome.is_err() ==> outcome == Err::<(), RequestError>(RequestError::NoSource),
    {
        if self.missing.len() == 0 {
            Ok(())
        } else {
            Err(RequestError::NoSource)
        }
    }
}

impl FileHandle {
    /// The first place from `from` on, in `order`, of a block that has a
    /// source; the length of `order` where there is none.
    pub open spec fn first_available(&self, order: Seq<usize>, from: int) -> int
        decreases order.len() - from,
    {
        if from < 0 || from >= order.len() {
            order.len() as int
        } else if self.sources@[order[from] as int]@.len() > 0 {
            from
        } else {
            self.first_available(order, from + 1)
        }
    }

    /// `state` is a state of a download of this file: its order names
    /// blocks that the handle knows, and unless the download is over it
    /// points at a source of the block being fetched.
    pub open spec fn schedules(&self, state: DownloadState) -> bool {
        &&& forall|j: int|
            0 <= j < state.order@.len() ==> (#[trigger] state.order@[j]) < self.sources@.len()
        &&& state.next <= state.order@.len()
        &&& state.next < state.order@.len() ==> state.source
            < self.sources@[state.order@[state.next as int] as int]@.len()
    }

    /// Whether what came for block `block_id` is that block: a reply that
    /// is not empty and has the hash that the metadata gives the block.
    pub open spec fn accepts(&self, block_id: usize, event: DownloadEvent) -> bool {
        &&& event matches DownloadEvent::Reply(bytes)
        &&& bytes@.len() > 0
        &&& block_id < self.file.metadata.hash.1@.len()
        &&& sha256(bytes@) == self.file.metadata.hash.1@[block_id as int]@
        &&& block_start(self.file.metadata.size as nat, block_id as nat).is_some()
    }

    /// What a download in state `state` does next.
    pub open spec fn action_at(&self, state: DownloadState) -> DownloadAction {
        if state.next < state.order@.len() {
            let block_id = state.order@[state.next as int];
            DownloadAction::Fetch {
                peer: self.sources@[block_id as int]@[state.source as int],
                block_id,
            }
        } else {
            DownloadAction::Finish { offset: full_len(self.file.metadata.size as nat) as usize }
        }
    }

    /// Whether `state` is a state of a download of this file.
    pub fn fits(&self, state: &DownloadState) -> (sound: bool)
        ensures
            sound == self.schedules(*state),
    {
        let mut j: usize = 0;
        while j < state.order.len()
            invariant
                j <= state.order.len(),
                forall|a: int| 0 <= a < j ==> (#[trigger] state.order@[a]) < self.sources@.len(),
            decreases state.order.len() - j,
        {
            if state.order[j] >= self.sources.len() {
                return false;
            }
            j += 1;
        }
        if state.next > state.order.len() {
            return false;
        }
        state.next == state.order.len() || state.source
            < self.sources[state.order[state.next]].len()
    }

    /// Collects the sources of each block from what the peers announced.
    pub fn update_sources(&mut self, view: &PeerBlockView)
        ensures
            final(self).file == old(self).file,
            final(self).sources@.len() == block_count(old(self).file.metadata.size as nat),
            forall|b: usize|
                b < final(self).sources@.len() ==> (#[trigger] final(self).sources@[b as int])@
                    == sources_of(view.peers@, b),
    {
        self.sources = convert_block_sources(self.file.metadata.size, view);
    }

    /// Moves `state` on to the first block from `from` on that has a
    /// source, noting the blocks passed over as missing.
    fn skip_unavailable(&self, state: &mut DownloadState, from: usize)
        requires
            from <= old(state).order@.len(),
            forall|j: int|
                0 <= j < old(state).order@.len() ==> (#[trigger] old(state).order@[j])
                    < self.sources@.len(),
        ensures
            final(state).order == old(state).order,
            final(state).next == self.first_available(old(state).order@, from as int),
            from <= final(state).next <= old(state).order@.len(),
            final(state).source == 0,
            final(state).missing@ == old(state).missing@ + old(state).order@.subrange(
                from as int,
                final(state).next as int,
            ),
            self.schedules(*final(state)),
    {
        let ghost before = state.missing@;
        let mut at: usize = from;
        while at < state.order.len() && self.sources[state.order[at]].len() == 0
            invariant
                from <= at <= state.order@.len(),
                state.order == old(state).order,
                forall|j: int|
                    0 <= j < state.order@.len() ==> (#[trigger] state.order@[j])
                        < self.sources@.len(),
                self.first_available(state.order@, from as int) == self.first_available(
                    state.order@,
                    at as int,
                ),
                state.missing@ == before + state.order@.subrange(from as int, at as int),
            decreases state.order@.len() - at,
        {
            let block_id = state.order[at];
            state.missing.push(block_id);
            proof {
                assert(state.order@.subrange(from as int, at as int).push(block_id)
                    =~= state.order@.subrange(from as int, at + 1));
            }
            at += 1;
        }
        state.next = at;
        state.source = 0;
    }

    /// Starts a download: fixes the order of the blocks, rarest first, and
    /// says what to do first.
    pub fn begin(&self) -> (start: (DownloadState, DownloadAction))
        ensures
            start.0.order@ == stable_order_of(rarity_keys(self.sources@)),
            is_stable_order(rarity_keys(self.sources@), start.0.order@),
            start.0.next == self.first_available(start.0.order@, 0),
            start.0.source == 0,
            start.0.missing@ == start.0.order@.subrange(0, start.0.next as int),
            self.schedules(start.0),
            start.1 == self.action_at(start.0),
    {
        let order = availability_order(&self.sources);
        let mut state = DownloadState { order, next: 0, source: 0, missing: Vec::new() };
        self.skip_unavailable(&mut state, 0);
        assert(state.missing@ =~= state.order@.subrange(0, state.next as int));
        let action = self.next_action(&state);
        (state, action)
    }

    /// What a download in state `state` does next.
    pub fn next_action(&self, state: &DownloadState) -> (action: DownloadAction)
        requires
            self.schedules(*state),
        ensures
            action == self.action_at(*state),
    {
        if state.next < state.order.len() {
            let block_id = state.order[state.next];
            DownloadAction::Fetch { peer: self.sources[block_id][state.source], block_id }
        } else {
            let size = self.file.metadata.size;
            let each = calculate_block_size(size);
            proof {
                crate::helpers::lemma_block_geometry(size as nat);
            }
            DownloadAction::Finish { offset: (size / each) * each }
        }
    }

    /// Where to write what came for block `block_id`, if it is that block.
    pub fn check_block(&self, block_id: usize, event: &DownloadEvent) -> (store_at: Option<usize>)
        ensures
            store_at.is_some() == self.accepts(block_id, *event),
            store_at matches Some(offset) ==> block_start(
                self.file.metadata.size as nat,
                block_id as nat,
            ) == Some(offset as nat),
    {
        match event {
            DownloadEvent::Unreachable => None,
            DownloadEvent::Reply(bytes) => {
                if bytes.len() > 0 && block_id < self.file.metadata.hash.1.len() {
                    let digest = sha256_digest(bytes.as_slice());
                    if bytes_equal(
                        digest.as_slice(),
                        self.file.metadata.hash.1[block_id].as_slice(),
                    ) {
                        block_offset(self.file.metadata.size, block_id)
                    } else {
                        None
                    }
                } else {
                    None
                }
            },
        }
    }

    /// One step of a download: takes in what came of the last request and
    /// says what to do next.
    ///
    /// Bytes that are the block asked for are to be written at the block's
    /// offset, and the download moves on to the next block that has a
    /// source. After anything else (a peer out of reach, an empty reply,
    /// bytes with another hash) the next source of the same block is asked;
    /// when the block has no further source it is noted as missing and the
    /// download moves on. Blocks without any source are noted as missing as
    /// they are passed. A download that is over stays as it is. Every step
    /// of a download that is not over moves on to a later block or to the
    /// next source of the same block, so a download ends.
    pub fn download(&self, state: &mut DownloadState, event: &DownloadEvent) -> (step: DownloadStep)
        requires
            self.schedules(*old(state)),
        ensures
            self.schedules(*final(state)),
            final(state).order == old(state).order,
            step.next == self.action_at(*final(state)),
            old(state).next >= old(state).order@.len() ==> *final(state) == *old(state)
                && step.store_at.is_none(),
            old(state).next < old(state).order@.len() ==> final(state).next > old(state).next || (
            final(state).next == old(state).next && final(state).source == old(state).source + 1),
            old(state).next < old(state).order@.len() ==> {
                let block_id = old(state).order@[old(state).next as int];
                let onward = self.first_available(old(state).order@, old(state).next + 1);
                let skipped = old(state).order@.subrange(old(state).next + 1, onward);
                if self.accepts(block_id, *event) {
                    &&& step.store_at == Some(
                        block_start(self.file.metadata.size as nat, block_id as nat).unwrap() as usize,
                    )
                    &&& final(state).next == onward
                    &&& final(state).source == 0
                    &&& final(state).missing@ == old(state).missing@ + skipped
                } else if old(state).source + 1 < self.sources@[block_id as int]@.len() {
                    &&& step.store_at.is_none()
                    &&& final(state).next == old(state).next
                    &&& final(state).source == old(state).source + 1
                    &&& final(state).missing == old(state).missing
                } else {
                    &&& step.store_at.is_none()
                    &&& final(state).next == onward
                    &&& final(state).source == 0
                    &&& final(state).missing@ == old(state).missing@.push(block_id) + skipped
                }
            },
    {
        if state.next >= state.order.len() {
            return DownloadStep { store_at: None, next: self.next_action(state) };
        }
        let block_id = state.order[state.next];
        let store_at = self.check_block(block_id, event);
        let onward = state.next + 1;
        let source_count = self.sources[block_id].len();
        assert(state.source < source_count);
        if store_at.is_some() {
            self.skip_unavailable(state, onward);
        } else if state.source + 1 < source_count {
            state.source = state.source + 1;
        } else {
            state.missing.push(block_id);
            self.skip_unavailable(state, onward);
        }
        DownloadStep { store_at, next: self.next_action(state) }
    }
}

/// A block as its host serves it is the block that the requester takes:
/// for a file described by the handle's metadata, the bytes of a full block
/// are accepted for that block, to be written where the block starts.
pub proof fn lemma_served_block_is_accepted(
    handle: FileHandle,
    data: Seq<u8>,
    block_id: usize,
    bytes: Vec<u8>,
)
    requires
        handle.file.metadata@.describes(data),
        block_id < block_count(data.len()),
        bytes@ == handle.file.metadata@.block_of(data, block_id as int),
    ensures
        handle.accepts(block_id, DownloadEvent::Reply(bytes)),
        block_start(data.len(), block_id as nat) == Some(
            block_id as nat * crate::helpers::block_size(data.len()),
        ),
{
    let m = handle.file.metadata@;
    crate::file::lemma_block_in_file(data.len(), block_id as nat);
    crate::helpers::lemma_block_size_is_last_before_end(data.len());
    assert(m.block_hashes[block_id as int] == sha256(m.block_of(data, block_id as int)));
    assert((block_id + 1) * crate::helpers::block_size(data.len()) == block_id
        * crate::helpers::block_size(data.len()) + crate::helpers::block_size(data.len()))
        by (nonlinear_arith);
}

/// The download of a file without full blocks asks no peer for anything:
/// it consists of writing the trailing bytes.
pub proof fn lemma_download_without_blocks(handle: FileHandle, state: DownloadState)
    requires
        handle.sources@.len() == 0,
        state.order@ == stable_order_of(rarity_keys(handle.sources@)),
    ensures
        handle.action_at(state) == (DownloadAction::Finish {
            offset: full_len(handle.file.metadata.size as nat) as usize,
        }),
{
    lemma_stable_order_exists(rarity_keys(handle.sources@));
}

} // verus!
