use ddp_node::announce::{announce, Catalog};
use ddp_node::file::{File, FileHandle, FileMetadata};
use ddp_node::helpers::calculate_block_size;
use ddp_node::request::{
    availability_order, block_sources, convert_block_sources, first_rank, latency_sort_key,
    rank_table, sort_by_block_availability, DownloadAction, DownloadEvent, DownloadState,
    PeerBlockView, PeerBlocks, RequestError,
};
use ddp_node::wire::{
    decode_block_list, decode_block_request, decode_metadata, discovery_query,
    encode_block_list, encode_block_request,
};
use sha2::{Digest, Sha256};
use std::path::PathBuf;

const PEER_A: u128 = 0x0a00_0001;
const PEER_B: u128 = 0x0a00_0002;
const PEER_C: u128 = 0x0a00_0003;

fn view_of(peers: &[(u128, Vec<usize>)]) -> PeerBlockView {
    let mut view = PeerBlockView::new();
    for (peer, blocks) in peers {
        view.record(*peer, blocks.clone());
    }
    view
}

fn fetching(data: &[u8], sources: Vec<Vec<u128>>) -> FileHandle {
    let file = File::prepare(PathBuf::from("wanted"), data);
    let mut handle = file.to_handle();
    handle.sources = sources;
    handle
}

#[test]
fn record_adds_new_peers_at_the_end() {
    let view = view_of(&[(PEER_B, vec![1, 0]), (PEER_A, vec![0])]);
    assert_eq!(view.peers.len(), 2);
    assert_eq!(view.peers[0].peer, PEER_B);
    assert_eq!(view.peers[0].blocks, vec![1, 0]);
    assert_eq!(view.peers[0].latency, None);
    assert_eq!(view.peers[1].peer, PEER_A);
    assert_eq!(view.peers[1].blocks, vec![0]);
}

#[test]
fn record_extends_the_list_of_a_known_peer() {
    let view = view_of(&[(PEER_A, vec![2, 0]), (PEER_B, vec![1]), (PEER_A, vec![1, 3])]);
    assert_eq!(view.peers.len(), 2);
    assert_eq!(view.peers[0].peer, PEER_A);
    assert_eq!(view.peers[0].blocks, vec![2, 0, 1, 3]);
    assert_eq!(view.peers[1].blocks, vec![1]);
}

#[test]
fn record_reply_takes_in_a_block_list() {
    let mut view = PeerBlockView::new();
    assert!(view.record_reply(PEER_A, &encode_block_list(&vec![3, 1]).unwrap()));
    assert!(view.record_reply(PEER_B, &encode_block_list(&vec![0]).unwrap()));
    assert!(view.record_reply(PEER_A, &encode_block_list(&vec![2]).unwrap()));
    assert_eq!(view.peers.len(), 2);
    assert_eq!(view.peers[0].blocks, vec![3, 1, 2]);
    assert_eq!(view.peers[1].blocks, vec![0]);
}

#[test]
fn record_reply_passes_over_other_bytes() {
    let mut view = PeerBlockView::new();
    view.record(PEER_A, vec![4]);
    assert!(!view.record_reply(PEER_A, &[1, 2, 3]));
    assert!(!view.record_reply(PEER_B, &[]));
    assert_eq!(view.peers.len(), 1);
    assert_eq!(view.peers[0].blocks, vec![4]);
}

#[test]
fn view_knows_whether_it_is_free_of_duplicates() {
    let mut view = view_of(&[(PEER_A, vec![]), (PEER_B, vec![]), (PEER_A, vec![1])]);
    assert!(view.is_well_formed());
    assert!(PeerBlockView::new().is_well_formed());
    view.peers.push(PeerBlocks { peer: PEER_B, latency: None, blocks: vec![] });
    assert!(!view.is_well_formed());
}

#[test]
fn download_state_must_fit_the_handle() {
    let data = vec![10u8, 20];
    let handle = fetching(&data, vec![vec![PEER_A], vec![]]);
    let (state, _) = handle.begin();
    assert!(handle.fits(&state));
    let stray = DownloadState { order: vec![0, 2], next: 0, source: 0, missing: vec![] };
    assert!(!handle.fits(&stray));
    let past = DownloadState { order: vec![0, 1], next: 3, source: 0, missing: vec![] };
    assert!(!handle.fits(&past));
    let no_such_source = DownloadState { order: vec![0, 1], next: 0, source: 1, missing: vec![] };
    assert!(!handle.fits(&no_such_source));
    let over = DownloadState { order: vec![0, 1], next: 2, source: 5, missing: vec![] };
    assert!(handle.fits(&over));
}

#[test]
fn find_gives_the_place_of_a_peer() {
    let view = view_of(&[(PEER_A, vec![]), (PEER_B, vec![])]);
    assert_eq!(view.find(PEER_A), Some(0));
    assert_eq!(view.find(PEER_B), Some(1));
    assert_eq!(view.find(PEER_C), None);
}

#[test]
fn set_latency_changes_only_that_peer() {
    let mut view = view_of(&[(PEER_A, vec![0]), (PEER_B, vec![0])]);
    view.set_latency(PEER_B, Some(40));
    view.set_latency(PEER_C, Some(1));
    assert_eq!(view.peers[0].latency, None);
    assert_eq!(view.peers[1].latency, Some(40));
    assert_eq!(view.peers.len(), 2);
    view.set_latency(PEER_B, None);
    assert_eq!(view.peers[1].latency, None);
}

#[test]
fn first_rank_is_the_first_place() {
    assert_eq!(first_rank(&vec![4, 2, 4, 2], 2), Some(1));
    assert_eq!(first_rank(&vec![4, 2, 4, 2], 4), Some(0));
    assert_eq!(first_rank(&vec![4, 2], 3), None);
    assert_eq!(first_rank(&vec![], 0), None);
}

#[test]
fn rank_table_holds_first_places() {
    assert_eq!(
        rank_table(&vec![4, 2, 4, 9, 0, 2], 5),
        vec![Some(4), None, Some(1), None, Some(0)]
    );
    assert_eq!(rank_table(&vec![], 2), vec![None, None]);
    assert_eq!(rank_table(&vec![1, 2, 3], 0), Vec::<Option<usize>>::new());
}

#[test]
fn unknown_latency_is_above_every_known_one() {
    assert_eq!(latency_sort_key(Some(0)), 0);
    assert_eq!(latency_sort_key(Some(2000)), 2000);
    assert_eq!(latency_sort_key(Some(u64::MAX)), u64::MAX as u128);
    assert_eq!(latency_sort_key(None), u64::MAX as u128 + 1);
}

#[test]
fn sources_are_one_list_per_block() {
    let view = view_of(&[(PEER_A, vec![0, 1, 2]), (PEER_B, vec![0, 1]), (PEER_C, vec![0])]);
    assert_eq!(calculate_block_size(3), 1);
    let sources = convert_block_sources(3, &view);
    assert_eq!(sources, vec![vec![PEER_A, PEER_B, PEER_C], vec![PEER_A, PEER_B], vec![PEER_A]]);
}

#[test]
fn rarest_block_is_fetched_first() {
    let view = view_of(&[(PEER_A, vec![0, 1, 2]), (PEER_B, vec![0, 1]), (PEER_C, vec![0])]);
    let sources = convert_block_sources(3, &view);
    let counts: Vec<usize> = sources.iter().map(|s| s.len()).collect();
    assert_eq!(counts, vec![3, 2, 1]);
    assert_eq!(sort_by_block_availability(sources), vec![2, 1, 0]);
}

#[test]
fn lower_ping_wins_at_equal_rank() {
    let x = PEER_A;
    let y = PEER_B;
    let mut view = view_of(&[(y, vec![5]), (x, vec![5])]);
    view.set_latency(x, Some(2_000));
    view.set_latency(y, Some(50_000));
    let sources = convert_block_sources(6, &view);
    assert_eq!(sources.len(), 6);
    assert_eq!(sources[5], vec![x, y]);
    assert_eq!(sources[5][0], x);
    assert_eq!(block_sources(&view, 5), vec![x, y]);
}

#[test]
fn unknown_ping_comes_last_at_equal_rank() {
    let mut view = view_of(&[(PEER_A, vec![0]), (PEER_B, vec![0]), (PEER_C, vec![0])]);
    view.set_latency(PEER_B, Some(u64::MAX));
    view.set_latency(PEER_C, Some(10));
    assert_eq!(convert_block_sources(1, &view), vec![vec![PEER_C, PEER_B, PEER_A]]);
}

#[test]
fn rank_comes_before_ping() {
    let mut view = view_of(&[(PEER_A, vec![1, 0]), (PEER_B, vec![0, 1])]);
    view.set_latency(PEER_A, Some(1));
    view.set_latency(PEER_B, Some(900));
    assert_eq!(convert_block_sources(2, &view), vec![vec![PEER_B, PEER_A], vec![PEER_A, PEER_B]]);
}

#[test]
fn equal_rank_and_ping_keeps_arrival_order() {
    let view = view_of(&[(PEER_C, vec![0]), (PEER_A, vec![0]), (PEER_B, vec![0])]);
    assert_eq!(convert_block_sources(1, &view), vec![vec![PEER_C, PEER_A, PEER_B]]);
}

#[test]
fn a_peer_is_a_source_once_at_its_best_rank() {
    let view = view_of(&[(PEER_A, vec![1, 0, 0]), (PEER_B, vec![0, 1])]);
    assert_eq!(convert_block_sources(2, &view), vec![vec![PEER_B, PEER_A], vec![PEER_A, PEER_B]]);
}

#[test]
fn ids_that_are_no_block_are_passed_over() {
    let view = view_of(&[(PEER_A, vec![7, 0, 2, usize::MAX])]);
    assert_eq!(convert_block_sources(2, &view), vec![vec![PEER_A], vec![]]);
}

#[test]
fn sources_of_one_block_match_the_whole_conversion() {
    let mut view = view_of(&[(PEER_A, vec![3, 1, 0]), (PEER_B, vec![1, 3]), (PEER_C, vec![0, 1, 2, 3])]);
    view.set_latency(PEER_C, Some(5));
    view.set_latency(PEER_A, Some(9));
    let all = convert_block_sources(4, &view);
    assert_eq!(all, vec![vec![PEER_C, PEER_A], vec![PEER_B, PEER_C, PEER_A], vec![PEER_C], vec![PEER_A, PEER_B, PEER_C]]);
    for block in 0..4 {
        assert_eq!(block_sources(&view, block), all[block]);
    }
}

#[test]
fn no_peers_means_no_sources() {
    let view = PeerBlockView::new();
    assert_eq!(convert_block_sources(3, &view), vec![Vec::<u128>::new(); 3]);
    assert_eq!(convert_block_sources(0, &view), Vec::<Vec<u128>>::new());
}

#[test]
fn source_count_follows_block_geometry() {
    let view = PeerBlockView::new();
    assert_eq!(convert_block_sources(4096, &view).len(), 1024);
    assert_eq!(convert_block_sources(5006, &view).len(), 1001);
}

#[test]
fn blocks_without_sources_come_last() {
    let sources = vec![vec![], vec![PEER_A, PEER_B], vec![], vec![PEER_A], vec![PEER_A, PEER_B, PEER_C], vec![PEER_B]];
    assert_eq!(sort_by_block_availability(sources.clone()), vec![3, 5, 1, 4, 0, 2]);
    assert_eq!(availability_order(&sources), vec![3, 5, 1, 4, 0, 2]);
}

#[test]
fn schedule_is_sorted_by_source_count() {
    let sources: Vec<Vec<u128>> =
        (0..50usize).map(|i| vec![PEER_A; (i * 7) % 5]).collect();
    let order = sort_by_block_availability(sources.clone());
    assert_eq!(order.len(), 50);
    let mut sorted = order.clone();
    sorted.sort();
    assert_eq!(sorted, (0..50).collect::<Vec<usize>>());
    for pair in order.windows(2) {
        let (a, b) = (sources[pair[0]].len(), sources[pair[1]].len());
        assert!(b == 0 || (a >= 1 && a <= b));
    }
}

#[test]
fn schedule_of_nothing_is_empty() {
    assert_eq!(sort_by_block_availability(vec![]), Vec::<usize>::new());
}

#[test]
fn zero_source_block_is_last_and_reported() {
    let data = vec![1u8, 2, 3];
    let view = view_of(&[(PEER_A, vec![0, 1])]);
    let file = File::prepare(PathBuf::from("wanted"), &data);
    let mut handle = file.to_handle();
    handle.update_sources(&view);
    assert_eq!(handle.sources, vec![vec![PEER_A], vec![PEER_A], vec![]]);
    assert_eq!(sort_by_block_availability(handle.sources.clone()), vec![0, 1, 2]);
    let (mut state, first) = handle.begin();
    assert_eq!(first, DownloadAction::Fetch { peer: PEER_A, block_id: 0 });
    let step = handle.download(&mut state, &DownloadEvent::Reply(vec![1]));
    assert_eq!(step.store_at, Some(0));
    assert_eq!(step.next, DownloadAction::Fetch { peer: PEER_A, block_id: 1 });
    let step = handle.download(&mut state, &DownloadEvent::Reply(vec![2]));
    assert_eq!(step.store_at, Some(1));
    assert_eq!(step.next, DownloadAction::Finish { offset: 3 });
    assert!(state.is_finished());
    assert_eq!(state.missing, vec![2]);
    assert_eq!(state.outcome(), Err(RequestError::NoSource));
}

#[test]
fn missing_metadata_fails_the_request() {
    let got = File::from_metadata(&vec![1; 32], PathBuf::from("out"), None);
    assert!(matches!(got, Err(RequestError::NoMetadata)));
}

#[test]
fn metadata_of_another_file_fails_the_request() {
    let h1 = vec![1; 32];
    let h2 = vec![2; 32];
    let served = FileMetadata { hash: (h2, vec![]), size: 0, trailing_bytes: vec![] };
    let got = File::from_metadata(&h1, PathBuf::from("out"), Some(served));
    match got {
        Err(error) => {
            assert_eq!(error, RequestError::HashMismatch);
            assert_eq!(error.exit_code(), 2);
        }
        Ok(_) => panic!("metadata of another file was taken"),
    }
}

#[test]
fn exit_codes() {
    assert_eq!(RequestError::HashMismatch.exit_code(), 2);
    assert_eq!(RequestError::NoMetadata.exit_code(), 1);
    assert_eq!(RequestError::NoSource.exit_code(), 1);
}

#[test]
fn matching_metadata_gives_the_file() {
    let h = vec![7; 32];
    let served =
        FileMetadata { hash: (h.clone(), vec![vec![0; 32]]), size: 1, trailing_bytes: vec![] };
    let file = File::from_metadata(&h, PathBuf::from("out"), Some(served)).ok().unwrap();
    assert_eq!(file.metadata.hash.0, h);
    assert_eq!(file.metadata.size, 1);
    assert!(file.blocks.is_empty());
    assert_eq!(file.local_path, PathBuf::from("out"));
}

#[test]
fn bad_replies_move_on_to_the_next_source() {
    let data = vec![10u8, 20];
    let handle = fetching(&data, vec![vec![PEER_A, PEER_B, PEER_C], vec![PEER_A]]);
    let (mut state, first) = handle.begin();
    assert_eq!(state.order, vec![1, 0]);
    assert_eq!(first, DownloadAction::Fetch { peer: PEER_A, block_id: 1 });
    let step = handle.download(&mut state, &DownloadEvent::Reply(vec![20]));
    assert_eq!(step.store_at, Some(1));
    assert_eq!(step.next, DownloadAction::Fetch { peer: PEER_A, block_id: 0 });
    let step = handle.download(&mut state, &DownloadEvent::Unreachable);
    assert_eq!(step.store_at, None);
    assert_eq!(step.next, DownloadAction::Fetch { peer: PEER_B, block_id: 0 });
    let step = handle.download(&mut state, &DownloadEvent::Reply(vec![]));
    assert_eq!(step.store_at, None);
    assert_eq!(step.next, DownloadAction::Fetch { peer: PEER_C, block_id: 0 });
    let step = handle.download(&mut state, &DownloadEvent::Reply(vec![10]));
    assert_eq!(step.store_at, Some(0));
    assert_eq!(step.next, DownloadAction::Finish { offset: 2 });
    assert_eq!(state.outcome(), Ok(()));
    assert!(state.missing.is_empty());
}

#[test]
fn wrong_bytes_are_not_stored() {
    let data = vec![10u8, 20];
    let handle = fetching(&data, vec![vec![PEER_A], vec![PEER_A, PEER_B]]);
    let (mut state, first) = handle.begin();
    assert_eq!(first, DownloadAction::Fetch { peer: PEER_A, block_id: 0 });
    let step = handle.download(&mut state, &DownloadEvent::Reply(vec![11]));
    assert_eq!(step.store_at, None);
    assert_eq!(step.next, DownloadAction::Fetch { peer: PEER_A, block_id: 1 });
    assert_eq!(state.missing, vec![0]);
    let step = handle.download(&mut state, &DownloadEvent::Reply(vec![20, 20]));
    assert_eq!(step.store_at, None);
    assert_eq!(step.next, DownloadAction::Fetch { peer: PEER_B, block_id: 1 });
    let step = handle.download(&mut state, &DownloadEvent::Reply(vec![20]));
    assert_eq!(step.store_at, Some(1));
    assert_eq!(step.next, DownloadAction::Finish { offset: 2 });
    assert_eq!(state.outcome(), Err(RequestError::NoSource));
}

#[test]
fn check_block_accepts_only_the_block() {
    let data = vec![10u8, 20, 30];
    let handle = fetching(&data, vec![vec![PEER_A]; 3]);
    assert_eq!(handle.check_block(2, &DownloadEvent::Reply(vec![30])), Some(2));
    assert_eq!(handle.check_block(1, &DownloadEvent::Reply(vec![30])), None);
    assert_eq!(handle.check_block(1, &DownloadEvent::Reply(vec![])), None);
    assert_eq!(handle.check_block(1, &DownloadEvent::Unreachable), None);
    assert_eq!(handle.check_block(3, &DownloadEvent::Reply(vec![30])), None);
}

#[test]
fn download_without_any_source_finishes_at_once() {
    let data = vec![1u8, 2, 3];
    let handle = fetching(&data, vec![vec![], vec![], vec![]]);
    let (mut state, first) = handle.begin();
    assert_eq!(first, DownloadAction::Finish { offset: 3 });
    assert_eq!(state.missing, vec![0, 1, 2]);
    assert!(state.is_finished());
    let step = handle.download(&mut state, &DownloadEvent::Unreachable);
    assert_eq!(step.store_at, None);
    assert_eq!(step.next, DownloadAction::Finish { offset: 3 });
    assert_eq!(state.missing, vec![0, 1, 2]);
}

#[test]
fn download_of_an_empty_file_only_writes_trailing_bytes() {
    let handle = fetching(&[], vec![]);
    let (state, first) = handle.begin();
    assert_eq!(first, DownloadAction::Finish { offset: 0 });
    assert_eq!(state.outcome(), Ok(()));
    assert!(handle.file.metadata.hash.1.is_empty());
    assert!(handle.file.metadata.trailing_bytes.is_empty());
}

#[test]
fn finish_offset_is_where_trailing_bytes_start() {
    let data: Vec<u8> = (0..5006).map(|i| (i % 256) as u8).collect();
    let handle = fetching(&data, vec![vec![]; 1001]);
    let (_, first) = handle.begin();
    assert_eq!(first, DownloadAction::Finish { offset: 5005 });
    assert_eq!(handle.file.metadata.trailing_bytes, vec![data[5005]]);
}

fn run_transfer(source: &[u8]) -> Vec<u8> {
    let peer_a = PEER_A;
    let hosted = File::prepare(PathBuf::from("hosted"), source);
    let wanted = hosted.metadata.hash.0.clone();
    let mut catalog = Catalog::new();
    catalog.insert(hosted).unwrap();

    let reply = announce(&mut catalog, &discovery_query(&wanted, true));
    let metadata = reply.metadata.and_then(|bytes| decode_metadata(&bytes));
    let mut view = PeerBlockView::new();
    if let Some(bytes) = reply.availability {
        view.record(peer_a, decode_block_list(&bytes).unwrap());
    }
    view.set_latency(peer_a, Some(150));

    let file = File::from_metadata(&wanted, PathBuf::from("fetched"), metadata).ok().unwrap();
    let mut handle = file.to_handle();
    handle.update_sources(&view);

    let mut output = vec![0u8; handle.file.metadata.size];
    let (mut state, mut action) = handle.begin();
    loop {
        match action {
            DownloadAction::Fetch { peer, block_id } => {
                assert_eq!(peer, peer_a);
                let request = encode_block_request(&wanted, block_id).unwrap();
                let (hash, id) = decode_block_request(&request).unwrap();
                let place = catalog.find(&hash).unwrap();
                let block = catalog.files[place].get_block(source, id).unwrap();
                let event = DownloadEvent::Reply(block);
                let step = handle.download(&mut state, &event);
                let offset = step.store_at.unwrap();
                if let DownloadEvent::Reply(bytes) = &event {
                    output[offset..offset + bytes.len()].copy_from_slice(bytes);
                }
                action = step.next;
            }
            DownloadAction::Finish { offset } => {
                let trailing = &handle.file.metadata.trailing_bytes;
                output[offset..offset + trailing.len()].copy_from_slice(trailing);
                break;
            }
        }
    }
    assert_eq!(state.outcome(), Ok(()));
    output
}

#[test]
fn single_peer_roundtrip() {
    let source = vec![0xAAu8; 4096];
    assert_eq!(calculate_block_size(4096), 4);
    let hosted = File::prepare(PathBuf::from("hosted"), &source);
    assert_eq!(hosted.metadata.hash.1.len(), 1024);
    assert!(hosted.metadata.trailing_bytes.is_empty());
    let output = run_transfer(&source);
    assert_eq!(output, source);
    assert_eq!(Sha256::digest(&output).to_vec(), Sha256::digest(&source).to_vec());
}

#[test]
fn roundtrip_of_files_with_trailing_bytes() {
    for len in [0usize, 1, 5, 2003, 5006, 7777] {
        let source: Vec<u8> = (0..len).map(|i| (i * 13 % 256) as u8).collect();
        assert_eq!(run_transfer(&source), source, "size {}", len);
    }
}

#[test]
fn every_step_moves_the_download_on() {
    let data = vec![1u8, 2, 3, 4];
    let handle = fetching(
        &data,
        vec![vec![PEER_A, PEER_B], vec![PEER_A], vec![], vec![PEER_A, PEER_B, PEER_C]],
    );
    let (mut state, mut action) = handle.begin();
    let mut steps = 0;
    while let DownloadAction::Fetch { .. } = action {
        let before = (state.next, state.source);
        let step = handle.download(&mut state, &DownloadEvent::Unreachable);
        assert!(
            state.next > before.0 || (state.next == before.0 && state.source == before.1 + 1)
        );
        assert_eq!(step.store_at, None);
        action = step.next;
        steps += 1;
    }
    assert_eq!(steps, 6);
    assert_eq!(action, DownloadAction::Finish { offset: 4 });
    assert_eq!(state.missing, vec![1, 0, 3, 2]);
}
