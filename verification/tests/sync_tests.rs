use metashrew::sync::{
    auto_pipeline_size, best_height, blockhash_key, get_next_block_height, must_wait_for_block, next_retry_delay,
    post_tries_again, should_give_up, FIRST_RETRY_DELAY_MS,
    should_refresh_memory, FetchDecision, FetcherState, PipelineHeights, ReorgAction, ReorgEvent, ReorgScan,
    REFRESH_THRESHOLD_BYTES, BlockRun, BlockRunAction, BlockRunEvent, BlockRunPhase,
};

#[test]
fn reorg_scan_starts_at_genesis_when_nothing_indexed() {
    let (_, a) = ReorgScan::start(0);
    assert_eq!(a, ReorgAction::Resume(0));
}

#[test]
fn reorg_scan_without_divergence_resumes_after_tip() {
    let (mut s, a) = ReorgScan::start(10);
    assert_eq!(a, ReorgAction::FetchRemoteTip);
    assert_eq!(s.step(ReorgEvent::RemoteTip(12)), ReorgAction::GetLocalHash(10));
    assert_eq!(s.step(ReorgEvent::LocalHash(Some(vec![1]))), ReorgAction::FetchRemoteHash(10));
    assert_eq!(s.step(ReorgEvent::RemoteHash(Some(vec![1]))), ReorgAction::Resume(11));
}

#[test]
fn reorg_scan_finds_lowest_divergence() {
    let (mut s, _) = ReorgScan::start(5);
    assert_eq!(s.step(ReorgEvent::RemoteTip(5)), ReorgAction::GetLocalHash(5));
    assert_eq!(s.step(ReorgEvent::LocalHash(Some(vec![5]))), ReorgAction::FetchRemoteHash(5));
    assert_eq!(s.step(ReorgEvent::RemoteHash(Some(vec![6]))), ReorgAction::GetLocalHash(4));
    assert_eq!(s.step(ReorgEvent::LocalHash(Some(vec![4]))), ReorgAction::FetchRemoteHash(4));
    assert_eq!(s.step(ReorgEvent::RemoteHash(Some(vec![7]))), ReorgAction::GetLocalHash(3));
    assert_eq!(s.step(ReorgEvent::LocalHash(Some(vec![3]))), ReorgAction::FetchRemoteHash(3));
    assert_eq!(s.step(ReorgEvent::RemoteHash(Some(vec![3]))), ReorgAction::Resume(4));
}

#[test]
fn reorg_scan_missing_local_hash_is_a_divergence() {
    let (mut s, _) = ReorgScan::start(7);
    s.step(ReorgEvent::RemoteTip(7));
    assert_eq!(s.step(ReorgEvent::LocalHash(None)), ReorgAction::Resume(7));
}

#[test]
fn reorg_scan_remote_failure() {
    let (mut s, _) = ReorgScan::start(7);
    s.step(ReorgEvent::RemoteTip(5));
    s.step(ReorgEvent::LocalHash(Some(vec![1])));
    // Above the remote tip the block is skipped.
    assert_eq!(s.step(ReorgEvent::RemoteHash(None)), ReorgAction::GetLocalHash(6));
    s.step(ReorgEvent::LocalHash(Some(vec![1])));
    assert_eq!(s.step(ReorgEvent::RemoteHash(None)), ReorgAction::GetLocalHash(5));
    s.step(ReorgEvent::LocalHash(Some(vec![1])));
    // Within the remote chain it is an error.
    assert_eq!(s.step(ReorgEvent::RemoteHash(None)), ReorgAction::Fail(5));
}

#[test]
fn reorg_scan_stops_after_max_depth() {
    let (mut s, _) = ReorgScan::start(101);
    assert_eq!(s.step(ReorgEvent::RemoteTip(200)), ReorgAction::GetLocalHash(101));
    s.step(ReorgEvent::LocalHash(Some(vec![1])));
    // The only height above 1 + 100 - 100 ... checks stop at height 2.
    let mut h = 101;
    let mut a = s.step(ReorgEvent::RemoteHash(Some(vec![2])));
    while let ReorgAction::GetLocalHash(x) = a {
        h = x;
        s.step(ReorgEvent::LocalHash(Some(vec![1])));
        a = s.step(ReorgEvent::RemoteHash(Some(vec![2])));
    }
    assert_eq!(h, 2);
    assert_eq!(a, ReorgAction::Resume(2));
}

#[test]
fn next_block_heights() {
    assert_eq!(get_next_block_height(10, 20), 10);
    assert_eq!(get_next_block_height(21, 20), 21);
    assert_eq!(get_next_block_height(30, 20), 21);
    assert_eq!(best_height(30, 20), 20);
    assert_eq!(best_height(5, 20), 5);
}

#[test]
fn pipeline_size_is_clamped() {
    assert_eq!(auto_pipeline_size(1), 5);
    assert_eq!(auto_pipeline_size(12), 6);
    assert_eq!(auto_pipeline_size(64), 16);
}

#[test]
fn memory_refresh_threshold() {
    assert_eq!(REFRESH_THRESHOLD_BYTES, 1879048192);
    assert!(should_refresh_memory(Some(1879048192)));
    assert!(!should_refresh_memory(Some(1879048191)));
    assert!(!should_refresh_memory(None));
}

#[test]
fn blockhash_key_format() {
    assert_eq!(blockhash_key(42), b"height-to-hash/42".to_vec());
    assert_eq!(blockhash_key(0), b"height-to-hash/0".to_vec());
}

#[test]
fn pipeline_heights_track_reorg() {
    let mut p = PipelineHeights::new(10);
    assert!(!p.on_success(10));
    assert_eq!(p.height, 11);
    assert!(p.on_success(7));
    assert_eq!(p.height, 8);
    assert!(p.should_exit(Some(7)));
    assert!(!p.should_exit(Some(8)));
    assert!(!p.should_exit(None));
}

#[test]
fn fetcher_decisions() {
    let mut f = FetcherState::new(10);
    assert_eq!(f.decide(8, 20), FetchDecision::Fetch(8));
    assert_eq!(f.current_height, 8);
    assert_eq!(f.decide(21, 20), FetchDecision::Wait);
    f.fetched(8);
    assert_eq!(f.current_height, 9);
    assert!(f.should_stop(Some(9)));
    assert!(!f.should_stop(Some(10)));
}

#[test]
fn retries_and_waits() {
    assert!(!should_give_up(100));
    assert!(should_give_up(101));
    assert!(must_wait_for_block(5, 4));
    assert!(!must_wait_for_block(4, 4));
}

#[test]
fn node_requests_back_off_up_to_sixteen_seconds() {
    assert!(post_tries_again(0));
    assert!(post_tries_again(3));
    assert!(!post_tries_again(4));
    assert_eq!(next_retry_delay(FIRST_RETRY_DELAY_MS, 40), 1040);
    assert_eq!(next_retry_delay(9000, 0), 16000);
    assert_eq!(next_retry_delay(7950, 100), 16000);
    assert_eq!(next_retry_delay(7950, 99), 15999);
}

#[test]
fn block_run_first_try() {
    let mut run = BlockRun::new(840000);
    assert_eq!(run.step(BlockRunEvent::Started(Some(1024))), BlockRunAction::Run);
    assert_eq!(run.step(BlockRunEvent::RunDone(true)), BlockRunAction::CommitFirstRun);
    assert_eq!(run.phase, BlockRunPhase::Done);
    assert_eq!(run.height, 840000);
}

#[test]
fn block_run_refreshes_large_memory_first() {
    let mut run = BlockRun::new(1);
    assert_eq!(run.step(BlockRunEvent::Started(Some(REFRESH_THRESHOLD_BYTES))), BlockRunAction::RefreshMemory);
    assert_eq!(run.step(BlockRunEvent::Refreshed(false)), BlockRunAction::Run);
    assert_eq!(run.phase, BlockRunPhase::Running);
}

#[test]
fn block_run_retries_once_after_refresh() {
    let mut run = BlockRun::new(2);
    assert_eq!(run.step(BlockRunEvent::Started(None)), BlockRunAction::Run);
    assert_eq!(run.step(BlockRunEvent::RunDone(false)), BlockRunAction::RefreshMemory);
    assert_eq!(run.step(BlockRunEvent::Refreshed(true)), BlockRunAction::Run);
    assert_eq!(run.step(BlockRunEvent::RunDone(true)), BlockRunAction::CommitRetry);
    let mut failing = BlockRun::new(3);
    failing.step(BlockRunEvent::Started(None));
    failing.step(BlockRunEvent::RunDone(false));
    assert_eq!(failing.step(BlockRunEvent::Refreshed(false)), BlockRunAction::Fail);
    assert_eq!(failing.phase, BlockRunPhase::Failed);
    let mut twice = BlockRun::new(4);
    twice.step(BlockRunEvent::Started(None));
    twice.step(BlockRunEvent::RunDone(false));
    twice.step(BlockRunEvent::Refreshed(true));
    assert_eq!(twice.step(BlockRunEvent::RunDone(false)), BlockRunAction::Fail);
    let mut odd = BlockRun::new(5);
    assert_eq!(odd.step(BlockRunEvent::RunDone(true)), BlockRunAction::Fail);
}
