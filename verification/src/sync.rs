//! The decisions of the block sync loop: where to resume after checking for
//! a chain reorganisation, when to wait for the remote node, how the
//! processed height advances, when to refresh the indexer's memory, and the
//! steps of processing one block.
//!
//! The loop itself (remote calls, sleeps, the indexer run) is driven from
//! outside; the reorganisation check is a state machine that asks for one
//! piece of outside data at a time.

use vstd::prelude::*;
use crate::bytes::bytes_eq;
use crate::codec::{decimal, push_decimal};

verus! {

/// How many blocks back from the indexed tip a reorganisation is looked for.
pub const MAX_REORG_DEPTH: u32 = 100;

/// Memory size from which the indexer's memory is refreshed before a run:
/// 1.75 GiB.
pub const REFRESH_THRESHOLD_BYTES: usize = 1879048192;

/// What the reorganisation check needs next, or its outcome.
#[derive(Debug, PartialEq, Eq)]
pub enum ReorgAction {
    /// Ask the remote node for its block count.
    FetchRemoteTip,
    /// Look up the locally stored hash of the block at this height.
    GetLocalHash(u32),
    /// Ask the remote node for the hash of the block at this height.
    FetchRemoteHash(u32),
    /// Resume indexing at this height.
    Resume(u32),
    /// The remote hash at this height, within the remote chain, could not be
    /// fetched.
    Fail(u32),
}

/// The answer to the last action.
#[derive(Debug)]
pub enum ReorgEvent {
    RemoteTip(u32),
    LocalHash(Option<Vec<u8>>),
    /// The remote hash, or `None` when fetching it failed.
    RemoteHash(Option<Vec<u8>>),
}

/// Where the check stands.
#[derive(Debug, Clone, Copy, PartialEq, Eq)]
pub enum ReorgPhase {
    AwaitTip,
    AwaitLocal,
    AwaitRemote,
    Done,
}

/// The reorganisation check: walks back from the indexed tip comparing
/// local and remote block hashes, down to [`MAX_REORG_DEPTH`] blocks.
#[derive(Debug)]
pub struct ReorgScan {
    pub current: u32,
    pub remote_tip: u32,
    pub check_height: u32,
    pub start_check: u32,
    pub divergence: Option<u32>,
    pub local_hash: Vec<u8>,
    pub phase: ReorgPhase,
}

/// The lowest height above which the check looks, for an indexed tip.
pub open spec fn start_check_of(current: u32) -> u32 {
    if current > MAX_REORG_DEPTH { (current - MAX_REORG_DEPTH) as u32 } else { 0 }
}

/// The height to resume at once the walk is over.
pub open spec fn resume_of(current: u32, divergence: Option<u32>) -> u32 {
    match divergence {
        Some(d) => d,
        None => (current + 1) as u32,
    }
}

impl ReorgScan {
    /// What holds in every state: the walk stays between the lowest checked
    /// height and the tip, and a divergence lies in that range.
    pub open spec fn inv(&self) -> bool {
        &&& self.current < u32::MAX
        &&& self.start_check == start_check_of(self.current)
        &&& self.start_check <= self.check_height <= self.current
        &&& (self.phase == ReorgPhase::AwaitLocal || self.phase == ReorgPhase::AwaitRemote) ==> self.check_height > self.start_check
        &&& self.divergence matches Some(d) ==> self.start_check < d <= self.current
    }

    /// The next action of the walk at the current height, or its outcome.
    pub open spec fn walk_action(&self) -> ReorgAction {
        if self.check_height > self.start_check {
            ReorgAction::GetLocalHash(self.check_height)
        } else {
            ReorgAction::Resume(resume_of(self.current, self.divergence))
        }
    }

    /// Starts the check for the indexed tip `current_indexed_height`.
    pub fn start(current_indexed_height: u32) -> (r: (ReorgScan, ReorgAction))
        requires current_indexed_height < u32::MAX,
        ensures
            r.0.inv(),
            r.0.current == current_indexed_height,
            r.0.divergence is None,
            current_indexed_height == 0 ==> r.1 == ReorgAction::Resume(0) && r.0.phase == ReorgPhase::Done,
            current_indexed_height > 0 ==> r.1 == ReorgAction::FetchRemoteTip && r.0.phase == ReorgPhase::AwaitTip,
    {
        let start_check = if current_indexed_height > MAX_REORG_DEPTH {
            current_indexed_height - MAX_REORG_DEPTH
        } else {
            0
        };
        let phase = if current_indexed_height == 0 { ReorgPhase::Done } else { ReorgPhase::AwaitTip };
        let scan = ReorgScan {
            current: current_indexed_height,
            remote_tip: 0,
            check_height: current_indexed_height,
            start_check,
            divergence: None,
            local_hash: Vec::new(),
            phase,
        };
        if current_indexed_height == 0 {
            (scan, ReorgAction::Resume(0))
        } else {
            (scan, ReorgAction::FetchRemoteTip)
        }
    }

    /// Moves on to the next height, or finishes.
    fn advance(&mut self) -> (a: ReorgAction)
        requires old(self).inv(), old(self).check_height > old(self).start_check,
        ensures
            final(self).inv(),
            final(self).check_height == old(self).check_height - 1,
            final(self).divergence == old(self).divergence,
            final(self).current == old(self).current,
            final(self).remote_tip == old(self).remote_tip,
            a == final(self).walk_action(),
            final(self).phase == (if a is Resume { ReorgPhase::Done } else { ReorgPhase::AwaitLocal }),
    {
        self.check_height = self.check_height - 1;
        self.walk()
    }

    fn walk(&mut self) -> (a: ReorgAction)
        requires
            old(self).current < u32::MAX,
            old(self).start_check == start_check_of(old(self).current),
            old(self).start_check <= old(self).check_height <= old(self).current,
            old(self).divergence matches Some(d) ==> old(self).start_check < d <= old(self).current,
        ensures
            final(self).inv(),
            final(self).check_height == old(self).check_height,
            final(self).divergence == old(self).divergence,
            final(self).current == old(self).current,
            final(self).remote_tip == old(self).remote_tip,
            a == final(self).walk_action(),
            final(self).phase == (if a is Resume { ReorgPhase::Done } else { ReorgPhase::AwaitLocal }),
    {
        if self.check_height > self.start_check {
            self.phase = ReorgPhase::AwaitLocal;
            ReorgAction::GetLocalHash(self.check_height)
        } else {
            self.phase = ReorgPhase::Done;
            match self.divergence {
                Some(d) => ReorgAction::Resume(d),
                None => ReorgAction::Resume(self.current + 1),
            }
        }
    }

    /// Takes the answer to the last action and says what to do next.
    /// A missing local hash marks a divergence and ends the walk; a remote
    /// hash that cannot be fetched is skipped above the remote tip and is
    /// an error below it; equal hashes end the walk; different hashes mark
    /// a divergence and the walk goes on one block lower. The walk resumes
    /// at the lowest divergence found, or just above the tip.
    pub fn step(&mut self, event: ReorgEvent) -> (a: ReorgAction)
        requires old(self).inv(),
        ensures
            final(self).inv(),
            final(self).current == old(self).current,
            a matches ReorgAction::Resume(h) ==> h <= old(self).current + 1
                && (h == old(self).current + 1 || (start_check_of(old(self).current) < h <= old(self).current)),
            a matches ReorgAction::Fail(h) ==> h == old(self).check_height && h <= old(self).remote_tip,
            (match (old(self).phase, event) {
                (ReorgPhase::AwaitTip, ReorgEvent::RemoteTip(tip)) => {
                    &&& final(self).remote_tip == tip
                    &&& final(self).check_height == old(self).check_height
                    &&& a == final(self).walk_action()
                },
                (ReorgPhase::AwaitLocal, ReorgEvent::LocalHash(None)) => {
                    &&& a == ReorgAction::Resume(old(self).check_height)
                    &&& final(self).phase == ReorgPhase::Done
                },
                (ReorgPhase::AwaitLocal, ReorgEvent::LocalHash(Some(h))) => {
                    &&& a == ReorgAction::FetchRemoteHash(old(self).check_height)
                    &&& final(self).local_hash@ == h@
                    &&& final(self).phase == ReorgPhase::AwaitRemote
                },
                (ReorgPhase::AwaitRemote, ReorgEvent::RemoteHash(None)) => {
                    if old(self).check_height > old(self).remote_tip {
                        &&& final(self).check_height == old(self).check_height - 1
                        &&& final(self).divergence == old(self).divergence
                        &&& a == final(self).walk_action()
                    } else {
                        &&& a == ReorgAction::Fail(old(self).check_height)
                        &&& final(self).phase == ReorgPhase::Done
                    }
                },
                (ReorgPhase::AwaitRemote, ReorgEvent::RemoteHash(Some(h))) => {
                    if h@ == old(self).local_hash@ {
                        &&& a == ReorgAction::Resume(resume_of(old(self).current, old(self).divergence))
                        &&& final(self).phase == ReorgPhase::Done
                    } else {
                        &&& final(self).check_height == old(self).check_height - 1
                        &&& final(self).divergence == Some(old(self).check_height)
                        &&& a == final(self).walk_action()
                    }
                },
                _ => a == ReorgAction::Resume(resume_of(old(self).current, old(self).divergence))
                    && final(self).phase == ReorgPhase::Done,
            }),
    {
        match (self.phase, event) {
            (ReorgPhase::AwaitTip, ReorgEvent::RemoteTip(tip)) => {
                self.remote_tip = tip;
                self.walk()
            },
            (ReorgPhase::AwaitLocal, ReorgEvent::LocalHash(None)) => {
                self.divergence = Some(self.check_height);
                self.phase = ReorgPhase::Done;
                ReorgAction::Resume(self.check_height)
            },
            (ReorgPhase::AwaitLocal, ReorgEvent::LocalHash(Some(h))) => {
                self.local_hash = h;
                self.phase = ReorgPhase::AwaitRemote;
                ReorgAction::FetchRemoteHash(self.check_height)
            },
            (ReorgPhase::AwaitRemote, ReorgEvent::RemoteHash(None)) => {
                if self.check_height > self.remote_tip {
                    self.advance()
                } else {
                    self.phase = ReorgPhase::Done;
                    ReorgAction::Fail(self.check_height)
                }
            },
            (ReorgPhase::AwaitRemote, ReorgEvent::RemoteHash(Some(h))) => {
                if bytes_eq(&h, &self.local_hash) {
                    self.phase = ReorgPhase::Done;
                    match self.divergence {
                        Some(d) => ReorgAction::Resume(d),
                        None => ReorgAction::Resume(self.current + 1),
                    }
                } else {
                    self.divergence = Some(self.check_height);
                    self.advance()
                }
            },
            _ => {
                self.phase = ReorgPhase::Done;
                match self.divergence {
                    Some(d) => ReorgAction::Resume(d),
                    None => ReorgAction::Resume(self.current + 1),
                }
            },
        }
    }
}

/// The next block to fetch: the resume height, or just past the remote tip
/// when the resume height is beyond it.
pub fn get_next_block_height(resume_height: u32, remote_tip: u32) -> (h: u32)
    ensures h == (if resume_height > remote_tip { remote_tip + 1 } else { resume_height as int }),
{
    if resume_height > remote_tip { remote_tip + 1 } else { resume_height }
}

/// The next block to fetch, capped at the remote tip.
pub fn best_height(resume_height: u32, remote_tip: u32) -> (h: u32)
    ensures h == (if resume_height > remote_tip { remote_tip } else { resume_height }),
{
    if resume_height > remote_tip { remote_tip } else { resume_height }
}

/// About half the available processors, at least 5 and at most 16.
pub fn auto_pipeline_size(available_cpus: usize) -> (n: usize)
    ensures
        n == (if available_cpus / 2 > 16 { 16 } else if available_cpus / 2 < 5 { 5 } else { available_cpus / 2 }),
        5 <= n <= 16,
{
    let half = available_cpus / 2;
    let at_least = if half > 5 { half } else { 5 };
    if at_least < 16 { at_least } else { 16 }
}

/// Whether memory of this size (if known) is to be refreshed before the
/// next run.
pub fn should_refresh_memory(memory_size: Option<usize>) -> (r: bool)
    ensures r == (memory_size matches Some(s) && s >= REFRESH_THRESHOLD_BYTES),
{
    match memory_size {
        Some(s) => s >= REFRESH_THRESHOLD_BYTES,
        None => false,
    }
}

/// `height-to-hash/` followed by the height in decimal.
pub open spec fn blockhash_key_spec(height: u32) -> Seq<u8> {
    seq![104u8, 101u8, 105u8, 103u8, 104u8, 116u8, 45u8, 116u8, 111u8, 45u8, 104u8, 97u8, 115u8, 104u8, 47u8]
        + decimal(height as nat)
}

/// The key under which the hash of the block at `height` is stored.
pub fn blockhash_key(height: u32) -> (k: Vec<u8>)
    ensures k@ == blockhash_key_spec(height),
{
    let mut k: Vec<u8> = vec![104, 101, 105, 103, 104, 116, 45, 116, 111, 45, 104, 97, 115, 104, 47];
    let ghost head = k@;
    push_decimal(&mut k, height);
    assert(head =~= seq![104u8, 101u8, 105u8, 103u8, 104u8, 116u8, 45u8, 116u8, 111u8, 45u8, 104u8, 97u8, 115u8, 104u8, 47u8]);
    k
}

/// The heights of the pipeline: the next height to index and the last
/// block processed.
#[derive(Debug, Clone, Copy, PartialEq, Eq)]
pub struct PipelineHeights {
    pub height: u32,
    pub last_best_height: u32,
}

impl PipelineHeights {
    /// Heights for an indexer whose next block is `height`.
    pub fn new(height: u32) -> (p: Self)
        ensures p.height == height, p.last_best_height == height,
    {
        PipelineHeights { height, last_best_height: height }
    }

    /// Records that block `processed` was indexed; says whether it lies
    /// below the previous tip, which confirms a reorganisation.
    pub fn on_success(&mut self, processed: u32) -> (reorg: bool)
        requires processed < u32::MAX,
        ensures
            reorg == (processed < old(self).last_best_height),
            final(self).height == processed + 1,
            final(self).last_best_height == processed,
    {
        let reorg = processed < self.last_best_height;
        self.height = processed + 1;
        self.last_best_height = processed;
        reorg
    }

    /// Whether the configured exit height has been passed.
    pub fn should_exit(&self, exit_at: Option<u32>) -> (r: bool)
        ensures r == (exit_at matches Some(e) && self.height > e),
    {
        match exit_at {
            Some(e) => self.height > e,
            None => false,
        }
    }
}

/// What the block fetcher does next.
#[derive(Debug, PartialEq, Eq)]
pub enum FetchDecision {
    /// The exit height is reached.
    Stop,
    /// Nothing new yet: wait.
    Wait,
    /// Fetch the block at this height.
    Fetch(u32),
}

/// The block fetcher's position.
#[derive(Debug, Clone, Copy, PartialEq, Eq)]
pub struct FetcherState {
    pub current_height: u32,
}

impl FetcherState {
    pub fn new(height: u32) -> (s: Self)
        ensures s.current_height == height,
    {
        FetcherState { current_height: height }
    }

    /// Whether the fetcher is to stop before the next round.
    pub fn should_stop(&self, exit_at: Option<u32>) -> (r: bool)
        ensures r == (exit_at matches Some(e) && self.current_height >= e),
    {
        match exit_at {
            Some(e) => self.current_height >= e,
            None => false,
        }
    }

    /// Given where the reorganisation check resumes and the remote tip:
    /// move back on a reorganisation, wait when caught up, else fetch.
    pub fn decide(&mut self, next_height: u32, remote_tip: u32) -> (d: FetchDecision)
        ensures
            final(self).current_height == (if next_height < old(self).current_height {
                next_height
            } else {
                old(self).current_height
            }),
            d == (if next_height > remote_tip { FetchDecision::Wait } else { FetchDecision::Fetch(next_height) }),
    {
        if next_height < self.current_height {
            self.current_height = next_height;
        }
        if next_height > remote_tip {
            FetchDecision::Wait
        } else {
            FetchDecision::Fetch(next_height)
        }
    }

    /// Records that block `fetched` was handed on.
    pub fn fetched(&mut self, fetched: u32)
        requires fetched < u32::MAX,
        ensures final(self).current_height == fetched + 1,
    {
        self.current_height = fetched + 1;
    }
}

/// Failed reads and writes of the store are retried this many times.
pub const MAX_RETRIES: u32 = 100;

/// After a failed attempt with `count` earlier retries: whether to give up.
pub fn should_give_up(count: u32) -> (r: bool)
    ensures r == (count > MAX_RETRIES),
{
    count > MAX_RETRIES
}

/// How many times a request to the node is tried.
pub const POST_ATTEMPTS: u32 = 5;

/// The wait before the first retry of a request to the node, in
/// milliseconds.
pub const FIRST_RETRY_DELAY_MS: u64 = 500;

/// The longest wait between retries of a request to the node, in
/// milliseconds.
pub const MAX_RETRY_DELAY_MS: u64 = 16000;

/// Whether a request to the node is tried again after its attempt number
/// `attempt` (from 0) failed.
pub fn post_tries_again(attempt: u32) -> (r: bool)
    ensures r == (attempt + 1 < POST_ATTEMPTS),
{
    attempt < POST_ATTEMPTS - 1
}

/// The wait before the next retry: twice the last wait plus the jitter
/// (drawn from 0 to 100 ms), at most [`MAX_RETRY_DELAY_MS`].
pub fn next_retry_delay(last_ms: u64, jitter_ms: u64) -> (d: u64)
    requires 2 * last_ms + jitter_ms <= u64::MAX,
    ensures d == (if 2 * last_ms + jitter_ms < MAX_RETRY_DELAY_MS { 2 * last_ms + jitter_ms } else { MAX_RETRY_DELAY_MS as int }),
{
    let grown = 2 * last_ms + jitter_ms;
    if grown < MAX_RETRY_DELAY_MS { grown } else { MAX_RETRY_DELAY_MS }
}

/// Whether the block at `block_number` is beyond the remote block count, so
/// that fetching it must wait.
pub fn must_wait_for_block(block_number: u32, remote_count: u32) -> (r: bool)
    ensures r == (block_number > remote_count),
{
    block_number > remote_count
}

/// Where the processing of one block stands.
#[derive(Debug, Clone, Copy, PartialEq, Eq, Structural)]
pub enum BlockRunPhase {
    /// Nothing done yet.
    Ready,
    /// Memory is being refreshed before the first run.
    PreRefresh,
    /// The first run is under way.
    Running,
    /// Memory is being refreshed after the first run failed.
    Refreshing,
    /// The run is being tried again.
    Retrying,
    /// The block was processed.
    Done,
    /// The block could not be processed.
    Failed,
}

/// What the host reports while it processes a block.
#[derive(Debug, Clone, Copy, PartialEq, Eq, Structural)]
pub enum BlockRunEvent {
    /// Processing starts; the size of the instance's memory, if known.
    Started(Option<usize>),
    /// A memory refresh finished, successfully or not.
    Refreshed(bool),
    /// A run of the indexer finished, successfully or not.
    RunDone(bool),
}

/// What the host does next with a block.
#[derive(Debug, Clone, Copy, PartialEq, Eq, Structural)]
pub enum BlockRunAction {
    /// Refresh the instance's memory.
    RefreshMemory,
    /// Run the indexer on the block.
    Run,
    /// After a first run: store the block hash, compute and store the state
    /// root, and take a snapshot if one is due.
    CommitFirstRun,
    /// After a run that needed a refresh: take a snapshot, if one is due,
    /// with the state root already stored.
    CommitRetry,
    /// Report the block as failed.
    Fail,
}

/// The next phase and action of the processing of a block on an event: a
/// large memory is refreshed before the first run (whatever the refresh
/// gives); a failed first run is followed by a refresh and one more run; a
/// failed refresh or second run fails the block. An event that does not fit
/// the phase fails it too.
pub open spec fn block_run_transition(phase: BlockRunPhase, event: BlockRunEvent) -> (BlockRunPhase, BlockRunAction) {
    match (phase, event) {
        (BlockRunPhase::Ready, BlockRunEvent::Started(m)) =>
            if m matches Some(size) && size >= REFRESH_THRESHOLD_BYTES {
                (BlockRunPhase::PreRefresh, BlockRunAction::RefreshMemory)
            } else {
                (BlockRunPhase::Running, BlockRunAction::Run)
            },
        (BlockRunPhase::PreRefresh, BlockRunEvent::Refreshed(_)) => (BlockRunPhase::Running, BlockRunAction::Run),
        (BlockRunPhase::Running, BlockRunEvent::RunDone(true)) => (BlockRunPhase::Done, BlockRunAction::CommitFirstRun),
        (BlockRunPhase::Running, BlockRunEvent::RunDone(false)) => (BlockRunPhase::Refreshing, BlockRunAction::RefreshMemory),
        (BlockRunPhase::Refreshing, BlockRunEvent::Refreshed(true)) => (BlockRunPhase::Retrying, BlockRunAction::Run),
        (BlockRunPhase::Retrying, BlockRunEvent::RunDone(true)) => (BlockRunPhase::Done, BlockRunAction::CommitRetry),
        _ => (BlockRunPhase::Failed, BlockRunAction::Fail),
    }
}

/// The processing of the block at a height.
pub struct BlockRun {
    pub height: u32,
    pub phase: BlockRunPhase,
}

impl BlockRun {
    /// The processing of the block at `height`, not yet started.
    pub fn new(height: u32) -> (r: Self)
        ensures r.height == height, r.phase == BlockRunPhase::Ready,
    {
        BlockRun { height, phase: BlockRunPhase::Ready }
    }

    /// Takes in an event and gives the next action.
    pub fn step(&mut self, event: BlockRunEvent) -> (a: BlockRunAction)
        ensures
            final(self).height == old(self).height,
            (final(self).phase, a) == block_run_transition(old(self).phase, event),
    {
        let (phase, action) = match (self.phase, event) {
            (BlockRunPhase::Ready, BlockRunEvent::Started(m)) => {
                if should_refresh_memory(m) {
                    (BlockRunPhase::PreRefresh, BlockRunAction::RefreshMemory)
                } else {
                    (BlockRunPhase::Running, BlockRunAction::Run)
                }
            },
            (BlockRunPhase::PreRefresh, BlockRunEvent::Refreshed(_)) => (BlockRunPhase::Running, BlockRunAction::Run),
            (BlockRunPhase::Running, BlockRunEvent::RunDone(ok)) => {
                if ok {
                    (BlockRunPhase::Done, BlockRunAction::CommitFirstRun)
                } else {
                    (BlockRunPhase::Refreshing, BlockRunAction::RefreshMemory)
                }
            },
            (BlockRunPhase::Refreshing, BlockRunEvent::Refreshed(ok)) => {
                if ok {
                    (BlockRunPhase::Retrying, BlockRunAction::Run)
                } else {
                    (BlockRunPhase::Failed, BlockRunAction::Fail)
                }
            },
            (BlockRunPhase::Retrying, BlockRunEvent::RunDone(ok)) => {
                if ok {
                    (BlockRunPhase::Done, BlockRunAction::CommitRetry)
                } else {
                    (BlockRunPhase::Failed, BlockRunAction::Fail)
                }
            },
            _ => (BlockRunPhase::Failed, BlockRunAction::Fail),
        };
        self.phase = phase;
        action
    }
}

} // verus!
