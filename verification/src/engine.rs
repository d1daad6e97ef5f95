//! The search engine: depth-limited negamax with alpha-beta pruning over
//! a bounded transposition cache.
//!
//! The cache maps the 32-bit position hash to one packed record and is
//! addressed by hash alone: two distinct positions that share a hash share
//! a cache slot, a deliberate trade-off of this design, so a cached score
//! can be wrong for one of them. The contracts here therefore pin the
//! search down as an exact mathematical function of the position, the
//! window, the depth budget and the cache view — `spec_negamax` and
//! `spec_find_best` — and guarantee that a search hands the board back
//! exactly as it found it. They deliberately do not equate the returned
//! score with the game-theoretic value of the position: through a hash
//! collision the cache may answer for a different position, so no such
//! equation is true of this design.

use vstd::prelude::*;

verus! {

use std::collections::HashMap;
use std::collections::VecDeque;
use nohash_hasher::BuildNoHashHasher;
use crate::board::Board;
use crate::board::FULL_BOARD;
use crate::board::has_win;
use crate::board::lemma_apply_retract_inverse;
use crate::board::move_order;
use crate::board::spec_apply;
use crate::board::spec_flip;
use crate::board::spec_move_order;
use crate::ttentry::TTEntry;
use crate::ttentry::lemma_record_round_trip;
use crate::ttentry::decode_depth;
use crate::ttentry::decode_flag;
use crate::ttentry::decode_score;

/// The number of playable squares, and so the largest move count.
pub const MAX_MOVES: u8 = 42;

/// The cache's capacity in entries.
pub const MAX_TABLE_SIZE: u64 = 9_000_000;

/// How many of the oldest entries one batch eviction drops.
pub const EVICTION_BATCH: u64 = 1000;

/// The integer hasher of nohash_hasher, opaque to the verifier.
#[verifier::external_type_specification]
#[verifier::external_body]
#[verifier::reject_recursive_types(T)]
pub struct ExNoHashHasher<T>(nohash_hasher::NoHashHasher<T>);

/// std's hasher builder for hashers that start from their default state.
#[verifier::external_type_specification]
#[verifier::external_body]
#[verifier::reject_recursive_types(H)]
pub struct ExBuildHasherDefault<H>(core::hash::BuildHasherDefault<H>);

/// Relies on std's HashMap::insert under nohash_hasher's integer hasher,
/// a deterministic hasher that passes the key through, so the map behaves
/// as a map: the binding enters, and the key's previous binding comes back.
#[verifier::external_body]
fn tt_insert(
    m: &mut HashMap<u32, TTEntry, BuildNoHashHasher<u32>>,
    k: u32,
    v: TTEntry,
) -> (prev: Option<TTEntry>)
    ensures
        final(m)@ == old(m)@.insert(k, v),
        match prev {
            Some(p) => old(m)@.contains_key(k) && p == old(m)@[k],
            None => !old(m)@.contains_key(k),
        },
{
    m.insert(k, v)
}

/// Relies on std's HashMap::get under nohash_hasher's integer hasher: the
/// value bound to the key, if the key is present.
#[verifier::external_body]
fn tt_get<'a>(m: &'a HashMap<u32, TTEntry, BuildNoHashHasher<u32>>, k: &u32) -> (entry: Option<
    &'a TTEntry,
>)
    ensures
        match entry {
            Some(e) => m@.contains_key(*k) && *e == m@[*k],
            None => !m@.contains_key(*k),
        },
{
    m.get(k)
}

/// Relies on std's HashMap::remove under nohash_hasher's integer hasher:
/// the key's binding leaves the map and comes back.
#[verifier::external_body]
fn tt_remove(m: &mut HashMap<u32, TTEntry, BuildNoHashHasher<u32>>, k: &u32) -> (prev: Option<
    TTEntry,
>)
    ensures
        final(m)@ == old(m)@.remove(*k),
        match prev {
            Some(p) => old(m)@.contains_key(*k) && p == old(m)@[*k],
            None => !old(m)@.contains_key(*k),
        },
{
    m.remove(k)
}


/// The score of a completed line seen `cfg - depth` plies into a search
/// with budget `cfg`: wins reached in fewer plies score higher.
pub open spec fn win_score(cfg: u8, depth: u8) -> int {
    42 - (cfg - depth)
}

/// Whether a stored record may answer for a node with this window and
/// remaining depth: searched at least as deep, and exact, or a lower
/// bound at or above beta, or an upper bound at or below alpha.
pub open spec fn qualifies(e: TTEntry, alpha: int, beta: int, depth: u8) -> bool {
    decode_depth(e.raw()) >= depth && (decode_flag(e.raw()) == 0 || (decode_flag(e.raw()) == -1
        && decode_score(e.raw()) >= beta) || (decode_flag(e.raw()) == 1 && decode_score(e.raw())
        <= alpha))
}

/// `n` single evictions: each drops the queue's head from the queue and
/// from the map.
pub open spec fn spec_evict(cache: Map<u32, TTEntry>, queue: Seq<u32>, n: int) -> (Map<
    u32,
    TTEntry,
>, Seq<u32>)
    decreases n,
{
    if n <= 0 || queue.len() == 0 {
        (cache, queue)
    } else {
        spec_evict(cache.remove(queue[0]), queue.skip(1), n - 1)
    }
}

/// What one cache write does to the map and the queue: at capacity the
/// oldest batch of entries leaves first; the record then enters under its
/// hash, and a hash not already present joins the back of the queue.
pub open spec fn spec_insert_tt(
    cache: Map<u32, TTEntry>,
    queue: Seq<u32>,
    hash: u32,
    entry: TTEntry,
) -> (Map<u32, TTEntry>, Seq<u32>) {
    let evicted = if cache.len() as int >= MAX_TABLE_SIZE as int {
        spec_evict(cache, queue, EVICTION_BATCH as int)
    } else {
        (cache, queue)
    };
    (
        evicted.0.insert(hash, entry),
        if evicted.0.contains_key(hash) {
            evicted.1
        } else {
            evicted.1.push(hash)
        },
    )
}

/// One negamax node as a mathematical function of the position, the cache
/// map, the insertion queue, the window and the depths: the score and the
/// cache and queue left behind. A completed line is scored before the
/// horizon; the board's fullness comes next, then the horizon, then the
/// cache, and only then does the node expand and store its bound
/// depth-preferred. A cached score stands for whatever position shares
/// the 32-bit hash — the design's accepted collision trade-off — so this
/// function is the exact search the engine runs, not the game value.
pub open spec fn spec_negamax(
    b: Board,
    cache: Map<u32, TTEntry>,
    queue: Seq<u32>,
    alpha: int,
    beta: int,
    depth: u8,
    cfg: u8,
) -> (int, Map<u32, TTEntry>, Seq<u32>)
    decreases depth, 8int,
{
    if has_win(b.board[b.active as int]) {
        (win_score(cfg, depth), cache, queue)
    } else if has_win(b.board[spec_flip(b.active) as int]) {
        (-win_score(cfg, depth), cache, queue)
    } else if b.spec_occupancy() == FULL_BOARD {
        (0, cache, queue)
    } else if depth == 0 {
        (0, cache, queue)
    } else if cache.contains_key(b.hash) && qualifies(cache[b.hash], alpha, beta, depth) {
        (decode_score(cache[b.hash].raw()), cache, queue)
    } else {
        let expanded = spec_search_moves(b, cache, queue, alpha, beta, depth, cfg, 0);
        let score = expanded.0;
        let flag: i8 = if score <= alpha {
            1i8
        } else if score >= beta {
            -1i8
        } else {
            0i8
        };
        let store = !expanded.1.contains_key(b.hash) || decode_depth(expanded.1[b.hash].raw())
            <= depth;
        if store {
            let written = spec_insert_tt(
                expanded.1,
                expanded.2,
                b.hash,
                TTEntry::spec_record(depth, score as i8, flag),
            );
            (score, written.0, written.1)
        } else {
            (score, expanded.1, expanded.2)
        }
    }
}

/// The expansion fold of one node: tries the columns from rank `i` on in
/// the priority order, skipping full ones; each legal move recurses one
/// ply deeper with the window negated and swapped, folds the negated
/// child score into alpha, and stops at a cutoff.
pub open spec fn spec_search_moves(
    b: Board,
    cache: Map<u32, TTEntry>,
    queue: Seq<u32>,
    alpha: int,
    beta: int,
    depth: u8,
    cfg: u8,
    i: int,
) -> (int, Map<u32, TTEntry>, Seq<u32>)
    decreases depth, 7 - i,
{
    if i >= 7 || depth == 0 {
        (alpha, cache, queue)
    } else {
        let m = spec_move_order(i);
        if b.col_height[m as int] >= 6 {
            spec_search_moves(b, cache, queue, alpha, beta, depth, cfg, i + 1)
        } else {
            let child = spec_negamax(
                spec_apply(b, m),
                cache,
                queue,
                -beta,
                -alpha,
                (depth - 1) as u8,
                cfg,
            );
            let score = -child.0;
            let a2 = if score > alpha {
                score
            } else {
                alpha
            };
            if a2 >= beta {
                (a2, child.1, child.2)
            } else {
                spec_search_moves(b, child.1, child.2, a2, beta, depth, cfg, i + 1)
            }
        }
    }
}

/// The root fold: scores each legal column by a full-window search one
/// ply shallower and keeps the first column in the priority order that
/// strictly improves on the best so far, starting from column 0 at the
/// sentinel score -42.
pub open spec fn spec_find_best(
    b: Board,
    cache: Map<u32, TTEntry>,
    queue: Seq<u32>,
    cfg: u8,
    i: int,
    best: u8,
    best_score: int,
) -> (u8, int, Map<u32, TTEntry>, Seq<u32>)
    decreases 7 - i,
{
    if i >= 7 {
        (best, best_score, cache, queue)
    } else {
        let m = spec_move_order(i);
        if b.col_height[m as int] >= 6 {
            spec_find_best(b, cache, queue, cfg, i + 1, best, best_score)
        } else {
            let child = spec_negamax(spec_apply(b, m), cache, queue, -42, 42, (cfg - 1) as u8, cfg);
            let score = -child.0;
            if score > best_score {
                spec_find_best(b, child.1, child.2, cfg, i + 1, m, score)
            } else {
                spec_find_best(b, child.1, child.2, cfg, i + 1, best, best_score)
            }
        }
    }
}

/// Dropping the queue's head from both the cache map and the queue keeps
/// the two aligned.
proof fn lemma_evict_head(pre: Engine, post: Engine, h: u32)
    requires
        pre.wf(),
        pre.seen_order@.len() > 0,
        h == pre.seen_order@[0],
        post.seen_order@ == pre.seen_order@.subrange(1, pre.seen_order@.len() as int),
        post.seen@ == pre.seen@.remove(h),
        post.seen_size as int == pre.seen_size - 1,
        post.depth == pre.depth,
        post.max == pre.max,
    ensures
        post.wf(),
{
    assert(pre.seen@.contains_key(h));
    assert(post.seen@.dom() =~= pre.seen@.dom().remove(h));
    assert forall|i: int, j: int|
        0 <= i < post.seen_order@.len() && 0 <= j < post.seen_order@.len() && i != j implies
        post.seen_order@[i] != post.seen_order@[j] by {
        assert(pre.seen_order@[i + 1] != pre.seen_order@[j + 1]);
    }
    assert forall|i: int| 0 <= i < post.seen_order@.len() implies post.seen@.contains_key(
        #[trigger] post.seen_order@[i],
    ) by {
        assert(post.seen_order@[i] == pre.seen_order@[i + 1]);
        assert(pre.seen@.contains_key(pre.seen_order@[i + 1]));
        assert(pre.seen_order@[i + 1] != pre.seen_order@[0]);
    }
    assert forall|k: u32| #[trigger] post.seen@.contains_key(k) implies post.seen_order@.contains(
        k,
    ) by {
        assert(pre.seen@.contains_key(k) && k != h);
        assert(pre.seen_order@.contains(k));
        let n = choose|n: int| 0 <= n < pre.seen_order@.len() && pre.seen_order@[n] == k;
        assert(n != 0);
        assert(post.seen_order@[n - 1] == k);
    }
}

/// One search engine: its depth budget, running statistics, and the
/// transposition cache with its insertion-order queue.
pub struct Engine {
    pub depth: u8,
    pub prune_counter: u32,
    pub tt_counter: u32,
    pub visited_counter: u32,
    pub seen: HashMap<u32, TTEntry, BuildNoHashHasher<u32>>,
    pub seen_order: VecDeque<u32>,
    pub max: i8,
    pub seen_size: u64,
}

impl Engine {
    /// The configured search depth.
    pub open spec fn search_depth(&self) -> u8 {
        self.depth
    }

    /// The cache's insertion order: every cached hash once, oldest first.
    pub open spec fn cache_order(&self) -> Seq<u32> {
        self.seen_order@
    }

    /// The engine's invariant: the depth budget keeps every score the
    /// search can produce inside the record's range, and the queue lists
    /// exactly the cached hashes, each once, in insertion order.
    pub open spec fn wf(&self) -> bool {
        &&& 1 <= self.depth <= 83
        &&& self.max == 42
        &&& self.seen@.dom().finite()
        &&& self.seen_size as int == self.seen@.len() as int
        &&& self.seen_order@.len() == self.seen@.len()
        &&& self.seen_size <= MAX_TABLE_SIZE
        &&& self.seen_order@.no_duplicates()
        &&& forall|i: int|
            0 <= i < self.seen_order@.len() ==> self.seen@.contains_key(
                #[trigger] self.seen_order@[i],
            )
        &&& forall|k: u32| #[trigger] self.seen@.contains_key(k) ==> self.seen_order@.contains(k)
        &&& forall|k: u32|
            #[trigger] self.seen@.contains_key(k) ==> -41 <= decode_score(self.seen@[k].raw())
                <= 41
    }

    /// A fresh engine with the given depth budget and an empty cache.
    /// The budget stays at or under 83 so that every score the search can
    /// produce, down to a win found 83 plies out at -41, beats the root's
    /// -42 sentinel: the search then always answers with a playable column
    /// when one exists, and every stored score fits the packed record.
    pub fn new(depth: u8) -> (engine: Engine)
        requires
            1 <= depth <= 83,
        ensures
            engine.wf(),
            engine.search_depth() == depth,
            engine.prune_counter == 0,
            engine.tt_counter == 0,
            engine.visited_counter == 0,
            engine.seen@ == Map::<u32, TTEntry>::empty(),
            engine.cache_order() == Seq::<u32>::empty(),
    {
        Engine {
            depth,
            max: MAX_MOVES as i8,
            prune_counter: 0,
            tt_counter: 0,
            visited_counter: 0,
            seen: HashMap::default(),
            seen_order: VecDeque::new(),
            seen_size: 0u64,
        }
    }

    /// Writes one record into the cache: exactly `spec_insert_tt` of the
    /// map and the queue. When the cache is at capacity, the oldest batch
    /// of entries leaves first; the record then enters under its hash, and
    /// a hash seen for the first time joins the back of the queue.
    fn insert_tt(&mut self, hash: u32, entry: TTEntry)
        requires
            old(self).wf(),
            -41 <= decode_score(entry.raw()) <= 41,
        ensures
            final(self).wf(),
            final(self).seen@ == spec_insert_tt(
                old(self).seen@,
                old(self).seen_order@,
                hash,
                entry,
            ).0,
            final(self).seen_order@ == spec_insert_tt(
                old(self).seen@,
                old(self).seen_order@,
                hash,
                entry,
            ).1,
            final(self).seen@.contains_key(hash),
            final(self).seen@[hash] == entry,
            final(self).search_depth() == old(self).search_depth(),
            final(self).max == old(self).max,
            final(self).prune_counter == old(self).prune_counter,
            final(self).tt_counter == old(self).tt_counter,
            final(self).visited_counter == old(self).visited_counter,
    {
        if self.seen_size >= MAX_TABLE_SIZE {
            let mut i: u64 = 0;
            while i < EVICTION_BATCH
                invariant
                    i <= EVICTION_BATCH,
                    self.wf(),
                    old(self).seen_size >= MAX_TABLE_SIZE,
                    self.seen_size as int == old(self).seen_size - i,
                    spec_evict(old(self).seen@, old(self).seen_order@, EVICTION_BATCH as int)
                        == spec_evict(self.seen@, self.seen_order@, EVICTION_BATCH - i),
                    self.depth == old(self).depth,
                    self.max == old(self).max,
                    self.prune_counter == old(self).prune_counter,
                    self.tt_counter == old(self).tt_counter,
                    self.visited_counter == old(self).visited_counter,
                decreases EVICTION_BATCH - i,
            {
                let ghost pre = *self;
                let popped = self.seen_order.pop_front();
                match popped {
                    Some(h) => {
                        tt_remove(&mut self.seen, &h);
                        self.seen_size = self.seen_size - 1;
                        proof {
                            lemma_evict_head(pre, *self, h);
                            assert(spec_evict(pre.seen@, pre.seen_order@, EVICTION_BATCH - i)
                                == spec_evict(
                                self.seen@,
                                self.seen_order@,
                                EVICTION_BATCH - i - 1,
                            ));
                        }
                    },
                    None => {
                        proof {
                            assert(false);
                        }
                    },
                }
                i = i + 1;
            }
        }
        let ghost mid = *self;
        proof {
            assert((mid.seen@, mid.seen_order@) == if old(self).seen@.len() as int
                >= MAX_TABLE_SIZE as int {
                spec_evict(old(self).seen@, old(self).seen_order@, EVICTION_BATCH as int)
            } else {
                (old(self).seen@, old(self).seen_order@)
            });
        }
        let prev = tt_insert(&mut self.seen, hash, entry);
        match prev {
            Some(_) => {
                proof {
                    assert(mid.seen@.contains_key(hash));
                    assert(mid.seen_order@.contains(hash));
                    assert(self.seen@.dom() =~= mid.seen@.dom().insert(hash));
                }
            },
            None => {
                self.seen_order.push_back(hash);
                self.seen_size = self.seen_size + 1;
                proof {
                    // the hash is new to the map, hence new to the queue
                    assert(!mid.seen_order@.contains(hash));
                    assert(self.seen@.dom() =~= mid.seen@.dom().insert(hash));
                    assert(self.seen_order@.no_duplicates());
                    assert forall|k: u32| #[trigger] self.seen@.contains_key(k) implies
                        self.seen_order@.contains(k) by {
                        if k == hash {
                            assert(self.seen_order@[self.seen_order@.len() - 1] == hash);
                        } else {
                            let n = choose|n: int|
                                0 <= n < mid.seen_order@.len() && mid.seen_order@[n] == k;
                            assert(self.seen_order@[n] == k);
                        }
                    }
                }
            },
        }
    }

    /// One negamax node with alpha-beta pruning: the exact mathematical
    /// search `spec_negamax`, over the position, the window, the depth
    /// budget and the cache. Terminal positions are scored before the
    /// horizon, so a completed line is never reported neutral; then the
    /// cache may answer, and otherwise the node expands center-out and
    /// stores its bound depth-preferred. Whatever it explores, it hands
    /// the board back exactly as it received it.
    fn negamax(&mut self, board: &mut Board, alpha: i8, beta: i8, depth: u8) -> (score: i8)
        requires
            old(self).wf(),
            old(board).wf(),
            depth < old(self).depth,
            -42 <= alpha,
            alpha < beta,
            beta <= 42,
        ensures
            final(self).wf(),
            *final(board) == *old(board),
            final(self).depth == old(self).depth,
            final(self).max == old(self).max,
            final(self).visited_counter >= old(self).visited_counter,
            final(self).tt_counter >= old(self).tt_counter,
            final(self).prune_counter >= old(self).prune_counter,
            -41 <= score <= 41,
            score as int == spec_negamax(
                *old(board),
                old(self).seen@,
                old(self).seen_order@,
                alpha as int,
                beta as int,
                depth,
                old(self).depth,
            ).0,
            final(self).seen@ == spec_negamax(
                *old(board),
                old(self).seen@,
                old(self).seen_order@,
                alpha as int,
                beta as int,
                depth,
                old(self).depth,
            ).1,
            final(self).seen_order@ == spec_negamax(
                *old(board),
                old(self).seen@,
                old(self).seen_order@,
                alpha as int,
                beta as int,
                depth,
                old(self).depth,
            ).2,
            has_win(old(board).board[old(board).active as int]) ==> score as int == win_score(
                old(self).depth,
                depth,
            ),
            !has_win(old(board).board[old(board).active as int]) && has_win(
                old(board).board[spec_flip(old(board).active) as int],
            ) ==> score as int == -win_score(old(self).depth, depth),
            !has_win(old(board).board[old(board).active as int]) && !has_win(
                old(board).board[spec_flip(old(board).active) as int],
            ) && old(board).spec_occupancy() == FULL_BOARD ==> score == 0,
            !has_win(old(board).board[old(board).active as int]) && !has_win(
                old(board).board[spec_flip(old(board).active) as int],
            ) && old(board).spec_occupancy() != FULL_BOARD && depth == 0 ==> score == 0,
        decreases depth,
    {
        let other = board.active ^ 1;
        proof {
            let a = board.active;
            assert(a < 2 ==> (a ^ 1usize) < 2 && (a ^ 1usize) == spec_flip(a)) by (bit_vector);
        }
        let moved_in = self.depth - depth;
        // the side to move already holds a line
        if board.game_over(board.active) {
            return self.max - moved_in as i8;
        }
        // the side that just moved completed a line
        if board.game_over(other) {
            return -(self.max - moved_in as i8);
        }
        if board.draw() {
            return 0;
        }
        if depth == 0 {
            return 0;
        }
        self.visited_counter = self.visited_counter.saturating_add(1);
        let probe = tt_get(&self.seen, &board.hash);
        let mut found = false;
        let mut have_hit = false;
        let mut ttscore: i8 = 0;
        match probe {
            Some(ttentry) => {
                found = true;
                let ttflag = ttentry.flag();
                let tts = ttentry.score();
                if ttentry.depth() >= depth && (ttflag == 0 || ttflag == -1 && tts >= beta
                    || ttflag == 1 && tts <= alpha) {
                    have_hit = true;
                    ttscore = tts;
                }
            },
            None => {},
        }
        if found {
            self.tt_counter = self.tt_counter.saturating_add(1);
        }
        if have_hit {
            return ttscore;
        }
        let original_alpha = alpha;
        let mut alpha = alpha;
        let ghost b0 = *board;
        let ghost c0 = self.seen@;
        let ghost q0 = self.seen_order@;
        let ghost target = spec_search_moves(
            b0,
            c0,
            q0,
            original_alpha as int,
            beta as int,
            depth,
            self.depth,
            0,
        );
        let mut m_idx: usize = 0;
        let mut done = false;
        while m_idx < 7 && !done
            invariant
                m_idx <= 7,
                self.wf(),
                board.wf(),
                *board == b0,
                b0 == *old(board),
                c0 == old(self).seen@,
                q0 == old(self).seen_order@,
                self.depth == old(self).depth,
                self.max == old(self).max,
                self.visited_counter >= old(self).visited_counter,
                self.tt_counter >= old(self).tt_counter,
                self.prune_counter >= old(self).prune_counter,
                1 <= depth < self.depth,
                -42 <= alpha <= 41,
                -41 <= beta <= 42,
                original_alpha <= alpha,
                !done ==> alpha < beta,
                done ==> alpha >= -41,
                forall|j: int|
                    0 <= j < m_idx && b0.col_height[spec_move_order(j) as int] < 6 ==> alpha
                        >= -41,
                target == spec_search_moves(
                    b0,
                    c0,
                    q0,
                    original_alpha as int,
                    beta as int,
                    depth,
                    self.depth,
                    0,
                ),
                !done ==> target == spec_search_moves(
                    b0,
                    self.seen@,
                    self.seen_order@,
                    alpha as int,
                    beta as int,
                    depth,
                    self.depth,
                    m_idx as int,
                ),
                done ==> target == (alpha as int, self.seen@, self.seen_order@),
            decreases 7 - m_idx + (if done {
                0int
            } else {
                1int
            }),
        {
            let m = move_order(m_idx);
            let ghost prev_board = *board;
            if board.make_move(m) == 0 {
                m_idx = m_idx + 1;
            } else {
                proof {
                    lemma_apply_retract_inverse(prev_board, m);
                }
                let neg_beta: i8 = -beta;
                let neg_alpha: i8 = -alpha;
                let child = self.negamax(board, neg_beta, neg_alpha, depth - 1);
                let score_m: i8 = -child;
                board.unmake_move(m);
                proof {
                    assert(*board == prev_board);
                }
                if score_m > alpha {
                    alpha = score_m;
                }
                if alpha >= beta {
                    self.prune_counter = self.prune_counter.saturating_add(1);
                    done = true;
                } else {
                    m_idx = m_idx + 1;
                }
            }
        }
        let score = alpha;
        let flag: i8 = if score <= original_alpha {
            1
        } else if score >= beta {
            -1
        } else {
            0
        };
        proof {
            assert(target == (score as int, self.seen@, self.seen_order@));
            if !done {
                // the board is not full, so some rank folded a score that
                // beats the -42 sentinel
                let (c, r) = choose|c: u64, r: u64|
                    c < 7 && r < 6 && !crate::board::bit(
                        b0.spec_occupancy(),
                        crate::board::square(c, r),
                    );
                assert(crate::board::bit(b0.spec_occupancy(), crate::board::square(c, r)) <==> r
                    < b0.col_height[c as int]);
                assert(spec_move_order(crate::board::move_priority(c as u8)) == c as u8);
                assert(b0.col_height[spec_move_order(crate::board::move_priority(c as u8)) as int]
                    < 6);
            }
            assert(-41 <= score <= 41);
            lemma_record_round_trip(depth, score, flag);
        }
        let stored = tt_get(&self.seen, &board.hash);
        let do_store: bool = match stored {
            Some(entry) => depth >= entry.depth(),
            None => true,
        };
        if do_store {
            let entry = TTEntry::new(depth, score, flag);
            let h = board.hash;
            self.insert_tt(h, entry);
        }
        score
    }

    /// Scores every legal root move by a full-window search one ply
    /// shallower and returns the first column in the priority order whose
    /// score strictly improves on every earlier one: exactly the root fold
    /// `spec_find_best`, starting from column 0 at the sentinel score -42.
    /// Every score the search can produce beats that sentinel, so whenever
    /// any column is open the answer is an open column. The board comes
    /// back exactly as given.
    fn find_best_move(&mut self, board: &mut Board) -> (best: u8)
        requires
            old(self).wf(),
            old(board).wf(),
        ensures
            final(self).wf(),
            *final(board) == *old(board),
            final(self).depth == old(self).depth,
            final(self).visited_counter >= old(self).visited_counter,
            final(self).tt_counter >= old(self).tt_counter,
            final(self).prune_counter >= old(self).prune_counter,
            best == spec_find_best(
                *old(board),
                old(self).seen@,
                old(self).seen_order@,
                old(self).depth,
                0,
                0,
                -42,
            ).0,
            final(self).seen@ == spec_find_best(
                *old(board),
                old(self).seen@,
                old(self).seen_order@,
                old(self).depth,
                0,
                0,
                -42,
            ).2,
            final(self).seen_order@ == spec_find_best(
                *old(board),
                old(self).seen@,
                old(self).seen_order@,
                old(self).depth,
                0,
                0,
                -42,
            ).3,
            best < 7,
            best == 0 || old(board).col_height[best as int] < 6,
            (exists|c: u8| c < 7 && old(board).col_height[c as int] < 6) ==> old(
                board,
            ).col_height[best as int] < 6,
    {
        let mut best_move: u8 = 0;
        let mut best_score: i8 = -self.max;
        let ghost b0 = *board;
        let ghost target = spec_find_best(
            b0,
            self.seen@,
            self.seen_order@,
            self.depth,
            0,
            0,
            -42,
        );
        let mut m_idx: usize = 0;
        while m_idx < 7
            invariant
                m_idx <= 7,
                self.wf(),
                board.wf(),
                *board == b0,
                b0 == *old(board),
                self.depth == old(self).depth,
                self.max == old(self).max,
                self.visited_counter >= old(self).visited_counter,
                self.tt_counter >= old(self).tt_counter,
                self.prune_counter >= old(self).prune_counter,
                -42 <= best_score <= 41,
                best_move < 7,
                best_move == 0 || old(board).col_height[best_move as int] < 6,
                best_score > -42 ==> old(board).col_height[best_move as int] < 6,
                forall|j: int|
                    0 <= j < m_idx && b0.col_height[spec_move_order(j) as int] < 6 ==> best_score
                        >= -41,
                target == spec_find_best(
                    b0,
                    old(self).seen@,
                    old(self).seen_order@,
                    old(self).depth,
                    0,
                    0,
                    -42,
                ),
                target == spec_find_best(
                    b0,
                    self.seen@,
                    self.seen_order@,
                    self.depth,
                    m_idx as int,
                    best_move,
                    best_score as int,
                ),
            decreases 7 - m_idx,
        {
            let m = move_order(m_idx);
            let ghost prev_board = *board;
            if board.make_move(m) == 0 {
                m_idx = m_idx + 1;
            } else {
                proof {
                    lemma_apply_retract_inverse(prev_board, m);
                }
                let neg_max: i8 = -self.max;
                let child = self.negamax(board, neg_max, self.max, self.depth - 1);
                let score: i8 = -child;
                board.unmake_move(m);
                proof {
                    assert(*board == prev_board);
                }
                if score > best_score {
                    best_score = score;
                    best_move = m;
                }
                m_idx = m_idx + 1;
            }
        }
        proof {
            if exists|c: u8| c < 7 && b0.col_height[c as int] < 6 {
                let c = choose|c: u8| c < 7 && b0.col_height[c as int] < 6;
                assert(spec_move_order(crate::board::move_priority(c)) == c);
                assert(b0.col_height[spec_move_order(crate::board::move_priority(c)) as int] < 6);
            }
        }
        best_move
    }

    /// The sole search entry point: asks the engine for the column to
    /// play on the given position — the result of the root fold
    /// `spec_find_best` over the position and the cache, an open column
    /// whenever the position has one. The position comes back untouched;
    /// the statistics counters only grow.
    pub fn get_move(&mut self, board: &mut Board) -> (col: u8)
        requires
            old(self).wf(),
            old(board).wf(),
        ensures
            final(self).wf(),
            *final(board) == *old(board),
            final(self).depth == old(self).depth,
            final(self).visited_counter >= old(self).visited_counter,
            final(self).tt_counter >= old(self).tt_counter,
            final(self).prune_counter >= old(self).prune_counter,
            col == spec_find_best(
                *old(board),
                old(self).seen@,
                old(self).seen_order@,
                old(self).depth,
                0,
                0,
                -42,
            ).0,
            col < 7,
            col == 0 || old(board).col_height[col as int] < 6,
            (exists|c: u8| c < 7 && old(board).col_height[c as int] < 6) ==> old(
                board,
            ).col_height[col as int] < 6,
    {
        self.find_best_move(board)
    }
}

} // verus!
