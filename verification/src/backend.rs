//! Choosing where an equity calculation runs, and laying out the integer
//! part of a GPU request.
//!
//! The GPU kernel only knows the four-card Omaha layout and only the high
//! half of the pot, so Hold'em and Omaha Hi/Lo always run on the CPU
//! evaluator. `Auto` tries the GPU first and falls back to the CPU whenever
//! the GPU gives no answer; `Cuda`, `Vulkan` and `Metal` pin the GPU for a
//! single Omaha Hi hand-vs-hand calculation, and fall back like `Auto` for
//! ranges.
use vstd::prelude::*;

use crate::cards::{card_index, Board, Card, Game, Hand};
use crate::equity::EvalMode;
use crate::eval_fast::card_to_index;

verus! {

/// Which compute backend(s) an equity calculation may use.
#[derive(Debug, Clone, Copy, PartialEq, Eq, Structural)]
pub enum Backend {
    Auto,
    Cpu,
    Cuda,
    Vulkan,
    Metal,
}

/// Where a calculation is carried out.
#[derive(Debug, Clone, Copy, PartialEq, Eq, Structural)]
pub enum Route {
    /// On the CPU evaluator.
    Cpu,
    /// On the GPU. When the GPU gives no answer, on the CPU if `fallback`,
    /// otherwise there is no result.
    Gpu { fallback: bool },
    /// Not carried out, on a backend that cannot be used: there is no
    /// result.
    Declined,
}

/// Most cases in one GPU dispatch.
pub const GPU_MAX_CASES: usize = 256;

/// Most hands of each range in one GPU case.
pub const GPU_MAX_HANDS: usize = 128;

/// Marks an unused board slot in a GPU case.
pub const BOARD_PAD: u32 = 255;

/// The route of a single hand-vs-hand calculation.
pub open spec fn spec_evaluation_route(b: Backend, hi_lo: bool, game: Game) -> Route {
    match b {
        Backend::Cpu => Route::Cpu,
        Backend::Auto => if game == Game::Omaha && !hi_lo {
            Route::Gpu { fallback: true }
        } else {
            Route::Cpu
        },
        _ => if game == Game::Omaha && !hi_lo {
            Route::Gpu { fallback: false }
        } else {
            Route::Cpu
        },
    }
}

/// The route of a range-vs-range calculation (one case or a batch).
pub open spec fn spec_range_route(b: Backend, hi_lo: bool, game: Game) -> Route {
    if b == Backend::Cpu || hi_lo || game == Game::HoldEm {
        Route::Cpu
    } else {
        Route::Gpu { fallback: true }
    }
}

impl Backend {
    /// Whether this backend can be used at all. GPU hardware is not probed
    /// here: a missing adapter shows as a GPU that gives no answer.
    pub fn is_available(&self) -> (b: bool)
        ensures
            b,
    {
        match self {
            Backend::Auto => true,
            Backend::Cpu => true,
            Backend::Cuda | Backend::Vulkan | Backend::Metal => true,
        }
    }

    /// Where a single hand-vs-hand calculation runs. Hold'em and Hi/Lo run
    /// on the CPU whatever the backend; `Auto` falls back to the CPU when the
    /// GPU gives no answer, a pinned GPU backend does not.
    pub fn evaluation_route(&self, hi_lo: bool, game: Game) -> (r: Route)
        ensures
            r == spec_evaluation_route(*self, hi_lo, game),
    {
        if !self.is_available() {
            return Route::Declined;
        }
        match self {
            Backend::Cpu => Route::Cpu,
            Backend::Auto => {
                if game == Game::Omaha && !hi_lo {
                    Route::Gpu { fallback: true }
                } else {
                    Route::Cpu
                }
            },
            Backend::Cuda | Backend::Vulkan | Backend::Metal => {
                if game == Game::Omaha && !hi_lo {
                    Route::Gpu { fallback: false }
                } else {
                    Route::Cpu
                }
            },
        }
    }

    /// Where a range-vs-range calculation (one case, or every case of a
    /// batch) runs.
    pub fn range_route(&self, hi_lo: bool, game: Game) -> (r: Route)
        ensures
            r == spec_range_route(*self, hi_lo, game),
    {
        if hi_lo || game == Game::HoldEm {
            return Route::Cpu;
        }
        match self {
            Backend::Cpu => Route::Cpu,
            _ => Route::Gpu { fallback: true },
        }
    }
}

/// Whether the CPU evaluator has to run for a calculation routed by
/// `route`, after the GPU answered `gpu_answered` (ignored when the route
/// does not ask the GPU).
pub fn needs_cpu(route: Route, gpu_answered: bool) -> (b: bool)
    ensures
        b == match route {
            Route::Cpu => true,
            Route::Gpu { fallback } => !gpu_answered && fallback,
            Route::Declined => false,
        },
{
    match route {
        Route::Cpu => true,
        Route::Gpu { fallback } => !gpu_answered && fallback,
        Route::Declined => false,
    }
}

// ---------------------------------------------------------------------------
// Batches
// ---------------------------------------------------------------------------

/// The `k`-th chunk of a batch of `n` cases: positions `[256 k, min(256 (k + 1), n))`.
pub open spec fn chunk_bounds(n: int, k: int) -> (int, int) {
    (256 * k, if 256 * (k + 1) <= n { 256 * (k + 1) } else { n })
}

/// The number of chunks of a batch of `n` cases.
pub open spec fn chunk_count(n: int) -> int {
    (n + 255) / 256
}

/// The positions of a batch of `n` cases cut into consecutive chunks of at
/// most [`GPU_MAX_CASES`], one GPU dispatch each.
pub fn batch_chunks(n: usize) -> (chunks: Vec<(usize, usize)>)
    ensures
        chunks@.len() == chunk_count(n as int),
        forall|k: int|
            0 <= k < chunks@.len() ==> (#[trigger] chunks@[k]).0 == chunk_bounds(n as int, k).0 && chunks@[k].1
                == chunk_bounds(n as int, k).1,
{
    let mut chunks: Vec<(usize, usize)> = Vec::new();
    let mut start: usize = 0;
    let ghost mut k: int = 0;
    while start < n
        invariant
            start <= n,
            chunks@.len() == k,
            start < n ==> start == 256 * k,
            start == n ==> k == chunk_count(n as int),
            forall|q: int|
                0 <= q < chunks@.len() ==> (#[trigger] chunks@[q]).0 == chunk_bounds(n as int, q).0 && chunks@[q].1
                    == chunk_bounds(n as int, q).1,
        decreases n - start,
    {
        let end = if n - start > GPU_MAX_CASES {
            start + GPU_MAX_CASES
        } else {
            n
        };
        chunks.push((start, end));
        start = end;
        proof {
            k = k + 1;
        }
    }
    chunks
}

/// The chunks of a batch cover its cases in order, each case once: they
/// start at 0, each is non-empty and at most [`GPU_MAX_CASES`] long, each
/// starts where the one before ends, and the last ends at `n`.
pub proof fn law_chunks_cover(n: int, k: int)
    requires
        0 <= k < chunk_count(n),
    ensures
        chunk_bounds(n, k).0 < chunk_bounds(n, k).1 <= chunk_bounds(n, k).0 + 256,
        k == 0 ==> chunk_bounds(n, k).0 == 0,
        k + 1 < chunk_count(n) ==> chunk_bounds(n, k + 1).0 == chunk_bounds(n, k).1,
        k + 1 == chunk_count(n) ==> chunk_bounds(n, k).1 == n,
{
    let c = chunk_count(n);
    assert(256 * k < n) by (nonlinear_arith)
        requires
            c == (n + 255) / 256,
            0 <= k < c,
    ;
    if k + 1 == c {
        assert(n <= 256 * (k + 1)) by (nonlinear_arith)
            requires
                c == (n + 255) / 256,
                k + 1 == c,
        ;
    } else {
        assert(256 * (k + 1) < n) by (nonlinear_arith)
            requires
                c == (n + 255) / 256,
                k + 1 < c,
        ;
    }
}

/// Hold'em and Hi/Lo calculations never reach the GPU, they run on the CPU
/// whatever the backend, and so does everything under the `Cpu` backend;
/// no calculation is declined.
pub proof fn law_routes(b: Backend, hi_lo: bool, game: Game)
    ensures
        spec_evaluation_route(b, hi_lo, game) is Gpu ==> game == Game::Omaha && !hi_lo && b != Backend::Cpu,
        spec_range_route(b, hi_lo, game) is Gpu ==> game == Game::Omaha && !hi_lo && b != Backend::Cpu,
        (hi_lo || game == Game::HoldEm || b == Backend::Cpu) ==> spec_evaluation_route(b, hi_lo, game) == Route::Cpu
            && spec_range_route(b, hi_lo, game) == Route::Cpu,
        !(spec_evaluation_route(b, hi_lo, game) is Declined),
        !(spec_range_route(b, hi_lo, game) is Declined),
{
}

// ---------------------------------------------------------------------------
// GPU case layout
// ---------------------------------------------------------------------------

/// The integer fields of one GPU case: hands and board as deck indices, the
/// mode as a code (0 exhaustive, 1 Monte Carlo) with its sample count and
/// seed cut to 32 bits. The hands' weights are added by the caller.
#[derive(Debug, Clone)]
pub struct GpuCase {
    pub hero_hands: Vec<[u32; 4]>,
    pub villain_hands: Vec<[u32; 4]>,
    pub board: [u32; 5],
    pub board_len: u32,
    pub mode: u32,
    pub samples: u32,
    pub seed: u32,
}

/// The four deck indices the GPU reads of a hand.
pub open spec fn hand_indices(h: Seq<Card>) -> [u32; 4] {
    [card_index(h[0]) as u32, card_index(h[1]) as u32, card_index(h[2]) as u32, card_index(h[3]) as u32]
}

/// `out` lays out the first `out.len()` hands of `hands` as deck indices.
pub open spec fn laid_out(out: Seq<[u32; 4]>, hands: Seq<Hand>) -> bool {
    forall|i: int| 0 <= i < out.len() ==> #[trigger] out[i] == hand_indices(hands[i].0@)
}

/// The board slot `i` of a GPU case: a deck index, or [`BOARD_PAD`].
pub open spec fn board_slot(board: Seq<Card>, i: int) -> u32 {
    if i < board.len() {
        card_index(board[i]) as u32
    } else {
        BOARD_PAD
    }
}

/// Every hand that fits in a GPU case has at least four cards.
pub open spec fn gpu_ready(hands: Seq<Hand>) -> bool {
    forall|i: int| 0 <= i < hands.len() && i < GPU_MAX_HANDS ==> (#[trigger] hands[i]).0@.len() >= 4
}

/// Lays out at most [`GPU_MAX_HANDS`] hands as deck indices.
fn lay_out_hands(hands: &Vec<Hand>) -> (out: Vec<[u32; 4]>)
    requires
        gpu_ready(hands@),
    ensures
        out@.len() == if hands@.len() < GPU_MAX_HANDS { hands@.len() as int } else { GPU_MAX_HANDS as int },
        laid_out(out@, hands@),
{
    let n = if hands.len() < GPU_MAX_HANDS {
        hands.len()
    } else {
        GPU_MAX_HANDS
    };
    let mut out: Vec<[u32; 4]> = Vec::new();
    let mut i: usize = 0;
    while i < n
        invariant
            n <= hands@.len(),
            n <= GPU_MAX_HANDS,
            gpu_ready(hands@),
            i <= n,
            out@.len() == i,
            laid_out(out@, hands@),
        decreases n - i,
    {
        let h = &hands[i].0;
        assert(hands@[i as int].0@.len() >= 4);
        let a = card_to_index(h[0]) as u32;
        let b = card_to_index(h[1]) as u32;
        let c = card_to_index(h[2]) as u32;
        let d = card_to_index(h[3]) as u32;
        out.push([a, b, c, d]);
        i = i + 1;
    }
    out
}

/// Lays out one range-vs-range case for the GPU: at most
/// [`GPU_MAX_HANDS`] hands of each range, the board padded with
/// [`BOARD_PAD`], and the mode (`Auto` resolved as the CPU evaluator does).
pub fn gpu_case(hero: &Vec<Hand>, villain: &Vec<Hand>, board: &Board, mode: EvalMode) -> (c: GpuCase)
    requires
        gpu_ready(hero@),
        gpu_ready(villain@),
        board.0@.len() <= u32::MAX,
    ensures
        c.hero_hands@.len() == if hero@.len() < GPU_MAX_HANDS { hero@.len() as int } else { GPU_MAX_HANDS as int },
        c.villain_hands@.len() == if villain@.len() < GPU_MAX_HANDS { villain@.len() as int } else { GPU_MAX_HANDS as int },
        laid_out(c.hero_hands@, hero@),
        laid_out(c.villain_hands@, villain@),
        forall|i: int| 0 <= i < 5 ==> c.board[i] == board_slot(board.0@, i),
        c.board_len == board.0@.len(),
        c.mode == match crate::equity::resolved_mode(mode, board.0@.len() as int) {
            EvalMode::MonteCarlo { .. } => 1u32,
            _ => 0u32,
        },
        c.samples == match crate::equity::resolved_mode(mode, board.0@.len() as int) {
            EvalMode::MonteCarlo { samples, .. } => samples as u32,
            _ => 0u32,
        },
        c.seed == match crate::equity::resolved_mode(mode, board.0@.len() as int) {
            EvalMode::MonteCarlo { seed, .. } => seed as u32,
            _ => 0u32,
        },
{
    let hero_hands = lay_out_hands(hero);
    let villain_hands = lay_out_hands(villain);
    let mut slots: [u32; 5] = [BOARD_PAD; 5];
    let bl = board.0.len();
    let shown = if bl < 5 {
        bl
    } else {
        5
    };
    let mut i: usize = 0;
    while i < shown
        invariant
            bl == board.0@.len(),
            shown <= bl,
            shown == if bl < 5 { bl } else { 5 },
            i <= shown,
            forall|k: int| 0 <= k < i ==> slots[k] == board_slot(board.0@, k),
            forall|k: int| i <= k < 5 ==> slots[k] == BOARD_PAD,
        decreases shown - i,
    {
        slots[i] = card_to_index(board.0[i]) as u32;
        i = i + 1;
    }
    let resolved = match mode {
        EvalMode::MonteCarlo { samples, seed } => EvalMode::MonteCarlo { samples, seed },
        _ => if bl >= 3 {
            EvalMode::Exhaustive
        } else {
            EvalMode::MonteCarlo { samples: 10000, seed: 42 }
        },
    };
    let (code, samples, seed) = match resolved {
        EvalMode::MonteCarlo { samples, seed } => (1u32, #[verifier::truncate] (samples as u32), #[verifier::truncate] (seed as u32)),
        _ => (0u32, 0u32, 0u32),
    };
    GpuCase {
        hero_hands,
        villain_hands,
        board: slots,
        board_len: bl as u32,
        mode: code,
        samples,
        seed,
    }
}

/// The number of hero-villain pairs of a case.
pub open spec fn case_pairs(c: GpuCase) -> int {
    (c.hero_hands@.len() * c.villain_hands@.len()) as int
}

/// The most pairs of any of the first `m` cases, and at least 1.
pub open spec fn max_pairs(cases: Seq<GpuCase>, m: int) -> int
    decreases m,
{
    if m <= 0 {
        1
    } else {
        let rest = max_pairs(cases, m - 1);
        if case_pairs(cases[m - 1]) > rest {
            case_pairs(cases[m - 1])
        } else {
            rest
        }
    }
}

/// The workgroup grid of a GPU dispatch of `cases`: one row per case (at
/// most [`GPU_MAX_CASES`]), and enough columns of 64 threads for the case
/// with the most hero-villain pairs.
pub fn dispatch_size(cases: &Vec<GpuCase>) -> (r: (u32, u32))
    requires
        forall|i: int|
            0 <= i < cases@.len() ==> (#[trigger] cases@[i]).hero_hands@.len() <= GPU_MAX_HANDS
                && cases@[i].villain_hands@.len() <= GPU_MAX_HANDS,
    ensures
        ({
            let m = if cases@.len() < GPU_MAX_CASES { cases@.len() as int } else { GPU_MAX_CASES as int };
            &&& r.0 == (max_pairs(cases@, m) + 63) / 64
            &&& r.1 == m
        }),
{
    let m = if cases.len() < GPU_MAX_CASES {
        cases.len()
    } else {
        GPU_MAX_CASES
    };
    let mut most: u32 = 1;
    let mut i: usize = 0;
    while i < m
        invariant
            m <= cases@.len(),
            m <= GPU_MAX_CASES,
            i <= m,
            forall|k: int|
                0 <= k < cases@.len() ==> (#[trigger] cases@[k]).hero_hands@.len() <= GPU_MAX_HANDS
                    && cases@[k].villain_hands@.len() <= GPU_MAX_HANDS,
            most == max_pairs(cases@, i as int),
            1 <= most <= GPU_MAX_HANDS * GPU_MAX_HANDS,
        decreases m - i,
    {
        let h = cases[i].hero_hands.len();
        let v = cases[i].villain_hands.len();
        assert(h * v <= GPU_MAX_HANDS * GPU_MAX_HANDS) by (nonlinear_arith)
            requires
                h <= GPU_MAX_HANDS,
                v <= GPU_MAX_HANDS,
        ;
        let pairs = (h * v) as u32;
        if pairs > most {
            most = pairs;
        }
        i = i + 1;
    }
    ((most + 63) / 64, m as u32)
}

} // verus!
