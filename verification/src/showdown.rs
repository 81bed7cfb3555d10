//! The best hand a player makes at showdown: Omaha (exactly two hole cards
//! and exactly three board cards), Omaha eight-or-better low, and Hold'em
//! (any five of the hole and board cards).
use vstd::prelude::*;

use crate::cards::{Card, Hand, Rank};
use crate::eval::{
    beats, law_beats_is_poker_order, outranks, evaluate_5_cards, evaluate_5_cards_low, hand_rank_of, hand_rank_score, law_score_injective,
    lemma_score_bounds, low_hand_of, low_value, low_value_of, low_view, weakest_hand_rank, HandRank,
};
use crate::eval_fast::hand_rank_to_score;

verus! {

// ---------------------------------------------------------------------------
// Orders on index tuples
// ---------------------------------------------------------------------------

pub open spec fn lt2(a1: int, b1: int, a2: int, b2: int) -> bool {
    a1 < a2 || (a1 == a2 && b1 < b2)
}

pub open spec fn lt3(a1: int, b1: int, c1: int, a2: int, b2: int, c2: int) -> bool {
    lt2(a1, b1, a2, b2) || (a1 == a2 && b1 == b2 && c1 < c2)
}

pub open spec fn lt4(a1: int, b1: int, c1: int, d1: int, a2: int, b2: int, c2: int, d2: int) -> bool {
    lt3(a1, b1, c1, a2, b2, c2) || (a1 == a2 && b1 == b2 && c1 == c2 && d1 < d2)
}

// ---------------------------------------------------------------------------
// Omaha high
// ---------------------------------------------------------------------------

/// The five cards formed by hole cards `a`, `b` and board cards `i`, `j`, `k`.
pub open spec fn omaha_combo(hand: Seq<Card>, board: Seq<Card>, a: int, b: int, i: int, j: int, k: int) -> Seq<Card> {
    seq![hand[a], hand[b], board[i], board[j], board[k]]
}

/// Two distinct hole cards out of four and three distinct board cards out of `n`.
pub open spec fn omaha_choice(n: int, a: int, b: int, i: int, j: int, k: int) -> bool {
    0 <= a < b < 4 && 0 <= i < j < k < n
}

pub open spec fn omaha_combo_rank(hand: Seq<Card>, board: Seq<Card>, a: int, b: int, i: int, j: int, k: int) -> HandRank {
    hand_rank_of(omaha_combo(hand, board, a, b, i, j, k))
}

/// `r` is the Omaha high hand of `hand` on `board`: the strongest rank over
/// every choice of two hole cards and three board cards; with fewer than three
/// board cards there is no choice and the hand is the weakest rank.
pub open spec fn is_best_omaha(hand: Seq<Card>, board: Seq<Card>, r: HandRank) -> bool {
    &&& board.len() < 3 ==> r == weakest_hand_rank()
    &&& board.len() >= 3 ==> {
        &&& exists|a: int, b: int, i: int, j: int, k: int|
            omaha_choice(board.len() as int, a, b, i, j, k) && r == #[trigger] omaha_combo_rank(
                hand,
                board,
                a,
                b,
                i,
                j,
                k,
            )
        &&& forall|a: int, b: int, i: int, j: int, k: int|
            omaha_choice(board.len() as int, a, b, i, j, k) ==> !beats(
                #[trigger] omaha_combo_rank(hand, board, a, b, i, j, k),
                r,
            )
    }
}

/// There is only one best Omaha hand: the description pins the result down.
pub proof fn law_best_omaha_unique(hand: Seq<Card>, board: Seq<Card>, r1: HandRank, r2: HandRank)
    requires
        is_best_omaha(hand, board, r1),
        is_best_omaha(hand, board, r2),
    ensures
        r1 == r2,
{
    if board.len() >= 3 {
        let (a, b, i, j, k) = choose|a: int, b: int, i: int, j: int, k: int|
            omaha_choice(board.len() as int, a, b, i, j, k) && r1 == #[trigger] omaha_combo_rank(
                hand,
                board,
                a,
                b,
                i,
                j,
                k,
            );
        let (a2, b2, i2, j2, k2) = choose|a: int, b: int, i: int, j: int, k: int|
            omaha_choice(board.len() as int, a, b, i, j, k) && r2 == #[trigger] omaha_combo_rank(
                hand,
                board,
                a,
                b,
                i,
                j,
                k,
            );
        assert(!beats(omaha_combo_rank(hand, board, a, b, i, j, k), r2));
        assert(!beats(omaha_combo_rank(hand, board, a2, b2, i2, j2, k2), r1));
        law_score_injective(r1, r2);
    }
}

/// The best Omaha high hand `hand` makes with `board`: exactly two hole cards
/// and exactly three board cards. Boards with fewer than three cards give the
/// weakest rank.
pub fn evaluate_omaha_hand(hand: &Hand, board: &[Card]) -> (r: HandRank)
    requires
        board@.len() >= 3 ==> hand.0@.len() == 4,
    ensures
        is_best_omaha(hand.0@, board@, r),
{
    let mut best = HandRank::HighCard(Rank::Two, Rank::Two, Rank::Two, Rank::Two, Rank::Two);
    if board.len() < 3 {
        return best;
    }
    let ghost h = hand.0@;
    let ghost bd = board@;
    let n = board.len();
    let mut best_score = hand_rank_to_score(best);
    let mut a: usize = 0;
    while a < 4
        invariant
            h == hand.0@,
            bd == board@,
            n == bd.len(),
            n >= 3,
            h.len() >= 4,
            a <= 4,
            best_score == hand_rank_score(best),
            best == weakest_hand_rank() || exists|a1: int, b1: int, i1: int, j1: int, k1: int|
                omaha_choice(n as int, a1, b1, i1, j1, k1) && a1 < a && best == #[trigger] omaha_combo_rank(
                    h,
                    bd,
                    a1,
                    b1,
                    i1,
                    j1,
                    k1,
                ),
            forall|a1: int, b1: int, i1: int, j1: int, k1: int|
                omaha_choice(n as int, a1, b1, i1, j1, k1) && a1 < a ==> !beats(
                    #[trigger] omaha_combo_rank(h, bd, a1, b1, i1, j1, k1),
                    best,
                ),
        decreases 4 - a,
    {
        let mut b: usize = a + 1;
        while b < 4
            invariant
                h == hand.0@,
                bd == board@,
                n == bd.len(),
                n >= 3,
                h.len() >= 4,
                a < 4,
                a < b <= 4,
                best_score == hand_rank_score(best),
                best == weakest_hand_rank() || exists|a1: int, b1: int, i1: int, j1: int, k1: int|
                    omaha_choice(n as int, a1, b1, i1, j1, k1) && lt2(a1, b1, a as int, b as int)
                        && best == #[trigger] omaha_combo_rank(h, bd, a1, b1, i1, j1, k1),
                forall|a1: int, b1: int, i1: int, j1: int, k1: int|
                    omaha_choice(n as int, a1, b1, i1, j1, k1) && lt2(a1, b1, a as int, b as int) ==> !beats(
                        #[trigger] omaha_combo_rank(h, bd, a1, b1, i1, j1, k1),
                        best,
                    ),
            decreases 4 - b,
        {
            let mut i: usize = 0;
            while i < n
                invariant
                    h == hand.0@,
                    bd == board@,
                    n == bd.len(),
                    h.len() >= 4,
                    a < b < 4,
                    i <= n,
                    best_score == hand_rank_score(best),
                    best == weakest_hand_rank() || exists|a1: int, b1: int, i1: int, j1: int, k1: int|
                        omaha_choice(n as int, a1, b1, i1, j1, k1) && lt3(a1, b1, i1, a as int, b as int, i as int)
                            && best == #[trigger] omaha_combo_rank(h, bd, a1, b1, i1, j1, k1),
                    forall|a1: int, b1: int, i1: int, j1: int, k1: int|
                        omaha_choice(n as int, a1, b1, i1, j1, k1) && lt3(a1, b1, i1, a as int, b as int, i as int)
                            ==> !beats(#[trigger] omaha_combo_rank(h, bd, a1, b1, i1, j1, k1), best),
                decreases n - i,
            {
                let mut j: usize = i + 1;
                while j < n
                    invariant
                        h == hand.0@,
                        bd == board@,
                        n == bd.len(),
                        h.len() >= 4,
                        a < b < 4,
                        i < n,
                        i < j <= n,
                        best_score == hand_rank_score(best),
                        best == weakest_hand_rank() || exists|a1: int, b1: int, i1: int, j1: int, k1: int|
                            omaha_choice(n as int, a1, b1, i1, j1, k1) && lt4(
                                a1,
                                b1,
                                i1,
                                j1,
                                a as int,
                                b as int,
                                i as int,
                                j as int,
                            ) && best == #[trigger] omaha_combo_rank(h, bd, a1, b1, i1, j1, k1),
                        forall|a1: int, b1: int, i1: int, j1: int, k1: int|
                            omaha_choice(n as int, a1, b1, i1, j1, k1) && lt4(
                                a1,
                                b1,
                                i1,
                                j1,
                                a as int,
                                b as int,
                                i as int,
                                j as int,
                            ) ==> !beats(#[trigger] omaha_combo_rank(h, bd, a1, b1, i1, j1, k1), best),
                    decreases n - j,
                {
                    let mut k: usize = j + 1;
                    while k < n
                        invariant
                            h == hand.0@,
                            bd == board@,
                            n == bd.len(),
                            h.len() >= 4,
                            a < b < 4,
                            i < j < n,
                            j < k <= n,
                            best_score == hand_rank_score(best),
                            best == weakest_hand_rank() || exists|a1: int, b1: int, i1: int, j1: int, k1: int|
                                omaha_choice(n as int, a1, b1, i1, j1, k1) && (lt4(
                                    a1,
                                    b1,
                                    i1,
                                    j1,
                                    a as int,
                                    b as int,
                                    i as int,
                                    j as int,
                                ) || (a1 == a && b1 == b && i1 == i && j1 == j && k1 < k)) && best
                                    == #[trigger] omaha_combo_rank(h, bd, a1, b1, i1, j1, k1),
                            forall|a1: int, b1: int, i1: int, j1: int, k1: int|
                                omaha_choice(n as int, a1, b1, i1, j1, k1) && (lt4(
                                    a1,
                                    b1,
                                    i1,
                                    j1,
                                    a as int,
                                    b as int,
                                    i as int,
                                    j as int,
                                ) || (a1 == a && b1 == b && i1 == i && j1 == j && k1 < k)) ==> !beats(
                                    #[trigger] omaha_combo_rank(h, bd, a1, b1, i1, j1, k1),
                                    best,
                                ),
                        decreases n - k,
                    {
                        let cards = [hand.0[a], hand.0[b], board[i], board[j], board[k]];
                        let rank = evaluate_5_cards(&cards);
                        let score = hand_rank_to_score(rank);
                        assert(cards@ =~= omaha_combo(h, bd, a as int, b as int, i as int, j as int, k as int));
                        assert(rank == omaha_combo_rank(h, bd, a as int, b as int, i as int, j as int, k as int));
                        if score > best_score {
                            best = rank;
                            best_score = score;
                        }
                        k = k + 1;
                    }
                    j = j + 1;
                }
                i = i + 1;
            }
            b = b + 1;
        }
        a = a + 1;
    }
    proof {
        if best == weakest_hand_rank() {
            let r0 = omaha_combo_rank(h, bd, 0, 1, 0, 1, 2);
            assert(!beats(r0, best));
            lemma_score_bounds(r0);
            law_score_injective(r0, best);
        }
    }
    best
}

// ---------------------------------------------------------------------------
// Comparing low hands
// ---------------------------------------------------------------------------

/// Low values of a sequence of ranks (Ace counts 1).
pub open spec fn low_values(s: Seq<Rank>) -> Seq<int> {
    s.map_values(|r: Rank| low_value(r))
}

/// Lexicographic order on equally long sequences: `x` comes first when it is
/// smaller at the first position where the two differ.
pub open spec fn lex_lt(x: Seq<int>, y: Seq<int>) -> bool {
    exists|k: int| 0 <= k < x.len() && k < y.len() && x.take(k) == y.take(k) && #[trigger] x[k] < y[k]
}

proof fn lemma_lex_total_from(x: Seq<int>, y: Seq<int>, k: int)
    requires
        x.len() == y.len(),
        0 <= k <= x.len(),
        x.take(k) == y.take(k),
        x != y,
    ensures
        lex_lt(x, y) || lex_lt(y, x),
    decreases x.len() - k,
{
    if k == x.len() {
        assert(x.take(k) == x);
        assert(y.take(k) == y);
    } else if x[k] != y[k] {
        if x[k] < y[k] {
            assert(lex_lt(x, y));
        } else {
            assert(y.take(k) == x.take(k));
            assert(lex_lt(y, x));
        }
    } else {
        assert(x.take(k + 1) == x.take(k).push(x[k]));
        assert(y.take(k + 1) == y.take(k).push(y[k]));
        lemma_lex_total_from(x, y, k + 1);
    }
}

/// Two different equally long sequences are ordered one way or the other.
pub proof fn lemma_lex_total(x: Seq<int>, y: Seq<int>)
    requires
        x.len() == y.len(),
        !lex_lt(x, y),
        !lex_lt(y, x),
    ensures
        x == y,
{
    if x != y {
        assert(x.take(0) =~= y.take(0));
        lemma_lex_total_from(x, y, 0);
    }
}

proof fn lemma_low_values_injective(x: Seq<Rank>, y: Seq<Rank>)
    requires
        low_values(x) == low_values(y),
    ensures
        x == y,
{
    assert(x.len() == low_values(x).len());
    assert(y.len() == low_values(y).len());
    assert forall|i: int| 0 <= i < x.len() implies x[i] == y[i] by {
        assert(low_values(x)[i] == low_values(y)[i]);
        assert(low_values(x)[i] == low_value(x[i]));
        assert(low_values(y)[i] == low_value(y[i]));
        crate::cards::lemma_rank_value_bounds(x[i]);
        crate::cards::lemma_rank_value_bounds(y[i]);
    }
    assert(x =~= y);
}

/// `x` is a strictly better (lower) low than `y`.
pub fn low_beats(x: &[Rank; 5], y: &[Rank; 5]) -> (b: bool)
    ensures
        b == lex_lt(low_values(x@), low_values(y@)),
{
    let ghost xv = low_values(x@);
    let ghost yv = low_values(y@);
    let mut i: usize = 0;
    while i < 5
        invariant
            i <= 5,
            xv == low_values(x@),
            yv == low_values(y@),
            xv.len() == 5 && yv.len() == 5,
            xv.take(i as int) == yv.take(i as int),
        decreases 5 - i,
    {
        let a = low_value_of(x[i]);
        let c = low_value_of(y[i]);
        if a < c {
            assert(xv[i as int] == a && yv[i as int] == c);
            return true;
        }
        if a > c {
            assert(xv[i as int] == a && yv[i as int] == c);
            assert forall|k: int| 0 <= k < 5 && xv.take(k) == yv.take(k) implies !(#[trigger] xv[k] < yv[k]) by {
                if k < i {
                    assert(xv[k] == xv.take(i as int)[k]);
                    assert(yv[k] == yv.take(i as int)[k]);
                } else if k > i {
                    assert(xv[i as int] == xv.take(k)[i as int]);
                    assert(yv[i as int] == yv.take(k)[i as int]);
                }
            }
            return false;
        }
        assert(xv.take(i + 1) =~= xv.take(i as int).push(xv[i as int]));
        assert(yv.take(i + 1) =~= yv.take(i as int).push(yv[i as int]));
        i = i + 1;
    }
    assert(xv.take(5) == xv && yv.take(5) == yv);
    assert forall|k: int| 0 <= k < 5 && xv.take(k) == yv.take(k) implies !(#[trigger] xv[k] < yv[k]) by {
        assert(xv[k] == yv[k]);
    }
    false
}

// ---------------------------------------------------------------------------
// Omaha low
// ---------------------------------------------------------------------------

pub open spec fn omaha_combo_low(hand: Seq<Card>, board: Seq<Card>, a: int, b: int, i: int, j: int, k: int) -> Option<Seq<Rank>> {
    low_hand_of(omaha_combo(hand, board, a, b, i, j, k))
}

/// `r` is the Omaha eight-or-better low of `hand` on `board`: absent when no
/// choice of two hole cards and three board cards makes a low, otherwise the
/// best (lexicographically lowest) low any such choice makes.
pub open spec fn is_best_omaha_low(hand: Seq<Card>, board: Seq<Card>, r: Option<Seq<Rank>>) -> bool {
    &&& board.len() < 3 ==> r is None
    &&& board.len() >= 3 ==> {
        &&& (r is None <==> forall|a: int, b: int, i: int, j: int, k: int|
            omaha_choice(board.len() as int, a, b, i, j, k) ==> #[trigger] omaha_combo_low(
                hand,
                board,
                a,
                b,
                i,
                j,
                k,
            ) is None)
        &&& r is Some ==> exists|a: int, b: int, i: int, j: int, k: int|
            omaha_choice(board.len() as int, a, b, i, j, k) && #[trigger] omaha_combo_low(
                hand,
                board,
                a,
                b,
                i,
                j,
                k,
            ) == r
        &&& r is Some ==> forall|a: int, b: int, i: int, j: int, k: int|
            omaha_choice(board.len() as int, a, b, i, j, k) && #[trigger] omaha_combo_low(
                hand,
                board,
                a,
                b,
                i,
                j,
                k,
            ) is Some ==> !lex_lt(
                low_values(omaha_combo_low(hand, board, a, b, i, j, k)->0),
                low_values(r->0),
            )
    }
}

proof fn lemma_low_hand_len(cards: Seq<Card>)
    ensures
        low_hand_of(cards) is Some ==> low_hand_of(cards)->0.len() == 5,
{
}

/// There is only one best Omaha low: the description pins the result down.
pub proof fn law_best_omaha_low_unique(hand: Seq<Card>, board: Seq<Card>, r1: Option<Seq<Rank>>, r2: Option<Seq<Rank>>)
    requires
        is_best_omaha_low(hand, board, r1),
        is_best_omaha_low(hand, board, r2),
    ensures
        r1 == r2,
{
    if board.len() >= 3 && r1 is Some && r2 is Some {
        let (a, b, i, j, k) = choose|a: int, b: int, i: int, j: int, k: int|
            omaha_choice(board.len() as int, a, b, i, j, k) && #[trigger] omaha_combo_low(
                hand,
                board,
                a,
                b,
                i,
                j,
                k,
            ) == r1;
        let (a2, b2, i2, j2, k2) = choose|a: int, b: int, i: int, j: int, k: int|
            omaha_choice(board.len() as int, a, b, i, j, k) && #[trigger] omaha_combo_low(
                hand,
                board,
                a,
                b,
                i,
                j,
                k,
            ) == r2;
        lemma_low_hand_len(omaha_combo(hand, board, a, b, i, j, k));
        lemma_low_hand_len(omaha_combo(hand, board, a2, b2, i2, j2, k2));
        assert(!lex_lt(low_values(r1->0), low_values(r2->0)));
        assert(!lex_lt(low_values(r2->0), low_values(r1->0)));
        lemma_lex_total(low_values(r1->0), low_values(r2->0));
        lemma_low_values_injective(r1->0, r2->0);
    }
}

/// The best Omaha eight-or-better low `hand` makes with `board`, using
/// exactly two hole cards and exactly three board cards; `None` when no such
/// choice qualifies or the board has fewer than three cards.
pub fn evaluate_omaha_hand_low(hand: &Hand, board: &[Card]) -> (r: Option<[Rank; 5]>)
    requires
        board@.len() >= 3 ==> hand.0@.len() == 4,
    ensures
        is_best_omaha_low(hand.0@, board@, low_view(r)),
{
    let mut best: Option<[Rank; 5]> = None;
    if board.len() < 3 {
        return None;
    }
    let ghost h = hand.0@;
    let ghost bd = board@;
    let n = board.len();
    let mut a: usize = 0;
    while a < 4
        invariant
            h == hand.0@,
            bd == board@,
            n == bd.len(),
            n >= 3,
            h.len() >= 4,
            a <= 4,
            best is None <==> forall|a1: int, b1: int, i1: int, j1: int, k1: int|
                omaha_choice(n as int, a1, b1, i1, j1, k1) && a1 < a ==> #[trigger] omaha_combo_low(
                    h,
                    bd,
                    a1,
                    b1,
                    i1,
                    j1,
                    k1,
                ) is None,
            best is Some ==> exists|a1: int, b1: int, i1: int, j1: int, k1: int|
                omaha_choice(n as int, a1, b1, i1, j1, k1) && a1 < a && #[trigger] omaha_combo_low(
                    h,
                    bd,
                    a1,
                    b1,
                    i1,
                    j1,
                    k1,
                ) == low_view(best),
            best is Some ==> forall|a1: int, b1: int, i1: int, j1: int, k1: int|
                omaha_choice(n as int, a1, b1, i1, j1, k1) && a1 < a && #[trigger] omaha_combo_low(
                    h,
                    bd,
                    a1,
                    b1,
                    i1,
                    j1,
                    k1,
                ) is Some ==> !lex_lt(
                    low_values(omaha_combo_low(h, bd, a1, b1, i1, j1, k1)->0),
                    low_values(best->0@),
                ),
        decreases 4 - a,
    {
        let mut b: usize = a + 1;
        while b < 4
            invariant
                h == hand.0@,
                bd == board@,
                n == bd.len(),
                n >= 3,
                h.len() >= 4,
                a < 4,
                a < b <= 4,
                best is None <==> forall|a1: int, b1: int, i1: int, j1: int, k1: int|
                    omaha_choice(n as int, a1, b1, i1, j1, k1) && lt2(a1, b1, a as int, b as int)
                        ==> #[trigger] omaha_combo_low(h, bd, a1, b1, i1, j1, k1) is None,
                best is Some ==> exists|a1: int, b1: int, i1: int, j1: int, k1: int|
                    omaha_choice(n as int, a1, b1, i1, j1, k1) && lt2(a1, b1, a as int, b as int)
                        && #[trigger] omaha_combo_low(h, bd, a1, b1, i1, j1, k1) == low_view(best),
                best is Some ==> forall|a1: int, b1: int, i1: int, j1: int, k1: int|
                    omaha_choice(n as int, a1, b1, i1, j1, k1) && lt2(a1, b1, a as int, b as int)
                        && #[trigger] omaha_combo_low(h, bd, a1, b1, i1, j1, k1) is Some ==> !lex_lt(
                        low_values(omaha_combo_low(h, bd, a1, b1, i1, j1, k1)->0),
                        low_values(best->0@),
                    ),
            decreases 4 - b,
        {
            let mut i: usize = 0;
            while i < n
                invariant
                    h == hand.0@,
                    bd == board@,
                    n == bd.len(),
                    h.len() >= 4,
                    a < b < 4,
                    i <= n,
                    best is None <==> forall|a1: int, b1: int, i1: int, j1: int, k1: int|
                        omaha_choice(n as int, a1, b1, i1, j1, k1) && lt3(a1, b1, i1, a as int, b as int, i as int)
                            ==> #[trigger] omaha_combo_low(h, bd, a1, b1, i1, j1, k1) is None,
                    best is Some ==> exists|a1: int, b1: int, i1: int, j1: int, k1: int|
                        omaha_choice(n as int, a1, b1, i1, j1, k1) && lt3(a1, b1, i1, a as int, b as int, i as int)
                            && #[trigger] omaha_combo_low(h, bd, a1, b1, i1, j1, k1) == low_view(best),
                    best is Some ==> forall|a1: int, b1: int, i1: int, j1: int, k1: int|
                        omaha_choice(n as int, a1, b1, i1, j1, k1) && lt3(a1, b1, i1, a as int, b as int, i as int)
                            && #[trigger] omaha_combo_low(h, bd, a1, b1, i1, j1, k1) is Some ==> !lex_lt(
                            low_values(omaha_combo_low(h, bd, a1, b1, i1, j1, k1)->0),
                            low_values(best->0@),
                        ),
                decreases n - i,
            {
                let mut j: usize = i + 1;
                while j < n
                    invariant
                        h == hand.0@,
                        bd == board@,
                        n == bd.len(),
                        h.len() >= 4,
                        a < b < 4,
                        i < n,
                        i < j <= n,
                        best is None <==> forall|a1: int, b1: int, i1: int, j1: int, k1: int|
                            omaha_choice(n as int, a1, b1, i1, j1, k1) && lt4(a1, b1, i1, j1, a as int, b as int, i as int, j as int)
                                ==> #[trigger] omaha_combo_low(h, bd, a1, b1, i1, j1, k1) is None,
                        best is Some ==> exists|a1: int, b1: int, i1: int, j1: int, k1: int|
                            omaha_choice(n as int, a1, b1, i1, j1, k1) && lt4(a1, b1, i1, j1, a as int, b as int, i as int, j as int)
                                && #[trigger] omaha_combo_low(h, bd, a1, b1, i1, j1, k1) == low_view(best),
                        best is Some ==> forall|a1: int, b1: int, i1: int, j1: int, k1: int|
                            omaha_choice(n as int, a1, b1, i1, j1, k1) && lt4(a1, b1, i1, j1, a as int, b as int, i as int, j as int)
                                && #[trigger] omaha_combo_low(h, bd, a1, b1, i1, j1, k1) is Some ==> !lex_lt(
                                low_values(omaha_combo_low(h, bd, a1, b1, i1, j1, k1)->0),
                                low_values(best->0@),
                            ),
                    decreases n - j,
                {
                    let mut k: usize = j + 1;
                    while k < n
                        invariant
                            h == hand.0@,
                            bd == board@,
                            n == bd.len(),
                            h.len() >= 4,
                            a < b < 4,
                            i < j < n,
                            j < k <= n,
                            best is None <==> forall|a1: int, b1: int, i1: int, j1: int, k1: int|
                                omaha_choice(n as int, a1, b1, i1, j1, k1) && (lt4(a1, b1, i1, j1, a as int, b as int, i as int, j as int)
                                    || (a1 == a && b1 == b && i1 == i && j1 == j && k1 < k))
                                    ==> #[trigger] omaha_combo_low(h, bd, a1, b1, i1, j1, k1) is None,
                            best is Some ==> exists|a1: int, b1: int, i1: int, j1: int, k1: int|
                                omaha_choice(n as int, a1, b1, i1, j1, k1) && (lt4(a1, b1, i1, j1, a as int, b as int, i as int, j as int)
                                    || (a1 == a && b1 == b && i1 == i && j1 == j && k1 < k))
                                    && #[trigger] omaha_combo_low(h, bd, a1, b1, i1, j1, k1) == low_view(best),
                            best is Some ==> forall|a1: int, b1: int, i1: int, j1: int, k1: int|
                                omaha_choice(n as int, a1, b1, i1, j1, k1) && (lt4(a1, b1, i1, j1, a as int, b as int, i as int, j as int)
                                    || (a1 == a && b1 == b && i1 == i && j1 == j && k1 < k))
                                    && #[trigger] omaha_combo_low(h, bd, a1, b1, i1, j1, k1) is Some ==> !lex_lt(
                                    low_values(omaha_combo_low(h, bd, a1, b1, i1, j1, k1)->0),
                                    low_values(best->0@),
                                ),
                        decreases n - k,
                    {
                        let cards = [hand.0[a], hand.0[b], board[i], board[j], board[k]];
                        let low = evaluate_5_cards_low(&cards);
                        assert(cards@ =~= omaha_combo(h, bd, a as int, b as int, i as int, j as int, k as int));
                        assert(low_view(low) == omaha_combo_low(h, bd, a as int, b as int, i as int, j as int, k as int));
                        proof {
                            lemma_low_hand_len(cards@);
                        }
                        if let Some(cur) = low {
                            match best {
                                None => {
                                    best = Some(cur);
                                },
                                Some(prev) => {
                                    if low_beats(&cur, &prev) {
                                        best = Some(cur);
                                        proof {
                                            assert forall|a1: int, b1: int, i1: int, j1: int, k1: int|
                                                omaha_choice(n as int, a1, b1, i1, j1, k1) && (lt4(a1, b1, i1, j1, a as int, b as int, i as int, j as int)
                                                    || (a1 == a && b1 == b && i1 == i && j1 == j && k1 < k + 1))
                                                    && #[trigger] omaha_combo_low(h, bd, a1, b1, i1, j1, k1) is Some implies !lex_lt(
                                                    low_values(omaha_combo_low(h, bd, a1, b1, i1, j1, k1)->0),
                                                    low_values(cur@),
                                                ) by {
                                                let o = low_values(omaha_combo_low(h, bd, a1, b1, i1, j1, k1)->0);
                                                lemma_low_hand_len(omaha_combo(h, bd, a1, b1, i1, j1, k1));
                                                if k1 < k || !(a1 == a && b1 == b && i1 == i && j1 == j) {
                                                    lemma_lex_trans(o, low_values(cur@), low_values(prev@));
                                                }
                                            }
                                        }
                                    }
                                },
                            }
                        }
                        k = k + 1;
                    }
                    j = j + 1;
                }
                i = i + 1;
            }
            b = b + 1;
        }
        a = a + 1;
    }
    best
}

/// Transitivity of the lexicographic order, in contrapositive form: when `y`
/// comes before `z` and `x` does not, `x` does not come before `y` either.
proof fn lemma_lex_trans(x: Seq<int>, y: Seq<int>, z: Seq<int>)
    requires
        x.len() == 5 && y.len() == 5 && z.len() == 5,
        !lex_lt(x, z),
        lex_lt(y, z),
    ensures
        !lex_lt(x, y),
{
    if lex_lt(x, y) {
        let k1 = choose|k: int| 0 <= k < x.len() && k < y.len() && x.take(k) == y.take(k) && #[trigger] x[k] < y[k];
        let k2 = choose|k: int| 0 <= k < y.len() && k < z.len() && y.take(k) == z.take(k) && #[trigger] y[k] < z[k];
        let m = if k1 < k2 { k1 } else { k2 };
        assert forall|t: int| 0 <= t < m implies x[t] == z[t] by {
            assert(x[t] == x.take(k1)[t] && y[t] == y.take(k1)[t]);
            assert(y[t] == y.take(k2)[t] && z[t] == z.take(k2)[t]);
        }
        assert(x.take(m) =~= z.take(m));
        if k1 < k2 {
            assert(y[k1] == y.take(k2)[k1] && z[k1] == z.take(k2)[k1]);
        } else if k2 < k1 {
            assert(x[k2] == x.take(k1)[k2] && y[k2] == y.take(k1)[k2]);
        }
        assert(x[m] < z[m]);
        assert(lex_lt(x, z));
    }
}

// ---------------------------------------------------------------------------
// Hold'em high
// ---------------------------------------------------------------------------

/// The hole cards followed by the board cards.
pub open spec fn holdem_cards(hole: Seq<Card>, board: Seq<Card>) -> Seq<Card> {
    seq![hole[0], hole[1]] + board
}

/// Five distinct positions out of `n`.
pub open spec fn holdem_choice(n: int, a: int, b: int, c: int, d: int, e: int) -> bool {
    0 <= a < b < c < d < e < n
}

pub open spec fn holdem_combo_rank(all: Seq<Card>, a: int, b: int, c: int, d: int, e: int) -> HandRank {
    hand_rank_of(seq![all[a], all[b], all[c], all[d], all[e]])
}

/// `r` is the Hold'em hand of `hole` on `board`: the strongest rank over every
/// five of the hole and board cards together; with fewer than three board
/// cards the hand is the weakest rank.
pub open spec fn is_best_holdem(hole: Seq<Card>, board: Seq<Card>, r: HandRank) -> bool {
    let all = holdem_cards(hole, board);
    &&& board.len() < 3 ==> r == weakest_hand_rank()
    &&& board.len() >= 3 ==> {
        &&& exists|a: int, b: int, c: int, d: int, e: int|
            holdem_choice(all.len() as int, a, b, c, d, e) && r == #[trigger] holdem_combo_rank(all, a, b, c, d, e)
        &&& forall|a: int, b: int, c: int, d: int, e: int|
            holdem_choice(all.len() as int, a, b, c, d, e) ==> !beats(
                #[trigger] holdem_combo_rank(all, a, b, c, d, e),
                r,
            )
    }
}

/// There is only one best Hold'em hand: the description pins the result down.
pub proof fn law_best_holdem_unique(hole: Seq<Card>, board: Seq<Card>, r1: HandRank, r2: HandRank)
    requires
        is_best_holdem(hole, board, r1),
        is_best_holdem(hole, board, r2),
    ensures
        r1 == r2,
{
    let all = holdem_cards(hole, board);
    if board.len() >= 3 {
        let (a, b, c, d, e) = choose|a: int, b: int, c: int, d: int, e: int|
            holdem_choice(all.len() as int, a, b, c, d, e) && r1 == #[trigger] holdem_combo_rank(all, a, b, c, d, e);
        let (a2, b2, c2, d2, e2) = choose|a: int, b: int, c: int, d: int, e: int|
            holdem_choice(all.len() as int, a, b, c, d, e) && r2 == #[trigger] holdem_combo_rank(all, a, b, c, d, e);
        assert(!beats(holdem_combo_rank(all, a, b, c, d, e), r2));
        assert(!beats(holdem_combo_rank(all, a2, b2, c2, d2, e2), r1));
        law_score_injective(r1, r2);
    }
}

/// The best Hold'em hand two hole cards make with `board`: any five of the
/// hole and board cards together. Boards with fewer than three cards give the
/// weakest rank.
pub fn evaluate_holdem_hand(hole: &Hand, board: &[Card]) -> (r: HandRank)
    requires
        board@.len() >= 3 ==> hole.0@.len() == 2 && board@.len() <= 5,
    ensures
        is_best_holdem(hole.0@, board@, r),
{
    let mut best = HandRank::HighCard(Rank::Two, Rank::Two, Rank::Two, Rank::Two, Rank::Two);
    if board.len() < 3 {
        return best;
    }
    let mut cards: Vec<Card> = Vec::with_capacity(7);
    cards.push(hole.0[0]);
    cards.push(hole.0[1]);
    let mut t: usize = 0;
    while t < board.len()
        invariant
            t <= board@.len(),
            board@.len() <= 5,
            hole.0@.len() >= 2,
            cards@ == seq![hole.0@[0], hole.0@[1]] + board@.take(t as int),
        decreases board@.len() - t,
    {
        cards.push(board[t]);
        assert(board@.take(t + 1) == board@.take(t as int).push(board@[t as int]));
        t = t + 1;
    }
    assert(board@.take(board@.len() as int) == board@);
    let ghost all = cards@;
    assert(all == holdem_cards(hole.0@, board@));
    let n = cards.len();
    let mut best_score = hand_rank_to_score(best);
    let mut a: usize = 0;
    while a < n
        invariant
            all == cards@,
            n == all.len(),
            5 <= n <= 7,
            a <= n,
                best_score == hand_rank_score(best),
                best == weakest_hand_rank() || exists|a1: int, b1: int, c1: int, d1: int, e1: int|
                    holdem_choice(n as int, a1, b1, c1, d1, e1) && a1 < a && best == #[trigger] holdem_combo_rank(all, a1, b1, c1, d1, e1),
                forall|a1: int, b1: int, c1: int, d1: int, e1: int|
                    holdem_choice(n as int, a1, b1, c1, d1, e1) && a1 < a ==> !beats(
                        #[trigger] holdem_combo_rank(all, a1, b1, c1, d1, e1),
                        best,
                    ),
        decreases n - a,
    {
        let mut b: usize = a + 1;
        while b < n
            invariant
                all == cards@,
                n == all.len(),
                5 <= n <= 7,
                a < n,
                a < b <= n,
                best_score == hand_rank_score(best),
                best == weakest_hand_rank() || exists|a1: int, b1: int, c1: int, d1: int, e1: int|
                    holdem_choice(n as int, a1, b1, c1, d1, e1) && lt2(a1, b1, a as int, b as int) && best == #[trigger] holdem_combo_rank(all, a1, b1, c1, d1, e1),
                forall|a1: int, b1: int, c1: int, d1: int, e1: int|
                    holdem_choice(n as int, a1, b1, c1, d1, e1) && lt2(a1, b1, a as int, b as int) ==> !beats(
                        #[trigger] holdem_combo_rank(all, a1, b1, c1, d1, e1),
                        best,
                    ),
            decreases n - b,
        {
            let mut c: usize = b + 1;
            while c < n
                invariant
                    all == cards@,
                    n == all.len(),
                    5 <= n <= 7,
                    a < b < n,
                    b < c <= n,
                best_score == hand_rank_score(best),
                best == weakest_hand_rank() || exists|a1: int, b1: int, c1: int, d1: int, e1: int|
                    holdem_choice(n as int, a1, b1, c1, d1, e1) && lt3(a1, b1, c1, a as int, b as int, c as int) && best == #[trigger] holdem_combo_rank(all, a1, b1, c1, d1, e1),
                forall|a1: int, b1: int, c1: int, d1: int, e1: int|
                    holdem_choice(n as int, a1, b1, c1, d1, e1) && lt3(a1, b1, c1, a as int, b as int, c as int) ==> !beats(
                        #[trigger] holdem_combo_rank(all, a1, b1, c1, d1, e1),
                        best,
                    ),
                decreases n - c,
            {
                let mut d: usize = c + 1;
                while d < n
                    invariant
                        all == cards@,
                        n == all.len(),
                        5 <= n <= 7,
                        a < b < c,
                        c < n,
                        c < d <= n,
                best_score == hand_rank_score(best),
                best == weakest_hand_rank() || exists|a1: int, b1: int, c1: int, d1: int, e1: int|
                    holdem_choice(n as int, a1, b1, c1, d1, e1) && lt4(a1, b1, c1, d1, a as int, b as int, c as int, d as int) && best == #[trigger] holdem_combo_rank(all, a1, b1, c1, d1, e1),
                forall|a1: int, b1: int, c1: int, d1: int, e1: int|
                    holdem_choice(n as int, a1, b1, c1, d1, e1) && lt4(a1, b1, c1, d1, a as int, b as int, c as int, d as int) ==> !beats(
                        #[trigger] holdem_combo_rank(all, a1, b1, c1, d1, e1),
                        best,
                    ),
                    decreases n - d,
                {
                    let mut e: usize = d + 1;
                    while e < n
                        invariant
                            all == cards@,
                            n == all.len(),
                            5 <= n <= 7,
                            a < b < c < d,
                            d < n,
                            d < e <= n,
                best_score == hand_rank_score(best),
                best == weakest_hand_rank() || exists|a1: int, b1: int, c1: int, d1: int, e1: int|
                    holdem_choice(n as int, a1, b1, c1, d1, e1) && (lt4(a1, b1, c1, d1, a as int, b as int, c as int, d as int) || (a1 == a && b1 == b && c1 == c && d1 == d && e1 < e)) && best == #[trigger] holdem_combo_rank(all, a1, b1, c1, d1, e1),
                forall|a1: int, b1: int, c1: int, d1: int, e1: int|
                    holdem_choice(n as int, a1, b1, c1, d1, e1) && (lt4(a1, b1, c1, d1, a as int, b as int, c as int, d as int) || (a1 == a && b1 == b && c1 == c && d1 == d && e1 < e)) ==> !beats(
                        #[trigger] holdem_combo_rank(all, a1, b1, c1, d1, e1),
                        best,
                    ),
                        decreases n - e,
                    {
                        let five = [cards[a], cards[b], cards[c], cards[d], cards[e]];
                        let rank = evaluate_5_cards(&five);
                        let score = hand_rank_to_score(rank);
                        assert(five@ =~= seq![all[a as int], all[b as int], all[c as int], all[d as int], all[e as int]]);
                        assert(rank == holdem_combo_rank(all, a as int, b as int, c as int, d as int, e as int));
                        if score > best_score {
                            best = rank;
                            best_score = score;
                        }
                        e = e + 1;
                    }
                    d = d + 1;
                }
                c = c + 1;
            }
            b = b + 1;
        }
        a = a + 1;
    }
    proof {
        if best == weakest_hand_rank() {
            let r0 = holdem_combo_rank(all, 0, 1, 2, 3, 4);
            assert(!beats(r0, best));
            lemma_score_bounds(r0);
            law_score_injective(r0, best);
        }
    }
    best
}


/// Both players' Omaha high hands on `board` and, with `hi_lo`, their
/// eight-or-better lows (both `None` without `hi_lo`).
pub fn compare_hands(hero: &Hand, villain: &Hand, board: &[Card], hi_lo: bool) -> (r: (
    HandRank,
    HandRank,
    Option<[Rank; 5]>,
    Option<[Rank; 5]>,
))
    requires
        board@.len() >= 3 ==> hero.0@.len() == 4 && villain.0@.len() == 4,
    ensures
        is_best_omaha(hero.0@, board@, r.0),
        is_best_omaha(villain.0@, board@, r.1),
        hi_lo ==> is_best_omaha_low(hero.0@, board@, low_view(r.2)),
        hi_lo ==> is_best_omaha_low(villain.0@, board@, low_view(r.3)),
        !hi_lo ==> r.2 is None && r.3 is None,
{
    let hr = evaluate_omaha_hand(hero, board);
    let vr = evaluate_omaha_hand(villain, board);
    let mut hl: Option<[Rank; 5]> = None;
    let mut vl: Option<[Rank; 5]> = None;
    if hi_lo {
        hl = evaluate_omaha_hand_low(hero, board);
        vl = evaluate_omaha_hand_low(villain, board);
    }
    (hr, vr, hl, vl)
}

// ---------------------------------------------------------------------------
// Laws: the best hand is the strongest one the rules allow
// ---------------------------------------------------------------------------

proof fn lemma_omaha_choice_not_stronger(hand: Seq<Card>, board: Seq<Card>, r: HandRank, a: int, b: int, i: int, j: int, k: int)
    requires
        board.len() >= 3,
        is_best_omaha(hand, board, r),
        omaha_choice(board.len() as int, a, b, i, j, k),
    ensures
        !outranks(hand_rank_of(seq![hand[a], hand[b], board[i], board[j], board[k]]), r),
{
    let x = omaha_combo_rank(hand, board, a, b, i, j, k);
    assert(!beats(x, r));
    law_beats_is_poker_order(x, r);
}

proof fn lemma_holdem_choice_not_stronger(hole: Seq<Card>, board: Seq<Card>, r: HandRank, a: int, b: int, c: int, d: int, e: int)
    requires
        board.len() >= 3,
        is_best_holdem(hole, board, r),
        holdem_choice(board.len() + 2int, a, b, c, d, e),
        hole.len() == 2,
    ensures
        !outranks(hand_rank_of(seq![(hole + board)[a], (hole + board)[b], (hole + board)[c], (hole + board)[d], (hole + board)[e]]), r),
{
    let all = holdem_cards(hole, board);
    assert(all =~= hole + board);
    let x = holdem_combo_rank(all, a, b, c, d, e);
    assert(!beats(x, r));
    law_beats_is_poker_order(x, r);
}

/// The Omaha high hand is made of exactly two hole cards and three board
/// cards, and no other such choice makes a hand that outranks it in poker
/// order.
#[verifier::spinoff_prover]
#[verifier::rlimit(60)]
pub proof fn law_omaha_hand_strongest(hand: Seq<Card>, board: Seq<Card>, r: HandRank)
    requires
        board.len() >= 3,
        is_best_omaha(hand, board, r),
    ensures
        exists|a: int, b: int, i: int, j: int, k: int|
            #[trigger] omaha_choice(board.len() as int, a, b, i, j, k)
                && r == hand_rank_of(seq![hand[a], hand[b], board[i], board[j], board[k]]),
        forall|a: int, b: int, i: int, j: int, k: int|
            #[trigger] omaha_choice(board.len() as int, a, b, i, j, k) ==> !outranks(
                hand_rank_of(seq![hand[a], hand[b], board[i], board[j], board[k]]),
                r,
            ),
{
    let (a, b, i, j, k) = choose|a: int, b: int, i: int, j: int, k: int|
        omaha_choice(board.len() as int, a, b, i, j, k) && r == #[trigger] omaha_combo_rank(hand, board, a, b, i, j, k);
    assert(r == hand_rank_of(seq![hand[a], hand[b], board[i], board[j], board[k]]));
    assert forall|a: int, b: int, i: int, j: int, k: int|
        #[trigger] omaha_choice(board.len() as int, a, b, i, j, k) implies !outranks(
            hand_rank_of(seq![hand[a], hand[b], board[i], board[j], board[k]]),
            r,
        ) by {
        lemma_omaha_choice_not_stronger(hand, board, r, a, b, i, j, k);
    }
}

/// The Hold'em hand is made of five of the two hole cards and the board
/// cards together, and no other five of them make a hand that outranks it
/// in poker order.
#[verifier::spinoff_prover]
#[verifier::rlimit(60)]
pub proof fn law_holdem_hand_strongest(hole: Seq<Card>, board: Seq<Card>, r: HandRank)
    requires
        board.len() >= 3,
        hole.len() == 2,
        is_best_holdem(hole, board, r),
    ensures
        exists|a: int, b: int, c: int, d: int, e: int|
            #[trigger] holdem_choice(board.len() + 2int, a, b, c, d, e)
                && r == hand_rank_of(seq![(hole + board)[a], (hole + board)[b], (hole + board)[c], (hole + board)[d], (hole + board)[e]]),
        forall|a: int, b: int, c: int, d: int, e: int|
            #[trigger] holdem_choice(board.len() + 2int, a, b, c, d, e) ==> !outranks(
                hand_rank_of(seq![(hole + board)[a], (hole + board)[b], (hole + board)[c], (hole + board)[d], (hole + board)[e]]),
                r,
            ),
{
    let all = holdem_cards(hole, board);
    assert(all =~= hole + board);
    let (a, b, c, d, e) = choose|a: int, b: int, c: int, d: int, e: int|
        holdem_choice(all.len() as int, a, b, c, d, e) && r == #[trigger] holdem_combo_rank(all, a, b, c, d, e);
    assert(holdem_choice(board.len() + 2int, a, b, c, d, e));
    assert(r == hand_rank_of(seq![(hole + board)[a], (hole + board)[b], (hole + board)[c], (hole + board)[d], (hole + board)[e]]));
    assert forall|a: int, b: int, c: int, d: int, e: int|
        #[trigger] holdem_choice(board.len() + 2int, a, b, c, d, e) implies !outranks(
            hand_rank_of(seq![(hole + board)[a], (hole + board)[b], (hole + board)[c], (hole + board)[d], (hole + board)[e]]),
            r,
        ) by {
        lemma_holdem_choice_not_stronger(hole, board, r, a, b, c, d, e);
    }
}

/// The Omaha low is made of exactly two hole cards and three board cards,
/// and no other such choice makes a lower low (smaller at the first value
/// where the two differ, highest card first); there is no low only when no
/// such choice makes one.
#[verifier::spinoff_prover]
#[verifier::rlimit(60)]
pub proof fn law_omaha_low_lowest(hand: Seq<Card>, board: Seq<Card>, r: Option<Seq<Rank>>)
    requires
        board.len() >= 3,
        is_best_omaha_low(hand, board, r),
    ensures
        r is Some ==> exists|a: int, b: int, i: int, j: int, k: int|
            #[trigger] omaha_choice(board.len() as int, a, b, i, j, k)
                && r == low_hand_of(seq![hand[a], hand[b], board[i], board[j], board[k]]),
        forall|a: int, b: int, i: int, j: int, k: int|
            #[trigger] omaha_choice(board.len() as int, a, b, i, j, k)
                && low_hand_of(seq![hand[a], hand[b], board[i], board[j], board[k]]) is Some ==> {
                &&& r is Some
                &&& !lex_lt(
                    low_values(low_hand_of(seq![hand[a], hand[b], board[i], board[j], board[k]])->0),
                    low_values(r->0),
                )
            },
{
    if r is Some {
        let (a, b, i, j, k) = choose|a: int, b: int, i: int, j: int, k: int|
            omaha_choice(board.len() as int, a, b, i, j, k) && #[trigger] omaha_combo_low(hand, board, a, b, i, j, k) == r;
        assert(r == low_hand_of(seq![hand[a], hand[b], board[i], board[j], board[k]]));
    }
    assert forall|a: int, b: int, i: int, j: int, k: int|
        #[trigger] omaha_choice(board.len() as int, a, b, i, j, k)
            && low_hand_of(seq![hand[a], hand[b], board[i], board[j], board[k]]) is Some implies {
            &&& r is Some
            &&& !lex_lt(
                low_values(low_hand_of(seq![hand[a], hand[b], board[i], board[j], board[k]])->0),
                low_values(r->0),
            )
        } by {
        assert(omaha_combo_low(hand, board, a, b, i, j, k) is Some);
    }
}

} // verus!
