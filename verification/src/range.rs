//! Ranges: collections of hands written in shorthand notation.
//!
//! A range is a comma-separated list of parts; surrounding whitespace of a
//! part is ignored and empty parts are skipped.
//!
//! Omaha parts:
//! - an exact hand of four cards, e.g. `AsKsQhJh`;
//! - a rank pattern of two or four ranks: `AA` (two equal ranks) is every
//!   hand holding at least two cards of that rank, otherwise (`AK`, `AKQJ`)
//!   every hand holding at least one card of each rank listed; all such
//!   hands from the deck without the dead cards, in deck order.
//!
//! Hold'em parts:
//! - an exact combo, e.g. `AhKd`;
//! - pairs: `AA`, `22+` (that rank up to Aces), `22-66` (inclusive);
//! - unpaired: `AK` (all 16 combos), `AKs` (4 suited), `AKo` (12 offsuit),
//!   `ATs+`/`KQo+` (the lower rank climbs up to just below the higher one),
//!   `JTs-54s`/`JTo-54o` (both ranks step down together, keeping their gap).
//!
//! Hands touching a dead card are left out. Parts that are not all ASCII
//! stand for no hands and are reported as errors.
use vstd::prelude::*;
use vstd::string::{StrSliceExecFns, StringExecFns};

use crate::cards::{canonical, card_of_chars, rank_of_char, rank_of_value, rank_value, Card, Game, Hand, Rank, Suit};
use crate::rng::{deck_without, slice_contains, undead_deck};

verus! {

/// A collection of hands, each with equal weight.
#[derive(Debug, Clone)]
pub struct Range {
    pub hands: Vec<Hand>,
}

// ---------------------------------------------------------------------------
// Model: text
// ---------------------------------------------------------------------------

/// The cards of each hand.
pub open spec fn hands_view(hs: Seq<Hand>) -> Seq<Seq<Card>> {
    hs.map_values(|h: Hand| h.0@)
}

/// Whitespace in the sense of Unicode's `White_Space` property.
pub open spec fn is_ws(c: char) -> bool {
    let u = c as u32;
    ||| 0x09 <= u <= 0x0D
    ||| u == 0x20
    ||| u == 0x85
    ||| u == 0xA0
    ||| u == 0x1680
    ||| 0x2000 <= u <= 0x200A
    ||| u == 0x2028
    ||| u == 0x2029
    ||| u == 0x202F
    ||| u == 0x205F
    ||| u == 0x3000
}

/// `p` without leading whitespace.
pub open spec fn trim_start(p: Seq<char>) -> Seq<char>
    decreases p.len(),
{
    if p.len() > 0 && is_ws(p[0]) {
        trim_start(p.drop_first())
    } else {
        p
    }
}

/// `p` without trailing whitespace.
pub open spec fn trim_end(p: Seq<char>) -> Seq<char>
    decreases p.len(),
{
    if p.len() > 0 && is_ws(p.last()) {
        trim_end(p.drop_last())
    } else {
        p
    }
}

/// `p` without surrounding whitespace.
pub open spec fn trim(p: Seq<char>) -> Seq<char> {
    trim_end(trim_start(p))
}

/// Splitting the first `i` characters of `s` at commas: the finished parts
/// and the part still being read.
pub open spec fn split_upto(s: Seq<char>, i: int) -> (Seq<Seq<char>>, Seq<char>)
    decreases i,
{
    if i <= 0 {
        (Seq::empty(), Seq::empty())
    } else {
        let (done, cur) = split_upto(s, i - 1);
        if s[i - 1] == ',' {
            (done.push(cur), Seq::empty())
        } else {
            (done, cur.push(s[i - 1]))
        }
    }
}

/// The comma-separated parts of `s`.
pub open spec fn split_commas(s: Seq<char>) -> Seq<Seq<char>> {
    let (done, cur) = split_upto(s, s.len() as int);
    done.push(cur)
}

pub open spec fn msg_invalid_rank(c: char) -> Seq<char> {
    "Invalid rank: "@ + seq![c]
}

pub open spec fn msg_unsupported(p: Seq<char>) -> Seq<char> {
    "Unsupported range notation: '"@ + p + "'"@
}

pub open spec fn msg_empty() -> Seq<char> {
    "Empty range"@
}

// ---------------------------------------------------------------------------
// Model: Omaha parts
// ---------------------------------------------------------------------------

/// The four cards an eight-character part writes, if it writes four cards.
pub open spec fn exact_omaha_cards(p: Seq<char>) -> Option<Seq<Card>> {
    match (card_of_chars(p[0], p[1]), card_of_chars(p[2], p[3]), card_of_chars(p[4], p[5]), card_of_chars(p[6], p[7])) {
        (Some(a), Some(b), Some(c), Some(d)) => Some(seq![a, b, c, d]),
        _ => None,
    }
}

/// Some card of `cards` is dead.
pub open spec fn any_dead(cards: Seq<Card>, dead: Seq<Card>) -> bool {
    exists|i: int| 0 <= i < cards.len() && dead.contains(#[trigger] cards[i])
}

/// Position of the first character of `p` that is not a rank, if any.
pub open spec fn bad_rank_index(p: Seq<char>) -> Option<int>
    decreases p.len(),
{
    if p.len() == 0 {
        None
    } else {
        match bad_rank_index(p.drop_last()) {
            Some(i) => Some(i),
            None => if rank_of_char(p.last()) is None {
                Some(p.len() - 1)
            } else {
                None
            },
        }
    }
}

/// The ranks a pattern of rank characters lists.
pub open spec fn pattern_ranks(p: Seq<char>) -> Seq<Rank> {
    p.map_values(|c: char| rank_of_char(c)->0)
}

/// How many of `cards` have rank `r`.
pub open spec fn count_rank(cards: Seq<Card>, r: Rank) -> int
    decreases cards.len(),
{
    if cards.len() == 0 {
        0
    } else {
        count_rank(cards.drop_last(), r) + if cards.last().rank == r {
            1int
        } else {
            0int
        }
    }
}

/// Some card of `cards` has rank `r`.
pub open spec fn has_rank(cards: Seq<Card>, r: Rank) -> bool {
    exists|j: int| 0 <= j < cards.len() && #[trigger] cards[j].rank == r
}

/// The hand `h` fits the rank pattern: a pair pattern needs two cards of its
/// rank, any other pattern one card of each rank it lists.
pub open spec fn pattern_match(ranks: Seq<Rank>, h: Seq<Card>) -> bool {
    if ranks.len() == 2 && ranks[0] == ranks[1] {
        count_rank(h, ranks[0]) >= 2
    } else {
        forall|i: int| 0 <= i < ranks.len() ==> has_rank(h, #[trigger] ranks[i])
    }
}

pub open spec fn quad(d: Seq<Card>, i: int, j: int, k: int, l: int) -> Seq<Card> {
    seq![d[i], d[j], d[k], d[l]]
}

/// Matching hands `(i, j, k, l)` of `d` for fixed `i < j < k` and `k < l < m`.
pub open spec fn row4(r: Seq<Rank>, d: Seq<Card>, i: int, j: int, k: int, m: int) -> Seq<Seq<Card>>
    decreases m - k,
{
    if m <= k + 1 {
        Seq::empty()
    } else {
        row4(r, d, i, j, k, m - 1) + if pattern_match(r, quad(d, i, j, k, m - 1)) {
            seq![canonical(quad(d, i, j, k, m - 1))]
        } else {
            Seq::empty()
        }
    }
}

/// Matching hands for fixed `i < j` and `j < k < m`.
pub open spec fn row3(r: Seq<Rank>, d: Seq<Card>, i: int, j: int, m: int) -> Seq<Seq<Card>>
    decreases m - j,
{
    if m <= j + 1 {
        Seq::empty()
    } else {
        row3(r, d, i, j, m - 1) + row4(r, d, i, j, m - 1, d.len() as int)
    }
}

/// Matching hands for fixed `i` and `i < j < m`.
pub open spec fn row2(r: Seq<Rank>, d: Seq<Card>, i: int, m: int) -> Seq<Seq<Card>>
    decreases m - i,
{
    if m <= i + 1 {
        Seq::empty()
    } else {
        row2(r, d, i, m - 1) + row3(r, d, i, m - 1, d.len() as int)
    }
}

/// Matching hands with `i < m`.
pub open spec fn row1(r: Seq<Rank>, d: Seq<Card>, m: int) -> Seq<Seq<Card>>
    decreases m,
{
    if m <= 0 {
        Seq::empty()
    } else {
        row1(r, d, m - 1) + row2(r, d, m - 1, d.len() as int)
    }
}

/// Every four-card hand of `d` (positions `i < j < k < l`, in that
/// lexicographic order) that fits the pattern, each in canonical order.
pub open spec fn pattern_hands(r: Seq<Rank>, d: Seq<Card>) -> Seq<Seq<Card>> {
    row1(r, d, d.len() as int)
}

/// A character of the ASCII range.
pub open spec fn is_ascii_char(c: char) -> bool {
    (c as u32) < 0x80
}

/// Every character of `s` is ASCII.
pub open spec fn all_ascii(s: Seq<char>) -> bool {
    forall|i: int| 0 <= i < s.len() ==> is_ascii_char(#[trigger] s[i])
}

/// How many bytes UTF-8 takes for `c`.
pub open spec fn char_bytes(c: char) -> int {
    let u = c as u32;
    if u < 0x80 {
        1
    } else if u < 0x800 {
        2
    } else if u < 0x10000 {
        3
    } else {
        4
    }
}

/// How many bytes UTF-8 takes for `s`.
pub open spec fn byte_len(s: Seq<char>) -> int
    decreases s.len(),
{
    if s.len() == 0 {
        0
    } else {
        byte_len(s.drop_last()) + char_bytes(s.last())
    }
}

/// What an Omaha part (already trimmed, not empty) stands for. A part that
/// is not all ASCII is an error: with two or four bytes it reads as ranks
/// and fails at its first character that is no rank, otherwise it is not
/// notation.
pub open spec fn omaha_part(t: Seq<char>, dead: Seq<Card>) -> Result<Seq<Seq<Card>>, Seq<char>> {
    if !all_ascii(t) {
        if byte_len(t) == 2 || byte_len(t) == 4 {
            match bad_rank_index(t) {
                Some(i) => Err(msg_invalid_rank(t[i])),
                None => Err(msg_unsupported(t)),
            }
        } else {
            Err(msg_unsupported(t))
        }
    } else if t.len() == 8 && exact_omaha_cards(t) is Some {
        let cards = exact_omaha_cards(t)->0;
        if any_dead(cards, dead) {
            Ok(Seq::empty())
        } else {
            Ok(seq![canonical(cards)])
        }
    } else if t.len() == 2 || t.len() == 4 {
        match bad_rank_index(t) {
            Some(i) => Err(msg_invalid_rank(t[i])),
            None => Ok(pattern_hands(pattern_ranks(t), undead_deck(dead))),
        }
    } else {
        Err(msg_unsupported(t))
    }
}

// ---------------------------------------------------------------------------
// Executable: Omaha parts
// ---------------------------------------------------------------------------

/// The number of cards of `h` with rank `r`.
fn count_rank_exec(h: &[Card; 4], r: Rank) -> (n: usize)
    ensures
        n == count_rank(h@, r),
        n <= 4,
{
    let mut n: usize = 0;
    let mut i: usize = 0;
    while i < 4
        invariant
            i <= 4,
            n <= i,
            n == count_rank(h@.take(i as int), r),
        decreases 4 - i,
    {
        assert(h@.take(i + 1).drop_last() == h@.take(i as int));
        if h[i].rank == r {
            n = n + 1;
        }
        i = i + 1;
    }
    assert(h@.take(4) == h@);
    n
}

/// Whether the four cards fit the rank pattern.
fn fits_pattern(ranks: &Vec<Rank>, h: &[Card; 4]) -> (b: bool)
    ensures
        b == pattern_match(ranks@, h@),
{
    if ranks.len() == 2 && ranks[0] == ranks[1] {
        return count_rank_exec(h, ranks[0]) >= 2;
    }
    assert(!(ranks@.len() == 2 && ranks@[0] == ranks@[1]));
    let mut i: usize = 0;
    while i < ranks.len()
        invariant
            i <= ranks@.len(),
            !(ranks@.len() == 2 && ranks@[0] == ranks@[1]),
            forall|q: int| 0 <= q < i ==> has_rank(h@, #[trigger] ranks@[q]),
        decreases ranks@.len() - i,
    {
        let mut found = false;
        let mut j: usize = 0;
        while j < 4
            invariant
                j <= 4,
                i < ranks@.len(),
                found <==> exists|t: int| 0 <= t < j && #[trigger] h@[t].rank == ranks@[i as int],
            decreases 4 - j,
        {
            if h[j].rank == ranks[i] {
                found = true;
            }
            j = j + 1;
        }
        if !found {
            assert(!has_rank(h@, ranks@[i as int]));
            return false;
        }
        i = i + 1;
    }
    true
}

/// Every four-card hand of `deck` that fits the rank pattern, in deck order.
fn expand_pattern(ranks: &Vec<Rank>, deck: &Vec<Card>) -> (out: Vec<Hand>)
    requires
        deck@.len() <= 52,
    ensures
        hands_view(out@) == pattern_hands(ranks@, deck@),
{
    let ghost r = ranks@;
    let ghost d = deck@;
    let n = deck.len();
    let mut out: Vec<Hand> = Vec::new();
    let mut i: usize = 0;
    while i < n
        invariant
            r == ranks@ && d == deck@ && n == d.len(),
            i <= n,
            hands_view(out@) == row1(r, d, i as int),
        decreases n - i,
    {
        let mut j: usize = i + 1;
        while j < n
            invariant
                r == ranks@ && d == deck@ && n == d.len(),
                i < n,
                i < j <= n,
                hands_view(out@) == row1(r, d, i as int) + row2(r, d, i as int, j as int),
            decreases n - j,
        {
            let mut k: usize = j + 1;
            while k < n
                invariant
                    r == ranks@ && d == deck@ && n == d.len(),
                    i < j < n,
                    j < k <= n,
                    hands_view(out@) == row1(r, d, i as int) + row2(r, d, i as int, j as int) + row3(
                        r,
                        d,
                        i as int,
                        j as int,
                        k as int,
                    ),
                decreases n - k,
            {
                let mut l: usize = k + 1;
                while l < n
                    invariant
                        r == ranks@ && d == deck@ && n == d.len(),
                        i < j < k,
                        k < n,
                        k < l <= n,
                        hands_view(out@) == row1(r, d, i as int) + row2(r, d, i as int, j as int) + row3(
                            r,
                            d,
                            i as int,
                            j as int,
                            k as int,
                        ) + row4(r, d, i as int, j as int, k as int, l as int),
                    decreases n - l,
                {
                    let h = [deck[i], deck[j], deck[k], deck[l]];
                    assert(h@ =~= quad(d, i as int, j as int, k as int, l as int));
                    let ghost before = out@;
                    if fits_pattern(ranks, &h) {
                        out.push(Hand::new(h));
                        assert(hands_view(out@) =~= hands_view(before).push(canonical(h@)));
                    }
                    let ghost prefix = row1(r, d, i as int) + row2(r, d, i as int, j as int) + row3(
                        r,
                        d,
                        i as int,
                        j as int,
                        k as int,
                    );
                    assert(hands_view(out@) =~= prefix + row4(r, d, i as int, j as int, k as int, l + 1));
                    l = l + 1;
                }
                assert(row3(r, d, i as int, j as int, k + 1) == row3(r, d, i as int, j as int, k as int)
                    + row4(r, d, i as int, j as int, k as int, n as int));
                assert(row4(r, d, i as int, j as int, k + 1, k + 2) =~= Seq::<Seq<Card>>::empty());
                k = k + 1;
            }
            assert(row2(r, d, i as int, j + 1) == row2(r, d, i as int, j as int) + row3(r, d, i as int, j as int, n as int));
            j = j + 1;
        }
        assert(row1(r, d, i + 1) == row1(r, d, i as int) + row2(r, d, i as int, n as int));
        i = i + 1;
    }
    out
}

/// A parse outcome as hands' cards or the error text.
pub open spec fn hands_result_view(r: Result<Vec<Hand>, String>) -> Result<Seq<Seq<Card>>, Seq<char>> {
    match r {
        Ok(v) => Ok(hands_view(v@)),
        Err(e) => Err(e@),
    }
}

/// The card written by a rank character and a suit character.
pub fn card_from_chars(r: char, s: char) -> (c: Option<Card>)
    ensures
        c == card_of_chars(r, s),
{
    match (Rank::from_char(r), Suit::from_char(s)) {
        (Some(rank), Some(suit)) => Some(Card { rank, suit }),
        _ => None,
    }
}

/// `prefix`, then `middle`, then `suffix`, as one string.
fn quoted(prefix: &str, middle: &str, suffix: &str) -> (m: String)
    ensures
        m@ == prefix@ + middle@ + suffix@,
{
    let mut m = String::from_str(prefix);
    m.append(middle);
    m.append(suffix);
    m
}

proof fn lemma_bad_rank_prefix(p: Seq<char>, m: int)
    requires
        0 <= m <= p.len(),
        bad_rank_index(p.take(m)) is Some,
    ensures
        bad_rank_index(p) == bad_rank_index(p.take(m)),
    decreases p.len() - m,
{
    if m < p.len() {
        assert(p.take(m + 1).drop_last() == p.take(m));
        lemma_bad_rank_prefix(p, m + 1);
    } else {
        assert(p.take(m) == p);
    }
}

/// Whether `cs[lo..hi]` is all ASCII.
fn all_ascii_exec(cs: &Vec<char>, lo: usize, hi: usize) -> (b: bool)
    requires
        lo <= hi <= cs@.len(),
    ensures
        b == all_ascii(cs@.subrange(lo as int, hi as int)),
{
    let ghost t = cs@.subrange(lo as int, hi as int);
    let mut i: usize = lo;
    while i < hi
        invariant
            lo <= i <= hi <= cs@.len(),
            t == cs@.subrange(lo as int, hi as int),
            forall|q: int| 0 <= q < i - lo ==> is_ascii_char(#[trigger] t[q]),
        decreases hi - i,
    {
        if (cs[i] as u32) >= 0x80 {
            assert(!is_ascii_char(t[i - lo]));
            return false;
        }
        i = i + 1;
    }
    true
}

proof fn lemma_byte_len_take(s: Seq<char>, k: int)
    requires
        0 <= k <= s.len(),
    ensures
        byte_len(s.take(k)) <= byte_len(s),
    decreases s.len() - k,
{
    if k < s.len() {
        assert(s.take(k + 1).drop_last() == s.take(k));
        lemma_byte_len_take(s, k + 1);
    } else {
        assert(s.take(k) == s);
    }
}

/// The UTF-8 byte length of `cs[lo..hi]`, or 6 when it is longer.
fn byte_len_upto6(cs: &Vec<char>, lo: usize, hi: usize) -> (n: usize)
    requires
        lo <= hi <= cs@.len(),
    ensures
        n == if byte_len(cs@.subrange(lo as int, hi as int)) < 6 {
            byte_len(cs@.subrange(lo as int, hi as int))
        } else {
            6
        },
{
    let ghost t = cs@.subrange(lo as int, hi as int);
    let mut n: usize = 0;
    let mut i: usize = lo;
    while i < hi
        invariant
            lo <= i <= hi <= cs@.len(),
            t == cs@.subrange(lo as int, hi as int),
            n == byte_len(t.take(i - lo)),
            n < 6,
        decreases hi - i,
    {
        let u = cs[i] as u32;
        let w: usize = if u < 0x80 {
            1
        } else if u < 0x800 {
            2
        } else if u < 0x10000 {
            3
        } else {
            4
        };
        assert(t.take(i - lo + 1).drop_last() == t.take(i - lo));
        assert(t.take(i - lo + 1).last() == cs@[i as int]);
        if n + w >= 6 {
            proof {
                lemma_byte_len_take(t, i - lo + 1);
            }
            return 6;
        }
        n = n + w;
        i = i + 1;
    }
    assert(t.take(hi - lo) == t);
    n
}

/// What an Omaha part `s[lo..hi]` (trimmed, not empty) stands for.
fn omaha_part_exec(s: &str, cs: &Vec<char>, lo: usize, hi: usize, dead: &[Card]) -> (r: Result<Vec<Hand>, String>)
    requires
        cs@ == s@,
        lo < hi <= cs@.len(),
    ensures
        hands_result_view(r) == omaha_part(cs@.subrange(lo as int, hi as int), dead@),
{
    let ghost t = cs@.subrange(lo as int, hi as int);
    let len = hi - lo;
    let wide = !all_ascii_exec(cs, lo, hi);
    if wide {
        let bl = byte_len_upto6(cs, lo, hi);
        if !(bl == 2 || bl == 4) {
            let piece = s.substring_char(lo, hi);
            return Err(quoted("Unsupported range notation: '", piece, "'"));
        }
    } else if len == 8 {
        let c0 = card_from_chars(cs[lo], cs[lo + 1]);
        let c1 = card_from_chars(cs[lo + 2], cs[lo + 3]);
        let c2 = card_from_chars(cs[lo + 4], cs[lo + 5]);
        let c3 = card_from_chars(cs[lo + 6], cs[lo + 7]);
        if let (Some(a), Some(b), Some(c), Some(d)) = (c0, c1, c2, c3) {
            let cards = [a, b, c, d];
            assert(exact_omaha_cards(t) == Some(cards@));
            let is_dead = slice_contains(dead, a) || slice_contains(dead, b) || slice_contains(dead, c)
                || slice_contains(dead, d);
            if is_dead {
                assert(any_dead(cards@, dead@)) by {
                    if dead@.contains(a) {
                        assert(dead@.contains(cards@[0]));
                    } else if dead@.contains(b) {
                        assert(dead@.contains(cards@[1]));
                    } else if dead@.contains(c) {
                        assert(dead@.contains(cards@[2]));
                    } else {
                        assert(dead@.contains(cards@[3]));
                    }
                }
                let out: Vec<Hand> = Vec::new();
                assert(hands_view(out@) =~= Seq::<Seq<Card>>::empty());
                return Ok(out);
            } else {
                let h = Hand::new(cards);
                let out = vec![h];
                assert(hands_view(out@) =~= seq![canonical(cards@)]);
                return Ok(out);
            }
        }
        assert(exact_omaha_cards(t) is None);
    }
    if wide || len == 2 || len == 4 {
        let mut ranks: Vec<Rank> = Vec::new();
        let mut k: usize = lo;
        while k < hi
            invariant
                lo <= k <= hi,
                hi <= cs@.len(),
                cs@ == s@,
                t == cs@.subrange(lo as int, hi as int),
                wide == !all_ascii(t),
                wide ==> (byte_len(t) == 2 || byte_len(t) == 4),
                !wide ==> (t.len() == 2 || t.len() == 4),
                bad_rank_index(t.take(k - lo)) is None,
                ranks@ == pattern_ranks(t.take(k - lo)),
            decreases hi - k,
        {
            assert(t.take(k - lo + 1).drop_last() == t.take(k - lo));
            assert(t.take(k - lo + 1).last() == cs@[k as int]);
            match Rank::from_char(cs[k]) {
                Some(r) => {
                    ranks.push(r);
                    assert(ranks@ =~= pattern_ranks(t.take(k - lo + 1)));
                },
                None => {
                    proof {
                        assert(bad_rank_index(t.take(k - lo + 1)) == Some((k - lo) as int));
                        lemma_bad_rank_prefix(t, k - lo + 1);
                        assert(bad_rank_index(t) == Some((k - lo) as int));
                        assert(t[k - lo] == cs@[k as int]);
                    }
                    let piece = s.substring_char(k, k + 1);
                    let mut m = String::from_str("Invalid rank: ");
                    m.append(piece);
                    assert(piece@ =~= seq![t[k - lo]]);
                    assert(m@ =~= msg_invalid_rank(t[k - lo]));
                    return Err(m);
                },
            }
            k = k + 1;
        }
        assert(t.take(len as int) == t);
        if wide {
            let piece = s.substring_char(lo, hi);
            return Err(quoted("Unsupported range notation: '", piece, "'"));
        }
        let deck = deck_without(dead);
        return Ok(expand_pattern(&ranks, &deck));
    }
    let piece = s.substring_char(lo, hi);
    let m = quoted("Unsupported range notation: '", piece, "'");
    Err(m)
}

// ---------------------------------------------------------------------------
// Model: Hold'em parts
// ---------------------------------------------------------------------------

pub open spec fn msg_token(t: Seq<char>) -> Seq<char> {
    "Unsupported Hold'em range token: '"@ + t + "'"@
}

pub open spec fn msg_rank_in(t: Seq<char>) -> Seq<char> {
    "Invalid rank in '"@ + t + "'"@
}

pub open spec fn msg_pair_mix(t: Seq<char>) -> Seq<char> {
    "'"@ + t + "' mixes a pair with a non-pair in a dash range"@
}

pub open spec fn msg_suit_mix(t: Seq<char>) -> Seq<char> {
    "'"@ + t + "' mixes suited and offsuit across a dash range"@
}

pub open spec fn msg_gap(t: Seq<char>) -> Seq<char> {
    "'"@ + t + "' dash range must keep a constant gap between ranks"@
}

/// The card of rank `r` and the suit at position `s`.
pub open spec fn card_of(r: Rank, s: int) -> Card {
    Card { rank: r, suit: crate::cards::suit_of_index(s) }
}

/// The two-card hand of `c1` and `c2`, unless one of them is dead.
pub open spec fn two_card(c1: Card, c2: Card, dead: Seq<Card>) -> Seq<Seq<Card>> {
    if dead.contains(c1) || dead.contains(c2) {
        Seq::empty()
    } else {
        seq![canonical(seq![c1, c2])]
    }
}

/// Pocket pairs of rank `r` using suit `i` and a later suit below `m`.
pub open spec fn pair_row_hands(r: Rank, dead: Seq<Card>, i: int, m: int) -> Seq<Seq<Card>>
    decreases m - i,
{
    if m <= i + 1 {
        Seq::empty()
    } else {
        pair_row_hands(r, dead, i, m - 1) + two_card(card_of(r, i), card_of(r, m - 1), dead)
    }
}

pub open spec fn pair_combos_upto(r: Rank, dead: Seq<Card>, m: int) -> Seq<Seq<Card>>
    decreases m,
{
    if m <= 0 {
        Seq::empty()
    } else {
        pair_combos_upto(r, dead, m - 1) + pair_row_hands(r, dead, m - 1, 4)
    }
}

/// The (up to six) pocket pairs of rank `r`.
pub open spec fn pair_combos(r: Rank, dead: Seq<Card>) -> Seq<Seq<Card>> {
    pair_combos_upto(r, dead, 4)
}

pub open spec fn suited_upto(hi: Rank, lo: Rank, dead: Seq<Card>, m: int) -> Seq<Seq<Card>>
    decreases m,
{
    if m <= 0 {
        Seq::empty()
    } else {
        suited_upto(hi, lo, dead, m - 1) + two_card(card_of(hi, m - 1), card_of(lo, m - 1), dead)
    }
}

/// The (up to four) suited combos of `hi` and `lo`.
pub open spec fn suited_combos(hi: Rank, lo: Rank, dead: Seq<Card>) -> Seq<Seq<Card>> {
    suited_upto(hi, lo, dead, 4)
}

pub open spec fn offsuit_row(hi: Rank, lo: Rank, dead: Seq<Card>, s1: int, m: int) -> Seq<Seq<Card>>
    decreases m,
{
    if m <= 0 {
        Seq::empty()
    } else {
        offsuit_row(hi, lo, dead, s1, m - 1) + if m - 1 == s1 {
            Seq::empty()
        } else {
            two_card(card_of(hi, s1), card_of(lo, m - 1), dead)
        }
    }
}

pub open spec fn offsuit_upto(hi: Rank, lo: Rank, dead: Seq<Card>, m: int) -> Seq<Seq<Card>>
    decreases m,
{
    if m <= 0 {
        Seq::empty()
    } else {
        offsuit_upto(hi, lo, dead, m - 1) + offsuit_row(hi, lo, dead, m - 1, 4)
    }
}

/// The (up to twelve) offsuit combos of `hi` and `lo`.
pub open spec fn offsuit_combos(hi: Rank, lo: Rank, dead: Seq<Card>) -> Seq<Seq<Card>> {
    offsuit_upto(hi, lo, dead, 4)
}

/// Pocket pairs of every rank value from `lo` to `hi`.
pub open spec fn pairs_between(lo: int, hi: int, dead: Seq<Card>) -> Seq<Seq<Card>>
    decreases hi - lo + 1,
{
    if hi < lo {
        Seq::empty()
    } else {
        pairs_between(lo, hi - 1, dead) + pair_combos(rank_of_value(hi), dead)
    }
}

/// Combos of `hi` with every kicker value from `lo` up to below `m`.
pub open spec fn kickers_between(hi: Rank, lo: int, m: int, suited: bool, dead: Seq<Card>) -> Seq<Seq<Card>>
    decreases m - lo,
{
    if m <= lo {
        Seq::empty()
    } else {
        kickers_between(hi, lo, m - 1, suited, dead) + if suited {
            suited_combos(hi, rank_of_value(m - 1), dead)
        } else {
            offsuit_combos(hi, rank_of_value(m - 1), dead)
        }
    }
}

/// Combos of top value `h` and `h - gap` for every `h` from `start` to `end`.
pub open spec fn gapped_between(gap: int, start: int, end: int, suited: bool, dead: Seq<Card>) -> Seq<Seq<Card>>
    decreases end - start + 1,
{
    if end < start {
        Seq::empty()
    } else {
        gapped_between(gap, start, end - 1, suited, dead) + if suited {
            suited_combos(rank_of_value(end), rank_of_value(end - gap), dead)
        } else {
            offsuit_combos(rank_of_value(end), rank_of_value(end - gap), dead)
        }
    }
}

/// What a pair token (`r0 == r1`, `rest` after the two ranks) stands for.
pub open spec fn holdem_pair_part(t: Seq<char>, r0: Rank, rest: Seq<char>, dead: Seq<Card>) -> Result<Seq<Seq<Card>>, Seq<char>> {
    if rest.len() == 0 {
        Ok(pair_combos(r0, dead))
    } else if rest == seq!['+'] {
        Ok(pairs_between(rank_value(r0), 14, dead))
    } else if rest.len() == 3 && rest[0] == '-' {
        if rank_of_char(rest[1]) is None || rank_of_char(rest[2]) is None {
            Err(msg_rank_in(t))
        } else if rank_of_char(rest[1]) != rank_of_char(rest[2]) {
            Err(msg_pair_mix(t))
        } else {
            let v0 = rank_value(r0);
            let v2 = rank_value(rank_of_char(rest[1])->0);
            if v0 <= v2 {
                Ok(pairs_between(v0, v2, dead))
            } else {
                Ok(pairs_between(v2, v0, dead))
            }
        }
    } else {
        Err(msg_token(t))
    }
}

/// What an unpaired dash token (`rest` is `s-XYs` or `o-XYo`) stands for,
/// `hi` above `lo`.
pub open spec fn holdem_dash_part(t: Seq<char>, hi: Rank, lo: Rank, rest: Seq<char>, dead: Seq<Card>) -> Result<Seq<Seq<Card>>, Seq<char>> {
    let suited = rest[0] == 's';
    if rest[4] != (if suited { 's' } else { 'o' }) {
        Err(msg_suit_mix(t))
    } else if rank_of_char(rest[2]) is None || rank_of_char(rest[3]) is None {
        Err(msg_rank_in(t))
    } else {
        let v2 = rank_value(rank_of_char(rest[2])->0);
        let v3 = rank_value(rank_of_char(rest[3])->0);
        let (hi2, lo2) = if v2 >= v3 { (v2, v3) } else { (v3, v2) };
        let gap = rank_value(hi) - rank_value(lo);
        if v2 == v3 {
            Err(msg_pair_mix(t))
        } else if hi2 - lo2 != gap {
            Err(msg_gap(t))
        } else if rank_value(hi) >= hi2 {
            Ok(gapped_between(gap, hi2, rank_value(hi), suited, dead))
        } else {
            Ok(gapped_between(gap, rank_value(hi), hi2, suited, dead))
        }
    }
}

/// What an unpaired token (`r0 != r1`) stands for.
pub open spec fn holdem_unpaired_part(t: Seq<char>, r0: Rank, r1: Rank, rest: Seq<char>, dead: Seq<Card>) -> Result<Seq<Seq<Card>>, Seq<char>> {
    let (hi, lo) = if rank_value(r0) >= rank_value(r1) { (r0, r1) } else { (r1, r0) };
    if rest.len() == 0 {
        Ok(suited_combos(hi, lo, dead) + offsuit_combos(hi, lo, dead))
    } else if rest == seq!['s'] {
        Ok(suited_combos(hi, lo, dead))
    } else if rest == seq!['o'] {
        Ok(offsuit_combos(hi, lo, dead))
    } else if rest == seq!['s', '+'] {
        Ok(kickers_between(hi, rank_value(lo), rank_value(hi), true, dead))
    } else if rest == seq!['o', '+'] {
        Ok(kickers_between(hi, rank_value(lo), rank_value(hi), false, dead))
    } else if (rest[0] == 's' || rest[0] == 'o') && rest.len() == 5 && rest[1] == '-' {
        holdem_dash_part(t, hi, lo, rest, dead)
    } else {
        Err(msg_token(t))
    }
}

/// What a Hold'em token that is not all ASCII stands for: always an error.
/// Its first two characters must be ranks; two equal ranks followed by a
/// dash and three bytes in all have an invalid rank, with anything else
/// they make no token; a dash range of five bytes whose last character is not the suitedness
/// it starts with mixes suitedness, any other has an invalid rank.
pub open spec fn holdem_wide_token(t: Seq<char>) -> Result<Seq<Seq<Card>>, Seq<char>> {
    if t.len() < 2 {
        Err(msg_token(t))
    } else if rank_of_char(t[0]) is None || rank_of_char(t[1]) is None {
        Err(msg_rank_in(t))
    } else if rank_of_char(t[0]) == rank_of_char(t[1]) {
        let rest = t.skip(2);
        if rest.len() >= 1 && rest[0] == '-' && byte_len(rest) == 3 {
            Err(msg_rank_in(t))
        } else {
            Err(msg_token(t))
        }
    } else {
        let rest = t.skip(2);
        if rest.len() >= 2 && (rest[0] == 's' || rest[0] == 'o') && byte_len(rest) == 5 && rest[1] == '-' {
            if rest.last() != (if rest[0] == 's' { 's' } else { 'o' }) {
                Err(msg_suit_mix(t))
            } else {
                Err(msg_rank_in(t))
            }
        } else {
            Err(msg_token(t))
        }
    }
}

/// What a Hold'em token stands for (surrounding whitespace ignored).
pub open spec fn holdem_token(p: Seq<char>, dead: Seq<Card>) -> Result<Seq<Seq<Card>>, Seq<char>> {
    let t = trim(p);
    if t.len() == 0 {
        Ok(Seq::empty())
    } else if !all_ascii(t) {
        holdem_wide_token(t)
    } else if t.len() == 4 && card_of_chars(t[0], t[1]) is Some && card_of_chars(t[2], t[3]) is Some {
        let c1 = card_of_chars(t[0], t[1])->0;
        let c2 = card_of_chars(t[2], t[3])->0;
        if c1 == c2 || dead.contains(c1) || dead.contains(c2) {
            Ok(Seq::empty())
        } else {
            Ok(seq![canonical(seq![c1, c2])])
        }
    } else if t.len() < 2 {
        Err(msg_token(t))
    } else if rank_of_char(t[0]) is None || rank_of_char(t[1]) is None {
        Err(msg_rank_in(t))
    } else {
        let r0 = rank_of_char(t[0])->0;
        let r1 = rank_of_char(t[1])->0;
        if r0 == r1 {
            holdem_pair_part(t, r0, t.skip(2), dead)
        } else {
            holdem_unpaired_part(t, r0, r1, t.skip(2), dead)
        }
    }
}

// ---------------------------------------------------------------------------
// Executable: Hold'em combos
// ---------------------------------------------------------------------------

/// Appends the two-card hand of `c1` and `c2` unless one of them is dead.
fn push_two_card(out: &mut Vec<Hand>, c1: Card, c2: Card, dead: &[Card])
    ensures
        hands_view(final(out)@) == hands_view(old(out)@) + two_card(c1, c2, dead@),
{
    if !slice_contains(dead, c1) && !slice_contains(dead, c2) {
        let ghost before = out@;
        out.push(Hand::holdem([c1, c2]));
        assert(seq![c1, c2] =~= [c1, c2]@);
        assert(hands_view(out@) =~= hands_view(before) + two_card(c1, c2, dead@));
    } else {
        assert(two_card(c1, c2, dead@) =~= Seq::<Seq<Card>>::empty());
        assert(hands_view(out@) =~= hands_view(out@) + two_card(c1, c2, dead@));
    }
}

/// The pocket pairs of rank `r` (one per pair of suits), minus any that
/// touch a dead card.
pub fn holdem_pair_combos(r: Rank, dead_cards: &[Card]) -> (out: Vec<Hand>)
    ensures
        hands_view(out@) == pair_combos(r, dead_cards@),
{
    let mut out: Vec<Hand> = Vec::new();
    let mut i: u8 = 0;
    while i < 4
        invariant
            i <= 4,
            hands_view(out@) == pair_combos_upto(r, dead_cards@, i as int),
        decreases 4 - i,
    {
        let mut j: u8 = i + 1;
        while j < 4
            invariant
                i < 4,
                i < j <= 4,
                hands_view(out@) == pair_combos_upto(r, dead_cards@, i as int) + pair_row_hands(r, dead_cards@, i as int, j as int),
            decreases 4 - j,
        {
            let ghost before = hands_view(out@);
            push_two_card(&mut out, Card { rank: r, suit: Suit::from_index(i) }, Card { rank: r, suit: Suit::from_index(j) }, dead_cards);
            assert(hands_view(out@) =~= pair_combos_upto(r, dead_cards@, i as int) + pair_row_hands(r, dead_cards@, i as int, j + 1));
            j = j + 1;
        }
        assert(pair_combos_upto(r, dead_cards@, i + 1) == pair_combos_upto(r, dead_cards@, i as int) + pair_row_hands(r, dead_cards@, i as int, 4));
        assert(pair_row_hands(r, dead_cards@, i as int, i + 1) =~= Seq::<Seq<Card>>::empty());
        i = i + 1;
    }
    out
}

/// The suited combos of `hi` and `lo` (one per suit), minus any that touch a
/// dead card.
pub fn holdem_suited_combos(hi: Rank, lo: Rank, dead_cards: &[Card]) -> (out: Vec<Hand>)
    ensures
        hands_view(out@) == suited_combos(hi, lo, dead_cards@),
{
    let mut out: Vec<Hand> = Vec::new();
    let mut s: u8 = 0;
    while s < 4
        invariant
            s <= 4,
            hands_view(out@) == suited_upto(hi, lo, dead_cards@, s as int),
        decreases 4 - s,
    {
        let suit = Suit::from_index(s);
        push_two_card(&mut out, Card { rank: hi, suit }, Card { rank: lo, suit }, dead_cards);
        s = s + 1;
    }
    out
}

/// The offsuit combos of `hi` and `lo` (every ordered pair of different
/// suits), minus any that touch a dead card.
pub fn holdem_offsuit_combos(hi: Rank, lo: Rank, dead_cards: &[Card]) -> (out: Vec<Hand>)
    ensures
        hands_view(out@) == offsuit_combos(hi, lo, dead_cards@),
{
    let mut out: Vec<Hand> = Vec::new();
    let mut s1: u8 = 0;
    while s1 < 4
        invariant
            s1 <= 4,
            hands_view(out@) == offsuit_upto(hi, lo, dead_cards@, s1 as int),
        decreases 4 - s1,
    {
        let mut s2: u8 = 0;
        while s2 < 4
            invariant
                s1 < 4,
                s2 <= 4,
                hands_view(out@) == offsuit_upto(hi, lo, dead_cards@, s1 as int) + offsuit_row(hi, lo, dead_cards@, s1 as int, s2 as int),
            decreases 4 - s2,
        {
            if s1 != s2 {
                push_two_card(&mut out, Card { rank: hi, suit: Suit::from_index(s1) }, Card { rank: lo, suit: Suit::from_index(s2) }, dead_cards);
            }
            assert(hands_view(out@) =~= offsuit_upto(hi, lo, dead_cards@, s1 as int) + offsuit_row(hi, lo, dead_cards@, s1 as int, s2 + 1));
            s2 = s2 + 1;
        }
        assert(offsuit_row(hi, lo, dead_cards@, s1 as int, 0) =~= Seq::<Seq<Card>>::empty());
        s1 = s1 + 1;
    }
    out
}

/// The rank with numeric value `v`, if `2 <= v <= 14`.
pub fn rank_from_val(v: u32) -> (r: Option<Rank>)
    ensures
        r == if 2 <= v <= 14 { Some(rank_of_value(v as int)) } else { None },
{
    if 2 <= v && v <= 14 {
        Some(Rank::from_value(v as u8))
    } else {
        None
    }
}


proof fn lemma_hands_view_add(a: Seq<Hand>, b: Seq<Hand>)
    ensures
        hands_view(a + b) == hands_view(a) + hands_view(b),
{
    assert(hands_view(a + b) =~= hands_view(a) + hands_view(b));
}

/// `out` followed by `more`, both taken by value.
fn concat_hands(out: Vec<Hand>, more: Vec<Hand>) -> (r: Vec<Hand>)
    ensures
        hands_view(r@) == hands_view(out@) + hands_view(more@),
{
    let mut r = out;
    let mut m = more;
    proof {
        lemma_hands_view_add(r@, m@);
    }
    r.append(&mut m);
    r
}

/// Pocket pairs of every rank value from `lo` to `hi`.
fn pairs_between_exec(lo: u8, hi: u8, dead: &[Card]) -> (out: Vec<Hand>)
    requires
        2 <= lo,
        hi <= 14,
    ensures
        hands_view(out@) == pairs_between(lo as int, hi as int, dead@),
{
    let mut out: Vec<Hand> = Vec::new();
    assert(hands_view(out@) =~= Seq::<Seq<Card>>::empty());
    if hi < lo {
        return out;
    }
    let mut v: u8 = lo;
    while v <= hi
        invariant
            2 <= lo <= v <= hi + 1,
            hi <= 14,
            hands_view(out@) == pairs_between(lo as int, v - 1, dead@),
        decreases hi + 1 - v,
    {
        let more = holdem_pair_combos(Rank::from_value(v), dead);
        out = concat_hands(out, more);
        v = v + 1;
    }
    out
}

/// Combos of `hi` with every kicker value from `lo` up to below `m`.
fn kickers_between_exec(hi: Rank, lo: u8, m: u8, suited: bool, dead: &[Card]) -> (out: Vec<Hand>)
    requires
        2 <= lo <= m <= 15,
    ensures
        hands_view(out@) == kickers_between(hi, lo as int, m as int, suited, dead@),
{
    let mut out: Vec<Hand> = Vec::new();
    assert(hands_view(out@) =~= Seq::<Seq<Card>>::empty());
    let mut v: u8 = lo;
    while v < m
        invariant
            2 <= lo <= v <= m <= 15,
            hands_view(out@) == kickers_between(hi, lo as int, v as int, suited, dead@),
        decreases m - v,
    {
        let kicker = Rank::from_value(v);
        let more = if suited {
            holdem_suited_combos(hi, kicker, dead)
        } else {
            holdem_offsuit_combos(hi, kicker, dead)
        };
        out = concat_hands(out, more);
        v = v + 1;
    }
    out
}

/// Combos of top value `h` and `h - gap` for every `h` from `start` to `end`.
fn gapped_between_exec(gap: u8, start: u8, end: u8, suited: bool, dead: &[Card]) -> (out: Vec<Hand>)
    requires
        start >= gap + 2,
        start <= end <= 14,
    ensures
        hands_view(out@) == gapped_between(gap as int, start as int, end as int, suited, dead@),
{
    let mut out: Vec<Hand> = Vec::new();
    assert(hands_view(out@) =~= Seq::<Seq<Card>>::empty());
    let mut v: u8 = start;
    while v <= end
        invariant
            start >= gap + 2,
            start <= v <= end + 1,
            end <= 14,
            hands_view(out@) == gapped_between(gap as int, start as int, v - 1, suited, dead@),
        decreases end + 1 - v,
    {
        let top = Rank::from_value(v);
        let low = Rank::from_value(v - gap);
        let more = if suited {
            holdem_suited_combos(top, low, dead)
        } else {
            holdem_offsuit_combos(top, low, dead)
        };
        out = concat_hands(out, more);
        v = v + 1;
    }
    out
}

/// The characters of `s`.
pub fn chars_of(s: &str) -> (cs: Vec<char>)
    ensures
        cs@ == s@,
{
    let n = s.unicode_len();
    let mut cs: Vec<char> = Vec::new();
    let mut i: usize = 0;
    while i < n
        invariant
            n == s@.len(),
            i <= n,
            cs@ == s@.take(i as int),
        decreases n - i,
    {
        cs.push(s.get_char(i));
        assert(cs@ =~= s@.take(i + 1));
        i = i + 1;
    }
    assert(s@.take(n as int) =~= s@);
    cs
}

/// The bounds of `cs[lo..hi]` without its surrounding whitespace.
fn trim_bounds(cs: &Vec<char>, lo: usize, hi: usize) -> (r: (usize, usize))
    requires
        lo <= hi <= cs@.len(),
    ensures
        lo <= r.0 <= r.1 <= hi,
        cs@.subrange(r.0 as int, r.1 as int) == trim(cs@.subrange(lo as int, hi as int)),
{
    let ghost p = cs@.subrange(lo as int, hi as int);
    let mut a = lo;
    while a < hi && is_ws_exec(cs[a])
        invariant
            lo <= a <= hi <= cs@.len(),
            p == cs@.subrange(lo as int, hi as int),
            trim_start(p) == trim_start(cs@.subrange(a as int, hi as int)),
        decreases hi - a,
    {
        assert(cs@.subrange(a as int, hi as int).drop_first() =~= cs@.subrange(a + 1, hi as int));
        a = a + 1;
    }
    assert(trim_start(p) == cs@.subrange(a as int, hi as int));
    let mut b = hi;
    while b > a && is_ws_exec(cs[b - 1])
        invariant
            lo <= a <= b <= hi <= cs@.len(),
            trim_start(p) == cs@.subrange(a as int, hi as int),
            trim(p) == trim_end(cs@.subrange(a as int, b as int)),
        decreases b - a,
    {
        assert(cs@.subrange(a as int, b as int).drop_last() =~= cs@.subrange(a as int, b - 1));
        b = b - 1;
    }
    (a, b)
}

/// Whether `c` is whitespace in the sense of [`is_ws`].
pub fn is_ws_exec(c: char) -> (b: bool)
    ensures
        b == is_ws(c),
{
    let u = c as u32;
    (0x09 <= u && u <= 0x0D) || u == 0x20 || u == 0x85 || u == 0xA0 || u == 0x1680 || (0x2000 <= u && u
        <= 0x200A) || u == 0x2028 || u == 0x2029 || u == 0x202F || u == 0x205F || u == 0x3000
}

/// What a pair token stands for: `t` is the trimmed token `cs[lo..hi]`,
/// whose first two characters are both the rank `r0`.
fn holdem_pair_exec(t: &str, cs: &Vec<char>, lo: usize, hi: usize, r0: Rank, dead: &[Card]) -> (r: Result<Vec<Hand>, String>)
    requires
        lo + 2 <= hi <= cs@.len(),
        t@ == cs@.subrange(lo as int, hi as int),
    ensures
        hands_result_view(r) == holdem_pair_part(t@, r0, t@.skip(2), dead@),
{
    let ghost rest = t@.skip(2);
    assert(rest =~= cs@.subrange(lo + 2, hi as int));
    let n = hi - lo - 2;
    if n == 0 {
        return Ok(holdem_pair_combos(r0, dead));
    }
    if n == 1 && cs[lo + 2] == '+' {
        assert(rest =~= seq!['+']);
        return Ok(pairs_between_exec(r0.value(), 14, dead));
    }
    if n == 3 && cs[lo + 2] == '-' {
        match (Rank::from_char(cs[lo + 3]), Rank::from_char(cs[lo + 4])) {
            (Some(r2), Some(r3)) => {
                if r2 != r3 {
                    return Err(quoted("'", t, "' mixes a pair with a non-pair in a dash range"));
                }
                let v0 = r0.value();
                let v2 = r2.value();
                if v0 <= v2 {
                    return Ok(pairs_between_exec(v0, v2, dead));
                } else {
                    return Ok(pairs_between_exec(v2, v0, dead));
                }
            },
            _ => {
                return Err(quoted("Invalid rank in '", t, "'"));
            },
        }
    }
    assert(rest != seq!['+']) by {
        if rest == seq!['+'] {
            assert(rest.len() == 1 && rest[0] == '+');
        }
    }
    Err(quoted("Unsupported Hold'em range token: '", t, "'"))
}

/// What an unpaired dash token stands for: `rest` (the token after its two
/// ranks) is `cs[lo + 2..lo + 7]`, reading `s-XYs` or `o-XYo`.
fn holdem_dash_exec(t: &str, cs: &Vec<char>, lo: usize, hi: usize, hi_rank: Rank, lo_rank: Rank, dead: &[Card]) -> (r: Result<Vec<Hand>, String>)
    requires
        lo + 7 == hi <= cs@.len(),
        t@ == cs@.subrange(lo as int, hi as int),
        rank_value(hi_rank) > rank_value(lo_rank),
        cs@[lo + 2] == 's' || cs@[lo + 2] == 'o',
    ensures
        hands_result_view(r) == holdem_dash_part(t@, hi_rank, lo_rank, t@.skip(2), dead@),
{
    let ghost rest = t@.skip(2);
    assert(rest =~= cs@.subrange(lo + 2, hi as int));
    let suited = cs[lo + 2] == 's';
    let want = if suited { 's' } else { 'o' };
    if cs[lo + 6] != want {
        return Err(quoted("'", t, "' mixes suited and offsuit across a dash range"));
    }
    let (r2, r3) = match (Rank::from_char(cs[lo + 4]), Rank::from_char(cs[lo + 5])) {
        (Some(r2), Some(r3)) => (r2, r3),
        _ => {
            return Err(quoted("Invalid rank in '", t, "'"));
        },
    };
    let v2 = r2.value();
    let v3 = r3.value();
    if v2 == v3 {
        return Err(quoted("'", t, "' mixes a pair with a non-pair in a dash range"));
    }
    let (hi2, lo2) = if v2 >= v3 { (v2, v3) } else { (v3, v2) };
    let hv = hi_rank.value();
    let lv = lo_rank.value();
    let gap = hv - lv;
    if hi2 - lo2 != gap {
        return Err(quoted("'", t, "' dash range must keep a constant gap between ranks"));
    }
    if hv >= hi2 {
        Ok(gapped_between_exec(gap, hi2, hv, suited, dead))
    } else {
        Ok(gapped_between_exec(gap, hv, hi2, suited, dead))
    }
}

/// What an unpaired token stands for: `t` is the trimmed token `cs[lo..hi]`,
/// whose first two characters are the distinct ranks `r0` and `r1`.
fn holdem_unpaired_exec(t: &str, cs: &Vec<char>, lo: usize, hi: usize, r0: Rank, r1: Rank, dead: &[Card]) -> (r: Result<Vec<Hand>, String>)
    requires
        lo + 2 <= hi <= cs@.len(),
        t@ == cs@.subrange(lo as int, hi as int),
        r0 != r1,
    ensures
        hands_result_view(r) == holdem_unpaired_part(t@, r0, r1, t@.skip(2), dead@),
{
    let ghost rest = t@.skip(2);
    assert(rest =~= cs@.subrange(lo + 2, hi as int));
    let (hr, lr) = if r0.value() >= r1.value() { (r0, r1) } else { (r1, r0) };
    proof {
        crate::cards::lemma_rank_of_value(rank_value(r0));
        crate::cards::lemma_rank_of_value(rank_value(r1));
    }
    let n = hi - lo - 2;
    if n == 0 {
        let v = holdem_suited_combos(hr, lr, dead);
        let w = holdem_offsuit_combos(hr, lr, dead);
        return Ok(concat_hands(v, w));
    }
    let c = cs[lo + 2];
    if n == 1 && c == 's' {
        assert(rest =~= seq!['s']);
        return Ok(holdem_suited_combos(hr, lr, dead));
    }
    if n == 1 && c == 'o' {
        assert(rest =~= seq!['o']);
        return Ok(holdem_offsuit_combos(hr, lr, dead));
    }
    if n == 2 && c == 's' && cs[lo + 3] == '+' {
        assert(rest =~= seq!['s', '+']);
        return Ok(kickers_between_exec(hr, lr.value(), hr.value(), true, dead));
    }
    if n == 2 && c == 'o' && cs[lo + 3] == '+' {
        assert(rest =~= seq!['o', '+']);
        return Ok(kickers_between_exec(hr, lr.value(), hr.value(), false, dead));
    }
    assert(rest != seq!['s'] && rest != seq!['o'] && rest != seq!['s', '+'] && rest != seq!['o', '+']) by {
        if rest == seq!['s'] || rest == seq!['o'] {
            assert(rest.len() == 1 && rest[0] == c);
        }
        if rest == seq!['s', '+'] || rest == seq!['o', '+'] {
            assert(rest.len() == 2 && rest[0] == c && rest[1] == '+');
        }
    }
    if (c == 's' || c == 'o') && n == 5 && cs[lo + 3] == '-' {
        return holdem_dash_exec(t, cs, lo, hi, hr, lr, dead);
    }
    Err(quoted("Unsupported Hold'em range token: '", t, "'"))
}

/// What a Hold'em token `t`, the trimmed `cs[lo..hi]`, that is not all
/// ASCII stands for: always an error.
fn holdem_wide_exec(t: &str, cs: &Vec<char>, lo: usize, hi: usize) -> (r: Result<Vec<Hand>, String>)
    requires
        lo < hi <= cs@.len(),
        t@ == cs@.subrange(lo as int, hi as int),
    ensures
        hands_result_view(r) == holdem_wide_token(t@),
{
    let ghost tv = t@;
    if hi - lo < 2 {
        return Err(quoted("Unsupported Hold'em range token: '", t, "'"));
    }
    let (r0, r1) = match (Rank::from_char(cs[lo]), Rank::from_char(cs[lo + 1])) {
        (Some(r0), Some(r1)) => (r0, r1),
        _ => {
            return Err(quoted("Invalid rank in '", t, "'"));
        },
    };
    let ghost rest = tv.skip(2);
    assert(rest =~= cs@.subrange(lo + 2, hi as int));
    let n = hi - lo - 2;
    if r0 == r1 {
        if n >= 1 && cs[lo + 2] == '-' && byte_len_upto6(cs, lo + 2, hi) == 3 {
            return Err(quoted("Invalid rank in '", t, "'"));
        }
        return Err(quoted("Unsupported Hold'em range token: '", t, "'"));
    }
    if n >= 2 {
        let c = cs[lo + 2];
        if (c == 's' || c == 'o') && cs[lo + 3] == '-' && byte_len_upto6(cs, lo + 2, hi) == 5 {
            let want = if c == 's' {
                's'
            } else {
                'o'
            };
            assert(rest.last() == cs@[hi - 1]);
            if cs[hi - 1] != want {
                return Err(quoted("'", t, "' mixes suited and offsuit across a dash range"));
            }
            return Err(quoted("Invalid rank in '", t, "'"));
        }
    }
    Err(quoted("Unsupported Hold'em range token: '", t, "'"))
}

/// Expands one token of Hold'em range notation into its two-card hands
/// (surrounding whitespace is ignored; an empty token stands for no hands).
pub fn expand_holdem_range(part: &str, dead_cards: &[Card]) -> (r: Result<Vec<Hand>, String>)
    ensures
        hands_result_view(r) == holdem_token(part@, dead_cards@),
{
    let cs = chars_of(part);
    let (lo, hi) = trim_bounds(&cs, 0, cs.len());
    assert(cs@.subrange(0, cs@.len() as int) =~= part@);
    let ghost tv = cs@.subrange(lo as int, hi as int);
    if lo == hi {
        let out: Vec<Hand> = Vec::new();
        assert(hands_view(out@) =~= Seq::<Seq<Card>>::empty());
        return Ok(out);
    }
    let t = part.substring_char(lo, hi);
    if !all_ascii_exec(&cs, lo, hi) {
        return holdem_wide_exec(t, &cs, lo, hi);
    }
    let len = hi - lo;
    if len == 4 {
        if let (Some(c1), Some(c2)) = (card_from_chars(cs[lo], cs[lo + 1]), card_from_chars(cs[lo + 2], cs[lo + 3])) {
            let out: Vec<Hand> = Vec::new();
            if c1 == c2 || slice_contains(dead_cards, c1) || slice_contains(dead_cards, c2) {
                assert(hands_view(out@) =~= Seq::<Seq<Card>>::empty());
                return Ok(out);
            }
            let mut out = out;
            out.push(Hand::holdem([c1, c2]));
            assert([c1, c2]@ =~= seq![c1, c2]);
            assert(hands_view(out@) =~= seq![canonical(seq![c1, c2])]);
            return Ok(out);
        }
    }
    if len < 2 {
        return Err(quoted("Unsupported Hold'em range token: '", t, "'"));
    }
    let r0 = match Rank::from_char(cs[lo]) {
        Some(r) => r,
        None => {
            return Err(quoted("Invalid rank in '", t, "'"));
        },
    };
    let r1 = match Rank::from_char(cs[lo + 1]) {
        Some(r) => r,
        None => {
            return Err(quoted("Invalid rank in '", t, "'"));
        },
    };
    if r0 == r1 {
        holdem_pair_exec(t, &cs, lo, hi, r0, dead_cards)
    } else {
        holdem_unpaired_exec(t, &cs, lo, hi, r0, r1, dead_cards)
    }
}


// ---------------------------------------------------------------------------
// Model and executable: whole ranges
// ---------------------------------------------------------------------------

/// What one comma-separated part stands for in the notation of `game`.
pub open spec fn parse_part(p: Seq<char>, dead: Seq<Card>, game: Game) -> Result<Seq<Seq<Card>>, Seq<char>> {
    let t = trim(p);
    if t.len() == 0 {
        Ok(Seq::empty())
    } else if game == Game::HoldEm {
        holdem_token(t, dead)
    } else {
        omaha_part(t, dead)
    }
}

/// The hands of all parts in order, or the error of the first part that
/// has one.
pub open spec fn parse_parts(parts: Seq<Seq<char>>, dead: Seq<Card>, game: Game) -> Result<Seq<Seq<Card>>, Seq<char>>
    decreases parts.len(),
{
    if parts.len() == 0 {
        Ok(Seq::empty())
    } else {
        match parse_parts(parts.drop_last(), dead, game) {
            Err(e) => Err(e),
            Ok(hs) => match parse_part(parts.last(), dead, game) {
                Err(e) => Err(e),
                Ok(more) => Ok(hs + more),
            },
        }
    }
}

/// What a whole range text stands for: an error when a part has one or when
/// no hand is left.
pub open spec fn parse_range(s: Seq<char>, dead: Seq<Card>, game: Game) -> Result<Seq<Seq<Card>>, Seq<char>> {
    match parse_parts(split_commas(s), dead, game) {
        Err(e) => Err(e),
        Ok(hs) => if hs.len() == 0 {
            Err(msg_empty())
        } else {
            Ok(hs)
        },
    }
}

/// A parsed range as its hands' cards or the error text.
pub open spec fn range_result_view(r: Result<Range, String>) -> Result<Seq<Seq<Card>>, Seq<char>> {
    match r {
        Ok(range) => Ok(hands_view(range.hands@)),
        Err(e) => Err(e@),
    }
}

proof fn lemma_parse_parts_err_prefix(parts: Seq<Seq<char>>, m: int, dead: Seq<Card>, game: Game)
    requires
        0 <= m <= parts.len(),
        parse_parts(parts.take(m), dead, game) is Err,
    ensures
        parse_parts(parts, dead, game) == parse_parts(parts.take(m), dead, game),
    decreases parts.len() - m,
{
    if m < parts.len() {
        assert(parts.take(m + 1).drop_last() == parts.take(m));
        lemma_parse_parts_err_prefix(parts, m + 1, dead, game);
    } else {
        assert(parts.take(m) == parts);
    }
}

proof fn lemma_split_prefix(s: Seq<char>, i: int, j: int)
    requires
        0 <= i <= j <= s.len(),
    ensures
        split_upto(s, i).0.len() <= split_upto(s, j).0.len(),
        split_upto(s, j).0.take(split_upto(s, i).0.len() as int) == split_upto(s, i).0,
    decreases j - i,
{
    if j > i {
        lemma_split_prefix(s, i, j - 1);
        let k = split_upto(s, i).0.len() as int;
        assert(split_upto(s, j).0.take(k) =~= split_upto(s, j - 1).0.take(k));
    } else {
        assert(split_upto(s, j).0.take(split_upto(s, i).0.len() as int) =~= split_upto(s, i).0);
    }
}

/// What the part `cs[lo..hi]` of `s` stands for.
fn parse_part_exec(s: &str, cs: &Vec<char>, lo: usize, hi: usize, dead: &[Card], game: Game) -> (r: Result<Vec<Hand>, String>)
    requires
        cs@ == s@,
        lo <= hi <= cs@.len(),
    ensures
        hands_result_view(r) == parse_part(cs@.subrange(lo as int, hi as int), dead@, game),
{
    let (a, b) = trim_bounds(cs, lo, hi);
    if a == b {
        let out: Vec<Hand> = Vec::new();
        assert(hands_view(out@) =~= Seq::<Seq<Card>>::empty());
        return Ok(out);
    }
    match game {
        Game::HoldEm => expand_holdem_range(s.substring_char(a, b), dead),
        Game::Omaha => omaha_part_exec(s, cs, a, b, dead),
    }
}

impl Range {
    /// Parses shorthand range notation in the dialect of `game` (see the
    /// module documentation), leaving out hands that touch a dead card.
    /// Fails on the first part that cannot be read, and when no hand is
    /// left.
    pub fn from_shorthand(s: &str, dead_cards: &[Card], game: Game) -> (r: Result<Range, String>)
        ensures
            range_result_view(r) == parse_range(s@, dead_cards@, game),
    {
        let cs = chars_of(s);
        let n = cs.len();
        let mut hands: Vec<Hand> = Vec::new();
        assert(hands_view(hands@) =~= Seq::<Seq<Card>>::empty());
        let mut start: usize = 0;
        let mut i: usize = 0;
        while i < n
            invariant
                cs@ == s@,
                n == cs@.len(),
                start <= i <= n,
                split_upto(cs@, i as int).1 == cs@.subrange(start as int, i as int),
                parse_parts(split_upto(cs@, i as int).0, dead_cards@, game) == Ok::<Seq<Seq<Card>>, Seq<char>>(hands_view(hands@)),
            decreases n - i,
        {
            if cs[i] == ',' {
                let ghost done = split_upto(cs@, i as int).0;
                let part = parse_part_exec(s, &cs, start, i, dead_cards, game);
                assert(split_upto(cs@, i + 1).0 == done.push(cs@.subrange(start as int, i as int)));
                assert(done.push(cs@.subrange(start as int, i as int)).drop_last() == done);
                match part {
                    Err(e) => {
                        proof {
                            let parts = split_commas(cs@);
                            lemma_split_prefix(cs@, i + 1, n as int);
                            let k = split_upto(cs@, i + 1).0.len() as int;
                            assert(parts.take(k) =~= split_upto(cs@, i + 1).0);
                            lemma_parse_parts_err_prefix(parts, k, dead_cards@, game);
                        }
                        return Err(e);
                    },
                    Ok(more) => {
                        hands = concat_hands(hands, more);
                    },
                }
                start = i + 1;
                assert(cs@.subrange(start as int, i + 1) =~= Seq::<char>::empty());
            } else {
                assert(cs@.subrange(start as int, i + 1) =~= cs@.subrange(start as int, i as int).push(cs@[i as int]));
            }
            i = i + 1;
        }
        let ghost done = split_upto(cs@, n as int).0;
        let last = parse_part_exec(s, &cs, start, n, dead_cards, game);
        assert(cs@.subrange(0, n as int) =~= s@);
        assert(split_commas(s@).drop_last() == done);
        match last {
            Err(e) => Err(e),
            Ok(more) => {
                hands = concat_hands(hands, more);
                if hands.len() == 0 {
                    Err(String::from_str("Empty range"))
                } else {
                    Ok(Range { hands })
                }
            },
        }
    }
}


// ---------------------------------------------------------------------------
// Laws
// ---------------------------------------------------------------------------

/// Every hand of `hs` has `n` cards and none of them is dead.
pub open spec fn clean_hands(hs: Seq<Seq<Card>>, n: int, dead: Seq<Card>) -> bool {
    forall|i: int|
        0 <= i < hs.len() ==> (#[trigger] hs[i]).len() == n && forall|j: int|
            0 <= j < hs[i].len() ==> !dead.contains(#[trigger] hs[i][j])
}

proof fn lemma_clean_add(a: Seq<Seq<Card>>, b: Seq<Seq<Card>>, n: int, dead: Seq<Card>)
    requires
        clean_hands(a, n, dead),
        clean_hands(b, n, dead),
    ensures
        clean_hands(a + b, n, dead),
{
    assert forall|i: int| 0 <= i < (a + b).len() implies (#[trigger] (a + b)[i]).len() == n && forall|j: int|
        0 <= j < (a + b)[i].len() ==> !dead.contains(#[trigger] (a + b)[i][j]) by {
        if i < a.len() {
            assert((a + b)[i] == a[i]);
        } else {
            assert((a + b)[i] == b[i - a.len()]);
        }
    }
}

proof fn lemma_clean_canonical(h: Seq<Card>, dead: Seq<Card>)
    requires
        forall|j: int| 0 <= j < h.len() ==> !dead.contains(#[trigger] h[j]),
    ensures
        clean_hands(seq![canonical(h)], h.len() as int, dead),
{
    crate::cards::law_canonical_same_cards(h);
    crate::cards::lemma_canonical_total();
    h.lemma_sort_by_ensures(crate::cards::canonical_leq());
    let c = canonical(h);
    assert forall|j: int| 0 <= j < c.len() implies !dead.contains(#[trigger] c[j]) by {
        assert(c.contains(c[j]));
        assert(h.contains(c[j]));
    }
    assert(seq![c][0] == c);
}

proof fn lemma_clean_two_card(c1: Card, c2: Card, dead: Seq<Card>)
    ensures
        clean_hands(two_card(c1, c2, dead), 2, dead),
{
    if !(dead.contains(c1) || dead.contains(c2)) {
        lemma_clean_canonical(seq![c1, c2], dead);
    }
}

proof fn lemma_clean_pair_row(r: Rank, dead: Seq<Card>, i: int, m: int)
    ensures
        clean_hands(pair_row_hands(r, dead, i, m), 2, dead),
    decreases m - i,
{
    if m > i + 1 {
        lemma_clean_pair_row(r, dead, i, m - 1);
        lemma_clean_two_card(card_of(r, i), card_of(r, m - 1), dead);
        lemma_clean_add(pair_row_hands(r, dead, i, m - 1), two_card(card_of(r, i), card_of(r, m - 1), dead), 2, dead);
    }
}

proof fn lemma_clean_pairs(r: Rank, dead: Seq<Card>, m: int)
    ensures
        clean_hands(pair_combos_upto(r, dead, m), 2, dead),
    decreases m,
{
    if m > 0 {
        lemma_clean_pairs(r, dead, m - 1);
        lemma_clean_pair_row(r, dead, m - 1, 4);
        lemma_clean_add(pair_combos_upto(r, dead, m - 1), pair_row_hands(r, dead, m - 1, 4), 2, dead);
    }
}

proof fn lemma_clean_suited(hi: Rank, lo: Rank, dead: Seq<Card>, m: int)
    ensures
        clean_hands(suited_upto(hi, lo, dead, m), 2, dead),
    decreases m,
{
    if m > 0 {
        lemma_clean_suited(hi, lo, dead, m - 1);
        lemma_clean_two_card(card_of(hi, m - 1), card_of(lo, m - 1), dead);
        lemma_clean_add(suited_upto(hi, lo, dead, m - 1), two_card(card_of(hi, m - 1), card_of(lo, m - 1), dead), 2, dead);
    }
}

proof fn lemma_clean_offsuit_row(hi: Rank, lo: Rank, dead: Seq<Card>, s1: int, m: int)
    ensures
        clean_hands(offsuit_row(hi, lo, dead, s1, m), 2, dead),
    decreases m,
{
    if m > 0 {
        lemma_clean_offsuit_row(hi, lo, dead, s1, m - 1);
        lemma_clean_two_card(card_of(hi, s1), card_of(lo, m - 1), dead);
        let last = if m - 1 == s1 {
            Seq::empty()
        } else {
            two_card(card_of(hi, s1), card_of(lo, m - 1), dead)
        };
        lemma_clean_add(offsuit_row(hi, lo, dead, s1, m - 1), last, 2, dead);
    }
}

proof fn lemma_clean_offsuit(hi: Rank, lo: Rank, dead: Seq<Card>, m: int)
    ensures
        clean_hands(offsuit_upto(hi, lo, dead, m), 2, dead),
    decreases m,
{
    if m > 0 {
        lemma_clean_offsuit(hi, lo, dead, m - 1);
        lemma_clean_offsuit_row(hi, lo, dead, m - 1, 4);
        lemma_clean_add(offsuit_upto(hi, lo, dead, m - 1), offsuit_row(hi, lo, dead, m - 1, 4), 2, dead);
    }
}

proof fn lemma_clean_combos(hi: Rank, lo: Rank, suited: bool, dead: Seq<Card>)
    ensures
        clean_hands(if suited { suited_combos(hi, lo, dead) } else { offsuit_combos(hi, lo, dead) }, 2, dead),
{
    lemma_clean_suited(hi, lo, dead, 4);
    lemma_clean_offsuit(hi, lo, dead, 4);
}

proof fn lemma_clean_pairs_between(lo: int, hi: int, dead: Seq<Card>)
    ensures
        clean_hands(pairs_between(lo, hi, dead), 2, dead),
    decreases hi - lo + 1,
{
    if hi >= lo {
        lemma_clean_pairs_between(lo, hi - 1, dead);
        lemma_clean_pairs(rank_of_value(hi), dead, 4);
        lemma_clean_add(pairs_between(lo, hi - 1, dead), pair_combos(rank_of_value(hi), dead), 2, dead);
    }
}

proof fn lemma_clean_kickers(hi: Rank, lo: int, m: int, suited: bool, dead: Seq<Card>)
    ensures
        clean_hands(kickers_between(hi, lo, m, suited, dead), 2, dead),
    decreases m - lo,
{
    if m > lo {
        lemma_clean_kickers(hi, lo, m - 1, suited, dead);
        lemma_clean_combos(hi, rank_of_value(m - 1), suited, dead);
        let last = if suited {
            suited_combos(hi, rank_of_value(m - 1), dead)
        } else {
            offsuit_combos(hi, rank_of_value(m - 1), dead)
        };
        lemma_clean_add(kickers_between(hi, lo, m - 1, suited, dead), last, 2, dead);
    }
}

proof fn lemma_clean_gapped(gap: int, start: int, end: int, suited: bool, dead: Seq<Card>)
    ensures
        clean_hands(gapped_between(gap, start, end, suited, dead), 2, dead),
    decreases end - start + 1,
{
    if end >= start {
        lemma_clean_gapped(gap, start, end - 1, suited, dead);
        lemma_clean_combos(rank_of_value(end), rank_of_value(end - gap), suited, dead);
        let last = if suited {
            suited_combos(rank_of_value(end), rank_of_value(end - gap), dead)
        } else {
            offsuit_combos(rank_of_value(end), rank_of_value(end - gap), dead)
        };
        lemma_clean_add(gapped_between(gap, start, end - 1, suited, dead), last, 2, dead);
    }
}

proof fn lemma_clean_holdem(p: Seq<char>, dead: Seq<Card>)
    ensures
        holdem_token(p, dead) matches Ok(hs) ==> clean_hands(hs, 2, dead),
{
    let t = trim(p);
    if t.len() == 4 && card_of_chars(t[0], t[1]) is Some && card_of_chars(t[2], t[3]) is Some {
        let c1 = card_of_chars(t[0], t[1])->0;
        let c2 = card_of_chars(t[2], t[3])->0;
        if !(c1 == c2 || dead.contains(c1) || dead.contains(c2)) {
            lemma_clean_canonical(seq![c1, c2], dead);
        }
    } else if t.len() >= 2 && rank_of_char(t[0]) is Some && rank_of_char(t[1]) is Some {
        let r0 = rank_of_char(t[0])->0;
        let r1 = rank_of_char(t[1])->0;
        let rest = t.skip(2);
        if r0 == r1 {
            lemma_clean_pairs(r0, dead, 4);
            lemma_clean_pairs_between(rank_value(r0), 14, dead);
            if rest.len() == 3 && rest[0] == '-' && rank_of_char(rest[1]) is Some {
                let v0 = rank_value(r0);
                let v2 = rank_value(rank_of_char(rest[1])->0);
                lemma_clean_pairs_between(v0, v2, dead);
                lemma_clean_pairs_between(v2, v0, dead);
            }
        } else {
            let (hi, lo) = if rank_value(r0) >= rank_value(r1) { (r0, r1) } else { (r1, r0) };
            lemma_clean_suited(hi, lo, dead, 4);
            lemma_clean_offsuit(hi, lo, dead, 4);
            lemma_clean_add(suited_combos(hi, lo, dead), offsuit_combos(hi, lo, dead), 2, dead);
            lemma_clean_kickers(hi, rank_value(lo), rank_value(hi), true, dead);
            lemma_clean_kickers(hi, rank_value(lo), rank_value(hi), false, dead);
            if rest.len() == 5 && rank_of_char(rest[2]) is Some && rank_of_char(rest[3]) is Some {
                let suited = rest[0] == 's';
                let v2 = rank_value(rank_of_char(rest[2])->0);
                let v3 = rank_value(rank_of_char(rest[3])->0);
                let hi2 = if v2 >= v3 { v2 } else { v3 };
                let gap = rank_value(hi) - rank_value(lo);
                lemma_clean_gapped(gap, hi2, rank_value(hi), suited, dead);
                lemma_clean_gapped(gap, rank_value(hi), hi2, suited, dead);
            }
        }
    }
}

proof fn lemma_clean_row4(r: Seq<Rank>, d: Seq<Card>, dead: Seq<Card>, i: int, j: int, k: int, m: int)
    requires
        0 <= i < j < k,
        m <= d.len(),
        forall|q: int| 0 <= q < d.len() ==> !dead.contains(#[trigger] d[q]),
    ensures
        clean_hands(row4(r, d, i, j, k, m), 4, dead),
    decreases m - k,
{
    if m > k + 1 {
        lemma_clean_row4(r, d, dead, i, j, k, m - 1);
        let q = quad(d, i, j, k, m - 1);
        assert forall|x: int| 0 <= x < q.len() implies !dead.contains(#[trigger] q[x]) by {
            if x == 0 {
                assert(q[x] == d[i]);
            } else if x == 1 {
                assert(q[x] == d[j]);
            } else if x == 2 {
                assert(q[x] == d[k]);
            } else {
                assert(q[x] == d[m - 1]);
            }
        }
        lemma_clean_canonical(q, dead);
        let last = if pattern_match(r, q) {
            seq![canonical(q)]
        } else {
            Seq::empty()
        };
        lemma_clean_add(row4(r, d, i, j, k, m - 1), last, 4, dead);
    }
}

proof fn lemma_clean_row3(r: Seq<Rank>, d: Seq<Card>, dead: Seq<Card>, i: int, j: int, m: int)
    requires
        0 <= i < j,
        m <= d.len(),
        forall|q: int| 0 <= q < d.len() ==> !dead.contains(#[trigger] d[q]),
    ensures
        clean_hands(row3(r, d, i, j, m), 4, dead),
    decreases m - j,
{
    if m > j + 1 {
        lemma_clean_row3(r, d, dead, i, j, m - 1);
        lemma_clean_row4(r, d, dead, i, j, m - 1, d.len() as int);
        lemma_clean_add(row3(r, d, i, j, m - 1), row4(r, d, i, j, m - 1, d.len() as int), 4, dead);
    }
}

proof fn lemma_clean_row2(r: Seq<Rank>, d: Seq<Card>, dead: Seq<Card>, i: int, m: int)
    requires
        0 <= i,
        m <= d.len(),
        forall|q: int| 0 <= q < d.len() ==> !dead.contains(#[trigger] d[q]),
    ensures
        clean_hands(row2(r, d, i, m), 4, dead),
    decreases m - i,
{
    if m > i + 1 {
        lemma_clean_row2(r, d, dead, i, m - 1);
        lemma_clean_row3(r, d, dead, i, m - 1, d.len() as int);
        lemma_clean_add(row2(r, d, i, m - 1), row3(r, d, i, m - 1, d.len() as int), 4, dead);
    }
}

proof fn lemma_clean_row1(r: Seq<Rank>, d: Seq<Card>, dead: Seq<Card>, m: int)
    requires
        m <= d.len(),
        forall|q: int| 0 <= q < d.len() ==> !dead.contains(#[trigger] d[q]),
    ensures
        clean_hands(row1(r, d, m), 4, dead),
    decreases m,
{
    if m > 0 {
        lemma_clean_row1(r, d, dead, m - 1);
        lemma_clean_row2(r, d, dead, m - 1, d.len() as int);
        lemma_clean_add(row1(r, d, m - 1), row2(r, d, m - 1, d.len() as int), 4, dead);
    }
}

proof fn lemma_clean_omaha(t: Seq<char>, dead: Seq<Card>)
    ensures
        omaha_part(t, dead) matches Ok(hs) ==> clean_hands(hs, 4, dead),
{
    if t.len() == 8 && exact_omaha_cards(t) is Some {
        let cards = exact_omaha_cards(t)->0;
        if !any_dead(cards, dead) {
            assert forall|j: int| 0 <= j < cards.len() implies !dead.contains(#[trigger] cards[j]) by {
                if dead.contains(cards[j]) {
                    assert(any_dead(cards, dead));
                }
            }
            lemma_clean_canonical(cards, dead);
        }
    } else if t.len() == 2 || t.len() == 4 {
        let d = undead_deck(dead);
        assert forall|q: int| 0 <= q < d.len() implies !dead.contains(#[trigger] d[q]) by {
            crate::cards::deck_seq().lemma_filter_pred(|c: Card| !dead.contains(c), q);
        }
        lemma_clean_row1(pattern_ranks(t), d, dead, d.len() as int);
    }
}

proof fn lemma_clean_parts(parts: Seq<Seq<char>>, dead: Seq<Card>, game: Game)
    ensures
        parse_parts(parts, dead, game) matches Ok(hs) ==> clean_hands(hs, crate::cards::game_arity(game), dead),
    decreases parts.len(),
{
    if parts.len() > 0 {
        lemma_clean_parts(parts.drop_last(), dead, game);
        let t = trim(parts.last());
        lemma_clean_holdem(t, dead);
        lemma_clean_omaha(t, dead);
        if let Ok(hs) = parse_parts(parts.drop_last(), dead, game) {
            if let Ok(more) = parse_part(parts.last(), dead, game) {
                lemma_clean_add(hs, more, crate::cards::game_arity(game), dead);
            }
        }
    }
}

/// A parsed range holds only hands of the game's size (four cards for
/// Omaha, two for Hold'em), and none of them holds a dead card.
pub proof fn law_range_hands_clean(s: Seq<char>, dead: Seq<Card>, game: Game, hs: Seq<Seq<Card>>)
    requires
        parse_range(s, dead, game) == Ok::<Seq<Seq<Card>>, Seq<char>>(hs),
    ensures
        hs.len() > 0,
        forall|i: int| 0 <= i < hs.len() ==> (#[trigger] hs[i]).len() == crate::cards::game_arity(game),
        forall|i: int, j: int| 0 <= i < hs.len() && 0 <= j < hs[i].len() ==> !dead.contains(#[trigger] hs[i][j]),
{
    lemma_clean_parts(split_commas(s), dead, game);
}


/// `h` is the hand of positions `i < j < k < l` of `d`, in canonical order,
/// and those four cards fit the rank pattern.
pub open spec fn fits_at(r: Seq<Rank>, d: Seq<Card>, h: Seq<Card>, i: int, j: int, k: int, l: int) -> bool {
    &&& 0 <= i < j < k < l < d.len()
    &&& pattern_match(r, quad(d, i, j, k, l))
    &&& h == canonical(quad(d, i, j, k, l))
}

/// `h` is a four-card hand of `d` that fits the rank pattern.
pub open spec fn pattern_hand(r: Seq<Rank>, d: Seq<Card>, h: Seq<Card>) -> bool {
    exists|i: int, j: int, k: int, l: int| #[trigger] fits_at(r, d, h, i, j, k, l)
}

/// Every hand of `hs` is a four-card hand of `d` that fits the pattern.
pub open spec fn all_pattern_hands(r: Seq<Rank>, d: Seq<Card>, hs: Seq<Seq<Card>>) -> bool {
    forall|x: int| 0 <= x < hs.len() ==> pattern_hand(r, d, #[trigger] hs[x])
}

proof fn lemma_all_pattern_add(r: Seq<Rank>, d: Seq<Card>, a: Seq<Seq<Card>>, b: Seq<Seq<Card>>)
    requires
        all_pattern_hands(r, d, a),
        all_pattern_hands(r, d, b),
    ensures
        all_pattern_hands(r, d, a + b),
{
    assert forall|x: int| 0 <= x < (a + b).len() implies pattern_hand(r, d, #[trigger] (a + b)[x]) by {
        if x < a.len() {
            assert((a + b)[x] == a[x]);
        } else {
            assert((a + b)[x] == b[x - a.len()]);
        }
    }
}

proof fn lemma_contains_add(a: Seq<Seq<Card>>, b: Seq<Seq<Card>>, h: Seq<Card>)
    ensures
        a.contains(h) || b.contains(h) ==> (a + b).contains(h),
{
    if a.contains(h) {
        let x = choose|x: int| 0 <= x < a.len() && a[x] == h;
        assert((a + b)[x] == h);
    } else if b.contains(h) {
        let x = choose|x: int| 0 <= x < b.len() && b[x] == h;
        assert((a + b)[a.len() + x] == h);
    }
}

proof fn lemma_row4_hands(r: Seq<Rank>, d: Seq<Card>, i: int, j: int, k: int, m: int)
    requires
        0 <= i < j < k,
        m <= d.len(),
    ensures
        all_pattern_hands(r, d, row4(r, d, i, j, k, m)),
        forall|l: int|
            k < l < m && #[trigger] pattern_match(r, quad(d, i, j, k, l)) ==> row4(r, d, i, j, k, m).contains(
                canonical(quad(d, i, j, k, l)),
            ),
    decreases m - k,
{
    if m > k + 1 {
        lemma_row4_hands(r, d, i, j, k, m - 1);
        let q = quad(d, i, j, k, m - 1);
        let last = if pattern_match(r, q) {
            seq![canonical(q)]
        } else {
            Seq::empty()
        };
        if pattern_match(r, q) {
            assert(fits_at(r, d, canonical(q), i, j, k, m - 1));
            assert(last[0] == canonical(q));
        }
        assert(all_pattern_hands(r, d, last));
        lemma_all_pattern_add(r, d, row4(r, d, i, j, k, m - 1), last);
        assert forall|l: int|
            k < l < m && #[trigger] pattern_match(r, quad(d, i, j, k, l)) implies row4(r, d, i, j, k, m).contains(
            canonical(quad(d, i, j, k, l)),
        ) by {
            lemma_contains_add(row4(r, d, i, j, k, m - 1), last, canonical(quad(d, i, j, k, l)));
            if l == m - 1 {
                assert(last[0] == canonical(q));
            }
        }
    }
}

proof fn lemma_row3_hands(r: Seq<Rank>, d: Seq<Card>, i: int, j: int, m: int)
    requires
        0 <= i < j,
        m <= d.len(),
    ensures
        all_pattern_hands(r, d, row3(r, d, i, j, m)),
        forall|k: int, l: int|
            j < k < m && k < l < d.len() && #[trigger] pattern_match(r, quad(d, i, j, k, l)) ==> row3(
                r,
                d,
                i,
                j,
                m,
            ).contains(canonical(quad(d, i, j, k, l))),
    decreases m - j,
{
    if m > j + 1 {
        lemma_row3_hands(r, d, i, j, m - 1);
        lemma_row4_hands(r, d, i, j, m - 1, d.len() as int);
        lemma_all_pattern_add(r, d, row3(r, d, i, j, m - 1), row4(r, d, i, j, m - 1, d.len() as int));
        assert forall|k: int, l: int|
            j < k < m && k < l < d.len() && #[trigger] pattern_match(r, quad(d, i, j, k, l)) implies row3(
            r,
            d,
            i,
            j,
            m,
        ).contains(canonical(quad(d, i, j, k, l))) by {
            lemma_contains_add(
                row3(r, d, i, j, m - 1),
                row4(r, d, i, j, m - 1, d.len() as int),
                canonical(quad(d, i, j, k, l)),
            );
        }
    }
}

proof fn lemma_row2_hands(r: Seq<Rank>, d: Seq<Card>, i: int, m: int)
    requires
        0 <= i,
        m <= d.len(),
    ensures
        all_pattern_hands(r, d, row2(r, d, i, m)),
        forall|j: int, k: int, l: int|
            i < j < m && j < k < l < d.len() && #[trigger] pattern_match(r, quad(d, i, j, k, l)) ==> row2(
                r,
                d,
                i,
                m,
            ).contains(canonical(quad(d, i, j, k, l))),
    decreases m - i,
{
    if m > i + 1 {
        lemma_row2_hands(r, d, i, m - 1);
        lemma_row3_hands(r, d, i, m - 1, d.len() as int);
        lemma_all_pattern_add(r, d, row2(r, d, i, m - 1), row3(r, d, i, m - 1, d.len() as int));
        assert forall|j: int, k: int, l: int|
            i < j < m && j < k < l < d.len() && #[trigger] pattern_match(r, quad(d, i, j, k, l)) implies row2(
            r,
            d,
            i,
            m,
        ).contains(canonical(quad(d, i, j, k, l))) by {
            lemma_contains_add(row2(r, d, i, m - 1), row3(r, d, i, m - 1, d.len() as int), canonical(quad(d, i, j, k, l)));
        }
    }
}

proof fn lemma_row1_hands(r: Seq<Rank>, d: Seq<Card>, m: int)
    requires
        m <= d.len(),
    ensures
        all_pattern_hands(r, d, row1(r, d, m)),
        forall|i: int, j: int, k: int, l: int|
            0 <= i < m && i < j < k < l < d.len() && #[trigger] pattern_match(r, quad(d, i, j, k, l)) ==> row1(
                r,
                d,
                m,
            ).contains(canonical(quad(d, i, j, k, l))),
    decreases m,
{
    if m > 0 {
        lemma_row1_hands(r, d, m - 1);
        lemma_row2_hands(r, d, m - 1, d.len() as int);
        lemma_all_pattern_add(r, d, row1(r, d, m - 1), row2(r, d, m - 1, d.len() as int));
        assert forall|i: int, j: int, k: int, l: int|
            0 <= i < m && i < j < k < l < d.len() && #[trigger] pattern_match(r, quad(d, i, j, k, l)) implies row1(
            r,
            d,
            m,
        ).contains(canonical(quad(d, i, j, k, l))) by {
            lemma_contains_add(row1(r, d, m - 1), row2(r, d, m - 1, d.len() as int), canonical(quad(d, i, j, k, l)));
        }
    }
}

/// A rank pattern stands for exactly the four-card hands of the deck that
/// fit it: every hand it expands to is four cards of `d` (at increasing
/// positions) that fit the pattern, in canonical order, and every four
/// cards of `d` that fit the pattern are among them.
pub proof fn law_pattern_hands(r: Seq<Rank>, d: Seq<Card>)
    ensures
        forall|x: int| 0 <= x < pattern_hands(r, d).len() ==> pattern_hand(r, d, #[trigger] pattern_hands(r, d)[x]),
        forall|i: int, j: int, k: int, l: int|
            0 <= i < j < k < l < d.len() && #[trigger] pattern_match(r, quad(d, i, j, k, l))
                ==> pattern_hands(r, d).contains(canonical(quad(d, i, j, k, l))),
{
    lemma_row1_hands(r, d, d.len() as int);
}


proof fn lemma_count_rank_by_value(s: Seq<Card>, x: Rank)
    ensures
        count_rank(s, x) == crate::eval::rank_count(s, rank_value(x)),
    decreases s.len(),
{
    if s.len() > 0 {
        lemma_count_rank_by_value(s.drop_last(), x);
        crate::cards::lemma_rank_value_bounds(x);
        crate::cards::lemma_rank_value_bounds(s.last().rank);
    }
}

proof fn lemma_has_rank_count(s: Seq<Card>, x: Rank)
    ensures
        has_rank(s, x) <==> count_rank(s, x) > 0,
        count_rank(s, x) >= 0,
    decreases s.len(),
{
    if s.len() > 0 {
        let s1 = s.drop_last();
        lemma_has_rank_count(s1, x);
        if has_rank(s1, x) {
            let j = choose|j: int| 0 <= j < s1.len() && #[trigger] s1[j].rank == x;
            assert(s[j] == s1[j]);
        }
        if has_rank(s, x) && s.last().rank != x {
            let j = choose|j: int| 0 <= j < s.len() && #[trigger] s[j].rank == x;
            assert(s1[j] == s[j]);
        }
        if s.last().rank == x {
            assert(s[s.len() - 1].rank == x);
        }
    }
}

/// Putting a hand in canonical order keeps how many cards of each rank it
/// holds.
proof fn lemma_canonical_ranks(q: Seq<Card>, x: Rank)
    ensures
        count_rank(canonical(q), x) == count_rank(q, x),
        has_rank(canonical(q), x) == has_rank(q, x),
{
    crate::cards::law_canonical_same_cards(q);
    lemma_count_rank_by_value(q, x);
    lemma_count_rank_by_value(canonical(q), x);
    crate::eval::lemma_same_cards_same_counts(q, canonical(q), rank_value(x));
    lemma_has_rank_count(q, x);
    lemma_has_rank_count(canonical(q), x);
}

/// A pattern of two ranks stands for four-card hands of the deck: two
/// different ranks ("AK") for every hand holding at least one card of each,
/// the same rank twice ("AA") for every hand holding at least two cards of
/// that rank.
pub proof fn law_two_rank_pattern(r: Seq<Rank>, d: Seq<Card>)
    requires
        r.len() == 2,
    ensures
        r[0] != r[1] ==> forall|n: int| 0 <= n < pattern_hands(r, d).len()
            ==> has_rank(#[trigger] pattern_hands(r, d)[n], r[0]) && has_rank(pattern_hands(r, d)[n], r[1]),
        r[0] != r[1] ==> forall|i: int, j: int, k: int, l: int|
            0 <= i < j < k < l < d.len() && has_rank(#[trigger] quad(d, i, j, k, l), r[0]) && has_rank(quad(d, i, j, k, l), r[1])
                ==> pattern_hands(r, d).contains(canonical(quad(d, i, j, k, l))),
        r[0] == r[1] ==> forall|n: int| 0 <= n < pattern_hands(r, d).len()
            ==> count_rank(#[trigger] pattern_hands(r, d)[n], r[0]) >= 2,
        r[0] == r[1] ==> forall|i: int, j: int, k: int, l: int|
            0 <= i < j < k < l < d.len() && count_rank(#[trigger] quad(d, i, j, k, l), r[0]) >= 2
                ==> pattern_hands(r, d).contains(canonical(quad(d, i, j, k, l))),
{
    let x = r[0];
    let y = r[1];
    let hs = pattern_hands(r, d);
    law_pattern_hands(r, d);
    assert forall|n: int| 0 <= n < hs.len() implies (x != y ==> has_rank(#[trigger] hs[n], x) && has_rank(hs[n], y))
        && (x == y ==> count_rank(hs[n], x) >= 2) by {
        assert(pattern_hand(r, d, hs[n]));
        let (i, j, k, l) = choose|i: int, j: int, k: int, l: int| #[trigger] fits_at(r, d, hs[n], i, j, k, l);
        let q = quad(d, i, j, k, l);
        lemma_canonical_ranks(q, x);
        lemma_canonical_ranks(q, y);
        if x != y {
            assert(has_rank(q, r[0]));
            assert(has_rank(q, r[1]));
        }
    }
    assert forall|i: int, j: int, k: int, l: int|
        0 <= i < j < k < l < d.len() && ((x != y && has_rank(#[trigger] quad(d, i, j, k, l), x) && has_rank(quad(d, i, j, k, l), y))
            || (x == y && count_rank(quad(d, i, j, k, l), x) >= 2))
        implies hs.contains(canonical(quad(d, i, j, k, l))) by {
        let q = quad(d, i, j, k, l);
        if x != y {
            assert forall|m: int| 0 <= m < r.len() implies has_rank(q, #[trigger] r[m]) by {
                if m == 0 {
                    assert(r[0] == x);
                } else {
                    assert(r[1] == y);
                }
            }
        }
        assert(pattern_match(r, q));
    }
}

/// `h` is two cards, the first of rank value `top`, the second of value
/// `top - gap`, of one suit when `suited` and of two suits otherwise.
pub open spec fn gapped_hand(h: Seq<Card>, top: int, gap: int, suited: bool) -> bool {
    &&& h.len() == 2
    &&& rank_value(h[0].rank) == top
    &&& rank_value(h[1].rank) == top - gap
    &&& (h[0].suit == h[1].suit) == suited
}

/// Some hand of `hs` is two cards of top value `top` and `top - gap`.
pub open spec fn holds_gapped(hs: Seq<Seq<Card>>, top: int, gap: int, suited: bool) -> bool {
    exists|n: int| 0 <= n < hs.len() && #[trigger] gapped_hand(hs[n], top, gap, suited)
}

/// The rank value of a rank character.
pub open spec fn char_rank_value(c: char) -> int {
    rank_value(rank_of_char(c)->0)
}

/// The higher of the rank values of two rank characters.
pub open spec fn top_value(a: char, b: char) -> int {
    if char_rank_value(a) >= char_rank_value(b) {
        char_rank_value(a)
    } else {
        char_rank_value(b)
    }
}

/// How far apart the rank values of two rank characters are.
pub open spec fn value_gap(a: char, b: char) -> int {
    if char_rank_value(a) >= char_rank_value(b) {
        char_rank_value(a) - char_rank_value(b)
    } else {
        char_rank_value(b) - char_rank_value(a)
    }
}

proof fn lemma_two_sorted(c1: Card, c2: Card)
    requires
        rank_value(c1.rank) > rank_value(c2.rank) || (c1.rank == c2.rank
            && crate::cards::suit_index(c1.suit) < crate::cards::suit_index(c2.suit)),
    ensures
        canonical(seq![c1, c2]) == seq![c1, c2],
{
    let t = seq![c1, c2];
    assert(crate::cards::canonical_key(c1) <= crate::cards::canonical_key(c2));
    assert(vstd::relations::sorted_by(t, crate::cards::canonical_leq()));
    crate::cards::lemma_is_canonical(t, t);
}

proof fn lemma_gapped_add(a: Seq<Seq<Card>>, b: Seq<Seq<Card>>, top: int, gap: int, suited: bool)
    requires
        forall|n: int| 0 <= n < a.len() ==> gapped_hand(#[trigger] a[n], top, gap, suited),
        forall|n: int| 0 <= n < b.len() ==> gapped_hand(#[trigger] b[n], top, gap, suited),
    ensures
        forall|n: int| 0 <= n < (a + b).len() ==> gapped_hand(#[trigger] (a + b)[n], top, gap, suited),
{
    assert forall|n: int| 0 <= n < (a + b).len() implies gapped_hand(#[trigger] (a + b)[n], top, gap, suited) by {
        if n < a.len() {
            assert((a + b)[n] == a[n]);
        } else {
            assert((a + b)[n] == b[n - a.len()]);
        }
    }
}

proof fn lemma_two_card_gapped(c1: Card, c2: Card, dead: Seq<Card>, suited: bool)
    requires
        rank_value(c1.rank) > rank_value(c2.rank),
        (c1.suit == c2.suit) == suited,
    ensures
        forall|n: int| 0 <= n < two_card(c1, c2, dead).len()
            ==> gapped_hand(#[trigger] two_card(c1, c2, dead)[n], rank_value(c1.rank), rank_value(c1.rank) - rank_value(c2.rank), suited),
{
    lemma_two_sorted(c1, c2);
}

proof fn lemma_suited_gapped(hi: Rank, lo: Rank, dead: Seq<Card>, m: int)
    requires
        rank_value(hi) > rank_value(lo),
        m <= 4,
    ensures
        forall|n: int| 0 <= n < suited_upto(hi, lo, dead, m).len()
            ==> gapped_hand(#[trigger] suited_upto(hi, lo, dead, m)[n], rank_value(hi), rank_value(hi) - rank_value(lo), true),
    decreases m,
{
    if m > 0 {
        lemma_suited_gapped(hi, lo, dead, m - 1);
        lemma_two_card_gapped(card_of(hi, m - 1), card_of(lo, m - 1), dead, true);
        lemma_gapped_add(
            suited_upto(hi, lo, dead, m - 1),
            two_card(card_of(hi, m - 1), card_of(lo, m - 1), dead),
            rank_value(hi),
            rank_value(hi) - rank_value(lo),
            true,
        );
    }
}

proof fn lemma_offsuit_row_gapped(hi: Rank, lo: Rank, dead: Seq<Card>, s1: int, m: int)
    requires
        rank_value(hi) > rank_value(lo),
        0 <= s1 < 4,
        m <= 4,
    ensures
        forall|n: int| 0 <= n < offsuit_row(hi, lo, dead, s1, m).len()
            ==> gapped_hand(#[trigger] offsuit_row(hi, lo, dead, s1, m)[n], rank_value(hi), rank_value(hi) - rank_value(lo), false),
    decreases m,
{
    if m > 0 {
        lemma_offsuit_row_gapped(hi, lo, dead, s1, m - 1);
        let more = if m - 1 == s1 {
            Seq::empty()
        } else {
            two_card(card_of(hi, s1), card_of(lo, m - 1), dead)
        };
        if m - 1 != s1 {
            lemma_two_card_gapped(card_of(hi, s1), card_of(lo, m - 1), dead, false);
        }
        lemma_gapped_add(offsuit_row(hi, lo, dead, s1, m - 1), more, rank_value(hi), rank_value(hi) - rank_value(lo), false);
    }
}

proof fn lemma_offsuit_gapped(hi: Rank, lo: Rank, dead: Seq<Card>, m: int)
    requires
        rank_value(hi) > rank_value(lo),
        m <= 4,
    ensures
        forall|n: int| 0 <= n < offsuit_upto(hi, lo, dead, m).len()
            ==> gapped_hand(#[trigger] offsuit_upto(hi, lo, dead, m)[n], rank_value(hi), rank_value(hi) - rank_value(lo), false),
    decreases m,
{
    if m > 0 {
        lemma_offsuit_gapped(hi, lo, dead, m - 1);
        lemma_offsuit_row_gapped(hi, lo, dead, m - 1, 4);
        lemma_gapped_add(
            offsuit_upto(hi, lo, dead, m - 1),
            offsuit_row(hi, lo, dead, m - 1, 4),
            rank_value(hi),
            rank_value(hi) - rank_value(lo),
            false,
        );
    }
}

/// The combos of top value `top` and `top - gap`, suited or offsuit.
pub open spec fn gapped_combos(top: int, gap: int, suited: bool, dead: Seq<Card>) -> Seq<Seq<Card>> {
    if suited {
        suited_combos(rank_of_value(top), rank_of_value(top - gap), dead)
    } else {
        offsuit_combos(rank_of_value(top), rank_of_value(top - gap), dead)
    }
}

proof fn lemma_gapped_combos(top: int, gap: int, suited: bool, dead: Seq<Card>)
    requires
        1 <= gap,
        2 <= top - gap,
        top <= 14,
    ensures
        forall|n: int| 0 <= n < gapped_combos(top, gap, suited, dead).len()
            ==> gapped_hand(#[trigger] gapped_combos(top, gap, suited, dead)[n], top, gap, suited),
        dead.len() == 0 ==> gapped_combos(top, gap, suited, dead).len() > 0,
{
    let hi = rank_of_value(top);
    let lo = rank_of_value(top - gap);
    crate::cards::lemma_rank_of_value(top);
    crate::cards::lemma_rank_of_value(top - gap);
    if suited {
        lemma_suited_gapped(hi, lo, dead, 4);
    } else {
        lemma_offsuit_gapped(hi, lo, dead, 4);
    }
    if dead.len() == 0 {
        assert(dead =~= Seq::<Card>::empty());
        law_combo_counts(hi, hi, lo);
    }
}

/// `h` is two cards of a top value between `lo` and `hi` and that value
/// less `gap`.
pub open spec fn topped_between(h: Seq<Card>, lo: int, hi: int, gap: int, suited: bool) -> bool {
    exists|top: int| lo <= top <= hi && #[trigger] gapped_hand(h, top, gap, suited)
}

proof fn lemma_gapped_between(gap: int, start: int, end: int, suited: bool, dead: Seq<Card>)
    requires
        1 <= gap,
        2 <= start - gap,
        end <= 14,
    ensures
        forall|n: int| 0 <= n < gapped_between(gap, start, end, suited, dead).len()
            ==> topped_between(#[trigger] gapped_between(gap, start, end, suited, dead)[n], start, end, gap, suited),
        dead.len() == 0 ==> forall|top: int|
            start <= top <= end ==> #[trigger] holds_gapped(gapped_between(gap, start, end, suited, dead), top, gap, suited),
    decreases end - start + 1,
{
    if end >= start {
        let a = gapped_between(gap, start, end - 1, suited, dead);
        let b = gapped_combos(end, gap, suited, dead);
        let all = gapped_between(gap, start, end, suited, dead);
        lemma_gapped_between(gap, start, end - 1, suited, dead);
        lemma_gapped_combos(end, gap, suited, dead);
        assert(all =~= a + b);
        assert forall|n: int| 0 <= n < all.len() implies topped_between(#[trigger] all[n], start, end, gap, suited) by {
            if n < a.len() {
                assert(all[n] == a[n]);
                assert(topped_between(a[n], start, end - 1, gap, suited));
                let top = choose|top: int| start <= top <= end - 1 && #[trigger] gapped_hand(a[n], top, gap, suited);
                assert(gapped_hand(all[n], top, gap, suited));
            } else {
                assert(all[n] == b[n - a.len()]);
                assert(gapped_hand(b[n - a.len()], end, gap, suited));
                assert(gapped_hand(all[n], end, gap, suited));
            }
        }
        if dead.len() == 0 {
            assert forall|top: int| start <= top <= end implies #[trigger] holds_gapped(all, top, gap, suited) by {
                if top == end {
                    assert(all[a.len() as int] == b[0]);
                    assert(gapped_hand(b[0], end, gap, suited));
                    assert(gapped_hand(all[a.len() as int], top, gap, suited));
                } else {
                    assert(holds_gapped(a, top, gap, suited));
                    let n = choose|n: int| 0 <= n < a.len() && #[trigger] gapped_hand(a[n], top, gap, suited);
                    assert(all[n] == a[n]);
                    assert(gapped_hand(all[n], top, gap, suited));
                }
            }
        }
    }
}

/// `h` is two cards, the first of rank value `a`, the second of value `b`,
/// of one suit when `suited` and of two suits otherwise.
pub open spec fn combo_hand(h: Seq<Card>, a: int, b: int, suited: bool) -> bool {
    &&& h.len() == 2
    &&& rank_value(h[0].rank) == a
    &&& rank_value(h[1].rank) == b
    &&& (h[0].suit == h[1].suit) == suited
}

/// `h` is two cards of value `top` and a kicker from `lo` up to below `top`.
pub open spec fn kicked_hand(h: Seq<Card>, top: int, lo: int, suited: bool) -> bool {
    exists|k: int| lo <= k < top && #[trigger] combo_hand(h, top, k, suited)
}

/// Some hand of `hs` is two cards of values `a` and `b`.
pub open spec fn holds_combo(hs: Seq<Seq<Card>>, a: int, b: int, suited: bool) -> bool {
    exists|n: int| 0 <= n < hs.len() && #[trigger] combo_hand(hs[n], a, b, suited)
}

proof fn lemma_kickers_between(hi: Rank, lo: int, m: int, suited: bool, dead: Seq<Card>)
    requires
        2 <= lo,
        m <= rank_value(hi),
    ensures
        forall|n: int| 0 <= n < kickers_between(hi, lo, m, suited, dead).len()
            ==> kicked_hand(#[trigger] kickers_between(hi, lo, m, suited, dead)[n], rank_value(hi), lo, suited),
        dead.len() == 0 ==> forall|k: int|
            lo <= k < m ==> #[trigger] holds_combo(kickers_between(hi, lo, m, suited, dead), rank_value(hi), k, suited),
    decreases m - lo,
{
    if m > lo {
        let top = rank_value(hi);
        let k = m - 1;
        let a = kickers_between(hi, lo, m - 1, suited, dead);
        let b = gapped_combos(top, top - k, suited, dead);
        let all = kickers_between(hi, lo, m, suited, dead);
        lemma_kickers_between(hi, lo, m - 1, suited, dead);
        crate::cards::lemma_rank_value_bounds(hi);
        lemma_gapped_combos(top, top - k, suited, dead);
        assert(all =~= a + b);
        assert forall|n: int| 0 <= n < all.len() implies kicked_hand(#[trigger] all[n], top, lo, suited) by {
            if n < a.len() {
                assert(all[n] == a[n]);
                assert(kicked_hand(a[n], top, lo, suited));
                let j = choose|j: int| lo <= j < top && #[trigger] combo_hand(a[n], top, j, suited);
                assert(combo_hand(all[n], top, j, suited));
            } else {
                assert(all[n] == b[n - a.len()]);
                assert(gapped_hand(b[n - a.len()], top, top - k, suited));
                assert(combo_hand(all[n], top, k, suited));
            }
        }
        if dead.len() == 0 {
            assert forall|j: int| lo <= j < m implies #[trigger] holds_combo(all, top, j, suited) by {
                if j == k {
                    assert(all[a.len() as int] == b[0]);
                    assert(gapped_hand(b[0], top, top - k, suited));
                    assert(combo_hand(all[a.len() as int], top, j, suited));
                } else {
                    assert(holds_combo(a, top, j, suited));
                    let n = choose|n: int| 0 <= n < a.len() && #[trigger] combo_hand(a[n], top, j, suited);
                    assert(all[n] == a[n]);
                    assert(combo_hand(all[n], top, j, suited));
                }
            }
        }
    } else {
        assert(kickers_between(hi, lo, m, suited, dead).len() == 0);
    }
}

/// `h` is a pocket pair of rank value `v`: two cards of that value and of
/// two suits.
pub open spec fn pair_hand(h: Seq<Card>, v: int) -> bool {
    &&& h.len() == 2
    &&& rank_value(h[0].rank) == v
    &&& rank_value(h[1].rank) == v
    &&& h[0].suit != h[1].suit
}

/// `h` is a pocket pair of a rank value from `lo` to `hi`.
pub open spec fn paired_between(h: Seq<Card>, lo: int, hi: int) -> bool {
    exists|v: int| lo <= v <= hi && #[trigger] pair_hand(h, v)
}

/// Some hand of `hs` is a pocket pair of rank value `v`.
pub open spec fn holds_pair(hs: Seq<Seq<Card>>, v: int) -> bool {
    exists|n: int| 0 <= n < hs.len() && #[trigger] pair_hand(hs[n], v)
}

proof fn lemma_pair_add(a: Seq<Seq<Card>>, b: Seq<Seq<Card>>, v: int)
    requires
        forall|n: int| 0 <= n < a.len() ==> pair_hand(#[trigger] a[n], v),
        forall|n: int| 0 <= n < b.len() ==> pair_hand(#[trigger] b[n], v),
    ensures
        forall|n: int| 0 <= n < (a + b).len() ==> pair_hand(#[trigger] (a + b)[n], v),
{
    assert forall|n: int| 0 <= n < (a + b).len() implies pair_hand(#[trigger] (a + b)[n], v) by {
        if n < a.len() {
            assert((a + b)[n] == a[n]);
        } else {
            assert((a + b)[n] == b[n - a.len()]);
        }
    }
}

proof fn lemma_pair_row_pairs(r: Rank, dead: Seq<Card>, i: int, m: int)
    requires
        0 <= i,
        m <= 4,
    ensures
        forall|n: int| 0 <= n < pair_row_hands(r, dead, i, m).len() ==> pair_hand(#[trigger] pair_row_hands(r, dead, i, m)[n], rank_value(r)),
    decreases m - i,
{
    if m > i + 1 {
        lemma_pair_row_pairs(r, dead, i, m - 1);
        let c1 = card_of(r, i);
        let c2 = card_of(r, m - 1);
        assert(crate::cards::suit_index(c1.suit) == i);
        assert(crate::cards::suit_index(c2.suit) == m - 1);
        lemma_two_sorted(c1, c2);
        lemma_pair_add(pair_row_hands(r, dead, i, m - 1), two_card(c1, c2, dead), rank_value(r));
    }
}

proof fn lemma_pair_combos_pairs(r: Rank, dead: Seq<Card>, m: int)
    requires
        m <= 4,
    ensures
        forall|n: int| 0 <= n < pair_combos_upto(r, dead, m).len() ==> pair_hand(#[trigger] pair_combos_upto(r, dead, m)[n], rank_value(r)),
    decreases m,
{
    if m > 0 {
        lemma_pair_combos_pairs(r, dead, m - 1);
        lemma_pair_row_pairs(r, dead, m - 1, 4);
        lemma_pair_add(pair_combos_upto(r, dead, m - 1), pair_row_hands(r, dead, m - 1, 4), rank_value(r));
    }
}

proof fn lemma_pairs_between(lo: int, hi: int, dead: Seq<Card>)
    requires
        2 <= lo,
        hi <= 14,
    ensures
        forall|n: int| 0 <= n < pairs_between(lo, hi, dead).len()
            ==> paired_between(#[trigger] pairs_between(lo, hi, dead)[n], lo, hi),
        dead.len() == 0 ==> forall|v: int| lo <= v <= hi ==> #[trigger] holds_pair(pairs_between(lo, hi, dead), v),
    decreases hi - lo + 1,
{
    if hi >= lo {
        let a = pairs_between(lo, hi - 1, dead);
        let r = rank_of_value(hi);
        let b = pair_combos(r, dead);
        let all = pairs_between(lo, hi, dead);
        lemma_pairs_between(lo, hi - 1, dead);
        crate::cards::lemma_rank_of_value(hi);
        lemma_pair_combos_pairs(r, dead, 4);
        assert(all =~= a + b);
        assert forall|n: int| 0 <= n < all.len() implies paired_between(#[trigger] all[n], lo, hi) by {
            if n < a.len() {
                assert(all[n] == a[n]);
                assert(paired_between(a[n], lo, hi - 1));
                let v = choose|v: int| lo <= v <= hi - 1 && #[trigger] pair_hand(a[n], v);
                assert(pair_hand(all[n], v));
            } else {
                assert(all[n] == b[n - a.len()]);
                assert(pair_hand(b[n - a.len()], hi));
                assert(pair_hand(all[n], hi));
            }
        }
        if dead.len() == 0 {
            assert(dead =~= Seq::<Card>::empty());
            law_combo_counts(r, r, r);
            assert forall|v: int| lo <= v <= hi implies #[trigger] holds_pair(all, v) by {
                if v == hi {
                    assert(all[a.len() as int] == b[0]);
                    assert(pair_hand(b[0], hi));
                    assert(pair_hand(all[a.len() as int], v));
                } else {
                    assert(holds_pair(a, v));
                    let n = choose|n: int| 0 <= n < a.len() && #[trigger] pair_hand(a[n], v);
                    assert(all[n] == a[n]);
                    assert(pair_hand(all[n], v));
                }
            }
        }
    } else {
        assert(pairs_between(lo, hi, dead).len() == 0);
    }
}

proof fn lemma_rank_char_plain(c: char)
    requires
        rank_of_char(c) is Some,
    ensures
        is_ascii_char(c),
        !is_ws(c),
        2 <= char_rank_value(c) <= 14,
{
    crate::cards::lemma_rank_value_bounds(rank_of_char(c)->0);
}

/// A dash range of unpaired hands, `XYs-ZWs` or `XYo-ZWo`, whose two ends
/// have the same gap between their ranks, stands for the suited (or
/// offsuit) combos of two ranks at that gap for every top from the lower
/// end's top to the higher end's: every hand it gives is two cards of such a
/// top value and that value less the gap, and with no dead cards every such
/// top is there. So "KTs-96s" is 96s, T7s, J8s, Q9s and KTs.
pub proof fn law_holdem_dash(p: Seq<char>, dead: Seq<Card>)
    requires
        p.len() == 7,
        rank_of_char(p[0]) is Some,
        rank_of_char(p[1]) is Some,
        rank_of_char(p[4]) is Some,
        rank_of_char(p[5]) is Some,
        p[2] == 's' || p[2] == 'o',
        p[3] == '-',
        p[6] == p[2],
        value_gap(p[0], p[1]) > 0,
        value_gap(p[4], p[5]) == value_gap(p[0], p[1]),
    ensures
        holdem_token(p, dead) is Ok,
        ({
            let t1 = top_value(p[0], p[1]);
            let t2 = top_value(p[4], p[5]);
            let lo = if t1 <= t2 { t1 } else { t2 };
            let hi = if t1 <= t2 { t2 } else { t1 };
            let gap = value_gap(p[0], p[1]);
            let suited = p[2] == 's';
            let hs = holdem_token(p, dead)->Ok_0;
            &&& forall|n: int| 0 <= n < hs.len() ==> topped_between(#[trigger] hs[n], lo, hi, gap, suited)
            &&& dead.len() == 0 ==> forall|top: int| lo <= top <= hi ==> #[trigger] holds_gapped(hs, top, gap, suited)
        }),
{
    lemma_rank_char_plain(p[0]);
    lemma_rank_char_plain(p[1]);
    lemma_rank_char_plain(p[4]);
    lemma_rank_char_plain(p[5]);
    assert(trim_start(p) == p);
    assert(p.last() == p[6]);
    assert(trim_end(p) == p);
    assert(trim(p) == p);
    assert forall|i: int| 0 <= i < p.len() implies is_ascii_char(#[trigger] p[i]) by {
        if i == 2 || i == 3 || i == 6 {
        }
    }
    let r0 = rank_of_char(p[0])->0;
    let r1 = rank_of_char(p[1])->0;
    assert(r0 != r1);
    let rest = p.skip(2);
    assert(rest.len() == 5);
    assert(rest[0] == p[2] && rest[1] == p[3] && rest[2] == p[4] && rest[3] == p[5] && rest[4] == p[6]);
    assert(rest != seq!['s']);
    assert(rest != seq!['o']);
    assert(rest != seq!['s', '+']);
    assert(rest != seq!['o', '+']);
    let t1 = top_value(p[0], p[1]);
    let t2 = top_value(p[4], p[5]);
    let gap = value_gap(p[0], p[1]);
    let suited = p[2] == 's';
    let lo = if t1 <= t2 { t1 } else { t2 };
    let hi = if t1 <= t2 { t2 } else { t1 };
    assert(holdem_token(p, dead) == holdem_unpaired_part(p, r0, r1, rest, dead));
    assert(holdem_token(p, dead) == Ok::<Seq<Seq<Card>>, Seq<char>>(gapped_between(gap, lo, hi, suited, dead)));
    lemma_gapped_between(gap, lo, hi, suited, dead);
}

/// A token `XYs+` or `XYo+` of two different ranks stands for the suited
/// (or offsuit) combos of the higher rank with every kicker from the lower
/// rank up to just below the higher: every hand it gives is a card of the
/// higher rank's value and one of such a kicker, and with no dead cards
/// every such kicker is there. So "ATs+" is ATs, AJs, AQs and AKs.
pub proof fn law_holdem_plus(p: Seq<char>, dead: Seq<Card>)
    requires
        p.len() == 4,
        rank_of_char(p[0]) is Some,
        rank_of_char(p[1]) is Some,
        value_gap(p[0], p[1]) > 0,
        p[2] == 's' || p[2] == 'o',
        p[3] == '+',
    ensures
        holdem_token(p, dead) is Ok,
        ({
            let top = top_value(p[0], p[1]);
            let low = top - value_gap(p[0], p[1]);
            let suited = p[2] == 's';
            let hs = holdem_token(p, dead)->Ok_0;
            &&& forall|n: int| 0 <= n < hs.len() ==> kicked_hand(#[trigger] hs[n], top, low, suited)
            &&& dead.len() == 0 ==> forall|k: int| low <= k < top ==> #[trigger] holds_combo(hs, top, k, suited)
        }),
{
    lemma_rank_char_plain(p[0]);
    lemma_rank_char_plain(p[1]);
    assert(trim_start(p) == p);
    assert(p.last() == p[3]);
    assert(trim_end(p) == p);
    assert(trim(p) == p);
    assert forall|i: int| 0 <= i < p.len() implies is_ascii_char(#[trigger] p[i]) by {
        if i == 2 || i == 3 {
        }
    }
    assert(crate::cards::suit_of_char(p[3]) is None);
    let r0 = rank_of_char(p[0])->0;
    let r1 = rank_of_char(p[1])->0;
    assert(r0 != r1);
    let rest = p.skip(2);
    let (hi, lo) = if rank_value(r0) >= rank_value(r1) { (r0, r1) } else { (r1, r0) };
    let suited = p[2] == 's';
    assert(holdem_token(p, dead) == holdem_unpaired_part(p, r0, r1, rest, dead));
    if suited {
        assert(rest =~= seq!['s', '+']);
    } else {
        assert(rest =~= seq!['o', '+']);
    }
    assert(holdem_token(p, dead) == Ok::<Seq<Seq<Card>>, Seq<char>>(
        kickers_between(hi, rank_value(lo), rank_value(hi), suited, dead),
    ));
    crate::cards::lemma_rank_value_bounds(lo);
    lemma_kickers_between(hi, rank_value(lo), rank_value(hi), suited, dead);
}

/// A token of two different ranks stands for their combos: `XYs` for the
/// four suited ones, `XYo` for the twelve offsuit ones, `XY` for all
/// sixteen (fewer where dead cards are touched); each hand is a card of the
/// higher rank followed by one of the lower.
pub proof fn law_holdem_unpaired(p: Seq<char>, dead: Seq<Card>)
    requires
        p.len() == 2 || p.len() == 3,
        rank_of_char(p[0]) is Some,
        rank_of_char(p[1]) is Some,
        value_gap(p[0], p[1]) > 0,
        p.len() == 3 ==> p[2] == 's' || p[2] == 'o',
    ensures
        holdem_token(p, dead) is Ok,
        ({
            let top = top_value(p[0], p[1]);
            let low = top - value_gap(p[0], p[1]);
            let hs = holdem_token(p, dead)->Ok_0;
            &&& p.len() == 3 ==> forall|n: int| 0 <= n < hs.len() ==> combo_hand(#[trigger] hs[n], top, low, p[2] == 's')
            &&& p.len() == 2 ==> forall|n: int| 0 <= n < hs.len()
                ==> combo_hand(#[trigger] hs[n], top, low, true) || combo_hand(hs[n], top, low, false)
            &&& dead.len() == 0 ==> hs.len() == if p.len() == 2 { 16int } else if p[2] == 's' { 4int } else { 12int }
        }),
{
    lemma_rank_char_plain(p[0]);
    lemma_rank_char_plain(p[1]);
    assert(trim_start(p) == p);
    assert(p.last() == p[p.len() - 1]);
    assert(trim_end(p) == p);
    assert(trim(p) == p);
    assert forall|i: int| 0 <= i < p.len() implies is_ascii_char(#[trigger] p[i]) by {
        if i == 2 {
        }
    }
    let r0 = rank_of_char(p[0])->0;
    let r1 = rank_of_char(p[1])->0;
    assert(r0 != r1);
    let rest = p.skip(2);
    let (hi, lo) = if rank_value(r0) >= rank_value(r1) { (r0, r1) } else { (r1, r0) };
    let top = rank_value(hi);
    let gap = rank_value(hi) - rank_value(lo);
    crate::cards::lemma_rank_value_bounds(hi);
    crate::cards::lemma_rank_value_bounds(lo);
    assert(holdem_token(p, dead) == holdem_unpaired_part(p, r0, r1, rest, dead));
    let sc = suited_combos(hi, lo, dead);
    let oc = offsuit_combos(hi, lo, dead);
    assert(sc == gapped_combos(top, gap, true, dead));
    assert(oc == gapped_combos(top, gap, false, dead));
    lemma_gapped_combos(top, gap, true, dead);
    lemma_gapped_combos(top, gap, false, dead);
    if dead.len() == 0 {
        assert(dead =~= Seq::<Card>::empty());
        law_combo_counts(hi, hi, lo);
    }
    if p.len() == 2 {
        assert(rest.len() == 0);
        let hs = sc + oc;
        assert(holdem_token(p, dead) == Ok::<Seq<Seq<Card>>, Seq<char>>(hs));
        assert forall|n: int| 0 <= n < hs.len() implies combo_hand(#[trigger] hs[n], top, top - gap, true)
            || combo_hand(hs[n], top, top - gap, false) by {
            if n < sc.len() {
                assert(hs[n] == sc[n]);
                assert(gapped_hand(sc[n], top, gap, true));
            } else {
                assert(hs[n] == oc[n - sc.len()]);
                assert(gapped_hand(oc[n - sc.len()], top, gap, false));
            }
        }
    } else if p[2] == 's' {
        assert(rest =~= seq!['s']);
        assert forall|n: int| 0 <= n < sc.len() implies combo_hand(#[trigger] sc[n], top, top - gap, true) by {
            assert(gapped_hand(sc[n], top, gap, true));
        }
    } else {
        assert(rest =~= seq!['o']);
        assert(rest != seq!['s']);
        assert forall|n: int| 0 <= n < oc.len() implies combo_hand(#[trigger] oc[n], top, top - gap, false) by {
            assert(gapped_hand(oc[n], top, gap, false));
        }
    }
}

/// A pair token `XX+` stands for the pocket pairs from that rank up to
/// Aces, and `XX-YY` for those from the lower of the two ranks up to the
/// higher: every hand it gives is a pocket pair of such a rank, and with no
/// dead cards every such rank is there. So "22+" is every pocket pair.
pub proof fn law_holdem_pairs(p: Seq<char>, dead: Seq<Card>)
    requires
        p.len() == 3 || p.len() == 5,
        rank_of_char(p[0]) is Some,
        rank_of_char(p[0]) == rank_of_char(p[1]),
        p.len() == 3 ==> p[2] == '+',
        p.len() == 5 ==> p[2] == '-' && rank_of_char(p[3]) is Some && rank_of_char(p[3]) == rank_of_char(p[4]),
    ensures
        holdem_token(p, dead) is Ok,
        ({
            let v0 = char_rank_value(p[0]);
            let v1 = if p.len() == 3 { 14 } else { char_rank_value(p[3]) };
            let lo = if v0 <= v1 { v0 } else { v1 };
            let hi = if v0 <= v1 { v1 } else { v0 };
            let hs = holdem_token(p, dead)->Ok_0;
            &&& forall|n: int| 0 <= n < hs.len() ==> paired_between(#[trigger] hs[n], lo, hi)
            &&& dead.len() == 0 ==> forall|v: int| lo <= v <= hi ==> #[trigger] holds_pair(hs, v)
        }),
{
    lemma_rank_char_plain(p[0]);
    lemma_rank_char_plain(p[1]);
    if p.len() == 5 {
        lemma_rank_char_plain(p[3]);
        lemma_rank_char_plain(p[4]);
    }
    assert(trim_start(p) == p);
    assert(p.last() == p[p.len() - 1]);
    assert(trim_end(p) == p);
    assert(trim(p) == p);
    assert forall|i: int| 0 <= i < p.len() implies is_ascii_char(#[trigger] p[i]) by {
        if i == 2 {
        }
    }
    let r0 = rank_of_char(p[0])->0;
    let rest = p.skip(2);
    assert(holdem_token(p, dead) == holdem_pair_part(p, r0, rest, dead));
    let v0 = char_rank_value(p[0]);
    if p.len() == 3 {
        assert(rest =~= seq!['+']);
        assert(holdem_token(p, dead) == Ok::<Seq<Seq<Card>>, Seq<char>>(pairs_between(v0, 14, dead)));
        lemma_pairs_between(v0, 14, dead);
    } else {
        assert(rest.len() == 3 && rest[0] == '-' && rest[1] == p[3] && rest[2] == p[4]);
        assert(rest != seq!['+']);
        let v1 = char_rank_value(p[3]);
        if v0 <= v1 {
            lemma_pairs_between(v0, v1, dead);
        } else {
            lemma_pairs_between(v1, v0, dead);
        }
    }
}

/// With no dead cards a pair has six combos, two ranks have four suited
/// and twelve offsuit combos.
pub proof fn law_combo_counts(r: Rank, hi: Rank, lo: Rank)
    ensures
        pair_combos(r, Seq::empty()).len() == 6,
        suited_combos(hi, lo, Seq::empty()).len() == 4,
        offsuit_combos(hi, lo, Seq::empty()).len() == 12,
{
    let none: Seq<Card> = Seq::empty();
    assert forall|c1: Card, c2: Card| #[trigger] two_card(c1, c2, none).len() == 1 by {}
    reveal_with_fuel(pair_row_hands, 5);
    reveal_with_fuel(pair_combos_upto, 5);
    reveal_with_fuel(suited_upto, 5);
    reveal_with_fuel(offsuit_row, 5);
    reveal_with_fuel(offsuit_upto, 5);
    assert(pair_combos_upto(r, none, 4).len() == 6);
    assert(suited_upto(hi, lo, none, 4).len() == 4);
    assert(offsuit_row(hi, lo, none, 0, 4).len() == 3);
    assert(offsuit_row(hi, lo, none, 1, 4).len() == 3);
    assert(offsuit_row(hi, lo, none, 2, 4).len() == 3);
    assert(offsuit_row(hi, lo, none, 3, 4).len() == 3);
    assert(offsuit_upto(hi, lo, none, 4).len() == 12);
}

/// Parts put back together with a comma between each two.
pub open spec fn join_commas(parts: Seq<Seq<char>>) -> Seq<char>
    decreases parts.len(),
{
    if parts.len() == 0 {
        Seq::empty()
    } else if parts.len() == 1 {
        parts[0]
    } else {
        join_commas(parts.drop_last()) + seq![','] + parts.last()
    }
}

proof fn lemma_split_upto(s: Seq<char>, i: int)
    requires
        0 <= i <= s.len(),
    ensures
        forall|n: int| 0 <= n < split_upto(s, i).0.len() ==> !(#[trigger] split_upto(s, i).0[n]).contains(','),
        !split_upto(s, i).1.contains(','),
        join_commas(split_upto(s, i).0.push(split_upto(s, i).1)) == s.take(i),
    decreases i,
{
    if i <= 0 {
        let parts = Seq::<Seq<char>>::empty().push(Seq::<char>::empty());
        assert(join_commas(parts) == parts[0]);
        assert(s.take(0) =~= Seq::<char>::empty());
    } else {
        lemma_split_upto(s, i - 1);
        let (done, cur) = split_upto(s, i - 1);
        let c = s[i - 1];
        assert(s.take(i) =~= s.take(i - 1).push(c));
        if c == ',' {
            let nd = done.push(cur);
            assert forall|n: int| 0 <= n < nd.len() implies !(#[trigger] nd[n]).contains(',') by {
                if n < done.len() {
                    assert(nd[n] == done[n]);
                }
            }
            let parts = nd.push(Seq::<char>::empty());
            assert(parts.drop_last() =~= nd);
            assert(join_commas(parts) == join_commas(nd) + seq![','] + Seq::<char>::empty());
            assert(join_commas(parts) =~= s.take(i));
        } else {
            let nc = cur.push(c);
            if nc.contains(',') {
                let k = choose|k: int| 0 <= k < nc.len() && nc[k] == ',';
                assert(cur[k] == ',');
            }
            let old_parts = done.push(cur);
            let parts = done.push(nc);
            if done.len() == 0 {
                assert(join_commas(old_parts) == cur);
                assert(join_commas(parts) == nc);
            } else {
                assert(old_parts.drop_last() =~= done);
                assert(parts.drop_last() =~= done);
                assert(join_commas(parts) =~= join_commas(old_parts).push(c));
            }
        }
    }
}

/// A range splits at its commas: no part holds a comma, and the parts put
/// back together with commas between them give the text back.
pub proof fn law_split_commas(s: Seq<char>)
    ensures
        forall|n: int| 0 <= n < split_commas(s).len() ==> !(#[trigger] split_commas(s)[n]).contains(','),
        join_commas(split_commas(s)) == s,
{
    lemma_split_upto(s, s.len() as int);
    let (done, cur) = split_upto(s, s.len() as int);
    let parts = done.push(cur);
    assert forall|n: int| 0 <= n < parts.len() implies !(#[trigger] parts[n]).contains(',') by {
        if n < done.len() {
            assert(parts[n] == done[n]);
        }
    }
    assert(s.take(s.len() as int) =~= s);
}

/// The position reported for a bad rank is the first character that is no
/// rank; none is reported only when every character is a rank.
pub proof fn law_first_bad_rank(p: Seq<char>)
    ensures
        bad_rank_index(p) matches Some(i) ==> 0 <= i < p.len() && rank_of_char(p[i]) is None && forall|k: int|
            0 <= k < i ==> rank_of_char(#[trigger] p[k]) is Some,
        bad_rank_index(p) is None ==> forall|k: int| 0 <= k < p.len() ==> rank_of_char(#[trigger] p[k]) is Some,
    decreases p.len(),
{
    if p.len() > 0 {
        let t = p.drop_last();
        law_first_bad_rank(t);
        assert forall|k: int| 0 <= k < t.len() implies t[k] == p[k] by {}
    }
}

proof fn lemma_trim_start(p: Seq<char>) -> (k: int)
    ensures
        0 <= k <= p.len(),
        trim_start(p) == p.skip(k),
        forall|i: int| 0 <= i < k ==> is_ws(#[trigger] p[i]),
        k < p.len() ==> !is_ws(p[k]),
    decreases p.len(),
{
    if p.len() > 0 && is_ws(p[0]) {
        let t = p.drop_first();
        let k1 = lemma_trim_start(t);
        assert(t.skip(k1) =~= p.skip(k1 + 1));
        assert forall|i: int| 0 <= i < k1 + 1 implies is_ws(#[trigger] p[i]) by {
            if i > 0 {
                assert(p[i] == t[i - 1]);
            }
        }
        k1 + 1
    } else {
        assert(p.skip(0) =~= p);
        0
    }
}

proof fn lemma_trim_end(p: Seq<char>) -> (m: int)
    ensures
        0 <= m <= p.len(),
        trim_end(p) == p.take(m),
        forall|i: int| m <= i < p.len() ==> is_ws(#[trigger] p[i]),
        m > 0 ==> !is_ws(p[m - 1]),
    decreases p.len(),
{
    if p.len() > 0 && is_ws(p.last()) {
        let t = p.drop_last();
        let m1 = lemma_trim_end(t);
        assert(t.take(m1) =~= p.take(m1));
        assert forall|i: int| m1 <= i < p.len() implies is_ws(#[trigger] p[i]) by {
            if i < p.len() - 1 {
                assert(p[i] == t[i]);
            }
        }
        m1
    } else {
        assert(p.take(p.len() as int) =~= p);
        p.len() as int
    }
}

/// Trimming drops the whitespace around a part and nothing else: what is
/// left is a stretch of the part, everything before and after it is
/// whitespace, and it neither starts nor ends with whitespace.
pub proof fn law_trim(p: Seq<char>)
    ensures
        exists|s: int, e: int|
            0 <= s <= e <= p.len() && trim(p) == #[trigger] p.subrange(s, e) && (forall|i: int|
                0 <= i < s ==> is_ws(#[trigger] p[i])) && (forall|i: int| e <= i < p.len() ==> is_ws(#[trigger] p[i])),
        trim(p).len() > 0 ==> !is_ws(trim(p)[0]) && !is_ws(trim(p).last()),
{
    let k = lemma_trim_start(p);
    let q = p.skip(k);
    let m = lemma_trim_end(q);
    assert(trim(p) == q.take(m));
    assert(q.take(m) =~= p.subrange(k, k + m));
    assert forall|i: int| k + m <= i < p.len() implies is_ws(#[trigger] p[i]) by {
        assert(p[i] == q[i - k]);
    }
    if m > 0 {
        assert(trim(p)[0] == p[k]);
        assert(trim(p).last() == q[m - 1]);
    }
}

/// A pattern of four ranks ("AKQJ") stands for the four-card hands of the
/// deck that hold at least one card of each rank it lists.
pub proof fn law_four_rank_pattern(r: Seq<Rank>, d: Seq<Card>)
    requires
        r.len() == 4,
    ensures
        forall|n: int, m: int| 0 <= n < pattern_hands(r, d).len() && 0 <= m < 4
            ==> has_rank(#[trigger] pattern_hands(r, d)[n], #[trigger] r[m]),
        forall|i: int, j: int, k: int, l: int| #![trigger quad(d, i, j, k, l)]
            0 <= i < j < k < l < d.len() && (forall|m: int| 0 <= m < 4 ==> has_rank(quad(d, i, j, k, l), #[trigger] r[m]))
                ==> pattern_hands(r, d).contains(canonical(quad(d, i, j, k, l))),
{
    let hs = pattern_hands(r, d);
    law_pattern_hands(r, d);
    assert forall|i: int, j: int, k: int, l: int| #![trigger quad(d, i, j, k, l)]
        0 <= i < j < k < l < d.len() && (forall|m: int| 0 <= m < 4 ==> has_rank(quad(d, i, j, k, l), #[trigger] r[m]))
            implies hs.contains(canonical(quad(d, i, j, k, l))) by {
        assert(pattern_match(r, quad(d, i, j, k, l)));
    }
    assert forall|n: int, m: int| 0 <= n < hs.len() && 0 <= m < 4 implies has_rank(#[trigger] hs[n], #[trigger] r[m]) by {
        assert(pattern_hand(r, d, hs[n]));
        let (i, j, k, l) = choose|i: int, j: int, k: int, l: int| #[trigger] fits_at(r, d, hs[n], i, j, k, l);
        let q = quad(d, i, j, k, l);
        assert(has_rank(q, r[m]));
        lemma_canonical_ranks(q, r[m]);
    }
}

} // verus!
