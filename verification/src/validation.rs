//! Lines of a validation checklist.
//!
//! A line reads `[label:] hero villain [board] equity`: an optional label
//! ended by the first colon, then words separated by whitespace. With
//! exactly three words there is no board; with four or more the fourth is
//! the equity and the rest are ignored. Lines with fewer than three words
//! are no case. A board is written as cards back to back, read in chunks of
//! two bytes; chunks that are no card are skipped.
use vstd::prelude::*;
use vstd::string::{StrSliceExecFns, StringExecFns};

use crate::cards::{card_of_chars, Card};
use crate::range::{card_from_chars, char_bytes, chars_of, is_ws, is_ws_exec};

verus! {

/// The texts of one checklist case; the equity is still text.
#[derive(Debug, Clone)]
pub struct CaseText {
    pub hero: String,
    pub villain: String,
    pub board: String,
    pub equity: String,
}

/// Position of the first colon of `s`, if any.
pub open spec fn colon_at(s: Seq<char>) -> Option<int>
    decreases s.len(),
{
    if s.len() == 0 {
        None
    } else {
        match colon_at(s.drop_last()) {
            Some(i) => Some(i),
            None => if s.last() == ':' {
                Some(s.len() - 1)
            } else {
                None
            },
        }
    }
}

/// `s` without its label: what follows the first colon, or all of `s`.
pub open spec fn unlabeled(s: Seq<char>) -> Seq<char> {
    match colon_at(s) {
        Some(i) => s.skip(i + 1),
        None => s,
    }
}

/// Reading the first `i` characters of `s` into words: the finished words
/// and the word still being read.
pub open spec fn words_upto(s: Seq<char>, i: int) -> (Seq<Seq<char>>, Seq<char>)
    decreases i,
{
    if i <= 0 {
        (Seq::empty(), Seq::empty())
    } else {
        let (done, cur) = words_upto(s, i - 1);
        if is_ws(s[i - 1]) {
            if cur.len() > 0 {
                (done.push(cur), Seq::empty())
            } else {
                (done, Seq::empty())
            }
        } else {
            (done, cur.push(s[i - 1]))
        }
    }
}

/// The maximal runs of non-whitespace characters of `s`, in order.
pub open spec fn words(s: Seq<char>) -> Seq<Seq<char>> {
    let (done, cur) = words_upto(s, s.len() as int);
    if cur.len() > 0 {
        done.push(cur)
    } else {
        done
    }
}

/// What a checklist line holds: hero, villain, board and equity texts.
pub open spec fn case_of_line(line: Seq<char>) -> Option<(Seq<char>, Seq<char>, Seq<char>, Seq<char>)> {
    let w = words(unlabeled(line));
    if w.len() < 3 {
        None
    } else if w.len() == 3 {
        Some((w[0], w[1], Seq::empty(), w[2]))
    } else {
        Some((w[0], w[1], w[2], w[3]))
    }
}

proof fn lemma_colon_prefix(p: Seq<char>, m: int)
    requires
        0 <= m <= p.len(),
        colon_at(p.take(m)) is Some,
    ensures
        colon_at(p) == colon_at(p.take(m)),
    decreases p.len() - m,
{
    if m < p.len() {
        assert(p.take(m + 1).drop_last() == p.take(m));
        lemma_colon_prefix(p, m + 1);
    } else {
        assert(p.take(m) == p);
    }
}

/// Where the text after the label of `cs` starts.
fn unlabeled_start(cs: &Vec<char>) -> (k: usize)
    ensures
        k <= cs@.len(),
        cs@.skip(k as int) == unlabeled(cs@),
{
    let n = cs.len();
    let mut i: usize = 0;
    while i < n
        invariant
            n == cs@.len(),
            i <= n,
            colon_at(cs@.take(i as int)) is None,
        decreases n - i,
    {
        assert(cs@.take(i + 1).drop_last() == cs@.take(i as int));
        if cs[i] == ':' {
            proof {
                assert(colon_at(cs@.take(i + 1)) == Some(i as int));
                lemma_colon_prefix(cs@, i + 1);
            }
            return i + 1;
        }
        i = i + 1;
    }
    assert(cs@.take(n as int) == cs@);
    assert(cs@.skip(0) == cs@);
    0
}

/// The bounds of the words of `cs`, in order.
fn word_bounds(cs: &Vec<char>) -> (out: Vec<(usize, usize)>)
    ensures
        out@.len() == words(cs@).len(),
        forall|k: int|
            0 <= k < out@.len() ==> (#[trigger] out@[k]).0 <= out@[k].1 <= cs@.len() && cs@.subrange(
                out@[k].0 as int,
                out@[k].1 as int,
            ) == words(cs@)[k],
{
    let n = cs.len();
    let mut out: Vec<(usize, usize)> = Vec::new();
    let mut start: usize = 0;
    let mut i: usize = 0;
    while i < n
        invariant
            n == cs@.len(),
            start <= i <= n,
            words_upto(cs@, i as int).1 == cs@.subrange(start as int, i as int),
            out@.len() == words_upto(cs@, i as int).0.len(),
            forall|k: int|
                0 <= k < out@.len() ==> (#[trigger] out@[k]).0 <= out@[k].1 <= i && cs@.subrange(
                    out@[k].0 as int,
                    out@[k].1 as int,
                ) == words_upto(cs@, i as int).0[k],
        decreases n - i,
    {
        if is_ws_exec(cs[i]) {
            if start < i {
                out.push((start, i));
            }
            start = i + 1;
            assert(cs@.subrange(start as int, i + 1) =~= Seq::<char>::empty());
        } else {
            assert(cs@.subrange(start as int, i + 1) =~= cs@.subrange(start as int, i as int).push(cs@[i as int]));
        }
        i = i + 1;
    }
    if start < n {
        out.push((start, n));
    }
    out
}

/// Reads a checklist line: `None` when it has fewer than three words.
pub fn parse_line(line: &str) -> (r: Option<CaseText>)
    ensures
        match r {
            Some(c) => case_of_line(line@) == Some((c.hero@, c.villain@, c.board@, c.equity@)),
            None => case_of_line(line@) is None,
        },
{
    let all = chars_of(line);
    let k = unlabeled_start(&all);
    let rest = line.substring_char(k, all.len());
    let cs = chars_of(rest);
    let b = word_bounds(&cs);
    if b.len() < 3 {
        return None;
    }
    let hero = String::from_str(rest.substring_char(b[0].0, b[0].1));
    let villain = String::from_str(rest.substring_char(b[1].0, b[1].1));
    if b.len() == 3 {
        let equity = String::from_str(rest.substring_char(b[2].0, b[2].1));
        let board = String::from_str("");
        proof {
            reveal_strlit("");
        }
        return Some(CaseText { hero, villain, board, equity });
    }
    let board = String::from_str(rest.substring_char(b[2].0, b[2].1));
    let equity = String::from_str(rest.substring_char(b[3].0, b[3].1));
    Some(CaseText { hero, villain, board, equity })
}


/// The cards of a board text read in chunks of two bytes, skipping chunks
/// that are no card; `None` when a chunk would cut a character in two. A
/// chunk that is one two-byte character is no card; two one-byte
/// characters are the card they write, if any.
pub open spec fn board_from(s: Seq<char>) -> Option<Seq<Card>>
    decreases s.len(),
{
    if s.len() == 0 {
        Some(Seq::empty())
    } else if char_bytes(s[0]) == 1 {
        if s.len() == 1 {
            Some(Seq::empty())
        } else if char_bytes(s[1]) == 1 {
            match board_from(s.skip(2)) {
                Some(rest) => Some(
                    match card_of_chars(s[0], s[1]) {
                        Some(c) => seq![c] + rest,
                        None => rest,
                    },
                ),
                None => None,
            }
        } else {
            None
        }
    } else if char_bytes(s[0]) == 2 {
        board_from(s.skip(1))
    } else {
        None
    }
}

/// The UTF-8 byte length of `c`.
fn char_bytes_exec(c: char) -> (n: usize)
    ensures
        n == char_bytes(c),
{
    let u = c as u32;
    if u < 0x80 {
        1
    } else if u < 0x800 {
        2
    } else if u < 0x10000 {
        3
    } else {
        4
    }
}

/// The cards of `cs` read as [`board_from`] does.
fn split_board(cs: &Vec<char>) -> (r: Option<Vec<Card>>)
    ensures
        match r {
            Some(v) => board_from(cs@) == Some(v@),
            None => board_from(cs@) is None,
        },
{
    let n = cs.len();
    let mut out: Vec<Card> = Vec::new();
    let mut i: usize = 0;
    proof {
        assert(cs@.skip(0) =~= cs@);
        if let Some(rest) = board_from(cs@) {
            assert(out@ + rest =~= rest);
        }
    }
    while i < n
        invariant
            n == cs@.len(),
            i <= n,
            board_from(cs@) == match board_from(cs@.skip(i as int)) {
                Some(rest) => Some(out@ + rest),
                None => None::<Seq<Card>>,
            },
        decreases n - i,
    {
        let ghost t = cs@.skip(i as int);
        let w = char_bytes_exec(cs[i]);
        if w == 1 {
            if i + 1 == n {
                assert(board_from(t) == Some(Seq::<Card>::empty()));
                assert(out@ + Seq::<Card>::empty() =~= out@);
                return Some(out);
            }
            if char_bytes_exec(cs[i + 1]) != 1 {
                return None;
            }
            assert(t.skip(2) =~= cs@.skip(i + 2));
            match card_from_chars(cs[i], cs[i + 1]) {
                Some(c) => {
                    proof {
                        if let Some(rest) = board_from(cs@.skip(i + 2)) {
                            assert(out@.push(c) + rest =~= out@ + (seq![c] + rest));
                        }
                    }
                    out.push(c);
                },
                None => {},
            }
            i = i + 2;
        } else if w == 2 {
            assert(t.skip(1) =~= cs@.skip(i + 1));
            i = i + 1;
        } else {
            return None;
        }
    }
    assert(cs@.skip(n as int) =~= Seq::<char>::empty());
    assert(out@ + Seq::<Card>::empty() =~= out@);
    Some(out)
}

/// Whether a board text reads in chunks of two bytes without cutting a
/// character in two.
pub fn board_text_splits(text: &str) -> (b: bool)
    ensures
        b == board_from(text@) is Some,
{
    let cs = chars_of(text);
    split_board(&cs).is_some()
}

/// Reads the cards of a board text such as `AhKd9c`: chunks of two bytes,
/// those that are no card skipped.
pub fn parse_board(text: &str) -> (cards: Vec<Card>)
    requires
        board_from(text@) is Some,
    ensures
        board_from(text@) == Some(cards@),
{
    let cs = chars_of(text);
    match split_board(&cs) {
        Some(v) => v,
        None => Vec::new(),
    }
}

// ---------------------------------------------------------------------------
// Laws
// ---------------------------------------------------------------------------

/// The label ends at the first colon: the colon found is a colon with none
/// before it, and none is found only in a line without colons.
pub proof fn law_first_colon(s: Seq<char>)
    ensures
        colon_at(s) matches Some(i) ==> 0 <= i < s.len() && s[i] == ':' && forall|k: int| 0 <= k < i ==> s[k] != ':',
        colon_at(s) is None ==> forall|k: int| 0 <= k < s.len() ==> s[k] != ':',
    decreases s.len(),
{
    if s.len() > 0 {
        let t = s.drop_last();
        law_first_colon(t);
        assert forall|k: int| 0 <= k < t.len() implies t[k] == s[k] by {}
    }
}

/// A character that is no whitespace.
pub open spec fn is_text_char(c: char) -> bool {
    !is_ws(c)
}

/// `w` is a non-empty run of characters without whitespace.
pub open spec fn is_word(w: Seq<char>) -> bool {
    w.len() > 0 && forall|k: int| 0 <= k < w.len() ==> !is_ws(#[trigger] w[k])
}

proof fn lemma_words_upto(s: Seq<char>, i: int)
    requires
        0 <= i <= s.len(),
    ensures
        forall|n: int| 0 <= n < words_upto(s, i).0.len() ==> is_word(#[trigger] words_upto(s, i).0[n]),
        forall|k: int| 0 <= k < words_upto(s, i).1.len() ==> !is_ws(#[trigger] words_upto(s, i).1[k]),
        words_upto(s, i).0.flatten() + words_upto(s, i).1 == s.take(i).filter(|c: char| is_text_char(c)),
    decreases i,
{
    let f = |c: char| is_text_char(c);
    if i <= 0 {
        assert(s.take(0) =~= Seq::<char>::empty());
        reveal(Seq::filter);
        assert(Seq::<Seq<char>>::empty().flatten() =~= Seq::<char>::empty());
        assert(Seq::<char>::empty().filter(f) =~= Seq::<char>::empty());
    } else {
        lemma_words_upto(s, i - 1);
        let (done, cur) = words_upto(s, i - 1);
        let c = s[i - 1];
        assert(s.take(i) =~= s.take(i - 1).push(c));
        s.take(i - 1).lemma_filter_push(c, f);
        if is_ws(c) {
            if cur.len() > 0 {
                done.lemma_flatten_push(cur);
                let nd = done.push(cur);
                assert forall|n: int| 0 <= n < nd.len() implies is_word(#[trigger] nd[n]) by {
                    if n < done.len() {
                        assert(nd[n] == done[n]);
                    }
                }
                assert(nd.flatten() + Seq::<char>::empty() =~= done.flatten() + cur);
            } else {
                assert(done.flatten() + Seq::<char>::empty() =~= done.flatten() + cur);
            }
        } else {
            let nc = cur.push(c);
            assert forall|k: int| 0 <= k < nc.len() implies !is_ws(#[trigger] nc[k]) by {
                if k < cur.len() {
                    assert(nc[k] == cur[k]);
                }
            }
            assert(done.flatten() + nc =~= (done.flatten() + cur).push(c));
        }
    }
}

/// Splitting a line into words keeps every character that is no whitespace,
/// in order, and nothing else: each word is a non-empty run without
/// whitespace, and the words put back together are the line without its
/// whitespace.
pub proof fn law_words(s: Seq<char>)
    ensures
        forall|n: int| 0 <= n < words(s).len() ==> is_word(#[trigger] words(s)[n]),
        words(s).flatten() == s.filter(|c: char| is_text_char(c)),
{
    lemma_words_upto(s, s.len() as int);
    let (done, cur) = words_upto(s, s.len() as int);
    assert(s.take(s.len() as int) =~= s);
    if cur.len() > 0 {
        done.lemma_flatten_push(cur);
        let nd = done.push(cur);
        assert forall|n: int| 0 <= n < nd.len() implies is_word(#[trigger] nd[n]) by {
            if n < done.len() {
                assert(nd[n] == done[n]);
            }
        }
    } else {
        assert(done.flatten() + cur =~= done.flatten());
    }
}

/// A board text of one-byte characters whose every two characters write a
/// card reads as those cards, in order.
pub proof fn law_board_cards(s: Seq<char>)
    requires
        s.len() % 2 == 0,
        forall|k: int| 0 <= k < s.len() ==> crate::range::is_ascii_char(#[trigger] s[k]),
        forall|k: int| 0 <= k < s.len() / 2 ==> #[trigger] card_of_chars(s[2 * k], s[2 * k + 1]) is Some,
    ensures
        board_from(s) == Some(Seq::new((s.len() / 2) as nat, |k: int| card_of_chars(s[2 * k], s[2 * k + 1])->0)),
    decreases s.len(),
{
    let want = Seq::new((s.len() / 2) as nat, |k: int| card_of_chars(s[2 * k], s[2 * k + 1])->0);
    if s.len() == 0 {
        assert(want =~= Seq::<Card>::empty());
    } else {
        let t = s.skip(2);
        assert(crate::range::is_ascii_char(s[0]));
        assert(crate::range::is_ascii_char(s[1]));
        assert forall|k: int| 0 <= k < t.len() implies crate::range::is_ascii_char(#[trigger] t[k]) by {
            assert(t[k] == s[k + 2]);
        }
        assert forall|k: int| 0 <= k < t.len() / 2 implies #[trigger] card_of_chars(t[2 * k], t[2 * k + 1]) is Some by {
            assert(t[2 * k] == s[2 * (k + 1)]);
            assert(t[2 * k + 1] == s[2 * (k + 1) + 1]);
            assert(card_of_chars(s[2 * (k + 1)], s[2 * (k + 1) + 1]) is Some);
        }
        law_board_cards(t);
        let rest = Seq::new((t.len() / 2) as nat, |k: int| card_of_chars(t[2 * k], t[2 * k + 1])->0);
        assert(card_of_chars(s[2 * 0int], s[2 * 0int + 1]) is Some);
        assert forall|k: int| 0 <= k < want.len() implies #[trigger] want[k] == (seq![card_of_chars(s[0], s[1])->0] + rest)[k] by {
            if k > 0 {
                assert(t[2 * (k - 1)] == s[2 * k]);
                assert(t[2 * (k - 1) + 1] == s[2 * k + 1]);
            }
        }
        assert(want =~= seq![card_of_chars(s[0], s[1])->0] + rest);
    }
}

} // verus!
