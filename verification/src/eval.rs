//! The hand evaluator: a pure classification of five cards into a totally
//! ordered key of a category (1, high card, through 10, royal flush) and a
//! tiebreak sequence of rank strengths.
//!
//! The wheel (ace, five, four, three, two) ranks as the lowest straight,
//! following the standard poker rule: its tiebreak treats the ace as
//! strength 1, and an ace-low straight flush is an ordinary straight flush,
//! not a royal flush.

use vstd::prelude::*;

use crate::card::Card;
use crate::card::strength;
use crate::dealer::DealerError;

verus! {

/// How many cards of the hand have the given strength.
pub open spec fn count_rank(hand: Seq<Card>, r: int) -> nat
    decreases hand.len(),
{
    if hand.len() == 0 {
        0
    } else {
        count_rank(hand.drop_last(), r) + if strength(hand.last().value) as int == r {
            1nat
        } else {
            0nat
        }
    }
}

/// The strength `r`, listed `n` times.
pub open spec fn repeat_rank(n: nat, r: u8) -> Seq<u8> {
    Seq::new(n, |i: int| r)
}

/// The strengths that are at most `r`, in descending order, each with its
/// multiplicity in the hand.
pub open spec fn ranks_upto(hand: Seq<Card>, r: int) -> Seq<u8>
    decreases r,
{
    if r < 2 {
        Seq::empty()
    } else {
        repeat_rank(count_rank(hand, r), r as u8) + ranks_upto(hand, r - 1)
    }
}

/// All the hand's strengths, sorted from highest to lowest.
pub open spec fn sorted_ranks(hand: Seq<Card>) -> Seq<u8> {
    ranks_upto(hand, 14)
}

/// All five cards wear the same suit.
pub open spec fn is_flush(hand: Seq<Card>) -> bool {
    forall|i: int| 0 <= i < hand.len() ==> #[trigger] hand[i].suit == hand[0].suit
}

/// Five consecutive strengths, read off the descending sort.
pub open spec fn is_straight(hand: Seq<Card>) -> bool {
    let rs = sorted_ranks(hand);
    rs.len() == 5 && (forall|i: int| 1 <= i < 5 ==> #[trigger] rs[i] as int + 1 == rs[i - 1] as int)
}

/// The wheel: ace, five, four, three, two, with the ace playing low.
pub open spec fn is_wheel(hand: Seq<Card>) -> bool {
    sorted_ranks(hand) == seq![14u8, 5u8, 4u8, 3u8, 2u8]
}

/// The greatest multiplicity among strengths up to `r`.
pub open spec fn max_count_upto(hand: Seq<Card>, r: int) -> nat
    decreases r,
{
    if r < 2 {
        0
    } else {
        let c = count_rank(hand, r);
        let m = max_count_upto(hand, r - 1);
        if c >= m {
            c
        } else {
            m
        }
    }
}

/// The greatest multiplicity of any strength: 4 for four of a kind, 3 for
/// three of a kind or a full house, and so on.
pub open spec fn max_count(hand: Seq<Card>) -> nat {
    max_count_upto(hand, 14)
}

/// How many distinct strengths up to `r` occur exactly twice.
pub open spec fn pairs_upto(hand: Seq<Card>, r: int) -> nat
    decreases r,
{
    if r < 2 {
        0
    } else {
        pairs_upto(hand, r - 1) + if count_rank(hand, r) == 2 {
            1nat
        } else {
            0nat
        }
    }
}

/// How many distinct strengths occur exactly twice.
pub open spec fn pair_kinds(hand: Seq<Card>) -> nat {
    pairs_upto(hand, 14)
}

/// The hand's category in the standard poker hierarchy:
/// 1 high card, 2 one pair, 3 two pair, 4 three of a kind, 5 straight,
/// 6 flush, 7 full house, 8 four of a kind, 9 straight flush,
/// 10 royal flush (the ace-high straight flush).
pub open spec fn category(hand: Seq<Card>) -> u8 {
    if is_flush(hand) && (is_straight(hand) || is_wheel(hand)) {
        if is_straight(hand) && sorted_ranks(hand)[0] == 14 {
            10
        } else {
            9
        }
    } else if max_count(hand) == 4 {
        8
    } else if max_count(hand) == 3 && pair_kinds(hand) >= 1 {
        7
    } else if is_flush(hand) {
        6
    } else if is_straight(hand) || is_wheel(hand) {
        5
    } else if max_count(hand) == 3 {
        4
    } else if pair_kinds(hand) >= 2 {
        3
    } else if max_count(hand) == 2 {
        2
    } else {
        1
    }
}

/// The strengths whose multiplicity is exactly `c`, at most `r`, descending.
pub open spec fn profile_row(hand: Seq<Card>, c: int, r: int) -> Seq<u8>
    decreases r,
{
    if r < 2 {
        Seq::empty()
    } else {
        (if count_rank(hand, r) as int == c {
            seq![r as u8]
        } else {
            Seq::empty()
        }) + profile_row(hand, c, r - 1)
    }
}

/// The strengths ordered by multiplicity first (highest multiplicity class
/// `c` first) and strength second, both descending.
pub open spec fn profile_from(hand: Seq<Card>, c: int) -> Seq<u8>
    decreases c,
{
    if c < 1 {
        Seq::empty()
    } else {
        profile_row(hand, c, 14) + profile_from(hand, c - 1)
    }
}

/// The count-profile part of the tiebreak: one entry per distinct strength,
/// sorted by (multiplicity desc, strength desc).
pub open spec fn profile_ranks(hand: Seq<Card>) -> Seq<u8> {
    profile_from(hand, 5)
}

/// The wheel's tiebreak, with the ace counted as 1.
pub open spec fn wheel_tiebreak() -> Seq<u8> {
    seq![5u8, 4u8, 3u8, 2u8, 1u8, 5u8, 4u8, 3u8, 2u8, 1u8]
}

/// The tiebreak sequence of a hand: the count profile's strengths followed
/// by all five strengths sorted descending. For the wheel the ace plays low.
pub open spec fn tiebreak(hand: Seq<Card>) -> Seq<u8> {
    if is_wheel(hand) {
        wheel_tiebreak()
    } else {
        profile_ranks(hand) + sorted_ranks(hand)
    }
}

/// Lexicographic three-way comparison of tiebreak sequences; a proper prefix
/// orders below its extensions.
pub open spec fn lex_cmp(a: Seq<u8>, b: Seq<u8>) -> core::cmp::Ordering
    decreases a.len(),
{
    if a.len() == 0 && b.len() == 0 {
        core::cmp::Ordering::Equal
    } else if a.len() == 0 {
        core::cmp::Ordering::Less
    } else if b.len() == 0 {
        core::cmp::Ordering::Greater
    } else if a[0] < b[0] {
        core::cmp::Ordering::Less
    } else if a[0] > b[0] {
        core::cmp::Ordering::Greater
    } else {
        lex_cmp(a.skip(1), b.skip(1))
    }
}

/// Three-way comparison of two evaluation keys: the category decides first,
/// and only on equal categories does the tiebreak sequence decide.
pub open spec fn key_cmp(c1: u8, t1: Seq<u8>, c2: u8, t2: Seq<u8>) -> core::cmp::Ordering {
    if c1 < c2 {
        core::cmp::Ordering::Less
    } else if c1 > c2 {
        core::cmp::Ordering::Greater
    } else {
        lex_cmp(t1, t2)
    }
}

/// The first key is at most the second.
pub open spec fn key_le(c1: u8, t1: Seq<u8>, c2: u8, t2: Seq<u8>) -> bool {
    key_cmp(c1, t1, c2, t2) != core::cmp::Ordering::Greater
}

/// Three-way comparison of two hands by their keys.
pub open spec fn hand_cmp(h1: Seq<Card>, h2: Seq<Card>) -> core::cmp::Ordering {
    key_cmp(category(h1), tiebreak(h1), category(h2), tiebreak(h2))
}

/// The first hand's key is at most the second's.
pub open spec fn hand_le(h1: Seq<Card>, h2: Seq<Card>) -> bool {
    hand_cmp(h1, h2) != core::cmp::Ordering::Greater
}

/// Swapping the operands of the lexicographic comparison mirrors the result.
pub proof fn lemma_lex_cmp_flip(a: Seq<u8>, b: Seq<u8>)
    ensures
        lex_cmp(a, b) == core::cmp::Ordering::Less <==> lex_cmp(b, a)
            == core::cmp::Ordering::Greater,
        lex_cmp(a, b) == core::cmp::Ordering::Equal <==> lex_cmp(b, a)
            == core::cmp::Ordering::Equal,
    decreases a.len(),
{
    if a.len() > 0 && b.len() > 0 && a[0] == b[0] {
        lemma_lex_cmp_flip(a.skip(1), b.skip(1));
    }
}

/// Lexicographic comparison reports equality exactly on equal sequences.
pub proof fn lemma_lex_cmp_equal_iff(a: Seq<u8>, b: Seq<u8>)
    ensures
        lex_cmp(a, b) == core::cmp::Ordering::Equal <==> a == b,
    decreases a.len(),
{
    if a.len() == 0 && b.len() == 0 {
        assert(a =~= b);
    } else if a.len() > 0 && b.len() > 0 && a[0] == b[0] {
        lemma_lex_cmp_equal_iff(a.skip(1), b.skip(1));
        if lex_cmp(a, b) == core::cmp::Ordering::Equal {
            assert(a =~= seq![a[0]] + a.skip(1));
            assert(b =~= seq![b[0]] + b.skip(1));
        } else {
            if a == b {
                assert(a.skip(1) =~= b.skip(1));
            }
        }
    } else {
        if a == b {
            assert(a.len() == b.len());
            if a.len() > 0 {
                assert(a[0] == b[0]);
            }
        }
    }
}

/// The lexicographic order is transitive.
pub proof fn lemma_lex_cmp_trans(a: Seq<u8>, b: Seq<u8>, c: Seq<u8>)
    requires
        lex_cmp(a, b) != core::cmp::Ordering::Greater,
        lex_cmp(b, c) != core::cmp::Ordering::Greater,
    ensures
        lex_cmp(a, c) != core::cmp::Ordering::Greater,
    decreases a.len(),
{
    if a.len() > 0 && b.len() > 0 && c.len() > 0 && a[0] == b[0] && b[0] == c[0] {
        lemma_lex_cmp_trans(a.skip(1), b.skip(1), c.skip(1));
    }
}

/// The key order is total: of two keys, one is at most the other.
pub proof fn lemma_key_le_total(c1: u8, t1: Seq<u8>, c2: u8, t2: Seq<u8>)
    ensures
        key_le(c1, t1, c2, t2) || key_le(c2, t2, c1, t1),
{
    lemma_lex_cmp_flip(t1, t2);
}

/// The key order is transitive.
pub proof fn lemma_key_le_trans(c1: u8, t1: Seq<u8>, c2: u8, t2: Seq<u8>, c3: u8, t3: Seq<u8>)
    requires
        key_le(c1, t1, c2, t2),
        key_le(c2, t2, c3, t3),
    ensures
        key_le(c1, t1, c3, t3),
{
    if c1 == c2 && c2 == c3 {
        lemma_lex_cmp_trans(t1, t2, t3);
    }
}

/// Two keys that are each at most the other are the same key.
pub proof fn lemma_key_le_antisym(c1: u8, t1: Seq<u8>, c2: u8, t2: Seq<u8>)
    requires
        key_le(c1, t1, c2, t2),
        key_le(c2, t2, c1, t1),
    ensures
        c1 == c2,
        t1 == t2,
{
    lemma_lex_cmp_flip(t1, t2);
    lemma_lex_cmp_equal_iff(t1, t2);
}

/// Cutting one card off the hand shortens the strength list by one, as long
/// as the cut card's strength is within the listed range.
proof fn lemma_ranks_upto_len_step(hand: Seq<Card>, r: int)
    requires
        hand.len() > 0,
    ensures
        ranks_upto(hand, r).len() == ranks_upto(hand.drop_last(), r).len() + if 2 <= strength(
            hand.last().value,
        ) as int <= r {
            1int
        } else {
            0int
        },
    decreases r,
{
    if r >= 2 {
        lemma_ranks_upto_len_step(hand, r - 1);
    }
}

/// An empty hand has an empty strength list.
proof fn lemma_ranks_upto_empty(hand: Seq<Card>, r: int)
    requires
        hand.len() == 0,
    ensures
        ranks_upto(hand, r).len() == 0,
    decreases r,
{
    if r >= 2 {
        lemma_ranks_upto_empty(hand, r - 1);
    }
}

/// The descending strength list accounts for every card of the hand.
pub proof fn lemma_sorted_ranks_len(hand: Seq<Card>)
    ensures
        sorted_ranks(hand).len() == hand.len(),
    decreases hand.len(),
{
    if hand.len() == 0 {
        lemma_ranks_upto_empty(hand, 14);
    } else {
        lemma_sorted_ranks_len(hand.drop_last());
        lemma_ranks_upto_len_step(hand, 14);
        crate::card::lemma_strength_range(hand.last().value);
    }
}

/// Every strength listed by `ranks_upto` lies between 2 and its bound.
proof fn lemma_ranks_upto_range(hand: Seq<Card>, r: int, i: int)
    requires
        r <= 14,
        0 <= i < ranks_upto(hand, r).len(),
    ensures
        2 <= ranks_upto(hand, r)[i] as int <= r,
    decreases r,
{
    if r >= 2 {
        let head = repeat_rank(count_rank(hand, r), r as u8);
        if i >= head.len() {
            lemma_ranks_upto_range(hand, r - 1, i - head.len());
        }
    }
}

/// The partial strength lists come out in descending order.
proof fn lemma_ranks_upto_descending(hand: Seq<Card>, r: int, i: int, j: int)
    requires
        r <= 14,
        0 <= i <= j < ranks_upto(hand, r).len(),
    ensures
        ranks_upto(hand, r)[i] >= ranks_upto(hand, r)[j],
    decreases r,
{
    if r >= 2 {
        let head = repeat_rank(count_rank(hand, r), r as u8);
        if j < head.len() {
        } else if i >= head.len() {
            lemma_ranks_upto_descending(hand, r - 1, i - head.len(), j - head.len());
        } else {
            lemma_ranks_upto_range(hand, r - 1, j - head.len());
        }
    }
}

/// The strength list is indeed sorted, highest first.
pub proof fn lemma_sorted_ranks_descending(hand: Seq<Card>, i: int, j: int)
    requires
        0 <= i <= j < sorted_ranks(hand).len(),
    ensures
        sorted_ranks(hand)[i] >= sorted_ranks(hand)[j],
{
    lemma_ranks_upto_descending(hand, 14, i, j);
}

/// A constant run holds its strength as often as it is long, and nothing
/// else.
proof fn lemma_repeat_rank_count(n: nat, x: u8, v: u8)
    ensures
        repeat_rank(n, x).to_multiset().count(v) == if v == x {
            n
        } else {
            0
        },
    decreases n,
{
    broadcast use vstd::seq_lib::group_to_multiset_ensures;
    broadcast use vstd::multiset::group_multiset_axioms;

    if n == 0 {
        vstd::multiset::lemma_multiset_empty_len(repeat_rank(n, x).to_multiset());
    } else {
        lemma_repeat_rank_count((n - 1) as nat, x, v);
        assert(repeat_rank(n, x) =~= repeat_rank((n - 1) as nat, x).push(x));
    }
}

/// The partial strength lists hold each strength as often as the hand does,
/// within their bound.
proof fn lemma_ranks_upto_count(hand: Seq<Card>, r: int, v: u8)
    requires
        r <= 14,
    ensures
        ranks_upto(hand, r).to_multiset().count(v) == if 2 <= v as int <= r {
            count_rank(hand, v as int)
        } else {
            0
        },
    decreases r,
{
    broadcast use vstd::multiset::group_multiset_axioms;
    broadcast use vstd::seq_lib::group_to_multiset_ensures;

    if r < 2 {
        vstd::multiset::lemma_multiset_empty_len(ranks_upto(hand, r).to_multiset());
    } else {
        lemma_ranks_upto_count(hand, r - 1, v);
        lemma_repeat_rank_count(count_rank(hand, r), r as u8, v);
        vstd::seq_lib::lemma_multiset_commutative(
            repeat_rank(count_rank(hand, r), r as u8),
            ranks_upto(hand, r - 1),
        );
    }
}

/// The strength list holds each strength exactly as often as the hand's
/// cards carry it: the tiebreak speaks of the hand's cards, no others.
pub proof fn lemma_sorted_ranks_count(hand: Seq<Card>, v: u8)
    ensures
        sorted_ranks(hand).to_multiset().count(v) == if 2 <= v as int <= 14 {
            count_rank(hand, v as int)
        } else {
            0
        },
{
    lemma_ranks_upto_count(hand, 14, v);
}

/// One row of the count profile names a strength exactly when the hand
/// holds it with the row's multiplicity, and then only once.
proof fn lemma_profile_row_count(hand: Seq<Card>, c: int, r: int, v: u8)
    requires
        r <= 14,
    ensures
        profile_row(hand, c, r).to_multiset().count(v) == if 2 <= v as int <= r && count_rank(
            hand,
            v as int,
        ) as int == c {
            1nat
        } else {
            0nat
        },
    decreases r,
{
    broadcast use vstd::multiset::group_multiset_axioms;
    broadcast use vstd::seq_lib::group_to_multiset_ensures;

    if r < 2 {
        vstd::multiset::lemma_multiset_empty_len(profile_row(hand, c, r).to_multiset());
    } else {
        lemma_profile_row_count(hand, c, r - 1, v);
        let head = if count_rank(hand, r) as int == c {
            seq![r as u8]
        } else {
            Seq::<u8>::empty()
        };
        vstd::seq_lib::lemma_multiset_commutative(head, profile_row(hand, c, r - 1));
        assert(seq![r as u8] =~= Seq::<u8>::empty().push(r as u8));
        vstd::multiset::lemma_multiset_empty_len(Seq::<u8>::empty().to_multiset());
    }
}

/// The whole count profile names a strength exactly when the hand holds it
/// with multiplicity one up to the bound, and then only once.
proof fn lemma_profile_from_count(hand: Seq<Card>, c: int, v: u8)
    ensures
        profile_from(hand, c).to_multiset().count(v) == if 2 <= v as int <= 14 && 1 <= count_rank(
            hand,
            v as int,
        ) as int <= c {
            1nat
        } else {
            0nat
        },
    decreases c,
{
    broadcast use vstd::multiset::group_multiset_axioms;
    broadcast use vstd::seq_lib::group_to_multiset_ensures;

    if c < 1 {
        vstd::multiset::lemma_multiset_empty_len(profile_from(hand, c).to_multiset());
    } else {
        lemma_profile_from_count(hand, c - 1, v);
        lemma_profile_row_count(hand, c, 14, v);
        vstd::seq_lib::lemma_multiset_commutative(
            profile_row(hand, c, 14),
            profile_from(hand, c - 1),
        );
    }
}

/// The count profile lists each strength the hand holds exactly once, as
/// long as its multiplicity is an ordinary one (one through five copies).
pub proof fn lemma_profile_ranks_count(hand: Seq<Card>, v: u8)
    ensures
        profile_ranks(hand).to_multiset().count(v) == if 2 <= v as int <= 14 && 1 <= count_rank(
            hand,
            v as int,
        ) as int <= 5 {
            1nat
        } else {
            0nat
        },
{
    lemma_profile_from_count(hand, 5, v);
}

/// The evaluator is a function of the cards alone: two equal five-card hands
/// always receive the same category and the same tiebreak.
pub proof fn lemma_evaluate_deterministic(h1: Seq<Card>, h2: Seq<Card>)
    requires
        h1 == h2,
    ensures
        category(h1) == category(h2),
        tiebreak(h1) == tiebreak(h2),
        hand_cmp(h1, h2) == core::cmp::Ordering::Equal,
{
    lemma_lex_cmp_same(tiebreak(h1));
}

/// Comparing any tiebreak sequence with itself gives equality.
pub proof fn lemma_lex_cmp_same(a: Seq<u8>)
    ensures
        lex_cmp(a, a) == core::cmp::Ordering::Equal,
    decreases a.len(),
{
    if a.len() > 0 {
        lemma_lex_cmp_same(a.skip(1));
    }
}

/// Every hand's category lands on the ten-tier hierarchy.
pub proof fn lemma_category_range(hand: Seq<Card>)
    ensures
        1 <= category(hand) <= 10,
{
}

/// The hand ranking is total: of two hands, one key is at most the other.
pub proof fn lemma_hand_le_total(h1: Seq<Card>, h2: Seq<Card>)
    ensures
        hand_le(h1, h2) || hand_le(h2, h1),
{
    lemma_key_le_total(category(h1), tiebreak(h1), category(h2), tiebreak(h2));
}

/// The hand ranking is transitive.
pub proof fn lemma_hand_le_trans(h1: Seq<Card>, h2: Seq<Card>, h3: Seq<Card>)
    requires
        hand_le(h1, h2),
        hand_le(h2, h3),
    ensures
        hand_le(h1, h3),
{
    lemma_key_le_trans(
        category(h1),
        tiebreak(h1),
        category(h2),
        tiebreak(h2),
        category(h3),
        tiebreak(h3),
    );
}

/// A hand of a strictly higher category outranks any hand of a lower
/// category, whatever the tiebreak sequences hold.
pub proof fn lemma_category_dominates(h1: Seq<Card>, h2: Seq<Card>)
    requires
        category(h1) > category(h2),
    ensures
        hand_cmp(h1, h2) == core::cmp::Ordering::Greater,
        hand_cmp(h2, h1) == core::cmp::Ordering::Less,
{
}

/// The ace-high straight flush is the royal flush, category 10.
pub proof fn lemma_ace_high_straight_flush_is_royal(h: Seq<Card>)
    requires
        is_flush(h),
        is_straight(h),
        sorted_ranks(h)[0] == 14,
    ensures
        category(h) == 10,
{
}

/// A straight flush whose top card is not the ace stays at category 9.
pub proof fn lemma_lower_straight_flush_is_not_royal(h: Seq<Card>)
    requires
        is_flush(h),
        is_straight(h) || is_wheel(h),
        !(is_straight(h) && sorted_ranks(h)[0] == 14),
    ensures
        category(h) == 9,
{
}

/// The royal flush outranks every lower straight flush.
pub proof fn lemma_royal_flush_beats_straight_flush(h1: Seq<Card>, h2: Seq<Card>)
    requires
        is_flush(h1),
        is_straight(h1),
        sorted_ranks(h1)[0] == 14,
        is_flush(h2),
        is_straight(h2) || is_wheel(h2),
        !(is_straight(h2) && sorted_ranks(h2)[0] == 14),
    ensures
        hand_cmp(h1, h2) == core::cmp::Ordering::Greater,
{
    lemma_ace_high_straight_flush_is_royal(h1);
    lemma_lower_straight_flush_is_not_royal(h2);
    lemma_category_dominates(h1, h2);
}

/// Four of a kind always outranks a full house.
pub proof fn lemma_four_of_a_kind_beats_full_house(h1: Seq<Card>, h2: Seq<Card>)
    requires
        category(h1) == 8,
        category(h2) == 7,
    ensures
        hand_cmp(h1, h2) == core::cmp::Ordering::Greater,
{
    lemma_category_dominates(h1, h2);
}

/// Classifies exactly five cards into their comparison key: the category and
/// the tiebreak sequence. Any other hand size is refused as
/// `InvalidHandSize`, never evaluated.
pub fn evaluate_hand(hand: &Vec<Card>) -> (r: Result<(u8, Vec<u8>), DealerError>)
    ensures
        hand@.len() == 5 ==> (r matches Ok(k) && k.0 == category(hand@) && k.1@ == tiebreak(
            hand@,
        )),
        hand@.len() != 5 ==> r == Err::<(u8, Vec<u8>), DealerError>(DealerError::InvalidHandSize),
{
    if hand.len() != 5 {
        return Err(DealerError::InvalidHandSize);
    }
    // Multiplicity of each strength, indexed by the strength itself.
    let mut counts: Vec<u8> = Vec::new();
    let mut z: usize = 0;
    while z < 15
        invariant
            counts@.len() == z,
            z <= 15,
            forall|t: int| 0 <= t < z ==> counts@[t] == 0,
        decreases 15 - z,
    {
        counts.push(0);
        z = z + 1;
    }
    proof {
        assert(hand@.take(0) =~= Seq::<Card>::empty());
        assert forall|t: int| 0 <= t < 15 implies counts@[t] as nat == count_rank(
            hand@.take(0),
            t,
        ) by {
            assert(count_rank(hand@.take(0), t) == 0);
        }
    }
    let mut k: usize = 0;
    while k < 5
        invariant
            hand@.len() == 5,
            k <= 5,
            counts@.len() == 15,
            forall|t: int| 0 <= t < 15 ==> counts@[t] as nat == count_rank(hand@.take(k as int), t),
            forall|t: int| 0 <= t < 15 ==> counts@[t] as int <= k,
        decreases 5 - k,
    {
        let s = hand[k].value.rank();
        proof {
            crate::card::lemma_strength_range(hand@[k as int].value);
        }
        let idx = s as usize;
        let c = counts[idx];
        counts.set(idx, c + 1);
        proof {
            assert(hand@.take(k + 1).drop_last() =~= hand@.take(k as int));
            assert(hand@.take(k + 1).last() == hand@[k as int]);
            assert forall|t: int| 0 <= t < 15 implies counts@[t] as nat == count_rank(
                hand@.take(k + 1),
                t,
            ) by {
                assert(count_rank(hand@.take(k + 1), t) == count_rank(hand@.take(k as int), t)
                    + if strength(hand@[k as int].value) as int == t {
                    1nat
                } else {
                    0nat
                });
            }
        }
        k = k + 1;
    }
    proof {
        assert(hand@.take(5) =~= hand@);
    }
    // All the strengths, descending, with multiplicity.
    let mut rd: Vec<u8> = Vec::new();
    proof {
        assert(Seq::<u8>::empty() + sorted_ranks(hand@) =~= sorted_ranks(hand@));
    }
    let mut r: usize = 14;
    while r >= 2
        invariant
            1 <= r <= 14,
            counts@.len() == 15,
            forall|t: int| 0 <= t < 15 ==> counts@[t] as nat == count_rank(hand@, t),
            rd@ + ranks_upto(hand@, r as int) == sorted_ranks(hand@),
            forall|i: int| 0 <= i < rd@.len() ==> 2 <= #[trigger] rd@[i] <= 14,
        decreases r,
    {
        let cnt = counts[r];
        let ghost rd0 = rd@;
        let mut j: u8 = 0;
        while j < cnt
            invariant
                j <= cnt,
                2 <= r <= 14,
                rd@ == rd0 + repeat_rank(j as nat, r as u8),
                forall|i: int| 0 <= i < rd0.len() ==> 2 <= #[trigger] rd0[i] <= 14,
                forall|i: int| 0 <= i < rd@.len() ==> 2 <= #[trigger] rd@[i] <= 14,
            decreases cnt - j,
        {
            rd.push(r as u8);
            proof {
                assert(rd@ =~= rd0 + repeat_rank((j + 1) as nat, r as u8));
            }
            j = j + 1;
        }
        proof {
            assert(rd@ == rd0 + repeat_rank(cnt as nat, r as u8));
            assert(ranks_upto(hand@, r as int) == repeat_rank(count_rank(hand@, r as int), r as u8)
                + ranks_upto(hand@, r as int - 1));
            assert(rd@ + ranks_upto(hand@, r as int - 1) =~= rd0 + ranks_upto(hand@, r as int));
        }
        r = r - 1;
    }
    proof {
        assert(ranks_upto(hand@, 1) =~= Seq::<u8>::empty());
        assert(rd@ =~= rd@ + ranks_upto(hand@, 1));
        assert(rd@ == sorted_ranks(hand@));
    }
    // Flush, straight, wheel.
    let flush = hand[1].suit == hand[0].suit && hand[2].suit == hand[0].suit && hand[3].suit
        == hand[0].suit && hand[4].suit == hand[0].suit;
    proof {
        assert(flush == is_flush(hand@)) by {
            if flush {
                assert forall|i: int| 0 <= i < hand@.len() implies #[trigger] hand@[i].suit
                    == hand@[0].suit by {
                    if i == 1 {
                    } else if i == 2 {
                    } else if i == 3 {
                    } else if i == 4 {
                    }
                }
            } else {
                if is_flush(hand@) {
                    assert(hand@[1].suit == hand@[0].suit);
                    assert(hand@[2].suit == hand@[0].suit);
                    assert(hand@[3].suit == hand@[0].suit);
                    assert(hand@[4].suit == hand@[0].suit);
                }
            }
        }
    }
    let straight = rd.len() == 5 && rd[1] + 1 == rd[0] && rd[2] + 1 == rd[1] && rd[3] + 1 == rd[2]
        && rd[4] + 1 == rd[3];
    proof {
        assert(straight == is_straight(hand@)) by {
            if straight {
                assert forall|i: int| 1 <= i < 5 implies #[trigger] sorted_ranks(hand@)[i] as int
                    + 1 == sorted_ranks(hand@)[i - 1] as int by {
                    if i == 1 {
                    } else if i == 2 {
                    } else if i == 3 {
                    } else if i == 4 {
                    }
                }
            } else {
                if is_straight(hand@) {
                    assert(sorted_ranks(hand@)[1] as int + 1 == sorted_ranks(hand@)[0] as int);
                    assert(sorted_ranks(hand@)[2] as int + 1 == sorted_ranks(hand@)[1] as int);
                    assert(sorted_ranks(hand@)[3] as int + 1 == sorted_ranks(hand@)[2] as int);
                    assert(sorted_ranks(hand@)[4] as int + 1 == sorted_ranks(hand@)[3] as int);
                }
            }
        }
    }
    let wheel = rd.len() == 5 && rd[0] == 14 && rd[1] == 5 && rd[2] == 4 && rd[3] == 3 && rd[4]
        == 2;
    proof {
        assert(wheel == is_wheel(hand@)) by {
            if wheel {
                assert(rd@ =~= seq![14u8, 5u8, 4u8, 3u8, 2u8]);
            } else {
                if is_wheel(hand@) {
                    assert(sorted_ranks(hand@) == seq![14u8, 5u8, 4u8, 3u8, 2u8]);
                    assert(rd@.len() == 5);
                    assert(rd@[0] == 14u8);
                    assert(rd@[1] == 5u8);
                    assert(rd@[2] == 4u8);
                    assert(rd@[3] == 3u8);
                    assert(rd@[4] == 2u8);
                }
            }
        }
    }
    // Greatest multiplicity, and the number of strengths paired exactly twice.
    let mut maxc: u8 = 0;
    let mut pairs: u8 = 0;
    let mut t: usize = 2;
    while t <= 14
        invariant
            2 <= t <= 15,
            counts@.len() == 15,
            forall|q: int| 0 <= q < 15 ==> counts@[q] as nat == count_rank(hand@, q),
            maxc as nat == max_count_upto(hand@, t as int - 1),
            pairs as nat == pairs_upto(hand@, t as int - 1),
            pairs as int <= t,
        decreases 15 - t,
    {
        let c = counts[t];
        if c > maxc {
            maxc = c;
        }
        if c == 2 {
            pairs = pairs + 1;
        }
        proof {
            assert(max_count_upto(hand@, t as int) == if count_rank(hand@, t as int)
                >= max_count_upto(hand@, t as int - 1) {
                count_rank(hand@, t as int)
            } else {
                max_count_upto(hand@, t as int - 1)
            });
            assert(pairs_upto(hand@, t as int) == pairs_upto(hand@, t as int - 1) + if count_rank(
                hand@,
                t as int,
            ) == 2 {
                1nat
            } else {
                0nat
            });
        }
        t = t + 1;
    }
    // The category, mirroring the specification's decision order.
    let cat: u8 = if flush && (straight || wheel) {
        if straight && rd[0] == 14 {
            10
        } else {
            9
        }
    } else if maxc == 4 {
        8
    } else if maxc == 3 && pairs >= 1 {
        7
    } else if flush {
        6
    } else if straight || wheel {
        5
    } else if maxc == 3 {
        4
    } else if pairs >= 2 {
        3
    } else if maxc == 2 {
        2
    } else {
        1
    };
    proof {
        assert(cat == category(hand@));
    }
    // The tiebreak: the count profile's strengths, then all strengths
    // descending; the wheel plays its ace low.
    let mut tb: Vec<u8> = Vec::new();
    if wheel {
        tb.push(5);
        tb.push(4);
        tb.push(3);
        tb.push(2);
        tb.push(1);
        tb.push(5);
        tb.push(4);
        tb.push(3);
        tb.push(2);
        tb.push(1);
        proof {
            assert(tb@ =~= wheel_tiebreak());
        }
    } else {
        proof {
            assert(Seq::<u8>::empty() + profile_ranks(hand@) =~= profile_ranks(hand@));
        }
        let mut c: usize = 5;
        while c >= 1
            invariant
                c <= 5,
                counts@.len() == 15,
                forall|q: int| 0 <= q < 15 ==> counts@[q] as nat == count_rank(hand@, q),
                tb@ + profile_from(hand@, c as int) == profile_ranks(hand@),
            decreases c,
        {
            proof {
                assert(profile_from(hand@, c as int) == profile_row(hand@, c as int, 14)
                    + profile_from(hand@, c as int - 1));
                assert(tb@ + profile_row(hand@, c as int, 14) + profile_from(hand@, c as int - 1)
                    =~= tb@ + profile_from(hand@, c as int));
            }
            let mut t2: usize = 14;
            while t2 >= 2
                invariant
                    1 <= t2 <= 14,
                    1 <= c <= 5,
                    counts@.len() == 15,
                    forall|q: int| 0 <= q < 15 ==> counts@[q] as nat == count_rank(hand@, q),
                    tb@ + profile_row(hand@, c as int, t2 as int) + profile_from(
                        hand@,
                        c as int - 1,
                    ) == profile_ranks(hand@),
                decreases t2,
            {
                let ghost tb0 = tb@;
                if counts[t2] as usize == c {
                    tb.push(t2 as u8);
                }
                proof {
                    assert(profile_row(hand@, c as int, t2 as int) == (if count_rank(
                        hand@,
                        t2 as int,
                    ) as int == c as int {
                        seq![t2 as u8]
                    } else {
                        Seq::<u8>::empty()
                    }) + profile_row(hand@, c as int, t2 as int - 1));
                    if count_rank(hand@, t2 as int) as int == c as int {
                        assert(tb@ =~= tb0 + seq![t2 as u8]);
                        assert(tb@ + profile_row(hand@, c as int, t2 as int - 1) + profile_from(
                            hand@,
                            c as int - 1,
                        ) =~= tb0 + profile_row(hand@, c as int, t2 as int) + profile_from(
                            hand@,
                            c as int - 1,
                        ));
                    } else {
                        assert(tb@ + profile_row(hand@, c as int, t2 as int - 1) + profile_from(
                            hand@,
                            c as int - 1,
                        ) =~= tb0 + profile_row(hand@, c as int, t2 as int) + profile_from(
                            hand@,
                            c as int - 1,
                        ));
                    }
                }
                t2 = t2 - 1;
            }
            proof {
                assert(profile_row(hand@, c as int, 1) =~= Seq::<u8>::empty());
                assert(tb@ + profile_from(hand@, c as int - 1) =~= tb@ + profile_row(
                    hand@,
                    c as int,
                    1,
                ) + profile_from(hand@, c as int - 1));
            }
            c = c - 1;
        }
        proof {
            assert(profile_from(hand@, 0) =~= Seq::<u8>::empty());
            assert(tb@ =~= tb@ + profile_from(hand@, 0));
            assert(tb@ == profile_ranks(hand@));
            assert(tb@ + rd@.take(0) =~= tb@);
        }
        let ghost prof = tb@;
        let n = rd.len();
        let mut a: usize = 0;
        while a < n
            invariant
                a <= n,
                n == rd@.len(),
                prof == profile_ranks(hand@),
                rd@ == sorted_ranks(hand@),
                tb@ == prof + rd@.take(a as int),
            decreases n - a,
        {
            tb.push(rd[a]);
            proof {
                assert(rd@.take(a + 1) =~= rd@.take(a as int).push(rd@[a as int]));
                assert(prof + rd@.take(a as int).push(rd@[a as int]) =~= (prof + rd@.take(
                    a as int,
                )).push(rd@[a as int]));
            }
            a = a + 1;
        }
        proof {
            assert(rd@.take(n as int) =~= rd@);
            assert(tb@ == profile_ranks(hand@) + sorted_ranks(hand@));
        }
    }
    proof {
        assert(tb@ == tiebreak(hand@));
    }
    Ok((cat, tb))
}

/// Lexicographic comparison of two tiebreak vectors.
pub fn lex_compare(a: &Vec<u8>, b: &Vec<u8>) -> (r: core::cmp::Ordering)
    ensures
        r == lex_cmp(a@, b@),
{
    let mut i: usize = 0;
    proof {
        assert(a@.skip(0) =~= a@);
        assert(b@.skip(0) =~= b@);
    }
    while i < a.len() && i < b.len()
        invariant
            i <= a@.len(),
            i <= b@.len(),
            lex_cmp(a@, b@) == lex_cmp(a@.skip(i as int), b@.skip(i as int)),
        decreases a@.len() - i,
    {
        proof {
            assert(a@.skip(i as int)[0] == a@[i as int]);
            assert(b@.skip(i as int)[0] == b@[i as int]);
            assert(a@.skip(i as int).skip(1) =~= a@.skip(i + 1));
            assert(b@.skip(i as int).skip(1) =~= b@.skip(i + 1));
        }
        if a[i] < b[i] {
            return core::cmp::Ordering::Less;
        }
        if a[i] > b[i] {
            return core::cmp::Ordering::Greater;
        }
        i = i + 1;
    }
    if i < b.len() {
        core::cmp::Ordering::Less
    } else if i < a.len() {
        core::cmp::Ordering::Greater
    } else {
        core::cmp::Ordering::Equal
    }
}

/// Element-for-element equality of two tiebreak vectors.
pub fn tiebreaks_equal(a: &Vec<u8>, b: &Vec<u8>) -> (r: bool)
    ensures
        r == (a@ == b@),
{
    if a.len() != b.len() {
        return false;
    }
    let mut i: usize = 0;
    while i < a.len()
        invariant
            i <= a@.len(),
            a@.len() == b@.len(),
            forall|j: int| 0 <= j < i ==> a@[j] == b@[j],
        decreases a@.len() - i,
    {
        if a[i] != b[i] {
            return false;
        }
        i = i + 1;
    }
    proof {
        assert(a@ =~= b@);
    }
    true
}

/// Three-way comparison of two five-card hands by their evaluation keys;
/// a hand of any other size is refused as `InvalidHandSize`.
pub fn compare_hands(hand1: &Vec<Card>, hand2: &Vec<Card>) -> (r: Result<
    core::cmp::Ordering,
    DealerError,
>)
    ensures
        hand1@.len() == 5 && hand2@.len() == 5 ==> r == Ok::<core::cmp::Ordering, DealerError>(
            hand_cmp(hand1@, hand2@),
        ),
        !(hand1@.len() == 5 && hand2@.len() == 5) ==> r == Err::<core::cmp::Ordering, DealerError>(
            DealerError::InvalidHandSize,
        ),
{
    let k1 = match evaluate_hand(hand1) {
        Ok(k) => k,
        Err(e) => {
            return Err(e);
        },
    };
    let k2 = match evaluate_hand(hand2) {
        Ok(k) => k,
        Err(e) => {
            return Err(e);
        },
    };
    if k1.0 < k2.0 {
        Ok(core::cmp::Ordering::Less)
    } else if k1.0 > k2.0 {
        Ok(core::cmp::Ordering::Greater)
    } else {
        Ok(lex_compare(&k1.1, &k2.1))
    }
}

} // verus!
