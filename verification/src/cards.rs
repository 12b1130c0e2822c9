//! Cards and decks: the 52 card values, the ordered deck and its shuffle.
use vstd::prelude::*;
use crate::random::uniform_inclusive;

verus! {

/// The four suits, in deck order.
#[derive(PartialEq, Eq, Structural, Hash, Debug, Copy, Clone)]
pub enum Suite {
    Diamond,
    Club,
    Heart,
    Spade,
}

impl Suite {
    /// The suit at position `j` of the deck order; every `j` outside
    /// `0..3` stands for the last suit.
    pub open spec fn at(j: int) -> Suite {
        if j == 0 {
            Suite::Diamond
        } else if j == 1 {
            Suite::Club
        } else if j == 2 {
            Suite::Heart
        } else {
            Suite::Spade
        }
    }

    pub fn from_index(j: usize) -> (s: Suite)
        ensures
            s == Suite::at(j as int),
    {
        match j {
            0 => Suite::Diamond,
            1 => Suite::Club,
            2 => Suite::Heart,
            _ => Suite::Spade,
        }
    }
}

/// A playing card. Two cards are the same card exactly when rank and suit
/// agree.
#[derive(PartialEq, Eq, Structural, Hash, Debug, Copy, Clone)]
pub struct Card {
    rank: i32,
    suite: Suite,
}

/// The ordered deck: four suits of rank 1, then four of rank 2, up to
/// rank 13.
pub open spec fn full_deck() -> Seq<Card> {
    Seq::new(52, |i: int| Card::make(i / 4 + 1, Suite::at(i % 4)))
}

/// `a` holds the same cards as `b`, each as often, in some order.
pub open spec fn is_permutation(a: Seq<Card>, b: Seq<Card>) -> bool {
    a.to_multiset() == b.to_multiset()
}

impl Card {
    pub closed spec fn spec_rank(self) -> int {
        self.rank as int
    }

    pub closed spec fn spec_suite(self) -> Suite {
        self.suite
    }

    /// The card of the given rank and suit, for ranks that fit the field.
    pub closed spec fn make(rank: int, suite: Suite) -> Card {
        Card { rank: rank as i32, suite }
    }

    /// A card of the deck: its rank is 1 (ace) to 13 (king).
    pub open spec fn valid(self) -> bool {
        1 <= self.spec_rank() <= 13
    }

    /// `make` builds the card that the accessors describe.
    pub proof fn lemma_make(rank: int, suite: Suite)
        requires
            i32::MIN <= rank <= i32::MAX,
        ensures
            Card::make(rank, suite).spec_rank() == rank,
            Card::make(rank, suite).spec_suite() == suite,
    {
    }

    /// A card is determined by its rank and suit.
    pub proof fn lemma_same_card(self, other: Card)
        ensures
            (self.spec_rank() == other.spec_rank() && self.spec_suite() == other.spec_suite())
                <==> self == other,
            self == Card::make(self.spec_rank(), self.spec_suite()),
    {
    }

    /// The card of this rank and suit, or nothing where the rank is not
    /// one of 1 to 13.
    pub fn new(rank: i32, suite: Suite) -> (card: Option<Card>)
        ensures
            1 <= rank <= 13 ==> card == Some(Card::make(rank as int, suite)),
            !(1 <= rank <= 13) ==> card.is_none(),
    {
        if 1 <= rank && rank <= 13 {
            Some(Card { rank, suite })
        } else {
            None
        }
    }

    pub fn rank(&self) -> (r: i32)
        ensures
            r == self.spec_rank(),
    {
        self.rank
    }

    pub fn suite(&self) -> (s: Suite)
        ensures
            s == self.spec_suite(),
    {
        self.suite
    }

    /// One card drawn at random, independent of any deck: some rank from
    /// 1 to 13 and some suit.
    pub fn random() -> (card: Card)
        ensures
            card.valid(),
    {
        let mut rng = rand::thread_rng();
        let rank = uniform_inclusive(&mut rng, 1, 13);
        let suite = uniform_inclusive(&mut rng, 0, 3);
        Card { rank: rank as i32, suite: Suite::from_index(suite) }
    }

    /// The ordered deck of all 52 cards.
    #[allow(non_snake_case)]
    pub fn newDeck() -> (deck: Vec<Card>)
        ensures
            deck@ == full_deck(),
    {
        let mut vec: Vec<Card> = Vec::new();
        let mut i: i32 = 1;
        while i <= 13
            invariant
                1 <= i <= 14,
                vec@.len() == 4 * (i - 1),
                forall|k: int| 0 <= k < vec@.len() ==> vec@[k] == full_deck()[k],
            decreases 14 - i,
        {
            let mut j: usize = 0;
            while j <= 3
                invariant
                    1 <= i <= 13,
                    0 <= j <= 4,
                    vec@.len() == 4 * (i - 1) + j,
                    forall|k: int| 0 <= k < vec@.len() ==> vec@[k] == full_deck()[k],
                decreases 4 - j,
            {
                vec.push(Card { rank: i, suite: Suite::from_index(j) });
                j += 1;
            }
            i += 1;
        }
        assert(vec@ =~= full_deck());
        vec
    }

    /// Shuffles the deck in place: a walk from the last position down to
    /// position 1 that swaps each position with a random position at or
    /// before it. Whatever the draws, the deck holds the same cards after.
    pub fn shuffle_deck(deck: &mut Vec<Card>)
        ensures
            is_shuffle_of(final(deck)@, old(deck)@),
            is_permutation(final(deck)@, old(deck)@),
            final(deck)@.len() == old(deck)@.len(),
    {
        let n = deck.len();
        let mut draws: Vec<usize> = Vec::new();
        if n >= 2 {
            let mut rng = rand::thread_rng();
            let mut i: usize = n - 1;
            while i >= 1
                invariant
                    i < n,
                    draws@.len() == n - 1 - i,
                    forall|k: int| 0 <= k < draws@.len() ==> draws@[k] <= n - 1 - k,
                decreases i,
            {
                let j = uniform_inclusive(&mut rng, 0, i);
                draws.push(j);
                i -= 1;
            }
        }
        let done = Card::shuffle_with(deck, &draws);
        proof {
            assert(draws_fit(draws@, n as nat));
            assert(deck@ == shuffled_by(old(deck)@, draws@));
            lemma_walk_permutes(old(deck)@, draws@, draws@.len());
        }
    }

    /// The walk of a shuffle with the draws given: `draws` holds, for each
    /// position from the last down to position 1, the position that it
    /// changes places with. Draws that do not fit the deck are refused,
    /// and the deck stays as it is.
    pub fn shuffle_with(deck: &mut Vec<Card>, draws: &Vec<usize>) -> (done: bool)
        ensures
            done == draws_fit(draws@, old(deck)@.len()),
            done ==> final(deck)@ == shuffled_by(old(deck)@, draws@),
            !done ==> final(deck)@ == old(deck)@,
    {
        let n = deck.len();
        if !Card::fits(draws, n) {
            return false;
        }
        let mut k: usize = 0;
        while k < draws.len()
            invariant
                k <= draws@.len(),
                deck@.len() == n,
                n == old(deck)@.len(),
                draws_fit(draws@, n as nat),
                deck@ == walk(old(deck)@, draws@, k as nat),
            decreases draws@.len() - k,
        {
            let i = n - 1 - k;
            let j = draws[k];
            let upper = deck[i];
            let lower = deck[j];
            deck.set(i, lower);
            deck.set(j, upper);
            k += 1;
            assert(deck@ =~= walk(old(deck)@, draws@, k as nat));
        }
        true
    }

    /// Whether the draws fit a deck of `n` cards.
    fn fits(draws: &Vec<usize>, n: usize) -> (fit: bool)
        ensures
            fit == draws_fit(draws@, n as nat),
    {
        let wanted = if n == 0 {
            0
        } else {
            n - 1
        };
        if draws.len() != wanted {
            return false;
        }
        let mut k: usize = 0;
        while k < draws.len()
            invariant
                k <= draws@.len(),
                draws@.len() == wanted,
                n >= 1 ==> wanted == n - 1,
                n == 0 ==> wanted == 0,
                forall|m: int| 0 <= m < k ==> draws@[m] <= n - 1 - m,
            decreases draws@.len() - k,
        {
            if draws[k] > n - 1 - k {
                return false;
            }
            k += 1;
        }
        true
    }
}

/// A sequence of cards with two positions exchanged.
pub open spec fn swapped(s: Seq<Card>, i: int, j: int) -> Seq<Card> {
    s.update(i, s[j]).update(j, s[i])
}

/// Draws that fit the walk over a deck of `n` cards: one draw for each
/// position from the last down to position 1, each a position at or
/// before the one that it is drawn for.
pub open spec fn draws_fit(draws: Seq<usize>, n: nat) -> bool {
    &&& draws.len() == if n == 0 {
        0
    } else {
        n - 1
    }
    &&& forall|k: int| 0 <= k < draws.len() ==> #[trigger] draws[k] <= n - 1 - k
}

/// The deck after the first `k` steps of the walk: step `k` exchanges
/// position `len - k` with the position drawn for it.
pub open spec fn walk(deck: Seq<Card>, draws: Seq<usize>, k: nat) -> Seq<Card>
    decreases k,
{
    if k == 0 {
        deck
    } else {
        swapped(walk(deck, draws, (k - 1) as nat), deck.len() - k, draws[k - 1] as int)
    }
}

/// The deck after the whole walk with the draws given.
pub open spec fn shuffled_by(deck: Seq<Card>, draws: Seq<usize>) -> Seq<Card> {
    walk(deck, draws, draws.len())
}

/// `after` is what the walk makes of `before` under some draws that fit.
pub open spec fn is_shuffle_of(after: Seq<Card>, before: Seq<Card>) -> bool {
    exists|draws: Seq<usize>| draws_fit(draws, before.len()) && after == shuffled_by(before, draws)
}

/// Whatever the draws, the walk keeps the cards of the deck: each card as
/// often as before, none lost and none new.
pub proof fn lemma_walk_permutes(deck: Seq<Card>, draws: Seq<usize>, k: nat)
    requires
        draws_fit(draws, deck.len()),
        k <= draws.len(),
    ensures
        walk(deck, draws, k).len() == deck.len(),
        is_permutation(walk(deck, draws, k), deck),
    decreases k,
{
    if k > 0 {
        lemma_walk_permutes(deck, draws, (k - 1) as nat);
        let before = walk(deck, draws, (k - 1) as nat);
        assert(draws[k - 1] <= deck.len() - 1 - (k - 1));
        lemma_swap_permutes(before, deck.len() - k, draws[k - 1] as int);
    }
}

/// A shuffled deck holds the cards that it held before.
pub proof fn lemma_shuffle_permutes(after: Seq<Card>, before: Seq<Card>)
    requires
        is_shuffle_of(after, before),
    ensures
        after.len() == before.len(),
        is_permutation(after, before),
{
    let draws = choose|draws: Seq<usize>|
        draws_fit(draws, before.len()) && after == shuffled_by(before, draws);
    lemma_walk_permutes(before, draws, draws.len());
}

/// Exchanging two positions of a sequence of cards keeps its cards.
pub proof fn lemma_swap_permutes(s: Seq<Card>, i: int, j: int)
    requires
        0 <= i < s.len(),
        0 <= j < s.len(),
    ensures
        is_permutation(s.update(i, s[j]).update(j, s[i]), s),
{
    broadcast use vstd::multiset::group_multiset_axioms;

    let mid = s.update(i, s[j]);
    vstd::seq_lib::to_multiset_update(s, i, s[j]);
    vstd::seq_lib::to_multiset_update(mid, j, s[i]);
    vstd::seq_lib::to_multiset_contains(s, s[i]);
    vstd::seq_lib::to_multiset_contains(s, s[j]);
    assert(mid.update(j, s[i]).to_multiset() =~= s.to_multiset());
}

/// The ordered deck holds 52 cards of the deck, no card twice.
pub proof fn lemma_full_deck()
    ensures
        full_deck().len() == 52,
        full_deck().no_duplicates(),
        forall|i: int| 0 <= i < 52 ==> (#[trigger] full_deck()[i]).valid(),
        forall|i: int|
            0 <= i < 52 ==> (#[trigger] full_deck()[i]).spec_rank() == i / 4 + 1
                && full_deck()[i].spec_suite() == Suite::at(i % 4),
{
    assert forall|i: int, j: int| 0 <= i < 52 && 0 <= j < 52 && i != j implies full_deck()[i]
        != full_deck()[j] by {
        if i / 4 == j / 4 {
            assert(i % 4 != j % 4);
        }
    }
}

/// A shuffled full deck holds exactly 52 cards, every card of the ordered
/// deck once and no other.
pub proof fn lemma_shuffled_deck(deck: Seq<Card>)
    requires
        is_permutation(deck, full_deck()),
    ensures
        deck.len() == 52,
        deck.no_duplicates(),
        forall|c: Card| deck.contains(c) <==> full_deck().contains(c),
{
    lemma_full_deck();
    vstd::seq_lib::to_multiset_len(deck);
    vstd::seq_lib::to_multiset_len(full_deck());
    full_deck().lemma_multiset_has_no_duplicates();
    deck.lemma_multiset_has_no_duplicates_conv();
    assert forall|c: Card| deck.contains(c) <==> full_deck().contains(c) by {
        vstd::seq_lib::to_multiset_contains(deck, c);
        vstd::seq_lib::to_multiset_contains(full_deck(), c);
    }
}

} // verus!
