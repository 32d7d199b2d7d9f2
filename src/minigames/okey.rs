//! A solitaire card game. Cards `0..24` have a colour `card / 8` and a
//! number `card % 8`. The machine draws unseen cards onto a board of at most
//! five; the player then plays three board cards as a combination, which
//! scores, or discards one.
//!
//! Actions `0..10` play the combinations of `ALL_COMBINATIONS`; action
//! `10 + i` discards the board card at position `i`. When it is the
//! machine's turn, action `c` draws card `c`.
use crate::mcts::Environment;
use crate::moves::{lemma_upto, upto};
use vstd::prelude::*;

verus! {

pub const COLORS: u8 = 3;

pub const NUMBERS: u8 = 8;

pub const TOTAL_CARDS: u8 = 24;

/// The unseen-card mask of a full deck.
pub const FULL_DECK: u32 = 0x00ff_ffff;

/// Positions of three board cards, in increasing order.
pub type Combination = (u8, u8, u8);

/// The ten combinations of three positions among five, in lexicographic
/// order.
pub open spec fn combination_spec(index: int) -> Combination {
    if index == 0 {
        (0, 1, 2)
    } else if index == 1 {
        (0, 1, 3)
    } else if index == 2 {
        (0, 1, 4)
    } else if index == 3 {
        (0, 2, 3)
    } else if index == 4 {
        (0, 2, 4)
    } else if index == 5 {
        (0, 3, 4)
    } else if index == 6 {
        (1, 2, 3)
    } else if index == 7 {
        (1, 2, 4)
    } else if index == 8 {
        (1, 3, 4)
    } else {
        (2, 3, 4)
    }
}

fn combination_at(index: u8) -> (r: Combination)
    requires
        index < 10,
    ensures
        r == combination_spec(index as int),
{
    if index == 0 {
        (0, 1, 2)
    } else if index == 1 {
        (0, 1, 3)
    } else if index == 2 {
        (0, 1, 4)
    } else if index == 3 {
        (0, 2, 3)
    } else if index == 4 {
        (0, 2, 4)
    } else if index == 5 {
        (0, 3, 4)
    } else if index == 6 {
        (1, 2, 3)
    } else if index == 7 {
        (1, 2, 4)
    } else if index == 8 {
        (1, 3, 4)
    } else {
        (2, 3, 4)
    }
}

/// Whose turn it is.
#[derive(Clone, Copy, PartialEq, Eq, Debug, Structural)]
pub enum Agents {
    Machine,
    Human,
}

/// The score of three cards: ten times one more than their number when
/// all numbers agree; otherwise ten times the smallest number, with 40 more
/// when all colours agree.
pub open spec fn score_of(a: u8, b: u8, c: u8) -> int {
    let (x, y, z) = (a % NUMBERS, b % NUMBERS, c % NUMBERS);
    if x == y && y == z {
        (x + 1) * 10
    } else {
        let low = if x <= y && x <= z {
            x
        } else if y <= z {
            y
        } else {
            z
        };
        low * 10 + if a / NUMBERS == b / NUMBERS && b / NUMBERS == c / NUMBERS {
            40int
        } else {
            0int
        }
    }
}

/// Three cards of equal numbers, or of consecutive numbers in order.
pub open spec fn playable(a: u8, b: u8, c: u8) -> bool {
    let (x, y, z) = (a % NUMBERS, b % NUMBERS, c % NUMBERS);
    (x == y && y == z) || (x + 1 == y && y + 1 == z)
}

/// Combination `index` names board positions and plays playable cards.
pub open spec fn combination_ok(board: Seq<u8>, index: u8) -> bool {
    let (i, j, k) = combination_spec(index as int);
    &&& (k as int) < board.len()
    &&& playable(board[i as int], board[j as int], board[k as int])
}

/// Card `c` is unseen in `deck`.
pub open spec fn card_bit(deck: u32, c: u8) -> bool {
    deck & (1u32 << c) != 0
}

proof fn lemma_some_card(deck: u32)
    requires
        deck & FULL_DECK != 0,
    ensures
        exists|c: u8| c < TOTAL_CARDS && #[trigger] card_bit(deck, c),
{
    if !card_bit(deck, 0) && !card_bit(deck, 1) && !card_bit(deck, 2) && !card_bit(deck, 3) && !card_bit(deck, 4) && !card_bit(deck, 5) && !card_bit(deck, 6) && !card_bit(deck, 7) && !card_bit(deck, 8) && !card_bit(deck, 9) && !card_bit(deck, 10) && !card_bit(deck, 11) && !card_bit(deck, 12) && !card_bit(deck, 13) && !card_bit(deck, 14) && !card_bit(deck, 15) && !card_bit(deck, 16) && !card_bit(deck, 17) && !card_bit(deck, 18) && !card_bit(deck, 19) && !card_bit(deck, 20) && !card_bit(deck, 21) && !card_bit(deck, 22) && !card_bit(deck, 23) {
        assert(false) by (bit_vector)
            requires
                deck & 0x00ff_ffffu32 != 0,
            deck & (1u32 << 0u32) == 0,
            deck & (1u32 << 1u32) == 0,
            deck & (1u32 << 2u32) == 0,
            deck & (1u32 << 3u32) == 0,
            deck & (1u32 << 4u32) == 0,
            deck & (1u32 << 5u32) == 0,
            deck & (1u32 << 6u32) == 0,
            deck & (1u32 << 7u32) == 0,
            deck & (1u32 << 8u32) == 0,
            deck & (1u32 << 9u32) == 0,
            deck & (1u32 << 10u32) == 0,
            deck & (1u32 << 11u32) == 0,
            deck & (1u32 << 12u32) == 0,
            deck & (1u32 << 13u32) == 0,
            deck & (1u32 << 14u32) == 0,
            deck & (1u32 << 15u32) == 0,
            deck & (1u32 << 16u32) == 0,
            deck & (1u32 << 17u32) == 0,
            deck & (1u32 << 18u32) == 0,
            deck & (1u32 << 19u32) == 0,
            deck & (1u32 << 20u32) == 0,
            deck & (1u32 << 21u32) == 0,
            deck & (1u32 << 22u32) == 0,
            deck & (1u32 << 23u32) == 0,
        ;
    }
}

/// The discard actions of a board of `len` cards (a board never holds
/// more than five; actions stop at 255).
pub open spec fn discards(len: nat) -> Seq<u8> {
    Seq::new(if len <= 246 { len } else { 246 }, |i: int| (10 + i) as u8)
}

/// The board cards with number `n`, in board order.
pub open spec fn with_number(s: Seq<u8>, n: u8) -> Seq<u8>
    decreases s.len(),
{
    if s.len() == 0 {
        s
    } else {
        let sub = with_number(s.drop_last(), n);
        if s.last() % NUMBERS == n {
            sub.push(s.last())
        } else {
            sub
        }
    }
}

/// The cards of `s` with number below `k`, ordered by number, and by their
/// order in `s` among equal numbers.
pub open spec fn by_number(s: Seq<u8>, k: nat) -> Seq<u8>
    decreases k,
{
    if k == 0 {
        Seq::empty()
    } else {
        by_number(s, (k - 1) as nat) + with_number(s, (k - 1) as u8)
    }
}

/// The numbers of `s` never decrease.
pub open spec fn sorted_by_number(s: Seq<u8>) -> bool {
    forall|i: int, j: int| 0 <= i < j < s.len() ==> s[i] % NUMBERS <= s[j] % NUMBERS
}

proof fn lemma_with_number(s: Seq<u8>, n: u8)
    ensures
        forall|i: int| 0 <= i < with_number(s, n).len() ==> #[trigger] with_number(s, n)[i] % NUMBERS == n,
    decreases s.len(),
{
    if s.len() > 0 {
        lemma_with_number(s.drop_last(), n);
        let sub = with_number(s.drop_last(), n);
        let r = with_number(s, n);
        assert forall|i: int| 0 <= i < r.len() implies #[trigger] r[i] % NUMBERS == n by {
            if i < sub.len() {
                assert(r[i] == sub[i]);
            }
        }
    }
}

proof fn lemma_by_number_sorted(s: Seq<u8>, k: nat)
    requires
        k <= 8,
    ensures
        sorted_by_number(by_number(s, k)),
        forall|i: int| 0 <= i < by_number(s, k).len() ==> #[trigger] by_number(s, k)[i] % NUMBERS < k,
    decreases k,
{
    if k > 0 {
        let m = (k - 1) as nat;
        lemma_by_number_sorted(s, m);
        lemma_with_number(s, m as u8);
        let a = by_number(s, m);
        let b = with_number(s, m as u8);
        let r = by_number(s, k);
        assert(r == a + b);
        assert forall|i: int| 0 <= i < r.len() implies #[trigger] r[i] % NUMBERS < k by {
            if i >= a.len() {
                assert(r[i] == b[i - a.len()]);
            }
        }
        assert forall|i: int, j: int| 0 <= i < j < r.len() implies r[i] % NUMBERS <= r[j] % NUMBERS by {
            if j < a.len() {
                assert(r[i] == a[i] && r[j] == a[j]);
            } else if i >= a.len() {
                assert(r[i] == b[i - a.len()] && r[j] == b[j - a.len()]);
            } else {
                assert(r[i] == a[i] && r[j] == b[j - a.len()]);
            }
        }
    }
}

/// `s` after `Vec::swap_remove(i)`.
pub open spec fn swap_removed(s: Seq<u8>, i: int) -> Seq<u8> {
    s.update(i, s.last()).drop_last()
}

proof fn lemma_by_number_push(s: Seq<u8>, x: u8, k: nat)
    requires
        k <= 8,
    ensures
        by_number(s.push(x), k).len() == by_number(s, k).len() + if x % NUMBERS < k {
            1int
        } else {
            0int
        },
    decreases k,
{
    if k > 0 {
        lemma_by_number_push(s, x, (k - 1) as nat);
        assert(s.push(x).drop_last() =~= s);
    }
}

proof fn lemma_by_number_len(s: Seq<u8>)
    ensures
        by_number(s, 8).len() == s.len(),
    decreases s.len(),
{
    if s.len() == 0 {
        assert(with_number(s, 0).len() == 0);
        reveal_with_fuel(by_number, 9);
    } else {
        lemma_by_number_len(s.drop_last());
        lemma_by_number_push(s.drop_last(), s.last(), 8);
        assert(s.drop_last().push(s.last()) =~= s);
    }
}

/// The cards of `board` ordered by number, keeping their order among equal
/// numbers.
fn sort_by_number(board: &Vec<u8>) -> (r: Vec<u8>)
    ensures
        r@ == by_number(board@, 8),
        r@.len() == board@.len(),
{
    let mut r: Vec<u8> = Vec::new();
    let mut n: u8 = 0;
    while n < NUMBERS
        invariant
            n <= NUMBERS,
            r@ == by_number(board@, n as nat),
        decreases NUMBERS - n,
    {
        let mut i: usize = 0;
        while i < board.len()
            invariant
                n < NUMBERS,
                i <= board@.len(),
                r@ == by_number(board@, n as nat) + with_number(board@.take(i as int), n),
            decreases board@.len() - i,
        {
            assert(board@.take(i + 1).drop_last() =~= board@.take(i as int));
            if board[i] % NUMBERS == n {
                r.push(board[i]);
                assert(r@ =~= by_number(board@, n as nat) + with_number(board@.take(i + 1), n));
            }
            i = i + 1;
        }
        assert(board@.take(board@.len() as int) =~= board@);
        n = n + 1;
    }
    proof {
        lemma_by_number_len(board@);
    }
    r
}

fn copy_cards(v: &Vec<u8>) -> (r: Vec<u8>)
    ensures
        r@ == v@,
{
    let mut r: Vec<u8> = Vec::new();
    let mut i: usize = 0;
    while i < v.len()
        invariant
            i <= v@.len(),
            r@ == v@.take(i as int),
        decreases v@.len() - i,
    {
        r.push(v[i]);
        i = i + 1;
        assert(r@ =~= v@.take(i as int));
    }
    assert(v@.take(v@.len() as int) =~= v@);
    r
}

/// Relies on `rand::Rng::gen::<u8>` on `rand::thread_rng`: any byte.
#[verifier::external_body]
fn random_byte() -> (r: u8) {
    rand::Rng::gen::<u8>(&mut rand::thread_rng())
}

/// A position: the unseen cards as a mask, the board in order, whose turn
/// it is, and the score so far.
#[derive(Debug)]
pub struct Okey {
    deck: u32,
    board: Vec<u8>,
    agent: Agents,
    score: u16,
}

impl Okey {
    /// The machine moves only while there is a card to draw and room on the
    /// board; the player moves otherwise.
    #[verifier::type_invariant]
    spec fn turns_ok(&self) -> bool {
        &&& self.board@.len() <= 5
        &&& self.agent == Agents::Machine ==> self.deck & FULL_DECK != 0 && self.board@.len() < 5
        &&& self.agent == Agents::Human ==> self.deck & FULL_DECK == 0 || self.board@.len() == 5
    }

    pub closed spec fn deck_spec(&self) -> u32 {
        self.deck
    }

    pub closed spec fn board_spec(&self) -> Seq<u8> {
        self.board@
    }

    pub closed spec fn agent_spec(&self) -> Agents {
        self.agent
    }

    pub closed spec fn score_spec(&self) -> u16 {
        self.score
    }

    /// Cards the machine may draw.
    pub open spec fn drawable(&self) -> spec_fn(u8) -> bool {
        |c: u8| card_bit(self.deck_spec(), c)
    }

    /// Combinations the player may play.
    pub open spec fn playable_combinations(&self) -> spec_fn(u8) -> bool {
        |k: u8| combination_ok(self.board_spec(), k)
    }

    /// The legal actions, in increasing order.
    pub open spec fn legal_spec(&self) -> Seq<u8> {
        if self.agent_spec() == Agents::Machine {
            upto(self.drawable(), TOTAL_CARDS as nat)
        } else {
            upto(self.playable_combinations(), 10) + discards(self.board_spec().len())
        }
    }

    /// The deck after `action`.
    pub open spec fn played_deck(&self, action: u8) -> u32 {
        if self.agent_spec() == Agents::Machine {
            self.deck_spec() & !(1u32 << action)
        } else {
            self.deck_spec()
        }
    }

    /// The board after `action`: a drawn card goes last; after the player's
    /// move the board is ordered by number.
    pub open spec fn played_board(&self, action: u8) -> Seq<u8> {
        let b = self.board_spec();
        if self.agent_spec() == Agents::Machine {
            b.push(action)
        } else if action <= 9 {
            let (i, j, k) = combination_spec(action as int);
            by_number(swap_removed(swap_removed(swap_removed(b, k as int), j as int), i as int), 8)
        } else {
            by_number(swap_removed(b, (action % 10) as int), 8)
        }
    }

    /// The score after `action`, saturated at `u16::MAX`.
    pub open spec fn played_score(&self, action: u8) -> u16 {
        let b = self.board_spec();
        if self.agent_spec() == Agents::Human && action <= 9 {
            let (i, j, k) = combination_spec(action as int);
            let total = self.score_spec() + score_of(b[i as int], b[j as int], b[k as int]);
            if total > u16::MAX {
                u16::MAX
            } else {
                total as u16
            }
        } else {
            self.score_spec()
        }
    }

    proof fn lemma_legal_no_duplicates(&self)
        ensures
            self.legal_spec().no_duplicates(),
    {
        let l = self.legal_spec();
        if self.agent_spec() == Agents::Machine {
            lemma_upto(self.drawable(), TOTAL_CARDS as nat);
        } else {
            let p = upto(self.playable_combinations(), 10);
            lemma_upto(self.playable_combinations(), 10);
            assert forall|i: int, k: int| 0 <= i < l.len() && 0 <= k < l.len() && i != k implies l[i] != l[k] by {
                if i < p.len() && k < p.len() {
                    assert(p[i] == l[i] && p[k] == l[k]);
                    if i > k {
                        assert(p[k] < p[i]);
                    }
                } else if i >= p.len() && k >= p.len() {
                } else if i < p.len() {
                    assert(p[i] < 10);
                } else {
                    assert(p[k] < 10);
                }
            }
        }
    }

    proof fn lemma_legal(&self)
        requires
            self.turns_ok(),
        ensures
            self.legal_spec().no_duplicates(),
            forall|a: u8| #[trigger] self.legal_spec().contains(a) ==> if self.agent_spec() == Agents::Machine {
                a < TOTAL_CARDS && card_bit(self.deck_spec(), a)
            } else if a <= 9 {
                combination_ok(self.board_spec(), a)
            } else {
                (a - 10) < self.board_spec().len()
            },
            !(self.deck_spec() & FULL_DECK == 0 && self.board_spec().len() == 0) ==> self.legal_spec().len() > 0,
    {
        self.lemma_legal_no_duplicates();
        let l = self.legal_spec();
        if self.agent_spec() == Agents::Machine {
            lemma_upto(self.drawable(), TOTAL_CARDS as nat);
            lemma_some_card(self.deck_spec());
            let c = choose|c: u8| c < TOTAL_CARDS && #[trigger] card_bit(self.deck_spec(), c);
            assert((self.drawable())(c));
            assert(l.contains(c));
            assert forall|a: u8| #[trigger] l.contains(a) implies a < TOTAL_CARDS && card_bit(self.deck_spec(), a) by {
                assert((self.drawable())(a));
            }
        } else {
            let p = upto(self.playable_combinations(), 10);
            let d = discards(self.board_spec().len());
            lemma_upto(self.playable_combinations(), 10);
            assert forall|a: u8| #[trigger] l.contains(a) implies if a <= 9 {
                combination_ok(self.board_spec(), a)
            } else {
                (a - 10) < self.board_spec().len()
            } by {
                let i = choose|i: int| 0 <= i < l.len() && l[i] == a;
                if i < p.len() {
                    assert(p[i] == a);
                    assert(p.contains(a));
                    assert((self.playable_combinations())(a));
                } else {
                    assert(d[i - p.len()] == a);
                    assert(a >= 10);
                }
            }
            if self.board_spec().len() > 0 {
                assert(l[p.len() as int] == d[0]);
            }
        }
    }

    /// The agent to move once the deck and the board are as given.
    pub open spec fn next_agent(deck: u32, board: Seq<u8>) -> Agents {
        if deck & FULL_DECK != 0 && board.len() != 5 {
            Agents::Machine
        } else {
            Agents::Human
        }
    }

    /// A full deck, an empty board, the machine to move, no score.
    pub fn new() -> (r: Self)
        ensures
            r.deck_spec() == FULL_DECK,
            r.board_spec().len() == 0,
            r.agent_spec() == Agents::Machine,
            r.score_spec() == 0,
    {
        assert(FULL_DECK & FULL_DECK != 0) by (bit_vector);
        Self { deck: FULL_DECK, board: Vec::with_capacity(5), agent: Agents::Machine, score: 0 }
    }

    pub fn deck(&self) -> (r: u32)
        ensures
            r == self.deck_spec(),
    {
        self.deck
    }

    pub fn board(&self) -> (r: &Vec<u8>)
        ensures
            r@ == self.board_spec(),
    {
        &self.board
    }

    pub fn agent(&self) -> (r: Agents)
        ensures
            r == self.agent_spec(),
    {
        self.agent
    }

    pub fn score(&self) -> (r: u16)
        ensures
            r == self.score_spec(),
    {
        self.score
    }

    pub fn has_finished(&self) -> (r: bool)
        ensures
            r == (self.deck_spec() & FULL_DECK == 0 && self.board_spec().len() == 0),
    {
        (self.deck & FULL_DECK) == 0 && self.board.len() == 0
    }

    /// 1 once the score reaches 400, 0 before.
    pub fn eval(&self) -> (r: i32)
        ensures
            r == if self.score_spec() >= 400 {
                1i32
            } else {
                0i32
            },
    {
        if self.score >= 400 {
            1
        } else {
            0
        }
    }

    /// The legal actions in increasing order: the unseen cards when the
    /// machine moves; the playable combinations, then the discards, when the
    /// player moves.
    pub fn legal_actions(&self) -> (r: Vec<u8>)
        ensures
            r@ == self.legal_spec(),
    {
        let mut legal_actions: Vec<u8> = Vec::new();
        match self.agent {
            Agents::Machine => {
                let mut i: u8 = 0;
                while i < TOTAL_CARDS
                    invariant
                        i <= TOTAL_CARDS,
                        self.agent_spec() == Agents::Machine,
                        legal_actions@ == upto(self.drawable(), i as nat),
                    decreases TOTAL_CARDS - i,
                {
                    if (self.deck & (1u32 << i)) != 0 {
                        legal_actions.push(i);
                    }
                    i = i + 1;
                }
            },
            Agents::Human => {
                let mut k: u8 = 0;
                while k < 10
                    invariant
                        k <= 10,
                        legal_actions@ == upto(self.playable_combinations(), k as nat),
                    decreases 10 - k,
                {
                    let combination = combination_at(k);
                    let len = self.board.len();
                    if len > combination.0 as usize && len > combination.1 as usize && len
                        > combination.2 as usize {
                        let cards: (u8, u8, u8) = (
                            self.board[combination.0 as usize],
                            self.board[combination.1 as usize],
                            self.board[combination.2 as usize],
                        );
                        let same_number = cards.0 % NUMBERS == cards.1 % NUMBERS && cards.1 % NUMBERS
                            == cards.2 % NUMBERS;
                        let stair = cards.0 % NUMBERS + 1 == cards.1 % NUMBERS && cards.1 % NUMBERS + 1
                            == cards.2 % NUMBERS;
                        if same_number || stair {
                            legal_actions.push(k);
                        }
                    }
                    k = k + 1;
                }
                let ghost combos = legal_actions@;
                proof {
                    use_type_invariant(self);
                }
                let mut board_index: usize = 0;
                while board_index < self.board.len()
                    invariant
                        board_index <= self.board@.len(),
                        self.board@.len() <= 5,
                        combos == upto(self.playable_combinations(), 10),
                        legal_actions@ == combos + discards(board_index as nat),
                    decreases self.board@.len() - board_index,
                {
                    legal_actions.push(10 + board_index as u8);
                    board_index = board_index + 1;
                    assert(legal_actions@ =~= combos + discards(board_index as nat));
                }
            },
        }
        legal_actions
    }

    /// Applies a legal action: the machine draws the card; the player plays
    /// the combination, adding its score, or discards the card, and the
    /// board is then ordered by number. The machine moves next while a card
    /// is unseen and the board holds fewer than five.
    pub fn perform_action(&mut self, action: u8)
        requires
            old(self).legal_spec().contains(action),
        ensures
            final(self).deck_spec() == old(self).played_deck(action),
            final(self).board_spec() == old(self).played_board(action),
            final(self).score_spec() == old(self).played_score(action),
            final(self).agent_spec() == Okey::next_agent(final(self).deck_spec(), final(self).board_spec()),
    {
        proof {
            use_type_invariant(&*self);
            self.lemma_legal();
        }
        let mut deck = self.deck;
        let mut board = copy_cards(&self.board);
        let mut score = self.score;
        match self.agent {
            Agents::Machine => {
                deck = deck & !(1u32 << action);
                board.push(action);
            },
            Agents::Human => {
                if action <= 9 {
                    let combination = combination_at(action);
                    let gained = self.compute_score(combination);
                    score = score.saturating_add(gained as u16);
                    // Highest position first, so that the others stay put.
                    board.swap_remove(combination.2 as usize);
                    board.swap_remove(combination.1 as usize);
                    board.swap_remove(combination.0 as usize);
                } else {
                    board.swap_remove((action % 10) as usize);
                }
                board = sort_by_number(&board);
            },
        }
        let board_full = board.len() == 5;
        let deck_empty = (deck & FULL_DECK) == 0;
        let agent = if !deck_empty && !board_full {
            Agents::Machine
        } else {
            Agents::Human
        };
        *self = Okey { deck, board, agent, score };
    }

    /// The machine draws random unseen cards until the board is full or the
    /// deck is empty, and the board is then ordered by number. Nothing
    /// happens when the deck is empty.
    pub fn draw(&mut self)
        requires
            old(self).deck_spec() & FULL_DECK == 0 || old(self).agent_spec() == Agents::Machine,
        ensures
            old(self).deck_spec() & FULL_DECK == 0 ==> final(self).deck_spec() == old(self).deck_spec()
                && final(self).board_spec() == old(self).board_spec() && final(self).agent_spec()
                == old(self).agent_spec(),
            old(self).deck_spec() & FULL_DECK != 0 ==> final(self).agent_spec() == Agents::Human
                && sorted_by_number(final(self).board_spec()),
            final(self).score_spec() == old(self).score_spec(),
    {
        if (self.deck & FULL_DECK) == 0 {
            return;
        }
        while !self.has_finished() && self.agent == Agents::Machine
            invariant
                self.score_spec() == old(self).score_spec(),
            decreases 5 - self.board_spec().len(),
        {
            proof {
                use_type_invariant(&*self);
                self.lemma_legal();
            }
            let legal_actions = self.legal_actions();
            let action_index = (random_byte() as usize) % legal_actions.len();
            let action = legal_actions[action_index];
            proof {
                assert(self.legal_spec()[action_index as int] == action);
            }
            self.perform_action(action);
            proof {
                use_type_invariant(&*self);
            }
        }
        proof {
            use_type_invariant(&*self);
        }
        let sorted = sort_by_number(&self.board);
        proof {
            lemma_by_number_sorted(self.board@, 8);
        }
        *self = Okey { deck: self.deck, board: sorted, agent: self.agent, score: self.score };
    }

    /// The score of playing `combination` on the current board.
    pub fn compute_score(&self, combination: Combination) -> (r: u8)
        requires
            (combination.0 as int) < self.board_spec().len(),
            (combination.1 as int) < self.board_spec().len(),
            (combination.2 as int) < self.board_spec().len(),
        ensures
            r as int == score_of(
                self.board_spec()[combination.0 as int],
                self.board_spec()[combination.1 as int],
                self.board_spec()[combination.2 as int],
            ),
    {
        let cards: (u8, u8, u8) = (
            self.board[combination.0 as usize],
            self.board[combination.1 as usize],
            self.board[combination.2 as usize],
        );
        if cards.0 % NUMBERS == cards.1 % NUMBERS && cards.1 % NUMBERS == cards.2 % NUMBERS {
            return ((cards.0 % NUMBERS) + 1) * 10;
        }
        let a = cards.0 % NUMBERS;
        let b = cards.1 % NUMBERS;
        let c = cards.2 % NUMBERS;
        let low = if a <= b && a <= c {
            a
        } else if b <= c {
            b
        } else {
            c
        };
        let mut score = low * 10;
        if cards.0 / NUMBERS == cards.1 / NUMBERS && cards.1 / NUMBERS == cards.2 / NUMBERS {
            score = score + 40;
        }
        score
    }
}

impl Environment for Okey {
    type Action = u8;

    closed spec fn finished(&self) -> bool {
        self.deck & FULL_DECK == 0 && self.board@.len() == 0
    }

    closed spec fn legal(&self) -> Seq<u8> {
        self.legal_spec()
    }

    closed spec fn reward(&self) -> i32 {
        if self.score >= 400 {
            1
        } else {
            0
        }
    }

    closed spec fn moves_to(&self, action: u8, next: Okey) -> bool {
        &&& next.deck_spec() == self.played_deck(action)
        &&& next.board_spec() == self.played_board(action)
        &&& next.score_spec() == self.played_score(action)
        &&& next.agent_spec() == Okey::next_agent(next.deck_spec(), next.board_spec())
    }

    proof fn lemma_legal_distinct(&self) {
        self.lemma_legal_no_duplicates();
    }

    fn has_finished(&self) -> (r: bool) {
        Okey::has_finished(self)
    }

    fn perform_action(&mut self, action: u8) {
        Okey::perform_action(self, action);
    }

    fn legal_actions(&self) -> (r: Vec<u8>) {
        proof {
            use_type_invariant(self);
            self.lemma_legal();
        }
        Okey::legal_actions(self)
    }

    fn eval(&self) -> (r: i32) {
        Okey::eval(self)
    }
}

impl Clone for Okey {
    fn clone(&self) -> (r: Self)
        ensures
            r.deck_spec() == self.deck_spec(),
            r.board_spec() == self.board_spec(),
            r.agent_spec() == self.agent_spec(),
            r.score_spec() == self.score_spec(),
    {
        proof {
            use_type_invariant(self);
        }
        Okey { deck: self.deck, board: copy_cards(&self.board), agent: self.agent, score: self.score }
    }
}

} // verus!
