use enum_vec::enum_set::EnumSet;
use enum_vec::radix::{from_discr_body, to_discr_body};
use enum_vec::{EnumLike, EnumValues};

#[derive(Copy, Clone, Debug, PartialEq, Eq)]
enum ABC {
    A,
    B,
    C,
}

impl EnumLike for ABC {
    const NUM_VARIANTS: usize = 3;
    fn to_discr(self) -> usize {
        match self {
            ABC::A => 0,
            ABC::B => 1,
            ABC::C => 2,
        }
    }
    fn from_discr(x: usize) -> Self {
        match x {
            0 => ABC::A,
            1 => ABC::B,
            2 => ABC::C,
            _ => panic!("Enum ABC has no variant {}", x),
        }
    }
}

#[test]
fn create() {
    let mut e = EnumSet::new();
    assert_eq!(e.contains(ABC::A), false);
    assert_eq!(e.insert(ABC::A), true);
    assert_eq!(e.insert(ABC::A), false);
    assert_eq!(e.contains(ABC::A), true);
    assert_eq!(e.remove(ABC::A), true);
    assert_eq!(e.remove(ABC::A), false);
    assert_eq!(e.contains(ABC::A), false);
}

#[derive(Copy, Clone, Debug, PartialEq, Eq)]
enum Suit {
    Hearts,
    Spades,
    Clubs,
    Diamonds,
}

impl EnumLike for Suit {
    const NUM_VARIANTS: usize = 4;
    fn to_discr(self) -> usize {
        match self {
            Suit::Hearts => 0,
            Suit::Spades => 1,
            Suit::Clubs => 2,
            Suit::Diamonds => 3,
        }
    }
    fn from_discr(x: usize) -> Self {
        match x {
            0 => Suit::Hearts,
            1 => Suit::Spades,
            2 => Suit::Clubs,
            3 => Suit::Diamonds,
            _ => unreachable!(),
        }
    }
}

#[derive(Copy, Clone, Debug, PartialEq, Eq)]
enum Rank {
    N2,
    N3,
    N4,
    N5,
    N6,
    N7,
    N8,
    N9,
    N10,
    J,
    Q,
    K,
    A,
}

const RANKS: [Rank; 13] = [
    Rank::N2,
    Rank::N3,
    Rank::N4,
    Rank::N5,
    Rank::N6,
    Rank::N7,
    Rank::N8,
    Rank::N9,
    Rank::N10,
    Rank::J,
    Rank::Q,
    Rank::K,
    Rank::A,
];

impl EnumLike for Rank {
    const NUM_VARIANTS: usize = 13;
    fn to_discr(self) -> usize {
        RANKS.iter().position(|r| *r == self).unwrap()
    }
    fn from_discr(x: usize) -> Self {
        RANKS[x]
    }
}

#[derive(Copy, Clone, Debug, PartialEq, Eq)]
struct Card {
    number: Rank,
    suit: Suit,
}

impl EnumLike for Card {
    const NUM_VARIANTS: usize = Rank::NUM_VARIANTS * Suit::NUM_VARIANTS;
    fn to_discr(self) -> usize {
        to_discr_body(
            &[Rank::NUM_VARIANTS, Suit::NUM_VARIANTS],
            &[self.number.to_discr(), self.suit.to_discr()],
            0,
        )
    }
    fn from_discr(x: usize) -> Self {
        let d = from_discr_body(&[Rank::NUM_VARIANTS, Suit::NUM_VARIANTS], x);
        Card { number: Rank::from_discr(d[0]), suit: Suit::from_discr(d[1]) }
    }
}

fn full_deck() -> Vec<Card> {
    let mut deck = Vec::new();
    let mut values = Card::values();
    while let Some(card) = values.next() {
        deck.push(card);
    }
    deck
}

#[test]
fn card_deck_game() {
    // Generate one deck of cards
    let mut deck: Vec<Card> = full_deck();
    let mut eall = EnumSet::new();
    for &x in &deck {
        eall.insert(x);
    }
    // eall is the set which contains all the cards

    let mut e1 = EnumSet::new();
    let mut e2 = EnumSet::new();
    let mut e3 = EnumSet::new();
    let mut e4 = EnumSet::new();

    // "Randomly" deal one card to each player until the deck is empty
    let seed = 18917;
    while !deck.is_empty() {
        let random_number = seed % deck.len();
        e1.insert(deck.remove(random_number));
        let random_number = seed % deck.len();
        e2.insert(deck.remove(random_number));
        let random_number = seed % deck.len();
        e3.insert(deck.remove(random_number));
        let random_number = seed % deck.len();
        e4.insert(deck.remove(random_number));
    }

    // There are 4*13 cards, so each player must have gotten 13
    assert_eq!(eall.len(), 4 * 13);
    assert_eq!(e1.len(), 13);
    assert_eq!(e2.len(), 13);
    assert_eq!(e3.len(), 13);
    assert_eq!(e4.len(), 13);

    // Now each player has a unique set of cards, and the union of their cards
    // must be the full set
    let mut e = e1.clone();
    e.union_with(&e2);
    e.union_with(&e3);
    e.union_with(&e4);
    assert_eq!(e, eall);

    // Let's see... who got the 2 of Hearts?
    let card = Card { number: Rank::N2, suit: Suit::Hearts };
    assert_eq!(e1.contains(card), false); // Not you
    assert_eq!(e2.contains(card), false); // Nope
    assert_eq!(e3.contains(card), false); // No
    assert_eq!(e4.contains(card), true); // Yes!

    // Now it turns out we got another deck, but this one is a deck full
    // of anti-cards. If a player has both a card and the equivalent anti-card,
    // they annihilate each other.

    let mut deck: Vec<_> = full_deck();
    let mut a1 = EnumSet::new();
    let mut a2 = EnumSet::new();
    let mut a3 = EnumSet::new();
    let mut a4 = EnumSet::new();
    // change the seed because otherwise we are dealing the same cards
    let seed = seed + 4;
    while !deck.is_empty() {
        let random_number = seed % deck.len();
        a1.insert(deck.remove(random_number));
        let random_number = seed % deck.len();
        a2.insert(deck.remove(random_number));
        let random_number = seed % deck.len();
        a3.insert(deck.remove(random_number));
        let random_number = seed % deck.len();
        a4.insert(deck.remove(random_number));
    }

    // To calculate the final deck after the annihilations efficiently,
    // we use the XOR operation, also known as "symmetric_difference"
    e1.symmetric_difference_with(&a1);
    e2.symmetric_difference_with(&a2);
    e3.symmetric_difference_with(&a3);
    e4.symmetric_difference_with(&a4);

    // Now, the player with the most cards wins!
    let mut ncards = [(e1.len(), 1), (e2.len(), 2), (e3.len(), 3), (e4.len(), 4)];
    ncards.sort();
    // And the winner is...
    assert_eq!(ncards[3], (22, 1)); // Player 1, with 22 cards left!
    assert_eq!(ncards[2], (20, 4));
    assert_eq!(ncards[1], (18, 2));
    assert_eq!(ncards[0], (14, 3));
}

fn set_of(items: &[ABC]) -> EnumSet<ABC> {
    let mut s = EnumSet::new();
    s.extend(items.to_vec());
    s
}

fn drain(mut it: enum_vec::enum_set::WrapIter<ABC>) -> Vec<ABC> {
    let mut v = Vec::new();
    assert_eq!(it.size_hint().0, it.size_hint().1.unwrap());
    while let Some(x) = it.next() {
        v.push(x);
    }
    assert_eq!(it.size_hint(), (0, Some(0)));
    v
}

#[test]
fn set_algebra() {
    let ab = set_of(&[ABC::B, ABC::A]);
    let bc = set_of(&[ABC::B, ABC::C]);
    let empty = set_of(&[]);

    assert_eq!(drain(ab.iter()), vec![ABC::A, ABC::B]);
    assert_eq!(drain(ab.union(&bc)), vec![ABC::A, ABC::B, ABC::C]);
    assert_eq!(drain(ab.intersection(&bc)), vec![ABC::B]);
    assert_eq!(drain(ab.difference(&bc)), vec![ABC::A]);
    assert_eq!(drain(bc.difference(&ab)), vec![ABC::C]);
    assert_eq!(drain(ab.symmetric_difference(&bc)), vec![ABC::A, ABC::C]);
    assert_eq!(drain(empty.iter()), vec![]);

    let mut u = ab.clone();
    u.union_with(&bc);
    assert_eq!(u.len(), 3);
    assert_eq!(u, set_of(&[ABC::A, ABC::B, ABC::C]));
    let mut i = ab.clone();
    i.intersect_with(&bc);
    assert_eq!(i, set_of(&[ABC::B]));
    let mut d = ab.clone();
    d.difference_with(&bc);
    assert_eq!(d, set_of(&[ABC::A]));
    let mut x = ab.clone();
    x.symmetric_difference_with(&bc);
    assert_eq!(x, set_of(&[ABC::A, ABC::C]));
    // The copy was changed, not the set it was made from
    assert_eq!(ab.len(), 2);

    assert!(d.is_subset(&ab));
    assert!(!ab.is_subset(&d));
    assert!(ab.is_superset(&d));
    assert!(!d.is_superset(&ab));
    assert!(d.is_disjoint(&bc));
    assert!(!ab.is_disjoint(&bc));

    assert!(empty.is_empty());
    assert!(!ab.is_empty());
    let mut cleared = ab.clone();
    cleared.clear();
    assert!(cleared.is_empty());
    assert_eq!(cleared.len(), 0);
    assert!(!cleared.contains(ABC::A));

    let mut shrunk = u.clone();
    shrunk.remove(ABC::C);
    shrunk.shrink_to_fit();
    assert_eq!(drain(shrunk.iter()), vec![ABC::A, ABC::B]);
}
