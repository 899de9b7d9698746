//! Playing cards: suits, ranks, cards, the textures they are printed with.

use vstd::prelude::*;

use crate::text::{
    chars_of,
    replace_char,
    replacing_leaves_no_char,
    split_on,
    string_of,
    spec_replace_char,
    spec_split,
};

verus! {

/// A representation of the suit of a playing card.
#[derive(Copy, Clone, Debug, PartialEq, Eq, Structural, PartialOrd, Ord)]
pub enum Suit {
    Clubs,
    Spades,
    Hearts,
    Diamonds,
}

impl Suit {
    /// The place of the suit in the order Clubs, Spades, Hearts, Diamonds.
    pub open spec fn pos(self) -> nat {
        match self {
            Suit::Clubs => 0,
            Suit::Spades => 1,
            Suit::Hearts => 2,
            Suit::Diamonds => 3,
        }
    }

    /// The suit at place `i` (Diamonds from 3 on).
    pub open spec fn at_pos(i: int) -> Suit {
        if i <= 0 {
            Suit::Clubs
        } else if i == 1 {
            Suit::Spades
        } else if i == 2 {
            Suit::Hearts
        } else {
            Suit::Diamonds
        }
    }

    /// All suits, in order.
    pub open spec fn all() -> Seq<Suit> {
        seq![Suit::Clubs, Suit::Spades, Suit::Hearts, Suit::Diamonds]
    }

    /// The symbol a suit is printed as.
    pub open spec fn symbol(self) -> Seq<char> {
        match self {
            Suit::Clubs => seq!['\u{2663}'],
            Suit::Spades => seq!['\u{2660}'],
            Suit::Hearts => seq!['\u{2665}'],
            Suit::Diamonds => seq!['\u{2666}'],
        }
    }

    /// Returns all of the suits, in order.
    pub fn suits() -> (suits: Vec<Suit>)
        ensures
            suits@ == Suit::all(),
    {
        let suits = vec![Suit::Clubs, Suit::Spades, Suit::Hearts, Suit::Diamonds];
        assert(suits@ =~= Suit::all());
        suits
    }

    /// The place of the suit in the order Clubs, Spades, Hearts, Diamonds.
    pub fn index(&self) -> (i: usize)
        ensures
            i == self.pos(),
    {
        match self {
            Suit::Clubs => 0,
            Suit::Spades => 1,
            Suit::Hearts => 2,
            Suit::Diamonds => 3,
        }
    }

    /// The symbol of the suit (what it is displayed as).
    pub fn to_string(&self) -> (s: String)
        ensures
            s@ == self.symbol(),
    {
        match self {
            Suit::Clubs => {
                let s = String::from_str("\u{2663}");
                proof {
                    reveal_strlit("\u{2663}");
                }
                s
            },
            Suit::Spades => {
                let s = String::from_str("\u{2660}");
                proof {
                    reveal_strlit("\u{2660}");
                }
                s
            },
            Suit::Hearts => {
                let s = String::from_str("\u{2665}");
                proof {
                    reveal_strlit("\u{2665}");
                }
                s
            },
            Suit::Diamonds => {
                let s = String::from_str("\u{2666}");
                proof {
                    reveal_strlit("\u{2666}");
                }
                s
            },
        }
    }
}

/// A representation of the rank of a playing card.
#[derive(Copy, Clone, Debug, PartialEq, Eq, Structural, PartialOrd, Ord)]
pub enum Rank {
    Two,
    Three,
    Four,
    Five,
    Six,
    Seven,
    Eight,
    Nine,
    Ten,
    Jack,
    Queen,
    King,
    Ace,
}

impl Rank {
    /// The place of the rank in the order Two, ..., King, Ace.
    pub open spec fn pos(self) -> nat {
        match self {
            Rank::Two => 0,
            Rank::Three => 1,
            Rank::Four => 2,
            Rank::Five => 3,
            Rank::Six => 4,
            Rank::Seven => 5,
            Rank::Eight => 6,
            Rank::Nine => 7,
            Rank::Ten => 8,
            Rank::Jack => 9,
            Rank::Queen => 10,
            Rank::King => 11,
            Rank::Ace => 12,
        }
    }

    /// The rank at place `i` (Ace from 12 on).
    pub open spec fn at_pos(i: int) -> Rank {
        if i <= 0 {
            Rank::Two
        } else if i == 1 {
            Rank::Three
        } else if i == 2 {
            Rank::Four
        } else if i == 3 {
            Rank::Five
        } else if i == 4 {
            Rank::Six
        } else if i == 5 {
            Rank::Seven
        } else if i == 6 {
            Rank::Eight
        } else if i == 7 {
            Rank::Nine
        } else if i == 8 {
            Rank::Ten
        } else if i == 9 {
            Rank::Jack
        } else if i == 10 {
            Rank::Queen
        } else if i == 11 {
            Rank::King
        } else {
            Rank::Ace
        }
    }

    /// All ranks, in order.
    pub open spec fn all() -> Seq<Rank> {
        seq![
            Rank::Two,
            Rank::Three,
            Rank::Four,
            Rank::Five,
            Rank::Six,
            Rank::Seven,
            Rank::Eight,
            Rank::Nine,
            Rank::Ten,
            Rank::Jack,
            Rank::Queen,
            Rank::King,
            Rank::Ace,
        ]
    }

    /// The text a rank is printed as.
    pub open spec fn symbol(self) -> Seq<char> {
        match self {
            Rank::Two => seq!['2'],
            Rank::Three => seq!['3'],
            Rank::Four => seq!['4'],
            Rank::Five => seq!['5'],
            Rank::Six => seq!['6'],
            Rank::Seven => seq!['7'],
            Rank::Eight => seq!['8'],
            Rank::Nine => seq!['9'],
            Rank::Ten => seq!['1', '0'],
            Rank::Jack => seq!['J'],
            Rank::Queen => seq!['Q'],
            Rank::King => seq!['K'],
            Rank::Ace => seq!['A'],
        }
    }

    /// Returns all of the ranks, in order.
    pub fn ranks() -> (ranks: Vec<Rank>)
        ensures
            ranks@ == Rank::all(),
    {
        let ranks = vec![
            Rank::Two,
            Rank::Three,
            Rank::Four,
            Rank::Five,
            Rank::Six,
            Rank::Seven,
            Rank::Eight,
            Rank::Nine,
            Rank::Ten,
            Rank::Jack,
            Rank::Queen,
            Rank::King,
            Rank::Ace,
        ];
        assert(ranks@ =~= Rank::all());
        ranks
    }

    /// The place of the rank in the order Two, ..., King, Ace.
    pub fn index(&self) -> (i: usize)
        ensures
            i == self.pos(),
    {
        match self {
            Rank::Two => 0,
            Rank::Three => 1,
            Rank::Four => 2,
            Rank::Five => 3,
            Rank::Six => 4,
            Rank::Seven => 5,
            Rank::Eight => 6,
            Rank::Nine => 7,
            Rank::Ten => 8,
            Rank::Jack => 9,
            Rank::Queen => 10,
            Rank::King => 11,
            Rank::Ace => 12,
        }
    }

    /// The text of the rank (what it is displayed as).
    pub fn to_string(&self) -> (s: String)
        ensures
            s@ == self.symbol(),
    {
        let lit: &str = match self {
            Rank::Two => "2",
            Rank::Three => "3",
            Rank::Four => "4",
            Rank::Five => "5",
            Rank::Six => "6",
            Rank::Seven => "7",
            Rank::Eight => "8",
            Rank::Nine => "9",
            Rank::Ten => "10",
            Rank::Jack => "J",
            Rank::Queen => "Q",
            Rank::King => "K",
            Rank::Ace => "A",
        };
        proof {
            reveal_strlit("2");
            reveal_strlit("3");
            reveal_strlit("4");
            reveal_strlit("5");
            reveal_strlit("6");
            reveal_strlit("7");
            reveal_strlit("8");
            reveal_strlit("9");
            reveal_strlit("10");
            reveal_strlit("J");
            reveal_strlit("Q");
            reveal_strlit("K");
            reveal_strlit("A");
        }
        String::from_str(lit)
    }
}

/// A representation of a playing card.
#[derive(Copy, Clone, Debug, PartialEq, Eq, Structural, PartialOrd, Ord)]
pub struct Card {
    /// The rank of the playing card.
    pub rank: Rank,
    /// The suit of the playing card.
    pub suit: Suit,
}

impl Card {
    /// Creates a card with rank `rank` and suit `suit`.
    ///
    /// Order is rank then suit like how the card's name is spoken:
    /// Ace of Spades -> {rank} of {suit} -> rank, suit.
    pub fn new(rank: Rank, suit: Suit) -> (card: Card)
        ensures
            card == (Card { rank, suit }),
    {
        Card { suit, rank }
    }

    /// Returns a `PrintCard` from the card, showing its face.
    pub fn as_printable(&self) -> (p: PrintCard<'_>)
        ensures
            p.card() == *self,
            p.shows_face(),
    {
        PrintCard::from(self)
    }
}

/// The number of rank textures a card set holds for each suit.
pub const RANKS_PER_SUIT: usize = 13;

/// The `textures` used to print cards to the console.
pub struct CardSet {
    /// The card face textures, suit by suit, each suit in rank order.
    cards: Vec<String>,
    /// The texture of the back of the card.
    back: String,
}

/// The separator between the textures of a card set text.
pub open spec fn texture_separator() -> Seq<char> {
    seq!['\r', '\n', '\r', '\n']
}

/// The face texture of the card with rank `rank` and suit `suit` in a card set whose rank
/// textures (with `S` where the suit goes) are `rank_textures`.
pub open spec fn face_texture(rank_textures: Seq<Seq<char>>, rank: Rank, suit: Suit) -> Seq<char> {
    spec_replace_char(rank_textures[rank.pos() as int], 'S', suit.symbol())
}

/// A face texture holds no suit mark `S`: every `S` of the rank texture is replaced by the
/// suit's symbol, which is no `S`; so the texture is as long as the rank texture, as each
/// symbol is one character.
pub proof fn faces_hold_no_suit_mark(rank_textures: Seq<Seq<char>>, rank: Rank, suit: Suit)
    ensures
        !face_texture(rank_textures, rank, suit).contains('S'),
        face_texture(rank_textures, rank, suit).len() == rank_textures[rank.pos() as int].len(),
{
    let with = suit.symbol();
    assert(with.len() == 1 && with[0] != 'S');
    assert(!with.contains('S'));
    replacing_leaves_no_char(rank_textures[rank.pos() as int], 'S', with);
}

impl CardSet {
    #[verifier::type_invariant]
    spec fn holds_every_card(self) -> bool {
        self.cards@.len() == 52
    }

    /// The face texture of the card with rank `rank` and suit `suit`.
    pub closed spec fn face(self, rank: Rank, suit: Suit) -> Seq<char> {
        self.cards@[rank.pos() + 13 * suit.pos() as int]@
    }

    /// The back texture.
    pub closed spec fn back_view(self) -> Seq<char> {
        self.back@
    }

    /// Creates a CardSet from the text of a card set file.
    ///
    /// A card text file has the following elements:
    ///     Textures are separated by a blank line (`\r\n\r\n`).
    ///     The card text file must have the back card texture first.
    ///     The card text file must have the card face textures in order 2, 3, 4, 5, 6, 7, 8, 9, 10, J, Q, K, A after the back card texture.
    ///     The `S`s on card denote the suit of the card, and will be replaced by the repective suit character.
    ///
    /// Returns `None` where the text does not hold exactly 14 textures.
    pub fn parse(text: &str) -> (set: Option<CardSet>)
        ensures
            set is None <==> spec_split(text@, texture_separator()).len() != 14,
            set matches Some(set) ==> {
                let pieces = spec_split(text@, texture_separator());
                &&& set.back_view() == pieces[0]
                &&& forall|rank: Rank, suit: Suit|
                    #[trigger] set.face(rank, suit) == face_texture(pieces.drop_first(), rank, suit)
            },
    {
        let chars = chars_of(text);
        let separator = vec!['\r', '\n', '\r', '\n'];
        assert(separator@ == texture_separator());
        let pieces = split_on(&chars, &separator);
        let ghost spieces = spec_split(text@, texture_separator());
        if pieces.len() != 14 {
            return None;
        }
        let back = string_of(&pieces[0]);
        let suits = Suit::suits();
        let mut cards: Vec<String> = Vec::new();
        let mut s: usize = 0;
        while s < 4
            invariant
                0 <= s <= 4,
                pieces.len() == 14,
                spieces.len() == 14,
                suits@ == Suit::all(),
                forall|i: int| 0 <= i < 14 ==> #[trigger] pieces@[i]@ == spieces[i],
                cards@.len() == 13 * s,
                forall|i: int|
                    0 <= i < cards@.len() ==> #[trigger] cards@[i]@ == face_texture(
                        spieces.drop_first(),
                        Rank::at_pos(i % 13),
                        Suit::at_pos(i / 13),
                    ),
            decreases 4 - s,
        {
            let suit = suits[s];
            let symbol = suit.to_string();
            let symbol_chars = chars_of(symbol.as_str());
            let mut r: usize = 0;
            while r < RANKS_PER_SUIT
                invariant
                    0 <= s < 4,
                    0 <= r <= 13,
                    pieces.len() == 14,
                    spieces.len() == 14,
                    suit == Suit::all()[s as int],
                    symbol_chars@ == suit.symbol(),
                    forall|i: int| 0 <= i < 14 ==> #[trigger] pieces@[i]@ == spieces[i],
                    cards@.len() == 13 * s + r,
                    forall|i: int|
                        0 <= i < cards@.len() ==> #[trigger] cards@[i]@ == face_texture(
                            spieces.drop_first(),
                            Rank::at_pos(i % 13),
                            Suit::at_pos(i / 13),
                        ),
                decreases 13 - r,
            {
                let replaced = replace_char(&pieces[r + 1], 'S', &symbol_chars);
                let texture = string_of(&replaced);
                proof {
                    let i = 13 * s + r;
                    assert(i % 13 == r as int) by (nonlinear_arith)
                        requires
                            i == 13 * s + r,
                            0 <= r < 13,
                    ;
                    assert(i / 13 == s as int) by (nonlinear_arith)
                        requires
                            i == 13 * s + r,
                            0 <= r < 13,
                    ;
                    assert(Rank::at_pos(r as int).pos() == r);
                    assert(Suit::at_pos(s as int) == suit);
                    assert(spieces.drop_first()[r as int] == spieces[r + 1]);
                }
                cards.push(texture);
                r += 1;
            }
            s += 1;
        }
        let set = CardSet { cards, back };
        proof {
            assert forall|rank: Rank, suit: Suit|
                #[trigger] set.face(rank, suit) == face_texture(spieces.drop_first(), rank, suit) by {
                let i = rank.pos() + 13 * suit.pos();
                assert(i % 13 == rank.pos()) by (nonlinear_arith)
                    requires
                        i == rank.pos() + 13 * suit.pos(),
                        rank.pos() < 13,
                ;
                assert(i / 13 == suit.pos()) by (nonlinear_arith)
                    requires
                        i == rank.pos() + 13 * suit.pos(),
                        rank.pos() < 13,
                ;
                assert(Rank::at_pos(rank.pos() as int) == rank);
                assert(Suit::at_pos(suit.pos() as int) == suit);
            }
        }
        Some(set)
    }

    /// Returns the card texture with rank `rank` and suit `suit`.
    pub fn get_card(&self, rank: Rank, suit: Suit) -> (texture: &str)
        ensures
            texture@ == self.face(rank, suit),
    {
        proof {
            use_type_invariant(self);
        }
        let i = rank.index() + RANKS_PER_SUIT * suit.index();
        self.cards[i].as_str()
    }

    /// Returns the back card texture.
    pub fn get_back(&self) -> (texture: &str)
        ensures
            texture@ == self.back_view(),
    {
        self.back.as_str()
    }
}

/// A card to be printed, face up or face down.
pub struct PrintCard<'a> {
    from_card: &'a Card,
    show: bool,
}

impl<'a> PrintCard<'a> {
    /// The card that is printed.
    pub closed spec fn card(self) -> Card {
        *self.from_card
    }

    /// Whether the face of the card is printed (else its back is).
    pub closed spec fn shows_face(self) -> bool {
        self.show
    }

    /// Creates a `PrintCard` that shows the face of `card`.
    pub fn from(card: &'a Card) -> (p: PrintCard<'a>)
        ensures
            p.card() == *card,
            p.shows_face(),
    {
        PrintCard { from_card: card, show: true }
    }

    /// Sets whether the face of the card is shown.
    pub fn show(self, show: bool) -> (p: PrintCard<'a>)
        ensures
            p.card() == self.card(),
            p.shows_face() == show,
    {
        PrintCard { from_card: self.from_card, show }
    }

    /// The text of the card in the card set `card_set`: its face texture, or the back texture
    /// where the face is hidden.
    pub fn render(&self, card_set: &CardSet) -> (text: String)
        ensures
            text@ == (if self.shows_face() {
                card_set.face(self.card().rank, self.card().suit)
            } else {
                card_set.back_view()
            }),
    {
        if self.show {
            String::from_str(card_set.get_card(self.from_card.rank, self.from_card.suit))
        } else {
            String::from_str(card_set.get_back())
        }
    }
}

} // verus!
