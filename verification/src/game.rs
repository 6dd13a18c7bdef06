//! Typed game entities and their mathematical views.
//!
//! A `GameState` is an immutable snapshot: both players and the board,
//! always fully populated.  Each entity carries a deep view so that the
//! contracts of the domain mapper and of the session can speak about
//! entity values as mathematical records.

use vstd::prelude::*;

verus! {

/// The room the client joined, identified by the server.
pub struct Room {
    pub id: String,
}

/// Payload of a `joined` element: the identifier of the room.
pub struct Joined {
    pub id: String,
}

/// The color the server assigned to this client for the whole session.
pub struct WelcomeMessage {
    pub color: String,
}

/// A card a player holds, identified by its card-type string.
#[derive(Clone)]
pub struct Card {
    pub card_type: String,
}

/// One player: identity, race position and resources.
#[derive(Clone)]
pub struct Player {
    pub display_name: String,
    pub color: String,
    pub index: i32,
    pub carrots: i32,
    pub salads: i32,
    pub cards: Vec<Card>,
}

/// An opaque serialized protocol fragment describing the chosen action.
pub struct Move {
    pub xml_move: String,
}

/// One field of the race track: its type and its board index.
pub struct Field {
    pub field_type: String,
    pub index: i32,
}

/// The race track: fields in increasing index order.
pub struct Board {
    pub fields: Vec<Field>,
}

/// A full snapshot of the game: the two players and the board.
pub struct GameState {
    pub red_player: Player,
    pub blue_player: Player,
    pub board: Board,
}

/// Wrapper carrying one `GameState`, the payload of a state update.
pub struct Memento {
    pub state: GameState,
}

/// Mathematical image of a `Field`.
pub struct FieldV {
    pub field_type: Seq<char>,
    pub index: int,
}

/// Mathematical image of a `Player`.
pub struct PlayerV {
    pub display_name: Seq<char>,
    pub color: Seq<char>,
    pub index: int,
    pub carrots: int,
    pub salads: int,
    pub cards: Seq<Seq<char>>,
}

/// Mathematical image of a `GameState`.
pub struct GameStateV {
    pub red_player: PlayerV,
    pub blue_player: PlayerV,
    pub board: Seq<FieldV>,
}

impl DeepView for Room {
    type V = Seq<char>;

    open spec fn deep_view(&self) -> Seq<char> {
        self.id@
    }
}

impl DeepView for Joined {
    type V = Seq<char>;

    open spec fn deep_view(&self) -> Seq<char> {
        self.id@
    }
}

impl DeepView for WelcomeMessage {
    type V = Seq<char>;

    open spec fn deep_view(&self) -> Seq<char> {
        self.color@
    }
}

impl DeepView for Card {
    type V = Seq<char>;

    open spec fn deep_view(&self) -> Seq<char> {
        self.card_type@
    }
}

impl DeepView for Move {
    type V = Seq<char>;

    open spec fn deep_view(&self) -> Seq<char> {
        self.xml_move@
    }
}

impl DeepView for Field {
    type V = FieldV;

    open spec fn deep_view(&self) -> FieldV {
        FieldV { field_type: self.field_type@, index: self.index as int }
    }
}

impl DeepView for Player {
    type V = PlayerV;

    open spec fn deep_view(&self) -> PlayerV {
        PlayerV {
            display_name: self.display_name@,
            color: self.color@,
            index: self.index as int,
            carrots: self.carrots as int,
            salads: self.salads as int,
            cards: self.cards.deep_view(),
        }
    }
}

impl DeepView for Board {
    type V = Seq<FieldV>;

    open spec fn deep_view(&self) -> Seq<FieldV> {
        self.fields.deep_view()
    }
}

impl DeepView for GameState {
    type V = GameStateV;

    open spec fn deep_view(&self) -> GameStateV {
        GameStateV {
            red_player: self.red_player.deep_view(),
            blue_player: self.blue_player.deep_view(),
            board: self.board.deep_view(),
        }
    }
}

impl DeepView for Memento {
    type V = GameStateV;

    open spec fn deep_view(&self) -> GameStateV {
        self.state.deep_view()
    }
}

} // verus!
