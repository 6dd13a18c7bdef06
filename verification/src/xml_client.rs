//! The protocol session: classifying each received element, keeping
//! the session state (room, assigned color, latest game state),
//! notifying listeners in registration order, and framing the
//! outbound messages.
//!
//! The embedding program owns the transport: it feeds parse events to
//! the tree builder, hands each completed element to `handle_node`,
//! and writes whatever string `handle_node` returns back to the
//! stream.

use vstd::prelude::*;
use crate::ClientError;
use crate::ClientErrorV;
use crate::game::GameState;
use crate::game::GameStateV;
use crate::game::Move;
use crate::game::Player;
use crate::game::Room;
use crate::game::WelcomeMessage;
use crate::numbers::render_u32;
use crate::numbers::spec_render_u32;
use crate::xml_utils::spec_as_memento;
use crate::xml_utils::spec_as_room;
use crate::xml_utils::spec_as_welcome_message;
use crate::xml_utils::spec_attr_first_value;
use crate::xml_utils::NodeV;
use crate::xml_utils::XMLNode;

verus! {

/// A protocol happening that listeners are told about.
pub enum Notification<'a> {
    Join(&'a Room),
    Update(&'a GameState),
    Welcome(&'a WelcomeMessage),
}

/// The capability a registered strategy or observer implements.
///
/// A session notifies every registered listener of every protocol
/// happening, move requests included, in registration order; only
/// the first registered listener's answer to a move request is sent
/// to the server, the others' answers are discarded.
pub trait ClientListener {
    /// A room was joined.
    fn on_join(&mut self, room: &Room);

    /// A fresh game-state snapshot arrived.
    fn on_update_state(&mut self, state: &GameState);

    /// The server assigned this client its color.
    fn on_welcome_message(&mut self, welcome_message: &WelcomeMessage);

    /// The server asks for a move; `me` and `opponent` are the stored
    /// state's players split by the stored color.
    fn on_move_request(&mut self, state: &GameState, me: &Player, opponent: &Player) -> Result<
        Move,
        ClientError,
    >;
}

/// Whether the field at position `i` is a reachable carrot target:
/// strictly ahead of `me_index`, not occupied by the opponent, and of
/// the carrot-producing type.
pub open spec fn spec_carrot_at(fields: Seq<crate::game::FieldV>, me_index: int, opp_index: int, i: int) -> bool {
    i > me_index && opp_index != i && fields[i].field_type == "CARROT"@
}

/// The first reachable carrot position at or after `i`, if any.
pub open spec fn spec_first_carrot(
    fields: Seq<crate::game::FieldV>,
    me_index: int,
    opp_index: int,
    i: int,
) -> Option<int>
    decreases fields.len() - i,
{
    if i < 0 || i >= fields.len() {
        None
    } else if spec_carrot_at(fields, me_index, opp_index, i) {
        Some(i)
    } else {
        spec_first_carrot(fields, me_index, opp_index, i + 1)
    }
}

/// The triangular movement cost of advancing `d` fields.
pub open spec fn spec_triangular(d: int) -> int {
    d * (d + 1) / 2
}

/// The serialized neutral, no-advance action.
pub open spec fn spec_fall_back_move() -> Seq<char> {
    "<fallBack order=\"0\" />"@
}

/// The serialized action advancing by `d` fields.
pub open spec fn spec_advance_move(d: int) -> Seq<char> {
    "<advance order=\"0\" distance=\""@ + spec_render_u32(d) + "\" />"@
}

/// What the default strategy answers: the first reachable carrot
/// field ahead decides; its triangular cost beyond the carrot stock
/// means falling back, otherwise the advance is taken (spending the
/// whole stock is allowed).  With no reachable carrot field ahead the
/// request fails.
pub open spec fn spec_default_move(state: GameStateV, me: crate::game::PlayerV, opp: crate::game::PlayerV) -> Result<
    Seq<char>,
    ClientErrorV,
> {
    match spec_first_carrot(state.board, me.index, opp.index, 0) {
        None => Err(ClientErrorV::PreconditionViolation("no reachable carrot field"@)),
        Some(t) => {
            let d = t - me.index;
            if spec_triangular(d) > me.carrots {
                Ok(spec_fall_back_move())
            } else {
                Ok(spec_advance_move(d))
            }
        },
    }
}

/// The default move-selection heuristic: scan the board in increasing
/// position order for the first field ahead of `me` that the opponent
/// does not occupy and that produces carrots, then advance there when
/// the triangular cost is within `me`'s carrots, else fall back.
#[verifier::loop_isolation(false)]
pub fn default_move(state: &GameState, me: &Player, opponent: &Player) -> (r: Result<Move, ClientError>)
    ensures
        match spec_default_move(state.deep_view(), me.deep_view(), opponent.deep_view()) {
            Ok(mv) => r matches Ok(m) && m.xml_move@ == mv,
            Err(e) => r matches Err(e2) && e2.deep_view() == e,
        },
{
    let ghost fv = state.deep_view().board;
    let ghost mi = me.deep_view().index;
    let ghost oi = opponent.deep_view().index;
    let carrot = String::from_str("CARROT");
    let fields = &state.board.fields;
    let n = fields.len();
    let mut i: usize = 0;
    let mut found: Option<usize> = None;
    while i < n
        invariant
            0 <= i <= n,
            found matches Some(t) ==> t < n && i == t
                && spec_first_carrot(fv, mi, oi, 0) == Some(t as int)
                && spec_carrot_at(fv, mi, oi, t as int),
            found is None ==> spec_first_carrot(fv, mi, oi, 0) == spec_first_carrot(fv, mi, oi, i as int),
        decreases n - i,
    {
        proof {
            assert(fv[i as int] == state.board.fields@[i as int].deep_view());
        }
        let ahead = if me.index < 0 {
            true
        } else {
            (i as u64) > (me.index as u64)
        };
        let free = if opponent.index < 0 {
            true
        } else {
            (i as u64) != (opponent.index as u64)
        };
        if ahead && free && fields[i].field_type == carrot {
            proof {
                assert(spec_carrot_at(fv, mi, oi, i as int));
            }
            found = Some(i);
            break;
        } else {
            proof {
                assert(!spec_carrot_at(fv, mi, oi, i as int));
            }
            i += 1;
        }
    }
    let t = match found {
        None => {
            return Err(ClientError::PreconditionViolation(String::from_str("no reachable carrot field")));
        },
        Some(t) => t,
    };
    let ghost d = t as int - mi;
    proof {
        assert(t as int > mi);
        assert(d >= 1);
    }
    let small: Option<i64> = if me.index >= 0 {
        let du = (t as u64) - (me.index as u64);
        if du >= 65536 {
            None
        } else {
            Some(du as i64)
        }
    } else {
        if (t as u64) >= 65536 {
            None
        } else {
            let dd = (t as i64) + (-(me.index as i64));
            if dd >= 65536 {
                None
            } else {
                Some(dd)
            }
        }
    };
    match small {
        None => {
            proof {
                assert(d >= 65536);
                assert(spec_triangular(d) > i32::MAX) by (nonlinear_arith)
                    requires d >= 65536;
            }
            Ok(Move { xml_move: String::from_str("<fallBack order=\"0\" />") })
        },
        Some(dist) => {
            proof {
                assert(dist == d);
                assert(1 <= d < 65536);
                assert(dist * (dist + 1) <= 65536 * 65537) by (nonlinear_arith)
                    requires 1 <= dist < 65536;
            }
            let cost = (dist * (dist + 1)) / 2;
            proof {
                assert(cost == spec_triangular(d)) by (nonlinear_arith)
                    requires 1 <= dist < 65536 && dist == d && cost == (dist * (dist + 1)) / 2;
            }
            if cost > (me.carrots as i64) {
                Ok(Move { xml_move: String::from_str("<fallBack order=\"0\" />") })
            } else {
                let rendered = render_u32(dist as u32);
                let out = String::from_str("<advance order=\"0\" distance=\"").concat(
                    rendered.as_str(),
                ).concat("\" />");
                Ok(Move { xml_move: out })
            }
        },
    }
}

/// The composable fallback strategy: no-op observers plus the default
/// move-selection heuristic.
pub struct DefaultListener {
}

impl ClientListener for DefaultListener {
    fn on_join(&mut self, room: &Room) {
    }

    fn on_update_state(&mut self, state: &GameState) {
    }

    fn on_welcome_message(&mut self, welcome_message: &WelcomeMessage) {
    }

    fn on_move_request(&mut self, state: &GameState, me: &Player, opponent: &Player) -> Result<
        Move,
        ClientError,
    > {
        default_move(state, me, opponent)
    }
}

/// The serialized class attribute that marks a move request.
pub open spec fn spec_move_request_class() -> Seq<char> {
    "sc.framework.plugins.protocol.MoveRequest"@
}

/// The move-request marker as text.
pub fn move_request_class() -> (r: &'static str)
    ensures
        r@ == spec_move_request_class(),
{
    "sc.framework.plugins.protocol.MoveRequest"
}

/// How a node is dispatched, by its name and its `class` attribute.
pub enum NodeKind {
    Joined,
    Memento,
    Welcome,
    MoveRequest,
    Otherwise,
}

/// Classify a received top-level element.
pub open spec fn spec_classify(n: NodeV) -> NodeKind {
    if n.name == "joined"@ {
        NodeKind::Joined
    } else if n.name == "data"@ {
        if spec_attr_first_value(n.attribs, "class"@) == Some("memento"@) {
            NodeKind::Memento
        } else if spec_attr_first_value(n.attribs, "class"@) == Some("welcomeMessage"@) {
            NodeKind::Welcome
        } else if spec_attr_first_value(n.attribs, "class"@) == Some(spec_move_request_class()) {
            NodeKind::MoveRequest
        } else {
            NodeKind::Otherwise
        }
    } else {
        NodeKind::Otherwise
    }
}

/// The move-response envelope around a serialized move.
pub open spec fn spec_frame_move(room_id: Seq<char>, mv: Seq<char>) -> Seq<char> {
    "<room roomId=\""@ + room_id + "\"><data class=\"move\">"@ + mv + "</data></room>"@
}

/// Frame a serialized move in the response envelope for `room_id`.
pub fn frame_move_response(room_id: &str, mv: &str) -> (r: String)
    ensures
        r@ == spec_frame_move(room_id@, mv@),
{
    String::from_str("<room roomId=\"").concat(room_id).concat("\"><data class=\"move\">").concat(
        mv,
    ).concat("</data></room>")
}

/// The framing prolog sent once after connecting.
pub fn protocol_prolog() -> (r: String)
    ensures
        r@ == "<protocol>"@,
{
    String::from_str("<protocol>")
}

/// What the join request is: a plain join carrying the fixed game
/// type without a reservation code, a reservation-scoped join with
/// one.
pub open spec fn spec_join_request(reservation: Seq<char>) -> Seq<char> {
    if reservation.len() == 0 {
        "<join gameType=\"swc_2018_hase_und_igel\"/>"@
    } else {
        "<joinPrepared reservationCode=\""@ + reservation + "\" />"@
    }
}

/// The join request to send: exactly one of the two forms, selected
/// by whether a reservation code was supplied.
pub fn join_request(reservation: &str) -> (r: String)
    ensures
        r@ == spec_join_request(reservation@),
{
    if reservation.unicode_len() == 0 {
        String::from_str("<join gameType=\"swc_2018_hase_und_igel\"/>")
    } else {
        String::from_str("<joinPrepared reservationCode=\"").concat(reservation).concat("\" />")
    }
}

/// Mathematical image of the session state a client keeps.
#[verifier::ext_equal]
pub struct ClientV {
    pub my_color: Option<Seq<char>>,
    pub game_state: Option<GameStateV>,
    pub room: Option<Seq<char>>,
}

/// The room identifier used in a response envelope: the stored one,
/// or empty while no room is stored.
pub open spec fn spec_room_or_empty(room: Option<Seq<char>>) -> Seq<char> {
    match room {
        Some(id) => id,
        None => Seq::empty(),
    }
}

/// The protocol session: the registered listeners and the current
/// room, assigned color and latest game-state snapshot.
pub struct XMLClient<L> {
    listeners: Vec<L>,
    my_color: Option<String>,
    game_state: Option<GameState>,
    room: Option<Room>,
}

impl<L: ClientListener> XMLClient<L> {
    /// The session state this client holds.
    pub closed spec fn state_view(&self) -> ClientV {
        ClientV {
            my_color: self.my_color.deep_view(),
            game_state: self.game_state.deep_view(),
            room: self.room.deep_view(),
        }
    }

    /// How many listeners are registered.
    pub closed spec fn spec_num_listeners(&self) -> nat {
        self.listeners@.len()
    }

    /// A session with no listeners and nothing stored yet.
    pub fn new() -> (r: XMLClient<L>)
        ensures
            r.state_view() == (ClientV { my_color: None, game_state: None, room: None }),
            r.spec_num_listeners() == 0,
    {
        XMLClient { listeners: Vec::new(), my_color: None, game_state: None, room: None }
    }

    /// Register one more listener, behind those already registered.
    pub fn add_listener(&mut self, listener: L)
        ensures
            (*final(self)).state_view() == old(self).state_view(),
            (*final(self)).spec_num_listeners() == old(self).spec_num_listeners() + 1,
    {
        self.listeners.push(listener);
    }

    /// Tell every registered listener, in registration order.
    #[verifier::loop_isolation(false)]
    fn fire_listeners(&mut self, notification: &Notification<'_>)
        ensures
            (*final(self)).state_view() == old(self).state_view(),
            (*final(self)).spec_num_listeners() == old(self).spec_num_listeners(),
    {
        let n = self.listeners.len();
        let mut i: usize = 0;
        while i < n
            invariant
                0 <= i <= n,
                n == self.listeners@.len(),
                self.my_color == old(self).my_color,
                self.game_state == old(self).game_state,
                self.room == old(self).room,
            decreases n - i,
        {
            let listener = &mut self.listeners[i];
            match notification {
                Notification::Join(room) => listener.on_join(room),
                Notification::Update(state) => listener.on_update_state(state),
                Notification::Welcome(msg) => listener.on_welcome_message(msg),
            }
            i += 1;
        }
    }

    /// Store the joined room after telling every listener about it.
    pub fn handle_joined_node(&mut self, node: &XMLNode) -> (r: Result<(), ClientError>)
        ensures
            match spec_as_room(node.deep_view()) {
                Ok(id) => r matches Ok(_) && (*final(self)).state_view() == (ClientV {
                    my_color: old(self).state_view().my_color,
                    game_state: old(self).state_view().game_state,
                    room: Some(id),
                }),
                Err(e) => r matches Err(e2) && e2.deep_view() == e && (*final(self)).state_view()
                    == old(self).state_view(),
            },
            (*final(self)).spec_num_listeners() == old(self).spec_num_listeners(),
    {
        match node.as_room() {
            Err(e) => Err(e),
            Ok(room) => {
                self.fire_listeners(&Notification::Join(&room));
                self.room = Some(room);
                Ok(())
            },
        }
    }

    /// Store the fresh game-state snapshot after telling every
    /// listener about it; the previous snapshot is superseded
    /// wholesale.
    pub fn handle_memento_node(&mut self, node: &XMLNode) -> (r: Result<(), ClientError>)
        ensures
            match spec_as_memento(node.deep_view()) {
                Ok(state) => r matches Ok(_) && (*final(self)).state_view() == (ClientV {
                    my_color: old(self).state_view().my_color,
                    game_state: Some(state),
                    room: old(self).state_view().room,
                }),
                Err(e) => r matches Err(e2) && e2.deep_view() == e && (*final(self)).state_view()
                    == old(self).state_view(),
            },
            (*final(self)).spec_num_listeners() == old(self).spec_num_listeners(),
    {
        match node.as_memento() {
            Err(e) => Err(e),
            Ok(memento) => {
                self.fire_listeners(&Notification::Update(&memento.state));
                self.game_state = Some(memento.state);
                Ok(())
            },
        }
    }

    /// Store the assigned color after telling every listener about
    /// it.  The color is set at most once per session: a later
    /// welcome message is still announced but does not change it.
    pub fn handle_welcome_message_node(&mut self, node: &XMLNode) -> (r: Result<(), ClientError>)
        ensures
            match spec_as_welcome_message(node.deep_view()) {
                Ok(color) => r matches Ok(_) && (*final(self)).state_view() == (ClientV {
                    my_color: if old(self).state_view().my_color is None {
                        Some(color)
                    } else {
                        old(self).state_view().my_color
                    },
                    game_state: old(self).state_view().game_state,
                    room: old(self).state_view().room,
                }),
                Err(e) => r matches Err(e2) && e2.deep_view() == e && (*final(self)).state_view()
                    == old(self).state_view(),
            },
            (*final(self)).spec_num_listeners() == old(self).spec_num_listeners(),
    {
        match node.as_welcome_message() {
            Err(e) => Err(e),
            Ok(msg) => {
                self.fire_listeners(&Notification::Welcome(&msg));
                if self.my_color.is_none() {
                    self.my_color = Some(msg.color);
                }
                Ok(())
            },
        }
    }

    /// Split the state's players into mine and the opponent's by the
    /// stored color: `red` plays red, anything else plays blue.
    pub fn split_by_color<'a>(color: &str, game_state: &'a GameState) -> (r: (&'a Player, &'a Player))
        ensures
            color@ == "red"@ ==> r.0.deep_view() == game_state.deep_view().red_player
                && r.1.deep_view() == game_state.deep_view().blue_player,
            color@ != "red"@ ==> r.0.deep_view() == game_state.deep_view().blue_player
                && r.1.deep_view() == game_state.deep_view().red_player,
    {
        let key = String::from_str(color);
        if key == String::from_str("red") {
            (&game_state.red_player, &game_state.blue_player)
        } else {
            (&game_state.blue_player, &game_state.red_player)
        }
    }

    /// Ask the deciding listener for a move, from the stored state
    /// split into the two perspectives.  What comes back is the
    /// listener's to choose; this only fixes which player is `me`.
    pub fn get_move_upon_request(
        color: &str,
        move_req_listener: &mut L,
        game_state: &GameState,
    ) -> (r: Result<Move, ClientError>) {
        let (me, opponent) = Self::split_by_color(color, game_state);
        move_req_listener.on_move_request(game_state, me, opponent)
    }

    /// Dispatch one received top-level element.
    ///
    /// `joined`, `memento` and `welcomeMessage` elements update the
    /// stored state through their handlers; a move request needs a
    /// stored color and a stored state, asks every listener in
    /// registration order, and frames only the first listener's
    /// answer as the response to write back; every other element is
    /// ignored as a protocol extensibility point.
    #[verifier::loop_isolation(false)]
    pub fn handle_node(&mut self, node: &XMLNode) -> (r: Result<Option<String>, ClientError>)
        requires
            old(self).spec_num_listeners() >= 1,
        ensures
            (*final(self)).spec_num_listeners() == old(self).spec_num_listeners(),
            match spec_classify(node.deep_view()) {
                NodeKind::Joined => match spec_as_room(node.deep_view()) {
                    Ok(id) => r matches Ok(None) && (*final(self)).state_view() == (ClientV {
                        my_color: old(self).state_view().my_color,
                        game_state: old(self).state_view().game_state,
                        room: Some(id),
                    }),
                    Err(e) => r matches Err(e2) && e2.deep_view() == e
                        && (*final(self)).state_view() == old(self).state_view(),
                },
                NodeKind::Memento => match spec_as_memento(node.deep_view()) {
                    Ok(state) => r matches Ok(None) && (*final(self)).state_view() == (ClientV {
                        my_color: old(self).state_view().my_color,
                        game_state: Some(state),
                        room: old(self).state_view().room,
                    }),
                    Err(e) => r matches Err(e2) && e2.deep_view() == e
                        && (*final(self)).state_view() == old(self).state_view(),
                },
                NodeKind::Welcome => match spec_as_welcome_message(node.deep_view()) {
                    Ok(color) => r matches Ok(None) && (*final(self)).state_view() == (ClientV {
                        my_color: if old(self).state_view().my_color is None {
                            Some(color)
                        } else {
                            old(self).state_view().my_color
                        },
                        game_state: old(self).state_view().game_state,
                        room: old(self).state_view().room,
                    }),
                    Err(e) => r matches Err(e2) && e2.deep_view() == e
                        && (*final(self)).state_view() == old(self).state_view(),
                },
                NodeKind::MoveRequest => (*final(self)).state_view() == old(self).state_view()
                    && if old(self).state_view().my_color is None
                        || old(self).state_view().game_state is None {
                    r matches Err(e) && e.deep_view() == ClientErrorV::PreconditionViolation(
                        "move request before welcome message and initial state"@,
                    )
                } else {
                    (r matches Err(_)) || (r matches Ok(Some(out)) && exists|mv: Seq<char>|
                        out@ == #[trigger] spec_frame_move(
                            spec_room_or_empty(old(self).state_view().room),
                            mv,
                        ))
                },
                NodeKind::Otherwise => r matches Ok(None) && (*final(self)).state_view() == old(
                    self,
                ).state_view(),
            },
    {
        if *node.get_name() == String::from_str("joined") {
            match self.handle_joined_node(node) {
                Err(e) => Err(e),
                Ok(_) => Ok(None),
            }
        } else if *node.get_name() == String::from_str("data") {
            match node.get_attribute("class") {
                None => Ok(None),
                Some(cls) => {
                    if *cls == String::from_str("memento") {
                        match self.handle_memento_node(node) {
                            Err(e) => Err(e),
                            Ok(_) => Ok(None),
                        }
                    } else if *cls == String::from_str("welcomeMessage") {
                        match self.handle_welcome_message_node(node) {
                            Err(e) => Err(e),
                            Ok(_) => Ok(None),
                        }
                    } else if *cls == String::from_str(move_request_class()) {
                        if self.my_color.is_none() || self.game_state.is_none() {
                            return Err(ClientError::PreconditionViolation(String::from_str(
                                "move request before welcome message and initial state",
                            )));
                        }
                        let color = match &self.my_color {
                            Some(c) => c.clone(),
                            None => {
                                return Err(ClientError::PreconditionViolation(String::new()));
                            },
                        };
                        let state_ref = match &self.game_state {
                            Some(s) => s,
                            None => {
                                return Err(ClientError::PreconditionViolation(String::new()));
                            },
                        };
                        let first_answer = {
                            let listener = &mut self.listeners[0];
                            Self::get_move_upon_request(color.as_str(), listener, state_ref)
                        };
                        // the remaining listeners are asked too, in
                        // registration order; their answers are
                        // discarded
                        let n = self.listeners.len();
                        let mut i: usize = 1;
                        while i < n
                            invariant
                                1 <= i <= n,
                                n == self.listeners@.len(),
                                self.my_color == old(self).my_color,
                                self.game_state == old(self).game_state,
                                self.game_state is Some,
                                self.my_color is Some,
                                self.room == old(self).room,
                            decreases n - i,
                        {
                            let state_again = match &self.game_state {
                                Some(st) => st,
                                None => {
                                    return Err(ClientError::PreconditionViolation(String::new()));
                                },
                            };
                            let listener = &mut self.listeners[i];
                            let _ = Self::get_move_upon_request(color.as_str(), listener, state_again);
                            i += 1;
                        }
                        match first_answer {
                            Err(e) => Err(e),
                            Ok(m) => {
                                let room_id = match &self.room {
                                    Some(rm) => rm.id.clone(),
                                    None => String::new(),
                                };
                                let out = frame_move_response(room_id.as_str(), m.xml_move.as_str());
                                proof {
                                    assert(out@ == spec_frame_move(
                                        spec_room_or_empty(old(self).state_view().room),
                                        m.xml_move@,
                                    ));
                                }
                                Ok(Some(out))
                            },
                        }
                    } else {
                        Ok(None)
                    }
                },
            }
        } else {
            Ok(None)
        }
    }
}

} // verus!
