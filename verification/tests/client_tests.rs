use hase_client::game::Board;
use hase_client::game::Field;
use hase_client::game::GameState;
use hase_client::game::Move;
use hase_client::game::Player;
use hase_client::game::Room;
use hase_client::game::WelcomeMessage;
use hase_client::xml_client::default_move;
use hase_client::xml_client::frame_move_response;
use hase_client::xml_client::join_request;
use hase_client::xml_client::protocol_prolog;
use hase_client::xml_client::ClientListener;
use hase_client::xml_client::DefaultListener;
use hase_client::xml_client::XMLClient;
use hase_client::xml_utils::ParseEvent;
use hase_client::xml_utils::RawAttribute;
use hase_client::xml_utils::XMLNode;
use hase_client::ClientError;

fn attr(name: &str, value: &str) -> RawAttribute {
    RawAttribute { name: name.to_string(), value: value.to_string() }
}

fn start(name: &str, attributes: Vec<RawAttribute>) -> ParseEvent {
    ParseEvent::Start { name: name.to_string(), attributes }
}

fn read(events: Vec<ParseEvent>) -> XMLNode {
    let mut pos = 0usize;
    XMLNode::read_from(&events, &mut pos).unwrap()
}

fn player(name: &str, color: &str, index: i32, carrots: i32) -> Player {
    Player {
        display_name: name.to_string(),
        color: color.to_string(),
        index,
        carrots,
        salads: 0,
        cards: Vec::new(),
    }
}

fn board(types: &[&str]) -> Board {
    Board {
        fields: types
            .iter()
            .enumerate()
            .map(|(i, t)| Field { field_type: t.to_string(), index: i as i32 })
            .collect(),
    }
}

fn player_events(name: &str, display_name: &str, color: &str, index: &str, carrots: &str) -> Vec<ParseEvent> {
    vec![
        start(
            name,
            vec![
                attr("displayName", display_name),
                attr("color", color),
                attr("index", index),
                attr("carrots", carrots),
                attr("salads", "0"),
            ],
        ),
        ParseEvent::End,
    ]
}

fn memento_events(red_index: &str, red_carrots: &str, blue_index: &str, field_types: &[&str]) -> Vec<ParseEvent> {
    let mut events = vec![start("data", vec![attr("class", "memento")]), start("state", vec![])];
    events.extend(player_events("red", "Alice", "red", red_index, red_carrots));
    events.extend(player_events("blue", "Bob", "blue", blue_index, "50"));
    events.push(start("board", vec![]));
    events.push(start("fields", vec![]));
    for (i, t) in field_types.iter().enumerate() {
        events.push(start("field", vec![attr("type", t), attr("index", &i.to_string())]));
        events.push(ParseEvent::End);
    }
    events.push(ParseEvent::End);
    events.push(ParseEvent::End);
    events.push(ParseEvent::End);
    events.push(ParseEvent::End);
    events
}

fn welcome_node(color: &str) -> XMLNode {
    read(vec![
        start("data", vec![attr("class", "welcomeMessage"), attr("color", color)]),
        ParseEvent::End,
    ])
}

fn move_request_node() -> XMLNode {
    read(vec![
        start("data", vec![attr("class", "sc.framework.plugins.protocol.MoveRequest")]),
        ParseEvent::End,
    ])
}

// me at 5 with 10 carrots, first free carrot field at 9: distance 4,
// cost 10 == carrots, so the advance is taken
#[test]
fn heuristic_advances_when_cost_equals_carrots() {
    let me = player("A", "red", 5, 10);
    let opp = player("B", "blue", 2, 50);
    let state = GameState {
        red_player: player("A", "red", 5, 10),
        blue_player: player("B", "blue", 2, 50),
        board: board(&[
            "START", "CARROT", "GRASS", "GRASS", "GRASS", "GRASS", "GRASS", "GRASS", "GRASS",
            "CARROT", "GOAL",
        ]),
    };
    let m = default_move(&state, &me, &opp).unwrap();
    assert_eq!(m.xml_move, "<advance order=\"0\" distance=\"4\" />");
}

// same board, one carrot fewer: cost 10 > 9, so the client falls back
#[test]
fn heuristic_falls_back_when_cost_exceeds_carrots() {
    let me = player("A", "red", 5, 9);
    let opp = player("B", "blue", 2, 50);
    let state = GameState {
        red_player: player("A", "red", 5, 9),
        blue_player: player("B", "blue", 2, 50),
        board: board(&[
            "START", "CARROT", "GRASS", "GRASS", "GRASS", "GRASS", "GRASS", "GRASS", "GRASS",
            "CARROT", "GOAL",
        ]),
    };
    let m = default_move(&state, &me, &opp).unwrap();
    assert_eq!(m.xml_move, "<fallBack order=\"0\" />");
}

#[test]
fn heuristic_skips_occupied_carrot_field() {
    let me = player("A", "red", 5, 100);
    let opp = player("B", "blue", 7, 50);
    let state = GameState {
        red_player: player("A", "red", 5, 100),
        blue_player: player("B", "blue", 7, 50),
        board: board(&[
            "START", "GRASS", "GRASS", "GRASS", "GRASS", "GRASS", "GRASS", "CARROT", "GRASS",
            "CARROT", "GOAL",
        ]),
    };
    let m = default_move(&state, &me, &opp).unwrap();
    assert_eq!(m.xml_move, "<advance order=\"0\" distance=\"4\" />");
}

#[test]
fn heuristic_fails_without_reachable_carrot_field() {
    let me = player("A", "red", 5, 10);
    let opp = player("B", "blue", 2, 50);
    let state = GameState {
        red_player: player("A", "red", 5, 10),
        blue_player: player("B", "blue", 2, 50),
        board: board(&["START", "CARROT", "GRASS", "GRASS", "GRASS", "GRASS", "GRASS", "GOAL"]),
    };
    match default_move(&state, &me, &opp) {
        Err(ClientError::PreconditionViolation(_)) => {},
        _ => panic!("expected a precondition violation"),
    }
    let empty = GameState {
        red_player: player("A", "red", 0, 10),
        blue_player: player("B", "blue", 0, 10),
        board: board(&[]),
    };
    match default_move(&empty, &empty.red_player.clone(), &empty.blue_player.clone()) {
        Err(ClientError::PreconditionViolation(_)) => {},
        _ => panic!("expected a precondition violation on an empty board"),
    }
}

// the event order of the dispatch test: welcome(red), memento S1,
// move request (answered from S1), memento S2, move request
// (answered from S2)
#[test]
fn dispatch_uses_latest_state_and_stored_color() {
    let mut client: XMLClient<DefaultListener> = XMLClient::new();
    client.add_listener(DefaultListener {});
    assert!(matches!(client.handle_node(&welcome_node("red")), Ok(None)));
    // S1: red at 5 with 10 carrots, carrot at 9 -> advance 4
    let s1 = read(memento_events("5", "10", "2", &[
        "START", "GRASS", "GRASS", "GRASS", "GRASS", "GRASS", "GRASS", "GRASS", "GRASS", "CARROT",
    ]));
    assert!(matches!(client.handle_node(&s1), Ok(None)));
    let first = client.handle_node(&move_request_node()).unwrap().unwrap();
    assert_eq!(
        first,
        "<room roomId=\"\"><data class=\"move\"><advance order=\"0\" distance=\"4\" /></data></room>"
    );
    // S2: red at 0 with 100 carrots, carrot at 2 -> advance 2
    let s2 = read(memento_events("0", "100", "5", &["START", "GRASS", "CARROT", "GRASS"]));
    assert!(matches!(client.handle_node(&s2), Ok(None)));
    let second = client.handle_node(&move_request_node()).unwrap().unwrap();
    assert_eq!(
        second,
        "<room roomId=\"\"><data class=\"move\"><advance order=\"0\" distance=\"2\" /></data></room>"
    );
}

#[test]
fn move_request_before_welcome_fails_without_output() {
    let mut client: XMLClient<DefaultListener> = XMLClient::new();
    client.add_listener(DefaultListener {});
    match client.handle_node(&move_request_node()) {
        Err(ClientError::PreconditionViolation(_)) => {},
        _ => panic!("expected a precondition violation"),
    }
    // a welcome message alone is still not enough: no state stored yet
    assert!(matches!(client.handle_node(&welcome_node("red")), Ok(None)));
    match client.handle_node(&move_request_node()) {
        Err(ClientError::PreconditionViolation(_)) => {},
        _ => panic!("expected a precondition violation"),
    }
}

#[test]
fn response_envelope_carries_the_joined_room() {
    let mut client: XMLClient<DefaultListener> = XMLClient::new();
    client.add_listener(DefaultListener {});
    let joined = read(vec![start("joined", vec![attr("roomId", "room-42")]), ParseEvent::End]);
    assert!(matches!(client.handle_node(&joined), Ok(None)));
    assert!(matches!(client.handle_node(&welcome_node("red")), Ok(None)));
    let s1 = read(memento_events("0", "100", "5", &["START", "CARROT"]));
    assert!(matches!(client.handle_node(&s1), Ok(None)));
    let out = client.handle_node(&move_request_node()).unwrap().unwrap();
    assert_eq!(
        out,
        "<room roomId=\"room-42\"><data class=\"move\"><advance order=\"0\" distance=\"1\" /></data></room>"
    );
}

#[test]
fn blue_color_swaps_perspectives() {
    let mut client: XMLClient<DefaultListener> = XMLClient::new();
    client.add_listener(DefaultListener {});
    assert!(matches!(client.handle_node(&welcome_node("blue")), Ok(None)));
    // blue at 2 with 3 carrots: carrot at 4 would cost 3 -> advance 2;
    // red at 5 is irrelevant for the choice but occupies no carrot
    let s = read(memento_events("5", "10", "2", &["START", "GRASS", "GRASS", "GRASS", "CARROT"]));
    assert!(matches!(client.handle_node(&s), Ok(None)));
    let out = client.handle_node(&move_request_node()).unwrap().unwrap();
    assert_eq!(
        out,
        "<room roomId=\"\"><data class=\"move\"><advance order=\"0\" distance=\"2\" /></data></room>"
    );
}

#[test]
fn first_welcome_message_fixes_the_color() {
    let mut client: XMLClient<DefaultListener> = XMLClient::new();
    client.add_listener(DefaultListener {});
    assert!(matches!(client.handle_node(&welcome_node("blue")), Ok(None)));
    // a second welcome must not change the stored color
    assert!(matches!(client.handle_node(&welcome_node("red")), Ok(None)));
    let s = read(memento_events("5", "10", "2", &["START", "GRASS", "GRASS", "GRASS", "CARROT"]));
    assert!(matches!(client.handle_node(&s), Ok(None)));
    let out = client.handle_node(&move_request_node()).unwrap().unwrap();
    // still blue's perspective: advance from 2 to 4
    assert_eq!(
        out,
        "<room roomId=\"\"><data class=\"move\"><advance order=\"0\" distance=\"2\" /></data></room>"
    );
}

#[test]
fn unknown_elements_and_classes_are_ignored() {
    let mut client: XMLClient<DefaultListener> = XMLClient::new();
    client.add_listener(DefaultListener {});
    let unknown = read(vec![start("ping", vec![]), ParseEvent::End]);
    assert!(matches!(client.handle_node(&unknown), Ok(None)));
    let odd_class = read(vec![start("data", vec![attr("class", "somethingNew")]), ParseEvent::End]);
    assert!(matches!(client.handle_node(&odd_class), Ok(None)));
    let classless = read(vec![start("data", vec![]), ParseEvent::End]);
    assert!(matches!(client.handle_node(&classless), Ok(None)));
}

struct Recorder {
    tag: &'static str,
    seen: std::rc::Rc<std::cell::RefCell<Vec<String>>>,
    canned: &'static str,
}

impl ClientListener for Recorder {
    fn on_join(&mut self, room: &Room) {
        self.seen.borrow_mut().push(format!("{}:join:{}", self.tag, room.id));
    }

    fn on_update_state(&mut self, state: &GameState) {
        self.seen.borrow_mut().push(format!("{}:update:{}", self.tag, state.red_player.index));
    }

    fn on_welcome_message(&mut self, welcome_message: &WelcomeMessage) {
        self.seen.borrow_mut().push(format!("{}:welcome:{}", self.tag, welcome_message.color));
    }

    fn on_move_request(&mut self, _state: &GameState, _me: &Player, _opponent: &Player) -> Result<Move, ClientError> {
        self.seen.borrow_mut().push(format!("{}:move", self.tag));
        Ok(Move { xml_move: self.canned.to_string() })
    }
}

#[test]
fn listeners_run_in_registration_order_and_first_move_wins() {
    let seen = std::rc::Rc::new(std::cell::RefCell::new(Vec::new()));
    let mut client: XMLClient<Recorder> = XMLClient::new();
    client.add_listener(Recorder { tag: "one", seen: seen.clone(), canned: "<first />" });
    client.add_listener(Recorder { tag: "two", seen: seen.clone(), canned: "<second />" });
    let joined = read(vec![start("joined", vec![attr("roomId", "r")]), ParseEvent::End]);
    client.handle_node(&joined).unwrap();
    client.handle_node(&welcome_node("red")).unwrap();
    let s = read(memento_events("5", "10", "2", &["START"]));
    client.handle_node(&s).unwrap();
    let out = client.handle_node(&move_request_node()).unwrap().unwrap();
    // every listener is asked, in registration order, but only the
    // first listener's move is framed and sent
    assert_eq!(out, "<room roomId=\"r\"><data class=\"move\"><first /></data></room>");
    let log = seen.borrow();
    assert_eq!(
        log.as_slice(),
        &[
            "one:join:r".to_string(),
            "two:join:r".to_string(),
            "one:welcome:red".to_string(),
            "two:welcome:red".to_string(),
            "one:update:5".to_string(),
            "two:update:5".to_string(),
            "one:move".to_string(),
            "two:move".to_string(),
        ]
    );
}

#[test]
fn framing_helpers_produce_the_wire_fragments() {
    assert_eq!(protocol_prolog(), "<protocol>");
    assert_eq!(join_request(""), "<join gameType=\"swc_2018_hase_und_igel\"/>");
    assert_eq!(
        join_request("RC-2018-77"),
        "<joinPrepared reservationCode=\"RC-2018-77\" />"
    );
    assert_eq!(
        frame_move_response("abc", "<advance order=\"0\" distance=\"2\" />"),
        "<room roomId=\"abc\"><data class=\"move\"><advance order=\"0\" distance=\"2\" /></data></room>"
    );
}

#[test]
fn error_descriptions_name_the_failure() {
    assert_eq!(
        ClientError::MissingField("roomId".to_string()).describe(),
        "missing required field: roomId"
    );
    assert_eq!(
        ClientError::MalformedValue("index".to_string()).describe(),
        "malformed numeric value in field: index"
    );
    assert_eq!(
        ClientError::StreamError.describe(),
        "the event stream failed before an element was complete"
    );
}
