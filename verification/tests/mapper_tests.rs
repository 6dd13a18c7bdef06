use hase_client::xml_utils::ParseEvent;
use hase_client::xml_utils::RawAttribute;
use hase_client::xml_utils::XMLNode;
use hase_client::ClientError;

fn attr(name: &str, value: &str) -> RawAttribute {
    RawAttribute { name: name.to_string(), value: value.to_string() }
}

fn start(name: &str, attributes: Vec<RawAttribute>) -> ParseEvent {
    ParseEvent::Start { name: name.to_string(), attributes }
}

fn read(events: Vec<ParseEvent>) -> XMLNode {
    let mut pos = 0usize;
    XMLNode::read_from(&events, &mut pos).unwrap()
}

fn player_events(
    name: &str,
    display_name: &str,
    color: &str,
    index: &str,
    carrots: &str,
    salads: &str,
    cards: &[&str],
) -> Vec<ParseEvent> {
    let mut events = vec![
        start(
            name,
            vec![
                attr("displayName", display_name),
                attr("color", color),
                attr("index", index),
                attr("carrots", carrots),
                attr("salads", salads),
            ],
        ),
        start("cards", vec![]),
    ];
    for card in cards {
        events.push(start("card", vec![attr("type", card)]));
        events.push(ParseEvent::End);
    }
    events.push(ParseEvent::End);
    events.push(ParseEvent::End);
    events
}

fn state_events() -> Vec<ParseEvent> {
    let mut events = vec![start("state", vec![])];
    events.extend(player_events("red", "Alice", "red", "5", "10", "3", &["TAKE_OR_DROP_CARROTS"]));
    events.extend(player_events("blue", "Bob", "blue", "2", "30", "5", &[]));
    events.push(start("board", vec![]));
    events.push(start("fields", vec![]));
    for (i, t) in ["START", "GRASS", "CARROT", "HARE"].iter().enumerate() {
        events.push(start("field", vec![attr("type", t), attr("index", &i.to_string())]));
        events.push(ParseEvent::End);
    }
    events.push(ParseEvent::End);
    events.push(ParseEvent::End);
    events.push(ParseEvent::End);
    events
}

#[test]
fn room_and_joined_and_welcome_from_attributes() {
    let node = read(vec![start("joined", vec![attr("roomId", "r-17")]), ParseEvent::End]);
    assert_eq!(node.as_room().unwrap().id, "r-17");
    assert_eq!(node.as_joined().unwrap().id, "r-17");
    let missing = read(vec![start("joined", vec![]), ParseEvent::End]);
    match missing.as_room() {
        Err(ClientError::MissingField(f)) => assert_eq!(f, "roomId"),
        _ => panic!("expected a missing roomId"),
    }
    let wm = read(vec![start("data", vec![attr("color", "red")]), ParseEvent::End]);
    assert_eq!(wm.as_welcome_message().unwrap().color, "red");
}

#[test]
fn card_and_field_mappers() {
    let card = read(vec![start("card", vec![attr("type", "EAT_SALAD")]), ParseEvent::End]);
    assert_eq!(card.as_card().unwrap().card_type, "EAT_SALAD");
    let field = read(vec![
        start("field", vec![attr("type", "CARROT"), attr("index", "7")]),
        ParseEvent::End,
    ]);
    let f = field.as_field().unwrap();
    assert_eq!(f.field_type, "CARROT");
    assert_eq!(f.index, 7);
    let bad = read(vec![
        start("field", vec![attr("type", "CARROT"), attr("index", "seven")]),
        ParseEvent::End,
    ]);
    match bad.as_field() {
        Err(ClientError::MalformedValue(f)) => assert_eq!(f, "index"),
        _ => panic!("expected a malformed index"),
    }
}

#[test]
fn player_round_trip_reproduces_all_values() {
    let node = read(player_events("red", "Alice", "red", "5", "10", "3", &["EAT_SALAD", "HURRY_AHEAD"]));
    let p = node.as_player().unwrap();
    assert_eq!(p.display_name, "Alice");
    assert_eq!(p.color, "red");
    assert_eq!(p.index, 5);
    assert_eq!(p.carrots, 10);
    assert_eq!(p.salads, 3);
    assert_eq!(p.cards.len(), 2);
    assert_eq!(p.cards[0].card_type, "EAT_SALAD");
    assert_eq!(p.cards[1].card_type, "HURRY_AHEAD");
}

#[test]
fn player_without_cards_child_has_no_cards() {
    let node = read(vec![
        start(
            "red",
            vec![
                attr("displayName", "A"),
                attr("color", "red"),
                attr("index", "0"),
                attr("carrots", "68"),
                attr("salads", "5"),
            ],
        ),
        ParseEvent::End,
    ]);
    let p = node.as_player().unwrap();
    assert_eq!(p.cards.len(), 0);
}

#[test]
fn player_missing_attribute_names_it() {
    let node = read(vec![
        start("red", vec![attr("displayName", "A"), attr("color", "red"), attr("index", "0")]),
        ParseEvent::End,
    ]);
    match node.as_player() {
        Err(ClientError::MissingField(f)) => assert_eq!(f, "carrots"),
        _ => panic!("expected a missing carrots attribute"),
    }
}

#[test]
fn game_state_round_trip_reproduces_players_and_board() {
    let state = read(state_events()).as_game_state().unwrap();
    assert_eq!(state.red_player.display_name, "Alice");
    assert_eq!(state.red_player.index, 5);
    assert_eq!(state.red_player.carrots, 10);
    assert_eq!(state.red_player.cards.len(), 1);
    assert_eq!(state.red_player.cards[0].card_type, "TAKE_OR_DROP_CARROTS");
    assert_eq!(state.blue_player.display_name, "Bob");
    assert_eq!(state.blue_player.index, 2);
    assert_eq!(state.blue_player.salads, 5);
    assert_eq!(state.board.fields.len(), 4);
    assert_eq!(state.board.fields[2].field_type, "CARROT");
    assert_eq!(state.board.fields[2].index, 2);
    assert_eq!(state.board.fields[3].field_type, "HARE");
}

#[test]
fn game_state_missing_child_names_it() {
    let node = read(vec![start("state", vec![]), ParseEvent::End]);
    match node.as_game_state() {
        Err(ClientError::MissingField(f)) => assert_eq!(f, "red"),
        _ => panic!("expected a missing red child"),
    }
}

#[test]
fn memento_requires_state_child() {
    let mut events = vec![start("data", vec![attr("class", "memento")])];
    events.extend(state_events());
    events.push(ParseEvent::End);
    let memento = read(events).as_memento().unwrap();
    assert_eq!(memento.state.red_player.display_name, "Alice");

    let bare = read(vec![start("data", vec![attr("class", "memento")]), ParseEvent::End]);
    match bare.as_memento() {
        Err(ClientError::MissingField(f)) => assert_eq!(f, "state"),
        _ => panic!("expected a missing state child"),
    }
}

#[test]
fn get_child_vec_filters_own_children_by_name() {
    let events = vec![
        start("root", vec![]),
        start("card", vec![attr("type", "A")]),
        ParseEvent::End,
        start("other", vec![]),
        ParseEvent::End,
        start("card", vec![attr("type", "B")]),
        ParseEvent::End,
        ParseEvent::End,
    ];
    let node = read(events);
    let cards = node.get_child_vec("card");
    assert_eq!(cards.len(), 2);
    assert_eq!(cards[0].get_attribute("type"), Some(&"A".to_string()));
    assert_eq!(cards[1].get_attribute("type"), Some(&"B".to_string()));
    assert_eq!(node.get_child_vec("other").len(), 1);
    assert_eq!(node.get_child_vec("zzz").len(), 0);
}

#[test]
fn get_child_contents_takes_the_named_childs_children() {
    let events = vec![
        start("player", vec![]),
        start("cards", vec![]),
        start("card", vec![attr("type", "A")]),
        ParseEvent::End,
        start("card", vec![attr("type", "B")]),
        ParseEvent::End,
        ParseEvent::End,
        ParseEvent::End,
    ];
    let node = read(events);
    let cards = node.get_child_contents("cards");
    assert_eq!(cards.len(), 2);
    assert_eq!(cards[0].get_attribute("type"), Some(&"A".to_string()));
    assert_eq!(cards[1].get_attribute("type"), Some(&"B".to_string()));
    assert_eq!(node.get_child_contents("fields").len(), 0);
}

#[test]
fn clone_copies_the_whole_subtree() {
    let events = vec![
        start("root", vec![attr("a", "1"), attr("a", "2")]),
        start("child", vec![attr("k", "v")]),
        ParseEvent::End,
        ParseEvent::End,
    ];
    let node = read(events);
    let copy = node.clone();
    assert_eq!(copy.get_name().as_str(), "root");
    assert_eq!(copy.get_attribute("a"), Some(&"1".to_string()));
    assert_eq!(copy.get_childs().len(), 1);
    assert_eq!(copy.get_childs()[0].get_attribute("k"), Some(&"v".to_string()));
}
