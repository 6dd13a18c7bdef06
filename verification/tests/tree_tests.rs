use hase_client::xml_utils::ParseEvent;
use hase_client::xml_utils::RawAttribute;
use hase_client::xml_utils::TreeAssembler;
use hase_client::xml_utils::XMLNode;
use hase_client::ClientError;

fn attr(name: &str, value: &str) -> RawAttribute {
    RawAttribute { name: name.to_string(), value: value.to_string() }
}

fn start(name: &str, attributes: Vec<RawAttribute>) -> ParseEvent {
    ParseEvent::Start { name: name.to_string(), attributes }
}

#[test]
fn builds_nested_structure_and_first_attribute_value() {
    let events = vec![
        start("root", vec![attr("a", "1"), attr("a", "2"), attr("b", "x")]),
        start("first", vec![]),
        ParseEvent::End,
        start("second", vec![attr("k", "v")]),
        start("inner", vec![]),
        ParseEvent::End,
        ParseEvent::End,
        ParseEvent::End,
    ];
    let mut pos = 0usize;
    let node = XMLNode::read_from(&events, &mut pos).unwrap();
    assert_eq!(pos, events.len());
    assert_eq!(node.get_name().as_str(), "root");
    // lookup returns the first recorded value for a repeated name
    assert_eq!(node.get_attribute("a"), Some(&"1".to_string()));
    assert_eq!(node.get_attribute("b"), Some(&"x".to_string()));
    assert_eq!(node.get_attribute("missing"), None);
    let childs = node.get_childs();
    assert_eq!(childs.len(), 2);
    assert_eq!(childs[0].get_name().as_str(), "first");
    assert_eq!(childs[1].get_name().as_str(), "second");
    assert_eq!(childs[1].get_childs().len(), 1);
    assert_eq!(childs[1].get_childs()[0].get_name().as_str(), "inner");
    assert_eq!(node.get_child("second").unwrap().get_attribute("k"), Some(&"v".to_string()));
    assert!(node.get_child("third").is_none());
}

#[test]
fn self_closing_element_keeps_zero_child_node() {
    let events = vec![
        start("outer", vec![]),
        start("empty", vec![attr("x", "y")]),
        ParseEvent::End,
        ParseEvent::End,
    ];
    let mut pos = 0usize;
    let node = XMLNode::read_from(&events, &mut pos).unwrap();
    assert_eq!(node.get_childs().len(), 1);
    let empty = &node.get_childs()[0];
    assert_eq!(empty.get_name().as_str(), "empty");
    assert_eq!(empty.get_childs().len(), 0);
    assert_eq!(empty.get_attribute("x"), Some(&"y".to_string()));
}

#[test]
fn top_level_self_closing_element_is_returned() {
    let events = vec![start("lonely", vec![]), ParseEvent::End];
    let mut pos = 0usize;
    let node = XMLNode::read_from(&events, &mut pos).unwrap();
    assert_eq!(node.get_name().as_str(), "lonely");
    assert_eq!(node.get_childs().len(), 0);
    assert_eq!(pos, 2);
}

#[test]
fn reads_one_element_per_call() {
    let events = vec![
        start("one", vec![]),
        ParseEvent::End,
        start("two", vec![]),
        ParseEvent::End,
    ];
    let mut pos = 0usize;
    let first = XMLNode::read_from(&events, &mut pos).unwrap();
    assert_eq!(first.get_name().as_str(), "one");
    assert_eq!(pos, 2);
    let second = XMLNode::read_from(&events, &mut pos).unwrap();
    assert_eq!(second.get_name().as_str(), "two");
    assert_eq!(pos, 4);
}

#[test]
fn source_failure_is_a_stream_error() {
    let events = vec![start("broken", vec![]), ParseEvent::Failure];
    let mut pos = 0usize;
    let r = XMLNode::read_from(&events, &mut pos);
    assert!(matches!(r, Err(ClientError::StreamError)));
}

#[test]
fn exhausted_source_is_a_stream_error() {
    let events = vec![start("unfinished", vec![]), start("inner", vec![])];
    let mut pos = 0usize;
    let r = XMLNode::read_from(&events, &mut pos);
    assert!(matches!(r, Err(ClientError::StreamError)));
}

#[test]
fn stray_end_before_any_start_is_ignored() {
    let events = vec![ParseEvent::End, ParseEvent::Other, start("a", vec![]), ParseEvent::End];
    let mut pos = 0usize;
    let node = XMLNode::read_from(&events, &mut pos).unwrap();
    assert_eq!(node.get_name().as_str(), "a");
}

#[test]
fn assembler_reports_completion_incrementally() {
    let mut machine = TreeAssembler::new();
    assert!(matches!(machine.feed(&start("a", vec![])), Ok(None)));
    assert!(matches!(machine.feed(&start("b", vec![])), Ok(None)));
    assert!(matches!(machine.feed(&ParseEvent::End), Ok(None)));
    let done = machine.feed(&ParseEvent::End);
    match done {
        Ok(Some(node)) => {
            assert_eq!(node.get_name().as_str(), "a");
            assert_eq!(node.get_childs().len(), 1);
        },
        _ => panic!("expected a completed element"),
    }
    // the machine is reset and usable for the next element
    assert!(matches!(machine.feed(&start("c", vec![])), Ok(None)));
    match machine.feed(&ParseEvent::End) {
        Ok(Some(node)) => assert_eq!(node.get_name().as_str(), "c"),
        _ => panic!("expected a completed element"),
    }
}

#[test]
fn deep_nesting_unwinds_correctly() {
    let mut events = Vec::new();
    for depth in 0..40 {
        events.push(start(&format!("level{}", depth), vec![]));
    }
    for _ in 0..40 {
        events.push(ParseEvent::End);
    }
    let mut pos = 0usize;
    let node = XMLNode::read_from(&events, &mut pos).unwrap();
    let mut current = &node;
    for depth in 0..39 {
        assert_eq!(current.get_name(), &format!("level{}", depth));
        assert_eq!(current.get_childs().len(), 1);
        current = &current.get_childs()[0];
    }
    assert_eq!(current.get_name(), "level39");
    assert_eq!(current.get_childs().len(), 0);
}
