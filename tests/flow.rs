use gpao::flow::{parse_duration, DataKey, FlowElementInput, FlowElementOutput, InConnection, OutConnection};

#[test]
fn ports_hold_their_connections() {
    let input = FlowElementInput {
        connections: vec![InConnection { node: String::from("node1"), input: String::from("input1") }],
    };
    let output = FlowElementOutput {
        connections: vec![OutConnection { node: String::from("node2"), output: String::from("output1") }],
    };
    assert_eq!(input.connections.len(), 1);
    assert_eq!(input.connections[0].node, "node1");
    assert_eq!(input.connections[0].input, "input1");
    assert_eq!(output.connections[0].node, "node2");
    assert_eq!(output.connections[0].output, "output1");
    assert_eq!(DataKey::Duration, DataKey::Duration);
}

#[test]
fn duration_text_is_parsed() {
    assert_eq!(parse_duration("42"), 42);
    assert_eq!(parse_duration("0"), 0);
    assert_eq!(parse_duration("+7"), 7);
    assert_eq!(parse_duration("007"), 7);
}

#[test]
fn invalid_duration_text_gives_zero() {
    assert_eq!(parse_duration("invalid"), 0);
    assert_eq!(parse_duration(""), 0);
    assert_eq!(parse_duration("+"), 0);
    assert_eq!(parse_duration("-1"), 0);
    assert_eq!(parse_duration("4 2"), 0);
    assert_eq!(parse_duration("12a"), 0);
    assert_eq!(parse_duration("\u{663}"), 0);
}

#[test]
fn duration_at_the_limit() {
    let max = usize::MAX.to_string();
    assert_eq!(parse_duration(&max), usize::MAX);
    let over = format!("{}0", max);
    assert_eq!(parse_duration(&over), 0);
    let over_by_one = (usize::MAX as u128 + 1).to_string();
    assert_eq!(parse_duration(&over_by_one), 0);
}

#[test]
fn parse_agrees_with_std() {
    for s in ["1", "99", "+0", "", "x", "-0", "1_000", " 5", "5 ", "123456789"] {
        assert_eq!(parse_duration(s), s.parse::<usize>().unwrap_or(0), "text {:?}", s);
    }
}
