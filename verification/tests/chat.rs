use sorb::chat::client::{server_gone, ChatInput, ClientAction};
use sorb::chat::protocol::{body_length, frame, length_header, Packet};
use sorb::chat::ui::{ChatUI, LineStyle};
use sorb::chat::{parse_chat_args, ChatCommand};
use sorb::easter_eggs::engine::input::Key;

fn args(ws: &[&str]) -> Vec<String> {
    ws.iter().map(|w| w.to_string()).collect()
}

#[test]
fn no_arguments_show_the_usage() {
    assert_eq!(parse_chat_args(&Vec::new()), ChatCommand::Usage);
}

#[test]
fn server_with_and_without_a_port() {
    assert_eq!(parse_chat_args(&args(&["server", "9000"])), ChatCommand::Server { port: 9000 });
    assert_eq!(parse_chat_args(&args(&["server"])), ChatCommand::Server { port: 8080 });
    assert_eq!(parse_chat_args(&args(&["server", "nope"])), ChatCommand::Server { port: 8080 });
    assert_eq!(parse_chat_args(&args(&["server", "70000"])), ChatCommand::Server { port: 8080 });
    assert_eq!(parse_chat_args(&args(&["server", "+65535"])), ChatCommand::Server { port: 65535 });
    assert_eq!(parse_chat_args(&args(&["server", " 80"])), ChatCommand::Server { port: 8080 });
}

#[test]
fn client_needs_host_port_and_name() {
    assert_eq!(parse_chat_args(&args(&["client", "localhost", "9000"])), ChatCommand::ClientUsage);
    assert_eq!(
        parse_chat_args(&args(&["client", "10.0.0.2", "9000", "ann", "extra"])),
        ChatCommand::Client { host: "10.0.0.2".to_string(), port: 9000, username: "ann".to_string() }
    );
    assert_eq!(
        parse_chat_args(&args(&["client", "h", "-1", "bob"])),
        ChatCommand::Client { host: "h".to_string(), port: 8080, username: "bob".to_string() }
    );
}

#[test]
fn unknown_subcommands_are_named() {
    assert_eq!(parse_chat_args(&args(&["talk"])), ChatCommand::Unknown { subcommand: "talk".to_string() });
}

#[test]
fn headers_are_big_endian_lengths() {
    assert_eq!(length_header(0), [0, 0, 0, 0]);
    assert_eq!(length_header(5), [0, 0, 0, 5]);
    assert_eq!(length_header(0x0102_0304), [1, 2, 3, 4]);
    assert_eq!(body_length([0, 0, 1, 0]), 256);
    assert_eq!(body_length([0xff, 0xff, 0xff, 0xff]), 0xffff_ffff);
    for n in [0usize, 1, 255, 256, 65_536, 123_456_789] {
        assert_eq!(body_length(length_header(n)), n);
    }
}

#[test]
fn a_frame_is_the_header_then_the_body() {
    let body = b"{\"Leave\":{\"username\":\"x\"}}".to_vec();
    let bytes = frame(&body);
    assert_eq!(bytes.len(), 4 + body.len());
    assert_eq!(&bytes[..4], &[0, 0, 0, body.len() as u8]);
    assert_eq!(&bytes[4..], &body[..]);
    assert_eq!(frame(&Vec::new()), vec![0, 0, 0, 0]);
}

#[test]
fn the_window_shows_joins_messages_and_leaves() {
    let mut ui = ChatUI::new("ann".to_string());
    ui.add_packet(Packet::Join { username: "bob".to_string() });
    ui.add_packet(Packet::Message { username: "bob".to_string(), content: "hi".to_string() });
    ui.add_packet(Packet::Message { username: "ann".to_string(), content: "hello".to_string() });
    ui.add_packet(Packet::Leave { username: "bob".to_string() });
    let lines = ui.lines();
    assert_eq!(lines.len(), 4);
    assert_eq!(lines[0].style, LineStyle::System);
    assert_eq!(lines[0].label, "");
    assert_eq!(lines[0].text, "*** bob joined ***");
    assert_eq!(lines[1].style, LineStyle::Other);
    assert_eq!(lines[1].label, "bob: ");
    assert_eq!(lines[1].text, "hi");
    assert_eq!(lines[2].style, LineStyle::Own);
    assert_eq!(lines[2].label, "ann: ");
    assert_eq!(lines[2].text, "hello");
    assert_eq!(lines[3].text, "*** bob left ***");
}

#[test]
fn the_window_keeps_the_typed_line() {
    let mut ui = ChatUI::new("ann".to_string());
    assert_eq!(ui.input(), "");
    ui.set_input("draft".to_string());
    assert_eq!(ui.input(), "draft");
    assert!(ui.lines().is_empty());
}

#[test]
fn typing_and_sending_a_line() {
    let mut input = ChatInput::new();
    for c in "hey!".chars() {
        assert!(matches!(input.on_key(Key::Char(c), "ann"), ClientAction::Idle));
    }
    assert!(matches!(input.on_key(Key::Backspace, "ann"), ClientAction::Idle));
    assert_eq!(input.line(), "hey");
    match input.on_key(Key::Enter, "ann") {
        ClientAction::Send(Packet::Message { username, content }) => {
            assert_eq!(username, "ann");
            assert_eq!(content, "hey");
        },
        other => panic!("unexpected {:?}", other),
    }
    assert_eq!(input.line(), "");
    assert!(matches!(input.on_key(Key::Enter, "ann"), ClientAction::Idle));
    assert!(matches!(input.on_key(Key::Backspace, "ann"), ClientAction::Idle));
    assert!(matches!(input.on_key(Key::Up, "ann"), ClientAction::Idle));
}

#[test]
fn a_blank_line_is_sent_as_typed() {
    let mut input = ChatInput::new();
    input.on_key(Key::Char(' '), "ann");
    match input.on_key(Key::Enter, "ann") {
        ClientAction::Send(Packet::Message { content, .. }) => assert_eq!(content, " "),
        other => panic!("unexpected {:?}", other),
    }
}

#[test]
fn quit_commands_and_escape_leave() {
    for line in ["/quit", "/q", "  /q\t"] {
        let mut input = ChatInput::new();
        for c in line.chars() {
            input.on_key(Key::Char(c), "bob");
        }
        match input.on_key(Key::Enter, "bob") {
            ClientAction::Quit(Packet::Leave { username }) => assert_eq!(username, "bob"),
            other => panic!("unexpected {:?}", other),
        }
    }
    let mut input = ChatInput::new();
    match input.on_key(Key::Esc, "bob") {
        ClientAction::Quit(Packet::Leave { username }) => assert_eq!(username, "bob"),
        other => panic!("unexpected {:?}", other),
    }
    let mut input = ChatInput::new();
    for c in "/quitter".chars() {
        input.on_key(Key::Char(c), "bob");
    }
    assert!(matches!(input.on_key(Key::Enter, "bob"), ClientAction::Send(_)));
}

#[test]
fn a_vanished_server_leaves() {
    match server_gone() {
        Packet::Leave { username } => assert_eq!(username, "server"),
        other => panic!("unexpected {:?}", other),
    }
}

#[test]
fn ports_parse_like_u16() {
    let port = |s: &str| match parse_chat_args(&args(&["server", s])) {
        ChatCommand::Server { port } => port,
        other => panic!("unexpected {:?}", other),
    };
    assert_eq!(port("00080"), 80);
    assert_eq!(port("65535"), 65535);
    assert_eq!(port("65536"), 8080);
    assert_eq!(port("99999999999"), 8080);
    assert_eq!(port("+"), 8080);
    assert_eq!(port(""), 8080);
    assert_eq!(port("8o"), 8080);
    assert_eq!(port("0"), 0);
}
