//! End-to-end tests of the framer, the classifier, and the session machine.

use dccli::classify::{classify, Message, ProtocolError};
use dccli::framer::Framer;
use dccli::session::{wire_format, Session, SessionState};
use dccli::Args;

fn config(channels: Vec<&str>, bot: &str, pack: usize) -> Args {
    Args {
        bot: bot.to_string(),
        pack,
        channel: channels.into_iter().map(|c| c.to_string()).collect(),
        port: 6667,
        server: "irc.example.net".to_string(),
        verbose: false,
    }
}

#[test]
fn framer_splits_complete_lines() {
    let mut f = Framer::new();
    let lines = f.push_chunk(b"PING :x\r\nFOO\n");
    assert_eq!(lines.len(), 2);
    assert_eq!(lines[0], b"PING :x\r".to_vec());
    assert_eq!(lines[1], b"FOO".to_vec());
}

#[test]
fn framer_boundary_at_line_feed_leaves_nothing() {
    let mut f = Framer::new();
    let lines = f.push_chunk(b"abc\n");
    assert_eq!(lines.len(), 1);
    // nothing dangles: the next chunk starts a fresh line
    let lines = f.push_chunk(b"def\n");
    assert_eq!(lines.len(), 1);
    assert_eq!(lines[0], b"def".to_vec());
}

#[test]
fn framer_carries_partial_line() {
    let mut f = Framer::new();
    assert_eq!(f.push_chunk(b"PI").len(), 0);
    assert_eq!(f.push_chunk(b"NG x").len(), 0);
    let lines = f.push_chunk(b"\n");
    assert_eq!(lines.len(), 1);
    assert_eq!(lines[0], b"PING x".to_vec());
}

#[test]
fn framer_chunking_is_idempotent() {
    let stream: &[u8] = b"one\r\ntwo\nthree\r\npartial";
    let mut whole = Framer::new();
    let expect = whole.push_chunk(stream);
    let mut pieces = Framer::new();
    let mut got: Vec<Vec<u8>> = Vec::new();
    for b in stream {
        got.extend(pieces.push_chunk(&[*b]));
    }
    assert_eq!(got, expect);
    // and both framers complete the carried fragment the same way
    let tail_whole = whole.push_chunk(b"\n");
    let tail_pieces = pieces.push_chunk(b"\n");
    assert_eq!(tail_whole, vec![b"partial".to_vec()]);
    assert_eq!(tail_pieces, tail_whole);
}

#[test]
fn classify_ping_extracts_token() {
    match classify("PING :abc123") {
        Ok(Message::Ping { token }) => assert_eq!(token, ":abc123"),
        _ => panic!("expected a ping"),
    }
}

#[test]
fn classify_ping_with_sender_prefix() {
    match classify(":irc.example.net PING :tok") {
        Ok(Message::Ping { token }) => assert_eq!(token, ":tok"),
        _ => panic!("expected a ping"),
    }
}

#[test]
fn classify_mode_notice() {
    assert!(matches!(classify("MODE me :+iwx"), Ok(Message::ModeNotice)));
    assert!(matches!(
        classify(":irc.example.net MODE me :+iwx"),
        Ok(Message::ModeNotice)
    ));
}

#[test]
fn classify_priority_ping_wins() {
    // a line that is both a PING and holds a DCC SEND offer is a PING
    match classify("PING :DCC SEND f 1 2 3") {
        Ok(Message::Ping { token }) => assert_eq!(token, ":DCC SEND f 1 2 3"),
        _ => panic!("the ping shape has priority"),
    }
}

#[test]
fn classify_quoted_offer() {
    match classify(":xbot PRIVMSG user :DCC SEND \"movie.mkv\" 3232235777 5001 104857600") {
        Ok(Message::DccOffer(d)) => {
            assert_eq!(d.filename, "movie.mkv");
            assert_eq!(d.address, 3232235777);
            assert_eq!(d.port, 5001);
            assert_eq!(d.size, 104857600);
        },
        _ => panic!("expected an offer"),
    }
}

#[test]
fn classify_unquoted_offer_with_spaces() {
    match classify("DCC SEND my file.mkv 1 2 3") {
        Ok(Message::DccOffer(d)) => {
            assert_eq!(d.filename, "my file.mkv");
            assert_eq!(d.address, 1);
            assert_eq!(d.port, 2);
            assert_eq!(d.size, 3);
        },
        _ => panic!("expected an offer"),
    }
}

#[test]
fn classify_offer_port_out_of_range_is_fatal() {
    assert_eq!(
        classify(":x PRIVMSG u :DCC SEND f 1 70000 3").unwrap_err(),
        ProtocolError::MalformedOffer
    );
}

#[test]
fn classify_offer_address_out_of_range_is_fatal() {
    assert_eq!(
        classify("DCC SEND f 4294967296 1 3").unwrap_err(),
        ProtocolError::MalformedOffer
    );
}

#[test]
fn classify_offer_size_out_of_range_is_fatal() {
    assert_eq!(
        classify("DCC SEND f 1 2 18446744073709551616").unwrap_err(),
        ProtocolError::MalformedOffer
    );
}

#[test]
fn classify_short_offer_is_unrecognized() {
    assert!(matches!(classify("DCC SEND f 1 2"), Ok(Message::Unrecognized)));
    assert!(matches!(classify("001 welcome"), Ok(Message::Unrecognized)));
}

#[test]
fn session_registers_on_construction() {
    let (s, cmds) = Session::new(config(vec![], "xbot", 1));
    assert_eq!(cmds, vec!["USER TestTest 0 * TestTest", "NICK TestTest"]);
    assert_eq!(s.state(), SessionState::Registered);
}

#[test]
fn session_ping_round_trip() {
    let (mut s, _) = Session::new(config(vec!["foo"], "xbot", 5));
    let step = s.handle_chunk(b"PING :abc123\r\n");
    assert_eq!(step.commands, vec!["PONG :abc123"]);
    assert!(step.offer.is_none());
    assert!(step.error.is_none());
    assert_eq!(s.state(), SessionState::Registered);
}

#[test]
fn session_mode_fan_out() {
    let (mut s, _) = Session::new(config(vec!["foo", "bar"], "xbot", 5));
    let step = s.handle_chunk(b":irc.example.net MODE me :+iwx\r\n");
    assert_eq!(
        step.commands,
        vec!["JOIN #foo", "JOIN #bar", "PRIVMSG xbot :XDCC GET #5"]
    );
    assert!(step.offer.is_none());
    assert!(step.error.is_none());
    assert_eq!(s.state(), SessionState::AwaitingOffer);
}

#[test]
fn session_offer_then_silence() {
    let (mut s, _) = Session::new(config(vec!["foo"], "xbot", 5));
    s.handle_chunk(b":irc.example.net MODE me :+iwx\r\n");
    let step = s.handle_chunk(b":xbot PRIVMSG me :DCC SEND \"movie.mkv\" 3232235777 5001 16\r\n");
    assert_eq!(step.commands, vec!["QUIT"]);
    let d = step.offer.expect("the offer descriptor");
    assert_eq!(d.filename, "movie.mkv");
    assert_eq!(s.state(), SessionState::OfferReceived);
    // after the offer nothing is ever sent again
    let later = s.handle_chunk(b"PING :x\r\nMODE me :+i\r\n");
    assert!(later.commands.is_empty());
    assert!(later.offer.is_none());
    assert!(later.error.is_none());
}

#[test]
fn session_offer_stops_the_chunk() {
    // the offer and a later ping arrive in one read: the ping is not answered
    let (mut s, _) = Session::new(config(vec![], "xbot", 5));
    let step = s.handle_chunk(b"DCC SEND f 1 2 3\r\nPING :late\r\n");
    assert_eq!(step.commands, vec!["QUIT"]);
    assert!(step.offer.is_some());
}

#[test]
fn session_multiple_lines_in_order() {
    let (mut s, _) = Session::new(config(vec![], "xbot", 5));
    let step = s.handle_chunk(b"PING :a\nPING :b\n");
    assert_eq!(step.commands, vec!["PONG :a", "PONG :b"]);
}

#[test]
fn session_trims_ascii_whitespace() {
    let (mut s, _) = Session::new(config(vec![], "xbot", 5));
    let step = s.handle_chunk(b"  PING :x  \r\n");
    assert_eq!(step.commands, vec!["PONG :x"]);
}

#[test]
fn session_rejects_bytes_that_are_not_text() {
    let (mut s, _) = Session::new(config(vec![], "xbot", 5));
    let step = s.handle_chunk(&[b'P', 0xff, 0xfe, b'\n']);
    assert_eq!(step.error, Some(ProtocolError::InvalidText));
    assert!(step.commands.is_empty());
    assert!(step.offer.is_none());
}

#[test]
fn session_connection_closed() {
    let (mut s, _) = Session::new(config(vec![], "xbot", 5));
    s.on_connection_closed();
    assert_eq!(s.state(), SessionState::Closed);
}

#[test]
fn wire_format_appends_crlf() {
    assert_eq!(wire_format("QUIT"), b"QUIT\r\n".to_vec());
    assert_eq!(wire_format("PONG :abc"), b"PONG :abc\r\n".to_vec());
}

#[test]
fn session_surfaces_decoded_lines() {
    let (mut s, _) = Session::new(config(vec![], "xbot", 5));
    let step = s.handle_chunk(b"PING :a\r\nsome notice\n");
    assert_eq!(step.lines, vec!["PING :a", "some notice"]);
}

#[test]
fn session_decodes_multibyte_text() {
    let (mut s, _) = Session::new(config(vec![], "xbot", 5));
    let step = s.handle_chunk("PING :caf\u{e9}\r\n".as_bytes());
    assert_eq!(step.commands, vec!["PONG :caf\u{e9}"]);
    assert_eq!(step.lines, vec!["PING :caf\u{e9}"]);
}

#[test]
fn classify_ctcp_framed_offer() {
    // the usual wire form: the DCC payload framed by control bytes
    match classify(":xbot PRIVMSG me :\u{1}DCC SEND \"movie.mkv\" 3232235777 5001 104857600\u{1}") {
        Ok(Message::DccOffer(d)) => {
            assert_eq!(d.filename, "movie.mkv");
            assert_eq!(d.address, 3232235777);
            assert_eq!(d.port, 5001);
            assert_eq!(d.size, 104857600);
        }
        _ => panic!("expected an offer"),
    }
}

#[test]
fn classify_unquoted_offer_with_trailing_bytes() {
    match classify(":xbot PRIVMSG me :\u{1}DCC SEND movie.mkv 3232235777 5001 104857600\u{1}") {
        Ok(Message::DccOffer(d)) => {
            assert_eq!(d.filename, "movie.mkv");
            assert_eq!(d.address, 3232235777);
            assert_eq!(d.port, 5001);
            assert_eq!(d.size, 104857600);
        }
        _ => panic!("expected an offer"),
    }
}

#[test]
fn classify_offer_takes_rightmost_fields() {
    // with four numeric runs the unquoted filename extends greedily
    match classify("DCC SEND f 1 2 3 4") {
        Ok(Message::DccOffer(d)) => {
            assert_eq!(d.filename, "f 1");
            assert_eq!(d.address, 2);
            assert_eq!(d.port, 3);
            assert_eq!(d.size, 4);
        }
        _ => panic!("expected an offer"),
    }
}

#[test]
fn session_ctcp_framed_offer_end_to_end() {
    let (mut s, _) = Session::new(config(vec!["foo"], "xbot", 5));
    s.handle_chunk(b":irc.example.net MODE me :+iwx\r\n");
    let step =
        s.handle_chunk(b":xbot PRIVMSG me :\x01DCC SEND \"movie.mkv\" 3232235777 5001 16\x01\r\n");
    assert_eq!(step.commands, vec!["QUIT"]);
    let d = step.offer.expect("the offer descriptor");
    assert_eq!(d.filename, "movie.mkv");
    assert_eq!(d.port, 5001);
    assert_eq!(d.size, 16);
}
