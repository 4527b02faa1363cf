use latency_ladder::iextp::{Error, Segment, PROTOCOL_DEEP};

fn bodies<'a>(s: &Segment<'a>) -> Vec<&'a [u8]> {
    let mut messages = s.messages();
    let mut out = Vec::new();
    while let Some(m) = messages.next() {
        out.push(m);
    }
    out
}

fn segment(session: u32, first_seq: i64, msgs: &[&[u8]]) -> Vec<u8> {
    let mut body = Vec::new();
    for m in msgs {
        body.extend_from_slice(&(m.len() as u16).to_le_bytes());
        body.extend_from_slice(m);
    }
    let mut v = Vec::new();
    v.push(1); // version
    v.push(0); // reserved
    v.extend_from_slice(&PROTOCOL_DEEP.to_le_bytes());
    v.extend_from_slice(&1u32.to_le_bytes()); // channel
    v.extend_from_slice(&session.to_le_bytes());
    v.extend_from_slice(&(body.len() as u16).to_le_bytes());
    v.extend_from_slice(&(msgs.len() as u16).to_le_bytes());
    v.extend_from_slice(&0i64.to_le_bytes()); // stream offset
    v.extend_from_slice(&first_seq.to_le_bytes());
    v.extend_from_slice(&0i64.to_le_bytes()); // send time
    v.extend_from_slice(&body);
    v
}

#[test]
fn parses_header_and_messages() {
    let raw = segment(1140588544, 42, &[b"abc", b"de"]);
    let s = Segment::parse(&raw).unwrap();
    assert_eq!(s.version, 1);
    assert_eq!(s.protocol, PROTOCOL_DEEP);
    assert_eq!(s.session, 1140588544);
    assert_eq!(s.first_sequence, 42);
    assert_eq!(s.message_count, 2);
    assert_eq!(s.next_sequence(), 44);
    let got = bodies(&s);
    assert_eq!(got, vec![b"abc".as_slice(), b"de".as_slice()]);
}

/// The first segment of the real fixture is a heartbeat. It must parse as a
/// normal segment carrying nothing, not as an error and not as a gap.
#[test]
fn heartbeat_is_valid_and_advances_nothing() {
    let raw = segment(1, 1, &[]);
    let s = Segment::parse(&raw).unwrap();
    assert!(s.is_heartbeat());
    assert_eq!(s.next_sequence(), 1);
    assert_eq!(bodies(&s).len(), 0);
}

#[test]
fn short_payloads_error_rather_than_panic() {
    let raw = segment(1, 1, &[b"abc"]);
    for n in 0..raw.len() {
        match Segment::parse(&raw[..n]) {
            Ok(s) => {
                let _ = bodies(&s);
            }
            Err(Error::Truncated { .. }) => {}
            Err(e) => panic!("unexpected {e:?}"),
        }
    }
}

/// A count that overstates the body must not read past it.
#[test]
fn lying_message_count_is_bounded_by_the_buffer() {
    let mut raw = segment(1, 1, &[b"abc"]);
    raw[14..16].copy_from_slice(&9u16.to_le_bytes());
    assert_eq!(bodies(&Segment::parse(&raw).unwrap()).len(), 1);
}
