use curb::wire::{encode, Ending, Inbox, Next, MAX_FRAME_LEN};

fn message(n: Next) -> Vec<u8> {
    match n {
        Next::Message(m) => m,
        other => panic!("{other:?}"),
    }
}

#[test]
fn frames_have_a_big_endian_length() {
    assert_eq!(encode(b"hello").unwrap(), b"\x00\x00\x00\x05hello");
    assert_eq!(encode(b"").unwrap(), b"\x00\x00\x00\x00");
    assert_eq!(&encode(&vec![7u8; 0x10203]).unwrap()[..5], &[0, 1, 2, 3, 7]);
}

#[test]
fn longest_frame() {
    assert!(encode(&vec![0u8; MAX_FRAME_LEN]).is_some());
    assert!(encode(&vec![0u8; MAX_FRAME_LEN + 1]).is_none());
    let mut inbox = Inbox::new();
    inbox.feed(&[0x00, 0x80, 0x00, 0x00]);
    assert!(matches!(inbox.next(), Next::Read));
    let mut inbox = Inbox::new();
    inbox.feed(&[0x00, 0x80, 0x00, 0x01]);
    assert!(matches!(inbox.next(), Next::TooLong));
}

#[test]
fn messages_arrive_whole_and_in_order() {
    let mut bytes = Vec::new();
    for m in [&b"one"[..], &b""[..], &b"three"[..]] {
        bytes.extend_from_slice(&encode(m).unwrap());
    }
    // Byte by byte, and all at once.
    let mut inbox = Inbox::new();
    let mut got = Vec::new();
    for b in &bytes {
        inbox.feed(&[*b]);
        while let Next::Message(m) = inbox.next() {
            got.push(m);
        }
    }
    assert_eq!(got, vec![b"one".to_vec(), b"".to_vec(), b"three".to_vec()]);
    assert_eq!(inbox.close(), Ending::Clean);
    let mut inbox = Inbox::new();
    inbox.feed(&bytes);
    assert_eq!(message(inbox.next()), b"one");
    assert_eq!(message(inbox.next()), b"");
    assert_eq!(message(inbox.next()), b"three");
    assert!(matches!(inbox.next(), Next::Read));
}

#[test]
fn connection_may_end_between_messages() {
    let mut inbox = Inbox::new();
    assert_eq!(inbox.close(), Ending::Clean);
    inbox.feed(&[0, 0, 0]);
    assert_eq!(inbox.close(), Ending::Broken);
    inbox.feed(&[5]);
    assert!(matches!(inbox.next(), Next::Read));
    assert_eq!(inbox.close(), Ending::Clean);
    inbox.feed(b"hel");
    assert!(matches!(inbox.next(), Next::Read));
    assert_eq!(inbox.close(), Ending::Broken);
    inbox.feed(b"lo");
    assert_eq!(message(inbox.next()), b"hello");
}
