//! The words that a channel's two sides exchange.

use soul::protocols::spmc::{all_done, announce, last_one, pack, receive, unpack, Signal, Step};

#[test]
fn a_word_holds_a_count_and_a_generation() {
    assert_eq!(pack(5, false), 5);
    assert_eq!(pack(5, true), 0x8000_0005);
    assert_eq!(unpack(0x8000_0005), (5, true));
    assert_eq!(unpack(7), (7, false));
    assert_eq!(announce(0x8000_0000, 3), 3);
    assert_eq!(announce(0, 3), 0x8000_0003);
    assert!(last_one(0x8000_0001) && !last_one(2));
    assert!(all_done(0x8000_0000) && !all_done(1));
}

#[test]
fn a_receiver_takes_only_a_fresh_message() {
    let word = announce(0, 2);
    assert_eq!(receive(word, false, true, true), Step::Take);
    assert_eq!(receive(word, false, true, false), Step::Wait);
    assert_eq!(receive(word, false, false, true), Step::Wait);
    assert_eq!(receive(word, true, true, true), Step::Exit);
}

#[test]
fn a_message_is_done_once_all_have_counted_off() {
    let s = Signal::new(2);
    assert_eq!(s.poll_done(), (true, 0));
    let w = s.send();
    assert_eq!(unpack(w), (2, true));
    assert_eq!(s.poll(true), (Step::Take, w));
    assert_eq!(s.poll_done(), (false, w));
    assert_eq!(s.count_off(), (false, w));
    assert_eq!(s.poll_done(), (false, w - 1));
    assert_eq!(s.count_off(), (true, w - 1));
    assert_eq!(s.poll_done(), (true, w - 2));
    assert_eq!(s.poll(false).0, Step::Wait);
    let next = s.send();
    assert_eq!(unpack(next), (2, false));
    assert_eq!(s.poll(true).0, Step::Wait);
    assert_eq!(s.poll(false).0, Step::Take);
    s.wake();
    assert_eq!(s.poll(false).0, Step::Exit);
}
