use peas_rf_cp::common::id::Id;
use peas_rf_cp::node::bot::{Bot, MAX_WAIT_MS, MIN_WAIT_MS, SLEEP_MS};
use peas_rf_cp::node::nethandle::{read, send_message, send_to_net, Polled, SendError};
use peas_rf_cp::node::{FromNetMsg, Message, ToNetMsg};

#[test]
fn reading_from_the_worker() {
    let m = Message::new("hi".to_string(), Id::from_u64(1), "n".to_string(), false);
    assert!(matches!(
        read(Polled::Message(FromNetMsg::NewMsg(m))),
        Ok(Some(FromNetMsg::NewMsg(x))) if x.get_message() == "hi"
    ));
    assert!(matches!(read(Polled::Message(FromNetMsg::NotSent)), Ok(Some(FromNetMsg::NotSent))));
    assert!(matches!(read(Polled::Empty), Ok(None)));
    assert!(matches!(read(Polled::Disconnected), Err(SendError::Disconnected)));
}

#[test]
fn sending_to_the_worker() {
    assert!(matches!(send_message("hi".to_string()), ToNetMsg::NewMsg(t) if t == "hi"));
    assert_eq!(send_to_net(true), Ok(()));
    assert_eq!(send_to_net(false), Err(SendError::Disconnected));
}

#[test]
fn bot_counts_up() {
    let mut b = Bot::bot_main(1_000);
    assert_eq!(b.tick_at(999, 5_000), None);
    assert_eq!(b.tick_at(1_000, 5_000), Some(1));
    assert_eq!(b.tick_at(5_999, 2_000), None);
    assert_eq!(b.tick_at(6_000, 2_000), Some(2));
    assert_eq!(b.next_action, 8_000);
    assert_eq!(b.cnt, 2);
    assert_eq!(b.tick_at(u64::MAX, 10), Some(3));
    assert_eq!(b.next_action, u64::MAX);
}

#[test]
fn bot_waits_between_one_and_ten_seconds() {
    assert_eq!((MIN_WAIT_MS, MAX_WAIT_MS, SLEEP_MS), (1_000, 10_000, 500));
    for _ in 0..200 {
        let mut b = Bot::bot_main(0);
        let before = peas_rf_cp::common::timer::now_millis();
        assert_eq!(b.tick(), Some(1));
        let after = peas_rf_cp::common::timer::now_millis();
        assert!(b.next_action >= before + 1_000);
        assert!(b.next_action < after + 10_000);
        assert_eq!(b.tick(), None);
    }
}
