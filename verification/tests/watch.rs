use judgment::watch::Sender;

#[test]
fn reads_between_sends_give_the_same_value() {
    let mut sender = Sender::new(vec![1u8, 2]);
    assert_eq!(*sender.borrow(), vec![1, 2]);
    assert_eq!(*sender.borrow(), vec![1, 2]);
    assert_eq!(sender.send_replace(vec![3]), vec![1, 2]);
    assert_eq!(*sender.borrow(), vec![3]);
    assert_eq!(*sender.borrow(), vec![3]);
}

#[test]
fn a_send_is_seen_once_by_every_earlier_reader() {
    let mut sender = Sender::new(0i64);
    let mut readers = vec![sender.subscribe(), sender.subscribe(), sender.subscribe()];
    for reader in &readers {
        assert!(!reader.has_changed(&sender));
    }
    sender.send_replace(17);
    let late = sender.subscribe();
    assert!(!late.has_changed(&sender));
    assert_eq!(*sender.borrow(), 17);
    for reader in readers.iter_mut() {
        assert!(reader.has_changed(&sender));
        assert_eq!(*reader.borrow_and_update(&sender), 17);
        assert!(!reader.has_changed(&sender));
    }
}

#[test]
fn a_send_of_the_same_value_still_counts() {
    let mut sender = Sender::new(5u8);
    let reader = sender.subscribe();
    assert_eq!(sender.send_replace(5), 5);
    assert!(reader.has_changed(&sender));
}

#[test]
fn only_the_latest_value_is_kept() {
    let mut sender = Sender::new(String::from("a"));
    let mut reader = sender.subscribe();
    sender.send_replace(String::from("b"));
    sender.send_replace(String::from("c"));
    assert!(reader.has_changed(&sender));
    assert_eq!(reader.borrow_and_update(&sender), "c");
    assert!(!reader.has_changed(&sender));
}
