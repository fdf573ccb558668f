use kv::{Customer, Equation, Free, FreePlan, Linear, Personal, PersonalPlan, Quadratic, unbounded};

#[test]
fn test_linear() {
    let mut eq = Equation::<Linear>::default();
    assert_eq!(eq.next(), Some(1));
    assert_eq!(eq.next(), Some(2));
    assert_eq!(eq.next(), Some(3));
    assert_eq!(eq.next(), Some(4));
    assert_eq!(eq.next(), Some(5));
    assert_eq!(eq.next(), Some(6));
}

#[test]
fn quadratic_steps_by_squares() {
    let mut eq = Equation::<Quadratic>::default();
    assert_eq!(eq.next(), Some(4));
    assert_eq!(eq.next(), Some(16));
    assert_eq!(eq.next(), Some(36));
}

#[test]
fn plans_offer_their_features() {
    let customer = Customer::<FreePlan>::new("kevin".to_string());
    assert_eq!(customer.feature1(), "feature1: kevin");
    assert_eq!(customer.feature2(), "feature2: kevin");
    let customer: Customer<PersonalPlan> = customer.into();
    assert_eq!(customer.advanced_feature(), "advanced_feature: kevin");
    assert_eq!(customer.feature1(), "feature1: kevin");
}

#[test]
fn test_mpsc_channel() {
    let (tx, mut rx) = unbounded();
    tx.send(1).unwrap();
    assert_eq!(rx.recv().unwrap(), 1);
}

#[test]
fn receiver_drop_should_error_when_send() {
    let (s, _) = unbounded();
    let (s1, s2) = {
        let s1 = s.clone();
        let s2 = s.clone();
        (s1, s2)
    };
    assert!(s1.send("hello").is_err());
    assert!(s2.send("hello").is_err());
}

#[test]
fn channel_cache_should_wrok() {
    let (s, mut r) = unbounded();
    for i in 0..100usize {
        s.send(i).unwrap();
    }
    assert!(r.cached.is_empty());

    assert_eq!(r.recv().unwrap(), 0);
    assert_eq!(r.cached.len(), 99);
    assert_eq!(s.total_queue_size(), 0);

    for idx in 0..9usize {
        assert_eq!(idx + 1, r.recv().unwrap());
    }
}

#[test]
fn counts_follow_the_live_ends() {
    let (s, r) = unbounded::<u8>();
    assert_eq!(s.total_receivers(), 1);
    assert_eq!(r.total_senders(), 1);
    let s2 = s.clone();
    assert_eq!(r.total_senders(), 2);
    drop(s2);
    assert_eq!(r.total_senders(), 1);
    drop(s);
    assert!(matches!(r.total_senders(), 0));
}
