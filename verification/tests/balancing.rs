use fraud_api::balancer::{
    parse_upstreams, service_unavailable, take_turn, Drain, Handoff, SendOutcome, Upstream,
};

#[test]
fn the_servers_have_their_turns_in_order() {
    let mut turn = 0;
    let targets: Vec<usize> = (0..7).map(|_| take_turn(&mut turn, 3)).collect();
    assert_eq!(targets, vec![0, 1, 2, 0, 1, 2, 0]);
    assert_eq!(turn, 7);
}

#[test]
fn each_server_has_one_of_as_many_turns() {
    let mut turn = 41;
    let mut seen = vec![0; 5];
    for _ in 0..5 {
        seen[take_turn(&mut turn, 5)] += 1;
    }
    assert_eq!(seen, vec![1; 5]);
}

#[test]
fn the_turns_start_again_at_the_end() {
    let mut turn = usize::MAX;
    assert_eq!(take_turn(&mut turn, 2), 1);
    assert_eq!(turn, 0);
    assert_eq!(take_turn(&mut turn, 2), 0);
}

#[test]
fn the_queue_is_first_in_first_out() {
    let mut up = Upstream::new(4);
    assert_eq!(up.fd, 4);
    assert!(up.is_empty());
    assert_eq!(up.peek(), None);
    assert_eq!(up.pop(), None);
    assert!(up.push(10));
    assert!(up.push(11));
    assert_eq!(up.peek(), Some(10));
    assert_eq!(up.pop(), Some(10));
    assert!(up.push(12));
    assert_eq!(up.pop(), Some(11));
    assert_eq!(up.pop(), Some(12));
    assert_eq!(up.pop(), None);
}

#[test]
fn the_queue_holds_all_places_but_one() {
    let mut up = Upstream::new(4);
    for k in 0..500 {
        assert!(up.push(k));
        assert_eq!(up.pop(), Some(k));
    }
    for k in 0..1023 {
        assert!(up.push(k));
    }
    assert!(!up.push(5000));
    for k in 0..1023 {
        assert_eq!(up.pop(), Some(k));
    }
    assert!(up.is_empty());
}

#[test]
fn a_connection_is_handed_over_at_once() {
    let mut up = Upstream::new(4);
    assert_eq!(up.on_accepted(10, Some(SendOutcome::Sent)), Handoff::Done);
    assert!(up.is_empty());
    assert_eq!(up.on_accepted(10, Some(SendOutcome::Failed)), Handoff::Refused);
    assert!(up.is_empty());
    assert!(!up.registered_writable);
}

#[test]
fn connections_queue_up_behind_each_other() {
    let mut up = Upstream::new(4);
    assert_eq!(
        up.on_accepted(10, Some(SendOutcome::WouldBlock)),
        Handoff::Queued { register: true }
    );
    assert!(up.registered_writable);
    assert_eq!(up.on_accepted(11, None), Handoff::Queued { register: false });
    assert_eq!(up.on_accepted(12, None), Handoff::Queued { register: false });
    assert_eq!(up.on_retried(SendOutcome::Sent), Drain::Close(10));
    assert_eq!(up.on_retried(SendOutcome::WouldBlock), Drain::Wait);
    assert!(!up.settle());
    assert_eq!(up.on_retried(SendOutcome::Failed), Drain::Refuse(11));
    assert_eq!(up.on_retried(SendOutcome::Sent), Drain::Close(12));
    assert!(up.settle());
    assert!(!up.registered_writable);
    assert!(!up.settle());
}

#[test]
fn a_full_queue_refuses() {
    let mut up = Upstream::new(4);
    up.on_accepted(0, Some(SendOutcome::WouldBlock));
    for k in 1..1023 {
        assert_eq!(up.on_accepted(k, None), Handoff::Queued { register: false });
    }
    assert_eq!(up.on_accepted(9999, None), Handoff::Refused);
    assert_eq!(up.peek(), Some(0));
}

#[test]
fn a_refusal_is_told() {
    assert_eq!(
        service_unavailable(),
        "HTTP/1.1 503 Service Unavailable\r\nContent-Length: 0\r\nConnection: close\r\n\r\n"
    );
}

#[test]
fn the_list_of_servers_is_split_and_trimmed() {
    assert_eq!(
        parse_upstreams("/data/shared/api1.sock,/data/shared/api2.sock"),
        vec!["/data/shared/api1.sock", "/data/shared/api2.sock"]
    );
    assert_eq!(parse_upstreams(" a b ,, \t\u{a0}c\u{3000},"), vec!["a b", "c"]);
    assert_eq!(parse_upstreams(""), Vec::<String>::new());
    assert_eq!(parse_upstreams(" , "), Vec::<String>::new());
    assert_eq!(parse_upstreams("é,ü"), vec!["é", "ü"]);
}

#[test]
fn a_full_queue_stays_as_it_is() {
    let mut up = Upstream::new(4);
    up.head = 1;
    up.queue[0] = 77;
    up.queue[5] = 78;
    assert!(!up.push(9));
    assert_eq!((up.head, up.tail, up.queue[0], up.queue[5]), (1, 0, 77, 78));
}

#[test]
fn a_connection_takes_the_place_at_the_end_of_the_queue() {
    let mut up = Upstream::new(4);
    up.head = 1023;
    up.tail = 1023;
    up.queue[0] = 77;
    assert_eq!(up.pop(), None);
    assert_eq!((up.head, up.tail), (1023, 1023));
    assert!(up.push(9));
    assert_eq!((up.head, up.tail, up.queue[1023], up.queue[0]), (1023, 0, 9, 77));
    assert_eq!(up.pop(), Some(9));
    assert_eq!((up.head, up.tail, up.queue[1023]), (0, 0, 9));
}
