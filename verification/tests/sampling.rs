use fiber_autopilot::utils::{choice_n, get_peer_id_from_addr};

#[test]
fn fewer_items_than_requested_returned_unchanged() {
    let items = vec![(1u64, 5u64), (2, 0), (1, 5)];
    let out = choice_n(items.clone(), 7);
    assert_eq!(out, items);
}

#[test]
fn draws_exactly_n_distinct_slots() {
    let items = vec![(1u64, 10u64), (2, 20), (3, 30), (4, 40)];
    for _ in 0..50 {
        let out = choice_n(items.clone(), 2);
        assert_eq!(out.len(), 2);
        // Drawn without replacement: the two picks are different items.
        assert_ne!(out[0], out[1]);
        for pick in &out {
            assert!(items.contains(pick));
        }
    }
}

#[test]
fn zero_weight_never_picked_while_positive_remains() {
    let items = vec![(1u64, 0u64), (2, 5), (3, 0)];
    for _ in 0..50 {
        let out = choice_n(items.clone(), 1);
        assert_eq!(out, vec![(2u64, 5u64)]);
    }
    for _ in 0..50 {
        let out = choice_n(items.clone(), 2);
        // Exactly one positive-weight item exists, and it is always drawn.
        assert!(out.contains(&(2u64, 5u64)));
    }
}

#[test]
fn all_zero_weights_fall_back_to_uniform() {
    let items = vec![(1u64, 0u64), (2, 0), (3, 0)];
    for _ in 0..20 {
        let out = choice_n(items.clone(), 2);
        assert_eq!(out.len(), 2);
        assert_ne!(out[0].0, out[1].0);
    }
}

#[test]
fn heavier_weight_drawn_more_often() {
    let items = vec![(1u64, 1u64), (2, 1000)];
    let mut heavy_first = 0usize;
    for _ in 0..200 {
        let out = choice_n(items.clone(), 1);
        if out[0].0 == 2 {
            heavy_first += 1;
        }
    }
    assert!(heavy_first > 150, "heavy item drawn only {heavy_first} of 200 times");
}

#[test]
fn peer_segment_follows_the_p2p_label() {
    let addr = b"/ip4/127.0.0.1/tcp/8228/p2p/QmPeer".to_vec();
    assert_eq!(get_peer_id_from_addr(&addr), Some(b"QmPeer".to_vec()));
}

#[test]
fn peer_segment_missing_label() {
    let addr = b"/ip4/127.0.0.1/tcp/8228".to_vec();
    assert_eq!(get_peer_id_from_addr(&addr), None);
}

#[test]
fn peer_segment_label_at_end() {
    let addr = b"/ip4/127.0.0.1/p2p".to_vec();
    assert_eq!(get_peer_id_from_addr(&addr), None);
}

#[test]
fn peer_segment_first_label_wins() {
    let addr = b"/p2p/AAA/p2p/BBB".to_vec();
    assert_eq!(get_peer_id_from_addr(&addr), Some(b"AAA".to_vec()));
}

#[test]
fn peer_segment_without_leading_slash() {
    let addr = b"p2p/X".to_vec();
    assert_eq!(get_peer_id_from_addr(&addr), Some(b"X".to_vec()));
}

#[test]
fn peer_segment_empty_address() {
    assert_eq!(get_peer_id_from_addr(&Vec::new()), None);
}
