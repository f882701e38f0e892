use rolling_tokens::RollingTokenManager;

#[test]
fn test_token_validation() {
    let mut manager = RollingTokenManager::new("test_secret", 30, Some(1));
    let token = manager.generate_token();
    assert!(manager.is_valid(&token.token));
    assert!(token.get_offset(&manager) == 0);

    let token_offset_1 = manager.generate_token_with_offset(1);
    assert!(manager.is_valid(&token_offset_1.token));
    assert!(token_offset_1.get_offset(&manager) == 1);

    let token_offset_2 = manager.generate_token_with_offset(2);
    assert!(!manager.is_valid(&token_offset_2.token));
    assert!(token_offset_2.get_offset(&manager) == 2);
}

#[test]
fn test_invalid_token() {
    let mut manager = RollingTokenManager::new("test_secret", 30, Some(1));
    assert!(!manager.is_valid("invalid_token"));
}

#[test]
fn unknown_token_is_rejected() {
    let mut manager = RollingTokenManager::new("test_secret", 30, Some(1));
    assert!(!manager.is_valid("not-a-real-token"));
    assert_eq!(manager.active_tokens().len(), 3);
}

#[test]
fn default_tolerance_is_one() {
    let manager = RollingTokenManager::new("test_secret", 30, None);
    assert_eq!(manager.tolerance(), 1);
    assert_eq!(manager.interval(), 30);
    assert!(manager.active_tokens().is_empty());
}

#[test]
fn token_of_slot_matches_known_mac() {
    let manager = RollingTokenManager::new("test_secret", 30, Some(1));
    let t0 = manager.token_for_slot(0);
    assert_eq!(t0.timestamp, 0);
    assert_eq!(t0.token, "6a4a8f475cfdb007fd9e5198624378145b84ea5f0067b52d17026d02597a4a6c");
    let t100 = manager.token_for_slot(100);
    assert_eq!(t100.token, "9fe73a0936b9b42298e3d517aadbdc133e681f7b318a66ed10e5e56d5ec8c86b");
    let neg = manager.token_for_slot(-7);
    assert_eq!(neg.timestamp, -7);
    assert_eq!(neg.token, "07a8f89585e8d50b939ce325da23d9e339d5a61420ae535c6bf6de797f68faf3");
}

#[test]
fn empty_secret_is_accepted() {
    let manager = RollingTokenManager::from_bytes(Vec::new(), 30, Some(1));
    assert_eq!(
        manager.token_for_slot(1).token,
        "41e0a9448f91edba4b05c6c2fc0edb1d6418aa292b5b2942637bec43a29b9523"
    );
}

#[test]
fn tokens_are_lowercase_hex_of_full_length() {
    let manager = RollingTokenManager::new("test_secret", 30, Some(1));
    let t = manager.generate_token();
    assert_eq!(t.token.len(), 64);
    assert!(t.token.chars().all(|c| c.is_ascii_digit() || ('a'..='f').contains(&c)));
}

#[test]
fn derivation_is_deterministic() {
    let a = RollingTokenManager::new("test_secret", 30, Some(1));
    let b = RollingTokenManager::new("test_secret", 60, Some(4));
    assert_eq!(a.token_for_slot(12345).token, a.token_for_slot(12345).token);
    assert_eq!(a.token_for_slot(12345).token, b.token_for_slot(12345).token);
    assert_ne!(a.token_for_slot(12345).token, a.token_for_slot(12346).token);
    let c = RollingTokenManager::new("other_secret", 30, Some(1));
    assert_ne!(a.token_for_slot(12345).token, c.token_for_slot(12345).token);
}

#[test]
fn bytes_and_text_secrets_agree() {
    let a = RollingTokenManager::new("test_secret", 30, Some(1));
    let b = RollingTokenManager::from_bytes(b"test_secret".to_vec(), 30, Some(1));
    assert_eq!(a.token_for_slot(42).token, b.token_for_slot(42).token);
}

#[test]
fn window_accepts_within_tolerance_only() {
    let mut manager = RollingTokenManager::new("test_secret", 30, Some(2));
    let now: i64 = 1000;
    for offset in -2i64..=2 {
        let t = manager.generate_token_with_offset_at(now, offset);
        assert!(manager.is_valid_at(now, &t.token), "offset {offset}");
    }
    for offset in [-4i64, -3, 3, 4] {
        let t = manager.generate_token_with_offset_at(now, offset);
        assert!(!manager.is_valid_at(now, &t.token), "offset {offset}");
    }
}

#[test]
fn zero_tolerance_accepts_only_the_current_slot() {
    let mut manager = RollingTokenManager::new("test_secret", 30, Some(0));
    let current = manager.token_for_slot(50);
    let next = manager.token_for_slot(51);
    assert!(manager.is_valid_at(50, &current.token));
    assert!(!manager.is_valid_at(50, &next.token));
    assert_eq!(manager.active_tokens().len(), 1);
}

#[test]
fn comparison_is_exact() {
    let mut manager = RollingTokenManager::new("test_secret", 30, Some(1));
    let t = manager.token_for_slot(0);
    assert!(!manager.is_valid_at(0, &t.token.to_uppercase()));
    assert!(!manager.is_valid_at(0, &t.token[..63]));
    assert!(!manager.is_valid_at(0, ""));
    assert!(manager.is_valid_at(0, &t.token));
}

fn snapshot(manager: &RollingTokenManager) -> Vec<(i64, String)> {
    let mut v: Vec<(i64, String)> =
        manager.active_tokens().iter().map(|t| (t.timestamp, t.token.clone())).collect();
    v.sort();
    v
}

#[test]
fn refresh_within_one_slot_changes_nothing() {
    let mut manager = RollingTokenManager::new("test_secret", 30, Some(1));
    manager.refresh_tokens_at(200);
    let first = snapshot(&manager);
    assert_eq!(first.len(), 3);
    assert!(!manager.is_valid_at(200, "nope"));
    assert!(!manager.is_valid_at(200, "nope"));
    assert_eq!(snapshot(&manager), first);
    let slots: Vec<i64> = first.iter().map(|p| p.0).collect();
    assert_eq!(slots, vec![199, 200, 201]);
}

#[test]
fn window_slides_by_one_slot() {
    let mut manager = RollingTokenManager::new("test_secret", 30, Some(1));
    manager.refresh_tokens_at(200);
    let before = snapshot(&manager);
    manager.refresh_tokens_at(201);
    let after = snapshot(&manager);
    let slots: Vec<i64> = after.iter().map(|p| p.0).collect();
    assert_eq!(slots, vec![200, 201, 202]);
    assert_eq!(after[0], before[1]);
    assert_eq!(after[1], before[2]);
    assert_eq!(after[2].1, manager.token_for_slot(202).token);
    let dropped = manager.token_for_slot(199);
    assert!(!manager.is_valid_at(201, &dropped.token));
}

#[test]
fn far_jump_rebuilds_the_window() {
    let mut manager = RollingTokenManager::new("test_secret", 30, Some(1));
    manager.refresh_tokens_at(10);
    manager.refresh_tokens_at(500);
    let slots: Vec<i64> = snapshot(&manager).iter().map(|p| p.0).collect();
    assert_eq!(slots, vec![499, 500, 501]);
}

#[test]
fn offset_is_recovered() {
    let manager = RollingTokenManager::new("test_secret", 30, Some(1));
    for offset in [-3i64, 0, 1, 2, 7] {
        let t = manager.generate_token_with_offset_at(777, offset);
        assert_eq!(t.timestamp, 777 + offset);
        assert_eq!(t.offset_at(777), offset);
    }
}

#[test]
fn offsets_saturate_at_the_ends_of_i64() {
    let manager = RollingTokenManager::new("test_secret", 30, Some(1));
    assert_eq!(manager.generate_token_with_offset_at(i64::MAX, 5).timestamp, i64::MAX);
    assert_eq!(manager.generate_token_with_offset_at(i64::MIN, -5).timestamp, i64::MIN);
    let t = manager.token_for_slot(i64::MIN);
    assert_eq!(t.offset_at(i64::MAX), i64::MIN);
}

#[test]
fn slot_is_whole_intervals_since_epoch() {
    let manager = RollingTokenManager::new("test_secret", 30, Some(1));
    assert_eq!(manager.slot_at(0), 0);
    assert_eq!(manager.slot_at(29), 0);
    assert_eq!(manager.slot_at(30), 1);
    assert_eq!(manager.slot_at(95), 3);
    let one = RollingTokenManager::new("test_secret", 1, Some(1));
    assert_eq!(one.slot_at(u64::MAX), i64::MAX);
}

#[test]
fn generated_tokens_match_their_slot() {
    let manager = RollingTokenManager::new("test_secret", 30, Some(1));
    let t = manager.generate_token_with_offset(3);
    assert_eq!(t.token, manager.token_for_slot(t.timestamp).token);
    assert!(manager.current_timestamp() > 0);
}

#[test]
fn window_at_the_top_of_i64() {
    let mut manager = RollingTokenManager::new("test_secret", 30, Some(1));
    let top = manager.token_for_slot(i64::MAX);
    assert!(manager.is_valid_at(i64::MAX - 1, &top.token));
    assert_eq!(manager.active_tokens().len(), 3);
}

#[test]
fn window_is_clipped_at_the_ends_of_i64() {
    let mut manager = RollingTokenManager::new("test_secret", 30, Some(1));
    let top = manager.token_for_slot(i64::MAX);
    let below = manager.token_for_slot(i64::MAX - 1);
    assert!(manager.is_valid_at(i64::MAX, &top.token));
    assert!(manager.is_valid_at(i64::MAX, &below.token));
    let slots: Vec<i64> = snapshot(&manager).iter().map(|p| p.0).collect();
    assert_eq!(slots, vec![i64::MAX - 1, i64::MAX]);

    let bottom = manager.token_for_slot(i64::MIN);
    assert!(manager.is_valid_at(i64::MIN, &bottom.token));
    let slots: Vec<i64> = snapshot(&manager).iter().map(|p| p.0).collect();
    assert_eq!(slots, vec![i64::MIN, i64::MIN + 1]);
}

#[test]
fn clamped_offset_token_is_accepted_at_the_top() {
    let mut manager = RollingTokenManager::new("test_secret", 30, Some(3));
    let t = manager.generate_token_with_offset_at(i64::MAX - 1, 2);
    assert_eq!(t.timestamp, i64::MAX);
    assert!(manager.is_valid_at(i64::MAX - 1, &t.token));
    assert_eq!(manager.active_tokens().len(), 5);
}

#[test]
fn refresh_from_the_clock_fills_the_window() {
    let mut manager = RollingTokenManager::new("test_secret", 30, Some(2));
    manager.refresh_tokens();
    assert_eq!(manager.active_tokens().len(), 5);
    for t in manager.active_tokens() {
        assert_eq!(t.token.len(), 64);
    }
}
