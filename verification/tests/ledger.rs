use vote_ledger::{Vote, VoteStore};

fn vote(client: &str, snap: &str, rev: u32, up: bool) -> Vote {
    Vote {
        client_hash: client.to_owned(),
        snap_id: snap.to_owned(),
        snap_revision: rev,
        vote_up: up,
        timestamp: 0,
    }
}

#[test]
fn casting_same_vote_twice_is_idempotent() {
    let mut st = VoteStore::new();
    st.register_client("abc123".to_owned());

    let r1 = vote("abc123", "my-snap", 1, true).save_to_db(&mut st).unwrap();
    let r2 = vote("abc123", "my-snap", 1, true).save_to_db(&mut st).unwrap();
    assert_eq!(r1, 1);
    assert_eq!(r2, 1);

    let votes =
        Vote::get_all_by_client_hash_and_snap_id("my-snap".to_owned(), "abc123".to_owned(), &st)
            .unwrap();
    assert_eq!(votes.len(), 1);
    assert!(votes[0].vote_up);
}

#[test]
fn casting_up_then_down_overwrites_direction() {
    let mut st = VoteStore::new();
    st.register_client("abc123".to_owned());

    vote("abc123", "my-snap", 1, true).save_to_db(&mut st).unwrap();
    vote("abc123", "my-snap", 1, false).save_to_db(&mut st).unwrap();

    let votes =
        Vote::get_all_by_client_hash_and_snap_id("my-snap".to_owned(), "abc123".to_owned(), &st)
            .unwrap();
    assert_eq!(votes.len(), 1);
    assert!(!votes[0].vote_up);
}

#[test]
fn revisions_are_independent() {
    let mut st = VoteStore::new();
    st.register_client("abc123".to_owned());

    vote("abc123", "my-snap", 1, true).save_to_db(&mut st).unwrap();
    vote("abc123", "my-snap", 2, false).save_to_db(&mut st).unwrap();

    let votes =
        Vote::get_all_by_client_hash_and_snap_id("my-snap".to_owned(), "abc123".to_owned(), &st)
            .unwrap();
    assert_eq!(votes.len(), 2);
    let rev1 = votes.iter().find(|v| v.snap_revision == 1).unwrap();
    let rev2 = votes.iter().find(|v| v.snap_revision == 2).unwrap();
    assert!(rev1.vote_up);
    assert!(!rev2.vote_up);

    // A second cast on revision 2 leaves the row for revision 1 alone.
    vote("abc123", "my-snap", 2, true).save_to_db(&mut st).unwrap();
    let votes =
        Vote::get_all_by_client_hash_and_snap_id("my-snap".to_owned(), "abc123".to_owned(), &st)
            .unwrap();
    assert_eq!(votes.len(), 2);
    assert!(votes.iter().find(|v| v.snap_revision == 1).unwrap().vote_up);
    assert!(votes.iter().find(|v| v.snap_revision == 2).unwrap().vote_up);
}

#[test]
fn unknown_client_yields_empty_listing_not_error() {
    let st = VoteStore::new();
    let by_item =
        Vote::get_all_by_client_hash_and_snap_id("my-snap".to_owned(), "nobody".to_owned(), &st)
            .unwrap();
    assert!(by_item.is_empty());
    let all = Vote::get_all_by_user("nobody".to_owned(), None, &st).unwrap();
    assert!(all.is_empty());
}

#[test]
fn unknown_client_cast_affects_zero_rows() {
    let mut st = VoteStore::new();
    let affected = vote("nobody", "my-snap", 1, true).save_to_db(&mut st).unwrap();
    assert_eq!(affected, 0);
    let all = Vote::get_all_by_user("nobody".to_owned(), None, &st).unwrap();
    assert!(all.is_empty());
}

#[test]
fn unfiltered_listing_is_union_of_per_item_listings() {
    let mut st = VoteStore::new();
    st.register_client("abc123".to_owned());
    st.register_client("other".to_owned());

    vote("abc123", "alpha", 1, true).save_to_db(&mut st).unwrap();
    vote("abc123", "alpha", 2, false).save_to_db(&mut st).unwrap();
    vote("abc123", "beta", 1, true).save_to_db(&mut st).unwrap();
    vote("other", "alpha", 1, false).save_to_db(&mut st).unwrap();

    let all = Vote::get_all_by_user("abc123".to_owned(), None, &st).unwrap();
    assert_eq!(all.len(), 3);

    let alpha =
        Vote::get_all_by_client_hash_and_snap_id("alpha".to_owned(), "abc123".to_owned(), &st)
            .unwrap();
    let beta =
        Vote::get_all_by_client_hash_and_snap_id("beta".to_owned(), "abc123".to_owned(), &st)
            .unwrap();
    assert_eq!(alpha.len(), 2);
    assert_eq!(beta.len(), 1);

    // Every unfiltered entry appears in the listing for its own item,
    // and the per-item listings together cover the unfiltered one.
    for v in &all {
        let per_item = if v.snap_id == "alpha" { &alpha } else { &beta };
        assert!(per_item.contains(v));
    }
    for v in alpha.iter().chain(beta.iter()) {
        assert!(all.contains(v));
    }
}

#[test]
fn filtered_listing_matches_filter_argument() {
    let mut st = VoteStore::new();
    st.register_client("abc123".to_owned());
    vote("abc123", "alpha", 1, true).save_to_db(&mut st).unwrap();
    vote("abc123", "beta", 1, false).save_to_db(&mut st).unwrap();

    let only_beta =
        Vote::get_all_by_user("abc123".to_owned(), Some("beta".to_owned()), &st).unwrap();
    assert_eq!(only_beta.len(), 1);
    assert_eq!(only_beta[0].snap_id, "beta");
    assert!(!only_beta[0].vote_up);
}

#[test]
fn example_scenario_cast_query_recast() {
    let mut st = VoteStore::new();
    st.register_client("abc123".to_owned());

    vote("abc123", "my-snap", 5, true).save_to_db(&mut st).unwrap();
    let votes =
        Vote::get_all_by_client_hash_and_snap_id("my-snap".to_owned(), "abc123".to_owned(), &st)
            .unwrap();
    assert_eq!(votes.len(), 1);
    assert_eq!(votes[0].snap_revision, 5);
    assert!(votes[0].vote_up);

    vote("abc123", "my-snap", 5, false).save_to_db(&mut st).unwrap();
    let votes =
        Vote::get_all_by_client_hash_and_snap_id("my-snap".to_owned(), "abc123".to_owned(), &st)
            .unwrap();
    assert_eq!(votes.len(), 1);
    assert_eq!(votes[0].snap_revision, 5);
    assert!(!votes[0].vote_up);
}

#[test]
fn storage_clock_stamps_creation_and_overwrite_keeps_it() {
    let mut st = VoteStore::new();
    st.register_client("abc123".to_owned());

    st.set_now(100);
    vote("abc123", "my-snap", 1, true).save_to_db(&mut st).unwrap();
    let votes = Vote::get_all_by_user("abc123".to_owned(), None, &st).unwrap();
    assert_eq!(votes[0].timestamp, 100);

    // Re-casting overwrites only the direction; the creation stamp stays.
    st.set_now(200);
    vote("abc123", "my-snap", 1, false).save_to_db(&mut st).unwrap();
    let votes = Vote::get_all_by_user("abc123".to_owned(), None, &st).unwrap();
    assert_eq!(votes.len(), 1);
    assert_eq!(votes[0].timestamp, 100);
    assert!(!votes[0].vote_up);

    // A fresh row takes the moved clock.
    vote("abc123", "my-snap", 2, true).save_to_db(&mut st).unwrap();
    let votes = Vote::get_all_by_user("abc123".to_owned(), None, &st).unwrap();
    let rev2 = votes.iter().find(|v| v.snap_revision == 2).unwrap();
    assert_eq!(rev2.timestamp, 200);
}

#[test]
fn registering_same_hash_twice_keeps_one_identity() {
    let mut st = VoteStore::new();
    let first = st.register_client("abc123".to_owned());
    let again = st.register_client("abc123".to_owned());
    assert_eq!(first, again);

    vote("abc123", "my-snap", 1, true).save_to_db(&mut st).unwrap();
    let votes = Vote::get_all_by_user("abc123".to_owned(), None, &st).unwrap();
    assert_eq!(votes.len(), 1);
}

#[test]
fn supplied_timestamp_is_ignored_on_cast() {
    let mut st = VoteStore::new();
    st.register_client("abc123".to_owned());
    st.set_now(7);
    let mut v = vote("abc123", "my-snap", 1, true);
    v.timestamp = 424242;
    v.save_to_db(&mut st).unwrap();
    let votes = Vote::get_all_by_user("abc123".to_owned(), None, &st).unwrap();
    assert_eq!(votes[0].timestamp, 7);
}
