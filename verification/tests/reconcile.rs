use steam_friends::steam_api::{Friend, PlayerSummary, Relationship, SteamId};
use steam_friends::store::{DbConnection, NameHistoryEntry, PersistedProfile};

fn friend(id: u64, since: i64) -> Friend {
    Friend { steam_id: SteamId(id), relationship: Relationship::Friend, friend_since: since }
}

fn summary(id: u64, name: &str, url: &str) -> PlayerSummary {
    PlayerSummary {
        steam_id: SteamId(id),
        persona_name: name.to_string(),
        profile_url: url.to_string(),
    }
}

fn profile_row(id: u64, name: &str, url: &str, since: i64, updated: i64) -> PersistedProfile {
    PersistedProfile {
        steam_id: SteamId(id),
        persona_name: name.to_string(),
        profile_url: url.to_string(),
        friend_since: since,
        updated_at: updated,
        removed_at: None,
    }
}

#[test]
fn test_update_player_summaries_deletion() {
    let seeded = vec![
        profile_row(1, "one", "one_url", 50, 50),
        profile_row(2, "two", "two_url", 50, 50),
    ];
    let mut db = DbConnection::from_rows(seeded, Vec::new()).unwrap();

    // Player 2 got deleted :(
    let friends = vec![friend(1, 100)];
    let players = vec![summary(1, "one", "one_url")];
    db.update_player_summaries_at(&friends, &players, 100);

    let deleted: Vec<&PersistedProfile> =
        db.profiles().iter().filter(|p| p.removed_at.is_some()).collect();
    assert_eq!(1, deleted.len());
    let deleted_person = deleted[0];
    assert_eq!(SteamId(2), deleted_person.steam_id);
    assert_eq!("two".to_string(), deleted_person.persona_name);
    assert_eq!("two_url".to_string(), deleted_person.profile_url);
}

#[test]
fn test_update_player_summaries_deletion_idempotent() {
    let seeded = vec![
        profile_row(1, "one", "one_url", 50, 50),
        profile_row(2, "two", "two_url", 50, 50),
    ];
    let mut db = DbConnection::from_rows(seeded, Vec::new()).unwrap();

    let friends = vec![friend(1, 100)];
    let players = vec![summary(1, "one", "one_url")];
    db.update_player_summaries_at(&friends, &players, 100);

    let orig_removed_at = db
        .profiles()
        .iter()
        .find(|p| p.removed_at.is_some())
        .unwrap()
        .removed_at
        .unwrap();

    // Some time passes, then the same snapshot is reconciled again.
    db.update_player_summaries_at(&friends, &players, 110);

    let removed: Vec<&PersistedProfile> =
        db.profiles().iter().filter(|p| p.removed_at.is_some()).collect();
    assert_eq!(1, removed.len());
    let new_removed_at = removed[0].removed_at.unwrap();
    assert_eq!(orig_removed_at, new_removed_at);
}

#[test]
fn test_update_player_summaries_from_empty() {
    let mut db = DbConnection::new();

    let now = 200;
    let friends = vec![friend(1, now), friend(2, now)];
    let players = vec![summary(1, "one", "one_url"), summary(2, "two", "two_url")];
    db.update_player_summaries_at(&friends, &players, now);

    let mut rows: Vec<&PersistedProfile> = db.profiles().iter().collect();
    rows.sort_by_key(|r| r.steam_id.0);

    assert_eq!(players[0].steam_id, rows[0].steam_id);
    assert_eq!(players[0].persona_name, rows[0].persona_name);
    assert_eq!(players[0].profile_url, rows[0].profile_url);
    assert_eq!(friends[0].friend_since, rows[0].friend_since);
    assert_eq!(None, rows[0].removed_at);

    assert_eq!(players[1].steam_id, rows[1].steam_id);
    assert_eq!(players[1].persona_name, rows[1].persona_name);
    assert_eq!(players[1].profile_url, rows[1].profile_url);
    assert_eq!(friends[1].friend_since, rows[1].friend_since);
    assert_eq!(None, rows[1].removed_at);

    assert_eq!(2, db.history().len());
}

#[test]
fn test_update_player_summaries_update_name() {
    let mut db = DbConnection::new();

    let friends = vec![friend(1, 300)];
    let mut players = vec![summary(1, "one", "one_url")];
    db.update_player_summaries_at(&friends, &players, 300);
    let (first_name, first_url) = {
        let row = &db.profiles()[0];
        (row.persona_name.clone(), row.profile_url.clone())
    };
    assert_eq!("one".to_string(), first_name);
    assert_eq!("one_url".to_string(), first_url);

    players[0].persona_name = "one_updated".to_string();
    players[0].profile_url = "one_url_updated".to_string();
    db.update_player_summaries_at(&friends, &players, 310);
    let (second_name, second_url) = {
        let row = &db.profiles()[0];
        (row.persona_name.clone(), row.profile_url.clone())
    };
    assert_eq!("one_updated".to_string(), second_name);
    assert_eq!("one_url_updated".to_string(), second_url);

    let mut rows: Vec<&NameHistoryEntry> = db.history().iter().collect();
    rows.sort_by_key(|r| r.updated_at);
    assert_eq!(2, rows.len());

    assert_eq!(players[0].steam_id, rows[0].steam_id);
    assert_eq!("one".to_string(), rows[0].persona_name);

    assert_eq!(players[0].steam_id, rows[1].steam_id);
    assert_eq!("one_updated".to_string(), rows[1].persona_name);
}

#[test]
fn present_row_refreshed_keeps_link_timestamp() {
    let seeded = vec![
        profile_row(1, "one", "one_url", 50, 50),
        profile_row(2, "two", "two_url", 50, 50),
    ];
    let mut db = DbConnection::from_rows(seeded, Vec::new()).unwrap();

    // The friend edge now reports a different link timestamp; the
    // persisted one is set once and must not move.
    let friends = vec![friend(1, 999)];
    let players = vec![summary(1, "one", "one_url")];
    db.update_player_summaries_at(&friends, &players, 100);

    let row1 = db.profiles().iter().find(|p| p.steam_id.0 == 1).unwrap();
    assert_eq!(50, row1.friend_since);
    assert_eq!(100, row1.updated_at);
    assert_eq!(None, row1.removed_at);
    assert_eq!("one", row1.persona_name);
}

#[test]
fn reobserved_name_refreshes_stamp_without_new_row() {
    let mut db = DbConnection::new();
    let friends = vec![friend(1, 10)];
    let players = vec![summary(1, "alice", "url1")];
    db.update_player_summaries_at(&friends, &players, 10);
    assert_eq!(1, db.history().len());
    assert_eq!(10, db.history()[0].updated_at);

    db.update_player_summaries_at(&friends, &players, 20);
    assert_eq!(1, db.history().len());
    assert_eq!("alice", db.history()[0].persona_name);
    assert_eq!(20, db.history()[0].updated_at);
}

#[test]
fn new_name_appends_one_row_and_keeps_old_stamp() {
    let mut db = DbConnection::new();
    let friends = vec![friend(1, 10)];
    let players = vec![summary(1, "alice", "url1")];
    db.update_player_summaries_at(&friends, &players, 10);

    let players2 = vec![summary(1, "alice2", "url1")];
    db.update_player_summaries_at(&friends, &players2, 20);

    assert_eq!(2, db.history().len());
    assert_eq!("alice", db.history()[0].persona_name);
    assert_eq!(10, db.history()[0].updated_at);
    assert_eq!("alice2", db.history()[1].persona_name);
    assert_eq!(20, db.history()[1].updated_at);

    let row = db.profiles().iter().find(|p| p.steam_id.0 == 1).unwrap();
    assert_eq!("alice2", row.persona_name);
}

#[test]
fn removed_identity_reappearing_keeps_old_removal_stamp() {
    let mut db = DbConnection::new();
    let friends = vec![friend(1, 10), friend(2, 10)];
    let players = vec![summary(1, "alice", "url1"), summary(2, "bob", "url2")];
    db.update_player_summaries_at(&friends, &players, 10);

    // Identity 2 disappears and gets its removal stamp...
    let friends1 = vec![friend(1, 10)];
    let players1 = vec![summary(1, "alice", "url1")];
    db.update_player_summaries_at(&friends1, &players1, 20);
    let row2 = db.profiles().iter().find(|p| p.steam_id.0 == 2).unwrap();
    assert_eq!(Some(20), row2.removed_at);

    // ...and keeps it even when it reappears: the stamp is set once and
    // never cleared or overwritten.
    db.update_player_summaries_at(&friends, &players, 30);
    let row2 = db.profiles().iter().find(|p| p.steam_id.0 == 2).unwrap();
    assert_eq!(Some(20), row2.removed_at);
    assert_eq!("bob", row2.persona_name);
    assert_eq!(30, row2.updated_at);
}

#[test]
fn empty_snapshot_soft_deletes_every_row() {
    let mut db = DbConnection::new();
    let friends = vec![friend(1, 10), friend(2, 10)];
    let players = vec![summary(1, "alice", "url1"), summary(2, "bob", "url2")];
    db.update_player_summaries_at(&friends, &players, 10);

    db.update_player_summaries_at(&Vec::new(), &Vec::new(), 40);
    assert_eq!(2, db.profiles().len());
    for row in db.profiles().iter() {
        assert_eq!(Some(40), row.removed_at);
        assert_eq!(40, row.updated_at);
    }
}

#[test]
fn from_rows_rejects_duplicate_identity() {
    let rows = vec![
        profile_row(1, "one", "one_url", 50, 50),
        profile_row(1, "other", "other_url", 60, 60),
    ];
    assert!(DbConnection::from_rows(rows, Vec::new()).is_none());
}

#[test]
fn from_rows_rejects_duplicate_history_pair() {
    let entry = NameHistoryEntry {
        steam_id: SteamId(1),
        persona_name: "alice".to_string(),
        updated_at: 5,
    };
    let again = NameHistoryEntry {
        steam_id: SteamId(1),
        persona_name: "alice".to_string(),
        updated_at: 9,
    };
    assert!(DbConnection::from_rows(Vec::new(), vec![entry, again]).is_none());
}

#[test]
fn from_rows_keeps_valid_rows() {
    let rows = vec![profile_row(1, "one", "one_url", 50, 50)];
    let hist = vec![NameHistoryEntry {
        steam_id: SteamId(1),
        persona_name: "one".to_string(),
        updated_at: 50,
    }];
    let db = DbConnection::from_rows(rows, hist).unwrap();
    assert_eq!(1, db.profiles().len());
    assert_eq!(SteamId(1), db.profiles()[0].steam_id);
    assert_eq!(1, db.history().len());
    assert_eq!("one", db.history()[0].persona_name);
}

#[test]
fn wall_clock_pass_inserts_row() {
    let mut db = DbConnection::new();
    let friends = vec![friend(7, 123)];
    let players = vec![summary(7, "carol", "url7")];
    db.update_player_summaries(&friends, &players);
    assert_eq!(1, db.profiles().len());
    assert_eq!(SteamId(7), db.profiles()[0].steam_id);
    assert_eq!(123, db.profiles()[0].friend_since);
    assert_eq!(None, db.profiles()[0].removed_at);
    assert_eq!(1, db.history().len());
}
