use leaderboard::model::{GameMap, Player, Record, RecordsError};
use leaderboard::store::Leaderboard;

fn empty_store() -> Leaderboard {
    Leaderboard::new(Vec::new())
}

#[test]
fn first_submission_creates_record() {
    let mut lb = empty_store();
    let res = lb.has_finished(72000, 32, "smokegun", "NullId", 1000);
    assert_eq!(res.ok(), Some((true, 72000, 72000)));
    assert_eq!(lb.records.len(), 1);
    let r = &lb.records[0];
    assert_eq!(r.time, 72000);
    assert_eq!(r.respawn_count, 32);
    assert_eq!(r.try_count, 1);
    assert_eq!(r.created_at, 1000);
    assert_eq!(r.updated_at, 1000);
    assert_eq!(r.rank, 1);
    assert_eq!(r.player_id, "smokegun");
    assert_eq!(r.map_id, "NullId");
}

#[test]
fn first_submission_autocreates_player_and_map() {
    let mut lb = empty_store();
    lb.has_finished(500, 0, "newcomer", "fresh-map", 7).unwrap();
    let p = lb
        .players
        .iter()
        .find(|p| p.login == "newcomer")
        .expect("player auto-created");
    assert_eq!(p.nickname, "newcomer");
    let m = lb
        .maps
        .iter()
        .find(|m| m.map_id == "fresh-map")
        .expect("map auto-created");
    assert_eq!(m.name, "Unknwown map");
    assert_eq!(m.player_id, "smokegun");
    assert!(lb.players.iter().any(|p| p.login == "smokegun"));
}

#[test]
fn worse_resubmission_is_noop() {
    let mut lb = empty_store();
    lb.has_finished(100, 2, "alice", "m1", 10).unwrap();
    let res = lb.has_finished(150, 9, "alice", "m1", 20);
    assert_eq!(res.ok(), Some((false, 100, 150)));
    let r = &lb.records[0];
    assert_eq!(r.time, 100);
    assert_eq!(r.respawn_count, 2);
    assert_eq!(r.try_count, 1);
    assert_eq!(r.updated_at, 10);
}

#[test]
fn equal_resubmission_is_noop() {
    let mut lb = empty_store();
    lb.has_finished(100, 2, "alice", "m1", 10).unwrap();
    let res = lb.has_finished(100, 0, "alice", "m1", 20);
    assert_eq!(res.ok(), Some((false, 100, 100)));
    assert_eq!(lb.records[0].try_count, 1);
    assert_eq!(lb.records[0].updated_at, 10);
}

#[test]
fn better_resubmission_updates_record() {
    let mut lb = empty_store();
    lb.has_finished(100, 5, "alice", "m1", 10).unwrap();
    let res = lb.has_finished(90, 3, "alice", "m1", 25);
    assert_eq!(res.ok(), Some((true, 100, 90)));
    assert_eq!(lb.records.len(), 1);
    let r = &lb.records[0];
    assert_eq!(r.time, 90);
    assert_eq!(r.respawn_count, 3);
    assert_eq!(r.try_count, 2);
    assert_eq!(r.created_at, 10);
    assert!(r.updated_at > 10);
    assert_eq!(r.updated_at, 25);
}

#[test]
fn banned_player_is_rejected_without_mutation() {
    let mut lb = Leaderboard::new(vec![String::from("51x7yn1n3")]);
    let res = lb.has_finished(100, 0, "51x7yn1n3", "m1", 1);
    assert!(matches!(res, Err(RecordsError::Forbidden)));
    assert_eq!(lb.records.len(), 0);
    assert_eq!(lb.players.len(), 0);
    assert_eq!(lb.maps.len(), 0);
}

#[test]
fn negative_time_is_rejected() {
    let mut lb = empty_store();
    let res = lb.has_finished(-1, 0, "alice", "m1", 1);
    assert!(matches!(res, Err(RecordsError::ValidationError)));
    assert_eq!(lb.records.len(), 0);
}

#[test]
fn negative_respawn_count_is_rejected() {
    let mut lb = empty_store();
    let res = lb.has_finished(100, -3, "alice", "m1", 1);
    assert!(matches!(res, Err(RecordsError::ValidationError)));
    assert_eq!(lb.records.len(), 0);
}

#[test]
fn tie_aware_ranks_share_and_gap() {
    let mut lb = empty_store();
    lb.has_finished(50, 0, "a", "m1", 1).unwrap();
    lb.has_finished(50, 0, "b", "m1", 2).unwrap();
    lb.has_finished(60, 0, "c", "m1", 3).unwrap();
    let rank_of = |lb: &Leaderboard, pid: &str| {
        lb.records
            .iter()
            .find(|r| r.player_id == pid)
            .unwrap()
            .rank
    };
    assert_eq!(rank_of(&lb, "a"), 1);
    assert_eq!(rank_of(&lb, "b"), 1);
    assert_eq!(rank_of(&lb, "c"), 3);
}

#[test]
fn improvement_reranks_whole_map() {
    let mut lb = empty_store();
    lb.has_finished(100, 0, "a", "m1", 1).unwrap();
    lb.has_finished(200, 0, "b", "m1", 2).unwrap();
    lb.has_finished(300, 0, "c", "m1", 3).unwrap();
    // c overtakes everyone
    lb.has_finished(50, 0, "c", "m1", 4).unwrap();
    let rank_of = |lb: &Leaderboard, pid: &str| {
        lb.records
            .iter()
            .find(|r| r.player_id == pid)
            .unwrap()
            .rank
    };
    assert_eq!(rank_of(&lb, "c"), 1);
    assert_eq!(rank_of(&lb, "a"), 2);
    assert_eq!(rank_of(&lb, "b"), 3);
}

#[test]
fn ranks_stay_consistent_after_many_improving_submissions() {
    // the serialized form of a burst of improving submissions from
    // distinct players: once they all complete, every rank matches the
    // final stored times
    let mut lb = empty_store();
    let n: usize = 20;
    for i in 0..n {
        let login = format!("racer{}", i);
        lb.has_finished(1000 + i as i32, 0, &login, "busy-map", i as u64)
            .unwrap();
    }
    for i in 0..n {
        let login = format!("racer{}", i);
        lb.has_finished(500 - i as i32, 0, &login, "busy-map", (n + i) as u64)
            .unwrap();
    }
    for r in lb.records.iter() {
        let better = lb
            .records
            .iter()
            .filter(|o| o.map_id == r.map_id && o.time < r.time)
            .count();
        assert_eq!(r.rank, better + 1);
    }
}

#[test]
fn submissions_to_different_maps_are_independent() {
    let mut lb = empty_store();
    lb.has_finished(100, 0, "a", "m1", 1).unwrap();
    lb.has_finished(10, 0, "a", "m2", 2).unwrap();
    lb.has_finished(20, 0, "b", "m2", 3).unwrap();
    let m1: Vec<_> = lb.records.iter().filter(|r| r.map_id == "m1").collect();
    assert_eq!(m1.len(), 1);
    assert_eq!(m1[0].rank, 1);
    let b = lb
        .records
        .iter()
        .find(|r| r.map_id == "m2" && r.player_id == "b")
        .unwrap();
    assert_eq!(b.rank, 2);
}

#[test]
fn player_insert_or_replace_creates_then_updates() {
    let mut lb = empty_store();
    let p = Player {
        login: String::from("smokegun"),
        nickname: String::from("smokegun"),
    };
    p.insert_or_replace(&mut lb);
    assert_eq!(lb.players.len(), 1);
    assert_eq!(lb.players[0].nickname, "smokegun");
    let renamed = Player {
        login: String::from("smokegun"),
        nickname: String::from("Smoke Gun"),
    };
    renamed.insert_or_replace(&mut lb);
    assert_eq!(lb.players.len(), 1);
    assert_eq!(lb.players[0].login, "smokegun");
    assert_eq!(lb.players[0].nickname, "Smoke Gun");
}

#[test]
fn map_insert_or_replace_creates_then_updates() {
    let mut lb = empty_store();
    let m = leaderboard::model::GameMap {
        map_id: String::from("NullId"),
        name: String::from("NullId"),
        player_id: String::from("smokegun"),
    };
    m.insert_or_replace(&mut lb);
    assert_eq!(lb.maps.len(), 1);
    assert_eq!(lb.maps[0].name, "NullId");
    // the author was auto-created with the login as nickname
    assert_eq!(lb.players.len(), 1);
    assert_eq!(lb.players[0].login, "smokegun");
    assert_eq!(lb.players[0].nickname, "smokegun");
    let renamed = leaderboard::model::GameMap {
        map_id: String::from("NullId"),
        name: String::from("A real name"),
        player_id: String::from("smokegun"),
    };
    renamed.insert_or_replace(&mut lb);
    assert_eq!(lb.maps.len(), 1);
    assert_eq!(lb.maps[0].name, "A real name");
}

#[test]
fn try_count_saturates_at_the_type_limit() {
    // a well-formed store whose one record already carries the largest
    // possible try counter
    let lb0 = Leaderboard::new(Vec::new());
    let mut lb = lb0;
    lb.players.push(Player {
        login: String::from("alice"),
        nickname: String::from("alice"),
    });
    lb.maps.push(GameMap {
        map_id: String::from("m1"),
        name: String::from("m1"),
        player_id: String::from("alice"),
    });
    lb.records.push(Record {
        rank: 1,
        time: 100,
        respawn_count: 0,
        try_count: i32::MAX,
        created_at: 1,
        updated_at: 1,
        player_id: String::from("alice"),
        map_id: String::from("m1"),
    });
    let res = lb.has_finished(90, 0, "alice", "m1", 2);
    assert_eq!(res.ok(), Some((true, 100, 90)));
    assert_eq!(lb.records[0].try_count, i32::MAX);
    assert_eq!(lb.records[0].time, 90);
}

#[test]
fn try_count_counts_only_improvements() {
    let mut lb = empty_store();
    lb.has_finished(100, 0, "alice", "m1", 1).unwrap();
    lb.has_finished(100, 0, "alice", "m1", 2).unwrap();
    lb.has_finished(90, 0, "alice", "m1", 3).unwrap();
    lb.has_finished(95, 0, "alice", "m1", 4).unwrap();
    lb.has_finished(80, 0, "alice", "m1", 5).unwrap();
    assert_eq!(lb.records[0].try_count, 3);
    assert_eq!(lb.records[0].time, 80);
    assert_eq!(lb.records[0].updated_at, 5);
}
