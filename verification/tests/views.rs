use leaderboard::listing::clamp_limit;
use leaderboard::store::Leaderboard;

fn empty_store() -> Leaderboard {
    Leaderboard::new(Vec::new())
}

/// A map with `n` records: player "p<i>" holds time `base + step * i`.
fn filled_map(lb: &mut Leaderboard, map_id: &str, n: usize, base: i32, step: i32) {
    for i in 0..n {
        let login = format!("p{}", i);
        lb.has_finished(base + step * i as i32, 0, &login, map_id, i as u64)
            .unwrap();
    }
}

#[test]
fn overview_is_never_longer_than_fifteen() {
    let mut lb = empty_store();
    filled_map(&mut lb, "big", 40, 100, 10);
    for i in 0..40 {
        let login = format!("p{}", i);
        let view = lb.overview(&login, "big");
        assert!(view.len() <= 15);
    }
}

#[test]
fn overview_leader_sees_own_entry_first() {
    let mut lb = empty_store();
    filled_map(&mut lb, "big", 16, 100, 10);
    let view = lb.overview("p0", "big");
    assert_eq!(view.len(), 15);
    assert_eq!(view[0].player_id, "p0");
    assert_eq!(view[0].time, 100);
    assert_eq!(view[0].rank, 1);
}

#[test]
fn overview_windows_around_mid_ranked_player() {
    let mut lb = empty_store();
    filled_map(&mut lb, "big", 200, 1000, 5);
    // p49 is ranked 50th among 200
    let view = lb.overview("p49", "big");
    assert_eq!(view.len(), 15);
    assert_eq!(view[0].player_id, "p0");
    assert_eq!(view[1].player_id, "p1");
    assert_eq!(view[2].player_id, "p2");
    assert!(view.iter().any(|e| e.player_id == "p49"));
    // the block is centred on position 49: entries 43 through 54
    assert_eq!(view[3].player_id, "p43");
    assert_eq!(view[14].player_id, "p54");
}

#[test]
fn overview_slides_window_left_at_list_end() {
    let mut lb = empty_store();
    filled_map(&mut lb, "big", 30, 100, 1);
    // the last-ranked player: the block ends exactly at the list's end
    let view = lb.overview("p29", "big");
    assert_eq!(view.len(), 15);
    assert_eq!(view[0].player_id, "p0");
    assert_eq!(view[2].player_id, "p2");
    assert_eq!(view[3].player_id, "p18");
    assert_eq!(view[14].player_id, "p29");
}

#[test]
fn overview_without_record_returns_fourteen() {
    let mut lb = empty_store();
    filled_map(&mut lb, "big", 20, 100, 10);
    let view = lb.overview("stranger", "big");
    assert_eq!(view.len(), 14);
    assert_eq!(view[0].player_id, "p0");
    assert_eq!(view[13].player_id, "p13");
}

#[test]
fn overview_short_list_is_returned_whole() {
    let mut lb = empty_store();
    filled_map(&mut lb, "small", 5, 100, 10);
    let view = lb.overview("p3", "small");
    assert_eq!(view.len(), 5);
    let view2 = lb.overview("stranger", "small");
    assert_eq!(view2.len(), 5);
}

#[test]
fn overview_of_empty_map_is_empty() {
    let lb = empty_store();
    let view = lb.overview("anyone", "nowhere");
    assert_eq!(view.len(), 0);
}

#[test]
fn overview_entries_carry_nicknames() {
    let mut lb = empty_store();
    lb.has_finished(100, 0, "alice", "m1", 1).unwrap();
    let renamed = leaderboard::model::Player {
        login: String::from("alice"),
        nickname: String::from("Alice the Swift"),
    };
    renamed.insert_or_replace(&mut lb);
    let view = lb.overview("alice", "m1");
    assert_eq!(view.len(), 1);
    assert_eq!(view[0].nickname, "Alice the Swift");
}

#[test]
fn map_records_unknown_map_is_not_found() {
    let mut lb = empty_store();
    filled_map(&mut lb, "known", 3, 100, 10);
    assert!(lb.map_records("unknown-map", 0, 10).is_none());
}

#[test]
fn map_records_zero_limit_acts_as_hundred() {
    let mut lb = empty_store();
    filled_map(&mut lb, "busy", 150, 100, 1);
    let (_, _, page) = lb.map_records("busy", 0, 0).unwrap();
    assert_eq!(page.len(), 100);
    let (_, _, page2) = lb.map_records("busy", 0, 250).unwrap();
    assert_eq!(page2.len(), 100);
}

#[test]
fn map_records_pages_ascend_by_time() {
    let mut lb = empty_store();
    filled_map(&mut lb, "busy", 30, 500, 2);
    let (m, author, page) = lb.map_records("busy", 10, 5).unwrap();
    assert_eq!(m.map_id, "busy");
    assert_eq!(author.login, "smokegun");
    assert_eq!(page.len(), 5);
    for w in page.windows(2) {
        assert!(w[0].0.time <= w[1].0.time);
    }
    assert_eq!(page[0].0.player_id, "p10");
    assert_eq!(page[0].1.login, "p10");
}

#[test]
fn map_records_offset_past_end_is_empty_page() {
    let mut lb = empty_store();
    filled_map(&mut lb, "busy", 5, 100, 1);
    let (_, _, page) = lb.map_records("busy", 50, 10).unwrap();
    assert_eq!(page.len(), 0);
}

#[test]
fn player_records_unknown_player_is_not_found() {
    let mut lb = empty_store();
    filled_map(&mut lb, "m", 2, 100, 1);
    assert!(lb.player_records("stranger").is_none());
}

#[test]
fn player_records_lists_latest_first_with_map() {
    let mut lb = empty_store();
    lb.has_finished(100, 0, "alice", "m1", 10).unwrap();
    lb.has_finished(200, 0, "alice", "m2", 20).unwrap();
    lb.has_finished(300, 0, "alice", "m3", 15).unwrap();
    let (p, records) = lb.player_records("alice").unwrap();
    assert_eq!(p.login, "alice");
    assert_eq!(records.len(), 3);
    assert_eq!(records[0].0.map_id, "m2");
    assert_eq!(records[0].1.map_id, "m2");
    assert_eq!(records[1].0.map_id, "m3");
    assert_eq!(records[2].0.map_id, "m1");
}

#[test]
fn latest_records_orders_by_update_time_descending() {
    let mut lb = empty_store();
    lb.has_finished(100, 0, "a", "m1", 5).unwrap();
    lb.has_finished(200, 0, "b", "m2", 9).unwrap();
    lb.has_finished(300, 0, "c", "m1", 7).unwrap();
    let feed = lb.latest_records(0, 10);
    assert_eq!(feed.len(), 3);
    assert_eq!(feed[0].0.player_id, "b");
    assert_eq!(feed[1].0.player_id, "c");
    assert_eq!(feed[2].0.player_id, "a");
    for w in feed.windows(2) {
        assert!(w[0].0.updated_at >= w[1].0.updated_at);
    }
}

#[test]
fn latest_records_breaks_ties_by_store_order() {
    let mut lb = empty_store();
    lb.has_finished(100, 0, "first", "m1", 50).unwrap();
    lb.has_finished(200, 0, "second", "m2", 50).unwrap();
    lb.has_finished(300, 0, "third", "m3", 50).unwrap();
    let feed = lb.latest_records(0, 10);
    assert_eq!(feed.len(), 3);
    assert_eq!(feed[0].0.player_id, "first");
    assert_eq!(feed[1].0.player_id, "second");
    assert_eq!(feed[2].0.player_id, "third");
}

#[test]
fn latest_records_joins_player_and_map() {
    let mut lb = empty_store();
    lb.has_finished(100, 0, "alice", "m1", 1).unwrap();
    let feed = lb.latest_records(0, 10);
    assert_eq!(feed.len(), 1);
    assert_eq!(feed[0].1.login, "alice");
    assert_eq!(feed[0].2.map_id, "m1");
    assert_eq!(feed[0].2.name, "Unknwown map");
}

#[test]
fn latest_records_of_empty_store_is_empty() {
    let lb = empty_store();
    assert_eq!(lb.latest_records(0, 10).len(), 0);
}

#[test]
fn latest_records_clamps_limit() {
    let mut lb = empty_store();
    for i in 0..120 {
        let login = format!("p{}", i);
        let map = format!("m{}", i);
        lb.has_finished(100, 0, &login, &map, i as u64).unwrap();
    }
    assert_eq!(lb.latest_records(0, 0).len(), 100);
    assert_eq!(lb.latest_records(0, 999).len(), 100);
    assert_eq!(lb.latest_records(100, 50).len(), 20);
}

#[test]
fn limit_clamp_rule() {
    assert_eq!(clamp_limit(0), 100);
    assert_eq!(clamp_limit(1), 1);
    assert_eq!(clamp_limit(100), 100);
    assert_eq!(clamp_limit(101), 100);
    assert_eq!(clamp_limit(usize::MAX), 100);
}
