use rain_watch::domain::{AlertResponse, CheckError, Location, WeatherResponse};
use rain_watch::kinda_db::KindaDb;
use rain_watch::state_manager::{
    should_check, sleep_seconds, CheckRequest, Checker, StateManager, COOL_DOWN_SECONDS,
    JITTER_SECONDS,
};

fn tallinn() -> Location {
    Location::new(594_370_000, 247_536_000)
}

fn tartu() -> Location {
    Location::new(583_780_000, 267_290_000)
}

fn open_db() -> KindaDb {
    match KindaDb::new(None) {
        Ok(db) => db,
        Err(e) => panic!("an empty ledger must open: {:?}", e),
    }
}

#[test]
fn a_new_scheduler_watches_nobody() {
    let manager = StateManager::new(300);
    assert_eq!(manager.check_every_seconds(), 300);
    assert_eq!(manager.len(), 0);
    assert_eq!(manager.task_of(42), None);
    assert!(manager.can_add());
}

#[test]
fn first_add_starts_one_task_and_no_check_on_the_first_tick() {
    let mut manager = StateManager::new(300);
    let mut db = open_db();
    let plan = manager.add(42, tallinn(), None);
    assert_eq!(plan.abort, None);
    assert_eq!(plan.create_record, (42, tallinn()));
    assert_eq!(plan.start.task, 0);
    assert_eq!(plan.start.chat_id, 42);
    assert_eq!(plan.start.location, tallinn());
    assert_eq!(plan.start.last_alerted_sec, None);
    assert_eq!(plan.start.check_every_seconds, 300);
    let text = db.add(plan.create_record.0, plan.create_record.1);
    assert_eq!(text, b"42 59.4370000 24.7536000\n".to_vec());
    assert_eq!(db.all().len(), 1);
    assert_eq!(db.all().get(&42), Some(&(tallinn(), None)));
    assert_eq!(manager.task_of(42), Some(0));
    assert_eq!(manager.len(), 1);
    assert!(plan.start.wake(0).is_none());
    assert!(plan.start.wake(1_700_000_000).is_none());
    assert!(plan.start.wake(u64::MAX).is_none());
}

#[test]
fn positive_check_records_the_time() {
    let mut db = open_db();
    db.add(9, tallinn());
    let mut checker = Checker {
        task: 0,
        chat_id: 9,
        location: tallinn(),
        last_alerted_sec: None,
        check_every_seconds: 300,
    };
    assert!(checker.wake(1000).is_none());
    let update = checker.check_and_alert(1000, &Ok(true));
    assert_eq!(update, Some(1000));
    assert_eq!(checker.last_alerted_sec, Some(1000));
    db.update(9, 1000);
    assert_eq!(db.all().get(&9), Some(&(tallinn(), Some(1000))));
}

#[test]
fn a_carried_over_time_opens_the_gate_once_it_is_old_enough() {
    let mut manager = StateManager::new(300);
    let mut db = open_db();
    let plan = manager.add(9, tallinn(), Some(1000));
    db.add(9, tallinn());
    let mut checker = plan.start;
    assert_eq!(checker.last_alerted_sec, Some(1000));
    assert!(checker.wake(15_400).is_none());
    let request = checker.wake(15_401);
    assert!(matches!(
        request,
        Some(CheckRequest { chat_id: 9, now_sec: 15_401, location }) if location == tallinn()
    ));
    let update = checker.check_and_alert(15_401, &Ok(true));
    assert_eq!(update, Some(15_401));
    db.update(9, 15_401);
    assert_eq!(db.all().get(&9), Some(&(tallinn(), Some(15_401))));
    assert!(checker.wake(15_402).is_none());
    assert!(checker.wake(15_401 + 14_400).is_none());
    assert!(checker.wake(15_401 + 14_401).is_some());
}

#[test]
fn a_negative_or_failed_check_changes_nothing() {
    let mut checker = Checker {
        task: 3,
        chat_id: 9,
        location: tallinn(),
        last_alerted_sec: Some(1000),
        check_every_seconds: 300,
    };
    assert_eq!(checker.check_and_alert(20_000, &Ok(false)), None);
    assert_eq!(checker.last_alerted_sec, Some(1000));
    let failed = Err(CheckError::Request(String::from("timed out")));
    assert_eq!(checker.check_and_alert(20_000, &failed), None);
    assert_eq!(checker.last_alerted_sec, Some(1000));
    assert_eq!(checker.task, 3);
    assert_eq!(checker.chat_id, 9);
    assert_eq!(checker.location, tallinn());
    assert_eq!(checker.check_every_seconds, 300);
    assert!(checker.wake(20_000).is_some());
}

#[test]
fn the_gate_opens_only_after_the_cool_down() {
    let now = 1_700_000_000u64;
    assert_eq!(COOL_DOWN_SECONDS, 14_400);
    assert!(!should_check(Some(now - 14_399), now));
    assert!(!should_check(Some(now - 14_400), now));
    assert!(should_check(Some(now - 14_401), now));
    assert!(!should_check(None, now));
    assert!(!should_check(Some(now), now));
    assert!(!should_check(Some(now + 1), now));
    assert!(!should_check(Some(u64::MAX), 0));
    assert!(should_check(Some(0), 14_401));
    assert!(!should_check(Some(0), 14_400));
    assert!(should_check(Some(0), u64::MAX));
}

#[test]
fn second_add_replaces_the_task() {
    let mut manager = StateManager::new(300);
    let mut db = open_db();
    let first = manager.add(7, tallinn(), None);
    db.add(first.create_record.0, first.create_record.1);
    db.update(7, 5000);
    let second = manager.add(7, tartu(), None);
    assert_eq!(second.abort, Some(first.start.task));
    assert_eq!(second.create_record, (7, tartu()));
    assert_ne!(second.start.task, first.start.task);
    assert_eq!(second.start.task, 1);
    assert_eq!(second.start.location, tartu());
    assert_eq!(second.start.last_alerted_sec, None);
    db.add(second.create_record.0, second.create_record.1);
    assert_eq!(manager.len(), 1);
    assert_eq!(manager.task_of(7), Some(1));
    assert_eq!(db.all().len(), 1);
    assert_eq!(db.all().get(&7), Some(&(tartu(), None)));
    assert!(second.start.wake(5000 + 14_401).is_none());
}

#[test]
fn remove_leaves_no_task_and_no_record() {
    let mut manager = StateManager::new(300);
    let mut db = open_db();
    let first = manager.add(7, tallinn(), None);
    db.add(first.create_record.0, first.create_record.1);
    let second = manager.add(7, tartu(), None);
    db.add(second.create_record.0, second.create_record.1);
    let plan = manager.remove(7);
    let plan = match plan {
        Some(plan) => plan,
        None => panic!("a watched subscriber must have a task to cancel"),
    };
    assert_eq!(plan.abort, second.start.task);
    assert_eq!(plan.remove_record, 7);
    let text = db.delete(plan.remove_record);
    assert_eq!(text, Vec::<u8>::new());
    assert_eq!(manager.task_of(7), None);
    assert_eq!(manager.len(), 0);
    assert!(db.all().is_empty());
}

#[test]
fn remove_of_an_unknown_key_is_a_no_op() {
    let mut manager = StateManager::new(300);
    assert!(manager.remove(7).is_none());
    manager.add(1, tallinn(), None);
    manager.add(2, tartu(), Some(10));
    assert!(manager.remove(7).is_none());
    assert_eq!(manager.len(), 2);
    assert_eq!(manager.task_of(1), Some(0));
    assert_eq!(manager.task_of(2), Some(1));
    assert!(manager.remove(1).is_some());
    assert!(manager.remove(1).is_none());
    assert!(manager.remove(1).is_none());
    assert_eq!(manager.len(), 1);
    assert_eq!(manager.task_of(2), Some(1));
}

#[test]
fn every_key_has_at_most_one_task_and_tasks_never_share_a_number() {
    let mut manager = StateManager::new(60);
    let mut alive: Vec<(u64, i64)> = Vec::new();
    let keys = [1i64, 2, 1, 3, 2, 2, 1, -5, 3, 1];
    for (round, key) in keys.iter().enumerate() {
        if round % 4 == 3 {
            if let Some(plan) = manager.remove(*key) {
                alive.retain(|(task, _)| *task != plan.abort);
            }
        } else {
            let plan = manager.add(*key, tallinn(), None);
            if let Some(old) = plan.abort {
                alive.retain(|(task, _)| *task != old);
            }
            assert!(alive.iter().all(|(task, _)| *task != plan.start.task));
            alive.push((plan.start.task, *key));
        }
        for key in keys.iter() {
            let running: Vec<u64> =
                alive.iter().filter(|(_, k)| k == key).map(|(task, _)| *task).collect();
            assert!(running.len() <= 1);
            assert_eq!(manager.task_of(*key), running.first().copied());
        }
        assert_eq!(manager.len(), alive.len());
    }
}

#[test]
fn other_keys_are_left_alone() {
    let mut manager = StateManager::new(300);
    manager.add(1, tallinn(), None);
    manager.add(2, tartu(), None);
    let plan = manager.add(1, tartu(), Some(5));
    assert_eq!(plan.abort, Some(0));
    assert_eq!(plan.start.task, 2);
    assert_eq!(plan.start.last_alerted_sec, Some(5));
    assert_eq!(manager.task_of(2), Some(1));
    assert_eq!(manager.task_of(1), Some(2));
    assert_eq!(manager.check_every_seconds(), 300);
}

#[test]
fn a_sleep_is_the_interval_and_the_jitter() {
    assert_eq!(sleep_seconds(300, 0), 300);
    assert_eq!(sleep_seconds(300, 59), 359);
    assert_eq!(sleep_seconds(0, 17), 17);
    assert_eq!(sleep_seconds(u64::MAX - 59, 59), u64::MAX);
}

#[test]
fn the_next_sleep_stays_within_a_minute_of_the_interval_and_varies() {
    let checker = Checker {
        task: 0,
        chat_id: 1,
        location: tallinn(),
        last_alerted_sec: None,
        check_every_seconds: 300,
    };
    assert_eq!(JITTER_SECONDS, 60);
    let mut seen = [false; 60];
    for _ in 0..5000 {
        let seconds = checker.next_sleep();
        assert!(seconds >= 300);
        assert!(seconds < 360);
        seen[(seconds - 300) as usize] = true;
    }
    assert!(seen.iter().filter(|hit| **hit).count() > 1);
}

#[test]
fn the_next_sleep_fits_at_the_largest_interval() {
    let checker = Checker {
        task: 0,
        chat_id: 1,
        location: tallinn(),
        last_alerted_sec: None,
        check_every_seconds: u64::MAX - 60,
    };
    for _ in 0..200 {
        let seconds = checker.next_sleep();
        assert!(seconds >= u64::MAX - 60);
        assert!(seconds < u64::MAX);
    }
}

#[test]
fn check_errors_say_what_failed() {
    assert_eq!(
        CheckError::UrlParser(String::from("empty host")).message(),
        "Url parsing failed: empty host"
    );
    assert_eq!(
        CheckError::Request(String::from("timed out")).message(),
        "Error requesting weather: timed out"
    );
    assert_eq!(CheckError::Bot(String::from("blocked")).message(), "Bot error: blocked");
    assert_eq!(CheckError::Bot(String::new()).message(), "Bot error: ");
}

#[test]
fn every_kind_of_alert_but_noprec_is_rain() {
    let dry = AlertResponse { typ: String::from("noprec"), title: String::from("No rain") };
    let wet = AlertResponse { typ: String::from("rain"), title: String::from("Rain soon") };
    let odd = AlertResponse { typ: String::from("NOPREC"), title: String::new() };
    let blank = AlertResponse { typ: String::new(), title: String::new() };
    assert!(!dry.is_rain());
    assert!(wet.is_rain());
    assert!(odd.is_rain());
    assert!(blank.is_rain());
    let response = WeatherResponse { alert: wet };
    assert!(response.alert.is_rain());
    assert_eq!(response.alert.title, "Rain soon");
}
