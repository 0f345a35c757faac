use master_control::heartbeat::{disk_rolls, rolled_disk_path, keepalive, Beat, Config, Keepalive, Pacer};
use master_control::wire::{KEEPALIVE_DEAD_MILLIS, KEEPALIVE_PING_MILLIS};

#[test]
fn the_config_defaults_to_the_published_contract() {
    let config = Config::default();
    assert_eq!(config.keepalive_ping, KEEPALIVE_PING_MILLIS);
    assert_eq!(config.keepalive_dead, KEEPALIVE_DEAD_MILLIS);
    assert_eq!(config.quota_per_tick, 64);
    assert_eq!(config.max_catch_up, 4);
    assert_eq!(config.handshake_timeout, 250);
    assert!(!config.verbose);
    assert!(config.disk.is_none());
    assert_eq!(config.disk_roll_bytes, 48 * 1024 * 1024);
    assert!(config.input_log.is_none());
    assert_eq!(config.hash_every, 32);
}

#[test]
fn the_pacer_steps_what_the_clock_owes_up_to_the_clamp_and_drops_the_rest() {
    let mut pacer = Pacer::new(1_000, 100, 4);
    assert_eq!(pacer.wait(1_000), Some(100));
    assert_eq!(pacer.wait(1_100), None);
    assert_eq!(pacer.beat(1_050, 0), Beat::Done, "nothing owed yet");
    // A long stall: ten ticks owed, four stepped, the debt dropped.
    let now = 2_100;
    let mut stepped = 0;
    loop {
        match pacer.beat(now, stepped) {
            Beat::Step => stepped += 1,
            Beat::Done => panic!("the clock still owes"),
            Beat::Overrun => break,
        }
    }
    assert_eq!(stepped, 4, "the clamp");
    assert_eq!(pacer.overruns, 1);
    assert_eq!(pacer.next_tick, now + 100, "the next tick is one dt from now, not the debt");
    // A turn that catches up exactly ends without an overrun.
    let mut stepped = 0;
    while pacer.beat(2_350, stepped) == Beat::Step {
        stepped += 1;
    }
    assert_eq!(stepped, 2);
    assert_eq!(pacer.overruns, 1);
    assert_eq!(pacer.next_tick, 2_400);
}

#[test]
fn the_pacer_holds_at_the_top_of_the_clock() {
    let mut pacer = Pacer::new(u64::MAX - 10, 100, 1);
    assert_eq!(pacer.next_tick, u64::MAX);
    assert_eq!(pacer.beat(u64::MAX, 0), Beat::Step);
    assert_eq!(pacer.next_tick, u64::MAX);
    assert_eq!(pacer.beat(u64::MAX, 1), Beat::Overrun);
}

#[test]
fn the_keepalive_pings_the_quiet_and_reaps_the_dead() {
    let (ping, dead) = (KEEPALIVE_PING_MILLIS, KEEPALIVE_DEAD_MILLIS);
    assert_eq!(keepalive(0, 0, ping, dead), Keepalive::Quiet);
    assert_eq!(keepalive(ping, ping, ping, dead), Keepalive::Ping);
    assert_eq!(keepalive(ping, ping - 1, ping, dead), Keepalive::Quiet, "pinged lately");
    assert_eq!(keepalive(dead, 0, ping, dead), Keepalive::Reap);
    assert_eq!(keepalive(dead - 1, dead, ping, dead), Keepalive::Ping);
}

#[test]
fn the_disk_rolls_over_at_its_size_judged_every_eighth_tick() {
    let limit = 48 * 1024 * 1024;
    assert!(disk_rolls(64, limit, limit), "the file has reached the size");
    assert!(!disk_rolls(64, limit - 1, limit));
    assert!(!disk_rolls(65, 2 * limit, limit), "the size is judged every eighth tick");
    assert!(!disk_rolls(64, u64::MAX, 0), "zero never rolls");
    assert_eq!(rolled_disk_path(b"runs/world.disk", 2), b"runs/world.0002.disk".to_vec());
    assert_eq!(rolled_disk_path(b"world.disk", 13), b"world.0013.disk".to_vec());
    assert_eq!(rolled_disk_path(b"world", 3), b"world.0003.disk".to_vec(), "a path without .disk keeps its name");
    assert_eq!(rolled_disk_path(b"world.disk", 12_345), b"world.12345.disk".to_vec());
    assert_eq!(rolled_disk_path(b".disk", 2), b".0002.disk".to_vec());
}
