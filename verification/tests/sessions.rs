use botcore::registry::Player;

#[test]
fn start_returns_displaced_handle() {
    let mut p: Player<u64> = Player::new();
    assert_eq!(p.start(1, 100), None);
    assert_eq!(p.start(1, 101), Some(100));
    assert_eq!(p.get(1), Some(&101));
}

#[test]
fn stop_removes_and_returns() {
    let mut p: Player<u64> = Player::new();
    assert_eq!(p.stop(1), None);
    p.start(1, 100);
    assert_eq!(p.stop(1), Some(100));
    assert_eq!(p.get(1), None);
    assert_eq!(p.stop(1), None);
}

#[test]
fn get_does_not_remove() {
    let mut p: Player<u64> = Player::new();
    p.start(4, 7);
    assert_eq!(p.get(4), Some(&7));
    assert_eq!(p.get(4), Some(&7));
    assert_eq!(p.stop(4), Some(7));
}

#[test]
fn guilds_do_not_interfere() {
    let mut p: Player<u64> = Player::new();
    p.start(1, 100);
    p.start(2, 200);
    p.start(3, 300);
    assert_eq!(p.start(2, 201), Some(200));
    assert_eq!(p.get(1), Some(&100));
    assert_eq!(p.get(2), Some(&201));
    assert_eq!(p.get(3), Some(&300));
    assert_eq!(p.stop(1), Some(100));
    assert_eq!(p.get(2), Some(&201));
    assert_eq!(p.get(3), Some(&300));
}

#[test]
fn every_superseded_handle_receives_a_stop_signal() {
    // Replay an arbitrary interleaving of starts and stops over a few
    // guilds; each handle the registry hands back is sent its stop
    // signal. At the end every handle ever issued is either the one
    // live handle of its guild or was stopped: none leaked.
    let mut p: Player<u64> = Player::new();
    let mut issued: Vec<(u64, u64)> = Vec::new();
    let mut stopped: Vec<u64> = Vec::new();
    let mut next: u64 = 0;

    let script: [(bool, u64); 12] = [
        (true, 1),
        (true, 2),
        (true, 1),
        (false, 2),
        (true, 2),
        (true, 1),
        (false, 3),
        (true, 3),
        (true, 2),
        (false, 1),
        (true, 1),
        (true, 3),
    ];
    for (is_start, guild) in script {
        if is_start {
            next += 1;
            issued.push((guild, next));
            if let Some(old) = p.start(guild, next) {
                stopped.push(old);
            }
        } else if let Some(old) = p.stop(guild) {
            stopped.push(old);
        }
    }

    for (guild, handle) in issued {
        let live = p.get(guild) == Some(&handle);
        let was_stopped = stopped.contains(&handle);
        assert!(live || was_stopped, "handle {handle} leaked");
        assert!(!(live && was_stopped), "handle {handle} stopped but still live");
    }
    // At most one live entry per guild: the registry answers with one
    // handle or none.
    for guild in [1u64, 2, 3] {
        let first = p.get(guild).copied();
        let second = p.get(guild).copied();
        assert_eq!(first, second);
    }
}
