use grimbot::dispatch::{
    CommandEvent, CommandKind, CommandSpec, Dispatcher, DispatchOutcome, Registry,
};
use grimbot::limiter::{BucketConfig, Scope};
use grimbot::store::EntityStore;

fn spec(name: &str, kind: CommandKind, bucket: Option<usize>) -> CommandSpec {
    CommandSpec {
        name: name.as_bytes().to_vec(),
        aliases: Vec::new(),
        kind,
        bucket,
        description: Vec::new(),
    }
}

fn loaded_store() -> EntityStore {
    let mut s = EntityStore::new();
    s.load(Vec::new());
    s
}

/// Registry: roll (alias "r", gated by bucket 0), character, group, about.
fn engine(bucket: BucketConfig) -> Dispatcher {
    let mut roll = spec("roll", CommandKind::Roll, Some(0));
    roll.aliases.push(b"r".to_vec());
    let registry = Registry {
        commands: vec![
            roll,
            spec("character", CommandKind::Character, None),
            spec("group", CommandKind::Group, None),
            spec("about", CommandKind::About, None),
        ],
    };
    Dispatcher::new(
        registry,
        b"!".to_vec(),
        b"@grim ".to_vec(),
        100,
        b"Grimbot responding.".to_vec(),
        vec![bucket],
        loaded_store(),
        loaded_store(),
    )
}

fn wide_bucket() -> BucketConfig {
    BucketConfig { capacity: 100, window: 60, queue_depth: 0, post_delay: 0, scope: Scope::PerChannel }
}

fn event(content: &str) -> CommandEvent {
    CommandEvent {
        author_id: 42,
        channel_id: 7,
        guild_id: Some(3),
        content: content.as_bytes().to_vec(),
        received_at: 0,
    }
}

#[test]
fn end_to_end_straight_roll() {
    // P8: "3d6" yields a line listing 3 dice in [1,6] and their sum.
    let mut d = engine(wide_bucket());
    let (out, released) = d.dispatch(&event("!roll 3d6"), true, 0);
    assert!(released.is_empty());
    match out {
        DispatchOutcome::Executed { reply } => {
            let text = String::from_utf8(reply).unwrap();
            let body = text.strip_prefix("Role Result: [").unwrap();
            let (list, sum) = body.split_once("] = ").unwrap();
            let dice: Vec<u32> = list.split(", ").map(|t| t.parse().unwrap()).collect();
            assert_eq!(dice.len(), 3);
            assert!(dice.iter().all(|&v| (1..=6).contains(&v)));
            let total: u32 = dice.iter().sum();
            assert_eq!(sum.parse::<u32>().unwrap(), total);
        },
        other => panic!("expected an executed roll, got {:?}", other),
    }
}

#[test]
fn end_to_end_kirin_roll() {
    // P8: "5 kirin" yields a count in [0,5] with the right phrasing.
    let mut d = engine(wide_bucket());
    let (out, _) = d.dispatch(&event("!roll 5 kirin"), true, 0);
    match out {
        DispatchOutcome::Executed { reply } => {
            let text = String::from_utf8(reply).unwrap();
            let body = text.strip_prefix("Role Result: ").unwrap();
            let (count, tail) = body.split_once(' ').unwrap();
            let n: u32 = count.parse().unwrap();
            assert!(n <= 5);
            if n == 1 {
                assert_eq!(tail, "Success Rolled");
            } else {
                assert_eq!(tail, "Successes Rolled");
            }
        },
        other => panic!("expected an executed roll, got {:?}", other),
    }
}

#[test]
fn end_to_end_character_new() {
    // P8: "character new Zara" writes a record keyed "Zara", owned by the
    // invoking user.
    let mut d = engine(wide_bucket());
    let (out, _) = d.dispatch(&event("!character new Zara"), true, 0);
    match out {
        DispatchOutcome::Executed { reply } => {
            assert_eq!(reply, b"Creating new character Zara".to_vec());
        },
        other => panic!("expected an executed command, got {:?}", other),
    }
    let rec = d.characters.get(&b"Zara".to_vec()).unwrap();
    assert_eq!(rec.owner, 42);
    assert_eq!(rec.name, b"Zara".to_vec());
}

#[test]
fn group_new_writes_the_group_store() {
    let mut d = engine(wide_bucket());
    let (out, _) = d.dispatch(&event("!group new riders"), true, 0);
    match out {
        DispatchOutcome::Executed { reply } => {
            assert_eq!(reply, b"Creating new group riders".to_vec());
        },
        other => panic!("expected an executed command, got {:?}", other),
    }
    assert_eq!(d.groups.get(&b"riders".to_vec()).unwrap().owner, 42);
    assert!(d.characters.get(&b"riders".to_vec()).is_none());
}

#[test]
fn entity_command_needs_new_and_name() {
    let mut d = engine(wide_bucket());
    let (out, _) = d.dispatch(&event("!group new"), true, 0);
    match out {
        DispatchOutcome::ParseFailed { reply, .. } => {
            assert_eq!(reply, b"Expected: new <name>".to_vec());
        },
        other => panic!("expected a parse failure, got {:?}", other),
    }
    let (out, _) = d.dispatch(&event("!group delete riders"), true, 0);
    assert!(matches!(out, DispatchOutcome::ParseFailed { .. }));
}

#[test]
fn message_without_prefix_is_not_a_command() {
    let mut d = engine(wide_bucket());
    let (out, _) = d.dispatch(&event("roll 3d6"), true, 0);
    assert_eq!(out, DispatchOutcome::NotCommand);
    let (out, _) = d.dispatch(&event("!   "), true, 0);
    assert_eq!(out, DispatchOutcome::NotCommand);
}

#[test]
fn leading_mention_addresses_the_bot_too() {
    let mut d = engine(wide_bucket());
    let (out, _) = d.dispatch(&event("@grim about"), true, 0);
    assert_eq!(out, DispatchOutcome::Executed { reply: b"Grimbot responding.".to_vec() });
    // An unconfigured mention (empty) never matches; here only the real
    // token does.
    let (out, _) = d.dispatch(&event("@someoneelse about"), true, 1);
    assert_eq!(out, DispatchOutcome::NotCommand);
}

#[test]
fn unknown_command_is_not_found() {
    let mut d = engine(wide_bucket());
    let (out, _) = d.dispatch(&event("!conjure"), true, 0);
    assert_eq!(out, DispatchOutcome::NotFound);
}

#[test]
fn alias_reaches_the_same_command() {
    let mut d = engine(wide_bucket());
    let (out, _) = d.dispatch(&event("!r 2d4"), true, 0);
    assert!(matches!(out, DispatchOutcome::Executed { .. }));
}

#[test]
fn veto_stops_the_handler_and_the_counter() {
    let mut d = engine(wide_bucket());
    let (out, _) = d.dispatch(&event("!character new Zara"), false, 0);
    assert_eq!(out, DispatchOutcome::Vetoed);
    assert!(d.characters.get(&b"Zara".to_vec()).is_none());
    assert_eq!(d.counts, vec![0, 0, 0, 0]);
}

#[test]
fn invocation_counter_counts_per_command() {
    let mut d = engine(wide_bucket());
    d.dispatch(&event("!roll 3d6"), true, 0);
    d.dispatch(&event("!roll 4"), true, 1);
    d.dispatch(&event("!about"), true, 2);
    // A parse failure still counts as an invocation of the handler.
    d.dispatch(&event("!roll nonsense"), true, 3);
    assert_eq!(d.counts, vec![3, 0, 0, 1]);
}

#[test]
fn bad_roll_expression_replies_with_the_reason() {
    let mut d = engine(wide_bucket());
    let (out, _) = d.dispatch(&event("!roll"), true, 0);
    match out {
        DispatchOutcome::ParseFailed { reply, .. } => {
            assert_eq!(reply, b"No roll expression given.".to_vec());
        },
        other => panic!("expected a parse failure, got {:?}", other),
    }
    let (out, _) = d.dispatch(&event("!roll 5 dragon"), true, 1);
    match out {
        DispatchOutcome::ParseFailed { reply, .. } => {
            assert_eq!(reply, b"Unknown roll mode.".to_vec());
        },
        other => panic!("expected a parse failure, got {:?}", other),
    }
}

#[test]
fn about_replies_with_the_identity_line() {
    let mut d = engine(wide_bucket());
    let (out, _) = d.dispatch(&event("!about"), true, 0);
    assert_eq!(out, DispatchOutcome::Executed { reply: b"Grimbot responding.".to_vec() });
}

#[test]
fn bucket_limits_commands_per_channel() {
    // P5/P6 through the dispatcher: capacity 1 per 60s per channel.
    let tight = BucketConfig {
        capacity: 1,
        window: 60,
        queue_depth: 0,
        post_delay: 0,
        scope: Scope::PerChannel,
    };
    let mut d = engine(tight);
    let (out, _) = d.dispatch(&event("!roll 3d6"), true, 0);
    assert!(matches!(out, DispatchOutcome::Executed { .. }));
    let (out, _) = d.dispatch(&event("!roll 3d6"), true, 1);
    assert_eq!(out, DispatchOutcome::RateLimited { retry_after: 59, notify: true });
    // The notice comes once per rejection episode.
    let (out, _) = d.dispatch(&event("!roll 3d6"), true, 2);
    assert_eq!(out, DispatchOutcome::RateLimited { retry_after: 58, notify: false });
    // Another channel has its own bucket.
    let mut other = event("!roll 3d6");
    other.channel_id = 8;
    let (out, _) = d.dispatch(&other, true, 3);
    assert!(matches!(out, DispatchOutcome::Executed { .. }));
    // After the window, the first channel may roll again.
    let (out, _) = d.dispatch(&event("!roll 3d6"), true, 60);
    assert!(matches!(out, DispatchOutcome::Executed { .. }));
}

#[test]
fn delayed_event_is_queued_then_released() {
    let queued = BucketConfig {
        capacity: 1,
        window: 30,
        queue_depth: 1,
        post_delay: 0,
        scope: Scope::PerChannel,
    };
    let mut d = engine(queued);
    let (out, _) = d.dispatch(&event("!roll 3d6"), true, 0);
    assert!(matches!(out, DispatchOutcome::Executed { .. }));
    let (out, _) = d.dispatch(&event("!roll 3d6"), true, 1);
    let queued_id = match out {
        DispatchOutcome::Delayed { retry_after, id } => {
            assert_eq!(retry_after, 29);
            id
        },
        other => panic!("expected a delay, got {:?}", other),
    };
    // Once the window rolls over, the next attempt releases the waiter.
    let (out, released) = d.dispatch(&event("!roll 3d6"), true, 30);
    assert_eq!(released, vec![queued_id]);
    // The released waiter took the fresh token; the newcomer queues.
    assert!(matches!(out, DispatchOutcome::Delayed { .. }));
    // Its holder now runs the released invocation by hand.
    d.note_invocation(0);
    let args = vec![b"3d6".to_vec()];
    let out = d.run_command(0, &args, &event("!roll 3d6"));
    assert!(matches!(out, DispatchOutcome::Executed { .. }));
}
