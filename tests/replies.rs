use incydecy::classify::Direction;
use incydecy::dispatch::{contains, route, route_mention, Request};
use incydecy::reply::{authors_reply, counters_reply, mutation_reply};

#[test]
fn mutation_reply_text() {
    assert_eq!(mutation_reply("a", 2), "a ⟶ 2");
    assert_eq!(mutation_reply("🎉", -13), "🎉 ⟶ -13");
}

#[test]
fn counters_reply_text() {
    assert_eq!(counters_reply(&vec![]), "No values tracked yet!");
    let rows = vec![("a".to_string(), 12), ("b".to_string(), -3)];
    assert_eq!(counters_reply(&rows), "**Leaderboard:**\n1. a ⟶ 12\n2. b ⟶ -3\n");
}

#[test]
fn authors_reply_text() {
    assert_eq!(authors_reply(&vec![]), "No user activity tracked yet!");
    let rows = vec![("42".to_string(), 3), ("7".to_string(), 1)];
    assert_eq!(
        authors_reply(&rows),
        "**User Leaderboard:**\n1. <@42> ⟶ 3 invocations\n2. <@7> ⟶ 1 invocations\n"
    );
}

#[test]
fn substring_search() {
    assert!(contains("show the leaderboard", "leaderboard"));
    assert!(contains("abc", ""));
    assert!(!contains("leader board", "leaderboard"));
    assert!(!contains("ab", "abc"));
}

#[test]
fn mentions_ask_for_leaderboards() {
    assert!(matches!(route_mention("user leaderboard please"), Request::TopAuthors));
    assert!(matches!(route_mention("leaderboard"), Request::TopCounters));
    assert!(matches!(route_mention("hello"), Request::Ignore));
    assert!(matches!(route(false, true, true, "<@1> Show LEADERBOARD"), Request::TopCounters));
    assert!(matches!(route(false, true, true, "<@1> USER Leaderboard"), Request::TopAuthors));
}

#[test]
fn routing_of_plain_messages() {
    assert!(matches!(route(true, true, false, "a++"), Request::Ignore));
    assert!(matches!(route(false, false, false, "a++"), Request::Ignore));
    assert!(matches!(route(false, true, false, "hello"), Request::Ignore));
    assert!(matches!(route(false, true, false, "a b++"), Request::Ignore));
    match route(false, true, false, "a++") {
        Request::Mutate(m) => {
            assert_eq!(m.label, "a");
            assert_eq!(m.direction, Direction::Increment);
        }
        _ => panic!("expected a mutation"),
    }
}
