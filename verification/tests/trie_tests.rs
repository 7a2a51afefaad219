use ferrite::{QoS, Subscription, TopicTrie};

#[test]
fn test_exact_topic_match() {
    let mut trie = TopicTrie::new();
    trie.subscribe("a/b/c", "client1".into(), QoS::AtMostOnce);
    trie.subscribe("a/b/d", "client2".into(), QoS::AtLeastOnce);

    let matches = trie.match_topic("a/b/c");
    assert_eq!(matches.len(), 1);
    assert_eq!(matches[0].client_id, "client1");
}

#[test]
fn test_wildcard_plus_match() {
    let mut trie = TopicTrie::new();
    trie.subscribe("sensors/+/temp", "dashboard".into(), QoS::AtMostOnce);

    let matches1 = trie.match_topic("sensors/kitchen/temp");
    assert_eq!(matches1.len(), 1);
    assert_eq!(matches1[0].client_id, "dashboard");

    let matches2 = trie.match_topic("sensors/bedroom/temp");
    assert_eq!(matches2.len(), 1);

    let nomatch = trie.match_topic("sensors/kitchen/humidity");
    assert!(nomatch.is_empty());
}

#[test]
fn test_wildcard_hash_match() {
    let mut trie = TopicTrie::new();
    trie.subscribe("devices/#", "logger".into(), QoS::AtLeastOnce);

    assert_eq!(trie.match_topic("devices/gateway1").len(), 1);
    assert_eq!(trie.match_topic("devices/gateway1/status").len(), 1);
    assert_eq!(trie.match_topic("devices/g1/sensor2/val").len(), 1);
    assert!(trie.match_topic("other/topic").is_empty());
}

#[test]
fn test_unsubscribe() {
    let mut trie = TopicTrie::new();
    trie.subscribe("home/+", "user".into(), QoS::AtMostOnce);
    assert_eq!(trie.match_topic("home/light").len(), 1);

    trie.unsubscribe("home/+", "user");
    assert!(trie.match_topic("home/light").is_empty());
}

fn clients_of(trie: &TopicTrie, topic: &str) -> Vec<(String, QoS)> {
    let mut v: Vec<(String, QoS)> =
        trie.match_topic(topic).into_iter().map(|s| (s.client_id, s.qos)).collect();
    v.sort_by(|a, b| a.0.cmp(&b.0));
    v
}

#[test]
fn documented_filters_all_match_a_publication() {
    let mut trie = TopicTrie::new();
    trie.subscribe("sensors/livingroom/temp", "exact".into(), QoS::AtMostOnce);
    trie.subscribe("sensors/+/temp", "plus".into(), QoS::AtMostOnce);
    trie.subscribe("sensors/#", "hash".into(), QoS::AtMostOnce);
    trie.subscribe("#", "all".into(), QoS::AtMostOnce);
    trie.subscribe("sensors/kitchen/temp", "other".into(), QoS::AtMostOnce);
    let got = clients_of(&trie, "sensors/livingroom/temp");
    let names: Vec<&str> = got.iter().map(|(c, _)| c.as_str()).collect();
    assert_eq!(names, vec!["all", "exact", "hash", "plus"]);
}

#[test]
fn highest_qos_wins_for_a_client() {
    let mut trie = TopicTrie::new();
    trie.subscribe("a/b", "c1".into(), QoS::AtMostOnce);
    trie.subscribe("a/+", "c1".into(), QoS::ExactlyOnce);
    trie.subscribe("a/#", "c1".into(), QoS::AtLeastOnce);
    assert_eq!(clients_of(&trie, "a/b"), vec![("c1".to_string(), QoS::ExactlyOnce)]);
    assert_eq!(clients_of(&trie, "a/x"), vec![("c1".to_string(), QoS::ExactlyOnce)]);
}

#[test]
fn resubscribing_replaces_the_qos() {
    let mut trie = TopicTrie::new();
    trie.subscribe("a/b", "c1".into(), QoS::ExactlyOnce);
    trie.subscribe("a/b", "c1".into(), QoS::AtMostOnce);
    assert_eq!(clients_of(&trie, "a/b"), vec![("c1".to_string(), QoS::AtMostOnce)]);
}

#[test]
fn hash_matches_its_parent_level_and_everything_below() {
    let mut trie = TopicTrie::new();
    trie.subscribe("devices/#", "logger".into(), QoS::AtMostOnce);
    assert_eq!(trie.match_topic("devices").len(), 1);
    assert!(trie.match_topic("device").is_empty());
    assert!(trie.match_topic("").is_empty());
}

#[test]
fn plus_matches_exactly_one_level() {
    let mut trie = TopicTrie::new();
    trie.subscribe("a/+", "c".into(), QoS::AtMostOnce);
    assert_eq!(trie.match_topic("a/").len(), 1);
    assert!(trie.match_topic("a").is_empty());
    assert!(trie.match_topic("a/b/c").is_empty());
}

#[test]
fn levels_after_hash_are_ignored() {
    let mut trie = TopicTrie::new();
    trie.subscribe("a/#/b", "c".into(), QoS::AtMostOnce);
    assert_eq!(trie.match_topic("a/x/y").len(), 1);
    trie.unsubscribe("a/#/zzz", "c");
    assert!(trie.match_topic("a/x/y").is_empty());
}

#[test]
fn unsubscribe_leaves_other_clients_and_filters() {
    let mut trie = TopicTrie::new();
    trie.subscribe("x/y", "c1".into(), QoS::AtMostOnce);
    trie.subscribe("x/y", "c2".into(), QoS::AtLeastOnce);
    trie.subscribe("x/+", "c1".into(), QoS::AtLeastOnce);
    trie.unsubscribe("x/y", "c1");
    assert_eq!(
        clients_of(&trie, "x/y"),
        vec![("c1".to_string(), QoS::AtLeastOnce), ("c2".to_string(), QoS::AtLeastOnce)]
    );
    trie.unsubscribe("nothing/here", "c2");
    trie.unsubscribe("x/+", "c1");
    assert_eq!(clients_of(&trie, "x/y"), vec![("c2".to_string(), QoS::AtLeastOnce)]);
}

#[test]
fn empty_levels_are_levels() {
    let mut trie = TopicTrie::new();
    trie.subscribe("/a", "c".into(), QoS::AtMostOnce);
    assert_eq!(trie.match_topic("/a").len(), 1);
    assert!(trie.match_topic("a").is_empty());
    trie.subscribe("", "e".into(), QoS::AtMostOnce);
    assert_eq!(clients_of(&trie, ""), vec![("e".to_string(), QoS::AtMostOnce)]);
}

#[test]
fn default_trie_is_empty_and_subscriptions_compare_by_value() {
    let mut trie = TopicTrie::default();
    assert!(trie.match_topic("a/b").is_empty());
    trie.subscribe("a/+", "c1".to_string(), QoS::AtLeastOnce);
    let found = trie.match_topic("a/b");
    let expected = Subscription { client_id: "c1".to_string(), qos: QoS::AtLeastOnce };
    assert_eq!(found, vec![expected.clone()]);
    assert_eq!(found[0], expected);
}
