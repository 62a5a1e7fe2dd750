use instance_picker::discovery::{
    after_health, after_listing, collect_instances, groups_to_query, DiscoveryError,
    DiscoveryStep, GroupMember, InstanceTag, ListedInstance,
};
use instance_picker::EC2InstanceCollection;

fn tag(key: &str, value: &str) -> InstanceTag {
    InstanceTag { key: Some(key.to_string()), value: Some(value.to_string()) }
}

fn listed(id: &str, tags: Vec<InstanceTag>) -> ListedInstance {
    ListedInstance { id: Some(id.to_string()), tags, state: Some("running".to_string()) }
}

fn member(id: &str, health: &str) -> GroupMember {
    GroupMember { instance_id: Some(id.to_string()), health_status: Some(health.to_string()) }
}

fn ids(c: &EC2InstanceCollection) -> Vec<String> {
    c.iter().map(|i| i.id.clone()).collect()
}

#[test]
fn two_instances_one_group_scenario() {
    let listing = vec![
        listed("i-1", vec![tag("Name", "web"), tag("aws:autoscaling:groupName", "asg-a")]),
        listed("i-2", vec![]),
    ];
    let step = after_listing(Some("eu-west-1".to_string()), None, Ok(listing)).unwrap();
    let (collection, groups) = match step {
        DiscoveryStep::QueryHealth(c, g) => (c, g),
        DiscoveryStep::Done(_) => panic!("a group was named"),
    };
    assert_eq!(groups, vec!["asg-a".to_string()]);
    let done = after_health(collection, Ok(vec![member("i-1", "Healthy")])).unwrap();
    assert_eq!(done.len(), 2);
    let first = done.get(0);
    assert_eq!(first.id, "i-1");
    assert_eq!(first.get_name(), "web");
    assert_eq!(first.get_autoscaling_group_name(), "asg-a");
    assert_eq!(first.get_health(), "Healthy");
    assert_eq!(first.get_state(), "running");
    let second = done.get(1);
    assert_eq!(second.id, "i-2");
    assert_eq!(second.get_name(), "");
    assert_eq!(second.get_autoscaling_group_name(), "(Unknown)");
    assert_eq!(second.get_health(), "(Unknown)");
    assert_eq!(done.get_region(), Some("eu-west-1".to_string()));
    assert_eq!(done.get_profile(), None);
}

#[test]
fn empty_listing_needs_no_health_lookup() {
    let step = after_listing(None, Some("dev".to_string()), Ok(vec![])).unwrap();
    match step {
        DiscoveryStep::Done(c) => {
            assert!(c.is_empty());
            assert_eq!(c.get_profile(), Some("dev".to_string()));
        }
        DiscoveryStep::QueryHealth(_, _) => panic!("no group to ask about"),
    }
}

#[test]
fn ungrouped_instances_need_no_health_lookup() {
    let listing = vec![listed("i-1", vec![tag("Name", "a")]), listed("i-2", vec![])];
    match after_listing(None, None, Ok(listing)).unwrap() {
        DiscoveryStep::Done(c) => {
            assert_eq!(ids(&c), vec!["i-1".to_string(), "i-2".to_string()]);
            assert_eq!(c.get(0).get_health(), "(Unknown)");
        }
        DiscoveryStep::QueryHealth(_, _) => panic!("no group to ask about"),
    }
}

#[test]
fn empty_group_tag_is_not_queried() {
    let listing = vec![listed("i-1", vec![tag("aws:autoscaling:groupName", "")])];
    match after_listing(None, None, Ok(listing)).unwrap() {
        DiscoveryStep::Done(c) => assert_eq!(c.get(0).get_autoscaling_group_name(), ""),
        DiscoveryStep::QueryHealth(_, _) => panic!("an empty group name is not asked about"),
    }
}

#[test]
fn listing_failure_fails_discovery() {
    let r = after_listing(None, None, Err("access denied".to_string()));
    assert!(matches!(r, Err(DiscoveryError::RemoteCall(ref m)) if m == "access denied"));
}

#[test]
fn health_failure_fails_discovery() {
    let c = collect_instances(None, None, &vec![listed("i-1", vec![])]).unwrap();
    let r = after_health(c, Err("timeout".to_string()));
    assert!(matches!(r, Err(DiscoveryError::RemoteCall(ref m)) if m == "timeout"));
}

#[test]
fn missing_id_is_an_error() {
    let listing = vec![
        listed("i-1", vec![]),
        ListedInstance { id: None, tags: vec![], state: None },
    ];
    assert_eq!(
        collect_instances(None, None, &listing).err(),
        Some(DiscoveryError::MissingInstanceId)
    );
}

#[test]
fn malformed_health_reply_is_an_error() {
    let c = collect_instances(None, None, &vec![listed("i-1", vec![])]).unwrap();
    let reply = vec![GroupMember { instance_id: Some("i-1".to_string()), health_status: None }];
    assert_eq!(after_health(c, Ok(reply)).err(), Some(DiscoveryError::MalformedHealthReply));
}

#[test]
fn listing_order_is_kept() {
    let listing = vec![listed("i-3", vec![]), listed("i-1", vec![]), listed("i-2", vec![])];
    let c = collect_instances(None, None, &listing).unwrap();
    assert_eq!(ids(&c), vec!["i-3".to_string(), "i-1".to_string(), "i-2".to_string()]);
}

#[test]
fn last_duplicate_tag_wins() {
    let listing = vec![listed("i-1", vec![tag("Name", "first"), tag("Other", "x"), tag("Name", "second")])];
    let c = collect_instances(None, None, &listing).unwrap();
    assert_eq!(c.get(0).get_name(), "second");
}

#[test]
fn tag_without_value_counts_as_empty() {
    let listing = vec![listed(
        "i-1",
        vec![InstanceTag { key: Some("Name".to_string()), value: None }],
    )];
    let c = collect_instances(None, None, &listing).unwrap();
    assert_eq!(c.get(0).name, Some(String::new()));
}

#[test]
fn missing_state_stays_unset() {
    let listing = vec![ListedInstance { id: Some("i-1".to_string()), tags: vec![], state: None }];
    let c = collect_instances(None, None, &listing).unwrap();
    assert_eq!(c.get(0).get_state(), "(Unknown)");
}

#[test]
fn groups_are_distinct_and_non_empty() {
    let g = "aws:autoscaling:groupName";
    let listing = vec![
        listed("i-1", vec![tag(g, "b")]),
        listed("i-2", vec![tag(g, "a")]),
        listed("i-3", vec![tag(g, "b")]),
        listed("i-4", vec![tag(g, "")]),
        listed("i-5", vec![]),
    ];
    let c = collect_instances(None, None, &listing).unwrap();
    let mut groups = groups_to_query(&c);
    groups.sort();
    assert_eq!(groups, vec!["a".to_string(), "b".to_string()]);
}

#[test]
fn health_join_by_exact_id() {
    let g = "aws:autoscaling:groupName";
    let listing = vec![listed("i-1", vec![tag(g, "a")]), listed("i-10", vec![tag(g, "a")])];
    let c = collect_instances(None, None, &listing).unwrap();
    let reply = vec![member("i-10", "Unhealthy"), member("i-99", "Healthy")];
    let done = after_health(c, Ok(reply)).unwrap();
    assert_eq!(done.get(0).get_health(), "(Unknown)");
    assert_eq!(done.get(1).get_health(), "Unhealthy");
    assert_eq!(done.len(), 2);
}

#[test]
fn later_health_pair_wins() {
    let listing = vec![listed("i-1", vec![])];
    let c = collect_instances(None, None, &listing).unwrap();
    let reply = vec![member("i-1", "Healthy"), member("i-1", "Unhealthy")];
    let done = after_health(c, Ok(reply)).unwrap();
    assert_eq!(done.get(0).get_health(), "Unhealthy");
}

#[test]
fn ids_appear_once_each() {
    let listing = vec![listed("i-a", vec![]), listed("i-b", vec![])];
    let c = collect_instances(None, None, &listing).unwrap();
    let done = after_health(c, Ok(vec![member("i-a", "Healthy")])).unwrap();
    let got = ids(&done);
    assert_eq!(got.iter().filter(|i| *i == "i-a").count(), 1);
    assert_eq!(got.iter().filter(|i| *i == "i-b").count(), 1);
}

#[test]
fn collection_text_lists_each_record() {
    let listing = vec![listed("i-1", vec![tag("Name", "web")]), listed("i-2", vec![])];
    let c = collect_instances(None, None, &listing).unwrap();
    assert_eq!(
        c.display_text(),
        "Instances: \n\"i-1\" (Unknown) web\n\"i-2\" (Unknown) \n"
    );
}

#[test]
fn empty_collection_text_is_the_header() {
    assert_eq!(EC2InstanceCollection::new().display_text(), "Instances: \n");
}
