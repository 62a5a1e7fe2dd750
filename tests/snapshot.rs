use instance_picker::snapshot::SnapshotError;
use instance_picker::{EC2Instance, EC2InstanceCollection};

fn same(a: &EC2InstanceCollection, b: &EC2InstanceCollection) -> bool {
    if a.region != b.region || a.profile != b.profile || a.len() != b.len() {
        return false;
    }
    a.iter().zip(b.iter()).all(|(x, y)| {
        x.id == y.id
            && x.state == y.state
            && x.name == y.name
            && x.autoscaling_group_name == y.autoscaling_group_name
            && x.health == y.health
    })
}

#[test]
fn round_trip_empty_collection() {
    let c = EC2InstanceCollection::new();
    let text = c.save();
    assert_eq!(text, "--");
    let back = EC2InstanceCollection::load(&text).unwrap();
    assert!(same(&c, &back));
    assert!(back.is_empty());
}

#[test]
fn round_trip_full_record() {
    let mut c = EC2InstanceCollection::with_context(
        Some("eu-west-1".to_string()),
        Some("dev".to_string()),
    );
    let mut i = EC2Instance::new("i-1");
    i.set_state("running");
    i.set_name("web");
    i.set_autoscaling_group_name("asg-a");
    i.set_health("Healthy");
    c.add_instance(i);
    let text = c.save();
    assert_eq!(text, "+eu-west-1;+dev;#i-1;+running;+web;+asg-a;+Healthy;");
    let back = EC2InstanceCollection::load(&text).unwrap();
    assert!(same(&c, &back));
}

#[test]
fn round_trip_minimal_record() {
    let mut c = EC2InstanceCollection::new();
    c.add_instance(EC2Instance::new("i-2"));
    let text = c.save();
    assert_eq!(text, "--#i-2;----");
    let back = EC2InstanceCollection::load(&text).unwrap();
    assert!(same(&c, &back));
    assert_eq!(back.get(0).state, None);
    assert_eq!(back.get(0).health, None);
}

#[test]
fn round_trip_keeps_empty_strings_apart_from_unset() {
    let mut c = EC2InstanceCollection::new();
    let mut i = EC2Instance::new("i-3");
    i.set_name("");
    i.set_autoscaling_group_name("");
    c.add_instance(i);
    let back = EC2InstanceCollection::load(&c.save()).unwrap();
    assert_eq!(back.get(0).name, Some(String::new()));
    assert_eq!(back.get(0).autoscaling_group_name, Some(String::new()));
    assert_eq!(back.get(0).state, None);
}

#[test]
fn round_trip_special_characters() {
    let mut c = EC2InstanceCollection::with_context(Some("a;b\\c".to_string()), None);
    let mut i = EC2Instance::new("i-;\\");
    i.set_name("név ünïcødé;#+-");
    c.add_instance(i);
    c.add_instance(EC2Instance::new("i-5"));
    let text = c.save();
    assert!(text.starts_with(r"+a\;b\\c;-#i-\;\\;"));
    let back = EC2InstanceCollection::load(&text).unwrap();
    assert!(same(&c, &back));
    assert_eq!(back.len(), 2);
}

#[test]
fn malformed_snapshots_are_rejected() {
    for text in ["", "-", "x--", "--#", "--#i-1;---", "--#i-1;----x", "+abc", "+a\\x;-", "--#i\\"] {
        assert_eq!(
            EC2InstanceCollection::load(text).err(),
            Some(SnapshotError::Malformed),
            "{text:?}"
        );
    }
}
