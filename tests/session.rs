use instance_picker::picker::{picker_order, text_lt};
use instance_picker::session::SessionManagerParams;
use instance_picker::{EC2Instance, EC2InstanceCollection};

#[test]
fn command_with_profile_and_region() {
    let p = SessionManagerParams::for_instance(
        &EC2Instance::new("i-1"),
        Some("eu-west-1".to_string()),
        Some("dev".to_string()),
    );
    assert_eq!(
        p.session_command(),
        "aws ssm start-session --target i-1 --profile dev --region eu-west-1"
    );
}

#[test]
fn command_without_profile_or_region() {
    let p = SessionManagerParams { region: None, profile: None, target: "i-2".to_string() };
    assert_eq!(p.session_command(), "aws ssm start-session --target i-2");
}

#[test]
fn command_with_region_only() {
    let p = SessionManagerParams {
        region: Some("us-east-1".to_string()),
        profile: None,
        target: "i-3".to_string(),
    };
    assert_eq!(p.session_command(), "aws ssm start-session --target i-3 --region us-east-1");
}

#[test]
fn picker_orders_by_name_then_health_then_id() {
    let mut c = EC2InstanceCollection::new();
    let mut a = EC2Instance::new("i-3");
    a.set_name("web");
    a.set_health("Healthy");
    let mut b = EC2Instance::new("i-2");
    b.set_name("web");
    b.set_health("Healthy");
    let mut d = EC2Instance::new("i-1");
    d.set_name("web");
    d.set_health("Unhealthy");
    let mut e = EC2Instance::new("i-9");
    e.set_name("api");
    let f = EC2Instance::new("i-8");
    c.add_instance(a);
    c.add_instance(b);
    c.add_instance(d);
    c.add_instance(e);
    c.add_instance(f);
    assert_eq!(picker_order(&c), vec![4, 3, 1, 0, 2]);
}

#[test]
fn picker_order_of_empty_collection() {
    assert_eq!(picker_order(&EC2InstanceCollection::new()), Vec::<usize>::new());
}

#[test]
fn text_order_is_by_character() {
    assert!(text_lt("", "a"));
    assert!(!text_lt("a", ""));
    assert!(text_lt("ab", "abc"));
    assert!(text_lt("Z", "a"));
    assert!(!text_lt("same", "same"));
    assert!(text_lt("é", "ü"));
}

#[test]
fn picker_keeps_discovery_order_for_ties() {
    let mut c = EC2InstanceCollection::new();
    c.add_instance(EC2Instance::new("i-5"));
    c.add_instance(EC2Instance::new("i-1"));
    c.add_instance(EC2Instance::new("i-5"));
    c.add_instance(EC2Instance::new("i-1"));
    assert_eq!(picker_order(&c), vec![1, 3, 0, 2]);
}
