use instance_picker::EC2Instance;

#[test]
fn test_ec2_instance_new() {
    let instance_id = "i-1234567890abcdef";
    let instance = EC2Instance::new(instance_id);

    assert_eq!(instance.id, instance_id);
    assert_eq!(instance.name, None);
    assert_eq!(instance.state, None);
    assert_eq!(instance.autoscaling_group_name, None);
    assert_eq!(instance.health, None);
}

#[test]
fn test_set_and_get_name() {
    let mut instance = EC2Instance::new("i-1234567890abcdef");
    instance.set_name("TestInstance");

    assert_eq!(instance.get_name(), "TestInstance");
    assert_eq!(instance.name, Some("TestInstance".to_string()));
}

#[test]
fn test_set_and_get_state() {
    let mut instance = EC2Instance::new("i-1234567890abcdef");
    instance.set_state("running");

    assert_eq!(instance.get_state(), "running");
    assert_eq!(instance.state, Some("running".to_string()));
}

#[test]
fn test_set_and_get_autoscaling_group_name() {
    let mut instance = EC2Instance::new("i-1234567890abcdef");
    instance.set_autoscaling_group_name("TestAutoScalingGroup");

    assert_eq!(
        instance.get_autoscaling_group_name(),
        "TestAutoScalingGroup"
    );
    assert_eq!(
        instance.autoscaling_group_name,
        Some("TestAutoScalingGroup".to_string())
    );
}

#[test]
fn test_set_and_get_health() {
    let mut instance = EC2Instance::new("i-1234567890abcdef");
    instance.set_health("Healthy");

    assert_eq!(instance.get_health(), "Healthy");
    assert_eq!(instance.health, Some("Healthy".to_string()));
}

#[test]
fn test_display() {
    let mut instance = EC2Instance::new("i-1234567890abcdef");
    instance.set_name("TestInstance");
    instance.set_health("Healthy");

    let display_output = instance.display_line();
    assert!(display_output.contains("i-1234567890abcdef"));
    assert!(display_output.contains("Healthy"));
    assert!(display_output.contains("TestInstance"));
}

#[test]
fn unset_fields_show_defaults() {
    let instance = EC2Instance::new("i-1");
    assert_eq!(instance.get_name(), "");
    assert_eq!(instance.get_state(), "(Unknown)");
    assert_eq!(instance.get_autoscaling_group_name(), "(Unknown)");
    assert_eq!(instance.get_health(), "(Unknown)");
}

#[test]
fn empty_group_name_is_a_value() {
    let mut instance = EC2Instance::new("i-1");
    instance.set_autoscaling_group_name("");
    assert_eq!(instance.get_autoscaling_group_name(), "");
    assert_eq!(instance.autoscaling_group_name, Some(String::new()));
}

#[test]
fn clone_keeps_every_field() {
    let mut instance = EC2Instance::new("i-9");
    instance.set_state("running");
    instance.set_health("Unhealthy");
    let copy = instance.clone();
    assert_eq!(copy.id, "i-9");
    assert_eq!(copy.state, Some("running".to_string()));
    assert_eq!(copy.name, None);
    assert_eq!(copy.autoscaling_group_name, None);
    assert_eq!(copy.health, Some("Unhealthy".to_string()));
}

#[test]
fn display_line_exact() {
    let mut instance = EC2Instance::new("i-7");
    instance.set_name("web");
    assert_eq!(instance.display_line(), "\"i-7\" (Unknown) web");
}

#[test]
fn display_line_escapes_id() {
    let instance = EC2Instance::new("\"");
    assert_eq!(instance.display_line(), "\"\\\"\" (Unknown) ");
    let mut other = EC2Instance::new("a\\b\nc");
    other.set_health("Healthy");
    assert_eq!(other.display_line(), "\"a\\\\b\\nc\" Healthy ");
}
