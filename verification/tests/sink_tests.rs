use streamjoin::sink::SinkConfig;
use streamjoin::sink::SinkImpl;

fn props(pairs: &[(&str, &str)]) -> Vec<(String, String)> {
    pairs
        .iter()
        .map(|(k, v)| (k.to_string(), v.to_string()))
        .collect()
}

#[test]
fn connector_key_selects_the_sink() {
    let kafka = SinkConfig::from_hashmap(props(&[("connector", "kafka")])).unwrap();
    assert_eq!(kafka.get_connector(), "kafka");
    let mysql = SinkConfig::from_hashmap(props(&[("connector", "mysql")])).unwrap();
    assert_eq!(mysql.get_connector(), "mysql");
    let console = SinkConfig::from_hashmap(props(&[("topic", "t"), ("connector", "console")]))
        .unwrap();
    assert_eq!(console.get_connector(), "console");
    let remote = SinkConfig::from_hashmap(props(&[("connector", "iceberg")])).unwrap();
    assert_eq!(remote.get_connector(), "remote");
}

#[test]
fn missing_connector_key_is_a_config_error() {
    assert!(SinkConfig::from_hashmap(props(&[("topic", "t")])).is_err());
    assert!(SinkConfig::from_hashmap(Vec::new()).is_err());
}

#[test]
fn only_the_mysql_sink_needs_preparation() {
    let mysql = SinkImpl::new(SinkConfig::from_hashmap(props(&[("connector", "mysql")])).unwrap());
    assert!(mysql.needs_preparation());
    let kafka = SinkImpl::new(SinkConfig::from_hashmap(props(&[("connector", "kafka")])).unwrap());
    assert!(!kafka.needs_preparation());
    let console = SinkImpl::new(
        SinkConfig::from_hashmap(props(&[("connector", "console")])).unwrap(),
    );
    assert!(!console.needs_preparation());
}

#[test]
fn connector_name_is_matched_case_insensitively() {
    let kafka = SinkConfig::from_hashmap(props(&[("connector", "Kafka")])).unwrap();
    assert_eq!(kafka.get_connector(), "kafka");
    let mysql = SinkConfig::from_hashmap(props(&[("connector", "MYSQL")])).unwrap();
    assert_eq!(mysql.get_connector(), "mysql");
    let console = SinkConfig::from_hashmap(props(&[("connector", "Console")])).unwrap();
    assert_eq!(console.get_connector(), "console");
}
