use tinykeeper::config::{default_host, default_port, default_storage_path, Config};

#[test]
fn defaults_match_zookeeper_conventions() {
    let config = Config::default();
    assert_eq!(config.listen_host, "127.0.0.1");
    assert_eq!(config.tcp_port, 2181);
    assert_eq!(config.storage_path, "./tinykeeper-data");
    assert_eq!(default_host(), "127.0.0.1");
    assert_eq!(default_port(), 2181);
    assert_eq!(default_storage_path(), "./tinykeeper-data");
}
