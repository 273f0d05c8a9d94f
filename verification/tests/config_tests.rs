use rusted_httpd::config::{
    default_php, default_port, default_root, default_threads, default_ttl, PhpConnectionDetails,
    ServerConfig, ServerSettings,
};

fn settings(port: u32) -> ServerSettings {
    ServerSettings {
        port,
        threads: 4,
        ttl: 30,
        root: "./site".to_string(),
        php: Some(PhpConnectionDetails { server: "127.0.0.1".to_string(), port: 9000 }),
    }
}

#[test]
fn defaults() {
    assert_eq!(default_port(), 8453);
    assert_eq!(default_threads(), 2);
    assert_eq!(default_ttl(), 10);
    assert_eq!(default_root(), "./web");
    assert!(default_php().is_none());
}

#[test]
fn getters_and_setter() {
    let mut config = ServerConfig { server: settings(80) };
    assert_eq!(config.get_server().port, 80);
    assert_eq!(config.get_php().as_ref().unwrap().port, 9000);
    let mut other = settings(8080);
    other.php = None;
    config.set_server(other);
    assert_eq!(config.get_server().port, 8080);
    assert!(config.get_php().is_none());
}
