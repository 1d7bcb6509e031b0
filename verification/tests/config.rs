use apk_rs::config::{Config, File, ImageConfig, PackageConfig, Sink, DEFAULT_ROOT};

fn config(root: Option<&str>, image: Option<&str>) -> Config {
    Config {
        root: root.map(str::to_string),
        image: image.map(|path| ImageConfig { path: path.to_string() }),
        package: PackageConfig { list: vec!["foo".to_string()], mirror: None },
        files: Some(vec![File { source: "host/motd".to_string(), dest: "etc/motd".to_string() }]),
    }
}

#[test]
fn image_is_built_where_one_is_configured() {
    assert!(matches!(
        config(None, Some("out.img")).sink(),
        Sink::Image { path } if path == "out.img"
    ));
    assert!(matches!(
        config(Some("/mnt"), Some("out.img")).sink(),
        Sink::Image { path } if path == "out.img"
    ));
}

#[test]
fn files_are_copied_below_the_configured_root() {
    assert!(matches!(
        config(Some("/mnt/root"), None).sink(),
        Sink::Root { path } if path == "/mnt/root"
    ));
}

#[test]
fn root_defaults_to_the_file_system_root() {
    assert!(matches!(config(None, None).sink(), Sink::Root { path } if path == "/"));
    assert_eq!(DEFAULT_ROOT, "/");
}

#[test]
fn package_config_keeps_the_declared_order() {
    let package = PackageConfig {
        list: vec!["b".to_string(), "a".to_string()],
        mirror: Some("http://mirror.test".to_string()),
    };
    assert_eq!(package.list, vec!["b".to_string(), "a".to_string()]);
    assert_eq!(package.mirror.as_deref(), Some("http://mirror.test"));
    assert_eq!(
        format!("{:?}", package),
        "PackageConfig { list: [\"b\", \"a\"], mirror: Some(\"http://mirror.test\") }"
    );
}
