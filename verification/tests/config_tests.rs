use runi::config::Config;
use runi::error::EntryError;

#[test]
fn test_config_file() {
    let source = "[patch.\"/usr/share/applications/signal-desktop.desktop\"]\n\
exec = \"alacritty -v\"\n";
    let table: toml::Table = toml::from_str(source).unwrap();
    let mut pairs: Vec<(String, String)> = Vec::new();
    let patch_table = table.get("patch").unwrap().as_table().unwrap();
    for (path, body) in patch_table.iter() {
        let exec_str = body.as_table().unwrap().get("exec").unwrap().as_str().unwrap();
        pairs.push((path.clone(), exec_str.to_string()));
    }
    let config = Config::from_pairs(&pairs).unwrap();

    assert_eq!(config.patches.len(), 1);
    let (path, patch) = &config.patches[0];
    assert_eq!(path, "/usr/share/applications/signal-desktop.desktop");
    assert_eq!(patch.command.cmd, "alacritty");
    assert_eq!(patch.command.args, vec!["-v".to_string()]);
}

#[test]
fn malformed_patch_command_fails_the_load() {
    let pairs = vec![
        ("/a.desktop".to_string(), "prog -x".to_string()),
        ("/b.desktop".to_string(), "   ".to_string()),
    ];
    assert_eq!(
        Config::from_pairs(&pairs).unwrap_err(),
        EntryError::MalformedExec
    );
}

#[test]
fn remove_takes_the_patch_out() {
    let pairs = vec![
        ("/a.desktop".to_string(), "one".to_string()),
        ("/b.desktop".to_string(), "two --flag".to_string()),
    ];
    let mut config = Config::from_pairs(&pairs).unwrap();

    let patch = config.remove("/b.desktop").unwrap();
    assert_eq!(patch.command.cmd, "two");
    assert_eq!(patch.command.args, vec!["--flag".to_string()]);
    assert_eq!(config.patches.len(), 1);
    assert_eq!(config.patches[0].0, "/a.desktop");

    assert!(config.remove("/b.desktop").is_none());
    assert_eq!(config.patches.len(), 1);
}

#[test]
fn default_config_is_empty() {
    let config = Config::default();
    assert!(config.patches.is_empty());
}
