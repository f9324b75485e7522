use runi::config::Config;
use runi::loader::{load_apps, DesktopFile};

#[test]
fn user_tier_overrides_system_tier() {
    let system_file = DesktopFile {
        path: "/usr/share/applications/a.desktop".to_string(),
        contents: b"[Desktop Entry]\nName=A\nExec=appA --x\n".to_vec(),
    };
    let user_file = DesktopFile {
        path: "/home/u/.local/share/applications/a.desktop".to_string(),
        contents: b"[Desktop Entry]\nName=A\nExec=appA --y\n".to_vec(),
    };
    let mut config = Config::default();
    let apps = load_apps(vec![vec![system_file]], Some(vec![user_file]), &mut config);

    assert_eq!(apps.len(), 1);
    assert_eq!(apps[0].name, "A");
    assert_eq!(apps[0].command.cmd, "appA");
    assert_eq!(apps[0].command.args, vec!["--y".to_string()]);
}

#[test]
fn later_system_tiers_win_too() {
    let tier1 = vec![DesktopFile {
        path: "/one/a.desktop".to_string(),
        contents: b"[Desktop Entry]\nName=A\nExec=first\n".to_vec(),
    }];
    let tier2 = vec![DesktopFile {
        path: "/two/a.desktop".to_string(),
        contents: b"[Desktop Entry]\nName=A\nExec=second\n".to_vec(),
    }];
    let mut config = Config::default();
    let apps = load_apps(vec![tier1, tier2], None, &mut config);

    assert_eq!(apps.len(), 1);
    assert_eq!(apps[0].command.cmd, "second");
}

#[test]
fn result_is_sorted_by_name() {
    let tier = vec![
        DesktopFile {
            path: "/x/c.desktop".to_string(),
            contents: b"[Desktop Entry]\nName=Cherry\nExec=cherry\n".to_vec(),
        },
        DesktopFile {
            path: "/x/a.desktop".to_string(),
            contents: b"[Desktop Entry]\nName=apple\nExec=apple\n".to_vec(),
        },
        DesktopFile {
            path: "/x/b.desktop".to_string(),
            contents: b"[Desktop Entry]\nName=Banana\nExec=banana\n".to_vec(),
        },
    ];
    let mut config = Config::default();
    let apps = load_apps(vec![tier], None, &mut config);

    let names: Vec<&str> = apps.iter().map(|a| a.name.as_str()).collect();
    // Byte-wise ordering: capitals sort before lower case.
    assert_eq!(names, vec!["Banana", "Cherry", "apple"]);
}

#[test]
fn override_patch_is_applied_and_consumed() {
    let tier = vec![DesktopFile {
        path: "/usr/share/applications/signal.desktop".to_string(),
        contents: b"[Desktop Entry]\nName=Signal\nExec=signal-desktop\n".to_vec(),
    }];
    let pairs = vec![
        (
            "/usr/share/applications/signal.desktop".to_string(),
            "alacritty -v".to_string(),
        ),
        ("/stale/path.desktop".to_string(), "never".to_string()),
    ];
    let mut config = Config::from_pairs(&pairs).unwrap();
    let apps = load_apps(vec![tier], None, &mut config);

    assert_eq!(apps.len(), 1);
    assert_eq!(apps[0].command.cmd, "alacritty");
    assert_eq!(apps[0].command.args, vec!["-v".to_string()]);
    // The applied patch is consumed; the stale one is left for the caller to
    // report.
    assert_eq!(config.patches.len(), 1);
    assert_eq!(config.patches[0].0, "/stale/path.desktop");
}

#[test]
fn bad_and_suppressed_files_are_skipped() {
    let tier = vec![
        DesktopFile {
            path: "/x/broken.desktop".to_string(),
            contents: b"this is not a descriptor".to_vec(),
        },
        DesktopFile {
            path: "/x/noname.desktop".to_string(),
            contents: b"[Desktop Entry]\nExec=prog\n".to_vec(),
        },
        DesktopFile {
            path: "/x/hidden.desktop".to_string(),
            contents: b"[Desktop Entry]\nName=H\nExec=h\nHidden=true\n".to_vec(),
        },
        DesktopFile {
            path: "/x/good.desktop".to_string(),
            contents: b"[Desktop Entry]\nName=Good\nExec=good\n".to_vec(),
        },
    ];
    let mut config = Config::default();
    let apps = load_apps(vec![tier], None, &mut config);

    assert_eq!(apps.len(), 1);
    assert_eq!(apps[0].name, "Good");
}

#[test]
fn rebuilding_an_unchanged_file_set_gives_an_equal_collection() {
    let mk_tier = || {
        vec![
            DesktopFile {
                path: "/x/b.desktop".to_string(),
                contents: b"[Desktop Entry]\nName=Beta\nExec=beta --b\n".to_vec(),
            },
            DesktopFile {
                path: "/x/a.desktop".to_string(),
                contents: b"[Desktop Entry]\nName=Alpha\nExec=alpha\n".to_vec(),
            },
        ]
    };
    let mk_user = || {
        vec![DesktopFile {
            path: "/u/b.desktop".to_string(),
            contents: b"[Desktop Entry]\nName=Beta\nExec=beta --user\n".to_vec(),
        }]
    };
    let mut config1 = Config::default();
    let first = load_apps(vec![mk_tier()], Some(mk_user()), &mut config1);
    let mut config2 = Config::default();
    let second = load_apps(vec![mk_tier()], Some(mk_user()), &mut config2);

    assert_eq!(first.len(), second.len());
    for (a, b) in first.iter().zip(second.iter()) {
        assert_eq!(a.name, b.name);
        assert_eq!(a.command.cmd, b.command.cmd);
        assert_eq!(a.command.args, b.command.args);
        assert_eq!(a.desc, b.desc);
        assert_eq!(a.path, b.path);
    }
}

#[test]
fn missing_tiers_yield_an_empty_index() {
    let mut config = Config::default();
    let apps = load_apps(Vec::new(), None, &mut config);
    assert!(apps.is_empty());
}
