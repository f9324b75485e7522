use runi::entry::{parse_entry, parse_entry_bytes, Section};
use runi::error::EntryError;

#[test]
fn test_simple_freedesktop_file() {
    let text = b"[Desktop Entry]\n\
Type=Application\n\
Name=Alacritty\n\
Comment=A fast, cross-platform, OpenGL terminal emulator\n\
Exec=alacritty\n\
Icon=Alacritty\n\
\n\
[Desktop Action New]\n\
Name=New Terminal\n\
Exec=alacritty\n";
    let application = parse_entry_bytes(text).unwrap().unwrap();

    assert_eq!(application.name, "Alacritty");
    assert_eq!(application.command.cmd, "alacritty");
    assert!(application.command.args.is_empty());
    assert_eq!(
        application.desc,
        Some("A fast, cross-platform, OpenGL terminal emulator".to_string())
    );
    assert_eq!(application.actions.len(), 1);
    assert_eq!(application.actions[0].name, "New Terminal");
    assert_eq!(application.actions[0].command.cmd, "alacritty");
    assert!(application.actions[0].command.args.is_empty());
}

#[test]
fn test_wineapp() {
    let text = b"[Desktop Entry]\n\
Name=Guitar Pro 7\n\
Exec=env WINEPREFIX=/home/marcin/.wine wine C:\\\\\\\\ProgramData\\\\\\\\Microsoft\\\\\\\\Windows\\\\\\\\Start\\\\ Menu\\\\\\\\Programs\\\\\\\\Guitar\\\\ Pro\\\\ 7\\\\\\\\Guitar\\\\ Pro\\\\ 7.lnk\n\
Type=Application\n";
    let application = parse_entry_bytes(text).unwrap().unwrap();

    assert_eq!(application.name, "Guitar Pro 7");
    assert_eq!(application.command.cmd, "env");
    assert_eq!(
        application.command.args,
        vec![
            "WINEPREFIX=/home/marcin/.wine".to_string(),
            "wine".to_string(),
            "C:\\ProgramData\\Microsoft\\Windows\\Start Menu\\Programs\\Guitar Pro 7\\Guitar Pro 7.lnk".to_string(),
        ]
    );
}

#[test]
fn hidden_entry_yields_none() {
    let text = b"[Desktop Entry]\n\
Name=Ghost\n\
Exec=ghost\n\
Hidden=true\n";
    assert!(parse_entry_bytes(text).unwrap().is_none());
}

#[test]
fn nodisplay_entry_yields_none() {
    let text = b"[Desktop Entry]\n\
Name=Ghost\n\
Exec=ghost\n\
NoDisplay=true\n";
    assert!(parse_entry_bytes(text).unwrap().is_none());
}

#[test]
fn suppression_beats_other_validation() {
    // The first section lacks a Name, but a later section hides the entry:
    // suppression is checked for the whole entry first.
    let text = b"[Desktop Entry]\n\
Exec=ghost\n\
\n\
[Desktop Action Extra]\n\
Name=Extra\n\
Exec=ghost\n\
NoDisplay=true\n";
    assert!(parse_entry_bytes(text).unwrap().is_none());
}

#[test]
fn duplicate_primary_section_fails() {
    let text = b"[Desktop Entry]\n\
Name=One\n\
Exec=one\n\
\n\
[Desktop Entry]\n\
Name=Two\n\
Exec=two\n";
    assert_eq!(
        parse_entry_bytes(text).unwrap_err(),
        EntryError::PrimaryDefinedTwice
    );
}

#[test]
fn missing_name_fails() {
    let text = b"[Desktop Entry]\nExec=prog\n";
    assert_eq!(parse_entry_bytes(text).unwrap_err(), EntryError::MissingName);
}

#[test]
fn missing_exec_fails() {
    let text = b"[Desktop Entry]\nName=Prog\n";
    assert_eq!(parse_entry_bytes(text).unwrap_err(), EntryError::MissingExec);
}

#[test]
fn missing_primary_section_fails() {
    let text = b"[Desktop Action Open]\nName=Open\nExec=prog\n";
    assert_eq!(
        parse_entry_bytes(text).unwrap_err(),
        EntryError::PrimaryNotFound
    );
}

#[test]
fn malformed_exec_fails_whole_entry() {
    let text = b"[Desktop Entry]\nName=Prog\nExec=   \n";
    assert_eq!(
        parse_entry_bytes(text).unwrap_err(),
        EntryError::MalformedExec
    );
}

#[test]
fn unparseable_bytes_fail_with_format_error() {
    let text = b"[Unclosed section without a bracket\nName=x\n";
    assert_eq!(parse_entry_bytes(text).unwrap_err(), EntryError::Format);
}

#[test]
fn working_directory_is_taken_from_primary_section() {
    let text = b"[Desktop Entry]\n\
Name=Term\n\
Exec=term\n\
Path=/opt/term\n";
    let application = parse_entry_bytes(text).unwrap().unwrap();
    assert_eq!(application.path, Some("/opt/term".to_string()));
    assert_eq!(application.desc, None);
}

#[test]
fn sections_can_be_built_directly() {
    let sections = vec![
        Section {
            name: "Desktop Entry".to_string(),
            attrs: vec![
                ("Name".to_string(), "Demo".to_string()),
                ("Exec".to_string(), "demo --flag".to_string()),
            ],
        },
        Section {
            name: "Some Other Section".to_string(),
            attrs: vec![
                ("Name".to_string(), "Ignored".to_string()),
                ("Exec".to_string(), "ignored".to_string()),
            ],
        },
    ];
    let application = parse_entry(&sections).unwrap().unwrap();
    assert_eq!(application.name, "Demo");
    assert_eq!(application.command.cmd, "demo");
    assert_eq!(application.command.args, vec!["--flag".to_string()]);
    assert!(application.actions.is_empty());
}

#[test]
fn error_messages_match_their_variants() {
    assert_eq!(
        EntryError::PrimaryDefinedTwice.message(),
        "Section 'Desktop Entry' defined twice"
    );
    assert_eq!(
        EntryError::PrimaryNotFound.message(),
        "Section 'Desktop Entry' not found"
    );
    assert_eq!(EntryError::MalformedExec.message(), "Command not found");
}
