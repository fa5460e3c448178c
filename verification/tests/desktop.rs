use grimoire::desktop::{hicolor_bucket, icon_is_path, render};
use grimoire::spell::{Cast, DesktopEntry, Provides, Spell};

fn spell(summary: &str, desktop: DesktopEntry) -> Spell {
    Spell {
        name: "lmstudio".to_string(),
        summary: summary.to_string(),
        verify: "command -v lmstudio".to_string(),
        cast: Cast { default: "shell".to_string(), channels: vec![] },
        description: None,
        homepage: None,
        maintainer: None,
        category: None,
        tags: vec![],
        distros: vec![],
        version_check: None,
        requires: vec![],
        system_requires: vec![],
        provides: Provides::default(),
        before: None,
        after: None,
        desktop: Some(desktop),
    }
}

fn lmstudio_entry() -> DesktopEntry {
    DesktopEntry {
        name: "LM Studio".to_string(),
        command: "lmstudio %U".to_string(),
        comment: None,
        icon: Some("lmstudio".to_string()),
        categories: vec!["Development".to_string(), "Science".to_string()],
        terminal: false,
        startup_wm_class: Some("LM Studio".to_string()),
        mime_types: vec![],
    }
}

#[test]
fn renders_required_keys() {
    let s = spell("Local LLM GUI.", lmstudio_entry());
    let d = s.desktop.as_ref().unwrap();
    let body = render(&s, d);
    assert!(body.starts_with("[Desktop Entry]\n"));
    assert!(body.contains("Type=Application\n"));
    assert!(body.contains("Name=LM Studio\n"));
    assert!(body.contains("Exec=lmstudio %U\n"));
    // Comment falls back to spell.summary.
    assert!(body.contains("Comment=Local LLM GUI.\n"));
    assert!(body.contains("Icon=lmstudio\n"));
    assert!(body.contains("Terminal=false\n"));
    assert!(body.contains("Categories=Development;Science;\n"));
    assert!(body.contains("StartupWMClass=LM Studio\n"));
}

#[test]
fn comment_override_wins_over_summary() {
    let entry = DesktopEntry {
        name: "X".to_string(),
        command: "x".to_string(),
        comment: Some("explicit comment".to_string()),
        icon: None,
        categories: vec![],
        terminal: false,
        startup_wm_class: None,
        mime_types: vec![],
    };
    let s = spell("spell summary", entry);
    let body = render(&s, s.desktop.as_ref().unwrap());
    assert!(body.contains("Comment=explicit comment\n"));
    assert!(!body.contains("Comment=spell summary\n"));
}

#[test]
fn render_exact_minimal_body() {
    let entry = DesktopEntry {
        name: "X".to_string(),
        command: "x".to_string(),
        comment: None,
        icon: None,
        categories: vec![],
        terminal: true,
        startup_wm_class: None,
        mime_types: vec!["text/plain".to_string()],
    };
    let s = spell("sum", entry);
    assert_eq!(
        render(&s, s.desktop.as_ref().unwrap()),
        "[Desktop Entry]\nVersion=1.0\nType=Application\nName=X\nComment=sum\nExec=x\nTerminal=true\nMimeType=text/plain;\n"
    );
}

#[test]
fn icon_buckets() {
    assert_eq!(hicolor_bucket("svg"), Some("scalable"));
    assert_eq!(hicolor_bucket("png"), Some("256x256"));
    assert_eq!(hicolor_bucket("xpm"), None);
    assert!(icon_is_path("/opt/app/icon.png"));
    assert!(!icon_is_path("lmstudio"));
}
