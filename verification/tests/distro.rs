use grimoire::distro::{parse, Distro};

#[test]
fn fedora() {
    let d = parse(
        r#"
NAME="Fedora Linux"
ID=fedora
VERSION_ID=43
"#,
    );
    assert_eq!(d.id, "fedora");
    assert!(d.id_like.is_empty());
    assert!(d.matches("fedora"));
    assert!(!d.matches("ubuntu"));
}

#[test]
fn ubuntu() {
    let d = parse(
        r#"
ID=ubuntu
ID_LIKE=debian
"#,
    );
    assert_eq!(d.id, "ubuntu");
    assert_eq!(d.id_like, vec!["debian"]);
    assert!(d.matches("ubuntu"));
    assert!(d.matches("debian"));
    assert!(!d.matches("arch"));
}

#[test]
fn linux_mint_inherits_both() {
    let d = parse(
        r#"
ID=linuxmint
ID_LIKE="ubuntu debian"
"#,
    );
    assert!(d.matches("linuxmint"));
    assert!(d.matches("ubuntu"));
    assert!(d.matches("debian"));
}

#[test]
fn handles_quoted_and_unquoted_values() {
    let d = parse(
        r#"
ID="arch"
ID_LIKE='archlinux arch'
"#,
    );
    assert_eq!(d.id, "arch");
    assert!(d.matches("arch"));
    assert!(d.matches("archlinux"));
}

#[test]
fn ignores_comments_and_blanks() {
    let d = parse(
        r#"
# leading comment
ID=fedora

# inline comment
"#,
    );
    assert_eq!(d.id, "fedora");
}

#[test]
fn missing_file_is_empty_distro() {
    let d = parse("");
    assert!(d.id.is_empty());
    assert!(d.id_like.is_empty());
    assert!(!d.matches("anything"));
}

#[test]
fn values_are_lowercased() {
    let d = parse("ID=Fedora\nID_LIKE=\"RHEL  CentOS\"\r\n");
    assert_eq!(d.id, "fedora");
    assert_eq!(d.id_like, vec!["rhel", "centos"]);
}

#[test]
fn later_id_line_wins_and_other_keys_ignored() {
    let d = parse("ID=first\nVERSION=1\n  ID = second  \nnot a pair\n");
    assert_eq!(d.id, "second");
}

#[test]
fn matches_is_exact() {
    let d = Distro { id: "fedora".to_string(), id_like: vec!["rhel".to_string()] };
    assert!(d.matches("rhel"));
    assert!(!d.matches("Fedora"));
    assert!(!d.matches("fed"));
}
