use grimoire::compose::{
    compose_source, compose_up_snippet, fetch_snippet, hex_secret, parse_env, render_env,
    resolve_parameters, sh_quote, ParamError,
};
use grimoire::envmap::EnvMap;
use grimoire::spell::{Channel, ChannelType, Parameter, ParameterKind};

fn env(pairs: &[(&str, &str)]) -> EnvMap {
    let mut m = EnvMap::new();
    for (k, v) in pairs {
        m.insert(k.to_string(), v.to_string());
    }
    m
}

fn entropy(n: usize) -> Vec<Vec<u8>> {
    (0..n).map(|i| (0..32u8).map(|b| b.wrapping_mul(7).wrapping_add(i as u8)).collect()).collect()
}

#[test]
fn parses_env_with_comments_and_blanks() {
    let m = parse_env("# comment\n\nKEY=value\n  OTHER=value with spaces\n");
    assert_eq!(m.get("KEY").unwrap(), "value");
    assert_eq!(m.get("OTHER").unwrap(), "value with spaces");
    assert_eq!(m.len(), 2);
}

#[test]
fn ignores_lines_without_equals() {
    let m = parse_env("just-a-word\nKEY=ok\n");
    assert_eq!(m.get("KEY").unwrap(), "ok");
    assert_eq!(m.len(), 1);
}

#[test]
fn shell_quote_handles_apostrophes() {
    assert_eq!(sh_quote("plain"), "'plain'");
    assert_eq!(sh_quote("it's"), "'it'\\''s'");
    assert_eq!(sh_quote(""), "''");
}

#[test]
fn generated_secret_is_64_hex_chars() {
    let bytes: Vec<u8> = (0..32u8).map(|b| b.wrapping_mul(37).wrapping_add(11)).collect();
    let s = hex_secret(&bytes);
    assert_eq!(s.len(), 64);
    assert!(s.chars().all(|c| c.is_ascii_hexdigit()));
}

#[test]
fn hex_secret_exact_digits() {
    assert_eq!(hex_secret(&[0x00, 0x0f, 0xa5, 0xff]), "000fa5ff");
}

#[test]
fn resolve_uses_default_when_no_value() {
    let declared = vec![(
        "X".to_string(),
        Parameter { default: Some("from-default".into()), ..Default::default() },
    )];
    let out = resolve_parameters("svc", &declared, &EnvMap::new(), &EnvMap::new(), &entropy(1)).unwrap();
    assert_eq!(out.get("X").unwrap(), "from-default");
}

#[test]
fn resolve_generates_secret_when_missing() {
    let declared = vec![(
        "S".to_string(),
        Parameter { kind: Some(ParameterKind::Secret), ..Default::default() },
    )];
    let e = entropy(1);
    let out = resolve_parameters("svc", &declared, &EnvMap::new(), &EnvMap::new(), &e).unwrap();
    let v = out.get("S").unwrap();
    assert_eq!(v.len(), 64);
    assert_eq!(*v, hex_secret(&e[0]));
}

#[test]
fn resolve_fails_on_missing_required() {
    let declared = vec![(
        "MUSTBESET".to_string(),
        Parameter { required: true, ..Default::default() },
    )];
    let err = resolve_parameters("svc", &declared, &EnvMap::new(), &EnvMap::new(), &entropy(1)).unwrap_err();
    let msg = err.message();
    assert!(msg.contains("MUSTBESET"), "got: {msg}");
}

#[test]
fn resolve_layering_priority() {
    let declared = vec![
        ("A".to_string(), Parameter { default: Some("dflt".into()), ..Default::default() }),
        ("B".to_string(), Parameter { kind: Some(ParameterKind::Secret), ..Default::default() }),
        ("C".to_string(), Parameter { default: Some("dflt".into()), ..Default::default() }),
        ("D".to_string(), Parameter::default()),
    ];
    let persisted = env(&[("A", "kept"), ("B", "old-secret"), ("C", ""), ("EXTRA", "x")]);
    let over = env(&[("A", "forced"), ("NEW", "n")]);
    let out = resolve_parameters("svc", &declared, &persisted, &over, &entropy(4)).unwrap();
    assert_eq!(out.get("A").unwrap(), "forced");
    assert_eq!(out.get("B").unwrap(), "old-secret");
    assert_eq!(out.get("C").unwrap(), "dflt");
    assert!(out.get("D").is_none());
    assert_eq!(out.get("EXTRA").unwrap(), "x");
    assert_eq!(out.get("NEW").unwrap(), "n");
    assert_eq!(out.len(), 5);
}

#[test]
fn missing_required_lists_all_in_order() {
    let declared = vec![
        ("A".to_string(), Parameter { required: true, ..Default::default() }),
        ("B".to_string(), Parameter { required: true, ..Default::default() }),
        ("C".to_string(), Parameter { required: true, ..Default::default() }),
    ];
    let over = env(&[("B", "set")]);
    let err = resolve_parameters("svc", &declared, &EnvMap::new(), &over, &entropy(3)).unwrap_err();
    assert_eq!(
        err,
        ParamError::MissingRequired { spell: "svc".to_string(), names: vec!["A".to_string(), "C".to_string()] }
    );
    assert_eq!(
        err.message(),
        "compose channel: missing required parameter(s) for \"svc\": A, C"
    );
}

#[test]
fn env_file_round_trip() {
    let m = env(&[("ZED", "last"), ("DB_PASSWORD", "p=w'd"), ("EMPTY", "")]);
    let text = render_env(&m);
    assert!(text.starts_with("# Generated by grimoire"));
    assert!(text.ends_with("DB_PASSWORD=p=w'd\nEMPTY=\nZED=last\n"));
    let back = parse_env(&text);
    assert_eq!(back.len(), 3);
    assert_eq!(back.get("DB_PASSWORD").unwrap(), "p=w'd");
    assert_eq!(back.get("EMPTY").unwrap(), "");
    assert_eq!(back.get("ZED").unwrap(), "last");
}

#[test]
fn parse_env_crlf_and_last_line() {
    let m = parse_env("A=1\r\nB=2");
    assert_eq!(m.get("A").unwrap(), "1");
    assert_eq!(m.get("B").unwrap(), "2");
    let m = parse_env("  # c\n =x\nK = v \n");
    assert_eq!(m.len(), 1);
    assert_eq!(m.get("K").unwrap(), " v ");
}

#[test]
fn compose_snippets() {
    assert_eq!(
        compose_up_snippet("/srv/a b", "app", "docker-compose.yml"),
        "cd '/srv/a b'\ndocker compose -p 'app' -f 'docker-compose.yml' up -d --remove-orphans"
    );
    let f = fetch_snippet("https://x/r.git", "v1", "deploy//", "/d");
    assert!(f.contains("git clone --depth 1 --branch 'v1' 'https://x/r.git' \"$tmp\" >&2\n"));
    assert!(f.contains("cp -RT \"$tmp\"/deploy '/d'\n"));
    assert!(f.ends_with("rm -rf '/d'/.git\n"));
    let root = fetch_snippet("r", "main", "/", "/d");
    assert!(root.contains("\"$tmp\"/. '/d'"));
}

#[test]
fn compose_source_defaults_file() {
    let ch = Channel {
        kind: ChannelType::Compose,
        summary: String::new(),
        run: None,
        version_hint: None,
        requires_sudo: false,
        distros: vec![],
        repo: Some("r".into()),
        git_ref: Some("v2".into()),
        path: Some("p".into()),
        compose_file: None,
        parameters: vec![],
    };
    let src = compose_source(&ch);
    assert_eq!(src.compose_file, "docker-compose.yml");
    assert_eq!(src.git_ref, "v2");
}
