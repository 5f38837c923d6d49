use halo::json::Json;
use halo::jwt::{decode_hs256_map_claims, decode_with_rotation, validate_hs256};
use halo::render::{render, Context};
use halo::utils::path::{home_dir, rsctl_home_dir, rsctl_version_dir};
use halo::utils::template::{
    clone_dir_name, default_template_root, looks_like_url_or_git, remote_repo_basename, resolve_template_root,
    TemplateSource,
};
use jsonwebtoken::{encode, EncodingKey, Header};
use std::time::{SystemTime, UNIX_EPOCH};

#[test]
fn render_if_should_work() {
    let tpl = "{% if ok %}YES{% endif %}";
    let out = render(tpl, &Context::new().set_bool("ok", true)).unwrap();
    assert_eq!(out, "YES");
    let out = render(tpl, &Context::new().set_bool("ok", false)).unwrap();
    assert_eq!(out, "");
}

#[test]
fn render_for_should_work() {
    let tpl = "{% for x in xs %}{{ x }}{% endfor %}";
    let xs = Json::Arr(vec![Json::Int(1), Json::Int(2), Json::Int(3)]);
    let out = render(tpl, &Context::new().set_json("xs", xs)).unwrap();
    assert_eq!(out, "123");
}

#[test]
fn render_sets_lowercase_alias() {
    let out = render("{{ name }}-{{ Name }}", &Context::new().set_str("Name", "x")).unwrap();
    assert_eq!(out, "x-x");
}

#[test]
fn render_reports_bad_template() {
    assert!(render("{% if %}", &Context::new()).is_err());
}

#[test]
fn test_home_dir_prefers_home_env() {
    let got = home_dir(Some("C:\\Users\\tester"), Some("C:\\Users\\ignored"), None, None).unwrap();
    assert!(got.contains("tester"));
}

#[test]
fn test_home_dir_falls_back_to_userprofile_on_windows() {
    let got = home_dir(None, Some("C:\\Users\\tester2"), None, None).unwrap();
    assert!(got.contains("tester2"));
    assert_eq!(home_dir(Some(""), None, None, None), None);
    assert!(home_dir(None, None, Some("C:"), Some("Users")).is_some());
}

#[test]
fn test_rsctl_version_dir_joins_version() {
    let (home, vdir) = rsctl_version_dir(Some("C:\\Users\\tester3".to_string()), "1.2.3").unwrap();
    assert!(home.ends_with("\\.rsctl") || home.ends_with("/.rsctl"));
    assert!(vdir.contains("1.2.3"));
    assert_eq!(rsctl_version_dir(None, "1").unwrap_err(), "cannot resolve user home dir");
    assert_eq!(rsctl_home_dir(None), None);
}

#[test]
fn remote_sources_are_recognised() {
    assert!(looks_like_url_or_git("https://example.com/t"));
    assert!(looks_like_url_or_git("git@host:org/t"));
    assert!(looks_like_url_or_git("local/t.git"));
    assert!(!looks_like_url_or_git("./templates"));
    assert!(matches!(resolve_template_root(None), TemplateSource::Default));
    assert!(matches!(resolve_template_root(Some("   ")), TemplateSource::Default));
    match resolve_template_root(Some(" ./tpl ")) {
        TemplateSource::Local(p) => assert_eq!(p, "./tpl"),
        other => panic!("unexpected: {:?}", other),
    }
    match resolve_template_root(Some("ssh://h/r")) {
        TemplateSource::Remote(p) => assert_eq!(p, "ssh://h/r"),
        other => panic!("unexpected: {:?}", other),
    }
}

#[test]
fn repo_names_of_remotes() {
    assert_eq!(remote_repo_basename("https://github.com/org/tpl.git"), Some("tpl".to_string()));
    assert_eq!(remote_repo_basename("git@host:tpl"), Some("tpl".to_string()));
    assert_eq!(remote_repo_basename("https://h/x/.hidden"), Some(".hidden".to_string()));
    assert_eq!(remote_repo_basename("https://h/x/a.b.c"), Some("a.b".to_string()));
    assert_eq!(remote_repo_basename("https://h/x/"), None);
    assert_eq!(clone_dir_name("https://h/x/", 42), "templates-42");
    assert_eq!(clone_dir_name("https://h/repo.git", 7), "repo-7");
}

#[test]
fn default_lookup_order() {
    assert_eq!(default_template_root(None, Some("1.0")), None);
    let c = default_template_root(Some("/h/.rsctl".to_string()), Some("1.0")).unwrap();
    assert_eq!(c.len(), 3);
    assert!(c[0].ends_with("1.0"));
    assert!(c[1].ends_with("templates"));
    assert_eq!(c[2], "/h/.rsctl");
    let c = default_template_root(Some("/h/.rsctl".to_string()), Some("")).unwrap();
    assert_eq!(c.len(), 2);
}

fn now_secs() -> u64 {
    SystemTime::now().duration_since(UNIX_EPOCH).unwrap().as_secs()
}

fn token(secret: &[u8], exp: u64, extra: &[(&str, serde_json::Value)]) -> String {
    let mut claims = serde_json::Map::new();
    claims.insert("exp".to_string(), serde_json::Value::from(exp));
    for (k, v) in extra {
        claims.insert(k.to_string(), v.clone());
    }
    encode(&Header::default(), &claims, &EncodingKey::from_secret(secret)).unwrap()
}

#[test]
fn validate_hs256_should_accept_valid_token() {
    let secret = "s";
    let t = token(secret.as_bytes(), now_secs() + 60, &[]);
    assert!(validate_hs256(&t, secret));
}

#[test]
fn validate_hs256_should_reject_invalid_secret() {
    let t = token(b"right", now_secs() + 60, &[]);
    assert!(!validate_hs256(&t, "wrong"));
}

#[test]
fn validate_hs256_should_reject_expired_token() {
    let secret = "s";
    let t = token(secret.as_bytes(), now_secs().saturating_sub(3600), &[]);
    assert!(!validate_hs256(&t, secret));
}

#[test]
fn decode_hs256_map_claims_should_support_prev_secret() {
    let t = token(
        b"prev",
        now_secs() + 60,
        &[("uid", serde_json::Value::from(42)), ("sub", serde_json::Value::from("s"))],
    );
    let claims = decode_hs256_map_claims(&t, "current", Some("prev")).unwrap();
    assert_eq!(claims.get("uid").unwrap(), "42");
    assert_eq!(claims.get("sub").unwrap(), "\"s\"");
    assert!(decode_hs256_map_claims(&t, "current", None).is_none());
}

#[test]
fn jwt_token_without_two_dots_is_refused() {
    assert_eq!(decode_with_rotation("abc", "s", Some("p"), 0, true).unwrap_err(), "InvalidToken");
    assert_eq!(decode_with_rotation("a.b", "s", None, 60, false).unwrap_err(), "InvalidToken");
    assert!(!validate_hs256("", "s"));
    assert!(!validate_hs256("a.b", "s"));
    assert!(decode_hs256_map_claims("nodots", "s", Some("p")).is_none());
}

#[test]
fn jwt_accepted_claims_hold_exp() {
    let secret = "s";
    let exp = now_secs() + 60;
    let t = token(secret.as_bytes(), exp, &[]);
    let claims = decode_with_rotation(&t, secret, None, 0, true).unwrap();
    assert_eq!(claims.get("exp").unwrap(), &exp.to_string());
    let claims = decode_hs256_map_claims(&t, "other", Some(secret)).unwrap();
    assert!(claims.get("exp").is_some());
}

#[test]
fn jwt_audience_check_refuses_string_aud() {
    let secret = "s";
    let t = token(secret.as_bytes(), now_secs() + 60, &[("aud", serde_json::Value::from("svc"))]);
    assert!(decode_with_rotation(&t, secret, None, 0, true).is_err());
    let c = decode_with_rotation(&t, secret, None, 0, false).unwrap();
    assert_eq!(c.get("aud").unwrap(), "\"svc\"");
    assert!(!validate_hs256(&t, secret));
    assert!(decode_hs256_map_claims(&t, secret, None).is_none());
}

#[test]
fn home_dir_joins_drive_and_rooted_path() {
    let got = home_dir(None, None, Some("C:"), Some("\\Users\\x")).unwrap();
    assert!(got == "C:\\Users\\x" || got == "C:/\\Users\\x");
}
