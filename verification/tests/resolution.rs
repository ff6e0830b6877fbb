use timeledger::config::{
    assemble_config, parse_repo_url, plan_resolution, resolve_endpoint, ConfFile, ConfigError,
};

#[test]
fn https_url_parses() {
    let r = parse_repo_url("https://gitlab.example.com/group/project.git");
    let (host, path) = r.expect("well-formed URL");
    assert_eq!(host, "gitlab.example.com");
    assert_eq!(path, "group/project");
}

#[test]
fn ssh_style_url_parses() {
    let r = parse_repo_url("git@gitlab.example.com:group/project.git");
    let (host, path) = r.expect("well-formed URL");
    assert_eq!(host, "gitlab.example.com");
    assert_eq!(path, "group/project");
}

#[test]
fn trailing_slash_is_dropped() {
    let r = parse_repo_url("https://gitlab.example.com/group/project/");
    let (_, path) = r.expect("well-formed URL");
    assert_eq!(path, "group/project");
}

#[test]
fn nested_groups_parse() {
    let r = parse_repo_url("https://gitlab.example.com/a/b/c.git");
    let (_, path) = r.expect("well-formed URL");
    assert_eq!(path, "a/b/c");
}

#[test]
fn malformed_urls_are_rejected() {
    assert!(parse_repo_url("ftp://gitlab.example.com/group/project").is_none());
    assert!(parse_repo_url("https://nodothost/group/project").is_none());
    assert!(parse_repo_url("https://gitlab.example.com").is_none());
    assert!(parse_repo_url("just words").is_none());
}

#[test]
fn probe_urls_percent_encode_the_path() {
    let plan = plan_resolution("https://gitlab.example.com/group/project.git")
        .expect("well-formed URL");
    assert_eq!(plan.base_url, "gitlab.example.com");
    assert_eq!(plan.encoded_path, "group%2Fproject");
    assert_eq!(
        plan.project_url,
        "https://gitlab.example.com/api/v4/projects/group%2Fproject"
    );
    assert_eq!(
        plan.group_url,
        "https://gitlab.example.com/api/v4/groups/group%2Fproject"
    );
}

#[test]
fn invalid_url_yields_config_error() {
    let e = match plan_resolution("not a repository") {
        Ok(_) => panic!("malformed URL was accepted"),
        Err(e) => e,
    };
    assert_eq!(e, ConfigError::InvalidUrl);
    assert_eq!(e.message(), "Invalid URL");
}

#[test]
fn project_probe_wins() {
    let loc = resolve_endpoint(Some(42), Some(7)).expect("project answered");
    assert_eq!(loc, "projects/42");
}

#[test]
fn group_probe_is_the_fallback() {
    let loc = resolve_endpoint(None, Some(7)).expect("group answered");
    assert_eq!(loc, "groups/7");
}

#[test]
fn failed_probes_yield_config_error() {
    let e = resolve_endpoint(None, None).expect_err("nothing answered");
    assert_eq!(e, ConfigError::NoProjectOrGroup);
    assert_eq!(e.message(), "No project or group found");
}

#[test]
fn config_is_assembled_with_milestone_parameters() {
    let conf = ConfFile {
        url: "https://gitlab.example.com/group/project".to_string(),
        token: "SECRET-REDACTED".to_string(),
        milestones: vec!["M1".to_string(), "M2".to_string()],
        parameters: vec![("state".to_string(), "opened".to_string())],
        output: "report.adoc".to_string(),
    };
    let cfg = assemble_config(
        "gitlab.example.com".to_string(),
        "projects/42".to_string(),
        conf,
    );
    assert_eq!(cfg.url(), "gitlab.example.com");
    assert_eq!(cfg.endpoint(), "projects/42");
    assert_eq!(cfg.token(), "SECRET-REDACTED");
    assert_eq!(cfg.output, "report.adoc");
    let params = cfg.parameters();
    assert_eq!(
        params,
        vec![("state", "opened"), ("milestone", "M1"), ("milestone", "M2")]
    );
}
