use interspire_mcp::error::InterspireError;
use interspire_mcp::private_artifacts::{
    check_output_dir_under_roots, check_output_root_entry, check_resolved_output_dir,
    confirm_created_output_dir, decide_output_dir,
    output_root_entries, raw_path_has_dot_component, reject_render_output_dir_request,
    require_output_roots, requested_output_dir, safe_prefix,
};

fn safety(message: &str) -> InterspireError {
    InterspireError::Safety(message.to_string())
}

fn roots(values: &[&str]) -> Vec<String> {
    values.iter().map(|v| v.to_string()).collect()
}

#[test]
fn safe_prefix_sanitises_names() {
    assert_eq!(safe_prefix(Some("My Report!! 2024"), "render"), "My-Report-2024");
    assert_eq!(safe_prefix(Some("--a__b--"), "render"), "a__b");
    assert_eq!(safe_prefix(Some("---"), "render"), "render");
    assert_eq!(safe_prefix(None, "render artifact"), "render-artifact");
    assert_eq!(safe_prefix(Some(&"x".repeat(100)), "d"), "x".repeat(80));
}

#[test]
fn render_requests_may_not_name_a_directory() {
    assert_eq!(reject_render_output_dir_request(None), Ok(()));
    assert_eq!(reject_render_output_dir_request(Some("  ")), Ok(()));
    assert_eq!(
        reject_render_output_dir_request(Some("/tmp/x")),
        Err(safety("render artifact output_dir request values are disabled; configure INTERSPIRE_RENDER_ARTIFACT_OUTPUT_DIR under INTERSPIRE_RENDER_ARTIFACT_ROOTS"))
    );
}

#[test]
fn configured_directory_must_be_set_absolute_and_dot_free() {
    assert_eq!(
        requested_output_dir(None, "DIR_ENV", "render artifact"),
        Err(safety("DIR_ENV must be set to an approved private render artifact output directory"))
    );
    assert_eq!(
        requested_output_dir(Some("relative/dir"), "DIR_ENV", "render artifact"),
        Err(safety("render artifact output_dir must be absolute"))
    );
    assert_eq!(
        requested_output_dir(Some("/secure/../etc"), "DIR_ENV", "render artifact"),
        Err(safety("render artifact output_dir must not contain dot path components"))
    );
    assert_eq!(
        requested_output_dir(Some("/secure/private/run"), "DIR_ENV", "x"),
        Ok("/secure/private/run".to_string())
    );
    assert!(raw_path_has_dot_component("/a/./b"));
    assert!(!raw_path_has_dot_component("/a/.b/c"));
}

#[test]
fn root_entries_are_split_trimmed_and_checked() {
    assert_eq!(
        output_root_entries(Some(" /a : :/b/c ")),
        vec!["/a".to_string(), "/b/c".to_string()]
    );
    assert!(output_root_entries(Some("   ")).is_empty());
    assert!(output_root_entries(None).is_empty());
    assert_eq!(
        check_output_root_entry("rel", "ROOTS"),
        Err(safety("ROOTS entries must be absolute paths"))
    );
    assert_eq!(
        check_output_root_entry("/a/..", "ROOTS"),
        Err(safety("ROOTS entries must not contain dot path components"))
    );
    assert_eq!(check_output_root_entry("/a", "ROOTS"), Ok(()));
    assert_eq!(
        require_output_roots(&Vec::new(), "ROOTS"),
        Err(safety("ROOTS must list at least one existing private absolute artifact root"))
    );
}

#[test]
fn directory_must_be_strictly_inside_a_root() {
    let allowed = roots(&["/secure/private"]);
    assert_eq!(
        check_output_dir_under_roots("/secure//private/", &allowed, "render artifact", "ROOTS"),
        Err(safety("render artifact output_dir must be a subdirectory, not an allowed root"))
    );
    assert_eq!(
        check_output_dir_under_roots("/secure/privateer/x", &allowed, "render artifact", "ROOTS"),
        Err(safety("render artifact output_dir must be under one of the private roots listed in ROOTS"))
    );
    assert_eq!(
        check_output_dir_under_roots("/secure/private/run-1", &allowed, "render artifact", "ROOTS"),
        Ok(())
    );
}

#[test]
fn resolved_directory_must_stay_outside_the_repository() {
    let allowed = roots(&["/secure"]);
    assert_eq!(
        check_resolved_output_dir("/secure/repo/out", &allowed, "/secure/repo", "render artifact", true),
        Err(safety("render artifact artifacts must be outside the repository"))
    );
    assert_eq!(
        check_resolved_output_dir("/other/out", &allowed, "/repo", "render artifact", false),
        Err(safety("render artifact output_dir resolved outside the approved private artifact roots"))
    );
    assert_eq!(
        check_resolved_output_dir("/secure", &allowed, "/repo", "l", false),
        Ok(())
    );
    assert_eq!(
        check_resolved_output_dir("/secure", &allowed, "/repo", "l", true),
        Err(safety("l output_dir must be a subdirectory, not an allowed root"))
    );
}

fn io(message: &str) -> InterspireError {
    InterspireError::Io(message.to_string())
}

fn ok_text(value: &str) -> Result<String, InterspireError> {
    Ok(value.to_string())
}

#[test]
fn output_dir_decisions_come_in_order() {
    let roots_ok = || Ok(roots(&["/secure/private"]));
    let decide = |raw: Option<&str>,
                  repo: Result<String, InterspireError>,
                  rs: Result<Vec<String>, InterspireError>,
                  target: Option<&str>,
                  ancestor: Result<String, InterspireError>| {
        decide_output_dir(
            raw,
            "DIR_ENV",
            "ROOTS_ENV",
            "render artifact",
            repo,
            rs,
            target.map(str::to_string),
            ancestor,
        )
    };
    // accepted
    assert_eq!(
        decide(Some("/secure/private/run-1"), ok_text("/repo"), roots_ok(), None, ok_text("/secure/private")),
        Ok("/secure/private/run-1".to_string())
    );
    // the configured value is checked before any file-system error
    assert_eq!(
        decide(Some("relative/dir"), Err(io("repo")), Err(io("roots")), None, Err(io("anc"))),
        Err(safety("render artifact output_dir must be absolute"))
    );
    // then the repository root, then the roots
    assert_eq!(
        decide(Some("/secure/private/run-1"), Err(io("repo")), Err(io("roots")), None, Err(io("anc"))),
        Err(io("repo"))
    );
    assert_eq!(
        decide(Some("/secure/private/run-1"), ok_text("/repo"), Err(io("roots")), None, Err(io("anc"))),
        Err(io("roots"))
    );
    // the path against the roots comes before the ancestor's error
    assert_eq!(
        decide(Some("/elsewhere/run-1"), ok_text("/repo"), roots_ok(), None, Err(io("anc"))),
        Err(safety("render artifact output_dir must be under one of the private roots listed in ROOTS_ENV"))
    );
    // a resolving target is checked before the ancestor
    assert_eq!(
        decide(
            Some("/secure/private/link"),
            ok_text("/repo"),
            roots_ok(),
            Some("/repo/out"),
            Err(io("anc"))
        ),
        Err(safety("render artifact artifacts must be outside the repository"))
    );
    assert_eq!(
        decide(Some("/secure/private/new/dir"), ok_text("/repo"), roots_ok(), None, Err(io("anc"))),
        Err(io("anc"))
    );
    assert_eq!(
        decide(Some("/secure/private/new/dir"), ok_text("/repo"), roots_ok(), None, ok_text("/tmp")),
        Err(safety("render artifact output_dir resolved outside the approved private artifact roots"))
    );
}

#[test]
fn created_directories_may_not_be_symlinks() {
    let rs = || Ok(roots(&["/secure/private"]));
    assert_eq!(
        confirm_created_output_dir("render artifact", Ok(true), ok_text("/repo"), rs(), ok_text("/secure/private/x")),
        Err(safety("render artifact output_dir must not be a symlink"))
    );
    assert_eq!(
        confirm_created_output_dir("render artifact", Err(io("stat")), Err(io("repo")), rs(), ok_text("/secure/private/x")),
        Err(io("stat"))
    );
    assert_eq!(
        confirm_created_output_dir("render artifact", Ok(false), ok_text("/repo"), rs(), ok_text("/secure/private/x")),
        Ok(())
    );
    assert_eq!(
        confirm_created_output_dir("render artifact", Ok(false), ok_text("/repo"), rs(), ok_text("/secure/private")),
        Err(safety("render artifact output_dir must be a subdirectory, not an allowed root"))
    );
}
