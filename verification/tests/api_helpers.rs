use orchestrator::api::worker::{read_bearer, worker_authorized};
use orchestrator::api::flows::{day_name, humanize_cron, slugify_flow_id};
use orchestrator::api::runs::{is_terminal_task, non_empty, page_offset, page_window};
use orchestrator::auth::{is_https, session_cookie};
use orchestrator::config::{default_listen, local_capacity, worker_tokens, ListenAddr, DEFAULT_LOCAL_CAPACITY};
use orchestrator::db::is_terminal_run_status;
use orchestrator::plugins::{log_level, LogLevel, PluginError, TaskError};
use orchestrator::secrets::{validate_name, SecretsError};

#[test]
fn humanize_recognizes_daily_hourly_weekly() {
    assert_eq!(humanize_cron("0 9 * * *"), "daily · 09:00");
    assert_eq!(humanize_cron("30 17 * * *"), "daily · 17:30");
    assert_eq!(humanize_cron("15 * * * *"), "hourly");
    assert_eq!(humanize_cron("0 8 * * 1"), "weekly · Mon");
    assert_eq!(humanize_cron("0 8 * * 0"), "weekly · Sun");
    assert_eq!(humanize_cron("0 8 * * 7"), "weekly · Sun");
}

#[test]
fn humanize_falls_back_to_raw_cron() {
    for raw in [
        "*/5 * * * *",
        "0 9 1 * *",
        "0 9 * 6 *",
        "0 9 * * MON",
        "0 99 * * *",
        "not a cron",
    ] {
        assert_eq!(humanize_cron(raw), raw);
    }
}

#[test]
fn humanize_accepts_plus_signs_and_extra_blanks() {
    assert_eq!(humanize_cron("  +5   7 * *\t*  "), "daily · 07:05");
    assert_eq!(humanize_cron("0 8 * * 8"), "0 8 * * 8");
}

#[test]
fn slugify_produces_model_style_ids() {
    assert_eq!(
        slugify_flow_id("  My Fancy Flow!  ").as_deref(),
        Some("my_fancy_flow")
    );
    assert_eq!(
        slugify_flow_id("Council Alert Pipeline").as_deref(),
        Some("council_alert_pipeline")
    );
    assert_eq!(slugify_flow_id("123 Go").as_deref(), Some("go"));
    assert_eq!(slugify_flow_id("Flow 42").as_deref(), Some("flow_42"));
    assert_eq!(slugify_flow_id("!!!"), None);
    assert_eq!(slugify_flow_id(""), None);
    let long = slugify_flow_id(&"x".repeat(100)).expect("slug");
    assert_eq!(long.len(), 64);
}

#[test]
fn day_names_cover_the_week() {
    assert_eq!(day_name(0), Some("Sun"));
    assert_eq!(day_name(3), Some("Wed"));
    assert_eq!(day_name(7), Some("Sun"));
    assert_eq!(day_name(8), None);
}

#[test]
fn log_level_display_tags() {
    let tags: Vec<String> = [
        LogLevel::Info,
        LogLevel::Success,
        LogLevel::Warn,
        LogLevel::Error,
        LogLevel::Dbg,
    ]
    .iter()
    .map(|l| l.to_string())
    .collect();
    assert_eq!(tags, vec!["INFO", "OK", "WARN", "ERR", "DBG"]);
}

#[test]
fn plugin_log_level_names() {
    assert_eq!(log_level("ok"), LogLevel::Success);
    assert_eq!(log_level("warn"), LogLevel::Warn);
    assert_eq!(log_level("err"), LogLevel::Error);
    assert_eq!(log_level("dbg"), LogLevel::Dbg);
    assert_eq!(log_level("info"), LogLevel::Info);
    assert_eq!(log_level("shout"), LogLevel::Info);
}

#[test]
fn task_and_plugin_errors_carry_retryability() {
    let e = TaskError::fatal("bad config".to_string());
    assert_eq!(e.message, "bad config");
    assert!(!e.retryable);
    assert!(TaskError::retryable("timeout".to_string()).retryable);
    assert!(!PluginError::fatal("x".to_string()).retryable);
    assert!(PluginError::retryable("x".to_string()).retryable);
}

#[test]
fn no_port_defaults_to_loopback_4400() {
    let addr = default_listen(None).unwrap();
    assert_eq!(addr, ListenAddr { ip: [127, 0, 0, 1], port: 4400 });
}

#[test]
fn set_port_binds_all_interfaces() {
    let addr = default_listen(Some("8080")).unwrap();
    assert_eq!(addr, ListenAddr { ip: [0, 0, 0, 0], port: 8080 });
}

#[test]
fn whitespace_and_empty_port_fall_back_to_default() {
    assert_eq!(default_listen(Some("")).unwrap(), default_listen(None).unwrap());
    assert_eq!(default_listen(Some("  ")).unwrap(), default_listen(None).unwrap());
    assert_eq!(
        default_listen(Some(" 3000 ")).unwrap(),
        ListenAddr { ip: [0, 0, 0, 0], port: 3000 }
    );
}

#[test]
fn non_numeric_port_is_an_error() {
    assert!(default_listen(Some("abc")).is_err());
    assert!(default_listen(Some("70000")).is_err());
    assert_eq!(
        default_listen(Some(" abc ")).unwrap_err(),
        "invalid PORT value \"abc\" (expected 0-65535)"
    );
}

#[test]
fn invalid_names_rejected() {
    let too_long = "a".repeat(129);
    for name in ["", "1x", "a-b", "a b", "a.b", too_long.as_str()] {
        let err = validate_name(name).unwrap_err();
        assert!(
            matches!(err, SecretsError::InvalidName(_)),
            "expected InvalidName for {name:?}, got: {err:?}"
        );
    }
    let max_len = "a".repeat(128);
    for name in ["_leading", "x", "Mixed_Case_123", max_len.as_str()] {
        validate_name(name).unwrap();
    }
}

#[test]
fn terminal_statuses() {
    assert!(is_terminal_run_status("success"));
    assert!(is_terminal_run_status("degraded"));
    assert!(is_terminal_run_status("canceled"));
    assert!(!is_terminal_run_status("running"));
    assert!(is_terminal_task("skipped"));
    assert!(!is_terminal_task("degraded"));
}

#[test]
fn empty_filters_mean_none() {
    assert_eq!(non_empty(Some(String::new())), None);
    assert_eq!(non_empty(Some("x".to_string())), Some("x".to_string()));
    assert_eq!(non_empty(None), None);
}

#[test]
fn session_cookie_text() {
    assert_eq!(
        session_cookie("tok", false, 3600),
        "orch_session=tok; HttpOnly; SameSite=Lax; Path=/; Max-Age=3600"
    );
    assert_eq!(
        session_cookie("tok", true, 0),
        "orch_session=tok; HttpOnly; SameSite=Lax; Path=/; Max-Age=0; Secure"
    );
    assert!(is_https(Some("HTTPS")));
    assert!(!is_https(Some("http")));
    assert!(!is_https(None));
}

#[test]
fn worker_tokens_are_merged_sorted_and_deduplicated() {
    let cli = vec!["zeta".to_string(), "alpha".to_string()];
    let got = worker_tokens(cli, Some(" beta, ,alpha,,zeta ,gamma"));
    assert_eq!(got, vec!["alpha", "beta", "gamma", "zeta"]);
    assert_eq!(worker_tokens(Vec::new(), None), Vec::<String>::new());
    assert_eq!(worker_tokens(vec!["b".to_string(), "a".to_string(), "b".to_string()], None), vec!["a", "b"]);
    assert_eq!(worker_tokens(Vec::new(), Some(" , ")), Vec::<String>::new());
}

#[test]
fn local_capacity_reads_a_number_or_falls_back() {
    assert_eq!(DEFAULT_LOCAL_CAPACITY, 8);
    assert_eq!(local_capacity(None), 8);
    assert_eq!(local_capacity(Some(" 3 ")), 3);
    assert_eq!(local_capacity(Some("0")), 0);
    assert_eq!(local_capacity(Some("+12")), 12);
    assert_eq!(local_capacity(Some("many")), 8);
    assert_eq!(local_capacity(Some("-1")), 8);
    assert_eq!(local_capacity(Some("4294967296")), 8);
    assert_eq!(local_capacity(Some("4294967295")), u32::MAX);
}

#[test]
fn run_pages_default_and_clamp() {
    assert_eq!(page_window(None, None), (1, 25));
    assert_eq!(page_window(Some(0), Some(500)), (1, 200));
    assert_eq!(page_window(Some(3), Some(10)), (3, 10));
    assert_eq!(page_offset(1, 25), 0);
    assert_eq!(page_offset(3, 10), 20);
    assert_eq!(page_offset(0, 10), 0);
    assert_eq!(page_offset(u32::MAX, u32::MAX), (u32::MAX as u64 - 1) * u32::MAX as u64);
}

#[test]
fn worker_requests_need_an_allowed_bearer_token() {
    let allowed = vec!["alpha".to_string(), "beta".to_string()];
    assert!(worker_authorized(Some("Bearer beta"), &allowed));
    assert!(worker_authorized(Some("Bearer  alpha  "), &allowed));
    assert!(!worker_authorized(Some("Bearer gamma"), &allowed));
    assert!(!worker_authorized(Some("bearer alpha"), &allowed));
    assert!(!worker_authorized(Some("alpha"), &allowed));
    assert!(!worker_authorized(None, &allowed));
    assert!(!worker_authorized(Some("Bearer alpha"), &Vec::new()));
    assert_eq!(read_bearer("Bearer  tok "), Some("tok".to_string()));
    assert_eq!(read_bearer("Basic x"), None);
}
