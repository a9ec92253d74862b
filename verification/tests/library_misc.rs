use chacha20poly1305::aead::Aead;
use chacha20poly1305::{ChaCha20Poly1305, Key, KeyInit, Nonce};
use orchestrator::auth::{hash_password, hex_encode, new_session_token, read_session_cookie, setup_error, verify_password};
use orchestrator::engine::workers::{
    is_online, is_terminal_status, sort_by_worker_id, Assignment, EngineError, ReplayGuard, WorkerStatus,
};
use orchestrator::json::{Json, Number};
use orchestrator::plugins::sdk::{log_event, outcome_event, Emitter};
use orchestrator::plugins::{
    exit_description, no_result_error, validate_against_manifest, FieldRule, PluginError,
};
use orchestrator::plugins::registry::PluginRegistry;
use orchestrator::secrets::{key_from_file, open_secret, seal_secret, seal_with, secret_from_row, SecretsError};

fn status(id: &str) -> WorkerStatus {
    WorkerStatus {
        worker_id: id.to_string(),
        queues: vec![],
        capacity: 1,
        in_flight: 0,
        last_seen: String::new(),
        online: true,
    }
}

#[test]
fn session_cookie_is_read_from_the_header() {
    assert_eq!(read_session_cookie(Some("a=1; orch_session=tok; b=2")), Some("tok".to_string()));
    assert_eq!(read_session_cookie(Some("orch_session=x=y")), Some("x=y".to_string()));
    assert_eq!(read_session_cookie(Some("other=1")), None);
    assert_eq!(read_session_cookie(Some("  orch_session=first ; orch_session=second")), Some("first".to_string()));
    assert_eq!(read_session_cookie(None), None);
}

#[test]
fn engine_error_messages() {
    assert_eq!(
        EngineError::InvalidInput(vec!["a".to_string(), "b".to_string()]).to_string(),
        "invalid inputs: a; b"
    );
    assert_eq!(EngineError::NotQueued(-3).to_string(), "run -3 is not queued");
    assert_eq!(EngineError::UnknownFlow("f".to_string()).to_string(), "unknown flow \"f\"");
}

#[test]
fn workers_sort_by_id() {
    let sorted = sort_by_worker_id(vec![status("w2"), status("w10"), status("w1")]);
    let ids: Vec<&str> = sorted.iter().map(|w| w.worker_id.as_str()).collect();
    assert_eq!(ids, vec!["w1", "w10", "w2"]);
    assert!(is_online(14));
    assert!(!is_online(15));
}

#[test]
fn assignments_compare_by_value() {
    let a = Assignment {
        run_id: 1,
        flow_id: "f".to_string(),
        flow_rev: 2,
        trigger: "manual".to_string(),
        queue: "q".to_string(),
        inputs: "{}".to_string(),
        definition: "{}".to_string(),
    };
    assert_eq!(a.clone(), a);
}

#[test]
fn protocol_events_have_the_wire_shape() {
    let mut e = Emitter::buffer();
    e.emit(&log_event("info", "working", None));
    e.emit(&log_event("ok", "done", Some(7)));
    e.emit(&outcome_event(Ok(Json::Number(Number::PosInt(1))), None));
    e.emit(&outcome_event(Err(PluginError::retryable("boom".to_string())), Some(7)));
    assert_eq!(
        e.lines,
        vec![
            "{\"level\":\"info\",\"message\":\"working\",\"type\":\"log\"}".to_string(),
            "{\"id\":7,\"level\":\"ok\",\"message\":\"done\",\"type\":\"log\"}".to_string(),
            "{\"type\":\"result\",\"value\":1}".to_string(),
            "{\"id\":7,\"message\":\"boom\",\"retryable\":true,\"type\":\"error\"}".to_string(),
        ]
    );
}

#[test]
fn manifest_required_fields() {
    let fields = vec![
        FieldRule { key: "url".to_string(), required: true, default: Json::Null },
        FieldRule { key: "method".to_string(), required: true, default: Json::String("GET".to_string()) },
        FieldRule { key: "note".to_string(), required: false, default: Json::Null },
    ];
    let config = Json::Object(vec![("url".to_string(), Json::String("  ".to_string()))]);
    assert_eq!(validate_against_manifest(&fields, &config), vec!["url is required".to_string()]);
    assert_eq!(validate_against_manifest(&fields, &Json::Null), vec!["config must be an object".to_string()]);
}

#[test]
fn plugin_exit_messages() {
    assert_eq!(exit_description(Some(3)), "exit status 3");
    assert_eq!(exit_description(None), "terminated by signal");
    let e = no_result_error("exit status 3", "  oops\n");
    assert_eq!(e.message, "plugin exited without a result (exit status 3): oops");
    assert!(!e.retryable);
    assert_eq!(no_result_error("terminated by signal", " ").message, "plugin exited without a result (terminated by signal)");
}

#[test]
fn secrets_error_messages() {
    assert_eq!(
        SecretsError::InvalidName("a b".to_string()).to_string(),
        "invalid secret name \"a b\": must match [A-Za-z_][A-Za-z0-9_]* and be at most 128 characters"
    );
    assert_eq!(SecretsError::Crypto("x".to_string()).to_string(), "crypto error: x");
}

fn test_key(fill: u8) -> Vec<u8> {
    (0..32u8).map(|i| i ^ fill).collect()
}

fn crypto_message(err: SecretsError) -> String {
    match err {
        SecretsError::Crypto(msg) => msg,
        other => panic!("expected Crypto error, got: {other:?}"),
    }
}

#[test]
fn set_get_round_trip() {
    let key = test_key(0);
    let blob = seal_secret(&key, "API_TOKEN", "s3cr3t-value").unwrap();
    assert_eq!(open_secret(&key, "API_TOKEN", &blob).unwrap(), "s3cr3t-value");
    assert_eq!(secret_from_row(&key, "API_TOKEN", Some(blob)).unwrap(), Some("s3cr3t-value".to_string()));
    assert_eq!(secret_from_row(&key, "OTHER", None).unwrap(), None);
}

#[test]
fn set_get_round_trip_unicode() {
    let key = test_key(7);
    let value = "pässwörd-🔑-秘密-\u{1F512} with spaces";
    let blob = seal_secret(&key, "UNICODE_SECRET", value).unwrap();
    assert_eq!(open_secret(&key, "UNICODE_SECRET", &blob).unwrap(), value);
    assert_eq!(secret_from_row(&key, "UNICODE_SECRET", Some(blob)).unwrap(), Some(value.to_string()));
}

#[test]
fn invalid_name_is_the_only_name_error() {
    let key = test_key(1);
    assert!(matches!(seal_secret(&key, "1bad", "v"), Err(SecretsError::InvalidName(n)) if n == "1bad"));
    assert!(seal_secret(&key, "GOOD_NAME", "v").is_ok());
}

#[test]
fn garbage_row_is_a_crypto_error() {
    let key = test_key(2);
    let msg = crypto_message(secret_from_row(&key, "X", Some(vec![1, 2, 3])).unwrap_err());
    assert_eq!(msg, "stored blob for secret 'X' is truncated (3 bytes, expected at least 12)");
}

#[test]
fn reopening_with_same_key_decrypts() {
    let key = test_key(3);
    let blob = seal_secret(&key, "PERSISTED", "still here").unwrap();
    let reread = key_from_file("secrets.key", key.clone()).unwrap();
    assert_eq!(open_secret(&reread, "PERSISTED", &blob).unwrap(), "still here");
}

#[test]
fn different_key_yields_crypto_error() {
    let blob = seal_secret(&test_key(0), "TOKEN", "original").unwrap();
    let msg = crypto_message(open_secret(&test_key(0x55), "TOKEN", &blob).unwrap_err());
    assert!(msg.contains("TOKEN"), "message: {msg}");
    assert_eq!(msg, "failed to decrypt secret 'TOKEN' (wrong key or corrupted data)");
}

#[test]
fn existing_key_file_with_wrong_length_is_rejected() {
    match key_from_file("/tmp/k", vec![0u8; 31]) {
        Err(SecretsError::InvalidKeyFile(m)) => {
            assert_eq!(m, "/tmp/k must contain exactly 32 bytes, found 31")
        }
        _ => panic!("expected InvalidKeyFile error"),
    }
    assert_eq!(key_from_file("/tmp/k", vec![9u8; 32]).unwrap(), vec![9u8; 32]);
}

#[test]
fn sealing_checks_the_name_first() {
    let key = test_key(1);
    let too_long = "a".repeat(129);
    for name in ["", "1x", "a-b", "a b", "a.b", too_long.as_str()] {
        let err = seal_secret(&key, name, "value").unwrap_err();
        assert!(
            matches!(err, SecretsError::InvalidName(_)),
            "expected InvalidName for {name:?}, got: {err:?}"
        );
    }
    let max_len = "a".repeat(128);
    for name in ["_leading", "x", "Mixed_Case_123", max_len.as_str()] {
        seal_secret(&key, name, "ok").unwrap();
    }
}

#[test]
fn truncated_blob_is_error_not_panic() {
    let msg = crypto_message(open_secret(&test_key(0), "TRUNCATED", &vec![1u8, 2, 3]).unwrap_err());
    assert!(msg.contains("TRUNCATED"), "message: {msg}");
    assert!(msg.contains("truncated"), "message: {msg}");
    assert_eq!(msg, "stored blob for secret 'TRUNCATED' is truncated (3 bytes, expected at least 12)");
}

#[test]
fn sealed_blob_is_nonce_then_ciphertext() {
    let key = test_key(2);
    let nonce = vec![5u8; 12];
    let blob = seal_with(&key, &nonce, "N", "abc").unwrap();
    assert_eq!(&blob[..12], &nonce[..]);
    assert_eq!(blob.len(), 12 + 3 + 16);
    assert_ne!(&blob[12..15], b"abc");
    assert_eq!(open_secret(&key, "N", &blob).unwrap(), "abc");
    let again = seal_with(&key, &nonce, "N", "abc").unwrap();
    assert_eq!(blob, again);
    let fresh = seal_secret(&key, "N", "abc").unwrap();
    assert_eq!(fresh.len(), blob.len());
    let mut tampered = blob.clone();
    tampered[13] ^= 1;
    assert_eq!(
        crypto_message(open_secret(&key, "N", &tampered).unwrap_err()),
        "failed to decrypt secret 'N' (wrong key or corrupted data)"
    );
}

#[test]
fn non_utf8_secret_is_reported() {
    let key = test_key(4);
    let nonce = [8u8; 12];
    let cipher = ChaCha20Poly1305::new(&Key::try_from(key.as_slice()).unwrap());
    let sealed = cipher
        .encrypt(&Nonce::try_from(&nonce[..]).unwrap(), &[0xffu8, 0xfe][..])
        .unwrap();
    let mut blob = nonce.to_vec();
    blob.extend_from_slice(&sealed);
    assert_eq!(
        crypto_message(open_secret(&key, "RAW", &blob).unwrap_err()),
        "secret 'RAW' is not valid UTF-8"
    );
}

#[test]
fn hash_then_verify_roundtrips() {
    let h = hash_password("hunter2").unwrap();
    assert!(h.starts_with("$argon2id$"));
    assert!(verify_password("hunter2", &h));
    assert!(!verify_password("wrong", &h));
}

#[test]
fn verify_rejects_garbage_hash_without_panicking() {
    assert!(!verify_password("x", "not-a-phc-string"));
}

#[test]
fn session_tokens_are_unique_and_long() {
    let a = new_session_token().unwrap();
    let b = new_session_token().unwrap();
    assert_ne!(a, b);
    assert_eq!(a.len(), 64); // 32 bytes hex
    assert!(a.chars().all(|c| c.is_ascii_hexdigit()));
}

#[test]
fn hex_is_two_lowercase_digits_per_byte() {
    assert_eq!(hex_encode(&[0x00, 0x0f, 0xa5, 0xff]), "000fa5ff");
    assert_eq!(hex_encode(&[]), "");
}

#[test]
fn registry_keeps_type_ids_sorted_and_once() {
    let mut r: PluginRegistry<u32> = PluginRegistry::new();
    assert!(r.register("slack.post".to_string(), 1));
    assert!(r.register("http.request".to_string(), 2));
    assert!(!r.register("http.request".to_string(), 3));
    assert_eq!(r.get("http.request"), Some(&2));
    r.insert("http.request".to_string(), 4);
    assert_eq!(r.get("http.request"), Some(&4));
    r.insert("a.first".to_string(), 5);
    assert_eq!(r.type_ids(), vec!["a.first", "http.request", "slack.post"]);
    assert_eq!(r.get("missing"), None);
    let values: Vec<u32> = r.entries().iter().map(|(_, v)| *v).collect();
    assert_eq!(values, vec![5, 4, 1]);
}

#[test]
fn setup_needs_a_username_and_a_long_password() {
    assert_eq!(setup_error("  ", "longenough"), Some("username is required".to_string()));
    assert_eq!(setup_error("admin", "short"), Some("password must be at least 8 characters".to_string()));
    assert_eq!(setup_error("admin", "pässwör"), None);
    assert_eq!(setup_error("admin", "12345678"), None);
    assert_eq!(setup_error("admin", "1234567"), Some("password must be at least 8 characters".to_string()));
}

#[test]
fn replayed_updates_apply_once() {
    let mut g = ReplayGuard::new();
    let applied: Vec<i64> = [1, 2, 2, 1, 4, 3, 5].iter().copied().filter(|s| g.accept(*s)).collect();
    assert_eq!(applied, vec![1, 2, 4, 5]);
    assert_eq!(g.last_seq, 5);
    assert!(!g.accept(0));
}

#[test]
fn terminal_statuses_end_a_run() {
    for s in ["success", "failed", "canceled"] {
        assert!(is_terminal_status(s));
    }
    for s in ["running", "queued", "skipped", ""] {
        assert!(!is_terminal_status(s));
    }
}
