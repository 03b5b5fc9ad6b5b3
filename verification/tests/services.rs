//! Inference, providers, random numbers, tasks, and memory.

use jade_runtime::arena::{chunk_for, ArenaState, CHUNK};
use jade_runtime::coll::ArrayObj;
use jade_runtime::gc::Heap;
use jade_runtime::infer::conn::{
    framed_request, retry_delay, sock_path, terminated_name, to_c_buffer, Conn, Mode,
};
use jade_runtime::infer::frame::{
    done_tokens, le_number, le_write, read_frame, text, FrameKind, TYPE_DONE, TYPE_ERROR,
    TYPE_JSON, TYPE_META, TYPE_TOKEN,
};
use jade_runtime::infer::InferError;
use jade_runtime::obj::Obj;
use jade_runtime::pool::{class_index, class_size, pooled_class, Pool as Blocks, Resize, Source, NUM_CLASSES};
use jade_runtime::provider::{
    active_config, active_dir, active_lib_path, config_path, is_active, jrt_provider_active_config,
    jrt_provider_active_lib_path, jrt_provider_available, is_provider_lib, lib_ext,
};
use jade_runtime::providers::{
    activate, activation_failure, active_provider, credential_env_var, credential_path, deactivate,
    envelope, has_credential, installed, pool_dir, private_temp, remove_credential, source_dirs,
    store_credential, FileOp, InstalledProvider,
};
use jade_runtime::random::{
    random_choice, random_float, random_int, random_seed, random_shuffle, CallError, VmValue,
};
use jade_runtime::randomf::{draw, entropy, Rng};
use jade_runtime::task::{
    after, claim_job, finish_job, join_all, jrt_await_step, jrt_await_word, jrt_future_cancel,
    jrt_future_ready, jrt_join_settle, jrt_join_words, jrt_wait_any, report, spawn, AwaitStep,
    FutureObj, Pool, TaskError, Timers, DEFAULT_MAX_TASKS, DOUBLE_AWAITED, HARD_MAX_WORKERS,
    NOTHING_TO_WAIT_FOR, NOT_A_FUTURE,
};
use jade_runtime::value::JadeValue;
use std::cell::RefCell;

// ── Frames ────────────────────────────────────────────────────────────────────

fn encode(tag: u8, payload: &[u8]) -> Vec<u8> {
    let mut v = vec![tag];
    v.extend_from_slice(&(payload.len() as u16).to_le_bytes());
    v.extend_from_slice(payload);
    v
}

#[test]
fn reads_a_token_frame() {
    let wire = encode(TYPE_TOKEN, b"hello");
    let mut buf = Vec::new();
    let kind = read_frame(&mut &wire[..], &mut buf).unwrap();
    assert_eq!(kind, FrameKind::Token);
    assert_eq!(text(&buf).unwrap(), "hello");
}

#[test]
fn reads_a_stream_of_frames_in_order() {
    let mut wire = Vec::new();
    wire.extend(encode(TYPE_META, b"qwen3"));
    wire.extend(encode(TYPE_TOKEN, b"foo"));
    wire.extend(encode(TYPE_TOKEN, b" bar"));
    wire.extend(encode(TYPE_DONE, &10u64.to_le_bytes()));

    let mut r = &wire[..];
    let mut buf = Vec::new();
    let mut got = String::new();

    assert_eq!(read_frame(&mut r, &mut buf).unwrap(), FrameKind::Meta);
    assert_eq!(text(&buf).unwrap(), "qwen3");
    assert_eq!(read_frame(&mut r, &mut buf).unwrap(), FrameKind::Token);
    got.push_str(&text(&buf).unwrap());
    assert_eq!(read_frame(&mut r, &mut buf).unwrap(), FrameKind::Token);
    got.push_str(&text(&buf).unwrap());
    assert_eq!(read_frame(&mut r, &mut buf).unwrap(), FrameKind::Done);
    assert_eq!(done_tokens(&buf).unwrap(), 10);

    assert_eq!(got, "foo bar");
}

#[test]
fn an_empty_payload_is_a_valid_frame() {
    let wire = encode(TYPE_TOKEN, b"");
    let mut buf = vec![0xAA; 16];
    assert_eq!(read_frame(&mut &wire[..], &mut buf).unwrap(), FrameKind::Token);
    assert!(buf.is_empty());
}

#[test]
fn a_truncated_payload_is_a_transport_error() {
    let mut wire = encode(TYPE_TOKEN, b"hello");
    wire.truncate(5);
    let mut buf = Vec::new();
    assert!(matches!(read_frame(&mut &wire[..], &mut buf), Err(InferError::Transport(_))));
}

#[test]
fn an_unknown_tag_is_refused_rather_than_skipped() {
    let wire = encode(0x7f, b"whatever");
    let mut buf = Vec::new();
    assert!(matches!(
        read_frame(&mut &wire[..], &mut buf),
        Err(InferError::UnknownFrameType(0x7f))
    ));
}

#[test]
fn a_short_done_payload_is_malformed_not_zero() {
    assert!(matches!(done_tokens(&[1, 2, 3]), Err(InferError::Malformed(_))));
    assert_eq!(done_tokens(&7u64.to_le_bytes()).unwrap(), 7);
}

#[test]
fn invalid_utf8_in_a_text_frame_is_rejected() {
    assert!(matches!(text(b"ok\xffbad"), Err(InferError::InvalidUtf8)));
}

#[test]
fn little_endian_numbers_round_trip() {
    assert_eq!(le_write(0x0102_0304, 4), [4, 3, 2, 1]);
    assert_eq!(le_number(&[4, 3, 2, 1]), 0x0102_0304);
}

// ── Exchanges ─────────────────────────────────────────────────────────────────

#[test]
fn accumulates_tokens_and_records_the_model() {
    let mut wire = Vec::new();
    wire.extend(encode(TYPE_META, b"qwen3-coder"));
    wire.extend(encode(TYPE_TOKEN, b"4"));
    wire.extend(encode(TYPE_TOKEN, b"2"));
    wire.extend(encode(TYPE_DONE, &99u64.to_le_bytes()));
    let mut conn = Conn::new("s.sock".to_string());
    let resp = conn.request(&wire, Mode::Tokens).0.unwrap();
    assert_eq!(resp.body, b"42");
    assert_eq!(resp.tokens_used, 99);
    assert_eq!(conn.reported_model(), "qwen3-coder");
    let framed = framed_request(br#"{"prompt":"x"}"#).unwrap();
    assert_eq!(&framed[..4], &14u32.to_le_bytes());
    assert_eq!(&framed[4..], br#"{"prompt":"x"}"#, "length prefix framed the body exactly");
}

#[test]
fn an_empty_token_is_shown_too() {
    let mut wire = Vec::new();
    wire.extend(encode(TYPE_TOKEN, b"a"));
    wire.extend(encode(TYPE_TOKEN, b""));
    wire.extend(encode(TYPE_DONE, &2u64.to_le_bytes()));
    let mut conn = Conn::new("/s".to_string());
    let (resp, seen) = conn.request(&wire, Mode::Tokens);
    assert_eq!(resp.unwrap().body, b"a");
    assert_eq!(seen, [b"a".to_vec(), Vec::new()]);
}

#[test]
fn on_token_fires_per_token_in_order() {
    let mut wire = Vec::new();
    wire.extend(encode(TYPE_TOKEN, b"a"));
    wire.extend(encode(TYPE_TOKEN, b"b"));
    wire.extend(encode(TYPE_DONE, &0u64.to_le_bytes()));
    let mut conn = Conn::new("s.sock".to_string());
    let (resp, seen) = conn.request(&wire, Mode::Tokens);
    assert_eq!(seen, [b"a".to_vec(), b"b".to_vec()]);
    assert_eq!(resp.unwrap().body, b"ab");
}

#[test]
fn json_mode_ignores_tokens_and_token_mode_ignores_json() {
    let mut wire = Vec::new();
    wire.extend(encode(TYPE_TOKEN, b"noise"));
    wire.extend(encode(TYPE_JSON, br#"{"status":"ok"}"#));
    wire.extend(encode(TYPE_TOKEN, b"more noise"));
    wire.extend(encode(TYPE_DONE, &0u64.to_le_bytes()));
    let mut conn = Conn::new("s.sock".to_string());
    assert_eq!(conn.request(&wire, Mode::Json).0.unwrap().body, br#"{"status":"ok"}"#);
    assert_eq!(conn.request(&wire, Mode::Tokens).0.unwrap().body, b"noisemore noise");
}

#[test]
fn an_error_frame_becomes_a_daemon_error() {
    let wire = encode(TYPE_ERROR, b"model not loaded");
    let mut conn = Conn::new("s.sock".to_string());
    let err = conn.request(&wire, Mode::Tokens).0.unwrap_err();
    assert!(matches!(err, InferError::Daemon(ref m) if m == "model not loaded"));
}

#[test]
fn a_failed_exchange_drops_the_connection() {
    let wire = encode(TYPE_ERROR, b"boom");
    let mut conn = Conn::new("s.sock".to_string());
    assert!(conn.request(&wire, Mode::Tokens).0.is_err());
    assert!(!conn.open, "connection dropped so the next request reconnects");
}

#[test]
fn connect_failure_names_the_path() {
    let conn = Conn::new("/nonexistent/jade-test.sock".to_string());
    let err = InferError::Connect {
        path: conn.path().to_string(),
        source: "No such file".to_string(),
    };
    assert!(err.text().contains("/nonexistent/jade-test.sock"), "{}", err.text());
    assert!(retry_delay(0).is_some());
    assert!((0..1000).any(|n| retry_delay(n).is_none()), "retrying ends");
}

#[test]
fn sock_path_prefers_the_env_override() {
    assert_eq!(sock_path(Some("/custom/llm.sock"), Some("/home/j")), "/custom/llm.sock");
    assert_eq!(sock_path(Some(""), Some("/home/j")), "/home/j/.jade/llm.sock");
    assert_eq!(sock_path(None, None), "/root/.jade/llm.sock");
}

#[test]
fn ffi_c_buffers_are_nul_terminated() {
    assert_eq!(to_c_buffer(b"hi"), b"hi\0");
}

#[test]
fn ffi_an_empty_body_still_yields_a_valid_c_string() {
    assert_eq!(to_c_buffer(b""), b"\0");
}

#[test]
fn ffi_embedded_nuls_do_not_truncate_the_buffer() {
    let p = to_c_buffer(b"a\0b");
    assert_eq!(&p[..3], b"a\0b");
    assert_eq!(p[3], 0, "terminator written past the body");
}

#[test]
fn reported_model_is_empty_before_any_request() {
    let conn = Conn::new("s.sock".to_string());
    assert_eq!(conn.reported_model(), "");
    assert_eq!(terminated_name("m\0x"), "");
    assert_eq!(terminated_name("m"), "m");
}

#[test]
fn every_inference_failure_has_a_text() {
    let all = [
        InferError::Transport("eof".to_string()),
        InferError::Daemon("busy".to_string()),
        InferError::UnknownFrameType(9),
        InferError::Malformed("short".to_string()),
        InferError::InvalidUtf8,
        InferError::ResponseTooLarge,
        InferError::FrameLimit,
        InferError::RequestTooLarge(5),
    ];
    let texts: Vec<String> = all.iter().map(|e| e.text()).collect();
    for (i, t) in texts.iter().enumerate() {
        assert!(!t.is_empty());
        assert!(!texts[..i].contains(t), "{t}");
    }
}

// ── Providers ─────────────────────────────────────────────────────────────────

const EXT: &str = "so";
const SLOT: &str = "/home/j/.jade/active";

fn entries(names: &[&str]) -> Vec<String> {
    names.iter().map(|n| n.to_string()).collect()
}

#[test]
fn active_slot_resolves_the_single_so_and_config() {
    let dir = active_dir(Some("/slot"), None);
    assert_eq!(dir, "/slot");
    assert!(!is_active(&dir, &[]));
    assert!(active_lib_path(&dir, &[]).is_none());
    assert!(active_config(None).is_empty());

    let names = entries(&["config.json", "anthropic.so"]);
    assert!(is_active(&dir, &names));
    assert_eq!(active_lib_path(&dir, &names).as_deref(), Some("/slot/anthropic.so"));
    assert_eq!(config_path(&dir), "/slot/config.json");
    assert_eq!((jrt_provider_available(&dir, &[]), jrt_provider_available(&dir, &names)), (0, 1));
    assert_eq!(
        jrt_provider_active_lib_path(&dir, &names).as_deref(),
        Some(&b"/slot/anthropic.so\0"[..])
    );
    assert!(jrt_provider_active_config(Some(Vec::new())).is_none());
    assert_eq!(jrt_provider_active_config(Some(vec![7])), Some(vec![7, 0]));
    assert_eq!(
        active_config(Some(br#"{"api_key":"sk-x"}"#.to_vec())),
        br#"{"api_key":"sk-x"}"#.to_vec()
    );
}

#[test]
fn a_dot_so_is_discovered_even_where_lib_ext_is_dylib() {
    assert_eq!(lib_ext(true), "dylib");
    assert!(is_provider_lib("/s/anthropic.so") && is_provider_lib("/s/anthropic.dylib"));
    let names = entries(&["anthropic.so"]);
    assert_eq!(active_lib_path("/s", &names).as_deref(), Some("/s/anthropic.so"));
}

#[test]
fn envelope_escapes_metacharacters() {
    let out = String::from_utf8(envelope("a\"b\\c\nd")).unwrap();
    assert!(!out.contains('\n'));
    let v: serde_json::Value = serde_json::from_str(&out).unwrap();
    assert_eq!(v["api_key"], "a\"b\\c\nd");
}

#[test]
fn credential_env_var_is_uppercase_suffixed() {
    assert_eq!(credential_env_var("anthropic"), "ANTHROPIC_API_KEY");
    assert_eq!(credential_env_var("openai"), "OPENAI_API_KEY");
}

fn source(names: &[&str]) -> Vec<InstalledProvider> {
    let files: Vec<String> = names.iter().map(|n| format!("{n}.{EXT}")).collect();
    installed(&[("/src".to_string(), files)], EXT)
}

/// A disk that plans are carried out on.
fn perform(disk: &mut Vec<(String, Vec<u8>)>, ops: &[FileOp]) {
    for op in ops {
        match op {
            FileOp::MakeDir(_) => {}
            FileOp::Copy(from, to) => {
                let data = disk
                    .iter()
                    .find(|e| e.0 == *from)
                    .map(|e| e.1.clone())
                    .unwrap_or_else(|| b"lib".to_vec());
                disk.retain(|e| e.0 != *to);
                disk.push((to.clone(), data));
            }
            FileOp::Remove(p) | FileOp::RemoveIfThere(p) => disk.retain(|e| e.0 != *p),
            FileOp::WritePrivate(p, data) => {
                disk.retain(|e| e.0 != *p);
                disk.push((p.clone(), data.clone()));
            }
        }
    }
}

fn listing(disk: &[(String, Vec<u8>)], dir: &str) -> Vec<String> {
    disk.iter()
        .filter_map(|e| e.0.strip_prefix(&format!("{dir}/")).map(|n| n.to_string()))
        .filter(|n| !n.contains('/'))
        .collect()
}

fn at(disk: &[(String, Vec<u8>)], path: &str) -> Option<Vec<u8>> {
    disk.iter().find(|e| e.0 == path).map(|e| e.1.clone())
}

fn activate_on(disk: &mut Vec<(String, Vec<u8>)>, name: &str, found: &[InstalledProvider]) -> bool {
    let key = at(disk, &credential_path(Some("/home/j"), name));
    let names = listing(disk, SLOT);
    match activate(name, found, &pool_dir(Some("/home/j")), SLOT, &names, EXT, key) {
        Ok(ops) => {
            perform(disk, &ops);
            true
        }
        Err(_) => false,
    }
}

#[test]
fn installed_finds_libs_and_ignores_others() {
    let found = installed(
        &[("/src".to_string(), entries(&["anthropic.so", "openai.so", "README.md"]))],
        EXT,
    );
    let names: Vec<String> = found.into_iter().map(|p| p.name).collect();
    assert!(names.contains(&"anthropic".to_string()));
    assert!(names.contains(&"openai".to_string()));
    assert!(!names.iter().any(|n| n == "README"));
    let dirs = source_dirs(Some("/over"), Some("/home/j"), None);
    assert_eq!(dirs[0], "/over");
}

#[test]
fn activate_installs_into_pool_and_slot_with_credential() {
    let mut disk: Vec<(String, Vec<u8>)> = Vec::new();
    assert!(active_provider(SLOT, &listing(&disk, SLOT)).is_none());
    let ops = store_credential("anthropic", "sk-1", Some("/home/j"), SLOT, None);
    perform(&mut disk, &ops);
    assert!(activate_on(&mut disk, "anthropic", &source(&["anthropic"])));

    assert_eq!(active_provider(SLOT, &listing(&disk, SLOT)).as_deref(), Some("anthropic"));
    assert!(at(&disk, &format!("{}/anthropic.so", pool_dir(Some("/home/j")))).is_some());
    assert!(at(&disk, &format!("{SLOT}/anthropic.so")).is_some());
    assert_eq!(at(&disk, &format!("{SLOT}/config.json")), Some(envelope("sk-1")));
}

#[test]
fn switching_leaves_exactly_one_active() {
    let mut disk: Vec<(String, Vec<u8>)> = Vec::new();
    let found = source(&["anthropic", "openai"]);
    assert!(activate_on(&mut disk, "anthropic", &found));
    assert!(activate_on(&mut disk, "openai", &found));
    assert_eq!(active_provider(SLOT, &listing(&disk, SLOT)).as_deref(), Some("openai"));
    let libs: Vec<String> =
        listing(&disk, SLOT).into_iter().filter(|n| n.ends_with(".so")).collect();
    assert_eq!(libs, vec!["openai.so".to_string()]);
}

#[test]
fn env_only_key_is_not_written_to_the_slot() {
    let mut disk: Vec<(String, Vec<u8>)> = Vec::new();
    assert!(activate_on(&mut disk, "anthropic", &source(&["anthropic"])));
    assert_eq!(active_provider(SLOT, &listing(&disk, SLOT)).as_deref(), Some("anthropic"));
    assert!(at(&disk, &format!("{SLOT}/config.json")).is_none());
}

#[test]
fn activate_unknown_provider_errors() {
    let mut disk: Vec<(String, Vec<u8>)> = Vec::new();
    assert!(!activate_on(&mut disk, "openai", &source(&["anthropic"])));
    assert!(disk.is_empty());
    assert!(activation_failure("openai", "disk full").contains("disk full"));
}

#[test]
fn storing_key_for_active_provider_refreshes_the_slot() {
    let mut disk: Vec<(String, Vec<u8>)> = Vec::new();
    let ops = store_credential("anthropic", "sk-old", Some("/home/j"), SLOT, None);
    perform(&mut disk, &ops);
    assert!(activate_on(&mut disk, "anthropic", &source(&["anthropic"])));
    assert_eq!(at(&disk, &format!("{SLOT}/config.json")), Some(envelope("sk-old")));
    let ops = store_credential("anthropic", "sk-new", Some("/home/j"), SLOT, Some("anthropic"));
    perform(&mut disk, &ops);
    assert_eq!(at(&disk, &format!("{SLOT}/config.json")), Some(envelope("sk-new")));
    let ops = deactivate(SLOT, &listing(&disk, SLOT));
    perform(&mut disk, &ops);
    assert!(active_provider(SLOT, &listing(&disk, SLOT)).is_none());
}

#[test]
fn clearing_removes_libraries_of_every_platform() {
    let names = entries(&["old.so", "older.dylib", "config.json", "notes.txt"]);
    let ops = deactivate("/s", &names);
    assert_eq!(
        ops,
        [
            FileOp::Remove("/s/old.so".to_string()),
            FileOp::Remove("/s/older.dylib".to_string()),
            FileOp::Remove("/s/config.json".to_string()),
        ]
    );
    assert!(!is_active("/s", &entries(&["notes.txt"])));
    assert!(deactivate("/s", &[]).is_empty());
    let found = [InstalledProvider { name: "new".to_string(), path: "/p/new.dylib".to_string() }];
    let ops = activate("new", &found, "/p", "/s", &names, "dylib", None).expect("installed");
    assert!(ops.contains(&FileOp::Remove("/s/old.so".to_string())));
}

#[test]
fn stored_credential_is_owner_only_even_over_loose_file() {
    let path = credential_path(Some("/home/j"), "anthropic");
    let ops = store_credential("anthropic", "sk-secret", Some("/home/j"), SLOT, None);
    assert!(ops.contains(&FileOp::WritePrivate(path.clone(), envelope("sk-secret"))));
    let a = private_temp(&path, 7, 1);
    let b = private_temp(&path, 7, 2);
    assert_ne!(a, b);
    assert_ne!(a, path);
}

#[test]
fn has_credential_and_remove() {
    assert!(!has_credential(None, false));
    assert!(has_credential(None, true));
    assert!(has_credential(Some("sk-env"), false));
    assert!(remove_credential(Ok(())).is_ok());
    assert!(remove_credential(Err((true, "gone".to_string()))).is_ok());
    assert!(remove_credential(Err((false, "denied".to_string()))).is_err());
}

// ── Random numbers ────────────────────────────────────────────────────────────

fn seeded(n: i64) -> Rng {
    let mut r = Rng::new();
    random_seed(&mut r, &[VmValue::Int(n)]).unwrap();
    r
}

fn range(lo: i64, hi: i64) -> [VmValue; 2] {
    [VmValue::Int(lo), VmValue::Int(hi)]
}

fn array(v: Vec<i64>) -> VmValue {
    VmValue::Array(v.into_iter().map(VmValue::Int).collect())
}

fn unit(n: u64) -> f64 {
    n as f64 / (1u64 << 53) as f64
}

#[test]
fn int_is_reproducible_for_fixed_seed() {
    let mut r = seeded(42);
    let a = random_int(&mut r, &range(0, 1_000_000), 0).unwrap();
    let b = random_int(&mut r, &range(0, 1_000_000), 0).unwrap();
    let mut r = seeded(42);
    assert_eq!(a, random_int(&mut r, &range(0, 1_000_000), 1).unwrap());
    assert_eq!(b, random_int(&mut r, &range(0, 1_000_000), 1).unwrap());
}

#[test]
fn int_within_inclusive_bounds() {
    let mut r = seeded(7);
    for _ in 0..1000 {
        let n = random_int(&mut r, &range(3, 9), 0).unwrap();
        assert!((3..=9).contains(&n), "out of bounds: {}", n);
    }
}

#[test]
fn int_single_value_range() {
    assert_eq!(random_int(&mut seeded(1), &range(5, 5), 0).unwrap(), 5);
}

#[test]
fn int_min_greater_than_max_errors() {
    let err = random_int(&mut seeded(1), &range(9, 1), 0).unwrap_err();
    assert!(matches!(err, CallError::IoError(_)));
}

#[test]
fn int_arity_error() {
    let err = random_int(&mut seeded(1), &[VmValue::Int(0)], 0).unwrap_err();
    assert!(matches!(err, CallError::ArityMismatch { expected: 2, got: 1 }));
}

#[test]
fn int_type_error() {
    let args = [VmValue::Float(0.0f64.to_bits()), VmValue::Int(3)];
    let err = random_int(&mut seeded(1), &args, 0).unwrap_err();
    assert!(matches!(err, CallError::TypeError(_)));
}

#[test]
fn float_is_reproducible_for_fixed_seed() {
    let a = random_float(&mut seeded(99), &[], 0).unwrap();
    let b = random_float(&mut seeded(99), &[], 5).unwrap();
    assert_eq!(unit(a), unit(b));
}

#[test]
fn float_in_unit_range() {
    let mut r = seeded(3);
    for _ in 0..1000 {
        let f = unit(random_float(&mut r, &[], 0).unwrap());
        assert!((0.0..1.0).contains(&f), "out of [0,1): {}", f);
    }
}

#[test]
fn float_arity_error() {
    let err = random_float(&mut seeded(1), &[VmValue::Int(1)], 0).unwrap_err();
    assert!(matches!(err, CallError::ArityMismatch { expected: 0, got: 1 }));
}

#[test]
fn choice_is_reproducible_for_fixed_seed() {
    let arr = [array(vec![10, 20, 30, 40])];
    let mut r = seeded(123);
    let a = format!("{:?}", random_choice(&mut r, &arr, 0).unwrap());
    let mut r = seeded(123);
    let b = format!("{:?}", random_choice(&mut r, &arr, 0).unwrap());
    assert_eq!(a, b);
}

#[test]
fn choice_returns_member() {
    let mut r = seeded(5);
    let arr = [array(vec![1, 2, 3])];
    for _ in 0..100 {
        match random_choice(&mut r, &arr, 0).unwrap() {
            VmValue::Int(n) => assert!((1..=3).contains(n)),
            other => panic!("expected Int member, got {:?}", other),
        }
    }
}

#[test]
fn choice_empty_array_errors() {
    let arr = [array(vec![])];
    let err = random_choice(&mut seeded(1), &arr, 0).unwrap_err();
    assert!(matches!(err, CallError::IoError(_)));
}

#[test]
fn choice_type_error() {
    let args = [VmValue::Int(1)];
    let err = random_choice(&mut seeded(1), &args, 0).unwrap_err();
    assert!(matches!(err, CallError::TypeError(_)));
}

#[test]
fn choice_arity_error() {
    let err = random_choice(&mut seeded(1), &[], 0).unwrap_err();
    assert!(matches!(err, CallError::ArityMismatch { expected: 1, got: 0 }));
}

fn snapshot(v: &VmValue) -> Vec<i64> {
    match v {
        VmValue::Array(a) => a
            .iter()
            .map(|e| match e {
                VmValue::Int(n) => *n,
                _ => panic!("expected int elements"),
            })
            .collect(),
        _ => panic!("expected array"),
    }
}

#[test]
fn shuffle_preserves_length_and_multiset() {
    let mut args = vec![array((0..20).collect())];
    random_shuffle(&mut seeded(17), &mut args, 0).unwrap();
    let mut after = snapshot(&args[0]);
    assert_eq!(after.len(), 20);
    assert_ne!(after, (0..20).collect::<Vec<_>>(), "twenty elements do not stay put");
    after.sort();
    assert_eq!(after, (0..20).collect::<Vec<_>>());
}

#[test]
fn shuffle_is_reproducible_for_fixed_seed() {
    let mut a = vec![array((0..10).collect())];
    random_shuffle(&mut seeded(2024), &mut a, 0).unwrap();
    let mut b = vec![array((0..10).collect())];
    random_shuffle(&mut seeded(2024), &mut b, 9).unwrap();
    assert_eq!(snapshot(&a[0]), snapshot(&b[0]));
}

#[test]
fn shuffle_type_error() {
    let err = random_shuffle(&mut seeded(1), &mut vec![VmValue::Int(1)], 0).unwrap_err();
    assert!(matches!(err, CallError::TypeError(_)));
}

#[test]
fn shuffle_arity_error() {
    let err = random_shuffle(&mut seeded(1), &mut vec![], 0).unwrap_err();
    assert!(matches!(err, CallError::ArityMismatch { expected: 1, got: 0 }));
}

#[test]
fn seed_type_error() {
    let err = random_seed(&mut Rng::new(), &[VmValue::Str("x".to_string())]).unwrap_err();
    assert!(matches!(err, CallError::TypeError(_)));
}

#[test]
fn seed_arity_error() {
    let err = random_seed(&mut Rng::new(), &[]).unwrap_err();
    assert!(matches!(err, CallError::ArityMismatch { expected: 1, got: 0 }));
}

#[test]
fn an_unseeded_generator_takes_the_entropy_it_is_given() {
    let a = draw(&mut Rng::new(), 0, i64::MAX, 1);
    let b = draw(&mut Rng::new(), 0, i64::MAX, 2);
    assert!(a.is_some() && b.is_some() && a != b);
    assert_eq!(draw(&mut Rng::new(), i64::MIN, i64::MAX, 3), draw(&mut Rng::new(), i64::MIN, i64::MAX, 3));
    assert_ne!(entropy(1, 1), entropy(2, 1));
}

// ── Blocks ────────────────────────────────────────────────────────────────────

#[test]
fn class_boundaries() {
    assert_eq!(class_index(1), Some(0));
    assert_eq!(class_index(8), Some(0));
    assert_eq!(class_index(9), Some(1));
    assert_eq!(class_index(4096), Some(NUM_CLASSES - 1));
    assert_eq!(class_index(4097), None);
    assert_eq!(class_size(NUM_CLASSES - 1), 4096);
}

#[test]
fn roundtrip_and_reuse() {
    let mut p = Blocks::new();
    assert_eq!(p.allocate(24, 8), Source::System(32, 32));
    let p1 = 0x1000;
    assert!(p.dealloc(p1, 24, 8));
    assert_eq!(p.allocate(24, 8), Source::Reused(p1), "freed block should recycle");
}

#[test]
fn realloc_same_class_is_inplace() {
    let mut p = Blocks::new();
    assert_eq!(p.realloc(0x1000, 20, 8, 30), Resize::InPlace);
    assert!(matches!(p.realloc(0x1000, 20, 8, 40), Resize::Move(_, 20)));
}

#[test]
fn large_and_overaligned_use_system() {
    assert!(pooled_class(1 << 20, 8).is_none());
    assert!(pooled_class(8, 64).is_none());
    let mut p = Blocks::new();
    assert_eq!(p.allocate(8, 64), Source::System(8, 64));
    assert!(!p.dealloc(0x40, 8, 64));
}

#[test]
fn vec_lives_in_arena_and_resets() {
    let mut a = ArenaState::new();
    assert_eq!(a.bump(8, 8), None, "there is no chunk yet");
    a.push_chunk(0x1000, chunk_for(8, 8));
    let start = a.mark();
    let p = a.bump(1000, 8).unwrap();
    let q = a.bump(1, 1).unwrap();
    let r = a.bump(8, 8).unwrap();
    assert_eq!((p % 8, r % 8), (0, 0));
    assert!(q >= p + 1000 && r >= q + 1);
    a.reset(start);
    assert_eq!(a.mark(), start, "reset must roll the cursor back");
    assert_eq!(a.bump(1000, 8), Some(p), "and the space is reused");
}

#[test]
fn survives_multi_chunk_growth() {
    let mut a = ArenaState::new();
    let mut base = 0x10_0000;
    let mut seen: Vec<usize> = Vec::new();
    for _ in 0..8 {
        let p = match a.bump(CHUNK, 1) {
            Some(p) => p,
            None => {
                let cap = chunk_for(CHUNK, 1);
                a.push_chunk(base, cap);
                base += cap;
                a.bump(CHUNK, 1).expect("a new chunk serves")
            }
        };
        for q in &seen {
            assert!(p >= q + CHUNK || p + CHUNK <= *q, "blocks overlap");
        }
        seen.push(p);
    }
}

// ── Tasks ─────────────────────────────────────────────────────────────────────

fn int_word(i: i64) -> i64 {
    JadeValue::from_int(i).word()
}

fn nil() -> i64 {
    JadeValue::nil().word()
}

/// Await a word as a thread of its own would: run the body that doubles its argument
/// when nobody has, then take the result.
fn await_doubling(h: &mut Heap, w: i64) -> Result<i64, TaskError> {
    loop {
        match jrt_await_step(h, w)? {
            AwaitStep::Run(job) => {
                let r = job.args[0] * 2;
                finish_job(h, w, &job.args, job.owns_args, Ok(r));
            }
            AwaitStep::Wait => panic!("nobody is running it"),
            AwaitStep::Take => return jrt_await_word(h, w),
        }
    }
}

#[test]
fn spawn_and_await_returns_the_result() {
    let mut h = Heap::new();
    let f = spawn(&mut h, 1, vec![21], false);
    assert!(matches!(await_doubling(&mut h, f), Ok(42)));
}

#[test]
fn second_await_is_an_error() {
    let mut h = Heap::new();
    let f = spawn(&mut h, 1, vec![1], false);
    assert!(matches!(await_doubling(&mut h, f), Ok(2)));
    assert!(
        matches!(await_doubling(&mut h, f), Err(TaskError::DoubleAwait)),
        "a future resolves once and is consumed once, matching the VM"
    );
}

#[test]
fn join_returns_results_in_argument_order() {
    let h = RefCell::new(Heap::new());
    let futs: Vec<i64> =
        [1i64, 2, 3].iter().map(|&n| spawn(&mut h.borrow_mut(), 1, vec![n], false)).collect();
    let wait = |w: i64| await_doubling(&mut h.borrow_mut(), w);
    assert_eq!(join_all(&futs, &wait).ok(), Some(vec![2, 4, 6]));
}

#[test]
fn every_task_runs_even_when_far_over_subscribed() {
    let mut h = Heap::new();
    let mut p = Pool::new();
    const N: i64 = 500;
    let futs: Vec<i64> = (0..N).map(|n| spawn(&mut h, 1, vec![n], false)).collect();
    for f in &futs {
        p.submit(*f);
    }
    let mut ran = 0;
    let mut counted = false;
    while let Some(w) = p.next(&mut counted) {
        if let Ok(AwaitStep::Run(job)) = jrt_await_step(&mut h, w) {
            finish_job(&mut h, w, &job.args, job.owns_args, Ok(job.args[0] * 2));
            ran += 1;
        }
        assert!(p.stop_running(&mut counted));
    }
    assert_eq!(ran, N);
    for (i, f) in futs.iter().enumerate() {
        assert!(matches!(jrt_await_word(&mut h, *f), Ok(v) if v == i as i64 * 2));
    }
}

#[test]
fn pool_bounds_thread_count() {
    let mut p = Pool::new();
    for n in 0..200 {
        p.submit(n);
    }
    let workers = p.worker_count();
    assert!(workers <= HARD_MAX_WORKERS, "worker count {workers} exceeded the hard ceiling");
    assert_eq!(workers, DEFAULT_MAX_TASKS, "the pool is not bounding anything");
}

#[test]
fn the_out_of_threads_warning_is_printed_once() {
    let mut p = Pool::new();
    for _ in 0..3 {
        assert!(p.submit(0));
    }
    assert!(p.refused());
    assert!(!p.refused(), "a second failure must stay quiet");
    assert!(!p.refused());
    assert_eq!(p.spawn_failures(), 3, "every failure still counts");
    assert_eq!(p.worker_count(), 0);
}

#[test]
fn the_limit_starts_at_the_documented_default() {
    assert_eq!(DEFAULT_MAX_TASKS, 32);
    assert_eq!(Pool::new().max_tasks(), DEFAULT_MAX_TASKS);
}

#[test]
fn set_max_tasks_clamps_and_answers_with_what_took_effect() {
    let mut p = Pool::new();
    assert_eq!(p.set_max_tasks(8), 8);
    assert_eq!(p.max_tasks(), 8);
    assert_eq!(p.set_max_tasks(0), 1, "zero runnable tasks is not a state to allow");
    assert_eq!(p.set_max_tasks(9999), HARD_MAX_WORKERS);
    assert_eq!(p.max_tasks(), HARD_MAX_WORKERS);
    assert_eq!(p.jrt_set_max_tasks(-5), 1);
    assert_eq!(p.max_tasks(), 1);
}

#[test]
fn the_limit_bounds_peak_concurrency() {
    let mut p = Pool::new();
    p.set_max_tasks(2);
    for n in 0..24 {
        p.submit(n);
    }
    let mut threads = [false; 4];
    let started = threads.iter_mut().map(|c| p.next(c)).filter(|w| w.is_some()).count();
    assert_eq!(started, 2, "24 tasks started {started} under a limit of 2");
}

#[test]
fn concurrency_is_bounded_not_serialized() {
    let mut p = Pool::new();
    for n in 0..32 {
        p.submit(n);
    }
    let mut threads = [false; 32];
    let peak = threads.iter_mut().map(|c| p.next(c)).filter(|w| w.is_some()).count();
    assert!(peak > 1, "tasks ran one at a time");
}

#[test]
fn nested_await_does_not_deadlock_a_bounded_pool() {
    let mut p = Pool::new();
    p.set_max_tasks(1);
    let mut outer = false;
    assert!(p.submit(1));
    assert_eq!(p.next(&mut outer), Some(1));
    assert!(!p.submit(2), "the limit is one");
    let mut other = false;
    assert_eq!(p.next(&mut other), None, "no place is free");
    let (had, start) = p.enter_blocking(&mut outer);
    assert!(had && start, "a blocked thread gives its place to a new one");
    assert_eq!(p.next(&mut other), Some(2));
    p.exit_blocking(had, &mut outer);
    assert!(outer);

    const OUTER: i64 = 64;
    let mut h = Heap::new();
    let futs: Vec<i64> = (0..OUTER).map(|n| spawn(&mut h, 2, vec![n], false)).collect();
    let mut sum = 0;
    for f in futs {
        match jrt_await_step(&mut h, f) {
            Ok(AwaitStep::Run(job)) => {
                let inner = spawn(&mut h, 1, vec![job.args[0]], false);
                let r = await_doubling(&mut h, inner).ok().expect("inner task must resolve");
                finish_job(&mut h, f, &job.args, false, Ok(r));
            }
            _ => panic!("an awaiter runs a body nobody took"),
        }
        sum += jrt_await_word(&mut h, f).ok().expect("outer task must resolve");
    }
    assert_eq!(sum, (0..OUTER).map(|n| n * 2).sum::<i64>());
}

#[test]
fn an_await_chain_deeper_than_the_pool_still_finishes() {
    let mut h = Heap::new();
    const DEPTH: i64 = HARD_MAX_WORKERS as i64 + 64;
    fn chain(h: &mut Heap, n: i64) -> i64 {
        if n <= 0 {
            return 0;
        }
        let next = spawn(h, 1, vec![n - 1], false);
        match jrt_await_step(h, next) {
            Ok(AwaitStep::Run(job)) => {
                let r = chain(h, job.args[0]);
                finish_job(h, next, &job.args, false, Ok(r));
            }
            _ => panic!("an awaiter runs a body nobody took"),
        }
        jrt_await_word(h, next).ok().expect("inner task must resolve") + 1
    }
    assert_eq!(chain(&mut h, DEPTH), DEPTH);
}

#[test]
fn releasing_the_last_reference_records_the_free() {
    let mut h = Heap::new();
    let before = h.jrt_heap_live_count();
    let w = h.leak_obj(Obj::Future(FutureObj::new(None)));
    assert_eq!(h.jrt_heap_live_count(), before + 1, "leak_obj must be instrumented");
    h.jrt_decref(w);
    assert_eq!(h.jrt_heap_live_count(), before, "release at zero must free");
}

#[test]
fn the_worker_releases_its_reference_after_completing() {
    let mut h = Heap::new();
    let f = spawn(&mut h, 1, vec![5], false);
    assert!(matches!(await_doubling(&mut h, f), Ok(10)));
    assert_eq!(h.object(f).unwrap().header().rc(), 2);
    h.jrt_decref(f);
    assert_eq!(h.object(f).unwrap().header().rc(), 1, "only the handle's is left");
    h.jrt_decref(f);
    assert!(h.object(f).is_none());
}

#[test]
fn a_task_keeps_its_arguments_and_its_result_alive() {
    let mut h = Heap::new();
    let arg = h.leak_obj(Obj::Array(ArrayObj::new()));
    let f = spawn(&mut h, 1, vec![arg], true);
    h.jrt_decref(arg);
    assert!(h.object(arg).is_some(), "the task still holds it");
    let result = h.leak_obj(Obj::Array(ArrayObj::new()));
    match jrt_await_step(&mut h, f) {
        Ok(AwaitStep::Run(job)) => finish_job(&mut h, f, &job.args, job.owns_args, Ok(result)),
        _ => panic!("expected the body"),
    }
    assert!(h.object(arg).is_none(), "and lets go when the body is done");
    h.jrt_decref(f);
    h.jrt_decref(f);
    assert!(h.object(result).is_none(), "a result nobody took goes with the future");
}

#[test]
fn cancelling_raises_and_waiting_finds_the_lowest() {
    let mut h = Heap::new();
    let a = spawn(&mut h, 1, vec![1], false);
    let b = spawn(&mut h, 1, vec![2], false);
    assert_eq!(jrt_wait_any(&h, &[a, b]), None);
    assert_eq!(jrt_wait_any(&h, &[]), Some(NOTHING_TO_WAIT_FOR));
    assert_eq!(jrt_wait_any(&h, &[a, int_word(3)]), Some(NOT_A_FUTURE));
    assert_eq!(jrt_future_ready(&h, a), 0);
    assert_eq!(jrt_future_ready(&h, nil()), NOT_A_FUTURE);
    finish_job(&mut h, b, &[], false, Ok(7));
    assert_eq!(jrt_wait_any(&h, &[a, b]), Some(1));
    assert_eq!(jrt_future_cancel(&mut h, b), 0);
    assert_eq!(jrt_future_cancel(&mut h, nil()), NOT_A_FUTURE);
    assert!(matches!(jrt_await_word(&mut h, b), Err(TaskError::Cancelled)));
    assert_eq!(jrt_future_cancel(&mut h, a), 0);
    assert_eq!(jrt_wait_any(&h, &[a, b]), Some(0));
    assert!(matches!(jrt_await_step(&mut h, a), Ok(AwaitStep::Take)), "an await fails at once");
    assert!(matches!(jrt_await_word(&mut h, a), Err(TaskError::Cancelled)));
    assert_eq!(claim_job(&mut h, a).map(|j| j.args), Some(vec![1]), "the work goes on");
    assert!(claim_job(&mut h, a).is_none());
}

#[test]
fn joins_await_everyone_and_report_the_first_error() {
    let asked = RefCell::new(Vec::new());
    let wait = |w: i64| {
        asked.borrow_mut().push(w);
        match w {
            1 => Ok(10),
            2 => Err(TaskError::Raised(77, Some("Oops".to_string()))),
            3 => Err(TaskError::Cancelled),
            4 => Err(TaskError::DoubleAwait),
            _ => Err(TaskError::NotAFuture),
        }
    };
    let (vals, first) = jrt_join_words(&[1, 2, 3, 1], &wait);
    assert_eq!(vals, [10, 0, 0, 10]);
    assert!(matches!(first, Some(TaskError::Raised(77, _))));
    assert_eq!(asked.borrow().len(), 4);

    asked.borrow_mut().clear();
    let known = |w: i64| w < 9;
    assert_eq!(
        jrt_join_settle(&[1, 2, 3], &known, &wait),
        Ok(vec![(10, 1), (77, 0), (nil(), 0)])
    );
    assert_eq!(jrt_join_settle(&[1, 4, 1], &known, &wait), Err(DOUBLE_AWAITED));
    assert_eq!(asked.borrow().len(), 5, "nothing is awaited after a mistake");
    assert_eq!(jrt_join_settle(&[4, 9], &known, &wait), Err(NOT_A_FUTURE));
    assert_eq!(asked.borrow().len(), 5, "every member is checked before any is awaited");
    assert_eq!(jrt_join_settle(&[], &known, &wait), Ok(vec![]));
}

#[test]
fn outcomes_are_reported_by_number() {
    assert_eq!(report(Ok(5)), (5, 0, 0, None));
    assert_eq!(
        report(Err(TaskError::Raised(9, Some("E".to_string())))),
        (0, 1, 9, Some("E".to_string()))
    );
    assert_eq!(report(Err(TaskError::DoubleAwait)), (0, 2, 0, None));
    assert_eq!(report(Err(TaskError::NotAFuture)), (0, 3, 0, None));
    assert_eq!(report(Err(TaskError::Cancelled)), (0, 4, 0, None));
}

#[test]
fn timers_fire_in_order_of_their_deadlines() {
    let mut h = Heap::new();
    let mut t = Timers::new();
    let late = after(&mut h, &mut t, 300);
    let soon = after(&mut h, &mut t, 100);
    let mid = after(&mut h, &mut t, 200);
    assert_eq!(t.earliest(), Some(100));
    assert!(t.due(99).is_empty());
    assert_eq!(t.due(200), [soon, mid]);
    finish_job(&mut h, soon, &[], false, Ok(nil()));
    assert!(matches!(jrt_await_word(&mut h, soon), Ok(w) if w == nil()));
    assert!(matches!(jrt_await_step(&mut h, late), Ok(AwaitStep::Wait)), "it has no body to run");
    assert_eq!(t.earliest(), Some(300));
}

#[test]
fn idle_threads_retire_and_wake() {
    let mut p = Pool::new();
    assert!(p.submit(1));
    let mut c = false;
    assert_eq!(p.next(&mut c), Some(1));
    assert!(p.stop_running(&mut c));
    p.park();
    assert!(!p.unpark(false));
    p.park();
    assert!(p.unpark(true), "nothing came");
    assert_eq!(p.worker_count(), 0);
    assert!(p.submit(2), "and the next task gets a thread of its own");
}

#[test]
fn every_call_moves_the_generator_on() {
    let mut r = Rng::new();
    let a = random_float(&mut r, &[], 5).unwrap();
    let b = random_float(&mut r, &[], 5).unwrap();
    assert_ne!(a, b, "a fresh number on each call");
    let fresh = || vec![VmValue::Array((0..20).map(VmValue::Int).collect())];
    let (mut x, mut y) = (fresh(), fresh());
    random_shuffle(&mut r, &mut x, 5).unwrap();
    random_shuffle(&mut r, &mut y, 5).unwrap();
    assert_ne!(format!("{x:?}"), format!("{y:?}"), "a new permutation on each call");
    let before = (r.s0, r.s1, r.s2, r.s3);
    assert!(random_shuffle(&mut r, &mut vec![], 5).is_err());
    assert!(random_shuffle(&mut r, &mut vec![VmValue::Nil], 5).is_err());
    assert_eq!((r.s0, r.s1, r.s2, r.s3), before, "a refused call draws nothing");
}

#[test]
fn a_failed_exchange_closes_the_socket() {
    let mut conn = Conn::new("/s".to_string());
    assert!(conn.settle(Err(InferError::FrameLimit)).is_err());
    assert!(!conn.open);
    let mut wire: &[u8] = &[99, 1, 0, 5];
    let mut payload = vec![1, 2];
    assert!(read_frame(&mut wire, &mut payload).is_err());
    assert!(payload.is_empty(), "the payload is cleared first");
}
