//! Text: strings, paths, JSON, replies, grammars, dates, and what other programs write.

use jade_runtime::coercef::{
    coerce_fields, extract_json, find_end, jrt_coerce_struct, jrt_struct_field, normalize,
    quote_keys, strip_number_commas, CoerceError, FieldSpec, TypeTable,
};
use jade_runtime::coll::StructObj;
use jade_runtime::cstr::{borrow_bytes, emit_str, to_string};
use jade_runtime::envf::{jrt_env_args, jrt_env_cwd, jrt_env_get};
use jade_runtime::ffi_coll::{jrt_coll_array_get, jrt_coll_dict_get, jrt_karr_new, jrt_karr_push};
use jade_runtime::fsf::{
    io_error, jrt_fs_read_bytes_impl, jrt_fs_read_impl, jrt_fs_read_stdin_bytes_impl,
    jrt_fs_size_impl, pending, read_trust,
};
use jade_runtime::gc::Heap;
use jade_runtime::grammarf::{
    jrt_grammar_new, jrt_prompt_grammar_obj, jrt_prompt_stream_obj, stream_args, wrap_pattern, GrammarObj,
};
use jade_runtime::heap::ObjKind;
use jade_runtime::httpf::{
    body_text, bytes_arg, curl_reason, jrt_http_delete_impl, jrt_http_get_bytes_impl,
    jrt_http_get_impl, jrt_http_head_impl, jrt_http_post_bytes_impl, jrt_http_post_impl,
    jrt_http_put_impl, make_bytes_dict, make_dict, post_body, read_headers,
    request, request_args, request_bytes, split_reply, word_type_name, CurlRun,
};
use jade_runtime::jsonf::{
    jrt_json_parse_chunk, jrt_json_stringify_chunk, value_to_word, word_to_value, write_tree, Json,
};
use jade_runtime::obj::Obj;
use jade_runtime::bytesf::BytesObj;
use jade_runtime::ops;
use jade_runtime::pathf::{
    abs, basename, dirname, ext, is_abs, join, jrt_path_abs, jrt_path_basename, jrt_path_dirname,
    jrt_path_ext, jrt_path_is_abs, jrt_path_join, jrt_path_stem, push_path, same_path, stem, AbsError,
};
use jade_runtime::shf::{self, ShellRun};
use jade_runtime::strf::{
    capitalize, count, index_of, is_empty, jrt_str_capitalize, jrt_str_count, jrt_str_index_of,
    jrt_str_is_empty, jrt_str_last_index_of, jrt_str_lower, jrt_str_pad_end, jrt_str_pad_start,
    jrt_str_repeat, jrt_str_slice, jrt_str_trim_end, jrt_str_trim_start, jrt_str_upper, last_index_of, lower, pad_end, pad_start, repeat, slice,
    split, trim, trim_end, trim_start, upper,
};
use jade_runtime::string::TaggedStr;
use jade_runtime::timef::{
    jrt_time_local, jrt_time_parts, jrt_time_utc, local, now, now_ms, parts, stamp, utc, DAY,
};
use jade_runtime::trust::{TAINTED, TRUSTED};
use jade_runtime::value::JadeValue;

fn int_word(i: i64) -> i64 {
    JadeValue::from_int(i).word()
}

fn nil() -> i64 {
    JadeValue::nil().word()
}

fn text_at(h: &Heap, w: i64) -> (String, u8) {
    ops::text_of(h, JadeValue::from_word(w))
}

// ── Strings ───────────────────────────────────────────────────────────────────

#[test]
fn ascii_matches_the_old_behavior() {
    assert_eq!(upper("hello"), "HELLO");
    assert_eq!(lower("HELLO"), "hello");
}

#[test]
fn searches_and_slices_fit_together() {
    let (s, sub) = ("naïve naïf", "na");
    let (first, last) = (index_of(s, sub), last_index_of(s, sub));
    assert_eq!((first, last), (0, 6));
    assert_eq!(slice(s, first, first + 2), sub);
    assert_eq!(slice(s, last, last + 2), sub);
    assert_eq!((index_of(s, "x"), last_index_of(s, "x")), (-1, -1));
    assert_eq!((index_of("ab", ""), last_index_of("ab", "")), (0, 2));
}

#[test]
fn index_of_is_a_character_index_not_a_byte_offset() {
    assert_eq!(index_of("hello", "l"), 2);
    assert_eq!(index_of("hello", "zz"), -1);
    assert_eq!(index_of("café!", "!"), 4);
    assert_eq!(last_index_of("café!é", "é"), 5);
    assert_eq!(last_index_of("hello", "l"), 3);
}

#[test]
fn slice_walks_characters_and_never_splits_one() {
    assert_eq!(slice("hello", 1, 3), "el");
    assert_eq!(slice("café", 0, 4), "café");
    assert_eq!(slice("café", 3, 4), "é");
    assert_eq!(slice("abc", -5, 99), "abc");
    assert_eq!(slice("abc", 2, 1), "");
}

#[test]
fn pad_counts_characters() {
    assert_eq!(pad_start("7", 3, "0"), "007");
    assert_eq!(pad_end("7", 3, "0"), "700");
    assert_eq!(pad_start("café", 6, "."), "..café");
    assert_eq!(pad_start("abcd", 2, "0"), "abcd");
    assert_eq!(pad_start("x", 5, "ab"), "ababx");
    assert_eq!(pad_start("x", 5, ""), "x");
}

#[test]
fn count_ignores_an_empty_needle() {
    assert_eq!(count("banana", "an"), 2);
    assert_eq!(count("aaaa", "aa"), 2, "non-overlapping");
    assert_eq!(count("abc", "z"), 0);
    assert_eq!(count("abc", ""), 0);
}

#[test]
fn capitalize_uses_the_full_case_mapping() {
    assert_eq!(capitalize("hello world"), "Hello world");
    assert_eq!(capitalize("HELLO"), "Hello");
    assert_eq!(capitalize(""), "");
    assert_eq!(capitalize("élan"), "Élan");
}

#[test]
fn repeat_and_trim_edges() {
    assert_eq!(repeat("ab", 3), "ababab");
    assert_eq!(repeat("ab", 0), "");
    assert_eq!(repeat("ab", -1), "");
    assert_eq!(trim_start("  x  "), "x  ");
    assert_eq!(trim_end("  x  "), "  x");
}

#[test]
fn non_ascii_case_maps_like_the_vm() {
    assert_eq!(upper("café"), "CAFÉ");
    assert_eq!(lower("HÉLLO"), "héllo");
}

#[test]
fn case_mapping_may_change_character_count() {
    assert_eq!(upper("größe"), "GRÖSSE");
    assert_eq!(upper("ß"), "SS");
    assert_eq!(upper("ß").chars().count(), 2, "one char maps to two");
}

#[test]
fn trimming_and_splitting_agree_with_std() {
    for s in ["", " ", "\u{3000}a b\u{2003}", "\t\r\nx\u{85}", "a\u{200b}"] {
        assert_eq!(trim(s), s.trim());
        assert_eq!(trim_start(s), s.trim_start());
        assert_eq!(trim_end(s), s.trim_end());
    }
    for (s, sep) in [("a,b,,c", ","), ("", ","), ("aXXbXXXc", "XX"), ("añb", "ñ"), ("abc", "")] {
        let want: Vec<String> = s.split(sep).map(|x| x.to_string()).collect();
        assert_eq!(split(s, sep), want, "{s:?} at {sep:?}");
    }
    assert!(is_empty("") && !is_empty(" "));
}

// ── Terminated buffers ────────────────────────────────────────────────────────

fn buf(bytes: &[u8]) -> Vec<u8> {
    let mut v = bytes.to_vec();
    v.push(0);
    v
}

#[test]
fn valid_text_round_trips() {
    let b = buf(b"hello");
    assert_eq!(to_string(Some(&b)), "hello");
}

#[test]
fn null_is_empty_not_a_crash() {
    assert_eq!(to_string(None), "");
    assert!(borrow_bytes(None).is_empty());
}

#[test]
fn multibyte_text_is_preserved() {
    let b = buf("café → 日本語".as_bytes());
    assert_eq!(to_string(Some(&b)), "café → 日本語");
}

#[test]
fn invalid_utf8_keeps_the_valid_prefix() {
    let b = buf(b"ok\xffbad");
    assert_eq!(to_string(Some(&b)), "ok", "the valid prefix survives, the rest truncates");
}

#[test]
fn a_leading_bad_byte_yields_empty() {
    let b = buf(b"\xffrest");
    assert_eq!(to_string(Some(&b)), "");
}

#[test]
fn borrow_bytes_does_not_care_about_encoding() {
    let b = buf(b"\xff\xfe");
    assert_eq!(borrow_bytes(Some(&b)), b"\xff\xfe");
}

#[test]
fn emitted_strings_carry_their_trust_and_terminator() {
    let s = emit_str("hi", TAINTED);
    assert_eq!(s.trust, TAINTED);
    assert_eq!(s.text, "hi");
}

#[test]
fn an_empty_emit_is_still_a_valid_string() {
    let s = emit_str("", TRUSTED);
    assert_eq!(s.text, "");
    assert_eq!(s.trust, TRUSTED);
}

// ── Paths ─────────────────────────────────────────────────────────────────────

#[test]
fn paths_split_like_the_platform() {
    for p in ["/a/b.txt", "a/b", "/", "", "a/..", "/a/./b/", "x.tar.gz", ".hidden", "a//b", "dir/"] {
        let std_path = std::path::Path::new(p);
        let name = std_path.file_name().map(|n| n.to_string_lossy().into_owned());
        assert_eq!(basename(p), name.clone().unwrap_or_default(), "basename of {p:?}");
        let parent = std_path.parent().map(|n| n.to_string_lossy().into_owned());
        let parent = parent.filter(|d| !d.is_empty()).unwrap_or_else(|| ".".to_string());
        assert_eq!(dirname(p), parent, "dirname of {p:?}");
        let e = std_path.extension().map(|n| format!(".{}", n.to_string_lossy()));
        assert_eq!(ext(p), e, "ext of {p:?}");
        let st = std_path.file_stem().map(|n| n.to_string_lossy().into_owned());
        assert_eq!(stem(p), st.unwrap_or_default(), "stem of {p:?}");
        assert_eq!(is_abs(p), std_path.is_absolute());
    }
    assert_eq!(join(&["/a", "b", "c.jde"]), "/a/b/c.jde");
    assert_eq!(join(&["a", "/b"]), "/b");
    for (a, b) in [("/a", "b"), ("/a/", "b"), ("", "b"), ("a", ""), ("a", "/b")] {
        let want = std::path::Path::new(a).join(b).to_string_lossy().into_owned();
        assert_eq!(push_path(a, b), want);
    }
    assert!(same_path("/a//b/", "/a/b") && !same_path("/a/b", "/a/c"));
}

#[test]
fn absolute_paths_are_normalised() {
    assert_eq!(abs("b/../c", Some("/a")).unwrap(), "/a/c");
    assert_eq!(abs("/x/./y", None).unwrap(), "/x/y");
    assert!(matches!(abs("", Some("/a")), Err(AbsError::Empty)));
    assert!(matches!(abs("b", None), Err(AbsError::NoCwd)));
}

// ── Dates ─────────────────────────────────────────────────────────────────────

#[test]
fn known_timestamps_convert() {
    assert_eq!(utc(0), "1970-01-01T00:00:00Z");
    assert_eq!(utc(1_786_889_002), "2026-08-16T14:03:22Z");
    assert_eq!(utc(1_000_000_000), "2001-09-09T01:46:40Z");
}

#[test]
fn parts_matches_the_string() {
    let p = parts(1_786_889_002);
    assert_eq!((p.year, p.month, p.day), (2026, 8, 16));
    assert_eq!((p.hour, p.minute, p.second), (14, 3, 22));
    assert_eq!(p.weekday, 0, "2026-08-16 is a Sunday");
    assert_eq!(p.yearday, 228);
}

#[test]
fn epoch_weekday_is_thursday() {
    assert_eq!(parts(0).weekday, 4);
    assert_eq!(parts(0).yearday, 1);
}

#[test]
fn before_the_epoch_floors() {
    assert_eq!(utc(-1), "1969-12-31T23:59:59Z");
    assert_eq!(utc(-DAY), "1969-12-31T00:00:00Z");
    let p = parts(-1);
    assert_eq!((p.hour, p.minute, p.second), (23, 59, 59));
    assert_eq!(p.weekday, 3, "1969-12-31 is a Wednesday");
}

#[test]
fn leap_years_follow_the_gregorian_rule() {
    assert_eq!(utc(stamp(2024, 2, 29, 0, 0, 0)), "2024-02-29T00:00:00Z");
    assert_eq!(utc(stamp(2100, 2, 29, 0, 0, 0)), "2100-03-01T00:00:00Z");
    assert_eq!(utc(stamp(2000, 2, 29, 0, 0, 0)), "2000-02-29T00:00:00Z");
}

#[test]
fn out_of_range_fields_carry() {
    assert_eq!(utc(stamp(2026, 13, 1, 0, 0, 0)), "2027-01-01T00:00:00Z");
    assert_eq!(utc(stamp(2026, 0, 1, 0, 0, 0)), "2025-12-01T00:00:00Z");
    assert_eq!(utc(stamp(2026, 3, 0, 0, 0, 0)), "2026-02-28T00:00:00Z");
    assert_eq!(utc(stamp(2026, 8, 16, 25, 0, 0)), "2026-08-17T01:00:00Z");
    assert_eq!(utc(stamp(2026, 8, 16, 0, 0, -1)), "2026-08-15T23:59:59Z");
}

#[test]
fn stamp_and_parts_round_trip() {
    let mut ts: i64 = -60_000_000_000;
    while ts < 60_000_000_000 {
        let p = parts(ts);
        assert_eq!(
            stamp(p.year, p.month, p.day, p.hour, p.minute, p.second),
            ts,
            "round trip failed at {}",
            ts
        );
        ts += 987_654_321;
    }
}

#[test]
fn weekday_advances_one_day_at_a_time() {
    let start = stamp(2023, 11, 20, 0, 0, 0);
    for i in 0..800 {
        let expected = (parts(start).weekday + i).rem_euclid(7);
        assert_eq!(parts(start + i * DAY).weekday, expected, "day {}", i);
    }
}

#[test]
fn far_stamps_saturate() {
    assert_eq!(stamp(i64::MAX, 1, 1, 0, 0, 0), i64::MAX);
    assert_eq!(stamp(i64::MIN, 1, 1, 0, 0, 0), i64::MIN);
    assert_eq!(stamp(2026, i64::MIN, 1, 0, 0, 0), i64::MIN);
}

#[test]
fn time_parts_make_a_dict() {
    let mut h = Heap::new();
    let d = jrt_time_parts(&mut h, 1_786_889_002);
    assert_eq!(jrt_coll_dict_get(&h, d, "year"), Some(int_word(2026)));
    assert_eq!(jrt_coll_dict_get(&h, d, "yearday"), Some(int_word(228)));
}

#[test]
fn clock_readings_count_from_the_epoch() {
    assert_eq!(now(Some((1_700_000_000, 999))), 1_700_000_000);
    assert_eq!(now_ms(Some((1_700_000_000, 987_654_321))), 1_700_000_000_987);
    assert_eq!(now(None), 0);
    assert_eq!(now_ms(None), 0);
    assert_eq!(local(b"Sun Aug 16 14:03:22 UTC 2026\n"), "Sun Aug 16 14:03:22 UTC 2026");
}

// ── Replies to coerce ─────────────────────────────────────────────────────────

fn spec(name: &str, default: Option<i32>) -> FieldSpec<i32> {
    FieldSpec { name: name.to_string(), default }
}

fn run(text: &str, fields: &[FieldSpec<i32>]) -> Result<Vec<(String, i32)>, CoerceError> {
    coerce_fields(text, fields, |name: &str, v: &Json| match v {
        Json::Int(n) => Ok(*n as i32),
        _ => Err(format!("{name} is not a number")),
    })
}

#[test]
fn json_is_extracted_from_surrounding_prose() {
    let got = run(r#"Sure! Here you go: {"a": 1} — hope that helps"#, &[spec("a", None)]);
    assert_eq!(got.unwrap(), vec![("a".to_string(), 1)]);
}

#[test]
fn json_is_extracted_from_a_markdown_fence() {
    let got = run("```json\n{\"a\": 1}\n```", &[spec("a", None)]);
    assert_eq!(got.unwrap(), vec![("a".to_string(), 1)]);
}

#[test]
fn common_malformations_are_repaired() {
    assert_eq!(run(r#"{a: 1}"#, &[spec("a", None)]).unwrap(), vec![("a".to_string(), 1)]);
    assert_eq!(
        run(r#"{"a": 1,000}"#, &[spec("a", None)]).unwrap(),
        vec![("a".to_string(), 1000)]
    );
}

#[test]
fn fields_come_back_in_declaration_order() {
    let got = run(
        r#"{"c": 3, "a": 1, "b": 2}"#,
        &[spec("a", None), spec("b", None), spec("c", None)],
    )
    .unwrap();
    let names: Vec<&str> = got.iter().map(|(n, _)| n.as_str()).collect();
    assert_eq!(names, vec!["a", "b", "c"]);
}

#[test]
fn an_omitted_optional_field_takes_its_default() {
    let got = run(r#"{"a": 1}"#, &[spec("a", None), spec("b", Some(7))]).unwrap();
    assert_eq!(got, vec![("a".to_string(), 1), ("b".to_string(), 7)]);
}

#[test]
fn each_failure_is_distinguishable() {
    assert!(matches!(run("no json here", &[spec("a", None)]), Err(CoerceError::NotJson(_))));
    assert_eq!(run("[1, 2]", &[spec("a", None)]).unwrap_err(), CoerceError::NotObject);
    assert_eq!(
        run(r#"{"b": 1}"#, &[spec("a", None)]).unwrap_err(),
        CoerceError::MissingRequired("a".to_string())
    );
    assert!(matches!(
        run(r#"{"a": "not a number"}"#, &[spec("a", None)]),
        Err(CoerceError::BadField { .. })
    ));
}

#[test]
fn undeclared_keys_are_dropped() {
    let got = run(r#"{"a": 1, "stowaway": 2}"#, &[spec("a", None)]).unwrap();
    assert_eq!(got.len(), 1);
}

fn declare(t: &mut TypeTable, owner: &str, fields: &[(&str, Option<i64>)]) {
    for (f, d) in fields {
        jrt_struct_field(t, owner, f, d.unwrap_or(0), d.is_some() as i32);
    }
}

/// The fields of a coerced struct, or nothing when it came to nil.
fn coerce(t: &TypeTable, json: &str, owner: &str) -> Option<Vec<(String, i64)>> {
    let mut h = Heap::new();
    let w = jrt_coerce_struct(t, &mut h, &TaggedStr::dup(json, TRUSTED), owner).expect("room");
    if w == nil() {
        return None;
    }
    match h.object(w) {
        Some(Obj::Struct(s)) => Some(fields_of(s)),
        _ => panic!("expected a struct"),
    }
}

fn fields_of(s: &StructObj) -> Vec<(String, i64)> {
    s.fields().to_vec()
}

#[test]
fn fields_are_set_in_declaration_order_not_reply_order() {
    let mut t = TypeTable::new();
    declare(&mut t, "C_order", &[("a", None), ("b", None), ("c", None)]);
    let s = coerce(&t, r#"{"c": 3, "a": 1, "b": 2}"#, "C_order").unwrap();
    let names: Vec<&str> = s.iter().map(|(n, _)| n.as_str()).collect();
    assert_eq!(names, vec!["a", "b", "c"]);
}

#[test]
fn an_omitted_optional_field_takes_its_declared_default() {
    let mut t = TypeTable::new();
    declare(&mut t, "C_default", &[("name", None), ("population", Some(int_word(7)))]);
    let s = coerce(&t, r#"{"name": "Kyoto"}"#, "C_default").unwrap();
    assert!(s.contains(&("population".to_string(), int_word(7))));
}

#[test]
fn an_omitted_required_field_fails_so_the_caller_can_retry() {
    let mut t = TypeTable::new();
    declare(&mut t, "C_required", &[("name", None), ("country", None)]);
    assert!(coerce(&t, r#"{"name": "Kyoto"}"#, "C_required").is_none());
}

#[test]
fn an_optional_field_defaulting_to_nil_is_still_optional() {
    let mut t = TypeTable::new();
    declare(&mut t, "C_nildefault", &[("a", Some(nil()))]);
    let s = coerce(&t, "{}", "C_nildefault").unwrap();
    assert_eq!(s, vec![("a".to_string(), nil())]);
}

#[test]
fn a_reply_that_is_not_an_object_fails() {
    let mut t = TypeTable::new();
    declare(&mut t, "C_shape", &[("a", None)]);
    assert!(coerce(&t, "[1, 2, 3]", "C_shape").is_none());
    assert!(coerce(&t, "\"just a string\"", "C_shape").is_none());
    assert!(coerce(&t, "not json at all", "C_shape").is_none());
}

#[test]
fn keys_the_type_does_not_declare_are_dropped() {
    let mut t = TypeTable::new();
    declare(&mut t, "C_extra", &[("kept", None)]);
    let s = coerce(&t, r#"{"kept": 1, "stowaway": 2}"#, "C_extra").unwrap();
    assert_eq!(s, vec![("kept".to_string(), int_word(1))]);
}

#[test]
fn an_unregistered_type_fails() {
    let t = TypeTable::new();
    assert!(coerce(&t, "{}", "C_never_declared").is_none());
}

#[test]
fn repairs_leave_good_json_alone() {
    assert_eq!(quote_keys(r#"{name: 1, "b": {c: "x, y: z"}}"#), r#"{"name": 1, "b": {"c": "x, y: z"}}"#);
    assert_eq!(strip_number_commas("[1,000,000, 2]"), "[1000000, 2]");
    assert_eq!(normalize(r#"{"a": "1,000", "b": 2}"#), r#"{"a": "1,000", "b": 2}"#);
    assert_eq!(quote_keys("{name: \"é\"}"), "{\"name\": \"é\"}");
    assert_eq!(strip_number_commas("[\"ü\", 1,000]"), "[\"ü\", 1000]");
    assert_eq!(
        strip_number_commas(r#"{"p": "c:\\", "s": "1,2", "n": 1,000}"#),
        r#"{"p": "c:\\", "s": "1,2", "n": 1000}"#
    );
    assert_eq!(extract_json("so: {city: \"Köln\", n: 1,000}"), "{\"city\": \"Köln\", \"n\": 1000}");
    let s: Vec<char> = r#"x {"a": "}"} y"#.chars().collect();
    assert_eq!(find_end(&s, 2), Some(12));
    assert_eq!(extract_json("see [1, 2] now"), "[1, 2]");
}

// ── JSON ──────────────────────────────────────────────────────────────────────

fn parse(h: &mut Heap, text: &str) -> i64 {
    jrt_json_parse_chunk(h, text, TAINTED).expect("room")
}

#[test]
fn roundtrip_object() {
    let mut h = Heap::new();
    let w = parse(&mut h, "{\"b\": 2, \"a\": 1}");
    let s = jrt_json_stringify_chunk(&h, w, false).unwrap();
    assert_eq!(s.text, r#"{"a":1,"b":2}"#);
    assert_eq!(s.trust, TRUSTED);
}

#[test]
fn pretty_and_nested() {
    let mut h = Heap::new();
    let w = parse(&mut h, "{\"a\": {\"b\": 7}}");
    let s = jrt_json_stringify_chunk(&h, w, true).unwrap();
    assert_eq!(s.text, "{\n  \"a\": {\n    \"b\": 7\n  }\n}");
}

#[test]
fn written_trees_read_back() {
    let mut h = Heap::new();
    let text = r#"{"k":[null,true,-5,"é\n\"",{"x":[]}],"z":9}"#;
    let w = parse(&mut h, text);
    let once = jrt_json_stringify_chunk(&h, w, false).unwrap().text;
    assert_eq!(once, text);
    let again = parse(&mut h, &once);
    assert_eq!(jrt_json_stringify_chunk(&h, again, false).unwrap().text, once);
    let spread = jrt_json_stringify_chunk(&h, w, true).unwrap().text;
    let third = parse(&mut h, &spread);
    assert_eq!(jrt_json_stringify_chunk(&h, third, false).unwrap().text, once);
    assert_eq!(parse(&mut h, "{nope"), nil());
}

#[test]
fn nesting_reads_back_to_the_limit() {
    let deep = |n: usize| format!("{}{}", "[".repeat(n), "]".repeat(n));
    let mut h = Heap::new();
    let w = parse(&mut h, &deep(127));
    assert_ne!(w, nil());
    assert_eq!(jrt_json_stringify_chunk(&h, w, false).unwrap().text, deep(127));
    assert_eq!(parse(&mut h, &deep(128)), nil());
}

#[test]
fn numbers_are_integers_where_they_fit() {
    let mut h = Heap::new();
    let w = parse(&mut h, "[7, 2.5, 1e400]");
    assert_eq!(w, nil(), "a number past every float is no JSON");
    let w = parse(&mut h, "[7, 2.5]");
    assert!(jrt_json_stringify_chunk(&h, w, false).is_none(), "it holds a float");
    match word_to_value(&h, w) {
        Json::Array(v) => {
            assert!(matches!(v[0], Json::Int(7)));
            assert!(matches!(v[1], Json::Float(b) if f64::from_bits(b) == 2.5));
        }
        _ => panic!("expected an array"),
    }
    let inf = h.box_float(f64::INFINITY.to_bits());
    assert!(matches!(word_to_value(&h, inf), Json::Null));
    assert_eq!(write_tree(&Json::Str("a".to_string()), false).as_deref(), Some("\"a\""));
}

#[test]
fn parsed_texts_carry_the_trust_of_the_source() {
    let mut h = Heap::new();
    let w = parse(&mut h, r#"["x"]"#);
    assert_eq!(text_at(&h, jrt_coll_array_get(&h, w, 0)), ("x".to_string(), TAINTED));
    let j = Json::Object(vec![("b".to_string(), Json::Int(1)), ("a".to_string(), Json::Null)]);
    let d = value_to_word(&mut h, &j, TRUSTED);
    assert_eq!(jrt_coll_dict_get(&h, d, "b"), Some(int_word(1)));
    assert_eq!(jrt_json_stringify_chunk(&h, d, false).unwrap().text, r#"{"a":null,"b":1}"#);
}

// ── Grammars ──────────────────────────────────────────────────────────────────

fn g(pattern: &str) -> GrammarObj {
    GrammarObj::new(pattern.to_string(), None, None)
}

#[test]
fn a_bare_pattern_is_wrapped_into_a_root_rule() {
    assert_eq!(g(r#""yes" | "no""#).to_gbnf(), r#"root ::= "yes" | "no" [ \t\n\r]*"#);
}

#[test]
fn a_complete_grammar_is_used_verbatim() {
    let src = "root ::= [0-9]+\n";
    assert_eq!(g(src).to_gbnf(), src);
}

#[test]
fn root_without_an_arrow_is_still_a_bare_pattern() {
    assert_eq!(g(r#""root""#).to_gbnf(), r#"root ::= "root" [ \t\n\r]*"#);
}

#[test]
fn an_arrow_without_root_is_still_a_bare_pattern() {
    assert_eq!(g("a ::= b").to_gbnf(), r"root ::= a ::= b [ \t\n\r]*");
}

#[test]
fn wrapping_always_allows_a_trailing_whitespace_token() {
    assert!(g("[0-9]+").to_gbnf().ends_with(r"[ \t\n\r]*"));
    assert_eq!(wrap_pattern("x"), r"root ::= x [ \t\n\r]*");
}

#[test]
fn every_consumer_sees_the_same_gbnf_for_one_grammar() {
    let anchored = GrammarObj::new(
        r#""yes" | "no""#.to_string(),
        Some("<a>".to_string()),
        Some("</a>".to_string()),
    );
    assert_eq!(anchored.to_gbnf(), g(r#""yes" | "no""#).to_gbnf());
    assert_eq!(anchored.anchor.as_deref(), Some("<a>"));
    assert_eq!(anchored.stop.as_deref(), Some("</a>"));
}

#[test]
fn an_anchored_grammar_starts_visible() {
    let g = GrammarObj::new("p".into(), Some("<t>".into()), Some("</t>".into()));
    let (_, anchor, stop, start_muted) = stream_args(&g);
    assert_eq!(anchor, Some("<t>"));
    assert_eq!(stop, Some("</t>"));
    assert!(!start_muted);
}

#[test]
fn an_unanchored_grammar_starts_muted() {
    let g = GrammarObj::new("p".into(), None, Some("</t>".into()));
    let (_, anchor, _, start_muted) = stream_args(&g);
    assert_eq!(anchor, None);
    assert!(start_muted);
}

#[test]
fn streaming_uses_the_same_gbnf_as_constrained_inference() {
    let g = GrammarObj::new(r#""yes" | "no""#.into(), None, None);
    assert_eq!(stream_args(&g).0, g.to_gbnf());
    let c = jrt_prompt_grammar_obj(&g).unwrap();
    assert_eq!(c.gbnf, Some(g.to_gbnf()));
}

#[test]
fn header_is_tagged_as_a_grammar() {
    assert_eq!(g("x").header.kind, ObjKind::Grammar.byte());
}

#[test]
fn a_grammar_with_a_zero_character_makes_no_request() {
    assert!(jrt_prompt_stream_obj(Some(&g("a\0b"))).is_none());
    let odd = GrammarObj::new("p".into(), Some("a\0".into()), None);
    let c = jrt_prompt_stream_obj(Some(&odd)).unwrap();
    assert!(c.anchor.is_none(), "a token that cannot be handed on is left out");
    assert!(!c.start_muted, "and the grammar still has an anchor");
    let c = jrt_prompt_stream_obj(None).unwrap();
    assert!(c.gbnf.is_none() && !c.start_muted);
}

// ── Requests ──────────────────────────────────────────────────────────────────

#[test]
fn body_text_substitutes_invalid_utf8_then_stops_at_a_nul() {
    assert_eq!(body_text(b"plain"), "plain");
    assert_eq!(body_text(&[0xFF, b'a']), "\u{FFFD}a");
    assert_eq!(body_text(&[b'a', 0x00, b'b']), "a");
    assert_eq!(body_text(&[0x00]), "");
}

#[test]
fn word_type_names_the_immediates() {
    let h = Heap::new();
    assert_eq!(word_type_name(&h, int_word(1)), "int");
    assert_eq!(word_type_name(&h, nil()), "nil");
    assert_eq!(word_type_name(&h, JadeValue::from_bool(true).word()), "bool");
    assert_eq!(word_type_name(&h, JadeValue::from_char('x', TRUSTED).word()), "char");
}

#[test]
fn bytes_arg_accepts_only_a_blob() {
    let mut h = Heap::new();
    let word = h.leak_obj(Obj::Bytes(BytesObj::trusted(vec![1, 2, 3])));
    assert_eq!(bytes_arg(&h, word), Some(&[1u8, 2, 3][..]));
    assert_eq!(word_type_name(&h, word), "bytes");
    assert_eq!(bytes_arg(&h, int_word(7)), None);
    assert_eq!(bytes_arg(&h, nil()), None);
    assert_eq!(post_body(&h, word), Ok(&[1u8, 2, 3][..]));
    let a = jrt_karr_new(&mut h);
    jrt_karr_push(&mut h, a, nil());
    assert_eq!(
        post_body(&h, a),
        Err("http.post_bytes expects bytes, got array".to_string())
    );
}

#[test]
fn a_request_hands_curl_its_arguments() {
    let headers = vec![("Accept".to_string(), "text/plain".to_string())];
    assert_eq!(
        request_args("POST", "http://x/y", true, &headers),
        [
            "-sS", "-X", "POST", "-H", "Accept: text/plain", "--data-binary", "@-", "-w",
            "\nJADE_STATUS:%{http_code}", "--", "http://x/y"
        ]
    );
    assert_eq!(
        request_args("HEAD", "u", false, &[]),
        ["-sS", "-o", "/dev/null", "-X", "HEAD", "-w", "\nJADE_STATUS:%{http_code}", "--", "u"]
    );
}

#[test]
fn a_reply_splits_at_the_last_status() {
    assert_eq!(split_reply(b"hi\nJADE_STATUS:200"), (200, b"hi".to_vec()));
    assert_eq!(
        split_reply(b"a\nJADE_STATUS:1\nJADE_STATUS:404"),
        (404, b"a\nJADE_STATUS:1".to_vec())
    );
    assert_eq!(split_reply(b"no mark"), (0, b"no mark".to_vec()));
    assert_eq!(split_reply(b"x\nJADE_STATUS:"), (0, b"x".to_vec()));
    assert_eq!(split_reply(b"x\nJADE_STATUS:99999999999999999999"), (0, b"x".to_vec()));
    assert_eq!(split_reply(b""), (0, Vec::new()));
}

#[test]
fn only_a_failed_transport_is_an_error() {
    let ended = |code: i32, out: &str| {
        let out = out.as_bytes().to_vec();
        move |_: &Vec<String>, _: Option<&[u8]>| CurlRun::Ended(Some(code), out.clone())
    };
    assert_eq!(
        request_bytes("GET", "u", None, &[], &ended(0, "gone\nJADE_STATUS:404")),
        Ok((404, b"gone".to_vec()))
    );
    assert_eq!(
        request_bytes("GET", "u", None, &[], &ended(6, "")),
        Err("http GET 'u': could not resolve host (curl exit 6)".to_string())
    );
    assert_eq!(
        request_bytes("GET", "u", None, &[], &|_: &Vec<String>, _: Option<&[u8]>| {
            CurlRun::NotStarted
        }),
        Err("http GET 'u': curl executable not found (curl exit 127)".to_string())
    );
    assert_eq!(
        request_bytes("GET", "u", None, &[], &|_: &Vec<String>, _: Option<&[u8]>| CurlRun::Lost),
        Err("http GET 'u': request failed (curl exit -1)".to_string())
    );
    let echo = |_: &Vec<String>, b: Option<&[u8]>| {
        let mut out = b.unwrap_or(&[]).to_vec();
        out.extend_from_slice(b"\nJADE_STATUS:201");
        CurlRun::Ended(Some(0), out)
    };
    assert_eq!(
        request("POST", "u", Some("héllo"), &[], &echo),
        Ok((201, "héllo".to_string()))
    );
    assert_eq!(curl_reason(28), "request timed out");
    assert_eq!(curl_reason(35), "TLS handshake failed");
    assert_eq!(curl_reason(7), "could not connect to host");
}

#[test]
fn replies_become_dicts_and_dicts_become_headers() {
    let mut h = Heap::new();
    let d = make_dict(&mut h, 200, "body");
    assert_eq!(jrt_coll_dict_get(&h, d, "status"), Some(int_word(200)));
    let b = jrt_coll_dict_get(&h, d, "body").unwrap();
    assert_eq!(text_at(&h, b), ("body".to_string(), TAINTED));
    let d2 = make_bytes_dict(&mut h, 500, vec![0, 255]);
    let b = jrt_coll_dict_get(&h, d2, "body").unwrap();
    assert_eq!(bytes_arg(&h, b), Some(&[0u8, 255][..]));
    assert_eq!(
        read_headers(&h, d),
        vec![("status".to_string(), "".to_string()), ("body".to_string(), "body".to_string())]
    );
    assert!(read_headers(&h, nil()).is_empty());
}

// ── Shell, files, environment ─────────────────────────────────────────────────

fn ran(code: Option<i32>, out: &str, err: &str) -> Result<ShellRun, String> {
    Ok(ShellRun { code, stdout: out.as_bytes().to_vec(), stderr: err.as_bytes().to_vec() })
}

#[test]
fn exec_trims_line_ends_and_raises_on_failure() {
    assert_eq!(shf::exec(ran(Some(0), " hi \n\n", "")), Ok(" hi ".to_string()));
    assert_eq!(
        shf::exec(ran(Some(3), "", " no such file \n")),
        Err("sh.exec: command exited with code 3: no such file".to_string())
    );
    assert_eq!(
        shf::exec(ran(None, "", "")),
        Err("sh.exec: command exited with code -1: ".to_string())
    );
    assert_eq!(
        shf::exec(Err("gone".to_string())),
        Err("sh.exec: could not spawn shell: gone".to_string())
    );
}

#[test]
fn run_and_output_report_the_code() {
    assert_eq!(shf::run(Ok(Some(7))), Ok(7));
    assert_eq!(shf::run(Ok(None)), Ok(-1));
    assert_eq!(
        shf::run(Err("gone".to_string())),
        Err("sh.run: could not spawn shell: gone".to_string())
    );
    assert_eq!(
        shf::output(ran(Some(2), "o\n", "e\n")),
        Ok(("o\n".to_string(), "e\n".to_string(), 2))
    );
    assert_eq!(
        shf::output(Err("gone".to_string())),
        Err("sh.output: could not spawn shell: gone".to_string())
    );
    let bad = ShellRun { code: Some(0), stdout: vec![b'a', 0xFF], stderr: Vec::new() };
    assert_eq!(shf::output(Ok(bad)).unwrap().0, "a\u{FFFD}");
}

#[test]
fn file_errors_name_the_operation_and_the_path() {
    assert_eq!(io_error("read", "/x", "No such file"), "read '/x': No such file");
    assert_eq!(read_trust(true), TRUSTED);
    assert_eq!(read_trust(false), TAINTED);

    let path = TaggedStr::dup("/x", TRUSTED);
    let no = || "denied".to_string();
    let s = jrt_fs_read_impl(Some(&path), true, Ok("t".to_string())).ok().unwrap();
    assert_eq!((s.text.as_str(), s.trust), ("t", TRUSTED));
    assert_eq!(
        jrt_fs_read_impl(Some(&path), false, Err(no())).err().as_deref(),
        Some("read '/x': denied")
    );
    let mut h = Heap::new();
    let w = jrt_fs_read_bytes_impl(&mut h, Some(&path), false, Ok(vec![1])).unwrap();
    assert_eq!(bytes_arg(&h, w), Some(&[1u8][..]));
    assert_eq!(
        jrt_fs_read_stdin_bytes_impl(&mut h, Err(no())),
        Err("read_stdin_bytes '<stdin>': denied".to_string())
    );
    assert_eq!(jrt_fs_size_impl(Some(&path), Ok(9)), (9, None));
    assert_eq!(jrt_fs_size_impl(None, Err(no())), (0, Some("size '': denied".to_string())));
    assert_eq!(pending("mkdir", Some(&path), Err(no())).as_deref(), Some("mkdir '/x': denied"));
    assert_eq!(pending("mkdir", Some(&path), Ok(())), None);
}

#[test]
fn the_environment_is_outside_and_the_invocation_is_not() {
    assert_eq!(jrt_env_cwd(Some("/w".to_string())).text, "/w");
    assert_eq!(jrt_env_cwd(None).text, "");
    assert_eq!(jrt_env_cwd(None).trust, TRUSTED);
    assert_eq!(jrt_env_get(Some("v".to_string())).unwrap().trust, TAINTED);
    assert!(jrt_env_get(None).is_none());
    let mut h = Heap::new();
    let a = jrt_env_args(&mut h, &["jade".to_string(), "run".to_string()]);
    assert_eq!(text_at(&h, jrt_coll_array_get(&h, a, 1)), ("run".to_string(), TRUSTED));
}

// ── What generated code calls ─────────────────────────────────────────────────

fn tainted(s: &str) -> TaggedStr {
    TaggedStr::dup(s, TAINTED)
}

#[test]
fn string_results_keep_the_trust_of_the_receiver() {
    let s = tainted(" aB ");
    let pad = TaggedStr::dup("-", TRUSTED);
    let cases = [
        (jrt_str_upper(Some(&s)), " AB "),
        (jrt_str_lower(Some(&s)), " ab "),
        (jrt_str_trim_start(Some(&s)), "aB "),
        (jrt_str_trim_end(Some(&s)), " aB"),
        (jrt_str_capitalize(Some(&s)), " ab "),
        (jrt_str_slice(Some(&s), 1, 3), "aB"),
        (jrt_str_repeat(Some(&s), 2), " aB  aB "),
        (jrt_str_pad_start(Some(&s), 6, Some(&pad)), "-- aB "),
        (jrt_str_pad_end(Some(&s), 6, Some(&pad)), " aB --"),
    ];
    for (r, want) in &cases {
        assert_eq!(r.text, *want);
        assert_eq!(r.trust, TAINTED, "{want:?}");
    }
    let padded = jrt_str_pad_end(Some(&pad), 3, Some(&s));
    assert_eq!((padded.text.as_str(), padded.trust), ("- a", TRUSTED));
    assert_eq!(jrt_str_upper(None).text, "");
    assert_eq!(jrt_str_index_of(Some(&s), Some(&TaggedStr::dup("B", TRUSTED))), 2);
    assert_eq!(jrt_str_last_index_of(Some(&s), Some(&TaggedStr::dup(" ", TRUSTED))), 3);
    assert_eq!(jrt_str_count(Some(&s), Some(&TaggedStr::dup(" ", TRUSTED))), 2);
    assert_eq!((jrt_str_is_empty(None), jrt_str_is_empty(Some(&s))), (1, 0));
}

#[test]
fn path_results_keep_the_trust_of_the_paths() {
    let p = tainted("/a/b.txt");
    let q = TaggedStr::dup("c", TRUSTED);
    assert_eq!(jrt_path_basename(Some(&p)).text, "b.txt");
    assert_eq!(jrt_path_ext(Some(&p)).unwrap().text, ".txt");
    assert!(jrt_path_ext(Some(&q)).is_none());
    assert_eq!(jrt_path_dirname(Some(&p)).text, "/a");
    assert_eq!(jrt_path_stem(Some(&p)).text, "b");
    assert_eq!(jrt_path_stem(Some(&p)).trust, TAINTED);
    let j = jrt_path_join(Some(&q), Some(&p));
    assert_eq!((j.text.as_str(), j.trust), ("/a/b.txt", TAINTED));
    let j = jrt_path_join(Some(&q), Some(&q));
    assert_eq!((j.text.as_str(), j.trust), ("c/c", TRUSTED));
    assert_eq!(jrt_path_abs(Some(&q), Some("/w")).text, "/w/c");
    assert_eq!(jrt_path_abs(Some(&q), None).text, "c", "without a directory the path stays");
    assert_eq!((jrt_path_is_abs(Some(&p)), jrt_path_is_abs(None)), (1, 0));
}

#[test]
fn requests_from_words_hand_on_the_reply_or_the_error() {
    let mut h = Heap::new();
    let headers = make_dict(&mut h, 1, "v");
    let url = TaggedStr::dup("u", TRUSTED);
    let echo = |a: &Vec<String>, b: Option<&[u8]>| {
        let mut out = a.join(" ").into_bytes();
        out.push(b'|');
        out.extend_from_slice(b.unwrap_or(b"none"));
        out.extend_from_slice(b"\nJADE_STATUS:200");
        CurlRun::Ended(Some(0), out)
    };
    let body = tainted("x");
    let runs = [
        (jrt_http_get_impl(&mut h, Some(&url), headers, &echo), "GET", "none"),
        (jrt_http_post_impl(&mut h, Some(&url), Some(&body), headers, &echo), "POST", "x"),
        (jrt_http_put_impl(&mut h, Some(&url), Some(&body), headers, &echo), "PUT", "x"),
        (jrt_http_delete_impl(&mut h, Some(&url), headers, &echo), "DELETE", "none"),
        (jrt_http_head_impl(&mut h, Some(&url), headers, &echo), "HEAD", "none"),
    ];
    for ((w, pending), method, sent) in &runs {
        assert!(pending.is_none());
        assert_eq!(jrt_coll_dict_get(&h, *w, "status"), Some(int_word(200)));
        let (text, trust) = text_at(&h, jrt_coll_dict_get(&h, *w, "body").unwrap());
        assert!(text.contains(&format!("-X {method} -H status:  -H body: v")), "{text}");
        assert!(text.ends_with(&format!("|{sent}")), "{text}");
        assert_eq!(trust, TAINTED);
    }
    let lost = |_: &Vec<String>, _: Option<&[u8]>| CurlRun::Lost;
    let (w, pending) = jrt_http_get_impl(&mut h, Some(&url), nil(), &lost);
    assert_eq!(pending.as_deref(), Some("http GET 'u': request failed (curl exit -1)"));
    assert_eq!(jrt_coll_dict_get(&h, w, "status"), Some(int_word(0)));
    let (w, _) = jrt_http_get_bytes_impl(&mut h, Some(&url), nil(), &echo);
    let b = jrt_coll_dict_get(&h, w, "body").unwrap();
    assert!(bytes_arg(&h, b).unwrap().ends_with(b"|none"));
    let blob = h.leak_obj(Obj::Bytes(BytesObj::trusted(vec![255])));
    let (w, pending) = jrt_http_post_bytes_impl(&mut h, Some(&url), blob, nil(), &echo);
    assert!(pending.is_none());
    let b = jrt_coll_dict_get(&h, w, "body").unwrap();
    assert!(bytes_arg(&h, b).unwrap().ends_with(b"|\xff"));
    let (_, pending) = jrt_http_post_bytes_impl(&mut h, Some(&url), int_word(1), nil(), &echo);
    assert_eq!(pending.as_deref(), Some("http.post_bytes expects bytes, got int"));
}

#[test]
fn shell_and_clock_results_are_tagged() {
    let (s, e) = shf::jrt_sh_exec_impl(ran(Some(0), "hi\n", ""));
    assert_eq!((s.text.as_str(), s.trust, e), ("hi", TAINTED, None));
    let (s, e) = shf::jrt_sh_exec_impl(Err("gone".to_string()));
    assert_eq!(s.text, "");
    assert_eq!(e.as_deref(), Some("sh.exec: could not spawn shell: gone"));
    assert_eq!(shf::jrt_sh_run_impl(Ok(Some(4))), (4, None));
    assert_eq!(
        shf::jrt_sh_run_impl(Err("gone".to_string())),
        (-1, Some("sh.run: could not spawn shell: gone".to_string()))
    );
    assert_eq!(jrt_time_utc(0).text, "1970-01-01T00:00:00Z");
    assert_eq!(jrt_time_utc(0).trust, TRUSTED);
    assert_eq!(jrt_time_local(Some(b"now\n")).text, "now");
    assert_eq!(jrt_time_local(None).trust, TAINTED);
}

#[test]
fn a_grammar_object_holds_what_it_was_made_of() {
    let mut h = Heap::new();
    let w = jrt_grammar_new(&mut h, None, Some("<a>".to_string()), None);
    match h.object(w) {
        Some(Obj::Grammar(g)) => {
            assert_eq!(g.pattern, "");
            assert_eq!(g.anchor.as_deref(), Some("<a>"));
            assert!(g.stop.is_none());
        }
        _ => panic!("expected a grammar"),
    }
}

#[test]
fn timestamps_sort_as_text() {
    let stamps = [-62_167_219_200i64, -1, 0, 1, 86_399, 86_400, 951_782_400, 253_402_300_799];
    let texts: Vec<String> = stamps.iter().map(|t| jade_runtime::timef::utc(*t)).collect();
    assert_eq!(texts[0], "0000-01-01T00:00:00Z");
    assert_eq!(texts[7], "9999-12-31T23:59:59Z");
    for i in 1..texts.len() {
        assert_eq!(texts[i].len(), 20);
        assert!(texts[i - 1] < texts[i]);
    }
}

#[test]
fn a_reply_holds_no_zero_character() {
    let curl = |_: &Vec<String>, _: Option<&[u8]>| {
        CurlRun::Ended(Some(0), b"a\0b\nJADE_STATUS:200".to_vec())
    };
    assert_eq!(request("GET", "u", None, &[], &curl), Ok((200, "a".to_string())));
}

#[test]
fn ascii_text_is_capitalized_letter_by_letter() {
    assert_eq!(capitalize("hELLO wORLD 1"), "Hello world 1");
    assert_eq!(capitalize(""), "");
    assert_eq!(jrt_str_capitalize(Some(&tainted("aB"))).text, "Ab");
}

#[test]
fn parsed_parts_do_not_share_cells() {
    let mut h = Heap::new();
    let w = jrt_json_parse_chunk(&mut h, "[[], []]", TRUSTED).expect("room");
    let (a, b) = (jrt_coll_array_get(&h, w, 0), jrt_coll_array_get(&h, w, 1));
    assert_ne!(a, b, "two arrays, not one twice");
    jrt_karr_push(&mut h, a, JadeValue::from_int(1).word());
    assert_eq!(jade_runtime::ffi_coll::jrt_coll_array_len(&h, b), 0);
}

#[test]
fn sorting_keeps_the_order_of_equal_keys() {
    let v: Vec<(String, usize)> = (0..1000).map(|i| (format!("{}", (i * 7) % 10), i)).collect();
    let mut want = v.clone();
    want.sort_by(|a, b| a.0.cmp(&b.0));
    assert_eq!(jade_runtime::sort::sort_by_key(v), want);
}
