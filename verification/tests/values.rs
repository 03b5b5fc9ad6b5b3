//! Values, objects, collections and the operations on them.

use jade_runtime::bytesf::{
    self, concat_trust, index_out_of_range, joined_len, jrt_bytes_from_ints, jrt_slice_any, octet,
    zeros, zeros_from, zeros_in, BytesObj, MAX_LEN,
};
use jade_runtime::coll::{hash_key, ArrayObj, DictObj, StructObj};
use jade_runtime::dynop::{binop, neg, DynErr, Kind, Op, Operand, Outcome};
use jade_runtime::ffi::{
    err_code, finish, finish_test, jrt_abi_version, jrt_core_add, jrt_core_cmp, jrt_core_div,
    jrt_core_eq, jrt_core_eq_total, jrt_core_mod, jrt_core_mul, jrt_core_neg, jrt_core_pow,
    jrt_core_sub, jrt_core_to_double, jrt_core_type_name, jrt_str_concat, jrt_to_bool, JRT_OP_DIVZERO, JRT_OP_OK,
    JRT_OP_OVERFLOW, JRT_OP_REMZERO, JRT_OP_TYPE, RUNTIME_ABI_VERSION,
};
use jade_runtime::ffi_coll::{
    jrt_coll_array_get, jrt_coll_array_len, jrt_coll_array_pop, jrt_coll_array_reverse,
    jrt_coll_array_set, jrt_coll_array_sort, jrt_coll_dict_copy, jrt_coll_dict_get,
    jrt_coll_dict_keys, jrt_coll_dict_merge, jrt_coll_dict_values, jrt_coll_len,
    jrt_coll_fs_list_dir, jrt_coll_sh_output, jrt_coll_str_split, jrt_coll_struct_get,
    jrt_coll_struct_keys, jrt_get_type_name, jrt_karr_new, jrt_karr_push, jrt_kdict_new,
    jrt_kdict_set, jrt_kind_of, jrt_kstruct_new, jrt_kstruct_set, jrt_len_chunk,
};
use jade_runtime::floatbits::{float_lt, float_neg, float_of_int, is_finite, is_nan};
use jade_runtime::gc::Heap;
use jade_runtime::handle::{self, HandleObj};
use jade_runtime::heap::{Color, ObjHeader, ObjKind};
use jade_runtime::mathf::{self, MathErr, Num, Power};
use jade_runtime::methods::resolve_status::{NOT_A_STRUCT, NO_SUCH_METHOD, OK};
use jade_runtime::methods::{
    jrt_bind_method_new, jrt_is_struct, jrt_method_lookup, jrt_method_register,
    jrt_method_resolve, jrt_struct_is_type, MethodTable,
};
use jade_runtime::num::ipow;
use jade_runtime::obj::Obj;
use jade_runtime::ops::{self, OpValue, ShiftErr};
use jade_runtime::promptf::{jrt_prompt_new, jrt_prompt_text, PromptObj};
use jade_runtime::render::{
    glyph_text, quote_key, render_array, render_bytes, render_dict, render_word, Glyph,
};
use jade_runtime::string::{trust_of, TaggedStr, IMMORTAL};
use jade_runtime::strval::{bool_of, cmp_bounded, eq_bounded, CAP};
use jade_runtime::trust::{combine, TAINTED, TRUSTED};
use jade_runtime::value::{JadeValue, INT_MAX, INT_MIN};
use jade_runtime::yields::YieldStack;

fn int_word(i: i64) -> i64 {
    JadeValue::from_int(i).word()
}

fn float_word(h: &mut Heap, d: f64) -> i64 {
    h.box_float(d.to_bits())
}

fn str_word(h: &mut Heap, s: &str, trust: u8) -> i64 {
    h.new_str(TaggedStr::dup(s, trust))
}

fn nil() -> i64 {
    JadeValue::nil().word()
}

fn text_at(h: &Heap, w: i64) -> (String, u8) {
    ops::text_of(h, JadeValue::from_word(w))
}

fn texts_at(h: &Heap, arr: i64) -> Vec<String> {
    (0..jrt_coll_array_len(h, arr)).map(|i| text_at(h, jrt_coll_array_get(h, arr, i)).0).collect()
}

fn ints_at(h: &Heap, arr: i64) -> Vec<i64> {
    (0..jrt_coll_array_len(h, arr))
        .map(|i| JadeValue::from_word(jrt_coll_array_get(h, arr, i)).as_int())
        .collect()
}

// ── Values ────────────────────────────────────────────────────────────────────

#[test]
fn words_hold_integers_of_sixty_three_bits() {
    for i in [0, 1, -1, INT_MIN, INT_MAX] {
        let v = JadeValue::from_int(i);
        assert!(v.is_int());
        assert_eq!(v.as_int(), i);
    }
    assert_eq!(JadeValue::from_int(i64::MAX).as_int(), -1, "the top bit does not fit");
}

#[test]
fn characters_and_booleans_are_words() {
    let c = JadeValue::from_char('é', TAINTED);
    assert!(c.is_char() && !c.is_str() && !c.is_int());
    assert_eq!(c.as_char(), Some('é'));
    assert_eq!(c.char_trust(), TAINTED);
    assert!(JadeValue::from_bool(true).as_bool());
    assert!(JadeValue::nil().is_nil());
}

#[test]
fn float_round_trips() {
    let mut h = Heap::new();
    for d in [0.0f64, 1.5, -3.25, 1e300, -1e-300, f64::MAX, f64::MIN] {
        let v = JadeValue::from_word(float_word(&mut h, d));
        assert!(v.is_float(), "{d} should tag as float");
        assert!(!v.is_int());
        let bits = ops::unbox_float(&h, v.as_ptr()).unwrap();
        assert_eq!(f64::from_bits(bits), d, "round-trip failed for {d}");
    }
}

#[test]
fn nan_round_trips_bitwise() {
    let mut h = Heap::new();
    let v = JadeValue::from_word(float_word(&mut h, f64::NAN));
    assert!(v.is_float());
    let bits = ops::unbox_float(&h, v.as_ptr()).unwrap();
    assert!(f64::from_bits(bits).is_nan());
    assert!(is_nan(bits));
    assert!(!is_finite(bits) && is_finite(1.5f64.to_bits()));
}

#[test]
fn boxed_pointer_is_8_aligned() {
    let mut h = Heap::new();
    let v = JadeValue::from_word(float_word(&mut h, 2.0));
    assert_eq!(v.as_ptr() & 7, 0);
}

#[test]
fn integers_convert_to_floats_like_the_machine() {
    for i in [0, 1, -1, 3, 1 << 53, (1 << 53) + 1, (1 << 53) + 3, i64::MAX, i64::MIN, -7_654_321] {
        assert_eq!(float_of_int(i), (i as f64).to_bits(), "{i}");
    }
    for (a, b) in [(1.0, 2.0), (-1.0, 1.0), (-2.0, -1.0), (0.0, -0.0), (2.5, 2.5)] {
        let (a, b): (f64, f64) = (a, b);
        assert_eq!(float_lt(a.to_bits(), b.to_bits()), a < b);
    }
    assert_eq!(float_neg(2.5f64.to_bits()), (-2.5f64).to_bits());
}

// ── Headers ───────────────────────────────────────────────────────────────────

#[test]
fn header_is_16_bytes_8_aligned() {
    assert_eq!(core::mem::size_of::<ObjHeader>(), 16);
    assert_eq!(core::mem::align_of::<ObjHeader>(), 8);
}

#[test]
fn new_header_is_live_and_black() {
    let h = ObjHeader::new(ObjKind::Array, 3);
    assert_eq!(h.rc(), 1);
    assert_eq!(h.len, 3);
    assert_eq!(h.kind, ObjKind::Array.byte());
    assert_eq!(h.color(), Color::Black.byte());
    assert!(!h.is_buffered());
}

#[test]
fn incref_decref_reaches_zero() {
    let mut h = ObjHeader::new(ObjKind::Dict, 0);
    h.incref();
    assert!(!h.decref());
    assert!(h.decref());
}

#[test]
fn incref_recolors_black() {
    let mut h = ObjHeader::new(ObjKind::Struct, 1);
    h.color = Color::Purple.byte();
    h.incref();
    assert_eq!(h.color(), Color::Black.byte());
}

// ── Strings ───────────────────────────────────────────────────────────────────

#[test]
fn a_fresh_string_is_owned_by_whoever_made_it() {
    let s = TaggedStr::new("abc".to_string(), TRUSTED);
    assert_eq!(s.rc, 1, "a producer hands back one reference");
}

#[test]
fn retain_and_release_balance() {
    let mut s = TaggedStr::new("abcd".to_string(), TRUSTED);
    s.incref();
    s.incref();
    assert_eq!(s.rc, 3);
    assert!(!s.decref());
    assert!(!s.decref());
    assert_eq!(s.rc, 1, "still held by the original owner");
    assert!(s.decref());
}

#[test]
fn a_literal_is_never_counted_and_never_freed() {
    let mut s = TaggedStr::literal("hi".to_string());
    s.incref();
    assert!(!s.decref());
    assert!(!s.decref());
    assert_eq!(s.rc, IMMORTAL, "an immortal count never moves");
    assert_eq!(trust_of(Some(&s)), TRUSTED, "and the trust byte is untouched");
}

#[test]
fn the_count_does_not_disturb_the_trust_byte() {
    let mut s = TaggedStr::new("ab".to_string(), TAINTED);
    s.incref();
    assert_eq!(trust_of(Some(&s)), TAINTED);
    assert!(!s.decref());
    assert_eq!(trust_of(Some(&s)), TAINTED);
    assert!(s.decref());
    assert!(!s.decref(), "an extra release frees nothing");
}

#[test]
fn dup_copies_and_tags() {
    let s = TaggedStr::dup("hello", TRUSTED);
    assert_eq!(s.text, "hello");
    assert_eq!(trust_of(Some(&s)), TRUSTED);
}

#[test]
fn concat_joins_and_maxes_trust() {
    let a = TaggedStr::dup("foo", TRUSTED);
    let b = TaggedStr::dup("bar", TAINTED);
    let c = TaggedStr::concat(&a, &b);
    assert_eq!(c.text, "foobar");
    assert_eq!(trust_of(Some(&c)), TAINTED);
}

#[test]
fn trust_of_null_is_trusted() {
    assert_eq!(trust_of(None), TRUSTED);
}

#[test]
fn eq_and_cmp() {
    assert!(eq_bounded("apple", "apple"));
    assert!(!eq_bounded("apple", "banana"));
    assert_eq!(cmp_bounded("apple", "apple"), 0);
    assert_eq!(cmp_bounded("apple", "banana"), -1);
    assert_eq!(cmp_bounded("banana", "apple"), 1);
    assert_eq!(cmp_bounded("apple", "ap"), 1);
    assert_eq!(cmp_bounded("ap", "apple"), -1);
}

#[test]
fn bool_of_str_matches_vm() {
    let cases = [
        ("", false),
        ("false", false),
        ("False", false),
        ("FALSE", false),
        ("true", true),
        ("t", true),
        ("0", true),
        ("false ", true),
        (" false", true),
        ("falsehood", true),
    ];
    for (s, want) in cases {
        assert_eq!(bool_of(s), want, "bool_of({s:?})");
    }
}

#[test]
fn empty_strings_compare_equal() {
    assert!(eq_bounded("", ""));
    assert_eq!(cmp_bounded("", ""), 0);
    assert_eq!(cmp_bounded("", "x"), -1);
}

#[test]
fn a_text_past_the_bound_equals_nothing() {
    let long = "a".repeat(CAP);
    assert!(!eq_bounded(&long, &long));
    assert_eq!(cmp_bounded(&long, "a"), 0);
    let short = "a".repeat(CAP - 1);
    assert!(eq_bounded(&short, &short));
}

// ── Blobs ─────────────────────────────────────────────────────────────────────

#[test]
fn bytes_carries_its_kind_and_length() {
    let b = BytesObj::trusted(vec![1, 2, 3]);
    assert_eq!(b.header.kind, ObjKind::Bytes.byte());
    assert_eq!(b.len(), 3);
    assert!(!b.is_tainted());
}

#[test]
fn a_blob_survives_a_nul_byte_and_invalid_utf8() {
    let raw = vec![b'a', 0, b'b', 0xFF, 0xFE];
    let b = BytesObj::trusted(raw.clone());
    assert_eq!(b.len(), 5, "a NUL must not terminate the payload");
    assert_eq!(b.as_slice(), &raw[..]);
    assert!(core::str::from_utf8(b.as_slice()).is_err());
}

#[test]
fn equality_ignores_trust() {
    let a = BytesObj::new(vec![7, 8], TRUSTED);
    let b = BytesObj::new(vec![7, 8], TAINTED);
    assert!(a == b, "trust is provenance, not identity");
    assert!(b.is_tainted() && !a.is_tainted());
}

#[test]
fn zeros_refuses_a_negative_length_before_allocating() {
    assert!(zeros(-1).is_err(), "a negative length cast to usize asks for 16 exabytes");
    assert_eq!(zeros(0).expect("zero is a length"), Vec::<u8>::new());
    assert_eq!(zeros(3).expect("three octets"), vec![0, 0, 0]);
}

#[test]
fn zeros_refuses_a_length_the_header_cannot_hold() {
    assert!(zeros(MAX_LEN as i64 + 1).is_err());
}

#[test]
fn an_octet_is_checked_against_its_range_and_names_its_position() {
    assert_eq!(octet(0, 255).expect("255 is an octet"), 255u8);
    assert_eq!(octet(0, 0).expect("0 is an octet"), 0u8);
    let e = octet(3, 300).expect_err("300 is not an octet");
    assert!(e.contains('3'), "names the position: {e}");
    assert!(e.contains("300"), "names the value: {e}");
    assert!(octet(0, -1).is_err(), "an octet is unsigned");
}

#[test]
fn concat_joins_the_octets_and_keeps_the_stricter_trust() {
    let clean = BytesObj::trusted(vec![1, 2]);
    let dirty = BytesObj::new(vec![3], TAINTED);
    let joined = bytesf::concat(&clean, &clean).ok().expect("joins");
    assert_eq!(joined.as_slice(), &[1, 2, 1, 2]);
    assert!(!joined.is_tainted());
    assert!(bytesf::concat(&clean, &dirty).ok().expect("joins").is_tainted(), "tainted right taints");
    assert!(bytesf::concat(&dirty, &clean).ok().expect("joins").is_tainted(), "tainted left taints");
}

#[test]
fn the_trust_rule_is_one_function_both_engines_read() {
    assert_eq!(concat_trust(TRUSTED, TRUSTED), TRUSTED);
    assert_eq!(concat_trust(TRUSTED, TAINTED), TAINTED);
    assert_eq!(concat_trust(TAINTED, TRUSTED), TAINTED);
    assert_eq!(concat_trust(TAINTED, TAINTED), TAINTED);
    assert_eq!(combine(TRUSTED, TAINTED), TAINTED);
}

#[test]
fn concat_refuses_a_result_the_header_cannot_hold() {
    assert_eq!(joined_len(2, 3).expect("small"), 5);
    assert!(joined_len(MAX_LEN, 1).is_err());
    assert!(joined_len(MAX_LEN, MAX_LEN).is_err());
    assert_eq!(joined_len(MAX_LEN, 0).expect("exactly the limit"), MAX_LEN);
}

#[test]
fn concat_builds_an_object_whose_header_matches_its_payload() {
    let out =
        bytesf::concat(&BytesObj::trusted(vec![1, 2]), &BytesObj::trusted(vec![3])).ok().expect("joins");
    assert_eq!(out.header.len as usize, out.data.len());
    assert_eq!(out.header.len, 3);
}

#[test]
fn set_writes_one_octet_and_reports_both_ways_of_missing() {
    let mut b = BytesObj::trusted(vec![0, 0, 0]);
    bytesf::set(&mut b, 1, 200).expect("in range");
    assert_eq!(b.as_slice(), &[0, 200, 0]);

    let e = bytesf::set(&mut b, 3, 1).expect_err("past the end");
    assert!(e.contains("out of bounds"), "{e}");
    assert!(bytesf::set(&mut b, -1, 1).is_err(), "a negative index is out of bounds");

    let e = bytesf::set(&mut b, 0, 256).expect_err("not an octet");
    assert!(e.contains("0 to 255"), "names the range: {e}");
    assert!(bytesf::set(&mut b, 0, -1).is_err(), "an octet is unsigned");
    assert_eq!(b.as_slice(), &[0, 200, 0], "a refused write changes nothing");
}

#[test]
fn the_bounds_message_matches_what_the_vm_prints() {
    assert_eq!(index_out_of_range(5, 3), "index 5 out of bounds (length 3)");
}

#[test]
fn an_octet_reads_back_as_an_int_in_range() {
    let b = BytesObj::trusted(vec![0, 127, 255]);
    assert_eq!(bytesf::get(&b, 0), 0);
    assert_eq!(bytesf::get(&b, 2), 255);
    assert_eq!(bytesf::get(&b, 3), -1, "out of range reports, not panics");
    assert_eq!(bytesf::get(&b, -1), -1);
}

#[test]
fn decoding_gives_encoded_text_back_and_names_the_bad_octet() {
    let b = bytesf::encode("café", TAINTED);
    assert_eq!(b.as_slice(), "café".as_bytes());
    assert!(b.is_tainted());
    assert_eq!(bytesf::decode(&b).unwrap(), "café");
    let bad = BytesObj::trusted(vec![b'o', b'k', 0xFF]);
    assert_eq!(
        bytesf::decode(&bad).unwrap_err(),
        "bytes.decode(): not valid UTF-8 at byte 2"
    );
}

#[test]
fn from_ints_takes_arrays_of_octets_only() {
    let mut h = Heap::new();
    let a = jrt_karr_new(&mut h);
    for i in [1, 2, 255] {
        jrt_karr_push(&mut h, a, int_word(i));
    }
    let w = jrt_bytes_from_ints(&mut h, a).expect("octets");
    match h.object(w) {
        Some(Obj::Bytes(b)) => {
            assert_eq!(b.as_slice(), &[1, 2, 255]);
            assert_eq!(b.trust, TRUSTED);
        }
        _ => panic!("expected a blob"),
    }
    jrt_karr_push(&mut h, a, int_word(256));
    let e = jrt_bytes_from_ints(&mut h, a).unwrap_err();
    assert_eq!(
        e,
        "bytes.from_ints(): element 3 is 256, which is not an octet in 0 to 255"
    );
    let b = jrt_karr_new(&mut h);
    jrt_karr_push(&mut h, b, nil());
    assert_eq!(
        jrt_bytes_from_ints(&mut h, b).unwrap_err(),
        "bytes.from_ints(): element 0 is not an int"
    );
    let d = jrt_kdict_new(&mut h);
    assert_eq!(
        jrt_bytes_from_ints(&mut h, d).unwrap_err(),
        "bytes.from_ints(): expected an array of ints"
    );
    assert!(jrt_bytes_from_ints(&mut h, int_word(3)).is_err());
}

#[test]
fn slicing_keeps_the_kind_and_the_trust() {
    let mut h = Heap::new();
    let s = str_word(&mut h, "café", TAINTED);
    let part = jrt_slice_any(&mut h, s, 1, 4);
    assert_eq!(text_at(&h, part), ("afé".to_string(), TAINTED));
    let b = h.leak_obj(Obj::Bytes(BytesObj::new(vec![1, 2, 3, 4], TAINTED)));
    let part = jrt_slice_any(&mut h, b, 1, 99);
    match h.object(part) {
        Some(Obj::Bytes(x)) => {
            assert_eq!(x.as_slice(), &[2, 3, 4]);
            assert_eq!(x.trust, TAINTED);
        }
        _ => panic!("expected a blob"),
    }
    assert_eq!(jrt_slice_any(&mut h, int_word(5), 0, 1), nil());
}

// ── Collections ───────────────────────────────────────────────────────────────

const SCAN: usize = 8;

#[test]
fn the_index_agrees_with_a_scan_across_the_threshold() {
    let mut d = DictObj::new();
    for i in 0..(SCAN as i64 * 40) {
        d.insert(&format!("k{i}"), i);
        assert_eq!(d.len(), (i + 1) as usize);
        for j in 0..=i {
            assert_eq!(d.get(&format!("k{j}")), Some(&j), "lost k{j} after inserting k{i}");
        }
        assert_eq!(d.get("absent"), None);
    }
}

#[test]
fn insertion_order_survives_the_index() {
    let mut d = DictObj::new();
    let n = SCAN * 3;
    for i in 0..n {
        d.insert(&format!("k{i}"), i as i64);
    }
    let order: Vec<&str> = d.entries().iter().map(|(k, _)| k.as_str()).collect();
    let want: Vec<String> = (0..n).map(|i| format!("k{i}")).collect();
    assert_eq!(order, want.iter().map(|s| s.as_str()).collect::<Vec<_>>());
}

#[test]
fn remove_keeps_the_rest_findable() {
    let mut d = DictObj::new();
    let n = SCAN * 4;
    for i in 0..n {
        d.insert(&format!("k{i}"), i as i64);
    }
    for i in (0..n).step_by(3) {
        assert_eq!(d.remove(&format!("k{i}")), Some(i as i64));
    }
    for i in 0..n {
        let want = if i % 3 == 0 { None } else { Some(i as i64) };
        assert_eq!(d.get(&format!("k{i}")), want.as_ref(), "wrong answer for k{i}");
    }
}

#[test]
fn overwriting_a_key_updates_in_place() {
    let mut d = DictObj::new();
    let n = SCAN * 5;
    for i in 0..n {
        d.insert(&format!("k{i}"), i as i64);
    }
    for i in 0..n {
        assert_eq!(d.insert(&format!("k{i}"), -(i as i64)), Some(i as i64));
    }
    assert_eq!(d.len(), n);
    for i in 0..n {
        assert_eq!(d.get(&format!("k{i}")), Some(&-(i as i64)));
    }
}

#[test]
fn value_copy_carries_a_working_index() {
    let mut d = DictObj::new();
    let n = SCAN * 3;
    for i in 0..n {
        d.insert(&format!("k{i}"), i as i64);
    }
    let mut c = d.value_copy();
    c.insert("k0", 999);
    assert_eq!(c.get("k0"), Some(&999));
    assert_eq!(d.get("k0"), Some(&0), "the copy must not write through to the source");
    for i in 1..n {
        assert_eq!(c.get(&format!("k{i}")), Some(&(i as i64)));
    }
}

#[test]
fn header_offset_zero_and_kind() {
    let a = ArrayObj::new();
    assert_eq!(a.header.kind, ObjKind::Array.byte());
    assert_eq!(a.header.len, 0);
}

#[test]
fn array_push_get_set_and_len_sync() {
    let mut a = ArrayObj::new();
    a.push(10);
    a.push(20);
    a.push(30);
    assert_eq!(a.len(), 3);
    assert_eq!(a.header.len, 3);
    assert_eq!(a.get(1), Some(&20));
    assert_eq!(a.get(3), None);
    assert!(a.set(1, 99).is_ok());
    assert_eq!(a.get(1), Some(&99));
    assert!(a.set(5, 0).is_err());
    assert_eq!(a.pop(), Some(30));
    assert_eq!(a.header.len, 2);
}

#[test]
fn dict_set_updates_in_place_and_appends() {
    let mut d = DictObj::new();
    d.set("a", 1);
    d.set("b", 2);
    d.set("a", 100);
    assert_eq!(d.len(), 2);
    assert_eq!(d.header.len, 2);
    assert_eq!(d.get("a"), Some(&100));
    assert_eq!(d.get("b"), Some(&2));
    assert_eq!(d.get("missing"), None);
    assert!(d.contains("a"));
    assert_eq!(d.remove("a"), Some(100));
    assert_eq!(d.len(), 1);
    assert_eq!(d.get("a"), None);
}

#[test]
fn dict_value_copy_is_independent() {
    let mut d = DictObj::new();
    d.set("k", 1);
    let mut d2 = d.value_copy();
    d2.set("k", 999);
    d2.set("new", 7);
    assert_eq!(d.get("k"), Some(&1));
    assert_eq!(d.get("new"), None);
    assert_eq!(d2.get("k"), Some(&999));
    assert_eq!(d2.get("new"), Some(&7));
    assert_eq!(d2.header.rc(), 1);
}

#[test]
fn struct_fields_and_type_name() {
    let mut s = StructObj::new("Point");
    s.set_field("x", 3);
    s.set_field("y", 4);
    s.set_field("x", 30);
    assert_eq!(s.struct_name(), "Point");
    assert_eq!(s.len(), 2);
    assert_eq!(s.header.len, 2);
    assert_eq!(s.get_field("x"), Some(&30));
    assert_eq!(s.get_field("y"), Some(&4));
    assert_eq!(s.get_field("z"), None);
}

#[test]
fn keys_hash_by_fnv_1a() {
    assert_eq!(hash_key(""), 0xcbf2_9ce4_8422_2325);
    assert_eq!(hash_key("a"), 0xaf63_dc4c_8601_ec8c);
    assert_eq!(hash_key("foobar"), 0x8594_4171_f739_67e8);
}

#[test]
fn array_roundtrip_through_ffi() {
    let mut h = Heap::new();
    let a = jrt_karr_new(&mut h);
    jrt_karr_push(&mut h, a, int_word(10));
    jrt_karr_push(&mut h, a, int_word(20));
    assert_eq!(jrt_kind_of(&h, a), Some(ObjKind::Array.byte() as i64));
    assert_eq!(jrt_coll_len(&h, a), Some(2));
    assert_eq!(jrt_coll_array_len(&h, a), 2);
    assert_eq!(jrt_coll_array_get(&h, a, 1), int_word(20));
    jrt_coll_array_set(&mut h, a, 0, int_word(99));
    assert_eq!(jrt_coll_array_get(&h, a, 0), int_word(99));
    assert_eq!(jrt_coll_array_get(&h, a, 7), nil());
    assert_eq!(jrt_coll_array_get(&h, a, -1), nil());
}

#[test]
fn dict_get_and_value_copy_through_ffi() {
    let mut h = Heap::new();
    let d = jrt_kdict_new(&mut h);
    let key_word = str_word(&mut h, "k", TRUSTED);
    jrt_kdict_set(&mut h, d, key_word, int_word(1));
    assert_eq!(jrt_kind_of(&h, d), Some(ObjKind::Dict.byte() as i64));
    assert_eq!(jrt_coll_dict_get(&h, d, "k"), Some(int_word(1)));
    assert_eq!(jrt_coll_dict_get(&h, d, "x"), None);

    let d2 = jrt_coll_dict_copy(&mut h, d);
    jrt_kdict_set(&mut h, d2, key_word, int_word(999));
    assert_eq!(jrt_coll_dict_get(&h, d, "k"), Some(int_word(1)));
    assert_eq!(jrt_coll_dict_get(&h, d2, "k"), Some(int_word(999)));
}

#[test]
fn struct_type_name_and_fields_through_ffi() {
    let mut h = Heap::new();
    let s = jrt_kstruct_new(&mut h, "Point");
    jrt_kstruct_set(&mut h, s, "x", int_word(7));
    assert_eq!(jrt_get_type_name(&h, s).text, "Point");
    assert_eq!(jrt_coll_struct_get(&h, s, "x"), Some(int_word(7)));
    assert_eq!(jrt_coll_struct_get(&h, s, "z"), None);
    let keys = jrt_coll_struct_keys(&mut h, s);
    assert_eq!(texts_at(&h, keys), ["x"]);
    assert_eq!(jrt_get_type_name(&h, int_word(5)).text, "");
}

#[test]
fn render_any_returns_freeable_buffer() {
    let mut h = Heap::new();
    let a = jrt_karr_new(&mut h);
    jrt_karr_push(&mut h, a, int_word(1));
    jrt_karr_push(&mut h, a, int_word(2));
    assert_eq!(glyph_text(&render_word(&h, a)).unwrap(), "[1, 2]");
}

#[test]
fn arrays_pop_reverse_and_sort() {
    let mut h = Heap::new();
    let a = jrt_karr_new(&mut h);
    for i in [3, 1, 2, 1] {
        jrt_karr_push(&mut h, a, int_word(i));
    }
    jrt_coll_array_sort(&mut h, a);
    assert_eq!(ints_at(&h, a), [1, 1, 2, 3]);
    jrt_coll_array_reverse(&mut h, a);
    assert_eq!(ints_at(&h, a), [3, 2, 1, 1]);
    assert_eq!(jrt_coll_array_pop(&mut h, a), int_word(1));
    assert_eq!(ints_at(&h, a), [3, 2, 1]);

    let s = jrt_karr_new(&mut h);
    for t in ["pear", "apple", "fig"] {
        let w = str_word(&mut h, t, TRUSTED);
        jrt_karr_push(&mut h, s, w);
    }
    jrt_coll_array_sort(&mut h, s);
    assert_eq!(texts_at(&h, s), ["apple", "fig", "pear"]);
}

#[test]
fn dicts_list_keys_and_values_by_key_and_merge_to_the_right() {
    let mut h = Heap::new();
    let a = jrt_kdict_new(&mut h);
    let b = jrt_kdict_new(&mut h);
    for (d, k, v) in [(a, "y", 1), (a, "x", 2), (b, "y", 10), (b, "z", 20)] {
        let key = str_word(&mut h, k, TRUSTED);
        jrt_kdict_set(&mut h, d, key, int_word(v));
    }
    let m = jrt_coll_dict_merge(&mut h, a, b);
    let keys = jrt_coll_dict_keys(&mut h, m);
    assert_eq!(texts_at(&h, keys), ["x", "y", "z"]);
    let values = jrt_coll_dict_values(&mut h, m);
    assert_eq!(ints_at(&h, values), [2, 10, 20]);
    assert_eq!(jrt_coll_dict_get(&h, a, "y"), Some(int_word(1)), "the inputs are untouched");
}

#[test]
fn a_container_retains_what_is_put_in_while_counting() {
    let mut h = Heap::new();
    h.jrt_rc_enable();
    let inner = jrt_karr_new(&mut h);
    let outer = jrt_karr_new(&mut h);
    jrt_karr_push(&mut h, outer, inner);
    let rc = |h: &Heap, w: i64| h.object(w).unwrap().header().rc();
    assert_eq!(rc(&h, inner), 2);
    let base = h.jrt_heap_live_count();
    h.jrt_decref(inner);
    assert_eq!(h.jrt_heap_live_count(), base, "the array still holds it");
    h.jrt_decref(outer);
    assert_eq!(h.jrt_heap_live_count(), base - 2);
}

#[test]
fn texts_from_outside_are_not_trusted() {
    let mut h = Heap::new();
    let names = jrt_coll_fs_list_dir(&mut h, &["b.txt".to_string(), "a.txt".to_string()]);
    assert_eq!(texts_at(&h, names), ["b.txt", "a.txt"]);
    assert_eq!(text_at(&h, jrt_coll_array_get(&h, names, 0)).1, TAINTED);

    let s = TaggedStr::dup("a,b,,c", TAINTED);
    let parts = jrt_coll_str_split(&mut h, &s, ",");
    assert_eq!(texts_at(&h, parts), ["a", "b", "", "c"]);
    assert_eq!(text_at(&h, jrt_coll_array_get(&h, parts, 3)).1, TAINTED);

    let d = jrt_coll_sh_output(&mut h, Some(("out".to_string(), "err".to_string(), 3)));
    let out = jrt_coll_dict_get(&h, d, "stdout").unwrap();
    assert_eq!(text_at(&h, out), ("out".to_string(), TAINTED));
    assert_eq!(jrt_coll_dict_get(&h, d, "code"), Some(int_word(3)));
    let d = jrt_coll_sh_output(&mut h, None);
    assert_eq!(jrt_coll_dict_get(&h, d, "code"), Some(int_word(-1)));
    let err = jrt_coll_dict_get(&h, d, "stderr").unwrap();
    assert_eq!(text_at(&h, err).0, "");
}

#[test]
fn len_counts_characters_and_elements() {
    let mut h = Heap::new();
    let s = str_word(&mut h, "café", TRUSTED);
    assert_eq!(jrt_len_chunk(&h, s), 4);
    assert_eq!(jrt_len_chunk(&h, JadeValue::from_char('é', TRUSTED).word()), 1);
    let a = jrt_karr_new(&mut h);
    jrt_karr_push(&mut h, a, nil());
    assert_eq!(jrt_len_chunk(&h, a), 1);
    assert_eq!(jrt_len_chunk(&h, int_word(9)), 0);
}

#[test]
fn yields_land_in_the_innermost_buffer() {
    let mut h = Heap::new();
    let mut y = YieldStack::new();
    y.jrt_yield_append(&mut h, int_word(0));
    y.jrt_yield_push(&mut h);
    y.jrt_yield_append(&mut h, int_word(1));
    y.jrt_yield_push(&mut h);
    y.jrt_yield_append(&mut h, int_word(2));
    let inner = y.jrt_yield_pop();
    y.jrt_yield_append(&mut h, int_word(3));
    assert_eq!(ints_at(&h, inner), [2]);
    assert_eq!(y.jrt_yield_depth(), 1);
    y.jrt_yield_push(&mut h);
    y.jrt_yield_truncate(1);
    let outer = y.jrt_yield_pop();
    assert_eq!(ints_at(&h, outer), [1, 3]);
    assert_eq!(y.jrt_yield_pop(), nil());
}

// ── Counting ──────────────────────────────────────────────────────────────────

fn new_array(h: &mut Heap) -> i64 {
    h.leak_obj(Obj::Array(ArrayObj::new()))
}

#[test]
fn leak_obj_increments_the_live_count() {
    let mut h = Heap::new();
    let before = h.jrt_heap_live_count();
    let _ = new_array(&mut h);
    assert!(h.jrt_heap_live_count() > before, "leak_obj must bump the live count");
}

#[test]
fn incref_then_decref_reaches_zero_and_frees() {
    let mut h = Heap::new();
    let base = h.jrt_heap_live_count();
    let w = new_array(&mut h);
    h.jrt_incref(w);
    h.jrt_decref(w);
    assert_eq!(h.jrt_heap_live_count(), base + 1, "must not free while rc > 0");
    h.jrt_decref(w);
    assert_eq!(h.jrt_heap_live_count(), base, "must free when rc hits 0");
}

#[test]
fn decref_cascades_to_owned_children() {
    let mut h = Heap::new();
    let base = h.jrt_heap_live_count();
    let cw = new_array(&mut h);
    let pw = new_array(&mut h);
    jrt_karr_push(&mut h, pw, cw);
    assert_eq!(h.jrt_heap_live_count(), base + 2);
    h.jrt_decref(pw);
    assert_eq!(h.jrt_heap_live_count(), base, "child must be reclaimed with parent");
}

#[test]
fn shared_child_freed_only_when_last_parent_drops() {
    let mut h = Heap::new();
    let base = h.jrt_heap_live_count();
    let cw = new_array(&mut h);
    h.jrt_incref(cw);
    let p1w = new_array(&mut h);
    let p2w = new_array(&mut h);
    jrt_karr_push(&mut h, p1w, cw);
    jrt_karr_push(&mut h, p2w, cw);
    assert_eq!(h.jrt_heap_live_count(), base + 3);
    h.jrt_decref(p1w);
    assert_eq!(h.jrt_heap_live_count(), base + 2, "shared child must survive");
    h.jrt_decref(p2w);
    assert_eq!(h.jrt_heap_live_count(), base, "child freed with last parent");
}

#[test]
fn self_cycle_is_not_reclaimed_by_refcounting() {
    let mut h = Heap::new();
    let base = h.jrt_heap_live_count();
    let aw = new_array(&mut h);
    jrt_karr_push(&mut h, aw, aw);
    h.jrt_incref(aw);
    h.jrt_decref(aw);
    assert_eq!(h.jrt_heap_live_count(), base + 1, "cycle survives refcounting");
}

#[test]
fn balanced_alloc_free_never_underflows() {
    let mut h = Heap::new();
    let words: Vec<i64> = (0..8).map(|_| new_array(&mut h)).collect();
    for w in words {
        h.jrt_decref(w);
    }
    assert_eq!(h.jrt_heap_live_count(), 0);
    assert_eq!(h.jrt_heap_report(), "jade-heap: 0 live object(s) at exit");
}

#[test]
fn replacing_a_slot_drops_the_old_word_only() {
    let mut h = Heap::new();
    let a = new_array(&mut h);
    let b = new_array(&mut h);
    h.jrt_rc_replace(a, a);
    assert_eq!(h.jrt_heap_live_count(), 2);
    h.jrt_rc_replace(a, b);
    assert_eq!(h.jrt_heap_live_count(), 1);
    assert!(h.object(b).is_some() && h.object(a).is_none());
}

// ── Handles, prompts and bound methods ────────────────────────────────────────

fn handle_of(ptr: usize, name: &str) -> HandleObj {
    HandleObj::new(ptr, name.to_string())
}

#[test]
fn a_handle_carries_its_kind_byte() {
    assert_eq!(handle_of(0x1000, "sqlite3").header.kind, ObjKind::Handle.byte());
}

#[test]
fn identity_covers_both_the_address_and_the_type() {
    assert!(handle_of(0x1000, "sqlite3") == handle_of(0x1000, "sqlite3"));
    assert!(handle_of(0x1000, "sqlite3") != handle_of(0x1000, "sqlite3_stmt"));
    assert!(handle_of(0x1000, "sqlite3") != handle_of(0x2000, "sqlite3"));
}

#[test]
fn rendering_names_the_type_and_never_the_address() {
    assert_eq!(handle::render(&handle_of(0xDEADBEEF, "SNDFILE")), "handle<SNDFILE>");
    assert_eq!(
        handle::render(&handle_of(0x1, "SNDFILE")),
        handle::render(&handle_of(0x2, "SNDFILE"))
    );
}

#[test]
fn null_is_recognised() {
    assert!(handle_of(0, "gzFile").is_null());
    assert!(!handle_of(0x8, "gzFile").is_null());
}

#[test]
fn type_checks_compare_the_whole_name() {
    let db = handle_of(0x10, "sqlite3");
    assert!(db.is_type("sqlite3"));
    assert!(!db.is_type("sqlite3_stmt"));
    assert!(!db.is_type("sqlite"));
}

#[test]
fn the_c_constructor_copies_the_name_and_keeps_the_pointer() {
    let name = "FT_Face".to_string();
    let h = handle_of(0x1234, &name);
    assert_eq!(h.ptr, 0x1234);
    assert!(h.is_type(&name));
    drop(name);
    assert_eq!(h.native_type(), "FT_Face");
}

#[test]
fn a_null_type_name_is_empty_rather_than_a_read_of_null() {
    let h = handle_of(0, &jade_runtime::cstr::to_string(None));
    assert_eq!(h.native_type(), "");
    assert_eq!(handle::render(&h), "handle<>");
}

#[test]
fn a_prompt_carries_its_kind_and_gives_its_text_back() {
    let mut h = Heap::new();
    let text = str_word(&mut h, "hello", TRUSTED);
    let obj = PromptObj::new(text);
    assert_eq!(obj.header.kind, ObjKind::Prompt.byte());
    assert_eq!(obj.text, text);
    let p = jrt_prompt_new(&mut h, text);
    assert_eq!(jrt_prompt_text(&h, p), text);
}

#[test]
fn unwrapping_a_non_prompt_is_the_identity() {
    let mut h = Heap::new();
    let plain = str_word(&mut h, "not a prompt", TRUSTED);
    assert_eq!(jrt_prompt_text(&h, plain), plain);
    assert_eq!(jrt_prompt_text(&h, int_word(7)), int_word(7));
}

const DUMMY: usize = 0x4000;

fn struct_word(h: &mut Heap, name: &str) -> i64 {
    jrt_kstruct_new(h, name)
}

fn table(pairs: &[(&str, &str)]) -> MethodTable {
    let mut t = MethodTable::new();
    for (ty, m) in pairs {
        jrt_method_register(&mut t, ty, m, DUMMY);
    }
    t
}

#[test]
fn binding_captures_the_implementation_and_the_receiver() {
    let mut h = Heap::new();
    let t = table(&[("BM_greeter", "greet")]);
    let recv = struct_word(&mut h, "BM_greeter");
    let b = jrt_bind_method_new(&t, &mut h, recv, "greet").expect("binds");
    match h.object(b) {
        Some(Obj::Bound(bm)) => {
            assert_eq!(bm.fn_ptr, DUMMY);
            assert_eq!(bm.self_word, recv, "the receiver is what will be passed as self");
            assert_eq!(bm.header.kind, ObjKind::BoundMethod.byte());
        }
        _ => panic!("expected a bound method"),
    }
}

#[test]
fn binding_retains_the_receiver() {
    let mut h = Heap::new();
    let t = table(&[("BM_ret", "m")]);
    let recv = struct_word(&mut h, "BM_ret");
    let before = h.object(recv).unwrap().header().rc();
    assert!(jrt_bind_method_new(&t, &mut h, recv, "m").is_some());
    let after = h.object(recv).unwrap().header().rc();
    assert_eq!(after, before + 1, "the bound method takes a reference");
}

#[test]
fn releasing_a_bound_method_frees_it_and_its_receiver() {
    let mut h = Heap::new();
    let t = table(&[("BM_bal", "m")]);
    let before = h.jrt_heap_live_count();
    let recv = struct_word(&mut h, "BM_bal");
    let bw = jrt_bind_method_new(&t, &mut h, recv, "m").expect("binds");
    assert_eq!(h.jrt_heap_live_count(), before + 2, "receiver + bound method");
    h.jrt_decref(recv);
    assert_eq!(h.jrt_heap_live_count(), before + 2, "the binding still holds it");
    h.jrt_decref(bw);
    assert_eq!(h.jrt_heap_live_count(), before, "both reclaimed");
}

#[test]
fn an_unknown_method_does_not_bind() {
    let mut h = Heap::new();
    let t = table(&[("BM_known", "yes")]);
    let recv = struct_word(&mut h, "BM_known");
    assert!(jrt_bind_method_new(&t, &mut h, recv, "no").is_none());
    assert_eq!(jrt_method_resolve(&t, &h, recv, "no"), (NO_SUCH_METHOD, None));
    assert_eq!(jrt_method_resolve(&t, &h, recv, "yes"), (OK, Some(DUMMY)));
}

#[test]
fn a_method_of_a_different_type_does_not_bind() {
    let mut h = Heap::new();
    let t = table(&[("BM_dog", "bark"), ("BM_cat", "meow")]);
    let recv = struct_word(&mut h, "BM_cat");
    assert!(jrt_bind_method_new(&t, &mut h, recv, "bark").is_none());
    let name = str_word(&mut h, "BM_dog", TRUSTED);
    assert_eq!(jrt_method_lookup(&t, &h, name, "bark"), Some(DUMMY));
    assert_eq!(jrt_struct_is_type(&h, recv, "BM_cat"), 1);
    assert_eq!(jrt_struct_is_type(&h, recv, "BM_dog"), 0);
}

#[test]
fn a_non_struct_receiver_does_not_bind() {
    let mut h = Heap::new();
    let t = table(&[("BM_ns", "m")]);
    assert!(jrt_bind_method_new(&t, &mut h, int_word(7), "m").is_none());
    assert!(jrt_bind_method_new(&t, &mut h, nil(), "m").is_none());
    assert_eq!(jrt_method_resolve(&t, &h, int_word(7), "m"), (NOT_A_STRUCT, None));
    assert_eq!(jrt_is_struct(&h, int_word(7)), 0);
}

// ── Dynamic operations ────────────────────────────────────────────────────────

fn fl(d: f64) -> Kind {
    Kind::Float(d.to_bits())
}

/// The float a float operation comes to.
fn floated(o: Outcome) -> f64 {
    let f = |x: Operand| match x {
        Operand::Int(i) => i as f64,
        Operand::Float(b) => f64::from_bits(b),
    };
    match o {
        Outcome::Float(b) => f64::from_bits(b),
        Outcome::FloatArith(Op::Add, a, b) => f(a) + f(b),
        Outcome::FloatArith(Op::Sub, a, b) => f(a) - f(b),
        Outcome::FloatArith(Op::Mul, a, b) => f(a) * f(b),
        Outcome::FloatArith(Op::Div, a, b) => f(a) / f(b),
        Outcome::FloatArith(Op::Mod, a, b) => f(a) % f(b),
        other => panic!("not a float: {other:?}"),
    }
}

#[test]
fn int_arithmetic_overflow_checked() {
    assert_eq!(binop(Op::Add, Kind::Int(2), Kind::Int(3)), Outcome::Int(5));
    assert_eq!(
        binop(Op::Add, Kind::Int(i64::MAX), Kind::Int(1)),
        Outcome::Fail(DynErr::Overflow)
    );
    assert_eq!(
        binop(Op::Mul, Kind::Int(i64::MAX), Kind::Int(2)),
        Outcome::Fail(DynErr::Overflow)
    );
}

#[test]
fn mixed_int_float_promotes() {
    assert_eq!(floated(binop(Op::Add, Kind::Int(2), fl(0.5))), 2.5);
    assert_eq!(floated(binop(Op::Mul, fl(2.0), Kind::Int(3))), 6.0);
}

#[test]
fn bool_is_not_numeric() {
    assert_eq!(binop(Op::Add, Kind::Bool(true), Kind::Int(1)), Outcome::Fail(DynErr::Type));
    assert_eq!(binop(Op::Lt, Kind::Int(1), Kind::Bool(true)), Outcome::Fail(DynErr::Type));
    assert_eq!(neg(Kind::Bool(true)), Outcome::Fail(DynErr::Type));
}

#[test]
fn equality_requires_matching_kinds() {
    assert_eq!(binop(Op::Eq, Kind::Int(2), Kind::Int(2)), Outcome::Bool(true));
    assert_eq!(binop(Op::Eq, Kind::Int(2), fl(2.0)), Outcome::Fail(DynErr::Type));
    assert_eq!(binop(Op::Eq, Kind::Nil, Kind::Nil), Outcome::Bool(true));
    assert_eq!(binop(Op::Eq, Kind::Nil, Kind::Int(1)), Outcome::Bool(false));
    assert_eq!(binop(Op::Ne, Kind::Nil, Kind::Int(1)), Outcome::Bool(true));
}

#[test]
fn ordering_allows_int_float_and_bool() {
    assert_eq!(binop(Op::Lt, Kind::Int(1), fl(1.5)), Outcome::Bool(true));
    assert_eq!(binop(Op::Ge, fl(2.0), Kind::Int(2)), Outcome::Bool(true));
    assert_eq!(binop(Op::Lt, Kind::Bool(false), Kind::Bool(true)), Outcome::Bool(true));
    assert_eq!(binop(Op::Lt, Kind::Int(0), Kind::Bool(true)), Outcome::Fail(DynErr::Type));
}

#[test]
fn div_mod_by_zero() {
    assert_eq!(binop(Op::Div, Kind::Int(1), Kind::Int(0)), Outcome::Fail(DynErr::DivZero));
    assert_eq!(binop(Op::Mod, Kind::Int(1), Kind::Int(0)), Outcome::Fail(DynErr::RemZero));
    assert_eq!(binop(Op::Div, fl(1.0), Kind::Int(0)), Outcome::Fail(DynErr::DivZero));
}

#[test]
fn string_directives() {
    assert_eq!(binop(Op::Add, Kind::Str, Kind::Str), Outcome::Concat);
    assert_eq!(binop(Op::Lt, Kind::Str, Kind::Str), Outcome::StrRel);
    assert_eq!(binop(Op::Eq, Kind::Str, Kind::Str), Outcome::StrRel);
    assert_eq!(binop(Op::Add, Kind::Str, Kind::Int(1)), Outcome::Fail(DynErr::Type));
    assert_eq!(binop(Op::Eq, Kind::Str, Kind::Int(1)), Outcome::Fail(DynErr::Type));
    assert_eq!(binop(Op::Eq, Kind::Str, Kind::Nil), Outcome::Bool(false));
}

fn i(n: i64) -> JadeValue {
    JadeValue::from_int(n)
}

fn boxed(h: &mut Heap, d: f64) -> JadeValue {
    JadeValue::from_word(float_word(h, d))
}

#[test]
fn int_arithmetic_stays_int() {
    let mut h = Heap::new();
    assert_eq!(ops::add(&mut h, i(2), i(3)).unwrap().as_int(), 5);
    assert_eq!(ops::sub(&mut h, i(2), i(3)).unwrap().as_int(), -1);
    assert_eq!(ops::mul(&mut h, i(4), i(5)).unwrap().as_int(), 20);
    assert_eq!(ops::div(&mut h, i(7), i(2)).unwrap().as_int(), 3);
    assert_eq!(ops::rem(&mut h, i(7), i(2)).unwrap().as_int(), 1);
    assert_eq!(ops::neg(&mut h, i(9)).unwrap().as_int(), -9);
}

#[test]
fn mixed_promotes_to_float() {
    let mut h = Heap::new();
    let half = boxed(&mut h, 0.5);
    match ops::add(&mut h, i(2), half).unwrap() {
        OpValue::FloatArith(op, a, b) => {
            assert_eq!(floated(Outcome::FloatArith(op, a, b)), 2.5);
        }
        _ => panic!("expected float arithmetic"),
    }
}

#[test]
fn strict_semantics_error() {
    let mut h = Heap::new();
    let two = boxed(&mut h, 2.0);
    assert_eq!(ops::add(&mut h, JadeValue::from_bool(true), i(1)).err(), Some(DynErr::Type));
    assert_eq!(ops::eq(&h, i(2), two), Err(DynErr::Type));
    assert_eq!(ops::neg(&mut h, JadeValue::from_bool(true)).err(), Some(DynErr::Type));
}

#[test]
fn div_and_mod_by_zero_error() {
    let mut h = Heap::new();
    assert_eq!(ops::div(&mut h, i(1), i(0)).err(), Some(DynErr::DivZero));
    assert_eq!(ops::rem(&mut h, i(1), i(0)).err(), Some(DynErr::RemZero));
}

#[test]
fn equality_and_ordering() {
    let mut h = Heap::new();
    let three = boxed(&mut h, 3.0);
    assert_eq!(ops::eq(&h, i(2), i(2)).unwrap(), 1);
    assert_eq!(ops::eq(&h, i(2), i(3)).unwrap(), 0);
    assert_eq!(ops::eq(&h, JadeValue::nil(), i(1)).unwrap(), 0);
    assert_eq!(ops::cmp(&h, i(2), i(5)).unwrap(), -1);
    assert_eq!(ops::cmp(&h, i(5), i(2)).unwrap(), 1);
    assert_eq!(ops::cmp(&h, i(3), three).unwrap(), 0);
    assert_eq!(ops::cmp(&h, i(1), JadeValue::from_bool(true)), Err(DynErr::Type));
}

#[test]
fn truthiness() {
    let mut h = Heap::new();
    let zero = boxed(&mut h, 0.0);
    assert_eq!(ops::to_bool(&h, i(0)), 0);
    assert_eq!(ops::to_bool(&h, i(5)), 1);
    assert_eq!(ops::to_bool(&h, JadeValue::nil()), 0);
    assert_eq!(ops::to_bool(&h, zero), 0);
}

#[test]
fn eq_total_answers_false_where_eq_raises() {
    let mut h = Heap::new();
    let one = boxed(&mut h, 1.0);
    assert!(ops::eq_total(&h, i(2), i(2)));
    assert!(!ops::eq_total(&h, i(2), i(3)));
    assert!(ops::eq_total(&h, JadeValue::nil(), JadeValue::nil()));
    for (a, b) in [(i(1), JadeValue::from_bool(true)), (i(1), one)] {
        assert_eq!(ops::eq(&h, a, b), Err(DynErr::Type), "expected `==` to reject");
        assert!(!ops::eq_total(&h, a, b), "membership must answer, not raise");
    }
    assert_eq!(ops::eq(&h, JadeValue::nil(), i(0)), Ok(0));
    assert!(!ops::eq_total(&h, JadeValue::nil(), i(0)));
}

#[test]
fn eq_total_does_not_coerce_numerics() {
    let mut h = Heap::new();
    let a = boxed(&mut h, 1.0);
    let b = boxed(&mut h, 1.0);
    assert!(!ops::eq_total(&h, i(1), a));
    assert!(ops::eq_total(&h, a, b));
}

#[test]
fn adding_texts_joins_them_and_their_trust() {
    let mut h = Heap::new();
    let a = JadeValue::from_word(str_word(&mut h, "foo", TRUSTED));
    let b = JadeValue::from_word(str_word(&mut h, "bar", TAINTED));
    match ops::add(&mut h, a, b).unwrap() {
        OpValue::Word(w) => assert_eq!(text_at(&h, w.word()), ("foobar".to_string(), TAINTED)),
        _ => panic!("expected a word"),
    }
    let c = JadeValue::from_char('!', TRUSTED);
    match ops::add(&mut h, a, c).unwrap() {
        OpValue::Word(w) => assert_eq!(text_at(&h, w.word()), ("foo!".to_string(), TRUSTED)),
        _ => panic!("expected a word"),
    }
}

#[test]
fn integers_that_no_word_holds_overflow() {
    let mut h = Heap::new();
    assert_eq!(ops::add(&mut h, i(INT_MAX), i(1)).err(), Some(DynErr::Overflow));
    assert_eq!(ops::mul(&mut h, i(INT_MAX), i(2)).err(), Some(DynErr::Overflow));
}

#[test]
fn shifts_check_their_amount_and_their_result() {
    assert_eq!(ops::shl(3, 4), Ok(48));
    assert_eq!(ops::shl(1, 64), Err(ShiftErr::Amount(64)));
    assert_eq!(ops::shl(1, 62), Err(ShiftErr::Overflow));
    assert_eq!(ops::shr(-5, 1), Ok(-3));
    assert_eq!(ops::shr(1, -1), Err(ShiftErr::Amount(-1)));
}

#[test]
fn outcomes_have_codes() {
    assert_eq!(err_code(DynErr::DivZero), JRT_OP_DIVZERO);
    assert_eq!(err_code(DynErr::Type), JRT_OP_TYPE);
    assert_eq!(err_code(DynErr::Overflow), JRT_OP_OVERFLOW);
    assert_eq!(err_code(DynErr::RemZero), JRT_OP_REMZERO);
    let mut h = Heap::new();
    let (v, code) = finish(ops::add(&mut h, i(2), i(3)));
    assert_eq!((v.unwrap().as_int(), code), (5, JRT_OP_OK));
    let (v, code) = finish(ops::div(&mut h, i(2), i(0)));
    assert!(v.is_none() && code == JRT_OP_DIVZERO);
    assert_eq!(finish_test(ops::cmp(&h, i(2), i(3))), (-1, JRT_OP_OK));
    assert_eq!(finish_test(ops::cmp(&h, i(2), JadeValue::nil())), (0, JRT_OP_TYPE));
    assert_eq!(jrt_abi_version(), RUNTIME_ABI_VERSION);
}

#[test]
fn operand_errors_name_the_type() {
    let mut h = Heap::new();
    let f = float_word(&mut h, 1.5);
    let s = str_word(&mut h, "x", TRUSTED);
    let a = jrt_karr_new(&mut h);
    let p = jrt_prompt_new(&mut h, s);
    assert_eq!(jrt_core_type_name(&h, int_word(1)), "int");
    assert_eq!(jrt_core_type_name(&h, f), "float");
    assert_eq!(jrt_core_type_name(&h, s), "str");
    assert_eq!(jrt_core_type_name(&h, nil()), "nil");
    assert_eq!(jrt_core_type_name(&h, JadeValue::from_bool(true).word()), "bool");
    assert_eq!(jrt_core_type_name(&h, a), "array");
    assert_eq!(jrt_core_type_name(&h, p), "value");
}

// ── Numbers ───────────────────────────────────────────────────────────────────

#[test]
fn matches_reference_cases() {
    assert_eq!(ipow(2, 10), 1024);
    assert_eq!(ipow(3, 0), 1);
    assert_eq!(ipow(5, 1), 5);
    assert_eq!(ipow(10, 3), 1000);
    assert_eq!(ipow(-2, 3), -8);
    assert_eq!(ipow(-2, 4), 16);
}

#[test]
fn negative_exponent_is_zero() {
    assert_eq!(ipow(2, -1), 0);
    assert_eq!(ipow(7, -5), 0);
}

#[test]
fn zero_base() {
    assert_eq!(ipow(0, 5), 0);
    assert_eq!(ipow(0, 0), 1);
}

fn num(d: f64) -> Num {
    Num::Float(d.to_bits())
}

fn powered(p: Power) -> Num {
    match p {
        Power::Int(i) => Num::Int(i),
        Power::Powi(b, e) => num(f64::from_bits(b).powi(e)),
        Power::Powf(b, e) => num(f64::from_bits(b).powf(f64::from_bits(e))),
    }
}

#[test]
fn floor_ceil_abs_preserve_kind() {
    assert_eq!(mathf::floor(num(3.7)), Num::Int(3));
    assert_eq!(mathf::floor(Num::Int(5)), Num::Int(5));
    assert_eq!(mathf::ceil(num(3.2)), Num::Int(4));
    assert_eq!(mathf::abs(Num::Int(-4)), Ok(Num::Int(4)));
    assert_eq!(mathf::abs(num(-2.5)), Ok(num(2.5)));
}

#[test]
fn floor_and_ceil_agree_with_the_machine() {
    for d in [0.0, -0.5, 0.5, 1.0, -1.0, 2.999, -2.001, 1e15 + 0.5, -1e15 - 0.5, 1e300, -1e300] {
        assert_eq!(mathf::floor(num(d)), Num::Int((d as f64).floor() as i64), "floor {d}");
        assert_eq!(mathf::ceil(num(d)), Num::Int((d as f64).ceil() as i64), "ceil {d}");
    }
    assert_eq!(mathf::floor(num(f64::NAN)), Num::Int(0));
    assert_eq!(mathf::floor(num(f64::INFINITY)), Num::Int(i64::MAX));
}

#[test]
fn pow_int_and_float() {
    let p = |a, b| mathf::pow(a, b).map(powered);
    assert_eq!(p(Num::Int(2), Num::Int(10)), Ok(Num::Int(1024)));
    assert_eq!(p(Num::Int(2), Num::Int(-1)), Ok(num(0.5)));
    assert_eq!(p(num(2.0), Num::Int(3)), Ok(num(8.0)));
    assert_eq!(p(num(4.0), num(0.5)), Ok(num(2.0)));
}

#[test]
fn int_pow_overflow_is_an_error_not_a_wrap_or_a_panic() {
    assert_eq!(mathf::pow(Num::Int(2), Num::Int(64)), Err(MathErr::Overflow));
    assert_eq!(mathf::pow(Num::Int(2), Num::Int(i64::MAX)), Err(MathErr::Overflow));
    assert!(matches!(
        mathf::pow(num(2.0), Num::Int(4096)).map(powered),
        Ok(Num::Float(_))
    ));
}

#[test]
fn abs_of_i64_min_is_an_error() {
    assert_eq!(mathf::abs(Num::Int(i64::MIN)), Err(MathErr::Overflow));
}

#[test]
fn min_max_kind_preservation() {
    assert_eq!(mathf::min(Num::Int(3), Num::Int(7)), Num::Int(3));
    assert_eq!(mathf::max(Num::Int(3), num(7.5)), num(7.5));
    assert!(matches!(mathf::min(Num::Int(1), num(2.0)), Num::Float(_)));
}

#[test]
fn word_wrappers_round_trip_through_the_cores() {
    let mut h = Heap::new();
    let f = float_word(&mut h, 3.7);
    let floor = mathf::floor(mathf::to_num(&h, f).unwrap());
    assert_eq!(mathf::from_num(&mut h, floor), int_word(3));
    let f = float_word(&mut h, 3.2);
    let ceil = mathf::ceil(mathf::to_num(&h, f).unwrap());
    assert_eq!(mathf::from_num(&mut h, ceil), int_word(4));
    let a = mathf::to_num(&h, int_word(3)).unwrap();
    let b = mathf::to_num(&h, int_word(7)).unwrap();
    assert_eq!(mathf::from_num(&mut h, mathf::min(a, b)), int_word(3));
    let n = mathf::abs(mathf::to_num(&h, int_word(-4)).unwrap()).unwrap();
    assert_eq!(mathf::from_num(&mut h, n), int_word(4));
    let p = mathf::pow(
        mathf::to_num(&h, int_word(2)).unwrap(),
        mathf::to_num(&h, int_word(10)).unwrap(),
    )
    .map(powered)
    .unwrap();
    assert_eq!(mathf::from_num(&mut h, p), int_word(1024));
}

#[test]
fn word_wrappers_report_overflow() {
    let h = Heap::new();
    let a = mathf::to_num(&h, int_word(2)).unwrap();
    let b = mathf::to_num(&h, int_word(64)).unwrap();
    assert_eq!(mathf::pow(a, b), Err(MathErr::Overflow));
}

#[test]
fn i64_min_is_not_representable_as_a_word() {
    assert!(JadeValue::try_from_int(i64::MIN).is_none());
    assert!(JadeValue::try_from_int(INT_MIN).is_some());
    assert!(JadeValue::try_from_int(INT_MAX).is_some());
    assert!(JadeValue::try_from_int(INT_MAX + 1).is_none());
    assert_eq!(mathf::abs(Num::Int(i64::MIN)), Err(MathErr::Overflow));
}

// ── Rendering ─────────────────────────────────────────────────────────────────

fn shown(h: &Heap, w: i64) -> String {
    glyph_text(&render_word(h, w)).expect("no floats")
}

#[test]
fn scalar_words_render() {
    let mut h = Heap::new();
    assert_eq!(shown(&h, int_word(42)), "42");
    assert_eq!(shown(&h, int_word(-7)), "-7");
    assert_eq!(shown(&h, JadeValue::from_bool(true).word()), "true");
    assert_eq!(shown(&h, JadeValue::from_bool(false).word()), "false");
    assert_eq!(shown(&h, nil()), "nil");
    let f = float_word(&mut h, 1.5);
    let g = render_word(&h, f);
    assert_eq!(g.len(), 1);
    match g[0] {
        Glyph::Float(b) => assert_eq!(format!("{}", f64::from_bits(b)), "1.5"),
        _ => panic!("expected a float"),
    }
}

#[test]
fn array_word_renders_recursively() {
    let mut h = Heap::new();
    let inner = jrt_karr_new(&mut h);
    jrt_karr_push(&mut h, inner, int_word(1));
    jrt_karr_push(&mut h, inner, int_word(2));
    let outer = jrt_karr_new(&mut h);
    jrt_karr_push(&mut h, outer, inner);
    jrt_karr_push(&mut h, outer, int_word(3));
    assert_eq!(shown(&h, outer), "[[1, 2], 3]");
}

#[test]
fn dict_word_renders_sorted_and_quoted() {
    let mut h = Heap::new();
    let d = jrt_kdict_new(&mut h);
    for (k, v) in [("b", 2), ("a", 1)] {
        let key = str_word(&mut h, k, TRUSTED);
        jrt_kdict_set(&mut h, d, key, int_word(v));
    }
    assert_eq!(shown(&h, d), r#"{"a": 1, "b": 2}"#);
}

#[test]
fn struct_word_is_opaque() {
    let mut h = Heap::new();
    let s = jrt_kstruct_new(&mut h, "Point");
    assert_eq!(shown(&h, s), "<struct>");
}

#[test]
fn keys_and_octets_are_quoted() {
    assert_eq!(quote_key("a\"b\n"), r#""a\"b\n""#);
    assert_eq!(render_array(&["1".to_string(), "x".to_string()]), "[1, x]");
    assert_eq!(render_bytes(&[b'a', 0, b'"', 0xFF]), r#"b"a\x00\"\xff""#);
}

// ── Words and codes ───────────────────────────────────────────────────────────

fn worked(out: (Option<OpValue>, u32)) -> i64 {
    assert_eq!(out.1, JRT_OP_OK);
    match out.0 {
        Some(OpValue::Word(v)) => v.as_int(),
        _ => panic!("expected a word"),
    }
}

#[test]
fn core_operations_report_a_code() {
    let mut h = Heap::new();
    let (a, b, z) = (int_word(7), int_word(-2), int_word(0));
    assert_eq!(worked(jrt_core_add(&mut h, a, b)), 5);
    assert_eq!(worked(jrt_core_sub(&mut h, a, b)), 9);
    assert_eq!(worked(jrt_core_mul(&mut h, a, b)), -14);
    assert_eq!(worked(jrt_core_div(&mut h, a, b)), -3);
    assert_eq!(worked(jrt_core_mod(&mut h, a, b)), 1);
    assert_eq!(worked(jrt_core_pow(&h, a, int_word(2))), 49);
    assert_eq!(worked(jrt_core_neg(&mut h, a)), -7);
    assert_eq!(jrt_core_div(&mut h, a, z).1, JRT_OP_DIVZERO);
    assert_eq!(jrt_core_mod(&mut h, a, z).1, JRT_OP_REMZERO);
    assert_eq!(jrt_core_sub(&mut h, a, nil()).1, JRT_OP_TYPE);
    assert_eq!(jrt_core_neg(&mut h, int_word(INT_MIN)).1, JRT_OP_OVERFLOW);
    assert_eq!(jrt_core_cmp(&h, a, b), (1, JRT_OP_OK));
    assert_eq!(jrt_core_cmp(&h, a, nil()), (0, JRT_OP_TYPE));
    assert_eq!(jrt_core_eq(&h, a, a), (1, JRT_OP_OK));
    let f = float_word(&mut h, 7.0);
    assert_eq!(jrt_core_eq(&h, a, f), (0, JRT_OP_TYPE));
    assert_eq!((jrt_core_eq_total(&h, a, f), jrt_core_eq_total(&h, a, a)), (0, 1));
    assert_eq!(jrt_core_to_double(&h, a), (Some(Operand::Int(7)), JRT_OP_OK));
    assert_eq!(jrt_core_to_double(&h, nil()), (None, JRT_OP_TYPE));
    assert_eq!((jrt_to_bool(&h, z), jrt_to_bool(&h, a)), (0, 1));
    let s = TaggedStr::dup("a", TAINTED);
    let both = jrt_str_concat(Some(&s), None);
    assert_eq!((both.text.as_str(), both.trust), ("a", TAINTED));
}

#[test]
fn math_on_words_keeps_the_kind() {
    let mut h = Heap::new();
    let f = float_word(&mut h, 2.5);
    assert_eq!(mathf::jrt_math_floor(&mut h, f), Some(int_word(2)));
    assert_eq!(mathf::jrt_math_ceil(&mut h, f), Some(int_word(3)));
    assert_eq!(mathf::jrt_math_floor(&mut h, nil()), None);
    assert_eq!(mathf::jrt_math_abs(&mut h, int_word(-4)), (Some(int_word(4)), mathf::JRT_MATH_OK));
    assert_eq!(mathf::jrt_math_min(&mut h, int_word(2), int_word(3)), Some(int_word(2)));
    let m = mathf::jrt_math_max(&mut h, int_word(2), f).unwrap();
    assert_eq!(mathf::to_num(&h, m), Some(Num::Float(2.5f64.to_bits())));
    assert_eq!(
        mathf::jrt_math_pow(&h, int_word(2), int_word(10)),
        (Some(Power::Int(1024)), mathf::JRT_MATH_OK)
    );
    assert_eq!(
        mathf::jrt_math_pow(&h, int_word(2), int_word(64)),
        (None, mathf::JRT_MATH_OVERFLOW)
    );
}

#[test]
fn blobs_by_word() {
    let mut h = Heap::new();
    let a = bytesf::jrt_bytes_new(&mut h, &[104, 105], TAINTED);
    assert_eq!(bytesf::jrt_bytes_len(&h, a), 2);
    assert_eq!((bytesf::jrt_bytes_get(&h, a, 1), bytesf::jrt_bytes_get(&h, a, 2)), (105, -1));
    assert_eq!(bytesf::jrt_bytes_trust(&h, a), TAINTED);
    let s = bytesf::jrt_bytes_decode(&h, a).ok().unwrap();
    assert_eq!((s.text.as_str(), s.trust), ("hi", TAINTED));
    let e = bytesf::jrt_bytes_encode(&mut h, Some(&TaggedStr::dup("é", TRUSTED)));
    assert_eq!(bytesf::jrt_bytes_len(&h, e), 2);
    let c = bytesf::jrt_bytes_concat(&mut h, e, a).ok().unwrap();
    assert_eq!((bytesf::jrt_bytes_len(&h, c), bytesf::jrt_bytes_trust(&h, c)), (4, TAINTED));
    let part = bytesf::jrt_bytes_slice(&mut h, c, 1, 99);
    assert_eq!(bytesf::jrt_bytes_len(&h, part), 3);
    assert_eq!(
        bytesf::jrt_bytes_decode(&h, part).err().unwrap(),
        "bytes.decode(): not valid UTF-8 at byte 0"
    );
    let z = bytesf::jrt_bytes_zeros(&mut h, 3).unwrap();
    assert_eq!(bytesf::jrt_bytes_get(&h, z, 2), 0);
    assert!(bytesf::jrt_bytes_zeros(&mut h, -1).is_err());
    assert_eq!(bytesf::jrt_bytes_set(&mut h, z, 2, 9), (1, None));
    assert_eq!(bytesf::jrt_bytes_get(&h, z, 2), 9);
    assert_eq!(bytesf::jrt_bytes_set(&mut h, z, 3, 9).0, 0);
    assert_eq!(bytesf::jrt_bytes_set(&mut h, z, 0, 256).0, 0);
}

#[test]
fn handles_by_word() {
    let mut h = Heap::new();
    let w = handle::jrt_handle_new(&mut h, 64, Some(b"sqlite3\xff\0junk"));
    assert_eq!(handle::jrt_handle_ptr(&h, w), 64);
    assert_eq!(handle::jrt_handle_type(&h, w), "sqlite3");
    assert_eq!(handle::jrt_handle_is_type(&h, w, Some("sqlite3")), 1);
    assert_eq!(handle::jrt_handle_is_type(&h, w, Some("sqlite")), 0);
    assert_eq!(handle::jrt_handle_is_type(&h, w, None), 0);
}

#[test]
fn zeros_follow_the_reservation() {
    assert_eq!(zeros_in(2, Some(vec![9])), Ok(vec![0, 0]));
    assert_eq!(zeros_in(2, None), Err("bytes.zeros(): cannot allocate 2 octets".to_string()));
    let asked = std::cell::RefCell::new(Vec::new());
    let reserve = |n: usize| {
        asked.borrow_mut().push(n);
        if n < 10 { Some(Vec::new()) } else { None }
    };
    assert_eq!(zeros_from(3, &reserve), Ok(vec![0, 0, 0]));
    assert!(zeros_from(10, &reserve).is_err());
    assert!(zeros_from(-1, &reserve).is_err());
    assert!(zeros_from(MAX_LEN as i64 + 1, &reserve).is_err());
    assert_eq!(*asked.borrow(), [3, 10], "nothing is asked for where the length is refused");
    let mut h = Heap::new();
    assert!(bytesf::jrt_bytes_zeros_from(&mut h, 10, &reserve).is_err());
    let w = bytesf::jrt_bytes_zeros_from(&mut h, 1, &reserve).expect("room");
    assert_eq!(bytesf::jrt_bytes_len(&h, w), 1);
    assert!(bytesf::jrt_bytes_zeros(&mut h, 0).is_ok());
}

#[test]
fn a_string_ends_at_its_first_zero_character() {
    let mut h = Heap::new();
    let s = TaggedStr::dup("a\0b", TAINTED);
    assert_eq!(s.text, "a");
    let w = str_word(&mut h, "a\0b", TRUSTED);
    assert_eq!(jrt_len_chunk(&h, w), 1);
    let e = bytesf::jrt_bytes_encode(&mut h, Some(&s));
    assert_eq!(bytesf::jrt_bytes_len(&h, e), 1);
    let blob = bytesf::jrt_bytes_new(&mut h, b"x\0y", TRUSTED);
    assert_eq!(bytesf::jrt_bytes_len(&h, blob), 3, "a blob keeps its zeros");
    assert_eq!(bytesf::jrt_bytes_decode(&h, blob).ok().map(|t| t.text), Some("x".to_string()));
    let zero = JadeValue::from_char('\0', TRUSTED);
    let b = JadeValue::from_word(str_word(&mut h, "b", TRUSTED));
    match ops::add(&mut h, zero, b) {
        Ok(OpValue::Word(v)) => assert_eq!(text_at(&h, v.word()).0, "b"),
        _ => panic!("a character and a string join"),
    }
}

#[test]
fn a_rendered_dict_is_sorted_in_place() {
    let pair = |k: &str, v: &str| (k.to_string(), v.to_string());
    let mut e = vec![pair("b", "2"), pair("a", "1")];
    assert_eq!(render_dict(&mut e), r#"{"a": 1, "b": 2}"#);
    assert_eq!(e, [pair("a", "1"), pair("b", "2")]);
    let mut f = vec![pair("a", "1"), pair("b", "2")];
    assert_eq!(render_dict(&mut f), r#"{"a": 1, "b": 2}"#);
}

#[test]
fn blobs_that_differ_print_apart() {
    assert_ne!(render_bytes(b"\\n"), render_bytes(b"\n"));
    assert_ne!(render_bytes(b"\\x00"), render_bytes(&[0]));
}

#[test]
fn containers_keep_their_headers() {
    let mut h = Heap::new();
    h.jrt_rc_enable();
    let d = jrt_kdict_new(&mut h);
    h.jrt_incref(d);
    let k = str_word(&mut h, "k", TRUSTED);
    jrt_kdict_set(&mut h, d, k, int_word(1));
    assert_eq!(h.object(d).unwrap().header().rc(), 2, "held as often as before");
    assert_eq!(jrt_coll_len(&h, d), Some(1));
    let a = jrt_karr_new(&mut h);
    h.jrt_incref(a);
    jrt_karr_push(&mut h, a, int_word(7));
    assert_eq!(h.object(a).unwrap().header().rc(), 2);
    assert!(!h.object(a).unwrap().header().is_arena());
    assert_eq!(jrt_len_chunk(&h, a), 1);
    let s = jrt_kstruct_new(&mut h, "P");
    h.jrt_incref(s);
    jrt_kstruct_set(&mut h, s, "x", int_word(1));
    assert_eq!(h.object(s).unwrap().header().rc(), 2);
    assert!(h.counts_allow(u32::MAX - 2));
    assert!(!h.counts_allow(u32::MAX - 1));
}

#[test]
fn a_value_that_contains_itself_is_told() {
    let mut h = Heap::new();
    let inner = jrt_karr_new(&mut h);
    let outer = jrt_karr_new(&mut h);
    jrt_karr_push(&mut h, outer, inner);
    jrt_karr_push(&mut h, outer, inner);
    assert!(jade_runtime::cycle::is_acyclic(&h, outer), "shared is not cyclic");
    assert!(jade_runtime::cycle::is_acyclic(&h, int_word(3)));
    let d = jrt_kdict_new(&mut h);
    let k = str_word(&mut h, "up", TRUSTED);
    jrt_kdict_set(&mut h, d, k, outer);
    jrt_karr_push(&mut h, inner, d);
    assert!(!jade_runtime::cycle::is_acyclic(&h, outer));
    assert!(!jade_runtime::cycle::is_acyclic(&h, d));
}
