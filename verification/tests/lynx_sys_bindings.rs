use std::collections::HashMap;
use lynx_yew::binding::{event_default_prevented, event_target, EventDispatch, Event, EventListenerOptions, Error, Element, Text, ElementOps, AttributeWrite, attribute_route, AttributeRoute, required_ref, string_result, get_tag, event_type, get_namespace_uri};
use lynx_yew::css::{CSSTokenType, Token, EOF_TOKEN, IDENT_TOKEN, COMMENT_TOKEN};
use lynx_yew::host_buffer::{
    decode_string_slices, i32_array_out_call, node, string_array_out_call, string_array_step,
    string_borrow_call, string_out_call, string_out_call_in, StringArrayStep, StringOut, StringSlice, NULL_NODE,
    SCRATCH_INITIAL_CAPACITY,
};
use std::cell::RefCell;

fn writer(payload: &'static [u8]) -> impl Fn(Vec<u8>) -> (Vec<u8>, i32) {
    move |mut buf: Vec<u8>| {
        let n = payload.len();
        if buf.len() >= n {
            buf[..n].copy_from_slice(payload);
        }
        (buf, n as i32)
    }
}

#[test]
fn token_type_ids_match_css_token_order() {
    assert_eq!(EOF_TOKEN, 0);
    assert_eq!(IDENT_TOKEN, 1);
    assert_eq!(COMMENT_TOKEN, 25);
    assert_eq!(CSSTokenType::Comment.as_u8(), COMMENT_TOKEN);
}

#[test]
fn token_preserves_type_and_value() {
    let token = Token::new(IDENT_TOKEN, "display");
    assert_eq!(token.token_type, IDENT_TOKEN);
    assert_eq!(token.value, "display");
}

#[test]
fn event_from_raw_maps_negative_to_none() {
    assert!(Event::from_raw(NULL_NODE).is_none());
    assert!(Event::from_raw(-42).is_none());
}

#[test]
fn event_into_raw_transfers_owned_id_without_drop() {
    let event = Event::from_raw_unchecked(17);
    assert_eq!(event.as_ref().raw(), 17);
    assert_eq!(event.into_raw(), 17);
}

#[test]
fn borrowed_raw_event_is_closure_scoped() {
    let seen = Event::with_borrowed_raw(29, |event| {
        let copy = event;
        (event.raw(), copy.raw())
    });
    assert_eq!(seen, Some((29, 29)));
    assert!(Event::with_borrowed_raw(NULL_NODE, |_| ()).is_none());
}

#[test]
fn node_maps_negative_to_none() {
    assert_eq!(node(0), Some(0));
    assert_eq!(node(7), Some(7));
    assert_eq!(node(-1), None);
    assert_eq!(node(NULL_NODE), None);
}

#[test]
fn string_out_is_right_sized() {
    match string_out_call(writer(b"div")) {
        StringOut::Bytes(bytes) => {
            assert_eq!(bytes, b"div");
            assert!(bytes.capacity() < SCRATCH_INITIAL_CAPACITY);
        }
        _ => panic!("expected bytes"),
    }
}

#[test]
fn string_out_absent_on_negative() {
    assert!(matches!(string_out_call(|buf: Vec<u8>| (buf, -1)), StringOut::Absent));
}

#[test]
fn string_out_grows_and_retries() {
    let payload = vec![b'x'; SCRATCH_INITIAL_CAPACITY + 100];
    let expected_len = payload.len();
    let call = move |mut buf: Vec<u8>| {
        let n = payload.len();
        if buf.len() >= n {
            buf[..n].copy_from_slice(&payload);
        }
        (buf, n as i32)
    };
    match string_out_call(call) {
        StringOut::Bytes(bytes) => assert_eq!(bytes.len(), expected_len),
        _ => panic!("expected full payload after retry"),
    }
}

#[test]
fn string_out_overflows_when_host_misreports() {
    match string_out_call(|buf: Vec<u8>| {
        let n = (buf.len() as i32).saturating_add(1024);
        (buf, n)
    }) {
        StringOut::Overflow { .. } => {}
        _ => panic!("expected overflow"),
    }
}

#[test]
fn scratch_is_reused_across_calls() {
    let mut scratch: Vec<u8> = Vec::new();
    let _ = string_out_call_in(&mut scratch, writer(b"first"));
    let cap_before = scratch.len();
    match string_out_call_in(&mut scratch, writer(b"second")) {
        StringOut::Bytes(bytes) => assert_eq!(bytes, b"second"),
        _ => panic!("expected bytes"),
    }
    let cap_after = scratch.len();
    assert_eq!(cap_before, cap_after);
    assert!(cap_before >= SCRATCH_INITIAL_CAPACITY);
}

#[test]
fn a_grown_scratch_buffer_is_kept_for_the_next_call() {
    let mut scratch: Vec<u8> = Vec::new();
    let long = vec![b'y'; SCRATCH_INITIAL_CAPACITY + 10];
    let expected = long.clone();
    let call = move |mut buf: Vec<u8>| {
        let n = long.len();
        if buf.len() >= n {
            buf[..n].copy_from_slice(&long);
        }
        (buf, n as i32)
    };
    match string_out_call_in(&mut scratch, call) {
        StringOut::Bytes(bytes) => assert_eq!(bytes, expected),
        _ => panic!("expected bytes after retry"),
    }
    assert_eq!(scratch.len(), SCRATCH_INITIAL_CAPACITY + 10);
    let counted = |mut buf: Vec<u8>| {
        assert_eq!(buf.len(), SCRATCH_INITIAL_CAPACITY + 10);
        buf[..2].copy_from_slice(b"ok");
        (buf, 2)
    };
    match string_out_call_in(&mut scratch, counted) {
        StringOut::Bytes(bytes) => assert_eq!(bytes, b"ok"),
        _ => panic!("expected bytes"),
    }
}

#[test]
fn reentrant_use_falls_back_without_panic() {
    let inner: RefCell<Option<StringOut>> = RefCell::new(None);
    let _ = string_out_call(|buf: Vec<u8>| {
        if inner.borrow().is_none() {
            *inner.borrow_mut() = Some(string_out_call(writer(b"ok")));
        }
        (buf, -1)
    });
    match inner.into_inner() {
        Some(StringOut::Bytes(bytes)) => assert_eq!(bytes, b"ok"),
        _ => panic!("expected bytes via fallback"),
    }
}

#[test]
fn string_borrow_lends_without_owning() {
    let owned = string_borrow_call(writer(b"svg"), |bytes| bytes.map(<[u8]>::to_vec));
    assert_eq!(owned, Some(b"svg".to_vec()));
}

#[test]
fn string_borrow_absent_on_negative() {
    assert!(string_borrow_call(|buf: Vec<u8>| (buf, -1), |bytes| bytes.is_none()));
}

#[test]
fn i32_array_out_grows_and_retries() {
    let values = [1, 2, 3, 4, 5];
    let out = i32_array_out_call(|mut buf: Vec<i32>| {
        if buf.len() >= values.len() {
            buf[..values.len()].copy_from_slice(&values);
        }
        (buf, values.len() as i32)
    });
    assert_eq!(out, values);
}

#[test]
fn i32_array_out_retries_past_initial_capacity() {
    let values: Vec<i32> = (0..40).collect();
    let out = i32_array_out_call(|mut buf: Vec<i32>| {
        if buf.len() >= values.len() {
            buf[..values.len()].copy_from_slice(&values);
        }
        (buf, values.len() as i32)
    });
    assert_eq!(out, values);
}

#[test]
fn required_ref_maps_negative_to_null_node() {
    assert_eq!(required_ref("__CreateElement", -1), Err(Error::NullNode("__CreateElement")));
    assert_eq!(required_ref("__CreateElement", 3), Ok(3));
}

#[test]
fn string_result_reports_invalid_utf8_and_overflow() {
    assert_eq!(
        string_result("__GetTag", StringOut::Bytes(vec![0xff, 0xfe])),
        Err(Error::InvalidUtf8("__GetTag"))
    );
    assert_eq!(
        string_result("__GetTag", StringOut::Overflow { required: 2048, capacity: 1024 }),
        Err(Error::StringBufferTooSmall { binding: "__GetTag", required: 2048, capacity: 1024 })
    );
    assert_eq!(string_result("__GetTag", StringOut::Absent), Ok(None));
    assert_eq!(
        string_result("__GetTag", StringOut::Bytes(b"view".to_vec())),
        Ok(Some("view".to_string()))
    );
}

#[test]
fn host_string_reads_decode_text() {
    let tag = get_tag(5, |node: i32, buf: Vec<u8>| {
        assert_eq!(node, 5);
        writer(b"text")(buf)
    });
    assert_eq!(tag, Ok(Some("text".to_string())));
    let ty = event_type(9, |_event: i32, buf: Vec<u8>| (buf, -1));
    assert_eq!(ty, Ok(None));
}

#[test]
fn element_creation_checks_the_null_sentinel() {
    let el = Element::new("view", |tag: &str| {
        assert_eq!(tag, "view");
        12
    });
    assert_eq!(el.map(|e| e.raw()), Ok(12));
    assert_eq!(
        Element::new("view", |_tag: &str| -1).map(|e| e.raw()),
        Err(Error::NullNode("__CreateElement"))
    );
    assert_eq!(
        Text::new("hi", |_text: &str| -1).map(|t| t.raw()),
        Err(Error::NullNode("__CreateRawText"))
    );
    assert_eq!(
        Event::new(1, "tap", 0, |_t: i32, _n: &str, _f: i32| None).map(|e| e.raw()),
        Err(Error::NullNode("__CreateEvent"))
    );
}

fn describe(w: AttributeWrite<'_>) -> String {
    match w {
        AttributeWrite::SetClasses(element, classes) => format!("classes {element} {classes}"),
        AttributeWrite::SetInlineStyle(element, text) => format!("style {element} {text}"),
        AttributeWrite::SetString(element, key, value) => format!("attr {element} {key}={value}"),
        AttributeWrite::Remove(element, key) => format!("remove {element} {key}"),
    }
}

#[test]
fn attributes_route_class_and_style() {
    assert_eq!(attribute_route("class"), AttributeRoute::Classes);
    assert_eq!(attribute_route("style"), AttributeRoute::InlineStyle);
    assert_eq!(attribute_route("id"), AttributeRoute::StringAttribute);
    let calls: RefCell<Vec<String>> = RefCell::new(Vec::new());
    let record = |w: AttributeWrite<'_>| calls.borrow_mut().push(describe(w));
    let el = Element::from_raw_unchecked(4);
    el.set_attribute(record, "class", "a b").unwrap();
    el.set_attribute(record, "style", "color: red").unwrap();
    el.set_attribute(record, "id", "x").unwrap();
    el.remove_attribute(record, "class").unwrap();
    el.remove_attribute(record, "id").unwrap();
    assert_eq!(
        calls.into_inner(),
        vec![
            "classes 4 a b".to_string(),
            "style 4 color: red".to_string(),
            "attr 4 id=x".to_string(),
            "classes 4 ".to_string(),
            "remove 4 id".to_string(),
        ]
    );
}

#[test]
fn listener_options_bits() {
    assert_eq!(EventListenerOptions::new().bits(), 0);
    assert_eq!(EventListenerOptions::new().capture().bits(), 1);
    assert_eq!(EventListenerOptions::new().once().bits(), 2);
    assert_eq!(EventListenerOptions::new().passive().bits(), 4);
    assert_eq!(EventListenerOptions::new().capture().once().passive().bits(), 7);
}

#[test]
fn string_array_out_decodes_slices() {
    let out = string_array_out_call(
        |mut items: Vec<StringSlice>, mut bytes: Vec<u8>, _required_bytes: i32| {
            if items.len() >= 2 && bytes.len() >= 6 {
                bytes[..6].copy_from_slice(b"foobar");
                items[0] = StringSlice { offset: 0, len: 3 };
                items[1] = StringSlice { offset: 3, len: 3 };
            }
            (items, bytes, 6, 2)
        },
    );
    assert_eq!(out, vec!["foo", "bar"]);
}

#[test]
fn string_array_out_grows_both_buffers() {
    let text: Vec<u8> = (0..2000).map(|i| b'a' + (i % 26) as u8).collect();
    let out = string_array_out_call(
        |mut items: Vec<StringSlice>, mut bytes: Vec<u8>, _required_bytes: i32| {
            if items.len() >= 40 && bytes.len() >= 2000 {
                bytes[..2000].copy_from_slice(&text);
                for i in 0..40 {
                    items[i] = StringSlice { offset: (i * 50) as i32, len: 50 };
                }
            }
            (items, bytes, 2000, 40)
        },
    );
    assert_eq!(out.len(), 40);
    assert_eq!(out[1], String::from_utf8(text[50..100].to_vec()).unwrap());
}

#[test]
fn string_slices_outside_the_buffer_are_skipped() {
    let items = vec![
        StringSlice { offset: 0, len: 2 },
        StringSlice { offset: -1, len: 2 },
        StringSlice { offset: 3, len: 5 },
        StringSlice { offset: 2, len: 2 },
        StringSlice { offset: 0, len: 1 },
    ];
    let bytes = b"ab\xffd".to_vec();
    let out = decode_string_slices(&items, 4, &bytes);
    assert_eq!(out, vec!["ab".to_string(), "\u{fffd}d".to_string()]);
}

#[test]
fn string_array_step_decisions() {
    assert_eq!(string_array_step(0, 10, 4, 4, false), StringArrayStep::Empty);
    assert_eq!(string_array_step(2, 3, 4, 4, false), StringArrayStep::Decode(2));
    assert_eq!(
        string_array_step(2, 9, 4, 4, false),
        StringArrayStep::Retry { items: 2, bytes: 9 }
    );
    assert_eq!(
        string_array_step(2, -1, 4, 4, false),
        StringArrayStep::Retry { items: 2, bytes: 0 }
    );
    assert_eq!(string_array_step(5, 9, 4, 4, true), StringArrayStep::Empty);
    assert_eq!(string_array_step(3, 99, 4, 4, true), StringArrayStep::Decode(3));
}

#[test]
fn string_out_offers_the_grown_buffer_on_retry() {
    let seen: RefCell<Vec<usize>> = RefCell::new(Vec::new());
    let out = string_out_call(|buf: Vec<u8>| {
        seen.borrow_mut().push(buf.len());
        assert!(buf.iter().all(|b| *b == 0));
        (buf, 1500)
    });
    assert_eq!(*seen.borrow(), vec![SCRATCH_INITIAL_CAPACITY, 1500]);
    match out {
        StringOut::Bytes(bytes) => assert_eq!(bytes.len(), 1500),
        _ => panic!("expected bytes"),
    }
}

#[test]
fn string_array_out_resizes_as_asked() {
    let seen: RefCell<Vec<(usize, usize, i32)>> = RefCell::new(Vec::new());
    let out = string_array_out_call(|items: Vec<StringSlice>, bytes: Vec<u8>, required_bytes: i32| {
        seen.borrow_mut().push((items.len(), bytes.len(), required_bytes));
        (items, bytes, 8, 3)
    });
    assert_eq!(*seen.borrow(), vec![(32, 1024, 0)]);
    assert_eq!(out, vec![String::new(), String::new(), String::new()]);
    seen.borrow_mut().clear();
    let out = string_array_out_call(|items: Vec<StringSlice>, bytes: Vec<u8>, required_bytes: i32| {
        seen.borrow_mut().push((items.len(), bytes.len(), required_bytes));
        (items, bytes, -1, 3)
    });
    assert_eq!(*seen.borrow(), vec![(32, 1024, 0), (3, 0, -1)]);
    assert_eq!(out, vec![String::new(), String::new(), String::new()]);
}

#[test]
fn namespaced_elements_record_their_namespace() {
    let calls: RefCell<Vec<String>> = RefCell::new(Vec::new());
    let record = |w: AttributeWrite<'_>| calls.borrow_mut().push(describe(w));
    let el = Element::new_ns("http://www.w3.org/2000/svg", "svg", |_tag: &str| 9, record).unwrap();
    assert_eq!(el.raw(), 9);
    assert_eq!(calls.borrow().clone(), vec!["attr 9 xmlns=http://www.w3.org/2000/svg".to_string()]);
    let missing = Element::new_ns("ns", "svg", |_tag: &str| -1, record).map(|e| e.raw());
    assert_eq!(missing, Err(Error::NullNode("__CreateElement")));
    assert_eq!(calls.borrow().len(), 1);
}

#[test]
fn dispatch_reports_the_current_target_and_prevented_default() {
    let mut d = EventDispatch::new();
    assert_eq!(event_target(&d), None);
    assert!(!event_default_prevented(&d));
    d.prevent_default();
    assert!(!event_default_prevented(&d));
    d.begin(12);
    assert_eq!(event_target(&d), Some(12));
    assert!(!event_default_prevented(&d));
    d.prevent_default();
    assert_eq!(event_target(&d), Some(12));
    assert!(event_default_prevented(&d));
    d.end();
    assert_eq!(event_target(&d), None);
    assert!(!event_default_prevented(&d));
}

#[test]
fn a_namespace_written_by_new_ns_reads_back() {
    let store: RefCell<HashMap<(i32, String), String>> = RefCell::new(HashMap::new());
    let write = |w: AttributeWrite<'_>| {
        if let AttributeWrite::SetString(el, key, value) = w {
            store.borrow_mut().insert((el, key.to_string()), value.to_string());
        }
    };
    let el = Element::new_ns("http://www.w3.org/2000/svg", "svg", |_tag: &str| 4, write).unwrap();
    let read = |el: i32, key: &str, mut buf: Vec<u8>| -> (Vec<u8>, i32) {
        match store.borrow().get(&(el, key.to_string())) {
            Some(v) => {
                let bytes = v.as_bytes();
                if bytes.len() <= buf.len() {
                    buf[..bytes.len()].copy_from_slice(bytes);
                }
                (buf, bytes.len() as i32)
            }
            None => (buf, -1),
        }
    };
    assert_eq!(
        get_namespace_uri(el.raw(), &read),
        Ok(Some("http://www.w3.org/2000/svg".to_string()))
    );
    assert_eq!(get_namespace_uri(5, &read), Ok(None));
}

#[test]
fn default_listener_options_have_no_flags() {
    let o = EventListenerOptions::default();
    assert_eq!(o, EventListenerOptions::new());
    assert!(!o.capture && !o.passive && !o.once);
}

#[test]
fn optional_host_strings_display_as_text_or_nothing() {
    let shown = lynx_yew::binding::display_optional_string(Some("tap".to_string()));
    assert_eq!(shown, "tap");
    assert!(matches!(shown, std::borrow::Cow::Owned(_)));
    let empty = lynx_yew::binding::display_optional_string(None);
    assert_eq!(empty, "");
    assert!(matches!(empty, std::borrow::Cow::Borrowed(_)));
}
