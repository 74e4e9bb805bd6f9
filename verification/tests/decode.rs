use otel_ui_backend::attrs::{AttrValue, attr_value_string};
use otel_ui_backend::label::short_label;
use otel_ui_backend::otlp::{RawAttr, RawSpan, build_span_event, resolve_service_name, status_label};
use otel_ui_backend::session::{ControlAction, InboundFrame, control_action};

fn raw_span(name: &str) -> RawSpan {
    RawSpan {
        trace_id: vec![0xab, 0x01],
        span_id: vec![0x00, 0xff],
        parent_span_id: Vec::new(),
        name: name.to_string(),
        start_time_unix_nano: 10,
        end_time_unix_nano: 30,
        status_code: Some(1),
        attributes: Vec::new(),
    }
}

#[test]
fn ids_are_lowercase_hex() {
    let s = build_span_event(raw_span("recv"), &"scope".to_string(), &"svc".to_string());
    assert_eq!(s.trace_id, "ab01");
    assert_eq!(s.span_id, "00ff");
    assert_eq!(s.parent_span_id, None);
    assert_eq!(s.status, "ok");
    assert_eq!(s.service_name, "svc");
    assert_eq!(s.target, "scope");
}

#[test]
fn parent_bytes_become_hex_id() {
    let mut r = raw_span("recv");
    r.parent_span_id = vec![0x12, 0x34];
    let s = build_span_event(r, &"scope".to_string(), &"svc".to_string());
    assert_eq!(s.parent_span_id.as_deref(), Some("1234"));
}

#[test]
fn status_code_mapping() {
    assert_eq!(status_label(Some(0)), "unset");
    assert_eq!(status_label(Some(1)), "ok");
    assert_eq!(status_label(Some(2)), "error");
    assert_eq!(status_label(Some(7)), "unset");
    assert_eq!(status_label(None), "unset");
}

#[test]
fn target_attribute_overrides_scope() {
    let mut r = raw_span("recv");
    r.attributes.push(RawAttr {
        key: "target".to_string(),
        value: AttrValue::StringValue("net::listener".to_string()),
    });
    let s = build_span_event(r, &"scope".to_string(), &"svc".to_string());
    assert_eq!(s.target, "net::listener");
    assert_eq!(s.attributes, vec![("target".to_string(), "net::listener".to_string())]);
}

#[test]
fn later_code_namespace_wins() {
    let mut r = raw_span("recv");
    r.attributes.push(RawAttr {
        key: "target".to_string(),
        value: AttrValue::StringValue("first".to_string()),
    });
    r.attributes.push(RawAttr {
        key: "code.namespace".to_string(),
        value: AttrValue::StringValue("second".to_string()),
    });
    let s = build_span_event(r, &"scope".to_string(), &"svc".to_string());
    assert_eq!(s.target, "second");
}

#[test]
fn empty_target_falls_back_to_name() {
    let s = build_span_event(raw_span("recv"), &String::new(), &"svc".to_string());
    assert_eq!(s.target, "recv");
}

#[test]
fn service_name_extraction() {
    let attrs = vec![
        RawAttr { key: "other".to_string(), value: AttrValue::StringValue("x".to_string()) },
        RawAttr {
            key: "service.name".to_string(),
            value: AttrValue::StringValue("ledgerd".to_string()),
        },
    ];
    assert_eq!(resolve_service_name(&attrs), "ledgerd");
    assert_eq!(resolve_service_name(&Vec::new()), "unknown");
    let non_string = vec![RawAttr { key: "service.name".to_string(), value: AttrValue::IntValue(3) }];
    assert_eq!(resolve_service_name(&non_string), "unknown");
}

#[test]
fn attribute_stringification() {
    assert_eq!(attr_value_string(&AttrValue::StringValue("plain".to_string())), "plain");
    assert_eq!(attr_value_string(&AttrValue::BoolValue(true)), "true");
    assert_eq!(attr_value_string(&AttrValue::BoolValue(false)), "false");
    assert_eq!(attr_value_string(&AttrValue::IntValue(0)), "0");
    assert_eq!(attr_value_string(&AttrValue::IntValue(-42)), "-42");
    assert_eq!(attr_value_string(&AttrValue::IntValue(1234567)), "1234567");
    assert_eq!(attr_value_string(&AttrValue::DoubleValue("3.25".to_string())), "3.25");
    assert_eq!(attr_value_string(&AttrValue::BytesValue(vec![1, 2, 15, 16])), "01020f10");
    assert_eq!(attr_value_string(&AttrValue::Missing), "");
    let arr = AttrValue::ArrayValue(vec![
        AttrValue::IntValue(1),
        AttrValue::StringValue("x".to_string()),
    ]);
    assert_eq!(attr_value_string(&arr), "[1, x]");
    let kv = AttrValue::KvlistValue(vec![
        ("a".to_string(), AttrValue::IntValue(1)),
        ("b".to_string(), AttrValue::BoolValue(false)),
    ]);
    assert_eq!(attr_value_string(&kv), "{a=1, b=false}");
    let nested = AttrValue::ArrayValue(vec![AttrValue::ArrayValue(Vec::new())]);
    assert_eq!(attr_value_string(&nested), "[[]]");
}

#[test]
fn label_derivation() {
    assert_eq!(short_label("process_block"), "Process Block");
    assert_eq!(short_label("net::listener::accept_loop"), "Accept Loop");
    assert_eq!(short_label("handle"), "Handle");
    assert_eq!(short_label(""), "");
    assert_eq!(short_label("a__b"), "A  B");
}

#[test]
fn session_control_discipline() {
    let t = control_action(&InboundFrame::Text("  topology \n".to_string()));
    assert!(matches!(t, ControlAction::SendTopology));
    let o = control_action(&InboundFrame::Text("ping".to_string()));
    assert!(matches!(o, ControlAction::Ignore));
    let c = control_action(&InboundFrame::Close);
    assert!(matches!(c, ControlAction::Disconnect));
    let x = control_action(&InboundFrame::Other);
    assert!(matches!(x, ControlAction::Ignore));
}
