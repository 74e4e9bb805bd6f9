//! Decoding of wire-level span records into `SpanEvent`s: hex id
//! rendering, target resolution (attribute override, scope fallback,
//! span-name fallback), status mapping, and service-name extraction.
//!
//! The caller flattens the wire request's resource/scope grouping and
//! hands each span here as plain values.

use vstd::prelude::*;

use crate::attrs::{AttrValue, attr_string, attr_value_string, hex_encode, hex_of};
use crate::model::SpanEvent;

verus! {

/// One attribute as decoded from the wire.
pub struct RawAttr {
    pub key: String,
    pub value: AttrValue,
}

/// One span as decoded from the wire: raw id bytes, timing, status
/// code, and attributes.
pub struct RawSpan {
    pub trace_id: Vec<u8>,
    pub span_id: Vec<u8>,
    pub parent_span_id: Vec<u8>,
    pub name: String,
    pub start_time_unix_nano: u64,
    pub end_time_unix_nano: u64,
    pub status_code: Option<i32>,
    pub attributes: Vec<RawAttr>,
}

/// The status label for a wire status code: `ok` for one, `error` for
/// two, `unset` otherwise (absent codes included).
pub open spec fn status_of(code: Option<i32>) -> Seq<char> {
    match code {
        Some(c) => if c == 2 {
            "error"@
        } else if c == 1 {
            "ok"@
        } else {
            "unset"@
        },
        None => "unset"@,
    }
}

/// Map a wire status code to its label.
pub fn status_label(code: Option<i32>) -> (r: String)
    ensures
        r@ == status_of(code),
{
    match code {
        Some(c) => {
            if c == 2 {
                "error".to_owned()
            } else if c == 1 {
                "ok".to_owned()
            } else {
                "unset".to_owned()
            }
        }
        None => "unset".to_owned(),
    }
}

/// Does this attribute key override the span's target?
pub open spec fn is_target_key(k: Seq<char>) -> bool {
    k == "target"@ || k == "code.namespace"@
}

/// The stringified value of the last target-overriding attribute, if
/// any (later attributes win, as the decode scan overwrites).
pub open spec fn last_target_override(attrs: Seq<RawAttr>) -> Option<Seq<char>>
    decreases attrs.len(),
{
    if attrs.len() == 0 {
        None
    } else if is_target_key(attrs.last().key@) {
        Some(attr_string(attrs.last().value))
    } else {
        last_target_override(attrs.drop_last())
    }
}

/// The span's resolved target: the last overriding attribute, else the
/// scope name, and the span's own name when that is still empty.
pub open spec fn resolved_target(attrs: Seq<RawAttr>, scope: Seq<char>, name: Seq<char>) -> Seq<
    char,
> {
    let base = match last_target_override(attrs) {
        Some(v) => v,
        None => scope,
    };
    if base.len() == 0 {
        name
    } else {
        base
    }
}

/// The service name of a resource: the first `service.name` attribute,
/// which must carry a string value; `unknown` otherwise.
pub open spec fn service_name_of(attrs: Seq<RawAttr>) -> Seq<char>
    decreases attrs.len(),
{
    if attrs.len() == 0 {
        "unknown"@
    } else if attrs.first().key@ == "service.name"@ {
        match attrs.first().value {
            AttrValue::StringValue(s) => s@,
            _ => "unknown"@,
        }
    } else {
        service_name_of(attrs.drop_first())
    }
}

/// Extract the resource's service name.
pub fn resolve_service_name(attrs: &Vec<RawAttr>) -> (r: String)
    ensures
        r@ == service_name_of(attrs@),
{
    let key = "service.name".to_owned();
    let mut i: usize = 0;
    proof {
        assert(attrs@.skip(0) =~= attrs@);
    }
    while i < attrs.len()
        invariant
            i <= attrs@.len(),
            key@ == "service.name"@,
            service_name_of(attrs@) == service_name_of(attrs@.skip(i as int)),
        decreases attrs@.len() - i,
    {
        proof {
            let t = attrs@.skip(i as int);
            assert(t.first() == attrs@[i as int]);
            assert(t.drop_first() =~= attrs@.skip(i + 1));
        }
        if attrs[i].key == key {
            match &attrs[i].value {
                AttrValue::StringValue(s) => {
                    return s.clone();
                }
                _ => {
                    return "unknown".to_owned();
                }
            }
        }
        i = i + 1;
    }
    proof {
        assert(attrs@.skip(i as int) =~= Seq::<RawAttr>::empty());
    }
    "unknown".to_owned()
}

/// Build a `SpanEvent` from one wire span, the enclosing scope's name,
/// and the resource's service name: hex the ids, stringify the
/// attributes, resolve the target, and map the status.
#[verifier::loop_isolation(false)]
pub fn build_span_event(raw: RawSpan, scope_target: &String, service_name: &String) -> (s:
    SpanEvent)
    ensures
        s.trace_id@ == hex_of(raw.trace_id@),
        s.span_id@ == hex_of(raw.span_id@),
        raw.parent_span_id@.len() == 0 ==> s.parent_span_id is None,
        raw.parent_span_id@.len() > 0 ==> crate::state::opt_view(s.parent_span_id) == Some(
            hex_of(raw.parent_span_id@),
        ),
        s.name@ == raw.name@,
        s.target@ == resolved_target(raw.attributes@, scope_target@, raw.name@),
        s.start_time_unix_nano == raw.start_time_unix_nano,
        s.end_time_unix_nano == raw.end_time_unix_nano,
        s.status@ == status_of(raw.status_code),
        s.service_name@ == service_name@,
        s.attributes@.len() == raw.attributes@.len(),
        forall|i: int|
            0 <= i < raw.attributes@.len() ==> (#[trigger] s.attributes@[i]).0@
                == raw.attributes@[i].key@ && s.attributes@[i].1@ == attr_string(
                raw.attributes@[i].value,
            ),
{
    let key_target = "target".to_owned();
    let key_ns = "code.namespace".to_owned();
    let mut target = scope_target.clone();
    let mut attributes: Vec<(String, String)> = Vec::new();
    let mut i: usize = 0;
    proof {
        assert(raw.attributes@.take(0) =~= Seq::<RawAttr>::empty());
    }
    while i < raw.attributes.len()
        invariant
            i <= raw.attributes@.len(),
            attributes@.len() == i,
            forall|j: int|
                0 <= j < i ==> (#[trigger] attributes@[j]).0@ == raw.attributes@[j].key@
                    && attributes@[j].1@ == attr_string(raw.attributes@[j].value),
            target@ == match last_target_override(raw.attributes@.take(i as int)) {
                Some(v) => v,
                None => scope_target@,
            },
        decreases raw.attributes@.len() - i,
    {
        let val = attr_value_string(&raw.attributes[i].value);
        proof {
            let t = raw.attributes@.take(i + 1);
            assert(t.drop_last() =~= raw.attributes@.take(i as int));
            assert(t.last() == raw.attributes@[i as int]);
        }
        if raw.attributes[i].key == key_target || raw.attributes[i].key == key_ns {
            target = val.clone();
        }
        attributes.push((raw.attributes[i].key.clone(), val));
        i = i + 1;
    }
    proof {
        assert(raw.attributes@.take(raw.attributes@.len() as int) =~= raw.attributes@);
    }
    if target.as_str().is_empty() {
        target = raw.name.clone();
    }
    let parent_span_id = if raw.parent_span_id.len() == 0 {
        None
    } else {
        Some(hex_encode(&raw.parent_span_id))
    };
    SpanEvent {
        trace_id: hex_encode(&raw.trace_id),
        span_id: hex_encode(&raw.span_id),
        parent_span_id,
        name: raw.name.clone(),
        target,
        start_time_unix_nano: raw.start_time_unix_nano,
        end_time_unix_nano: raw.end_time_unix_nano,
        attributes,
        status: status_label(raw.status_code),
        service_name: service_name.clone(),
    }
}

} // verus!
