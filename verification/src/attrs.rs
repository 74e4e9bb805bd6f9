//! Stringification of decoded attribute values: strings verbatim,
//! booleans and integers in their usual renderings, bytes as lowercase
//! hex, arrays bracketed and comma-separated, key/value lists braced.
//! Floating-point attribute values arrive already rendered, since the
//! library holds no floats.

use vstd::prelude::*;

verus! {

/// A decoded attribute value.  `DoubleValue` carries the decimal
/// rendering produced at the decoding boundary; `Missing` stands for an
/// attribute without a value.
pub enum AttrValue {
    StringValue(String),
    BoolValue(bool),
    IntValue(i64),
    DoubleValue(String),
    BytesValue(Vec<u8>),
    ArrayValue(Vec<AttrValue>),
    KvlistValue(Vec<(String, AttrValue)>),
    Missing,
}

/// The lowercase hex digit for a value below sixteen.
pub open spec fn hex_digit(n: int) -> char {
    if n == 0 {
        '0'
    } else if n == 1 {
        '1'
    } else if n == 2 {
        '2'
    } else if n == 3 {
        '3'
    } else if n == 4 {
        '4'
    } else if n == 5 {
        '5'
    } else if n == 6 {
        '6'
    } else if n == 7 {
        '7'
    } else if n == 8 {
        '8'
    } else if n == 9 {
        '9'
    } else if n == 10 {
        'a'
    } else if n == 11 {
        'b'
    } else if n == 12 {
        'c'
    } else if n == 13 {
        'd'
    } else if n == 14 {
        'e'
    } else {
        'f'
    }
}

/// Lowercase hex rendering: two digits per byte, high nibble first.
pub open spec fn hex_of(bytes: Seq<u8>) -> Seq<char>
    decreases bytes.len(),
{
    if bytes.len() == 0 {
        Seq::<char>::empty()
    } else {
        hex_of(bytes.drop_last()) + seq![
            hex_digit(bytes.last() as int / 16),
            hex_digit(bytes.last() as int % 16),
        ]
    }
}

/// The decimal digit character for a value below ten.
pub open spec fn dec_digit(n: int) -> char {
    if n == 0 {
        '0'
    } else if n == 1 {
        '1'
    } else if n == 2 {
        '2'
    } else if n == 3 {
        '3'
    } else if n == 4 {
        '4'
    } else if n == 5 {
        '5'
    } else if n == 6 {
        '6'
    } else if n == 7 {
        '7'
    } else if n == 8 {
        '8'
    } else {
        '9'
    }
}

/// Decimal rendering of a nonnegative integer.
pub open spec fn dec_nat(n: int) -> Seq<char>
    decreases n,
{
    if n < 10 {
        seq![dec_digit(n)]
    } else {
        dec_nat(n / 10).push(dec_digit(n % 10))
    }
}

/// Decimal rendering of an integer, `-`-signed when negative.
pub open spec fn dec_int(i: int) -> Seq<char> {
    if i < 0 {
        seq!['-'] + dec_nat(-i)
    } else {
        dec_nat(i)
    }
}

/// Relies on hex::encode: two lowercase hex digits per input byte,
/// high nibble first.
#[verifier::external_body]
pub(crate) fn hex_encode(b: &Vec<u8>) -> (r: String)
    ensures
        r@ == hex_of(b@),
{
    hex::encode(b.as_slice())
}

/// Relies on i64's Display implementation: the decimal rendering, with
/// a leading `-` for negative values.
#[verifier::external_body]
fn i64_to_decimal(i: i64) -> (r: String)
    ensures
        r@ == dec_int(i as int),
{
    i.to_string()
}

/// The stringification of one attribute value.
pub open spec fn attr_string(v: AttrValue) -> Seq<char>
    decreases v, 1int, 0int,
{
    match v {
        AttrValue::StringValue(s) => s@,
        AttrValue::BoolValue(b) => if b {
            "true"@
        } else {
            "false"@
        },
        AttrValue::IntValue(i) => dec_int(i as int),
        AttrValue::DoubleValue(d) => d@,
        AttrValue::BytesValue(bs) => hex_of(bs@),
        AttrValue::ArrayValue(vs) => "["@ + attr_items(vs@, 0) + "]"@,
        AttrValue::KvlistValue(kvs) => "{"@ + kv_items(kvs@, 0) + "}"@,
        AttrValue::Missing => Seq::<char>::empty(),
    }
}

/// The comma-separated stringifications of `vs[i..]`.
pub open spec fn attr_items(vs: Seq<AttrValue>, i: int) -> Seq<char>
    decreases vs, 0int, vs.len() - i,
{
    if i < 0 || i >= vs.len() {
        Seq::<char>::empty()
    } else if i == vs.len() - 1 {
        attr_string(vs[i])
    } else {
        attr_string(vs[i]) + ", "@ + attr_items(vs, i + 1)
    }
}

/// The comma-separated `key=value` renderings of `kvs[i..]`.
pub open spec fn kv_items(kvs: Seq<(String, AttrValue)>, i: int) -> Seq<char>
    decreases kvs, 0int, kvs.len() - i,
{
    if i < 0 || i >= kvs.len() {
        Seq::<char>::empty()
    } else if i == kvs.len() - 1 {
        kvs[i].0@ + "="@ + attr_string(kvs[i].1)
    } else {
        kvs[i].0@ + "="@ + attr_string(kvs[i].1) + ", "@ + kv_items(kvs, i + 1)
    }
}

/// Render one attribute value as the index and payloads carry it.
#[verifier::loop_isolation(false)]
pub fn attr_value_string(v: &AttrValue) -> (r: String)
    ensures
        r@ == attr_string(*v),
    decreases *v,
{
    match v {
        AttrValue::StringValue(s) => s.clone(),
        AttrValue::BoolValue(b) => {
            if *b {
                "true".to_owned()
            } else {
                "false".to_owned()
            }
        }
        AttrValue::IntValue(i) => i64_to_decimal(*i),
        AttrValue::DoubleValue(d) => d.clone(),
        AttrValue::BytesValue(bs) => hex_encode(bs),
        AttrValue::ArrayValue(vs) => {
            let mut out = String::new();
            out.append("[");
            let mut j: usize = 0;
            while j < vs.len()
                invariant
                    j <= vs@.len(),
                    j < vs@.len() ==> out@ + attr_items(vs@, j as int) == "["@ + attr_items(
                        vs@,
                        0,
                    ),
                    j == vs@.len() ==> out@ == "["@ + attr_items(vs@, 0),
                decreases vs@.len() - j,
            {
                let item = attr_value_string(&vs[j]);
                out.append(item.as_str());
                if j + 1 < vs.len() {
                    out.append(", ");
                }
                j = j + 1;
            }
            out.append("]");
            proof {
                if vs@.len() == 0 {
                    assert(out@ =~= "["@ + attr_items(vs@, 0) + "]"@);
                }
                assert(out@ =~= "["@ + attr_items(vs@, 0) + "]"@);
            }
            out
        }
        AttrValue::KvlistValue(kvs) => {
            let mut out = String::new();
            out.append("{");
            let mut j: usize = 0;
            while j < kvs.len()
                invariant
                    j <= kvs@.len(),
                    j < kvs@.len() ==> out@ + kv_items(kvs@, j as int) == "{"@ + kv_items(
                        kvs@,
                        0,
                    ),
                    j == kvs@.len() ==> out@ == "{"@ + kv_items(kvs@, 0),
                decreases kvs@.len() - j,
            {
                out.append(kvs[j].0.as_str());
                out.append("=");
                let item = attr_value_string(&kvs[j].1);
                out.append(item.as_str());
                if j + 1 < kvs.len() {
                    out.append(", ");
                }
                j = j + 1;
            }
            out.append("}");
            proof {
                if kvs@.len() == 0 {
                    assert(out@ =~= "{"@ + kv_items(kvs@, 0) + "}"@);
                }
                assert(out@ =~= "{"@ + kv_items(kvs@, 0) + "}"@);
            }
            out
        }
        AttrValue::Missing => String::new(),
    }
}

} // verus!
