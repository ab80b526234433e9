//! The text form of path elements: `f:` and a field name, `v:` and the JSON
//! text of a value, `k:` and a JSON object of key fields, `i:` and an index.

use super::path::{element_order, lemma_element_order_eq, PathElement, PathElementView};
use super::path::Path;
use super::set::{contains_path, wf_view, FieldPathSet, SetView};
use crate::json::{
    json_as_array, json_as_bool, json_as_i64, json_as_object, json_as_str, json_bytes_read, json_kind, json_text_read,
    json_to_text, json_view, parse_json, parse_json_bytes, JsonKind, JsonView,
};
use crate::text::{decimal, decimal_nat, digit_char, push_char, push_decimal, push_str};
use crate::value::{
    entries_map, has_key, insert_sorted, json_members, json_text, keys_sorted, lemma_sorted_entries_of, lemma_value_view_cases, sorted_entries, str_equal,
    FieldList, Value, ValueMap, ValueView,
};
use vstd::prelude::*;
use vstd::utf8::encode_utf8;

verus! {

/// An error of serialization or deserialization.
#[derive(Debug)]
pub struct SerializeError {
    pub message: String,
}

impl SerializeError {
    /// Creates an error with the given message.
    pub fn new(message: &str) -> (r: SerializeError)
        ensures
            r.message@ == message@,
    {
        SerializeError { message: String::from_str(message) }
    }

    /// Returns the message.
    pub fn to_string(&self) -> (r: String)
        ensures
            r@ == self.message@,
    {
        self.message.clone()
    }
}

impl Clone for SerializeError {
    fn clone(&self) -> (r: SerializeError)
        ensures
            r.message@ == self.message@,
    {
        SerializeError { message: self.message.clone() }
    }
}

/// The map that a list of fields stands for: a later field replaces an
/// earlier one of the same name.
pub open spec fn fields_map(fs: Seq<(Seq<char>, ValueView)>) -> Map<Seq<char>, ValueView>
    decreases fs.len(),
{
    if fs.len() == 0 {
        Map::empty()
    } else {
        fields_map(fs.drop_last()).insert(fs.last().0, fs.last().1)
    }
}

/// The members of the JSON object that a key is written as: its fields by
/// increasing name, a later field replacing an earlier one of the same name.
pub open spec fn key_members(fs: Seq<(Seq<char>, ValueView)>, es: Seq<(Seq<char>, ValueView)>) -> bool {
    keys_sorted(es) && entries_map(es) == fields_map(fs)
}

/// The text of a field name, value or index element.
pub open spec fn element_text(pe: PathElementView) -> Seq<char> {
    match pe {
        PathElementView::FieldName(n) => seq!['f', ':'] + n,
        PathElementView::Value(v) => seq!['v', ':'] + json_text(v),
        PathElementView::Index(i) => seq!['i', ':'] + decimal(i),
        PathElementView::Key(_) => seq!['k', ':'],
    }
}

/// The text a path element is written as: [`element_text`] for a field
/// name, value or index; `k:` and the JSON object of the key's fields, by
/// increasing name, for a key.
pub open spec fn element_key(pe: PathElementView) -> Seq<char> {
    match pe {
        PathElementView::Key(fs) => seq!['k', ':', '{'] + json_members(sorted_entries(fields_map(fs))) + seq!['}'],
        _ => element_text(pe),
    }
}

/// Writes the fields of a key as a JSON object.
fn write_key_object(fields: &FieldList, out: &mut String)
    ensures
        exists|es: Seq<(Seq<char>, ValueView)>|
            key_members(fields@, es) && final(out)@ == old(out)@ + seq!['{'] + json_members(es) + seq!['}'],
{
    let mut m = ValueMap::new();
    let ghost fs = fields@;
    proof {
        assert(fs.take(0) =~= Seq::<(Seq<char>, ValueView)>::empty());
        assert(entries_map(m@) =~= fields_map(fs.take(0)));
    }
    let mut i: usize = 0;
    while i < fields.fields.len()
        invariant
            fs == fields@,
            i <= fs.len(),
            fs.len() == fields.fields@.len(),
            entries_map(m@) == fields_map(fs.take(i as int)),
        decreases fs.len() - i,
    {
        let f = &fields.fields[i];
        m.set(f.name.clone(), f.value.clone());
        proof {
            assert(fs.take(i as int + 1).drop_last() =~= fs.take(i as int));
            assert(fs[i as int] == (f.name@, f.value@));
        }
        i = i + 1;
    }
    proof {
        assert(fs.take(fs.len() as int) =~= fs);
    }
    let _ = m.len();
    m.write_json(out);
    proof {
        assert(key_members(fs, m@));
    }
}

/// Serializes a path element: `f:` and the field name, `v:` and the JSON
/// text of the value, `k:` and the key fields as a JSON object with sorted
/// names, `i:` and the decimal index. Serialization does not fail.
pub fn serialize_path_element(pe: &PathElement) -> (r: Result<String, SerializeError>)
    ensures
        r is Ok,
        !(pe@ is Key) ==> (r matches Ok(s) && s@ == element_text(pe@)),
        pe@ is Key ==> (r matches Ok(s) && exists|es: Seq<(Seq<char>, ValueView)>|
            key_members(pe@->Key_0, es) && s@ == seq!['k', ':', '{'] + json_members(es) + seq!['}']),
        r matches Ok(s) && s@ == element_key(pe@),
{
    let mut out = String::new();
    match pe {
        PathElement::FieldName(name) => {
            push_str(&mut out, "f:");
            push_str(&mut out, name.as_str());
        },
        PathElement::Value(v) => {
            push_str(&mut out, "v:");
            v.write_json(&mut out);
        },
        PathElement::Key(fields) => {
            push_str(&mut out, "k:");
            let ghost mid = out@;
            write_key_object(fields, &mut out);
            proof {
                reveal_strlit("k:");
                let es = choose|es: Seq<(Seq<char>, ValueView)>|
                    key_members(fields@, es) && out@ == mid + seq!['{'] + json_members(es) + seq!['}'];
                assert(out@ =~= seq!['k', ':', '{'] + json_members(es) + seq!['}']);
                assert(pe@->Key_0 == fields@);
                assert(key_members(pe@->Key_0, es));
                lemma_sorted_entries_of(es);
            }
        },
        PathElement::Index(i) => {
            push_str(&mut out, "i:");
            push_decimal(&mut out, *i as i64);
        },
    }
    proof {
        reveal_strlit("f:");
        reveal_strlit("v:");
        reveal_strlit("k:");
        reveal_strlit("i:");
        if !(pe@ is Key) {
            assert(out@ =~= element_text(pe@));
        }
    }
    Ok(out)
}

// ---------------------------------------------------------------------------
// Reading path elements back.
// ---------------------------------------------------------------------------

/// The numeric value of a sequence of decimal digits.
pub open spec fn digits_value(ds: Seq<char>) -> int
    decreases ds.len(),
{
    if ds.len() == 0 {
        0
    } else {
        digits_value(ds.drop_last()) * 10 + (ds.last() as int - '0' as int)
    }
}

/// Every character is a decimal digit.
pub open spec fn all_digits(ds: Seq<char>) -> bool {
    forall|i: int| 0 <= i < ds.len() ==> '0' <= #[trigger] ds[i] && ds[i] <= '9'
}

/// The digits of an index text: what follows its sign, if it has one.
pub open spec fn index_digits(t: Seq<char>) -> Seq<char> {
    if t.len() > 0 && (t[0] == '-' || t[0] == '+') {
        t.skip(1)
    } else {
        t
    }
}

/// The index that `t` stands for, as std's `i32` parser reads it: an
/// optional `+` or `-`, then one or more decimal digits, within the range of
/// `i32`.
pub open spec fn index_value(t: Seq<char>) -> Option<int> {
    let ds = index_digits(t);
    let n = if t.len() > 0 && t[0] == '-' {
        -digits_value(ds)
    } else {
        digits_value(ds)
    };
    if ds.len() > 0 && all_digits(ds) && i32::MIN <= n <= i32::MAX {
        Some(n)
    } else {
        None
    }
}

/// The value of a prefix of digits is at most the value of the digits.
proof fn lemma_digits_prefix(ds: Seq<char>, k: int)
    requires
        all_digits(ds),
        0 <= k <= ds.len(),
    ensures
        0 <= digits_value(ds.take(k)) <= digits_value(ds),
    decreases ds.len(),
{
    if k < ds.len() {
        let d = ds.drop_last();
        assert(all_digits(d)) by {
            assert forall|i: int| 0 <= i < d.len() implies '0' <= #[trigger] d[i] && d[i] <= '9' by {
                assert(d[i] == ds[i]);
            }
        }
        lemma_digits_prefix(d, k);
        assert(d.take(k) =~= ds.take(k));
        lemma_digits_prefix(d, d.len() as int);
        assert(d.take(d.len() as int) =~= d);
        assert('0' <= ds[ds.len() - 1]);
    } else {
        assert(ds.take(k) =~= ds);
        if ds.len() > 0 {
            let d = ds.drop_last();
            assert(all_digits(d)) by {
                assert forall|i: int| 0 <= i < d.len() implies '0' <= #[trigger] d[i] && d[i] <= '9' by {
                    assert(d[i] == ds[i]);
                }
            }
            lemma_digits_prefix(d, d.len() as int);
            assert(d.take(d.len() as int) =~= d);
            assert('0' <= ds[ds.len() - 1]);
        }
    }
}

proof fn lemma_digit_char(d: int)
    requires
        0 <= d < 10,
    ensures
        '0' <= digit_char(d) && digit_char(d) <= '9',
        digit_char(d) as int - '0' as int == d,
{
    assert(d == 0 || d == 1 || d == 2 || d == 3 || d == 4 || d == 5 || d == 6 || d == 7 || d == 8 || d == 9);
}

/// The digits of a natural number read back as that number.
proof fn lemma_decimal_nat_digits(n: nat)
    ensures
        decimal_nat(n).len() > 0,
        all_digits(decimal_nat(n)),
        digits_value(decimal_nat(n)) == n,
    decreases n,
{
    let t = decimal_nat(n);
    lemma_digit_char((n % 10) as int);
    if n >= 10 {
        lemma_decimal_nat_digits(n / 10);
        assert(n == (n / 10) * 10 + n % 10);
        let p = decimal_nat(n / 10);
        assert(t.drop_last() =~= p);
        assert(t.last() == digit_char((n % 10) as int));
        assert(digits_value(t) == digits_value(t.drop_last()) * 10 + (t.last() as int - '0' as int));
        assert(digits_value(t) == (n / 10) * 10 + n % 10);
        assert(all_digits(t)) by {
            assert forall|i: int| 0 <= i < t.len() implies '0' <= #[trigger] t[i] && t[i] <= '9' by {
                if i < p.len() {
                    assert(t[i] == p[i]);
                }
            }
        }
    } else {
        assert(t.drop_last() =~= Seq::<char>::empty());
        assert(t[0] == digit_char(n as int));
        assert(digits_value(t.drop_last()) == 0);
        assert(digits_value(t) == digits_value(t.drop_last()) * 10 + (t.last() as int - '0' as int));
    }
}

/// Law: the text of an index reads back as that index.
pub proof fn lemma_index_text_round_trip(i: int)
    requires
        i32::MIN <= i <= i32::MAX,
    ensures
        index_value(decimal(i)) == Some(i),
{
    if i < 0 {
        lemma_decimal_nat_digits((-i) as nat);
        assert((seq!['-'] + decimal_nat((-i) as nat)).skip(1) =~= decimal_nat((-i) as nat));
    } else {
        lemma_decimal_nat_digits(i as nat);
        let t = decimal_nat(i as nat);
        assert(t[0] != '-' && t[0] != '+');
    }
}

/// Law: the text of a field name or index element starts with its two
/// character tag and the rest reads back as the element.
pub proof fn lemma_element_text_round_trip(pe: PathElementView)
    requires
        pe is FieldName || pe is Index,
        pe is Index ==> i32::MIN <= pe->Index_0 <= i32::MAX,
    ensures
        element_text(pe).len() >= 2,
        pe is FieldName ==> element_text(pe).take(2) == seq!['f', ':'] && PathElementView::FieldName(
            element_text(pe).skip(2),
        ) == pe,
        pe is Index ==> element_text(pe).take(2) == seq!['i', ':'] && index_value(element_text(pe).skip(2))
            == Some(pe->Index_0),
{
    match pe {
        PathElementView::FieldName(n) => {
            assert((seq!['f', ':'] + n).take(2) =~= seq!['f', ':']);
            assert((seq!['f', ':'] + n).skip(2) =~= n);
        },
        PathElementView::Index(i) => {
            assert((seq!['i', ':'] + decimal(i)).take(2) =~= seq!['i', ':']);
            assert((seq!['i', ':'] + decimal(i)).skip(2) =~= decimal(i));
            lemma_index_text_round_trip(i);
        },
        _ => {},
    }
}

/// Reads an index: the text must be what [`index_value`] accepts. The error
/// message gives std's reason after `invalid index: `.
fn parse_index(t: &str) -> (r: Result<i32, SerializeError>)
    ensures
        r is Ok <==> index_value(t@) is Some,
        r matches Ok(i) ==> index_value(t@) == Some(i as int),
{
    let n = t.unicode_len();
    let ghost s = t@;
    if n == 0 {
        return Err(SerializeError::new("invalid index: cannot parse integer from empty string"));
    }
    let c0 = t.get_char(0);
    let neg = c0 == '-';
    let start: usize = if c0 == '-' || c0 == '+' {
        1
    } else {
        0
    };
    let ghost ds = s.skip(start as int);
    proof {
        assert(s[0] == c0);
        if start == 0 {
            assert(s.skip(0) =~= s);
        }
        assert(ds == index_digits(s));
    }
    if start == n {
        proof {
            assert(ds.len() == 0);
        }
        return Err(SerializeError::new("invalid index: invalid digit found in string"));
    }
    let limit: u64 = if neg {
        2147483648
    } else {
        2147483647
    };
    let mut acc: u64 = 0;
    let mut i: usize = start;
    proof {
        assert(ds.take(0) =~= Seq::<char>::empty());
    }
    while i < n
        invariant
            n == s.len(),
            s == t@,
            start <= i <= n,
            start <= 1,
            ds == s.skip(start as int),
            ds == index_digits(s),
            neg == (s.len() > 0 && s[0] == '-'),
            limit == (if neg { 2147483648u64 } else { 2147483647u64 }),
            acc <= limit,
            limit <= 2147483648,
            acc == digits_value(ds.take(i - start)),
            all_digits(ds.take(i - start)),
        decreases n - i,
    {
        let c = t.get_char(i);
        if c < '0' || c > '9' {
            proof {
                assert(ds[i - start] == c);
                assert(!all_digits(ds));
            }
            return Err(SerializeError::new("invalid index: invalid digit found in string"));
        }
        let d: u64 = (c as u32 - '0' as u32) as u64;
        let next = acc * 10 + d;
        proof {
            let k = i - start;
            assert(ds.take(k + 1).drop_last() =~= ds.take(k));
            assert(ds[k] == c);
            assert(ds.take(k + 1).last() == c);
            assert(digits_value(ds.take(k + 1)) == next);
            assert(all_digits(ds.take(k + 1))) by {
                assert forall|j: int| 0 <= j < k + 1 implies '0' <= #[trigger] ds.take(k + 1)[j] && ds.take(k + 1)[j] <= '9' by {
                    if j < k {
                        assert(ds.take(k + 1)[j] == ds.take(k)[j]);
                    }
                }
            }
        }
        if next > limit {
            proof {
                let k = i - start;
                if all_digits(ds) {
                    lemma_digits_prefix(ds, k + 1);
                    assert(digits_value(ds) > limit);
                }
            }
            if neg {
                return Err(SerializeError::new("invalid index: number too small to fit in target type"));
            } else {
                return Err(SerializeError::new("invalid index: number too large to fit in target type"));
            }
        }
        acc = next;
        i = i + 1;
    }
    proof {
        assert(ds.take(n - start) =~= ds);
        assert(ds.len() > 0);
        assert(acc == digits_value(ds));
    }
    let r: i32 = if neg {
        if acc == 2147483648 {
            i32::MIN
        } else {
            -(acc as i32)
        }
    } else {
        acc as i32
    };
    Ok(r)
}

/// The value of the library that a JSON document stands for: a number
/// that fits an `i64` is an integer and any other number keeps its JSON
/// text; an object's members go into a map in order, a later member of a
/// name in place of an earlier one.
pub open spec fn json_value_view(j: JsonView) -> ValueView
    decreases j,
{
    match j {
        JsonView::Null => ValueView::Null,
        JsonView::Bool(b) => ValueView::Bool(b),
        JsonView::Number(n, t) => match n {
            Some(i) => ValueView::Int(i),
            None => ValueView::Float(t),
        },
        JsonView::String(t) => ValueView::Str(t),
        JsonView::Array(xs) => ValueView::List(json_items_view(xs)),
        JsonView::Object(ps) => ValueView::Object(json_members_into(Seq::empty(), ps)),
    }
}

/// The values of the items of a JSON array, in order.
pub open spec fn json_items_view(xs: Seq<JsonView>) -> Seq<ValueView>
    decreases xs,
{
    if xs.len() == 0 {
        Seq::empty()
    } else {
        seq![json_value_view(xs[0])] + json_items_view(xs.drop_first())
    }
}

/// The sorted entries `acc` with the members `ps` put in, one after the
/// other.
pub open spec fn json_members_into(acc: Seq<(Seq<char>, ValueView)>, ps: Seq<(Seq<char>, JsonView)>) -> Seq<(Seq<char>, ValueView)>
    decreases ps,
{
    if ps.len() == 0 {
        acc
    } else {
        json_members_into(insert_sorted(acc, ps[0].0, json_value_view(ps[0].1)), ps.drop_first())
    }
}

/// What JSON text reads as: the value of the document, or the text of the
/// error that serde_json refuses it with.
pub open spec fn json_text_value(t: Seq<char>) -> Result<ValueView, Seq<char>> {
    match json_text_read(t) {
        Ok(j) => Ok(json_value_view(j)),
        Err(m) => Err(m),
    }
}

/// What JSON bytes read as: the value of the document, or the text of the
/// error that serde_json refuses them with.
pub open spec fn json_bytes_value(d: Seq<u8>) -> Result<ValueView, Seq<char>> {
    match json_bytes_read(d) {
        Ok(j) => Ok(json_value_view(j)),
        Err(m) => Err(m),
    }
}

proof fn lemma_json_items_view(xs: Seq<JsonView>)
    ensures
        json_items_view(xs).len() == xs.len(),
        forall|i: int| 0 <= i < xs.len() ==> #[trigger] json_items_view(xs)[i] == json_value_view(xs[i]),
    decreases xs.len(),
{
    if xs.len() > 0 {
        lemma_json_items_view(xs.drop_first());
        assert forall|i: int| 0 <= i < xs.len() implies #[trigger] json_items_view(xs)[i] == json_value_view(xs[i]) by {
            if i > 0 {
                assert(xs.drop_first()[i - 1] == xs[i]);
            }
        }
    }
}

/// Converts a serde_json value into a value of the library, as
/// [`json_value_view`] says of the document it holds.
pub fn value_from_json(j: &serde_json::Value) -> (r: Value)
    ensures
        r@ == json_value_view(json_view(*j)),
    decreases json_view(*j),
{
    let ghost jv = json_view(*j);
    let r = match json_kind(j) {
        JsonKind::Null => Value::Null,
        JsonKind::Bool => match json_as_bool(j) {
            Some(b) => Value::Bool(b),
            None => Value::Null,
        },
        JsonKind::Number => match json_as_i64(j) {
            Some(i) => Value::Int(i),
            None => Value::Float(json_to_text(j)),
        },
        JsonKind::String => match json_as_str(j) {
            Some(t) => Value::String(t),
            None => Value::Null,
        },
        JsonKind::Array => {
            let items = json_as_array(j);
            let ghost xs = jv->Array_0;
            let mut values: Vec<Value> = Vec::new();
            let mut i: usize = 0;
            while i < items.len()
                invariant
                    jv == JsonView::Array(xs),
                    jv == json_view(*j),
                    items@.len() == xs.len(),
                    forall|k: int| 0 <= k < xs.len() ==> #[trigger] json_view(items@[k]) == xs[k],
                    i <= items.len(),
                    values@.len() == i,
                    forall|k: int| 0 <= k < i ==> #[trigger] values@[k]@ == json_value_view(xs[k]),
                decreases items.len() - i,
            {
                proof {
                    assert(json_view(items@[i as int]) == xs[i as int]);
                    assert(decreases_to!(jv => jv->Array_0));
                    assert(decreases_to!(xs => xs[i as int]));
                }
                let v = value_from_json(&items[i]);
                values.push(v);
                i = i + 1;
            }
            proof {
                lemma_json_items_view(xs);
                crate::value::lemma_values_view(values@);
                assert(crate::value::values_view(values@) =~= json_items_view(xs));
            }
            Value::List(values)
        },
        JsonKind::Object => {
            let members = json_as_object(j);
            let ghost ps = jv->Object_0;
            let mut m = ValueMap::new();
            let mut i: usize = 0;
            proof {
                assert(ps.skip(0) =~= ps);
            }
            while i < members.len()
                invariant
                    jv == JsonView::Object(ps),
                    jv == json_view(*j),
                    members@.len() == ps.len(),
                    forall|k: int|
                        #![trigger members@[k]]
                        0 <= k < ps.len() ==> members@[k].0@ == ps[k].0 && json_view(members@[k].1) == ps[k].1,
                    i <= members.len(),
                    json_members_into(m@, ps.skip(i as int)) == json_members_into(Seq::empty(), ps),
                decreases members.len() - i,
            {
                proof {
                    assert(members@[i as int].0@ == ps[i as int].0);
                    assert(json_view(members@[i as int].1) == ps[i as int].1);
                    assert(decreases_to!(jv => jv->Object_0));
                    assert(decreases_to!(ps => ps[i as int]));
                    assert(decreases_to!(ps[i as int] => ps[i as int].1));
                }
                let v = value_from_json(&members[i].1);
                let ghost before = m@;
                m.set(members[i].0.clone(), v);
                proof {
                    assert(ps.skip(i as int).drop_first() =~= ps.skip(i + 1));
                    assert(ps.skip(i as int)[0] == ps[i as int]);
                }
                i = i + 1;
            }
            proof {
                assert(ps.skip(members.len() as int) =~= Seq::<(Seq<char>, JsonView)>::empty());
            }
            Value::Object(m)
        },
    };
    proof {
        lemma_value_view_cases(r);
    }
    r
}

/// Reads JSON text into a value, as [`json_text_value`] says; text that
/// serde_json refuses gives `JSON parse error: ` and serde_json's message.
fn json_to_value(text: &str) -> (r: Result<Value, SerializeError>)
    ensures
        match json_text_value(text@) {
            Ok(v) => r matches Ok(x) && x@ == v,
            Err(m) => r matches Err(e) && e.message@ == "JSON parse error: "@ + m,
        },
{
    match parse_json(text) {
        Ok(j) => Ok(value_from_json(&j)),
        Err(m) => {
            let mut message = String::from_str("JSON parse error: ");
            push_str(&mut message, m.as_str());
            proof {
                reveal_strlit("JSON parse error: ");
            }
            Err(SerializeError { message })
        },
    }
}

/// The key that a value read from `k:` text stands for: the members of an
/// object, in name order; any other value is refused.
pub fn key_from_value(v: &Value) -> (r: Result<FieldList, SerializeError>)
    ensures
        r is Ok <==> v@ is Object,
        r matches Ok(fs) ==> fs@ == v@->Object_0 && keys_sorted(fs@),
        r matches Err(e) ==> e.message@ == "expected JSON object for key"@,
{
    proof {
        lemma_value_view_cases(*v);
    }
    match v {
        Value::Object(m) => {
            let _ = m.len();
            Ok(m.to_field_list())
        },
        _ => Err(SerializeError::new("expected JSON object for key")),
    }
}

/// The length of a text in UTF-8 bytes.
pub open spec fn utf8_len(t: Seq<char>) -> int {
    encode_utf8(t).len() as int
}

/// A text holds at least as many UTF-8 bytes as characters.
proof fn lemma_utf8_len(t: Seq<char>)
    ensures
        utf8_len(t) >= t.len(),
    decreases t.len(),
{
    if t.len() > 0 {
        lemma_utf8_len(t.drop_first());
    }
}

/// Deserializes a path element from its text form.
///
/// The first two characters select the kind: `f:` a field name (the rest of
/// the text), `v:` a value (JSON text, see [`json_text_value`]), `k:` a key
/// (a JSON object), `i:` an index (see [`index_value`]). Text of fewer than
/// two bytes is refused as too short; any other tag, or a text of one
/// character of two or more bytes, as an unknown type.
pub fn deserialize_path_element(s: &str) -> (r: Result<PathElement, SerializeError>)
    ensures
        utf8_len(s@) < 2 ==> (r matches Err(e) && e.message@ == "key must be at least 2 characters long"@),
        utf8_len(s@) >= 2 && s@.len() < 2 ==> (r matches Err(e) && e.message@ == "unknown path element type: "@ + s@),
        s@.len() >= 2 && s@.take(2) == seq!['f', ':'] ==> (r matches Ok(pe) && pe@
            == PathElementView::FieldName(s@.skip(2))),
        s@.len() >= 2 && s@.take(2) == seq!['i', ':'] ==> (r is Ok <==> index_value(s@.skip(2)) is Some) && (
        r matches Ok(pe) ==> pe@ == PathElementView::Index(index_value(s@.skip(2))->0)),
        s@.len() >= 2 && s@.take(2) == seq!['v', ':'] ==> match json_text_value(s@.skip(2)) {
            Ok(v) => r matches Ok(pe) && pe@ == PathElementView::Value(v),
            Err(m) => r matches Err(e) && e.message@ == "JSON parse error: "@ + m,
        },
        s@.len() >= 2 && s@.take(2) == seq!['k', ':'] ==> match json_text_value(s@.skip(2)) {
            Ok(ValueView::Object(es)) => r matches Ok(pe) && pe@ == PathElementView::Key(es),
            Ok(_) => r matches Err(e) && e.message@ == "expected JSON object for key"@,
            Err(m) => r matches Err(e) && e.message@ == "JSON parse error: "@ + m,
        },
        s@.len() >= 2 && s@.take(2) != seq!['f', ':'] && s@.take(2) != seq!['i', ':'] && s@.take(2) != seq![
            'v',
            ':',
        ] && s@.take(2) != seq!['k', ':'] ==> (r matches Err(e) && e.message@ == "unknown path element type: "@ + s@.take(2)),
{
    proof {
        lemma_utf8_len(s@);
    }
    let n = s.unicode_len();
    if n < 2 {
        proof {
            if n == 1 {
                assert(s@.drop_first() =~= Seq::<char>::empty());
                assert(encode_utf8(s@) == vstd::utf8::encode_scalar(s@[0] as u32) + encode_utf8(s@.drop_first()));
            }
        }
        if n == 0 || (s.get_char(0) as u32) < 0x80 {
            return Err(SerializeError::new("key must be at least 2 characters long"));
        }
        let mut message = String::from_str("unknown path element type: ");
        push_str(&mut message, s);
        return Err(SerializeError { message });
    }
    let prefix = s.substring_char(0, 2);
    let content = s.substring_char(2, n);
    proof {
        reveal_strlit("f:");
        reveal_strlit("v:");
        reveal_strlit("k:");
        reveal_strlit("i:");
        assert(prefix@ =~= s@.take(2));
        assert(content@ =~= s@.skip(2));
        assert(seq!['f', ':'] =~= "f:"@);
        assert(seq!['v', ':'] =~= "v:"@);
        assert(seq!['k', ':'] =~= "k:"@);
        assert(seq!['i', ':'] =~= "i:"@);
    }
    if str_equal(prefix, "f:") {
        Ok(PathElement::FieldName(String::from_str(content)))
    } else if str_equal(prefix, "v:") {
        match json_to_value(content) {
            Ok(v) => Ok(PathElement::Value(v)),
            Err(e) => Err(e),
        }
    } else if str_equal(prefix, "k:") {
        match json_to_value(content) {
            Ok(v) => match key_from_value(&v) {
                Ok(fields) => Ok(PathElement::Key(fields)),
                Err(e) => Err(e),
            },
            Err(e) => Err(e),
        }
    } else if str_equal(prefix, "i:") {
        match parse_index(content) {
            Ok(i) => Ok(PathElement::Index(i)),
            Err(e) => Err(e),
        }
    } else {
        let mut message = String::from_str("unknown path element type: ");
        push_str(&mut message, prefix);
        Err(SerializeError { message })
    }
}

// ---------------------------------------------------------------------------
// Sets of field paths as JSON.
// ---------------------------------------------------------------------------

/// The JSON object with no member.
pub open spec fn empty_object() -> ValueView {
    ValueView::Object(Seq::empty())
}

/// The JSON form of a set, as a value: an object whose member names are the
/// texts of the set's top-level elements (see [`element_key`]). A member
/// alone maps to `{}`; an element with paths below it maps to the JSON form
/// of its child, which holds a `"."` member (`{}`) when the element is a
/// member too. Where two elements are written as the same text, the later
/// one in the element order wins.
pub open spec fn set_json(v: SetView, marked: bool) -> ValueView
    decreases v, v.members.len() + v.children.len() + 1,
{
    ValueView::Object(
        sorted_entries(
            set_json_fold(
                v,
                0,
                0,
                if marked && !(v.members.len() == 0 && v.children.len() == 0) {
                    map![seq!['.'] => empty_object()]
                } else {
                    Map::empty()
                },
            ),
        ),
    )
}

/// Adds to `acc` the members for the set's elements from the `i`-th member
/// and the `j`-th child on, taking members and children together in the
/// element order.
pub open spec fn set_json_fold(v: SetView, i: int, j: int, acc: Map<Seq<char>, ValueView>) -> Map<Seq<char>, ValueView>
    decreases v, v.members.len() + v.children.len() - i - j,
{
    let nm = v.members.len() as int;
    let nc = v.children.len() as int;
    if !(0 <= i <= nm && 0 <= j <= nc) || (i == nm && j == nc) {
        acc
    } else if i == nm || (j < nc && element_order(v.children[j].0, v.members[i]) < 0) {
        set_json_fold(v, i, j + 1, acc.insert(element_key(v.children[j].0), set_json(v.children[j].1, false)))
    } else if j < nc && v.children[j].0 == v.members[i] {
        set_json_fold(v, i + 1, j + 1, acc.insert(element_key(v.members[i]), set_json(v.children[j].1, true)))
    } else {
        set_json_fold(v, i + 1, j, acc.insert(element_key(v.members[i]), empty_object()))
    }
}

impl FieldPathSet {
    /// The JSON form of the set as a value (see [`set_json`]).
    fn json_value(&self, marked: bool) -> (r: Value)
        ensures
            r@ == set_json(self@, marked),
        decreases self@,
    {
        let ms = self.members();
        let nm = ms.len();
        let nc = self.child_count();
        let ghost v = self@;
        let mut m = ValueMap::new();
        proof {
            assert(entries_map(m@) =~= Map::empty());
        }
        if marked && !(nm == 0 && nc == 0) {
            let e = Value::Object(ValueMap::new());
            proof {
                reveal_strlit(".");
                lemma_value_view_cases(e);
            }
            let dot = String::from_str(".");
            proof {
                assert(dot@ =~= seq!['.']);
            }
            m.set(dot, e);
        }
        let ghost base = entries_map(m@);
        proof {
            let b = if marked && !(v.members.len() == 0 && v.children.len() == 0) {
                map![seq!['.'] => empty_object()]
            } else {
                Map::empty()
            };
            assert(base =~= b);
        }
        let mut i: usize = 0;
        let mut j: usize = 0;
        while i < nm || j < nc
            invariant
                v == self@,
                wf_view(v),
                ms@ == v.members,
                nm == v.members.len(),
                nc == v.children.len(),
                i <= nm,
                j <= nc,
                set_json_fold(v, i as int, j as int, entries_map(m@)) == set_json_fold(v, 0, 0, base),
            decreases nm + nc - i - j,
        {
            let ghost acc = entries_map(m@);
            let child_first = if i == nm {
                true
            } else if j < nc {
                self.child_at(j).0.compare(ms.element_at(i)) < 0
            } else {
                false
            };
            let same = !child_first && j < nc && self.child_at(j).0.compare(ms.element_at(i)) == 0;
            if child_first {
                let (pe, c) = self.child_at(j);
                proof {
                    assert(decreases_to!(v => v.children));
                    assert(decreases_to!(v.children => v.children[j as int]));
                }
                let key = match serialize_path_element(pe) {
                    Ok(s) => s,
                    Err(_) => String::new(),
                };
                let cv = c.json_value(false);
                m.set(key, cv);
                j = j + 1;
            } else if same {
                let (pe, c) = self.child_at(j);
                proof {
                    lemma_element_order_eq(pe@, ms@[i as int]);
                    assert(decreases_to!(v => v.children));
                    assert(decreases_to!(v.children => v.children[j as int]));
                }
                let key = match serialize_path_element(ms.element_at(i)) {
                    Ok(s) => s,
                    Err(_) => String::new(),
                };
                let cv = c.json_value(true);
                m.set(key, cv);
                i = i + 1;
                j = j + 1;
            } else {
                proof {
                    if j < nc {
                        lemma_element_order_eq(v.children[j as int].0, ms@[i as int]);
                    }
                }
                let key = match serialize_path_element(ms.element_at(i)) {
                    Ok(s) => s,
                    Err(_) => String::new(),
                };
                let e = Value::Object(ValueMap::new());
                proof {
                    lemma_value_view_cases(e);
                }
                m.set(key, e);
                i = i + 1;
            }
        }
        let _ = m.len();
        proof {
            lemma_sorted_entries_of(m@);
        }
        let r = Value::Object(m);
        proof {
            lemma_value_view_cases(r);
        }
        r
    }

    /// Serializes the set as JSON: an object whose member names are the
    /// texts of the top-level elements, each mapped to `{}` or to the JSON
    /// object of the paths below it, with `"."` marking an element that is
    /// also a member (see [`set_json`]); the bytes are the UTF-8 of the
    /// compact text. Serialization does not fail.
    pub fn to_json(&self) -> (r: Result<Vec<u8>, SerializeError>)
        ensures
            r matches Ok(b) && b@ == vstd::utf8::encode_utf8(json_text(set_json(self@, false))),
    {
        let v = self.json_value(false);
        let mut out = String::new();
        v.write_json(&mut out);
        proof {
            assert(out@ =~= json_text(set_json(self@, false)));
        }
        Ok(out.as_str().as_bytes_vec())
    }
}

/// The element that a member name stands for, as
/// [`deserialize_path_element`] reads it; `None` where it gives an error.
pub open spec fn name_element(t: Seq<char>) -> Option<PathElementView> {
    if t.len() >= 2 && t.take(2) == seq!['f', ':'] {
        Some(PathElementView::FieldName(t.skip(2)))
    } else if t.len() >= 2 && t.take(2) == seq!['i', ':'] && index_value(t.skip(2)) is Some {
        Some(PathElementView::Index(index_value(t.skip(2))->0))
    } else if t.len() >= 2 && t.take(2) == seq!['v', ':'] && json_text_value(t.skip(2)) is Ok {
        Some(PathElementView::Value(json_text_value(t.skip(2))->Ok_0))
    } else if t.len() >= 2 && t.take(2) == seq!['k', ':'] && json_text_value(t.skip(2)) matches Ok(ValueView::Object(es)) {
        Some(PathElementView::Key(json_text_value(t.skip(2))->Ok_0->Object_0))
    } else {
        None
    }
}

/// A member name that reading passes over: `.` (which marks the enclosing
/// element), or a name with a tag other than `f:`, `v:`, `k:` and `i:`.
pub open spec fn skipped_name(t: Seq<char>) -> bool {
    t == seq!['.'] || (t.len() >= 2 && t.take(2) != seq!['f', ':'] && t.take(2) != seq!['v', ':'] && t.take(2)
        != seq!['k', ':'] && t.take(2) != seq!['i', ':'])
}

/// A `v:` or `k:` name, whose element is read as JSON.
pub open spec fn json_element_name(t: Seq<char>) -> bool {
    t.len() >= 2 && (t.take(2) == seq!['v', ':'] || t.take(2) == seq!['k', ':'])
}

/// The members hold no `v:` or `k:` name, at any depth.
pub open spec fn plain_doc(es: Seq<(Seq<char>, ValueView)>) -> bool
    decreases es,
{
    forall|i: int|
        0 <= i < es.len() ==> !json_element_name(#[trigger] es[i].0) && (es[i].1 is Object ==> plain_doc(
            es[i].1->Object_0,
        ))
}

/// The members read without error: each name is passed over, or stands for
/// an element and maps to an object whose own members read without error.
pub open spec fn doc_reads(es: Seq<(Seq<char>, ValueView)>) -> bool
    decreases es,
{
    forall|i: int|
        0 <= i < es.len() ==> skipped_name(#[trigger] es[i].0) || (name_element(es[i].0) is Some
            && es[i].1 is Object && doc_reads(es[i].1->Object_0))
}

/// The path `q` is in the set read from the first `k` members. A name that
/// stands for the element `pe` and maps to an object `c` makes `pe` a member
/// when `c` is empty or has a `.` member, and, when the set read from `c` is
/// not empty, makes that set the child of `pe` (in place of any earlier
/// one).
pub open spec fn doc_has(es: Seq<(Seq<char>, ValueView)>, k: int, q: Seq<PathElementView>) -> bool
    decreases es, k,
{
    if k <= 0 || k > es.len() {
        false
    } else if !skipped_name(es[k - 1].0) && name_element(es[k - 1].0) is Some && es[k - 1].1 is Object {
        let pe = name_element(es[k - 1].0)->0;
        let c = es[k - 1].1->Object_0;
        if q.len() == 1 && q[0] == pe && (c.len() == 0 || has_key(c, seq!['.'])) {
            true
        } else if q.len() >= 2 && q[0] == pe && doc_nonempty(c) {
            doc_has(c, c.len() as int, q.drop_first())
        } else {
            doc_has(es, k - 1, q)
        }
    } else {
        doc_has(es, k - 1, q)
    }
}

/// Some path is read from the members.
pub open spec fn doc_nonempty(es: Seq<(Seq<char>, ValueView)>) -> bool
    decreases es, es.len() as int + 1,
{
    doc_nonempty_upto(es, es.len() as int)
}

/// Some path is read from the first `k` members: one of them stands for an
/// element and maps to an object that is empty, has a `.` member, or holds
/// some path itself.
pub open spec fn doc_nonempty_upto(es: Seq<(Seq<char>, ValueView)>, k: int) -> bool
    decreases es, k,
{
    if k <= 0 || k > es.len() {
        false
    } else if !skipped_name(es[k - 1].0) && name_element(es[k - 1].0) is Some && es[k - 1].1 is Object && (
    es[k - 1].1->Object_0.len() == 0 || has_key(es[k - 1].1->Object_0, seq!['.']) || doc_nonempty(
        es[k - 1].1->Object_0,
    )) {
        true
    } else {
        doc_nonempty_upto(es, k - 1)
    }
}

pub proof fn lemma_doc_has_empty_path(es: Seq<(Seq<char>, ValueView)>, k: int)
    ensures
        !doc_has(es, k, Seq::empty()),
    decreases k,
{
    if 0 < k <= es.len() {
        lemma_doc_has_empty_path(es, k - 1);
    }
}

/// [`doc_nonempty_upto`] holds exactly when some path is read from the
/// first `k` members.
proof fn lemma_doc_nonempty_upto(es: Seq<(Seq<char>, ValueView)>, k: int)
    ensures
        doc_nonempty_upto(es, k) == exists|q: Seq<PathElementView>| #[trigger] doc_has(es, k, q),
    decreases es, k,
{
    if 0 < k <= es.len() {
        lemma_doc_nonempty_upto(es, k - 1);
        let t = es[k - 1].0;
        let val = es[k - 1].1;
        if !skipped_name(t) && name_element(t) is Some && val is Object {
            let pe = name_element(t)->0;
            let c = val->Object_0;
            assert(decreases_to!(es => es[k - 1]));
            assert(decreases_to!(es[k - 1] => es[k - 1].1));
            assert(decreases_to!(es[k - 1].1 => es[k - 1].1->Object_0));
            lemma_doc_nonempty_upto(c, c.len() as int);
            if c.len() == 0 || has_key(c, seq!['.']) {
                let q = seq![pe];
                assert(q[0] == pe);
                assert(doc_has(es, k, q));
            } else if doc_nonempty(c) {
                let q1 = choose|q: Seq<PathElementView>| #[trigger] doc_has(c, c.len() as int, q);
                lemma_doc_has_empty_path(c, c.len() as int);
                assert(q1.len() > 0) by {
                    if q1.len() == 0 {
                        assert(q1 =~= Seq::<PathElementView>::empty());
                    }
                }
                let q = seq![pe] + q1;
                assert(q.drop_first() =~= q1);
                assert(q[0] == pe);
                assert(doc_has(es, k, q));
            } else {
                if exists|q: Seq<PathElementView>| #[trigger] doc_has(es, k, q) {
                    let q = choose|q: Seq<PathElementView>| #[trigger] doc_has(es, k, q);
                    assert(doc_has(es, k - 1, q));
                }
                if exists|q: Seq<PathElementView>| #[trigger] doc_has(es, k - 1, q) {
                    let q = choose|q: Seq<PathElementView>| #[trigger] doc_has(es, k - 1, q);
                    assert(doc_has(es, k, q));
                }
            }
        } else {
            if exists|q: Seq<PathElementView>| #[trigger] doc_has(es, k, q) {
                let q = choose|q: Seq<PathElementView>| #[trigger] doc_has(es, k, q);
                assert(doc_has(es, k - 1, q));
            }
            if exists|q: Seq<PathElementView>| #[trigger] doc_has(es, k - 1, q) {
                let q = choose|q: Seq<PathElementView>| #[trigger] doc_has(es, k - 1, q);
                assert(doc_has(es, k, q));
            }
        }
    }
}

pub proof fn lemma_doc_nonempty(es: Seq<(Seq<char>, ValueView)>)
    ensures
        doc_nonempty(es) == exists|q: Seq<PathElementView>| #[trigger] doc_has(es, es.len() as int, q),
{
    lemma_doc_nonempty_upto(es, es.len() as int);
}

/// Whether reading passes over the name `t` (see [`skipped_name`]).
fn is_skipped_name(t: &str) -> (r: bool)
    ensures
        r == skipped_name(t@),
{
    proof {
        reveal_strlit(".");
        reveal_strlit("f:");
        reveal_strlit("v:");
        reveal_strlit("k:");
        reveal_strlit("i:");
        assert(seq!['.'] =~= "."@);
        assert(seq!['f', ':'] =~= "f:"@);
        assert(seq!['v', ':'] =~= "v:"@);
        assert(seq!['k', ':'] =~= "k:"@);
        assert(seq!['i', ':'] =~= "i:"@);
    }
    if str_equal(t, ".") {
        return true;
    }
    let n = t.unicode_len();
    if n < 2 {
        return false;
    }
    let prefix = t.substring_char(0, 2);
    proof {
        assert(prefix@ =~= t@.take(2));
    }
    !str_equal(prefix, "f:") && !str_equal(prefix, "v:") && !str_equal(prefix, "k:") && !str_equal(prefix, "i:")
}

/// Reads a set from the members of its JSON form (see [`doc_has`]); the
/// first member that does not read gives the error.
fn read_set(m: &ValueMap) -> (r: Result<FieldPathSet, SerializeError>)
    ensures
        r matches Ok(s) ==> !s@.root,
        r is Ok <==> doc_reads(m@),
        r matches Ok(s) ==> forall|q: Seq<PathElementView>|
            #[trigger] contains_path(s@, q) == doc_has(m@, m@.len() as int, q),
    decreases m@,
{
    let n = m.len();
    let ghost es = m@;
    let mut set = FieldPathSet::new();
    let mut k: usize = 0;
    while k < n
        invariant
            es == m@,
            n == es.len(),
            k <= n,
            !set@.root,
            forall|q: Seq<PathElementView>|
                #[trigger] contains_path(set@, q) == doc_has(es, k as int, q),
            forall|i: int|
                0 <= i < k ==> skipped_name(#[trigger] es[i].0) || (name_element(es[i].0) is Some && es[i].1 is Object
                    && doc_reads(es[i].1->Object_0)),
        decreases n - k,
    {
        let (key, val) = m.entry_at(k);
        proof {
            assert(es[k as int] == (key@, val@));
        }
        if is_skipped_name(key.as_str()) {
            k = k + 1;
        } else {
            let pe = match deserialize_path_element(key.as_str()) {
                Ok(pe) => pe,
                Err(e) => {
                    proof {
                        assert(name_element(es[k as int].0) is None);
                    }
                    return Err(e);
                },
            };
            proof {
                lemma_value_view_cases(*val);
                assert(name_element(es[k as int].0) == Some(pe@));
            }
            match val {
                Value::Object(c) => {
                    let ghost cv = c@;
                    if c.is_empty() {
                        let ghost pe_v = pe@;
                        let p = Path::from_elements(vec![pe]);
                        proof {
                            assert(p@ =~= seq![pe_v]);
                        }
                        set.insert(&p);
                        proof {
                            assert(!contains_path(set@, Seq::<PathElementView>::empty()));
                            {
                                assert(!doc_nonempty(cv)) by {
                                    assert forall|q: Seq<PathElementView>| !doc_has(cv, cv.len() as int, q) by {}
                                }
                                assert(doc_reads(cv));
                                assert forall|q: Seq<PathElementView>|
                                    #[trigger] contains_path(set@, q) == doc_has(es, k + 1, q) by {
                                    if q.len() == 1 && q[0] == pe_v {
                                        assert(q =~= p@);
                                    }
                                }
                            }
                        }
                    } else {
                        let is_member = c.has(".");
                        proof {
                            assert(decreases_to!(es => es[k as int]));
                            assert(decreases_to!(es[k as int] => es[k as int].1));
                            assert(decreases_to!(es[k as int].1 => es[k as int].1->Object_0));
                        }
                        let cs = match read_set(c) {
                            Ok(s) => s,
                            Err(e) => {
                                proof {
                                    assert(!doc_reads(cv));
                                }
                                return Err(e);
                            },
                        };
                        let ghost set0 = set@;
                        let ghost pe_v = pe@;
                        if is_member {
                            let p = Path::from_elements(vec![pe.clone()]);
                            proof {
                                assert(p@ =~= seq![pe_v]);
                            }
                            set.insert(&p);
                        }
                        let ghost set1 = set@;
                        proof {
                            reveal_strlit(".");
                            assert(seq!['.'] =~= "."@);
                        }
                        let nonempty = !cs.is_empty();
                        if nonempty {
                            set.replace_child(pe, cs);
                        }
                        proof {
                            assert(!contains_path(set1, Seq::<PathElementView>::empty()));
                            assert(!contains_path(set@, Seq::<PathElementView>::empty()));
                            {
                                assert(nonempty == doc_nonempty(cv)) by {
                                    lemma_doc_nonempty(cv);
                                    if nonempty {
                                        let q = choose|q: Seq<PathElementView>| contains_path(cs@, q);
                                        assert(doc_has(cv, cv.len() as int, q));
                                    }
                                    if doc_nonempty(cv) {
                                        let q = choose|q: Seq<PathElementView>| doc_has(cv, cv.len() as int, q);
                                        assert(contains_path(cs@, q));
                                    }
                                }
                                assert forall|q: Seq<PathElementView>|
                                    #[trigger] contains_path(set@, q) == doc_has(es, k + 1, q) by {
                                    if q.len() == 1 && q[0] == pe_v && is_member {
                                        assert(q =~= seq![pe_v]);
                                    }
                                    if q.len() == 1 && q == seq![pe_v] {
                                        assert(q[0] == pe_v);
                                    }
                                }
                            }
                        }
                    }
                    k = k + 1;
                },
                _ => {
                    let mut message = String::from_str("expected object value for key: ");
                    push_str(&mut message, key.as_str());
                    return Err(SerializeError { message });
                },
            }
        }
    }
    Ok(set)
}

impl FieldPathSet {
    /// Reads a set from its JSON form, held as a value: an object whose
    /// member names are path element texts. `.` and names with an unknown
    /// tag are passed over; each other name must be a path element mapped
    /// to an object, as [`doc_has`] says. Anything else is an error: a value
    /// that is not an object, an element name that does not read, or a name
    /// mapped to a non-object.
    pub fn from_json_value(v: &Value) -> (r: Result<FieldPathSet, SerializeError>)
        ensures
            !(v@ is Object) ==> r is Err,
            r matches Ok(s) ==> !s@.root,
            v@ matches ValueView::Object(es) ==> (r is Ok <==> doc_reads(es)),
            v@ matches ValueView::Object(es) ==> (r matches Ok(s) ==> forall|q: Seq<PathElementView>|
                #[trigger] contains_path(s@, q) == doc_has(es, es.len() as int, q)),
    {
        proof {
            lemma_value_view_cases(*v);
        }
        match v {
            Value::Object(m) => read_set(m),
            _ => Err(SerializeError::new("expected JSON object")),
        }
    }

    /// Deserializes a set from JSON bytes: serde_json reads the document
    /// (see [`json_bytes_value`]), which is then read as
    /// [`from_json_value`](Self::from_json_value) says. Bytes that
    /// serde_json refuses give `JSON parse error: ` and serde_json's message.
    pub fn from_json(data: &[u8]) -> (r: Result<FieldPathSet, SerializeError>)
        ensures
            json_bytes_value(data@) matches Err(m) ==> (r matches Err(e) && e.message@ == "JSON parse error: "@ + m),
            json_bytes_value(data@) matches Ok(v) ==> !(v is Object) ==> r is Err,
            r matches Ok(s) ==> !s@.root,
            json_bytes_value(data@) matches Ok(ValueView::Object(es)) ==> (r is Ok <==> doc_reads(es)),
            json_bytes_value(data@) matches Ok(ValueView::Object(es)) ==> (r matches Ok(s) ==> forall|
                q: Seq<PathElementView>,
            | #[trigger] contains_path(s@, q) == doc_has(es, es.len() as int, q)),
    {
        match parse_json_bytes(data) {
            Ok(j) => {
                let v = value_from_json(&j);
                FieldPathSet::from_json_value(&v)
            },
            Err(m) => {
                let mut message = String::from_str("JSON parse error: ");
                push_str(&mut message, m.as_str());
                Err(SerializeError { message })
            },
        }
    }
}

} // verus!
