//! JSON objects, written with `serde_json`.

use vstd::prelude::*;

use crate::text::{decimal_text, hex_char};

verus! {

// ---------------------------------------------------------------------------
// What JSON text is
// ---------------------------------------------------------------------------

/// A value of a JSON object: a string, an unsigned number, a list of objects, or
/// any other value, of which nothing is said here.
pub enum Json {
    Text(Seq<char>),
    Number(u64),
    List(Seq<Seq<(Seq<char>, Json)>>),
    Other,
}

/// An object holds strings, unsigned numbers and lists of such objects, and
/// nothing else.
pub open spec fn is_written(fields: Seq<(Seq<char>, Json)>) -> bool
    decreases fields,
{
    forall|i: int|
        0 <= i < fields.len() ==> match (#[trigger] fields[i]).1 {
            Json::Text(_) => true,
            Json::Number(_) => true,
            Json::List(rows) => forall|k: int|
                0 <= k < rows.len() ==> is_written(#[trigger] rows[k]),
            Json::Other => false,
        }
}

/// A character inside a JSON string.
pub open spec fn escaped_char(c: char) -> Seq<char> {
    if c == '"' {
        seq!['\\', '"']
    } else if c == '\\' {
        seq!['\\', '\\']
    } else if c as int == 0x08 {
        seq!['\\', 'b']
    } else if c as int == 0x09 {
        seq!['\\', 't']
    } else if c as int == 0x0a {
        seq!['\\', 'n']
    } else if c as int == 0x0c {
        seq!['\\', 'f']
    } else if c as int == 0x0d {
        seq!['\\', 'r']
    } else if (c as int) < 0x20 {
        seq!['\\', 'u', '0', '0', hex_char(c as int / 16, false), hex_char(c as int % 16, false)]
    } else {
        seq![c]
    }
}

/// The characters of a text as they stand inside a JSON string.
pub open spec fn escaped(text: Seq<char>) -> Seq<char>
    decreases text.len(),
{
    if text.len() == 0 {
        seq![]
    } else {
        escaped(text.drop_last()) + escaped_char(text.last())
    }
}

/// A JSON string.
pub open spec fn string_text(text: Seq<char>) -> Seq<char> {
    seq!['"'] + escaped(text) + seq!['"']
}

/// A value in compact form.
pub open spec fn value_text(value: Json) -> Seq<char>
    decreases value, 0int,
{
    match value {
        Json::Text(text) => string_text(text),
        Json::Number(n) => decimal_text(n as nat),
        Json::List(rows) => seq!['['] + rows_text(rows) + seq![']'],
        Json::Other => seq![],
    }
}

/// The objects of a list in compact form, with commas between them.
pub open spec fn rows_text(rows: Seq<Seq<(Seq<char>, Json)>>) -> Seq<char>
    decreases rows, 0int,
{
    if rows.len() == 0 {
        seq![]
    } else {
        let last = object_text(rows[rows.len() - 1]);
        if rows.len() == 1 {
            last
        } else {
            rows_text(rows.subrange(0, rows.len() - 1)) + seq![','] + last
        }
    }
}

/// The fields of an object in compact form, with commas between them.
pub open spec fn fields_text(fields: Seq<(Seq<char>, Json)>) -> Seq<char>
    decreases fields, 0int,
{
    if fields.len() == 0 {
        seq![]
    } else {
        let (key, value) = fields[fields.len() - 1];
        let last = string_text(key) + seq![':'] + value_text(value);
        if fields.len() == 1 {
            last
        } else {
            fields_text(fields.subrange(0, fields.len() - 1)) + seq![','] + last
        }
    }
}

/// An object in compact form.
pub open spec fn object_text(fields: Seq<(Seq<char>, Json)>) -> Seq<char>
    decreases fields, 1int,
{
    seq!['{'] + fields_text(fields) + seq!['}']
}

/// An object with one string in it, in compact form.
pub open spec fn single_text(key: Seq<char>, value: Seq<char>) -> Seq<char> {
    object_text(seq![(key, Json::Text(value))])
}

/// The lines of the fields of an object in pretty form.
pub open spec fn pretty_fields_text(fields: Seq<(Seq<char>, Json)>) -> Seq<char>
    decreases fields.len(),
{
    if fields.len() == 0 {
        seq![]
    } else {
        let (key, value) = fields.last();
        let last = seq!['\n', ' ', ' '] + string_text(key) + seq![':', ' '] + value_text(value);
        if fields.len() == 1 {
            last
        } else {
            pretty_fields_text(fields.drop_last()) + seq![','] + last
        }
    }
}

/// An object of strings and numbers in pretty form: one field to a line, two
/// spaces in front of each.
pub open spec fn pretty_text(fields: Seq<(Seq<char>, Json)>) -> Seq<char> {
    seq!['{'] + pretty_fields_text(fields) + seq!['\n', '}']
}

/// An object holds a field with this key.
pub open spec fn has_key(fields: Seq<(Seq<char>, Json)>, key: Seq<char>) -> bool {
    exists|i: int| 0 <= i < fields.len() && (#[trigger] fields[i]).0 == key
}

/// An object has fields, and they are strings and unsigned numbers.
pub open spec fn is_flat(fields: Seq<(Seq<char>, Json)>) -> bool {
    fields.len() > 0 && forall|i: int|
        0 <= i < fields.len() ==> ((#[trigger] fields[i]).1 is Text || fields[i].1 is Number)
}

// ---------------------------------------------------------------------------
// Objects of `serde_json`
// ---------------------------------------------------------------------------

/// A value of `serde_json`.
#[verifier::external_type_specification]
#[verifier::external_body]
pub struct ExValue(serde_json::Value);

/// An object of `serde_json`.
#[verifier::external_type_specification]
#[verifier::external_body]
#[verifier::reject_recursive_types(K)]
#[verifier::reject_recursive_types(V)]
pub struct ExMap<K, V>(serde_json::Map<K, V>);

/// The fields of an object, in the order in which they were put in.
pub uninterp spec fn json_fields(
    object: serde_json::Map<String, serde_json::Value>,
) -> Seq<(Seq<char>, Json)>;

/// `serde_json::Map::new` makes an object without fields.
#[verifier::external_body]
pub(crate) fn new_object() -> (object: serde_json::Map<String, serde_json::Value>)
    ensures
        json_fields(object) == Seq::<(Seq<char>, Json)>::empty(),
{
    serde_json::Map::new()
}

/// `serde_json::Map::insert` puts a field with a new key behind the others; here
/// the value is a string.
#[verifier::external_body]
pub(crate) fn insert_text(
    object: &mut serde_json::Map<String, serde_json::Value>,
    key: &str,
    value: &str,
)
    requires
        !has_key(json_fields(*old(object)), key@),
    ensures
        json_fields(*final(object)) == json_fields(*old(object)).push((key@, Json::Text(value@))),
{
    object.insert(key.to_string(), serde_json::Value::from(value));
}

/// `serde_json::Map::insert` puts a field with a new key behind the others; here
/// the value is a number.
#[verifier::external_body]
pub(crate) fn insert_number(
    object: &mut serde_json::Map<String, serde_json::Value>,
    key: &str,
    value: u64,
)
    requires
        !has_key(json_fields(*old(object)), key@),
    ensures
        json_fields(*final(object)) == json_fields(*old(object)).push((key@, Json::Number(value))),
{
    object.insert(key.to_string(), serde_json::Value::from(value));
}

/// The fields of each of a list of objects.
pub open spec fn fields_of_all(
    rows: Seq<serde_json::Map<String, serde_json::Value>>,
) -> Seq<Seq<(Seq<char>, Json)>> {
    rows.map_values(|row: serde_json::Map<String, serde_json::Value>| json_fields(row))
}

/// `serde_json::Map::insert` puts a field with a new key behind the others; here
/// the value is an array of objects, in the given order.
#[verifier::external_body]
pub(crate) fn insert_rows(
    object: &mut serde_json::Map<String, serde_json::Value>,
    key: &str,
    rows: Vec<serde_json::Map<String, serde_json::Value>>,
)
    requires
        !has_key(json_fields(*old(object)), key@),
    ensures
        json_fields(*final(object)) == json_fields(*old(object)).push(
            (key@, Json::List(fields_of_all(rows@))),
        ),
{
    object.insert(key.to_string(), serde_json::Value::from(rows));
}

/// `serde_json::Value::to_string` writes an object in compact form: no white
/// space, the fields in order, strings with the short escapes and `\u00xx` for
/// the other control characters below U+0020.
#[verifier::external_body]
pub(crate) fn to_compact(object: &serde_json::Map<String, serde_json::Value>) -> (text: String)
    requires
        is_written(json_fields(*object)),
    ensures
        text@ == object_text(json_fields(*object)),
{
    serde_json::Value::Object(object.clone()).to_string()
}

/// `serde_json::to_string_pretty` writes an object over several lines, indented
/// by two spaces. It fails only on maps with keys that are no strings and on
/// values that refuse to be written; an object of strings and numbers is
/// neither.
#[verifier::external_body]
pub(crate) fn to_pretty(object: &serde_json::Map<String, serde_json::Value>) -> (text: String)
    requires
        is_flat(json_fields(*object)),
    ensures
        text@ == pretty_text(json_fields(*object)),
{
    serde_json::to_string_pretty(object).unwrap_or_default()
}

/// What `colored_json::to_colored_json_auto` writes for an object of these
/// fields where it colors.
pub uninterp spec fn colored_text(fields: Seq<(Seq<char>, Json)>) -> Seq<char>;

/// `colored_json::to_colored_json_auto` writes an object in pretty form. It
/// colors the text where standard output is a terminal and `NO_COLOR` is not
/// set, so which of the two texts comes out is up to the process. It fails only
/// on maps with keys that are no strings and on values that refuse to be
/// written; an object of strings and numbers is neither. What the coloring looks
/// like is left unsaid.
#[verifier::external_body]
pub(crate) fn to_colored(object: &serde_json::Map<String, serde_json::Value>) -> (text: Option<
    String,
>)
    requires
        is_flat(json_fields(*object)),
    ensures
        text is Some,
        text matches Some(text) ==> text@ == pretty_text(json_fields(*object)) || text@
            == colored_text(json_fields(*object)),
{
    colored_json::to_colored_json_auto(object).ok()
}

/// What `serde_json` finds in a text under a key: the message of the error where
/// the text is not JSON, else the string under the key of the object, if the
/// text is an object that has one.
pub uninterp spec fn string_field_of(text: Seq<char>, key: Seq<char>) -> Result<
    Option<Seq<char>>,
    Seq<char>,
>;

/// What was found under a key, as texts.
pub open spec fn field_view(field: Result<Option<String>, String>) -> Result<
    Option<Seq<char>>,
    Seq<char>,
> {
    match field {
        Ok(Some(value)) => Ok(Some(value@)),
        Ok(None) => Ok(None),
        Err(message) => Err(message@),
    }
}

/// A string was found, and it is this one.
pub open spec fn finds(field: Result<Option<String>, String>, value: Seq<char>) -> bool {
    field matches Ok(Some(found)) && found@ == value
}

/// The text was JSON, and no string was found.
pub open spec fn finds_nothing(field: Result<Option<String>, String>) -> bool {
    field matches Ok(None)
}

/// `serde_json::from_str` parses a text, and `Value::get` and `Value::as_str`
/// look for a string under a key. An object that was written with one string in
/// it gives that string back, and one that was written without fields has none.
/// Which other texts are JSON, and the words of the error, are left unsaid.
#[verifier::external_body]
pub(crate) fn string_field(text: &str, key: &str) -> (field: Result<Option<String>, String>)
    ensures
        field_view(field) == string_field_of(text@, key@),
        forall|value: Seq<char>| text@ == #[trigger] single_text(key@, value) ==> finds(field, value),
        text@ == object_text(seq![]) ==> finds_nothing(field),
{
    match serde_json::from_str::<serde_json::Value>(text) {
        Ok(value) => Ok(value.get(key).and_then(|v| v.as_str()).map(|s| s.to_string())),
        Err(e) => Err(e.to_string()),
    }
}

// ---------------------------------------------------------------------------
// Laws
// ---------------------------------------------------------------------------

/// A text holds no character below U+0020, so it stays on one line.
pub open spec fn is_one_line(text: Seq<char>) -> bool {
    forall|i: int| 0 <= i < text.len() ==> #[trigger] text[i] as int >= 0x20
}

proof fn lemma_decimal_one_line(n: nat)
    ensures
        is_one_line(decimal_text(n)),
    decreases n,
{
    if n >= 10 {
        lemma_decimal_one_line(n / 10);
    }
}

proof fn lemma_string_one_line(text: Seq<char>)
    ensures
        is_one_line(escaped(text)),
        is_one_line(string_text(text)),
    decreases text.len(),
{
    if text.len() > 0 {
        lemma_string_one_line(text.drop_last());
        lemma_escaped_char_one_line(text.last());
    }
}

proof fn lemma_escaped_char_one_line(c: char)
    ensures
        is_one_line(escaped_char(c)),
{
    let e = escaped_char(c);
    if (c as int) < 0x20 && e.len() == 6 {
        assert(0 <= c as int / 16 < 16);
        assert(0 <= c as int % 16 < 16);
        assert(e[4] == hex_char(c as int / 16, false));
        assert(e[5] == hex_char(c as int % 16, false));
        assert(e[0] as int >= 0x20 && e[1] as int >= 0x20 && e[2] as int >= 0x20);
        assert(e[3] as int >= 0x20 && e[4] as int >= 0x20 && e[5] as int >= 0x20);
    }
}

proof fn lemma_value_one_line(value: Json)
    ensures
        is_one_line(value_text(value)),
    decreases value, 0int,
{
    match value {
        Json::Text(text) => lemma_string_one_line(text),
        Json::Number(n) => lemma_decimal_one_line(n as nat),
        Json::List(rows) => lemma_rows_one_line(rows),
        Json::Other => {},
    }
}

proof fn lemma_rows_one_line(rows: Seq<Seq<(Seq<char>, Json)>>)
    ensures
        is_one_line(rows_text(rows)),
    decreases rows, 0int,
{
    if rows.len() > 0 {
        compact_objects_stay_on_one_line(rows[rows.len() - 1]);
        if rows.len() > 1 {
            lemma_rows_one_line(rows.subrange(0, rows.len() - 1));
        }
    }
}

proof fn lemma_fields_one_line(fields: Seq<(Seq<char>, Json)>)
    ensures
        is_one_line(fields_text(fields)),
    decreases fields, 0int,
{
    if fields.len() > 0 {
        let (key, value) = fields[fields.len() - 1];
        lemma_string_one_line(key);
        lemma_value_one_line(value);
        if fields.len() > 1 {
            lemma_fields_one_line(fields.subrange(0, fields.len() - 1));
        }
    }
}

/// An object in compact form stays on one line, whatever its strings hold: one
/// object to a line is a framing that a reader can rely on.
pub proof fn compact_objects_stay_on_one_line(fields: Seq<(Seq<char>, Json)>)
    ensures
        is_one_line(object_text(fields)),
    decreases fields, 1int,
{
    lemma_fields_one_line(fields);
}

// ---------------------------------------------------------------------------
// Reading back
// ---------------------------------------------------------------------------

/// A decimal digit.
pub open spec fn is_digit(c: char) -> bool {
    '0' <= c <= '9'
}

/// A text goes on with something that is no digit.
spec fn ends_a_value(rest: Seq<char>) -> bool {
    rest.len() > 0 && !is_digit(rest[0])
}

proof fn lemma_escaped_front(text: Seq<char>)
    requires
        text.len() > 0,
    ensures
        escaped(text) == escaped_char(text[0]) + escaped(text.drop_first()),
    decreases text.len(),
{
    if text.len() == 1 {
        assert(text.drop_last() =~= seq![]);
        assert(text.drop_first() =~= seq![]);
        assert(escaped(text.drop_last()) =~= seq![]);
        assert(seq![] + escaped_char(text[0]) =~= escaped_char(text[0]) + seq![]);
    } else {
        lemma_escaped_front(text.drop_last());
        assert(text.drop_last().drop_first() =~= text.drop_first().drop_last());
        let first = escaped_char(text[0]);
        let middle = escaped(text.drop_last().drop_first());
        let last = escaped_char(text.last());
        assert(first + middle + last =~= first + (middle + last));
    }
}

/// No escaped character is the start of another.
proof fn lemma_escaped_char_splits(a: char, b: char, x: Seq<char>, y: Seq<char>)
    requires
        escaped_char(a) + x == escaped_char(b) + y,
    ensures
        a == b,
        x == y,
{
    let left = escaped_char(a) + x;
    let right = escaped_char(b) + y;
    let (e, f) = (escaped_char(a), escaped_char(b));
    assert(left[0] == e[0] && right[0] == f[0]);
    if e.len() > 1 && f.len() > 1 {
        assert(left[1] == e[1] && right[1] == f[1]);
        if e.len() == 6 && f.len() == 6 {
            assert(left[4] == e[4] && right[4] == f[4]);
            assert(left[5] == e[5] && right[5] == f[5]);
            lemma_hex_char_splits(a as int / 16, b as int / 16);
            lemma_hex_char_splits(a as int % 16, b as int % 16);
            assert(a as int == 16 * (a as int / 16) + a as int % 16);
            assert(b as int == 16 * (b as int / 16) + b as int % 16);
        }
    }
    assert(a == b);
    assert(x =~= left.skip(e.len() as int));
    assert(y =~= right.skip(f.len() as int));
}

proof fn lemma_hex_char_splits(a: int, b: int)
    requires
        0 <= a < 16,
        0 <= b < 16,
        hex_char(a, false) == hex_char(b, false),
    ensures
        a == b,
{
}

/// Where two texts begin with strings, the strings and what follows are the same.
proof fn lemma_string_splits(a: Seq<char>, b: Seq<char>, x: Seq<char>, y: Seq<char>)
    requires
        escaped(a) + seq!['"'] + x == escaped(b) + seq!['"'] + y,
    ensures
        a == b,
        x == y,
    decreases a.len(),
{
    let left = escaped(a) + seq!['"'] + x;
    let right = escaped(b) + seq!['"'] + y;
    if a.len() == 0 {
        assert(left[0] == '"');
        if b.len() > 0 {
            lemma_escaped_front(b);
            assert(right[0] == escaped_char(b[0])[0]);
        }
        assert(a =~= b);
        assert(x =~= left.skip(1));
        assert(y =~= right.skip(1));
    } else {
        lemma_escaped_front(a);
        if b.len() == 0 {
            assert(left[0] == escaped_char(a[0])[0]);
            assert(right[0] == '"');
        }
        lemma_escaped_front(b);
        let s = escaped(a.drop_first()) + seq!['"'] + x;
        let t = escaped(b.drop_first()) + seq!['"'] + y;
        assert(left =~= escaped_char(a[0]) + s);
        assert(right =~= escaped_char(b[0]) + t);
        lemma_escaped_char_splits(a[0], b[0], s, t);
        lemma_string_splits(a.drop_first(), b.drop_first(), x, y);
        assert(a =~= seq![a[0]] + a.drop_first());
        assert(b =~= seq![b[0]] + b.drop_first());
    }
}

proof fn lemma_decimal_digits(n: nat)
    ensures
        decimal_text(n).len() > 0,
        forall|i: int| 0 <= i < decimal_text(n).len() ==> is_digit(#[trigger] decimal_text(n)[i]),
    decreases n,
{
    if n >= 10 {
        lemma_decimal_digits(n / 10);
    }
}

proof fn lemma_decimal_injective(n: nat, m: nat)
    requires
        decimal_text(n) == decimal_text(m),
    ensures
        n == m,
    decreases n,
{
    let x = decimal_text(n);
    let y = decimal_text(m);
    lemma_decimal_digits(n / 10);
    lemma_decimal_digits(m / 10);
    if n < 10 && m < 10 {
        assert(x[0] == y[0]);
    } else if n >= 10 && m >= 10 {
        assert(x.drop_last() =~= decimal_text(n / 10));
        assert(y.drop_last() =~= decimal_text(m / 10));
        lemma_decimal_injective(n / 10, m / 10);
        assert(x.last() == y.last());
        assert(n % 10 == m % 10);
    } else {
        assert(x.len() != y.len());
    }
}

/// Where two texts begin with numbers, the numbers and what follows are the same.
proof fn lemma_number_splits(n: nat, m: nat, x: Seq<char>, y: Seq<char>)
    requires
        decimal_text(n) + x == decimal_text(m) + y,
        ends_a_value(x),
        ends_a_value(y),
    ensures
        n == m,
        x == y,
{
    let a = decimal_text(n);
    let b = decimal_text(m);
    let left = a + x;
    let right = b + y;
    lemma_decimal_digits(n);
    lemma_decimal_digits(m);
    assert(left[a.len() as int] == x[0]);
    assert(right[b.len() as int] == y[0]);
    if a.len() < b.len() {
        assert(right[a.len() as int] == b[a.len() as int]);
    }
    if b.len() < a.len() {
        assert(left[b.len() as int] == a[b.len() as int]);
    }
    assert(a =~= left.take(a.len() as int));
    assert(b =~= right.take(b.len() as int));
    lemma_decimal_injective(n, m);
    assert(x =~= left.skip(a.len() as int));
    assert(y =~= right.skip(b.len() as int));
}

/// A value is one of those that are written.
spec fn is_written_value(value: Json) -> bool {
    match value {
        Json::Text(_) => true,
        Json::Number(_) => true,
        Json::List(rows) => forall|k: int| 0 <= k < rows.len() ==> is_written(#[trigger] rows[k]),
        Json::Other => false,
    }
}

/// Where two texts begin with values, the values and what follows are the same.
proof fn lemma_value_splits(v: Json, w: Json, x: Seq<char>, y: Seq<char>)
    requires
        value_text(v) + x == value_text(w) + y,
        is_written_value(v),
        is_written_value(w),
        ends_a_value(x),
        ends_a_value(y),
    ensures
        v == w,
        x == y,
    decreases v, 0int,
{
    let left = value_text(v) + x;
    let right = value_text(w) + y;
    if let Json::Number(n) = v {
        lemma_decimal_digits(n as nat);
        assert(left[0] == decimal_text(n as nat)[0]);
    }
    if let Json::Number(m) = w {
        lemma_decimal_digits(m as nat);
        assert(right[0] == decimal_text(m as nat)[0]);
    }
    if v is Text {
        assert(left[0] == '"');
    }
    if w is Text {
        assert(right[0] == '"');
    }
    if v is List {
        assert(left[0] == '[');
    }
    if w is List {
        assert(right[0] == '[');
    }
    match (v, w) {
        (Json::Text(a), Json::Text(b)) => {
            let s = escaped(a) + seq!['"'] + x;
            let t = escaped(b) + seq!['"'] + y;
            assert(left.skip(1) =~= s);
            assert(right.skip(1) =~= t);
            lemma_string_splits(a, b, x, y);
        },
        (Json::Number(n), Json::Number(m)) => {
            lemma_number_splits(n as nat, m as nat, x, y);
        },
        (Json::List(a), Json::List(b)) => {
            let s = rows_text(a) + (seq![']'] + x);
            let t = rows_text(b) + (seq![']'] + y);
            assert(left.skip(1) =~= s);
            assert(right.skip(1) =~= t);
            lemma_rows_split(a, b, x, y);
        },
        _ => {
            assert(left[0] != right[0]);
        },
    }
}

/// The text of a list but for its first object.
spec fn more_rows(rows: Seq<Seq<(Seq<char>, Json)>>) -> Seq<char> {
    if rows.len() <= 1 {
        seq![]
    } else {
        seq![','] + rows_text(rows.subrange(1, rows.len() as int))
    }
}

proof fn lemma_rows_front(rows: Seq<Seq<(Seq<char>, Json)>>)
    requires
        rows.len() > 0,
    ensures
        rows_text(rows) == object_text(rows[0]) + more_rows(rows),
    decreases rows.len(),
{
    let n = rows.len() as int;
    if n == 1 {
        assert(object_text(rows[0]) + seq![] =~= object_text(rows[0]));
    } else {
        let init = rows.subrange(0, n - 1);
        lemma_rows_front(init);
        let rest = rows.subrange(1, n);
        let first = object_text(rows[0]);
        let last = object_text(rows[n - 1]);
        assert(rest[rest.len() - 1] == rows[n - 1]);
        if n == 2 {
            assert(rows_text(rest) == last);
            assert(first + seq![] + seq![','] + last =~= first + (seq![','] + last));
        } else {
            assert(init.subrange(1, n - 1) =~= rest.subrange(0, n - 2));
            let middle = rows_text(rest.subrange(0, n - 2));
            assert(rows_text(rest) == middle + seq![','] + last);
            assert(first + (seq![','] + middle) + seq![','] + last =~= first + (seq![','] + (middle
                + seq![','] + last)));
        }
    }
}

proof fn lemma_rows_split(
    a: Seq<Seq<(Seq<char>, Json)>>,
    b: Seq<Seq<(Seq<char>, Json)>>,
    x: Seq<char>,
    y: Seq<char>,
)
    requires
        rows_text(a) + (seq![']'] + x) == rows_text(b) + (seq![']'] + y),
        forall|k: int| 0 <= k < a.len() ==> is_written(#[trigger] a[k]),
        forall|k: int| 0 <= k < b.len() ==> is_written(#[trigger] b[k]),
    ensures
        a == b,
        x == y,
    decreases a, 0int,
{
    let left = rows_text(a) + (seq![']'] + x);
    let right = rows_text(b) + (seq![']'] + y);
    if a.len() > 0 {
        lemma_rows_front(a);
        assert(left[0] == '{');
    } else {
        assert(left[0] == ']');
    }
    if b.len() > 0 {
        lemma_rows_front(b);
        assert(right[0] == '{');
    } else {
        assert(right[0] == ']');
    }
    if a.len() == 0 {
        assert(a =~= b);
        assert(x =~= left.skip(1));
        assert(y =~= right.skip(1));
    } else {
        let s = more_rows(a) + (seq![']'] + x);
        let t = more_rows(b) + (seq![']'] + y);
        assert(left =~= object_text(a[0]) + s);
        assert(right =~= object_text(b[0]) + t);
        lemma_object_splits(a[0], b[0], s, t);
        assert(s[0] == t[0]);
        if a.len() == 1 {
            assert(s[0] == ']');
            assert(b.len() == 1);
            assert(a =~= b);
            assert(x =~= s.skip(1));
            assert(y =~= t.skip(1));
        } else {
            assert(s[0] == ',');
            if b.len() == 1 {
                assert(t[0] == ']');
            }
            let c = a.subrange(1, a.len() as int);
            let d = b.subrange(1, b.len() as int);
            assert(s.skip(1) =~= rows_text(c) + (seq![']'] + x));
            assert(t.skip(1) =~= rows_text(d) + (seq![']'] + y));
            assert forall|k: int| 0 <= k < c.len() implies is_written(#[trigger] c[k]) by {
                assert(c[k] == a[k + 1]);
            }
            assert forall|k: int| 0 <= k < d.len() implies is_written(#[trigger] d[k]) by {
                assert(d[k] == b[k + 1]);
            }
            lemma_rows_split(c, d, x, y);
            assert(a =~= seq![a[0]] + c);
            assert(b =~= seq![b[0]] + d);
        }
    }
}

/// The text of one field in compact form.
spec fn field_text(field: (Seq<char>, Json)) -> Seq<char> {
    string_text(field.0) + seq![':'] + value_text(field.1)
}

/// The text of an object's fields but for the first.
spec fn more_fields(fields: Seq<(Seq<char>, Json)>) -> Seq<char> {
    if fields.len() <= 1 {
        seq![]
    } else {
        seq![','] + fields_text(fields.subrange(1, fields.len() as int))
    }
}

proof fn lemma_fields_front(fields: Seq<(Seq<char>, Json)>)
    requires
        fields.len() > 0,
    ensures
        fields_text(fields) == field_text(fields[0]) + more_fields(fields),
    decreases fields.len(),
{
    let n = fields.len() as int;
    let first = field_text(fields[0]);
    let last = field_text(fields[n - 1]);
    if n == 1 {
        assert(first + seq![] =~= first);
    } else {
        let init = fields.subrange(0, n - 1);
        lemma_fields_front(init);
        let rest = fields.subrange(1, n);
        assert(rest[rest.len() - 1] == fields[n - 1]);
        if n == 2 {
            assert(fields_text(rest) == last);
            assert(first + seq![] + seq![','] + last =~= first + (seq![','] + last));
        } else {
            assert(init.subrange(1, n - 1) =~= rest.subrange(0, n - 2));
            let middle = fields_text(rest.subrange(0, n - 2));
            assert(fields_text(rest) == middle + seq![','] + last);
            assert(first + (seq![','] + middle) + seq![','] + last =~= first + (seq![','] + (middle
                + seq![','] + last)));
        }
    }
}

/// Where two texts begin with a field, the fields and what follows are the same.
proof fn lemma_field_splits(
    f: (Seq<char>, Json),
    g: (Seq<char>, Json),
    x: Seq<char>,
    y: Seq<char>,
)
    requires
        field_text(f) + x == field_text(g) + y,
        is_written_value(f.1),
        is_written_value(g.1),
        ends_a_value(x),
        ends_a_value(y),
    ensures
        f == g,
        x == y,
    decreases f.1, 1int,
{
    let left = field_text(f) + x;
    let right = field_text(g) + y;
    let s = seq![':'] + value_text(f.1) + x;
    let t = seq![':'] + value_text(g.1) + y;
    assert(left.skip(1) =~= escaped(f.0) + seq!['"'] + s);
    assert(right.skip(1) =~= escaped(g.0) + seq!['"'] + t);
    lemma_string_splits(f.0, g.0, s, t);
    assert(s.skip(1) =~= value_text(f.1) + x);
    assert(t.skip(1) =~= value_text(g.1) + y);
    lemma_value_splits(f.1, g.1, x, y);
}

proof fn lemma_fields_split(
    a: Seq<(Seq<char>, Json)>,
    b: Seq<(Seq<char>, Json)>,
    x: Seq<char>,
    y: Seq<char>,
)
    requires
        fields_text(a) + (seq!['}'] + x) == fields_text(b) + (seq!['}'] + y),
        is_written(a),
        is_written(b),
    ensures
        a == b,
        x == y,
    decreases a, 0int,
{
    let left = fields_text(a) + (seq!['}'] + x);
    let right = fields_text(b) + (seq!['}'] + y);
    if a.len() > 0 {
        lemma_fields_front(a);
        assert(left[0] == '"');
    } else {
        assert(left[0] == '}');
    }
    if b.len() > 0 {
        lemma_fields_front(b);
        assert(right[0] == '"');
    } else {
        assert(right[0] == '}');
    }
    if a.len() == 0 {
        assert(a =~= b);
        assert(x =~= left.skip(1));
        assert(y =~= right.skip(1));
    } else {
        let s = more_fields(a) + (seq!['}'] + x);
        let t = more_fields(b) + (seq!['}'] + y);
        assert(left =~= field_text(a[0]) + s);
        assert(right =~= field_text(b[0]) + t);
        assert(is_written_value(a[0].1) && is_written_value(b[0].1));
        assert(s[0] == ',' || s[0] == '}');
        assert(t[0] == ',' || t[0] == '}');
        assert(decreases_to!(a => a[0]));
        assert(decreases_to!(a => a[0].1));
        lemma_field_splits(a[0], b[0], s, t);
        if a.len() == 1 {
            assert(s[0] == '}');
            assert(b.len() == 1);
            assert(a =~= b);
            assert(x =~= s.skip(1));
            assert(y =~= t.skip(1));
        } else {
            assert(s[0] == ',');
            if b.len() == 1 {
                assert(t[0] == '}');
            }
            let c = a.subrange(1, a.len() as int);
            let d = b.subrange(1, b.len() as int);
            assert(s.skip(1) =~= fields_text(c) + (seq!['}'] + x));
            assert(t.skip(1) =~= fields_text(d) + (seq!['}'] + y));
            lemma_written_rest(a);
            lemma_written_rest(b);
            lemma_fields_split(c, d, x, y);
            assert(a =~= seq![a[0]] + c);
            assert(b =~= seq![b[0]] + d);
        }
    }
}

proof fn lemma_written_rest(fields: Seq<(Seq<char>, Json)>)
    requires
        is_written(fields),
        fields.len() > 0,
    ensures
        is_written(fields.subrange(1, fields.len() as int)),
{
    let rest = fields.subrange(1, fields.len() as int);
    assert forall|i: int| 0 <= i < rest.len() implies is_written_value((#[trigger] rest[i]).1) by {
        assert(rest[i] == fields[i + 1]);
    }
}

proof fn lemma_object_splits(
    a: Seq<(Seq<char>, Json)>,
    b: Seq<(Seq<char>, Json)>,
    x: Seq<char>,
    y: Seq<char>,
)
    requires
        object_text(a) + x == object_text(b) + y,
        is_written(a),
        is_written(b),
    ensures
        a == b,
        x == y,
    decreases a, 1int,
{
    let left = object_text(a) + x;
    let right = object_text(b) + y;
    assert(left.skip(1) =~= fields_text(a) + (seq!['}'] + x));
    assert(right.skip(1) =~= fields_text(b) + (seq!['}'] + y));
    lemma_fields_split(a, b, x, y);
}

/// The compact text determines the object: its keys, its values and their order.
pub proof fn compact_text_determines_the_object(
    a: Seq<(Seq<char>, Json)>,
    b: Seq<(Seq<char>, Json)>,
)
    requires
        is_written(a),
        is_written(b),
        object_text(a) == object_text(b),
    ensures
        a == b,
{
    assert(object_text(a) + seq![] == object_text(b) + seq![]);
    lemma_object_splits(a, b, seq![], seq![]);
}

/// The text of one field in pretty form.
spec fn pretty_field_text(field: (Seq<char>, Json)) -> Seq<char> {
    seq!['\n', ' ', ' '] + string_text(field.0) + seq![':', ' '] + value_text(field.1)
}

/// The pretty text of an object's fields but for the first.
spec fn more_pretty_fields(fields: Seq<(Seq<char>, Json)>) -> Seq<char> {
    if fields.len() <= 1 {
        seq![]
    } else {
        seq![','] + pretty_fields_text(fields.drop_first())
    }
}

proof fn lemma_pretty_front(fields: Seq<(Seq<char>, Json)>)
    requires
        fields.len() > 0,
    ensures
        pretty_fields_text(fields) == pretty_field_text(fields[0]) + more_pretty_fields(fields),
    decreases fields.len(),
{
    let n = fields.len() as int;
    let first = pretty_field_text(fields[0]);
    let last = pretty_field_text(fields[n - 1]);
    if n == 1 {
        assert(first + seq![] =~= first);
    } else {
        let init = fields.drop_last();
        lemma_pretty_front(init);
        let rest = fields.drop_first();
        assert(rest.last() == fields[n - 1]);
        if n == 2 {
            assert(pretty_fields_text(rest) == last);
            assert(first + seq![] + seq![','] + last =~= first + (seq![','] + last));
        } else {
            assert(init.drop_first() =~= rest.drop_last());
            let middle = pretty_fields_text(rest.drop_last());
            assert(pretty_fields_text(rest) == middle + seq![','] + last);
            assert(first + (seq![','] + middle) + seq![','] + last =~= first + (seq![','] + (middle
                + seq![','] + last)));
        }
    }
}

proof fn lemma_pretty_field_splits(
    f: (Seq<char>, Json),
    g: (Seq<char>, Json),
    x: Seq<char>,
    y: Seq<char>,
)
    requires
        pretty_field_text(f) + x == pretty_field_text(g) + y,
        is_written_value(f.1),
        is_written_value(g.1),
        ends_a_value(x),
        ends_a_value(y),
    ensures
        f == g,
        x == y,
{
    let left = pretty_field_text(f) + x;
    let right = pretty_field_text(g) + y;
    let s = seq![':', ' '] + value_text(f.1) + x;
    let t = seq![':', ' '] + value_text(g.1) + y;
    assert(left.skip(4) =~= escaped(f.0) + seq!['"'] + s);
    assert(right.skip(4) =~= escaped(g.0) + seq!['"'] + t);
    lemma_string_splits(f.0, g.0, s, t);
    assert(s.skip(2) =~= value_text(f.1) + x);
    assert(t.skip(2) =~= value_text(g.1) + y);
    lemma_value_splits(f.1, g.1, x, y);
}

proof fn lemma_pretty_splits(a: Seq<(Seq<char>, Json)>, b: Seq<(Seq<char>, Json)>)
    requires
        is_flat(a),
        is_flat(b),
        pretty_fields_text(a) + seq!['\n', '}'] == pretty_fields_text(b) + seq!['\n', '}'],
    ensures
        a == b,
    decreases a.len(),
{
    let end = seq!['\n', '}'];
    let left = pretty_fields_text(a) + end;
    let right = pretty_fields_text(b) + end;
    lemma_pretty_front(a);
    lemma_pretty_front(b);
    let x = more_pretty_fields(a) + end;
    let y = more_pretty_fields(b) + end;
    assert(left =~= pretty_field_text(a[0]) + x);
    assert(right =~= pretty_field_text(b[0]) + y);
    assert(x[0] == ',' || x[0] == '\n');
    assert(y[0] == ',' || y[0] == '\n');
    lemma_pretty_field_splits(a[0], b[0], x, y);
    if a.len() == 1 {
        assert(x[0] == '\n');
        assert(b.len() == 1);
        assert(a =~= b);
    } else {
        assert(x[0] == ',');
        if b.len() == 1 {
            assert(y[0] == '\n');
        }
        assert(x.skip(1) =~= pretty_fields_text(a.drop_first()) + end);
        assert(y.skip(1) =~= pretty_fields_text(b.drop_first()) + end);
        lemma_pretty_splits(a.drop_first(), b.drop_first());
        assert(a =~= seq![a[0]] + a.drop_first());
        assert(b =~= seq![b[0]] + b.drop_first());
    }
}

/// The pretty text determines the object: its keys, its values and their order.
pub proof fn pretty_text_determines_the_object(
    a: Seq<(Seq<char>, Json)>,
    b: Seq<(Seq<char>, Json)>,
)
    requires
        is_flat(a),
        is_flat(b),
        pretty_text(a) == pretty_text(b),
    ensures
        a == b,
{
    assert(pretty_text(a).skip(1) =~= pretty_fields_text(a) + seq!['\n', '}']);
    assert(pretty_text(b).skip(1) =~= pretty_fields_text(b) + seq!['\n', '}']);
    lemma_pretty_splits(a, b);
}

/// The object that a compact text holds.
pub open spec fn read_compact(text: Seq<char>) -> Seq<(Seq<char>, Json)> {
    choose|fields: Seq<(Seq<char>, Json)>|
        is_written(fields) && #[trigger] object_text(fields) == text
}

/// The object that a pretty text holds.
pub open spec fn read_pretty(text: Seq<char>) -> Seq<(Seq<char>, Json)> {
    choose|fields: Seq<(Seq<char>, Json)>|
        is_flat(fields) && #[trigger] pretty_text(fields) == text
}

/// A text gives back the object that was written, in either form.
pub proof fn reading_gives_the_object_back(fields: Seq<(Seq<char>, Json)>)
    ensures
        is_written(fields) ==> read_compact(object_text(fields)) == fields,
        is_flat(fields) ==> read_pretty(pretty_text(fields)) == fields,
{
    if is_written(fields) {
        compact_text_determines_the_object(read_compact(object_text(fields)), fields);
    }
    if is_flat(fields) {
        pretty_text_determines_the_object(read_pretty(pretty_text(fields)), fields);
    }
}

/// What was found under a key is seen as it is: a string by all of its characters, and an
/// error by its message.
pub proof fn a_field_is_seen_as_it_is(field: Result<Option<String>, String>)
    ensures
        field matches Ok(Some(s)) ==> field_view(field) == Ok::<Option<Seq<char>>, Seq<char>>(
            Some(s@),
        ),
        field matches Ok(None) ==> field_view(field) == Ok::<Option<Seq<char>>, Seq<char>>(None),
        field matches Err(m) ==> field_view(field) == Err::<Option<Seq<char>>, Seq<char>>(m@),
{
}

} // verus!
