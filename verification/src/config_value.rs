use vstd::prelude::*;
use serde_json::Value;

verus! {

/// A configuration tree: what the application keeps as JSON, in plain values.
/// Integers are kept as JSON numbers classify them: `Unsigned` for values at or
/// above zero, `Negative` for values below zero. A floating-point number is kept
/// as its decimal text.
pub enum ConfigValue {
    Null,
    Bool(bool),
    Unsigned(u64),
    Negative(i64),
    Float(String),
    Text(String),
    Array(Vec<ConfigValue>),
    Object(Vec<(String, ConfigValue)>),
}

/// Index of the first member named `key`, or -1.
pub open spec fn member_index(entries: Seq<(String, ConfigValue)>, key: Seq<char>) -> int
    decreases entries.len(),
{
    if entries.len() == 0 {
        -1
    } else if entries[0].0@ == key {
        0
    } else {
        let rest = member_index(entries.drop_first(), key);
        if rest < 0 { -1 } else { rest + 1 }
    }
}

/// The member index is -1 or the position of the first member with the key.
pub proof fn lemma_member_index_bounds(entries: Seq<(String, ConfigValue)>, key: Seq<char>)
    ensures
        -1 <= member_index(entries, key) < entries.len(),
        member_index(entries, key) >= 0 ==> entries[member_index(entries, key)].0@ == key,
        member_index(entries, key) >= 0 ==> forall|j: int|
            0 <= j < member_index(entries, key) ==> #[trigger] entries[j].0@ != key,
        member_index(entries, key) < 0 ==> forall|j: int| 0 <= j < entries.len() ==> #[trigger] entries[j].0@ != key,
    decreases entries.len(),
{
    if entries.len() > 0 {
        lemma_member_index_bounds(entries.drop_first(), key);
        if entries[0].0@ != key {
            assert forall|j: int| 1 <= j < entries.len() implies entries[j] == entries.drop_first()[j - 1] by {}
        }
    }
}

/// The member `key` of an object; `None` for a missing member or a value that is no object.
pub open spec fn member(v: ConfigValue, key: Seq<char>) -> Option<ConfigValue> {
    match v {
        ConfigValue::Object(entries) => {
            let i = member_index(entries@, key);
            if i >= 0 { Some(entries@[i].1) } else { None }
        },
        _ => None,
    }
}

/// The value at a path of member names.
pub open spec fn lookup(v: ConfigValue, path: Seq<Seq<char>>) -> Option<ConfigValue>
    decreases path.len(),
{
    if path.len() == 0 {
        Some(v)
    } else {
        match member(v, path[0]) {
            Some(child) => lookup(child, path.drop_first()),
            None => None,
        }
    }
}

/// `new` is `old` with the value at `path` replaced by `value`
/// (every other member, and the order of members, kept).
pub open spec fn replaced(old: ConfigValue, path: Seq<Seq<char>>, value: ConfigValue, new: ConfigValue) -> bool
    decreases path.len(),
{
    if path.len() == 0 {
        new == value
    } else {
        match (old, new) {
            (ConfigValue::Object(a), ConfigValue::Object(b)) => {
                let i = member_index(a@, path[0]);
                &&& i >= 0
                &&& b@.len() == a@.len()
                &&& forall|j: int| 0 <= j < a@.len() && j != i ==> #[trigger] b@[j] == a@[j]
                &&& b@[i].0 == a@[i].0
                &&& replaced(a@[i].1, path.drop_first(), value, b@[i].1)
            },
            _ => false,
        }
    }
}

/// Finds the first member named `key`.
fn find_member(entries: &Vec<(String, ConfigValue)>, key: &Vec<char>) -> (r: Option<usize>)
    ensures
        match r {
            Some(i) => i as int == member_index(entries@, key@) && i < entries@.len(),
            None => member_index(entries@, key@) < 0,
        },
{
    proof {
        lemma_member_index_bounds(entries@, key@);
    }
    let mut i: usize = 0;
    while i < entries.len()
        invariant
            i <= entries@.len(),
            forall|j: int| 0 <= j < i ==> #[trigger] entries@[j].0@ != key@,
            -1 <= member_index(entries@, key@) < entries@.len(),
            member_index(entries@, key@) >= 0 ==> entries@[member_index(entries@, key@)].0@ == key@,
            member_index(entries@, key@) >= 0 ==> forall|j: int|
                0 <= j < member_index(entries@, key@) ==> #[trigger] entries@[j].0@ != key@,
            member_index(entries@, key@) < 0 ==> forall|j: int|
                0 <= j < entries@.len() ==> #[trigger] entries@[j].0@ != key@,
        decreases entries@.len() - i,
    {
        let name = crate::text::chars_of(entries[i].0.as_str());
        if crate::text::chars_equal(&name, key) {
            return Some(i);
        }
        i = i + 1;
    }
    None
}

/// The value at `path[depth..]` inside `v`.
pub fn find_at<'a>(v: &'a ConfigValue, path: &Vec<Vec<char>>, depth: usize) -> (r: Option<&'a ConfigValue>)
    requires
        depth <= path@.len(),
    ensures
        match r {
            Some(x) => lookup(*v, crate::text::views(path@).skip(depth as int)) == Some(*x),
            None => lookup(*v, crate::text::views(path@).skip(depth as int)) is None,
        },
    decreases path@.len() - depth,
{
    let ghost p = crate::text::views(path@).skip(depth as int);
    if depth >= path.len() {
        assert(p.len() == 0);
        return Some(v);
    }
    assert(p[0] == path@[depth as int]@);
    assert(p.drop_first() =~= crate::text::views(path@).skip(depth + 1));
    match v {
        ConfigValue::Object(entries) => match find_member(entries, &path[depth]) {
            Some(i) => find_at(&entries[i].1, path, depth + 1),
            None => None,
        },
        _ => None,
    }
}

/// Replaces the value at `path[depth..]` inside `v`, which holds one.
pub fn with_value_at(v: ConfigValue, path: &Vec<Vec<char>>, depth: usize, value: ConfigValue) -> (r: ConfigValue)
    requires
        depth <= path@.len(),
        lookup(v, crate::text::views(path@).skip(depth as int)) is Some,
    ensures
        replaced(v, crate::text::views(path@).skip(depth as int), value, r),
    decreases path@.len() - depth,
{
    let ghost p = crate::text::views(path@).skip(depth as int);
    if depth >= path.len() {
        assert(p.len() == 0);
        return value;
    }
    assert(p[0] == path@[depth as int]@);
    assert(p.drop_first() =~= crate::text::views(path@).skip(depth + 1));
    match v {
        ConfigValue::Object(entries) => {
            let mut entries = entries;
            let ghost a = entries@;
            match find_member(&entries, &path[depth]) {
                Some(i) => {
                    let (key, child) = entries.remove(i);
                    let child_new = with_value_at(child, path, depth + 1, value);
                    entries.insert(i, (key, child_new));
                    proof {
                        assert forall|j: int| 0 <= j < a.len() && j != i implies #[trigger] entries@[j] == a[j] by {
                            if j < i {
                            } else {
                            }
                        }
                    }
                    ConfigValue::Object(entries)
                },
                None => {
                    assert(false);
                    ConfigValue::Null
                },
            }
        },
        _ => {
            assert(false);
            ConfigValue::Null
        },
    }
}

} // verus!

verus! {

proof fn lemma_member_index_same_keys(a: Seq<(String, ConfigValue)>, b: Seq<(String, ConfigValue)>, key: Seq<char>)
    requires
        a.len() == b.len(),
        forall|j: int| 0 <= j < a.len() ==> #[trigger] a[j].0@ == b[j].0@,
    ensures
        member_index(a, key) == member_index(b, key),
    decreases a.len(),
{
    if a.len() > 0 {
        assert(a[0].0@ == b[0].0@);
        assert forall|j: int| 0 <= j < a.drop_first().len() implies #[trigger] a.drop_first()[j].0@ == b.drop_first()[j].0@ by {
            assert(a[j + 1].0@ == b[j + 1].0@);
        }
        lemma_member_index_same_keys(a.drop_first(), b.drop_first(), key);
    }
}

/// Reading a configuration path right after writing it gives back the value written.
pub proof fn lemma_read_after_write(old: ConfigValue, path: Seq<Seq<char>>, value: ConfigValue, new: ConfigValue)
    requires
        replaced(old, path, value, new),
    ensures
        lookup(new, path) == Some(value),
    decreases path.len(),
{
    if path.len() > 0 {
        match (old, new) {
            (ConfigValue::Object(a), ConfigValue::Object(b)) => {
                let i = member_index(a@, path[0]);
                assert forall|j: int| 0 <= j < a@.len() implies #[trigger] a@[j].0@ == b@[j].0@ by {
                    if j != i {
                        assert(b@[j] == a@[j]);
                    }
                }
                lemma_member_index_same_keys(a@, b@, path[0]);
                lemma_read_after_write(a@[i].1, path.drop_first(), value, b@[i].1);
            },
            _ => {},
        }
    }
}

/// Writing a configuration path leaves every path that branches off it unchanged:
/// a path that agrees with the written one on its first `k` names and then
/// names another member reads the same before and after the write.
pub proof fn lemma_write_keeps_other_paths(
    old: ConfigValue,
    path: Seq<Seq<char>>,
    value: ConfigValue,
    new: ConfigValue,
    other: Seq<Seq<char>>,
    k: int,
)
    requires
        replaced(old, path, value, new),
        0 <= k < path.len(),
        k < other.len(),
        other.take(k) == path.take(k),
        other[k] != path[k],
    ensures
        lookup(new, other) == lookup(old, other),
    decreases k,
{
    match (old, new) {
        (ConfigValue::Object(a), ConfigValue::Object(b)) => {
            let i = member_index(a@, path[0]);
            assert forall|j: int| 0 <= j < a@.len() implies #[trigger] a@[j].0@ == b@[j].0@ by {
                if j != i {
                    assert(b@[j] == a@[j]);
                }
            }
            lemma_member_index_same_keys(a@, b@, other[0]);
            lemma_member_index_bounds(a@, other[0]);
            lemma_member_index_bounds(a@, path[0]);
            if k == 0 {
                let j = member_index(a@, other[0]);
                if j >= 0 {
                    assert(j != i);
                    assert(b@[j] == a@[j]);
                }
            } else {
                assert(other.take(k)[0] == path.take(k)[0]);
                assert(other.drop_first().take(k - 1) =~= other.take(k).drop_first());
                assert(path.drop_first().take(k - 1) =~= path.take(k).drop_first());
                lemma_write_keeps_other_paths(
                    a@[i].1,
                    path.drop_first(),
                    value,
                    b@[i].1,
                    other.drop_first(),
                    k - 1,
                );
            }
        },
        _ => {},
    }
}

} // verus!

verus! {

/// Two configuration trees hold the same values (strings compared by text, vectors by contents).
pub open spec fn same_value(a: ConfigValue, b: ConfigValue) -> bool
    decreases a,
{
    match (a, b) {
        (ConfigValue::Null, ConfigValue::Null) => true,
        (ConfigValue::Bool(x), ConfigValue::Bool(y)) => x == y,
        (ConfigValue::Unsigned(x), ConfigValue::Unsigned(y)) => x == y,
        (ConfigValue::Negative(x), ConfigValue::Negative(y)) => x == y,
        (ConfigValue::Float(x), ConfigValue::Float(y)) => x@ == y@,
        (ConfigValue::Text(x), ConfigValue::Text(y)) => x@ == y@,
        (ConfigValue::Array(x), ConfigValue::Array(y)) => x@.len() == y@.len() && forall|i: int|
            0 <= i < x@.len() ==> same_value(#[trigger] x@[i], y@[i]),
        (ConfigValue::Object(x), ConfigValue::Object(y)) => x@.len() == y@.len() && forall|i: int|
            0 <= i < x@.len() ==> (#[trigger] x@[i]).0@ == y@[i].0@ && same_value(x@[i].1, y@[i].1),
        _ => false,
    }
}

/// A copy of a configuration tree.
pub fn clone_value(v: &ConfigValue) -> (r: ConfigValue)
    ensures
        same_value(*v, r),
    decreases v,
{
    match v {
        ConfigValue::Null => ConfigValue::Null,
        ConfigValue::Bool(b) => ConfigValue::Bool(*b),
        ConfigValue::Unsigned(n) => ConfigValue::Unsigned(*n),
        ConfigValue::Negative(n) => ConfigValue::Negative(*n),
        ConfigValue::Float(s) => ConfigValue::Float(s.clone()),
        ConfigValue::Text(s) => ConfigValue::Text(s.clone()),
        ConfigValue::Array(items) => {
            let mut out: Vec<ConfigValue> = Vec::new();
            let mut i: usize = 0;
            while i < items.len()
                invariant
                    *v == ConfigValue::Array(*items),
                    i <= items@.len(),
                    out@.len() == i,
                    forall|j: int| 0 <= j < i ==> same_value(#[trigger] items@[j], out@[j]),
                decreases items@.len() - i,
            {
                proof {
                    vstd::std_specs::vec::axiom_vec_index_decreases(*items, i as int);
                    assert(*items == (*v)->Array_0);
                    assert(decreases_to!(*v => (*v)->Array_0));
                    assert(decreases_to!(*v => items@[i as int]));
                }
                let c = clone_value(&items[i]);
                out.push(c);
                i = i + 1;
            }
            ConfigValue::Array(out)
        },
        ConfigValue::Object(entries) => {
            let mut out: Vec<(String, ConfigValue)> = Vec::new();
            let mut i: usize = 0;
            while i < entries.len()
                invariant
                    *v == ConfigValue::Object(*entries),
                    i <= entries@.len(),
                    out@.len() == i,
                    forall|j: int|
                        0 <= j < i ==> (#[trigger] entries@[j]).0@ == out@[j].0@ && same_value(entries@[j].1, out@[j].1),
                decreases entries@.len() - i,
            {
                proof {
                    vstd::std_specs::vec::axiom_vec_index_decreases(*entries, i as int);
                    assert(*entries == (*v)->Object_0);
                    assert(decreases_to!(*v => (*v)->Object_0));
                    assert(decreases_to!(*entries => entries@[i as int]));
                    assert(decreases_to!(*v => entries@[i as int].1));
                }
                let k = entries[i].0.clone();
                let c = clone_value(&entries[i].1);
                out.push((k, c));
                i = i + 1;
            }
            ConfigValue::Object(out)
        },
    }
}

} // verus!

verus! {

#[verifier::external_type_specification]
#[verifier::external_body]
pub struct ExJsonValue(Value);

/// The configuration tree of a JSON text: what `serde_json::from_str` reads from it as a
/// `serde_json::Value`, taken over kind by kind (numbers as `ConfigValue` classifies them, a
/// non-integer number as its decimal text, members in the order the value keeps them); `None`
/// where the text is no JSON.
pub uninterp spec fn config_from_json_text(text: Seq<char>) -> Option<ConfigValue>;

/// `serde_json::from_str::<serde_json::Value>` on the text, the value taken over as a
/// configuration tree; `None` where `serde_json` refuses the text. The tree is named, not
/// described: it is what the JSON grammar of `serde_json` makes of the text.
#[verifier::external_body]
fn json_text_config(text: &str) -> (r: Option<ConfigValue>)
    ensures
        r == config_from_json_text(text@),
{
    match serde_json::from_str::<Value>(text) {
        Ok(v) => Some(config_of_json(&v)),
        Err(_) => None,
    }
}

/// A `serde_json::Value` taken over as a configuration tree, variant by variant.
#[verifier::external_body]
fn config_of_json(v: &Value) -> ConfigValue {
    match v {
        Value::Null => ConfigValue::Null,
        Value::Bool(b) => ConfigValue::Bool(*b),
        Value::Number(n) => match (n.as_u64(), n.as_i64()) {
            (Some(u), _) => ConfigValue::Unsigned(u),
            (_, Some(i)) => ConfigValue::Negative(i),
            _ => ConfigValue::Float(n.to_string()),
        },
        Value::String(s) => ConfigValue::Text(s.clone()),
        Value::Array(a) => ConfigValue::Array(a.iter().map(config_of_json).collect()),
        Value::Object(o) => ConfigValue::Object(o.iter().map(|(k, v)| (k.clone(), config_of_json(v))).collect()),
    }
}

/// The configuration that a configuration file's text holds; `None` for text that is no JSON.
pub fn parse_config_text(text: &str) -> (r: Option<ConfigValue>)
    ensures
        r == config_from_json_text(text@),
{
    json_text_config(text)
}

} // verus!

verus! {

/// What `serde_json` writes (the `Display` of `serde_json::Value`, compact JSON) for a
/// configuration tree taken as a `serde_json::Value` kind by kind, a float text read by
/// `serde_json` as the number it writes.
pub uninterp spec fn config_json_text(v: ConfigValue) -> Seq<char>;

/// The `Display` text of `serde_json::Value` for the tree (`ToString::to_string`). The text is
/// named, not described: it is what `serde_json` writes.
#[verifier::external_body]
fn json_display_text(v: &ConfigValue) -> (r: String)
    ensures
        r@ == config_json_text(*v),
{
    json_of_config(v).to_string()
}

/// A configuration tree taken as a `serde_json::Value`, variant by variant; a float text becomes
/// the `serde_json::Number` that its `FromStr` reads from it (`null` where it reads none).
#[verifier::external_body]
fn json_of_config(v: &ConfigValue) -> Value {
    match v {
        ConfigValue::Null => Value::Null,
        ConfigValue::Bool(b) => Value::Bool(*b),
        ConfigValue::Unsigned(u) => Value::from(*u),
        ConfigValue::Negative(i) => Value::from(*i),
        ConfigValue::Float(t) => t.parse::<serde_json::Number>().map(Value::Number).unwrap_or(Value::Null),
        ConfigValue::Text(s) => Value::String(s.clone()),
        ConfigValue::Array(a) => Value::Array(a.iter().map(json_of_config).collect()),
        ConfigValue::Object(o) => Value::Object(o.iter().map(|(k, v)| (k.clone(), json_of_config(v))).collect()),
    }
}

/// The configuration tree written as compact JSON, as the value of a configuration path is shown.
pub fn config_value_text(v: &ConfigValue) -> (r: String)
    ensures
        r@ == config_json_text(*v),
{
    json_display_text(v)
}

} // verus!
