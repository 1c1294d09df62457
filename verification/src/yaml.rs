//! A YAML document as plain values: what the frontmatter readers look at, held
//! by this crate rather than by the parser that produced it.
//!
//! Parsing is `serde_yaml`'s work and stays there; the tree it builds is carried
//! over one node for one node. A number reads as an integer when it is one that
//! fits `i64`, and as an opaque number otherwise; a tag is kept as a wrapper
//! around its value, its name dropped, since nothing here reads it.

use vstd::prelude::*;

use crate::text::range_is;

verus! {

/// One YAML node.
#[derive(Debug, PartialEq)]
pub enum Yaml {
    /// `null`, `~`, or an empty document.
    Null,
    /// `true` / `false`.
    Bool(bool),
    /// An integer that fits `i64`.
    Int(i64),
    /// Any other number: a float, or an integer beyond `i64`, as the parser
    /// writes it.
    OtherNumber(String),
    /// A string scalar.
    String(String),
    /// A list.
    Sequence(Vec<Yaml>),
    /// A mapping, as its entries in document order.
    Mapping(Vec<(Yaml, Yaml)>),
    /// A value carrying an explicit `!tag`.
    Tagged(Box<Yaml>),
}

/// The document `serde_yaml` reads from `text`: the tree, or the parser's
/// message when the text is not YAML.
pub uninterp spec fn yaml_document(text: Seq<char>) -> Result<Yaml, Seq<char>>;

/// `serde_yaml::from_str::<Value>`: parse `text` as one YAML document. The
/// claim is only that the result is the parser's, carried over node for node,
/// and a function of the text alone; what the parser accepts is not restated.
#[verifier::external_body]
pub(crate) fn parse_yaml(text: &str) -> (r: Result<Yaml, String>)
    ensures
        match (r, yaml_document(text@)) {
            (Ok(v), Ok(w)) => v == w,
            (Err(e), Err(m)) => e@ == m,
            _ => false,
        },
{
    match serde_yaml::from_str::<serde_yaml::Value>(text) {
        Ok(value) => Ok(node(&value)),
        Err(e) => Err(e.to_string()),
    }
}

/// `serde_yaml::Value`, the parser's own tree, carried only as far as
/// [`node`].
#[verifier::external_type_specification]
#[verifier::external_body]
pub struct ExYamlValue(serde_yaml::Value);

/// One `serde_yaml::Value` as a [`Yaml`] node, variant for variant.
#[verifier::external_body]
fn node(value: &serde_yaml::Value) -> Yaml {
    match value {
        serde_yaml::Value::Null => Yaml::Null,
        serde_yaml::Value::Bool(b) => Yaml::Bool(*b),
        serde_yaml::Value::Number(n) => match n.as_i64() {
            Some(i) => Yaml::Int(i),
            None => Yaml::OtherNumber(n.to_string()),
        },
        serde_yaml::Value::String(s) => Yaml::String(s.clone()),
        serde_yaml::Value::Sequence(items) => Yaml::Sequence(items.iter().map(node).collect()),
        serde_yaml::Value::Mapping(map) => Yaml::Mapping(map.iter().map(|(k, v)| (node(k), node(v))).collect()),
        serde_yaml::Value::Tagged(tagged) => Yaml::Tagged(Box::new(node(&tagged.value))),
    }
}

/// The value under any number of tags.
pub open spec fn untag(v: Yaml) -> Yaml
    decreases v,
{
    match v {
        Yaml::Tagged(inner) => untag(*inner),
        _ => v,
    }
}

/// The value of the first entry whose key is the string `key`.
pub open spec fn lookup(entries: Seq<(Yaml, Yaml)>, key: Seq<char>) -> Option<Yaml>
    decreases entries.len(),
{
    if entries.len() == 0 {
        None
    } else {
        match entries[0].0 {
            Yaml::String(k) => if k@ == key {
                Some(entries[0].1)
            } else {
                lookup(entries.drop_first(), key)
            },
            _ => lookup(entries.drop_first(), key),
        }
    }
}

/// `value[key]` (`Value::get` with a string index): a mapping's entry, looking
/// through tags on the mapping; `None` for anything that is not a mapping.
pub open spec fn get(v: Yaml, key: Seq<char>) -> Option<Yaml> {
    match untag(v) {
        Yaml::Mapping(entries) => lookup(entries@, key),
        _ => None,
    }
}

/// Whether the value is a mapping, looking through tags (`Value::is_mapping`).
pub open spec fn is_mapping(v: Yaml) -> bool {
    untag(v) is Mapping
}

/// The value as an integer, looking through tags (`Value::as_i64`).
pub open spec fn as_int(v: Yaml) -> Option<i64> {
    match untag(v) {
        Yaml::Int(n) => Some(n),
        _ => None,
    }
}

/// The value as a boolean, looking through tags (`Value::as_bool`).
pub open spec fn as_bool(v: Yaml) -> Option<bool> {
    match untag(v) {
        Yaml::Bool(b) => Some(b),
        _ => None,
    }
}

/// The value as a string, looking through tags (`Value::as_str`).
pub open spec fn as_str(v: Yaml) -> Option<Seq<char>> {
    match untag(v) {
        Yaml::String(s) => Some(s@),
        _ => None,
    }
}

/// The value as text, looking through tags: a string as written, a number in
/// its decimal form; `None` for anything else.
pub open spec fn as_text(v: Yaml) -> Option<Seq<char>> {
    match untag(v) {
        Yaml::String(s) => Some(s@),
        Yaml::Int(n) => Some(crate::text::int_text(n as int)),
        Yaml::OtherNumber(t) => Some(t@),
        _ => None,
    }
}

/// The string held directly (untagged) at `key` of a mapping value.
pub open spec fn str_at(v: Yaml, key: Seq<char>) -> Option<Seq<char>> {
    match get(v, key) {
        Some(Yaml::String(s)) => Some(s@),
        _ => None,
    }
}

impl Yaml {
    /// The value under any number of tags.
    pub fn untagged(&self) -> (r: &Yaml)
        ensures
            *r == untag(*self),
        decreases self,
    {
        match self {
            Yaml::Tagged(inner) => inner.untagged(),
            _ => self,
        }
    }

    /// Whether the value is a mapping, looking through tags.
    pub fn is_mapping(&self) -> (r: bool)
        ensures
            r == is_mapping(*self),
    {
        match self.untagged() {
            Yaml::Mapping(_) => true,
            _ => false,
        }
    }

    /// `self[key]` — see [`get`].
    pub fn get(&self, key: &str) -> (r: Option<&Yaml>)
        ensures
            r == match get(*self, key@) {
                Some(v) => Some(&v),
                None => None::<&Yaml>,
            },
    {
        match self.untagged() {
            Yaml::Mapping(entries) => lookup_entry(entries, key),
            _ => None,
        }
    }

    /// The value as an integer, looking through tags.
    pub fn as_i64(&self) -> (r: Option<i64>)
        ensures
            r == as_int(*self),
    {
        match self.untagged() {
            Yaml::Int(n) => Some(*n),
            _ => None,
        }
    }

    /// The value as a boolean, looking through tags.
    pub fn as_bool(&self) -> (r: Option<bool>)
        ensures
            r == as_bool(*self),
    {
        match self.untagged() {
            Yaml::Bool(b) => Some(*b),
            _ => None,
        }
    }

    /// The value as a string, looking through tags.
    pub fn as_str(&self) -> (r: Option<&String>)
        ensures
            match r {
                Some(s) => as_str(*self) == Some(s@),
                None => as_str(*self) is None,
            },
    {
        match self.untagged() {
            Yaml::String(s) => Some(s),
            _ => None,
        }
    }
}

/// The value of the first entry whose key is the string `key`.
pub fn lookup_entry<'a>(entries: &'a Vec<(Yaml, Yaml)>, key: &str) -> (r: Option<&'a Yaml>)
    ensures
        r == match lookup(entries@, key@) {
            Some(v) => Some(&v),
            None => None::<&Yaml>,
        },
{
    let mut i: usize = 0;
    assert(entries@.skip(0) =~= entries@);
    while i < entries.len()
        invariant
            i <= entries@.len(),
            lookup(entries@, key@) == lookup(entries@.skip(i as int), key@),
        decreases entries.len() - i,
    {
        assert(entries@.skip(i as int)[0] == entries@[i as int]);
        assert(entries@.skip(i as int).drop_first() =~= entries@.skip(i + 1));
        match &entries[i].0 {
            Yaml::String(k) => {
                let kc = crate::text::chars_of_string(k);
                assert(kc@.subrange(0, kc@.len() as int) =~= kc@);
                if range_is(&kc, 0, kc.len(), key) {
                    return Some(&entries[i].1);
                }
            },
            _ => {},
        }
        i += 1;
    }
    assert(entries@.skip(i as int) =~= Seq::<(Yaml, Yaml)>::empty());
    None
}

/// The string held directly (untagged) at `key` of a mapping value, copied.
pub fn string_at(v: &Yaml, key: &str) -> (r: Option<String>)
    ensures
        match r {
            Some(s) => str_at(*v, key@) == Some(s@),
            None => str_at(*v, key@) is None,
        },
{
    match v.get(key) {
        Some(Yaml::String(s)) => Some(s.clone()),
        _ => None,
    }
}


impl Yaml {
    /// The value as text (see [`as_text`]).
    pub fn as_text(&self) -> (r: Option<String>)
        ensures
            match r {
                Some(t) => as_text(*self) == Some(t@),
                None => as_text(*self) is None,
            },
    {
        match self.untagged() {
            Yaml::String(s) => Some(s.clone()),
            Yaml::Int(n) => Some(crate::text::i64_text(*n)),
            Yaml::OtherNumber(t) => Some(t.clone()),
            _ => None,
        }
    }
}

/// The scalar held directly (untagged) at `key` of a mapping value, as text: a
/// string as written, a number in its decimal form.
pub open spec fn scalar_text_at(v: Yaml, key: Seq<char>) -> Option<Seq<char>> {
    match get(v, key) {
        Some(Yaml::String(s)) => Some(s@),
        Some(Yaml::Int(n)) => Some(crate::text::int_text(n as int)),
        Some(Yaml::OtherNumber(t)) => Some(t@),
        _ => None,
    }
}

/// The scalar at `key` of a mapping value, as text (see [`scalar_text_at`]).
pub fn scalar_at(v: &Yaml, key: &str) -> (r: Option<String>)
    ensures
        match r {
            Some(s) => scalar_text_at(*v, key@) == Some(s@),
            None => scalar_text_at(*v, key@) is None,
        },
{
    match v.get(key) {
        Some(Yaml::String(s)) => Some(s.clone()),
        Some(Yaml::Int(n)) => Some(crate::text::i64_text(*n)),
        Some(Yaml::OtherNumber(t)) => Some(t.clone()),
        _ => None,
    }
}

} // verus!
