//! A YAML document as a plain tree, as serde_yaml reads it.

use vstd::prelude::*;
use crate::text::text_eq;

verus! {

/// A YAML node.
pub enum Yaml {
    Null,
    Bool(bool),
    /// A number, as the text that serde_yaml displays for it.
    Number(String),
    Str(String),
    List(Vec<Yaml>),
    /// A mapping, its entries in document order.
    Dict(Vec<(Yaml, Yaml)>),
}

#[verifier::external_type_specification]
#[verifier::external_body]
pub struct ExYamlValue(serde_yaml::Value);

/// The tree of a YAML document, where it is one.
pub uninterp spec fn yaml_document(text: Seq<char>) -> Option<Yaml>;

/// Relies on `serde_yaml::from_str` into a `serde_yaml::Value`: the document's tree, or
/// `None` where serde_yaml reports an error.  The tree depends on the text alone.
#[verifier::external_body]
pub fn parse_yaml(text: &str) -> (r: Option<Yaml>)
    ensures
        r == yaml_document(text@),
{
    match serde_yaml::from_str::<serde_yaml::Value>(text) {
        Ok(v) => Some(yaml_tree(&v)),
        Err(_) => None,
    }
}

/// Converts a `serde_yaml::Value` node for node; a number keeps the text that
/// serde_yaml's `Display` gives it.
#[verifier::external_body]
fn yaml_tree(v: &serde_yaml::Value) -> Yaml {
    match v {
        serde_yaml::Value::Null => Yaml::Null,
        serde_yaml::Value::Bool(b) => Yaml::Bool(*b),
        serde_yaml::Value::Number(n) => Yaml::Number(n.to_string()),
        serde_yaml::Value::String(s) => Yaml::Str(s.clone()),
        serde_yaml::Value::Sequence(items) => Yaml::List(items.iter().map(yaml_tree).collect()),
        serde_yaml::Value::Mapping(m) => Yaml::Dict(
            m.iter().map(|(k, x)| (yaml_tree(k), yaml_tree(x))).collect(),
        ),
    }
}

/// Whether a node is the string `key`.
pub open spec fn is_key(y: Yaml, key: Seq<char>) -> bool {
    y matches Yaml::Str(s) && s@ == key
}

/// The position of the first entry whose key is the string `key`.
pub open spec fn entry_index(entries: Seq<(Yaml, Yaml)>, key: Seq<char>) -> Option<int>
    decreases entries.len(),
{
    if entries.len() == 0 {
        None
    } else {
        match entry_index(entries.drop_last(), key) {
            Some(i) => Some(i),
            None => if is_key(entries.last().0, key) {
                Some(entries.len() - 1)
            } else {
                None
            },
        }
    }
}

/// The value under string key `key` of a mapping.
pub open spec fn yaml_get(y: Yaml, key: Seq<char>) -> Option<Yaml> {
    match y {
        Yaml::Dict(entries) => match entry_index(entries@, key) {
            Some(i) => Some(entries@[i].1),
            None => None,
        },
        _ => None,
    }
}

pub proof fn lemma_entry_index_range(entries: Seq<(Yaml, Yaml)>, key: Seq<char>)
    ensures
        entry_index(entries, key) matches Some(i) ==> 0 <= i < entries.len(),
    decreases entries.len(),
{
    if entries.len() > 0 {
        lemma_entry_index_range(entries.drop_last(), key);
    }
}

/// Once a prefix holds the key, longer prefixes find the same entry.
proof fn lemma_entry_index_prefix(entries: Seq<(Yaml, Yaml)>, key: Seq<char>, m: int)
    requires
        0 <= m <= entries.len(),
        entry_index(entries.subrange(0, m), key) is Some,
    ensures
        entry_index(entries, key) == entry_index(entries.subrange(0, m), key),
    decreases entries.len() - m,
{
    if m < entries.len() {
        assert(entries.subrange(0, m + 1).drop_last() =~= entries.subrange(0, m));
        lemma_entry_index_prefix(entries, key, m + 1);
    } else {
        assert(entries.subrange(0, m) =~= entries);
    }
}

impl Yaml {
    /// The value under string key `key`, when this is a mapping that has it.
    pub fn get(&self, key: &str) -> (r: Option<&Yaml>)
        ensures
            r matches Some(v) ==> yaml_get(*self, key@) == Some(*v),
            r is None ==> yaml_get(*self, key@) is None,
    {
        match self {
            Yaml::Dict(entries) => {
                let mut i: usize = 0;
                while i < entries.len()
                    invariant
                        0 <= i <= entries.len(),
                        *self == Yaml::Dict(*entries),
                        entry_index(entries@.subrange(0, i as int), key@) is None,
                    decreases entries.len() - i,
                {
                    assert(entries@.subrange(0, i + 1).drop_last() =~= entries@.subrange(0, i as int));
                    let found = match &entries[i].0 {
                        Yaml::Str(s) => text_eq(s.as_str(), key),
                        _ => false,
                    };
                    assert(found == is_key(entries@[i as int].0, key@));
                    if found {
                        proof {
                            assert(entries@.subrange(0, i + 1).last() == entries@[i as int]);
                            assert(is_key(entries@[i as int].0, key@));
                            assert(entry_index(entries@.subrange(0, i + 1), key@) == Some(i as int));
                            lemma_entry_index_prefix(entries@, key@, i + 1);
                            assert(entry_index(entries@, key@) == Some(i as int));
                            assert(*self == Yaml::Dict(*entries));
                            assert(yaml_get(*self, key@) == Some(entries@[i as int].1));
                        }
                        return Some(&entries[i].1);
                    }
                    i = i + 1;
                }
                assert(entries@.subrange(0, i as int) =~= entries@);
                None
            },
            _ => None,
        }
    }
}

} // verus!
