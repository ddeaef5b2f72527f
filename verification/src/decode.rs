//! Feed decoding: raw XML text to one attribute tree for the channel and one
//! per item. A generic XML-to-JSON converter merges same-named tags of
//! different namespaces, so the `itunes:` prefix is first rewritten into a
//! private marker, the converter runs, and the keys are rewritten back.
use crate::text::contains_pat;
use crate::text::matches_at;
use crate::text::spec_replace;
use crate::text::lemma_occurrence_of_part;
use crate::text::lemma_replace_absent;
use crate::text::replace_all;
use crate::value::lookup;
use crate::value::lemma_views_of_entries;
use crate::value::lemma_views_of_list;
use crate::value::string_eq_str;
use crate::value::tree_get;
use crate::value::views_of_entries;
use crate::value::views_of_list;
use crate::value::Tree;
use crate::value::Node;
use vstd::prelude::*;

verus! {

/// The namespace prefix that must survive decoding as part of the key.
pub open spec fn itunes_prefix() -> Seq<char> {
    "itunes:"@
}

/// Private token that never occurs in a feed; it stands in for the colon
/// of the `itunes:` prefix while the generic converter runs.
pub open spec fn namespace_marker() -> Seq<char> {
    "__placeholder__"@
}

/// The `itunes:` prefix as the converter sees it: colon replaced by marker.
pub open spec fn altered_prefix() -> Seq<char> {
    "itunes__placeholder__"@
}

/// The JSON tree that the structural XML conversion yields for a document,
/// or `None` for text it cannot parse.
pub uninterp spec fn xml_json(xml: Seq<char>) -> Option<Tree>;

/// What a converted JSON value holds, as an attribute tree.
pub uninterp spec fn json_view(v: serde_json::Value) -> Tree;

/// serde_json::Value, declared so that the two trusted functions below can
/// pass parsed documents through; nothing inside one is visible here.
#[verifier::external_type_specification]
#[verifier::external_body]
pub struct ExJsonValue(serde_json::Value);

/// Relies on quickxml_to_serde::xml_str_to_json with default settings
/// (attributes keyed with a leading `@`, element text under `#text`):
/// the conversion is a function of the document text alone, and a parse
/// error becomes `None`.
#[verifier::external_body]
fn parse_feed_json(xml: &str) -> (r: Option<serde_json::Value>)
    ensures
        (r is Some) == (xml_json(xml@) is Some),
        r matches Some(v) ==> xml_json(xml@) == Some(json_view(v)),
{
    let conf = quickxml_to_serde::Config::new_with_defaults();
    quickxml_to_serde::xml_str_to_json(xml, &conf).ok()
}

/// Relies on the variants of serde_json::Value alone: every JSON node reads
/// back as text (null, booleans and numbers in their display spelling), a
/// list, or a mapping with its entries in storage order.
#[verifier::external_body]
fn tree_of_json(v: &serde_json::Value) -> (t: Node)
    ensures
        t@ == json_view(*v),
{
    match v {
        serde_json::Value::Null => Node::Text(String::new()),
        serde_json::Value::Bool(b) => Node::Text(b.to_string()),
        serde_json::Value::Number(n) => Node::Text(n.to_string()),
        serde_json::Value::String(s) => Node::Text(s.clone()),
        serde_json::Value::Array(a) => Node::List(a.iter().map(tree_of_json).collect()),
        serde_json::Value::Object(m) => Node::Mapping(
            m.iter().map(|(k, x)| (k.clone(), tree_of_json(x))).collect(),
        ),
    }
}

/// A decoded key with the marker rewritten back to the `itunes:` prefix.
pub open spec fn restore_key(k: Seq<char>) -> Seq<char> {
    spec_replace(k, altered_prefix(), itunes_prefix())
}

/// Every key of a mapping restored; values untouched.
pub open spec fn restore_entries(es: Seq<(Seq<char>, Tree)>) -> Seq<(Seq<char>, Tree)> {
    es.map_values(|e: (Seq<char>, Tree)| (restore_key(e.0), e.1))
}

/// An item with its top-level keys restored; other node shapes untouched.
pub open spec fn restore_item(t: Tree) -> Tree {
    match t {
        Tree::Mapping(es) => Tree::Mapping(restore_entries(es)),
        _ => t,
    }
}

/// Entries without the first binding of `key`.
pub open spec fn remove_key(es: Seq<(Seq<char>, Tree)>, key: Seq<char>) -> Seq<(Seq<char>, Tree)>
    decreases es.len(),
{
    if es.len() == 0 {
        es
    } else if es[0].0 == key {
        es.skip(1)
    } else {
        seq![es[0]] + remove_key(es.skip(1), key)
    }
}

/// What decoding a feed yields: the channel's attribute tree (its `item`
/// list taken out, all keys restored) and the restored item trees, or
/// `None` when the document lacks an `rss`/`channel` path or the channel
/// lacks an item list.
pub open spec fn spec_decode(xml: Seq<char>) -> Option<(Tree, Seq<Tree>)> {
    let altered = spec_replace(xml, itunes_prefix(), altered_prefix());
    match xml_json(altered) {
        Some(t) => match tree_get(t, "rss"@) {
            Some(rss) => match tree_get(rss, "channel"@) {
                Some(ch) => match ch {
                    Tree::Mapping(es) => match lookup(es, "item"@) {
                        Some(Tree::List(items)) => Some(
                            (
                                Tree::Mapping(restore_entries(remove_key(es, "item"@))),
                                items.map_values(|it: Tree| restore_item(it)),
                            ),
                        ),
                        _ => None,
                    },
                    _ => None,
                },
                None => None,
            },
            None => None,
        },
        None => None,
    }
}

impl Node {
    /// Moves the first value bound to `key` out of a mapping node.
    pub fn into_entry(self, key: &str) -> (r: Option<Node>)
        ensures
            match r {
                Some(v) => tree_get(self@, key@) == Some(v@),
                None => tree_get(self@, key@) is None,
            },
    {
        let ghost orig = self@;
        match self {
            Node::Mapping(mut entries) => {
                let ghost es = views_of_entries(entries@);
                proof {
                    lemma_views_of_entries(entries@);
                }
                let n = entries.len();
                for i in 0..n
                    invariant
                        n == entries.len(),
                        es == views_of_entries(entries@),
                        es.len() == n,
                        orig == Tree::Mapping(es),
                        orig == self@,
                        forall|k: int| 0 <= k < n ==> es[k] == (entries@[k].0@, entries@[k].1@),
                        forall|j: int| 0 <= j < i ==> es[j].0 != key@,
                {
                    if string_eq_str(&entries[i].0, key) {
                        proof {
                            crate::value::lemma_lookup_at(es, key@, i as int);
                        }
                        let pair = entries.remove(i);
                        proof {
                            assert(pair.1@ == es[i as int].1);
                            assert(tree_get(orig, key@) == lookup(es, key@));
                            assert(tree_get(orig, key@) == Some(pair.1@));
                            assert(orig == self@);
                        }
                        return Some(pair.1);
                    }
                }
                proof {
                    crate::value::lemma_lookup_at_end(es, key@);
                }
                None
            },
            _ => None,
        }
    }
}

/// Position of the first entry bound to `key`, or the length when none is.
fn find_key(entries: &Vec<(String, Node)>, key: &str) -> (r: usize)
    ensures
        r <= entries@.len(),
        r < entries@.len() ==> entries@[r as int].0@ == key@,
        forall|j: int| 0 <= j < r ==> entries@[j].0@ != key@,
{
    let n = entries.len();
    for i in 0..n
        invariant
            n == entries.len(),
            forall|j: int| 0 <= j < i ==> entries@[j].0@ != key@,
    {
        if string_eq_str(&entries[i].0, key) {
            return i;
        }
    }
    n
}

/// The first binding of `key` sits at `i`: entries without it are the
/// entries with position `i` removed.
proof fn lemma_remove_key_at(es: Seq<(Seq<char>, Tree)>, key: Seq<char>, i: int)
    requires
        0 <= i < es.len(),
        es[i].0 == key,
        forall|j: int| 0 <= j < i ==> es[j].0 != key,
    ensures
        remove_key(es, key) == es.remove(i),
    decreases i,
{
    if i == 0 {
        assert(remove_key(es, key) =~= es.remove(0));
    } else {
        lemma_remove_key_at(es.skip(1), key, i - 1);
        assert(es.skip(1)[i - 1] == es[i]);
        assert(remove_key(es, key) =~= es.remove(i));
    }
}

/// Rewrites every key of an owned entry list back to its `itunes:` form.
fn restore_mapping(entries: Vec<(String, Node)>) -> (r: Vec<(String, Node)>)
    ensures
        views_of_entries(r@) == restore_entries(views_of_entries(entries@)),
{
    let ghost es0 = views_of_entries(entries@);
    proof {
        lemma_views_of_entries(entries@);
    }
    let mut rest = entries;
    let mut out: Vec<(String, Node)> = Vec::new();
    let n = rest.len();
    let mut i: usize = 0;
    while i < n
        invariant
            n == es0.len(),
            i == n - rest.len(),
            i <= n,
            forall|k: int| 0 <= k < rest@.len() ==> (rest@[k].0@, rest@[k].1@) == es0[i + k],
            out@.len() == i,
            forall|j: int|
                0 <= j < i ==> (#[trigger] out@[j]).0@ == restore_key(es0[j].0) && out@[j].1@
                    == es0[j].1,
        decreases n - i,
    {
        let pair = rest.remove(0);
        proof {
            reveal_strlit("itunes__placeholder__");
        }
        let nk = replace_all(pair.0.as_str(), "itunes__placeholder__", "itunes:");
        out.push((nk, pair.1));
        i = i + 1;
    }
    proof {
        lemma_views_of_entries(out@);
        assert(views_of_entries(out@) =~= restore_entries(es0));
    }
    out
}

/// Rewrites the top-level keys of every owned item tree.
fn restore_items(items: Vec<Node>) -> (r: Vec<Node>)
    ensures
        views_of_list(r@) == views_of_list(items@).map_values(|it: Tree| restore_item(it)),
{
    let ghost vs0 = views_of_list(items@);
    proof {
        lemma_views_of_list(items@);
    }
    let mut rest = items;
    let mut out: Vec<Node> = Vec::new();
    let n = rest.len();
    let mut i: usize = 0;
    while i < n
        invariant
            n == vs0.len(),
            i == n - rest.len(),
            i <= n,
            forall|k: int| 0 <= k < rest@.len() ==> rest@[k]@ == vs0[i + k],
            out@.len() == i,
            forall|j: int| 0 <= j < i ==> (#[trigger] out@[j])@ == restore_item(vs0[j]),
        decreases n - i,
    {
        let item = rest.remove(0);
        let restored = match item {
            Node::Mapping(entries) => Node::Mapping(restore_mapping(entries)),
            other => other,
        };
        out.push(restored);
        i = i + 1;
    }
    proof {
        lemma_views_of_list(out@);
        assert(views_of_list(out@) =~= vs0.map_values(|it: Tree| restore_item(it)));
    }
    out
}

/// Decodes a feed document: rewrites the `itunes:` prefix into the private
/// marker, runs the structural conversion, walks to `rss`/`channel`, takes
/// the item list out, and restores every key it rewrote.
pub fn decode(xml: &str) -> (r: Option<(Node, Vec<Node>)>)
    ensures
        (r is Some) == (spec_decode(xml@) is Some),
        r matches Some(d) ==> spec_decode(xml@) == Some(
            (d.0@, views_of_list(d.1@)),
        ),
{
    proof {
        reveal_strlit("itunes:");
        reveal_strlit("itunes__placeholder__");
    }
    let altered = replace_all(xml, "itunes:", "itunes__placeholder__");
    let parsed = match parse_feed_json(altered.as_str()) {
        Some(v) => v,
        None => {
            return None;
        },
    };
    let t = tree_of_json(&parsed);
    let rss = match t.into_entry("rss") {
        Some(v) => v,
        None => {
            return None;
        },
    };
    let ch = match rss.into_entry("channel") {
        Some(v) => v,
        None => {
            return None;
        },
    };
    let mut entries = match ch {
        Node::Mapping(e) => e,
        _ => {
            return None;
        },
    };
    let ghost es = views_of_entries(entries@);
    proof {
        lemma_views_of_entries(entries@);
    }
    let n = entries.len();
    let item_at = find_key(&entries, "item");
    if item_at == n {
        proof {
            crate::value::lemma_lookup_at_end(es, "item"@);
        }
        return None;
    }
    proof {
        crate::value::lemma_lookup_at(es, "item"@, item_at as int);
        lemma_remove_key_at(es, "item"@, item_at as int);
    }
    let pair = entries.remove(item_at);
    let items = match pair.1 {
        Node::List(items) => items,
        _ => {
            return None;
        },
    };
    proof {
        lemma_views_of_entries(entries@);
        assert(views_of_entries(entries@) =~= es.remove(item_at as int));
    }
    let channel = Node::Mapping(restore_mapping(entries));
    let restored_items = restore_items(items);
    Some((channel, restored_items))
}

/// Namespace round trip: decoding restores exactly the keys the encoder
/// altered. For any local name that contains neither the `itunes:` prefix
/// nor the private marker — every name a well-formed feed can carry — the
/// prefixed key comes back unchanged, and a plain key is never touched.
pub proof fn lemma_namespace_round_trip(local: Seq<char>)
    requires
        !contains_pat(local, itunes_prefix()),
        !contains_pat(local, namespace_marker()),
    ensures
        restore_key(spec_replace(itunes_prefix() + local, itunes_prefix(), altered_prefix()))
            == itunes_prefix() + local,
        restore_key(spec_replace(local, itunes_prefix(), altered_prefix())) == local,
{
    reveal_strlit("itunes:");
    reveal_strlit("itunes__placeholder__");
    reveal_strlit("__placeholder__");
    let itu = itunes_prefix();
    let alt = altered_prefix();
    let marker = namespace_marker();
    assert(itu.len() == 7);
    assert(alt.len() == 21);
    assert(marker.len() == 15);
    // The marker sits inside the altered prefix, so text free of the marker
    // is free of the altered prefix as well.
    assert(alt.subrange(6, 21) =~= marker);
    assert forall|i: int| !matches_at(local, alt, i) by {
        if matches_at(local, alt, i) {
            lemma_occurrence_of_part(local, alt, marker, 6, i);
        }
    }
    assert(!contains_pat(local, alt));
    // A plain key is altered to itself and restored to itself.
    lemma_replace_absent(local, itu, alt);
    lemma_replace_absent(local, alt, itu);
    // A prefixed key: altering replaces the prefix and leaves the local name.
    let prefixed = itu + local;
    assert(prefixed.subrange(0, 7) =~= itu);
    assert(prefixed.subrange(7, prefixed.len() as int) =~= local);
    assert(spec_replace(prefixed, itu, alt) == alt + spec_replace(local, itu, alt));
    assert(spec_replace(prefixed, itu, alt) == alt + local);
    // Restoring matches the altered prefix first and leaves the local name.
    let altered = alt + local;
    assert(altered.subrange(0, 21) =~= alt);
    assert(altered.subrange(21, altered.len() as int) =~= local);
    assert(restore_key(altered) == itu + spec_replace(local, alt, itu));
}

} // verus!
