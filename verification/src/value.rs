//! Generic attribute tree decoded from a feed: every channel and every item
//! is one `Node`, a tagged tree of text, lists and ordered key/value mappings.
use vstd::prelude::*;

verus! {

/// One node of the attribute tree. A mapping keeps its entries in the order
/// they were produced by the decoder; lookups take the first matching key.
pub enum Node {
    Text(String),
    List(Vec<Node>),
    Mapping(Vec<(String, Node)>),
}

/// Mathematical shape of a `Node`.
pub enum Tree {
    Text(Seq<char>),
    List(Seq<Tree>),
    Mapping(Seq<(Seq<char>, Tree)>),
}

impl View for Node {
    type V = Tree;

    open spec fn view(&self) -> Tree
        decreases self,
    {
        match self {
            Node::Text(s) => Tree::Text(s@),
            Node::List(l) => Tree::List(views_of_list(l@)),
            Node::Mapping(m) => Tree::Mapping(views_of_entries(m@)),
        }
    }
}

/// Views of a list node's children, in order.
pub open spec fn views_of_list(l: Seq<Node>) -> Seq<Tree>
    decreases l,
{
    if l.len() == 0 {
        Seq::empty()
    } else {
        seq![l[0]@] + views_of_list(l.subrange(1, l.len() as int))
    }
}

/// Views of a mapping node's entries, in order.
pub open spec fn views_of_entries(m: Seq<(String, Node)>) -> Seq<(Seq<char>, Tree)>
    decreases m,
{
    if m.len() == 0 {
        Seq::empty()
    } else {
        seq![(m[0].0@, m[0].1@)] + views_of_entries(m.subrange(1, m.len() as int))
    }
}

/// A list node's view has one child view per child, in place.
pub proof fn lemma_views_of_list(l: Seq<Node>)
    ensures
        views_of_list(l).len() == l.len(),
        forall|i: int| 0 <= i < l.len() ==> views_of_list(l)[i] == l[i]@,
    decreases l.len(),
{
    if l.len() > 0 {
        let rest = l.subrange(1, l.len() as int);
        lemma_views_of_list(rest);
        assert(views_of_list(l) == seq![l[0]@] + views_of_list(rest));
        assert(views_of_list(l).len() == l.len());
        assert forall|i: int| 0 <= i < l.len() implies views_of_list(l)[i] == l[i]@ by {
            if i > 0 {
                assert(views_of_list(l)[i] == views_of_list(rest)[i - 1]);
                assert(rest[i - 1] == l[i]);
            }
        }
    }
}

/// A mapping node's view has one entry view per entry, in place.
pub proof fn lemma_views_of_entries(m: Seq<(String, Node)>)
    ensures
        views_of_entries(m).len() == m.len(),
        forall|i: int| 0 <= i < m.len() ==> views_of_entries(m)[i] == (m[i].0@, m[i].1@),
    decreases m.len(),
{
    if m.len() > 0 {
        let rest = m.subrange(1, m.len() as int);
        lemma_views_of_entries(rest);
        assert(views_of_entries(m) == seq![(m[0].0@, m[0].1@)] + views_of_entries(rest));
        assert(views_of_entries(m).len() == m.len());
        assert forall|i: int| 0 <= i < m.len() implies views_of_entries(m)[i] == (
            m[i].0@,
            m[i].1@,
        ) by {
            if i > 0 {
                assert(views_of_entries(m)[i] == views_of_entries(rest)[i - 1]);
                assert(rest[i - 1] == m[i]);
            }
        }
    }
}

/// First value bound to `key`, scanning the entries in order.
pub open spec fn lookup(entries: Seq<(Seq<char>, Tree)>, key: Seq<char>) -> Option<Tree>
    decreases entries.len(),
{
    if entries.len() == 0 {
        None
    } else if entries[0].0 == key {
        Some(entries[0].1)
    } else {
        lookup(entries.skip(1), key)
    }
}

/// What a mapping node binds to `key`; `None` on any other node shape.
pub open spec fn tree_get(t: Tree, key: Seq<char>) -> Option<Tree> {
    match t {
        Tree::Mapping(entries) => lookup(entries, key),
        _ => None,
    }
}

/// The logical text of a node: a bare string, or the `#text` field of a
/// structured node; feeds use both encodings for the same content.
pub open spec fn text_of(t: Tree) -> Option<Seq<char>> {
    match t {
        Tree::Text(s) => Some(s),
        Tree::Mapping(entries) => match lookup(entries, "#text"@) {
            Some(Tree::Text(s)) => Some(s),
            _ => None,
        },
        Tree::List(_) => None,
    }
}

/// The logical URL of a node: a bare string, or the first of the
/// `url`, `@url`, `@href`, `#text` fields that carries text.
pub open spec fn url_of(t: Tree) -> Option<Seq<char>> {
    match t {
        Tree::Text(s) => Some(s),
        Tree::Mapping(entries) => match first_text(entries, "url"@) {
            Some(s) => Some(s),
            None => match first_text(entries, "@url"@) {
                Some(s) => Some(s),
                None => match first_text(entries, "@href"@) {
                    Some(s) => Some(s),
                    None => first_text(entries, "#text"@),
                },
            },
        },
        Tree::List(_) => None,
    }
}

/// Text bound to `key` in `entries`, when the bound node is itself text.
pub open spec fn first_text(entries: Seq<(Seq<char>, Tree)>, key: Seq<char>) -> Option<Seq<char>> {
    match lookup(entries, key) {
        Some(Tree::Text(s)) => Some(s),
        _ => None,
    }
}

proof fn lemma_lookup_skip(entries: Seq<(Seq<char>, Tree)>, key: Seq<char>, i: int)
    requires
        0 <= i <= entries.len(),
        forall|j: int| 0 <= j < i ==> entries[j].0 != key,
    ensures
        lookup(entries, key) == lookup(entries.skip(i), key),
    decreases i,
{
    if i > 0 {
        assert(lookup(entries, key) == lookup(entries.skip(1), key));
        lemma_lookup_skip(entries.skip(1), key, i - 1);
        assert(entries.skip(1).skip(i - 1) =~= entries.skip(i));
    } else {
        assert(entries.skip(0) =~= entries);
    }
}

/// The first binding of `key` sits at `i`: looking `key` up yields it.
pub proof fn lemma_lookup_at(entries: Seq<(Seq<char>, Tree)>, key: Seq<char>, i: int)
    requires
        0 <= i < entries.len(),
        entries[i].0 == key,
        forall|j: int| 0 <= j < i ==> entries[j].0 != key,
    ensures
        lookup(entries, key) == Some(entries[i].1),
{
    lemma_lookup_skip(entries, key, i);
    assert(entries.skip(i)[0] == entries[i]);
}

/// No entry binds `key`: looking it up yields nothing.
pub proof fn lemma_lookup_at_end(entries: Seq<(Seq<char>, Tree)>, key: Seq<char>)
    requires
        forall|j: int| 0 <= j < entries.len() ==> entries[j].0 != key,
    ensures
        lookup(entries, key) is None,
{
    lemma_lookup_skip(entries, key, entries.len() as int);
    assert(entries.skip(entries.len() as int).len() == 0);
}

impl Node {
    /// Entry bound to `key` when this node is a mapping that has one.
    pub fn get<'a>(&'a self, key: &str) -> (r: Option<&'a Node>)
        ensures
            match r {
                Some(v) => tree_get(self@, key@) == Some(v@),
                None => tree_get(self@, key@) is None,
            },
    {
        match self {
            Node::Mapping(entries) => {
                let ghost es = views_of_entries(entries@);
                proof {
                    lemma_views_of_entries(entries@);
                }
                let n = entries.len();
                for i in 0..n
                    invariant
                        n == entries.len(),
                        es == views_of_entries(entries@),
                        es.len() == n,
                        forall|k: int| 0 <= k < n ==> es[k] == (entries@[k].0@, entries@[k].1@),
                        self@ == Tree::Mapping(es),
                        forall|j: int| 0 <= j < i ==> es[j].0 != key@,
                {
                    if string_eq_str(&entries[i].0, key) {
                        proof {
                            lemma_lookup_skip(es, key@, i as int);
                            assert(es.skip(i as int)[0] == es[i as int]);
                        }
                        return Some(&entries[i].1);
                    }
                }
                proof {
                    lemma_lookup_skip(es, key@, n as int);
                    assert(es.skip(n as int).len() == 0);
                }
                None
            },
            _ => None,
        }
    }

    /// The node's logical text, as `text_of` describes it.
    pub fn as_text<'a>(&'a self) -> (r: Option<&'a String>)
        ensures
            match r {
                Some(s) => text_of(self@) == Some(s@),
                None => text_of(self@) is None,
            },
    {
        match self {
            Node::Text(s) => Some(s),
            Node::Mapping(_) => match self.get("#text") {
                Some(Node::Text(s)) => Some(s),
                _ => None,
            },
            Node::List(_) => None,
        }
    }

    /// The node's logical URL, as `url_of` describes it.
    pub fn as_url<'a>(&'a self) -> (r: Option<&'a String>)
        ensures
            match r {
                Some(s) => url_of(self@) == Some(s@),
                None => url_of(self@) is None,
            },
    {
        match self {
            Node::Text(s) => Some(s),
            Node::Mapping(_) => {
                if let Some(Node::Text(s)) = self.get("url") {
                    return Some(s);
                }
                if let Some(Node::Text(s)) = self.get("@url") {
                    return Some(s);
                }
                if let Some(Node::Text(s)) = self.get("@href") {
                    return Some(s);
                }
                if let Some(Node::Text(s)) = self.get("#text") {
                    return Some(s);
                }
                None
            },
            Node::List(_) => None,
        }
    }
}

/// Whether a `String` and a `&str` spell the same characters.
pub fn string_eq_str(s: &String, t: &str) -> (r: bool)
    ensures
        r == (s@ == t@),
{
    let n = s.as_str().unicode_len();
    if n != t.unicode_len() {
        proof {
            assert(s@ != t@);
        }
        return false;
    }
    for i in 0..n
        invariant
            n == s@.len() == t@.len(),
            forall|j: int| 0 <= j < i ==> s@[j] == t@[j],
    {
        if s.as_str().get_char(i) != t.get_char(i) {
            return false;
        }
    }
    proof {
        assert(s@ =~= t@);
    }
    true
}

/// The feed-declared unique identifier of one decoded item, used as the
/// downloaded-state key; absent when the item does not carry one as text.
pub fn get_guid(item: &Node) -> (r: Option<String>)
    ensures
        match r {
            Some(s) => text_of(tree_get(item@, "guid"@) ->Some_0) == Some(s@)
                && tree_get(item@, "guid"@) is Some,
            None => tree_get(item@, "guid"@) is None
                || text_of(tree_get(item@, "guid"@)->Some_0) is None,
        },
{
    match item.get("guid") {
        Some(v) => match v.as_text() {
            Some(s) => Some(s.clone()),
            None => None,
        },
        None => None,
    }
}

} // verus!
