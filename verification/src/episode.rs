//! The episode model: typed view over one decoded item, construction that
//! silently drops malformed items, and the ascending-publish-time ordering
//! that assigns each episode its stable index.
use crate::value::text_of;
use crate::value::tree_get;
use crate::value::url_of;
use crate::value::Node;
use crate::value::Tree;
use vstd::prelude::*;

verus! {

broadcast use vstd::seq_lib::group_to_multiset_ensures;

/// Text of the node bound to `key`, when there is one.
pub open spec fn text_of_key(t: Tree, key: Seq<char>) -> Option<Seq<char>> {
    match tree_get(t, key) {
        Some(v) => text_of(v),
        None => None,
    }
}

/// URL of the node bound to `key`, when there is one.
pub open spec fn url_of_key(t: Tree, key: Seq<char>) -> Option<Seq<char>> {
    match tree_get(t, key) {
        Some(v) => url_of(v),
        None => None,
    }
}

/// Unix timestamp a date string parses to, by the RFC 2822 rules,
/// or nothing for text that is no such date.
pub uninterp spec fn rfc2822_secs(s: Seq<char>) -> Option<i64>;

/// Relies on chrono::DateTime::parse_from_rfc2822: whether a date string
/// parses, and which timestamp it denotes, depend on the string alone.
#[verifier::external_body]
pub fn parse_rfc2822(s: &str) -> (r: Option<i64>)
    ensures
        r == rfc2822_secs(s@),
{
    match chrono::DateTime::parse_from_rfc2822(s) {
        Ok(dt) => Some(dt.timestamp()),
        Err(_) => None,
    }
}

/// One episode of a podcast. `index` is its position in ascending
/// publish-time order over the whole feed; `downloaded` mirrors the
/// persisted per-guid marker that the caller read.
pub struct Episode {
    pub title: String,
    pub guid: String,
    pub url: String,
    pub published: u64,
    pub author: Option<String>,
    pub image: Option<String>,
    pub description: Option<String>,
    pub itunes_episode: Option<String>,
    pub itunes_duration: Option<String>,
    pub index: usize,
    pub downloaded: bool,
}

/// Mathematical shape of an `Episode`.
pub struct EpisodeView {
    pub title: Seq<char>,
    pub guid: Seq<char>,
    pub url: Seq<char>,
    pub published: int,
    pub author: Option<Seq<char>>,
    pub image: Option<Seq<char>>,
    pub description: Option<Seq<char>>,
    pub itunes_episode: Option<Seq<char>>,
    pub itunes_duration: Option<Seq<char>>,
    pub index: int,
    pub downloaded: bool,
}

/// View of an optional owned string.
pub open spec fn opt_view(s: Option<String>) -> Option<Seq<char>> {
    match s {
        Some(x) => Some(x@),
        None => None,
    }
}

impl View for Episode {
    type V = EpisodeView;

    open spec fn view(&self) -> EpisodeView {
        EpisodeView {
            title: self.title@,
            guid: self.guid@,
            url: self.url@,
            published: self.published as int,
            author: opt_view(self.author),
            image: opt_view(self.image),
            description: opt_view(self.description),
            itunes_episode: opt_view(self.itunes_episode),
            itunes_duration: opt_view(self.itunes_duration),
            index: self.index as int,
            downloaded: self.downloaded,
        }
    }
}

/// Views of owned strings, in order.
pub open spec fn str_views(s: Seq<String>) -> Seq<Seq<char>> {
    s.map_values(|x: String| x@)
}

/// Views of episodes, in order.
pub open spec fn ep_views(s: Seq<Episode>) -> Seq<EpisodeView> {
    s.map_values(|e: Episode| e@)
}

/// The publish timestamp of an item: its `pubDate` text parsed as an
/// RFC 2822 date, rejected when absent, unparsable, or before 1970.
pub open spec fn pub_secs(t: Tree) -> Option<int> {
    match text_of_key(t, "pubDate"@) {
        Some(s) => match rfc2822_secs(s) {
            Some(x) => if x >= 0 {
                Some(x as int)
            } else {
                None
            },
            None => None,
        },
        None => None,
    }
}

/// The episode an item denotes, or nothing when a required field (title,
/// guid, enclosure URL, publish time) is absent or unparsable. `dl` is the
/// set of guids already marked downloaded; the index starts at zero and is
/// assigned later, by feed-wide ordering.
pub open spec fn spec_episode(t: Tree, dl: Seq<Seq<char>>) -> Option<EpisodeView> {
    match text_of_key(t, "title"@) {
        None => None,
        Some(title) => match text_of_key(t, "guid"@) {
            None => None,
            Some(guid) => match url_of_key(t, "enclosure"@) {
                None => None,
                Some(url) => match pub_secs(t) {
                    None => None,
                    Some(secs) => Some(
                        EpisodeView {
                            title,
                            guid,
                            url,
                            published: secs,
                            author: text_of_key(t, "itunes:author"@),
                            image: url_of_key(t, "itunes:image"@),
                            description: text_of_key(t, "description"@),
                            itunes_episode: text_of_key(t, "itunes:episode"@),
                            itunes_duration: text_of_key(t, "itunes:duration"@),
                            index: 0,
                            downloaded: dl.contains(guid),
                        },
                    ),
                },
            },
        },
    }
}

/// Whether `guid` is among the persisted downloaded markers.
pub fn is_marked_downloaded(dl: &Vec<String>, guid: &String) -> (r: bool)
    ensures
        r == str_views(dl@).contains(guid@),
{
    let n = dl.len();
    for i in 0..n
        invariant
            n == dl@.len(),
            forall|j: int| 0 <= j < i ==> dl@[j]@ != guid@,
    {
        if string_eq(&dl[i], guid) {
            proof {
                assert(str_views(dl@)[i as int] == guid@);
            }
            return true;
        }
    }
    proof {
        if str_views(dl@).contains(guid@) {
            let i = choose|i: int|
                0 <= i < str_views(dl@).len() && str_views(dl@)[i] == guid@;
            assert(dl@[i]@ == guid@);
        }
    }
    false
}

/// Whether two owned strings spell the same characters.
fn string_eq(a: &String, b: &String) -> (r: bool)
    ensures
        r == (a@ == b@),
{
    a.eq(b)
}

fn text_field(raw: &Node, key: &str) -> (r: Option<String>)
    ensures
        opt_view(r) == text_of_key(raw@, key@),
{
    match raw.get(key) {
        Some(v) => match v.as_text() {
            Some(s) => Some(s.clone()),
            None => None,
        },
        None => None,
    }
}

fn url_field(raw: &Node, key: &str) -> (r: Option<String>)
    ensures
        opt_view(r) == url_of_key(raw@, key@),
{
    match raw.get(key) {
        Some(v) => match v.as_url() {
            Some(s) => Some(s.clone()),
            None => None,
        },
        None => None,
    }
}

impl Episode {
    /// Builds the episode one decoded item denotes; a malformed item yields
    /// nothing and is dropped from the feed rather than failing the sync.
    pub fn new(raw: &Node, dl: &Vec<String>) -> (r: Option<Episode>)
        ensures
            match r {
                Some(e) => spec_episode(raw@, str_views(dl@)) == Some(e@),
                None => spec_episode(raw@, str_views(dl@)) is None,
            },
    {
        let title = match text_field(raw, "title") {
            Some(s) => s,
            None => {
                return None;
            },
        };
        let guid = match text_field(raw, "guid") {
            Some(s) => s,
            None => {
                return None;
            },
        };
        let url = match url_field(raw, "enclosure") {
            Some(s) => s,
            None => {
                return None;
            },
        };
        let pub_text = match text_field(raw, "pubDate") {
            Some(s) => s,
            None => {
                return None;
            },
        };
        let secs = match parse_rfc2822(pub_text.as_str()) {
            Some(x) => {
                if x >= 0 {
                    x as u64
                } else {
                    return None;
                }
            },
            None => {
                return None;
            },
        };
        let downloaded = is_marked_downloaded(dl, &guid);
        Some(
            Episode {
                title,
                guid,
                url,
                published: secs,
                author: text_field(raw, "itunes:author"),
                image: url_field(raw, "itunes:image"),
                description: text_field(raw, "description"),
                itunes_episode: text_field(raw, "itunes:episode"),
                itunes_duration: text_field(raw, "itunes:duration"),
                index: 0,
                downloaded,
            },
        )
    }

    /// A field-for-field copy.
    pub fn duplicate(&self) -> (e: Episode)
        ensures
            e@ == self@,
    {
        Episode {
            title: self.title.clone(),
            guid: self.guid.clone(),
            url: self.url.clone(),
            published: self.published,
            author: clone_opt(&self.author),
            image: clone_opt(&self.image),
            description: clone_opt(&self.description),
            itunes_episode: clone_opt(&self.itunes_episode),
            itunes_duration: clone_opt(&self.itunes_duration),
            index: self.index,
            downloaded: self.downloaded,
        }
    }
}

fn clone_opt(s: &Option<String>) -> (r: Option<String>)
    ensures
        opt_view(r) == opt_view(*s),
{
    match s {
        Some(x) => Some(x.clone()),
        None => None,
    }
}

/// The episodes a feed's items denote, in feed order: malformed items
/// dropped, the rest as `spec_episode` reads them.
pub open spec fn spec_episodes_of(items: Seq<Tree>, dl: Seq<Seq<char>>) -> Seq<EpisodeView> {
    items.filter_map(|t: Tree| spec_episode(t, dl))
}

/// An episode with its ordering position erased.
pub open spec fn strip_index(v: EpisodeView) -> EpisodeView {
    EpisodeView { index: 0, ..v }
}

/// Publish time never decreases along the sequence.
pub open spec fn sorted_by_published(vs: Seq<EpisodeView>) -> bool {
    forall|i: int, j: int| 0 <= i < j < vs.len() ==> vs[i].published <= vs[j].published
}

/// Every episode's index is its position.
pub open spec fn indexes_assigned(vs: Seq<EpisodeView>) -> bool {
    forall|i: int| 0 <= i < vs.len() ==> vs[i].index == i
}

/// Builds the episode list of a feed: one episode per well-formed item,
/// sorted ascending by publish time, indexes assigned in that order.
pub fn build_episodes(items: &Vec<Node>, dl: &Vec<String>) -> (r: Vec<Episode>)
    ensures
        sorted_by_published(ep_views(r@)),
        indexes_assigned(ep_views(r@)),
        ep_views(r@).map_values(|v: EpisodeView| strip_index(v)).to_multiset()
            == spec_episodes_of(crate::value::views_of_list(items@), str_views(dl@)).to_multiset(),
{
    let ghost trees = crate::value::views_of_list(items@);
    let ghost dlv = str_views(dl@);
    proof {
        crate::value::lemma_views_of_list(items@);
    }
    let n = items.len();
    let mut collected: Vec<Episode> = Vec::new();
    for i in 0..n
        invariant
            n == items@.len(),
            trees == crate::value::views_of_list(items@),
            trees.len() == n,
            forall|k: int| 0 <= k < n ==> trees[k] == items@[k]@,
            dlv == str_views(dl@),
            ep_views(collected@) == spec_episodes_of(trees.take(i as int), dlv),
            forall|k: int| 0 <= k < collected@.len() ==> (#[trigger] collected@[k])@.index == 0,
    {
        let ghost before = ep_views(collected@);
        match Episode::new(&items[i], dl) {
            Some(e) => {
                collected.push(e);
            },
            None => {},
        }
        proof {
            assert(trees.take(i + 1).drop_last() =~= trees.take(i as int));
            assert(trees.take(i + 1).last() == trees[i as int]);
            assert(ep_views(collected@) =~= spec_episodes_of(trees.take(i + 1), dlv));
        }
    }
    proof {
        assert(trees.take(n as int) =~= trees);
    }
    let ghost unsorted = ep_views(collected@);
    proof {
        assert(forall|k: int|
            0 <= k < unsorted.len() ==> (#[trigger] unsorted[k]).index == 0);
    }
    let sorted = sort_by_published(collected);
    proof {
        lemma_zero_index_carries(unsorted, ep_views(sorted@));
    }
    let ghost sorted_views = ep_views(sorted@);
    let indexed = assign_indexes(sorted);
    proof {
        assert(ep_views(indexed@).map_values(|v: EpisodeView| strip_index(v)) =~= sorted_views
            .map_values(|v: EpisodeView| strip_index(v)));
        lemma_strip_multiset(sorted_views);
    }
    indexed
}

/// A rearrangement of episodes whose indexes are all zero has all-zero
/// indexes too.
proof fn lemma_zero_index_carries(a: Seq<EpisodeView>, b: Seq<EpisodeView>)
    requires
        a.to_multiset() == b.to_multiset(),
        forall|i: int| 0 <= i < a.len() ==> (#[trigger] a[i]).index == 0,
    ensures
        forall|i: int| 0 <= i < b.len() ==> (#[trigger] b[i]).index == 0,
{
    assert forall|i: int| 0 <= i < b.len() implies (#[trigger] b[i]).index == 0 by {
        assert(b.contains(b[i]));
        assert(b.to_multiset().contains(b[i]));
        assert(a.to_multiset().contains(b[i]));
        assert(a.contains(b[i]));
        let j = choose|j: int| 0 <= j < a.len() && a[j] == b[i];
        assert(a[j].index == 0);
    }
}

/// Erasing indexes that are all zero changes nothing, element for element.
proof fn lemma_strip_multiset(vs: Seq<EpisodeView>)
    requires
        forall|i: int| 0 <= i < vs.len() ==> vs[i].index == 0,
    ensures
        vs.map_values(|v: EpisodeView| strip_index(v)).to_multiset() == vs.to_multiset(),
{
    assert(vs.map_values(|v: EpisodeView| strip_index(v)) =~= vs);
}

/// Sorts episodes ascending by publish time; the multiset of episodes is
/// unchanged.
fn sort_by_published(input: Vec<Episode>) -> (r: Vec<Episode>)
    ensures
        sorted_by_published(ep_views(r@)),
        ep_views(r@).to_multiset() == ep_views(input@).to_multiset(),
{
    let ghost orig = ep_views(input@);
    let mut rest = input;
    let mut out: Vec<Episode> = Vec::new();
    while rest.len() > 0
        invariant
            ep_views(out@).to_multiset().add(ep_views(rest@).to_multiset()) == orig.to_multiset(),
            sorted_by_published(ep_views(out@)),
            forall|a: int, b: int|
                0 <= a < out@.len() && 0 <= b < rest@.len() ==> (#[trigger] out@[a])@.published
                    <= (#[trigger] rest@[b])@.published,
        decreases rest.len(),
    {
        let m = rest.len();
        let mut min_at: usize = 0;
        for i in 1..m
            invariant
                m == rest@.len(),
                min_at < i <= m,
                forall|j: int|
                    0 <= j < i ==> rest@[min_at as int]@.published <= (#[trigger] rest@[j])@.published,
        {
            if rest[i].published < rest[min_at].published {
                min_at = i;
            }
        }
        let ghost out_before = ep_views(out@);
        let ghost rest_before = ep_views(rest@);
        let picked = rest.remove(min_at);
        out.push(picked);
        proof {
            assert(ep_views(out@) =~= out_before.push(picked@));
            assert(ep_views(rest@) =~= rest_before.remove(min_at as int));
            assert(rest_before[min_at as int] == picked@);
            assert(ep_views(out@).to_multiset().add(ep_views(rest@).to_multiset())
                =~= orig.to_multiset());
            assert forall|a: int, b: int|
                0 <= a < out@.len() && 0 <= b < rest@.len() implies (#[trigger] out@[a])@.published
                <= (#[trigger] rest@[b])@.published by {
                if b < min_at {
                    assert(rest@[b]@ == rest_before[b]);
                } else {
                    assert(rest@[b]@ == rest_before[b + 1]);
                }
            }
        }
    }
    out
}

/// Gives every episode its position as index, leaving the rest untouched.
fn assign_indexes(input: Vec<Episode>) -> (r: Vec<Episode>)
    ensures
        r@.len() == input@.len(),
        indexes_assigned(ep_views(r@)),
        forall|i: int|
            0 <= i < r@.len() ==> strip_index(#[trigger] ep_views(r@)[i]) == strip_index(
                ep_views(input@)[i],
            ),
    {
    let ghost orig = ep_views(input@);
    let mut rest = input;
    let mut out: Vec<Episode> = Vec::new();
    let n = rest.len();
    let mut i: usize = 0;
    while i < n
        invariant
            n == orig.len(),
            i == n - rest.len(),
            i <= n,
            forall|k: int| 0 <= k < rest@.len() ==> (#[trigger] rest@[k])@ == orig[i + k],
            out@.len() == i,
            forall|j: int| 0 <= j < i ==> (#[trigger] out@[j])@.index == j,
            forall|j: int|
                0 <= j < i ==> strip_index((#[trigger] out@[j])@) == strip_index(orig[j]),
        decreases n - i,
    {
        let mut e = rest.remove(0);
        e.index = i;
        out.push(e);
        i = i + 1;
    }
    proof {
        assert(forall|j: int|
            0 <= j < out@.len() ==> #[trigger] ep_views(out@)[j] == out@[j]@);
        assert(forall|j: int|
            0 <= j < input@.len() ==> #[trigger] ep_views(input@)[j] == input@[j]@);
    }
    out
}

/// Indexes assigned in sorted order are exactly the contiguous range up to
/// the length, and strictly increase while the publish time never decreases:
/// an episode published later never carries a smaller index.
pub proof fn lemma_index_order(vs: Seq<EpisodeView>)
    requires
        sorted_by_published(vs),
        indexes_assigned(vs),
    ensures
        forall|i: int, j: int|
            0 <= i < j < vs.len() ==> vs[i].index < vs[j].index && vs[i].published
                <= vs[j].published,
        forall|k: int| 0 <= k < vs.len() ==> #[trigger] has_index(vs, k),
{
    assert forall|k: int| 0 <= k < vs.len() implies #[trigger] has_index(vs, k) by {
        assert(vs[k].index == k);
    }
}

/// Some episode carries `k` as its index.
pub open spec fn has_index(vs: Seq<EpisodeView>, k: int) -> bool {
    exists|i: int| 0 <= i < vs.len() && (#[trigger] vs[i]).index == k
}

} // verus!
