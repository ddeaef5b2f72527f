//! One podcast per sync run: the decoded channel attributes, the ordered
//! episode list, and the download policy that selects and orders the
//! episodes still to fetch.
use crate::decode::decode;
use crate::decode::spec_decode;
use crate::episode::build_episodes;
use crate::episode::ep_views;
use crate::episode::indexes_assigned;
use crate::episode::sorted_by_published;
use crate::episode::spec_episodes_of;
use crate::episode::str_views;
use crate::episode::strip_index;
use crate::episode::text_of_key;
use crate::episode::url_of_key;
use crate::episode::Episode;
use crate::episode::EpisodeView;
use crate::value::text_of;
use crate::value::tree_get;
use crate::value::Node;
use crate::value::Tree;
use vstd::prelude::*;

verus! {

/// The decoded channel attributes of one feed.
pub struct RawPodcast(pub Node);

impl RawPodcast {
    /// Wraps a decoded channel tree.
    pub fn new(raw: Node) -> (r: RawPodcast)
        ensures
            r.0@ == raw@,
    {
        RawPodcast(raw)
    }
}

/// How episodes become due: staying current takes the most recent `limit`
/// not-yet-downloaded episodes, newest first; catching up takes every
/// not-yet-downloaded episode published at or after `cutoff`, oldest first.
pub enum DownloadMode {
    Standard { limit: usize },
    Backlog { cutoff: u64 },
}

/// Why a feed yields no podcast.
#[derive(Debug, PartialEq, Eq)]
pub enum FeedError {
    /// The document had no `rss`/`channel` path or no item list.
    Parse,
}

impl FeedError {
    /// A line for the display surface.
    pub fn message(&self) -> (r: String)
        ensures
            r@ == "failed to parse xml"@,
    {
        String::from_str("failed to parse xml")
    }
}

/// One podcast of a sync run.
pub struct Podcast {
    pub name: String,
    pub raw: RawPodcast,
    pub episodes: Vec<Episode>,
    pub mode: DownloadMode,
}

/// The episodes not yet downloaded, in feed order.
pub open spec fn undownloaded(vs: Seq<EpisodeView>) -> Seq<EpisodeView> {
    vs.filter(|e: EpisodeView| !e.downloaded)
}

/// The episodes published at or after `cutoff`, in feed order.
pub open spec fn at_or_after(vs: Seq<EpisodeView>, cutoff: int) -> Seq<EpisodeView> {
    vs.filter(|e: EpisodeView| e.published >= cutoff)
}

/// The eligible episodes of a feed, in download order: both modes skip
/// episodes already marked downloaded; staying current takes the `limit`
/// most recent and reverses them, catching up keeps oldest-first order
/// from the cutoff on.
pub open spec fn spec_pending(vs: Seq<EpisodeView>, mode: DownloadMode) -> Seq<EpisodeView> {
    let undl = undownloaded(vs);
    match mode {
        DownloadMode::Standard { limit } => {
            let k = if undl.len() <= limit {
                undl.len() as int
            } else {
                limit as int
            };
            undl.skip(undl.len() - k).reverse()
        },
        DownloadMode::Backlog { cutoff } => at_or_after(undl, cutoff as int),
    }
}

impl Podcast {
    /// Builds a podcast from a fetched feed text: decodes it, drops
    /// malformed items, sorts the episodes by publish time and assigns
    /// their indexes. A feed that does not decode is a parse error; the
    /// caller fetches the text and reports the error to its own surface.
    pub fn new(name: String, xml: &str, mode: DownloadMode, dl: &Vec<String>) -> (r: Result<
        Podcast,
        FeedError,
    >)
        ensures
            match r {
                Ok(p) => {
                    &&& spec_decode(xml@) matches Some(d)
                    &&& p.name@ == name@
                    &&& p.raw.0@ == d.0
                    &&& p.mode == mode
                    &&& sorted_by_published(ep_views(p.episodes@))
                    &&& indexes_assigned(ep_views(p.episodes@))
                    &&& ep_views(p.episodes@).map_values(|v: EpisodeView| strip_index(v))
                        .to_multiset() == spec_episodes_of(d.1, str_views(dl@)).to_multiset()
                },
                Err(e) => spec_decode(xml@) is None && e == FeedError::Parse,
            },
    {
        let (channel, items) = match decode(xml) {
            Some(d) => d,
            None => {
                return Err(FeedError::Parse);
            },
        };
        let episodes = build_episodes(&items, dl);
        Ok(Podcast { name, raw: RawPodcast(channel), episodes, mode })
    }

    /// The configured display name.
    pub fn name<'a>(&'a self) -> (r: &'a String)
        ensures
            r@ == self.name@,
    {
        &self.name
    }

    /// Text of a channel attribute, tolerating both content encodings.
    pub fn get_text_attribute<'a>(&'a self, key: &str) -> (r: Option<&'a String>)
        ensures
            match r {
                Some(s) => text_of_key(self.raw.0@, key@) == Some(s@),
                None => text_of_key(self.raw.0@, key@) is None,
            },
    {
        match self.raw.0.get(key) {
            Some(v) => v.as_text(),
            None => None,
        }
    }

    /// The channel title, on a feed that carries one.
    pub fn title<'a>(&'a self) -> (r: &'a String)
        requires
            text_of_key(self.raw.0@, "title"@) is Some,
        ensures
            text_of_key(self.raw.0@, "title"@) == Some(r@),
    {
        match self.get_text_attribute("title") {
            Some(s) => s,
            None => unreached(),
        }
    }

    /// The channel author.
    pub fn author<'a>(&'a self) -> (r: Option<&'a String>)
        ensures
            match r {
                Some(s) => text_of_key(self.raw.0@, "itunes:author"@) == Some(s@),
                None => text_of_key(self.raw.0@, "itunes:author"@) is None,
            },
    {
        self.get_text_attribute("itunes:author")
    }

    /// The channel copyright line.
    pub fn copyright<'a>(&'a self) -> (r: Option<&'a String>)
        ensures
            match r {
                Some(s) => text_of_key(self.raw.0@, "copyright"@) == Some(s@),
                None => text_of_key(self.raw.0@, "copyright"@) is None,
            },
    {
        self.get_text_attribute("copyright")
    }

    /// The channel language.
    pub fn language<'a>(&'a self) -> (r: Option<&'a String>)
        ensures
            match r {
                Some(s) => text_of_key(self.raw.0@, "language"@) == Some(s@),
                None => text_of_key(self.raw.0@, "language"@) is None,
            },
    {
        self.get_text_attribute("language")
    }

    /// The channel artwork URL.
    pub fn image<'a>(&'a self) -> (r: Option<&'a String>)
        ensures
            match r {
                Some(s) => url_of_key(self.raw.0@, "image"@) == Some(s@),
                None => url_of_key(self.raw.0@, "image"@) is None,
            },
    {
        match self.raw.0.get("image") {
            Some(v) => v.as_url(),
            None => None,
        }
    }

    /// The channel categories: the text entries of the `itunes:category`
    /// list, in order; empty when the channel has no such list.
    pub fn categories(&self) -> (r: Vec<String>)
        ensures
            str_views(r@) == spec_categories(self.raw.0@),
    {
        let items = match self.raw.0.get("itunes:category") {
            Some(Node::List(items)) => items,
            _ => {
                proof {
                    assert(str_views(Seq::<String>::empty()) =~= spec_categories(self.raw.0@));
                }
                return Vec::new();
            },
        };
        let ghost trees = crate::value::views_of_list(items@);
        proof {
            crate::value::lemma_views_of_list(items@);
        }
        let n = items.len();
        let mut out: Vec<String> = Vec::new();
        for i in 0..n
            invariant
                n == items@.len(),
                trees == crate::value::views_of_list(items@),
                trees.len() == n,
                forall|k: int| 0 <= k < n ==> trees[k] == items@[k]@,
                str_views(out@) == trees.take(i as int).filter_map(|t: Tree| text_of(t)),
        {
            let ghost before = str_views(out@);
            match items[i].as_text() {
                Some(s) => {
                    out.push(s.clone());
                },
                None => {},
            }
            proof {
                assert(trees.take(i + 1).drop_last() =~= trees.take(i as int));
                assert(trees.take(i + 1).last() == trees[i as int]);
                assert(str_views(out@) =~= trees.take(i + 1).filter_map(|t: Tree| text_of(t)));
            }
        }
        proof {
            assert(trees.take(n as int) =~= trees);
        }
        out
    }

    /// The eligible episodes, in the order the mode reads them: newest
    /// first when staying current, oldest first when catching up.
    pub fn pending_episodes(&self) -> (r: Vec<Episode>)
        ensures
            ep_views(r@) == spec_pending(ep_views(self.episodes@), self.mode),
    {
        let ghost all = ep_views(self.episodes@);
        let n = self.episodes.len();
        let mut undl: Vec<Episode> = Vec::new();
        for i in 0..n
            invariant
                n == self.episodes@.len(),
                all == ep_views(self.episodes@),
                all.len() == n,
                forall|k: int| 0 <= k < n ==> all[k] == self.episodes@[k]@,
                ep_views(undl@) == undownloaded(all.take(i as int)),
        {
            if !self.episodes[i].downloaded {
                undl.push(self.episodes[i].duplicate());
            }
            proof {
                reveal(Seq::filter);
                assert(all.take(i + 1).drop_last() =~= all.take(i as int));
                assert(all.take(i + 1).last() == all[i as int]);
                assert(ep_views(undl@) =~= undownloaded(all.take(i + 1)));
            }
        }
        proof {
            assert(all.take(n as int) =~= all);
        }
        let ghost und = undownloaded(all);
        let m = undl.len();
        match &self.mode {
            DownloadMode::Standard { limit } => {
                let k = if m <= *limit {
                    m
                } else {
                    *limit
                };
                let mut out: Vec<Episode> = Vec::new();
                let mut j: usize = 0;
                while j < k
                    invariant
                        k <= m == undl@.len(),
                        und == ep_views(undl@),
                        j <= k,
                        out@.len() == j,
                        forall|a: int| 0 <= a < j ==> (#[trigger] out@[a])@ == und[m - 1 - a],
                    decreases k - j,
                {
                    out.push(undl[m - 1 - j].duplicate());
                    j = j + 1;
                }
                proof {
                    assert(ep_views(out@) =~= und.skip(und.len() - k as int).reverse());
                }
                out
            },
            DownloadMode::Backlog { cutoff } => {
                let cut = *cutoff;
                let mut out: Vec<Episode> = Vec::new();
                let mut j: usize = 0;
                while j < m
                    invariant
                        m == undl@.len(),
                        und == ep_views(undl@),
                        und.len() == m,
                        forall|a: int| 0 <= a < m ==> und[a] == undl@[a]@,
                        j <= m,
                        self.mode == (DownloadMode::Backlog { cutoff: cut }),
                        ep_views(out@) == at_or_after(und.take(j as int), cut as int),
                    decreases m - j,
                {
                    if undl[j].published >= cut {
                        out.push(undl[j].duplicate());
                    }
                    proof {
                        reveal(Seq::filter);
                        assert(und.take(j + 1).drop_last() =~= und.take(j as int));
                        assert(und.take(j + 1).last() == und[j as int]);
                        assert(ep_views(out@) =~= at_or_after(und.take(j + 1), cut as int));
                    }
                    j = j + 1;
                }
                proof {
                    assert(und.take(m as int) =~= und);
                }
                out
            },
        }
    }
}

/// The channel's category texts.
pub open spec fn spec_categories(t: Tree) -> Seq<Seq<char>> {
    match tree_get(t, "itunes:category"@) {
        Some(Tree::List(items)) => items.filter_map(|it: Tree| text_of(it)),
        _ => Seq::empty(),
    }
}

/// The longest configured podcast name, in characters; nothing when no
/// podcast is configured. Used to align the progress lines.
pub fn longest_podcast_name_len(pods: &Vec<Podcast>) -> (r: Option<usize>)
    ensures
        (r is Some) == (pods@.len() > 0),
        r matches Some(m) ==> (exists|i: int|
            0 <= i < pods@.len() && (#[trigger] pods@[i].name@).len() == m) && (forall|i: int|
            0 <= i < pods@.len() ==> (#[trigger] pods@[i].name@).len() <= m),
{
    if pods.len() == 0 {
        return None;
    }
    let n = pods.len();
    let mut best: usize = pods[0].name.as_str().unicode_len();
    proof {
        assert(pods@[0].name@.len() == best);
    }
    for i in 1..n
        invariant
            n == pods@.len(),
            exists|j: int| 0 <= j < i && (#[trigger] pods@[j].name@).len() == best,
            forall|j: int| 0 <= j < i ==> (#[trigger] pods@[j].name@).len() <= best,
    {
        let len = pods[i].name.as_str().unicode_len();
        if len > best {
            best = len;
        }
    }
    Some(best)
}

/// Every element of a filtered sequence is an element of the unfiltered one.
proof fn lemma_filter_members(vs: Seq<EpisodeView>, pred: spec_fn(EpisodeView) -> bool)
    ensures
        forall|k: int|
            0 <= k < vs.filter(pred).len() ==> vs.contains(#[trigger] vs.filter(pred)[k]),
    decreases vs.len(),
{
    reveal(Seq::filter);
    if vs.len() > 0 {
        let prefix = vs.drop_last();
        lemma_filter_members(prefix, pred);
        assert forall|k: int|
            0 <= k < vs.filter(pred).len() implies vs.contains(#[trigger] vs.filter(pred)[k]) by {
            if k < prefix.filter(pred).len() {
                assert(prefix.contains(prefix.filter(pred)[k]));
                let j = choose|j: int|
                    0 <= j < prefix.len() && prefix[j] == prefix.filter(pred)[k];
                assert(vs[j] == vs.filter(pred)[k]);
            } else {
                assert(vs.filter(pred)[k] == vs.last());
            }
        }
    }
}

/// Filtering keeps the publish-time order.
proof fn lemma_filter_sorted(vs: Seq<EpisodeView>, pred: spec_fn(EpisodeView) -> bool)
    requires
        sorted_by_published(vs),
    ensures
        sorted_by_published(vs.filter(pred)),
    decreases vs.len(),
{
    reveal(Seq::filter);
    if vs.len() > 0 {
        let prefix = vs.drop_last();
        assert(sorted_by_published(prefix));
        lemma_filter_sorted(prefix, pred);
        lemma_filter_members(prefix, pred);
        let f = vs.filter(pred);
        assert forall|i: int, j: int|
            0 <= i < j < f.len() implies f[i].published <= f[j].published by {
            if j < prefix.filter(pred).len() {
                assert(prefix.filter(pred)[i] == f[i]);
                assert(prefix.filter(pred)[j] == f[j]);
            } else {
                assert(f[j] == vs.last());
                assert(prefix.contains(prefix.filter(pred)[i]));
                let p = choose|p: int|
                    0 <= p < prefix.len() && prefix[p] == prefix.filter(pred)[i];
                assert(vs[p] == f[i]);
                assert(vs[p].published <= vs[vs.len() - 1].published);
            }
        }
    }
}

/// Staying current on a feed with at least `limit` undownloaded episodes:
/// the policy yields exactly `limit` of them, newest first by publish time.
pub proof fn lemma_standard_policy(vs: Seq<EpisodeView>, limit: usize)
    requires
        sorted_by_published(vs),
        undownloaded(vs).len() >= limit,
    ensures
        spec_pending(vs, DownloadMode::Standard { limit }).len() == limit,
        forall|i: int, j: int|
            0 <= i < j < limit ==> (#[trigger] spec_pending(
                vs,
                DownloadMode::Standard { limit },
            )[i]).published >= (#[trigger] spec_pending(vs, DownloadMode::Standard { limit })[j])
                .published,
        forall|i: int|
            0 <= i < limit ==> !(#[trigger] spec_pending(
                vs,
                DownloadMode::Standard { limit },
            )[i]).downloaded,
{
    let und = undownloaded(vs);
    lemma_filter_sorted(vs, |e: EpisodeView| !e.downloaded);
    broadcast use vstd::seq_lib::group_filter_ensures;

    let r = spec_pending(vs, DownloadMode::Standard { limit });
    assert(r.len() == limit);
    assert forall|i: int, j: int|
        0 <= i < j < limit implies (#[trigger] r[i]).published >= (#[trigger] r[j]).published by {
        assert(r[i] == und[und.len() - 1 - i]);
        assert(r[j] == und[und.len() - 1 - j]);
    }
    assert forall|i: int| 0 <= i < limit implies !(#[trigger] r[i]).downloaded by {
        assert(r[i] == und[und.len() - 1 - i]);
    }
}

/// Catching up from a cutoff: the policy yields exactly the undownloaded
/// episodes published at or after it, oldest first by publish time.
pub proof fn lemma_backlog_policy(vs: Seq<EpisodeView>, cutoff: u64)
    requires
        sorted_by_published(vs),
    ensures
        sorted_by_published(spec_pending(vs, DownloadMode::Backlog { cutoff })),
        forall|k: int|
            0 <= k < spec_pending(vs, DownloadMode::Backlog { cutoff }).len() ==> {
                let e = #[trigger] spec_pending(vs, DownloadMode::Backlog { cutoff })[k];
                !e.downloaded && e.published >= cutoff && vs.contains(e)
            },
        forall|i: int|
            0 <= i < vs.len() && !(#[trigger] vs[i]).downloaded && vs[i].published >= cutoff
                ==> spec_pending(vs, DownloadMode::Backlog { cutoff }).contains(vs[i]),
{
    let und = undownloaded(vs);
    let r = spec_pending(vs, DownloadMode::Backlog { cutoff });
    broadcast use vstd::seq_lib::group_filter_ensures;

    lemma_filter_sorted(vs, |e: EpisodeView| !e.downloaded);
    lemma_filter_sorted(und, |e: EpisodeView| e.published >= cutoff as int);
    lemma_filter_members(vs, |e: EpisodeView| !e.downloaded);
    lemma_filter_members(und, |e: EpisodeView| e.published >= cutoff as int);
    assert forall|k: int| 0 <= k < r.len() implies {
        let e = #[trigger] r[k];
        !e.downloaded && e.published >= cutoff && vs.contains(e)
    } by {
        let e = r[k];
        assert(und.contains(e));
        let p = choose|p: int| 0 <= p < und.len() && und[p] == e;
        assert(vs.contains(und[p]));
    }
    assert forall|i: int|
        0 <= i < vs.len() && !(#[trigger] vs[i]).downloaded && vs[i].published >= cutoff implies r
        .contains(vs[i]) by {
        assert(und.contains(vs[i]));
        let p = choose|p: int| 0 <= p < und.len() && und[p] == vs[i];
        assert(r.contains(und[p]));
    }
}

} // verus!
