//! Metadata enrichment: the tag set to attach to a downloaded audio file,
//! derived from podcast- and episode-level attributes. A tag already present
//! on the file is never overwritten; a source value that is absent or
//! unparsable is skipped, never an error.
use crate::episode::text_of_key;
use crate::episode::Episode;
use crate::episode::EpisodeView;
use crate::numstr::spec_digits;
use crate::numstr::spec_parse_u32;
use crate::numstr::parse_u32;
use crate::numstr::u64_to_string;
use crate::podcast::spec_categories;
use crate::podcast::Podcast;
use crate::value::Tree;
use vstd::prelude::*;

verus! {

/// The last unix second of the ninety-ninth century, the largest timestamp
/// the calendar tags are written for.
pub const MAX_TAG_UNIX: u64 = 253402300799;

/// Calendar year of a unix timestamp.
pub uninterp spec fn year_of(secs: u64) -> int;

/// Relies on chrono::DateTime::from_timestamp and Datelike::year: the
/// calendar year of a unix timestamp is a function of the timestamp alone,
/// and lies between 1970 and 9999 for timestamps up to `MAX_TAG_UNIX`.
#[verifier::external_body]
pub fn year_of_unix(secs: u64) -> (y: u64)
    requires
        secs <= MAX_TAG_UNIX,
    ensures
        y == year_of(secs),
        1970 <= y <= 9999,
{
    match chrono::DateTime::<chrono::Utc>::from_timestamp(secs as i64, 0) {
        Some(dt) => chrono::Datelike::year(&dt) as u64,
        None => 1970,
    }
}

/// Calendar form of a unix timestamp, year first.
pub uninterp spec fn datestamp_of(secs: u64) -> Seq<char>;

/// Relies on chrono's DateTime formatting: the calendar spelling of a unix
/// timestamp is a function of the timestamp alone.
#[verifier::external_body]
pub fn datestamp_of_unix(secs: u64) -> (r: String)
    requires
        secs <= MAX_TAG_UNIX,
    ensures
        r@ == datestamp_of(secs),
{
    match chrono::DateTime::<chrono::Utc>::from_timestamp(secs as i64, 0) {
        Some(dt) => dt.format("%Y-%m-%dT%H:%M:%S").to_string(),
        None => String::new(),
    }
}

/// Views of owned tag pairs, in order.
pub open spec fn tag_views(s: Seq<(String, String)>) -> Seq<(Seq<char>, Seq<char>)> {
    s.map_values(|p: (String, String)| (p.0@, p.1@))
}

/// First value bound to `key` in a tag list.
pub open spec fn tag_lookup(tags: Seq<(Seq<char>, Seq<char>)>, key: Seq<char>) -> Option<
    Seq<char>,
>
    decreases tags.len(),
{
    if tags.len() == 0 {
        None
    } else if tags[0].0 == key {
        Some(tags[0].1)
    } else {
        tag_lookup(tags.skip(1), key)
    }
}

proof fn lemma_tag_lookup_skip(tags: Seq<(Seq<char>, Seq<char>)>, key: Seq<char>, i: int)
    requires
        0 <= i <= tags.len(),
        forall|j: int| 0 <= j < i ==> tags[j].0 != key,
    ensures
        tag_lookup(tags, key) == tag_lookup(tags.skip(i), key),
    decreases i,
{
    if i > 0 {
        lemma_tag_lookup_skip(tags.skip(1), key, i - 1);
        assert(tags.skip(1).skip(i - 1) =~= tags.skip(i));
    } else {
        assert(tags.skip(0) =~= tags);
    }
}

/// The first binding of `key` sits at `i`: looking `key` up yields it.
proof fn lemma_tag_lookup_at(tags: Seq<(Seq<char>, Seq<char>)>, key: Seq<char>, i: int)
    requires
        0 <= i < tags.len(),
        tags[i].0 == key,
        forall|j: int| 0 <= j < i ==> tags[j].0 != key,
    ensures
        tag_lookup(tags, key) == Some(tags[i].1),
{
    lemma_tag_lookup_skip(tags, key, i);
    assert(tags.skip(i)[0] == tags[i]);
}

/// No entry binds `key`: looking it up yields nothing.
proof fn lemma_tag_lookup_none(tags: Seq<(Seq<char>, Seq<char>)>, key: Seq<char>)
    requires
        forall|j: int| 0 <= j < tags.len() ==> tags[j].0 != key,
    ensures
        tag_lookup(tags, key) is None,
{
    lemma_tag_lookup_skip(tags, key, tags.len() as int);
    assert(tags.skip(tags.len() as int).len() == 0);
}

/// Position of the first entry bound to `key`, or the length when none is.
fn find_tag(tags: &Vec<(String, String)>, key: &str) -> (r: usize)
    ensures
        r <= tags@.len(),
        r < tags@.len() ==> tags@[r as int].0@ == key@,
        forall|j: int| 0 <= j < r ==> tags@[j].0@ != key@,
{
    let n = tags.len();
    for i in 0..n
        invariant
            n == tags@.len(),
            forall|j: int| 0 <= j < i ==> tags@[j].0@ != key@,
    {
        if crate::value::string_eq_str(&tags[i].0, key) {
            return i;
        }
    }
    n
}

/// A tag list with `key` bound to `value`: the first binding replaced in
/// place, or the pair appended when none was there.
pub open spec fn set_tag(
    tags: Seq<(Seq<char>, Seq<char>)>,
    key: Seq<char>,
    value: Seq<char>,
) -> Seq<(Seq<char>, Seq<char>)>
    decreases tags.len(),
{
    if tags.len() == 0 {
        seq![(key, value)]
    } else if tags[0].0 == key {
        seq![(key, value)] + tags.skip(1)
    } else {
        seq![tags[0]] + set_tag(tags.skip(1), key, value)
    }
}

proof fn lemma_set_tag_at(tags: Seq<(Seq<char>, Seq<char>)>, key: Seq<char>, value: Seq<char>, i: int)
    requires
        0 <= i < tags.len(),
        tags[i].0 == key,
        forall|j: int| 0 <= j < i ==> tags[j].0 != key,
    ensures
        set_tag(tags, key, value) == tags.update(i, (key, value)),
    decreases i,
{
    if i == 0 {
        assert(set_tag(tags, key, value) =~= tags.update(0, (key, value)));
    } else {
        lemma_set_tag_at(tags.skip(1), key, value, i - 1);
        assert(tags.skip(1)[i - 1] == tags[i]);
        assert(set_tag(tags, key, value) =~= tags.update(i, (key, value)));
    }
}

proof fn lemma_set_tag_absent(tags: Seq<(Seq<char>, Seq<char>)>, key: Seq<char>, value: Seq<char>)
    requires
        forall|j: int| 0 <= j < tags.len() ==> tags[j].0 != key,
    ensures
        set_tag(tags, key, value) == tags.push((key, value)),
    decreases tags.len(),
{
    if tags.len() == 0 {
        assert(set_tag(tags, key, value) =~= tags.push((key, value)));
    } else {
        lemma_set_tag_absent(tags.skip(1), key, value);
        assert(set_tag(tags, key, value) =~= tags.push((key, value)));
    }
}

/// Every pair of `custom` written over the tags, first to last; a custom
/// tag does overwrite, as the caller chose its value deliberately.
pub open spec fn custom_applied(
    tags: Seq<(Seq<char>, Seq<char>)>,
    custom: Seq<(Seq<char>, Seq<char>)>,
) -> Seq<(Seq<char>, Seq<char>)>
    decreases custom.len(),
{
    if custom.len() == 0 {
        tags
    } else {
        custom_applied(set_tag(tags, custom[0].0, custom[0].1), custom.skip(1))
    }
}

/// Every candidate whose key is still free appended, first to last; a key
/// already bound keeps its value.
pub open spec fn apply_missing(
    tags: Seq<(Seq<char>, Seq<char>)>,
    cand: Seq<(Seq<char>, Seq<char>)>,
) -> Seq<(Seq<char>, Seq<char>)>
    decreases cand.len(),
{
    if cand.len() == 0 {
        tags
    } else {
        let base = if tag_lookup(tags, cand[0].0) is Some {
            tags
        } else {
            tags.push(cand[0])
        };
        apply_missing(base, cand.skip(1))
    }
}

/// Binds `key` to `value`, replacing an earlier binding.
fn set_tag_exec(tags: Vec<(String, String)>, key: String, value: String) -> (r: Vec<
    (String, String),
>)
    ensures
        tag_views(r@) == set_tag(tag_views(tags@), key@, value@),
{
    let ghost tv = tag_views(tags@);
    let mut out = tags;
    let i = find_tag(&out, key.as_str());
    if i < out.len() {
        proof {
            lemma_set_tag_at(tv, key@, value@, i as int);
        }
        let _ = out.remove(i);
        out.insert(i, (key, value));
        proof {
            assert(tag_views(out@) =~= tv.update(i as int, (key@, value@)));
        }
    } else {
        proof {
            lemma_set_tag_absent(tv, key@, value@);
        }
        out.push((key, value));
        proof {
            assert(tag_views(out@) =~= tv.push((key@, value@)));
        }
    }
    out
}

/// Appends `key`/`value` only when `key` is still free.
fn add_missing_exec(tags: Vec<(String, String)>, key: String, value: String) -> (r: Vec<
    (String, String),
>)
    ensures
        tag_views(r@) == (if tag_lookup(tag_views(tags@), key@) is Some {
            tag_views(tags@)
        } else {
            tag_views(tags@).push((key@, value@))
        }),
{
    let ghost tv = tag_views(tags@);
    let mut out = tags;
    let i = find_tag(&out, key.as_str());
    if i < out.len() {
        proof {
            lemma_tag_lookup_at(tv, key@, i as int);
        }
        out
    } else {
        proof {
            lemma_tag_lookup_none(tv, key@);
        }
        out.push((key, value));
        proof {
            assert(tag_views(out@) =~= tv.push((key@, value@)));
        }
        out
    }
}

/// The parts joined by a slash.
pub open spec fn join_slash(parts: Seq<Seq<char>>) -> Seq<char>
    decreases parts.len(),
{
    if parts.len() == 0 {
        Seq::empty()
    } else if parts.len() == 1 {
        parts[0]
    } else {
        join_slash(parts.drop_last()) + seq!['/'] + parts.last()
    }
}

/// Joins the parts with a slash between neighbours.
pub fn join_slash_exec(parts: &Vec<String>) -> (r: String)
    ensures
        r@ == join_slash(crate::episode::str_views(parts@)),
{
    let ghost pv = crate::episode::str_views(parts@);
    let n = parts.len();
    let mut out = String::new();
    proof {
        reveal_strlit("/");
    }
    for i in 0..n
        invariant
            n == parts@.len(),
            pv == crate::episode::str_views(parts@),
            pv.len() == n,
            forall|k: int| 0 <= k < n ==> pv[k] == parts@[k]@,
            out@ == join_slash(pv.take(i as int)),
            "/"@ == seq!['/'],
    {
        if i > 0 {
            out.append("/");
        }
        out.append(parts[i].as_str());
        proof {
            assert(pv.take(i + 1).drop_last() =~= pv.take(i as int));
            assert(pv.take(i + 1).last() == pv[i as int]);
            if i == 0 {
                assert(out@ =~= join_slash(pv.take(1)));
            }
        }
    }
    proof {
        assert(pv.take(n as int) =~= pv);
    }
    out
}

/// A numeric text rendered in canonical decimal, or nothing.
pub open spec fn numeric_tag_value(s: Option<Seq<char>>, factor: int) -> Option<Seq<char>> {
    match s {
        Some(text) => match spec_parse_u32(text) {
            Some(n) => Some(spec_digits(n * factor)),
            None => None,
        },
        None => None,
    }
}

/// An optional value as a candidate list.
pub open spec fn opt_tag(key: Seq<char>, value: Option<Seq<char>>) -> Seq<(Seq<char>, Seq<char>)> {
    match value {
        Some(v) => seq![(key, v)],
        None => Seq::empty(),
    }
}

/// The first half of the derivation: title, artist, album, genre, track
/// number, year, copyright.
pub open spec fn desired_front(pod: Tree, ep: EpisodeView) -> Seq<(Seq<char>, Seq<char>)> {
    seq![("TIT2"@, ep.title)] + opt_tag("TPE1"@, ep.author) + opt_tag(
        "TALB"@,
        text_of_key(pod, "title"@),
    ) + seq![("TCON"@, "podcast"@)] + opt_tag(
        "TRCK"@,
        numeric_tag_value(ep.itunes_episode, 1),
    ) + opt_tag(
        "TYER"@,
        if ep.published <= MAX_TAG_UNIX {
            Some(spec_digits(year_of(ep.published as u64)))
        } else {
            None
        },
    ) + opt_tag("TCOP"@, text_of_key(pod, "copyright"@))
}

/// The second half: description, category list, release timestamp,
/// language, duration in milliseconds, publisher, per-episode identifier.
pub open spec fn desired_back(pod: Tree, ep: EpisodeView) -> Seq<(Seq<char>, Seq<char>)> {
    opt_tag("TDES"@, ep.description) + seq![("TCAT"@, join_slash(spec_categories(pod)))] + opt_tag(
        "TDRL"@,
        if ep.published <= MAX_TAG_UNIX {
            Some(datestamp_of(ep.published as u64))
        } else {
            None
        },
    ) + opt_tag("TLAN"@, text_of_key(pod, "language"@)) + opt_tag(
        "TLEN"@,
        numeric_tag_value(ep.itunes_duration, 1000),
    ) + opt_tag("TPUB"@, text_of_key(pod, "itunes:author"@)) + seq![("TGID"@, ep.guid)]
}

/// The tag values the feed supplies for one episode, in the order they are
/// tried: title, artist, album, genre, track number, year, copyright,
/// description, category list, release timestamp, language, duration in
/// milliseconds, publisher, and the stable per-episode identifier.
pub open spec fn desired_tags(pod: Tree, ep: EpisodeView) -> Seq<(Seq<char>, Seq<char>)> {
    desired_front(pod, ep) + desired_back(pod, ep)
}

/// Appends a candidate that is always present.
fn push_pair(cand: &mut Vec<(String, String)>, key: &str, value: String)
    ensures
        tag_views(final(cand)@) == tag_views(old(cand)@) + seq![(key@, value@)],
{
    let k = String::from_str(key);
    cand.push((k, value));
    proof {
        assert(tag_views(cand@) =~= tag_views(old(cand)@) + seq![(key@, value@)]);
    }
}

/// Appends a candidate when its source value is present.
fn push_opt(cand: &mut Vec<(String, String)>, key: &str, value: Option<String>)
    ensures
        tag_views(final(cand)@) == tag_views(old(cand)@) + opt_tag(
            key@,
            crate::episode::opt_view(value),
        ),
{
    match value {
        Some(v) => {
            let k = String::from_str(key);
            cand.push((k, v));
            proof {
                assert(tag_views(cand@) =~= tag_views(old(cand)@) + opt_tag(
                    key@,
                    crate::episode::opt_view(value),
                ));
            }
        },
        None => {
            proof {
                assert(tag_views(cand@) =~= tag_views(cand@) + opt_tag(
                    key@,
                    None,
                ));
            }
        },
    }
}

/// A numeric text scaled and rendered in canonical decimal, or nothing.
fn numeric_value(s: &Option<String>, factor: u64) -> (r: Option<String>)
    requires
        1 <= factor <= 1000,
    ensures
        crate::episode::opt_view(r) == numeric_tag_value(
            crate::episode::opt_view(*s),
            factor as int,
        ),
{
    match s {
        Some(text) => match parse_u32(text.as_str()) {
            Some(n) => {
                proof {
                    assert(n * factor <= 0xffff_ffff * 1000) by (nonlinear_arith)
                        requires
                            0 <= n <= 0xffff_ffff,
                            0 <= factor <= 1000,
                    ;
                }
                Some(u64_to_string((n as u64) * factor))
            },
            None => None,
        },
        None => None,
    }
}

/// A copy of an optional attribute.
fn cloned_opt(s: Option<&String>) -> (r: Option<String>)
    ensures
        match (r, s) {
            (Some(a), Some(b)) => a@ == b@,
            (None, None) => true,
            _ => false,
        },
{
    match s {
        Some(x) => Some(x.clone()),
        None => None,
    }
}

/// Builds the front half of the candidates, in order.
#[verifier::rlimit(100)]
fn derived_front_exec(podcast: &Podcast, episode: &Episode) -> (r: Vec<(String, String)>)
    ensures
        tag_views(r@) == desired_front(podcast.raw.0@, episode@),
{
    let ghost pod = podcast.raw.0@;
    let ghost epv = episode@;
    let mut cand: Vec<(String, String)> = Vec::new();
    push_pair(&mut cand, "TIT2", episode.title.clone());
    push_opt(&mut cand, "TPE1", clone_author(episode));
    push_opt(&mut cand, "TALB", cloned_opt(podcast.get_text_attribute("title")));
    push_pair(&mut cand, "TCON", String::from_str("podcast"));
    push_opt(&mut cand, "TRCK", numeric_value(&episode.itunes_episode, 1));
    let year_tag: Option<String> = if episode.published <= MAX_TAG_UNIX {
        Some(u64_to_string(year_of_unix(episode.published)))
    } else {
        None
    };
    push_opt(&mut cand, "TYER", year_tag);
    push_opt(&mut cand, "TCOP", cloned_opt(podcast.get_text_attribute("copyright")));
    proof {
        assert(tag_views(cand@) =~= desired_front(pod, epv));
    }
    cand
}

/// Builds the back half of the candidates, in order.
#[verifier::rlimit(100)]
fn derived_back_exec(podcast: &Podcast, episode: &Episode) -> (r: Vec<(String, String)>)
    ensures
        tag_views(r@) == desired_back(podcast.raw.0@, episode@),
{
    let ghost pod = podcast.raw.0@;
    let ghost epv = episode@;
    let mut cand: Vec<(String, String)> = Vec::new();
    proof {
        assert(tag_views(cand@) =~= Seq::<(Seq<char>, Seq<char>)>::empty());
    }
    push_opt(&mut cand, "TDES", cloned_opt(opt_ref(&episode.description)));
    let cats = podcast.categories();
    push_pair(&mut cand, "TCAT", join_slash_exec(&cats));
    let date_tag: Option<String> = if episode.published <= MAX_TAG_UNIX {
        Some(datestamp_of_unix(episode.published))
    } else {
        None
    };
    push_opt(&mut cand, "TDRL", date_tag);
    push_opt(&mut cand, "TLAN", cloned_opt(podcast.get_text_attribute("language")));
    push_opt(&mut cand, "TLEN", numeric_value(&episode.itunes_duration, 1000));
    push_opt(&mut cand, "TPUB", cloned_opt(podcast.author()));
    push_pair(&mut cand, "TGID", episode.guid.clone());
    proof {
        assert(tag_views(cand@) =~= desired_back(pod, epv));
    }
    cand
}

/// Builds the feed-derived candidates of `desired_tags`, in order.
fn derived_tags_exec(podcast: &Podcast, episode: &Episode) -> (r: Vec<(String, String)>)
    ensures
        tag_views(r@) == desired_tags(podcast.raw.0@, episode@),
{
    let mut cand = derived_front_exec(podcast, episode);
    let mut back = derived_back_exec(podcast, episode);
    let ghost front = tag_views(cand@);
    let ghost rest = tag_views(back@);
    cand.append(&mut back);
    proof {
        assert(tag_views(cand@) =~= front + rest);
    }
    cand
}

/// The author of an episode, copied.
fn clone_author(episode: &Episode) -> (r: Option<String>)
    ensures
        crate::episode::opt_view(r) == episode@.author,
{
    cloned_opt(opt_ref(&episode.author))
}

/// An optional value by reference.
fn opt_ref(s: &Option<String>) -> (r: Option<&String>)
    ensures
        match (r, *s) {
            (Some(a), Some(b)) => a@ == b@,
            (None, None) => true,
            _ => false,
        },
{
    match s {
        Some(x) => Some(x),
        None => None,
    }
}

/// The enriched tag set: the file's existing tags, the caller's custom tags
/// written over them, then every feed-derived value whose key is still free.
pub open spec fn spec_enriched(
    existing: Seq<(Seq<char>, Seq<char>)>,
    custom: Seq<(Seq<char>, Seq<char>)>,
    pod: Tree,
    ep: EpisodeView,
) -> Seq<(Seq<char>, Seq<char>)> {
    apply_missing(custom_applied(existing, custom), desired_tags(pod, ep))
}

/// Computes the tags to write for one downloaded episode, as
/// `spec_enriched` describes them: custom tags overwrite, feed-derived
/// values fill only keys that are free, and a source that is absent or
/// unparsable is skipped.
#[verifier::rlimit(100)]
pub fn set_mp3_tags(
    podcast: &Podcast,
    episode: &Episode,
    custom: Vec<(String, String)>,
    existing: Vec<(String, String)>,
) -> (r: Vec<(String, String)>)
    ensures
        tag_views(r@) == spec_enriched(
            tag_views(existing@),
            tag_views(custom@),
            podcast.raw.0@,
            episode@,
        ),
{
    let ghost pod = podcast.raw.0@;
    let ghost epv = episode@;
    // Custom tags, written over the existing ones.
    let ghost cv = tag_views(custom@);
    let ghost base0 = tag_views(existing@);
    let mut tags = existing;
    let mut rest = custom;
    let cn = rest.len();
    let mut ci: usize = 0;
    proof {
        assert(cv.skip(0) =~= cv);
    }
    while ci < cn
        invariant
            cn == cv.len(),
            ci == cn - rest.len(),
            ci <= cn,
            forall|k: int|
                0 <= k < rest@.len() ==> ((#[trigger] rest@[k]).0@, rest@[k].1@) == cv[ci + k],
            custom_applied(tag_views(tags@), cv.skip(ci as int)) == custom_applied(base0, cv),
        decreases cn - ci,
    {
        let pair = rest.remove(0);
        let ghost before = tag_views(tags@);
        tags = set_tag_exec(tags, pair.0, pair.1);
        proof {
            assert(cv.skip(ci as int)[0] == cv[ci as int]);
            assert(cv.skip(ci as int).skip(1) =~= cv.skip(ci + 1));
        }
        ci = ci + 1;
    }
    proof {
        assert(cv.skip(cn as int).len() == 0);
    }
    // The feed-derived candidates, in order.
    let cand = derived_tags_exec(podcast, episode);
    // Fill the free keys.
    let ghost dv = tag_views(cand@);
    let ghost base = tag_views(tags@);
    let mut crest = cand;
    let dn = crest.len();
    let mut di: usize = 0;
    proof {
        assert(dv.skip(0) =~= dv);
    }
    while di < dn
        invariant
            dn == dv.len(),
            di == dn - crest.len(),
            di <= dn,
            forall|k: int|
                0 <= k < crest@.len() ==> ((#[trigger] crest@[k]).0@, crest@[k].1@) == dv[di + k],
            apply_missing(tag_views(tags@), dv.skip(di as int)) == apply_missing(base, dv),
        decreases dn - di,
    {
        let pair = crest.remove(0);
        proof {
            assert(dv.skip(di as int)[0] == dv[di as int]);
            assert(dv.skip(di as int).skip(1) =~= dv.skip(di + 1));
        }
        tags = add_missing_exec(tags, pair.0, pair.1);
        di = di + 1;
    }
    proof {
        assert(dv.skip(dn as int).len() == 0);
    }
    tags
}

/// Looking a key up after an append: an existing binding wins; the appended
/// pair answers only for its own, previously free key.
proof fn lemma_tag_lookup_push(
    tags: Seq<(Seq<char>, Seq<char>)>,
    e: (Seq<char>, Seq<char>),
    k: Seq<char>,
)
    ensures
        tag_lookup(tags.push(e), k) == (if tag_lookup(tags, k) is Some {
            tag_lookup(tags, k)
        } else if e.0 == k {
            Some(e.1)
        } else {
            None
        }),
    decreases tags.len(),
{
    if tags.len() == 0 {
        assert(tags.push(e)[0] == e);
        assert(tags.push(e).skip(1) =~= Seq::<(Seq<char>, Seq<char>)>::empty());
        assert(tag_lookup(tags.push(e).skip(1), k) is None);
        assert(tag_lookup(tags, k) is None);
    } else {
        assert(tags.push(e)[0] == tags[0]);
        assert(tags.push(e).skip(1) =~= tags.skip(1).push(e));
        lemma_tag_lookup_push(tags.skip(1), e, k);
        assert(tag_lookup(tags.push(e), k) == (if tags[0].0 == k {
            Some(tags[0].1)
        } else {
            tag_lookup(tags.skip(1).push(e), k)
        }));
        assert(tag_lookup(tags, k) == (if tags[0].0 == k {
            Some(tags[0].1)
        } else {
            tag_lookup(tags.skip(1), k)
        }));
    }
}

/// Enrichment never overwrites: a key already bound keeps its value through
/// the fill, whatever the candidates are.
pub proof fn lemma_enrich_never_overwrites(
    tags: Seq<(Seq<char>, Seq<char>)>,
    cand: Seq<(Seq<char>, Seq<char>)>,
    k: Seq<char>,
)
    requires
        tag_lookup(tags, k) is Some,
    ensures
        tag_lookup(apply_missing(tags, cand), k) == tag_lookup(tags, k),
    decreases cand.len(),
{
    if cand.len() > 0 {
        let base = if tag_lookup(tags, cand[0].0) is Some {
            tags
        } else {
            tags.push(cand[0])
        };
        lemma_tag_lookup_push(tags, cand[0], k);
        lemma_enrich_never_overwrites(base, cand.skip(1), k);
    }
}

/// After the fill, every candidate key is bound.
proof fn lemma_fill_binds(tags: Seq<(Seq<char>, Seq<char>)>, cand: Seq<(Seq<char>, Seq<char>)>)
    ensures
        forall|j: int|
            0 <= j < cand.len() ==> tag_lookup(
                apply_missing(tags, cand),
                (#[trigger] cand[j]).0,
            ) is Some,
    decreases cand.len(),
{
    if cand.len() > 0 {
        let base = if tag_lookup(tags, cand[0].0) is Some {
            tags
        } else {
            tags.push(cand[0])
        };
        lemma_tag_lookup_push(tags, cand[0], cand[0].0);
        assert(tag_lookup(base, cand[0].0) is Some);
        lemma_enrich_never_overwrites(base, cand.skip(1), cand[0].0);
        lemma_fill_binds(base, cand.skip(1));
        assert forall|j: int|
            0 <= j < cand.len() implies tag_lookup(
            apply_missing(tags, cand),
            (#[trigger] cand[j]).0,
        ) is Some by {
            if j > 0 {
                assert(cand.skip(1)[j - 1] == cand[j]);
            }
        }
    }
}

/// Filling changes nothing when every candidate key is already bound.
proof fn lemma_fill_noop(tags: Seq<(Seq<char>, Seq<char>)>, cand: Seq<(Seq<char>, Seq<char>)>)
    requires
        forall|j: int|
            0 <= j < cand.len() ==> tag_lookup(tags, (#[trigger] cand[j]).0) is Some,
    ensures
        apply_missing(tags, cand) == tags,
    decreases cand.len(),
{
    if cand.len() > 0 {
        assert(tag_lookup(tags, cand[0].0) is Some);
        assert forall|j: int|
            0 <= j < cand.skip(1).len() implies tag_lookup(
            tags,
            (#[trigger] cand.skip(1)[j]).0,
        ) is Some by {
            assert(cand.skip(1)[j] == cand[j + 1]);
        }
        lemma_fill_noop(tags, cand.skip(1));
    }
}

/// Enrichment is idempotent: filling the free keys a second time with the
/// same candidates changes nothing, so running the fill twice produces
/// exactly the tag set of one run.
pub proof fn lemma_enrich_idempotent(
    tags: Seq<(Seq<char>, Seq<char>)>,
    cand: Seq<(Seq<char>, Seq<char>)>,
)
    ensures
        apply_missing(apply_missing(tags, cand), cand) == apply_missing(tags, cand),
{
    lemma_fill_binds(tags, cand);
    lemma_fill_noop(apply_missing(tags, cand), cand);
}

/// The cover art source: nothing when the file already carries front-cover
/// art; else the episode's artwork, else the podcast's.
pub open spec fn spec_artwork(
    has_cover: bool,
    ep: Option<Seq<char>>,
    pod: Option<Seq<char>>,
) -> Option<Seq<char>> {
    if has_cover {
        None
    } else if ep is Some {
        ep
    } else {
        pod
    }
}

/// Decides which artwork URL to fetch for the front cover, if any: art
/// already on the file is never replaced, and a feed without artwork
/// simply gets none.
pub fn artwork_to_fetch(
    has_cover: bool,
    episode_image: &Option<String>,
    podcast_image: &Option<String>,
) -> (r: Option<String>)
    ensures
        crate::episode::opt_view(r) == spec_artwork(
            has_cover,
            crate::episode::opt_view(*episode_image),
            crate::episode::opt_view(*podcast_image),
        ),
{
    if has_cover {
        return None;
    }
    match episode_image {
        Some(u) => Some(u.clone()),
        None => match podcast_image {
            Some(u) => Some(u.clone()),
            None => None,
        },
    }
}

} // verus!
