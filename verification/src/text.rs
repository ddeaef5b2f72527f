//! Text transforms of the feed pipeline: pattern replacement (used to keep
//! the `itunes:` namespace apart from plain tags), namespace renaming, and
//! display-width truncation of progress lines.
use vstd::prelude::*;

verus! {

/// Replacement of every occurrence of `from` (leftmost, non-overlapping)
/// by `to`, scanning left to right.
pub open spec fn spec_replace(s: Seq<char>, from: Seq<char>, to: Seq<char>) -> Seq<char>
    decreases s.len(),
{
    if from.len() == 0 || s.len() == 0 {
        s
    } else if s.len() >= from.len() && s.subrange(0, from.len() as int) == from {
        to + spec_replace(s.subrange(from.len() as int, s.len() as int), from, to)
    } else {
        seq![s[0]] + spec_replace(s.subrange(1, s.len() as int), from, to)
    }
}

/// `pat` occurs in `s` starting at position `i`.
pub open spec fn matches_at(s: Seq<char>, pat: Seq<char>, i: int) -> bool {
    0 <= i && i + pat.len() <= s.len() && s.subrange(i, i + pat.len() as int) == pat
}

/// `pat` occurs somewhere in `s`.
pub open spec fn contains_pat(s: Seq<char>, pat: Seq<char>) -> bool {
    exists|i: int| matches_at(s, pat, i)
}

/// Whether `from` occurs in `s` at position `i`, checked character-wise.
fn occurs_at(s: &str, from: &str, i: usize) -> (r: bool)
    requires
        i <= s@.len(),
    ensures
        r == matches_at(s@, from@, i as int),
{
    let n = s.unicode_len();
    let m = from.unicode_len();
    if m > n - i {
        return false;
    }
    for j in 0..m
        invariant
            n == s@.len(),
            m == from@.len(),
            i + m <= n,
            forall|k: int| 0 <= k < j ==> s@[i + k] == from@[k],
    {
        if s.get_char(i + j) != from.get_char(j) {
            proof {
                let sub = s@.subrange(i as int, i + m as int);
                assert(sub[j as int] == s@[i + j]);
            }
            return false;
        }
    }
    proof {
        assert(s@.subrange(i as int, i + m as int) =~= from@);
    }
    true
}

/// Every occurrence of `from` in `s` replaced by `to`, leftmost first.
pub fn replace_all(s: &str, from: &str, to: &str) -> (r: String)
    requires
        from@.len() >= 1,
    ensures
        r@ == spec_replace(s@, from@, to@),
{
    let n = s.unicode_len();
    let m = from.unicode_len();
    let mut out = String::new();
    let mut i: usize = 0;
    proof {
        assert(s@.subrange(0, n as int) =~= s@);
        assert(out@ + spec_replace(s@, from@, to@) =~= spec_replace(s@, from@, to@));
    }
    while i < n
        invariant
            n == s@.len(),
            m == from@.len(),
            m >= 1,
            i <= n,
            spec_replace(s@, from@, to@) == out@ + spec_replace(
                s@.subrange(i as int, n as int),
                from@,
                to@,
            ),
        decreases n - i,
    {
        let ghost ii = i as int;
        let ghost mm = m as int;
        let ghost nn = n as int;
        let ghost suffix = s@.subrange(ii, nn);
        if occurs_at(s, from, i) {
            proof {
                assert(suffix.subrange(0, mm) =~= s@.subrange(ii, ii + mm));
                assert(suffix.subrange(mm, suffix.len() as int) =~= s@.subrange(ii + mm, nn));
            }
            out.append(to);
            i = i + m;
        } else {
            proof {
                if ii + mm <= nn {
                    assert(suffix.subrange(0, mm) =~= s@.subrange(ii, ii + mm));
                }
                assert(suffix.subrange(1, suffix.len() as int) =~= s@.subrange(ii + 1, nn));
                assert(seq![suffix[0]] =~= s@.subrange(ii, ii + 1));
            }
            let c = s.substring_char(i, i + 1);
            out.append(c);
            i = i + 1;
        }
        proof {
            assert(out@ + spec_replace(s@.subrange(i as int, n as int), from@, to@)
                =~= spec_replace(s@, from@, to@));
        }
    }
    proof {
        assert(s@.subrange(n as int, n as int).len() == 0);
        assert(out@ =~= spec_replace(s@, from@, to@));
    }
    out
}

/// Replacement is the identity on text without an occurrence of the pattern.
pub proof fn lemma_replace_absent(s: Seq<char>, from: Seq<char>, to: Seq<char>)
    requires
        from.len() >= 1,
        !contains_pat(s, from),
    ensures
        spec_replace(s, from, to) == s,
    decreases s.len(),
{
    if s.len() == 0 {
    } else {
        if s.len() >= from.len() && s.subrange(0, from.len() as int) == from {
            assert(matches_at(s, from, 0));
            assert(false);
        }
        let rest = s.subrange(1, s.len() as int);
        assert forall|i: int| !matches_at(rest, from, i) by {
            if matches_at(rest, from, i) {
                assert(rest.subrange(i, i + from.len() as int) =~= s.subrange(
                    i + 1,
                    i + 1 + from.len() as int,
                ));
                assert(matches_at(s, from, i + 1));
            }
        }
        lemma_replace_absent(rest, from, to);
        assert(spec_replace(s, from, to) =~= s);
    }
}

/// An occurrence of a pattern carries an occurrence of any part of it.
pub proof fn lemma_occurrence_of_part(s: Seq<char>, pat: Seq<char>, part: Seq<char>, d: int, i: int)
    requires
        0 <= d,
        d + part.len() <= pat.len(),
        pat.subrange(d, d + part.len() as int) == part,
        matches_at(s, pat, i),
    ensures
        matches_at(s, part, i + d),
{
    assert(s.subrange(i + d, i + d + part.len() as int) =~= s.subrange(
        i,
        i + pat.len() as int,
    ).subrange(d, d + part.len() as int));
}

/// Width in display columns of one character, or `None` for a control
/// character.
pub uninterp spec fn char_cols(c: char) -> Option<usize>;

/// Relies on unicode_width::UnicodeWidthChar::width: the display width of a
/// character is a function of the character alone.
#[verifier::external_body]
fn width_of_char(c: char) -> (r: Option<usize>)
    ensures
        r == char_cols(c),
{
    unicode_width::UnicodeWidthChar::width(c)
}

/// Width taken as zero for characters without one.
pub open spec fn col_width(c: char) -> int {
    match char_cols(c) {
        Some(w) => w as int,
        None => 0,
    }
}

/// The longest prefix that fits in `width` display columns, taken greedily:
/// characters are appended until the next one would overflow the budget.
pub open spec fn spec_truncate(s: Seq<char>, width: int) -> Seq<char>
    decreases s.len(),
{
    if s.len() == 0 {
        s
    } else if col_width(s[0]) > width {
        Seq::empty()
    } else {
        seq![s[0]] + spec_truncate(s.subrange(1, s.len() as int), width - col_width(s[0]))
    }
}

/// Cuts `s` after as many characters as fit in `max_width` display columns.
pub fn truncate_string(s: &str, max_width: usize) -> (r: String)
    ensures
        r@ == spec_truncate(s@, max_width as int),
{
    let n = s.unicode_len();
    let mut out = String::new();
    let mut width: usize = 0;
    let mut i: usize = 0;
    proof {
        assert(s@.subrange(0, n as int) =~= s@);
        assert(out@ + spec_truncate(s@, max_width as int) =~= spec_truncate(
            s@,
            max_width as int,
        ));
    }
    while i < n
        invariant
            n == s@.len(),
            i <= n,
            width <= max_width,
            spec_truncate(s@, max_width as int) == out@ + spec_truncate(
                s@.subrange(i as int, n as int),
                max_width - width,
            ),
        decreases n - i,
    {
        let ghost suffix = s@.subrange(i as int, n as int);
        let c = s.get_char(i);
        let cw = match width_of_char(c) {
            Some(w) => w,
            None => 0,
        };
        assert(cw == col_width(s@[i as int]));
        if cw > max_width - width {
            proof {
                assert(spec_truncate(suffix, max_width - width) =~= Seq::<char>::empty());
                assert(out@ =~= spec_truncate(s@, max_width as int));
            }
            return out;
        }
        proof {
            assert(seq![suffix[0]] =~= s@.subrange(i as int, i + 1));
            assert(suffix.subrange(1, suffix.len() as int) =~= s@.subrange(i + 1, n as int));
        }
        let piece = s.substring_char(i, i + 1);
        out.append(piece);
        width = width + cw;
        i = i + 1;
        proof {
            assert(out@ + spec_truncate(s@.subrange(i as int, n as int), max_width - width)
                =~= spec_truncate(s@, max_width as int));
        }
    }
    proof {
        assert(s@.subrange(n as int, n as int).len() == 0);
        assert(out@ =~= spec_truncate(s@, max_width as int));
    }
    out
}

/// Tag names rewritten so that a generic converter keeps namespaces apart:
/// inside each pair of angle brackets, the first colon is replaced by
/// `repl`; text outside brackets is copied unchanged.
pub open spec fn spec_rename_tags(
    s: Seq<char>,
    repl: Seq<char>,
    in_tag: bool,
    replaced: bool,
) -> Seq<char>
    decreases s.len(),
{
    if s.len() == 0 {
        s
    } else {
        let c = s[0];
        let rest = s.subrange(1, s.len() as int);
        if c == '<' {
            seq![c] + spec_rename_tags(rest, repl, true, false)
        } else if c == '>' {
            seq![c] + spec_rename_tags(rest, repl, false, false)
        } else if in_tag && !replaced && c == ':' {
            repl + spec_rename_tags(rest, repl, true, true)
        } else {
            seq![c] + spec_rename_tags(rest, repl, in_tag, replaced)
        }
    }
}

/// Replaces the colon that marks a namespace in every tag name by
/// `replacement`, so that a namespace-unaware converter does not merge
/// same-named tags of different namespaces.
pub fn remove_xml_namespaces(xml: &str, replacement: &str) -> (r: String)
    ensures
        r@ == spec_rename_tags(xml@, replacement@, false, false),
{
    let n = xml.unicode_len();
    let mut out = String::new();
    let mut in_tag = false;
    let mut replaced = false;
    let mut i: usize = 0;
    proof {
        assert(xml@.subrange(0, n as int) =~= xml@);
        assert(out@ + spec_rename_tags(xml@, replacement@, false, false) =~= spec_rename_tags(
            xml@,
            replacement@,
            false,
            false,
        ));
    }
    while i < n
        invariant
            n == xml@.len(),
            i <= n,
            spec_rename_tags(xml@, replacement@, false, false) == out@ + spec_rename_tags(
                xml@.subrange(i as int, n as int),
                replacement@,
                in_tag,
                replaced,
            ),
        decreases n - i,
    {
        let ghost suffix = xml@.subrange(i as int, n as int);
        proof {
            assert(seq![suffix[0]] =~= xml@.subrange(i as int, i + 1));
            assert(suffix.subrange(1, suffix.len() as int) =~= xml@.subrange(i + 1, n as int));
        }
        let c = xml.get_char(i);
        if c == '<' {
            let piece = xml.substring_char(i, i + 1);
            out.append(piece);
            in_tag = true;
            replaced = false;
        } else if c == '>' {
            let piece = xml.substring_char(i, i + 1);
            out.append(piece);
            in_tag = false;
            replaced = false;
        } else if in_tag && !replaced && c == ':' {
            out.append(replacement);
            replaced = true;
        } else {
            let piece = xml.substring_char(i, i + 1);
            out.append(piece);
        }
        i = i + 1;
        proof {
            assert(out@ + spec_rename_tags(
                xml@.subrange(i as int, n as int),
                replacement@,
                in_tag,
                replaced,
            ) =~= spec_rename_tags(xml@, replacement@, false, false));
        }
    }
    proof {
        assert(xml@.subrange(n as int, n as int).len() == 0);
        assert(out@ =~= spec_rename_tags(xml@, replacement@, false, false));
    }
    out
}

} // verus!
