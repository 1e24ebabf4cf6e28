//! The search engine: a tag-intersection query language, ranked full-text
//! matching with highlighted spans, and a substring fallback.

use vstd::prelude::*;

use crate::listing::{arranged, listing_leq, sort_listing};
use crate::store::{is_private_tag, lemma_filter_push, visible, Db};
use vstd::string::StringExecFns;

use crate::text::{
    chars_of, contains_seq, lower, lower_chars, occ_count, occ_from, string_from_chars,
    window_match,
};
use crate::types::{
    lemma_vec_deep_view_index, lemma_vec_deep_view_push, lemma_vec_deep_view_remove, Bookmark,
    BookmarkView,
};
use crate::tags::tags_contain;

verus! {

/// An ASCII letter or digit: what the full-text tokenizer accepts.
pub open spec fn is_alnum(c: char) -> bool {
    ('a' <= c && c <= 'z') || ('A' <= c && c <= 'Z') || ('0' <= c && c <= '9')
}

/// Whether the full-text tokenizer accepts the query: at least three
/// characters, letters and digits only. Shorter or rougher queries fall
/// back to the substring mode.
pub open spec fn fts_acceptable(q: Seq<char>) -> bool {
    q.len() >= 3 && forall|i: int| 0 <= i < q.len() ==> is_alnum(#[trigger] q[i])
}

/// Whether the lowered needle occurs in any of the bookmark's text fields,
/// compared case-insensitively.
pub open spec fn word_matches(b: BookmarkView, w: Seq<char>) -> bool {
    contains_seq(lower(b.name), w) || contains_seq(lower(b.url), w) || contains_seq(
        lower(b.description),
        w,
    )
}

/// The visible rows the needle matches.
pub open spec fn match_rows(rows: Seq<BookmarkView>, w: Seq<char>) -> Seq<BookmarkView> {
    rows.filter(|b: BookmarkView| visible(b) && word_matches(b, w))
}

/// The relevance rank: how often the needle occurs across the three text
/// fields, case-insensitively.
pub open spec fn rank(b: BookmarkView, w: Seq<char>) -> nat {
    occ_from(lower(b.name), w, 0) + occ_from(lower(b.url), w, 0) + occ_from(
        lower(b.description),
        w,
        0,
    )
}

/// The ranked order: higher rank first, ties newest first.
pub open spec fn ranked_leq(w: Seq<char>, a: BookmarkView, b: BookmarkView) -> bool {
    rank(a, w) > rank(b, w) || (rank(a, w) == rank(b, w) && listing_leq(false, a, b))
}

/// `out` is `base` arranged in the ranked order for needle `w`.
pub open spec fn ranked_arranged(
    base: Seq<BookmarkView>,
    out: Seq<BookmarkView>,
    w: Seq<char>,
) -> bool {
    &&& out.to_multiset() == base.to_multiset()
    &&& forall|i: int, j: int| 0 <= i < j < out.len() ==> ranked_leq(w, out[i], out[j])
}

/// A text with every case-insensitive occurrence of `w` wrapped in
/// `<mark>`/`</mark>`, scanning left to right without overlaps.
pub open spec fn highlight(text: Seq<char>, w: Seq<char>) -> Seq<char>
    decreases text.len(),
{
    if w.len() == 0 || w.len() > text.len() {
        text
    } else if lower(text).subrange(0, w.len() as int) == w {
        "<mark>"@ + text.subrange(0, w.len() as int) + "</mark>"@ + highlight(
            text.skip(w.len() as int),
            w,
        )
    } else {
        seq![text[0]] + highlight(text.drop_first(), w)
    }
}

/// A search result row: the stored row with its name and description
/// highlighted.
pub open spec fn hl_row(b: BookmarkView, w: Seq<char>) -> BookmarkView {
    BookmarkView { name: highlight(b.name, w), description: highlight(b.description, w), ..b }
}

/// Each row highlighted, order kept.
pub open spec fn hl_rows(s: Seq<BookmarkView>, w: Seq<char>) -> Seq<BookmarkView>
    decreases s.len(),
{
    if s.len() == 0 {
        Seq::empty()
    } else {
        hl_rows(s.drop_last(), w).push(hl_row(s.last(), w))
    }
}

/// The space-separated tokens of `s` from position `i` on, skipping empty
/// ones; `cur` and `acc` carry the token being read and those already read.
pub open spec fn split_sp_from(
    s: Seq<char>,
    i: int,
    cur: Seq<char>,
    acc: Seq<Seq<char>>,
) -> Seq<Seq<char>>
    decreases s.len() - i,
{
    if i < 0 || i >= s.len() {
        if cur.len() > 0 {
            acc.push(cur)
        } else {
            acc
        }
    } else if s[i] == ' ' {
        split_sp_from(
            s,
            i + 1,
            Seq::empty(),
            if cur.len() > 0 {
                acc.push(cur)
            } else {
                acc
            },
        )
    } else {
        split_sp_from(s, i + 1, cur.push(s[i]), acc)
    }
}

/// The tag names of a tag-intersection query: the query text after the
/// `# ` marker, split on spaces.
pub open spec fn tag_tokens(q: Seq<char>) -> Seq<Seq<char>> {
    split_sp_from(q, 2, Seq::empty(), Seq::empty())
}

/// Whether the bookmark carries every one of the tags.
pub open spec fn has_all_tags(b: BookmarkView, tags: Seq<Seq<char>>) -> bool {
    forall|i: int| 0 <= i < tags.len() ==> b.has_tag(#[trigger] tags[i])
}

/// Whether the query names a private tag, which opts into seeing private
/// bookmarks.
pub open spec fn asks_private(tags: Seq<Seq<char>>) -> bool {
    exists|i: int| 0 <= i < tags.len() && is_private_tag(#[trigger] tags[i])
}

/// The rows a tag-intersection query returns: those carrying every named
/// tag; bookmarks with a private tag stay hidden unless one was asked for.
pub open spec fn intersect_rows(rows: Seq<BookmarkView>, tags: Seq<Seq<char>>) -> Seq<
    BookmarkView,
> {
    rows.filter(|b: BookmarkView| has_all_tags(b, tags) && (asks_private(tags) || visible(b)))
}

/// Whether a query starts with the tag-intersection marker `# `.
pub open spec fn is_tag_query(q: Seq<char>) -> bool {
    q.len() >= 2 && q[0] == '#' && q[1] == ' '
}

/// Whether the tokenizer accepts the query.
pub fn fts_acceptable_exec(q: &Vec<char>) -> (r: bool)
    ensures
        r == fts_acceptable(q@),
{
    if q.len() < 3 {
        return false;
    }
    let mut i: usize = 0;
    while i < q.len()
        invariant
            i <= q@.len(),
            q@.len() >= 3,
            forall|j: int| 0 <= j < i ==> is_alnum(#[trigger] q@[j]),
        decreases q@.len() - i,
    {
        let c = q[i];
        let ok = ('a' <= c && c <= 'z') || ('A' <= c && c <= 'Z') || ('0' <= c && c <= '9');
        if !ok {
            return false;
        }
        i = i + 1;
    }
    true
}

/// Whether the lowered needle occurs in any text field of the bookmark.
pub fn word_match_exec(b: &Bookmark, w: &Vec<char>) -> (r: bool)
    ensures
        r == word_matches(b@, w@),
{
    let name = lower_chars(b.name.as_str());
    if crate::text::find_window(&name, w) {
        return true;
    }
    let url = lower_chars(b.url.as_str());
    if crate::text::find_window(&url, w) {
        return true;
    }
    let desc = lower_chars(b.description.as_str());
    crate::text::find_window(&desc, w)
}

/// The relevance rank of a bookmark for the lowered needle.
pub fn rank_exec(b: &Bookmark, w: &Vec<char>) -> (r: u128)
    requires
        w@.len() >= 1,
    ensures
        r == rank(b@, w@),
{
    let name = lower_chars(b.name.as_str());
    let url = lower_chars(b.url.as_str());
    let desc = lower_chars(b.description.as_str());
    let a = occ_count(&name, w);
    let b2 = occ_count(&url, w);
    let c = occ_count(&desc, w);
    (a as u128) + (b2 as u128) + (c as u128)
}

/// Whether `a` comes no later than `b` in the ranked order.
pub fn cmp_ranked(a: &Bookmark, b: &Bookmark, w: &Vec<char>) -> (r: bool)
    requires
        w@.len() >= 1,
    ensures
        r == ranked_leq(w@, a@, b@),
{
    let ra = rank_exec(a, w);
    let rb = rank_exec(b, w);
    ra > rb || (ra == rb && crate::listing::cmp_listing(a, b, false))
}

/// Arranges bookmarks in the ranked order by repeatedly extracting the
/// highest-ranked remaining one.
pub fn sort_ranked(v: Vec<Bookmark>, w: &Vec<char>) -> (r: Vec<Bookmark>)
    requires
        w@.len() >= 1,
    ensures
        r.deep_view().to_multiset() == v.deep_view().to_multiset(),
        forall|i: int, j: int|
            0 <= i < j < r.deep_view().len() ==> ranked_leq(
                w@,
                r.deep_view()[i],
                r.deep_view()[j],
            ),
{
    broadcast use vstd::seq_lib::group_to_multiset_ensures;
    broadcast use vstd::multiset::group_multiset_axioms;

    let mut src = v;
    let mut out: Vec<Bookmark> = Vec::new();
    proof {
        assert(out.deep_view() =~= Seq::<BookmarkView>::empty());
        assert(out.deep_view().to_multiset().add(src.deep_view().to_multiset())
            =~= v.deep_view().to_multiset());
    }
    while src.len() > 0
        invariant
            w@.len() >= 1,
            out.deep_view().to_multiset().add(src.deep_view().to_multiset())
                == v.deep_view().to_multiset(),
            forall|i: int, j: int|
                0 <= i < j < out.deep_view().len() ==> ranked_leq(
                    w@,
                    out.deep_view()[i],
                    out.deep_view()[j],
                ),
            forall|a: int, b: int|
                0 <= a < out.deep_view().len() && 0 <= b < src.deep_view().len() ==> ranked_leq(
                    w@,
                    out.deep_view()[a],
                    src.deep_view()[b],
                ),
        decreases src.len(),
    {
        let mut m: usize = 0;
        let mut k: usize = 1;
        while k < src.len()
            invariant
                w@.len() >= 1,
                src.len() > 0,
                m < k,
                k <= src.len(),
                forall|t: int|
                    0 <= t < k ==> ranked_leq(w@, src.deep_view()[m as int], src.deep_view()[t]),
            decreases src.len() - k,
        {
            if !cmp_ranked(&src[m], &src[k], w) {
                proof {
                    lemma_vec_deep_view_index(src, m as int);
                    lemma_vec_deep_view_index(src, k as int);
                }
                m = k;
            }
            k = k + 1;
        }
        let ghost src0 = src;
        let ghost out0 = out;
        let ghost x = src.deep_view()[m as int];
        let b = src.remove(m);
        let ghost bg = b;
        out.push(b);
        proof {
            lemma_vec_deep_view_remove(src0, src, m as int);
            lemma_vec_deep_view_push(out0, out, bg);
            lemma_vec_deep_view_index(src0, m as int);
            assert(bg@ == x);
            assert(src.deep_view() == src0.deep_view().remove(m as int));
            vstd::seq_lib::to_multiset_remove(src0.deep_view(), m as int);
            assert(out.deep_view() == out0.deep_view().push(x));
            vstd::seq_lib::to_multiset_build(out0.deep_view(), x);
            src0.deep_view().to_multiset_ensures();
            assert(src0.deep_view().contains(x));
            assert(src0.deep_view().to_multiset().count(x) > 0);
            assert(out.deep_view().to_multiset().add(src.deep_view().to_multiset())
                =~= v.deep_view().to_multiset());
            assert forall|i: int, j: int|
                0 <= i < j < out.deep_view().len() implies ranked_leq(
                w@,
                out.deep_view()[i],
                out.deep_view()[j],
            ) by {
                if j < out.deep_view().len() - 1 {
                    assert(out.deep_view()[i] == out0.deep_view()[i]);
                    assert(out.deep_view()[j] == out0.deep_view()[j]);
                } else {
                    assert(out.deep_view()[j] == x);
                    assert(out.deep_view()[i] == out0.deep_view()[i]);
                }
            }
            assert forall|a: int, b2: int|
                0 <= a < out.deep_view().len() && 0 <= b2 < src.deep_view().len() implies
                ranked_leq(w@, out.deep_view()[a], src.deep_view()[b2]) by {
                let b3: int = if b2 < m as int {
                    b2
                } else {
                    b2 + 1
                };
                assert(src.deep_view()[b2] == src0.deep_view()[b3]);
                if a < out.deep_view().len() - 1 {
                    assert(out.deep_view()[a] == out0.deep_view()[a]);
                } else {
                    assert(out.deep_view()[a] == x);
                }
            }
        }
    }
    proof {
        assert(src.deep_view() =~= Seq::<BookmarkView>::empty());
        assert(out.deep_view().to_multiset().add(src.deep_view().to_multiset())
            =~= out.deep_view().to_multiset());
    }
    out
}

/// Appends the characters of a string slice.
fn push_chars(out: &mut Vec<char>, s: &str)
    ensures
        final(out)@ == old(out)@ + s@,
{
    let cs = chars_of(s);
    let ghost base = out@;
    proof {
        assert(base == old(out)@);
    }
    let mut i: usize = 0;
    while i < cs.len()
        invariant
            i <= cs@.len(),
            cs@ == s@,
            out@ == base + s@.subrange(0, i as int),
        decreases cs@.len() - i,
    {
        out.push(cs[i]);
        i = i + 1;
        proof {
            assert(out@ =~= base + s@.subrange(0, i as int));
        }
    }
    proof {
        assert(out@ =~= base + s@);
    }
}

/// One highlighting step at a match: the marked occurrence is emitted and
/// scanning resumes past it.
proof fn lemma_highlight_step_match(text: Seq<char>, w: Seq<char>, i: int, out0: Seq<char>)
    requires
        w.len() >= 1,
        0 <= i,
        i + w.len() <= text.len(),
        lower(text).subrange(i, i + w.len() as int) == w,
    ensures
        out0 + highlight(text.skip(i), w) == (out0 + "<mark>"@ + text.subrange(
            i,
            i + w.len() as int,
        ) + "</mark>"@) + highlight(text.skip(i + w.len() as int), w),
{
    let rem = text.skip(i);
    assert(lower(rem) =~= lower(text).subrange(i, text.len() as int));
    assert(lower(rem).subrange(0, w.len() as int) =~= lower(text).subrange(
        i,
        i + w.len() as int,
    ));
    assert(highlight(rem, w) == "<mark>"@ + rem.subrange(0, w.len() as int) + "</mark>"@
        + highlight(rem.skip(w.len() as int), w));
    assert(rem.subrange(0, w.len() as int) =~= text.subrange(i, i + w.len() as int));
    assert(rem.skip(w.len() as int) =~= text.skip(i + w.len() as int));
    assert(out0 + highlight(rem, w) =~= (out0 + "<mark>"@ + text.subrange(
        i,
        i + w.len() as int,
    ) + "</mark>"@) + highlight(text.skip(i + w.len() as int), w));
}

/// One highlighting step at a non-match: the character is copied through.
proof fn lemma_highlight_step_char(text: Seq<char>, w: Seq<char>, i: int, out0: Seq<char>)
    requires
        w.len() >= 1,
        0 <= i < text.len(),
        i + w.len() <= text.len() ==> lower(text).subrange(i, i + w.len() as int) != w,
    ensures
        out0 + highlight(text.skip(i), w) == (out0.push(text[i])) + highlight(
            text.skip(i + 1),
            w,
        ),
{
    let rem = text.skip(i);
    assert(lower(rem) =~= lower(text).subrange(i, text.len() as int));
    assert(rem[0] == text[i]);
    assert(rem.drop_first() =~= text.skip(i + 1));
    if i + w.len() <= text.len() {
        assert(lower(rem).subrange(0, w.len() as int) =~= lower(text).subrange(
            i,
            i + w.len() as int,
        ));
        assert(highlight(rem, w) == seq![rem[0]] + highlight(rem.drop_first(), w));
    } else {
        assert(highlight(rem, w) == rem);
        assert(highlight(text.skip(i + 1), w) == text.skip(i + 1));
        assert(rem =~= seq![rem[0]] + text.skip(i + 1));
    }
    assert(out0 + highlight(rem, w) =~= (out0.push(text[i])) + highlight(text.skip(i + 1), w));
}

/// The text with each occurrence of the lowered needle wrapped in
/// highlight markers.
#[verifier::rlimit(100)]
pub fn highlight_field(text: &str, w: &Vec<char>) -> (r: String)
    ensures
        r@ == highlight(text@, w@),
{
    let tc = chars_of(text);
    let lc = lower_chars(text);
    if w.len() == 0 {
        return String::from_str(text);
    }
    let n = tc.len();
    let mut out: Vec<char> = Vec::new();
    let mut i: usize = 0;
    proof {
        assert(text@.skip(0) =~= text@);
        assert(out@ =~= Seq::<char>::empty());
        assert(Seq::<char>::empty() + highlight(text@, w@) =~= highlight(text@, w@));
    }
    while i < n
        invariant
            w@.len() >= 1,
            i <= n,
            n == text@.len(),
            tc@ == text@,
            lc@ == lower(text@),
            highlight(text@, w@) == out@ + highlight(text@.skip(i as int), w@),
        decreases n - i,
    {
        let can = w.len() <= n - i;
        let hit = if can {
            window_match(&lc, w, i)
        } else {
            false
        };
        if hit {
            let ghost out0 = out@;
            push_chars(&mut out, "<mark>");
            let mut j: usize = 0;
            let ghost out1 = out@;
            while j < w.len()
                invariant
                    i + w@.len() <= n,
                    n == tc@.len(),
                    j <= w@.len(),
                    out@ == out1 + tc@.subrange(i as int, i as int + j as int),
                decreases w@.len() - j,
            {
                out.push(tc[i + j]);
                j = j + 1;
                proof {
                    assert(out@ =~= out1 + tc@.subrange(i as int, i as int + j as int));
                }
            }
            push_chars(&mut out, "</mark>");
            i = i + w.len();
            proof {
                lemma_highlight_step_match(text@, w@, i - w@.len(), out0);
                assert(out@ =~= (out0 + "<mark>"@ + text@.subrange(i - w@.len(), i as int)
                    + "</mark>"@));
            }
        } else {
            let ghost out0 = out@;
            out.push(tc[i]);
            i = i + 1;
            proof {
                lemma_highlight_step_char(text@, w@, i - 1, out0);
                assert(out@ =~= out0.push(text@[i - 1]));
            }
        }
    }
    proof {
        assert(text@.skip(n as int) =~= Seq::<char>::empty());
        assert(highlight(Seq::<char>::empty(), w@) == Seq::<char>::empty());
        assert(highlight(text@, w@) =~= out@);
    }
    string_from_chars(&out)
}

/// The space-separated tokens of a character sequence, read into strings.
pub fn split_tokens(q: &Vec<char>, from: usize) -> (r: Vec<String>)
    requires
        from <= q@.len(),
    ensures
        r.deep_view() == split_sp_from(q@, from as int, Seq::empty(), Seq::empty()),
{
    let n = q.len();
    let mut acc: Vec<String> = Vec::new();
    let mut cur: Vec<char> = Vec::new();
    let mut i: usize = from;
    proof {
        assert(acc.deep_view() =~= Seq::<Seq<char>>::empty());
        assert(cur@ =~= Seq::<char>::empty());
    }
    while i < n
        invariant
            from as int <= i as int <= n as int,
            n == q@.len(),
            split_sp_from(q@, from as int, Seq::empty(), Seq::empty()) == split_sp_from(
                q@,
                i as int,
                cur@,
                acc.deep_view(),
            ),
        decreases n - i,
    {
        let ghost cur0 = cur@;
        let ghost accd0 = acc.deep_view();
        let c = q[i];
        if c == ' ' {
            if cur.len() > 0 {
                let ghost acc0 = acc;
                let t = string_from_chars(&cur);
                let ghost tg = t;
                acc.push(t);
                cur = Vec::new();
                proof {
                    lemma_vec_deep_view_push(acc0, acc, tg);
                    assert(cur@ =~= Seq::<char>::empty());
                    assert(acc.deep_view() == accd0.push(cur0));
                }
            }
        } else {
            cur.push(c);
        }
        i = i + 1;
        proof {
            if q@[i - 1] == ' ' {
                assert(cur@ =~= Seq::<char>::empty());
                if cur0.len() == 0 {
                    assert(cur0 =~= Seq::<char>::empty());
                }
                assert(split_sp_from(q@, i - 1, cur0, accd0) == split_sp_from(
                    q@,
                    i as int,
                    cur@,
                    acc.deep_view(),
                ));
            } else {
                assert(cur@ == cur0.push(q@[i - 1]));
                assert(split_sp_from(q@, i - 1, cur0, accd0) == split_sp_from(
                    q@,
                    i as int,
                    cur@,
                    acc.deep_view(),
                ));
            }
        }
    }
    if cur.len() > 0 {
        let ghost acc0 = acc;
        let t = string_from_chars(&cur);
        let ghost tg = t;
        acc.push(t);
        proof {
            lemma_vec_deep_view_push(acc0, acc, tg);
        }
    }
    acc
}

/// Whether the bookmark carries every one of the given tag names.
fn row_has_all(b: &Bookmark, tags: &Vec<String>) -> (r: bool)
    ensures
        r == has_all_tags(b@, tags.deep_view()),
{
    let n = tags.len();
    let mut i: usize = 0;
    while i < n
        invariant
            i <= n,
            n == tags.len(),
            forall|j: int| 0 <= j < i ==> b@.has_tag(#[trigger] tags.deep_view()[j]),
        decreases n - i,
    {
        let held = tags_contain(&b.tags, tags[i].as_str());
        proof {
            lemma_vec_deep_view_index(*tags, i as int);
        }
        if !held {
            return false;
        }
        i = i + 1;
    }
    true
}

/// Whether any of the tag names is private-prefixed.
fn any_private(tags: &Vec<String>) -> (r: bool)
    ensures
        r == asks_private(tags.deep_view()),
{
    let n = tags.len();
    let mut i: usize = 0;
    while i < n
        invariant
            i <= n,
            n == tags.len(),
            forall|j: int| 0 <= j < i ==> !is_private_tag(#[trigger] tags.deep_view()[j]),
        decreases n - i,
    {
        let p = crate::store::is_private_tag_exec(tags[i].as_str());
        proof {
            lemma_vec_deep_view_index(*tags, i as int);
        }
        if p {
            return true;
        }
        i = i + 1;
    }
    false
}

impl Db {
    /// Answers a query, trying three modes in order. A query starting with
    /// `# ` names tags and returns the bookmarks carrying all of them,
    /// newest first (naming a private tag opts into private bookmarks; no
    /// tags means no results). Otherwise, a query the tokenizer accepts is
    /// matched case-insensitively against name, url and description,
    /// ordered by relevance rank, with matches wrapped in `<mark>` markers
    /// in name and description. Any other query falls back to a plain
    /// case-insensitive substring match, newest first.
    pub fn search(&self, query: &str) -> (r: Vec<Bookmark>)
        requires
            self.wf(),
        ensures
            ({
                let q = query@;
                if is_tag_query(q) {
                    let tags = tag_tokens(q);
                    if tags.len() == 0 {
                        r.deep_view() == Seq::<BookmarkView>::empty()
                    } else {
                        arranged(intersect_rows(self@.rows, tags), r.deep_view(), false)
                    }
                } else if fts_acceptable(q) {
                    exists|sorted: Seq<BookmarkView>|
                        {
                            &&& #[trigger] ranked_arranged(
                                match_rows(self@.rows, lower(q)),
                                sorted,
                                lower(q),
                            )
                            &&& r.deep_view() == hl_rows(sorted, lower(q))
                        }
                } else {
                    arranged(match_rows(self@.rows, lower(q)), r.deep_view(), false)
                }
            }),
    {
        let qchars = chars_of(query);
        let qn = qchars.len();
        if qn >= 2 && qchars[0] == '#' && qchars[1] == ' ' {
            let tags = split_tokens(&qchars, 2);
            let ghost tagsv = tags.deep_view();
            if tags.len() == 0 {
                let empty: Vec<Bookmark> = Vec::new();
                proof {
                    assert(empty.deep_view() =~= Seq::<BookmarkView>::empty());
                }
                return empty;
            }
            let optin = any_private(&tags);
            let n = self.len();
            let mut out: Vec<Bookmark> = Vec::new();
            let mut i: usize = 0;
            proof {
                assert(out.deep_view() =~= Seq::<BookmarkView>::empty());
                assert(self@.rows.subrange(0, 0).filter(
                    |b: BookmarkView| has_all_tags(b, tagsv) && (asks_private(tagsv) || visible(
                        b,
                    )),
                ) =~= Seq::<BookmarkView>::empty());
            }
            while i < n
                invariant
                    self.wf(),
                    i <= n,
                    n == self@.rows.len(),
                    tagsv == tags.deep_view(),
                    optin == asks_private(tagsv),
                    out.deep_view() == self@.rows.subrange(0, i as int).filter(
                        |b: BookmarkView| has_all_tags(b, tagsv) && (asks_private(tagsv)
                            || visible(b)),
                    ),
                decreases n - i,
            {
                let ghost pre = self@.rows.subrange(0, i as int);
                let row = self.bookmark_at(i);
                let keep = row_has_all(row, &tags) && (optin || !crate::store::has_private_tag(
                    row,
                ));
                if keep {
                    let ghost out0 = out;
                    let b = self.bookmark_at(i).duplicate();
                    let ghost bg = b;
                    out.push(b);
                    proof {
                        lemma_vec_deep_view_push(out0, out, bg);
                    }
                }
                i = i + 1;
                proof {
                    lemma_filter_push(
                        pre,
                        self@.rows[i - 1],
                        |b: BookmarkView| has_all_tags(b, tagsv) && (asks_private(tagsv)
                            || visible(b)),
                    );
                    assert(self@.rows.subrange(0, i as int) =~= pre.push(self@.rows[i - 1]));
                }
            }
            proof {
                assert(self@.rows.subrange(0, n as int) =~= self@.rows);
            }
            sort_listing(out, false)
        } else {
            let w = lower_chars(query);
            proof {
                crate::text::lemma_lower_props(query@);
            }
            let n = self.len();
            let mut out: Vec<Bookmark> = Vec::new();
            let mut i: usize = 0;
            proof {
                assert(out.deep_view() =~= Seq::<BookmarkView>::empty());
                assert(self@.rows.subrange(0, 0).filter(
                    |b: BookmarkView| visible(b) && word_matches(b, lower(query@)),
                ) =~= Seq::<BookmarkView>::empty());
            }
            while i < n
                invariant
                    self.wf(),
                    i <= n,
                    n == self@.rows.len(),
                    w@ == lower(query@),
                    out.deep_view() == self@.rows.subrange(0, i as int).filter(
                        |b: BookmarkView| visible(b) && word_matches(b, lower(query@)),
                    ),
                decreases n - i,
            {
                let ghost pre = self@.rows.subrange(0, i as int);
                let row = self.bookmark_at(i);
                let keep = !crate::store::has_private_tag(row) && word_match_exec(row, &w);
                if keep {
                    let ghost out0 = out;
                    let b = self.bookmark_at(i).duplicate();
                    let ghost bg = b;
                    out.push(b);
                    proof {
                        lemma_vec_deep_view_push(out0, out, bg);
                    }
                }
                i = i + 1;
                proof {
                    lemma_filter_push(
                        pre,
                        self@.rows[i - 1],
                        |b: BookmarkView| visible(b) && word_matches(b, lower(query@)),
                    );
                    assert(self@.rows.subrange(0, i as int) =~= pre.push(self@.rows[i - 1]));
                }
            }
            proof {
                assert(self@.rows.subrange(0, n as int) =~= self@.rows);
            }
            let accept = fts_acceptable_exec(&qchars);
            proof {
                assert(qchars@ == query@);
            }
            if accept {
                let sorted = sort_ranked(out, &w);
                let ghost sortedv = sorted.deep_view();
                let m = sorted.len();
                let mut hl: Vec<Bookmark> = Vec::new();
                let mut k: usize = 0;
                proof {
                    assert(hl.deep_view() =~= Seq::<BookmarkView>::empty());
                    assert(hl.deep_view() =~= hl_rows(sortedv.subrange(0, 0), w@));
                }
                while k < m
                    invariant
                        w@ == lower(query@),
                        w@.len() >= 1,
                        k <= m,
                        m == sorted.len(),
                        sortedv == sorted.deep_view(),
                        hl.deep_view() == hl_rows(sortedv.subrange(0, k as int), w@),
                    decreases m - k,
                {
                    let src = &sorted[k];
                    let b2 = Bookmark {
                        id: src.id,
                        name: highlight_field(src.name.as_str(), &w),
                        url: src.url.clone(),
                        creation_time: src.creation_time,
                        description: highlight_field(src.description.as_str(), &w),
                        tags: crate::types::clone_tags(&src.tags),
                    };
                    let ghost bg = b2;
                    let ghost hl0 = hl;
                    hl.push(b2);
                    k = k + 1;
                    proof {
                        lemma_vec_deep_view_push(hl0, hl, bg);
                        lemma_vec_deep_view_index(sorted, k - 1);
                        assert(bg@ == hl_row(sortedv[k - 1], w@));
                        let sub = sortedv.subrange(0, k as int);
                        assert(sub.drop_last() =~= sortedv.subrange(0, k - 1));
                        assert(sub.last() == sortedv[k - 1]);
                    }
                }
                proof {
                    assert(sortedv.subrange(0, m as int) =~= sortedv);
                    assert(ranked_arranged(
                        match_rows(self@.rows, lower(query@)),
                        sortedv,
                        lower(query@),
                    ));
                }
                hl
            } else {
                sort_listing(out, false)
            }
        }
    }
}

} // verus!
