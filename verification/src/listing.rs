//! Listings: the listing order, a verified sort, pagination, tag queries
//! and the tag directory.

use vstd::prelude::*;

use crate::store::{is_private, is_private_tag, visible, Db};
use crate::types::{
    lemma_vec_deep_view_index, lemma_vec_deep_view_push, lemma_vec_deep_view_remove, Bookmark,
    BookmarkView, Page, Tag,
};
use crate::text::str_eq;
use crate::tags::tags_contain;
use crate::store::lemma_filter_push;

verus! {

/// The listing order: newest first by default (`asc` false), oldest first
/// otherwise; ties go by id, in the same direction.
pub open spec fn listing_leq(asc: bool, a: BookmarkView, b: BookmarkView) -> bool {
    if asc {
        a.creation_time < b.creation_time || (a.creation_time == b.creation_time && a.id <= b.id)
    } else {
        a.creation_time > b.creation_time || (a.creation_time == b.creation_time && a.id >= b.id)
    }
}

/// A sequence arranged in the listing order.
pub open spec fn sorted_listing(out: Seq<BookmarkView>, asc: bool) -> bool {
    forall|i: int, j: int| 0 <= i < j < out.len() ==> listing_leq(asc, out[i], out[j])
}

/// The rows that default listings show: those without a private tag.
pub open spec fn visible_rows(rows: Seq<BookmarkView>) -> Seq<BookmarkView> {
    rows.filter(|b: BookmarkView| visible(b))
}

/// The rows a tag query returns: those carrying the tag; bookmarks with a
/// private tag stay hidden unless the requested tag is itself private,
/// which opts the caller in.
pub open spec fn tagged_rows(rows: Seq<BookmarkView>, t: Seq<char>) -> Seq<BookmarkView> {
    if is_private_tag(t) {
        rows.filter(|b: BookmarkView| b.has_tag(t))
    } else {
        rows.filter(|b: BookmarkView| b.has_tag(t) && visible(b))
    }
}

/// `out` holds exactly the bookmarks of `base`, arranged in the listing order.
pub open spec fn arranged(base: Seq<BookmarkView>, out: Seq<BookmarkView>, asc: bool) -> bool {
    &&& out.to_multiset() == base.to_multiset()
    &&& sorted_listing(out, asc)
}

/// Whether `a` comes no later than `b` in the listing order.
pub fn cmp_listing(a: &Bookmark, b: &Bookmark, asc: bool) -> (r: bool)
    ensures
        r == listing_leq(asc, a@, b@),
{
    if asc {
        a.creation_time < b.creation_time || (a.creation_time == b.creation_time && a.id <= b.id)
    } else {
        a.creation_time > b.creation_time || (a.creation_time == b.creation_time && a.id >= b.id)
    }
}

/// Arranges bookmarks in the listing order by repeatedly extracting the
/// earliest remaining one.
pub fn sort_listing(v: Vec<Bookmark>, asc: bool) -> (r: Vec<Bookmark>)
    ensures
        r.deep_view().to_multiset() == v.deep_view().to_multiset(),
        sorted_listing(r.deep_view(), asc),
{
    broadcast use vstd::seq_lib::group_to_multiset_ensures;
    broadcast use vstd::multiset::group_multiset_axioms;

    let mut src = v;
    let mut out: Vec<Bookmark> = Vec::new();
    proof {
        assert(out.deep_view() =~= Seq::<BookmarkView>::empty());
        assert(out.deep_view().to_multiset().add(src.deep_view().to_multiset())
            =~= v.deep_view().to_multiset());
    }
    while src.len() > 0
        invariant
            out.deep_view().to_multiset().add(src.deep_view().to_multiset())
                == v.deep_view().to_multiset(),
            sorted_listing(out.deep_view(), asc),
            forall|a: int, b: int|
                0 <= a < out.deep_view().len() && 0 <= b < src.deep_view().len()
                    ==> listing_leq(asc, out.deep_view()[a], src.deep_view()[b]),
        decreases src.len(),
    {
        let mut m: usize = 0;
        let mut k: usize = 1;
        while k < src.len()
            invariant
                src.len() > 0,
                m < k,
                k <= src.len(),
                forall|t: int|
                    0 <= t < k ==> listing_leq(asc, src.deep_view()[m as int], src.deep_view()[t]),
            decreases src.len() - k,
        {
            if !cmp_listing(&src[m], &src[k], asc) {
                proof {
                    lemma_vec_deep_view_index(src, m as int);
                    lemma_vec_deep_view_index(src, k as int);
                }
                m = k;
            }
            k = k + 1;
        }
        let ghost src0 = src;
        let ghost out0 = out;
        let ghost x = src.deep_view()[m as int];
        let b = src.remove(m);
        let ghost bg = b;
        out.push(b);
        proof {
            lemma_vec_deep_view_remove(src0, src, m as int);
            lemma_vec_deep_view_push(out0, out, bg);
            lemma_vec_deep_view_index(src0, m as int);
            assert(bg@ == x);
            assert(src.deep_view() == src0.deep_view().remove(m as int));
            vstd::seq_lib::to_multiset_remove(src0.deep_view(), m as int);
            assert(out.deep_view() == out0.deep_view().push(x));
            vstd::seq_lib::to_multiset_build(out0.deep_view(), x);
            src0.deep_view().to_multiset_ensures();
            assert(src0.deep_view().contains(x));
            assert(src0.deep_view().to_multiset().count(x) > 0);
            assert(out.deep_view().to_multiset().add(src.deep_view().to_multiset())
                =~= v.deep_view().to_multiset());
            assert forall|i: int, j: int|
                0 <= i < j < out.deep_view().len() implies listing_leq(
                asc,
                out.deep_view()[i],
                out.deep_view()[j],
            ) by {
                if j < out.deep_view().len() - 1 {
                    assert(out.deep_view()[i] == out0.deep_view()[i]);
                    assert(out.deep_view()[j] == out0.deep_view()[j]);
                } else {
                    assert(out.deep_view()[j] == x);
                    assert(out.deep_view()[i] == out0.deep_view()[i]);
                }
            }
            assert forall|a: int, b2: int|
                0 <= a < out.deep_view().len() && 0 <= b2 < src.deep_view().len() implies
                listing_leq(asc, out.deep_view()[a], src.deep_view()[b2]) by {
                let b3: int = if b2 < m as int {
                    b2
                } else {
                    b2 + 1
                };
                assert(src.deep_view()[b2] == src0.deep_view()[b3]);
                if a < out.deep_view().len() - 1 {
                    assert(out.deep_view()[a] == out0.deep_view()[a]);
                } else {
                    assert(out.deep_view()[a] == x);
                }
            }
        }
    }
    proof {
        assert(src.deep_view() =~= Seq::<BookmarkView>::empty());
        assert(out.deep_view().to_multiset().add(src.deep_view().to_multiset())
            =~= out.deep_view().to_multiset());
    }
    out
}

impl Db {
    /// The visible bookmarks, copied out in store order.
    fn visible_bookmarks(&self) -> (r: Vec<Bookmark>)
        requires
            self.wf(),
        ensures
            r.deep_view() == visible_rows(self@.rows),
    {
        let n = self.len();
        let mut out: Vec<Bookmark> = Vec::new();
        let mut i: usize = 0;
        proof {
            assert(out.deep_view() =~= Seq::<BookmarkView>::empty());
            assert(self@.rows.subrange(0, 0).filter(|b: BookmarkView| visible(b)) =~= Seq::<
                BookmarkView,
            >::empty());
        }
        while i < n
            invariant
                self.wf(),
                i <= n,
                n == self@.rows.len(),
                out.deep_view() == self@.rows.subrange(0, i as int).filter(
                    |b: BookmarkView| visible(b),
                ),
            decreases n - i,
        {
            let ghost pre = self@.rows.subrange(0, i as int);
            let vis = !crate::store::has_private_tag(self.bookmark_at(i));
            if vis {
                let ghost out0 = out;
                let b = self.bookmark_at(i).duplicate();
                let ghost bg = b;
                out.push(b);
                proof {
                    lemma_vec_deep_view_push(out0, out, bg);
                }
            }
            i = i + 1;
            proof {
                lemma_filter_push(pre, self@.rows[i - 1], |b: BookmarkView| visible(b));
                assert(self@.rows.subrange(0, i as int) =~= pre.push(self@.rows[i - 1]));
            }
        }
        proof {
            assert(self@.rows.subrange(0, n as int) =~= self@.rows);
        }
        out
    }

    /// The bookmarks carrying the given tag, newest first. Privacy filtering
    /// follows [`tagged_rows`]: asking for a private tag opts in.
    pub fn get_bookmarks_by_tag(&self, tag_name: &str) -> (r: Vec<Bookmark>)
        requires
            self.wf(),
        ensures
            arranged(tagged_rows(self@.rows, tag_name@), r.deep_view(), false),
    {
        let private_query = crate::store::is_private_tag_exec(tag_name);
        let n = self.len();
        let mut out: Vec<Bookmark> = Vec::new();
        let mut i: usize = 0;
        proof {
            assert(out.deep_view() =~= Seq::<BookmarkView>::empty());
            if private_query {
                assert(self@.rows.subrange(0, 0).filter(|b: BookmarkView| b.has_tag(tag_name@))
                    =~= Seq::<BookmarkView>::empty());
            } else {
                assert(self@.rows.subrange(0, 0).filter(
                    |b: BookmarkView| b.has_tag(tag_name@) && visible(b),
                ) =~= Seq::<BookmarkView>::empty());
            }
        }
        while i < n
            invariant
                self.wf(),
                i <= n,
                n == self@.rows.len(),
                private_query == is_private_tag(tag_name@),
                out.deep_view() == (if private_query {
                    self@.rows.subrange(0, i as int).filter(
                        |b: BookmarkView| b.has_tag(tag_name@),
                    )
                } else {
                    self@.rows.subrange(0, i as int).filter(
                        |b: BookmarkView| b.has_tag(tag_name@) && visible(b),
                    )
                }),
            decreases n - i,
        {
            let ghost pre = self@.rows.subrange(0, i as int);
            let row = self.bookmark_at(i);
            let has = tags_contain(&row.tags, tag_name);
            let keep = if private_query {
                has
            } else {
                has && !crate::store::has_private_tag(row)
            };
            if keep {
                let ghost out0 = out;
                let b = self.bookmark_at(i).duplicate();
                let ghost bg = b;
                out.push(b);
                proof {
                    lemma_vec_deep_view_push(out0, out, bg);
                }
            }
            i = i + 1;
            proof {
                if private_query {
                    lemma_filter_push(
                        pre,
                        self@.rows[i - 1],
                        |b: BookmarkView| b.has_tag(tag_name@),
                    );
                } else {
                    lemma_filter_push(
                        pre,
                        self@.rows[i - 1],
                        |b: BookmarkView| b.has_tag(tag_name@) && visible(b),
                    );
                }
                assert(self@.rows.subrange(0, i as int) =~= pre.push(self@.rows[i - 1]));
            }
        }
        proof {
            assert(self@.rows.subrange(0, n as int) =~= self@.rows);
        }
        sort_listing(out, false)
    }

    /// One page of the visible bookmarks. The page number and size come
    /// from the request (defaults: first page, 200 per page); the sort
    /// expression `creation_time ASC` lists oldest first, anything else
    /// newest first.
    pub fn get_page(&self, page: &Page) -> (r: Vec<Bookmark>)
        requires
            self.wf(),
        ensures
            exists|full: Seq<BookmarkView>|
                {
                    &&& #[trigger] arranged(visible_rows(self@.rows), full, page_sort_asc(page))
                    &&& ({
                        let start = spec_min(page_limit(page) * page_number(page), full.len() as int);
                        let end = spec_min(start + page_limit(page), full.len() as int);
                        r.deep_view() == full.subrange(start, end)
                    })
                },
    {
        let p: usize = match page.p {
            Some(v) => v,
            None => 0,
        };
        let limit: usize = match page.limit {
            Some(v) => v,
            None => 200,
        };
        let asc = match &page.sort {
            Some(s) => str_eq(s.as_str(), "creation_time ASC"),
            None => false,
        };
        let vis = self.visible_bookmarks();
        let full = sort_listing(vis, asc);
        let ghost fullv = full.deep_view();
        let n = full.len();
        let start: usize = match limit.checked_mul(p) {
            Some(w) => {
                if w >= n {
                    n
                } else {
                    w
                }
            },
            None => n,
        };
        let end: usize = if n - start < limit {
            n
        } else {
            start + limit
        };
        proof {
            assert(start as int == spec_min(limit as int * p as int, fullv.len() as int));
            assert(end as int == spec_min(start as int + limit as int, fullv.len() as int));
        }
        let mut out: Vec<Bookmark> = Vec::new();
        let mut i: usize = start;
        proof {
            assert(out.deep_view() =~= fullv.subrange(start as int, start as int));
        }
        while i < end
            invariant
                start <= i <= end,
                end <= full.len(),
                fullv == full.deep_view(),
                out.deep_view() == fullv.subrange(start as int, i as int),
            decreases end - i,
        {
            let ghost out0 = out;
            let b = full[i].duplicate();
            let ghost bg = b;
            out.push(b);
            i = i + 1;
            proof {
                lemma_vec_deep_view_push(out0, out, bg);
                lemma_vec_deep_view_index(full, i - 1);
                assert(out.deep_view() =~= fullv.subrange(start as int, i as int));
            }
        }
        proof {
            assert(asc == page_sort_asc(page));
            assert(p as int == page_number(page));
            assert(limit as int == page_limit(page));
            assert(arranged(visible_rows(self@.rows), fullv, page_sort_asc(page)));
            assert(out.deep_view() == fullv.subrange(start as int, end as int));
            assert(start as int == spec_min(
                page_limit(page) * page_number(page),
                fullv.len() as int,
            ));
            assert(end as int == spec_min(start as int + page_limit(page), fullv.len() as int));
        }
        out
    }
}

/// The smaller of two mathematical integers.
pub open spec fn spec_min(a: int, b: int) -> int {
    if a < b {
        a
    } else {
        b
    }
}

/// Whether a page request asks for the ascending listing.
pub open spec fn page_sort_asc(page: &Page) -> bool {
    match page.sort {
        Some(ref s) => s@ == "creation_time ASC"@,
        None => false,
    }
}

/// The page number a request asks for; the first page when absent.
pub open spec fn page_number(page: &Page) -> int {
    match page.p {
        Some(v) => v as int,
        None => 0,
    }
}

/// The page size a request asks for; 200 when absent.
pub open spec fn page_limit(page: &Page) -> int {
    match page.limit {
        Some(v) => v as int,
        None => 200,
    }
}

/// How many visible bookmarks carry the tag.
pub open spec fn vis_tag_count(rows: Seq<BookmarkView>, t: Seq<char>) -> nat {
    rows.filter(|b: BookmarkView| visible(b) && b.has_tag(t)).len()
}

/// Whether some visible bookmark carries the tag: exactly the tags the
/// directory lists.
pub open spec fn tag_listed(rows: Seq<BookmarkView>, t: Seq<char>) -> bool {
    exists|i: int| 0 <= i < rows.len() && visible(#[trigger] rows[i]) && rows[i].has_tag(t)
}

/// Whether the directory names the tag.
pub open spec fn directory_has(out: Seq<crate::types::TagView>, t: Seq<char>) -> bool {
    exists|k: int| 0 <= k < out.len() && (#[trigger] out[k]).tag_name == t
}

/// A directory extended by one entry keeps its names and gains the new one.
proof fn lemma_directory_push(
    out0: Seq<crate::types::TagView>,
    out: Seq<crate::types::TagView>,
    e: crate::types::TagView,
)
    requires
        out == out0.push(e),
    ensures
        forall|t: Seq<char>| #[trigger] directory_has(out0, t) ==> directory_has(out, t),
        directory_has(out, e.tag_name),
        forall|t: Seq<char>|
            #[trigger] directory_has(out, t) ==> directory_has(out0, t) || t == e.tag_name,
{
    assert(out[out.len() - 1] == e);
    assert forall|t: Seq<char>| #[trigger] directory_has(out0, t) implies directory_has(
        out,
        t,
    ) by {
        let w = choose|w: int| 0 <= w < out0.len() && (#[trigger] out0[w]).tag_name == t;
        assert(out[w] == out0[w]);
    }
    assert forall|t: Seq<char>| #[trigger] directory_has(out, t) implies directory_has(out0, t)
        || t == e.tag_name by {
        let w = choose|w: int| 0 <= w < out.len() && (#[trigger] out[w]).tag_name == t;
        if w < out.len() - 1 {
            assert(out[w] == out0[w]);
        }
    }
}

/// Whether the directory built so far already names the tag.
fn names_contain(out: &Vec<Tag>, t: &str) -> (r: bool)
    ensures
        r == directory_has(out.deep_view(), t@),
{
    let n = out.len();
    let mut i: usize = 0;
    while i < n
        invariant
            i <= n,
            n == out.len(),
            forall|k: int| 0 <= k < i ==> (#[trigger] out.deep_view()[k]).tag_name != t@,
        decreases n - i,
    {
        if str_eq(out[i].tag_name.as_str(), t) {
            proof {
                lemma_vec_deep_view_index(*out, i as int);
                assert(out.deep_view()[i as int].tag_name == t@);
            }
            return true;
        }
        i = i + 1;
        proof {
            lemma_vec_deep_view_index(*out, i - 1);
        }
    }
    proof {
        if directory_has(out.deep_view(), t@) {
            let w = choose|w: int|
                0 <= w < out.deep_view().len() && (#[trigger] out.deep_view()[w]).tag_name == t@;
        }
    }
    false
}

impl Db {
    /// How many visible bookmarks carry the given tag.
    pub fn count_with_tag(&self, t: &str) -> (c: u64)
        requires
            self.wf(),
        ensures
            c == vis_tag_count(self@.rows, t@),
    {
        let n = self.len();
        let mut count: u64 = 0;
        let mut i: usize = 0;
        proof {
            assert(self@.rows.subrange(0, 0).filter(
                |b: BookmarkView| visible(b) && b.has_tag(t@),
            ) =~= Seq::<BookmarkView>::empty());
        }
        while i < n
            invariant
                self.wf(),
                i <= n,
                n == self@.rows.len(),
                count == self@.rows.subrange(0, i as int).filter(
                    |b: BookmarkView| visible(b) && b.has_tag(t@),
                ).len(),
                count <= i,
            decreases n - i,
        {
            let ghost pre = self@.rows.subrange(0, i as int);
            let row = self.bookmark_at(i);
            let hit = !crate::store::has_private_tag(row) && tags_contain(&row.tags, t);
            proof {
                lemma_filter_push(
                    pre,
                    self@.rows[i as int],
                    |b: BookmarkView| visible(b) && b.has_tag(t@),
                );
                assert(self@.rows.subrange(0, i as int + 1) =~= pre.push(self@.rows[i as int]));
                pre.lemma_filter_len(|b: BookmarkView| visible(b) && b.has_tag(t@));
            }
            if hit {
                count = count + 1;
            }
            i = i + 1;
        }
        proof {
            assert(self@.rows.subrange(0, n as int) =~= self@.rows);
        }
        count
    }

    /// The tag directory: every tag name carried by some visible bookmark,
    /// each once, with the number of visible bookmarks carrying it. Tags
    /// used only on private bookmarks do not appear.
    pub fn list_tags(&self) -> (r: Vec<Tag>)
        requires
            self.wf(),
        ensures
            forall|a: int, b: int|
                0 <= a < b < r.deep_view().len() ==> r.deep_view()[a].tag_name
                    != r.deep_view()[b].tag_name,
            forall|k: int|
                0 <= k < r.deep_view().len() ==> tag_listed(
                    self@.rows,
                    (#[trigger] r.deep_view()[k]).tag_name,
                ) && r.deep_view()[k].bookmarks_count == vis_tag_count(
                    self@.rows,
                    r.deep_view()[k].tag_name,
                ),
            forall|t: Seq<char>|
                #[trigger] tag_listed(self@.rows, t) ==> directory_has(r.deep_view(), t),
    {
        let n = self.len();
        let mut out: Vec<Tag> = Vec::new();
        let mut i: usize = 0;
        while i < n
            invariant
                self.wf(),
                i <= n,
                n == self@.rows.len(),
                forall|a: int, b: int|
                    0 <= a < b < out.deep_view().len() ==> out.deep_view()[a].tag_name
                        != out.deep_view()[b].tag_name,
                forall|k: int|
                    0 <= k < out.deep_view().len() ==> tag_listed(
                        self@.rows,
                        (#[trigger] out.deep_view()[k]).tag_name,
                    ) && out.deep_view()[k].bookmarks_count == vis_tag_count(
                        self@.rows,
                        out.deep_view()[k].tag_name,
                    ),
                forall|i2: int, k2: int|
                    #![trigger self@.rows[i2].tags[k2]]
                    0 <= i2 < i && visible(self@.rows[i2]) && 0 <= k2 < self@.rows[i2].tags.len()
                        ==> directory_has(out.deep_view(), self@.rows[i2].tags[k2]),
            decreases n - i,
        {
            let row_private = crate::store::has_private_tag(self.bookmark_at(i));
            if !row_private {
                let tcount = self.bookmark_at(i).tags.len();
                let mut k: usize = 0;
                while k < tcount
                    invariant
                        self.wf(),
                        i < n,
                        n == self@.rows.len(),
                        !is_private(self@.rows[i as int]),
                        k <= tcount,
                        tcount == self@.rows[i as int].tags.len(),
                        forall|a: int, b: int|
                            0 <= a < b < out.deep_view().len() ==> out.deep_view()[a].tag_name
                                != out.deep_view()[b].tag_name,
                        forall|k3: int|
                            0 <= k3 < out.deep_view().len() ==> tag_listed(
                                self@.rows,
                                (#[trigger] out.deep_view()[k3]).tag_name,
                            ) && out.deep_view()[k3].bookmarks_count == vis_tag_count(
                                self@.rows,
                                out.deep_view()[k3].tag_name,
                            ),
                        forall|i2: int, k2: int|
                            #![trigger self@.rows[i2].tags[k2]]
                            0 <= i2 < i && visible(self@.rows[i2]) && 0 <= k2
                                < self@.rows[i2].tags.len() ==> directory_has(
                                out.deep_view(),
                                self@.rows[i2].tags[k2],
                            ),
                        forall|k2: int|
                            #![trigger self@.rows[i as int].tags[k2]]
                            0 <= k2 < k ==> directory_has(
                                out.deep_view(),
                                self@.rows[i as int].tags[k2],
                            ),
                    decreases tcount - k,
                {
                    let row_ref = self.bookmark_at(i);
                    let t = row_ref.tags[k].clone();
                    proof {
                        lemma_vec_deep_view_index(row_ref.tags, k as int);
                        assert(t@ == self@.rows[i as int].tags[k as int]);
                    }
                    let seen = names_contain(&out, t.as_str());
                    if !seen {
                        let c = self.count_with_tag(t.as_str());
                        let ghost out0 = out;
                        let entry = Tag { tag_name: t, bookmarks_count: c };
                        let ghost eg = entry;
                        out.push(entry);
                        proof {
                            lemma_vec_deep_view_push(out0, out, eg);
                            lemma_directory_push(out0.deep_view(), out.deep_view(), eg@);
                            assert(self@.rows[i as int].has_tag(eg@.tag_name));
                            assert(tag_listed(self@.rows, eg@.tag_name));
                            assert forall|a: int, b: int|
                                0 <= a < b < out.deep_view().len() implies
                                out.deep_view()[a].tag_name != out.deep_view()[b].tag_name by {
                                if b < out.deep_view().len() - 1 {
                                    assert(out.deep_view()[a] == out0.deep_view()[a]);
                                    assert(out.deep_view()[b] == out0.deep_view()[b]);
                                } else {
                                    assert(out.deep_view()[a] == out0.deep_view()[a]);
                                    assert(out.deep_view()[b] == eg@);
                                    if out0.deep_view()[a].tag_name == eg@.tag_name {
                                        assert(directory_has(
                                            out0.deep_view(),
                                            eg@.tag_name,
                                        ));
                                    }
                                }
                            }
                            assert forall|k3: int|
                                0 <= k3 < out.deep_view().len() implies tag_listed(
                                self@.rows,
                                (#[trigger] out.deep_view()[k3]).tag_name,
                            ) && out.deep_view()[k3].bookmarks_count == vis_tag_count(
                                self@.rows,
                                out.deep_view()[k3].tag_name,
                            ) by {
                                if k3 < out.deep_view().len() - 1 {
                                    assert(out.deep_view()[k3] == out0.deep_view()[k3]);
                                } else {
                                    assert(out.deep_view()[k3] == eg@);
                                }
                            }
                        }
                    }
                    k = k + 1;
                }
            }
            i = i + 1;
            proof {
                assert forall|i2: int, k2: int|
                    #![trigger self@.rows[i2].tags[k2]]
                    0 <= i2 < i && visible(self@.rows[i2]) && 0 <= k2
                        < self@.rows[i2].tags.len() implies directory_has(
                    out.deep_view(),
                    self@.rows[i2].tags[k2],
                ) by {
                    if i2 == i - 1 {
                        assert(!row_private);
                    }
                }
            }
        }
        proof {
            assert forall|t: Seq<char>| #[trigger] tag_listed(self@.rows, t) implies
                directory_has(out.deep_view(), t) by {
                let i2 = choose|i2: int|
                    0 <= i2 < self@.rows.len() && visible(#[trigger] self@.rows[i2])
                        && self@.rows[i2].has_tag(t);
                let k2 = self@.rows[i2].tags.lemma_contains_to_index(t);
            }
        }
        out
    }
}

/// Filtering never increases how often a value occurs.
pub proof fn lemma_filter_count_le(
    rows: Seq<BookmarkView>,
    p: spec_fn(BookmarkView) -> bool,
    x: BookmarkView,
)
    ensures
        rows.filter(p).to_multiset().count(x) <= rows.to_multiset().count(x),
    decreases rows.len(),
{
    broadcast use vstd::seq_lib::group_to_multiset_ensures;

    reveal(Seq::filter);
    if rows.len() > 0 {
        let dl = rows.drop_last();
        lemma_filter_count_le(dl, p, x);
        assert(rows =~= dl.push(rows.last()));
        vstd::seq_lib::to_multiset_build(dl, rows.last());
        if p(rows.last()) {
            assert(rows.filter(p) == dl.filter(p).push(rows.last()));
            vstd::seq_lib::to_multiset_build(dl.filter(p), rows.last());
        }
    }
}

/// A value that sits at two positions occurs at least twice.
pub proof fn lemma_two_positions_count(out: Seq<BookmarkView>, i: int, j: int)
    requires
        0 <= i < j < out.len(),
        out[i] == out[j],
    ensures
        out.to_multiset().count(out[i]) >= 2,
{
    broadcast use vstd::seq_lib::group_to_multiset_ensures;

    let rest = out.remove(i);
    vstd::seq_lib::to_multiset_remove(out, i);
    out.remove_ensures(i);
    assert(rest[j - 1] == out[j]);
    assert(rest.contains(out[j]));
    assert(rest.to_multiset().count(out[i]) > 0);
}

/// Rearranging bookmarks with pairwise distinct ids keeps the ids
/// pairwise distinct.
pub proof fn lemma_arranged_distinct_ids(base: Seq<BookmarkView>, out: Seq<BookmarkView>)
    requires
        out.to_multiset() == base.to_multiset(),
        forall|i: int, j: int| 0 <= i < j < base.len() ==> base[i].id != base[j].id,
    ensures
        forall|i: int, j: int| 0 <= i < j < out.len() ==> out[i].id != out[j].id,
{
    broadcast use vstd::seq_lib::group_to_multiset_ensures;

    assert forall|i: int, j: int| 0 <= i < j < out.len() implies out[i].id != out[j].id by {
        if out[i].id == out[j].id {
            if out[i] == out[j] {
                lemma_two_positions_count(out, i, j);
                assert(base.to_multiset().count(out[i]) >= 2);
                assert(base.contains(out[i]));
                let a = base.lemma_contains_to_index(out[i]);
                let rest = base.remove(a);
                vstd::seq_lib::to_multiset_remove(base, a);
                assert(rest.to_multiset().count(out[i]) > 0);
                assert(rest.contains(out[i]));
                let b2 = rest.lemma_contains_to_index(out[i]);
                base.remove_ensures(a);
                if b2 < a {
                    assert(base[b2] == out[i]);
                } else {
                    assert(base[b2 + 1] == out[i]);
                }
            } else {
                assert(out.to_multiset().count(out[i]) > 0) by {
                    assert(out.contains(out[i]));
                }
                assert(out.to_multiset().count(out[j]) > 0) by {
                    assert(out.contains(out[j]));
                }
                assert(base.contains(out[i]));
                assert(base.contains(out[j]));
                let a = base.lemma_contains_to_index(out[i]);
                let b2 = base.lemma_contains_to_index(out[j]);
            }
        }
    }
}

/// Two sequences in the listing order with the same bookmarks and pairwise
/// distinct ids are the same sequence: the listing order leaves no choice.
pub proof fn lemma_listing_unique(o1: Seq<BookmarkView>, o2: Seq<BookmarkView>, asc: bool)
    requires
        sorted_listing(o1, asc),
        sorted_listing(o2, asc),
        o1.to_multiset() == o2.to_multiset(),
        forall|i: int, j: int| 0 <= i < j < o1.len() ==> o1[i].id != o1[j].id,
    ensures
        o1 == o2,
    decreases o1.len(),
{
    broadcast use vstd::seq_lib::group_to_multiset_ensures;

    assert(o1.to_multiset().len() == o1.len());
    assert(o2.to_multiset().len() == o2.len());
    if o1.len() == 0 {
        assert(o1 =~= o2);
    } else {
        assert(o1.to_multiset().count(o1[0]) > 0) by {
            assert(o1.contains(o1[0]));
        }
        assert(o2.contains(o1[0]));
        assert(o2.to_multiset().count(o2[0]) > 0) by {
            assert(o2.contains(o2[0]));
        }
        assert(o1.contains(o2[0]));
        let k = o1.lemma_contains_to_index(o2[0]);
        let m = o2.lemma_contains_to_index(o1[0]);
        if k > 0 {
            assert(listing_leq(asc, o1[0], o1[k]));
        }
        if m > 0 {
            assert(listing_leq(asc, o2[0], o2[m]));
        }
        assert(listing_leq(asc, o1[0], o2[0]));
        assert(listing_leq(asc, o2[0], o1[0]));
        assert(o1[0].id == o2[0].id);
        assert(o1[k] == o2[0]);
        if k > 0 {
            assert(o1[0].id != o1[k].id);
        }
        assert(o1[0] == o2[0]);
        let r1 = o1.remove(0);
        let r2 = o2.remove(0);
        vstd::seq_lib::to_multiset_remove(o1, 0);
        vstd::seq_lib::to_multiset_remove(o2, 0);
        o1.remove_ensures(0);
        o2.remove_ensures(0);
        assert forall|i: int, j: int| 0 <= i < j < r1.len() implies r1[i].id != r1[j].id by {
            assert(r1[i] == o1[i + 1]);
            assert(r1[j] == o1[j + 1]);
        }
        assert(sorted_listing(r1, asc)) by {
            assert forall|i: int, j: int| 0 <= i < j < r1.len() implies listing_leq(
                asc,
                r1[i],
                r1[j],
            ) by {
                assert(r1[i] == o1[i + 1]);
                assert(r1[j] == o1[j + 1]);
            }
        }
        assert(sorted_listing(r2, asc)) by {
            assert forall|i: int, j: int| 0 <= i < j < r2.len() implies listing_leq(
                asc,
                r2[i],
                r2[j],
            ) by {
                assert(r2[i] == o2[i + 1]);
                assert(r2[j] == o2[j + 1]);
            }
        }
        lemma_listing_unique(r1, r2, asc);
        assert forall|i: int| 0 <= i < o1.len() implies o1[i] == o2[i] by {
            if i > 0 {
                assert(r1[i - 1] == o1[i]);
                assert(r2[i - 1] == o2[i]);
            }
        }
        assert(o1 =~= o2);
    }
}

} // verus!
