//! The engine's laws: properties that relate several operations, stated
//! over the store model and proved once and for all.

use vstd::prelude::*;

use crate::listing::{
    arranged, lemma_arranged_distinct_ids, lemma_filter_count_le, lemma_listing_unique,
    lemma_two_positions_count, visible_rows,
};
use crate::search::{asks_private, has_all_tags, intersect_rows};
use crate::store::{insert_one_next, insert_one_value, remove_id, visible, DbView};
use crate::tags::{
    add_tag, add_tags, lemma_add_tag_props, lemma_add_tags_props, norm_tags, rename_in_tags,
    lemma_rename_in_tags_props, lemma_norm_tags_wf,
};
use crate::text::lower;
use crate::types::{tag_wf, tags_wf, BookmarkView};

verus! {

/// The names `done`, `todo` and `dup` are well-formed stored tag names.
pub proof fn lemma_literal_tags_wf()
    ensures
        tag_wf("done"@),
        tag_wf("todo"@),
        tag_wf("dup"@),
{
    reveal_strlit("done");
    reveal_strlit("todo");
    reveal_strlit("dup");
    assert(lower("done"@) =~= "done"@);
    assert(lower("todo"@) =~= "todo"@);
    assert(lower("dup"@) =~= "dup"@);
}

/// Inserting a fresh bookmark and fetching it by the id it was given
/// returns it unchanged: the url, the (defaulted) name, the description
/// and the normalized tag set all round-trip.
pub proof fn lemma_insert_then_get(
    db: DbView,
    name: Seq<char>,
    url: Seq<char>,
    desc: Seq<char>,
    tags: Seq<Seq<char>>,
    now: int,
)
    requires
        db.wf(),
        url.len() > 0,
        !db.has_url(url),
        db.next_id < i64::MAX,
    ensures
        ({
            let db1 = insert_one_next(db, name, url, desc, tags, now);
            let got = db1.row_by_id(db.next_id);
            &&& db1.has_id(db.next_id)
            &&& got == insert_one_value(db, name, url, desc, tags, now)
            &&& got.url == url
            &&& got.name == (if name.len() == 0 {
                url
            } else {
                name
            })
            &&& got.description == desc
            &&& got.creation_time == now
            &&& got.tags == add_tags(Seq::empty(), norm_tags(tags))
        }),
{
    let db1 = insert_one_next(db, name, url, desc, tags, now);
    let row = insert_one_value(db, name, url, desc, tags, now);
    assert(db1.rows == db.rows.push(row));
    assert(db1.rows[db.rows.len() as int] == row);
    assert(db1.has_id(db.next_id));
    let i = db1.idx_of_id(db.next_id);
    assert(0 <= i < db1.rows.len() && db1.rows[i].id == db.next_id);
    if i < db.rows.len() {
        assert(db1.rows[i] == db.rows[i]);
        assert(db.rows[i].id < db.next_id);
    }
    assert(i == db.rows.len());
}

/// Inserting a url that already exists returns the original bookmark's id
/// marked `dup`, and the newly requested tags are attached to the original:
/// afterwards, every requested name other than `todo` is on the stored row,
/// and `todo` too as long as `done` is not among the requested names.
pub proof fn lemma_insert_duplicate(
    db: DbView,
    name: Seq<char>,
    url: Seq<char>,
    desc: Seq<char>,
    tags: Seq<Seq<char>>,
    now: int,
)
    requires
        db.wf(),
        url.len() > 0,
        db.has_url(url),
    ensures
        ({
            let db1 = insert_one_next(db, name, url, desc, tags, now);
            let ret = insert_one_value(db, name, url, desc, tags, now);
            let orig = db.rows[db.idx_of_url(url)];
            let stored = db1.row_by_id(orig.id);
            &&& ret.id == orig.id
            &&& ret.has_tag("dup"@)
            &&& db1.has_id(orig.id)
            &&& forall|t: Seq<char>|
                norm_tags(tags).contains(t) && t != "todo"@ ==> #[trigger] stored.has_tag(t)
            &&& !norm_tags(tags).contains("done"@) ==> forall|t: Seq<char>|
                norm_tags(tags).contains(t) ==> #[trigger] stored.has_tag(t)
        }),
{
    let db1 = insert_one_next(db, name, url, desc, tags, now);
    let ret = insert_one_value(db, name, url, desc, tags, now);
    let i = db.idx_of_url(url);
    let orig = db.rows[i];
    let row2 = BookmarkView { tags: add_tags(orig.tags, norm_tags(tags)), ..orig };
    assert(db1.rows == db.rows.update(i, row2));
    assert(orig.row_wf());
    lemma_norm_tags_wf(tags);
    lemma_add_tags_props(orig.tags, norm_tags(tags));
    assert(ret.tags[ret.tags.len() - 1] == "dup"@ || row2.tags.contains("dup"@)) by {
        if !row2.tags.contains("dup"@) {
            assert(ret.tags == row2.tags.push("dup"@));
        }
    }
    assert(ret.has_tag("dup"@)) by {
        if !row2.tags.contains("dup"@) {
            assert(ret.tags[ret.tags.len() - 1] == "dup"@);
        } else {
            let k = row2.tags.lemma_contains_to_index("dup"@);
            assert(ret.tags[k] == "dup"@);
        }
    }
    assert(db1.rows[i].id == orig.id);
    assert(db1.has_id(orig.id));
    let j = db1.idx_of_id(orig.id);
    assert(0 <= j < db1.rows.len() && db1.rows[j].id == orig.id);
    if j != i {
        assert(db1.rows[j] == db.rows[j]);
        assert(db.rows[j].id != db.rows[i].id);
    }
    assert(j == i);
    assert(db1.row_by_id(orig.id) == row2);
}

/// Inserting the `done` tag removes any `todo` tag in the same step: the
/// resulting list carries `done` and never `todo`.
pub proof fn lemma_done_removes_todo(tags: Seq<Seq<char>>)
    requires
        tags_wf(tags),
    ensures
        add_tag(tags, "done"@).contains("done"@),
        !add_tag(tags, "done"@).contains("todo"@),
{
    lemma_literal_tags_wf();
    lemma_add_tag_props(tags, "done"@);
}

/// Deleting a bookmark removes it everywhere: no row of the store keeps
/// its id, so no listing, tag query or search over the new store can
/// return it; and deleting the same id again changes nothing, which the
/// deletion reports as `NotFound`.
pub proof fn lemma_delete_removes(db: DbView, id: int)
    requires
        db.wf(),
    ensures
        !remove_id(db, id).has_id(id),
        forall|j: int|
            0 <= j < remove_id(db, id).rows.len() ==> (#[trigger] remove_id(
                db,
                id,
            ).rows[j]).id != id,
        remove_id(remove_id(db, id), id) == remove_id(db, id),
{
    let db1 = remove_id(db, id);
    if db.has_id(id) {
        let i = db.idx_of_id(id);
        assert(0 <= i < db.rows.len() && db.rows[i].id == id);
        db.rows.remove_ensures(i);
        assert forall|j: int| 0 <= j < db1.rows.len() implies (#[trigger] db1.rows[j]).id
            != id by {
            if j < i {
                assert(db1.rows[j] == db.rows[j]);
                db.lemma_id_unique_hint(j, i);
            } else {
                assert(db1.rows[j] == db.rows[j + 1]);
                db.lemma_id_unique_hint(j + 1, i);
            }
        }
        if db1.has_id(id) {
            let k = choose|k: int|
                0 <= k < db1.rows.len() && (#[trigger] db1.rows[k]).id == id;
        }
    } else {
        assert(db1 == db);
        assert forall|j: int| 0 <= j < db1.rows.len() implies (#[trigger] db1.rows[j]).id
            != id by {
            if db1.rows[j].id == id {
                assert(db.has_id(id));
            }
        }
    }
    assert(!db1.has_id(id));
}

/// Renaming a tag relabels it everywhere: afterwards no row carries the
/// old name, and every row that carried it now carries the new one.
pub proof fn lemma_rename_everywhere(db: DbView, db1: DbView, o: Seq<char>, n: Seq<char>)
    requires
        db.wf(),
        tag_wf(n),
        o != n,
        db1.rows.len() == db.rows.len(),
        forall|j: int|
            0 <= j < db.rows.len() ==> #[trigger] db1.rows[j] == (BookmarkView {
                tags: rename_in_tags(db.rows[j].tags, o, n),
                ..db.rows[j]
            }),
    ensures
        forall|j: int| 0 <= j < db1.rows.len() ==> !(#[trigger] db1.rows[j]).has_tag(o),
        forall|j: int|
            0 <= j < db.rows.len() ==> ((#[trigger] db.rows[j]).has_tag(o) ==> db1.rows[j].has_tag(
                n,
            )),
{
    assert forall|j: int| 0 <= j < db1.rows.len() implies !(#[trigger] db1.rows[j]).has_tag(o)
        && (db.rows[j].has_tag(o) ==> db1.rows[j].has_tag(n)) by {
        assert(db.rows[j].row_wf());
        lemma_rename_in_tags_props(db.rows[j].tags, o, n);
    }
}

/// Every bookmark on any page of the default listing is visible: a
/// bookmark carrying a private tag appears on no page, whatever the page
/// number or size; and the visible count agrees with the full listing.
pub proof fn lemma_pages_visible(
    rows: Seq<BookmarkView>,
    full: Seq<BookmarkView>,
    asc: bool,
    start: int,
    end: int,
)
    requires
        arranged(visible_rows(rows), full, asc),
        0 <= start <= end <= full.len(),
    ensures
        full.len() == visible_rows(rows).len(),
        forall|k: int| start <= k < end ==> visible(#[trigger] full.subrange(start, end)[k - start]),
        forall|k: int| 0 <= k < full.len() ==> visible(#[trigger] full[k]),
{
    broadcast use vstd::seq_lib::group_to_multiset_ensures;

    let vis = visible_rows(rows);
    assert(full.to_multiset().len() == vis.to_multiset().len());
    assert forall|k: int| 0 <= k < full.len() implies visible(#[trigger] full[k]) by {
        assert(full.to_multiset().contains(full[k])) by {
            assert(full.contains(full[k]));
        }
        assert(vis.to_multiset().count(full[k]) > 0);
        assert(vis.contains(full[k]));
        let j = vis.lemma_contains_to_index(full[k]);
        rows.lemma_filter_pred(|b: BookmarkView| visible(b), j);
    }
    assert forall|k: int| start <= k < end implies visible(
        #[trigger] full.subrange(start, end)[k - start],
    ) by {
        assert(full.subrange(start, end)[k - start] == full[k]);
    }
}

/// A tag-intersection query answers exactly: everything returned carries
/// every requested tag (and is visible unless a private tag was asked
/// for), and every such bookmark of the store is returned.
pub proof fn lemma_intersection_exact(
    rows: Seq<BookmarkView>,
    tags: Seq<Seq<char>>,
    out: Seq<BookmarkView>,
)
    requires
        arranged(intersect_rows(rows, tags), out, false),
    ensures
        forall|k: int|
            0 <= k < out.len() ==> has_all_tags(#[trigger] out[k], tags) && (asks_private(tags)
                || visible(out[k])),
        forall|j: int|
            0 <= j < rows.len() && has_all_tags(#[trigger] rows[j], tags) && (asks_private(tags)
                || visible(rows[j])) ==> out.contains(rows[j]),
{
    broadcast use vstd::seq_lib::group_to_multiset_ensures;

    let base = intersect_rows(rows, tags);
    assert forall|k: int| 0 <= k < out.len() implies has_all_tags(#[trigger] out[k], tags) && (
    asks_private(tags) || visible(out[k])) by {
        assert(out.to_multiset().contains(out[k])) by {
            assert(out.contains(out[k]));
        }
        assert(base.to_multiset().count(out[k]) > 0);
        assert(base.contains(out[k]));
        let j = base.lemma_contains_to_index(out[k]);
        rows.lemma_filter_pred(
            |b: BookmarkView| has_all_tags(b, tags) && (asks_private(tags) || visible(b)),
            j,
        );
    }
    assert forall|j: int|
        0 <= j < rows.len() && has_all_tags(#[trigger] rows[j], tags) && (asks_private(tags)
            || visible(rows[j])) implies out.contains(rows[j]) by {
        rows.lemma_filter_contains(
            |b: BookmarkView| has_all_tags(b, tags) && (asks_private(tags) || visible(b)),
            j,
        );
        assert(base.contains(rows[j]));
        assert(base.to_multiset().count(rows[j]) > 0);
        assert(out.to_multiset().count(rows[j]) > 0);
        assert(out.contains(rows[j]));
    }
}

/// The default listing is fully determined: any two sequences that both
/// arrange a well-formed store's visible bookmarks in the listing order
/// are the same sequence, so pagination is unambiguous.
pub proof fn lemma_listing_determined(
    db: DbView,
    o1: Seq<BookmarkView>,
    o2: Seq<BookmarkView>,
    asc: bool,
)
    requires
        db.wf(),
        arranged(visible_rows(db.rows), o1, asc),
        arranged(visible_rows(db.rows), o2, asc),
    ensures
        o1 == o2,
{
    broadcast use vstd::seq_lib::group_to_multiset_ensures;

    let base = visible_rows(db.rows);
    assert forall|i: int, j: int| 0 <= i < j < base.len() implies base[i].id != base[j].id by {
        if base[i].id == base[j].id {
            if base[i] == base[j] {
                lemma_two_positions_count(base, i, j);
                lemma_filter_count_le(db.rows, |b: BookmarkView| visible(b), base[i]);
                assert(db.rows.to_multiset().count(base[i]) >= 2);
                let a = db.rows.lemma_contains_to_index(base[i]) ;
                let rest = db.rows.remove(a);
                vstd::seq_lib::to_multiset_remove(db.rows, a);
                assert(rest.to_multiset().count(base[i]) > 0);
                assert(rest.contains(base[i]));
                let b2 = rest.lemma_contains_to_index(base[i]);
                db.rows.remove_ensures(a);
                if b2 < a {
                    assert(db.rows[b2] == base[i]);
                    db.lemma_id_unique(b2, a);
                } else {
                    assert(db.rows[b2 + 1] == base[i]);
                    db.lemma_id_unique(b2 + 1, a);
                }
            } else {
                lemma_filter_count_le(db.rows, |b: BookmarkView| visible(b), base[i]);
                lemma_filter_count_le(db.rows, |b: BookmarkView| visible(b), base[j]);
                assert(base.to_multiset().count(base[i]) > 0) by {
                    assert(base.contains(base[i]));
                }
                assert(base.to_multiset().count(base[j]) > 0) by {
                    assert(base.contains(base[j]));
                }
                assert(db.rows.contains(base[i]));
                assert(db.rows.contains(base[j]));
                let a = db.rows.lemma_contains_to_index(base[i]);
                let b2 = db.rows.lemma_contains_to_index(base[j]);
                assert(a != b2);
                db.lemma_id_unique_hint(a, b2);
            }
        }
    }
    lemma_arranged_distinct_ids(base, o1);
    lemma_listing_unique(o1, o2, asc);
}

} // verus!
