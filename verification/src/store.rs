//! The bookmark store: the engine state, its invariant, and point operations.
//!
//! All state is held in a [`Db`] value. Every mutating operation keeps the
//! store invariant: ids are unique and positive, urls are unique and
//! non-empty, tag lists hold non-empty lowercase names without duplicates.

use vstd::prelude::*;
use vstd::string::StringExecFns;

use crate::tags::{
    add_tag, add_tag_vec, add_tags, add_tags_vec, lemma_add_tag_props, lemma_add_tags_props,
    lemma_remove_value_props, lemma_rename_in_tags_props, norm_tags, norm_tags_vec,
    reconcile_tags, reconcile_tags_vec, remove_tag_vec, rename_in_tags, rename_tag_vec,
    tags_contain,
};
use crate::text::{lemma_lower_props, lower, lower_string, str_eq};
use crate::types::{
    lemma_vec_deep_view_index, lemma_vec_deep_view_push, lemma_vec_deep_view_remove,
    lemma_vec_deep_view_update, tag_wf, tags_wf, Bookmark, BookmarkView, StoreError,
};

verus! {

/// A tag name that marks a bookmark as private: `private` itself or any
/// name starting with it.
pub open spec fn is_private_tag(t: Seq<char>) -> bool {
    t.len() >= 7 && t[0] == 'p' && t[1] == 'r' && t[2] == 'i' && t[3] == 'v' && t[4] == 'a'
        && t[5] == 't' && t[6] == 'e'
}

/// A bookmark carrying a private tag is excluded from default listings.
pub open spec fn is_private(b: BookmarkView) -> bool {
    exists|i: int| 0 <= i < b.tags.len() && is_private_tag(#[trigger] b.tags[i])
}

/// Visible bookmarks appear in listings, counts and searches.
pub open spec fn visible(b: BookmarkView) -> bool {
    !is_private(b)
}

/// The mathematical value of a [`Db`].
pub ghost struct DbView {
    pub rows: Seq<BookmarkView>,
    pub favorites: Seq<Seq<char>>,
    pub next_id: int,
    pub local_offset: int,
}

impl DbView {
    /// The store invariant.
    pub open spec fn wf(self) -> bool {
        &&& 1 <= self.next_id <= i64::MAX
        &&& -86400 <= self.local_offset <= 86400
        &&& forall|i: int| 0 <= i < self.rows.len() ==> (#[trigger] self.rows[i]).row_wf()
        &&& forall|i: int| 0 <= i < self.rows.len() ==> (#[trigger] self.rows[i]).id < self.next_id
        &&& forall|i: int, j: int|
            0 <= i < j < self.rows.len() ==> self.rows[i].id != self.rows[j].id
        &&& forall|i: int, j: int|
            0 <= i < j < self.rows.len() ==> self.rows[i].url != self.rows[j].url
        &&& forall|i: int, j: int|
            0 <= i < j < self.favorites.len() ==> self.favorites[i] != self.favorites[j]
    }

    /// Whether some row has the given id.
    pub open spec fn has_id(self, id: int) -> bool {
        exists|i: int| 0 <= i < self.rows.len() && (#[trigger] self.rows[i]).id == id
    }

    /// Whether some row has the given url.
    pub open spec fn has_url(self, url: Seq<char>) -> bool {
        exists|i: int| 0 <= i < self.rows.len() && (#[trigger] self.rows[i]).url == url
    }

    /// The index of the row with the given id; meaningful when `has_id`.
    pub open spec fn idx_of_id(self, id: int) -> int {
        choose|i: int| 0 <= i < self.rows.len() && (#[trigger] self.rows[i]).id == id
    }

    /// The index of the row with the given url; meaningful when `has_url`.
    pub open spec fn idx_of_url(self, url: Seq<char>) -> int {
        choose|i: int| 0 <= i < self.rows.len() && (#[trigger] self.rows[i]).url == url
    }

    /// The row with the given id; meaningful when `has_id`.
    pub open spec fn row_by_id(self, id: int) -> BookmarkView {
        self.rows[self.idx_of_id(id)]
    }

    /// The row with the given url; meaningful when `has_url`.
    pub open spec fn row_by_url(self, url: Seq<char>) -> BookmarkView {
        self.rows[self.idx_of_url(url)]
    }

    /// In a well-formed store, row indices with equal ids coincide.
    pub proof fn lemma_id_unique(self, i: int, j: int)
        requires
            self.wf(),
            0 <= i < self.rows.len(),
            0 <= j < self.rows.len(),
            self.rows[i].id == self.rows[j].id,
        ensures
            i == j,
    {
    }

    /// In a well-formed store, row indices with equal urls coincide.
    pub proof fn lemma_url_unique(self, i: int, j: int)
        requires
            self.wf(),
            0 <= i < self.rows.len(),
            0 <= j < self.rows.len(),
            self.rows[i].url == self.rows[j].url,
        ensures
            i == j,
    {
    }

    /// Distinct rows of a well-formed store have distinct ids.
    pub proof fn lemma_id_unique_hint(self, j: int, i: int)
        requires
            self.wf(),
            0 <= j < self.rows.len(),
            0 <= i < self.rows.len(),
            j != i,
        ensures
            self.rows[j].id != self.rows[i].id,
    {
    }

    /// Distinct rows of a well-formed store have distinct urls.
    pub proof fn lemma_url_unique_hint(self, j: int, i: int)
        requires
            self.wf(),
            0 <= j < self.rows.len(),
            0 <= i < self.rows.len(),
            j != i,
        ensures
            self.rows[j].url != self.rows[i].url,
    {
    }
}

/// The outcome a batch deletion reports for the id at position `m`: the row
/// that stood under that id just before its deletion, or `NotFound`.
pub open spec fn delete_reported(
    db0: DbView,
    ids: Seq<i64>,
    m: int,
    r: Result<Bookmark, StoreError>,
) -> bool {
    let pre = delete_ids(db0, ids.subrange(0, m));
    match r {
        Ok(b) => pre.has_id(ids[m] as int) && b@ == pre.row_by_id(ids[m] as int),
        Err(e) => e == StoreError::NotFound && !pre.has_id(ids[m] as int),
    }
}

/// The bookmark store.
pub struct Db {
    bookmarks: Vec<Bookmark>,
    favorites: Vec<String>,
    next_id: i64,
    local_offset: i64,
}

impl View for Db {
    type V = DbView;

    closed spec fn view(&self) -> DbView {
        DbView {
            rows: self.bookmarks.deep_view(),
            favorites: self.favorites.deep_view(),
            next_id: self.next_id as int,
            local_offset: self.local_offset as int,
        }
    }
}

impl Db {
    /// The store invariant, as seen by callers.
    pub open spec fn wf(self) -> bool {
        self@.wf()
    }

    /// An empty store. `local_offset` is the offset, in seconds east of UTC,
    /// of the calendar used to group bookmarks by day.
    pub fn new(local_offset: i64) -> (r: Db)
        requires
            -86400 <= local_offset <= 86400,
        ensures
            r.wf(),
            r@.rows.len() == 0,
            r@.favorites.len() == 0,
            r@.next_id == 1,
            r@.local_offset == local_offset,
    {
        let r = Db { bookmarks: Vec::new(), favorites: Vec::new(), next_id: 1, local_offset };
        proof {
            assert(r@.rows =~= Seq::<BookmarkView>::empty());
            assert(r@.favorites =~= Seq::<Seq<char>>::empty());
        }
        r
    }

    /// The offset, in seconds east of UTC, of the calendar used to group
    /// bookmarks by day.
    pub fn local_offset(&self) -> (r: i64)
        ensures
            r == self@.local_offset,
    {
        self.local_offset
    }

    /// The id the next freshly inserted bookmark will receive.
    pub fn next_id(&self) -> (r: i64)
        ensures
            r == self@.next_id,
    {
        self.next_id
    }

    /// The number of bookmarks held, visible or not.
    pub fn len(&self) -> (r: usize)
        ensures
            r == self@.rows.len(),
    {
        self.bookmarks.len()
    }

    /// The stored bookmark at the given position, in insertion order.
    pub fn bookmark_at(&self, i: usize) -> (r: &Bookmark)
        requires
            i < self@.rows.len(),
        ensures
            r@ == self@.rows[i as int],
    {
        &self.bookmarks[i]
    }

    /// The index of the bookmark with the given id, if any.
    fn find_by_id(&self, id: i64) -> (r: Option<usize>)
        ensures
            match r {
                Some(i) => i < self@.rows.len() && self@.rows[i as int].id == id,
                None => !self@.has_id(id as int),
            },
    {
        let n = self.bookmarks.len();
        let mut i: usize = 0;
        while i < n
            invariant
                i <= n,
                n == self@.rows.len(),
                forall|j: int| 0 <= j < i ==> (#[trigger] self@.rows[j]).id != id,
            decreases n - i,
        {
            if self.bookmarks[i].id == id {
                return Some(i);
            }
            i = i + 1;
        }
        None
    }

    /// The index of the bookmark with the given url, if any.
    fn find_by_url(&self, url: &str) -> (r: Option<usize>)
        ensures
            match r {
                Some(i) => i < self@.rows.len() && self@.rows[i as int].url == url@,
                None => !self@.has_url(url@),
            },
    {
        let n = self.bookmarks.len();
        let mut i: usize = 0;
        while i < n
            invariant
                i <= n,
                n == self@.rows.len(),
                forall|j: int| 0 <= j < i ==> (#[trigger] self@.rows[j]).url != url@,
            decreases n - i,
        {
            if str_eq(self.bookmarks[i].url.as_str(), url) {
                return Some(i);
            }
            i = i + 1;
        }
        None
    }

    /// The bookmark with the given id, or `NotFound`.
    pub fn get_bookmark_by_id(&self, id: i64) -> (r: Result<Bookmark, StoreError>)
        requires
            self.wf(),
        ensures
            match r {
                Ok(b) => self@.has_id(id as int) && b@ == self@.row_by_id(id as int),
                Err(e) => e == StoreError::NotFound && !self@.has_id(id as int),
            },
    {
        match self.find_by_id(id) {
            Some(i) => {
                let b = self.bookmarks[i].duplicate();
                proof {
                    self@.lemma_id_unique(i as int, self@.idx_of_id(id as int));
                }
                Ok(b)
            },
            None => Err(StoreError::NotFound),
        }
    }

    /// The bookmark with the given url, or `NotFound`.
    pub fn get_bookmark_by_url(&self, url: &str) -> (r: Result<Bookmark, StoreError>)
        requires
            self.wf(),
        ensures
            match r {
                Ok(b) => self@.has_url(url@) && b@ == self@.row_by_url(url@),
                Err(e) => e == StoreError::NotFound && !self@.has_url(url@),
            },
    {
        match self.find_by_url(url) {
            Some(i) => {
                let b = self.bookmarks[i].duplicate();
                proof {
                    self@.lemma_url_unique(i as int, self@.idx_of_url(url@));
                }
                Ok(b)
            },
            None => Err(StoreError::NotFound),
        }
    }

    /// Saves a navigation path. Errs with `Constraint` when already saved
    /// (or, in principle, when a billion paths are held, which keeps the
    /// returned position in range); otherwise appends the path and returns
    /// its one-based position.
    pub fn set_favorite(&mut self, path: &str) -> (r: Result<i64, StoreError>)
        requires
            old(self).wf(),
        ensures
            final(self).wf(),
            final(self)@.rows == old(self)@.rows,
            final(self)@.next_id == old(self)@.next_id,
            final(self)@.local_offset == old(self)@.local_offset,
            match r {
                Ok(n) => !old(self)@.favorites.contains(path@) && final(self)@.favorites
                    == old(self)@.favorites.push(path@) && n == final(self)@.favorites.len(),
                Err(e) => e == StoreError::Constraint && final(self)@.favorites == old(
                    self,
                )@.favorites && (old(self)@.favorites.contains(path@) || old(
                    self,
                )@.favorites.len() >= 1000000000),
            },
    {
        let n = self.favorites.len();
        let mut i: usize = 0;
        while i < n
            invariant
                old(self).wf(),
                self == old(self),
                i <= n,
                n == self@.favorites.len(),
                forall|j: int| 0 <= j < i ==> self@.favorites[j] != path@,
            decreases n - i,
        {
            if str_eq(self.favorites[i].as_str(), path) {
                proof {
                    lemma_vec_deep_view_index(self.favorites, i as int);
                    assert(self@.favorites[i as int] == path@);
                    assert(self@.favorites.contains(path@));
                }
                return Err(StoreError::Constraint);
            }
            i = i + 1;
        }
        if self.favorites.len() >= 1000000000usize {
            // Unreachable in practice; keeps the returned position in range.
            return Err(StoreError::Constraint);
        }
        let ghost fav0 = self.favorites;
        let s = String::from_str(path);
        let ghost sg = s;
        self.favorites.push(s);
        proof {
            lemma_vec_deep_view_push(fav0, self.favorites, sg);
            assert(self@.favorites =~= old(self)@.favorites.push(path@));
            assert forall|a: int, b: int|
                0 <= a < b < self@.favorites.len() implies self@.favorites[a]
                != self@.favorites[b] by {
                if b == self@.favorites.len() - 1 {
                    assert(old(self)@.favorites[a] != path@);
                }
            }
            assert(self@.rows == old(self)@.rows);
            assert forall|i: int| 0 <= i < self@.rows.len() implies (
            #[trigger] self@.rows[i]).row_wf() by {
                assert(old(self)@.rows[i].row_wf());
            }
            assert forall|i: int| 0 <= i < self@.rows.len() implies (#[trigger] self@.rows[i]).id
                < self@.next_id by {
                assert(old(self)@.rows[i].id < old(self)@.next_id);
            }
        }
        Ok(self.favorites.len() as i64)
    }

    /// Every saved navigation path, in insertion order.
    pub fn get_favorites(&self) -> (r: Vec<String>)
        ensures
            r.deep_view() == self@.favorites,
    {
        let n = self.favorites.len();
        let mut out: Vec<String> = Vec::new();
        let mut i: usize = 0;
        proof {
            assert(out.deep_view() =~= self@.favorites.subrange(0, 0));
        }
        while i < n
            invariant
                i <= n,
                n == self@.favorites.len(),
                out.deep_view() == self@.favorites.subrange(0, i as int),
            decreases n - i,
        {
            let ghost out0 = out;
            let s = self.favorites[i].clone();
            let ghost sg = s;
            out.push(s);
            i = i + 1;
            proof {
                lemma_vec_deep_view_push(out0, out, sg);
                lemma_vec_deep_view_index(self.favorites, i - 1);
                assert(out.deep_view() =~= self@.favorites.subrange(0, i as int));
            }
        }
        proof {
            assert(self@.favorites.subrange(0, n as int) =~= self@.favorites);
        }
        out
    }

    /// The number of visible bookmarks; mirrors the privacy exclusion of
    /// the paginated listing, so page counts agree with what is listed.
    pub fn count_all(&self) -> (r: usize)
        requires
            self.wf(),
        ensures
            r == self@.rows.filter(|b: BookmarkView| visible(b)).len(),
    {
        let n = self.bookmarks.len();
        let mut count: usize = 0;
        let mut i: usize = 0;
        proof {
            assert(self@.rows.subrange(0, 0).filter(|b: BookmarkView| visible(b)) =~= Seq::<
                BookmarkView,
            >::empty());
        }
        while i < n
            invariant
                i <= n,
                self.wf(),
                n == self@.rows.len(),
                count == self@.rows.subrange(0, i as int).filter(
                    |b: BookmarkView| visible(b),
                ).len(),
                count <= i,
            decreases n - i,
        {
            let ghost pre = self@.rows.subrange(0, i as int);
            let vis = !has_private_tag(&self.bookmarks[i]);
            proof {
                crate::store::lemma_filter_push(
                    pre,
                    self@.rows[i as int],
                    |b: BookmarkView| visible(b),
                );
                assert(self@.rows.subrange(0, i as int + 1) =~= pre.push(self@.rows[i as int]));
                pre.lemma_filter_len(|b: BookmarkView| visible(b));
            }
            if vis {
                count = count + 1;
            }
            i = i + 1;
        }
        proof {
            assert(self@.rows.subrange(0, n as int) =~= self@.rows);
        }
        count
    }
}

/// The store with the row of the given id removed; unchanged when absent.
pub open spec fn remove_id(db: DbView, id: int) -> DbView {
    if db.has_id(id) {
        DbView { rows: db.rows.remove(db.idx_of_id(id)), ..db }
    } else {
        db
    }
}

/// The store after deleting each id of the list, in order.
pub open spec fn delete_ids(db: DbView, ids: Seq<i64>) -> DbView
    decreases ids.len(),
{
    if ids.len() == 0 {
        db
    } else {
        delete_ids(remove_id(db, ids[0] as int), ids.drop_first())
    }
}

/// Deleting a batch one later is deleting from the batch's result.
pub proof fn lemma_delete_ids_snoc(db: DbView, s: Seq<i64>, x: i64)
    ensures
        delete_ids(db, s.push(x)) == remove_id(delete_ids(db, s), x as int),
    decreases s.len(),
{
    if s.len() == 0 {
        assert(s.push(x)[0] == x);
        assert(s.push(x).drop_first() =~= Seq::<i64>::empty());
        assert(delete_ids(db, s.push(x)) == delete_ids(
            remove_id(db, x as int),
            s.push(x).drop_first(),
        ));
        assert(delete_ids(remove_id(db, x as int), s.push(x).drop_first()) == remove_id(
            db,
            x as int,
        ));
        assert(delete_ids(db, s) == db);
    } else {
        assert(s.push(x)[0] == s[0]);
        assert(s.push(x).drop_first() =~= s.drop_first().push(x));
        assert(delete_ids(db, s.push(x)) == delete_ids(
            remove_id(db, s[0] as int),
            s.drop_first().push(x),
        ));
        lemma_delete_ids_snoc(remove_id(db, s[0] as int), s.drop_first(), x);
        assert(delete_ids(db, s) == delete_ids(remove_id(db, s[0] as int), s.drop_first()));
    }
}

/// Replacing one row with a well-formed row of the same id, whose url
/// collides with no other row, keeps the store invariant.
pub proof fn lemma_wf_update_row(pre: DbView, post: DbView, i: int, nb: BookmarkView)
    requires
        pre.wf(),
        0 <= i < pre.rows.len(),
        post.rows == pre.rows.update(i, nb),
        post.favorites == pre.favorites,
        post.next_id == pre.next_id,
        post.local_offset == pre.local_offset,
        nb.row_wf(),
        nb.id == pre.rows[i].id,
        forall|j: int| 0 <= j < pre.rows.len() && j != i ==> pre.rows[j].url != nb.url,
    ensures
        post.wf(),
{
    assert forall|j: int| 0 <= j < post.rows.len() implies (#[trigger] post.rows[j]).row_wf()
        && post.rows[j].id < post.next_id by {
        if j != i {
            assert(post.rows[j] == pre.rows[j]);
        }
        assert(pre.rows[j].row_wf());
        assert(pre.rows[j].id < pre.next_id);
    }
    assert forall|a: int, b: int| 0 <= a < b < post.rows.len() implies post.rows[a].id
        != post.rows[b].id && post.rows[a].url != post.rows[b].url by {
        if a != i && b != i {
            assert(post.rows[a] == pre.rows[a]);
            assert(post.rows[b] == pre.rows[b]);
        } else if a == i {
            assert(post.rows[b] == pre.rows[b]);
        } else {
            assert(post.rows[a] == pre.rows[a]);
        }
    }
}

/// Removing one row keeps the store invariant.
pub proof fn lemma_wf_remove_row(pre: DbView, post: DbView, i: int)
    requires
        pre.wf(),
        0 <= i < pre.rows.len(),
        post.rows == pre.rows.remove(i),
        post.favorites == pre.favorites,
        post.next_id == pre.next_id,
        post.local_offset == pre.local_offset,
    ensures
        post.wf(),
        !post.has_id(pre.rows[i].id),
        forall|x: int|
            x != pre.rows[i].id ==> ((#[trigger] post.has_id(x)) <==> pre.has_id(x)),
        forall|j: int| 0 <= j < post.rows.len() ==> pre.rows.contains(#[trigger] post.rows[j]),
{
    pre.rows.remove_ensures(i);
    assert forall|j: int| 0 <= j < post.rows.len() implies pre.rows.contains(
        #[trigger] post.rows[j],
    ) && post.rows[j].row_wf() && post.rows[j].id < post.next_id by {
        if j < i {
            assert(post.rows[j] == pre.rows[j]);
        } else {
            assert(post.rows[j] == pre.rows[j + 1]);
        }
    }
    assert forall|a: int, b: int| 0 <= a < b < post.rows.len() implies post.rows[a].id
        != post.rows[b].id && post.rows[a].url != post.rows[b].url by {
        let a2: int = if a < i {
            a
        } else {
            a + 1
        };
        let b2: int = if b < i {
            b
        } else {
            b + 1
        };
        assert(post.rows[a] == pre.rows[a2]);
        assert(post.rows[b] == pre.rows[b2]);
    }
    assert forall|j: int| 0 <= j < post.rows.len() implies post.rows[j].id != pre.rows[i].id by {
        let j2: int = if j < i {
            j
        } else {
            j + 1
        };
        assert(post.rows[j] == pre.rows[j2]);
    }
    assert forall|x: int| x != pre.rows[i].id && pre.has_id(x) implies post.has_id(x) by {
        let k = choose|k: int| 0 <= k < pre.rows.len() && (#[trigger] pre.rows[k]).id == x;
        if k < i {
            assert(post.rows[k] == pre.rows[k]);
        } else {
            assert(post.rows[k - 1] == pre.rows[k]);
        }
    }
}

impl Db {
    /// Adds a tag to, or (with a leading `-`) removes a tag from, the
    /// bookmark with the given id, and returns the bookmark as stored.
    /// The name is folded to lowercase; inserting `done` removes `todo`
    /// from the same bookmark in the same step. An empty tag name to add
    /// is a `Validation` error; an unknown id is `NotFound`.
    pub fn set_tag(&mut self, name: &str, id: i64) -> (r: Result<Bookmark, StoreError>)
        requires
            old(self).wf(),
        ensures
            final(self).wf(),
            final(self)@.favorites == old(self)@.favorites,
            final(self)@.next_id == old(self)@.next_id,
            final(self)@.local_offset == old(self)@.local_offset,
            ({
                let removal = name@.len() > 0 && name@[0] == '-';
                let target = if removal {
                    lower(name@.drop_first())
                } else {
                    lower(name@)
                };
                match r {
                    Ok(b) => {
                        &&& old(self)@.has_id(id as int)
                        &&& !removal ==> target.len() > 0
                        &&& ({
                            let i = old(self)@.idx_of_id(id as int);
                            let row = old(self)@.rows[i];
                            let nt = if removal {
                                row.tags.remove_value(target)
                            } else {
                                add_tag(row.tags, target)
                            };
                            &&& final(self)@.rows == old(self)@.rows.update(
                                i,
                                BookmarkView { tags: nt, ..row },
                            )
                            &&& b@ == BookmarkView { tags: nt, ..row }
                        })
                    },
                    Err(e) => {
                        &&& final(self)@ == old(self)@
                        &&& (e == StoreError::NotFound && !old(self)@.has_id(id as int)) || (e
                            == StoreError::Validation && old(self)@.has_id(id as int) && !removal
                            && name@.len() == 0)
                    },
                }
            }),
    {
        let nlen = name.unicode_len();
        let is_removal = nlen > 0 && name.get_char(0) == '-';
        let target = if is_removal {
            let rest = name.substring_char(1, nlen);
            proof {
                assert(rest@ =~= name@.drop_first());
            }
            lower_string(rest)
        } else {
            lower_string(name)
        };
        let i = match self.find_by_id(id) {
            Some(i) => i,
            None => {
                return Err(StoreError::NotFound);
            },
        };
        if !is_removal && target.as_str().unicode_len() == 0 {
            return Err(StoreError::Validation);
        }
        let ghost row = self@.rows[i as int];
        let mut b = self.bookmarks[i].duplicate();
        if is_removal {
            remove_tag_vec(&mut b.tags, target.as_str());
            proof {
                lemma_remove_value_props(row.tags, target@);
            }
        } else {
            proof {
                lemma_lower_props(name@);
                lemma_add_tag_props(row.tags, target@);
            }
            add_tag_vec(&mut b.tags, target);
        }
        let ghost bg = b;
        let ghost vec0 = self.bookmarks;
        self.bookmarks[i] = b;
        proof {
            lemma_vec_deep_view_update(vec0, self.bookmarks, i as int, bg);
            assert forall|j: int|
                0 <= j < old(self)@.rows.len() && j != i as int implies old(self)@.rows[j].url
                != bg@.url by {
                old(self)@.lemma_url_unique_hint(j, i as int);
            }
            lemma_wf_update_row(old(self)@, self@, i as int, bg@);
            old(self)@.lemma_id_unique(i as int, old(self)@.idx_of_id(id as int));
        }
        Ok(self.bookmarks[i].duplicate())
    }

    /// Removes the tag with the given name from every bookmark carrying it,
    /// and returns how many bookmarks that was.
    pub fn delete_tag(&mut self, name: &str) -> (r: usize)
        requires
            old(self).wf(),
        ensures
            final(self).wf(),
            final(self)@.favorites == old(self)@.favorites,
            final(self)@.next_id == old(self)@.next_id,
            final(self)@.local_offset == old(self)@.local_offset,
            final(self)@.rows.len() == old(self)@.rows.len(),
            forall|j: int|
                0 <= j < old(self)@.rows.len() ==> #[trigger] final(self)@.rows[j]
                    == (BookmarkView {
                    tags: old(self)@.rows[j].tags.remove_value(name@),
                    ..old(self)@.rows[j]
                }),
            r == old(self)@.rows.filter(|b: BookmarkView| b.has_tag(name@)).len(),
    {
        let ghost db0 = old(self)@;
        let n = self.bookmarks.len();
        let mut count: usize = 0;
        let mut j: usize = 0;
        proof {
            assert(db0.rows.subrange(0, 0).filter(|b: BookmarkView| b.has_tag(name@)) =~= Seq::<
                BookmarkView,
            >::empty());
        }
        while j < n
            invariant
                old(self).wf(),
                db0 == old(self)@,
                j <= n,
                n == db0.rows.len(),
                self@.rows.len() == n,
                self.wf(),
                self@.favorites == db0.favorites,
                self@.next_id == db0.next_id,
                self@.local_offset == db0.local_offset,
                forall|k: int|
                    0 <= k < j ==> #[trigger] self@.rows[k] == (BookmarkView {
                        tags: db0.rows[k].tags.remove_value(name@),
                        ..db0.rows[k]
                    }),
                forall|k: int| j <= k < n ==> #[trigger] self@.rows[k] == db0.rows[k],
                count == db0.rows.subrange(0, j as int).filter(
                    |b: BookmarkView| b.has_tag(name@),
                ).len(),
                count <= j,
            decreases n - j,
        {
            let ghost row = db0.rows[j as int];
            proof {
                assert(self@.rows[j as int] == row);
                assert(row.row_wf());
            }
            let had = tags_contain(&self.bookmarks[j].tags, name);
            let mut b = self.bookmarks[j].duplicate();
            proof {
                assert(b@ == row);
            }
            remove_tag_vec(&mut b.tags, name);
            let ghost bg = b;
            proof {
                assert(bg@.tags == row.tags.remove_value(name@));
                assert(bg@ == (BookmarkView { tags: row.tags.remove_value(name@), ..row }));
            }
            let ghost vec0 = self.bookmarks;
            let ghost pre_view = self@;
            self.bookmarks[j] = b;
            if had {
                count = count + 1;
            }
            j = j + 1;
            proof {
                lemma_vec_deep_view_update(vec0, self.bookmarks, j - 1, bg);
                lemma_remove_value_props(row.tags, name@);
                assert forall|k: int|
                    0 <= k < db0.rows.len() && k != j - 1 implies pre_view.rows[k].url
                    != bg@.url by {
                    pre_view.lemma_url_unique_hint(k, j - 1);
                }
                lemma_wf_update_row(pre_view, self@, j - 1, bg@);
                assert forall|k: int|
                    0 <= k < j implies #[trigger] self@.rows[k] == (BookmarkView {
                    tags: db0.rows[k].tags.remove_value(name@),
                    ..db0.rows[k]
                }) by {
                    if k < j - 1 {
                        assert(self@.rows[k] == pre_view.rows[k]);
                    } else {
                        assert(self@.rows[k] == bg@);
                    }
                }
                assert forall|k: int| j <= k < n implies #[trigger] self@.rows[k]
                    == db0.rows[k] by {
                    assert(self@.rows[k] == pre_view.rows[k]);
                }
                lemma_filter_push(
                    db0.rows.subrange(0, j - 1),
                    row,
                    |b: BookmarkView| b.has_tag(name@),
                );
                assert(db0.rows.subrange(0, j as int) =~= db0.rows.subrange(0, j - 1).push(row));
                db0.rows.subrange(0, j - 1).lemma_filter_len(|b: BookmarkView| b.has_tag(name@));
            }
        }
        proof {
            assert(db0.rows.subrange(0, n as int) =~= db0.rows);
        }
        count
    }

    /// Relabels every occurrence of the tag `old_name` as `new_name`
    /// (folded to lowercase), and returns how many bookmarks carried
    /// `old_name`. A bookmark already carrying both keeps a single copy.
    /// An empty new name is a `Validation` error.
    pub fn rename_tag(&mut self, old_name: &str, new_name: &str) -> (r: Result<
        usize,
        StoreError,
    >)
        requires
            old(self).wf(),
        ensures
            final(self).wf(),
            final(self)@.favorites == old(self)@.favorites,
            final(self)@.next_id == old(self)@.next_id,
            final(self)@.local_offset == old(self)@.local_offset,
            match r {
                Ok(c) => {
                    &&& lower(new_name@).len() > 0
                    &&& final(self)@.rows.len() == old(self)@.rows.len()
                    &&& forall|j: int|
                        0 <= j < old(self)@.rows.len() ==> #[trigger] final(self)@.rows[j]
                            == (BookmarkView {
                            tags: rename_in_tags(
                                old(self)@.rows[j].tags,
                                old_name@,
                                lower(new_name@),
                            ),
                            ..old(self)@.rows[j]
                        })
                    &&& c == old(self)@.rows.filter(
                        |b: BookmarkView| b.has_tag(old_name@),
                    ).len()
                },
                Err(e) => {
                    &&& e == StoreError::Validation
                    &&& lower(new_name@).len() == 0
                    &&& final(self)@ == old(self)@
                },
            },
    {
        let low = lower_string(new_name);
        if low.as_str().unicode_len() == 0 {
            return Err(StoreError::Validation);
        }
        proof {
            lemma_lower_props(new_name@);
        }
        let ghost db0 = old(self)@;
        let n = self.bookmarks.len();
        let mut count: usize = 0;
        let mut j: usize = 0;
        proof {
            assert(db0.rows.subrange(0, 0).filter(|b: BookmarkView| b.has_tag(old_name@))
                =~= Seq::<BookmarkView>::empty());
        }
        while j < n
            invariant
                old(self).wf(),
                db0 == old(self)@,
                low@ == lower(new_name@),
                tag_wf(low@),
                j <= n,
                n == db0.rows.len(),
                self@.rows.len() == n,
                self.wf(),
                self@.favorites == db0.favorites,
                self@.next_id == db0.next_id,
                self@.local_offset == db0.local_offset,
                forall|k: int|
                    0 <= k < j ==> #[trigger] self@.rows[k] == (BookmarkView {
                        tags: rename_in_tags(db0.rows[k].tags, old_name@, low@),
                        ..db0.rows[k]
                    }),
                forall|k: int| j <= k < n ==> #[trigger] self@.rows[k] == db0.rows[k],
                count == db0.rows.subrange(0, j as int).filter(
                    |b: BookmarkView| b.has_tag(old_name@),
                ).len(),
                count <= j,
            decreases n - j,
        {
            let ghost row = db0.rows[j as int];
            proof {
                assert(self@.rows[j as int] == row);
                assert(row.row_wf());
            }
            let had = tags_contain(&self.bookmarks[j].tags, old_name);
            let mut b = self.bookmarks[j].duplicate();
            proof {
                assert(b@ == row);
                assert(tags_wf(b.tags.deep_view()));
            }
            rename_tag_vec(&mut b.tags, old_name, low.as_str());
            let ghost bg = b;
            proof {
                assert(bg@.tags == rename_in_tags(row.tags, old_name@, low@));
                assert(bg@ == (BookmarkView {
                    tags: rename_in_tags(row.tags, old_name@, low@),
                    ..row
                }));
            }
            let ghost vec0 = self.bookmarks;
            let ghost pre_view = self@;
            self.bookmarks[j] = b;
            if had {
                count = count + 1;
            }
            j = j + 1;
            proof {
                lemma_vec_deep_view_update(vec0, self.bookmarks, j - 1, bg);
                lemma_rename_in_tags_props(row.tags, old_name@, low@);
                assert forall|k: int|
                    0 <= k < db0.rows.len() && k != j - 1 implies pre_view.rows[k].url
                    != bg@.url by {
                    pre_view.lemma_url_unique_hint(k, j - 1);
                }
                lemma_wf_update_row(pre_view, self@, j - 1, bg@);
                assert forall|k: int|
                    0 <= k < j implies #[trigger] self@.rows[k] == (BookmarkView {
                    tags: rename_in_tags(db0.rows[k].tags, old_name@, low@),
                    ..db0.rows[k]
                }) by {
                    if k < j - 1 {
                        assert(self@.rows[k] == pre_view.rows[k]);
                    } else {
                        assert(self@.rows[k] == bg@);
                    }
                }
                assert forall|k: int| j <= k < n implies #[trigger] self@.rows[k]
                    == db0.rows[k] by {
                    assert(self@.rows[k] == pre_view.rows[k]);
                }
                lemma_filter_push(
                    db0.rows.subrange(0, j - 1),
                    row,
                    |b: BookmarkView| b.has_tag(old_name@),
                );
                assert(db0.rows.subrange(0, j as int) =~= db0.rows.subrange(0, j - 1).push(row));
                db0.rows.subrange(0, j - 1).lemma_filter_len(
                    |b: BookmarkView| b.has_tag(old_name@),
                );
            }
        }
        proof {
            assert(db0.rows.subrange(0, n as int) =~= db0.rows);
        }
        Ok(count)
    }

    /// Deletes the bookmarks with the given ids, in order, and reports the
    /// outcome for each id: the bookmark as it stood just before deletion,
    /// or `NotFound`. One unknown id does not stop the others.
    pub fn delete_bookmark(&mut self, ids: &Vec<i64>) -> (r: Vec<
        Result<Bookmark, StoreError>,
    >)
        requires
            old(self).wf(),
        ensures
            final(self).wf(),
            final(self)@ == delete_ids(old(self)@, ids@),
            final(self)@.favorites == old(self)@.favorites,
            final(self)@.next_id == old(self)@.next_id,
            final(self)@.local_offset == old(self)@.local_offset,
            r@.len() == ids@.len(),
            forall|m: int|
                0 <= m < ids@.len() ==> delete_reported(old(self)@, ids@, m, #[trigger] r@[m]),
    {
        let ghost db0 = old(self)@;
        let ghost ids_v = ids@;
        let n = ids.len();
        let mut out: Vec<Result<Bookmark, StoreError>> = Vec::new();
        let mut k: usize = 0;
        proof {
            assert(ids_v.subrange(0, 0) =~= Seq::<i64>::empty());
        }
        while k < n
            invariant
                old(self).wf(),
                db0 == old(self)@,
                ids_v == ids@,
                k <= n,
                n == ids_v.len(),
                self.wf(),
                self@ == delete_ids(db0, ids_v.subrange(0, k as int)),
                self@.favorites == db0.favorites,
                self@.next_id == db0.next_id,
                self@.local_offset == db0.local_offset,
                out@.len() == k,
                forall|m: int| 0 <= m < k ==> delete_reported(db0, ids_v, m, #[trigger] out@[m]),
            decreases n - k,
        {
            let id = ids[k];
            let ghost pre_view = self@;
            let ghost out0 = out@;
            match self.find_by_id(id) {
                Some(i) => {
                    let ghost vec0 = self.bookmarks;
                    let b = self.bookmarks.remove(i);
                    out.push(Ok(b));
                    proof {
                        lemma_vec_deep_view_remove(vec0, self.bookmarks, i as int);
                        assert(pre_view.has_id(id as int));
                        pre_view.lemma_id_unique(i as int, pre_view.idx_of_id(id as int));
                        lemma_wf_remove_row(pre_view, self@, i as int);
                        lemma_vec_deep_view_index(vec0, i as int);
                    }
                },
                None => {
                    out.push(Err(StoreError::NotFound));
                },
            }
            k = k + 1;
            proof {
                assert(ids_v.subrange(0, k as int) =~= ids_v.subrange(0, k - 1).push(
                    ids_v[k - 1],
                ));
                lemma_delete_ids_snoc(db0, ids_v.subrange(0, k - 1), ids_v[k - 1]);
                assert(delete_reported(db0, ids_v, k - 1, out@[k - 1]));
            }
        }
        proof {
            assert(ids_v.subrange(0, n as int) =~= ids_v);
        }
        out
    }
}

/// Whether a single insert succeeds: the url must be non-empty, and when
/// the url is new there must be an id left to assign.
pub open spec fn insert_one_ok(db0: DbView, url: Seq<char>) -> bool {
    url.len() > 0 && (db0.has_url(url) || db0.next_id < i64::MAX)
}

/// The store after a single insert (unchanged when the insert fails).
pub open spec fn insert_one_next(
    db0: DbView,
    name: Seq<char>,
    url: Seq<char>,
    description: Seq<char>,
    tags: Seq<Seq<char>>,
    now: int,
) -> DbView {
    let nt = norm_tags(tags);
    if url.len() == 0 {
        db0
    } else if db0.has_url(url) {
        let i = db0.idx_of_url(url);
        let row = db0.rows[i];
        let row2 = BookmarkView { tags: add_tags(row.tags, nt), ..row };
        DbView { rows: db0.rows.update(i, row2), ..db0 }
    } else if db0.next_id >= i64::MAX {
        db0
    } else {
        let row = BookmarkView {
            id: db0.next_id,
            name: if name.len() == 0 {
                url
            } else {
                name
            },
            url: url,
            creation_time: now,
            description: description,
            tags: add_tags(Seq::empty(), nt),
        };
        DbView { rows: db0.rows.push(row), next_id: db0.next_id + 1, ..db0 }
    }
}

/// The bookmark a successful single insert returns: the fresh row, or the
/// existing row under the same url with the caller's tags attached and a
/// synthetic `dup` marker that is never stored.
pub open spec fn insert_one_value(
    db0: DbView,
    name: Seq<char>,
    url: Seq<char>,
    description: Seq<char>,
    tags: Seq<Seq<char>>,
    now: int,
) -> BookmarkView {
    let nt = norm_tags(tags);
    if db0.has_url(url) {
        let i = db0.idx_of_url(url);
        let row = db0.rows[i];
        let row2 = BookmarkView { tags: add_tags(row.tags, nt), ..row };
        BookmarkView {
            tags: if row2.tags.contains("dup"@) {
                row2.tags
            } else {
                row2.tags.push("dup"@)
            },
            ..row2
        }
    } else {
        BookmarkView {
            id: db0.next_id,
            name: if name.len() == 0 {
                url
            } else {
                name
            },
            url: url,
            creation_time: now,
            description: description,
            tags: add_tags(Seq::empty(), nt),
        }
    }
}

/// What a single insert does. An empty url is rejected. An existing url is
/// the dedup signal: the caller's tags are attached to the existing row and
/// that row comes back carrying a synthetic `dup` marker that is never
/// stored. Otherwise a fresh row is created under the next id, stamped with
/// `now`, its name defaulting to the url.
pub open spec fn insert_one_reported(
    db0: DbView,
    name: Seq<char>,
    url: Seq<char>,
    description: Seq<char>,
    tags: Seq<Seq<char>>,
    now: int,
    db1: DbView,
    r: Result<Bookmark, StoreError>,
) -> bool {
    &&& db1 == insert_one_next(db0, name, url, description, tags, now)
    &&& if insert_one_ok(db0, url) {
        r matches Ok(b) && b@ == insert_one_value(db0, name, url, description, tags, now)
    } else if url.len() == 0 {
        r matches Err(e) && e == StoreError::Validation
    } else {
        r matches Err(e) && e == StoreError::Constraint
    }
}

/// What a full update does. The row's scalar fields are replaced, its tag
/// set reconciled against the given tags in stored form; id and creation
/// time never change. Unknown id, empty url and a url held by another
/// bookmark are rejected, in that order.
pub open spec fn update_reported(
    db0: DbView,
    nb: BookmarkView,
    db1: DbView,
    r: Result<Bookmark, StoreError>,
) -> bool {
    if !db0.has_id(nb.id) {
        db1 == db0 && (r matches Err(e) && e == StoreError::NotFound)
    } else if nb.url.len() == 0 {
        db1 == db0 && (r matches Err(e) && e == StoreError::Validation)
    } else if db0.has_url(nb.url) && db0.row_by_url(nb.url).id != nb.id {
        db1 == db0 && (r matches Err(e) && e == StoreError::Constraint)
    } else {
        let i = db0.idx_of_id(nb.id);
        let row = db0.rows[i];
        let row2 = BookmarkView {
            id: row.id,
            name: nb.name,
            url: nb.url,
            creation_time: row.creation_time,
            description: nb.description,
            tags: reconcile_tags(row.tags, norm_tags(nb.tags)),
        };
        &&& db1 == (DbView { rows: db0.rows.update(i, row2), ..db0 })
        &&& (r matches Ok(b) && b@ == row2)
    }
}

impl Db {
    /// Inserts one bookmark draft, stamping it with `now` (seconds since the
    /// epoch). A duplicate url is not an error: see [`insert_one_reported`].
    pub fn insert_one(
        &mut self,
        name: &str,
        url: &str,
        description: &str,
        tags: &Vec<String>,
        now: i64,
    ) -> (r: Result<Bookmark, StoreError>)
        requires
            old(self).wf(),
            0 <= now <= i64::MAX - 86400,
        ensures
            final(self).wf(),
            final(self)@.favorites == old(self)@.favorites,
            final(self)@.local_offset == old(self)@.local_offset,
            insert_one_reported(
                old(self)@,
                name@,
                url@,
                description@,
                tags.deep_view(),
                now as int,
                final(self)@,
                r,
            ),
    {
        if url.unicode_len() == 0 {
            return Err(StoreError::Validation);
        }
        let normed = norm_tags_vec(tags);
        match self.find_by_url(url) {
            Some(i) => {
                let ghost row = self@.rows[i as int];
                proof {
                    assert(row.row_wf());
                    old(self)@.lemma_url_unique(i as int, old(self)@.idx_of_url(url@));
                }
                let mut b = self.bookmarks[i].duplicate();
                proof {
                    assert(b@ == row);
                }
                add_tags_vec(&mut b.tags, &normed);
                let ghost bg = b;
                let ghost vec0 = self.bookmarks;
                self.bookmarks[i] = b;
                proof {
                    lemma_vec_deep_view_update(vec0, self.bookmarks, i as int, bg);
                    assert(bg@ == (BookmarkView {
                        tags: add_tags(row.tags, norm_tags(tags.deep_view())),
                        ..row
                    }));
                    assert forall|j: int|
                        0 <= j < old(self)@.rows.len() && j != i as int implies old(
                        self,
                    )@.rows[j].url != bg@.url by {
                        old(self)@.lemma_url_unique_hint(j, i as int);
                    }
                    lemma_wf_update_row(old(self)@, self@, i as int, bg@);
                }
                let mut ret = self.bookmarks[i].duplicate();
                let marked = tags_contain(&ret.tags, "dup");
                if !marked {
                    let ghost rt0 = ret.tags;
                    let mark = String::from_str("dup");
                    let ghost mg = mark;
                    ret.tags.push(mark);
                    proof {
                        lemma_vec_deep_view_push(rt0, ret.tags, mg);
                    }
                }
                Ok(ret)
            },
            None => {
                if self.next_id == i64::MAX {
                    return Err(StoreError::Constraint);
                }
                let mut tv: Vec<String> = Vec::new();
                proof {
                    assert(tv.deep_view() =~= Seq::<Seq<char>>::empty());
                    assert(tags_wf(tv.deep_view()));
                }
                add_tags_vec(&mut tv, &normed);
                let b = Bookmark {
                    id: self.next_id,
                    name: if name.unicode_len() == 0 {
                        String::from_str(url)
                    } else {
                        String::from_str(name)
                    },
                    url: String::from_str(url),
                    creation_time: now,
                    description: String::from_str(description),
                    tags: tv,
                };
                let ret = b.duplicate();
                let ghost bg = b;
                let ghost vec0 = self.bookmarks;
                let ghost pre_view = self@;
                self.bookmarks.push(b);
                self.next_id = self.next_id + 1;
                proof {
                    lemma_vec_deep_view_push(vec0, self.bookmarks, bg);
                    assert(self@.rows == pre_view.rows.push(bg@));
                    assert forall|j: int|
                        0 <= j < pre_view.rows.len() implies (#[trigger] pre_view.rows[j]).url
                        != url@ by {
                        if pre_view.rows[j].url == url@ {
                            assert(pre_view.has_url(url@));
                        }
                    }
                    assert(bg@.row_wf());
                    assert forall|a: int, b2: int|
                        0 <= a < b2 < self@.rows.len() implies self@.rows[a].id
                        != self@.rows[b2].id && self@.rows[a].url != self@.rows[b2].url by {
                        if b2 < self@.rows.len() - 1 {
                            assert(self@.rows[a] == pre_view.rows[a]);
                            assert(self@.rows[b2] == pre_view.rows[b2]);
                        } else {
                            assert(self@.rows[a] == pre_view.rows[a]);
                            assert(self@.rows[b2] == bg@);
                            assert(pre_view.rows[a].id < pre_view.next_id);
                        }
                    }
                    assert forall|j: int|
                        0 <= j < self@.rows.len() implies (#[trigger] self@.rows[j]).row_wf()
                        && self@.rows[j].id < self@.next_id by {
                        if j < self@.rows.len() - 1 {
                            assert(self@.rows[j] == pre_view.rows[j]);
                            assert(pre_view.rows[j].row_wf());
                            assert(pre_view.rows[j].id < pre_view.next_id);
                        } else {
                            assert(self@.rows[j] == bg@);
                        }
                    }
                    assert(self@.favorites == pre_view.favorites);
                    assert forall|a: int, b2: int|
                        0 <= a < b2 < self@.favorites.len() implies self@.favorites[a]
                        != self@.favorites[b2] by {
                        assert(pre_view.favorites[a] != pre_view.favorites[b2]);
                    }
                }
                Ok(ret)
            },
        }
    }

    /// Replaces the scalar fields of the bookmark with `new`'s id and
    /// reconciles its tag set against `new`'s tags, then returns the
    /// bookmark as stored. See [`update_reported`].
    pub fn update_bookmark(&mut self, new: &Bookmark) -> (r: Result<Bookmark, StoreError>)
        requires
            old(self).wf(),
        ensures
            final(self).wf(),
            final(self)@.favorites == old(self)@.favorites,
            final(self)@.next_id == old(self)@.next_id,
            final(self)@.local_offset == old(self)@.local_offset,
            update_reported(old(self)@, new@, final(self)@, r),
    {
        let i = match self.find_by_id(new.id) {
            Some(i) => i,
            None => {
                return Err(StoreError::NotFound);
            },
        };
        proof {
            old(self)@.lemma_id_unique(i as int, old(self)@.idx_of_id(new@.id));
        }
        if new.url.as_str().unicode_len() == 0 {
            return Err(StoreError::Validation);
        }
        match self.find_by_url(new.url.as_str()) {
            Some(j) => {
                proof {
                    old(self)@.lemma_url_unique(j as int, old(self)@.idx_of_url(new@.url));
                }
                if self.bookmarks[j].id != new.id {
                    return Err(StoreError::Constraint);
                }
            },
            None => {},
        }
        let ghost row = self@.rows[i as int];
        let normed = norm_tags_vec(&new.tags);
        let mut b = self.bookmarks[i].duplicate();
        proof {
            assert(row.row_wf());
            assert(b@ == row);
        }
        reconcile_tags_vec(&mut b.tags, &normed);
        b.name = new.name.clone();
        b.url = new.url.clone();
        b.description = new.description.clone();
        let ghost bg = b;
        let ghost vec0 = self.bookmarks;
        self.bookmarks[i] = b;
        proof {
            lemma_vec_deep_view_update(vec0, self.bookmarks, i as int, bg);
            assert(bg@ == (BookmarkView {
                id: row.id,
                name: new@.name,
                url: new@.url,
                creation_time: row.creation_time,
                description: new@.description,
                tags: reconcile_tags(row.tags, norm_tags(new@.tags)),
            }));
            assert forall|j: int|
                0 <= j < old(self)@.rows.len() && j != i as int implies old(self)@.rows[j].url
                != bg@.url by {
                if old(self)@.rows[j].url == new@.url {
                    assert(old(self)@.has_url(new@.url));
                    old(self)@.lemma_url_unique(j, old(self)@.idx_of_url(new@.url));
                }
            }
            lemma_wf_update_row(old(self)@, self@, i as int, bg@);
        }
        Ok(self.bookmarks[i].duplicate())
    }
}

impl Default for Db {
    /// An empty store grouping days by UTC.
    fn default() -> (r: Db)
        ensures
            r.wf(),
            r@.rows.len() == 0,
            r@.favorites.len() == 0,
            r@.next_id == 1,
            r@.local_offset == 0,
    {
        Db::new(0)
    }
}

impl Db {
    /// Restores one complete row, keeping its id and creation time: how a
    /// persisted store is reloaded. The row must carry a positive unused
    /// id, a non-empty unused url and a creation time in range; otherwise
    /// nothing changes. The id counter moves past the restored id.
    pub fn restore(&mut self, b: &Bookmark) -> (r: Result<(), StoreError>)
        requires
            old(self).wf(),
        ensures
            final(self).wf(),
            final(self)@.favorites == old(self)@.favorites,
            final(self)@.local_offset == old(self)@.local_offset,
            match r {
                Ok(_) => {
                    &&& b@.id >= 1 && b@.id < i64::MAX && b@.url.len() > 0 && 0 <= b@.creation_time
                        <= i64::MAX - 86400
                    &&& !old(self)@.has_id(b@.id) && !old(self)@.has_url(b@.url)
                    &&& final(self)@.rows == old(self)@.rows.push(
                        BookmarkView {
                            tags: add_tags(Seq::empty(), norm_tags(b@.tags)),
                            ..b@
                        },
                    )
                    &&& final(self)@.next_id == (if b@.id + 1 > old(self)@.next_id {
                        b@.id + 1
                    } else {
                        old(self)@.next_id
                    })
                },
                Err(e) => {
                    &&& final(self)@ == old(self)@
                    &&& if !(b@.id >= 1 && b@.id < i64::MAX && b@.url.len() > 0 && 0
                        <= b@.creation_time <= i64::MAX - 86400) {
                        e == StoreError::Validation
                    } else {
                        e == StoreError::Constraint && (old(self)@.has_id(b@.id) || old(
                            self,
                        )@.has_url(b@.url))
                    }
                },
            },
    {
        if !(b.id >= 1 && b.id < i64::MAX && b.url.as_str().unicode_len() > 0 && 0
            <= b.creation_time && b.creation_time <= i64::MAX - 86400) {
            return Err(StoreError::Validation);
        }
        if let Some(_) = self.find_by_id(b.id) {
            return Err(StoreError::Constraint);
        }
        if let Some(_) = self.find_by_url(b.url.as_str()) {
            return Err(StoreError::Constraint);
        }
        let normed = norm_tags_vec(&b.tags);
        let mut tv: Vec<String> = Vec::new();
        proof {
            assert(tv.deep_view() =~= Seq::<Seq<char>>::empty());
            assert(tags_wf(tv.deep_view()));
        }
        add_tags_vec(&mut tv, &normed);
        let nb = Bookmark {
            id: b.id,
            name: b.name.clone(),
            url: b.url.clone(),
            creation_time: b.creation_time,
            description: b.description.clone(),
            tags: tv,
        };
        let ghost bg = nb;
        let ghost vec0 = self.bookmarks;
        let ghost pre_view = self@;
        self.bookmarks.push(nb);
        if b.id + 1 > self.next_id {
            self.next_id = b.id + 1;
        }
        proof {
            lemma_vec_deep_view_push(vec0, self.bookmarks, bg);
            assert(self@.rows == pre_view.rows.push(bg@));
            assert forall|j: int|
                0 <= j < pre_view.rows.len() implies (#[trigger] pre_view.rows[j]).url
                != b@.url by {
                if pre_view.rows[j].url == b@.url {
                    assert(pre_view.has_url(b@.url));
                }
            }
            assert forall|j: int|
                0 <= j < pre_view.rows.len() implies (#[trigger] pre_view.rows[j]).id
                != b@.id by {
                if pre_view.rows[j].id == b@.id {
                    assert(pre_view.has_id(b@.id));
                }
            }
            assert(bg@.row_wf());
            assert forall|a: int, b2: int|
                0 <= a < b2 < self@.rows.len() implies self@.rows[a].id != self@.rows[b2].id
                && self@.rows[a].url != self@.rows[b2].url by {
                if b2 < self@.rows.len() - 1 {
                    assert(self@.rows[a] == pre_view.rows[a]);
                    assert(self@.rows[b2] == pre_view.rows[b2]);
                } else {
                    assert(self@.rows[a] == pre_view.rows[a]);
                    assert(self@.rows[b2] == bg@);
                }
            }
            assert forall|j: int|
                0 <= j < self@.rows.len() implies (#[trigger] self@.rows[j]).row_wf()
                && self@.rows[j].id < self@.next_id by {
                if j < self@.rows.len() - 1 {
                    assert(self@.rows[j] == pre_view.rows[j]);
                    assert(pre_view.rows[j].row_wf());
                    assert(pre_view.rows[j].id < pre_view.next_id);
                } else {
                    assert(self@.rows[j] == bg@);
                }
            }
            assert(self@.favorites == pre_view.favorites);
            assert forall|a: int, b2: int|
                0 <= a < b2 < self@.favorites.len() implies self@.favorites[a]
                != self@.favorites[b2] by {
                assert(pre_view.favorites[a] != pre_view.favorites[b2]);
            }
        }
        Ok(())
    }
}


/// Filtering a sequence extended by one element keeps the filtered prefix and
/// appends the element exactly when it satisfies the predicate.
pub proof fn lemma_filter_push<A>(s: Seq<A>, x: A, p: spec_fn(A) -> bool)
    ensures
        s.push(x).filter(p) == if p(x) {
            s.filter(p).push(x)
        } else {
            s.filter(p)
        },
{
    reveal(Seq::filter);
    assert(s.push(x).drop_last() =~= s);
    assert(s.push(x).last() == x);
}

/// Whether a tag name marks a bookmark as private.
pub fn is_private_tag_exec(t: &str) -> (r: bool)
    ensures
        r == is_private_tag(t@),
{
    if t.unicode_len() < 7 {
        return false;
    }
    t.get_char(0) == 'p' && t.get_char(1) == 'r' && t.get_char(2) == 'i' && t.get_char(3) == 'v'
        && t.get_char(4) == 'a' && t.get_char(5) == 't' && t.get_char(6) == 'e'
}

/// Whether a bookmark carries any private tag.
pub fn has_private_tag(b: &Bookmark) -> (r: bool)
    ensures
        r == is_private(b@),
{
    let n = b.tags.len();
    let mut i: usize = 0;
    while i < n
        invariant
            i <= n,
            n == b@.tags.len(),
            forall|j: int| 0 <= j < i ==> !is_private_tag(#[trigger] b@.tags[j]),
        decreases n - i,
    {
        if is_private_tag_exec(b.tags[i].as_str()) {
            proof {
                assert(is_private_tag(b@.tags[i as int]));
            }
            return true;
        }
        i = i + 1;
    }
    false
}

} // verus!
