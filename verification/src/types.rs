//! The data model: bookmarks, tag listings, page requests and errors.

use vstd::prelude::*;
use vstd::string::StringExecFns;

use crate::text::{is_lower, lower};

verus! {

/// A stored bookmark: a url with a display name, free-text description,
/// creation time in seconds since the epoch, and a set of tags.
#[derive(Debug)]
pub struct Bookmark {
    pub id: i64,
    pub name: String,
    pub url: String,
    pub creation_time: i64,
    pub description: String,
    pub tags: Vec<String>,
}

/// The mathematical value of a [`Bookmark`].
pub ghost struct BookmarkView {
    pub id: int,
    pub name: Seq<char>,
    pub url: Seq<char>,
    pub creation_time: int,
    pub description: Seq<char>,
    pub tags: Seq<Seq<char>>,
}

impl View for Bookmark {
    type V = BookmarkView;

    open spec fn view(&self) -> BookmarkView {
        BookmarkView {
            id: self.id as int,
            name: self.name@,
            url: self.url@,
            creation_time: self.creation_time as int,
            description: self.description@,
            tags: self.tags.deep_view(),
        }
    }
}

impl DeepView for Bookmark {
    type V = BookmarkView;

    open spec fn deep_view(&self) -> BookmarkView {
        self.view()
    }
}

/// The deep view of a vector reads its elements' deep views, in place.
pub proof fn lemma_vec_deep_view_index<T: DeepView>(v: Vec<T>, i: int)
    requires
        0 <= i < v@.len(),
    ensures
        v.deep_view()[i] == v@[i].deep_view(),
{
}

/// Pushing onto a vector pushes onto its deep view.
pub proof fn lemma_vec_deep_view_push<T: DeepView>(v1: Vec<T>, v2: Vec<T>, x: T)
    requires
        v2@ == v1@.push(x),
    ensures
        v2.deep_view() == v1.deep_view().push(x.deep_view()),
{
    assert forall|j: int| 0 <= j < v2@.len() implies v2.deep_view()[j] == v1.deep_view().push(
        x.deep_view(),
    )[j] by {
        if j < v1@.len() {
            assert(v2@[j] == v1@[j]);
        } else {
            assert(v2@[j] == x);
        }
    }
    assert(v2.deep_view() =~= v1.deep_view().push(x.deep_view()));
}

/// Membership in a sequence extended by one element.
pub proof fn lemma_push_contains<A>(s: Seq<A>, a: A, x: A)
    ensures
        s.push(a).contains(x) <==> (s.contains(x) || x == a),
{
    assert(s.push(a)[s.len() as int] == a);
    if s.contains(x) {
        let i = s.lemma_contains_to_index(x);
        assert(s.push(a)[i] == x);
    }
    if s.push(a).contains(x) && x != a {
        let i = s.push(a).lemma_contains_to_index(x);
        assert(s[i] == x);
    }
}

/// Removing from a vector removes from its deep view.
pub proof fn lemma_vec_deep_view_remove<T: DeepView>(v1: Vec<T>, v2: Vec<T>, i: int)
    requires
        0 <= i < v1@.len(),
        v2@ == v1@.remove(i),
    ensures
        v2.deep_view() == v1.deep_view().remove(i),
{
    v1@.remove_ensures(i);
    v1.deep_view().remove_ensures(i);
    assert forall|j: int| 0 <= j < v2@.len() implies v2.deep_view()[j] == v1.deep_view().remove(
        i,
    )[j] by {
        if j < i {
            assert(v2@[j] == v1@[j]);
        } else {
            assert(v2@[j] == v1@[j + 1]);
        }
    }
    assert(v2.deep_view() =~= v1.deep_view().remove(i));
}

/// Updating a vector element updates its deep view.
pub proof fn lemma_vec_deep_view_update<T: DeepView>(v1: Vec<T>, v2: Vec<T>, i: int, x: T)
    requires
        0 <= i < v1@.len(),
        v2@ == v1@.update(i, x),
    ensures
        v2.deep_view() == v1.deep_view().update(i, x.deep_view()),
{
    assert forall|j: int| 0 <= j < v2@.len() implies v2.deep_view()[j] == v1.deep_view().update(
        i,
        x.deep_view(),
    )[j] by {
        if j != i {
            assert(v2@[j] == v1@[j]);
        } else {
            assert(v2@[j] == x);
        }
    }
    assert(v2.deep_view() =~= v1.deep_view().update(i, x.deep_view()));
}

/// Concatenating vectors concatenates their deep views.
pub proof fn lemma_vec_deep_view_concat<T: DeepView>(v1: Vec<T>, v2: Vec<T>, v3: Vec<T>)
    requires
        v3@ == v1@ + v2@,
    ensures
        v3.deep_view() == v1.deep_view() + v2.deep_view(),
{
    assert forall|j: int| 0 <= j < v3@.len() implies v3.deep_view()[j] == (v1.deep_view()
        + v2.deep_view())[j] by {
        if j < v1@.len() {
            assert(v3@[j] == v1@[j]);
        } else {
            assert(v3@[j] == v2@[j - v1@.len()]);
        }
    }
    assert(v3.deep_view() =~= v1.deep_view() + v2.deep_view());
}

/// A copy of a tag list, element by element.
pub fn clone_tags(v: &Vec<String>) -> (r: Vec<String>)
    ensures
        r.deep_view() == v.deep_view(),
{
    let n = v.len();
    let mut r: Vec<String> = Vec::new();
    let mut i: usize = 0;
    proof {
        assert(r.deep_view() =~= v.deep_view().subrange(0, 0));
    }
    while i < n
        invariant
            i <= n,
            n == v.len(),
            r.deep_view() == v.deep_view().subrange(0, i as int),
        decreases n - i,
    {
        let ghost r0 = r;
        let s = v[i].clone();
        let ghost sg = s;
        r.push(s);
        i = i + 1;
        proof {
            lemma_vec_deep_view_push(r0, r, sg);
            lemma_vec_deep_view_index(*v, i - 1);
            assert(r.deep_view() =~= v.deep_view().subrange(0, i as int));
        }
    }
    proof {
        assert(v.deep_view().subrange(0, n as int) =~= v.deep_view());
    }
    r
}

impl Bookmark {
    /// A copy with the same mathematical value.
    pub fn duplicate(&self) -> (r: Bookmark)
        ensures
            r@ == self@,
    {
        Bookmark {
            id: self.id,
            name: self.name.clone(),
            url: self.url.clone(),
            creation_time: self.creation_time,
            description: self.description.clone(),
            tags: clone_tags(&self.tags),
        }
    }
}

impl BookmarkView {
    /// The tag list read as a set: tags are unordered.
    pub open spec fn tag_set(self) -> Set<Seq<char>> {
        self.tags.to_set()
    }

    /// Whether the bookmark carries the given tag.
    pub open spec fn has_tag(self, t: Seq<char>) -> bool {
        self.tags.contains(t)
    }
}

/// A stored tag name: non-empty and lowercase.
pub open spec fn tag_wf(t: Seq<char>) -> bool {
    t.len() > 0 && is_lower(t)
}

/// A well-formed tag list: every entry a valid tag name, no entry twice.
pub open spec fn tags_wf(tags: Seq<Seq<char>>) -> bool {
    &&& forall|i: int| 0 <= i < tags.len() ==> tag_wf(#[trigger] tags[i])
    &&& forall|i: int, j: int| 0 <= i < j < tags.len() ==> tags[i] != tags[j]
}

impl BookmarkView {
    /// A row the store may hold: positive id, non-empty url, a timestamp that
    /// stays clear of overflow when a day offset is added, well-formed tags.
    pub open spec fn row_wf(self) -> bool {
        &&& self.id >= 1
        &&& self.url.len() > 0
        &&& 0 <= self.creation_time <= i64::MAX - 86400
        &&& tags_wf(self.tags)
    }
}

/// A tag name together with the number of bookmarks carrying it.
#[derive(Debug)]
pub struct Tag {
    pub tag_name: String,
    pub bookmarks_count: u64,
}

/// The mathematical value of a [`Tag`].
pub ghost struct TagView {
    pub tag_name: Seq<char>,
    pub bookmarks_count: int,
}

impl View for Tag {
    type V = TagView;

    open spec fn view(&self) -> TagView {
        TagView { tag_name: self.tag_name@, bookmarks_count: self.bookmarks_count as int }
    }
}

impl DeepView for Tag {
    type V = TagView;

    open spec fn deep_view(&self) -> TagView {
        self.view()
    }
}

/// A page request: page number, page size and sort expression, each optional.
pub struct Page {
    pub p: Option<usize>,
    pub limit: Option<usize>,
    pub sort: Option<String>,
}

/// What an engine operation can fail with.
#[derive(Clone, Copy, Debug, PartialEq, Eq, Structural)]
pub enum StoreError {
    /// A lookup by id or url found no bookmark.
    NotFound,
    /// An input broke a validity rule: an empty url or an empty tag name.
    Validation,
    /// The operation would break a uniqueness rule, such as two bookmarks
    /// sharing one url.
    Constraint,
}

impl StoreError {
    /// A short diagnostic for the error.
    pub fn message(&self) -> (r: &'static str)
        ensures
            r@ == self.spec_message(),
    {
        match self {
            StoreError::NotFound => "not found",
            StoreError::Validation => "invalid input",
            StoreError::Constraint => "constraint violated",
        }
    }

    /// The text [`StoreError::message`] returns.
    pub open spec fn spec_message(self) -> Seq<char> {
        match self {
            StoreError::NotFound => "not found"@,
            StoreError::Validation => "invalid input"@,
            StoreError::Constraint => "constraint violated"@,
        }
    }
}

/// An error carried as plain text, for callers that render errors.
pub struct MyError(pub String);

impl MyError {
    /// Wraps an engine error as text.
    pub fn from_store(e: StoreError) -> (r: MyError)
        ensures
            r.0@ == e.spec_message(),
    {
        MyError(String::from_str(e.message()))
    }
}

} // verus!
