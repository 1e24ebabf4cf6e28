//! The bulk importer: line-oriented drafts (a name line, then a url line
//! with inline tags) and the deduplicating batch insert.

use vstd::prelude::*;

use vstd::string::StringExecFns;

use crate::search::split_sp_from;
use crate::store::{
    insert_one_next, insert_one_ok, insert_one_reported, insert_one_value, Db, DbView,
};
use crate::text::{chars_of, string_from_chars};
use crate::types::{lemma_vec_deep_view_concat, lemma_vec_deep_view_push, Bookmark, StoreError};

verus! {

/// A parsed bulk-import entry, not yet stored.
pub struct Draft {
    pub name: String,
    pub url: String,
    pub tags: Vec<String>,
}

/// The mathematical value of a [`Draft`].
pub ghost struct DraftView {
    pub name: Seq<char>,
    pub url: Seq<char>,
    pub tags: Seq<Seq<char>>,
}

impl View for Draft {
    type V = DraftView;

    open spec fn view(&self) -> DraftView {
        DraftView { name: self.name@, url: self.url@, tags: self.tags.deep_view() }
    }
}

impl DeepView for Draft {
    type V = DraftView;

    open spec fn deep_view(&self) -> DraftView {
        self.view()
    }
}

/// A line with its trailing carriage return removed, as line splitting
/// strips `\r\n` endings.
pub open spec fn strip_cr(cur: Seq<char>) -> Seq<char> {
    if cur.len() > 0 && cur.last() == '\r' {
        cur.drop_last()
    } else {
        cur
    }
}

/// The lines of `s` from position `i` on; `cur` and `acc` carry the line
/// being read and those already read. A final line without a newline
/// counts; a trailing newline adds no empty line.
pub open spec fn split_lines_from(
    s: Seq<char>,
    i: int,
    cur: Seq<char>,
    acc: Seq<Seq<char>>,
) -> Seq<Seq<char>>
    decreases s.len() - i,
{
    if i < 0 || i >= s.len() {
        if cur.len() > 0 {
            acc.push(strip_cr(cur))
        } else {
            acc
        }
    } else if s[i] == '\n' {
        split_lines_from(s, i + 1, Seq::empty(), acc.push(strip_cr(cur)))
    } else {
        split_lines_from(s, i + 1, cur.push(s[i]), acc)
    }
}

/// The lines of a text.
pub open spec fn split_lines(s: Seq<char>) -> Seq<Seq<char>> {
    split_lines_from(s, 0, Seq::empty(), Seq::empty())
}

/// The url part of a url line: everything before the first space.
pub open spec fn url_part(ul: Seq<char>) -> Seq<char> {
    match ul.index_of_first(' ') {
        Some(k) => ul.subrange(0, k),
        None => ul,
    }
}

/// The inline tag tokens of a url line: everything after the first space,
/// split on spaces.
pub open spec fn inline_tags(ul: Seq<char>) -> Seq<Seq<char>> {
    match ul.index_of_first(' ') {
        Some(k) => split_sp_from(ul, k + 1, Seq::empty(), Seq::empty()),
        None => Seq::empty(),
    }
}

/// The draft a pair of lines and the batch-wide tag list describe: the
/// name defaults to the url when the name line is empty; the tag list is
/// the url line's inline tokens followed by the batch-wide tokens.
pub open spec fn draft_of(nl: Seq<char>, ul: Seq<char>, all: Seq<char>) -> DraftView {
    let url = url_part(ul);
    DraftView {
        name: if nl.len() == 0 {
            url
        } else {
            nl
        },
        url: url,
        tags: inline_tags(ul) + split_sp_from(all, 0, Seq::empty(), Seq::empty()),
    }
}

/// The drafts of a bulk-import text: one per pair of lines, an odd final
/// line discarded.
pub open spec fn drafts_of(input: Seq<char>, all: Seq<char>) -> Seq<DraftView> {
    let lines = split_lines(input);
    Seq::new((lines.len() / 2) as nat, |k: int| draft_of(lines[2 * k], lines[2 * k + 1], all))
}

/// A display name as the importer stores it: angle brackets defused.
pub open spec fn esc_name(s: Seq<char>) -> Seq<char>
    decreases s.len(),
{
    if s.len() == 0 {
        Seq::empty()
    } else {
        esc_name(s.drop_last()) + (if s.last() == '<' {
            "&lt"@
        } else if s.last() == '>' {
            "&gt"@
        } else {
            seq![s.last()]
        })
    }
}

/// The store after a batch of drafts, applied in order.
pub open spec fn bulk_next(db: DbView, drafts: Seq<DraftView>, now: int) -> DbView
    decreases drafts.len(),
{
    if drafts.len() == 0 {
        db
    } else {
        bulk_next(
            insert_one_next(db, esc_name(drafts[0].name), drafts[0].url, Seq::empty(), drafts[0].tags, now),
            drafts.drop_first(),
            now,
        )
    }
}

/// Applying a batch one draft longer is one insert into the batch's result.
pub proof fn lemma_bulk_next_snoc(db: DbView, s: Seq<DraftView>, d: DraftView, now: int)
    ensures
        bulk_next(db, s.push(d), now) == insert_one_next(
            bulk_next(db, s, now),
            esc_name(d.name),
            d.url,
            Seq::empty(),
            d.tags,
            now,
        ),
    decreases s.len(),
{
    if s.len() == 0 {
        assert(s.push(d)[0] == d);
        assert(s.push(d).drop_first() =~= Seq::<DraftView>::empty());
        assert(bulk_next(db, s, now) == db);
        assert(bulk_next(
            insert_one_next(db, esc_name(d.name), d.url, Seq::empty(), d.tags, now),
            s.push(d).drop_first(),
            now,
        ) == insert_one_next(db, esc_name(d.name), d.url, Seq::empty(), d.tags, now));
    } else {
        assert(s.push(d)[0] == s[0]);
        assert(s.push(d).drop_first() =~= s.drop_first().push(d));
        lemma_bulk_next_snoc(
            insert_one_next(db, esc_name(s[0].name), s[0].url, Seq::empty(), s[0].tags, now),
            s.drop_first(),
            d,
            now,
        );
        assert(bulk_next(db, s, now) == bulk_next(
            insert_one_next(db, esc_name(s[0].name), s[0].url, Seq::empty(), s[0].tags, now),
            s.drop_first(),
            now,
        ));
    }
}

/// What the batch reports for the draft at position `k`: exactly what a
/// single insert against the store state reached so far reports.
pub open spec fn bulk_reported(
    db0: DbView,
    drafts: Seq<DraftView>,
    now: int,
    k: int,
    b: Bookmark,
) -> bool {
    let pre = bulk_next(db0, drafts.subrange(0, k), now);
    b@ == insert_one_value(pre, esc_name(drafts[k].name), drafts[k].url, Seq::empty(), drafts[k].tags, now)
}

/// A display name with angle brackets defused, computed.
pub fn esc_name_exec(s: &str) -> (r: String)
    ensures
        r@ == esc_name(s@),
{
    let cs = chars_of(s);
    let mut out: Vec<char> = Vec::new();
    let mut i: usize = 0;
    proof {
        assert(s@.subrange(0, 0) =~= Seq::<char>::empty());
        assert(out@ =~= esc_name(s@.subrange(0, 0)));
    }
    while i < cs.len()
        invariant
            i <= cs@.len(),
            cs@ == s@,
            out@ == esc_name(s@.subrange(0, i as int)),
        decreases cs@.len() - i,
    {
        let c = cs[i];
        if c == '<' {
            out.push('&');
            out.push('l');
            out.push('t');
        } else if c == '>' {
            out.push('&');
            out.push('g');
            out.push('t');
        } else {
            out.push(c);
        }
        i = i + 1;
        proof {
            let sub = s@.subrange(0, i as int);
            assert(sub.drop_last() =~= s@.subrange(0, i - 1));
            assert(sub.last() == s@[i - 1]);
            reveal_strlit("&lt");
            reveal_strlit("&gt");
            assert(out@ =~= esc_name(sub));
        }
    }
    proof {
        assert(s@.subrange(0, cs@.len() as int) =~= s@);
    }
    string_from_chars(&out)
}

/// The lines of a text, read into strings.
pub fn split_lines_exec(s: &str) -> (r: Vec<String>)
    ensures
        r.deep_view() == split_lines(s@),
{
    let cs = chars_of(s);
    let n = cs.len();
    let mut acc: Vec<String> = Vec::new();
    let mut cur: Vec<char> = Vec::new();
    let mut i: usize = 0;
    proof {
        assert(acc.deep_view() =~= Seq::<Seq<char>>::empty());
        assert(cur@ =~= Seq::<char>::empty());
    }
    while i < n
        invariant
            i <= n,
            n == cs@.len(),
            cs@ == s@,
            split_lines(s@) == split_lines_from(s@, i as int, cur@, acc.deep_view()),
        decreases n - i,
    {
        let ghost cur0 = cur@;
        let ghost accd0 = acc.deep_view();
        let c = cs[i];
        if c == '\n' {
            let stripped = if cur.len() > 0 && cur[cur.len() - 1] == '\r' {
                cur.pop();
                string_from_chars(&cur)
            } else {
                string_from_chars(&cur)
            };
            let ghost tg = stripped;
            let ghost acc0 = acc;
            acc.push(stripped);
            cur = Vec::new();
            proof {
                lemma_vec_deep_view_push(acc0, acc, tg);
                assert(tg@ == strip_cr(cur0));
                assert(cur@ =~= Seq::<char>::empty());
            }
        } else {
            cur.push(c);
        }
        i = i + 1;
        proof {
            if s@[i - 1] == '\n' {
                assert(acc.deep_view() == accd0.push(strip_cr(cur0)));
                assert(split_lines_from(s@, i - 1, cur0, accd0) == split_lines_from(
                    s@,
                    i as int,
                    cur@,
                    acc.deep_view(),
                ));
            } else {
                assert(cur@ == cur0.push(s@[i - 1]));
                assert(split_lines_from(s@, i - 1, cur0, accd0) == split_lines_from(
                    s@,
                    i as int,
                    cur@,
                    acc.deep_view(),
                ));
            }
        }
    }
    if cur.len() > 0 {
        let ghost cur0 = cur@;
        let t = if cur[cur.len() - 1] == '\r' {
            cur.pop();
            string_from_chars(&cur)
        } else {
            string_from_chars(&cur)
        };
        let ghost tg = t;
        let ghost acc0 = acc;
        acc.push(t);
        proof {
            lemma_vec_deep_view_push(acc0, acc, tg);
            assert(tg@ == strip_cr(cur0));
        }
    }
    acc
}

/// Parses one draft from its pair of lines and the batch-wide tag list.
pub fn parse_bookmark(name_line: &str, url_line: &str, tags_for_all: &str) -> (r: Draft)
    ensures
        r@ == draft_of(name_line@, url_line@, tags_for_all@),
{
    let uc = chars_of(url_line);
    let n = uc.len();
    let mut k: usize = 0;
    while k < n && uc[k] != ' '
        invariant
            k <= n,
            n == uc@.len(),
            uc@ == url_line@,
            forall|j: int| 0 <= j < k ==> uc@[j] != ' ',
        decreases n - k,
    {
        k = k + 1;
    }
    proof {
        url_line@.index_of_first_ensures(' ');
        if k < n {
            assert(url_line@[k as int] == ' ');
            assert(url_line@.contains(' '));
            match url_line@.index_of_first(' ') {
                Some(k2) => {
                    if k2 < k as int {
                        assert(url_line@[k2] != ' ');
                    }
                    assert(k2 == k as int);
                },
                None => {},
            }
        } else {
            if url_line@.contains(' ') {
                let w = url_line@.lemma_contains_to_index(' ');
            }
        }
    }
    let mut uchars: Vec<char> = Vec::new();
    let mut j: usize = 0;
    proof {
        assert(uchars@ =~= uc@.subrange(0, 0));
    }
    while j < k
        invariant
            j <= k <= uc@.len(),
            uchars@ == uc@.subrange(0, j as int),
        decreases k - j,
    {
        uchars.push(uc[j]);
        j = j + 1;
        proof {
            assert(uchars@ =~= uc@.subrange(0, j as int));
        }
    }
    let url = string_from_chars(&uchars);
    proof {
        if k < n {
            assert(url@ == url_part(url_line@));
        } else {
            assert(uc@.subrange(0, n as int) =~= url_line@);
            assert(url@ == url_part(url_line@));
        }
    }
    let mut tags: Vec<String> = if k < n {
        crate::search::split_tokens(&uc, k + 1)
    } else {
        Vec::new()
    };
    proof {
        if k >= n {
            assert(tags.deep_view() =~= Seq::<Seq<char>>::empty());
        }
        assert(tags.deep_view() == inline_tags(url_line@));
    }
    let ac = chars_of(tags_for_all);
    let mut all = crate::search::split_tokens(&ac, 0);
    let ghost tags0 = tags;
    let ghost all0 = all;
    tags.append(&mut all);
    proof {
        lemma_vec_deep_view_concat(tags0, all0, tags);
        assert(tags.deep_view() == inline_tags(url_line@) + split_sp_from(
            tags_for_all@,
            0,
            Seq::empty(),
            Seq::empty(),
        ));
    }
    let name = if name_line.unicode_len() == 0 {
        url.clone()
    } else {
        String::from_str(name_line)
    };
    Draft { name, url, tags }
}

impl Db {
    /// Inserts a batch of drafts parsed from line-oriented text: line pairs
    /// of name and url-plus-inline-tags, with `tags_for_all` added to every
    /// draft and `now` stamped on every fresh row. The whole batch is
    /// checked first: a draft with an empty url is a `Validation` error and
    /// a batch that would exhaust the id space a `Constraint` error, either
    /// leaving the store untouched. Otherwise every draft is reported back,
    /// a fresh bookmark or a `dup`-marked existing one.
    pub fn insert(&mut self, input: &str, tags_for_all: &str, now: i64) -> (r: Result<
        Vec<Bookmark>,
        StoreError,
    >)
        requires
            old(self).wf(),
            0 <= now <= i64::MAX - 86400,
        ensures
            final(self).wf(),
            final(self)@.favorites == old(self)@.favorites,
            final(self)@.local_offset == old(self)@.local_offset,
            ({
                let drafts = drafts_of(input@, tags_for_all@);
                match r {
                    Ok(v) => {
                        &&& forall|k: int|
                            0 <= k < drafts.len() ==> (#[trigger] drafts[k]).url.len() > 0
                        &&& old(self)@.next_id + drafts.len() <= i64::MAX
                        &&& final(self)@ == bulk_next(old(self)@, drafts, now as int)
                        &&& v@.len() == drafts.len()
                        &&& forall|k: int|
                            0 <= k < drafts.len() ==> bulk_reported(
                                old(self)@,
                                drafts,
                                now as int,
                                k,
                                #[trigger] v@[k],
                            )
                    },
                    Err(e) => {
                        &&& final(self)@ == old(self)@
                        &&& (e == StoreError::Validation && exists|k: int|
                            0 <= k < drafts.len() && (#[trigger] drafts[k]).url.len() == 0) || (e
                            == StoreError::Constraint && (forall|k: int|
                            0 <= k < drafts.len() ==> (#[trigger] drafts[k]).url.len() > 0) && old(
                            self,
                        )@.next_id + drafts.len() > i64::MAX)
                    },
                }
            }),
    {
        let ghost db0 = old(self)@;
        let ghost dspec = drafts_of(input@, tags_for_all@);
        let lines = split_lines_exec(input);
        let ln = lines.len();
        let count = ln / 2;
        let mut drafts: Vec<Draft> = Vec::new();
        let mut k: usize = 0;
        while k < count
            invariant
                self@ == old(self)@,
                old(self).wf(),
                ln == lines@.len(),
                2 * count <= ln,
                count == lines.deep_view().len() / 2,
                lines.deep_view() == split_lines(input@),
                dspec == drafts_of(input@, tags_for_all@),
                k <= count,
                drafts.deep_view().len() == k,
                forall|j: int| 0 <= j < k ==> drafts.deep_view()[j] == dspec[j],
            decreases count - k,
        {
            let ghost pre = drafts;
            let d = parse_bookmark(
                lines[2 * k].as_str(),
                lines[2 * k + 1].as_str(),
                tags_for_all,
            );
            let ghost dg = d;
            drafts.push(d);
            k = k + 1;
            proof {
                lemma_vec_deep_view_push(pre, drafts, dg);
                crate::types::lemma_vec_deep_view_index(lines, 2 * (k - 1));
                crate::types::lemma_vec_deep_view_index(lines, 2 * (k - 1) + 1);
                assert(dg@ == dspec[k - 1]);
            }
        }
        proof {
            assert(dspec.len() == count);
        }
        let n = drafts.len();
        let mut k2: usize = 0;
        while k2 < n
            invariant
                self@ == old(self)@,
                old(self).wf(),
                dspec == drafts_of(input@, tags_for_all@),
                k2 <= n,
                n == drafts.deep_view().len(),
                n == dspec.len(),
                forall|j: int| 0 <= j < n ==> drafts.deep_view()[j] == dspec[j],
                forall|j: int| 0 <= j < k2 ==> (#[trigger] dspec[j]).url.len() > 0,
            decreases n - k2,
        {
            let du = drafts[k2].url.as_str();
            let dulen = du.unicode_len();
            proof {
                assert(du@ == drafts@[k2 as int].url@);
                assert(dulen == drafts@[k2 as int].url@.len());
            }
            if dulen == 0 {
                proof {
                    crate::types::lemma_vec_deep_view_index(drafts, k2 as int);
                    assert(drafts.deep_view()[k2 as int] == drafts@[k2 as int]@);
                    assert(drafts@[k2 as int]@.url == drafts@[k2 as int].url@);
                    assert(drafts.deep_view()[k2 as int] == dspec[k2 as int]);
                    assert(drafts@[k2 as int].url@.len() == 0);
                    assert(dspec[k2 as int].url.len() == 0);
                    assert(drafts_of(input@, tags_for_all@)[k2 as int].url.len() == 0);
                    assert(exists|k: int|
                        0 <= k < drafts_of(input@, tags_for_all@).len() && (#[trigger] drafts_of(
                            input@,
                            tags_for_all@,
                        )[k]).url.len() == 0);
                }
                return Err(StoreError::Validation);
            }
            k2 = k2 + 1;
            proof {
                crate::types::lemma_vec_deep_view_index(drafts, k2 - 1);
            }
        }
        let room = i64::MAX - self.next_id();
        if (n as u128) > (room as u128) {
            return Err(StoreError::Constraint);
        }
        let mut out: Vec<Bookmark> = Vec::new();
        let mut k3: usize = 0;
        proof {
            assert(dspec.subrange(0, 0) =~= Seq::<DraftView>::empty());
            assert(bulk_next(db0, dspec.subrange(0, 0), now as int) == db0);
        }
        while k3 < n
            invariant
                0 <= now <= i64::MAX - 86400,
                db0.wf(),
                db0 == old(self)@,
                dspec == drafts_of(input@, tags_for_all@),
                k3 <= n,
                n == drafts.deep_view().len(),
                n == dspec.len(),
                forall|j: int| 0 <= j < n ==> drafts.deep_view()[j] == dspec[j],
                forall|j: int| 0 <= j < n ==> (#[trigger] dspec[j]).url.len() > 0,
                db0.next_id + n <= i64::MAX,
                self.wf(),
                self@ == bulk_next(db0, dspec.subrange(0, k3 as int), now as int),
                self@.next_id <= db0.next_id + k3,
                self@.favorites == db0.favorites,
                self@.local_offset == db0.local_offset,
                out@.len() == k3,
                forall|j: int|
                    0 <= j < k3 ==> bulk_reported(db0, dspec, now as int, j, #[trigger] out@[j]),
            decreases n - k3,
        {
            let ghost pre_view = self@;
            let escn = esc_name_exec(drafts[k3].name.as_str());
            proof {
                crate::types::lemma_vec_deep_view_index(drafts, k3 as int);
                assert(drafts@[k3 as int]@ == dspec[k3 as int]);
                reveal_strlit("");
                assert(""@ =~= Seq::<char>::empty());
            }
            let res = self.insert_one(
                escn.as_str(),
                drafts[k3].url.as_str(),
                "",
                &drafts[k3].tags,
                now,
            );
            match res {
                Ok(b) => {
                    out.push(b);
                },
                Err(_) => {
                    proof {
                        assert(insert_one_ok(pre_view, dspec[k3 as int].url));
                        assert(false);
                    }
                    return Err(StoreError::Constraint);
                },
            }
            k3 = k3 + 1;
            proof {
                assert(dspec.subrange(0, k3 as int) =~= dspec.subrange(0, k3 - 1).push(
                    dspec[k3 - 1],
                ));
                lemma_bulk_next_snoc(db0, dspec.subrange(0, k3 - 1), dspec[k3 - 1], now as int);
                assert(bulk_reported(db0, dspec, now as int, k3 - 1, out@[k3 - 1]));
            }
        }
        proof {
            assert(dspec.subrange(0, n as int) =~= dspec);
        }
        Ok(out)
    }
}

} // verus!
