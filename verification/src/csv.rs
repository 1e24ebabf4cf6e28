//! The export surface: every bookmark as one row of comma-separated text,
//! in the fixed column order `title,note,excerpt,url,tags,created,cover,
//! highlights`, with unused columns left blank.

use vstd::prelude::*;

use crate::dates::{digit_char, digit_char_exec};
use crate::store::Db;
use crate::text::string_from_chars;
use crate::types::BookmarkView;

verus! {

/// The decimal digits of a non-negative number.
pub open spec fn dec_str(n: int) -> Seq<char>
    decreases n,
{
    if n < 0 {
        Seq::empty()
    } else if n < 10 {
        seq![digit_char(n)]
    } else {
        dec_str(n / 10) + seq![digit_char(n % 10)]
    }
}

/// Appends the decimal digits of a non-negative number.
fn push_dec(out: &mut Vec<char>, n: i64)
    requires
        n >= 0,
    ensures
        final(out)@ == old(out)@ + dec_str(n as int),
    decreases n,
{
    if n < 10 {
        out.push(digit_char_exec(n));
        proof {
            assert(out@ =~= old(out)@ + dec_str(n as int));
        }
    } else {
        push_dec(out, n / 10);
        out.push(digit_char_exec(n % 10));
        proof {
            assert(out@ =~= old(out)@ + dec_str(n as int));
        }
    }
}

/// A tag list joined with commas, in stored order.
pub open spec fn join_tags(tags: Seq<Seq<char>>) -> Seq<char>
    decreases tags.len(),
{
    if tags.len() == 0 {
        Seq::empty()
    } else if tags.len() == 1 {
        tags[0]
    } else {
        join_tags(tags.drop_last()) + seq![','] + tags.last()
    }
}

/// One export row: title, quoted note, blank excerpt, url, the joined tag
/// list, the creation time in seconds, and two blank columns.
pub open spec fn csv_row(b: BookmarkView) -> Seq<char> {
    b.name + seq![','] + seq!['"'] + b.description + seq!['"'] + seq![',', ','] + b.url + seq![
        ',',
    ] + join_tags(b.tags) + seq![','] + dec_str(b.creation_time) + seq![',', ',']
}

/// The whole export: a header line, then one row per bookmark in store
/// order, separated by newlines.
pub open spec fn csv_text(rows: Seq<BookmarkView>) -> Seq<char>
    decreases rows.len(),
{
    if rows.len() == 0 {
        "title,note,excerpt,url,tags,created,cover,highlights"@
    } else {
        csv_text(rows.drop_last()) + seq!['\n'] + csv_row(rows.last())
    }
}

/// Appends the characters of a string slice.
fn push_str_chars(out: &mut Vec<char>, s: &str)
    ensures
        final(out)@ == old(out)@ + s@,
{
    let cs = crate::text::chars_of(s);
    let ghost base = out@;
    proof {
        assert(base == old(out)@);
    }
    let mut i: usize = 0;
    while i < cs.len()
        invariant
            i <= cs@.len(),
            cs@ == s@,
            out@ == base + s@.subrange(0, i as int),
        decreases cs@.len() - i,
    {
        out.push(cs[i]);
        i = i + 1;
        proof {
            assert(out@ =~= base + s@.subrange(0, i as int));
        }
    }
    proof {
        assert(out@ =~= base + s@);
    }
}

/// Appends a tag list joined with commas.
fn push_tags(out: &mut Vec<char>, tags: &Vec<String>)
    ensures
        final(out)@ == old(out)@ + join_tags(tags.deep_view()),
{
    let ghost base = out@;
    let ghost tv = tags.deep_view();
    proof {
        assert(base == old(out)@);
        assert(tv.subrange(0, 0) =~= Seq::<Seq<char>>::empty());
        assert(out@ =~= base + join_tags(tv.subrange(0, 0)));
    }
    let n = tags.len();
    let mut i: usize = 0;
    while i < n
        invariant
            i <= n,
            n == tags@.len(),
            tv == tags.deep_view(),
            out@ == base + join_tags(tv.subrange(0, i as int)),
        decreases n - i,
    {
        if i > 0 {
            out.push(',');
        }
        push_str_chars(out, tags[i].as_str());
        i = i + 1;
        proof {
            crate::types::lemma_vec_deep_view_index(*tags, i - 1);
            let sub = tv.subrange(0, i as int);
            assert(sub.drop_last() =~= tv.subrange(0, i - 1));
            assert(sub.last() == tv[i - 1]);
            if i == 1 {
                assert(join_tags(sub) == sub[0]);
                assert(out@ =~= base + join_tags(sub));
            } else {
                assert(join_tags(sub) == join_tags(tv.subrange(0, i - 1)) + seq![','] + tv[i
                    - 1]);
                assert(out@ =~= base + join_tags(sub));
            }
        }
    }
    proof {
        assert(tv.subrange(0, n as int) =~= tv);
    }
}

impl Db {
    /// The whole store as comma-separated text, one row per bookmark in
    /// store order, private bookmarks included.
    pub fn export_csv(&self) -> (r: String)
        requires
            self.wf(),
        ensures
            r@ == csv_text(self@.rows),
    {
        let mut out: Vec<char> = Vec::new();
        push_str_chars(&mut out, "title,note,excerpt,url,tags,created,cover,highlights");
        proof {
            assert(self@.rows.subrange(0, 0) =~= Seq::<BookmarkView>::empty());
            assert(out@ =~= csv_text(self@.rows.subrange(0, 0)));
        }
        let n = self.len();
        let mut i: usize = 0;
        while i < n
            invariant
                self.wf(),
                i <= n,
                n == self@.rows.len(),
                out@ == csv_text(self@.rows.subrange(0, i as int)),
            decreases n - i,
        {
            let ghost row = self@.rows[i as int];
            let ghost out0 = out@;
            proof {
                assert(row.row_wf());
            }
            let b = self.bookmark_at(i);
            out.push('\n');
            push_str_chars(&mut out, b.name.as_str());
            out.push(',');
            out.push('"');
            push_str_chars(&mut out, b.description.as_str());
            out.push('"');
            out.push(',');
            out.push(',');
            push_str_chars(&mut out, b.url.as_str());
            out.push(',');
            push_tags(&mut out, &b.tags);
            out.push(',');
            push_dec(&mut out, b.creation_time);
            out.push(',');
            out.push(',');
            i = i + 1;
            proof {
                let sub = self@.rows.subrange(0, i as int);
                assert(sub.drop_last() =~= self@.rows.subrange(0, i - 1));
                assert(sub.last() == row);
                assert(out@ =~= out0 + seq!['\n'] + csv_row(row));
                assert(out@ =~= csv_text(sub));
            }
        }
        proof {
            assert(self@.rows.subrange(0, n as int) =~= self@.rows);
        }
        string_from_chars(&out)
    }
}

} // verus!
