//! Tag-list transitions and their rules: lowercase storage, uniqueness of a
//! tag on a bookmark, and the one-directional `done`/`todo` side effect.

use vstd::prelude::*;
use vstd::string::StringExecFns;

use crate::text::{lemma_lower_props, lower, lower_string, str_eq};
use crate::types::{
    lemma_push_contains, lemma_vec_deep_view_index, lemma_vec_deep_view_push,
    lemma_vec_deep_view_remove, tag_wf, tags_wf,
};

verus! {

/// The tag list after inserting `t`: inserting `done` first drops any `todo`;
/// a tag already present is not added twice.
pub open spec fn add_tag(tags: Seq<Seq<char>>, t: Seq<char>) -> Seq<Seq<char>> {
    let base = if t == "done"@ {
        tags.remove_value("todo"@)
    } else {
        tags
    };
    if base.contains(t) {
        base
    } else {
        base.push(t)
    }
}

/// The tag list after inserting each member of `new`, in order.
pub open spec fn add_tags(tags: Seq<Seq<char>>, new: Seq<Seq<char>>) -> Seq<Seq<char>>
    decreases new.len(),
{
    if new.len() == 0 {
        tags
    } else {
        add_tags(add_tag(tags, new[0]), new.drop_first())
    }
}

/// Tag names as a draft's list is stored: each folded to lowercase, empty
/// names dropped, order kept.
pub open spec fn norm_tags(ts: Seq<Seq<char>>) -> Seq<Seq<char>>
    decreases ts.len(),
{
    if ts.len() == 0 {
        Seq::empty()
    } else {
        let rest = norm_tags(ts.drop_last());
        if lower(ts.last()).len() > 0 {
            rest.push(lower(ts.last()))
        } else {
            rest
        }
    }
}

/// Every name a normalized list holds is a well-formed tag name.
pub proof fn lemma_norm_tags_wf(ts: Seq<Seq<char>>)
    ensures
        forall|i: int| 0 <= i < norm_tags(ts).len() ==> tag_wf(#[trigger] norm_tags(ts)[i]),
    decreases ts.len(),
{
    if ts.len() > 0 {
        lemma_norm_tags_wf(ts.drop_last());
        lemma_lower_props(ts.last());
        let rest = norm_tags(ts.drop_last());
        let r = norm_tags(ts);
        assert forall|i: int| 0 <= i < r.len() implies tag_wf(#[trigger] r[i]) by {
            if lower(ts.last()).len() > 0 {
                if i < rest.len() {
                    assert(tag_wf(rest[i]));
                } else {
                    assert(r[i] == lower(ts.last()));
                }
            } else {
                assert(tag_wf(rest[i]));
            }
        }
    }
}

/// What removing a value leaves of a well-formed tag list.
pub proof fn lemma_remove_value_props(tags: Seq<Seq<char>>, t: Seq<char>)
    requires
        tags_wf(tags),
    ensures
        tags_wf(tags.remove_value(t)),
        !tags.contains(t) ==> tags.remove_value(t) == tags,
        tags.contains(t) ==> tags.remove_value(t).len() == tags.len() - 1,
        !tags.remove_value(t).contains(t),
        forall|x: Seq<char>|
            x != t ==> ((#[trigger] tags.remove_value(t).contains(x)) <==> tags.contains(x)),
        forall|i: int, j: int|
            0 <= i < j < tags.remove_value(t).len() ==> tags.remove_value(t)[i]
                != tags.remove_value(t)[j],
        forall|i: int|
            0 <= i < tags.remove_value(t).len() ==> tags.contains(
                #[trigger] tags.remove_value(t)[i],
            ),
{
    let r = tags.remove_value(t);
    tags.index_of_first_ensures(t);
    match tags.index_of_first(t) {
        Some(k) => {
            tags.remove_ensures(k);
            assert forall|j: int| 0 <= j < r.len() implies tags.contains(#[trigger] r[j]) && r[j]
                != t && tag_wf(r[j]) by {
                if j < k {
                    assert(r[j] == tags[j]);
                    assert(tag_wf(tags[j]));
                } else {
                    assert(r[j] == tags[j + 1]);
                    assert(tag_wf(tags[j + 1]));
                }
            }
            assert forall|a: int, b: int| 0 <= a < b < r.len() implies r[a] != r[b] by {
                let a2: int = if a < k {
                    a
                } else {
                    a + 1
                };
                let b2: int = if b < k {
                    b
                } else {
                    b + 1
                };
                assert(r[a] == tags[a2]);
                assert(r[b] == tags[b2]);
            }
            assert forall|x: Seq<char>| x != t && tags.contains(x) implies r.contains(x) by {
                let i = tags.lemma_contains_to_index(x);
                if i < k {
                    assert(r[i] == x);
                } else {
                    assert(r[i - 1] == x);
                }
            }
        },
        None => {},
    }
}

/// What inserting one well-formed tag does to a well-formed list.
pub proof fn lemma_add_tag_props(tags: Seq<Seq<char>>, t: Seq<char>)
    requires
        tags_wf(tags),
        tag_wf(t),
    ensures
        tags_wf(add_tag(tags, t)),
        add_tag(tags, t).contains(t),
        t == "done"@ ==> !add_tag(tags, t).contains("todo"@),
        forall|x: Seq<char>|
            x != t && !(t == "done"@ && x == "todo"@) ==> ((#[trigger] add_tag(tags, t).contains(
                x,
            )) <==> tags.contains(x)),
{
    reveal_strlit("done");
    reveal_strlit("todo");
    assert("done"@ != "todo"@) by {
        assert("done"@[0] == 'd' && "todo"@[0] == 't');
    }
    let base = if t == "done"@ {
        tags.remove_value("todo"@)
    } else {
        tags
    };
    if t == "done"@ {
        lemma_remove_value_props(tags, "todo"@);
        assert forall|i: int| 0 <= i < base.len() implies tag_wf(#[trigger] base[i]) by {
            let k = tags.lemma_contains_to_index(base[i]);
            assert(tag_wf(tags[k]));
        }
    }
    let r = add_tag(tags, t);
    if base.contains(t) {
        assert(r == base);
    } else {
        assert(r == base.push(t));
        assert forall|a: int, b: int| 0 <= a < b < r.len() implies r[a] != r[b] by {
            if b == r.len() - 1 {
                if base.contains(r[a]) {
                } else {
                    assert(r[a] == base[a]);
                    assert(base.contains(base[a]));
                }
            }
        }
        assert forall|i: int| 0 <= i < r.len() implies tag_wf(#[trigger] r[i]) by {
            if i < base.len() {
                assert(tag_wf(base[i]));
            }
        }
        assert(r[r.len() - 1] == t);
        assert(r.contains(t));
    }
    assert forall|x: Seq<char>| x != t && !(t == "done"@ && x == "todo"@) implies ((
    #[trigger] r.contains(x)) <==> tags.contains(x)) by {
        lemma_push_contains(base, t, x);
        if base.contains(t) {
            assert(r == base);
        }
    }
    if t == "done"@ {
        lemma_push_contains(base, t, "todo"@);
    }
}

/// Inserting a batch one later is inserting into the batch's result.
pub proof fn lemma_add_tags_snoc(tags: Seq<Seq<char>>, s: Seq<Seq<char>>, x: Seq<char>)
    ensures
        add_tags(tags, s.push(x)) == add_tag(add_tags(tags, s), x),
    decreases s.len(),
{
    if s.len() == 0 {
        assert(s.push(x)[0] == x);
        assert(s.push(x).drop_first() =~= Seq::<Seq<char>>::empty());
        assert(add_tags(tags, s.push(x)) == add_tags(
            add_tag(tags, x),
            s.push(x).drop_first(),
        ));
        assert(add_tags(add_tag(tags, x), s.push(x).drop_first()) == add_tag(tags, x));
        assert(add_tags(tags, s) == tags);
    } else {
        assert(s.push(x)[0] == s[0]);
        assert(s.push(x).drop_first() =~= s.drop_first().push(x));
        assert(add_tags(tags, s.push(x)) == add_tags(
            add_tag(tags, s[0]),
            s.drop_first().push(x),
        ));
        lemma_add_tags_snoc(add_tag(tags, s[0]), s.drop_first(), x);
        assert(add_tags(tags, s) == add_tags(add_tag(tags, s[0]), s.drop_first()));
    }
}

/// What inserting a batch of well-formed tags does to a well-formed list:
/// well-formedness is kept; nothing appears that was not present or asked
/// for; everything present or asked for stays, except that `todo` may be
/// dropped, and is kept whenever no `done` is inserted.
pub proof fn lemma_add_tags_props(tags: Seq<Seq<char>>, new: Seq<Seq<char>>)
    requires
        tags_wf(tags),
        forall|i: int| 0 <= i < new.len() ==> tag_wf(#[trigger] new[i]),
    ensures
        tags_wf(add_tags(tags, new)),
        forall|x: Seq<char>|
            (#[trigger] add_tags(tags, new).contains(x)) ==> tags.contains(x) || new.contains(x),
        forall|x: Seq<char>|
            x != "todo"@ && (tags.contains(x) || new.contains(x)) ==> (#[trigger] add_tags(
                tags,
                new,
            ).contains(x)),
        !new.contains("done"@) ==> forall|x: Seq<char>|
            (tags.contains(x) || new.contains(x)) ==> (#[trigger] add_tags(tags, new).contains(x)),
    decreases new.len(),
{
    reveal_strlit("done");
    reveal_strlit("todo");
    if new.len() > 0 {
        let t0 = new[0];
        let tags1 = add_tag(tags, t0);
        lemma_add_tag_props(tags, t0);
        assert(new.contains(new[0]));
        assert forall|x: Seq<char>| new.drop_first().contains(x) implies new.contains(x) by {
            let i = new.drop_first().lemma_contains_to_index(x);
            assert(new[i + 1] == x);
        }
        assert forall|x: Seq<char>| x != t0 && new.contains(x) implies new.drop_first().contains(
            x,
        ) by {
            let i = new.lemma_contains_to_index(x);
            assert(new.drop_first()[i - 1] == x);
        }
        lemma_add_tags_props(tags1, new.drop_first());
    }
}

/// Whether the list holds the given name.
pub fn tags_contain(tags: &Vec<String>, t: &str) -> (r: bool)
    ensures
        r == tags.deep_view().contains(t@),
{
    let n = tags.len();
    let mut i: usize = 0;
    while i < n
        invariant
            i <= n,
            n == tags.len(),
            forall|j: int| 0 <= j < i ==> tags.deep_view()[j] != t@,
        decreases n - i,
    {
        if str_eq(tags[i].as_str(), t) {
            proof {
                lemma_vec_deep_view_index(*tags, i as int);
                assert(tags.deep_view()[i as int] == t@);
            }
            return true;
        }
        i = i + 1;
        proof {
            lemma_vec_deep_view_index(*tags, i - 1);
        }
    }
    proof {
        if tags.deep_view().contains(t@) {
            let k = tags.deep_view().lemma_contains_to_index(t@);
        }
    }
    false
}

/// Removes the given name from the list if present.
pub fn remove_tag_vec(tags: &mut Vec<String>, t: &str)
    ensures
        final(tags).deep_view() == old(tags).deep_view().remove_value(t@),
{
    let ghost dv0 = tags.deep_view();
    proof {
        assert(dv0 == old(tags).deep_view());
    }
    let n = tags.len();
    let mut i: usize = 0;
    while i < n
        invariant
            dv0 == old(tags).deep_view(),
            i <= n,
            n == tags.len(),
            tags.deep_view() == dv0,
            forall|j: int| 0 <= j < i ==> dv0[j] != t@,
        decreases n - i,
    {
        if str_eq(tags[i].as_str(), t) {
            let ghost pre = *tags;
            tags.remove(i);
            proof {
                lemma_vec_deep_view_index(pre, i as int);
                lemma_vec_deep_view_remove(pre, *tags, i as int);
                dv0.index_of_first_ensures(t@);
                assert(dv0[i as int] == t@);
                assert(dv0.contains(t@));
                assert(pre.deep_view() == dv0);
                match dv0.index_of_first(t@) {
                    Some(k) => {
                        assert(dv0[k] == t@);
                        if k < i as int {
                            assert(dv0[k] != t@);
                        }
                        assert(k == i as int);
                        assert(dv0.remove_value(t@) == dv0.remove(k));
                    },
                    None => {},
                }
                assert(tags.deep_view() == dv0.remove_value(t@));
            }
            return ;
        }
        i = i + 1;
        proof {
            lemma_vec_deep_view_index(*tags, i - 1);
        }
    }
    proof {
        if dv0.contains(t@) {
            let k = dv0.lemma_contains_to_index(t@);
        }
        dv0.index_of_first_ensures(t@);
    }
}

/// Inserts one stored-form tag name, applying the `done`/`todo` rule.
pub fn add_tag_vec(tags: &mut Vec<String>, t: String)
    requires
        tag_wf(t@),
    ensures
        final(tags).deep_view() == add_tag(old(tags).deep_view(), t@),
{
    if str_eq(t.as_str(), "done") {
        remove_tag_vec(tags, "todo");
    }
    let present = tags_contain(tags, t.as_str());
    if !present {
        let ghost pre = *tags;
        let ghost tg = t;
        tags.push(t);
        proof {
            lemma_vec_deep_view_push(pre, *tags, tg);
        }
    }
}

/// Inserts a batch of stored-form tag names, in order.
pub fn add_tags_vec(tags: &mut Vec<String>, new: &Vec<String>)
    requires
        tags_wf(old(tags).deep_view()),
        forall|i: int| 0 <= i < new.deep_view().len() ==> tag_wf(#[trigger] new.deep_view()[i]),
    ensures
        final(tags).deep_view() == add_tags(old(tags).deep_view(), new.deep_view()),
        tags_wf(final(tags).deep_view()),
{
    let ghost tags0 = old(tags).deep_view();
    let ghost nv = new.deep_view();
    let n = new.len();
    let mut k: usize = 0;
    proof {
        assert(nv.subrange(0, 0) =~= Seq::<Seq<char>>::empty());
    }
    while k < n
        invariant
            k <= n,
            n == new.len(),
            nv == new.deep_view(),
            tags_wf(tags0),
            forall|i: int| 0 <= i < nv.len() ==> tag_wf(#[trigger] nv[i]),
            tags.deep_view() == add_tags(tags0, nv.subrange(0, k as int)),
            tags_wf(tags.deep_view()),
        decreases n - k,
    {
        let t = new[k].clone();
        proof {
            lemma_vec_deep_view_index(*new, k as int);
            assert(t@ == nv[k as int]);
            assert(forall|i: int|
                0 <= i < nv.subrange(0, k as int).len() ==> tag_wf(
                    #[trigger] nv.subrange(0, k as int)[i],
                ));
        }
        add_tag_vec(tags, t);
        k = k + 1;
        proof {
            assert(nv.subrange(0, k as int) =~= nv.subrange(0, k - 1).push(nv[k - 1]));
            lemma_add_tags_snoc(tags0, nv.subrange(0, k - 1), nv[k - 1]);
            lemma_add_tags_props(tags0, nv.subrange(0, k as int));
        }
    }
    proof {
        assert(nv.subrange(0, n as int) =~= nv);
    }
}

/// The stored form of a draft's tag names: lowercased, empties dropped.
pub fn norm_tags_vec(ts: &Vec<String>) -> (r: Vec<String>)
    ensures
        r.deep_view() == norm_tags(ts.deep_view()),
        forall|i: int| 0 <= i < r.deep_view().len() ==> tag_wf(#[trigger] r.deep_view()[i]),
{
    let ghost tv = ts.deep_view();
    let n = ts.len();
    let mut out: Vec<String> = Vec::new();
    let mut i: usize = 0;
    proof {
        assert(tv.subrange(0, 0) =~= Seq::<Seq<char>>::empty());
        assert(out.deep_view() =~= norm_tags(tv.subrange(0, 0)));
    }
    while i < n
        invariant
            i <= n,
            n == ts.len(),
            tv == ts.deep_view(),
            out.deep_view() == norm_tags(tv.subrange(0, i as int)),
        decreases n - i,
    {
        let low = lower_string(ts[i].as_str());
        proof {
            lemma_vec_deep_view_index(*ts, i as int);
            assert(low@ == lower(tv[i as int]));
        }
        if low.as_str().unicode_len() > 0 {
            let ghost pre = out;
            let ghost lg = low;
            out.push(low);
            proof {
                lemma_vec_deep_view_push(pre, out, lg);
            }
        }
        i = i + 1;
        proof {
            let ghost sub = tv.subrange(0, i as int);
            assert(sub.drop_last() =~= tv.subrange(0, i - 1));
            assert(sub.last() == tv[i - 1]);
        }
    }
    proof {
        assert(tv.subrange(0, n as int) =~= tv);
        lemma_norm_tags_wf(tv);
    }
    out
}

/// The tag list after relabeling `o` as `n`: nothing changes when `o` is
/// absent or equals `n`; when `n` is already present the two merge; else
/// `o` is replaced in place.
pub open spec fn rename_in_tags(tags: Seq<Seq<char>>, o: Seq<char>, n: Seq<char>) -> Seq<
    Seq<char>,
> {
    if !tags.contains(o) || o == n {
        tags
    } else if tags.contains(n) {
        tags.remove_value(o)
    } else {
        replace_all(tags, o, n)
    }
}

/// Each occurrence of `o` replaced by `n`, positions kept.
pub open spec fn replace_all(tags: Seq<Seq<char>>, o: Seq<char>, n: Seq<char>) -> Seq<Seq<char>>
    decreases tags.len(),
{
    if tags.len() == 0 {
        Seq::empty()
    } else {
        replace_all(tags.drop_last(), o, n).push(
            if tags.last() == o {
                n
            } else {
                tags.last()
            },
        )
    }
}

/// Replacement works position by position.
pub proof fn lemma_replace_all_index(tags: Seq<Seq<char>>, o: Seq<char>, n: Seq<char>)
    ensures
        replace_all(tags, o, n).len() == tags.len(),
        forall|i: int|
            0 <= i < tags.len() ==> #[trigger] replace_all(tags, o, n)[i] == (if tags[i] == o {
                n
            } else {
                tags[i]
            }),
    decreases tags.len(),
{
    if tags.len() > 0 {
        lemma_replace_all_index(tags.drop_last(), o, n);
        assert forall|i: int|
            0 <= i < tags.len() implies #[trigger] replace_all(tags, o, n)[i] == (if tags[i]
            == o {
            n
        } else {
            tags[i]
        }) by {
            if i < tags.len() - 1 {
                assert(tags.drop_last()[i] == tags[i]);
                assert(replace_all(tags, o, n)[i] == replace_all(tags.drop_last(), o, n)[i]);
            }
        }
    }
}

/// What relabeling does to a well-formed list: well-formedness is kept, `o`
/// is gone, `n` appears wherever `o` was, nothing else changes.
pub proof fn lemma_rename_in_tags_props(tags: Seq<Seq<char>>, o: Seq<char>, n: Seq<char>)
    requires
        tags_wf(tags),
        tag_wf(n),
    ensures
        tags_wf(rename_in_tags(tags, o, n)),
        o != n ==> !rename_in_tags(tags, o, n).contains(o),
        tags.contains(o) ==> rename_in_tags(tags, o, n).contains(n),
        forall|x: Seq<char>|
            x != o && x != n ==> ((#[trigger] rename_in_tags(tags, o, n).contains(x))
                <==> tags.contains(x)),
        !tags.contains(o) ==> rename_in_tags(tags, o, n) == tags,
{
    let r = rename_in_tags(tags, o, n);
    if !tags.contains(o) || o == n {
        if o != n && r.contains(o) {
            let i = r.lemma_contains_to_index(o);
        }
    } else if tags.contains(n) {
        lemma_remove_value_props(tags, o);
        assert forall|i: int| 0 <= i < r.len() implies tag_wf(#[trigger] r[i]) by {
            let k = tags.lemma_contains_to_index(r[i]);
            assert(tag_wf(tags[k]));
        }
    } else {
        lemma_replace_all_index(tags, o, n);
        let ko = tags.lemma_contains_to_index(o);
        assert forall|a: int, b: int| 0 <= a < b < r.len() implies r[a] != r[b] by {
            if tags[a] != o && tags[b] != o {
            } else if tags[a] == o {
                if tags[b] == n {
                    assert(tags.contains(tags[b]));
                }
            } else {
                if tags[a] == n {
                    assert(tags.contains(tags[a]));
                }
            }
        }
        assert forall|i: int| 0 <= i < r.len() implies tag_wf(#[trigger] r[i]) by {
            assert(tag_wf(tags[i]));
        }
        if r.contains(o) {
            let i = r.lemma_contains_to_index(o);
            assert(tags[i] == o || tags[i] == n);
        }
        assert(r[ko] == n);
        assert(r.contains(n));
        assert forall|x: Seq<char>| x != o && x != n implies ((#[trigger] r.contains(x))
            <==> tags.contains(x)) by {
            if tags.contains(x) {
                let i = tags.lemma_contains_to_index(x);
                assert(r.contains(r[i]));
            }
            if r.contains(x) {
                let i = r.lemma_contains_to_index(x);
                assert(tags.contains(tags[i]));
            }
        }
    }
}

/// Relabels `o` as `n` in the list.
pub fn rename_tag_vec(tags: &mut Vec<String>, o: &str, n: &str)
    requires
        tags_wf(old(tags).deep_view()),
        tag_wf(n@),
    ensures
        final(tags).deep_view() == rename_in_tags(old(tags).deep_view(), o@, n@),
{
    let ghost dv0 = tags.deep_view();
    proof {
        assert(dv0 == old(tags).deep_view());
    }
    if !tags_contain(tags, o) || str_eq(o, n) {
        return ;
    }
    if tags_contain(tags, n) {
        remove_tag_vec(tags, o);
        return ;
    }
    let count = tags.len();
    let mut out: Vec<String> = Vec::new();
    let mut i: usize = 0;
    proof {
        assert(out.deep_view() =~= replace_all(dv0.subrange(0, 0), o@, n@));
    }
    while i < count
        invariant
            i <= count,
            count == tags.len(),
            tags.deep_view() == dv0,
            out.deep_view() == replace_all(dv0.subrange(0, i as int), o@, n@),
        decreases count - i,
    {
        let ghost pre = out;
        let hit = str_eq(tags[i].as_str(), o);
        proof {
            lemma_vec_deep_view_index(*tags, i as int);
            assert(hit == (dv0[i as int] == o@));
        }
        let x = if hit {
            String::from_str(n)
        } else {
            tags[i].clone()
        };
        let ghost xg = x;
        out.push(x);
        i = i + 1;
        proof {
            lemma_vec_deep_view_push(pre, out, xg);
            let sub = dv0.subrange(0, i as int);
            assert(sub.drop_last() =~= dv0.subrange(0, i - 1));
            assert(sub.last() == dv0[i - 1]);
            assert(out.deep_view() =~= replace_all(sub, o@, n@));
        }
    }
    *tags = out;
    proof {
        assert(dv0.subrange(0, count as int) =~= dv0);
    }
}

/// The tags of `tags` that the target list keeps, in their stored order.
pub open spec fn keep_tags(tags: Seq<Seq<char>>, target: Seq<Seq<char>>) -> Seq<Seq<char>>
    decreases tags.len(),
{
    if tags.len() == 0 {
        Seq::empty()
    } else {
        let rest = keep_tags(tags.drop_last(), target);
        if target.contains(tags.last()) {
            rest.push(tags.last())
        } else {
            rest
        }
    }
}

/// The target names not yet present, in target order.
pub open spec fn missing_tags(target: Seq<Seq<char>>, tags: Seq<Seq<char>>) -> Seq<Seq<char>>
    decreases target.len(),
{
    if target.len() == 0 {
        Seq::empty()
    } else {
        let rest = missing_tags(target.drop_last(), tags);
        if !tags.contains(target.last()) {
            rest.push(target.last())
        } else {
            rest
        }
    }
}

/// A stored tag list reconciled against a target set: names no longer in the
/// target are removed, target names not yet present are inserted in order
/// (each insertion subject to the `done`/`todo` rule).
pub open spec fn reconcile_tags(tags: Seq<Seq<char>>, target: Seq<Seq<char>>) -> Seq<Seq<char>> {
    add_tags(keep_tags(tags, target), missing_tags(target, tags))
}

/// What keeping does to a well-formed list.
pub proof fn lemma_keep_tags_props(tags: Seq<Seq<char>>, target: Seq<Seq<char>>)
    requires
        tags_wf(tags),
    ensures
        tags_wf(keep_tags(tags, target)),
        forall|x: Seq<char>|
            (#[trigger] keep_tags(tags, target).contains(x)) <==> (tags.contains(x)
                && target.contains(x)),
    decreases tags.len(),
{
    let r = keep_tags(tags, target);
    if tags.len() > 0 {
        let dl = tags.drop_last();
        assert(tags =~= dl.push(tags.last()));
        assert forall|i: int, j: int| 0 <= i < j < dl.len() implies dl[i] != dl[j] by {
            assert(dl[i] == tags[i]);
            assert(dl[j] == tags[j]);
        }
        assert forall|i: int| 0 <= i < dl.len() implies tag_wf(#[trigger] dl[i]) by {
            assert(dl[i] == tags[i]);
            assert(tag_wf(tags[i]));
        }
        lemma_keep_tags_props(dl, target);
        let rest = keep_tags(dl, target);
        assert forall|x: Seq<char>| true implies ((#[trigger] tags.contains(x)) <==> (dl.contains(
            x,
        ) || x == tags.last())) by {
            lemma_push_contains(dl, tags.last(), x);
        }
        if target.contains(tags.last()) {
            assert(r == rest.push(tags.last()));
            assert(tag_wf(tags.last())) by {
                assert(tags[tags.len() - 1] == tags.last());
            }
            assert forall|a: int, b: int| 0 <= a < b < r.len() implies r[a] != r[b] by {
                if b == r.len() - 1 {
                    assert(rest.contains(r[a]));
                    assert(dl.contains(r[a]));
                    if r[a] == tags.last() {
                        let k = dl.lemma_contains_to_index(r[a]);
                        assert(tags[k] == tags[tags.len() - 1]);
                    }
                } else {
                    assert(rest[a] != rest[b]);
                }
            }
            assert forall|i: int| 0 <= i < r.len() implies tag_wf(#[trigger] r[i]) by {
                if i < rest.len() {
                    assert(tag_wf(rest[i]));
                } else {
                    assert(r[i] == tags.last());
                }
            }
            assert forall|x: Seq<char>| true implies ((#[trigger] r.contains(x)) <==> (
            tags.contains(x) && target.contains(x))) by {
                lemma_push_contains(rest, tags.last(), x);
            }
        } else {
            assert(r == rest);
        }
    }
}

/// What the missing list holds: exactly the target names absent from `tags`.
pub proof fn lemma_missing_tags_props(target: Seq<Seq<char>>, tags: Seq<Seq<char>>)
    requires
        forall|i: int| 0 <= i < target.len() ==> tag_wf(#[trigger] target[i]),
    ensures
        forall|i: int|
            0 <= i < missing_tags(target, tags).len() ==> tag_wf(
                #[trigger] missing_tags(target, tags)[i],
            ),
        forall|x: Seq<char>|
            (#[trigger] missing_tags(target, tags).contains(x)) <==> (target.contains(x)
                && !tags.contains(x)),
    decreases target.len(),
{
    let r = missing_tags(target, tags);
    if target.len() > 0 {
        let dl = target.drop_last();
        assert(target =~= dl.push(target.last()));
        assert forall|i: int| 0 <= i < dl.len() implies tag_wf(#[trigger] dl[i]) by {
            assert(dl[i] == target[i]);
            assert(tag_wf(target[i]));
        }
        lemma_missing_tags_props(dl, tags);
        let rest = missing_tags(dl, tags);
        assert forall|x: Seq<char>| true implies ((#[trigger] target.contains(x))
            <==> (dl.contains(x) || x == target.last())) by {
            lemma_push_contains(dl, target.last(), x);
        }
        if !tags.contains(target.last()) {
            assert(r == rest.push(target.last()));
            assert(tag_wf(target.last())) by {
                assert(target[target.len() - 1] == target.last());
            }
            assert forall|i: int| 0 <= i < r.len() implies tag_wf(#[trigger] r[i]) by {
                if i < rest.len() {
                    assert(tag_wf(rest[i]));
                } else {
                    assert(r[i] == target.last());
                }
            }
            assert forall|x: Seq<char>| true implies ((#[trigger] r.contains(x)) <==> (
            target.contains(x) && !tags.contains(x))) by {
                lemma_push_contains(rest, target.last(), x);
            }
        } else {
            assert(r == rest);
        }
    }
}

/// The kept part of the list, computed.
pub fn keep_tags_vec(tags: &Vec<String>, target: &Vec<String>) -> (r: Vec<String>)
    ensures
        r.deep_view() == keep_tags(tags.deep_view(), target.deep_view()),
{
    let ghost tv = tags.deep_view();
    let n = tags.len();
    let mut out: Vec<String> = Vec::new();
    let mut i: usize = 0;
    proof {
        assert(tv.subrange(0, 0) =~= Seq::<Seq<char>>::empty());
        assert(out.deep_view() =~= keep_tags(tv.subrange(0, 0), target.deep_view()));
    }
    while i < n
        invariant
            i <= n,
            n == tags.len(),
            tv == tags.deep_view(),
            out.deep_view() == keep_tags(tv.subrange(0, i as int), target.deep_view()),
        decreases n - i,
    {
        let hit = tags_contain(target, tags[i].as_str());
        proof {
            lemma_vec_deep_view_index(*tags, i as int);
        }
        if hit {
            let ghost pre = out;
            let x = tags[i].clone();
            let ghost xg = x;
            out.push(x);
            proof {
                lemma_vec_deep_view_push(pre, out, xg);
            }
        }
        i = i + 1;
        proof {
            let sub = tv.subrange(0, i as int);
            assert(sub.drop_last() =~= tv.subrange(0, i - 1));
            assert(sub.last() == tv[i - 1]);
        }
    }
    proof {
        assert(tv.subrange(0, n as int) =~= tv);
    }
    out
}

/// The missing part of the target, computed.
pub fn missing_tags_vec(target: &Vec<String>, tags: &Vec<String>) -> (r: Vec<String>)
    ensures
        r.deep_view() == missing_tags(target.deep_view(), tags.deep_view()),
{
    let ghost gv = target.deep_view();
    let n = target.len();
    let mut out: Vec<String> = Vec::new();
    let mut i: usize = 0;
    proof {
        assert(gv.subrange(0, 0) =~= Seq::<Seq<char>>::empty());
        assert(out.deep_view() =~= missing_tags(gv.subrange(0, 0), tags.deep_view()));
    }
    while i < n
        invariant
            i <= n,
            n == target.len(),
            gv == target.deep_view(),
            out.deep_view() == missing_tags(gv.subrange(0, i as int), tags.deep_view()),
        decreases n - i,
    {
        let hit = tags_contain(tags, target[i].as_str());
        proof {
            lemma_vec_deep_view_index(*target, i as int);
        }
        if !hit {
            let ghost pre = out;
            let x = target[i].clone();
            let ghost xg = x;
            out.push(x);
            proof {
                lemma_vec_deep_view_push(pre, out, xg);
            }
        }
        i = i + 1;
        proof {
            let sub = gv.subrange(0, i as int);
            assert(sub.drop_last() =~= gv.subrange(0, i - 1));
            assert(sub.last() == gv[i - 1]);
        }
    }
    proof {
        assert(gv.subrange(0, n as int) =~= gv);
    }
    out
}

/// Reconciles the stored list against a target set of stored-form names.
pub fn reconcile_tags_vec(tags: &mut Vec<String>, target: &Vec<String>)
    requires
        tags_wf(old(tags).deep_view()),
        forall|i: int|
            0 <= i < target.deep_view().len() ==> tag_wf(#[trigger] target.deep_view()[i]),
    ensures
        final(tags).deep_view() == reconcile_tags(old(tags).deep_view(), target.deep_view()),
        tags_wf(final(tags).deep_view()),
{
    let ghost tv0 = tags.deep_view();
    proof {
        assert(tv0 == old(tags).deep_view());
    }
    let kept = keep_tags_vec(tags, target);
    let miss = missing_tags_vec(target, tags);
    proof {
        lemma_keep_tags_props(tv0, target.deep_view());
        lemma_missing_tags_props(target.deep_view(), tv0);
    }
    *tags = kept;
    add_tags_vec(tags, &miss);
}

} // verus!
