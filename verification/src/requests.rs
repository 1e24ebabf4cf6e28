//! Request-side parsing on plain values: id lists from query strings, tag
//! lists from form fields, page counts and favorite paths.

use vstd::prelude::*;

use vstd::string::StringExecFns;

use crate::dates::{digit_val, digit_val_exec};
use crate::search::split_sp_from;
use crate::text::{chars_of, string_from_chars};
use crate::types::{lemma_vec_deep_view_push, StoreError};

verus! {

/// The pieces of a query string, split on `&`; empty pieces count.
pub open spec fn split_amp_from(
    s: Seq<char>,
    i: int,
    cur: Seq<char>,
    acc: Seq<Seq<char>>,
) -> Seq<Seq<char>>
    decreases s.len() - i,
{
    if i < 0 || i >= s.len() {
        acc.push(cur)
    } else if s[i] == '&' {
        split_amp_from(s, i + 1, Seq::empty(), acc.push(cur))
    } else {
        split_amp_from(s, i + 1, cur.push(s[i]), acc)
    }
}

/// The value part of a `key=value` piece: everything after the first `=`,
/// or nothing when there is no `=`.
pub open spec fn value_part(piece: Seq<char>) -> Seq<char> {
    match piece.index_of_first('=') {
        Some(k) => piece.skip(k + 1),
        None => Seq::empty(),
    }
}

/// Whether every character is a decimal digit, and there is one.
pub open spec fn all_digits(s: Seq<char>) -> bool {
    s.len() > 0 && forall|i: int| 0 <= i < s.len() ==> digit_val(#[trigger] s[i]) >= 0
}

/// The value of a digit string.
pub open spec fn digits_val(s: Seq<char>) -> int
    decreases s.len(),
{
    if s.len() == 0 {
        0
    } else {
        digits_val(s.drop_last()) * 10 + digit_val(s.last())
    }
}

/// Ten to the given power.
pub open spec fn pow10(n: nat) -> int
    decreases n,
{
    if n == 0 {
        1
    } else {
        10 * pow10((n - 1) as nat)
    }
}

/// A digit string's value stays under ten to its length.
pub proof fn lemma_digits_val_bound(s: Seq<char>)
    requires
        forall|i: int| 0 <= i < s.len() ==> digit_val(#[trigger] s[i]) >= 0,
    ensures
        0 <= digits_val(s) < pow10(s.len()),
    decreases s.len(),
{
    if s.len() > 0 {
        let dl = s.drop_last();
        assert(forall|i: int| 0 <= i < dl.len() ==> digit_val(#[trigger] dl[i]) >= 0) by {
            assert(forall|i: int|
                0 <= i < dl.len() ==> #[trigger] dl[i] == s[i] && digit_val(s[i]) >= 0);
        }
        lemma_digits_val_bound(dl);
        assert(digit_val(s.last()) <= 9);
        assert(s.len() >= 1);
        assert(pow10(s.len()) == 10 * pow10((s.len() - 1) as nat));
    }
}

/// What an id token parses to: an optional minus sign and at most
/// eighteen digits.
pub open spec fn int_token_ok(s: Seq<char>) -> bool {
    if s.len() > 0 && s[0] == '-' {
        all_digits(s.skip(1)) && s.len() <= 19
    } else {
        all_digits(s) && s.len() <= 18
    }
}

/// The value an id token denotes.
pub open spec fn int_token_val(s: Seq<char>) -> int {
    if s.len() > 0 && s[0] == '-' {
        -digits_val(s.skip(1))
    } else {
        digits_val(s)
    }
}

/// Parses one id token.
fn parse_int_token(cs: &Vec<char>, from: usize) -> (r: Result<i64, StoreError>)
    requires
        from <= cs@.len(),
    ensures
        match r {
            Ok(v) => int_token_ok(cs@.skip(from as int)) && v == int_token_val(
                cs@.skip(from as int),
            ),
            Err(e) => e == StoreError::Validation && !int_token_ok(cs@.skip(from as int)),
        },
{
    let ghost s = cs@.skip(from as int);
    let n = cs.len();
    let neg = from < n && cs[from] == '-';
    let start = if neg {
        from + 1
    } else {
        from
    };
    proof {
        assert(s.len() == n - from);
        if neg {
            assert(s[0] == '-');
            assert(cs@.skip(start as int) =~= s.skip(1));
        }
    }
    let ghost digits = cs@.skip(start as int);
    if start >= n {
        proof {
            assert(digits.len() == 0);
        }
        return Err(StoreError::Validation);
    }
    if n - start > 18 {
        return Err(StoreError::Validation);
    }
    let mut acc: i64 = 0;
    let mut i: usize = start;
    proof {
        assert(digits.subrange(0, 0) =~= Seq::<char>::empty());
        lemma_digits_val_bound(digits.subrange(0, 0));
        lemma_pow10_mono(0, 18);
    }
    while i < n
        invariant
            from <= start <= i <= n,
            n == cs@.len(),
            n - start <= 18,
            start == from + (if neg {
                1int
            } else {
                0int
            }),
            neg == (from < n && cs@[from as int] == '-'),
            neg ==> cs@.skip(from as int).skip(1) == digits,
            digits == cs@.skip(start as int),
            forall|j: int| 0 <= j < i - start ==> digit_val(#[trigger] digits[j]) >= 0,
            acc == digits_val(digits.subrange(0, i - start)),
            0 <= acc < pow10((i - start) as nat),
            pow10((i - start) as nat) <= pow10(18),
        decreases n - i,
    {
        let d = digit_val_exec(cs[i]);
        if d < 0 {
            proof {
                assert(digits[i - start] == cs@[i as int]);
                assert(digit_val(digits[i - start]) < 0);
                assert(!all_digits(digits));
                if neg {
                    assert(cs@.skip(from as int).skip(1) =~= digits);
                } else {
                    assert(cs@.skip(from as int) =~= digits);
                }
                assert(cs@.skip(from as int)[i - from] == cs@[i as int]);
                assert(digit_val(cs@.skip(from as int)[i - from]) < 0);
                assert(!int_token_ok(cs@.skip(from as int)));
            }
            return Err(StoreError::Validation);
        }
        proof {
            reveal_with_fuel(pow10, 20);
            assert(pow10(18) == 1000000000000000000);
            assert(pow10(((i - start) + 1) as nat) == 10 * pow10((i - start) as nat));
            assert(pow10(((i - start) + 1) as nat) <= pow10(18)) by {
                lemma_pow10_mono((i + 1 - start) as nat, 18);
            }
        }
        acc = acc * 10 + d;
        i = i + 1;
        proof {
            let sub = digits.subrange(0, i - start);
            assert(sub.drop_last() =~= digits.subrange(0, i - 1 - start));
            assert(sub.last() == digits[i - 1 - start]);
            assert(digits[i - 1 - start] == cs@[i - 1]);
            lemma_digits_val_bound(sub);
        }
    }
    proof {
        assert(digits.subrange(0, n - start) =~= digits);
        assert(all_digits(digits));
        reveal_with_fuel(pow10, 20);
        lemma_digits_val_bound(digits);
        lemma_pow10_mono(digits.len() as nat, 18);
    }
    if neg {
        Ok(-acc)
    } else {
        Ok(acc)
    }
}

/// Ten-to-the-power grows with the exponent.
pub proof fn lemma_pow10_mono(a: nat, b: nat)
    requires
        a <= b,
    ensures
        pow10(a) <= pow10(b),
    decreases b,
{
    if a < b {
        lemma_pow10_mono(a, (b - 1) as nat);
        assert(pow10(b) == 10 * pow10((b - 1) as nat));
        assert(pow10((b - 1) as nat) >= 1) by {
            lemma_pow10_pos((b - 1) as nat);
        }
    }
}

/// Ten-to-the-power is positive.
pub proof fn lemma_pow10_pos(n: nat)
    ensures
        pow10(n) >= 1,
    decreases n,
{
    if n > 0 {
        lemma_pow10_pos((n - 1) as nat);
    }
}

/// The pieces of a query string, read into strings.
fn split_amp(cs: &Vec<char>) -> (r: Vec<String>)
    ensures
        r.deep_view() == split_amp_from(cs@, 0, Seq::empty(), Seq::empty()),
{
    let n = cs.len();
    let mut acc: Vec<String> = Vec::new();
    let mut cur: Vec<char> = Vec::new();
    let mut i: usize = 0;
    proof {
        assert(acc.deep_view() =~= Seq::<Seq<char>>::empty());
        assert(cur@ =~= Seq::<char>::empty());
    }
    while i < n
        invariant
            i <= n,
            n == cs@.len(),
            split_amp_from(cs@, 0, Seq::empty(), Seq::empty()) == split_amp_from(
                cs@,
                i as int,
                cur@,
                acc.deep_view(),
            ),
        decreases n - i,
    {
        let ghost cur0 = cur@;
        let ghost accd0 = acc.deep_view();
        let c = cs[i];
        if c == '&' {
            let t = string_from_chars(&cur);
            let ghost tg = t;
            let ghost acc0 = acc;
            acc.push(t);
            cur = Vec::new();
            proof {
                lemma_vec_deep_view_push(acc0, acc, tg);
                assert(cur@ =~= Seq::<char>::empty());
            }
        } else {
            cur.push(c);
        }
        i = i + 1;
        proof {
            if cs@[i - 1] == '&' {
                assert(acc.deep_view() == accd0.push(cur0));
                assert(split_amp_from(cs@, i - 1, cur0, accd0) == split_amp_from(
                    cs@,
                    i as int,
                    cur@,
                    acc.deep_view(),
                ));
            } else {
                assert(cur@ == cur0.push(cs@[i - 1]));
                assert(split_amp_from(cs@, i - 1, cur0, accd0) == split_amp_from(
                    cs@,
                    i as int,
                    cur@,
                    acc.deep_view(),
                ));
            }
        }
    }
    let t = string_from_chars(&cur);
    let ghost tg = t;
    let ghost acc0 = acc;
    acc.push(t);
    proof {
        lemma_vec_deep_view_push(acc0, acc, tg);
    }
    acc
}

/// The value an id token of one piece denotes, parsed.
fn parse_piece_value(piece: &str) -> (r: Result<i64, StoreError>)
    ensures
        match r {
            Ok(v) => int_token_ok(value_part(piece@)) && v == int_token_val(value_part(piece@)),
            Err(e) => e == StoreError::Validation && !int_token_ok(value_part(piece@)),
        },
{
    let pc = chars_of(piece);
    let n = pc.len();
    let mut k: usize = 0;
    while k < n && pc[k] != '='
        invariant
            k <= n,
            n == pc@.len(),
            pc@ == piece@,
            forall|j: int| 0 <= j < k ==> pc@[j] != '=',
        decreases n - k,
    {
        k = k + 1;
    }
    let from = if k < n {
        k + 1
    } else {
        n
    };
    proof {
        piece@.index_of_first_ensures('=');
        if k < n {
            assert(piece@[k as int] == '=');
            assert(piece@.contains('='));
            match piece@.index_of_first('=') {
                Some(k2) => {
                    if k2 < k as int {
                        assert(piece@[k2] != '=');
                    }
                    assert(k2 == k as int);
                },
                None => {},
            }
            assert(value_part(piece@) == pc@.skip(from as int));
        } else {
            if piece@.contains('=') {
                let w = piece@.lemma_contains_to_index('=');
            }
            assert(pc@.skip(from as int) =~= Seq::<char>::empty());
            assert(value_part(piece@) == pc@.skip(from as int));
        }
    }
    parse_int_token(&pc, from)
}

/// The ids named by a raw query string of `key=id` pairs separated by `&`.
/// Every piece must carry a value that parses as an integer; otherwise the
/// whole list is a `Validation` error, as a malformed request.
pub fn parse_id_list(raw: &str) -> (r: Result<Vec<i64>, StoreError>)
    ensures
        ({
            let pieces = split_amp_from(raw@, 0, Seq::empty(), Seq::empty());
            match r {
                Ok(v) => {
                    &&& v@.len() == pieces.len()
                    &&& forall|k: int|
                        0 <= k < pieces.len() ==> int_token_ok(
                            value_part(#[trigger] pieces[k]),
                        ) && v@[k] == int_token_val(value_part(pieces[k]))
                },
                Err(e) => e == StoreError::Validation && exists|k: int|
                    0 <= k < pieces.len() && !int_token_ok(value_part(#[trigger] pieces[k])),
            }
        }),
{
    let cs = chars_of(raw);
    let pieces = split_amp(&cs);
    let ghost pv = pieces.deep_view();
    let n = pieces.len();
    let mut out: Vec<i64> = Vec::new();
    let mut i: usize = 0;
    while i < n
        invariant
            i <= n,
            n == pv.len(),
            pv == pieces.deep_view(),
            pv == split_amp_from(raw@, 0, Seq::empty(), Seq::empty()),
            out@.len() == i,
            forall|k: int|
                0 <= k < i ==> int_token_ok(value_part(#[trigger] pv[k])) && out@[k]
                    == int_token_val(value_part(pv[k])),
        decreases n - i,
    {
        proof {
            crate::types::lemma_vec_deep_view_index(pieces, i as int);
        }
        match parse_piece_value(pieces[i].as_str()) {
            Ok(v) => {
                out.push(v);
            },
            Err(_) => {
                return Err(StoreError::Validation);
            },
        }
        i = i + 1;
    }
    Ok(out)
}

/// The tag names of a space-separated form field, in stored form order
/// (empty tokens dropped, case kept for the store to fold).
pub fn parse_tag_list(s: &str) -> (r: Vec<String>)
    ensures
        r.deep_view() == split_sp_from(s@, 0, Seq::empty(), Seq::empty()),
{
    let cs = chars_of(s);
    crate::search::split_tokens(&cs, 0)
}

/// How many pages a listing of `total` bookmarks fills at `limit` per
/// page: the smallest count whose pages hold them all.
pub fn page_count(total: usize, limit: usize) -> (r: usize)
    requires
        limit > 0,
    ensures
        total == 0 ==> r == 0,
        total > 0 ==> r == (total - 1) as int / limit as int + 1,
{
    if total == 0 {
        0
    } else {
        (total - 1) / limit + 1
    }
}

/// The saved navigation path for a tag page.
pub fn favorite_path(name: &str) -> (r: String)
    ensures
        r@ == "/tags/"@ + name@,
{
    let mut out = String::from_str("/tags/");
    out.append(name);
    out
}

} // verus!
