//! Character-level string utilities: ASCII case folding, conversion between
//! `String` and `Vec<char>`, and string equality over views.

use vstd::prelude::*;

verus! {

/// Lowercase counterpart of an ASCII letter; any other character is unchanged.
pub open spec fn lower_char(c: char) -> char {
    match c {
        'A' => 'a',
        'B' => 'b',
        'C' => 'c',
        'D' => 'd',
        'E' => 'e',
        'F' => 'f',
        'G' => 'g',
        'H' => 'h',
        'I' => 'i',
        'J' => 'j',
        'K' => 'k',
        'L' => 'l',
        'M' => 'm',
        'N' => 'n',
        'O' => 'o',
        'P' => 'p',
        'Q' => 'q',
        'R' => 'r',
        'S' => 's',
        'T' => 't',
        'U' => 'u',
        'V' => 'v',
        'W' => 'w',
        'X' => 'x',
        'Y' => 'y',
        'Z' => 'z',
        _ => c,
    }
}

/// A sequence of characters folded to ASCII lowercase.
pub open spec fn lower(s: Seq<char>) -> Seq<char> {
    s.map_values(|c: char| lower_char(c))
}

/// A sequence is lowercase when folding changes nothing.
pub open spec fn is_lower(s: Seq<char>) -> bool {
    lower(s) == s
}

/// Folding a single character twice folds it once.
pub proof fn lemma_lower_char_idempotent(c: char)
    ensures
        lower_char(lower_char(c)) == lower_char(c),
{
}

/// Case folding keeps the length and is idempotent.
pub proof fn lemma_lower_props(s: Seq<char>)
    ensures
        lower(s).len() == s.len(),
        is_lower(lower(s)),
{
    assert forall|i: int| 0 <= i < s.len() implies lower(lower(s))[i] == lower(s)[i] by {
        lemma_lower_char_idempotent(s[i]);
    }
    assert(lower(lower(s)) =~= lower(s));
}

pub fn lower_char_exec(c: char) -> (r: char)
    ensures
        r == lower_char(c),
{
    match c {
        'A' => 'a',
        'B' => 'b',
        'C' => 'c',
        'D' => 'd',
        'E' => 'e',
        'F' => 'f',
        'G' => 'g',
        'H' => 'h',
        'I' => 'i',
        'J' => 'j',
        'K' => 'k',
        'L' => 'l',
        'M' => 'm',
        'N' => 'n',
        'O' => 'o',
        'P' => 'p',
        'Q' => 'q',
        'R' => 'r',
        'S' => 's',
        'T' => 't',
        'U' => 'u',
        'V' => 'v',
        'W' => 'w',
        'X' => 'x',
        'Y' => 'y',
        'Z' => 'z',
        _ => c,
    }
}

/// The characters of a string slice, in order.
pub fn chars_of(s: &str) -> (r: Vec<char>)
    ensures
        r@ == s@,
{
    let n = s.unicode_len();
    let mut r: Vec<char> = Vec::new();
    let mut i: usize = 0;
    while i < n
        invariant
            i <= n,
            n == s@.len(),
            r@ == s@.subrange(0, i as int),
        decreases n - i,
    {
        let c = s.get_char(i);
        r.push(c);
        i = i + 1;
        proof {
            assert(r@ =~= s@.subrange(0, i as int));
        }
    }
    proof {
        assert(r@ =~= s@);
    }
    r
}

/// Relies on `String as FromIterator<char>` (std): collecting characters
/// yields the string of exactly those characters, in order.
#[verifier::external_body]
pub fn string_from_chars(cs: &Vec<char>) -> (r: String)
    ensures
        r@ == cs@,
{
    String::from_iter(cs.iter().copied())
}

/// The string of `s` folded to ASCII lowercase.
pub fn lower_string(s: &str) -> (r: String)
    ensures
        r@ == lower(s@),
{
    let cs = chars_of(s);
    let mut out: Vec<char> = Vec::new();
    let mut i: usize = 0;
    while i < cs.len()
        invariant
            i <= cs.len(),
            cs@ == s@,
            out@ == lower(s@).subrange(0, i as int),
        decreases cs.len() - i,
    {
        out.push(lower_char_exec(cs[i]));
        i = i + 1;
        proof {
            assert(out@ =~= lower(s@).subrange(0, i as int));
        }
    }
    proof {
        assert(out@ =~= lower(s@));
    }
    string_from_chars(&out)
}

/// Equality of two string slices, decided character by character.
pub fn str_eq(a: &str, b: &str) -> (r: bool)
    ensures
        r == (a@ == b@),
{
    let na = a.unicode_len();
    let nb = b.unicode_len();
    if na != nb {
        return false;
    }
    let mut i: usize = 0;
    while i < na
        invariant
            i <= na,
            na == a@.len(),
            na == b@.len(),
            forall|j: int| 0 <= j < i ==> a@[j] == b@[j],
        decreases na - i,
    {
        if a.get_char(i) != b.get_char(i) {
            return false;
        }
        i = i + 1;
    }
    proof {
        assert(a@ =~= b@);
    }
    true
}

/// The needle `n` occurs in `h` starting at position `i`.
pub open spec fn match_at(h: Seq<char>, n: Seq<char>, i: int) -> bool {
    0 <= i && i + n.len() <= h.len() && h.subrange(i, i + n.len()) == n
}

/// The needle `n` occurs somewhere in `h`.
pub open spec fn contains_seq(h: Seq<char>, n: Seq<char>) -> bool {
    exists|i: int| match_at(h, n, i)
}

/// How many positions at or after `i` start an occurrence of `n` in `h`.
pub open spec fn occ_from(h: Seq<char>, n: Seq<char>, i: int) -> nat
    decreases h.len() + 1 - i,
{
    if i < 0 || i + n.len() > h.len() {
        0
    } else {
        (if match_at(h, n, i) {
            1nat
        } else {
            0nat
        }) + occ_from(h, n, i + 1)
    }
}

/// The characters of a string slice, folded to lowercase.
pub fn lower_chars(s: &str) -> (r: Vec<char>)
    ensures
        r@ == lower(s@),
{
    let cs = chars_of(s);
    let mut out: Vec<char> = Vec::new();
    let mut i: usize = 0;
    while i < cs.len()
        invariant
            i <= cs.len(),
            cs@ == s@,
            out@ == lower(s@).subrange(0, i as int),
        decreases cs.len() - i,
    {
        out.push(lower_char_exec(cs[i]));
        i = i + 1;
        proof {
            assert(out@ =~= lower(s@).subrange(0, i as int));
        }
    }
    proof {
        assert(out@ =~= lower(s@));
    }
    out
}

/// Whether `n` occurs in `h` starting at `i`, decided character by character.
pub fn window_match(h: &Vec<char>, n: &Vec<char>, i: usize) -> (r: bool)
    requires
        i + n@.len() <= h@.len(),
    ensures
        r == match_at(h@, n@, i as int),
{
    let hn = h.len();
    let mut j: usize = 0;
    while j < n.len()
        invariant
            hn == h@.len(),
            j <= n@.len(),
            i + n@.len() <= h@.len(),
            forall|t: int| 0 <= t < j ==> h@[i + t] == n@[t],
        decreases n@.len() - j,
    {
        proof {
            assert(i + j < h@.len());
        }
        if h[i + j] != n[j] {
            proof {
                assert(h@.subrange(i as int, i as int + n@.len() as int)[j as int] == h@[i + j]);
            }
            return false;
        }
        j = j + 1;
    }
    proof {
        assert(h@.subrange(i as int, i as int + n@.len() as int) =~= n@);
    }
    true
}

/// Whether `n` occurs anywhere in `h`.
pub fn find_window(h: &Vec<char>, n: &Vec<char>) -> (r: bool)
    ensures
        r == contains_seq(h@, n@),
{
    if n.len() == 0 {
        proof {
            assert(h@.subrange(0, 0) =~= n@);
            assert(match_at(h@, n@, 0));
        }
        return true;
    }
    if n.len() > h.len() {
        proof {
            if contains_seq(h@, n@) {
                let w = choose|w: int| match_at(h@, n@, w);
            }
        }
        return false;
    }
    let hn = h.len();
    let bound = hn - n.len();
    let mut i: usize = 0;
    while i <= bound
        invariant
            hn == h@.len(),
            n@.len() >= 1,
            bound == h@.len() - n@.len(),
            i <= bound + 1,
            forall|t: int| 0 <= t < i ==> !match_at(h@, n@, t),
        decreases bound + 1 - i,
    {
        if window_match(h, n, i) {
            return true;
        }
        i = i + 1;
    }
    proof {
        if contains_seq(h@, n@) {
            let w = choose|w: int| match_at(h@, n@, w);
        }
    }
    false
}

/// How many positions of `h` start an occurrence of `n`.
pub fn occ_count(h: &Vec<char>, n: &Vec<char>) -> (r: usize)
    requires
        n@.len() >= 1,
    ensures
        r == occ_from(h@, n@, 0),
{
    let mut count: usize = 0;
    let mut i: usize = 0;
    if n.len() > h.len() {
        return 0;
    }
    let hn = h.len();
    let bound = hn - n.len();
    while i <= bound
        invariant
            hn == h@.len(),
            n@.len() >= 1,
            bound == h@.len() - n@.len(),
            i <= bound + 1,
            count <= i,
            occ_from(h@, n@, 0) == count + occ_from(h@, n@, i as int),
        decreases bound + 1 - i,
    {
        let hit = window_match(h, n, i);
        if hit {
            count = count + 1;
        }
        i = i + 1;
    }
    proof {
        assert(occ_from(h@, n@, i as int) == 0);
    }
    count
}

} // verus!
