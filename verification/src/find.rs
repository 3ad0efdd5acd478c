//! Substring search in a string of chars, answering with byte offsets as
//! `str::find` and `str::rfind` do.

use vstd::prelude::*;
use vstd::utf8::{encode_utf8, encode_scalar, char_is_scalar};
use crate::scan::{first_from, last_from, lemma_first_from_is, lemma_last_from_is};

verus! {

/// `q` occurs in `s` at char position `p`.
pub open spec fn occurs_at(s: Seq<char>, q: Seq<char>, p: int) -> bool {
    0 <= p && p + q.len() <= s.len() && s.subrange(p, p + q.len()) == q
}

pub open spec fn occurs(s: Seq<char>, q: Seq<char>) -> spec_fn(int) -> bool {
    |p: int| occurs_at(s, q, p)
}

/// The UTF-8 length of the first `p` chars of `s`.
pub open spec fn byte_offset(s: Seq<char>, p: int) -> int {
    encode_utf8(s.take(p)).len() as int
}

/// `str::find`: the byte offset of the first occurrence of `q` in `s`.
pub open spec fn find_in(s: Seq<char>, q: Seq<char>) -> Option<int> {
    let p = first_from(0, s.len() - q.len() + 1, occurs(s, q));
    if q.len() <= s.len() && p <= s.len() - q.len() {
        Some(byte_offset(s, p))
    } else {
        None
    }
}

/// `str::rfind`: the byte offset of the last occurrence of `q` in `s`.
pub open spec fn rfind_in(s: Seq<char>, q: Seq<char>) -> Option<int> {
    let p = last_from(0, s.len() - q.len() + 1, occurs(s, q));
    if p >= 0 {
        Some(byte_offset(s, p))
    } else {
        None
    }
}

/// Encoding a concatenation concatenates the encodings.
pub proof fn lemma_encode_concat(a: Seq<char>, b: Seq<char>)
    ensures
        encode_utf8(a + b) == encode_utf8(a) + encode_utf8(b),
    decreases a.len(),
{
    if a.len() == 0 {
        assert(a + b == b);
        assert(encode_utf8(a) =~= Seq::<u8>::empty());
        assert(encode_utf8(a) + encode_utf8(b) =~= encode_utf8(b));
    } else {
        lemma_encode_concat(a.drop_first(), b);
        assert((a + b).drop_first() == a.drop_first() + b);
        assert((a + b)[0] == a[0]);
        assert(encode_utf8(a + b) =~= encode_scalar(a[0] as u32) + encode_utf8(a.drop_first() + b));
    }
}

/// The byte offset after one more char grows by that char's UTF-8 width.
pub proof fn lemma_byte_offset_step(s: Seq<char>, p: int)
    requires
        0 <= p < s.len(),
    ensures
        byte_offset(s, p + 1) == byte_offset(s, p) + encode_scalar(s[p] as u32).len(),
{
    assert(s.take(p + 1) == s.take(p) + seq![s[p]]);
    lemma_encode_concat(s.take(p), seq![s[p]]);
    assert(seq![s[p]].drop_first() == Seq::<char>::empty());
    assert(encode_utf8(seq![s[p]]) =~= encode_scalar(s[p] as u32) + encode_utf8(Seq::<char>::empty()));
}

/// A char and the chars after it, counted from a char position, stay within
/// the UTF-8 length of the whole text.
pub proof fn lemma_offset_within(t: Seq<char>, a: int, c: int)
    requires
        0 <= a <= c <= t.len(),
    ensures
        a + encode_utf8(t.subrange(a, c)).len() <= encode_utf8(t).len(),
{
    assert(t == t.take(a) + t.subrange(a, c) + t.skip(c));
    lemma_encode_concat(t.take(a) + t.subrange(a, c), t.skip(c));
    lemma_encode_concat(t.take(a), t.subrange(a, c));
    crate::text::lemma_chars_le_bytes(t.take(a));
}

/// A prefix's encoding is no longer than the whole encoding.
pub proof fn lemma_byte_offset_le(s: Seq<char>, p: int)
    requires
        0 <= p <= s.len(),
    ensures
        byte_offset(s, p) <= encode_utf8(s).len(),
{
    assert(s == s.take(p) + s.skip(p));
    lemma_encode_concat(s.take(p), s.skip(p));
}

/// The number of bytes that `c` takes in UTF-8.
fn utf8_width(c: char) -> (w: usize)
    ensures
        w == encode_scalar(c as u32).len(),
{
    proof {
        char_is_scalar(c);
    }
    let v = c as u32;
    if v <= 0x7F {
        1
    } else if v <= 0x7FF {
        2
    } else if v <= 0xFFFF {
        3
    } else {
        4
    }
}

/// Whether `q` occurs in `hay` at char position `p`.
fn occurs_at_exec(hay: &str, q: &str, p: usize, n: usize, m: usize) -> (r: bool)
    requires
        n == hay@.len(),
        m == q@.len(),
        p + m <= n,
    ensures
        r == occurs_at(hay@, q@, p as int),
{
    let mut j: usize = 0;
    while j < m
        invariant
            n == hay@.len(),
            m == q@.len(),
            p + m <= n,
            j <= m,
            forall|k: int| 0 <= k < j ==> hay@[p + k] == q@[k],
        decreases m - j,
    {
        if hay.get_char(p + j) != q.get_char(j) {
            assert(hay@.subrange(p as int, p + m)[j as int] != q@[j as int]);
            return false;
        }
        j += 1;
    }
    assert(hay@.subrange(p as int, p + m) =~= q@);
    true
}

/// The byte offset of the first occurrence of `q` in `hay` (as `str::find` gives it).
pub fn find_str(hay: &str, q: &str) -> (r: Option<usize>)
    requires
        encode_utf8(hay@).len() <= usize::MAX,
    ensures
        opt_int(r) == find_in(hay@, q@),
        r matches Some(b) ==> b <= encode_utf8(hay@).len(),
{
    let n = hay.unicode_len();
    let m = q.unicode_len();
    let total = hay.len();
    if m > n {
        return None;
    }
    let ghost s = hay@;
    let ghost pred = occurs(hay@, q@);
    let mut p: usize = 0;
    let mut b: usize = 0;
    while p <= n - m
        invariant
            s == hay@,
            n == s.len(),
            m == q@.len(),
            m <= n,
            total == encode_utf8(s).len(),
            pred == occurs(s, q@),
            p <= n - m + 1,
            b == byte_offset(s, p as int),
            forall|k: int| 0 <= k < p ==> !#[trigger] pred(k),
        decreases n - m + 1 - p,
    {
        if occurs_at_exec(hay, q, p, n, m) {
            proof {
                lemma_first_from_is(0, n - m + 1, pred, p as int);
                lemma_byte_offset_le(s, p as int);
            }
            return Some(b);
        }
        assert(!pred(p as int));
        assert(p < n) by {
            if m == 0 {
                assert(s.subrange(p as int, p as int) =~= q@);
            }
        }
        proof {
            lemma_byte_offset_step(s, p as int);
            lemma_byte_offset_le(s, p + 1);
        }
        let c = hay.get_char(p);
        b += utf8_width(c);
        p += 1;
    }
    proof {
        lemma_first_from_is(0, n - m + 1, pred, p as int);
    }
    None
}

/// The byte offset of the last occurrence of `q` in `hay` (as `str::rfind` gives it).
pub fn rfind_str(hay: &str, q: &str) -> (r: Option<usize>)
    requires
        encode_utf8(hay@).len() <= usize::MAX,
    ensures
        opt_int(r) == rfind_in(hay@, q@),
        r matches Some(b) ==> b <= encode_utf8(hay@).len(),
{
    let n = hay.unicode_len();
    let m = q.unicode_len();
    let total = hay.len();
    let ghost s = hay@;
    let ghost pred = occurs(hay@, q@);
    if m > n {
        assert(last_from(0, n - m + 1, pred) == -1);
        return None;
    }
    let mut p: usize = n - m;
    loop
        invariant
            s == hay@,
            n == s.len(),
            m == q@.len(),
            m <= n,
            total == encode_utf8(s).len(),
            pred == occurs(s, q@),
            p <= n - m,
            forall|k: int| p < k < n - m + 1 ==> !#[trigger] pred(k),
        ensures
            p == 0,
            !pred(0),
        decreases p,
    {
        if occurs_at_exec(hay, q, p, n, m) {
            proof {
                lemma_last_from_is(0, n - m + 1, pred, p as int);
                lemma_byte_offset_le(s, p as int);
            }
            return Some(byte_offset_of(hay, p, total));
        }
        assert(!pred(p as int));
        if p == 0 {
            break;
        }
        p -= 1;
    }
    proof {
        lemma_last_from_is(0, n - m + 1, pred, -1);
    }
    None
}

/// The UTF-8 length of the first `p` chars of `hay`.
fn byte_offset_of(hay: &str, p: usize, total: usize) -> (b: usize)
    requires
        p <= hay@.len(),
        total == encode_utf8(hay@).len(),
    ensures
        b == byte_offset(hay@, p as int),
{
    let mut i: usize = 0;
    let mut b: usize = 0;
    while i < p
        invariant
            p <= hay@.len(),
            total == encode_utf8(hay@).len(),
            i <= p,
            b == byte_offset(hay@, i as int),
        decreases p - i,
    {
        proof {
            lemma_byte_offset_step(hay@, i as int);
            lemma_byte_offset_le(hay@, i + 1);
        }
        b += utf8_width(hay.get_char(i));
        i += 1;
    }
    b
}

pub open spec fn opt_int(o: Option<usize>) -> Option<int> {
    match o {
        Some(v) => Some(v as int),
        None => None,
    }
}

} // verus!
