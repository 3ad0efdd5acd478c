//! Text for the status line and the command line: file sizes, and the parts
//! of a `/query/replacement/` command.

use vstd::prelude::*;
use crate::strings::push_char;
use crate::scan::{first_from, lemma_first_from, lemma_first_from_is};

verus! {

const KB: usize = 1024;

const MB: usize = 1048576;

const GB: usize = 1073741824;

/// `2` to the power `e`.
pub open spec fn two_pow(e: nat) -> nat
    decreases e,
{
    if e == 0 {
        1
    } else {
        2 * two_pow((e - 1) as nat)
    }
}

/// The number of binary digits of `n` (none for `0`).
pub open spec fn bit_len(n: nat) -> nat
    decreases n,
{
    if n == 0 {
        0
    } else {
        1 + bit_len(n / 2)
    }
}

/// `num / den` rounded to the nearest integer, a tie to the even one.
pub open spec fn round_div(num: nat, den: nat) -> nat {
    let q = num / den;
    let r = num % den;
    if 2 * r > den || (2 * r == den && q % 2 == 1) {
        q + 1
    } else {
        q
    }
}

/// The value of `n` as a double: `n` kept to 53 significant bits, rounded to
/// nearest, a tie to even.
pub open spec fn as_double(n: nat) -> nat {
    if bit_len(n) <= 53 {
        n
    } else {
        let p = two_pow((bit_len(n) - 53) as nat);
        round_div(n, p) * p
    }
}

/// `v / 2^k` in tenths, rounded to nearest, a tie to even: what printing the
/// quotient with one decimal shows, times ten.
pub open spec fn tenths(v: nat, k: nat) -> nat {
    round_div(v * 10, two_pow(k))
}

/// The char of the decimal digit `d`.
pub open spec fn digit_char(d: nat) -> char {
    (d + 48) as char
}

/// `n` written in decimal.
pub open spec fn decimal(n: nat) -> Seq<char>
    decreases n,
{
    if n < 10 {
        seq![digit_char(n)]
    } else {
        decimal(n / 10).push(digit_char(n % 10))
    }
}

/// `t` tenths written with one decimal, as `12.3`.
pub open spec fn one_decimal(t: nat) -> Seq<char> {
    decimal(t / 10).push('.').push(digit_char(t % 10))
}

/// A size in bytes as the status line shows it: in GB, MB or KB with one
/// decimal from 1 KB up, in bytes below.
pub open spec fn size_text(bytes: nat) -> Seq<char> {
    if bytes >= 1073741824 {
        one_decimal(tenths(as_double(bytes), 30)) + seq![' ', 'G', 'B']
    } else if bytes >= 1048576 {
        one_decimal(tenths(as_double(bytes), 20)) + seq![' ', 'M', 'B']
    } else if bytes >= 1024 {
        one_decimal(tenths(as_double(bytes), 10)) + seq![' ', 'K', 'B']
    } else {
        decimal(bytes) + seq![' ', 'B']
    }
}

proof fn lemma_two_pow_mono(i: nat, j: nat)
    requires
        i <= j,
    ensures
        two_pow(i) <= two_pow(j),
    decreases j,
{
    if i < j {
        lemma_two_pow_mono(i, (j - 1) as nat);
    }
}

proof fn lemma_bit_len_bound(n: nat, k: nat)
    requires
        n < two_pow(k),
    ensures
        bit_len(n) <= k,
    decreases k,
{
    if n > 0 {
        lemma_bit_len_bound(n / 2, (k - 1) as nat);
    }
}

/// Appends `n` in decimal.
pub(crate) fn push_decimal(s: &mut String, n: u128)
    ensures
        final(s)@ == old(s)@ + decimal(n as nat),
    decreases n,
{
    if n >= 10 {
        push_decimal(s, n / 10);
    }
    let d: u8 = (n % 10) as u8;
    push_char(s, (d + 48) as char);
    assert(final(s)@ == old(s)@ + decimal(n as nat));
}

fn round_div_exec(num: u128, den: u128) -> (r: u128)
    requires
        0 < den <= 0x1_0000_0000_0000_0000,
        num < 0x1_0000_0000_0000_0000_0000_0000,
    ensures
        r == round_div(num as nat, den as nat),
        r <= num + 1,
{
    let q = num / den;
    let r = num % den;
    assert(q <= num) by (nonlinear_arith)
        requires
            q == num / den,
            den > 0,
    ;
    if 2 * r > den || (2 * r == den && q % 2 == 1) {
        q + 1
    } else {
        q
    }
}

proof fn lemma_two_pow_64()
    ensures
        two_pow(64) == 0x1_0000_0000_0000_0000,
        two_pow(11) == 2048,
{
    reveal_with_fuel(two_pow, 65);
}

/// The value of `n` as a double (`n as f64`), exactly.
fn to_double(n: u128) -> (v: u128)
    requires
        n < 0x1_0000_0000_0000_0000,
    ensures
        v == as_double(n as nat),
        v < 0x1_0000_0000_0000_0000_0000,
{
    proof {
        lemma_two_pow_64();
        lemma_bit_len_bound(n as nat, 64);
    }
    let mut m: u128 = n;
    let mut len: u32 = 0;
    while m > 0
        invariant
            bit_len(n as nat) == len + bit_len(m as nat),
            bit_len(n as nat) <= 64,
        decreases m,
    {
        m = m / 2;
        len = len + 1;
    }
    if len <= 53 {
        return n;
    }
    let mut p: u128 = 1;
    let mut i: u32 = 0;
    while i < len - 53
        invariant
            len <= 64,
            i <= len - 53,
            p == two_pow(i as nat),
            two_pow(11) == 2048,
        decreases len - 53 - i,
    {
        proof {
            lemma_two_pow_mono(i as nat, 10);
        }
        p = p * 2;
        i = i + 1;
    }
    proof {
        lemma_two_pow_mono(i as nat, 11);
        lemma_two_pow_mono(0, i as nat);
    }
    let q = round_div_exec(n, p);
    assert(q * p <= 0x1_0000_0000_0000_0000 * 2048) by (nonlinear_arith)
        requires
            q <= 0x1_0000_0000_0000_0000,
            p <= 2048,
    ;
    q * p
}

/// Appends `t` tenths with one decimal.
fn push_tenths(s: &mut String, t: u128)
    ensures
        final(s)@ == old(s)@ + one_decimal(t as nat),
{
    push_decimal(s, t / 10);
    push_char(s, '.');
    let d: u8 = (t % 10) as u8;
    push_char(s, (d + 48) as char);
}

/// Appends the unit after a space.
fn push_unit(s: &mut String, first: char, second: char)
    ensures
        final(s)@ == old(s)@ + seq![' ', first, second],
{
    push_char(s, ' ');
    push_char(s, first);
    push_char(s, second);
}

/// A size in bytes as the status line shows it: `512 B`, `1.5 KB`, `2.0 MB`,
/// `3.2 GB`; the number of units is that of the size as a double, printed
/// with one decimal.
pub fn format_file_size(bytes: usize) -> (s: String)
    ensures
        s@ == size_text(bytes as nat),
{
    let mut s = String::new();
    let n = bytes as u128;
    if bytes >= GB {
        let v = to_double(n);
        proof {
            reveal_with_fuel(two_pow, 31);
        }
        push_tenths(&mut s, round_div_exec(v * 10, 1073741824));
        push_unit(&mut s, 'G', 'B');
    } else if bytes >= MB {
        let v = to_double(n);
        proof {
            reveal_with_fuel(two_pow, 21);
        }
        push_tenths(&mut s, round_div_exec(v * 10, 1048576));
        push_unit(&mut s, 'M', 'B');
    } else if bytes >= KB {
        let v = to_double(n);
        proof {
            reveal_with_fuel(two_pow, 11);
        }
        push_tenths(&mut s, round_div_exec(v * 10, 1024));
        push_unit(&mut s, 'K', 'B');
    } else {
        push_decimal(&mut s, n);
        push_char(&mut s, ' ');
        push_char(&mut s, 'B');
        assert(s@ == decimal(bytes as nat) + seq![' ', 'B']);
    }
    s
}

/// Whether the char at a position of `s` is a `/`.
pub open spec fn slash_at(s: Seq<char>) -> spec_fn(int) -> bool {
    |k: int| s[k] == '/'
}

/// The position of the first `/` of `s` at or after `from` (the length of
/// `s` when there is none).
pub open spec fn next_slash(s: Seq<char>, from: int) -> int {
    first_from(from, s.len() as int, slash_at(s))
}

/// The search query of a command: what stands between its first `/` and the
/// next `/`, or the end; nothing when it has no `/`.
pub open spec fn query_of(s: Seq<char>) -> Seq<char> {
    let i1 = next_slash(s, 0);
    if i1 < s.len() {
        s.subrange(i1 + 1, next_slash(s, i1 + 1))
    } else {
        Seq::empty()
    }
}

/// The replacement text of a command: what stands between its second `/`
/// and the third, or the end; nothing when it has fewer than two.
pub open spec fn replacement_of(s: Seq<char>) -> Seq<char> {
    let i1 = next_slash(s, 0);
    let i2 = next_slash(s, i1 + 1);
    if i1 < s.len() && i2 < s.len() {
        s.subrange(i2 + 1, next_slash(s, i2 + 1))
    } else {
        Seq::empty()
    }
}

/// extract search query from command string
pub fn extract_query(s: &str) -> (query: String)
    ensures
        query@ == query_of(s@),
{
    let ghost t = s@;
    let ghost n = t.len() as int;
    let ghost i1 = next_slash(t, 0);
    proof {
        lemma_first_from(0, n, slash_at(t));
        if i1 < n {
            lemma_first_from(i1 + 1, n, slash_at(t));
        }
    }
    let mut query = String::new();
    let mut start = false;
    for c in it: s.chars()
        invariant_except_break
            it.seq() == t,
            n == t.len(),
            i1 == next_slash(t, 0),
            0 <= i1 <= n,
            forall|k: int| 0 <= k < i1 ==> !#[trigger] slash_at(t)(k),
            i1 < n ==> slash_at(t)(i1),
            i1 < n ==> i1 + 1 <= next_slash(t, i1 + 1) <= n,
            i1 < n ==> forall|k: int| i1 + 1 <= k < next_slash(t, i1 + 1) ==> !#[trigger] slash_at(t)(k),
            i1 < n && next_slash(t, i1 + 1) < n ==> slash_at(t)(next_slash(t, i1 + 1)),
            start <==> i1 < it.index(),
            start ==> it.index() <= next_slash(t, i1 + 1),
            query@ == (if start { t.subrange(i1 + 1, it.index() as int) } else { Seq::empty() }),
        ensures
            query@ == query_of(t),
    {
        let ghost j = it.index() as int;
        proof {
            assert(slash_at(t)(j) == (c == '/'));
            if i1 < n {
                assert(slash_at(t)(i1));
                let i2 = next_slash(t, i1 + 1);
                if i2 < n {
                    assert(slash_at(t)(i2));
                }
            }
        }
        if c == '/' {
            if !start {
                start = true;
            } else {
                break;
            }
        } else if start {
            push_char(&mut query, c);
        }
    }
    query
}

/// extract replacment text from command string
pub fn extract_replacment(s: &str) -> (replacment: String)
    ensures
        replacment@ == replacement_of(s@),
{
    let ghost t = s@;
    let ghost n = t.len() as int;
    let ghost i1 = next_slash(t, 0);
    let ghost i2 = if i1 < n { next_slash(t, i1 + 1) } else { n };
    let ghost i3 = if i2 < n { next_slash(t, i2 + 1) } else { n };
    proof {
        lemma_first_from(0, n, slash_at(t));
        if i1 < n {
            lemma_first_from(i1 + 1, n, slash_at(t));
            if i2 < n {
                lemma_first_from(i2 + 1, n, slash_at(t));
            }
        }
    }
    let mut replacment = String::new();
    let mut count: u32 = 0;
    for c in it: s.chars()
        invariant_except_break
            it.seq() == t,
            n == t.len(),
            i1 == next_slash(t, 0),
            i2 == (if i1 < n { next_slash(t, i1 + 1) } else { n }),
            i3 == (if i2 < n { next_slash(t, i2 + 1) } else { n }),
            0 <= i1 <= n,
            forall|k: int| 0 <= k < i1 ==> !#[trigger] slash_at(t)(k),
            i1 < n ==> slash_at(t)(i1),
            i1 < n ==> i1 + 1 <= i2 <= n,
            i1 < n ==> forall|k: int| i1 + 1 <= k < i2 ==> !#[trigger] slash_at(t)(k),
            i1 < n && i2 < n ==> slash_at(t)(i2),
            i2 < n ==> i2 + 1 <= i3 <= n,
            i2 < n ==> forall|k: int| i2 + 1 <= k < i3 ==> !#[trigger] slash_at(t)(k),
            i2 < n && i3 < n ==> slash_at(t)(i3),
            count <= 2,
            count == 0 <==> it.index() <= i1,
            count == 1 ==> i1 < it.index() <= i2,
            count == 2 ==> i1 < n && i2 < it.index() <= i3,
            replacment@ == (if count == 2 { t.subrange(i2 + 1, it.index() as int) } else { Seq::empty() }),
        ensures
            replacment@ == replacement_of(t),
    {
        let ghost j = it.index() as int;
        proof {
            assert(slash_at(t)(j) == (c == '/'));
        }
        if c == '/' {
            count += 1;
            if count > 2 {
                break;
            }
        } else if count > 1 {
            push_char(&mut replacment, c);
        }
    }
    replacment
}

/// `:%s/q/r/`, with no `/` in `q` and `r`, gives back `q` as its search query
/// and `r` as its replacement.
pub proof fn lemma_substitute_parts(q: Seq<char>, r: Seq<char>)
    requires
        !q.contains('/'),
        !r.contains('/'),
    ensures
        ({
            let s = seq![':', '%', 's', '/'] + q + seq!['/'] + r + seq!['/'];
            &&& query_of(s) == q
            &&& replacement_of(s) == r
        }),
{
    let s = seq![':', '%', 's', '/'] + q + seq!['/'] + r + seq!['/'];
    let n = s.len() as int;
    let a: int = 4 + q.len() as int;
    let b: int = a + 1 + r.len() as int;
    let p = slash_at(s);
    assert(s[3] == '/');
    assert(s[0] == ':' && s[1] == '%' && s[2] == 's');
    assert forall|k: int| 0 <= k < 3 implies !#[trigger] p(k) by {}
    lemma_first_from_is(0, n, p, 3);
    assert forall|k: int| 4 <= k < a implies !#[trigger] p(k) by {
        assert(s[k] == q[k - 4]);
    }
    assert(s[a] == '/');
    lemma_first_from_is(4, n, p, a);
    assert forall|k: int| a + 1 <= k < b implies !#[trigger] p(k) by {
        assert(s[k] == r[k - a - 1]);
    }
    assert(s[b] == '/');
    lemma_first_from_is(a + 1, n, p, b);
    assert(s.subrange(4, a) =~= q);
    assert(s.subrange(a + 1, b) =~= r);
}


/// The search query of a command is exactly what stands between its first
/// `/` and the next `/` (or the end); with no `/` it is empty.
pub proof fn lemma_query_law(s: Seq<char>, i: int, j: int)
    ensures
        (forall|k: int| 0 <= k < s.len() ==> #[trigger] s[k] != '/') ==> query_of(s) == Seq::<char>::empty(),
        ({
            &&& 0 <= i < j <= s.len()
            &&& s[i] == '/'
            &&& forall|k: int| 0 <= k < i ==> #[trigger] s[k] != '/'
            &&& forall|k: int| i < k < j ==> #[trigger] s[k] != '/'
            &&& (j == s.len() || s[j] == '/')
        }) ==> query_of(s) == s.subrange(i + 1, j),
{
    let n = s.len() as int;
    let p = slash_at(s);
    if forall|k: int| 0 <= k < s.len() ==> #[trigger] s[k] != '/' {
        assert forall|k: int| 0 <= k < n implies !#[trigger] p(k) by {}
        lemma_first_from_is(0, n, p, n);
    }
    if 0 <= i < j <= n && s[i] == '/' && (forall|k: int| 0 <= k < i ==> #[trigger] s[k] != '/') && (forall|k: int|
        i < k < j ==> #[trigger] s[k] != '/') && (j == n || s[j] == '/') {
        assert forall|k: int| 0 <= k < i implies !#[trigger] p(k) by {}
        lemma_first_from_is(0, n, p, i);
        assert forall|k: int| i + 1 <= k < j implies !#[trigger] p(k) by {}
        lemma_first_from_is(i + 1, n, p, j);
    }
}

/// The replacement of a command is exactly what stands between its second
/// `/` and the third (or the end); with fewer than two `/` it is empty.
pub proof fn lemma_replacement_law(s: Seq<char>, i1: int, i2: int, j: int)
    ensures
        ({
            &&& 0 <= i1 < i2 < j <= s.len()
            &&& s[i1] == '/' && s[i2] == '/'
            &&& forall|k: int| 0 <= k < i2 && k != i1 ==> #[trigger] s[k] != '/'
            &&& forall|k: int| i2 < k < j ==> #[trigger] s[k] != '/'
            &&& (j == s.len() || s[j] == '/')
        }) ==> replacement_of(s) == s.subrange(i2 + 1, j),
        ({
            &&& 0 <= i1 < s.len()
            &&& s[i1] == '/'
            &&& forall|k: int| 0 <= k < s.len() && k != i1 ==> #[trigger] s[k] != '/'
        }) ==> replacement_of(s) == Seq::<char>::empty(),
        (forall|k: int| 0 <= k < s.len() ==> #[trigger] s[k] != '/') ==> replacement_of(s) == Seq::<char>::empty(),
{
    let n = s.len() as int;
    let p = slash_at(s);
    if 0 <= i1 < i2 < j <= n && s[i1] == '/' && s[i2] == '/' && (forall|k: int|
        0 <= k < i2 && k != i1 ==> #[trigger] s[k] != '/') && (forall|k: int| i2 < k < j ==> #[trigger] s[k] != '/')
        && (j == n || s[j] == '/') {
        assert forall|k: int| 0 <= k < i1 implies !#[trigger] p(k) by {}
        lemma_first_from_is(0, n, p, i1);
        assert forall|k: int| i1 + 1 <= k < i2 implies !#[trigger] p(k) by {}
        lemma_first_from_is(i1 + 1, n, p, i2);
        assert forall|k: int| i2 + 1 <= k < j implies !#[trigger] p(k) by {}
        lemma_first_from_is(i2 + 1, n, p, j);
    }
    if 0 <= i1 < n && s[i1] == '/' && (forall|k: int| 0 <= k < s.len() && k != i1 ==> #[trigger] s[k] != '/') {
        assert forall|k: int| 0 <= k < i1 implies !#[trigger] p(k) by {}
        lemma_first_from_is(0, n, p, i1);
        assert forall|k: int| i1 + 1 <= k < n implies !#[trigger] p(k) by {}
        lemma_first_from_is(i1 + 1, n, p, n);
    }
    if forall|k: int| 0 <= k < s.len() ==> #[trigger] s[k] != '/' {
        assert forall|k: int| 0 <= k < n implies !#[trigger] p(k) by {}
        lemma_first_from_is(0, n, p, n);
    }
}

} // verus!
