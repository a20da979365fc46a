//! Verified character-level string utilities.
//!
//! Strings enter and leave as `String`/`&str`, but every transformation is
//! performed on `Vec<char>` so that each step is verified against the
//! `Seq<char>` views. Only the conversions between `&str` and `Vec<char>`
//! are trusted, since vstd gives no specification for collecting chars.

use vstd::prelude::*;
use vstd::string::StringSliceAdditionalSpecFns;

verus! {

/// Relies on `str::chars` together with `Iterator::collect`: the characters
/// of a string slice, in order, as a vector.
#[verifier::external_body]
pub fn str_chars(s: &str) -> (r: Vec<char>)
    ensures
        r@ == s@,
{
    s.chars().collect()
}

/// Relies on `String: FromIterator<char>`: building a string from its
/// characters, in order.
#[verifier::external_body]
pub fn chars_string(v: &Vec<char>) -> (r: String)
    ensures
        r@ == v@,
{
    v.iter().collect()
}

/// Character-wise string equality, equivalent to equality of the views.
pub fn str_eq(a: &str, b: &str) -> (r: bool)
    ensures
        r == (a@ == b@),
{
    let va = str_chars(a);
    let vb = str_chars(b);
    if va.len() != vb.len() {
        return false;
    }
    let n = va.len();
    let mut i: usize = 0;
    while i < n
        invariant
            n == va.len(),
            va.len() == vb.len(),
            va@ == a@,
            vb@ == b@,
            i <= n,
            forall|j: int| 0 <= j < i ==> va@[j] == vb@[j],
        decreases n - i,
    {
        if va[i] != vb[i] {
            proof {
                if a@ == b@ {
                    assert(va@[i as int] == vb@[i as int]);
                }
            }
            return false;
        }
        i += 1;
    }
    proof {
        assert(a@ =~= b@);
    }
    true
}

/// The four ASCII whitespace characters this engine strips when trimming.
pub open spec fn is_ws_char(c: char) -> bool {
    c == ' ' || c == '\t' || c == '\n' || c == '\r'
}

pub fn char_is_ws(c: char) -> (r: bool)
    ensures
        r == is_ws_char(c),
{
    c == ' ' || c == '\t' || c == '\n' || c == '\r'
}

/// The sequence with leading whitespace characters removed.
pub open spec fn trim_front_of(s: Seq<char>) -> Seq<char>
    decreases s.len(),
{
    if s.len() == 0 {
        s
    } else if is_ws_char(s[0]) {
        trim_front_of(s.drop_first())
    } else {
        s
    }
}

/// The sequence with trailing whitespace characters removed.
pub open spec fn trim_back_of(s: Seq<char>) -> Seq<char>
    decreases s.len(),
{
    if s.len() == 0 {
        s
    } else if is_ws_char(s[s.len() - 1]) {
        trim_back_of(s.drop_last())
    } else {
        s
    }
}

/// The sequence with leading and trailing whitespace removed.
pub open spec fn trim_of(s: Seq<char>) -> Seq<char> {
    trim_back_of(trim_front_of(s))
}

proof fn lemma_trim_front_at(s: Seq<char>, k: int)
    requires
        0 <= k <= s.len(),
        forall|j: int| 0 <= j < k ==> is_ws_char(s[j]),
        k == s.len() || !is_ws_char(s[k]),
    ensures
        trim_front_of(s) =~= s.subrange(k, s.len() as int),
    decreases k,
{
    if k == 0 {
        if s.len() == 0 || !is_ws_char(s[0]) {
            assert(trim_front_of(s) =~= s.subrange(0, s.len() as int));
        }
    } else {
        let t = s.drop_first();
        assert(forall|j: int| 0 <= j < k - 1 ==> is_ws_char(t[j]));
        lemma_trim_front_at(t, k - 1);
        assert(t.subrange(k - 1, t.len() as int) =~= s.subrange(k, s.len() as int));
    }
}

proof fn lemma_trim_back_at(s: Seq<char>, k: int)
    requires
        0 <= k <= s.len(),
        forall|j: int| k <= j < s.len() ==> is_ws_char(s[j]),
        k == 0 || !is_ws_char(s[k - 1]),
    ensures
        trim_back_of(s) =~= s.subrange(0, k),
    decreases s.len() - k,
{
    if k == s.len() {
        if s.len() == 0 || !is_ws_char(s[s.len() - 1]) {
            assert(trim_back_of(s) =~= s.subrange(0, s.len() as int));
        }
    } else {
        let t = s.drop_last();
        lemma_trim_back_at(t, k);
        assert(t.subrange(0, k) =~= s.subrange(0, k));
    }
}

/// A sequence whose ends are not whitespace is its own trim.
pub proof fn lemma_trim_id(s: Seq<char>)
    requires
        s.len() > 0,
        !is_ws_char(s[0]),
        !is_ws_char(s[s.len() - 1]),
    ensures
        trim_of(s) == s,
{
    assert(trim_front_of(s) == s);
    assert(trim_back_of(s) == s);
}

proof fn lemma_trim_front_head(s: Seq<char>)
    ensures
        trim_front_of(s).len() == 0 || !is_ws_char(trim_front_of(s)[0]),
    decreases s.len(),
{
    if s.len() > 0 && is_ws_char(s[0]) {
        lemma_trim_front_head(s.drop_first());
    }
}

proof fn lemma_trim_back_last(s: Seq<char>)
    ensures
        trim_back_of(s).len() == 0 || !is_ws_char(trim_back_of(s)[trim_back_of(s).len() - 1]),
    decreases s.len(),
{
    if s.len() > 0 && is_ws_char(s[s.len() - 1]) {
        lemma_trim_back_last(s.drop_last());
    }
}

proof fn lemma_trim_back_prefix(s: Seq<char>)
    ensures
        trim_back_of(s).len() <= s.len(),
        forall|i: int| 0 <= i < trim_back_of(s).len() ==> trim_back_of(s)[i] == s[i],
    decreases s.len(),
{
    if s.len() > 0 && is_ws_char(s[s.len() - 1]) {
        lemma_trim_back_prefix(s.drop_last());
        assert(trim_back_of(s) == trim_back_of(s.drop_last()));
        assert forall|i: int| 0 <= i < trim_back_of(s).len() implies trim_back_of(s)[i]
            == s[i] by {
            assert(trim_back_of(s.drop_last())[i] == s.drop_last()[i]);
        }
    }
}

/// Trimming is idempotent.
pub proof fn lemma_trim_idem(s: Seq<char>)
    ensures
        trim_of(trim_of(s)) == trim_of(s),
{
    let f = trim_front_of(s);
    let t = trim_of(s);
    if t.len() == 0 {
        assert(trim_front_of(t).len() == 0);
        assert(trim_of(t) =~= t);
    } else {
        lemma_trim_front_head(s);
        lemma_trim_back_prefix(f);
        assert(t[0] == f[0]);
        assert(f.len() > 0);
        assert(!is_ws_char(t[0]));
        lemma_trim_back_last(f);
        assert(!is_ws_char(t[t.len() - 1]));
        lemma_trim_id(t);
    }
}

/// Trim ASCII whitespace from both ends of a character vector.
pub fn trim_chars(v: &Vec<char>) -> (r: Vec<char>)
    ensures
        r@ == trim_of(v@),
{
    let n = v.len();
    let mut start: usize = 0;
    while start < n && char_is_ws(v[start])
        invariant
            n == v.len(),
            start <= n,
            forall|j: int| 0 <= j < start ==> is_ws_char(v@[j]),
        decreases n - start,
    {
        start += 1;
    }
    let mut end: usize = n;
    while end > start && char_is_ws(v[end - 1])
        invariant
            n == v.len(),
            start <= end <= n,
            forall|j: int| 0 <= j < start ==> is_ws_char(v@[j]),
            forall|j: int| end <= j < n ==> is_ws_char(v@[j]),
        decreases end,
    {
        end -= 1;
    }
    let mut r: Vec<char> = Vec::new();
    let mut i: usize = start;
    while i < end
        invariant
            n == v.len(),
            start <= i <= end <= n,
            r@ == v@.subrange(start as int, i as int),
        decreases end - i,
    {
        r.push(v[i]);
        proof {
            assert(r@ =~= v@.subrange(start as int, i + 1));
        }
        i += 1;
    }
    proof {
        lemma_trim_front_at(v@, start as int);
        let f = v@.subrange(start as int, n as int);
        if end == start {
            lemma_trim_back_at(f, 0);
        } else {
            assert(!is_ws_char(f[end - start - 1]));
            lemma_trim_back_at(f, end - start);
        }
        assert(f.subrange(0, end - start) =~= v@.subrange(start as int, end as int));
    }
    r
}

/// Trim ASCII whitespace from both ends of a string.
pub fn str_trim(s: &str) -> (r: String)
    ensures
        r@ == trim_of(s@),
{
    let v = str_chars(s);
    let t = trim_chars(&v);
    chars_string(&t)
}

/// ASCII lowercase folding of one character; other characters are unchanged.
pub open spec fn lower_char(c: char) -> char {
    match c {
        'A' => 'a',
        'B' => 'b',
        'C' => 'c',
        'D' => 'd',
        'E' => 'e',
        'F' => 'f',
        'G' => 'g',
        'H' => 'h',
        'I' => 'i',
        'J' => 'j',
        'K' => 'k',
        'L' => 'l',
        'M' => 'm',
        'N' => 'n',
        'O' => 'o',
        'P' => 'p',
        'Q' => 'q',
        'R' => 'r',
        'S' => 's',
        'T' => 't',
        'U' => 'u',
        'V' => 'v',
        'W' => 'w',
        'X' => 'x',
        'Y' => 'y',
        'Z' => 'z',
        _ => c,
    }
}

/// ASCII lowercase folding of a whole sequence.
pub open spec fn lower_of(s: Seq<char>) -> Seq<char> {
    s.map_values(|c: char| lower_char(c))
}

pub fn char_to_lower(c: char) -> (r: char)
    ensures
        r == lower_char(c),
{
    match c {
        'A' => 'a',
        'B' => 'b',
        'C' => 'c',
        'D' => 'd',
        'E' => 'e',
        'F' => 'f',
        'G' => 'g',
        'H' => 'h',
        'I' => 'i',
        'J' => 'j',
        'K' => 'k',
        'L' => 'l',
        'M' => 'm',
        'N' => 'n',
        'O' => 'o',
        'P' => 'p',
        'Q' => 'q',
        'R' => 'r',
        'S' => 's',
        'T' => 't',
        'U' => 'u',
        'V' => 'v',
        'W' => 'w',
        'X' => 'x',
        'Y' => 'y',
        'Z' => 'z',
        _ => c,
    }
}

/// ASCII lowercase folding of a character vector.
pub fn chars_to_lower(v: &Vec<char>) -> (r: Vec<char>)
    ensures
        r@ == lower_of(v@),
{
    let n = v.len();
    let mut r: Vec<char> = Vec::new();
    let mut i: usize = 0;
    while i < n
        invariant
            n == v.len(),
            i <= n,
            r@.len() == i,
            forall|j: int| 0 <= j < i ==> r@[j] == lower_char(v@[j]),
        decreases n - i,
    {
        r.push(char_to_lower(v[i]));
        i += 1;
    }
    proof {
        assert(r@ =~= lower_of(v@));
    }
    r
}

/// Whether `needle` occurs as a contiguous subsequence of `hay`.
pub open spec fn contains_seq(hay: Seq<char>, needle: Seq<char>) -> bool {
    exists|i: int|
        0 <= i && i + needle.len() <= hay.len() && #[trigger] hay.subrange(i, i + needle.len())
            == needle
}

/// Substring search over character vectors.
pub fn chars_contain(hay: &Vec<char>, needle: &Vec<char>) -> (r: bool)
    ensures
        r == contains_seq(hay@, needle@),
{
    let hn = hay.len();
    let nn = needle.len();
    if nn > hn {
        proof {
            assert(!contains_seq(hay@, needle@));
        }
        return false;
    }
    if nn == 0 {
        proof {
            assert(hay@.subrange(0, 0 + needle@.len() as int) =~= needle@);
        }
        return true;
    }
    let mut i: usize = 0;
    while i <= hn - nn
        invariant
            hn == hay.len(),
            nn == needle.len(),
            0 < nn <= hn,
            i <= hn - nn + 1,
            forall|k: int|
                0 <= k < i ==> #[trigger] hay@.subrange(k, k + needle@.len()) != needle@,
        decreases hn - i,
    {
        let mut j: usize = 0;
        let mut matched: bool = true;
        while j < nn && matched
            invariant
                hn == hay.len(),
                nn == needle.len(),
                i + nn <= hn,
                j <= nn,
                matched ==> forall|k: int| 0 <= k < j ==> hay@[i + k] == needle@[k],
                !matched ==> hay@.subrange(i as int, i + nn) != needle@,
            decreases nn - j + (if matched { 1int } else { 0int }),
        {
            if hay[i + j] != needle[j] {
                proof {
                    assert(hay@.subrange(i as int, i + nn as int)[j as int] == hay@[i + j]);
                }
                matched = false;
            } else {
                j += 1;
            }
        }
        if matched {
            proof {
                assert(hay@.subrange(i as int, i + needle@.len()) =~= needle@);
            }
            return true;
        }
        i += 1;
    }
    proof {
        assert forall|k: int| 0 <= k && k + needle@.len() <= hay@.len() implies #[trigger] hay@
            .subrange(k, k + needle@.len()) != needle@ by {
            assert(k < i);
        }
    }
    false
}

/// Whether `p` is a prefix of `s`.
pub open spec fn starts_with(s: Seq<char>, p: Seq<char>) -> bool {
    p.len() <= s.len() && s.subrange(0, p.len() as int) == p
}

pub fn chars_start_with(s: &Vec<char>, p: &Vec<char>) -> (r: bool)
    ensures
        r == starts_with(s@, p@),
{
    let pn = p.len();
    if pn > s.len() {
        return false;
    }
    let mut i: usize = 0;
    while i < pn
        invariant
            pn == p.len(),
            pn <= s.len(),
            i <= pn,
            forall|j: int| 0 <= j < i ==> s@[j] == p@[j],
        decreases pn - i,
    {
        if s[i] != p[i] {
            proof {
                if starts_with(s@, p@) {
                    assert(s@.subrange(0, p@.len() as int)[i as int] == p@[i as int]);
                }
            }
            return false;
        }
        i += 1;
    }
    proof {
        assert(s@.subrange(0, p@.len() as int) =~= p@);
    }
    true
}

/// Lexicographic order on character sequences, by Unicode scalar value.
pub open spec fn lex_le(a: Seq<char>, b: Seq<char>) -> bool
    decreases a.len(),
{
    if a.len() == 0 {
        true
    } else if b.len() == 0 {
        false
    } else if a[0] != b[0] {
        a[0] < b[0]
    } else {
        lex_le(a.drop_first(), b.drop_first())
    }
}

pub proof fn lemma_lex_total(a: Seq<char>, b: Seq<char>)
    ensures
        lex_le(a, b) || lex_le(b, a),
    decreases a.len(),
{
    if a.len() == 0 || b.len() == 0 {
    } else if a[0] == b[0] {
        lemma_lex_total(a.drop_first(), b.drop_first());
    }
}

pub proof fn lemma_lex_refl(a: Seq<char>)
    ensures
        lex_le(a, a),
    decreases a.len(),
{
    if a.len() != 0 {
        lemma_lex_refl(a.drop_first());
    }
}

pub proof fn lemma_lex_antisym(a: Seq<char>, b: Seq<char>)
    requires
        lex_le(a, b),
        lex_le(b, a),
    ensures
        a == b,
    decreases a.len(),
{
    if a.len() == 0 {
        assert(b.len() == 0);
        assert(a =~= b);
    } else {
        assert(b.len() != 0);
        assert(a[0] == b[0]);
        lemma_lex_antisym(a.drop_first(), b.drop_first());
        assert(a.drop_first().len() == b.drop_first().len());
        assert(a.len() == b.len());
        assert forall|i: int| 0 <= i < a.len() implies a[i] == b[i] by {
            if i > 0 {
                assert(a.drop_first()[i - 1] == b.drop_first()[i - 1]);
            }
        }
        assert(a =~= b);
    }
}

pub proof fn lemma_lex_trans(a: Seq<char>, b: Seq<char>, c: Seq<char>)
    requires
        lex_le(a, b),
        lex_le(b, c),
    ensures
        lex_le(a, c),
    decreases a.len(),
{
    if a.len() != 0 && b.len() != 0 && c.len() != 0 {
        if a[0] == b[0] && b[0] == c[0] {
            lemma_lex_trans(a.drop_first(), b.drop_first(), c.drop_first());
        }
    }
}

/// Lexicographic comparison of two character vectors.
pub fn chars_le(a: &Vec<char>, b: &Vec<char>) -> (r: bool)
    ensures
        r == lex_le(a@, b@),
{
    let an = a.len();
    let bn = b.len();
    let mut i: usize = 0;
    proof {
        assert(a@.subrange(0, an as int) =~= a@);
        assert(b@.subrange(0, bn as int) =~= b@);
    }
    loop
        invariant
            an == a.len(),
            bn == b.len(),
            i <= an,
            i <= bn,
            forall|j: int| 0 <= j < i ==> a@[j] == b@[j],
            lex_le(a@, b@) == lex_le(a@.subrange(i as int, an as int), b@.subrange(i as int, bn as int)),
        decreases an - i,
    {
        let ghost at = a@.subrange(i as int, an as int);
        let ghost bt = b@.subrange(i as int, bn as int);
        if i >= an {
            proof {
                assert(at.len() == 0);
            }
            return true;
        }
        if i >= bn {
            proof {
                assert(bt.len() == 0 && at.len() != 0);
            }
            return false;
        }
        let ca = a[i];
        let cb = b[i];
        proof {
            assert(at[0] == a@[i as int] && bt[0] == b@[i as int]);
        }
        if ca != cb {
            return ca < cb;
        }
        proof {
            assert(at.drop_first() =~= a@.subrange(i + 1, an as int));
            assert(bt.drop_first() =~= b@.subrange(i + 1, bn as int));
        }
        i += 1;
    }
}

pub fn str_le(a: &str, b: &str) -> (r: bool)
    ensures
        r == lex_le(a@, b@),
{
    let va = str_chars(a);
    let vb = str_chars(b);
    chars_le(&va, &vb)
}

/// One decimal digit as a character; meaningful for `d < 10`.
pub open spec fn digit_char(d: int) -> char {
    if d == 0 {
        '0'
    } else if d == 1 {
        '1'
    } else if d == 2 {
        '2'
    } else if d == 3 {
        '3'
    } else if d == 4 {
        '4'
    } else if d == 5 {
        '5'
    } else if d == 6 {
        '6'
    } else if d == 7 {
        '7'
    } else if d == 8 {
        '8'
    } else {
        '9'
    }
}

/// The decimal rendering of a natural number, without leading zeros.
pub open spec fn dec_of(n: nat) -> Seq<char>
    decreases n,
{
    if n < 10 {
        seq![digit_char(n as int)]
    } else {
        dec_of(n / 10) + seq![digit_char((n % 10) as int)]
    }
}

fn digit_to_char(d: u64) -> (r: char)
    requires
        d < 10,
    ensures
        r == digit_char(d as int),
{
    match d {
        0 => '0',
        1 => '1',
        2 => '2',
        3 => '3',
        4 => '4',
        5 => '5',
        6 => '6',
        7 => '7',
        8 => '8',
        _ => '9',
    }
}

/// Numeric value of one decimal digit character; other characters count as 9.
pub open spec fn digit_val(c: char) -> int {
    if c == '0' {
        0
    } else if c == '1' {
        1
    } else if c == '2' {
        2
    } else if c == '3' {
        3
    } else if c == '4' {
        4
    } else if c == '5' {
        5
    } else if c == '6' {
        6
    } else if c == '7' {
        7
    } else if c == '8' {
        8
    } else {
        9
    }
}

/// The number a digit string denotes.
pub open spec fn undec(s: Seq<char>) -> int
    decreases s.len(),
{
    if s.len() == 0 {
        0
    } else {
        undec(s.drop_last()) * 10 + digit_val(s.last())
    }
}

pub proof fn lemma_dec_undec(n: nat)
    ensures
        undec(dec_of(n)) == n,
    decreases n,
{
    if n < 10 {
        assert(undec(Seq::<char>::empty()) == 0);
        assert(dec_of(n).drop_last() =~= Seq::<char>::empty());
        assert(digit_val(digit_char(n as int)) == n);
    } else {
        lemma_dec_undec(n / 10);
        assert(dec_of(n).drop_last() =~= dec_of(n / 10));
        assert(dec_of(n).last() == digit_char((n % 10) as int));
        assert(digit_val(digit_char((n % 10) as int)) == n % 10);
        assert(dec_of(n).len() > 0);
        assert(undec(dec_of(n)) == undec(dec_of(n / 10)) * 10 + (n % 10));
        vstd::arithmetic::div_mod::lemma_fundamental_div_mod(n as int, 10);
    }
}

/// Decimal renderings are injective.
pub proof fn lemma_dec_injective(a: nat, b: nat)
    requires
        dec_of(a) == dec_of(b),
    ensures
        a == b,
{
    lemma_dec_undec(a);
    lemma_dec_undec(b);
}

/// Decimal rendering of a `u64`, as characters.
pub fn u64_dec_chars(n: u64) -> (r: Vec<char>)
    ensures
        r@ == dec_of(n as nat),
    decreases n,
{
    if n < 10 {
        let mut r: Vec<char> = Vec::new();
        r.push(digit_to_char(n));
        proof {
            assert(r@ =~= dec_of(n as nat));
        }
        r
    } else {
        let mut r = u64_dec_chars(n / 10);
        r.push(digit_to_char(n % 10));
        proof {
            assert(r@ =~= dec_of((n / 10) as nat) + seq![digit_char((n % 10) as int)]);
        }
        r
    }
}

/// Decimal rendering of a `u64`, as a string.
pub fn u64_dec_string(n: u64) -> (r: String)
    ensures
        r@ == dec_of(n as nat),
{
    let v = u64_dec_chars(n);
    chars_string(&v)
}

/// The characters of `v` from index `n` on.
pub fn chars_skip(v: &Vec<char>, n: usize) -> (r: Vec<char>)
    requires
        n <= v@.len(),
    ensures
        r@ == v@.skip(n as int),
{
    let len = v.len();
    let mut r: Vec<char> = Vec::new();
    let mut i: usize = n;
    while i < len
        invariant
            len == v.len(),
            n <= i <= len,
            r@ == v@.subrange(n as int, i as int),
        decreases len - i,
    {
        r.push(v[i]);
        proof {
            assert(r@ =~= v@.subrange(n as int, i + 1));
        }
        i += 1;
    }
    proof {
        assert(v@.subrange(n as int, len as int) =~= v@.skip(n as int));
    }
    r
}

/// Concatenate two character vectors.
pub fn chars_concat(a: &Vec<char>, b: &Vec<char>) -> (r: Vec<char>)
    ensures
        r@ == a@ + b@,
{
    let mut r: Vec<char> = Vec::new();
    let mut i: usize = 0;
    while i < a.len()
        invariant
            i <= a@.len(),
            r@ == a@.subrange(0, i as int),
        decreases a@.len() - i,
    {
        r.push(a[i]);
        proof {
            assert(r@ =~= a@.subrange(0, i + 1));
        }
        i += 1;
    }
    let mut j: usize = 0;
    while j < b.len()
        invariant
            r@ == a@.subrange(0, a@.len() as int) + b@.subrange(0, j as int),
            j <= b@.len(),
        decreases b@.len() - j,
    {
        r.push(b[j]);
        proof {
            assert(r@ =~= a@.subrange(0, a@.len() as int) + b@.subrange(0, j + 1));
        }
        j += 1;
    }
    proof {
        assert(a@.subrange(0, a@.len() as int) =~= a@);
        assert(b@.subrange(0, b@.len() as int) =~= b@);
    }
    r
}

/// One step of the 32-bit FNV-1a fold.
pub open spec fn fnv1a_step(h: u32, b: u8) -> u32 {
    ((((h ^ (b as u32)) as int) * 16777619) % 0x1_0000_0000) as u32
}

/// The FNV-1a fold over the bytes from index `i` on, starting from `h`.
pub open spec fn fnv1a_from(bytes: Seq<u8>, h: u32, i: int) -> u32
    decreases bytes.len() - i,
{
    if i < 0 || i >= bytes.len() {
        h
    } else {
        fnv1a_from(bytes, fnv1a_step(h, bytes[i]), i + 1)
    }
}

/// The 32-bit FNV-1a hash of a byte sequence.
pub open spec fn fnv1a_of(bytes: Seq<u8>) -> u32 {
    fnv1a_from(bytes, 2166136261u32, 0)
}

/// The 32-bit FNV-1a hash of a string's UTF-8 bytes.
pub fn simple_hash_u32(s: &str) -> (r: u32)
    ensures
        r == fnv1a_of(s.spec_bytes()),
{
    let bytes = s.as_bytes();
    let n = bytes.len();
    let mut h: u32 = 2166136261;
    let mut i: usize = 0;
    while i < n
        invariant
            n == bytes@.len(),
            bytes@ == s.spec_bytes(),
            i <= n,
            fnv1a_of(s.spec_bytes()) == fnv1a_from(bytes@, h, i as int),
        decreases n - i,
    {
        let x: u32 = h ^ (bytes[i] as u32);
        let prod: u64 = (x as u64) * 16777619u64;
        let h2: u32 = (prod % 0x1_0000_0000u64) as u32;
        proof {
            assert(h2 == fnv1a_step(h, bytes@[i as int]));
        }
        h = h2;
        i += 1;
    }
    h
}

/// Concatenate two strings.
pub fn str_concat(a: &str, b: &str) -> (r: String)
    ensures
        r@ == a@ + b@,
{
    let mut va = str_chars(a);
    let mut vb = str_chars(b);
    va.append(&mut vb);
    chars_string(&va)
}

} // verus!
