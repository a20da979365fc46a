//! Text repair for generator output: strip markdown code fences and fix
//! up raw control characters inside JSON string literals, so that the
//! decode layer sees plausible JSON.

use vstd::prelude::*;

use crate::text::{
    chars_skip, chars_start_with, chars_string, starts_with, str_chars, trim_chars, trim_of,
};

verus! {

/// The sequence with every leading repetition of `p` removed.
pub open spec fn strip_prefix_rep(s: Seq<char>, p: Seq<char>) -> Seq<char>
    decreases s.len(),
{
    if p.len() > 0 && starts_with(s, p) && s.len() >= p.len() {
        if s.len() == p.len() {
            Seq::empty()
        } else {
            strip_prefix_rep(s.skip(p.len() as int), p)
        }
    } else {
        s
    }
}

/// Whether `p` is a suffix of `s`.
pub open spec fn ends_with(s: Seq<char>, p: Seq<char>) -> bool {
    p.len() <= s.len() && s.subrange(s.len() - p.len(), s.len() as int) == p
}

/// The sequence with every trailing repetition of `p` removed.
pub open spec fn strip_suffix_rep(s: Seq<char>, p: Seq<char>) -> Seq<char>
    decreases s.len(),
{
    if p.len() > 0 && ends_with(s, p) && s.len() >= p.len() {
        if s.len() == p.len() {
            Seq::empty()
        } else {
            strip_suffix_rep(s.take(s.len() - p.len()), p)
        }
    } else {
        s
    }
}

/// A control character as JSON must not carry raw inside a string.
pub open spec fn is_ctrl_char(c: char) -> bool {
    c <= '\u{1f}' || ('\u{7f}' <= c && c <= '\u{9f}')
}

/// The escape-repair machine over the characters of (the stripped form
/// of) the text: outside string literals everything is copied; inside
/// them, escapes are kept as they stand, raw line breaks and tabs become
/// their escape sequences, and other control characters are dropped.
pub open spec fn clean_chars(s: Seq<char>, in_string: bool) -> Seq<char>
    decreases s.len(),
{
    if s.len() == 0 {
        Seq::empty()
    } else if !in_string {
        if s[0] == '"' {
            seq!['"'] + clean_chars(s.drop_first(), true)
        } else {
            s.take(1) + clean_chars(s.drop_first(), false)
        }
    } else {
        if s[0] == '\\' {
            if s.len() >= 2 {
                seq![s[0], s[1]] + clean_chars(s.skip(2), true)
            } else {
                seq![s[0]]
            }
        } else if s[0] == '"' {
            seq!['"'] + clean_chars(s.drop_first(), false)
        } else if s[0] == '\n' {
            seq!['\\', 'n'] + clean_chars(s.drop_first(), true)
        } else if s[0] == '\r' {
            seq!['\\', 'r'] + clean_chars(s.drop_first(), true)
        } else if s[0] == '\t' {
            seq!['\\', 't'] + clean_chars(s.drop_first(), true)
        } else if is_ctrl_char(s[0]) {
            clean_chars(s.drop_first(), true)
        } else {
            s.take(1) + clean_chars(s.drop_first(), true)
        }
    }
}

/// The stripped form of the trimmed text: a leading json code fence (or a
/// bare one) is removed together with any trailing fence, and the rest is
/// trimmed again.
pub open spec fn stripped_of(s: Seq<char>) -> Seq<char> {
    let t = trim_of(s);
    if starts_with(t, "```json"@) {
        trim_of(strip_suffix_rep(strip_prefix_rep(t, "```json"@), "```"@))
    } else if starts_with(t, "```"@) {
        trim_of(strip_suffix_rep(strip_prefix_rep(t, "```"@), "```"@))
    } else {
        t
    }
}

/// The repaired text.
pub open spec fn clean_json_of(s: Seq<char>) -> Seq<char> {
    clean_chars(stripped_of(s), false)
}

fn strip_prefix_loop(v: Vec<char>, p: &Vec<char>) -> (r: Vec<char>)
    requires
        p@.len() > 0,
    ensures
        r@ == strip_prefix_rep(v@, p@),
    decreases v@.len(),
{
    if chars_start_with(&v, p) {
        if v.len() == p.len() {
            let r: Vec<char> = Vec::new();
            proof {
                assert(r@ =~= strip_prefix_rep(v@, p@));
            }
            r
        } else {
            strip_prefix_loop(chars_skip(&v, p.len()), p)
        }
    } else {
        v
    }
}

fn chars_end_with(v: &Vec<char>, p: &Vec<char>) -> (r: bool)
    ensures
        r == ends_with(v@, p@),
{
    let pn = p.len();
    let vn = v.len();
    if pn > vn {
        return false;
    }
    let mut i: usize = 0;
    while i < pn
        invariant
            pn == p@.len(),
            vn == v@.len(),
            pn <= vn,
            i <= pn,
            forall|j: int| 0 <= j < i ==> v@[vn - pn + j] == p@[j],
        decreases pn - i,
    {
        if v[vn - pn + i] != p[i] {
            proof {
                if ends_with(v@, p@) {
                    assert(v@.subrange(vn - pn, vn as int)[i as int] == p@[i as int]);
                }
            }
            return false;
        }
        i += 1;
    }
    proof {
        assert(v@.subrange(vn - pn, vn as int) =~= p@);
    }
    true
}

fn strip_suffix_loop(v: Vec<char>, p: &Vec<char>) -> (r: Vec<char>)
    requires
        p@.len() > 0,
    ensures
        r@ == strip_suffix_rep(v@, p@),
    decreases v@.len(),
{
    if chars_end_with(&v, p) {
        if v.len() == p.len() {
            let r: Vec<char> = Vec::new();
            proof {
                assert(r@ =~= strip_suffix_rep(v@, p@));
            }
            r
        } else {
            let ghost v0 = v@;
            let mut v2 = v;
            let keep = v2.len() - p.len();
            v2.truncate(keep);
            proof {
                assert(v2@ =~= v0.take(keep as int));
            }
            strip_suffix_loop(v2, p)
        }
    } else {
        v
    }
}

fn char_is_ctrl(c: char) -> (r: bool)
    ensures
        r == is_ctrl_char(c),
{
    c <= '\u{1f}' || ('\u{7f}' <= c && c <= '\u{9f}')
}

/// Repair generator output before decoding: strip markdown code fences
/// and re-escape or drop raw control characters inside string literals.
pub fn clean_json(s: &str) -> (r: String)
    ensures
        r@ == clean_json_of(s@),
{
    let v0 = str_chars(s);
    let t = trim_chars(&v0);
    let fence_json = str_chars("```json");
    let fence = str_chars("```");
    let stripped: Vec<char> = if chars_start_with(&t, &fence_json) {
        proof {
            reveal_strlit("```json");
            reveal_strlit("```");
        }
        let inner = strip_suffix_loop(strip_prefix_loop(t, &fence_json), &fence);
        trim_chars(&inner)
    } else if chars_start_with(&t, &fence) {
        proof {
            reveal_strlit("```json");
            reveal_strlit("```");
        }
        let inner = strip_suffix_loop(strip_prefix_loop(t, &fence), &fence);
        trim_chars(&inner)
    } else {
        t
    };
    let ghost sv = stripped@;
    proof {
        assert(sv.skip(0) =~= sv);
        assert(Seq::<char>::empty() + clean_chars(sv, false) =~= clean_chars(sv, false));
    }
    let n = stripped.len();
    let mut out: Vec<char> = Vec::new();
    let mut in_string = false;
    let mut i: usize = 0;
    while i < n
        invariant
            n == sv.len(),
            stripped@ == sv,
            i <= n,
            clean_chars(sv, false) == out@ + clean_chars(sv.skip(i as int), in_string),
        decreases n - i,
    {
        let c = stripped[i];
        let ghost rest = sv.skip(i as int);
        proof {
            assert(rest[0] == sv[i as int]);
            assert(rest.drop_first() =~= sv.skip(i + 1));
        }
        if !in_string {
            out.push(c);
            if c == '"' {
                in_string = true;
            }
            proof {
                assert(rest.take(1) =~= seq![sv[i as int]]);
                assert(seq!['"'] =~= rest.take(1) || sv[i as int] != '"');
            }
            i += 1;
        } else {
            if c == '\\' {
                out.push(c);
                if i + 1 < n {
                    out.push(stripped[i + 1]);
                    proof {
                        assert(rest.skip(2) =~= sv.skip(i + 2));
                        assert(seq![rest[0], rest[1]] =~= seq![sv[i as int], sv[i + 1]]);
                    }
                    i += 2;
                } else {
                    proof {
                        assert(rest.len() == 1);
                        assert(seq![rest[0]] =~= seq![sv[i as int]]);
                        assert(sv.skip(i + 1).len() == 0);
                        assert(clean_chars(sv.skip(i + 1), in_string) =~= Seq::<char>::empty());
                    }
                    i += 1;
                }
            } else if c == '"' {
                out.push(c);
                in_string = false;
                proof {
                    assert(seq!['"'] =~= rest.take(1));
                }
                i += 1;
            } else if c == '\n' {
                out.push('\\');
                out.push('n');
                i += 1;
            } else if c == '\r' {
                out.push('\\');
                out.push('r');
                i += 1;
            } else if c == '\t' {
                out.push('\\');
                out.push('t');
                i += 1;
            } else if char_is_ctrl(c) {
                i += 1;
            } else {
                out.push(c);
                proof {
                    assert(rest.take(1) =~= seq![sv[i as int]]);
                }
                i += 1;
            }
        }
    }
    proof {
        assert(sv.skip(n as int).len() == 0);
        assert(clean_chars(sv.skip(n as int), in_string) =~= Seq::<char>::empty());
        assert(out@ =~= clean_chars(sv, false));
        assert(sv == stripped_of(s@));
    }
    chars_string(&out)
}

} // verus!
