//! Literal substring search and replacement over text, plus whitespace
//! trimming. Matches are counted non-overlapping, left to right, and an
//! empty needle matches nothing.

use vstd::prelude::*;

verus! {

/// Number of non-overlapping, left-to-right matches of `needle` in `content`.
/// An empty needle matches nothing.
pub open spec fn match_count(content: Seq<char>, needle: Seq<char>) -> nat
    decreases content.len(),
{
    if needle.len() == 0 || content.len() < needle.len() {
        0
    } else if content.take(needle.len() as int) == needle {
        1 + match_count(content.skip(needle.len() as int), needle)
    } else {
        match_count(content.skip(1), needle)
    }
}

/// `content` with every non-overlapping, left-to-right match of `needle`
/// replaced by `repl`. An empty needle leaves the content unchanged.
pub open spec fn replaced(content: Seq<char>, needle: Seq<char>, repl: Seq<char>) -> Seq<char>
    decreases content.len(),
{
    if needle.len() == 0 || content.len() < needle.len() {
        content
    } else if content.take(needle.len() as int) == needle {
        repl + replaced(content.skip(needle.len() as int), needle, repl)
    } else {
        seq![content[0]] + replaced(content.skip(1), needle, repl)
    }
}

/// Law: an empty needle never matches, so counting finds nothing and
/// replacement leaves the content unchanged.
pub proof fn lemma_empty_needle(content: Seq<char>, repl: Seq<char>)
    ensures
        match_count(content, Seq::<char>::empty()) == 0,
        replaced(content, Seq::<char>::empty(), repl) == content,
{
}

/// The Unicode white-space characters, the ones surrounding-whitespace
/// trimming removes.
pub open spec fn is_blank(c: char) -> bool {
    ||| c == ' '
    ||| c == '\t'
    ||| c == '\n'
    ||| c == '\r'
    ||| c == '\u{000B}'
    ||| c == '\u{000C}'
    ||| c == '\u{0085}'
    ||| c == '\u{00A0}'
    ||| c == '\u{1680}'
    ||| (0x2000 <= c as u32 && c as u32 <= 0x200A)
    ||| c == '\u{2028}'
    ||| c == '\u{2029}'
    ||| c == '\u{202F}'
    ||| c == '\u{205F}'
    ||| c == '\u{3000}'
}

/// `s` with its leading and trailing white space removed.
pub open spec fn trimmed(s: Seq<char>) -> Seq<char>
    decreases s.len(),
{
    if s.len() == 0 {
        s
    } else if is_blank(s[0]) {
        trimmed(s.skip(1))
    } else if is_blank(s.last()) {
        trimmed(s.take(s.len() - 1))
    } else {
        s
    }
}

fn blank(c: char) -> (r: bool)
    ensures
        r == is_blank(c),
{
    c == ' ' || c == '\t' || c == '\n' || c == '\r' || c == '\u{000B}' || c == '\u{000C}'
        || c == '\u{0085}' || c == '\u{00A0}' || c == '\u{1680}' || (0x2000 <= c as u32 && c
        as u32 <= 0x200A) || c == '\u{2028}' || c == '\u{2029}' || c == '\u{202F}' || c
        == '\u{205F}' || c == '\u{3000}'
}

/// `s` with its leading and trailing white space removed.
pub fn trim_text(s: &str) -> (r: String)
    ensures
        r@ == trimmed(s@),
{
    let len = s.unicode_len();
    let mut a: usize = 0;
    let mut b: usize = len;
    proof {
        assert(s@.subrange(0, len as int) =~= s@);
    }
    while a < b && blank(s.get_char(a))
        invariant
            a <= b <= len,
            len == s@.len(),
            trimmed(s@) == trimmed(s@.subrange(a as int, b as int)),
        decreases b - a,
    {
        proof {
            let sub = s@.subrange(a as int, b as int);
            assert(sub[0] == s@[a as int]);
            assert(sub.skip(1) =~= s@.subrange(a + 1, b as int));
        }
        a += 1;
    }
    while a < b && blank(s.get_char(b - 1))
        invariant
            a <= b <= len,
            len == s@.len(),
            trimmed(s@) == trimmed(s@.subrange(a as int, b as int)),
            a < b ==> !is_blank(s@[a as int]),
        decreases b,
    {
        proof {
            let sub = s@.subrange(a as int, b as int);
            assert(sub[0] == s@[a as int]);
            assert(sub.last() == s@[b - 1]);
            assert(sub.take(sub.len() - 1) =~= s@.subrange(a as int, b - 1));
        }
        b -= 1;
    }
    let r = s.substring_char(a, b);
    proof {
        let sub = s@.subrange(a as int, b as int);
        if a < b {
            assert(sub[0] == s@[a as int]);
            assert(sub.last() == s@[b - 1]);
        }
        assert(trimmed(sub) == sub);
    }
    r.to_owned()
}

/// Character-by-character string equality.
pub fn str_equal(a: &str, b: &str) -> (r: bool)
    ensures
        r == (a@ == b@),
{
    let alen = a.unicode_len();
    let blen = b.unicode_len();
    if alen != blen {
        return false;
    }
    let mut i: usize = 0;
    while i < alen
        invariant
            i <= alen,
            alen == a@.len(),
            alen == b@.len(),
            forall|j: int| 0 <= j < i ==> a@[j] == b@[j],
        decreases alen - i,
    {
        if a.get_char(i) != b.get_char(i) {
            return false;
        }
        i += 1;
    }
    proof {
        assert(a@ =~= b@);
    }
    true
}

/// Whether the characters of `content` starting at `at` spell `needle`.
fn matches_at(content: &str, clen: usize, needle: &str, nlen: usize, at: usize) -> (r: bool)
    requires
        clen == content@.len(),
        nlen == needle@.len(),
        at + nlen <= clen,
    ensures
        r == (content@.subrange(at as int, at + nlen) == needle@),
{
    let mut k: usize = 0;
    while k < nlen
        invariant
            k <= nlen,
            clen == content@.len(),
            nlen == needle@.len(),
            at + nlen <= clen,
            forall|m: int| 0 <= m < k ==> content@[at + m] == needle@[m],
        decreases nlen - k,
    {
        if content.get_char(at + k) != needle.get_char(k) {
            proof {
                assert(content@.subrange(at as int, at + nlen)[k as int] != needle@[k as int]);
            }
            return false;
        }
        k += 1;
    }
    proof {
        assert(content@.subrange(at as int, at + nlen) =~= needle@);
    }
    true
}

/// Counts the non-overlapping, left-to-right matches of `needle` in `content`.
pub fn count_matches(content: &str, needle: &str) -> (n: usize)
    ensures
        n as nat == match_count(content@, needle@),
{
    let clen = content.unicode_len();
    let nlen = needle.unicode_len();
    if nlen == 0 || nlen > clen {
        return 0;
    }
    let mut i: usize = 0;
    let mut n: usize = 0;
    proof {
        assert(content@.skip(0) =~= content@);
    }
    while i <= clen - nlen
        invariant
            1 <= nlen <= clen,
            clen == content@.len(),
            nlen == needle@.len(),
            i <= clen,
            n <= i,
            n as nat + match_count(content@.skip(i as int), needle@) == match_count(
                content@,
                needle@,
            ),
        decreases clen - i,
    {
        proof {
            assert(content@.skip(i as int).take(nlen as int) =~= content@.subrange(
                i as int,
                i + nlen,
            ));
        }
        if matches_at(content, clen, needle, nlen, i) {
            proof {
                assert(content@.skip(i as int).skip(nlen as int) =~= content@.skip(i + nlen));
            }
            n += 1;
            i += nlen;
        } else {
            proof {
                assert(content@.skip(i as int).skip(1) =~= content@.skip(i + 1));
            }
            i += 1;
        }
    }
    proof {
        assert(content@.skip(i as int).len() < nlen);
    }
    n
}

/// Replaces every non-overlapping, left-to-right match of `needle` in
/// `content` by `repl`, returning the new text and the number of
/// replacements made.
pub fn replace_matches(content: &str, needle: &str, repl: &str) -> (r: (String, usize))
    ensures
        r.0@ == replaced(content@, needle@, repl@),
        r.1 as nat == match_count(content@, needle@),
{
    let clen = content.unicode_len();
    let nlen = needle.unicode_len();
    if nlen == 0 || nlen > clen {
        return (content.to_owned(), 0);
    }
    let mut out = String::new();
    let mut i: usize = 0;
    let mut n: usize = 0;
    proof {
        assert(content@.skip(0) =~= content@);
        assert(out@ + replaced(content@, needle@, repl@) =~= replaced(content@, needle@, repl@));
    }
    while i <= clen - nlen
        invariant
            1 <= nlen <= clen,
            clen == content@.len(),
            nlen == needle@.len(),
            i <= clen,
            n <= i,
            out@ + replaced(content@.skip(i as int), needle@, repl@) == replaced(
                content@,
                needle@,
                repl@,
            ),
            n as nat + match_count(content@.skip(i as int), needle@) == match_count(
                content@,
                needle@,
            ),
        decreases clen - i,
    {
        proof {
            assert(content@.skip(i as int).take(nlen as int) =~= content@.subrange(
                i as int,
                i + nlen,
            ));
        }
        if matches_at(content, clen, needle, nlen, i) {
            out.append(repl);
            proof {
                assert(content@.skip(i as int).skip(nlen as int) =~= content@.skip(i + nlen));
                assert(out@ + replaced(content@.skip(i + nlen), needle@, repl@) =~= replaced(
                    content@,
                    needle@,
                    repl@,
                ));
            }
            n += 1;
            i += nlen;
        } else {
            let piece = content.substring_char(i, i + 1);
            out.append(piece);
            proof {
                assert(content@.skip(i as int).skip(1) =~= content@.skip(i + 1));
                assert(piece@ =~= seq![content@.skip(i as int)[0]]);
                assert(out@ + replaced(content@.skip(i + 1), needle@, repl@) =~= replaced(
                    content@,
                    needle@,
                    repl@,
                ));
            }
            i += 1;
        }
    }
    let tail = content.substring_char(i, clen);
    out.append(tail);
    proof {
        assert(content@.skip(i as int).len() < nlen);
        assert(tail@ =~= content@.skip(i as int));
        assert(out@ =~= replaced(content@, needle@, repl@));
    }
    (out, n)
}

} // verus!
