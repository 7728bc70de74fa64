//! Character-level text operations: conversion between strings and character
//! vectors, prefix tests, lexicographic order and substring replacement.

use vstd::prelude::*;

verus! {

/// `String::push` appends one character to the end of the string.
pub assume_specification[ String::push ](s: &mut String, c: char)
    ensures
        final(s)@ == old(s)@.push(c),
;

/// What `str::trim` returns for a text.
pub uninterp spec fn trimmed(text: Seq<char>) -> Seq<char>;

/// What `str::to_lowercase` returns for a text.
pub uninterp spec fn lowercased(text: Seq<char>) -> Seq<char>;

/// `str::trim`: the text without its leading and trailing whitespace, as an
/// owned string. The contract only names the result.
#[verifier::external_body]
pub(crate) fn trim(text: &str) -> (out: String)
    ensures
        out@ == trimmed(text@),
{
    text.trim().to_owned()
}

/// `str::to_lowercase`: the lowercase equivalent of the text. The contract only
/// names the result.
#[verifier::external_body]
pub(crate) fn lowercase(text: &str) -> (out: String)
    ensures
        out@ == lowercased(text@),
{
    text.to_lowercase()
}

/// The characters of `s`, in order.
pub fn chars_of(s: &str) -> (out: Vec<char>)
    ensures
        out@ == s@,
{
    let mut out: Vec<char> = Vec::new();
    for c in it: s.chars()
        invariant
            out@ == it.seq().take(it.index() as int),
            it.seq() == s@,
    {
        out.push(c);
    }
    out
}

/// The string made of `chars`, in order.
pub fn string_of(chars: &Vec<char>) -> (out: String)
    ensures
        out@ == chars@,
{
    let mut out = String::new();
    let mut i: usize = 0;
    while i < chars.len()
        invariant
            i <= chars.len(),
            out@ == chars@.take(i as int),
        decreases chars.len() - i,
    {
        out.push(chars[i]);
        i += 1;
    }
    out
}

/// Whether `pattern` stands in `text` at position `at`.
pub open spec fn occurs_at(text: Seq<char>, pattern: Seq<char>, at: int) -> bool {
    &&& 0 <= at
    &&& at + pattern.len() <= text.len()
    &&& text.subrange(at, at + pattern.len()) == pattern
}

/// Tests whether `pattern` stands in `text` at position `at`.
pub fn matches_at(text: &Vec<char>, pattern: &Vec<char>, at: usize) -> (found: bool)
    ensures
        found == occurs_at(text@, pattern@, at as int),
{
    if at > text.len() || pattern.len() > text.len() - at {
        return false;
    }
    let mut k: usize = 0;
    while k < pattern.len()
        invariant
            k <= pattern.len(),
            at + pattern.len() <= text.len(),
            forall|j: int| 0 <= j < k ==> text@[at + j] == pattern@[j],
        decreases pattern.len() - k,
    {
        if text[at + k] != pattern[k] {
            proof {
                let window = text@.subrange(at as int, at + pattern.len());
                assert(window[k as int] == text@[at + k]);
            }
            return false;
        }
        k += 1;
    }
    assert(text@.subrange(at as int, at + pattern.len()) =~= pattern@);
    true
}

/// Whether two character vectors hold the same text.
pub fn same_chars(a: &Vec<char>, b: &Vec<char>) -> (same: bool)
    ensures
        same == (a@ == b@),
{
    if a.len() != b.len() {
        return false;
    }
    let same = matches_at(a, b, 0);
    proof {
        assert(a@.subrange(0, a@.len() as int) =~= a@);
    }
    same
}

/// Whether two strings hold the same text.
pub fn same_text(a: &str, b: &str) -> (same: bool)
    ensures
        same == (a@ == b@),
{
    let x = chars_of(a);
    let y = chars_of(b);
    same_chars(&x, &y)
}

/// Whether `text` begins with `prefix`.
pub fn starts_with(text: &str, prefix: &str) -> (found: bool)
    ensures
        found == prefix@.is_prefix_of(text@),
{
    let t = chars_of(text);
    let p = chars_of(prefix);
    let found = matches_at(&t, &p, 0);
    proof {
        if p@.len() <= t@.len() {
            assert(t@.subrange(0, p@.len() as int) =~= t@.take(p@.len() as int));
        }
    }
    found
}

/// `text` with every occurrence of `pattern` replaced by `value`. Occurrences
/// are found from the left and do not overlap; an empty pattern occurs nowhere.
pub open spec fn replaced(text: Seq<char>, pattern: Seq<char>, value: Seq<char>) -> Seq<char>
    decreases text.len(),
{
    if pattern.len() == 0 || text.len() < pattern.len() {
        text
    } else if occurs_at(text, pattern, 0) {
        value + replaced(text.skip(pattern.len() as int), pattern, value)
    } else {
        seq![text[0]] + replaced(text.skip(1), pattern, value)
    }
}

/// Whether `pattern` stands somewhere in `text`.
pub open spec fn occurs_in(text: Seq<char>, pattern: Seq<char>) -> bool {
    exists|at: int| occurs_at(text, pattern, at)
}

/// Replacing a pattern that stands nowhere in a text leaves the text as it
/// is.
pub proof fn lemma_replaced_absent(text: Seq<char>, pattern: Seq<char>, value: Seq<char>)
    requires
        !occurs_in(text, pattern),
    ensures
        replaced(text, pattern, value) == text,
    decreases text.len(),
{
    if pattern.len() > 0 && text.len() >= pattern.len() {
        assert(!occurs_at(text, pattern, 0));
        let rest = text.skip(1);
        assert forall|at: int| !occurs_at(rest, pattern, at) by {
            if occurs_at(rest, pattern, at) {
                assert(rest.subrange(at, at + pattern.len()) =~= text.subrange(
                    at + 1,
                    at + 1 + pattern.len(),
                ));
                assert(occurs_at(text, pattern, at + 1));
            }
        }
        lemma_replaced_absent(rest, pattern, value);
        assert(seq![text[0]] + rest =~= text);
    }
}

/// Replaces every occurrence of `pattern` in `text` by `value`.
pub fn replace_all(text: &Vec<char>, pattern: &Vec<char>, value: &Vec<char>) -> (out: Vec<char>)
    ensures
        out@ == replaced(text@, pattern@, value@),
{
    let mut out: Vec<char> = Vec::new();
    if pattern.len() == 0 {
        let mut i: usize = 0;
        while i < text.len()
            invariant
                i <= text.len(),
                out@ == text@.take(i as int),
            decreases text.len() - i,
        {
            out.push(text[i]);
            i += 1;
        }
        assert(text@.take(text@.len() as int) =~= text@);
        return out;
    }
    let mut i: usize = 0;
    assert(text@.skip(0) =~= text@);
    assert(Seq::<char>::empty() + replaced(text@, pattern@, value@) =~= replaced(
        text@,
        pattern@,
        value@,
    ));
    while i < text.len()
        invariant
            i <= text.len(),
            pattern@.len() > 0,
            out@ + replaced(text@.skip(i as int), pattern@, value@) == replaced(
                text@,
                pattern@,
                value@,
            ),
        decreases text.len() - i,
    {
        let ghost rest = text@.skip(i as int);
        let ghost before = out@;
        if matches_at(text, pattern, i) {
            proof {
                assert(rest.subrange(0, pattern@.len() as int) =~= text@.subrange(
                    i as int,
                    i + pattern@.len(),
                ));
                assert(rest.skip(pattern@.len() as int) =~= text@.skip(i + pattern@.len()));
            }
            let mut k: usize = 0;
            while k < value.len()
                invariant
                    k <= value.len(),
                    out@ == before + value@.take(k as int),
                decreases value.len() - k,
            {
                out.push(value[k]);
                k += 1;
            }
            proof {
                assert(value@.take(value@.len() as int) =~= value@);
                assert((before + value@) + replaced(
                    rest.skip(pattern@.len() as int),
                    pattern@,
                    value@,
                ) =~= before + (value@ + replaced(
                    rest.skip(pattern@.len() as int),
                    pattern@,
                    value@,
                )));
            }
            i += pattern.len();
        } else {
            proof {
                if rest.len() >= pattern@.len() {
                    assert(rest.subrange(0, pattern@.len() as int) =~= text@.subrange(
                        i as int,
                        i + pattern@.len(),
                    ));
                } else {
                    assert(rest.skip(1).len() < pattern@.len());
                    assert(rest =~= seq![rest[0]] + rest.skip(1));
                }
                assert(rest.skip(1) =~= text@.skip(i + 1));
                assert(before.push(text@[i as int]) + replaced(rest.skip(1), pattern@, value@)
                    =~= before + (seq![rest[0]] + replaced(rest.skip(1), pattern@, value@)));
            }
            out.push(text[i]);
            i += 1;
        }
    }
    proof {
        assert(text@.skip(text@.len() as int) =~= Seq::<char>::empty());
        assert(out@ + Seq::<char>::empty() =~= out@);
    }
    out
}

/// Lexicographic order of texts by the code points of their characters: `a`
/// comes strictly before `b`.
pub open spec fn text_before(a: Seq<char>, b: Seq<char>) -> bool
    decreases a.len(),
{
    if b.len() == 0 {
        false
    } else if a.len() == 0 {
        true
    } else if a[0] != b[0] {
        a[0] < b[0]
    } else {
        text_before(a.skip(1), b.skip(1))
    }
}

/// Tests whether `a` comes strictly before `b` in lexicographic order.
pub fn comes_before(a: &Vec<char>, b: &Vec<char>) -> (before: bool)
    ensures
        before == text_before(a@, b@),
{
    let mut i: usize = 0;
    assert(a@.skip(0) =~= a@ && b@.skip(0) =~= b@);
    loop
        invariant
            i <= a.len(),
            i <= b.len(),
            text_before(a@, b@) == text_before(a@.skip(i as int), b@.skip(i as int)),
        decreases a.len() - i,
    {
        let ghost ra = a@.skip(i as int);
        let ghost rb = b@.skip(i as int);
        if i >= b.len() {
            return false;
        }
        if i >= a.len() {
            return true;
        }
        let x: char = a[i];
        let y: char = b[i];
        if x != y {
            return x < y;
        }
        proof {
            assert(ra.skip(1) =~= a@.skip(i + 1));
            assert(rb.skip(1) =~= b@.skip(i + 1));
        }
        i += 1;
    }
}

/// The order of texts is strict: of two texts at most one comes before the
/// other, and no text comes before itself.
pub proof fn lemma_text_before_asymmetric(a: Seq<char>, b: Seq<char>)
    ensures
        text_before(a, b) ==> !text_before(b, a),
    decreases a.len(),
{
    if a.len() > 0 && b.len() > 0 && a[0] == b[0] {
        lemma_text_before_asymmetric(a.skip(1), b.skip(1));
    }
}

/// The order of texts is total: of two different texts one comes before the
/// other.
pub proof fn lemma_text_before_total(a: Seq<char>, b: Seq<char>)
    ensures
        a != b ==> text_before(a, b) || text_before(b, a),
    decreases a.len(),
{
    if a.len() > 0 && b.len() > 0 && a[0] == b[0] {
        lemma_text_before_total(a.skip(1), b.skip(1));
        if a.skip(1) == b.skip(1) {
            assert(a =~= seq![a[0]] + a.skip(1));
            assert(b =~= seq![b[0]] + b.skip(1));
        }
    } else if a.len() == 0 && b.len() == 0 {
        assert(a =~= b);
    }
}

/// The order of texts is transitive.
pub proof fn lemma_text_before_transitive(a: Seq<char>, b: Seq<char>, c: Seq<char>)
    requires
        text_before(a, b),
        text_before(b, c),
    ensures
        text_before(a, c),
    decreases a.len(),
{
    if a.len() > 0 && b.len() > 0 && c.len() > 0 {
        if a[0] == b[0] && b[0] == c[0] {
            lemma_text_before_transitive(a.skip(1), b.skip(1), c.skip(1));
        }
    }
}

/// Where `b` does not come before `a` and `c` does not come before `b`, `c`
/// does not come before `a`.
pub proof fn lemma_not_before_transitive(a: Seq<char>, b: Seq<char>, c: Seq<char>)
    requires
        !text_before(b, a),
        !text_before(c, b),
    ensures
        !text_before(c, a),
{
    if text_before(c, a) {
        lemma_text_before_total(a, b);
        lemma_text_before_total(b, c);
        if a == b {
        } else if b == c {
        } else {
            lemma_text_before_transitive(c, a, b);
            lemma_text_before_asymmetric(c, b);
            lemma_text_before_asymmetric(b, c);
        }
    }
}

} // verus!
