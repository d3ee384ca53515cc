//! String-order primitives shared by the store and the merger:
//! lexicographic order on character sequences, substring containment, and
//! verified executable string comparison.
use vstd::prelude::*;

verus! {

/// Strict lexicographic order on character sequences by code point,
/// which agrees with Rust's `str` ordering.
pub open spec fn lex_lt(a: Seq<char>, b: Seq<char>) -> bool
    decreases a.len(),
{
    if b.len() == 0 {
        false
    } else if a.len() == 0 {
        true
    } else if (a[0] as int) < (b[0] as int) {
        true
    } else if (a[0] as int) > (b[0] as int) {
        false
    } else {
        lex_lt(a.drop_first(), b.drop_first())
    }
}

/// Exactly one of `lex_lt(a, b)`, `lex_lt(b, a)`, `a == b` holds.
pub proof fn lemma_lex_lt_trichotomy(a: Seq<char>, b: Seq<char>)
    ensures
        lex_lt(a, b) ==> !lex_lt(b, a) && a != b,
        lex_lt(b, a) ==> !lex_lt(a, b) && a != b,
        !lex_lt(a, b) && !lex_lt(b, a) ==> a == b,
    decreases a.len(),
{
    if a.len() > 0 && b.len() > 0 {
        if (a[0] as int) == (b[0] as int) {
            assert(a[0] == b[0]);
            assert(lex_lt(a, b) == lex_lt(a.drop_first(), b.drop_first()));
            assert(lex_lt(b, a) == lex_lt(b.drop_first(), a.drop_first()));
            lemma_lex_lt_trichotomy(a.drop_first(), b.drop_first());
            if !lex_lt(a, b) && !lex_lt(b, a) {
                assert(a.drop_first() == b.drop_first());
                assert(a.len() == b.len());
                assert forall|i: int| 0 <= i < a.len() implies a[i] == b[i] by {
                    if i > 0 {
                        assert(a[i] == a.drop_first()[i - 1]);
                        assert(b[i] == b.drop_first()[i - 1]);
                    }
                }
                assert(a =~= b);
            }
            if a == b {
                assert(a.drop_first() =~= b.drop_first());
            }
        }
    } else {
        if !lex_lt(a, b) && !lex_lt(b, a) {
            assert(a =~= b);
        }
    }
}

/// Lexicographic order is transitive.
pub proof fn lemma_lex_lt_transitive(a: Seq<char>, b: Seq<char>, c: Seq<char>)
    requires
        lex_lt(a, b),
        lex_lt(b, c),
    ensures
        lex_lt(a, c),
    decreases a.len(),
{
    if a.len() > 0 {
        if b.len() > 0 && c.len() > 0 {
            if (a[0] as int) == (b[0] as int) && (b[0] as int) == (c[0] as int) {
                lemma_lex_lt_transitive(a.drop_first(), b.drop_first(), c.drop_first());
            }
        }
    }
}

/// `needle` occurs contiguously somewhere in `hay`.
pub open spec fn contains_seq(hay: Seq<char>, needle: Seq<char>) -> bool {
    exists|i: int|
        0 <= i && i + needle.len() <= hay.len() && #[trigger] hay.subrange(i, i + needle.len())
            == needle
}

/// Whether two string slices view to the same character sequence.
pub fn str_eq(a: &str, b: &str) -> (r: bool)
    ensures
        r == (a@ == b@),
{
    let alen = a.unicode_len();
    let blen = b.unicode_len();
    if alen != blen {
        assert(a@ != b@);
        return false;
    }
    let mut i: usize = 0;
    while i < alen
        invariant
            alen == a@.len(),
            alen == b@.len(),
            0 <= i <= alen,
            a@.take(i as int) == b@.take(i as int),
        decreases alen - i,
    {
        let ca = a.get_char(i);
        let cb = b.get_char(i);
        if ca != cb {
            assert(a@ != b@) by {
                assert(a@[i as int] != b@[i as int]);
            }
            return false;
        }
        assert(a@.take(i + 1) == b@.take(i + 1)) by {
            assert(a@.take(i + 1) =~= a@.take(i as int).push(a@[i as int]));
            assert(b@.take(i + 1) =~= b@.take(i as int).push(b@[i as int]));
        }
        i += 1;
    }
    assert(a@ == b@) by {
        assert(a@.take(alen as int) =~= a@);
        assert(b@.take(alen as int) =~= b@);
    }
    true
}

/// Whether `a` comes strictly before `b` in lexicographic order.
pub fn str_lt(a: &str, b: &str) -> (r: bool)
    ensures
        r == lex_lt(a@, b@),
{
    let alen = a.unicode_len();
    let blen = b.unicode_len();
    let n = if alen < blen {
        alen
    } else {
        blen
    };
    let mut i: usize = 0;
    assert(a@.skip(0) =~= a@);
    assert(b@.skip(0) =~= b@);
    while i < n
        invariant
            alen == a@.len(),
            blen == b@.len(),
            n == if alen < blen {
                alen
            } else {
                blen
            },
            0 <= i <= n,
            lex_lt(a@, b@) == lex_lt(a@.skip(i as int), b@.skip(i as int)),
            a@.take(i as int) == b@.take(i as int),
        decreases n - i,
    {
        let ca = a.get_char(i);
        let cb = b.get_char(i);
        if ca != cb {
            let r = (ca as u32) < (cb as u32);
            assert(lex_lt(a@.skip(i as int), b@.skip(i as int)) == r) by {
                assert(a@.skip(i as int)[0] == a@[i as int]);
                assert(b@.skip(i as int)[0] == b@[i as int]);
            }
            return r;
        }
        assert(lex_lt(a@.skip(i as int), b@.skip(i as int)) == lex_lt(
            a@.skip(i + 1),
            b@.skip(i + 1),
        )) by {
            assert(a@.skip(i as int)[0] == a@[i as int]);
            assert(b@.skip(i as int)[0] == b@[i as int]);
            assert(a@.skip(i as int).drop_first() =~= a@.skip(i + 1));
            assert(b@.skip(i as int).drop_first() =~= b@.skip(i + 1));
        }
        assert(a@.take(i + 1) == b@.take(i + 1)) by {
            assert(a@.take(i + 1) =~= a@.take(i as int).push(a@[i as int]));
            assert(b@.take(i + 1) =~= b@.take(i as int).push(b@[i as int]));
        }
        i += 1;
    }
    // One string is a prefix of the other; the shorter comes first.
    let r = alen < blen;
    assert(lex_lt(a@.skip(n as int), b@.skip(n as int)) == r) by {
        if alen < blen {
            assert(a@.skip(n as int).len() == 0);
            assert(b@.skip(n as int).len() > 0);
        } else {
            assert(b@.skip(n as int).len() == 0);
        }
    }
    r
}

/// Whether `hay` contains `needle` as a contiguous substring.
pub fn str_contains(hay: &str, needle: &str) -> (r: bool)
    ensures
        r == contains_seq(hay@, needle@),
{
    let hlen = hay.unicode_len();
    let nlen = needle.unicode_len();
    if nlen > hlen {
        assert(!contains_seq(hay@, needle@));
        return false;
    }
    if nlen == 0 {
        assert(contains_seq(hay@, needle@)) by {
            assert(hay@.subrange(0, 0 + needle@.len() as int) =~= needle@);
        }
        return true;
    }
    let mut start: usize = 0;
    while start <= hlen - nlen
        invariant
            hlen == hay@.len(),
            nlen == needle@.len(),
            1 <= nlen <= hlen,
            0 <= start <= hlen - nlen + 1,
            forall|s: int|
                0 <= s < start ==> #[trigger] hay@.subrange(s, s + needle@.len()) != needle@,
        decreases hlen + 1 - nlen - start,
    {
        let mut k: usize = 0;
        let mut matched = true;
        while k < nlen
            invariant
                hlen == hay@.len(),
                nlen == needle@.len(),
                0 <= start <= hlen - nlen,
                0 <= k <= nlen,
                matched ==> hay@.subrange(start as int, start + k) == needle@.take(k as int),
                !matched ==> hay@.subrange(start as int, start + needle@.len()) != needle@,
            decreases nlen - k,
        {
            if matched {
                let ch = hay.get_char(start + k);
                let cn = needle.get_char(k);
                if ch != cn {
                    assert(hay@.subrange(start as int, start + needle@.len()) != needle@) by {
                        assert(hay@.subrange(start as int, start + needle@.len())[k as int]
                            == hay@[start + k]);
                    }
                    matched = false;
                } else {
                    assert(hay@.subrange(start as int, start + (k + 1)) == needle@.take(k + 1)) by {
                        assert(hay@.subrange(start as int, start + (k + 1)) =~= hay@.subrange(
                            start as int,
                            start + k,
                        ).push(hay@[start + k]));
                        assert(needle@.take(k + 1) =~= needle@.take(k as int).push(
                            needle@[k as int],
                        ));
                    }
                }
            }
            k += 1;
        }
        if matched {
            assert(contains_seq(hay@, needle@)) by {
                assert(hay@.subrange(start as int, start + needle@.len()) == needle@.take(
                    nlen as int,
                ));
                assert(needle@.take(nlen as int) =~= needle@);
            }
            return true;
        }
        start += 1;
    }
    assert(!contains_seq(hay@, needle@));
    false
}

} // verus!
