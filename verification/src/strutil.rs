//! Character-level helpers for the path strings the scanner and cleaner use.

use vstd::prelude::*;

verus! {

/// A name is hidden when it begins with `.`.
pub open spec fn spec_is_hidden_name(name: Seq<char>) -> bool {
    name.len() > 0 && name[0] == '.'
}

/// Component-aware nesting of absolute paths: `p` is `anc` itself or lies
/// below it, i.e. `p` continues `anc` with a `/` separator.
pub open spec fn path_covered_by(p: Seq<char>, anc: Seq<char>) -> bool {
    p == anc || (p.len() > anc.len() && p.subrange(0, anc.len() as int) == anc
        && p[anc.len() as int] == '/')
}

/// `p` is covered by some element of `ancs`.
pub open spec fn covered_by_any(p: Seq<char>, ancs: Seq<Seq<char>>) -> bool {
    exists|i: int| 0 <= i < ancs.len() && path_covered_by(p, #[trigger] ancs[i])
}

/// Path coverage is transitive: below `b` and `b` below `c` means below `c`.
pub proof fn lemma_covered_trans(a: Seq<char>, b: Seq<char>, c: Seq<char>)
    requires
        path_covered_by(a, b),
        path_covered_by(b, c),
    ensures
        path_covered_by(a, c),
{
    if a == b || b == c {
    } else {
        assert forall|i: int| 0 <= i < c.len() implies a.subrange(0, c.len() as int)[i] == c[i] by {
            assert(a.subrange(0, b.len() as int)[i] == a[i]);
            assert(a.subrange(0, c.len() as int)[i] == a[i]);
            assert(b.subrange(0, c.len() as int)[i] == b[i]);
        }
        assert(a.subrange(0, c.len() as int) =~= c);
        assert(a[c.len() as int] == a.subrange(0, b.len() as int)[c.len() as int]);
    }
}

/// The views of a sequence of strings.
pub open spec fn views_of(v: Seq<String>) -> Seq<Seq<char>> {
    v.map_values(|s: String| s@)
}

/// `p` begins with the characters of `pre`.
pub open spec fn has_prefix(p: Seq<char>, pre: Seq<char>) -> bool {
    p.len() >= pre.len() && p.subrange(0, pre.len() as int) == pre
}

/// Character-for-character equality of two string slices.
pub fn str_eq(a: &str, b: &str) -> (r: bool)
    ensures
        r == (a@ == b@),
{
    let alen = a.unicode_len();
    let blen = b.unicode_len();
    if alen != blen {
        return false;
    }
    let mut i: usize = 0;
    while i < alen
        invariant
            alen == a@.len(),
            blen == b@.len(),
            alen == blen,
            i <= alen,
            forall|j: int| 0 <= j < i ==> a@[j] == b@[j],
        decreases alen - i,
    {
        if a.get_char(i) != b.get_char(i) {
            return false;
        }
        i += 1;
    }
    proof {
        assert(a@ =~= b@);
    }
    true
}

/// True when the name begins with `.`.
pub fn is_hidden_name(name: &str) -> (r: bool)
    ensures
        r == spec_is_hidden_name(name@),
{
    name.unicode_len() > 0 && name.get_char(0) == '.'
}

/// Whether `p` equals `anc` or lies strictly below it as a path.
pub fn path_under(p: &str, anc: &str) -> (r: bool)
    ensures
        r == path_covered_by(p@, anc@),
{
    let plen = p.unicode_len();
    let alen = anc.unicode_len();
    if plen == alen {
        return str_eq(p, anc);
    }
    if plen < alen {
        return false;
    }
    if p.get_char(alen) != '/' {
        return false;
    }
    let mut i: usize = 0;
    while i < alen
        invariant
            plen == p@.len(),
            alen == anc@.len(),
            alen < plen,
            i <= alen,
            forall|j: int| 0 <= j < i ==> p@[j] == anc@[j],
        decreases alen - i,
    {
        if p.get_char(i) != anc.get_char(i) {
            assert(p@.subrange(0, alen as int)[i as int] != anc@[i as int]);
            return false;
        }
        i += 1;
    }
    proof {
        assert(p@.subrange(0, alen as int) =~= anc@);
    }
    true
}

/// Lexicographic order (allowing equality) on character sequences, by code
/// point.
pub open spec fn lex_le(a: Seq<char>, b: Seq<char>) -> bool
    decreases a.len(),
{
    if a.len() == 0 {
        true
    } else if b.len() == 0 {
        false
    } else if (a[0] as u32) == (b[0] as u32) {
        lex_le(a.drop_first(), b.drop_first())
    } else {
        (a[0] as u32) < (b[0] as u32)
    }
}

/// Lexicographic order is reflexive.
pub proof fn lemma_lex_refl(a: Seq<char>)
    ensures
        lex_le(a, a),
    decreases a.len(),
{
    if a.len() > 0 {
        lemma_lex_refl(a.drop_first());
    }
}

/// Lexicographic order is total: of any two sequences, one precedes the
/// other.
pub proof fn lemma_lex_total(a: Seq<char>, b: Seq<char>)
    ensures
        lex_le(a, b) || lex_le(b, a),
    decreases a.len(),
{
    if a.len() == 0 || b.len() == 0 {
    } else if (a[0] as u32) == (b[0] as u32) {
        lemma_lex_total(a.drop_first(), b.drop_first());
    }
}

/// Lexicographic order is transitive.
pub proof fn lemma_lex_trans(a: Seq<char>, b: Seq<char>, c: Seq<char>)
    requires
        lex_le(a, b),
        lex_le(b, c),
    ensures
        lex_le(a, c),
    decreases a.len(),
{
    if a.len() == 0 {
    } else if b.len() == 0 {
    } else if c.len() == 0 {
    } else if (a[0] as u32) == (b[0] as u32) && (b[0] as u32) == (c[0] as u32) {
        lemma_lex_trans(a.drop_first(), b.drop_first(), c.drop_first());
    }
}

/// Whether `a` precedes `b` (or equals it) in lexicographic order.
pub fn str_lex_le(a: &str, b: &str) -> (r: bool)
    ensures
        r == lex_le(a@, b@),
{
    let alen = a.unicode_len();
    let blen = b.unicode_len();
    let mut i: usize = 0;
    proof {
        assert(a@.skip(0) =~= a@);
        assert(b@.skip(0) =~= b@);
    }
    while i < alen && i < blen
        invariant
            alen == a@.len(),
            blen == b@.len(),
            i <= alen,
            i <= blen,
            lex_le(a@, b@) == lex_le(a@.skip(i as int), b@.skip(i as int)),
            forall|j: int| 0 <= j < i ==> a@[j] == b@[j],
        decreases alen - i,
    {
        let ca = a.get_char(i);
        let cb = b.get_char(i);
        proof {
            assert(a@.skip(i as int)[0] == a@[i as int]);
            assert(b@.skip(i as int)[0] == b@[i as int]);
            assert(a@.skip(i as int).drop_first() =~= a@.skip(i as int + 1));
            assert(b@.skip(i as int).drop_first() =~= b@.skip(i as int + 1));
        }
        if (ca as u32) != (cb as u32) {
            return (ca as u32) < (cb as u32);
        }
        i += 1;
    }
    if i == alen {
        // a has run out: it equals b or is a strict prefix of it
        proof {
            assert(a@.skip(i as int).len() == 0);
        }
        true
    } else {
        // b is a strict prefix of a
        proof {
            assert(b@.skip(i as int).len() == 0);
            assert(a@.skip(i as int).len() > 0);
        }
        false
    }
}

/// A property of every element of a sequence survives any reordering: if two
/// sequences carry the same multiset, a pointwise property of one holds of
/// the other.
pub proof fn lemma_to_multiset_preserves<A>(a: Seq<A>, b: Seq<A>, p: spec_fn(A) -> bool)
    requires
        a.to_multiset() == b.to_multiset(),
        forall|i: int| 0 <= i < a.len() ==> p(#[trigger] a[i]),
    ensures
        forall|i: int| 0 <= i < b.len() ==> p(#[trigger] b[i]),
{
    broadcast use vstd::seq_lib::group_to_multiset_ensures;

    assert forall|i: int| 0 <= i < b.len() implies p(#[trigger] b[i]) by {
        assert(b.contains(b[i]));
        assert(b.to_multiset().count(b[i]) > 0);
        assert(a.to_multiset().count(b[i]) > 0);
        assert(a.contains(b[i]));
        let j = choose|j: int| 0 <= j < a.len() && a[j] == b[i];
        assert(p(a[j]));
    }
}

/// Whether `p` is covered by some string in `ancs`.
pub fn under_any(p: &str, ancs: &Vec<String>) -> (r: bool)
    ensures
        r == covered_by_any(p@, views_of(ancs@)),
{
    let mut i: usize = 0;
    while i < ancs.len()
        invariant
            i <= ancs@.len(),
            forall|j: int| 0 <= j < i ==> !path_covered_by(p@, views_of(ancs@)[j]),
        decreases ancs@.len() - i,
    {
        if path_under(p, ancs[i].as_str()) {
            assert(path_covered_by(p@, views_of(ancs@)[i as int]));
            return true;
        }
        i += 1;
    }
    false
}


/// Whether `n` occurs in `h` as a contiguous subsequence.
pub open spec fn spec_contains_sub(h: Seq<char>, n: Seq<char>) -> bool {
    exists|i: int| 0 <= i <= h.len() - n.len() && #[trigger] h.subrange(i, i + n.len() as int)
        == n
}

/// Whether the characters of `needle` occur contiguously in `hay`.
pub fn str_contains_sub(hay: &str, needle: &str) -> (r: bool)
    ensures
        r == spec_contains_sub(hay@, needle@),
{
    let hlen = hay.unicode_len();
    let nlen = needle.unicode_len();
    if nlen > hlen {
        return false;
    }
    if nlen == 0 {
        proof {
            assert(hay@.subrange(0, 0 + needle@.len() as int) =~= needle@);
        }
        return true;
    }
    let mut i: usize = 0;
    while i <= hlen - nlen
        invariant
            hlen == hay@.len(),
            nlen == needle@.len(),
            nlen <= hlen,
            i <= hlen - nlen + 1,
            1 <= nlen,
            forall|q: int|
                0 <= q < i ==> #[trigger] hay@.subrange(q, q + nlen as int) != needle@,
        decreases hlen - nlen - i + 1,
    {
        let mut j: usize = 0;
        let mut hit = true;
        while hit && j < nlen
            invariant
                hlen == hay@.len(),
                nlen == needle@.len(),
                nlen <= hlen,
                i <= hlen - nlen,
                j <= nlen,
                hit ==> forall|q: int| 0 <= q < j ==> hay@[i + q] == needle@[q],
                !hit ==> hay@.subrange(i as int, i + nlen as int) != needle@,
            decreases nlen - j, (if hit { 1int } else { 0int }),
        {
            if hay.get_char(i + j) != needle.get_char(j) {
                proof {
                    assert(hay@.subrange(i as int, i + nlen as int)[j as int] != needle@[
                        j as int]);
                }
                hit = false;
            } else {
                j += 1;
            }
        }
        if hit {
            proof {
                assert(hay@.subrange(i as int, i + nlen as int) =~= needle@);
            }
            return true;
        }
        i += 1;
    }
    false
}

} // verus!
