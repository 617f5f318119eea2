//! Byte-lexicographic ordering of keys.
//!
//! Every store orders its keys by the lexicographic comparison of their raw
//! bytes; this module holds the ordering's specification, an executable
//! three-way comparison, and the order's algebraic laws.

use vstd::prelude::*;

verus! {

/// `a` comes strictly before `b` in byte-lexicographic order.
pub open spec fn lex_lt(a: Seq<u8>, b: Seq<u8>) -> bool
    decreases a.len(),
{
    if b.len() == 0 {
        false
    } else if a.len() == 0 {
        true
    } else if a[0] < b[0] {
        true
    } else if a[0] == b[0] {
        lex_lt(a.subrange(1, a.len() as int), b.subrange(1, b.len() as int))
    } else {
        false
    }
}

/// `a` comes before `b`, or equals it.
pub open spec fn lex_le(a: Seq<u8>, b: Seq<u8>) -> bool {
    lex_lt(a, b) || a == b
}

/// Exactly one of `lex_lt(a, b)`, `a == b`, `lex_lt(b, a)` holds: the
/// lexicographic order is total.
pub proof fn lemma_lex_trichotomy(a: Seq<u8>, b: Seq<u8>)
    ensures
        lex_lt(a, b) || a == b || lex_lt(b, a),
        lex_lt(a, b) ==> a != b && !lex_lt(b, a),
        a == b ==> !lex_lt(a, b) && !lex_lt(b, a),
    decreases a.len(),
{
    if a.len() == 0 || b.len() == 0 {
        if a.len() == 0 && b.len() == 0 {
            assert(a =~= b);
        }
    } else if a[0] == b[0] {
        let a1 = a.subrange(1, a.len() as int);
        let b1 = b.subrange(1, b.len() as int);
        lemma_lex_trichotomy(a1, b1);
        assert(forall|i: int| 1 <= i < a.len() ==> #[trigger] a[i] == a1[i - 1]);
        assert(forall|i: int| 1 <= i < b.len() ==> #[trigger] b[i] == b1[i - 1]);
        if a1 == b1 {
            assert(a =~= b);
        }
        if a == b {
            assert(a1 =~= b1);
        }
    } else {
        if a == b {
            assert(a[0] == b[0]);
        }
    }
}

/// The lexicographic order is transitive.
pub proof fn lemma_lex_trans(a: Seq<u8>, b: Seq<u8>, c: Seq<u8>)
    requires
        lex_lt(a, b),
        lex_lt(b, c),
    ensures
        lex_lt(a, c),
    decreases a.len(),
{
    if a.len() == 0 {
        assert(c.len() > 0);
    } else {
        assert(b.len() > 0 && c.len() > 0);
        if a[0] == b[0] && b[0] == c[0] {
            lemma_lex_trans(
                a.subrange(1, a.len() as int),
                b.subrange(1, b.len() as int),
                c.subrange(1, c.len() as int),
            );
        }
    }
}

/// Three-way comparison of two byte strings in lexicographic order:
/// `-1` when `a` comes first, `0` when they are equal, `1` when `b` comes
/// first.
pub fn lex_cmp(a: &[u8], b: &[u8]) -> (r: i8)
    ensures
        r == -1 || r == 0 || r == 1,
        (r == -1) <==> lex_lt(a@, b@),
        (r == 0) <==> a@ == b@,
        (r == 1) <==> lex_lt(b@, a@),
{
    proof {
        lemma_lex_trichotomy(a@, b@);
        assert(a@.subrange(0, a@.len() as int) =~= a@);
        assert(b@.subrange(0, b@.len() as int) =~= b@);
    }
    let mut i: usize = 0;
    while i < a.len() && i < b.len()
        invariant
            i <= a@.len(),
            i <= b@.len(),
            lex_lt(a@, b@) <==> lex_lt(
                a@.subrange(i as int, a@.len() as int),
                b@.subrange(i as int, b@.len() as int),
            ),
            lex_lt(b@, a@) <==> lex_lt(
                b@.subrange(i as int, b@.len() as int),
                a@.subrange(i as int, a@.len() as int),
            ),
            (a@ == b@) <==> (a@.subrange(i as int, a@.len() as int) == b@.subrange(
                i as int,
                b@.len() as int,
            )),
        decreases a@.len() - i,
    {
        let ghost ar = a@.subrange(i as int, a@.len() as int);
        let ghost br = b@.subrange(i as int, b@.len() as int);
        let x = a[i];
        let y = b[i];
        proof {
            assert(ar[0] == a@[i as int] && br[0] == b@[i as int]);
            assert(ar.subrange(1, ar.len() as int) =~= a@.subrange(i + 1, a@.len() as int));
            assert(br.subrange(1, br.len() as int) =~= b@.subrange(i + 1, b@.len() as int));
            lemma_lex_trichotomy(ar, br);
        }
        if x < y {
            proof {
                assert(lex_lt(ar, br));
            }
            return -1;
        }
        if x > y {
            proof {
                assert(lex_lt(br, ar));
            }
            return 1;
        }
        proof {
            if ar == br {
                assert(ar.subrange(1, ar.len() as int) =~= br.subrange(1, br.len() as int));
            }
            if ar.subrange(1, ar.len() as int) == br.subrange(1, br.len() as int) {
                assert(ar =~= br);
            }
        }
        i = i + 1;
    }
    proof {
        let ar = a@.subrange(i as int, a@.len() as int);
        let br = b@.subrange(i as int, b@.len() as int);
        if a@.len() == b@.len() {
            assert(ar =~= br);
        } else if a@.len() < b@.len() {
            assert(ar.len() == 0 && br.len() > 0);
            assert(lex_lt(ar, br));
        } else {
            assert(br.len() == 0 && ar.len() > 0);
            assert(lex_lt(br, ar));
        }
    }
    if a.len() < b.len() {
        -1
    } else if a.len() > b.len() {
        1
    } else {
        0
    }
}

/// Appending to both sides of a shared prefix compares the appended parts.
pub proof fn lemma_lex_prefix_cancel(p: Seq<u8>, a: Seq<u8>, b: Seq<u8>)
    ensures
        lex_lt(p + a, p + b) <==> lex_lt(a, b),
    decreases p.len(),
{
    if p.len() == 0 {
        assert(p + a =~= a);
        assert(p + b =~= b);
    } else {
        let pa = p + a;
        let pb = p + b;
        assert(pa[0] == p[0] && pb[0] == p[0]);
        assert(pa.subrange(1, pa.len() as int) =~= p.subrange(1, p.len() as int) + a);
        assert(pb.subrange(1, pb.len() as int) =~= p.subrange(1, p.len() as int) + b);
        lemma_lex_prefix_cancel(p.subrange(1, p.len() as int), a, b);
    }
}

/// A strict comparison of equal-length prefixes decides the comparison of
/// the concatenations, whatever follows them.
pub proof fn lemma_lex_concat_lt(a: Seq<u8>, b: Seq<u8>, x: Seq<u8>, y: Seq<u8>)
    requires
        a.len() == b.len(),
        lex_lt(a, b),
    ensures
        lex_lt(a + x, b + y),
    decreases a.len(),
{
    assert(b.len() > 0);
    let ax = a + x;
    let by = b + y;
    assert(ax[0] == a[0] && by[0] == b[0]);
    if a[0] == b[0] {
        assert(ax.subrange(1, ax.len() as int) =~= a.subrange(1, a.len() as int) + x);
        assert(by.subrange(1, by.len() as int) =~= b.subrange(1, b.len() as int) + y);
        lemma_lex_concat_lt(a.subrange(1, a.len() as int), b.subrange(1, b.len() as int), x, y);
    }
}

/// The reflexive order is transitive.
pub proof fn lemma_lex_le_trans(a: Seq<u8>, b: Seq<u8>, c: Seq<u8>)
    requires
        lex_le(a, b),
        lex_le(b, c),
    ensures
        lex_le(a, c),
{
    if lex_lt(a, b) && lex_lt(b, c) {
        lemma_lex_trans(a, b, c);
    }
}

/// A strict step followed by a reflexive step is strict.
pub proof fn lemma_lex_lt_le_trans(a: Seq<u8>, b: Seq<u8>, c: Seq<u8>)
    requires
        lex_lt(a, b),
        lex_le(b, c),
    ensures
        lex_lt(a, c),
{
    if lex_lt(b, c) {
        lemma_lex_trans(a, b, c);
    }
}

/// The empty byte string comes before every other.
pub proof fn lemma_lex_empty_least(a: Seq<u8>)
    ensures
        lex_le(Seq::<u8>::empty(), a),
{
    if a.len() == 0 {
        assert(Seq::<u8>::empty() =~= a);
    }
}

} // verus!
