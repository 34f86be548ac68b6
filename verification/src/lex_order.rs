//! Lexicographic order on integer sequences, where a proper prefix comes first.
use vstd::prelude::*;

verus! {

/// `a` comes strictly before `b`: at the first position where they differ `a`
/// is smaller, or `a` is a proper prefix of `b`.
pub open spec fn lex_lt(a: Seq<int>, b: Seq<int>) -> bool
    decreases a.len(),
{
    if a.len() == 0 {
        b.len() > 0
    } else if b.len() == 0 {
        false
    } else if a[0] < b[0] {
        true
    } else if a[0] > b[0] {
        false
    } else {
        lex_lt(a.drop_first(), b.drop_first())
    }
}

pub open spec fn lex_le(a: Seq<int>, b: Seq<int>) -> bool {
    lex_lt(a, b) || a == b
}

pub open spec fn isize_ints(s: Seq<isize>) -> Seq<int> {
    s.map_values(|x: isize| x as int)
}

pub open spec fn usize_ints(s: Seq<usize>) -> Seq<int> {
    s.map_values(|x: usize| x as int)
}

/// Comparison after a common prefix only depends on the rest.
pub proof fn lemma_lex_lt_skip(a: Seq<int>, b: Seq<int>, n: int)
    requires
        0 <= n <= a.len(),
        n <= b.len(),
        a.take(n) == b.take(n),
    ensures
        lex_lt(a, b) == lex_lt(a.skip(n), b.skip(n)),
    decreases n,
{
    if n > 0 {
        assert(a[0] == a.take(n)[0]);
        assert(b[0] == b.take(n)[0]);
        assert(a.drop_first().take(n - 1) =~= a.take(n).drop_first());
        assert(b.drop_first().take(n - 1) =~= b.take(n).drop_first());
        lemma_lex_lt_skip(a.drop_first(), b.drop_first(), n - 1);
        assert(a.drop_first().skip(n - 1) =~= a.skip(n));
        assert(b.drop_first().skip(n - 1) =~= b.skip(n));
    } else {
        assert(a.skip(0) =~= a);
        assert(b.skip(0) =~= b);
    }
}

pub proof fn lemma_lex_irreflexive(a: Seq<int>)
    ensures
        !lex_lt(a, a),
    decreases a.len(),
{
    if a.len() > 0 {
        lemma_lex_irreflexive(a.drop_first());
    }
}

pub proof fn lemma_lex_transitive(a: Seq<int>, b: Seq<int>, c: Seq<int>)
    requires
        lex_lt(a, b),
        lex_lt(b, c),
    ensures
        lex_lt(a, c),
    decreases a.len(),
{
    if a.len() > 0 && b.len() > 0 && c.len() > 0 && a[0] == b[0] && b[0] == c[0] {
        lemma_lex_transitive(a.drop_first(), b.drop_first(), c.drop_first());
    }
}

pub proof fn lemma_lex_total(a: Seq<int>, b: Seq<int>)
    ensures
        lex_lt(a, b) || lex_lt(b, a) || a == b,
    decreases a.len(),
{
    if a.len() > 0 && b.len() > 0 && a[0] == b[0] {
        lemma_lex_total(a.drop_first(), b.drop_first());
        if a.drop_first() == b.drop_first() {
            assert(a =~= seq![a[0]] + a.drop_first());
            assert(b =~= seq![b[0]] + b.drop_first());
        }
    } else if a.len() == 0 && b.len() == 0 {
        assert(a =~= b);
    }
}

pub proof fn lemma_lex_asymmetric(a: Seq<int>, b: Seq<int>)
    requires
        lex_lt(a, b),
    ensures
        !lex_lt(b, a),
        a != b,
{
    if lex_lt(b, a) {
        lemma_lex_transitive(a, b, a);
        lemma_lex_irreflexive(a);
    }
    lemma_lex_irreflexive(a);
}

pub proof fn lemma_lex_le_transitive(a: Seq<int>, b: Seq<int>, c: Seq<int>)
    requires
        lex_le(a, b),
        lex_le(b, c),
    ensures
        lex_le(a, c),
{
    if lex_lt(a, b) && lex_lt(b, c) {
        lemma_lex_transitive(a, b, c);
    }
}

/// A proper prefix comes first.
pub proof fn lemma_lex_prefix(a: Seq<int>, b: Seq<int>)
    requires
        a.len() < b.len(),
        b.take(a.len() as int) == a,
    ensures
        lex_lt(a, b),
    decreases a.len(),
{
    if a.len() > 0 {
        assert(b[0] == b.take(a.len() as int)[0]);
        assert(b.drop_first().take(a.len() - 1) =~= a.drop_first());
        lemma_lex_prefix(a.drop_first(), b.drop_first());
    }
}

/// Compares two key vectors in the order of `lex_lt`.
pub fn isize_seq_less(a: &Vec<isize>, b: &Vec<isize>) -> (r: bool)
    ensures
        r == lex_lt(isize_ints(a@), isize_ints(b@)),
{
    let ghost sa = isize_ints(a@);
    let ghost sb = isize_ints(b@);
    let mut i: usize = 0;
    while i < a.len() && i < b.len()
        invariant
            i <= a.len(),
            i <= b.len(),
            sa == isize_ints(a@),
            sb == isize_ints(b@),
            sa.take(i as int) == sb.take(i as int),
        decreases a.len() - i,
    {
        if a[i] < b[i] || a[i] > b[i] {
            proof {
                lemma_lex_lt_skip(sa, sb, i as int);
                assert(sa.skip(i as int)[0] == a[i as int] as int);
                assert(sb.skip(i as int)[0] == b[i as int] as int);
            }
            return a[i] < b[i];
        }
        assert(sa.take(i + 1) =~= sa.take(i as int).push(sa[i as int]));
        assert(sb.take(i + 1) =~= sb.take(i as int).push(sb[i as int]));
        i = i + 1;
    }
    proof {
        lemma_lex_lt_skip(sa, sb, i as int);
    }
    i < b.len()
}

/// Compares two index vectors in the order of `lex_lt`.
pub fn usize_seq_less(a: &Vec<usize>, b: &Vec<usize>) -> (r: bool)
    ensures
        r == lex_lt(usize_ints(a@), usize_ints(b@)),
{
    let ghost sa = usize_ints(a@);
    let ghost sb = usize_ints(b@);
    let mut i: usize = 0;
    while i < a.len() && i < b.len()
        invariant
            i <= a.len(),
            i <= b.len(),
            sa == usize_ints(a@),
            sb == usize_ints(b@),
            sa.take(i as int) == sb.take(i as int),
        decreases a.len() - i,
    {
        if a[i] != b[i] {
            proof {
                lemma_lex_lt_skip(sa, sb, i as int);
                assert(sa.skip(i as int)[0] == a[i as int] as int);
                assert(sb.skip(i as int)[0] == b[i as int] as int);
            }
            return a[i] < b[i];
        }
        assert(sa.take(i + 1) =~= sa.take(i as int).push(sa[i as int]));
        assert(sb.take(i + 1) =~= sb.take(i as int).push(sb[i as int]));
        i = i + 1;
    }
    proof {
        lemma_lex_lt_skip(sa, sb, i as int);
    }
    i < b.len()
}

/// Whether two index vectors are equal element by element.
pub fn usize_seq_equal(a: &Vec<usize>, b: &Vec<usize>) -> (r: bool)
    ensures
        r == (a@ == b@),
{
    if a.len() != b.len() {
        return false;
    }
    let mut i: usize = 0;
    while i < a.len()
        invariant
            a.len() == b.len(),
            i <= a.len(),
            forall|j: int| 0 <= j < i ==> a@[j] == b@[j],
        decreases a.len() - i,
    {
        if a[i] != b[i] {
            return false;
        }
        i = i + 1;
    }
    assert(a@ =~= b@);
    true
}

} // verus!
