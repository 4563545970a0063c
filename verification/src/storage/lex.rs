//! The order of an ordered byte-keyed store: byte strings compared
//! lexicographically, a proper prefix sorting before its extensions.
use vstd::prelude::*;

verus! {

/// `a` sorts strictly before `b`.
pub open spec fn lex_lt(a: Seq<u8>, b: Seq<u8>) -> bool
    decreases a.len(),
{
    if b.len() == 0 {
        false
    } else if a.len() == 0 {
        true
    } else if a[0] != b[0] {
        a[0] < b[0]
    } else {
        lex_lt(a.drop_first(), b.drop_first())
    }
}

/// `a` sorts before `b` or is `b`.
pub open spec fn lex_le(a: Seq<u8>, b: Seq<u8>) -> bool {
    a == b || lex_lt(a, b)
}

pub proof fn lemma_lex_lt_irreflexive(a: Seq<u8>)
    ensures
        !lex_lt(a, a),
    decreases a.len(),
{
    if a.len() > 0 {
        lemma_lex_lt_irreflexive(a.drop_first());
    }
}

pub proof fn lemma_lex_lt_transitive(a: Seq<u8>, b: Seq<u8>, c: Seq<u8>)
    requires
        lex_lt(a, b),
        lex_lt(b, c),
    ensures
        lex_lt(a, c),
    decreases a.len(),
{
    if a.len() > 0 && a[0] == b[0] && b[0] == c[0] {
        lemma_lex_lt_transitive(a.drop_first(), b.drop_first(), c.drop_first());
    }
}

pub proof fn lemma_lex_lt_asymmetric(a: Seq<u8>, b: Seq<u8>)
    requires
        lex_lt(a, b),
    ensures
        !lex_lt(b, a),
        a != b,
{
    lemma_lex_lt_irreflexive(a);
    if lex_lt(b, a) {
        lemma_lex_lt_transitive(a, b, a);
    }
}

/// A common front does not change how two byte strings compare.
pub proof fn lemma_lex_lt_common_prefix(p: Seq<u8>, a: Seq<u8>, b: Seq<u8>)
    ensures
        lex_lt(p + a, p + b) == lex_lt(a, b),
    decreases p.len(),
{
    if p.len() == 0 {
        assert(p + a =~= a);
        assert(p + b =~= b);
    } else {
        assert((p + a).drop_first() =~= p.drop_first() + a);
        assert((p + b).drop_first() =~= p.drop_first() + b);
        lemma_lex_lt_common_prefix(p.drop_first(), a, b);
    }
}

pub proof fn lemma_lex_le_common_prefix(p: Seq<u8>, a: Seq<u8>, b: Seq<u8>)
    ensures
        lex_le(p + a, p + b) == lex_le(a, b),
{
    lemma_lex_lt_common_prefix(p, a, b);
    if p + a == p + b {
        assert(a =~= (p + a).skip(p.len() as int));
        assert(b =~= (p + b).skip(p.len() as int));
    }
}

/// Whatever lies between two byte strings with a common front has that front too.
pub proof fn lemma_between_keeps_prefix(p: Seq<u8>, a: Seq<u8>, b: Seq<u8>, x: Seq<u8>)
    requires
        lex_le(p + a, x),
        lex_le(x, p + b),
    ensures
        p.is_prefix_of(x),
    decreases p.len(),
{
    if p.len() > 0 {
        let lo = p + a;
        let hi = p + b;
        assert(lo[0] == p[0] && hi[0] == p[0]);
        assert(x.len() > 0);
        assert(x[0] == p[0]);
        assert(lo.drop_first() =~= p.drop_first() + a);
        assert(hi.drop_first() =~= p.drop_first() + b);
        lemma_between_keeps_prefix(p.drop_first(), a, b, x.drop_first());
        assert(p =~= seq![p[0]] + p.drop_first());
        assert(x =~= seq![x[0]] + x.drop_first());
    }
}

/// Between byte strings of one length, the last byte decides only where all
/// bytes before it agree.
pub proof fn lemma_lex_lt_push(s: Seq<u8>, t: Seq<u8>, a: u8, b: u8)
    requires
        s.len() == t.len(),
    ensures
        lex_lt(s.push(a), t.push(b)) == (lex_lt(s, t) || (s == t && a < b)),
    decreases s.len(),
{
    if s.len() == 0 {
        assert(s =~= t);
        assert(s.push(a).drop_first() =~= Seq::<u8>::empty());
        assert(t.push(b).drop_first() =~= Seq::<u8>::empty());
        assert(!lex_lt(Seq::<u8>::empty(), Seq::<u8>::empty()));
        assert(!lex_lt(s, t));
    } else {
        assert(s.push(a).drop_first() =~= s.drop_first().push(a));
        assert(t.push(b).drop_first() =~= t.drop_first().push(b));
        lemma_lex_lt_push(s.drop_first(), t.drop_first(), a, b);
        assert(s =~= seq![s[0]] + s.drop_first());
        assert(t =~= seq![t[0]] + t.drop_first());
    }
}

/// How one byte string stands to another in the order of the store.
#[derive(Debug, Clone, Copy, PartialEq, Eq, Structural)]
pub enum Place {
    Before,
    Same,
    After,
}

/// Where `a` stands to `b`.
pub fn place_of(a: &[u8], b: &[u8]) -> (place: Place)
    ensures
        match place {
            Place::Before => lex_lt(a@, b@),
            Place::Same => a@ == b@,
            Place::After => lex_lt(b@, a@),
        },
{
    let mut i: usize = 0;
    proof {
        assert(a@.skip(0) =~= a@);
        assert(b@.skip(0) =~= b@);
    }
    while i < a.len() && i < b.len()
        invariant
            i <= a@.len(),
            i <= b@.len(),
            a@.take(i as int) == b@.take(i as int),
            lex_lt(a@, b@) == lex_lt(a@.skip(i as int), b@.skip(i as int)),
            lex_lt(b@, a@) == lex_lt(b@.skip(i as int), a@.skip(i as int)),
        decreases a@.len() - i,
    {
        let ghost x = a@.skip(i as int);
        let ghost y = b@.skip(i as int);
        assert(x[0] == a@[i as int] && y[0] == b@[i as int]);
        if a[i] < b[i] {
            return Place::Before;
        }
        if a[i] > b[i] {
            return Place::After;
        }
        proof {
            assert(x.drop_first() =~= a@.skip(i + 1));
            assert(y.drop_first() =~= b@.skip(i + 1));
            assert(a@.take(i + 1) =~= a@.take(i as int).push(a@[i as int]));
            assert(b@.take(i + 1) =~= b@.take(i as int).push(b@[i as int]));
        }
        i = i + 1;
    }
    if i < b.len() {
        Place::Before
    } else if i < a.len() {
        Place::After
    } else {
        proof {
            assert(a@.take(i as int) =~= a@);
            assert(b@.take(i as int) =~= b@);
        }
        Place::Same
    }
}

/// Whether `bytes` begins with `prefix`.
pub fn begins_with(bytes: &[u8], prefix: &[u8]) -> (r: bool)
    ensures
        r == prefix@.is_prefix_of(bytes@),
{
    if prefix.len() > bytes.len() {
        return false;
    }
    let mut i: usize = 0;
    while i < prefix.len()
        invariant
            i <= prefix@.len() <= bytes@.len(),
            forall|j: int| 0 <= j < i ==> prefix@[j] == bytes@[j],
        decreases prefix@.len() - i,
    {
        if prefix[i] != bytes[i] {
            proof {
                if prefix@.is_prefix_of(bytes@) {
                    assert(prefix@[i as int] == bytes@.subrange(0, prefix@.len() as int)[i as int]);
                }
            }
            return false;
        }
        i = i + 1;
    }
    proof {
        assert(prefix@ =~= bytes@.subrange(0, prefix@.len() as int));
    }
    true
}

} // verus!
