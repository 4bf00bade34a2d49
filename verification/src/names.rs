//! The order of protocol names: lexicographic by character, as `str` orders them.

use vstd::prelude::*;

verus! {

/// `a` comes strictly before `b`: at the first position where they differ `a` has
/// the smaller character, or `a` is a proper prefix of `b`.
pub open spec fn name_less(a: Seq<char>, b: Seq<char>) -> bool
    decreases a.len(),
{
    if b.len() == 0 {
        false
    } else if a.len() == 0 {
        true
    } else if a[0] != b[0] {
        (a[0] as u32) < (b[0] as u32)
    } else {
        name_less(a.drop_first(), b.drop_first())
    }
}

/// No name comes before itself.
pub proof fn lemma_name_less_irreflexive(a: Seq<char>)
    ensures
        !name_less(a, a),
    decreases a.len(),
{
    if a.len() > 0 {
        lemma_name_less_irreflexive(a.drop_first());
    }
}

/// Two different names are ordered one way and not the other.
pub proof fn lemma_name_less_total(a: Seq<char>, b: Seq<char>)
    ensures
        a != b ==> (name_less(a, b) || name_less(b, a)),
        !(name_less(a, b) && name_less(b, a)),
    decreases a.len(),
{
    if a.len() > 0 && b.len() > 0 && a[0] == b[0] {
        lemma_name_less_total(a.drop_first(), b.drop_first());
        if a.drop_first() == b.drop_first() {
            assert(a =~= seq![a[0]] + a.drop_first());
            assert(b =~= seq![b[0]] + b.drop_first());
        }
    } else if a.len() > 0 && b.len() > 0 {
        let x = a[0];
        let y = b[0];
        assert((x as u32) != (y as u32)) by {
            vstd::utf8::char_u32_cast(x, x as u32);
            vstd::utf8::char_u32_cast(y, y as u32);
        }
    } else if a.len() == 0 && b.len() == 0 {
        assert(a =~= b);
    }
}

/// The order is transitive.
pub proof fn lemma_name_less_transitive(a: Seq<char>, b: Seq<char>, c: Seq<char>)
    requires
        name_less(a, b),
        name_less(b, c),
    ensures
        name_less(a, c),
    decreases a.len(),
{
    if a.len() > 0 && b.len() > 0 && c.len() > 0 && a[0] == b[0] && b[0] == c[0] {
        lemma_name_less_transitive(a.drop_first(), b.drop_first(), c.drop_first());
    }
}

proof fn lemma_name_less_skip(a: Seq<char>, b: Seq<char>, i: int)
    requires
        0 <= i <= a.len(),
        i <= b.len(),
        a.take(i) == b.take(i),
    ensures
        name_less(a, b) == name_less(a.skip(i), b.skip(i)),
    decreases i,
{
    if i > 0 {
        assert(a[0] == a.take(i)[0]);
        assert(b[0] == b.take(i)[0]);
        assert(a.drop_first().take(i - 1) =~= a.take(i).drop_first());
        assert(b.drop_first().take(i - 1) =~= b.take(i).drop_first());
        lemma_name_less_skip(a.drop_first(), b.drop_first(), i - 1);
        assert(a.drop_first().skip(i - 1) =~= a.skip(i));
        assert(b.drop_first().skip(i - 1) =~= b.skip(i));
    } else {
        assert(a.skip(0) =~= a);
        assert(b.skip(0) =~= b);
    }
}

/// Outcome of comparing two names.
pub enum NameOrder {
    Less,
    Equal,
    Greater,
}

/// Compares two names in the order of `name_less`.
pub fn compare_names(a: &str, b: &str) -> (order: NameOrder)
    ensures
        order is Less <==> name_less(a@, b@),
        order is Equal <==> a@ == b@,
        order is Greater <==> name_less(b@, a@),
{
    proof {
        lemma_name_less_total(a@, b@);
    }
    let la = a.unicode_len();
    let lb = b.unicode_len();
    let mut i: usize = 0;
    while i < la && i < lb
        invariant
            la == a@.len(),
            lb == b@.len(),
            0 <= i <= la,
            i <= lb,
            a@.take(i as int) == b@.take(i as int),
        decreases la - i,
    {
        let ca = a.get_char(i);
        let cb = b.get_char(i);
        if ca != cb {
            proof {
                lemma_name_less_skip(a@, b@, i as int);
                lemma_name_less_skip(b@, a@, i as int);
                assert(a@.skip(i as int)[0] == ca);
                assert(b@.skip(i as int)[0] == cb);
                if a@ == b@ {
                    assert(a@[i as int] == b@[i as int]);
                }
            }
            let xa: u32 = ca as u32;
            let xb: u32 = cb as u32;
            if xa < xb {
                return NameOrder::Less;
            } else {
                return NameOrder::Greater;
            }
        }
        assert(a@.take(i + 1) =~= a@.take(i as int).push(ca));
        assert(b@.take(i + 1) =~= b@.take(i as int).push(cb));
        i = i + 1;
    }
    proof {
        lemma_name_less_skip(a@, b@, i as int);
        lemma_name_less_skip(b@, a@, i as int);
    }
    if la == lb {
        assert(a@ =~= a@.take(i as int));
        assert(b@ =~= b@.take(i as int));
        NameOrder::Equal
    } else if la < lb {
        assert(a@.skip(i as int).len() == 0);
        NameOrder::Less
    } else {
        assert(b@.skip(i as int).len() == 0);
        NameOrder::Greater
    }
}


/// One-character names are ordered by their characters' code points.
pub proof fn lemma_name_less_single(a: char, b: char)
    ensures
        name_less(seq![a], seq![b]) <==> (a as u32) < (b as u32),
{
    assert(seq![a].drop_first() =~= Seq::<char>::empty());
    assert(seq![b].drop_first() =~= Seq::<char>::empty());
    if a == b {
        lemma_name_less_irreflexive(Seq::<char>::empty());
    }
}

/// A name comes before every longer name that it begins.
pub proof fn lemma_name_less_prefix(a: Seq<char>, b: Seq<char>)
    requires
        b.len() > 0,
    ensures
        name_less(a, a + b),
    decreases a.len(),
{
    if a.len() > 0 {
        assert((a + b).drop_first() =~= a.drop_first() + b);
        lemma_name_less_prefix(a.drop_first(), b);
    }
}

/// A common beginning does not change the order of two names.
pub proof fn lemma_name_less_common_prefix(c: Seq<char>, a: Seq<char>, b: Seq<char>)
    ensures
        name_less(c + a, c + b) == name_less(a, b),
    decreases c.len(),
{
    if c.len() > 0 {
        assert((c + a).drop_first() =~= c.drop_first() + a);
        assert((c + b).drop_first() =~= c.drop_first() + b);
        lemma_name_less_common_prefix(c.drop_first(), a, b);
    } else {
        assert(c + a =~= a);
        assert(c + b =~= b);
    }
}

} // verus!
