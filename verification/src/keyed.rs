//! Keyed sequences: records carrying an integer key, sequences sorted
//! strictly by key, and lookup by key.  Both collections of the library (the
//! catalog and the cart) are such sequences; the lemmas here carry their
//! insert-or-overwrite operation.

use vstd::prelude::*;

verus! {

/// A record identified by an integer key.
pub trait Keyed {
    spec fn key(&self) -> int;
}

/// Keys strictly increase along the sequence; in particular they are unique.
pub open spec fn sorted_by_key<T: Keyed>(s: Seq<T>) -> bool {
    forall|i: int, j: int| 0 <= i < j < s.len() ==> s[i].key() < s[j].key()
}

/// The first record of `s` with key `k`, if any.
pub open spec fn find_by_key<T: Keyed>(s: Seq<T>, k: int) -> Option<T>
    decreases s.len(),
{
    if s.len() == 0 {
        None
    } else if s[0].key() == k {
        Some(s[0])
    } else {
        find_by_key(s.skip(1), k)
    }
}

/// A successful lookup hands back a record carrying the looked-up key.
pub proof fn lemma_find_key<T: Keyed>(s: Seq<T>, k: int)
    ensures
        match find_by_key(s, k) {
            Some(v) => v.key() == k,
            None => true,
        },
    decreases s.len(),
{
    if s.len() > 0 && s[0].key() != k {
        lemma_find_key(s.skip(1), k);
    }
}

/// Inserting two records under the same key, one after the other, keeps
/// only the latter; every other key is untouched by the pair of inserts.
/// The three sequences are the collection's contents before the first
/// insert, between the inserts, and after the second, each related to the
/// previous one as the insert operation promises.
pub proof fn lemma_insert_overwrite<T: Keyed>(s0: Seq<T>, s1: Seq<T>, s2: Seq<T>, r1: T, r2: T)
    requires
        r1.key() == r2.key(),
        find_by_key(s1, r1.key()) == Some(r1),
        forall|k: int| k != r1.key() ==> find_by_key(s1, k) == find_by_key(s0, k),
        find_by_key(s2, r2.key()) == Some(r2),
        forall|k: int| k != r2.key() ==> find_by_key(s2, k) == find_by_key(s1, k),
    ensures
        find_by_key(s2, r1.key()) == Some(r2),
        forall|k: int| k != r1.key() ==> find_by_key(s2, k) == find_by_key(s0, k),
{
}

/// Replacing the record at a position by one with the same key changes the
/// lookup for that key alone.
pub proof fn lemma_find_update<T: Keyed>(s: Seq<T>, i: int, x: T)
    requires
        sorted_by_key(s),
        0 <= i < s.len(),
        s[i].key() == x.key(),
    ensures
        sorted_by_key(s.update(i, x)),
        find_by_key(s.update(i, x), x.key()) == Some(x),
        forall|k: int| k != x.key() ==> find_by_key(s.update(i, x), k) == find_by_key(s, k),
    decreases s.len(),
{
    let t = s.update(i, x);
    assert(sorted_by_key(t));
    if i == 0 {
        assert(t[0] == x);
        assert(t.skip(1) =~= s.skip(1));
        assert forall|k: int| k != x.key() implies find_by_key(t, k) == find_by_key(s, k) by {
            assert(find_by_key(t, k) == find_by_key(t.skip(1), k));
            assert(find_by_key(s, k) == find_by_key(s.skip(1), k));
        }
    } else {
        assert(t[0] == s[0]);
        assert(s[0].key() < s[i].key());
        assert forall|j: int, l: int| 0 <= j < l < s.skip(1).len() implies
            #[trigger] s.skip(1)[j].key() < #[trigger] s.skip(1)[l].key() by {
            assert(s.skip(1)[j] == s[j + 1]);
            assert(s.skip(1)[l] == s[l + 1]);
        }
        assert(s.skip(1)[i - 1] == s[i]);
        lemma_find_update(s.skip(1), i - 1, x);
        assert(t.skip(1) =~= s.skip(1).update(i - 1, x));
        assert forall|k: int| k != x.key() implies find_by_key(t, k) == find_by_key(s, k) by {
            if k == s[0].key() {
                assert(find_by_key(t, k) == Some(t[0]));
                assert(find_by_key(s, k) == Some(s[0]));
            } else {
                assert(find_by_key(t, k) == find_by_key(t.skip(1), k));
                assert(find_by_key(s, k) == find_by_key(s.skip(1), k));
                assert(find_by_key(s.skip(1).update(i - 1, x), k) == find_by_key(s.skip(1), k));
            }
        }
        assert(s[0].key() < s[i].key());
        assert(find_by_key(t, x.key()) == find_by_key(t.skip(1), x.key()));
    }
}

/// Inserting a record at its sorted position keeps the sequence sorted and
/// changes the lookup for its key alone.
pub proof fn lemma_find_insert<T: Keyed>(s: Seq<T>, i: int, x: T)
    requires
        sorted_by_key(s),
        0 <= i <= s.len(),
        forall|j: int| 0 <= j < i ==> s[j].key() < x.key(),
        i < s.len() ==> s[i].key() > x.key(),
    ensures
        sorted_by_key(s.insert(i, x)),
        find_by_key(s.insert(i, x), x.key()) == Some(x),
        forall|k: int| k != x.key() ==> find_by_key(s.insert(i, x), k) == find_by_key(s, k),
    decreases s.len(),
{
    let t = s.insert(i, x);
    assert forall|j: int, l: int| 0 <= j < l < t.len() implies t[j].key() < t[l].key() by {
        if j < i && l < i {
            assert(t[j] == s[j] && t[l] == s[l]);
        } else if j < i && l == i {
            assert(t[j] == s[j] && t[l] == x);
        } else if j < i && l > i {
            assert(t[j] == s[j] && t[l] == s[l - 1]);
            if l - 1 == i {
                assert(s[l - 1].key() > x.key());
            } else {
                assert(s[i].key() > x.key());
                assert(s[i].key() <= s[l - 1].key()) by {
                    if i < l - 1 {
                        assert(s[i].key() < s[l - 1].key());
                    }
                }
            }
            assert(s[j].key() < x.key() && x.key() < s[l - 1].key() || s[j].key() < s[l - 1].key());
        } else if j == i {
            assert(t[j] == x && t[l] == s[l - 1]);
            assert(s[l - 1].key() >= s[i].key());
        } else {
            assert(t[j] == s[j - 1] && t[l] == s[l - 1]);
        }
    }
    if i == 0 {
        assert(t[0] == x);
        assert(t.skip(1) =~= s);
        assert forall|k: int| k != x.key() implies find_by_key(t, k) == find_by_key(s, k) by {
            assert(t.len() > 0);
            assert(t[0].key() == x.key());
            assert(find_by_key(t, k) == find_by_key(t.skip(1), k));
        }
    } else {
        assert(t[0] == s[0]);
        assert(s[0].key() < x.key());
        assert forall|j: int, l: int| 0 <= j < l < s.skip(1).len() implies
            #[trigger] s.skip(1)[j].key() < #[trigger] s.skip(1)[l].key() by {
            assert(s.skip(1)[j] == s[j + 1]);
            assert(s.skip(1)[l] == s[l + 1]);
        }
        assert forall|j: int| 0 <= j < i - 1 implies #[trigger] s.skip(1)[j].key() < x.key() by {
            assert(s.skip(1)[j] == s[j + 1]);
        }
        if i - 1 < s.skip(1).len() {
            assert(s.skip(1)[i - 1] == s[i]);
        }
        lemma_find_insert(s.skip(1), i - 1, x);
        assert(t.skip(1) =~= s.skip(1).insert(i - 1, x));
        assert forall|k: int| k != x.key() implies find_by_key(t, k) == find_by_key(s, k) by {
            if k == s[0].key() {
                assert(find_by_key(t, k) == Some(t[0]));
                assert(find_by_key(s, k) == Some(s[0]));
            } else {
                assert(find_by_key(t, k) == find_by_key(t.skip(1), k));
                assert(find_by_key(s, k) == find_by_key(s.skip(1), k));
                assert(find_by_key(s.skip(1).insert(i - 1, x), k) == find_by_key(s.skip(1), k));
            }
        }
        assert(find_by_key(t, x.key()) == find_by_key(t.skip(1), x.key()));
    }
}

} // verus!
