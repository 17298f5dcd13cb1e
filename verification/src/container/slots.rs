//! Sets of user sample slots kept in first-seen order.

use vstd::prelude::*;

verus! {

/// `v` with `x` appended unless it already holds it.
pub open spec fn push_new(v: Seq<u16>, x: u16) -> Seq<u16> {
    if v.contains(x) {
        v
    } else {
        v.push(x)
    }
}

/// Whether `v` holds `x`.
pub fn contains(v: &Vec<u16>, x: u16) -> (r: bool)
    ensures
        r == v@.contains(x),
{
    let mut i: usize = 0;
    while i < v.len()
        invariant
            i <= v@.len(),
            forall|j: int| 0 <= j < i ==> v@[j] != x,
        decreases v@.len() - i,
    {
        if v[i] == x {
            return true;
        }
        i = i + 1;
    }
    false
}

/// Append `x` unless `v` already holds it.
pub fn add_new(v: &mut Vec<u16>, x: u16)
    ensures
        final(v)@ == push_new(old(v)@, x),
{
    if !contains(v, x) {
        v.push(x);
    }
}

} // verus!

verus! {

/// Whether `v` is strictly increasing.
pub open spec fn ascending(v: Seq<u16>) -> bool {
    forall|i: int, j: int| 0 <= i < j < v.len() ==> v[i] < v[j]
}

/// Insert `x` into the strictly increasing `v`, unless it is already there.
pub fn insert_sorted(v: &mut Vec<u16>, x: u16)
    requires
        ascending(old(v)@),
    ensures
        ascending(final(v)@),
        final(v)@.to_set() == old(v)@.to_set().insert(x),
{
    let mut i: usize = 0;
    while i < v.len() && v[i] < x
        invariant
            i <= v@.len(),
            v@ == old(v)@,
            forall|j: int| 0 <= j < i ==> v@[j] < x,
        decreases v@.len() - i,
    {
        i = i + 1;
    }
    if i < v.len() && v[i] == x {
        assert(v@.to_set() =~= old(v)@.to_set().insert(x)) by {
            assert(v@.contains(x)) by {
                assert(v@[i as int] == x);
            }
        }
        return;
    }
    let ghost before = v@;
    v.insert(i, x);
    proof {
        assert forall|a: int, b: int| 0 <= a < b < v@.len() implies v@[a] < v@[b] by {
            if b < i {
            } else if b == i {
            } else if a < i {
                assert(v@[b] == before[b - 1]);
                assert(before[b - 1] >= x) by {
                    if b - 1 > i {
                        assert(before[i as int] < before[b - 1]);
                    }
                }
            } else if a == i {
                assert(v@[b] == before[b - 1]);
                if b - 1 > i {
                    assert(before[i as int] < before[b - 1]);
                }
            } else {
                assert(v@[a] == before[a - 1]);
                assert(v@[b] == before[b - 1]);
            }
        }
        assert forall|y: u16| v@.to_set().contains(y) <==> before.to_set().insert(x).contains(y) by {
            if v@.contains(y) {
                let k = choose|k: int| 0 <= k < v@.len() && v@[k] == y;
                if k < i {
                    assert(before[k] == y);
                } else if k > i {
                    assert(before[k - 1] == y);
                }
            }
            if before.contains(y) {
                let k = choose|k: int| 0 <= k < before.len() && before[k] == y;
                if k < i {
                    assert(v@[k] == y);
                } else {
                    assert(v@[k + 1] == y);
                }
            }
            if y == x {
                assert(v@[i as int] == x);
            }
        }
        assert(v@.to_set() =~= before.to_set().insert(x));
    }
}


/// Two strictly increasing lists holding the same values are the same list.
pub proof fn lemma_ascending_unique(a: Seq<u16>, b: Seq<u16>)
    requires
        ascending(a),
        ascending(b),
        a.to_set() == b.to_set(),
    ensures
        a == b,
    decreases a.len() + b.len(),
{
    if a.len() == 0 || b.len() == 0 {
        if a.len() > 0 {
            assert(a.to_set().contains(a[0]));
        }
        if b.len() > 0 {
            assert(b.to_set().contains(b[0]));
        }
        assert(a =~= b);
    } else {
        let x = a.last();
        let y = b.last();
        assert(a.to_set().contains(x));
        assert(b.to_set().contains(y));
        let j = choose|j: int| 0 <= j < b.len() && b[j] == x;
        let k = choose|k: int| 0 <= k < a.len() && a[k] == y;
        assert(x <= y) by {
            if j < b.len() - 1 {
                assert(b[j] < b[b.len() - 1]);
            }
        }
        assert(y <= x) by {
            if k < a.len() - 1 {
                assert(a[k] < a[a.len() - 1]);
            }
        }
        let da = a.drop_last();
        let db = b.drop_last();
        assert forall|i: int, l: int| 0 <= i < l < da.len() implies da[i] < da[l] by {
            assert(da[i] == a[i] && da[l] == a[l]);
        }
        assert forall|i: int, l: int| 0 <= i < l < db.len() implies db[i] < db[l] by {
            assert(db[i] == b[i] && db[l] == b[l]);
        }
        assert(da.to_set() =~= db.to_set()) by {
            assert forall|v: u16| da.to_set().contains(v) implies db.to_set().contains(v) by {
                let i = choose|i: int| 0 <= i < da.len() && da[i] == v;
                assert(a[i] < x);
                assert(a.to_set().contains(v));
                assert(b.to_set().contains(v));
                let l = choose|l: int| 0 <= l < b.len() && b[l] == v;
                assert(l != b.len() - 1);
                assert(db[l] == v);
            }
            assert forall|v: u16| db.to_set().contains(v) implies da.to_set().contains(v) by {
                let i = choose|i: int| 0 <= i < db.len() && db[i] == v;
                assert(b[i] < y);
                assert(b.to_set().contains(v));
                assert(a.to_set().contains(v));
                let l = choose|l: int| 0 <= l < a.len() && a[l] == v;
                assert(l != a.len() - 1);
                assert(da[l] == v);
            }
        }
        lemma_ascending_unique(da, db);
        assert(a =~= da.push(x));
        assert(b =~= db.push(y));
    }
}

} // verus!
