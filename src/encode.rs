//! The constraint encoder: each operation adds clauses to an [`Oracle`] and
//! narrows the set of truth assignments it accepts by one rule.
use vstd::prelude::*;
use crate::oracle::{
    Oracle, Edge, models_of, exactly_one, none_of, all_of, add_exactly_one, add_none_of,
    add_all_of, add_if_not,
};

verus! {

/// In `m`, participant `p` gives to exactly one participant of `0..n`.
pub open spec fn gives_once(m: Set<Edge>, p: usize, n: usize) -> bool {
    exists|x: usize|
        x < n && #[trigger] m.contains((p, x)) && forall|y: usize|
            y < n && y != x ==> !#[trigger] m.contains((p, y))
}

/// In `m`, participant `r` receives from exactly one participant of `0..n`.
pub open spec fn receives_once(m: Set<Edge>, r: usize, n: usize) -> bool {
    exists|x: usize|
        x < n && #[trigger] m.contains((x, r)) && forall|y: usize|
            y < n && y != x ==> !#[trigger] m.contains((y, r))
}

/// Every participant of `0..n` gives once and receives once.
pub open spec fn is_bijection(m: Set<Edge>, n: usize) -> bool {
    &&& forall|p: usize| p < n ==> #[trigger] gives_once(m, p, n)
    &&& forall|p: usize| p < n ==> #[trigger] receives_once(m, p, n)
}

/// Nobody in `0..n` gives to themselves.
pub open spec fn no_self(m: Set<Edge>, n: usize) -> bool {
    forall|p: usize| p < n ==> !#[trigger] m.contains((p, p))
}

/// No two participants of `0..n` give to each other.
pub open spec fn no_mutual(m: Set<Edge>, n: usize) -> bool {
    forall|p: usize, q: usize|
        p < n && q < n && p != q && #[trigger] m.contains((p, q)) ==> !#[trigger] m.contains(
            (q, p),
        )
}

/// The structural rules of a Secret Santa assignment over `0..n`.
pub open spec fn santa_rules(m: Set<Edge>, n: usize) -> bool {
    is_bijection(m, n) && no_self(m, n) && no_mutual(m, n)
}

/// Neither a listed pair nor its reverse is true in `m`.
pub open spec fn none_either_way(m: Set<Edge>, lits: Seq<Edge>) -> bool {
    forall|i: int|
        0 <= i < lits.len() ==> !m.contains(#[trigger] lits[i]) && !m.contains(
            (lits[i].1, lits[i].0),
        )
}

/// No member of the group gives to a member of the same group (themselves
/// included).
pub open spec fn group_apart(m: Set<Edge>, members: Seq<usize>) -> bool {
    forall|i: int, j: int|
        0 <= i < members.len() && 0 <= j < members.len() ==> !m.contains(
            (#[trigger] members[i], #[trigger] members[j]),
        )
}

/// The literals `(p, 0), ..., (p, n - 1)` when `giving`, else
/// `(0, p), ..., (n - 1, p)`.
pub open spec fn line_of(p: usize, n: usize, giving: bool) -> Seq<Edge> {
    Seq::new(n as nat, |x: int| if giving { (p, x as usize) } else { (x as usize, p) })
}

proof fn lemma_line_exactly_one(m: Set<Edge>, p: usize, n: usize, giving: bool)
    ensures
        exactly_one(m, line_of(p, n, giving)) <==> if giving {
            gives_once(m, p, n)
        } else {
            receives_once(m, p, n)
        },
{
    let s = line_of(p, n, giving);
    if exactly_one(m, s) {
        let i = choose|i: int|
            0 <= i < s.len() && #[trigger] m.contains(s[i]) && forall|j: int|
                0 <= j < s.len() && j != i ==> !#[trigger] m.contains(s[j]);
        let x = i as usize;
        if giving {
            assert forall|y: usize| y < n && y != x implies !#[trigger] m.contains((p, y)) by {
                assert(s[y as int] == (p, y));
            }
            assert(m.contains((p, x)) && x < n);
        } else {
            assert forall|y: usize| y < n && y != x implies !#[trigger] m.contains((y, p)) by {
                assert(s[y as int] == (y, p));
            }
            assert(m.contains((x, p)) && x < n);
        }
    }
    if giving && gives_once(m, p, n) {
        let x = choose|x: usize|
            x < n && #[trigger] m.contains((p, x)) && forall|y: usize|
                y < n && y != x ==> !#[trigger] m.contains((p, y));
        assert forall|j: int| 0 <= j < s.len() && j != x as int implies !#[trigger] m.contains(
            s[j],
        ) by {
            assert(s[j] == (p, j as usize));
        }
        assert(m.contains(s[x as int]));
    }
    if !giving && receives_once(m, p, n) {
        let x = choose|x: usize|
            x < n && #[trigger] m.contains((x, p)) && forall|y: usize|
                y < n && y != x ==> !#[trigger] m.contains((y, p));
        assert forall|j: int| 0 <= j < s.len() && j != x as int implies !#[trigger] m.contains(
            s[j],
        ) by {
            assert(s[j] == (j as usize, p));
        }
        assert(m.contains(s[x as int]));
    }
}

/// The literals of one row (`giving`) or one column of the `n` by `n` grid.
fn line(p: usize, n: usize, giving: bool) -> (r: Vec<Edge>)
    ensures
        r@ == line_of(p, n, giving),
        r@.no_duplicates(),
{
    let mut r: Vec<Edge> = Vec::new();
    let mut x: usize = 0;
    while x < n
        invariant
            x <= n,
            r@ == line_of(p, x, giving),
        decreases n - x,
    {
        if giving {
            r.push((p, x));
        } else {
            r.push((x, p));
        }
        x = x + 1;
        assert(r@ =~= line_of(p, x, giving));
    }
    assert forall|i: int, j: int| 0 <= i < r@.len() && 0 <= j < r@.len() && i != j implies r@[i]
        != r@[j] by {
        assert(r@[i] == line_of(p, n, giving)[i] && r@[j] == line_of(p, n, giving)[j]);
    }
    r
}

/// Every participant of `0..n` gives exactly once and receives exactly once.
pub fn encode_bijection(n: usize, o: &mut Oracle)
    ensures
        models_of(*final(o)) == models_of(*old(o)).filter(|m: Set<Edge>| is_bijection(m, n)),
{
    let ghost base = models_of(*o);
    let mut p: usize = 0;
    while p < n
        invariant
            p <= n,
            forall|m: Set<Edge>|
                #[trigger] models_of(*o).contains(m) <==> base.contains(m) && forall|q: usize|
                    q < p ==> #[trigger] gives_once(m, q, n),
        decreases n - p,
    {
        let row = line(p, n, true);
        let ghost before = models_of(*o);
        add_exactly_one(o, row);
        assert forall|m: Set<Edge>| #[trigger] models_of(*o).contains(m) <==> base.contains(m)
            && forall|q: usize| q < p + 1 ==> #[trigger] gives_once(m, q, n) by {
            lemma_line_exactly_one(m, p, n, true);
            assert(models_of(*o).contains(m) <==> before.contains(m) && exactly_one(
                m,
                line_of(p, n, true),
            ));
        }
        p = p + 1;
    }
    let mut r: usize = 0;
    while r < n
        invariant
            r <= n,
            forall|m: Set<Edge>|
                #[trigger] models_of(*o).contains(m) <==> base.contains(m) && (forall|q: usize|
                    q < n ==> #[trigger] gives_once(m, q, n)) && forall|q: usize|
                    q < r ==> #[trigger] receives_once(m, q, n),
        decreases n - r,
    {
        let col = line(r, n, false);
        let ghost before = models_of(*o);
        add_exactly_one(o, col);
        assert forall|m: Set<Edge>| #[trigger] models_of(*o).contains(m) <==> base.contains(m)
            && (forall|q: usize| q < n ==> #[trigger] gives_once(m, q, n)) && forall|q: usize|
            q < r + 1 ==> #[trigger] receives_once(m, q, n) by {
            lemma_line_exactly_one(m, r, n, false);
            assert(models_of(*o).contains(m) <==> before.contains(m) && exactly_one(
                m,
                line_of(r, n, false),
            ));
        }
        r = r + 1;
    }
    assert(models_of(*o) =~= base.filter(|m: Set<Edge>| is_bijection(m, n)));
}

/// Nobody in `0..n` gives to themselves.
pub fn encode_no_self(n: usize, o: &mut Oracle)
    ensures
        models_of(*final(o)) == models_of(*old(o)).filter(|m: Set<Edge>| no_self(m, n)),
{
    let ghost base = models_of(*o);
    let mut lits: Vec<Edge> = Vec::new();
    let mut p: usize = 0;
    while p < n
        invariant
            p <= n,
            lits@ == Seq::new(p as nat, |i: int| (i as usize, i as usize)),
        decreases n - p,
    {
        lits.push((p, p));
        p = p + 1;
        assert(lits@ =~= Seq::new(p as nat, |i: int| (i as usize, i as usize)));
    }
    let ghost s = lits@;
    add_none_of(o, lits);
    assert forall|m: Set<Edge>| none_of(m, s) <==> no_self(m, n) by {
        if none_of(m, s) {
            assert forall|q: usize| q < n implies !#[trigger] m.contains((q, q)) by {
                assert(s[q as int] == (q, q));
            }
        }
    }
    assert(models_of(*o) =~= base.filter(|m: Set<Edge>| no_self(m, n)));
}

/// The pairs `(a, b)` with `a < b < n` that come before `(p, j)` in the order
/// in which [`encode_no_reciprocity`] visits them are not mutual in `m`.
spec fn mutual_done(m: Set<Edge>, n: usize, p: usize, j: usize) -> bool {
    forall|a: usize, b: usize|
        a < b < n && (a < p || (a == p && b < j)) && #[trigger] m.contains((a, b))
            ==> !#[trigger] m.contains((b, a))
}

/// No two participants of `0..n` give to each other: for each `p < j`,
/// `p -> j` forbids `j -> p`.
pub fn encode_no_reciprocity(n: usize, o: &mut Oracle)
    ensures
        models_of(*final(o)) == models_of(*old(o)).filter(|m: Set<Edge>| no_mutual(m, n)),
{
    let ghost base = models_of(*o);
    let mut p: usize = 0;
    while p < n
        invariant
            p <= n,
            forall|m: Set<Edge>| #[trigger]
                models_of(*o).contains(m) <==> base.contains(m) && mutual_done(m, n, p, 0),
        decreases n - p,
    {
        let mut j: usize = p + 1;
        assert forall|m: Set<Edge>| mutual_done(m, n, p, 0) <==> mutual_done(m, n, p, j) by {
        }
        while j < n
            invariant
                p < n,
                p + 1 <= j <= n,
                forall|m: Set<Edge>| #[trigger]
                    models_of(*o).contains(m) <==> base.contains(m) && mutual_done(m, n, p, j),
            decreases n - j,
        {
            let ghost before = models_of(*o);
            add_if_not(o, (p, j), (j, p));
            assert forall|m: Set<Edge>| #[trigger] models_of(*o).contains(m) <==> base.contains(m)
                && mutual_done(m, n, p, (j + 1) as usize) by {
                assert(models_of(*o).contains(m) <==> before.contains(m) && (m.contains((p, j))
                    ==> !m.contains((j, p))));
            }
            j = j + 1;
        }
        assert forall|m: Set<Edge>| mutual_done(m, n, p, n) <==> mutual_done(
            m,
            n,
            (p + 1) as usize,
            0,
        ) by {}
        p = p + 1;
    }
    assert forall|m: Set<Edge>| mutual_done(m, n, n, 0) <==> no_mutual(m, n) by {
        if mutual_done(m, n, n, 0) {
            assert forall|a: usize, b: usize|
                a < n && b < n && a != b && #[trigger] m.contains((a, b)) implies !#[trigger] m.contains(
                (b, a),
            ) by {
                if b < a {
                    assert(!(m.contains((b, a)) && m.contains((a, b))));
                }
            }
        }
    }
    assert(models_of(*o) =~= base.filter(|m: Set<Edge>| no_mutual(m, n)));
}

/// The structural rules over `0..n`: a bijection, nobody gives to
/// themselves, and no two people give to each other.
pub fn encode_secret_santa_rules(n: usize, o: &mut Oracle)
    ensures
        models_of(*final(o)) == models_of(*old(o)).filter(|m: Set<Edge>| santa_rules(m, n)),
{
    let ghost base = models_of(*o);
    encode_bijection(n, o);
    encode_no_self(n, o);
    encode_no_reciprocity(n, o);
    assert(models_of(*o) =~= base.filter(|m: Set<Edge>| santa_rules(m, n)));
}

/// A copy of a list of literals.
fn copy_edges(v: &Vec<Edge>) -> (r: Vec<Edge>)
    ensures
        r@ == v@,
{
    let mut r: Vec<Edge> = Vec::new();
    let mut i: usize = 0;
    while i < v.len()
        invariant
            i <= v@.len(),
            r@ == v@.subrange(0, i as int),
        decreases v.len() - i,
    {
        r.push(v[i]);
        i = i + 1;
        assert(r@ =~= v@.subrange(0, i as int));
    }
    assert(r@ =~= v@);
    r
}

/// Each listed pair must hold.
pub fn include_pairs(lits: &Vec<Edge>, o: &mut Oracle)
    ensures
        models_of(*final(o)) == models_of(*old(o)).filter(|m: Set<Edge>| all_of(m, lits@)),
{
    add_all_of(o, copy_edges(lits));
}

/// No listed pair may hold.
pub fn exclude_pairs(lits: &Vec<Edge>, o: &mut Oracle)
    ensures
        models_of(*final(o)) == models_of(*old(o)).filter(|m: Set<Edge>| none_of(m, lits@)),
{
    add_none_of(o, copy_edges(lits));
}

/// Neither a listed pair nor its reverse may hold.
pub fn exclude_pairs_symmetric(lits: &Vec<Edge>, o: &mut Oracle)
    ensures
        models_of(*final(o)) == models_of(*old(o)).filter(
            |m: Set<Edge>| none_either_way(m, lits@),
        ),
{
    let ghost base = models_of(*o);
    let mut swapped: Vec<Edge> = Vec::new();
    let mut i: usize = 0;
    while i < lits.len()
        invariant
            i <= lits@.len(),
            swapped@ == Seq::new(i as nat, |k: int| (lits@[k].1, lits@[k].0)),
        decreases lits.len() - i,
    {
        let (a, b) = lits[i];
        swapped.push((b, a));
        i = i + 1;
        assert(swapped@ =~= Seq::new(i as nat, |k: int| (lits@[k].1, lits@[k].0)));
    }
    let ghost sw = swapped@;
    exclude_pairs(lits, o);
    add_none_of(o, swapped);
    assert forall|m: Set<Edge>| none_of(m, lits@) && none_of(m, sw) <==> none_either_way(
        m,
        lits@,
    ) by {
        if none_of(m, lits@) && none_of(m, sw) {
            assert forall|k: int| 0 <= k < lits@.len() implies !m.contains(#[trigger] lits@[k])
                && !m.contains((lits@[k].1, lits@[k].0)) by {
                assert(sw[k] == (lits@[k].1, lits@[k].0));
            }
        }
        if none_either_way(m, lits@) {
            assert forall|k: int| 0 <= k < sw.len() implies !#[trigger] m.contains(sw[k]) by {
                assert(sw[k] == (lits@[k].1, lits@[k].0));
                assert(!m.contains(lits@[k]));
            }
        }
    }
    assert(models_of(*o) =~= base.filter(|m: Set<Edge>| none_either_way(m, lits@)));
}

/// `e` is `(s[a], s[b])` for some positions `a <= b` of `s`.
spec fn from_group(e: Edge, s: Seq<usize>) -> bool {
    exists|a: int, b: int| 0 <= a <= b < s.len() && e == (#[trigger] s[a], #[trigger] s[b])
}

/// No member of the group may give to another member of it: every ordered
/// pair drawn from the group, self-pairs included, is forbidden.
pub fn exclude_sets(members: &Vec<usize>, o: &mut Oracle)
    ensures
        models_of(*final(o)) == models_of(*old(o)).filter(
            |m: Set<Edge>| group_apart(m, members@),
        ),
{
    let ghost base = models_of(*o);
    let ghost s = members@;
    let len = members.len();
    let mut accum: Vec<Edge> = Vec::new();
    let mut x: usize = 0;
    while x < len
        invariant
            x <= len == s.len(),
            s == members@,
            forall|k: int| 0 <= k < accum@.len() ==> from_group(#[trigger] accum@[k], s),
            forall|a: int, b: int|
                0 <= a < x && a <= b < s.len() ==> accum@.contains((#[trigger] s[a], #[trigger] s[b])),
        decreases len - x,
    {
        let mut y: usize = x;
        while y < len
            invariant
                x < len == s.len(),
                s == members@,
                x <= y <= len,
                forall|k: int| 0 <= k < accum@.len() ==> from_group(#[trigger] accum@[k], s),
                forall|a: int, b: int|
                    0 <= a < x && a <= b < s.len() ==> accum@.contains(
                        (#[trigger] s[a], #[trigger] s[b]),
                    ),
                forall|b: int| x <= b < y ==> accum@.contains((s[x as int], #[trigger] s[b])),
            decreases len - y,
        {
            let ghost prev = accum@;
            accum.push((members[x], members[y]));
            assert(accum@[prev.len() as int] == (s[x as int], s[y as int]));
            assert forall|k: int| 0 <= k < accum@.len() implies from_group(
                #[trigger] accum@[k],
                s,
            ) by {
                if k < prev.len() {
                    assert(accum@[k] == prev[k]);
                } else {
                    assert(accum@[k] == (s[x as int], s[y as int]));
                }
            }
            assert forall|a: int, b: int|
                0 <= a < x && a <= b < s.len() implies accum@.contains(
                (#[trigger] s[a], #[trigger] s[b]),
            ) by {
                assert(prev.contains((s[a], s[b])));
                let k = choose|k: int| 0 <= k < prev.len() && prev[k] == (s[a], s[b]);
                assert(accum@[k] == prev[k]);
            }
            assert forall|b: int| x <= b < y + 1 implies accum@.contains(
                (s[x as int], #[trigger] s[b]),
            ) by {
                if b < y {
                    assert(prev.contains((s[x as int], s[b])));
                    let k = choose|k: int| 0 <= k < prev.len() && prev[k] == (s[x as int], s[b]);
                    assert(accum@[k] == prev[k]);
                } else {
                    assert(accum@[prev.len() as int] == (s[x as int], s[b]));
                }
            }
            y = y + 1;
        }
        x = x + 1;
    }
    let ghost acc = accum@;
    exclude_pairs_symmetric(&accum, o);
    assert forall|m: Set<Edge>| none_either_way(m, acc) <==> group_apart(m, s) by {
        if none_either_way(m, acc) {
            assert forall|i: int, j: int|
                0 <= i < s.len() && 0 <= j < s.len() implies !m.contains(
                (#[trigger] s[i], #[trigger] s[j]),
            ) by {
                if i <= j {
                    assert(acc.contains((s[i], s[j])));
                    let k = choose|k: int| 0 <= k < acc.len() && acc[k] == (s[i], s[j]);
                    assert(!m.contains(acc[k]));
                } else {
                    assert(acc.contains((s[j], s[i])));
                    let k = choose|k: int| 0 <= k < acc.len() && acc[k] == (s[j], s[i]);
                    assert(!m.contains((acc[k].1, acc[k].0)));
                }
            }
        }
        if group_apart(m, s) {
            assert forall|k: int| 0 <= k < acc.len() implies !m.contains(#[trigger] acc[k])
                && !m.contains((acc[k].1, acc[k].0)) by {
                assert(from_group(acc[k], s));
                let (a, b) = choose|a: int, b: int|
                    0 <= a <= b < s.len() && acc[k] == (#[trigger] s[a], #[trigger] s[b]);
                assert(!m.contains((s[a], s[b])));
                assert(!m.contains((s[b], s[a])));
            }
        }
    }
    assert(models_of(*o) =~= base.filter(|m: Set<Edge>| group_apart(m, s)));
}

} // verus!
