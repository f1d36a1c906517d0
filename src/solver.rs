//! The assignment solver: rules over roster indices, the diversifier that
//! collects edge-disjoint assignments from the oracle, and the random
//! selector.
use vstd::prelude::*;
use crate::oracle::{Oracle, Edge, models_of, none_of, all_of, true_lits, lits_listed_once, solve};
use crate::encode::{
    santa_rules, group_apart, is_bijection, gives_once, receives_once, no_self, no_mutual,
    encode_secret_santa_rules, exclude_sets, exclude_pairs, include_pairs,
};

verus! {

/// What the solver can report instead of an assignment.
#[derive(Debug, Clone, PartialEq, Eq)]
pub enum SantaError {
    /// A pair names a giver who is not on the roster.
    UnknownGiver(String),
    /// A pair names a receiver who is not on the roster.
    UnknownReceiver(String),
    /// A group names a member who is not on the roster.
    UnknownMember(String),
    /// No assignment meets the rules.
    Unsatisfiable,
}

/// The rules of one run, over participants `0..size` of the roster.
#[derive(Debug, Clone)]
pub struct Rules {
    /// The number of participants.
    pub size: usize,
    /// Pairs that must be in every assignment.
    pub whitelist: Vec<Edge>,
    /// Pairs that must not be in any assignment.
    pub blacklist: Vec<Edge>,
    /// Groups whose members may not give to one another.
    pub groups: Vec<Vec<usize>>,
    /// Past years' assignments, each with whether its pairs are to be
    /// avoided this year.
    pub history: Vec<(bool, Vec<Edge>)>,
}

/// Both ends of `e` are participants of `0..n`.
pub open spec fn in_roster(e: Edge, n: usize) -> bool {
    e.0 < n && e.1 < n
}

/// The literals of `m` between participants of `0..n`.
pub open spec fn restrict(m: Set<Edge>, n: usize) -> Set<Edge> {
    m.filter(|e: Edge| in_roster(e, n))
}

/// Every group keeps apart.
pub open spec fn groups_apart(m: Set<Edge>, groups: Seq<Vec<usize>>) -> bool {
    forall|g: int| 0 <= g < groups.len() ==> group_apart(m, #[trigger] groups[g]@)
}

/// No pair of a past year flagged for exclusion is repeated.
pub open spec fn history_avoided(m: Set<Edge>, history: Seq<(bool, Vec<Edge>)>) -> bool {
    forall|h: int| 0 <= h < history.len() && (#[trigger] history[h]).0 ==> none_of(m, history[h].1@)
}

/// `m` meets every rule of `r`.
pub open spec fn rules_hold(m: Set<Edge>, r: Rules) -> bool {
    &&& santa_rules(m, r.size)
    &&& groups_apart(m, r.groups@)
    &&& none_of(m, r.blacklist@)
    &&& all_of(m, r.whitelist@)
    &&& history_avoided(m, r.history@)
}

/// `a` is a valid assignment under `r`: it meets every rule and pairs only
/// participants of the roster.
pub open spec fn valid_assignment(a: Set<Edge>, r: Rules) -> bool {
    rules_hold(a, r) && forall|e: Edge| #[trigger] a.contains(e) ==> in_roster(e, r.size)
}

/// No edge belongs to two of the assignments, nor twice to one.
pub open spec fn pairwise_disjoint(pool: Seq<Vec<Edge>>) -> bool {
    &&& forall|i: int, j: int|
        0 <= i < j < pool.len() ==> (#[trigger] pool[i])@.to_set().disjoint(
            (#[trigger] pool[j])@.to_set(),
        )
    &&& forall|i: int| 0 <= i < pool.len() ==> (#[trigger] pool[i])@.no_duplicates()
}

/// `m` makes true some edge of one of the assignments.
pub open spec fn hits_one_of(m: Set<Edge>, pool: Seq<Vec<Edge>>) -> bool {
    exists|i: int, e: Edge| 0 <= i < pool.len() && #[trigger] pool[i]@.contains(e) && m.contains(e)
}

/// `a` is the roster part of one of the truth assignments in `models`.
pub open spec fn drawn_from(a: Set<Edge>, models: Set<Set<Edge>>, n: usize) -> bool {
    exists|m: Set<Edge>| #[trigger] models.contains(m) && a == restrict(m, n)
}

impl Rules {
    /// Every index in the rules names a participant.
    pub open spec fn wf(&self) -> bool {
        &&& forall|i: int|
            0 <= i < self.whitelist@.len() ==> in_roster(#[trigger] self.whitelist@[i], self.size)
        &&& forall|i: int|
            0 <= i < self.blacklist@.len() ==> in_roster(#[trigger] self.blacklist@[i], self.size)
        &&& forall|g: int, i: int|
            0 <= g < self.groups@.len() && 0 <= i < self.groups@[g]@.len() ==> #[trigger] self.groups@[g]@[i]
                < self.size
        &&& forall|h: int, i: int|
            0 <= h < self.history@.len() && 0 <= i < self.history@[h].1@.len() ==> in_roster(
                #[trigger] self.history@[h].1@[i],
                self.size,
            )
    }
}

/// Adds every rule of `rules` to the oracle.
pub fn encode_rules(rules: &Rules, o: &mut Oracle)
    ensures
        models_of(*final(o)) == models_of(*old(o)).filter(|m: Set<Edge>| rules_hold(m, *rules)),
{
    let ghost base = models_of(*o);
    encode_secret_santa_rules(rules.size, o);
    let mut g: usize = 0;
    while g < rules.groups.len()
        invariant
            g <= rules.groups@.len(),
            forall|m: Set<Edge>| #[trigger]
                models_of(*o).contains(m) <==> base.contains(m) && santa_rules(m, rules.size)
                    && groups_apart(m, rules.groups@.subrange(0, g as int)),
        decreases rules.groups.len() - g,
    {
        let ghost before = models_of(*o);
        exclude_sets(&rules.groups[g], o);
        assert forall|m: Set<Edge>| #[trigger] models_of(*o).contains(m) <==> base.contains(m)
            && santa_rules(m, rules.size) && groups_apart(
            m,
            rules.groups@.subrange(0, g + 1),
        ) by {
            let pre = rules.groups@.subrange(0, g as int);
            let post = rules.groups@.subrange(0, g + 1);
            assert(post[g as int] == rules.groups@[g as int]);
            if groups_apart(m, post) {
                assert forall|k: int| 0 <= k < pre.len() implies group_apart(
                    m,
                    #[trigger] pre[k]@,
                ) by {
                    assert(pre[k] == post[k]);
                }
            }
            if groups_apart(m, pre) && group_apart(m, rules.groups@[g as int]@) {
                assert forall|k: int| 0 <= k < post.len() implies group_apart(
                    m,
                    #[trigger] post[k]@,
                ) by {
                    if k < g {
                        assert(pre[k] == post[k]);
                    }
                }
            }
        }
        g = g + 1;
    }
    assert(rules.groups@.subrange(0, rules.groups@.len() as int) =~= rules.groups@);
    exclude_pairs(&rules.blacklist, o);
    include_pairs(&rules.whitelist, o);
    let ghost mid = models_of(*o);
    let mut h: usize = 0;
    while h < rules.history.len()
        invariant
            h <= rules.history@.len(),
            forall|m: Set<Edge>| #[trigger]
                models_of(*o).contains(m) <==> mid.contains(m) && history_avoided(
                    m,
                    rules.history@.subrange(0, h as int),
                ),
        decreases rules.history.len() - h,
    {
        let ghost before = models_of(*o);
        if rules.history[h].0 {
            exclude_pairs(&rules.history[h].1, o);
        }
        assert forall|m: Set<Edge>|
            history_avoided(m, rules.history@.subrange(0, h + 1)) <==> history_avoided(
                m,
                rules.history@.subrange(0, h as int),
            ) && (rules.history@[h as int].0 ==> none_of(m, rules.history@[h as int].1@)) by {
            let pre = rules.history@.subrange(0, h as int);
            let post = rules.history@.subrange(0, h + 1);
            assert(post[h as int] == rules.history@[h as int]);
            if history_avoided(m, post) {
                assert forall|k: int| 0 <= k < pre.len() && (#[trigger] pre[k]).0 implies none_of(
                    m,
                    pre[k].1@,
                ) by {
                    assert(pre[k] == post[k]);
                }
            }
            if history_avoided(m, pre) && (rules.history@[h as int].0 ==> none_of(
                m,
                rules.history@[h as int].1@,
            )) {
                assert forall|k: int| 0 <= k < post.len() && (#[trigger] post[k]).0 implies none_of(
                    m,
                    post[k].1@,
                ) by {
                    if k < h {
                        assert(pre[k] == post[k]);
                    }
                }
            }
        }
        h = h + 1;
    }
    assert(rules.history@.subrange(0, rules.history@.len() as int) =~= rules.history@);
    assert(models_of(*o) =~= base.filter(|m: Set<Edge>| rules_hold(m, *rules)));
}

/// `e` is marked true among the first `i` entries of a solver answer.
spec fn marked_before(answer: Seq<(Edge, bool)>, i: int, e: Edge) -> bool {
    exists|k: int| 0 <= k < i && #[trigger] answer[k] == (e, true)
}

/// The literals that a solver answer marks true, each once.
pub fn extract_pos(answer: &Vec<(Edge, bool)>) -> (r: Vec<Edge>)
    requires
        lits_listed_once(answer@),
    ensures
        r@.to_set() == true_lits(answer@),
        r@.no_duplicates(),
{
    let mut r: Vec<Edge> = Vec::new();
    let mut i: usize = 0;
    while i < answer.len()
        invariant
            i <= answer@.len(),
            lits_listed_once(answer@),
            r@.no_duplicates(),
            forall|e: Edge|
                #[trigger] r@.contains(e) <==> marked_before(answer@, i as int, e),
        decreases answer.len() - i,
    {
        let (e, v) = answer[i];
        let ghost prev = r@;
        if v {
            proof {
                if prev.contains(e) {
                    let t = choose|t: int| 0 <= t < i && #[trigger] answer@[t] == (e, true);
                    assert(answer@[t].0 == answer@[i as int].0);
                }
            }
            r.push(e);
            assert(r@ == prev.push(e));
            assert forall|a: int, b: int| 0 <= a < r@.len() && 0 <= b < r@.len() && a != b implies r@[a]
                != r@[b] by {
                if a < prev.len() && b < prev.len() {
                    assert(prev[a] != prev[b]);
                } else if a < prev.len() {
                    assert(prev.contains(r@[a]));
                } else {
                    assert(prev.contains(r@[b]));
                }
            }
        }
        assert forall|f: Edge| #[trigger]
            r@.contains(f) <==> marked_before(answer@, i + 1, f) by {
            if r@.contains(f) {
                let k = choose|k: int| 0 <= k < r@.len() && r@[k] == f;
                if k < prev.len() {
                    assert(prev[k] == f);
                    assert(prev.contains(f));
                    let t = choose|t: int| 0 <= t < i && #[trigger] answer@[t] == (f, true);
                    assert(answer@[t] == (f, true));
                } else {
                    assert(answer@[i as int] == (f, true));
                }
            }
            if marked_before(answer@, i + 1, f) {
                let t = choose|t: int| 0 <= t < i + 1 && #[trigger] answer@[t] == (f, true);
                if t < i {
                    assert(marked_before(answer@, i as int, f));
                    assert(prev.contains(f));
                    let k = choose|k: int| 0 <= k < prev.len() && prev[k] == f;
                    assert(r@[k] == f);
                } else {
                    assert(r@[prev.len() as int] == f);
                }
            }
        }
        i = i + 1;
    }
    assert forall|e: Edge| #[trigger] r@.to_set().contains(e) <==> true_lits(answer@).contains(e) by {
        if marked_before(answer@, answer@.len() as int, e) {
            let t = choose|t: int| 0 <= t < answer@.len() && #[trigger] answer@[t] == (e, true);
            assert(answer@.contains((e, true)));
        }
        if answer@.contains((e, true)) {
            let t = choose|t: int| 0 <= t < answer@.len() && answer@[t] == (e, true);
            assert(marked_before(answer@, answer@.len() as int, e));
        }
    }
    assert(r@.to_set() =~= true_lits(answer@));
    r
}

/// The edges of `a` between participants of `0..n`, in their order.
pub fn keep_in_roster(a: &Vec<Edge>, n: usize) -> (r: Vec<Edge>)
    requires
        a@.no_duplicates(),
    ensures
        r@.to_set() == restrict(a@.to_set(), n),
        r@.no_duplicates(),
{
    let mut r: Vec<Edge> = Vec::new();
    let mut i: usize = 0;
    while i < a.len()
        invariant
            i <= a@.len(),
            a@.no_duplicates(),
            r@.no_duplicates(),
            forall|e: Edge|
                #[trigger] r@.contains(e) <==> a@.subrange(0, i as int).contains(e) && in_roster(e, n),
        decreases a.len() - i,
    {
        let e = a[i];
        let ghost prev = r@;
        let ghost pre = a@.subrange(0, i as int);
        let ghost post = a@.subrange(0, i + 1);
        assert(post == pre.push(e));
        if e.0 < n && e.1 < n {
            proof {
                if prev.contains(e) {
                    let t = choose|t: int| 0 <= t < pre.len() && pre[t] == e;
                    assert(a@[t] == a@[i as int]);
                }
            }
            r.push(e);
            assert(r@ == prev.push(e));
            assert forall|x: int, y: int| 0 <= x < r@.len() && 0 <= y < r@.len() && x != y implies r@[x]
                != r@[y] by {
                if x < prev.len() && y < prev.len() {
                    assert(prev[x] != prev[y]);
                } else if x < prev.len() {
                    assert(prev.contains(r@[x]));
                } else {
                    assert(prev.contains(r@[y]));
                }
            }
        }
        assert forall|f: Edge| #[trigger] r@.contains(f) <==> post.contains(f) && in_roster(f, n) by {
            if r@.contains(f) {
                let k = choose|k: int| 0 <= k < r@.len() && r@[k] == f;
                if k < prev.len() {
                    assert(prev[k] == f);
                    assert(prev.contains(f));
                    let t = choose|t: int| 0 <= t < pre.len() && pre[t] == f;
                    assert(post[t] == f);
                } else {
                    assert(post[i as int] == f);
                }
            }
            if post.contains(f) && in_roster(f, n) {
                let t = choose|t: int| 0 <= t < post.len() && post[t] == f;
                if t < i {
                    assert(pre[t] == f);
                    assert(prev.contains(f));
                    let k = choose|k: int| 0 <= k < prev.len() && prev[k] == f;
                    assert(r@[k] == f);
                } else {
                    assert(r@[prev.len() as int] == f);
                }
            }
        }
        i = i + 1;
    }
    assert(a@.subrange(0, a@.len() as int) =~= a@);
    assert(r@.to_set() =~= restrict(a@.to_set(), n));
    r
}

/// Asks the oracle for up to `cap` assignments over `0..n`; after each one,
/// every edge of it is forbidden from coming back. Stops early when the
/// oracle finds no further model.
pub fn diversify(o: &mut Oracle, n: usize, cap: usize) -> (r: Vec<Vec<Edge>>)
    ensures
        r@.len() <= cap,
        forall|i: int|
            0 <= i < r@.len() ==> drawn_from((#[trigger] r@[i])@.to_set(), models_of(*old(o)), n),
        pairwise_disjoint(r@),
        r@.len() < cap ==> forall|m: Set<Edge>| #[trigger]
            models_of(*old(o)).contains(m) ==> hits_one_of(m, r@),
{
    let ghost base = models_of(*o);
    let mut r: Vec<Vec<Edge>> = Vec::new();
    let mut attempt: usize = 0;
    let mut exhausted = false;
    while attempt < cap && !exhausted
        invariant
            attempt <= cap,
            r@.len() <= attempt,
            !exhausted ==> r@.len() == attempt,
            forall|i: int| 0 <= i < r@.len() ==> drawn_from((#[trigger] r@[i])@.to_set(), base, n),
            pairwise_disjoint(r@),
            forall|m: Set<Edge>| #[trigger]
                models_of(*o).contains(m) <==> base.contains(m) && !hits_one_of(m, r@),
            exhausted ==> models_of(*o) =~= Set::<Set<Edge>>::empty(),
        decreases cap - attempt,
    {
        let ghost before = models_of(*o);
        match solve(o) {
            Some(answer) => {
                let ghost m = true_lits(answer@);
                assert(before.contains(m));
                let marked = extract_pos(&answer);
                let a = keep_in_roster(&marked, n);
                let ghost sa = a@;
                assert(drawn_from(a@.to_set(), base, n));
                assert forall|k: int| 0 <= k < r@.len() implies (#[trigger] r@[k])@.to_set().disjoint(
                    sa.to_set(),
                ) by {
                    assert forall|e: Edge| r@[k]@.to_set().contains(e) implies !sa.to_set().contains(
                        e,
                    ) by {
                        assert(r@[k]@.contains(e));
                        if m.contains(e) {
                            assert(hits_one_of(m, r@));
                        }
                    }
                }
                exclude_pairs(&a, o);
                let ghost prev = r@;
                r.push(a);
                assert(r@[prev.len() as int]@ == sa);
                assert forall|i: int, j: int| 0 <= i < j < r@.len() implies (
                #[trigger] r@[i])@.to_set().disjoint((#[trigger] r@[j])@.to_set()) by {
                    if j < prev.len() {
                        assert(r@[i] == prev[i] && r@[j] == prev[j]);
                    } else {
                        assert(r@[i] == prev[i]);
                    }
                }
                assert forall|i: int| 0 <= i < r@.len() implies drawn_from(
                    (#[trigger] r@[i])@.to_set(),
                    base,
                    n,
                ) by {
                    if i < prev.len() {
                        assert(r@[i] == prev[i]);
                    }
                }
                assert forall|mm: Set<Edge>| #[trigger] models_of(*o).contains(mm) <==> base.contains(
                    mm,
                ) && !hits_one_of(mm, r@) by {
                    assert(models_of(*o).contains(mm) <==> before.contains(mm) && none_of(mm, sa));
                    if hits_one_of(mm, r@) {
                        let (k, e) = choose|k: int, e: Edge|
                            0 <= k < r@.len() && #[trigger] r@[k]@.contains(e) && mm.contains(e);
                        if k < prev.len() {
                            assert(r@[k] == prev[k]);
                            assert(hits_one_of(mm, prev));
                        } else {
                            let t = choose|t: int| 0 <= t < sa.len() && sa[t] == e;
                            assert(!none_of(mm, sa));
                        }
                    }
                    if !hits_one_of(mm, r@) {
                        if hits_one_of(mm, prev) {
                            let (k, e) = choose|k: int, e: Edge|
                                0 <= k < prev.len() && #[trigger] prev[k]@.contains(e) && mm.contains(e);
                            assert(r@[k] == prev[k]);
                            assert(hits_one_of(mm, r@));
                        }
                        if !none_of(mm, sa) {
                            let t = choose|t: int| 0 <= t < sa.len() && mm.contains(sa[t]);
                            assert(r@[prev.len() as int]@.contains(sa[t]));
                            assert(hits_one_of(mm, r@));
                        }
                    }
                }
            },
            None => {
                exhausted = true;
            },
        }
        attempt = attempt + 1;
    }
    assert forall|m: Set<Edge>| r@.len() < cap && #[trigger] base.contains(m) implies hits_one_of(
        m,
        r@,
    ) by {
        assert(exhausted);
        assert(!models_of(*o).contains(m));
    }
    r
}

proof fn lemma_restrict_contains(m: Set<Edge>, n: usize, e: Edge)
    ensures
        #[trigger] restrict(m, n).contains(e) <==> m.contains(e) && in_roster(e, n),
{
}

/// The roster part of a truth assignment that meets the structural rules
/// meets them too.
proof fn lemma_restrict_santa(m: Set<Edge>, n: usize)
    requires
        santa_rules(m, n),
    ensures
        santa_rules(restrict(m, n), n),
{
    let a = restrict(m, n);
    assert forall|p: usize| p < n implies #[trigger] gives_once(a, p, n) by {
        assert(gives_once(m, p, n));
        let x = choose|x: usize|
            x < n && #[trigger] m.contains((p, x)) && forall|y: usize|
                y < n && y != x ==> !#[trigger] m.contains((p, y));
        lemma_restrict_contains(m, n, (p, x));
        assert forall|y: usize| y < n && y != x implies !#[trigger] a.contains((p, y)) by {
            lemma_restrict_contains(m, n, (p, y));
        }
    }
    assert forall|p: usize| p < n implies #[trigger] receives_once(a, p, n) by {
        assert(receives_once(m, p, n));
        let x = choose|x: usize|
            x < n && #[trigger] m.contains((x, p)) && forall|y: usize|
                y < n && y != x ==> !#[trigger] m.contains((y, p));
        lemma_restrict_contains(m, n, (x, p));
        assert forall|y: usize| y < n && y != x implies !#[trigger] a.contains((y, p)) by {
            lemma_restrict_contains(m, n, (y, p));
        }
    }
    assert forall|p: usize| p < n implies !#[trigger] a.contains((p, p)) by {
        lemma_restrict_contains(m, n, (p, p));
    }
    assert forall|p: usize, q: usize|
        p < n && q < n && p != q && #[trigger] a.contains((p, q)) implies !#[trigger] a.contains(
        (q, p),
    ) by {
        lemma_restrict_contains(m, n, (p, q));
        lemma_restrict_contains(m, n, (q, p));
    }
}

/// The roster part of a truth assignment that meets the rules is a valid
/// assignment.
proof fn lemma_restrict_valid(m: Set<Edge>, rules: Rules)
    requires
        rules.wf(),
        rules_hold(m, rules),
    ensures
        valid_assignment(restrict(m, rules.size), rules),
{
    let n = rules.size;
    let a = restrict(m, n);
    lemma_restrict_santa(m, n);
    assert forall|g: int| 0 <= g < rules.groups@.len() implies group_apart(
        a,
        #[trigger] rules.groups@[g]@,
    ) by {
        let s = rules.groups@[g]@;
        assert(group_apart(m, s));
        assert forall|i: int, j: int| 0 <= i < s.len() && 0 <= j < s.len() implies !a.contains(
            (#[trigger] s[i], #[trigger] s[j]),
        ) by {
            lemma_restrict_contains(m, n, (s[i], s[j]));
        }
    }
    assert forall|h: int| 0 <= h < rules.history@.len() && (#[trigger] rules.history@[h]).0 implies none_of(
        a,
        rules.history@[h].1@,
    ) by {
        let s = rules.history@[h].1@;
        assert(none_of(m, s));
        assert forall|i: int| 0 <= i < s.len() implies !#[trigger] a.contains(s[i]) by {
            lemma_restrict_contains(m, n, s[i]);
        }
    }
    assert forall|i: int| 0 <= i < rules.blacklist@.len() implies !#[trigger] a.contains(
        rules.blacklist@[i],
    ) by {
        lemma_restrict_contains(m, n, rules.blacklist@[i]);
    }
    assert forall|i: int| 0 <= i < rules.whitelist@.len() implies #[trigger] a.contains(
        rules.whitelist@[i],
    ) by {
        assert(in_roster(rules.whitelist@[i], n));
        lemma_restrict_contains(m, n, rules.whitelist@[i]);
    }
    assert forall|e: Edge| #[trigger] a.contains(e) implies in_roster(e, n) by {
        lemma_restrict_contains(m, n, e);
    }
}

/// Whom `p` gives to in `a`, among participants of `0..n`.
pub open spec fn recipient(a: Set<Edge>, p: usize, n: usize) -> usize {
    choose|x: usize| x < n && a.contains((p, x))
}

/// An assignment over `0..n` listed without repeats has exactly `n` edges:
/// one for each participant as giver.
pub proof fn lemma_assignment_len(a: Seq<Edge>, n: usize)
    requires
        a.no_duplicates(),
        is_bijection(a.to_set(), n),
        forall|e: Edge| #[trigger] a.to_set().contains(e) ==> in_roster(e, n),
    ensures
        a.len() == n,
{
    let s = a.to_set();
    let givers = vstd::set_lib::set_int_range(0, n as int);
    let f = |p: int| (p as usize, recipient(s, p as usize, n));
    vstd::set_lib::lemma_int_range(0, n as int);
    assert forall|p: int| #[trigger] givers.contains(p) implies s.contains(f(p)) by {
        assert(gives_once(s, p as usize, n));
    }
    assert forall|e: Edge| #[trigger] s.contains(e) implies givers.map(f).contains(e) by {
        let p = e.0 as int;
        assert(in_roster(e, n));
        assert(gives_once(s, e.0, n));
        let x = choose|x: usize|
            x < n && #[trigger] s.contains((e.0, x)) && forall|y: usize|
                y < n && y != x ==> !#[trigger] s.contains((e.0, y));
        let r = recipient(s, e.0, n);
        assert(s.contains((e.0, r)) && r < n);
        assert(r == x);
        assert(e.1 == x);
        assert(givers.contains(p) && f(p) == e);
    }
    assert(givers.map(f) =~= s);
    assert(vstd::relations::injective_on(f, givers));
    vstd::set_lib::lemma_map_size(givers, s, f);
    a.unique_seq_to_set();
}

/// Some valid assignment exists under `rules`.
pub open spec fn satisfiable(rules: Rules) -> bool {
    exists|a: Set<Edge>| valid_assignment(a, rules)
}

/// Finds up to `cap` valid, pairwise edge-disjoint assignments under
/// `rules`. Fails with [`SantaError::Unsatisfiable`] exactly when no valid
/// assignment exists.
pub fn find_assignments(rules: &Rules, cap: usize) -> (r: Result<Vec<Vec<Edge>>, SantaError>)
    requires
        rules.wf(),
        cap > 0,
    ensures
        r is Ok <==> satisfiable(*rules),
        r matches Ok(pool) ==> {
            &&& 0 < pool@.len() <= cap
            &&& forall|i: int| 0 <= i < pool@.len() ==> valid_assignment(
                (#[trigger] pool@[i])@.to_set(),
                *rules,
            )
            &&& pairwise_disjoint(pool@)
            &&& forall|i: int| 0 <= i < pool@.len() ==> (#[trigger] pool@[i])@.len() == rules.size
        },
        r matches Err(e) ==> e == SantaError::Unsatisfiable,
{
    let mut o = Oracle::new();
    let ghost fresh = models_of(o);
    encode_rules(rules, &mut o);
    let ghost encoded = models_of(o);
    let pool = diversify(&mut o, rules.size, cap);
    assert forall|i: int| 0 <= i < pool@.len() implies valid_assignment(
        (#[trigger] pool@[i])@.to_set(),
        *rules,
    ) by {
        assert(drawn_from(pool@[i]@.to_set(), encoded, rules.size));
        let m = choose|m: Set<Edge>|
            #[trigger] encoded.contains(m) && pool@[i]@.to_set() == restrict(m, rules.size);
        lemma_restrict_valid(m, *rules);
    }
    if pool.len() == 0 {
        assert forall|a: Set<Edge>| !valid_assignment(a, *rules) by {
            if valid_assignment(a, *rules) {
                assert(fresh.contains(a));
                assert(encoded.contains(a));
                assert(hits_one_of(a, pool@));
            }
        }
        Err(SantaError::Unsatisfiable)
    } else {
        assert(valid_assignment(pool@[0]@.to_set(), *rules));
        assert forall|i: int| 0 <= i < pool@.len() implies (#[trigger] pool@[i])@.len() == rules.size by {
            assert(valid_assignment(pool@[i]@.to_set(), *rules));
            assert(pool@[i]@.no_duplicates());
            lemma_assignment_len(pool@[i]@, rules.size);
        }
        Ok(pool)
    }
}

/// Relies on `rand::seq::IteratorRandom::choose` over `0..n` with the
/// thread-local generator: `None` exactly when the range is empty, else an
/// index below `n`.
#[verifier::external_body]
fn random_index(n: usize) -> (r: Option<usize>)
    ensures
        r is None <==> n == 0,
        r matches Some(i) ==> i < n,
{
    rand::seq::IteratorRandom::choose(0..n, &mut rand::thread_rng())
}

/// Takes the assignment at `index` out of the pool.
pub fn select(pool: Vec<Vec<Edge>>, index: usize) -> (r: Vec<Edge>)
    requires
        index < pool@.len(),
    ensures
        r == pool@[index as int],
{
    let mut pool = pool;
    pool.swap_remove(index)
}

/// Draws one assignment of the pool uniformly at random; `None` when the
/// pool is empty.
pub fn choose_assignment(pool: Vec<Vec<Edge>>) -> (r: Option<Vec<Edge>>)
    ensures
        r is None <==> pool@.len() == 0,
        r matches Some(a) ==> pool@.contains(a),
{
    match random_index(pool.len()) {
        Some(i) => {
            let ghost p = pool@;
            let a = select(pool, i);
            assert(p[i as int] == a);
            Some(a)
        },
        None => None,
    }
}

} // verus!
