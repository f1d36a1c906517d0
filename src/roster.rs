//! The roster and the rules as names, and their resolution to roster indices.
use vstd::prelude::*;
use vstd::multiset::Multiset;
use crate::oracle::Edge;
use crate::pair::Pair;
use crate::solver::{
    Rules, SantaError, find_assignments, valid_assignment, pairwise_disjoint, satisfiable,
    in_roster, groups_apart, history_avoided,
};

verus! {

/// A participant: a name, unique within a roster, and an address.
#[derive(Debug, Clone, PartialEq, Eq, Hash)]
pub struct Person {
    pub name: String,
    pub email: String,
}

/// One past year's assignment.
#[derive(Debug, Clone)]
pub struct Solution {
    pub year: u16,
    /// Whether this year's pairs must not come back.
    pub exclude_pairs: bool,
    pub pairs: Vec<Pair<String>>,
}

/// The roster and the rules of one run.
#[derive(Debug, Clone)]
pub struct Input {
    pub people: Vec<Person>,
    /// Pairs that must be in the assignment.
    pub whitelist: Vec<Pair<String>>,
    /// Pairs that must not be in the assignment.
    pub blacklist: Vec<Pair<String>>,
    /// Groups whose members may not give to one another.
    pub blacklist_sets: Vec<Vec<String>>,
    pub history: Vec<Solution>,
}

/// Someone on the roster is called `name`.
pub open spec fn known(people: Seq<Person>, name: Seq<char>) -> bool {
    exists|i: int| 0 <= i < people.len() && (#[trigger] people[i]).name@ == name
}

/// `i` is the first position on the roster of someone called `name`.
pub open spec fn resolves(people: Seq<Person>, name: Seq<char>, i: int) -> bool {
    &&& 0 <= i < people.len()
    &&& people[i].name@ == name
    &&& forall|j: int| 0 <= j < i ==> (#[trigger] people[j]).name@ != name
}

/// Both names of the pair are on the roster.
pub open spec fn pair_known(people: Seq<Person>, p: Pair<String>) -> bool {
    known(people, p.giver@) && known(people, p.receiver@)
}

/// Every name of every pair is on the roster.
pub open spec fn pairs_known(people: Seq<Person>, ps: Seq<Pair<String>>) -> bool {
    forall|i: int| 0 <= i < ps.len() ==> pair_known(people, #[trigger] ps[i])
}

/// `e` holds the roster positions of the pair's two names.
pub open spec fn edge_resolves(people: Seq<Person>, p: Pair<String>, e: Edge) -> bool {
    resolves(people, p.giver@, e.0 as int) && resolves(people, p.receiver@, e.1 as int)
}

/// `es` holds the roster positions of the names of `ps`, pair by pair.
pub open spec fn edges_resolve(people: Seq<Person>, ps: Seq<Pair<String>>, es: Seq<Edge>) -> bool {
    es.len() == ps.len() && forall|i: int|
        0 <= i < ps.len() ==> edge_resolves(people, #[trigger] ps[i], es[i])
}

/// Every name of the group is on the roster.
pub open spec fn group_known(people: Seq<Person>, g: Seq<String>) -> bool {
    forall|i: int| 0 <= i < g.len() ==> known(people, (#[trigger] g[i])@)
}

/// Every name of every past year is on the roster.
pub open spec fn history_known(people: Seq<Person>, history: Seq<Solution>) -> bool {
    forall|h: int| 0 <= h < history.len() ==> pairs_known(people, (#[trigger] history[h]).pairs@)
}

/// Every name that a rule uses is on the roster.
pub open spec fn names_known(input: Input) -> bool {
    let people = input.people@;
    &&& pairs_known(people, input.whitelist@)
    &&& pairs_known(people, input.blacklist@)
    &&& forall|g: int|
        0 <= g < input.blacklist_sets@.len() ==> group_known(
            people,
            (#[trigger] input.blacklist_sets@[g])@,
        )
    &&& history_known(people, input.history@)
}

/// `r` is `input`'s rules with every name replaced by its roster position.
pub open spec fn rules_of(input: Input, r: Rules) -> bool {
    let people = input.people@;
    &&& r.size == people.len()
    &&& edges_resolve(people, input.whitelist@, r.whitelist@)
    &&& edges_resolve(people, input.blacklist@, r.blacklist@)
    &&& r.groups@.len() == input.blacklist_sets@.len()
    &&& forall|g: int|
        0 <= g < r.groups@.len() ==> (#[trigger] r.groups@[g])@.len()
            == input.blacklist_sets@[g]@.len()
    &&& forall|g: int, i: int|
        0 <= g < r.groups@.len() && 0 <= i < r.groups@[g]@.len() ==> resolves(
            people,
            input.blacklist_sets@[g]@[i]@,
            #[trigger] r.groups@[g]@[i] as int,
        )
    &&& r.history@.len() == input.history@.len()
    &&& forall|h: int|
        0 <= h < r.history@.len() ==> (#[trigger] r.history@[h]).0
            == input.history@[h].exclude_pairs && edges_resolve(
            people,
            input.history@[h].pairs@,
            r.history@[h].1@,
        )
}

/// Each past year comes no later than the one before it.
pub open spec fn latest_first(history: Seq<Solution>) -> bool {
    forall|i: int, j: int|
        0 <= i < j < history.len() ==> (#[trigger] history[i]).year >= (#[trigger] history[j]).year
}

/// Whether a past year's assignment is from year `y`.
pub open spec fn year_is(y: u16) -> spec_fn(Solution) -> bool {
    |s: Solution| s.year == y
}

/// The entries of one year, in their order.
pub open spec fn of_year(history: Seq<Solution>, y: u16) -> Seq<Solution> {
    history.filter(year_is(y))
}

proof fn lemma_empty_of_year(y: u16)
    ensures
        of_year(Seq::<Solution>::empty(), y) == Seq::<Solution>::empty(),
{
    Seq::<Solution>::empty().lemma_filter_len(year_is(y));
    assert(of_year(Seq::<Solution>::empty(), y) =~= Seq::<Solution>::empty());
}

/// Inserting `s` after every entry of a later year puts it first among the
/// entries of its own year.
proof fn lemma_insert_of_year(prev: Seq<Solution>, k: int, s: Solution, y: u16)
    requires
        0 <= k <= prev.len(),
        forall|i: int| 0 <= i < k ==> (#[trigger] prev[i]).year > s.year,
    ensures
        of_year(prev.insert(k, s), y) == if s.year == y {
            seq![s] + of_year(prev, y)
        } else {
            of_year(prev, y)
        },
{
    let p = year_is(y);
    let a = prev.subrange(0, k);
    let b = prev.subrange(k, prev.len() as int);
    assert(prev =~= a + b);
    assert(prev.insert(k, s) =~= (a + seq![s]) + b);
    assert(seq![s] =~= Seq::<Solution>::empty().push(s));
    Seq::filter_distributes_over_add(a, b, p);
    Seq::filter_distributes_over_add(a + seq![s], b, p);
    Seq::filter_distributes_over_add(a, seq![s], p);
    Seq::<Solution>::empty().lemma_filter_push(s, p);
    lemma_empty_of_year(y);
    if s.year == y {
        assert(a.all(|x: Solution| !p(x)));
        a.lemma_all_neg_filter_empty(p);
        assert(a.filter(p) =~= Seq::<Solution>::empty());
        assert(of_year(prev.insert(k, s), y) =~= seq![s] + of_year(prev, y));
    } else {
        assert(of_year(prev.insert(k, s), y) =~= of_year(prev, y));
    }
}

/// `e` reports the first name of the pair missing from the roster, the
/// giver before the receiver.
pub open spec fn pair_error(people: Seq<Person>, p: Pair<String>, e: SantaError) -> bool {
    if !known(people, p.giver@) {
        e matches SantaError::UnknownGiver(n) && n@ == p.giver@
    } else {
        !known(people, p.receiver@) && (e matches SantaError::UnknownReceiver(n) && n@
            == p.receiver@)
    }
}

/// `e` reports the first missing name of the first pair of `ps` that has one.
pub open spec fn pairs_error(people: Seq<Person>, ps: Seq<Pair<String>>, e: SantaError) -> bool {
    exists|i: int|
        0 <= i < ps.len() && (forall|j: int| 0 <= j < i ==> pair_known(people, #[trigger] ps[j]))
            && pair_error(people, #[trigger] ps[i], e)
}

/// `e` reports the first member of the group missing from the roster.
pub open spec fn group_error(people: Seq<Person>, g: Seq<String>, e: SantaError) -> bool {
    exists|i: int|
        0 <= i < g.len() && (forall|j: int| 0 <= j < i ==> known(people, (#[trigger] g[j])@))
            && !known(people, (#[trigger] g[i])@) && (e matches SantaError::UnknownMember(n) && n@
            == g[i]@)
}

/// `e` reports the first name of the rules missing from the roster, looking
/// through the whitelist, the blacklist, the groups and the history in turn.
pub open spec fn rules_error(input: Input, e: SantaError) -> bool {
    let people = input.people@;
    let sets = input.blacklist_sets@;
    let history = input.history@;
    ||| pairs_error(people, input.whitelist@, e)
    ||| pairs_known(people, input.whitelist@) && pairs_error(people, input.blacklist@, e)
    ||| pairs_known(people, input.whitelist@) && pairs_known(people, input.blacklist@) && exists|
        g: int,
    |
        0 <= g < sets.len() && (forall|k: int| 0 <= k < g ==> group_known(people, (#[trigger] sets[k])@))
            && group_error(people, (#[trigger] sets[g])@, e)
    ||| pairs_known(people, input.whitelist@) && pairs_known(people, input.blacklist@) && (forall|
        k: int,
    | 0 <= k < sets.len() ==> group_known(people, (#[trigger] sets[k])@)) && exists|h: int|
        0 <= h < history.len() && (forall|k: int|
            0 <= k < h ==> pairs_known(people, (#[trigger] history[k]).pairs@)) && pairs_error(
            people,
            (#[trigger] history[h]).pairs@,
            e,
        )
}

/// The first roster position of someone called `name`, if any.
pub fn find_person(people: &Vec<Person>, name: &String) -> (r: Option<usize>)
    ensures
        r is None <==> !known(people@, name@),
        r matches Some(i) ==> resolves(people@, name@, i as int),
{
    let mut i: usize = 0;
    while i < people.len()
        invariant
            i <= people@.len(),
            forall|j: int| 0 <= j < i ==> (#[trigger] people@[j]).name@ != name@,
        decreases people.len() - i,
    {
        if people[i].name == *name {
            return Some(i);
        }
        i = i + 1;
    }
    None
}

/// The first roster position of someone called `name`, who is on the roster.
pub fn position_of(people: &Vec<Person>, name: &String) -> (r: usize)
    requires
        known(people@, name@),
    ensures
        resolves(people@, name@, r as int),
{
    let mut i: usize = 0;
    while i < people.len() && people[i].name != *name
        invariant
            i <= people@.len(),
            known(people@, name@),
            forall|j: int| 0 <= j < i ==> (#[trigger] people@[j]).name@ != name@,
        decreases people.len() - i,
    {
        i = i + 1;
    }
    if i == people.len() {
        let ghost k = choose|k: int| 0 <= k < people@.len() && (#[trigger] people@[k]).name@ == name@;
        assert(people@[k].name@ != name@);
    }
    i
}

/// The roster positions of both names of the pair.
pub fn resolve_pair(people: &Vec<Person>, p: &Pair<String>) -> (r: Result<Edge, SantaError>)
    ensures
        r is Ok <==> pair_known(people@, *p),
        r matches Ok(e) ==> edge_resolves(people@, *p, e),
        r matches Err(e) ==> pair_error(people@, *p, e),
{
    match find_person(people, &p.giver) {
        None => Err(SantaError::UnknownGiver(p.giver.clone())),
        Some(g) => match find_person(people, &p.receiver) {
            None => Err(SantaError::UnknownReceiver(p.receiver.clone())),
            Some(r) => Ok((g, r)),
        },
    }
}

/// The roster positions of the names of each pair, in order.
pub fn resolve_pairs(people: &Vec<Person>, ps: &Vec<Pair<String>>) -> (r: Result<
    Vec<Edge>,
    SantaError,
>)
    ensures
        r is Ok <==> pairs_known(people@, ps@),
        r matches Ok(es) ==> edges_resolve(people@, ps@, es@),
        r matches Err(e) ==> pairs_error(people@, ps@, e),
{
    let mut es: Vec<Edge> = Vec::new();
    let mut i: usize = 0;
    while i < ps.len()
        invariant
            i <= ps@.len(),
            edges_resolve(people@, ps@.subrange(0, i as int), es@),
            forall|j: int| 0 <= j < i ==> pair_known(people@, #[trigger] ps@[j]),
        decreases ps.len() - i,
    {
        match resolve_pair(people, &ps[i]) {
            Ok(e) => {
                es.push(e);
                i = i + 1;
                assert forall|j: int| 0 <= j < i implies edge_resolves(
                    people@,
                    #[trigger] ps@.subrange(0, i as int)[j],
                    es@[j],
                ) by {
                    assert(ps@.subrange(0, i as int)[j] == ps@[j]);
                    if j < i - 1 {
                        assert(ps@.subrange(0, i - 1)[j] == ps@[j]);
                    }
                }
            },
            Err(e) => {
                assert(pair_error(people@, ps@[i as int], e));
                return Err(e);
            },
        }
    }
    assert(ps@.subrange(0, ps@.len() as int) =~= ps@);
    Ok(es)
}

/// The roster positions of the names of a group, in order.
pub fn resolve_group(people: &Vec<Person>, g: &Vec<String>) -> (r: Result<Vec<usize>, SantaError>)
    ensures
        r is Ok <==> group_known(people@, g@),
        r matches Ok(v) ==> v@.len() == g@.len() && forall|i: int|
            0 <= i < g@.len() ==> resolves(people@, g@[i]@, #[trigger] v@[i] as int),
        r matches Err(e) ==> group_error(people@, g@, e),
{
    let mut v: Vec<usize> = Vec::new();
    let mut i: usize = 0;
    while i < g.len()
        invariant
            i <= g@.len(),
            v@.len() == i,
            forall|j: int| 0 <= j < i ==> resolves(people@, g@[j]@, #[trigger] v@[j] as int),
            forall|j: int| 0 <= j < i ==> known(people@, (#[trigger] g@[j])@),
        decreases g.len() - i,
    {
        match find_person(people, &g[i]) {
            Some(k) => {
                v.push(k);
                i = i + 1;
            },
            None => {
                let e = SantaError::UnknownMember(g[i].clone());
                assert(!known(people@, g@[i as int]@));
                return Err(e);
            },
        }
    }
    Ok(v)
}

proof fn lemma_resolves_unique(people: Seq<Person>, name: Seq<char>, i: int, j: int)
    requires
        resolves(people, name, i),
        resolves(people, name, j),
    ensures
        i == j,
{
    if i < j {
        assert(people[i].name@ == name);
    }
    if j < i {
        assert(people[j].name@ == name);
    }
}

proof fn lemma_edges_unique(people: Seq<Person>, ps: Seq<Pair<String>>, e1: Seq<Edge>, e2: Seq<Edge>)
    requires
        edges_resolve(people, ps, e1),
        edges_resolve(people, ps, e2),
    ensures
        e1 == e2,
{
    assert forall|i: int| 0 <= i < e1.len() implies e1[i] == e2[i] by {
        assert(edge_resolves(people, ps[i], e1[i]) && edge_resolves(people, ps[i], e2[i]));
        lemma_resolves_unique(people, ps[i].giver@, e1[i].0 as int, e2[i].0 as int);
        lemma_resolves_unique(people, ps[i].receiver@, e1[i].1 as int, e2[i].1 as int);
    }
    assert(e1 =~= e2);
}

/// The rules of a record are the same whichever resolution produced them:
/// they admit the same assignments.
proof fn lemma_rules_of_unique(input: Input, r1: Rules, r2: Rules, a: Set<Edge>)
    requires
        rules_of(input, r1),
        rules_of(input, r2),
        valid_assignment(a, r2),
    ensures
        valid_assignment(a, r1),
{
    let people = input.people@;
    lemma_edges_unique(people, input.whitelist@, r1.whitelist@, r2.whitelist@);
    lemma_edges_unique(people, input.blacklist@, r1.blacklist@, r2.blacklist@);
    assert forall|g: int| 0 <= g < r1.groups@.len() implies (#[trigger] r1.groups@[g])@ == r2.groups@[g]@ by {
        assert forall|i: int| 0 <= i < r1.groups@[g]@.len() implies r1.groups@[g]@[i]
            == r2.groups@[g]@[i] by {
            assert(resolves(people, input.blacklist_sets@[g]@[i]@, r1.groups@[g]@[i] as int));
            assert(resolves(people, input.blacklist_sets@[g]@[i]@, r2.groups@[g]@[i] as int));
            lemma_resolves_unique(
                people,
                input.blacklist_sets@[g]@[i]@,
                r1.groups@[g]@[i] as int,
                r2.groups@[g]@[i] as int,
            );
        }
        assert(r1.groups@[g]@ =~= r2.groups@[g]@);
    }
    assert forall|h: int| 0 <= h < r1.history@.len() implies (#[trigger] r1.history@[h]).0
        == r2.history@[h].0 && r1.history@[h].1@ == r2.history@[h].1@ by {
        assert(edges_resolve(people, input.history@[h].pairs@, r1.history@[h].1@));
        assert(edges_resolve(people, input.history@[h].pairs@, r2.history@[h].1@));
        lemma_edges_unique(people, input.history@[h].pairs@, r1.history@[h].1@, r2.history@[h].1@);
    }
    assert(groups_apart(a, r1.groups@)) by {
        assert forall|g: int| 0 <= g < r1.groups@.len() implies crate::encode::group_apart(
            a,
            #[trigger] r1.groups@[g]@,
        ) by {
            assert(crate::encode::group_apart(a, r2.groups@[g]@));
        }
    }
    assert(history_avoided(a, r1.history@)) by {
        assert forall|h: int| 0 <= h < r1.history@.len() && (#[trigger] r1.history@[h]).0 implies crate::oracle::none_of(
            a,
            r1.history@[h].1@,
        ) by {
            assert(r2.history@[h].0);
        }
    }
}

/// A record whose names once resolved to rules passes validation again:
/// resolving depends on the record alone, and every name it resolved is on
/// the roster.
pub proof fn revalidation_succeeds(input: Input, rules: Rules)
    requires
        rules_of(input, rules),
    ensures
        names_known(input),
{
    let people = input.people@;
    assert forall|ps: Seq<Pair<String>>, es: Seq<Edge>| edges_resolve(people, ps, es) implies pairs_known(
        people,
        ps,
    ) by {
        assert forall|i: int| 0 <= i < ps.len() implies pair_known(people, #[trigger] ps[i]) by {
            assert(edge_resolves(people, ps[i], es[i]));
            assert(people[es[i].0 as int].name@ == ps[i].giver@);
            assert(people[es[i].1 as int].name@ == ps[i].receiver@);
        }
    }
    assert(edges_resolve(people, input.whitelist@, rules.whitelist@));
    assert(edges_resolve(people, input.blacklist@, rules.blacklist@));
    assert forall|g: int| 0 <= g < input.blacklist_sets@.len() implies group_known(
        people,
        (#[trigger] input.blacklist_sets@[g])@,
    ) by {
        assert forall|i: int| 0 <= i < input.blacklist_sets@[g]@.len() implies known(
            people,
            (#[trigger] input.blacklist_sets@[g]@[i])@,
        ) by {
            assert(resolves(people, input.blacklist_sets@[g]@[i]@, rules.groups@[g]@[i] as int));
            assert(people[rules.groups@[g]@[i] as int].name@ == input.blacklist_sets@[g]@[i]@);
        }
    }
    assert forall|h: int| 0 <= h < input.history@.len() implies pairs_known(
        people,
        (#[trigger] input.history@[h]).pairs@,
    ) by {
        assert(edges_resolve(people, input.history@[h].pairs@, rules.history@[h].1@));
    }
}

impl Input {
    /// Checks that every name the rules use is on the roster: those of the
    /// whitelist, the blacklist, the groups and the history. Reports the
    /// first one that is not, as [`Input::rules`] does.
    pub fn check_history(&self) -> (r: Result<(), SantaError>)
        ensures
            r is Ok <==> names_known(*self),
            r matches Err(e) ==> rules_error(*self, e),
    {
        match self.rules() {
            Ok(_) => Ok(()),
            Err(e) => Err(e),
        }
    }

    /// The rules with every name replaced by its roster position; fails on
    /// the first name that is not on the roster.
    pub fn rules(&self) -> (r: Result<Rules, SantaError>)
        ensures
            r is Ok <==> names_known(*self),
            r matches Ok(rules) ==> rules_of(*self, rules) && rules.wf(),
            r matches Err(e) ==> rules_error(*self, e),
    {
        let people = &self.people;
        let whitelist = match resolve_pairs(people, &self.whitelist) {
            Ok(v) => v,
            Err(e) => {
                return Err(e);
            },
        };
        let blacklist = match resolve_pairs(people, &self.blacklist) {
            Ok(v) => v,
            Err(e) => {
                return Err(e);
            },
        };
        let mut groups: Vec<Vec<usize>> = Vec::new();
        let mut g: usize = 0;
        while g < self.blacklist_sets.len()
            invariant
                g <= self.blacklist_sets@.len(),
                groups@.len() == g,
                people == &self.people,
                pairs_known(people@, self.whitelist@),
                pairs_known(people@, self.blacklist@),
                forall|k: int|
                    0 <= k < g ==> group_known(people@, (#[trigger] self.blacklist_sets@[k])@),
                forall|k: int|
                    0 <= k < g ==> (#[trigger] groups@[k])@.len() == self.blacklist_sets@[k]@.len(),
                forall|k: int, i: int|
                    0 <= k < g && 0 <= i < groups@[k]@.len() ==> resolves(
                        people@,
                        self.blacklist_sets@[k]@[i]@,
                        #[trigger] groups@[k]@[i] as int,
                    ),
            decreases self.blacklist_sets.len() - g,
        {
            match resolve_group(people, &self.blacklist_sets[g]) {
                Ok(v) => {
                    groups.push(v);
                },
                Err(e) => {
                    return Err(e);
                },
            }
            g = g + 1;
        }
        let mut history: Vec<(bool, Vec<Edge>)> = Vec::new();
        let mut h: usize = 0;
        while h < self.history.len()
            invariant
                h <= self.history@.len(),
                history@.len() == h,
                people == &self.people,
                pairs_known(people@, self.whitelist@),
                pairs_known(people@, self.blacklist@),
                forall|k: int|
                    0 <= k < self.blacklist_sets@.len() ==> group_known(
                        people@,
                        (#[trigger] self.blacklist_sets@[k])@,
                    ),
                forall|k: int|
                    0 <= k < h ==> pairs_known(people@, (#[trigger] self.history@[k]).pairs@),
                forall|k: int|
                    0 <= k < h ==> (#[trigger] history@[k]).0 == self.history@[k].exclude_pairs
                        && edges_resolve(people@, self.history@[k].pairs@, history@[k].1@),
            decreases self.history.len() - h,
        {
            match resolve_pairs(people, &self.history[h].pairs) {
                Ok(v) => {
                    history.push((self.history[h].exclude_pairs, v));
                },
                Err(e) => {
                    return Err(e);
                },
            }
            h = h + 1;
        }
        let rules = Rules { size: people.len(), whitelist, blacklist, groups, history };
        assert(rules.wf()) by {
            assert forall|i: int| 0 <= i < rules.whitelist@.len() implies crate::solver::in_roster(
                #[trigger] rules.whitelist@[i],
                rules.size,
            ) by {
                assert(edge_resolves(people@, self.whitelist@[i], rules.whitelist@[i]));
            }
            assert forall|i: int| 0 <= i < rules.blacklist@.len() implies crate::solver::in_roster(
                #[trigger] rules.blacklist@[i],
                rules.size,
            ) by {
                assert(edge_resolves(people@, self.blacklist@[i], rules.blacklist@[i]));
            }
            assert forall|k: int, i: int|
                0 <= k < rules.history@.len() && 0 <= i < rules.history@[k].1@.len() implies crate::solver::in_roster(
                #[trigger] rules.history@[k].1@[i],
                rules.size,
            ) by {
                assert(edges_resolve(people@, self.history@[k].pairs@, rules.history@[k].1@));
                assert(edge_resolves(people@, self.history@[k].pairs@[i], rules.history@[k].1@[i]));
            }
        }
        Ok(rules)
    }

    /// Orders the history by year, latest first; entries of the same year
    /// keep their order.
    pub fn sort_history(&mut self)
        ensures
            forall|y: u16| #[trigger] of_year(final(self).history@, y) == of_year(old(self).history@, y),
            final(self).people == old(self).people,
            final(self).whitelist == old(self).whitelist,
            final(self).blacklist == old(self).blacklist,
            final(self).blacklist_sets == old(self).blacklist_sets,
            final(self).history@.to_multiset() == old(self).history@.to_multiset(),
            latest_first(final(self).history@),
    {
        broadcast use vstd::seq_lib::group_to_multiset_ensures;

        let mut rest: Vec<Solution> = Vec::new();
        std::mem::swap(&mut self.history, &mut rest);
        let ghost all = rest@.to_multiset();
        let ghost original = rest@;
        let mut sorted: Vec<Solution> = Vec::new();
        proof {
            assert forall|y: u16| #[trigger] of_year(rest@, y) + of_year(sorted@, y) == of_year(
                original,
                y,
            ) by {
                lemma_empty_of_year(y);
                assert(sorted@ =~= Seq::<Solution>::empty());
                assert(of_year(rest@, y) + Seq::<Solution>::empty() =~= of_year(rest@, y));
            }
        }
        while rest.len() > 0
            invariant
                sorted@.to_multiset().add(rest@.to_multiset()) == all,
                forall|y: u16| #[trigger] of_year(rest@, y) + of_year(sorted@, y) == of_year(original, y),
                latest_first(sorted@),
            decreases rest.len(),
        {
            let ghost before = rest@;
            let s = rest.pop().unwrap();
            assert(before == rest@.push(s));
            let mut k: usize = 0;
            while k < sorted.len() && sorted[k].year > s.year
                invariant
                    k <= sorted@.len(),
                    before == rest@.push(s),
                    forall|i: int| 0 <= i < k ==> (#[trigger] sorted@[i]).year > s.year,
                decreases sorted.len() - k,
            {
                k = k + 1;
            }
            let ghost prev = sorted@;
            sorted.insert(k, s);
            assert forall|y: u16| #[trigger] of_year(rest@, y) + of_year(sorted@, y) == of_year(
                original,
                y,
            ) by {
                lemma_insert_of_year(prev, k as int, s, y);
                rest@.lemma_filter_push(s, year_is(y));
                assert(of_year(before, y) + of_year(prev, y) == of_year(original, y));
                assert(of_year(rest@, y) + of_year(sorted@, y) =~= of_year(before, y) + of_year(
                    prev,
                    y,
                ));
            }
            assert(sorted@ == prev.insert(k as int, s));
            proof {
                vstd::seq_lib::to_multiset_insert(prev, k as int, s);
                vstd::seq_lib::to_multiset_build(rest@, s);
            }
            assert(sorted@.to_multiset().add(rest@.to_multiset()) =~= all);
            assert forall|i: int, j: int| 0 <= i < j < sorted@.len() implies (
            #[trigger] sorted@[i]).year >= (#[trigger] sorted@[j]).year by {
                if j < k {
                    assert(sorted@[i] == prev[i] && sorted@[j] == prev[j]);
                } else if j == k {
                    assert(sorted@[i] == prev[i]);
                } else if i < k {
                    assert(sorted@[i] == prev[i] && sorted@[j] == prev[j - 1]);
                } else if i == k {
                    assert(sorted@[j] == prev[j - 1]);
                    assert(prev[k as int].year <= s.year);
                } else {
                    assert(sorted@[i] == prev[i - 1] && sorted@[j] == prev[j - 1]);
                }
            }
        }
        assert(rest@.len() == 0);
        assert(rest@.to_multiset() =~= Multiset::empty());
        assert(sorted@.to_multiset() =~= all);
        assert forall|y: u16| #[trigger] of_year(sorted@, y) == of_year(original, y) by {
            lemma_empty_of_year(y);
            assert(rest@ =~= Seq::<Solution>::empty());
            assert(Seq::<Solution>::empty() + of_year(sorted@, y) =~= of_year(sorted@, y));
        }
        self.history = sorted;
    }

    /// Up to `cap` valid, pairwise edge-disjoint assignments over roster
    /// positions. Fails on the first name that is not on the roster, and
    /// with [`SantaError::Unsatisfiable`] exactly when the rules admit no
    /// assignment.
    pub fn assignments(&self, cap: usize) -> (r: Result<Vec<Vec<Edge>>, SantaError>)
        requires
            cap > 0,
        ensures
            names_known(*self) <==> !(r matches Err(e) && !(e is Unsatisfiable)),
            r matches Err(e) ==> (e is Unsatisfiable || rules_error(*self, e)),
            r matches Err(SantaError::Unsatisfiable) ==> forall|rules: Rules|
                #[trigger] rules_of(*self, rules) ==> !satisfiable(rules),
            r matches Ok(pool) ==> forall|i: int|
                0 <= i < pool@.len() ==> (#[trigger] pool@[i])@.len() == self.people@.len(),
            r matches Ok(pool) ==> 0 < pool@.len() <= cap && pairwise_disjoint(pool@)
                && exists|rules: Rules|
                #![trigger rules_of(*self, rules)]
                rules_of(*self, rules) && forall|i: int|
                    0 <= i < pool@.len() ==> valid_assignment((#[trigger] pool@[i])@.to_set(), rules),
    {
        let rules = match self.rules() {
            Ok(rules) => rules,
            Err(e) => {
                return Err(e);
            },
        };
        let r = find_assignments(&rules, cap);
        assert forall|other: Rules| #[trigger] rules_of(*self, other) && satisfiable(other) implies satisfiable(
            rules,
        ) by {
            let a = choose|a: Set<Edge>| valid_assignment(a, other);
            lemma_rules_of_unique(*self, rules, other, a);
        }
        r
    }
}

/// The assignment with roster positions replaced by names.
pub fn name_pairs(a: &Vec<Edge>, people: &Vec<Person>) -> (r: Vec<Pair<String>>)
    requires
        forall|i: int| 0 <= i < a@.len() ==> crate::solver::in_roster(#[trigger] a@[i], people@.len() as usize),
    ensures
        r@.len() == a@.len(),
        forall|i: int|
            0 <= i < a@.len() ==> (#[trigger] r@[i]).giver@ == people@[a@[i].0 as int].name@
                && r@[i].receiver@ == people@[a@[i].1 as int].name@,
{
    let mut r: Vec<Pair<String>> = Vec::new();
    let mut i: usize = 0;
    while i < a.len()
        invariant
            i <= a@.len(),
            r@.len() == i,
            forall|k: int| 0 <= k < a@.len() ==> crate::solver::in_roster(#[trigger] a@[k], people@.len() as usize),
            forall|k: int|
                0 <= k < i ==> (#[trigger] r@[k]).giver@ == people@[a@[k].0 as int].name@
                    && r@[k].receiver@ == people@[a@[k].1 as int].name@,
        decreases a.len() - i,
    {
        let (g, v) = a[i];
        assert(crate::solver::in_roster(a@[i as int], people@.len() as usize));
        r.push(Pair::new(people[g].name.clone(), people[v].name.clone()));
        i = i + 1;
    }
    r
}

} // verus!
