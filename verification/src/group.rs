//! Grouping cities under a key (their country, their state) and ranking
//! each group, most populous first.
use crate::city::{country_name_of, City};
use crate::select::{get_population, in_country, is_first_largest};
use vstd::prelude::*;

verus! {

broadcast use vstd::seq_lib::lemma_seq_contains_after_push;

/// The cities that share one key, by their positions in the data set.
pub struct CityGroup {
    pub key: String,
    pub cities: Vec<usize>,
}

/// A key as text.
pub open spec fn key_view(key: Option<String>) -> Option<Seq<char>> {
    match key {
        Some(s) => Some(s@),
        None => None,
    }
}

/// The key of each position, as text.
pub open spec fn key_views(keys: Seq<Option<String>>) -> Seq<Option<Seq<char>>> {
    keys.map_values(|o: Option<String>| key_view(o))
}

/// `i` is the first position whose key is `k`.
pub open spec fn is_first_occurrence(keys: Seq<Option<Seq<char>>>, k: Seq<char>, i: int) -> bool {
    &&& 0 <= i < keys.len()
    &&& keys[i] == Some(k)
    &&& forall|j: int| 0 <= j < i ==> keys[j] != Some(k)
}

/// The first position whose key is `k`.
pub open spec fn first_occurrence(keys: Seq<Option<Seq<char>>>, k: Seq<char>) -> int {
    choose|i: int| is_first_occurrence(keys, k, i)
}

/// `groups` splits the positions below `n` that have a key by that key:
/// no group is empty, no two groups share a key, a group holds exactly the
/// positions with its key.
pub open spec fn partitions(groups: Seq<CityGroup>, keys: Seq<Option<Seq<char>>>, n: int) -> bool {
    &&& forall|g: int| 0 <= g < groups.len() ==> #[trigger] groups[g].cities@.len() > 0
    &&& forall|g1: int, g2: int|
        0 <= g1 < g2 < groups.len() ==> #[trigger] groups[g1].key@ != #[trigger] groups[g2].key@
    &&& forall|g: int, x: usize|
        0 <= g < groups.len() && #[trigger] groups[g].cities@.contains(x) ==> x < n && keys[x as int]
            == Some(groups[g].key@)
    &&& forall|i: int|
        0 <= i < n && #[trigger] keys[i] is Some ==> exists|g: int|
            0 <= g < groups.len() && groups[g].key@ == keys[i]->0
                && #[trigger] groups[g].cities@.contains(i as usize)
}

/// The groups come in the order in which their keys first occur.
pub open spec fn ordered_by_first_occurrence(
    groups: Seq<CityGroup>,
    keys: Seq<Option<Seq<char>>>,
) -> bool {
    forall|g1: int, g2: int|
        0 <= g1 < g2 < groups.len() ==> #[trigger] first_occurrence(keys, groups[g1].key@)
            < #[trigger] first_occurrence(keys, groups[g2].key@)
}

/// The positions of every group are in increasing order.
pub open spec fn groups_increasing(groups: Seq<CityGroup>) -> bool {
    forall|g: int, a: int, b: int|
        0 <= g < groups.len() && 0 <= a < b < groups[g].cities@.len() ==> #[trigger] groups[g].cities@[a]
            < #[trigger] groups[g].cities@[b]
}

/// The first position of every group is the first occurrence of its key,
/// and the groups are in the order of their first positions.
spec fn heads_first(groups: Seq<CityGroup>, keys: Seq<Option<Seq<char>>>) -> bool {
    &&& forall|g: int|
        0 <= g < groups.len() ==> is_first_occurrence(
            keys,
            groups[g].key@,
            #[trigger] groups[g].cities@[0] as int,
        )
    &&& forall|g1: int, g2: int|
        0 <= g1 < g2 < groups.len() ==> #[trigger] groups[g1].cities@[0] < #[trigger] groups[g2].cities@[0]
}

/// A key has one first occurrence.
proof fn lemma_first_occurrence(keys: Seq<Option<Seq<char>>>, k: Seq<char>, i: int)
    requires
        is_first_occurrence(keys, k, i),
    ensures
        first_occurrence(keys, k) == i,
{
    let j = first_occurrence(keys, k);
    assert(is_first_occurrence(keys, k, j));
    if j < i {
        assert(keys[j] != Some(k));
    } else if i < j {
        assert(keys[i] != Some(k));
    }
}

/// Where every group starts at its key's first occurrence, the groups are
/// ordered by first occurrence.
proof fn lemma_heads_ordered(groups: Seq<CityGroup>, keys: Seq<Option<Seq<char>>>)
    requires
        heads_first(groups, keys),
    ensures
        ordered_by_first_occurrence(groups, keys),
{
    assert forall|g1: int, g2: int| 0 <= g1 < g2 < groups.len() implies #[trigger] first_occurrence(
        keys,
        groups[g1].key@,
    ) < #[trigger] first_occurrence(keys, groups[g2].key@) by {
        lemma_first_occurrence(keys, groups[g1].key@, groups[g1].cities@[0] as int);
        lemma_first_occurrence(keys, groups[g2].key@, groups[g2].cities@[0] as int);
    }
}

/// Adding position `i` to the group that has its key keeps the grouping
/// exact.
#[verifier::spinoff_prover]
proof fn lemma_join_group(
    old_groups: Seq<CityGroup>,
    groups: Seq<CityGroup>,
    keys: Seq<Option<Seq<char>>>,
    i: usize,
    g: int,
)
    requires
        0 <= i < keys.len(),
        0 <= g < old_groups.len(),
        partitions(old_groups, keys, i as int),
        groups_increasing(old_groups),
        heads_first(old_groups, keys),
        keys[i as int] == Some(old_groups[g].key@),
        groups.len() == old_groups.len(),
        forall|h: int| 0 <= h < groups.len() && h != g ==> groups[h] == old_groups[h],
        groups[g].key == old_groups[g].key,
        groups[g].cities@ == old_groups[g].cities@.push(i),
    ensures
        partitions(groups, keys, i + 1),
        groups_increasing(groups),
        heads_first(groups, keys),
{
    assert(groups[g].cities@[0] == old_groups[g].cities@[0]);
    assert forall|h: int, x: usize|
        0 <= h < groups.len() && #[trigger] groups[h].cities@.contains(x) implies x < i + 1
        && keys[x as int] == Some(groups[h].key@) by {
        if h != g || x != i {
            assert(old_groups[h].cities@.contains(x));
        }
    }
    assert forall|j: int| 0 <= j < i + 1 && #[trigger] keys[j] is Some implies exists|h: int|
        0 <= h < groups.len() && groups[h].key@ == keys[j]->0
            && #[trigger] groups[h].cities@.contains(j as usize) by {
        if j < i {
            let h = choose|h: int|
                0 <= h < old_groups.len() && old_groups[h].key@ == keys[j]->0
                    && #[trigger] old_groups[h].cities@.contains(j as usize);
            assert(groups[h].cities@.contains(j as usize));
        } else {
            assert(groups[g].cities@[old_groups[g].cities@.len() as int] == i);
            assert(groups[g].cities@.contains(j as usize));
        }
    }
    assert forall|h: int, a: int, b: int|
        0 <= h < groups.len() && 0 <= a < b < groups[h].cities@.len() implies #[trigger] groups[h].cities@[a]
        < #[trigger] groups[h].cities@[b] by {
        if h == g && b == groups[h].cities@.len() - 1 {
            assert(old_groups[g].cities@.contains(groups[h].cities@[a]));
        } else {
            assert(old_groups[h].cities@[a] < old_groups[h].cities@[b]);
        }
    }
    assert forall|h: int| 0 <= h < groups.len() implies is_first_occurrence(
        keys,
        groups[h].key@,
        #[trigger] groups[h].cities@[0] as int,
    ) by {
        assert(groups[h].cities@[0] == old_groups[h].cities@[0]);
    }
    assert forall|g1: int, g2: int| 0 <= g1 < g2 < groups.len() implies #[trigger] groups[g1].cities@[0]
        < #[trigger] groups[g2].cities@[0] by {
        assert(groups[g1].cities@[0] == old_groups[g1].cities@[0]);
        assert(groups[g2].cities@[0] == old_groups[g2].cities@[0]);
    }
}

/// Opening a new group for position `i`, whose key no group has yet,
/// keeps the grouping exact.
#[verifier::spinoff_prover]
proof fn lemma_open_group(
    old_groups: Seq<CityGroup>,
    group: CityGroup,
    keys: Seq<Option<Seq<char>>>,
    i: usize,
)
    requires
        0 <= i < keys.len(),
        partitions(old_groups, keys, i as int),
        groups_increasing(old_groups),
        heads_first(old_groups, keys),
        keys[i as int] == Some(group.key@),
        group.cities@ == seq![i],
        forall|h: int| 0 <= h < old_groups.len() ==> old_groups[h].key@ != group.key@,
    ensures
        partitions(old_groups.push(group), keys, i + 1),
        groups_increasing(old_groups.push(group)),
        heads_first(old_groups.push(group), keys),
{
    let groups = old_groups.push(group);
    let n = old_groups.len() as int;
    assert(groups[n] == group);
    assert(group.cities@[0] == i);
    assert forall|h: int, x: usize|
        0 <= h < groups.len() && #[trigger] groups[h].cities@.contains(x) implies x < i + 1
        && keys[x as int] == Some(groups[h].key@) by {
        if h < n {
            assert(groups[h] == old_groups[h]);
        } else {
            assert(x == i);
        }
    }
    assert forall|j: int| 0 <= j < i + 1 && #[trigger] keys[j] is Some implies exists|h: int|
        0 <= h < groups.len() && groups[h].key@ == keys[j]->0
            && #[trigger] groups[h].cities@.contains(j as usize) by {
        if j < i {
            let h = choose|h: int|
                0 <= h < old_groups.len() && old_groups[h].key@ == keys[j]->0
                    && #[trigger] old_groups[h].cities@.contains(j as usize);
            assert(groups[h] == old_groups[h]);
        } else {
            assert(groups[n].cities@.contains(j as usize));
        }
    }
    assert forall|j: int| 0 <= j < i implies keys[j] != Some(group.key@) by {
        if keys[j] == Some(group.key@) {
            assert(keys[j] is Some);
            let h = choose|h: int|
                0 <= h < old_groups.len() && old_groups[h].key@ == keys[j]->0
                    && #[trigger] old_groups[h].cities@.contains(j as usize);
        }
    }
    assert forall|h: int| 0 <= h < groups.len() implies is_first_occurrence(
        keys,
        groups[h].key@,
        #[trigger] groups[h].cities@[0] as int,
    ) by {
        if h < n {
            assert(groups[h] == old_groups[h]);
        }
    }
    assert forall|g1: int, g2: int| 0 <= g1 < g2 < groups.len() implies #[trigger] groups[g1].cities@[0]
        < #[trigger] groups[g2].cities@[0] by {
        assert(groups[g1] == old_groups[g1]);
        if g2 < n {
            assert(groups[g2] == old_groups[g2]);
        } else {
            assert(old_groups[g1].cities@.contains(old_groups[g1].cities@[0]));
        }
    }
}

/// `x` comes before `y` when ranking by `rank`: the smaller rank first,
/// and among equal ranks the earlier position first.
pub open spec fn ranks_before(rank: Seq<i64>, x: usize, y: usize) -> bool {
    rank[x as int] < rank[y as int] || (rank[x as int] == rank[y as int] && x < y)
}

/// `members` is in ranking order.
pub open spec fn ranked(members: Seq<usize>, rank: Seq<i64>) -> bool {
    forall|a: int, b: int|
        0 <= a < b < members.len() ==> ranks_before(rank, #[trigger] members[a], #[trigger] members[b])
}

/// Inserting `x` after everything that ranks before it and before
/// everything that ranks after it keeps a sequence in ranking order.
proof fn lemma_insert_ranked(s: Seq<usize>, p: int, x: usize, rank: Seq<i64>)
    requires
        0 <= p <= s.len(),
        ranked(s, rank),
        forall|q: int| 0 <= q < p ==> ranks_before(rank, #[trigger] s[q], x),
        p < s.len() ==> ranks_before(rank, x, s[p]),
    ensures
        ranked(s.insert(p, x), rank),
{
    s.insert_ensures(p, x);
    let t = s.insert(p, x);
    assert forall|a: int, b: int| 0 <= a < b < t.len() implies ranks_before(
        rank,
        #[trigger] t[a],
        #[trigger] t[b],
    ) by {
        if b < p {
            assert(ranks_before(rank, s[a], s[b]));
        } else if b == p {
            assert(ranks_before(rank, s[a], x));
        } else if a < p {
            assert(t[b] == s[b - 1]);
            assert(ranks_before(rank, s[a], x));
            assert(ranks_before(rank, x, s[p]));
            if p < b - 1 {
                assert(ranks_before(rank, s[p], s[b - 1]));
            }
        } else if a == p {
            assert(t[b] == s[b - 1]);
            if p < b - 1 {
                assert(ranks_before(rank, s[p], s[b - 1]));
            }
        } else {
            assert(t[a] == s[a - 1]);
            assert(t[b] == s[b - 1]);
            assert(ranks_before(rank, s[a - 1], s[b - 1]));
        }
    }
}

/// The positions of `members` in ranking order: the smaller rank first,
/// and among equal ranks the earlier position first.
fn rank_positions(members: &Vec<usize>, rank: &Vec<i64>) -> (out: Vec<usize>)
    requires
        forall|k: int| 0 <= k < members@.len() ==> #[trigger] members@[k] < rank@.len(),
        forall|a: int, b: int|
            0 <= a < b < members@.len() ==> #[trigger] members@[a] < #[trigger] members@[b],
    ensures
        out@.len() == members@.len(),
        forall|x: usize| #[trigger] out@.contains(x) <==> members@.contains(x),
        ranked(out@, rank@),
{
    broadcast use vstd::seq_lib::lemma_seq_contains;

    let mut out: Vec<usize> = Vec::new();
    for k in 0..members.len()
        invariant
            out@.len() == k,
            forall|x: usize| #[trigger] out@.contains(x) <==> members@.subrange(0, k as int).contains(x),
            forall|q: int| 0 <= q < out@.len() ==> #[trigger] out@[q] < rank@.len(),
            ranked(out@, rank@),
            forall|k: int| 0 <= k < members@.len() ==> #[trigger] members@[k] < rank@.len(),
            forall|a: int, b: int|
                0 <= a < b < members@.len() ==> #[trigger] members@[a] < #[trigger] members@[b],
    {
        let x = members[k];
        let mut p: usize = 0;
        while p < out.len() && !(rank[x] < rank[out[p]] || (rank[x] == rank[out[p]] && x < out[p]))
            invariant
                0 <= p <= out@.len(),
                forall|q: int| 0 <= q < p ==> !ranks_before(rank@, x, #[trigger] out@[q]),
                forall|q: int| 0 <= q < out@.len() ==> #[trigger] out@[q] < rank@.len(),
                x < rank@.len(),
            decreases out@.len() - p,
        {
            p = p + 1;
        }
        proof {
            assert forall|q: int| 0 <= q < p implies ranks_before(rank@, #[trigger] out@[q], x) by {
                assert(out@.contains(out@[q]));
                let j = choose|j: int| 0 <= j < k && members@.subrange(0, k as int)[j] == out@[q];
                assert(members@[j] < members@[k as int]);
            }
            lemma_insert_ranked(out@, p as int, x, rank@);
        }
        let ghost before = out@;
        out.insert(p, x);
        proof {
            before.insert_ensures(p as int, x);
            let pre1 = members@.subrange(0, k + 1);
            assert forall|y: usize| #[trigger] out@.contains(y) <==> pre1.contains(y) by {
                if out@.contains(y) {
                    let q = choose|q: int| 0 <= q < out@.len() && out@[q] == y;
                    if q < p {
                        assert(before.contains(before[q]));
                    } else if q > p {
                        assert(before.contains(before[q - 1]));
                    }
                    if y != x {
                        assert(before.contains(y));
                        let j = choose|j: int| 0 <= j < k && members@.subrange(0, k as int)[j] == y;
                        assert(pre1[j] == y);
                    } else {
                        assert(pre1[k as int] == y);
                    }
                }
                if pre1.contains(y) {
                    let j = choose|j: int| 0 <= j < k + 1 && pre1[j] == y;
                    if j == k {
                        assert(out@[p as int] == y);
                    } else {
                        assert(members@.subrange(0, k as int)[j] == y);
                        assert(before.contains(y));
                        let q = choose|q: int| 0 <= q < before.len() && before[q] == y;
                        if q < p {
                            assert(out@[q] == y);
                        } else {
                            assert(out@[q + 1] == y);
                        }
                    }
                }
            }
            assert forall|q: int| 0 <= q < out@.len() implies #[trigger] out@[q] < rank@.len() by {
                if q < p {
                    assert(out@[q] == before[q]);
                } else if q > p {
                    assert(out@[q] == before[q - 1]);
                }
            }
        }
    }
    proof {
        assert(members@.subrange(0, members@.len() as int) =~= members@);
    }
    out
}

/// Groups the positions of `keys` that hold a key, in the order in which
/// the keys first occur, each group in increasing order.
fn group_positions(keys: &Vec<Option<String>>) -> (groups: Vec<CityGroup>)
    ensures
        partitions(groups@, key_views(keys@), keys@.len() as int),
        groups_increasing(groups@),
        heads_first(groups@, key_views(keys@)),
        ordered_by_first_occurrence(groups@, key_views(keys@)),
{
    let ghost kv = key_views(keys@);
    let mut groups: Vec<CityGroup> = Vec::new();
    for i in 0..keys.len()
        invariant
            kv == key_views(keys@),
            partitions(groups@, kv, i as int),
            groups_increasing(groups@),
            heads_first(groups@, kv),
    {
        match &keys[i] {
            None => {
                assert(kv[i as int] is None);
            },
            Some(k) => {
                assert(kv[i as int] == Some(k@));
                let mut g: usize = 0;
                while g < groups.len() && groups[g].key != *k
                    invariant
                        0 <= g <= groups@.len(),
                        forall|h: int| 0 <= h < g ==> groups@[h].key@ != k@,
                    decreases groups@.len() - g,
                {
                    g = g + 1;
                }
                let ghost old_groups = groups@;
                if g < groups.len() {
                    groups[g].cities.push(i);
                    proof {
                        lemma_join_group(old_groups, groups@, kv, i, g as int);
                    }
                } else {
                    let mut cities: Vec<usize> = Vec::new();
                    cities.push(i);
                    let group = CityGroup { key: k.clone(), cities };
                    proof {
                        lemma_open_group(old_groups, group, kv, i);
                    }
                    groups.push(group);
                }
            },
        }
    }
    proof {
        lemma_heads_ordered(groups@, kv);
    }
    groups
}

/// Two groupings with the same keys and, group by group, the same
/// positions split the positions alike.
proof fn lemma_same_members(
    a: Seq<CityGroup>,
    b: Seq<CityGroup>,
    keys: Seq<Option<Seq<char>>>,
    n: int,
)
    requires
        partitions(a, keys, n),
        ordered_by_first_occurrence(a, keys),
        a.len() == b.len(),
        forall|g: int| 0 <= g < a.len() ==> #[trigger] b[g].key@ == a[g].key@,
        forall|g: int| 0 <= g < a.len() ==> #[trigger] b[g].cities@.len() == a[g].cities@.len(),
        forall|g: int, x: usize|
            0 <= g < a.len() ==> (#[trigger] b[g].cities@.contains(x) <==> a[g].cities@.contains(x)),
    ensures
        partitions(b, keys, n),
        ordered_by_first_occurrence(b, keys),
{
    assert forall|g: int| 0 <= g < b.len() implies #[trigger] b[g].cities@.len() > 0 by {
        assert(a[g].cities@.len() > 0);
    }
    assert forall|g1: int, g2: int| 0 <= g1 < g2 < b.len() implies #[trigger] b[g1].key@
        != #[trigger] b[g2].key@ by {
        assert(a[g1].key@ != a[g2].key@);
    }
    assert forall|g: int, x: usize| 0 <= g < b.len() && #[trigger] b[g].cities@.contains(x) implies x
        < n && keys[x as int] == Some(b[g].key@) by {
        assert(a[g].cities@.contains(x));
    }
    assert forall|i: int| 0 <= i < n && #[trigger] keys[i] is Some implies exists|g: int|
        0 <= g < b.len() && b[g].key@ == keys[i]->0 && #[trigger] b[g].cities@.contains(i as usize) by {
        let g = choose|g: int|
            0 <= g < a.len() && a[g].key@ == keys[i]->0 && #[trigger] a[g].cities@.contains(i as usize);
        assert(b[g].cities@.contains(i as usize));
    }
    assert forall|g1: int, g2: int| 0 <= g1 < g2 < b.len() implies #[trigger] first_occurrence(
        keys,
        b[g1].key@,
    ) < #[trigger] first_occurrence(keys, b[g2].key@) by {
        assert(first_occurrence(keys, a[g1].key@) < first_occurrence(keys, a[g2].key@));
    }
}

/// Groups the positions of `keys` that hold a key, in the order in which
/// the keys first occur, and puts each group in ranking order.
fn group_and_rank(keys: &Vec<Option<String>>, rank: &Vec<i64>) -> (groups: Vec<CityGroup>)
    requires
        keys@.len() == rank@.len(),
    ensures
        partitions(groups@, key_views(keys@), keys@.len() as int),
        ordered_by_first_occurrence(groups@, key_views(keys@)),
        forall|g: int| 0 <= g < groups@.len() ==> ranked(#[trigger] groups@[g].cities@, rank@),
{
    let mut groups = group_positions(keys);
    let ghost grouped = groups@;
    let ghost kv = key_views(keys@);
    let mut g: usize = 0;
    while g < groups.len()
        invariant
            0 <= g <= groups@.len(),
            groups@.len() == grouped.len(),
            partitions(grouped, kv, keys@.len() as int),
            ordered_by_first_occurrence(grouped, kv),
            groups_increasing(grouped),
            kv == key_views(keys@),
            keys@.len() == rank@.len(),
            forall|h: int| 0 <= h < grouped.len() ==> #[trigger] groups@[h].key@ == grouped[h].key@,
            forall|h: int|
                0 <= h < grouped.len() ==> #[trigger] groups@[h].cities@.len()
                    == grouped[h].cities@.len(),
            forall|h: int, x: usize|
                0 <= h < grouped.len() ==> (#[trigger] groups@[h].cities@.contains(x)
                    <==> grouped[h].cities@.contains(x)),
            forall|h: int| g <= h < grouped.len() ==> #[trigger] groups@[h] == grouped[h],
            forall|h: int| 0 <= h < g ==> ranked(#[trigger] groups@[h].cities@, rank@),
        decreases groups@.len() - g,
    {
        proof {
            assert(groups@[g as int] == grouped[g as int]);
            assert forall|k: int| 0 <= k < grouped[g as int].cities@.len() implies #[trigger] grouped[g as int].cities@[k]
                < rank@.len() by {
                assert(grouped[g as int].cities@.contains(grouped[g as int].cities@[k]));
            }
        }
        let sorted = rank_positions(&groups[g].cities, rank);
        groups[g].cities = sorted;
        g = g + 1;
    }
    proof {
        lemma_same_members(grouped, groups@, kv, keys@.len() as int);
    }
    groups
}

/// The members of a group, most populous city first, and among cities of
/// equal population the earlier one in the data set first.
pub open spec fn most_populous_first(members: Seq<usize>, cities: Seq<City>) -> bool {
    forall|a: int, b: int|
        0 <= a < b < members.len() ==> {
            let x = cities[#[trigger] members[a] as int].fields.population;
            let y = cities[#[trigger] members[b] as int].fields.population;
            x > y || (x == y && members[a] < members[b])
        }
}

/// Each city keyed by the English name of its country.
pub open spec fn country_name_keys(cities: Seq<City>) -> Seq<Option<Seq<char>>> {
    Seq::new(cities.len(), |i: int| Some(country_name_of(cities[i])))
}

/// Ranking by negated population is ranking most populous first.
proof fn lemma_rank_by_population(members: Seq<usize>, rank: Seq<i64>, cities: Seq<City>)
    requires
        ranked(members, rank),
        forall|k: int|
            0 <= k < members.len() ==> #[trigger] members[k] < cities.len() && rank[members[k] as int]
                == -cities[members[k] as int].fields.population,
    ensures
        most_populous_first(members, cities),
{
    assert forall|a: int, b: int| 0 <= a < b < members.len() implies {
        let x = cities[#[trigger] members[a] as int].fields.population;
        let y = cities[#[trigger] members[b] as int].fields.population;
        x > y || (x == y && members[a] < members[b])
    } by {
        assert(ranks_before(rank, members[a], members[b]));
    }
}

/// The cities grouped by the English name of their country (the country
/// code where a record has no such name), the groups in the order in which
/// their country first occurs, each group most populous first.
pub fn cities_by_country_name(cities: &Vec<City>) -> (groups: Vec<CityGroup>)
    requires
        forall|i: int| 0 <= i < cities@.len() ==> #[trigger] cities@[i].fields.population > i64::MIN,
    ensures
        partitions(groups@, country_name_keys(cities@), cities@.len() as int),
        ordered_by_first_occurrence(groups@, country_name_keys(cities@)),
        forall|g: int|
            0 <= g < groups@.len() ==> most_populous_first(#[trigger] groups@[g].cities@, cities@),
{
    let mut keys: Vec<Option<String>> = Vec::new();
    let mut rank: Vec<i64> = Vec::new();
    for i in 0..cities.len()
        invariant
            keys@.len() == i,
            rank@.len() == i,
            forall|i: int| 0 <= i < cities@.len() ==> #[trigger] cities@[i].fields.population > i64::MIN,
            forall|j: int| 0 <= j < i ==> #[trigger] key_view(keys@[j]) == country_name_keys(cities@)[j],
            forall|j: int| 0 <= j < i ==> #[trigger] rank@[j] == -cities@[j].fields.population,
    {
        let name = cities[i].country_name_eng().to_owned();
        keys.push(Some(name));
        rank.push(get_population(&cities[i]));
    }
    assert(key_views(keys@) =~= country_name_keys(cities@));
    let groups = group_and_rank(&keys, &rank);
    proof {
        assert forall|g: int| 0 <= g < groups@.len() implies most_populous_first(
            #[trigger] groups@[g].cities@,
            cities@,
        ) by {
            assert forall|k: int| 0 <= k < groups@[g].cities@.len() implies #[trigger] groups@[g].cities@[k]
                < cities@.len() && rank@[groups@[g].cities@[k] as int]
                == -cities@[groups@[g].cities@[k] as int].fields.population by {
                assert(groups@[g].cities@.contains(groups@[g].cities@[k]));
            }
            lemma_rank_by_population(groups@[g].cities@, rank@, cities@);
        }
    }
    groups
}

/// Each city keyed by its state, that is its first-level division, where
/// it lies in the country with code `country` and has a state; unkeyed
/// otherwise.
pub open spec fn state_key(city: City, country: Seq<char>) -> Option<Seq<char>> {
    if city.fields.country_code@ == country {
        match city.fields.admin1_code {
            Some(state) => Some(state@),
            None => None,
        }
    } else {
        None
    }
}

/// The state key of each city.
pub open spec fn state_keys(cities: Seq<City>, country: Seq<char>) -> Seq<Option<Seq<char>>> {
    Seq::new(cities.len(), |i: int| state_key(cities[i], country))
}

/// The cities of the country with code `country` that have a state,
/// grouped by state, the groups in the order in which their state first
/// occurs, each group most populous first.
pub fn cities_by_state(cities: &Vec<City>, country: &str) -> (groups: Vec<CityGroup>)
    requires
        forall|i: int|
            0 <= i < cities@.len() && #[trigger] state_key(cities@[i], country@) is Some
                ==> cities@[i].fields.population > i64::MIN,
    ensures
        partitions(groups@, state_keys(cities@, country@), cities@.len() as int),
        ordered_by_first_occurrence(groups@, state_keys(cities@, country@)),
        forall|g: int|
            0 <= g < groups@.len() ==> most_populous_first(#[trigger] groups@[g].cities@, cities@),
{
    let country = country.to_owned();
    let mut keys: Vec<Option<String>> = Vec::new();
    let mut rank: Vec<i64> = Vec::new();
    for i in 0..cities.len()
        invariant
            keys@.len() == i,
            rank@.len() == i,
            forall|i: int|
                0 <= i < cities@.len() && #[trigger] state_key(cities@[i], country@) is Some
                    ==> cities@[i].fields.population > i64::MIN,
            forall|j: int| 0 <= j < i ==> #[trigger] key_view(keys@[j]) == state_keys(cities@, country@)[j],
            forall|j: int|
                0 <= j < i && state_key(cities@[j], country@) is Some ==> #[trigger] rank@[j]
                    == -cities@[j].fields.population,
    {
        let city = &cities[i];
        let key = if city.fields.country_code == country {
            match &city.fields.admin1_code {
                Some(state) => Some(state.clone()),
                None => None,
            }
        } else {
            None
        };
        proof {
            assert(key_view(key) == state_key(cities@[i as int], country@));
        }
        let r = match &key {
            Some(_) => get_population(city),
            None => 0,
        };
        keys.push(key);
        rank.push(r);
    }
    assert(key_views(keys@) =~= state_keys(cities@, country@));
    let groups = group_and_rank(&keys, &rank);
    proof {
        assert forall|g: int| 0 <= g < groups@.len() implies most_populous_first(
            #[trigger] groups@[g].cities@,
            cities@,
        ) by {
            assert forall|k: int| 0 <= k < groups@[g].cities@.len() implies #[trigger] groups@[g].cities@[k]
                < cities@.len() && rank@[groups@[g].cities@[k] as int]
                == -cities@[groups@[g].cities@[k] as int].fields.population by {
                let x = groups@[g].cities@[k];
                assert(groups@[g].cities@.contains(x));
                assert(state_keys(cities@, country@)[x as int] is Some);
            }
            lemma_rank_by_population(groups@[g].cities@, rank@, cities@);
        }
    }
    groups
}

/// The member of a group, given in data set order, with the largest
/// population; the last one where several share it.
fn last_largest(members: &Vec<usize>, cities: &Vec<City>) -> (best: usize)
    requires
        members@.len() > 0,
        forall|k: int| 0 <= k < members@.len() ==> #[trigger] members@[k] < cities@.len(),
        forall|a: int, b: int|
            0 <= a < b < members@.len() ==> #[trigger] members@[a] < #[trigger] members@[b],
    ensures
        members@.contains(best),
        forall|k: int|
            0 <= k < members@.len() ==> #[trigger] cities@[members@[k] as int].fields.population
                <= cities@[best as int].fields.population,
        forall|k: int|
            0 <= k < members@.len() && members@[k] > best ==> #[trigger] cities@[members@[
                k
            ] as int].fields.population < cities@[best as int].fields.population,
{
    let mut at: usize = 0;
    for k in 1..members.len()
        invariant
            0 <= at < k <= members@.len(),
            forall|k: int| 0 <= k < members@.len() ==> #[trigger] members@[k] < cities@.len(),
            forall|a: int, b: int|
                0 <= a < b < members@.len() ==> #[trigger] members@[a] < #[trigger] members@[b],
            forall|j: int|
                0 <= j < k ==> #[trigger] cities@[members@[j] as int].fields.population
                    <= cities@[members@[at as int] as int].fields.population,
            forall|j: int|
                at < j < k ==> #[trigger] cities@[members@[j] as int].fields.population
                    < cities@[members@[at as int] as int].fields.population,
    {
        if cities[members[k]].fields.population >= cities[members[at]].fields.population {
            at = k;
        }
    }
    let best = members[at];
    proof {
        assert(members@.contains(best));
        assert forall|k: int| 0 <= k < members@.len() && members@[k] > best implies #[trigger] cities@[members@[
            k
        ] as int].fields.population < cities@[best as int].fields.population by {
            if k <= at {
                if k < at {
                    assert(members@[k] < members@[at as int]);
                }
            }
        }
    }
    best
}

/// Each city keyed by its country code.
pub open spec fn country_code_keys(cities: Seq<City>) -> Seq<Option<Seq<char>>> {
    Seq::new(cities.len(), |i: int| Some(cities[i].fields.country_code@))
}

/// Position `k` holds the most populous city of the country with code
/// `country`, the last one in the data set where several share the largest
/// population.
pub open spec fn is_last_largest(cities: Seq<City>, country: Seq<char>, k: int) -> bool {
    &&& 0 <= k < cities.len()
    &&& in_country(cities[k], country)
    &&& forall|j: int|
        0 <= j < cities.len() && #[trigger] in_country(cities[j], country) ==> {
            &&& cities[j].fields.population <= cities[k].fields.population
            &&& j > k ==> cities[j].fields.population < cities[k].fields.population
        }
}

/// Some position of `largest` holds a city of the country with code `code`.
pub open spec fn has_country(largest: Seq<usize>, cities: Seq<City>, code: Seq<char>) -> bool {
    exists|g: int| 0 <= g < largest.len() && cities[#[trigger] largest[g] as int].fields.country_code@ == code
}

/// The most populous city of every country, one per country, the last one
/// in the data set where several share the largest population; the
/// countries in the order in which they first occur.
pub fn largest_city_per_country(cities: &Vec<City>) -> (largest: Vec<usize>)
    ensures
        forall|g: int|
            0 <= g < largest@.len() ==> is_last_largest(
                cities@,
                cities@[#[trigger] largest@[g] as int].fields.country_code@,
                largest@[g] as int,
            ),
        forall|g1: int, g2: int|
            0 <= g1 < g2 < largest@.len() ==> cities@[#[trigger] largest@[g1] as int].fields.country_code@
                != cities@[#[trigger] largest@[g2] as int].fields.country_code@,
        forall|i: int|
            0 <= i < cities@.len() ==> has_country(largest@, cities@, #[trigger] cities@[i].fields.country_code@),
        forall|g1: int, g2: int|
            0 <= g1 < g2 < largest@.len() ==> first_occurrence(
                country_code_keys(cities@),
                cities@[#[trigger] largest@[g1] as int].fields.country_code@,
            ) < first_occurrence(
                country_code_keys(cities@),
                cities@[#[trigger] largest@[g2] as int].fields.country_code@,
            ),
{
    let mut keys: Vec<Option<String>> = Vec::new();
    for i in 0..cities.len()
        invariant
            keys@.len() == i,
            forall|j: int| 0 <= j < i ==> #[trigger] key_view(keys@[j]) == country_code_keys(cities@)[j],
    {
        keys.push(Some(cities[i].fields.country_code.clone()));
    }
    let ghost kv = country_code_keys(cities@);
    assert(key_views(keys@) =~= kv);
    let groups = group_positions(&keys);
    let mut largest: Vec<usize> = Vec::new();
    for g in 0..groups.len()
        invariant
            partitions(groups@, kv, cities@.len() as int),
            ordered_by_first_occurrence(groups@, kv),
            groups_increasing(groups@),
            kv == country_code_keys(cities@),
            largest@.len() == g,
            forall|h: int| 0 <= h < g ==> #[trigger] groups@[h].cities@.contains(largest@[h]),
            forall|h: int| 0 <= h < g ==> is_last_largest(
                cities@,
                groups@[h].key@,
                #[trigger] largest@[h] as int,
            ),
    {
        let ghost members = groups@[g as int].cities@;
        proof {
            assert forall|k: int| 0 <= k < members.len() implies #[trigger] members[k] < cities@.len() by {
                assert(members.contains(members[k]));
            }
        }
        let best = last_largest(&groups[g].cities, cities);
        proof {
            assert(cities@.len() == cities.len());
            let key = groups@[g as int].key@;
            assert(members.contains(best));
            assert(kv[best as int] == Some(key));
            assert forall|j: int|
                0 <= j < cities@.len() && #[trigger] in_country(cities@[j], key) implies {
                &&& cities@[j].fields.population <= cities@[best as int].fields.population
                &&& j > best ==> cities@[j].fields.population < cities@[best as int].fields.population
            } by {
                assert(kv[j] == Some(key));
                let h = choose|h: int|
                    0 <= h < groups@.len() && groups@[h].key@ == kv[j]->0
                        && #[trigger] groups@[h].cities@.contains(j as usize);
                if h != g {
                    if h < g {
                        assert(groups@[h].key@ != groups@[g as int].key@);
                    } else {
                        assert(groups@[g as int].key@ != groups@[h].key@);
                    }
                }
                assert(members.contains(j as usize));
                let k = choose|k: int| 0 <= k < members.len() && members[k] == j as usize;
                assert(cities@[members[k] as int].fields.population
                    <= cities@[best as int].fields.population);
                if j > best {
                    assert(members[k] > best);
                    assert(cities@[members[k] as int].fields.population
                        < cities@[best as int].fields.population);
                }
            }
        }
        largest.push(best);
    }
    proof {
        assert(cities@.len() == cities.len());
        assert forall|g: int| 0 <= g < largest@.len() implies #[trigger] cities@[largest@[g] as int].fields.country_code@
            == groups@[g].key@ by {
            assert(groups@[g].cities@.contains(largest@[g]));
        }
        assert forall|g1: int, g2: int|
            0 <= g1 < g2 < largest@.len() implies cities@[#[trigger] largest@[g1] as int].fields.country_code@
            != cities@[#[trigger] largest@[g2] as int].fields.country_code@ by {
            assert(groups@[g1].key@ != groups@[g2].key@);
        }
        assert forall|i: int| 0 <= i < cities@.len() implies has_country(largest@, cities@, #[trigger] cities@[i].fields.country_code@) by {
            assert(kv[i] is Some);
            let h = choose|h: int|
                0 <= h < groups@.len() && groups@[h].key@ == kv[i]->0
                    && #[trigger] groups@[h].cities@.contains(i as usize);
            assert(cities@[largest@[h] as int].fields.country_code@ == groups@[h].key@);
            assert(cities@[largest@[h] as int].fields.country_code@ == cities@[i].fields.country_code@);
        }
        assert forall|g1: int, g2: int| 0 <= g1 < g2 < largest@.len() implies first_occurrence(
            country_code_keys(cities@),
            cities@[#[trigger] largest@[g1] as int].fields.country_code@,
        ) < first_occurrence(
            country_code_keys(cities@),
            cities@[#[trigger] largest@[g2] as int].fields.country_code@,
        ) by {
            assert(first_occurrence(kv, groups@[g1].key@) < first_occurrence(kv, groups@[g2].key@));
        }
    }
    largest
}

/// In a grouping whose groups are ranked most populous first, the first
/// city of a group is the most populous city with its key, and the
/// earliest in the data set among those of equal population.
pub proof fn law_group_head_is_largest(
    groups: Seq<CityGroup>,
    keys: Seq<Option<Seq<char>>>,
    cities: Seq<City>,
    g: int,
    j: usize,
)
    requires
        partitions(groups, keys, cities.len() as int),
        0 <= g < groups.len(),
        most_populous_first(groups[g].cities@, cities),
        keys.len() == cities.len(),
        j < cities.len(),
        keys[j as int] == Some(groups[g].key@),
    ensures
        cities[j as int].fields.population <= cities[groups[g].cities@[0] as int].fields.population,
        cities[j as int].fields.population == cities[groups[g].cities@[0] as int].fields.population
            ==> groups[g].cities@[0] <= j,
{
    assert(keys[j as int] is Some);
    let h = choose|h: int|
        0 <= h < groups.len() && groups[h].key@ == keys[j as int]->0
            && #[trigger] groups[h].cities@.contains(j);
    if h != g {
        if h < g {
            assert(groups[h].key@ != groups[g].key@);
        } else {
            assert(groups[g].key@ != groups[h].key@);
        }
    }
    let members = groups[g].cities@;
    assert(members.len() > 0);
    let m = choose|m: int| 0 <= m < members.len() && members[m] == j;
    if m > 0 {
        assert(members[0] == members[0] && members[m] == members[m]);
    }
}

/// No city belongs to two groups.
pub proof fn law_city_in_one_group(
    groups: Seq<CityGroup>,
    keys: Seq<Option<Seq<char>>>,
    n: int,
    g1: int,
    g2: int,
    x: usize,
)
    requires
        partitions(groups, keys, n),
        0 <= g1 < groups.len(),
        0 <= g2 < groups.len(),
        groups[g1].cities@.contains(x),
        groups[g2].cities@.contains(x),
    ensures
        g1 == g2,
{
    if g1 < g2 {
        assert(groups[g1].key@ != groups[g2].key@);
    } else if g2 < g1 {
        assert(groups[g2].key@ != groups[g1].key@);
    }
}

/// The most populous city of a country found as the first of the largest
/// and the one found as the last of the largest have the same population,
/// and the first never comes after the last.
pub proof fn law_first_and_last_largest_agree(cities: Seq<City>, country: Seq<char>, k: int, r: int)
    requires
        is_first_largest(cities, country, k),
        is_last_largest(cities, country, r),
    ensures
        cities[k].fields.population == cities[r].fields.population,
        k <= r,
{
    assert(in_country(cities[k], country));
    assert(in_country(cities[r], country));
}


/// Grouping by country name keys every city by its English country name
/// where the record has one, and by its country code otherwise.
pub proof fn law_country_name_key(cities: Seq<City>, i: int)
    requires
        0 <= i < cities.len(),
    ensures
        cities[i].fields.cou_name_en matches Some(name) ==> country_name_keys(cities)[i] == Some(
            name@,
        ),
        cities[i].fields.cou_name_en is None ==> country_name_keys(cities)[i] == Some(
            cities[i].fields.country_code@,
        ),
{
}

} // verus!
