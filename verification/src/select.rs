//! Picking cities out of the data set: by a filter, by country and state,
//! and the most populous city of a country.
use crate::city::City;
use vstd::prelude::*;

verus! {

/// Which cities to keep: those of a country, of a first-level
/// administrative division, or of a time zone.
pub enum Filter {
    CountryCode(String),
    Admin1Code(String),
    TimeZone(String),
}

/// Extending a selection by one position keeps it exact.
pub(crate) proof fn lemma_select_step(sel: Seq<usize>, i: usize, p: spec_fn(int) -> bool, took: bool)
    requires
        selects_exactly(sel, i as int, p),
        took == p(i as int),
    ensures
        selects_exactly(if took { sel.push(i) } else { sel }, i + 1, p),
{
    let next = if took { sel.push(i) } else { sel };
    assert forall|j: int| 0 <= j < i + 1 && #[trigger] p(j) implies next.contains(j as usize) by {
        if j < i {
            let k = choose|k: int| 0 <= k < sel.len() && sel[k] == j as usize;
            assert(next[k] == j as usize);
        } else {
            assert(next[sel.len() as int] == i);
        }
    }
}

/// Whether `city` passes `filter`. A city without a first-level
/// division code passes no `Admin1Code` filter.
pub open spec fn city_matches(city: City, filter: Filter) -> bool {
    match filter {
        Filter::CountryCode(v) => city.fields.country_code@ == v@,
        Filter::Admin1Code(v) => match city.fields.admin1_code {
            Some(code) => code@ == v@,
            None => false,
        },
        Filter::TimeZone(v) => city.fields.timezone@ == v@,
    }
}

/// `sel` lists, in increasing order, exactly the positions below `n` at
/// which `p` holds.
pub open spec fn selects_exactly(sel: Seq<usize>, n: int, p: spec_fn(int) -> bool) -> bool {
    &&& forall|a: int, b: int| 0 <= a < b < sel.len() ==> sel[a] < sel[b]
    &&& forall|k: int| 0 <= k < sel.len() ==> 0 <= #[trigger] sel[k] < n && p(sel[k] as int)
    &&& forall|i: int| 0 <= i < n && #[trigger] p(i) ==> sel.contains(i as usize)
}

/// Whether the city lies in the country with code `country`.
pub open spec fn in_country(city: City, country: Seq<char>) -> bool {
    city.fields.country_code@ == country
}

/// Whether the city lies in the country `country` and in its first-level
/// division `state`, with at least `min_population` inhabitants.
pub open spec fn in_state_with_population(
    city: City,
    country: Seq<char>,
    state: Seq<char>,
    min_population: int,
) -> bool {
    &&& city.fields.country_code@ == country
    &&& city.fields.admin1_code matches Some(code) && code@ == state
    &&& city.fields.population >= min_population
}

/// Whether `city` passes `filter`.
pub fn matches_filter(city: &City, filter: &Filter) -> (r: bool)
    ensures
        r == city_matches(*city, *filter),
{
    match filter {
        Filter::CountryCode(v) => city.fields.country_code == *v,
        Filter::Admin1Code(v) => match &city.fields.admin1_code {
            Some(code) => *code == *v,
            None => false,
        },
        Filter::TimeZone(v) => city.fields.timezone == *v,
    }
}

/// The positions, in order, of the cities that pass `filter`.
pub fn filter_cities(cities: &Vec<City>, filter: Filter) -> (sel: Vec<usize>)
    ensures
        selects_exactly(sel@, cities@.len() as int, |i: int| city_matches(cities@[i], filter)),
{
    let ghost p = |i: int| city_matches(cities@[i], filter);
    let mut sel: Vec<usize> = Vec::new();
    for i in 0..cities.len()
        invariant
            selects_exactly(sel@, i as int, p),
            p == (|i: int| city_matches(cities@[i], filter)),
    {
        let keep = matches_filter(&cities[i], &filter);
        proof {
            lemma_select_step(sel@, i, p, keep);
        }
        if keep {
            sel.push(i);
        }
    }
    sel
}

/// The positions, in order, of the cities of country `country` and its
/// first-level division `state` that have at least `min_population`
/// inhabitants.
pub fn cities_in_state(cities: &Vec<City>, country: &str, state: &str, min_population: i64) -> (sel:
    Vec<usize>)
    ensures
        selects_exactly(
            sel@,
            cities@.len() as int,
            |i: int| in_state_with_population(cities@[i], country@, state@, min_population as int),
        ),
{
    let country = country.to_owned();
    let state = state.to_owned();
    let ghost p = |i: int|
        in_state_with_population(cities@[i], country@, state@, min_population as int);
    let mut sel: Vec<usize> = Vec::new();
    for i in 0..cities.len()
        invariant
            selects_exactly(sel@, i as int, p),
            p == (|i: int|
                in_state_with_population(cities@[i], country@, state@, min_population as int)),
    {
        let city = &cities[i];
        let keep = if city.fields.country_code != country {
            false
        } else {
            match &city.fields.admin1_code {
                Some(code) => *code == state && city.fields.population >= min_population,
                None => false,
            }
        };
        proof {
            lemma_select_step(sel@, i, p, keep);
        }
        if keep {
            sel.push(i);
        }
    }
    sel
}

/// No city has the country code `country`.
pub open spec fn no_city_in(cities: Seq<City>, country: Seq<char>) -> bool {
    forall|j: int| 0 <= j < cities.len() ==> !#[trigger] in_country(cities[j], country)
}

/// Position `k` holds a most populous city of the country with code
/// `country` (whatever its population, zero and below included), and no
/// earlier city of that country has as many inhabitants.
pub open spec fn is_first_largest(cities: Seq<City>, country: Seq<char>, k: int) -> bool {
    &&& 0 <= k < cities.len()
    &&& in_country(cities[k], country)
    &&& forall|j: int|
        0 <= j < cities.len() && #[trigger] in_country(cities[j], country) ==> {
            &&& cities[j].fields.population <= cities[k].fields.population
            &&& j < k ==> cities[j].fields.population < cities[k].fields.population
        }
}

/// A filter on a country code keeps exactly the cities of that country.
pub proof fn law_country_filter_is_in_country(city: City, code: String)
    ensures
        city_matches(city, Filter::CountryCode(code)) == in_country(city, code@),
{
}

/// The most populous city of country `country`, the first one where
/// several share the largest population; none exactly where no city has
/// that country code.
pub fn largest_city(cities: &Vec<City>, country: &str) -> (r: Option<usize>)
    ensures
        match r {
            None => no_city_in(cities@, country@),
            Some(k) => is_first_largest(cities@, country@, k as int),
        },
{
    let country = country.to_owned();
    let mut largest: Option<usize> = None;
    for i in 0..cities.len()
        invariant
            match largest {
                None => forall|j: int| 0 <= j < i ==> !#[trigger] in_country(cities@[j], country@),
                Some(k) => {
                    &&& k < i
                    &&& in_country(cities@[k as int], country@)
                    &&& forall|j: int|
                        0 <= j < i && #[trigger] in_country(cities@[j], country@)
                            ==> cities@[j].fields.population <= cities@[k as int].fields.population
                    &&& forall|j: int|
                        0 <= j < k && #[trigger] in_country(cities@[j], country@)
                            ==> cities@[j].fields.population < cities@[k as int].fields.population
                },
            },
    {
        let city = &cities[i];
        if city.fields.country_code == country {
            match largest {
                None => {
                    largest = Some(i);
                },
                Some(k) => {
                    if city.fields.population > cities[k].fields.population {
                        largest = Some(i);
                    }
                },
            }
        }
    }
    largest
}

/// The negated population of a city: sorting by it puts the most populous
/// city first.
pub fn get_population(city: &City) -> (key: i64)
    requires
        city.fields.population > i64::MIN,
    ensures
        key == -city.fields.population,
{
    -city.fields.population
}

/// Every position of `s` before `i` is that of `t`, where both select
/// exactly the same positions.
proof fn lemma_selection_prefix(s: Seq<usize>, t: Seq<usize>, n: int, p: spec_fn(int) -> bool, i: int)
    requires
        selects_exactly(s, n, p),
        selects_exactly(t, n, p),
        0 <= i <= s.len(),
        i <= t.len(),
    ensures
        forall|j: int| 0 <= j < i ==> s[j] == t[j],
    decreases i,
{
    if i > 0 {
        lemma_selection_prefix(s, t, n, p, i - 1);
        let x = s[i - 1];
        let y = t[i - 1];
        if x < y {
            assert(p(x as int));
            assert(t.contains(x));
            let m = choose|m: int| 0 <= m < t.len() && t[m] == x;
            if m >= i - 1 {
                if m > i - 1 {
                    assert(t[i - 1] < t[m]);
                }
            } else {
                assert(s[m] == t[m]);
                assert(s[m] < s[i - 1]);
            }
        } else if y < x {
            assert(p(y as int));
            assert(s.contains(y));
            let m = choose|m: int| 0 <= m < s.len() && s[m] == y;
            if m >= i - 1 {
                if m > i - 1 {
                    assert(s[i - 1] < s[m]);
                }
            } else {
                assert(s[m] == t[m]);
                assert(t[m] < t[i - 1]);
            }
        }
    }
}

/// An exact selection is unique: two sequences that both list, in
/// increasing order, exactly the positions below `n` at which `p` holds are
/// the same.
pub proof fn law_selection_unique(s: Seq<usize>, t: Seq<usize>, n: int, p: spec_fn(int) -> bool)
    requires
        selects_exactly(s, n, p),
        selects_exactly(t, n, p),
    ensures
        s == t,
{
    if s.len() <= t.len() {
        lemma_selection_prefix(s, t, n, p, s.len() as int);
        if s.len() < t.len() {
            let y = t[s.len() as int];
            assert(p(y as int));
            assert(s.contains(y));
            let m = choose|m: int| 0 <= m < s.len() && s[m] == y;
            assert(t[m] == s[m]);
            assert(t[m] < t[s.len() as int]);
        }
    } else {
        lemma_selection_prefix(s, t, n, p, t.len() as int);
        let x = s[t.len() as int];
        assert(p(x as int));
        assert(t.contains(x));
        let m = choose|m: int| 0 <= m < t.len() && t[m] == x;
        assert(s[m] == t[m]);
        assert(s[m] < s[t.len() as int]);
    }
    assert(s =~= t);
}

/// The positions of `s`, each moved `d` places on.
pub open spec fn shifted(s: Seq<usize>, d: int) -> Seq<usize> {
    s.map_values(|x: usize| (x + d) as usize)
}

/// Filtering two lists one after the other gives the first list's result
/// followed by the second's, whose positions follow on from the first
/// list's.
pub proof fn law_filter_concatenation(
    a: Seq<City>,
    b: Seq<City>,
    filter: Filter,
    sa: Seq<usize>,
    sb: Seq<usize>,
    s: Seq<usize>,
)
    requires
        a.len() + b.len() <= usize::MAX,
        selects_exactly(sa, a.len() as int, |i: int| city_matches(a[i], filter)),
        selects_exactly(sb, b.len() as int, |i: int| city_matches(b[i], filter)),
        selects_exactly(s, (a + b).len() as int, |i: int| city_matches((a + b)[i], filter)),
    ensures
        s == sa + shifted(sb, a.len() as int),
{
    let n = a.len() as int;
    let ab = a + b;
    let p = |i: int| city_matches(ab[i], filter);
    let pa = |i: int| city_matches(a[i], filter);
    let pb = |i: int| city_matches(b[i], filter);
    let t = sa + shifted(sb, n);
    assert forall|k: int| 0 <= k < t.len() implies 0 <= #[trigger] t[k] < ab.len() && p(
        t[k] as int,
    ) by {
        if k < sa.len() {
            assert(pa(sa[k] as int));
        } else {
            let x = sb[k - sa.len()];
            assert(pb(x as int));
            assert(t[k] == x + n);
            assert(ab[x + n] == b[x as int]);
        }
    }
    assert forall|i: int, j: int| 0 <= i < j < t.len() implies t[i] < t[j] by {
        if j < sa.len() {
        } else if i < sa.len() {
            assert(sa[i] < n);
        } else {
            assert(sb[i - sa.len()] < sb[j - sa.len()]);
        }
    }
    assert forall|i: int| 0 <= i < ab.len() && #[trigger] p(i) implies t.contains(i as usize) by {
        if i < n {
            assert(pa(i));
            let k = choose|k: int| 0 <= k < sa.len() && sa[k] == i as usize;
            assert(t[k] == i as usize);
        } else {
            assert(ab[i] == b[i - n]);
            assert(pb(i - n));
            assert(sb.contains((i - n) as usize));
            let k = choose|k: int| 0 <= k < sb.len() && sb[k] == (i - n) as usize;
            assert(t[sa.len() + k] == i as usize);
        }
    }
    law_selection_unique(s, t, ab.len() as int, p);
}

/// Filtering the cities that a filter kept with the same filter again keeps
/// them all.
pub proof fn law_filter_again_keeps_all(
    cities: Seq<City>,
    filter: Filter,
    sel: Seq<usize>,
    again: Seq<usize>,
)
    requires
        selects_exactly(sel, cities.len() as int, |i: int| city_matches(cities[i], filter)),
        selects_exactly(
            again,
            sel.len() as int,
            |k: int| city_matches(cities[sel[k] as int], filter),
        ),
        sel.len() <= usize::MAX,
    ensures
        again == Seq::new(sel.len(), |k: int| k as usize),
{
    let p = |k: int| city_matches(cities[sel[k] as int], filter);
    let all = Seq::new(sel.len(), |k: int| k as usize);
    assert forall|k: int| 0 <= k < all.len() implies 0 <= #[trigger] all[k] < sel.len() && p(
        all[k] as int,
    ) by {
        assert(city_matches(cities[sel[k] as int], filter));
    }
    assert forall|i: int| 0 <= i < sel.len() && #[trigger] p(i) implies all.contains(i as usize) by {
        assert(all[i] == i as usize);
    }
    law_selection_unique(again, all, sel.len() as int, p);
}

/// Removing a city that a filter rejects (such as a city without a state
/// code, from a state filter) changes nothing of the result but the
/// positions after it, each one less.
pub proof fn law_filter_ignores_rejected_city(
    cities: Seq<City>,
    filter: Filter,
    r: int,
    sel: Seq<usize>,
    after: Seq<usize>,
)
    requires
        0 <= r < cities.len(),
        cities.len() <= usize::MAX,
        !city_matches(cities[r], filter),
        selects_exactly(sel, cities.len() as int, |i: int| city_matches(cities[i], filter)),
        selects_exactly(
            after,
            cities.len() - 1,
            |i: int| city_matches(cities.remove(r)[i], filter),
        ),
    ensures
        after == sel.map_values(|x: usize| if x < r { x } else { (x - 1) as usize }),
{
    let rest = cities.remove(r);
    cities.remove_ensures(r);
    let p = |i: int| city_matches(rest[i], filter);
    let q = |i: int| city_matches(cities[i], filter);
    let t = sel.map_values(|x: usize| if x < r { x } else { (x - 1) as usize });
    assert forall|k: int| 0 <= k < t.len() implies 0 <= #[trigger] t[k] < rest.len() && p(
        t[k] as int,
    ) by {
        let x = sel[k];
        assert(q(x as int));
        if x > r {
            assert(rest[x - 1] == cities[x as int]);
        } else {
            assert(x != r);
            assert(rest[x as int] == cities[x as int]);
        }
    }
    assert forall|i: int, j: int| 0 <= i < j < t.len() implies t[i] < t[j] by {
        assert(sel[i] < sel[j]);
        assert(q(sel[i] as int));
        assert(q(sel[j] as int));
    }
    assert forall|i: int| 0 <= i < rest.len() && #[trigger] p(i) implies t.contains(i as usize) by {
        let x = if i < r { i } else { i + 1 };
        assert(rest[i] == cities[x]);
        assert(q(x));
        assert(sel.contains(x as usize));
        let k = choose|k: int| 0 <= k < sel.len() && sel[k] == x as usize;
        assert(t[k] == i as usize);
    }
    law_selection_unique(after, t, rest.len() as int, p);
}

/// A country has one first most populous city.
pub proof fn law_first_largest_unique(cities: Seq<City>, country: Seq<char>, k: int, m: int)
    requires
        is_first_largest(cities, country, k),
        is_first_largest(cities, country, m),
    ensures
        k == m,
{
    assert(in_country(cities[k], country));
    assert(in_country(cities[m], country));
}

/// Adding cities of other countries after a list changes neither whether a
/// country has cities in it nor which is its first most populous city.
pub proof fn law_largest_ignores_other_countries(
    a: Seq<City>,
    b: Seq<City>,
    country: Seq<char>,
    k: int,
)
    requires
        forall|j: int| 0 <= j < b.len() ==> !#[trigger] in_country(b[j], country),
    ensures
        no_city_in(a + b, country) == no_city_in(a, country),
        is_first_largest(a + b, country, k) == is_first_largest(a, country, k),
{
    let ab = a + b;
    assert forall|j: int| 0 <= j < a.len() implies #[trigger] ab[j] == a[j] by {}
    assert forall|j: int| a.len() <= j < ab.len() implies !#[trigger] in_country(ab[j], country) by {
        assert(ab[j] == b[j - a.len()]);
        assert(!in_country(b[j - a.len()], country));
    }
    if no_city_in(a, country) {
        assert forall|j: int| 0 <= j < ab.len() implies !#[trigger] in_country(ab[j], country) by {
            if j < a.len() {
                assert(!in_country(a[j], country));
            }
        }
    }
    if no_city_in(ab, country) {
        assert forall|j: int| 0 <= j < a.len() implies !#[trigger] in_country(a[j], country) by {
            assert(!in_country(ab[j], country));
        }
    }
    if is_first_largest(a, country, k) {
        assert forall|j: int| 0 <= j < ab.len() && #[trigger] in_country(ab[j], country) implies {
            &&& ab[j].fields.population <= ab[k].fields.population
            &&& j < k ==> ab[j].fields.population < ab[k].fields.population
        } by {
            assert(j < a.len());
            assert(in_country(a[j], country));
        }
    }
    if is_first_largest(ab, country, k) {
        assert(k < a.len());
        assert forall|j: int| 0 <= j < a.len() && #[trigger] in_country(a[j], country) implies {
            &&& a[j].fields.population <= a[k].fields.population
            &&& j < k ==> a[j].fields.population < a[k].fields.population
        } by {
            assert(in_country(ab[j], country));
        }
    }
}


/// A state filter keeps a city exactly when the city has a state code equal
/// to the filter's value: a city without one, or with another one, is
/// rejected whatever its country code or time zone.
pub proof fn law_admin1_filter(city: City, v: String)
    ensures
        city_matches(city, Filter::Admin1Code(v)) <==> (city.fields.admin1_code is Some
            && city.fields.admin1_code->0@ == v@),
{
}

/// Whether a city passes a state filter depends on its state code alone:
/// two cities with equal state codes get the same verdict.
pub proof fn law_admin1_filter_reads_state_only(a: City, b: City, v: String)
    requires
        a.fields.admin1_code is Some <==> b.fields.admin1_code is Some,
        a.fields.admin1_code is Some ==> a.fields.admin1_code->0@ == b.fields.admin1_code->0@,
    ensures
        city_matches(a, Filter::Admin1Code(v)) == city_matches(b, Filter::Admin1Code(v)),
{
}

/// Whether a city passes a time zone filter depends on its time zone alone,
/// and it passes exactly when the zone equals the filter's value.
pub proof fn law_time_zone_filter(a: City, b: City, v: String)
    requires
        a.fields.timezone@ == b.fields.timezone@,
    ensures
        city_matches(a, Filter::TimeZone(v)) == city_matches(b, Filter::TimeZone(v)),
        city_matches(a, Filter::TimeZone(v)) <==> a.fields.timezone@ == v@,
{
}

/// Whether a city passes a country filter depends on its country code
/// alone.
pub proof fn law_country_filter_reads_code_only(a: City, b: City, v: String)
    requires
        a.fields.country_code@ == b.fields.country_code@,
    ensures
        city_matches(a, Filter::CountryCode(v)) == city_matches(b, Filter::CountryCode(v)),
{
}

} // verus!
