//! Rebuilding the template of a matched route from the request's path and what
//! the route captured.

use vstd::prelude::*;

use crate::order::{order_by, Descending};
use crate::text::chars_of;

verus! {

/// Whether the router ends a segment at this character.
pub open spec fn separates(c: char) -> bool {
    c == '/' || c == '.'
}

/// Whether `value` stands in `path` at `at` between separators of the router, or
/// between one and an end of the path. A capture never stands otherwise.
pub open spec fn stands_apart(path: Seq<char>, value: Seq<char>, at: int) -> bool {
    &&& 0 <= at <= path.len() - value.len()
    &&& path.subrange(at, at + value.len()) == value
    &&& at == 0 || separates(path[at - 1])
    &&& at + value.len() == path.len() || separates(path[at + value.len()])
}

/// A stretch of a path that a name has taken.
pub struct Place {
    pub at: int,
    pub len: int,
    pub name: Seq<char>,
}

/// Whether the stretch of `len` characters at `at` overlaps with this place.
pub open spec fn overlaps(place: Place, at: int, len: int) -> bool {
    at < place.at + place.len && place.at < at + len
}

/// Whether no name has taken any of the `len` characters at `at`.
pub open spec fn free(taken: Seq<Place>, at: int, len: int) -> bool {
    forall|i: int| 0 <= i < taken.len() ==> !overlaps(#[trigger] taken[i], at, len)
}

/// Whether `at` is where a value was captured, as far as the path tells: the last
/// place where it stands apart and that no other name has taken.
pub open spec fn lands(path: Seq<char>, value: Seq<char>, taken: Seq<Place>, at: int) -> bool {
    &&& stands_apart(path, value, at)
    &&& free(taken, at, value.len() as int)
    &&& forall|later: int|
        at < later && #[trigger] stands_apart(path, value, later) ==> !free(
            taken,
            later,
            value.len() as int,
        )
}

/// The places that the names take in the path, one after the other. A name whose
/// value is empty, or stands apart nowhere that is free, takes none.
pub open spec fn places(path: Seq<char>, pairs: Seq<(Seq<char>, Seq<char>)>) -> Seq<Place>
    decreases pairs.len(),
{
    if pairs.len() == 0 {
        Seq::empty()
    } else {
        let taken = places(path, pairs.drop_last());
        let (name, value) = pairs.last();
        if value.len() > 0 && exists|at: int| lands(path, value, taken, at) {
            let at = choose|at: int| lands(path, value, taken, at);
            taken.push(Place { at, len: value.len() as int, name })
        } else {
            taken
        }
    }
}

/// Whether the place with this index begins at `at`.
pub open spec fn begins(taken: Seq<Place>, i: int, at: int) -> bool {
    0 <= i < taken.len() && taken[i].at == at && taken[i].len > 0
}

/// The path from `from` on, with every place read as its name behind a colon, and
/// all else as it is.
pub open spec fn rewritten(path: Seq<char>, taken: Seq<Place>, from: int) -> Seq<char>
    decreases
            if from < path.len() {
                path.len() - from
            } else {
                0
            },
{
    if from >= path.len() {
        Seq::empty()
    } else if exists|i: int| begins(taken, i, from) {
        let place = taken[choose|i: int| begins(taken, i, from)];
        ":"@ + place.name + rewritten(path, taken, from + place.len)
    } else {
        seq![path[from]] + rewritten(path, taken, from + 1)
    }
}

/// A path with the captured values put back out: each at its place, which is
/// looked up in the path itself.
pub open spec fn substituted(path: Seq<char>, pairs: Seq<(Seq<char>, Seq<char>)>) -> Seq<char> {
    rewritten(path, places(path, pairs), 0)
}

/// The views of a list of names and values.
pub open spec fn pair_texts(pairs: Seq<(String, String)>) -> Seq<(Seq<char>, Seq<char>)> {
    pairs.map_values(|p: (String, String)| (p.0@, p.1@))
}

/// A stretch of a path that a name has taken.
struct Taken {
    at: usize,
    len: usize,
    name: String,
}

impl View for Taken {
    type V = Place;

    closed spec fn view(&self) -> Place {
        Place { at: self.at as int, len: self.len as int, name: self.name@ }
    }
}

/// The views of the stretches taken.
spec fn taken_places(taken: Seq<Taken>) -> Seq<Place> {
    taken.map_values(|t: Taken| t@)
}

/// A value lands in one place.
proof fn lemma_lands_once(path: Seq<char>, value: Seq<char>, taken: Seq<Place>, a: int, b: int)
    requires
        lands(path, value, taken, a),
        lands(path, value, taken, b),
    ensures
        a == b,
{
}

/// No two places overlap, and each lies within the path.
pub open spec fn disjoint(taken: Seq<Place>, len: int) -> bool {
    &&& forall|i: int|
        0 <= i < taken.len() ==> {
            let place = #[trigger] taken[i];
            0 <= place.at && 0 < place.len && place.at + place.len <= len
        }
    &&& forall|i: int, j: int|
        #![trigger taken[i], taken[j]]
        0 <= i < j < taken.len() ==> !overlaps(taken[i], taken[j].at, taken[j].len)
}

/// The places that names take do not overlap and lie within the path.
pub proof fn lemma_places_disjoint(path: Seq<char>, pairs: Seq<(Seq<char>, Seq<char>)>)
    ensures
        disjoint(places(path, pairs), path.len() as int),
    decreases pairs.len(),
{
    if pairs.len() > 0 {
        lemma_places_disjoint(path, pairs.drop_last());
    }
}

/// Whether the router ends a segment at this character.
fn is_separator(c: char) -> (found: bool)
    ensures
        found == separates(c),
{
    c == '/' || c == '.'
}

/// Whether `value` stands in `path` at `at` between separators.
fn is_apart(path: &Vec<char>, value: &Vec<char>, at: usize) -> (found: bool)
    requires
        at <= path.len(),
        value.len() <= path.len() - at,
    ensures
        found == stands_apart(path@, value@, at as int),
{
    if at > 0 && !is_separator(path[at - 1]) {
        return false;
    }
    let end: usize = at + value.len();
    if end < path.len() && !is_separator(path[end]) {
        return false;
    }
    let ghost here = path@.subrange(at as int, end as int);
    let mut i: usize = 0;
    while i < value.len()
        invariant
            i <= value.len(),
            end == at + value.len(),
            end <= path.len(),
            here == path@.subrange(at as int, end as int),
            forall|k: int| 0 <= k < i ==> here[k] == value@[k],
        decreases value.len() - i,
    {
        if path[at + i] != value[i] {
            assert(here[i as int] != value@[i as int]);
            return false;
        }
        i = i + 1;
    }
    assert(here =~= value@);
    true
}

/// Whether no name has taken any of the `len` characters at `at`.
fn is_free(taken: &Vec<Taken>, at: usize, len: usize) -> (found: bool)
    requires
        at + len <= usize::MAX,
        forall|i: int|
            0 <= i < taken.len() ==> (#[trigger] taken@[i]).at + taken@[i].len <= usize::MAX,
    ensures
        found == free(taken_places(taken@), at as int, len as int),
{
    let ghost all = taken_places(taken@);
    let mut i: usize = 0;
    while i < taken.len()
        invariant
            i <= taken.len(),
            all == taken_places(taken@),
            at + len <= usize::MAX,
            forall|i: int|
                0 <= i < taken.len() ==> (#[trigger] taken@[i]).at + taken@[i].len <= usize::MAX,
            forall|k: int| 0 <= k < i ==> !overlaps(#[trigger] all[k], at as int, len as int),
        decreases taken.len() - i,
    {
        let place: &Taken = &taken[i];
        if at < place.at + place.len && place.at < at + len {
            assert(overlaps(all[i as int], at as int, len as int));
            return false;
        }
        i = i + 1;
    }
    true
}

/// The last place where a value stands apart and that no name has taken.
fn find_place(path: &Vec<char>, value: &Vec<char>, taken: &Vec<Taken>) -> (found: Option<usize>)
    requires
        value.len() > 0,
        forall|i: int|
            0 <= i < taken.len() ==> (#[trigger] taken@[i]).at + taken@[i].len <= usize::MAX,
    ensures
        match found {
            Some(at) => at + value.len() <= path.len() && lands(
                path@,
                value@,
                taken_places(taken@),
                at as int,
            ),
            None => forall|at: int| !lands(path@, value@, taken_places(taken@), at),
        },
{
    if path.len() < value.len() {
        return None;
    }
    let ghost all = taken_places(taken@);
    let mut end: usize = path.len() - value.len() + 1;
    while end > 0
        invariant
            value.len() > 0,
            end <= path.len() - value.len() + 1,
            all == taken_places(taken@),
            forall|i: int|
                0 <= i < taken.len() ==> (#[trigger] taken@[i]).at + taken@[i].len <= usize::MAX,
            forall|later: int|
                end <= later && #[trigger] stands_apart(path@, value@, later) ==> !free(
                    all,
                    later,
                    value@.len() as int,
                ),
        decreases end,
    {
        let at: usize = end - 1;
        if is_apart(path, value, at) && is_free(taken, at, value.len()) {
            return Some(at);
        }
        end = at;
    }
    None
}

/// Finds the places that the names take, in the order given.
fn find_places(path: &Vec<char>, pairs: &Vec<(String, String)>) -> (taken: Vec<Taken>)
    ensures
        taken_places(taken@) == places(path@, pair_texts(pairs@)),
{
    let ghost all = pair_texts(pairs@);
    let mut taken: Vec<Taken> = Vec::new();
    let mut i: usize = 0;
    assert(taken_places(taken@) =~= places(path@, all.take(0)));
    while i < pairs.len()
        invariant
            i <= pairs.len(),
            all == pair_texts(pairs@),
            taken_places(taken@) == places(path@, all.take(i as int)),
            forall|k: int|
                0 <= k < taken.len() ==> (#[trigger] taken@[k]).at + taken@[k].len <= usize::MAX,
        decreases pairs.len() - i,
    {
        let ghost before = taken_places(taken@);
        let value: Vec<char> = chars_of(pairs[i].1.as_str());
        assert(all.take(i + 1).drop_last() =~= all.take(i as int));
        assert(all.take(i + 1).last() == (pairs@[i as int].0@, value@));
        if value.len() > 0 {
            match find_place(path, &value, &taken) {
                Some(at) => {
                    let name: String = pairs[i].0.clone();
                    taken.push(Taken { at, len: value.len(), name });
                    proof {
                        let chosen = choose|at: int| lands(path@, value@, before, at);
                        lemma_lands_once(path@, value@, before, chosen, at as int);
                        assert(taken_places(taken@) =~= places(path@, all.take(i + 1)));
                    }
                },
                None => {
                    assert(taken_places(taken@) =~= places(path@, all.take(i + 1)));
                },
            }
        }
        i = i + 1;
    }
    assert(all.take(i as int) =~= all);
    taken
}

/// Which of the places begins at `at`.
fn place_at(taken: &Vec<Taken>, at: usize) -> (found: Option<usize>)
    ensures
        match found {
            Some(i) => begins(taken_places(taken@), i as int, at as int),
            None => forall|i: int| !begins(taken_places(taken@), i, at as int),
        },
{
    let ghost all = taken_places(taken@);
    let mut i: usize = 0;
    while i < taken.len()
        invariant
            i <= taken.len(),
            all == taken_places(taken@),
            forall|k: int| k < i ==> !#[trigger] begins(all, k, at as int),
        decreases taken.len() - i,
    {
        if taken[i].at == at && taken[i].len > 0 {
            return Some(i);
        }
        i = i + 1;
    }
    None
}

/// Reads every place as its name behind a colon.
fn rewrite(path: &str, taken: &Vec<Taken>) -> (route: String)
    requires
        disjoint(taken_places(taken@), path@.len() as int),
    ensures
        route@ == rewritten(path@, taken_places(taken@), 0),
{
    let ghost all = taken_places(taken@);
    let len: usize = chars_of(path).len();
    let mut route: String = String::new();
    let mut from: usize = 0;
    assert(route@ + rewritten(path@, all, 0) =~= rewritten(path@, all, 0));
    while from < len
        invariant
            len == path@.len(),
            from <= len,
            all == taken_places(taken@),
            disjoint(all, path@.len() as int),
            route@ + rewritten(path@, all, from as int) == rewritten(path@, all, 0),
        decreases len - from,
    {
        let ghost before = route@;
        match place_at(taken, from) {
            Some(i) => {
                let place: &Taken = &taken[i];
                assert(all[i as int] == place@);
                proof {
                    let chosen = choose|i: int| begins(all, i, from as int);
                    assert(begins(all, chosen, from as int));
                    if chosen < i {
                        assert(overlaps(all[chosen], all[i as int].at, all[i as int].len));
                    } else if i < chosen {
                        assert(overlaps(all[i as int], all[chosen].at, all[chosen].len));
                    }
                }
                route.append(":");
                route.append(place.name.as_str());
                from = from + place.len;
                assert(route@ + rewritten(path@, all, from as int) =~= before + (":"@ + place.name@
                    + rewritten(path@, all, from as int)));
            },
            None => {
                route.append(path.substring_char(from, from + 1));
                assert(path@.subrange(from as int, from + 1) =~= seq![path@[from as int]]);
                from = from + 1;
                assert(route@ + rewritten(path@, all, from as int) =~= before + (seq![path@[from
                    - 1]] + rewritten(path@, all, from as int)));
            },
        }
    }
    assert(rewritten(path@, all, from as int) =~= Seq::empty());
    assert(route@ =~= route@ + rewritten(path@, all, from as int));
    route
}

/// Puts captured values, which take their places in the order given, back out of
/// a matched path.
pub fn substitute(path: &str, pairs: &Vec<(String, String)>) -> (route: String)
    ensures
        route@ == substituted(path@, pair_texts(pairs@)),
{
    let chars: Vec<char> = chars_of(path);
    let taken: Vec<Taken> = find_places(&chars, pairs);
    proof {
        lemma_places_disjoint(path@, pair_texts(pairs@));
    }
    rewrite(path, &taken)
}

#[verifier::external_type_specification]
#[verifier::external_body]
pub struct ExParams(route_recognizer::Params);

/// The values that a matched route captured, by name.
pub uninterp spec fn captured(params: route_recognizer::Params) -> Map<Seq<char>, Seq<char>>;

/// Whether `pairs` holds the entries and nothing else.
pub open spec fn holds_entries(
    pairs: Seq<(Seq<char>, Seq<char>)>,
    entries: Map<Seq<char>, Seq<char>>,
) -> bool {
    &&& forall|i: int|
        0 <= i < pairs.len() ==> #[trigger] entries.contains_pair(pairs[i].0, pairs[i].1)
    &&& forall|name: Seq<char>| #[trigger]
        entries.contains_key(name) ==> exists|i: int|
            0 <= i < pairs.len() && #[trigger] pairs[i].0 == name
}

/// Whether `pairs` holds each entry of `entries` once, in the order of the names.
pub open spec fn lists_in_order(
    pairs: Seq<(Seq<char>, Seq<char>)>,
    entries: Map<Seq<char>, Seq<char>>,
) -> bool {
    &&& forall|i: int, j: int|
        0 <= i < j < pairs.len() ==> crate::text::text_lt(pairs[i].0, pairs[j].0)
    &&& holds_entries(pairs, entries)
}

/// `route_recognizer::Params::iter`, with the borrowed names and values copied
/// out. `Params` keeps its entries in a `BTreeMap` from name to value, and the
/// iterator walks that map: each entry comes once, in the order of the names.
#[verifier::external_body]
fn captured_pairs(params: &route_recognizer::Params) -> (pairs: Vec<(String, String)>)
    ensures
        lists_in_order(pair_texts(pairs@), captured(*params)),
{
    params.iter().map(|(name, value)| (name.to_string(), value.to_string())).collect()
}

/// Whether one name takes its place before another: that of the longer value, so
/// that no value takes a piece of another, and among values of one length the
/// one that sorts first.
pub open spec fn goes_first(a: (Seq<char>, Seq<char>), b: (Seq<char>, Seq<char>)) -> bool {
    a.1.len() > b.1.len() || a.1.len() == b.1.len() && crate::text::text_lt(a.0, b.0)
}

/// Whether `pairs` holds each entry of `entries` once, in the order in which the
/// names take their places.
pub open spec fn lists_in_turn(
    pairs: Seq<(Seq<char>, Seq<char>)>,
    entries: Map<Seq<char>, Seq<char>>,
) -> bool {
    &&& forall|i: int, j: int|
        #![trigger pairs[i], pairs[j]]
        0 <= i < j < pairs.len() ==> goes_first(pairs[i], pairs[j])
    &&& holds_entries(pairs, entries)
}

/// The keys that put longer values first.
pub open spec fn length_keys(pairs: Seq<(Seq<char>, Seq<char>)>) -> Seq<Descending> {
    pairs.map_values(|p: (Seq<char>, Seq<char>)| Descending(p.1.len() as u64))
}

/// Puts the pairs with longer values first, and leaves those of one length in
/// their order.
fn longest_first(pairs: &Vec<(String, String)>) -> (sorted: Vec<(String, String)>)
    ensures
        exists|order: Seq<usize>| #[trigger]
            crate::order::stable_order(length_keys(pair_texts(pairs@)), order) && pair_texts(sorted@)
                == order.map_values(|i: usize| pair_texts(pairs@)[i as int]),
        forall|i: int|
            0 <= i < pairs.len() ==> (#[trigger] pair_texts(pairs@)[i]).1.len() <= usize::MAX,
{
    let ghost all = pair_texts(pairs@);
    let mut keys: Vec<Descending> = Vec::new();
    let mut i: usize = 0;
    while i < pairs.len()
        invariant
            i <= pairs.len(),
            all == pair_texts(pairs@),
            keys@ == length_keys(all).take(i as int),
            forall|k: int| 0 <= k < i ==> (#[trigger] all[k]).1.len() <= usize::MAX,
        decreases pairs.len() - i,
    {
        let value: Vec<char> = chars_of(pairs[i].1.as_str());
        keys.push(Descending(value.len() as u64));
        assert(all[i as int].1 == value@);
        assert(keys@ =~= length_keys(all).take(i + 1));
        i = i + 1;
    }
    assert(keys@ =~= length_keys(all));
    let order: Vec<usize> = order_by(&keys);
    let ghost wanted = order@.map_values(|i: usize| all[i as int]);
    let mut sorted: Vec<(String, String)> = Vec::new();
    let mut k: usize = 0;
    while k < order.len()
        invariant
            k <= order.len(),
            all == pair_texts(pairs@),
            keys@ == length_keys(all),
            crate::order::stable_order(keys@, order@),
            wanted == order@.map_values(|i: usize| all[i as int]),
            pair_texts(sorted@) == wanted.take(k as int),
        decreases order.len() - k,
    {
        let at: usize = order[k];
        let name: String = pairs[at].0.clone();
        let value: String = pairs[at].1.clone();
        let ghost before = pair_texts(sorted@);
        sorted.push((name, value));
        assert(pair_texts(sorted@) =~= before.push((name@, value@)));
        assert(wanted.take(k + 1) =~= wanted.take(k as int).push(wanted[k as int]));
        k = k + 1;
    }
    assert(pair_texts(sorted@) =~= wanted);
    sorted
}

/// Entries listed by name, put longest first, are listed in turn.
proof fn lemma_longest_first(
    pairs: Seq<(Seq<char>, Seq<char>)>,
    order: Seq<usize>,
    entries: Map<Seq<char>, Seq<char>>,
)
    requires
        lists_in_order(pairs, entries),
        crate::order::stable_order(length_keys(pairs), order),
        pairs.len() <= usize::MAX,
        forall|i: int| 0 <= i < pairs.len() ==> (#[trigger] pairs[i]).1.len() <= usize::MAX,
    ensures
        lists_in_turn(order.map_values(|i: usize| pairs[i as int]), entries),
{
    let sorted = order.map_values(|i: usize| pairs[i as int]);
    let keys = length_keys(pairs);
    assert forall|i: int, j: int|
        #![trigger sorted[i], sorted[j]]
        0 <= i < j < sorted.len() implies goes_first(sorted[i], sorted[j]) by {
        let x = order[i] as int;
        let y = order[j] as int;
        assert(crate::order::precedes(keys, x, y));
        assert(keys[x] == Descending(pairs[x].1.len() as u64));
        assert(keys[y] == Descending(pairs[y].1.len() as u64));
        if x < y {
            assert(crate::text::text_lt(pairs[x].0, pairs[y].0));
        }
    }
    assert forall|i: int| 0 <= i < sorted.len() implies #[trigger] entries.contains_pair(
        sorted[i].0,
        sorted[i].1,
    ) by {
        let x = order[i] as int;
        assert(entries.contains_pair(pairs[x].0, pairs[x].1));
    }
    assert forall|name: Seq<char>| #[trigger] entries.contains_key(name) implies exists|i: int|
        0 <= i < sorted.len() && #[trigger] sorted[i].0 == name by {
        let x = choose|x: int| 0 <= x < pairs.len() && #[trigger] pairs[x].0 == name;
        assert(order.contains(x as usize));
        let i = choose|i: int| 0 <= i < order.len() && order[i] == x as usize;
        assert(sorted[i].0 == name);
    }
}

/// Rebuilds a route template from a matched path and its captured params, by
/// putting each captured value back out. The router hands over the params but
/// not the pattern they came from, so each value is taken to stand at the last
/// place in the path where it stands between separators and that no longer value
/// has taken.
pub fn normalize_inbound(path: &str, params: &route_recognizer::Params) -> (route: String)
    ensures
        exists|pairs: Seq<(Seq<char>, Seq<char>)>| #[trigger]
            lists_in_turn(pairs, captured(*params)) && route@ == substituted(path@, pairs),
{
    let listed: Vec<(String, String)> = captured_pairs(params);
    let pairs: Vec<(String, String)> = longest_first(&listed);
    proof {
        let all = pair_texts(listed@);
        let order = choose|order: Seq<usize>| #[trigger]
            crate::order::stable_order(length_keys(all), order) && pair_texts(pairs@)
                == order.map_values(|i: usize| all[i as int]);
        lemma_longest_first(all, order, captured(*params));
    }
    substitute(path, &pairs)
}

/// Of two names one goes first, and not both.
proof fn lemma_goes_first_once(a: (Seq<char>, Seq<char>), b: (Seq<char>, Seq<char>))
    requires
        goes_first(a, b),
    ensures
        !goes_first(b, a),
        a != b,
{
    if goes_first(b, a) {
        crate::text::lemma_text_antisymmetric(a.0, b.0);
    }
}

/// The order in which the captured names take their places is fixed: two listings
/// of the same entries are the same listing, so a template depends on nothing
/// but the path and what the route captured.
pub proof fn lemma_listing_unique(
    a: Seq<(Seq<char>, Seq<char>)>,
    b: Seq<(Seq<char>, Seq<char>)>,
    entries: Map<Seq<char>, Seq<char>>,
)
    requires
        lists_in_turn(a, entries),
        lists_in_turn(b, entries),
    ensures
        a == b,
    decreases a.len(),
{
    if a.len() == 0 {
        if b.len() > 0 {
            assert(entries.contains_pair(b[0].0, b[0].1));
            assert(entries.contains_key(b[0].0));
        }
        assert(a =~= b);
    } else {
        let x = a[a.len() - 1];
        assert(entries.contains_pair(x.0, x.1));
        assert(entries.contains_key(x.0));
        let j = choose|j: int| 0 <= j < b.len() && #[trigger] b[j].0 == x.0;
        assert(entries.contains_pair(b[j].0, b[j].1));
        assert(b[j] == x);
        let y = b[b.len() - 1];
        assert(entries.contains_pair(y.0, y.1));
        assert(entries.contains_key(y.0));
        let i = choose|i: int| 0 <= i < a.len() && #[trigger] a[i].0 == y.0;
        assert(entries.contains_pair(a[i].0, a[i].1));
        assert(a[i] == y);
        if x != y {
            assert(goes_first(a[i], a[a.len() - 1]));
            assert(goes_first(b[j], b[b.len() - 1]));
            lemma_goes_first_once(x, y);
        }
        let rest = entries.remove(x.0);
        lemma_listing_front(a, entries);
        lemma_listing_front(b, entries);
        lemma_listing_unique(a.drop_last(), b.drop_last(), rest);
        assert(a =~= a.drop_last().push(x));
        assert(b =~= b.drop_last().push(x));
    }
}

/// A listing without its last entry lists the map without that entry.
proof fn lemma_listing_front(
    pairs: Seq<(Seq<char>, Seq<char>)>,
    entries: Map<Seq<char>, Seq<char>>,
)
    requires
        lists_in_turn(pairs, entries),
        pairs.len() > 0,
    ensures
        lists_in_turn(pairs.drop_last(), entries.remove(pairs.last().0)),
{
    let front = pairs.drop_last();
    let last = pairs[pairs.len() - 1];
    let rest = entries.remove(last.0);
    assert(entries.contains_pair(last.0, last.1));
    assert forall|i: int, j: int|
        #![trigger front[i], front[j]]
        0 <= i < j < front.len() implies goes_first(front[i], front[j]) by {
        assert(goes_first(pairs[i], pairs[j]));
    }
    assert forall|i: int| 0 <= i < front.len() implies #[trigger] rest.contains_pair(
        front[i].0,
        front[i].1,
    ) by {
        assert(entries.contains_pair(pairs[i].0, pairs[i].1));
        assert(goes_first(pairs[i], last));
    }
    assert forall|name: Seq<char>| #[trigger] rest.contains_key(name) implies exists|i: int|
        0 <= i < front.len() && #[trigger] front[i].0 == name by {
        assert(entries.contains_key(name));
        let i = choose|i: int| 0 <= i < pairs.len() && #[trigger] pairs[i].0 == name;
        assert(front[i].0 == name);
    }
}

/// What a part of a route holds behind its separator.
pub enum Body {
    Literal(Seq<char>),
    Captured(Seq<char>),
}

/// A part of a route: a separator, which only the first may lack, and a body.
pub struct Part {
    pub separator: Option<char>,
    pub body: Body,
}

/// The text of the separator.
pub open spec fn lead(part: Part) -> Seq<char> {
    match part.separator {
        Some(c) => seq![c],
        None => Seq::empty(),
    }
}

/// What stands for the body in a path.
pub open spec fn content(part: Part, entries: Map<Seq<char>, Seq<char>>) -> Seq<char> {
    match part.body {
        Body::Literal(text) => text,
        Body::Captured(name) => entries[name],
    }
}

/// What stands for the body in the pattern of the route.
pub open spec fn label(part: Part) -> Seq<char> {
    match part.body {
        Body::Literal(text) => text,
        Body::Captured(name) => ":"@ + name,
    }
}

/// The path that a route matches with these values captured.
pub open spec fn filled(parts: Seq<Part>, entries: Map<Seq<char>, Seq<char>>) -> Seq<char>
    decreases parts.len(),
{
    if parts.len() == 0 {
        Seq::empty()
    } else {
        lead(parts[0]) + content(parts[0], entries) + filled(parts.drop_first(), entries)
    }
}

/// The pattern of a route.
pub open spec fn pattern(parts: Seq<Part>) -> Seq<char>
    decreases parts.len(),
{
    if parts.len() == 0 {
        Seq::empty()
    } else {
        lead(parts[0]) + label(parts[0]) + pattern(parts.drop_first())
    }
}

/// Where a part begins in the path.
pub open spec fn offset(parts: Seq<Part>, entries: Map<Seq<char>, Seq<char>>, i: int) -> int
    decreases i,
{
    if i <= 0 {
        0
    } else {
        offset(parts, entries, i - 1) + lead(parts[i - 1]).len() + content(
            parts[i - 1],
            entries,
        ).len()
    }
}

/// Where the body of a part begins in the path.
pub open spec fn start(parts: Seq<Part>, entries: Map<Seq<char>, Seq<char>>, i: int) -> int {
    offset(parts, entries, i) + lead(parts[i]).len()
}

/// Whether these are the parts of a route that captured these values: every part
/// but the first has a separator, no name occurs twice, every name has a
/// value, and every value that is not empty has its name.
pub open spec fn route_captures(parts: Seq<Part>, entries: Map<Seq<char>, Seq<char>>) -> bool {
    &&& forall|i: int|
        0 <= i < parts.len() ==> match (#[trigger] parts[i]).separator {
            Some(c) => separates(c),
            None => i == 0,
        }
    &&& forall|i: int, j: int|
        #![trigger parts[i], parts[j]]
        0 <= i < j < parts.len() && parts[i].body is Captured ==> parts[i].body != parts[j].body
    &&& forall|i: int|
        0 <= i < parts.len() ==> ((#[trigger] parts[i]).body matches Body::Captured(name)
            ==> entries.contains_key(name) && entries[name].len() > 0)
    &&& forall|name: Seq<char>| #[trigger]
        entries.contains_key(name) && entries[name].len() > 0 ==> exists|i: int|
            0 <= i < parts.len() && (#[trigger] parts[i]).body == Body::Captured(name)
}

/// Whether the body of a part, a captured value, can be told from the path: behind
/// its own place it stands apart nowhere but over the place of a name that goes
/// first.
pub open spec fn tells(parts: Seq<Part>, entries: Map<Seq<char>, Seq<char>>, i: int) -> bool {
    let name = parts[i].body->Captured_0;
    let value = entries[name];
    forall|at: int|
        start(parts, entries, i) < at && #[trigger] stands_apart(filled(parts, entries), value, at)
            ==> exists|j: int|
            {
                &&& 0 <= j < parts.len()
                &&& #[trigger] parts[j].body matches Body::Captured(other)
                &&& goes_first((other, entries[other]), (name, value))
                &&& overlaps(place_of(parts, entries, j), at, value.len() as int)
            }
}

/// The place of a captured value.
pub open spec fn place_of(parts: Seq<Part>, entries: Map<Seq<char>, Seq<char>>, i: int) -> Place {
    Place {
        at: start(parts, entries, i),
        len: content(parts[i], entries).len() as int,
        name: parts[i].body->Captured_0,
    }
}

/// A path from a part on is what the parts from there on stand for.
proof fn lemma_offset(parts: Seq<Part>, entries: Map<Seq<char>, Seq<char>>, i: int)
    requires
        0 <= i <= parts.len(),
    ensures
        0 <= offset(parts, entries, i) <= filled(parts, entries).len(),
        filled(parts, entries).skip(offset(parts, entries, i)) == filled(parts.skip(i), entries),
    decreases i,
{
    let path = filled(parts, entries);
    if i == 0 {
        assert(parts.skip(0) =~= parts);
        assert(path.skip(0) =~= path);
    } else {
        lemma_offset(parts, entries, i - 1);
        let rest = parts.skip(i - 1);
        assert(rest.drop_first() =~= parts.skip(i));
        assert(rest[0] == parts[i - 1]);
        let from = offset(parts, entries, i - 1);
        let len = lead(rest[0]).len() + content(rest[0], entries).len();
        assert(path.skip(from).skip(len as int) =~= filled(parts.skip(i), entries));
        assert(path.skip(from).skip(len as int) =~= path.skip(from + len));
    }
}

/// What stands at a part in the path: its separator, its body, and behind it the
/// next part.
proof fn lemma_part(parts: Seq<Part>, entries: Map<Seq<char>, Seq<char>>, i: int)
    requires
        0 <= i < parts.len(),
    ensures
        ({
            let path = filled(parts, entries);
            let from = offset(parts, entries, i);
            let body = start(parts, entries, i);
            let next = offset(parts, entries, i + 1);
            &&& 0 <= from <= body <= next <= path.len()
            &&& body == from + lead(parts[i]).len()
            &&& next == body + content(parts[i], entries).len()
            &&& path.subrange(from, body) == lead(parts[i])
            &&& path.subrange(body, next) == content(parts[i], entries)
            &&& i + 1 == parts.len() ==> next == path.len()
        }),
{
    let path = filled(parts, entries);
    let from = offset(parts, entries, i);
    let body = start(parts, entries, i);
    let next = offset(parts, entries, i + 1);
    lemma_offset(parts, entries, i);
    lemma_offset(parts, entries, i + 1);
    let rest = parts.skip(i);
    assert(rest[0] == parts[i]);
    assert(rest.drop_first() =~= parts.skip(i + 1));
    let here = lead(parts[i]) + content(parts[i], entries) + filled(parts.skip(i + 1), entries);
    assert(path.skip(from) == here);
    assert(path.subrange(from, body) =~= here.subrange(0, body - from));
    assert(here.subrange(0, body - from) =~= lead(parts[i]));
    assert(path.subrange(body, next) =~= here.subrange(body - from, next - from));
    assert(here.subrange(body - from, next - from) =~= content(parts[i], entries));
    if i + 1 == parts.len() {
        assert(filled(parts.skip(i + 1), entries) =~= Seq::empty());
    }
}

/// A part stands behind those before it.
proof fn lemma_offset_grows(parts: Seq<Part>, entries: Map<Seq<char>, Seq<char>>, i: int, j: int)
    requires
        0 <= i <= j <= parts.len(),
    ensures
        offset(parts, entries, i) <= offset(parts, entries, j),
    decreases j - i,
{
    if i < j {
        lemma_offset_grows(parts, entries, i, j - 1);
    }
}

/// The body of a part stands apart in the path.
proof fn lemma_body_stands_apart(parts: Seq<Part>, entries: Map<Seq<char>, Seq<char>>, i: int)
    requires
        route_captures(parts, entries),
        0 <= i < parts.len(),
    ensures
        stands_apart(
            filled(parts, entries),
            content(parts[i], entries),
            start(parts, entries, i),
        ),
{
    let path = filled(parts, entries);
    let from = offset(parts, entries, i);
    let body = start(parts, entries, i);
    let next = offset(parts, entries, i + 1);
    lemma_part(parts, entries, i);
    assert(parts[i].separator is Some || i == 0);
    if parts[i].separator is Some {
        assert(path.subrange(from, body)[0] == path[body - 1]);
        assert(separates(path[body - 1]));
    }
    if i + 1 < parts.len() {
        lemma_part(parts, entries, i + 1);
        assert(parts[i + 1].separator is Some);
        assert(path.subrange(next, start(parts, entries, i + 1))[0] == path[next]);
    }
}

/// The body of a part ends before the parts behind it begin.
proof fn lemma_bodies_apart(parts: Seq<Part>, entries: Map<Seq<char>, Seq<char>>, i: int, j: int)
    requires
        route_captures(parts, entries),
        0 <= i < j < parts.len(),
    ensures
        start(parts, entries, i) + content(parts[i], entries).len() <= offset(parts, entries, j)
            < start(parts, entries, j),
{
    lemma_offset_grows(parts, entries, i + 1, j);
    assert(parts[j].separator is Some);
}

/// The part with this name.
spec fn part_of(parts: Seq<Part>, name: Seq<char>) -> int {
    choose|i: int| 0 <= i < parts.len() && (#[trigger] parts[i]).body == Body::Captured(name)
}

/// One part has a name.
proof fn lemma_part_of(parts: Seq<Part>, entries: Map<Seq<char>, Seq<char>>, i: int)
    requires
        route_captures(parts, entries),
        0 <= i < parts.len(),
        parts[i].body is Captured,
    ensures
        part_of(parts, parts[i].body->Captured_0) == i,
{
    let j = part_of(parts, parts[i].body->Captured_0);
    assert(parts[j].body == parts[i].body);
}

/// Whether a place is that of one of these names, with a value that is not empty.
spec fn is_true_place(
    parts: Seq<Part>,
    entries: Map<Seq<char>, Seq<char>>,
    pairs: Seq<(Seq<char>, Seq<char>)>,
    place: Place,
) -> bool {
    exists|t: int|
        {
            &&& 0 <= t < pairs.len()
            &&& (#[trigger] pairs[t]).1.len() > 0
            &&& place == place_of(parts, entries, part_of(parts, pairs[t].0))
        }
}

/// Whether the places taken are those of these names, where their values are not
/// empty.
spec fn true_places(
    parts: Seq<Part>,
    entries: Map<Seq<char>, Seq<char>>,
    pairs: Seq<(Seq<char>, Seq<char>)>,
    taken: Seq<Place>,
) -> bool {
    &&& forall|p: int|
        0 <= p < taken.len() ==> is_true_place(parts, entries, pairs, #[trigger] taken[p])
    &&& forall|t: int|
        0 <= t < pairs.len() && (#[trigger] pairs[t]).1.len() > 0 ==> taken.contains(
            place_of(parts, entries, part_of(parts, pairs[t].0)),
        )
}

/// One more name keeps the places true, if it takes its own, or has none to take.
proof fn lemma_true_places_step(
    parts: Seq<Part>,
    entries: Map<Seq<char>, Seq<char>>,
    front: Seq<(Seq<char>, Seq<char>)>,
    pair: (Seq<char>, Seq<char>),
    taken: Seq<Place>,
    after: Seq<Place>,
)
    requires
        true_places(parts, entries, front, taken),
        after == if pair.1.len() > 0 {
            taken.push(place_of(parts, entries, part_of(parts, pair.0)))
        } else {
            taken
        },
    ensures
        true_places(parts, entries, front.push(pair), after),
{
    let all = front.push(pair);
    assert forall|p: int| 0 <= p < after.len() implies is_true_place(
        parts,
        entries,
        all,
        #[trigger] after[p],
    ) by {
        if p < taken.len() {
            assert(after[p] == taken[p]);
            assert(is_true_place(parts, entries, front, taken[p]));
            let t = choose|t: int|
                {
                    &&& 0 <= t < front.len()
                    &&& (#[trigger] front[t]).1.len() > 0
                    &&& taken[p] == place_of(parts, entries, part_of(parts, front[t].0))
                };
            assert(all[t] == front[t]);
        } else {
            assert(all[front.len() as int] == pair);
        }
    }
    assert forall|t: int| 0 <= t < all.len() && (#[trigger] all[t]).1.len() > 0 implies after.contains(
        place_of(parts, entries, part_of(parts, all[t].0)),
    ) by {
        let place = place_of(parts, entries, part_of(parts, all[t].0));
        if t < front.len() {
            assert(front[t] == all[t]);
            assert(taken.contains(place));
            let p = choose|p: int| 0 <= p < taken.len() && taken[p] == place;
            assert(after[p] == place);
        } else {
            assert(after[after.len() - 1] == place);
        }
    }
}

/// A name lands at its own place.
proof fn lemma_lands_at_home(
    parts: Seq<Part>,
    entries: Map<Seq<char>, Seq<char>>,
    pairs: Seq<(Seq<char>, Seq<char>)>,
    n: int,
    taken: Seq<Place>,
)
    requires
        route_captures(parts, entries),
        lists_in_turn(pairs, entries),
        0 <= n < pairs.len(),
        pairs[n].1.len() > 0,
        true_places(parts, entries, pairs.take(n), taken),
        0 <= part_of(parts, pairs[n].0) < parts.len(),
        parts[part_of(parts, pairs[n].0)].body == Body::Captured(pairs[n].0),
        entries[pairs[n].0] == pairs[n].1,
        tells(parts, entries, part_of(parts, pairs[n].0)),
    ensures
        lands(
            filled(parts, entries),
            pairs[n].1,
            taken,
            start(parts, entries, part_of(parts, pairs[n].0)),
        ),
{
    let path = filled(parts, entries);
    let front = pairs.take(n);
    let (name, value) = pairs[n];
    let i = part_of(parts, name);
    let at = start(parts, entries, i);
    lemma_body_stands_apart(parts, entries, i);
    assert forall|p: int| 0 <= p < taken.len() implies !overlaps(
        #[trigger] taken[p],
        at,
        value.len() as int,
    ) by {
        assert(is_true_place(parts, entries, front, taken[p]));
        let t = choose|t: int|
            {
                &&& 0 <= t < front.len()
                &&& (#[trigger] front[t]).1.len() > 0
                &&& taken[p] == place_of(parts, entries, part_of(parts, front[t].0))
            };
        assert(front[t] == pairs[t]);
        lemma_names_differ(pairs, entries, t, n);
        assert(entries.contains_pair(pairs[t].0, pairs[t].1));
        assert(entries.contains_key(pairs[t].0) && entries[pairs[t].0].len() > 0);
        let j = part_of(parts, pairs[t].0);
        assert(0 <= j < parts.len() && parts[j].body == Body::Captured(pairs[t].0));
        if i < j {
            lemma_bodies_apart(parts, entries, i, j);
        } else {
            lemma_bodies_apart(parts, entries, j, i);
        }
    }
    assert forall|later: int|
        at < later && #[trigger] stands_apart(path, value, later) implies !free(
        taken,
        later,
        value.len() as int,
    ) by {
        let j = choose|j: int|
            {
                &&& 0 <= j < parts.len()
                &&& #[trigger] parts[j].body matches Body::Captured(other)
                &&& goes_first((other, entries[other]), (name, value))
                &&& overlaps(place_of(parts, entries, j), later, value.len() as int)
            };
        let other = parts[j].body->Captured_0;
        assert(entries.contains_key(other) && entries[other].len() > 0);
        let t = choose|t: int| 0 <= t < pairs.len() && #[trigger] pairs[t].0 == other;
        assert(entries.contains_pair(pairs[t].0, pairs[t].1));
        lemma_goes_first_once(pairs[t], pairs[n]);
        if t > n {
            assert(goes_first(pairs[n], pairs[t]));
        }
        assert(front[t] == pairs[t]);
        lemma_part_of(parts, entries, j);
        let place = place_of(parts, entries, j);
        assert(taken.contains(place));
        let p = choose|p: int| 0 <= p < taken.len() && taken[p] == place;
        assert(overlaps(taken[p], later, value.len() as int));
    }
}

/// Every name takes its own place.
proof fn lemma_true_places(
    parts: Seq<Part>,
    entries: Map<Seq<char>, Seq<char>>,
    pairs: Seq<(Seq<char>, Seq<char>)>,
    n: int,
)
    requires
        route_captures(parts, entries),
        lists_in_turn(pairs, entries),
        forall|i: int|
            0 <= i < parts.len() && (#[trigger] parts[i]).body is Captured ==> tells(
                parts,
                entries,
                i,
            ),
        0 <= n <= pairs.len(),
    ensures
        true_places(
            parts,
            entries,
            pairs.take(n),
            places(filled(parts, entries), pairs.take(n)),
        ),
    decreases n,
{
    let path = filled(parts, entries);
    if n > 0 {
        lemma_true_places(parts, entries, pairs, n - 1);
        let front = pairs.take(n - 1);
        let pair = pairs[n - 1];
        let taken = places(path, front);
        let after = places(path, pairs.take(n));
        assert(pairs.take(n).drop_last() =~= front);
        assert(pairs.take(n) =~= front.push(pair));
        assert(pairs.take(n).last() == pair);
        assert(entries.contains_pair(pairs[n - 1].0, pairs[n - 1].1));
        if pair.1.len() > 0 {
            assert(entries.contains_key(pair.0) && entries[pair.0].len() > 0);
            let i = part_of(parts, pair.0);
            assert(0 <= i < parts.len() && parts[i].body == Body::Captured(pair.0));
            assert(tells(parts, entries, i));
            let at = start(parts, entries, i);
            lemma_lands_at_home(parts, entries, pairs, n - 1, taken);
            assert(lands(path, pair.1, taken, at));
            let chosen = choose|at: int| lands(path, pair.1, taken, at);
            lemma_lands_once(path, pair.1, taken, chosen, at);
            assert(after == taken.push(place_of(parts, entries, i)));
        }
        lemma_true_places_step(parts, entries, front, pair, taken, after);
    }
}

/// No name is listed twice.
proof fn lemma_names_differ(
    pairs: Seq<(Seq<char>, Seq<char>)>,
    entries: Map<Seq<char>, Seq<char>>,
    i: int,
    j: int,
)
    requires
        lists_in_turn(pairs, entries),
        0 <= i < j < pairs.len(),
    ensures
        pairs[i].0 != pairs[j].0,
{
    assert(goes_first(pairs[i], pairs[j]));
    assert(entries.contains_pair(pairs[i].0, pairs[i].1));
    assert(entries.contains_pair(pairs[j].0, pairs[j].1));
}

/// A stretch in which no place begins is as in the path.
proof fn lemma_copied(path: Seq<char>, taken: Seq<Place>, from: int, to: int)
    requires
        0 <= from <= to <= path.len(),
        forall|i: int, at: int| from <= at < to ==> !#[trigger] begins(taken, i, at),
    ensures
        rewritten(path, taken, from) == path.subrange(from, to) + rewritten(path, taken, to),
    decreases to - from,
{
    if from < to {
        lemma_copied(path, taken, from + 1, to);
        assert(path.subrange(from, to) =~= seq![path[from]] + path.subrange(from + 1, to));
        assert(rewritten(path, taken, from) =~= path.subrange(from, to) + rewritten(
            path,
            taken,
            to,
        ));
    } else {
        assert(rewritten(path, taken, from) =~= path.subrange(from, to) + rewritten(
            path,
            taken,
            to,
        ));
    }
}

/// A place begins where the body of its part does.
proof fn lemma_place_begins(
    parts: Seq<Part>,
    entries: Map<Seq<char>, Seq<char>>,
    pairs: Seq<(Seq<char>, Seq<char>)>,
    taken: Seq<Place>,
    p: int,
    at: int,
) -> (j: int)
    requires
        route_captures(parts, entries),
        lists_in_turn(pairs, entries),
        true_places(parts, entries, pairs, taken),
        begins(taken, p, at),
    ensures
        0 <= j < parts.len(),
        parts[j].body is Captured,
        taken[p] == place_of(parts, entries, j),
        at == start(parts, entries, j),
{
    assert(is_true_place(parts, entries, pairs, taken[p]));
    let t = choose|t: int|
        {
            &&& 0 <= t < pairs.len()
            &&& (#[trigger] pairs[t]).1.len() > 0
            &&& taken[p] == place_of(parts, entries, part_of(parts, pairs[t].0))
        };
    assert(entries.contains_pair(pairs[t].0, pairs[t].1));
    assert(entries.contains_key(pairs[t].0) && entries[pairs[t].0].len() > 0);
    let j = part_of(parts, pairs[t].0);
    assert(0 <= j < parts.len() && parts[j].body == Body::Captured(pairs[t].0));
    j
}

/// With every name at its own place, the path from a part on reads as the pattern
/// from there on.
proof fn lemma_reads_as_pattern(
    parts: Seq<Part>,
    entries: Map<Seq<char>, Seq<char>>,
    pairs: Seq<(Seq<char>, Seq<char>)>,
    taken: Seq<Place>,
    i: int,
)
    requires
        route_captures(parts, entries),
        lists_in_turn(pairs, entries),
        true_places(parts, entries, pairs, taken),
        0 <= i <= parts.len(),
    ensures
        rewritten(filled(parts, entries), taken, offset(parts, entries, i)) == pattern(
            parts.skip(i),
        ),
    decreases parts.len() - i,
{
    let path = filled(parts, entries);
    let from = offset(parts, entries, i);
    if i == parts.len() {
        lemma_offset(parts, entries, i);
        assert(parts.skip(i) =~= Seq::empty());
        assert(path.skip(from).len() == 0);
    } else {
        let part = parts[i];
        let body = start(parts, entries, i);
        let next = offset(parts, entries, i + 1);
        lemma_part(parts, entries, i);
        lemma_reads_as_pattern(parts, entries, pairs, taken, i + 1);
        assert(parts.skip(i).drop_first() =~= parts.skip(i + 1));
        assert(parts.skip(i)[0] == part);
        assert forall|p: int, at: int|
            from <= at < next && #[trigger] begins(taken, p, at) implies at == body
            && part.body is Captured && taken[p] == place_of(parts, entries, i) by {
            let j = lemma_place_begins(parts, entries, pairs, taken, p, at);
            if j < i {
                lemma_bodies_apart(parts, entries, j, i);
            } else if i < j {
                lemma_bodies_apart(parts, entries, i, j);
            }
        }
        match part.body {
            Body::Literal(text) => {
                lemma_copied(path, taken, from, next);
                assert(path.subrange(from, next) =~= path.subrange(from, body) + path.subrange(
                    body,
                    next,
                ));
            },
            Body::Captured(name) => {
                assert(entries.contains_key(name) && entries[name].len() > 0);
                lemma_copied(path, taken, from, body);
                let t = choose|t: int| 0 <= t < pairs.len() && #[trigger] pairs[t].0 == name;
                assert(entries.contains_pair(pairs[t].0, pairs[t].1));
                lemma_part_of(parts, entries, i);
                let place = place_of(parts, entries, i);
                assert(taken.contains(place));
                let p = choose|p: int| 0 <= p < taken.len() && taken[p] == place;
                assert(begins(taken, p, body));
                let chosen = choose|p: int| begins(taken, p, body);
                assert(begins(taken, chosen, body));
                assert(taken[chosen] == place);
                assert(rewritten(path, taken, body) == ":"@ + name + rewritten(path, taken, next));
                assert(rewritten(path, taken, from) =~= lead(part) + (":"@ + name) + rewritten(
                    path,
                    taken,
                    next,
                ));
            },
        }
        assert(rewritten(path, taken, from) =~= lead(part) + label(part) + pattern(
            parts.skip(i + 1),
        ));
    }
}

/// The template of the matched route is rebuilt: where the path is a route's
/// pattern filled with the captured values, and each value can be told from the
/// path, the result is the pattern.
pub proof fn lemma_template_rebuilt(
    parts: Seq<Part>,
    entries: Map<Seq<char>, Seq<char>>,
    pairs: Seq<(Seq<char>, Seq<char>)>,
)
    requires
        route_captures(parts, entries),
        lists_in_turn(pairs, entries),
        forall|i: int|
            0 <= i < parts.len() && (#[trigger] parts[i]).body is Captured ==> tells(
                parts,
                entries,
                i,
            ),
    ensures
        substituted(filled(parts, entries), pairs) == pattern(parts),
{
    let path = filled(parts, entries);
    let n = pairs.len() as int;
    lemma_true_places(parts, entries, pairs, n);
    assert(pairs.take(n) =~= pairs);
    lemma_reads_as_pattern(parts, entries, pairs, places(path, pairs), 0);
    assert(parts.skip(0) =~= parts);
}

/// Whether the router sees one segment in this text.
pub open spec fn one_segment(text: Seq<char>) -> bool {
    forall|i: int| 0 <= i < text.len() ==> !separates(#[trigger] text[i])
}

/// The part that a position of the path belongs to.
proof fn lemma_part_at(
    parts: Seq<Part>,
    entries: Map<Seq<char>, Seq<char>>,
    at: int,
    n: int,
) -> (j: int)
    requires
        0 <= n <= parts.len(),
        0 <= at < offset(parts, entries, n),
    ensures
        0 <= j < n,
        offset(parts, entries, j) <= at < offset(parts, entries, j + 1),
    decreases n,
{
    if at < offset(parts, entries, n - 1) {
        lemma_part_at(parts, entries, at, n - 1)
    } else {
        n - 1
    }
}

/// Where every body is one segment, a segment that stands apart behind the start
/// of the path is the body of a part.
proof fn lemma_segment_is_body(
    parts: Seq<Part>,
    entries: Map<Seq<char>, Seq<char>>,
    value: Seq<char>,
    at: int,
) -> (j: int)
    requires
        route_captures(parts, entries),
        forall|i: int|
            0 <= i < parts.len() ==> one_segment(content(#[trigger] parts[i], entries)),
        one_segment(value),
        0 < at,
        stands_apart(filled(parts, entries), value, at),
    ensures
        0 <= j < parts.len(),
        at == start(parts, entries, j),
        value == content(parts[j], entries),
{
    let path = filled(parts, entries);
    let n = parts.len() as int;
    lemma_offset(parts, entries, n);
    assert(parts.skip(n) =~= Seq::empty());
    assert(path.skip(offset(parts, entries, n)).len() == 0);
    let j = lemma_part_at(parts, entries, at - 1, n);
    lemma_part(parts, entries, j);
    let from = offset(parts, entries, j);
    let body = start(parts, entries, j);
    let next = offset(parts, entries, j + 1);
    let text = content(parts[j], entries);
    assert(one_segment(text));
    if at - 1 >= body {
        assert(path.subrange(body, next)[at - 1 - body] == path[at - 1]);
        assert(!separates(text[at - 1 - body]));
    }
    assert(at == body);
    let end = at + value.len();
    if end < next {
        assert(path.subrange(body, next)[end - body] == path[end]);
        assert(!separates(text[end - body]));
    }
    if end > next {
        assert(j + 1 < parts.len());
        lemma_part(parts, entries, j + 1);
        assert(parts[j + 1].separator is Some);
        assert(path.subrange(next, start(parts, entries, j + 1))[0] == path[next]);
        assert(path.subrange(at, end)[next - at] == path[next]);
        assert(!separates(value[next - at]));
    }
    j
}

/// The template of the matched route is rebuilt where every captured value is one
/// segment, the values differ, and no literal segment behind a parameter equals
/// its value.
pub proof fn lemma_segments_rebuilt(
    parts: Seq<Part>,
    entries: Map<Seq<char>, Seq<char>>,
    pairs: Seq<(Seq<char>, Seq<char>)>,
)
    requires
        route_captures(parts, entries),
        lists_in_turn(pairs, entries),
        forall|i: int|
            0 <= i < parts.len() ==> one_segment(content(#[trigger] parts[i], entries)),
        forall|i: int, j: int|
            #![trigger parts[i], parts[j]]
            0 <= i < j < parts.len() && parts[i].body is Captured ==> content(parts[i], entries)
                != content(parts[j], entries),
    ensures
        substituted(filled(parts, entries), pairs) == pattern(parts),
{
    assert forall|i: int|
        0 <= i < parts.len() && (#[trigger] parts[i]).body is Captured implies tells(
        parts,
        entries,
        i,
    ) by {
        let value = content(parts[i], entries);
        lemma_part(parts, entries, i);
        assert forall|at: int|
            start(parts, entries, i) < at && #[trigger] stands_apart(
                filled(parts, entries),
                value,
                at,
            ) implies false by {
            assert(one_segment(value));
            let j = lemma_segment_is_body(parts, entries, value, at);
            if j < i {
                lemma_bodies_apart(parts, entries, j, i);
            } else if i < j {
                assert(content(parts[i], entries) != content(parts[j], entries));
            }
        }
    }
    lemma_template_rebuilt(parts, entries, pairs);
}

/// A path in which no captured value stands apart is left alone.
pub proof fn lemma_absent_values_leave_path(
    path: Seq<char>,
    pairs: Seq<(Seq<char>, Seq<char>)>,
)
    requires
        forall|t: int, at: int|
            #![trigger stands_apart(path, pairs[t].1, at)]
            0 <= t < pairs.len() && pairs[t].1.len() > 0 ==> !stands_apart(path, pairs[t].1, at),
    ensures
        substituted(path, pairs) == path,
{
    lemma_no_places(path, pairs);
    lemma_copied(path, places(path, pairs), 0, path.len() as int);
    assert(path.subrange(0, path.len() as int) =~= path);
    assert(substituted(path, pairs) =~= path);
}

/// Values that stand apart nowhere take no place.
proof fn lemma_no_places(path: Seq<char>, pairs: Seq<(Seq<char>, Seq<char>)>)
    requires
        forall|t: int, at: int|
            #![trigger stands_apart(path, pairs[t].1, at)]
            0 <= t < pairs.len() && pairs[t].1.len() > 0 ==> !stands_apart(path, pairs[t].1, at),
    ensures
        places(path, pairs) == Seq::<Place>::empty(),
    decreases pairs.len(),
{
    if pairs.len() > 0 {
        let front = pairs.drop_last();
        assert forall|t: int, at: int|
            #![trigger stands_apart(path, front[t].1, at)]
            0 <= t < front.len() && front[t].1.len() > 0 implies !stands_apart(
            path,
            front[t].1,
            at,
        ) by {
            assert(front[t] == pairs[t]);
            assert(!stands_apart(path, pairs[t].1, at));
        }
        lemma_no_places(path, front);
        let value = pairs.last().1;
        assert forall|at: int| value.len() > 0 implies !lands(
            path,
            value,
            places(path, front),
            at,
        ) by {
            assert(value == pairs[pairs.len() - 1].1);
            assert(!stands_apart(path, pairs[pairs.len() - 1].1, at));
        }
    }
}

/// Whether a captured value can be found at `at` or anywhere behind: as a piece of
/// the path between slashes or dots, or the path's end.
pub open spec fn found_from(path: Seq<char>, value: Seq<char>, from: int) -> bool {
    exists|at: int|
        {
            &&& from <= at
            &&& 0 < at <= path.len() - value.len()
            &&& #[trigger] path.subrange(at, at + value.len()) == value
            &&& path[at - 1] == '/' || path[at - 1] == '.'
            &&& at + value.len() == path.len() || path[at + value.len()] == '/' || path[at
                + value.len()] == '.'
        }
}

/// The parts of a text that is empty or begins with a separator.
spec fn tail_parts(text: Seq<char>) -> Seq<Part> {
    if text.len() == 0 {
        Seq::empty()
    } else {
        seq![Part { separator: Some(text[0]), body: Body::Literal(text.skip(1)) }]
    }
}

/// The path and the pattern of parts are those of the front and of the back.
proof fn lemma_joined(a: Seq<Part>, b: Seq<Part>, entries: Map<Seq<char>, Seq<char>>)
    ensures
        filled(a + b, entries) == filled(a, entries) + filled(b, entries),
        pattern(a + b) == pattern(a) + pattern(b),
    decreases a.len(),
{
    if a.len() == 0 {
        assert(a + b =~= b);
        assert(filled(a + b, entries) =~= filled(a, entries) + filled(b, entries));
        assert(pattern(a + b) =~= pattern(a) + pattern(b));
    } else {
        assert((a + b)[0] == a[0]);
        assert((a + b).drop_first() =~= a.drop_first() + b);
        lemma_joined(a.drop_first(), b, entries);
        assert(filled(a + b, entries) =~= filled(a, entries) + filled(b, entries));
        assert(pattern(a + b) =~= pattern(a) + pattern(b));
    }
}

/// The path and the pattern of one part.
proof fn lemma_single(part: Part, entries: Map<Seq<char>, Seq<char>>)
    ensures
        filled(seq![part], entries) == lead(part) + content(part, entries),
        pattern(seq![part]) == lead(part) + label(part),
{
    let rest = seq![part].drop_first();
    assert(rest.len() == 0);
    assert(filled(rest, entries) =~= Seq::empty());
    assert(pattern(rest) =~= Seq::empty());
    assert(filled(seq![part], entries) =~= lead(part) + content(part, entries));
    assert(pattern(seq![part]) =~= lead(part) + label(part));
}

/// The path and the pattern of a text that is empty or begins with a separator
/// are that text.
proof fn lemma_tail(text: Seq<char>, entries: Map<Seq<char>, Seq<char>>)
    requires
        text.len() > 0 ==> text[0] == '/' || text[0] == '.',
    ensures
        filled(tail_parts(text), entries) == text,
        pattern(tail_parts(text)) == text,
{
    if text.len() > 0 {
        let part = Part { separator: Some(text[0]), body: Body::Literal(text.skip(1)) };
        lemma_single(part, entries);
        assert(seq![text[0]] + text.skip(1) =~= text);
    } else {
        assert(filled(tail_parts(text), entries) =~= text);
        assert(pattern(tail_parts(text)) =~= text);
    }
}

/// A value found at no later place can be told.
proof fn lemma_tells(parts: Seq<Part>, entries: Map<Seq<char>, Seq<char>>, i: int)
    requires
        0 <= i < parts.len(),
        parts[i].body is Captured,
        !found_from(
            filled(parts, entries),
            content(parts[i], entries),
            start(parts, entries, i) + 1,
        ),
    ensures
        tells(parts, entries, i),
{
    let path = filled(parts, entries);
    let value = content(parts[i], entries);
    lemma_part(parts, entries, i);
    assert forall|at: int|
        start(parts, entries, i) < at && #[trigger] stands_apart(path, value, at) implies false by {
        assert(path.subrange(at, at + value.len()) == value);
    }
}

/// A route with one capture: what stands around the captured value stays as it
/// is, and the value reads as its name behind a colon, if it is found nowhere
/// behind its place.
pub proof fn lemma_one_capture(
    front: Seq<char>,
    separator: char,
    value: Seq<char>,
    back: Seq<char>,
    name: Seq<char>,
    pairs: Seq<(Seq<char>, Seq<char>)>,
)
    requires
        separator == '/' || separator == '.',
        value.len() > 0,
        back.len() > 0 ==> back[0] == '/' || back[0] == '.',
        lists_in_turn(pairs, Map::<Seq<char>, Seq<char>>::empty().insert(name, value)),
        !found_from(
            front + seq![separator] + value + back,
            value,
            front.len() + 2int,
        ),
    ensures
        substituted(front + seq![separator] + value + back, pairs) == front + seq![separator] + ":"@
            + name + back,
{
    let entries = Map::<Seq<char>, Seq<char>>::empty().insert(name, value);
    let first = Part { separator: None, body: Body::Literal(front) };
    let second = Part { separator: Some(separator), body: Body::Captured(name) };
    let head = seq![first] + seq![second];
    let parts = head + tail_parts(back);
    lemma_joined(seq![first], seq![second], entries);
    lemma_joined(head, tail_parts(back), entries);
    lemma_single(first, entries);
    lemma_single(second, entries);
    lemma_tail(back, entries);
    assert(filled(parts, entries) =~= front + seq![separator] + value + back);
    assert(pattern(parts) =~= front + seq![separator] + ":"@ + name + back);
    assert(parts[0] == first && parts[1] == second);
    assert(offset(parts, entries, 1) == front.len()) by {
        assert(offset(parts, entries, 0) == 0);
    }
    assert(route_captures(parts, entries)) by {
        assert(parts[1].body == Body::Captured(name));
    }
    lemma_tells(parts, entries, 1);
    lemma_template_rebuilt(parts, entries, pairs);
}

/// The parts of a route with two captures.
spec fn two_parts(
    front: Seq<char>,
    one: char,
    name: Seq<char>,
    middle: Seq<char>,
    two: char,
    other_name: Seq<char>,
    back: Seq<char>,
) -> Seq<Part> {
    let a = Part { separator: None, body: Body::Literal(front) };
    let b = Part { separator: Some(one), body: Body::Captured(name) };
    let d = Part { separator: Some(two), body: Body::Captured(other_name) };
    seq![a] + seq![b] + tail_parts(middle) + seq![d] + tail_parts(back)
}

/// The path and the pattern of a route with two captures.
proof fn lemma_two_texts(
    front: Seq<char>,
    one: char,
    name: Seq<char>,
    middle: Seq<char>,
    two: char,
    other_name: Seq<char>,
    back: Seq<char>,
    entries: Map<Seq<char>, Seq<char>>,
)
    requires
        middle.len() > 0 ==> middle[0] == '/' || middle[0] == '.',
        back.len() > 0 ==> back[0] == '/' || back[0] == '.',
    ensures
        ({
            let parts = two_parts(front, one, name, middle, two, other_name, back);
            &&& filled(parts, entries) == front + seq![one] + entries[name] + middle + seq![two]
                + entries[other_name] + back
            &&& pattern(parts) == front + seq![one] + ":"@ + name + middle + seq![two] + ":"@
                + other_name + back
        }),
{
    let a = Part { separator: None, body: Body::Literal(front) };
    let b = Part { separator: Some(one), body: Body::Captured(name) };
    let d = Part { separator: Some(two), body: Body::Captured(other_name) };
    let ab = seq![a] + seq![b];
    let abc = ab + tail_parts(middle);
    let abcd = abc + seq![d];
    let parts = abcd + tail_parts(back);
    lemma_joined(seq![a], seq![b], entries);
    lemma_joined(ab, tail_parts(middle), entries);
    lemma_joined(abc, seq![d], entries);
    lemma_joined(abcd, tail_parts(back), entries);
    lemma_single(a, entries);
    lemma_single(b, entries);
    lemma_single(d, entries);
    lemma_tail(middle, entries);
    lemma_tail(back, entries);
    assert(filled(parts, entries) =~= front + seq![one] + entries[name] + middle + seq![two]
        + entries[other_name] + back);
    assert(pattern(parts) =~= front + seq![one] + ":"@ + name + middle + seq![two] + ":"@
        + other_name + back);
}

/// Where the captures of a route with two stand among its parts and in the path.
proof fn lemma_two_places(
    front: Seq<char>,
    one: char,
    name: Seq<char>,
    middle: Seq<char>,
    two: char,
    other_name: Seq<char>,
    back: Seq<char>,
    entries: Map<Seq<char>, Seq<char>>,
)
    requires
        middle.len() > 0 ==> middle[0] == '/' || middle[0] == '.',
        back.len() > 0 ==> back[0] == '/' || back[0] == '.',
        one == '/' || one == '.',
        two == '/' || two == '.',
    ensures
        ({
            let parts = two_parts(front, one, name, middle, two, other_name, back);
            let at = 2int + tail_parts(middle).len();
            &&& parts.len() > at
            &&& parts[1].body == Body::Captured(name)
            &&& parts[at].body == Body::Captured(other_name)
            &&& forall|i: int|
                0 <= i < parts.len() && (#[trigger] parts[i]).body is Captured ==> i == 1 || i == at
            &&& forall|i: int|
                0 <= i < parts.len() ==> match (#[trigger] parts[i]).separator {
                    Some(c) => separates(c),
                    None => i == 0,
                }
            &&& start(parts, entries, 1) == front.len() + 1
            &&& start(parts, entries, at) == front.len() + entries[name].len() + middle.len() + 2
        }),
{
    let parts = two_parts(front, one, name, middle, two, other_name, back);
    let at = 2int + tail_parts(middle).len();
    assert(offset(parts, entries, 0) == 0);
    assert(offset(parts, entries, 1) == front.len());
    assert(offset(parts, entries, 2) == front.len() + 1 + entries[name].len());
    if middle.len() > 0 {
        assert(parts[2] == tail_parts(middle)[0]);
        assert(offset(parts, entries, 3) == offset(parts, entries, 2) + middle.len());
    }
}

/// A route with two captures: what stands around the captured values stays as it
/// is, and each reads as its own name behind a colon, if it is found nowhere
/// behind its own place.
pub proof fn lemma_two_captures(
    front: Seq<char>,
    one: char,
    value: Seq<char>,
    middle: Seq<char>,
    two: char,
    other: Seq<char>,
    back: Seq<char>,
    name: Seq<char>,
    other_name: Seq<char>,
    pairs: Seq<(Seq<char>, Seq<char>)>,
)
    requires
        one == '/' || one == '.',
        two == '/' || two == '.',
        value.len() > 0,
        other.len() > 0,
        name != other_name,
        middle.len() > 0 ==> middle[0] == '/' || middle[0] == '.',
        back.len() > 0 ==> back[0] == '/' || back[0] == '.',
        lists_in_turn(
            pairs,
            Map::<Seq<char>, Seq<char>>::empty().insert(name, value).insert(other_name, other),
        ),
        !found_from(
            front + seq![one] + value + middle + seq![two] + other + back,
            value,
            front.len() + 2int,
        ),
        !found_from(
            front + seq![one] + value + middle + seq![two] + other + back,
            other,
            front.len() + value.len() + middle.len() + 3int,
        ),
    ensures
        substituted(front + seq![one] + value + middle + seq![two] + other + back, pairs) == front
            + seq![one] + ":"@ + name + middle + seq![two] + ":"@ + other_name + back,
{
    let entries = Map::<Seq<char>, Seq<char>>::empty().insert(name, value).insert(
        other_name,
        other,
    );
    let parts = two_parts(front, one, name, middle, two, other_name, back);
    let at = 2int + tail_parts(middle).len();
    lemma_two_texts(front, one, name, middle, two, other_name, back, entries);
    lemma_two_places(front, one, name, middle, two, other_name, back, entries);
    lemma_tells(parts, entries, 1);
    lemma_tells(parts, entries, at);
    assert(route_captures(parts, entries));
    lemma_template_rebuilt(parts, entries, pairs);
}

/// A route that captures nothing is its own template.
pub proof fn lemma_nothing_captured(path: Seq<char>, pairs: Seq<(Seq<char>, Seq<char>)>)
    requires
        lists_in_turn(pairs, Map::<Seq<char>, Seq<char>>::empty()),
    ensures
        substituted(path, pairs) == path,
{
    if pairs.len() > 0 {
        assert(Map::<Seq<char>, Seq<char>>::empty().contains_pair(pairs[0].0, pairs[0].1));
    }
    lemma_absent_values_leave_path(path, pairs);
}

} // verus!
