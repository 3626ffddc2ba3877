//! The plan of a run: its seeds, positions and pairs, how much work it is, and how
//! it goes on from a checkpoint.
use crate::bench::adapters::{AnyAdapter, EngineAdapter};
use crate::bench::agreement::{
    engine_steps, engines_steps, left_out, seed_count, steps_of, AgreementStep, Contender, RunKey,
};
use crate::bench::bundle::positions_of;
use crate::bench::checkpoint::{may_resume, refusal, text_option, validate_resume_manifest};
use crate::bench::dataset::{phase_bounds, phase_name};
use crate::bench::fields::{
    at, concat, copy_of, text_at, text_in, text_in_or, text_or, texts,
};
use crate::bench::grouping::{group_rows, groups_of, keys_view, places_of, places_view, Group};
use crate::bench::head_to_head::{pair_tasks, position_tasks, seed_tasks, skipped, H2hKey};
use crate::bench::json::{field, items_view, members_view, Json, JsonView};
use crate::bench::observation::{numbers_json, numbers_view};
use crate::bench::reference::{text_list, texts_json};
use crate::bench::roster::{build_adapters, lined_up, requested, RunArgs};
use crate::text::{decimal, push_decimal, same_text};
use vstd::prelude::*;
use vstd::string::*;

verus! {

/// The settings of a run besides those of its engines.
#[derive(Debug)]
pub struct RunSettings {
    pub dataset: String,
    pub seeds: u64,
    pub seed_base: u64,
    pub h2h_positions: usize,
    pub h2h_seeds: u64,
    pub skip_h2h: bool,
    pub output: String,
    pub checkpoint_dir: Option<String>,
    pub resume: bool,
    /// The number of rows or games after which the manifest is updated; with zero
    /// it is updated at the end of each stage only.
    pub checkpoint_every: u64,
    pub workers: usize,
}

/// A run needs a worker.
pub fn check_workers(workers: usize) -> (r: Result<(), String>)
    ensures
        r is Ok <==> workers >= 1,
        r matches Err(m) ==> m@ == "workers must be at least 1"@,
{
    if workers < 1 {
        return Err("workers must be at least 1".to_owned());
    }
    Ok(())
}

/// Build the engines of a run. Games need two of them.
pub fn line_up<F: Fn(u32, u32, u32) -> i64 + Copy>(
    args: &RunArgs,
    skip_h2h: bool,
    priority: F,
) -> (r: Result<Vec<AnyAdapter<F>>, String>)
    ensures
        match (r, requested(texts(args.engines@))) {
            (Ok(adapters), Ok(names)) => (skip_h2h || names.len() >= 2) && lined_up(
                names,
                *args,
                priority,
                adapters@,
            ),
            (Err(m), Ok(names)) => !skip_h2h && names.len() < 2 && m@
                == "head-to-head requires at least two selected engines"@,
            (Err(m), Err(e)) => m@ == e,
            _ => false,
        },
{
    let adapters = build_adapters(args, priority)?;
    if !skip_h2h && adapters.len() < 2 {
        return Err("head-to-head requires at least two selected engines".to_owned());
    }
    Ok(adapters)
}

/// The seeds `base`, `base + 1` and so on.
pub fn seed_list(base: u64, count: u64) -> (seeds: Vec<u64>)
    requires
        base + count <= u64::MAX + 1,
        count <= usize::MAX,
    ensures
        seeds@ == Seq::new(count as nat, |i: int| (base + i) as u64),
{
    let mut seeds: Vec<u64> = Vec::new();
    let mut i: u64 = 0;
    while i < count
        invariant
            i <= count,
            base + count <= u64::MAX + 1,
            seeds@ == Seq::new(i as nat, |k: int| (base + k) as u64),
        decreases count - i,
    {
        seeds.push(base + i);
        i = i + 1;
        assert(seeds@ =~= Seq::new(i as nat, |k: int| (base + k) as u64));
    }
    seeds
}

/// The places that a round takes from the first `g` groups: the next of each that
/// has one left.
pub open spec fn round_places(groups: Seq<Group>, round: int, g: int) -> Seq<int>
    decreases g,
{
    if g <= 0 {
        Seq::empty()
    } else if round < groups[g - 1].places@.len() {
        round_places(groups, round, g - 1).push(groups[g - 1].places@[round] as int)
    } else {
        round_places(groups, round, g - 1)
    }
}

/// The places that the first `rounds` rounds take.
pub open spec fn dealt(groups: Seq<Group>, rounds: int) -> Seq<int>
    decreases rounds,
{
    if rounds <= 0 {
        Seq::empty()
    } else {
        dealt(groups, rounds - 1) + round_places(groups, rounds - 1, groups.len() as int)
    }
}

/// The first `count` of the places, or all if there are no more.
pub open spec fn first_of(places: Seq<int>, count: int) -> Seq<int> {
    if count < places.len() {
        places.take(count)
    } else {
        places
    }
}

/// The phases of positions, as keys.
pub open spec fn phase_keys(positions: Seq<JsonView>) -> Seq<Seq<Seq<char>>> {
    positions.map_values(|p: JsonView| seq![text_or(p, "phase"@, ""@)])
}

/// The positions at the places.
pub open spec fn positions_at(positions: Seq<JsonView>, places: Seq<int>) -> Seq<JsonView> {
    places.map_values(|p: int| positions[p])
}

proof fn lemma_places_below(keys: Seq<Seq<Seq<char>>>, n: int, key: Seq<Seq<char>>)
    ensures
        forall|i: int|
            0 <= i < places_of(keys, n, key).len() ==> 0 <= #[trigger] places_of(keys, n, key)[i]
                < n,
        n >= 0 ==> places_of(keys, n, key).len() <= n,
    decreases n,
{
    if n > 0 {
        lemma_places_below(keys, n - 1, key);
    }
}

fn keys_of(positions: &Vec<Json>) -> (keys: Vec<Vec<String>>)
    ensures
        keys_view(keys@) == phase_keys(items_view(positions@)),
{
    let ghost views = items_view(positions@);
    let mut keys: Vec<Vec<String>> = Vec::new();
    let mut i: usize = 0;
    while i < positions.len()
        invariant
            i <= positions@.len(),
            views == items_view(positions@),
            keys@.len() == i,
            forall|k: int|
                0 <= k < i ==> texts((#[trigger] keys@[k])@) == seq![
                    text_or(views[k], "phase"@, ""@),
                ],
        decreases positions@.len() - i,
    {
        assert(views[i as int] == positions@[i as int].view());
        let phase = text_in_or(&positions[i], "phase", "").to_owned();
        let key: Vec<String> = vec![phase];
        assert(texts(key@) =~= seq![text_or(views[i as int], "phase"@, ""@)]);
        keys.push(key);
        i = i + 1;
    }
    assert(keys_view(keys@) =~= phase_keys(views));
    keys
}

/// Whether `groups` are the positions of the dataset by phase.
pub open spec fn by_phase(groups: Seq<Group>, positions: Seq<JsonView>) -> bool {
    groups_of(groups, phase_keys(positions), positions.len() as int)
}

/// Pick up to `count` positions of a dataset: in rounds, each of which takes one
/// position of every phase that has one left, the phases in the order of their
/// names.
pub fn h2h_positions(payload: &Json, count: usize) -> (picked: Vec<Json>)
    ensures
        exists|groups: Seq<Group>| #[trigger]
            by_phase(groups, positions_of(payload.view())) && items_view(picked@) == positions_at(
                positions_of(payload.view()),
                first_of(
                    dealt(groups, positions_of(payload.view()).len() as int),
                    count as int,
                ),
            ),
{
    let none: Vec<Json> = Vec::new();
    let positions = match copy_of(payload, "positions") {
        Json::Array(items) => items,
        _ => none,
    };
    let ghost views = positions_of(payload.view());
    assert(items_view(positions@) =~= views);
    let keys = keys_of(&positions);
    let groups = group_rows(&keys);
    assert(keys_view(keys@).len() == keys@.len());
    let ghost g0 = groups@;
    let n: usize = positions.len();
    let mut picked: Vec<Json> = Vec::new();
    let ghost mut taken: Seq<int> = Seq::empty();
    assert(items_view(picked@) =~= positions_at(views, taken));
    let mut round: usize = 0;
    while round < n
        invariant
            round <= n == positions@.len(),
            views == items_view(positions@),
            groups@ == g0,
            by_phase(g0, views),
            taken == dealt(g0, round as int),
            items_view(picked@) == positions_at(views, first_of(taken, count as int)),
        decreases n - round,
    {
        let mut g: usize = 0;
        let ghost start = taken;
        assert(start + Seq::<int>::empty() =~= start);
        while g < groups.len()
            invariant
                g <= groups@.len(),
                n == positions@.len(),
                views == items_view(positions@),
                groups@ == g0,
                by_phase(g0, views),
                taken == start + round_places(g0, round as int, g as int),
                items_view(picked@) == positions_at(views, first_of(taken, count as int)),
            decreases groups@.len() - g,
        {
            if round < groups[g].places.len() {
                let place: usize = groups[g].places[round];
                proof {
                    let key = texts(g0[g as int].key@);
                    lemma_places_below(phase_keys(views), n as int, key);
                    assert(places_view(g0[g as int].places@)[round as int] == place);
                }
                let ghost before = taken;
                let ghost shown = items_view(picked@);
                proof {
                    taken = before.push(place as int);
                    assert(taken =~= start + round_places(g0, round as int, g + 1));
                }
                assert(shown.len() == picked@.len());
                if picked.len() < count {
                    picked.push(positions[place].copy());
                    proof {
                        assert(first_of(before, count as int) =~= before);
                        assert(first_of(taken, count as int) =~= taken);
                        assert(items_view(picked@) =~= shown.push(views[place as int]));
                        assert(positions_at(views, taken) =~= shown.push(views[place as int]));
                    }
                } else {
                    assert(first_of(taken, count as int) =~= first_of(before, count as int));
                }
            }
            g = g + 1;
        }
        round = round + 1;
    }
    picked
}

/// The places that hold a key are listed in order, all of them and nothing else.
proof fn lemma_places_of(keys: Seq<Seq<Seq<char>>>, n: int, key: Seq<Seq<char>>)
    requires
        0 <= n <= keys.len(),
    ensures
        forall|i: int|
            0 <= i < places_of(keys, n, key).len() ==> 0 <= #[trigger] places_of(keys, n, key)[i]
                < n && keys[places_of(keys, n, key)[i]] == key,
        forall|i: int, j: int|
            0 <= i < j < places_of(keys, n, key).len() ==> #[trigger] places_of(keys, n, key)[i]
                < #[trigger] places_of(keys, n, key)[j],
        forall|p: int|
            0 <= p < n && keys[p] == key ==> #[trigger] places_of(keys, n, key).contains(p),
    decreases n,
{
    if n > 0 {
        lemma_places_of(keys, n - 1, key);
        let before = places_of(keys, n - 1, key);
        let now = places_of(keys, n, key);
        assert forall|p: int| 0 <= p < n && keys[p] == key implies #[trigger] now.contains(p) by {
            if p == n - 1 {
                assert(now[before.len() as int] == p);
            } else {
                assert(before.contains(p));
                let i = choose|i: int| 0 <= i < before.len() && before[i] == p;
                assert(now[i] == p);
            }
        }
    }
}

/// Whether `x` is the place that group `h` gives in a round.
spec fn given(groups: Seq<Group>, h: int, round: int, x: int) -> bool {
    &&& 0 <= h < groups.len()
    &&& 0 <= round < groups[h].places@.len()
    &&& groups[h].places@[round] == x
}

/// Whether one of the first `g` groups gives `x` in a round.
spec fn in_round(groups: Seq<Group>, round: int, g: int, x: int) -> bool {
    exists|h: int| h < g && #[trigger] given(groups, h, round, x)
}

/// Whether a group gives `x` in one of the first `rounds` rounds.
spec fn in_rounds(groups: Seq<Group>, rounds: int, x: int) -> bool {
    exists|h: int, q: int| q < rounds && #[trigger] given(groups, h, q, x)
}

/// A place is given once only.
proof fn lemma_given_once(
    groups: Seq<Group>,
    keys: Seq<Seq<Seq<char>>>,
    g: int,
    r: int,
    h: int,
    q: int,
    x: int,
)
    requires
        groups_of(groups, keys, keys.len() as int),
        given(groups, g, r, x),
        given(groups, h, q, x),
    ensures
        g == h,
        r == q,
        0 <= x < keys.len(),
{
    let n = keys.len() as int;
    let kg = texts(groups[g].key@);
    let kh = texts(groups[h].key@);
    lemma_places_of(keys, n, kg);
    lemma_places_of(keys, n, kh);
    assert(places_view(groups[g].places@)[r] == x);
    assert(places_view(groups[h].places@)[q] == x);
    assert(keys[x] == kg && keys[x] == kh);
    if g < h {
        assert(texts(groups[g].key@) != texts(groups[h].key@));
    } else if h < g {
        assert(texts(groups[h].key@) != texts(groups[g].key@));
    }
    if r < q {
        assert(places_of(keys, n, kg)[r] < places_of(keys, n, kg)[q]);
    } else if q < r {
        assert(places_of(keys, n, kg)[q] < places_of(keys, n, kg)[r]);
    }
}

proof fn lemma_round(groups: Seq<Group>, keys: Seq<Seq<Seq<char>>>, round: int, g: int)
    requires
        groups_of(groups, keys, keys.len() as int),
        0 <= g <= groups.len(),
        0 <= round,
    ensures
        forall|i: int|
            0 <= i < round_places(groups, round, g).len() ==> in_round(
                groups,
                round,
                g,
                #[trigger] round_places(groups, round, g)[i],
            ),
        forall|h: int, x: int|
            h < g && #[trigger] given(groups, h, round, x) ==> round_places(
                groups,
                round,
                g,
            ).contains(x),
        round_places(groups, round, g).no_duplicates(),
    decreases g,
{
    if g > 0 {
        lemma_round(groups, keys, round, g - 1);
        let before = round_places(groups, round, g - 1);
        let now = round_places(groups, round, g);
        if round < groups[g - 1].places@.len() {
            let last = groups[g - 1].places@[round] as int;
            assert(given(groups, g - 1, round, last));
            assert forall|i: int| 0 <= i < now.len() implies in_round(
                groups,
                round,
                g,
                #[trigger] now[i],
            ) by {
                if i < before.len() {
                    assert(now[i] == before[i]);
                    assert(in_round(groups, round, g - 1, before[i]));
                    let h = choose|h: int| h < g - 1 && #[trigger] given(groups, h, round, before[i]);
                    assert(h < g && given(groups, h, round, now[i]));
                } else {
                    assert(g - 1 < g && given(groups, g - 1, round, now[i]));
                }
            }
            assert forall|h: int, x: int|
                h < g && #[trigger] given(groups, h, round, x) implies now.contains(x) by {
                if h == g - 1 {
                    assert(now[before.len() as int] == x);
                } else {
                    assert(before.contains(x));
                    let i = choose|i: int| 0 <= i < before.len() && before[i] == x;
                    assert(now[i] == x);
                }
            }
            assert forall|i: int| 0 <= i < before.len() implies #[trigger] before[i] != last by {
                if before[i] == last {
                    assert(in_round(groups, round, g - 1, before[i]));
                    let h = choose|h: int| h < g - 1 && #[trigger] given(groups, h, round, before[i]);
                    lemma_given_once(groups, keys, h, round, g - 1, round, last);
                }
            }
        }
    }
}

proof fn lemma_dealt(groups: Seq<Group>, keys: Seq<Seq<Seq<char>>>, rounds: int)
    requires
        groups_of(groups, keys, keys.len() as int),
        0 <= rounds,
    ensures
        forall|i: int|
            0 <= i < dealt(groups, rounds).len() ==> in_rounds(
                groups,
                rounds,
                #[trigger] dealt(groups, rounds)[i],
            ),
        forall|h: int, q: int, x: int|
            q < rounds && #[trigger] given(groups, h, q, x) ==> dealt(groups, rounds).contains(x),
        dealt(groups, rounds).no_duplicates(),
    decreases rounds,
{
    if rounds > 0 {
        let r = rounds - 1;
        let all = groups.len() as int;
        lemma_dealt(groups, keys, r);
        lemma_round(groups, keys, r, all);
        let before = dealt(groups, r);
        let round = round_places(groups, r, all);
        let now = dealt(groups, rounds);
        assert(now == before + round);
        assert forall|i: int| 0 <= i < now.len() implies in_rounds(
            groups,
            rounds,
            #[trigger] now[i],
        ) by {
            if i < before.len() {
                assert(now[i] == before[i]);
                assert(in_rounds(groups, r, before[i]));
                let (h, q) = choose|h: int, q: int| q < r && #[trigger] given(groups, h, q, before[i]);
                assert(q < rounds && given(groups, h, q, now[i]));
            } else {
                assert(now[i] == round[i - before.len()]);
                assert(in_round(groups, r, all, round[i - before.len()]));
                let h = choose|h: int| h < all && #[trigger] given(groups, h, r, now[i]);
                assert(r < rounds && given(groups, h, r, now[i]));
            }
        }
        assert forall|h: int, q: int, x: int|
            q < rounds && #[trigger] given(groups, h, q, x) implies now.contains(x) by {
            if q == r {
                assert(round.contains(x));
                let i = choose|i: int| 0 <= i < round.len() && round[i] == x;
                assert(now[before.len() + i] == x);
            } else {
                assert(before.contains(x));
                let i = choose|i: int| 0 <= i < before.len() && before[i] == x;
                assert(now[i] == x);
            }
        }
        assert forall|i: int, j: int|
            0 <= i < before.len() && 0 <= j < round.len() implies before[i] != round[j] by {
            if before[i] == round[j] {
                assert(in_rounds(groups, r, before[i]) && in_round(groups, r, all, round[j]));
                let (h, q) = choose|h: int, q: int| q < r && #[trigger] given(groups, h, q, before[i]);
                let k = choose|k: int| k < all && #[trigger] given(groups, k, r, round[j]);
                lemma_given_once(groups, keys, h, q, k, r, before[i]);
            }
        }
        assert(now.no_duplicates());
    }
}

/// No position is dealt twice, and in the end every position is dealt.
pub proof fn law_every_position_is_dealt_once(groups: Seq<Group>, positions: Seq<JsonView>)
    requires
        by_phase(groups, positions),
    ensures
        dealt(groups, positions.len() as int).no_duplicates(),
        forall|p: int|
            0 <= p < positions.len() ==> #[trigger] dealt(
                groups,
                positions.len() as int,
            ).contains(p),
        forall|i: int|
            0 <= i < dealt(groups, positions.len() as int).len() ==> 0 <= #[trigger] dealt(
                groups,
                positions.len() as int,
            )[i] < positions.len(),
{
    let keys = phase_keys(positions);
    let n = positions.len() as int;
    lemma_dealt(groups, keys, n);
    let all = dealt(groups, n);
    assert forall|p: int| 0 <= p < n implies #[trigger] all.contains(p) by {
        assert(keys[p] == keys[p]);
        let g = choose|g: int| 0 <= g < groups.len() && texts((#[trigger] groups[g]).key@) == keys[p];
        let key = texts(groups[g].key@);
        lemma_places_of(keys, n, key);
        lemma_places_below(keys, n, key);
        let places = places_of(keys, n, key);
        assert(places.contains(p));
        let r = choose|r: int| 0 <= r < places.len() && places[r] == p;
        assert(places_view(groups[g].places@)[r] == p);
        assert(given(groups, g, r, p));
    }
    assert forall|i: int| 0 <= i < all.len() implies 0 <= #[trigger] all[i] < n by {
        assert(in_rounds(groups, n, all[i]));
        let (h, q) = choose|h: int, q: int| q < n && #[trigger] given(groups, h, q, all[i]);
        lemma_given_once(groups, keys, h, q, h, q, all[i]);
    }
}

/// The pairs of `i` with the numbers after it and below `j`.
pub open spec fn pair_row(i: int, j: int) -> Seq<(int, int)>
    decreases j - i,
{
    if j <= i + 1 {
        Seq::empty()
    } else {
        pair_row(i, j - 1).push((i, j - 1))
    }
}

/// The pairs of numbers below `n` whose first is below `m`, in order.
pub open spec fn pair_rows(n: int, m: int) -> Seq<(int, int)>
    decreases m,
{
    if m <= 0 {
        Seq::empty()
    } else {
        pair_rows(n, m - 1) + pair_row(m - 1, n)
    }
}

/// What pairs say.
pub open spec fn pairs_view(pairs: Seq<(usize, usize)>) -> Seq<(int, int)> {
    pairs.map_values(|p: (usize, usize)| (p.0 as int, p.1 as int))
}

/// The pairs of engines that meet, by their places in the line-up.
pub fn engine_pairs(n: usize) -> (pairs: Vec<(usize, usize)>)
    ensures
        pairs_view(pairs@) == pair_rows(n as int, n as int),
{
    let mut pairs: Vec<(usize, usize)> = Vec::new();
    assert(pairs_view(pairs@) =~= Seq::empty());
    let mut i: usize = 0;
    while i < n
        invariant
            i <= n,
            pairs_view(pairs@) == pair_rows(n as int, i as int),
        decreases n - i,
    {
        let mut j: usize = i + 1;
        assert(pair_rows(n as int, i as int) + pair_row(i as int, i + 1) =~= pair_rows(
            n as int,
            i as int,
        ));
        while j < n
            invariant
                i < j <= n,
                pairs_view(pairs@) == pair_rows(n as int, i as int) + pair_row(i as int, j as int),
            decreases n - j,
        {
            let ghost before = pairs_view(pairs@);
            pairs.push((i, j));
            j = j + 1;
            assert(pairs_view(pairs@) =~= before.push((i as int, j - 1)));
            assert(pairs_view(pairs@) =~= pair_rows(n as int, i as int) + pair_row(
                i as int,
                j as int,
            ));
        }
        i = i + 1;
    }
    pairs
}

/// The number of pairs of `n` engines.
pub open spec fn pair_count(n: int) -> int {
    n * (n - 1) / 2
}

proof fn lemma_pair_row_len(i: int, j: int)
    ensures
        pair_row(i, j).len() == if j <= i + 1 {
            0
        } else {
            j - i - 1
        },
    decreases j - i,
{
    if j > i + 1 {
        lemma_pair_row_len(i, j - 1);
    }
}

proof fn lemma_pair_rows_len(n: int, m: int)
    requires
        0 <= m <= n,
    ensures
        2 * pair_rows(n, m).len() == m * (2 * n - m - 1),
    decreases m,
{
    if m > 0 {
        lemma_pair_rows_len(n, m - 1);
        lemma_pair_row_len(m - 1, n);
        assert((m - 1) * (2 * n - (m - 1) - 1) + 2 * (n - m) == m * (2 * n - m - 1))
            by (nonlinear_arith);
    } else {
        assert(m * (2 * n - m - 1) == 0) by (nonlinear_arith)
            requires
                m == 0,
        ;
    }
}

/// Every two engines meet once.
pub proof fn law_every_pair_meets(n: int)
    requires
        n >= 0,
    ensures
        pair_rows(n, n).len() == pair_count(n),
        forall|i: int, j: int| 0 <= i < j < n ==> #[trigger] pair_rows(n, n).contains((i, j)),
        forall|k: int|
            0 <= k < pair_rows(n, n).len() ==> 0 <= (#[trigger] pair_rows(n, n)[k]).0
                < pair_rows(n, n)[k].1 < n,
{
    lemma_pair_rows_len(n, n);
    assert(n * (2 * n - n - 1) == n * (n - 1)) by (nonlinear_arith);
    lemma_pair_rows(n, n);
}

proof fn lemma_pair_row(i: int, j: int)
    ensures
        forall|k: int| i < k < j ==> #[trigger] pair_row(i, j).contains((i, k)),
        forall|k: int|
            0 <= k < pair_row(i, j).len() ==> (#[trigger] pair_row(i, j)[k]).0 == i && i < pair_row(
                i,
                j,
            )[k].1 < j,
    decreases j - i,
{
    if j > i + 1 {
        lemma_pair_row(i, j - 1);
        let before = pair_row(i, j - 1);
        let now = pair_row(i, j);
        assert forall|k: int| i < k < j implies #[trigger] now.contains((i, k)) by {
            if k == j - 1 {
                assert(now[before.len() as int] == (i, k));
            } else {
                assert(before.contains((i, k)));
                let x = choose|x: int| 0 <= x < before.len() && before[x] == (i, k);
                assert(now[x] == (i, k));
            }
        }
    }
}

proof fn lemma_pair_rows(n: int, m: int)
    requires
        0 <= m <= n,
    ensures
        forall|i: int, j: int| 0 <= i < m && i < j < n ==> #[trigger] pair_rows(n, m).contains((i, j)),
        forall|k: int|
            0 <= k < pair_rows(n, m).len() ==> 0 <= (#[trigger] pair_rows(n, m)[k]).0
                < pair_rows(n, m)[k].1 < n,
    decreases m,
{
    if m > 0 {
        lemma_pair_rows(n, m - 1);
        lemma_pair_row(m - 1, n);
        let before = pair_rows(n, m - 1);
        let row = pair_row(m - 1, n);
        let now = pair_rows(n, m);
        assert forall|i: int, j: int| 0 <= i < m && i < j < n implies #[trigger] now.contains(
            (i, j),
        ) by {
            if i == m - 1 {
                assert(row.contains((i, j)));
                let x = choose|x: int| 0 <= x < row.len() && row[x] == (i, j);
                assert(now[before.len() + x] == (i, j));
            } else {
                assert(before.contains((i, j)));
                let x = choose|x: int| 0 <= x < before.len() && before[x] == (i, j);
                assert(now[x] == (i, j));
            }
        }
        assert forall|k: int| 0 <= k < now.len() implies 0 <= (#[trigger] now[k]).0 < now[k].1
            < n by {
            if k >= before.len() {
                assert(now[k] == row[k - before.len()]);
            } else {
                assert(now[k] == before[k]);
            }
        }
    }
}

/// The rows that one position gives: one for each seed from the first `n` engines
/// whose choices depend on the seed, and one from each of the others.
pub open spec fn rows_per_position(stochastic: Seq<bool>, seeds: int, n: int) -> int
    decreases n,
{
    if n <= 0 {
        0
    } else {
        rows_per_position(stochastic, seeds, n - 1) + if stochastic[n - 1] {
            seeds
        } else {
            1
        }
    }
}

/// Which engines make choices that depend on the seed.
pub open spec fn stochastic_ones<A: EngineAdapter>(adapters: Seq<A>) -> Seq<bool> {
    adapters.map_values(|a: A| a.is_stochastic())
}

proof fn lemma_rows_grow(stochastic: Seq<bool>, seeds: int, n: int, m: int)
    requires
        0 <= n <= m,
        seeds >= 0,
    ensures
        0 <= rows_per_position(stochastic, seeds, n) <= rows_per_position(stochastic, seeds, m),
    decreases m,
{
    if n < m {
        lemma_rows_grow(stochastic, seeds, n, m - 1);
    } else if n > 0 {
        lemma_rows_grow(stochastic, seeds, n - 1, n - 1);
    }
}

/// The number of rows that a run gives which starts from nothing.
pub fn expected_observations<A: EngineAdapter>(
    adapters: &Vec<A>,
    positions: usize,
    seeds: usize,
) -> (n: usize)
    requires
        rows_per_position(stochastic_ones(adapters@), seeds as int, adapters@.len() as int)
            <= usize::MAX,
        rows_per_position(stochastic_ones(adapters@), seeds as int, adapters@.len() as int)
            * positions <= usize::MAX,
    ensures
        n == rows_per_position(stochastic_ones(adapters@), seeds as int, adapters@.len() as int)
            * positions,
{
    let ghost flags = stochastic_ones(adapters@);
    let mut rows: usize = 0;
    let mut i: usize = 0;
    while i < adapters.len()
        invariant
            i <= adapters@.len(),
            flags == stochastic_ones(adapters@),
            rows == rows_per_position(flags, seeds as int, i as int),
            rows_per_position(flags, seeds as int, adapters@.len() as int) <= usize::MAX,
        decreases adapters@.len() - i,
    {
        proof {
            lemma_rows_grow(flags, seeds as int, i + 1, adapters@.len() as int);
            assert(flags[i as int] == adapters@[i as int].is_stochastic());
        }
        rows = rows + if adapters[i].stochastic() {
            seeds
        } else {
            1
        };
        i = i + 1;
    }
    rows * positions
}

/// The number of games of a run that starts from nothing.
pub open spec fn games_expected(engines: int, positions: int, seeds: int) -> int {
    pair_count(engines) * positions * seeds * 2
}

/// The number of games of a run that starts from nothing: every pair of engines
/// meets on each position with each seed, once with either as the mover.
pub fn expected_h2h_records(engines: usize, positions: usize, seeds: usize) -> (n: usize)
    requires
        engines * (engines - 1) <= usize::MAX,
        pair_count(engines as int) * positions <= usize::MAX,
        pair_count(engines as int) * positions * seeds <= usize::MAX,
        games_expected(engines as int, positions as int, seeds as int) <= usize::MAX,
    ensures
        n == games_expected(engines as int, positions as int, seeds as int),
{
    if engines == 0 {
        assert(games_expected(0, positions as int, seeds as int) == 0) by {
            assert(0 * positions * seeds * 2 == 0) by (nonlinear_arith);
        }
        return 0;
    }
    assert((engines - 1) * engines == engines * (engines - 1)) by (nonlinear_arith);
    assert(0 <= engines * (engines - 1)) by (nonlinear_arith)
        requires
            engines >= 1,
    ;
    let pairs: usize = (engines - 1) * engines / 2;
    assert(0 <= pairs * positions) by (nonlinear_arith)
        requires
            pairs >= 0,
            positions >= 0,
    ;
    assert(0 <= pairs * positions * seeds) by (nonlinear_arith)
        requires
            pairs * positions >= 0,
            seeds >= 0,
    ;
    pairs * positions * seeds * 2
}

/// The number of choices among steps.
pub open spec fn choices(steps: Seq<AgreementStep>) -> int
    decreases steps.len(),
{
    if steps.len() == 0 {
        0
    } else {
        choices(steps.drop_last()) + if steps.last() is Choose {
            1int
        } else {
            0
        }
    }
}

proof fn lemma_choices_join(a: Seq<AgreementStep>, b: Seq<AgreementStep>)
    ensures
        choices(a + b) == choices(a) + choices(b),
    decreases b.len(),
{
    if b.len() == 0 {
        assert(a + b =~= a);
    } else {
        lemma_choices_join(a, b.drop_last());
        assert((a + b).drop_last() =~= a + b.drop_last());
        assert((a + b).last() == b.last());
    }
}

proof fn lemma_engine_choices(c: Contender, e: int, p: int, id: Seq<char>, seeds: Seq<u64>, m: int)
    requires
        m >= 0,
    ensures
        choices(engine_steps(c, e, p, id, seeds, Seq::<RunKey>::empty(), m)) == m,
    decreases m,
{
    if m > 0 {
        lemma_engine_choices(c, e, p, id, seeds, m - 1);
        let none = Seq::<RunKey>::empty();
        let before = engine_steps(c, e, p, id, seeds, none, m - 1);
        assert(!left_out(none, (c.name@, c.config_label@, id, Some(seeds[m - 1]))));
        let step = AgreementStep::Choose {
            position: p as usize,
            engine: e as usize,
            seed: seeds[m - 1],
        };
        assert(before.push(step).drop_last() =~= before);
    }
}

/// Which engines of a line-up make choices that depend on the seed.
pub open spec fn seeded_ones(cs: Seq<Contender>) -> Seq<bool> {
    cs.map_values(|c: Contender| c.stochastic)
}

proof fn lemma_engines_choices(
    cs: Seq<Contender>,
    p: int,
    id: Seq<char>,
    seeds: Seq<u64>,
    n: int,
)
    requires
        0 <= n <= cs.len(),
        seeds.len() > 0,
    ensures
        choices(engines_steps(cs, p, id, seeds, Seq::<RunKey>::empty(), n)) == rows_per_position(
            seeded_ones(cs),
            seeds.len() as int,
            n,
        ),
    decreases n,
{
    if n > 0 {
        lemma_engines_choices(cs, p, id, seeds, n - 1);
        let none = Seq::<RunKey>::empty();
        let c = cs[n - 1];
        lemma_engine_choices(c, n - 1, p, id, seeds, seed_count(c, seeds));
        lemma_choices_join(
            engines_steps(cs, p, id, seeds, none, n - 1),
            engine_steps(c, n - 1, p, id, seeds, none, seed_count(c, seeds)),
        );
    }
}

/// A run that starts from nothing makes as many choices as it is expected to give
/// rows.
pub proof fn law_expected_rows(
    cs: Seq<Contender>,
    positions: Seq<JsonView>,
    seeds: Seq<u64>,
    n: int,
)
    requires
        0 <= n <= positions.len(),
        seeds.len() > 0,
    ensures
        choices(steps_of(cs, positions, seeds, Seq::<RunKey>::empty(), n)) == rows_per_position(
            seeded_ones(cs),
            seeds.len() as int,
            cs.len() as int,
        ) * n,
    decreases n,
{
    let each = rows_per_position(seeded_ones(cs), seeds.len() as int, cs.len() as int);
    if n > 0 {
        law_expected_rows(cs, positions, seeds, n - 1);
        let none = Seq::<RunKey>::empty();
        let id = text_or(positions[n - 1], "id"@, ""@);
        let before = steps_of(cs, positions, seeds, none, n - 1);
        let check = seq![AgreementStep::Check { position: (n - 1) as usize }];
        let steps = engines_steps(cs, n - 1, id, seeds, none, cs.len() as int);
        lemma_engines_choices(cs, n - 1, id, seeds, cs.len() as int);
        lemma_choices_join(before, check);
        lemma_choices_join(before + check, steps);
        reveal_with_fuel(choices, 2);
        assert(each * (n - 1) + each == each * n) by (nonlinear_arith);
    } else {
        assert(each * n == 0) by (nonlinear_arith)
            requires
                n == 0,
        ;
    }
}

proof fn lemma_seed_games(
    ids: Seq<Seq<char>>,
    a: Seq<char>,
    b: Seq<char>,
    seeds: Seq<u64>,
    position: int,
    m: int,
)
    requires
        m >= 0,
    ensures
        seed_tasks(ids, a, b, Seq::<H2hKey>::empty(), seeds, position, m).len() == 2 * m,
    decreases m,
{
    if m > 0 {
        lemma_seed_games(ids, a, b, seeds, position, m - 1);
        assert(forall|key: (Seq<char>, Seq<char>, Seq<char>, u64)|
            !#[trigger] skipped(Seq::<H2hKey>::empty(), key));
        let pair = pair_tasks(ids, a, b, Seq::<H2hKey>::empty(), position, seeds[m - 1]);
        assert(pair.len() == 2);
    }
}

proof fn lemma_position_games(
    ids: Seq<Seq<char>>,
    a: Seq<char>,
    b: Seq<char>,
    seeds: Seq<u64>,
    n: int,
)
    requires
        n >= 0,
    ensures
        position_tasks(ids, a, b, Seq::<H2hKey>::empty(), seeds, n).len() == n * seeds.len() * 2,
    decreases n,
{
    if n > 0 {
        lemma_position_games(ids, a, b, seeds, n - 1);
        lemma_seed_games(ids, a, b, seeds, n - 1, seeds.len() as int);
        assert((n - 1) * seeds.len() * 2 + 2 * seeds.len() == n * seeds.len() * 2)
            by (nonlinear_arith);
    } else {
        assert(n * seeds.len() * 2 == 0) by (nonlinear_arith)
            requires
                n == 0,
        ;
    }
}

/// All pairs of a run that starts from nothing together play as many games as are
/// expected.
pub proof fn law_expected_games(
    ids: Seq<Seq<char>>,
    a: Seq<char>,
    b: Seq<char>,
    seeds: Seq<u64>,
    engines: int,
)
    requires
        engines >= 0,
    ensures
        pair_rows(engines, engines).len() * position_tasks(
            ids,
            a,
            b,
            Seq::<H2hKey>::empty(),
            seeds,
            ids.len() as int,
        ).len() == games_expected(engines, ids.len() as int, seeds.len() as int),
{
    law_every_pair_meets(engines);
    lemma_position_games(ids, a, b, seeds, ids.len() as int);
    let c = pair_count(engines);
    let p = ids.len() as int;
    let s = seeds.len() as int;
    assert(c * (p * s * 2) == c * p * s * 2) by (nonlinear_arith);
}

/// The settings of a run as they stand in manifests and bundles.
pub open spec fn config_view(
    s: RunSettings,
    args: RunArgs,
    engines: Seq<Seq<char>>,
    seeds: Seq<u64>,
) -> JsonView {
    JsonView::Object(
        seq![
            ("beam_depth"@, JsonView::Unsigned(args.beam_depth as u64)),
            ("beam_width"@, JsonView::Unsigned(args.beam_width as u64)),
            (
                "checkpoint_dir"@,
                match s.checkpoint_dir {
                    Some(d) => JsonView::Text(d@),
                    None => JsonView::Null,
                },
            ),
            ("checkpoint_every"@, JsonView::Unsigned(s.checkpoint_every)),
            ("dataset"@, JsonView::Text(s.dataset@)),
            ("engine_seeds"@, numbers_view(seeds)),
            ("engines"@, texts_json(engines)),
            ("family"@, JsonView::Text(args.family@)),
            ("h2h_positions"@, JsonView::Unsigned(s.h2h_positions as u64)),
            ("h2h_seeds"@, JsonView::Unsigned(s.h2h_seeds)),
            ("mcts_depth"@, JsonView::Unsigned(args.mcts_depth as u64)),
            ("mcts_exploration"@, JsonView::Float(args.mcts_exploration@)),
            ("mcts_iterations"@, JsonView::Unsigned(args.mcts_iterations as u64)),
            ("minimax_depth"@, JsonView::Unsigned(args.minimax_depth as u64)),
            ("minimax_time"@, JsonView::Float(args.minimax_time.text@)),
            ("output"@, JsonView::Text(s.output@)),
            ("resume"@, JsonView::Bool(s.resume)),
            ("seed_base"@, JsonView::Unsigned(s.seed_base)),
            ("seeds"@, JsonView::Unsigned(s.seeds)),
            ("skip_h2h"@, JsonView::Bool(s.skip_h2h)),
            ("time_limit"@, JsonView::Float(args.time_limit.text@)),
            ("workers"@, JsonView::Unsigned(s.workers as u64)),
        ],
    )
}

/// The settings of a run as they stand in manifests and bundles. `engines` are the
/// names of the engines that take part, and `seeds` the seeds that they run with.
pub fn run_config(
    s: &RunSettings,
    args: &RunArgs,
    engines: &Vec<String>,
    seeds: &Vec<u64>,
) -> (j: Json)
    ensures
        j.view() == config_view(*s, *args, texts(engines@), seeds@),
{
    let members: Vec<(String, Json)> = vec![
        field("beam_depth", Json::Unsigned(args.beam_depth as u64)),
        field("beam_width", Json::Unsigned(args.beam_width as u64)),
        field("checkpoint_dir", Json::optional_text(&s.checkpoint_dir)),
        field("checkpoint_every", Json::Unsigned(s.checkpoint_every)),
        field("dataset", Json::text(s.dataset.as_str())),
        field("engine_seeds", numbers_json(seeds)),
        field("engines", text_list(engines)),
        field("family", Json::text(args.family.as_str())),
        field("h2h_positions", Json::Unsigned(s.h2h_positions as u64)),
        field("h2h_seeds", Json::Unsigned(s.h2h_seeds)),
        field("mcts_depth", Json::Unsigned(args.mcts_depth as u64)),
        field("mcts_exploration", Json::Float(args.mcts_exploration.clone())),
        field("mcts_iterations", Json::Unsigned(args.mcts_iterations as u64)),
        field("minimax_depth", Json::Unsigned(args.minimax_depth as u64)),
        field("minimax_time", Json::Float(args.minimax_time.text.clone())),
        field("output", Json::text(s.output.as_str())),
        field("resume", Json::Bool(s.resume)),
        field("seed_base", Json::Unsigned(s.seed_base)),
        field("seeds", Json::Unsigned(s.seeds)),
        field("skip_h2h", Json::Bool(s.skip_h2h)),
        field("time_limit", Json::Float(args.time_limit.text.clone())),
        field("workers", Json::Unsigned(s.workers as u64)),
    ];
    let ghost expected = config_view(*s, *args, texts(engines@), seeds@)->Object_0;
    assert(members_view(members@) =~= expected);
    Json::Object(members)
}

/// What a run says of a checkpoint that has too few games, or too many.
pub open spec fn incomplete_words(expected: int, found: int) -> Seq<char> {
    "RESUME FAILED - checkpoint h2h records incomplete: expected "@ + decimal(expected as nat)
        + ", found "@ + decimal(found as nat)
}

/// Check that a run may go on from the checkpoint whose manifest stands at `path`.
///
/// A run that leaves out the games may go on from one that played them, if all of
/// them are there: `found` games of the `expected` ones.
pub fn check_resume(
    path: &str,
    manifest: Option<&Json>,
    checksum: Option<&str>,
    config: &Json,
    skip_h2h: bool,
    expected: u64,
    found: u64,
) -> (r: Result<(), String>)
    ensures
        match manifest {
            None => r matches Err(m) && m@ == "RESUME FAILED - checkpoint manifest not found: "@
                + path@,
            Some(manifest) => if skip_h2h && found != expected {
                r matches Err(m) && m@ == incomplete_words(expected as int, found as int)
            } else {
                match r {
                    Ok(_) => may_resume(
                        manifest.view(),
                        text_option(checksum),
                        config.view(),
                        skip_h2h,
                    ),
                    Err(m) => exists|why: Seq<char>| #[trigger]
                        refusal(
                            manifest.view(),
                            text_option(checksum),
                            config.view(),
                            skip_h2h,
                            why,
                        ) && m@ == "RESUME FAILED - "@ + why,
                }
            },
        },
{
    let manifest = match manifest {
        Some(manifest) => manifest,
        None => {
            return Err(concat("RESUME FAILED - checkpoint manifest not found: ", path));
        },
    };
    if skip_h2h && found != expected {
        let mut m = "RESUME FAILED - checkpoint h2h records incomplete: expected ".to_owned();
        push_decimal(&mut m, expected);
        m.append(", found ");
        push_decimal(&mut m, found);
        return Err(m);
    }
    match validate_resume_manifest(manifest, checksum, config, skip_h2h) {
        Ok(_) => Ok(()),
        Err(why) => Err(concat("RESUME FAILED - ", why.as_str())),
    }
}

/// How far a run has come. The counts are those of the rows and games that are
/// written.
#[derive(Clone, Copy, Debug, PartialEq, Eq, Structural)]
pub struct RunProgress {
    pub observations: u64,
    pub games: u64,
    pub every: u64,
}

impl RunProgress {
    /// Whether the manifest is to be updated when `done` rows or games are written.
    pub open spec fn due(self, done: int) -> bool {
        self.every > 0 && done % (self.every as int) == 0
    }

    /// One more row is written. Says whether the manifest is to be updated now.
    pub fn add_observation(&mut self) -> (due: bool)
        requires
            old(self).observations < u64::MAX,
        ensures
            *final(self) == (RunProgress {
                observations: (old(self).observations + 1) as u64,
                ..*old(self)
            }),
            due <==> old(self).due(old(self).observations + 1),
    {
        self.observations = self.observations + 1;
        self.every > 0 && self.observations % self.every == 0
    }

    /// One more game is written. Says whether the manifest is to be updated now.
    pub fn add_game(&mut self) -> (due: bool)
        requires
            old(self).games < u64::MAX,
        ensures
            *final(self) == (RunProgress { games: (old(self).games + 1) as u64, ..*old(self) }),
            due <==> old(self).due(old(self).games + 1),
    {
        self.games = self.games + 1;
        self.every > 0 && self.games % self.every == 0
    }
}

/// How many of the first `n` positions are solved and belong to a phase.
pub open spec fn solved_in(positions: Seq<JsonView>, n: int, phase: Seq<char>) -> int
    decreases n,
{
    if n <= 0 {
        0
    } else {
        solved_in(positions, n - 1, phase) + if text_at(positions[n - 1], "phase"@) == Some(phase)
            && !(at(positions[n - 1], "reference"@) is Null) {
            1int
        } else {
            0
        }
    }
}

/// How many of the first `n` positions belong to a phase.
pub open spec fn listed_in(positions: Seq<JsonView>, n: int, phase: Seq<char>) -> int
    decreases n,
{
    if n <= 0 {
        0
    } else {
        listed_in(positions, n - 1, phase) + if text_at(positions[n - 1], "phase"@) == Some(
            phase,
        ) {
            1int
        } else {
            0
        }
    }
}

fn count_phase(positions: &Vec<Json>, phase: &str) -> (c: (usize, usize))
    ensures
        c.0 == listed_in(items_view(positions@), positions@.len() as int, phase@),
        c.1 == solved_in(items_view(positions@), positions@.len() as int, phase@),
{
    let ghost views = items_view(positions@);
    let mut listed: usize = 0;
    let mut solved: usize = 0;
    let mut i: usize = 0;
    while i < positions.len()
        invariant
            solved <= listed <= i <= positions@.len(),
            views == items_view(positions@),
            listed == listed_in(views, i as int, phase@),
            solved == solved_in(views, i as int, phase@),
        decreases positions@.len() - i,
    {
        assert(views[i as int] == positions@[i as int].view());
        let here: bool = match text_in(&positions[i], "phase") {
            Some(p) => same_text(p, phase),
            None => false,
        };
        if here {
            listed = listed + 1;
            if !copy_of(&positions[i], "reference").is_null() {
                solved = solved + 1;
            }
        }
        i = i + 1;
    }
    (listed, solved)
}

/// For each phase of the game, in order: its name, and how many positions of the
/// dataset belong to it and how many of these are solved.
pub fn phase_summary(payload: &Json) -> (r: Vec<(&'static str, usize, usize)>)
    ensures
        r@.len() == 4,
        forall|k: int|
            0 <= k < 4 ==> {
                let views = positions_of(payload.view());
                let n = views.len() as int;
                &&& (#[trigger] r@[k]).0@ == phase_name(k)
                &&& r@[k].1 == listed_in(views, n, phase_name(k))
                &&& r@[k].2 == solved_in(views, n, phase_name(k))
            },
{
    let none: Vec<Json> = Vec::new();
    let positions = match copy_of(payload, "positions") {
        Json::Array(items) => items,
        _ => none,
    };
    let ghost views = positions_of(payload.view());
    assert(items_view(positions@) =~= views);
    let mut r: Vec<(&'static str, usize, usize)> = Vec::new();
    let mut k: usize = 0;
    while k < 4
        invariant
            k <= 4,
            r@.len() == k,
            views == items_view(positions@),
            forall|j: int|
                0 <= j < k ==> {
                    &&& (#[trigger] r@[j]).0@ == phase_name(j)
                    &&& r@[j].1 == listed_in(views, views.len() as int, phase_name(j))
                    &&& r@[j].2 == solved_in(views, views.len() as int, phase_name(j))
                },
        decreases 4 - k,
    {
        let (name, _, _) = phase_bounds(k);
        let (listed, solved) = count_phase(&positions, name);
        r.push((name, listed, solved));
        k = k + 1;
    }
    r
}

} // verus!
