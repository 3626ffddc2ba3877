//! Rows of benchmark runs, summed up by engine, configuration, phase and seed.
use crate::bench::fields::{as_float, at, float_of, text_at, text_in, text_in_or, text_or, texts};
use crate::bench::grouping::{
    copy_key, group_rows, groups_of, key_le, keys_view, same_key, Group,
};
use crate::bench::json::{items_view, Json, JsonView};
use crate::bench::reference::{insert_sorted, strictly_sorted};
use crate::text::same_text;
use vstd::prelude::*;
use vstd::string::*;

verus! {

/// The text of a member, empty if it is no text.
pub open spec fn name_in(row: JsonView, f: Seq<char>) -> Seq<char> {
    text_or(row, f, ""@)
}

/// The fields that rows are grouped by.
#[derive(Clone, Copy, Debug, PartialEq, Eq, Structural)]
pub enum GroupBy {
    /// Engine and configuration.
    Engine,
    /// Engine, configuration and phase.
    Phase,
    /// Engine, configuration and position.
    Position,
    /// The phase alone.
    GamePhase,
}

/// The key of a row.
pub open spec fn key_of(by: GroupBy, row: JsonView) -> Seq<Seq<char>> {
    match by {
        GroupBy::Engine => seq![name_in(row, "engine"@), name_in(row, "config_label"@)],
        GroupBy::Phase => seq![
            name_in(row, "engine"@),
            name_in(row, "config_label"@),
            name_in(row, "phase"@),
        ],
        GroupBy::Position => seq![
            name_in(row, "engine"@),
            name_in(row, "config_label"@),
            name_in(row, "position_id"@),
        ],
        GroupBy::GamePhase => seq![name_in(row, "phase"@)],
    }
}

fn name_of(row: &Json, f: &str) -> (s: String)
    ensures
        s@ == name_in(row.view(), f@),
{
    text_in_or(row, f, "").to_owned()
}

fn key_in(by: GroupBy, row: &Json) -> (key: Vec<String>)
    ensures
        texts(key@) == key_of(by, row.view()),
{
    let key: Vec<String> = match by {
        GroupBy::Engine => vec![name_of(row, "engine"), name_of(row, "config_label")],
        GroupBy::Phase => vec![
            name_of(row, "engine"),
            name_of(row, "config_label"),
            name_of(row, "phase"),
        ],
        GroupBy::Position => vec![
            name_of(row, "engine"),
            name_of(row, "config_label"),
            name_of(row, "position_id"),
        ],
        GroupBy::GamePhase => vec![name_of(row, "phase")],
    };
    assert(texts(key@) =~= key_of(by, row.view()));
    key
}

/// The keys of some rows.
pub open spec fn keys_of(by: GroupBy, rows: Seq<JsonView>) -> Seq<Seq<Seq<char>>> {
    rows.map_values(|row: JsonView| key_of(by, row))
}

fn keys_in(by: GroupBy, rows: &Vec<Json>) -> (keys: Vec<Vec<String>>)
    ensures
        keys_view(keys@) == keys_of(by, items_view(rows@)),
{
    let ghost views = items_view(rows@);
    let mut keys: Vec<Vec<String>> = Vec::new();
    let mut i: usize = 0;
    while i < rows.len()
        invariant
            i <= rows@.len(),
            views == items_view(rows@),
            keys@.len() == i,
            forall|k: int| 0 <= k < i ==> texts((#[trigger] keys@[k])@) == key_of(by, views[k]),
        decreases rows@.len() - i,
    {
        keys.push(key_in(by, &rows[i]));
        i = i + 1;
    }
    assert(keys_view(keys@) =~= keys_of(by, views));
    keys
}

/// The rows grouped by their keys.
fn grouped(by: GroupBy, rows: &Vec<Json>) -> (groups: Vec<Group>)
    ensures
        groups_of(groups@, keys_of(by, items_view(rows@)), rows@.len() as int),
{
    let keys = keys_in(by, rows);
    assert(keys_view(keys@).len() == keys@.len());
    assert(keys_of(by, items_view(rows@)).len() == rows@.len());
    group_rows(&keys)
}

/// Which rows are counted.
#[derive(Clone, Copy, Debug, PartialEq, Eq, Structural)]
pub enum Tally {
    All,
    /// Rows whose position has an exact reference.
    Solved,
    /// Rows whose move is optimal.
    Hits,
}

/// Whether a row is counted.
pub open spec fn counts(t: Tally, row: JsonView) -> bool {
    match t {
        Tally::All => true,
        Tally::Solved => !(at(row, "hit"@) is Null),
        Tally::Hits => at(row, "hit"@) == JsonView::Bool(true),
    }
}

fn is_counted(t: Tally, row: &Json) -> (r: bool)
    ensures
        r <==> counts(t, row.view()),
{
    match t {
        Tally::All => true,
        Tally::Solved => match row.get("hit") {
            Some(v) => !v.is_null(),
            None => false,
        },
        Tally::Hits => match row.get("hit") {
            Some(v) => match v {
                Json::Bool(b) => *b,
                _ => false,
            },
            None => false,
        },
    }
}

/// How many of the first `n` rows have the key and are counted.
pub open spec fn tally(
    t: Tally,
    by: GroupBy,
    rows: Seq<JsonView>,
    n: int,
    key: Seq<Seq<char>>,
) -> int
    decreases n,
{
    if n <= 0 {
        0
    } else {
        tally(t, by, rows, n - 1, key) + if key_of(by, rows[n - 1]) == key && counts(
            t,
            rows[n - 1],
        ) {
            1int
        } else {
            0
        }
    }
}

/// Count the rows with a key.
fn count_rows(t: Tally, by: GroupBy, rows: &Vec<Json>, key: &Vec<String>) -> (c: u64)
    ensures
        c == tally(t, by, items_view(rows@), rows@.len() as int, texts(key@)),
        c <= rows@.len(),
{
    let ghost views = items_view(rows@);
    let mut c: u64 = 0;
    let mut i: usize = 0;
    while i < rows.len()
        invariant
            i <= rows@.len(),
            views == items_view(rows@),
            c <= i,
            c == tally(t, by, views, i as int, texts(key@)),
        decreases rows@.len() - i,
    {
        assert(views[i as int] == rows@[i as int].view());
        if same_key(&key_in(by, &rows[i]), key) && is_counted(t, &rows[i]) {
            c = c + 1;
        }
        i = i + 1;
    }
    c
}

/// The agreement of one engine and configuration in one phase.
#[derive(Debug)]
pub struct AgreementGroup {
    /// Engine, configuration and phase.
    pub key: Vec<String>,
    /// Rows with an exact reference.
    pub n: u64,
    /// Rows with an optimal move.
    pub hits: u64,
}

/// Whether keys are listed in order, none of them twice.
pub open spec fn keys_sorted(keys: Seq<Seq<Seq<char>>>) -> bool {
    forall|g: int, h: int|
        0 <= g < h < keys.len() ==> key_le(#[trigger] keys[g], #[trigger] keys[h]) && keys[g]
            != keys[h]
}

/// The keys of some groups.
pub open spec fn agreement_keys(groups: Seq<AgreementGroup>) -> Seq<Seq<Seq<char>>> {
    groups.map_values(|g: AgreementGroup| texts(g.key@))
}

/// Whether `groups` sum the rows up: one group for each engine, configuration and
/// phase with an exact reference, in order, with its numbers of rows and of hits.
pub open spec fn agreement_ok(groups: Seq<AgreementGroup>, rows: Seq<JsonView>) -> bool {
    let n = rows.len() as int;
    &&& keys_sorted(agreement_keys(groups))
    &&& forall|g: int|
        0 <= g < groups.len() ==> {
            let key = texts((#[trigger] groups[g]).key@);
            &&& groups[g].n == tally(Tally::Solved, GroupBy::Phase, rows, n, key)
            &&& groups[g].hits == tally(Tally::Hits, GroupBy::Phase, rows, n, key)
            &&& groups[g].n > 0
        }
    &&& forall|i: int|
        0 <= i < n && counts(Tally::Solved, #[trigger] rows[i]) ==> agreement_keys(
            groups,
        ).contains(key_of(GroupBy::Phase, rows[i]))
}

/// A row that is counted makes its key's number positive.
proof fn lemma_tally_positive(t: Tally, by: GroupBy, rows: Seq<JsonView>, n: int, i: int)
    requires
        0 <= i < n <= rows.len(),
        counts(t, rows[i]),
    ensures
        tally(t, by, rows, n, key_of(by, rows[i])) > 0,
    decreases n,
{
    lemma_tally_bounds(t, by, rows, n - 1, key_of(by, rows[i]));
    if i < n - 1 {
        lemma_tally_positive(t, by, rows, n - 1, i);
    }
}

proof fn lemma_tally_bounds(
    t: Tally,
    by: GroupBy,
    rows: Seq<JsonView>,
    n: int,
    key: Seq<Seq<char>>,
)
    requires
        0 <= n,
    ensures
        0 <= tally(t, by, rows, n, key) <= n,
    decreases n,
{
    if n > 0 {
        lemma_tally_bounds(t, by, rows, n - 1, key);
    }
}

/// Sum up agreement with exact references by engine, configuration and phase.
pub fn aggregate_agreement(rows: &Vec<Json>) -> (r: Vec<AgreementGroup>)
    ensures
        agreement_ok(r@, items_view(rows@)),
{
    let ghost views = items_view(rows@);
    let ghost n = views.len() as int;
    let groups = grouped(GroupBy::Phase, rows);
    let ghost all = groups@;
    let mut r: Vec<AgreementGroup> = Vec::new();
    let ghost mut origin: Seq<int> = Seq::empty();
    let mut g: usize = 0;
    while g < groups.len()
        invariant
            g <= groups@.len(),
            views == items_view(rows@),
            n == views.len(),
            groups@ == all,
            groups_of(all, keys_of(GroupBy::Phase, views), n),
            r@.len() == origin.len(),
            forall|k: int|
                0 <= k < r@.len() ==> 0 <= #[trigger] origin[k] < g && texts(r@[k].key@) == texts(
                    all[origin[k]].key@,
                ),
            forall|k: int, l: int|
                0 <= k < l < origin.len() ==> #[trigger] origin[k] < #[trigger] origin[l],
            forall|k: int|
                0 <= k < r@.len() ==> {
                    let key = texts((#[trigger] r@[k]).key@);
                    &&& r@[k].n == tally(Tally::Solved, GroupBy::Phase, views, n, key)
                    &&& r@[k].hits == tally(Tally::Hits, GroupBy::Phase, views, n, key)
                    &&& r@[k].n > 0
                },
            forall|h: int|
                0 <= h < g && tally(
                    Tally::Solved,
                    GroupBy::Phase,
                    views,
                    n,
                    texts((#[trigger] all[h]).key@),
                ) > 0 ==> agreement_keys(r@).contains(texts(all[h].key@)),
        decreases groups@.len() - g,
    {
        let key = copy_key(&groups[g].key);
        let solved: u64 = count_rows(Tally::Solved, GroupBy::Phase, rows, &key);
        if solved > 0 {
            let hits: u64 = count_rows(Tally::Hits, GroupBy::Phase, rows, &key);
            let ghost before = r@;
            let ghost name = texts(key@);
            r.push(AgreementGroup { key, n: solved, hits });
            proof {
                origin = origin.push(g as int);
                assert forall|h: int|
                    0 <= h < g + 1 && tally(
                        Tally::Solved,
                        GroupBy::Phase,
                        views,
                        n,
                        texts((#[trigger] all[h]).key@),
                    ) > 0 implies agreement_keys(r@).contains(texts(all[h].key@)) by {
                    if h < g {
                        let k = choose|k: int|
                            0 <= k < agreement_keys(before).len() && agreement_keys(before)[k]
                                == texts(all[h].key@);
                        assert(agreement_keys(r@)[k] == texts(all[h].key@));
                    } else {
                        assert(agreement_keys(r@)[before.len() as int] == name);
                    }
                }
            }
        }
        g = g + 1;
    }
    proof {
        let names = agreement_keys(r@);
        assert forall|a: int, b: int| 0 <= a < b < names.len() implies key_le(
            #[trigger] names[a],
            #[trigger] names[b],
        ) && names[a] != names[b] by {
            assert(origin[a] < origin[b]);
            assert(texts(all[origin[a]].key@) == names[a]);
            assert(texts(all[origin[b]].key@) == names[b]);
        }
        assert forall|i: int|
            0 <= i < n && counts(Tally::Solved, #[trigger] views[i]) implies names.contains(
            key_of(GroupBy::Phase, views[i]),
        ) by {
            let keys = keys_of(GroupBy::Phase, views);
            assert(keys[i] == key_of(GroupBy::Phase, views[i]));
            let h = choose|h: int|
                0 <= h < all.len() && texts((#[trigger] all[h]).key@) == keys[i];
            lemma_tally_positive(Tally::Solved, GroupBy::Phase, views, n, i);
            assert(texts(all[h].key@) == keys[i]);
        }
    }
    r
}

/// The cost of the moves of one engine and configuration.
#[derive(Debug)]
pub struct CostGroup {
    /// Engine and configuration.
    pub key: Vec<String>,
    pub n: u64,
    /// The wall-clock times of the rows that have one, in scientific notation.
    pub wall_times: Vec<String>,
    /// The numbers of nodes of the rows that have one.
    pub nodes: Vec<u64>,
    pub peak_memory_bytes: Option<u64>,
}

/// The wall-clock times of the first `n` rows with the key.
pub open spec fn times_of(rows: Seq<JsonView>, n: int, key: Seq<Seq<char>>) -> Seq<Seq<char>>
    decreases n,
{
    if n <= 0 {
        Seq::empty()
    } else {
        let before = times_of(rows, n - 1, key);
        match float_of(at(rows[n - 1], "wall_time_s"@)) {
            Some(t) => if key_of(GroupBy::Engine, rows[n - 1]) == key {
                before.push(t)
            } else {
                before
            },
            None => before,
        }
    }
}

/// The numbers of nodes of the first `n` rows with the key.
pub open spec fn nodes_of(rows: Seq<JsonView>, n: int, key: Seq<Seq<char>>) -> Seq<u64>
    decreases n,
{
    if n <= 0 {
        Seq::empty()
    } else {
        let before = nodes_of(rows, n - 1, key);
        match at(rows[n - 1], "nodes"@) {
            JsonView::Unsigned(c) => if key_of(GroupBy::Engine, rows[n - 1]) == key {
                before.push(c)
            } else {
                before
            },
            _ => before,
        }
    }
}

/// The largest peak of memory of the first `n` rows with the key.
pub open spec fn peak_of(rows: Seq<JsonView>, n: int, key: Seq<Seq<char>>) -> Option<u64>
    decreases n,
{
    if n <= 0 {
        None
    } else {
        let before = peak_of(rows, n - 1, key);
        match at(rows[n - 1], "peak_memory_bytes"@) {
            JsonView::Unsigned(c) => if key_of(GroupBy::Engine, rows[n - 1]) == key {
                match before {
                    Some(p) => if p >= c {
                        before
                    } else {
                        Some(c)
                    },
                    None => Some(c),
                }
            } else {
                before
            },
            _ => before,
        }
    }
}

/// Whether `group` sums up the rows with its key.
pub open spec fn cost_group_ok(group: CostGroup, rows: Seq<JsonView>) -> bool {
    let n = rows.len() as int;
    let key = texts(group.key@);
    &&& group.n == tally(Tally::All, GroupBy::Engine, rows, n, key)
    &&& texts(group.wall_times@) == times_of(rows, n, key)
    &&& group.nodes@ == nodes_of(rows, n, key)
    &&& group.peak_memory_bytes == peak_of(rows, n, key)
}

/// The keys of some groups.
pub open spec fn cost_keys(groups: Seq<CostGroup>) -> Seq<Seq<Seq<char>>> {
    groups.map_values(|g: CostGroup| texts(g.key@))
}

fn unsigned_in(row: &Json, f: &str) -> (r: Option<u64>)
    ensures
        match r {
            Some(n) => at(row.view(), f@) == JsonView::Unsigned(n),
            None => !(at(row.view(), f@) is Unsigned),
        },
{
    match row.get(f) {
        Some(v) => v.as_unsigned(),
        None => None,
    }
}

fn cost_group(rows: &Vec<Json>, key: Vec<String>) -> (group: CostGroup)
    ensures
        group.key == key,
        cost_group_ok(group, items_view(rows@)),
{
    let ghost views = items_view(rows@);
    let ghost name = texts(key@);
    let n: u64 = count_rows(Tally::All, GroupBy::Engine, rows, &key);
    let mut wall_times: Vec<String> = Vec::new();
    let mut nodes: Vec<u64> = Vec::new();
    let mut peak: Option<u64> = None;
    let mut i: usize = 0;
    assert(texts(wall_times@) =~= Seq::empty());
    while i < rows.len()
        invariant
            i <= rows@.len(),
            views == items_view(rows@),
            name == texts(key@),
            texts(wall_times@) == times_of(views, i as int, name),
            nodes@ == nodes_of(views, i as int, name),
            peak == peak_of(views, i as int, name),
        decreases rows@.len() - i,
    {
        let row = &rows[i];
        assert(views[i as int] == row.view());
        if same_key(&key_in(GroupBy::Engine, row), &key) {
            let time = match row.get("wall_time_s") {
                Some(v) => as_float(v),
                None => None,
            };
            if let Some(t) = time {
                let ghost before = texts(wall_times@);
                let ghost shown = t@;
                wall_times.push(t);
                assert(texts(wall_times@) =~= before.push(shown));
            }
            if let Some(c) = unsigned_in(row, "nodes") {
                nodes.push(c);
            }
            if let Some(c) = unsigned_in(row, "peak_memory_bytes") {
                peak = match peak {
                    Some(p) => if p >= c {
                        Some(p)
                    } else {
                        Some(c)
                    },
                    None => Some(c),
                };
            }
        }
        i = i + 1;
    }
    CostGroup { key, n, wall_times, nodes, peak_memory_bytes: peak }
}

/// Whether `groups` sum the rows up: one group for each engine and configuration,
/// in order.
pub open spec fn cost_ok(groups: Seq<CostGroup>, rows: Seq<JsonView>) -> bool {
    &&& keys_sorted(cost_keys(groups))
    &&& forall|g: int| 0 <= g < groups.len() ==> #[trigger] cost_group_ok(groups[g], rows)
    &&& forall|i: int|
        0 <= i < rows.len() ==> cost_keys(groups).contains(
            key_of(GroupBy::Engine, #[trigger] rows[i]),
        )
}

/// Sum up measured costs by engine and configuration.
pub fn aggregate_cost(rows: &Vec<Json>) -> (r: Vec<CostGroup>)
    ensures
        cost_ok(r@, items_view(rows@)),
{
    let ghost views = items_view(rows@);
    let groups = grouped(GroupBy::Engine, rows);
    let mut r: Vec<CostGroup> = Vec::new();
    let mut g: usize = 0;
    while g < groups.len()
        invariant
            g <= groups@.len(),
            views == items_view(rows@),
            r@.len() == g,
            forall|k: int|
                0 <= k < g ==> texts((#[trigger] r@[k]).key@) == texts(groups@[k].key@),
            forall|k: int| 0 <= k < g ==> #[trigger] cost_group_ok(r@[k], views),
        decreases groups@.len() - g,
    {
        r.push(cost_group(rows, copy_key(&groups[g].key)));
        g = g + 1;
    }
    proof {
        let names = cost_keys(r@);
        assert forall|a: int, b: int| 0 <= a < b < names.len() implies key_le(
            #[trigger] names[a],
            #[trigger] names[b],
        ) && names[a] != names[b] by {
            assert(texts(groups@[a].key@) == names[a]);
            assert(texts(groups@[b].key@) == names[b]);
        }
        assert forall|i: int| 0 <= i < views.len() implies names.contains(
            key_of(GroupBy::Engine, #[trigger] views[i]),
        ) by {
            let keys = keys_of(GroupBy::Engine, views);
            assert(keys[i] == key_of(GroupBy::Engine, views[i]));
            let h = choose|h: int|
                0 <= h < groups@.len() && texts((#[trigger] groups@[h]).key@) == keys[i];
            assert(names[h] == keys[i]);
        }
    }
    r
}

/// How steady the choices of one engine and configuration are across seeds.
#[derive(Debug)]
pub struct StabilityGroup {
    /// Engine and configuration.
    pub key: Vec<String>,
    /// The seeds, in order; no seed comes first.
    pub seeds: Vec<Option<u64>>,
    /// The positions, in order.
    pub positions: Vec<String>,
    /// For each position the rows with its most frequent move, and all its rows.
    pub consistency: Vec<(u64, u64)>,
    /// For each seed with exact references the hits, and the rows with a
    /// reference.
    pub agreement: Vec<(u64, u64)>,
}

/// The seed of a row.
pub open spec fn seed_of(row: JsonView) -> Option<u64> {
    match at(row, "seed"@) {
        JsonView::Unsigned(n) => Some(n),
        _ => None,
    }
}

/// Whether the seed `a` comes before `b`: no seed comes first.
pub open spec fn seed_less(a: Option<u64>, b: Option<u64>) -> bool {
    match (a, b) {
        (None, Some(_)) => true,
        (Some(x), Some(y)) => x < y,
        _ => false,
    }
}

fn is_seed_less(a: Option<u64>, b: Option<u64>) -> (r: bool)
    ensures
        r <==> seed_less(a, b),
{
    match a {
        None => b.is_some(),
        Some(x) => match b {
            None => false,
            Some(y) => x < y,
        },
    }
}

/// Whether seeds are listed in order, none of them twice.
pub open spec fn seeds_sorted(seeds: Seq<Option<u64>>) -> bool {
    forall|i: int, j: int|
        0 <= i < j < seeds.len() ==> seed_less(#[trigger] seeds[i], #[trigger] seeds[j])
}

/// Put a seed in its place unless it is there.
fn add_seed(seeds: &mut Vec<Option<u64>>, seed: Option<u64>)
    requires
        seeds_sorted(old(seeds)@),
    ensures
        seeds_sorted(final(seeds)@),
        forall|s: Option<u64>| #[trigger]
            final(seeds)@.contains(s) <==> old(seeds)@.contains(s) || s == seed,
{
    let ghost before = seeds@;
    let mut k: usize = 0;
    while k < seeds.len() && is_seed_less(seeds[k], seed)
        invariant
            k <= seeds@.len(),
            seeds@ == before,
            forall|i: int| 0 <= i < k ==> seed_less(#[trigger] before[i], seed),
        decreases seeds@.len() - k,
    {
        k = k + 1;
    }
    if k < seeds.len() && !is_seed_less(seed, seeds[k]) {
        assert(before[k as int] == seed);
        return;
    }
    seeds.insert(k, seed);
    proof {
        let after = seeds@;
        assert(after =~= before.insert(k as int, seed));
        assert forall|i: int, j: int| 0 <= i < j < after.len() implies seed_less(
            #[trigger] after[i],
            #[trigger] after[j],
        ) by {
            let x = if i < k {
                i
            } else {
                i - 1
            };
            let y = if j < k {
                j
            } else {
                j - 1
            };
            if i != k {
                assert(after[i] == before[x]);
            }
            if j != k {
                assert(after[j] == before[y]);
            }
            if i == k && y > k {
                assert(seed_less(before[k as int], before[y]));
            }
        }
        assert forall|s: Option<u64>| #[trigger]
            after.contains(s) <==> before.contains(s) || s == seed by {
            if before.contains(s) {
                let i = choose|i: int| 0 <= i < before.len() && before[i] == s;
                if i < k {
                    assert(after[i] == s);
                } else {
                    assert(after[i + 1] == s);
                }
            }
            if s == seed {
                assert(after[k as int] == s);
            }
            if after.contains(s) && s != seed {
                let i = choose|i: int| 0 <= i < after.len() && after[i] == s;
                if i < k {
                    assert(before[i] == s);
                } else {
                    assert(before[i - 1] == s);
                }
            }
        }
    }
}

/// How many of the first `n` rows have the key and the seed and are counted.
pub open spec fn seed_tally(
    t: Tally,
    rows: Seq<JsonView>,
    n: int,
    key: Seq<Seq<char>>,
    seed: Option<u64>,
) -> int
    decreases n,
{
    if n <= 0 {
        0
    } else {
        seed_tally(t, rows, n - 1, key, seed) + if key_of(GroupBy::Engine, rows[n - 1]) == key
            && seed_of(rows[n - 1]) == seed && counts(t, rows[n - 1]) {
            1int
        } else {
            0
        }
    }
}

fn row_seed(row: &Json) -> (s: Option<u64>)
    ensures
        s == seed_of(row.view()),
{
    unsigned_in(row, "seed")
}

fn count_seed(t: Tally, rows: &Vec<Json>, key: &Vec<String>, seed: Option<u64>) -> (c: u64)
    ensures
        c == seed_tally(t, items_view(rows@), rows@.len() as int, texts(key@), seed),
{
    let ghost views = items_view(rows@);
    let mut c: u64 = 0;
    let mut i: usize = 0;
    while i < rows.len()
        invariant
            i <= rows@.len(),
            views == items_view(rows@),
            c <= i,
            c == seed_tally(t, views, i as int, texts(key@), seed),
        decreases rows@.len() - i,
    {
        assert(views[i as int] == rows@[i as int].view());
        if same_key(&key_in(GroupBy::Engine, &rows[i]), key) && row_seed(&rows[i]) == seed
            && is_counted(t, &rows[i]) {
            c = c + 1;
        }
        i = i + 1;
    }
    c
}

/// The hits and the rows with a reference of each of the first `m` seeds that has
/// such rows.
pub open spec fn seed_scores(
    rows: Seq<JsonView>,
    key: Seq<Seq<char>>,
    seeds: Seq<Option<u64>>,
    m: int,
) -> Seq<(u64, u64)>
    decreases m,
{
    if m <= 0 {
        Seq::empty()
    } else {
        let n = rows.len() as int;
        let before = seed_scores(rows, key, seeds, m - 1);
        let solved = seed_tally(Tally::Solved, rows, n, key, seeds[m - 1]);
        if solved > 0 {
            before.push(
                (seed_tally(Tally::Hits, rows, n, key, seeds[m - 1]) as u64, solved as u64),
            )
        } else {
            before
        }
    }
}

/// How many of the first `n` rows have the key and chose `mv`.
pub open spec fn move_count(
    rows: Seq<JsonView>,
    n: int,
    key: Seq<Seq<char>>,
    mv: Seq<char>,
) -> int
    decreases n,
{
    if n <= 0 {
        0
    } else {
        move_count(rows, n - 1, key, mv) + if key_of(GroupBy::Position, rows[n - 1]) == key
            && name_in(rows[n - 1], "move"@) == mv {
            1int
        } else {
            0
        }
    }
}

/// The largest number of rows with the key that chose the same move as one of the
/// first `n` of them.
pub open spec fn modal_count(rows: Seq<JsonView>, n: int, key: Seq<Seq<char>>) -> int
    decreases n,
{
    if n <= 0 {
        0
    } else {
        let before = modal_count(rows, n - 1, key);
        let last = move_count(rows, rows.len() as int, key, name_in(rows[n - 1], "move"@));
        if key_of(GroupBy::Position, rows[n - 1]) == key && last > before {
            last
        } else {
            before
        }
    }
}

fn count_moves(rows: &Vec<Json>, key: &Vec<String>, mv: &str) -> (c: u64)
    ensures
        c == move_count(items_view(rows@), rows@.len() as int, texts(key@), mv@),
{
    let ghost views = items_view(rows@);
    let mut c: u64 = 0;
    let mut i: usize = 0;
    while i < rows.len()
        invariant
            i <= rows@.len(),
            views == items_view(rows@),
            c <= i,
            c == move_count(views, i as int, texts(key@), mv@),
        decreases rows@.len() - i,
    {
        assert(views[i as int] == rows@[i as int].view());
        if same_key(&key_in(GroupBy::Position, &rows[i]), key) && same_text(
            text_in_or(&rows[i], "move", ""),
            mv,
        ) {
            c = c + 1;
        }
        i = i + 1;
    }
    c
}

fn largest_agreement(rows: &Vec<Json>, key: &Vec<String>) -> (c: u64)
    ensures
        c == modal_count(items_view(rows@), rows@.len() as int, texts(key@)),
{
    let ghost views = items_view(rows@);
    let mut c: u64 = 0;
    let mut i: usize = 0;
    while i < rows.len()
        invariant
            i <= rows@.len(),
            views == items_view(rows@),
            c == modal_count(views, i as int, texts(key@)),
        decreases rows@.len() - i,
    {
        assert(views[i as int] == rows@[i as int].view());
        if same_key(&key_in(GroupBy::Position, &rows[i]), key) {
            let same: u64 = count_moves(rows, key, text_in_or(&rows[i], "move", ""));
            if same > c {
                c = same;
            }
        }
        i = i + 1;
    }
    c
}

/// Whether `group` sums up the rows with its key.
pub open spec fn stability_group_ok(group: StabilityGroup, rows: Seq<JsonView>) -> bool {
    let n = rows.len() as int;
    let key = texts(group.key@);
    &&& seeds_sorted(group.seeds@)
    &&& forall|s: Option<u64>| #[trigger]
        group.seeds@.contains(s) <==> exists|i: int|
            0 <= i < n && key_of(GroupBy::Engine, #[trigger] rows[i]) == key && seed_of(rows[i])
                == s
    &&& strictly_sorted(texts(group.positions@))
    &&& forall|p: Seq<char>| #[trigger]
        texts(group.positions@).contains(p) <==> exists|i: int|
            0 <= i < n && key_of(GroupBy::Engine, #[trigger] rows[i]) == key && name_in(
                rows[i],
                "position_id"@,
            ) == p
    &&& group.consistency@.len() == group.positions@.len()
    &&& forall|j: int|
        0 <= j < group.positions@.len() ==> {
            let place = key.push(group.positions@[j]@);
            &&& (#[trigger] group.consistency@[j]).0 == modal_count(rows, n, place)
            &&& group.consistency@[j].1 == tally(Tally::All, GroupBy::Position, rows, n, place)
        }
    &&& group.agreement@ == seed_scores(rows, key, group.seeds@, group.seeds@.len() as int)
}

/// Put a name in its place unless it is there.
pub(crate) fn add_name(names: &mut Vec<String>, name: &str)
    requires
        strictly_sorted(texts(old(names)@)),
    ensures
        strictly_sorted(texts(final(names)@)),
        forall|s: Seq<char>| #[trigger]
            texts(final(names)@).contains(s) <==> texts(old(names)@).contains(s) || s == name@,
{
    let ghost before = texts(names@);
    let mut k: usize = 0;
    while k < names.len()
        invariant
            k <= names@.len(),
            before == texts(names@),
            before == texts(old(names)@),
            strictly_sorted(before),
            forall|i: int| 0 <= i < k ==> #[trigger] before[i] != name@,
        decreases names@.len() - k,
    {
        assert(before[k as int] == names@[k as int]@);
        if same_text(names[k].as_str(), name) {
            assert(before.contains(name@));
            return;
        }
        k = k + 1;
    }
    insert_sorted(names, name.to_owned());
    proof {
        let after = texts(names@);
        let p = choose|p: int| 0 <= p <= before.len() && #[trigger] before.insert(p, name@) == after;
        assert forall|s: Seq<char>| #[trigger]
            after.contains(s) <==> before.contains(s) || s == name@ by {
            if before.contains(s) {
                let i = choose|i: int| 0 <= i < before.len() && before[i] == s;
                if i < p {
                    assert(after[i] == s);
                } else {
                    assert(after[i + 1] == s);
                }
            }
            if s == name@ {
                assert(after[p] == s);
            }
            if after.contains(s) && s != name@ {
                let i = choose|i: int| 0 <= i < after.len() && after[i] == s;
                if i < p {
                    assert(before[i] == s);
                } else {
                    assert(before[i - 1] == s);
                }
            }
        }
    }
}

fn stability_group(rows: &Vec<Json>, key: Vec<String>) -> (group: StabilityGroup)
    ensures
        group.key == key,
        stability_group_ok(group, items_view(rows@)),
{
    let ghost views = items_view(rows@);
    let ghost n = views.len() as int;
    let ghost name = texts(key@);
    let mut seeds: Vec<Option<u64>> = Vec::new();
    let mut positions: Vec<String> = Vec::new();
    let mut i: usize = 0;
    assert(texts(positions@) =~= Seq::empty());
    while i < rows.len()
        invariant
            i <= rows@.len(),
            views == items_view(rows@),
            name == texts(key@),
            seeds_sorted(seeds@),
            forall|s: Option<u64>| #[trigger]
                seeds@.contains(s) <==> exists|k: int|
                    0 <= k < i && key_of(GroupBy::Engine, #[trigger] views[k]) == name && seed_of(
                        views[k],
                    ) == s,
            strictly_sorted(texts(positions@)),
            forall|p: Seq<char>| #[trigger]
                texts(positions@).contains(p) <==> exists|k: int|
                    0 <= k < i && key_of(GroupBy::Engine, #[trigger] views[k]) == name && name_in(
                        views[k],
                        "position_id"@,
                    ) == p,
        decreases rows@.len() - i,
    {
        let row = &rows[i];
        assert(views[i as int] == row.view());
        if same_key(&key_in(GroupBy::Engine, row), &key) {
            let ghost seeds_before = seeds@;
            let ghost names_before = texts(positions@);
            add_seed(&mut seeds, row_seed(row));
            add_name(&mut positions, text_in_or(row, "position_id", ""));
            proof {
                assert forall|s: Option<u64>| #[trigger]
                    seeds@.contains(s) <==> exists|k: int|
                        0 <= k < i + 1 && key_of(GroupBy::Engine, #[trigger] views[k]) == name
                            && seed_of(views[k]) == s by {
                    assert(seeds@.contains(s) <==> seeds_before.contains(s) || s == seed_of(
                        views[i as int],
                    ));
                    if s == seed_of(views[i as int]) {
                        assert(key_of(GroupBy::Engine, views[i as int]) == name);
                    }
                    if seeds_before.contains(s) {
                        let k = choose|k: int|
                            0 <= k < i && key_of(GroupBy::Engine, #[trigger] views[k]) == name
                                && seed_of(views[k]) == s;
                        assert(key_of(GroupBy::Engine, views[k]) == name);
                    }
                }
                assert forall|p: Seq<char>| #[trigger]
                    texts(positions@).contains(p) <==> exists|k: int|
                        0 <= k < i + 1 && key_of(GroupBy::Engine, #[trigger] views[k]) == name
                            && name_in(views[k], "position_id"@) == p by {
                    assert(texts(positions@).contains(p) <==> names_before.contains(p) || p
                        == name_in(views[i as int], "position_id"@));
                    if p == name_in(views[i as int], "position_id"@) {
                        assert(key_of(GroupBy::Engine, views[i as int]) == name);
                    }
                    if names_before.contains(p) {
                        let k = choose|k: int|
                            0 <= k < i && key_of(GroupBy::Engine, #[trigger] views[k]) == name
                                && name_in(views[k], "position_id"@) == p;
                        assert(key_of(GroupBy::Engine, views[k]) == name);
                    }
                }
            }
        }
        i = i + 1;
    }
    let mut consistency: Vec<(u64, u64)> = Vec::new();
    let mut j: usize = 0;
    while j < positions.len()
        invariant
            j <= positions@.len(),
            views == items_view(rows@),
            n == views.len(),
            name == texts(key@),
            consistency@.len() == j,
            forall|k: int|
                0 <= k < j ==> {
                    let place = name.push(positions@[k]@);
                    &&& (#[trigger] consistency@[k]).0 == modal_count(views, n, place)
                    &&& consistency@[k].1 == tally(Tally::All, GroupBy::Position, views, n, place)
                },
        decreases positions@.len() - j,
    {
        let mut place = copy_key(&key);
        let ghost before = place@;
        place.push(positions[j].clone());
        assert(texts(place@) =~= texts(before).push(positions@[j as int]@));
        let modal: u64 = largest_agreement(rows, &place);
        let total: u64 = count_rows(Tally::All, GroupBy::Position, rows, &place);
        consistency.push((modal, total));
        j = j + 1;
    }
    let mut agreement: Vec<(u64, u64)> = Vec::new();
    let mut m: usize = 0;
    while m < seeds.len()
        invariant
            m <= seeds@.len(),
            views == items_view(rows@),
            n == views.len(),
            name == texts(key@),
            agreement@ == seed_scores(views, name, seeds@, m as int),
        decreases seeds@.len() - m,
    {
        let seed = seeds[m];
        let solved: u64 = count_seed(Tally::Solved, rows, &key, seed);
        if solved > 0 {
            let hits: u64 = count_seed(Tally::Hits, rows, &key, seed);
            agreement.push((hits, solved));
        }
        m = m + 1;
    }
    StabilityGroup { key, seeds, positions, consistency, agreement }
}

/// The keys of some groups.
pub open spec fn stability_keys(groups: Seq<StabilityGroup>) -> Seq<Seq<Seq<char>>> {
    groups.map_values(|g: StabilityGroup| texts(g.key@))
}

/// Whether `groups` sum the rows up: one group for each engine and configuration,
/// in order.
pub open spec fn stability_ok(groups: Seq<StabilityGroup>, rows: Seq<JsonView>) -> bool {
    &&& keys_sorted(stability_keys(groups))
    &&& forall|g: int| 0 <= g < groups.len() ==> #[trigger] stability_group_ok(groups[g], rows)
    &&& forall|i: int|
        0 <= i < rows.len() ==> stability_keys(groups).contains(
            key_of(GroupBy::Engine, #[trigger] rows[i]),
        )
}

/// Sum up the steadiness of choices by engine and configuration.
pub fn aggregate_stability(rows: &Vec<Json>) -> (r: Vec<StabilityGroup>)
    ensures
        stability_ok(r@, items_view(rows@)),
{
    let ghost views = items_view(rows@);
    let groups = grouped(GroupBy::Engine, rows);
    let mut r: Vec<StabilityGroup> = Vec::new();
    let mut g: usize = 0;
    while g < groups.len()
        invariant
            g <= groups@.len(),
            views == items_view(rows@),
            r@.len() == g,
            forall|k: int|
                0 <= k < g ==> texts((#[trigger] r@[k]).key@) == texts(groups@[k].key@),
            forall|k: int| 0 <= k < g ==> #[trigger] stability_group_ok(r@[k], views),
        decreases groups@.len() - g,
    {
        r.push(stability_group(rows, copy_key(&groups[g].key)));
        g = g + 1;
    }
    proof {
        let names = stability_keys(r@);
        assert forall|a: int, b: int| 0 <= a < b < names.len() implies key_le(
            #[trigger] names[a],
            #[trigger] names[b],
        ) && names[a] != names[b] by {
            assert(texts(groups@[a].key@) == names[a]);
            assert(texts(groups@[b].key@) == names[b]);
        }
        assert forall|i: int| 0 <= i < views.len() implies names.contains(
            key_of(GroupBy::Engine, #[trigger] views[i]),
        ) by {
            let keys = keys_of(GroupBy::Engine, views);
            assert(keys[i] == key_of(GroupBy::Engine, views[i]));
            let h = choose|h: int|
                0 <= h < groups@.len() && texts((#[trigger] groups@[h]).key@) == keys[i];
            assert(names[h] == keys[i]);
        }
    }
    r
}

/// The games of one phase between two engines.
#[derive(Debug)]
pub struct PhaseSplit {
    /// The phase.
    pub key: Vec<String>,
    pub games: u64,
    pub a_wins: u64,
    pub b_wins: u64,
}

/// The games between two engines, summed up. There are no draws.
#[derive(Debug)]
pub struct GamesSummary {
    pub engine_a: String,
    pub engine_b: String,
    pub games: u64,
    /// The pairs of a position and a seed that were played.
    pub paired_positions: u64,
    pub a_wins: u64,
    pub b_wins: u64,
    pub a_wins_as_mover: u64,
    pub b_wins_as_mover: u64,
    pub by_phase: Vec<PhaseSplit>,
}

/// Which games are counted: those that an engine won, perhaps only in one phase or
/// only as the mover.
pub open spec fn won_game(
    row: JsonView,
    name: Seq<char>,
    phase: Option<Seq<Seq<char>>>,
    as_mover: bool,
) -> bool {
    &&& text_at(row, "winner"@) == Some(name)
    &&& phase matches Some(p) ==> key_of(GroupBy::GamePhase, row) == p
    &&& as_mover ==> text_at(row, "mover"@) == Some(name)
}

/// How many of the first `n` games an engine won.
pub open spec fn wins_of(
    rows: Seq<JsonView>,
    n: int,
    name: Seq<char>,
    phase: Option<Seq<Seq<char>>>,
    as_mover: bool,
) -> int
    decreases n,
{
    if n <= 0 {
        0
    } else {
        wins_of(rows, n - 1, name, phase, as_mover) + if won_game(
            rows[n - 1],
            name,
            phase,
            as_mover,
        ) {
            1int
        } else {
            0
        }
    }
}

fn says(row: &Json, f: &str, name: &str) -> (r: bool)
    ensures
        r <==> text_at(row.view(), f@) == Some(name@),
{
    match text_in(row, f) {
        Some(s) => same_text(s, name),
        None => false,
    }
}

fn count_wins(rows: &Vec<Json>, name: &str, phase: Option<&Vec<String>>, as_mover: bool) -> (c: u64)
    ensures
        c == wins_of(
            items_view(rows@),
            rows@.len() as int,
            name@,
            match phase {
                Some(p) => Some(texts(p@)),
                None => None,
            },
            as_mover,
        ),
        c <= rows@.len(),
{
    let ghost views = items_view(rows@);
    let ghost wanted: Option<Seq<Seq<char>>> = match phase {
        Some(p) => Some(texts(p@)),
        None => None,
    };
    let mut c: u64 = 0;
    let mut i: usize = 0;
    while i < rows.len()
        invariant
            i <= rows@.len(),
            views == items_view(rows@),
            wanted == (match phase {
                Some(p) => Some(texts(p@)),
                None => None,
            }),
            c <= i,
            c == wins_of(views, i as int, name@, wanted, as_mover),
        decreases rows@.len() - i,
    {
        let row = &rows[i];
        assert(views[i as int] == row.view());
        let fits: bool = match phase {
            Some(p) => same_key(&key_in(GroupBy::GamePhase, row), p),
            None => true,
        };
        if says(row, "winner", name) && fits && (!as_mover || says(row, "mover", name)) {
            c = c + 1;
        }
        i = i + 1;
    }
    c
}

/// The seed of a game; zero if it has none.
pub open spec fn game_seed(row: JsonView) -> u64 {
    match at(row, "seed"@) {
        JsonView::Unsigned(n) => n,
        _ => 0,
    }
}

/// Whether two games are of the same position and seed.
pub open spec fn same_pair(a: JsonView, b: JsonView) -> bool {
    name_in(a, "position_id"@) == name_in(b, "position_id"@) && game_seed(a) == game_seed(b)
}

/// How many of the first `n` games are the first of their position and seed.
pub open spec fn pairs_of(rows: Seq<JsonView>, n: int) -> int
    decreases n,
{
    if n <= 0 {
        0
    } else {
        pairs_of(rows, n - 1) + if exists|j: int|
            0 <= j < n - 1 && same_pair(#[trigger] rows[j], rows[n - 1]) {
            0int
        } else {
            1
        }
    }
}

fn seed_or_zero(row: &Json) -> (s: u64)
    ensures
        s == game_seed(row.view()),
{
    match unsigned_in(row, "seed") {
        Some(n) => n,
        None => 0,
    }
}

fn count_pairs(rows: &Vec<Json>) -> (c: u64)
    ensures
        c == pairs_of(items_view(rows@), rows@.len() as int),
{
    let ghost views = items_view(rows@);
    let mut c: u64 = 0;
    let mut i: usize = 0;
    while i < rows.len()
        invariant
            i <= rows@.len(),
            views == items_view(rows@),
            c <= i,
            c == pairs_of(views, i as int),
        decreases rows@.len() - i,
    {
        let row = &rows[i];
        assert(views[i as int] == row.view());
        let mut fresh: bool = true;
        let mut j: usize = 0;
        while j < i
            invariant
                j <= i,
                i < rows@.len(),
                views == items_view(rows@),
                views[i as int] == row.view(),
                fresh <==> !(exists|k: int|
                    0 <= k < j && same_pair(#[trigger] views[k], views[i as int])),
            decreases i - j,
        {
            let other = &rows[j];
            assert(views[j as int] == other.view());
            if same_text(
                text_in_or(other, "position_id", ""),
                text_in_or(row, "position_id", ""),
            ) && seed_or_zero(other) == seed_or_zero(row) {
                fresh = false;
                assert(same_pair(views[j as int], views[i as int]));
            }
            j = j + 1;
        }
        if fresh {
            c = c + 1;
        }
        i = i + 1;
    }
    c
}

/// The keys of some splits.
pub open spec fn split_keys(splits: Seq<PhaseSplit>) -> Seq<Seq<Seq<char>>> {
    splits.map_values(|s: PhaseSplit| texts(s.key@))
}

/// Whether `s` sums up the games of its phase.
pub open spec fn split_ok(s: PhaseSplit, rows: Seq<JsonView>, a: Seq<char>, b: Seq<char>) -> bool {
    let n = rows.len() as int;
    let key = texts(s.key@);
    &&& s.games == tally(Tally::All, GroupBy::GamePhase, rows, n, key)
    &&& s.a_wins == wins_of(rows, n, a, Some(key), false)
    &&& s.b_wins == wins_of(rows, n, b, Some(key), false)
}

/// No game is won twice: two engines together win at most as many games as were played,
/// and as the mover an engine wins no more than it wins at all.
pub proof fn law_no_game_is_won_twice(
    rows: Seq<JsonView>,
    n: int,
    a: Seq<char>,
    b: Seq<char>,
    phase: Option<Seq<Seq<char>>>,
)
    requires
        a != b,
        n >= 0,
    ensures
        0 <= wins_of(rows, n, a, phase, false),
        0 <= wins_of(rows, n, b, phase, false),
        wins_of(rows, n, a, phase, false) + wins_of(rows, n, b, phase, false) <= n,
        wins_of(rows, n, a, phase, true) <= wins_of(rows, n, a, phase, false),
    decreases n,
{
    if n > 0 {
        law_no_game_is_won_twice(rows, n - 1, a, b, phase);
    }
}

/// Whether `s` sums up the games between two engines.
pub open spec fn games_ok(s: GamesSummary, rows: Seq<JsonView>, a: Seq<char>, b: Seq<char>) -> bool {
    let n = rows.len() as int;
    &&& s.engine_a@ == a
    &&& s.engine_b@ == b
    &&& s.games == n
    &&& s.paired_positions == pairs_of(rows, n)
    &&& s.a_wins == wins_of(rows, n, a, None, false)
    &&& s.b_wins == wins_of(rows, n, b, None, false)
    &&& s.a_wins_as_mover == wins_of(rows, n, a, None, true)
    &&& s.b_wins_as_mover == wins_of(rows, n, b, None, true)
    &&& keys_sorted(split_keys(s.by_phase@))
    &&& forall|g: int| 0 <= g < s.by_phase@.len() ==> #[trigger] split_ok(s.by_phase@[g], rows, a, b)
    &&& forall|i: int|
        0 <= i < n ==> split_keys(s.by_phase@).contains(
            key_of(GroupBy::GamePhase, #[trigger] rows[i]),
        )
}

/// Sum up the games between two engines: totals, wins as the mover, and phases.
pub fn aggregate_head_to_head(records: &Vec<Json>, name_a: &str, name_b: &str) -> (r: GamesSummary)
    ensures
        games_ok(r, items_view(records@), name_a@, name_b@),
{
    let ghost views = items_view(records@);
    let groups = grouped(GroupBy::GamePhase, records);
    let mut by_phase: Vec<PhaseSplit> = Vec::new();
    let mut g: usize = 0;
    while g < groups.len()
        invariant
            g <= groups@.len(),
            views == items_view(records@),
            by_phase@.len() == g,
            forall|k: int|
                0 <= k < g ==> texts((#[trigger] by_phase@[k]).key@) == texts(groups@[k].key@),
            forall|k: int| 0 <= k < g ==> #[trigger] split_ok(by_phase@[k], views, name_a@, name_b@),
        decreases groups@.len() - g,
    {
        let key = copy_key(&groups[g].key);
        let games: u64 = count_rows(Tally::All, GroupBy::GamePhase, records, &key);
        let a_wins: u64 = count_wins(records, name_a, Some(&key), false);
        let b_wins: u64 = count_wins(records, name_b, Some(&key), false);
        by_phase.push(PhaseSplit { key, games, a_wins, b_wins });
        g = g + 1;
    }
    proof {
        let names = split_keys(by_phase@);
        assert forall|a: int, b: int| 0 <= a < b < names.len() implies key_le(
            #[trigger] names[a],
            #[trigger] names[b],
        ) && names[a] != names[b] by {
            assert(texts(groups@[a].key@) == names[a]);
            assert(texts(groups@[b].key@) == names[b]);
        }
        assert forall|i: int| 0 <= i < views.len() implies names.contains(
            key_of(GroupBy::GamePhase, #[trigger] views[i]),
        ) by {
            let keys = keys_of(GroupBy::GamePhase, views);
            assert(keys[i] == key_of(GroupBy::GamePhase, views[i]));
            let h = choose|h: int|
                0 <= h < groups@.len() && texts((#[trigger] groups@[h]).key@) == keys[i];
            assert(names[h] == keys[i]);
        }
    }
    GamesSummary {
        engine_a: name_a.to_owned(),
        engine_b: name_b.to_owned(),
        games: records.len() as u64,
        paired_positions: count_pairs(records),
        a_wins: count_wins(records, name_a, None, false),
        b_wins: count_wins(records, name_b, None, false),
        a_wins_as_mover: count_wins(records, name_a, None, true),
        b_wins_as_mover: count_wins(records, name_b, None, true),
        by_phase,
    }
}

} // verus!
