//! Benchmark results as a report in Markdown.
use crate::bench::canonical::{name_order, order_by_name};
use crate::bench::compact::{
    compact_json, compact_text, decimals_text, fmt, fmt_int, fmt_thousands, int_text,
    thousands_text,
};
use crate::bench::fields::{at, concat, concat3, copy_of, text_at, text_in, texts};
use crate::bench::json::{items_view, members_view, Json, JsonView};
use crate::text::{decimal, join, joined, push_decimal, to_chars};
use vstd::prelude::*;
use vstd::string::*;

verus! {

pub const FIXED_NOTE: &'static str =
    "same wall-clock budget per move; fair practical-latency comparison";

pub const NATIVE_NOTE: &'static str =
    "per-engine native settings; useful for scaling behavior, not fair head-to-head ranking";

pub const AGREEMENT_NOTE: &'static str =
    "A hit means the selected move is in the complete optimal set proven by the exact solver with no cutoff. Positions without exact references are excluded. For stochastic engines, runs equal positions times seeds.";

pub const COST_NOTE: &'static str =
    "Measured effective work per move, not just configured limits.";

pub const GAMES_NOTE: &'static str =
    "Each position and seed is played twice, once with each engine as the side to move. Wins are credited to the actual engine/color mapping. Quantik cannot draw, so Draws is structurally 0.";

pub const STABILITY_NOTE: &'static str =
    "Move consistency is the average fraction of seeds choosing the modal move per position. Agreement mean and std are computed per seed first, then aggregated.";

pub const CERTAINTY_NOTE: &'static str =
    "- Minimax buys adversarial certainty when the remaining tree is small enough; MCTS buys empirical confidence through repeated sampling; beam search buys bounded, selectively deep exploration.";

pub const EVIDENCE_NOTE: &'static str =
    "- No engine is universally superior unless the evidence spans multiple phases, equivalent budgets, repeated seeds, and statistically meaningful samples.";

pub const BEAM_NOTE: &'static str =
    "- Beam search honors its time limit only between depth levels; compare measured times above, never configured caps.";

pub const FAIRNESS_NOTE: &'static str =
    "- Algorithm-native tables explain scaling; only fixed-resource tables support fair engine-vs-engine claims.";

/// The words on a family of benchmarks.
pub open spec fn family_words(family: Seq<char>) -> Seq<char> {
    if family == "fixed"@ {
        FIXED_NOTE@
    } else {
        NATIVE_NOTE@
    }
}

pub fn family_note(family: &str) -> (note: &'static str)
    ensures
        note@ == family_words(family@),
{
    if crate::text::same_text(family, "fixed") {
        FIXED_NOTE
    } else {
        NATIVE_NOTE
    }
}

/// A line of a table.
pub open spec fn table_line(cells: Seq<Seq<char>>) -> Seq<char> {
    "| "@ + joined(cells, " | "@) + " |"@
}

/// The line below the headers of a table with `n` columns.
pub open spec fn rule_line(n: nat) -> Seq<char> {
    "|"@ + joined(Seq::new(n, |i: int| " --- "@), "|"@) + "|"@
}

/// A table in Markdown.
pub open spec fn table_text(headers: Seq<Seq<char>>, rows: Seq<Seq<Seq<char>>>) -> Seq<char> {
    joined(
        seq![table_line(headers), rule_line(headers.len())] + rows.map_values(
            |row: Seq<Seq<char>>| table_line(row),
        ),
        "\n"@,
    )
}

/// What the cells of a table say.
pub open spec fn cells_view(rows: Seq<Vec<String>>) -> Seq<Seq<Seq<char>>> {
    rows.map_values(|row: Vec<String>| texts(row@))
}

fn line(cells: &Vec<String>) -> (s: String)
    ensures
        s@ == table_line(texts(cells@)),
{
    let inner = join(cells, " | ");
    concat3("| ", inner.as_str(), " |")
}

/// A table in Markdown.
pub fn table(headers: &Vec<String>, rows: &Vec<Vec<String>>) -> (s: String)
    ensures
        s@ == table_text(texts(headers@), cells_view(rows@)),
{
    let mut rules: Vec<String> = Vec::new();
    let mut k: usize = 0;
    while k < headers.len()
        invariant
            k <= headers@.len(),
            rules@.len() == k,
            forall|i: int| 0 <= i < k ==> (#[trigger] rules@[i])@ == " --- "@,
        decreases headers@.len() - k,
    {
        rules.push(" --- ".to_owned());
        k = k + 1;
    }
    let inner = join(&rules, "|");
    let ghost n = headers@.len();
    assert(texts(rules@) =~= Seq::new(n, |i: int| " --- "@));
    let mut lines: Vec<String> = Vec::new();
    lines.push(line(headers));
    lines.push(concat3("|", inner.as_str(), "|"));
    let ghost views = cells_view(rows@);
    let ghost head = seq![table_line(texts(headers@)), rule_line(n)];
    let mut i: usize = 0;
    assert(texts(lines@) =~= head);
    while i < rows.len()
        invariant
            i <= rows@.len(),
            views == cells_view(rows@),
            head.len() == 2,
            texts(lines@) == head + views.take(i as int).map_values(
                |row: Seq<Seq<char>>| table_line(row),
            ),
        decreases rows@.len() - i,
    {
        let ghost before = lines@;
        lines.push(line(&rows[i]));
        proof {
            assert(views[i as int] == texts(rows@[i as int]@));
            assert(texts(lines@) =~= texts(before).push(table_line(views[i as int])));
            assert(views.take(i + 1).map_values(|row: Seq<Seq<char>>| table_line(row))
                =~= views.take(i as int).map_values(
                |row: Seq<Seq<char>>| table_line(row),
            ).push(table_line(views[i as int])));
            assert(texts(lines@) =~= head + views.take(i + 1).map_values(
                |row: Seq<Seq<char>>| table_line(row),
            ));
        }
        i = i + 1;
    }
    assert(views.take(i as int) =~= views);
    join(&lines, "\n")
}

/// The text of a member; a question mark if it is no text.
pub open spec fn text_or_mark(o: JsonView, f: Seq<char>) -> Seq<char> {
    match text_at(o, f) {
        Some(s) => s,
        None => "?"@,
    }
}

fn text_of(o: &Json, f: &str) -> (s: String)
    ensures
        s@ == text_or_mark(o.view(), f@),
{
    match text_in(o, f) {
        Some(s) => s.to_owned(),
        None => "?".to_owned(),
    }
}

/// A text in backquotes.
pub open spec fn code(s: Seq<char>) -> Seq<char> {
    "`"@ + s + "`"@
}

fn code_of(s: &str) -> (r: String)
    ensures
        r@ == code(s@),
{
    concat3("`", s, "`")
}

fn compact_of(o: &Json, f: &str) -> (s: String)
    ensures
        s@ == compact_text(at(o.view(), f@)),
{
    compact_json(&copy_of(o, f))
}

fn fmt_of(o: &Json, f: &str, decimals: usize) -> (s: String)
    requires
        decimals <= 0xFFFF,
    ensures
        s@ == decimals_text(at(o.view(), f@), decimals as nat),
{
    fmt(&copy_of(o, f), decimals)
}

/// An interval in square brackets.
pub open spec fn interval(low: Seq<char>, high: Seq<char>) -> Seq<char> {
    "["@ + low + ", "@ + high + "]"@
}

fn interval_of(low: &str, high: &str) -> (s: String)
    ensures
        s@ == interval(low@, high@),
{
    let mut s = concat3("[", low, ", ");
    s.append(high);
    s.append("]");
    s
}

/// The item at `i` of a list, null where there is none.
pub open spec fn item_at(v: JsonView, i: int) -> JsonView {
    match v {
        JsonView::Array(items) => if 0 <= i < items.len() {
            items[i]
        } else {
            JsonView::Null
        },
        _ => JsonView::Null,
    }
}

fn fmt_item(o: &Json, f: &str, i: usize, decimals: usize) -> (s: String)
    requires
        decimals <= 0xFFFF,
    ensures
        s@ == decimals_text(item_at(at(o.view(), f@), i as int), decimals as nat),
{
    match o.get(f) {
        Some(v) => match v {
            Json::Array(items) => if i < items.len() {
                return fmt(&items[i], decimals);
            },
            _ => {},
        },
        None => {},
    }
    fmt(&Json::Null, decimals)
}

/// The tables of a report that have one line for each item of a list.
#[derive(Clone, Copy, Debug, PartialEq, Eq, Structural)]
pub enum ReportTable {
    Agreement,
    Cost,
    Games,
    Stability,
}

/// The cells of the line on `row`.
pub open spec fn cells_of(table: ReportTable, row: JsonView) -> Seq<Seq<char>> {
    match table {
        ReportTable::Agreement => seq![
            text_or_mark(row, "engine"@),
            code(text_or_mark(row, "config_label"@)),
            text_or_mark(row, "phase"@),
            compact_text(at(row, "n"@)),
            compact_text(at(row, "hits"@)),
            decimals_text(at(row, "agreement"@), 3),
            interval(
                decimals_text(at(row, "ci95_low"@), 3),
                decimals_text(at(row, "ci95_high"@), 3),
            ),
        ],
        ReportTable::Cost => seq![
            text_or_mark(row, "engine"@),
            code(text_or_mark(row, "config_label"@)),
            compact_text(at(row, "n"@)),
            decimals_text(at(row, "median_time_s"@), 4),
            decimals_text(at(row, "p95_time_s"@), 4),
            int_text(at(row, "median_nodes"@)),
            thousands_text(at(row, "peak_memory_bytes"@)),
        ],
        ReportTable::Games => seq![
            text_or_mark(row, "engine_a"@),
            text_or_mark(row, "engine_b"@),
            compact_text(at(row, "paired_positions"@)),
            compact_text(at(row, "games"@)),
            compact_text(at(row, "a_wins"@)),
            compact_text(at(row, "b_wins"@)),
            compact_text(at(row, "draws"@)),
            decimals_text(at(row, "a_win_rate"@), 3) + " "@ + interval(
                decimals_text(item_at(at(row, "a_win_rate_ci95"@), 0), 3),
                decimals_text(item_at(at(row, "a_win_rate_ci95"@), 1), 3),
            ),
            compact_text(at(row, "a_wins_as_mover"@)),
            compact_text(at(row, "b_wins_as_mover"@)),
        ],
        ReportTable::Stability => seq![
            text_or_mark(row, "engine"@),
            code(text_or_mark(row, "config_label"@)),
            compact_text(at(row, "seeds"@)),
            decimals_text(at(row, "move_consistency"@), 3),
            decimals_text(at(row, "agreement_mean"@), 3),
            decimals_text(at(row, "agreement_std"@), 3),
        ],
    }
}

fn agreement_cells(row: &Json) -> (cells: Vec<String>)
    ensures
        texts(cells@) == cells_of(ReportTable::Agreement, row.view()),
{
    let label = text_of(row, "config_label");
    let low = fmt_of(row, "ci95_low", 3);
    let high = fmt_of(row, "ci95_high", 3);
    let cells: Vec<String> = vec![
        text_of(row, "engine"),
        code_of(label.as_str()),
        text_of(row, "phase"),
        compact_of(row, "n"),
        compact_of(row, "hits"),
        fmt_of(row, "agreement", 3),
        interval_of(low.as_str(), high.as_str()),
    ];
    assert(texts(cells@) =~= cells_of(ReportTable::Agreement, row.view()));
    cells
}

fn cost_cells(row: &Json) -> (cells: Vec<String>)
    ensures
        texts(cells@) == cells_of(ReportTable::Cost, row.view()),
{
    let label = text_of(row, "config_label");
    let cells: Vec<String> = vec![
        text_of(row, "engine"),
        code_of(label.as_str()),
        compact_of(row, "n"),
        fmt_of(row, "median_time_s", 4),
        fmt_of(row, "p95_time_s", 4),
        fmt_int(&copy_of(row, "median_nodes")),
        fmt_thousands(&copy_of(row, "peak_memory_bytes")),
    ];
    assert(texts(cells@) =~= cells_of(ReportTable::Cost, row.view()));
    cells
}

fn games_cells(row: &Json) -> (cells: Vec<String>)
    ensures
        texts(cells@) == cells_of(ReportTable::Games, row.view()),
{
    let low = fmt_item(row, "a_win_rate_ci95", 0, 3);
    let high = fmt_item(row, "a_win_rate_ci95", 1, 3);
    let range = interval_of(low.as_str(), high.as_str());
    let rate = fmt_of(row, "a_win_rate", 3);
    let cells: Vec<String> = vec![
        text_of(row, "engine_a"),
        text_of(row, "engine_b"),
        compact_of(row, "paired_positions"),
        compact_of(row, "games"),
        compact_of(row, "a_wins"),
        compact_of(row, "b_wins"),
        compact_of(row, "draws"),
        concat3(rate.as_str(), " ", range.as_str()),
        compact_of(row, "a_wins_as_mover"),
        compact_of(row, "b_wins_as_mover"),
    ];
    assert(texts(cells@) =~= cells_of(ReportTable::Games, row.view()));
    cells
}

fn stability_cells(row: &Json) -> (cells: Vec<String>)
    ensures
        texts(cells@) == cells_of(ReportTable::Stability, row.view()),
{
    let label = text_of(row, "config_label");
    let cells: Vec<String> = vec![
        text_of(row, "engine"),
        code_of(label.as_str()),
        compact_of(row, "seeds"),
        fmt_of(row, "move_consistency", 3),
        fmt_of(row, "agreement_mean", 3),
        fmt_of(row, "agreement_std", 3),
    ];
    assert(texts(cells@) =~= cells_of(ReportTable::Stability, row.view()));
    cells
}

fn row_cells(table: ReportTable, row: &Json) -> (cells: Vec<String>)
    ensures
        texts(cells@) == cells_of(table, row.view()),
{
    match table {
        ReportTable::Agreement => agreement_cells(row),
        ReportTable::Cost => cost_cells(row),
        ReportTable::Games => games_cells(row),
        ReportTable::Stability => stability_cells(row),
    }
}

/// The items of a list; none for a value that is no list.
pub open spec fn list_items(v: JsonView) -> Seq<JsonView> {
    match v {
        JsonView::Array(items) => items,
        _ => Seq::empty(),
    }
}

/// The lines on the items of a list.
pub open spec fn table_rows(table: ReportTable, v: JsonView) -> Seq<Seq<Seq<char>>> {
    list_items(v).map_values(|row: JsonView| cells_of(table, row))
}

fn rows_of(table: ReportTable, list: Option<&Json>) -> (rows: Vec<Vec<String>>)
    ensures
        cells_view(rows@) == table_rows(
            table,
            match list {
                Some(v) => v.view(),
                None => JsonView::Null,
            },
        ),
{
    let mut rows: Vec<Vec<String>> = Vec::new();
    match list {
        Some(v) => match v {
            Json::Array(items) => {
                let ghost views = items_view(items@);
                let mut i: usize = 0;
                while i < items.len()
                    invariant
                        i <= items@.len(),
                        views == items_view(items@),
                        rows@.len() == i,
                        forall|k: int|
                            0 <= k < i ==> texts((#[trigger] rows@[k])@) == cells_of(
                                table,
                                views[k],
                            ),
                    decreases items@.len() - i,
                {
                    rows.push(row_cells(table, &items[i]));
                    i = i + 1;
                }
                assert(cells_view(rows@) =~= table_rows(table, v.view()));
                return rows;
            },
            _ => {},
        },
        None => {},
    }
    assert(cells_view(rows@) =~= Seq::empty());
    assert(Seq::<JsonView>::empty().map_values(|row: JsonView| cells_of(table, row))
        =~= Seq::empty());
    rows
}

/// The lines on the phases of the games of two engines: the first `n` of the
/// phases that `order` lists.
pub open spec fn phase_rows(
    row: JsonView,
    members: Seq<(Seq<char>, JsonView)>,
    order: Seq<int>,
    n: int,
) -> Seq<Seq<Seq<char>>>
    decreases n,
{
    if n <= 0 {
        Seq::empty()
    } else {
        let split = members[order[n - 1]];
        phase_rows(row, members, order, n - 1).push(
            seq![
                text_or_mark(row, "engine_a"@),
                text_or_mark(row, "engine_b"@),
                split.0,
                compact_text(at(split.1, "games"@)),
                compact_text(at(split.1, "a_wins"@)),
                compact_text(at(split.1, "b_wins"@)),
            ],
        )
    }
}

/// The lines on all phases of the games of two engines.
pub open spec fn pair_phase_rows(row: JsonView) -> Seq<Seq<Seq<char>>> {
    match at(row, "by_phase"@) {
        JsonView::Object(members) => phase_rows(
            row,
            members,
            name_order(members, members.len() as int),
            members.len() as int,
        ),
        _ => Seq::empty(),
    }
}

/// The lines on all phases of the games of the first `n` pairs of engines.
pub open spec fn all_phase_rows(items: Seq<JsonView>, n: int) -> Seq<Seq<Seq<char>>>
    decreases n,
{
    if n <= 0 {
        Seq::empty()
    } else {
        all_phase_rows(items, n - 1) + pair_phase_rows(items[n - 1])
    }
}

fn push_phase_rows(row: &Json, rows: &mut Vec<Vec<String>>)
    ensures
        cells_view(final(rows)@) == cells_view(old(rows)@) + pair_phase_rows(row.view()),
{
    let ghost start = cells_view(rows@);
    let phases = row.get("by_phase");
    match phases {
        Some(v) => match v {
            Json::Object(members) => {
                let order = order_by_name(members);
                let ghost views = members_view(members@);
                let ghost places = name_order(views, views.len() as int);
                let mut i: usize = 0;
                assert(start + phase_rows(row.view(), views, places, 0) =~= start);
                while i < order.len()
                    invariant
                        i <= order@.len(),
                        order@.len() == members@.len(),
                        views == members_view(members@),
                        places == order@.map_values(|p: usize| p as int),
                        forall|k: int|
                            0 <= k < order@.len() ==> 0 <= #[trigger] order@[k] < members@.len(),
                        cells_view(rows@) == start + phase_rows(
                            row.view(),
                            views,
                            places,
                            i as int,
                        ),
                    decreases order@.len() - i,
                {
                    let place: usize = order[i];
                    assert(places[i as int] == place);
                    let split = &members[place].1;
                    let ghost before = rows@;
                    let cells: Vec<String> = vec![
                        text_of(row, "engine_a"),
                        text_of(row, "engine_b"),
                        members[place].0.clone(),
                        compact_of(split, "games"),
                        compact_of(split, "a_wins"),
                        compact_of(split, "b_wins"),
                    ];
                    let ghost shown = texts(cells@);
                    proof {
                        assert(views[place as int] == (
                            members@[place as int].0@,
                            members@[place as int].1.view(),
                        ));
                        assert(shown =~= phase_rows(row.view(), views, places, i + 1).last());
                    }
                    rows.push(cells);
                    assert(cells_view(rows@) =~= cells_view(before).push(shown));
                    assert(cells_view(rows@) =~= start + phase_rows(
                        row.view(),
                        views,
                        places,
                        i + 1,
                    ));
                    i = i + 1;
                }
                return;
            },
            _ => {},
        },
        None => {},
    }
    assert(start + Seq::<Seq<Seq<char>>>::empty() =~= start);
}

fn phase_rows_of(list: Option<&Json>) -> (rows: Vec<Vec<String>>)
    ensures
        ({
            let items = list_items(
                match list {
                    Some(v) => v.view(),
                    None => JsonView::Null,
                },
            );
            cells_view(rows@) == all_phase_rows(items, items.len() as int)
        }),
{
    let mut rows: Vec<Vec<String>> = Vec::new();
    assert(cells_view(rows@) =~= Seq::empty());
    match list {
        Some(v) => match v {
            Json::Array(items) => {
                let ghost views = items_view(items@);
                let mut i: usize = 0;
                while i < items.len()
                    invariant
                        i <= items@.len(),
                        views == items_view(items@),
                        cells_view(rows@) == all_phase_rows(views, i as int),
                    decreases items@.len() - i,
                {
                    push_phase_rows(&items[i], &mut rows);
                    i = i + 1;
                }
            },
            _ => {},
        },
        None => {},
    }
    rows
}

/// The number of bytes of a character in UTF-8.
pub open spec fn utf8_len(c: char) -> int {
    let code = c as int;
    if code < 0x80 {
        1
    } else if code < 0x800 {
        2
    } else if code < 0x10000 {
        3
    } else {
        4
    }
}

/// The number of bytes of the first `n` characters in UTF-8.
pub open spec fn bytes_before(s: Seq<char>, n: int) -> int
    decreases n,
{
    if n <= 0 {
        0
    } else {
        bytes_before(s, n - 1) + utf8_len(s[n - 1])
    }
}

/// The number of characters, from the one at `k` on, that begin within the first
/// twelve bytes.
pub open spec fn short_len(s: Seq<char>, k: int) -> int
    decreases s.len() - k,
{
    if k >= s.len() || bytes_before(s, k) >= 12 {
        k
    } else {
        short_len(s, k + 1)
    }
}

/// The first twelve bytes of a commit's name.
pub open spec fn short_name(s: Seq<char>) -> Seq<char> {
    s.take(short_len(s, 0))
}

fn byte_len(c: char) -> (n: usize)
    ensures
        n == utf8_len(c),
{
    let code: u32 = c as u32;
    if code < 0x80 {
        1
    } else if code < 0x800 {
        2
    } else if code < 0x10000 {
        3
    } else {
        4
    }
}

fn short_sha(name: &str) -> (s: String)
    ensures
        s@ == short_name(name@),
{
    let chars = to_chars(name);
    let mut s = String::new();
    let mut bytes: usize = 0;
    let mut k: usize = 0;
    while k < chars.len() && bytes < 12
        invariant
            k <= chars@.len(),
            chars@ == name@,
            s@ == name@.take(k as int),
            bytes == bytes_before(name@, k as int),
            bytes <= 16,
            short_len(name@, 0) == short_len(name@, k as int),
        decreases chars@.len() - k,
    {
        s.push(chars[k]);
        assert(name@.take(k + 1) =~= name@.take(k as int).push(name@[k as int]));
        bytes = bytes + byte_len(chars[k]);
        k = k + 1;
    }
    s
}

/// The lines at the top of a report.
pub open spec fn head_parts(bundle: JsonView) -> Seq<Seq<char>> {
    let env = at(bundle, "environment"@);
    let config = at(bundle, "config"@);
    let dataset = at(bundle, "dataset"@);
    let family = text_or_mark(config, "family"@);
    let sha = match text_at(env, "git_sha"@) {
        Some(s) => s,
        None => "unknown"@,
    };
    seq![
        "# Cross-engine benchmark - `"@ + short_name(sha) + "`"@,
        Seq::empty(),
        "- benchmark family: **"@ + family + "** ("@ + family_words(family) + ")"@,
        "- dataset: `"@ + text_or_mark(dataset, "checksum"@) + "` - "@ + compact_text(
            at(dataset, "positions"@),
        ) + " positions "@ + compact_text(at(dataset, "phases"@)) + ", generation seed "@
            + compact_text(at(dataset, "seed"@)),
        "- engine seeds: `"@ + compact_text(at(config, "engine_seeds"@)) + "`"@,
        "- environment: quantik-core-rust "@ + text_or_mark(env, "quantik_core_version"@)
            + ", rust "@ + text_or_mark(env, "rust_version"@) + ", "@ + text_or_mark(
            env,
            "platform"@,
        ) + ", "@ + compact_text(at(env, "cpu_count"@)) + " CPUs"@,
        "- started: "@ + text_or_mark(bundle, "started_at"@),
    ]
}

fn push_head(bundle: &Json, parts: &mut Vec<String>)
    ensures
        texts(final(parts)@) == texts(old(parts)@) + head_parts(bundle.view()),
{
    let ghost start = texts(parts@);
    let env = copy_of(bundle, "environment");
    let config = copy_of(bundle, "config");
    let dataset = copy_of(bundle, "dataset");
    let family = text_of(&config, "family");
    let sha: &str = match text_in(&env, "git_sha") {
        Some(s) => s,
        None => "unknown",
    };
    let short = short_sha(sha);
    let title = concat3("# Cross-engine benchmark - `", short.as_str(), "`");
    let mut about = concat3("- benchmark family: **", family.as_str(), "** (");
    about.append(family_note(family.as_str()));
    about.append(")");
    let mut data = concat("- dataset: `", text_of(&dataset, "checksum").as_str());
    data.append("` - ");
    data.append(compact_of(&dataset, "positions").as_str());
    data.append(" positions ");
    data.append(compact_of(&dataset, "phases").as_str());
    data.append(", generation seed ");
    data.append(compact_of(&dataset, "seed").as_str());
    let seeds = concat3("- engine seeds: `", compact_of(&config, "engine_seeds").as_str(), "`");
    let mut place = concat(
        "- environment: quantik-core-rust ",
        text_of(&env, "quantik_core_version").as_str(),
    );
    place.append(", rust ");
    place.append(text_of(&env, "rust_version").as_str());
    place.append(", ");
    place.append(text_of(&env, "platform").as_str());
    place.append(", ");
    place.append(compact_of(&env, "cpu_count").as_str());
    place.append(" CPUs");
    let begun = concat("- started: ", text_of(bundle, "started_at").as_str());
    parts.push(title);
    parts.push(String::new());
    parts.push(about);
    parts.push(data);
    parts.push(seeds);
    parts.push(place);
    parts.push(begun);
    assert(texts(parts@) =~= start + head_parts(bundle.view()));
}

/// The number of a member; zero if it is no unsigned number.
pub open spec fn number_or_zero(o: JsonView, f: Seq<char>) -> u64 {
    match at(o, f) {
        JsonView::Unsigned(n) => n,
        _ => 0,
    }
}

fn number_of(o: &Json, f: &str) -> (n: u64)
    ensures
        n == number_or_zero(o.view(), f@),
{
    match o.get(f) {
        Some(v) => match v {
            Json::Unsigned(n) => *n,
            _ => 0,
        },
        None => 0,
    }
}

/// The lines on the checkpoint of a run.
pub open spec fn checkpoint_parts(bundle: JsonView) -> Seq<Seq<char>> {
    let checkpoint = at(bundle, "checkpoint"@);
    let counts = at(checkpoint, "counts"@);
    if checkpoint is Null {
        Seq::empty()
    } else {
        seq![
            "- checkpoint status: "@ + (match text_at(checkpoint, "status"@) {
                Some(s) => s,
                None => "unknown"@,
            }),
            "- checkpoint counts: observations "@ + decimal(
                number_or_zero(counts, "observations"@) as nat,
            ) + ", h2h_records "@ + decimal(number_or_zero(counts, "h2h_records"@) as nat),
        ] + (if at(checkpoint, "h2h_pairs"@) is Null {
            Seq::empty()
        } else {
            seq!["- checkpoint h2h pairs: "@ + compact_text(at(checkpoint, "h2h_pairs"@))]
        })
    }
}

fn push_checkpoint(bundle: &Json, parts: &mut Vec<String>)
    ensures
        texts(final(parts)@) == texts(old(parts)@) + checkpoint_parts(bundle.view()),
{
    let ghost start = texts(parts@);
    let checkpoint = copy_of(bundle, "checkpoint");
    if !checkpoint.is_null() {
        let counts = copy_of(&checkpoint, "counts");
        let status: &str = match text_in(&checkpoint, "status") {
            Some(s) => s,
            None => "unknown",
        };
        parts.push(concat("- checkpoint status: ", status));
        let mut line = "- checkpoint counts: observations ".to_owned();
        push_decimal(&mut line, number_of(&counts, "observations"));
        line.append(", h2h_records ");
        push_decimal(&mut line, number_of(&counts, "h2h_records"));
        parts.push(line);
        let pairs = copy_of(&checkpoint, "h2h_pairs");
        if !pairs.is_null() {
            let shown = compact_json(&pairs);
            parts.push(concat("- checkpoint h2h pairs: ", shown.as_str()));
        }
    }
    assert(texts(parts@) =~= start + checkpoint_parts(bundle.view()));
}

/// The headers of a table.
pub open spec fn headers_of(table: ReportTable) -> Seq<Seq<char>> {
    match table {
        ReportTable::Agreement => seq![
            "Engine"@,
            "Configuration"@,
            "Phase"@,
            "Runs"@,
            "Optimal selected"@,
            "Agreement"@,
            "95% CI"@,
        ],
        ReportTable::Cost => seq![
            "Engine"@,
            "Configuration"@,
            "Moves"@,
            "Median time (s)"@,
            "p95 time (s)"@,
            "Median nodes"@,
            "Peak memory (bytes)"@,
        ],
        ReportTable::Games => seq![
            "Engine A"@,
            "Engine B"@,
            "Paired positions"@,
            "Games"@,
            "A wins"@,
            "B wins"@,
            "Draws"@,
            "A win rate (95% CI)"@,
            "A wins as mover"@,
            "B wins as mover"@,
        ],
        ReportTable::Stability => seq![
            "Engine"@,
            "Configuration"@,
            "Seeds"@,
            "Move consistency"@,
            "Agreement mean"@,
            "Agreement std"@,
        ],
    }
}

fn headers(table: ReportTable) -> (list: Vec<String>)
    ensures
        texts(list@) == headers_of(table),
{
    let list: Vec<String> = match table {
        ReportTable::Agreement => vec![
            "Engine".to_owned(),
            "Configuration".to_owned(),
            "Phase".to_owned(),
            "Runs".to_owned(),
            "Optimal selected".to_owned(),
            "Agreement".to_owned(),
            "95% CI".to_owned(),
        ],
        ReportTable::Cost => vec![
            "Engine".to_owned(),
            "Configuration".to_owned(),
            "Moves".to_owned(),
            "Median time (s)".to_owned(),
            "p95 time (s)".to_owned(),
            "Median nodes".to_owned(),
            "Peak memory (bytes)".to_owned(),
        ],
        ReportTable::Games => vec![
            "Engine A".to_owned(),
            "Engine B".to_owned(),
            "Paired positions".to_owned(),
            "Games".to_owned(),
            "A wins".to_owned(),
            "B wins".to_owned(),
            "Draws".to_owned(),
            "A win rate (95% CI)".to_owned(),
            "A wins as mover".to_owned(),
            "B wins as mover".to_owned(),
        ],
        ReportTable::Stability => vec![
            "Engine".to_owned(),
            "Configuration".to_owned(),
            "Seeds".to_owned(),
            "Move consistency".to_owned(),
            "Agreement mean".to_owned(),
            "Agreement std".to_owned(),
        ],
    };
    assert(texts(list@) =~= headers_of(table));
    list
}

/// The headers of the table on phases.
pub open spec fn phase_headers() -> Seq<Seq<char>> {
    seq!["Engine A"@, "Engine B"@, "Phase"@, "Games"@, "A wins"@, "B wins"@]
}

fn phase_header_list() -> (list: Vec<String>)
    ensures
        texts(list@) == phase_headers(),
{
    let list: Vec<String> = vec![
        "Engine A".to_owned(),
        "Engine B".to_owned(),
        "Phase".to_owned(),
        "Games".to_owned(),
        "A wins".to_owned(),
        "B wins".to_owned(),
    ];
    assert(texts(list@) =~= phase_headers());
    list
}

/// A section: an empty line, its title, an empty line, some words, an empty line
/// and a table.
pub open spec fn section(
    title: Seq<char>,
    words: Seq<char>,
    headers: Seq<Seq<char>>,
    rows: Seq<Seq<Seq<char>>>,
) -> Seq<Seq<char>> {
    seq![Seq::empty(), title, Seq::empty(), words, Seq::empty(), table_text(headers, rows)]
}

fn push_section(
    title: &str,
    words: &str,
    headers: &Vec<String>,
    rows: &Vec<Vec<String>>,
    parts: &mut Vec<String>,
)
    ensures
        texts(final(parts)@) == texts(old(parts)@) + section(
            title@,
            words@,
            texts(headers@),
            cells_view(rows@),
        ),
{
    let ghost start = texts(parts@);
    parts.push(String::new());
    parts.push(title.to_owned());
    parts.push(String::new());
    parts.push(words.to_owned());
    parts.push(String::new());
    parts.push(table(headers, rows));
    assert(texts(parts@) =~= start + section(
        title@,
        words@,
        texts(headers@),
        cells_view(rows@),
    ));
}

/// The sections of a report.
pub open spec fn section_parts(bundle: JsonView) -> Seq<Seq<char>> {
    let aggregates = at(bundle, "aggregates"@);
    let games = at(at(bundle, "head_to_head"@), "aggregates"@);
    section(
        "## Exact move agreement"@,
        AGREEMENT_NOTE@,
        headers_of(ReportTable::Agreement),
        table_rows(ReportTable::Agreement, at(aggregates, "agreement"@)),
    ) + section(
        "## Computational cost"@,
        COST_NOTE@,
        headers_of(ReportTable::Cost),
        table_rows(ReportTable::Cost, at(aggregates, "cost"@)),
    ) + section(
        "## Head-to-head (paired, side-balanced)"@,
        GAMES_NOTE@,
        headers_of(ReportTable::Games),
        table_rows(ReportTable::Games, games),
    ) + seq![
        Seq::empty(),
        "### Head-to-head by phase"@,
        Seq::empty(),
        table_text(
            phase_headers(),
            all_phase_rows(list_items(games), list_items(games).len() as int),
        ),
    ] + section(
        "## Stability across seeds"@,
        STABILITY_NOTE@,
        headers_of(ReportTable::Stability),
        table_rows(ReportTable::Stability, at(aggregates, "stability"@)),
    )
}

fn push_table_section(
    title: &str,
    words: &str,
    table: ReportTable,
    list: &Json,
    parts: &mut Vec<String>,
)
    ensures
        texts(final(parts)@) == texts(old(parts)@) + section(
            title@,
            words@,
            headers_of(table),
            table_rows(table, list.view()),
        ),
{
    let rows = rows_of(table, Some(list));
    push_section(title, words, &headers(table), &rows, parts);
}

fn push_sections(bundle: &Json, parts: &mut Vec<String>)
    ensures
        texts(final(parts)@) == texts(old(parts)@) + section_parts(bundle.view()),
{
    let ghost start = texts(parts@);
    let aggregates = copy_of(bundle, "aggregates");
    let head_to_head = copy_of(bundle, "head_to_head");
    let games = copy_of(&head_to_head, "aggregates");
    let agreement = copy_of(&aggregates, "agreement");
    let cost = copy_of(&aggregates, "cost");
    let stability = copy_of(&aggregates, "stability");
    push_table_section(
        "## Exact move agreement",
        AGREEMENT_NOTE,
        ReportTable::Agreement,
        &agreement,
        parts,
    );
    push_table_section("## Computational cost", COST_NOTE, ReportTable::Cost, &cost, parts);
    push_table_section(
        "## Head-to-head (paired, side-balanced)",
        GAMES_NOTE,
        ReportTable::Games,
        &games,
        parts,
    );
    let ghost before = texts(parts@);
    let phases = phase_rows_of(Some(&games));
    parts.push(String::new());
    parts.push("### Head-to-head by phase".to_owned());
    parts.push(String::new());
    parts.push(table(&phase_header_list(), &phases));
    assert(texts(parts@) =~= before + seq![
        Seq::empty(),
        "### Head-to-head by phase"@,
        Seq::empty(),
        table_text(phase_headers(), cells_view(phases@)),
    ]);
    push_table_section(
        "## Stability across seeds",
        STABILITY_NOTE,
        ReportTable::Stability,
        &stability,
        parts,
    );
    assert(texts(parts@) =~= start + section_parts(bundle.view()));
}

/// The lines at the end of a report.
pub open spec fn guardrail_parts() -> Seq<Seq<char>> {
    seq![
        Seq::empty(),
        "## Interpretation guardrails"@,
        Seq::empty(),
        CERTAINTY_NOTE@,
        EVIDENCE_NOTE@,
        BEAM_NOTE@,
        FAIRNESS_NOTE@,
        Seq::empty(),
    ]
}

/// The report on a bundle.
pub open spec fn report_text(bundle: JsonView) -> Seq<char> {
    joined(
        head_parts(bundle) + checkpoint_parts(bundle) + section_parts(bundle) + guardrail_parts(),
        "\n"@,
    )
}

/// Render the report on the results of a benchmark run.
pub fn render_markdown(bundle: &Json) -> (text: String)
    ensures
        text@ == report_text(bundle.view()),
{
    let mut parts: Vec<String> = Vec::new();
    assert(texts(parts@) =~= Seq::empty());
    push_head(bundle, &mut parts);
    push_checkpoint(bundle, &mut parts);
    push_sections(bundle, &mut parts);
    let ghost before = texts(parts@);
    parts.push(String::new());
    parts.push("## Interpretation guardrails".to_owned());
    parts.push(String::new());
    parts.push(CERTAINTY_NOTE.to_owned());
    parts.push(EVIDENCE_NOTE.to_owned());
    parts.push(BEAM_NOTE.to_owned());
    parts.push(FAIRNESS_NOTE.to_owned());
    parts.push(String::new());
    assert(texts(parts@) =~= before + guardrail_parts());
    assert(texts(parts@) =~= head_parts(bundle.view()) + checkpoint_parts(bundle.view())
        + section_parts(bundle.view()) + guardrail_parts());
    join(&parts, "\n")
}

} // verus!
