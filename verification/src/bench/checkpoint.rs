//! Resumable benchmark runs: what a checkpoint directory holds and when a run may
//! go on from it.
use crate::bench::aggregate::{aggregate_head_to_head, games_ok, GamesSummary};
use crate::bench::bundle::{dataset_block, dataset_block_view, SCHEMA_VERSION};
use crate::bench::canonical::{canonical_json, json_text, text_at_most, text_le};
use crate::bench::compact::{compact_json, compact_text};
use crate::bench::fields::{
    at, concat, concat3, copy_of, is_blank, text_at, text_in, text_in_or, text_or, texts, trim,
    trimmed,
};
use crate::bench::journal::{
    all_restorable, journal, journal_lines, lemma_journal_lines, lemma_json_neat,
    lemma_neat_trimmed,
};
use crate::bench::json::{
    field, gives_back, items_view, lemma_without_with, member, members_of, members_view,
    parse_json, parsed_json, remove_member, restorable, set_member, strip_member, with_member,
    without, Json, JsonView,
};
use crate::bench::reference::strictly_sorted;
use crate::text::{
    debug_form, debug_text, decimal, join, joined, push_decimal, same_text, split, split_text,
    to_chars,
};
use vstd::prelude::*;
use vstd::string::*;

verus! {

/// The names of the files of a checkpoint, without their endings.
pub const MANIFEST: &'static str = "manifest";

pub const OBSERVATIONS: &'static str = "observations";

pub const H2H_RECORDS: &'static str = "h2h";

/// The ending of a file that holds one JSON value.
pub const DOCUMENT: &'static str = ".json";

/// The ending of a file that holds one JSON value per line.
pub const LINES: &'static str = ".jsonl";

/// The paths that make up a checkpoint directory.
#[derive(Debug)]
pub struct CheckpointPaths {
    pub root: String,
    pub manifest: String,
    pub observations: String,
    pub h2h: String,
}

/// The path of `name` in the directory `root`.
pub open spec fn path_in(root: Seq<char>, name: Seq<char>) -> Seq<char> {
    if root.len() == 0 || root.last() == '/' {
        root + name
    } else {
        root + seq!['/'] + name
    }
}

/// The path of `name` in the directory `root`.
pub fn join_path(root: &str, name: &str) -> (p: String)
    ensures
        p@ == path_in(root@, name@),
{
    let chars = to_chars(root);
    let mut p = root.to_owned();
    if chars.len() > 0 && chars[chars.len() - 1] != '/' {
        p.push('/');
    }
    p.append(name);
    assert(p@ =~= path_in(root@, name@));
    p
}

/// The paths of a checkpoint directory.
pub fn checkpoint_paths(root: &str) -> (p: CheckpointPaths)
    ensures
        p.root@ == root@,
        p.manifest@ == path_in(root@, MANIFEST@ + DOCUMENT@),
        p.observations@ == path_in(root@, OBSERVATIONS@ + LINES@),
        p.h2h@ == path_in(root@, H2H_RECORDS@ + LINES@),
{
    CheckpointPaths {
        root: root.to_owned(),
        manifest: join_path(root, concat(MANIFEST, DOCUMENT).as_str()),
        observations: join_path(root, concat(OBSERVATIONS, LINES).as_str()),
        h2h: join_path(root, concat(H2H_RECORDS, LINES).as_str()),
    }
}

/// The path without slashes, and without steps that stay in place, at its end.
pub open spec fn without_tail(s: Seq<char>) -> Seq<char>
    decreases s.len(),
{
    if s.len() > 1 && s.last() == '/' {
        without_tail(s.drop_last())
    } else if s.len() > 2 && s.last() == '.' && s[s.len() - 2] == '/' {
        without_tail(s.drop_last())
    } else {
        s
    }
}

/// The last component of a path, from the place `k` on backwards.
pub open spec fn component_start(s: Seq<char>, k: int) -> int
    decreases k,
{
    if k <= 0 || s[k - 1] == '/' {
        k
    } else {
        component_start(s, k - 1)
    }
}

/// The name of the file that a path leads to.
pub open spec fn file_name(path: Seq<char>) -> Seq<char> {
    let s = without_tail(path);
    s.skip(component_start(s, s.len() as int))
}

/// Whether a name ends in `.json` after at least one character.
pub open spec fn names_json(name: Seq<char>) -> bool {
    name.len() > 5 && name.skip(name.len() - 5) == ".json"@
}

/// The manifest that a path stands for: the path itself if it names a JSON file,
/// else the manifest in that directory.
pub open spec fn manifest_target(path: Seq<char>, is_dir: bool) -> Seq<char> {
    if !is_dir && names_json(file_name(path)) {
        path
    } else {
        path_in(path, MANIFEST@ + DOCUMENT@)
    }
}

/// The manifest that a path stands for. `is_dir` tells whether it is a directory.
pub fn manifest_path(path: &str, is_dir: bool) -> (target: String)
    ensures
        target@ == manifest_target(path@, is_dir),
{
    if is_dir {
        return join_path(path, concat(MANIFEST, DOCUMENT).as_str());
    }
    let chars = to_chars(path);
    let mut hi: usize = chars.len();
    assert(chars@.take(hi as int) =~= chars@);
    while (hi > 1 && chars[hi - 1] == '/') || (hi > 2 && chars[hi - 1] == '.' && chars[hi - 2]
        == '/')
        invariant
            hi <= chars@.len(),
            chars@ == path@,
            without_tail(path@) == without_tail(chars@.take(hi as int)),
        decreases hi,
    {
        let ghost part = chars@.take(hi as int);
        assert(part.drop_last() =~= chars@.take(hi - 1));
        assert(part.last() == chars@[hi - 1]);
        hi = hi - 1;
    }
    let ghost s = chars@.take(hi as int);
    let mut lo: usize = hi;
    while lo > 0 && chars[lo - 1] != '/'
        invariant
            lo <= hi <= chars@.len(),
            s == chars@.take(hi as int),
            component_start(s, hi as int) == component_start(s, lo as int),
        decreases lo,
    {
        lo = lo - 1;
    }
    let ghost name = s.skip(lo as int);
    proof {
        reveal_strlit(".json");
        assert(name == file_name(path@));
    }
    if hi - lo > 5 && chars[hi - 5] == '.' && chars[hi - 4] == 'j' && chars[hi - 3] == 's'
        && chars[hi - 2] == 'o' && chars[hi - 1] == 'n' {
        assert(name.skip(name.len() - 5) =~= ".json"@);
        return path.to_owned();
    }
    proof {
        if name.len() > 5 && name.skip(name.len() - 5) == ".json"@ {
            let tail = name.skip(name.len() - 5);
            assert(tail[0] == chars@[hi - 5] && tail[1] == chars@[hi - 4] && tail[2] == chars@[hi
                - 3] && tail[3] == chars@[hi - 2] && tail[4] == chars@[hi - 1]);
        }
    }
    join_path(path, concat(MANIFEST, DOCUMENT).as_str())
}

/// The rows on the lines from the one at `i` on, blank lines left out; or what is
/// wrong with the first line that is no JSON.
pub open spec fn rows_from(
    path: Seq<char>,
    lines: Seq<Seq<char>>,
    i: int,
) -> Result<Seq<JsonView>, Seq<char>>
    decreases lines.len() - i,
{
    if i < 0 || i >= lines.len() {
        Ok(Seq::empty())
    } else if is_blank(lines[i]) {
        rows_from(path, lines, i + 1)
    } else {
        match parsed_json(trimmed(lines[i])) {
            Err(e) => Err(
                path + ":"@ + decimal((i + 1) as nat) + ": invalid checkpoint JSON: "@ + e,
            ),
            Ok(v) => match rows_from(path, lines, i + 1) {
                Ok(rest) => Ok(seq![v] + rest),
                Err(e) => Err(e),
            },
        }
    }
}

/// The value that was read, if any.
pub open spec fn read_value(r: Result<JsonView, Seq<char>>) -> Option<JsonView> {
    match r {
        Ok(v) => Some(v),
        Err(_) => None,
    }
}

proof fn lemma_journal_read(path: Seq<char>, rows: Seq<JsonView>, lines: Seq<Seq<char>>, i: int)
    requires
        all_restorable(rows),
        lines == journal_lines(rows),
        0 <= i <= rows.len(),
        forall|k: int|
            0 <= k < lines.len() && !is_blank(#[trigger] lines[k]) ==> gives_back(
                trimmed(lines[k]),
                read_value(parsed_json(trimmed(lines[k]))),
            ),
    ensures
        rows_from(path, lines, i) == Ok::<Seq<JsonView>, Seq<char>>(rows.skip(i)),
    decreases rows.len() - i,
{
    if i == rows.len() {
        assert(is_blank(lines[i]));
        assert(rows_from(path, lines, i + 1) == Ok::<Seq<JsonView>, Seq<char>>(Seq::empty()));
        assert(rows.skip(i) =~= Seq::empty());
    } else {
        lemma_journal_read(path, rows, lines, i + 1);
        assert(restorable(rows[i], 127));
        assert(lines[i] == json_text(rows[i]));
        lemma_json_neat(rows[i], 127);
        lemma_neat_trimmed(lines[i]);
        assert(gives_back(lines[i], read_value(parsed_json(lines[i]))));
        assert(parsed_json(lines[i]) == Ok::<JsonView, Seq<char>>(rows[i]));
        assert(seq![rows[i]] + rows.skip(i + 1) =~= rows.skip(i));
    }
}

/// The rows of a text with one JSON value on each line. The error names the file
/// and the line. What was written row by row is read back, but for floating numbers.
pub fn parse_jsonl(path: &str, text: &str) -> (r: Result<Vec<Json>, String>)
    ensures
        match (r, rows_from(path@, split_text(text@, '\n'), 0)) {
            (Ok(rows), Ok(v)) => items_view(rows@) == v,
            (Err(m), Err(e)) => m@ == e,
            _ => false,
        },
        forall|rows: Seq<JsonView>|
            all_restorable(rows) && text@ == #[trigger] journal(rows) ==> (r matches Ok(read)
                && items_view(read@) == rows),
{
    let lines = split(text, '\n');
    let ghost views = split_text(text@, '\n');
    assert(views.len() == lines@.len());
    let mut rows: Vec<Json> = Vec::new();
    let mut i: usize = 0;
    assert(items_view(rows@) =~= Seq::empty());
    proof {
        if let Ok(v) = rows_from(path@, views, 0) {
            assert(Seq::<JsonView>::empty() + v =~= v);
        }
    }
    while i < lines.len()
        invariant
            i <= lines@.len(),
            views == lines@.map_values(|p: String| p@),
            views == split_text(text@, '\n'),
            match (rows_from(path@, views, 0), rows_from(path@, views, i as int)) {
                (Ok(all), Ok(rest)) => all == items_view(rows@) + rest,
                (Err(a), Err(b)) => a == b,
                _ => false,
            },
            forall|k: int|
                0 <= k < i && !is_blank(#[trigger] views[k]) ==> gives_back(
                    trimmed(views[k]),
                    read_value(parsed_json(trimmed(views[k]))),
                ),
        decreases lines@.len() - i,
    {
        assert(views[i as int] == lines@[i as int]@);
        if !crate::bench::fields::blank(lines[i].as_str()) {
            let line = trim(lines[i].as_str());
            match parse_json(line.as_str()) {
                Ok(v) => {
                    let ghost before = items_view(rows@);
                    let ghost shown = v.view();
                    rows.push(v);
                    proof {
                        assert(items_view(rows@) =~= before.push(shown));
                        if let Ok(rest) = rows_from(path@, views, i + 1) {
                            assert(before + (seq![shown] + rest) =~= before.push(shown) + rest);
                        }
                    }
                },
                Err(e) => {
                    let mut m = concat(path, ":");
                    push_decimal(&mut m, i as u64 + 1);
                    m.append(": invalid checkpoint JSON: ");
                    m.append(e.as_str());
                    proof {
                        assert forall|rows: Seq<JsonView>|
                            all_restorable(rows) && text@ == #[trigger] journal(rows) implies false by {
                            lemma_journal_lines(rows);
                            let k = i as int;
                            if k < rows.len() {
                                assert(views[k] == json_text(rows[k]));
                                assert(restorable(rows[k], 127));
                                lemma_json_neat(rows[k], 127);
                                lemma_neat_trimmed(views[k]);
                            } else {
                                assert(is_blank(views[k]));
                            }
                        }
                    }
                    return Err(m);
                },
            }
        }
        i = i + 1;
    }
    proof {
        assert(items_view(rows@) + Seq::<JsonView>::empty() =~= items_view(rows@));
        assert forall|written: Seq<JsonView>|
            all_restorable(written) && text@ == #[trigger] journal(written) implies items_view(rows@)
            == written by {
            lemma_journal_lines(written);
            lemma_journal_read(path@, written, views, 0);
            assert(written.skip(0) =~= written);
        }
    }
    Ok(rows)
}

/// The counts of a checkpoint.
pub open spec fn counts_view(observations: u64, h2h_records: u64) -> JsonView {
    JsonView::Object(
        seq![
            ("h2h_records"@, JsonView::Unsigned(h2h_records)),
            ("observations"@, JsonView::Unsigned(observations)),
        ],
    )
}

fn counts_json(observations: u64, h2h_records: u64) -> (j: Json)
    ensures
        j.view() == counts_view(observations, h2h_records),
{
    let members: Vec<(String, Json)> = vec![
        field("h2h_records", Json::Unsigned(h2h_records)),
        field("observations", Json::Unsigned(observations)),
    ];
    assert(members_view(members@) =~= counts_view(observations, h2h_records)->Object_0);
    Json::Object(members)
}

/// The members of a manifest with new counts, perhaps a new status, and the time of
/// the update.
pub open spec fn updated_members(
    o: Seq<(Seq<char>, JsonView)>,
    observations: u64,
    h2h_records: u64,
    status: Option<Seq<char>>,
    now: Seq<char>,
) -> Seq<(Seq<char>, JsonView)> {
    let counted = with_member(o, "counts"@, counts_view(observations, h2h_records));
    let stated = match status {
        Some(s) => with_member(counted, "status"@, JsonView::Text(s)),
        None => counted,
    };
    with_member(stated, "updated_at"@, JsonView::Text(now))
}

/// A manifest with new counts, perhaps a new status, and the time of the update.
pub fn update_manifest_counts(
    manifest: &Json,
    observations: u64,
    h2h_records: u64,
    status: Option<&str>,
    now: &str,
) -> (r: Json)
    ensures
        r.view() == JsonView::Object(
            updated_members(
                members_of(manifest.view()),
                observations,
                h2h_records,
                match status {
                    Some(s) => Some(s@),
                    None => None,
                },
                now@,
            ),
        ),
{
    let counted = set_member(manifest, "counts", counts_json(observations, h2h_records));
    let stated = match status {
        Some(s) => set_member(&counted, "status", Json::text(s)),
        None => counted,
    };
    set_member(&stated, "updated_at", Json::text(now))
}

/// The settings without those that may differ between a run and its resumption.
pub open spec fn lasting(o: Seq<(Seq<char>, JsonView)>) -> Seq<(Seq<char>, JsonView)> {
    without(
        without(
            without(without(without(o, "checkpoint_dir"@), "output"@), "resume"@),
            "skip_agreement"@,
        ),
        "workers"@,
    )
}

/// Drop the settings that must not keep a run from being resumed.
pub fn normalize_run_config(config: &Json) -> (r: Json)
    ensures
        r.view() == JsonView::Object(lasting(members_of(config.view()))),
{
    let a = strip_member(config, "checkpoint_dir");
    let b = remove_member(&a, "output");
    let c = remove_member(&b, "resume");
    let d = remove_member(&c, "skip_agreement");
    Json::Object(remove_member(&d, "workers"))
}

/// The settings that a resumption must share, with or without the one on games.
pub open spec fn signature(config: JsonView, ignore_skip_h2h: bool) -> Seq<
    (Seq<char>, JsonView),
> {
    let o = lasting(members_of(config));
    if ignore_skip_h2h {
        without(o, "skip_h2h"@)
    } else {
        o
    }
}

fn config_signature(config: &Json, ignore_skip_h2h: bool) -> (r: Vec<(String, Json)>)
    ensures
        members_view(r@) == signature(config.view(), ignore_skip_h2h),
{
    let lasting = normalize_run_config(config);
    if ignore_skip_h2h {
        strip_member(&lasting, "skip_h2h")
    } else {
        match lasting {
            Json::Object(members) => members,
            _ => Vec::new(),
        }
    }
}

proof fn lemma_without_commutes(o: Seq<(Seq<char>, JsonView)>, a: Seq<char>, b: Seq<char>)
    ensures
        without(without(o, a), b) == without(without(o, b), a),
    decreases o.len(),
{
    if o.len() > 0 {
        let rest = o.drop_last();
        lemma_without_commutes(rest, a, b);
        let x = without(rest, a);
        let y = without(rest, b);
        assert(x.push(o.last()).drop_last() =~= x);
        assert(y.push(o.last()).drop_last() =~= y);
    }
}

/// Whether a setting may differ between a run and its resumption.
pub open spec fn is_volatile(name: Seq<char>) -> bool {
    name == "checkpoint_dir"@ || name == "output"@ || name == "resume"@ || name
        == "skip_agreement"@ || name == "workers"@
}

proof fn lemma_lasting_without(o: Seq<(Seq<char>, JsonView)>, name: Seq<char>)
    ensures
        lasting(without(o, name)) == without(lasting(o), name),
{
    let o1 = without(o, "checkpoint_dir"@);
    let o2 = without(o1, "output"@);
    let o3 = without(o2, "resume"@);
    let o4 = without(o3, "skip_agreement"@);
    lemma_without_commutes(o, name, "checkpoint_dir"@);
    lemma_without_commutes(o1, name, "output"@);
    lemma_without_commutes(o2, name, "resume"@);
    lemma_without_commutes(o3, name, "skip_agreement"@);
    lemma_without_commutes(o4, name, "workers"@);
}

proof fn lemma_without_again(o: Seq<(Seq<char>, JsonView)>, name: Seq<char>)
    ensures
        without(without(o, name), name) == without(o, name),
    decreases o.len(),
{
    if o.len() > 0 {
        lemma_without_again(o.drop_last(), name);
        let before = without(o.drop_last(), name);
        assert(before.push(o.last()).drop_last() =~= before);
    }
}

/// A setting that may differ does not count: whatever it is, the settings that a
/// resumption must share are the same.
pub proof fn law_volatile_settings_do_not_count(
    o: Seq<(Seq<char>, JsonView)>,
    name: Seq<char>,
    value: JsonView,
    ignore_skip_h2h: bool,
)
    requires
        is_volatile(name),
    ensures
        signature(JsonView::Object(with_member(o, name, value)), ignore_skip_h2h) == signature(
            JsonView::Object(o),
            ignore_skip_h2h,
        ),
{
    let changed = with_member(o, name, value);
    lemma_without_with(o, name, value);
    lemma_lasting_without(changed, name);
    lemma_lasting_without(o, name);
    lemma_lasting_has_none(changed, name);
    lemma_lasting_has_none(o, name);
}

/// Taking away a setting that may differ changes nothing of what lasts.
proof fn lemma_lasting_has_none(o: Seq<(Seq<char>, JsonView)>, name: Seq<char>)
    requires
        is_volatile(name),
    ensures
        without(lasting(o), name) == lasting(o),
{
    let o1 = without(o, "checkpoint_dir"@);
    let o2 = without(o1, "output"@);
    let o3 = without(o2, "resume"@);
    let o4 = without(o3, "skip_agreement"@);
    let o5 = without(o4, "workers"@);
    lemma_without_again(o, "checkpoint_dir"@);
    lemma_without_again(o1, "output"@);
    lemma_without_again(o2, "resume"@);
    lemma_without_again(o3, "skip_agreement"@);
    lemma_without_again(o4, "workers"@);
    lemma_without_commutes(o4, name, "workers"@);
    lemma_without_commutes(o3, name, "skip_agreement"@);
    lemma_without_commutes(o2, name, "resume"@);
    lemma_without_commutes(o1, name, "output"@);
}

/// An optional text as the standard library's `Debug` shows it.
pub open spec fn debug_option(s: Option<Seq<char>>) -> Seq<char> {
    match s {
        Some(s) => "Some("@ + debug_form(s) + ")"@,
        None => "None"@,
    }
}

fn push_debug_option(out: &mut String, s: Option<&str>)
    ensures
        final(out)@ == old(out)@ + debug_option(
            match s {
                Some(s) => Some(s@),
                None => None,
            },
        ),
{
    let ghost start = out@;
    match s {
        Some(s) => {
            out.append("Some(");
            out.append(debug_text(s).as_str());
            out.append(")");
        },
        None => out.append("None"),
    }
    assert(out@ =~= start + debug_option(
        match s {
            Some(s) => Some(s@),
            None => None,
        },
    ));
}

/// A member, null where there is none.
pub open spec fn value_of(o: Seq<(Seq<char>, JsonView)>, name: Seq<char>) -> JsonView {
    match member(o, name) {
        Some(v) => v,
        None => JsonView::Null,
    }
}

/// The words about the settings among the first `n` names that differ.
pub open spec fn differences(
    expected: Seq<(Seq<char>, JsonView)>,
    actual: Seq<(Seq<char>, JsonView)>,
    names: Seq<Seq<char>>,
    n: int,
) -> Seq<Seq<char>>
    decreases n,
{
    if n <= 0 {
        Seq::empty()
    } else {
        let before = differences(expected, actual, names, n - 1);
        let e = value_of(expected, names[n - 1]);
        let a = value_of(actual, names[n - 1]);
        if json_text(e) != json_text(a) {
            before.push(
                names[n - 1] + ": expected "@ + compact_text(e) + ", found "@ + compact_text(a),
            )
        } else {
            before
        }
    }
}

/// Whether `names` lists the names of two lists of settings in order.
pub open spec fn lists_names(
    names: Seq<Seq<char>>,
    a: Seq<(Seq<char>, JsonView)>,
    b: Seq<(Seq<char>, JsonView)>,
) -> bool {
    &&& strictly_sorted(names)
    &&& forall|s: Seq<char>| #[trigger]
        names.contains(s) <==> (exists|i: int| 0 <= i < a.len() && (#[trigger] a[i]).0 == s) || (
        exists|i: int| 0 <= i < b.len() && (#[trigger] b[i]).0 == s)
}

/// The words about settings that differ, given the names of all settings.
pub open spec fn settings_words(
    expected: Seq<(Seq<char>, JsonView)>,
    actual: Seq<(Seq<char>, JsonView)>,
    names: Seq<Seq<char>>,
) -> Seq<char> {
    let found = differences(expected, actual, names, names.len() as int);
    "checkpoint config mismatch: "@ + if found.len() == 0 {
        "unknown difference"@
    } else {
        joined(found, "; "@)
    }
}

fn add_names(names: &mut Vec<String>, members: &Vec<(String, Json)>)
    requires
        strictly_sorted(texts(old(names)@)),
    ensures
        strictly_sorted(texts(final(names)@)),
        forall|s: Seq<char>| #[trigger]
            texts(final(names)@).contains(s) <==> texts(old(names)@).contains(s) || exists|i: int|
                0 <= i < members@.len() && (#[trigger] members_view(members@)[i]).0 == s,
{
    let ghost views = members_view(members@);
    let ghost start = texts(names@);
    let mut i: usize = 0;
    while i < members.len()
        invariant
            i <= members@.len(),
            views == members_view(members@),
            strictly_sorted(texts(names@)),
            forall|s: Seq<char>| #[trigger]
                texts(names@).contains(s) <==> start.contains(s) || exists|k: int|
                    0 <= k < i && (#[trigger] views[k]).0 == s,
        decreases members@.len() - i,
    {
        let ghost before = texts(names@);
        assert(views[i as int].0 == members@[i as int].0@);
        crate::bench::aggregate::add_name(names, members[i].0.as_str());
        proof {
            assert forall|s: Seq<char>| #[trigger]
                texts(names@).contains(s) <==> start.contains(s) || exists|k: int|
                    0 <= k < i + 1 && (#[trigger] views[k]).0 == s by {
                assert(texts(names@).contains(s) <==> before.contains(s) || s
                    == views[i as int].0);
                if before.contains(s) && !start.contains(s) {
                    let k = choose|k: int| 0 <= k < i && (#[trigger] views[k]).0 == s;
                    assert(views[k].0 == s);
                }
            }
        }
        i = i + 1;
    }
}

fn value_in(members: &Vec<(String, Json)>, name: &str) -> (v: Json)
    ensures
        v.view() == value_of(members_view(members@), name@),
{
    match crate::bench::json::find_member(members, name) {
        Some(v) => v.copy(),
        None => Json::Null,
    }
}

fn settings_message(expected: &Vec<(String, Json)>, actual: &Vec<(String, Json)>) -> (m: String)
    ensures
        exists|names: Seq<Seq<char>>|
            lists_names(names, members_view(expected@), members_view(actual@)) && m@
                == #[trigger] settings_words(
                members_view(expected@),
                members_view(actual@),
                names,
            ),
{
    let mut names: Vec<String> = Vec::new();
    assert(texts(names@) =~= Seq::empty());
    add_names(&mut names, expected);
    add_names(&mut names, actual);
    let ghost listed = texts(names@);
    let ghost e = members_view(expected@);
    let ghost a = members_view(actual@);
    let mut found: Vec<String> = Vec::new();
    let mut i: usize = 0;
    assert(texts(found@) =~= Seq::empty());
    while i < names.len()
        invariant
            i <= names@.len(),
            listed == texts(names@),
            e == members_view(expected@),
            a == members_view(actual@),
            texts(found@) == differences(e, a, listed, i as int),
        decreases names@.len() - i,
    {
        assert(listed[i as int] == names@[i as int]@);
        let x = value_in(expected, names[i].as_str());
        let y = value_in(actual, names[i].as_str());
        if !same_text(canonical_json(&x).as_str(), canonical_json(&y).as_str()) {
            let ghost before = texts(found@);
            let mut line = concat3(names[i].as_str(), ": expected ", compact_json(&x).as_str());
            line.append(", found ");
            line.append(compact_json(&y).as_str());
            let ghost shown = line@;
            found.push(line);
            assert(texts(found@) =~= before.push(shown));
        }
        i = i + 1;
    }
    let detail = if found.len() == 0 {
        "unknown difference".to_owned()
    } else {
        join(&found, "; ")
    };
    let m = concat("checkpoint config mismatch: ", detail.as_str());
    assert(lists_names(listed, e, a));
    assert(m@ == settings_words(e, a, listed));
    m
}

/// The checksum of the dataset that a manifest names.
pub open spec fn manifest_checksum(manifest: JsonView) -> Option<Seq<char>> {
    text_at(at(manifest, "dataset"@), "checksum"@)
}

/// Whether two lists of settings are the same.
pub open spec fn same_settings(
    a: Seq<(Seq<char>, JsonView)>,
    b: Seq<(Seq<char>, JsonView)>,
) -> bool {
    json_text(JsonView::Object(a)) == json_text(JsonView::Object(b))
}

/// Whether a run may go on from a checkpoint: the dataset and the settings that
/// count are the same.
pub open spec fn may_resume(
    manifest: JsonView,
    checksum: Option<Seq<char>>,
    config: JsonView,
    allow_skip_h2h_mismatch: bool,
) -> bool {
    &&& manifest_checksum(manifest) == checksum
    &&& same_settings(
        signature(at(manifest, "config"@), allow_skip_h2h_mismatch),
        signature(config, allow_skip_h2h_mismatch),
    )
}

/// Whether `m` says why a run may not go on from a checkpoint: it shows the
/// checksums, or else the settings that differ.
pub open spec fn refusal(
    manifest: JsonView,
    checksum: Option<Seq<char>>,
    config: JsonView,
    allow_skip_h2h_mismatch: bool,
    m: Seq<char>,
) -> bool {
    let found = manifest_checksum(manifest);
    let expected = signature(config, allow_skip_h2h_mismatch);
    let actual = signature(at(manifest, "config"@), allow_skip_h2h_mismatch);
    if found != checksum {
        m == "checkpoint dataset checksum mismatch: expected "@ + debug_option(checksum)
            + ", found "@ + debug_option(found)
    } else {
        !same_settings(actual, expected) && exists|names: Seq<Seq<char>>|
            lists_names(names, expected, actual) && m == #[trigger] settings_words(
                expected,
                actual,
                names,
            )
    }
}

/// What an optional text says.
pub open spec fn text_option(s: Option<&str>) -> Option<Seq<char>> {
    match s {
        Some(s) => Some(s@),
        None => None,
    }
}

/// Check that a run may go on from a checkpoint. The error shows the checksums, or
/// the settings that differ.
pub fn validate_resume_manifest(
    manifest: &Json,
    dataset_checksum: Option<&str>,
    config: &Json,
    allow_skip_h2h_mismatch: bool,
) -> (r: Result<(), String>)
    ensures
        match r {
            Ok(_) => may_resume(
                manifest.view(),
                text_option(dataset_checksum),
                config.view(),
                allow_skip_h2h_mismatch,
            ),
            Err(m) => refusal(
                manifest.view(),
                text_option(dataset_checksum),
                config.view(),
                allow_skip_h2h_mismatch,
                m@,
            ),
        },
{
    let dataset = copy_of(manifest, "dataset");
    let found = text_in(&dataset, "checksum");
    let same: bool = match found {
        Some(a) => match dataset_checksum {
            Some(b) => same_text(a, b),
            None => false,
        },
        None => dataset_checksum.is_none(),
    };
    if !same {
        let mut m = "checkpoint dataset checksum mismatch: expected ".to_owned();
        push_debug_option(&mut m, dataset_checksum);
        m.append(", found ");
        push_debug_option(&mut m, found);
        return Err(m);
    }
    let expected = config_signature(config, allow_skip_h2h_mismatch);
    let actual = config_signature(&copy_of(manifest, "config"), allow_skip_h2h_mismatch);
    let message = settings_message(&expected, &actual);
    let a = canonical_json(&Json::Object(actual));
    let b = canonical_json(&Json::Object(expected));
    if !same_text(a.as_str(), b.as_str()) {
        return Err(message);
    }
    Ok(())
}

/// A new manifest.
pub open spec fn manifest_view(
    config: JsonView,
    dataset: JsonView,
    status: Seq<char>,
    observations: u64,
    h2h_records: u64,
    now: Seq<char>,
    environment: JsonView,
) -> JsonView {
    JsonView::Object(
        seq![
            ("config"@, config),
            ("counts"@, counts_view(observations, h2h_records)),
            ("dataset"@, dataset_block_view(dataset)),
            ("environment"@, environment),
            ("schema_version"@, JsonView::Unsigned(SCHEMA_VERSION)),
            ("started_at"@, JsonView::Text(now)),
            ("status"@, JsonView::Text(status)),
        ],
    )
}

/// Build a new manifest. `now` is the time of the start and `environment` describes
/// the machine.
pub fn build_manifest(
    config: &Json,
    dataset_payload: &Json,
    status: &str,
    observations: u64,
    h2h_records: u64,
    now: &str,
    environment: &Json,
) -> (j: Json)
    ensures
        j.view() == manifest_view(
            config.view(),
            dataset_payload.view(),
            status@,
            observations,
            h2h_records,
            now@,
            environment.view(),
        ),
{
    let members: Vec<(String, Json)> = vec![
        field("config", config.copy()),
        field("counts", counts_json(observations, h2h_records)),
        field("dataset", dataset_block(dataset_payload)),
        field("environment", environment.copy()),
        field("schema_version", Json::Unsigned(SCHEMA_VERSION)),
        field("started_at", Json::text(now)),
        field("status", Json::text(status)),
    ];
    assert(members_view(members@) =~= manifest_view(
        config.view(),
        dataset_payload.view(),
        status@,
        observations,
        h2h_records,
        now@,
        environment.view(),
    )->Object_0);
    Json::Object(members)
}

/// A run may go on from its own manifest, whatever the settings that may differ have
/// become.
pub proof fn law_own_manifest_resumes(
    o: Seq<(Seq<char>, JsonView)>,
    dataset: JsonView,
    status: Seq<char>,
    observations: u64,
    h2h_records: u64,
    now: Seq<char>,
    environment: JsonView,
    name: Seq<char>,
    value: JsonView,
    allow_skip_h2h_mismatch: bool,
)
    requires
        is_volatile(name),
    ensures
        may_resume(
            manifest_view(
                JsonView::Object(o),
                dataset,
                status,
                observations,
                h2h_records,
                now,
                environment,
            ),
            text_at(dataset, "checksum"@),
            JsonView::Object(with_member(o, name, value)),
            allow_skip_h2h_mismatch,
        ),
{
    let config = JsonView::Object(o);
    let m = manifest_view(
        config,
        dataset,
        status,
        observations,
        h2h_records,
        now,
        environment,
    );
    let members = m->Object_0;
    reveal_strlit("config");
    reveal_strlit("counts");
    reveal_strlit("dataset");
    reveal_strlit("checksum");
    assert("config"@.len() == 6 && "counts"@.len() == 6 && "dataset"@.len() == 7);
    crate::bench::json::lemma_member_at(members, "config"@, 0);
    crate::bench::json::lemma_member_at(members, "dataset"@, 2);
    crate::bench::json::lemma_member_at(
        dataset_block_view(dataset)->Object_0,
        "checksum"@,
        0,
    );
    law_volatile_settings_do_not_count(o, name, value, allow_skip_h2h_mismatch);
}

/// The dataset that a manifest describes, or why it describes none.
pub fn dataset_summary(manifest: &Json) -> (r: Result<Json, String>)
    ensures
        match r {
            Ok(d) => !(at(manifest.view(), "dataset"@) is Null) && d.view() == at(
                manifest.view(),
                "dataset"@,
            ),
            Err(m) => at(manifest.view(), "dataset"@) is Null && m@
                == "checkpoint manifest is missing dataset metadata"@,
        },
{
    let d = copy_of(manifest, "dataset");
    if d.is_null() {
        return Err("checkpoint manifest is missing dataset metadata".to_owned());
    }
    Ok(d)
}

/// The two engines of a game, in order.
pub open spec fn pair_of(record: JsonView) -> (Seq<char>, Seq<char>) {
    let mover = text_or(record, "mover"@, ""@);
    let responder = text_or(record, "responder"@, ""@);
    if text_le(mover, responder) {
        (mover, responder)
    } else {
        (responder, mover)
    }
}

/// Whether a game is the first of its two engines.
pub open spec fn leads(records: Seq<JsonView>, i: int) -> bool {
    forall|j: int| 0 <= j < i ==> pair_of(#[trigger] records[j]) != pair_of(records[i])
}

/// The places below `n` of the games that are the first of their two engines.
pub open spec fn leaders(records: Seq<JsonView>, n: int) -> Seq<int>
    decreases n,
{
    if n <= 0 {
        Seq::empty()
    } else if leads(records, n - 1) {
        leaders(records, n - 1).push(n - 1)
    } else {
        leaders(records, n - 1)
    }
}

/// The games of two engines among the first `n`.
pub open spec fn games_of(records: Seq<JsonView>, n: int, pair: (Seq<char>, Seq<char>)) -> Seq<
    JsonView,
>
    decreases n,
{
    if n <= 0 {
        Seq::empty()
    } else if pair_of(records[n - 1]) == pair {
        games_of(records, n - 1, pair).push(records[n - 1])
    } else {
        games_of(records, n - 1, pair)
    }
}

fn pair_in(record: &Json) -> (p: (String, String))
    ensures
        (p.0@, p.1@) == pair_of(record.view()),
{
    let mover = text_in_or(record, "mover", "");
    let responder = text_in_or(record, "responder", "");
    if text_at_most(mover, responder) {
        (mover.to_owned(), responder.to_owned())
    } else {
        (responder.to_owned(), mover.to_owned())
    }
}

fn same_pair(a: &(String, String), b: &(String, String)) -> (r: bool)
    ensures
        r <==> (a.0@, a.1@) == (b.0@, b.1@),
{
    same_text(a.0.as_str(), b.0.as_str()) && same_text(a.1.as_str(), b.1.as_str())
}

fn is_leader(records: &Vec<Json>, i: usize) -> (r: bool)
    requires
        i < records@.len(),
    ensures
        r <==> leads(items_view(records@), i as int),
{
    let ghost views = items_view(records@);
    let pair = pair_in(&records[i]);
    let mut j: usize = 0;
    while j < i
        invariant
            j <= i < records@.len(),
            views == items_view(records@),
            (pair.0@, pair.1@) == pair_of(views[i as int]),
            forall|k: int| 0 <= k < j ==> pair_of(#[trigger] views[k]) != pair_of(views[i as int]),
        decreases i - j,
    {
        assert(views[j as int] == records@[j as int].view());
        if same_pair(&pair_in(&records[j]), &pair) {
            return false;
        }
        j = j + 1;
    }
    true
}

fn games_in(records: &Vec<Json>, pair: &(String, String)) -> (games: Vec<Json>)
    ensures
        items_view(games@) == games_of(
            items_view(records@),
            records@.len() as int,
            (pair.0@, pair.1@),
        ),
{
    let ghost views = items_view(records@);
    let mut games: Vec<Json> = Vec::new();
    let mut i: usize = 0;
    assert(items_view(games@) =~= Seq::empty());
    while i < records.len()
        invariant
            i <= records@.len(),
            views == items_view(records@),
            items_view(games@) == games_of(views, i as int, (pair.0@, pair.1@)),
        decreases records@.len() - i,
    {
        assert(views[i as int] == records@[i as int].view());
        if same_pair(&pair_in(&records[i]), pair) {
            let ghost before = items_view(games@);
            games.push(records[i].copy());
            assert(items_view(games@) =~= before.push(views[i as int]));
        }
        i = i + 1;
    }
    games
}

/// Whether `s` sums up the games of the two engines whose first game stands at `i`;
/// its mover is the first engine.
pub open spec fn summary_of(s: GamesSummary, records: Seq<JsonView>, i: int) -> bool {
    games_ok(
        s,
        games_of(records, records.len() as int, pair_of(records[i])),
        text_or(records[i], "mover"@, ""@),
        text_or(records[i], "responder"@, ""@),
    )
}

/// Sum up the games of each two engines, in the order of their first games.
pub fn head_to_head_aggregates(records: &Vec<Json>) -> (r: Vec<GamesSummary>)
    ensures
        ({
            let views = items_view(records@);
            let first = leaders(views, views.len() as int);
            &&& r@.len() == first.len()
            &&& forall|k: int|
                0 <= k < r@.len() ==> #[trigger] summary_of(r@[k], views, first[k])
        }),
{
    let ghost views = items_view(records@);
    let mut r: Vec<GamesSummary> = Vec::new();
    let mut i: usize = 0;
    while i < records.len()
        invariant
            i <= records@.len(),
            views == items_view(records@),
            r@.len() == leaders(views, i as int).len(),
            forall|k: int|
                0 <= k < r@.len() ==> #[trigger] summary_of(
                    r@[k],
                    views,
                    leaders(views, i as int)[k],
                ),
        decreases records@.len() - i,
    {
        assert(views[i as int] == records@[i as int].view());
        if is_leader(records, i) {
            let ghost before = leaders(views, i as int);
            let games = games_in(records, &pair_in(&records[i]));
            let s = aggregate_head_to_head(
                &games,
                text_in_or(&records[i], "mover", ""),
                text_in_or(&records[i], "responder", ""),
            );
            assert(summary_of(s, views, i as int));
            let ghost kept = r@;
            r.push(s);
            proof {
                let now = leaders(views, i + 1);
                assert(now == before.push(i as int));
                assert forall|k: int| 0 <= k < r@.len() implies #[trigger] summary_of(
                    r@[k],
                    views,
                    now[k],
                ) by {
                    if k < kept.len() {
                        assert(summary_of(kept[k], views, before[k]));
                    }
                }
            }
        }
        i = i + 1;
    }
    r
}

/// What a bundle says of its checkpoint.
pub open spec fn checkpoint_info(manifest: JsonView) -> JsonView {
    let o = members_of(manifest);
    JsonView::Object(
        seq![
            (
                "counts"@,
                match member(o, "counts"@) {
                    Some(v) => v,
                    None => counts_view(0, 0),
                },
            ),
        ] + (match member(o, "h2h_pairs"@) {
            Some(v) => seq![("h2h_pairs"@, v)],
            None => Seq::empty(),
        }) + seq![("status"@, JsonView::Text(text_or(manifest, "status"@, "unknown"@)))],
    )
}

fn info_json(manifest: &Json) -> (j: Json)
    ensures
        j.view() == checkpoint_info(manifest.view()),
{
    let mut members: Vec<(String, Json)> = Vec::new();
    match manifest.get("counts") {
        Some(v) => members.push(field("counts", v.copy())),
        None => members.push(field("counts", counts_json(0, 0))),
    }
    if let Some(v) = manifest.get("h2h_pairs") {
        members.push(field("h2h_pairs", v.copy()));
    }
    members.push(field("status", Json::text(text_in_or(manifest, "status", "unknown"))));
    assert(members_view(members@) =~= checkpoint_info(manifest.view())->Object_0);
    Json::Object(members)
}

/// The bundle of a checkpoint.
pub open spec fn rehydrated_view(
    manifest: JsonView,
    observations: Seq<JsonView>,
    records: Seq<JsonView>,
    games: JsonView,
    aggregates: JsonView,
    now: Seq<char>,
    environment: JsonView,
) -> JsonView {
    let o = members_of(manifest);
    JsonView::Object(
        seq![
            ("aggregates"@, aggregates),
            ("checkpoint"@, checkpoint_info(manifest)),
            (
                "config"@,
                match member(o, "config"@) {
                    Some(v) => v,
                    None => JsonView::Object(Seq::empty()),
                },
            ),
            ("dataset"@, at(manifest, "dataset"@)),
            (
                "environment"@,
                match member(o, "environment"@) {
                    Some(v) => v,
                    None => environment,
                },
            ),
            (
                "head_to_head"@,
                JsonView::Object(
                    seq![("aggregates"@, games), ("records"@, JsonView::Array(records))],
                ),
            ),
            ("observations"@, JsonView::Array(observations)),
            ("schema_version"@, JsonView::Unsigned(SCHEMA_VERSION)),
            (
                "started_at"@,
                JsonView::Text(
                    match text_at(manifest, "started_at"@) {
                        Some(s) => s,
                        None => now,
                    },
                ),
            ),
        ],
    )
}

/// Make a bundle of what a checkpoint holds, complete or not. `games` and
/// `aggregates` sum up the records and the observations; `now` and `environment`
/// stand in for what the manifest does not say.
pub fn bundle_from_checkpoint(
    manifest: &Json,
    observations: Vec<Json>,
    records: Vec<Json>,
    games: Json,
    aggregates: Json,
    now: &str,
    environment: Json,
) -> (r: Result<Json, String>)
    ensures
        match r {
            Ok(j) => !(at(manifest.view(), "dataset"@) is Null) && j.view() == rehydrated_view(
                manifest.view(),
                items_view(observations@),
                items_view(records@),
                games.view(),
                aggregates.view(),
                now@,
                environment.view(),
            ),
            Err(m) => at(manifest.view(), "dataset"@) is Null && m@
                == "checkpoint manifest is missing dataset metadata"@,
        },
{
    let ghost whole = rehydrated_view(
        manifest.view(),
        items_view(observations@),
        items_view(records@),
        games.view(),
        aggregates.view(),
        now@,
        environment.view(),
    );
    let dataset = dataset_summary(manifest)?;
    let started_at: &str = match text_in(manifest, "started_at") {
        Some(s) => s,
        None => now,
    };
    let environment = match manifest.get("environment") {
        Some(v) => v.copy(),
        None => environment,
    };
    let config = match manifest.get("config") {
        Some(v) => v.copy(),
        None => {
            let none: Vec<(String, Json)> = Vec::new();
            assert(members_view(none@) =~= Seq::empty());
            Json::Object(none)
        },
    };
    let head_to_head: Vec<(String, Json)> = vec![
        field("aggregates", games),
        field("records", Json::Array(records)),
    ];
    assert(members_view(head_to_head@) =~= whole->Object_0[5].1->Object_0);
    let members: Vec<(String, Json)> = vec![
        field("aggregates", aggregates),
        field("checkpoint", info_json(manifest)),
        field("config", config),
        field("dataset", dataset),
        field("environment", environment),
        field("head_to_head", Json::Object(head_to_head)),
        field("observations", Json::Array(observations)),
        field("schema_version", Json::Unsigned(SCHEMA_VERSION)),
        field("started_at", Json::text(started_at)),
    ];
    assert(members_view(members@) =~= whole->Object_0);
    Ok(Json::Object(members))
}

} // verus!
