//! JSON values as plain data.
use crate::bench::canonical::{json_text, text_le};
use crate::text::same_text;
use vstd::prelude::*;
use vstd::string::*;

verus! {

/// A JSON value. A number is an unsigned integer, a negative one, or a floating
/// number in shortest scientific notation, such as `4.7e-5`.
#[derive(Debug)]
pub enum Json {
    Null,
    Bool(bool),
    Unsigned(u64),
    Negative(i64),
    Float(String),
    Text(String),
    Array(Vec<Json>),
    Object(Vec<(String, Json)>),
}

/// What a JSON value is, without how it is held.
#[verifier::ext_equal]
pub enum JsonView {
    Null,
    Bool(bool),
    Unsigned(u64),
    Negative(i64),
    Float(Seq<char>),
    Text(Seq<char>),
    Array(Seq<JsonView>),
    Object(Seq<(Seq<char>, JsonView)>),
}

/// The views of the items of an array.
pub open spec fn items_view(items: Seq<Json>) -> Seq<JsonView>
    decreases items,
{
    Seq::new(
        items.len(),
        |i: int|
            if 0 <= i < items.len() {
                items[i].view()
            } else {
                JsonView::Null
            },
    )
}

/// The views of the members of an object.
pub open spec fn members_view(members: Seq<(String, Json)>) -> Seq<(Seq<char>, JsonView)>
    decreases members,
{
    Seq::new(
        members.len(),
        |i: int|
            if 0 <= i < members.len() {
                (members[i].0@, members[i].1.view())
            } else {
                (Seq::empty(), JsonView::Null)
            },
    )
}

impl Json {
    pub open spec fn view(&self) -> JsonView
        decreases self,
    {
        match self {
            Json::Null => JsonView::Null,
            Json::Bool(b) => JsonView::Bool(*b),
            Json::Unsigned(n) => JsonView::Unsigned(*n),
            Json::Negative(n) => JsonView::Negative(*n),
            Json::Float(s) => JsonView::Float(s@),
            Json::Text(s) => JsonView::Text(s@),
            Json::Array(items) => JsonView::Array(items_view(items@)),
            Json::Object(members) => JsonView::Object(members_view(members@)),
        }
    }
}

/// The value of the first member called `name`.
pub open spec fn member(o: Seq<(Seq<char>, JsonView)>, name: Seq<char>) -> Option<JsonView>
    decreases o.len(),
{
    if o.len() == 0 {
        None
    } else if o[0].0 == name {
        Some(o[0].1)
    } else {
        member(o.drop_first(), name)
    }
}

impl JsonView {
    /// The member `name` of an object; nothing for another value.
    pub open spec fn get(self, name: Seq<char>) -> Option<JsonView> {
        match self {
            JsonView::Object(o) => member(o, name),
            _ => None,
        }
    }

    /// The text of a text.
    pub open spec fn text(self) -> Option<Seq<char>> {
        match self {
            JsonView::Text(s) => Some(s),
            _ => None,
        }
    }

    /// The number of an unsigned integer.
    pub open spec fn unsigned(self) -> Option<u64> {
        match self {
            JsonView::Unsigned(n) => Some(n),
            _ => None,
        }
    }

    /// Whether the value is a number.
    pub open spec fn is_number(self) -> bool {
        self is Unsigned || self is Negative || self is Float
    }
}

/// The number, or null.
pub open spec fn number_or_null(n: Option<u64>) -> JsonView {
    match n {
        Some(n) => JsonView::Unsigned(n),
        None => JsonView::Null,
    }
}

/// A member of an object.
pub fn field(name: &str, value: Json) -> (m: (String, Json))
    ensures
        m.0@ == name@,
        m.1 == value,
{
    (name.to_owned(), value)
}

/// The members in a sequence that starts after the first `k`.
proof fn lemma_member_skip(o: Seq<(Seq<char>, JsonView)>, name: Seq<char>, k: int)
    requires
        0 <= k <= o.len(),
        forall|i: int| 0 <= i < k ==> (#[trigger] o[i]).0 != name,
    ensures
        member(o, name) == member(o.skip(k), name),
    decreases k,
{
    if k == 0 {
        assert(o.skip(0) =~= o);
    } else {
        let rest = o.drop_first();
        assert forall|i: int| 0 <= i < k - 1 implies (#[trigger] rest[i]).0 != name by {
            assert(rest[i] == o[i + 1]);
        }
        lemma_member_skip(rest, name, k - 1);
        assert(rest.skip(k - 1) =~= o.skip(k));
        assert(o[0].0 != name);
    }
}

/// The first member called `name` is the one at `k`.
pub proof fn lemma_member_at(o: Seq<(Seq<char>, JsonView)>, name: Seq<char>, k: int)
    requires
        0 <= k < o.len(),
        o[k].0 == name,
        forall|i: int| 0 <= i < k ==> (#[trigger] o[i]).0 != name,
    ensures
        member(o, name) == Some(o[k].1),
{
    lemma_member_skip(o, name, k);
    assert(o.skip(k)[0] == o[k]);
}

/// A member that is added last is found where no earlier one has its name.
pub proof fn lemma_member_push(
    o: Seq<(Seq<char>, JsonView)>,
    last: (Seq<char>, JsonView),
    name: Seq<char>,
)
    ensures
        member(o.push(last), name) == (match member(o, name) {
            Some(v) => Some(v),
            None => if last.0 == name {
                Some(last.1)
            } else {
                None
            },
        }),
    decreases o.len(),
{
    let longer = o.push(last);
    if o.len() == 0 {
        assert(longer.drop_first() =~= Seq::empty());
    } else {
        assert(longer.drop_first() =~= o.drop_first().push(last));
        lemma_member_push(o.drop_first(), last, name);
    }
}

/// The value of the first member called `name`.
pub fn find_member<'a>(members: &'a Vec<(String, Json)>, name: &str) -> (r: Option<&'a Json>)
    ensures
        match r {
            Some(j) => member(members_view(members@), name@) == Some(j.view()),
            None => member(members_view(members@), name@) is None,
        },
{
    let ghost o = members_view(members@);
    let mut i: usize = 0;
    while i < members.len()
        invariant
            i <= members@.len(),
            o == members_view(members@),
            forall|k: int| 0 <= k < i ==> (#[trigger] o[k]).0 != name@,
        decreases members@.len() - i,
    {
        if same_text(members[i].0.as_str(), name) {
            proof {
                lemma_member_skip(o, name@, i as int);
                assert(o.skip(i as int)[0] == o[i as int]);
            }
            return Some(&members[i].1);
        }
        i = i + 1;
    }
    proof {
        lemma_member_skip(o, name@, i as int);
    }
    None
}

impl Json {
    pub fn text(s: &str) -> (j: Json)
        ensures
            j.view() == JsonView::Text(s@),
    {
        Json::Text(s.to_owned())
    }

    /// The number, or null.
    pub fn optional_number(n: Option<u64>) -> (j: Json)
        ensures
            j.view() == number_or_null(n),
    {
        match n {
            Some(n) => Json::Unsigned(n),
            None => Json::Null,
        }
    }

    /// The text, or null.
    pub fn optional_text(s: &Option<String>) -> (j: Json)
        ensures
            j.view() == (match *s {
                Some(s) => JsonView::Text(s@),
                None => JsonView::Null,
            }),
    {
        match s {
            Some(s) => Json::Text(s.clone()),
            None => Json::Null,
        }
    }

    /// The member `name` of an object; nothing for another value.
    pub fn get(&self, name: &str) -> (r: Option<&Json>)
        ensures
            match r {
                Some(j) => self.view().get(name@) == Some(j.view()),
                None => self.view().get(name@) is None,
            },
    {
        match self {
            Json::Object(members) => find_member(members, name),
            _ => None,
        }
    }

    /// The text of a text.
    pub fn as_text(&self) -> (r: Option<&str>)
        ensures
            match r {
                Some(s) => self.view().text() == Some(s@),
                None => self.view().text() is None,
            },
    {
        match self {
            Json::Text(s) => Some(s.as_str()),
            _ => None,
        }
    }

    /// The number of an unsigned integer.
    pub fn as_unsigned(&self) -> (r: Option<u64>)
        ensures
            r == self.view().unsigned(),
    {
        match self {
            Json::Unsigned(n) => Some(*n),
            _ => None,
        }
    }

    pub fn is_null(&self) -> (r: bool)
        ensures
            r <==> self.view() is Null,
    {
        match self {
            Json::Null => true,
            _ => false,
        }
    }

    /// A copy of the value.
    pub fn copy(&self) -> (r: Json)
        ensures
            r.view() == self.view(),
        decreases self.view(),
    {
        let ghost model = self.view();
        match self {
            Json::Null => Json::Null,
            Json::Bool(b) => Json::Bool(*b),
            Json::Unsigned(n) => Json::Unsigned(*n),
            Json::Negative(n) => Json::Negative(*n),
            Json::Float(s) => Json::Float(s.clone()),
            Json::Text(s) => Json::Text(s.clone()),
            Json::Array(items) => {
                let mut copies: Vec<Json> = Vec::new();
                let mut i: usize = 0;
                while i < items.len()
                    invariant
                        i <= items@.len(),
                        model == self.view(),
                        model == JsonView::Array(items_view(items@)),
                        copies@.len() == i,
                        forall|k: int|
                            0 <= k < i ==> (#[trigger] copies@[k]).view() == items@[k].view(),
                    decreases items@.len() - i,
                {
                    proof {
                        assert(decreases_to!(model => model->Array_0[i as int]));
                    }
                    copies.push(items[i].copy());
                    i = i + 1;
                }
                assert(items_view(copies@) =~= items_view(items@));
                Json::Array(copies)
            },
            Json::Object(members) => {
                let mut copies: Vec<(String, Json)> = Vec::new();
                let mut i: usize = 0;
                while i < members.len()
                    invariant
                        i <= members@.len(),
                        model == self.view(),
                        model == JsonView::Object(members_view(members@)),
                        copies@.len() == i,
                        forall|k: int|
                            0 <= k < i ==> (#[trigger] copies@[k]).0@ == members@[k].0@
                                && copies@[k].1.view() == members@[k].1.view(),
                    decreases members@.len() - i,
                {
                    proof {
                        assert(decreases_to!(model => model->Object_0[i as int]));
                        assert(decreases_to!(
                            model->Object_0[i as int] => model->Object_0[i as int].1
                        ));
                    }
                    copies.push((members[i].0.clone(), members[i].1.copy()));
                    i = i + 1;
                }
                assert(members_view(copies@) =~= members_view(members@));
                Json::Object(copies)
            },
        }
    }
}

/// What a JSON value or an error says.
pub open spec fn row_result(r: Result<Json, String>) -> Result<JsonView, Seq<char>> {
    match r {
        Ok(j) => Ok(j.view()),
        Err(m) => Err(m@),
    }
}

/// What the rows of a run or its error say.
pub open spec fn rows_result(r: Result<Vec<Json>, String>) -> Result<Seq<JsonView>, Seq<char>> {
    match r {
        Ok(rows) => Ok(items_view(rows@)),
        Err(m) => Err(m@),
    }
}

#[verifier::external_type_specification]
#[verifier::external_body]
pub struct ExValue(serde_json::Value);

/// What a value of `serde_json` holds: null, a boolean, a number, a text, its
/// items in order, or its members in the order of their names.
pub uninterp spec fn value_view(v: serde_json::Value) -> JsonView;

/// What `serde_json::from_str` reads from a text: a value, or the words in which
/// it says why the text is no JSON.
pub uninterp spec fn parsed_json(text: Seq<char>) -> Result<JsonView, Seq<char>>;

/// One layer of a value of `serde_json`.
enum Layer {
    Null,
    Bool(bool),
    Unsigned(u64),
    Negative(i64),
    Float(String),
    Text(String),
    Array(Vec<serde_json::Value>),
    Object(Vec<(String, serde_json::Value)>),
}

/// Whether `layer` is the outermost layer of `v`.
spec fn layer_of(layer: Layer, v: JsonView) -> bool {
    match layer {
        Layer::Null => v is Null,
        Layer::Bool(b) => v == JsonView::Bool(b),
        Layer::Unsigned(n) => v == JsonView::Unsigned(n),
        Layer::Negative(n) => v == JsonView::Negative(n),
        Layer::Float(s) => v == JsonView::Float(s@),
        Layer::Text(s) => v == JsonView::Text(s@),
        Layer::Array(items) => v is Array && v->Array_0.len() == items@.len() && forall|i: int|
            0 <= i < items@.len() ==> value_view(#[trigger] items@[i]) == v->Array_0[i],
        Layer::Object(members) => v is Object && v->Object_0.len() == members@.len() && forall|
            i: int,
        |
            0 <= i < members@.len() ==> v->Object_0[i] == (
                (#[trigger] members@[i]).0@,
                value_view(members@[i].1),
            ),
    }
}

/// The member name with which `serde_json` marks a text that holds JSON: an object that
/// begins with it is not read as an object.
pub open spec fn raw_mark() -> Seq<char> {
    "$serde_json::private::RawValue"@
}

/// Whether a value is the same after it was written and read: it holds no floating
/// number, the members of its objects stand in the order of their names, none of its
/// objects begins with the mark of raw JSON, and it has at most `room` layers.
pub open spec fn restorable(v: JsonView, room: nat) -> bool
    decreases room,
{
    match v {
        JsonView::Null => true,
        JsonView::Bool(_) => true,
        JsonView::Unsigned(_) => true,
        JsonView::Negative(n) => n < 0,
        JsonView::Float(_) => false,
        JsonView::Text(_) => true,
        JsonView::Array(items) => room > 0 && forall|i: int|
            0 <= i < items.len() ==> restorable(#[trigger] items[i], (room - 1) as nat),
        JsonView::Object(members) => {
            &&& room > 0
            &&& members.len() > 0 ==> members[0].0 != raw_mark()
            &&& forall|i: int|
                0 <= i < members.len() ==> restorable((#[trigger] members[i]).1, (room - 1) as nat)
            &&& forall|i: int, j: int|
                0 <= i < j < members.len() ==> text_le(
                    (#[trigger] members[i]).0,
                    (#[trigger] members[j]).0,
                ) && members[i].0 != members[j].0
        },
    }
}

/// Whether what was read from a text is what was written there in canonical form,
/// where it can be restored.
pub open spec fn gives_back(text: Seq<char>, read: Option<JsonView>) -> bool {
    forall|v: JsonView|
        restorable(v, 127) && text == #[trigger] json_text(v) ==> read == Some(v)
}

/// `serde_json::from_str`: the value of a JSON text, or what is wrong with it, a
/// function of the text alone. It reads the canonical text of a value without floating
/// numbers, with at most 127 layers, as that value. Floating numbers may come out as
/// their neighbours, and an object that begins with the mark of raw JSON is taken for
/// the text that it marks, so nothing is claimed of them.
#[verifier::external_body]
fn parse_value(text: &str) -> (r: Result<serde_json::Value, String>)
    ensures
        match r {
            Ok(v) => parsed_json(text@) == Ok::<JsonView, Seq<char>>(value_view(v)),
            Err(e) => parsed_json(text@) == Err::<JsonView, Seq<char>>(e@),
        },
        gives_back(
            text@,
            match r {
                Ok(v) => Some(value_view(v)),
                Err(_) => None,
            },
        ),
{
    serde_json::from_str(text).map_err(|e| e.to_string())
}

/// The variants of `serde_json::Value` taken apart: a value is null, a boolean,
/// a number, a text, an array or an object, and a number is an unsigned integer,
/// a negative one or floating.
#[verifier::external_body]
fn outer_layer(v: serde_json::Value) -> (layer: Layer)
    ensures
        layer_of(layer, value_view(v)),
{
    match v {
        serde_json::Value::Null => Layer::Null,
        serde_json::Value::Bool(b) => Layer::Bool(b),
        serde_json::Value::Number(n) => match (n.as_u64(), n.as_i64()) {
            (Some(u), _) => Layer::Unsigned(u),
            (None, Some(i)) => Layer::Negative(i),
            (None, None) => Layer::Float(format!("{:e}", n.as_f64().unwrap_or_default())),
        },
        serde_json::Value::String(s) => Layer::Text(s),
        serde_json::Value::Array(items) => Layer::Array(items),
        serde_json::Value::Object(members) => Layer::Object(members.into_iter().collect()),
    }
}

/// The value as plain data.
fn plain(v: serde_json::Value) -> (j: Json)
    ensures
        j.view() == value_view(v),
    decreases value_view(v),
{
    let ghost model = value_view(v);
    match outer_layer(v) {
        Layer::Null => Json::Null,
        Layer::Bool(b) => Json::Bool(b),
        Layer::Unsigned(n) => Json::Unsigned(n),
        Layer::Negative(n) => Json::Negative(n),
        Layer::Float(s) => Json::Float(s),
        Layer::Text(s) => Json::Text(s),
        Layer::Array(items) => {
            let mut items = items;
            let mut rev: Vec<Json> = Vec::new();
            let ghost n = items@.len();
            while items.len() > 0
                invariant
                    layer_of(Layer::Array(items), JsonView::Array(model->Array_0.take(items@.len() as int))),
                    model is Array,
                    model == value_view(v),
                    n == model->Array_0.len(),
                    items@.len() + rev@.len() == n,
                    forall|k: int|
                        0 <= k < rev@.len() ==> (#[trigger] rev@[k]).view() == model->Array_0[n - 1
                            - k],
                decreases items@.len(),
            {
                let ghost at = items@.len() - 1;
                match items.pop() {
                    Some(last) => {
                        proof {
                            assert(value_view(last) == model->Array_0[at]);
                            assert(decreases_to!(model => model->Array_0[at]));
                        }
                        rev.push(plain(last));
                    },
                    None => {},
                }
            }
            let out = reversed(rev);
            assert(items_view(out@) =~= model->Array_0);
            Json::Array(out)
        },
        Layer::Object(members) => {
            let mut members = members;
            let mut rev: Vec<(String, Json)> = Vec::new();
            let ghost n = members@.len();
            while members.len() > 0
                invariant
                    layer_of(Layer::Object(members), JsonView::Object(model->Object_0.take(members@.len() as int))),
                    model is Object,
                    model == value_view(v),
                    n == model->Object_0.len(),
                    members@.len() + rev@.len() == n,
                    forall|k: int|
                        0 <= k < rev@.len() ==> ((#[trigger] rev@[k]).0@, rev@[k].1.view())
                            == model->Object_0[n - 1 - k],
                decreases members@.len(),
            {
                let ghost at = members@.len() - 1;
                match members.pop() {
                    Some((name, last)) => {
                        proof {
                            assert(model->Object_0[at] == (name@, value_view(last)));
                            assert(decreases_to!(model => model->Object_0[at]));
                            assert(decreases_to!(model->Object_0[at] => model->Object_0[at].1));
                        }
                        rev.push((name, plain(last)));
                    },
                    None => {},
                }
            }
            let out = reversed(rev);
            assert(members_view(out@) =~= model->Object_0);
            Json::Object(out)
        },
    }
}

/// The items in the opposite order.
fn reversed<T>(items: Vec<T>) -> (out: Vec<T>)
    ensures
        out@.len() == items@.len(),
        forall|k: int| 0 <= k < out@.len() ==> out@[k] == items@[items@.len() - 1 - k],
{
    let ghost all = items@;
    let mut rest = items;
    let mut out: Vec<T> = Vec::new();
    while rest.len() > 0
        invariant
            rest@ == all.take(rest@.len() as int),
            rest@.len() + out@.len() == all.len(),
            forall|k: int| 0 <= k < out@.len() ==> out@[k] == all[all.len() - 1 - k],
        decreases rest@.len(),
    {
        match rest.pop() {
            Some(x) => {
                out.push(x);
            },
            None => {},
        }
        assert(rest@ =~= all.take(rest@.len() as int));
    }
    out
}

/// Read a JSON text. What was written in canonical form is read back, but for floating
/// numbers.
pub fn parse_json(text: &str) -> (r: Result<Json, String>)
    ensures
        match r {
            Ok(j) => parsed_json(text@) == Ok::<JsonView, Seq<char>>(j.view()),
            Err(e) => parsed_json(text@) == Err::<JsonView, Seq<char>>(e@),
        },
        gives_back(
            text@,
            match r {
                Ok(j) => Some(j.view()),
                Err(_) => None,
            },
        ),
{
    match parse_value(text) {
        Ok(v) => Ok(plain(v)),
        Err(e) => Err(e),
    }
}

/// The members of an object but for those called `name`.
pub open spec fn without(o: Seq<(Seq<char>, JsonView)>, name: Seq<char>) -> Seq<
    (Seq<char>, JsonView),
>
    decreases o.len(),
{
    if o.len() == 0 {
        Seq::empty()
    } else {
        let before = without(o.drop_last(), name);
        if o.last().0 == name {
            before
        } else {
            before.push(o.last())
        }
    }
}

/// The members of an object with `value` as the member `name`.
pub open spec fn with_member(
    o: Seq<(Seq<char>, JsonView)>,
    name: Seq<char>,
    value: JsonView,
) -> Seq<(Seq<char>, JsonView)> {
    without(o, name).push((name, value))
}

/// Taking a member away that was put in leaves the rest.
pub proof fn lemma_without_with(
    o: Seq<(Seq<char>, JsonView)>,
    name: Seq<char>,
    value: JsonView,
)
    ensures
        without(with_member(o, name, value), name) == without(o, name),
        member(with_member(o, name, value), name) == Some(value),
        forall|other: Seq<char>|
            other != name ==> #[trigger] member(with_member(o, name, value), other) == member(
                o,
                other,
            ),
{
    let rest = without(o, name);
    let longer = with_member(o, name, value);
    assert(longer.drop_last() =~= rest);
    lemma_without_twice(o, name);
    lemma_without_member(o, name, name);
    lemma_member_push(rest, (name, value), name);
    assert forall|other: Seq<char>| other != name implies #[trigger] member(longer, other)
        == member(o, other) by {
        lemma_member_push(rest, (name, value), other);
        lemma_without_member(o, name, other);
    }
}

proof fn lemma_without_twice(o: Seq<(Seq<char>, JsonView)>, name: Seq<char>)
    ensures
        without(without(o, name), name) == without(o, name),
    decreases o.len(),
{
    if o.len() > 0 {
        lemma_without_twice(o.drop_last(), name);
        let before = without(o.drop_last(), name);
        if o.last().0 != name {
            assert(before.push(o.last()).drop_last() =~= before);
        }
    }
}

proof fn lemma_without_member(o: Seq<(Seq<char>, JsonView)>, name: Seq<char>, other: Seq<char>)
    ensures
        member(without(o, name), other) == if other == name {
            None::<JsonView>
        } else {
            member(o, other)
        },
    decreases o.len(),
{
    if o.len() > 0 {
        let rest = o.drop_last();
        lemma_without_member(rest, name, other);
        assert(o =~= rest.push(o.last()));
        lemma_member_push(rest, o.last(), other);
        lemma_member_push(without(rest, name), o.last(), other);
    }
}

/// The members of an object but for those called `name`.
pub fn remove_member(members: &Vec<(String, Json)>, name: &str) -> (rest: Vec<(String, Json)>)
    ensures
        members_view(rest@) == without(members_view(members@), name@),
{
    let ghost views = members_view(members@);
    let mut rest: Vec<(String, Json)> = Vec::new();
    let mut i: usize = 0;
    assert(members_view(rest@) =~= without(views.take(0), name@));
    while i < members.len()
        invariant
            i <= members@.len(),
            views == members_view(members@),
            members_view(rest@) == without(views.take(i as int), name@),
        decreases members@.len() - i,
    {
        let ghost now = views.take(i + 1);
        let ghost before = members_view(rest@);
        assert(now.drop_last() =~= views.take(i as int));
        assert(now.last() == (members@[i as int].0@, members@[i as int].1.view()));
        if !same_text(members[i].0.as_str(), name) {
            rest.push((members[i].0.clone(), members[i].1.copy()));
            assert(members_view(rest@) =~= before.push(now.last()));
        }
        i = i + 1;
    }
    assert(views.take(i as int) =~= views);
    rest
}

/// The members of a value; none for a value that is no object.
pub open spec fn members_of(v: JsonView) -> Seq<(Seq<char>, JsonView)> {
    match v {
        JsonView::Object(o) => o,
        _ => Seq::empty(),
    }
}

/// The object with `value` as the member `name`; a value that is no object counts
/// as one without members.
pub fn set_member(object: &Json, name: &str, value: Json) -> (r: Json)
    ensures
        r.view() == JsonView::Object(
            with_member(members_of(object.view()), name@, value.view()),
        ),
{
    let ghost v = value.view();
    let mut rest = strip_member(object, name);
    let ghost before = members_view(rest@);
    rest.push((name.to_owned(), value));
    assert(members_view(rest@) =~= before.push((name@, v)));
    Json::Object(rest)
}

/// The members of a value but for those called `name`.
pub fn strip_member(object: &Json, name: &str) -> (rest: Vec<(String, Json)>)
    ensures
        members_view(rest@) == without(members_of(object.view()), name@),
{
    match object {
        Json::Object(members) => remove_member(members, name),
        _ => {
            let none: Vec<(String, Json)> = Vec::new();
            assert(members_view(none@) =~= Seq::empty());
            none
        },
    }
}

} // verus!
