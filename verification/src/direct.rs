//! The *m.direct* event content.
//!
//! A mapping of user identifiers to the lists of rooms considered direct
//! with each user. Keys are unique; each key's room list keeps its
//! insertion order. The mapping is the illustrative content type of the
//! envelope codec: it is bound to the discriminator `m.direct`.

use vstd::prelude::*;

verus! {

use crate::event::BasicEvent;
use crate::event::EventContent;
use crate::json::JsonModel;
use crate::json::JsonValue;
use crate::json::lemma_model_entries_index;
use crate::json::lemma_model_items_index;
use crate::util::DecodeError;
use crate::util::JsonCodec;

/// Informs the client about the rooms that are considered direct by a
/// user.
pub type DirectEvent = BasicEvent<DirectEventContent>;

/// View of the content: user / room-list pairs in iteration order.
pub type DirectView = Seq<(Seq<char>, Seq<Seq<char>>)>;

/// Keys are pairwise distinct.
pub open spec fn unique_keys(v: DirectView) -> bool {
    forall|i: int, j: int| 0 <= i < j < v.len() ==> v[i].0 != v[j].0
}

/// First index whose key is `key`, or `v.len()` when absent.
pub open spec fn key_index(v: DirectView, key: Seq<char>) -> int
    decreases v.len(),
{
    if v.len() == 0 {
        0
    } else if v[0].0 == key {
        0
    } else {
        1 + key_index(v.drop_first(), key)
    }
}

/// The room list bound to `key`, if any.
pub open spec fn spec_lookup(v: DirectView, key: Seq<char>) -> Option<Seq<Seq<char>>> {
    let i = key_index(v, key);
    if i < v.len() {
        Some(v[i].1)
    } else {
        None
    }
}

/// Binding `key` to `rooms`: replaces the existing entry in place, or
/// appends a new one.
pub open spec fn spec_insert(v: DirectView, key: Seq<char>, rooms: Seq<Seq<char>>) -> DirectView {
    let i = key_index(v, key);
    if i < v.len() {
        v.update(i, (key, rooms))
    } else {
        v.push((key, rooms))
    }
}

/// The first occurrence of a key lies within the mapping, carries the
/// key, and nothing before it does.
pub proof fn lemma_key_index_bounds(v: DirectView, key: Seq<char>)
    ensures
        0 <= key_index(v, key) <= v.len(),
        key_index(v, key) < v.len() ==> v[key_index(v, key)].0 == key,
        forall|j: int| 0 <= j < key_index(v, key) ==> v[j].0 != key,
    decreases v.len(),
{
    if v.len() > 0 && v[0].0 != key {
        let sub = v.drop_first();
        lemma_key_index_bounds(sub, key);
        assert forall|j: int| 0 <= j < key_index(v, key) implies v[j].0 != key by {
            if j > 0 {
                assert(sub[j - 1] == v[j]);
            }
        }
    }
}

proof fn lemma_key_index_is(v: DirectView, key: Seq<char>, i: int)
    requires
        0 <= i <= v.len(),
        forall|j: int| 0 <= j < i ==> v[j].0 != key,
        i == v.len() || v[i].0 == key,
    ensures
        key_index(v, key) == i,
    decreases v.len(),
{
    if v.len() == 0 {
    } else if v[0].0 == key {
        assert(i == 0);
    } else {
        let sub = v.drop_first();
        assert(forall|j: int| 0 <= j < i - 1 ==> sub[j] == v[j + 1] && v[j + 1].0 != key);
        lemma_key_index_is(sub, key, i - 1);
    }
}

/// The payload for [`DirectEvent`]: a mapping of user identifiers to
/// lists of room identifiers which are considered *direct* for that
/// particular user.
#[derive(Clone, Debug, PartialEq, Eq)]
pub struct DirectEventContent {
    entries: Vec<(String, Vec<String>)>,
}

impl View for DirectEventContent {
    type V = DirectView;

    closed spec fn view(&self) -> DirectView {
        Seq::new(self.entries@.len(), |i: int| (self.entries@[i].0@, self.entries@[i].1.deep_view()))
    }
}

impl DirectEventContent {
    /// An empty mapping.
    pub fn new() -> (r: Self)
        ensures
            r@ == Seq::<(Seq<char>, Seq<Seq<char>>)>::empty(),
            unique_keys(r@),
    {
        let r = DirectEventContent { entries: Vec::new() };
        proof {
            assert(r@ =~= Seq::<(Seq<char>, Seq<Seq<char>>)>::empty());
        }
        r
    }

    /// Number of users in the mapping.
    pub fn len(&self) -> (r: usize)
        ensures
            r == self@.len(),
    {
        self.entries.len()
    }

    /// Whether the mapping holds no user at all.
    pub fn is_empty(&self) -> (r: bool)
        ensures
            r == (self@.len() == 0),
    {
        self.entries.is_empty()
    }

    /// The rooms considered direct with `user`, if any are recorded.
    pub fn get<'a>(&'a self, user: &str) -> (r: Option<&'a Vec<String>>)
        ensures
            match r {
                Some(rooms) => spec_lookup(self@, user@) == Some(rooms.deep_view()),
                None => spec_lookup(self@, user@) is None,
            },
    {
        let user_string: String = user.to_owned();
        let n = self.entries.len();
        let mut i: usize = 0;
        while i < n
            invariant
                n as nat == self.entries@.len(),
                i <= n,
                self@.len() == n as nat,
                forall|j: int| 0 <= j < i ==> self@[j].0 != user@,
                user_string@ == user@,
            decreases n - i,
        {
            if self.entries[i].0 == user_string {
                proof {
                    lemma_key_index_is(self@, user@, i as int);
                }
                return Some(&self.entries[i].1);
            }
            proof {
                assert(self@[i as int].0 == self.entries@[i as int].0@);
            }
            i += 1;
        }
        proof {
            lemma_key_index_is(self@, user@, n as int);
        }
        None
    }

    /// Binds `user` to `rooms`, replacing any previous binding, and
    /// returns the room list the user was bound to before, if any.
    pub fn insert(&mut self, user: String, rooms: Vec<String>) -> (r: Option<Vec<String>>)
        ensures
            final(self)@ == spec_insert(old(self)@, user@, rooms.deep_view()),
            match r {
                Some(prev) => spec_lookup(old(self)@, user@) == Some(prev.deep_view()),
                None => spec_lookup(old(self)@, user@) is None,
            },
            unique_keys(old(self)@) ==> unique_keys(final(self)@),
    {
        let ghost v0 = self@;
        let n = self.entries.len();
        let mut i: usize = 0;
        while i < n
            invariant
                self == old(self),
                v0 == self@,
                n as nat == self.entries@.len(),
                i <= n,
                self@.len() == n as nat,
                forall|j: int| 0 <= j < i ==> self@[j].0 != user@,
            decreases n - i,
        {
            if self.entries[i].0 == user {
                proof {
                    lemma_key_index_is(v0, user@, i as int);
                }
                let prev = self.entries.remove(i);
                self.entries.insert(i, (user, rooms));
                proof {
                    assert(self@ =~= spec_insert(v0, user@, rooms.deep_view()));
                    if unique_keys(v0) {
                        assert forall|a: int, b: int| 0 <= a < b < self@.len() implies self@[a].0
                            != self@[b].0 by {
                            assert(v0[a].0 != v0[b].0);
                        }
                    }
                }
                return Some(prev.1);
            }
            proof {
                assert(self@[i as int].0 == self.entries@[i as int].0@);
            }
            i += 1;
        }
        proof {
            lemma_key_index_is(v0, user@, n as int);
        }
        self.entries.push((user, rooms));
        proof {
            assert(self@ =~= spec_insert(v0, user@, rooms.deep_view()));
            if unique_keys(v0) {
                lemma_key_index_bounds(v0, user@);
                assert forall|a: int, b: int| 0 <= a < b < self@.len() implies self@[a].0
                    != self@[b].0 by {
                    if b < v0.len() {
                        assert(v0[a].0 != v0[b].0);
                    } else {
                        assert(v0[a].0 != user@);
                    }
                }
            }
        }
        None
    }

    /// The entries of the mapping, in iteration order: one user and the
    /// user's room list per entry.
    pub fn entries(&self) -> (r: &Vec<(String, Vec<String>)>)
        ensures
            r@.len() == self@.len(),
            forall|i: int|
                0 <= i < self@.len() ==> self@[i] == (r@[i].0@, r@[i].1.deep_view()),
    {
        &self.entries
    }
}

/// Model of one entry's room list as a JSON array of strings.
pub open spec fn rooms_model(rooms: Seq<Seq<char>>) -> Seq<JsonModel> {
    Seq::new(rooms.len(), |j: int| JsonModel::Str(rooms[j]))
}

/// Model of encoding the mapping: an object with one member per user, in
/// iteration order, each an array of room strings.
pub open spec fn spec_encode_direct(v: DirectView) -> JsonModel {
    JsonModel::Obj(Seq::new(v.len(), |i: int| (v[i].0, JsonModel::Arr(rooms_model(v[i].1)))))
}

/// Model of decoding a room array's items: every item must be a string.
pub open spec fn spec_decode_room_items(items: Seq<JsonModel>) -> Result<Seq<Seq<char>>, Seq<char>>
    decreases items.len(),
{
    if items.len() == 0 {
        Ok(Seq::empty())
    } else {
        match items[0] {
            JsonModel::Str(s) => match spec_decode_room_items(items.drop_first()) {
                Ok(rest) => Ok(seq![s] + rest),
                Err(c) => Err(c),
            },
            _ => Err("expected an array of strings"@),
        }
    }
}

/// Model of decoding one entry's value.
pub open spec fn spec_decode_rooms(m: JsonModel) -> Result<Seq<Seq<char>>, Seq<char>> {
    match m {
        JsonModel::Arr(items) => spec_decode_room_items(items),
        _ => Err("expected an array of strings"@),
    }
}

/// Model of decoding the object's entries in order, later bindings of a
/// repeated key replacing earlier ones.
pub open spec fn spec_decode_direct_entries(
    entries: Seq<(Seq<char>, JsonModel)>,
    acc: DirectView,
) -> Result<DirectView, Seq<char>>
    decreases entries.len(),
{
    if entries.len() == 0 {
        Ok(acc)
    } else {
        match spec_decode_rooms(entries[0].1) {
            Err(c) => Err(c),
            Ok(rooms) => spec_decode_direct_entries(
                entries.drop_first(),
                spec_insert(acc, entries[0].0, rooms),
            ),
        }
    }
}

proof fn lemma_decode_room_items_ok(items: Seq<JsonModel>, rs: Seq<Seq<char>>)
    requires
        items.len() == rs.len(),
        forall|k: int| 0 <= k < items.len() ==> items[k] == JsonModel::Str(rs[k]),
    ensures
        spec_decode_room_items(items) == Ok::<Seq<Seq<char>>, Seq<char>>(rs),
    decreases items.len(),
{
    if items.len() == 0 {
        assert(rs =~= Seq::<Seq<char>>::empty());
    } else {
        assert(forall|k: int|
            0 <= k < items.len() - 1 ==> items.drop_first()[k] == items[k + 1]
                && rs.drop_first()[k] == rs[k + 1]);
        lemma_decode_room_items_ok(items.drop_first(), rs.drop_first());
        assert(seq![rs[0]] + rs.drop_first() =~= rs);
    }
}

proof fn lemma_decode_room_items_err(items: Seq<JsonModel>, j: int)
    requires
        0 <= j < items.len(),
        !(items[j] is Str),
        forall|k: int| 0 <= k < j ==> items[k] is Str,
    ensures
        spec_decode_room_items(items) == Err::<Seq<Seq<char>>, Seq<char>>(
            "expected an array of strings"@,
        ),
    decreases j,
{
    if j > 0 {
        lemma_decode_room_items_err(items.drop_first(), j - 1);
    }
}

/// Inserting preserves key uniqueness.
pub proof fn lemma_insert_preserves_unique(v: DirectView, key: Seq<char>, rooms: Seq<Seq<char>>)
    requires
        unique_keys(v),
    ensures
        unique_keys(spec_insert(v, key, rooms)),
{
    lemma_key_index_bounds(v, key);
    let i = key_index(v, key);
    let v2 = spec_insert(v, key, rooms);
    if i < v.len() {
        assert forall|a: int, b: int| 0 <= a < b < v2.len() implies v2[a].0 != v2[b].0 by {
            assert(v[a].0 != v[b].0);
        }
    } else {
        assert forall|a: int, b: int| 0 <= a < b < v2.len() implies v2[a].0 != v2[b].0 by {
            if b < v.len() {
                assert(v[a].0 != v[b].0);
            } else {
                assert(v[a].0 != key);
            }
        }
    }
}

proof fn lemma_decode_entries_unique(entries: Seq<(Seq<char>, JsonModel)>, acc: DirectView)
    requires
        unique_keys(acc),
    ensures
        spec_decode_direct_entries(entries, acc) matches Ok(v) ==> unique_keys(v),
    decreases entries.len(),
{
    if entries.len() > 0 {
        match spec_decode_rooms(entries[0].1) {
            Err(_) => {},
            Ok(rooms) => {
                lemma_insert_preserves_unique(acc, entries[0].0, rooms);
                lemma_decode_entries_unique(
                    entries.drop_first(),
                    spec_insert(acc, entries[0].0, rooms),
                );
            },
        }
    }
}

proof fn lemma_direct_round_trip_aux(v: DirectView, i: int)
    requires
        unique_keys(v),
        0 <= i <= v.len(),
    ensures
        spec_decode_direct_entries(spec_encode_direct(v)->Obj_0.skip(i), v.take(i)) == Ok::<
            DirectView,
            Seq<char>,
        >(v),
    decreases v.len() - i,
{
    let enc = spec_encode_direct(v)->Obj_0;
    if i == v.len() {
        assert(enc.skip(i) =~= Seq::<(Seq<char>, JsonModel)>::empty());
        assert(v.take(i) =~= v);
    } else {
        assert(enc.skip(i)[0] == enc[i]);
        assert(enc[i] == (v[i].0, JsonModel::Arr(rooms_model(v[i].1))));
        assert(forall|k: int| 0 <= k < v[i].1.len() ==> rooms_model(v[i].1)[k] == JsonModel::Str(
            v[i].1[k],
        ));
        lemma_decode_room_items_ok(rooms_model(v[i].1), v[i].1);
        assert(forall|j: int| 0 <= j < i ==> v.take(i)[j].0 == v[j].0 && v[j].0 != v[i].0);
        lemma_key_index_is(v.take(i), v[i].0, i);
        assert(spec_insert(v.take(i), v[i].0, v[i].1) =~= v.take(i + 1));
        assert(enc.skip(i).drop_first() =~= enc.skip(i + 1));
        lemma_direct_round_trip_aux(v, i + 1);
    }
}

/// Round trip: decoding the encoded mapping yields the mapping back,
/// whenever its keys are unique.
pub proof fn lemma_direct_round_trip(v: DirectView)
    requires
        unique_keys(v),
    ensures
        spec_decode_direct_entries(spec_encode_direct(v)->Obj_0, Seq::empty()) == Ok::<
            DirectView,
            Seq<char>,
        >(v),
{
    let enc = spec_encode_direct(v)->Obj_0;
    assert(enc.skip(0) =~= enc);
    assert(v.take(0) =~= Seq::<(Seq<char>, Seq<Seq<char>>)>::empty());
    lemma_direct_round_trip_aux(v, 0);
}

/// Inserting under the same key twice keeps only the last room list.
pub proof fn lemma_insert_replaces(
    v: DirectView,
    key: Seq<char>,
    rooms1: Seq<Seq<char>>,
    rooms2: Seq<Seq<char>>,
)
    ensures
        spec_insert(spec_insert(v, key, rooms1), key, rooms2) == spec_insert(v, key, rooms2),
{
    lemma_key_index_bounds(v, key);
    let i = key_index(v, key);
    let v1 = spec_insert(v, key, rooms1);
    let i0: int = if i < v.len() {
        i
    } else {
        v.len() as int
    };
    assert(forall|j: int| 0 <= j < i0 ==> v1[j].0 == v[j].0);
    lemma_key_index_is(v1, key, i0);
    assert(spec_insert(v1, key, rooms2) =~= spec_insert(v, key, rooms2));
}

/// Lookup after insert yields exactly the inserted room list, in order.
pub proof fn lemma_lookup_after_insert(v: DirectView, key: Seq<char>, rooms: Seq<Seq<char>>)
    ensures
        spec_lookup(spec_insert(v, key, rooms), key) == Some(rooms),
{
    lemma_key_index_bounds(v, key);
    let i = key_index(v, key);
    let v1 = spec_insert(v, key, rooms);
    let i0: int = if i < v.len() {
        i
    } else {
        v.len() as int
    };
    assert(forall|j: int| 0 <= j < i0 ==> v1[j].0 == v[j].0);
    lemma_key_index_is(v1, key, i0);
}

fn encode_rooms(rooms: &Vec<String>) -> (r: JsonValue)
    ensures
        r@ == JsonModel::Arr(rooms_model(rooms.deep_view())),
{
    let mut items: Vec<JsonValue> = Vec::new();
    let n = rooms.len();
    let mut j: usize = 0;
    while j < n
        invariant
            n as nat == rooms@.len(),
            j <= n,
            items@.len() == j as nat,
            forall|k: int| 0 <= k < j ==> items@[k] == JsonValue::Str(rooms@[k]),
        decreases n - j,
    {
        items.push(JsonValue::Str(rooms[j].clone()));
        j += 1;
    }
    let r = JsonValue::Arr(items);
    proof {
        lemma_model_items_index(items@);
        assert(r@->Arr_0 =~= rooms_model(rooms.deep_view()));
    }
    r
}

fn decode_rooms(v: &JsonValue) -> (r: Result<Vec<String>, DecodeError>)
    ensures
        match spec_decode_rooms(v@) {
            Ok(rs) => r matches Ok(x) && x.deep_view() == rs,
            Err(c) => r matches Err(e) && e@ == crate::util::ErrorModel::MalformedValue(c),
        },
{
    match v {
        JsonValue::Arr(items) => {
            proof {
                assert(v@ is Arr);
                lemma_model_items_index(items@);
            }
            let ghost im = v@->Arr_0;
            let mut out: Vec<String> = Vec::new();
            let n = items.len();
            let mut j: usize = 0;
            while j < n
                invariant
                    n as nat == items@.len(),
                    j <= n,
                    v@ is Arr,
                    im == v@->Arr_0,
                    im == JsonValue::model_items(items@),
                    im.len() == n as nat,
                    forall|k: int| 0 <= k < n ==> im[k] == items@[k].model(),
                    out@.len() == j as nat,
                    forall|k: int| 0 <= k < j ==> im[k] == JsonModel::Str(out@[k]@),
                decreases n - j,
            {
                match &items[j] {
                    JsonValue::Str(s) => {
                        out.push(s.clone());
                    },
                    _ => {
                        proof {
                            assert(!(im[j as int] is Str));
                            assert(forall|k: int| 0 <= k < j ==> im[k] is Str);
                            lemma_decode_room_items_err(im, j as int);
                        }
                        return Err(
                            DecodeError::MalformedValue("expected an array of strings".to_owned()),
                        );
                    },
                }
                j += 1;
            }
            proof {
                assert(out.deep_view().len() == out@.len());
                assert(forall|k: int| 0 <= k < out@.len() ==> out.deep_view()[k] == out@[k]@);
                lemma_decode_room_items_ok(im, out.deep_view());
            }
            Ok(out)
        },
        _ => Err(DecodeError::MalformedValue("expected an array of strings".to_owned())),
    }
}

impl JsonCodec for DirectEventContent {
    open spec fn valid_view(v: DirectView) -> bool {
        unique_keys(v)
    }

    open spec fn spec_encode(v: DirectView) -> JsonModel {
        spec_encode_direct(v)
    }

    open spec fn spec_decode(m: JsonModel) -> Result<DirectView, Seq<char>> {
        match m {
            JsonModel::Obj(entries) => spec_decode_direct_entries(entries, Seq::empty()),
            _ => Err("expected a JSON object"@),
        }
    }

    proof fn lemma_round_trip(v: DirectView) {
        lemma_direct_round_trip(v);
    }

    proof fn lemma_decode_valid(m: JsonModel) {
        match m {
            JsonModel::Obj(entries) => {
                lemma_decode_entries_unique(entries, Seq::empty());
            },
            _ => {},
        }
    }

    fn encode(&self) -> (r: JsonValue) {
        let mut obj: Vec<(String, JsonValue)> = Vec::new();
        let n = self.entries.len();
        let mut i: usize = 0;
        while i < n
            invariant
                n as nat == self.entries@.len(),
                i <= n,
                self@.len() == n as nat,
                obj@.len() == i as nat,
                forall|k: int|
                    0 <= k < i ==> obj@[k].0 == self.entries@[k].0 && obj@[k].1@ == JsonModel::Arr(
                        rooms_model(self@[k].1),
                    ),
            decreases n - i,
        {
            let key = self.entries[i].0.clone();
            let rooms_json = encode_rooms(&self.entries[i].1);
            obj.push((key, rooms_json));
            i += 1;
        }
        let r = JsonValue::Obj(obj);
        proof {
            lemma_model_entries_index(obj@);
            assert(r@->Obj_0 =~= spec_encode_direct(self@)->Obj_0);
        }
        r
    }

    fn decode(v: &JsonValue) -> (r: Result<Self, DecodeError>) {
        match v {
            JsonValue::Obj(entries) => {
                proof {
                    assert(v@ is Obj);
                    lemma_model_entries_index(entries@);
                }
                let ghost em = v@->Obj_0;
                proof {
                    assert(em.skip(0) =~= em);
                }
                let mut out = DirectEventContent::new();
                let n = entries.len();
                let mut i: usize = 0;
                while i < n
                    invariant
                        n as nat == entries@.len(),
                        i <= n,
                        v@ is Obj,
                        em == v@->Obj_0,
                        em == JsonValue::model_entries(entries@),
                        em.len() == n as nat,
                        forall|k: int|
                            0 <= k < n ==> em[k] == (entries@[k].0@, entries@[k].1.model()),
                        spec_decode_direct_entries(em, Seq::empty())
                            == spec_decode_direct_entries(em.skip(i as int), out@),
                    decreases n - i,
                {
                    proof {
                        assert(em.skip(i as int)[0] == em[i as int]);
                        assert(em.skip(i as int).drop_first() =~= em.skip(i as int + 1));
                    }
                    let rooms = match decode_rooms(&entries[i].1) {
                        Ok(rs) => rs,
                        Err(e) => {
                            return Err(e);
                        },
                    };
                    out.insert(entries[i].0.clone(), rooms);
                    i += 1;
                }
                proof {
                    assert(em.skip(n as int) =~= Seq::<(Seq<char>, JsonModel)>::empty());
                }
                Ok(out)
            },
            _ => Err(DecodeError::MalformedValue("expected a JSON object".to_owned())),
        }
    }
}

impl EventContent for DirectEventContent {
    open spec fn spec_event_type() -> Seq<char> {
        "m.direct"@
    }

    fn event_type() -> (r: &'static str) {
        "m.direct"
    }
}

} // verus!
