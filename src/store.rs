use vstd::prelude::*;
use crate::frequency::{initial_block, instant_rate, law_first_rate_is_instant, updated, FrequencyBlock};
use crate::json::{members_model, put_member, set_member, Json, JsonValue};
use crate::text::{decimal, decimal_text, millionths_decimal_text, millionths_text};

verus! {

/// The key of the namespace that holds every message type.
pub open spec fn root_key() -> Seq<char> {
    "mavlink"@
}

/// The member of a payload that shows its arrival statistics.
pub open spec fn info_key() -> Seq<char> {
    "message_information"@
}

pub open spec fn counter_key() -> Seq<char> {
    "counter"@
}

pub open spec fn frequency_key() -> Seq<char> {
    "frequency"@
}

/// One stored message type: its name, its latest payload and its statistics.
pub type EntryModel = (Seq<char>, Json, FrequencyBlock);

/// The statistics as a JSON object: the arrival count, and the frequency
/// in hertz with six decimal places.
pub open spec fn info_json(b: FrequencyBlock) -> Json {
    Json::Object(
        seq![
            (counter_key(), Json::Number(decimal(b.count as nat))),
            (frequency_key(), Json::Number(millionths_text(b.rate as nat))),
        ],
    )
}

/// A payload as readers see it: an object gets the statistics as its member
/// `message_information`, `null` becomes an object of that member alone,
/// and any other value is shown as it is.
pub open spec fn with_info(p: Json, b: FrequencyBlock) -> Json {
    match p {
        Json::Object(m) => Json::Object(set_member(m, info_key(), info_json(b))),
        Json::Null => Json::Object(seq![(info_key(), info_json(b))]),
        _ => p,
    }
}

/// The whole store as one tree: `{"mavlink": {<type>: <payload>, ...}}`,
/// the types in the order of their first arrival.
pub open spec fn tree(s: Seq<EntryModel>) -> Json {
    Json::Object(
        seq![
            (
                root_key(),
                Json::Object(
                    Seq::new(s.len(), |i: int| (s[i].0, with_info(s[i].1, s[i].2))),
                ),
            ),
        ],
    )
}

/// No two entries have the same name.
pub open spec fn unique_names(s: Seq<EntryModel>) -> bool {
    forall|i: int, j: int| 0 <= i < s.len() && 0 <= j < s.len() && i != j ==> s[i].0 != s[j].0
}

/// Some entry of `s` is named `name`.
pub open spec fn has_entry(s: Seq<EntryModel>, name: Seq<char>) -> bool {
    exists|k: int| 0 <= k < s.len() && s[k].0 == name
}

/// The position of the entry named `name`.
pub open spec fn entry_index(s: Seq<EntryModel>, name: Seq<char>) -> int {
    choose|k: int| 0 <= k < s.len() && s[k].0 == name
}

/// The store after `put(name, p, now)`: the entry of that name gets the new
/// payload whole, and its statistics are carried forward and updated; a new
/// name is added at the end with fresh statistics.
pub open spec fn put_spec(s: Seq<EntryModel>, name: Seq<char>, p: Json, now: u64) -> Seq<EntryModel> {
    if has_entry(s, name) {
        let k = entry_index(s, name);
        s.update(k, (name, p, updated(s[k].2, now)))
    } else {
        s.push((name, p, updated(initial_block(), now)))
    }
}

/// The latest payload and statistics of the type `name`.
pub open spec fn entry_of(s: Seq<EntryModel>, name: Seq<char>) -> Option<(Json, FrequencyBlock)> {
    if has_entry(s, name) {
        let k = entry_index(s, name);
        Some((s[k].1, s[k].2))
    } else {
        None
    }
}

/// The statistics that the type `name` has before a `put`.
pub open spec fn prior_block(s: Seq<EntryModel>, name: Seq<char>) -> FrequencyBlock {
    match entry_of(s, name) {
        Some((_, b)) => b,
        None => initial_block(),
    }
}

/// One `put` writes the new payload together with the statistics updated
/// from that type's own, and leaves every other type as it was: no entry
/// ever pairs a payload with statistics from another `put`.
pub proof fn law_put_writes_one_pair(s: Seq<EntryModel>, name: Seq<char>, p: Json, now: u64)
    requires
        unique_names(s),
    ensures
        unique_names(put_spec(s, name, p, now)),
        entry_of(put_spec(s, name, p, now), name) == Some((p, updated(prior_block(s, name), now))),
        forall|other: Seq<char>| other != name ==> entry_of(put_spec(s, name, p, now), other) == entry_of(s, other),
{
    let t = put_spec(s, name, p, now);
    if has_entry(s, name) {
        let k = entry_index(s, name);
        assert(t[k].0 == name);
        assert(has_entry(t, name));
        assert(entry_index(t, name) == k);
        assert forall|other: Seq<char>| other != name implies entry_of(t, other) == entry_of(s, other) by {
            if has_entry(s, other) {
                let j = entry_index(s, other);
                assert(t[j] == s[j]);
                assert(has_entry(t, other));
                assert(entry_index(t, other) == j);
            } else if has_entry(t, other) {
                let j = entry_index(t, other);
                assert(j != k);
                assert(s[j] == t[j]);
            }
        }
    } else {
        let k = s.len() as int;
        assert(t[k].0 == name);
        assert(has_entry(t, name));
        assert(entry_index(t, name) == k);
        assert forall|other: Seq<char>| other != name implies entry_of(t, other) == entry_of(s, other) by {
            if has_entry(s, other) {
                let j = entry_index(s, other);
                assert(t[j] == s[j]);
                assert(has_entry(t, other));
                assert(entry_index(t, other) == j);
            } else if has_entry(t, other) {
                let j = entry_index(t, other);
                assert(j != k);
                assert(s[j] == t[j]);
            }
        }
    }
}

/// After two `put`s of one type, the store shows the second payload, whole,
/// and nothing of the first.
pub proof fn law_last_write_wins(s: Seq<EntryModel>, name: Seq<char>, earlier: Json, t1: u64, later: Json, t2: u64)
    requires
        unique_names(s),
    ensures
        entry_of(put_spec(put_spec(s, name, earlier, t1), name, later, t2), name) == Some(
            (later, updated(updated(prior_block(s, name), t1), t2)),
        ),
{
    law_put_writes_one_pair(s, name, earlier, t1);
    law_put_writes_one_pair(put_spec(s, name, earlier, t1), name, later, t2);
}

/// The first `put` of a type leaves its frequency at zero; a second one
/// after a positive elapsed time gives exactly the instant rate.
pub proof fn law_first_frequencies(s: Seq<EntryModel>, name: Seq<char>, earlier: Json, t1: u64, later: Json, t2: u64)
    requires
        unique_names(s),
        !has_entry(s, name),
        t2 > t1,
    ensures
        entry_of(put_spec(s, name, earlier, t1), name).unwrap().1.rate == 0,
        entry_of(put_spec(put_spec(s, name, earlier, t1), name, later, t2), name).unwrap().1.rate
            == instant_rate((t2 - t1) as nat),
{
    law_put_writes_one_pair(s, name, earlier, t1);
    law_last_write_wins(s, name, earlier, t1, later, t2);
    law_first_rate_is_instant(t1, t2);
}

pub struct Entry {
    name: String,
    payload: JsonValue,
    info: FrequencyBlock,
}

/// The latest payload and arrival statistics of each message type.
///
/// One `put` changes one entry's payload and statistics in a single step of
/// `&mut` access; a program that shares the store guards it with one lock,
/// and each snapshot is then taken whole between two `put`s.
pub struct SnapshotStore {
    entries: Vec<Entry>,
}

impl View for SnapshotStore {
    type V = Seq<EntryModel>;

    closed spec fn view(&self) -> Seq<EntryModel> {
        Seq::new(
            self.entries.len() as nat,
            |i: int|
                (self.entries[i].name@, self.entries[i].payload.model(), self.entries[i].info),
        )
    }
}

fn literal(s: &str) -> (r: String)
    ensures
        r@ == s@,
{
    String::from_str(s)
}

/// The statistics as a JSON object.
fn info_value(b: FrequencyBlock) -> (r: JsonValue)
    ensures
        r.model() == info_json(b),
{
    proof {
        reveal_strlit("counter");
        reveal_strlit("frequency");
    }
    let mut members: Vec<(String, JsonValue)> = Vec::new();
    members.push((literal("counter"), JsonValue::Number(decimal_text(b.count))));
    members.push((literal("frequency"), JsonValue::Number(millionths_decimal_text(b.rate))));
    let r = JsonValue::Object(members);
    proof {
        let m = r.model()->Object_0;
        assert(m.len() == 2);
        assert(m[0] == (members[0].0@, members[0].1.model()));
        assert(m[1] == (members[1].0@, members[1].1.model()));
        assert(m =~= info_json(b)->Object_0);
    }
    r
}

/// A copy of the payload `p` with the statistics `b` shown in it.
pub fn payload_with_info(p: &JsonValue, b: FrequencyBlock) -> (r: JsonValue)
    ensures
        r.model() == with_info(p.model(), b),
{
    proof { reveal_strlit("message_information"); }
    let copy = p.deep_copy();
    match copy {
        JsonValue::Object(mut members) => {
            assert(members_model(members) == p.model()->Object_0);
            put_member(&mut members, literal("message_information"), info_value(b));
            JsonValue::Object(members)
        },
        JsonValue::Null => {
            let mut members: Vec<(String, JsonValue)> = Vec::new();
            members.push((literal("message_information"), info_value(b)));
            let r = JsonValue::Object(members);
            assert(r.model()->Object_0 =~= seq![(info_key(), info_json(b))]);
            r
        },
        other => other,
    }
}

impl SnapshotStore {
    /// The store holds at most one entry per name.
    pub open spec fn wf(&self) -> bool {
        unique_names(self@)
    }

    /// An empty store.
    pub fn new() -> (r: SnapshotStore)
        ensures
            r.wf(),
            r@ == Seq::<EntryModel>::empty(),
    {
        let r = SnapshotStore { entries: Vec::new() };
        assert(r@ =~= Seq::<EntryModel>::empty());
        r
    }

    /// Records the arrival of a message of type `name` with payload
    /// `payload` at time `now` (microseconds).
    pub fn put(&mut self, name: String, payload: JsonValue, now: u64)
        requires
            old(self).wf(),
        ensures
            final(self).wf(),
            final(self)@ == put_spec(old(self)@, name@, payload.model(), now),
    {
        let ghost s0 = self@;
        let ghost p = payload.model();
        let ghost nm = name@;
        let ghost e0 = self.entries@;
        let mut i: usize = 0;
        while i < self.entries.len()
            invariant
                i <= self.entries.len(),
                self@ == s0,
                self.entries@ == e0,
                old(self)@ == s0,
                name@ == nm,
                payload.model() == p,
                unique_names(s0),
                forall|j: int| 0 <= j < i ==> s0[j].0 != name@,
            decreases self.entries.len() - i,
        {
            assert(s0[i as int].0 == self.entries[i as int].name@);
            if self.entries[i].name == name {
                let mut info = self.entries[i].info;
                info.update(now);
                proof {
                    assert(has_entry(s0, name@));
                    assert(entry_index(s0, name@) == i);
                }
                self.entries[i] = Entry { name, payload, info };
                proof {
                    let t = s0.update(i as int, (nm, p, updated(s0[i as int].2, now)));
                    assert(self.entries.len() == e0.len());
                    assert(self.entries[i as int].name@ == nm);
                    assert(self.entries[i as int].payload.model() == p);
                    assert(self.entries[i as int].info == updated(s0[i as int].2, now));
                    assert(self@[i as int] == t[i as int]);
                    assert forall|j: int| 0 <= j < t.len() && j != i implies self@[j] == t[j] by {
                        assert(self.entries@[j] == e0[j]);
                    }
                    assert(self@ =~= t);
                    assert(t == put_spec(s0, nm, p, now));
                    assert forall|a: int, b: int| 0 <= a < t.len() && 0 <= b < t.len() && a != b implies t[a].0 != t[b].0 by {
                        assert(t[a].0 == s0[a].0);
                        assert(t[b].0 == s0[b].0);
                    }
                }
                return;
            }
            i += 1;
        }
        let mut info = FrequencyBlock::new();
        info.update(now);
        self.entries.push(Entry { name, payload, info });
        proof {
            let t = s0.push((nm, p, updated(initial_block(), now)));
            assert forall|j: int| 0 <= j < t.len() implies self@[j] == t[j] by {
                if j < s0.len() {
                    assert(self.entries@[j] == e0[j]);
                }
            }
            assert(self@ =~= t);
        }
    }

    /// The arrival statistics of the type `name`, if it has arrived.
    pub fn info_of(&self, name: &String) -> (r: Option<FrequencyBlock>)
        requires
            self.wf(),
        ensures
            r == match entry_of(self@, name@) {
                Some((_, b)) => Some(b),
                None => None::<FrequencyBlock>,
            },
    {
        let mut i: usize = 0;
        while i < self.entries.len()
            invariant
                i <= self.entries.len(),
                unique_names(self@),
                forall|j: int| 0 <= j < i ==> self@[j].0 != name@,
            decreases self.entries.len() - i,
        {
            assert(self@[i as int].0 == self.entries[i as int].name@);
            if self.entries[i].name == *name {
                proof {
                    assert(has_entry(self@, name@));
                    assert(entry_index(self@, name@) == i);
                }
                return Some(self.entries[i].info);
            }
            i += 1;
        }
        None
    }

    /// The name and rate (micro-hertz) of each type, in the order of their
    /// first arrival.
    pub fn rates(&self) -> (r: Vec<(String, u64)>)
        ensures
            r.len() == self@.len(),
            forall|i: int| 0 <= i < r.len() ==> (#[trigger] r[i]).0@ == self@[i].0 && r[i].1 == self@[i].2.rate,
    {
        let mut out: Vec<(String, u64)> = Vec::new();
        let mut i: usize = 0;
        while i < self.entries.len()
            invariant
                i <= self.entries.len(),
                out.len() == i,
                forall|j: int| 0 <= j < i ==> (#[trigger] out[j]).0@ == self@[j].0 && out[j].1 == self@[j].2.rate,
            decreases self.entries.len() - i,
        {
            out.push((self.entries[i].name.clone(), self.entries[i].info.rate));
            i += 1;
        }
        out
    }

    /// A copy of the whole store, independent of later changes.
    pub fn snapshot(&self) -> (r: JsonValue)
        ensures
            r.model() == tree(self@),
    {
        let ghost s = self@;
        let mut members: Vec<(String, JsonValue)> = Vec::new();
        let mut i: usize = 0;
        while i < self.entries.len()
            invariant
                i <= self.entries.len(),
                s == self@,
                members.len() == i,
                forall|j: int| 0 <= j < i ==> #[trigger] members_model(members)[j] == (s[j].0, with_info(s[j].1, s[j].2)),
            decreases self.entries.len() - i,
        {
            let name = self.entries[i].name.clone();
            let value = payload_with_info(&self.entries[i].payload, self.entries[i].info);
            let ghost before = members_model(members);
            members.push((name, value));
            proof {
                assert forall|j: int| 0 <= j <= i implies #[trigger] members_model(members)[j] == (s[j].0, with_info(s[j].1, s[j].2)) by {
                    if j < i {
                        assert(members_model(members)[j] == before[j]);
                    }
                }
            }
            i += 1;
        }
        proof { reveal_strlit("mavlink"); }
        let ghost m = members_model(members);
        let inner = JsonValue::Object(members);
        proof {
            let t = tree(s)->Object_0[0].1->Object_0;
            assert(s.len() == self.entries.len());
            assert forall|j: int| 0 <= j < t.len() implies m[j] == t[j] by {
                assert(members_model(members)[j] == (s[j].0, with_info(s[j].1, s[j].2)));
            }
            assert(inner.model()->Object_0 == m);
            assert(m =~= t);
        }
        let mut root: Vec<(String, JsonValue)> = Vec::new();
        root.push((literal("mavlink"), inner));
        let r = JsonValue::Object(root);
        proof {
            let rm = r.model()->Object_0;
            assert(rm[0] == (root[0].0@, root[0].1.model()));
            assert(rm =~= tree(s)->Object_0);
        }
        r
    }
}

} // verus!
