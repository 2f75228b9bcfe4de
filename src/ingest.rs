use vstd::prelude::*;
use crate::json::{find_member, is_first_member, lemma_first_member_unique, member, members_model, Json, JsonValue};
use crate::query::resolve_path;
use crate::store::{put_spec, tree, EntryModel, SnapshotStore};

verus! {

/// How long the ingestion loop sleeps after the source had nothing to give.
pub const IDLE_BACKOFF_MILLIS: u64 = 1000;

/// What one poll of the inbound source gave.
pub enum Poll {
    /// A decoded message, as a JSON tree.
    Message(JsonValue),
    /// Nothing is available right now.
    Idle,
    /// The source is broken.
    Failed,
}

/// A poll as contracts see it.
pub enum Event {
    Message(Json),
    Idle,
    Failed,
}

/// What the ingestion loop does next.
#[derive(Clone, Copy, Debug, PartialEq, Eq, Structural)]
pub enum Next {
    /// Poll again at once.
    Continue,
    /// Sleep this many milliseconds, then poll again.
    Backoff(u64),
    /// Stop the loop for good.
    Stop,
}

impl Poll {
    pub open spec fn model(&self) -> Event {
        match self {
            Poll::Message(v) => Event::Message(v.model()),
            Poll::Idle => Event::Idle,
            Poll::Failed => Event::Failed,
        }
    }
}

/// The type name of a message: its member `type` where that is a string,
/// else `null`.
pub open spec fn message_type(p: Json) -> Seq<char> {
    match p {
        Json::Object(m) => match member(m, "type"@) {
            Some(Json::Str(s)) => s,
            _ => "null"@,
        },
        _ => "null"@,
    }
}

/// One turn of the ingestion loop: a message is stored under its type name
/// and the loop goes on; an idle source leaves the store as it is and the
/// loop backs off; a failure leaves the store as it is and stops the loop.
pub open spec fn step_spec(s: Seq<EntryModel>, e: Event, now: u64) -> (Seq<EntryModel>, Next) {
    match e {
        Event::Message(p) => (put_spec(s, message_type(p), p, now), Next::Continue),
        Event::Idle => (s, Next::Backoff(IDLE_BACKOFF_MILLIS)),
        Event::Failed => (s, Next::Stop),
    }
}

/// The store after the loop has met the polls `evs`, each with its time,
/// and whether it stopped; the polls after a stop are never made.
pub open spec fn run_spec(s: Seq<EntryModel>, evs: Seq<(Event, u64)>) -> (Seq<EntryModel>, bool)
    decreases evs.len(),
{
    if evs.len() == 0 {
        (s, false)
    } else {
        let (s2, next) = step_spec(s, evs[0].0, evs[0].1);
        if next == Next::Stop {
            (s2, true)
        } else {
            run_spec(s2, evs.drop_first())
        }
    }
}

fn literal(s: &str) -> (r: String)
    ensures
        r@ == s@,
{
    String::from_str(s)
}

/// The type name of a message.
pub fn message_type_of(p: &JsonValue) -> (r: String)
    ensures
        r@ == message_type(p.model()),
{
    proof {
        reveal_strlit("type");
        reveal_strlit("null");
    }
    match p {
        JsonValue::Object(members) => {
            let key = literal("type");
            match find_member(members, &key) {
                Some(i) => {
                    proof {
                        let m = members_model(*members);
                        let k = choose|k: int| is_first_member(m, key@, k);
                        lemma_first_member_unique(m, key@, i as int, k);
                        assert(m[i as int] == (members[i as int].0@, members[i as int].1.model()));
                        assert(p.model()->Object_0 == m);
                        assert(member(m, "type"@) == Some(members[i as int].1.model()));
                    }
                    match &members[i].1 {
                        JsonValue::Str(s) => s.clone(),
                        _ => literal("null"),
                    }
                },
                None => {
                    assert(p.model()->Object_0 == members_model(*members));
                    assert(member(members_model(*members), "type"@) is None);
                    literal("null")
                },
            }
        },
        _ => literal("null"),
    }
}

/// Carries out one turn of the ingestion loop on `store` with what the
/// source gave at time `now` (microseconds), and says what to do next.
pub fn ingest_step(store: &mut SnapshotStore, poll: Poll, now: u64) -> (r: Next)
    requires
        old(store).wf(),
    ensures
        final(store).wf(),
        (final(store)@, r) == step_spec(old(store)@, poll.model(), now),
{
    match poll {
        Poll::Message(payload) => {
            let name = message_type_of(&payload);
            store.put(name, payload, now);
            Next::Continue
        },
        Poll::Idle => Next::Backoff(IDLE_BACKOFF_MILLIS),
        Poll::Failed => Next::Stop,
    }
}

/// Idle polls, however many, neither stop the loop nor change the store, so
/// every query answers as before; the loop then goes on from the following
/// polls as if there had been none.
pub proof fn law_idle_polls_are_harmless(s: Seq<EntryModel>, idle: Seq<(Event, u64)>, rest: Seq<(Event, u64)>)
    requires
        forall|i: int| 0 <= i < idle.len() ==> (#[trigger] idle[i]).0 == Event::Idle,
    ensures
        run_spec(s, idle).0 == s,
        !run_spec(s, idle).1,
        run_spec(s, idle + rest) == run_spec(s, rest),
        forall|path: Seq<char>| resolve_path(tree(run_spec(s, idle).0), path) == resolve_path(tree(s), path),
    decreases idle.len(),
{
    if idle.len() > 0 {
        let tail = idle.drop_first();
        assert forall|i: int| 0 <= i < tail.len() implies (#[trigger] tail[i]).0 == Event::Idle by {
            assert(tail[i] == idle[i + 1]);
        }
        law_idle_polls_are_harmless(s, tail, rest);
        assert((idle + rest).drop_first() =~= tail + rest);
        assert((idle + rest)[0] == idle[0]);
    } else {
        assert(idle + rest =~= rest);
    }
}

/// A failure of the source stops the loop at that poll: the store keeps what
/// it held before the failure, every query answers as it did then, and no
/// later poll is made.
pub proof fn law_failure_halts(s: Seq<EntryModel>, before: Seq<(Event, u64)>, t: u64, rest: Seq<(Event, u64)>)
    requires
        !run_spec(s, before).1,
    ensures
        run_spec(s, before + seq![(Event::Failed, t)] + rest) == (run_spec(s, before).0, true),
        forall|path: Seq<char>| resolve_path(tree(run_spec(s, before + seq![(Event::Failed, t)] + rest).0), path)
            == resolve_path(tree(run_spec(s, before).0), path),
    decreases before.len(),
{
    let all = before + seq![(Event::Failed, t)] + rest;
    if before.len() > 0 {
        let (s2, next) = step_spec(s, before[0].0, before[0].1);
        assert(all[0] == before[0]);
        assert(all.drop_first() =~= before.drop_first() + seq![(Event::Failed, t)] + rest);
        law_failure_halts(s2, before.drop_first(), t, rest);
    } else {
        assert(all[0] == (Event::Failed, t));
    }
}

} // verus!
