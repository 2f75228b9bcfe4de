use vstd::prelude::*;
use crate::json::{lemma_member_after_set, find_member, is_first_member, lemma_first_member_unique, member, members_model, Json, JsonValue};
use crate::frequency::{instant_rate, updated};
use crate::text::millionths_text;
use crate::store::{
    counter_key, entry_index, entry_of, frequency_key, has_entry, info_json, info_key, law_first_frequencies, law_last_write_wins, law_put_writes_one_pair, prior_block, put_spec, root_key, tree,
    unique_names, with_info, EntryModel, SnapshotStore,
};

verus! {

/// The pieces of `p` between slashes, `cur` being the part of the first
/// piece already read. Every piece is kept, the empty ones too.
pub open spec fn pieces_from(p: Seq<char>, cur: Seq<char>) -> Seq<Seq<char>>
    decreases p.len(),
{
    if p.len() == 0 {
        seq![cur]
    } else if p[0] == '/' {
        seq![cur] + pieces_from(p.drop_first(), seq![])
    } else {
        pieces_from(p.drop_first(), cur.push(p[0]))
    }
}

/// `s` with each `~` that is followed by `b` replaced, with that `b`, by
/// `to`, reading from left to right.
pub open spec fn replace_escape(s: Seq<char>, b: char, to: char) -> Seq<char>
    decreases s.len(),
{
    if s.len() < 2 {
        s
    } else if s[0] == '~' && s[1] == b {
        seq![to] + replace_escape(s.skip(2), b, to)
    } else {
        seq![s[0]] + replace_escape(s.drop_first(), b, to)
    }
}

/// The key that a path segment names: `~1` stands for `/`, then `~0` for `~`.
pub open spec fn unescape(s: Seq<char>) -> Seq<char> {
    replace_escape(replace_escape(s, '1', '/'), '0', '~')
}

/// The segments of a slash-delimited path. The empty path and `/` have
/// none; any other path must start with `/`, and each piece after it, the
/// empty ones too, is one segment: `/mavlink/HEARTBEAT` has the segments
/// `mavlink` and `HEARTBEAT`, `/mavlink/` the segments `mavlink` and the
/// empty key. A path that does not start with `/` has no segments at all.
pub open spec fn path_segments(p: Seq<char>) -> Option<Seq<Seq<char>>> {
    if p.len() == 0 || p == seq!['/'] {
        Some(seq![])
    } else if p[0] != '/' {
        None
    } else {
        Some(pieces_from(p.drop_first(), seq![]).map_values(|x: Seq<char>| unescape(x)))
    }
}

pub open spec fn is_digit(c: char) -> bool {
    48 <= (c as u32) <= 57
}

pub open spec fn all_digits(s: Seq<char>) -> bool {
    forall|i: int| 0 <= i < s.len() ==> is_digit(#[trigger] s[i])
}

/// The number that the decimal digits `s` stand for.
pub open spec fn digits_value(s: Seq<char>) -> nat
    decreases s.len(),
{
    if s.len() == 0 {
        0
    } else {
        digits_value(s.drop_last()) * 10 + ((s.last() as u32) - 48) as nat
    }
}

/// The array index that a segment names: decimal digits, with no leading
/// zero but in `0` itself.
pub open spec fn index_value(s: Seq<char>) -> Option<nat> {
    if s.len() > 0 && all_digits(s) && (s.len() == 1 || s[0] != '0') {
        Some(digits_value(s))
    } else {
        None
    }
}

/// The child of `v` that the segment `seg` names: an object's member of
/// that key, an array's element of that index; nothing in any other value.
pub open spec fn child(v: Json, seg: Seq<char>) -> Option<Json> {
    match v {
        Json::Object(m) => member(m, seg),
        Json::Array(a) => match index_value(seg) {
            Some(n) => if n < a.len() { Some(a[n as int]) } else { None },
            None => None,
        },
        _ => None,
    }
}

/// The sub-tree of `v` at the segments `segs`, if each of them is there.
pub open spec fn resolve_segments(v: Json, segs: Seq<Seq<char>>) -> Option<Json>
    decreases segs.len(),
{
    if segs.len() == 0 {
        Some(v)
    } else {
        match child(v, segs[0]) {
            Some(c) => resolve_segments(c, segs.drop_first()),
            None => None,
        }
    }
}

/// The sub-tree of `v` at the path `path`.
pub open spec fn resolve_path(v: Json, path: Seq<char>) -> Option<Json> {
    match path_segments(path) {
        Some(segs) => resolve_segments(v, segs),
        None => None,
    }
}

proof fn lemma_digits_monotone(s: Seq<char>, i: int)
    requires
        0 <= i <= s.len(),
    ensures
        digits_value(s.take(i)) <= digits_value(s),
    decreases s.len() - i,
{
    if i < s.len() {
        lemma_digits_monotone(s, i + 1);
        assert(s.take(i + 1).drop_last() =~= s.take(i));
    } else {
        assert(s.take(i) =~= s);
    }
}

/// The index that `seg` names, where it is below `len`.
pub fn parse_index(seg: &String, len: usize) -> (r: Option<usize>)
    ensures
        match r {
            Some(n) => index_value(seg@) == Some(n as nat) && n < len,
            None => match index_value(seg@) {
                Some(n) => n >= len,
                None => true,
            },
        },
{
    let s = seg.as_str();
    let n = s.unicode_len();
    if n == 0 || len == 0 {
        return None;
    }
    if n > 1 && s.get_char(0) == '0' {
        return None;
    }
    let mut acc: usize = 0;
    let mut i: usize = 0;
    while i < n
        invariant
            n == seg@.len(),
            s@ == seg@,
            i <= n,
            n > 1 ==> seg@[0] != '0',
            acc as nat == digits_value(seg@.take(i as int)),
            acc < len,
            forall|j: int| 0 <= j < i ==> is_digit(seg@[j]),
        decreases n - i,
    {
        let c = s.get_char(i);
        let code = c as u32;
        if code < 48 || code > 57 {
            return None;
        }
        let next: u128 = acc as u128 * 10 + (code - 48) as u128;
        proof {
            assert(seg@.take(i + 1).drop_last() =~= seg@.take(i as int));
        }
        if next >= len as u128 {
            proof {
                if index_value(seg@) is Some {
                    lemma_digits_monotone(seg@, i + 1);
                }
            }
            return None;
        }
        acc = next as usize;
        i += 1;
    }
    assert(seg@.take(n as int) =~= seg@);
    Some(acc)
}

/// The child of `v` that `seg` names.
pub fn child_of<'a>(v: &'a JsonValue, seg: &String) -> (r: Option<&'a JsonValue>)
    ensures
        match r {
            Some(c) => child(v.model(), seg@) == Some(c.model()),
            None => child(v.model(), seg@) is None,
        },
{
    match v {
        JsonValue::Object(members) => {
            match find_member(members, seg) {
                Some(i) => {
                    proof {
                        let m = members_model(*members);
                        let k = choose|k: int| is_first_member(m, seg@, k);
                        lemma_first_member_unique(m, seg@, i as int, k);
                        assert(m[i as int] == (members[i as int].0@, members[i as int].1.model()));
                        assert(v.model()->Object_0 == m);
                        assert(is_first_member(m, seg@, i as int));
                        assert(member(m, seg@) == Some(m[i as int].1));
                        assert(child(v.model(), seg@) == member(m, seg@));
                    }
                    Some(&members[i].1)
                },
                None => None,
            }
        },
        JsonValue::Array(items) => {
            match parse_index(seg, items.len()) {
                Some(n) => {
                    assert(v.model()->Array_0[n as int] == items[n as int].model());
                    Some(&items[n])
                },
                None => None,
            }
        },
        _ => None,
    }
}


proof fn lemma_pieces_step(p: Seq<char>, i: int, cur: Seq<char>)
    requires
        0 <= i < p.len(),
    ensures
        pieces_from(p.skip(i), cur) == if p[i] == '/' {
            seq![cur] + pieces_from(p.skip(i + 1), seq![])
        } else {
            pieces_from(p.skip(i + 1), cur.push(p[i]))
        },
{
    assert(p.skip(i).drop_first() =~= p.skip(i + 1));
    assert(p.skip(i)[0] == p[i]);
}

proof fn lemma_replace_step(s: Seq<char>, i: int, b: char, to: char)
    requires
        0 <= i < s.len(),
    ensures
        i + 1 < s.len() && s[i] == '~' && s[i + 1] == b ==> replace_escape(s.skip(i), b, to)
            == seq![to] + replace_escape(s.skip(i + 2), b, to),
        !(i + 1 < s.len() && s[i] == '~' && s[i + 1] == b) ==> replace_escape(s.skip(i), b, to)
            == seq![s[i]] + replace_escape(s.skip(i + 1), b, to),
{
    let t = s.skip(i);
    if t.len() >= 2 {
        assert(t.skip(2) =~= s.skip(i + 2));
        assert(t.drop_first() =~= s.skip(i + 1));
        assert(t[0] == s[i] && t[1] == s[i + 1]);
    } else {
        assert(s.skip(i + 1) =~= Seq::<char>::empty());
        assert(t =~= seq![s[i]]);
        assert(replace_escape(s.skip(i + 1), b, to) == Seq::<char>::empty());
        assert(seq![s[i]] + Seq::<char>::empty() =~= t);
    }
}

/// `s` with each `~b` replaced by `to`, from left to right.
fn replace_escape_text(s: &str, b: char, to: &str) -> (r: String)
    requires
        to@.len() == 1,
    ensures
        r@ == replace_escape(s@, b, to@[0]),
{
    let ghost t = to@[0];
    let n = s.unicode_len();
    let mut out = String::new();
    let mut i: usize = 0;
    assert(s@.skip(0) =~= s@);
    while i < n
        invariant
            n == s@.len(),
            i <= n,
            to@ == seq![t],
            replace_escape(s@, b, t) == out@ + replace_escape(s@.skip(i as int), b, t),
        decreases n - i,
    {
        proof { lemma_replace_step(s@, i as int, b, t); }
        if i + 1 < n && s.get_char(i) == '~' && s.get_char(i + 1) == b {
            let ghost before = out@;
            out.append(to);
            assert(out@ =~= before + seq![t]);
            assert(replace_escape(s@, b, t) =~= out@ + replace_escape(s@.skip(i + 2), b, t));
            i = i + 2;
        } else {
            let ghost before = out@;
            let one = s.substring_char(i, i + 1);
            out.append(one);
            assert(one@ =~= seq![s@[i as int]]);
            assert(replace_escape(s@, b, t) =~= out@ + replace_escape(s@.skip(i + 1), b, t));
            i = i + 1;
        }
    }
    assert(s@.skip(n as int) =~= Seq::<char>::empty());
    assert(out@ =~= replace_escape(s@, b, t));
    out
}

/// The key that the segment `s` names.
pub fn unescape_segment(s: &str) -> (r: String)
    ensures
        r@ == unescape(s@),
{
    proof {
        reveal_strlit("/");
        reveal_strlit("~");
    }
    let first = replace_escape_text(s, '1', "/");
    replace_escape_text(first.as_str(), '0', "~")
}

/// The segments as `Seq`s.
pub open spec fn segments_model(segs: Seq<String>) -> Seq<Seq<char>> {
    segs.map_values(|x: String| x@)
}

/// Splits a path into its segments, or `None` where it is no path.
pub fn split_path(path: &str) -> (r: Option<Vec<String>>)
    ensures
        match r {
            Some(v) => path_segments(path@) == Some(segments_model(v@)),
            None => path_segments(path@) is None,
        },
{
    let ghost p = path@;
    let n = path.unicode_len();
    if n == 0 {
        let out: Vec<String> = Vec::new();
        assert(segments_model(out@) =~= Seq::<Seq<char>>::empty());
        return Some(out);
    }
    let first = path.get_char(0);
    if n == 1 && first == '/' {
        let out: Vec<String> = Vec::new();
        assert(p =~= seq!['/']);
        assert(segments_model(out@) =~= Seq::<Seq<char>>::empty());
        return Some(out);
    }
    if first != '/' {
        return None;
    }
    assert(p != seq!['/']) by {
        if p == seq!['/'] {
            assert(p.len() == 1);
        }
    }
    let ghost q = p.drop_first();
    let mut out: Vec<String> = Vec::new();
    let ghost mut raw: Seq<Seq<char>> = Seq::empty();
    let mut start: usize = 1;
    let mut i: usize = 1;
    assert(q.skip(0) =~= q);
    assert(p.skip(1) =~= q);
    assert(p.subrange(1, 1) =~= Seq::<char>::empty());
    assert(pieces_from(q, seq![]) =~= raw + pieces_from(p.skip(1), p.subrange(1, 1)));
    while i < n
        invariant
            n == p.len(),
            p == path@,
            q == p.drop_first(),
            1 <= start <= i <= n,
            out.len() == raw.len(),
            forall|j: int| 0 <= j < raw.len() ==> #[trigger] out@[j]@ == unescape(raw[j]),
            pieces_from(q, seq![]) == raw + pieces_from(p.skip(i as int), p.subrange(start as int, i as int)),
        decreases n - i,
    {
        let c = path.get_char(i);
        proof { lemma_pieces_step(p, i as int, p.subrange(start as int, i as int)); }
        if c == '/' {
            let piece = path.substring_char(start, i);
            let seg = unescape_segment(piece);
            proof {
                raw = raw.push(p.subrange(start as int, i as int));
            }
            out.push(seg);
            assert(pieces_from(q, seq![]) =~= raw + pieces_from(p.skip(i + 1), seq![]));
            start = i + 1;
            assert(p.subrange(start as int, start as int) =~= Seq::<char>::empty());
        } else {
            assert(p.subrange(start as int, i as int).push(p[i as int]) =~= p.subrange(start as int, i + 1));
        }
        i += 1;
    }
    assert(p.skip(n as int) =~= Seq::<char>::empty());
    let piece = path.substring_char(start, n);
    let seg = unescape_segment(piece);
    proof {
        raw = raw.push(p.subrange(start as int, n as int));
    }
    out.push(seg);
    assert(pieces_from(q, seq![]) =~= raw);
    assert(segments_model(out@) =~= raw.map_values(|x: Seq<char>| unescape(x)));
    Some(out)
}

/// The sub-tree of `tree` at `path`, or `None` where the path leads
/// nowhere. The empty path and `/` give the whole tree.
pub fn resolve<'a>(tree: &'a JsonValue, path: &str) -> (r: Option<&'a JsonValue>)
    ensures
        match r {
            Some(v) => resolve_path(tree.model(), path@) == Some(v.model()),
            None => resolve_path(tree.model(), path@) is None,
        },
{
    let segs = match split_path(path) {
        Some(v) => v,
        None => {
            return None;
        },
    };
    let ghost sm = segments_model(segs@);
    let mut cur: &JsonValue = tree;
    let mut k: usize = 0;
    assert(sm.skip(0) =~= sm);
    while k < segs.len()
        invariant
            k <= segs.len(),
            sm == segments_model(segs@),
            path_segments(path@) == Some(sm),
            resolve_path(tree.model(), path@) == resolve_segments(cur.model(), sm.skip(k as int)),
        decreases segs.len() - k,
    {
        assert(sm.skip(k as int)[0] == segs@[k as int]@);
        assert(sm.skip(k as int).drop_first() =~= sm.skip(k + 1));
        match child_of(cur, &segs[k]) {
            Some(c) => {
                cur = c;
            },
            None => {
                return None;
            },
        }
        k += 1;
    }
    assert(sm.skip(k as int) =~= Seq::<Seq<char>>::empty());
    Some(cur)
}

/// The sub-tree of a snapshot of `store` at `path`, as a copy of its own.
pub fn query(store: &SnapshotStore, path: &str) -> (r: Option<JsonValue>)
    ensures
        match r {
            Some(v) => resolve_path(tree(store@), path@) == Some(v.model()),
            None => resolve_path(tree(store@), path@) is None,
        },
{
    let snap = store.snapshot();
    match resolve(&snap, path) {
        Some(v) => Some(v.deep_copy()),
        None => None,
    }
}

/// The path `/`, like the empty path, names the whole tree.
pub proof fn law_root_path_is_whole_tree(v: Json)
    ensures
        resolve_path(v, "/"@) == Some(v),
        resolve_path(v, ""@) == Some(v),
{
    reveal_strlit("/");
    reveal_strlit("");
    assert("/"@ =~= seq!['/']);
    assert(""@ =~= Seq::<char>::empty());
}

/// In a snapshot, the segments `mavlink` and a type's name lead to that
/// type's latest payload with its own statistics, and to nothing where the
/// type has not arrived.
pub proof fn law_type_lookup(s: Seq<EntryModel>, name: Seq<char>)
    requires
        unique_names(s),
    ensures
        resolve_segments(tree(s), seq![root_key(), name]) == match entry_of(s, name) {
            Some((p, b)) => Some(with_info(p, b)),
            None => None::<Json>,
        },
{
    let top = tree(s)->Object_0;
    assert(is_first_member(top, root_key(), 0));
    let inner = top[0].1;
    let m = inner->Object_0;
    assert(child(tree(s), root_key()) == Some(inner)) by {
        let k = choose|k: int| is_first_member(top, root_key(), k);
        lemma_first_member_unique(top, root_key(), 0, k);
    }
    let segs = seq![root_key(), name];
    assert(segs.drop_first() =~= seq![name]);
    assert(seq![name].drop_first() =~= Seq::<Seq<char>>::empty());
    assert(resolve_segments(tree(s), segs) == resolve_segments(inner, seq![name]));
    if has_entry(s, name) {
        let k = entry_index(s, name);
        assert(is_first_member(m, name, k));
        let c = choose|c: int| is_first_member(m, name, c);
        lemma_first_member_unique(m, name, k, c);
        assert(child(inner, name) == Some(with_info(s[k].1, s[k].2)));
        assert(resolve_segments(inner, seq![name]) == resolve_segments(with_info(s[k].1, s[k].2), Seq::<Seq<char>>::empty()));
    } else {
        assert forall|i: int| !is_first_member(m, name, i) by {
            if 0 <= i < m.len() && m[i].0 == name {
                assert(s[i].0 == name);
            }
        }
        assert(child(inner, name) is None);
    }
}

/// A snapshot taken after two `put`s of one type shows, at that type's
/// path, the second payload with the statistics of both arrivals.
pub proof fn law_snapshot_shows_last_write(s: Seq<EntryModel>, name: Seq<char>, earlier: Json, t1: u64, later: Json, t2: u64)
    requires
        unique_names(s),
    ensures
        resolve_segments(tree(put_spec(put_spec(s, name, earlier, t1), name, later, t2)), seq![root_key(), name])
            == Some(with_info(later, updated(updated(prior_block(s, name), t1), t2))),
{
    law_put_writes_one_pair(s, name, earlier, t1);
    law_put_writes_one_pair(put_spec(s, name, earlier, t1), name, later, t2);
    law_last_write_wins(s, name, earlier, t1, later, t2);
    law_type_lookup(put_spec(put_spec(s, name, earlier, t1), name, later, t2), name);
}

/// A type name that a path can hold as one segment as it is: not empty,
/// with no `/` and no `~`.
pub open spec fn plain_name(name: Seq<char>) -> bool {
    name.len() > 0 && forall|i: int| 0 <= i < name.len() ==> name[i] != '/' && name[i] != '~'
}

proof fn lemma_pieces_plain(a: Seq<char>, b: Seq<char>, cur: Seq<char>, slash: bool)
    requires
        forall|i: int| 0 <= i < a.len() ==> a[i] != '/',
    ensures
        slash ==> pieces_from(a + seq!['/'] + b, cur) == seq![cur + a] + pieces_from(b, seq![]),
        !slash ==> pieces_from(a, cur) == seq![cur + a],
    decreases a.len(),
{
    if a.len() == 0 {
        assert(cur + a =~= cur);
        if slash {
            let p = a + seq!['/'] + b;
            assert(p[0] == '/');
            assert(p.drop_first() =~= b);
        }
    } else {
        let rest = a.drop_first();
        lemma_pieces_plain(rest, b, cur.push(a[0]), slash);
        assert(cur.push(a[0]) + rest =~= cur + a);
        if slash {
            let p = a + seq!['/'] + b;
            assert(p[0] == a[0]);
            assert(p.drop_first() =~= rest + seq!['/'] + b);
        } else {
            assert(a[0] == a[0]);
        }
    }
}

proof fn lemma_replace_plain(s: Seq<char>, b: char, to: char)
    requires
        forall|i: int| 0 <= i < s.len() ==> s[i] != '~',
    ensures
        replace_escape(s, b, to) == s,
    decreases s.len(),
{
    if s.len() >= 2 {
        lemma_replace_plain(s.drop_first(), b, to);
        assert(seq![s[0]] + s.drop_first() =~= s);
    }
}

proof fn lemma_unescape_plain(s: Seq<char>)
    requires
        forall|i: int| 0 <= i < s.len() ==> s[i] != '~',
    ensures
        unescape(s) == s,
{
    lemma_replace_plain(s, '1', '/');
    lemma_replace_plain(s, '0', '~');
}

/// The path `/mavlink/<name>` has the segments `mavlink` and `name`.
pub proof fn lemma_type_path(name: Seq<char>)
    requires
        plain_name(name),
    ensures
        path_segments("/mavlink/"@ + name) == Some(seq![root_key(), name]),
{
    reveal_strlit("/mavlink/");
    reveal_strlit("mavlink");
    let m = "mavlink"@;
    let p = "/mavlink/"@ + name;
    assert(p[0] == '/');
    assert(p.len() > 1);
    assert(p != seq!['/']) by {
        if p == seq!['/'] {
            assert(p.len() == 1);
        }
    }
    assert(p.drop_first() =~= m + seq!['/'] + name);
    lemma_pieces_plain(m, name, seq![], true);
    lemma_pieces_plain(name, seq![], seq![], false);
    assert(Seq::<char>::empty() + m =~= m);
    assert(Seq::<char>::empty() + name =~= name);
    let pieces = pieces_from(p.drop_first(), seq![]);
    assert(pieces =~= seq![m, name]);
    lemma_unescape_plain(m);
    lemma_unescape_plain(name);
    assert(pieces.map_values(|x: Seq<char>| unescape(x)) =~= seq![root_key(), name]);
}

/// A query of `/mavlink/<name>` after two `put`s of that type gives the
/// second payload with the statistics of both arrivals.
pub proof fn law_served_last_write(s: Seq<EntryModel>, name: Seq<char>, earlier: Json, t1: u64, later: Json, t2: u64)
    requires
        unique_names(s),
        plain_name(name),
    ensures
        resolve_path(tree(put_spec(put_spec(s, name, earlier, t1), name, later, t2)), "/mavlink/"@ + name)
            == Some(with_info(later, updated(updated(prior_block(s, name), t1), t2))),
{
    lemma_type_path(name);
    law_snapshot_shows_last_write(s, name, earlier, t1, later, t2);
}

/// Resolving along `a + b` is resolving along `a`, then along `b`.
proof fn lemma_resolve_concat(v: Json, a: Seq<Seq<char>>, b: Seq<Seq<char>>)
    ensures
        resolve_segments(v, a + b) == match resolve_segments(v, a) {
            Some(c) => resolve_segments(c, b),
            None => None,
        },
    decreases a.len(),
{
    if a.len() == 0 {
        assert(a + b =~= b);
    } else {
        assert((a + b)[0] == a[0]);
        assert((a + b).drop_first() =~= a.drop_first() + b);
        match child(v, a[0]) {
            Some(c) => lemma_resolve_concat(c, a.drop_first(), b),
            None => {},
        }
    }
}

/// The path of a type's frequency.
pub open spec fn frequency_path(name: Seq<char>) -> Seq<char> {
    "/mavlink/"@ + name + "/message_information/frequency"@
}

proof fn lemma_frequency_path(name: Seq<char>)
    requires
        plain_name(name),
    ensures
        path_segments(frequency_path(name)) == Some(seq![root_key(), name, info_key(), frequency_key()]),
{
    reveal_strlit("/mavlink/");
    reveal_strlit("/message_information/frequency");
    reveal_strlit("mavlink");
    reveal_strlit("message_information");
    reveal_strlit("frequency");
    let m = "mavlink"@;
    let mi = "message_information"@;
    let fr = "frequency"@;
    let p = frequency_path(name);
    assert(p[0] == '/');
    assert(p != seq!['/']) by {
        if p == seq!['/'] {
            assert(p.len() == 1);
        }
    }
    let b2 = mi + seq!['/'] + fr;
    let b1 = name + seq!['/'] + b2;
    assert(p.drop_first() =~= m + seq!['/'] + b1);
    lemma_pieces_plain(m, b1, seq![], true);
    lemma_pieces_plain(name, b2, seq![], true);
    lemma_pieces_plain(mi, fr, seq![], true);
    lemma_pieces_plain(fr, seq![], seq![], false);
    assert(Seq::<char>::empty() + m =~= m);
    assert(Seq::<char>::empty() + name =~= name);
    assert(Seq::<char>::empty() + mi =~= mi);
    assert(Seq::<char>::empty() + fr =~= fr);
    let pieces = pieces_from(p.drop_first(), seq![]);
    assert(pieces =~= seq![m, name, mi, fr]);
    lemma_unescape_plain(m);
    lemma_unescape_plain(name);
    lemma_unescape_plain(mi);
    lemma_unescape_plain(fr);
    assert(pieces.map_values(|x: Seq<char>| unescape(x)) =~= seq![root_key(), name, info_key(), frequency_key()]);
}

/// A query of a type's frequency path gives its rate as hertz with six
/// places, where its latest payload is an object.
pub proof fn law_served_frequency(s: Seq<EntryModel>, name: Seq<char>)
    requires
        unique_names(s),
        plain_name(name),
        entry_of(s, name) is Some,
        entry_of(s, name).unwrap().0 is Object,
    ensures
        resolve_path(tree(s), frequency_path(name))
            == Some(Json::Number(millionths_text(entry_of(s, name).unwrap().1.rate as nat))),
{
    let (p, b) = entry_of(s, name).unwrap();
    lemma_frequency_path(name);
    law_type_lookup(s, name);
    let segs = seq![root_key(), name, info_key(), frequency_key()];
    assert(segs =~= seq![root_key(), name] + seq![info_key(), frequency_key()]);
    lemma_resolve_concat(tree(s), seq![root_key(), name], seq![info_key(), frequency_key()]);
    let w = with_info(p, b);
    lemma_member_after_set(p->Object_0, info_key(), info_json(b));
    assert(child(w, info_key()) == Some(info_json(b)));
    reveal_strlit("counter");
    reveal_strlit("frequency");
    let im = info_json(b)->Object_0;
    assert(counter_key() != frequency_key()) by {
        assert(counter_key().len() != frequency_key().len());
    }
    assert(is_first_member(im, frequency_key(), 1));
    let k = choose|k: int| is_first_member(im, frequency_key(), k);
    lemma_first_member_unique(im, frequency_key(), 1, k);
    let rest = seq![info_key(), frequency_key()];
    assert(rest.drop_first() =~= seq![frequency_key()]);
    assert(seq![frequency_key()].drop_first() =~= Seq::<Seq<char>>::empty());
    let num = Json::Number(millionths_text(b.rate as nat));
    assert(im[1] == (frequency_key(), num));
    assert(child(info_json(b), frequency_key()) == Some(num));
    assert(resolve_segments(num, Seq::<Seq<char>>::empty()) == Some(num));
    assert(resolve_segments(info_json(b), seq![frequency_key()]) == Some(num));
    assert(resolve_segments(w, rest) == Some(num));
    assert(resolve_segments(tree(s), seq![root_key(), name]) == Some(w));
    assert(resolve_segments(tree(s), segs) == Some(num));
}

/// Served at a new type's frequency path: `0.000000` after its first
/// arrival, and after a second one, a positive time later, exactly the
/// instant rate of that interval.
pub proof fn law_served_first_frequencies(
    s: Seq<EntryModel>,
    name: Seq<char>,
    earlier: Json,
    t1: u64,
    later: Json,
    t2: u64,
)
    requires
        unique_names(s),
        plain_name(name),
        !has_entry(s, name),
        earlier is Object,
        later is Object,
        t2 > t1,
    ensures
        resolve_path(tree(put_spec(s, name, earlier, t1)), frequency_path(name))
            == Some(Json::Number(millionths_text(0))),
        resolve_path(tree(put_spec(put_spec(s, name, earlier, t1), name, later, t2)), frequency_path(name))
            == Some(Json::Number(millionths_text(instant_rate((t2 - t1) as nat)))),
{
    let s1 = put_spec(s, name, earlier, t1);
    let s2 = put_spec(s1, name, later, t2);
    law_put_writes_one_pair(s, name, earlier, t1);
    law_put_writes_one_pair(s1, name, later, t2);
    law_first_frequencies(s, name, earlier, t1, later, t2);
    law_served_frequency(s1, name);
    law_served_frequency(s2, name);
}

} // verus!
