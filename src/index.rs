//! The in-memory index of the log-structured engine.
//!
//! The index maps each live key to the place in the active log file where its
//! latest `Put` record stands. It does no I/O itself: the caller appends the
//! bytes of a command to the log and then records the command here, reads the
//! bytes at a pointer that the index hands out, and copies the live records
//! into a fresh file when the index asks for a compaction. The index keeps, as
//! ghost state, the commands that the active log holds, and every operation is
//! stated against them.

use vstd::prelude::*;
use vstd::bytes::*;
use vstd::slice::*;
use vstd::utf8::*;

use crate::codec::{str_fits, Decoded, Parse};
use crate::error::KvsError;
use crate::record::{
    command_bytes, command_fits, lemma_command_parse_exact, lemma_command_prefix_incomplete,
    lemma_command_round_trip, parse_command, Command, CommandView,
};

verus! {

/// The log length past which the engine compacts the log after a write.
pub const COMPACTION_THRESHOLD: u64 = 1048576;

/// The place of one record in the log: its first byte and its byte count.
#[derive(Clone, Copy, Debug, PartialEq, Eq, Structural)]
pub struct LogPointer {
    pub offset: u64,
    pub len: u64,
}

/// The bytes of a sequence of commands, one after another.
pub open spec fn log_bytes(rs: Seq<CommandView>) -> Seq<u8>
    decreases rs.len(),
{
    if rs.len() == 0 {
        Seq::empty()
    } else {
        command_bytes(rs[0]) + log_bytes(rs.drop_first())
    }
}

/// The key that a command is about.
pub open spec fn key_of(c: CommandView) -> Seq<char> {
    match c {
        CommandView::Put { key, .. } => key,
        CommandView::Remove { key } => key,
    }
}

/// The mapping that applying the commands in order leaves.
pub open spec fn replay(rs: Seq<CommandView>) -> Map<Seq<char>, Seq<char>>
    decreases rs.len(),
{
    if rs.len() == 0 {
        Map::empty()
    } else {
        let m = replay(rs.drop_last());
        match rs.last() {
            CommandView::Put { key, value } => m.insert(key, value),
            CommandView::Remove { key } => m.remove(key),
        }
    }
}

/// What a scan of a log from its start finds.
pub struct LogScan {
    /// The commands read, in order.
    pub records: Seq<CommandView>,
    /// The byte count of the part that was read.
    pub end: nat,
    /// Whether the scan stopped at bytes that can never be a record.
    pub corrupt: bool,
}

/// Scans a log from its start: commands are read while they parse; a record
/// cut short by the end of the bytes ends the scan (a torn last write); bytes
/// that can never be a record make the log corrupt.
pub open spec fn parse_log(b: Seq<u8>) -> LogScan
    decreases b.len(),
{
    match parse_command(b) {
        Parse::Done(c, n) => if 0 < n <= b.len() {
            let rest = parse_log(b.skip(n as int));
            LogScan { records: seq![c] + rest.records, end: n + rest.end, corrupt: rest.corrupt }
        } else {
            LogScan { records: Seq::empty(), end: 0, corrupt: true }
        },
        Parse::Incomplete => LogScan { records: Seq::empty(), end: 0, corrupt: false },
        Parse::Invalid => LogScan { records: Seq::empty(), end: 0, corrupt: true },
    }
}

/// The record that `p` designates in `log` is the encoding of `c`.
pub open spec fn points_to(log: Seq<u8>, p: LogPointer, c: CommandView) -> bool {
    &&& p.offset + p.len <= log.len()
    &&& log.subrange(p.offset as int, p.offset + p.len) == command_bytes(c)
}

/// The bytes that the records at `ps` of `log` make, in that order.
pub open spec fn gather(log: Seq<u8>, ps: Seq<LogPointer>) -> Seq<u8>
    decreases ps.len(),
{
    if ps.len() == 0 {
        Seq::empty()
    } else {
        log.subrange(ps[0].offset as int, ps[0].offset + ps[0].len) + gather(log, ps.drop_first())
    }
}

/// One `Put` record for each of `keys`, with its value in `m`.
pub open spec fn put_records(keys: Seq<Seq<char>>, m: Map<Seq<char>, Seq<char>>) -> Seq<
    CommandView,
> {
    keys.map_values(|k: Seq<char>| CommandView::Put { key: k, value: m[k] })
}

pub proof fn lemma_log_bytes_push(rs: Seq<CommandView>, c: CommandView)
    ensures
        log_bytes(rs.push(c)) == log_bytes(rs) + command_bytes(c),
    decreases rs.len(),
{
    if rs.len() == 0 {
        assert(rs.push(c).drop_first() == rs);
    } else {
        assert(rs.push(c).drop_first() == rs.drop_first().push(c));
        lemma_log_bytes_push(rs.drop_first(), c);
    }
}

/// Bytes that do not read as exactly one `Put` of `k` are the encoding of no
/// such record.
proof fn lemma_no_put_record(k: Seq<char>, b: Seq<u8>)
    requires
        !(parse_command(b) matches Parse::Done(CommandView::Put { key, .. }, n) && key == k && n
            == b.len()),
    ensures
        forall|v: Seq<char>|
            command_fits(CommandView::Put { key: k, value: v }) ==> b != #[trigger] command_bytes(CommandView::Put { key: k, value: v }),
{
    assert forall|v: Seq<char>|
        command_fits(CommandView::Put { key: k, value: v }) implies b != #[trigger] command_bytes(CommandView::Put { key: k, value: v }) by {
        if b == command_bytes(CommandView::Put { key: k, value: v }) {
            lemma_command_round_trip(CommandView::Put { key: k, value: v }, Seq::empty());
            assert(b + Seq::<u8>::empty() == b);
        }
    }
}

/// The sum of the byte counts of the records at `ps`.
pub open spec fn sum_lens(ps: Seq<LogPointer>) -> nat
    decreases ps.len(),
{
    if ps.len() == 0 {
        0
    } else {
        sum_lens(ps.drop_last()) + ps.last().len as nat
    }
}

proof fn lemma_sum_lens_update(ps: Seq<LogPointer>, i: int, p: LogPointer)
    requires
        0 <= i < ps.len(),
    ensures
        sum_lens(ps.update(i, p)) == sum_lens(ps) - ps[i].len + p.len,
    decreases ps.len(),
{
    if i < ps.len() - 1 {
        assert(ps.update(i, p).drop_last() == ps.drop_last().update(i, p));
        lemma_sum_lens_update(ps.drop_last(), i, p);
    } else {
        assert(ps.update(i, p).drop_last() == ps.drop_last());
    }
}

proof fn lemma_sum_lens_remove(ps: Seq<LogPointer>, i: int)
    requires
        0 <= i < ps.len(),
    ensures
        sum_lens(ps.remove(i)) == sum_lens(ps) - ps[i].len,
        ps[i].len <= sum_lens(ps),
    decreases ps.len(),
{
    if i < ps.len() - 1 {
        assert(ps.remove(i).drop_last() == ps.drop_last().remove(i));
        assert(ps.remove(i).last() == ps.last());
        lemma_sum_lens_remove(ps.drop_last(), i);
    } else {
        assert(ps.remove(i) == ps.drop_last());
    }
}

proof fn lemma_sum_lens_take(ps: Seq<LogPointer>, i: int)
    requires
        0 <= i <= ps.len(),
    ensures
        sum_lens(ps.take(i)) <= sum_lens(ps),
        i < ps.len() ==> sum_lens(ps.take(i + 1)) == sum_lens(ps.take(i)) + ps[i].len,
    decreases ps.len(),
{
    if i < ps.len() {
        assert(ps.take(i + 1).drop_last() == ps.take(i));
        assert(ps.drop_last().take(i) == ps.take(i));
        lemma_sum_lens_take(ps.drop_last(), i);
    } else {
        assert(ps.take(i) == ps);
    }
}

proof fn lemma_sum_lens_same(a: Seq<LogPointer>, b: Seq<LogPointer>)
    requires
        a.len() == b.len(),
        forall|i: int| 0 <= i < a.len() ==> a[i].len == b[i].len,
    ensures
        sum_lens(a) == sum_lens(b),
    decreases a.len(),
{
    if a.len() > 0 {
        lemma_sum_lens_same(a.drop_last(), b.drop_last());
    }
}

pub proof fn lemma_log_bytes_concat(a: Seq<CommandView>, b: Seq<CommandView>)
    ensures
        log_bytes(a + b) == log_bytes(a) + log_bytes(b),
    decreases a.len(),
{
    if a.len() == 0 {
        assert(a + b == b);
    } else {
        assert((a + b).drop_first() == a.drop_first() + b);
        lemma_log_bytes_concat(a.drop_first(), b);
    }
}

proof fn lemma_gather(log: Seq<u8>, ps: Seq<LogPointer>, rs: Seq<CommandView>)
    requires
        ps.len() == rs.len(),
        forall|i: int| 0 <= i < ps.len() ==> points_to(log, #[trigger] ps[i], rs[i]),
    ensures
        gather(log, ps) == log_bytes(rs),
    decreases ps.len(),
{
    if ps.len() > 0 {
        assert(points_to(log, ps[0], rs[0]));
        assert forall|i: int| 0 <= i < ps.drop_first().len() implies points_to(
            log,
            #[trigger] ps.drop_first()[i],
            rs.drop_first()[i],
        ) by {
            assert(points_to(log, ps[i + 1], rs[i + 1]));
        }
        lemma_gather(log, ps.drop_first(), rs.drop_first());
    }
}

proof fn lemma_replay_put_records(ks: Seq<Seq<char>>, m: Map<Seq<char>, Seq<char>>)
    requires
        forall|i: int| 0 <= i < ks.len() ==> m.contains_key(#[trigger] ks[i]),
    ensures
        replay(put_records(ks, m)) == m.restrict(ks.to_set()),
    decreases ks.len(),
{
    if ks.len() == 0 {
        assert(m.restrict(ks.to_set()) == Map::<Seq<char>, Seq<char>>::empty());
    } else {
        let prs = put_records(ks, m);
        assert(prs.drop_last() == put_records(ks.drop_last(), m));
        lemma_replay_put_records(ks.drop_last(), m);
        assert forall|x: Seq<char>|
            ks.to_set().contains(x) <==> ks.drop_last().to_set().insert(ks.last()).contains(x) by {
            if ks.contains(x) && x != ks.last() {
                let i = choose|i: int| 0 <= i < ks.len() && ks[i] == x;
                assert(ks.drop_last()[i] == x);
            }
            if ks.drop_last().contains(x) {
                let i = choose|i: int| 0 <= i < ks.drop_last().len() && ks.drop_last()[i] == x;
                assert(ks[i] == x);
            }
            if x == ks.last() {
                assert(ks[ks.len() - 1] == x);
            }
        }
        assert(ks.to_set() == ks.drop_last().to_set().insert(ks.last()));
        assert(m.contains_key(ks[ks.len() - 1]));
        assert(replay(prs) == m.restrict(ks.to_set()));
    }
}

/// The last command about `k` in `rs`, if any.
pub open spec fn last_command_for(rs: Seq<CommandView>, k: Seq<char>) -> Option<CommandView>
    decreases rs.len(),
{
    if rs.len() == 0 {
        None
    } else if key_of(rs.last()) == k {
        Some(rs.last())
    } else {
        last_command_for(rs.drop_last(), k)
    }
}

/// The byte count of one `Put` record for each of `keys`, with its value in
/// `m`.
pub open spec fn records_size(keys: Seq<Seq<char>>, m: Map<Seq<char>, Seq<char>>) -> nat
    decreases keys.len(),
{
    if keys.len() == 0 {
        0
    } else {
        command_bytes(CommandView::Put { key: keys[0], value: m[keys[0]] }).len()
            + records_size(keys.drop_first(), m)
    }
}

/// Last write wins: after any sequence of commands, a key is live exactly
/// when the last command about it is a `Put`, and its value is that `Put`'s
/// value; a key with no command, or whose last command is a `Remove`, is not
/// live.
pub proof fn lemma_last_write_wins(rs: Seq<CommandView>, k: Seq<char>)
    ensures
        replay(rs).contains_key(k) <==> last_command_for(rs, k) matches Some(
            CommandView::Put { .. },
        ),
        replay(rs).contains_key(k) ==> last_command_for(rs, k) == Some(
            CommandView::Put { key: k, value: replay(rs)[k] },
        ),
    decreases rs.len(),
{
    if rs.len() > 0 {
        lemma_last_write_wins(rs.drop_last(), k);
    }
}

/// Scanning whole records followed by `t` reads the records, then scans `t`.
proof fn lemma_parse_log_bytes(rs: Seq<CommandView>, t: Seq<u8>)
    requires
        forall|i: int| 0 <= i < rs.len() ==> command_fits(#[trigger] rs[i]),
    ensures
        parse_log(log_bytes(rs) + t) == (LogScan {
            records: rs + parse_log(t).records,
            end: log_bytes(rs).len() + parse_log(t).end,
            corrupt: parse_log(t).corrupt,
        }),
    decreases rs.len(),
{
    let b = log_bytes(rs) + t;
    if rs.len() == 0 {
        assert(rs == Seq::<CommandView>::empty());
        assert(b == t);
        assert(rs + parse_log(t).records == parse_log(t).records);
    } else {
        let tail = rs.drop_first();
        assert forall|i: int| 0 <= i < tail.len() implies command_fits(#[trigger] tail[i]) by {
            assert(command_fits(rs[i + 1]));
        }
        assert(command_fits(rs[0]));
        assert(b == command_bytes(rs[0]) + (log_bytes(tail) + t));
        lemma_command_round_trip(rs[0], log_bytes(tail) + t);
        let n = command_bytes(rs[0]).len();
        assert(n > 0) by {
            match rs[0] {
                CommandView::Put { key, value } => {
                    assert(command_bytes(rs[0])[0] == crate::record::PUT_TAG);
                },
                CommandView::Remove { key } => {
                    assert(command_bytes(rs[0])[0] == crate::record::REMOVE_TAG);
                },
            }
        }
        assert(parse_command(b) == Parse::Done(rs[0], n));
        assert(b.skip(n as int) == log_bytes(tail) + t);
        lemma_parse_log_bytes(tail, t);
        assert(seq![rs[0]] + tail == rs);
        assert(seq![rs[0]] + (tail + parse_log(t).records) == rs + parse_log(t).records);
    }
}

/// Reopening a store reads its log back exactly: the scan finds every
/// command, in order, up to the end of the log, with no corruption, so the
/// rebuilt index has the same live keys and values as the one that wrote
/// the log.
pub proof fn lemma_reopen(ix: LogIndex)
    requires
        ix.wf(),
    ensures
        parse_log(ix.log()) == (LogScan {
            records: ix.records(),
            end: ix.log().len(),
            corrupt: false,
        }),
        replay(parse_log(ix.log()).records) == ix.model(),
{
    ix.lemma_records_fit();
    lemma_parse_log_bytes(ix.records(), Seq::empty());
    assert(ix.log() + Seq::<u8>::empty() == ix.log());
    assert(ix.records() + Seq::<CommandView>::empty() == ix.records());
}

/// A write cut short by a crash is dropped on reopening, and nothing before
/// it is lost: if the log ends with the first `k` bytes of a record, for any
/// `k` short of the whole record, the scan reads exactly the commands before
/// it and stops where it starts.
pub proof fn lemma_torn_write_dropped(ix: LogIndex, c: CommandView, k: int)
    requires
        ix.wf(),
        command_fits(c),
        0 <= k < command_bytes(c).len(),
    ensures
        parse_log(ix.log() + command_bytes(c).take(k)) == (LogScan {
            records: ix.records(),
            end: ix.log().len(),
            corrupt: false,
        }),
{
    ix.lemma_records_fit();
    let t = command_bytes(c).take(k);
    lemma_command_prefix_incomplete(c, k);
    lemma_parse_log_bytes(ix.records(), t);
    assert(ix.records() + Seq::<CommandView>::empty() == ix.records());
}

/// The live keys of an index, as `keys()` lists them, are each listed once
/// and are exactly the keys of the model.
pub proof fn lemma_keys_are_live(ix: LogIndex)
    requires
        ix.wf(),
    ensures
        ix.keys().no_duplicates(),
        ix.keys().to_set() == ix.model().dom(),
{
    assert(ix.keys().to_set() == ix.model().dom());
}

/// After a compaction, the log is one `Put` record per live key: its byte
/// count is the sum, over the live keys, of the size of one `Put` record of
/// the key and its value.
pub proof fn lemma_compacted_size(ix: LogIndex)
    requires
        ix.wf(),
        ix.records() == put_records(ix.keys(), ix.model()),
    ensures
        ix.log().len() == records_size(ix.keys(), ix.model()),
{
    lemma_put_records_size(ix.keys(), ix.model());
}

proof fn lemma_put_records_size(ks: Seq<Seq<char>>, m: Map<Seq<char>, Seq<char>>)
    ensures
        log_bytes(put_records(ks, m)).len() == records_size(ks, m),
    decreases ks.len(),
{
    if ks.len() > 0 {
        assert(put_records(ks, m).drop_first() == put_records(ks.drop_first(), m));
        lemma_put_records_size(ks.drop_first(), m);
    }
}

/// After a compaction, each live key has exactly one record in the log, however
/// often it was written before.
pub proof fn lemma_compacted_one_record_per_key(ix: LogIndex, k: Seq<char>)
    requires
        ix.wf(),
        ix.records() == put_records(ix.keys(), ix.model()),
        ix.model().contains_key(k),
    ensures
        exists|i: int|
            0 <= i < ix.records().len() && key_of(#[trigger] ix.records()[i]) == k && forall|j: int|
                0 <= j < ix.records().len() && key_of(#[trigger] ix.records()[j]) == k ==> j == i,
{
    lemma_keys_are_live(ix);
    let ks = ix.keys();
    assert(ks.to_set().contains(k));
    let i = choose|i: int| 0 <= i < ks.len() && ks[i] == k;
    assert(key_of(ix.records()[i]) == k);
    assert forall|j: int|
        0 <= j < ix.records().len() && key_of(#[trigger] ix.records()[j]) == k implies j == i by {
        assert(key_of(ix.records()[j]) == ks[j]);
    }
}

/// Removing is idempotent only in effect: once a remove of `k` has been
/// recorded, `k` is no longer live, so a second remove finds no key (and
/// records nothing), and the rest of the store is as before.
pub proof fn lemma_remove_twice(before: LogIndex, after: LogIndex, k: Seq<char>)
    requires
        before.wf(),
        after.wf(),
        after.records() == before.records().push(CommandView::Remove { key: k }),
    ensures
        !after.model().contains_key(k),
        after.model() == before.model().remove(k),
{
    assert(after.records().drop_last() == before.records());
}

/// The UTF-8 byte count of each of `keys` and of its value in `m`, summed.
pub open spec fn live_data(keys: Seq<Seq<char>>, m: Map<Seq<char>, Seq<char>>) -> nat
    decreases keys.len(),
{
    if keys.len() == 0 {
        0
    } else {
        encode_utf8(keys[0]).len() + encode_utf8(m[keys[0]]).len() + live_data(
            keys.drop_first(),
            m,
        )
    }
}

proof fn lemma_records_size_split(ks: Seq<Seq<char>>, m: Map<Seq<char>, Seq<char>>)
    requires
        forall|i: int| 0 <= i < ks.len() ==> str_fits(#[trigger] ks[i]) && str_fits(m[ks[i]]),
    ensures
        records_size(ks, m) == 25 * ks.len() + live_data(ks, m),
    decreases ks.len(),
{
    if ks.len() > 0 {
        assert forall|i: int| 0 <= i < ks.drop_first().len() implies str_fits(
            #[trigger] ks.drop_first()[i],
        ) && str_fits(m[ks.drop_first()[i]]) by {
            assert(ks.drop_first()[i] == ks[i + 1]);
        }
        assert(str_fits(ks[0]) && str_fits(m[ks[0]]));
        lemma_auto_spec_u64_to_from_le_bytes();
        assert(command_bytes(CommandView::Put { key: ks[0], value: m[ks[0]] }).len() == 25
            + encode_utf8(ks[0]).len() + encode_utf8(m[ks[0]]).len());
        lemma_records_size_split(ks.drop_first(), m);
    }
}

proof fn lemma_live_data_lower(ks: Seq<Seq<char>>, m: Map<Seq<char>, Seq<char>>)
    requires
        forall|i: int|
            0 <= i < ks.len() ==> encode_utf8(#[trigger] ks[i]).len() + encode_utf8(m[ks[i]]).len()
                > 25,
    ensures
        ks.len() > 0 ==> 25 * ks.len() < live_data(ks, m),
    decreases ks.len(),
{
    if ks.len() > 0 {
        assert forall|i: int| 0 <= i < ks.drop_first().len() implies encode_utf8(
            #[trigger] ks.drop_first()[i],
        ).len() + encode_utf8(m[ks.drop_first()[i]]).len() > 25 by {
            assert(ks.drop_first()[i] == ks[i + 1]);
        }
        assert(encode_utf8(ks[0]).len() + encode_utf8(m[ks[0]]).len() > 25);
        lemma_live_data_lower(ks.drop_first(), m);
    }
}

/// After a compaction, when every live key and its value take more bytes
/// together than a record header, the log is less than twice the size of
/// the live data.
pub proof fn lemma_compacted_size_bound(ix: LogIndex)
    requires
        ix.wf(),
        ix.records() == put_records(ix.keys(), ix.model()),
        ix.keys().len() > 0,
        forall|k: Seq<char>|
            #[trigger] ix.model().contains_key(k) ==> encode_utf8(k).len() + encode_utf8(
                ix.model()[k],
            ).len() > 25,
    ensures
        ix.log().len() < 2 * live_data(ix.keys(), ix.model()),
{
    let ks = ix.keys();
    let m = ix.model();
    lemma_keys_are_live(ix);
    assert forall|i: int| 0 <= i < ks.len() implies m.contains_key(#[trigger] ks[i]) by {
        assert(ks.to_set().contains(ks[i]));
    }
    lemma_compacted_size(ix);
    lemma_records_size_split(ks, m);
    lemma_live_data_lower(ks, m);
}

/// Overwriting a key and then compacting leaves exactly one record for the
/// key in the log, and it holds the last value written.
pub proof fn lemma_compaction_keeps_last_write(
    before: LogIndex,
    after: LogIndex,
    k: Seq<char>,
    v: Seq<char>,
)
    requires
        before.wf(),
        after.wf(),
        last_command_for(before.records(), k) == Some(CommandView::Put { key: k, value: v }),
        after.model() == before.model(),
        after.keys() == before.keys(),
        after.records() == put_records(before.keys(), before.model()),
    ensures
        exists|i: int|
            0 <= i < after.records().len() && after.records()[i] == (CommandView::Put {
                key: k,
                value: v,
            }) && forall|j: int|
                0 <= j < after.records().len() && key_of(#[trigger] after.records()[j]) == k ==> j
                    == i,
{
    lemma_last_write_wins(before.records(), k);
    lemma_compacted_one_record_per_key(after, k);
    let i = choose|i: int|
        0 <= i < after.records().len() && key_of(#[trigger] after.records()[i]) == k && forall|
            j: int,
        |
            0 <= j < after.records().len() && key_of(#[trigger] after.records()[j]) == k ==> j
                == i;
    assert(after.records()[i] == CommandView::Put { key: after.keys()[i], value: after.model()[after.keys()[i]] });
}

/// Where the last command about `k` stands in `rs`, or -1 if there is none.
pub open spec fn last_index_for(rs: Seq<CommandView>, k: Seq<char>) -> int
    decreases rs.len(),
{
    if rs.len() == 0 {
        -1
    } else if key_of(rs.last()) == k {
        rs.len() - 1
    } else {
        last_index_for(rs.drop_last(), k)
    }
}

/// The place, in the log that `rs` make, of the last command about `k`: its
/// offset is the byte count of the commands before it. (No place when no
/// command is about `k`.)
pub open spec fn last_pointer(rs: Seq<CommandView>, k: Seq<char>) -> LogPointer {
    let j = last_index_for(rs, k);
    if j < 0 {
        LogPointer { offset: 0, len: 0 }
    } else {
        LogPointer {
            offset: log_bytes(rs.take(j)).len() as u64,
            len: command_bytes(rs[j]).len() as u64,
        }
    }
}

/// The last command about `k` is the one at `last_index_for(rs, k)`.
pub proof fn lemma_last_index(rs: Seq<CommandView>, k: Seq<char>)
    ensures
        -1 <= last_index_for(rs, k) < rs.len(),
        last_index_for(rs, k) >= 0 ==> key_of(rs[last_index_for(rs, k)]) == k
            && last_command_for(rs, k) == Some(rs[last_index_for(rs, k)]),
        last_index_for(rs, k) < 0 ==> last_command_for(rs, k) is None,
    decreases rs.len(),
{
    if rs.len() > 0 {
        lemma_last_index(rs.drop_last(), k);
    }
}

proof fn lemma_last_index_at(rs: Seq<CommandView>, k: Seq<char>, j: int)
    requires
        0 <= j < rs.len(),
        key_of(rs[j]) == k,
        forall|i: int| j < i < rs.len() ==> key_of(#[trigger] rs[i]) != k,
    ensures
        last_index_for(rs, k) == j,
    decreases rs.len(),
{
    if j < rs.len() - 1 {
        assert(key_of(rs[rs.len() - 1]) != k);
        assert forall|i: int| j < i < rs.drop_last().len() implies key_of(
            #[trigger] rs.drop_last()[i],
        ) != k by {
            assert(rs.drop_last()[i] == rs[i]);
        }
        lemma_last_index_at(rs.drop_last(), k, j);
    }
}

/// Appending a command moves the place of its own key to the end of the
/// old log and leaves the place of every other key where it was.
pub proof fn lemma_last_pointer_push(rs: Seq<CommandView>, c: CommandView, k: Seq<char>)
    ensures
        key_of(c) == k ==> last_pointer(rs.push(c), k) == (LogPointer {
            offset: log_bytes(rs).len() as u64,
            len: command_bytes(c).len() as u64,
        }),
        key_of(c) != k ==> last_pointer(rs.push(c), k) == last_pointer(rs, k),
{
    let rc = rs.push(c);
    assert(rc.drop_last() == rs);
    lemma_last_index(rs, k);
    if key_of(c) == k {
        assert(rc.take(rs.len() as int) == rs);
    } else {
        let j = last_index_for(rs, k);
        if j >= 0 {
            assert(rc.take(j) == rs.take(j));
            assert(rc[j] == rs[j]);
        }
    }
}

/// The index that replaying `rs` in order builds: a `Put` of `k` sets `k`'s
/// pointer to the place of that record (its offset is the byte count of the
/// records before it), a `Remove` of `k` drops `k`.
pub open spec fn pointer_map(rs: Seq<CommandView>) -> Map<Seq<char>, LogPointer>
    decreases rs.len(),
{
    if rs.len() == 0 {
        Map::empty()
    } else {
        let before = rs.drop_last();
        let m = pointer_map(before);
        match rs.last() {
            CommandView::Put { key, .. } => m.insert(
                key,
                LogPointer {
                    offset: log_bytes(before).len() as u64,
                    len: command_bytes(rs.last()).len() as u64,
                },
            ),
            CommandView::Remove { key } => m.remove(key),
        }
    }
}

/// The index built by replaying the commands has the same keys as the
/// mapping they leave, and each key's pointer is the place of its last
/// command.
pub proof fn lemma_pointer_map(rs: Seq<CommandView>, k: Seq<char>)
    ensures
        pointer_map(rs).contains_key(k) <==> replay(rs).contains_key(k),
        pointer_map(rs).contains_key(k) ==> pointer_map(rs)[k] == last_pointer(rs, k),
    decreases rs.len(),
{
    if rs.len() > 0 {
        let before = rs.drop_last();
        lemma_pointer_map(before, k);
        assert(before.push(rs.last()) == rs);
        lemma_last_pointer_push(before, rs.last(), k);
    }
}

/// The in-memory index of the log-structured engine.
pub struct LogIndex {
    entries: Vec<(String, LogPointer)>,
    log_len: u64,
    live_len: u64,
    records: Ghost<Seq<CommandView>>,
}

impl LogIndex {
    /// The commands that the active log holds, oldest first.
    pub closed spec fn records(&self) -> Seq<CommandView> {
        self.records@
    }

    /// The bytes of the active log.
    pub open spec fn log(&self) -> Seq<u8> {
        log_bytes(self.records())
    }

    /// The live keys and their values.
    pub open spec fn model(&self) -> Map<Seq<char>, Seq<char>> {
        replay(self.records())
    }

    /// The live keys, each once, in the order of the index.
    pub closed spec fn keys(&self) -> Seq<Seq<char>> {
        self.entries@.map_values(|e: (String, LogPointer)| e.0@)
    }

    /// Where the record of each of `keys()` stands in the log.
    pub closed spec fn pointers(&self) -> Seq<LogPointer> {
        self.entries@.map_values(|e: (String, LogPointer)| e.1)
    }

    /// The index agrees with its log: the lengths it keeps are those of the
    /// log and of the live records, each live key is listed once, and each
    /// pointer designates the `Put` record of its key's current value.
    pub closed spec fn wf(&self) -> bool {
        &&& self.log_len == self.log().len()
        &&& self.live_len == sum_lens(self.pointers())
        &&& self.live_len <= self.log_len
        &&& forall|k: Seq<char>| #[trigger]
            self.model().contains_key(k) ==> str_fits(k) && str_fits(self.model()[k])
        &&& forall|i: int|
            0 <= i < self.records().len() ==> command_fits(#[trigger] self.records()[i])
        &&& self.keys().no_duplicates()
        &&& forall|k: Seq<char>| self.model().contains_key(k) <==> self.keys().contains(k)
        &&& forall|i: int|
            0 <= i < self.entries@.len() ==> points_to(
                self.log(),
                #[trigger] self.entries@[i].1,
                CommandView::Put { key: self.entries@[i].0@, value: self.model()[self.entries@[i].0@] },
            )
        &&& forall|i: int|
            0 <= i < self.entries@.len() ==> #[trigger] self.entries@[i].1 == last_pointer(
                self.records(),
                self.entries@[i].0@,
            )
    }

    proof fn lemma_records_fit(&self)
        requires
            self.wf(),
        ensures
            forall|i: int| 0 <= i < self.records().len() ==> command_fits(#[trigger] self.records()[i]),
    {
    }

    /// An index over an empty log.
    pub fn new() -> (r: LogIndex)
        ensures
            r.wf(),
            r.records() == Seq::<CommandView>::empty(),
    {
        let r = LogIndex {
            entries: Vec::new(),
            log_len: 0,
            live_len: 0,
            records: Ghost(Seq::empty()),
        };
        assert(r.keys() == Seq::<Seq<char>>::empty());
        r
    }

    /// Whether `key` is live.
    pub fn contains_key(&self, key: &String) -> (r: bool)
        requires
            self.wf(),
        ensures
            r == self.model().contains_key(key@),
    {
        self.find(key).is_some()
    }

    /// Where the latest record of `key` stands in the log, if `key` is live.
    pub fn lookup(&self, key: &String) -> (r: Option<LogPointer>)
        requires
            self.wf(),
        ensures
            r is Some <==> self.model().contains_key(key@),
            r is Some ==> points_to(
                self.log(),
                r->Some_0,
                CommandView::Put { key: key@, value: self.model()[key@] },
            ),
            r is Some ==> r->Some_0 == last_pointer(self.records(), key@),
            r is Some ==> r->Some_0 == pointer_map(self.records())[key@],
            r is Some ==> self.records()[last_index_for(self.records(), key@)] == (CommandView::Put {
                key: key@,
                value: self.model()[key@],
            }),
    {
        proof {
            lemma_last_write_wins(self.records(), key@);
            lemma_last_index(self.records(), key@);
            lemma_pointer_map(self.records(), key@);
        }
        match self.find(key) {
            Some(i) => Some(self.entries[i].1),
            None => None,
        }
    }

    /// The bytes to append to the log to remove `key`; `KeyNotFound`, with
    /// nothing to write, when `key` is not live.
    pub fn remove_record(&self, key: &String) -> (r: Result<Vec<u8>, KvsError>)
        requires
            self.wf(),
        ensures
            r is Ok <==> self.model().contains_key(key@),
            r is Ok ==> r->Ok_0@ == command_bytes(CommandView::Remove { key: key@ }),
            r is Err ==> r->Err_0 is KeyNotFound,
    {
        if self.contains_key(key) {
            let cmd = Command::Remove { key: key.clone() };
            Ok(cmd.encode())
        } else {
            Err(KvsError::KeyNotFound)
        }
    }

    /// The number of live keys.
    pub fn len(&self) -> (r: usize)
        requires
            self.wf(),
        ensures
            r == self.model().len(),
    {
        proof {
            lemma_keys_are_live(*self);
            self.keys().unique_seq_to_set();
        }
        self.entries.len()
    }

    /// Whether the log can take `cmd` without its length overflowing.
    pub fn can_record(&self, cmd: &Command) -> (r: bool)
        requires
            self.wf(),
        ensures
            r == (self.log().len() + command_bytes(cmd@).len() <= u64::MAX),
    {
        match cmd.encoded_len() {
            Some(n) => self.log_len.checked_add(n).is_some(),
            None => false,
        }
    }

    /// Takes note of a command whose bytes the caller has appended to the
    /// log; the result says whether the log has grown past the compaction
    /// threshold.
    #[verifier::rlimit(80)]
    pub fn record(&mut self, cmd: &Command) -> (compact: bool)
        requires
            old(self).wf(),
            old(self).log().len() + command_bytes(cmd@).len() <= u64::MAX,
        ensures
            final(self).wf(),
            final(self).records() == old(self).records().push(cmd@),
            cmd@ is Put ==> last_pointer(final(self).records(), key_of(cmd@)) == (LogPointer {
                offset: old(self).log().len() as u64,
                len: command_bytes(cmd@).len() as u64,
            }),
            forall|k: Seq<char>|
                k != key_of(cmd@) ==> #[trigger] last_pointer(final(self).records(), k)
                    == last_pointer(old(self).records(), k),
            compact == (final(self).log().len() > COMPACTION_THRESHOLD),
    {
        let len = match cmd.encoded_len() {
            Some(n) => n,
            None => 0,
        };
        let offset = self.log_len;
        let ghost old_self = *self;
        let ghost old_log = self.log();
        let ghost new_records = self.records().push(cmd@);
        let ghost new_log = log_bytes(new_records);
        proof {
            lemma_log_bytes_push(self.records(), cmd@);
            assert(new_records.drop_last() == self.records());
            assert(forall|a: int, b: int|
                0 <= a <= b <= old_log.len() ==> #[trigger] new_log.subrange(a, b) == old_log.subrange(a, b));
            assert(new_log.subrange(offset as int, offset + len) == command_bytes(cmd@));
        }
        self.log_len = offset + len;
        self.records = Ghost(new_records);
        proof {
            assert forall|i: int| 0 <= i < self.records().len() implies command_fits(
                #[trigger] self.records()[i],
            ) by {
                if i < old_self.records().len() {
                    assert(self.records()[i] == old_self.records()[i]);
                }
            }
        }
        match cmd {
            Command::Put { key, value } => {
                let p = LogPointer { offset, len };
                let ghost m = old_self.model();
                proof {
                    assert(self.model() == m.insert(key@, value@));
                }
                match self.find(key) {
                    Some(i) => {
                        proof {
                            lemma_sum_lens_remove(old_self.pointers(), i as int);
                            lemma_sum_lens_update(old_self.pointers(), i as int, p);
                            assert(old_self.pointers()[i as int] == self.entries@[i as int].1);
                        }
                        self.live_len = self.live_len - self.entries[i].1.len + len;
                        self.entries.set(i, (key.clone(), p));
                        proof {
                            assert(self.pointers() == old_self.pointers().update(i as int, p));
                            assert(self.keys() == old_self.keys().update(i as int, key@));
                            assert(old_self.keys()[i as int] == key@);
                            assert(self.keys() == old_self.keys());
                            assert forall|j: int| 0 <= j < self.entries@.len() implies points_to(
                                self.log(),
                                #[trigger] self.entries@[j].1,
                                CommandView::Put {
                                    key: self.entries@[j].0@,
                                    value: self.model()[self.entries@[j].0@],
                                },
                            ) by {
                                if j != i {
                                    assert(self.entries@[j] == old_self.entries@[j]);
                                    assert(old_self.keys()[j] != old_self.keys()[i as int]);
                                    let pj = self.entries@[j].1;
                                    assert(new_log.subrange(pj.offset as int, pj.offset + pj.len)
                                        == old_log.subrange(pj.offset as int, pj.offset + pj.len));
                                }
                            }
                        }
                        proof {
                            assert forall|j: int| 0 <= j < self.entries@.len() implies #[trigger] self.entries@[j].1
                                == last_pointer(self.records(), self.entries@[j].0@) by {
                                lemma_last_pointer_push(old_self.records(), cmd@, self.entries@[j].0@);
                                if j != i {
                                    assert(self.entries@[j] == old_self.entries@[j]);
                                    assert(old_self.keys()[j] != old_self.keys()[i as int]);
                                    assert(old_self.keys()[j] == self.entries@[j].0@);
                                }
                            }
                        }
                    },
                    None => {
                        self.live_len = self.live_len + len;
                        self.entries.push((key.clone(), p));
                        proof {
                            assert(self.pointers() == old_self.pointers().push(p));
                            assert(self.pointers().drop_last() == old_self.pointers());
                            assert(self.keys() == old_self.keys().push(key@));
                            assert forall|k: Seq<char>|
                                self.model().contains_key(k) <==> self.keys().contains(k) by {
                                if k == key@ {
                                    assert(self.keys()[old_self.keys().len() as int] == key@);
                                } else if old_self.keys().contains(k) {
                                    let j = choose|j: int|
                                        0 <= j < old_self.keys().len() && old_self.keys()[j] == k;
                                    assert(self.keys()[j] == k);
                                } else if self.keys().contains(k) {
                                    let j = choose|j: int|
                                        0 <= j < self.keys().len() && self.keys()[j] == k;
                                    assert(old_self.keys()[j] == k);
                                }
                            }
                            assert forall|j: int| 0 <= j < self.entries@.len() implies points_to(
                                self.log(),
                                #[trigger] self.entries@[j].1,
                                CommandView::Put {
                                    key: self.entries@[j].0@,
                                    value: self.model()[self.entries@[j].0@],
                                },
                            ) by {
                                if j < old_self.entries@.len() {
                                    assert(self.entries@[j] == old_self.entries@[j]);
                                    assert(old_self.keys()[j] == self.entries@[j].0@);
                                    let pj = self.entries@[j].1;
                                    assert(new_log.subrange(pj.offset as int, pj.offset + pj.len)
                                        == old_log.subrange(pj.offset as int, pj.offset + pj.len));
                                }
                            }
                        }
                        proof {
                            assert forall|j: int| 0 <= j < self.entries@.len() implies #[trigger] self.entries@[j].1
                                == last_pointer(self.records(), self.entries@[j].0@) by {
                                lemma_last_pointer_push(old_self.records(), cmd@, self.entries@[j].0@);
                                if j < old_self.entries@.len() {
                                    assert(self.entries@[j] == old_self.entries@[j]);
                                    assert(old_self.keys()[j] == self.entries@[j].0@);
                                }
                            }
                        }
                    },
                }
            },
            Command::Remove { key } => {
                let ghost m = old_self.model();
                proof {
                    assert(self.model() == m.remove(key@));
                }
                match self.find(key) {
                    Some(i) => {
                        proof {
                            lemma_sum_lens_remove(old_self.pointers(), i as int);
                            assert(old_self.pointers()[i as int] == self.entries@[i as int].1);
                        }
                        self.live_len = self.live_len - self.entries[i].1.len;
                        self.entries.remove(i);
                        proof {
                            assert(self.pointers() == old_self.pointers().remove(i as int));
                            let ok = old_self.keys();
                            assert(ok[i as int] == key@);
                            assert(self.keys() == ok.remove(i as int));
                            assert forall|k: Seq<char>|
                                self.model().contains_key(k) <==> self.keys().contains(k) by {
                                if k == key@ {
                                    if self.keys().contains(k) {
                                        let j = choose|j: int|
                                            0 <= j < self.keys().len() && self.keys()[j] == k;
                                        if j < i {
                                            assert(ok[j] == k);
                                        } else {
                                            assert(ok[j + 1] == k);
                                        }
                                    }
                                } else if ok.contains(k) {
                                    let j = choose|j: int| 0 <= j < ok.len() && ok[j] == k;
                                    if j < i {
                                        assert(self.keys()[j] == k);
                                    } else {
                                        assert(j != i);
                                        assert(self.keys()[j - 1] == k);
                                    }
                                } else if self.keys().contains(k) {
                                    let j = choose|j: int|
                                        0 <= j < self.keys().len() && self.keys()[j] == k;
                                    if j < i {
                                        assert(ok[j] == k);
                                    } else {
                                        assert(ok[j + 1] == k);
                                    }
                                }
                            }
                            assert forall|j: int| 0 <= j < self.entries@.len() implies points_to(
                                self.log(),
                                #[trigger] self.entries@[j].1,
                                CommandView::Put {
                                    key: self.entries@[j].0@,
                                    value: self.model()[self.entries@[j].0@],
                                },
                            ) by {
                                let oj = if j < i {
                                    j
                                } else {
                                    j + 1
                                };
                                assert(self.entries@[j] == old_self.entries@[oj]);
                                assert(ok[oj] != ok[i as int]);
                                assert(ok[oj] == self.entries@[j].0@);
                                let pj = self.entries@[j].1;
                                assert(new_log.subrange(pj.offset as int, pj.offset + pj.len)
                                    == old_log.subrange(pj.offset as int, pj.offset + pj.len));
                            }
                        }
                        proof {
                            assert forall|j: int| 0 <= j < self.entries@.len() implies #[trigger] self.entries@[j].1
                                == last_pointer(self.records(), self.entries@[j].0@) by {
                                lemma_last_pointer_push(old_self.records(), cmd@, self.entries@[j].0@);
                                let oj = if j < i {
                                    j
                                } else {
                                    j + 1
                                };
                                assert(self.entries@[j] == old_self.entries@[oj]);
                                assert(old_self.keys()[oj] != old_self.keys()[i as int]);
                                assert(old_self.keys()[oj] == self.entries@[j].0@);
                            }
                        }
                    },
                    None => {
                        proof {
                            assert forall|j: int| 0 <= j < self.entries@.len() implies points_to(
                                self.log(),
                                #[trigger] self.entries@[j].1,
                                CommandView::Put {
                                    key: self.entries@[j].0@,
                                    value: self.model()[self.entries@[j].0@],
                                },
                            ) by {
                                assert(old_self.keys()[j] == self.entries@[j].0@);
                                let pj = self.entries@[j].1;
                                assert(new_log.subrange(pj.offset as int, pj.offset + pj.len)
                                    == old_log.subrange(pj.offset as int, pj.offset + pj.len));
                            }
                        }
                        proof {
                            assert forall|j: int| 0 <= j < self.entries@.len() implies #[trigger] self.entries@[j].1
                                == last_pointer(self.records(), self.entries@[j].0@) by {
                                lemma_last_pointer_push(old_self.records(), cmd@, self.entries@[j].0@);
                                assert(old_self.keys()[j] == self.entries@[j].0@);
                                assert(old_self.entries@[j] == self.entries@[j]);
                            }
                        }
                    },
                }
            },
        }
        proof {
            assert(self.records() == new_records);
            assert forall|k: Seq<char>| k != key_of(cmd@) implies #[trigger] last_pointer(
                self.records(),
                k,
            ) == last_pointer(old_self.records(), k) by {
                lemma_last_pointer_push(old_self.records(), cmd@, k);
            }
            lemma_last_pointer_push(old_self.records(), cmd@, key_of(cmd@));
            assert forall|k: Seq<char>| #[trigger] self.model().contains_key(k) implies str_fits(k)
                && str_fits(self.model()[k]) by {
                assert(command_fits(cmd@));
                match cmd@ {
                    CommandView::Put { key, value } => {
                        assert(self.model() == old_self.model().insert(key, value));
                        if k != key {
                            assert(self.model()[k] == old_self.model()[k]);
                        }
                    },
                    CommandView::Remove { key } => {
                        assert(self.model() == old_self.model().remove(key));
                        assert(self.model()[k] == old_self.model()[k]);
                    },
                }
            }
        }
        self.log_len > COMPACTION_THRESHOLD
    }

    /// Rebuilds the index from the bytes of a log file. A record cut short
    /// at the end (a torn last write) ends the scan: the index then covers
    /// the part before it, which the caller should cut the file down to, and
    /// what is left over reads as a record cut short. Anything else that is
    /// no record, anywhere in the log, is a corruption error.
    #[verifier::rlimit(80)]
    pub fn recover(b: &[u8]) -> (r: Result<LogIndex, KvsError>)
        ensures
            r is Ok <==> !parse_log(b@).corrupt,
            r is Ok ==> {
                let ix = r->Ok_0;
                &&& ix.wf()
                &&& ix.records() == parse_log(b@).records
                &&& ix.log() == b@.subrange(0, parse_log(b@).end as int)
                &&& parse_command(b@.subrange(parse_log(b@).end as int, b@.len() as int)) is Incomplete
            },
            r is Err ==> r->Err_0 is Codec,
    {
        let mut ix = LogIndex::new();
        let mut pos: usize = 0;
        assert(b@.skip(0) == b@);
        assert(ix.records() + parse_log(b@).records == parse_log(b@).records);
        loop
            invariant
                ix.wf(),
                pos <= b@.len(),
                ix.log() == b@.subrange(0, pos as int),
                parse_log(b@) == (LogScan {
                    records: ix.records() + parse_log(b@.skip(pos as int)).records,
                    end: (pos + parse_log(b@.skip(pos as int)).end) as nat,
                    corrupt: parse_log(b@.skip(pos as int)).corrupt,
                }),
            decreases b@.len() - pos,
        {
            let rest = slice_subrange(b, pos, b.len());
            assert(rest@ == b@.skip(pos as int));
            match Command::decode(rest) {
                Decoded::Done(cmd, n) => {
                    let ghost old_records = ix.records();
                    proof {
                        lemma_command_parse_exact(rest@);
                        assert(rest@.skip(n as int) == b@.skip(pos + n));
                        assert(rest@.subrange(0, n as int) == b@.subrange(pos as int, pos + n));
                        lemma_log_bytes_push(old_records, cmd@);
                        assert(b@.subrange(0, pos + n) == b@.subrange(0, pos as int) + b@.subrange(
                            pos as int,
                            pos + n,
                        ));
                    }
                    ix.record(&cmd);
                    pos = pos + n;
                    proof {
                        let tail = parse_log(b@.skip(pos as int)).records;
                        assert(old_records.push(cmd@) + tail == old_records + (seq![cmd@] + tail));
                    }
                },
                Decoded::Incomplete => {
                    assert(ix.records() + Seq::<CommandView>::empty() == ix.records());
                    assert(b@.subrange(pos as int, b@.len() as int) == rest@);
                    return Ok(ix);
                },
                Decoded::Invalid => {
                    return Err(KvsError::Codec);
                },
            }
        }
    }

    /// The value in a record read from the log for `key`: the record must be
    /// exactly one `Put` of `key`, else it is a corruption error.
    pub fn read_value(key: &String, record: &[u8]) -> (r: Result<String, KvsError>)
        ensures
            match r {
                Ok(v) => record@ == command_bytes(CommandView::Put { key: key@, value: v@ }),
                Err(e) => e is Codec,
            },
            forall|v: Seq<char>|
                command_fits(CommandView::Put { key: key@, value: v }) && record@ == #[trigger] command_bytes(CommandView::Put { key: key@, value: v }) ==> r is Ok && r->Ok_0@ == v,
    {
        match Command::decode(record) {
            Decoded::Done(Command::Put { key: k, value }, n) => {
                if k == *key && n == record.len() {
                    proof {
                        lemma_command_parse_exact(record@);
                        assert(record@.subrange(0, n as int) == record@);
                        assert forall|v: Seq<char>|
                            command_fits(CommandView::Put { key: key@, value: v })
                                && record@ == #[trigger] command_bytes(CommandView::Put { key: key@, value: v }) implies value@ == v by {
                            lemma_command_round_trip(
                                CommandView::Put { key: key@, value: v },
                                Seq::empty(),
                            );
                            assert(record@ + Seq::<u8>::empty() == record@);
                        }
                    }
                    Ok(value)
                } else {
                    proof {
                        lemma_no_put_record(key@, record@);
                    }
                    Err(KvsError::Codec)
                }
            },
            _ => {
                proof {
                    lemma_no_put_record(key@, record@);
                }
                Err(KvsError::Codec)
            },
        }
    }

    /// The byte count of the log.
    pub fn log_len(&self) -> (r: u64)
        requires
            self.wf(),
        ensures
            r == self.log().len(),
    {
        self.log_len
    }

    /// The records to keep when the log is compacted: where the record of
    /// each live key stands, in the order of `keys()`.
    pub fn live_pointers(&self) -> (r: Vec<LogPointer>)
        requires
            self.wf(),
        ensures
            r@ == self.pointers(),
            forall|i: int|
                0 <= i < r@.len() ==> points_to(
                    self.log(),
                    #[trigger] r@[i],
                    CommandView::Put { key: self.keys()[i], value: self.model()[self.keys()[i]] },
                ),
    {
        let mut r: Vec<LogPointer> = Vec::new();
        let mut i: usize = 0;
        while i < self.entries.len()
            invariant
                i <= self.entries@.len(),
                r@ == self.pointers().take(i as int),
            decreases self.entries@.len() - i,
        {
            r.push(self.entries[i].1);
            i = i + 1;
            assert(r@ == self.pointers().take(i as int));
        }
        assert(r@ == self.pointers());
        assert forall|i: int| 0 <= i < r@.len() implies points_to(
            self.log(),
            #[trigger] r@[i],
            CommandView::Put { key: self.keys()[i], value: self.model()[self.keys()[i]] },
        ) by {
            assert(r@[i] == self.entries@[i].1);
        }
        r
    }

    /// Takes note that the caller has replaced the log file by one holding
    /// the records at `live_pointers()`, copied in that order.
    #[verifier::rlimit(80)]
    pub fn finish_compaction(&mut self)
        requires
            old(self).wf(),
        ensures
            final(self).wf(),
            final(self).model() == old(self).model(),
            final(self).keys() == old(self).keys(),
            final(self).records() == put_records(old(self).keys(), old(self).model()),
            final(self).log() == gather(old(self).log(), old(self).pointers()),
    {
        let ghost old_self = *self;
        let ghost ks = self.keys();
        let ghost m = self.model();
        let ghost ps = self.pointers();
        let ghost prs = put_records(ks, m);
        let mut off: u64 = 0;
        let mut i: usize = 0;
        while i < self.entries.len()
            invariant
                old_self.wf(),
                self.entries@.len() == old_self.entries@.len(),
                self.log_len == old_self.log_len,
                self.live_len == old_self.live_len,
                self.records == old_self.records,
                i <= self.entries@.len(),
                forall|j: int|
                    0 <= j < self.entries@.len() ==> #[trigger] self.entries@[j].0
                        == old_self.entries@[j].0,
                forall|j: int|
                    i <= j < self.entries@.len() ==> #[trigger] self.entries@[j].1
                        == old_self.entries@[j].1,
                forall|j: int|
                    0 <= j < i ==> #[trigger] self.entries@[j].1 == (LogPointer {
                        offset: log_bytes(prs.take(j)).len() as u64,
                        len: ps[j].len,
                    }),
                ps == old_self.pointers(),
                prs == put_records(old_self.keys(), old_self.model()),
                ps.len() == self.entries@.len(),
                prs.len() == self.entries@.len(),
                off == sum_lens(ps.take(i as int)),
                off == log_bytes(prs.take(i as int)).len(),
            decreases self.entries@.len() - i,
        {
            let l = self.entries[i].1.len;
            proof {
                lemma_sum_lens_take(ps, i as int);
                lemma_sum_lens_take(ps, i as int + 1);
                assert(ps[i as int] == old_self.entries@[i as int].1);
                assert(points_to(old_self.log(), ps[i as int], prs[i as int]));
                assert(prs.take(i + 1) == prs.take(i as int).push(prs[i as int]));
                lemma_log_bytes_push(prs.take(i as int), prs[i as int]);
            }
            let p = LogPointer { offset: off, len: l };
            let k = self.entries[i].0.clone();
            self.entries.set(i, (k, p));
            off = off + l;
            i = i + 1;
        }
        self.log_len = off;
        self.records = Ghost(prs);
        proof {
            assert(prs.take(ks.len() as int) == prs);
            assert(ps.take(ks.len() as int) == ps);
            assert(self.keys() == ks);
            assert forall|j: int| 0 <= j < ks.len() implies m.contains_key(#[trigger] ks[j]) by {
                assert(ks.contains(ks[j]));
            }
            lemma_replay_put_records(ks, m);
            assert(forall|k: Seq<char>| m.contains_key(k) <==> ks.to_set().contains(k));
            assert(m.restrict(ks.to_set()) == m);
            lemma_sum_lens_same(self.pointers(), ps);
            assert forall|j: int| 0 <= j < ps.len() implies points_to(
                old_self.log(),
                #[trigger] ps[j],
                prs[j],
            ) by {
                assert(ps[j] == old_self.entries@[j].1);
            }
            lemma_gather(old_self.log(), ps, prs);
            assert forall|j: int| 0 <= j < self.entries@.len() implies points_to(
                self.log(),
                #[trigger] self.entries@[j].1,
                CommandView::Put { key: self.entries@[j].0@, value: self.model()[self.entries@[j].0@] },
            ) by {
                let pre = prs.take(j);
                let post = prs.skip(j + 1);
                let mid = seq![prs[j]] + post;
                assert(prs == pre + mid);
                lemma_log_bytes_concat(pre, mid);
                assert(mid.drop_first() == post);
                assert(mid[0] == prs[j]);
                assert(log_bytes(mid) == command_bytes(prs[j]) + log_bytes(post));
                assert(ks[j] == self.entries@[j].0@);
                assert(points_to(old_self.log(), ps[j], prs[j]));
                assert(ps[j].len == command_bytes(prs[j]).len());
                assert(self.entries@[j].1 == (LogPointer {
                    offset: log_bytes(prs.take(j)).len() as u64,
                    len: ps[j].len,
                }));
                assert(prs[j] == CommandView::Put { key: ks[j], value: m[ks[j]] });
                let lg = log_bytes(prs);
                assert(lg == log_bytes(pre) + (command_bytes(prs[j]) + log_bytes(post)));
                assert(lg.subrange(log_bytes(pre).len() as int, log_bytes(pre).len() + command_bytes(prs[j]).len() as int) == command_bytes(prs[j]));
            }
            assert forall|j: int| 0 <= j < self.records().len() implies command_fits(
                #[trigger] self.records()[j],
            ) by {
                assert(m.contains_key(ks[j]));
            }
            assert forall|j: int| 0 <= j < self.entries@.len() implies #[trigger] self.entries@[j].1
                == last_pointer(self.records(), self.entries@[j].0@) by {
                assert(ks[j] == self.entries@[j].0@);
                assert forall|i: int| j < i < prs.len() implies key_of(#[trigger] prs[i]) != ks[j] by {
                    assert(key_of(prs[i]) == ks[i]);
                    assert(ks.no_duplicates());
                }
                assert(key_of(prs[j]) == ks[j]);
                lemma_last_index_at(prs, ks[j], j);
                assert(points_to(old_self.log(), ps[j], prs[j]));
                assert(self.entries@[j].1 == (LogPointer {
                    offset: log_bytes(prs.take(j)).len() as u64,
                    len: ps[j].len,
                }));
            }
        }
    }

    fn find(&self, key: &String) -> (r: Option<usize>)
        ensures
            match r {
                Some(i) => i < self.entries@.len() && self.entries@[i as int].0@ == key@,
                None => !self.keys().contains(key@),
            },
            r is Some <==> self.keys().contains(key@),
    {
        let mut i: usize = 0;
        while i < self.entries.len()
            invariant
                i <= self.entries@.len(),
                forall|j: int| 0 <= j < i ==> self.entries@[j].0@ != key@,
            decreases self.entries@.len() - i,
        {
            if self.entries[i].0 == *key {
                assert(self.keys()[i as int] == key@);
                return Some(i);
            }
            i = i + 1;
        }
        proof {
            if self.keys().contains(key@) {
                let j = choose|j: int| 0 <= j < self.keys().len() && self.keys()[j] == key@;
                assert(self.entries@[j].0@ == key@);
            }
        }
        None
    }
}

} // verus!
