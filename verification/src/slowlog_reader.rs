//! The stateful slow-log reader: watermark tracking, restart and gap
//! detection, and the exactly-once ordering of returned records.
//!
//! The reader holds no connection. The surrounding program performs the
//! two queries of one poll — the server-info text and the raw slow-log
//! batch — and hands both results to [`SlowlogReader::get`], which does
//! everything that can be wrong: parsing, decoding, restart detection,
//! gap computation, filtering, ordering and the watermark update. On
//! any error the state is left exactly as it was.

use vstd::prelude::*;

use crate::slowlog::{
    RecordModel, SlowlogRecord, decode_batch, decode_batch_spec,
};
use crate::uptime::{UptimeError, parse_uptime, parse_uptime_spec};
use crate::value::{DecodeError, RespValue};

verus! {

/// Why one poll failed. An `Io` failure is raised only by the
/// surrounding program, when a query itself fails; the reader's own
/// checks raise the two protocol kinds.
#[derive(PartialEq, Eq, Structural, Clone, Copy, Debug)]
pub enum RemoteError {
    /// The connection failed mid-operation; recover and retry.
    Io,
    /// The server-info text carries no readable uptime.
    Uptime(UptimeError),
    /// A slow-log row is structurally malformed.
    Decode(DecodeError),
}

/// Everything one successful poll produced.
#[derive(Debug)]
pub struct PollOutput {
    /// The new records, in chronological order: strictly increasing by id.
    pub records: Vec<SlowlogRecord>,
    /// Whether a server restart was detected (uptime moved backwards).
    pub restart: bool,
    /// How many records were lost between polls; zero when none were.
    pub skipped: u64,
}

/// A server restart shows as an uptime strictly below the one seen before.
pub open spec fn restart_detected(prev_uptime: u64, uptime: u64) -> bool {
    uptime < prev_uptime
}

/// The watermark a poll filters against: the stored one, or -1 when a
/// restart made every server-side record new again.
pub open spec fn effective_watermark(last_id: i64, restart: bool) -> int {
    if restart {
        -1
    } else {
        last_id as int
    }
}

/// The records of a batch that lie above the watermark, in the order
/// the server sent them (newest first).
pub open spec fn new_part(batch: Seq<RecordModel>, watermark: int) -> Seq<RecordModel> {
    batch.filter(|m: RecordModel| m.id > watermark)
}

/// What one poll returns: the new records reversed into chronological,
/// oldest-first order.
pub open spec fn new_records(batch: Seq<RecordModel>, watermark: int) -> Seq<RecordModel> {
    new_part(batch, watermark).reverse()
}

/// The watermark after a poll: the id of the newest new record, or the
/// effective watermark unchanged when nothing is new.
pub open spec fn next_watermark(batch: Seq<RecordModel>, watermark: int) -> int {
    let f = new_part(batch, watermark);
    if f.len() > 0 {
        f[0].id as int
    } else {
        watermark
    }
}

/// How many records were permanently lost between polls: the gap
/// between the watermark and the oldest record of the full fetched
/// batch (its last element, since the batch is newest-first), counted
/// only when a positive watermark exists.
pub open spec fn skipped_count(batch: Seq<RecordModel>, watermark: int) -> int {
    if batch.len() > 0 && watermark > 0 && batch.last().id > watermark + 1 {
        batch.last().id - 1 - watermark
    } else {
        0
    }
}

/// Ids strictly decrease along the sequence (the server's newest-first
/// wire order).
pub open spec fn strictly_decreasing_ids(ms: Seq<RecordModel>) -> bool {
    forall|i: int, j: int| 0 <= i < j < ms.len() ==> ms[i].id > ms[j].id
}

/// Ids strictly increase along the sequence (chronological order).
pub open spec fn strictly_increasing_ids(ms: Seq<RecordModel>) -> bool {
    forall|i: int, j: int| 0 <= i < j < ms.len() ==> ms[i].id < ms[j].id
}

proof fn lemma_filter_push(s: Seq<RecordModel>, x: RecordModel, pred: spec_fn(RecordModel) -> bool)
    ensures
        s.push(x).filter(pred) == s.filter(pred) + (if pred(x) {
            seq![x]
        } else {
            Seq::<RecordModel>::empty()
        }),
{
    reveal(Seq::filter);
    assert(s.push(x).drop_last() =~= s);
    assert(s.push(x).last() == x);
    if pred(x) {
        assert(s.filter(pred).push(x) =~= s.filter(pred) + seq![x]);
    } else {
        assert(s.filter(pred) =~= s.filter(pred) + Seq::<RecordModel>::empty());
    }
}

proof fn lemma_filter_keeps_decreasing(ms: Seq<RecordModel>, w: int)
    requires
        strictly_decreasing_ids(ms),
    ensures
        strictly_decreasing_ids(new_part(ms, w)),
    decreases ms.len(),
{
    reveal(Seq::filter);
    let pred = |m: RecordModel| m.id > w;
    if ms.len() > 0 {
        let pre = ms.drop_last();
        assert(strictly_decreasing_ids(pre)) by {
            assert(forall|i: int, j: int|
                0 <= i < j < pre.len() ==> pre[i] == ms[i] && pre[j] == ms[j]);
        }
        lemma_filter_keeps_decreasing(pre, w);
        let fp = pre.filter(pred);
        if pred(ms.last()) {
            let out = fp.push(ms.last());
            assert(ms.filter(pred) == out);
            assert forall|i: int, j: int| 0 <= i < j < out.len() implies out[i].id > out[j].id by {
                if j < fp.len() {
                    assert(out[i] == fp[i] && out[j] == fp[j]);
                } else {
                    assert(out[j] == ms.last());
                    assert(out[i] == fp[i]);
                    assert(fp.contains(fp[i]));
                    pre.lemma_filter_contains_rev(pred, fp[i]);
                    let k = choose|k: int| 0 <= k < pre.len() && pre[k] == fp[i];
                    assert(ms[k] == fp[i]);
                    assert(ms[k].id > ms[ms.len() - 1].id);
                }
            }
        }
    }
}

proof fn lemma_reverse_increasing(ms: Seq<RecordModel>)
    requires
        strictly_decreasing_ids(ms),
    ensures
        strictly_increasing_ids(ms.reverse()),
{
    let r = ms.reverse();
    assert forall|i: int, j: int| 0 <= i < j < r.len() implies r[i].id < r[j].id by {
        assert(r[i] == ms[ms.len() - 1 - i]);
        assert(r[j] == ms[ms.len() - 1 - j]);
    }
}

/// The chronological output of a poll over a newest-first batch is
/// strictly increasing by id, whatever the watermark.
pub proof fn lemma_new_records_increasing(ms: Seq<RecordModel>, w: int)
    requires
        strictly_decreasing_ids(ms),
    ensures
        strictly_increasing_ids(new_records(ms, w)),
{
    lemma_filter_keeps_decreasing(ms, w);
    lemma_reverse_increasing(new_part(ms, w));
}

/// Watermark state of the slow-log reader.
///
/// `last_id` is the identifier of the newest record returned so far,
/// or -1 when nothing has been seen yet. `uptime` is the server uptime
/// observed on the previous poll. `length` is the number of rows
/// requested from the server per poll.
#[derive(PartialEq, Eq, Structural)]
pub struct SlowlogReader {
    pub last_id: i64,
    pub length: u32,
    pub uptime: u64,
}

impl SlowlogReader {
    /// A fresh reader: nothing seen yet, 128 rows requested per poll.
    pub fn new() -> (r: SlowlogReader)
        ensures
            r.last_id == -1i64,
            r.length == 128u32,
            r.uptime == 0u64,
    {
        SlowlogReader { last_id: -1, length: 128, uptime: 0 }
    }

    /// A fresh reader that requests `length` rows per poll.
    pub fn with_length(length: u32) -> (r: SlowlogReader)
        ensures
            r.last_id == -1i64,
            r.length == length,
            r.uptime == 0u64,
    {
        SlowlogReader { last_id: -1, length, uptime: 0 }
    }

    /// One poll over the two query results: the raw server-info text
    /// and the raw slow-log batch (newest first, as the server sends
    /// it).
    ///
    /// On success the returned records are exactly the decoded batch
    /// entries above the effective watermark, reversed into oldest-first
    /// order; the watermark advances to the newest returned id; a
    /// backward uptime step resets the watermark first and is reported
    /// as `restart`; a gap between watermark and batch is reported in
    /// `skipped`. On any error the state is untouched.
    pub fn get(&mut self, info: &Vec<u8>, rows: &Vec<RespValue>) -> (r: Result<
        PollOutput,
        RemoteError,
    >)
        ensures
            ({
                let pre = *old(self);
                match r {
                    Ok(out) => {
                        &&& parse_uptime_spec(info@) is Ok
                        &&& decode_batch_spec(rows@) is Ok
                        &&& {
                            let up = parse_uptime_spec(info@)->Ok_0;
                            let models = decode_batch_spec(rows@)->Ok_0;
                            let rst = restart_detected(pre.uptime, up);
                            let eff = effective_watermark(pre.last_id, rst);
                            &&& out.restart == rst
                            &&& final(self).uptime == up
                            &&& final(self).length == pre.length
                            &&& out.records@.map_values(|rec: SlowlogRecord| rec.model())
                                == new_records(models, eff)
                            &&& final(self).last_id as int == next_watermark(models, eff)
                            &&& final(self).last_id as int == poll_last_id(
                                pre.last_id as int,
                                pre.uptime as int,
                                PollEvent { uptime: up, batch: models },
                            )
                            &&& out.skipped as int == skipped_count(models, eff)
                            &&& forall|i: int|
                                0 <= i < out.records@.len() ==> (#[trigger] out.records@[i]).id
                                    as int > eff
                        }
                    },
                    Err(e) => {
                        &&& *final(self) == pre
                        &&& match parse_uptime_spec(info@) {
                            Err(ue) => e == RemoteError::Uptime(ue),
                            Ok(_) => decode_batch_spec(rows@) is Err && e == RemoteError::Decode(
                                decode_batch_spec(rows@)->Err_0,
                            ),
                        }
                    },
                }
            }),
            r is Err ==> *final(self) == *old(self),
            r is Ok && !r->Ok_0.restart ==> old(self).last_id <= final(self).last_id,
            r is Ok && !r->Ok_0.restart ==> forall|i: int|
                0 <= i < r->Ok_0.records@.len() ==> (#[trigger] r->Ok_0.records@[i]).id as int
                    > old(self).last_id as int,
            r is Ok && strictly_decreasing_ids(decode_batch_spec(rows@)->Ok_0)
                ==> strictly_increasing_ids(
                r->Ok_0.records@.map_values(|rec: SlowlogRecord| rec.model()),
            ),
    {
        let ghost pre = *self;
        let up = match parse_uptime(info) {
            Ok(u) => u,
            Err(e) => {
                return Err(RemoteError::Uptime(e));
            },
        };
        let batch = match decode_batch(rows) {
            Ok(b) => b,
            Err(e) => {
                return Err(RemoteError::Decode(e));
            },
        };
        let ghost models = decode_batch_spec(rows@)->Ok_0;
        proof {
            assert(models == batch@.map_values(|rec: SlowlogRecord| rec.model()));
        }
        let rst = up < self.uptime;
        let eff: i64 = if rst {
            -1
        } else {
            self.last_id
        };
        let ghost effi = effective_watermark(pre.last_id, rst);
        let ghost pred = |m: RecordModel| m.id > effi;
        let n = batch.len();
        let skipped: u64 = if n > 0 && eff > 0 {
            let oldest = batch[n - 1].id;
            proof {
                assert(models[n - 1] == batch@[n - 1 as int].model());
                assert(models.last().id == oldest);
            }
            if oldest > (eff as u64) + 1 {
                oldest - (eff as u64) - 1
            } else {
                0
            }
        } else {
            0
        };
        proof {
            assert(skipped as int == skipped_count(models, effi));
        }
        let mut rest = batch;
        let ghost b0 = rest@;
        let mut kept: Vec<SlowlogRecord> = Vec::new();
        let mut i: usize = 0;
        while rest.len() > 0
            invariant
                n == b0.len(),
                n == models.len(),
                models == b0.map_values(|rec: SlowlogRecord| rec.model()),
                i + rest@.len() == n,
                rest@ == b0.subrange(i as int, n as int),
                pred == (|m: RecordModel| m.id > effi),
                eff as int == effi,
                kept@.map_values(|rec: SlowlogRecord| rec.model()) == models.subrange(
                    0,
                    i as int,
                ).filter(pred),
                forall|j: int|
                    0 <= j < kept@.len() ==> (#[trigger] kept@[j]).id <= i64::MAX as u64,
                forall|j: int|
                    0 <= j < b0.len() ==> (#[trigger] b0[j]).id <= i64::MAX as u64,
            decreases rest@.len(),
        {
            let rec = rest.remove(0);
            proof {
                assert(rec == b0[i as int]);
                assert(rest@ =~= b0.subrange(i as int + 1, n as int));
                assert(models[i as int] == b0[i as int].model());
            }
            let is_new = if eff < 0 {
                true
            } else {
                rec.id > (eff as u64)
            };
            proof {
                assert(is_new == pred(rec.model()));
                let sub = models.subrange(0, i as int);
                assert(models.subrange(0, i as int + 1) =~= sub.push(models[i as int]));
                lemma_filter_push(sub, models[i as int], pred);
            }
            let ghost kept_pre = kept@;
            if is_new {
                kept.push(rec);
                proof {
                    assert(kept@.map_values(|rec: SlowlogRecord| rec.model()) =~= kept_pre
                        .map_values(|rec: SlowlogRecord| rec.model()).push(rec.model()));
                    assert(models.subrange(0, i as int).filter(pred) + seq![rec.model()]
                        =~= models.subrange(0, i as int).filter(pred).push(rec.model()));
                }
            } else {
                proof {
                    assert(models.subrange(0, i as int).filter(pred)
                        + Seq::<RecordModel>::empty() =~= models.subrange(0, i as int).filter(
                        pred,
                    ));
                }
            }
            i += 1;
        }
        proof {
            assert(models.subrange(0, n as int) =~= models);
        }
        let ghost f = new_part(models, effi);
        proof {
            assert(kept@.map_values(|rec: SlowlogRecord| rec.model()) == f);
        }
        let new_last: i64 = if kept.len() > 0 {
            let idv = kept[0].id;
            proof {
                assert(kept@[0].model() == f[0]);
                assert(f[0].id == idv);
            }
            idv as i64
        } else {
            eff
        };
        proof {
            assert(new_last as int == next_watermark(models, effi));
        }
        let ghost kfull = kept@;
        let ghost m = kfull.len();
        let mut out_records: Vec<SlowlogRecord> = Vec::new();
        while kept.len() > 0
            invariant
                kept@.len() <= m,
                m == kfull.len(),
                kept@ == kfull.subrange(0, kept@.len() as int),
                out_records@ == kfull.subrange(kept@.len() as int, m as int).reverse(),
            decreases kept@.len(),
        {
            let ghost j = kept@.len() as int;
            let x = kept.pop().unwrap();
            proof {
                assert(x == kfull[j - 1]);
                assert(kept@ =~= kfull.subrange(0, j - 1));
            }
            out_records.push(x);
            proof {
                assert(out_records@ =~= kfull.subrange(j - 1, m as int).reverse());
            }
        }
        proof {
            assert(kfull.subrange(0, m as int) =~= kfull);
            assert(out_records@ == kfull.reverse());
            assert(out_records@.map_values(|rec: SlowlogRecord| rec.model()) =~= f.reverse());
            if kfull.len() > 0 {
                models.lemma_filter_pred(pred, 0);
            }
            assert forall|k: int| 0 <= k < f.reverse().len() implies f.reverse()[k].id as int
                > effi by {
                assert(f.reverse()[k] == f[f.len() - 1 - k]);
                models.lemma_filter_pred(pred, f.len() - 1 - k);
            }
            assert forall|k: int|
                0 <= k < out_records@.len() implies (#[trigger] out_records@[k]).id as int
                > effi by {
                assert(out_records@.map_values(|rec: SlowlogRecord| rec.model())[k]
                    == out_records@[k].model());
                assert(f.reverse()[k].id as int > effi);
            }
            if strictly_decreasing_ids(models) {
                lemma_new_records_increasing(models, effi);
            }
        }
        self.uptime = up;
        self.last_id = new_last;
        Ok(PollOutput { records: out_records, restart: rst, skipped })
    }
}

/// Whether a poll failure is recovered by replacing the connection:
/// only an I/O failure is; a protocol failure is fatal, since no retry
/// will fix a malformed response.
pub fn recoverable(e: &RemoteError) -> (r: bool)
    ensures
        r == (*e is Io),
{
    match e {
        RemoteError::Io => true,
        _ => false,
    }
}

/// One poll's inputs, as a ghost event: the uptime the server reported
/// and the decoded batch it returned.
pub struct PollEvent {
    pub uptime: u64,
    pub batch: Seq<RecordModel>,
}

/// The watermark after one poll event.
pub open spec fn poll_last_id(last: int, prev_uptime: int, ev: PollEvent) -> int {
    let rst = (ev.uptime as int) < prev_uptime;
    let eff = if rst {
        -1int
    } else {
        last
    };
    next_watermark(ev.batch, eff)
}

/// The watermark after a whole sequence of poll events.
pub open spec fn run_watermark(last: int, prev_uptime: int, evs: Seq<PollEvent>) -> int
    decreases evs.len(),
{
    if evs.len() == 0 {
        last
    } else {
        run_watermark(poll_last_id(last, prev_uptime, evs[0]), evs[0].uptime as int, evs.skip(1))
    }
}

/// No poll of the sequence sees the uptime move backwards.
pub open spec fn no_restart_in(prev_uptime: int, evs: Seq<PollEvent>) -> bool
    decreases evs.len(),
{
    if evs.len() == 0 {
        true
    } else {
        (evs[0].uptime as int) >= prev_uptime && no_restart_in(evs[0].uptime as int, evs.skip(1))
    }
}

/// Watermark monotonicity: across any sequence of polls in which no
/// restart is detected, the watermark never moves backwards.
pub proof fn lemma_watermark_monotone(last: int, prev_uptime: int, evs: Seq<PollEvent>)
    requires
        no_restart_in(prev_uptime, evs),
    ensures
        run_watermark(last, prev_uptime, evs) >= last,
    decreases evs.len(),
{
    if evs.len() > 0 {
        let ev = evs[0];
        let pred = |m: RecordModel| m.id > last;
        let next = poll_last_id(last, prev_uptime, ev);
        assert(next >= last) by {
            if new_part(ev.batch, last).len() > 0 {
                ev.batch.lemma_filter_pred(pred, 0);
            }
        }
        lemma_watermark_monotone(next, ev.uptime as int, evs.skip(1));
    }
}

} // verus!
