//! One slow-log record and the strict positional decoder for it.
//!
//! A row is an array of exactly six fields, in this order: id, unix
//! timestamp, duration in microseconds, command tokens, client address,
//! client name. Decoding is strict: a row with fewer than six fields
//! fails with `MissingField`, a field of the wrong shape fails with
//! `TypeMismatch`, and no partial record is ever produced.

use vstd::prelude::*;

use crate::value::{DecodeError, RespValue};

verus! {

/// One entry of the server's slow-query log.
#[derive(Debug, Default, PartialEq)]
pub struct SlowlogRecord {
    pub id: u64,
    pub time: u64,
    pub duration: u32,
    pub command: Vec<String>,
    pub client_socket: String,
    pub client_name: String,
}

/// The mathematical content of a record: the same fields with the
/// command tokens as a sequence. Contracts speak of this form.
pub struct RecordModel {
    pub id: u64,
    pub time: u64,
    pub duration: u32,
    pub command: Seq<String>,
    pub client_socket: String,
    pub client_name: String,
}

impl SlowlogRecord {
    /// What this record is, mathematically.
    pub open spec fn model(self) -> RecordModel {
        RecordModel {
            id: self.id,
            time: self.time,
            duration: self.duration,
            command: self.command@,
            client_socket: self.client_socket,
            client_name: self.client_name,
        }
    }
}

/// Coercion of one field to an unsigned 64-bit integer: a non-negative
/// integer value, and nothing else.
pub open spec fn as_u64_spec(v: RespValue) -> Result<u64, DecodeError> {
    match v {
        RespValue::Int(i) => if i >= 0 {
            Ok(i as u64)
        } else {
            Err(DecodeError::TypeMismatch)
        },
        _ => Err(DecodeError::TypeMismatch),
    }
}

/// Coercion of one field to an unsigned 32-bit integer: an integer
/// value within range, and nothing else.
pub open spec fn as_u32_spec(v: RespValue) -> Result<u32, DecodeError> {
    match v {
        RespValue::Int(i) => if 0 <= i <= u32::MAX {
            Ok(i as u32)
        } else {
            Err(DecodeError::TypeMismatch)
        },
        _ => Err(DecodeError::TypeMismatch),
    }
}

/// Coercion of one field to a string: binary-safe or simple string.
pub open spec fn as_string_spec(v: RespValue) -> Result<String, DecodeError> {
    match v {
        RespValue::Data(s) => Ok(s),
        RespValue::Status(s) => Ok(s),
        _ => Err(DecodeError::TypeMismatch),
    }
}

/// Coercion of the command field: an array whose every element is a
/// string.
pub open spec fn as_command_spec(v: RespValue) -> Result<Seq<String>, DecodeError> {
    match v {
        RespValue::Bulk(items) => if forall|i: int|
            0 <= i < items@.len() ==> (#[trigger] as_string_spec(items@[i])) is Ok {
            Ok(items@.map_values(|it: RespValue| as_string_spec(it)->Ok_0))
        } else {
            Err(DecodeError::TypeMismatch)
        },
        _ => Err(DecodeError::TypeMismatch),
    }
}

/// Strict positional decoding of the six fields of a row, each field's
/// presence and shape checked in order.
pub open spec fn decode_fields_spec(fs: Seq<RespValue>) -> Result<RecordModel, DecodeError> {
    if fs.len() < 1 {
        Err(DecodeError::MissingField)
    } else {
        match as_u64_spec(fs[0]) {
            Err(e) => Err(e),
            Ok(id) => if fs.len() < 2 {
                Err(DecodeError::MissingField)
            } else {
                match as_u64_spec(fs[1]) {
                    Err(e) => Err(e),
                    Ok(time) => if fs.len() < 3 {
                        Err(DecodeError::MissingField)
                    } else {
                        match as_u32_spec(fs[2]) {
                            Err(e) => Err(e),
                            Ok(duration) => if fs.len() < 4 {
                                Err(DecodeError::MissingField)
                            } else {
                                match as_command_spec(fs[3]) {
                                    Err(e) => Err(e),
                                    Ok(command) => if fs.len() < 5 {
                                        Err(DecodeError::MissingField)
                                    } else {
                                        match as_string_spec(fs[4]) {
                                            Err(e) => Err(e),
                                            Ok(client_socket) => if fs.len() < 6 {
                                                Err(DecodeError::MissingField)
                                            } else {
                                                match as_string_spec(fs[5]) {
                                                    Err(e) => Err(e),
                                                    Ok(client_name) => Ok(
                                                        RecordModel {
                                                            id,
                                                            time,
                                                            duration,
                                                            command,
                                                            client_socket,
                                                            client_name,
                                                        },
                                                    ),
                                                }
                                            },
                                        }
                                    },
                                }
                            },
                        }
                    },
                }
            },
        }
    }
}

/// What decoding one row returns: the row must be an array; its fields
/// are then read positionally.
pub open spec fn decode_row_spec(v: RespValue) -> Result<RecordModel, DecodeError> {
    match v {
        RespValue::Bulk(fields) => decode_fields_spec(fields@),
        _ => Err(DecodeError::TypeMismatch),
    }
}

fn as_u64(v: &RespValue) -> (r: Result<u64, DecodeError>)
    ensures
        r == as_u64_spec(*v),
{
    match v {
        RespValue::Int(i) => if *i >= 0 {
            Ok(*i as u64)
        } else {
            Err(DecodeError::TypeMismatch)
        },
        _ => Err(DecodeError::TypeMismatch),
    }
}

fn as_u32(v: &RespValue) -> (r: Result<u32, DecodeError>)
    ensures
        r == as_u32_spec(*v),
{
    match v {
        RespValue::Int(i) => if 0 <= *i && *i <= u32::MAX as i64 {
            Ok(*i as u32)
        } else {
            Err(DecodeError::TypeMismatch)
        },
        _ => Err(DecodeError::TypeMismatch),
    }
}

fn as_string(v: &RespValue) -> (r: Result<String, DecodeError>)
    ensures
        r == as_string_spec(*v),
{
    match v {
        RespValue::Data(s) => {
            proof {
                assert(*v is Data && (*v)->Data_0 == *s);
            }
            Ok(s.clone())
        },
        RespValue::Status(s) => {
            proof {
                assert(*v is Status && (*v)->Status_0 == *s);
            }
            Ok(s.clone())
        },
        _ => Err(DecodeError::TypeMismatch),
    }
}

fn as_command(v: &RespValue) -> (r: Result<Vec<String>, DecodeError>)
    ensures
        match r {
            Ok(c) => as_command_spec(*v) == Ok::<Seq<String>, DecodeError>(c@),
            Err(e) => as_command_spec(*v) == Err::<Seq<String>, DecodeError>(e),
        },
{
    match v {
        RespValue::Bulk(items) => {
            proof {
                assert(*v is Bulk && (*v)->Bulk_0 == *items);
            }
            let mut out: Vec<String> = Vec::new();
            let n = items.len();
            let mut i: usize = 0;
            while i < n
                invariant
                    *v is Bulk && (*v)->Bulk_0@ == items@,
                    n == items@.len(),
                    i <= n,
                    out@.len() == i,
                    forall|j: int| 0 <= j < i ==> (#[trigger] as_string_spec(items@[j])) is Ok,
                    forall|j: int| 0 <= j < i ==> out@[j] == as_string_spec(items@[j])->Ok_0,
                decreases n - i,
            {
                match as_string(&items[i]) {
                    Ok(s) => out.push(s),
                    Err(e) => {
                        proof {
                            let j = i as int;
                            let bulk = (*v)->Bulk_0;
                            assert(bulk@ == items@);
                            assert(bulk@[j] == items@[j]);
                            assert(as_string_spec(bulk@[j]) == Err::<String, DecodeError>(e));
                            assert(e == DecodeError::TypeMismatch);
                            assert(!(forall|k: int|
                                0 <= k < bulk@.len() ==> (#[trigger] as_string_spec(
                                    bulk@[k],
                                )) is Ok)) by {
                                assert(!(as_string_spec(bulk@[j]) is Ok));
                            }
                        }
                        return Err(e);
                    },
                }
                i += 1;
            }
            proof {
                let f = |it: RespValue| as_string_spec(it)->Ok_0;
                assert(out@ =~= items@.map_values(f));
            }
            Ok(out)
        },
        _ => Err(DecodeError::TypeMismatch),
    }
}

/// Decode one row into a record, strictly and positionally.
pub fn decode_row(v: &RespValue) -> (r: Result<SlowlogRecord, DecodeError>)
    ensures
        match r {
            Ok(rec) => decode_row_spec(*v) == Ok::<RecordModel, DecodeError>(rec.model()),
            Err(e) => decode_row_spec(*v) == Err::<RecordModel, DecodeError>(e),
        },
        r is Ok ==> r->Ok_0.id <= i64::MAX as u64,
{
    let fields = match v {
        RespValue::Bulk(fs) => fs,
        _ => {
            return Err(DecodeError::TypeMismatch);
        },
    };
    proof {
        assert(*v is Bulk && (*v)->Bulk_0 == *fields);
    }
    if fields.len() < 1 {
        return Err(DecodeError::MissingField);
    }
    let id = match as_u64(&fields[0]) {
        Ok(x) => x,
        Err(e) => {
            return Err(e);
        },
    };
    if fields.len() < 2 {
        return Err(DecodeError::MissingField);
    }
    let time = match as_u64(&fields[1]) {
        Ok(x) => x,
        Err(e) => {
            return Err(e);
        },
    };
    if fields.len() < 3 {
        return Err(DecodeError::MissingField);
    }
    let duration = match as_u32(&fields[2]) {
        Ok(x) => x,
        Err(e) => {
            return Err(e);
        },
    };
    if fields.len() < 4 {
        return Err(DecodeError::MissingField);
    }
    let command = match as_command(&fields[3]) {
        Ok(x) => x,
        Err(e) => {
            return Err(e);
        },
    };
    if fields.len() < 5 {
        return Err(DecodeError::MissingField);
    }
    let client_socket = match as_string(&fields[4]) {
        Ok(x) => x,
        Err(e) => {
            return Err(e);
        },
    };
    if fields.len() < 6 {
        return Err(DecodeError::MissingField);
    }
    let client_name = match as_string(&fields[5]) {
        Ok(x) => x,
        Err(e) => {
            return Err(e);
        },
    };
    let rec = SlowlogRecord { id, time, duration, command, client_socket, client_name };
    Ok(rec)
}

/// What decoding a whole batch returns: every row decoded in order, or
/// the error of the first row that fails; no partial batch is surfaced.
pub open spec fn decode_batch_spec(rows: Seq<RespValue>) -> Result<Seq<RecordModel>, DecodeError>
    decreases rows.len(),
{
    if rows.len() == 0 {
        Ok(Seq::empty())
    } else {
        match decode_row_spec(rows[0]) {
            Err(e) => Err(e),
            Ok(m) => match decode_batch_spec(rows.skip(1)) {
                Err(e) => Err(e),
                Ok(ms) => Ok(seq![m] + ms),
            },
        }
    }
}

proof fn lemma_decode_batch_ok(rows: Seq<RespValue>)
    requires
        forall|j: int| 0 <= j < rows.len() ==> (#[trigger] decode_row_spec(rows[j])) is Ok,
    ensures
        decode_batch_spec(rows) is Ok,
        decode_batch_spec(rows)->Ok_0 == rows.map_values(|v: RespValue| decode_row_spec(v)->Ok_0),
    decreases rows.len(),
{
    let f = |v: RespValue| decode_row_spec(v)->Ok_0;
    if rows.len() == 0 {
        assert(decode_batch_spec(rows)->Ok_0 =~= rows.map_values(f));
    } else {
        let rest = rows.skip(1);
        assert(forall|j: int| 0 <= j < rest.len() ==> (#[trigger] decode_row_spec(rest[j])) is Ok)
            by {
            assert(forall|j: int|
                0 <= j < rest.len() ==> rest[j] == rows[j + 1] && (#[trigger] decode_row_spec(
                    rest[j],
                )) == decode_row_spec(rows[j + 1]));
        }
        lemma_decode_batch_ok(rest);
        assert(decode_batch_spec(rows)->Ok_0 =~= rows.map_values(f));
    }
}

proof fn lemma_decode_batch_err(rows: Seq<RespValue>, i: int)
    requires
        0 <= i < rows.len(),
        forall|j: int| 0 <= j < i ==> (#[trigger] decode_row_spec(rows[j])) is Ok,
        decode_row_spec(rows[i]) is Err,
    ensures
        decode_batch_spec(rows) == Err::<Seq<RecordModel>, DecodeError>(
            decode_row_spec(rows[i])->Err_0,
        ),
    decreases i,
{
    if i > 0 {
        let rest = rows.skip(1);
        assert(forall|j: int|
            0 <= j < i - 1 ==> rest[j] == rows[j + 1] && (#[trigger] decode_row_spec(
                rest[j],
            )) is Ok);
        assert(rest[i - 1] == rows[i]);
        lemma_decode_batch_err(rest, i - 1);
    }
}

/// Decode a fetched batch row by row; any row that fails to decode
/// fails the whole batch with that row's error.
pub fn decode_batch(rows: &Vec<RespValue>) -> (r: Result<Vec<SlowlogRecord>, DecodeError>)
    ensures
        match r {
            Ok(recs) => decode_batch_spec(rows@) == Ok::<Seq<RecordModel>, DecodeError>(
                recs@.map_values(|rec: SlowlogRecord| rec.model()),
            ),
            Err(e) => decode_batch_spec(rows@) == Err::<Seq<RecordModel>, DecodeError>(e),
        },
        r is Ok ==> forall|j: int|
            0 <= j < r->Ok_0@.len() ==> #[trigger] r->Ok_0@[j].id <= i64::MAX as u64,
{
    let n = rows.len();
    let mut out: Vec<SlowlogRecord> = Vec::new();
    let mut i: usize = 0;
    while i < n
        invariant
            n == rows@.len(),
            i <= n,
            out@.len() == i,
            forall|j: int| 0 <= j < i ==> (#[trigger] decode_row_spec(rows@[j])) is Ok,
            forall|j: int|
                0 <= j < i ==> out@[j].model() == decode_row_spec(rows@[j])->Ok_0
                    && #[trigger] out@[j].id <= i64::MAX as u64,
        decreases n - i,
    {
        match decode_row(&rows[i]) {
            Ok(rec) => out.push(rec),
            Err(e) => {
                proof {
                    lemma_decode_batch_err(rows@, i as int);
                }
                return Err(e);
            },
        }
        i += 1;
    }
    proof {
        lemma_decode_batch_ok(rows@);
        assert(out@.map_values(|rec: SlowlogRecord| rec.model()) =~= rows@.map_values(
            |v: RespValue| decode_row_spec(v)->Ok_0,
        ));
    }
    Ok(out)
}

/// Whether a record can stand in a wire row: its unsigned fields must
/// fit the signed integers the wire carries.
pub open spec fn encodable(m: RecordModel) -> bool {
    m.id <= i64::MAX as u64 && m.time <= i64::MAX as u64
}

/// Encode a record as the six-field row the decoder reads. Decoding the
/// result gives back exactly the record that was encoded: the decoder
/// accepts precisely what this produces, and loses nothing.
pub fn encode_record(r: &SlowlogRecord) -> (v: RespValue)
    requires
        encodable(r.model()),
    ensures
        decode_row_spec(v) == Ok::<RecordModel, DecodeError>(r.model()),
{
    let n = r.command.len();
    let mut items: Vec<RespValue> = Vec::new();
    let mut i: usize = 0;
    while i < n
        invariant
            n == r.command@.len(),
            i <= n,
            items@.len() == i,
            forall|j: int| 0 <= j < i ==> #[trigger] items@[j] == RespValue::Data(r.command@[j]),
        decreases n - i,
    {
        let s = r.command[i].clone();
        items.push(RespValue::Data(s));
        i += 1;
    }
    proof {
        let f = |it: RespValue| as_string_spec(it)->Ok_0;
        assert(forall|j: int|
            0 <= j < items@.len() ==> (#[trigger] as_string_spec(items@[j])) is Ok);
        assert(items@.map_values(f) =~= r.command@);
    }
    let ghost cmd_items = items@;
    let mut fields: Vec<RespValue> = Vec::new();
    fields.push(RespValue::Int(r.id as i64));
    fields.push(RespValue::Int(r.time as i64));
    fields.push(RespValue::Int(r.duration as i64));
    fields.push(RespValue::Bulk(items));
    let s4 = r.client_socket.clone();
    fields.push(RespValue::Data(s4));
    let s5 = r.client_name.clone();
    fields.push(RespValue::Data(s5));
    let v = RespValue::Bulk(fields);
    proof {
        assert(v is Bulk && v->Bulk_0 == fields);
        assert(fields@[3] is Bulk && fields@[3]->Bulk_0@ == cmd_items);
        assert(as_command_spec(fields@[3]) == Ok::<Seq<String>, DecodeError>(r.command@));
        assert(decode_fields_spec(fields@) == Ok::<RecordModel, DecodeError>(r.model()));
    }
    v
}

} // verus!
