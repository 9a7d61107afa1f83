use redis_slowlog::{DecodeError, RespValue, SlowlogRecord, decode_batch, decode_row, encode_record};

fn row(fields: Vec<RespValue>) -> RespValue {
    RespValue::Bulk(fields)
}

fn data(s: &str) -> RespValue {
    RespValue::Data(s.to_owned())
}

fn six_fields() -> Vec<RespValue> {
    vec![
        RespValue::Int(1),
        RespValue::Int(2),
        RespValue::Int(3),
        RespValue::Bulk(vec![data("command"), data("arg1"), data("arg2")]),
        data("127.0.0.1:10000"),
        data("my cool client"),
    ]
}

#[test]
fn from_valid() {
    let val = row(six_fields());
    assert_eq!(
        decode_row(&val).unwrap(),
        SlowlogRecord {
            id: 1,
            time: 2,
            duration: 3,
            command: vec!["command".to_owned(), "arg1".to_owned(), "arg2".to_owned()],
            client_socket: "127.0.0.1:10000".to_owned(),
            client_name: "my cool client".to_owned(),
        }
    )
}

#[test]
fn five_fields_is_missing_field() {
    let mut fields = six_fields();
    fields.pop();
    assert_eq!(decode_row(&row(fields)), Err(DecodeError::MissingField));
}

#[test]
fn empty_row_is_missing_field() {
    assert_eq!(decode_row(&row(vec![])), Err(DecodeError::MissingField));
}

#[test]
fn textual_id_is_type_mismatch() {
    let mut fields = six_fields();
    fields[0] = data("1");
    assert_eq!(decode_row(&row(fields)), Err(DecodeError::TypeMismatch));
}

#[test]
fn negative_id_is_type_mismatch() {
    let mut fields = six_fields();
    fields[0] = RespValue::Int(-1);
    assert_eq!(decode_row(&row(fields)), Err(DecodeError::TypeMismatch));
}

#[test]
fn oversized_duration_is_type_mismatch() {
    let mut fields = six_fields();
    fields[2] = RespValue::Int(u32::MAX as i64 + 1);
    assert_eq!(decode_row(&row(fields)), Err(DecodeError::TypeMismatch));
}

#[test]
fn integer_command_token_is_type_mismatch() {
    let mut fields = six_fields();
    fields[3] = RespValue::Bulk(vec![data("GET"), RespValue::Int(7)]);
    assert_eq!(decode_row(&row(fields)), Err(DecodeError::TypeMismatch));
}

#[test]
fn non_array_row_is_type_mismatch() {
    assert_eq!(decode_row(&RespValue::Int(5)), Err(DecodeError::TypeMismatch));
    assert_eq!(decode_row(&RespValue::Other), Err(DecodeError::TypeMismatch));
}

#[test]
fn status_strings_are_accepted() {
    let mut fields = six_fields();
    fields[4] = RespValue::Status("10.0.0.1:1".to_owned());
    let rec = decode_row(&row(fields)).unwrap();
    assert_eq!(rec.client_socket, "10.0.0.1:1");
}

#[test]
fn extra_fields_are_ignored() {
    let mut fields = six_fields();
    fields.push(RespValue::Int(99));
    let rec = decode_row(&row(fields)).unwrap();
    assert_eq!(rec.id, 1);
    assert_eq!(rec.client_name, "my cool client");
}

#[test]
fn round_trip_reproduces_record() {
    let rec = SlowlogRecord {
        id: 17,
        time: 1_700_000_000,
        duration: 2500,
        command: vec!["SET".to_owned(), "key".to_owned(), "value".to_owned()],
        client_socket: "127.0.0.1:10000".to_owned(),
        client_name: "app1".to_owned(),
    };
    let encoded = encode_record(&rec);
    assert_eq!(decode_row(&encoded).unwrap(), rec);
}

#[test]
fn batch_decodes_in_order() {
    let rows = vec![row(six_fields()), row(six_fields())];
    let recs = decode_batch(&rows).unwrap();
    assert_eq!(recs.len(), 2);
    assert_eq!(recs[0].id, 1);
}

#[test]
fn one_bad_row_fails_the_batch() {
    let mut bad = six_fields();
    bad[1] = RespValue::Nil;
    let rows = vec![row(six_fields()), row(bad)];
    assert_eq!(decode_batch(&rows), Err(DecodeError::TypeMismatch));
}

#[test]
fn empty_batch_decodes_to_nothing() {
    assert_eq!(decode_batch(&vec![]).unwrap(), vec![]);
}
