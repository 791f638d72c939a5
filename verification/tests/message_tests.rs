use rust_store::handler::{RequestHandler, RequestKey, StatusCode};
use rust_store::message::{
    byte_vec_to_4_byte_arr, byte_vec_to_int, construct_message, parse_i32, KvMessage,
};

#[test]
fn construct_message_put() {
    let msg = construct_message("put 42 67").unwrap();
    match msg {
        KvMessage::PutRequest(p) => {
            assert_eq!(p.key, 42);
            assert_eq!(p.value, 67i32.to_le_bytes().to_vec());
        }
        _ => panic!("expected a put"),
    }
}

#[test]
fn construct_message_get() {
    let msg = construct_message("get -17\n").unwrap();
    match msg {
        KvMessage::GetRequest(g) => assert_eq!(g.key, -17),
        _ => panic!("expected a get"),
    }
}

#[test]
fn construct_message_rejects_bad_lines() {
    assert!(construct_message("put 42").is_err());
    assert!(construct_message("put 1 2 3").is_err());
    assert!(construct_message("get").is_err());
    assert!(construct_message("get one").is_err());
    assert!(construct_message("delete 5").is_err());
    assert!(construct_message("put 99999999999 1").is_err());
}

#[test]
fn parse_i32_accepts_exactly_the_range() {
    assert_eq!(parse_i32(&b"2147483647".to_vec()).unwrap(), 2147483647);
    assert_eq!(parse_i32(&b"-2147483648".to_vec()).unwrap(), -2147483648);
    assert_eq!(parse_i32(&b"+000042".to_vec()).unwrap(), 42);
    assert_eq!(parse_i32(&b"0".to_vec()).unwrap(), 0);
    assert!(parse_i32(&b"2147483648".to_vec()).is_err());
    assert!(parse_i32(&b"-2147483649".to_vec()).is_err());
    assert!(parse_i32(&b"".to_vec()).is_err());
    assert!(parse_i32(&b"-".to_vec()).is_err());
    assert!(parse_i32(&b"12a".to_vec()).is_err());
}

#[test]
fn byte_vec_round_trip() {
    let v = (-123456789i32).to_le_bytes().to_vec();
    assert_eq!(byte_vec_to_int(v).unwrap(), -123456789);
    let arr = byte_vec_to_4_byte_arr(vec![1, 2, 3, 4]).unwrap();
    assert_eq!(arr, [1, 2, 3, 4]);
    assert!(byte_vec_to_4_byte_arr(vec![1, 2, 3]).is_err());
    assert!(byte_vec_to_int(vec![1, 2, 3, 4, 5]).is_err());
}

#[test]
fn mock_handler_statuses() {
    let h = RequestHandler::default();
    assert_eq!(
        h.get_status(&Some(Some(RequestKey::IntKey(42)))).unwrap(),
        StatusCode::Success
    );
    assert_eq!(
        h.get_status(&Some(Some(RequestKey::UintKey(42)))).unwrap(),
        StatusCode::Success
    );
    assert_eq!(
        h.get_status(&Some(Some(RequestKey::IntKey(7)))).unwrap(),
        StatusCode::NoValue
    );
    assert_eq!(
        h.get_status(&Some(Some(RequestKey::IntKey(3)))).unwrap(),
        StatusCode::InternalError
    );
    assert!(h.get_status(&Some(None)).is_err());
    assert!(h.get_status(&None).is_err());
    assert_eq!(
        h.put_status(&Some(Some(RequestKey::IntKey(42)))).unwrap(),
        StatusCode::Success
    );
    assert_eq!(
        h.put_status(&Some(Some(RequestKey::IntKey(7)))).unwrap(),
        StatusCode::InternalError
    );
}
