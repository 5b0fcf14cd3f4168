use mudwire::gmcp::{frame_gmcp, split_envelope, DataStruct, Error};

#[test]
fn frame_wraps_payload() {
    assert_eq!(frame_gmcp(b"{}"), vec![0xffu8, 250, 201, b'{', b'}', 0xff, 240]);
    assert_eq!(frame_gmcp(b""), vec![0xffu8, 250, 201, 0xff, 240]);
}

#[test]
fn split_name_and_body() {
    let (name, body) = split_envelope(b" Char.Vitals {\"hp\": 5}").unwrap();
    assert_eq!(name, b"Char.Vitals".to_vec());
    assert_eq!(body, b"{\"hp\": 5}".to_vec());
    assert!(matches!(split_envelope(b"Core.Ping"), Err(Error::ExpectedGMCP)));
}

#[test]
fn data_struct_new() {
    let d = DataStruct::new(5u32, "Char.Level".to_string());
    assert_eq!(d.inner, 5);
    assert_eq!(d.name, "Char.Level");
}
