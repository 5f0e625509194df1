use serf_rpc::args::{ArgMap, ArgValue};
use serf_rpc::decode::{read_array_len, read_bin, read_bin_len, read_dict, read_list, read_pair, read_value};
use serf_rpc::protocol;

fn strings(items: &[&str]) -> Vec<String> {
    items.iter().map(|s| s.to_string()).collect()
}

fn pairs(items: &[(&str, &str)]) -> Vec<(String, String)> {
    items.iter().map(|(k, v)| (k.to_string(), v.to_string())).collect()
}

fn written(value: &ArgValue) -> Vec<u8> {
    let mut buf: Vec<u8> = vec![0xee];
    assert!(value.is_encodable());
    value.write(&mut buf);
    assert_eq!(buf[0], 0xee);
    buf[1..].to_vec()
}

#[test]
fn bytes_headers_by_length() {
    let cases: Vec<(usize, Vec<u8>)> = vec![
        (0, vec![0xc4, 0]),
        (1, vec![0xc4, 1]),
        (255, vec![0xc4, 255]),
        (256, vec![0xc5, 0x01, 0x00]),
        (65535, vec![0xc5, 0xff, 0xff]),
        (65536, vec![0xc6, 0x00, 0x01, 0x00, 0x00]),
    ];
    for (len, header) in cases {
        let data: Vec<u8> = (0..len).map(|i| (i % 251) as u8).collect();
        let bytes = written(&ArgValue::Bytes(data.clone()));
        assert_eq!(&bytes[..header.len()], &header[..]);
        assert_eq!(&bytes[header.len()..], &data[..]);
        let mut expected: Vec<u8> = Vec::new();
        rmp::encode::write_bin(&mut expected, &data).unwrap();
        assert_eq!(bytes, expected);
        assert_eq!(read_bin_len(&bytes, 0), Some((len as u32, header.len())));
        assert_eq!(read_bin(&bytes, 0), Some((data.clone(), bytes.len())));
        assert_eq!(read_value(&bytes, 0), Some((ArgValue::Bytes(data), bytes.len())));
    }
}

#[test]
fn bytes_rejects_short_input() {
    assert_eq!(read_bin(&[0xc4, 3, 1, 2], 0), None);
    assert_eq!(read_bin(&[0xc4], 0), None);
    assert_eq!(read_bin(&[0xc5, 0], 0), None);
    assert_eq!(read_bin(&[0xa1, b'x'], 0), None);
    assert_eq!(read_bin(&[0xc4, 2, 9, 8, 7], 0), Some((vec![9, 8], 4)));
}

#[test]
fn list_of_strings_bytes() {
    let value = ArgValue::StrList(strings(&["10.0.0.1", "10.0.0.2"]));
    let bytes = written(&value);
    let mut expected: Vec<u8> = Vec::new();
    rmp::encode::write_array_len(&mut expected, 2).unwrap();
    rmp::encode::write_str(&mut expected, "10.0.0.1").unwrap();
    rmp::encode::write_str(&mut expected, "10.0.0.2").unwrap();
    assert_eq!(bytes, expected);
    assert_eq!(bytes[0], 0x92);
    assert_eq!(read_list(&bytes, 0), Some((strings(&["10.0.0.1", "10.0.0.2"]), bytes.len())));
    assert_eq!(read_value(&bytes, 0), Some((value, bytes.len())));
}

#[test]
fn list_headers_by_length() {
    assert_eq!(read_array_len(&[0x90], 0), Some((0, 1)));
    assert_eq!(read_array_len(&[0x9f], 0), Some((15, 1)));
    assert_eq!(read_array_len(&[0xdc, 0x00, 0x10], 0), Some((16, 3)));
    assert_eq!(read_array_len(&[0xdd, 0x00, 0x01, 0x00, 0x00], 0), Some((65536, 5)));
    assert_eq!(read_array_len(&[0xdc, 0x00], 0), None);
    assert_eq!(read_array_len(&[0x80], 0), None);
    for n in [0usize, 15, 16, 70000] {
        let items: Vec<String> = (0..n).map(|i| format!("t{}", i)).collect();
        let bytes = written(&ArgValue::StrList(items.clone()));
        let mut header: Vec<u8> = Vec::new();
        rmp::encode::write_array_len(&mut header, n as u32).unwrap();
        assert_eq!(&bytes[..header.len()], &header[..]);
        assert_eq!(read_value(&bytes, 0), Some((ArgValue::StrList(items), bytes.len())));
    }
}

#[test]
fn list_rejects_other_elements() {
    assert_eq!(read_list(&[0x91, 0x01], 0), None);
    assert_eq!(read_list(&[0x92, 0xa1, b'a'], 0), None);
    assert_eq!(read_list(&[0x91, 0xa1, 0xff], 0), None);
    assert_eq!(read_list(&[0x91, 0xa1, b'a', 0x00], 0), Some((strings(&["a"]), 3)));
}

#[test]
fn string_map_bytes() {
    let value = ArgValue::StrMap(pairs(&[("role", "web"), ("dc", "east")]));
    let bytes = written(&value);
    let mut expected: Vec<u8> = Vec::new();
    rmp::encode::write_map_len(&mut expected, 2).unwrap();
    rmp::encode::write_str(&mut expected, "role").unwrap();
    rmp::encode::write_str(&mut expected, "web").unwrap();
    rmp::encode::write_str(&mut expected, "dc").unwrap();
    rmp::encode::write_str(&mut expected, "east").unwrap();
    assert_eq!(bytes, expected);
    assert_eq!(read_dict(&bytes, 0), Some((pairs(&[("role", "web"), ("dc", "east")]), bytes.len())));
    assert_eq!(read_value(&bytes, 0), Some((value, bytes.len())));
    assert_eq!(read_pair(&bytes, 1), Some((("role".to_string(), "web".to_string()), 10)));
}

#[test]
fn string_map_rejects_other_shapes() {
    assert_eq!(read_dict(&[0x81, 0xa1, b'k'], 0), None);
    assert_eq!(read_dict(&[0x81, 0xa1, b'k', 0x01], 0), None);
    assert_eq!(read_dict(&[0x81, 0x01, 0xa1, b'v'], 0), None);
    assert_eq!(read_dict(&[0x80], 0), Some((vec![], 1)));
}

#[test]
fn every_kind_round_trips_in_one_map() {
    let mut m = ArgMap::new();
    m.insert("Name", ArgValue::Str("deploy".to_string()));
    m.insert("Payload", ArgValue::Bytes(vec![0, 1, 2, 0xff]));
    m.insert("Coalesce", ArgValue::Bool(true));
    m.insert("Existing", ArgValue::StrList(strings(&["a", "b", "c"])));
    m.insert("None", ArgValue::StrList(vec![]));
    m.insert("Tags", ArgValue::StrMap(pairs(&[("role", "db")])));
    m.insert("NoTags", ArgValue::StrMap(vec![]));
    m.insert("ID", ArgValue::UInt(u64::MAX));
    m.insert_opt("Absent", None);
    let bytes = m.encode().unwrap();
    let back = ArgMap::decode(&bytes).unwrap();
    assert_eq!(back, m);
    assert_eq!(back.entries.len(), 8);
    assert_eq!(back.entries[1].value, ArgValue::Bytes(vec![0, 1, 2, 0xff]));
    assert_eq!(back.entries[4].value, ArgValue::StrList(vec![]));
    assert_eq!(back.entries[6].value, ArgValue::StrMap(vec![]));
}

#[test]
fn fire_event_body() {
    let cmd = protocol::fire_event("deploy", vec![1, 2], false).unwrap();
    assert_eq!(cmd.name, "event");
    let mut expected: Vec<u8> = Vec::new();
    rmp::encode::write_map_len(&mut expected, 3).unwrap();
    rmp::encode::write_str(&mut expected, "Name").unwrap();
    rmp::encode::write_str(&mut expected, "deploy").unwrap();
    rmp::encode::write_str(&mut expected, "Payload").unwrap();
    rmp::encode::write_bin(&mut expected, &[1, 2]).unwrap();
    rmp::encode::write_str(&mut expected, "Coalesce").unwrap();
    rmp::encode::write_bool(&mut expected, false).unwrap();
    assert_eq!(cmd.body, expected);
}

#[test]
fn join_body() {
    let cmd = protocol::join(strings(&["10.0.0.1:7946"]), true).unwrap();
    assert_eq!(cmd.name, "join");
    let mut expected: Vec<u8> = Vec::new();
    rmp::encode::write_map_len(&mut expected, 2).unwrap();
    rmp::encode::write_str(&mut expected, "Existing").unwrap();
    rmp::encode::write_array_len(&mut expected, 1).unwrap();
    rmp::encode::write_str(&mut expected, "10.0.0.1:7946").unwrap();
    rmp::encode::write_str(&mut expected, "Replay").unwrap();
    rmp::encode::write_bool(&mut expected, true).unwrap();
    assert_eq!(cmd.body, expected);
}

#[test]
fn members_filtered_leaves_absent_filters_out() {
    let cmd = protocol::members_filtered(None, None, None).unwrap();
    assert_eq!(cmd.name, "members-filtered");
    assert_eq!(cmd.body, vec![0x80]);
    let cmd = protocol::members_filtered(None, Some("web.*"), None).unwrap();
    let mut only_name = ArgMap::new();
    only_name.insert("Name", ArgValue::Str("web.*".to_string()));
    assert_eq!(cmd.body, only_name.encode().unwrap());
    assert_eq!(ArgMap::decode(&cmd.body), Some(only_name));
    let cmd = protocol::members_filtered(Some("alive"), Some("n"), Some(pairs(&[("role", "web")]))).unwrap();
    let back = ArgMap::decode(&cmd.body).unwrap();
    assert_eq!(back.entries.len(), 3);
    assert_eq!(back.entries[0].key, "Status");
    assert_eq!(back.entries[0].value, ArgValue::Str("alive".to_string()));
    assert_eq!(back.entries[1].key, "Name");
    assert_eq!(back.entries[2].key, "Tags");
    assert_eq!(back.entries[2].value, ArgValue::StrMap(pairs(&[("role", "web")])));
}

#[test]
fn tags_and_respond_bodies() {
    let cmd = protocol::tags(strings(&["role=web"]), strings(&["old"])).unwrap();
    assert_eq!(cmd.name, "tags");
    let back = ArgMap::decode(&cmd.body).unwrap();
    assert_eq!(back.entries[0].key, "Tags");
    assert_eq!(back.entries[0].value, ArgValue::StrList(strings(&["role=web"])));
    assert_eq!(back.entries[1].key, "DeleteTags");
    assert_eq!(back.entries[1].value, ArgValue::StrList(strings(&["old"])));
    let cmd = protocol::query_respond(9, vec![7]).unwrap();
    assert_eq!(cmd.name, "respond");
    assert_eq!(cmd.body, vec![0x82, 0xa2, b'I', b'D', 0x09, 0xa7, b'P', b'a', b'y', b'l', b'o', b'a', b'd', 0xc4, 0x01, 0x07]);
}
