use feishu_unreadme_app::asar::{Asar, Header, Node};
use feishu_unreadme_app::error::AppError;
use feishu_unreadme_app::pack::{encode_archive, pack_parts};
use feishu_unreadme_app::pickle::read_frame;
use feishu_unreadme_app::tree::{find_node, insert_node};

fn files() -> Vec<(String, Vec<u8>)> {
    vec![
        ("renderer/preload.js".to_string(), b"window.x = 1;".to_vec()),
        ("index.html".to_string(), b"<html></html>".to_vec()),
        ("renderer/app/main.js".to_string(), b"main()".to_vec()),
        ("a.txt".to_string(), b"".to_vec()),
    ]
}

fn packed() -> Asar {
    let parts = pack_parts(&files());
    let bytes = encode_archive(b"{\"files\":{}}", &parts.payload);
    Asar::from_parts(bytes, parts.header).unwrap()
}

#[test]
fn pack_then_read_gives_back_every_file() {
    let asar = packed();
    for (path, content) in files() {
        assert_eq!(asar.read_file(&path).unwrap(), content, "{path}");
    }
}

#[test]
fn pack_stores_files_in_path_order() {
    let parts = pack_parts(&files());
    assert_eq!(parts.order, vec![3, 1, 2, 0]);
    let mut expected = Vec::new();
    expected.extend_from_slice(b"<html></html>");
    expected.extend_from_slice(b"main()");
    expected.extend_from_slice(b"window.x = 1;");
    assert_eq!(parts.payload, expected);
}

#[test]
fn pack_header_records_offsets_and_sizes() {
    let parts = pack_parts(&files());
    match find_node(&parts.header.files(), "renderer/preload.js") {
        Some(Node::File { offset, size, executable, unpacked }) => {
            assert_eq!(offset.as_deref(), Some("19"));
            assert_eq!(*size, 13);
            assert!(!executable && !unpacked);
        }
        other => panic!("unexpected {other:?}"),
    }
    assert!(matches!(find_node(&parts.header.files(), "renderer"), Some(Node::Dir { .. })));
    assert!(find_node(&parts.header.files(), "renderer/missing.js").is_none());
}

#[test]
fn list_files_is_depth_first_in_name_order() {
    let asar = packed();
    assert_eq!(
        asar.list_files(),
        vec![
            "a.txt".to_string(),
            "index.html".to_string(),
            "renderer/app/main.js".to_string(),
            "renderer/preload.js".to_string(),
        ]
    );
}

#[test]
fn frame_layout_pads_header_to_four_bytes() {
    let json = b"{\"a\":1}"; // 7 bytes, padded to 8
    let bytes = encode_archive(json, b"PAY");
    assert_eq!(&bytes[0..4], &4u32.to_le_bytes());
    assert_eq!(&bytes[4..8], &16u32.to_le_bytes());
    assert_eq!(&bytes[8..12], &12u32.to_le_bytes());
    assert_eq!(&bytes[12..16], &7u32.to_le_bytes());
    assert_eq!(&bytes[16..23], json);
    assert_eq!(bytes[23], 0);
    assert_eq!(&bytes[24..], b"PAY");
    let frame = read_frame(&bytes).unwrap();
    assert_eq!(frame.header_len, 7);
    assert_eq!(frame.payload_offset, 24);
}

#[test]
fn pack_writes_header_pickle_size_including_string_padding() {
    for len in 0..9usize {
        let json = vec![b'x'; len];
        let bytes = encode_archive(&json, b"");
        let padded = (len + 3) / 4 * 4;
        assert_eq!(u32::from_le_bytes(bytes[4..8].try_into().unwrap()) as usize, padded + 8);
        assert_eq!(u32::from_le_bytes(bytes[8..12].try_into().unwrap()) as usize, padded + 4);
        assert_eq!(bytes.len(), 16 + padded);
    }
}

#[test]
fn wrong_outer_size_is_malformed() {
    let mut bytes = encode_archive(b"{}", b"");
    bytes[0] = 5;
    match read_frame(&bytes) {
        Err(AppError::AsarMalformed(msg)) => assert_eq!(msg, "非预期外层 pickle size:5"),
        other => panic!("expected AsarMalformed, got {other:?}"),
    }
}

#[test]
fn pickle_sizes_are_not_checked() {
    // sizes that leave out the header text's padding, as earlier packers wrote them
    let mut bytes = encode_archive(b"{}", b"xyz");
    bytes[4] = 14;
    bytes[8] = 6;
    let frame = read_frame(&bytes).unwrap();
    assert_eq!(frame.header_len, 2);
    assert_eq!(frame.payload_offset, 20);
    let mut bytes = encode_archive(b"{}", b"");
    bytes[4] = 9;
    bytes[8] = 1;
    assert!(read_frame(&bytes).is_ok());
}

#[test]
fn truncated_archive_is_an_io_error() {
    let bytes = encode_archive(b"{\"files\":{}}", b"");
    for cut in [0usize, 3, 10, 20] {
        match read_frame(&bytes[..cut]) {
            Err(AppError::Io(e)) => assert_eq!(e.kind(), std::io::ErrorKind::UnexpectedEof),
            other => panic!("expected Io at {cut}, got {other:?}"),
        }
    }
}

#[test]
fn read_errors_name_the_problem() {
    let mut files: Vec<(String, Node)> = Vec::new();
    insert_node(&mut files, "dir/a.js", Node::File { offset: Some("0".into()), size: 2, executable: false, unpacked: false });
    insert_node(&mut files, "bad.js", Node::File { offset: Some("x1".into()), size: 1, executable: false, unpacked: false });
    insert_node(&mut files, "far.js", Node::File { offset: Some("100".into()), size: 1, executable: false, unpacked: false });
    insert_node(&mut files, "ext.node", Node::File { offset: None, size: 1, executable: false, unpacked: true });
    let bytes = encode_archive(b"{}", b"ok");
    let asar = Asar::from_parts(bytes, Header::new(files).unwrap()).unwrap();
    assert_eq!(asar.read_file("dir/a.js").unwrap(), b"ok".to_vec());
    match asar.read_file("nope.js") {
        Err(AppError::AsarMalformed(m)) => assert_eq!(m, "找不到文件:nope.js"),
        other => panic!("{other:?}"),
    }
    match asar.read_file("bad.js") {
        Err(AppError::AsarMalformed(m)) => assert_eq!(m, "非法 offset:x1"),
        other => panic!("{other:?}"),
    }
    match asar.read_file("dir") {
        Err(AppError::AsarMalformed(m)) => assert_eq!(m, "不是文件:dir"),
        other => panic!("{other:?}"),
    }
    match asar.read_file("ext.node") {
        Err(AppError::AsarMalformed(m)) => assert_eq!(m, "不是文件:ext.node"),
        other => panic!("{other:?}"),
    }
    assert!(matches!(asar.read_file("far.js"), Err(AppError::Io(_))));
    assert!(matches!(asar.read_file("dir/a.js/x"), Err(AppError::AsarMalformed(_))));
}

#[test]
fn insert_replaces_and_does_not_go_through_files() {
    let mut files: Vec<(String, Node)> = Vec::new();
    insert_node(&mut files, "a", Node::File { offset: Some("1".into()), size: 1, executable: false, unpacked: false });
    // a file stands at "a": nothing is inserted below it
    insert_node(&mut files, "a/b", Node::File { offset: Some("2".into()), size: 2, executable: false, unpacked: false });
    assert!(matches!(find_node(&files, "a"), Some(Node::File { size: 1, .. })));
    assert!(find_node(&files, "a/b").is_none());
    // inserting again at "a" replaces the entry
    insert_node(&mut files, "a", Node::File { offset: Some("3".into()), size: 3, executable: false, unpacked: false });
    assert!(matches!(find_node(&files, "a"), Some(Node::File { size: 3, .. })));
    assert_eq!(files.len(), 1);
}

#[test]
fn header_and_payload_offset_accessors() {
    let asar = packed();
    assert_eq!(asar.payload_offset(), 16 + 12);
    assert_eq!(asar.header().files().len(), 3);
}

#[test]
fn unpack_then_repack_keeps_every_file() {
    let original = packed();
    let listed = original.list_files();
    let unpacked: Vec<(String, Vec<u8>)> =
        listed.iter().map(|p| (p.clone(), original.read_file(p).unwrap())).collect();
    let parts = pack_parts(&unpacked);
    let bytes = encode_archive(b"{}", &parts.payload);
    let repacked = Asar::from_parts(bytes, parts.header).unwrap();
    let mut relisted = repacked.list_files();
    let mut expected = listed.clone();
    relisted.sort();
    expected.sort();
    assert_eq!(relisted, expected);
    for p in &listed {
        assert_eq!(repacked.read_file(p).unwrap(), original.read_file(p).unwrap(), "{p}");
    }
}

#[test]
fn chinese_file_names_round_trip() {
    let files = vec![
        ("资源/飞书.js".to_string(), b"a".to_vec()),
        ("资源/说明.txt".to_string(), b"bc".to_vec()),
    ];
    let parts = pack_parts(&files);
    let asar = Asar::from_parts(encode_archive(b"{}", &parts.payload), parts.header).unwrap();
    assert_eq!(asar.read_file("资源/飞书.js").unwrap(), b"a");
    assert_eq!(asar.read_file("资源/说明.txt").unwrap(), b"bc");
    let mut listed = asar.list_files();
    listed.sort();
    assert_eq!(listed, vec!["资源/说明.txt".to_string(), "资源/飞书.js".to_string()]);
}

#[test]
fn header_refuses_names_out_of_order() {
    let leaf = || Node::File { offset: Some("0".into()), size: 0, executable: false, unpacked: false };
    let unsorted = vec![("b".to_string(), leaf()), ("a".to_string(), leaf())];
    assert!(matches!(Header::new(unsorted), Err(AppError::AsarMalformed(_))));
    let nested = vec![(
        "d".to_string(),
        Node::Dir { files: vec![("y".to_string(), leaf()), ("x".to_string(), leaf())] },
    )];
    assert!(Header::new(nested).is_err());
    let sorted = vec![("a".to_string(), leaf()), ("b".to_string(), leaf())];
    assert_eq!(Header::new(sorted).unwrap().files().len(), 2);
}
