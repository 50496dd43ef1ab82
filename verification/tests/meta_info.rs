use serde_bencode::value::Value as Raw;
use torrent::bencode::meta_info::{DownloadType, File, Info, InvalidLength, Pieces, Torrent};
use torrent::bencode::{Decoder, Value};
use torrent::file::{parts, Part};

const HASHED: [u8; 20] = [
    92, 197, 230, 82, 190, 13, 230, 242, 120, 5, 179, 4, 100, 255, 155, 0, 244, 137, 240, 201,
];

fn multi_file() -> Info {
    Info {
        name: "secret_vid.mov".to_string(),
        piece_length: 256,
        pieces: Pieces(vec![HASHED]),
        download_type: DownloadType::MultiFile {
            files: vec![
                File {
                    length: 20,
                    path: vec!["dir".to_string(), "filename1".to_string()],
                },
                File {
                    length: 100,
                    path: vec!["dir".to_string(), "filename2".to_string()],
                },
            ],
        },
    }
}

fn single_file(length: u64, piece_length: u32) -> Info {
    Info {
        name: "sample.txt".to_string(),
        piece_length,
        pieces: Pieces(vec![HASHED]),
        download_type: DownloadType::SingleFile { length },
    }
}

fn field<'a>(value: &'a Raw, key: &str) -> Option<&'a Raw> {
    match value {
        Raw::Dict(entries) => entries.get(key.as_bytes()),
        other => panic!("{:?}", other),
    }
}

fn number(value: &Raw) -> i64 {
    match value {
        Raw::Int(n) => *n,
        other => panic!("{:?}", other),
    }
}

fn bytes(value: &Raw) -> &[u8] {
    match value {
        Raw::Bytes(bytes) => bytes,
        other => panic!("{:?}", other),
    }
}

fn list(value: &Raw) -> &[Raw] {
    match value {
        Raw::List(items) => items,
        other => panic!("{:?}", other),
    }
}

fn text(value: &Raw) -> String {
    String::from_utf8(bytes(value).to_vec()).unwrap()
}

fn info_of(value: &Raw) -> Info {
    let download_type = match field(value, "length") {
        Some(length) => DownloadType::SingleFile {
            length: number(length) as u64,
        },
        None => DownloadType::MultiFile {
            files: list(field(value, "files").unwrap())
                .iter()
                .map(|file| File {
                    length: number(field(file, "length").unwrap()) as u64,
                    path: list(field(file, "path").unwrap()).iter().map(text).collect(),
                })
                .collect(),
        },
    };
    Info {
        name: text(field(value, "name").unwrap()),
        piece_length: number(field(value, "piece length").unwrap()) as u32,
        pieces: Pieces::from_bytes(bytes(field(value, "pieces").unwrap())).unwrap(),
        download_type,
    }
}

#[test]
fn multi_file_download_type() {
    let info = multi_file();

    let b = info.to_bytes();
    let result: Raw = serde_bencode::from_bytes(&b).unwrap();
    assert_eq!(info, info_of(&result));
}

#[test]
fn single_file_is_read_back() {
    let info = single_file(20, 65536);
    let result: Raw = serde_bencode::from_bytes(&info.to_bytes()).unwrap();
    assert_eq!(info, info_of(&result));
    let torrent = Torrent {
        announce: "udp://tracker.openbittorrent.com:80".to_string(),
        info,
    };
    assert_eq!(torrent.info.total_length(), 20);
}

#[test]
fn info_is_encoded_with_ascending_keys() {
    let expected = [
        &b"d5:filesld6:lengthi20e4:pathl3:dir9:filename1ee"[..],
        b"d6:lengthi100e4:pathl3:dir9:filename2eee",
        b"4:name14:secret_vid.mov12:piece lengthi256e6:pieces20:",
        &HASHED,
        b"e",
    ]
    .concat();
    assert_eq!(multi_file().to_bytes(), expected);

    let expected = [
        &b"d6:lengthi20e4:name10:sample.txt12:piece lengthi65536e6:pieces20:"[..],
        &HASHED,
        b"e",
    ]
    .concat();
    assert_eq!(single_file(20, 65536).to_bytes(), expected);
}

#[test]
fn encoding_is_that_of_serde_bencode() {
    for info in [multi_file(), single_file(20, 65536), single_file(0, 1)] {
        let raw: Raw = serde_bencode::from_bytes(&info.to_bytes()).unwrap();
        assert_eq!(serde_bencode::to_bytes(&raw).unwrap(), info.to_bytes());
    }
    let large = single_file(u64::MAX, 1).to_bytes();
    assert!(large.starts_with(b"d6:lengthi18446744073709551615e"));
}

#[test]
fn encoded_info_is_decoded() {
    let encoded = multi_file().to_bytes();
    let (rest, value) = Decoder::Nom.decode(&encoded).unwrap();
    assert!(rest.is_empty());
    let Value::Dict(entries) = value else {
        panic!("no dictionary")
    };
    let keys: Vec<&str> = entries.iter().map(|(key, _)| key.as_str()).collect();
    assert_eq!(keys, ["files", "name", "piece length", "pieces"]);
    assert_eq!(entries[1].1, Value::String("secret_vid.mov".to_string()));
    assert_eq!(entries[2].1, Value::Int(256));
}

#[test]
fn info_hash_is_that_of_the_encoding() {
    assert_eq!(
        multi_file().hash(),
        [
            181, 93, 176, 46, 92, 139, 188, 97, 87, 141, 138, 111, 154, 185, 178, 8, 106, 209, 14,
            26
        ]
    );
    assert_eq!(
        single_file(20, 65536).hash(),
        [
            136, 250, 95, 136, 226, 2, 250, 155, 100, 55, 160, 172, 184, 222, 165, 99, 222, 40,
            192, 120
        ]
    );
}

#[test]
fn pieces_are_split_and_joined() {
    let bytes: Vec<u8> = (0..60).collect();
    let pieces = Pieces::from_bytes(&bytes).unwrap();
    assert_eq!(pieces.len(), 3);
    assert_eq!(pieces[1][0], 20);
    assert_eq!(pieces[2][19], 59);
    assert_eq!(pieces.to_bytes(), bytes);
    assert_eq!(Pieces::from_bytes(&[]), Ok(Pieces::default()));
    assert_eq!(
        Pieces::from_bytes(&bytes[..59]),
        Err(InvalidLength { len: 59 })
    );
}

#[test]
fn lengths_are_added_up() {
    assert_eq!(multi_file().total_length(), 120);
    assert_eq!(multi_file().download_type.len(), 120);
    assert_eq!(single_file(7, 1).download_type.len(), 7);
    assert_eq!(multi_file().download_type.checked_len(), Some(120));
    let files = vec![
        File {
            length: u64::MAX,
            path: vec![],
        },
        File {
            length: 1,
            path: vec![],
        },
    ];
    assert_eq!(DownloadType::MultiFile { files }.checked_len(), None);
}

#[test]
fn pieces_cover_the_download() {
    for (length, piece_length, expected) in [
        (0, 4, vec![]),
        (1, 4, vec![1]),
        (8, 4, vec![4, 4]),
        (10, 4, vec![4, 4, 2]),
        (5_000_000_000, 4_000_000_000, vec![4_000_000_000, 1_000_000_000]),
    ] {
        let info = single_file(length, piece_length);
        assert_eq!(info.num_pieces() as usize, expected.len());
        let lengths: Vec<u32> = (0..info.num_pieces())
            .map(|index| info.get_piece_length(index))
            .collect();
        assert_eq!(lengths, expected);
    }
    // A piece behind the last one is empty where the last one is complete.
    assert_eq!(single_file(8, 4).get_piece_length(2), 0);
}

#[test]
fn test_write() {
    let files = vec![
        File {
            length: 4,
            path: vec![
                "path".to_string(),
                "to".to_string(),
                "file1.txt".to_string(),
            ],
        },
        File {
            length: 6,
            path: vec!["path".to_string(), "file2.txt".to_string()],
        },
        File {
            length: 3,
            path: vec!["file3.txt".to_string()],
        },
    ];
    let file_bytes = vec![1, 1, 1, 1, 2, 2, 2, 2, 2, 2, 3, 3, 3];

    let parts = parts(&files);
    let read = |part: &Part| file_bytes[part.begin..part.end].to_vec();
    assert_eq!(parts.len(), 3);
    assert_eq!(vec![1, 1, 1, 1], read(&parts[0]));
    assert_eq!(vec![2, 2, 2, 2, 2, 2], read(&parts[1]));
    assert_eq!(vec![3, 3, 3], read(&parts[2]));
    assert_eq!(parts[2].end, file_bytes.len());
}

#[test]
fn different_infos_are_encoded_differently() {
    let mut infos = vec![multi_file(), single_file(20, 256), single_file(2, 256)];
    infos.push(single_file(20, 25));
    let mut renamed = multi_file();
    renamed.name.push('x');
    infos.push(renamed);
    if let DownloadType::MultiFile { files } = multi_file().download_type {
        // The same bytes, divided into parts of a path in another way.
        let joined = files
            .iter()
            .map(|file| File {
                length: file.length,
                path: vec![file.path.concat()],
            })
            .collect();
        infos.push(Info {
            download_type: DownloadType::MultiFile { files: joined },
            ..multi_file()
        });
    }
    for i in 0..infos.len() {
        for j in 0..infos.len() {
            assert_eq!(
                infos[i].to_bytes() == infos[j].to_bytes(),
                infos[i] == infos[j]
            );
            assert_eq!(infos[i] == infos[j], i == j);
        }
    }
}
