use t_rex::commands::encode_geometry;
use t_rex::feature::FeatureAttrValType;
use t_rex::screen::{Drawing, GeomType};
use t_rex::tile::{Tile, TileFeature, TileLayer};

fn unzigzag(w: u32) -> i64 {
    if w % 2 == 0 {
        (w / 2) as i64
    } else {
        -(((w as i64) + 1) / 2)
    }
}

/// Reads a command stream the way a reader of tiles does: a cursor that starts at the
/// origin, moves that begin a part, lines that go on with it, and closings that end a ring.
fn read_commands(kind: GeomType, words: &[u32]) -> Vec<Vec<(i64, i64)>> {
    let mut parts: Vec<Vec<(i64, i64)>> = Vec::new();
    let mut cursor = (0i64, 0i64);
    let mut at = 0;
    while at < words.len() {
        let (id, count) = (words[at] & 7, (words[at] >> 3) as usize);
        at += 1;
        match id {
            1 | 2 => {
                for n in 0..count {
                    cursor = (cursor.0 + unzigzag(words[at]), cursor.1 + unzigzag(words[at + 1]));
                    at += 2;
                    if id == 1 && (kind != GeomType::Point || n == 0) {
                        parts.push(Vec::new());
                    }
                    parts.last_mut().unwrap().push(cursor);
                }
            }
            7 => assert_eq!((kind, count), (GeomType::Polygon, 1)),
            other => panic!("command {}", other),
        }
    }
    parts
}

fn numbers(seed: u64) -> impl FnMut(u64) -> u64 {
    let mut state = seed;
    move |below| {
        state = state.wrapping_mul(6364136223846793005).wrapping_add(1442695040888963407);
        (state >> 33) % below
    }
}

#[test]
fn commands_are_read_back_as_the_drawing() {
    let mut next = numbers(7);
    for round in 0..500 {
        let kind = [GeomType::Point, GeomType::LineString, GeomType::Polygon][round % 3];
        let least = match kind {
            GeomType::Point => 1,
            GeomType::LineString => 2,
            GeomType::Polygon => 3,
        };
        let side = [16u64, 4096, 0x8000_0000][(round / 3) % 3];
        let parts: Vec<Vec<(i64, i64)>> = (0..next(4))
            .map(|_| {
                (0..least + next(5)).map(|_| (next(side) as i64, next(side) as i64)).collect()
            })
            .collect();
        let drawing = Drawing { kind, parts: parts.clone() };
        let words = encode_geometry(&drawing).unwrap();
        assert_eq!(read_commands(kind, &words), parts, "{:?}", drawing);
    }
}

fn read_varint(bytes: &[u8], at: &mut usize) -> u64 {
    let mut value = 0u64;
    let mut shift = 0;
    loop {
        let b = bytes[*at];
        *at += 1;
        value |= ((b & 0x7f) as u64) << shift;
        if b < 0x80 {
            return value;
        }
        shift += 7;
    }
}

/// The fields of a message: the number of each with its number or its bytes.
fn read_fields(bytes: &[u8]) -> Vec<(u64, Result<u64, Vec<u8>>)> {
    let mut fields = Vec::new();
    let mut at = 0;
    while at < bytes.len() {
        let key = read_varint(bytes, &mut at);
        let value = match key & 7 {
            0 => Ok(read_varint(bytes, &mut at)),
            1 => {
                at += 8;
                Err(bytes[at - 8..at].to_vec())
            }
            2 => {
                let len = read_varint(bytes, &mut at) as usize;
                at += len;
                Err(bytes[at - len..at].to_vec())
            }
            5 => {
                at += 4;
                Err(bytes[at - 4..at].to_vec())
            }
            other => panic!("wire type {}", other),
        };
        fields.push((key >> 3, value));
    }
    assert_eq!(at, bytes.len());
    fields
}

fn read_packed(bytes: &[u8]) -> Vec<u64> {
    let mut at = 0;
    let mut out = Vec::new();
    while at < bytes.len() {
        out.push(read_varint(bytes, &mut at));
    }
    out
}

#[test]
fn a_written_tile_is_read_back_field_by_field() {
    let layer = TileLayer {
        name: "Straßen".to_string(),
        extent: 4096,
        keys: vec!["name".to_string(), "lanes".to_string(), "toll".to_string()],
        values: vec![
            FeatureAttrValType::String("A 1".to_string()),
            FeatureAttrValType::Int(-4),
            FeatureAttrValType::UInt(1 << 40),
            FeatureAttrValType::SInt(-200),
            FeatureAttrValType::Bool(true),
            FeatureAttrValType::Double(2.5f64.to_bits()),
            FeatureAttrValType::Float(2.5f32.to_bits()),
        ],
        features: vec![
            TileFeature {
                id: Some(u64::MAX),
                tags: vec![(0, 0), (1, 1), (2, 4)],
                geom_type: GeomType::LineString,
                geometry: vec![9, 4, 4, 18, 0, 16, 16, 0],
            },
            TileFeature {
                id: None,
                tags: Vec::new(),
                geom_type: GeomType::Point,
                geometry: vec![9, 0xffff_fffe, 0],
            },
        ],
    };
    let tile = Tile { layers: vec![layer.clone(), TileLayer::new("leer", 512)] };
    let layers = read_fields(&tile.binary_tile());
    assert_eq!(layers.len(), 2);
    assert!(layers.iter().all(|(number, _)| *number == 3));

    let fields = read_fields(layers[0].1.as_ref().unwrap_err());
    let numbers: Vec<u64> = fields.iter().map(|f| f.0).collect();
    assert_eq!(numbers, vec![15, 1, 2, 2, 3, 3, 3, 4, 4, 4, 4, 4, 4, 4, 5]);
    assert_eq!(fields[0].1, Ok(2));
    assert_eq!(fields[1].1, Err(layer.name.as_bytes().to_vec()));
    assert_eq!(fields[14].1, Ok(4096));
    for (field, key) in fields[4..7].iter().zip(layer.keys.iter()) {
        assert_eq!(field.1, Err(key.as_bytes().to_vec()));
    }

    let values: Vec<(u64, Result<u64, Vec<u8>>)> = fields[7..14]
        .iter()
        .map(|f| {
            let inner = read_fields(f.1.as_ref().unwrap_err());
            assert_eq!(inner.len(), 1);
            inner[0].clone()
        })
        .collect();
    assert_eq!(
        values,
        vec![
            (1, Err(b"A 1".to_vec())),
            (4, Ok(-4i64 as u64)),
            (5, Ok(1 << 40)),
            (6, Ok(399)),
            (7, Ok(1)),
            (3, Err(2.5f64.to_le_bytes().to_vec())),
            (2, Err(2.5f32.to_le_bytes().to_vec())),
        ]
    );

    let first = read_fields(fields[2].1.as_ref().unwrap_err());
    assert_eq!(first.iter().map(|f| f.0).collect::<Vec<u64>>(), vec![1, 2, 3, 4]);
    assert_eq!(first[0].1, Ok(u64::MAX));
    assert_eq!(read_packed(first[1].1.as_ref().unwrap_err()), vec![0, 0, 1, 1, 2, 4]);
    assert_eq!(first[2].1, Ok(2));
    assert_eq!(read_packed(first[3].1.as_ref().unwrap_err()), vec![9, 4, 4, 18, 0, 16, 16, 0]);

    let second = read_fields(fields[3].1.as_ref().unwrap_err());
    assert_eq!(second.iter().map(|f| f.0).collect::<Vec<u64>>(), vec![3, 4]);
    assert_eq!(second[0].1, Ok(1));
    assert_eq!(read_packed(second[1].1.as_ref().unwrap_err()), vec![9, 0xffff_fffe, 0]);

    let empty = read_fields(layers[1].1.as_ref().unwrap_err());
    assert_eq!(empty, vec![(15, Ok(2)), (1, Err(b"leer".to_vec())), (5, Ok(512))]);
}
