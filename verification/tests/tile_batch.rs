use bytes::Bytes;
use segraph::proto::le::{push_u16, push_u32, push_u64, read_u16, read_u32, read_u64};
use segraph::proto::tile::{decode_tile_batch, encode_tile_batch, TileMeta};

fn meta(tx: u32, ty: u32) -> TileMeta {
    TileMeta {
        tx,
        ty,
        layer: 3,
        codec: 4,
        node_count: 5,
        edge_count: 6,
    }
}

#[test]
fn encodes_and_decodes_tile_batch_empty() {
    let buf = encode_tile_batch(1, 2, &[]);
    let decoded = decode_tile_batch(&buf).unwrap();
    assert_eq!(decoded.request_id, 1);
    assert_eq!(decoded.lod, 2);
    assert!(decoded.tiles.is_empty());
}

#[test]
fn encodes_and_decodes_tile_batch_with_tiles() {
    let tiles = vec![
        (
            TileMeta {
                tx: 100,
                ty: 200,
                layer: 1,
                codec: 0,
                node_count: 10,
                edge_count: 0,
            },
            Bytes::from_static(&[0, 1, 2, 3]),
        ),
        (
            TileMeta {
                tx: 105,
                ty: 203,
                layer: 2,
                codec: 1,
                node_count: 0,
                edge_count: 5,
            },
            Bytes::from_static(&[4, 5]),
        ),
    ];
    let buf = encode_tile_batch(7, 3, &tiles);
    let decoded = decode_tile_batch(&buf).unwrap();
    assert_eq!(decoded.request_id, 7);
    assert_eq!(decoded.lod, 3);
    assert_eq!(decoded.tiles.len(), 2);
    assert_eq!(decoded.tiles[0].tx, 100);
    assert_eq!(decoded.tiles[0].ty, 200);
    assert_eq!(decoded.tiles[0].node_count, 10);
    assert_eq!(decoded.tiles[0].payload.len(), 4);
    assert_eq!(decoded.tiles[1].tx, 105);
    assert_eq!(decoded.tiles[1].ty, 203);
    assert_eq!(decoded.tiles[1].edge_count, 5);
    assert_eq!(decoded.tiles[1].payload.len(), 2);
}

#[test]
fn tile_batch_rejects_bad_magic() {
    let mut buf = encode_tile_batch(1, 0, &[]);
    buf[0] = 0xFF;
    assert!(decode_tile_batch(&buf).is_none());
}

#[test]
fn tile_batch_rejects_truncated() {
    let buf = encode_tile_batch(1, 0, &[]);
    assert!(decode_tile_batch(&buf[..4]).is_none());
}

#[test]
fn tile_batch_rejects_wrong_version() {
    let mut buf = encode_tile_batch(1, 0, &[]);
    buf[5] = 0xFF;
    assert!(decode_tile_batch(&buf).is_none());
}

#[test]
fn payload_bytes_come_back_as_written() {
    let tiles = vec![(meta(8, 9), Bytes::from(vec![9u8, 8, 7]))];
    let decoded = decode_tile_batch(&encode_tile_batch(0, 0, &tiles)).unwrap();
    assert_eq!(&decoded.tiles[0].payload[..], &[9, 8, 7]);
    let copy = decoded.tiles[0].clone();
    assert_eq!(copy.payload, decoded.tiles[0].payload);
    assert_eq!((copy.layer, copy.codec), (3, 4));
}

#[test]
fn tiles_left_of_or_above_the_first_one_come_back() {
    let tiles = vec![
        (meta(100, 200), Bytes::new()),
        (meta(97, 150), Bytes::from(vec![1u8])),
        (meta(101, 201), Bytes::from(vec![2u8, 3])),
    ];
    let decoded = decode_tile_batch(&encode_tile_batch(1, 9, &tiles)).unwrap();
    let places: Vec<(u32, u32)> = decoded.tiles.iter().map(|t| (t.tx, t.ty)).collect();
    assert_eq!(places, vec![(100, 200), (97, 150), (101, 201)]);
}

#[test]
fn every_shorter_prefix_of_a_batch_is_rejected() {
    let tiles = vec![(meta(1, 2), Bytes::from(vec![1u8, 2, 3]))];
    let buf = encode_tile_batch(1, 1, &tiles);
    for len in 0..buf.len() {
        assert!(decode_tile_batch(&buf[..len]).is_none());
    }
    assert!(decode_tile_batch(&buf).is_some());
}

#[test]
fn little_endian_integers_read_back() {
    let mut buf: Vec<u8> = Vec::new();
    push_u16(&mut buf, 0x0102);
    push_u32(&mut buf, 0x0304_0506);
    push_u64(&mut buf, 0x0708_090a_0b0c_0d0e);
    assert_eq!(
        buf,
        vec![2, 1, 6, 5, 4, 3, 0x0e, 0x0d, 0x0c, 0x0b, 0x0a, 9, 8, 7]
    );
    assert_eq!(read_u16(&buf, 0), 0x0102);
    assert_eq!(read_u32(&buf, 2), 0x0304_0506);
    assert_eq!(read_u64(&buf, 6), 0x0708_090a_0b0c_0d0e);
}
