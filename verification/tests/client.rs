use bytes::Bytes;
use segraph::client::{
    encode_error, on_frame, one_chunk, one_entity, BlobAssembler, ClientError, CollectStep,
    Collector, Frame, FrameStep, GraphClient, WsError, CHUNK_SIZE,
};
use segraph::proto::messages::ServerMessage;
use segraph::proto::types::{
    BatchHeader, BlobChunk, CodecSet, EdgeData, EntityData, GetBlob, ServerStats,
};

fn entity(id: u64) -> EntityData {
    EntityData {
        id,
        properties: vec![],
        blob_refs: vec![],
    }
}

fn chunk(data: &[u8], total_size: u64) -> BlobChunk {
    BlobChunk {
        hash: 1,
        offset: 0,
        total_size,
        data: Bytes::copy_from_slice(data),
    }
}

fn stats() -> ServerStats {
    ServerStats {
        entities: 1,
        edges: 2,
        blob_bytes: 3,
        supported_codecs: CodecSet::all(),
    }
}

#[test]
fn a_connection_begins_with_a_greeting() {
    let mut client = GraphClient::new();
    assert!(!client.is_connected());
    assert!(client.stats().is_none());
    client.opened();
    assert!(client.is_connected());
    let wrong = client.on_greeting(ServerMessage::Done { query_id: 0 }, "Done");
    assert_eq!(wrong.unwrap_err().text(), "Protocol error: expected Hello, got Done");
    assert!(client
        .on_greeting(ServerMessage::Hello { stats: stats() }, "Hello")
        .is_ok());
    assert_eq!(client.stats().unwrap().edges, 2);
    client.closed();
    assert!(!client.is_connected());
}

#[test]
fn requests_are_numbered_round_and_round() {
    let mut client = GraphClient::new();
    assert_eq!(client.next_request(), 0);
    assert_eq!(client.next_request(), 1);
    client.next_query_id = u32::MAX;
    assert_eq!(client.next_request(), u32::MAX);
    assert_eq!(client.next_request(), 0);
}

#[test]
fn only_binary_frames_hold_messages() {
    assert!(matches!(on_frame(Frame::Other), FrameStep::Again));
    assert!(matches!(
        on_frame(Frame::Closed),
        FrameStep::Fail(ClientError::Ws(WsError::NotConnected))
    ));
    match on_frame(Frame::Binary(Err("short".to_string()))) {
        FrameStep::Fail(e) => assert_eq!(e.text(), "Protocol error: decode error: short"),
        _ => panic!("no failure"),
    }
    assert!(matches!(
        on_frame(Frame::Binary(Ok(ServerMessage::Done { query_id: 4 }))),
        FrameStep::Message(ServerMessage::Done { query_id: 4 })
    ));
    assert_eq!(encode_error("big").text(), "Protocol error: encode error: big");
}

#[test]
fn failures_have_texts() {
    assert_eq!(
        ClientError::Ws(WsError::NotConnected).text(),
        "WebSocket error: not connected"
    );
    assert_eq!(
        ClientError::Ws(WsError::Other("tls".to_string())).text(),
        "WebSocket error: tls"
    );
    assert_eq!(
        ClientError::Server("gone".to_string()).text(),
        "Server error: gone"
    );
}

#[test]
fn a_request_collects_until_its_own_end() {
    let mut request = Collector::new(7);
    let more = |step: CollectStep| matches!(step, CollectStep::More);
    assert!(more(request.on_message(ServerMessage::Entity(entity(1)))));
    assert!(more(request.on_message(ServerMessage::Done { query_id: 6 })));
    assert!(more(request.on_message(ServerMessage::Error {
        query_id: 6,
        message: "other".to_string()
    })));
    assert!(more(request.on_message(ServerMessage::Hello { stats: stats() })));
    assert!(more(request.on_message(ServerMessage::Batch(BatchHeader {
        query_id: 7,
        entity_count: 1,
        flags: 0
    }))));
    assert!(more(request.on_message(ServerMessage::Entity(entity(2)))));
    assert!(more(request.on_message(ServerMessage::Edge(EdgeData {
        id: 5,
        source: 1,
        target: 2,
        label: 0,
        properties: vec![]
    }))));
    assert!(more(request.on_message(ServerMessage::BlobChunk(chunk(&[1], 1)))));
    assert!(matches!(
        request.on_message(ServerMessage::Done { query_id: 7 }),
        CollectStep::Finished
    ));
    assert_eq!(request.edges.len(), 1);
    assert_eq!(request.chunks.len(), 1);
    assert_eq!(one_entity(request.entities).unwrap().id, 2);
}

#[test]
fn a_request_fails_with_the_report_of_the_server() {
    let mut request = Collector::new(7);
    match request.on_message(ServerMessage::Error {
        query_id: 7,
        message: "entity not found: 9".to_string(),
    }) {
        CollectStep::Failed(e) => assert_eq!(e.text(), "Server error: entity not found: 9"),
        _ => panic!("no failure"),
    }
    assert_eq!(
        one_entity(vec![]).unwrap_err().text(),
        "Protocol error: no entity returned"
    );
    assert_eq!(
        one_chunk(vec![]).unwrap_err().text(),
        "Protocol error: no blob chunk returned"
    );
    assert_eq!(one_chunk(vec![chunk(&[1], 9), chunk(&[2], 9)]).unwrap().data[0], 2);
}

#[test]
fn a_blob_is_put_together_from_its_chunks() {
    assert_eq!(
        BlobAssembler::first_request(9),
        GetBlob {
            hash: 9,
            offset: 0,
            chunk_size: CHUNK_SIZE
        }
    );
    let mut blob = BlobAssembler::start(9, &chunk(&[1, 2, 3], 5));
    assert_eq!(blob.next_request().unwrap().offset, 3);
    blob.take(&chunk(&[4, 5], 5));
    assert!(blob.next_request().is_none());
    assert_eq!(blob.data, vec![1, 2, 3, 4, 5]);
    let small = BlobAssembler::start(9, &chunk(&[1], 1));
    assert!(small.next_request().is_none());
}
