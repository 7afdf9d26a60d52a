//! Client side of the protocol.

use vstd::prelude::*;
use vstd::string::StringExecFns;

use crate::proto::messages::ServerMessage;
use crate::proto::payload::{bytes_seq, bytes_slice};
use crate::proto::types::{BlobChunk, EdgeData, EntityData, GetBlob, ServerStats};
use crate::server::dispatch::BlobReader;
use crate::text::joined;

verus! {

/// Number of bytes that a client asks for at a time.
pub const CHUNK_SIZE: u32 = 65536;

/// Failure of the connection.
#[derive(Debug)]
pub enum WsError {
    NotConnected,
    Other(String),
}

/// Failure of a request.
#[derive(Debug)]
pub enum ClientError {
    Ws(WsError),
    Protocol(String),
    Server(String),
}

impl ClientError {
    /// The failure in words.
    pub fn text(&self) -> (r: String)
        ensures
            r@ == match *self {
                ClientError::Ws(WsError::NotConnected) => "WebSocket error: not connected"@,
                ClientError::Ws(WsError::Other(report)) => "WebSocket error: "@ + report@,
                ClientError::Protocol(report) => "Protocol error: "@ + report@,
                ClientError::Server(report) => "Server error: "@ + report@,
            },
    {
        match self {
            ClientError::Ws(WsError::NotConnected) => String::from_str(
                "WebSocket error: not connected",
            ),
            ClientError::Ws(WsError::Other(report)) => joined(
                "WebSocket error: ",
                report.as_str(),
            ),
            ClientError::Protocol(report) => joined("Protocol error: ", report.as_str()),
            ClientError::Server(report) => joined("Server error: ", report.as_str()),
        }
    }
}

/// What came over the connection.
pub enum Frame {
    /// A binary message, decoded; otherwise the decoder's report.
    Binary(Result<ServerMessage, String>),
    /// The end of the connection.
    Closed,
    /// Anything else.
    Other,
}

/// What a client does with a frame.
pub enum FrameStep {
    /// Handle a message.
    Message(ServerMessage),
    /// Give up.
    Fail(ClientError),
    /// Wait for the next frame.
    Again,
}

/// Decides what to do with a frame.
pub fn on_frame(frame: Frame) -> (r: FrameStep)
    ensures
        match frame {
            Frame::Binary(Ok(message)) => r == FrameStep::Message(message),
            Frame::Binary(Err(report)) => r matches FrameStep::Fail(ClientError::Protocol(text))
                && text@ == "decode error: "@ + report@,
            Frame::Closed => r == FrameStep::Fail(ClientError::Ws(WsError::NotConnected)),
            Frame::Other => r == FrameStep::Again,
        },
{
    match frame {
        Frame::Binary(Ok(message)) => FrameStep::Message(message),
        Frame::Binary(Err(report)) => FrameStep::Fail(
            ClientError::Protocol(joined("decode error: ", report.as_str())),
        ),
        Frame::Closed => FrameStep::Fail(ClientError::Ws(WsError::NotConnected)),
        Frame::Other => FrameStep::Again,
    }
}

/// Text that reports a message that could not be encoded.
pub fn encode_error(report: &str) -> (r: ClientError)
    ensures
        r matches ClientError::Protocol(text) && text@ == "encode error: "@ + report@,
{
    ClientError::Protocol(joined("encode error: ", report))
}

/// State of a client between requests.
pub struct GraphClient {
    pub next_query_id: u32,
    pub stats: Option<ServerStats>,
    pub connected: bool,
}

impl GraphClient {
    /// A client that is not connected.
    pub fn new() -> (r: Self)
        ensures
            r.next_query_id == 0,
            r.stats is None,
            !r.connected,
    {
        GraphClient { next_query_id: 0, stats: None, connected: false }
    }

    /// Records that a connection was opened.
    pub fn opened(&mut self)
        ensures
            final(self).connected,
            final(self).stats == old(self).stats,
            final(self).next_query_id == old(self).next_query_id,
    {
        self.connected = true;
    }

    /// Records that the connection was closed.
    pub fn closed(&mut self)
        ensures
            !final(self).connected,
            final(self).stats == old(self).stats,
            final(self).next_query_id == old(self).next_query_id,
    {
        self.connected = false;
    }

    /// Takes the first message of a connection, which must be the server's
    /// greeting. `shown` is the message as text.
    pub fn on_greeting(&mut self, message: ServerMessage, shown: &str) -> (r: Result<(), ClientError>)
        ensures
            final(self).next_query_id == old(self).next_query_id,
            final(self).connected == old(self).connected,
            match message {
                ServerMessage::Hello { stats } => r is Ok && final(self).stats == Some(stats),
                _ => {
                    &&& final(self).stats == old(self).stats
                    &&& r matches Err(ClientError::Protocol(text)) && text@
                        == "expected Hello, got "@ + shown@
                },
            },
    {
        match message {
            ServerMessage::Hello { stats } => {
                self.stats = Some(stats);
                Ok(())
            },
            _ => Err(ClientError::Protocol(joined("expected Hello, got ", shown))),
        }
    }

    /// What the server said of itself.
    pub fn stats(&self) -> (r: Option<&ServerStats>)
        ensures
            match r {
                Some(stats) => self.stats == Some(*stats),
                None => self.stats is None,
            },
    {
        match &self.stats {
            Some(stats) => Some(stats),
            None => None,
        }
    }

    /// Tests whether the connection is open.
    pub fn is_connected(&self) -> (r: bool)
        ensures
            r == self.connected,
    {
        self.connected
    }

    /// Number of the next request; the numbers start over after the last one.
    pub fn next_request(&mut self) -> (r: u32)
        ensures
            r == old(self).next_query_id,
            final(self).next_query_id == if r == u32::MAX {
                0
            } else {
                (r + 1) as u32
            },
            final(self).stats == old(self).stats,
            final(self).connected == old(self).connected,
    {
        let query_id: u32 = self.next_query_id;
        self.next_query_id = query_id.wrapping_add(1);
        query_id
    }
}

/// What a request does after a message.
pub enum CollectStep {
    /// Wait for more.
    More,
    /// The request is done.
    Finished,
    /// The request failed.
    Failed(ClientError),
}

/// What a request has received so far.
pub struct Collector {
    pub query_id: u32,
    pub entities: Vec<EntityData>,
    pub edges: Vec<EdgeData>,
    pub chunks: Vec<BlobChunk>,
}

impl Collector {
    /// A request that has received nothing.
    pub fn new(query_id: u32) -> (r: Self)
        ensures
            r.query_id == query_id,
            r.entities@.len() == 0,
            r.edges@.len() == 0,
            r.chunks@.len() == 0,
    {
        Collector {
            query_id,
            entities: Vec::new(),
            edges: Vec::new(),
            chunks: Vec::new(),
        }
    }

    /// Takes a message. The request ends with the message that reports its own
    /// end or failure; such messages of other requests, greetings and batch
    /// headers are passed over.
    pub fn on_message(&mut self, message: ServerMessage) -> (r: CollectStep)
        ensures
            final(self).query_id == old(self).query_id,
            final(self).entities@ == match message {
                ServerMessage::Entity(e) => old(self).entities@.push(e),
                _ => old(self).entities@,
            },
            final(self).edges@ == match message {
                ServerMessage::Edge(e) => old(self).edges@.push(e),
                _ => old(self).edges@,
            },
            final(self).chunks@ == match message {
                ServerMessage::BlobChunk(c) => old(self).chunks@.push(c),
                _ => old(self).chunks@,
            },
            match message {
                ServerMessage::Done { query_id } => if query_id == old(self).query_id {
                    r == CollectStep::Finished
                } else {
                    r == CollectStep::More
                },
                ServerMessage::Error { query_id, message: text } => if query_id == old(
                    self,
                ).query_id {
                    r == CollectStep::Failed(ClientError::Server(text))
                } else {
                    r == CollectStep::More
                },
                _ => r == CollectStep::More,
            },
    {
        match message {
            ServerMessage::Done { query_id } => {
                if query_id == self.query_id {
                    return CollectStep::Finished;
                }
            },
            ServerMessage::Error { query_id, message: text } => {
                if query_id == self.query_id {
                    return CollectStep::Failed(ClientError::Server(text));
                }
            },
            ServerMessage::Entity(e) => {
                self.entities.push(e);
            },
            ServerMessage::Edge(e) => {
                self.edges.push(e);
            },
            ServerMessage::BlobChunk(c) => {
                self.chunks.push(c);
            },
            ServerMessage::Hello { stats: _ } => {},
            ServerMessage::Batch(_) => {},
        }
        CollectStep::More
    }
}

/// The entity that a request for one received last.
pub fn one_entity(entities: Vec<EntityData>) -> (r: Result<EntityData, ClientError>)
    ensures
        if entities@.len() > 0 {
            r == Ok::<EntityData, ClientError>(entities@.last())
        } else {
            r matches Err(ClientError::Protocol(text)) && text@ == "no entity returned"@
        },
{
    let mut entities = entities;
    match entities.pop() {
        Some(e) => Ok(e),
        None => Err(ClientError::Protocol(String::from_str("no entity returned"))),
    }
}

/// The chunk that a request for one received last.
pub fn one_chunk(chunks: Vec<BlobChunk>) -> (r: Result<BlobChunk, ClientError>)
    ensures
        if chunks@.len() > 0 {
            r == Ok::<BlobChunk, ClientError>(chunks@.last())
        } else {
            r matches Err(ClientError::Protocol(text)) && text@ == "no blob chunk returned"@
        },
{
    let mut chunks = chunks;
    match chunks.pop() {
        Some(c) => Ok(c),
        None => Err(ClientError::Protocol(String::from_str("no blob chunk returned"))),
    }
}

/// A blob as far as it was received.
pub struct BlobAssembler {
    pub hash: u64,
    pub total_size: u64,
    pub data: Vec<u8>,
}

impl BlobAssembler {
    /// Request for the first chunk.
    pub fn first_request(hash: u64) -> (r: GetBlob)
        ensures
            r == (GetBlob { hash, offset: 0, chunk_size: CHUNK_SIZE }),
    {
        GetBlob { hash, offset: 0, chunk_size: CHUNK_SIZE }
    }

    /// Starts with the first chunk, which says how large the blob is.
    pub fn start(hash: u64, first: &BlobChunk) -> (r: Self)
        ensures
            r.hash == hash,
            r.total_size == first.total_size,
            r.data@ == bytes_seq(first.data),
    {
        let mut data: Vec<u8> = Vec::new();
        data.extend_from_slice(bytes_slice(&first.data));
        assert(data@ =~= bytes_seq(first.data));
        BlobAssembler { hash, total_size: first.total_size, data }
    }

    /// Request for the next chunk, unless the blob is complete.
    pub fn next_request(&self) -> (r: Option<GetBlob>)
        ensures
            r == if self.data@.len() < self.total_size {
                Some(
                    GetBlob {
                        hash: self.hash,
                        offset: self.data@.len() as u64,
                        chunk_size: CHUNK_SIZE,
                    },
                )
            } else {
                None
            },
    {
        let offset: u64 = self.data.len() as u64;
        if offset < self.total_size {
            Some(GetBlob { hash: self.hash, offset, chunk_size: CHUNK_SIZE })
        } else {
            None
        }
    }

    /// Appends a chunk.
    pub fn take(&mut self, chunk: &BlobChunk)
        ensures
            final(self).hash == old(self).hash,
            final(self).total_size == old(self).total_size,
            final(self).data@ == old(self).data@ + bytes_seq(chunk.data),
    {
        self.data.extend_from_slice(bytes_slice(&chunk.data));
        assert(self.data@ =~= old(self).data@ + bytes_seq(chunk.data));
    }
}

/// A blob that fits into one chunk is complete after the first request: the
/// server passes all of it on at once, and nothing more is asked for.
pub proof fn law_small_blob_is_fetched(content: Seq<u8>, reader: BlobReader, blob: BlobAssembler)
    requires
        0 < content.len() <= CHUNK_SIZE,
        !reader.done,
        reader.offset == 0,
        reader.chunk_size == CHUNK_SIZE,
        reader.total == content.len(),
        blob.data@ == content,
        blob.total_size == reader.total,
    ensures
        reader.after(Some(content)).done,
        reader.passes_on(content) == content,
        blob.data@.len() >= blob.total_size,
{
    assert(content.subrange(0, content.len() as int) =~= content);
}

} // verus!
