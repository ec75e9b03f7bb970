//! Captured chunks of payload.

use vstd::prelude::*;

use crate::buffer::BufferPool;

verus! {

/// Which way a chunk of payload was moving through a pipeline.
///
/// `Outbound` is client to target, `Inbound` is target to client.
#[derive(Debug, Clone, Copy, PartialEq, Eq, Structural)]
pub enum Direction {
    Inbound,
    Outbound,
}

impl Direction {
    /// The label of a direction.
    pub open spec fn label(self) -> Seq<char> {
        match self {
            Direction::Inbound => "INBOUND"@,
            Direction::Outbound => "OUTBOUND"@,
        }
    }

    /// The label of a direction.
    pub fn as_str(&self) -> (s: &'static str)
        ensures
            s@ == self.label(),
    {
        match self {
            Direction::Inbound => "INBOUND",
            Direction::Outbound => "OUTBOUND",
        }
    }
}

/// What `DateTime::to_rfc3339` writes for a moment given as whole seconds since
/// the Unix epoch and nanoseconds, or `None` where `DateTime::from_timestamp`
/// takes no such moment.
pub uninterp spec fn rfc3339_text(secs: i64, nanos: u32) -> Option<Seq<char>>;

/// `chrono::DateTime::<Utc>::from_timestamp` makes a moment of its two numbers
/// or refuses them, and `to_rfc3339` writes it in RFC 3339. The outcome depends
/// on the two numbers alone; what the text is, is left unsaid.
#[verifier::external_body]
fn format_rfc3339(secs: i64, nanos: u32) -> (text: Option<String>)
    ensures
        rfc3339_text(secs, nanos) == (match text {
            Some(s) => Some(s@),
            None => None,
        }),
{
    match chrono::DateTime::<chrono::Utc>::from_timestamp(secs, nanos) {
        Some(moment) => Some(moment.to_rfc3339()),
        None => None,
    }
}

/// `chrono::Utc::now` reads the system clock. Whatever the clock says, the
/// seconds and nanoseconds that come out are ones that `from_timestamp` takes.
/// (With a clock set before the Unix epoch `Utc::now` panics.)
#[verifier::external_body]
fn clock_now() -> (now: (i64, u32))
    ensures
        rfc3339_text(now.0, now.1) is Some,
{
    let now = chrono::Utc::now();
    (now.timestamp(), now.timestamp_subsec_nanos())
}

/// A moment in UTC.
#[derive(Debug, Clone, Copy)]
pub struct Timestamp {
    secs: i64,
    nanos: u32,
}

impl Timestamp {
    #[verifier::type_invariant]
    spec fn representable(self) -> bool {
        rfc3339_text(self.secs, self.nanos) is Some
    }

    /// Whole seconds since the Unix epoch.
    pub closed spec fn seconds(self) -> i64 {
        self.secs
    }

    /// Nanoseconds since the last whole second.
    pub closed spec fn subsec_nanos(self) -> u32 {
        self.nanos
    }

    /// The moment in RFC 3339.
    pub open spec fn rfc3339(self) -> Seq<char> {
        rfc3339_text(self.seconds(), self.subsec_nanos())->0
    }

    /// The current time.
    pub fn now() -> (t: Self)
        ensures
            rfc3339_text(t.seconds(), t.subsec_nanos()) is Some,
    {
        let now = clock_now();
        Timestamp { secs: now.0, nanos: now.1 }
    }

    /// The moment so many seconds and nanoseconds after the Unix epoch, when it
    /// can be represented.
    pub fn from_parts(secs: i64, nanos: u32) -> (t: Option<Self>)
        ensures
            t is Some <==> rfc3339_text(secs, nanos) is Some,
            t matches Some(t) ==> t.seconds() == secs && t.subsec_nanos() == nanos,
    {
        match format_rfc3339(secs, nanos) {
            Some(_) => Some(Timestamp { secs, nanos }),
            None => None,
        }
    }

    /// The moment in RFC 3339.
    pub fn to_rfc3339(&self) -> (text: String)
        ensures
            text@ == self.rfc3339(),
            rfc3339_text(self.seconds(), self.subsec_nanos()) == Some(text@),
    {
        proof {
            use_type_invariant(self);
        }
        format_rfc3339(self.secs, self.nanos).unwrap()
    }
}

/// One captured chunk of payload crossing a pipeline: one read's worth of bytes,
/// with the time, the pipeline and the direction that it belongs to. There is no
/// header to parse, since pipelines carry byte streams.
#[derive(Debug, Clone)]
pub struct Packet {
    pub pipeline: String,
    pub direction: Direction,
    pub timestamp: Timestamp,
    pub bytes: Vec<u8>,
}

impl Packet {
    /// A packet of the current time.
    pub fn new(pipeline: &str, direction: Direction, bytes: &[u8]) -> (packet: Self)
        ensures
            packet.pipeline@ == pipeline@,
            packet.direction == direction,
            packet.bytes@ == bytes@,
    {
        Packet {
            pipeline: pipeline.to_owned(),
            direction,
            timestamp: Timestamp::now(),
            bytes: vstd::slice::slice_to_vec(bytes),
        }
    }

    /// The length of the payload.
    pub fn len(&self) -> (n: usize)
        ensures
            n == self.bytes@.len(),
    {
        self.bytes.len()
    }

    /// Whether there is no payload.
    pub fn is_empty(&self) -> (b: bool)
        ensures
            b == (self.bytes@.len() == 0),
    {
        self.bytes.len() == 0
    }

    /// As `new`, with a buffer of the pool for the payload.
    pub fn pooled(
        pool: &mut BufferPool,
        pipeline: &str,
        direction: Direction,
        bytes: &[u8],
    ) -> (packet: Self)
        requires
            old(pool).wf(),
        ensures
            packet.pipeline@ == pipeline@,
            packet.direction == direction,
            packet.bytes@ == bytes@,
            final(pool).wf(),
            final(pool).max_idle() == old(pool).max_idle(),
            final(pool).buf_size() == old(pool).buf_size(),
            final(pool).parked() == (if old(pool).parked().len() > 0 {
                old(pool).parked().drop_last()
            } else {
                old(pool).parked()
            }),
    {
        let mut buf = pool.acquire();
        buf.extend_from_slice(bytes);
        assert(buf@ =~= bytes@);
        Packet { pipeline: pipeline.to_owned(), direction, timestamp: Timestamp::now(), bytes: buf }
    }

    /// Return this packet's buffer to the pool once it is done with.
    pub fn recycle(self, pool: &mut BufferPool)
        requires
            old(pool).wf(),
        ensures
            final(pool).wf(),
            final(pool).max_idle() == old(pool).max_idle(),
            final(pool).buf_size() == old(pool).buf_size(),
            old(pool).parked().len() < old(pool).max_idle() ==> {
                &&& final(pool).parked().len() == old(pool).parked().len() + 1
                &&& final(pool).parked().drop_last() == old(pool).parked()
                &&& final(pool).parked().last()@ == Seq::<u8>::empty()
            },
            old(pool).parked().len() >= old(pool).max_idle() ==> final(pool).parked() == old(
                pool,
            ).parked(),
    {
        pool.release(self.bytes);
    }
}

} // verus!
