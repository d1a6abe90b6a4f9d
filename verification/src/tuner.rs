//! The tuner's decisions: which channel is selected, the requests that
//! open a stream, the bounded queue of received stream data, and what a
//! wait for data reports.
use vstd::prelude::*;
use std::collections::VecDeque;
use crate::channels::{ChannelEntry, EntryModel};
use crate::config::{leading_int, lemma_signed_decimal_reads_back, Config};
use crate::text::{decimal, push_decimal, push_signed_decimal, signed_decimal};
use crate::util::{ASYNCBUFFSIZE, FALSE, TSDATASIZE, TRUE, WAIT_ABANDONED, WAIT_OBJECT_0, WAIT_TIMEOUT};

verus! {

/// The channel number that means "no channel selected".
pub const NO_CHANNEL: u32 = 0xffff_ffff;

/// The selection state of the tuner.
pub struct TunerState {
    open: bool,
    cur_space: u32,
    cur_channel: u32,
}

/// The selection state, as plain values.
pub struct TunerModel {
    pub open: bool,
    pub cur_space: u32,
    pub cur_channel: u32,
}

impl View for TunerState {
    type V = TunerModel;

    closed spec fn view(&self) -> TunerModel {
        TunerModel { open: self.open, cur_space: self.cur_space, cur_channel: self.cur_channel }
    }
}

impl TunerState {
    /// A closed tuner on space 0 with no channel selected.
    pub fn new() -> (r: TunerState)
        ensures
            r@ == (TunerModel { open: false, cur_space: 0, cur_channel: NO_CHANNEL }),
    {
        TunerState { open: false, cur_space: 0, cur_channel: NO_CHANNEL }
    }

    /// Opens the tuner, which succeeds only when a channel list is at hand.
    pub fn open_tuner(&mut self, have_channels: bool) -> (r: i32)
        ensures
            have_channels ==> r == TRUE && final(self)@ == (TunerModel {
                open: true,
                ..old(self)@
            }),
            !have_channels ==> r == FALSE && final(self)@ == old(self)@,
    {
        if !have_channels {
            return FALSE;
        }
        self.open = true;
        TRUE
    }

    /// Forgets the selected channel (the stream itself is stopped by the
    /// caller).
    pub fn close_tuner(&mut self)
        ensures
            final(self)@ == (TunerModel { open: old(self)@.open, cur_space: 0, cur_channel: NO_CHANNEL }),
    {
        self.cur_space = 0;
        self.cur_channel = NO_CHANNEL;
    }

    /// Records that `channel` of `space` now streams.
    pub fn select(&mut self, space: u32, channel: u32)
        ensures
            final(self)@ == (TunerModel { open: old(self)@.open, cur_space: space, cur_channel: channel }),
    {
        self.cur_space = space;
        self.cur_channel = channel;
    }

    /// The selected tuning space.
    pub fn get_cur_space(&self) -> (r: u32)
        ensures
            r == self@.cur_space,
    {
        self.cur_space
    }

    /// The selected channel, `NO_CHANNEL` when none is.
    pub fn get_cur_channel(&self) -> (r: u32)
        ensures
            r == self@.cur_channel,
    {
        self.cur_channel
    }
}

/// The channel that the older, byte-numbered selection call means: byte
/// 13 is channel 0 of space 0, and smaller bytes wrap around.
pub fn channel_from_byte(ch: u8) -> (r: u32)
    ensures
        r as int == (ch as int - 13) % 0x1_0000_0000,
{
    (ch as u32).wrapping_sub(13)
}

/// The path of the stream of one channel (or, with service splitting, of
/// one service), with the decoding setting.
pub open spec fn stream_path(split: bool, e: EntryModel, decode: i32) -> Seq<char> {
    if split {
        let sid: u64 = match e.service_id {
            Some(s) => s,
            None => 0,
        };
        "/api/channels/"@ + e.type_ + "/"@ + e.channel + "/services/"@ + decimal(sid as nat)
            + "/stream?decode="@ + signed_decimal(decode as int)
    } else {
        "/api/channels/"@ + e.type_ + "/"@ + e.channel + "/stream?decode="@ + signed_decimal(
            decode as int,
        )
    }
}

/// The request that opens a stream, with the configured priority.
pub open spec fn stream_request(path: Seq<char>, priority: i32) -> Seq<char> {
    "GET "@ + path + " HTTP/1.0\r\nX-Mirakurun-Priority: "@ + signed_decimal(priority as int)
        + "\r\n\r\n"@
}

/// The stream path names the entry's type and channel and asks for the
/// configured decoding: in both modes it starts with
/// `/api/channels/<type>/<channel>` and ends with `/stream?decode=`
/// followed by the setting written in decimal, which reads back as the
/// setting; with service splitting, `/services/<id>` (0 without an id)
/// stands between the two, and otherwise nothing does.
pub proof fn lemma_stream_path_parts(e: EntryModel, d: i32)
    ensures
        ({
            let head = "/api/channels/"@ + e.type_ + "/"@ + e.channel;
            let tail = "/stream?decode="@ + signed_decimal(d as int);
            let sid: u64 = match e.service_id {
                Some(s) => s,
                None => 0,
            };
            &&& forall|split: bool| {
                let p = #[trigger] stream_path(split, e, d);
                &&& p.len() >= head.len() + tail.len()
                &&& p.subrange(0, head.len() as int) == head
                &&& p.subrange(p.len() - tail.len(), p.len() as int) == tail
            }
            &&& tail.subrange(0, 15) == "/stream?decode="@
            &&& leading_int(tail.subrange(15, tail.len() as int)) == Some(d)
            &&& stream_path(false, e, d).len() == head.len() + tail.len()
            &&& stream_path(true, e, d).subrange(
                head.len() as int,
                stream_path(true, e, d).len() - tail.len(),
            ) == "/services/"@ + decimal(sid as nat)
        }),
{
    reveal_strlit("/stream?decode=");
    let head = "/api/channels/"@ + e.type_ + "/"@ + e.channel;
    let tail = "/stream?decode="@ + signed_decimal(d as int);
    let sid: u64 = match e.service_id {
        Some(s) => s,
        None => 0,
    };
    let mid = "/services/"@ + decimal(sid as nat);
    let p0 = stream_path(false, e, d);
    let p1 = stream_path(true, e, d);
    assert(p0 =~= head + tail);
    assert(p1 =~= head + mid + tail);
    assert(p0.subrange(0, head.len() as int) =~= head);
    assert(p1.subrange(0, head.len() as int) =~= head);
    assert(p0.subrange(p0.len() - tail.len(), p0.len() as int) =~= tail);
    assert(p1.subrange(p1.len() - tail.len(), p1.len() as int) =~= tail);
    assert(p1.subrange(head.len() as int, p1.len() - tail.len()) =~= mid);
    assert(tail.subrange(0, 15) =~= "/stream?decode="@);
    assert(tail.subrange(15, tail.len() as int) =~= signed_decimal(d as int));
    lemma_signed_decimal_reads_back(d);
    assert forall|split: bool| {
        let p = #[trigger] stream_path(split, e, d);
        &&& p.len() >= head.len() + tail.len()
        &&& p.subrange(0, head.len() as int) == head
        &&& p.subrange(p.len() - tail.len(), p.len() as int) == tail
    } by {
        if split {
            assert(stream_path(split, e, d) == p1);
        } else {
            assert(stream_path(split, e, d) == p0);
        }
    }
}

/// The request that opens a stream asks for exactly `path`: it starts with
/// `GET `, the path and ` HTTP/1.0`, and the priority header that follows
/// carries the priority, which reads back as it.
pub proof fn lemma_stream_request_parts(path: Seq<char>, priority: i32)
    ensures
        ({
            let r = stream_request(path, priority);
            let n = path.len() as int;
            let pr = signed_decimal(priority as int);
            &&& r.subrange(0, 4) == "GET "@
            &&& r.subrange(4, 4 + n) == path
            &&& r.subrange(4 + n, 4 + n + 33) == " HTTP/1.0\r\nX-Mirakurun-Priority: "@
            &&& r.subrange(4 + n + 33, 4 + n + 33 + pr.len()) == pr
            &&& leading_int(pr) == Some(priority)
            &&& r.subrange(4 + n + 33 + pr.len(), r.len() as int) == "\r\n\r\n"@
        }),
{
    reveal_strlit("GET ");
    reveal_strlit(" HTTP/1.0\r\nX-Mirakurun-Priority: ");
    reveal_strlit("\r\n\r\n");
    let r = stream_request(path, priority);
    let n = path.len() as int;
    let pr = signed_decimal(priority as int);
    assert(r.subrange(0, 4) =~= "GET "@);
    assert(r.subrange(4, 4 + n) =~= path);
    assert(r.subrange(4 + n, 4 + n + 33) =~= " HTTP/1.0\r\nX-Mirakurun-Priority: "@);
    assert(r.subrange(4 + n + 33, 4 + n + 33 + pr.len()) =~= pr);
    assert(r.subrange(4 + n + 33 + pr.len(), r.len() as int) =~= "\r\n\r\n"@);
    lemma_signed_decimal_reads_back(priority);
}

/// The stream path for `entry` under `cfg` (see [`stream_path`]).
pub fn build_stream_path(cfg: &Config, entry: &ChannelEntry) -> (r: String)
    ensures
        r@ == stream_path(cfg.service_split == 1, entry@, cfg.decode_b25),
{
    let mut out = "/api/channels/".to_owned();
    out.append(entry.type_.as_str());
    out.append("/");
    out.append(entry.channel.as_str());
    if cfg.service_split == 1 {
        let sid = match entry.service_id {
            Some(s) => s,
            None => 0,
        };
        out.append("/services/");
        push_decimal(&mut out, sid);
    }
    out.append("/stream?decode=");
    push_signed_decimal(&mut out, cfg.decode_b25);
    out
}

/// The request that opens the stream of `entry` under `cfg`.
pub fn build_stream_request(cfg: &Config, entry: &ChannelEntry) -> (r: String)
    ensures
        r@ == stream_request(stream_path(cfg.service_split == 1, entry@, cfg.decode_b25), cfg.priority),
{
    let path = build_stream_path(cfg, entry);
    let mut out = "GET ".to_owned();
    out.append(path.as_str());
    out.append(" HTTP/1.0\r\nX-Mirakurun-Priority: ");
    push_signed_decimal(&mut out, cfg.priority);
    out.append("\r\n\r\n");
    out
}

/// The chunks a queue keeps after `c` arrives: the newest
/// `ASYNCBUFFSIZE` of all it held and `c`.
pub open spec fn after_push(q: Seq<Seq<u8>>, c: Seq<u8>) -> Seq<Seq<u8>> {
    let all = q.push(c);
    if all.len() > ASYNCBUFFSIZE {
        all.subrange(all.len() - ASYNCBUFFSIZE, all.len() as int)
    } else {
        all
    }
}

/// Pushing keeps the queue within `ASYNCBUFFSIZE` chunks, puts the new
/// chunk last, loses nothing while there is room, and otherwise drops
/// exactly the oldest chunk.
pub proof fn lemma_after_push(q: Seq<Seq<u8>>, c: Seq<u8>)
    requires
        q.len() <= ASYNCBUFFSIZE,
    ensures
        after_push(q, c).len() <= ASYNCBUFFSIZE,
        after_push(q, c).last() == c,
        q.len() < ASYNCBUFFSIZE ==> after_push(q, c) == q.push(c),
        q.len() == ASYNCBUFFSIZE ==> after_push(q, c) == q.drop_first().push(c),
{
    if q.len() == ASYNCBUFFSIZE {
        assert(after_push(q, c) =~= q.drop_first().push(c));
    }
}

/// Whether `c` is a chunk one read of the stream can give: at least one
/// byte and at most `TSDATASIZE`.
pub open spec fn read_sized(c: Seq<u8>) -> bool {
    1 <= c.len() <= TSDATASIZE
}

/// Whether every chunk of `q` is [`read_sized`].
pub open spec fn all_read_sized(q: Seq<Seq<u8>>) -> bool {
    forall|i: int| 0 <= i < q.len() ==> read_sized(#[trigger] q[i])
}

/// Received stream data, oldest first, at most `ASYNCBUFFSIZE` chunks of
/// 1 to `TSDATASIZE` bytes each;
/// when it is full the oldest chunk makes room for a new one.
pub struct ChunkQueue {
    chunks: VecDeque<Vec<u8>>,
}

impl View for ChunkQueue {
    type V = Seq<Seq<u8>>;

    closed spec fn view(&self) -> Seq<Seq<u8>> {
        self.chunks@.map_values(|c: Vec<u8>| c@)
    }
}

impl ChunkQueue {
    #[verifier::type_invariant]
    closed spec fn bounded(self) -> bool {
        &&& self.chunks@.len() <= ASYNCBUFFSIZE
        &&& all_read_sized(self@)
    }

    /// An empty queue.
    pub fn new() -> (r: ChunkQueue)
        ensures
            r@ == Seq::<Seq<u8>>::empty(),
    {
        let chunks: VecDeque<Vec<u8>> = VecDeque::new();
        let r = ChunkQueue { chunks };
        assert(r@ =~= Seq::<Seq<u8>>::empty());
        r
    }

    /// Appends a chunk of one read, dropping the oldest ones while the
    /// queue is full.
    pub fn push(&mut self, chunk: Vec<u8>)
        requires
            read_sized(chunk@),
        ensures
            final(self)@ == after_push(old(self)@, chunk@),
            final(self)@.len() <= ASYNCBUFFSIZE,
            all_read_sized(final(self)@),
    {
        proof {
            use_type_invariant(&*self);
        }
        let ghost c = chunk@;
        let ghost q = self@;
        let mut chunks: VecDeque<Vec<u8>> = VecDeque::new();
        std::mem::swap(&mut chunks, &mut self.chunks);
        assert(chunks@.map_values(|c: Vec<u8>| c@) == q);
        if chunks.len() >= ASYNCBUFFSIZE {
            let _ = chunks.pop_front();
            assert(chunks@.map_values(|c: Vec<u8>| c@) =~= q.subrange(1, q.len() as int));
        }
        let ghost mid = chunks@;
        chunks.push_back(chunk);
        assert(chunks@ == mid.push(chunk));
        assert(chunks@.map_values(|c: Vec<u8>| c@) =~= after_push(q, c));
        assert forall|i: int| 0 <= i < after_push(q, c).len() implies read_sized(
            #[trigger] after_push(q, c)[i],
        ) by {
            if i < after_push(q, c).len() - 1 {
                if q.len() + 1 > ASYNCBUFFSIZE {
                    assert(after_push(q, c)[i] == q[i + 1]);
                } else {
                    assert(after_push(q, c)[i] == q[i]);
                }
            }
        }
        self.chunks = chunks;
    }

    /// Takes the oldest chunk and tells how many remain after it.
    pub fn pop(&mut self) -> (r: Option<(Vec<u8>, u32)>)
        ensures
            match r {
                Some((c, remain)) => old(self)@.len() > 0 && c@ == old(self)@[0] && final(self)@
                    == old(self)@.drop_first() && remain == final(self)@.len() && read_sized(c@),
                None => old(self)@.len() == 0 && final(self)@ == old(self)@,
            },
    {
        proof {
            use_type_invariant(&*self);
        }
        let ghost q = self@;
        let mut chunks: VecDeque<Vec<u8>> = VecDeque::new();
        std::mem::swap(&mut chunks, &mut self.chunks);
        assert(chunks@.map_values(|c: Vec<u8>| c@) == q);
        let r = match chunks.pop_front() {
            Some(c) => {
                assert(chunks@.map_values(|c: Vec<u8>| c@) =~= q.drop_first());
                assert forall|i: int| 0 <= i < q.drop_first().len() implies read_sized(
                    #[trigger] q.drop_first()[i],
                ) by {
                    assert(q.drop_first()[i] == q[i + 1]);
                }
                assert(read_sized(q[0]));
                let remain = chunks.len() as u32;
                Some((c, remain))
            },
            None => None,
        };
        self.chunks = chunks;
        r
    }

    /// Drops every chunk.
    pub fn clear(&mut self)
        ensures
            final(self)@ == Seq::<Seq<u8>>::empty(),
    {
        self.chunks = VecDeque::new();
        assert(self@ =~= Seq::<Seq<u8>>::empty());
    }

    /// The number of queued chunks, never more than `ASYNCBUFFSIZE`.
    pub fn ready_count(&self) -> (r: u32)
        ensures
            r == self@.len(),
            r <= ASYNCBUFFSIZE,
    {
        proof {
            use_type_invariant(self);
        }
        self.chunks.len() as u32
    }

    /// Whether no chunk is queued.
    pub fn is_empty(&self) -> (r: bool)
        ensures
            r == (self@.len() == 0),
    {
        self.chunks.len() == 0
    }
}

/// What to do before answering a wait for stream data.
#[derive(Debug, PartialEq, Eq, Structural)]
pub enum WaitPlan {
    /// Answer at once with this code.
    Answer(u32),
    /// Wait up to this many milliseconds once, then answer.
    WaitOnce(u32),
    /// Wait in slices of this many milliseconds until data comes or the
    /// stream ends, then answer.
    WaitUntilReady(u32),
}

/// The first decision of a wait: without a running stream the wait is
/// abandoned; with data at hand there is no need to wait; a timeout of 0
/// waits as long as it takes, in one-second slices.
pub fn plan_wait(has_stream: bool, running: bool, has_data: bool, timeout_ms: u32) -> (r: WaitPlan)
    ensures
        r == (if !has_stream || !running {
            WaitPlan::Answer(WAIT_ABANDONED)
        } else if has_data {
            WaitPlan::Answer(WAIT_OBJECT_0)
        } else if timeout_ms == 0 {
            WaitPlan::WaitUntilReady(1000)
        } else {
            WaitPlan::WaitOnce(timeout_ms)
        }),
{
    if !has_stream || !running {
        WaitPlan::Answer(WAIT_ABANDONED)
    } else if has_data {
        WaitPlan::Answer(WAIT_OBJECT_0)
    } else if timeout_ms == 0 {
        WaitPlan::WaitUntilReady(1000)
    } else {
        WaitPlan::WaitOnce(timeout_ms)
    }
}

/// The answer after waiting: abandoned once the stream has ended, a
/// timeout when still no data is queued, ready otherwise.
pub fn wait_answer(running: bool, has_data: bool) -> (r: u32)
    ensures
        r == (if !running {
            WAIT_ABANDONED
        } else if !has_data {
            WAIT_TIMEOUT
        } else {
            WAIT_OBJECT_0
        }),
{
    if !running {
        WAIT_ABANDONED
    } else if !has_data {
        WAIT_TIMEOUT
    } else {
        WAIT_OBJECT_0
    }
}

} // verus!
