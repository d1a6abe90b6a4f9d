use bondriver_mirakurun::channels::ChannelEntry;
use bondriver_mirakurun::config::Config;
use bondriver_mirakurun::tuner::{
    build_stream_path, build_stream_request, channel_from_byte, plan_wait, wait_answer, ChunkQueue,
    TunerState, WaitPlan, NO_CHANNEL,
};
use bondriver_mirakurun::util::{ASYNCBUFFSIZE, FALSE, TRUE, TSDATASIZE, WAIT_ABANDONED, WAIT_OBJECT_0, WAIT_TIMEOUT};

fn cfg(split: i32, decode: i32, priority: i32) -> Config {
    Config {
        server_host: "localhost".to_string(),
        server_port: "40772".to_string(),
        decode_b25: decode,
        priority,
        service_split: split,
    }
}

fn entry(sid: Option<u64>) -> ChannelEntry {
    ChannelEntry {
        type_: "BS".to_string(),
        channel: "BS15_0".to_string(),
        name: "NHK BS1".to_string(),
        service_id: sid,
    }
}

#[test]
fn tuner_state_transitions() {
    let mut t = TunerState::new();
    assert_eq!(t.get_cur_space(), 0);
    assert_eq!(t.get_cur_channel(), NO_CHANNEL);
    assert_eq!(t.open_tuner(false), FALSE);
    assert_eq!(t.open_tuner(true), TRUE);
    t.select(1, 4);
    assert_eq!(t.get_cur_space(), 1);
    assert_eq!(t.get_cur_channel(), 4);
    t.close_tuner();
    assert_eq!(t.get_cur_space(), 0);
    assert_eq!(t.get_cur_channel(), 0xffff_ffff);
}

#[test]
fn channel_byte_thirteen_is_channel_zero() {
    assert_eq!(channel_from_byte(13), 0);
    assert_eq!(channel_from_byte(20), 7);
    assert_eq!(channel_from_byte(0), 0xffff_fff3);
    assert_eq!(channel_from_byte(255), 242);
}

#[test]
fn stream_path_without_services() {
    assert_eq!(build_stream_path(&cfg(0, 1, 0), &entry(None)), "/api/channels/BS/BS15_0/stream?decode=1");
}

#[test]
fn stream_path_with_services() {
    assert_eq!(
        build_stream_path(&cfg(1, 0, 0), &entry(Some(101))),
        "/api/channels/BS/BS15_0/services/101/stream?decode=0"
    );
    assert_eq!(
        build_stream_path(&cfg(1, -1, 0), &entry(None)),
        "/api/channels/BS/BS15_0/services/0/stream?decode=-1"
    );
}

#[test]
fn stream_request_text() {
    assert_eq!(
        build_stream_request(&cfg(0, 1, -3), &entry(None)),
        "GET /api/channels/BS/BS15_0/stream?decode=1 HTTP/1.0\r\nX-Mirakurun-Priority: -3\r\n\r\n"
    );
}

#[test]
fn queue_is_fifo() {
    let mut q = ChunkQueue::new();
    assert!(q.is_empty());
    assert!(q.pop().is_none());
    q.push(vec![1]);
    q.push(vec![2, 2]);
    q.push(vec![3]);
    assert_eq!(q.ready_count(), 3);
    assert_eq!(q.pop(), Some((vec![1], 2)));
    assert_eq!(q.pop(), Some((vec![2, 2], 1)));
    assert_eq!(q.pop(), Some((vec![3], 0)));
    assert_eq!(q.pop(), None);
}

#[test]
fn full_queue_drops_oldest() {
    let mut q = ChunkQueue::new();
    for i in 0..(ASYNCBUFFSIZE + 5) {
        q.push(vec![i as u8]);
        assert!(q.ready_count() as usize <= ASYNCBUFFSIZE);
    }
    assert_eq!(q.ready_count() as usize, ASYNCBUFFSIZE);
    assert_eq!(q.pop().unwrap().0, vec![5u8]);
    q.clear();
    assert!(q.is_empty());
    assert_eq!(q.ready_count(), 0);
}

#[test]
fn wait_decisions() {
    assert_eq!(plan_wait(false, true, true, 10), WaitPlan::Answer(WAIT_ABANDONED));
    assert_eq!(plan_wait(true, false, true, 10), WaitPlan::Answer(WAIT_ABANDONED));
    assert_eq!(plan_wait(true, true, true, 10), WaitPlan::Answer(WAIT_OBJECT_0));
    assert_eq!(plan_wait(true, true, false, 0), WaitPlan::WaitUntilReady(1000));
    assert_eq!(plan_wait(true, true, false, 250), WaitPlan::WaitOnce(250));
    assert_eq!(wait_answer(false, true), WAIT_ABANDONED);
    assert_eq!(wait_answer(true, false), WAIT_TIMEOUT);
    assert_eq!(wait_answer(true, true), WAIT_OBJECT_0);
}

#[test]
fn queue_holds_whole_reads() {
    let mut q = ChunkQueue::new();
    q.push(vec![0x47; TSDATASIZE]);
    q.push(vec![0x47]);
    let (c, remain) = q.pop().unwrap();
    assert_eq!(c.len(), TSDATASIZE);
    assert_eq!(remain, 1);
    assert_eq!(q.pop().unwrap().0.len(), 1);
}
