use memdrain::drain::{Delay, Drain, Fault};
use memdrain::mem::{Mem, MemReq, NoDelay};

fn first_response_cycle(up: usize, down: usize, pushed_at: usize) -> usize {
    let mem: Mem<NoDelay, 4> = Mem::new(NoDelay::default());
    let mut delay = Delay::new(mem, up, down);
    for _ in 0..pushed_at {
        assert_eq!(delay.tick(), Ok(()));
    }
    delay.push(MemReq { id: 9, addr: 0x40, wbe: [true; 4], wdata: [5; 4] });
    let mut cycle = pushed_at;
    loop {
        if let Some(resp) = delay.pop() {
            assert_eq!(resp.id, 9);
            assert_eq!(resp.rdata, [5; 4]);
            return cycle;
        }
        assert_eq!(delay.tick(), Ok(()));
        cycle += 1;
        assert!(cycle < pushed_at + 100);
    }
}

#[test]
fn delay_adds_both_latencies_exactly() {
    assert_eq!(first_response_cycle(3, 5, 0), 8);
    assert_eq!(first_response_cycle(4, 2, 0), 6);
    assert_eq!(first_response_cycle(2, 7, 11), 20);
}

#[test]
fn zero_delay_still_needs_one_tick() {
    assert_eq!(first_response_cycle(0, 0, 0), 1);
    assert_eq!(first_response_cycle(0, 0, 3), 4);
}

#[test]
fn delay_keeps_request_order() {
    let mem: Mem<NoDelay, 2> = Mem::new(NoDelay::default());
    let mut delay = Delay::new(mem, 1, 1);
    for id in 0..3usize {
        let addr = 0x10 * id as u64;
        delay.push(MemReq { id, addr, wbe: [false; 2], wdata: [0; 2] });
    }
    let mut ids = Vec::new();
    for _ in 0..5 {
        assert_eq!(delay.tick(), Ok(()));
        while let Some(resp) = delay.pop() {
            ids.push(resp.id);
        }
    }
    assert_eq!(ids, vec![0, 1, 2]);
}

#[test]
fn delay_two_three_scenario() {
    let mem: Mem<NoDelay, 8> = Mem::new(NoDelay::default());
    let mut delay = Delay::new(mem, 2, 3);
    delay.push(MemReq { id: 7, addr: 0x40, wbe: [true; 8], wdata: [5; 8] });
    for _ in 0..4 {
        assert_eq!(delay.tick(), Ok(()));
        assert!(delay.pop().is_none());
    }
    assert_eq!(delay.tick(), Ok(()));
    let resp = delay.pop().unwrap();
    assert_eq!((resp.id, resp.rdata), (7, [5; 8]));
    assert!(delay.pop().is_none());
}

#[test]
fn refused_release_is_reported_by_tick() {
    let mem: Mem<NoDelay, 2> = Mem::new(NoDelay::default());
    let mut delay = Delay::new(mem, 0, 1);
    // both requests are due in the same tick; the memory refuses the second
    delay.push(MemReq { id: 1, addr: 0x10, wbe: [true; 2], wdata: [1; 2] });
    delay.push(MemReq { id: 2, addr: 0x10, wbe: [true; 2], wdata: [2; 2] });
    assert_eq!(delay.tick(), Err(Fault::DuplicateInFlight));
}
