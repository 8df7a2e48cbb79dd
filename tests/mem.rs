use memdrain::drain::{Drain, Fault};
use memdrain::mem::{Mem, MemReq, NoDelay};

fn drain_one<const W: usize>(mem: &mut Mem<NoDelay, W>) -> (usize, [u8; W]) {
    let resp = mem.pop().expect("a response is ready");
    (resp.id, resp.rdata)
}

#[test]
fn write_then_read_round_trip() {
    let mut mem: Mem<NoDelay, 4> = Mem::new(NoDelay::default());
    let data = [0x11, 0x22, 0x33, 0x44];
    mem.push(MemReq { id: 1, addr: 0x100, wbe: [true; 4], wdata: data });
    assert_eq!(drain_one(&mut mem), (1, data));
    mem.push(MemReq { id: 2, addr: 0x100, wbe: [false; 4], wdata: [9; 4] });
    assert_eq!(drain_one(&mut mem), (2, data));
}

#[test]
fn untouched_address_reads_zero() {
    let mut mem: Mem<NoDelay, 4> = Mem::new(NoDelay::default());
    mem.push(MemReq { id: 3, addr: 0x200, wbe: [false; 4], wdata: [7; 4] });
    assert_eq!(drain_one(&mut mem), (3, [0; 4]));
}

#[test]
fn partial_mask_changes_only_masked_bytes() {
    let mut mem: Mem<NoDelay, 4> = Mem::new(NoDelay::default());
    // first touch: unmasked bytes start at zero
    let first = MemReq { id: 1, addr: 0x8, wbe: [true, false, true, false], wdata: [1, 2, 3, 4] };
    mem.push(first);
    assert_eq!(drain_one(&mut mem), (1, [1, 0, 3, 0]));
    // later writes keep the bytes they do not mask
    let second = MemReq { id: 2, addr: 0x8, wbe: [false, true, false, false], wdata: [9, 8, 7, 6] };
    mem.push(second);
    assert_eq!(drain_one(&mut mem), (2, [1, 8, 3, 0]));
}

#[test]
fn duplicate_in_flight_is_rejected() {
    let mut mem: Mem<NoDelay, 4> = Mem::new(NoDelay::default());
    mem.push(MemReq { id: 1, addr: 0x40, wbe: [true; 4], wdata: [1; 4] });
    let second = MemReq { id: 2, addr: 0x40, wbe: [true; 4], wdata: [2; 4] };
    assert_eq!(mem.check(&second), Err(Fault::DuplicateInFlight));
    // the rejected write left the content alone
    assert_eq!(drain_one(&mut mem), (1, [1; 4]));
    assert!(mem.pop().is_none());
    // once drained, the address takes a new request
    mem.push(MemReq { id: 3, addr: 0x40, wbe: [false; 4], wdata: [0; 4] });
    assert_eq!(drain_one(&mut mem), (3, [1; 4]));
}

#[test]
fn responses_follow_admission_order() {
    let mut mem: Mem<NoDelay, 1> = Mem::new(NoDelay::default());
    for id in 0..4usize {
        mem.push(MemReq { id, addr: 100 - id as u64, wbe: [true], wdata: [id as u8] });
    }
    assert_eq!(mem.tick(), Ok(()));
    for id in 0..4usize {
        assert_eq!(drain_one(&mut mem), (id, [id as u8]));
    }
    assert!(mem.pop().is_none());
}
