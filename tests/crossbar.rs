use memdrain::crossbar::Crossbar;
use memdrain::drain::{Delay, Drain, Fault};
use memdrain::mem::{Mem, MemReq, NoDelay};

fn read(id: usize, addr: u64) -> MemReq<8> {
    MemReq { id, addr, wbe: [false; 8], wdata: [0; 8] }
}

fn write(id: usize, addr: u64, byte: u8) -> MemReq<8> {
    MemReq { id, addr, wbe: [true; 8], wdata: [byte; 8] }
}

#[test]
fn test_multiple_memory() {
    let mut mem_a: Mem<_, 8> = Mem::new(NoDelay::default());
    let mut mem_b: Mem<_, 8> = Mem::new(NoDelay::default());

    let _ = mem_a.tick();
    mem_a.push(MemReq {
        id: 0,
        addr: 0x80000040,
        wbe: [true; 8],
        wdata: [1; 8],
    });
    loop {
        if mem_a.pop().is_some() {
            break;
        }
        let _ = mem_a.tick();
    }

    let _ = mem_b.tick();
    mem_b.push(MemReq {
        id: 0,
        addr: 0x80002040,
        wbe: [true; 8],
        wdata: [2; 8],
    });
    loop {
        if mem_b.pop().is_some() {
            break;
        }
        let _ = mem_b.tick();
    }

    let mut crossbar = Crossbar::new()
        .with(0x80000000, 0x80002000, Box::new(Delay::new(mem_a, 3, 5)))
        .with(0x80002000, 0x80004000, Box::new(Delay::new(mem_b, 4, 2)));

    let _ = crossbar.tick();
    crossbar.push(MemReq {
        id: 1,
        addr: 0x80000040,
        wbe: [false; 8],
        wdata: [0; 8],
    });

    crossbar.push(MemReq {
        id: 2,
        addr: 0x80002040,
        wbe: [false; 8],
        wdata: [0; 8],
    });

    let mut popped = 0;
    'outer: loop {
        let _ = crossbar.tick();
        while let Some(resp) = crossbar.pop() {
            assert_eq!(resp.rdata, [resp.id as u8; 8]);
            popped += 1;
            if popped == 2 {
                break 'outer;
            }
        }
    }
}

#[test]
fn two_delayed_endpoints_answer_within_their_latencies() {
    let mut mem_a: Mem<NoDelay, 8> = Mem::new(NoDelay::default());
    let mut mem_b: Mem<NoDelay, 8> = Mem::new(NoDelay::default());
    mem_a.push(write(0, 0x80000040, 1));
    assert!(mem_a.pop().is_some());
    mem_b.push(write(0, 0x80002040, 2));
    assert!(mem_b.pop().is_some());
    let mut crossbar = Crossbar::new()
        .with(0x80000000, 0x80002000, Box::new(Delay::new(mem_a, 3, 5)))
        .with(0x80002000, 0x80004000, Box::new(Delay::new(mem_b, 4, 2)));
    crossbar.push(read(1, 0x80000040));
    crossbar.push(read(2, 0x80002040));
    let mut seen = Vec::new();
    for cycle in 1..=10usize {
        assert_eq!(crossbar.tick(), Ok(()));
        while let Some(resp) = crossbar.pop() {
            assert_eq!(resp.rdata, [resp.id as u8; 8]);
            seen.push((resp.id, cycle));
        }
    }
    // up 3 + down 5 cycles, and up 4 + down 2 cycles
    seen.sort();
    assert_eq!(seen, vec![(1, 8), (2, 6)]);
}

#[test]
fn multiple_memory_gap_is_out_of_range() {
    let mem_a: Mem<_, 8> = Mem::new(NoDelay::default());
    let mem_b: Mem<_, 8> = Mem::new(NoDelay::default());
    let mut crossbar = Crossbar::new()
        .with(0x80000000, 0x80002000, Box::new(Delay::new(mem_a, 3, 5)))
        .with(0x80004000, 0x80008000, Box::new(Delay::new(mem_b, 4, 2)));
    assert_eq!(crossbar.check(&read(0, 0x80002000)), Err(Fault::OutOfRange));
    assert_eq!(crossbar.check(&read(0, 0x80003ff8)), Err(Fault::OutOfRange));
    assert_eq!(crossbar.check(&read(0, 0x7fffffff)), Err(Fault::OutOfRange));
    assert_eq!(crossbar.check(&read(0, 0x80008000)), Err(Fault::OutOfRange));
    for _ in 0..10 {
        assert_eq!(crossbar.tick(), Ok(()));
        assert!(crossbar.pop().is_none());
    }
}

#[test]
fn empty_crossbar_rejects_everything() {
    let mut crossbar: Crossbar<u64, Mem<NoDelay, 8>> = Crossbar::new();
    assert_eq!(crossbar.check(&read(0, 0)), Err(Fault::OutOfRange));
    assert_eq!(crossbar.check(&read(0, u64::MAX)), Err(Fault::OutOfRange));
}

#[test]
fn boundaries_route_to_the_owning_range() {
    // registered out of order: the partition is sorted on construction
    let mut crossbar = Crossbar::new()
        .with(0x2000, 0x4000, Box::new(Mem::<NoDelay, 8>::new(NoDelay::default())))
        .with(0x0000, 0x2000, Box::new(Mem::<NoDelay, 8>::new(NoDelay::default())));
    // the first address of a range and the last address of the one below it
    assert_eq!(crossbar.check(&write(1, 0x2000, 0xaa)), Ok(()));
    crossbar.push(write(1, 0x2000, 0xaa));
    crossbar.push(write(2, 0x1fff, 0xbb));
    crossbar.push(write(3, 0x3fff, 0xcc));
    assert_eq!(crossbar.check(&read(4, 0x4000)), Err(Fault::OutOfRange));
    let mut seen = Vec::new();
    while let Some(resp) = crossbar.pop() {
        seen.push((resp.id, resp.rdata[0]));
    }
    seen.sort();
    assert_eq!(seen, vec![(1, 0xaa), (2, 0xbb), (3, 0xcc)]);
}

#[test]
fn request_reaches_only_its_own_child() {
    let mut crossbar = Crossbar::new()
        .with(0x0000, 0x1000, Box::new(Mem::<NoDelay, 8>::new(NoDelay::default())))
        .with(0x1000, 0x2000, Box::new(Mem::<NoDelay, 8>::new(NoDelay::default())));
    crossbar.push(write(1, 0x1040, 7));
    let resp = crossbar.pop().unwrap();
    assert_eq!((resp.id, resp.rdata), (1, [7; 8]));
    assert!(crossbar.pop().is_none());
    // the same offset in the other range was never written
    crossbar.push(read(2, 0x0040));
    let resp = crossbar.pop().unwrap();
    assert_eq!((resp.id, resp.rdata), (2, [0; 8]));
    crossbar.push(read(3, 0x1040));
    let resp = crossbar.pop().unwrap();
    assert_eq!((resp.id, resp.rdata), (3, [7; 8]));
}

#[test]
fn fits_refuses_overlaps_and_empty_ranges() {
    let crossbar = Crossbar::new()
        .with(0x1000, 0x2000, Box::new(Mem::<NoDelay, 8>::new(NoDelay::default())));
    assert!(crossbar.fits(0x2000, 0x3000));
    assert!(crossbar.fits(0x0000, 0x1000));
    assert!(!crossbar.fits(0x1fff, 0x3000));
    assert!(!crossbar.fits(0x1000, 0x1800));
    assert!(!crossbar.fits(0x0800, 0x1001));
    assert!(!crossbar.fits(0x3000, 0x3000));
    assert!(!crossbar.fits(0x4000, 0x3000));
}
