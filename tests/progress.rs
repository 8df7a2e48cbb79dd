use memdrain::drain::Fault;
use memdrain::progress::{AddrProgress, Progress};

#[test]
fn misconfigured_widths_are_refused() {
    assert_eq!(Progress::<64>::new(0).err(), Some(Fault::Misconfigured));
    assert_eq!(Progress::<64>::new(48).err(), Some(Fault::Misconfigured));
    assert_eq!(Progress::<0>::new(8).err(), Some(Fault::Misconfigured));
    assert!(Progress::<64>::new(16).is_ok());
}

#[test]
fn multiplicity_is_width_over_transfer() {
    assert_eq!(Progress::<64>::new(16).unwrap().multiplicity(), 4);
    assert_eq!(Progress::<64>::new(64).unwrap().multiplicity(), 1);
}

#[test]
fn next_send_steps_by_transfer_width() {
    let p = AddrProgress { sent: 3, recv: 0, is_write: false };
    assert_eq!(p.next_send(0x1000, 16), 0x1030);
}

#[test]
fn beats_complete_in_order() {
    let mut p = Progress::<32>::new(8).unwrap();
    assert_eq!(p.check_add(0x100), Ok(()));
    p.add(0x100, true);
    assert_eq!(p.in_progress(), vec![0x100]);
    let mut sent = Vec::new();
    while let Some((addr, is_write)) = p.next_beat(0x100) {
        assert!(is_write);
        sent.push(addr);
        p.mark_sent(0x100);
    }
    assert_eq!(sent, vec![0x100, 0x108, 0x110, 0x118]);
    for beat in [0x100, 0x108, 0x110] {
        assert_eq!(p.check_beat(beat), Ok(()));
        p.step(beat);
        assert_eq!(p.pop(), None);
    }
    assert_eq!(p.check_beat(0x118), Ok(()));
    p.step(0x118);
    assert_eq!(p.pop(), Some(0x100));
    assert_eq!(p.pop(), None);
    assert!(p.in_progress().is_empty());
}

#[test]
fn out_of_order_beat_is_a_protocol_fault() {
    let mut p = Progress::<32>::new(8).unwrap();
    assert_eq!(p.check_add(0x100), Ok(()));
    p.add(0x100, false);
    assert_eq!(p.check_beat(0x108), Err(Fault::Protocol));
    assert_eq!(p.check_beat(0x100), Ok(()));
    p.step(0x100);
    assert_eq!(p.check_beat(0x100), Err(Fault::Protocol));
}

#[test]
fn unknown_beat_is_a_protocol_fault() {
    let mut p = Progress::<32>::new(8).unwrap();
    assert_eq!(p.check_beat(0x200), Err(Fault::Protocol));
}

#[test]
fn add_checks_alignment_and_duplicates() {
    let mut p = Progress::<32>::new(8).unwrap();
    assert_eq!(p.check_add(0x104), Err(Fault::Misaligned));
    assert_eq!(p.check_add(0x100), Ok(()));
    p.add(0x100, false);
    assert_eq!(p.check_add(0x100), Err(Fault::DuplicateInFlight));
    assert_eq!(p.check_beat(0x100), Ok(()));
    p.step(0x100);
    assert_eq!(p.check_beat(0x108), Ok(()));
    p.step(0x108);
    assert_eq!(p.check_beat(0x110), Ok(()));
    p.step(0x110);
    assert_eq!(p.check_beat(0x118), Ok(()));
    p.step(0x118);
    // a completed access no longer blocks a new one, even before it is reported
    assert_eq!(p.check_add(0x100), Ok(()));
    assert_eq!(p.pop(), Some(0x100));
    assert_eq!(p.check_add(0x100), Ok(()));
    p.add(0x100, true);
}
