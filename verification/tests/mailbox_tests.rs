use minikernel::mailbox::Mailbox;
use minikernel::mailbox::MAIL_CAPACITY;

#[test]
fn mailbox_capacity_and_truncation() {
    let mut mb = Mailbox::new();
    for i in 0..MAIL_CAPACITY {
        let payload = [i as u8];
        assert_eq!(mb.write(&payload), 1);
    }
    assert_eq!(mb.write(&[0xff]), -1);
    let mut buf = vec![0u8; 1];
    assert_eq!(mb.read(&mut buf), 1);
    assert_eq!(buf[0], 0);
    assert_eq!(mb.write(&[]), 0);
    let big = vec![0x5au8; 300];
    let mut mb2 = Mailbox::new();
    assert_eq!(mb2.write(&big), 256);
    let mut out = vec![0u8; 512];
    assert_eq!(mb2.read(&mut out), 256);
    assert!(out[..256].iter().all(|&b| b == 0x5a));
}
