use chashmap::resize::{decode_ctl, encode_ctl, ctl_join, ctl_leave, SizeCtl};
use chashmap::MAX_RESIZERS;

#[test]
fn control_word_roundtrips_every_state() {
    let established = SizeCtl::Established(12);
    let w = encode_ctl(established);
    assert!(w >= 0);
    assert_eq!(decode_ctl(w), established);

    let claiming = SizeCtl::Claiming;
    let wc = encode_ctl(claiming);
    assert_eq!(wc, -1);
    assert_eq!(decode_ctl(wc), claiming);

    let resizing = SizeCtl::Resizing { stamp: 32768 + 4, helpers: 1 };
    let wr = encode_ctl(resizing);
    assert!(wr <= -2);
    assert_eq!(decode_ctl(wr), resizing);
}

#[test]
fn helpers_join_and_leave_one_at_a_time() {
    let start = encode_ctl(SizeCtl::Resizing { stamp: 32768 + 5, helpers: 1 });
    let joined = ctl_join(start).unwrap();
    assert_eq!(decode_ctl(joined), SizeCtl::Resizing { stamp: 32768 + 5, helpers: 2 });

    let (after_one, last) = ctl_leave(joined);
    assert!(!last);
    assert_eq!(decode_ctl(after_one), SizeCtl::Resizing { stamp: 32768 + 5, helpers: 1 });

    let (_, last2) = ctl_leave(after_one);
    assert!(last2);
}

#[test]
fn helper_count_saturates_at_the_cap() {
    let full = encode_ctl(SizeCtl::Resizing { stamp: 32768, helpers: MAX_RESIZERS });
    assert!(ctl_join(full).is_none());
    let (_, last) = ctl_leave(full);
    assert!(!last);
}
