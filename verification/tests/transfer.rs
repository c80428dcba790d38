//! Tests of the transfer progress bookkeeping and address decoding.

use dccli::classify::TransferDescriptor;
use dccli::transfer::{address_string, Transfer, TransferError};

fn descriptor(size: u64) -> TransferDescriptor {
    TransferDescriptor {
        filename: "movie.mkv".to_string(),
        address: 3232235777,
        port: 5001,
        size,
    }
}

#[test]
fn transfer_completes_at_declared_size() {
    let mut t = Transfer::new(&descriptor(10));
    assert_eq!(t.progress(), 0);
    assert!(!t.is_complete());
    assert_eq!(t.advance(4).unwrap(), 4);
    assert_eq!(t.progress(), 4);
    assert!(!t.is_complete());
    assert_eq!(t.advance(6).unwrap(), 6);
    assert_eq!(t.progress(), 10);
    assert!(t.is_complete());
    assert_eq!(t.progress(), t.size());
}

#[test]
fn transfer_early_close_is_fatal() {
    let mut t = Transfer::new(&descriptor(10));
    assert_eq!(t.advance(4).unwrap(), 4);
    assert_eq!(t.advance(0).unwrap_err(), TransferError::PeerClosed);
    assert_eq!(t.progress(), 4);
    assert!(!t.is_complete());
}

#[test]
fn transfer_never_counts_past_the_size() {
    let mut t = Transfer::new(&descriptor(5));
    // a peer that sends more than declared: only the declared bytes belong
    assert_eq!(t.advance(8).unwrap(), 5);
    assert_eq!(t.progress(), 5);
    assert!(t.is_complete());
}

#[test]
fn address_decodes_big_endian_dotted_quad() {
    assert_eq!(address_string(3232235777), "192.168.1.1");
    assert_eq!(address_string(0), "0.0.0.0");
    assert_eq!(address_string(4294967295), "255.255.255.255");
    assert_eq!(address_string(16909060), "1.2.3.4");
}
