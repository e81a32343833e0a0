use bifrost::codec::{decode_many, encode_many, Proof};
use bifrost::server::{RequestMethod, RGBServer, Status};
use bifrost::storage::{BifrostDatabase, MemoryDatabase};

fn hex64() -> String {
    "00ff".repeat(16)
}

fn path(vout: u32) -> Vec<u8> {
    format!("/{}:{}", hex64(), vout).into_bytes()
}

fn upload_body(payload: &[u8]) -> Vec<u8> {
    encode_many(&vec![Proof { payload: payload.to_vec() }])
}

fn new_server() -> RGBServer<MemoryDatabase> {
    RGBServer::new(<MemoryDatabase as BifrostDatabase>::new("proofs"))
}

#[test]
fn read_with_no_prior_writes_returns_empty_collection() {
    let mut server = new_server();
    let r = server.handle(RequestMethod::Get, &path(0), &[]);
    assert_eq!(r.status, Status::Success);
    // The encoding of the empty collection, not an error.
    assert_eq!(r.body, vec![0]);
}

#[test]
fn write_then_read_returns_written_proof() {
    let mut server = new_server();
    let w = server.handle(RequestMethod::Post, &path(0), &upload_body(&[5, 6, 7]));
    assert_eq!(w.status, Status::Success);
    assert!(w.body.is_empty());

    let r = server.handle(RequestMethod::Get, &path(0), &[]);
    assert_eq!(r.status, Status::Success);
    let proofs = decode_many(&r.body).expect("read body must decode");
    assert_eq!(proofs.len(), 1);
    assert_eq!(proofs[0].payload, vec![5, 6, 7]);
}

#[test]
fn two_writes_both_appear_in_order() {
    let mut server = new_server();
    server.handle(RequestMethod::Post, &path(0), &upload_body(&[1]));
    server.handle(RequestMethod::Post, &path(0), &upload_body(&[2]));

    let r = server.handle(RequestMethod::Get, &path(0), &[]);
    assert_eq!(r.status, Status::Success);
    let proofs = decode_many(&r.body).expect("read body must decode");
    assert_eq!(proofs.len(), 2);
    assert_eq!(proofs[0].payload, vec![1]);
    assert_eq!(proofs[1].payload, vec![2]);
}

#[test]
fn write_is_keyed_by_transaction_hash_not_vout() {
    let mut server = new_server();
    server.handle(RequestMethod::Post, &path(0), &upload_body(&[9]));

    // A read through another output index of the same transaction sees it.
    let r = server.handle(RequestMethod::Get, &path(1), &[]);
    assert_eq!(r.status, Status::Success);
    let proofs = decode_many(&r.body).expect("read body must decode");
    assert_eq!(proofs.len(), 1);
    assert_eq!(proofs[0].payload, vec![9]);
}

#[test]
fn unsupported_method_is_rejected_without_storage_access() {
    let mut server = new_server();
    let r = server.handle(RequestMethod::Other, &path(0), &upload_body(&[1]));
    assert_eq!(r.status, Status::NotFound);
    assert!(r.body.is_empty());

    // Nothing was stored.
    let read = server.handle(RequestMethod::Get, &path(0), &[]);
    assert_eq!(read.status, Status::Success);
    assert_eq!(read.body, vec![0]);
}

#[test]
fn read_of_malformed_path_is_bad_request() {
    let mut server = new_server();
    let r = server.handle(RequestMethod::Get, b"/xyz:3", &[]);
    assert_eq!(r.status, Status::BadRequest);
    assert!(r.body.is_empty());
}

#[test]
fn write_to_malformed_path_is_bad_request_and_stores_nothing() {
    let mut server = new_server();
    let r = server.handle(RequestMethod::Post, b"/abcd", &upload_body(&[1]));
    assert_eq!(r.status, Status::BadRequest);

    let read = server.handle(RequestMethod::Get, &path(0), &[]);
    assert_eq!(read.body, vec![0]);
}

#[test]
fn write_with_undecodable_body_is_bad_request_and_stores_nothing() {
    let mut server = new_server();
    // One proof of five bytes announced, body truncated.
    let r = server.handle(RequestMethod::Post, &path(0), &[1, 5, 1]);
    assert_eq!(r.status, Status::BadRequest);

    let read = server.handle(RequestMethod::Get, &path(0), &[]);
    assert_eq!(read.status, Status::Success);
    assert_eq!(read.body, vec![0]);
}

#[test]
fn writes_to_different_transactions_stay_apart() {
    let mut server = new_server();
    let other_path = format!("/{}:0", "11".repeat(32)).into_bytes();
    server.handle(RequestMethod::Post, &path(0), &upload_body(&[1]));
    server.handle(RequestMethod::Post, &other_path, &upload_body(&[2]));

    let r = server.handle(RequestMethod::Get, &path(0), &[]);
    let proofs = decode_many(&r.body).expect("read body must decode");
    assert_eq!(proofs.len(), 1);
    assert_eq!(proofs[0].payload, vec![1]);

    let r2 = server.handle(RequestMethod::Get, &other_path, &[]);
    let proofs2 = decode_many(&r2.body).expect("read body must decode");
    assert_eq!(proofs2.len(), 1);
    assert_eq!(proofs2[0].payload, vec![2]);
}
