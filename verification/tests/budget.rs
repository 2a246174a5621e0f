use gfs::budget::HydrationBudget;
use gfs::errno::{errno_of, Errno};
use gfs::error::ErrorCode;
use gfs::object::{HashAlgorithm, ObjectId};

fn oid(byte: u8) -> ObjectId {
    ObjectId::from_raw(HashAlgorithm::Sha1, &[byte; 20]).expect("oid")
}

#[test]
fn zero_means_unlimited_not_forbidden() {
    let mut budget = HydrationBudget::new(0);
    assert!(budget.admit_blob(&oid(1), u64::MAX).is_ok());
    assert!(budget.is_unlimited());
}

#[test]
fn a_blob_is_charged_once_however_often_it_is_refetched() {
    let mut budget = HydrationBudget::new(1000);
    budget.admit_blob(&oid(1), 600).expect("first");
    budget.admit_blob(&oid(1), 600).expect("refetch");
    budget.admit_blob(&oid(1), 600).expect("refetch");
    let report = budget.report();
    assert_eq!(report.charged_bytes, 600);
    assert_eq!(report.refetches, 2);
    assert_eq!(report.refetched_bytes, 1200);
    budget.admit_blob(&oid(2), 400).expect("second blob fits");
}

#[test]
fn refusal_is_a_resource_limit_so_it_reaches_the_kernel_as_edquot() {
    let mut budget = HydrationBudget::new(100);
    budget.admit_blob(&oid(1), 100).expect("exactly the limit fits");
    let err = budget
        .admit_blob(&oid(2), 1)
        .expect_err("one byte more must not");
    assert_eq!(err.code, ErrorCode::ResourceLimit);
    assert_eq!(errno_of(&err), Errno::QuotaExceeded);
    assert_eq!(budget.report().refusals, 1);
}

#[test]
fn a_refused_blob_is_not_remembered_as_charged() {
    let mut budget = HydrationBudget::new(10);
    budget.admit_blob(&oid(1), 99).expect_err("too big");
    assert_eq!(budget.report().unique_blobs, 0);
    assert_eq!(budget.report().refetches, 0);
}

#[test]
fn the_report_adds_up_over_a_history() {
    let mut budget = HydrationBudget::new(100);
    let mut before = budget.report();
    // Two first fetches, one of them again twice, and one that does not fit.
    for (blob, size, fits) in [(1, 60, true), (1, 60, true), (2, 40, true), (3, 1, false), (1, 60, true)] {
        assert_eq!(budget.admit_blob(&oid(blob), size).is_ok(), fits);
        let now = budget.report();
        assert!(now.charged_bytes >= before.charged_bytes);
        assert!(now.refetched_bytes >= before.refetched_bytes);
        assert!(now.refusals >= before.refusals);
        before = now;
    }
    assert_eq!(before.charged_bytes, 100);
    assert_eq!(before.unique_blobs, 2);
    assert_eq!((before.refetches, before.refetched_bytes), (2, 120));
    assert_eq!(before.refusals, 1);
}
