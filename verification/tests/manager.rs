use gattify::command::Command;
use gattify::model::ScanOptions;
use gattify::manager::{Admission, CancelCheck, Operations};
use gattify::{ErrorCode, OperationId, OwnerId};

#[test]
fn operation_ids_count_from_one() {
    let mut operations = Operations::new();
    assert_eq!(operations.allocate().as_str(), "op-1");
    assert_eq!(operations.allocate().as_str(), "op-2");
}

#[test]
fn an_operation_id_runs_once_at_a_time() {
    let mut operations = Operations::new();
    let owner = OwnerId::new("webview:main");
    let id = OperationId::new("op-7");
    assert_eq!(operations.begin(&owner, &id, &Command::GetState), Ok(Admission::Run));
    assert_eq!(
        operations.begin(&owner, &id, &Command::GetState).unwrap_err().code,
        ErrorCode::Busy
    );
    operations.finish(&id);
    assert_eq!(operations.begin(&owner, &id, &Command::GetState), Ok(Admission::Run));
}

#[test]
fn operation_ids_hold_one_to_128_bytes() {
    let mut operations = Operations::new();
    let owner = OwnerId::new("webview:main");
    for id in ["", &"x".repeat(129)] {
        assert_eq!(
            operations
                .begin(&owner, &OperationId::new(id), &Command::GetState)
                .unwrap_err()
                .code,
            ErrorCode::InvalidArgument
        );
    }
    assert!(operations
        .begin(&owner, &OperationId::new(&"é".repeat(64)), &Command::GetState)
        .is_ok());
    assert!(operations
        .begin(&owner, &OperationId::new(&"é".repeat(65)), &Command::GetState)
        .is_err());
}

#[test]
fn only_the_owner_cancels_an_active_operation() {
    let mut operations = Operations::new();
    let owner = OwnerId::new("webview:main");
    let id = OperationId::new("op-3");
    operations.begin(&owner, &id, &Command::GetState).unwrap();
    assert_eq!(operations.check_cancel(&owner, &id), Ok(CancelCheck::Allowed));
    let error = operations
        .check_cancel(&OwnerId::new("webview:other"), &id)
        .unwrap_err();
    assert_eq!(error.code, ErrorCode::InvalidHandle);
    operations.finish(&id);
    assert_eq!(operations.check_cancel(&owner, &id), Ok(CancelCheck::Finished));
}

#[test]
fn a_cancel_names_its_target_and_is_not_registered() {
    let mut operations = Operations::new();
    let owner = OwnerId::new("webview:main");
    let id = OperationId::new("op-1");
    let cancel = Command::Cancel { operation_id: OperationId::new("op-9") };
    assert_eq!(
        operations.begin(&owner, &id, &cancel),
        Ok(Admission::Cancel(OperationId::new("op-9")))
    );
    assert_eq!(operations.begin(&owner, &id, &Command::GetState), Ok(Admission::Run));
}

#[test]
fn the_active_operations_of_an_owner_are_listed_in_order() {
    let mut operations = Operations::new();
    let scan = Command::StartScan(ScanOptions {
        service_uuids: Vec::new(),
        timeout_ms: None,
    });
    for (owner, id) in [("owner-a", "op-a1"), ("owner-b", "op-b1"), ("owner-a", "op-a2")] {
        operations
            .begin(&OwnerId::new(owner), &OperationId::new(id), &scan)
            .unwrap();
    }
    assert_eq!(
        operations.active_of(&OwnerId::new("owner-a")),
        vec![OperationId::new("op-a1"), OperationId::new("op-a2")]
    );
    assert!(operations.active_of(&OwnerId::new("owner-c")).is_empty());
}
