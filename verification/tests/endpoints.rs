use review_search::feedback::{
    body_preview, error_message, insert_accepted, inserted_message, network_error_message,
    parse_error_message, parse_u32, search_accepted, top_k_from_input,
};
use review_search::index::{hit_ids, IndexError, VectorIds};
use review_search::reviews::{
    begin_insert, effective_top_k, failure_message, found_positions, insert_reply, meta_appended,
    vector_appended, ApiResponse, BulkInsertResponse, InsertOutcome, InsertStep,
};
use review_search::store::{ReviewMeta, StoreError};

fn meta(title: &str) -> ReviewMeta {
    ReviewMeta {
        review_title: title.to_string(),
        review_body: "body".to_string(),
        product_id: "p".to_string(),
        review_rating: 3,
    }
}

#[test]
fn index_status_codes() {
    assert_eq!(IndexError::check_status(0), Ok(()));
    assert_eq!(IndexError::check_status(-2), Err(IndexError::CError(-2)));
    assert_eq!(IndexError::check_open(3, true), Err(IndexError::CError(3)));
    assert_eq!(IndexError::check_open(0, true), Err(IndexError::NullHandle));
    assert_eq!(IndexError::check_open(0, false), Ok(()));
}

#[test]
fn index_error_text_matches_debug() {
    for e in [IndexError::CError(-3), IndexError::CError(0), IndexError::CError(i32::MIN), IndexError::NullHandle] {
        assert_eq!(e.debug_text(), format!("{:?}", e));
    }
    match IndexError::CError(7).into_store_error() {
        StoreError::Index(msg) => assert_eq!(msg, "CError(7)"),
        other => panic!("unexpected {:?}", other),
    }
}

#[test]
fn native_ids_become_usize() {
    assert_eq!(hit_ids(&vec![0, 5, 12]), vec![0usize, 5, 12]);
    assert_eq!(hit_ids(&vec![-1]), vec![-1i64 as usize]);
}

#[test]
fn vector_ids_are_consecutive() {
    let mut ids = VectorIds::starting_at(0);
    assert_eq!(ids.next_id(), 0);
    assert_eq!(ids.record_append(Ok(())).unwrap(), 0);
    assert_eq!(ids.record_append(Ok(())).unwrap(), 1);
    match ids.record_append(Err(IndexError::CError(-1))) {
        Err(StoreError::Index(msg)) => assert_eq!(msg, "CError(-1)"),
        other => panic!("unexpected {:?}", other),
    }
    assert_eq!(ids.count(), 2);
    assert_eq!(ids.record_append(Ok(())).unwrap(), 2);
    let resumed = VectorIds::starting_at(7);
    assert_eq!(resumed.next_id(), 7);
}

#[test]
fn first_insert_into_empty_store_is_created() {
    let mut ids = VectorIds::starting_at(0);
    let vector_id = ids.record_append(Ok(())).unwrap();
    let outcome = meta_appended(vector_id, Ok(0));
    assert_eq!(insert_reply(&outcome), Ok((201, ApiResponse { id: 0, success: true })));
}

#[test]
fn insert_steps() {
    assert!(matches!(begin_insert(&meta("fine")), InsertStep::AppendVector));
    assert!(matches!(begin_insert(&meta(" ")), InsertStep::Done(InsertOutcome::Invalid)));
    assert!(matches!(vector_appended(Ok(4)), InsertStep::AppendMeta { vector_id: 4 }));
    match vector_appended(Err("Index(\"CError(1)\")".to_string())) {
        InsertStep::Done(InsertOutcome::IndexFailed(t)) => assert_eq!(t, "Index(\"CError(1)\")"),
        other => panic!("unexpected {:?}", other),
    }
    assert!(matches!(meta_appended(4, Ok(4)), InsertOutcome::Inserted(4)));
    assert!(matches!(meta_appended(1, Ok(0)), InsertOutcome::IdMismatch { vector_id: 1, meta_id: 0 }));
    assert!(matches!(meta_appended(1, Err("io error: x".to_string())), InsertOutcome::MetaFailed(_)));
}

#[test]
fn single_insert_replies() {
    assert_eq!(insert_reply(&InsertOutcome::Inserted(9)), Ok((201, ApiResponse { id: 9, success: true })));
    assert_eq!(insert_reply(&InsertOutcome::Invalid), Err(400));
    assert_eq!(insert_reply(&InsertOutcome::IdMismatch { vector_id: 1, meta_id: 0 }), Err(500));
    assert_eq!(insert_reply(&InsertOutcome::IndexFailed("e".into())), Err(500));
    assert_eq!(insert_reply(&InsertOutcome::MetaFailed("e".into())), Err(500));
}

#[test]
fn bulk_messages() {
    assert_eq!(failure_message(3, &InsertOutcome::Invalid), "item 3: validation failed");
    assert_eq!(
        failure_message(12, &InsertOutcome::IdMismatch { vector_id: 1, meta_id: 0 }),
        "item 12: ID mismatch"
    );
    assert_eq!(failure_message(0, &InsertOutcome::MetaFailed("io error: gone".into())), "item 0: meta error io error: gone");
    assert_eq!(failure_message(1, &InsertOutcome::IndexFailed("Index(\"NullHandle\")".into())), "item 1: index error Index(\"NullHandle\")");
}

#[test]
fn bulk_tally_counts_every_item() {
    let outcomes = vec![
        InsertOutcome::Inserted(0),
        InsertOutcome::Invalid,
        InsertOutcome::Inserted(1),
        InsertOutcome::IdMismatch { vector_id: 1, meta_id: 2 },
    ];
    let r = BulkInsertResponse::from_outcomes(&outcomes);
    assert_eq!(r.inserted, 2);
    assert_eq!(r.failed, 2);
    assert_eq!(r.inserted + r.failed, outcomes.len());
    assert_eq!(r.errors, vec!["item 1: validation failed".to_string(), "item 3: ID mismatch".to_string()]);
    let empty = BulkInsertResponse::from_outcomes(&vec![]);
    assert_eq!((empty.inserted, empty.failed, empty.errors.len()), (0, 0, 0));
}

#[test]
fn bulk_record_step() {
    let mut r = BulkInsertResponse::new();
    r.record(0, &InsertOutcome::Inserted(0));
    r.record(1, &InsertOutcome::Invalid);
    assert_eq!((r.inserted, r.failed), (1, 1));
    assert_eq!(r.errors, vec!["item 1: validation failed".to_string()]);
}

#[test]
fn search_choices() {
    assert_eq!(effective_top_k(None), 5);
    assert_eq!(effective_top_k(Some(12)), 12);
    assert_eq!(found_positions(&vec![Some(1), None, Some(3), None]), vec![0, 2]);
    assert_eq!(found_positions::<u8>(&vec![]), Vec::<usize>::new());
}

#[test]
fn page_feedback() {
    assert!(insert_accepted(200) && insert_accepted(201) && !insert_accepted(400));
    assert!(search_accepted(200) && !search_accepted(201));
    assert_eq!(inserted_message(), "Inserted!");
    assert_eq!(error_message(500, "boom"), "Error 500: boom");
    assert_eq!(network_error_message("offline"), "Network error: offline");
    assert_eq!(parse_error_message("eof"), "Parse error: eof");
    let long: String = "x".repeat(200);
    assert_eq!(body_preview(&long).chars().count(), 160);
    assert_eq!(body_preview("short"), "short");
}

#[test]
fn parse_u32_matches_std() {
    let samples = [
        "", "+", "-", "0", "7", "+5", "-5", "007", "4294967295", "4294967296", "99999999999", "12a",
        " 1", "++1", "+0", "٣",
    ];
    for s in samples {
        assert_eq!(parse_u32(s), s.parse::<u32>().ok(), "{:?}", s);
    }
}

#[test]
fn top_k_input_defaults_to_five() {
    assert_eq!(top_k_from_input("12"), 12);
    assert_eq!(top_k_from_input("abc"), 5);
    assert_eq!(top_k_from_input(""), 5);
}
