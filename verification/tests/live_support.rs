use interspire_mcp::live::support::{
    apply_list_result_cap, filter_requested_source_lists, join_ids_for_warning,
};
use interspire_mcp::response::common::ListSummary;

fn list_summary(list_id: u64) -> ListSummary {
    ListSummary {
        list_id,
        name: format!("List {list_id}"),
        subscribed_count: Some(list_id * 10),
        unsubscribed_count: Some(list_id),
        autoresponder_count: Some(0),
        owner_name: None,
        owner_email_redacted: None,
        reply_to_email_redacted: None,
        bounce_email_redacted: None,
        source: "xml".to_string(),
    }
}

#[test]
fn owner_cap_records_warning_and_evidence() {
    let mut lists = vec![list_summary(1), list_summary(2), list_summary(3)];
    let mut warnings = Vec::new();
    let mut notes = Vec::new();

    apply_list_result_cap(
        &mut lists,
        2,
        "list owner readback",
        &mut warnings,
        &mut notes,
    );

    assert_eq!(
        lists.iter().map(|list| list.list_id).collect::<Vec<_>>(),
        vec![1, 2]
    );
    assert!(warnings
        .iter()
        .any(|warning| warning.contains("returned 3 lists")
            && warning.contains("applied max_lists cap 2")));
    assert!(notes
        .iter()
        .any(|note| note.contains("truncated from 3 lists to applied cap 2")));
}

#[test]
fn list_summary_cap_uses_explicit_label_in_warning_and_evidence() {
    let mut lists = vec![list_summary(1), list_summary(2), list_summary(3)];
    let mut warnings = Vec::new();
    let mut notes = Vec::new();

    apply_list_result_cap(&mut lists, 1, "list summary", &mut warnings, &mut notes);

    assert_eq!(
        lists.iter().map(|list| list.list_id).collect::<Vec<_>>(),
        vec![1]
    );
    assert!(warnings
        .iter()
        .any(|warning| warning.contains("list summary applied max_lists cap 1")));
    assert!(notes
        .iter()
        .any(|note| note.contains("list summary XML results truncated from 3 lists")));
}

#[test]
fn warmup_filter_keeps_only_requested_lists_in_request_order() {
    let lists = vec![list_summary(1), list_summary(2), list_summary(3)];

    let filtered = filter_requested_source_lists(lists, &[3, 9, 1, 3, 0]);

    assert_eq!(
        filtered.iter().map(|list| list.list_id).collect::<Vec<_>>(),
        vec![3, 1]
    );
}

// The readiness report built from the filtered lists is not part of this
// library; the filter and the warning text it relies on are checked here.
#[test]
fn warmup_filter_still_allows_missing_list_detection() {
    let source_list_ids: Vec<u64> = vec![72, 111, 114];
    let filtered = filter_requested_source_lists(vec![list_summary(111)], &source_list_ids);

    assert_eq!(
        filtered.iter().map(|list| list.list_id).collect::<Vec<_>>(),
        vec![111]
    );
    let missing: Vec<u64> = source_list_ids
        .iter()
        .copied()
        .filter(|id| !filtered.iter().any(|list| list.list_id == *id))
        .collect();
    assert_eq!(missing, vec![72, 114]);
    let gross: u64 = filtered.iter().filter_map(|list| list.subscribed_count).sum();
    assert_eq!(gross, 1110);
    assert_eq!(
        format!("missing specified source list ids: {}", join_ids_for_warning(&missing)),
        "missing specified source list ids: 72, 114"
    );
}
