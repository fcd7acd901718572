use interspire_mcp::live::support::{
    apply_list_result_cap, cap_usize, filter_requested_source_lists, join_ids_for_warning,
};
use interspire_mcp::response::common::ListSummary;

fn list(list_id: u64, name: &str) -> ListSummary {
    ListSummary {
        list_id,
        name: name.to_string(),
        subscribed_count: None,
        unsubscribed_count: None,
        autoresponder_count: None,
        owner_name: None,
        owner_email_redacted: None,
        reply_to_email_redacted: None,
        bounce_email_redacted: None,
        source: "xml".to_string(),
    }
}

#[test]
fn cap_usize_clamps_to_one_and_max() {
    assert_eq!(cap_usize(0, 10), 1);
    assert_eq!(cap_usize(5, 10), 5);
    assert_eq!(cap_usize(50, 10), 10);
}

#[test]
fn cap_within_limit_changes_nothing() {
    let mut lists = vec![list(1, "a"), list(2, "b")];
    let mut warnings = vec!["earlier".to_string()];
    let mut notes = Vec::new();
    apply_list_result_cap(&mut lists, 2, "label", &mut warnings, &mut notes);
    assert_eq!(lists.len(), 2);
    assert_eq!(warnings, vec!["earlier".to_string()]);
    assert!(notes.is_empty());
}

#[test]
fn cap_messages_are_exact() {
    let mut lists = vec![list(1, "a"), list(2, "b"), list(3, "c")];
    let mut warnings = Vec::new();
    let mut notes = Vec::new();
    apply_list_result_cap(&mut lists, 2, "owners", &mut warnings, &mut notes);
    assert_eq!(
        warnings,
        vec!["XML list readback returned 3 lists; owners applied max_lists cap 2".to_string()]
    );
    assert_eq!(
        notes,
        vec!["owners XML results truncated from 3 lists to applied cap 2".to_string()]
    );
}

#[test]
fn filter_takes_first_of_duplicate_lists() {
    let lists = vec![list(5, "first"), list(5, "second"), list(6, "six")];
    let filtered = filter_requested_source_lists(lists, &[6, 5, 5]);
    assert_eq!(
        filtered.iter().map(|l| l.name.as_str()).collect::<Vec<_>>(),
        vec!["six", "first"]
    );
    assert!(filter_requested_source_lists(vec![list(1, "a")], &[]).is_empty());
}

#[test]
fn ids_are_joined_for_warnings() {
    assert_eq!(join_ids_for_warning(&[72, 114]), "72, 114");
    assert_eq!(join_ids_for_warning(&[0]), "0");
    assert_eq!(join_ids_for_warning(&[]), "");
}
