use agent_friction::normalize::{mask_spans, normalize_error, Mask};

#[test]
fn distinguishes_binaries_in_different_repos() {
    let a = normalize_error("exit 1: /Users/c/repos/foo/node_modules/.bin/jest failed");
    let b = normalize_error("exit 1: /Users/c/repos/bar/node_modules/.bin/jest failed");
    let c = normalize_error("exit 1: /Users/c/repos/foo/node_modules/.bin/cypress failed");
    assert_eq!(a, b);
    assert_ne!(a, c);
}

#[test]
fn paths_keep_only_their_last_segment() {
    assert_eq!(
        normalize_error("exit 1: /User/c/repo/foo/node_modules/bin/cypress: invalid argument"),
        "exit 1: <path>/cypress: invalid argument"
    );
}

#[test]
fn long_numbers_and_hex_ids_are_masked() {
    assert_eq!(normalize_error("pid 12345 exited"), "pid <n> exited");
    assert_eq!(normalize_error("connection to 443 refused"), "connection to 443 refused");
    assert_eq!(normalize_error("commit deadbeefcafe not found"), "commit <id> not found");
}

#[test]
fn errors_are_cut_to_two_hundred_characters() {
    let long = "z".repeat(500);
    assert_eq!(normalize_error(&long).chars().count(), 200);
    // A long run of hexadecimal digits is an identifier first.
    assert_eq!(normalize_error(&"e".repeat(500)), "<id>");
    assert_eq!(normalize_error("short"), "short");
}

#[test]
fn masking_replaces_each_span() {
    let text = "see a/b/c and d/e";
    // The spans of "a/b/c" and "d/e".
    let spans = vec![(4, 9), (14, 17)];
    assert_eq!(mask_spans(text, &spans, Mask::Path), "see <path>/c and <path>/e");
    assert_eq!(mask_spans(text, &spans, Mask::Number), "see <n> and <n>");
    assert_eq!(mask_spans(text, &spans, Mask::Id), "see <id> and <id>");
    assert_eq!(mask_spans(text, &vec![], Mask::Id), text);
}

#[test]
fn a_path_ending_in_a_slash_has_no_segment_to_keep() {
    let text = "in a/b/ now";
    assert_eq!(mask_spans(text, &vec![(3, 7)], Mask::Path), "in <path> now");
}
