use repo_mode::prompts::tui_prompt_history;

fn owned(lines: &[&str]) -> Vec<String> {
    lines.iter().map(|line| (*line).to_owned()).collect()
}

/// Asserts that querying a history seeded with `prompts` (oldest-first) yields
/// exactly `expected`.
fn assert_prompt_history(prompts: &[&str], query: &str, expected: &[&str]) {
    let texts = tui_prompt_history(&owned(prompts), query, &Vec::new());
    assert_eq!(texts, owned(expected));
}

#[test]
fn tui_prompt_history_dedupes_orders_and_excludes_whitespace() {
    // Oldest-first submission order. "deploy the app" appears twice; the newer
    // occurrence wins and the older is dropped. The whitespace-only prompt must
    // never appear.
    assert_prompt_history(
        &[
            "deploy the app",
            "delete the cache",
            "deploy the app",
            "   ",
            "build the project",
        ],
        "",
        &["delete the cache", "deploy the app", "build the project"],
    );
}

#[test]
fn tui_prompt_history_prefix_filters_by_trimmed_query() {
    let prompts = &["deploy the app", "delete the cache", "build the project"];
    assert_prompt_history(prompts, "de", &["deploy the app", "delete the cache"]);
    // Leading/trailing whitespace in the query is trimmed before matching.
    assert_prompt_history(prompts, "  deploy ", &["deploy the app"]);
    assert_prompt_history(prompts, "xyz", &[]);
}

#[test]
fn tui_prompt_history_excludes_ignored_prompts() {
    let prompts = owned(&["deploy the app", "delete the cache", "build the project"]);
    let texts = tui_prompt_history(&prompts, "", &owned(&["delete the cache"]));
    // The ignored prompt is excluded; the rest remain in order.
    assert_eq!(texts, owned(&["deploy the app", "build the project"]));
}
