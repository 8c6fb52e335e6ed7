use gperf2flamegraph::symbols::{cleanup_symbol, remove_matching_brackets};

#[test]
fn cleanup_strips_parens_and_trailing_colons() {
    assert_eq!(cleanup_symbol("foo(bar)::baz:"), "foo::baz");
}

#[test]
fn cleanup_is_idempotent_on_samples() {
    let samples = [
        "foo(bar)::baz:",
        "std::vector<int>::push_back(int&&)",
        "a(b[c)d]",
        "operator<<(std::ostream&, char const*)",
        "plain_name",
        ":::",
        "",
        "x<y<z>>",
        "unmatched)close]and>more",
    ];
    for s in samples {
        let once = cleanup_symbol(s);
        let twice = cleanup_symbol(&once);
        assert_eq!(twice, once);
    }
}

#[test]
fn brackets_nested_same_kind() {
    assert_eq!(remove_matching_brackets("a(b(c)d)e", '(', ')'), "ae");
}

#[test]
fn brackets_unmatched_close_kept() {
    assert_eq!(remove_matching_brackets("a)b", '(', ')'), "a)b");
}

#[test]
fn brackets_unclosed_open_swallows_rest() {
    assert_eq!(remove_matching_brackets("a(b", '(', ')'), "a");
}

#[test]
fn cleanup_cross_kind_brackets_sequential_passes() {
    // Parentheses pass first, then square brackets, then angle brackets.
    assert_eq!(cleanup_symbol("a(b[c)d]"), "ad]");
}

#[test]
fn cleanup_trims_only_trailing_colons() {
    assert_eq!(cleanup_symbol("ns::fn::"), "ns::fn");
    assert_eq!(cleanup_symbol("<all angle>"), "");
}
