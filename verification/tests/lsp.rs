use codescout::lsp::manager::{client_action, ClientAction};
use codescout::lsp::mock::{MockLspClient, MockLspProvider};

#[test]
fn mock_client_reports_configured_symbols() {
    let client = MockLspClient::new()
        .with_symbols("src/a.rs", vec![1u32, 2, 3])
        .with_symbols("src/b.rs", vec![9u32]);
    assert_eq!(client.document_symbols("src/a.rs"), vec![1, 2, 3]);
    assert_eq!(client.document_symbols("src/b.rs"), vec![9]);
    assert!(client.document_symbols("src/c.rs").is_empty());
}

#[test]
fn mock_client_later_symbols_replace_earlier() {
    let client = MockLspClient::new()
        .with_symbols("src/a.rs", vec![1u32])
        .with_symbols("src/a.rs", vec![5u32, 6]);
    assert_eq!(client.document_symbols("src/a.rs"), vec![5, 6]);
}

#[test]
fn mock_provider_hands_out_its_client() {
    let provider = MockLspProvider::with_client(MockLspClient::new().with_symbols("x.py", vec!["f"]));
    let c = provider.get_or_start("python", "/tmp/project");
    assert_eq!(c.document_symbols("x.py"), vec!["f"]);
}

#[test]
fn manager_reuses_only_live_clients_of_same_root() {
    assert_eq!(client_action(None), ClientAction::Start);
    assert_eq!(client_action(Some((true, true))), ClientAction::Reuse);
    assert_eq!(client_action(Some((false, true))), ClientAction::Replace);
    assert_eq!(client_action(Some((true, false))), ClientAction::Replace);
}
