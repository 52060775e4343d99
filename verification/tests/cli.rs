use followup::cli::{help_text, optional, port_setting, required, run_command, token_setting};
use followup::service::FollowUpService;
use followup::store::MemoryStore;

fn args(v: &[&str]) -> Vec<String> {
    v.iter().map(|s| s.to_string()).collect()
}

#[test]
fn prints_help_without_arguments() {
    let stdout = help_text();
    assert!(stdout.contains("FollowUp"));
    assert!(stdout.contains("Commands:"));
}

#[test]
fn reads_options() {
    let a = args(&["--author", "@me", "--text", "--author", "x"]);
    assert_eq!(optional(&a, "--author"), Some("@me".to_string()));
    assert_eq!(optional(&a, "--text"), Some("--author".to_string()));
    assert_eq!(optional(&args(&["--text"]), "--text"), None);
    assert_eq!(required(&a, "--tweet-id").unwrap_err(), "missing --tweet-id");
    assert_eq!(required(&a, "--author").unwrap(), "@me");
}

#[test]
fn reads_settings() {
    assert_eq!(port_setting(None), 8000);
    assert_eq!(port_setting(Some("9090")), 9090);
    assert_eq!(port_setting(Some("+80")), 80);
    assert_eq!(port_setting(Some("70000")), 8000);
    assert_eq!(port_setting(Some(" 80")), 8000);
    assert_eq!(port_setting(Some("")), 8000);
    assert_eq!(token_setting(None), None);
    assert_eq!(token_setting(Some("   ".to_string())), None);
    assert_eq!(token_setting(Some(" k ".to_string())), Some(" k ".to_string()));
}

#[test]
fn runs_commands() {
    let mut s = FollowUpService::new(MemoryStore::new());
    let add = args(&["--tweet-id", "1", "--author", "@me", "--text", "@x q #fu7", "--created-at", "2999-01-01T00:00:00Z"]);
    assert_eq!(run_command(&mut s, "add", &add).unwrap(), "{\"tracked\":\"1\"}");
    let plain = args(&["--tweet-id", "2", "--author", "@me", "--text", "hello"]);
    assert_eq!(run_command(&mut s, "add", &plain).unwrap(), "{\"tracked\":null}");
    let reply = args(&["--tweet-id", "3", "--author", "@x", "--text", "ok", "--in-reply-to", "1"]);
    assert_eq!(run_command(&mut s, "reply", &reply).unwrap(), "{\"answered\":true}");
    assert_eq!(run_command(&mut s, "reply", &reply).unwrap(), "{\"answered\":false}");
    assert_eq!(run_command(&mut s, "check", &args(&[])).unwrap(), "{\"expired\":0}");
    let list = run_command(&mut s, "list", &args(&["--status", "answered"])).unwrap();
    assert!(list.starts_with("{\"counts\":{\"WAITING\":0,\"ANSWERED\":1,\"EXPIRED\":0,\"CLOSED\":0},\"tweets\":[{\"id\":1,"));
    assert_eq!(run_command(&mut s, "close", &args(&["1"])).unwrap(), "{\"closed\":false}");
    assert_eq!(run_command(&mut s, "nonsense", &args(&[])).unwrap(), help_text());
}

#[test]
fn reports_missing_options() {
    let mut s = FollowUpService::new(MemoryStore::new());
    assert_eq!(run_command(&mut s, "add", &args(&[])).unwrap_err(), "missing --tweet-id");
    assert_eq!(
        run_command(&mut s, "add", &args(&["--tweet-id", "1", "--author", "@a"])).unwrap_err(),
        "missing --text"
    );
    assert_eq!(
        run_command(&mut s, "reply", &args(&["--tweet-id", "1", "--author", "@a", "--text", "t"])).unwrap_err(),
        "missing --in-reply-to"
    );
    assert_eq!(run_command(&mut s, "close", &args(&[])).unwrap_err(), "missing tweet id");
}
