use spyglass::ascii_art;
use spyglass::cli::cli_act;
use spyglass::cli::parse_u16;
use spyglass::cli::CliEvent;
use spyglass::cli::CliState;
use spyglass::cli::COpts;
use spyglass::cli::Effect;
use spyglass::rnd_mbs;

fn line(text: &[u8]) -> CliEvent {
    CliEvent::Line { text: text.to_vec(), ip_ok: false, iface_ok: false }
}

fn line_ip(text: &[u8], ip_ok: bool) -> CliEvent {
    CliEvent::Line { text: text.to_vec(), ip_ok, iface_ok: false }
}

#[test]
fn parse_u16_accepts_ports() {
    assert_eq!(parse_u16(b"3306"), Some(3306));
    assert_eq!(parse_u16(b"0"), Some(0));
    assert_eq!(parse_u16(b"65535"), Some(65535));
    assert_eq!(parse_u16(b"+80"), Some(80));
}

#[test]
fn parse_u16_rejects_junk() {
    assert_eq!(parse_u16(b""), None);
    assert_eq!(parse_u16(b"+"), None);
    assert_eq!(parse_u16(b"65536"), None);
    assert_eq!(parse_u16(b"99999"), None);
    assert_eq!(parse_u16(b"12a"), None);
    assert_eq!(parse_u16(b"-5"), None);
    assert_eq!(parse_u16(b" 80"), None);
}

#[test]
fn wizard_walks_the_happy_path() {
    let opt = COpts::new();
    let (st, opt, eff) = cli_act(CliState::Welcome, CliEvent::Go, opt);
    assert_eq!(st, CliState::ChkPerms);
    assert_eq!(eff, vec![Effect::ShowWelcome, Effect::CheckPerms]);
    let (st, opt, eff) = cli_act(st, CliEvent::Perms { root: true }, opt);
    assert_eq!(st, CliState::AskKey);
    assert_eq!(eff, vec![Effect::ReportPath]);
    let (st, opt, _) = cli_act(st, CliEvent::Go, opt);
    assert_eq!(st, CliState::ChkKey);
    let key = [b'a'; 40];
    let (st, opt, eff) = cli_act(st, line(&key), opt);
    assert_eq!(st, CliState::StartConn);
    assert_eq!(opt.key, key.to_vec());
    assert!(eff.is_empty());
    let (st, opt, _) = cli_act(st, CliEvent::Go, opt);
    assert_eq!(st, CliState::AskHost);
    let (st, opt, _) = cli_act(st, CliEvent::Go, opt);
    assert_eq!(st, CliState::ChkHost);
    let (st, opt, _) = cli_act(st, line_ip(b"10.0.0.2", true), opt);
    assert_eq!(st, CliState::AskPort);
    assert_eq!(opt.host, b"10.0.0.2".to_vec());
    let (st, opt, _) = cli_act(st, CliEvent::Go, opt);
    let (st, opt, _) = cli_act(st, line(b"3307"), opt);
    assert_eq!(st, CliState::AskUser);
    assert_eq!(opt.port, 3307);
}

#[test]
fn wizard_rejects_bad_key_and_keeps_asking() {
    let opt = COpts::new();
    let (st, opt, eff) = cli_act(CliState::ChkKey, line(b"short"), opt);
    assert_eq!(st, CliState::ChkKey);
    assert_eq!(eff, vec![Effect::BadKey, Effect::AwaitLine]);
    // Empty input with no stored key keeps asking too.
    let (st, _, eff) = cli_act(st, line(b""), opt);
    assert_eq!(st, CliState::ChkKey);
    assert_eq!(eff, vec![Effect::BadKey, Effect::AwaitLine]);
}

#[test]
fn wizard_rejects_bad_port() {
    let opt = COpts::new();
    let (st, opt, eff) = cli_act(CliState::ChkPort, line(b"70000"), opt);
    assert_eq!(st, CliState::ChkPort);
    assert_eq!(eff, vec![Effect::BadPort, Effect::AwaitLine]);
    assert_eq!(opt.port, 3306);
}

#[test]
fn wizard_schema_failure_returns_to_host() {
    let opt = COpts::new();
    let (st, opt, eff) = cli_act(CliState::ChkDb, line(b"mydb"), opt);
    assert_eq!(st, CliState::ChkDb);
    assert_eq!(eff, vec![Effect::ReportQuerying, Effect::QuerySchema]);
    assert_eq!(opt.db, b"mydb".to_vec());
    let (st, opt, eff) = cli_act(st, CliEvent::Schema { ok: false }, opt);
    assert_eq!(st, CliState::AskHost);
    assert_eq!(eff, vec![Effect::ReportSchemaErr]);
    let (st, _, eff) = cli_act(CliState::ChkDb, CliEvent::Schema { ok: true }, opt);
    assert_eq!(st, CliState::AskIface);
    assert_eq!(eff, vec![Effect::ReportSchemaDone]);
}

#[test]
fn wizard_interface_choice() {
    let opt = COpts::new();
    // No interfaces: the session cannot proceed.
    let (st, opt, eff) = cli_act(
        CliState::AskIface,
        CliEvent::Ifaces { names: Vec::new() },
        opt,
    );
    assert_eq!(st, CliState::Quit);
    assert_eq!(eff, vec![Effect::ReportNoIfaces, Effect::ReportDone]);
    // A single interface is taken without asking.
    let (st, opt, eff) = cli_act(
        CliState::AskIface,
        CliEvent::Ifaces { names: vec![b"eth0".to_vec()] },
        opt,
    );
    assert_eq!(st, CliState::AskStart);
    assert_eq!(opt.iface, b"eth0".to_vec());
    assert!(eff.is_empty());
    // Several interfaces: the first is the default and the user is asked.
    let (st, opt, _) = cli_act(
        CliState::AskIface,
        CliEvent::Ifaces { names: vec![b"eth0".to_vec(), b"wlan0".to_vec()] },
        opt,
    );
    assert_eq!(st, CliState::ChkIface);
    assert_eq!(opt.iface, b"eth0".to_vec());
    let (st, opt, _) = cli_act(
        st,
        CliEvent::Line { text: b"wlan0".to_vec(), ip_ok: false, iface_ok: true },
        opt,
    );
    assert_eq!(st, CliState::AskStart);
    assert_eq!(opt.iface, b"wlan0".to_vec());
}

#[test]
fn wizard_capture_and_upload_flow() {
    let opt = COpts::new();
    let (st, opt, eff) = cli_act(CliState::ChkStart, line(b""), opt);
    assert_eq!(st, CliState::AskStop);
    assert_eq!(eff, vec![Effect::EnableCapture]);
    let (st, opt, eff) = cli_act(st, CliEvent::Go, opt);
    assert_eq!(st, CliState::ChkStop);
    assert_eq!(eff, vec![Effect::ReportCapturing, Effect::StartSniffer, Effect::AwaitLine]);
    let (st, opt, eff) = cli_act(st, line(b""), opt);
    assert_eq!(st, CliState::AskSend);
    assert_eq!(eff, vec![Effect::DisableCapture, Effect::ReportCounts]);
    let (st, opt, _) = cli_act(st, CliEvent::Go, opt);
    assert_eq!(st, CliState::ChkSend);
    // "y" uploads; the outcome decides the final report.
    let (st, opt, eff) = cli_act(st, line(b"y"), opt);
    assert_eq!(st, CliState::ChkSend);
    assert_eq!(eff, vec![Effect::ReportSending, Effect::DoUpload]);
    let (st, opt, eff) = cli_act(st, CliEvent::Upload { ok: true }, opt);
    assert_eq!(st, CliState::Quit);
    assert_eq!(eff, vec![Effect::ReportUploadOk, Effect::ReportDone]);
    // Quit absorbs everything.
    let (st, _, eff) = cli_act(st, CliEvent::Go, opt);
    assert_eq!(st, CliState::Quit);
    assert!(eff.is_empty());
}

#[test]
fn wizard_declining_upload_quits() {
    let opt = COpts::new();
    let (st, _, eff) = cli_act(CliState::ChkSend, line(b"n"), opt);
    assert_eq!(st, CliState::Quit);
    assert_eq!(eff, vec![Effect::ReportDone]);
}

#[test]
fn megabyte_rounding() {
    assert_eq!(rnd_mbs(1), 1);
    assert_eq!(rnd_mbs(1048576), 1);
    assert_eq!(rnd_mbs(1048577), 2);
    assert_eq!(rnd_mbs(104857600), 100);
}

#[test]
fn banner_is_present() {
    assert!(!ascii_art().is_empty());
}
