//! Front-end session state machine.
//!
//! The interactive capture wizard is a finite state machine: a pure
//! transition function from (state, event, options) to (state, options,
//! effects).  The caller owns the loop: it renders each effect (a prompt, a
//! report, a privilege check, the schema probe, the interface listing, the
//! sniffer start, the upload) and feeds the outcome back as the next event.
//! Line input and stored options are raw bytes; they are never decoded
//! here.

use vstd::prelude::*;

verus! {

/// Wizard states, in the order the session walks them.
#[derive(Clone, Copy, PartialEq, Eq, Structural, Debug)]
pub enum CliState {
    Welcome,
    ChkPerms,
    AskKey,
    ChkKey,
    StartConn,
    AskHost,
    ChkHost,
    AskPort,
    ChkPort,
    AskUser,
    ChkUser,
    AskPass,
    ChkPass,
    AskDb,
    ChkDb,
    AskIface,
    ChkIface,
    AskStart,
    ChkStart,
    AskStop,
    ChkStop,
    AskSend,
    ChkSend,
    Quit,
}

/// What the front end hands back to the machine: a kick to proceed, a line
/// of user input (with the outside parse verdicts the machine cannot form
/// itself), or the outcome of an effect it requested.
pub enum CliEvent {
    /// Proceed; no data needed.
    Go,
    /// One line of input.  `ip_ok` says whether the line parses as an IP
    /// address; `iface_ok` whether it names a known network interface.
    Line { text: Vec<u8>, ip_ok: bool, iface_ok: bool },
    /// Whether the process runs with capture privileges.
    Perms { root: bool },
    /// Whether the schema probe of the configured server succeeded.
    Schema { ok: bool },
    /// The capturable network interfaces, in preference order.
    Ifaces { names: Vec<Vec<u8>> },
    /// Whether the artifact upload succeeded.
    Upload { ok: bool },
}

/// What the front end must do after a transition, in order.
#[derive(Clone, Copy, PartialEq, Eq, Structural, Debug)]
pub enum Effect {
    ShowWelcome,
    CheckPerms,
    ReportPath,
    ReportNoPerms,
    PromptKey,
    BadKey,
    ReportConnSetup,
    PromptHost,
    BadHost,
    PromptPort,
    BadPort,
    PromptUser,
    PromptPass,
    PromptDb,
    ReportQuerying,
    QuerySchema,
    ReportSchemaDone,
    ReportSchemaErr,
    ListIfaces,
    ReportNoIfaces,
    PromptIface,
    BadIface,
    PromptStart,
    EnableCapture,
    ReportCapturing,
    StartSniffer,
    AwaitLine,
    DisableCapture,
    ReportCounts,
    PromptSend,
    ReportSending,
    DoUpload,
    ReportUploadOk,
    ReportUploadFail,
    ReportDone,
}

/// Session options collected by the wizard.  Text fields hold the raw
/// bytes the user typed.
pub struct COpts {
    pub key: Vec<u8>,
    pub host: Vec<u8>,
    pub port: u16,
    pub user: Vec<u8>,
    pub pass: Vec<u8>,
    pub db: Vec<u8>,
    pub iface: Vec<u8>,
}

impl COpts {
    /// Empty options with the conventional MySQL port.
    pub fn new() -> (r: Self)
        ensures
            r.key@.len() == 0,
            r.host@.len() == 0,
            r.port == 3306,
            r.user@.len() == 0,
            r.pass@.len() == 0,
            r.db@.len() == 0,
            r.iface@.len() == 0,
    {
        COpts {
            key: Vec::new(),
            host: Vec::new(),
            port: 3306,
            user: Vec::new(),
            pass: Vec::new(),
            db: Vec::new(),
            iface: Vec::new(),
        }
    }
}

/// ASCII decimal digit.
pub open spec fn is_digit(c: u8) -> bool {
    48 <= c <= 57
}

pub open spec fn all_digits(s: Seq<u8>) -> bool {
    forall|i: int| 0 <= i < s.len() ==> is_digit(#[trigger] s[i])
}

/// Value of a decimal digit string.
pub open spec fn dec_val(s: Seq<u8>) -> int
    decreases s.len(),
{
    if s.len() == 0 {
        0
    } else {
        dec_val(s.drop_last()) * 10 + (s.last() - 48)
    }
}

/// A digit string's value only grows as it is extended.
proof fn lemma_dec_val_prefix(s: Seq<u8>, k: int)
    requires
        all_digits(s),
        0 <= k <= s.len(),
    ensures
        0 <= dec_val(s.subrange(0, k)) <= dec_val(s),
    decreases s.len(),
{
    lemma_dec_val_nonneg(s);
    if k == s.len() {
        assert(s.subrange(0, k) =~= s);
    } else {
        let d = s.drop_last();
        assert(all_digits(d)) by {
            assert(forall|i: int| 0 <= i < d.len() ==> d[i] == #[trigger] s[i]);
        }
        lemma_dec_val_prefix(d, k);
        assert(d.subrange(0, k) =~= s.subrange(0, k));
        lemma_dec_val_nonneg(d);
        assert(is_digit(s.last()));
        assert(dec_val(s) == dec_val(d) * 10 + (s.last() - 48));
    }
}

/// A digit string's value is non-negative.
proof fn lemma_dec_val_nonneg(s: Seq<u8>)
    requires
        all_digits(s),
    ensures
        dec_val(s) >= 0,
    decreases s.len(),
{
    if s.len() > 0 {
        assert(all_digits(s.drop_last())) by {
            assert(forall|i: int|
                0 <= i < s.len() - 1 ==> s.drop_last()[i] == #[trigger] s[i]);
        }
        lemma_dec_val_nonneg(s.drop_last());
        assert(is_digit(s.last()));
    }
}

/// The digit part of a port entry: everything after one optional leading
/// plus sign.
pub open spec fn port_body(t: Seq<u8>) -> Seq<u8> {
    if t.len() > 0 && t[0] == 43 {
        t.skip(1)
    } else {
        t
    }
}

/// The entry is a well-formed decimal port number.
pub open spec fn port_ok(t: Seq<u8>) -> bool {
    port_body(t).len() > 0 && all_digits(port_body(t)) && dec_val(port_body(t)) <= 65535
}

/// Parse a decimal port number: digits with one optional leading plus
/// sign, rejecting anything else and values above the port space.
#[verifier::loop_isolation(false)]
pub fn parse_u16(t: &[u8]) -> (r: Option<u16>)
    ensures
        (r is Some <==> port_ok(t@)),
        (r matches Some(v) ==> v == dec_val(port_body(t@))),
{
    let ghost body = port_body(t@);
    let start: usize = if t.len() > 0 && t[0] == 43 {
        1
    } else {
        0
    };
    assert(body =~= t@.skip(start as int));
    if t.len() == start {
        assert(body.len() == 0);
        return None;
    }
    let mut k: usize = start;
    let mut val: u32 = 0;
    while k < t.len()
        invariant
            start <= k <= t@.len(),
            body == t@.skip(start as int),
            all_digits(body.subrange(0, k - start)),
            val == dec_val(body.subrange(0, k - start)),
            val <= 65535,
        decreases t@.len() - k,
    {
        let c = t[k];
        assert(body[k - start] == c);
        if c < 48 || c > 57 {
            assert(!is_digit(body[k - start]));
            assert(!all_digits(body));
            return None;
        }
        let nv = val * 10 + (c - 48) as u32;
        let ghost pre = body.subrange(0, k - start);
        let ghost ext = body.subrange(0, k + 1 - start);
        proof {
            assert(ext.drop_last() =~= pre);
            assert(ext.last() == c);
            assert(forall|i: int| 0 <= i < ext.len() - 1 ==> ext[i] == #[trigger] pre[i]);
            assert(all_digits(ext));
            assert(dec_val(ext) == nv);
        }
        if nv > 65535 {
            proof {
                if all_digits(body) && dec_val(body) <= 65535 {
                    lemma_dec_val_prefix(body, k + 1 - start);
                    assert(false);
                }
            }
            return None;
        }
        val = nv;
        k += 1;
    }
    assert(body.subrange(0, body.len() as int) =~= body);
    Some(val as u16)
}

/// The line is an affirmative answer: empty, or a single upper- or
/// lower-case letter Y.
pub open spec fn is_yes(t: Seq<u8>) -> bool {
    t.len() == 0 || (t.len() == 1 && (t[0] == 89 || t[0] == 121))
}

/// The complete transition table of the wizard.  An event a state does not
/// expect changes nothing.
pub open spec fn cli_table(st: CliState, ev: CliEvent, opt: COpts) -> (
    CliState,
    COpts,
    Seq<Effect>,
) {
    match (st, ev) {
        (CliState::Welcome, CliEvent::Go) => (
            CliState::ChkPerms,
            opt,
            seq![Effect::ShowWelcome, Effect::CheckPerms],
        ),
        (CliState::ChkPerms, CliEvent::Perms { root }) => if root {
            (CliState::AskKey, opt, seq![Effect::ReportPath])
        } else {
            (CliState::Quit, opt, seq![Effect::ReportNoPerms, Effect::ReportDone])
        },
        (CliState::AskKey, CliEvent::Go) => (
            CliState::ChkKey,
            opt,
            seq![Effect::PromptKey, Effect::AwaitLine],
        ),
        (CliState::ChkKey, CliEvent::Line { text, .. }) => if text@.len() == 40 {
            (CliState::StartConn, COpts { key: text, ..opt }, Seq::empty())
        } else if text@.len() != 0 || opt.key@.len() != 40 {
            (CliState::ChkKey, opt, seq![Effect::BadKey, Effect::AwaitLine])
        } else {
            (CliState::StartConn, opt, Seq::empty())
        },
        (CliState::StartConn, CliEvent::Go) => (
            CliState::AskHost,
            opt,
            seq![Effect::ReportConnSetup],
        ),
        (CliState::AskHost, CliEvent::Go) => (
            CliState::ChkHost,
            opt,
            seq![Effect::PromptHost, Effect::AwaitLine],
        ),
        (CliState::ChkHost, CliEvent::Line { text, ip_ok, .. }) => if text@.len() > 0 {
            if ip_ok {
                (CliState::AskPort, COpts { host: text, ..opt }, Seq::empty())
            } else {
                (CliState::ChkHost, opt, seq![Effect::BadHost, Effect::AwaitLine])
            }
        } else {
            (CliState::AskPort, opt, Seq::empty())
        },
        (CliState::AskPort, CliEvent::Go) => (
            CliState::ChkPort,
            opt,
            seq![Effect::PromptPort, Effect::AwaitLine],
        ),
        (CliState::ChkPort, CliEvent::Line { text, .. }) => if text@.len() > 0 {
            if port_ok(text@) {
                (
                    CliState::AskUser,
                    COpts { port: dec_val(port_body(text@)) as u16, ..opt },
                    Seq::empty(),
                )
            } else {
                (CliState::ChkPort, opt, seq![Effect::BadPort, Effect::AwaitLine])
            }
        } else {
            (CliState::AskUser, opt, Seq::empty())
        },
        (CliState::AskUser, CliEvent::Go) => (
            CliState::ChkUser,
            opt,
            seq![Effect::PromptUser, Effect::AwaitLine],
        ),
        (CliState::ChkUser, CliEvent::Line { text, .. }) => if text@.len() > 0 {
            (CliState::AskPass, COpts { user: text, ..opt }, Seq::empty())
        } else {
            (CliState::AskPass, opt, Seq::empty())
        },
        (CliState::AskPass, CliEvent::Go) => (
            CliState::ChkPass,
            opt,
            seq![Effect::PromptPass, Effect::AwaitLine],
        ),
        (CliState::ChkPass, CliEvent::Line { text, .. }) => if text@.len() > 0 {
            (CliState::AskDb, COpts { pass: text, ..opt }, Seq::empty())
        } else {
            (CliState::AskDb, opt, Seq::empty())
        },
        (CliState::AskDb, CliEvent::Go) => (
            CliState::ChkDb,
            opt,
            seq![Effect::PromptDb, Effect::AwaitLine],
        ),
        (CliState::ChkDb, CliEvent::Line { text, .. }) => if text@.len() > 0 {
            (
                CliState::ChkDb,
                COpts { db: text, ..opt },
                seq![Effect::ReportQuerying, Effect::QuerySchema],
            )
        } else {
            (CliState::ChkDb, opt, seq![Effect::ReportQuerying, Effect::QuerySchema])
        },
        (CliState::ChkDb, CliEvent::Schema { ok }) => if ok {
            (CliState::AskIface, opt, seq![Effect::ReportSchemaDone])
        } else {
            (CliState::AskHost, opt, seq![Effect::ReportSchemaErr])
        },
        (CliState::AskIface, CliEvent::Go) => (CliState::AskIface, opt, seq![Effect::ListIfaces]),
        (CliState::AskIface, CliEvent::Ifaces { names }) => if names@.len() == 0 {
            (CliState::Quit, opt, seq![Effect::ReportNoIfaces, Effect::ReportDone])
        } else if names@.len() == 1 {
            (CliState::AskStart, COpts { iface: names[0], ..opt }, Seq::empty())
        } else {
            (
                CliState::ChkIface,
                COpts { iface: names[0], ..opt },
                seq![Effect::PromptIface, Effect::AwaitLine],
            )
        },
        (CliState::ChkIface, CliEvent::Line { text, iface_ok, .. }) => if text@.len() > 0 {
            if iface_ok {
                (CliState::AskStart, COpts { iface: text, ..opt }, Seq::empty())
            } else {
                (CliState::ChkIface, opt, seq![Effect::BadIface, Effect::AwaitLine])
            }
        } else {
            (CliState::AskStart, opt, Seq::empty())
        },
        (CliState::AskStart, CliEvent::Go) => (
            CliState::ChkStart,
            opt,
            seq![Effect::PromptStart, Effect::AwaitLine],
        ),
        (CliState::ChkStart, CliEvent::Line { .. }) => (
            CliState::AskStop,
            opt,
            seq![Effect::EnableCapture],
        ),
        (CliState::AskStop, CliEvent::Go) => (
            CliState::ChkStop,
            opt,
            seq![Effect::ReportCapturing, Effect::StartSniffer, Effect::AwaitLine],
        ),
        (CliState::ChkStop, CliEvent::Line { .. }) => (
            CliState::AskSend,
            opt,
            seq![Effect::DisableCapture, Effect::ReportCounts],
        ),
        (CliState::AskSend, CliEvent::Go) => (
            CliState::ChkSend,
            opt,
            seq![Effect::PromptSend, Effect::AwaitLine],
        ),
        (CliState::ChkSend, CliEvent::Line { text, .. }) => if is_yes(text@) {
            (CliState::ChkSend, opt, seq![Effect::ReportSending, Effect::DoUpload])
        } else {
            (CliState::Quit, opt, seq![Effect::ReportDone])
        },
        (CliState::ChkSend, CliEvent::Upload { ok }) => if ok {
            (CliState::Quit, opt, seq![Effect::ReportUploadOk, Effect::ReportDone])
        } else {
            (CliState::Quit, opt, seq![Effect::ReportUploadFail, Effect::ReportDone])
        },
        (CliState::Quit, _) => (CliState::Quit, opt, Seq::empty()),
        (_, _) => (st, opt, Seq::empty()),
    }
}

/// Once reached, the final state is never left, whatever else arrives.
pub proof fn lemma_quit_absorbing(ev: CliEvent, opt: COpts)
    ensures
        cli_table(CliState::Quit, ev, opt).0 == CliState::Quit,
{
}

/// Drive the wizard one step.
pub fn cli_act(st: CliState, ev: CliEvent, opt: COpts) -> (r: (CliState, COpts, Vec<Effect>))
    ensures
        ({
            let s = cli_table(st, ev, opt);
            r.0 == s.0 && r.1 == s.1 && r.2@ == s.2
        }),
{
    match (st, ev) {
        (CliState::Welcome, CliEvent::Go) => (
            CliState::ChkPerms,
            opt,
            eff2(Effect::ShowWelcome, Effect::CheckPerms),
        ),
        (CliState::ChkPerms, CliEvent::Perms { root }) => if root {
            (CliState::AskKey, opt, eff1(Effect::ReportPath))
        } else {
            (CliState::Quit, opt, eff2(Effect::ReportNoPerms, Effect::ReportDone))
        },
        (CliState::AskKey, CliEvent::Go) => (
            CliState::ChkKey,
            opt,
            eff2(Effect::PromptKey, Effect::AwaitLine),
        ),
        (CliState::ChkKey, CliEvent::Line { text, .. }) => if text.len() == 40 {
            (CliState::StartConn, COpts { key: text, ..opt }, eff0())
        } else if text.len() != 0 || opt.key.len() != 40 {
            (CliState::ChkKey, opt, eff2(Effect::BadKey, Effect::AwaitLine))
        } else {
            (CliState::StartConn, opt, eff0())
        },
        (CliState::StartConn, CliEvent::Go) => (
            CliState::AskHost,
            opt,
            eff1(Effect::ReportConnSetup),
        ),
        (CliState::AskHost, CliEvent::Go) => (
            CliState::ChkHost,
            opt,
            eff2(Effect::PromptHost, Effect::AwaitLine),
        ),
        (CliState::ChkHost, CliEvent::Line { text, ip_ok, .. }) => if text.len() > 0 {
            if ip_ok {
                (CliState::AskPort, COpts { host: text, ..opt }, eff0())
            } else {
                (CliState::ChkHost, opt, eff2(Effect::BadHost, Effect::AwaitLine))
            }
        } else {
            (CliState::AskPort, opt, eff0())
        },
        (CliState::AskPort, CliEvent::Go) => (
            CliState::ChkPort,
            opt,
            eff2(Effect::PromptPort, Effect::AwaitLine),
        ),
        (CliState::ChkPort, CliEvent::Line { text, .. }) => if text.len() > 0 {
            match parse_u16(text.as_slice()) {
                Some(p) => (CliState::AskUser, COpts { port: p, ..opt }, eff0()),
                None => (CliState::ChkPort, opt, eff2(Effect::BadPort, Effect::AwaitLine)),
            }
        } else {
            (CliState::AskUser, opt, eff0())
        },
        (CliState::AskUser, CliEvent::Go) => (
            CliState::ChkUser,
            opt,
            eff2(Effect::PromptUser, Effect::AwaitLine),
        ),
        (CliState::ChkUser, CliEvent::Line { text, .. }) => if text.len() > 0 {
            (CliState::AskPass, COpts { user: text, ..opt }, eff0())
        } else {
            (CliState::AskPass, opt, eff0())
        },
        (CliState::AskPass, CliEvent::Go) => (
            CliState::ChkPass,
            opt,
            eff2(Effect::PromptPass, Effect::AwaitLine),
        ),
        (CliState::ChkPass, CliEvent::Line { text, .. }) => if text.len() > 0 {
            (CliState::AskDb, COpts { pass: text, ..opt }, eff0())
        } else {
            (CliState::AskDb, opt, eff0())
        },
        (CliState::AskDb, CliEvent::Go) => (
            CliState::ChkDb,
            opt,
            eff2(Effect::PromptDb, Effect::AwaitLine),
        ),
        (CliState::ChkDb, CliEvent::Line { text, .. }) => if text.len() > 0 {
            (
                CliState::ChkDb,
                COpts { db: text, ..opt },
                eff2(Effect::ReportQuerying, Effect::QuerySchema),
            )
        } else {
            (CliState::ChkDb, opt, eff2(Effect::ReportQuerying, Effect::QuerySchema))
        },
        (CliState::ChkDb, CliEvent::Schema { ok }) => if ok {
            (CliState::AskIface, opt, eff1(Effect::ReportSchemaDone))
        } else {
            (CliState::AskHost, opt, eff1(Effect::ReportSchemaErr))
        },
        (CliState::AskIface, CliEvent::Go) => (CliState::AskIface, opt, eff1(Effect::ListIfaces)),
        (CliState::AskIface, CliEvent::Ifaces { mut names }) => if names.len() == 0 {
            (CliState::Quit, opt, eff2(Effect::ReportNoIfaces, Effect::ReportDone))
        } else if names.len() == 1 {
            let first = names.remove(0);
            (CliState::AskStart, COpts { iface: first, ..opt }, eff0())
        } else {
            let first = names.remove(0);
            (
                CliState::ChkIface,
                COpts { iface: first, ..opt },
                eff2(Effect::PromptIface, Effect::AwaitLine),
            )
        },
        (CliState::ChkIface, CliEvent::Line { text, iface_ok, .. }) => if text.len() > 0 {
            if iface_ok {
                (CliState::AskStart, COpts { iface: text, ..opt }, eff0())
            } else {
                (CliState::ChkIface, opt, eff2(Effect::BadIface, Effect::AwaitLine))
            }
        } else {
            (CliState::AskStart, opt, eff0())
        },
        (CliState::AskStart, CliEvent::Go) => (
            CliState::ChkStart,
            opt,
            eff2(Effect::PromptStart, Effect::AwaitLine),
        ),
        (CliState::ChkStart, CliEvent::Line { .. }) => (
            CliState::AskStop,
            opt,
            eff1(Effect::EnableCapture),
        ),
        (CliState::AskStop, CliEvent::Go) => (
            CliState::ChkStop,
            opt,
            eff3(Effect::ReportCapturing, Effect::StartSniffer, Effect::AwaitLine),
        ),
        (CliState::ChkStop, CliEvent::Line { .. }) => (
            CliState::AskSend,
            opt,
            eff2(Effect::DisableCapture, Effect::ReportCounts),
        ),
        (CliState::AskSend, CliEvent::Go) => (
            CliState::ChkSend,
            opt,
            eff2(Effect::PromptSend, Effect::AwaitLine),
        ),
        (CliState::ChkSend, CliEvent::Line { text, .. }) => if text.len() == 0 || (text.len() == 1
            && (text[0] == 89 || text[0] == 121)) {
            (CliState::ChkSend, opt, eff2(Effect::ReportSending, Effect::DoUpload))
        } else {
            (CliState::Quit, opt, eff1(Effect::ReportDone))
        },
        (CliState::ChkSend, CliEvent::Upload { ok }) => if ok {
            (CliState::Quit, opt, eff2(Effect::ReportUploadOk, Effect::ReportDone))
        } else {
            (CliState::Quit, opt, eff2(Effect::ReportUploadFail, Effect::ReportDone))
        },
        (CliState::Quit, _) => (CliState::Quit, opt, eff0()),
        (st2, _) => (st2, opt, eff0()),
    }
}

fn eff0() -> (r: Vec<Effect>)
    ensures
        r@ == Seq::<Effect>::empty(),
{
    let r: Vec<Effect> = Vec::new();
    assert(r@ =~= Seq::<Effect>::empty());
    r
}

fn eff1(a: Effect) -> (r: Vec<Effect>)
    ensures
        r@ == seq![a],
{
    let mut r: Vec<Effect> = Vec::new();
    r.push(a);
    assert(r@ =~= seq![a]);
    r
}

fn eff2(a: Effect, b: Effect) -> (r: Vec<Effect>)
    ensures
        r@ == seq![a, b],
{
    let mut r: Vec<Effect> = Vec::new();
    r.push(a);
    r.push(b);
    assert(r@ =~= seq![a, b]);
    r
}

fn eff3(a: Effect, b: Effect, c: Effect) -> (r: Vec<Effect>)
    ensures
        r@ == seq![a, b, c],
{
    let mut r: Vec<Effect> = Vec::new();
    r.push(a);
    r.push(b);
    r.push(c);
    assert(r@ =~= seq![a, b, c]);
    r
}

} // verus!
