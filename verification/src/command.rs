//! Checking what the program is told to do, and when it saves what it knows.

use vstd::prelude::*;

use crate::histogram;
use crate::histogram::HistogramHistory;
use crate::options;
use crate::options::LogLevel;
use crate::options::Options;
use crate::options::OptionsView;
use crate::options::TcBackend;
use crate::options::TcOrder;
use crate::runtime::MonitorRuntime;
use crate::runtime::RuntimeView;
use crate::text;

verus! {

/// The least time between two savings of what is known.
pub const PERIODIC_PERSIST_INTERVAL_MS: u64 = 60_000;

/// What is wrong with what the program is told to do.
#[derive(Debug)]
pub enum ArgumentError {
    IfaceRequired,
    /// An interface cannot be used; the text says why.
    IfaceRejected(String),
    InvalidTcOrder(String),
    InvalidTcBackend(String),
    PriorityWithTcx,
    AnchorRequired,
    OrderNeedsTcx,
    AnchorWithoutOrder,
    EmptyHost,
    InvalidLogLevel(String),
}

/// What is wrong with what the program is told to do, with texts as characters.
pub enum ArgumentProblem {
    IfaceRequired,
    IfaceRejected(Seq<char>),
    InvalidTcOrder(Seq<char>),
    InvalidTcBackend(Seq<char>),
    PriorityWithTcx,
    AnchorRequired,
    OrderNeedsTcx,
    AnchorWithoutOrder,
    EmptyHost,
    InvalidLogLevel(Seq<char>),
}

impl View for ArgumentError {
    type V = ArgumentProblem;

    open spec fn view(&self) -> ArgumentProblem {
        match self {
            ArgumentError::IfaceRequired => ArgumentProblem::IfaceRequired,
            ArgumentError::IfaceRejected(s) => ArgumentProblem::IfaceRejected(s@),
            ArgumentError::InvalidTcOrder(s) => ArgumentProblem::InvalidTcOrder(s@),
            ArgumentError::InvalidTcBackend(s) => ArgumentProblem::InvalidTcBackend(s@),
            ArgumentError::PriorityWithTcx => ArgumentProblem::PriorityWithTcx,
            ArgumentError::AnchorRequired => ArgumentProblem::AnchorRequired,
            ArgumentError::OrderNeedsTcx => ArgumentProblem::OrderNeedsTcx,
            ArgumentError::AnchorWithoutOrder => ArgumentProblem::AnchorWithoutOrder,
            ArgumentError::EmptyHost => ArgumentProblem::EmptyHost,
            ArgumentError::InvalidLogLevel(s) => ArgumentProblem::InvalidLogLevel(s@),
        }
    }
}

/// What is said of a problem.
pub open spec fn problem_text(p: ArgumentProblem) -> Seq<char> {
    match p {
        ArgumentProblem::IfaceRequired =>
            "at least one --iface is required when --enable-traffic=true"@,
        ArgumentProblem::IfaceRejected(s) => s,
        ArgumentProblem::InvalidTcOrder(s) => "Invalid tc-order: "@ + s
            + ". Valid: first, default, last, before, after"@,
        ArgumentProblem::InvalidTcBackend(s) => "Invalid tc-backend: "@ + s
            + ". Valid: auto, tcx, netlink"@,
        ArgumentProblem::PriorityWithTcx =>
            "--netlink-priority cannot be used with --tc-backend=tcx"@,
        ArgumentProblem::AnchorRequired =>
            "anchor program id is required when --tc-order is before/after; use --tcx-anchor-ingress-id/--tcx-anchor-egress-id"@,
        ArgumentProblem::OrderNeedsTcx =>
            "--tc-order=before/after is only supported with tcx backend"@,
        ArgumentProblem::AnchorWithoutOrder =>
            "--tcx-anchor-ingress-id and --tcx-anchor-egress-id can only be used when --tc-order is before/after"@,
        ArgumentProblem::EmptyHost => "--host cannot be empty"@,
        ArgumentProblem::InvalidLogLevel(s) => "Invalid log level: "@ + s
            + ". Valid values: trace, debug, info, warn, error"@,
    }
}

/// Three texts in a row.
fn join(a: &str, b: &str, c: &str) -> (r: String)
    ensures
        r@ == a@ + b@ + c@,
{
    let mut r = a.to_owned();
    r.append(b);
    r.append(c);
    r
}

impl ArgumentError {
    /// What is said of the problem.
    pub fn message(&self) -> (r: String)
        ensures
            r@ == problem_text(self@),
    {
        match self {
            ArgumentError::IfaceRequired => {
                "at least one --iface is required when --enable-traffic=true".to_owned()
            },
            ArgumentError::IfaceRejected(s) => s.clone(),
            ArgumentError::InvalidTcOrder(s) => join(
                "Invalid tc-order: ",
                s.as_str(),
                ". Valid: first, default, last, before, after",
            ),
            ArgumentError::InvalidTcBackend(s) => join(
                "Invalid tc-backend: ",
                s.as_str(),
                ". Valid: auto, tcx, netlink",
            ),
            ArgumentError::PriorityWithTcx => {
                "--netlink-priority cannot be used with --tc-backend=tcx".to_owned()
            },
            ArgumentError::AnchorRequired => {
                "anchor program id is required when --tc-order is before/after; use --tcx-anchor-ingress-id/--tcx-anchor-egress-id".to_owned()
            },
            ArgumentError::OrderNeedsTcx => {
                "--tc-order=before/after is only supported with tcx backend".to_owned()
            },
            ArgumentError::AnchorWithoutOrder => {
                "--tcx-anchor-ingress-id and --tcx-anchor-egress-id can only be used when --tc-order is before/after".to_owned()
            },
            ArgumentError::EmptyHost => "--host cannot be empty".to_owned(),
            ArgumentError::InvalidLogLevel(s) => join(
                "Invalid log level: ",
                s.as_str(),
                ". Valid values: trace, debug, info, warn, error",
            ),
        }
    }
}

/// What is wrong with an order and a backend, and with the anchors that go with them.
pub open spec fn tc_problem(
    o: OptionsView,
    order: Option<TcOrder>,
    backend: Option<TcBackend>,
) -> Option<ArgumentProblem> {
    let anchored = o.tcx_anchor_ingress_id is Some || o.tcx_anchor_egress_id is Some;
    if order is None {
        Some(ArgumentProblem::InvalidTcOrder(o.tc_order))
    } else if backend is None {
        Some(ArgumentProblem::InvalidTcBackend(o.tc_backend))
    } else if o.netlink_priority is Some && backend == Some(TcBackend::Tcx) {
        Some(ArgumentProblem::PriorityWithTcx)
    } else if order == Some(TcOrder::Before) || order == Some(TcOrder::After) {
        if !anchored {
            Some(ArgumentProblem::AnchorRequired)
        } else if backend == Some(TcBackend::Netlink) {
            Some(ArgumentProblem::OrderNeedsTcx)
        } else {
            None
        }
    } else if anchored {
        Some(ArgumentProblem::AnchorWithoutOrder)
    } else {
        None
    }
}

/// What is wrong with the options, where `rejected` says why an interface cannot be used, if so.
pub open spec fn argument_problem(
    o: OptionsView,
    rejected: Option<Seq<char>>,
    order: Option<TcOrder>,
    backend: Option<TcBackend>,
) -> Option<ArgumentProblem> {
    if o.enable_traffic && o.iface.len() == 0 {
        Some(ArgumentProblem::IfaceRequired)
    } else if o.enable_traffic && rejected is Some {
        Some(ArgumentProblem::IfaceRejected(rejected.unwrap()))
    } else if o.enable_traffic && tc_problem(o, order, backend) is Some {
        tc_problem(o, order, backend)
    } else if text::trimmed(o.host).len() == 0 {
        Some(ArgumentProblem::EmptyHost)
    } else {
        None
    }
}

/// The problem in a result.
pub open spec fn problem_of<T>(r: Result<T, ArgumentError>) -> Option<ArgumentProblem> {
    match r {
        Ok(_) => None,
        Err(e) => Some(e@),
    }
}

fn check_tc(options: &Options, order: Option<TcOrder>, backend: Option<TcBackend>) -> (r: Result<
    (),
    ArgumentError,
>)
    ensures
        problem_of(r) == tc_problem(options@, order, backend),
{
    let Some(order) = order else {
        return Err(ArgumentError::InvalidTcOrder(options.tc_order.clone()));
    };
    let Some(backend) = backend else {
        return Err(ArgumentError::InvalidTcBackend(options.tc_backend.clone()));
    };
    if options.netlink_priority.is_some() && backend == TcBackend::Tcx {
        return Err(ArgumentError::PriorityWithTcx);
    }
    let anchored = options.tcx_anchor_ingress_id.is_some()
        || options.tcx_anchor_egress_id.is_some();
    match order {
        TcOrder::Before | TcOrder::After => {
            if !anchored {
                return Err(ArgumentError::AnchorRequired);
            }
            if backend == TcBackend::Netlink {
                return Err(ArgumentError::OrderNeedsTcx);
            }
        },
        _ => {
            if anchored {
                return Err(ArgumentError::AnchorWithoutOrder);
            }
        },
    }
    Ok(())
}

/// Checks the options against an order and a backend that have been read from them.
pub fn validate_parsed(
    options: &Options,
    rejected: Option<String>,
    order: Option<TcOrder>,
    backend: Option<TcBackend>,
) -> (r: Result<(), ArgumentError>)
    ensures
        problem_of(r) == argument_problem(
            options@,
            crate::snapshot::opt_text(rejected),
            order,
            backend,
        ),
{
    if options.enable_traffic {
        if options.iface.len() == 0 {
            return Err(ArgumentError::IfaceRequired);
        }
        if let Some(why) = rejected {
            return Err(ArgumentError::IfaceRejected(why));
        }
        check_tc(options, order, backend)?;
    }
    if text::trim(options.host.as_str()).is_empty() {
        return Err(ArgumentError::EmptyHost);
    }
    Ok(())
}

/// Checks the options, where `rejected` says why an interface cannot be used, if so.
pub fn validate_arguments(options: &Options, rejected: Option<String>) -> (r: Result<
    (),
    ArgumentError,
>)
    ensures
        problem_of(r) == argument_problem(
            options@,
            crate::snapshot::opt_text(rejected),
            options::order_named(text::unicode_lower(options@.tc_order)),
            options::backend_named(text::unicode_lower(options@.tc_backend)),
        ),
{
    let order = TcOrder::parse(options.tc_order.as_str());
    let backend = TcBackend::parse(options.tc_backend.as_str());
    validate_parsed(options, rejected, order, backend)
}

/// What the program goes on to do.
#[derive(Debug, Clone, Copy, PartialEq, Eq, Structural)]
pub struct RunPlan {
    pub log_level: LogLevel,
    /// Whether services are started; otherwise the program ends.
    pub serve: bool,
}

/// What the program goes on to do with options that may have a problem, and a log level that may
/// not have been named.
pub open spec fn run_plan(
    o: OptionsView,
    problem: Option<ArgumentProblem>,
    level: Option<LogLevel>,
) -> Result<RunPlan, ArgumentProblem> {
    match problem {
        Some(p) => Err(p),
        None => match level {
            Some(log_level) => Ok(RunPlan { log_level, serve: o.enable_traffic }),
            None => Err(ArgumentProblem::InvalidLogLevel(o.log_level)),
        },
    }
}

/// Checks the options and says what the program goes on to do.
pub fn plan_run(options: &Options, rejected: Option<String>) -> (r: Result<RunPlan, ArgumentError>)
    ensures
        run_plan(
            options@,
            argument_problem(
                options@,
                crate::snapshot::opt_text(rejected),
                options::order_named(text::unicode_lower(options@.tc_order)),
                options::backend_named(text::unicode_lower(options@.tc_backend)),
            ),
            options::level_named(text::unicode_lower(options@.log_level)),
        ) == (match r {
            Ok(p) => Ok::<RunPlan, ArgumentProblem>(p),
            Err(e) => Err(e@),
        }),
{
    if let Err(e) = validate_arguments(options, rejected) {
        return Err(e);
    }
    match LogLevel::parse(options.log_level.as_str()) {
        Some(log_level) => Ok(RunPlan { log_level, serve: options.enable_traffic }),
        None => Err(ArgumentError::InvalidLogLevel(options.log_level.clone())),
    }
}

/// The number of samples in a window of some minutes, one each second, and at least one.
pub fn history_points(minutes: u32) -> (r: usize)
    ensures
        r == (if minutes == 0 {
            1
        } else {
            minutes * 60
        }) as usize,
{
    let points: u64 = minutes as u64 * 60;
    if points < 1 {
        1
    } else {
        points as usize
    }
}

/// Whether the interval between two savings is over.
pub open spec fn interval_over(now_ms: u64, last_ms: u64) -> bool {
    now_ms - last_ms >= PERIODIC_PERSIST_INTERVAL_MS
}

/// When what is known was last saved, after it has been tried at `now_ms`: only a saving that
/// succeeded in every part counts.
pub open spec fn last_saved(
    now_ms: u64,
    last_ms: u64,
    runtime_saved: bool,
    histogram_saved: bool,
) -> u64 {
    if runtime_saved && histogram_saved {
        now_ms
    } else {
        last_ms
    }
}

/// Whether it is time to save again.
pub fn persist_due(now_ms: u64, last_ms: u64) -> (r: bool)
    ensures
        r == interval_over(now_ms, last_ms),
{
    now_ms.saturating_sub(last_ms) >= PERIODIC_PERSIST_INTERVAL_MS
}

/// When what is known was last saved, after it has been tried at `now_ms`.
pub fn last_persist_after(
    now_ms: u64,
    last_ms: u64,
    runtime_saved: bool,
    histogram_saved: bool,
) -> (r: u64)
    ensures
        r == last_saved(now_ms, last_ms, runtime_saved, histogram_saved),
{
    if runtime_saved && histogram_saved {
        now_ms
    } else {
        last_ms
    }
}

/// A saving that failed in some part is due again at every later time; one that succeeded is due
/// again once the interval is over, and not before.
pub proof fn lemma_persist_again(
    now_ms: u64,
    last_ms: u64,
    next_ms: u64,
    runtime_saved: bool,
    histogram_saved: bool,
)
    requires
        interval_over(now_ms, last_ms),
        now_ms <= next_ms,
    ensures
        interval_over(next_ms, last_saved(now_ms, last_ms, runtime_saved, histogram_saved)) <==> (
        !(runtime_saved && histogram_saved) || next_ms >= now_ms + PERIODIC_PERSIST_INTERVAL_MS),
{
}

impl MonitorRuntime {
    /// Takes the totals of interfaces and devices from the hours that were kept.
    pub fn adopt_totals(&mut self, histogram: &HistogramHistory)
        ensures
            final(self)@ == (RuntimeView {
                cumulative_iface: histogram::with_open_ifaces(
                    histogram::closed_iface_totals(histogram@.ifaces.completed),
                    histogram@.ifaces.current,
                ),
                cumulative_device: histogram::with_open_devices(
                    histogram::closed_device_totals(histogram@.devices.completed),
                    histogram@.devices.current,
                ),
                ..old(self)@
            }),
            old(self).wf() ==> final(self).wf(),
    {
        let (iface, device) = histogram.cumulative_from_all();
        self.cumulative_iface = iface;
        self.cumulative_device = device;
    }
}

/// The decimal digits of a number, without zeros in front.
pub open spec fn decimal_text(n: nat) -> Seq<char>
    decreases n,
{
    if n < 10 {
        seq![(48 + n) as char]
    } else {
        decimal_text(n / 10).push((48 + n % 10) as char)
    }
}

fn digit_char(d: u64) -> (c: char)
    requires
        d < 10,
    ensures
        c == (48 + d) as char,
{
    (48 + d as u8) as char
}

/// Appends the decimal digits of a number to a text.
pub fn push_decimal(s: &mut String, n: u64)
    ensures
        final(s)@ == old(s)@ + decimal_text(n as nat),
    decreases n,
{
    let ghost before = s@;
    if n < 10 {
        s.push(digit_char(n));
        assert(s@ =~= before + decimal_text(n as nat));
    } else {
        push_decimal(s, n / 10);
        s.push(digit_char(n % 10));
        assert(s@ =~= before + decimal_text(n as nat));
    }
}

/// The address that the server is bound to: host, colon and port.
pub fn bind_address(host: &str, port: u16) -> (r: String)
    ensures
        r@ == host@ + ":"@ + decimal_text(port as nat),
{
    let mut r = host.to_owned();
    r.append(":");
    push_decimal(&mut r, port as u64);
    r
}

/// A number is read back from its decimal digits.
pub proof fn lemma_decimal_round_trip(n: nat)
    ensures
        crate::topology::decimal(decimal_text(n)) == n,
    decreases n,
{
    let s = decimal_text(n);
    if n >= 10 {
        lemma_decimal_round_trip(n / 10);
        assert(s.drop_last() =~= decimal_text(n / 10));
    } else {
        assert(s.drop_last() =~= Seq::<char>::empty());
        assert(crate::topology::decimal(Seq::<char>::empty()) == 0);
    }
}

} // verus!
