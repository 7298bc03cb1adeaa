//! What the program can be told to do.

use vstd::prelude::*;

use crate::lists;
use crate::text;

verus! {

/// Where the classifier is attached among others.
#[derive(Debug, Clone, Copy, PartialEq, Eq, Structural)]
pub enum TcOrder {
    First,
    Default,
    Last,
    Before,
    After,
}

/// The order that a text in small letters names.
pub open spec fn order_named(s: Seq<char>) -> Option<TcOrder> {
    if s == "first"@ {
        Some(TcOrder::First)
    } else if s == "default"@ {
        Some(TcOrder::Default)
    } else if s == "last"@ {
        Some(TcOrder::Last)
    } else if s == "before"@ {
        Some(TcOrder::Before)
    } else if s == "after"@ {
        Some(TcOrder::After)
    } else {
        None
    }
}

impl TcOrder {
    /// The order that a text names, in whatever case.
    pub fn parse(s: &str) -> (r: Option<Self>)
        ensures
            r == order_named(text::unicode_lower(s@)),
            text::is_ascii_text(s@) ==> r == order_named(text::ascii_lower(s@)),
    {
        let lower = s.to_lowercase();
        TcOrder::from_lowercase(lower.as_str())
    }

    /// The order that a text in small letters names.
    pub fn from_lowercase(s: &str) -> (r: Option<Self>)
        ensures
            r == order_named(s@),
    {
        if text::same_text(s, "first") {
            Some(TcOrder::First)
        } else if text::same_text(s, "default") {
            Some(TcOrder::Default)
        } else if text::same_text(s, "last") {
            Some(TcOrder::Last)
        } else if text::same_text(s, "before") {
            Some(TcOrder::Before)
        } else if text::same_text(s, "after") {
            Some(TcOrder::After)
        } else {
            None
        }
    }
}

/// How the classifier is attached.
#[derive(Debug, Clone, Copy, PartialEq, Eq, Structural)]
pub enum TcBackend {
    Auto,
    Tcx,
    Netlink,
}

/// The backend that a text in small letters names.
pub open spec fn backend_named(s: Seq<char>) -> Option<TcBackend> {
    if s == "auto"@ {
        Some(TcBackend::Auto)
    } else if s == "tcx"@ {
        Some(TcBackend::Tcx)
    } else if s == "netlink"@ {
        Some(TcBackend::Netlink)
    } else {
        None
    }
}

impl TcBackend {
    /// The backend that a text names, in whatever case.
    pub fn parse(s: &str) -> (r: Option<Self>)
        ensures
            r == backend_named(text::unicode_lower(s@)),
            text::is_ascii_text(s@) ==> r == backend_named(text::ascii_lower(s@)),
    {
        let lower = s.to_lowercase();
        TcBackend::from_lowercase(lower.as_str())
    }

    /// The backend that a text in small letters names.
    pub fn from_lowercase(s: &str) -> (r: Option<Self>)
        ensures
            r == backend_named(s@),
    {
        if text::same_text(s, "auto") {
            Some(TcBackend::Auto)
        } else if text::same_text(s, "tcx") {
            Some(TcBackend::Tcx)
        } else if text::same_text(s, "netlink") {
            Some(TcBackend::Netlink)
        } else {
            None
        }
    }
}

/// How much is logged.
#[derive(Debug, Clone, Copy, PartialEq, Eq, Structural)]
pub enum LogLevel {
    Trace,
    Debug,
    Info,
    Warn,
    Error,
}

/// The level that a text in small letters names.
pub open spec fn level_named(s: Seq<char>) -> Option<LogLevel> {
    if s == "trace"@ {
        Some(LogLevel::Trace)
    } else if s == "debug"@ {
        Some(LogLevel::Debug)
    } else if s == "info"@ {
        Some(LogLevel::Info)
    } else if s == "warn"@ {
        Some(LogLevel::Warn)
    } else if s == "error"@ {
        Some(LogLevel::Error)
    } else {
        None
    }
}

impl LogLevel {
    /// The level that a text names, in whatever case.
    pub fn parse(s: &str) -> (r: Option<Self>)
        ensures
            r == level_named(text::unicode_lower(s@)),
            text::is_ascii_text(s@) ==> r == level_named(text::ascii_lower(s@)),
    {
        let lower = s.to_lowercase();
        LogLevel::from_lowercase(lower.as_str())
    }

    /// The level that a text in small letters names.
    pub fn from_lowercase(s: &str) -> (r: Option<Self>)
        ensures
            r == level_named(s@),
    {
        if text::same_text(s, "trace") {
            Some(LogLevel::Trace)
        } else if text::same_text(s, "debug") {
            Some(LogLevel::Debug)
        } else if text::same_text(s, "info") {
            Some(LogLevel::Info)
        } else if text::same_text(s, "warn") {
            Some(LogLevel::Warn)
        } else if text::same_text(s, "error") {
            Some(LogLevel::Error)
        } else {
            None
        }
    }
}

/// What the program is told to do.
#[derive(Debug)]
pub struct Options {
    pub enable_traffic: bool,
    pub traffic_enable_storage: bool,
    /// Days of hourly buckets to keep; zero keeps all.
    pub traffic_retention_days: u32,
    pub iface: Vec<String>,
    pub log_level: String,
    pub tc_order: String,
    pub tc_backend: String,
    pub netlink_priority: Option<u16>,
    pub tcx_anchor_ingress_id: Option<u32>,
    pub tcx_anchor_egress_id: Option<u32>,
    pub history_window_minutes: u32,
    pub host: String,
    pub port: u16,
    pub data_dir: String,
}

/// What the program is told to do, with texts as characters.
#[verifier::ext_equal]
pub struct OptionsView {
    pub enable_traffic: bool,
    pub traffic_enable_storage: bool,
    pub traffic_retention_days: u32,
    pub iface: Seq<Seq<char>>,
    pub log_level: Seq<char>,
    pub tc_order: Seq<char>,
    pub tc_backend: Seq<char>,
    pub netlink_priority: Option<u16>,
    pub tcx_anchor_ingress_id: Option<u32>,
    pub tcx_anchor_egress_id: Option<u32>,
    pub history_window_minutes: u32,
    pub host: Seq<char>,
    pub port: u16,
    pub data_dir: Seq<char>,
}

impl View for Options {
    type V = OptionsView;

    open spec fn view(&self) -> OptionsView {
        OptionsView {
            enable_traffic: self.enable_traffic,
            traffic_enable_storage: self.traffic_enable_storage,
            traffic_retention_days: self.traffic_retention_days,
            iface: lists::texts(self.iface@),
            log_level: self.log_level@,
            tc_order: self.tc_order@,
            tc_backend: self.tc_backend@,
            netlink_priority: self.netlink_priority,
            tcx_anchor_ingress_id: self.tcx_anchor_ingress_id,
            tcx_anchor_egress_id: self.tcx_anchor_egress_id,
            history_window_minutes: self.history_window_minutes,
            host: self.host@,
            port: self.port,
            data_dir: self.data_dir@,
        }
    }
}

impl Clone for Options {
    fn clone(&self) -> (r: Self)
        ensures
            r@ == self@,
    {
        Options {
            enable_traffic: self.enable_traffic,
            traffic_enable_storage: self.traffic_enable_storage,
            traffic_retention_days: self.traffic_retention_days,
            iface: lists::copy_texts(&self.iface),
            log_level: self.log_level.clone(),
            tc_order: self.tc_order.clone(),
            tc_backend: self.tc_backend.clone(),
            netlink_priority: self.netlink_priority,
            tcx_anchor_ingress_id: self.tcx_anchor_ingress_id,
            tcx_anchor_egress_id: self.tcx_anchor_egress_id,
            history_window_minutes: self.history_window_minutes,
            host: self.host.clone(),
            port: self.port,
            data_dir: self.data_dir.clone(),
        }
    }
}

/// ASCII texts that differ in case only name the same order, backend and level.
pub proof fn lemma_case_is_ignored(a: Seq<char>, b: Seq<char>)
    requires
        text::same_ignoring_case(a, b),
    ensures
        order_named(text::ascii_lower(a)) == order_named(text::ascii_lower(b)),
        backend_named(text::ascii_lower(a)) == backend_named(text::ascii_lower(b)),
        level_named(text::ascii_lower(a)) == level_named(text::ascii_lower(b)),
{
    text::lemma_same_lower(a, b);
}

} // verus!
