use vstd::prelude::*;

use super::models::{Bucket, Interface, Options, Top, Totals};
use super::named_map::NamedMap;
use super::tables::filters::{self, Kind};
use super::tables::log;
use crate::decimal::{decimal, decimal_text, digits_value, law_decimal_reads_back};

verus! {

/// The filters of a query on the firewall log.
pub struct FilterForm {
    /// Seconds in the past to query
    pub time_range: u32,
    /// Source IPv4 or IPv6 address
    pub src_ip: Option<String>,
    /// Destination IPv4 or IPv6 address
    pub dst_ip: Option<String>,
    /// Source Port
    pub src_port: Option<u16>,
    /// Destination Port
    pub dst_port: Option<u16>,
    /// Layer 4 Protocol
    pub protocol: Option<u32>,
    /// Input interface name
    pub iiface: Option<String>,
    /// Output interface name
    pub oiface: Option<String>,
    /// Whether traffic was allowed through (was not blocked/dropped)
    pub allowed: Option<bool>,
    /// Number of results to return
    pub limit: u16,
    /// Offset to start for results
    pub offset: u16,
}

/// The filter of a query on the filter values.
pub struct OptionsForm {
    /// Seconds in the past to query
    pub time_range: u32,
}

/// One condition on the rows of the log, as the database tests it.
pub enum Condition {
    /// The row was logged at or after this second.
    TimeFrom(u32),
    /// The source address is this one.
    SrcIp(String),
    /// The destination address is this one.
    DstIp(String),
    /// The TCP or the UDP source port is this one.
    SrcPort(u16),
    /// The TCP or the UDP destination port is this one.
    DstPort(u16),
    /// The protocol number is this one.
    Proto(u8),
    /// The input interface is this one.
    Iiface(String),
    /// The output interface is this one.
    Oiface(String),
    /// The log prefix contains the text of allowed (`true`) or of dropped
    /// (`false`) traffic, ASCII letters compared without case.
    Verdict(bool),
}

/// An ASCII upper-case letter turned to lower case; any other character as it is.
pub open spec fn ascii_lower(c: char) -> char {
    if 'A' <= c && c <= 'Z' {
        ((c as int) + 32) as char
    } else {
        c
    }
}

/// A text with its ASCII letters in lower case.
pub open spec fn lower_all(text: Seq<char>) -> Seq<char> {
    text.map_values(|c: char| ascii_lower(c))
}

/// `pattern` occurs in `text`, ASCII letters compared without case.
pub open spec fn contains_ignoring_ascii_case(text: Seq<char>, pattern: Seq<char>) -> bool {
    exists|start: int|
        0 <= start && start + pattern.len() <= text.len() && #[trigger] lower_all(
            text.skip(start).take(pattern.len() as int),
        ) == lower_all(pattern)
}

/// A port condition holds of a TCP and a UDP port of a row.
pub open spec fn port_matches(tcp: Option<u16>, udp: Option<u16>, port: u16) -> bool {
    tcp == Some(port) || udp == Some(port)
}

impl Condition {
    /// The row meets the condition.
    pub open spec fn holds(self, row: log::Model) -> bool {
        match self {
            Condition::TimeFrom(t) => row.oob_time_sec >= t,
            Condition::SrcIp(ip) => row.src_ip@ == ip@,
            Condition::DstIp(ip) => row.dst_ip@ == ip@,
            Condition::SrcPort(p) => port_matches(row.tcp_sport, row.udp_sport, p),
            Condition::DstPort(p) => port_matches(row.tcp_dport, row.udp_dport, p),
            Condition::Proto(p) => row.proto == Some(p),
            Condition::Iiface(name) => row.iiface@ == name@,
            Condition::Oiface(name) => row.oiface@ == name@,
            Condition::Verdict(allowed) => contains_ignoring_ascii_case(row.prefix@, verdict_text(allowed)),
        }
    }
}

/// Every condition holds of the row.
pub open spec fn all_hold(conditions: Seq<Condition>, row: log::Model) -> bool {
    forall|i: int| 0 <= i < conditions.len() ==> #[trigger] conditions[i].holds(row)
}

/// The text that the log prefix of allowed, or of dropped, traffic contains.
pub open spec fn verdict_text(allowed: bool) -> Seq<char> {
    if allowed {
        "allow"@
    } else {
        "drop"@
    }
}

/// The text that the log prefix of allowed, or of dropped, traffic contains.
pub fn prefix_pattern(allowed: bool) -> (text: &'static str)
    ensures
        text@ == verdict_text(allowed),
{
    if allowed {
        "allow"
    } else {
        "drop"
    }
}

/// The condition on the source address, where the form sets one.
pub open spec fn src_ip_condition(form: FilterForm) -> Option<Condition> {
    match form.src_ip {
        Some(ip) => Some(Condition::SrcIp(ip)),
        None => None,
    }
}

/// The condition on the destination address, where the form sets one.
pub open spec fn dst_ip_condition(form: FilterForm) -> Option<Condition> {
    match form.dst_ip {
        Some(ip) => Some(Condition::DstIp(ip)),
        None => None,
    }
}

/// The condition on the source port, where the form sets one.
pub open spec fn src_port_condition(form: FilterForm) -> Option<Condition> {
    match form.src_port {
        Some(p) => Some(Condition::SrcPort(p)),
        None => None,
    }
}

/// The condition on the destination port, where the form sets one.
pub open spec fn dst_port_condition(form: FilterForm) -> Option<Condition> {
    match form.dst_port {
        Some(p) => Some(Condition::DstPort(p)),
        None => None,
    }
}

/// The condition on the protocol, where the form sets one: its number read as a `u8`.
pub open spec fn protocol_condition(form: FilterForm) -> Option<Condition> {
    match form.protocol {
        Some(p) => Some(Condition::Proto(p as u8)),
        None => None,
    }
}

/// The condition on the input interface, where the form sets one.
pub open spec fn iiface_condition(form: FilterForm) -> Option<Condition> {
    match form.iiface {
        Some(name) => Some(Condition::Iiface(name)),
        None => None,
    }
}

/// The condition on the output interface, where the form sets one.
pub open spec fn oiface_condition(form: FilterForm) -> Option<Condition> {
    match form.oiface {
        Some(name) => Some(Condition::Oiface(name)),
        None => None,
    }
}

/// The condition on the verdict, where the form sets one.
pub open spec fn verdict_condition(form: FilterForm) -> Option<Condition> {
    match form.allowed {
        Some(a) => Some(Condition::Verdict(a)),
        None => None,
    }
}

proof fn lemma_concat_contains(a: Seq<Condition>, b: Seq<Condition>, c: Condition)
    ensures
        a.contains(c) ==> (a + b).contains(c),
        b.contains(c) ==> (a + b).contains(c),
{
    if a.contains(c) {
        let i = choose|i: int| 0 <= i < a.len() && a[i] == c;
        assert((a + b)[i] == c);
    }
    if b.contains(c) {
        let i = choose|i: int| 0 <= i < b.len() && b[i] == c;
        assert((a + b)[a.len() + i] == c);
    }
}

proof fn lemma_optional_contains(c: Option<Condition>)
    ensures
        c matches Some(x) ==> optional(c).contains(x),
{
    if let Some(x) = c {
        assert(optional(c)[0] == x);
    }
}

proof fn lemma_planned_contains(form: FilterForm, cutoff: u32)
    ensures
        planned_conditions(form, cutoff)[0] == Condition::TimeFrom(cutoff),
        form.src_ip matches Some(ip) ==> planned_conditions(form, cutoff).contains(Condition::SrcIp(ip)),
        form.dst_ip matches Some(ip) ==> planned_conditions(form, cutoff).contains(Condition::DstIp(ip)),
        form.src_port matches Some(p) ==> planned_conditions(form, cutoff).contains(Condition::SrcPort(p)),
        form.dst_port matches Some(p) ==> planned_conditions(form, cutoff).contains(Condition::DstPort(p)),
        form.protocol matches Some(p) ==> planned_conditions(form, cutoff).contains(
            Condition::Proto(p as u8),
        ),
        form.iiface matches Some(name) ==> planned_conditions(form, cutoff).contains(
            Condition::Iiface(name),
        ),
        form.oiface matches Some(name) ==> planned_conditions(form, cutoff).contains(
            Condition::Oiface(name),
        ),
        form.allowed matches Some(a) ==> planned_conditions(form, cutoff).contains(Condition::Verdict(a)),
{
    let p0 = seq![Condition::TimeFrom(cutoff)];
    let p1 = optional(src_ip_condition(form));
    let p2 = optional(dst_ip_condition(form));
    let p3 = optional(src_port_condition(form));
    let p4 = optional(dst_port_condition(form));
    let p5 = optional(protocol_condition(form));
    let p6 = optional(iiface_condition(form));
    let p7 = optional(oiface_condition(form));
    let p8 = optional(verdict_condition(form));
    let q1 = p0 + p1;
    let q2 = q1 + p2;
    let q3 = q2 + p3;
    let q4 = q3 + p4;
    let q5 = q4 + p5;
    let q6 = q5 + p6;
    let q7 = q6 + p7;
    let q8 = q7 + p8;
    assert(q8 == planned_conditions(form, cutoff));
    assert(q8[0] == p0[0]);
    lemma_optional_contains(src_ip_condition(form));
    lemma_optional_contains(dst_ip_condition(form));
    lemma_optional_contains(src_port_condition(form));
    lemma_optional_contains(dst_port_condition(form));
    lemma_optional_contains(protocol_condition(form));
    lemma_optional_contains(iiface_condition(form));
    lemma_optional_contains(oiface_condition(form));
    lemma_optional_contains(verdict_condition(form));
    let conditions = seq![
        src_ip_condition(form),
        dst_ip_condition(form),
        src_port_condition(form),
        dst_port_condition(form),
        protocol_condition(form),
        iiface_condition(form),
        oiface_condition(form),
        verdict_condition(form),
    ];
    assert forall|k: int| 0 <= k < 8 && (#[trigger] conditions[k]) is Some implies q8.contains(conditions[k]->0) by {
        let c = conditions[k]->0;
        if k == 0 { lemma_concat_contains(p0, p1, c); }
        if k == 1 { lemma_concat_contains(q1, p2, c); }
        if k == 2 { lemma_concat_contains(q2, p3, c); }
        if k == 3 { lemma_concat_contains(q3, p4, c); }
        if k == 4 { lemma_concat_contains(q4, p5, c); }
        if k == 5 { lemma_concat_contains(q5, p6, c); }
        if k == 6 { lemma_concat_contains(q6, p7, c); }
        if k <= 0 { lemma_concat_contains(q1, p2, c); }
        if k <= 1 { lemma_concat_contains(q2, p3, c); }
        if k <= 2 { lemma_concat_contains(q3, p4, c); }
        if k <= 3 { lemma_concat_contains(q4, p5, c); }
        if k <= 4 { lemma_concat_contains(q5, p6, c); }
        if k <= 5 { lemma_concat_contains(q6, p7, c); }
        if k <= 6 { lemma_concat_contains(q7, p8, c); }
        if k == 7 { lemma_concat_contains(q7, p8, c); }
    }
    assert(conditions[0] == src_ip_condition(form));
    assert(conditions[1] == dst_ip_condition(form));
    assert(conditions[2] == src_port_condition(form));
    assert(conditions[3] == dst_port_condition(form));
    assert(conditions[4] == protocol_condition(form));
    assert(conditions[5] == iiface_condition(form));
    assert(conditions[6] == oiface_condition(form));
    assert(conditions[7] == verdict_condition(form));
}

/// The condition as a sequence of one, or of none.
pub open spec fn optional(c: Option<Condition>) -> Seq<Condition> {
    match c {
        Some(c) => seq![c],
        None => Seq::empty(),
    }
}

/// The conditions of the base query of `form`: the time window from `cutoff`,
/// then one condition for each filter that the form sets, in the order of the
/// form's fields.
pub open spec fn planned_conditions(form: FilterForm, cutoff: u32) -> Seq<Condition> {
    seq![Condition::TimeFrom(cutoff)] + optional(src_ip_condition(form)) + optional(
        dst_ip_condition(form),
    ) + optional(src_port_condition(form)) + optional(dst_port_condition(form)) + optional(
        protocol_condition(form),
    ) + optional(iiface_condition(form)) + optional(oiface_condition(form)) + optional(
        verdict_condition(form),
    )
}

fn append_optional(r: &mut Vec<Condition>, c: Option<Condition>)
    ensures
        final(r)@ == old(r)@ + optional(c),
{
    match c {
        Some(c) => {
            r.push(c);
        },
        None => {},
    }
    assert(final(r)@ =~= old(r)@ + optional(c));
}

/// The row was logged at or after `cutoff` and meets each filter that the form sets.
pub open spec fn admits(form: FilterForm, cutoff: u32, row: log::Model) -> bool {
    &&& row.oob_time_sec >= cutoff
    &&& form.src_ip matches Some(ip) ==> row.src_ip@ == ip@
    &&& form.dst_ip matches Some(ip) ==> row.dst_ip@ == ip@
    &&& form.src_port matches Some(p) ==> port_matches(row.tcp_sport, row.udp_sport, p)
    &&& form.dst_port matches Some(p) ==> port_matches(row.tcp_dport, row.udp_dport, p)
    &&& form.protocol matches Some(p) ==> row.proto == Some(p as u8)
    &&& form.iiface matches Some(name) ==> row.iiface@ == name@
    &&& form.oiface matches Some(name) ==> row.oiface@ == name@
    &&& form.allowed matches Some(a) ==> contains_ignoring_ascii_case(row.prefix@, verdict_text(a))
}

/// The first second of the window of `time_range` seconds that ends `now_secs`
/// seconds after the epoch, in the 32-bit seconds of the log; a window that
/// reaches back before the epoch starts at 0 and so covers the whole log.
pub fn time_cutoff(now_secs: u64, time_range: u32) -> (cutoff: u32)
    ensures
        cutoff == (if now_secs % 0x1_0000_0000 >= time_range {
            now_secs % 0x1_0000_0000 - time_range
        } else {
            0
        }),
{
    let now = now_secs as u32;
    assert(now == now_secs % 0x1_0000_0000) by (bit_vector)
        requires
            now == now_secs as u32,
    ;
    now.saturating_sub(time_range)
}

/// The width in seconds of the timeline buckets for a window of `time_range` seconds.
pub open spec fn bucket_width(time_range: u32) -> u32 {
    if time_range <= 300 {
        10
    } else if time_range <= 900 {
        30
    } else if time_range <= 3600 {
        60
    } else if time_range <= 21600 {
        300
    } else {
        900
    }
}

/// Where the rows that a live query returns start, and which page of them it returns.
pub struct LiveWindow {
    /// Only rows whose id is above this one are returned.
    pub after_rowid: i64,
    /// The number of rows returned at most, and how many are skipped first.
    pub page: (u64, u64),
}

impl FilterForm {
    /// The conditions of the base query: the rows logged from `cutoff` on
    /// that meet every filter that the form sets.
    pub fn base_conditions(&self, cutoff: u32) -> (r: Vec<Condition>)
        ensures
            r@ == planned_conditions(*self, cutoff),
            r@[0] == Condition::TimeFrom(cutoff),
            self.src_ip matches Some(ip) ==> r@.contains(Condition::SrcIp(ip)),
            self.dst_ip matches Some(ip) ==> r@.contains(Condition::DstIp(ip)),
            self.src_port matches Some(p) ==> r@.contains(Condition::SrcPort(p)),
            self.dst_port matches Some(p) ==> r@.contains(Condition::DstPort(p)),
            self.protocol matches Some(p) ==> r@.contains(Condition::Proto(p as u8)),
            self.iiface matches Some(name) ==> r@.contains(Condition::Iiface(name)),
            self.oiface matches Some(name) ==> r@.contains(Condition::Oiface(name)),
            self.allowed matches Some(a) ==> r@.contains(Condition::Verdict(a)),
            r@.len() == 1 + (self.src_ip is Some) as int + (self.dst_ip is Some) as int
                + (self.src_port is Some) as int + (self.dst_port is Some) as int
                + (self.protocol is Some) as int + (self.iiface is Some) as int
                + (self.oiface is Some) as int + (self.allowed is Some) as int,
    {
        let mut r: Vec<Condition> = Vec::new();
        r.push(Condition::TimeFrom(cutoff));
        assert(r@ =~= seq![Condition::TimeFrom(cutoff)]);
        let c = match &self.src_ip {
            Some(ip) => Some(Condition::SrcIp(ip.clone())),
            None => None,
        };
        assert(c == src_ip_condition(*self));
        append_optional(&mut r, c);
        let c = match &self.dst_ip {
            Some(ip) => Some(Condition::DstIp(ip.clone())),
            None => None,
        };
        assert(c == dst_ip_condition(*self));
        append_optional(&mut r, c);
        let c = match self.src_port {
            Some(p) => Some(Condition::SrcPort(p)),
            None => None,
        };
        assert(c == src_port_condition(*self));
        append_optional(&mut r, c);
        let c = match self.dst_port {
            Some(p) => Some(Condition::DstPort(p)),
            None => None,
        };
        assert(c == dst_port_condition(*self));
        append_optional(&mut r, c);
        let c = match self.protocol {
            Some(p) => Some(Condition::Proto(p as u8)),
            None => None,
        };
        assert(c == protocol_condition(*self));
        append_optional(&mut r, c);
        let c = match &self.iiface {
            Some(name) => Some(Condition::Iiface(name.clone())),
            None => None,
        };
        assert(c == iiface_condition(*self));
        append_optional(&mut r, c);
        let c = match &self.oiface {
            Some(name) => Some(Condition::Oiface(name.clone())),
            None => None,
        };
        assert(c == oiface_condition(*self));
        append_optional(&mut r, c);
        let c = match self.allowed {
            Some(a) => Some(Condition::Verdict(a)),
            None => None,
        };
        assert(c == verdict_condition(*self));
        append_optional(&mut r, c);
        proof {
            lemma_planned_contains(*self, cutoff);
        }
        r
    }

    /// The window of a live query that resumes after the row `cursor`: at
    /// most `limit` rows, starting `offset` rows in.
    pub fn live_window(&self, cursor: i64) -> (w: LiveWindow)
        ensures
            w.after_rowid == cursor,
            w.page == (self.limit as u64, self.offset as u64),
    {
        LiveWindow { after_rowid: cursor, page: (self.limit as u64, self.offset as u64) }
    }
}

/// The id of the last of `rows`, or `cursor` if there is none.
pub open spec fn cursor_after(cursor: i64, rows: Seq<log::Model>) -> i64 {
    if rows.len() == 0 {
        cursor
    } else {
        rows.last().rowid
    }
}

/// The rows are in ascending order of id, each above `after_rowid`, as a live
/// query returns them.
pub open spec fn ascending_after(rows: Seq<log::Model>, after_rowid: i64) -> bool {
    &&& forall|i: int| 0 <= i < rows.len() ==> #[trigger] rows[i].rowid > after_rowid
    &&& forall|i: int, j: int| 0 <= i < j < rows.len() ==> #[trigger] rows[i].rowid < #[trigger] rows[j].rowid
}

/// The cursor after a live query that returned `rows`: the id of the last row,
/// or the cursor as it was if none came back.
pub fn advance_cursor(cursor: i64, rows: &Vec<log::Model>) -> (r: i64)
    ensures
        r == cursor_after(cursor, rows@),
        rows@.len() == 0 ==> r == cursor,
        rows@.len() > 0 ==> r == rows@[rows@.len() - 1].rowid,
{
    if rows.len() == 0 {
        cursor
    } else {
        rows[rows.len() - 1].rowid
    }
}

/// The width in seconds of the timeline buckets for a window of `time_range`
/// seconds: from 10 seconds for five minutes up to 15 minutes beyond six hours.
pub fn timeline_bucket(time_range: u32) -> (w: u32)
    ensures
        w == bucket_width(time_range),
        time_range <= 300 ==> w == 10,
        300 < time_range <= 900 ==> w == 30,
        900 < time_range <= 3600 ==> w == 60,
        3600 < time_range <= 21600 ==> w == 300,
        21600 < time_range ==> w == 900,
{
    if time_range <= 300 {
        10
    } else if time_range <= 900 {
        30
    } else if time_range <= 3600 {
        60
    } else if time_range <= 21600 {
        300
    } else {
        900
    }
}

/// `result` is what a live query in window `w` returns: rows in ascending
/// order of id, each above the window's start, no more than its page holds.
pub open spec fn is_live_page(w: LiveWindow, result: Seq<log::Model>) -> bool {
    &&& ascending_after(result, w.after_rowid)
    &&& result.len() <= w.page.0
}

/// Two successive live queries of a form deliver no row twice: the second,
/// in the window that resumes after the cursor the first left, returns only
/// rows with higher ids than every row of the first, and the cursor never
/// moves back.
pub proof fn law_successive_live_pages_disjoint(
    form: FilterForm,
    cursor: i64,
    first: Seq<log::Model>,
    second: Seq<log::Model>,
)
    requires
        is_live_page(LiveWindow { after_rowid: cursor, page: (form.limit as u64, form.offset as u64) }, first),
        is_live_page(
            LiveWindow {
                after_rowid: cursor_after(cursor, first),
                page: (form.limit as u64, form.offset as u64),
            },
            second,
        ),
    ensures
        cursor_after(cursor, first) >= cursor,
        cursor_after(cursor_after(cursor, first), second) >= cursor_after(cursor, first),
        forall|i: int, j: int|
            0 <= i < first.len() && 0 <= j < second.len() ==> #[trigger] first[i].rowid
                < #[trigger] second[j].rowid,
{
    law_live_rows_not_repeated(cursor, first);
    law_live_rows_not_repeated(cursor_after(cursor, first), second);
    assert forall|i: int, j: int|
        0 <= i < first.len() && 0 <= j < second.len() implies #[trigger] first[i].rowid
        < #[trigger] second[j].rowid by {
        assert(first[i].rowid <= cursor_after(cursor, first));
        assert(second[j].rowid > cursor_after(cursor, first));
    }
}

/// A live feed delivers no row twice: after a live query returns `rows`
/// in its window, the cursor never moves back, and the next window, which
/// starts after the new cursor, excludes every row just delivered.
pub proof fn law_live_rows_not_repeated(cursor: i64, rows: Seq<log::Model>)
    requires
        ascending_after(rows, cursor),
    ensures
        cursor_after(cursor, rows) >= cursor,
        forall|i: int| 0 <= i < rows.len() ==> #[trigger] rows[i].rowid <= cursor_after(cursor, rows),
{
    if rows.len() > 0 {
        assert(rows[rows.len() - 1].rowid > cursor);
        assert forall|i: int| 0 <= i < rows.len() implies #[trigger] rows[i].rowid <= cursor_after(cursor, rows) by {
            if i < rows.len() - 1 {
                assert(rows[i].rowid < rows[rows.len() - 1].rowid);
            }
        }
    }
}

proof fn lemma_all_hold_concat(a: Seq<Condition>, b: Seq<Condition>, row: log::Model)
    ensures
        all_hold(a + b, row) <==> (all_hold(a, row) && all_hold(b, row)),
{
    if all_hold(a + b, row) {
        assert forall|i: int| 0 <= i < a.len() implies #[trigger] a[i].holds(row) by {
            assert((a + b)[i] == a[i]);
        }
        assert forall|i: int| 0 <= i < b.len() implies #[trigger] b[i].holds(row) by {
            assert((a + b)[a.len() + i] == b[i]);
        }
    }
    if all_hold(a, row) && all_hold(b, row) {
        assert forall|i: int| 0 <= i < (a + b).len() implies #[trigger] (a + b)[i].holds(row) by {
            if i < a.len() {
                assert((a + b)[i] == a[i]);
            } else {
                assert((a + b)[i] == b[i - a.len()]);
            }
        }
    }
}

proof fn lemma_all_hold_optional(c: Option<Condition>, row: log::Model)
    ensures
        all_hold(optional(c), row) <==> (c matches Some(x) ==> x.holds(row)),
{
    if let Some(x) = c {
        assert(optional(c)[0] == x);
    }
}

/// A row meets every condition of the base query of a form exactly where it
/// was logged from `cutoff` on and meets every filter that the form sets.
pub proof fn law_conditions_mean_filters(form: FilterForm, cutoff: u32, row: log::Model)
    ensures
        all_hold(planned_conditions(form, cutoff), row) <==> admits(form, cutoff, row),
{
    let p0 = seq![Condition::TimeFrom(cutoff)];
    let p1 = optional(src_ip_condition(form));
    let p2 = optional(dst_ip_condition(form));
    let p3 = optional(src_port_condition(form));
    let p4 = optional(dst_port_condition(form));
    let p5 = optional(protocol_condition(form));
    let p6 = optional(iiface_condition(form));
    let p7 = optional(oiface_condition(form));
    let p8 = optional(verdict_condition(form));
    lemma_all_hold_concat(p0, p1, row);
    lemma_all_hold_concat(p0 + p1, p2, row);
    lemma_all_hold_concat(p0 + p1 + p2, p3, row);
    lemma_all_hold_concat(p0 + p1 + p2 + p3, p4, row);
    lemma_all_hold_concat(p0 + p1 + p2 + p3 + p4, p5, row);
    lemma_all_hold_concat(p0 + p1 + p2 + p3 + p4 + p5, p6, row);
    lemma_all_hold_concat(p0 + p1 + p2 + p3 + p4 + p5 + p6, p7, row);
    lemma_all_hold_concat(p0 + p1 + p2 + p3 + p4 + p5 + p6 + p7, p8, row);
    assert(p0 =~= optional(Some(Condition::TimeFrom(cutoff))));
    lemma_all_hold_optional(Some(Condition::TimeFrom(cutoff)), row);
    lemma_all_hold_optional(src_ip_condition(form), row);
    lemma_all_hold_optional(dst_ip_condition(form), row);
    lemma_all_hold_optional(src_port_condition(form), row);
    lemma_all_hold_optional(dst_port_condition(form), row);
    lemma_all_hold_optional(protocol_condition(form), row);
    lemma_all_hold_optional(iiface_condition(form), row);
    lemma_all_hold_optional(oiface_condition(form), row);
    lemma_all_hold_optional(verdict_condition(form), row);
}

/// A form that sets no filter admits every row of its time window.
pub proof fn law_unfiltered_form_admits_window(form: FilterForm, cutoff: u32, row: log::Model)
    requires
        form.src_ip is None,
        form.dst_ip is None,
        form.src_port is None,
        form.dst_port is None,
        form.protocol is None,
        form.iiface is None,
        form.oiface is None,
        form.allowed is None,
    ensures
        admits(form, cutoff, row) <==> row.oob_time_sec >= cutoff,
{
}

/// The start of the timeline bucket of `width` seconds that holds the second
/// `time`, as the timeline query computes it: `(time / width) * width`.
pub open spec fn bucket_start(time: u32, width: u32) -> int {
    (time / width) * width
}

/// Each row falls into exactly one timeline bucket: the bucket that holds a
/// second starts at a multiple of the width, at or before it, and ends after it.
pub proof fn law_bucket_holds_its_second(time: u32, time_range: u32)
    ensures
        bucket_start(time, bucket_width(time_range)) % (bucket_width(time_range) as int) == 0,
        bucket_start(time, bucket_width(time_range)) <= time < bucket_start(time, bucket_width(time_range))
            + bucket_width(time_range),
{
    let w = bucket_width(time_range);
    assert(w > 0);
    assert(((time / w) * w) % (w as int) == 0) by (nonlinear_arith)
        requires
            w > 0,
    ;
    assert((time / w) * w <= time < (time / w) * w + w) by (nonlinear_arith)
        requires
            w > 0,
    ;
}

/// The timeline query: it groups the rows by the start of their bucket of
/// `width` seconds, which `bucket_expression` computes in SQL, counts the rows
/// of each bucket, and orders the buckets by time. `is_timeline` says what it
/// returns.
pub struct TimelinePlan {
    /// The width of the buckets in seconds.
    pub width: u32,
    /// The SQL expression of a row's bucket start: `(oob_time_sec / width) * width`.
    pub bucket_expression: String,
    /// The earliest bucket comes first.
    pub ascending: bool,
}

/// The text of the SQL expression of the start of a row's bucket of `width` seconds.
pub open spec fn bucket_expression_text(width: u32) -> Seq<char> {
    "(oob_time_sec / "@ + decimal(width as nat) + ") * "@ + decimal(width as nat)
}

/// The timeline query for a window of `time_range` seconds.
pub fn timeline_plan(time_range: u32) -> (p: TimelinePlan)
    ensures
        p.width == bucket_width(time_range),
        p.bucket_expression@ == bucket_expression_text(p.width),
        p.bucket_expression@ == "(oob_time_sec / "@ + decimal(p.width as nat) + ") * "@ + decimal(
            p.width as nat,
        ),
        p.ascending,
{
    let width = timeline_bucket(time_range);
    let digits = decimal_text(width as u64);
    let mut expression = String::from_str("(oob_time_sec / ");
    expression.append(digits.as_str());
    expression.append(") * ");
    expression.append(digits.as_str());
    TimelinePlan { width, bucket_expression: expression, ascending: true }
}

/// The bucket expression divides and multiplies by the same number, the width
/// itself: written in decimal digits that read back as the width.
pub proof fn law_bucket_expression_uses_width(width: u32)
    ensures
        exists|digits: Seq<char>|
            #![trigger digits_value(digits)]
            bucket_expression_text(width) == "(oob_time_sec / "@ + digits + ") * "@ + digits
                && digits_value(digits) == width && digits.len() >= 1 && forall|i: int|
                0 <= i < digits.len() ==> '0' <= #[trigger] digits[i] <= '9',
{
    law_decimal_reads_back(width as nat);
    let digits = decimal(width as nat);
    assert(digits_value(digits) == width);
}

/// The number of rows whose bucket of `width` seconds starts at `start`.
pub open spec fn bucket_count(rows: Seq<log::Model>, width: u32, start: int) -> int
    decreases rows.len(),
{
    if rows.len() == 0 {
        0
    } else {
        bucket_count(rows.drop_last(), width, start) + if bucket_start(
            rows.last().oob_time_sec,
            width,
        ) == start {
            1int
        } else {
            0int
        }
    }
}

/// `result` is what the timeline query of `plan` returns on `rows`: one
/// bucket for each bucket start that some row has, with the number of rows
/// that start there, in order of time (earliest first where the plan is
/// ascending).
pub open spec fn is_timeline(plan: TimelinePlan, rows: Seq<log::Model>, result: Seq<Bucket>) -> bool {
    &&& forall|i: int, j: int|
        0 <= i < j < result.len() ==> if plan.ascending {
            #[trigger] result[i].time < #[trigger] result[j].time
        } else {
            result[i].time > result[j].time
        }
    &&& forall|i: int|
        0 <= i < result.len() ==> {
            &&& exists|r: int|
                0 <= r < rows.len() && bucket_start(#[trigger] rows[r].oob_time_sec, plan.width)
                    == result[i].time
            &&& #[trigger] result[i].packets == bucket_count(rows, plan.width, result[i].time as int)
        }
    &&& forall|r: int|
        0 <= r < rows.len() ==> exists|i: int|
            0 <= i < result.len() && #[trigger] result[i].time == bucket_start(
                #[trigger] rows[r].oob_time_sec,
                plan.width,
            )
}

/// The timeline of a window has its buckets in strictly ascending time, each
/// starting at a multiple of the window's bucket width, and every row falls
/// into one of them.
pub proof fn law_timeline_ordered_and_aligned(
    time_range: u32,
    plan: TimelinePlan,
    rows: Seq<log::Model>,
    result: Seq<Bucket>,
)
    requires
        plan.width == bucket_width(time_range),
        plan.ascending,
        is_timeline(plan, rows, result),
    ensures
        forall|i: int, j: int|
            0 <= i < j < result.len() ==> #[trigger] result[i].time < #[trigger] result[j].time,
        forall|i: int|
            0 <= i < result.len() ==> #[trigger] result[i].time % plan.width == 0,
        forall|r: int|
            #![trigger rows[r]]
            0 <= r < rows.len() ==> exists|i: int|
                0 <= i < result.len() && #[trigger] result[i].time <= rows[r].oob_time_sec
                    < result[i].time + plan.width,
{
    assert forall|i: int| 0 <= i < result.len() implies #[trigger] result[i].time % plan.width == 0 by {
        assert(result[i].packets == bucket_count(rows, plan.width, result[i].time as int));
        let r = choose|r: int|
            0 <= r < rows.len() && bucket_start(#[trigger] rows[r].oob_time_sec, plan.width)
                == result[i].time;
        law_bucket_holds_its_second(rows[r].oob_time_sec, time_range);
    }
    assert forall|r: int| #![trigger rows[r]] 0 <= r < rows.len() implies exists|i: int|
        0 <= i < result.len() && #[trigger] result[i].time <= rows[r].oob_time_sec
            < result[i].time + plan.width by {
        law_bucket_holds_its_second(rows[r].oob_time_sec, time_range);
        let i = choose|i: int|
            0 <= i < result.len() && #[trigger] result[i].time == bucket_start(
                rows[r].oob_time_sec,
                plan.width,
            );
        assert(0 <= i < result.len() && result[i].time <= rows[r].oob_time_sec < result[i].time + plan.width);
    }
}

/// A longer time window never has narrower timeline buckets.
pub proof fn law_bucket_width_monotone(shorter: u32, longer: u32)
    requires
        shorter <= longer,
    ensures
        bucket_width(shorter) <= bucket_width(longer),
{
}

/// A ranking of the heaviest traffic: by source address, by destination
/// address or by destination port.
#[derive(Clone, Copy, Debug, PartialEq, Eq, Structural)]
pub enum TopKind {
    SrcIp,
    DstIp,
    DstPort,
}

/// What the rows of a ranking are grouped by.
#[derive(Clone, Copy, Debug, PartialEq, Eq, Structural)]
pub enum TopKey {
    /// The source address.
    SrcIp,
    /// The destination address.
    DstIp,
    /// The TCP destination port, or else the UDP one, as decimal text.
    DstPortText,
}

/// The measure by which the groups of a ranking are ordered.
#[derive(Clone, Copy, Debug, PartialEq, Eq, Structural)]
pub enum RankBy {
    /// The number of rows in the group.
    Packets,
    /// The sum of the lengths of the rows in the group.
    Bytes,
}

/// The ranking query of one kind: it groups the rows by `key`, counts each
/// group's rows and sums their lengths, orders the groups by `rank_by` and
/// keeps the first `limit`. `is_ranking` says what it returns.
#[derive(Clone, Copy, Debug, PartialEq, Eq, Structural)]
pub struct TopPlan {
    /// What the rows are grouped by.
    pub key: TopKey,
    /// Each key is reported with the protocol of one of its rows.
    pub with_proto: bool,
    /// Only rows that have a TCP or a UDP destination port count.
    pub port_required: bool,
    /// What the groups are ordered by.
    pub rank_by: RankBy,
    /// The largest groups come first.
    pub descending: bool,
    /// How many groups are kept.
    pub limit: u64,
}

/// The ranking query of `kind`: the ten keys with the most bytes, most first;
/// ports, keyed by the TCP or else the UDP destination port, are reported with
/// a protocol, and only rows that have a port count for them.
pub open spec fn planned_top(kind: TopKind) -> TopPlan {
    TopPlan {
        key: match kind {
            TopKind::SrcIp => TopKey::SrcIp,
            TopKind::DstIp => TopKey::DstIp,
            TopKind::DstPort => TopKey::DstPortText,
        },
        with_proto: kind == TopKind::DstPort,
        port_required: kind == TopKind::DstPort,
        rank_by: RankBy::Bytes,
        descending: true,
        limit: 10,
    }
}

/// The ranking query of `kind`.
pub fn top_plan(kind: TopKind) -> (p: TopPlan)
    ensures
        p == planned_top(kind),
        kind == TopKind::SrcIp ==> p.key == TopKey::SrcIp,
        kind == TopKind::DstIp ==> p.key == TopKey::DstIp,
        kind == TopKind::DstPort ==> p.key == TopKey::DstPortText,
        p.with_proto <==> kind == TopKind::DstPort,
        p.port_required <==> kind == TopKind::DstPort,
        p.rank_by == RankBy::Bytes,
        p.descending,
        p.limit == 10,
{
    match kind {
        TopKind::SrcIp => TopPlan {
            key: TopKey::SrcIp,
            with_proto: false,
            port_required: false,
            rank_by: RankBy::Bytes,
            descending: true,
            limit: 10,
        },
        TopKind::DstIp => TopPlan {
            key: TopKey::DstIp,
            with_proto: false,
            port_required: false,
            rank_by: RankBy::Bytes,
            descending: true,
            limit: 10,
        },
        TopKind::DstPort => TopPlan {
            key: TopKey::DstPortText,
            with_proto: true,
            port_required: true,
            rank_by: RankBy::Bytes,
            descending: true,
            limit: 10,
        },
    }
}

/// The destination port of a row: the TCP one, or else the UDP one.
pub open spec fn destination_port(row: log::Model) -> Option<u16> {
    match row.tcp_dport {
        Some(p) => Some(p),
        None => row.udp_dport,
    }
}

/// The key of a row under a plan, if the row counts for it.
pub open spec fn key_of(plan: TopPlan, row: log::Model) -> Option<Seq<char>> {
    if plan.port_required && destination_port(row) is None {
        None
    } else {
        match plan.key {
            TopKey::SrcIp => Some(row.src_ip@),
            TopKey::DstIp => Some(row.dst_ip@),
            TopKey::DstPortText => match destination_port(row) {
                Some(p) => Some(decimal(p as nat)),
                None => None,
            },
        }
    }
}

/// The number of rows whose key under the plan is `key`.
pub open spec fn group_count(plan: TopPlan, rows: Seq<log::Model>, key: Seq<char>) -> int
    decreases rows.len(),
{
    if rows.len() == 0 {
        0
    } else {
        group_count(plan, rows.drop_last(), key) + if key_of(plan, rows.last()) == Some(key) {
            1int
        } else {
            0int
        }
    }
}

/// The sum of the lengths of the rows whose key under the plan is `key`.
pub open spec fn group_bytes(plan: TopPlan, rows: Seq<log::Model>, key: Seq<char>) -> int
    decreases rows.len(),
{
    if rows.len() == 0 {
        0
    } else {
        group_bytes(plan, rows.drop_last(), key) + if key_of(plan, rows.last()) == Some(key) {
            rows.last().length as int
        } else {
            0int
        }
    }
}

/// The measure that the plan orders the group of `key` by.
pub open spec fn group_measure(plan: TopPlan, rows: Seq<log::Model>, key: Seq<char>) -> int {
    match plan.rank_by {
        RankBy::Packets => group_count(plan, rows, key),
        RankBy::Bytes => group_bytes(plan, rows, key),
    }
}

/// `a` comes no later than `b` in the plan's order.
pub open spec fn ranks_before(plan: TopPlan, a: int, b: int) -> bool {
    if plan.descending {
        a >= b
    } else {
        a <= b
    }
}

/// `result` is what the ranking query of `plan` returns on `rows`: distinct
/// keys of the rows, each with the count and byte sum of its group (and, where
/// the plan asks, the protocol of one of its rows), in the plan's order, at most
/// `limit` of them, and no group left out that ranks before one kept.
pub open spec fn is_ranking(plan: TopPlan, rows: Seq<log::Model>, result: Seq<Top>) -> bool {
    &&& result.len() <= plan.limit
    &&& forall|i: int, j: int|
        0 <= i < j < result.len() ==> #[trigger] result[i].key@ != #[trigger] result[j].key@
    &&& forall|i: int|
        0 <= i < result.len() ==> {
            &&& group_count(plan, rows, #[trigger] result[i].key@) > 0
            &&& result[i].count == group_count(plan, rows, result[i].key@)
            &&& result[i].bytes == group_bytes(plan, rows, result[i].key@)
            &&& if plan.with_proto {
                exists|r: int|
                    0 <= r < rows.len() && key_of(plan, #[trigger] rows[r]) == Some(result[i].key@)
                        && rows[r].proto == result[i].proto
            } else {
                result[i].proto is None
            }
        }
    &&& forall|i: int, j: int|
        0 <= i < j < result.len() ==> ranks_before(
            plan,
            group_measure(plan, rows, #[trigger] result[i].key@),
            group_measure(plan, rows, #[trigger] result[j].key@),
        )
    &&& forall|key: Seq<char>|
        #![trigger group_count(plan, rows, key)]
        group_count(plan, rows, key) > 0 && (forall|i: int|
            0 <= i < result.len() ==> #[trigger] result[i].key@ != key) ==> {
            &&& result.len() == plan.limit
            &&& forall|i: int|
                0 <= i < result.len() ==> ranks_before(
                    plan,
                    group_measure(plan, rows, #[trigger] result[i].key@),
                    group_measure(plan, rows, key),
                )
        }
}

/// A ranking keeps the keys with the most bytes, most first: a kept key has
/// at least as many bytes as any key left out, and as any key after it.
pub proof fn law_top_ranks_by_bytes(kind: TopKind, rows: Seq<log::Model>, result: Seq<Top>)
    requires
        is_ranking(planned_top(kind), rows, result),
    ensures
        result.len() <= 10,
        forall|i: int, j: int|
            0 <= i < j < result.len() ==> #[trigger] result[i].bytes >= #[trigger] result[j].bytes,
        forall|i: int, key: Seq<char>|
            #![trigger result[i].bytes, group_bytes(planned_top(kind), rows, key)]
            0 <= i < result.len() && group_count(planned_top(kind), rows, key) > 0 && (forall|j: int|
                0 <= j < result.len() ==> #[trigger] result[j].key@ != key) ==> result[i].bytes
                >= group_bytes(planned_top(kind), rows, key),
{
    let plan = planned_top(kind);
    assert forall|i: int, j: int|
        0 <= i < j < result.len() implies #[trigger] result[i].bytes >= #[trigger] result[j].bytes by {
        assert(ranks_before(
            plan,
            group_measure(plan, rows, result[i].key@),
            group_measure(plan, rows, result[j].key@),
        ));
    }
    assert forall|i: int, key: Seq<char>|
        #![trigger result[i].bytes, group_bytes(plan, rows, key)]
        0 <= i < result.len() && group_count(plan, rows, key) > 0 && (forall|j: int|
            0 <= j < result.len() ==> #[trigger] result[j].key@ != key) implies result[i].bytes
        >= group_bytes(plan, rows, key) by {
        assert(ranks_before(
            plan,
            group_measure(plan, rows, result[i].key@),
            group_measure(plan, rows, key),
        ));
    }
}

/// An address column of the log.
#[derive(Clone, Copy, Debug, PartialEq, Eq, Structural)]
pub enum Address {
    Source,
    Destination,
}

/// The column whose distinct values a summary counts for `kind`: the source
/// or the destination address. Ports are not counted.
pub fn distinct_address(kind: TopKind) -> (a: Address)
    requires
        kind != TopKind::DstPort,
    ensures
        a == (if kind == TopKind::SrcIp {
            Address::Source
        } else {
            Address::Destination
        }),
{
    match kind {
        TopKind::SrcIp => Address::Source,
        _ => Address::Destination,
    }
}

/// The totals of a summary: the packets and bytes of the count query and the
/// numbers of distinct source and destination addresses, each read as a `u32`.
/// The byte sum of an empty selection is absent, and counts as 0 bytes.
pub fn summary_totals(count: (i64, Option<i64>), sources: u64, destinations: u64) -> (t: Totals)
    ensures
        t == (Totals {
            packets: count.0 as u32,
            bytes: match count.1 {
                Some(b) => b as u32,
                None => 0,
            },
            src: sources as u32,
            dst: destinations as u32,
        }),
{
    let bytes: u32 = match count.1 {
        Some(b) => b as u32,
        None => 0,
    };
    Totals::new(count.0 as u32, bytes, sources as u32, destinations as u32)
}

/// One row of the per-interface traffic query: the packets and bytes seen
/// between an input and an output interface.
pub struct InterfaceTraffic {
    pub iiface: Option<String>,
    pub oiface: Option<String>,
    pub packets: i64,
    pub bytes: i64,
}

/// `iface` is the interface called `name`, a name that is not empty.
pub open spec fn names_interface(iface: Option<String>, name: Seq<char>) -> bool {
    &&& name.len() > 0
    &&& iface matches Some(n)
    &&& n@ == name
}

/// The interface on the chosen side of a row: the output one when `outbound`.
pub open spec fn side(row: InterfaceTraffic, outbound: bool) -> Option<String> {
    if outbound {
        row.oiface
    } else {
        row.iiface
    }
}

/// The amount that a row counts: its bytes when `in_bytes`, else its packets,
/// each read as a `u32`.
pub open spec fn amount(row: InterfaceTraffic, in_bytes: bool) -> int {
    if in_bytes {
        (row.bytes as u32) as int
    } else {
        (row.packets as u32) as int
    }
}

/// The total amount of the rows whose interface on the given side is `name`.
pub open spec fn traffic_total(
    rows: Seq<InterfaceTraffic>,
    name: Seq<char>,
    outbound: bool,
    in_bytes: bool,
) -> int
    decreases rows.len(),
{
    if rows.len() == 0 {
        0
    } else {
        traffic_total(rows.drop_last(), name, outbound, in_bytes) + if names_interface(
            side(rows.last(), outbound),
            name,
        ) {
            amount(rows.last(), in_bytes)
        } else {
            0
        }
    }
}

/// Some row names the interface `name` on either side.
pub open spec fn interface_seen(rows: Seq<InterfaceTraffic>, name: Seq<char>) -> bool {
    exists|i: int|
        0 <= i < rows.len() && (names_interface(#[trigger] rows[i].iiface, name)
            || names_interface(rows[i].oiface, name))
}

/// Every per-interface total fits in a `u32`.
pub open spec fn totals_fit(rows: Seq<InterfaceTraffic>) -> bool {
    forall|name: Seq<char>, outbound: bool, in_bytes: bool|
        #[trigger] traffic_total(rows, name, outbound, in_bytes) <= u32::MAX
}

/// The traffic recorded for `name` in `m`, or none if it has no entry.
pub open spec fn recorded(m: Map<Seq<char>, Interface>, name: Seq<char>) -> Interface {
    if m.contains_key(name) {
        m[name]
    } else {
        Interface { packets_in: 0, packets_out: 0, bytes_in: 0, bytes_out: 0 }
    }
}

/// The field of `i` that counts the given side and measure.
pub open spec fn field(i: Interface, outbound: bool, in_bytes: bool) -> u32 {
    if outbound {
        if in_bytes {
            i.bytes_out
        } else {
            i.packets_out
        }
    } else {
        if in_bytes {
            i.bytes_in
        } else {
            i.packets_in
        }
    }
}

proof fn lemma_traffic_prefix_le(
    rows: Seq<InterfaceTraffic>,
    j: int,
    name: Seq<char>,
    outbound: bool,
    in_bytes: bool,
)
    requires
        0 <= j <= rows.len(),
    ensures
        traffic_total(rows.take(j), name, outbound, in_bytes) <= traffic_total(
            rows,
            name,
            outbound,
            in_bytes,
        ),
    decreases rows.len(),
{
    if j == rows.len() {
        assert(rows.take(j) =~= rows);
    } else {
        assert(rows.drop_last().take(j) =~= rows.take(j));
        lemma_traffic_prefix_le(rows.drop_last(), j, name, outbound, in_bytes);
    }
}

proof fn lemma_step(rows: Seq<InterfaceTraffic>, k: int)
    requires
        0 <= k < rows.len(),
    ensures
        forall|name: Seq<char>, outbound: bool, in_bytes: bool|
            #[trigger] traffic_total(rows.take(k + 1), name, outbound, in_bytes)
                == traffic_total(rows.take(k), name, outbound, in_bytes) + if names_interface(
                side(rows[k], outbound),
                name,
            ) {
                amount(rows[k], in_bytes)
            } else {
                0
            },
        forall|name: Seq<char>|
            #[trigger] interface_seen(rows.take(k + 1), name) <==> (interface_seen(
                rows.take(k),
                name,
            ) || names_interface(rows[k].iiface, name) || names_interface(rows[k].oiface, name)),
{
    let t = rows.take(k + 1);
    assert(t.drop_last() =~= rows.take(k));
    assert(t.last() == rows[k]);
    assert forall|name: Seq<char>|
        #[trigger] interface_seen(t, name) <==> (interface_seen(rows.take(k), name)
            || names_interface(rows[k].iiface, name) || names_interface(rows[k].oiface, name)) by {
        if interface_seen(t, name) {
            let i = choose|i: int|
                0 <= i < t.len() && (names_interface(#[trigger] t[i].iiface, name)
                    || names_interface(t[i].oiface, name));
            if i < k {
                assert(rows.take(k)[i] == t[i]);
            }
        }
        if interface_seen(rows.take(k), name) {
            let i = choose|i: int|
                0 <= i < k && (names_interface(#[trigger] rows.take(k)[i].iiface, name)
                    || names_interface(rows.take(k)[i].oiface, name));
            assert(t[i] == rows.take(k)[i]);
        }
        if names_interface(rows[k].iiface, name) || names_interface(rows[k].oiface, name) {
            assert(t[k] == rows[k]);
        }
    }
}

/// Adds one row's traffic on one side to the entry of `name`, creating the
/// entry if needed; fails, leaving `m` as it was, where a total would overflow.
fn add_traffic(m: &mut NamedMap<Interface>, name: &String, outbound: bool, packets: u32, bytes: u32) -> (ok: bool)
    ensures
        ok <==> (field(recorded(old(m)@, name@), outbound, false) + packets <= u32::MAX && field(
            recorded(old(m)@, name@),
            outbound,
            true,
        ) + bytes <= u32::MAX),
        ok ==> final(m)@ == old(m)@.insert(
            name@,
            if outbound {
                Interface {
                    packets_out: (recorded(old(m)@, name@).packets_out + packets) as u32,
                    bytes_out: (recorded(old(m)@, name@).bytes_out + bytes) as u32,
                    ..recorded(old(m)@, name@)
                }
            } else {
                Interface {
                    packets_in: (recorded(old(m)@, name@).packets_in + packets) as u32,
                    bytes_in: (recorded(old(m)@, name@).bytes_in + bytes) as u32,
                    ..recorded(old(m)@, name@)
                }
            },
        ),
        !ok ==> final(m)@ == old(m)@,
{
    let mut e = match m.get(name) {
        Some(e) => e,
        None => Interface::default(),
    };
    if outbound {
        if e.packets_out.checked_add(packets).is_none() || e.bytes_out.checked_add(bytes).is_none() {
            return false;
        }
        e.update_outputs((packets, bytes));
    } else {
        if e.packets_in.checked_add(packets).is_none() || e.bytes_in.checked_add(bytes).is_none() {
            return false;
        }
        e.update_inputs((packets, bytes));
    }
    m.insert(name.clone(), e);
    true
}

/// Sums the traffic of each interface over the rows: for each interface named
/// by some row, the packets and bytes of the rows that entered and left
/// through it. Fails where a total does not fit in a `u32`.
pub fn tally_interfaces(rows: &Vec<InterfaceTraffic>) -> (r: Option<NamedMap<Interface>>)
    ensures
        r is Some <==> totals_fit(rows@),
        r matches Some(m) ==> {
            &&& forall|name: Seq<char>| #[trigger]
                m@.contains_key(name) <==> interface_seen(rows@, name)
            &&& forall|i: int|
                0 <= i < rows@.len() && #[trigger] rows@[i].iiface == Some(rows@[i].iiface->0)
                    && rows@[i].iiface->0@.len() > 0 ==> m@.contains_key(rows@[i].iiface->0@)
            &&& forall|i: int|
                0 <= i < rows@.len() && #[trigger] rows@[i].oiface == Some(rows@[i].oiface->0)
                    && rows@[i].oiface->0@.len() > 0 ==> m@.contains_key(rows@[i].oiface->0@)
            &&& forall|name: Seq<char>| #[trigger]
                m@.contains_key(name) ==> {
                    &&& m@[name].packets_in == traffic_total(rows@, name, false, false)
                    &&& m@[name].bytes_in == traffic_total(rows@, name, false, true)
                    &&& m@[name].packets_out == traffic_total(rows@, name, true, false)
                    &&& m@[name].bytes_out == traffic_total(rows@, name, true, true)
                }
        },
{
    let mut m: NamedMap<Interface> = NamedMap::new();
    let mut k: usize = 0;
    proof {
        assert forall|name: Seq<char>| !#[trigger] interface_seen(rows@.take(0), name) by {}
    }
    while k < rows.len()
        invariant
            k <= rows@.len(),
            forall|name: Seq<char>| #[trigger]
                m@.contains_key(name) <==> interface_seen(rows@.take(k as int), name),
            forall|name: Seq<char>, outbound: bool, in_bytes: bool|
                #[trigger] field(recorded(m@, name), outbound, in_bytes) == traffic_total(
                    rows@.take(k as int),
                    name,
                    outbound,
                    in_bytes,
                ),
        decreases rows@.len() - k,
    {
        let ghost before = m@;
        let row = &rows[k];
        let packets = row.packets as u32;
        let bytes = row.bytes as u32;
        proof {
            lemma_step(rows@, k as int);
        }
        if let Some(name) = &row.iiface {
            if !name.as_str().is_empty() {
                if !add_traffic(&mut m, name, false, packets, bytes) {
                    proof {
                        let in_bytes = field(recorded(before, name@), false, false) + packets <= u32::MAX;
                        assert(field(recorded(before, name@), false, in_bytes) == traffic_total(rows@.take(k as int), name@, false, in_bytes));
                        assert(traffic_total(rows@.take(k + 1), name@, false, in_bytes) > u32::MAX);
                        lemma_traffic_prefix_le(rows@, k + 1, name@, false, in_bytes);
                    }
                    return None;
                }
            }
        }
        let ghost middle = m@;
        if let Some(name) = &row.oiface {
            if !name.as_str().is_empty() {
                if !add_traffic(&mut m, name, true, packets, bytes) {
                    proof {
                        assert(recorded(middle, name@).packets_out == recorded(before, name@).packets_out);
                        assert(recorded(middle, name@).bytes_out == recorded(before, name@).bytes_out);
                        let in_bytes = field(recorded(middle, name@), true, false) + packets <= u32::MAX;
                        assert(field(recorded(before, name@), true, in_bytes) == traffic_total(rows@.take(k as int), name@, true, in_bytes));
                        assert(traffic_total(rows@.take(k + 1), name@, true, in_bytes) > u32::MAX);
                        lemma_traffic_prefix_le(rows@, k + 1, name@, true, in_bytes);
                    }
                    return None;
                }
            }
        }
        proof {
            assert forall|name: Seq<char>, outbound: bool, in_bytes: bool|
                #[trigger] field(recorded(m@, name), outbound, in_bytes) == traffic_total(
                    rows@.take(k + 1),
                    name,
                    outbound,
                    in_bytes,
                ) by {
                assert(field(recorded(before, name), outbound, in_bytes) == traffic_total(
                    rows@.take(k as int),
                    name,
                    outbound,
                    in_bytes,
                ));
                assert(traffic_total(rows@.take(k + 1), name, outbound, in_bytes) == traffic_total(
                    rows@.take(k as int),
                    name,
                    outbound,
                    in_bytes,
                ) + if names_interface(side(rows@[k as int], outbound), name) {
                    amount(rows@[k as int], in_bytes)
                } else {
                    0
                });
            }
            assert forall|name: Seq<char>| #[trigger]
                m@.contains_key(name) <==> interface_seen(rows@.take(k + 1), name) by {
                assert(before.contains_key(name) <==> interface_seen(rows@.take(k as int), name));
                assert(interface_seen(rows@.take(k + 1), name) <==> (interface_seen(
                    rows@.take(k as int),
                    name,
                ) || names_interface(rows@[k as int].iiface, name) || names_interface(rows@[k as int].oiface, name)));
            }
        }
        k = k + 1;
    }
    proof {
        assert(rows@.take(rows@.len() as int) =~= rows@);
        assert forall|name: Seq<char>, outbound: bool, in_bytes: bool|
            #[trigger] traffic_total(rows@, name, outbound, in_bytes) <= u32::MAX by {
            assert(field(recorded(m@, name), outbound, in_bytes) == traffic_total(rows@, name, outbound, in_bytes));
        }
        assert forall|i: int|
            0 <= i < rows@.len() && #[trigger] rows@[i].iiface == Some(rows@[i].iiface->0)
                && rows@[i].iiface->0@.len() > 0 implies m@.contains_key(rows@[i].iiface->0@) by {
            law_named_interfaces_seen(rows@, rows@[i].iiface->0@);
        }
        assert forall|i: int|
            0 <= i < rows@.len() && #[trigger] rows@[i].oiface == Some(rows@[i].oiface->0)
                && rows@[i].oiface->0@.len() > 0 implies m@.contains_key(rows@[i].oiface->0@) by {
            law_named_interfaces_seen(rows@, rows@[i].oiface->0@);
            let _witness = rows@[i].iiface;
        }
        assert forall|name: Seq<char>| #[trigger] m@.contains_key(name) implies {
            &&& m@[name].packets_in == traffic_total(rows@, name, false, false)
            &&& m@[name].bytes_in == traffic_total(rows@, name, false, true)
            &&& m@[name].packets_out == traffic_total(rows@, name, true, false)
            &&& m@[name].bytes_out == traffic_total(rows@, name, true, true)
        } by {
            assert(field(recorded(m@, name), false, false) == traffic_total(rows@, name, false, false));
            assert(field(recorded(m@, name), false, true) == traffic_total(rows@, name, false, true));
            assert(field(recorded(m@, name), true, false) == traffic_total(rows@, name, true, false));
            assert(field(recorded(m@, name), true, true) == traffic_total(rows@, name, true, true));
        }
    }
    Some(m)
}

/// The counts of the rows, each read as a `u32`, by name; where a name occurs
/// in several rows the last one counts.
pub open spec fn counts_of(rows: Seq<(String, i64)>) -> Map<Seq<char>, u32>
    decreases rows.len(),
{
    if rows.len() == 0 {
        Map::empty()
    } else {
        counts_of(rows.drop_last()).insert(rows.last().0@, rows.last().1 as u32)
    }
}

/// The distribution of a grouped count query: each name with its count.
pub fn distribution(rows: &Vec<(String, i64)>) -> (m: NamedMap<u32>)
    ensures
        m@ == counts_of(rows@),
        forall|i: int| 0 <= i < rows@.len() ==> m@.contains_key(#[trigger] rows@[i].0@),
        forall|name: Seq<char>|
            #[trigger] m@.contains_key(name) ==> exists|i: int|
                0 <= i < rows@.len() && #[trigger] rows@[i].0@ == name,
        forall|i: int|
            0 <= i < rows@.len() && (forall|j: int|
                i < j < rows@.len() ==> #[trigger] rows@[j].0@ != rows@[i].0@) ==> m@[rows@[i].0@]
                == #[trigger] rows@[i].1 as u32,
{
    let mut m: NamedMap<u32> = NamedMap::new();
    let mut k: usize = 0;
    while k < rows.len()
        invariant
            k <= rows@.len(),
            m@ == counts_of(rows@.take(k as int)),
        decreases rows@.len() - k,
    {
        proof {
            assert(rows@.take(k + 1).drop_last() =~= rows@.take(k as int));
        }
        m.insert(rows[k].0.clone(), rows[k].1 as u32);
        k = k + 1;
    }
    proof {
        assert(rows@.take(rows@.len() as int) =~= rows@);
        assert forall|i: int| 0 <= i < rows@.len() implies m@.contains_key(#[trigger] rows@[i].0@) by {
            law_distribution_counts_each_name(rows@, rows@[i].0@);
        }
        assert forall|name: Seq<char>| #[trigger] m@.contains_key(name) implies exists|i: int|
            0 <= i < rows@.len() && #[trigger] rows@[i].0@ == name by {
            law_distribution_counts_each_name(rows@, name);
        }
        assert forall|i: int|
            0 <= i < rows@.len() && (forall|j: int|
                i < j < rows@.len() ==> #[trigger] rows@[j].0@ != rows@[i].0@) implies m@[rows@[i].0@]
            == #[trigger] rows@[i].1 as u32 by {
            law_distribution_counts_each_name(rows@, rows@[i].0@);
        }
    }
    m
}

/// Names the protocol numbers of a grouped count query by their decimal form.
pub fn label_protocols(rows: &Vec<(u8, i64)>) -> (r: Vec<(String, i64)>)
    ensures
        r@.len() == rows@.len(),
        forall|i: int|
            0 <= i < rows@.len() ==> #[trigger] r@[i].0@ == decimal(rows@[i].0 as nat) && r@[i].1
                == rows@[i].1,
{
    let mut r: Vec<(String, i64)> = Vec::new();
    let mut k: usize = 0;
    while k < rows.len()
        invariant
            k <= rows@.len(),
            r@.len() == k,
            forall|i: int|
                0 <= i < k ==> #[trigger] r@[i].0@ == decimal(rows@[i].0 as nat) && r@[i].1
                    == rows@[i].1,
        decreases rows@.len() - k,
    {
        r.push((decimal_text(rows[k].0 as u64), rows[k].1));
        k = k + 1;
    }
    r
}

/// The values of the rows of the given kind, in order.
pub open spec fn values_of_kind(rows: Seq<filters::Model>, kind: Kind) -> Seq<Seq<char>>
    decreases rows.len(),
{
    if rows.len() == 0 {
        Seq::empty()
    } else if rows.last().kind == kind {
        values_of_kind(rows.drop_last(), kind).push(rows.last().value@)
    } else {
        values_of_kind(rows.drop_last(), kind)
    }
}

/// The views of a list of strings.
pub open spec fn string_views(v: Seq<String>) -> Seq<Seq<char>> {
    v.map_values(|s: String| s@)
}

/// Sorts the filter values into input interfaces, output interfaces and
/// protocols, each in the order of the rows.
pub fn classify_filters(rows: &Vec<filters::Model>) -> (o: Options)
    ensures
        string_views(o.iifaces@) == values_of_kind(rows@, Kind::InputInterface),
        string_views(o.oifaces@) == values_of_kind(rows@, Kind::OutputInterface),
        string_views(o.protocols@) == values_of_kind(rows@, Kind::Protocol),
        string_views(o.iifaces@) == rows@.filter(|r: filters::Model| r.kind == Kind::InputInterface).map_values(
            |r: filters::Model| r.value@,
        ),
        string_views(o.oifaces@) == rows@.filter(|r: filters::Model| r.kind == Kind::OutputInterface).map_values(
            |r: filters::Model| r.value@,
        ),
        string_views(o.protocols@) == rows@.filter(|r: filters::Model| r.kind == Kind::Protocol).map_values(
            |r: filters::Model| r.value@,
        ),
{
    let mut iifaces: Vec<String> = Vec::new();
    let mut oifaces: Vec<String> = Vec::new();
    let mut protocols: Vec<String> = Vec::new();
    let mut k: usize = 0;
    while k < rows.len()
        invariant
            k <= rows@.len(),
            string_views(iifaces@) == values_of_kind(rows@.take(k as int), Kind::InputInterface),
            string_views(oifaces@) == values_of_kind(rows@.take(k as int), Kind::OutputInterface),
            string_views(protocols@) == values_of_kind(rows@.take(k as int), Kind::Protocol),
        decreases rows@.len() - k,
    {
        proof {
            assert(rows@.take(k + 1).drop_last() =~= rows@.take(k as int));
        }
        let value = rows[k].value.clone();
        match rows[k].kind {
            Kind::InputInterface => {
                let ghost old_v = iifaces@;
                iifaces.push(value);
                proof {
                    assert(string_views(iifaces@) =~= string_views(old_v).push(value@));
                }
            },
            Kind::OutputInterface => {
                let ghost old_v = oifaces@;
                oifaces.push(value);
                proof {
                    assert(string_views(oifaces@) =~= string_views(old_v).push(value@));
                }
            },
            Kind::Protocol => {
                let ghost old_v = protocols@;
                protocols.push(value);
                proof {
                    assert(string_views(protocols@) =~= string_views(old_v).push(value@));
                }
            },
        }
        k = k + 1;
    }
    proof {
        assert(rows@.take(rows@.len() as int) =~= rows@);
        law_values_of_kind_are_the_rows_of_that_kind(rows@, Kind::InputInterface);
        law_values_of_kind_are_the_rows_of_that_kind(rows@, Kind::OutputInterface);
        law_values_of_kind_are_the_rows_of_that_kind(rows@, Kind::Protocol);
    }
    Options::new(iifaces, oifaces, protocols)
}

/// Every filter value is sorted into exactly one of the three lists: their
/// lengths add up to the number of rows.
pub proof fn law_filters_partitioned(rows: Seq<filters::Model>)
    ensures
        values_of_kind(rows, Kind::InputInterface).len() + values_of_kind(
            rows,
            Kind::OutputInterface,
        ).len() + values_of_kind(rows, Kind::Protocol).len() == rows.len(),
    decreases rows.len(),
{
    if rows.len() > 0 {
        law_filters_partitioned(rows.drop_last());
    }
}


/// Each row counts toward the interfaces it names: appending a row adds its
/// packets and bytes (each read as a `u32`) to the inbound totals of its
/// input interface and to the outbound totals of its output interface, when
/// that interface has a non-empty name, and changes no other total.
pub proof fn law_interface_traffic_adds_up(
    rows: Seq<InterfaceTraffic>,
    row: InterfaceTraffic,
    name: Seq<char>,
)
    ensures
        traffic_total(rows.push(row), name, false, false) == traffic_total(rows, name, false, false)
            + if row.iiface == Some(row.iiface->0) && row.iiface->0@ == name && name.len() > 0 {
            (row.packets as u32) as int
        } else {
            0
        },
        traffic_total(rows.push(row), name, false, true) == traffic_total(rows, name, false, true)
            + if row.iiface == Some(row.iiface->0) && row.iiface->0@ == name && name.len() > 0 {
            (row.bytes as u32) as int
        } else {
            0
        },
        traffic_total(rows.push(row), name, true, false) == traffic_total(rows, name, true, false)
            + if row.oiface == Some(row.oiface->0) && row.oiface->0@ == name && name.len() > 0 {
            (row.packets as u32) as int
        } else {
            0
        },
        traffic_total(rows.push(row), name, true, true) == traffic_total(rows, name, true, true)
            + if row.oiface == Some(row.oiface->0) && row.oiface->0@ == name && name.len() > 0 {
            (row.bytes as u32) as int
        } else {
            0
        },
        traffic_total(Seq::<InterfaceTraffic>::empty(), name, false, false) == 0,
        traffic_total(Seq::<InterfaceTraffic>::empty(), name, false, true) == 0,
        traffic_total(Seq::<InterfaceTraffic>::empty(), name, true, false) == 0,
        traffic_total(Seq::<InterfaceTraffic>::empty(), name, true, true) == 0,
{
    assert(rows.push(row).drop_last() =~= rows);
}

/// Every interface that a row names, on either side, with a non-empty name,
/// is seen; and an interface is seen only if some row names it so.
pub proof fn law_named_interfaces_seen(rows: Seq<InterfaceTraffic>, name: Seq<char>)
    ensures
        interface_seen(rows, name) <==> exists|i: int|
            0 <= i < rows.len() && name.len() > 0 && ((#[trigger] rows[i].iiface == Some(
                rows[i].iiface->0,
            ) && rows[i].iiface->0@ == name) || (rows[i].oiface == Some(rows[i].oiface->0)
                && rows[i].oiface->0@ == name)),
{
    if interface_seen(rows, name) {
        let i = choose|i: int|
            0 <= i < rows.len() && (names_interface(#[trigger] rows[i].iiface, name)
                || names_interface(rows[i].oiface, name));
        assert(rows[i].iiface == rows[i].iiface);
    }
    if exists|i: int|
        0 <= i < rows.len() && name.len() > 0 && ((#[trigger] rows[i].iiface == Some(
            rows[i].iiface->0,
        ) && rows[i].iiface->0@ == name) || (rows[i].oiface == Some(rows[i].oiface->0)
            && rows[i].oiface->0@ == name)) {
        let i = choose|i: int|
            0 <= i < rows.len() && name.len() > 0 && ((#[trigger] rows[i].iiface == Some(
                rows[i].iiface->0,
            ) && rows[i].iiface->0@ == name) || (rows[i].oiface == Some(rows[i].oiface->0)
                && rows[i].oiface->0@ == name));
        assert(names_interface(rows[i].iiface, name) || names_interface(rows[i].oiface, name));
    }
}

/// The next live window starts right after the last row delivered: a row id
/// falls in it exactly when it is above every id delivered, and, where nothing
/// was delivered, exactly when it is above the old cursor.
pub proof fn law_next_window_follows_last_row(cursor: i64, rows: Seq<log::Model>, id: i64)
    requires
        ascending_after(rows, cursor),
    ensures
        rows.len() > 0 ==> (id > cursor_after(cursor, rows) <==> forall|i: int|
            0 <= i < rows.len() ==> id > #[trigger] rows[i].rowid),
        rows.len() == 0 ==> cursor_after(cursor, rows) == cursor,
{
    if rows.len() > 0 {
        let last = rows.len() - 1;
        assert(cursor_after(cursor, rows) == rows[last].rowid);
        if id > rows[last].rowid {
            assert forall|i: int| 0 <= i < rows.len() implies id > #[trigger] rows[i].rowid by {
                if i < last {
                    assert(rows[i].rowid < rows[last].rowid);
                }
            }
        }
    }
}

/// A distribution has an entry for every name of the rows and for no other;
/// a name's count is that of its last row, read as a `u32`.
pub proof fn law_distribution_counts_each_name(rows: Seq<(String, i64)>, name: Seq<char>)
    ensures
        counts_of(rows).contains_key(name) <==> exists|i: int|
            0 <= i < rows.len() && #[trigger] rows[i].0@ == name,
        forall|i: int|
            0 <= i < rows.len() && rows[i].0@ == name && (forall|j: int|
                i < j < rows.len() ==> #[trigger] rows[j].0@ != name) ==> counts_of(rows)[name]
                == #[trigger] rows[i].1 as u32,
    decreases rows.len(),
{
    if rows.len() > 0 {
        let init = rows.drop_last();
        law_distribution_counts_each_name(init, name);
        let last = rows.len() - 1;
        if exists|i: int| 0 <= i < init.len() && #[trigger] init[i].0@ == name {
            let i = choose|i: int| 0 <= i < init.len() && #[trigger] init[i].0@ == name;
            assert(rows[i].0@ == name);
        }
        if exists|i: int| 0 <= i < rows.len() && #[trigger] rows[i].0@ == name {
            let i = choose|i: int| 0 <= i < rows.len() && #[trigger] rows[i].0@ == name;
            if i < last {
                assert(init[i].0@ == name);
            }
        }
        assert forall|i: int|
            0 <= i < rows.len() && rows[i].0@ == name && (forall|j: int|
                i < j < rows.len() ==> #[trigger] rows[j].0@ != name) implies counts_of(rows)[name]
            == #[trigger] rows[i].1 as u32 by {
            if i < last {
                assert(rows[last].0@ != name);
                assert(init[i] == rows[i]);
                assert forall|j: int| i < j < init.len() implies #[trigger] init[j].0@ != name by {
                    assert(init[j] == rows[j]);
                }
            }
        }
    }
}

/// The values listed for a kind are exactly the values of the rows of that
/// kind, in the order of the rows.
pub proof fn law_values_of_kind_are_the_rows_of_that_kind(rows: Seq<filters::Model>, kind: Kind)
    ensures
        values_of_kind(rows, kind) == rows.filter(|r: filters::Model| r.kind == kind).map_values(
            |r: filters::Model| r.value@,
        ),
    decreases rows.len(),
{
    reveal(Seq::filter);
    if rows.len() > 0 {
        law_values_of_kind_are_the_rows_of_that_kind(rows.drop_last(), kind);
        let f = rows.drop_last().filter(|r: filters::Model| r.kind == kind);
        assert(f.push(rows.last()).map_values(|r: filters::Model| r.value@) =~= f.map_values(
            |r: filters::Model| r.value@,
        ).push(rows.last().value@));
    }
}

} // verus!
