//! The metrics of a node, in the text format that Prometheus reads.

use crate::conn::PeerStats;
use crate::router::PeerId;
use crate::text::{decimal, digit_char, hex_chars, hex_encode, push_decimal, push_text};
use crate::tree::TreeStat;
use vstd::prelude::*;
use vstd::utf8::encode_utf8;

verus! {

broadcast use vstd::array::group_array_axioms;

/// A neighbour, as the metrics show it. What is rounded comes as text: loss rate
/// and trust with four decimals, the uptime in seconds with three.
pub struct PeerRow {
    pub stats: PeerStats,
    pub loss: String,
    pub trust: String,
    pub uptime: String,
}

/// What is counted while a node runs.
pub struct Counters {
    /// Locks taken over after a panic.
    pub mutex_poison: u64,
    pub control_sent: u64,
    pub control_suppressed: u64,
    pub parent_changes: u64,
    pub no_route: u64,
    pub transit_greedy: u64,
    pub transit_cuckoo: u64,
    /// Bytes sent, by the name of the frame type.
    pub tx_bytes: Vec<(String, u64)>,
}

/// All that the metrics show.
pub struct Snapshot {
    pub pub_key: PeerId,
    /// The uptime in seconds, with three decimals.
    pub uptime: String,
    pub peers: Vec<PeerRow>,
    pub counters: Counters,
    pub trees: Vec<TreeStat>,
}

/// The metrics of which each neighbour has a sample.
#[derive(Clone, Copy, Debug, PartialEq, Eq, Structural)]
pub enum PeerMetric {
    RxBytes,
    TxBytes,
    Lag,
    Jitter,
    Loss,
    Trust,
    Uptime,
}

/// The metrics of which each tree has a sample.
#[derive(Clone, Copy, Debug, PartialEq, Eq, Structural)]
pub enum TreeMetric {
    Root,
    Parent,
    Depth,
    ParentCost,
    IsRoot,
}

/// `n` in decimal with `width` digits.
pub open spec fn fixed_digits(n: nat, width: nat) -> Seq<char>
    decreases width,
{
    if width == 0 {
        Seq::empty()
    } else {
        fixed_digits(n / 10, (width - 1) as nat).push(digit_char(n % 10))
    }
}

/// A time in seconds, with six decimals.
pub open spec fn seconds6(us: u64) -> Seq<char> {
    decimal((us / 1000000) as nat) + "."@ + fixed_digits((us % 1000000) as nat, 6)
}

/// What stands before the samples of a metric.
pub open spec fn header(name: Seq<char>, help: Seq<char>, kind: Seq<char>) -> Seq<char> {
    "# HELP "@ + name + " "@ + help + "\n# TYPE "@ + name + " "@ + kind + "\n"@
}

/// A metric with one sample.
pub open spec fn single(name: Seq<char>, help: Seq<char>, kind: Seq<char>, value: Seq<char>) -> Seq<
    char,
> {
    header(name, help, kind) + name + " "@ + value + "\n"@
}

impl PeerMetric {
    pub open spec fn name(self) -> Seq<char> {
        match self {
            PeerMetric::RxBytes => "norn_peer_rx_bytes_total"@,
            PeerMetric::TxBytes => "norn_peer_tx_bytes_total"@,
            PeerMetric::Lag => "norn_peer_lag_seconds"@,
            PeerMetric::Jitter => "norn_peer_jitter_seconds"@,
            PeerMetric::Loss => "norn_peer_loss_rate"@,
            PeerMetric::Trust => "norn_peer_trust"@,
            PeerMetric::Uptime => "norn_peer_uptime_seconds"@,
        }
    }

    pub open spec fn help(self) -> Seq<char> {
        match self {
            PeerMetric::RxBytes => "Cumulative bytes received from this peer."@,
            PeerMetric::TxBytes => "Cumulative bytes sent to this peer."@,
            PeerMetric::Lag => "EWMA round-trip lag to this peer."@,
            PeerMetric::Jitter => "EWMA jitter of the RTT to this peer."@,
            PeerMetric::Loss => "Estimated packet loss rate (0..1) to this peer."@,
            PeerMetric::Trust => "Per-peer trust score; lower = de-prioritised in routing."@,
            PeerMetric::Uptime => "How long this peer has been connected."@,
        }
    }

    pub open spec fn kind(self) -> Seq<char> {
        if self == PeerMetric::RxBytes || self == PeerMetric::TxBytes {
            "counter"@
        } else {
            "gauge"@
        }
    }

    pub open spec fn value(self, row: PeerRow) -> Seq<char> {
        match self {
            PeerMetric::RxBytes => decimal(row.stats.rx_bytes as nat),
            PeerMetric::TxBytes => decimal(row.stats.tx_bytes as nat),
            PeerMetric::Lag => seconds6(row.stats.lag_us),
            PeerMetric::Jitter => seconds6(row.stats.jitter_us),
            PeerMetric::Loss => row.loss@,
            PeerMetric::Trust => row.trust@,
            PeerMetric::Uptime => row.uptime@,
        }
    }

    /// The sample of a neighbour.
    pub open spec fn line(self, row: PeerRow) -> Seq<char> {
        self.name() + "{peer=\""@ + hex_chars(row.stats.key@) + "\"} "@ + self.value(row) + "\n"@
    }

    pub open spec fn lines(self, rows: Seq<PeerRow>) -> Seq<char>
        decreases rows.len(),
    {
        if rows.len() == 0 {
            Seq::empty()
        } else {
            self.lines(rows.drop_last()) + self.line(rows.last())
        }
    }

    pub open spec fn section(self, rows: Seq<PeerRow>) -> Seq<char> {
        header(self.name(), self.help(), self.kind()) + self.lines(rows)
    }

    fn name_text(self) -> (s: &'static str)
        ensures
            s@ == self.name(),
    {
        match self {
            PeerMetric::RxBytes => "norn_peer_rx_bytes_total",
            PeerMetric::TxBytes => "norn_peer_tx_bytes_total",
            PeerMetric::Lag => "norn_peer_lag_seconds",
            PeerMetric::Jitter => "norn_peer_jitter_seconds",
            PeerMetric::Loss => "norn_peer_loss_rate",
            PeerMetric::Trust => "norn_peer_trust",
            PeerMetric::Uptime => "norn_peer_uptime_seconds",
        }
    }

    fn help_text(self) -> (s: &'static str)
        ensures
            s@ == self.help(),
    {
        match self {
            PeerMetric::RxBytes => "Cumulative bytes received from this peer.",
            PeerMetric::TxBytes => "Cumulative bytes sent to this peer.",
            PeerMetric::Lag => "EWMA round-trip lag to this peer.",
            PeerMetric::Jitter => "EWMA jitter of the RTT to this peer.",
            PeerMetric::Loss => "Estimated packet loss rate (0..1) to this peer.",
            PeerMetric::Trust => "Per-peer trust score; lower = de-prioritised in routing.",
            PeerMetric::Uptime => "How long this peer has been connected.",
        }
    }

    fn kind_text(self) -> (s: &'static str)
        ensures
            s@ == self.kind(),
    {
        match self {
            PeerMetric::RxBytes => "counter",
            PeerMetric::TxBytes => "counter",
            _ => "gauge",
        }
    }

    fn push_value(self, out: &mut String, row: &PeerRow)
        ensures
            final(out)@ == old(out)@ + self.value(*row),
    {
        match self {
            PeerMetric::RxBytes => push_decimal(out, row.stats.rx_bytes),
            PeerMetric::TxBytes => push_decimal(out, row.stats.tx_bytes),
            PeerMetric::Lag => push_seconds6(out, row.stats.lag_us),
            PeerMetric::Jitter => push_seconds6(out, row.stats.jitter_us),
            PeerMetric::Loss => push_text(out, row.loss.as_str()),
            PeerMetric::Trust => push_text(out, row.trust.as_str()),
            PeerMetric::Uptime => push_text(out, row.uptime.as_str()),
        }
    }

    fn push_section(self, out: &mut String, rows: &Vec<PeerRow>)
        ensures
            final(out)@ == old(out)@ + self.section(rows@),
    {
        let name: &str = self.name_text();
        push_header(out, name, self.help_text(), self.kind_text());
        let ghost head = old(out)@ + header(self.name(), self.help(), self.kind());
        let mut i: usize = 0;
        assert(rows@.take(0) =~= Seq::<PeerRow>::empty());
        assert(out@ =~= head + self.lines(rows@.take(0)));
        while i < rows.len()
            invariant
                i <= rows@.len(),
                name@ == self.name(),
                out@ == head + self.lines(rows@.take(i as int)),
            decreases rows@.len() - i,
        {
            proof {
                assert(rows@.take(i + 1).drop_last() =~= rows@.take(i as int));
                assert(rows@.take(i + 1).last() == rows@[i as int]);
            }
            push_text(out, name);
            push_text(out, "{peer=\"");
            let hex: String = hex_encode(rows[i].stats.key.as_slice());
            push_text(out, hex.as_str());
            push_text(out, "\"} ");
            self.push_value(out, &rows[i]);
            push_text(out, "\n");
            assert(out@ =~= head + self.lines(rows@.take(i + 1)));
            i = i + 1;
        }
        assert(rows@.take(i as int) =~= rows@);
        assert(out@ =~= old(out)@ + self.section(rows@));
    }
}

impl TreeMetric {
    pub open spec fn name(self) -> Seq<char> {
        match self {
            TreeMetric::Root => "norn_tree_root"@,
            TreeMetric::Parent => "norn_tree_parent"@,
            TreeMetric::Depth => "norn_tree_depth"@,
            TreeMetric::ParentCost => "norn_tree_parent_cost"@,
            TreeMetric::IsRoot => "norn_tree_is_root"@,
        }
    }

    pub open spec fn help(self) -> Seq<char> {
        match self {
            TreeMetric::Root => "Current root pub_key for this tree (1 = this node's view)."@,
            TreeMetric::Parent => "Direct parent pub_key in this tree (1 sample = one outgoing edge)."@,
            TreeMetric::Depth => "Hop count from this node to its tree's root."@,
            TreeMetric::ParentCost => "Loss-adjusted cost of the parent edge."@,
            TreeMetric::IsRoot => "1 if this node is the current root of the tree."@,
        }
    }

    /// The sample of a tree. A root has no parent, and no sample of it.
    pub open spec fn line(self, t: TreeStat) -> Seq<char> {
        let front = self.name() + "{tree=\""@ + decimal(t.tree_id as nat);
        match self {
            TreeMetric::Root => front + "\",root=\""@ + hex_chars(t.root@) + "\"} 1\n"@,
            TreeMetric::Parent => match t.parent {
                Some(p) => front + "\",parent=\""@ + hex_chars(p@) + "\"} 1\n"@,
                None => Seq::empty(),
            },
            TreeMetric::Depth => front + "\"} "@ + decimal(t.depth as nat) + "\n"@,
            TreeMetric::ParentCost => front + "\"} "@ + decimal(t.parent_cost as nat) + "\n"@,
            TreeMetric::IsRoot => front + "\"} "@ + decimal(
                if t.is_root {
                    1
                } else {
                    0
                },
            ) + "\n"@,
        }
    }

    pub open spec fn lines(self, trees: Seq<TreeStat>) -> Seq<char>
        decreases trees.len(),
    {
        if trees.len() == 0 {
            Seq::empty()
        } else {
            self.lines(trees.drop_last()) + self.line(trees.last())
        }
    }

    pub open spec fn section(self, trees: Seq<TreeStat>) -> Seq<char> {
        header(self.name(), self.help(), "gauge"@) + self.lines(trees)
    }

    fn name_text(self) -> (s: &'static str)
        ensures
            s@ == self.name(),
    {
        match self {
            TreeMetric::Root => "norn_tree_root",
            TreeMetric::Parent => "norn_tree_parent",
            TreeMetric::Depth => "norn_tree_depth",
            TreeMetric::ParentCost => "norn_tree_parent_cost",
            TreeMetric::IsRoot => "norn_tree_is_root",
        }
    }

    fn help_text(self) -> (s: &'static str)
        ensures
            s@ == self.help(),
    {
        match self {
            TreeMetric::Root => "Current root pub_key for this tree (1 = this node's view).",
            TreeMetric::Parent => "Direct parent pub_key in this tree (1 sample = one outgoing edge).",
            TreeMetric::Depth => "Hop count from this node to its tree's root.",
            TreeMetric::ParentCost => "Loss-adjusted cost of the parent edge.",
            TreeMetric::IsRoot => "1 if this node is the current root of the tree.",
        }
    }

    fn push_line(self, out: &mut String, t: &TreeStat)
        ensures
            final(out)@ == old(out)@ + self.line(*t),
    {
        if let TreeMetric::Parent = self {
            if t.parent.is_none() {
                assert(out@ =~= old(out)@ + self.line(*t));
                return ;
            }
        }
        push_text(out, self.name_text());
        push_text(out, "{tree=\"");
        push_decimal(out, t.tree_id as u64);
        match self {
            TreeMetric::Root => {
                push_text(out, "\",root=\"");
                let hex: String = hex_encode(t.root.as_slice());
                push_text(out, hex.as_str());
                push_text(out, "\"} 1\n");
            },
            TreeMetric::Parent => {
                if let Some(p) = t.parent {
                    push_text(out, "\",parent=\"");
                    let hex: String = hex_encode(p.as_slice());
                    push_text(out, hex.as_str());
                    push_text(out, "\"} 1\n");
                }
            },
            TreeMetric::Depth => {
                push_text(out, "\"} ");
                push_decimal(out, t.depth as u64);
                push_text(out, "\n");
            },
            TreeMetric::ParentCost => {
                push_text(out, "\"} ");
                push_decimal(out, t.parent_cost);
                push_text(out, "\n");
            },
            TreeMetric::IsRoot => {
                push_text(out, "\"} ");
                push_decimal(
                    out,
                    if t.is_root {
                        1
                    } else {
                        0
                    },
                );
                push_text(out, "\n");
            },
        }
        assert(out@ =~= old(out)@ + self.line(*t));
    }

    fn push_section(self, out: &mut String, trees: &Vec<TreeStat>)
        ensures
            final(out)@ == old(out)@ + self.section(trees@),
    {
        push_header(out, self.name_text(), self.help_text(), "gauge");
        let ghost head = old(out)@ + header(self.name(), self.help(), "gauge"@);
        let mut i: usize = 0;
        assert(trees@.take(0) =~= Seq::<TreeStat>::empty());
        assert(out@ =~= head + self.lines(trees@.take(0)));
        while i < trees.len()
            invariant
                i <= trees@.len(),
                out@ == head + self.lines(trees@.take(i as int)),
            decreases trees@.len() - i,
        {
            proof {
                assert(trees@.take(i + 1).drop_last() =~= trees@.take(i as int));
                assert(trees@.take(i + 1).last() == trees@[i as int]);
            }
            self.push_line(out, &trees[i]);
            assert(out@ =~= head + self.lines(trees@.take(i + 1)));
            i = i + 1;
        }
        assert(trees@.take(i as int) =~= trees@);
        assert(out@ =~= old(out)@ + self.section(trees@));
    }
}

fn push_fixed(out: &mut String, n: u64, width: u64)
    ensures
        final(out)@ == old(out)@ + fixed_digits(n as nat, width as nat),
    decreases width,
{
    if width > 0 {
        push_fixed(out, n / 10, width - 1);
        proof {
            assert(decimal((n % 10) as nat) =~= seq![digit_char((n % 10) as nat)]);
        }
        push_decimal(out, n % 10);
    }
    assert(out@ =~= old(out)@ + fixed_digits(n as nat, width as nat));
}

fn push_seconds6(out: &mut String, us: u64)
    ensures
        final(out)@ == old(out)@ + seconds6(us),
{
    push_decimal(out, us / 1000000);
    push_text(out, ".");
    push_fixed(out, us % 1000000, 6);
    assert(out@ =~= old(out)@ + seconds6(us));
}

fn push_header(out: &mut String, name: &str, help: &str, kind: &str)
    ensures
        final(out)@ == old(out)@ + header(name@, help@, kind@),
{
    push_text(out, "# HELP ");
    push_text(out, name);
    push_text(out, " ");
    push_text(out, help);
    push_text(out, "\n# TYPE ");
    push_text(out, name);
    push_text(out, " ");
    push_text(out, kind);
    push_text(out, "\n");
    assert(out@ =~= old(out)@ + header(name@, help@, kind@));
}

fn push_single(out: &mut String, name: &str, help: &str, kind: &str, value: u64)
    ensures
        final(out)@ == old(out)@ + single(name@, help@, kind@, decimal(value as nat)),
{
    push_header(out, name, help, kind);
    push_text(out, name);
    push_text(out, " ");
    push_decimal(out, value);
    push_text(out, "\n");
    assert(out@ =~= old(out)@ + single(name@, help@, kind@, decimal(value as nat)));
}

/// The key of the node itself, as a label.
pub open spec fn own_section(key: PeerId) -> Seq<char> {
    header(
        "norn_self_pub_key"@,
        "This node's ed25519 public key (label only)."@,
        "gauge"@,
    ) + "norn_self_pub_key{pub_key=\""@ + hex_chars(key@) + "\"} 1\n"@
}

/// The samples of bytes sent, by frame type.
pub open spec fn type_lines(bytes: Seq<(String, u64)>) -> Seq<char>
    decreases bytes.len(),
{
    if bytes.len() == 0 {
        Seq::empty()
    } else {
        type_lines(bytes.drop_last()) + "norn_tx_bytes_by_type{type=\""@ + bytes.last().0@ + "\"} "@
            + decimal(bytes.last().1 as nat) + "\n"@
    }
}

/// All metrics of the neighbours.
pub open spec fn peers_text(rows: Seq<PeerRow>) -> Seq<char> {
    PeerMetric::RxBytes.section(rows) + PeerMetric::TxBytes.section(rows)
        + PeerMetric::Lag.section(rows) + PeerMetric::Jitter.section(rows)
        + PeerMetric::Loss.section(rows) + PeerMetric::Trust.section(rows)
        + PeerMetric::Uptime.section(rows)
}

/// All counters.
pub open spec fn counters_text(c: Counters) -> Seq<char> {
    single(
        "norn_mutex_poison_total"@,
        "Times a poisoned router/session mutex was silently recovered. Non-zero values indicate a panic-while-holding-lock incident; protected state may be inconsistent and should be investigated."@,
        "counter"@,
        decimal(c.mutex_poison as nat),
    ) + single(
        "norn_control_broadcasts_total"@,
        "Periodic control broadcasts (ANNOUNCE + CoordAnnounce) actually sent."@,
        "counter"@,
        decimal(c.control_sent as nat),
    ) + single(
        "norn_control_suppressed_total"@,
        "Maintenance ticks where the control broadcast was skipped by the adaptive cadence (roadmap #9)."@,
        "counter"@,
        decimal(c.control_suppressed as nat),
    ) + single(
        "norn_tree_parent_changes_total"@,
        "Spanning-tree parent-pointer switches in fix_tree. Continued growth on a settled topology indicates parent flapping."@,
        "counter"@,
        decimal(c.parent_changes as nat),
    ) + single(
        "norn_cuckoo_no_route_total"@,
        "Transit packets with no route (cuckoo miss / transient hole)."@,
        "counter"@,
        decimal(c.no_route as nat),
    ) + single(
        "norn_transit_greedy_total"@,
        "Transit packets forwarded by hyperbolic greedy (dest_coord)."@,
        "counter"@,
        decimal(c.transit_greedy as nat),
    ) + single(
        "norn_transit_cuckoo_total"@,
        "Transit packets forwarded by cuckoo fallback (no coord / local min)."@,
        "counter"@,
        decimal(c.transit_cuckoo as nat),
    ) + header(
        "norn_tx_bytes_by_type"@,
        "Bytes sent to peers, by frame type."@,
        "counter"@,
    ) + type_lines(c.tx_bytes@)
}

/// All metrics of the trees.
pub open spec fn trees_text(trees: Seq<TreeStat>) -> Seq<char> {
    TreeMetric::Root.section(trees) + TreeMetric::Parent.section(trees)
        + TreeMetric::Depth.section(trees) + TreeMetric::ParentCost.section(trees)
        + TreeMetric::IsRoot.section(trees)
}

/// The metrics as text.
pub open spec fn exposition(s: Snapshot) -> Seq<char> {
    own_section(s.pub_key) + single(
        "norn_uptime_seconds"@,
        "Time since the daemon started."@,
        "gauge"@,
        s.uptime@,
    ) + single(
        "norn_peers_total"@,
        "Number of currently-connected peers."@,
        "gauge"@,
        decimal(s.peers@.len()),
    ) + peers_text(s.peers@) + counters_text(s.counters) + trees_text(s.trees@)
}

fn push_peers(out: &mut String, rows: &Vec<PeerRow>)
    ensures
        final(out)@ == old(out)@ + peers_text(rows@),
{
    PeerMetric::RxBytes.push_section(out, rows);
    PeerMetric::TxBytes.push_section(out, rows);
    PeerMetric::Lag.push_section(out, rows);
    PeerMetric::Jitter.push_section(out, rows);
    PeerMetric::Loss.push_section(out, rows);
    PeerMetric::Trust.push_section(out, rows);
    PeerMetric::Uptime.push_section(out, rows);
    assert(out@ =~= old(out)@ + peers_text(rows@));
}

fn push_types(out: &mut String, bytes: &Vec<(String, u64)>)
    ensures
        final(out)@ == old(out)@ + type_lines(bytes@),
{
    let mut i: usize = 0;
    assert(bytes@.take(0) =~= Seq::<(String, u64)>::empty());
    assert(out@ =~= old(out)@ + type_lines(bytes@.take(0)));
    while i < bytes.len()
        invariant
            i <= bytes@.len(),
            out@ == old(out)@ + type_lines(bytes@.take(i as int)),
        decreases bytes@.len() - i,
    {
        proof {
            assert(bytes@.take(i + 1).drop_last() =~= bytes@.take(i as int));
            assert(bytes@.take(i + 1).last() == bytes@[i as int]);
        }
        push_text(out, "norn_tx_bytes_by_type{type=\"");
        push_text(out, bytes[i].0.as_str());
        push_text(out, "\"} ");
        push_decimal(out, bytes[i].1);
        push_text(out, "\n");
        assert(out@ =~= old(out)@ + type_lines(bytes@.take(i + 1)));
        i = i + 1;
    }
    assert(bytes@.take(i as int) =~= bytes@);
}

fn push_counters(out: &mut String, c: &Counters)
    ensures
        final(out)@ == old(out)@ + counters_text(*c),
{
    push_single(
        out,
        "norn_mutex_poison_total",
        "Times a poisoned router/session mutex was silently recovered. Non-zero values indicate a panic-while-holding-lock incident; protected state may be inconsistent and should be investigated.",
        "counter",
        c.mutex_poison,
    );
    push_single(
        out,
        "norn_control_broadcasts_total",
        "Periodic control broadcasts (ANNOUNCE + CoordAnnounce) actually sent.",
        "counter",
        c.control_sent,
    );
    push_single(
        out,
        "norn_control_suppressed_total",
        "Maintenance ticks where the control broadcast was skipped by the adaptive cadence (roadmap #9).",
        "counter",
        c.control_suppressed,
    );
    push_single(
        out,
        "norn_tree_parent_changes_total",
        "Spanning-tree parent-pointer switches in fix_tree. Continued growth on a settled topology indicates parent flapping.",
        "counter",
        c.parent_changes,
    );
    push_single(
        out,
        "norn_cuckoo_no_route_total",
        "Transit packets with no route (cuckoo miss / transient hole).",
        "counter",
        c.no_route,
    );
    push_single(
        out,
        "norn_transit_greedy_total",
        "Transit packets forwarded by hyperbolic greedy (dest_coord).",
        "counter",
        c.transit_greedy,
    );
    push_single(
        out,
        "norn_transit_cuckoo_total",
        "Transit packets forwarded by cuckoo fallback (no coord / local min).",
        "counter",
        c.transit_cuckoo,
    );
    push_header(
        out,
        "norn_tx_bytes_by_type",
        "Bytes sent to peers, by frame type.",
        "counter",
    );
    push_types(out, &c.tx_bytes);
    assert(out@ =~= old(out)@ + counters_text(*c));
}

fn push_trees(out: &mut String, trees: &Vec<TreeStat>)
    ensures
        final(out)@ == old(out)@ + trees_text(trees@),
{
    TreeMetric::Root.push_section(out, trees);
    TreeMetric::Parent.push_section(out, trees);
    TreeMetric::Depth.push_section(out, trees);
    TreeMetric::ParentCost.push_section(out, trees);
    TreeMetric::IsRoot.push_section(out, trees);
    assert(out@ =~= old(out)@ + trees_text(trees@));
}

/// The metrics as text.
pub fn render(s: &Snapshot) -> (out: String)
    ensures
        out@ == exposition(*s),
{
    let mut out: String = String::new();
    push_header(
        &mut out,
        "norn_self_pub_key",
        "This node's ed25519 public key (label only).",
        "gauge",
    );
    push_text(&mut out, "norn_self_pub_key{pub_key=\"");
    let hex: String = hex_encode(s.pub_key.as_slice());
    push_text(&mut out, hex.as_str());
    push_text(&mut out, "\"} 1\n");
    assert(out@ =~= own_section(s.pub_key));
    push_header(&mut out, "norn_uptime_seconds", "Time since the daemon started.", "gauge");
    push_text(&mut out, "norn_uptime_seconds");
    push_text(&mut out, " ");
    push_text(&mut out, s.uptime.as_str());
    push_text(&mut out, "\n");
    let ghost uptime = single(
        "norn_uptime_seconds"@,
        "Time since the daemon started."@,
        "gauge"@,
        s.uptime@,
    );
    assert(out@ =~= own_section(s.pub_key) + uptime);
    push_single(
        &mut out,
        "norn_peers_total",
        "Number of currently-connected peers.",
        "gauge",
        s.peers.len() as u64,
    );
    push_peers(&mut out, &s.peers);
    push_counters(&mut out, &s.counters);
    push_trees(&mut out, &s.trees);
    assert(out@ =~= exposition(*s));
    out
}

/// The answer to a request for the metrics.
pub open spec fn http_text(body: Seq<char>) -> Seq<char> {
    "HTTP/1.1 200 OK\r\nContent-Type: text/plain; version=0.0.4\r\nContent-Length: "@ + decimal(
        encode_utf8(body).len(),
    ) + "\r\nConnection: close\r\n\r\n"@ + body
}

/// The answer to a request for the metrics.
pub fn http_response(body: &str) -> (out: String)
    ensures
        out@ == http_text(body@),
{
    let mut out: String = String::new();
    push_text(
        &mut out,
        "HTTP/1.1 200 OK\r\nContent-Type: text/plain; version=0.0.4\r\nContent-Length: ",
    );
    push_decimal(&mut out, body.as_bytes().len() as u64);
    push_text(&mut out, "\r\nConnection: close\r\n\r\n");
    push_text(&mut out, body);
    assert(out@ =~= http_text(body@));
    out
}

/// The text has `part` in it.
pub open spec fn shows(text: Seq<char>, part: Seq<char>) -> bool {
    exists|a: Seq<char>, b: Seq<char>| text == #[trigger] (a + part + b)
}

proof fn lemma_left(x: Seq<char>, y: Seq<char>, part: Seq<char>)
    requires
        shows(x, part),
    ensures
        shows(x + y, part),
{
    let (a, b) = choose|a: Seq<char>, b: Seq<char>| x == #[trigger] (a + part + b);
    assert(x + y =~= a + part + (b + y));
}

proof fn lemma_right(x: Seq<char>, y: Seq<char>, part: Seq<char>)
    requires
        shows(y, part),
    ensures
        shows(x + y, part),
{
    let (a, b) = choose|a: Seq<char>, b: Seq<char>| y == #[trigger] (a + part + b);
    assert(x + y =~= (x + a) + part + b);
}

proof fn lemma_whole(part: Seq<char>)
    ensures
        shows(part, part),
{
    assert(part =~= Seq::<char>::empty() + part + Seq::<char>::empty());
}

/// Where one of seven texts shows a part, all of them together do.
proof fn lemma_seven(
    a: Seq<char>,
    b: Seq<char>,
    c: Seq<char>,
    d: Seq<char>,
    e: Seq<char>,
    f: Seq<char>,
    g: Seq<char>,
    part: Seq<char>,
)
    requires
        shows(a, part) || shows(b, part) || shows(c, part) || shows(d, part) || shows(e, part)
            || shows(f, part) || shows(g, part),
    ensures
        shows(a + b + c + d + e + f + g, part),
{
    if shows(a, part) {
        lemma_left(a, b, part);
    } else if shows(b, part) {
        lemma_right(a, b, part);
    }
    let t = a + b;
    if shows(t, part) {
        lemma_left(t, c, part);
    } else if shows(c, part) {
        lemma_right(t, c, part);
    }
    let t = a + b + c;
    if shows(t, part) {
        lemma_left(t, d, part);
    } else if shows(d, part) {
        lemma_right(t, d, part);
    }
    let t = a + b + c + d;
    if shows(t, part) {
        lemma_left(t, e, part);
    } else if shows(e, part) {
        lemma_right(t, e, part);
    }
    let t = a + b + c + d + e;
    if shows(t, part) {
        lemma_left(t, f, part);
    } else if shows(f, part) {
        lemma_right(t, f, part);
    }
    let t = a + b + c + d + e + f;
    if shows(t, part) {
        lemma_left(t, g, part);
    } else {
        lemma_right(t, g, part);
    }
}

/// Where one of five texts shows a part, all of them together do.
proof fn lemma_five(
    a: Seq<char>,
    b: Seq<char>,
    c: Seq<char>,
    d: Seq<char>,
    e: Seq<char>,
    part: Seq<char>,
)
    requires
        shows(a, part) || shows(b, part) || shows(c, part) || shows(d, part) || shows(e, part),
    ensures
        shows(a + b + c + d + e, part),
{
    if shows(a, part) {
        lemma_left(a, b, part);
    } else if shows(b, part) {
        lemma_right(a, b, part);
    }
    let t = a + b;
    if shows(t, part) {
        lemma_left(t, c, part);
    } else if shows(c, part) {
        lemma_right(t, c, part);
    }
    let t = a + b + c;
    if shows(t, part) {
        lemma_left(t, d, part);
    } else if shows(d, part) {
        lemma_right(t, d, part);
    }
    let t = a + b + c + d;
    if shows(t, part) {
        lemma_left(t, e, part);
    } else {
        lemma_right(t, e, part);
    }
}

/// The last three of six texts are shown by all of them together.
proof fn lemma_last_three(
    u: Seq<char>,
    p: Seq<char>,
    c: Seq<char>,
    t: Seq<char>,
    part: Seq<char>,
)
    requires
        shows(p, part) || shows(c, part) || shows(t, part),
    ensures
        shows(u + p + c + t, part),
{
    if shows(p, part) {
        lemma_right(u, p, part);
        lemma_left(u + p, c, part);
        lemma_left(u + p + c, t, part);
    } else if shows(c, part) {
        lemma_right(u + p, c, part);
        lemma_left(u + p + c, t, part);
    } else {
        lemma_right(u + p + c, t, part);
    }
}

proof fn lemma_peer_line(m: PeerMetric, rows: Seq<PeerRow>, i: int)
    requires
        0 <= i < rows.len(),
    ensures
        shows(m.section(rows), m.line(rows[i])),
    decreases rows.len(),
{
    let part = m.line(rows[i]);
    let head = header(m.name(), m.help(), m.kind());
    lemma_peer_lines(m, rows, i);
    lemma_right(head, m.lines(rows), part);
}

proof fn lemma_peer_lines(m: PeerMetric, rows: Seq<PeerRow>, i: int)
    requires
        0 <= i < rows.len(),
    ensures
        shows(m.lines(rows), m.line(rows[i])),
    decreases rows.len(),
{
    let part = m.line(rows[i]);
    let rest = m.lines(rows.drop_last());
    if i < rows.len() - 1 {
        lemma_peer_lines(m, rows.drop_last(), i);
        assert(rows.drop_last()[i] == rows[i]);
        lemma_left(rest, m.line(rows.last()), part);
    } else {
        lemma_whole(part);
        lemma_right(rest, part, part);
    }
}

proof fn lemma_tree_line(m: TreeMetric, trees: Seq<TreeStat>, i: int)
    requires
        0 <= i < trees.len(),
    ensures
        shows(m.section(trees), m.line(trees[i])),
{
    let part = m.line(trees[i]);
    let head = header(m.name(), m.help(), "gauge"@);
    lemma_tree_lines(m, trees, i);
    lemma_right(head, m.lines(trees), part);
}

proof fn lemma_tree_lines(m: TreeMetric, trees: Seq<TreeStat>, i: int)
    requires
        0 <= i < trees.len(),
    ensures
        shows(m.lines(trees), m.line(trees[i])),
    decreases trees.len(),
{
    let part = m.line(trees[i]);
    let rest = m.lines(trees.drop_last());
    if i < trees.len() - 1 {
        lemma_tree_lines(m, trees.drop_last(), i);
        assert(trees.drop_last()[i] == trees[i]);
        lemma_left(rest, m.line(trees.last()), part);
    } else {
        lemma_whole(part);
        lemma_right(rest, part, part);
    }
}

/// Each neighbour has a sample of each metric in the text, under its key.
pub proof fn every_neighbour_is_shown(s: Snapshot, i: int)
    requires
        0 <= i < s.peers@.len(),
    ensures
        ({
            let p = s.peers@[i];
            let key = hex_chars(p.stats.key@);
            let text = exposition(s);
            &&& shows(
                text,
                "norn_peer_rx_bytes_total"@ + "{peer=\""@ + key + "\"} "@ + decimal(
                    p.stats.rx_bytes as nat,
                ) + "\n"@,
            )
            &&& shows(
                text,
                "norn_peer_tx_bytes_total"@ + "{peer=\""@ + key + "\"} "@ + decimal(
                    p.stats.tx_bytes as nat,
                ) + "\n"@,
            )
            &&& shows(
                text,
                "norn_peer_lag_seconds"@ + "{peer=\""@ + key + "\"} "@ + seconds6(p.stats.lag_us)
                    + "\n"@,
            )
            &&& shows(
                text,
                "norn_peer_jitter_seconds"@ + "{peer=\""@ + key + "\"} "@ + seconds6(
                    p.stats.jitter_us,
                ) + "\n"@,
            )
            &&& shows(
                text,
                "norn_peer_loss_rate"@ + "{peer=\""@ + key + "\"} "@ + p.loss@ + "\n"@,
            )
            &&& shows(
                text,
                "norn_peer_trust"@ + "{peer=\""@ + key + "\"} "@ + p.trust@ + "\n"@,
            )
            &&& shows(
                text,
                "norn_peer_uptime_seconds"@ + "{peer=\""@ + key + "\"} "@ + p.uptime@ + "\n"@,
            )
        }),
{
    lemma_peer_in_text(s, PeerMetric::RxBytes, i);
    lemma_peer_in_text(s, PeerMetric::TxBytes, i);
    lemma_peer_in_text(s, PeerMetric::Lag, i);
    lemma_peer_in_text(s, PeerMetric::Jitter, i);
    lemma_peer_in_text(s, PeerMetric::Loss, i);
    lemma_peer_in_text(s, PeerMetric::Trust, i);
    lemma_peer_in_text(s, PeerMetric::Uptime, i);
}

proof fn lemma_peer_in_text(s: Snapshot, m: PeerMetric, i: int)
    requires
        0 <= i < s.peers@.len(),
    ensures
        shows(exposition(s), m.line(s.peers@[i])),
{
    let rows = s.peers@;
    let part = m.line(rows[i]);
    lemma_peer_line(m, rows, i);
    lemma_seven(
        PeerMetric::RxBytes.section(rows),
        PeerMetric::TxBytes.section(rows),
        PeerMetric::Lag.section(rows),
        PeerMetric::Jitter.section(rows),
        PeerMetric::Loss.section(rows),
        PeerMetric::Trust.section(rows),
        PeerMetric::Uptime.section(rows),
        part,
    );
    lemma_last_three(
        before_peers(s),
        peers_text(rows),
        counters_text(s.counters),
        trees_text(s.trees@),
        part,
    );
}

/// What stands before the metrics of the neighbours.
spec fn before_peers(s: Snapshot) -> Seq<char> {
    own_section(s.pub_key) + single(
        "norn_uptime_seconds"@,
        "Time since the daemon started."@,
        "gauge"@,
        s.uptime@,
    ) + single(
        "norn_peers_total"@,
        "Number of currently-connected peers."@,
        "gauge"@,
        decimal(s.peers@.len()),
    )
}

/// Each tree has a sample of its root, of its depth, of the cost to the parent, and of
/// whether the node is its root in the text; and one of its parent, where it has one.
pub proof fn every_tree_is_shown(s: Snapshot, i: int)
    requires
        0 <= i < s.trees@.len(),
    ensures
        ({
            let t = s.trees@[i];
            let id = decimal(t.tree_id as nat);
            let text = exposition(s);
            &&& shows(
                text,
                "norn_tree_root"@ + "{tree=\""@ + id + "\",root=\""@ + hex_chars(t.root@)
                    + "\"} 1\n"@,
            )
            &&& t.parent matches Some(p) ==> shows(
                text,
                "norn_tree_parent"@ + "{tree=\""@ + id + "\",parent=\""@ + hex_chars(p@)
                    + "\"} 1\n"@,
            )
            &&& shows(
                text,
                "norn_tree_depth"@ + "{tree=\""@ + id + "\"} "@ + decimal(t.depth as nat) + "\n"@,
            )
            &&& shows(
                text,
                "norn_tree_parent_cost"@ + "{tree=\""@ + id + "\"} "@ + decimal(
                    t.parent_cost as nat,
                ) + "\n"@,
            )
            &&& t.is_root ==> shows(
                text,
                "norn_tree_is_root"@ + "{tree=\""@ + id + "\"} "@ + decimal(1) + "\n"@,
            )
            &&& !t.is_root ==> shows(
                text,
                "norn_tree_is_root"@ + "{tree=\""@ + id + "\"} "@ + decimal(0) + "\n"@,
            )
        }),
{
    lemma_tree_in_text(s, TreeMetric::Root, i);
    lemma_tree_in_text(s, TreeMetric::Parent, i);
    lemma_tree_in_text(s, TreeMetric::Depth, i);
    lemma_tree_in_text(s, TreeMetric::ParentCost, i);
    lemma_tree_in_text(s, TreeMetric::IsRoot, i);
}

proof fn lemma_tree_in_text(s: Snapshot, m: TreeMetric, i: int)
    requires
        0 <= i < s.trees@.len(),
    ensures
        shows(exposition(s), m.line(s.trees@[i])),
{
    let trees = s.trees@;
    let part = m.line(trees[i]);
    lemma_tree_line(m, trees, i);
    lemma_five(
        TreeMetric::Root.section(trees),
        TreeMetric::Parent.section(trees),
        TreeMetric::Depth.section(trees),
        TreeMetric::ParentCost.section(trees),
        TreeMetric::IsRoot.section(trees),
        part,
    );
    lemma_last_three(
        before_peers(s),
        peers_text(s.peers@),
        counters_text(s.counters),
        trees_text(trees),
        part,
    );
}

proof fn lemma_single(name: Seq<char>, help: Seq<char>, kind: Seq<char>, value: Seq<char>)
    ensures
        shows(single(name, help, kind, value), name + " "@ + value + "\n"@),
{
    let head = header(name, help, kind);
    let part = name + " "@ + value + "\n"@;
    lemma_whole(part);
    lemma_right(head, part, part);
    assert(head + part =~= single(name, help, kind, value));
}

proof fn lemma_type_line(bytes: Seq<(String, u64)>, i: int)
    requires
        0 <= i < bytes.len(),
    ensures
        shows(
            type_lines(bytes),
            "norn_tx_bytes_by_type{type=\""@ + bytes[i].0@ + "\"} "@ + decimal(bytes[i].1 as nat)
                + "\n"@,
        ),
    decreases bytes.len(),
{
    let rest = type_lines(bytes.drop_last());
    let last = bytes.last();
    let part = "norn_tx_bytes_by_type{type=\""@ + bytes[i].0@ + "\"} "@ + decimal(
        bytes[i].1 as nat,
    ) + "\n"@;
    let line = "norn_tx_bytes_by_type{type=\""@ + last.0@ + "\"} "@ + decimal(last.1 as nat)
        + "\n"@;
    assert(rest + line =~= type_lines(bytes));
    if i < bytes.len() - 1 {
        lemma_type_line(bytes.drop_last(), i);
        assert(bytes.drop_last()[i] == bytes[i]);
        lemma_left(rest, line, part);
    } else {
        lemma_whole(part);
        lemma_right(rest, part, part);
    }
}

/// Each counter is in the text under its own name, and so are the bytes sent of each frame
/// type.
pub proof fn every_counter_is_shown(s: Snapshot)
    ensures
        ({
            let c = s.counters;
            let text = exposition(s);
            &&& shows(
                text,
                "norn_mutex_poison_total"@ + " "@ + decimal(c.mutex_poison as nat) + "\n"@,
            )
            &&& shows(
                text,
                "norn_control_broadcasts_total"@ + " "@ + decimal(c.control_sent as nat) + "\n"@,
            )
            &&& shows(
                text,
                "norn_control_suppressed_total"@ + " "@ + decimal(c.control_suppressed as nat)
                    + "\n"@,
            )
            &&& shows(
                text,
                "norn_tree_parent_changes_total"@ + " "@ + decimal(c.parent_changes as nat) + "\n"@,
            )
            &&& shows(
                text,
                "norn_cuckoo_no_route_total"@ + " "@ + decimal(c.no_route as nat) + "\n"@,
            )
            &&& shows(
                text,
                "norn_transit_greedy_total"@ + " "@ + decimal(c.transit_greedy as nat) + "\n"@,
            )
            &&& shows(
                text,
                "norn_transit_cuckoo_total"@ + " "@ + decimal(c.transit_cuckoo as nat) + "\n"@,
            )
            &&& forall|i: int|
                0 <= i < c.tx_bytes@.len() ==> shows(
                    text,
                    "norn_tx_bytes_by_type{type=\""@ + (#[trigger] c.tx_bytes@[i]).0@ + "\"} "@
                        + decimal(c.tx_bytes@[i].1 as nat) + "\n"@,
                )
        }),
{
    let c = s.counters;
    let names = (
        "norn_mutex_poison_total"@,
        "norn_control_broadcasts_total"@,
        "norn_control_suppressed_total"@,
        "norn_tree_parent_changes_total"@,
        "norn_cuckoo_no_route_total"@,
        "norn_transit_greedy_total"@,
        "norn_transit_cuckoo_total"@,
    );
    lemma_counter_in_text(s, names.0 + " "@ + decimal(c.mutex_poison as nat) + "\n"@, 0);
    lemma_counter_in_text(s, names.1 + " "@ + decimal(c.control_sent as nat) + "\n"@, 1);
    lemma_counter_in_text(s, names.2 + " "@ + decimal(c.control_suppressed as nat) + "\n"@, 2);
    lemma_counter_in_text(s, names.3 + " "@ + decimal(c.parent_changes as nat) + "\n"@, 3);
    lemma_counter_in_text(s, names.4 + " "@ + decimal(c.no_route as nat) + "\n"@, 4);
    lemma_counter_in_text(s, names.5 + " "@ + decimal(c.transit_greedy as nat) + "\n"@, 5);
    lemma_counter_in_text(s, names.6 + " "@ + decimal(c.transit_cuckoo as nat) + "\n"@, 6);
    assert forall|i: int| 0 <= i < c.tx_bytes@.len() implies shows(
        exposition(s),
        "norn_tx_bytes_by_type{type=\""@ + (#[trigger] c.tx_bytes@[i]).0@ + "\"} "@ + decimal(
            c.tx_bytes@[i].1 as nat,
        ) + "\n"@,
    ) by {
        let part = "norn_tx_bytes_by_type{type=\""@ + c.tx_bytes@[i].0@ + "\"} "@ + decimal(
            c.tx_bytes@[i].1 as nat,
        ) + "\n"@;
        lemma_type_line(c.tx_bytes@, i);
        lemma_counter_in_text(s, part, 7);
    }
}

/// The counter with the number `k`, and its name and value.
spec fn counter_single(c: Counters, k: int) -> Seq<char> {
    if k == 0 {
        single(
            "norn_mutex_poison_total"@,
            "Times a poisoned router/session mutex was silently recovered. Non-zero values indicate a panic-while-holding-lock incident; protected state may be inconsistent and should be investigated."@,
            "counter"@,
            decimal(c.mutex_poison as nat),
        )
    } else if k == 1 {
        single(
            "norn_control_broadcasts_total"@,
            "Periodic control broadcasts (ANNOUNCE + CoordAnnounce) actually sent."@,
            "counter"@,
            decimal(c.control_sent as nat),
        )
    } else if k == 2 {
        single(
            "norn_control_suppressed_total"@,
            "Maintenance ticks where the control broadcast was skipped by the adaptive cadence (roadmap #9)."@,
            "counter"@,
            decimal(c.control_suppressed as nat),
        )
    } else if k == 3 {
        single(
            "norn_tree_parent_changes_total"@,
            "Spanning-tree parent-pointer switches in fix_tree. Continued growth on a settled topology indicates parent flapping."@,
            "counter"@,
            decimal(c.parent_changes as nat),
        )
    } else if k == 4 {
        single(
            "norn_cuckoo_no_route_total"@,
            "Transit packets with no route (cuckoo miss / transient hole)."@,
            "counter"@,
            decimal(c.no_route as nat),
        )
    } else if k == 5 {
        single(
            "norn_transit_greedy_total"@,
            "Transit packets forwarded by hyperbolic greedy (dest_coord)."@,
            "counter"@,
            decimal(c.transit_greedy as nat),
        )
    } else {
        single(
            "norn_transit_cuckoo_total"@,
            "Transit packets forwarded by cuckoo fallback (no coord / local min)."@,
            "counter"@,
            decimal(c.transit_cuckoo as nat),
        )
    }
}

spec fn counter_line(c: Counters, k: int) -> Seq<char> {
    if k == 0 {
        "norn_mutex_poison_total"@ + " "@ + decimal(c.mutex_poison as nat) + "\n"@
    } else if k == 1 {
        "norn_control_broadcasts_total"@ + " "@ + decimal(c.control_sent as nat) + "\n"@
    } else if k == 2 {
        "norn_control_suppressed_total"@ + " "@ + decimal(c.control_suppressed as nat) + "\n"@
    } else if k == 3 {
        "norn_tree_parent_changes_total"@ + " "@ + decimal(c.parent_changes as nat) + "\n"@
    } else if k == 4 {
        "norn_cuckoo_no_route_total"@ + " "@ + decimal(c.no_route as nat) + "\n"@
    } else if k == 5 {
        "norn_transit_greedy_total"@ + " "@ + decimal(c.transit_greedy as nat) + "\n"@
    } else {
        "norn_transit_cuckoo_total"@ + " "@ + decimal(c.transit_cuckoo as nat) + "\n"@
    }
}

proof fn lemma_counter_single(c: Counters, k: int)
    ensures
        shows(counter_single(c, k), counter_line(c, k)),
{
    lemma_single(
        "norn_mutex_poison_total"@,
        "Times a poisoned router/session mutex was silently recovered. Non-zero values indicate a panic-while-holding-lock incident; protected state may be inconsistent and should be investigated."@,
        "counter"@,
        decimal(c.mutex_poison as nat),
    );
    lemma_single(
        "norn_control_broadcasts_total"@,
        "Periodic control broadcasts (ANNOUNCE + CoordAnnounce) actually sent."@,
        "counter"@,
        decimal(c.control_sent as nat),
    );
    lemma_single(
        "norn_control_suppressed_total"@,
        "Maintenance ticks where the control broadcast was skipped by the adaptive cadence (roadmap #9)."@,
        "counter"@,
        decimal(c.control_suppressed as nat),
    );
    lemma_single(
        "norn_tree_parent_changes_total"@,
        "Spanning-tree parent-pointer switches in fix_tree. Continued growth on a settled topology indicates parent flapping."@,
        "counter"@,
        decimal(c.parent_changes as nat),
    );
    lemma_single(
        "norn_cuckoo_no_route_total"@,
        "Transit packets with no route (cuckoo miss / transient hole)."@,
        "counter"@,
        decimal(c.no_route as nat),
    );
    lemma_single(
        "norn_transit_greedy_total"@,
        "Transit packets forwarded by hyperbolic greedy (dest_coord)."@,
        "counter"@,
        decimal(c.transit_greedy as nat),
    );
    lemma_single(
        "norn_transit_cuckoo_total"@,
        "Transit packets forwarded by cuckoo fallback (no coord / local min)."@,
        "counter"@,
        decimal(c.transit_cuckoo as nat),
    );
}

proof fn lemma_counter_in_text(s: Snapshot, part: Seq<char>, k: int)
    requires
        0 <= k <= 7,
        k < 7 ==> part == counter_line(s.counters, k),
        k == 7 ==> shows(type_lines(s.counters.tx_bytes@), part),
    ensures
        shows(exposition(s), part),
{
    let c = s.counters;
    let all = counter_single(c, 0) + counter_single(c, 1) + counter_single(c, 2) + counter_single(
        c,
        3,
    ) + counter_single(c, 4) + counter_single(c, 5) + counter_single(c, 6);
    let head = header(
        "norn_tx_bytes_by_type"@,
        "Bytes sent to peers, by frame type."@,
        "counter"@,
    );
    let lines = type_lines(c.tx_bytes@);
    if k < 7 {
        lemma_counter_single(c, k);
        lemma_seven(
            counter_single(c, 0),
            counter_single(c, 1),
            counter_single(c, 2),
            counter_single(c, 3),
            counter_single(c, 4),
            counter_single(c, 5),
            counter_single(c, 6),
            part,
        );
        lemma_left(all, head, part);
        lemma_left(all + head, lines, part);
    } else {
        lemma_right(all + head, lines, part);
    }
    lemma_last_three(
        before_peers(s),
        peers_text(s.peers@),
        counters_text(c),
        trees_text(s.trees@),
        part,
    );
}

/// The decimals of a time are six digits that denote the microseconds beyond the full
/// seconds.
pub proof fn decimals_denote_the_rest(n: nat, width: nat)
    ensures
        fixed_digits(n, width).len() == width,
        crate::text::all_digits(fixed_digits(n, width)),
        n < 1_000_000 ==> crate::text::digits_value(fixed_digits(n, 6)) == n,
{
    lemma_fixed(n, width);
    lemma_fixed(n, 6);
    reveal_with_fuel(vstd::arithmetic::power::pow, 8);
    assert(vstd::arithmetic::power::pow(10, 6) == 1_000_000);
    if n < 1_000_000 {
        vstd::arithmetic::div_mod::lemma_small_mod(n, 1_000_000);
    }
}

proof fn lemma_fixed(n: nat, width: nat)
    ensures
        fixed_digits(n, width).len() == width,
        crate::text::all_digits(fixed_digits(n, width)),
        vstd::arithmetic::power::pow(10, width) > 0,
        crate::text::digits_value(fixed_digits(n, width)) == n as int
            % vstd::arithmetic::power::pow(10, width),
    decreases width,
{
    vstd::arithmetic::power::lemma_pow_positive(10, width);
    if width == 0 {
        vstd::arithmetic::power::lemma_pow0(10);
    } else {
        let s = fixed_digits(n, width);
        let t = fixed_digits(n / 10, (width - 1) as nat);
        let p = vstd::arithmetic::power::pow(10, (width - 1) as nat);
        lemma_fixed(n / 10, (width - 1) as nat);
        assert(s.drop_last() =~= t);
        assert(s.last() as u32 == 48 + n % 10);
        assert forall|i: int| 0 <= i < s.len() implies 48 <= #[trigger] s[i] as u32 <= 57 by {
            if i < t.len() {
                assert(s[i] == t[i]);
            }
        }
        reveal(vstd::arithmetic::power::pow);
        assert(vstd::arithmetic::power::pow(10, width) == 10 * p);
        vstd::arithmetic::div_mod::lemma_mod_breakdown(n as int, 10, p);
        assert(n as int % (10 * p) == 10 * ((n as int / 10) % p) + n as int % 10);
    }
}

} // verus!
