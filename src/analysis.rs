use vstd::prelude::*;

use crate::graph::{degree, degree_of, CrashGraph};
use crate::grouping::IntersectionNode;
use crate::ranking::{int_keys, is_top_ranking, rank_top, ranks_before};
use crate::records::ProcessedCrashRecord;
use crate::text::{lowercased, to_lowercase, trim, trimmed};

verus! {

/// The label given to a node none of whose records names its site.
pub const UNNAMED_INTERSECTION: &'static str = "Unnamed intersection";

/// A site label that names no site.
pub const UNKNOWN_LABEL: &'static str = "unknown";

/// Number of occurrences of `x` in `s`.
pub open spec fn count_of<A>(s: Seq<A>, x: A) -> nat
    decreases s.len(),
{
    if s.len() == 0 {
        0
    } else {
        count_of(s.drop_last(), x) + if s.last() == x { 1nat } else { 0nat }
    }
}

/// A site label trimmed and lowercased.
pub open spec fn normalized_label(label: Seq<char>) -> Seq<char> {
    lowercased(trimmed(label))
}

/// A normalized label that names a site.
pub open spec fn is_usable_label(label: Seq<char>) -> bool {
    label.len() > 0 && label != UNKNOWN_LABEL@
}

/// The usable normalized labels of `crashes`, in record order.
pub open spec fn usable_labels(crashes: Seq<ProcessedCrashRecord>) -> Seq<Seq<char>>
    decreases crashes.len(),
{
    if crashes.len() == 0 {
        Seq::empty()
    } else {
        let prev = usable_labels(crashes.drop_last());
        let label = normalized_label(crashes.last().at_roadway_intersection@);
        if is_usable_label(label) {
            prev.push(label)
        } else {
            prev
        }
    }
}

/// `r` is the representative of `labels`: the sentinel when there are none,
/// else the most frequent label, the one seen first among equally frequent ones.
pub open spec fn is_representative(labels: Seq<Seq<char>>, r: Seq<char>) -> bool {
    if labels.len() == 0 {
        r == UNNAMED_INTERSECTION@
    } else {
        exists|i: int|
            0 <= i < labels.len() && r == labels[i] && (forall|j: int|
                0 <= j < labels.len() ==> count_of(labels, #[trigger] labels[j]) <= count_of(
                    labels,
                    labels[i],
                )) && (forall|j: int|
                0 <= j < i ==> count_of(labels, #[trigger] labels[j]) < count_of(labels, labels[i]))
    }
}

/// The character sequences of a list of strings.
pub open spec fn string_views(v: Seq<String>) -> Seq<Seq<char>> {
    v.map_values(|s: String| s@)
}

/// Number of labels in `labels` equal to `labels[i]`.
fn count_equal(labels: &Vec<String>, i: usize) -> (r: usize)
    requires
        i < labels@.len(),
    ensures
        r == count_of(string_views(labels@), labels@[i as int]@),
{
    let ghost views = string_views(labels@);
    let mut c: usize = 0;
    let mut j: usize = 0;
    while j < labels.len()
        invariant
            0 <= j <= labels@.len(),
            i < labels@.len(),
            views == string_views(labels@),
            c == count_of(views.subrange(0, j as int), labels@[i as int]@),
            c <= j,
        decreases labels@.len() - j,
    {
        assert(views.subrange(0, j as int + 1).drop_last() == views.subrange(0, j as int));
        if labels[j] == labels[i] {
            c += 1;
        }
        j += 1;
    }
    assert(views.subrange(0, labels@.len() as int) == views);
    c
}

/// The most frequent site label among `crashes`, after trimming and
/// lowercasing and leaving out empty and "unknown" labels; the first seen
/// wins a tie. `UNNAMED_INTERSECTION` when no record has a usable label.
pub fn most_common_name(crashes: &[ProcessedCrashRecord]) -> (r: String)
    ensures
        is_representative(usable_labels(crashes@), r@),
{
    let unknown = UNKNOWN_LABEL.to_owned();
    let mut labels: Vec<String> = Vec::new();
    let mut i: usize = 0;
    while i < crashes.len()
        invariant
            0 <= i <= crashes@.len(),
            unknown@ == UNKNOWN_LABEL@,
            string_views(labels@) == usable_labels(crashes@.subrange(0, i as int)),
        decreases crashes@.len() - i,
    {
        assert(crashes@.subrange(0, i as int + 1).drop_last() == crashes@.subrange(0, i as int));
        let name = to_lowercase(trim(crashes[i].at_roadway_intersection.as_str()));
        if !name.as_str().is_empty() && !(name == unknown) {
            labels.push(name);
            assert(string_views(labels@) == usable_labels(crashes@.subrange(0, i as int + 1)));
        }
        i += 1;
    }
    assert(crashes@.subrange(0, crashes@.len() as int) == crashes@);
    let ghost views = string_views(labels@);
    if labels.len() == 0 {
        return UNNAMED_INTERSECTION.to_owned();
    }
    let mut best: usize = 0;
    let mut best_count = count_equal(&labels, 0);
    let mut k: usize = 1;
    while k < labels.len()
        invariant
            1 <= k <= labels@.len(),
            views == string_views(labels@),
            best < k,
            best_count == count_of(views, views[best as int]),
            forall|j: int| 0 <= j < k ==> count_of(views, #[trigger] views[j]) <= best_count,
            forall|j: int| 0 <= j < best ==> count_of(views, #[trigger] views[j]) < best_count,
        decreases labels@.len() - k,
    {
        let c = count_equal(&labels, k);
        if c > best_count {
            best = k;
            best_count = c;
        }
        k += 1;
    }
    labels[best].clone()
}

/// A record with a positive fatal or non-fatal injury figure; an absent
/// figure never counts.
pub open spec fn severe(crash: ProcessedCrashRecord) -> bool {
    (crash.total_fatal_injuries is Some && crash.total_fatal_injuries->0 > 0)
        || (crash.total_nonfatal_injuries is Some && crash.total_nonfatal_injuries->0 > 0)
}

/// Whether the crash caused a fatal or non-fatal injury.
pub fn is_severe(crash: &ProcessedCrashRecord) -> (r: bool)
    ensures
        r == severe(*crash),
{
    let fatal = match crash.total_fatal_injuries {
        Some(v) => v > 0,
        None => false,
    };
    let nonfatal = match crash.total_nonfatal_injuries {
        Some(v) => v > 0,
        None => false,
    };
    fatal || nonfatal
}

/// Number of severe records among `crashes`.
pub open spec fn severe_count(crashes: Seq<ProcessedCrashRecord>) -> nat
    decreases crashes.len(),
{
    if crashes.len() == 0 {
        0
    } else {
        severe_count(crashes.drop_last()) + if severe(crashes.last()) { 1nat } else { 0nat }
    }
}

/// The degree of each node of `graph`, in node order.
pub open spec fn degree_keys(graph: CrashGraph) -> Seq<int> {
    Seq::new(graph.nodes@.len(), |k: int| degree(graph, graph.nodes@[k].id) as int)
}

/// The number of severe records of each node, in node order.
pub open spec fn severity_keys(nodes: Seq<IntersectionNode>) -> Seq<int> {
    Seq::new(nodes.len(), |k: int| severe_count(nodes[k].crashes@) as int)
}

/// `e` reports `node` of `graph`: its degree, its representative label and
/// its center.
pub open spec fn is_degree_entry(graph: CrashGraph, node: IntersectionNode, e: (usize, String, i64, i64)) -> bool {
    &&& e.0 == degree(graph, node.id)
    &&& is_representative(usable_labels(node.crashes@), e.1@)
    &&& e.2 == node.x
    &&& e.3 == node.y
}

/// `e` reports a node with severe records: the raw site label of its first
/// record, its number of severe records and its center.
pub open spec fn is_severity_entry(node: IntersectionNode, e: (String, usize, i64, i64)) -> bool {
    &&& severe_count(node.crashes@) > 0
    &&& node.crashes@.len() > 0
    &&& e.0@ == node.crashes@[0].at_roadway_intersection@
    &&& e.1 == severe_count(node.crashes@)
    &&& e.2 == node.x
    &&& e.3 == node.y
}

/// The `n` nodes of highest degree, ties in node order, each as its degree,
/// its most common name, and its center.
pub fn top_n_high_degree_nodes(graph: &CrashGraph, n: usize) -> (r: Vec<(usize, String, i64, i64)>)
    ensures
        r@.len() == if n < graph.nodes@.len() { n as int } else { graph.nodes@.len() as int },
        exists|order: Seq<usize>|
            is_top_ranking(degree_keys(*graph), n as int, order) && r@.len() == order.len()
                && forall|t: int|
                0 <= t < order.len() ==> is_degree_entry(*graph, graph.nodes@[order[t] as int], #[trigger] r@[t]),
{
    let mut keys: Vec<usize> = Vec::new();
    let mut i: usize = 0;
    while i < graph.nodes.len()
        invariant
            0 <= i <= graph.nodes@.len(),
            keys@.len() == i,
            forall|k: int| 0 <= k < i ==> (#[trigger] keys@[k]) == degree(*graph, graph.nodes@[k].id),
        decreases graph.nodes@.len() - i,
    {
        keys.push(degree_of(graph, graph.nodes[i].id));
        i += 1;
    }
    assert(int_keys(keys@) =~= degree_keys(*graph));
    let order = rank_top(&keys, n);
    let mut out: Vec<(usize, String, i64, i64)> = Vec::new();
    let mut t: usize = 0;
    while t < order.len()
        invariant
            0 <= t <= order@.len(),
            out@.len() == t,
            keys@.len() == graph.nodes@.len(),
            forall|k: int| 0 <= k < keys@.len() ==> (#[trigger] keys@[k]) == degree(*graph, graph.nodes@[k].id),
            is_top_ranking(int_keys(keys@), n as int, order@),
            forall|u: int|
                0 <= u < t ==> is_degree_entry(*graph, graph.nodes@[order@[u] as int], #[trigger] out@[u]),
        decreases order@.len() - t,
    {
        let node = &graph.nodes[order[t]];
        let name = most_common_name(node.crashes.as_slice());
        out.push((keys[order[t]], name, node.x, node.y));
        t += 1;
    }
    out
}

/// Number of severe records in `crashes`.
fn count_severe(crashes: &Vec<ProcessedCrashRecord>) -> (r: usize)
    ensures
        r == severe_count(crashes@),
{
    let mut c: usize = 0;
    let mut i: usize = 0;
    while i < crashes.len()
        invariant
            0 <= i <= crashes@.len(),
            c == severe_count(crashes@.subrange(0, i as int)),
            c <= i,
        decreases crashes@.len() - i,
    {
        assert(crashes@.subrange(0, i as int + 1).drop_last() == crashes@.subrange(0, i as int));
        if is_severe(&crashes[i]) {
            c += 1;
        }
        i += 1;
    }
    assert(crashes@.subrange(0, crashes@.len() as int) == crashes@);
    c
}

/// A list holds no more severe records than records.
proof fn lemma_severe_count_bound(crashes: Seq<ProcessedCrashRecord>)
    ensures
        severe_count(crashes) <= crashes.len(),
    decreases crashes.len(),
{
    if crashes.len() > 0 {
        lemma_severe_count_bound(crashes.drop_last());
    }
}

/// The `n` nodes with the most severe records, ties in node order, leaving
/// out nodes with none; each as the raw site label of its first record, its
/// number of severe records, and its center.
pub fn top_severe_intersections(nodes: &[IntersectionNode], n: usize) -> (r: Vec<(String, usize, i64, i64)>)
    ensures
        exists|order: Seq<usize>|
            is_top_ranking(severity_keys(nodes@), n as int, order) && r@.len() <= order.len()
                && (forall|t: int|
                0 <= t < r@.len() ==> is_severity_entry(nodes@[order[t] as int], #[trigger] r@[t]))
                && (forall|t: int|
                r@.len() <= t < order.len() ==> severe_count(nodes@[#[trigger] order[t] as int].crashes@) == 0),
{
    let mut keys: Vec<usize> = Vec::new();
    let mut i: usize = 0;
    while i < nodes.len()
        invariant
            0 <= i <= nodes@.len(),
            keys@.len() == i,
            forall|k: int| 0 <= k < i ==> (#[trigger] keys@[k]) == severe_count(nodes@[k].crashes@),
        decreases nodes@.len() - i,
    {
        keys.push(count_severe(&nodes[i].crashes));
        i += 1;
    }
    let ghost ks = int_keys(keys@);
    assert(ks =~= severity_keys(nodes@));
    let order = rank_top(&keys, n);
    let mut out: Vec<(String, usize, i64, i64)> = Vec::new();
    let mut t: usize = 0;
    while t < order.len() && keys[order[t]] > 0
        invariant
            0 <= t <= order@.len(),
            out@.len() == t,
            keys@.len() == nodes@.len(),
            ks == int_keys(keys@),
            forall|k: int| 0 <= k < keys@.len() ==> (#[trigger] keys@[k]) == severe_count(nodes@[k].crashes@),
            is_top_ranking(ks, n as int, order@),
            forall|u: int| 0 <= u < t ==> is_severity_entry(nodes@[order@[u] as int], #[trigger] out@[u]),
        decreases order@.len() - t,
    {
        let node = &nodes[order[t]];
        proof {
            lemma_severe_count_bound(node.crashes@);
        }
        let label = node.crashes[0].at_roadway_intersection.clone();
        out.push((label, keys[order[t]], node.x, node.y));
        t += 1;
    }
    assert forall|u: int| out@.len() <= u < order@.len() implies severe_count(
        nodes@[#[trigger] order@[u] as int].crashes@,
    ) == 0 by {
        if u > t {
            assert(ranks_before(ks, order@[t as int] as int, order@[u] as int));
        }
    }
    assert(is_top_ranking(severity_keys(nodes@), n as int, order@));
    out
}

/// Number of values of `s` above `bound`.
pub open spec fn count_above(s: Seq<usize>, bound: int) -> nat
    decreases s.len(),
{
    if s.len() == 0 {
        0
    } else {
        count_above(s.drop_last(), bound) + if s.last() > bound { 1nat } else { 0nat }
    }
}

/// Raising the bound past a value of `s` leaves fewer values above it.
proof fn lemma_count_above_drops(s: Seq<usize>, lo: int, hi: int)
    requires
        lo <= hi,
    ensures
        count_above(s, hi) <= count_above(s, lo),
        (exists|i: int| 0 <= i < s.len() && lo < #[trigger] s[i] <= hi) ==> count_above(s, hi) < count_above(s, lo),
    decreases s.len(),
{
    if s.len() > 0 {
        lemma_count_above_drops(s.drop_last(), lo, hi);
        if exists|i: int| 0 <= i < s.len() && lo < #[trigger] s[i] <= hi {
            let i = choose|i: int| 0 <= i < s.len() && lo < #[trigger] s[i] <= hi;
            if i < s.len() - 1 {
                assert(s.drop_last()[i] == s[i]);
            }
        }
    }
}

/// Number of occurrences of `v` in `values`.
fn count_value(values: &[usize], v: usize) -> (r: usize)
    ensures
        r == count_of(values@, v),
{
    let mut c: usize = 0;
    let mut i: usize = 0;
    while i < values.len()
        invariant
            0 <= i <= values@.len(),
            c == count_of(values@.subrange(0, i as int), v),
            c <= i,
        decreases values@.len() - i,
    {
        assert(values@.subrange(0, i as int + 1).drop_last() == values@.subrange(0, i as int));
        if values[i] == v {
            c += 1;
        }
        i += 1;
    }
    assert(values@.subrange(0, values@.len() as int) == values@);
    c
}

/// A value that occurs in a sequence is counted.
proof fn lemma_count_of_positive<A>(s: Seq<A>, i: int)
    requires
        0 <= i < s.len(),
    ensures
        count_of(s, s[i]) > 0,
    decreases s.len(),
{
    if i < s.len() - 1 {
        lemma_count_of_positive(s.drop_last(), i);
        assert(s.drop_last()[i] == s[i]);
    }
}

/// `bars` lists the distinct values of `values` in ascending order, each with
/// its number of occurrences.
pub open spec fn is_histogram(values: Seq<usize>, bars: Seq<(usize, usize)>) -> bool {
    &&& forall|s: int, t: int| 0 <= s < t < bars.len() ==> (#[trigger] bars[s]).0 < (#[trigger] bars[t]).0
    &&& forall|t: int|
        0 <= t < bars.len() ==> (#[trigger] bars[t]).1 == count_of(values, bars[t].0) && bars[t].1 > 0
    &&& forall|i: int|
        #![trigger values[i]]
        0 <= i < values.len() ==> exists|t: int| 0 <= t < bars.len() && (#[trigger] bars[t]).0 == values[i]
}

/// The distinct degrees in ascending order, each with the number of nodes
/// that have it: the bars of a degree histogram.
pub fn degree_frequencies(degrees: &[usize]) -> (r: Vec<(usize, usize)>)
    ensures
        is_histogram(degrees@, r@),
{
    let mut out: Vec<(usize, usize)> = Vec::new();
    let mut last: Option<usize> = None;
    loop
        invariant_except_break
            out@.len() == 0 <==> last is None,
            last is Some ==> out@.len() > 0 && out@.last().0 == last->0,
            forall|s: int, t: int| 0 <= s < t < out@.len() ==> (#[trigger] out@[s]).0 < (#[trigger] out@[t]).0,
            forall|t: int|
                0 <= t < out@.len() ==> (#[trigger] out@[t]).1 == count_of(degrees@, out@[t].0) && out@[t].1 > 0,
            forall|i: int|
                0 <= i < degrees@.len() && (last is Some && degrees@[i] <= last->0) ==> exists|t: int|
                    0 <= t < out@.len() && (#[trigger] out@[t]).0 == #[trigger] degrees@[i],
        ensures
            is_histogram(degrees@, out@),
        decreases count_above(degrees@, if last is Some { last->0 as int } else { -1 }),
    {
        let ghost lo: int = if last is Some { last->0 as int } else { -1 };
        let mut found = false;
        let mut m: usize = 0;
        let mut i: usize = 0;
        while i < degrees.len()
            invariant
                0 <= i <= degrees@.len(),
                lo == if last is Some { last->0 as int } else { -1 },
                found ==> m > lo && exists|p: int| 0 <= p < i && degrees@[p] == m,
                found ==> forall|p: int| 0 <= p < i && degrees@[p] > lo ==> m <= #[trigger] degrees@[p],
                !found ==> forall|p: int| 0 <= p < i ==> #[trigger] degrees@[p] <= lo,
            decreases degrees@.len() - i,
        {
            let v = degrees[i];
            let above = match last {
                Some(l) => v > l,
                None => true,
            };
            if above && (!found || v < m) {
                found = true;
                m = v;
            }
            i += 1;
        }
        if !found {
            assert forall|p: int| 0 <= p < degrees@.len() implies exists|t: int|
                0 <= t < out@.len() && (#[trigger] out@[t]).0 == #[trigger] degrees@[p] by {
                assert(degrees@[p] <= lo);
            }
            break;
        }
        let c = count_value(degrees, m);
        proof {
            let p = choose|p: int| 0 <= p < degrees@.len() && degrees@[p] == m;
            lemma_count_of_positive(degrees@, p);
            lemma_count_above_drops(degrees@, lo, m as int);
        }
        let ghost old_out = out@;
        out.push((m, c));
        last = Some(m);
        assert forall|p: int| 0 <= p < degrees@.len() && degrees@[p] <= m implies exists|t: int|
            0 <= t < out@.len() && (#[trigger] out@[t]).0 == #[trigger] degrees@[p] by {
            if degrees@[p] == m {
                assert(out@[old_out.len() as int].0 == degrees@[p]);
            } else {
                assert(degrees@[p] <= lo);
                let t = choose|t: int| 0 <= t < old_out.len() && (#[trigger] old_out[t]).0 == degrees@[p];
                assert(out@[t] == old_out[t]);
            }
        }
    }
    out
}

} // verus!
