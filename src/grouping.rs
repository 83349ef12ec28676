use vstd::prelude::*;

use crate::error::AnalysisError;
use crate::records::{ProcessedCrashRecord, MAX_COORD};

verus! {

/// A cluster of crash records that share a bin; `(x, y)` is the bin's center.
#[derive(Debug, Clone)]
pub struct IntersectionNode {
    pub id: usize,
    pub x: i64,
    pub y: i64,
    pub crashes: Vec<ProcessedCrashRecord>,
}

/// `x / b` rounded to the nearest integer, halves away from zero (`b > 0`).
pub open spec fn round_div(x: int, b: int) -> int {
    if x >= 0 {
        (2 * x + b) / (2 * b)
    } else {
        -((-2 * x + b) / (2 * b))
    }
}

/// The bin of a record for bin size `b`.
pub open spec fn bin_key(r: ProcessedCrashRecord, b: int) -> (int, int) {
    (round_div(r.x_coordinate as int, b), round_div(r.y_coordinate as int, b))
}

/// The bins of `records`, each once, in the order in which they first occur.
pub open spec fn first_seen_keys(records: Seq<ProcessedCrashRecord>, b: int) -> Seq<(int, int)>
    decreases records.len(),
{
    if records.len() == 0 {
        Seq::empty()
    } else {
        let prev = first_seen_keys(records.drop_last(), b);
        let key = bin_key(records.last(), b);
        if prev.contains(key) {
            prev
        } else {
            prev.push(key)
        }
    }
}

/// Whether a record falls into bin `key`.
pub open spec fn in_bin(b: int, key: (int, int)) -> spec_fn(ProcessedCrashRecord) -> bool {
    |r: ProcessedCrashRecord| bin_key(r, b) == key
}

/// The records of bin `key`, in input order.
pub open spec fn bin_members(records: Seq<ProcessedCrashRecord>, b: int, key: (int, int)) -> Seq<
    ProcessedCrashRecord,
> {
    records.filter(in_bin(b, key))
}

/// `nodes` is the grouping of `records` at bin size `b`: one node per bin, in
/// order of first occurrence, numbered from 0, centered on the bin and holding
/// the bin's records in input order.
pub open spec fn grouped(
    records: Seq<ProcessedCrashRecord>,
    b: int,
    nodes: Seq<IntersectionNode>,
) -> bool {
    let keys = first_seen_keys(records, b);
    &&& nodes.len() == keys.len()
    &&& forall|k: int|
        0 <= k < nodes.len() ==> {
            &&& (#[trigger] nodes[k]).id == k
            &&& nodes[k].x == keys[k].0 * b
            &&& nodes[k].y == keys[k].1 * b
            &&& nodes[k].crashes@ == bin_members(records, b, keys[k])
        }
}

/// A bin center lies no further from the origin than twice the coordinate.
proof fn lemma_round_div_bound(x: int, b: int)
    requires
        b > 0,
    ensures
        -2 * x <= round_div(x, b) * b <= 2 * x || 2 * x <= round_div(x, b) * b <= -2 * x,
{
    let ax = if x >= 0 { x } else { -x };
    let num = 2 * ax + b;
    let q = num / (2 * b);
    vstd::arithmetic::div_mod::lemma_fundamental_div_mod(num, 2 * b);
    assert(0 <= num % (2 * b) < 2 * b);
    assert(q >= 0) by {
        vstd::arithmetic::div_mod::lemma_div_pos_is_pos(num, 2 * b);
    }
    assert(0 <= q * b <= 2 * ax) by (nonlinear_arith)
        requires
            num == 2 * b * q + num % (2 * b),
            0 <= num % (2 * b),
            num == 2 * ax + b,
            q >= 0,
            b > 0,
            ax >= 0,
    {
        if q >= 1 {
            assert(2 * b * q >= 2 * b);
        }
    }
    if x < 0 {
        assert(round_div(x, b) * b == -(q * b)) by (nonlinear_arith)
            requires
                round_div(x, b) == -q,
        ;
    }
}

/// Scaling a bin index back and rounding again gives the same index.
pub proof fn lemma_round_div_of_multiple(k: int, b: int)
    requires
        b > 0,
    ensures
        round_div(k * b, b) == k,
{
    if k >= 0 {
        assert(k * b >= 0) by (nonlinear_arith)
            requires
                k >= 0,
                b > 0,
        ;
        assert(2 * (k * b) + b == k * (2 * b) + b) by (nonlinear_arith);
        vstd::arithmetic::div_mod::lemma_fundamental_div_mod_converse(2 * (k * b) + b, 2 * b, k, b);
    } else {
        assert(k * b < 0) by (nonlinear_arith)
            requires
                k < 0,
                b > 0,
        ;
        assert(-2 * (k * b) + b == (-k) * (2 * b) + b) by (nonlinear_arith);
        vstd::arithmetic::div_mod::lemma_fundamental_div_mod_converse(
            -2 * (k * b) + b,
            2 * b,
            -k,
            b,
        );
    }
}

/// The bin index of coordinate `v` at bin size `b`, and the bin's center.
fn bin_index(v: i64, b: i64) -> (r: (i64, i64))
    requires
        b > 0,
        -MAX_COORD <= v <= MAX_COORD,
    ensures
        r.0 == round_div(v as int, b as int),
        r.1 == r.0 * b,
{
    let v2: i128 = 2 * (v as i128);
    let b2: i128 = 2 * (b as i128);
    proof {
        lemma_round_div_bound(v as int, b as int);
    }
    let k: i128 = if v >= 0 {
        (v2 + b as i128) / b2
    } else {
        -((-v2 + b as i128) / b2)
    };
    assert(k == round_div(v as int, b as int));
    proof {
        assert(-2 * MAX_COORD <= k * b <= 2 * MAX_COORD);
        assert(-2 * MAX_COORD <= k <= 2 * MAX_COORD) by (nonlinear_arith)
            requires
                -2 * MAX_COORD <= k * b <= 2 * MAX_COORD,
                b >= 1,
        ;
    }
    let center: i128 = k * (b as i128);
    (k as i64, center as i64)
}

/// Every record's bin is among the first-seen bins.
proof fn lemma_key_seen(records: Seq<ProcessedCrashRecord>, b: int, i: int)
    requires
        0 <= i < records.len(),
    ensures
        first_seen_keys(records, b).contains(bin_key(records[i], b)),
    decreases records.len(),
{
    let prev = first_seen_keys(records.drop_last(), b);
    if i < records.len() - 1 {
        lemma_key_seen(records.drop_last(), b, i);
        assert(records.drop_last()[i] == records[i]);
        if !prev.contains(bin_key(records.last(), b)) {
            assert(prev.push(bin_key(records.last(), b))[prev.index_of(bin_key(records[i], b))]
                == bin_key(records[i], b));
        }
    } else if !prev.contains(bin_key(records.last(), b)) {
        assert(prev.push(bin_key(records.last(), b))[prev.len() as int] == bin_key(records[i], b));
    }
}

/// A bin that no record falls into has no members.
proof fn lemma_unseen_bin_empty(records: Seq<ProcessedCrashRecord>, b: int, key: (int, int))
    requires
        !first_seen_keys(records, b).contains(key),
    ensures
        bin_members(records, b, key).len() == 0,
    decreases records.len(),
{
    reveal(Seq::filter);
    if records.len() > 0 {
        let prev = first_seen_keys(records.drop_last(), b);
        if prev.contains(key) {
            let t = choose|t: int| 0 <= t < prev.len() && prev[t] == key;
            if !prev.contains(bin_key(records.last(), b)) {
                assert(prev.push(bin_key(records.last(), b))[t] == key);
            }
        }
        lemma_unseen_bin_empty(records.drop_last(), b, key);
        lemma_key_seen(records, b, records.len() - 1);
    }
}

/// The first-seen bins are pairwise distinct.
pub proof fn lemma_first_seen_distinct(records: Seq<ProcessedCrashRecord>, b: int)
    ensures
        first_seen_keys(records, b).no_duplicates(),
    decreases records.len(),
{
    if records.len() > 0 {
        lemma_first_seen_distinct(records.drop_last(), b);
    }
}

/// Groups records into intersection nodes by rounding their coordinates to
/// multiples of `precision`. Nodes are numbered in the order in which their
/// bins are first met.
pub fn group_by_intersections(data: &[ProcessedCrashRecord], precision: i64) -> (r: Result<
    Vec<IntersectionNode>,
    AnalysisError,
>)
    requires
        forall|i: int| 0 <= i < data@.len() ==> (#[trigger] data@[i]).in_range(),
    ensures
        precision <= 0 <==> r is Err,
        r is Err ==> r == Err::<Vec<IntersectionNode>, AnalysisError>(
            AnalysisError::InvalidParameter,
        ),
        r is Ok ==> grouped(data@, precision as int, r->Ok_0@),
{
    if precision <= 0 {
        return Err(AnalysisError::InvalidParameter);
    }
    let ghost b = precision as int;
    let mut nodes: Vec<IntersectionNode> = Vec::new();
    let mut keys: Vec<(i64, i64)> = Vec::new();
    let mut i: usize = 0;
    while i < data.len()
        invariant
            0 <= i <= data@.len(),
            b == precision as int,
            b > 0,
            forall|t: int| 0 <= t < data@.len() ==> (#[trigger] data@[t]).in_range(),
            keys@.len() == nodes@.len(),
            keys@.len() == first_seen_keys(data@.subrange(0, i as int), b).len(),
            forall|k: int|
                0 <= k < keys@.len() ==> (#[trigger] keys@[k]).0 == first_seen_keys(
                    data@.subrange(0, i as int),
                    b,
                )[k].0 && keys@[k].1 == first_seen_keys(data@.subrange(0, i as int), b)[k].1,
            grouped(data@.subrange(0, i as int), b, nodes@),
        decreases data@.len() - i,
    {
        let ghost prefix = data@.subrange(0, i as int);
        let ghost next = data@.subrange(0, i as int + 1);
        assert(next.drop_last() == prefix);
        assert(next.last() == data@[i as int]);
        let rec = &data[i];
        let (kx, cx) = bin_index(rec.x_coordinate, precision);
        let (ky, cy) = bin_index(rec.y_coordinate, precision);
        let ghost key = (kx as int, ky as int);
        assert(key == bin_key(data@[i as int], b));
        proof {
            lemma_first_seen_distinct(prefix, b);
        }
        let mut j: usize = 0;
        let mut found = false;
        while j < keys.len()
            invariant_except_break
                key == (kx as int, ky as int),
                forall|t: int| 0 <= t < j ==> first_seen_keys(prefix, b)[t] != key,
                !found,
            invariant
                0 <= j <= keys@.len(),
                keys@.len() == first_seen_keys(prefix, b).len(),
                forall|k: int|
                    0 <= k < keys@.len() ==> (#[trigger] keys@[k]).0 == first_seen_keys(
                        prefix,
                        b,
                    )[k].0 && keys@[k].1 == first_seen_keys(prefix, b)[k].1,
            ensures
                found ==> j < keys@.len() && first_seen_keys(prefix, b)[j as int] == key,
                !found ==> forall|t: int|
                    0 <= t < keys@.len() ==> first_seen_keys(prefix, b)[t] != key,
            decreases keys@.len() - j,
        {
            if keys[j].0 == kx && keys[j].1 == ky {
                assert(first_seen_keys(prefix, b)[j as int] == key);
                found = true;
                break;
            }
            j += 1;
        }
        let ghost fs = first_seen_keys(prefix, b);
        let ghost old_nodes = nodes@;
        if found {
            assert(fs.contains(key));
            assert(first_seen_keys(next, b) == fs);
            let mut node = nodes.remove(j);
            node.crashes.push(rec.duplicate());
            nodes.insert(j, node);
            assert forall|k: int| 0 <= k < nodes@.len() implies {
                &&& (#[trigger] nodes@[k]).id == k
                &&& nodes@[k].x == fs[k].0 * b
                &&& nodes@[k].y == fs[k].1 * b
                &&& nodes@[k].crashes@ == bin_members(next, b, fs[k])
            } by {
                prefix.lemma_filter_push(data@[i as int], in_bin(b, fs[k]));
                assert(prefix.push(data@[i as int]) == next);
                if k != j {
                    assert(nodes@[k] == old_nodes[k]);
                }
            }
        } else {
            assert(!fs.contains(key));
            assert(first_seen_keys(next, b) == fs.push(key));
            proof {
                lemma_unseen_bin_empty(prefix, b, key);
            }
            let mut crashes: Vec<ProcessedCrashRecord> = Vec::new();
            crashes.push(rec.duplicate());
            proof {
                lemma_round_div_of_multiple(kx as int, b);
            }
            let node = IntersectionNode { id: nodes.len(), x: cx, y: cy, crashes };
            nodes.push(node);
            keys.push((kx, ky));
            assert forall|k: int| 0 <= k < nodes@.len() implies {
                &&& (#[trigger] nodes@[k]).id == k
                &&& nodes@[k].x == fs.push(key)[k].0 * b
                &&& nodes@[k].y == fs.push(key)[k].1 * b
                &&& nodes@[k].crashes@ == bin_members(next, b, fs.push(key)[k])
            } by {
                prefix.lemma_filter_push(data@[i as int], in_bin(b, fs.push(key)[k]));
                assert(prefix.push(data@[i as int]) == next);
                if k == nodes@.len() - 1 {
                    assert(bin_members(prefix, b, key) =~= Seq::<ProcessedCrashRecord>::empty());
                    assert(nodes@[k].crashes@ =~= seq![data@[i as int]]);
                } else {
                    assert(nodes@[k] == old_nodes[k]);
                }
            }
        }
        i += 1;
    }
    assert(data@.subrange(0, data@.len() as int) == data@);
    Ok(nodes)
}

/// A member of a bin's record list falls into that bin.
proof fn lemma_member_in_bin(records: Seq<ProcessedCrashRecord>, b: int, key: (int, int), r: ProcessedCrashRecord)
    requires
        bin_members(records, b, key).contains(r),
    ensures
        bin_key(r, b) == key,
{
    let t = choose|t: int| 0 <= t < bin_members(records, b, key).len() && bin_members(records, b, key)[t] == r;
    records.lemma_filter_pred(in_bin(b, key), t);
}

/// Records whose bins are pairwise distinct each open a bin of their own.
proof fn lemma_first_seen_of_distinct(records: Seq<ProcessedCrashRecord>, b: int)
    requires
        forall|s: int, t: int|
            0 <= s < t < records.len() ==> bin_key(records[s], b) != bin_key(records[t], b),
    ensures
        first_seen_keys(records, b).len() == records.len(),
        forall|t: int| 0 <= t < records.len() ==> first_seen_keys(records, b)[t] == bin_key(records[t], b),
    decreases records.len(),
{
    if records.len() > 0 {
        let rest = records.drop_last();
        lemma_first_seen_of_distinct(rest, b);
        let prev = first_seen_keys(rest, b);
        if prev.contains(bin_key(records.last(), b)) {
            let t = choose|t: int| 0 <= t < prev.len() && prev[t] == bin_key(records.last(), b);
            assert(rest[t] == records[t]);
        }
    }
}

/// Grouping the centers of the nodes of a grouping again, at the same bin
/// size, gives as many nodes as there were.
pub proof fn lemma_regroup_centers_keeps_count(
    records: Seq<ProcessedCrashRecord>,
    b: int,
    nodes: Seq<IntersectionNode>,
    centers: Seq<ProcessedCrashRecord>,
    regrouped: Seq<IntersectionNode>,
)
    requires
        b > 0,
        grouped(records, b, nodes),
        centers.len() == nodes.len(),
        forall|k: int|
            0 <= k < centers.len() ==> (#[trigger] centers[k]).x_coordinate == nodes[k].x
                && centers[k].y_coordinate == nodes[k].y,
        grouped(centers, b, regrouped),
    ensures
        regrouped.len() == nodes.len(),
{
    let keys = first_seen_keys(records, b);
    assert forall|k: int| 0 <= k < centers.len() implies bin_key(#[trigger] centers[k], b) == keys[k] by {
        assert(nodes[k].x == keys[k].0 * b);
        lemma_round_div_of_multiple(keys[k].0, b);
        lemma_round_div_of_multiple(keys[k].1, b);
    }
    lemma_first_seen_distinct(records, b);
    assert forall|s: int, t: int| 0 <= s < t < centers.len() implies bin_key(centers[s], b) != bin_key(centers[t], b) by {
        assert(bin_key(centers[s], b) == keys[s]);
        assert(bin_key(centers[t], b) == keys[t]);
    }
    lemma_first_seen_of_distinct(centers, b);
}

/// Two records at the same location always fall into the same node: some node
/// holds both, and no node holds one without the other.
pub proof fn lemma_same_location_same_node(
    records: Seq<ProcessedCrashRecord>,
    b: int,
    nodes: Seq<IntersectionNode>,
    i: int,
    j: int,
)
    requires
        b > 0,
        grouped(records, b, nodes),
        0 <= i < records.len(),
        0 <= j < records.len(),
        records[i].x_coordinate == records[j].x_coordinate,
        records[i].y_coordinate == records[j].y_coordinate,
    ensures
        exists|k: int|
            0 <= k < nodes.len() && nodes[k].crashes@.contains(records[i])
                && nodes[k].crashes@.contains(records[j]),
        forall|k: int|
            0 <= k < nodes.len() ==> (nodes[k].crashes@.contains(records[i])
                <==> nodes[k].crashes@.contains(records[j])),
{
    let keys = first_seen_keys(records, b);
    let key = bin_key(records[i], b);
    lemma_key_seen(records, b, i);
    let k0 = choose|k: int| 0 <= k < keys.len() && keys[k] == key;
    assert(nodes[k0].crashes@ == bin_members(records, b, key));
    records.lemma_filter_contains(in_bin(b, key), i);
    records.lemma_filter_contains(in_bin(b, key), j);
    assert forall|k: int| 0 <= k < nodes.len() implies (nodes[k].crashes@.contains(records[i])
        <==> nodes[k].crashes@.contains(records[j])) by {
        assert(nodes[k].crashes@ == bin_members(records, b, keys[k]));
        if nodes[k].crashes@.contains(records[i]) {
            lemma_member_in_bin(records, b, keys[k], records[i]);
            records.lemma_filter_contains(in_bin(b, keys[k]), j);
        }
        if nodes[k].crashes@.contains(records[j]) {
            lemma_member_in_bin(records, b, keys[k], records[j]);
            records.lemma_filter_contains(in_bin(b, keys[k]), i);
        }
    }
}

/// Every record of a grouping belongs to exactly one node.
pub proof fn lemma_each_record_in_one_node(
    records: Seq<ProcessedCrashRecord>,
    b: int,
    nodes: Seq<IntersectionNode>,
    i: int,
)
    requires
        grouped(records, b, nodes),
        0 <= i < records.len(),
    ensures
        exists|k: int| 0 <= k < nodes.len() && nodes[k].crashes@.contains(records[i]),
        forall|k1: int, k2: int|
            0 <= k1 < nodes.len() && 0 <= k2 < nodes.len() && nodes[k1].crashes@.contains(records[i])
                && nodes[k2].crashes@.contains(records[i]) ==> k1 == k2,
{
    let keys = first_seen_keys(records, b);
    let key = bin_key(records[i], b);
    lemma_key_seen(records, b, i);
    lemma_first_seen_distinct(records, b);
    let k0 = choose|k: int| 0 <= k < keys.len() && keys[k] == key;
    assert(nodes[k0].crashes@ == bin_members(records, b, key));
    records.lemma_filter_contains(in_bin(b, key), i);
    assert forall|k1: int, k2: int|
        0 <= k1 < nodes.len() && 0 <= k2 < nodes.len() && nodes[k1].crashes@.contains(records[i])
            && nodes[k2].crashes@.contains(records[i]) implies k1 == k2 by {
        assert(nodes[k1].crashes@ == bin_members(records, b, keys[k1]));
        assert(nodes[k2].crashes@ == bin_members(records, b, keys[k2]));
        lemma_member_in_bin(records, b, keys[k1], records[i]);
        lemma_member_in_bin(records, b, keys[k2], records[i]);
    }
}

} // verus!
