//! What holds of a volume whatever is done to it: a file that was written
//! reads back, the other files keep what they had, both allocation tables say
//! the same, and the volume stays in order.

use super::fatfile::{FileEntry, Slot, VolumeState, CHAIN_ENDS, END_OF_CHAIN};
use vstd::prelude::*;

verus! {

// ------------------------------------------------------------ the model
/// A cluster that the volume has.
pub open spec fn usable(v: VolumeState, c: u32) -> bool {
    2 <= c < v.total_clusters + 2
}

/// The tables and the clusters fit where the boot sector puts them, and there
/// are no more clusters than FAT32 can number.
pub open spec fn fits(v: VolumeState) -> bool {
    &&& v.wf()
    &&& v.total_clusters + 2 <= CHAIN_ENDS
    &&& v.total_clusters + 2 <= v.fat_sectors * 128
    &&& (v.part_start + v.data_start + v.total_clusters * v.spc) * 512 <= v.disk.len()
}

/// What stands in a cluster.
pub open spec fn body(v: VolumeState, c: u32) -> Seq<u8> {
    super::fat32::stretch(v.disk, v.cluster_at(c), v.per() as nat)
}

/// A chain that runs through real clusters, each once, and ends as a chain
/// should.
pub open spec fn proper(v: VolumeState, c: u32) -> bool {
    let chain = v.chain(c);
    &&& chain.len() > 0
    &&& chain.no_duplicates()
    &&& forall|i: int| 0 <= i < chain.len() ==> usable(v, #[trigger] chain[i])
    &&& v.fat_entry(chain.last()) >= CHAIN_ENDS
}

/// A directory in order: behind a slot that ends it are only such slots, and
/// every part of a long name has something behind it.
pub open spec fn tidy(slots: Seq<Slot>) -> bool {
    &&& forall|i: int, j: int|
        0 <= i < j < slots.len() && (#[trigger] slots[i]).is_end() ==> (
        #[trigger] slots[j]).is_end()
    &&& forall|i: int|
        0 <= i < slots.len() && !(#[trigger] slots[i]).is_free() && slots[i].is_long() ==> i + 1
            < slots.len() && !slots[i + 1].is_free()
}

/// A volume in order.
pub open spec fn valid(v: VolumeState) -> bool {
    &&& fits(v)
    &&& proper(v, v.root_cluster)
    &&& tidy(v.root_slots())
}

/// Every table says the same of every cluster.
pub open spec fn tables_agree(v: VolumeState) -> bool {
    forall|n: int, c: u32|
        0 <= n < v.fats && usable(v, c) ==> #[trigger] v.entry_in(n, c) == v.fat_entry(c)
}

/// Two states of one volume.
pub open spec fn same_shape(v: VolumeState, w: VolumeState) -> bool {
    &&& w == (VolumeState { disk: w.disk, ..v })
    &&& w.disk.len() == v.disk.len()
}

/// The tables of two states say the same.
pub open spec fn same_tables(v: VolumeState, w: VolumeState) -> bool {
    forall|n: int, c: u32|
        0 <= n < v.fats && usable(v, c) ==> #[trigger] w.entry_in(n, c) == v.entry_in(n, c)
}

/// Where the clusters start.
pub open spec fn base(v: VolumeState) -> int {
    (v.part_start + v.data_start) * 512
}

/// Where table `n` starts.
pub open spec fn table(v: VolumeState, n: int) -> int {
    (v.part_start + v.reserved + n * v.fat_sectors) * 512
}

// ------------------------------------------------------------- geometry
proof fn lemma_cluster_at(v: VolumeState, c: u32)
    ensures
        v.cluster_at(c) == base(v) + (c - 2) * v.per(),
{
    assert((v.part_start + v.data_start + (c - 2) * v.spc) * 512 == (v.part_start + v.data_start)
        * 512 + (c - 2) * (v.spc * 512)) by (nonlinear_arith);
}

/// A real cluster lies behind the tables and on the disk.
proof fn lemma_cluster_inside(v: VolumeState, c: u32)
    requires
        fits(v),
        usable(v, c),
    ensures
        base(v) <= v.cluster_at(c),
        v.cluster_at(c) + v.per() <= v.disk.len(),
        v.per() >= 512,
        v.per() % 32 == 0,
{
    lemma_cluster_at(v, c);
    let per = v.per();
    assert((v.part_start + v.data_start + v.total_clusters * v.spc) * 512 == base(v)
        + v.total_clusters * per) by (nonlinear_arith)
        requires
            per == v.spc * 512,
            base(v) == (v.part_start + v.data_start) * 512,
    ;
    assert(0 <= (c - 2) * per && (c - 2) * per + per <= v.total_clusters * per)
        by (nonlinear_arith)
        requires
            0 <= c - 2,
            c - 1 <= v.total_clusters,
            per >= 0,
    ;
}

/// Two clusters do not overlap.
proof fn lemma_clusters_apart(v: VolumeState, c: u32, d: u32)
    requires
        v.wf(),
        c < d,
    ensures
        v.cluster_at(c) + v.per() <= v.cluster_at(d),
{
    lemma_cluster_at(v, c);
    lemma_cluster_at(v, d);
    let per = v.per();
    assert((c - 2) * per + per <= (d - 2) * per) by (nonlinear_arith)
        requires
            c < d,
            per >= 0,
    ;
}

/// The tables lie one behind the other, in front of the clusters.
proof fn lemma_tables(v: VolumeState, n: int)
    requires
        v.wf(),
        0 <= n < v.fats,
    ensures
        table(v, n) + v.fat_sectors * 512 == table(v, n + 1),
        table(v, n + 1) <= base(v),
        0 <= table(v, n),
{
    let fs = v.fat_sectors as int;
    let start = v.part_start + v.reserved;
    assert((start + n * fs) * 512 + fs * 512 == (start + (n + 1) * fs) * 512)
        by (nonlinear_arith);
    assert((n + 1) * fs <= v.fats * fs) by (nonlinear_arith)
        requires
            n + 1 <= v.fats,
            fs >= 0,
    ;
    assert(0 <= n * fs) by (nonlinear_arith)
        requires
            0 <= n,
            0 <= fs,
    ;
}

proof fn lemma_tables_ordered(v: VolumeState, m: int, n: int)
    requires
        v.wf(),
        0 <= m < n <= v.fats,
    ensures
        table(v, m + 1) <= table(v, n),
    decreases n - m,
{
    if m + 1 < n {
        lemma_tables(v, n - 1);
        lemma_tables_ordered(v, m, n - 1);
    }
}

/// The entry of a real cluster lies in its table.
proof fn lemma_entry_inside(v: VolumeState, n: int, c: u32)
    requires
        fits(v),
        usable(v, c),
        0 <= n < v.fats,
    ensures
        v.fat_at(n, c) == table(v, n) + 4 * c,
        table(v, n) <= v.fat_at(n, c),
        v.fat_at(n, c) + 4 <= table(v, n + 1),
        v.fat_at(n, c) + 4 <= base(v),
        base(v) <= v.disk.len(),
{
    lemma_tables(v, n);
    lemma_cluster_inside(v, c);
}

// --------------------------------------------------------------- writes
/// What lies outside a write is not changed by it.
proof fn lemma_outside(disk: Seq<u8>, at: int, data: Seq<u8>, p: int, len: nat)
    requires
        p + len <= at || at + data.len() <= p,
        0 <= p,
    ensures
        super::fat32::stretch(crate::bytes::overlaid(disk, at, data), p, len) == super::fat32::stretch(disk, p, len),
{
    assert(super::fat32::stretch(crate::bytes::overlaid(disk, at, data), p, len) =~= super::fat32::stretch(disk, p, len));
}

/// A write behind the tables leaves them alone.
proof fn lemma_write_keeps_tables(v: VolumeState, at: int, data: Seq<u8>)
    requires
        fits(v),
        base(v) <= at,
    ensures
        same_shape(v, v.wrote(at, data)),
        same_tables(v, v.wrote(at, data)),
{
    let w = v.wrote(at, data);
    assert forall|n: int, c: u32| 0 <= n < v.fats && usable(v, c) implies #[trigger] w.entry_in(n, c)
        == v.entry_in(n, c) by {
        lemma_entry_inside(v, n, c);
        lemma_outside(v.disk, at, data, v.fat_at(n, c), 4);
    }
}

/// A write within one cluster leaves the others alone.
proof fn lemma_write_keeps_clusters(v: VolumeState, c: u32, at: int, data: Seq<u8>, d: u32)
    requires
        fits(v),
        usable(v, c),
        usable(v, d),
        c != d,
        v.cluster_at(c) <= at,
        at + data.len() <= v.cluster_at(c) + v.per(),
    ensures
        body(v.wrote(at, data), d) == body(v, d),
{
    lemma_cluster_inside(v, d);
    if c < d {
        lemma_clusters_apart(v, c, d);
    } else {
        lemma_clusters_apart(v, d, c);
    }
    lemma_outside(v.disk, at, data, v.cluster_at(d), v.per() as nat);
}

/// What a table entry reads as once it has been written.
proof fn lemma_entry_written(v: VolumeState, n: int, c: u32, x: u32)
    requires
        fits(v),
        usable(v, c),
        0 <= n < v.fats,
    ensures
        v.wrote(v.fat_at(n, c), crate::bytes::le32(x)).entry_in(n, c) == x & 0x0FFF_FFFF,
{
    lemma_entry_inside(v, n, c);
    let w = v.wrote(v.fat_at(n, c), crate::bytes::le32(x));
    let s = super::fat32::stretch(w.disk, v.fat_at(n, c), 4);
    assert(s =~= crate::bytes::le32(x));
    crate::bytes::lemma_word32_round_trip(x);
}

/// Setting an entry in some of the tables changes it there, and no other.
proof fn lemma_fat_upto(v: VolumeState, c: u32, x: u32, k: int, n: int, d: u32)
    requires
        fits(v),
        usable(v, c),
        usable(v, d),
        0 <= k <= v.fats,
        0 <= n < v.fats,
    ensures
        same_shape(v, v.fat_upto(c, x, k)),
        v.fat_upto(c, x, k).entry_in(n, d) == (if d == c && n < k {
            x & 0x0FFF_FFFF
        } else {
            v.entry_in(n, d)
        }),
    decreases k,
{
    if k > 0 {
        lemma_fat_upto(v, c, x, k - 1, n, d);
        let w = v.fat_upto(c, x, k - 1);
        lemma_entry_inside(v, k - 1, c);
        lemma_entry_inside(v, n, d);
        if n == k - 1 && d == c {
            lemma_entry_written(w, n, c, x);
        } else {
            if n < k - 1 {
                lemma_tables_ordered(v, n, k - 1);
            } else if n > k - 1 {
                lemma_tables_ordered(v, k - 1, n);
            }
            lemma_outside(
                w.disk,
                v.fat_at(k - 1, c),
                crate::bytes::le32(x),
                v.fat_at(n, d),
                4,
            );
        }
    }
}

proof fn lemma_fat_upto_body(v: VolumeState, c: u32, x: u32, k: int, p: int, len: nat)
    requires
        fits(v),
        usable(v, c),
        0 <= k <= v.fats,
        base(v) <= p,
    ensures
        same_shape(v, v.fat_upto(c, x, k)),
        super::fat32::stretch(v.fat_upto(c, x, k).disk, p, len) == super::fat32::stretch(v.disk, p, len),
    decreases k,
{
    if k > 0 {
        lemma_fat_upto_body(v, c, x, k - 1, p, len);
        let w = v.fat_upto(c, x, k - 1);
        lemma_entry_inside(v, k - 1, c);
        lemma_outside(w.disk, v.fat_at(k - 1, c), crate::bytes::le32(x), p, len);
    }
}

/// Setting an entry changes it in every table, and nothing else.
pub proof fn lemma_with_fat(v: VolumeState, c: u32, x: u32)
    requires
        fits(v),
        usable(v, c),
    ensures
        same_shape(v, v.with_fat(c, x)),
        fits(v.with_fat(c, x)),
        forall|n: int, d: u32|
            0 <= n < v.fats && usable(v, d) ==> #[trigger] v.with_fat(c, x).entry_in(n, d) == (if d
                == c {
                x & 0x0FFF_FFFF
            } else {
                v.entry_in(n, d)
            }),
        forall|p: int, len: nat|
            base(v) <= p ==> #[trigger] super::fat32::stretch(v.with_fat(c, x).disk, p, len) == super::fat32::stretch(
                v.disk,
                p,
                len,
            ),
{
    let w = v.with_fat(c, x);
    lemma_fat_upto(v, c, x, v.fats as int, 0, c);
    assert forall|n: int, d: u32| 0 <= n < v.fats && usable(v, d) implies #[trigger] w.entry_in(n, d)
        == (if d == c {
        x & 0x0FFF_FFFF
    } else {
        v.entry_in(n, d)
    }) by {
        lemma_fat_upto(v, c, x, v.fats as int, n, d);
    }
    assert forall|p: int, len: nat| base(v) <= p implies #[trigger] super::fat32::stretch(w.disk, p, len)
        == super::fat32::stretch(v.disk, p, len) by {
        lemma_fat_upto_body(v, c, x, v.fats as int, p, len);
    }
}

/// Every table gets an entry that is set, and all of them the same.
pub proof fn law_every_table_is_written(v: VolumeState, c: u32, x: u32, n: int)
    requires
        fits(v),
        usable(v, c),
        0 <= n < v.fats,
    ensures
        v.with_fat(c, x).entry_in(n, c) == x & 0x0FFF_FFFF,
        tables_agree(v) ==> tables_agree(v.with_fat(c, x)),
{
    lemma_with_fat(v, c, x);
}

// --------------------------------------------------------------- chains
/// A chain is the same where the table says the same of its clusters.
proof fn lemma_chain_agrees(v: VolumeState, w: VolumeState, c: u32, fuel: nat)
    requires
        forall|i: int|
            0 <= i < v.chain_from(c, fuel).len() ==> w.fat_entry(
                #[trigger] v.chain_from(c, fuel)[i],
            ) == v.fat_entry(v.chain_from(c, fuel)[i]),
    ensures
        w.chain_from(c, fuel) == v.chain_from(c, fuel),
    decreases fuel,
{
    if 2 <= c < CHAIN_ENDS && fuel > 0 {
        let all = v.chain_from(c, fuel);
        let rest = v.chain_from(v.fat_entry(c), (fuel - 1) as nat);
        assert(all[0] == c);
        assert forall|i: int| 0 <= i < rest.len() implies w.fat_entry(#[trigger] rest[i])
            == v.fat_entry(rest[i]) by {
            assert(all[i + 1] == rest[i]);
        }
        lemma_chain_agrees(v, w, v.fat_entry(c), (fuel - 1) as nat);
    }
}

/// In a chain, each cluster's entry is the next one.
proof fn lemma_chain_links(v: VolumeState, c: u32, fuel: nat, i: int)
    requires
        0 <= i < v.chain_from(c, fuel).len(),
    ensures
        2 <= v.chain_from(c, fuel)[i] < CHAIN_ENDS,
        i + 1 < v.chain_from(c, fuel).len() ==> v.fat_entry(v.chain_from(c, fuel)[i])
            == v.chain_from(c, fuel)[i + 1],
    decreases fuel,
{
    let all = v.chain_from(c, fuel);
    let rest = v.chain_from(v.fat_entry(c), (fuel - 1) as nat);
    assert(all == seq![c] + rest);
    if i > 0 {
        lemma_chain_links(v, v.fat_entry(c), (fuel - 1) as nat, i - 1);
        assert(all[i] == rest[i - 1]);
        if i + 1 < all.len() {
            assert(all[i + 1] == rest[i]);
        }
    } else if rest.len() > 0 {
        assert(all[1] == rest[0]);
    }
}

/// No cluster of a proper chain looks free.
proof fn lemma_proper_not_free(v: VolumeState, c: u32, i: int)
    requires
        proper(v, c),
        0 <= i < v.chain(c).len(),
    ensures
        v.fat_entry(v.chain(c)[i]) != 0,
{
    lemma_chain_links(v, c, v.total_clusters as nat, i);
    if i + 1 < v.chain(c).len() {
        lemma_chain_links(v, c, v.total_clusters as nat, i + 1);
    }
}

/// Clusters that point each at the next, the last of them ending the chain,
/// are a chain.
proof fn lemma_chain_of(v: VolumeState, clusters: Seq<u32>, i: int, fuel: nat)
    requires
        0 <= i < clusters.len(),
        fuel >= clusters.len() - i,
        forall|j: int| 0 <= j < clusters.len() ==> 2 <= #[trigger] clusters[j] < CHAIN_ENDS,
        forall|j: int|
            0 <= j < clusters.len() - 1 ==> v.fat_entry(#[trigger] clusters[j]) == clusters[j + 1],
        v.fat_entry(clusters.last()) >= CHAIN_ENDS,
    ensures
        v.chain_from(clusters[i], fuel) == clusters.skip(i),
    decreases clusters.len() - i,
{
    if i + 1 < clusters.len() {
        lemma_chain_of(v, clusters, i + 1, (fuel - 1) as nat);
        assert(clusters.skip(i) =~= seq![clusters[i]] + clusters.skip(i + 1));
    } else {
        assert(clusters.skip(i) =~= seq![clusters[i]]);
        assert(v.chain_from(v.fat_entry(clusters[i]), (fuel - 1) as nat) =~= Seq::empty());
        assert(v.chain_from(clusters[i], fuel) =~= seq![clusters[i]]);
    }
}

/// Different real clusters are no more than the volume has.
proof fn lemma_no_more_than_there_are(v: VolumeState, s: Seq<u32>)
    requires
        s.no_duplicates(),
        forall|i: int| 0 <= i < s.len() ==> usable(v, #[trigger] s[i]),
    ensures
        s.len() <= v.total_clusters,
{
    let ints = s.map_values(|c: u32| c as int);
    assert(ints.no_duplicates()) by {
        assert forall|i: int, j: int| 0 <= i < ints.len() && 0 <= j < ints.len() && i != j implies
            ints[i] != ints[j] by {
            assert(s[i] != s[j]);
        }
    }
    let all = vstd::set_lib::set_int_range(2, v.total_clusters + 2);
    vstd::set_lib::lemma_int_range(2, v.total_clusters + 2);
    ints.unique_seq_to_set();
    assert(ints.to_set().subset_of(all)) by {
        assert forall|x: int| ints.to_set().contains(x) implies all.contains(x) by {
            let i = choose|i: int| 0 <= i < ints.len() && ints[i] == x;
            assert(usable(v, s[i]));
        }
    }
    vstd::set_lib::lemma_len_subset(ints.to_set(), all);
}

// ---------------------------------------------------------------- slots
proof fn lemma_slots_len(v: VolumeState, chain: Seq<u32>)
    requires
        v.wf(),
    ensures
        v.slots_of(chain).len() == chain.len() * (v.per() / 32),
    decreases chain.len(),
{
    let m = v.per() / 32;
    if chain.len() > 0 {
        lemma_slots_len(v, chain.drop_last());
        assert((chain.len() - 1) * m + m == chain.len() * m) by (nonlinear_arith);
    } else {
        assert(chain.len() * m == 0) by (nonlinear_arith)
            requires
                chain.len() == 0,
        ;
    }
}

/// Which cluster of a chain a slot lies in, and where in it.
proof fn lemma_slot_home(v: VolumeState, chain: Seq<u32>, j: int) -> (q: int)
    requires
        v.wf(),
        0 <= j < v.slots_of(chain).len(),
    ensures
        0 <= q < chain.len(),
        q * (v.per() / 32) <= j < q * (v.per() / 32) + v.per() / 32,
        v.slots_of(chain)[j] == v.slot(v.cluster_at(chain[q]) + 32 * (j - q * (v.per() / 32))),
    decreases chain.len(),
{
    let m = v.per() / 32;
    let head = v.slots_of(chain.drop_last());
    lemma_slots_len(v, chain);
    lemma_slots_len(v, chain.drop_last());
    if j < head.len() {
        let q = lemma_slot_home(v, chain.drop_last(), j);
        assert(v.slots_of(chain)[j] == head[j]);
        assert(chain.drop_last()[q] == chain[q]);
        q
    } else {
        let q = chain.len() - 1;
        assert(v.slots_of(chain)[j] == v.cluster_slots(chain.last())[j - head.len()]);
        assert((chain.len() - 1) * m + m == chain.len() * m) by (nonlinear_arith);
        q
    }
}

/// A slot lies within a cluster of its chain.
proof fn lemma_slot_inside(v: VolumeState, chain: Seq<u32>, j: int) -> (q: int)
    requires
        fits(v),
        0 <= j < v.slots_of(chain).len(),
        forall|i: int| 0 <= i < chain.len() ==> usable(v, #[trigger] chain[i]),
    ensures
        0 <= q < chain.len(),
        v.cluster_at(chain[q]) <= v.slots_of(chain)[j].at,
        v.slots_of(chain)[j].at + 32 <= v.cluster_at(chain[q]) + v.per(),
        base(v) <= v.slots_of(chain)[j].at,
        v.slots_of(chain)[j].at + 32 <= v.disk.len(),
        v.slots_of(chain)[j] == v.slot(v.slots_of(chain)[j].at),
        v.slots_of(chain)[j].bytes.len() == 32,
{
    let q = lemma_slot_home(v, chain, j);
    lemma_cluster_inside(v, chain[q]);
    q
}

/// Two slots do not overlap.
proof fn lemma_slots_apart(v: VolumeState, chain: Seq<u32>, i: int, j: int)
    requires
        fits(v),
        chain.no_duplicates(),
        0 <= i < j < v.slots_of(chain).len(),
        forall|k: int| 0 <= k < chain.len() ==> usable(v, #[trigger] chain[k]),
    ensures
        v.slots_of(chain)[i].at + 32 <= v.slots_of(chain)[j].at || v.slots_of(chain)[j].at + 32
            <= v.slots_of(chain)[i].at,
{
    let m = v.per() / 32;
    let p = lemma_slot_home(v, chain, i);
    let q = lemma_slot_home(v, chain, j);
    if p != q {
        lemma_slot_inside(v, chain, i);
        assert(chain[p] != chain[q]);
        lemma_cluster_inside(v, chain[p]);
        lemma_cluster_inside(v, chain[q]);
        if chain[p] < chain[q] {
            lemma_clusters_apart(v, chain[p], chain[q]);
        } else {
            lemma_clusters_apart(v, chain[q], chain[p]);
        }
    }
}

/// The slots of a chain are at the same places in every state of a volume.
proof fn lemma_same_places(v: VolumeState, w: VolumeState, chain: Seq<u32>)
    requires
        v.wf(),
        same_shape(v, w),
    ensures
        w.slots_of(chain).len() == v.slots_of(chain).len(),
        forall|j: int|
            0 <= j < v.slots_of(chain).len() ==> #[trigger] w.slots_of(chain)[j] == w.slot(
                v.slots_of(chain)[j].at,
            ),
{
    lemma_slots_len(v, chain);
    lemma_slots_len(w, chain);
    assert forall|j: int| 0 <= j < v.slots_of(chain).len() implies #[trigger] w.slots_of(chain)[j]
        == w.slot(v.slots_of(chain)[j].at) by {
        let p = lemma_slot_home(v, chain, j);
        let q = lemma_slot_home(w, chain, j);
        let m = v.per() / 32;
        assert(p == q) by (nonlinear_arith)
            requires
                p * m <= j < p * m + m,
                q * m <= j < q * m + m,
        ;
    }
}

/// Slots say the same where their clusters hold the same.
proof fn lemma_slots_agree(v: VolumeState, w: VolumeState, chain: Seq<u32>)
    requires
        fits(v),
        same_shape(v, w),
        forall|i: int| 0 <= i < chain.len() ==> usable(v, #[trigger] chain[i]),
        forall|i: int| 0 <= i < chain.len() ==> body(w, #[trigger] chain[i]) == body(v, chain[i]),
    ensures
        w.slots_of(chain) == v.slots_of(chain),
{
    lemma_same_places(v, w, chain);
    assert forall|j: int| 0 <= j < v.slots_of(chain).len() implies w.slots_of(chain)[j]
        == v.slots_of(chain)[j] by {
        let q = lemma_slot_inside(v, chain, j);
        let c = chain[q];
        let at = v.slots_of(chain)[j].at;
        assert(body(w, c) == body(v, c));
        assert(super::fat32::stretch(w.disk, at, 32) =~= super::fat32::stretch(v.disk, at, 32))
            by {
            assert forall|k: int| 0 <= k < 32 implies super::fat32::stretch(w.disk, at, 32)[k]
                == super::fat32::stretch(v.disk, at, 32)[k] by {
                let off = at - v.cluster_at(c) + k;
                assert(body(w, c)[off] == body(v, c)[off]);
            }
        }
    }
    assert(w.slots_of(chain) =~= v.slots_of(chain));
}

// ------------------------------------------------------------- the data
/// A number that a table can hold is kept whole.
proof fn lemma_kept_whole(x: u32)
    ensures
        x <= END_OF_CHAIN ==> x & 0x0FFF_FFFF == x,
{
    assert(x <= 0x0FFF_FFFF ==> x & 0x0FFF_FFFF == x) by (bit_vector);
}

/// Writing a file's data fills its clusters and touches nothing else.
proof fn lemma_blocks(v: VolumeState, clusters: Seq<u32>, data: Seq<u8>, n: int)
    requires
        fits(v),
        clusters.no_duplicates(),
        0 <= n <= clusters.len(),
        forall|i: int| 0 <= i < clusters.len() ==> usable(v, #[trigger] clusters[i]),
    ensures
        same_shape(v, v.with_blocks(clusters, data, n)),
        same_tables(v, v.with_blocks(clusters, data, n)),
        forall|d: u32|
            usable(v, d) && !clusters.contains(d) ==> #[trigger] body(
                v.with_blocks(clusters, data, n),
                d,
            ) == body(v, d),
        forall|i: int|
            0 <= i < n ==> body(v.with_blocks(clusters, data, n), #[trigger] clusters[i])
                == super::fatfile::block_of(data, v.per(), i),
    decreases n,
{
    if n > 0 {
        lemma_blocks(v, clusters, data, n - 1);
        let w = v.with_blocks(clusters, data, n - 1);
        let c = clusters[n - 1];
        let at = v.cluster_at(c);
        let block = super::fatfile::block_of(data, v.per(), n - 1);
        lemma_cluster_inside(v, c);
        lemma_write_keeps_tables(w, at, block);
        let x = v.with_blocks(clusters, data, n);
        assert forall|d: u32| usable(v, d) && !clusters.contains(d) implies #[trigger] body(x, d)
            == body(v, d) by {
            assert(clusters.contains(c)) by {
                assert(clusters[n - 1] == c);
            }
            lemma_write_keeps_clusters(w, c, at, block, d);
        }
        assert forall|i: int| 0 <= i < n implies body(x, #[trigger] clusters[i])
            == super::fatfile::block_of(data, v.per(), i) by {
            if i < n - 1 {
                lemma_write_keeps_clusters(w, c, at, block, clusters[i]);
            } else {
                assert(body(x, c) =~= block);
            }
        }
    }
}

/// Linking clusters sets their entries and touches nothing else.
proof fn lemma_linked(v: VolumeState, clusters: Seq<u32>, n: int)
    requires
        fits(v),
        clusters.no_duplicates(),
        0 <= n < clusters.len(),
        forall|i: int| 0 <= i < clusters.len() ==> usable(v, #[trigger] clusters[i]),
    ensures
        same_shape(v, v.linked(clusters, n)),
        forall|t: int, d: u32|
            0 <= t < v.fats && usable(v, d) && !clusters.take(n).contains(d)
                ==> #[trigger] v.linked(clusters, n).entry_in(t, d) == v.entry_in(t, d),
        forall|t: int, i: int|
            0 <= t < v.fats && 0 <= i < n ==> #[trigger] v.linked(clusters, n).entry_in(
                t,
                clusters[i],
            ) == clusters[i + 1],
        forall|p: int, len: nat|
            base(v) <= p ==> #[trigger] super::fat32::stretch(
                v.linked(clusters, n).disk,
                p,
                len,
            ) == super::fat32::stretch(v.disk, p, len),
    decreases n,
{
    if n > 0 {
        lemma_linked(v, clusters, n - 1);
        let w = v.linked(clusters, n - 1);
        let x = v.linked(clusters, n);
        lemma_with_fat(w, clusters[n - 1], clusters[n]);
        lemma_kept_whole(clusters[n]);
        assert(usable(v, clusters[n]));
        assert forall|t: int, d: u32|
            0 <= t < v.fats && usable(v, d) && !clusters.take(n).contains(d) implies
            #[trigger] x.entry_in(t, d) == v.entry_in(t, d) by {
            assert(clusters.take(n)[n - 1] == clusters[n - 1]);
            assert(!clusters.take(n - 1).contains(d)) by {
                let few = clusters.take(n - 1);
                if few.contains(d) {
                    let k = choose|k: int| 0 <= k < few.len() && few[k] == d;
                    assert(clusters.take(n)[k] == d);
                }
            }
            assert(w.entry_in(t, d) == v.entry_in(t, d));
        }
        assert forall|t: int, i: int| 0 <= t < v.fats && 0 <= i < n implies #[trigger] x.entry_in(
            t,
            clusters[i],
        ) == clusters[i + 1] by {
            assert(usable(v, clusters[i]));
            if i < n - 1 {
                assert(w.entry_in(t, clusters[i]) == clusters[i + 1]);
            }
        }
    }
}

/// What storing a file's data does to the volume.
pub open spec fn holds(
    v: VolumeState,
    w: VolumeState,
    clusters: Seq<u32>,
    data: Seq<u8>,
) -> bool {
    &&& same_shape(v, w)
    &&& forall|t: int, d: u32|
        0 <= t < v.fats && usable(v, d) && !clusters.contains(d) ==> #[trigger] w.entry_in(t, d)
            == v.entry_in(t, d)
    &&& forall|t: int, i: int|
        0 <= t < v.fats && 0 <= i < clusters.len() ==> #[trigger] w.entry_in(t, clusters[i]) == (
        if i + 1 < clusters.len() {
            clusters[i + 1]
        } else {
            END_OF_CHAIN
        })
    &&& forall|d: u32|
        usable(v, d) && !clusters.contains(d) ==> #[trigger] body(w, d) == body(v, d)
    &&& forall|i: int|
        0 <= i < clusters.len() ==> body(w, #[trigger] clusters[i]) == super::fatfile::block_of(
            data,
            v.per(),
            i,
        )
}

proof fn lemma_stored(v: VolumeState, clusters: Seq<u32>, data: Seq<u8>)
    requires
        fits(v),
        clusters.len() > 0,
        clusters.no_duplicates(),
        forall|i: int| 0 <= i < clusters.len() ==> usable(v, #[trigger] clusters[i]),
    ensures
        holds(v, v.stored(clusters, data), clusters, data),
        fits(v.stored(clusters, data)),
{
    reveal(VolumeState::stored);
    let k = clusters.len() as int;
    let b = v.with_blocks(clusters, data, k);
    let l = b.linked(clusters, k - 1);
    let w = v.stored(clusters, data);
    lemma_blocks(v, clusters, data, k);
    lemma_linked(b, clusters, k - 1);
    lemma_with_fat(l, clusters.last(), END_OF_CHAIN);
    lemma_kept_whole(END_OF_CHAIN);
    assert forall|t: int, d: u32|
        0 <= t < v.fats && usable(v, d) && !clusters.contains(d) implies #[trigger] w.entry_in(t, d)
        == v.entry_in(t, d) by {
        assert(clusters[k - 1] == clusters.last());
        assert(!clusters.take(k - 1).contains(d)) by {
            let few = clusters.take(k - 1);
            if few.contains(d) {
                let j = choose|j: int| 0 <= j < few.len() && few[j] == d;
                assert(clusters[j] == d);
            }
        }
        assert(l.entry_in(t, d) == b.entry_in(t, d));
        assert(b.entry_in(t, d) == v.entry_in(t, d));
    }
    assert forall|t: int, i: int| 0 <= t < v.fats && 0 <= i < k implies #[trigger] w.entry_in(
        t,
        clusters[i],
    ) == (if i + 1 < k {
        clusters[i + 1]
    } else {
        END_OF_CHAIN
    }) by {
        assert(usable(v, clusters[i]));
        if i + 1 < k {
            assert(l.entry_in(t, clusters[i]) == clusters[i + 1]);
            assert(clusters[i] != clusters[k - 1]);
        }
    }
    assert forall|d: u32| usable(v, d) implies #[trigger] body(w, d) == body(b, d) by {
        lemma_cluster_inside(v, d);
        assert(super::fat32::stretch(w.disk, v.cluster_at(d), v.per() as nat)
            == super::fat32::stretch(l.disk, v.cluster_at(d), v.per() as nat));
        assert(super::fat32::stretch(l.disk, v.cluster_at(d), v.per() as nat)
            == super::fat32::stretch(b.disk, v.cluster_at(d), v.per() as nat));
    }
    assert forall|i: int| 0 <= i < k implies body(w, #[trigger] clusters[i])
        == super::fatfile::block_of(data, v.per(), i) by {
        assert(usable(v, clusters[i]));
    }
}

/// The clusters of a file cover its data.
proof fn lemma_clusters_cover(len: int, per: int)
    requires
        0 <= len,
        per > 0,
    ensures
        len <= super::fatfile::clusters_for(len, per) * per,
        super::fatfile::clusters_for(len, per) >= 1,
{
    if len > 0 {
        assert(len <= (len + per - 1) / per * per && (len + per - 1) / per >= 1)
            by (nonlinear_arith)
            requires
                len > 0,
                per > 0,
        ;
    }
}

/// What the first `n` clusters of a file hold: the data, and zeroes behind it.
proof fn lemma_content(v: VolumeState, clusters: Seq<u32>, data: Seq<u8>, n: int)
    requires
        v.wf(),
        0 <= n <= clusters.len(),
        forall|i: int|
            0 <= i < clusters.len() ==> body(v, #[trigger] clusters[i])
                == super::fatfile::block_of(data, v.per(), i),
    ensures
        v.content(clusters, n) == Seq::new(
            (n * v.per()) as nat,
            |j: int|
                if j < data.len() {
                    data[j]
                } else {
                    0
                },
        ),
    decreases n,
{
    let per = v.per();
    if n > 0 {
        lemma_content(v, clusters, data, n - 1);
        assert(body(v, clusters[n - 1]) == super::fatfile::block_of(data, per, n - 1));
        assert((n - 1) * per + per == n * per && (n - 1) * per >= 0) by (nonlinear_arith)
            requires
                n >= 1,
                per >= 0,
        ;
    } else {
        assert(n * per == 0) by (nonlinear_arith)
            requires
                n == 0,
        ;
    }
    assert(v.content(clusters, n) =~= Seq::new(
        (n * per) as nat,
        |j: int|
            if j < data.len() {
                data[j]
            } else {
                0
            },
    ));
}

/// A file's bytes are the data its clusters were filled with.
proof fn lemma_file_bytes(v: VolumeState, clusters: Seq<u32>, data: Seq<u8>, e: FileEntry)
    requires
        v.wf(),
        v.chain(e.cluster) == clusters,
        clusters.len() == super::fatfile::clusters_for(data.len() as int, v.per()),
        e.size == data.len(),
        forall|i: int|
            0 <= i < clusters.len() ==> body(v, #[trigger] clusters[i])
                == super::fatfile::block_of(data, v.per(), i),
    ensures
        v.file_bytes(e) == data,
{
    lemma_clusters_cover(data.len() as int, v.per());
    lemma_content(v, clusters, data, clusters.len() as int);
    let all = v.content(clusters, clusters.len() as int);
    if all.len() <= e.size {
        assert(all =~= data);
    } else {
        assert(all.take(e.size as int) =~= data);
    }
}

// ------------------------------------------------------------- listings
/// The parts of a long name gathered once all the slots have been read.
pub open spec fn pending(slots: Seq<Slot>) -> Seq<Seq<u8>>
    decreases slots.len(),
{
    if slots.len() == 0 || slots.last().is_free() || !slots.last().is_long() {
        Seq::empty()
    } else {
        pending(slots.drop_last()).push(slots.last().bytes)
    }
}

/// The files in slots none of which ends the directory.
pub open spec fn listing(slots: Seq<Slot>) -> Seq<FileEntry>
    decreases slots.len(),
{
    if slots.len() == 0 {
        Seq::empty()
    } else if slots.last().is_free() || slots.last().is_long() || !slots.last().is_file() {
        listing(slots.drop_last())
    } else {
        listing(slots.drop_last()).push(slots.last().file(pending(slots.drop_last())))
    }
}

/// A long name is shown only for the 8.3 entry it belongs to: where the
/// checksum in one of its parts is not of that entry's name, the file appears
/// under its 8.3 alias.
pub proof fn law_a_stray_long_name_is_ignored(s: Slot, parts: Seq<Seq<u8>>, i: int)
    requires
        0 <= i < parts.len(),
        parts[i][13] != super::fatname::checksum_of(s.bytes.take(11)),
    ensures
        s.file(parts).name == super::fatname::short_text(s.bytes),
        s.file(parts) == s.file(Seq::empty()),
{
    assert(!s.owns(parts));
}

/// Where the directory ends: at the first slot that says so.
pub open spec fn end_of(slots: Seq<Slot>, i: int) -> int
    decreases slots.len() - i,
{
    if i < 0 || i >= slots.len() || slots[i].is_end() {
        i
    } else {
        end_of(slots, i + 1)
    }
}

proof fn lemma_end_of(slots: Seq<Slot>, i: int)
    requires
        0 <= i <= slots.len(),
    ensures
        i <= end_of(slots, i) <= slots.len(),
        forall|j: int| i <= j < end_of(slots, i) ==> !(#[trigger] slots[j]).is_end(),
        end_of(slots, i) < slots.len() ==> slots[end_of(slots, i)].is_end(),
    decreases slots.len() - i,
{
    if i < slots.len() && !slots[i].is_end() {
        lemma_end_of(slots, i + 1);
    }
}

/// Reading slot after slot, and reading them as a whole, come to the same.
proof fn lemma_listed(slots: Seq<Slot>, n: int)
    requires
        0 <= n <= slots.len(),
        forall|i: int| 0 <= i < n ==> !(#[trigger] slots[i]).is_end(),
    ensures
        super::fatfile::listed(slots, 0, Seq::empty()) == listing(slots.take(n))
            + super::fatfile::listed(slots, n, pending(slots.take(n))),
    decreases n,
{
    let all = super::fatfile::listed(slots, 0, Seq::empty());
    if n == 0 {
        assert(slots.take(0) =~= Seq::empty());
        assert(listing(slots.take(0)) =~= Seq::empty());
        assert(pending(slots.take(0)) =~= Seq::empty());
        assert(Seq::<FileEntry>::empty() + all =~= all);
    } else {
        lemma_listed(slots, n - 1);
        let head = slots.take(n - 1);
        assert(slots.take(n).drop_last() =~= head);
        let s = slots[n - 1];
        assert(slots.take(n).last() == s);
        assert(!s.is_end());
        let parts = pending(head);
        let rest = super::fatfile::listed(slots, n, pending(slots.take(n)));
        if s.is_deleted() || s.is_long() || !s.is_file() {
            assert(super::fatfile::listed(slots, n - 1, parts) == rest);
        } else {
            assert(super::fatfile::listed(slots, n - 1, parts) == seq![s.file(parts)] + rest);
            assert(listing(head) + (seq![s.file(parts)] + rest) =~= listing(head).push(
                s.file(parts),
            ) + rest);
        }
    }
}

/// The files of a directory are those in front of its end.
proof fn lemma_files(slots: Seq<Slot>)
    ensures
        super::fatfile::listed(slots, 0, Seq::empty()) == listing(slots.take(end_of(slots, 0))),
{
    lemma_end_of(slots, 0);
    let z = end_of(slots, 0);
    lemma_listed(slots, z);
    assert(super::fatfile::listed(slots, z, pending(slots.take(z))) =~= Seq::empty());
    assert(listing(slots.take(z)) + Seq::<FileEntry>::empty() =~= listing(slots.take(z)));
}

/// Slots read one stretch after another, when no name lies across.
proof fn lemma_listing_append(x: Seq<Slot>, y: Seq<Slot>)
    requires
        pending(x).len() == 0,
    ensures
        listing(x + y) == listing(x) + listing(y),
        pending(x + y) == pending(y),
    decreases y.len(),
{
    if y.len() == 0 {
        assert(x + y =~= x);
        assert(listing(x) + listing(y) =~= listing(x));
        assert(pending(x) =~= Seq::empty());
    } else {
        lemma_listing_append(x, y.drop_last());
        assert((x + y).drop_last() =~= x + y.drop_last());
        assert((x + y).last() == y.last());
        assert(listing(x + y) =~= listing(x) + listing(y));
    }
}

/// Free slots have no files in them.
proof fn lemma_listing_free(f: Seq<Slot>)
    requires
        forall|i: int| 0 <= i < f.len() ==> (#[trigger] f[i]).is_free(),
    ensures
        listing(f) == Seq::<FileEntry>::empty(),
        pending(f) == Seq::<Seq<u8>>::empty(),
    decreases f.len(),
{
    if f.len() > 0 {
        assert(f.last() == f[f.len() - 1]);
        assert forall|i: int| 0 <= i < f.drop_last().len() implies (
        #[trigger] f.drop_last()[i]).is_free() by {
            assert(f.drop_last()[i] == f[i]);
        }
        lemma_listing_free(f.drop_last());
    }
}

/// The first run is a run, and no earlier one is.
proof fn lemma_first_run(slots: Seq<Slot>, count: int, from: int)
    requires
        0 <= from,
        count > 0,
    ensures
        match super::fatfile::first_run(slots, count, from) {
            Some(k) => {
                &&& from <= k
                &&& super::fatfile::run_free(slots, k, count)
                &&& forall|j: int|
                    from <= j < k ==> !#[trigger] super::fatfile::run_free(slots, j, count)
            },
            None => true,
        },
    decreases slots.len() - from,
{
    if from + count <= slots.len() && !super::fatfile::run_free(slots, from, count) {
        lemma_first_run(slots, count, from + 1);
    }
}

/// The slots of a new file: the parts of its long name, and the 8.3 entry.
pub open spec fn file_slots(new: Seq<Slot>, f: FileEntry) -> bool {
    &&& new.len() > 0
    &&& forall|i: int| 0 <= i < new.len() ==> !(#[trigger] new[i]).is_free()
    &&& forall|i: int| 0 <= i < new.len() - 1 ==> (#[trigger] new[i]).is_long()
    &&& !new.last().is_long()
    &&& listing(new) == seq![f]
}

/// A file put into free slots shows among the others, which stay as they are,
/// and the directory stays in order.
proof fn lemma_inserted(
    s: Seq<Slot>,
    t: Seq<Slot>,
    new: Seq<Slot>,
    f: FileEntry,
    k: int,
) -> (p: int)
    requires
        tidy(s),
        file_slots(new, f),
        super::fatfile::first_run(s, new.len() as int, 0) == Some(k),
        t.len() == s.len(),
        forall|j: int|
            0 <= j < s.len() ==> #[trigger] t[j] == (if k <= j < k + new.len() {
                new[j - k]
            } else {
                s[j]
            }),
    ensures
        ({
            let old = super::fatfile::listed(s, 0, Seq::empty());
            &&& 0 <= p <= old.len()
            &&& super::fatfile::listed(t, 0, Seq::empty()) == old.take(p) + seq![f] + old.skip(p)
        }),
        tidy(t),
{
    let count = new.len() as int;
    lemma_first_run(s, count, 0);
    lemma_end_of(s, 0);
    lemma_end_of(t, 0);
    lemma_files(s);
    lemma_files(t);
    let z = end_of(s, 0);
    let y = end_of(t, 0);
    // The run starts no later than the end of the directory.
    assert(k <= z) by {
        if k > z {
            assert forall|i: int| z <= i < z + count implies (#[trigger] s[i]).is_free() by {
                if i > z {
                    assert(s[z].is_end());
                }
            }
            assert(super::fatfile::run_free(s, z, count));
        }
    }
    // The directory now ends behind the run at the earliest.
    assert(y == (if z < k + count {
        k + count
    } else {
        z
    })) by {
        let w = if z < k + count {
            k + count
        } else {
            z
        };
        assert forall|j: int| 0 <= j < w implies !(#[trigger] t[j]).is_end() by {
            if k <= j < k + count {
                assert(!new[j - k].is_free());
            }
        }
        if w < t.len() {
            assert(t[w] == s[w]);
            assert(s[w].is_end()) by {
                if w > z {
                    assert(s[z].is_end());
                }
            }
        }
        if y < w {
            assert(t[y].is_end());
        }
        if y > w {
            assert(!t[w].is_end());
        }
    }
    let a = s.take(k);
    assert(pending(a) =~= Seq::empty()) by {
        if k > 0 {
            assert(a.last() == s[k - 1]);
            assert(s[k].is_free());
        }
    }
    let mid = if z < k + count {
        Seq::<Slot>::empty()
    } else {
        s.subrange(k + count, z)
    };
    let gap = if z < k + count {
        s.subrange(k, z)
    } else {
        s.subrange(k, k + count)
    };
    assert forall|i: int| 0 <= i < gap.len() implies (#[trigger] gap[i]).is_free() by {
        assert(s[k + i].is_free());
    }
    assert(s.take(z) =~= a + gap + mid);
    assert(t.take(y) =~= a + new + mid);
    assert(pending(new) =~= Seq::empty());
    lemma_listing_free(gap);
    lemma_listing_append(a, gap);
    lemma_listing_append(a + gap, mid);
    lemma_listing_append(a, new);
    lemma_listing_append(a + new, mid);
    let old = super::fatfile::listed(s, 0, Seq::empty());
    let p = listing(a).len() as int;
    assert(old =~= listing(a) + listing(mid));
    assert(old.take(p) =~= listing(a));
    assert(old.skip(p) =~= listing(mid));
    assert(super::fatfile::listed(t, 0, Seq::empty()) =~= old.take(p) + seq![f] + old.skip(p));
    lemma_inserted_tidy(s, t, new, f, k);
    p
}

proof fn lemma_inserted_tidy(
    s: Seq<Slot>,
    t: Seq<Slot>,
    new: Seq<Slot>,
    f: FileEntry,
    k: int,
)
    requires
        tidy(s),
        file_slots(new, f),
        super::fatfile::first_run(s, new.len() as int, 0) == Some(k),
        t.len() == s.len(),
        forall|j: int|
            0 <= j < s.len() ==> #[trigger] t[j] == (if k <= j < k + new.len() {
                new[j - k]
            } else {
                s[j]
            }),
    ensures
        tidy(t),
{
    let count = new.len() as int;
    lemma_first_run(s, count, 0);
    assert forall|i: int, j: int|
        0 <= i < j < t.len() && (#[trigger] t[i]).is_end() implies (#[trigger] t[j]).is_end() by {
        if k <= i < k + count {
            assert(!new[i - k].is_free());
        } else {
            assert(s[i].is_end());
            assert(s[j].is_end());
            if i < k {
                assert forall|x: int| i <= x < i + count implies (#[trigger] s[x]).is_free() by {
                    if x > i {
                        assert(s[i].is_end());
                    }
                }
                assert(super::fatfile::run_free(s, i, count));
            }
        }
    }
    assert forall|i: int|
        0 <= i < t.len() && !(#[trigger] t[i]).is_free() && t[i].is_long() implies i + 1 < t.len()
        && !t[i + 1].is_free() by {
        if k <= i < k + count {
            if i == k + count - 1 {
                assert(new.last() == new[i - k]);
            } else {
                assert(!new[i + 1 - k].is_free());
            }
        } else {
            assert(!s[i + 1].is_free());
            if i + 1 == k {
                assert(s[k].is_free());
            }
        }
    }
}

/// A file put into a cluster that the directory was given shows behind the
/// others, and the directory stays in order.
proof fn lemma_appended(s: Seq<Slot>, t: Seq<Slot>, new: Seq<Slot>, f: FileEntry)
    requires
        tidy(s),
        file_slots(new, f),
        t.len() >= s.len() + new.len(),
        forall|j: int|
            0 <= j < s.len() ==> (if s[j].is_end() {
                (#[trigger] t[j]).is_deleted()
            } else {
                t[j] == s[j]
            }),
        forall|j: int| 0 <= j < new.len() ==> t[s.len() + j] == #[trigger] new[j],
        forall|j: int| s.len() + new.len() <= j < t.len() ==> (#[trigger] t[j]).is_end(),
    ensures
        super::fatfile::listed(t, 0, Seq::empty()) == super::fatfile::listed(
            s,
            0,
            Seq::empty(),
        ).push(f),
        tidy(t),
{
    let n = s.len() as int;
    let count = new.len() as int;
    lemma_end_of(s, 0);
    lemma_end_of(t, 0);
    lemma_files(s);
    lemma_files(t);
    let z = end_of(s, 0);
    let y = end_of(t, 0);
    assert forall|j: int| 0 <= j < n + count implies !(#[trigger] t[j]).is_end() by {
        if j >= n {
            assert(t[n + (j - n)] == new[j - n]);
            assert(!new[j - n].is_free());
        }
    }
    assert(y == n + count) by {
        if y < n + count {
            assert(t[y].is_end());
        }
        if y > n + count {
            assert(!t[n + count].is_end());
        }
    }
    let a = s.take(z);
    let gap = t.subrange(z, n);
    assert forall|i: int| 0 <= i < gap.len() implies (#[trigger] gap[i]).is_free() by {
        assert(s[z].is_end());
        assert(s[z + i].is_end());
        assert(t[z + i].is_deleted());
    }
    assert(t.take(y) =~= a + gap + new);
    lemma_listing_free(gap);
    if z < n {
        // No name lies across the end of the directory.
        assert(pending(a) =~= Seq::empty()) by {
            if z > 0 {
                assert(a.last() == s[z - 1]);
                assert(s[z].is_end());
            }
        }
    } else {
        assert(pending(a) =~= Seq::empty()) by {
            if z > 0 {
                assert(a.last() == s[z - 1]);
            }
        }
    }
    lemma_listing_append(a, gap);
    lemma_listing_append(a + gap, new);
    assert(listing(t.take(y)) =~= listing(a).push(f));
    // In order.
    assert forall|i: int, j: int|
        0 <= i < j < t.len() && (#[trigger] t[i]).is_end() implies (#[trigger] t[j]).is_end() by {
        if i < n + count {
            assert(!t[i].is_end());
        }
    }
    assert forall|i: int|
        0 <= i < t.len() && !(#[trigger] t[i]).is_free() && t[i].is_long() implies i + 1 < t.len()
        && !t[i + 1].is_free() by {
        if i < n {
            assert(!s[i + 1].is_free());
            assert(t[i + 1] == s[i + 1]);
        } else if i < n + count {
            assert(t[n + (i - n)] == new[i - n]);
            if i == n + count - 1 {
                assert(new.last() == new[i - n]);
            } else {
                assert(t[n + (i + 1 - n)] == new[i + 1 - n]);
            }
        }
    }
}

// ------------------------------------------------------- a file's entries
/// A name whose entries can be told from free slots, and read back.
pub open spec fn readable(name: Seq<char>) -> bool {
    let u = super::fatname::units(name);
    let parts = super::fatname::parts_for(u.len() as int);
    &&& name.len() > 0
    &&& super::fatname::divides(u)
    &&& forall|part: int|
        0 <= part < parts ==> #[trigger] super::fatname::mark_of(parts, part) != 0
            && super::fatname::mark_of(parts, part) != 0xE5
}

/// The characters an alias keeps are printable.
proof fn lemma_kept(s: Seq<char>, i: int)
    requires
        0 <= i < super::fatname::kept(s).len(),
    ensures
        0x21 <= super::fatname::kept(s)[i] <= 0x7E,
    decreases s.len(),
{
    let head = super::fatname::kept(s.drop_last());
    lemma_kept_character(s.last());
    if i < head.len() {
        lemma_kept(s.drop_last(), i);
    }
}

proof fn lemma_kept_character(c: char)
    ensures
        super::fatname::keeps(c) ==> 0x21 <= super::fat32::upper(c as u8) <= 0x7E,
{
}

/// An alias is eleven bytes, and its first is no mark of a free slot.
proof fn lemma_alias(name: Seq<char>, n: u32)
    ensures
        super::fatname::alias(name, n).len() == 11,
        0x21 <= super::fatname::alias(name, n)[0] <= 0x7E,
{
    let stem = super::fatname::kept(super::fatname::stem_of(name));
    super::fatname::lemma_tail_len(n);
    if super::fatname::head_of(stem, super::fatname::tail_of(n)) > 0 {
        lemma_kept(super::fatname::stem_of(name), 0);
    }
}

proof fn lemma_alias_from(slots: Seq<Slot>, name: Seq<char>, n: int)
    ensures
        super::fatfile::alias_from(slots, name, n).len() == 11,
        0x21 <= super::fatfile::alias_from(slots, name, n)[0] <= 0x7E,
    decreases 1000 - n,
{
    if n >= 1000 {
        lemma_alias(name, 999);
    } else {
        lemma_alias(name, n as u32);
        lemma_alias_from(slots, name, n + 1);
    }
}

proof fn lemma_halves(c: u32)
    ensures
        crate::bytes::of_le32(
            (c as u16) as u8,
            ((c as u16) >> 8) as u8,
            ((c >> 16) as u16) as u8,
            (((c >> 16) as u16) >> 8) as u8,
        ) == c,
        0x20u8 & 0x08 == 0,
        0x20u8 & 0x10 == 0,
{
    assert((((c as u16) as u8) as u32) | ((((c as u16) >> 8) as u8) as u32) << 8 | ((((c
        >> 16) as u16) as u8) as u32) << 16 | (((((c >> 16) as u16) >> 8) as u8) as u32) << 24 == c
        && 0x20u8 & 0x08 == 0 && 0x20u8 & 0x10 == 0) by (bit_vector);
}

/// An 8.3 entry gives back what it was made of.
proof fn lemma_short_slot(
    alias: Seq<u8>,
    cluster: u32,
    size: u32,
    at: int,
    parts: Seq<Seq<u8>>,
    name: Seq<char>,
)
    requires
        alias.len() == 11,
        0x21 <= alias[0] <= 0x7E,
        forall|i: int|
            0 <= i < parts.len() ==> (#[trigger] parts[i])[13] == super::fatname::checksum_of(
                alias,
            ),
        super::fatname::gathered(parts, parts.len() as int) == name,
        name.len() > 0,
    ensures
        ({
            let s = Slot { at, bytes: super::fatfile::short_entry(alias, cluster, size) };
            &&& s.bytes.len() == 32
            &&& !s.is_free()
            &&& !s.is_long()
            &&& s.is_file()
            &&& s.file(parts) == (FileEntry { name, size, cluster, at })
        }),
{
    let e = super::fatfile::short_entry(alias, cluster, size);
    lemma_halves(cluster);
    crate::bytes::lemma_word32_round_trip(size);
    assert(e[0] == alias[0]);
    assert(e[11] == 0x20);
    assert(e[20] == ((cluster >> 16) as u16) as u8);
    assert(e[21] == (((cluster >> 16) as u16) >> 8) as u8);
    assert(e[26] == (cluster as u16) as u8);
    assert(e[27] == ((cluster as u16) >> 8) as u8);
    assert(crate::bytes::word32(e, 28) == size);
    assert(e.take(11) =~= alias);
}

/// The parts of a long name, as slots, gather into their entries.
proof fn lemma_long_slots(new: Seq<Slot>, entries: Seq<Seq<u8>>, n: int)
    requires
        0 <= n <= entries.len(),
        n <= new.len(),
        forall|i: int| 0 <= i < n ==> (#[trigger] new[i]).bytes == entries[i],
        forall|i: int| 0 <= i < n ==> !(#[trigger] new[i]).is_free() && new[i].is_long(),
    ensures
        pending(new.take(n)) == entries.take(n),
        listing(new.take(n)) == Seq::<FileEntry>::empty(),
    decreases n,
{
    if n > 0 {
        lemma_long_slots(new, entries, n - 1);
        assert(new.take(n).drop_last() =~= new.take(n - 1));
        assert(new.take(n).last() == new[n - 1]);
        assert(entries.take(n) =~= entries.take(n - 1).push(entries[n - 1]));
    } else {
        assert(pending(new.take(0)) =~= entries.take(0));
        assert(listing(new.take(0)) =~= Seq::empty());
    }
}

/// The slots that a new file's entries make.
pub open spec fn slots_for(places: Seq<int>, entries: Seq<Seq<u8>>) -> Seq<Slot> {
    Seq::new(entries.len(), |i: int| Slot { at: places[i], bytes: entries[i] })
}

proof fn lemma_new_file(
    v: VolumeState,
    name: Seq<char>,
    cluster: u32,
    size: u32,
    places: Seq<int>,
)
    requires
        readable(name),
        places.len() == v.entries_for(name, cluster, size).len(),
    ensures
        ({
            let entries = v.entries_for(name, cluster, size);
            &&& file_slots(
                slots_for(places, entries),
                FileEntry { name, size, cluster, at: places.last() },
            )
            &&& forall|i: int| 0 <= i < entries.len() ==> (#[trigger] entries[i]).len() == 32
        }),
{
    let u = super::fatname::units(name);
    let parts = super::fatname::parts_for(u.len() as int);
    let alias = super::fatfile::alias_from(v.root_slots(), name, 1);
    let sum = super::fatname::checksum_of(alias);
    let long = super::fatname::long_entries(u, sum);
    let entries = v.entries_for(name, cluster, size);
    let new = slots_for(places, entries);
    lemma_alias_from(v.root_slots(), name, 1);
    super::fatname::law_long_name_survives(name, sum);
    assert forall|i: int| 0 <= i < parts implies (#[trigger] long[i])[13] == sum by {
        super::fatname::lemma_long_entry(u, parts - 1 - i, sum);
    }
    lemma_short_slot(alias, cluster, size, places.last(), long, name);
    assert forall|i: int| 0 <= i < parts implies !(#[trigger] new[i]).is_free()
        && new[i].is_long() && new[i].bytes == long[i] && new[i].bytes.len() == 32 by {
        super::fatname::lemma_long_entry(u, parts - 1 - i, sum);
        assert(super::fatname::mark_of(parts, parts - 1 - i) != 0);
    }
    lemma_long_slots(new, long, parts);
    assert(long.take(parts) =~= long);
    assert(new.drop_last() =~= new.take(parts));
    assert(new.last() == new[parts]);
    assert(listing(new) =~= seq![
        FileEntry { name, size, cluster, at: places.last() },
    ]);
    assert forall|i: int| 0 <= i < entries.len() implies (#[trigger] entries[i]).len() == 32 by {
        assert(new[i].bytes == entries[i]);
    }
}

// -------------------------------------------------------- the directory
/// Entries written to slots of a chain stand there, and nothing else changes.
proof fn lemma_entries_written(
    v: VolumeState,
    chain: Seq<u32>,
    places: Seq<int>,
    entries: Seq<Seq<u8>>,
    k: int,
    n: int,
)
    requires
        fits(v),
        chain.no_duplicates(),
        forall|i: int| 0 <= i < chain.len() ==> usable(v, #[trigger] chain[i]),
        0 <= k,
        0 <= n <= entries.len(),
        n <= places.len(),
        k + n <= v.slots_of(chain).len(),
        forall|i: int| 0 <= i < n ==> #[trigger] places[i] == v.slots_of(chain)[k + i].at,
        forall|i: int| 0 <= i < n ==> (#[trigger] entries[i]).len() == 32,
    ensures
        same_shape(v, v.with_entries(places, entries, n)),
        same_tables(v, v.with_entries(places, entries, n)),
        v.with_entries(places, entries, n).slots_of(chain).len() == v.slots_of(chain).len(),
        forall|j: int|
            0 <= j < v.slots_of(chain).len() ==> #[trigger] v.with_entries(
                places,
                entries,
                n,
            ).slots_of(chain)[j] == (if k <= j < k + n {
                Slot { at: v.slots_of(chain)[j].at, bytes: entries[j - k] }
            } else {
                v.slots_of(chain)[j]
            }),
        forall|d: u32|
            usable(v, d) && !chain.contains(d) ==> #[trigger] body(
                v.with_entries(places, entries, n),
                d,
            ) == body(v, d),
    decreases n,
{
    let slots = v.slots_of(chain);
    if n > 0 {
        lemma_entries_written(v, chain, places, entries, k, n - 1);
        let w = v.with_entries(places, entries, n - 1);
        let x = v.with_entries(places, entries, n);
        let at = places[n - 1];
        let e = entries[n - 1];
        assert(at == slots[k + (n - 1)].at);
        let q = lemma_slot_inside(v, chain, k + n - 1);
        lemma_write_keeps_tables(w, at, e);
        lemma_same_places(v, w, chain);
        lemma_same_places(v, x, chain);
        assert forall|j: int| 0 <= j < slots.len() implies #[trigger] x.slots_of(chain)[j] == (if k
            <= j < k + n {
            Slot { at: slots[j].at, bytes: entries[j - k] }
        } else {
            slots[j]
        }) by {
            let p = slots[j].at;
            assert(w.slots_of(chain)[j] == w.slot(p));
            let home = lemma_slot_inside(v, chain, j);
            if j == k + n - 1 {
                assert(super::fat32::stretch(x.disk, p, 32) =~= e);
            } else {
                if j < k + n - 1 {
                    lemma_slots_apart(v, chain, j, k + n - 1);
                } else {
                    lemma_slots_apart(v, chain, k + n - 1, j);
                }
                lemma_outside(w.disk, at, e, p, 32);
            }
        }
        assert forall|d: u32| usable(v, d) && !chain.contains(d) implies #[trigger] body(x, d)
            == body(v, d) by {
            assert(chain.contains(chain[q]));
            lemma_write_keeps_clusters(w, chain[q], at, e, d);
            assert(body(w, d) == body(v, d));
        }
    } else {
        lemma_same_places(v, v, chain);
    }
}

/// Marking the slots that end a directory changes only those.
proof fn lemma_marked(v: VolumeState, chain: Seq<u32>, n: int)
    requires
        fits(v),
        chain.no_duplicates(),
        forall|i: int| 0 <= i < chain.len() ==> usable(v, #[trigger] chain[i]),
        0 <= n <= v.slots_of(chain).len(),
    ensures
        same_shape(v, v.marked(v.slots_of(chain), n)),
        same_tables(v, v.marked(v.slots_of(chain), n)),
        v.marked(v.slots_of(chain), n).slots_of(chain).len() == v.slots_of(chain).len(),
        forall|j: int|
            0 <= j < v.slots_of(chain).len() ==> {
                let s = #[trigger] v.marked(v.slots_of(chain), n).slots_of(chain)[j];
                if j < n && v.slots_of(chain)[j].is_end() {
                    s.is_deleted()
                } else {
                    s == v.slots_of(chain)[j]
                }
            },
        forall|d: u32|
            usable(v, d) && !chain.contains(d) ==> #[trigger] body(
                v.marked(v.slots_of(chain), n),
                d,
            ) == body(v, d),
    decreases n,
{
    let slots = v.slots_of(chain);
    if n > 0 {
        lemma_marked(v, chain, n - 1);
        let w = v.marked(slots, n - 1);
        let x = v.marked(slots, n);
        if slots[n - 1].is_end() {
            let at = slots[n - 1].at;
            let e = seq![0xE5u8];
            let q = lemma_slot_inside(v, chain, n - 1);
            lemma_write_keeps_tables(w, at, e);
            lemma_same_places(v, w, chain);
            lemma_same_places(v, x, chain);
            assert forall|j: int| 0 <= j < slots.len() implies {
                let s = #[trigger] x.slots_of(chain)[j];
                if j < n && slots[j].is_end() {
                    s.is_deleted()
                } else {
                    s == slots[j]
                }
            } by {
                let p = slots[j].at;
                assert(w.slots_of(chain)[j] == w.slot(p));
                let home = lemma_slot_inside(v, chain, j);
                if j == n - 1 {
                    assert(super::fat32::stretch(x.disk, p, 32)[0] == 0xE5);
                } else {
                    if j < n - 1 {
                        lemma_slots_apart(v, chain, j, n - 1);
                    } else {
                        lemma_slots_apart(v, chain, n - 1, j);
                    }
                    lemma_outside(w.disk, at, e, p, 32);
                }
            }
            assert forall|d: u32| usable(v, d) && !chain.contains(d) implies #[trigger] body(x, d)
                == body(v, d) by {
                assert(chain.contains(chain[q]));
                lemma_write_keeps_clusters(w, chain[q], at, e, d);
                assert(body(w, d) == body(v, d));
            }
        }
    } else {
        lemma_same_places(v, v, chain);
    }
}

/// From `v` to `w`, every cluster that is in use and not the root directory's
/// keeps its entry and what it holds.
pub open spec fn spares(v: VolumeState, w: VolumeState) -> bool {
    let root = v.chain(v.root_cluster);
    &&& forall|t: int, d: u32|
        0 <= t < v.fats && usable(v, d) && !root.contains(d) && v.fat_entry(d) != 0
            ==> #[trigger] w.entry_in(t, d) == v.entry_in(t, d)
    &&& forall|d: u32|
        usable(v, d) && !root.contains(d) && v.fat_entry(d) != 0 ==> #[trigger] body(w, d) == body(
            v,
            d,
        )
}

/// `files` with one more among them, at `p`.
pub open spec fn with_one_more(files: Seq<FileEntry>, p: int, f: FileEntry) -> Seq<FileEntry> {
    files.take(p) + seq![f] + files.skip(p)
}

/// The root chain of a volume in order is the same where the tables are.
proof fn lemma_same_root(v: VolumeState, w: VolumeState)
    requires
        fits(v),
        proper(v, v.root_cluster),
        same_shape(v, w),
        forall|i: int|
            0 <= i < v.chain(v.root_cluster).len() ==> w.fat_entry(
                #[trigger] v.chain(v.root_cluster)[i],
            ) == v.fat_entry(v.chain(v.root_cluster)[i]),
    ensures
        w.chain(w.root_cluster) == v.chain(v.root_cluster),
        proper(w, w.root_cluster),
{
    lemma_chain_agrees(v, w, v.root_cluster, v.total_clusters as nat);
    let chain = v.chain(v.root_cluster);
    assert(w.fat_entry(chain[chain.len() - 1]) == v.fat_entry(chain[chain.len() - 1]));
}

/// A directory entry put into slots that were free.
proof fn lemma_entered_in_place(
    v: VolumeState,
    name: Seq<char>,
    cluster: u32,
    size: u32,
    k: int,
) -> (r: (int, FileEntry))
    requires
        valid(v),
        readable(name),
        super::fatfile::first_run(
            v.root_slots(),
            v.entries_for(name, cluster, size).len() as int,
            0,
        ) == Some(k),
    ensures
        ({
            let w = v.entered(name, cluster, size).0;
            &&& v.entered(name, cluster, size).1 is None
            &&& same_shape(v, w)
            &&& valid(w)
            &&& spares(v, w)
            &&& tables_agree(v) ==> tables_agree(w)
            &&& 0 <= r.0 <= v.files().len()
            &&& w.files() == with_one_more(v.files(), r.0, r.1)
            &&& r.1 == (FileEntry { name, size, cluster, at: r.1.at })
        }),
{
    reveal(VolumeState::entered);
    let chain = v.chain(v.root_cluster);
    let slots = v.root_slots();
    let entries = v.entries_for(name, cluster, size);
    let count = entries.len() as int;
    let places = Seq::new(count as nat, |i: int| slots[k + i].at);
    let w = v.with_entries(places, entries, count);
    assert(v.entered(name, cluster, size).0 == w);
    lemma_new_file(v, name, cluster, size, places);
    lemma_first_run(slots, count, 0);
    lemma_entries_written(v, chain, places, entries, k, count);
    assert forall|i: int| 0 <= i < chain.len() implies w.fat_entry(#[trigger] chain[i])
        == v.fat_entry(chain[i]) by {
        assert(usable(v, chain[i]));
        assert(w.entry_in(0, chain[i]) == v.entry_in(0, chain[i]));
    }
    lemma_same_root(v, w);
    let new = slots_for(places, entries);
    let f = FileEntry { name, size, cluster, at: places.last() };
    let t = w.root_slots();
    assert forall|j: int| 0 <= j < slots.len() implies #[trigger] t[j] == (if k <= j < k
        + new.len() {
        new[j - k]
    } else {
        slots[j]
    }) by {
        assert(w.slots_of(chain)[j] == t[j]);
    }
    let p = lemma_inserted(slots, t, new, f, k);
    assert(w.files() =~= with_one_more(v.files(), p, f));
    (p, f)
}

/// The directory's end marked, before it is given another cluster.
spec fn closed_up(v: VolumeState) -> VolumeState {
    v.marked(v.root_slots(), v.root_slots().len() as int)
}

/// The cluster that the directory is given.
spec fn extra_of(v: VolumeState) -> u32 {
    closed_up(v).free()[0]
}

/// That cluster made blank.
spec fn blanked(v: VolumeState) -> VolumeState {
    let m = closed_up(v);
    m.wrote(m.cluster_at(extra_of(v)), crate::bytes::zeroes(m.per() as nat))
}

/// That cluster put behind the others of the directory.
spec fn grown_to(v: VolumeState) -> VolumeState {
    blanked(v).with_fat(v.chain(v.root_cluster).last(), extra_of(v)).with_fat(
        extra_of(v),
        END_OF_CHAIN,
    )
}

proof fn lemma_blanked(v: VolumeState)
    requires
        valid(v),
        closed_up(v).free().len() > 0,
    ensures
        ({
            let chain = v.chain(v.root_cluster);
            let b = blanked(v);
            let extra = extra_of(v);
            &&& same_shape(v, b)
            &&& same_tables(v, b)
            &&& fits(b)
            &&& usable(v, extra)
            &&& v.fat_entry(extra) == 0
            &&& !chain.contains(extra)
            &&& b.chain(b.root_cluster) == chain
            &&& body(b, extra) == crate::bytes::zeroes(v.per() as nat)
            &&& forall|d: u32|
                usable(v, d) && !chain.contains(d) && d != extra ==> #[trigger] body(b, d) == body(
                    v,
                    d,
                )
            &&& b.slots_of(chain).len() == v.root_slots().len()
            &&& forall|j: int|
                0 <= j < v.root_slots().len() ==> (if v.root_slots()[j].is_end() {
                    (#[trigger] b.slots_of(chain)[j]).is_deleted()
                } else {
                    b.slots_of(chain)[j] == v.root_slots()[j]
                })
        }),
{
    let chain = v.chain(v.root_cluster);
    let slots = v.root_slots();
    let n = slots.len() as int;
    let m = closed_up(v);
    let extra = extra_of(v);
    let b = blanked(v);
    lemma_marked(v, chain, n);
    super::fatfile::lemma_free(m, m.total_clusters + 2);
    assert(usable(v, extra) && m.fat_entry(extra) == 0);
    assert(m.entry_in(0, extra) == v.entry_in(0, extra));
    lemma_cluster_inside(v, extra);
    let blank = crate::bytes::zeroes(m.per() as nat);
    let at = m.cluster_at(extra);
    lemma_write_keeps_tables(m, at, blank);
    assert(same_tables(v, b)) by {
        assert forall|t: int, d: u32| 0 <= t < v.fats && usable(v, d) implies #[trigger] b.entry_in(
            t,
            d,
        ) == v.entry_in(t, d) by {
            assert(b.entry_in(t, d) == m.entry_in(t, d));
        }
    }
    assert(!chain.contains(extra)) by {
        if chain.contains(extra) {
            let i = choose|i: int| 0 <= i < chain.len() && chain[i] == extra;
            lemma_proper_not_free(v, v.root_cluster, i);
        }
    }
    assert forall|i: int| 0 <= i < chain.len() implies b.fat_entry(#[trigger] chain[i])
        == v.fat_entry(chain[i]) by {
        assert(usable(v, chain[i]));
        assert(b.entry_in(0, chain[i]) == v.entry_in(0, chain[i]));
    }
    lemma_same_root(v, b);
    assert(body(b, extra) =~= crate::bytes::zeroes(v.per() as nat));
    assert forall|d: u32|
        usable(v, d) && !chain.contains(d) && d != extra implies #[trigger] body(b, d) == body(
        v,
        d,
    ) by {
        lemma_write_keeps_clusters(m, extra, at, blank, d);
        assert(body(m, d) == body(v, d));
    }
    assert forall|i: int| 0 <= i < chain.len() implies body(b, #[trigger] chain[i]) == body(
        m,
        chain[i],
    ) by {
        assert(usable(v, chain[i]));
        assert(chain.contains(chain[i]));
        lemma_write_keeps_clusters(m, extra, at, blank, chain[i]);
    }
    lemma_slots_agree(m, b, chain);
}

/// The entries once the new cluster is linked in.
proof fn lemma_grown_entries(v: VolumeState)
    requires
        valid(v),
        closed_up(v).free().len() > 0,
    ensures
        ({
            let chain = v.chain(v.root_cluster);
            let g = grown_to(v);
            let extra = extra_of(v);
            &&& same_shape(v, g)
            &&& fits(g)
            &&& forall|t: int, d: u32|
                0 <= t < v.fats && usable(v, d) ==> #[trigger] g.entry_in(t, d) == (if d == extra {
                    END_OF_CHAIN
                } else if d == chain.last() {
                    extra
                } else {
                    v.entry_in(t, d)
                })
            &&& forall|p: int, len: nat|
                base(v) <= p ==> #[trigger] super::fat32::stretch(g.disk, p, len)
                    == super::fat32::stretch(blanked(v).disk, p, len)
        }),
{
    let chain = v.chain(v.root_cluster);
    let b = blanked(v);
    let extra = extra_of(v);
    let last = chain.last();
    lemma_blanked(v);
    assert(last == chain[chain.len() - 1]);
    assert(usable(v, last));
    let l = b.with_fat(last, extra);
    let g = grown_to(v);
    lemma_with_fat(b, last, extra);
    lemma_with_fat(l, extra, END_OF_CHAIN);
    lemma_kept_whole(extra);
    lemma_kept_whole(END_OF_CHAIN);
    assert forall|t: int, d: u32| 0 <= t < v.fats && usable(v, d) implies #[trigger] g.entry_in(t, d)
        == (if d == extra {
        END_OF_CHAIN
    } else if d == chain.last() {
        extra
    } else {
        v.entry_in(t, d)
    }) by {
        assert(l.entry_in(t, d) == (if d == last {
            extra & 0x0FFF_FFFF
        } else {
            b.entry_in(t, d)
        }));
        assert(b.entry_in(t, d) == v.entry_in(t, d));
    }
    assert forall|p: int, len: nat| base(v) <= p implies #[trigger] super::fat32::stretch(
        g.disk,
        p,
        len,
    ) == super::fat32::stretch(b.disk, p, len) by {
        assert(super::fat32::stretch(g.disk, p, len) == super::fat32::stretch(l.disk, p, len));
    }
}

/// The chain goes on to the new cluster.
proof fn lemma_grown_chain(v: VolumeState)
    requires
        valid(v),
        closed_up(v).free().len() > 0,
    ensures
        ({
            let g = grown_to(v);
            &&& g.chain(g.root_cluster) == v.chain(v.root_cluster).push(extra_of(v))
            &&& proper(g, g.root_cluster)
        }),
{
    let chain = v.chain(v.root_cluster);
    let g = grown_to(v);
    let extra = extra_of(v);
    let more = chain.push(extra);
    lemma_blanked(v);
    lemma_grown_entries(v);
    assert(more.no_duplicates()) by {
        assert forall|i: int, j: int|
            0 <= i < more.len() && 0 <= j < more.len() && i != j implies more[i] != more[j] by {
            if i < chain.len() {
                assert(chain.contains(chain[i]));
            }
            if j < chain.len() {
                assert(chain.contains(chain[j]));
            }
        }
    }
    assert forall|i: int| 0 <= i < more.len() implies usable(g, #[trigger] more[i]) && 2 <= more[i]
        < CHAIN_ENDS by {
        if i < chain.len() {
            assert(usable(v, chain[i]));
        }
    }
    lemma_no_more_than_there_are(g, more);
    assert forall|j: int| 0 <= j < more.len() - 1 implies g.fat_entry(#[trigger] more[j])
        == more[j + 1] by {
        assert(more[j] == chain[j]);
        assert(usable(v, chain[j]));
        assert(chain.contains(chain[j]));
        assert(g.entry_in(0, chain[j]) == g.fat_entry(chain[j]));
        if j + 1 < chain.len() {
            assert(chain[j] != chain[chain.len() - 1]);
            assert(v.entry_in(0, chain[j]) == v.fat_entry(chain[j]));
            lemma_chain_links(v, v.root_cluster, v.total_clusters as nat, j);
        }
    }
    assert(g.entry_in(0, extra) == END_OF_CHAIN);
    assert(more.last() == extra);
    lemma_chain_of(g, more, 0, g.total_clusters as nat);
    assert(more.skip(0) =~= more);
    assert(chain[0] == v.root_cluster);
    assert(more[0] == v.root_cluster);
}

/// The directory with another cluster.
proof fn lemma_grown(v: VolumeState, count: int)
    requires
        valid(v),
        count > 0,
        v.grown(count).1 is Ok,
    ensures
        ({
            let chain = v.chain(v.root_cluster);
            let g = v.grown(count).0;
            let more = g.chain(g.root_cluster);
            let n = v.root_slots().len() as int;
            &&& same_shape(v, g)
            &&& fits(g)
            &&& spares(v, g)
            &&& tables_agree(v) ==> tables_agree(g)
            &&& proper(g, g.root_cluster)
            &&& more.len() == chain.len() + 1
            &&& forall|i: int| 0 <= i < chain.len() ==> #[trigger] more[i] == chain[i]
            &&& v.fat_entry(more.last()) == 0
            &&& g.root_slots().len() == n + v.per() / 32
            &&& count <= v.per() / 32
            &&& forall|j: int|
                0 <= j < n ==> (if v.root_slots()[j].is_end() {
                    (#[trigger] g.root_slots()[j]).is_deleted()
                } else {
                    g.root_slots()[j] == v.root_slots()[j]
                })
            &&& forall|j: int|
                n <= j < g.root_slots().len() ==> (#[trigger] g.root_slots()[j]).is_end()
            &&& v.grown(count).1->Ok_0 == Seq::new(
                count as nat,
                |i: int| g.root_slots()[n + i].at,
            )
        }),
{
    let chain = v.chain(v.root_cluster);
    let slots = v.root_slots();
    let n = slots.len() as int;
    let extra = extra_of(v);
    let b = blanked(v);
    let g = grown_to(v);
    let more = chain.push(extra);
    super::fatfile::lemma_marked_fields(v, slots, n);
    assert(closed_up(v).allocated(1)->0[0] == extra);
    lemma_blanked(v);
    lemma_grown_entries(v);
    lemma_grown_chain(v);
    assert(v.grown(count).0 == g);
    assert forall|d: u32| usable(v, d) implies #[trigger] body(g, d) == body(b, d) by {
        lemma_cluster_inside(v, d);
    }
    assert forall|i: int| 0 <= i < chain.len() implies body(g, #[trigger] chain[i]) == body(
        b,
        chain[i],
    ) by {
        assert(usable(v, chain[i]));
    }
    lemma_slots_agree(b, g, chain);
    assert(more.drop_last() =~= chain);
    assert(more.last() == extra);
    lemma_slots_len(g, more);
    lemma_slots_len(g, chain);
    lemma_slots_len(v, chain);
    assert(g.root_slots() == g.slots_of(chain) + g.cluster_slots(extra));
    assert forall|j: int| n <= j < g.root_slots().len() implies (
    #[trigger] g.root_slots()[j]).is_end() && g.root_slots()[j].at == v.cluster_at(extra) + 32 * (j
        - n) by {
        let i = j - n;
        assert(g.root_slots()[j] == g.cluster_slots(extra)[i]);
        assert(body(g, extra)[32 * i] == 0);
    }
    assert forall|j: int| 0 <= j < n implies (if slots[j].is_end() {
        (#[trigger] g.root_slots()[j]).is_deleted()
    } else {
        g.root_slots()[j] == slots[j]
    }) by {
        assert(g.root_slots()[j] == b.slots_of(chain)[j]);
    }
    assert(v.grown(count).1->Ok_0 =~= Seq::new(count as nat, |i: int| g.root_slots()[n + i].at));
    assert(chain.contains(chain.last())) by {
        assert(chain[chain.len() - 1] == chain.last());
    }
    assert(spares(v, g));
    if tables_agree(v) {
        assert forall|t: int, d: u32| 0 <= t < g.fats && usable(g, d) implies #[trigger] g.entry_in(
            t,
            d,
        ) == g.fat_entry(d) by {
            assert(v.entry_in(t, d) == v.fat_entry(d));
            assert(g.entry_in(0, d) == g.fat_entry(d));
            assert(v.entry_in(0, d) == v.fat_entry(d));
        }
    }
}

/// Where a directory entry goes when the directory has to grow.
spec fn entered_behind(v: VolumeState, entries: Seq<Seq<u8>>) -> VolumeState {
    let count = entries.len() as int;
    v.grown(count).0.with_entries(v.grown(count).1->Ok_0, entries, count)
}

/// What writing entries into the new cluster of a directory does.
proof fn lemma_behind(v: VolumeState, entries: Seq<Seq<u8>>)
    requires
        valid(v),
        entries.len() > 0,
        v.grown(entries.len() as int).1 is Ok,
        forall|i: int| 0 <= i < entries.len() ==> (#[trigger] entries[i]).len() == 32,
    ensures
        ({
            let g = v.grown(entries.len() as int).0;
            let w = entered_behind(v, entries);
            let more = g.chain(g.root_cluster);
            let n = v.root_slots().len() as int;
            &&& same_shape(g, w)
            &&& same_tables(g, w)
            &&& w.chain(w.root_cluster) == more
            &&& proper(w, w.root_cluster)
            &&& w.root_slots().len() == g.root_slots().len()
            &&& forall|j: int|
                0 <= j < w.root_slots().len() ==> #[trigger] w.root_slots()[j] == (if n <= j < n
                    + entries.len() {
                    Slot { at: g.root_slots()[j].at, bytes: entries[j - n] }
                } else {
                    g.root_slots()[j]
                })
            &&& forall|d: u32|
                usable(v, d) && !more.contains(d) ==> #[trigger] body(w, d) == body(g, d)
        }),
{
    let count = entries.len() as int;
    lemma_grown(v, count);
    let g = v.grown(count).0;
    let places = v.grown(count).1->Ok_0;
    let more = g.chain(g.root_cluster);
    let n = v.root_slots().len() as int;
    let w = entered_behind(v, entries);
    lemma_entries_written(g, more, places, entries, n, count);
    assert forall|i: int| 0 <= i < more.len() implies w.fat_entry(#[trigger] more[i])
        == g.fat_entry(more[i]) by {
        assert(usable(g, more[i]));
        assert(w.entry_in(0, more[i]) == g.entry_in(0, more[i]));
    }
    lemma_same_root(g, w);
    assert(w.root_slots() == w.slots_of(more));
}

/// The others are spared when a directory entry goes into a new cluster.
proof fn lemma_behind_spares(v: VolumeState, entries: Seq<Seq<u8>>)
    requires
        valid(v),
        entries.len() > 0,
        v.grown(entries.len() as int).1 is Ok,
        forall|i: int| 0 <= i < entries.len() ==> (#[trigger] entries[i]).len() == 32,
    ensures
        spares(v, entered_behind(v, entries)),
        tables_agree(v) ==> tables_agree(entered_behind(v, entries)),
{
    let chain = v.chain(v.root_cluster);
    let g = v.grown(entries.len() as int).0;
    let w = entered_behind(v, entries);
    let more = g.chain(g.root_cluster);
    lemma_grown(v, entries.len() as int);
    lemma_behind(v, entries);
    assert forall|d: u32|
        usable(v, d) && !chain.contains(d) && v.fat_entry(d) != 0 implies !#[trigger] more.contains(
        d,
    ) by {
        if more.contains(d) {
            let i = choose|i: int| 0 <= i < more.len() && more[i] == d;
            if i < chain.len() {
                assert(more[i] == chain[i]);
            } else {
                assert(more[i] == more.last());
            }
        }
    }
    assert forall|d: u32|
        usable(v, d) && !chain.contains(d) && v.fat_entry(d) != 0 implies #[trigger] body(w, d)
        == body(v, d) by {
        assert(!more.contains(d));
        assert(body(w, d) == body(g, d));
    }
    assert forall|t: int, d: u32|
        0 <= t < v.fats && usable(v, d) && !chain.contains(d) && v.fat_entry(d) != 0 implies
        #[trigger] w.entry_in(t, d) == v.entry_in(t, d) by {
        assert(w.entry_in(t, d) == g.entry_in(t, d));
    }
    if tables_agree(v) {
        assert forall|t: int, d: u32| 0 <= t < w.fats && usable(w, d) implies #[trigger] w.entry_in(
            t,
            d,
        ) == w.fat_entry(d) by {
            assert(w.entry_in(t, d) == g.entry_in(t, d));
            assert(w.entry_in(0, d) == g.entry_in(0, d));
            assert(g.entry_in(t, d) == g.fat_entry(d));
        }
    }
}

/// A directory entry put into a cluster that the directory was given.
proof fn lemma_entered_behind(
    v: VolumeState,
    name: Seq<char>,
    cluster: u32,
    size: u32,
) -> (r: (int, FileEntry))
    requires
        valid(v),
        readable(name),
        super::fatfile::first_run(
            v.root_slots(),
            v.entries_for(name, cluster, size).len() as int,
            0,
        ) is None,
        v.entered(name, cluster, size).1 is None,
    ensures
        ({
            let w = v.entered(name, cluster, size).0;
            &&& same_shape(v, w)
            &&& valid(w)
            &&& spares(v, w)
            &&& tables_agree(v) ==> tables_agree(w)
            &&& 0 <= r.0 <= v.files().len()
            &&& w.files() == with_one_more(v.files(), r.0, r.1)
            &&& r.1 == (FileEntry { name, size, cluster, at: r.1.at })
        }),
{
    reveal(VolumeState::entered);
    let slots = v.root_slots();
    let n = slots.len() as int;
    let entries = v.entries_for(name, cluster, size);
    let count = entries.len() as int;
    lemma_grown(v, count);
    let g = v.grown(count).0;
    let places = v.grown(count).1->Ok_0;
    let w = entered_behind(v, entries);
    assert(v.entered(name, cluster, size).0 == w);
    lemma_new_file(v, name, cluster, size, places);
    lemma_behind(v, entries);
    lemma_behind_spares(v, entries);
    let new = slots_for(places, entries);
    let f = FileEntry { name, size, cluster, at: places.last() };
    let t = w.root_slots();
    assert forall|j: int| 0 <= j < slots.len() implies (if slots[j].is_end() {
        (#[trigger] t[j]).is_deleted()
    } else {
        t[j] == slots[j]
    }) by {
        assert(t[j] == g.root_slots()[j]);
    }
    assert forall|j: int| 0 <= j < new.len() implies t[slots.len() + j] == #[trigger] new[j] by {
        assert(t[n + j].bytes == entries[j]);
        assert(places[j] == g.root_slots()[n + j].at);
    }
    assert forall|j: int| slots.len() + new.len() <= j < t.len() implies (
    #[trigger] t[j]).is_end() by {
        assert(t[j] == g.root_slots()[j]);
    }
    lemma_appended(slots, t, new, f);
    let p = v.files().len() as int;
    assert(w.files() =~= with_one_more(v.files(), p, f));
    (p, f)
}

/// What putting a file on a drive does, step by step, from the state in which
/// an older file of that name is gone.
pub open spec fn put(
    c: VolumeState,
    w: VolumeState,
    clusters: Seq<u32>,
    data: Seq<u8>,
    p: int,
    f: FileEntry,
) -> bool {
    &&& same_shape(c, w)
    &&& valid(w)
    &&& tables_agree(c) ==> tables_agree(w)
    &&& spares(c, w)
    &&& w.chain(f.cluster) == clusters
    &&& clusters.len() == super::fatfile::clusters_for(data.len() as int, c.per())
    &&& forall|i: int|
        0 <= i < clusters.len() ==> body(w, #[trigger] clusters[i]) == super::fatfile::block_of(
            data,
            c.per(),
            i,
        )
    &&& 0 <= p <= c.files().len()
    &&& w.files() == with_one_more(c.files(), p, f)
}

proof fn lemma_put(v: VolumeState, name: Seq<char>, data: Seq<u8>) -> (r: (
    Seq<u32>,
    int,
    FileEntry,
))
    requires
        valid(v.cleared(name)),
        v.cleared(name).per() == v.per(),
        readable(name),
        v.created(name, data).1 is None,
    ensures
        put(v.cleared(name), v.created(name, data).0, r.0, data, r.1, r.2),
        r.2.name == name,
        r.2.size == data.len() as u32,
{
    let c = v.cleared(name);
    let need = super::fatfile::clusters_for(data.len() as int, v.per());
    let clusters = c.allocated(need)->0;
    let root = c.chain(c.root_cluster);
    lemma_clusters_cover(data.len() as int, v.per());
    super::fatfile::lemma_free(c, c.total_clusters + 2);
    assert forall|i: int| 0 <= i < clusters.len() implies usable(c, #[trigger] clusters[i])
        && c.fat_entry(clusters[i]) == 0 by {
        assert(clusters[i] == c.free()[i]);
    }
    assert(clusters.no_duplicates()) by {
        assert forall|i: int, j: int|
            0 <= i < clusters.len() && 0 <= j < clusters.len() && i != j implies clusters[i]
            != clusters[j] by {
            assert(clusters[i] == c.free()[i]);
            assert(clusters[j] == c.free()[j]);
        }
    }
    let s = c.stored(clusters, data);
    lemma_stored(c, clusters, data);
    // The root directory is not touched by storing the data.
    assert forall|i: int| 0 <= i < root.len() implies !clusters.contains(#[trigger] root[i]) by {
        lemma_proper_not_free(c, c.root_cluster, i);
        if clusters.contains(root[i]) {
            let k = choose|k: int| 0 <= k < clusters.len() && clusters[k] == root[i];
            assert(c.fat_entry(clusters[k]) == 0);
        }
    }
    assert forall|i: int| 0 <= i < root.len() implies s.fat_entry(#[trigger] root[i])
        == c.fat_entry(root[i]) by {
        assert(usable(c, root[i]));
        assert(s.entry_in(0, root[i]) == c.entry_in(0, root[i]));
    }
    lemma_same_root(c, s);
    assert forall|i: int| 0 <= i < root.len() implies body(s, #[trigger] root[i]) == body(
        c,
        root[i],
    ) by {
        assert(usable(c, root[i]));
    }
    lemma_slots_agree(c, s, root);
    assert(s.root_slots() == c.root_slots());
    assert(s.files() == c.files());
    assert(valid(s));
    // Then its entry is put into the directory.
    let size = data.len() as u32;
    let entries = s.entries_for(name, clusters[0], size);
    let w = v.created(name, data).0;
    assert(w == s.entered(name, clusters[0], size).0);
    assert(entries.len() > 0);
    let (p, f) = match super::fatfile::first_run(s.root_slots(), entries.len() as int, 0) {
        Some(k) => lemma_entered_in_place(s, name, clusters[0], size, k),
        None => lemma_entered_behind(s, name, clusters[0], size),
    };
    // The file's own clusters are spared by that.
    assert forall|i: int| 0 <= i < clusters.len() implies w.fat_entry(#[trigger] clusters[i]) == (
    if i + 1 < clusters.len() {
        clusters[i + 1]
    } else {
        END_OF_CHAIN
    }) && body(w, clusters[i]) == super::fatfile::block_of(data, c.per(), i) by {
        assert(usable(c, clusters[i]));
        assert(s.entry_in(0, clusters[i]) == s.fat_entry(clusters[i]));
        assert(!root.contains(clusters[i])) by {
            if root.contains(clusters[i]) {
                let k = choose|k: int| 0 <= k < root.len() && root[k] == clusters[i];
                assert(clusters.contains(root[k]));
            }
        }
        if i + 1 < clusters.len() {
            assert(usable(c, clusters[i + 1]));
        }
        assert(s.fat_entry(clusters[i]) != 0);
        assert(w.entry_in(0, clusters[i]) == s.entry_in(0, clusters[i]));
        assert(body(w, clusters[i]) == body(s, clusters[i]));
    }
    assert forall|j: int| 0 <= j < clusters.len() implies 2 <= #[trigger] clusters[j]
        < CHAIN_ENDS by {
        assert(usable(c, clusters[j]));
    }
    assert(clusters.last() == clusters[clusters.len() - 1]);
    lemma_no_more_than_there_are(c, clusters);
    lemma_chain_of(w, clusters, 0, w.total_clusters as nat);
    assert(clusters.skip(0) =~= clusters);
    // And so are the others.
    assert forall|t: int, d: u32|
        0 <= t < c.fats && usable(c, d) && !root.contains(d) && c.fat_entry(d) != 0 implies
        #[trigger] w.entry_in(t, d) == c.entry_in(t, d) && body(w, d) == body(c, d) by {
        assert(!clusters.contains(d)) by {
            if clusters.contains(d) {
                let k = choose|k: int| 0 <= k < clusters.len() && clusters[k] == d;
                assert(c.fat_entry(clusters[k]) == 0);
            }
        }
        assert(s.entry_in(t, d) == c.entry_in(t, d));
        assert(s.entry_in(0, d) == c.entry_in(0, d));
        assert(body(s, d) == body(c, d));
    }
    assert forall|d: u32|
        usable(c, d) && !root.contains(d) && c.fat_entry(d) != 0 implies #[trigger] body(w, d)
        == body(c, d) by {
        assert(w.entry_in(0, d) == c.entry_in(0, d));
    }
    if tables_agree(c) {
        assert(tables_agree(s)) by {
            assert forall|t: int, d: u32| 0 <= t < s.fats && usable(s, d) implies
                #[trigger] s.entry_in(t, d) == s.fat_entry(d) by {
                if clusters.contains(d) {
                    let k = choose|k: int| 0 <= k < clusters.len() && clusters[k] == d;
                    assert(s.entry_in(t, clusters[k]) == s.entry_in(0, clusters[k]));
                } else {
                    assert(s.entry_in(t, d) == c.entry_in(t, d));
                    assert(s.entry_in(0, d) == c.entry_in(0, d));
                    assert(c.entry_in(t, d) == c.fat_entry(d));
                }
            }
        }
    }
    (clusters, p, f)
}

// ----------------------------------------------------------------- laws
/// A file that was put on the drive is listed under its name and reads back
/// as what was written, and every other file is listed as it was. The volume
/// has to be in order once an older file of that name is gone.
pub proof fn law_file_written_reads_back(v: VolumeState, name: Seq<char>, data: Seq<u8>) -> (r: (
    int,
    FileEntry,
))
    requires
        v.wf(),
        valid(v.cleared(name)),
        readable(name),
        data.len() <= u32::MAX,
        v.created(name, data).1 is None,
    ensures
        ({
            let w = v.created(name, data).0;
            &&& 0 <= r.0 <= v.cleared(name).files().len()
            &&& w.files() == with_one_more(v.cleared(name).files(), r.0, r.1)
            &&& r.1.name == name
            &&& r.1.size == data.len()
            &&& w.file_bytes(r.1) == data
        }),
{
    super::fatfile::lemma_cleared_fields(v, name);
    let (clusters, p, f) = lemma_put(v, name, data);
    let w = v.created(name, data).0;
    lemma_file_bytes(w, clusters, data, f);
    (p, f)
}

/// A file whose chain is in order, and apart from the directory's, keeps what
/// it holds when another is put on the drive.
pub proof fn law_other_files_keep_their_bytes(
    v: VolumeState,
    name: Seq<char>,
    data: Seq<u8>,
    e: FileEntry,
)
    requires
        v.wf(),
        valid(v.cleared(name)),
        readable(name),
        v.created(name, data).1 is None,
        proper(v.cleared(name), e.cluster),
        forall|i: int|
            0 <= i < v.cleared(name).chain(e.cluster).len() ==> !v.cleared(name).chain(
                v.root_cluster,
            ).contains(#[trigger] v.cleared(name).chain(e.cluster)[i]),
    ensures
        v.created(name, data).0.file_bytes(e) == v.cleared(name).file_bytes(e),
{
    super::fatfile::lemma_cleared_fields(v, name);
    let c = v.cleared(name);
    let w = v.created(name, data).0;
    lemma_put(v, name, data);
    let chain = c.chain(e.cluster);
    assert forall|i: int| 0 <= i < chain.len() implies w.fat_entry(#[trigger] chain[i])
        == c.fat_entry(chain[i]) && body(w, chain[i]) == body(c, chain[i]) by {
        assert(usable(c, chain[i]));
        lemma_proper_not_free(c, e.cluster, i);
        assert(w.entry_in(0, chain[i]) == c.entry_in(0, chain[i]));
    }
    lemma_chain_agrees(c, w, e.cluster, c.total_clusters as nat);
    lemma_same_content(c, w, chain, chain.len() as int);
}

proof fn lemma_same_content(v: VolumeState, w: VolumeState, chain: Seq<u32>, n: int)
    requires
        same_shape(v, w),
        0 <= n <= chain.len(),
        forall|i: int| 0 <= i < chain.len() ==> body(w, #[trigger] chain[i]) == body(v, chain[i]),
    ensures
        w.content(chain, n) == v.content(chain, n),
    decreases n,
{
    if n > 0 {
        lemma_same_content(v, w, chain, n - 1);
        assert(body(w, chain[n - 1]) == body(v, chain[n - 1]));
    }
}

/// Putting a file on a drive leaves the volume in order, and its tables in
/// agreement.
pub proof fn law_volume_stays_in_order(v: VolumeState, name: Seq<char>, data: Seq<u8>)
    requires
        v.wf(),
        valid(v.cleared(name)),
        readable(name),
        v.created(name, data).1 is None,
    ensures
        valid(v.created(name, data).0),
        tables_agree(v.cleared(name)) ==> tables_agree(v.created(name, data).0),
{
    super::fatfile::lemma_cleared_fields(v, name);
    lemma_put(v, name, data);
}

/// Clusters are handed out that are real, free, and different.
pub proof fn law_allocation_is_sound(v: VolumeState, count: int, i: int)
    requires
        v.wf(),
        v.allocated(count) is Some,
        0 <= i < count,
    ensures
        v.allocated(count)->0.len() == count,
        usable(v, v.allocated(count)->0[i]),
        v.fat_entry(v.allocated(count)->0[i]) == 0,
        forall|j: int|
            0 <= j < i ==> #[trigger] v.allocated(count)->0[j] < v.allocated(count)->0[i],
{
    super::fatfile::lemma_free(v, v.total_clusters + 2);
    assert(v.allocated(count)->0[i] == v.free()[i]);
    assert forall|j: int| 0 <= j < i implies #[trigger] v.allocated(count)->0[j]
        < v.allocated(count)->0[i] by {
        assert(v.allocated(count)->0[j] == v.free()[j]);
    }
}

// ------------------------------------------------------- a fresh volume
/// The table of a volume that is laid out covers its clusters, and these lie
/// on the disk.
proof fn lemma_layout(total: int)
    requires
        0 <= total <= 0xFFFF_FFFF,
        super::fat32::flaw(total) is None,
    ensures
        ({
            let l = super::fat32::layout_spec(total);
            &&& l.fat_sectors == super::fat32::table_sectors(total)
            &&& 1 <= l.fat_sectors <= 0x200_0000
            &&& l.clusters + 2 <= l.fat_sectors * 128
            &&& l.data_start == 32 + 2 * l.fat_sectors
            &&& l.volume_sectors == total - 2048
            &&& l.data_start + l.clusters * l.spc <= l.volume_sectors
            &&& l.clusters == (l.volume_sectors - l.data_start) / (l.spc as int)
            &&& 65525 <= l.clusters <= 0x0400_0000 * 64
            &&& 1 <= l.spc <= 64
            &&& l.clusters + 2 <= CHAIN_ENDS
        }),
{
    let l = super::fat32::layout_spec(total);
    let spc = super::fat32::cluster_size(total) as int;
    let a = super::fat32::approx_clusters(total);
    let x = (total - 2048 - 32) * 512;
    let big = spc * 512;
    assert(a * (big + 8) <= x && x < (a + 1) * (big + 8) && 0 <= a) by (nonlinear_arith)
        requires
            a == x / (big + 8),
            big >= 512,
            x >= 0,
    ;
    assert(a * 520 <= x) by (nonlinear_arith)
        requires
            a * (big + 8) <= x,
            big >= 512,
            a >= 0,
    ;
    let fs = super::fat32::table_sectors(total);
    assert(fs * 128 >= a + 2 && 1 <= fs <= 0x200_0000);
    let k = (total - 2048 - 32 - 2 * fs) / spc;
    assert(l.clusters == k);
    assert(k * spc <= total - 2048 - 32 - 2 * fs) by (nonlinear_arith)
        requires
            k == (total - 2048 - 32 - 2 * fs) / spc,
            spc >= 1,
    ;
    assert(k * big <= x - 1024 * fs) by (nonlinear_arith)
        requires
            k * spc <= total - 2048 - 32 - 2 * fs,
            big == spc * 512,
            x == (total - 2048 - 32) * 512,
    ;
    assert((a + 1) * (big + 8) == (a + 1) * big + 8 * (a + 1)) by (nonlinear_arith);
    if k >= a + 1 {
        assert((a + 1) * big <= k * big) by (nonlinear_arith)
            requires
                a + 1 <= k,
                big >= 0,
        ;
    }
    assert(spc < 64 ==> total < 70_000 * 128);
    if spc == 64 {
        assert(64 * k <= total);
    } else {
        assert(k <= total) by (nonlinear_arith)
            requires
                k * spc <= total,
                spc >= 1,
                k >= 0,
        ;
    }
}

/// What the pieces behind number `k` leave alone.
proof fn lemma_pieces_behind(
    disk: Seq<u8>,
    pieces: Seq<(int, Seq<u8>)>,
    k: int,
    n: int,
    p: int,
    len: nat,
)
    requires
        0 <= k <= n <= pieces.len(),
        0 <= p,
        forall|i: int|
            k <= i < n ==> p + len <= (#[trigger] pieces[i]).0 || pieces[i].0
                + pieces[i].1.len() <= p,
    ensures
        super::fat32::stretch(super::fat32::with_pieces(disk, pieces, n), p, len)
            == super::fat32::stretch(super::fat32::with_pieces(disk, pieces, k), p, len),
    decreases n - k,
{
    if k < n {
        lemma_pieces_behind(disk, pieces, k, n - 1, p, len);
        lemma_outside(
            super::fat32::with_pieces(disk, pieces, n - 1),
            pieces[n - 1].0,
            pieces[n - 1].1,
            p,
            len,
        );
    }
}

proof fn lemma_pieces_len(disk: Seq<u8>, pieces: Seq<(int, Seq<u8>)>, n: int)
    ensures
        super::fat32::with_pieces(disk, pieces, n).len() == disk.len(),
    decreases n,
{
    if n > 0 {
        lemma_pieces_len(disk, pieces, n - 1);
    }
}

/// A piece stands where it was written, if none behind it lies over it.
proof fn lemma_piece_stands(disk: Seq<u8>, pieces: Seq<(int, Seq<u8>)>, k: int)
    requires
        0 <= k < pieces.len(),
        0 <= pieces[k].0,
        pieces[k].0 + pieces[k].1.len() <= disk.len(),
        forall|i: int|
            k < i < pieces.len() ==> pieces[k].0 + pieces[k].1.len() <= (#[trigger] pieces[i]).0
                || pieces[i].0 + pieces[i].1.len() <= pieces[k].0,
    ensures
        super::fat32::stretch(
            super::fat32::with_pieces(disk, pieces, pieces.len() as int),
            pieces[k].0,
            pieces[k].1.len(),
        ) == pieces[k].1,
{
    let n = pieces.len() as int;
    lemma_pieces_behind(disk, pieces, k + 1, n, pieces[k].0, pieces[k].1.len());
    lemma_pieces_len(disk, pieces, k);
    super::fat32::law_read_after_write(
        super::fat32::with_pieces(disk, pieces, k),
        pieces[k].0,
        pieces[k].1,
    );
}

/// The pieces of a format lie apart, but for the first sectors.
proof fn lemma_format_pieces(l: super::fat32::Layout, label: Seq<u8>)
    requires
        l.data_start == 32 + 2 * l.fat_sectors,
        l.fat_sectors >= 1,
    ensures
        ({
            let p = super::fat32::pieces_spec(l, label);
            let b = super::fat32::volume_at();
            let t = l.fat_sectors * 512;
            &&& p.len() == 8
            &&& p[0].0 == 0 && p[0].1.len() == 512
            &&& p[1].0 == b && p[1].1.len() == 512
            &&& p[2].0 == b + 3072 && p[2].1.len() == 512
            &&& p[3].0 == b + 512 && p[3].1.len() == 512
            &&& p[4].0 == b + 3584 && p[4].1.len() == 512
            &&& p[5].0 == b + 16384 && p[5].1.len() == 12
            &&& p[6].0 == b + 16384 + t && p[6].1.len() == 12
            &&& p[7].0 == b + 16384 + 2 * t && p[7].1.len() == 32
            &&& b == 2048 * 512
        }),
{
    assert(1 * l.fat_sectors == l.fat_sectors) by (nonlinear_arith);
    assert(0 * l.fat_sectors == 0) by (nonlinear_arith);
}

/// What the boot sector of a fresh volume says.
proof fn lemma_boot_fields(l: super::fat32::Layout, label: Seq<u8>)
    requires
        1 <= l.spc <= 64,
    ensures
        ({
            let b = super::fat32::boot_spec(l, label);
            &&& b.len() == 512
            &&& b[510] == 0x55 && b[511] == 0xAA
            &&& crate::bytes::word16(b, 11) == 512
            &&& b[13] == l.spc
            &&& crate::bytes::word16(b, 14) == 32
            &&& b[16] == 2
            &&& crate::bytes::word32(b, 32) == l.volume_sectors as u32
            &&& crate::bytes::word32(b, 36) == l.fat_sectors
            &&& crate::bytes::word32(b, 44) == 2
        }),
{
    let b = super::fat32::boot_spec(l, label);
    crate::bytes::lemma_word16_round_trip(512);
    crate::bytes::lemma_word16_round_trip(32);
    crate::bytes::lemma_word32_round_trip(l.volume_sectors as u32);
    crate::bytes::lemma_word32_round_trip(l.fat_sectors);
    crate::bytes::lemma_word32_round_trip(2);
    assert(b[11] == 512u16 as u8 && b[12] == (512u16 >> 8) as u8);
    assert(b[14] == 32u16 as u8 && b[15] == (32u16 >> 8) as u8);
    assert(b[13] == l.spc as u8);
    assert(b[16] == 2);
    let v = l.volume_sectors as u32;
    assert(b[32] == v as u8 && b[33] == (v >> 8) as u8 && b[34] == (v >> 16) as u8 && b[35] == (v
        >> 24) as u8);
    let f = l.fat_sectors;
    assert(b[36] == f as u8 && b[37] == (f >> 8) as u8 && b[38] == (f >> 16) as u8 && b[39] == (f
        >> 24) as u8);
    assert(b[44] == 2u32 as u8 && b[45] == (2u32 >> 8) as u8 && b[46] == (2u32 >> 16) as u8
        && b[47] == (2u32 >> 24) as u8);
}

proof fn lemma_mbr_fields(volume_sectors: u64)
    ensures
        ({
            let m = super::fat32::mbr_spec(volume_sectors);
            &&& m.len() == 512
            &&& m[510] == 0x55 && m[511] == 0xAA
            &&& m[450] == 0x0C
            &&& crate::bytes::word32(m, 454) == 2048
        }),
{
    let m = super::fat32::mbr_spec(volume_sectors);
    crate::bytes::lemma_word32_round_trip(2048);
    assert(m[454] == 2048u32 as u8 && m[455] == (2048u32 >> 8) as u8 && m[456] == (2048u32
        >> 16) as u8 && m[457] == (2048u32 >> 24) as u8);
}

/// A volume whose first sectors name a layout opens as that layout.
proof fn lemma_described(d: Seq<u8>, m: Seq<u8>, b: Seq<u8>, l: super::fat32::Layout)
    requires
        super::fat32::stretch(d, 0, 512) == m,
        super::fat32::stretch(d, 2048int * 512, 512) == b,
        m[510] == 0x55 && m[511] == 0xAA,
        crate::bytes::word32(m, 454) == 2048,
        b[510] == 0x55 && b[511] == 0xAA,
        crate::bytes::word16(b, 11) == 512,
        b[13] == l.spc,
        crate::bytes::word16(b, 14) == 32,
        b[16] == 2,
        crate::bytes::word32(b, 32) == l.volume_sectors,
        crate::bytes::word32(b, 36) == l.fat_sectors,
        crate::bytes::word32(b, 44) == 2,
        1 <= l.spc <= 64,
        1 <= l.fat_sectors <= 0x200_0000,
        l.data_start == 32 + 2 * l.fat_sectors,
        l.data_start <= l.volume_sectors,
        l.clusters == (l.volume_sectors - l.data_start) / (l.spc as int),
    ensures
        ({
            let v = VolumeState::opened(d);
            &&& VolumeState::flaw(d) is None
            &&& VolumeState::long_enough(d)
            &&& v.disk == d
            &&& v.part_start == 2048
            &&& v.spc == l.spc
            &&& v.reserved == 32
            &&& v.fats == 2
            &&& v.fat_sectors == l.fat_sectors
            &&& v.root_cluster == 2
            &&& v.data_start == l.data_start
            &&& v.total_clusters == l.clusters
        }),
{
    assert(VolumeState::start_of(d) == 2048);
    assert(VolumeState::boot_of(d) == b);
    assert(VolumeState::before_data(d) == l.data_start);
}

/// The shape of a fresh volume is the one that it was laid out in.
proof fn lemma_opened_shape(disk: Seq<u8>, label: Seq<u8>)
    requires
        disk.len() / 512 <= 0xFFFF_FFFF,
        super::fat32::flaw(disk.len() as int / 512) is None,
    ensures
        ({
            let l = super::fat32::layout_spec(disk.len() as int / 512);
            let d = super::fat32::formatted(disk, l, label);
            let v = VolumeState::opened(d);
            &&& VolumeState::flaw(d) is None
            &&& VolumeState::long_enough(d)
            &&& d.len() == disk.len()
            &&& v.disk == d
            &&& v.part_start == 2048
            &&& v.spc == l.spc
            &&& v.reserved == 32
            &&& v.fats == 2
            &&& v.fat_sectors == l.fat_sectors
            &&& v.root_cluster == 2
            &&& v.data_start == l.data_start
            &&& v.total_clusters == l.clusters
            &&& fits(v)
        }),
{
    let total = disk.len() as int / 512;
    let l = super::fat32::layout_spec(total);
    let pieces = super::fat32::pieces_spec(l, label);
    let d = super::fat32::formatted(disk, l, label);
    lemma_layout(total);
    lemma_format_pieces(l, label);
    lemma_pieces_len(disk, pieces, 8);
    lemma_piece_stands(disk, pieces, 0);
    lemma_piece_stands(disk, pieces, 1);
    lemma_mbr_fields(l.volume_sectors);
    lemma_boot_fields(l, label);
    lemma_described(
        d,
        super::fat32::mbr_spec(l.volume_sectors),
        super::fat32::boot_spec(l, label),
        l,
    );
    let v = VolumeState::opened(d);
    assert((2048 + l.data_start + l.clusters * l.spc) * 512 <= d.len());
    assert(v.total_clusters * v.spc == l.clusters * l.spc);
}

/// What the tables of a fresh volume say: the root directory's chain ends, and
/// every other cluster is free.
proof fn lemma_fresh_entries(size: nat, label: Seq<u8>, n: int, c: u32)
    requires
        size / 512 <= 0xFFFF_FFFF,
        super::fat32::flaw(size as int / 512) is None,
        0 <= n < 2,
        2 <= c < super::fat32::layout_spec(size as int / 512).clusters + 2,
    ensures
        ({
            let l = super::fat32::layout_spec(size as int / 512);
            let d = super::fat32::formatted(crate::bytes::zeroes(size), l, label);
            VolumeState::opened(d).entry_in(n, c) == (if c == 2 {
                END_OF_CHAIN
            } else {
                0
            })
        }),
{
    let disk = crate::bytes::zeroes(size);
    let l = super::fat32::layout_spec(size as int / 512);
    let pieces = super::fat32::pieces_spec(l, label);
    let d = super::fat32::formatted(disk, l, label);
    let v = VolumeState::opened(d);
    let t = l.fat_sectors * 512;
    lemma_layout(size as int / 512);
    lemma_opened_shape(disk, label);
    lemma_format_pieces(l, label);
    lemma_entry_inside(v, n, c);
    lemma_pieces_len(disk, pieces, 8);
    let at = v.fat_at(n, c);
    assert(n * v.fat_sectors == (if n == 0 {
        0
    } else {
        v.fat_sectors as int
    })) by (nonlinear_arith)
        requires
            n == 0 || n == 1,
    ;
    assert(table(v, n) == 2048 * 512 + 16384 + (if n == 0 {
        0
    } else {
        t
    }));
    lemma_kept_whole(END_OF_CHAIN);
    lemma_kept_whole(0);
    if c == 2 {
        let k = 5 + n;
        lemma_piece_stands(disk, pieces, k);
        let s = super::fat32::table_spec();
        crate::bytes::lemma_word32_round_trip(END_OF_CHAIN);
        assert(pieces[k].1 == s);
        assert(super::fat32::stretch(d, at, 4) =~= crate::bytes::le32(END_OF_CHAIN)) by {
            assert forall|i: int| 0 <= i < 4 implies super::fat32::stretch(d, at, 4)[i]
                == crate::bytes::le32(END_OF_CHAIN)[i] by {
                assert(super::fat32::stretch(d, pieces[k].0, 12)[8 + i] == s[8 + i]);
            }
        }
    } else {
        lemma_pieces_behind(disk, pieces, 0, 8, at, 4);
        assert(super::fat32::stretch(d, at, 4) =~= crate::bytes::le32(0)) by {
            assert(super::fat32::stretch(disk, at, 4) =~= seq![0u8, 0, 0, 0]);
            lemma_zero_bytes();
        }
        crate::bytes::lemma_word32_round_trip(0);
    }
}

/// Nothing, in bytes.
proof fn lemma_zero_bytes()
    ensures
        crate::bytes::le32(0) == seq![0u8, 0, 0, 0],
        0x08u8 & 0x08 != 0,
{
    assert(0u32 >> 8 == 0 && 0u32 >> 16 == 0 && 0u32 >> 24 == 0 && 0x08u8 & 0x08 != 0)
        by (bit_vector);
    assert(crate::bytes::le32(0) =~= seq![0u8, 0, 0, 0]);
}

/// A blank disk that was formatted opens as a volume in order, with both its
/// tables the same and no files on it.
pub proof fn law_formatted_disk_is_an_empty_volume(size: nat, label: Seq<u8>)
    requires
        size / 512 <= 0xFFFF_FFFF,
        super::fat32::flaw(size as int / 512) is None,
    ensures
        ({
            let l = super::fat32::layout_spec(size as int / 512);
            let d = super::fat32::formatted(crate::bytes::zeroes(size), l, label);
            let v = VolumeState::opened(d);
            &&& VolumeState::flaw(d) is None
            &&& VolumeState::long_enough(d)
            &&& valid(v)
            &&& tables_agree(v)
            &&& v.files() == Seq::<FileEntry>::empty()
        }),
{
    let disk = crate::bytes::zeroes(size);
    let l = super::fat32::layout_spec(size as int / 512);
    let pieces = super::fat32::pieces_spec(l, label);
    let d = super::fat32::formatted(disk, l, label);
    let v = VolumeState::opened(d);
    lemma_layout(size as int / 512);
    lemma_opened_shape(disk, label);
    lemma_format_pieces(l, label);
    assert(tables_agree(v)) by {
        assert forall|n: int, c: u32| 0 <= n < v.fats && usable(v, c) implies #[trigger] v.entry_in(
            n,
            c,
        ) == v.fat_entry(c) by {
            lemma_fresh_entries(size, label, n, c);
            lemma_fresh_entries(size, label, 0, c);
        }
    }
    // The root directory is cluster 2 alone.
    lemma_fresh_entries(size, label, 0, 2);
    assert(v.chain_from(v.fat_entry(2), (v.total_clusters - 1) as nat) =~= Seq::empty());
    assert(v.chain(2) =~= seq![2u32]);
    let chain = v.chain(2);
    assert(chain.drop_last() =~= Seq::empty());
    assert(v.slots_of(chain.drop_last()) =~= Seq::empty());
    assert(v.root_slots() =~= v.cluster_slots(2));
    lemma_cluster_at(v, 2);
    lemma_cluster_inside(v, 2);
    let at = v.cluster_at(2);
    assert((2 - 2) * v.per() == 0) by (nonlinear_arith);
    assert(at == pieces[7].0);
    let slots = v.root_slots();
    // It holds the label, and zeroes behind it.
    lemma_piece_stands(disk, pieces, 7);
    let entry = super::fat32::label_entry_spec(label);
    assert(slots[0].bytes =~= entry) by {
        assert(v.cluster_at(2) + 32 * 0 == at);
    }
    assert(entry[11] == 0x08);
    lemma_zero_bytes();
    assert forall|j: int| 1 <= j < slots.len() implies (#[trigger] slots[j]).is_end() by {
        let p = at + 32 * j;
        lemma_pieces_behind(disk, pieces, 0, 8, p, 32);
        assert(slots[j].bytes == super::fat32::stretch(d, p, 32));
        assert(super::fat32::stretch(disk, p, 32)[0] == 0);
    }
    assert(tidy(slots));
    lemma_files(slots);
    lemma_end_of(slots, 0);
    let z = end_of(slots, 0);
    assert(z <= 1) by {
        if z > 1 {
            assert(!slots[1].is_end());
        }
    }
    assert(listing(slots.take(z)) =~= Seq::empty()) by {
        if z == 1 {
            assert(slots.take(1).last() == slots[0]);
            assert(slots.take(1).drop_last() =~= Seq::empty());
            assert(listing(slots.take(1).drop_last()) =~= Seq::empty());
        }
    }
}

/// A name of ordinary length, of characters that every unit of is a letter,
/// can be read back.
pub proof fn law_ordinary_names_are_readable(name: Seq<char>)
    requires
        name.len() > 0,
        super::fatname::units(name).len() <= 255,
        super::fatname::divides(super::fatname::units(name)),
    ensures
        readable(name),
{
    let u = super::fatname::units(name);
    let parts = super::fatname::parts_for(u.len() as int);
    assert forall|part: int| 0 <= part < parts implies #[trigger] super::fatname::mark_of(
        parts,
        part,
    ) != 0 && super::fatname::mark_of(parts, part) != 0xE5 by {
        let x = (part + 1) as u8;
        assert(1 <= x <= 20);
        assert(1 <= x <= 20 ==> (x | 0x40) != 0 && (x | 0x40) != 0xE5) by (bit_vector);
    }
}

/// Removing a file frees every cluster of its chain, in every table.
pub proof fn law_removing_frees_clusters(v: VolumeState, chain: Seq<u32>, n: int, t: int, i: int)
    requires
        fits(v),
        0 <= n <= chain.len(),
        forall|k: int| 0 <= k < chain.len() ==> usable(v, #[trigger] chain[k]),
        0 <= t < v.fats,
        0 <= i < n,
    ensures
        same_shape(v, v.freed(chain, n)),
        v.freed(chain, n).entry_in(t, chain[i]) == 0,
    decreases n,
{
    let w = v.freed(chain, n - 1);
    super::fatfile::lemma_freed_fields(v, chain, n - 1);
    lemma_with_fat(w, chain[n - 1], 0);
    lemma_kept_whole(0);
    assert(usable(v, chain[i]));
    assert(usable(v, chain[n - 1]));
    if i < n - 1 {
        law_removing_frees_clusters(v, chain, n - 1, t, i);
    }
}

// ------------------------------------------------------ taking a file off
/// A file whose chain runs through real clusters, none of them the root
/// directory's.
pub open spec fn apart(v: VolumeState, e: FileEntry) -> bool {
    forall|i: int|
        0 <= i < v.chain(e.cluster).len() ==> usable(v, #[trigger] v.chain(e.cluster)[i])
            && !v.chain(v.root_cluster).contains(v.chain(e.cluster)[i])
}

/// Freeing clusters clears their entries in every table, and nothing else.
proof fn lemma_freed(v: VolumeState, chain: Seq<u32>, n: int)
    requires
        fits(v),
        0 <= n <= chain.len(),
        forall|k: int| 0 <= k < chain.len() ==> usable(v, #[trigger] chain[k]),
    ensures
        same_shape(v, v.freed(chain, n)),
        fits(v.freed(chain, n)),
        forall|t: int, d: u32|
            0 <= t < v.fats && usable(v, d) ==> #[trigger] v.freed(chain, n).entry_in(t, d) == (
            if chain.take(n).contains(d) {
                0
            } else {
                v.entry_in(t, d)
            }),
        forall|d: u32| usable(v, d) ==> #[trigger] body(v.freed(chain, n), d) == body(v, d),
    decreases n,
{
    let x = v.freed(chain, n);
    if n == 0 {
        assert(chain.take(0) =~= Seq::empty());
    } else {
        let w = v.freed(chain, n - 1);
        let c = chain[n - 1];
        lemma_freed(v, chain, n - 1);
        assert(usable(v, c));
        lemma_with_fat(w, c, 0);
        lemma_kept_whole(0);
        assert forall|t: int, d: u32| 0 <= t < v.fats && usable(v, d) implies #[trigger] x.entry_in(
            t,
            d,
        ) == (if chain.take(n).contains(d) {
            0
        } else {
            v.entry_in(t, d)
        }) by {
            assert(w.entry_in(t, d) == (if chain.take(n - 1).contains(d) {
                0
            } else {
                v.entry_in(t, d)
            }));
            let head = chain.take(n - 1);
            let more = chain.take(n);
            if more.contains(d) {
                let i = choose|i: int| 0 <= i < more.len() && more[i] == d;
                if i < n - 1 {
                    assert(head[i] == d);
                }
            } else {
                assert(more[n - 1] == c);
                if head.contains(d) {
                    let i = choose|i: int| 0 <= i < head.len() && head[i] == d;
                    assert(more[i] == d);
                }
            }
        }
        assert forall|d: u32| usable(v, d) implies #[trigger] body(x, d) == body(v, d) by {
            lemma_cluster_inside(v, d);
            assert(body(w, d) == body(v, d));
        }
    }
}

/// Marking slots of a directory deleted changes only those.
proof fn lemma_erased(v: VolumeState, chain: Seq<u32>, slots: Seq<Slot>, from: int, to: int)
    requires
        fits(v),
        chain.no_duplicates(),
        forall|i: int| 0 <= i < chain.len() ==> usable(v, #[trigger] chain[i]),
        slots.len() == v.slots_of(chain).len(),
        forall|i: int| 0 <= i < slots.len() ==> (#[trigger] slots[i]).at == v.slots_of(chain)[i].at,
        0 <= from <= to <= slots.len(),
    ensures
        same_shape(v, v.erased(slots, from, to)),
        same_tables(v, v.erased(slots, from, to)),
        v.erased(slots, from, to).slots_of(chain).len() == slots.len(),
        forall|j: int|
            0 <= j < slots.len() ==> {
                let s = #[trigger] v.erased(slots, from, to).slots_of(chain)[j];
                if from <= j < to {
                    s.is_deleted()
                } else {
                    s == v.slots_of(chain)[j]
                }
            },
        forall|d: u32|
            usable(v, d) && !chain.contains(d) ==> #[trigger] body(
                v.erased(slots, from, to),
                d,
            ) == body(v, d),
    decreases to - from,
{
    let x = v.erased(slots, from, to);
    if from < to {
        let all = v.slots_of(chain);
        let at = all[to - 1].at;
        let mark = seq![0xE5u8];
        assert(slots[to - 1].at == at);
        let w = v.wrote(at, mark);
        let q = lemma_slot_inside(v, chain, to - 1);
        lemma_write_keeps_tables(v, at, mark);
        lemma_same_places(v, w, chain);
        assert forall|i: int| 0 <= i < slots.len() implies (#[trigger] slots[i]).at == w.slots_of(
            chain,
        )[i].at by {
            assert(w.slots_of(chain)[i] == w.slot(all[i].at));
        }
        lemma_erased(w, chain, slots, from, to - 1);
        assert forall|j: int| 0 <= j < slots.len() implies {
            let s = #[trigger] x.slots_of(chain)[j];
            if from <= j < to {
                s.is_deleted()
            } else {
                s == all[j]
            }
        } by {
            assert(w.slots_of(chain)[j] == w.slot(all[j].at));
            let home = lemma_slot_inside(v, chain, j);
            if j == to - 1 {
                assert(super::fat32::stretch(w.disk, at, 32)[0] == 0xE5);
            } else if !(from <= j < to) {
                if j < to - 1 {
                    lemma_slots_apart(v, chain, j, to - 1);
                } else {
                    lemma_slots_apart(v, chain, to - 1, j);
                }
                lemma_outside(v.disk, at, mark, all[j].at, 32);
            }
        }
        assert forall|d: u32| usable(v, d) && !chain.contains(d) implies #[trigger] body(x, d)
            == body(v, d) by {
            assert(chain.contains(chain[q]));
            lemma_write_keeps_clusters(v, chain[q], at, mark, d);
            assert(body(w, d) == body(v, d));
        }
        assert forall|n: int, c: u32| 0 <= n < v.fats && usable(v, c) implies #[trigger] x.entry_in(
            n,
            c,
        ) == v.entry_in(n, c) by {
            assert(w.entry_in(n, c) == v.entry_in(n, c));
        }
    }
}

/// Where a long name starts: in front of it stands no part of one.
proof fn lemma_long_start(slots: Seq<Slot>, j: int)
    requires
        0 <= j <= slots.len(),
    ensures
        0 <= super::fatfile::long_start(slots, j) <= j,
        forall|i: int|
            super::fatfile::long_start(slots, j) <= i < j ==> (#[trigger] slots[i]).is_long(),
        super::fatfile::long_start(slots, j) > 0 ==> !slots[super::fatfile::long_start(slots, j)
            - 1].is_long(),
    decreases j,
{
    if j > 0 && slots[j - 1].is_long() {
        lemma_long_start(slots, j - 1);
    }
}

proof fn lemma_place_of(slots: Seq<Slot>, at: int, i: int, k: int)
    requires
        0 <= i <= k < slots.len(),
        slots[k].at == at,
        forall|j: int| i <= j < k ==> (#[trigger] slots[j]).at != at,
    ensures
        super::fatfile::place_of(slots, at, i) == k,
    decreases k - i,
{
    if i < k {
        assert(slots[i].at != at);
        lemma_place_of(slots, at, i + 1, k);
    }
}

/// Parts of a long name are no files.
proof fn lemma_listing_long(f: Seq<Slot>)
    requires
        forall|i: int| 0 <= i < f.len() ==> (#[trigger] f[i]).is_long(),
    ensures
        listing(f) == Seq::<FileEntry>::empty(),
    decreases f.len(),
{
    if f.len() > 0 {
        assert(f.last() == f[f.len() - 1]);
        assert forall|i: int| 0 <= i < f.drop_last().len() implies (
        #[trigger] f.drop_last()[i]).is_long() by {
            assert(f.drop_last()[i] == f[i]);
        }
        lemma_listing_long(f.drop_last());
    }
}

/// A file that is listed has an 8.3 entry.
proof fn lemma_listed_at(slots: Seq<Slot>, p: int) -> (i: int)
    requires
        0 <= p < listing(slots).len(),
    ensures
        0 <= i < slots.len(),
        slots[i].at == listing(slots)[p].at,
        !slots[i].is_free(),
        !slots[i].is_long(),
        slots[i].is_file(),
    decreases slots.len(),
{
    let front = slots.drop_last();
    if p < listing(front).len() {
        let i = lemma_listed_at(front, p);
        assert(front[i] == slots[i]);
        i
    } else {
        slots.len() - 1
    }
}

/// A directory without the slots of one file lists the others, and is still in
/// order.
proof fn lemma_taken_out(s: Seq<Slot>, t: Seq<Slot>, p: int, j: int)
    requires
        tidy(s),
        0 <= p < super::fatfile::listed(s, 0, Seq::empty()).len(),
        0 <= j < s.len(),
        s[j].at == super::fatfile::listed(s, 0, Seq::empty())[p].at,
        forall|i: int, k: int|
            0 <= i < s.len() && 0 <= k < s.len() && i != k ==> (#[trigger] s[i]).at != (
            #[trigger] s[k]).at,
        t.len() == s.len(),
        forall|i: int|
            0 <= i < s.len() ==> (if super::fatfile::long_start(s, j) <= i <= j {
                (#[trigger] t[i]).is_deleted()
            } else {
                t[i] == s[i]
            }),
    ensures
        super::fatfile::listed(t, 0, Seq::empty()) == super::fatfile::listed(
            s,
            0,
            Seq::empty(),
        ).remove(p),
        tidy(t),
{
    let old = super::fatfile::listed(s, 0, Seq::empty());
    let from = super::fatfile::long_start(s, j);
    lemma_long_start(s, j);
    lemma_end_of(s, 0);
    lemma_end_of(t, 0);
    lemma_files(s);
    lemma_files(t);
    let z = end_of(s, 0);
    let home = lemma_listed_at(s.take(z), p);
    assert(s.take(z)[home] == s[home]);
    assert(home == j);
    assert(end_of(t, 0) == z) by {
        assert forall|i: int| 0 <= i < z implies !(#[trigger] t[i]).is_end() by {
            assert(!s[i].is_end());
        }
        let y = end_of(t, 0);
        if z < s.len() {
            assert(t[z] == s[z]);
        }
        if y < z {
            assert(t[y].is_end());
        }
        if y > z {
            assert(!t[z].is_end());
        }
    }
    let a = s.take(from);
    let names = s.subrange(from, j);
    let run = s.subrange(from, j + 1);
    let gap = t.subrange(from, j + 1);
    let rest = s.subrange(j + 1, z);
    assert(pending(a) =~= Seq::empty()) by {
        if from > 0 {
            assert(a.last() == s[from - 1]);
        }
    }
    assert forall|i: int| 0 <= i < names.len() implies (#[trigger] names[i]).is_long() by {
        assert(s[from + i].is_long());
    }
    assert forall|i: int| 0 <= i < gap.len() implies (#[trigger] gap[i]).is_free() by {
        assert(t[from + i].is_deleted());
    }
    assert(run.drop_last() =~= names);
    assert(run.last() == s[j]);
    lemma_listing_long(names);
    lemma_listing_free(gap);
    let f = s[j].file(pending(names));
    assert(listing(run) =~= seq![f]);
    assert(pending(run) =~= Seq::empty());
    assert(s.take(z) =~= a + run + rest);
    assert(t.take(z) =~= a + gap + rest);
    lemma_listing_append(a, run);
    lemma_listing_append(a + run, rest);
    lemma_listing_append(a, gap);
    lemma_listing_append(a + gap, rest);
    assert(old =~= listing(a) + seq![f] + listing(rest));
    assert(super::fatfile::listed(t, 0, Seq::empty()) =~= listing(a) + listing(rest));
    assert(p == listing(a).len()) by {
        if p < listing(a).len() {
            let i = lemma_listed_at(a, p);
            assert(old[p] == listing(a)[p]);
            assert(a[i] == s[i]);
        } else if p > listing(a).len() {
            let i = lemma_listed_at(rest, p - listing(a).len() - 1);
            assert(old[p] == listing(rest)[p - listing(a).len() - 1]);
            assert(rest[i] == s[j + 1 + i]);
        }
    }
    assert(listing(a) + listing(rest) =~= old.remove(p));
    assert forall|i: int, k: int|
        0 <= i < k < t.len() && (#[trigger] t[i]).is_end() implies (#[trigger] t[k]).is_end() by {
        assert(s[i].is_end());
        if i < j {
            assert(s[j].is_end());
        }
        assert(s[k].is_end());
    }
    assert forall|i: int|
        0 <= i < t.len() && !(#[trigger] t[i]).is_free() && t[i].is_long() implies i + 1 < t.len()
        && !t[i + 1].is_free() by {
        assert(t[i] == s[i]);
        assert(!s[i + 1].is_free());
        if from <= i + 1 <= j {
            assert(i + 1 == from);
        }
        assert(t[i + 1] == s[i + 1]);
    }
}

/// Taking a file off takes it off the list, its long name with it, and leaves
/// every other file listed as it was and the volume in order. Its tables stay
/// in agreement, and a cluster that is neither the file's nor the directory's
/// keeps its entry and what it holds.
pub proof fn law_removing_takes_one_file_off(v: VolumeState, p: int)
    requires
        valid(v),
        0 <= p < v.files().len(),
        apart(v, v.files()[p]),
    ensures
        ({
            let e = v.files()[p];
            let w = v.removed(e);
            &&& w.files() == v.files().remove(p)
            &&& valid(w)
            &&& same_shape(v, w)
            &&& tables_agree(v) ==> tables_agree(w)
            &&& forall|t: int, d: u32|
                0 <= t < v.fats && usable(v, d) && !v.chain(e.cluster).contains(d)
                    ==> #[trigger] w.entry_in(t, d) == v.entry_in(t, d)
            &&& forall|d: u32|
                usable(v, d) && !v.chain(v.root_cluster).contains(d) ==> #[trigger] body(w, d)
                    == body(v, d)
        }),
{
    let e = v.files()[p];
    let root = v.chain(v.root_cluster);
    let chain = v.chain(e.cluster);
    let slots = v.root_slots();
    let free = v.freed(chain, chain.len() as int);
    lemma_freed(v, chain, chain.len() as int);
    assert(chain.take(chain.len() as int) =~= chain);
    assert forall|i: int| 0 <= i < root.len() implies free.fat_entry(#[trigger] root[i])
        == v.fat_entry(root[i]) && body(free, root[i]) == body(v, root[i]) by {
        assert(usable(v, root[i]));
        assert(root.contains(root[i]));
        if chain.contains(root[i]) {
            let k = choose|k: int| 0 <= k < chain.len() && chain[k] == root[i];
            assert(!root.contains(chain[k]));
        }
        assert(free.entry_in(0, root[i]) == v.entry_in(0, root[i]));
    }
    lemma_same_root(v, free);
    lemma_slots_agree(v, free, root);
    // Which slot is the file's.
    lemma_files(slots);
    lemma_end_of(slots, 0);
    let z = end_of(slots, 0);
    let j = lemma_listed_at(slots.take(z), p);
    assert(slots.take(z)[j] == slots[j]);
    assert forall|i: int, k: int| 0 <= i < slots.len() && 0 <= k < slots.len() && i != k implies (
    #[trigger] slots[i]).at != (#[trigger] slots[k]).at by {
        if i < k {
            lemma_slots_apart(v, root, i, k);
        } else {
            lemma_slots_apart(v, root, k, i);
        }
    }
    lemma_place_of(slots, e.at, 0, j);
    lemma_long_start(slots, j);
    let from = super::fatfile::long_start(slots, j);
    let w = v.removed(e);
    assert(w == free.erased(slots, from, j + 1));
    lemma_erased(free, root, slots, from, j + 1);
    assert forall|i: int| 0 <= i < root.len() implies w.fat_entry(#[trigger] root[i])
        == free.fat_entry(root[i]) by {
        assert(usable(free, root[i]));
        assert(w.entry_in(0, root[i]) == free.entry_in(0, root[i]));
    }
    lemma_same_root(free, w);
    let t = w.root_slots();
    assert forall|i: int| 0 <= i < slots.len() implies (if from <= i <= j {
        (#[trigger] t[i]).is_deleted()
    } else {
        t[i] == slots[i]
    }) by {
        assert(w.slots_of(root)[i] == t[i]);
    }
    lemma_taken_out(slots, t, p, j);
    assert forall|t: int, d: u32|
        0 <= t < v.fats && usable(v, d) && !chain.contains(d) implies #[trigger] w.entry_in(t, d)
        == v.entry_in(t, d) by {
        assert(w.entry_in(t, d) == free.entry_in(t, d));
    }
    if tables_agree(v) {
        assert forall|n: int, c: u32| 0 <= n < w.fats && usable(w, c) implies #[trigger] w.entry_in(
            n,
            c,
        ) == w.fat_entry(c) by {
            assert(w.entry_in(n, c) == free.entry_in(n, c));
            assert(w.entry_in(0, c) == free.entry_in(0, c));
            assert(v.entry_in(n, c) == v.fat_entry(c));
        }
    }
    assert forall|d: u32| usable(v, d) && !root.contains(d) implies #[trigger] body(w, d) == body(
        v,
        d,
    ) by {
        assert(body(w, d) == body(free, d));
        assert(body(free, d) == body(v, d));
    }
}

/// Which of the files is the first of a name.
pub open spec fn first_named(files: Seq<FileEntry>, name: Seq<char>, p: int) -> bool {
    &&& 0 <= p < files.len()
    &&& files[p].name == name
    &&& forall|i: int| 0 <= i < p ==> (#[trigger] files[i]).name != name
}

proof fn lemma_named(files: Seq<FileEntry>, name: Seq<char>, i: int)
    requires
        0 <= i <= files.len(),
        forall|k: int| 0 <= k < i ==> (#[trigger] files[k]).name != name,
    ensures
        match super::fatfile::named_in(files, name, i) {
            Some(e) => exists|p: int| #[trigger] first_named(files, name, p) && files[p] == e,
            None => forall|k: int| 0 <= k < files.len() ==> (#[trigger] files[k]).name != name,
        },
    decreases files.len() - i,
{
    if i < files.len() {
        if files[i].name == name {
            assert(first_named(files, name, i));
        } else {
            lemma_named(files, name, i + 1);
        }
    }
}

/// A drive from which a file of a name has been taken off, if it had one, is
/// in order if it was before, and lists what it listed without the first file
/// of that name.
pub proof fn law_clearing_takes_the_name_off(v: VolumeState, name: Seq<char>)
    requires
        valid(v),
        forall|p: int| #[trigger] first_named(v.files(), name, p) ==> apart(v, v.files()[p]),
    ensures
        valid(v.cleared(name)),
        tables_agree(v) ==> tables_agree(v.cleared(name)),
        forall|p: int| #[trigger]
            first_named(v.files(), name, p) ==> v.cleared(name).files() == v.files().remove(p),
        (forall|k: int| 0 <= k < v.files().len() ==> (#[trigger] v.files()[k]).name != name)
            ==> v.cleared(name) == v,
{
    reveal(VolumeState::cleared);
    let files = v.files();
    lemma_named(files, name, 0);
    if let Some(e) = super::fatfile::named_in(files, name, 0) {
        let p = choose|p: int| #[trigger] first_named(files, name, p) && files[p] == e;
        law_removing_takes_one_file_off(v, p);
        assert forall|q: int| #[trigger] first_named(files, name, q) implies q == p by {}
    }
}

/// Putting a file on a drive that had one of that name leaves one entry of it,
/// with the new contents: the list is what it was without the old file, and
/// the new one somewhere among the others.
pub proof fn law_replacing_leaves_one_entry(
    v: VolumeState,
    name: Seq<char>,
    data: Seq<u8>,
    p: int,
) -> (r: (int, FileEntry))
    requires
        valid(v),
        first_named(v.files(), name, p),
        forall|k: int| p < k < v.files().len() ==> (#[trigger] v.files()[k]).name != name,
        apart(v, v.files()[p]),
        readable(name),
        data.len() <= u32::MAX,
        v.created(name, data).1 is None,
    ensures
        ({
            let w = v.created(name, data).0;
            &&& w.files() == with_one_more(v.files().remove(p), r.0, r.1)
            &&& 0 <= r.0 < w.files().len()
            &&& w.files()[r.0] == r.1
            &&& r.1.name == name
            &&& w.file_bytes(r.1) == data
            &&& forall|k: int|
                0 <= k < w.files().len() && k != r.0 ==> (#[trigger] w.files()[k]).name != name
            &&& valid(w)
        }),
{
    let files = v.files();
    assert forall|q: int| #[trigger] first_named(files, name, q) implies apart(v, files[q]) by {
        assert(q == p);
    }
    law_clearing_takes_the_name_off(v, name);
    let r = law_file_written_reads_back(v, name, data);
    law_volume_stays_in_order(v, name, data);
    let w = v.created(name, data).0;
    let others = files.remove(p);
    assert(w.files() == with_one_more(others, r.0, r.1));
    assert forall|k: int| 0 <= k < w.files().len() && k != r.0 implies (
    #[trigger] w.files()[k]).name != name by {
        let i = if k < r.0 {
            k
        } else {
            k - 1
        };
        assert(w.files()[k] == others[i]);
        if i < p {
            assert(others[i] == files[i]);
        } else {
            assert(others[i] == files[i + 1]);
        }
    }
    r
}

} // verus!
