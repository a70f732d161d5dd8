//! Mapping engine: combines the detections and the aggregate measurements
//! into a bill-of-materials record. Deterministic and side-effect-free. The
//! symbol-to-SKU classification is an open design point, so the line-item
//! list stays empty; the summary tallies the detections by label.
use vstd::prelude::*;
use crate::detect::Det;

verus! {

/// One label with how many detections carry it.
#[derive(Clone, Debug)]
pub struct SymbolCount {
    pub label: String,
    pub count: u32,
}

/// Aggregate measurements and the symbol tally. Measures carry three
/// fractional digits (`1000` stands for one unit).
#[derive(Clone, Debug)]
pub struct MappingSummary {
    pub symbols: Vec<SymbolCount>,
    pub lineal_milli: u64,
    pub area_milli: u64,
}

/// One bill-of-materials line.
#[derive(Clone, Debug)]
pub struct LineItem {
    pub sku: String,
    pub qty: u32,
    pub material: String,
    pub finish: String,
}

/// The mapping output: a summary plus ordered line items.
#[derive(Clone, Debug)]
pub struct MappingResult {
    pub summary: MappingSummary,
    pub items: Vec<LineItem>,
}

/// How many detections in `s` carry the label `label`.
pub open spec fn count_label(s: Seq<Det>, label: Seq<char>) -> nat
    decreases s.len(),
{
    if s.len() == 0 {
        0
    } else {
        count_label(s.drop_last(), label) + (if s.last().label@ == label {
            1nat
        } else {
            0nat
        })
    }
}

proof fn lemma_count_label_zero(s: Seq<Det>, label: Seq<char>)
    requires
        forall|i: int| 0 <= i < s.len() ==> (#[trigger] s[i]).label@ != label,
    ensures
        count_label(s, label) == 0,
    decreases s.len(),
{
    if s.len() > 0 {
        lemma_count_label_zero(s.drop_last(), label);
    }
}

/// The tally `t` is exact for the detections `s`: distinct labels, each with
/// its count in `s`, and a label for every detection.
pub open spec fn tally_exact(t: Seq<SymbolCount>, s: Seq<Det>) -> bool {
    &&& forall|k: int| 0 <= k < t.len() ==> (#[trigger] t[k]).count == count_label(s, t[k].label@)
    &&& forall|k1: int, k2: int|
        0 <= k1 < k2 < t.len() ==> (#[trigger] t[k1]).label@ != (#[trigger] t[k2]).label@
    &&& forall|i: int|
        0 <= i < s.len() ==> exists|k: int|
            0 <= k < t.len() && (#[trigger] t[k]).label@ == (#[trigger] s[i]).label@
}

/// Combine the detections and the two aggregate measures into a
/// bill-of-materials record: the summary carries the measures unchanged and
/// an exact tally of the detections by label; the line-item list is empty
/// (symbol-to-SKU classification is an open design point).
pub fn map_to_line_items(dets: &Vec<Det>, lineal_milli: u64, area_milli: u64) -> (r: MappingResult)
    requires
        dets@.len() < 0x100000000,
    ensures
        r.summary.lineal_milli == lineal_milli,
        r.summary.area_milli == area_milli,
        tally_exact(r.summary.symbols@, dets@),
        r.items@.len() == 0,
{
    let mut symbols: Vec<SymbolCount> = Vec::new();
    let mut i: usize = 0;
    proof {
        assert(dets@.take(0) =~= Seq::<Det>::empty());
    }
    while i < dets.len()
        invariant
            0 <= i <= dets@.len() < 0x100000000,
            tally_exact(symbols@, dets@.take(i as int)),
            forall|k: int| 0 <= k < symbols@.len() ==> (#[trigger] symbols@[k]).count <= i,
        decreases dets@.len() - i,
    {
        let d = &dets[i];
        proof {
            assert(dets@.take(i + 1).drop_last() =~= dets@.take(i as int));
            assert(dets@.take(i + 1).last() == dets@[i as int]);
        }
        let mut j: usize = 0;
        let mut found = false;
        while j < symbols.len() && !found
            invariant
                0 <= j <= symbols@.len(),
                !found ==> forall|k: int|
                    0 <= k < j ==> (#[trigger] symbols@[k]).label@ != d.label@,
                found ==> j < symbols@.len() && symbols@[j as int].label@ == d.label@,
            decreases symbols@.len() - j + (if found {
                0int
            } else {
                1int
            }),
        {
            if symbols[j].label == d.label {
                found = true;
            } else {
                j = j + 1;
            }
        }
        let ghost pre = symbols@;
        if found {
            let cur = symbols[j].count;
            let lbl = symbols[j].label.clone();
            symbols.set(j, SymbolCount { label: lbl, count: cur + 1 });
            proof {
                assert forall|k: int|
                    0 <= k < symbols@.len() implies (#[trigger] symbols@[k]).count == count_label(
                    dets@.take(i + 1),
                    symbols@[k].label@,
                ) by {
                    if k != j as int {
                        assert(symbols@[k] == pre[k]);
                        assert(pre[k].label@ != pre[j as int].label@);
                    }
                }
                assert(symbols@.len() == pre.len());
                assert forall|k: int| 0 <= k < pre.len() implies (#[trigger] symbols@[k]).label@
                    == pre[k].label@ by {
                    if k != j as int {
                        assert(symbols@[k] == pre[k]);
                    }
                }
                assert forall|i2: int| 0 <= i2 < i + 1 implies exists|k: int|
                    0 <= k < symbols@.len() && (#[trigger] symbols@[k]).label@ == (#[trigger] dets@.take(
                    i + 1,
                )[i2]).label@ by {
                    if i2 < i {
                        let k0 = choose|k0: int|
                            0 <= k0 < pre.len() && (#[trigger] pre[k0]).label@ == dets@.take(
                                i as int,
                            )[i2].label@;
                        assert(symbols@[k0].label@ == dets@.take(i + 1)[i2].label@);
                    } else {
                        assert(symbols@[j as int].label@ == dets@.take(i + 1)[i2].label@);
                    }
                }
            }
        } else {
            symbols.push(SymbolCount { label: d.label.clone(), count: 1 });
            proof {
                assert(symbols@.drop_last() =~= pre);
                lemma_count_label_zero_from_tally(pre, dets@.take(i as int), d.label@);
                assert forall|k: int|
                    0 <= k < symbols@.len() implies (#[trigger] symbols@[k]).count == count_label(
                    dets@.take(i + 1),
                    symbols@[k].label@,
                ) by {
                    if k < symbols@.len() - 1 {
                        assert(symbols@[k] == pre[k]);
                        assert(pre[k].label@ != d.label@);
                        assert(count_label(dets@.take(i as int), pre[k].label@) == pre[k].count);
                    }
                }
                assert forall|k: int| 0 <= k < pre.len() implies (#[trigger] symbols@[k]).label@
                    == pre[k].label@ by {
                    assert(symbols@[k] == pre[k]);
                }
                assert forall|i2: int| 0 <= i2 < i + 1 implies exists|k: int|
                    0 <= k < symbols@.len() && (#[trigger] symbols@[k]).label@ == (#[trigger] dets@.take(
                    i + 1,
                )[i2]).label@ by {
                    if i2 < i {
                        let k0 = choose|k0: int|
                            0 <= k0 < pre.len() && (#[trigger] pre[k0]).label@ == dets@.take(
                                i as int,
                            )[i2].label@;
                        assert(symbols@[k0].label@ == dets@.take(i + 1)[i2].label@);
                    } else {
                        assert(symbols@[symbols@.len() - 1].label@ == dets@.take(i + 1)[
                            i2].label@);
                    }
                }
            }
        }
        i = i + 1;
    }
    proof {
        assert(dets@.take(dets@.len() as int) =~= dets@);
    }
    MappingResult {
        summary: MappingSummary { symbols, lineal_milli, area_milli },
        items: Vec::new(),
    }
}


proof fn lemma_count_label_zero_from_tally(t: Seq<SymbolCount>, s: Seq<Det>, label: Seq<char>)
    requires
        tally_exact(t, s),
        forall|k: int| 0 <= k < t.len() ==> (#[trigger] t[k]).label@ != label,
    ensures
        count_label(s, label) == 0,
{
    assert forall|i: int| 0 <= i < s.len() implies (#[trigger] s[i]).label@ != label by {
        let k = choose|k: int| 0 <= k < t.len() && (#[trigger] t[k]).label@ == s[i].label@;
        assert(t[k].label@ != label);
    }
    lemma_count_label_zero(s, label);
}

} // verus!
