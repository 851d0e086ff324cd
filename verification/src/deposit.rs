//! The allocation engine: depositing into a branch distributes the amount
//! over its children in three passes (fixed allotments, a converging
//! weighted-flex loop, and an even residual split), each pass threading a
//! running remainder.
//!
//! The whole algorithm is first written as a family of specification
//! functions over the model, indexed by a depth budget `d` so that the
//! recursion into children (whose balances the passes have already
//! changed) has a decreasing measure; the executable code is then proved
//! to compute exactly `spec_deposit`, the family at budget `depth_of`.

use vstd::prelude::*;

use crate::account::{
    Account, AccountType, BranchEntry, Inflow, entries_view, entry_view, inflow_view, opt_view,
};
use crate::model::{
    AccountV, EntryV, InflowV, NodeV, bal_bounded, bal_bounded_entries, bal_of, balance_limit,
    cap_of, count_of, depth_of, entry_at_cap, entry_cap, lemma_bal_bounded_index,
    lemma_bal_sum_bound, lemma_count_pos, lemma_depth_le_count, lemma_max_depth_le_sum_count,
    lemma_sum_count_bounds, lemma_sum_count_mono, lemma_sum_flex_bounds, lemma_wf_entries_index,
    lemma_wf_entries_prefix, lemma_max_depth_index,
    max_depth, size_limit, sum_bal, sum_caps, sum_count, sum_flex, unit_limit, wf, wf_entries,
    wf_entry, wf_node, working_limit,
};
use core::mem;
use vstd::arithmetic::div_mod::lemma_fundamental_div_mod;

verus! {

/// The negligible remainder, in minor units: a distribution pass gives up
/// once no more than this is left.
pub open spec fn threshold() -> int {
    1
}

/// The smaller of two amounts.
pub open spec fn min2(a: int, b: int) -> int {
    if a < b {
        a
    } else {
        b
    }
}

/// What a `Fixed` child takes from `avail`: a saturated child takes
/// nothing; otherwise its allotment, clamped by its cap headroom (when it
/// has a cap) and by what is available.
pub open spec fn fixed_take(e: EntryV, avail: int) -> int {
    match e.inflow {
        InflowV::Fixed(f) => if entry_at_cap(e) {
            0
        } else {
            let x = min2(f, avail);
            match entry_cap(e) {
                Some(c) => min2(c - bal_of(e.account), x),
                None => x,
            }
        },
        InflowV::Flex(_) => 0,
    }
}

/// What an eligible `Flex` child of weight `w` takes from `avail` when
/// each unit of weight is worth `per`: its proportional share, clamped by
/// its cap headroom (when it has a cap) and by what is available.
pub open spec fn flex_take(e: EntryV, w: int, per: int, avail: int) -> int {
    let x = min2(per * w, avail);
    match entry_cap(e) {
        Some(c) => min2(c - bal_of(e.account), x),
        None => x,
    }
}

/// The fixed pass over the first `n` entries: each `Fixed` child in order
/// takes `fixed_take` of what is then available and it is deposited into
/// the child; `Flex` children are untouched.
pub open spec fn fixed_pass_n(s: Seq<EntryV>, r: int, n: int, d: int) -> (Seq<EntryV>, int)
    decreases d, 1int, n, 0int,
{
    if d <= 0 || n <= 0 || n > s.len() {
        (s, r)
    } else {
        let done = fixed_pass_n(s, r, n - 1, d);
        let s1 = done.0;
        let r1 = done.1;
        let e = s1[n - 1];
        match e.inflow {
            InflowV::Fixed(_) => {
                let take = fixed_take(e, r1);
                (
                    s1.update(
                        n - 1,
                        EntryV {
                            account: deposit_n(e.account, take, d - 1),
                            inflow: e.inflow,
                            max_override: e.max_override,
                        },
                    ),
                    r1 - take,
                )
            }
            InflowV::Flex(_) => (s1, r1),
        }
    }
}

/// One flex round over the first `n` entries: each eligible `Flex` child
/// (not saturated) in order takes `flex_take` of what is then available
/// and it is deposited into the child.
pub open spec fn flex_pass_n(s: Seq<EntryV>, per: int, r: int, n: int, d: int) -> (
    Seq<EntryV>,
    int,
)
    decreases d, 1int, n, 0int,
{
    if d <= 0 || n <= 0 || n > s.len() {
        (s, r)
    } else {
        let done = flex_pass_n(s, per, r, n - 1, d);
        let s1 = done.0;
        let r1 = done.1;
        let e = s1[n - 1];
        match e.inflow {
            InflowV::Flex(w) => {
                if entry_at_cap(e) {
                    (s1, r1)
                } else {
                    let take = flex_take(e, w, per, r1);
                    (
                        s1.update(
                            n - 1,
                            EntryV {
                                account: deposit_n(e.account, take, d - 1),
                                inflow: e.inflow,
                                max_override: e.max_override,
                            },
                        ),
                        r1 - take,
                    )
                }
            }
            InflowV::Fixed(_) => (s1, r1),
        }
    }
}

/// The converging flex loop: while some unsaturated flex weight remains
/// and more than the negligible threshold is left, run a flex round; a
/// child saturating mid-round frees its share for the rest, so the round
/// is repeated. In the fixed-point model a round that places nothing (the
/// per-weight share rounds to zero) ends the loop.
pub open spec fn flex_loop_n(s: Seq<EntryV>, r: int, d: int) -> (Seq<EntryV>, int)
    decreases d, 2int, r, 0int,
{
    let tf = sum_flex(s, s.len() as int);
    if d <= 0 || tf <= 0 || r <= threshold() {
        (s, r)
    } else {
        let per = r / tf;
        let done = flex_pass_n(s, per, r, s.len() as int, d);
        let s1 = done.0;
        let r1 = done.1;
        if 0 <= r1 < r {
            flex_loop_n(s1, r1, d)
        } else {
            (s1, r1)
        }
    }
}

/// The residual pass: `share` is deposited into every one of the first
/// `n` children unconditionally, with no cap check, so that money is not
/// silently dropped when every child is saturated.
pub open spec fn residual_pass_n(s: Seq<EntryV>, share: int, n: int, d: int) -> Seq<EntryV>
    decreases d, 1int, n, 0int,
{
    if d <= 0 || n <= 0 || n > s.len() {
        s
    } else {
        let s1 = residual_pass_n(s, share, n - 1, d);
        let e = s1[n - 1];
        s1.update(
            n - 1,
            EntryV {
                account: deposit_n(e.account, share, d - 1),
                inflow: e.inflow,
                max_override: e.max_override,
            },
        )
    }
}

/// Depositing `amount` with depth budget `d`: a leaf adds it to its
/// balance unconditionally (cap enforcement happens one level up); a
/// branch runs the fixed pass, the flex loop, and then, when more than
/// the threshold is still unplaced, splits it evenly over all children.
pub open spec fn deposit_n(a: AccountV, amount: int, d: int) -> AccountV
    decreases d, 3int, 0int, 0int,
{
    match a.node {
        NodeV::Leaf { balance, max } => AccountV {
            name: a.name,
            node: NodeV::Leaf { balance: balance + amount, max },
        },
        NodeV::Branch { children } => {
            if d <= 0 {
                a
            } else {
                let fixed = fixed_pass_n(children, amount, children.len() as int, d);
                let flexed = flex_loop_n(fixed.0, fixed.1, d);
                let cs2 = flexed.0;
                let r2 = flexed.1;
                let cs3 = if r2 > threshold() && cs2.len() > 0 {
                    residual_pass_n(cs2, r2 / cs2.len() as int, cs2.len() as int, d)
                } else {
                    cs2
                };
                AccountV { name: a.name, node: NodeV::Branch { children: cs3 } }
            }
        }
    }
}

/// Depositing `amount` into `a`: the budget `depth_of(a)` is always
/// enough, so this is the algorithm itself.
pub open spec fn spec_deposit(a: AccountV, amount: int) -> AccountV {
    deposit_n(a, amount, depth_of(a))
}


/// The larger of two amounts.
pub open spec fn max2(a: int, b: int) -> int {
    if a > b {
        a
    } else {
        b
    }
}

/// Magnitude of an amount.
pub open spec fn abs2(a: int) -> int {
    if a < 0 {
        -a
    } else {
        a
    }
}

/// Everything about an entry that a deposit leaves untouched: its rule,
/// its caps, its name, and its child's kind, size and height. Only
/// balances move.
pub open spec fn entry_meta_eq(e1: EntryV, e2: EntryV) -> bool {
    &&& e1.inflow == e2.inflow
    &&& e1.max_override == e2.max_override
    &&& e1.account.name == e2.account.name
    &&& cap_of(e1.account) == cap_of(e2.account)
    &&& count_of(e1.account) == count_of(e2.account)
    &&& depth_of(e1.account) == depth_of(e2.account)
    &&& (e1.account.node is Leaf <==> e2.account.node is Leaf)
}

/// `entry_meta_eq`, pointwise over two sequences of entries.
pub open spec fn entries_meta_eq(s1: Seq<EntryV>, s2: Seq<EntryV>) -> bool {
    s1.len() == s2.len() && forall|i: int|
        0 <= i < s1.len() ==> entry_meta_eq(#[trigger] s1[i], s2[i])
}

/// A balance bound also holds for any larger bound.
pub proof fn lemma_bal_bounded_mono(a: AccountV, m1: int, m2: int)
    requires
        bal_bounded(a, m1),
        m1 <= m2,
    ensures
        bal_bounded(a, m2),
    decreases a, 1int,
{
    match a.node {
        NodeV::Leaf { .. } => {}
        NodeV::Branch { children } => {
            lemma_bal_bounded_entries_mono(children, children.len() as int, m1, m2);
        }
    }
}

/// Prefix form of `lemma_bal_bounded_mono`.
pub proof fn lemma_bal_bounded_entries_mono(s: Seq<EntryV>, n: int, m1: int, m2: int)
    requires
        bal_bounded_entries(s, n, m1),
        m1 <= m2,
    ensures
        bal_bounded_entries(s, n, m2),
    decreases s, 0int, n,
{
    if 0 < n <= s.len() {
        lemma_bal_bounded_entries_mono(s, n - 1, m1, m2);
        lemma_bal_bounded_mono(s[n - 1].account, m1, m2);
    }
}

/// Metadata-equal prefixes have the same cap sums, node counts and
/// heights, and are equally well-formed.
pub proof fn lemma_meta_sums(s1: Seq<EntryV>, s2: Seq<EntryV>, n: int)
    requires
        entries_meta_eq(s1, s2),
    ensures
        sum_caps(s1, n) == sum_caps(s2, n),
        sum_count(s1, n) == sum_count(s2, n),
        max_depth(s1, n) == max_depth(s2, n),
    decreases n,
{
    if 0 < n <= s1.len() {
        lemma_meta_sums(s1, s2, n - 1);
        assert(entry_meta_eq(s1[n - 1], s2[n - 1]));
        assert(entry_cap(s1[n - 1]) == entry_cap(s2[n - 1]));
    }
}

/// A deposit moves balances and nothing else: the result has the same
/// name, kind, caps, size and height; it stays well-formed; its leaf
/// balances grow by at most the amount in magnitude; and its total
/// balance changes by the amount less what was dropped, which is never
/// negative (money moved, not created).
pub proof fn lemma_deposit_props(a: AccountV, amt: int, d: int, bb: int, fl: int)
    requires
        wf_node(a),
        bal_bounded(a, bb),
        0 <= bb,
        -fl <= amt <= fl,
    ensures
        ({
            let res = deposit_n(a, amt, d);
            &&& res.name == a.name
            &&& (res.node is Leaf <==> a.node is Leaf)
            &&& cap_of(res) == cap_of(a)
            &&& count_of(res) == count_of(a)
            &&& depth_of(res) == depth_of(a)
            &&& wf_node(res)
            &&& bal_bounded(res, bb + fl)
            &&& min2(0, amt) <= bal_of(res) - bal_of(a) <= max2(0, amt)
        }),
    decreases d, 3int, 0int, 0int,
{
    let res = deposit_n(a, amt, d);
    match a.node {
        NodeV::Leaf { balance, max } => {
            assert(res.name == a.name);
            assert(res.node is Leaf);
            assert(cap_of(res) == cap_of(a));
            assert(count_of(res) == count_of(a));
            assert(depth_of(res) == depth_of(a));
            assert(wf_node(res));
            assert(bal_bounded(res, bb + fl));
            assert(min2(0, amt) <= bal_of(res) - bal_of(a) <= max2(0, amt));
        }
        NodeV::Branch { children } => {
            if d <= 0 {
                lemma_bal_bounded_mono(a, bb, bb + fl);
            } else {
                let len = children.len() as int;
                let fixed = fixed_pass_n(children, amt, len, d);
                lemma_fixed_pass_props(children, amt, len, d, bb, fl);
                let cs1 = fixed.0;
                let r1 = fixed.1;
                let flexed = flex_loop_n(cs1, r1, d);
                lemma_flex_loop_props(cs1, r1, d, bb + abs2(amt - r1), fl);
                let cs2 = flexed.0;
                let r2 = flexed.1;
                let bb2 = bb + abs2(amt - r1) + abs2(r1 - r2);
                let cs3 = if r2 > threshold() && cs2.len() > 0 {
                    residual_pass_n(cs2, r2 / cs2.len() as int, cs2.len() as int, d)
                } else {
                    cs2
                };
                if r2 > threshold() && cs2.len() > 0 {
                    let share = r2 / cs2.len() as int;
                    lemma_fundamental_div_mod(r2, cs2.len() as int);
                    assert(0 <= share);
                    assert(share * cs2.len() as int <= r2) by (nonlinear_arith)
                        requires
                            r2 == cs2.len() as int * share + r2 % cs2.len() as int,
                            0 <= r2 % cs2.len() as int,
                    ;
                    lemma_residual_props(cs2, share, cs2.len() as int, d, bb2, fl);
                }
                lemma_meta_sums(cs1, children, len);
                lemma_meta_sums(cs2, children, len);
                lemma_meta_sums(cs3, children, len);
                lemma_bal_bounded_entries_mono(cs3, len, bb2 + (if r2 > threshold()
                    && cs2.len() > 0 {
                    r2 / cs2.len() as int
                } else {
                    0
                }), bb + fl);
                assert(bal_bounded(res, bb + fl));
                assert(min2(0, amt) <= bal_of(res) - bal_of(a) <= max2(0, amt));
            }
        }
    }
}

/// `lemma_deposit_props` for the fixed pass over a prefix.
pub proof fn lemma_fixed_pass_props(s: Seq<EntryV>, r: int, n: int, d: int, bb: int, fl: int)
    requires
        wf_entries(s, s.len() as int),
        bal_bounded_entries(s, s.len() as int, bb),
        0 <= bb,
        -fl <= r <= fl,
        n <= s.len(),
    ensures
        ({
            let (s1, r1) = fixed_pass_n(s, r, n, d);
            &&& s1.len() == s.len()
            &&& entries_meta_eq(s1, s)
            &&& forall|i: int| n <= i < s.len() ==> s1[i] == s[i]
            &&& wf_entries(s1, s1.len() as int)
            &&& min2(0, r) <= r1 <= max2(0, r)
            &&& bal_bounded_entries(s1, s1.len() as int, bb + abs2(r - r1))
            &&& abs2(r - r1) <= abs2(r)
            &&& min2(0, r - r1) <= sum_bal(s1, s1.len() as int) - sum_bal(s, s.len() as int)
                <= max2(0, r - r1)
        }),
    decreases d, 1int, n, 0int,
{
    if d <= 0 || n <= 0 || n > s.len() {
    } else {
        lemma_fixed_pass_props(s, r, n - 1, d, bb, fl);
        let done = fixed_pass_n(s, r, n - 1, d);
        let s1 = done.0;
        let r1 = done.1;
        let e = s1[n - 1];
        assert(e == s[n - 1]);
        match e.inflow {
            InflowV::Fixed(_) => {
                let take = fixed_take(e, r1);
                crate::model::lemma_wf_entries_index(s, s.len() as int, n - 1);
                crate::model::lemma_bal_bounded_index(s, s.len() as int, bb, n - 1);
                lemma_deposit_props(e.account, take, d - 1, bb, abs2(take));
                let e2 = EntryV {
                    account: deposit_n(e.account, take, d - 1),
                    inflow: e.inflow,
                    max_override: e.max_override,
                };
                let s2 = s1.update(n - 1, e2);
                lemma_sum_bal_update(s1, n - 1, e2);
                lemma_wf_entries_update(s1, n - 1, e2);
                lemma_bal_bounded_entries_update(
                    s1,
                    n - 1,
                    e2,
                    bb + abs2(r - r1),
                    bb + abs2(take),
                );
                lemma_bal_bounded_entries_mono(
                    s2,
                    s2.len() as int,
                    max2(bb + abs2(r - r1), bb + abs2(take)),
                    bb + abs2(r - (r1 - take)),
                );
            }
            InflowV::Flex(_) => {}
        }
    }
}


/// Updating one entry shifts a balance sum by that entry's change.
pub proof fn lemma_sum_bal_update(s: Seq<EntryV>, i: int, e: EntryV)
    requires
        0 <= i < s.len(),
    ensures
        sum_bal(s.update(i, e), s.len() as int) == sum_bal(s, s.len() as int) - bal_of(
            s[i].account,
        ) + bal_of(e.account),
{
    lemma_sum_bal_update_n(s, i, e, s.len() as int);
}

/// Prefix form of `lemma_sum_bal_update`.
pub proof fn lemma_sum_bal_update_n(s: Seq<EntryV>, i: int, e: EntryV, n: int)
    requires
        0 <= i < s.len(),
        n <= s.len(),
    ensures
        sum_bal(s.update(i, e), n) == sum_bal(s, n) + if i < n {
            bal_of(e.account) - bal_of(s[i].account)
        } else {
            0
        },
    decreases n,
{
    if n > 0 {
        lemma_sum_bal_update_n(s, i, e, n - 1);
    }
}

/// Updating one entry with a well-formed one keeps the prefix well-formed.
pub proof fn lemma_wf_entries_update(s: Seq<EntryV>, i: int, e: EntryV)
    requires
        wf_entries(s, s.len() as int),
        wf_entry(e),
        0 <= i < s.len(),
    ensures
        wf_entries(s.update(i, e), s.len() as int),
{
    lemma_wf_entries_update_n(s, i, e, s.len() as int);
}

/// Prefix form of `lemma_wf_entries_update`.
pub proof fn lemma_wf_entries_update_n(s: Seq<EntryV>, i: int, e: EntryV, n: int)
    requires
        wf_entries(s, s.len() as int),
        wf_entry(e),
        0 <= i < s.len(),
        n <= s.len(),
    ensures
        wf_entries(s.update(i, e), n),
    decreases n,
{
    if n > 0 {
        lemma_wf_entries_update_n(s, i, e, n - 1);
        crate::model::lemma_wf_entries_index(s, s.len() as int, n - 1);
    }
}

/// Updating one entry bounds the prefix by the larger of the two bounds.
pub proof fn lemma_bal_bounded_entries_update(s: Seq<EntryV>, i: int, e: EntryV, m1: int, m2: int)
    requires
        bal_bounded_entries(s, s.len() as int, m1),
        bal_bounded(e.account, m2),
        0 <= i < s.len(),
        m1 <= max2(m1, m2),
    ensures
        bal_bounded_entries(s.update(i, e), s.len() as int, max2(m1, m2)),
{
    lemma_bal_bounded_entries_update_n(s, i, e, m1, m2, s.len() as int);
}

/// Prefix form of `lemma_bal_bounded_entries_update`.
pub proof fn lemma_bal_bounded_entries_update_n(
    s: Seq<EntryV>,
    i: int,
    e: EntryV,
    m1: int,
    m2: int,
    n: int,
)
    requires
        bal_bounded_entries(s, s.len() as int, m1),
        bal_bounded(e.account, m2),
        0 <= i < s.len(),
        n <= s.len(),
    ensures
        bal_bounded_entries(s.update(i, e), n, max2(m1, m2)),
    decreases n,
{
    if n > 0 {
        lemma_bal_bounded_entries_update_n(s, i, e, m1, m2, n - 1);
        crate::model::lemma_bal_bounded_index(s, s.len() as int, m1, n - 1);
        if n - 1 == i {
            lemma_bal_bounded_mono(e.account, m2, max2(m1, m2));
        } else {
            lemma_bal_bounded_mono(s[n - 1].account, m1, max2(m1, m2));
        }
    }
}

/// `lemma_deposit_props` for one flex round over a prefix: only run with a
/// non-negative remainder and per-weight share, so everything placed is
/// non-negative.
pub proof fn lemma_flex_pass_props(s: Seq<EntryV>, per: int, r: int, n: int, d: int, bb: int, fl:
    int)
    requires
        wf_entries(s, s.len() as int),
        bal_bounded_entries(s, s.len() as int, bb),
        0 <= bb,
        0 <= per,
        0 <= r <= fl,
        n <= s.len(),
    ensures
        ({
            let (s1, r1) = flex_pass_n(s, per, r, n, d);
            &&& s1.len() == s.len()
            &&& entries_meta_eq(s1, s)
            &&& forall|i: int| n <= i < s.len() ==> s1[i] == s[i]
            &&& wf_entries(s1, s1.len() as int)
            &&& 0 <= r1 <= r
            &&& bal_bounded_entries(s1, s1.len() as int, bb + (r - r1))
            &&& 0 <= sum_bal(s1, s1.len() as int) - sum_bal(s, s.len() as int) <= r - r1
        }),
    decreases d, 1int, n, 0int,
{
    if d <= 0 || n <= 0 || n > s.len() {
    } else {
        lemma_flex_pass_props(s, per, r, n - 1, d, bb, fl);
        let done = flex_pass_n(s, per, r, n - 1, d);
        let s1 = done.0;
        let r1 = done.1;
        let e = s1[n - 1];
        assert(e == s[n - 1]);
        match e.inflow {
            InflowV::Flex(w) => {
                if entry_at_cap(e) {
                } else {
                    let take = flex_take(e, w, per, r1);
                    crate::model::lemma_wf_entries_index(s, s.len() as int, n - 1);
                    crate::model::lemma_bal_bounded_index(s, s.len() as int, bb, n - 1);
                    assert(0 <= per * w) by (nonlinear_arith)
                        requires
                            0 <= per,
                            0 <= w,
                    ;
                    assert(0 <= take <= r1);
                    lemma_deposit_props(e.account, take, d - 1, bb, take);
                    let e2 = EntryV {
                        account: deposit_n(e.account, take, d - 1),
                        inflow: e.inflow,
                        max_override: e.max_override,
                    };
                    let s2 = s1.update(n - 1, e2);
                    lemma_sum_bal_update(s1, n - 1, e2);
                    lemma_wf_entries_update(s1, n - 1, e2);
                    lemma_bal_bounded_entries_update(s1, n - 1, e2, bb + (r - r1), bb + take);
                    lemma_bal_bounded_entries_mono(
                        s2,
                        s2.len() as int,
                        max2(bb + (r - r1), bb + take),
                        bb + (r - (r1 - take)),
                    );
                    assert forall|i: int|
                        0 <= i < s2.len() implies entry_meta_eq(#[trigger] s2[i], s[i]) by {
                        if i != n - 1 {
                            assert(s2[i] == s1[i]);
                        }
                    };
                }
            }
            InflowV::Fixed(_) => {}
        }
    }
}

/// `lemma_deposit_props` for the whole flex loop.
pub proof fn lemma_flex_loop_props(s: Seq<EntryV>, r: int, d: int, bb: int, fl: int)
    requires
        wf_entries(s, s.len() as int),
        bal_bounded_entries(s, s.len() as int, bb),
        0 <= bb,
        -fl <= r <= fl,
    ensures
        ({
            let (s1, r1) = flex_loop_n(s, r, d);
            &&& s1.len() == s.len()
            &&& entries_meta_eq(s1, s)
            &&& wf_entries(s1, s1.len() as int)
            &&& min2(0, r) <= r1 <= max2(0, r)
            &&& abs2(r - r1) <= abs2(r)
            &&& bal_bounded_entries(s1, s1.len() as int, bb + abs2(r - r1))
            &&& min2(0, r - r1) <= sum_bal(s1, s1.len() as int) - sum_bal(s, s.len() as int)
                <= max2(0, r - r1)
        }),
    decreases d, 2int, r, 0int,
{
    let tf = sum_flex(s, s.len() as int);
    if d <= 0 || tf <= 0 || r <= threshold() {
    } else {
        let per = r / tf;
        lemma_fundamental_div_mod(r, tf);
        assert(0 <= per) by (nonlinear_arith)
            requires
                r == tf * per + r % tf,
                0 <= r % tf < tf,
                r > 0,
                tf > 0,
        ;
        lemma_flex_pass_props(s, per, r, s.len() as int, d, bb, fl);
        let done = flex_pass_n(s, per, r, s.len() as int, d);
        let s1 = done.0;
        let r1 = done.1;
        if 0 <= r1 < r {
            lemma_flex_loop_props(s1, r1, d, bb + (r - r1), fl);
        }
    }
}

/// `lemma_deposit_props` for the residual pass: a non-negative `share` is
/// deposited into every child of the prefix unconditionally.
pub proof fn lemma_residual_props(s: Seq<EntryV>, share: int, n: int, d: int, bb: int, fl: int)
    requires
        wf_entries(s, s.len() as int),
        bal_bounded_entries(s, s.len() as int, bb),
        0 <= bb,
        0 <= share <= fl,
        0 <= n <= s.len(),
    ensures
        ({
            let s1 = residual_pass_n(s, share, n, d);
            &&& s1.len() == s.len()
            &&& entries_meta_eq(s1, s)
            &&& forall|i: int| n <= i < s.len() ==> s1[i] == s[i]
            &&& wf_entries(s1, s1.len() as int)
            &&& bal_bounded_entries(s1, s1.len() as int, bb + share)
            &&& 0 <= sum_bal(s1, s1.len() as int) - sum_bal(s, s.len() as int) <= n * share
        }),
    decreases d, 1int, n, 0int,
{
    if d <= 0 || n <= 0 || n > s.len() {
        lemma_bal_bounded_entries_mono(s, s.len() as int, bb, bb + share);
        if n > 0 {
            assert(0 <= n * share) by (nonlinear_arith)
                requires
                    n > 0,
                    share >= 0,
            ;
        }
    } else {
        lemma_residual_props(s, share, n - 1, d, bb, fl);
        let s1 = residual_pass_n(s, share, n - 1, d);
        let e = s1[n - 1];
        assert(e == s[n - 1]);
        crate::model::lemma_wf_entries_index(s, s.len() as int, n - 1);
        crate::model::lemma_bal_bounded_index(s, s.len() as int, bb, n - 1);
        lemma_deposit_props(e.account, share, d - 1, bb, share);
        let e2 = EntryV {
            account: deposit_n(e.account, share, d - 1),
            inflow: e.inflow,
            max_override: e.max_override,
        };
        let s2 = s1.update(n - 1, e2);
        lemma_sum_bal_update(s1, n - 1, e2);
        lemma_wf_entries_update(s1, n - 1, e2);
        lemma_bal_bounded_entries_update(s1, n - 1, e2, bb + share, bb + share);
        assert((n - 1) * share + share == n * share) by (nonlinear_arith);
        assert forall|i: int| 0 <= i < s2.len() implies entry_meta_eq(#[trigger] s2[i], s[i]) by {
            if i != n - 1 {
                assert(s2[i] == s1[i]);
            }
        };
    }
}


/// Removing an element and putting another back in its place is an update.
pub proof fn lemma_remove_insert(s: Seq<BranchEntry>, i: int, e: BranchEntry)
    requires
        0 <= i < s.len(),
    ensures
        s.remove(i).insert(i, e) == s.update(i, e),
{
    assert(s.remove(i).insert(i, e) =~= s.update(i, e));
}

/// Removing an element and putting it back is no change.
pub proof fn lemma_remove_insert_same(s: Seq<BranchEntry>, i: int)
    requires
        0 <= i < s.len(),
    ensures
        s.remove(i).insert(i, s[i]) == s,
{
    assert(s.remove(i).insert(i, s[i]) =~= s);
}

/// Updating one slot commutes with abstraction.
pub proof fn lemma_entries_view_update(s: Seq<BranchEntry>, i: int, e: BranchEntry)
    requires
        0 <= i < s.len(),
    ensures
        entries_view(s.update(i, e)) == entries_view(s).update(i, entry_view(e)),
{
    assert(entries_view(s.update(i, e)) =~= entries_view(s).update(i, entry_view(e)));
}

/// The flex weight a child slot contributes right now: its weight if it is
/// an unsaturated `Flex` child, else zero.
fn entry_flex_of(e: &BranchEntry) -> (r: i64)
    requires
        wf_entry(entry_view(*e)),
        count_of(e.account@) <= size_limit(),
        bal_bounded(e.account@, working_limit()),
    ensures
        r as int == crate::model::entry_flex(entry_view(*e)),
{
    match e.inflow {
        Inflow::Fixed(_) => 0,
        Inflow::Flex(w) => {
            if Account::entry_saturated(e) {
                0
            } else {
                w
            }
        }
    }
}

/// The total flex weight of all unsaturated `Flex` children.
#[verifier::loop_isolation(false)]
fn total_flex_of(children: &Vec<BranchEntry>) -> (tf: i64)
    requires
        wf_entries(entries_view(children@), children@.len() as int),
        sum_count(entries_view(children@), children@.len() as int) < size_limit(),
        bal_bounded_entries(entries_view(children@), children@.len() as int, working_limit()),
    ensures
        tf as int == sum_flex(entries_view(children@), children@.len() as int),
        0 <= tf,
{
    let ghost cs = entries_view(children@);
    let mut tf: i64 = 0;
    let mut i: usize = 0;
    while i < children.len()
        invariant
            i <= children.len(),
            tf as int == sum_flex(cs, i as int),
            0 <= tf as int <= i as int * crate::model::weight_limit(),
        decreases children.len() - i,
    {
        let e = &children[i];
        proof {
            lemma_wf_entries_index(cs, cs.len() as int, i as int);
            lemma_bal_bounded_index(cs, cs.len() as int, working_limit(), i as int);
            lemma_sum_count_bounds(cs, cs.len() as int);
            lemma_wf_entries_prefix(cs, i as int, cs.len() as int);
            lemma_sum_flex_bounds(cs, i as int);
            assert(cs[i as int] == entry_view(children@[i as int]));
        }
        tf = tf + entry_flex_of(e);
        i += 1;
        proof {
            lemma_wf_entries_prefix(cs, i as int, cs.len() as int);
            lemma_sum_flex_bounds(cs, i as int);
        }
    }
    tf
}


/// The fixed pass, executably: each `Fixed` child in order takes its
/// clamped allotment from what is available; returns what remains.
#[verifier::loop_isolation(false)]
fn fixed_pass_exec(
    children: &mut Vec<BranchEntry>,
    amount: i64,
    Ghost(d): Ghost<int>,
    Ghost(bb): Ghost<int>,
) -> (rem: i64)
    requires
        wf_entries(entries_view(old(children)@), old(children)@.len() as int),
        sum_count(entries_view(old(children)@), old(children)@.len() as int) < size_limit(),
        max_depth(entries_view(old(children)@), old(children)@.len() as int) < d,
        bal_bounded_entries(entries_view(old(children)@), old(children)@.len() as int, bb),
        0 <= bb,
        bb + (d + 1) * unit_limit() <= working_limit(),
        -unit_limit() <= amount <= unit_limit(),
    ensures
        ({
            let st = fixed_pass_n(
                entries_view(old(children)@),
                amount as int,
                old(children)@.len() as int,
                d,
            );
            entries_view(final(children)@) == st.0 && rem as int == st.1
        }),
    decreases d, 1int,
{
    let ghost cs0 = entries_view(old(children)@);
    let ghost len = cs0.len() as int;
    let mut remaining: i64 = amount;
    let mut i: usize = 0;
    while i < children.len()
        invariant
            i <= children.len(),
            children@.len() == cs0.len(),
            ({
                let st = fixed_pass_n(cs0, amount as int, i as int, d);
                entries_view(children@) == st.0 && remaining as int == st.1
            }),
        decreases children.len() - i,
    {
        let ghost cur = entries_view(children@);
        let ghost r1 = remaining as int;
        proof {
            lemma_fixed_pass_props(cs0, amount as int, i as int, d, bb, unit_limit());
            lemma_max_depth_le_sum_count(cs0, len);
            lemma_wf_entries_index(cs0, len, i as int);
            lemma_bal_bounded_index(cs0, len, bb, i as int);
            lemma_sum_count_bounds(cs0, len);
            lemma_max_depth_index(cs0, len, i as int);
            assert(cur[i as int] == cs0[i as int]);
            assert(cur[i as int] == entry_view(children@[i as int]));
        }
        let ghost before = children@;
        let e = children.remove(i);
        proof {
            lemma_count_pos(e.account@);
            lemma_bal_bounded_mono(e.account@, bb, working_limit());
        }
        match e.inflow {
            Inflow::Fixed(f) => {
                let sat = Account::entry_saturated(&e);
                let take: i64 = if sat {
                    0
                } else {
                    let x = if f < remaining {
                        f
                    } else {
                        remaining
                    };
                    match Account::entry_cap_of(&e) {
                        Some(c) => {
                            proof {
                                crate::model::lemma_entry_cap_bound(entry_view(e));
                                lemma_bal_sum_bound(e.account@, working_limit());
                            }
                            let b = e.account.balance();
                            let gap = c - b;
                            if gap < x {
                                gap
                            } else {
                                x
                            }
                        }
                        None => x,
                    }
                };
                proof {
                    assert(take as int == fixed_take(cur[i as int], r1));
                    assert(min2(0, r1) <= take as int <= max2(0, r1));
                }
                let ghost e2v = EntryV {
                    account: deposit_n(e.account@, take as int, d - 1),
                    inflow: inflow_view(e.inflow),
                    max_override: opt_view(e.max_override),
                };
                let acc2 = deposit_core(e.account, take, Ghost(d - 1), Ghost(bb));
                let e2 = BranchEntry {
                    account: acc2,
                    inflow: e.inflow,
                    max_override: e.max_override,
                };
                children.insert(i, e2);
                proof {
                    lemma_remove_insert(before, i as int, e2);
                    lemma_entries_view_update(before, i as int, e2);
                    assert(entry_view(e2) == e2v);
                    assert(entries_view(children@) == cur.update(i as int, e2v));
                }
                remaining = remaining - take;
            }
            Inflow::Flex(_) => {
                children.insert(i, e);
                proof {
                    lemma_remove_insert_same(before, i as int);
                    assert(entries_view(children@) == cur);
                }
            }
        }
        i += 1;
    }
    remaining
}


/// One flex round, executably: each unsaturated `Flex` child in order
/// takes its clamped proportional share of what is available.
#[verifier::loop_isolation(false)]
fn flex_pass_exec(
    children: &mut Vec<BranchEntry>,
    per: i64,
    avail: i64,
    Ghost(d): Ghost<int>,
    Ghost(bb2): Ghost<int>,
) -> (rem: i64)
    requires
        wf_entries(entries_view(old(children)@), old(children)@.len() as int),
        sum_count(entries_view(old(children)@), old(children)@.len() as int) < size_limit(),
        max_depth(entries_view(old(children)@), old(children)@.len() as int) < d,
        bal_bounded_entries(entries_view(old(children)@), old(children)@.len() as int, bb2),
        0 <= bb2,
        bb2 + d * unit_limit() <= working_limit(),
        0 <= per <= unit_limit(),
        0 <= avail <= unit_limit(),
    ensures
        ({
            let st = flex_pass_n(
                entries_view(old(children)@),
                per as int,
                avail as int,
                old(children)@.len() as int,
                d,
            );
            entries_view(final(children)@) == st.0 && rem as int == st.1
        }),
    decreases d, 1int,
{
    let ghost cs0 = entries_view(old(children)@);
    let ghost len = cs0.len() as int;
    let mut remaining: i64 = avail;
    let mut i: usize = 0;
    while i < children.len()
        invariant
            i <= children.len(),
            children@.len() == cs0.len(),
            ({
                let st = flex_pass_n(cs0, per as int, avail as int, i as int, d);
                entries_view(children@) == st.0 && remaining as int == st.1
            }),
        decreases children.len() - i,
    {
        let ghost cur = entries_view(children@);
        let ghost r1 = remaining as int;
        proof {
            lemma_flex_pass_props(cs0, per as int, avail as int, i as int, d, bb2, unit_limit());
            lemma_max_depth_le_sum_count(cs0, len);
            lemma_wf_entries_index(cs0, len, i as int);
            lemma_bal_bounded_index(cs0, len, bb2, i as int);
            lemma_sum_count_bounds(cs0, len);
            lemma_max_depth_index(cs0, len, i as int);
            assert(cur[i as int] == cs0[i as int]);
            assert(cur[i as int] == entry_view(children@[i as int]));
        }
        let ghost before = children@;
        let e = children.remove(i);
        proof {
            lemma_count_pos(e.account@);
            lemma_bal_bounded_mono(e.account@, bb2, working_limit());
        }
        match e.inflow {
            Inflow::Flex(w) => {
                let sat = Account::entry_saturated(&e);
                if sat {
                    children.insert(i, e);
                    proof {
                        lemma_remove_insert_same(before, i as int);
                        assert(entries_view(children@) == cur);
                    }
                } else {
                    proof {
                        assert(0 <= per as int * w as int <= 0x100_0000_0000 * 0x1_0000)
                            by (nonlinear_arith)
                            requires
                                0 <= per as int <= 0x100_0000_0000,
                                0 <= w as int <= 0x1_0000,
                        ;
                    }
                    let p = per * w;
                    let x = if p < remaining {
                        p
                    } else {
                        remaining
                    };
                    let take: i64 = match Account::entry_cap_of(&e) {
                        Some(c) => {
                            proof {
                                crate::model::lemma_entry_cap_bound(entry_view(e));
                                lemma_bal_sum_bound(e.account@, working_limit());
                            }
                            let b = e.account.balance();
                            let gap = c - b;
                            if gap < x {
                                gap
                            } else {
                                x
                            }
                        }
                        None => x,
                    };
                    proof {
                        assert(take as int == flex_take(cur[i as int], w as int, per as int, r1));
                        assert(0 <= take as int <= r1);
                    }
                    let ghost e2v = EntryV {
                        account: deposit_n(e.account@, take as int, d - 1),
                        inflow: inflow_view(e.inflow),
                        max_override: opt_view(e.max_override),
                    };
                    let acc2 = deposit_core(e.account, take, Ghost(d - 1), Ghost(bb2));
                    let e2 = BranchEntry {
                        account: acc2,
                        inflow: e.inflow,
                        max_override: e.max_override,
                    };
                    children.insert(i, e2);
                    proof {
                        lemma_remove_insert(before, i as int, e2);
                        lemma_entries_view_update(before, i as int, e2);
                        assert(entry_view(e2) == e2v);
                        assert(entries_view(children@) == cur.update(i as int, e2v));
                    }
                    remaining = remaining - take;
                }
            }
            Inflow::Fixed(_) => {
                children.insert(i, e);
                proof {
                    lemma_remove_insert_same(before, i as int);
                    assert(entries_view(children@) == cur);
                }
            }
        }
        i += 1;
    }
    remaining
}

/// The residual pass, executably: `share` is deposited into every child
/// unconditionally.
#[verifier::loop_isolation(false)]
fn residual_pass_exec(
    children: &mut Vec<BranchEntry>,
    share: i64,
    Ghost(d): Ghost<int>,
    Ghost(bb3): Ghost<int>,
) -> (u: ())
    requires
        wf_entries(entries_view(old(children)@), old(children)@.len() as int),
        sum_count(entries_view(old(children)@), old(children)@.len() as int) < size_limit(),
        max_depth(entries_view(old(children)@), old(children)@.len() as int) < d,
        bal_bounded_entries(entries_view(old(children)@), old(children)@.len() as int, bb3),
        0 <= bb3,
        bb3 + d * unit_limit() <= working_limit(),
        0 <= share <= unit_limit(),
    ensures
        entries_view(final(children)@) == residual_pass_n(
            entries_view(old(children)@),
            share as int,
            old(children)@.len() as int,
            d,
        ),
    decreases d, 1int,
{
    let ghost cs0 = entries_view(old(children)@);
    let ghost len = cs0.len() as int;
    let mut i: usize = 0;
    while i < children.len()
        invariant
            i <= children.len(),
            children@.len() == cs0.len(),
            entries_view(children@) == residual_pass_n(cs0, share as int, i as int, d),
        decreases children.len() - i,
    {
        let ghost cur = entries_view(children@);
        proof {
            lemma_residual_props(cs0, share as int, i as int, d, bb3, unit_limit());
            lemma_max_depth_le_sum_count(cs0, len);
            lemma_wf_entries_index(cs0, len, i as int);
            lemma_bal_bounded_index(cs0, len, bb3, i as int);
            lemma_sum_count_bounds(cs0, len);
            lemma_max_depth_index(cs0, len, i as int);
            assert(cur[i as int] == cs0[i as int]);
            assert(cur[i as int] == entry_view(children@[i as int]));
        }
        let ghost before = children@;
        let e = children.remove(i);
        proof {
            lemma_count_pos(e.account@);
        }
        let ghost e2v = EntryV {
            account: deposit_n(e.account@, share as int, d - 1),
            inflow: inflow_view(e.inflow),
            max_override: opt_view(e.max_override),
        };
        let acc2 = deposit_core(e.account, share, Ghost(d - 1), Ghost(bb3));
        let e2 = BranchEntry { account: acc2, inflow: e.inflow, max_override: e.max_override };
        children.insert(i, e2);
        proof {
            lemma_remove_insert(before, i as int, e2);
            lemma_entries_view_update(before, i as int, e2);
            assert(entry_view(e2) == e2v);
            assert(entries_view(children@) == cur.update(i as int, e2v));
        }
        i += 1;
    }
}

/// Depositing, executably: the recursion passes an explicit depth budget
/// and a running balance bound down the tree.
#[verifier::loop_isolation(false)]
fn deposit_core(a: Account, amount: i64, Ghost(d): Ghost<int>, Ghost(bb): Ghost<int>) -> (r:
    Account)
    requires
        wf_node(a@),
        count_of(a@) <= size_limit(),
        depth_of(a@) <= d,
        bal_bounded(a@, bb),
        0 <= bb,
        bb + (d + 1) * unit_limit() <= working_limit(),
        -unit_limit() <= amount <= unit_limit(),
    ensures
        r@ == deposit_n(a@, amount as int, d),
    decreases d, 3int,
{
    let ghost av = a@;
    let Account { name, data } = a;
    match data {
        AccountType::Leaf { balance, max } => {
            let r = Account { name, data: AccountType::Leaf { balance: balance + amount, max } };
            proof {
                assert(r@ =~= deposit_n(av, amount as int, d));
            }
            r
        }
        AccountType::Branch { mut children } => {
            let ghost cs0 = entries_view(children@);
            let ghost len = cs0.len() as int;
            proof {
                lemma_max_depth_le_sum_count(cs0, len);
                assert(depth_of(av) == 1 + max_depth(cs0, len));
                assert(count_of(av) == 1 + sum_count(cs0, len));
            }
            let r1 = fixed_pass_exec(&mut children, amount, Ghost(d), Ghost(bb));
            let ghost st1 = fixed_pass_n(cs0, amount as int, len, d);
            proof {
                lemma_fixed_pass_props(cs0, amount as int, len, d, bb, unit_limit());
                lemma_meta_sums(st1.0, cs0, len);
            }
            let mut remaining: i64 = r1;
            let mut progress = true;
            proof {
                lemma_bal_bounded_entries_mono(
                    entries_view(children@),
                    len,
                    bb + abs2(amount as int - r1 as int),
                    working_limit(),
                );
            }
            let mut tf = total_flex_of(&children);
            while tf > 0 && remaining > crate::NEGLIGIBLE && progress
                invariant
                    children@.len() == cs0.len(),
                    tf as int == sum_flex(entries_view(children@), len),
                    0 <= tf,
                    wf_entries(entries_view(children@), len),
                    entries_meta_eq(entries_view(children@), cs0),
                    min2(0, amount as int) <= remaining as int <= max2(0, amount as int),
                    bal_bounded_entries(
                        entries_view(children@),
                        len,
                        bb + abs2(amount as int - remaining as int),
                    ),
                    progress ==> flex_loop_n(st1.0, st1.1, d) == flex_loop_n(
                        entries_view(children@),
                        remaining as int,
                        d,
                    ),
                    !progress ==> flex_loop_n(st1.0, st1.1, d) == (
                        entries_view(children@),
                        remaining as int,
                    ),
                decreases (if progress { 1int } else { 0int }), remaining,
            {
                let ghost curf = entries_view(children@);
                let ghost rin = remaining as int;
                let ghost bb2 = bb + abs2(amount as int - rin);
                let per: i64 = ((remaining as u64) / (tf as u64)) as i64;
                proof {
                    lemma_fundamental_div_mod(rin, tf as int);
                    assert(0 <= per as int <= rin) by (nonlinear_arith)
                        requires
                            per as int == rin / (tf as int),
                            rin == (tf as int) * (rin / (tf as int)) + rin % (tf as int),
                            0 <= rin % (tf as int) < (tf as int),
                            rin > 0,
                            tf as int >= 1,
                    ;
                    lemma_meta_sums(curf, cs0, len);
                }
                let rnew = flex_pass_exec(&mut children, per, remaining, Ghost(d), Ghost(bb2));
                proof {
                    lemma_flex_pass_props(curf, per as int, rin, len, d, bb2, unit_limit());
                    lemma_meta_sums(entries_view(children@), cs0, len);
                    lemma_bal_bounded_entries_mono(
                        entries_view(children@),
                        len,
                        bb2 + (rin - rnew as int),
                        bb + abs2(amount as int - rnew as int),
                    );
                }
                proof {
                    lemma_bal_bounded_entries_mono(
                        entries_view(children@),
                        len,
                        bb + abs2(amount as int - rnew as int),
                        working_limit(),
                    );
                }
                tf = total_flex_of(&children);
                if rnew < remaining {
                    remaining = rnew;
                } else {
                    remaining = rnew;
                    progress = false;
                }
            }
            let ghost st2 = flex_loop_n(st1.0, st1.1, d);
            proof {
                assert(st2 == (entries_view(children@), remaining as int));
                lemma_flex_loop_props(st1.0, st1.1, d, bb + abs2(amount as int - st1.1), unit_limit());
            }
            if remaining > crate::NEGLIGIBLE && children.len() > 0 {
                let share: i64 = ((remaining as u64) / (children.len() as u64)) as i64;
                let ghost bb3 = bb + abs2(amount as int - remaining as int);
                proof {
                    lemma_fundamental_div_mod(remaining as int, children@.len() as int);
                    assert(0 <= share as int <= remaining as int) by (nonlinear_arith)
                        requires
                            share as int == remaining as int / (children@.len() as int),
                            remaining as int == (children@.len() as int) * (remaining as int / (
                            children@.len() as int)) + remaining as int % (children@.len() as int),
                            0 <= remaining as int % (children@.len() as int) < children@.len() as int,
                            remaining as int > 0,
                            children@.len() as int >= 1,
                    ;
                    lemma_meta_sums(entries_view(children@), cs0, len);
                }
                residual_pass_exec(&mut children, share, Ghost(d), Ghost(bb3));
            }
            let r = Account { name, data: AccountType::Branch { children } };
            proof {
                assert(r@ =~= deposit_n(av, amount as int, d));
            }
            r
        }
    }
}

impl Account {
    /// Deposit `amount` into this account. A leaf simply absorbs it; a
    /// branch distributes it over its children by the fixed, flex and
    /// residual passes. The new tree is exactly `spec_deposit` of the old.
    pub fn deposit(&mut self, amount: i64)
        requires
            wf(old(self)@),
            bal_bounded(old(self)@, balance_limit()),
            -unit_limit() <= amount <= unit_limit(),
        ensures
            final(self)@ == spec_deposit(old(self)@, amount as int),
    {
        let mut tmp = Account {
            name: Vec::new(),
            data: AccountType::Leaf { balance: 0, max: None },
        };
        mem::swap(self, &mut tmp);
        proof {
            lemma_depth_le_count(old(self)@);
            lemma_bal_bounded_mono(old(self)@, balance_limit(), balance_limit());
        }
        let r = deposit_core(
            tmp,
            amount,
            Ghost(depth_of(old(self)@)),
            Ghost(balance_limit()),
        );
        *self = r;
    }
}


/// Cap respect for one flex round: a capped child never ends above the
/// larger of its old balance and its cap — an unsaturated child is
/// clamped to its headroom, a saturated one takes nothing.
pub proof fn lemma_flex_pass_caps(s: Seq<EntryV>, per: int, r: int, n: int, d: int, bb: int, fl:
    int)
    requires
        wf_entries(s, s.len() as int),
        bal_bounded_entries(s, s.len() as int, bb),
        0 <= bb,
        0 <= per,
        0 <= r <= fl,
        n <= s.len(),
    ensures
        forall|i: int|
            0 <= i < s.len() ==> (entry_cap(#[trigger] s[i]) matches Some(c) ==> bal_of(
                flex_pass_n(s, per, r, n, d).0[i].account,
            ) <= max2(bal_of(s[i].account), c)),
    decreases d, 1int, n, 0int,
{
    lemma_flex_pass_props(s, per, r, n, d, bb, fl);
    if d <= 0 || n <= 0 || n > s.len() {
    } else {
        lemma_flex_pass_caps(s, per, r, n - 1, d, bb, fl);
        lemma_flex_pass_props(s, per, r, n - 1, d, bb, fl);
        let done = flex_pass_n(s, per, r, n - 1, d);
        let s1 = done.0;
        let r1 = done.1;
        let e = s1[n - 1];
        assert(e == s[n - 1]);
        match e.inflow {
            InflowV::Flex(w) => {
                if entry_at_cap(e) {
                } else {
                    let take = flex_take(e, w, per, r1);
                    crate::model::lemma_wf_entries_index(s, s.len() as int, n - 1);
                    crate::model::lemma_bal_bounded_index(s, s.len() as int, bb, n - 1);
                    assert(0 <= per * w) by (nonlinear_arith)
                        requires
                            0 <= per,
                            0 <= w,
                    ;
                    lemma_deposit_props(e.account, take, d - 1, bb, abs2(take));
                }
            }
            InflowV::Fixed(_) => {}
        }
    }
}

/// Cap respect for the whole flex loop, by composing the rounds.
pub proof fn lemma_flex_loop_caps(s: Seq<EntryV>, r: int, d: int, bb: int, fl: int)
    requires
        wf_entries(s, s.len() as int),
        bal_bounded_entries(s, s.len() as int, bb),
        0 <= bb,
        -fl <= r <= fl,
    ensures
        forall|i: int|
            0 <= i < s.len() ==> (entry_cap(#[trigger] s[i]) matches Some(c) ==> bal_of(
                flex_loop_n(s, r, d).0[i].account,
            ) <= max2(bal_of(s[i].account), c)),
    decreases d, 2int, r, 0int,
{
    lemma_flex_loop_props(s, r, d, bb, fl);
    let tf = sum_flex(s, s.len() as int);
    if d <= 0 || tf <= 0 || r <= threshold() {
    } else {
        let per = r / tf;
        lemma_fundamental_div_mod(r, tf);
        assert(0 <= per) by (nonlinear_arith)
            requires
                r == tf * per + r % tf,
                0 <= r % tf < tf,
                r > 0,
                tf > 0,
        ;
        lemma_flex_pass_props(s, per, r, s.len() as int, d, bb, fl);
        lemma_flex_pass_caps(s, per, r, s.len() as int, d, bb, fl);
        let done = flex_pass_n(s, per, r, s.len() as int, d);
        let s1 = done.0;
        let r1 = done.1;
        if 0 <= r1 < r {
            lemma_flex_loop_caps(s1, r1, d, bb + (r - r1), fl);
        }
    }
}

/// Cap respect for the fixed pass: the same clamp as the flex rounds.
pub proof fn lemma_fixed_pass_caps(s: Seq<EntryV>, r: int, n: int, d: int, bb: int, fl: int)
    requires
        wf_entries(s, s.len() as int),
        bal_bounded_entries(s, s.len() as int, bb),
        0 <= bb,
        -fl <= r <= fl,
        n <= s.len(),
    ensures
        forall|i: int|
            0 <= i < s.len() ==> (entry_cap(#[trigger] s[i]) matches Some(c) ==> bal_of(
                fixed_pass_n(s, r, n, d).0[i].account,
            ) <= max2(bal_of(s[i].account), c)),
    decreases d, 1int, n, 0int,
{
    lemma_fixed_pass_props(s, r, n, d, bb, fl);
    if d <= 0 || n <= 0 || n > s.len() {
    } else {
        lemma_fixed_pass_caps(s, r, n - 1, d, bb, fl);
        lemma_fixed_pass_props(s, r, n - 1, d, bb, fl);
        let done = fixed_pass_n(s, r, n - 1, d);
        let s1 = done.0;
        let r1 = done.1;
        let e = s1[n - 1];
        assert(e == s[n - 1]);
        match e.inflow {
            InflowV::Fixed(_) => {
                let take = fixed_take(e, r1);
                crate::model::lemma_wf_entries_index(s, s.len() as int, n - 1);
                crate::model::lemma_bal_bounded_index(s, s.len() as int, bb, n - 1);
                lemma_deposit_props(e.account, take, d - 1, bb, abs2(take));
            }
            InflowV::Flex(_) => {}
        }
    }
}

} // verus!
