//! General properties of the engine, stated and proved once over the
//! model: what deposits conserve, how the flex loop converges, what
//! withdrawals may touch, and what a successful transfer nets to.

use vstd::prelude::*;

use crate::actions::{ActionV, ErrV, spec_apply};
use crate::deposit::{
    entries_meta_eq, fixed_pass_n, fixed_take, flex_loop_n, flex_pass_n, flex_take,
    lemma_deposit_props, lemma_fixed_pass_caps, lemma_fixed_pass_props, lemma_flex_loop_caps,
    lemma_flex_pass_props, max2, spec_deposit,
};
use crate::diff::{first_named, spec_diff, spec_diff_entries};
use crate::model::{
    AccountV, EntryV, NodeV, bal_bounded, bal_bounded_entries, bal_of, balance_limit, count_of,
    depth_of, entry_at_cap, entry_cap, find_in, get_at, lemma_find_valid, lemma_path_props,
    lemma_replace_props, replace_at, size_limit, unit_limit, valid_path, wf, wf_entries, wf_node,
};

verus! {

/// Conservation: a deposit moves money, it never creates any. Depositing
/// a non-negative amount into a well-formed tree raises its total balance
/// by at most that amount and never lowers it. (In the fixed-point model
/// the residual pass can drop an indivisible remainder, and a childless
/// branch absorbs nothing, so the increase can fall short of the amount;
/// the scenario tests pin the exact split on concrete trees.)
pub proof fn law_deposit_conservation(a: AccountV, amount: int)
    requires
        wf_node(a),
        bal_bounded(a, balance_limit()),
        0 <= amount <= unit_limit(),
    ensures
        0 <= bal_of(spec_deposit(a, amount)) - bal_of(a) <= amount,
{
    lemma_deposit_props(a, amount, depth_of(a), balance_limit(), unit_limit());
}

/// Convergence: one flex round never increases the remainder and never
/// drives it negative. Together with the round being repeated only while
/// it strictly shrank the integer remainder, this is why the
/// flex-distribution loop terminates; the verifier checks that bound as
/// the loop's decreasing measure.
pub proof fn law_flex_round_progress(s: Seq<EntryV>, per: int, r: int, d: int)
    requires
        wf_entries(s, s.len() as int),
        bal_bounded_entries(s, s.len() as int, balance_limit()),
        0 <= per,
        0 <= r <= unit_limit(),
    ensures
        0 <= flex_pass_n(s, per, r, s.len() as int, d).1 <= r,
{
    lemma_flex_pass_props(s, per, r, s.len() as int, d, balance_limit(), unit_limit());
}

/// Withdrawals touch leaves only: applying a withdrawal whose target
/// resolves to a branch always fails with `InvalidWithdrawTarget` and
/// never mutates any state.
pub proof fn law_withdraw_branch_fails(a: AccountV, account: Seq<u8>, amount: int, date:
    crate::actions::Date)
    requires
        find_in(a, account) matches Some(p) && get_at(a, p).node is Branch,
    ensures
        spec_apply(a, ActionV::Withdraw { account, amount, date }).0 == a,
        spec_apply(a, ActionV::Withdraw { account, amount, date }).1 == Some(
            ErrV::InvalidWithdrawTarget,
        ),
{
}


/// Transfer nets to zero: a transfer with a named destination that
/// succeeds, whose destination resolves to a leaf, leaves the grand total
/// balance of the tree unchanged — the money moved, none was created or
/// destroyed. (A destination that resolves to a branch can drop an
/// indivisible or unplaceable remainder through the deposit passes, so
/// the law asks for a leaf destination.)
pub proof fn law_transfer_net_zero(
    a: AccountV,
    from: Seq<u8>,
    to: Seq<u8>,
    amount: int,
    date: crate::actions::Date,
)
    requires
        wf(a),
        bal_bounded(a, balance_limit() - unit_limit()),
        -unit_limit() <= amount <= unit_limit(),
        spec_apply(a, ActionV::Transfer { from, to: Some(to), amount, date }).1 is None,
        ({
            let w = spec_apply(a, ActionV::Withdraw { account: from, amount, date });
            find_in(w.0, to) matches Some(p2) && get_at(w.0, p2).node is Leaf
        }),
    ensures
        bal_of(spec_apply(a, ActionV::Transfer { from, to: Some(to), amount, date }).0) == bal_of(
            a,
        ),
{
    let wact = ActionV::Withdraw { account: from, amount, date };
    let w = spec_apply(a, wact);
    let p = find_in(a, from)->0;
    lemma_find_valid(a, from);
    lemma_path_props(a, p, balance_limit() - unit_limit());
    let target = get_at(a, p);
    let newleaf = AccountV {
        name: target.name,
        node: NodeV::Leaf {
            balance: target.node->balance - amount,
            max: target.node->max,
        },
    };
    crate::deposit::lemma_bal_bounded_mono(a, balance_limit() - unit_limit(), balance_limit());
    lemma_replace_props(a, p, newleaf, balance_limit());
    assert(w.0 == replace_at(a, p, newleaf));
    assert(bal_of(w.0) == bal_of(a) - amount);
    let dact = ActionV::Deposit { account: Some(to), amount, date };
    let p2 = find_in(w.0, to)->0;
    lemma_find_valid(w.0, to);
    lemma_path_props(w.0, p2, balance_limit());
    let t2 = get_at(w.0, p2);
    let deposited = spec_deposit(t2, amount);
    lemma_deposit_props(t2, amount, depth_of(t2), balance_limit(), unit_limit());
    crate::deposit::lemma_bal_bounded_mono(w.0, balance_limit(), balance_limit() + unit_limit());
    lemma_replace_props(w.0, p2, deposited, balance_limit() + unit_limit());
    assert(bal_of(deposited) == bal_of(t2) + amount);
    assert(bal_of(spec_apply(w.0, dact).0) == bal_of(w.0) + amount);
}


/// Every leaf of the tree holds a zero balance.
pub open spec fn zero_leaves(a: AccountV) -> bool
    decreases a, 1int,
{
    match a.node {
        NodeV::Leaf { balance, .. } => balance == 0,
        NodeV::Branch { children } => forall|i: int|
            0 <= i < children.len() ==> zero_leaves(#[trigger] children[i].account),
    }
}

/// No two siblings anywhere in the tree share a name.
pub open spec fn distinct_names(a: AccountV) -> bool
    decreases a, 1int,
{
    match a.node {
        NodeV::Leaf { .. } => true,
        NodeV::Branch { children } => {
            &&& forall|i: int, j: int|
                0 <= i < j < children.len() ==> (#[trigger] children[i].account.name)
                    != (#[trigger] children[j].account.name)
            &&& forall|i: int|
                0 <= i < children.len() ==> distinct_names(#[trigger] children[i].account)
        },
    }
}

/// With no earlier sibling of the same name, the scan finds the entry
/// itself.
proof fn lemma_first_named_scan(s: Seq<EntryV>, i: int, j: int)
    requires
        0 <= j <= i < s.len(),
        forall|k: int| 0 <= k < i ==> (#[trigger] s[k].account.name) != s[i].account.name,
    ensures
        first_named(s, s[i].account.name, j) == Some(i),
    decreases i - j,
{
    if j < i {
        lemma_first_named_scan(s, i, j + 1);
    }
}

/// Diff idempotence: differencing a tree with unique sibling names
/// against itself yields a tree of the same shape with every leaf balance
/// zero. (With duplicate sibling names a child is paired against the
/// first equally-named sibling rather than itself, and the difference
/// need not vanish.)
pub proof fn law_diff_self_zero(a: AccountV)
    requires
        distinct_names(a),
    ensures
        spec_diff(a, a) matches Ok(d) && zero_leaves(d),
    decreases a, 2int, 0int,
{
    match a.node {
        NodeV::Leaf { .. } => {}
        NodeV::Branch { children } => {
            lemma_diff_self_entries(children, 0);
        }
    }
}

/// Prefix form of `law_diff_self_zero`.
proof fn lemma_diff_self_entries(c: Seq<EntryV>, i: int)
    requires
        0 <= i <= c.len(),
        forall|p: int, q: int|
            0 <= p < q < c.len() ==> (#[trigger] c[p].account.name) != (
            #[trigger] c[q].account.name),
        forall|p: int| 0 <= p < c.len() ==> distinct_names(#[trigger] c[p].account),
    ensures
        spec_diff_entries(c, c, i) matches Ok(rest) && rest.len() == c.len() - i && forall|k: int|
            0 <= k < rest.len() ==> zero_leaves(#[trigger] rest[k].account),
    decreases c, 1int, c.len() - i,
{
    if i < c.len() {
        lemma_first_named_scan(c, i, 0);
        law_diff_self_zero(c[i].account);
        lemma_diff_self_entries(c, i + 1);
        let d = spec_diff(c[i].account, c[i].account)->Ok_0;
        let rest = spec_diff_entries(c, c, i + 1)->Ok_0;
        let whole = seq![EntryV { account: d, inflow: crate::model::InflowV::Fixed(0), max_override: None }]
            + rest;
        assert(spec_diff_entries(c, c, i) == Ok::<Seq<EntryV>, ErrV>(whole));
        assert forall|k: int| 0 <= k < whole.len() implies zero_leaves(
            #[trigger] whole[k].account,
        ) by {
            if k == 0 {
            } else {
                assert(whole[k] == rest[k - 1]);
            }
        };
    }
}


/// Cap respect, at the level of one child's take: a saturated child takes
/// nothing in the fixed and flex passes, and an unsaturated capped child
/// never takes more than its headroom, so those two passes cannot lift a
/// child above its effective cap. Only the residual pass, the documented
/// escape valve, deposits without this clamp.
pub proof fn law_takes_respect_caps(e: EntryV, avail: int, w: int, per: int)
    ensures
        entry_at_cap(e) ==> fixed_take(e, avail) == 0,
        entry_cap(e) matches Some(c) ==> (entry_at_cap(e) || fixed_take(e, avail) <= c - bal_of(
            e.account,
        )),
        entry_cap(e) matches Some(c) ==> (entry_at_cap(e) || flex_take(e, w, per, avail) <= c
            - bal_of(e.account)),
{
}



/// Cap respect for a whole deposit, short of the escape valve: after the
/// fixed pass and the flex loop of a deposit into a branch, no capped
/// child sits above the larger of its old balance and its effective cap.
/// Only the residual pass, which runs when every child is saturated,
/// deposits past this clamp.
pub proof fn law_caps_respected_before_residual(children: Seq<EntryV>, amount: int, d: int)
    requires
        wf_entries(children, children.len() as int),
        bal_bounded_entries(children, children.len() as int, balance_limit()),
        -unit_limit() <= amount <= unit_limit(),
    ensures
        ({
            let fixed = fixed_pass_n(children, amount, children.len() as int, d);
            let flexed = flex_loop_n(fixed.0, fixed.1, d);
            forall|i: int|
                0 <= i < children.len() ==> (entry_cap(#[trigger] children[i]) matches Some(c)
                    ==> bal_of(flexed.0[i].account) <= max2(bal_of(children[i].account), c))
        }),
{
    let len = children.len() as int;
    lemma_fixed_pass_props(children, amount, len, d, balance_limit(), unit_limit());
    lemma_fixed_pass_caps(children, amount, len, d, balance_limit(), unit_limit());
    let fixed = fixed_pass_n(children, amount, len, d);
    lemma_flex_loop_caps(
        fixed.0,
        fixed.1,
        d,
        balance_limit() + crate::deposit::abs2(amount - fixed.1),
        unit_limit(),
    );
    let flexed = flex_loop_n(fixed.0, fixed.1, d);
    assert forall|i: int|
        0 <= i < children.len() implies (entry_cap(#[trigger] children[i]) matches Some(c)
        ==> bal_of(flexed.0[i].account) <= max2(bal_of(children[i].account), c)) by {
        assert(entries_meta_eq(fixed.0, children));
        assert(entry_cap(fixed.0[i]) == entry_cap(children[i]));
    };
}


} // verus!
