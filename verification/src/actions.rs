//! Typed actions and the applier: a small state-transition layer mapping
//! one action plus the current tree to a new tree or an error, and the
//! fold that replays an ordered action log between two dates.

use core::mem;
use vstd::prelude::*;

use crate::account::{
    Account, AccountType, BranchEntry, Inflow, acct_view, bytes_eq, clone_entry, copy_bytes,
    entries_view, entry_view, inflow_view, node_view, opt_view,
};
use crate::deposit::{lemma_bal_bounded_entries_mono, lemma_bal_bounded_mono, lemma_deposit_props, spec_deposit, abs2, min2, max2};
use crate::errors::AcctError;
use crate::model::{
    AccountV, EntryV, InflowV, NodeV, append_entry, bal_bounded, bal_of, balance_limit, count_of,
    find_in, get_at, lemma_bal_bounded_index, lemma_count_pos, lemma_depth_le_count,
    lemma_entries_push, lemma_find_valid, lemma_path_props, lemma_remove_props,
    lemma_replace_props, lemma_sum_count_bounds, lemma_wf_entries_index, remove_in, replace_at,
    size_limit, sum_count, unit_limit, valid_path, weight_limit, wf, wf_entries, wf_entry,
    wf_node, working_limit,
};

verus! {

/// A calendar date, held as plain numbers; ordering is lexicographic on
/// year, month, day.
#[derive(Clone, Copy, PartialEq, Eq, Structural, Debug)]
pub struct Date {
    pub year: u32,
    pub month: u32,
    pub day: u32,
}

/// Strictly-before, on the year, month, day ordering.
pub open spec fn date_lt(a: Date, b: Date) -> bool {
    ||| a.year < b.year
    ||| (a.year == b.year && a.month < b.month)
    ||| (a.year == b.year && a.month == b.month && a.day < b.day)
}

impl Date {
    /// Whether this date falls strictly before `other`.
    pub fn before(&self, other: &Date) -> (r: bool)
        ensures
            r == date_lt(*self, *other),
    {
        self.year < other.year || (self.year == other.year && self.month < other.month) || (
        self.year == other.year && self.month == other.month && self.day < other.day)
    }
}

/// One typed action against the tree.
#[derive(Debug)]
pub enum Action {
    /// Create an account under the named parent branch.
    New { name: Vec<u8>, inflow: Inflow, max_override: Option<i64>, parent: Vec<u8>, data:
        AccountType },
    /// Detach the named subtree.
    Remove { name: Vec<u8> },
    /// Replace the named account's inflow rule and maximum, preserving its
    /// balance but not its position: it is re-appended under its parent.
    Edit { name: Vec<u8>, inflow: Inflow, max: Option<i64> },
    /// Take money out of the named leaf.
    Withdraw { account: Vec<u8>, amount: i64, date: Date },
    /// Distribute money into the named subtree, or into the whole tree.
    Deposit { account: Option<Vec<u8>>, amount: i64, date: Date },
    /// A withdrawal composed with a deposit; not atomic.
    Transfer { from: Vec<u8>, to: Option<Vec<u8>>, amount: i64, date: Date },
}

/// The model of an action.
pub enum ActionV {
    New { name: Seq<u8>, inflow: InflowV, max_override: Option<int>, parent: Seq<u8>, data: NodeV },
    Remove { name: Seq<u8> },
    Edit { name: Seq<u8>, inflow: InflowV, max: Option<int> },
    Withdraw { account: Seq<u8>, amount: int, date: Date },
    Deposit { account: Option<Seq<u8>>, amount: int, date: Date },
    Transfer { from: Seq<u8>, to: Option<Seq<u8>>, amount: int, date: Date },
}

/// The model of an error.
pub enum ErrV {
    ParentNotFound(Seq<u8>),
    AccountNotFound(Seq<u8>),
    NotABranch,
    InvalidWithdrawTarget,
    TypeMismatch,
}

/// Abstraction of an error value.
pub open spec fn err_view(e: AcctError) -> ErrV {
    match e {
        AcctError::ParentNotFound(n) => ErrV::ParentNotFound(n@),
        AcctError::AccountNotFound(n) => ErrV::AccountNotFound(n@),
        AcctError::NotABranch => ErrV::NotABranch,
        AcctError::InvalidWithdrawTarget => ErrV::InvalidWithdrawTarget,
        AcctError::TypeMismatch => ErrV::TypeMismatch,
    }
}

/// Abstraction of an optional error.
pub open spec fn err_opt_view(e: Option<AcctError>) -> Option<ErrV> {
    match e {
        Some(x) => Some(err_view(x)),
        None => None,
    }
}

/// Abstraction of an action.
pub open spec fn action_view(a: Action) -> ActionV {
    match a {
        Action::New { name, inflow, max_override, parent, data } => ActionV::New {
            name: name@,
            inflow: inflow_view(inflow),
            max_override: opt_view(max_override),
            parent: parent@,
            data: node_view(data),
        },
        Action::Remove { name } => ActionV::Remove { name: name@ },
        Action::Edit { name, inflow, max } => ActionV::Edit {
            name: name@,
            inflow: inflow_view(inflow),
            max: opt_view(max),
        },
        Action::Withdraw { account, amount, date } => ActionV::Withdraw {
            account: account@,
            amount: amount as int,
            date,
        },
        Action::Deposit { account, amount, date } => ActionV::Deposit {
            account: match account {
                Some(n) => Some(n@),
                None => None,
            },
            amount: amount as int,
            date,
        },
        Action::Transfer { from, to, amount, date } => ActionV::Transfer {
            from: from@,
            to: match to {
                Some(n) => Some(n@),
                None => None,
            },
            amount: amount as int,
            date,
        },
    }
}

/// How many further applications an action may spawn: the two composite
/// actions re-enter the applier once.
pub open spec fn act_rank(act: ActionV) -> int {
    match act {
        ActionV::Edit { .. } => 1,
        ActionV::Transfer { .. } => 2,
        _ => 0,
    }
}

/// An action's own payload lies within the machine limits.
pub open spec fn action_wf(act: ActionV) -> bool {
    match act {
        ActionV::New { inflow, max_override, data, .. } => {
            &&& inflow_wf(inflow)
            &&& opt_bound_wf(max_override)
            &&& match data {
                NodeV::Leaf { balance, max } => -unit_limit() <= balance <= unit_limit()
                    && opt_bound_wf(max),
                NodeV::Branch { children } => children.len() == 0,
            }
        },
        ActionV::Edit { inflow, max, .. } => inflow_wf(inflow) && opt_bound_wf(max),
        ActionV::Withdraw { amount, .. } => -unit_limit() <= amount <= unit_limit(),
        ActionV::Deposit { amount, .. } => -unit_limit() <= amount <= unit_limit(),
        ActionV::Transfer { amount, .. } => -unit_limit() <= amount <= unit_limit(),
        ActionV::Remove { .. } => true,
    }
}

/// An inflow rule within the machine limits.
pub open spec fn inflow_wf(i: InflowV) -> bool {
    match i {
        InflowV::Fixed(f) => 0 <= f <= unit_limit(),
        InflowV::Flex(w) => 0 <= w <= weight_limit(),
    }
}

/// An optional bound within the machine limits.
pub open spec fn opt_bound_wf(m: Option<int>) -> bool {
    match m {
        Some(x) => 0 <= x <= unit_limit(),
        None => true,
    }
}

/// What applying one action does: the new tree, and the error when the
/// action fails. On failure the tree is what the completed sub-steps left
/// (the composite edit and transfer are not atomic).
pub open spec fn spec_apply(a: AccountV, act: ActionV) -> (AccountV, Option<ErrV>)
    decreases act_rank(act),
{
    match act {
        ActionV::New { name, inflow, max_override, parent, data } => {
            match find_in(a, parent) {
                None => (a, Some(ErrV::ParentNotFound(parent))),
                Some(p) => {
                    let target = get_at(a, p);
                    match target.node {
                        NodeV::Leaf { .. } => (a, Some(ErrV::NotABranch)),
                        NodeV::Branch { .. } => (
                            replace_at(
                                a,
                                p,
                                append_entry(
                                    target,
                                    EntryV {
                                        account: AccountV { name, node: data },
                                        inflow,
                                        max_override,
                                    },
                                ),
                            ),
                            None,
                        ),
                    }
                }
            }
        },
        ActionV::Remove { name } => {
            match remove_in(a, name) {
                Some(res) => (res.0, None),
                None => (a, Some(ErrV::AccountNotFound(name))),
            }
        },
        ActionV::Edit { name, inflow, max } => {
            match find_in(a, name) {
                None => (a, Some(ErrV::AccountNotFound(name))),
                Some(p) => {
                    let data = match get_at(a, p).node {
                        NodeV::Leaf { balance, .. } => NodeV::Leaf { balance, max },
                        NodeV::Branch { children } => NodeV::Branch { children },
                    };
                    match remove_in(a, name) {
                        None => (a, Some(ErrV::AccountNotFound(name))),
                        Some(res) => spec_apply(
                            res.0,
                            ActionV::New {
                                name,
                                inflow,
                                max_override: None,
                                parent: res.1,
                                data,
                            },
                        ),
                    }
                }
            }
        },
        ActionV::Withdraw { account, amount, .. } => {
            match find_in(a, account) {
                None => (a, Some(ErrV::ParentNotFound(account))),
                Some(p) => {
                    let target = get_at(a, p);
                    match target.node {
                        NodeV::Leaf { balance, max } => (
                            replace_at(
                                a,
                                p,
                                AccountV {
                                    name: target.name,
                                    node: NodeV::Leaf { balance: balance - amount, max },
                                },
                            ),
                            None,
                        ),
                        NodeV::Branch { .. } => (a, Some(ErrV::InvalidWithdrawTarget)),
                    }
                }
            }
        },
        ActionV::Deposit { account, amount, .. } => {
            match account {
                Some(nm) => match find_in(a, nm) {
                    None => (a, Some(ErrV::ParentNotFound(nm))),
                    Some(p) => (replace_at(a, p, spec_deposit(get_at(a, p), amount)), None),
                },
                None => (spec_deposit(a, amount), None),
            }
        },
        ActionV::Transfer { from, to, amount, date } => {
            let w = spec_apply(a, ActionV::Withdraw { account: from, amount, date });
            if w.1 is Some {
                w
            } else {
                spec_apply(w.0, ActionV::Deposit { account: to, amount, date })
            }
        },
    }
}


/// The account a valid path leads to, by reference.
fn get_ref<'a>(a: &'a Account, path: &Vec<usize>, pos: usize) -> (r: &'a Account)
    requires
        pos <= path@.len(),
        valid_path(a@, path@.skip(pos as int)),
    ensures
        r@ == get_at(a@, path@.skip(pos as int)),
    decreases path@.len() - pos,
{
    if pos == path.len() {
        proof {
            assert(path@.skip(pos as int) =~= Seq::<usize>::empty());
        }
        a
    } else {
        match &a.data {
            AccountType::Branch { children } => {
                let i = path[pos];
                proof {
                    assert(path@.skip(pos as int).skip(1) =~= path@.skip(pos as int + 1));
                    assert(entries_view(children@)[i as int] == entry_view(children@[i as int]));
                }
                get_ref(&children[i].account, path, pos + 1)
            }
            AccountType::Leaf { .. } => {
                proof {
                    assert(false);
                }
                a
            }
        }
    }
}

/// A fresh tree equal to `a` with the subtree a valid path leads to
/// replaced by `b`.
#[verifier::loop_isolation(false)]
fn replace_at_exec(a: &Account, path: &Vec<usize>, pos: usize, b: Account) -> (r: Account)
    requires
        pos <= path@.len(),
        valid_path(a@, path@.skip(pos as int)),
    ensures
        r@ == replace_at(a@, path@.skip(pos as int), b@),
    decreases path@.len() - pos,
{
    if pos == path.len() {
        proof {
            assert(path@.skip(pos as int) =~= Seq::<usize>::empty());
        }
        b
    } else {
        match &a.data {
            AccountType::Branch { children } => {
                let i = path[pos];
                let ghost cs = entries_view(children@);
                proof {
                    assert(path@.skip(pos as int).skip(1) =~= path@.skip(pos as int + 1));
                    assert(cs[i as int] == entry_view(children@[i as int]));
                }
                let clen = children.len();
                proof {
                    assert(i < clen);
                }
                let sub = replace_at_exec(&children[i].account, path, pos + 1, b);
                let ghost e2v = EntryV {
                    account: sub@,
                    inflow: cs[i as int].inflow,
                    max_override: cs[i as int].max_override,
                };
                let mut out: Vec<BranchEntry> = Vec::new();
                let mut j: usize = 0;
                while j < i
                    invariant
                        j <= i,
                        out@.len() == j,
                        forall|k: int|
                            0 <= k < j ==> entry_view(#[trigger] out@[k]) == cs[k],
                    decreases i - j,
                {
                    proof {
                        assert(cs[j as int] == entry_view(children@[j as int]));
                    }
                    out.push(clone_entry(&children[j]));
                    j += 1;
                }
                out.push(
                    BranchEntry {
                        account: sub,
                        inflow: children[i].inflow,
                        max_override: children[i].max_override,
                    },
                );
                let mut k: usize = i + 1;
                while k < children.len()
                    invariant
                        i < k <= children.len(),
                        out@.len() == k,
                        forall|q: int|
                            0 <= q < k && q != i as int ==> entry_view(#[trigger] out@[q])
                                == cs[q],
                        entry_view(out@[i as int]) == e2v,
                    decreases children.len() - k,
                {
                    proof {
                        assert(cs[k as int] == entry_view(children@[k as int]));
                    }
                    out.push(clone_entry(&children[k]));
                    k += 1;
                }
                let r = Account {
                    name: copy_bytes(&a.name),
                    data: AccountType::Branch { children: out },
                };
                proof {
                    assert(entries_view(out@) =~= cs.update(i as int, e2v));
                    assert(r@ =~= replace_at(a@, path@.skip(pos as int), b@));
                }
                r
            }
            AccountType::Leaf { .. } => {
                proof {
                    assert(false);
                }
                b
            }
        }
    }
}


/// A fresh copy of a node payload.
fn clone_node(t: &AccountType) -> (r: AccountType)
    ensures
        node_view(r) == node_view(*t),
{
    match t {
        AccountType::Leaf { balance, max } => AccountType::Leaf { balance: *balance, max: *max },
        AccountType::Branch { children } => {
            let mut copied: Vec<BranchEntry> = Vec::new();
            let mut i: usize = 0;
            while i < children.len()
                invariant
                    i <= children.len(),
                    copied@.len() == i,
                    forall|j: int|
                        0 <= j < i ==> entry_view(#[trigger] copied@[j]) == entry_view(
                            children@[j],
                        ),
                decreases children.len() - i,
            {
                copied.push(clone_entry(&children[i]));
                i += 1;
            }
            proof {
                assert(entries_view(copied@) =~= entries_view(children@));
            }
            AccountType::Branch { children: copied }
        }
    }
}

/// Apply one action, returning the new tree and the error when the
/// action failed. On failure the tree holds whatever the completed
/// sub-steps left.
#[verifier::loop_isolation(false)]
#[verifier::rlimit(100)]
fn apply_core(a: Account, action: Action, Ghost(bb): Ghost<int>) -> (r: (
    Account,
    Option<AcctError>,
))
    requires
        wf_node(a@),
        count_of(a@) < size_limit(),
        bal_bounded(a@, bb),
        0 <= bb,
        bb + (1 + act_rank(action_view(action))) * unit_limit() <= balance_limit(),
        action_wf(action_view(action)),
    ensures
        r.0@ == spec_apply(a@, action_view(action)).0,
        err_opt_view(r.1) == spec_apply(a@, action_view(action)).1,
        wf_node(r.0@),
        (action_view(action) matches ActionV::New { .. }) ==> count_of(r.0@) <= count_of(a@)
            + 1,
        (action_view(action) matches ActionV::Remove { .. }) ==> count_of(r.0@) <= count_of(a@),
        (action_view(action) matches ActionV::Withdraw { .. } || action_view(action)
            matches ActionV::Deposit { .. } || action_view(action) matches ActionV::Transfer {
            ..
        }) ==> count_of(r.0@) == count_of(a@),
        bal_bounded(r.0@, bb + 2 * unit_limit()),
        (action_view(action) is Withdraw || action_view(action) is Deposit) ==> bal_bounded(
            r.0@,
            bb + unit_limit(),
        ),
    decreases act_rank(action_view(action)),
{
    let ghost av = a@;
    let ghost actv = action_view(action);
    proof {
        lemma_count_pos(av);
    }
    match action {
        Action::New { name, inflow, max_override, parent, data } => {
            match a.find_child(&parent) {
                None => {
                    proof {
                        lemma_bal_bounded_mono(av, bb, bb + unit_limit());
                        lemma_bal_bounded_mono(av, bb, bb + 2 * unit_limit());
                    }
                    (a, Some(AcctError::ParentNotFound(parent)))
                }
                Some(path) => {
                    let ghost p = path@;
                    proof {
                        lemma_find_valid(av, parent@);
                        lemma_path_props(av, p, bb);
                        assert(path@.skip(0) =~= path@);
                    }
                    let sub = get_ref(&a, &path, 0);
                    match &sub.data {
                        AccountType::Leaf { .. } => {
                            proof {
                                lemma_bal_bounded_mono(av, bb, bb + unit_limit());
                                lemma_bal_bounded_mono(av, bb, bb + 2 * unit_limit());
                            }
                            (a, Some(AcctError::NotABranch))
                        }
                        AccountType::Branch { .. } => {
                            let mut grown = sub.clone_subtree();
                            let child = Account { name, data };
                            let ghost childv = child@;
                            let ghost ev = EntryV {
                                account: childv,
                                inflow: inflow_view(inflow),
                                max_override: opt_view(max_override),
                            };
                            let res = grown.add_child(child, inflow, max_override);
                            proof {
                                assert(res is Ok);
                                assert(grown@ == append_entry(get_at(av, p), ev));
                                assert(wf_entry(ev));
                                assert(bal_bounded(childv, unit_limit()));
                                lemma_bal_bounded_mono(childv, unit_limit(), bb + unit_limit());
                                assert(count_of(childv) == 1);
                                let tv = get_at(av, p);
                                lemma_bal_bounded_entries_mono(
                                    tv.node->children,
                                    tv.node->children.len() as int,
                                    bb,
                                    bb + unit_limit(),
                                );
                                lemma_entries_push(tv.node->children, ev, bb + unit_limit());
                                lemma_bal_bounded_mono(av, bb, bb + unit_limit());
                                lemma_replace_props(av, p, grown@, bb + unit_limit());
                            }
                            let out = replace_at_exec(&a, &path, 0, grown);
                            proof {
                                lemma_bal_bounded_mono(out@, bb + unit_limit(), bb + 2 * unit_limit());
                                assert(out@ == spec_apply(av, actv).0);
                                assert(spec_apply(av, actv).1 is None);
                                assert(count_of(out@) == count_of(av) + 1);
                                assert(bal_bounded(out@, bb + unit_limit()));
                                assert(wf_node(out@));
                            }
                            proof {
                                assert(bal_bounded(out@, bb + unit_limit()));
                            }
                            (out, None)
                        }
                    }
                }
            }
        },
        Action::Remove { name } => {
            let mut t = a;
            match t.remove(&name) {
                Ok(_) => {
                    proof {
                        lemma_remove_props(av, name@, bb);
                        lemma_bal_bounded_mono(t@, bb, bb + unit_limit());
                        lemma_bal_bounded_mono(t@, bb, bb + 2 * unit_limit());
                        assert(t@ == spec_apply(av, actv).0);
                        assert(count_of(t@) <= count_of(av));
                    }
                    (t, None)
                }
                Err(e) => {
                    proof {
                        lemma_bal_bounded_mono(t@, bb, bb + unit_limit());
                        lemma_bal_bounded_mono(t@, bb, bb + 2 * unit_limit());
                    }
                    (t, Some(e))
                }
            }
        },
        Action::Edit { name, inflow, max } => {
            match a.find_child(&name) {
                None => {
                    proof {
                        lemma_bal_bounded_mono(av, bb, bb + unit_limit());
                        lemma_bal_bounded_mono(av, bb, bb + 2 * unit_limit());
                    }
                    (a, Some(AcctError::AccountNotFound(name)))
                }
                Some(path) => {
                    let ghost p = path@;
                    proof {
                        lemma_find_valid(av, name@);
                        lemma_path_props(av, p, bb);
                        assert(path@.skip(0) =~= path@);
                    }
                    let sub = get_ref(&a, &path, 0);
                    let cloned = clone_node(&sub.data);
                    let data = match cloned {
                        AccountType::Leaf { balance, .. } => AccountType::Leaf { balance, max },
                        AccountType::Branch { children } => AccountType::Branch { children },
                    };
                    let ghost dv = node_view(data);
                    let mut t = a;
                    match t.remove(&name) {
                        Err(e) => {
                            proof {
                                lemma_bal_bounded_mono(t@, bb, bb + unit_limit());
                                lemma_bal_bounded_mono(t@, bb, bb + 2 * unit_limit());
                            }
                            (t, Some(e))
                        }
                        Ok(par) => {
                            proof {
                                lemma_remove_props(av, name@, bb);
                            }
                            // re-insert under the former parent, as a new account
                            let ghost tv = t@;
                            match t.find_child(&par) {
                                None => {
                                    proof {
                                        lemma_bal_bounded_mono(tv, bb, bb + unit_limit());
                                        lemma_bal_bounded_mono(tv, bb, bb + 2 * unit_limit());
                                        let nact = ActionV::New {
                                            name: name@,
                                            inflow: inflow_view(inflow),
                                            max_override: None,
                                            parent: par@,
                                            data: dv,
                                        };
                                        assert(spec_apply(av, actv) == spec_apply(tv, nact));
                                    }
                                    (t, Some(AcctError::ParentNotFound(par)))
                                }
                                Some(path2) => {
                                    let ghost p2 = path2@;
                                    proof {
                                        lemma_find_valid(tv, par@);
                                        lemma_path_props(tv, p2, bb);
                                        assert(path2@.skip(0) =~= path2@);
                                    }
                                    let sub2 = get_ref(&t, &path2, 0);
                                    match &sub2.data {
                                        AccountType::Leaf { .. } => {
                                            proof {
                                                lemma_bal_bounded_mono(tv, bb, bb + unit_limit());
                                                lemma_bal_bounded_mono(tv, bb, bb + 2 * unit_limit());
                                                let nact = ActionV::New {
                                                    name: name@,
                                                    inflow: inflow_view(inflow),
                                                    max_override: None,
                                                    parent: par@,
                                                    data: dv,
                                                };
                                                assert(spec_apply(av, actv) == spec_apply(tv, nact));
                                            }
                                            (t, Some(AcctError::NotABranch))
                                        }
                                        AccountType::Branch { .. } => {
                                            let mut grown = sub2.clone_subtree();
                                            let child = Account { name, data };
                                            let ghost childv = child@;
                                            let ghost ev = EntryV {
                                                account: childv,
                                                inflow: inflow_view(inflow),
                                                max_override: None,
                                            };
                                            let res = grown.add_child(child, inflow, None);
                                            proof {
                                                assert(res is Ok);
                                                assert(wf_entry(ev));
                                                assert(bal_bounded(childv, bb));
                                                lemma_bal_bounded_mono(childv, bb, bb + unit_limit());
                                                let t2v = get_at(tv, p2);
                                                lemma_bal_bounded_entries_mono(
                                                    t2v.node->children,
                                                    t2v.node->children.len() as int,
                                                    bb,
                                                    bb + unit_limit(),
                                                );
                                                lemma_entries_push(
                                                    t2v.node->children,
                                                    ev,
                                                    bb + unit_limit(),
                                                );
                                                lemma_bal_bounded_mono(tv, bb, bb + unit_limit());
                                                lemma_replace_props(tv, p2, grown@, bb + unit_limit());
                                            }
                                            let out = replace_at_exec(&t, &path2, 0, grown);
                                            proof {
                                                lemma_bal_bounded_mono(
                                                    out@,
                                                    bb + unit_limit(),
                                                    bb + 2 * unit_limit(),
                                                );
                                                let nact = ActionV::New {
                                                    name: ev.account.name,
                                                    inflow: inflow_view(inflow),
                                                    max_override: None,
                                                    parent: par@,
                                                    data: dv,
                                                };
                                                assert(spec_apply(av, actv) == spec_apply(tv, nact));
                                                assert(out@ == spec_apply(tv, nact).0);
                                            }
                                            proof {
                                                assert(bal_bounded(out@, bb + unit_limit()));
                                            }
                                            (out, None)
                                        }
                                    }
                                }
                            }
                        }
                    }
                }
            }
        },
        Action::Withdraw { account, amount, .. } => {
            match a.find_child(&account) {
                None => {
                    proof {
                        lemma_bal_bounded_mono(av, bb, bb + unit_limit());
                        lemma_bal_bounded_mono(av, bb, bb + 2 * unit_limit());
                    }
                    (a, Some(AcctError::ParentNotFound(account)))
                }
                Some(path) => {
                    let ghost p = path@;
                    proof {
                        lemma_find_valid(av, account@);
                        lemma_path_props(av, p, bb);
                        assert(path@.skip(0) =~= path@);
                    }
                    let sub = get_ref(&a, &path, 0);
                    match &sub.data {
                        AccountType::Leaf { balance, max } => {
                            let nb = *balance - amount;
                            let newleaf = Account {
                                name: copy_bytes(&sub.name),
                                data: AccountType::Leaf { balance: nb, max: *max },
                            };
                            proof {
                                lemma_bal_bounded_mono(av, bb, bb + unit_limit());
                                lemma_replace_props(av, p, newleaf@, bb + unit_limit());
                            }
                            let out = replace_at_exec(&a, &path, 0, newleaf);
                            proof {
                                lemma_bal_bounded_mono(out@, bb + unit_limit(), bb + 2 * unit_limit());
                                assert(out@ == spec_apply(av, actv).0);
                                assert(count_of(out@) == count_of(av));
                                assert(bal_bounded(out@, bb + unit_limit()));
                            }
                            (out, None)
                        }
                        AccountType::Branch { .. } => {
                            proof {
                                lemma_bal_bounded_mono(av, bb, bb + unit_limit());
                                lemma_bal_bounded_mono(av, bb, bb + 2 * unit_limit());
                            }
                            (a, Some(AcctError::InvalidWithdrawTarget))
                        }
                    }
                }
            }
        },
        Action::Deposit { account, amount, .. } => {
            match account {
                Some(nm) => {
                    match a.find_child(&nm) {
                        None => {
                            proof {
                                lemma_bal_bounded_mono(av, bb, bb + unit_limit());
                                lemma_bal_bounded_mono(av, bb, bb + 2 * unit_limit());
                            }
                            (a, Some(AcctError::ParentNotFound(nm)))
                        }
                        Some(path) => {
                            let ghost p = path@;
                            proof {
                                lemma_find_valid(av, nm@);
                                lemma_path_props(av, p, bb);
                                assert(path@.skip(0) =~= path@);
                            }
                            let sub = get_ref(&a, &path, 0);
                            let mut c = sub.clone_subtree();
                            proof {
                                lemma_bal_bounded_mono(c@, bb, balance_limit());
                            }
                            c.deposit(amount);
                            proof {
                                lemma_deposit_props(
                                    get_at(av, p),
                                    amount as int,
                                    crate::model::depth_of(get_at(av, p)),
                                    bb,
                                    unit_limit(),
                                );
                                lemma_bal_bounded_mono(av, bb, bb + unit_limit());
                                lemma_replace_props(av, p, c@, bb + unit_limit());
                            }
                            let out = replace_at_exec(&a, &path, 0, c);
                            proof {
                                lemma_bal_bounded_mono(out@, bb + unit_limit(), bb + 2 * unit_limit());
                                assert(out@ == spec_apply(av, actv).0);
                                assert(count_of(out@) == count_of(av));
                                assert(bal_bounded(out@, bb + unit_limit()));
                            }
                            (out, None)
                        }
                    }
                }
                None => {
                    let mut t = a;
                    proof {
                        lemma_bal_bounded_mono(av, bb, balance_limit());
                    }
                    t.deposit(amount);
                    proof {
                        lemma_deposit_props(
                            av,
                            amount as int,
                            crate::model::depth_of(av),
                            bb,
                            unit_limit(),
                        );
                        lemma_bal_bounded_mono(t@, bb + unit_limit(), bb + 2 * unit_limit());
                        assert(t@ == spec_apply(av, actv).0);
                        assert(count_of(t@) == count_of(av));
                        assert(bal_bounded(t@, bb + unit_limit()));
                    }
                    (t, None)
                }
            }
        },
        Action::Transfer { from, to, amount, date } => {
            let (t1, e1) = apply_core(
                a,
                Action::Withdraw { account: from, amount, date },
                Ghost(bb),
            );
            match e1 {
                Some(e) => {
                    proof {
                        assert(actv is Transfer);
                        assert(t1@ == spec_apply(av, actv).0);
                        assert(count_of(t1@) == count_of(av));
                    }
                    (t1, Some(e))
                },
                None => {
                    let (t2, e2) = apply_core(
                        t1,
                        Action::Deposit { account: to, amount, date },
                        Ghost(bb + unit_limit()),
                    );
                    proof {
                        lemma_bal_bounded_mono(t2@, bb + unit_limit() + unit_limit(), bb + 2
                            * unit_limit());
                        assert(actv is Transfer);
                        assert(t2@ == spec_apply(av, actv).0);
                        assert(err_opt_view(e2) == spec_apply(av, actv).1);
                        assert(count_of(t2@) == count_of(av));
                    }
                    (t2, e2)
                }
            }
        },
    }
}


/// A fresh copy of one action.
pub fn clone_action(a: &Action) -> (r: Action)
    ensures
        action_view(r) == action_view(*a),
{
    match a {
        Action::New { name, inflow, max_override, parent, data } => Action::New {
            name: copy_bytes(name),
            inflow: *inflow,
            max_override: *max_override,
            parent: copy_bytes(parent),
            data: clone_node(data),
        },
        Action::Remove { name } => Action::Remove { name: copy_bytes(name) },
        Action::Edit { name, inflow, max } => Action::Edit {
            name: copy_bytes(name),
            inflow: *inflow,
            max: *max,
        },
        Action::Withdraw { account, amount, date } => Action::Withdraw {
            account: copy_bytes(account),
            amount: *amount,
            date: *date,
        },
        Action::Deposit { account, amount, date } => Action::Deposit {
            account: match account {
                Some(n) => Some(copy_bytes(n)),
                None => None,
            },
            amount: *amount,
            date: *date,
        },
        Action::Transfer { from, to, amount, date } => Action::Transfer {
            from: copy_bytes(from),
            to: match to {
                Some(n) => Some(copy_bytes(n)),
                None => None,
            },
            amount: *amount,
            date: *date,
        },
    }
}

impl Account {
    /// Apply one action to the tree: the single entry point of the
    /// state-transition layer. Returns the first error and stops, leaving
    /// the tree in whatever state the completed sub-steps left.
    pub fn apply(&mut self, action: Action) -> (r: Result<(), AcctError>)
        requires
            wf(old(self)@),
            count_of(old(self)@) < size_limit(),
            bal_bounded(old(self)@, balance_limit() - 3 * unit_limit()),
            action_wf(action_view(action)),
        ensures
            final(self)@ == spec_apply(old(self)@, action_view(action)).0,
            match r {
                Ok(_) => spec_apply(old(self)@, action_view(action)).1 is None,
                Err(e) => spec_apply(old(self)@, action_view(action)).1 == Some(err_view(e)),
            },
    {
        let mut tmp = Account {
            name: Vec::new(),
            data: AccountType::Leaf { balance: 0, max: None },
        };
        mem::swap(self, &mut tmp);
        let (t, e) = apply_core(tmp, action, Ghost(balance_limit() - 3 * unit_limit()));
        *self = t;
        match e {
            None => Ok(()),
            Some(x) => Err(x),
        }
    }
}

/// Whether the date filter of the replay skips this action: deposits and
/// withdrawals outside the window are skipped; every other action always
/// applies (a transfer carries a date, but the filter does not examine
/// it).
pub open spec fn spec_skipped(act: ActionV, start: Option<Date>, end: Option<Date>) -> bool {
    match act {
        ActionV::Deposit { date, .. } | ActionV::Withdraw { date, .. } => {
            ||| (start matches Some(s) && date_lt(date, s))
            ||| (end matches Some(e) && date_lt(e, date))
        },
        _ => false,
    }
}

/// The replay of an action log from index `i` on: each action is applied
/// in order, the first error stops the fold.
pub open spec fn spec_calc_from(
    a: AccountV,
    acts: Seq<ActionV>,
    i: int,
    start: Option<Date>,
    end: Option<Date>,
) -> Result<AccountV, ErrV>
    decreases acts.len() - i,
{
    if i < 0 || i >= acts.len() {
        Ok(a)
    } else if spec_skipped(acts[i], start, end) {
        spec_calc_from(a, acts, i + 1, start, end)
    } else {
        let step = spec_apply(a, acts[i]);
        match step.1 {
            Some(e) => Err(e),
            None => spec_calc_from(step.0, acts, i + 1, start, end),
        }
    }
}

/// The machine-imposed room the replay needs: at every step the tree is
/// still smaller than the size limit and its balances leave the applier
/// enough headroom.
pub open spec fn calc_room(
    a: AccountV,
    acts: Seq<ActionV>,
    i: int,
    bb: int,
    start: Option<Date>,
    end: Option<Date>,
) -> bool
    decreases acts.len() - i,
{
    if i < 0 || i >= acts.len() {
        true
    } else {
        &&& count_of(a) < size_limit()
        &&& 0 <= bb
        &&& bb + 3 * unit_limit() <= balance_limit()
        &&& action_wf(acts[i])
        &&& if spec_skipped(acts[i], start, end) {
            calc_room(a, acts, i + 1, bb, start, end)
        } else {
            let step = spec_apply(a, acts[i]);
            step.1 is None ==> calc_room(step.0, acts, i + 1, bb + 2 * unit_limit(), start, end)
        }
    }
}

/// The views of a sequence of actions.
pub open spec fn action_views(s: Seq<Action>) -> Seq<ActionV> {
    Seq::new(s.len(), |i: int| action_view(s[i]))
}

/// Replay an ordered action log into a fresh root, applying only the
/// deposits and withdrawals dated inside the given window, and stopping
/// at the first error.
#[verifier::loop_isolation(false)]
pub fn calculate(actions: &Vec<Action>, start: Option<Date>, end: Option<Date>) -> (r: Result<
    Account,
    AcctError,
>)
    requires
        calc_room(
            AccountV { name: crate::account::root_name(), node: NodeV::Branch { children: Seq::empty() } },
            action_views(actions@),
            0,
            0,
            start,
            end,
        ),
    ensures
        ({
            let sr = spec_calc_from(
                AccountV {
                    name: crate::account::root_name(),
                    node: NodeV::Branch { children: Seq::empty() },
                },
                action_views(actions@),
                0,
                start,
                end,
            );
            match r {
                Ok(t) => sr == Ok::<AccountV, ErrV>(t@),
                Err(e) => sr == Err::<AccountV, ErrV>(err_view(e)),
            }
        }),
{
    let ghost acts = action_views(actions@);
    let ghost root0 = AccountV {
        name: crate::account::root_name(),
        node: NodeV::Branch { children: Seq::empty() },
    };
    let mut account = Account::new_root();
    let mut i: usize = 0;
    let ghost mut bb: int = 0;
    proof {
        assert(count_of(root0) == 1);
    }
    while i < actions.len()
        invariant
            i <= actions.len(),
            wf_node(account@),
            bal_bounded(account@, bb),
            0 <= bb,
            spec_calc_from(root0, acts, 0, start, end) == spec_calc_from(
                account@,
                acts,
                i as int,
                start,
                end,
            ),
            calc_room(account@, acts, i as int, bb, start, end),
        decreases actions.len() - i,
    {
        let act = &actions[i];
        proof {
            assert(acts[i as int] == action_view(actions@[i as int]));
        }
        let mut skip = false;
        match act {
            Action::Deposit { date, .. } | Action::Withdraw { date, .. } => {
                match &start {
                    Some(s) => {
                        if date.before(s) {
                            skip = true;
                        }
                    }
                    None => {}
                }
                match &end {
                    Some(e) => {
                        if e.before(date) {
                            skip = true;
                        }
                    }
                    None => {}
                }
            }
            _ => {}
        }
        if !skip {
            let owned = clone_action(act);
            let ghost av0 = account@;
            let mut tmp = Account {
                name: Vec::new(),
                data: AccountType::Leaf { balance: 0, max: None },
            };
            mem::swap(&mut account, &mut tmp);
            let (t, e) = apply_core(tmp, owned, Ghost(bb));
            account = t;
            match e {
                Some(err) => {
                    return Err(err);
                }
                None => {}
            }
            proof {
                bb = bb + 2 * unit_limit();
            }
        }
        i += 1;
    }
    Ok(account)
}

} // verus!
