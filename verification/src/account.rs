//! The executable account tree: leaves holding balances, branches holding
//! ordered child entries, and the operations that do not move money
//! (construction, lookup, deep copy, adding and removing children,
//! withdrawal).

use vstd::prelude::*;

use core::mem;

use crate::errors::AcctError;
use crate::model::{
    AccountV, EntryV, InflowV, NodeV, any_named, append_entry, bal_bounded, bal_of, balance_limit, cap_of,
    count_of, find_in, find_in_entries, keep_unnamed, lemma_bal_bounded_index, lemma_bal_sum_bound,
    lemma_cap_bound, lemma_count_pos, lemma_entry_cap_bound, lemma_keep_unnamed_all,
    lemma_sum_count_bounds, lemma_sum_count_mono, lemma_wf_entries_index, remove_in,
    lemma_sum_caps_none, remove_in_entries, size_limit, sum_bal, sum_caps, sum_count, unit_limit,
    wf, wf_entries, wf_entry, wf_node, working_limit, entry_cap, entry_at_cap,
    bal_bounded_entries,
};
use vstd::pervasive::VecAdditionalExecFns;

verus! {

/// How a child shares in a deposit made to its parent: a flat amount taken
/// during the fixed pass, or a weighted share of what then remains.
#[derive(Clone, Copy, Debug)]
pub enum Inflow {
    Fixed(i64),
    Flex(i64),
}

/// A node's payload: a leaf's balance and optional maximum, or a branch's
/// ordered children.
#[derive(Debug)]
pub enum AccountType {
    Leaf { balance: i64, max: Option<i64> },
    Branch { children: Vec<BranchEntry> },
}

/// One child slot of a branch.
#[derive(Debug)]
pub struct BranchEntry {
    pub account: Account,
    pub inflow: Inflow,
    pub max_override: Option<i64>,
}

/// An account: a name used as the lookup key, and its node payload.
#[derive(Debug)]
pub struct Account {
    pub name: Vec<u8>,
    pub data: AccountType,
}

/// Abstraction of an inflow rule.
pub open spec fn inflow_view(i: Inflow) -> InflowV {
    match i {
        Inflow::Fixed(f) => InflowV::Fixed(f as int),
        Inflow::Flex(w) => InflowV::Flex(w as int),
    }
}

/// Abstraction of an optional bound.
pub open spec fn opt_view(m: Option<i64>) -> Option<int> {
    match m {
        Some(x) => Some(x as int),
        None => None,
    }
}

/// Abstraction of an account into the mathematical model.
pub open spec fn acct_view(a: Account) -> AccountV
    decreases a, 1int,
{
    AccountV { name: a.name@, node: node_view(a.data) }
}

/// Abstraction of a node payload.
pub open spec fn node_view(t: AccountType) -> NodeV
    decreases t, 3int,
{
    match t {
        AccountType::Leaf { balance, max } => NodeV::Leaf {
            balance: balance as int,
            max: opt_view(max),
        },
        AccountType::Branch { children } => NodeV::Branch { children: entries_view(children@) },
    }
}

/// Abstraction of a sequence of child slots, element by element.
pub open spec fn entries_view(s: Seq<BranchEntry>) -> Seq<EntryV>
    decreases s, 0int,
{
    if s.len() == 0 {
        Seq::empty()
    } else {
        Seq::new(
            s.len(),
            |i: int| entry_view(
                s[if 0 <= i < s.len() {
                    i
                } else {
                    0int
                }],
            ),
        )
    }
}

/// Abstraction of one child slot.
pub open spec fn entry_view(e: BranchEntry) -> EntryV
    decreases e, 2int,
{
    EntryV {
        account: acct_view(e.account),
        inflow: inflow_view(e.inflow),
        max_override: opt_view(e.max_override),
    }
}

impl View for Account {
    type V = AccountV;

    open spec fn view(&self) -> AccountV {
        acct_view(*self)
    }
}

/// The name of the tree root.
pub open spec fn root_name() -> Seq<u8> {
    seq![114u8, 111u8, 111u8, 116u8]
}

/// Byte-string equality, used for name lookups.
pub fn bytes_eq(a: &Vec<u8>, b: &Vec<u8>) -> (r: bool)
    ensures
        r <==> a@ == b@,
{
    if a.len() != b.len() {
        proof {
            assert(a@ != b@);
        }
        return false;
    }
    let mut i: usize = 0;
    while i < a.len()
        invariant
            i <= a.len(),
            a@.len() == b@.len(),
            forall|j: int| 0 <= j < i ==> a@[j] == b@[j],
        decreases a.len() - i,
    {
        if a[i] != b[i] {
            return false;
        }
        i += 1;
    }
    proof {
        assert(a@ =~= b@);
    }
    true
}

/// A fresh copy of a byte string.
pub fn copy_bytes(v: &Vec<u8>) -> (r: Vec<u8>)
    ensures
        r@ == v@,
{
    let mut r: Vec<u8> = Vec::new();
    let mut i: usize = 0;
    while i < v.len()
        invariant
            i <= v.len(),
            r@ =~= v@.subrange(0, i as int),
        decreases v.len() - i,
    {
        r.push(v[i]);
        i += 1;
    }
    proof {
        assert(r@ =~= v@);
    }
    r
}

impl Account {
    /// The root branch, created once at program start: named `root`, with
    /// no children yet.
    pub fn new_root() -> (r: Account)
        ensures
            r@ == (AccountV { name: root_name(), node: NodeV::Branch { children: Seq::empty() } }),
    {
        let mut name: Vec<u8> = Vec::new();
        name.push(114u8);
        name.push(111u8);
        name.push(111u8);
        name.push(116u8);
        let r = Account { name, data: AccountType::Branch { children: Vec::new() } };
        proof {
            assert(r@.name =~= root_name());
            assert(r@.node->children =~= Seq::<EntryV>::empty());
            assert(r@ =~= (AccountV {
                name: root_name(),
                node: NodeV::Branch { children: Seq::empty() },
            }));
        }
        r
    }

    /// A deep copy of the subtree rooted here, used to snapshot a node
    /// before mutating the tree.
    #[verifier::loop_isolation(false)]
    pub fn clone_subtree(&self) -> (r: Account)
        ensures
            r@ == self@,
        decreases count_of(self@),
    {
        let name = copy_bytes(&self.name);
        match &self.data {
            AccountType::Leaf { balance, max } => {
                let r = Account {
                    name,
                    data: AccountType::Leaf { balance: *balance, max: *max },
                };
                proof {
                    assert(r@ =~= self@);
                }
                r
            }
            AccountType::Branch { children } => {
                let ghost cs = entries_view(children@);
                let mut copied: Vec<BranchEntry> = Vec::new();
                let mut i: usize = 0;
                while i < children.len()
                    invariant
                        i <= children.len(),
                        copied@.len() == i,
                        self@.node == (NodeV::Branch { children: cs }),
                        forall|j: int|
                            0 <= j < i ==> entry_view(#[trigger] copied@[j])
                                == entry_view(children@[j]),
                    decreases children.len() - i,
                {
                    let e = &children[i];
                    proof {
                        lemma_sum_count_bounds(cs, cs.len() as int);
                        assert(cs[i as int] == entry_view(children@[i as int]));
                        lemma_count_pos(e.account@);
                        assert(count_of(e.account@) < count_of(self@));
                    }
                    let c = BranchEntry {
                        account: e.account.clone_subtree(),
                        inflow: e.inflow,
                        max_override: e.max_override,
                    };
                    copied.push(c);
                    i += 1;
                }
                let r = Account { name, data: AccountType::Branch { children: copied } };
                proof {
                    assert(entries_view(copied@) =~= entries_view(children@));
                    assert(r@ =~= self@);
                }
                r
            }
        }
    }

    /// The balance of this account: a leaf's stored value; for a branch,
    /// the recursive sum over its children, never stored redundantly.
    #[verifier::loop_isolation(false)]
    pub fn balance(&self) -> (r: i64)
        requires
            wf_node(self@),
            count_of(self@) <= size_limit(),
            bal_bounded(self@, working_limit()),
        ensures
            r as int == bal_of(self@),
        decreases *self,
    {
        match &self.data {
            AccountType::Leaf { balance, .. } => *balance,
            AccountType::Branch { children } => {
                let ghost cs = entries_view(children@);
                let mut total: i64 = 0;
                let mut i: usize = 0;
                proof {
                    lemma_sum_count_bounds(cs, cs.len() as int);
                }
                while i < children.len()
                    invariant
                        i <= children.len(),
                        total as int == sum_bal(cs, i as int),
                        -(sum_count(cs, i as int)) * working_limit() <= total as int,
                        total as int <= sum_count(cs, i as int) * working_limit(),
                    decreases children.len() - i,
                {
                    proof {
                        lemma_wf_entries_index(cs, cs.len() as int, i as int);
                        lemma_bal_bounded_index(cs, cs.len() as int, working_limit(), i as int);
                        lemma_sum_count_bounds(cs, cs.len() as int);
                        lemma_sum_count_mono(cs, i as int + 1, cs.len() as int);
                        lemma_sum_count_bounds(cs, i as int);
                        lemma_bal_sum_bound(cs[i as int].account, working_limit());
                    }
                    let c = children[i].account.balance();
                    total = total + c;
                    i += 1;
                }
                total
            }
        }
    }
}


/// Appending a slot commutes with abstraction.
pub proof fn lemma_entries_view_push(s: Seq<BranchEntry>, e: BranchEntry)
    ensures
        entries_view(s.push(e)) == entries_view(s).push(entry_view(e)),
{
    assert(entries_view(s.push(e)) =~= entries_view(s).push(entry_view(e)));
}

/// A fresh copy of one child slot.
pub fn clone_entry(e: &BranchEntry) -> (r: BranchEntry)
    ensures
        entry_view(r) == entry_view(*e),
{
    BranchEntry {
        account: e.account.clone_subtree(),
        inflow: e.inflow,
        max_override: e.max_override,
    }
}

impl Account {
    /// The path of child indices leading to the first node named `name` in
    /// a depth-first search that visits a node before its children and the
    /// children in sibling order. An empty path denotes this account
    /// itself; `None` means no such node exists. With duplicate names the
    /// first match in traversal order wins, so a deeper duplicate is
    /// unreachable.
    #[verifier::loop_isolation(false)]
    pub fn find_child(&self, name: &Vec<u8>) -> (r: Option<Vec<usize>>)
        ensures
            match r {
                Some(p) => find_in(self@, name@) == Some(p@),
                None => find_in(self@, name@) is None,
            },
        decreases count_of(self@),
    {
        if bytes_eq(&self.name, name) {
            return Some(Vec::new());
        }
        match &self.data {
            AccountType::Leaf { .. } => None,
            AccountType::Branch { children } => {
                let ghost cs = entries_view(children@);
                let mut i: usize = 0;
                while i < children.len()
                    invariant
                        i <= children.len(),
                        find_in_entries(cs, name@, 0) == find_in_entries(cs, name@, i as int),
                    decreases children.len() - i,
                {
                    let e = &children[i];
                    proof {
                        lemma_sum_count_bounds(cs, cs.len() as int);
                        lemma_count_pos(e.account@);
                        assert(cs[i as int] == entry_view(children@[i as int]));
                        assert(count_of(e.account@) < count_of(self@));
                    }
                    match e.account.find_child(name) {
                        Some(mut p) => {
                            let ghost sub = p@;
                            p.insert(0, i);
                            proof {
                                assert(p@ =~= seq![i] + sub);
                            }
                            return Some(p);
                        }
                        None => {}
                    }
                    i += 1;
                }
                None
            }
        }
    }

    /// Take `amount` out of this account. Only leaves can be withdrawn
    /// from; the balance may go negative (there is no insufficient-funds
    /// check). On a branch the tree is left untouched and the withdrawal
    /// fails.
    pub fn withdraw(&mut self, amount: i64) -> (r: Result<(), AcctError>)
        requires
            -unit_limit() <= amount <= unit_limit(),
            bal_bounded(old(self)@, balance_limit()),
        ensures
            old(self)@.node matches NodeV::Leaf { balance, max } ==> r is Ok && final(self)@
                == (AccountV {
                name: old(self)@.name,
                node: NodeV::Leaf { balance: balance - amount, max },
            }),
            old(self)@.node matches NodeV::Branch { .. } ==> r matches Err(e) && (
            e matches AcctError::InvalidWithdrawTarget) && final(self)@ == old(self)@,
    {
        match &self.data {
            AccountType::Leaf { balance, max } => {
                let b = *balance;
                let m = *max;
                self.data = AccountType::Leaf { balance: b - amount, max: m };
                Ok(())
            }
            AccountType::Branch { .. } => Err(AcctError::InvalidWithdrawTarget),
        }
    }

    /// Append a new child entry to this branch. Adding a child to a leaf
    /// fails and leaves the tree untouched.
    pub fn add_child(&mut self, account: Account, inflow: Inflow, max_override: Option<i64>) -> (r:
        Result<(), AcctError>)
        ensures
            old(self)@.node matches NodeV::Leaf { .. } ==> r matches Err(e) && (
            e matches AcctError::NotABranch) && final(self)@ == old(self)@,
            old(self)@.node matches NodeV::Branch { .. } ==> r is Ok && final(self)@
                == append_entry(
                old(self)@,
                EntryV {
                    account: account@,
                    inflow: inflow_view(inflow),
                    max_override: opt_view(max_override),
                },
            ),
    {
        let ghost entry_v = EntryV {
            account: account@,
            inflow: inflow_view(inflow),
            max_override: opt_view(max_override),
        };
        let mut tmp = Account {
            name: Vec::new(),
            data: AccountType::Leaf { balance: 0, max: None },
        };
        mem::swap(self, &mut tmp);
        let Account { name, data } = tmp;
        match data {
            AccountType::Leaf { balance, max } => {
                *self = Account { name, data: AccountType::Leaf { balance, max } };
                proof {
                    assert(self@ =~= old(self)@);
                }
                Err(AcctError::NotABranch)
            }
            AccountType::Branch { mut children } => {
                let ghost cs0 = children@;
                children.push(BranchEntry { account, inflow, max_override });
                *self = Account { name, data: AccountType::Branch { children } };
                proof {
                    lemma_entries_view_push(cs0, BranchEntry { account, inflow, max_override });
                    assert(self@ =~= append_entry(old(self)@, entry_v));
                }
                Ok(())
            }
        }
    }

    /// Detach every child named `name` of the shallowest, left-most branch
    /// that has one, returning the name of the branch it was removed from
    /// (needed by the edit action to reinsert under the same parent).
    /// Fails with `AccountNotFound`, leaving the tree untouched, when the
    /// name occurs nowhere below this account.
    pub fn remove(&mut self, name: &Vec<u8>) -> (r: Result<Vec<u8>, AcctError>)
        ensures
            match remove_in(old(self)@, name@) {
                Some(res) => r matches Ok(p) && p@ == res.1 && final(self)@ == res.0,
                None => r matches Err(e) && (e matches AcctError::AccountNotFound(n) && n@
                    == name@) && final(self)@ == old(self)@,
            },
    {
        match Self::remove_core(self, name) {
            Some((a2, parent)) => {
                *self = a2;
                Ok(parent)
            }
            None => Err(AcctError::AccountNotFound(copy_bytes(name))),
        }
    }

    /// The recursive work of `remove`, building the new tree without
    /// touching the old one.
    #[verifier::loop_isolation(false)]
    fn remove_core(a: &Account, name: &Vec<u8>) -> (r: Option<(Account, Vec<u8>)>)
        ensures
            match remove_in(a@, name@) {
                Some(res) => r matches Some(pr) && pr.0@ == res.0 && pr.1@ == res.1,
                None => r is None,
            },
        decreases count_of(a@),
    {
        match &a.data {
            AccountType::Leaf { .. } => None,
            AccountType::Branch { children } => {
                let ghost cs = entries_view(children@);
                let mut found = false;
                let mut kept: Vec<BranchEntry> = Vec::new();
                let mut i: usize = 0;
                while i < children.len()
                    invariant
                        i <= children.len(),
                        found == any_named(cs, name@, i as int),
                        entries_view(kept@) == keep_unnamed(cs, name@, i as int),
                    decreases children.len() - i,
                {
                    let e = &children[i];
                    proof {
                        assert(cs[i as int] == entry_view(children@[i as int]));
                    }
                    let ghost kept0 = kept@;
                    if bytes_eq(&e.account.name, name) {
                        found = true;
                        proof {
                            assert(cs[i as int].account.name == name@);
                            assert(any_named(cs, name@, i as int + 1));
                        }
                    } else {
                        kept.push(clone_entry(e));
                        proof {
                            lemma_entries_view_push(kept0, kept@.last());
                            assert(entries_view(kept@) =~= keep_unnamed(cs, name@, i as int + 1));
                            if !found {
                                assert forall|k: int|
                                    0 <= k < i as int + 1 && k < cs.len() implies #[trigger] cs[k].account.name
                                    != name@ by {
                                    if k < i as int && cs[k].account.name == name@ {
                                        assert(any_named(cs, name@, i as int));
                                    }
                                };
                                assert(!any_named(cs, name@, i as int + 1));
                            }
                        }
                    }
                    i += 1;
                }
                if found {
                    let parent = copy_bytes(&a.name);
                    let r = Account {
                        name: copy_bytes(&a.name),
                        data: AccountType::Branch { children: kept },
                    };
                    proof {
                        let pair = remove_in(a@, name@)->0;
                        assert(r@ =~= pair.0);
                    }
                    return Some((r, parent));
                }
                proof {
                    lemma_keep_unnamed_all(cs, name@, cs.len() as int);
                    assert(entries_view(kept@) =~= cs);
                }
                let mut j: usize = 0;
                while j < children.len()
                    invariant
                        j <= children.len(),
                        kept@.len() == children@.len(),
                        entries_view(kept@) == cs,
                        remove_in_entries(cs, name@, 0) == remove_in_entries(
                            cs,
                            name@,
                            j as int,
                        ),
                    decreases children.len() - j,
                {
                    let e = &children[j];
                    proof {
                        lemma_sum_count_bounds(cs, cs.len() as int);
                        lemma_count_pos(e.account@);
                        assert(cs[j as int] == entry_view(children@[j as int]));
                        assert(count_of(e.account@) < count_of(a@));
                    }
                    match Self::remove_core(&e.account, name) {
                        Some((acc2, parent)) => {
                            let ghost acc2v = acc2@;
                            let ghost keptv = kept@;
                            kept.set(
                                j,
                                BranchEntry {
                                    account: acc2,
                                    inflow: e.inflow,
                                    max_override: e.max_override,
                                },
                            );
                            let r = Account {
                                name: copy_bytes(&a.name),
                                data: AccountType::Branch { children: kept },
                            };
                            proof {
                                assert(entries_view(keptv.update(
                                    j as int,
                                    BranchEntry {
                                        account: acc2,
                                        inflow: e.inflow,
                                        max_override: e.max_override,
                                    },
                                )) =~= cs.update(
                                    j as int,
                                    EntryV {
                                        account: acc2v,
                                        inflow: cs[j as int].inflow,
                                        max_override: cs[j as int].max_override,
                                    },
                                ));
                                let pair = remove_in(a@, name@)->0;
                                assert(r@ =~= pair.0);
                            }
                            return Some((r, parent));
                        }
                        None => {}
                    }
                    j += 1;
                }
                None
            }
        }
    }
}


impl Account {
    /// This account's own cap: a leaf's stored maximum; for a branch, the
    /// sum of its children's effective caps, unbounded (`None`) as soon as
    /// one child is unbounded.
    #[verifier::loop_isolation(false)]
    pub fn cap(&self) -> (r: Option<i64>)
        requires
            wf_node(self@),
            count_of(self@) <= size_limit(),
        ensures
            opt_view(r) == cap_of(self@),
        decreases count_of(self@), 1int,
    {
        match &self.data {
            AccountType::Leaf { max, .. } => *max,
            AccountType::Branch { children } => {
                let ghost cs = entries_view(children@);
                let mut total: i64 = 0;
                let mut i: usize = 0;
                proof {
                    lemma_sum_count_bounds(cs, cs.len() as int);
                }
                while i < children.len()
                    invariant
                        i <= children.len(),
                        Some(total as int) == sum_caps(cs, i as int),
                        0 <= total as int,
                        total as int <= sum_count(cs, i as int) * unit_limit(),
                    decreases children.len() - i,
                {
                    let e = &children[i];
                    proof {
                        lemma_wf_entries_index(cs, cs.len() as int, i as int);
                        lemma_sum_count_bounds(cs, cs.len() as int);
                        lemma_sum_count_mono(cs, i as int + 1, cs.len() as int);
                        lemma_sum_count_bounds(cs, i as int);
                        lemma_entry_cap_bound(cs[i as int]);
                        lemma_count_pos(e.account@);
                        assert(cs[i as int] == entry_view(children@[i as int]));
                    }
                    match Self::entry_cap_of(e) {
                        None => {
                            proof {
                                lemma_sum_caps_none(cs, i as int, cs.len() as int);
                            }
                            return None;
                        }
                        Some(c) => {
                            total = total + c;
                        }
                    }
                    i += 1;
                }
                Some(total)
            }
        }
    }

    /// The effective cap of one child slot: its override when present,
    /// else the child's own cap.
    pub fn entry_cap_of(e: &BranchEntry) -> (r: Option<i64>)
        requires
            wf_entry(entry_view(*e)),
            count_of(e.account@) <= size_limit(),
        ensures
            opt_view(r) == entry_cap(entry_view(*e)),
        decreases count_of(e.account@), 2int,
    {
        proof {
            lemma_count_pos(e.account@);
        }
        match e.max_override {
            Some(m) => Some(m),
            None => e.account.cap(),
        }
    }

    /// Whether a child slot is saturated: its balance has reached its
    /// effective cap. An unbounded slot never is.
    pub fn entry_saturated(e: &BranchEntry) -> (r: bool)
        requires
            wf_entry(entry_view(*e)),
            count_of(e.account@) <= size_limit(),
            bal_bounded(e.account@, working_limit()),
        ensures
            r == entry_at_cap(entry_view(*e)),
    {
        match Self::entry_cap_of(e) {
            Some(c) => e.account.balance() >= c,
            None => false,
        }
    }
}

} // verus!
