//! The diff engine: structural subtraction of two same-shaped trees, for
//! reporting net change over a period.

use vstd::prelude::*;

use crate::account::{
    Account, AccountType, BranchEntry, Inflow, bytes_eq, clone_entry, copy_bytes, entries_view,
    entry_view,
};
use crate::actions::ErrV;
use crate::errors::AcctError;
use crate::model::{
    AccountV, EntryV, InflowV, NodeV, bal_bounded, bal_bounded_entries, balance_limit, count_of,
    lemma_bal_bounded_index, lemma_count_pos, lemma_sum_count_bounds, sum_count,
};

verus! {

/// The first entry of `s`, at position `j` or later, whose account is
/// named `name`.
pub open spec fn first_named(s: Seq<EntryV>, name: Seq<u8>, j: int) -> Option<int>
    decreases s.len() - j,
{
    if j < 0 || j >= s.len() {
        None
    } else if s[j].account.name == name {
        Some(j)
    } else {
        first_named(s, name, j + 1)
    }
}

/// Differencing two trees pairs nodes by kind and, below a branch, by
/// name. A leaf pair yields the newer balance less the older, with the
/// newer's maximum; a branch pair recurses per child of the newer tree,
/// each matched against the first equally-named child of the older one;
/// a newer child with no match is included verbatim (its net change is
/// its full balance); an older child with no match is silently dropped.
/// Mismatched kinds fail. Entries of the result all carry a zero fixed
/// inflow.
pub open spec fn spec_diff(newer: AccountV, older: AccountV) -> Result<AccountV, ErrV>
    decreases newer, 0int, 0int,
{
    match (newer.node, older.node) {
        (NodeV::Leaf { balance: nb, max }, NodeV::Leaf { balance: ob, .. }) => Ok(
            AccountV { name: newer.name, node: NodeV::Leaf { balance: nb - ob, max } },
        ),
        (NodeV::Branch { children: nc }, NodeV::Branch { children: oc }) => {
            match spec_diff_entries(nc, oc, 0) {
                Ok(cs) => Ok(AccountV { name: newer.name, node: NodeV::Branch { children: cs } }),
                Err(e) => Err(e),
            }
        },
        _ => Err(ErrV::TypeMismatch),
    }
}

/// Differencing the children of a branch pair, from index `i` of the
/// newer children on.
pub open spec fn spec_diff_entries(nc: Seq<EntryV>, oc: Seq<EntryV>, i: int) -> Result<
    Seq<EntryV>,
    ErrV,
>
    decreases nc, 1int, nc.len() - i,
{
    if i < 0 || i >= nc.len() {
        Ok(Seq::empty())
    } else {
        let head = match first_named(oc, nc[i].account.name, 0) {
            Some(j) => spec_diff(nc[i].account, oc[j].account),
            None => Ok(nc[i].account),
        };
        match head {
            Err(e) => Err(e),
            Ok(d) => match spec_diff_entries(nc, oc, i + 1) {
                Err(e) => Err(e),
                Ok(rest) => Ok(
                    seq![EntryV { account: d, inflow: InflowV::Fixed(0), max_override: None }]
                        + rest,
                ),
            },
        }
    }
}

/// The first child of `children`, at position `j` or later, named `name`.
#[verifier::loop_isolation(false)]
fn find_named(children: &Vec<BranchEntry>, name: &Vec<u8>) -> (r: Option<usize>)
    ensures
        match r {
            Some(j) => first_named(entries_view(children@), name@, 0) == Some(j as int) && j
                < children@.len(),
            None => first_named(entries_view(children@), name@, 0) is None,
        },
{
    let ghost cs = entries_view(children@);
    let mut j: usize = 0;
    while j < children.len()
        invariant
            j <= children.len(),
            first_named(cs, name@, 0) == first_named(cs, name@, j as int),
        decreases children.len() - j,
    {
        proof {
            assert(cs[j as int] == entry_view(children@[j as int]));
        }
        if bytes_eq(&children[j].account.name, name) {
            return Some(j);
        }
        j += 1;
    }
    None
}

impl Account {
    /// The structural difference between this tree (the newer snapshot)
    /// and `older`: see `spec_diff` for what is paired, kept and dropped.
    /// Fails with `TypeMismatch` when paired nodes disagree on their
    /// kind.
    #[verifier::loop_isolation(false)]
    pub fn diff(&self, older: &Account) -> (r: Result<Account, AcctError>)
        requires
            bal_bounded(self@, balance_limit()),
            bal_bounded(older@, balance_limit()),
        ensures
            match r {
                Ok(d) => spec_diff(self@, older@) == Ok::<AccountV, ErrV>(d@),
                Err(e) => e matches AcctError::TypeMismatch && spec_diff(self@, older@) == Err::<
                    AccountV,
                    ErrV,
                >(ErrV::TypeMismatch),
            },
        decreases count_of(self@), 0int, 0int,
    {
        match (&self.data, &older.data) {
            (AccountType::Leaf { balance: nb, max }, AccountType::Leaf { balance: ob, .. }) => {
                let d = *nb - *ob;
                Ok(
                    Account {
                        name: copy_bytes(&self.name),
                        data: AccountType::Leaf { balance: d, max: *max },
                    },
                )
            }
            (
                AccountType::Branch { children: nc },
                AccountType::Branch { children: oc },
            ) => {
                let ghost ncs = entries_view(nc@);
                proof {
                    lemma_sum_count_bounds(ncs, ncs.len() as int);
                    assert(count_of(self@) == 1 + sum_count(ncs, ncs.len() as int));
                }
                match Self::diff_children(nc, oc, 0) {
                    Ok(cs) => {
                        let r = Account {
                            name: copy_bytes(&self.name),
                            data: AccountType::Branch { children: cs },
                        };
                        proof {
                            assert(r@ =~= (AccountV {
                                name: self@.name,
                                node: NodeV::Branch {
                                    children: spec_diff_entries(
                                        ncs,
                                        entries_view(oc@),
                                        0,
                                    )->Ok_0,
                                },
                            }));
                        }
                        Ok(r)
                    }
                    Err(e) => Err(e),
                }
            }
            _ => Err(AcctError::TypeMismatch),
        }
    }

    /// The recursive work of `diff` over the children of a branch pair.
    #[verifier::loop_isolation(false)]
    fn diff_children(nc: &Vec<BranchEntry>, oc: &Vec<BranchEntry>, i: usize) -> (r: Result<
        Vec<BranchEntry>,
        AcctError,
    >)
        requires
            i <= nc@.len(),
            bal_bounded_entries(entries_view(nc@), nc@.len() as int, balance_limit()),
            bal_bounded_entries(entries_view(oc@), oc@.len() as int, balance_limit()),
        ensures
            match r {
                Ok(cs) => spec_diff_entries(entries_view(nc@), entries_view(oc@), i as int)
                    == Ok::<Seq<EntryV>, ErrV>(entries_view(cs@)),
                Err(e) => e matches AcctError::TypeMismatch && spec_diff_entries(
                    entries_view(nc@),
                    entries_view(oc@),
                    i as int,
                ) == Err::<Seq<EntryV>, ErrV>(ErrV::TypeMismatch),
            },
        decreases sum_count(entries_view(nc@), nc@.len() as int), 1int, nc@.len() - i,
    {
        let ghost ncs = entries_view(nc@);
        let ghost ocs = entries_view(oc@);
        if i >= nc.len() {
            let empty: Vec<BranchEntry> = Vec::new();
            proof {
                assert(entries_view(empty@) =~= Seq::<EntryV>::empty());
            }
            return Ok(empty);
        }
        proof {
            assert(ncs[i as int] == entry_view(nc@[i as int]));
            lemma_sum_count_bounds(ncs, ncs.len() as int);
            lemma_count_pos(nc@[i as int].account@);
            lemma_bal_bounded_index(ncs, ncs.len() as int, balance_limit(), i as int);
        }
        let head: Account = match find_named(oc, &nc[i].account.name) {
            Some(j) => {
                proof {
                    assert(ocs[j as int] == entry_view(oc@[j as int]));
                }
                proof {
                    lemma_bal_bounded_index(ocs, ocs.len() as int, balance_limit(), j as int);
                }
                match nc[i].account.diff(&oc[j].account) {
                    Ok(d) => d,
                    Err(e) => {
                        return Err(e);
                    }
                }
            }
            None => nc[i].account.clone_subtree(),
        };
        match Self::diff_children(nc, oc, i + 1) {
            Ok(rest) => {
                let ghost restv = entries_view(rest@);
                let ghost headv = head@;
                let e2 = BranchEntry { account: head, inflow: Inflow::Fixed(0), max_override: None };
                let mut out: Vec<BranchEntry> = Vec::new();
                out.push(e2);
                let mut rest2 = rest;
                let mut k: usize = 0;
                while k < rest2.len()
                    invariant
                        k <= rest2.len(),
                        rest2@.len() == restv.len(),
                        forall|q: int|
                            0 <= q < rest2@.len() ==> entry_view(#[trigger] rest2@[q]) == restv[q],
                        out@.len() == k + 1,
                        entry_view(out@[0]) == (EntryV {
                            account: headv,
                            inflow: InflowV::Fixed(0),
                            max_override: None,
                        }),
                        forall|q: int|
                            1 <= q < out@.len() ==> entry_view(#[trigger] out@[q]) == restv[q - 1],
                    decreases rest2.len() - k,
                {
                    out.push(clone_entry(&rest2[k]));
                    k += 1;
                }
                proof {
                    assert(entries_view(out@) =~= seq![
                        EntryV { account: headv, inflow: InflowV::Fixed(0), max_override: None },
                    ] + restv);
                }
                Ok(out)
            }
            Err(e) => Err(e),
        }
    }
}

} // verus!
