//! The mathematical model of the account tree.
//!
//! Executable trees (`crate::account`) are abstracted into these ghost
//! datatypes, over unbounded integers; every contract in the crate speaks
//! about values of this model.

use vstd::prelude::*;

verus! {

/// How a child account shares in a deposit made to its parent branch:
/// a flat amount taken first, or a weighted share of what remains.
pub enum InflowV {
    Fixed(int),
    Flex(int),
}

/// A node: either a leaf holding a balance (with an optional maximum),
/// or a branch holding an ordered sequence of child entries.
#[verifier::ext_equal]
pub enum NodeV {
    Leaf { balance: int, max: Option<int> },
    Branch { children: Seq<EntryV> },
}

/// One child slot of a branch: the child account, its inflow rule, and an
/// optional cap override that takes precedence over the child's own cap.
#[verifier::ext_equal]
pub struct EntryV {
    pub account: AccountV,
    pub inflow: InflowV,
    pub max_override: Option<int>,
}

/// An account: a name (a byte string, the lookup key) and its node.
#[verifier::ext_equal]
pub struct AccountV {
    pub name: Seq<u8>,
    pub node: NodeV,
}

/// Balance of an account: a leaf's stored balance; a branch's balance is
/// always the sum of its children's balances, never stored.
pub open spec fn bal_of(a: AccountV) -> int
    decreases a, 1int,
{
    match a.node {
        NodeV::Leaf { balance, .. } => balance,
        NodeV::Branch { children } => sum_bal(children, children.len() as int),
    }
}

/// Sum of the balances of the first `n` entries of `s`.
pub open spec fn sum_bal(s: Seq<EntryV>, n: int) -> int
    decreases s, 0int, n,
{
    if n <= 0 || n > s.len() {
        0
    } else {
        sum_bal(s, n - 1) + bal_of(s[n - 1].account)
    }
}

/// An account's own cap: a leaf's stored maximum; a branch's cap is the sum
/// of its children's effective caps, unbounded (`None`) as soon as one child
/// is unbounded.
pub open spec fn cap_of(a: AccountV) -> Option<int>
    decreases a, 1int,
{
    match a.node {
        NodeV::Leaf { max, .. } => max,
        NodeV::Branch { children } => sum_caps(children, children.len() as int),
    }
}

/// Sum of the effective caps of the first `n` entries of `s`; `None` if any
/// of them is unbounded.
pub open spec fn sum_caps(s: Seq<EntryV>, n: int) -> Option<int>
    decreases s, 0int, n,
{
    if n <= 0 || n > s.len() {
        Some(0int)
    } else {
        match (sum_caps(s, n - 1), entry_cap(s[n - 1])) {
            (Some(rest), Some(c)) => Some(rest + c),
            _ => None,
        }
    }
}

/// The effective cap of an entry: its override if present, else the child
/// account's own cap.
pub open spec fn entry_cap(e: EntryV) -> Option<int>
    decreases e,
{
    match e.max_override {
        Some(m) => Some(m),
        None => cap_of(e.account),
    }
}

/// Whether an entry is saturated: its balance has reached its effective cap.
/// An unbounded entry is never saturated.
pub open spec fn entry_at_cap(e: EntryV) -> bool {
    match entry_cap(e) {
        Some(c) => bal_of(e.account) >= c,
        None => false,
    }
}

/// The flex weight an entry contributes to a distribution round: its weight
/// if it is a `Flex` entry that is not saturated, else zero.
pub open spec fn entry_flex(e: EntryV) -> int {
    match e.inflow {
        InflowV::Fixed(_) => 0,
        InflowV::Flex(w) => if entry_at_cap(e) {
            0
        } else {
            w
        },
    }
}

/// Sum of the flex weights of the first `n` entries of `s`.
pub open spec fn sum_flex(s: Seq<EntryV>, n: int) -> int
    decreases n,
{
    if n <= 0 {
        0
    } else {
        sum_flex(s, n - 1) + entry_flex(s[n - 1])
    }
}

/// Number of nodes in the tree rooted at `a`, the root included.
pub open spec fn count_of(a: AccountV) -> int
    decreases a, 1int,
{
    match a.node {
        NodeV::Leaf { .. } => 1,
        NodeV::Branch { children } => 1 + sum_count(children, children.len() as int),
    }
}

/// Sum of the node counts of the first `n` entries of `s`.
pub open spec fn sum_count(s: Seq<EntryV>, n: int) -> int
    decreases s, 0int, n,
{
    if n <= 0 || n > s.len() {
        0
    } else {
        sum_count(s, n - 1) + count_of(s[n - 1].account)
    }
}

/// Height of the tree rooted at `a`: a leaf has height zero, a branch is one
/// more than its tallest child (an empty branch has height one).
pub open spec fn depth_of(a: AccountV) -> int
    decreases a, 1int,
{
    match a.node {
        NodeV::Leaf { .. } => 0,
        NodeV::Branch { children } => 1 + max_depth(children, children.len() as int),
    }
}

/// Greatest height among the first `n` entries of `s`, or zero.
pub open spec fn max_depth(s: Seq<EntryV>, n: int) -> int
    decreases s, 0int, n,
{
    if n <= 0 || n > s.len() {
        0
    } else {
        let rest = max_depth(s, n - 1);
        let d = depth_of(s[n - 1].account);
        if d > rest {
            d
        } else {
            rest
        }
    }
}

/// Largest flex weight a child may carry.
pub open spec fn weight_limit() -> int {
    0x1_0000
}

/// Largest cap, fixed allotment, or single deposit/withdrawal amount.
pub open spec fn unit_limit() -> int {
    0x100_0000_0000
}

/// Largest balance a single leaf may hold when an operation starts.
pub open spec fn balance_limit() -> int {
    0x4_0000_0000_0000
}

/// Largest number of nodes in a tree.
pub open spec fn size_limit() -> int {
    1024
}

/// Structural well-formedness: every weight, fixed allotment, stored
/// maximum and cap override in the tree lies inside the machine-imposed
/// limits, and the tree is not larger than `size_limit()`. Balances are not
/// constrained here; they move with every deposit and withdrawal.
pub open spec fn wf(a: AccountV) -> bool {
    wf_node(a) && count_of(a) <= size_limit()
}

/// The recursive part of `wf`, without the size bound.
pub open spec fn wf_node(a: AccountV) -> bool
    decreases a, 1int,
{
    match a.node {
        NodeV::Leaf { max, .. } => match max {
            Some(m) => 0 <= m <= unit_limit(),
            None => true,
        },
        NodeV::Branch { children } => wf_entries(children, children.len() as int),
    }
}

/// Well-formedness of the first `n` entries of `s`.
pub open spec fn wf_entries(s: Seq<EntryV>, n: int) -> bool
    decreases s, 0int, n,
{
    if n <= 0 || n > s.len() {
        true
    } else {
        wf_entries(s, n - 1) && wf_entry(s[n - 1])
    }
}

/// Well-formedness of one entry: inflow and override inside the limits, and
/// a well-formed child.
pub open spec fn wf_entry(e: EntryV) -> bool
    decreases e, 2int,
{
    &&& match e.inflow {
        InflowV::Fixed(f) => 0 <= f <= unit_limit(),
        InflowV::Flex(w) => 0 <= w <= weight_limit(),
    }
    &&& match e.max_override {
        Some(m) => 0 <= m <= unit_limit(),
        None => true,
    }
    &&& wf_node(e.account)
}

/// Every leaf balance in the tree has magnitude at most `m`.
pub open spec fn bal_bounded(a: AccountV, m: int) -> bool
    decreases a, 1int,
{
    match a.node {
        NodeV::Leaf { balance, .. } => -m <= balance <= m,
        NodeV::Branch { children } => bal_bounded_entries(children, children.len() as int, m),
    }
}

/// `bal_bounded` over the first `n` entries of `s`.
pub open spec fn bal_bounded_entries(s: Seq<EntryV>, n: int, m: int) -> bool
    decreases s, 0int, n,
{
    if n <= 0 || n > s.len() {
        true
    } else {
        bal_bounded_entries(s, n - 1, m) && bal_bounded(s[n - 1].account, m)
    }
}


/// `wf_entries` of a prefix yields well-formedness of each entry in it.
pub proof fn lemma_wf_entries_index(s: Seq<EntryV>, n: int, i: int)
    requires
        wf_entries(s, n),
        0 <= i < n,
        n <= s.len(),
    ensures
        wf_entry(s[i]),
    decreases n,
{
    if i < n - 1 {
        lemma_wf_entries_index(s, n - 1, i);
    }
}

/// `bal_bounded_entries` of a prefix bounds each entry in it.
pub proof fn lemma_bal_bounded_index(s: Seq<EntryV>, n: int, m: int, i: int)
    requires
        bal_bounded_entries(s, n, m),
        0 <= i < n,
        n <= s.len(),
    ensures
        bal_bounded(s[i].account, m),
    decreases n,
{
    if i < n - 1 {
        lemma_bal_bounded_index(s, n - 1, m, i);
    }
}

/// Every tree has at least one node.
pub proof fn lemma_count_pos(a: AccountV)
    ensures
        count_of(a) >= 1,
    decreases a, 1int,
{
    match a.node {
        NodeV::Leaf { .. } => {}
        NodeV::Branch { children } => {
            lemma_sum_count_bounds(children, children.len() as int);
        }
    }
}

/// Node-count sums are non-negative, and each summand is at most the sum.
pub proof fn lemma_sum_count_bounds(s: Seq<EntryV>, n: int)
    ensures
        0 <= sum_count(s, n),
        n <= s.len() ==> n <= sum_count(s, n),
        forall|i: int|
            0 <= i < n <= s.len() ==> count_of(#[trigger] s[i].account) <= sum_count(s, n),
    decreases s, 0int, n,
{
    if 0 < n <= s.len() {
        lemma_sum_count_bounds(s, n - 1);
        lemma_count_pos(s[n - 1].account);
    }
}

/// A tree whose leaf balances are bounded by `m` has every subtree balance
/// bounded by its node count times `m`.
pub proof fn lemma_bal_sum_bound(a: AccountV, m: int)
    requires
        bal_bounded(a, m),
        m >= 0,
    ensures
        -count_of(a) * m <= bal_of(a) <= count_of(a) * m,
    decreases a, 1int,
{
    match a.node {
        NodeV::Leaf { .. } => {
            lemma_count_pos(a);
        }
        NodeV::Branch { children } => {
            lemma_bal_sum_bound_entries(children, children.len() as int, m);
            lemma_sum_count_bounds(children, children.len() as int);
            assert(count_of(a) == 1 + sum_count(children, children.len() as int));
            assert(sum_count(children, children.len() as int) * m <= count_of(a) * m)
                by (nonlinear_arith)
                requires
                    m >= 0,
                    sum_count(children, children.len() as int) <= count_of(a),
            ;
            assert(-count_of(a) * m <= -sum_count(children, children.len() as int) * m)
                by (nonlinear_arith)
                requires
                    m >= 0,
                    sum_count(children, children.len() as int) <= count_of(a),
            ;
        }
    }
}

/// Prefix-sum form of `lemma_bal_sum_bound`.
pub proof fn lemma_bal_sum_bound_entries(s: Seq<EntryV>, n: int, m: int)
    requires
        bal_bounded_entries(s, n, m),
        m >= 0,
    ensures
        -sum_count(s, n) * m <= sum_bal(s, n) <= sum_count(s, n) * m,
    decreases s, 0int, n,
{
    if 0 < n <= s.len() {
        lemma_bal_sum_bound_entries(s, n - 1, m);
        lemma_bal_sum_bound(s[n - 1].account, m);
        assert((sum_count(s, n - 1) + count_of(s[n - 1].account)) * m
            == sum_count(s, n - 1) * m + count_of(s[n - 1].account) * m) by (nonlinear_arith);
        assert(-(sum_count(s, n - 1) + count_of(s[n - 1].account)) * m
            == -(sum_count(s, n - 1)) * m + -(count_of(s[n - 1].account)) * m) by (nonlinear_arith);
        assert(-(sum_count(s, n - 1)) * m == -(sum_count(s, n - 1) * m)) by (nonlinear_arith);
        assert(-(count_of(s[n - 1].account)) * m == -(count_of(s[n - 1].account) * m))
            by (nonlinear_arith);
        assert(-(sum_count(s, n)) * m == -(sum_count(s, n) * m)) by (nonlinear_arith);
    }
}

/// A well-formed tree's cap, when bounded, lies between zero and its node
/// count times `unit_limit()`.
pub proof fn lemma_cap_bound(a: AccountV)
    requires
        wf_node(a),
    ensures
        cap_of(a) matches Some(c) ==> 0 <= c <= count_of(a) * unit_limit(),
    decreases a, 1int,
{
    lemma_count_pos(a);
    match a.node {
        NodeV::Leaf { .. } => {}
        NodeV::Branch { children } => {
            lemma_cap_bound_entries(children, children.len() as int);
            lemma_sum_count_bounds(children, children.len() as int);
            if sum_caps(children, children.len() as int) matches Some(c) {
                assert(sum_count(children, children.len() as int) * unit_limit()
                    <= count_of(a) * unit_limit())
                    by (nonlinear_arith)
                    requires
                        sum_count(children, children.len() as int) <= count_of(a),
                ;
            }
        }
    }
}

/// Prefix-sum form of `lemma_cap_bound`.
pub proof fn lemma_cap_bound_entries(s: Seq<EntryV>, n: int)
    requires
        wf_entries(s, n),
    ensures
        sum_caps(s, n) matches Some(c) ==> 0 <= c <= sum_count(s, n) * unit_limit(),
    decreases s, 0int, n,
{
    if 0 < n <= s.len() {
        lemma_cap_bound_entries(s, n - 1);
        lemma_entry_cap_bound(s[n - 1]);
        lemma_sum_count_bounds(s, n);
        lemma_count_pos(s[n - 1].account);
        if sum_caps(s, n) matches Some(c) {
            assert((sum_count(s, n - 1) + count_of(s[n - 1].account)) * unit_limit()
                == sum_count(s, n - 1) * unit_limit() + count_of(s[n - 1].account) * unit_limit())
                by (nonlinear_arith);
        }
    } else {
        if n <= 0 {
        } else {
            lemma_sum_count_bounds(s, n);
        }
    }
}

/// A well-formed entry's effective cap, when bounded, lies between zero and
/// the child's node count times `unit_limit()`.
pub proof fn lemma_entry_cap_bound(e: EntryV)
    requires
        wf_entry(e),
    ensures
        entry_cap(e) matches Some(c) ==> 0 <= c <= count_of(e.account) * unit_limit(),
    decreases e, 2int,
{
    lemma_count_pos(e.account);
    match e.max_override {
        Some(m) => {
            assert(count_of(e.account) * unit_limit() >= 1 * unit_limit()) by (nonlinear_arith)
                requires
                    count_of(e.account) >= 1,
            ;
        }
        None => {
            lemma_cap_bound(e.account);
        }
    }
}

/// Flex-weight sums of well-formed entries are non-negative and bounded by
/// the number of entries times `weight_limit()`.
pub proof fn lemma_sum_flex_bounds(s: Seq<EntryV>, n: int)
    requires
        wf_entries(s, n),
        0 <= n <= s.len(),
    ensures
        0 <= sum_flex(s, n) <= n * weight_limit(),
    decreases n,
{
    if n > 0 {
        lemma_sum_flex_bounds(s, n - 1);
        lemma_wf_entries_index(s, n, n - 1);
        assert((n - 1) * weight_limit() + weight_limit() == n * weight_limit()) by (nonlinear_arith);
    }
}


/// Node-count prefix sums are monotone in the prefix length.
pub proof fn lemma_sum_count_mono(s: Seq<EntryV>, n1: int, n2: int)
    requires
        n1 <= n2 <= s.len(),
    ensures
        sum_count(s, n1) <= sum_count(s, n2),
    decreases n2 - n1,
{
    if n1 < n2 {
        lemma_sum_count_mono(s, n1, n2 - 1);
        if 0 < n2 {
            lemma_count_pos(s[n2 - 1].account);
        }
    }
}


/// Depth-first lookup: the path (sequence of child indices) to the first
/// node named `name`, searching the node itself first, then each child's
/// subtree in order.
pub open spec fn find_in(a: AccountV, name: Seq<u8>) -> Option<Seq<usize>>
    decreases a, 1int,
{
    if a.name == name {
        Some(Seq::empty())
    } else {
        match a.node {
            NodeV::Leaf { .. } => None,
            NodeV::Branch { children } => find_in_entries(children, name, 0),
        }
    }
}

/// Lookup over the entries of `s` from index `i` on.
pub open spec fn find_in_entries(s: Seq<EntryV>, name: Seq<u8>, i: int) -> Option<Seq<usize>>
    decreases s, 0int, s.len() - i,
{
    if i < 0 || i >= s.len() {
        None
    } else {
        match find_in(s[i].account, name) {
            Some(p) => Some(seq![i as usize] + p),
            None => find_in_entries(s, name, i + 1),
        }
    }
}

/// Whether any of the first `n` entries of `s` is named `name`.
pub open spec fn any_named(s: Seq<EntryV>, name: Seq<u8>, n: int) -> bool {
    exists|i: int| 0 <= i < n && i < s.len() && #[trigger] s[i].account.name == name
}

/// The first `n` entries of `s` with every entry named `name` dropped,
/// order preserved.
pub open spec fn keep_unnamed(s: Seq<EntryV>, name: Seq<u8>, n: int) -> Seq<EntryV>
    decreases n,
{
    if n <= 0 || n > s.len() {
        Seq::empty()
    } else {
        let rest = keep_unnamed(s, name, n - 1);
        if s[n - 1].account.name == name {
            rest
        } else {
            rest.push(s[n - 1])
        }
    }
}

/// If none of the first `n` entries is named `name`, dropping them keeps
/// the prefix unchanged.
pub proof fn lemma_keep_unnamed_all(s: Seq<EntryV>, name: Seq<u8>, n: int)
    requires
        !any_named(s, name, n),
        0 <= n <= s.len(),
    ensures
        keep_unnamed(s, name, n) == s.subrange(0, n),
    decreases n,
{
    if n > 0 {
        lemma_keep_unnamed_all(s, name, n - 1);
        assert(keep_unnamed(s, name, n) =~= s.subrange(0, n));
    } else {
        assert(keep_unnamed(s, name, n) =~= s.subrange(0, n));
    }
}

/// Removal: detach every child named `name` of the shallowest, left-most
/// branch that has one, and yield the new tree together with the name of
/// the branch the subtree was removed from. `None` when `name` occurs
/// nowhere below `a` (the root's own name is never matched).
pub open spec fn remove_in(a: AccountV, name: Seq<u8>) -> Option<(AccountV, Seq<u8>)>
    decreases a, 2int,
{
    match a.node {
        NodeV::Leaf { .. } => None,
        NodeV::Branch { children } => {
            if any_named(children, name, children.len() as int) {
                Some(
                    (
                        AccountV {
                            name: a.name,
                            node: NodeV::Branch {
                                children: keep_unnamed(children, name, children.len() as int),
                            },
                        },
                        a.name,
                    ),
                )
            } else {
                match remove_in_entries(children, name, 0) {
                    Some((cs, parent)) => Some(
                        (AccountV { name: a.name, node: NodeV::Branch { children: cs } }, parent),
                    ),
                    None => None,
                }
            }
        }
    }
}

/// Removal over the entries of `s` from index `i` on: the first child
/// subtree in which removal succeeds is replaced, the rest stay untouched.
pub open spec fn remove_in_entries(s: Seq<EntryV>, name: Seq<u8>, i: int) -> Option<
    (Seq<EntryV>, Seq<u8>),
>
    decreases s, 0int, s.len() - i,
{
    if i < 0 || i >= s.len() {
        None
    } else {
        match remove_in(s[i].account, name) {
            Some((a2, parent)) => Some(
                (
                    s.update(
                        i,
                        EntryV {
                            account: a2,
                            inflow: s[i].inflow,
                            max_override: s[i].max_override,
                        },
                    ),
                    parent,
                ),
            ),
            None => remove_in_entries(s, name, i + 1),
        }
    }
}

/// A branch with one more child entry appended; a leaf is unchanged.
pub open spec fn append_entry(a: AccountV, e: EntryV) -> AccountV {
    match a.node {
        NodeV::Branch { children } => AccountV {
            name: a.name,
            node: NodeV::Branch { children: children.push(e) },
        },
        NodeV::Leaf { .. } => a,
    }
}


/// Every working balance bound the executable code needs: the balances
/// an operation starts from, plus everything one deposit can add along
/// the way.
pub open spec fn working_limit() -> int {
    0x10_0000_0000_0000
}

/// A tree is never taller than it has nodes.
pub proof fn lemma_depth_le_count(a: AccountV)
    ensures
        depth_of(a) <= count_of(a),
        0 <= depth_of(a),
    decreases a, 1int,
{
    lemma_count_pos(a);
    match a.node {
        NodeV::Leaf { .. } => {}
        NodeV::Branch { children } => {
            lemma_max_depth_le_sum_count(children, children.len() as int);
        }
    }
}

/// Prefix form of `lemma_depth_le_count`.
pub proof fn lemma_max_depth_le_sum_count(s: Seq<EntryV>, n: int)
    ensures
        max_depth(s, n) <= sum_count(s, n),
        0 <= max_depth(s, n),
    decreases s, 0int, n,
{
    if 0 < n <= s.len() {
        lemma_max_depth_le_sum_count(s, n - 1);
        lemma_depth_le_count(s[n - 1].account);
        lemma_sum_count_bounds(s, n - 1);
        lemma_count_pos(s[n - 1].account);
    }
}


/// One unbounded entry makes every cap sum covering it unbounded.
pub proof fn lemma_sum_caps_none(s: Seq<EntryV>, i: int, n: int)
    requires
        0 <= i < n <= s.len(),
        entry_cap(s[i]) is None,
    ensures
        sum_caps(s, n) is None,
    decreases n,
{
    if i < n - 1 {
        lemma_sum_caps_none(s, i, n - 1);
    }
}


/// Well-formedness of a prefix follows from that of a longer one.
pub proof fn lemma_wf_entries_prefix(s: Seq<EntryV>, n1: int, n2: int)
    requires
        wf_entries(s, n2),
        n1 <= n2 <= s.len(),
    ensures
        wf_entries(s, n1),
    decreases n2 - n1,
{
    if n1 < n2 {
        lemma_wf_entries_prefix(s, n1, n2 - 1);
    }
}


/// Each child is no taller than the tallest of the prefix covering it.
pub proof fn lemma_max_depth_index(s: Seq<EntryV>, n: int, i: int)
    requires
        0 <= i < n <= s.len(),
    ensures
        depth_of(s[i].account) <= max_depth(s, n),
    decreases n,
{
    if i < n - 1 {
        lemma_max_depth_index(s, n - 1, i);
    }
}


/// Whether `p` is a valid chain of child indices starting at `a`.
pub open spec fn valid_path(a: AccountV, p: Seq<usize>) -> bool
    decreases p.len(),
{
    if p.len() == 0 {
        true
    } else {
        match a.node {
            NodeV::Branch { children } => p[0] < children.len() && valid_path(
                children[p[0] as int].account,
                p.skip(1),
            ),
            NodeV::Leaf { .. } => false,
        }
    }
}

/// The account reached from `a` along `p` (meaningful on valid paths).
pub open spec fn get_at(a: AccountV, p: Seq<usize>) -> AccountV
    decreases p.len(),
{
    if p.len() == 0 {
        a
    } else {
        match a.node {
            NodeV::Branch { children } => if p[0] < children.len() {
                get_at(children[p[0] as int].account, p.skip(1))
            } else {
                a
            },
            NodeV::Leaf { .. } => a,
        }
    }
}

/// `a` with the account at `p` replaced by `b`; everything else, the
/// entries' rules and caps included, stays as it was.
pub open spec fn replace_at(a: AccountV, p: Seq<usize>, b: AccountV) -> AccountV
    decreases p.len(),
{
    if p.len() == 0 {
        b
    } else {
        match a.node {
            NodeV::Branch { children } => if p[0] < children.len() {
                let i = p[0] as int;
                AccountV {
                    name: a.name,
                    node: NodeV::Branch {
                        children: children.update(
                            i,
                            EntryV {
                                account: replace_at(children[i].account, p.skip(1), b),
                                inflow: children[i].inflow,
                                max_override: children[i].max_override,
                            },
                        ),
                    },
                }
            } else {
                a
            },
            NodeV::Leaf { .. } => a,
        }
    }
}

/// A found path is valid and leads to a node with the sought name.
pub proof fn lemma_find_valid(a: AccountV, name: Seq<u8>)
    requires
        find_in(a, name) is Some,
        count_of(a) <= size_limit(),
    ensures
        valid_path(a, find_in(a, name)->0),
        get_at(a, find_in(a, name)->0).name == name,
    decreases a, 2int,
{
    if a.name == name {
    } else {
        match a.node {
            NodeV::Leaf { .. } => {}
            NodeV::Branch { children } => {
                lemma_find_valid_entries(a, children, name, 0);
            }
        }
    }
}

/// Prefix form of `lemma_find_valid`.
pub proof fn lemma_find_valid_entries(a: AccountV, children: Seq<EntryV>, name: Seq<u8>, i: int)
    requires
        a.node == (NodeV::Branch { children }),
        find_in_entries(children, name, i) is Some,
        0 <= i,
        count_of(a) <= size_limit(),
    ensures
        valid_path(a, find_in_entries(children, name, i)->0),
        get_at(a, find_in_entries(children, name, i)->0).name == name,
    decreases children, 1int, children.len() - i,
{
    if i < children.len() {
        lemma_sum_count_bounds(children, children.len() as int);
        lemma_count_pos(children[i].account);
        match find_in(children[i].account, name) {
            Some(p) => {
                lemma_find_valid(children[i].account, name);
                assert(children.len() <= sum_count(children, children.len() as int));
                let full = seq![i as usize] + p;
                assert(full.len() == p.len() + 1);
                assert(full[0] == i as usize);
                assert(full.skip(1) =~= p);
                assert(find_in_entries(children, name, i) == Some(full));
                assert(valid_path(a, full));
                assert(get_at(a, full) == get_at(children[i].account, p));
            }
            None => {
                lemma_find_valid_entries(a, children, name, i + 1);
            }
        }
    }
}

/// Along a valid path of a well-formed, bounded tree, every node is
/// well-formed, no larger, and no less bounded.
pub proof fn lemma_path_props(a: AccountV, p: Seq<usize>, m: int)
    requires
        valid_path(a, p),
        wf_node(a),
        bal_bounded(a, m),
    ensures
        wf_node(get_at(a, p)),
        count_of(get_at(a, p)) <= count_of(a),
        bal_bounded(get_at(a, p), m),
    decreases p.len(),
{
    lemma_count_pos(a);
    if p.len() > 0 {
        match a.node {
            NodeV::Branch { children } => {
                let i = p[0] as int;
                lemma_wf_entries_index(children, children.len() as int, i);
                lemma_bal_bounded_index(children, children.len() as int, m, i);
                lemma_sum_count_bounds(children, children.len() as int);
                lemma_path_props(children[i].account, p.skip(1), m);
            }
            NodeV::Leaf { .. } => {}
        }
    }
}

/// Replacing the node at the end of a valid path changes the tree's
/// balance by the replacement's difference, and keeps the tree
/// well-formed and bounded as far as the replacement is.
pub proof fn lemma_replace_props(a: AccountV, p: Seq<usize>, b: AccountV, m: int)
    requires
        valid_path(a, p),
        wf_node(a),
        wf_node(b),
        bal_bounded(a, m),
        bal_bounded(b, m),
        b.name == get_at(a, p).name,
    ensures
        wf_node(replace_at(a, p, b)),
        bal_bounded(replace_at(a, p, b), m),
        count_of(replace_at(a, p, b)) == count_of(a) - count_of(get_at(a, p)) + count_of(b),
        bal_of(replace_at(a, p, b)) == bal_of(a) - bal_of(get_at(a, p)) + bal_of(b),
        replace_at(a, p, b).name == a.name,
    decreases p.len(),
{
    if p.len() == 0 {
    } else {
        match a.node {
            NodeV::Branch { children } => {
                let i = p[0] as int;
                lemma_wf_entries_index(children, children.len() as int, i);
                lemma_bal_bounded_index(children, children.len() as int, m, i);
                lemma_replace_props(children[i].account, p.skip(1), b, m);
                let c2 = replace_at(children[i].account, p.skip(1), b);
                let e2 = EntryV {
                    account: c2,
                    inflow: children[i].inflow,
                    max_override: children[i].max_override,
                };
                let cs2 = children.update(i, e2);
                lemma_replace_update_sums(children, i, e2);
                lemma_bal_bounded_update(children, i, e2, m);
            }
            NodeV::Leaf { .. } => {}
        }
    }
}

/// Sums over an updated entry sequence, in the form `lemma_replace_props`
/// needs: balance shifts by the difference; counts shift likewise; caps
/// are untouched when the new entry's cap matches; well-formedness is
/// kept.
pub proof fn lemma_replace_update_sums(s: Seq<EntryV>, i: int, e: EntryV)
    requires
        0 <= i < s.len(),
    ensures
        ({
            let s2 = s.update(i, e);
            &&& sum_bal(s2, s.len() as int) == sum_bal(s, s.len() as int) - bal_of(s[i].account)
                + bal_of(e.account)
            &&& sum_count(s2, s.len() as int) == sum_count(s, s.len() as int) - count_of(
                s[i].account,
            ) + count_of(e.account)
            &&& (wf_entries(s, s.len() as int) && wf_entry(e)) ==> wf_entries(
                s.update(i, e),
                s.len() as int,
            )
        }),
{
    lemma_replace_update_sums_n(s, i, e, s.len() as int);
}

/// Prefix form of `lemma_replace_update_sums`.
pub proof fn lemma_replace_update_sums_n(s: Seq<EntryV>, i: int, e: EntryV, n: int)
    requires
        0 <= i < s.len(),
        n <= s.len(),
    ensures
        ({
            let s2 = s.update(i, e);
            &&& sum_bal(s2, n) == sum_bal(s, n) + if i < n {
                bal_of(e.account) - bal_of(s[i].account)
            } else {
                0
            }
            &&& sum_count(s2, n) == sum_count(s, n) + if i < n {
                count_of(e.account) - count_of(s[i].account)
            } else {
                0
            }
            &&& (wf_entries(s, s.len() as int) && wf_entry(e)) ==> wf_entries(s.update(i, e), n)
        }),
    decreases n,
{
    if n > 0 {
        lemma_replace_update_sums_n(s, i, e, n - 1);
        if n - 1 != i {
            lemma_wf_entries_index_weak(s, n - 1);
        }
    }
}

/// `wf_entry` of one element, from whole-sequence well-formedness, with
/// no other hypotheses.
pub proof fn lemma_wf_entries_index_weak(s: Seq<EntryV>, i: int)
    requires
        0 <= i < s.len(),
    ensures
        wf_entries(s, s.len() as int) ==> wf_entry(s[i]),
{
    if wf_entries(s, s.len() as int) {
        lemma_wf_entries_index(s, s.len() as int, i);
    }
}


/// Updating one entry with an equally bounded one keeps the bound.
pub proof fn lemma_bal_bounded_update(s: Seq<EntryV>, i: int, e: EntryV, m: int)
    requires
        0 <= i < s.len(),
        bal_bounded_entries(s, s.len() as int, m),
        bal_bounded(e.account, m),
    ensures
        bal_bounded_entries(s.update(i, e), s.len() as int, m),
{
    lemma_bal_bounded_update_n(s, i, e, m, s.len() as int);
}

/// Prefix form of `lemma_bal_bounded_update`.
pub proof fn lemma_bal_bounded_update_n(s: Seq<EntryV>, i: int, e: EntryV, m: int, n: int)
    requires
        0 <= i < s.len(),
        bal_bounded_entries(s, s.len() as int, m),
        bal_bounded(e.account, m),
        n <= s.len(),
    ensures
        bal_bounded_entries(s.update(i, e), n, m),
    decreases n,
{
    if n > 0 {
        lemma_bal_bounded_update_n(s, i, e, m, n - 1);
        if n - 1 != i {
            lemma_bal_bounded_index(s, s.len() as int, m, n - 1);
        }
    }
}


/// Appending an entry extends the sums by that entry's contribution and
/// keeps well-formedness and bounds.
pub proof fn lemma_entries_push(s: Seq<EntryV>, e: EntryV, m: int)
    ensures
        sum_bal(s.push(e), s.len() as int + 1) == sum_bal(s, s.len() as int) + bal_of(e.account),
        sum_count(s.push(e), s.len() as int + 1) == sum_count(s, s.len() as int) + count_of(
            e.account,
        ),
        (wf_entries(s, s.len() as int) && wf_entry(e)) ==> wf_entries(
            s.push(e),
            s.len() as int + 1,
        ),
        (bal_bounded_entries(s, s.len() as int, m) && bal_bounded(e.account, m))
            ==> bal_bounded_entries(s.push(e), s.len() as int + 1, m),
{
    lemma_entries_push_n(s, e, m, s.len() as int);
}

/// Prefix form of `lemma_entries_push`.
pub proof fn lemma_entries_push_n(s: Seq<EntryV>, e: EntryV, m: int, n: int)
    requires
        0 <= n <= s.len(),
    ensures
        sum_bal(s.push(e), n) == sum_bal(s, n),
        sum_count(s.push(e), n) == sum_count(s, n),
        wf_entries(s, n) ==> wf_entries(s.push(e), n),
        bal_bounded_entries(s, n, m) ==> bal_bounded_entries(s.push(e), n, m),
    decreases n,
{
    if n > 0 {
        lemma_entries_push_n(s, e, m, n - 1);
    }
}

/// Removal moves no money into the tree and adds nothing to it: the
/// result is still well-formed, no larger, and no less bounded.
pub proof fn lemma_remove_props(a: AccountV, name: Seq<u8>, m: int)
    requires
        wf_node(a),
        bal_bounded(a, m),
        remove_in(a, name) is Some,
    ensures
        ({
            let res = remove_in(a, name)->0;
            &&& wf_node(res.0)
            &&& bal_bounded(res.0, m)
            &&& count_of(res.0) <= count_of(a)
            &&& res.0.name == a.name
            &&& res.0.node is Branch
        }),
    decreases a, 2int,
{
    lemma_count_pos(a);
    match a.node {
        NodeV::Leaf { .. } => {}
        NodeV::Branch { children } => {
            let len = children.len() as int;
            if any_named(children, name, len) {
                lemma_keep_props(children, name, len, m);
            } else {
                lemma_remove_entries_props(children, name, 0, m);
            }
        }
    }
}

/// `lemma_remove_props` for the dropped-children sequence.
pub proof fn lemma_keep_props(s: Seq<EntryV>, name: Seq<u8>, n: int, m: int)
    requires
        wf_entries(s, s.len() as int),
        bal_bounded_entries(s, s.len() as int, m),
        0 <= n <= s.len(),
    ensures
        ({
            let k = keep_unnamed(s, name, n);
            &&& wf_entries(k, k.len() as int)
            &&& bal_bounded_entries(k, k.len() as int, m)
            &&& sum_count(k, k.len() as int) <= sum_count(s, n)
            &&& k.len() <= n
        }),
    decreases n,
{
    if n > 0 {
        lemma_keep_props(s, name, n - 1, m);
        lemma_wf_entries_index(s, s.len() as int, n - 1);
        lemma_bal_bounded_index(s, s.len() as int, m, n - 1);
        lemma_count_pos(s[n - 1].account);
        let k0 = keep_unnamed(s, name, n - 1);
        if s[n - 1].account.name != name {
            lemma_entries_push(k0, s[n - 1], m);
        }
    }
}

/// `lemma_remove_props` for the recursive descent over the entries.
pub proof fn lemma_remove_entries_props(s: Seq<EntryV>, name: Seq<u8>, i: int, m: int)
    requires
        wf_entries(s, s.len() as int),
        bal_bounded_entries(s, s.len() as int, m),
        remove_in_entries(s, name, i) is Some,
        0 <= i,
    ensures
        ({
            let res = remove_in_entries(s, name, i)->0;
            &&& wf_entries(res.0, res.0.len() as int)
            &&& bal_bounded_entries(res.0, res.0.len() as int, m)
            &&& sum_count(res.0, res.0.len() as int) <= sum_count(s, s.len() as int)
            &&& res.0.len() == s.len()
        }),
    decreases s, 3int, s.len() - i,
{
    if i < s.len() {
        lemma_wf_entries_index(s, s.len() as int, i);
        lemma_bal_bounded_index(s, s.len() as int, m, i);
        match remove_in(s[i].account, name) {
            Some(sub) => {
                lemma_remove_props(s[i].account, name, m);
                let e2 = EntryV {
                    account: sub.0,
                    inflow: s[i].inflow,
                    max_override: s[i].max_override,
                };
                lemma_replace_update_sums(s, i, e2);
                lemma_bal_bounded_update(s, i, e2, m);
            }
            None => {
                lemma_remove_entries_props(s, name, i + 1, m);
            }
        }
    }
}

} // verus!
