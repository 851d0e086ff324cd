//! Scenario tests for the budget engine: allocation, mutation, diffing,
//! and the parser, exercised on concrete trees.

use budget::account::{Account, AccountType, Inflow};
use budget::actions::{Action, Date};
use budget::errors::AcctError;
use budget::parser;

fn leaf(name: &[u8], balance: i64, max: Option<i64>) -> Account {
    Account {
        name: name.to_vec(),
        data: AccountType::Leaf { balance, max },
    }
}

fn date(month: u32, day: u32, year: u32) -> Date {
    Date { year, month, day }
}

fn child_balance(root: &Account, name: &[u8]) -> i64 {
    match &root.data {
        AccountType::Branch { children } => {
            for c in children {
                if c.account.name == name {
                    return c.account.balance();
                }
            }
            panic!("no child with that name");
        }
        _ => panic!("not a branch"),
    }
}

#[test]
fn fixed_then_flex_split() {
    // root has A (Fixed(10), no cap) and B (Flex(1), no cap); depositing 30
    // gives A its flat 10 and B the remaining 20.
    let mut root = Account::new_root();
    root.add_child(leaf(b"A", 0, None), Inflow::Fixed(10), None)
        .unwrap();
    root.add_child(leaf(b"B", 0, None), Inflow::Flex(1), None)
        .unwrap();
    root.deposit(30);
    assert_eq!(child_balance(&root, b"A"), 10);
    assert_eq!(child_balance(&root, b"B"), 20);
    assert_eq!(root.balance(), 30);
}

#[test]
fn flex_saturation_reflows() {
    // A (Flex(1), cap 5) saturates and the remainder reflows to B (Flex(1)).
    let mut root = Account::new_root();
    root.add_child(leaf(b"A", 0, Some(5)), Inflow::Flex(1), None)
        .unwrap();
    root.add_child(leaf(b"B", 0, None), Inflow::Flex(1), None)
        .unwrap();
    root.deposit(20);
    assert_eq!(child_balance(&root, b"A"), 5);
    assert_eq!(child_balance(&root, b"B"), 15);
}

#[test]
fn remove_missing_account() {
    // removing a name that exists nowhere yields AccountNotFound and the
    // tree is unchanged.
    let mut root = Account::new_root();
    root.add_child(leaf(b"B", 7, None), Inflow::Flex(1), None)
        .unwrap();
    let r = root.apply(Action::Remove { name: b"A".to_vec() });
    match r {
        Err(AcctError::AccountNotFound(n)) => assert_eq!(n, b"A".to_vec()),
        _ => panic!("expected AccountNotFound"),
    }
    assert_eq!(root.balance(), 7);
    assert_eq!(child_balance(&root, b"B"), 7);
}

#[test]
fn withdraw_branch_fails() {
    // withdrawals are only valid against leaves; the branch is untouched.
    let mut sub = Account {
        name: b"sub".to_vec(),
        data: AccountType::Branch { children: Vec::new() },
    };
    sub.add_child(leaf(b"L", 3, None), Inflow::Flex(1), None)
        .unwrap();
    let mut root = Account::new_root();
    root.add_child(sub, Inflow::Flex(1), None).unwrap();
    let r = root.apply(Action::Withdraw {
        account: b"sub".to_vec(),
        amount: 2,
        date: date(1, 2, 2020),
    });
    match r {
        Err(AcctError::InvalidWithdrawTarget) => {}
        _ => panic!("expected InvalidWithdrawTarget"),
    }
    assert_eq!(root.balance(), 3);
}

#[test]
fn withdraw_leaf_can_go_negative() {
    let mut root = Account::new_root();
    root.add_child(leaf(b"A", 5, None), Inflow::Flex(1), None)
        .unwrap();
    root.apply(Action::Withdraw {
        account: b"A".to_vec(),
        amount: 8,
        date: date(1, 2, 2020),
    })
    .unwrap();
    assert_eq!(child_balance(&root, b"A"), -3);
}

#[test]
fn residual_overflows_saturated_children() {
    // with every child at cap the remainder is split evenly, cap or not:
    // the documented escape valve so that money is never silently dropped.
    let mut root = Account::new_root();
    root.add_child(leaf(b"A", 0, Some(4)), Inflow::Flex(1), None)
        .unwrap();
    root.deposit(10);
    assert_eq!(child_balance(&root, b"A"), 10);
}

#[test]
fn deposit_into_named_subtree() {
    let mut root = Account::new_root();
    root.add_child(leaf(b"A", 0, None), Inflow::Fixed(1), None)
        .unwrap();
    root.add_child(leaf(b"B", 0, None), Inflow::Flex(1), None)
        .unwrap();
    root.apply(Action::Deposit {
        account: Some(b"B".to_vec()),
        amount: 50,
        date: date(1, 2, 2020),
    })
    .unwrap();
    // a deposit aimed at B bypasses the root's split entirely
    assert_eq!(child_balance(&root, b"A"), 0);
    assert_eq!(child_balance(&root, b"B"), 50);
}

#[test]
fn transfer_nets_to_zero() {
    let mut root = Account::new_root();
    root.add_child(leaf(b"A", 40, None), Inflow::Flex(1), None)
        .unwrap();
    root.add_child(leaf(b"B", 0, None), Inflow::Flex(1), None)
        .unwrap();
    root.apply(Action::Transfer {
        from: b"A".to_vec(),
        to: Some(b"B".to_vec()),
        amount: 15,
        date: date(1, 2, 2020),
    })
    .unwrap();
    assert_eq!(child_balance(&root, b"A"), 25);
    assert_eq!(child_balance(&root, b"B"), 15);
    assert_eq!(root.balance(), 40);
}

#[test]
fn edit_replaces_rule_and_keeps_balance() {
    let mut root = Account::new_root();
    root.add_child(leaf(b"A", 12, None), Inflow::Fixed(10), None)
        .unwrap();
    root.apply(Action::Edit {
        name: b"A".to_vec(),
        inflow: Inflow::Flex(1),
        max: Some(99),
    })
    .unwrap();
    assert_eq!(child_balance(&root, b"A"), 12);
    // the new rule takes the whole flex share, bounded by the new cap
    root.deposit(50);
    assert_eq!(child_balance(&root, b"A"), 62);
}

#[test]
fn new_under_leaf_fails() {
    let mut root = Account::new_root();
    root.add_child(leaf(b"A", 0, None), Inflow::Flex(1), None)
        .unwrap();
    let r = root.apply(Action::New {
        name: b"C".to_vec(),
        inflow: Inflow::Flex(1),
        max_override: None,
        parent: b"A".to_vec(),
        data: AccountType::Branch { children: Vec::new() },
    });
    match r {
        Err(AcctError::NotABranch) => {}
        _ => panic!("expected NotABranch"),
    }
}

#[test]
fn new_under_missing_parent_fails() {
    let mut root = Account::new_root();
    let r = root.apply(Action::New {
        name: b"C".to_vec(),
        inflow: Inflow::Flex(1),
        max_override: None,
        parent: b"nope".to_vec(),
        data: AccountType::Branch { children: Vec::new() },
    });
    match r {
        Err(AcctError::ParentNotFound(n)) => assert_eq!(n, b"nope".to_vec()),
        _ => panic!("expected ParentNotFound"),
    }
}

#[test]
fn diff_of_identical_trees_is_zero() {
    let mut root = Account::new_root();
    root.add_child(leaf(b"A", 10, Some(50)), Inflow::Flex(1), None)
        .unwrap();
    root.add_child(leaf(b"B", 3, None), Inflow::Fixed(2), None)
        .unwrap();
    let copy = root.clone_subtree();
    let d = root.diff(&copy).unwrap();
    assert_eq!(d.balance(), 0);
    assert_eq!(child_balance(&d, b"A"), 0);
    assert_eq!(child_balance(&d, b"B"), 0);
}

#[test]
fn diff_reports_net_change_and_new_children() {
    let mut before = Account::new_root();
    before
        .add_child(leaf(b"A", 10, None), Inflow::Flex(1), None)
        .unwrap();
    let mut after = Account::new_root();
    after
        .add_child(leaf(b"A", 25, None), Inflow::Flex(1), None)
        .unwrap();
    after
        .add_child(leaf(b"C", 7, None), Inflow::Flex(1), None)
        .unwrap();
    let d = after.diff(&before).unwrap();
    assert_eq!(child_balance(&d, b"A"), 15);
    // a child only in the newer tree is included with its full balance
    assert_eq!(child_balance(&d, b"C"), 7);
}

#[test]
fn diff_mismatched_kinds_fails() {
    let mut a = Account::new_root();
    a.add_child(leaf(b"A", 1, None), Inflow::Flex(1), None)
        .unwrap();
    let mut b = Account::new_root();
    let mut sub = Account {
        name: b"A".to_vec(),
        data: AccountType::Branch { children: Vec::new() },
    };
    sub.add_child(leaf(b"L", 1, None), Inflow::Flex(1), None)
        .unwrap();
    b.add_child(sub, Inflow::Flex(1), None).unwrap();
    match a.diff(&b) {
        Err(AcctError::TypeMismatch) => {}
        _ => panic!("expected TypeMismatch"),
    }
}

#[test]
fn find_child_first_match_wins() {
    // duplicate names resolve to the first match in depth-first,
    // sibling-order traversal; the deeper duplicate is unreachable.
    let mut inner = Account {
        name: b"sub".to_vec(),
        data: AccountType::Branch { children: Vec::new() },
    };
    inner
        .add_child(leaf(b"dup", 1, None), Inflow::Flex(1), None)
        .unwrap();
    let mut root = Account::new_root();
    root.add_child(inner, Inflow::Flex(1), None).unwrap();
    root.add_child(leaf(b"dup", 2, None), Inflow::Flex(1), None)
        .unwrap();
    // pre-order: root, sub, sub's dup, top-level dup — the nested one wins
    let path = root.find_child(&b"dup".to_vec()).unwrap();
    assert_eq!(path, vec![0usize, 0usize]);
}

#[test]
fn calculate_replays_between_dates() {
    let actions = vec![
        Action::New {
            name: b"A".to_vec(),
            inflow: Inflow::Flex(1),
            max_override: None,
            parent: b"root".to_vec(),
            data: AccountType::Leaf { balance: 0, max: None },
        },
        Action::Deposit {
            account: None,
            amount: 10,
            date: date(1, 1, 2020),
        },
        Action::Deposit {
            account: None,
            amount: 100,
            date: date(6, 1, 2020),
        },
    ];
    let until = Some(date(3, 1, 2020));
    let t = budget::actions::calculate(&actions, None, until).unwrap();
    // the later deposit falls outside the window
    assert_eq!(t.balance(), 10);
}

#[test]
fn parse_simple_file() {
    let text = b"# a small budget\nadd root > A 1 flex with 0\n+ 30 on 1/2/2020\n".to_vec();
    let actions = parser::parse(&text).unwrap();
    assert_eq!(actions.len(), 2);
    match &actions[0] {
        Action::New { name, parent, .. } => {
            assert_eq!(name, &b"A".to_vec());
            assert_eq!(parent, &b"root".to_vec());
        }
        _ => panic!("expected a new-account action"),
    }
    match &actions[1] {
        Action::Deposit { account, amount, date } => {
            assert_eq!(*account, None);
            // amounts are whole currency units, held as minor units
            assert_eq!(*amount, 3000);
            assert_eq!(*date, Date { year: 2020, month: 1, day: 2 });
        }
        _ => panic!("expected a deposit"),
    }
}

#[test]
fn parse_amounts_with_decimals() {
    let text = b"+ 10.50 on 1/2/2020\n- 0.5 from A on 1/2/2020\n".to_vec();
    let actions = parser::parse(&text).unwrap();
    match &actions[0] {
        Action::Deposit { amount, .. } => assert_eq!(*amount, 1050),
        _ => panic!("expected a deposit"),
    }
    match &actions[1] {
        Action::Withdraw { amount, .. } => assert_eq!(*amount, 50),
        _ => panic!("expected a withdrawal"),
    }
}

#[test]
fn parse_rejects_bad_lines() {
    let text = b"explode everything\n+ 5 on 2/30/2020\n".to_vec();
    let errs = parser::parse(&text).unwrap_err();
    assert_eq!(errs.len(), 2);
    assert_eq!(errs[0].line, 1);
    assert_eq!(errs[0].kind, parser::ParseKind::UnknownCommand);
    // February 30th is not a real calendar date
    assert_eq!(errs[1].line, 2);
    assert_eq!(errs[1].kind, parser::ParseKind::BadDate);
}

#[test]
fn parse_transfer_line() {
    let text = b"transfer 5 from A to B on 12/31/2021\n".to_vec();
    let actions = parser::parse(&text).unwrap();
    match &actions[0] {
        Action::Transfer { from, to, amount, date } => {
            assert_eq!(from, &b"A".to_vec());
            assert_eq!(to.as_ref().unwrap(), &b"B".to_vec());
            assert_eq!(*amount, 500);
            assert_eq!(*date, Date { year: 2021, month: 12, day: 31 });
        }
        _ => panic!("expected a transfer"),
    }
}
