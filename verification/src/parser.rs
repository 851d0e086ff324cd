//! The line-oriented command parser: one action per line, amounts in
//! whole currency units with up to two decimals (held as minor units),
//! dates as `month/day/year`. Everything a successful parse hands back is
//! within the machine limits the applier asks for.

use vstd::prelude::*;

use crate::account::{AccountType, BranchEntry, Inflow, bytes_eq, copy_bytes, entries_view};
use crate::actions::{Action, Date, action_view, action_wf, inflow_wf, opt_bound_wf};
use crate::model::{unit_limit, weight_limit};

verus! {

/// Where and how a line failed to parse.
#[derive(Clone, Copy, PartialEq, Eq, Structural, Debug)]
pub struct ParseError {
    pub line: usize,
    pub kind: ParseKind,
}

/// What went wrong with a line.
#[derive(Clone, Copy, PartialEq, Eq, Structural, Debug)]
pub enum ParseKind {
    /// The line's first word is not a known command.
    UnknownCommand,
    /// The line ended where another token was expected.
    EndOfLine,
    /// A specific keyword was expected and something else stood there.
    WrongToken,
    /// A whole number was expected.
    BadInteger,
    /// A money amount was expected (digits, optionally a sign and up to
    /// two decimals, within the supported range).
    BadAmount,
    /// A date was expected as month/day/year, and a real calendar date.
    BadDate,
    /// Either `flex` or `fixed` was expected.
    BadInflow,
    /// A token stood where the line should have ended.
    TrailingToken,
}

/// Decimal value of a digit string.
pub open spec fn dec_val(s: Seq<u8>) -> int
    decreases s.len(),
{
    if s.len() == 0 {
        0
    } else {
        dec_val(s.drop_last()) * 10 + (s.last() - 48)
    }
}

/// Whether every byte of `s` is an ASCII digit.
pub open spec fn all_digits(s: Seq<u8>) -> bool {
    forall|i: int| 0 <= i < s.len() ==> 48 <= #[trigger] s[i] <= 57
}

/// The next token of the line, or an end-of-line error carrying the line
/// number.
pub fn next_token(num: usize, tokens: &Vec<Vec<u8>>, pos: &mut usize) -> (r: Result<
    Vec<u8>,
    ParseError,
>)
    ensures
        *old(pos) < tokens@.len() ==> (r matches Ok(t) && t@ == tokens@[*old(pos) as int]@
            && *final(pos) == *old(pos) + 1),
        *old(pos) >= tokens@.len() ==> r == Err::<Vec<u8>, ParseError>(
            ParseError { line: num, kind: ParseKind::EndOfLine },
        ) && *final(pos) == *old(pos),
{
    if *pos < tokens.len() {
        let t = copy_bytes(&tokens[*pos]);
        *pos = *pos + 1;
        Ok(t)
    } else {
        Err(ParseError { line: num, kind: ParseKind::EndOfLine })
    }
}

/// Demand that the next token be exactly `expected`.
pub fn assert_token(expected: &Vec<u8>, num: usize, tokens: &Vec<Vec<u8>>, pos: &mut usize) -> (r:
    Result<(), ParseError>)
    ensures
        r is Ok <==> (*old(pos) < tokens@.len() && tokens@[*old(pos) as int]@ == expected@),
        r is Ok ==> *final(pos) == *old(pos) + 1,
{
    match next_token(num, tokens, pos) {
        Err(e) => Err(e),
        Ok(t) => {
            if bytes_eq(&t, expected) {
                Ok(())
            } else {
                Err(ParseError { line: num, kind: ParseKind::WrongToken })
            }
        }
    }
}

/// Read an unsigned whole number from `s`: every byte a digit, at least
/// one, and the value within `u32`.
pub fn parse_int_bytes(num: usize, s: &Vec<u8>) -> (r: Result<u32, ParseError>)
    ensures
        r matches Ok(v) ==> (all_digits(s@) && s@.len() > 0 && v as int == dec_val(s@)),
        r is Err ==> r == Err::<u32, ParseError>(
            ParseError { line: num, kind: ParseKind::BadInteger },
        ),
{
    if s.len() == 0 {
        return Err(ParseError { line: num, kind: ParseKind::BadInteger });
    }
    let mut acc: u64 = 0;
    let mut i: usize = 0;
    while i < s.len()
        invariant
            i <= s@.len(),
            acc as int == dec_val(s@.subrange(0, i as int)),
            acc <= 0xffff_ffff,
            forall|j: int| 0 <= j < i ==> 48 <= #[trigger] s@[j] <= 57,
        decreases s@.len() - i,
    {
        let b = s[i];
        if b < 48 || b > 57 {
            return Err(ParseError { line: num, kind: ParseKind::BadInteger });
        }
        let acc2: u64 = acc * 10 + ((b - 48) as u64);
        if acc2 > 0xffff_ffff {
            return Err(ParseError { line: num, kind: ParseKind::BadInteger });
        }
        proof {
            assert(s@.subrange(0, i + 1).drop_last() =~= s@.subrange(0, i as int));
        }
        acc = acc2;
        i += 1;
    }
    proof {
        assert(s@.subrange(0, s@.len() as int) =~= s@);
    }
    Ok(acc as u32)
}

/// Read a whole number from the next token of the line.
pub fn parse_int(num: usize, tokens: &Vec<Vec<u8>>, pos: &mut usize) -> (r: Result<
    u32,
    ParseError,
>)
    ensures
        r matches Ok(v) ==> (*old(pos) < tokens@.len() && all_digits(
            tokens@[*old(pos) as int]@,
        ) && v as int == dec_val(tokens@[*old(pos) as int]@)),
{
    match next_token(num, tokens, pos) {
        Err(e) => Err(e),
        Ok(t) => parse_int_bytes(num, &t),
    }
}

/// Whether year, month and day name a real Gregorian calendar date.
pub open spec fn valid_ymd(year: int, month: int, day: int) -> bool {
    &&& 1 <= month <= 12
    &&& 1 <= day <= days_in(year, month)
}

/// Days in a month of a year, leap years included.
pub open spec fn days_in(year: int, month: int) -> int {
    if month == 2 {
        if (year % 4 == 0 && year % 100 != 0) || year % 400 == 0 {
            29
        } else {
            28
        }
    } else if month == 4 || month == 6 || month == 9 || month == 11 {
        30
    } else {
        31
    }
}

/// Read a `month/day/year` date from the next token. Only real calendar
/// dates are accepted.
pub fn parse_date(num: usize, tokens: &Vec<Vec<u8>>, pos: &mut usize) -> (r: Result<
    Date,
    ParseError,
>)
    ensures
        r matches Ok(d) ==> valid_ymd(d.year as int, d.month as int, d.day as int),
{
    let t = match next_token(num, tokens, pos) {
        Err(e) => {
            return Err(e);
        }
        Ok(t) => t,
    };
    // split the token on '/'
    let mut parts: Vec<Vec<u8>> = Vec::new();
    let mut cur: Vec<u8> = Vec::new();
    let mut i: usize = 0;
    while i < t.len()
        invariant
            i <= t@.len(),
        decreases t@.len() - i,
    {
        let b = t[i];
        if b == 47 {
            parts.push(cur);
            cur = Vec::new();
        } else {
            cur.push(b);
        }
        i += 1;
    }
    parts.push(cur);
    if parts.len() != 3 {
        return Err(ParseError { line: num, kind: ParseKind::BadDate });
    }
    let month = match parse_int_bytes(num, &parts[0]) {
        Ok(v) => v,
        Err(_) => {
            return Err(ParseError { line: num, kind: ParseKind::BadDate });
        }
    };
    let day = match parse_int_bytes(num, &parts[1]) {
        Ok(v) => v,
        Err(_) => {
            return Err(ParseError { line: num, kind: ParseKind::BadDate });
        }
    };
    let year = match parse_int_bytes(num, &parts[2]) {
        Ok(v) => v,
        Err(_) => {
            return Err(ParseError { line: num, kind: ParseKind::BadDate });
        }
    };
    if month < 1 || month > 12 {
        return Err(ParseError { line: num, kind: ParseKind::BadDate });
    }
    let leap = (year % 4 == 0 && year % 100 != 0) || year % 400 == 0;
    let dim: u32 = if month == 2 {
        if leap {
            29
        } else {
            28
        }
    } else if month == 4 || month == 6 || month == 9 || month == 11 {
        30
    } else {
        31
    };
    if day < 1 || day > dim {
        return Err(ParseError { line: num, kind: ParseKind::BadDate });
    }
    Ok(Date { year, month, day })
}

/// Read a money amount from the next token: an optional minus sign, whole
/// currency units, and up to two decimals, yielding minor units within
/// the supported range.
pub fn parse_amount(num: usize, tokens: &Vec<Vec<u8>>, pos: &mut usize) -> (r: Result<
    i64,
    ParseError,
>)
    ensures
        r matches Ok(v) ==> -unit_limit() <= v as int <= unit_limit(),
{
    let t = match next_token(num, tokens, pos) {
        Err(e) => {
            return Err(e);
        }
        Ok(t) => t,
    };
    let mut start: usize = 0;
    let mut negative = false;
    if t.len() > 0 && t[0] == 45 {
        negative = true;
        start = 1;
    }
    let mut units: u64 = 0;
    let mut cents: u64 = 0;
    let mut cent_digits: usize = 0;
    let mut seen_dot = false;
    let mut seen_digit = false;
    let mut i: usize = start;
    while i < t.len()
        invariant
            units <= 0xff_ffff_ffff,
            cents <= 99,
            cent_digits <= 2,
            cent_digits == 0 ==> cents == 0,
            cent_digits == 1 ==> cents <= 9,
            i <= t@.len(),
        decreases t@.len() - i,
    {
        let b = t[i];
        if b == 46 {
            if seen_dot {
                return Err(ParseError { line: num, kind: ParseKind::BadAmount });
            }
            seen_dot = true;
        } else if 48 <= b && b <= 57 {
            seen_digit = true;
            let d = (b - 48) as u64;
            if seen_dot {
                if cent_digits >= 2 {
                    return Err(ParseError { line: num, kind: ParseKind::BadAmount });
                }
                cents = cents * 10 + d;
                cent_digits += 1;
            } else {
                let u2 = units * 10 + d;
                if u2 > 0xff_ffff_ffff {
                    return Err(ParseError { line: num, kind: ParseKind::BadAmount });
                }
                units = u2;
            }
        } else {
            return Err(ParseError { line: num, kind: ParseKind::BadAmount });
        }
        i += 1;
    }
    if !seen_digit {
        return Err(ParseError { line: num, kind: ParseKind::BadAmount });
    }
    let scaled_cents: u64 = if cent_digits == 0 {
        0
    } else if cent_digits == 1 {
        cents * 10
    } else {
        cents
    };
    let minor: u64 = units * 100 + scaled_cents;
    if minor > 0x100_0000_0000 {
        return Err(ParseError { line: num, kind: ParseKind::BadAmount });
    }
    let v = minor as i64;
    if negative {
        Ok(-v)
    } else {
        Ok(v)
    }
}


/// Read an inflow rule: an amount followed by `flex` or `fixed`. A flex
/// weight must lie in `[0, weight_limit]`, a fixed allotment in
/// `[0, unit_limit]`.
pub fn parse_inflow(num: usize, tokens: &Vec<Vec<u8>>, pos: &mut usize) -> (r: Result<
    Inflow,
    ParseError,
>)
    ensures
        r matches Ok(i) ==> inflow_wf(crate::account::inflow_view(i)),
{
    let amount = match parse_amount(num, tokens, pos) {
        Ok(v) => v,
        Err(e) => {
            return Err(e);
        }
    };
    let word = match next_token(num, tokens, pos) {
        Ok(t) => t,
        Err(e) => {
            return Err(e);
        }
    };
    // "flex"
    let kw_flex: Vec<u8> = vec![102u8, 108u8, 101u8, 120u8];
    // "fixed"
    let kw_fixed: Vec<u8> = vec![102u8, 105u8, 120u8, 101u8, 100u8];
    if bytes_eq(&word, &kw_flex) {
        if amount < 0 || amount > 0x1_0000 {
            return Err(ParseError { line: num, kind: ParseKind::BadInflow });
        }
        Ok(Inflow::Flex(amount))
    } else if bytes_eq(&word, &kw_fixed) {
        if amount < 0 {
            return Err(ParseError { line: num, kind: ParseKind::BadInflow });
        }
        Ok(Inflow::Fixed(amount))
    } else {
        Err(ParseError { line: num, kind: ParseKind::BadInflow })
    }
}

/// Read an optional maximum: end-of-line means unbounded; else the word
/// `max` followed by a non-negative amount.
pub fn parse_max(num: usize, tokens: &Vec<Vec<u8>>, pos: &mut usize) -> (r: Result<
    Option<i64>,
    ParseError,
>)
    ensures
        r matches Ok(m) ==> opt_bound_wf(crate::account::opt_view(m)),
{
    if *pos >= tokens.len() {
        return Ok(None);
    }
    // "max"
    let kw_max: Vec<u8> = vec![109u8, 97u8, 120u8];
    match assert_token(&kw_max, num, tokens, pos) {
        Err(_) => Err(ParseError { line: num, kind: ParseKind::WrongToken }),
        Ok(_) => {
            let v = match parse_amount(num, tokens, pos) {
                Ok(v) => v,
                Err(e) => {
                    return Err(e);
                }
            };
            if v < 0 {
                return Err(ParseError { line: num, kind: ParseKind::BadAmount });
            }
            Ok(Some(v))
        }
    }
}

/// Parse one already-tokenized command line into an action.
pub fn parse_line(num: usize, tokens: &Vec<Vec<u8>>) -> (r: Result<Action, ParseError>)
    ensures
        r matches Ok(a) ==> action_wf(action_view(a)),
{
    let mut pos: usize = 0;
    let head = match next_token(num, tokens, &mut pos) {
        Ok(t) => t,
        Err(e) => {
            return Err(e);
        }
    };
    // "add"
    let kw_add: Vec<u8> = vec![97u8, 100u8, 100u8];
    // "remove"
    let kw_remove: Vec<u8> = vec![114u8, 101u8, 109u8, 111u8, 118u8, 101u8];
    // "-"
    let kw_minus: Vec<u8> = vec![45u8];
    // "+"
    let kw_plus: Vec<u8> = vec![43u8];
    // "transfer"
    let kw_transfer: Vec<u8> = vec![116u8, 114u8, 97u8, 110u8, 115u8, 102u8, 101u8, 114u8];
    // "edit"
    let kw_edit: Vec<u8> = vec![101u8, 100u8, 105u8, 116u8];
    // ">"
    let kw_arrow: Vec<u8> = vec![62u8];
    // "with"
    let kw_with: Vec<u8> = vec![119u8, 105u8, 116u8, 104u8];
    // "from"
    let kw_from: Vec<u8> = vec![102u8, 114u8, 111u8, 109u8];
    // "to"
    let kw_to: Vec<u8> = vec![116u8, 111u8];
    // "on"
    let kw_on: Vec<u8> = vec![111u8, 110u8];
    if bytes_eq(&head, &kw_add) {
        let parent = match next_token(num, tokens, &mut pos) {
            Ok(t) => t,
            Err(e) => {
                return Err(e);
            }
        };
        match assert_token(&kw_arrow, num, tokens, &mut pos) {
            Err(e) => {
                return Err(e);
            }
            Ok(_) => {}
        }
        let name = match next_token(num, tokens, &mut pos) {
            Ok(t) => t,
            Err(e) => {
                return Err(e);
            }
        };
        let inflow = match parse_inflow(num, tokens, &mut pos) {
            Ok(i) => i,
            Err(e) => {
                return Err(e);
            }
        };
        if pos >= tokens.len() {
            return Ok(
                Action::New {
                    name,
                    inflow,
                    max_override: None,
                    parent,
                    data: AccountType::Branch { children: Vec::new() },
                },
            );
        }
        match assert_token(&kw_with, num, tokens, &mut pos) {
            Err(_) => Err(ParseError { line: num, kind: ParseKind::TrailingToken }),
            Ok(_) => {
                let balance = match parse_amount(num, tokens, &mut pos) {
                    Ok(v) => v,
                    Err(e) => {
                        return Err(e);
                    }
                };
                let max = match parse_max(num, tokens, &mut pos) {
                    Ok(m) => m,
                    Err(e) => {
                        return Err(e);
                    }
                };
                proof {
                    assert(entries_view(Seq::<BranchEntry>::empty()) =~= Seq::<
                        crate::model::EntryV,
                    >::empty());
                }
                Ok(
                    Action::New {
                        name,
                        inflow,
                        max_override: None,
                        parent,
                        data: AccountType::Leaf { balance, max },
                    },
                )
            }
        }
    } else if bytes_eq(&head, &kw_remove) {
        let name = match next_token(num, tokens, &mut pos) {
            Ok(t) => t,
            Err(e) => {
                return Err(e);
            }
        };
        Ok(Action::Remove { name })
    } else if bytes_eq(&head, &kw_minus) {
        let amount = match parse_amount(num, tokens, &mut pos) {
            Ok(v) => v,
            Err(e) => {
                return Err(e);
            }
        };
        match assert_token(&kw_from, num, tokens, &mut pos) {
            Err(e) => {
                return Err(e);
            }
            Ok(_) => {}
        }
        let account = match next_token(num, tokens, &mut pos) {
            Ok(t) => t,
            Err(e) => {
                return Err(e);
            }
        };
        match assert_token(&kw_on, num, tokens, &mut pos) {
            Err(e) => {
                return Err(e);
            }
            Ok(_) => {}
        }
        let date = match parse_date(num, tokens, &mut pos) {
            Ok(d) => d,
            Err(e) => {
                return Err(e);
            }
        };
        Ok(Action::Withdraw { account, amount, date })
    } else if bytes_eq(&head, &kw_plus) {
        let amount = match parse_amount(num, tokens, &mut pos) {
            Ok(v) => v,
            Err(e) => {
                return Err(e);
            }
        };
        let word = match next_token(num, tokens, &mut pos) {
            Ok(t) => t,
            Err(e) => {
                return Err(e);
            }
        };
        if bytes_eq(&word, &kw_to) {
            let account = match next_token(num, tokens, &mut pos) {
                Ok(t) => t,
                Err(e) => {
                    return Err(e);
                }
            };
            match assert_token(&kw_on, num, tokens, &mut pos) {
                Err(e) => {
                    return Err(e);
                }
                Ok(_) => {}
            }
            let date = match parse_date(num, tokens, &mut pos) {
                Ok(d) => d,
                Err(e) => {
                    return Err(e);
                }
            };
            Ok(Action::Deposit { account: Some(account), amount, date })
        } else if bytes_eq(&word, &kw_on) {
            let date = match parse_date(num, tokens, &mut pos) {
                Ok(d) => d,
                Err(e) => {
                    return Err(e);
                }
            };
            Ok(Action::Deposit { account: None, amount, date })
        } else {
            Err(ParseError { line: num, kind: ParseKind::WrongToken })
        }
    } else if bytes_eq(&head, &kw_transfer) {
        let amount = match parse_amount(num, tokens, &mut pos) {
            Ok(v) => v,
            Err(e) => {
                return Err(e);
            }
        };
        match assert_token(&kw_from, num, tokens, &mut pos) {
            Err(e) => {
                return Err(e);
            }
            Ok(_) => {}
        }
        let from = match next_token(num, tokens, &mut pos) {
            Ok(t) => t,
            Err(e) => {
                return Err(e);
            }
        };
        let word = match next_token(num, tokens, &mut pos) {
            Ok(t) => t,
            Err(e) => {
                return Err(e);
            }
        };
        if bytes_eq(&word, &kw_to) {
            let to = match next_token(num, tokens, &mut pos) {
                Ok(t) => t,
                Err(e) => {
                    return Err(e);
                }
            };
            match assert_token(&kw_on, num, tokens, &mut pos) {
                Err(e) => {
                    return Err(e);
                }
                Ok(_) => {}
            }
            let date = match parse_date(num, tokens, &mut pos) {
                Ok(d) => d,
                Err(e) => {
                    return Err(e);
                }
            };
            Ok(Action::Transfer { from, to: Some(to), amount, date })
        } else if bytes_eq(&word, &kw_on) {
            let date = match parse_date(num, tokens, &mut pos) {
                Ok(d) => d,
                Err(e) => {
                    return Err(e);
                }
            };
            Ok(Action::Transfer { from, to: None, amount, date })
        } else {
            Err(ParseError { line: num, kind: ParseKind::WrongToken })
        }
    } else if bytes_eq(&head, &kw_edit) {
        let name = match next_token(num, tokens, &mut pos) {
            Ok(t) => t,
            Err(e) => {
                return Err(e);
            }
        };
        let inflow = match parse_inflow(num, tokens, &mut pos) {
            Ok(i) => i,
            Err(e) => {
                return Err(e);
            }
        };
        let max = match parse_max(num, tokens, &mut pos) {
            Ok(m) => m,
            Err(e) => {
                return Err(e);
            }
        };
        Ok(Action::Edit { name, inflow, max })
    } else {
        Err(ParseError { line: num, kind: ParseKind::UnknownCommand })
    }
}

/// Whether a byte is ASCII whitespace for tokenizing.
pub open spec fn is_space(b: u8) -> bool {
    b == 32 || b == 9 || b == 13 || b == 12 || b == 11
}

/// Parse a whole command file: lines are separated by newlines, `#`
/// starts a comment running to the end of a terminated line, blank lines
/// are skipped, and each remaining line is one action. Either every line
/// parses and the actions come back in order, or the errors of all the
/// failing lines do. Every returned action is within the machine limits
/// of the applier.
#[verifier::loop_isolation(false)]
pub fn parse(data: &Vec<u8>) -> (r: Result<Vec<Action>, Vec<ParseError>>)
    requires
        data@.len() < usize::MAX,
    ensures
        r matches Ok(acts) ==> forall|i: int|
            0 <= i < acts@.len() ==> action_wf(action_view(#[trigger] acts@[i])),
{
    let mut actions: Vec<Action> = Vec::new();
    let mut errors: Vec<ParseError> = Vec::new();
    let mut tokens: Vec<Vec<u8>> = Vec::new();
    let mut cur: Vec<u8> = Vec::new();
    let mut in_comment = false;
    let mut num: usize = 1;
    let mut i: usize = 0;
    while i <= data.len()
        invariant
            i <= data@.len() + 1,
            forall|k: int|
                0 <= k < actions@.len() ==> action_wf(action_view(#[trigger] actions@[k])),
        decreases data@.len() + 1 - i,
    {
        let terminated = i == data.len() || data[i] == 10;
        if terminated {
            // a comment on the final, unterminated line is not stripped
            if in_comment && i == data.len() {
                cur.push(35);
            }
            if cur.len() > 0 {
                tokens.push(cur);
                cur = Vec::new();
            }
            if tokens.len() > 0 {
                match parse_line(num, &tokens) {
                    Ok(a) => {
                        actions.push(a);
                    }
                    Err(e) => {
                        errors.push(e);
                    }
                }
            }
            tokens = Vec::new();
            in_comment = false;
            if num < usize::MAX {
                num += 1;
            }
        } else {
            let b = data[i];
            if b == 35 {
                in_comment = true;
            }
            if !in_comment {
                if b == 32 || b == 9 || b == 13 || b == 12 || b == 11 {
                    if cur.len() > 0 {
                        tokens.push(cur);
                        cur = Vec::new();
                    }
                } else {
                    cur.push(b);
                }
            }
        }
        i += 1;
    }
    if errors.len() == 0 {
        Ok(actions)
    } else {
        Err(errors)
    }
}

} // verus!
