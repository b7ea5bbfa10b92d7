use vstd::prelude::*;
use vstd::string::StrSliceExecFns;

use crate::ops_view;
use crate::Operation;
use crate::OpView;

verus! {

/// The four command letters of a log record.
pub open spec fn is_command_char(c: char) -> bool {
    c == 'r' || c == 'w' || c == 'c' || c == 'a'
}

/// A decimal digit.
pub open spec fn is_digit_char(c: char) -> bool {
    '0' <= c && c <= '9'
}

/// Length of the leading run of command letters.
pub open spec fn command_run(s: Seq<char>) -> int
    decreases s.len(),
{
    if s.len() == 0 || !is_command_char(s[0]) {
        0
    } else {
        1 + command_run(s.skip(1))
    }
}

/// Length of the leading run of decimal digits.
pub open spec fn digit_run(s: Seq<char>) -> int
    decreases s.len(),
{
    if s.len() == 0 || !is_digit_char(s[0]) {
        0
    } else {
        1 + digit_run(s.skip(1))
    }
}

/// Length of the leading run of characters other than the record delimiter
/// `-`; equivalently, the position of the first delimiter, or the length
/// when there is none.
pub open spec fn dash_run(s: Seq<char>) -> int
    decreases s.len(),
{
    if s.len() == 0 || s[0] == '-' {
        0
    } else {
        1 + dash_run(s.skip(1))
    }
}

/// The number a sequence of decimal digits denotes.
pub open spec fn digits_value(s: Seq<char>) -> int
    decreases s.len(),
{
    if s.len() == 0 {
        0
    } else {
        digits_value(s.drop_last()) * 10 + (s.last() as int - '0' as int)
    }
}

/// What the leading-run functions mean, index by index.
proof fn lemma_command_run(s: Seq<char>)
    ensures
        0 <= command_run(s) <= s.len(),
        forall|i: int| 0 <= i < command_run(s) ==> is_command_char(#[trigger] s[i]),
        command_run(s) < s.len() ==> !is_command_char(s[command_run(s)]),
    decreases s.len(),
{
    if s.len() > 0 && is_command_char(s[0]) {
        lemma_command_run(s.skip(1));
        assert forall|i: int| 0 <= i < command_run(s) implies is_command_char(
            #[trigger] s[i],
        ) by {
            if i > 0 {
                assert(is_command_char(s.skip(1)[i - 1]));
            }
        }
    }
}

/// The leading run is the one length whose prefix is all command letters
/// and that is not extendable.
proof fn lemma_command_run_unique(s: Seq<char>, l: int)
    requires
        0 <= l <= s.len(),
        forall|i: int| 0 <= i < l ==> is_command_char(#[trigger] s[i]),
        l < s.len() ==> !is_command_char(s[l]),
    ensures
        l == command_run(s),
    decreases s.len(),
{
    if l == 0 {
    } else {
        assert(is_command_char(s[0]));
        lemma_command_run_unique(s.skip(1), l - 1);
    }
}

/// What [`digit_run`] means, index by index.
proof fn lemma_digit_run(s: Seq<char>)
    ensures
        0 <= digit_run(s) <= s.len(),
        forall|i: int| 0 <= i < digit_run(s) ==> is_digit_char(#[trigger] s[i]),
        digit_run(s) < s.len() ==> !is_digit_char(s[digit_run(s)]),
    decreases s.len(),
{
    if s.len() > 0 && is_digit_char(s[0]) {
        lemma_digit_run(s.skip(1));
        assert forall|i: int| 0 <= i < digit_run(s) implies is_digit_char(#[trigger] s[i]) by {
            if i > 0 {
                assert(is_digit_char(s.skip(1)[i - 1]));
            }
        }
    }
}

/// The digit run is the one length whose prefix is all digits and that is
/// not extendable.
proof fn lemma_digit_run_unique(s: Seq<char>, l: int)
    requires
        0 <= l <= s.len(),
        forall|i: int| 0 <= i < l ==> is_digit_char(#[trigger] s[i]),
        l < s.len() ==> !is_digit_char(s[l]),
    ensures
        l == digit_run(s),
    decreases s.len(),
{
    if l == 0 {
    } else {
        assert(is_digit_char(s[0]));
        lemma_digit_run_unique(s.skip(1), l - 1);
    }
}

/// What [`dash_run`] means, index by index.
proof fn lemma_dash_run(s: Seq<char>)
    ensures
        0 <= dash_run(s) <= s.len(),
        forall|i: int| 0 <= i < dash_run(s) ==> (#[trigger] s[i]) != '-',
        dash_run(s) < s.len() ==> s[dash_run(s)] == '-',
    decreases s.len(),
{
    if s.len() > 0 && s[0] != '-' {
        lemma_dash_run(s.skip(1));
        assert forall|i: int| 0 <= i < dash_run(s) implies (#[trigger] s[i]) != '-' by {
            if i > 0 {
                assert(s.skip(1)[i - 1] != '-');
            }
        }
    }
}

/// The dash run is the one length whose prefix avoids the delimiter and
/// that is not extendable.
proof fn lemma_dash_run_unique(s: Seq<char>, l: int)
    requires
        0 <= l <= s.len(),
        forall|i: int| 0 <= i < l ==> (#[trigger] s[i]) != '-',
        l < s.len() ==> s[l] == '-',
    ensures
        l == dash_run(s),
    decreases s.len(),
{
    if l == 0 {
    } else {
        assert(s[0] != '-');
        lemma_dash_run_unique(s.skip(1), l - 1);
    }
}

/// A sequence of digits denotes a non-negative number.
proof fn lemma_digits_value_nonneg(s: Seq<char>)
    requires
        forall|i: int| 0 <= i < s.len() ==> is_digit_char(#[trigger] s[i]),
    ensures
        digits_value(s) >= 0,
    decreases s.len(),
{
    if s.len() > 0 {
        lemma_digits_value_nonneg(s.drop_last());
    }
}

/// Reading more digits never makes the denoted number smaller.
proof fn lemma_digits_value_grows(s: Seq<char>, i: int, j: int)
    requires
        forall|k: int| 0 <= k < s.len() ==> is_digit_char(#[trigger] s[k]),
        0 <= i <= j <= s.len(),
    ensures
        digits_value(s.take(i)) <= digits_value(s.take(j)),
    decreases j - i,
{
    if i < j {
        lemma_digits_value_grows(s, i, j - 1);
        assert(s.take(j).drop_last() =~= s.take(j - 1));
        assert(s.take(j).last() == s[j - 1]);
        assert(forall|k: int| 0 <= k < s.take(j - 1).len() ==> is_digit_char(
            #[trigger] s.take(j - 1)[k],
        ));
        lemma_digits_value_nonneg(s.take(j - 1));
    }
}

/// The operation a command letter stands for.
pub open spec fn command_op(c: char, t: u32, r: Seq<char>) -> OpView {
    if c == 'r' {
        OpView::Read(t, r)
    } else if c == 'w' {
        OpView::Write(t, r)
    } else if c == 'c' {
        OpView::Commit(t)
    } else {
        OpView::Abort(t)
    }
}

/// The operation one log record denotes, under the grammar
/// `<command><transaction-id>[ (<resource>) | [<resource>] ]`: exactly one
/// command letter, at least one digit, and optionally a non-empty resource
/// between matching parentheses or brackets. A record of any other shape,
/// or one whose transaction number does not fit, denotes `Unknown`, which
/// the scheduler skips.
pub open spec fn record_op(s: Seq<char>) -> OpView {
    let cl = command_run(s);
    let rest1 = s.skip(cl);
    let dl = digit_run(rest1);
    if cl != 1 || dl == 0 {
        OpView::Unknown
    } else if digits_value(rest1.take(dl)) > u32::MAX {
        OpView::Unknown
    } else {
        let t = digits_value(rest1.take(dl)) as u32;
        let rest2 = rest1.skip(dl);
        if rest2.len() == 0 {
            command_op(s[0], t, Seq::empty())
        } else if rest2.len() >= 3 && ((rest2[0] == '(' && rest2.last() == ')') || (rest2[0]
            == '[' && rest2.last() == ']')) {
            command_op(s[0], t, rest2.subrange(1, rest2.len() - 1))
        } else {
            OpView::Unknown
        }
    }
}

/// The records of a log: the stretches between delimiter characters `-`.
pub open spec fn split_records(s: Seq<char>) -> Seq<Seq<char>>
    decreases s.len(),
    via split_records_decreases
{
    let i = dash_run(s);
    if i == s.len() {
        seq![s]
    } else {
        seq![s.take(i)] + split_records(s.skip(i + 1))
    }
}

#[via_fn]
proof fn split_records_decreases(s: Seq<char>) {
    lemma_dash_run(s);
}

/// The operations a whole log denotes, record by record.
pub open spec fn log_ops(s: Seq<char>) -> Seq<OpView> {
    split_records(s).map_values(|r: Seq<char>| record_op(r))
}

/// Length of the leading run of command letters of `s`.
fn command_run_len(s: &str) -> (l: usize)
    ensures
        l as int == command_run(s@),
{
    let n = s.unicode_len();
    let mut l: usize = 0;
    while l < n
        invariant
            l <= n,
            n == s@.len(),
            forall|i: int| 0 <= i < l ==> is_command_char(#[trigger] s@[i]),
        decreases n - l,
    {
        let c = s.get_char(l);
        if !(c == 'r' || c == 'w' || c == 'c' || c == 'a') {
            proof {
                lemma_command_run_unique(s@, l as int);
            }
            return l;
        }
        l += 1;
    }
    proof {
        lemma_command_run_unique(s@, l as int);
    }
    l
}

/// Length of the run of decimal digits of `s` starting at `from`.
fn digit_run_from(s: &str, from: usize) -> (l: usize)
    requires
        from <= s@.len(),
    ensures
        l as int == digit_run(s@.skip(from as int)),
        from + l <= s@.len(),
{
    let n = s.unicode_len();
    let mut l: usize = 0;
    while from + l < n
        invariant
            from + l <= n,
            n == s@.len(),
            forall|i: int| 0 <= i < l ==> is_digit_char(#[trigger] s@[from + i]),
        decreases n - from - l,
    {
        let c = s.get_char(from + l);
        if !(c >= '0' && c <= '9') {
            proof {
                assert forall|i: int| 0 <= i < l implies is_digit_char(
                    #[trigger] s@.skip(from as int)[i],
                ) by {
                    assert(s@.skip(from as int)[i] == s@[from + i]);
                }
                assert(s@.skip(from as int)[l as int] == s@[from + l]);
                lemma_digit_run_unique(s@.skip(from as int), l as int);
            }
            return l;
        }
        l += 1;
    }
    proof {
        assert forall|i: int| 0 <= i < l implies is_digit_char(
            #[trigger] s@.skip(from as int)[i],
        ) by {
            assert(s@.skip(from as int)[i] == s@[from + i]);
        }
        lemma_digit_run_unique(s@.skip(from as int), l as int);
    }
    l
}

/// Length of the delimiter-free run of `s` starting at `from`.
fn dash_run_from(s: &str, from: usize) -> (l: usize)
    requires
        from <= s@.len(),
    ensures
        l as int == dash_run(s@.skip(from as int)),
        from + l <= s@.len(),
{
    let n = s.unicode_len();
    let mut l: usize = 0;
    while from + l < n
        invariant
            from + l <= n,
            n == s@.len(),
            forall|i: int| 0 <= i < l ==> (#[trigger] s@[from + i]) != '-',
        decreases n - from - l,
    {
        let c = s.get_char(from + l);
        if c == '-' {
            proof {
                assert forall|i: int| 0 <= i < l implies (#[trigger] s@.skip(from as int)[i])
                    != '-' by {
                    assert(s@.skip(from as int)[i] == s@[from + i]);
                }
                assert(s@.skip(from as int)[l as int] == s@[from + l]);
                lemma_dash_run_unique(s@.skip(from as int), l as int);
            }
            return l;
        }
        l += 1;
    }
    proof {
        assert forall|i: int| 0 <= i < l implies (#[trigger] s@.skip(from as int)[i]) != '-' by {
            assert(s@.skip(from as int)[i] == s@[from + i]);
        }
        lemma_dash_run_unique(s@.skip(from as int), l as int);
    }
    l
}

/// The number the digits of `s` at `from .. from + dl` denote, if it fits a
/// transaction identifier.
fn parse_txn(s: &str, from: usize, dl: usize) -> (r: Option<u32>)
    requires
        from + dl <= s@.len(),
        forall|i: int| from <= i < from + dl ==> is_digit_char(#[trigger] s@[i]),
    ensures
        match r {
            Some(v) => v as int == digits_value(s@.subrange(from as int, from + dl)),
            None => digits_value(s@.subrange(from as int, from + dl)) > u32::MAX,
        },
{
    let ghost digits = s@.subrange(from as int, from + dl);
    let _n = s.unicode_len();
    proof {
        assert forall|i: int| 0 <= i < digits.len() implies is_digit_char(
            #[trigger] digits[i],
        ) by {
            assert(digits[i] == s@[from + i]);
        }
    }
    let mut value: u64 = 0;
    let mut i: usize = 0;
    while i < dl
        invariant
            i <= dl,
            from + dl <= s@.len(),
            s@.len() <= usize::MAX,
            digits == s@.subrange(from as int, from + dl),
            forall|k: int| 0 <= k < digits.len() ==> is_digit_char(#[trigger] digits[k]),
            value as int == digits_value(digits.take(i as int)),
            value <= u32::MAX as u64,
        decreases dl - i,
    {
        let c = s.get_char(from + i);
        proof {
            assert(digits[i as int] == s@[from + i]);
            assert(is_digit_char(c));
            assert(digits.take(i + 1).drop_last() =~= digits.take(i as int));
            assert(digits.take(i + 1).last() == digits[i as int]);
        }
        let d: u64 = (c as u64) - 48;
        proof {
            assert('0' as int == 48 && '9' as int == 57);
            assert(c as int - '0' as int == d as int);
        }
        let next: u64 = value * 10 + d;
        if next > 0xffff_ffff {
            proof {
                assert(digits_value(digits.take(i + 1)) > u32::MAX);
                lemma_digits_value_grows(digits, i + 1, digits.len() as int);
                assert(digits.take(digits.len() as int) =~= digits);
            }
            return None;
        }
        value = next;
        i += 1;
    }
    proof {
        assert(digits.take(dl as int) =~= digits);
    }
    Some(value as u32)
}

/// Parses one log record, as [`record_op`] describes: a command letter, a
/// transaction number, and optionally a resource in parentheses or
/// brackets. A record of any other shape comes back as
/// [`Operation::Unknown`].
pub fn parse_record(record: &str) -> (op: Operation)
    ensures
        op@ == record_op(record@),
{
    let ghost s = record@;
    let n = record.unicode_len();
    let cl = command_run_len(record);
    proof {
        lemma_command_run(s);
    }
    if cl != 1 {
        return Operation::Unknown;
    }
    let dl = digit_run_from(record, cl);
    proof {
        lemma_digit_run(s.skip(cl as int));
    }
    if dl == 0 {
        return Operation::Unknown;
    }
    proof {
        assert forall|i: int| cl <= i < cl + dl implies is_digit_char(#[trigger] s[i]) by {
            assert(s.skip(cl as int)[i - cl] == s[i]);
        }
        assert(s.subrange(cl as int, cl + dl) =~= s.skip(cl as int).take(dl as int));
    }
    let transaction = match parse_txn(record, cl, dl) {
        Some(v) => v,
        None => {
            return Operation::Unknown;
        },
    };
    let p = cl + dl;
    let ghost rest2 = s.skip(cl as int).skip(dl as int);
    proof {
        assert(rest2 =~= s.skip(p as int));
    }
    let resource: String;
    if p == n {
        resource = String::new();
        proof {
            assert(rest2.len() == 0);
        }
    } else {
        let open = record.get_char(p);
        let close = record.get_char(n - 1);
        if n - p >= 3 && ((open == '(' && close == ')') || (open == '[' && close == ']')) {
            let rsub = record.substring_char(p + 1, n - 1);
            resource = rsub.to_owned();
            proof {
                assert(rest2[0] == s[p as int]);
                assert(rest2.last() == s[n - 1]);
                assert(resource@ =~= rest2.subrange(1, rest2.len() - 1));
            }
        } else {
            proof {
                assert(rest2[0] == s[p as int]);
                assert(rest2.len() >= 3 ==> rest2.last() == s[n - 1]);
            }
            return Operation::Unknown;
        }
    }
    let command = record.get_char(0);
    if command == 'r' {
        Operation::Read(transaction, resource)
    } else if command == 'w' {
        Operation::Write(transaction, resource)
    } else if command == 'c' {
        Operation::Commit(transaction)
    } else {
        Operation::Abort(transaction)
    }
}

/// Parses a whole textual log into its operations: records are the
/// stretches between `-` delimiters, each parsed as [`parse_record`] does.
pub fn parse_operations(contents: &str) -> (ops: Vec<Operation>)
    ensures
        ops_view(ops@) == log_ops(contents@),
{
    let ghost s = contents@;
    let n = contents.unicode_len();
    let mut ops: Vec<Operation> = Vec::new();
    let mut pos: usize = 0;
    let mut done = false;
    proof {
        assert(s.skip(0) =~= s);
        assert(ops_view(ops@) =~= Seq::<OpView>::empty());
        assert(Seq::<OpView>::empty() + log_ops(s) =~= log_ops(s));
    }
    while !done
        invariant
            s == contents@,
            n == s.len(),
            pos <= n,
            !done ==> ops_view(ops@) + log_ops(s.skip(pos as int)) == log_ops(s),
            done ==> ops_view(ops@) == log_ops(s),
        decreases n - pos + (if done { 0int } else { 1int }),
    {
        let ghost suf = s.skip(pos as int);
        let l = dash_run_from(contents, pos);
        proof {
            lemma_dash_run(suf);
        }
        let rec = contents.substring_char(pos, pos + l);
        let op = parse_record(rec);
        let ghost before = ops_view(ops@);
        ops.push(op);
        proof {
            crate::lemma_ops_view_push(ops@.drop_last(), op);
            assert(ops@.drop_last() =~= ops@.subrange(0, ops@.len() - 1));
            assert(rec@ =~= suf.take(l as int));
        }
        if pos + l >= n {
            proof {
                assert(l as int == suf.len());
                assert(suf.take(l as int) =~= suf);
                assert(split_records(suf) == seq![suf]);
                assert(log_ops(suf) =~= seq![record_op(suf)]);
                assert(before + log_ops(suf) =~= before.push(record_op(suf)));
                assert(ops_view(ops@) =~= before.push(record_op(suf)));
            }
            done = true;
        } else {
            proof {
                assert((l as int) < suf.len());
                assert(split_records(suf) == seq![suf.take(l as int)] + split_records(
                    suf.skip(l + 1),
                ));
                assert(log_ops(suf) =~= seq![record_op(suf.take(l as int))] + log_ops(
                    suf.skip(l + 1),
                ));
                assert(s.skip(pos + l + 1) =~= suf.skip(l + 1));
                assert(before + (seq![record_op(suf.take(l as int))] + log_ops(suf.skip(l + 1)))
                    =~= (before.push(record_op(suf.take(l as int)))) + log_ops(suf.skip(l + 1)));
                assert(ops_view(ops@) + log_ops(s.skip(pos + l + 1)) =~= log_ops(s));
            }
            pos = pos + l + 1;
        }
    }
    ops
}

} // verus!
