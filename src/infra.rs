//! The dataset format: a first line holding a count, then one line per
//! transaction with its left parent, right parent and timestamp, separated
//! by single spaces. Lines end with `\n` or `\r\n`.
use vstd::prelude::*;

use crate::graph::{built, Graph, MAX_NODES};

verus! {

pub const NEWLINE: u8 = 10;

pub const CARRIAGE_RETURN: u8 = 13;

pub const SPACE: u8 = 32;

pub const PLUS: u8 = 43;

pub const DIGIT_ZERO: u8 = 48;

pub const DIGIT_NINE: u8 = 57;

/// Why a dataset could not be loaded.
#[derive(Debug, PartialEq, Eq)]
pub enum InfraError {
    /// A transaction line is not three unsigned integers.
    ParseTransaction,
    /// The count line is not an unsigned integer, or the graph could not
    /// be built from the transactions.
    ParseGraph(String),
    /// The dataset could not be opened.
    NotFileSpecified,
}

/// Position of the first `c` in `s`, or `s.len()` if there is none.
pub open spec fn first_index(s: Seq<u8>, c: u8) -> int
    decreases s.len(),
{
    if s.len() == 0 {
        0
    } else if s[0] == c {
        0
    } else {
        1 + first_index(s.drop_first(), c)
    }
}

/// `s` without one trailing carriage return.
pub open spec fn strip_cr(s: Seq<u8>) -> Seq<u8> {
    if s.len() > 0 && s.last() == CARRIAGE_RETURN {
        s.drop_last()
    } else {
        s
    }
}

/// The lines of `data`: cut at each `\n`, which is dropped together with a
/// `\r` just before it; a final `\n` opens no further line.
pub open spec fn lines(data: Seq<u8>) -> Seq<Seq<u8>>
    decreases data.len(),
{
    if data.len() == 0 {
        seq![]
    } else {
        let k = first_index(data, NEWLINE);
        if 0 <= k < data.len() {
            seq![strip_cr(data.take(k))] + lines(data.skip(k + 1))
        } else {
            seq![data]
        }
    }
}

/// The fields of a line: cut at each single space (so there is always at
/// least one field, and two spaces in a row make an empty field).
pub open spec fn fields(s: Seq<u8>) -> Seq<Seq<u8>>
    decreases s.len(),
{
    let k = first_index(s, SPACE);
    if 0 <= k < s.len() {
        seq![s.take(k)] + fields(s.skip(k + 1))
    } else {
        seq![s]
    }
}

pub open spec fn is_digit(b: u8) -> bool {
    DIGIT_ZERO <= b <= DIGIT_NINE
}

pub open spec fn all_digits(s: Seq<u8>) -> bool {
    forall|i: int| 0 <= i < s.len() ==> is_digit(#[trigger] s[i])
}

/// The number that the decimal digits `s` spell.
pub open spec fn digits_value(s: Seq<u8>) -> nat
    decreases s.len(),
{
    if s.len() == 0 {
        0
    } else {
        digits_value(s.drop_last()) * 10 + (s.last() - DIGIT_ZERO) as nat
    }
}

/// An unsigned 32-bit decimal: an optional `+`, then one or more digits,
/// worth at most `u32::MAX`.
pub open spec fn parse_u32(s: Seq<u8>) -> Option<u32> {
    let d = if s.len() > 0 && s[0] == PLUS {
        s.drop_first()
    } else {
        s
    };
    if d.len() > 0 && all_digits(d) && digits_value(d) <= u32::MAX {
        Some(digits_value(d) as u32)
    } else {
        None
    }
}

/// A transaction line: exactly three fields, each an unsigned decimal.
pub open spec fn parse_record(line: Seq<u8>) -> Option<(u32, u32, u32)> {
    let f = fields(line);
    if f.len() == 3 && parse_u32(f[0]) is Some && parse_u32(f[1]) is Some && parse_u32(
        f[2],
    ) is Some {
        Some((parse_u32(f[0])->Some_0, parse_u32(f[1])->Some_0, parse_u32(f[2])->Some_0))
    } else {
        None
    }
}

/// Every line of `ls` is a transaction line.
pub open spec fn all_records(ls: Seq<Seq<u8>>) -> bool {
    forall|i: int| 0 <= i < ls.len() ==> (#[trigger] parse_record(ls[i])) is Some
}

/// The transactions of the lines `ls`, each a transaction line.
pub open spec fn records(ls: Seq<Seq<u8>>) -> Seq<(u32, u32, u32)> {
    ls.map_values(|l: Seq<u8>| parse_record(l)->Some_0)
}

/// The transaction lines of a dataset's lines: all but the first.
pub open spec fn body(ls: Seq<Seq<u8>>) -> Seq<Seq<u8>> {
    if ls.len() == 0 {
        ls
    } else {
        ls.drop_first()
    }
}

pub open spec fn first_line_message() -> Seq<char> {
    "first line was not parsed"@
}

pub open spec fn graph_message() -> Seq<char> {
    "impossible add node in the graph"@
}

proof fn lemma_first_index(s: Seq<u8>, c: u8, p: int)
    requires
        0 <= p <= s.len(),
        forall|k: int| 0 <= k < p ==> s[k] != c,
        p < s.len() ==> s[p] == c,
    ensures
        first_index(s, c) == p,
    decreases p,
{
    if p > 0 {
        lemma_first_index(s.drop_first(), c, p - 1);
    }
}

proof fn lemma_fields_nonempty(s: Seq<u8>)
    ensures
        fields(s).len() >= 1,
    decreases s.len(),
{
    let k = first_index(s, SPACE);
    if 0 <= k < s.len() {
        lemma_fields_nonempty(s.skip(k + 1));
    }
}

proof fn lemma_digits_prefix(s: Seq<u8>, k: int)
    requires
        0 <= k <= s.len(),
    ensures
        digits_value(s.take(k)) <= digits_value(s),
    decreases s.len(),
{
    if k < s.len() {
        assert(s.drop_last().take(k) =~= s.take(k));
        lemma_digits_prefix(s.drop_last(), k);
    } else {
        assert(s.take(k) =~= s);
    }
}

/// The first `c` in `data[from..to]`, or `to` if there is none.
fn find_byte(data: &[u8], from: usize, to: usize, c: u8) -> (r: usize)
    requires
        from <= to <= data.len(),
    ensures
        from <= r <= to,
        first_index(data@.subrange(from as int, to as int), c) == r - from,
{
    let mut i = from;
    while i < to && data[i] != c
        invariant
            from <= i <= to <= data.len(),
            forall|k: int| from <= k < i ==> data@[k] != c,
        decreases to - i,
    {
        i = i + 1;
    }
    proof {
        let s = data@.subrange(from as int, to as int);
        lemma_first_index(s, c, i - from);
    }
    i
}

/// The unsigned decimal in `data[start..end]`.
fn parse_u32_at(data: &[u8], start: usize, end: usize) -> (r: Option<u32>)
    requires
        start <= end <= data.len(),
    ensures
        r == parse_u32(data@.subrange(start as int, end as int)),
{
    let ghost s = data@.subrange(start as int, end as int);
    let mut i = start;
    if i < end && data[i] == PLUS {
        i = i + 1;
    }
    let ghost from = i;
    let ghost d = data@.subrange(from as int, end as int);
    assert(d =~= if s.len() > 0 && s[0] == PLUS {
        s.drop_first()
    } else {
        s
    });
    if i == end {
        return None;
    }
    let mut v: u64 = 0;
    while i < end
        invariant
            start <= from <= i <= end <= data.len(),
            s == data@.subrange(start as int, end as int),
            d == data@.subrange(from as int, end as int),
            d == (if s.len() > 0 && s[0] == PLUS {
                s.drop_first()
            } else {
                s
            }),
            d.len() > 0,
            all_digits(data@.subrange(from as int, i as int)),
            v == digits_value(data@.subrange(from as int, i as int)),
            v <= u32::MAX,
        decreases end - i,
    {
        let b = data[i];
        proof {
            assert(data@.subrange(from as int, i + 1).drop_last() =~= data@.subrange(
                from as int,
                i as int,
            ));
        }
        assert(d[i - from] == b);
        assert(data@.subrange(from as int, i + 1).last() == b);
        if b < DIGIT_ZERO || b > DIGIT_NINE {
            assert(!is_digit(d[i - from]));
            assert(!all_digits(d));
            return None;
        }
        v = v * 10 + (b - DIGIT_ZERO) as u64;
        if v > u32::MAX as u64 {
            proof {
                assert(d.take(i + 1 - from) =~= data@.subrange(from as int, i + 1));
                if all_digits(d) {
                    lemma_digits_prefix(d, i + 1 - from);
                }
            }
            return None;
        }
        i = i + 1;
    }
    assert(data@.subrange(from as int, i as int) =~= d);
    Some(v as u32)
}

/// The transaction in the line `data[start..end]`.
fn parse_record_at(data: &[u8], start: usize, end: usize) -> (r: Option<(u32, u32, u32)>)
    requires
        start <= end <= data.len(),
    ensures
        r == parse_record(data@.subrange(start as int, end as int)),
{
    let ghost s = data@.subrange(start as int, end as int);
    let k1 = find_byte(data, start, end, SPACE);
    if k1 == end {
        assert(fields(s) == seq![s]);
        return None;
    }
    let ghost s1 = data@.subrange(k1 + 1, end as int);
    assert(s.take(k1 - start) =~= data@.subrange(start as int, k1 as int));
    assert(s.skip(k1 - start + 1) =~= s1);
    assert(fields(s) == seq![data@.subrange(start as int, k1 as int)] + fields(s1));
    let k2 = find_byte(data, k1 + 1, end, SPACE);
    if k2 == end {
        assert(fields(s1) == seq![s1]);
        assert(fields(s).len() == 2);
        return None;
    }
    let ghost s2 = data@.subrange(k2 + 1, end as int);
    assert(s1.take(k2 - k1 - 1) =~= data@.subrange(k1 + 1, k2 as int));
    assert(s1.skip(k2 - k1) =~= s2);
    assert(fields(s1) == seq![data@.subrange(k1 + 1, k2 as int)] + fields(s2));
    let k3 = find_byte(data, k2 + 1, end, SPACE);
    if k3 < end {
        proof {
            let s3 = data@.subrange(k3 + 1, end as int);
            assert(s2.skip(k3 - k2) =~= s3);
            assert(s2.take(k3 - k2 - 1) =~= data@.subrange(k2 + 1, k3 as int));
            assert(fields(s2) == seq![data@.subrange(k2 + 1, k3 as int)] + fields(s3));
            lemma_fields_nonempty(s3);
            assert(fields(s).len() >= 4);
        }
        return None;
    }
    assert(fields(s2) == seq![s2]);
    assert(fields(s) =~= seq![
        data@.subrange(start as int, k1 as int),
        data@.subrange(k1 + 1, k2 as int),
        s2,
    ]);
    let left_parent = parse_u32_at(data, start, k1);
    let right_parent = parse_u32_at(data, k1 + 1, k2);
    let timestamp = parse_u32_at(data, k2 + 1, end);
    match (left_parent, right_parent, timestamp) {
        (Some(l), Some(r), Some(t)) => Some((l, r, t)),
        _ => None,
    }
}

/// Reads one transaction line: three unsigned decimals separated by single
/// spaces, as `(left_parent, right_parent, timestamp)`.
pub fn parse_node(line: &[u8]) -> (r: Result<(u32, u32, u32), InfraError>)
    ensures
        match parse_record(line@) {
            Some(v) => r == Ok::<(u32, u32, u32), InfraError>(v),
            None => r == Err::<(u32, u32, u32), InfraError>(InfraError::ParseTransaction),
        },
{
    assert(line@.subrange(0, line@.len() as int) =~= line@);
    match parse_record_at(line, 0, line.len()) {
        Some(v) => Ok(v),
        None => Err(InfraError::ParseTransaction),
    }
}

/// The lines of `data[start..]`: the one that ends at `end` (a newline, or
/// the end of `data`) without its line ending, then those after it.
proof fn lemma_lines_step(data: Seq<u8>, start: int, end: int, line_end: int)
    requires
        0 <= start <= end <= data.len(),
        start < data.len(),
        first_index(data.subrange(start, data.len() as int), NEWLINE) == end - start,
        line_end == if end < data.len() && end > start && data[end - 1] == CARRIAGE_RETURN {
            end - 1
        } else {
            end
        },
    ensures
        ({
            let next = if end < data.len() {
                end + 1
            } else {
                data.len() as int
            };
            lines(data.subrange(start, data.len() as int)) == seq![
                data.subrange(start, line_end),
            ] + lines(data.subrange(next, data.len() as int))
        }),
{
    let rest = data.subrange(start, data.len() as int);
    let line = data.subrange(start, line_end);
    if end < data.len() {
        let tail = data.subrange(end + 1, data.len() as int);
        assert(rest.take(end - start) =~= data.subrange(start, end));
        assert(rest.skip(end - start + 1) =~= tail);
        assert(strip_cr(data.subrange(start, end)) =~= line);
    } else {
        let tail = data.subrange(data.len() as int, data.len() as int);
        assert(line =~= rest);
        assert(tail.len() == 0);
        assert(lines(tail) =~= Seq::<Seq<u8>>::empty());
        assert(lines(rest) =~= seq![line] + lines(tail));
    }
}

/// Builds the graph that a dataset describes.
///
/// The first line must be an unsigned decimal (its value is not used):
/// otherwise `ParseGraph("first line was not parsed")`. Every further line
/// must be a transaction line: otherwise `ParseTransaction`. The
/// transactions are then built into a graph as a batch; a rejected
/// insertion, or a batch of `MAX_NODES` transactions or more, gives
/// `ParseGraph("impossible add node in the graph")`.
pub fn parse_database(data: &[u8]) -> (r: Result<Graph, InfraError>)
    ensures
        ({
            let ls = lines(data@);
            let values = records(body(ls));
            if ls.len() > 0 && parse_u32(ls[0]) is None {
                r matches Err(InfraError::ParseGraph(m)) && m@ == first_line_message()
            } else if !all_records(body(ls)) {
                r matches Err(InfraError::ParseTransaction)
            } else if values.len() >= MAX_NODES || built(values) is Err {
                r matches Err(InfraError::ParseGraph(m)) && m@ == graph_message()
            } else {
                r matches Ok(g) && g@ == built(values)->Ok_0 && g.wf()
            }
        }),
{
    let ghost all = lines(data@);
    let mut values: Vec<(u32, u32, u32)> = Vec::new();
    let mut start: usize = 0;
    let mut count: usize = 0;
    assert(data@.subrange(0, data@.len() as int) =~= data@);
    assert(all.take(0) + all =~= all);
    while start < data.len()
        invariant
            count <= start <= data.len(),
            all == lines(data@),
            count <= all.len(),
            all == all.take(count as int) + lines(data@.subrange(start as int, data.len() as int)),
            count > 0 ==> parse_u32(all[0]) is Some,
            count > 0 ==> all_records(all.subrange(1, count as int)) && values@ == records(
                all.subrange(1, count as int),
            ),
            count == 0 ==> values@.len() == 0,
        decreases data.len() - start,
    {
        let ghost rest = data@.subrange(start as int, data.len() as int);
        let end = find_byte(data, start, data.len(), NEWLINE);
        let mut line_end = end;
        if end < data.len() && line_end > start && data[line_end - 1] == CARRIAGE_RETURN {
            line_end = line_end - 1;
        }
        let ghost line = data@.subrange(start as int, line_end as int);
        let ghost next = if end < data.len() {
            end + 1
        } else {
            data.len() as int
        };
        proof {
            lemma_lines_step(data@, start as int, end as int, line_end as int);
            let tail = data@.subrange(next, data.len() as int);
            assert(all =~= all.take(count as int) + (seq![line] + lines(tail)));
            assert(all[count as int] == line);
            assert(all.take(count + 1) =~= all.take(count as int).push(line));
            assert(all =~= all.take(count + 1) + lines(tail));
        }
        if count == 0 {
            if parse_u32_at(data, start, line_end).is_none() {
                return Err(InfraError::ParseGraph("first line was not parsed".to_owned()));
            }
            assert(all.subrange(1, 1) =~= Seq::<Seq<u8>>::empty());
            assert(records(all.subrange(1, 1)) =~= Seq::<(u32, u32, u32)>::empty());
        } else {
            match parse_record_at(data, start, line_end) {
                Some(v) => {
                    values.push(v);
                    proof {
                        let done = all.subrange(1, count as int);
                        assert(all.subrange(1, count + 1) =~= done.push(line));
                        assert(records(done.push(line)) =~= records(done).push(v));
                    }
                },
                None => {
                    assert(body(all)[count - 1] == line);
                    return Err(InfraError::ParseTransaction);
                },
            }
        }
        count = count + 1;
        if end < data.len() {
            start = end + 1;
        } else {
            start = data.len();
        }
    }
    proof {
        assert(data@.subrange(start as int, data.len() as int) =~= Seq::<u8>::empty());
        assert(lines(Seq::<u8>::empty()) =~= Seq::<Seq<u8>>::empty());
        assert(all.take(count as int) =~= all);
        if count > 0 {
            assert(all.subrange(1, count as int) =~= body(all));
        } else {
            assert(records(body(all)) =~= Seq::<(u32, u32, u32)>::empty());
        }
    }
    if values.len() >= MAX_NODES {
        return Err(InfraError::ParseGraph("impossible add node in the graph".to_owned()));
    }
    match Graph::try_from(values) {
        Ok(g) => Ok(g),
        Err(_) => Err(InfraError::ParseGraph("impossible add node in the graph".to_owned())),
    }
}

} // verus!
