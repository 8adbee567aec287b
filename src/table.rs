//! The table that a sequence is written as: a row per event, its fields
//! separated by commas, and its reading back.

use crate::simulation::Event;
use vstd::prelude::*;

verus! {

pub const COMMA: u8 = 44;

pub const NEWLINE: u8 = 10;

/// One row of the table: the texts of an event's time and magnitude, as the
/// caller wrote the numbers, and its parent column.
pub struct Record {
    pub time: Vec<u8>,
    pub magnitude: Vec<u8>,
    pub parent: usize,
}

pub ghost struct RecordView {
    pub time: Seq<u8>,
    pub magnitude: Seq<u8>,
    pub parent: nat,
}

impl View for Record {
    type V = RecordView;

    open spec fn view(&self) -> RecordView {
        RecordView { time: self.time@, magnitude: self.magnitude@, parent: self.parent as nat }
    }
}

pub open spec fn views(rs: Seq<Record>) -> Seq<RecordView> {
    rs.map_values(|r: Record| r@)
}

/// The parent column of an event: its parent's position, and `0` for a
/// background event.
pub open spec fn parent_number(parent: Option<usize>) -> nat {
    match parent {
        Some(p) => p as nat,
        None => 0,
    }
}

/// A field holds neither a comma nor a line break.
pub open spec fn is_field(b: Seq<u8>) -> bool {
    forall|i: int| 0 <= i < b.len() ==> #[trigger] b[i] != COMMA && b[i] != NEWLINE
}

pub open spec fn is_valid_record(r: RecordView) -> bool {
    is_field(r.time) && is_field(r.magnitude) && r.parent <= usize::MAX
}

pub open spec fn are_valid_records(rs: Seq<RecordView>) -> bool {
    forall|i: int| 0 <= i < rs.len() ==> is_valid_record(#[trigger] rs[i])
}

/// The decimal digits of `n`, most significant first, without leading zeros.
pub open spec fn decimal(n: nat) -> Seq<u8>
    decreases n,
{
    if n < 10 {
        seq![(48 + n) as u8]
    } else {
        decimal(n / 10).push((48 + n % 10) as u8)
    }
}

/// `id,time,magnitude,parent` and a line break.
pub open spec fn header_text() -> Seq<u8> {
    seq![105u8, 100, 44, 116, 105, 109, 101, 44, 109, 97, 103, 110, 105, 116, 117, 100, 101, 44, 112, 97, 114, 101, 110, 116, 10]
}

/// The row of the record at position `i`: `i,time,magnitude,parent` and a
/// line break.
pub open spec fn row_text(i: nat, r: RecordView) -> Seq<u8> {
    decimal(i) + seq![COMMA] + r.time + seq![COMMA] + r.magnitude + seq![COMMA] + decimal(r.parent)
        + seq![NEWLINE]
}

/// The rows of `rs`, numbered from `first`.
pub open spec fn rows_text(rs: Seq<RecordView>, first: nat) -> Seq<u8>
    decreases rs.len(),
{
    if rs.len() == 0 {
        Seq::empty()
    } else {
        row_text(first, rs[0]) + rows_text(rs.drop_first(), first + 1)
    }
}

/// The table of `rs`, with or without the header line.
pub open spec fn table_text(rs: Seq<RecordView>, headers: bool) -> Seq<u8> {
    if headers {
        header_text() + rows_text(rs, 0)
    } else {
        rows_text(rs, 0)
    }
}

proof fn lemma_rows_push(rs: Seq<RecordView>, first: nat, r: RecordView)
    ensures
        rows_text(rs.push(r), first) == rows_text(rs, first) + row_text(first + rs.len(), r),
    decreases rs.len(),
{
    if rs.len() == 0 {
        assert(rs.push(r).drop_first() =~= Seq::<RecordView>::empty());
        assert(rs.push(r)[0] == r);
        assert(rows_text(Seq::<RecordView>::empty(), first + 1) =~= Seq::<u8>::empty());
        assert(rows_text(rs, first) =~= Seq::<u8>::empty());
        assert(rows_text(rs.push(r), first) =~= row_text(first, r));
    } else {
        assert(rs.push(r).drop_first() =~= rs.drop_first().push(r));
        lemma_rows_push(rs.drop_first(), first + 1, r);
        assert(rows_text(rs.push(r), first) =~= rows_text(rs, first) + row_text(
            first + rs.len(),
            r,
        ));
    }
}

impl Record {
    /// The record of event `e`, whose time and magnitude read `time` and
    /// `magnitude`.
    pub fn of_event(e: &Event, time: Vec<u8>, magnitude: Vec<u8>) -> (r: Record)
        ensures
            r.time@ == time@,
            r.magnitude@ == magnitude@,
            r.parent as nat == parent_number(e.parent),
    {
        let parent = match e.parent {
            Some(p) => p,
            None => 0,
        };
        Record { time, magnitude, parent }
    }
}

/// Appends the decimal digits of `n`.
fn push_decimal(out: &mut Vec<u8>, n: usize)
    ensures
        final(out)@ == old(out)@ + decimal(n as nat),
    decreases n,
{
    if n < 10 {
        out.push((48 + n) as u8);
        assert(final(out)@ =~= old(out)@ + decimal(n as nat));
    } else {
        push_decimal(out, n / 10);
        out.push((48 + n % 10) as u8);
        assert(final(out)@ =~= old(out)@ + decimal(n as nat));
    }
}

/// Appends `b`.
fn push_all(out: &mut Vec<u8>, b: &Vec<u8>)
    ensures
        final(out)@ == old(out)@ + b@,
{
    let mut i: usize = 0;
    while i < b.len()
        invariant
            i <= b.len(),
            out@ == old(out)@ + b@.take(i as int),
        decreases b.len() - i,
    {
        out.push(b[i]);
        i = i + 1;
        assert(out@ =~= old(out)@ + b@.take(i as int));
    }
    assert(b@.take(b.len() as int) =~= b@);
}

/// The table of `records`: the header line if `headers` is set, then one
/// row per record, numbered from zero.
pub fn render_table(records: &Vec<Record>, headers: bool) -> (r: Vec<u8>)
    ensures
        r@ == table_text(views(records@), headers),
{
    let mut out: Vec<u8> = Vec::new();
    if headers {
        out = vec![105u8, 100, 44, 116, 105, 109, 101, 44, 109, 97, 103, 110, 105, 116, 117, 100, 101, 44, 112, 97, 114, 101, 110, 116, 10];
        assert(out@ =~= header_text());
    }
    let ghost start = out@;
    let ghost rs = views(records@);
    let mut i: usize = 0;
    while i < records.len()
        invariant
            i <= records.len(),
            rs == views(records@),
            start == (if headers { header_text() } else { Seq::<u8>::empty() }),
            out@ == start + rows_text(rs.take(i as int), 0),
        decreases records.len() - i,
    {
        let r = &records[i];
        let ghost before = out@;
        push_decimal(&mut out, i);
        out.push(COMMA);
        push_all(&mut out, &r.time);
        out.push(COMMA);
        push_all(&mut out, &r.magnitude);
        out.push(COMMA);
        push_decimal(&mut out, r.parent);
        out.push(NEWLINE);
        proof {
            assert(rs.take(i + 1int) =~= rs.take(i as int).push(rs[i as int]));
            lemma_rows_push(rs.take(i as int), 0, rs[i as int]);
            assert(out@ =~= before + row_text(i as nat, rs[i as int]));
        }
        i = i + 1;
    }
    proof {
        assert(rs.take(records.len() as int) =~= rs);
        if !headers {
            assert(out@ =~= rows_text(rs, 0));
        }
    }
    out
}

/// The bytes are decimal digits.
pub open spec fn is_digits(d: Seq<u8>) -> bool {
    forall|i: int| 0 <= i < d.len() ==> 48 <= #[trigger] d[i] <= 57
}

/// The number that the digits `d` spell, most significant first.
pub open spec fn value_of(d: Seq<u8>) -> nat
    decreases d.len(),
{
    if d.len() == 0 {
        0
    } else {
        value_of(d.drop_last()) * 10 + (d.last() - 48) as nat
    }
}

proof fn lemma_decimal(n: nat)
    ensures
        decimal(n).len() > 0,
        is_digits(decimal(n)),
        value_of(decimal(n)) == n,
    decreases n,
{
    if n >= 10 {
        lemma_decimal(n / 10);
        let d = decimal(n);
        assert(d.drop_last() =~= decimal(n / 10));
        assert(d.last() == (48 + n % 10) as u8);
        assert(value_of(d) == value_of(decimal(n / 10)) * 10 + n % 10);
        assert forall|i: int| 0 <= i < d.len() implies 48 <= #[trigger] d[i] <= 57 by {
            if i < d.len() - 1 {
                assert(d[i] == decimal(n / 10)[i]);
            }
        }
    } else {
        assert(decimal(n).drop_last() =~= Seq::<u8>::empty());
        assert(value_of(Seq::<u8>::empty()) == 0);
    }
}

/// Where the parts of a row lie in `b`, when the row starts at `pos`.
proof fn lemma_row_layout(b: Seq<u8>, pos: int, i: nat, r: RecordView, rest: Seq<u8>)
    requires
        0 <= pos <= b.len(),
        b.skip(pos) == row_text(i, r) + rest,
        is_valid_record(r),
    ensures
        ({
            let o1 = pos + decimal(i).len();
            let o2 = o1 + 1 + r.time.len();
            let o3 = o2 + 1 + r.magnitude.len();
            let o4 = o3 + 1 + decimal(r.parent).len();
            &&& o4 < b.len()
            &&& b[o1] == COMMA && b[o2] == COMMA && b[o3] == COMMA && b[o4] == NEWLINE
            &&& forall|j: int| pos <= j < o1 ==> #[trigger] b[j] != COMMA
            &&& forall|j: int| o1 < j < o2 ==> #[trigger] b[j] != COMMA
            &&& forall|j: int| o2 < j < o3 ==> #[trigger] b[j] != COMMA
            &&& forall|j: int| o3 < j < o4 ==> #[trigger] b[j] != NEWLINE
            &&& b.subrange(o1 + 1, o2) == r.time
            &&& b.subrange(o2 + 1, o3) == r.magnitude
            &&& b.subrange(o3 + 1, o4) == decimal(r.parent)
            &&& b.skip(o4 + 1) == rest
        }),
{
    lemma_decimal(i);
    lemma_decimal(r.parent);
    let di = decimal(i);
    let dp = decimal(r.parent);
    let o1 = pos + di.len();
    let o2 = o1 + 1 + r.time.len();
    let o3 = o2 + 1 + r.magnitude.len();
    let o4 = o3 + 1 + dp.len();
    let row = row_text(i, r);
    let after_id = di + seq![COMMA];
    let with_time = after_id + r.time;
    let after_time = with_time + seq![COMMA];
    let with_magnitude = after_time + r.magnitude;
    let after_magnitude = with_magnitude + seq![COMMA];
    let with_parent = after_magnitude + dp;
    assert(row == with_parent + seq![NEWLINE]);
    assert(after_time[with_time.len() as int] == COMMA);
    assert(after_magnitude[with_magnitude.len() as int] == COMMA);
    assert forall|k: int| 0 <= k < after_magnitude.len() implies #[trigger] row[k] == after_magnitude[k] by {
        assert(row[k] == with_parent[k]);
    }
    assert forall|k: int| 0 <= k < after_time.len() implies #[trigger] row[k] == after_time[k] by {
        assert(row[k] == after_magnitude[k]);
        assert(after_magnitude[k] == with_magnitude[k]);
    }
    let t = b.skip(pos);
    assert(t.len() == row.len() + rest.len());
    assert forall|j: int| 0 <= j < row.len() implies #[trigger] t[j] == row[j] by {
        assert(t[j] == (row + rest)[j]);
    }
    assert forall|j: int| 0 <= j < row.len() implies #[trigger] b[pos + j] == row[j] by {
        assert(t[j] == b[pos + j]);
    }
    assert(row[o1 - pos] == COMMA);
    assert(b[o1] == row[o1 - pos]);
    assert(b[pos + (o2 - pos)] == row[o2 - pos]);
    assert(row[with_time.len() as int] == after_time[with_time.len() as int]);
    assert(b[pos + (o3 - pos)] == row[o3 - pos]);
    assert(row[with_magnitude.len() as int] == after_magnitude[with_magnitude.len() as int]);
    assert(b[pos + (o4 - pos)] == row[o4 - pos]);
    assert(b[pos + (o1 - pos)] == row[o1 - pos]);
    assert forall|j: int| pos <= j < o1 implies #[trigger] b[j] != COMMA by {
        assert(b[pos + (j - pos)] == row[j - pos]);
        assert(row[j - pos] == di[j - pos]);
    }
    assert forall|j: int| o1 < j < o2 implies #[trigger] b[j] != COMMA by {
        assert(b[pos + (j - pos)] == row[j - pos]);
        assert(row[j - pos] == r.time[j - o1 - 1]);
    }
    assert forall|j: int| o2 < j < o3 implies #[trigger] b[j] != COMMA by {
        assert(b[pos + (j - pos)] == row[j - pos]);
        assert(row[j - pos] == r.magnitude[j - o2 - 1]);
    }
    assert forall|j: int| o3 < j < o4 implies #[trigger] b[j] != NEWLINE by {
        assert(b[pos + (j - pos)] == row[j - pos]);
        assert(row[j - pos] == dp[j - o3 - 1]);
    }
    assert(b.subrange(o1 + 1, o2) =~= r.time) by {
        assert forall|j: int| 0 <= j < r.time.len() implies b.subrange(o1 + 1, o2)[j] == r.time[j] by {
            assert(b[pos + (o1 + 1 - pos + j)] == row[o1 + 1 - pos + j]);
        }
    }
    assert(b.subrange(o2 + 1, o3) =~= r.magnitude) by {
        assert forall|j: int| 0 <= j < r.magnitude.len() implies b.subrange(o2 + 1, o3)[j]
            == r.magnitude[j] by {
            assert(b[pos + (o2 + 1 - pos + j)] == row[o2 + 1 - pos + j]);
        }
    }
    assert(b.subrange(o3 + 1, o4) =~= dp) by {
        assert forall|j: int| 0 <= j < dp.len() implies b.subrange(o3 + 1, o4)[j] == dp[j] by {
            assert(b[pos + (o3 + 1 - pos + j)] == row[o3 + 1 - pos + j]);
        }
    }
    assert(b.skip(o4 + 1) =~= rest) by {
        assert forall|j: int| 0 <= j < rest.len() implies b.skip(o4 + 1)[j] == rest[j] by {
            assert(t[row.len() + j] == (row + rest)[row.len() + j]);
        }
    }
}

/// The first position at or after `from` that holds `d`, or the length.
fn find_byte(b: &Vec<u8>, from: usize, d: u8) -> (q: usize)
    ensures
        q <= b.len(),
        from <= b.len() ==> from <= q,
        forall|j: int| from <= j < q ==> #[trigger] b@[j] != d,
        q < b.len() ==> b@[q as int] == d,
{
    if from >= b.len() {
        return b.len();
    }
    let mut q = from;
    while q < b.len() && b[q] != d
        invariant
            from <= q <= b.len(),
            forall|j: int| from <= j < q ==> #[trigger] b@[j] != d,
        decreases b.len() - q,
    {
        q = q + 1;
    }
    q
}

/// The number spelled by `b[from..to]`, if it is digits and fits.
fn read_number(b: &Vec<u8>, from: usize, to: usize) -> (r: Option<usize>)
    requires
        from <= to <= b.len(),
    ensures
        r is Some ==> r->Some_0 as nat == value_of(b@.subrange(from as int, to as int)),
        is_digits(b@.subrange(from as int, to as int)) && value_of(b@.subrange(from as int, to as int))
            <= usize::MAX ==> r is Some,
{
    let ghost d = b@.subrange(from as int, to as int);
    let mut v: usize = 0;
    let mut k: usize = from;
    while k < to
        invariant
            from <= k <= to <= b.len(),
            d == b@.subrange(from as int, to as int),
            v as nat == value_of(d.take(k - from)),
            is_digits(d) && value_of(d) <= usize::MAX ==> value_of(d.take(k - from)) <= value_of(d),
        decreases to - k,
    {
        let c = b[k];
        proof {
            assert(d.take(k + 1 - from).drop_last() =~= d.take(k - from));
            assert(d.take(k + 1 - from).last() == c);
        }
        if c < 48 || c > 57 {
            return None;
        }
        let digit = (c - 48) as usize;
        proof {
            if is_digits(d) {
                lemma_value_prefix(d, k + 1 - from);
            }
        }
        match v.checked_mul(10) {
            None => return None,
            Some(w) => match w.checked_add(digit) {
                None => return None,
                Some(x) => v = x,
            },
        }
        k = k + 1;
    }
    proof {
        assert(d.take(to - from) =~= d);
    }
    Some(v)
}

proof fn lemma_value_prefix(d: Seq<u8>, n: int)
    requires
        0 <= n <= d.len(),
        is_digits(d),
    ensures
        value_of(d.take(n)) <= value_of(d),
    decreases d.len() - n,
{
    if n < d.len() {
        lemma_value_prefix(d, n + 1);
        assert(d.take(n + 1).drop_last() =~= d.take(n));
        assert(d.take(n + 1).last() == d[n]);
        assert(48 <= d[n]);
    } else {
        assert(d.take(n) =~= d);
    }
}

/// A copy of `b[from..to]`.
fn copy_range(b: &Vec<u8>, from: usize, to: usize) -> (r: Vec<u8>)
    requires
        from <= to <= b.len(),
    ensures
        r@ == b@.subrange(from as int, to as int),
{
    let mut r: Vec<u8> = Vec::new();
    let mut k: usize = from;
    while k < to
        invariant
            from <= k <= to <= b.len(),
            r@ == b@.subrange(from as int, k as int),
        decreases to - k,
    {
        r.push(b[k]);
        k = k + 1;
        assert(r@ =~= b@.subrange(from as int, k as int));
    }
    r
}

/// Whether `a` and `b` hold the same bytes.
fn same_bytes(a: &Vec<u8>, b: &Vec<u8>) -> (r: bool)
    ensures
        r == (a@ == b@),
{
    if a.len() != b.len() {
        return false;
    }
    let mut k: usize = 0;
    while k < a.len()
        invariant
            k <= a.len() == b.len(),
            a@.take(k as int) == b@.take(k as int),
        decreases a.len() - k,
    {
        if a[k] != b[k] {
            assert(a@[k as int] != b@[k as int]);
            return false;
        }
        k = k + 1;
        assert(a@.take(k as int) =~= b@.take(k as int));
    }
    assert(a@.take(a.len() as int) =~= a@);
    assert(b@.take(b.len() as int) =~= b@);
    true
}

proof fn lemma_rows_nonempty(rs: Seq<RecordView>, first: nat)
    requires
        rs.len() > 0,
    ensures
        rows_text(rs, first).len() > 0,
        rows_text(rs, first) == row_text(first, rs[0]) + rows_text(rs.drop_first(), first + 1),
{
    lemma_decimal(first);
}

/// The records of a table, read back.
///
/// A result is always a list of records whose table is `bytes`; and
/// whenever `bytes` is the table of valid records, those records come back.
pub fn parse_table(bytes: &Vec<u8>, headers: bool) -> (r: Option<Vec<Record>>)
    ensures
        r is Some ==> table_text(views(r->Some_0@), headers) == bytes@,
        forall|rs: Seq<RecordView>|
            are_valid_records(rs) && #[trigger] table_text(rs, headers) == bytes@ ==> r is Some
                && views(r->Some_0@) == rs,
{
    let len = bytes.len();
    let mut pos: usize = 0;
    if headers {
        let head: Vec<u8> = vec![105u8, 100, 44, 116, 105, 109, 101, 44, 109, 97, 103, 110, 105, 116, 117, 100, 101, 44, 112, 97, 114, 101, 110, 116, 10];
        assert(head@ =~= header_text());
        proof {
            assert forall|rs: Seq<RecordView>| #[trigger] table_text(rs, headers) == bytes@ implies bytes@.len()
                >= 25 && bytes@.take(25) == header_text() by {
                assert(bytes@.take(25) =~= (header_text() + rows_text(rs, 0)).take(25));
            }
        }
        if len < head.len() {
            return None;
        }
        let first = copy_range(bytes, 0, head.len());
        if !same_bytes(&first, &head) {
            return None;
        }
        pos = head.len();
        proof {
            assert forall|rs: Seq<RecordView>| #[trigger] table_text(rs, headers) == bytes@ implies bytes@.skip(
                pos as int,
            ) == rows_text(rs, 0) by {
                assert(bytes@.skip(pos as int) =~= (header_text() + rows_text(rs, 0)).skip(25));
            }
        }
    } else {
        assert(bytes@.skip(0) =~= bytes@);
    }
    let mut out: Vec<Record> = Vec::new();
    proof {
        assert forall|rs: Seq<RecordView>|
            are_valid_records(rs) && #[trigger] table_text(rs, headers) == bytes@ implies {
                &&& out@.len() <= rs.len()
                &&& views(out@) == rs.take(out@.len() as int)
                &&& bytes@.skip(pos as int) == rows_text(rs.skip(out@.len() as int), out@.len() as nat)
            } by {
            assert(rs.skip(0) =~= rs);
            assert(views(out@) =~= rs.take(0));
        }
    }
    while pos < len
        invariant
            len == bytes.len(),
            pos <= len,
            forall|rs: Seq<RecordView>|
                are_valid_records(rs) && #[trigger] table_text(rs, headers) == bytes@ ==> {
                    &&& out@.len() <= rs.len()
                    &&& views(out@) == rs.take(out@.len() as int)
                    &&& bytes@.skip(pos as int) == rows_text(rs.skip(out@.len() as int), out@.len() as nat)
                },
        decreases len - pos,
    {
        let q1 = find_byte(bytes, pos, COMMA);
        let s2 = if q1 < len { q1 + 1 } else { len };
        let q2 = find_byte(bytes, s2, COMMA);
        let s3 = if q2 < len { q2 + 1 } else { len };
        let q3 = find_byte(bytes, s3, COMMA);
        let s4 = if q3 < len { q3 + 1 } else { len };
        let q4 = find_byte(bytes, s4, NEWLINE);
        let parent = read_number(bytes, s4, q4);
        let ghost i = out@.len() as nat;
        proof {
            assert forall|rs: Seq<RecordView>|
                are_valid_records(rs) && #[trigger] table_text(rs, headers) == bytes@ implies {
                    &&& i < rs.len()
                    &&& q4 < len && parent == Some(rs[i as int].parent as usize)
                    &&& bytes@.subrange(s2 as int, q2 as int) == rs[i as int].time
                    &&& bytes@.subrange(s3 as int, q3 as int) == rs[i as int].magnitude
                    &&& bytes@.skip(q4 + 1) == rows_text(rs.skip(i + 1int), i + 1)
                } by {
                let tail = rs.skip(i as int);
                if tail.len() == 0 {
                    assert(bytes@.skip(pos as int).len() == 0);
                }
                lemma_rows_nonempty(tail, i);
                assert(tail[0] == rs[i as int]);
                assert(is_valid_record(rs[i as int]));
                assert(tail.drop_first() =~= rs.skip(i + 1int));
                let r = rs[i as int];
                lemma_row_layout(bytes@, pos as int, i, r, rows_text(tail.drop_first(), i + 1));
                let o1 = pos + decimal(i).len();
                let o2 = o1 + 1 + r.time.len();
                let o3 = o2 + 1 + r.magnitude.len();
                let o4 = o3 + 1 + decimal(r.parent).len();
                assert(q1 == o1) by {
                    if q1 < o1 {
                        assert(bytes@[q1 as int] != COMMA);
                    } else if q1 > o1 {
                        assert(bytes@[o1] != COMMA);
                    }
                }
                assert(q2 == o2) by {
                    if q2 < o2 {
                        assert(bytes@[q2 as int] != COMMA);
                    } else if q2 > o2 {
                        assert(bytes@[o2] != COMMA);
                    }
                }
                assert(q3 == o3) by {
                    if q3 < o3 {
                        assert(bytes@[q3 as int] != COMMA);
                    } else if q3 > o3 {
                        assert(bytes@[o3] != COMMA);
                    }
                }
                assert(q4 == o4) by {
                    if q4 < o4 {
                        assert(bytes@[q4 as int] != NEWLINE);
                    } else if q4 > o4 {
                        assert(bytes@[o4] != NEWLINE);
                    }
                }
                lemma_decimal(r.parent);
            }
        }
        if q4 >= len || parent.is_none() {
            return None;
        }
        let time = copy_range(bytes, s2, q2);
        let magnitude = copy_range(bytes, s3, q3);
        let rec = Record { time, magnitude, parent: parent.unwrap() };
        let ghost old_out = out@;
        out.push(rec);
        pos = q4 + 1;
        proof {
            assert(views(out@) =~= views(old_out).push(rec@));
            assert forall|rs: Seq<RecordView>|
                are_valid_records(rs) && #[trigger] table_text(rs, headers) == bytes@ implies {
                    &&& out@.len() <= rs.len()
                    &&& views(out@) == rs.take(out@.len() as int)
                    &&& bytes@.skip(pos as int) == rows_text(rs.skip(out@.len() as int), out@.len() as nat)
                } by {
                assert(rs.take(i + 1int) =~= rs.take(i as int).push(rs[i as int]));
            }
        }
    }
    let text = render_table(&out, headers);
    proof {
        assert forall|rs: Seq<RecordView>|
            are_valid_records(rs) && #[trigger] table_text(rs, headers) == bytes@ implies views(out@) == rs by {
            let tail = rs.skip(out@.len() as int);
            if tail.len() > 0 {
                lemma_rows_nonempty(tail, out@.len() as nat);
                assert(bytes@.skip(pos as int).len() == 0);
            }
            assert(rs.take(out@.len() as int) =~= rs);
        }
    }
    if same_bytes(&text, bytes) {
        Some(out)
    } else {
        None
    }
}

} // verus!
