use vstd::prelude::*;
use crate::index::sorted_wf;
use crate::index::FavoriteIndex;
use crate::index::FavoriteRecord;
use crate::timestamp::Timestamp;
use crate::timestamp::ts_before;

verus! {

// The cache file is a sequence of fixed-width lines, one per entry, in
// ascending timestamp order:
//
//     YYYY-MM-DDThh:mm:ss.nnnnnnnnnZ iiiiiiiiiiiiiiiiiiii\n
//
// a timezone-aware textual instant (nanosecond precision, so sub-second
// ordering round-trips), one space, the remote id as twenty decimal
// digits, one newline: 52 bytes per record.

/// Bytes of one record line.
pub const RECORD_BYTES: usize = 52;

/// The number denoted by a run of ASCII digits, most significant first.
pub open spec fn num(s: Seq<u8>) -> int
    decreases s.len(),
{
    if s.len() == 0 {
        0
    } else {
        num(s.drop_last()) * 10 + (s.last() - 48)
    }
}

/// All bytes in `[from, to)` are ASCII digits.
pub open spec fn all_digits(s: Seq<u8>, from: int, to: int) -> bool {
    forall|i: int| from <= i < to ==> 48 <= #[trigger] s[i] <= 57
}

pub open spec fn pow10(w: nat) -> int
    decreases w,
{
    if w == 0 {
        1
    } else {
        10 * pow10((w - 1) as nat)
    }
}

/// `n` written as exactly `w` ASCII digits, zero padded.
pub open spec fn pad(n: int, w: nat) -> Seq<u8>
    decreases w,
{
    if w == 0 {
        Seq::empty()
    } else {
        pad(n / 10, (w - 1) as nat).push((48 + n % 10) as u8)
    }
}

pub proof fn lemma_pow10_pos(w: nat)
    ensures
        pow10(w) >= 1,
    decreases w,
{
    if w > 0 {
        lemma_pow10_pos((w - 1) as nat);
    }
}

pub proof fn lemma_pad_len(n: int, w: nat)
    ensures
        pad(n, w).len() == w,
    decreases w,
{
    if w > 0 {
        lemma_pad_len(n / 10, (w - 1) as nat);
    }
}

pub proof fn lemma_pad_digits(n: int, w: nat)
    requires
        n >= 0,
    ensures
        all_digits(pad(n, w), 0, w as int),
    decreases w,
{
    lemma_pad_len(n, w);
    if w > 0 {
        lemma_pad_digits(n / 10, (w - 1) as nat);
        lemma_pad_len(n / 10, (w - 1) as nat);
        let p = pad(n / 10, (w - 1) as nat);
        assert(forall|i: int| 0 <= i < w - 1 ==> pad(n, w)[i] == #[trigger] p[i]);
        assert(pad(n, w)[w - 1] == (48 + n % 10) as u8);
    }
}

/// Reading back exactly the digits written recovers the number.
pub proof fn lemma_num_pad(n: int, w: nat)
    requires
        0 <= n < pow10(w),
    ensures
        num(pad(n, w)) == n,
    decreases w,
{
    lemma_pad_len(n, w);
    if w == 0 {
    } else {
        let p = pad(n / 10, (w - 1) as nat);
        lemma_pad_len(n / 10, (w - 1) as nat);
        assert(pad(n, w).drop_last() =~= p);
        assert(pad(n, w).last() == (48 + n % 10) as u8);
        assert(n / 10 < pow10((w - 1) as nat)) by {
            lemma_pow10_pos((w - 1) as nat);
        }
        lemma_num_pad(n / 10, (w - 1) as nat);
        assert(num(pad(n, w)) == (n / 10) * 10 + n % 10);
    }
}

/// A run of `w` digits denotes a number below `pow10(w)`, and at least zero.
pub proof fn lemma_num_bounds(s: Seq<u8>)
    requires
        all_digits(s, 0, s.len() as int),
    ensures
        0 <= num(s) < pow10(s.len() as nat),
    decreases s.len(),
{
    if s.len() > 0 {
        let t = s.drop_last();
        assert(forall|i: int| 0 <= i < t.len() ==> t[i] == #[trigger] s[i]);
        lemma_num_bounds(t);
        assert(48 <= s.last() <= 57);
    }
}

/// Extending a digit run multiplies what a prefix denotes.
pub proof fn lemma_num_extend(s: Seq<u8>, k: int)
    requires
        0 <= k <= s.len(),
        all_digits(s, k, s.len() as int),
        num(s.take(k)) >= 0,
    ensures
        num(s) >= num(s.take(k)) * pow10((s.len() - k) as nat),
    decreases s.len() - k,
{
    if k == s.len() {
        assert(s.take(k) =~= s);
    } else {
        let t = s.drop_last();
        assert(forall|i: int| 0 <= i < t.len() ==> t[i] == #[trigger] s[i]);
        assert(t.take(k) =~= s.take(k));
        lemma_num_extend(t, k);
        let b = num(s.take(k));
        let p = pow10((s.len() - 1 - k) as nat);
        assert(num(t) >= b * p);
        assert(48 <= s.last() <= 57);
        assert(num(s) == num(t) * 10 + (s.last() - 48));
        assert(num(s) >= num(t) * 10);
        assert(num(t) * 10 >= (b * p) * 10) by (nonlinear_arith)
            requires
                num(t) >= b * p,
        ;
        assert(num(s) >= (b * p) * 10);
        assert((b * p) * 10 == b * (p * 10)) by (nonlinear_arith);
        assert(pow10((s.len() - k) as nat) == 10 * p);
        assert(p * 10 == pow10((s.len() - k) as nat));
        assert(num(s) >= b * pow10((s.len() - k) as nat));
    }
}

/// Reads the decimal field at `[from, to)`: `None` on a non-digit byte or a
/// value that does not fit in a u64.
pub fn parse_num(b: &Vec<u8>, from: usize, to: usize) -> (r: Option<u64>)
    requires
        from <= to <= b@.len(),
    ensures
        r matches Some(v) ==> all_digits(b@, from as int, to as int) && num(
            b@.subrange(from as int, to as int),
        ) == v,
        r is None ==> !(all_digits(b@, from as int, to as int) && num(
            b@.subrange(from as int, to as int),
        ) <= u64::MAX),
{
    let ghost f = b@.subrange(from as int, to as int);
    let mut acc: u64 = 0;
    let mut i: usize = from;
    while i < to
        invariant
            from <= i <= to <= b@.len(),
            f == b@.subrange(from as int, to as int),
            all_digits(b@, from as int, i as int),
            acc == num(b@.subrange(from as int, i as int)),
        decreases to - i,
    {
        let c = b[i];
        if c < 48 || c > 57 {
            assert(!all_digits(b@, from as int, to as int));
            return None;
        }
        let d = (c - 48) as u64;
        proof {
            assert(b@.subrange(from as int, i + 1).drop_last() =~= b@.subrange(
                from as int,
                i as int,
            ));
            assert(b@.subrange(from as int, i + 1).last() == b@[i as int]);
        }
        if acc > (u64::MAX - d) / 10 {
            proof {
                let g = i as int;
                assert(num(b@.subrange(from as int, g + 1)) == acc * 10 + d);
                assert(acc * 10 + d > u64::MAX);
                if all_digits(b@, from as int, to as int) {
                    assert(f.take(g + 1 - from) =~= b@.subrange(from as int, g + 1));
                    assert(forall|j: int|
                        g + 1 - from <= j < f.len() ==> 48 <= #[trigger] f[j] <= 57);
                    lemma_num_extend(f, g + 1 - from);
                    lemma_pow10_pos((f.len() - (g + 1 - from)) as nat);
                    let v1 = num(f.take(g + 1 - from));
                    let p = pow10((f.len() - (g + 1 - from)) as nat);
                    assert(v1 * p >= v1 * 1) by (nonlinear_arith)
                        requires
                            v1 >= 0,
                            p >= 1,
                    ;
                    assert(num(f) > u64::MAX);
                }
            }
            return None;
        }
        acc = acc * 10 + d;
        i = i + 1;
    }
    Some(acc)
}

// Field layout of one record line, as offsets into its 52 bytes:
// year 0..4, '-' 4, month 5..7, '-' 7, day 8..10, 'T' 10, hour 11..13,
// ':' 13, minute 14..16, ':' 16, second 17..19, '.' 19, nanos 20..29,
// 'Z' 29, ' ' 30, id 31..51, '\n' 51.

/// The bytes of one record line.
pub open spec fn rec_bytes(r: FavoriteRecord) -> Seq<u8> {
    pad(r.ts.year as int, 4) + seq![45u8] + pad(r.ts.month as int, 2) + seq![45u8] + pad(
        r.ts.day as int,
        2,
    ) + seq![84u8] + pad(r.ts.hour as int, 2) + seq![58u8] + pad(r.ts.minute as int, 2)
        + seq![58u8] + pad(r.ts.second as int, 2) + seq![46u8] + pad(r.ts.nanos as int, 9)
        + seq![90u8] + seq![32u8] + pad(r.id as int, 20) + seq![10u8]
}

pub proof fn lemma_rec_bytes_len(r: FavoriteRecord)
    ensures
        rec_bytes(r).len() == RECORD_BYTES,
{
    lemma_pad_len(r.ts.year as int, 4);
    lemma_pad_len(r.ts.month as int, 2);
    lemma_pad_len(r.ts.day as int, 2);
    lemma_pad_len(r.ts.hour as int, 2);
    lemma_pad_len(r.ts.minute as int, 2);
    lemma_pad_len(r.ts.second as int, 2);
    lemma_pad_len(r.ts.nanos as int, 9);
    lemma_pad_len(r.id as int, 20);
}

/// What one 52-byte line must look like to denote a record; the denoted
/// record when it does.
pub open spec fn spec_parse_record(c: Seq<u8>) -> Option<FavoriteRecord> {
    if c.len() == RECORD_BYTES && c[4] == 45 && c[7] == 45 && c[10] == 84 && c[13] == 58 && c[16]
        == 58 && c[19] == 46 && c[29] == 90 && c[30] == 32 && c[51] == 10 && all_digits(c, 0, 4)
        && all_digits(c, 5, 7) && all_digits(c, 8, 10) && all_digits(c, 11, 13) && all_digits(
        c,
        14,
        16,
    ) && all_digits(c, 17, 19) && all_digits(c, 20, 29) && all_digits(c, 31, 51) {
        let ts = Timestamp {
            year: num(c.subrange(0, 4)) as u32,
            month: num(c.subrange(5, 7)) as u8,
            day: num(c.subrange(8, 10)) as u8,
            hour: num(c.subrange(11, 13)) as u8,
            minute: num(c.subrange(14, 16)) as u8,
            second: num(c.subrange(17, 19)) as u8,
            nanos: num(c.subrange(20, 29)) as u32,
        };
        if ts.wf() && num(c.subrange(31, 51)) <= u64::MAX {
            Some(FavoriteRecord { ts, id: num(c.subrange(31, 51)) as u64 })
        } else {
            None
        }
    } else {
        None
    }
}

/// `o` with the record `r` in front, when the order allows it.
pub open spec fn prepend_record(r: FavoriteRecord, o: Option<Seq<FavoriteRecord>>) -> Option<
    Seq<FavoriteRecord>,
> {
    match o {
        Option::None => Option::None,
        Option::Some(rest) => if rest.len() == 0 || r.ts.key() < rest[0].ts.key() {
            Option::Some(seq![r] + rest)
        } else {
            Option::None
        },
    }
}

/// The records a cache file denotes: 52-byte lines, each a record, in
/// strictly ascending timestamp order; `None` for anything else.
pub open spec fn spec_parse(b: Seq<u8>) -> Option<Seq<FavoriteRecord>>
    decreases b.len(),
{
    if b.len() == 0 {
        Option::Some(Seq::empty())
    } else if b.len() < RECORD_BYTES {
        Option::None
    } else {
        match spec_parse_record(b.take(RECORD_BYTES as int)) {
            Option::None => Option::None,
            Option::Some(r) => prepend_record(r, spec_parse(b.skip(RECORD_BYTES as int))),
        }
    }
}

/// The serialized form of a sequence of records: their lines in order.
pub open spec fn spec_serialize(s: Seq<FavoriteRecord>) -> Seq<u8>
    decreases s.len(),
{
    if s.len() == 0 {
        Seq::empty()
    } else {
        rec_bytes(s[0]) + spec_serialize(s.drop_first())
    }
}

pub proof fn lemma_serialize_push(s: Seq<FavoriteRecord>, r: FavoriteRecord)
    ensures
        spec_serialize(s.push(r)) == spec_serialize(s) + rec_bytes(r),
    decreases s.len(),
{
    if s.len() == 0 {
        assert(s.push(r)[0] == r);
        assert(s.push(r).drop_first() =~= Seq::<FavoriteRecord>::empty());
        assert(spec_serialize(s.push(r)) == rec_bytes(r) + spec_serialize(
            Seq::<FavoriteRecord>::empty(),
        ));
        assert(rec_bytes(r) + Seq::<u8>::empty() =~= Seq::<u8>::empty() + rec_bytes(r));
    } else {
        assert(s.push(r)[0] == s[0]);
        assert(s.push(r).drop_first() =~= s.drop_first().push(r));
        lemma_serialize_push(s.drop_first(), r);
        assert(spec_serialize(s.push(r)) == rec_bytes(s[0]) + (spec_serialize(s.drop_first())
            + rec_bytes(r)));
        assert(rec_bytes(s[0]) + (spec_serialize(s.drop_first()) + rec_bytes(r)) =~= (rec_bytes(
            s[0],
        ) + spec_serialize(s.drop_first())) + rec_bytes(r));
    }
}

/// Appends `n` as exactly `w` zero-padded decimal digits.
fn push_padded(out: &mut Vec<u8>, n: u64, w: usize)
    ensures
        final(out)@ == old(out)@ + pad(n as int, w as nat),
    decreases w,
{
    if w == 0 {
        proof {
            assert(out@ =~= out@ + pad(n as int, 0));
        }
    } else {
        push_padded(out, n / 10, w - 1);
        out.push(48 + (n % 10) as u8);
        proof {
            assert(out@ =~= old(out)@ + pad(n as int, w as nat));
        }
    }
}

/// Appends the 52-byte line of one record.
fn push_record(out: &mut Vec<u8>, rec: &FavoriteRecord)
    ensures
        final(out)@ == old(out)@ + rec_bytes(*rec),
{
    push_padded(out, rec.ts.year as u64, 4);
    out.push(45);
    push_padded(out, rec.ts.month as u64, 2);
    out.push(45);
    push_padded(out, rec.ts.day as u64, 2);
    out.push(84);
    push_padded(out, rec.ts.hour as u64, 2);
    out.push(58);
    push_padded(out, rec.ts.minute as u64, 2);
    out.push(58);
    push_padded(out, rec.ts.second as u64, 2);
    out.push(46);
    push_padded(out, rec.ts.nanos as u64, 9);
    out.push(90);
    out.push(32);
    push_padded(out, rec.id, 20);
    out.push(10);
    proof {
        assert(out@ =~= old(out)@ + rec_bytes(*rec));
    }
}

/// The cache file's bytes for an index.
pub fn serialize_index(idx: &FavoriteIndex) -> (r: Vec<u8>)
    requires
        idx.wf(),
    ensures
        r@ == spec_serialize(idx@),
{
    let mut out: Vec<u8> = Vec::new();
    let mut i: usize = 0;
    while i < idx.len()
        invariant
            i <= idx@.len(),
            out@ == spec_serialize(idx@.take(i as int)),
            idx.wf(),
        decreases idx@.len() - i,
    {
        let rec = idx.record_at(i);
        proof {
            assert(idx@.take(i + 1) =~= idx@.take(i as int).push(idx@[i as int]));
            lemma_serialize_push(idx@.take(i as int), idx@[i as int]);
        }
        push_record(&mut out, &rec);
        i = i + 1;
    }
    proof {
        assert(idx@.take(idx@.len() as int) =~= idx@);
    }
    out
}


/// Field-window equalities between the whole buffer and one record line.
proof fn lemma_field_window(b: Seq<u8>, pos: int, a: int, e: int)
    requires
        0 <= pos,
        pos + RECORD_BYTES <= b.len(),
        0 <= a <= e <= RECORD_BYTES,
    ensures
        b.subrange(pos, pos + RECORD_BYTES).subrange(a, e) == b.subrange(pos + a, pos + e),
        all_digits(b.subrange(pos, pos + RECORD_BYTES), a, e) == all_digits(b, pos + a, pos + e),
        all_digits(b.subrange(pos + a, pos + e), 0, e - a) == all_digits(b, pos + a, pos + e),
{
    let c = b.subrange(pos, pos + RECORD_BYTES);
    let f = b.subrange(pos + a, pos + e);
    assert(c.subrange(a, e) =~= f);
    assert(forall|i: int| 0 <= i < RECORD_BYTES ==> #[trigger] c[i] == b[pos + i]);
    assert(forall|i: int| 0 <= i < e - a ==> #[trigger] f[i] == b[pos + a + i]);
    if all_digits(c, a, e) {
        assert forall|i: int| pos + a <= i < pos + e implies 48 <= #[trigger] b[i] <= 57 by {
            assert(c[i - pos] == b[i]);
        }
    }
    if all_digits(b, pos + a, pos + e) {
        assert forall|i: int| a <= i < e implies 48 <= #[trigger] c[i] <= 57 by {
            assert(c[i] == b[pos + i]);
        }
        assert forall|i: int| 0 <= i < e - a implies 48 <= #[trigger] f[i] <= 57 by {
            assert(f[i] == b[pos + a + i]);
        }
    }
    if all_digits(f, 0, e - a) {
        assert forall|i: int| pos + a <= i < pos + e implies 48 <= #[trigger] b[i] <= 57 by {
            assert(f[i - pos - a] == b[i]);
        }
    }
}

/// Reads the single record line starting at `pos`.
fn parse_record(b: &Vec<u8>, pos: usize) -> (r: Option<FavoriteRecord>)
    requires
        pos + RECORD_BYTES <= b@.len(),
    ensures
        r == spec_parse_record(b@.subrange(pos as int, pos as int + RECORD_BYTES)),
{
    let ghost c = b@.subrange(pos as int, pos as int + RECORD_BYTES);
    proof {
        assert(forall|i: int| 0 <= i < RECORD_BYTES ==> #[trigger] c[i] == b@[pos + i]);
        assert(c.subrange(0, 4) =~= b@.subrange(pos as int, pos + 4));
        assert(c.subrange(5, 7) =~= b@.subrange(pos + 5, pos + 7));
        assert(c.subrange(8, 10) =~= b@.subrange(pos + 8, pos + 10));
        assert(c.subrange(11, 13) =~= b@.subrange(pos + 11, pos + 13));
        assert(c.subrange(14, 16) =~= b@.subrange(pos + 14, pos + 16));
        assert(c.subrange(17, 19) =~= b@.subrange(pos + 17, pos + 19));
        assert(c.subrange(20, 29) =~= b@.subrange(pos + 20, pos + 29));
        assert(c.subrange(31, 51) =~= b@.subrange(pos + 31, pos + 51));
    }
    let n = b.len();
    assert(pos + RECORD_BYTES <= n);
    if !(b[pos + 4] == 45 && b[pos + 7] == 45 && b[pos + 10] == 84 && b[pos + 13] == 58
        && b[pos + 16] == 58 && b[pos + 19] == 46 && b[pos + 29] == 90 && b[pos + 30] == 32
        && b[pos + 51] == 10) {
        return None;
    }
    let year_v = match parse_num(b, pos, pos + 4) {
        Some(v) => v,
        None => {
            proof {
                lemma_field_window(b@, pos as int, 0, 4);
                if all_digits(c, 0, 4) {
                    lemma_small_field(b@.subrange(pos + 0, pos + 4));
                }
            }
            return None;
        },
    };
    let month_v = match parse_num(b, pos + 5, pos + 7) {
        Some(v) => v,
        None => {
            proof {
                lemma_field_window(b@, pos as int, 5, 7);
                if all_digits(c, 5, 7) {
                    lemma_small_field(b@.subrange(pos + 5, pos + 7));
                }
            }
            return None;
        },
    };
    let day_v = match parse_num(b, pos + 8, pos + 10) {
        Some(v) => v,
        None => {
            proof {
                lemma_field_window(b@, pos as int, 8, 10);
                if all_digits(c, 8, 10) {
                    lemma_small_field(b@.subrange(pos + 8, pos + 10));
                }
            }
            return None;
        },
    };
    let hour_v = match parse_num(b, pos + 11, pos + 13) {
        Some(v) => v,
        None => {
            proof {
                lemma_field_window(b@, pos as int, 11, 13);
                if all_digits(c, 11, 13) {
                    lemma_small_field(b@.subrange(pos + 11, pos + 13));
                }
            }
            return None;
        },
    };
    let minute_v = match parse_num(b, pos + 14, pos + 16) {
        Some(v) => v,
        None => {
            proof {
                lemma_field_window(b@, pos as int, 14, 16);
                if all_digits(c, 14, 16) {
                    lemma_small_field(b@.subrange(pos + 14, pos + 16));
                }
            }
            return None;
        },
    };
    let second_v = match parse_num(b, pos + 17, pos + 19) {
        Some(v) => v,
        None => {
            proof {
                lemma_field_window(b@, pos as int, 17, 19);
                if all_digits(c, 17, 19) {
                    lemma_small_field(b@.subrange(pos + 17, pos + 19));
                }
            }
            return None;
        },
    };
    let nanos_v = match parse_num(b, pos + 20, pos + 29) {
        Some(v) => v,
        None => {
            proof {
                lemma_field_window(b@, pos as int, 20, 29);
                if all_digits(c, 20, 29) {
                    lemma_small_field(b@.subrange(pos + 20, pos + 29));
                }
            }
            return None;
        },
    };
    let id_v = match parse_num(b, pos + 31, pos + 51) {
        Some(v) => v,
        None => {
            proof {
                lemma_field_window(b@, pos as int, 31, 51);
            }
            return None;
        },
    };
    proof {
        lemma_field_window(b@, pos as int, 0, 4);
        lemma_field_window(b@, pos as int, 5, 7);
        lemma_field_window(b@, pos as int, 8, 10);
        lemma_field_window(b@, pos as int, 11, 13);
        lemma_field_window(b@, pos as int, 14, 16);
        lemma_field_window(b@, pos as int, 17, 19);
        lemma_field_window(b@, pos as int, 20, 29);
        lemma_field_window(b@, pos as int, 31, 51);
        lemma_num_bounds(c.subrange(0, 4));
        lemma_num_bounds(c.subrange(5, 7));
        lemma_num_bounds(c.subrange(8, 10));
        lemma_num_bounds(c.subrange(11, 13));
        lemma_num_bounds(c.subrange(14, 16));
        lemma_num_bounds(c.subrange(17, 19));
        lemma_num_bounds(c.subrange(20, 29));
        assert(pow10(4) == 10000) by {
            reveal_with_fuel(pow10, 5);
        }
        assert(pow10(2) == 100) by {
            reveal_with_fuel(pow10, 3);
        }
        assert(pow10(9) == 1000000000) by {
            reveal_with_fuel(pow10, 10);
        }
    }
    let ts = Timestamp {
        year: year_v as u32,
        month: month_v as u8,
        day: day_v as u8,
        hour: hour_v as u8,
        minute: minute_v as u8,
        second: second_v as u8,
        nanos: nanos_v as u32,
    };
    if crate::timestamp::is_well_formed(&ts) {
        Some(FavoriteRecord { ts, id: id_v })
    } else {
        None
    }
}

/// A field at most ten digits wide always fits in a u64.
proof fn lemma_small_field(s: Seq<u8>)
    requires
        s.len() <= 10,
        all_digits(s, 0, s.len() as int),
    ensures
        num(s) <= u64::MAX,
{
    lemma_num_bounds(s);
    lemma_pow10_mono(s.len() as nat, 10);
    assert(pow10(10) == 10000000000) by {
        reveal_with_fuel(pow10, 11);
    }
}

proof fn lemma_pow10_mono(a: nat, b: nat)
    requires
        a <= b,
    ensures
        pow10(a) <= pow10(b),
    decreases b,
{
    if a < b {
        lemma_pow10_mono(a, (b - 1) as nat);
        lemma_pow10_pos((b - 1) as nat);
    }
}

/// One digit segment of a record line: the bytes there are the padded
/// digits of `v`, so they read back as `v`.
proof fn lemma_segment(c: Seq<u8>, a: int, v: int, w: nat)
    requires
        0 <= a,
        a + w <= c.len(),
        c.subrange(a, a + w) == pad(v, w),
        0 <= v < pow10(w),
    ensures
        all_digits(c, a, a + w),
        num(c.subrange(a, a + w)) == v,
{
    lemma_pad_digits(v, w);
    lemma_pad_len(v, w);
    lemma_num_pad(v, w);
    let p = pad(v, w);
    assert forall|i: int| a <= i < a + w implies 48 <= #[trigger] c[i] <= 57 by {
        assert(c.subrange(a, a + w)[i - a] == c[i]);
        assert(p[i - a] == c[i]);
    }
}

/// One record's own line parses back to exactly that record.
pub proof fn lemma_rec_bytes_roundtrip(r: FavoriteRecord)
    requires
        r.ts.wf(),
    ensures
        spec_parse_record(rec_bytes(r)) == Some(r),
{
    let c = rec_bytes(r);
    lemma_rec_bytes_len(r);
    lemma_pad_len(r.ts.year as int, 4);
    lemma_pad_len(r.ts.month as int, 2);
    lemma_pad_len(r.ts.day as int, 2);
    lemma_pad_len(r.ts.hour as int, 2);
    lemma_pad_len(r.ts.minute as int, 2);
    lemma_pad_len(r.ts.second as int, 2);
    lemma_pad_len(r.ts.nanos as int, 9);
    lemma_pad_len(r.id as int, 20);
    assert(c.subrange(0, 4) =~= pad(r.ts.year as int, 4));
    assert(c.subrange(5, 7) =~= pad(r.ts.month as int, 2));
    assert(c.subrange(8, 10) =~= pad(r.ts.day as int, 2));
    assert(c.subrange(11, 13) =~= pad(r.ts.hour as int, 2));
    assert(c.subrange(14, 16) =~= pad(r.ts.minute as int, 2));
    assert(c.subrange(17, 19) =~= pad(r.ts.second as int, 2));
    assert(c.subrange(20, 29) =~= pad(r.ts.nanos as int, 9));
    assert(c.subrange(31, 51) =~= pad(r.id as int, 20));
    assert(c[4] == 45 && c[7] == 45 && c[10] == 84 && c[13] == 58 && c[16] == 58 && c[19] == 46
        && c[29] == 90 && c[30] == 32 && c[51] == 10);
    assert(pow10(4) == 10000) by {
        reveal_with_fuel(pow10, 5);
    }
    assert(pow10(2) == 100) by {
        reveal_with_fuel(pow10, 3);
    }
    assert(pow10(9) == 1000000000) by {
        reveal_with_fuel(pow10, 10);
    }
    assert(pow10(20) == 100000000000000000000) by {
        reveal_with_fuel(pow10, 21);
    }
    lemma_segment(c, 0, r.ts.year as int, 4);
    lemma_segment(c, 5, r.ts.month as int, 2);
    lemma_segment(c, 8, r.ts.day as int, 2);
    lemma_segment(c, 11, r.ts.hour as int, 2);
    lemma_segment(c, 14, r.ts.minute as int, 2);
    lemma_segment(c, 17, r.ts.second as int, 2);
    lemma_segment(c, 20, r.ts.nanos as int, 9);
    lemma_segment(c, 31, r.id as int, 20);
}

/// Sorted entries already taken, against what the rest of the file holds.
pub open spec fn opt_concat(s: Seq<FavoriteRecord>, o: Option<Seq<FavoriteRecord>>) -> Option<
    Seq<FavoriteRecord>,
> {
    match o {
        Option::None => Option::None,
        Option::Some(t) => if s.len() == 0 || t.len() == 0 || s.last().ts.key() < t[0].ts.key() {
            Option::Some(s + t)
        } else {
            Option::None
        },
    }
}

/// Taking one ordered record off the remainder and pushing it onto the
/// prefix commutes with gluing the two.
proof fn lemma_opt_push(s: Seq<FavoriteRecord>, r: FavoriteRecord, o: Option<Seq<FavoriteRecord>>)
    requires
        s.len() == 0 || s.last().ts.key() < r.ts.key(),
    ensures
        opt_concat(s, prepend_record(r, o)) == opt_concat(s.push(r), o),
{
    match o {
        Option::None => {
        },
        Option::Some(t) => {
            assert(s.push(r).last() == r);
            if t.len() == 0 {
                assert((seq![r] + t)[0] == r);
                assert(s + (seq![r] + t) =~= s.push(r) + t);
            } else if r.ts.key() < t[0].ts.key() {
                assert((seq![r] + t)[0] == r);
                assert(s + (seq![r] + t) =~= s.push(r) + t);
            } else {
            }
        },
    }
}

/// Reads a whole cache file: `Some` exactly when the bytes are a valid
/// file — fixed-width record lines in strictly ascending timestamp order —
/// and then the index it denotes. Anything else is corrupt.
pub fn parse_index(b: &Vec<u8>) -> (r: Option<FavoriteIndex>)
    ensures
        r matches Some(idx) ==> idx.wf() && spec_parse(b@) == Some(idx@),
        r is None ==> spec_parse(b@) is None,
{
    let n = b.len();
    let mut entries: Vec<FavoriteRecord> = Vec::new();
    let mut pos: usize = 0;
    proof {
        assert(b@.skip(0) =~= b@);
        match spec_parse(b@) {
            Option::None => {
            },
            Option::Some(t) => {
                assert(Seq::<FavoriteRecord>::empty() + t =~= t);
            },
        }
    }
    while n - pos >= RECORD_BYTES
        invariant
            pos <= n == b@.len(),
            sorted_wf(entries@),
            spec_parse(b@) == opt_concat(entries@, spec_parse(b@.skip(pos as int))),
        decreases n - pos,
    {
        let ghost tail = b@.skip(pos as int);
        proof {
            assert(tail.len() == n - pos);
            assert(tail.take(RECORD_BYTES as int) =~= b@.subrange(
                pos as int,
                pos as int + RECORD_BYTES,
            ));
            assert(tail.skip(RECORD_BYTES as int) =~= b@.skip(pos as int + RECORD_BYTES));
        }
        let rec_opt = parse_record(b, pos);
        match rec_opt {
            None => {
                assert(spec_parse(tail) is None);
                return None;
            },
            Some(rec) => {
                let ghost rest = spec_parse(b@.skip(pos as int + RECORD_BYTES));
                proof {
                    assert(rec.ts.wf());
                    assert(spec_parse(tail) == prepend_record(rec, rest));
                }
                if entries.len() > 0 && !ts_before(&entries[entries.len() - 1].ts, &rec.ts) {
                    proof {
                        match rest {
                            Option::None => {
                            },
                            Option::Some(t) => {
                                if t.len() == 0 || rec.ts.key() < t[0].ts.key() {
                                    assert((seq![rec] + t)[0] == rec);
                                }
                            },
                        }
                        assert(spec_parse(b@) is None);
                    }
                    return None;
                }
                proof {
                    lemma_opt_push(entries@, rec, rest);
                    let e1 = entries@.push(rec);
                    assert forall|i: int, j: int| 0 <= i < j < e1.len() implies e1[i].ts.key()
                        < e1[j].ts.key() by {
                        if j < e1.len() - 1 {
                            assert(e1[i] == entries@[i] && e1[j] == entries@[j]);
                        } else {
                            assert(e1[j] == rec);
                            if i < e1.len() - 2 {
                                assert(entries@[i].ts.key() < entries@[e1.len() - 2].ts.key());
                            }
                        }
                    }
                    assert(sorted_wf(e1));
                }
                entries.push(rec);
                pos = pos + RECORD_BYTES;
            },
        }
    }
    if pos == n {
        proof {
            assert(b@.skip(pos as int) =~= Seq::<u8>::empty());
            assert(spec_parse(b@.skip(pos as int)) == Some(Seq::<FavoriteRecord>::empty()));
            assert(entries@ + Seq::<FavoriteRecord>::empty() =~= entries@);
        }
        Some(FavoriteIndex { entries })
    } else {
        proof {
            let tail = b@.skip(pos as int);
            assert(0 < tail.len() < RECORD_BYTES);
            assert(spec_parse(tail) is None);
        }
        None
    }
}

/// Round trip: the serialized bytes of a well-formed, sorted record
/// sequence parse back to exactly that sequence — same (timestamp, id)
/// pairs, same order, sub-second precision preserved.
#[verifier::rlimit(60)]
pub proof fn lemma_serialize_parse_roundtrip(s: Seq<FavoriteRecord>)
    requires
        sorted_wf(s),
    ensures
        spec_parse(spec_serialize(s)) == Some(s),
    decreases s.len(),
{
    if s.len() == 0 {
    } else {
        let b = spec_serialize(s);
        let r0 = s[0];
        let rest = s.drop_first();
        assert(forall|i: int| 0 <= i < rest.len() ==> rest[i] == s[i + 1]);
        lemma_rec_bytes_len(r0);
        assert(b == rec_bytes(r0) + spec_serialize(rest));
        assert(b.take(RECORD_BYTES as int) =~= rec_bytes(r0));
        assert(b.skip(RECORD_BYTES as int) =~= spec_serialize(rest));
        lemma_rec_bytes_roundtrip(r0);
        lemma_serialize_parse_roundtrip(rest);
        if rest.len() > 0 {
            assert(r0.ts.key() < rest[0].ts.key());
        }
        assert((seq![r0] + rest)[0] == r0);
        assert(seq![r0] + rest =~= s);
    }
}

/// What the cache store must do at the end of a run.
pub enum PersistAction {
    /// The residual index is empty: delete the cache file, so the next run
    /// refetches everything and recreates it.
    RemoveFile,
    /// Overwrite the cache file with these bytes.
    WriteFile(Vec<u8>),
}

/// Decide the end-of-run persistence step: remove the file when the
/// residual is empty, else write the residual's serialized bytes.
pub fn persist_action(idx: &FavoriteIndex) -> (r: PersistAction)
    requires
        idx.wf(),
    ensures
        (idx@.len() == 0) == (r is RemoveFile),
        r matches PersistAction::WriteFile(b) ==> b@ == spec_serialize(idx@),
{
    if idx.is_empty() {
        PersistAction::RemoveFile
    } else {
        PersistAction::WriteFile(serialize_index(idx))
    }
}

} // verus!
