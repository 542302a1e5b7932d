//! The persisted form of a cursor: a canonical JSON record
//! `{"position":<u64>,"epoch_us":<u64>,"writer":"<string>"}`, rendered and
//! parsed by the library itself so that both directions carry exact
//! contracts. Writer strings may hold any character except control
//! characters, double quotes and backslashes; a writer outside that set is
//! refused as unencodable rather than escaped.

use vstd::prelude::*;
use vstd::string::StrSliceExecFns;

verus! {

/// A decimal digit.
pub open spec fn is_digit(c: char) -> bool {
    '0' <= c && c <= '9'
}

/// The numeric value of a digit character.
pub open spec fn digit_val(c: char) -> int {
    (c as u32) - 48
}

/// The digit character of a value below ten.
pub open spec fn digit_char(d: int) -> char {
    if d == 0 {
        '0'
    } else if d == 1 {
        '1'
    } else if d == 2 {
        '2'
    } else if d == 3 {
        '3'
    } else if d == 4 {
        '4'
    } else if d == 5 {
        '5'
    } else if d == 6 {
        '6'
    } else if d == 7 {
        '7'
    } else if d == 8 {
        '8'
    } else {
        '9'
    }
}

/// The canonical decimal rendering of a number: no sign, no leading zero.
pub open spec fn dec_rep(n: nat) -> Seq<char>
    decreases n,
{
    if n < 10 {
        seq![digit_char(n as int)]
    } else {
        dec_rep(n / 10).push(digit_char((n % 10) as int))
    }
}

/// The numeric value of a digit string.
pub open spec fn val(ds: Seq<char>) -> int
    decreases ds.len(),
{
    if ds.len() == 0 {
        0
    } else {
        val(ds.drop_last()) * 10 + digit_val(ds.last())
    }
}

pub proof fn lemma_val_nonneg(ds: Seq<char>)
    requires
        forall|i: int| 0 <= i < ds.len() ==> is_digit(#[trigger] ds[i]),
    ensures
        val(ds) >= 0,
    decreases ds.len(),
{
    if ds.len() > 0 {
        lemma_val_nonneg(ds.drop_last());
    }
}

/// A digit string is worth at least any of its leading parts.
pub proof fn lemma_val_prefix_le(ds: Seq<char>, k: int)
    requires
        forall|i: int| 0 <= i < ds.len() ==> is_digit(#[trigger] ds[i]),
        0 <= k <= ds.len(),
    ensures
        val(ds.take(k)) <= val(ds),
    decreases ds.len() - k,
{
    if k == ds.len() {
        assert(ds.take(k) =~= ds);
    } else {
        assert(ds.take(k + 1).drop_last() =~= ds.take(k));
        lemma_val_nonneg(ds.take(k));
        lemma_val_prefix_le(ds, k + 1);
    }
}

/// The canonical rendering is made of digits and is worth the number itself.
pub proof fn lemma_dec_rep_props(n: nat)
    ensures
        dec_rep(n).len() >= 1,
        forall|i: int| 0 <= i < dec_rep(n).len() ==> is_digit(#[trigger] dec_rep(n)[i]),
        val(dec_rep(n)) == n,
    decreases n,
{
    if n < 10 {
        let ds = dec_rep(n);
        assert(ds.len() == 1);
        assert(ds.last() == digit_char(n as int));
        assert(ds.drop_last() =~= Seq::<char>::empty());
        assert(val(Seq::<char>::empty()) == 0);
        assert(digit_val(digit_char(n as int)) == n);
        assert(is_digit(digit_char(n as int)));
    } else {
        lemma_dec_rep_props(n / 10);
        let ds = dec_rep(n);
        assert(ds.drop_last() =~= dec_rep(n / 10));
        assert(digit_val(digit_char((n % 10) as int)) == n % 10);
        assert(is_digit(digit_char((n % 10) as int)));
        assert(val(ds) == (n / 10) * 10 + n % 10);
    }
}

/// A character a writer identity may hold: no control characters, no double
/// quote, no backslash.
pub open spec fn is_writer_char(c: char) -> bool {
    (c as u32) >= 32 && c != '"' && c != '\\'
}

/// A writer identity the canonical record can hold verbatim.
pub open spec fn writer_encodable(w: Seq<char>) -> bool {
    forall|i: int| 0 <= i < w.len() ==> is_writer_char(#[trigger] w[i])
}

/// The canonical JSON record of a cursor.
pub open spec fn cursor_json(p: nat, e: nat, w: Seq<char>) -> Seq<char> {
    "{\"position\":"@ + dec_rep(p) + ",\"epoch_us\":"@ + dec_rep(e) + ",\"writer\":\""@ + w
        + "\"}"@
}

/// Where each piece of the canonical record lies.
pub proof fn lemma_cursor_json_structure(p: nat, e: nat, w: Seq<char>)
    ensures
        ({
            let s = cursor_json(p, e, w);
            let d1 = dec_rep(p).len() as int;
            let d2 = dec_rep(e).len() as int;
            &&& d1 >= 1 && d2 >= 1
            &&& s.len() == 37 + d1 + d2 + w.len()
            &&& s.subrange(0, 12) == "{\"position\":"@
            &&& s.subrange(12, 12 + d1) == dec_rep(p)
            &&& s.subrange(12 + d1, 24 + d1) == ",\"epoch_us\":"@
            &&& s.subrange(24 + d1, 24 + d1 + d2) == dec_rep(e)
            &&& s.subrange(24 + d1 + d2, 35 + d1 + d2) == ",\"writer\":\""@
            &&& s.subrange(35 + d1 + d2, 35 + d1 + d2 + w.len()) == w
            &&& s.subrange(35 + d1 + d2 + w.len(), s.len() as int) == "\"}"@
            &&& forall|i: int| 0 <= i < d1 ==> is_digit(#[trigger] dec_rep(p)[i])
            &&& forall|i: int| 0 <= i < d2 ==> is_digit(#[trigger] dec_rep(e)[i])
            &&& val(dec_rep(p)) == p
            &&& val(dec_rep(e)) == e
            &&& !is_digit(s[12 + d1])
            &&& !is_digit(s[24 + d1 + d2])
            &&& forall|i: int| 0 <= i < w.len() ==> s[35 + d1 + d2 + i] == w[i]
            &&& s[35 + d1 + d2 + w.len()] == '"'
        }),
{
    reveal_strlit("{\"position\":");
    reveal_strlit(",\"epoch_us\":");
    reveal_strlit(",\"writer\":\"");
    reveal_strlit("\"}");
    lemma_dec_rep_props(p);
    lemma_dec_rep_props(e);
    let s = cursor_json(p, e, w);
    let d1 = dec_rep(p).len() as int;
    let d2 = dec_rep(e).len() as int;
    assert(s.subrange(0, 12) =~= "{\"position\":"@);
    assert(s.subrange(12, 12 + d1) =~= dec_rep(p));
    assert(s.subrange(12 + d1, 24 + d1) =~= ",\"epoch_us\":"@);
    assert(s.subrange(24 + d1, 24 + d1 + d2) =~= dec_rep(e));
    assert(s.subrange(24 + d1 + d2, 35 + d1 + d2) =~= ",\"writer\":\""@);
    assert(s.subrange(35 + d1 + d2, 35 + d1 + d2 + w.len()) =~= w);
    assert(s.subrange(35 + d1 + d2 + w.len(), s.len() as int) =~= "\"}"@);
    assert(s[12 + d1] == ',');
    assert(s[24 + d1 + d2] == ',');
    assert(s[35 + d1 + d2 + w.len()] == '"');
}

/// The digit character of one value below ten.
fn digit_str(d: u64) -> (r: &'static str)
    requires
        d < 10,
    ensures
        r@ == seq![digit_char(d as int)],
{
    proof {
        reveal_strlit("0");
        reveal_strlit("1");
        reveal_strlit("2");
        reveal_strlit("3");
        reveal_strlit("4");
        reveal_strlit("5");
        reveal_strlit("6");
        reveal_strlit("7");
        reveal_strlit("8");
        reveal_strlit("9");
    }
    let r = if d == 0 {
        "0"
    } else if d == 1 {
        "1"
    } else if d == 2 {
        "2"
    } else if d == 3 {
        "3"
    } else if d == 4 {
        "4"
    } else if d == 5 {
        "5"
    } else if d == 6 {
        "6"
    } else if d == 7 {
        "7"
    } else if d == 8 {
        "8"
    } else {
        "9"
    };
    proof {
        assert(r@ =~= seq![digit_char(d as int)]);
    }
    r
}

/// Renders a number in canonical decimal.
pub fn u64_to_dec(n: u64) -> (r: String)
    ensures
        r@ == dec_rep(n as nat),
    decreases n,
{
    if n < 10 {
        digit_str(n).to_owned()
    } else {
        let mut s = u64_to_dec(n / 10);
        s.append(digit_str(n % 10));
        proof {
            assert(s@ =~= dec_rep(n as nat));
        }
        s
    }
}

/// Checks that a writer identity fits the canonical record verbatim.
pub fn writer_fits(w: &str) -> (r: bool)
    ensures
        r == writer_encodable(w@),
{
    let n = w.unicode_len();
    let mut i: usize = 0;
    while i < n
        invariant
            0 <= i <= n,
            n == w@.len(),
            forall|j: int| 0 <= j < i ==> is_writer_char(#[trigger] w@[j]),
        decreases n - i,
    {
        let c = w.get_char(i);
        if !((c as u32) >= 32 && c != '"' && c != '\\') {
            return false;
        }
        i = i + 1;
    }
    true
}

/// Renders the canonical record; none when the writer cannot be held
/// verbatim.
pub fn encode_cursor(position: u64, epoch_us: u64, writer: &str) -> (r: Option<String>)
    ensures
        r is Some <==> writer_encodable(writer@),
        r matches Some(s) ==> s@ == cursor_json(position as nat, epoch_us as nat, writer@),
{
    if !writer_fits(writer) {
        return None;
    }
    let mut s = String::from_str("{\"position\":");
    let p = u64_to_dec(position);
    s.append(p.as_str());
    s.append(",\"epoch_us\":");
    let e = u64_to_dec(epoch_us);
    s.append(e.as_str());
    s.append(",\"writer\":\"");
    s.append(writer);
    s.append("\"}");
    proof {
        assert(s@ =~= cursor_json(position as nat, epoch_us as nat, writer@));
    }
    Some(s)
}


/// True when some canonical cursor record equals `s`.
pub open spec fn matches_record(s: Seq<char>) -> bool {
    exists|p: u64, e: u64, w: Seq<char>|
        writer_encodable(w) && s == cursor_json(p as nat, e as nat, w)
}

/// A maximal digit run at `start` with a non-digit right after it ends
/// exactly there.
proof fn lemma_digit_run_extent(s: Seq<char>, start: int, dlen: int, end: int)
    requires
        0 <= start,
        0 <= dlen,
        start + dlen < s.len(),
        forall|i: int| 0 <= i < dlen ==> is_digit(#[trigger] s[start + i]),
        !is_digit(s[start + dlen]),
        start <= end <= s.len(),
        forall|i: int| start <= i < end ==> is_digit(#[trigger] s[i]),
        end < s.len() ==> !is_digit(s[end]),
    ensures
        end == start + dlen,
{
    if end < start + dlen {
        assert(is_digit(s[start + (end - start)]));
    }
    if end > start + dlen {
        assert(is_digit(s[start + dlen]));
    }
}

/// True when `lit` occurs in `s` at `pos`.
fn match_lit(s: &str, pos: usize, lit: &str) -> (r: bool)
    requires
        pos <= s@.len(),
    ensures
        r <==> (pos + lit@.len() <= s@.len() && s@.subrange(pos as int, pos + lit@.len())
            == lit@),
{
    let n = s.unicode_len();
    let m = lit.unicode_len();
    if m > n - pos {
        return false;
    }
    let mut i: usize = 0;
    while i < m
        invariant
            0 <= i <= m,
            m == lit@.len(),
            n == s@.len(),
            pos + m <= n,
            forall|j: int| 0 <= j < i ==> s@[pos + j] == lit@[j],
        decreases m - i,
    {
        if s.get_char(pos + i) != lit.get_char(i) {
            proof {
                assert(s@.subrange(pos as int, pos + m as int)[i as int] == s@[pos + i]);
            }
            return false;
        }
        i = i + 1;
    }
    proof {
        assert(s@.subrange(pos as int, pos + m as int) =~= lit@);
    }
    true
}

/// The end of the run of digits starting at `pos`.
fn scan_digits(s: &str, pos: usize) -> (end: usize)
    requires
        pos <= s@.len(),
    ensures
        pos <= end <= s@.len(),
        forall|i: int| pos <= i < end ==> is_digit(#[trigger] s@[i]),
        end < s@.len() ==> !is_digit(s@[end as int]),
{
    let n = s.unicode_len();
    let mut i: usize = pos;
    while i < n
        invariant
            pos <= i <= n,
            n == s@.len(),
            forall|j: int| pos <= j < i ==> is_digit(#[trigger] s@[j]),
        decreases n - i,
    {
        let c = s.get_char(i);
        let code = c as u32;
        if !(code >= 48 && code <= 57) {
            return i;
        }
        i = i + 1;
    }
    n
}

/// The value of a run of digits; none when it exceeds `u64`.
fn digits_value(s: &str, start: usize, end: usize) -> (r: Option<u64>)
    requires
        start <= end <= s@.len(),
        forall|i: int| start <= i < end ==> is_digit(#[trigger] s@[i]),
    ensures
        r matches Some(v) ==> v as int == val(s@.subrange(start as int, end as int)),
        r is None ==> val(s@.subrange(start as int, end as int)) > u64::MAX,
{
    let ghost ds = s@.subrange(start as int, end as int);
    let mut acc: u64 = 0;
    let mut i: usize = start;
    proof {
        assert(ds.take(0) =~= Seq::<char>::empty());
    }
    while i < end
        invariant
            start <= i <= end <= s@.len(),
            ds == s@.subrange(start as int, end as int),
            forall|j: int| start <= j < end ==> is_digit(#[trigger] s@[j]),
            acc as int == val(ds.take(i - start)),
        decreases end - i,
    {
        let c = s.get_char(i);
        let code = c as u32;
        proof {
            assert(ds[i - start] == s@[i as int]);
            assert(is_digit(s@[i as int]));
        }
        let d = (code - 48) as u64;
        proof {
            assert(ds.take(i - start + 1).drop_last() =~= ds.take(i - start));
            assert(ds.take(i - start + 1).last() == ds[i - start]);
            assert(val(ds.take(i - start + 1)) == (acc as int) * 10 + d);
        }
        if acc > (u64::MAX - d) / 10 {
            proof {
                assert((acc as int) * 10 + d > u64::MAX) by (nonlinear_arith)
                    requires
                        acc as int > (u64::MAX as int - d as int) / 10,
                        0 <= d <= 9,
                        acc >= 0,
                ;
                lemma_val_prefix_le(ds, i - start + 1);
            }
            return None;
        }
        proof {
            assert((acc as int) * 10 <= ((u64::MAX as int - d as int) / 10) * 10 <= u64::MAX as int
                - d as int);
        }
        acc = acc * 10 + d;
        i = i + 1;
    }
    proof {
        assert(ds.take(end - start) =~= ds);
    }
    Some(acc)
}

/// The first double quote at or after `pos`.
fn scan_quote(s: &str, pos: usize) -> (r: Option<usize>)
    requires
        pos <= s@.len(),
    ensures
        r matches Some(q) ==> pos <= q < s@.len() && s@[q as int] == '"' && (forall|i: int|
            pos <= i < q ==> s@[i] != '"'),
        r is None ==> forall|i: int| pos <= i < s@.len() ==> s@[i] != '"',
{
    let n = s.unicode_len();
    let mut i: usize = pos;
    while i < n
        invariant
            pos <= i <= n,
            n == s@.len(),
            forall|j: int| pos <= j < i ==> s@[j] != '"',
        decreases n - i,
    {
        if s.get_char(i) == '"' {
            return Some(i);
        }
        i = i + 1;
    }
    None
}

/// In a canonical record, the first digit run ends exactly where the first
/// number's rendering does.
proof fn lemma_first_extent(sv: Seq<char>, p: u64, e: u64, w: Seq<char>, end: int)
    requires
        writer_encodable(w),
        sv == cursor_json(p as nat, e as nat, w),
        12 <= end <= sv.len(),
        forall|i: int| 12 <= i < end ==> is_digit(#[trigger] sv[i]),
        end < sv.len() ==> !is_digit(sv[end]),
    ensures
        end == 12 + dec_rep(p as nat).len(),
        sv.subrange(12, end) == dec_rep(p as nat),
        val(sv.subrange(12, end)) == p,
{
    lemma_cursor_json_structure(p as nat, e as nat, w);
    let d1 = dec_rep(p as nat).len() as int;
    assert forall|i: int| 0 <= i < d1 implies is_digit(#[trigger] sv[12 + i]) by {
        assert(sv.subrange(12, 12 + d1)[i] == sv[12 + i]);
    }
    lemma_digit_run_extent(sv, 12, d1, end);
}

/// And the second digit run ends exactly where the second number's
/// rendering does.
proof fn lemma_second_extent(sv: Seq<char>, p: u64, e: u64, w: Seq<char>, d1_end: int, end: int)
    requires
        writer_encodable(w),
        sv == cursor_json(p as nat, e as nat, w),
        d1_end == 12 + dec_rep(p as nat).len(),
        d1_end + 12 <= end <= sv.len(),
        forall|i: int| d1_end + 12 <= i < end ==> is_digit(#[trigger] sv[i]),
        end < sv.len() ==> !is_digit(sv[end]),
    ensures
        end == d1_end + 12 + dec_rep(e as nat).len(),
        sv.subrange(d1_end + 12, end) == dec_rep(e as nat),
        val(sv.subrange(d1_end + 12, end)) == e,
{
    lemma_cursor_json_structure(p as nat, e as nat, w);
    let d1 = dec_rep(p as nat).len() as int;
    let d2 = dec_rep(e as nat).len() as int;
    assert forall|i: int| 0 <= i < d2 implies is_digit(#[trigger] sv[24 + d1 + i]) by {
        assert(sv.subrange(24 + d1, 24 + d1 + d2)[i] == sv[24 + d1 + i]);
    }
    lemma_digit_run_extent(sv, 24 + d1, d2, end);
}

/// And the first quote after the writer field's opening quote is the one
/// that closes it.
proof fn lemma_writer_extent(
    sv: Seq<char>,
    p: u64,
    e: u64,
    w: Seq<char>,
    d2_end: int,
    q: int,
)
    requires
        writer_encodable(w),
        sv == cursor_json(p as nat, e as nat, w),
        d2_end == 24 + dec_rep(p as nat).len() + dec_rep(e as nat).len(),
        d2_end + 11 <= q < sv.len(),
        sv[q] == '"',
        forall|i: int| d2_end + 11 <= i < q ==> sv[i] != '"',
    ensures
        q == d2_end + 11 + w.len(),
        sv.subrange(d2_end + 11, q) == w,
        sv.len() == q + 2,
        sv.subrange(q, q + 2) == "\"}"@,
{
    lemma_cursor_json_structure(p as nat, e as nat, w);
    let d1 = dec_rep(p as nat).len() as int;
    let d2 = dec_rep(e as nat).len() as int;
    let w_start = 35 + d1 + d2;
    assert forall|i: int| w_start <= i < w_start + w.len() implies sv[i] != '"' by {
        assert(sv[i] == w[i - w_start]);
        assert(is_writer_char(w[i - w_start]));
    }
    assert(sv[w_start + w.len()] == '"');
    if q < w_start + w.len() {
        assert(sv[q] != '"');
    }
    if q > w_start + w.len() {
        assert(sv[w_start + w.len()] != '"');
    }
    assert(sv.subrange(d2_end + 11, q) =~= w);
    assert(sv.subrange(q, q + 2) =~= "\"}"@);
}

/// Parses the canonical cursor record: the exact inverse of
/// `encode_cursor`. Succeeds exactly on strings some encodable cursor
/// renders to.
pub fn parse_cursor_json(s: &str) -> (r: Option<(u64, u64, String)>)
    ensures
        r matches Some(t) ==> writer_encodable(t.2@) && s@ == cursor_json(
            t.0 as nat,
            t.1 as nat,
            t.2@,
        ),
        matches_record(s@) ==> r is Some,
{
    proof {
        reveal_strlit("{\"position\":");
        reveal_strlit(",\"epoch_us\":");
        reveal_strlit(",\"writer\":\"");
        reveal_strlit("\"}");
    }
    let n = s.unicode_len();
    let ghost sv = s@;
    if !match_lit(s, 0, "{\"position\":") {
        proof {
            assert(!matches_record(sv)) by {
                if matches_record(sv) {
                    let (p, e, w) = choose|p: u64, e: u64, w: Seq<char>|
                        writer_encodable(w) && sv == cursor_json(p as nat, e as nat, w);
                    lemma_cursor_json_structure(p as nat, e as nat, w);
                    assert(false);
                }
            }
        }
        return None;
    }
    let d1_end = scan_digits(s, 12);
    let p_parsed = if d1_end > 12 {
        digits_value(s, 12, d1_end)
    } else {
        None
    };
    let p_val = match p_parsed {
        Some(v) => v,
        None => {
            proof {
                assert(!matches_record(sv)) by {
                    if matches_record(sv) {
                        let (p, e, w) = choose|p: u64, e: u64, w: Seq<char>|
                            writer_encodable(w) && sv == cursor_json(p as nat, e as nat, w);
                        lemma_first_extent(sv, p, e, w, d1_end as int);
                        assert(false);
                    }
                }
            }
            return None;
        },
    };
    if !match_lit(s, d1_end, ",\"epoch_us\":") {
        proof {
            assert(!matches_record(sv)) by {
                if matches_record(sv) {
                    let (p, e, w) = choose|p: u64, e: u64, w: Seq<char>|
                        writer_encodable(w) && sv == cursor_json(p as nat, e as nat, w);
                    lemma_first_extent(sv, p, e, w, d1_end as int);
                    lemma_cursor_json_structure(p as nat, e as nat, w);
                    assert(false);
                }
            }
        }
        return None;
    }
    let e_start = d1_end + 12;
    let d2_end = scan_digits(s, e_start);
    let e_parsed = if d2_end > e_start {
        digits_value(s, e_start, d2_end)
    } else {
        None
    };
    let e_val = match e_parsed {
        Some(v) => v,
        None => {
            proof {
                assert(!matches_record(sv)) by {
                    if matches_record(sv) {
                        let (p, e, w) = choose|p: u64, e: u64, w: Seq<char>|
                            writer_encodable(w) && sv == cursor_json(p as nat, e as nat, w);
                        lemma_first_extent(sv, p, e, w, d1_end as int);
                        lemma_second_extent(sv, p, e, w, d1_end as int, d2_end as int);
                        assert(false);
                    }
                }
            }
            return None;
        },
    };
    if !match_lit(s, d2_end, ",\"writer\":\"") {
        proof {
            assert(!matches_record(sv)) by {
                if matches_record(sv) {
                    let (p, e, w) = choose|p: u64, e: u64, w: Seq<char>|
                        writer_encodable(w) && sv == cursor_json(p as nat, e as nat, w);
                    lemma_first_extent(sv, p, e, w, d1_end as int);
                    lemma_second_extent(sv, p, e, w, d1_end as int, d2_end as int);
                    lemma_cursor_json_structure(p as nat, e as nat, w);
                    assert(false);
                }
            }
        }
        return None;
    }
    let w_start = d2_end + 11;
    let w_end = match scan_quote(s, w_start) {
        Some(q) => q,
        None => {
            proof {
                assert(!matches_record(sv)) by {
                    if matches_record(sv) {
                        let (p, e, w) = choose|p: u64, e: u64, w: Seq<char>|
                            writer_encodable(w) && sv == cursor_json(p as nat, e as nat, w);
                        lemma_first_extent(sv, p, e, w, d1_end as int);
                        lemma_second_extent(sv, p, e, w, d1_end as int, d2_end as int);
                        lemma_cursor_json_structure(p as nat, e as nat, w);
                        assert(sv[35 + dec_rep(p as nat).len() + dec_rep(e as nat).len()
                            + w.len() as int] == '"');
                        assert(false);
                    }
                }
            }
            return None;
        },
    };
    if !match_lit(s, w_end, "\"}") || w_end + 2 != n {
        proof {
            assert(!matches_record(sv)) by {
                if matches_record(sv) {
                    let (p, e, w) = choose|p: u64, e: u64, w: Seq<char>|
                        writer_encodable(w) && sv == cursor_json(p as nat, e as nat, w);
                    lemma_first_extent(sv, p, e, w, d1_end as int);
                    lemma_second_extent(sv, p, e, w, d1_end as int, d2_end as int);
                    lemma_writer_extent(sv, p, e, w, d2_end as int, w_end as int);
                    assert(false);
                }
            }
        }
        return None;
    }
    let writer_part = s.substring_char(w_start, w_end);
    let writer = writer_part.to_owned();
    let cand = match encode_cursor(p_val, e_val, writer.as_str()) {
        Some(c) => c,
        None => {
            proof {
                assert(!matches_record(sv)) by {
                    if matches_record(sv) {
                        let (p, e, w) = choose|p: u64, e: u64, w: Seq<char>|
                            writer_encodable(w) && sv == cursor_json(p as nat, e as nat, w);
                        lemma_first_extent(sv, p, e, w, d1_end as int);
                        lemma_second_extent(sv, p, e, w, d1_end as int, d2_end as int);
                        lemma_writer_extent(sv, p, e, w, d2_end as int, w_end as int);
                        assert(writer@ =~= w);
                        assert(false);
                    }
                }
            }
            return None;
        },
    };
    if crate::order::str_eq(cand.as_str(), s) {
        Some((p_val, e_val, writer))
    } else {
        proof {
            assert(!matches_record(sv)) by {
                if matches_record(sv) {
                    let (p, e, w) = choose|p: u64, e: u64, w: Seq<char>|
                        writer_encodable(w) && sv == cursor_json(p as nat, e as nat, w);
                    lemma_first_extent(sv, p, e, w, d1_end as int);
                    lemma_second_extent(sv, p, e, w, d1_end as int, d2_end as int);
                    lemma_writer_extent(sv, p, e, w, d2_end as int, w_end as int);
                    assert(p_val == p);
                    assert(e_val == e);
                    assert(writer@ =~= w);
                    assert(cand@ == cursor_json(p as nat, e as nat, w));
                    assert(cand@ == sv);
                    assert(false);
                }
            }
        }
        None
    }
}

} // verus!
