//! The persisted form of the conversation log: a length-prefixed UTF-8 text
//! encoding of the ordered entry sequence, together with a strict decoder.
//!
//! A log is written as its entry count, a newline, and then each entry in
//! order. An entry is its timestamp, role and content, each written as a
//! character count, a colon, the text and a newline, followed by the token
//! count and a newline. Numbers are canonical decimal, so every log has
//! exactly one encoding and the decoder accepts exactly the encodings.

use vstd::prelude::*;
use crate::entry::{EntryV, LogEntry, wf_log};

verus! {

/// True of the ten decimal digit characters.
pub open spec fn is_digit(c: char) -> bool {
    c == '0' || c == '1' || c == '2' || c == '3' || c == '4' || c == '5' || c == '6' || c == '7'
        || c == '8' || c == '9'
}

/// The numeric value of a digit character.
pub open spec fn digit_val(c: char) -> int {
    if c == '0' {
        0
    } else if c == '1' {
        1
    } else if c == '2' {
        2
    } else if c == '3' {
        3
    } else if c == '4' {
        4
    } else if c == '5' {
        5
    } else if c == '6' {
        6
    } else if c == '7' {
        7
    } else if c == '8' {
        8
    } else {
        9
    }
}

/// The digit character of a value below ten.
pub open spec fn digit_char(d: int) -> char {
    if d == 0 {
        '0'
    } else if d == 1 {
        '1'
    } else if d == 2 {
        '2'
    } else if d == 3 {
        '3'
    } else if d == 4 {
        '4'
    } else if d == 5 {
        '5'
    } else if d == 6 {
        '6'
    } else if d == 7 {
        '7'
    } else if d == 8 {
        '8'
    } else {
        '9'
    }
}

/// The canonical decimal digits of `n`, most significant first.
pub open spec fn enc_nat(n: nat) -> Seq<char>
    decreases n,
{
    if n < 10 {
        seq![digit_char(n as int)]
    } else {
        enc_nat(n / 10) + seq![digit_char((n % 10) as int)]
    }
}

/// The number read from a digit string, most significant first.
pub open spec fn digits_val(ds: Seq<char>) -> int
    decreases ds.len(),
{
    if ds.len() == 0 {
        0
    } else {
        digits_val(ds.drop_last()) * 10 + digit_val(ds.last())
    }
}

/// Every character of `ds` is a decimal digit.
pub open spec fn all_digits(ds: Seq<char>) -> bool {
    forall|i: int| 0 <= i < ds.len() ==> is_digit(#[trigger] ds[i])
}

/// A non-empty digit string without a leading zero (except "0" itself).
pub open spec fn canonical_digits(ds: Seq<char>) -> bool {
    ds.len() > 0 && all_digits(ds) && (ds.len() == 1 || ds[0] != '0')
}

proof fn lemma_digit_char_val(d: int)
    requires
        0 <= d < 10,
    ensures
        is_digit(digit_char(d)),
        digit_val(digit_char(d)) == d,
{
}

proof fn lemma_char_of_val(c: char)
    requires
        is_digit(c),
    ensures
        0 <= digit_val(c) < 10,
        digit_char(digit_val(c)) == c,
{
}

/// The canonical digits of any number form a canonical digit string, and a
/// positive number never starts with '0'.
proof fn lemma_enc_nat_canonical(n: nat)
    ensures
        canonical_digits(enc_nat(n)),
        n >= 1 ==> enc_nat(n)[0] != '0',
    decreases n,
{
    if n < 10 {
        lemma_digit_char_val(n as int);
    } else {
        lemma_enc_nat_canonical(n / 10);
        let hd = enc_nat(n / 10);
        let e = enc_nat(n);
        lemma_digit_char_val((n % 10) as int);
        assert(e[0] == hd[0]);
        assert(forall|i: int| 0 <= i < hd.len() ==> e[i] == hd[i]);
        assert(e[e.len() - 1] == digit_char((n % 10) as int));
        assert(all_digits(e));
    }
}

/// Reading back the canonical digits of `n` yields `n`.
proof fn lemma_val_of_enc(n: nat)
    ensures
        digits_val(enc_nat(n)) == n,
    decreases n,
{
    if n < 10 {
        lemma_digit_char_val(n as int);
        let e = enc_nat(n);
        assert(e.drop_last() =~= Seq::<char>::empty());
        assert(digits_val(Seq::<char>::empty()) == 0);
        assert(e.last() == digit_char(n as int));
        assert(digits_val(e) == digits_val(e.drop_last()) * 10 + digit_val(e.last()));
    } else {
        lemma_val_of_enc(n / 10);
        lemma_digit_char_val((n % 10) as int);
        let e = enc_nat(n);
        assert(e.drop_last() =~= enc_nat(n / 10));
        assert(e.last() == digit_char((n % 10) as int));
        assert(digits_val(e) == digits_val(e.drop_last()) * 10 + digit_val(e.last()));
        assert(digits_val(e) == (n / 10) * 10 + (n % 10));
    }
}

/// A digit string is worth at least zero; without a leading zero it is worth
/// at least one.
proof fn lemma_val_bounds(ds: Seq<char>)
    requires
        all_digits(ds),
    ensures
        digits_val(ds) >= 0,
        ds.len() > 0 && ds[0] != '0' ==> digits_val(ds) >= 1,
    decreases ds.len(),
{
    if ds.len() > 0 {
        let p = ds.drop_last();
        assert(all_digits(p)) by {
            assert(forall|i: int| 0 <= i < p.len() ==> p[i] == ds[i]);
        }
        lemma_val_bounds(p);
        assert(is_digit(ds.last()));
        if ds.len() == 1 && ds[0] != '0' {
            assert(digit_val(ds.last()) >= 1);
        }
        if ds.len() > 1 && ds[0] != '0' {
            assert(p[0] != '0');
        }
    }
}

/// Encoding the value of a canonical digit string gives back the string.
proof fn lemma_enc_of_val(ds: Seq<char>)
    requires
        canonical_digits(ds),
    ensures
        0 <= digits_val(ds),
        enc_nat(digits_val(ds) as nat) == ds,
    decreases ds.len(),
{
    lemma_val_bounds(ds);
    if ds.len() == 1 {
        lemma_char_of_val(ds[0]);
        assert(ds.drop_last() =~= Seq::<char>::empty());
        assert(digits_val(Seq::<char>::empty()) == 0);
        assert(ds.last() == ds[0]);
        assert(digits_val(ds) == digits_val(ds.drop_last()) * 10 + digit_val(ds.last()));
        assert(digits_val(ds) == digit_val(ds[0]));
        assert(enc_nat(digits_val(ds) as nat) =~= ds);
    } else {
        let p = ds.drop_last();
        assert(all_digits(p)) by {
            assert(forall|i: int| 0 <= i < p.len() ==> p[i] == ds[i]);
        }
        assert(p[0] == ds[0]);
        assert(canonical_digits(p));
        lemma_enc_of_val(p);
        lemma_val_bounds(p);
        lemma_char_of_val(ds.last());
        let pv = digits_val(p);
        let d = digit_val(ds.last());
        let v = digits_val(ds);
        assert(v == pv * 10 + d);
        assert(pv >= 1);
        assert(v >= 10);
        assert(v / 10 == pv && v % 10 == d) by {
            assert(0 <= d < 10);
        }
        assert(enc_nat(v as nat) == enc_nat(pv as nat) + seq![digit_char(d)]);
        assert(enc_nat(v as nat) =~= ds);
    }
}

/// Canonical digit runs read deterministically: if the same text starts with
/// two encoded numbers, each followed by a non-digit or the end, the numbers
/// and the remainders agree.
proof fn lemma_enc_nat_deterministic(a: nat, b: nat, r1: Seq<char>, r2: Seq<char>)
    requires
        enc_nat(a) + r1 == enc_nat(b) + r2,
        r1.len() == 0 || !is_digit(r1[0]),
        r2.len() == 0 || !is_digit(r2[0]),
    ensures
        a == b,
        r1 == r2,
{
    let da = enc_nat(a);
    let db = enc_nat(b);
    lemma_enc_nat_canonical(a);
    lemma_enc_nat_canonical(b);
    let whole = da + r1;
    assert(whole == db + r2);
    assert((da + r1).len() == da.len() + r1.len());
    assert((db + r2).len() == db.len() + r2.len());
    assert(da.len() + r1.len() == db.len() + r2.len());
    if da.len() < db.len() {
        assert(r1.len() > 0);
        assert((da + r1)[da.len() as int] == r1[0]);
        assert((db + r2)[da.len() as int] == db[da.len() as int]);
        assert(is_digit(db[da.len() as int]));
        assert(false);
    }
    if db.len() < da.len() {
        assert(r2.len() > 0);
        assert((db + r2)[db.len() as int] == r2[0]);
        assert((da + r1)[db.len() as int] == da[db.len() as int]);
        assert(is_digit(da[db.len() as int]));
        assert(false);
    }
    assert(da.len() == db.len());
    assert(da =~= db) by {
        assert forall|i: int| 0 <= i < da.len() implies da[i] == db[i] by {
            assert((da + r1)[i] == da[i]);
            assert((db + r2)[i] == db[i]);
        }
    }
    lemma_val_of_enc(a);
    lemma_val_of_enc(b);
    assert(r1 =~= r2) by {
        assert forall|i: int| 0 <= i < r1.len() implies r1[i] == r2[i] by {
            assert((da + r1)[da.len() + i] == r1[i]);
            assert((db + r2)[db.len() + i] == r2[i]);
        }
    }
}

/// One decimal digit as a string slice.
fn digit_str(d: u64) -> (s: &'static str)
    requires
        d < 10,
    ensures
        s@ == seq![digit_char(d as int)],
{
    proof {
        reveal_strlit("0");
        reveal_strlit("1");
        reveal_strlit("2");
        reveal_strlit("3");
        reveal_strlit("4");
        reveal_strlit("5");
        reveal_strlit("6");
        reveal_strlit("7");
        reveal_strlit("8");
        reveal_strlit("9");
    }
    let s: &'static str = if d == 0 {
        "0"
    } else if d == 1 {
        "1"
    } else if d == 2 {
        "2"
    } else if d == 3 {
        "3"
    } else if d == 4 {
        "4"
    } else if d == 5 {
        "5"
    } else if d == 6 {
        "6"
    } else if d == 7 {
        "7"
    } else if d == 8 {
        "8"
    } else {
        "9"
    };
    proof {
        assert(s@ =~= seq![digit_char(d as int)]);
    }
    s
}

/// Writes `n` in canonical decimal.
fn u64_to_string(n: u64) -> (s: String)
    ensures
        s@ == enc_nat(n as nat),
    decreases n,
{
    if n < 10 {
        String::from_str(digit_str(n))
    } else {
        let mut s = u64_to_string(n / 10);
        s.append(digit_str(n % 10));
        s
    }
}

/// Tells a decimal digit character.
fn is_digit_exec(c: char) -> (b: bool)
    ensures
        b == is_digit(c),
{
    c == '0' || c == '1' || c == '2' || c == '3' || c == '4' || c == '5' || c == '6' || c == '7'
        || c == '8' || c == '9'
}

/// The value of a decimal digit character.
fn digit_val_exec(c: char) -> (d: u64)
    requires
        is_digit(c),
    ensures
        d == digit_val(c),
{
    if c == '0' {
        0
    } else if c == '1' {
        1
    } else if c == '2' {
        2
    } else if c == '3' {
        3
    } else if c == '4' {
        4
    } else if c == '5' {
        5
    } else if c == '6' {
        6
    } else if c == '7' {
        7
    } else if c == '8' {
        8
    } else {
        9
    }
}

/// Reads one canonical decimal number starting at `i`: succeeds exactly when
/// a canonical digit run bounded by a non-digit (or the end) starts there and
/// its value fits `u64`, and then returns that value and the position after
/// the digits.
fn parse_nat(s: &str, i: usize) -> (r: Option<(u64, usize)>)
    requires
        i <= s@.len(),
    ensures
        r matches Some((v, j)) ==> i < j <= s@.len() && s@.subrange(i as int, j as int) == enc_nat(
            v as nat,
        ) && (j == s@.len() || !is_digit(s@[j as int])),
        (exists|v: u64, j: int|
            i < j <= s@.len() && s@.subrange(i as int, j) == enc_nat(v as nat) && (j == s@.len()
                || !is_digit(s@[j]))) ==> r is Some,
{
    let n = s.unicode_len();
    let mut j = i;
    let mut acc: u64 = 0;
    let mut overflow: bool = false;
    while j < n && is_digit_exec(s.get_char(j))
        invariant
            i <= j <= n,
            n == s@.len(),
            forall|k: int| i <= k < j ==> is_digit(#[trigger] s@[k]),
            !overflow ==> acc == digits_val(s@.subrange(i as int, j as int)),
            overflow ==> digits_val(s@.subrange(i as int, j as int)) > u64::MAX,
            digits_val(s@.subrange(i as int, j as int)) >= 0,
        decreases n - j,
    {
        let c = s.get_char(j);
        let d = digit_val_exec(c);
        let ghost run0 = s@.subrange(i as int, j as int);
        let ghost run1 = s@.subrange(i as int, j + 1);
        proof {
            assert(run1.drop_last() =~= run0);
            assert(run1.last() == s@[j as int]);
            assert(digits_val(run1) == digits_val(run0) * 10 + digit_val(s@[j as int]));
        }
        if !overflow {
            match push_digit(acc, d) {
                Some(v) => {
                    acc = v;
                },
                None => {
                    overflow = true;
                },
            }
        } else {
            proof {
                assert(digits_val(run0) >= 0);
                assert(digits_val(run1) >= digits_val(run0)) by {
                    assert(0 <= digit_val(s@[j as int]));
                }
            }
        }
        j = j + 1;
    }
    let ghost run = s@.subrange(i as int, j as int);
    proof {
        assert(all_digits(run)) by {
            assert(forall|k: int| 0 <= k < run.len() ==> run[k] == s@[i + k]);
        }
    }
    if j == i {
        proof {
            assert forall|v: u64, jv: int|
                !(i < jv <= s@.len() && s@.subrange(i as int, jv) == enc_nat(v as nat) && (jv
                    == s@.len() || !is_digit(s@[jv]))) by {
                if i < jv <= s@.len() && s@.subrange(i as int, jv) == enc_nat(v as nat) {
                    lemma_enc_nat_canonical(v as nat);
                    assert(s@[i as int] == s@.subrange(i as int, jv)[0]);
                    assert(is_digit(s@[i as int]));
                    assert(false);
                }
            }
        }
        return None;
    }
    // Any canonical run bounded by a non-digit and starting at `i` is exactly
    // the scanned run.
    proof {
        assert forall|v: u64, jv: int|
            (i < jv <= s@.len() && s@.subrange(i as int, jv) == enc_nat(v as nat) && (jv
                == s@.len() || !is_digit(s@[jv]))) implies jv == j && v == digits_val(run) by {
            lemma_enc_nat_canonical(v as nat);
            let dv = s@.subrange(i as int, jv);
            assert(forall|k: int| 0 <= k < dv.len() ==> dv[k] == s@[i + k]);
            if jv > j {
                assert(is_digit(dv[j - i]));
                assert(s@[j as int] == dv[j - i]);
                assert(j < s@.len());
                assert(false);
            }
            if jv < j {
                assert(is_digit(s@[jv]));
                assert(false);
            }
            assert(jv == j);
            assert(dv =~= run);
            lemma_val_of_enc(v as nat);
        }
    }
    let first = s.get_char(i);
    if first == '0' && j > i + 1 {
        proof {
            assert forall|v: u64, jv: int|
                !(i < jv <= s@.len() && s@.subrange(i as int, jv) == enc_nat(v as nat) && (jv
                    == s@.len() || !is_digit(s@[jv]))) by {
                if i < jv <= s@.len() && s@.subrange(i as int, jv) == enc_nat(v as nat) && (jv
                    == s@.len() || !is_digit(s@[jv])) {
                    lemma_enc_nat_canonical(v as nat);
                    assert(run[0] == s@[i as int]);
                    assert(run.len() > 1);
                    assert(canonical_digits(run) == false);
                    assert(enc_nat(v as nat) =~= run);
                    assert(false);
                }
            }
        }
        return None;
    }
    if overflow {
        proof {
            assert forall|v: u64, jv: int|
                !(i < jv <= s@.len() && s@.subrange(i as int, jv) == enc_nat(v as nat) && (jv
                    == s@.len() || !is_digit(s@[jv]))) by {
                if i < jv <= s@.len() && s@.subrange(i as int, jv) == enc_nat(v as nat) && (jv
                    == s@.len() || !is_digit(s@[jv])) {
                    assert(v == digits_val(run));
                    assert(digits_val(run) > u64::MAX);
                    assert(false);
                }
            }
        }
        return None;
    }
    proof {
        assert(canonical_digits(run));
        lemma_enc_of_val(run);
        assert(enc_nat(acc as nat) == run);
    }
    Some((acc, j))
}

/// Adds one decimal digit to an accumulated value, watching for overflow.
fn push_digit(acc: u64, d: u64) -> (r: Option<u64>)
    requires
        d < 10,
    ensures
        r matches Some(v) ==> v == acc * 10 + d,
        r is None ==> acc * 10 + d > u64::MAX,
{
    if acc <= (u64::MAX - d) / 10 {
        proof {
            assert(acc * 10 + d <= u64::MAX) by {
                let q = (u64::MAX - d) / 10;
                assert(q * 10 <= u64::MAX - d) by (nonlinear_arith)
                    requires q == (u64::MAX - d) / 10 && d <= u64::MAX;
                assert(acc * 10 <= q * 10) by (nonlinear_arith)
                    requires acc <= q;
            }
        }
        Some(acc * 10 + d)
    } else {
        proof {
            assert(acc * 10 + d > u64::MAX) by (nonlinear_arith)
                requires acc > (u64::MAX - d) / 10 && d < 10 && acc >= 0;
        }
        None
    }
}

/// The digits of a number's text: everything after an optional leading
/// plus sign.
pub open spec fn digits_of(s: Seq<char>) -> Seq<char> {
    if s.len() > 0 && s[0] == '+' {
        s.subrange(1, s.len() as int)
    } else {
        s
    }
}

/// A readable number: at least one digit after the optional sign, and
/// nothing else. Leading zeros are allowed here, as the environment's text
/// is read the way the standard library reads an unsigned number.
pub open spec fn is_u64_text(s: Seq<char>) -> bool {
    digits_of(s).len() > 0 && all_digits(digits_of(s))
}

/// Reads a whole text as one unsigned decimal number: succeeds exactly when
/// the text is an optional plus sign followed by digits whose value fits
/// `u64`, and then returns that value.
pub fn parse_u64(s: &str) -> (r: Option<u64>)
    ensures
        r matches Some(v) ==> is_u64_text(s@) && digits_val(digits_of(s@)) == v as int,
        r is None ==> !is_u64_text(s@) || digits_val(digits_of(s@)) > u64::MAX,
{
    let n = s.unicode_len();
    let mut start: usize = 0;
    if n > 0 {
        let c0 = s.get_char(0);
        if c0 == '+' {
            start = 1;
        }
    }
    let ghost ds = digits_of(s@);
    proof {
        assert(ds =~= s@.subrange(start as int, n as int));
    }
    if start == n {
        return None;
    }
    let mut j = start;
    let mut acc: u64 = 0;
    let mut overflow: bool = false;
    while j < n
        invariant
            start <= j <= n,
            n == s@.len(),
            ds == s@.subrange(start as int, n as int),
            ds == digits_of(s@),
            forall|k: int| start <= k < j ==> is_digit(#[trigger] s@[k]),
            !overflow ==> acc == digits_val(s@.subrange(start as int, j as int)),
            overflow ==> digits_val(s@.subrange(start as int, j as int)) > u64::MAX,
            digits_val(s@.subrange(start as int, j as int)) >= 0,
        decreases n - j,
    {
        let c = s.get_char(j);
        if !is_digit_exec(c) {
            proof {
                assert(!all_digits(ds)) by {
                    assert(ds[j - start] == s@[j as int]);
                }
            }
            return None;
        }
        let d = digit_val_exec(c);
        let ghost run0 = s@.subrange(start as int, j as int);
        let ghost run1 = s@.subrange(start as int, j + 1);
        proof {
            assert(run1.drop_last() =~= run0);
            assert(run1.last() == s@[j as int]);
            assert(digits_val(run1) == digits_val(run0) * 10 + digit_val(s@[j as int]));
        }
        if !overflow {
            match push_digit(acc, d) {
                Some(v) => {
                    acc = v;
                },
                None => {
                    overflow = true;
                },
            }
        } else {
            proof {
                assert(digits_val(run1) >= digits_val(run0)) by {
                    assert(0 <= digit_val(s@[j as int]));
                }
            }
        }
        j = j + 1;
    }
    proof {
        assert(ds =~= s@.subrange(start as int, n as int));
        assert(all_digits(ds)) by {
            assert(forall|k: int| 0 <= k < ds.len() ==> ds[k] == s@[start + k]);
        }
        assert(ds.len() > 0);
        assert(is_u64_text(s@));
    }
    if overflow {
        return None;
    }
    Some(acc)
}

/// The encoded form of a text field: its character count, a colon, the text
/// and a newline.
pub open spec fn enc_str(t: Seq<char>) -> Seq<char> {
    enc_nat(t.len() as nat) + seq![':'] + t + seq!['\n']
}

/// Encoded text fields read deterministically: if the same text starts with
/// two encoded fields, the fields and the remainders agree.
proof fn lemma_enc_str_deterministic(a: Seq<char>, b: Seq<char>, r1: Seq<char>, r2: Seq<char>)
    requires
        enc_str(a) + r1 == enc_str(b) + r2,
    ensures
        a == b,
        r1 == r2,
{
    let na = enc_nat(a.len() as nat);
    let nb = enc_nat(b.len() as nat);
    let ta = seq![':'] + a + seq!['\n'] + r1;
    let tb = seq![':'] + b + seq!['\n'] + r2;
    assert(na + ta =~= enc_str(a) + r1);
    assert(nb + tb =~= enc_str(b) + r2);
    assert(!is_digit(ta[0]));
    assert(!is_digit(tb[0]));
    lemma_enc_nat_deterministic(a.len() as nat, b.len() as nat, ta, tb);
    assert(a.len() == b.len());
    assert(a =~= b) by {
        assert forall|k: int| 0 <= k < a.len() implies a[k] == b[k] by {
            assert(ta[1 + k] == a[k]);
            assert(tb[1 + k] == b[k]);
        }
    }
    assert(r1 =~= r2) by {
        assert forall|k: int| 0 <= k < r1.len() implies r1[k] == r2[k] by {
            assert(ta[2 + a.len() + k] == r1[k]);
            assert(tb[2 + b.len() + k] == r2[k]);
        }
    }
}

/// An encoded field recognized piecewise in a larger text is the encoding of
/// its body.
proof fn lemma_enc_str_assemble(s: Seq<char>, i: int, j1: int, v: nat, body: Seq<char>)
    requires
        0 <= i < j1 <= s.len(),
        s.subrange(i, j1) == enc_nat(v),
        j1 + 2 + v <= s.len(),
        s[j1] == ':',
        body == s.subrange(j1 + 1, j1 + 1 + v),
        s[j1 + 1 + v] == '\n',
    ensures
        s.subrange(i, j1 + 2 + v) == enc_str(body),
{
    let piece = s.subrange(i, j1 + 2 + v);
    assert(body.len() == v);
    assert(piece =~= enc_str(body)) by {
        let e = enc_str(body);
        assert(e.len() == enc_nat(v).len() + 2 + v);
        assert(piece.len() == j1 + 2 + v - i);
        let nl = j1 - i;
        assert(enc_nat(v).len() == nl) by {
            assert(s.subrange(i, j1).len() == nl);
        }
        assert forall|k: int| 0 <= k < piece.len() implies piece[k] == e[k] by {
            assert(piece[k] == s[i + k]);
            if k < nl {
                assert(e[k] == enc_nat(v)[k]);
                assert(s.subrange(i, j1)[k] == s[i + k]);
            } else if k == nl {
                assert(e[k] == ':');
            } else if k < nl + 1 + v {
                assert(e[k] == body[k - nl - 1]);
                assert(body[k - nl - 1] == s[j1 + 1 + (k - nl - 1)]);
            } else {
                assert(e[k] == '\n');
            }
        }
    }
}

/// Where some encoded field starts at `i` and a canonical number was read
/// there, the whole field's shape at `i` follows: the colon, the body and the
/// closing newline sit after the count.
proof fn lemma_parse_str_shape(s: Seq<char>, i: int, v: nat, j1: int)
    requires
        exists|t: Seq<char>, jt: int| i < jt <= s.len() && s.subrange(i, jt) == enc_str(t),
        0 <= i < j1 <= s.len(),
        s.subrange(i, j1) == enc_nat(v),
        j1 == s.len() || !is_digit(s[j1]),
    ensures
        j1 + 2 + v <= s.len(),
        s[j1] == ':',
        s[j1 + 1 + v] == '\n',
        s.subrange(i, j1 + 2 + v) == enc_str(s.subrange(j1 + 1, j1 + 1 + v)),
{
    let (t, jt): (Seq<char>, int) = choose|t: Seq<char>, jt: int|
        i < jt <= s.len() && s.subrange(i, jt) == enc_str(t);
    let r1 = s.subrange(j1, s.len() as int);
    let r2 = seq![':'] + t + seq!['\n'] + s.subrange(jt, s.len() as int);
    let whole = s.subrange(i, s.len() as int);
    assert(enc_nat(v) + r1 =~= whole);
    assert(enc_nat(t.len() as nat) + r2 =~= whole) by {
        assert(s.subrange(i, jt) + s.subrange(jt, s.len() as int) =~= whole);
        assert(enc_str(t) == enc_nat(t.len() as nat) + seq![':'] + t + seq!['\n']);
    }
    assert(!is_digit(r2[0]));
    assert(r1.len() == 0 || !is_digit(r1[0]));
    lemma_enc_nat_deterministic(v, t.len() as nat, r1, r2);
    assert(v == t.len());
    assert(r1.len() == r2.len());
    assert(r2.len() == 2 + t.len() + (s.len() - jt));
    assert(r1.len() == s.len() - j1);
    assert(j1 + 2 + v <= s.len());
    assert(s[j1] == r1[0]);
    assert(r2[0] == ':');
    assert(s[j1 + 1 + v] == r1[1 + v as int]) by {
        assert(r1[1 + v as int] == s[j1 + 1 + v]);
    }
    assert(r2[1 + t.len() as int] == '\n');
    let body = s.subrange(j1 + 1, j1 + 1 + v);
    assert(body =~= t) by {
        assert forall|k: int| 0 <= k < v implies body[k] == t[k] by {
            assert(body[k] == s[j1 + 1 + k]);
            assert(r1[1 + k] == s[j1 + 1 + k]);
            assert(r2[1 + k] == t[k]);
        }
    }
    lemma_enc_str_assemble(s, i, j1, v, body);
}

/// Appends the encoded form of one text field.
fn encode_str_field(out: &mut String, t: &str)
    ensures
        final(out)@ == old(out)@ + enc_str(t@),
{
    proof {
        reveal_strlit(":");
        reveal_strlit("\n");
    }
    let n = t.unicode_len();
    let num = u64_to_string(n as u64);
    out.append(num.as_str());
    out.append(":");
    out.append(t);
    out.append("\n");
    proof {
        assert(":"@ =~= seq![':']);
        assert("\n"@ =~= seq!['\n']);
        assert(out@ =~= old(out)@ + enc_str(t@));
    }
}

/// Reads one encoded text field starting at `i`: succeeds exactly when one
/// sits there, and then returns its body and the position after it.
fn parse_str(s: &str, i: usize) -> (r: Option<(String, usize)>)
    requires
        i <= s@.len(),
    ensures
        r matches Some((t, j)) ==> i < j <= s@.len() && s@.subrange(i as int, j as int) == enc_str(
            t@,
        ),
        (exists|t: Seq<char>, j: int| i < j <= s@.len() && s@.subrange(i as int, j) == enc_str(t))
            ==> r is Some,
{
    let ghost valid = exists|t: Seq<char>, j: int|
        i < j <= s@.len() && s@.subrange(i as int, j) == enc_str(t);
    let n = s.unicode_len();
    let parsed = parse_nat(s, i);
    if parsed.is_none() {
        proof {
            if valid {
                let (t, jt): (Seq<char>, int) = choose|t: Seq<char>, jt: int|
                    i < jt <= s@.len() && s@.subrange(i as int, jt) == enc_str(t);
                let nt = t.len();
                assert(nt <= u64::MAX) by {
                    assert(enc_str(t).len() > nt);
                    assert(jt - i <= s@.len());
                }
                let rest = seq![':'] + t + seq!['\n'];
                assert(s@.subrange(i as int, jt) == enc_nat(nt as nat) + rest) by {
                    assert(enc_str(t) =~= enc_nat(nt as nat) + rest);
                }
                lemma_concat_at(s@, i as int, jt, enc_nat(nt as nat), rest);
                let jn = i + enc_nat(nt as nat).len();
                assert(s@[jn] == ':') by {
                    assert(s@.subrange(jn, jt)[0] == s@[jn]);
                    assert(rest[0] == ':');
                }
                assert(!is_digit(s@[jn]));
                let vw: u64 = nt as u64;
                assert(i < jn <= s@.len() && s@.subrange(i as int, jn) == enc_nat(vw as nat) && (
                jn == s@.len() || !is_digit(s@[jn])));
                assert(false);
            }
        }
        return None;
    }
    let (v, j1) = parsed.unwrap();
    proof {
        if valid {
            lemma_parse_str_shape(s@, i as int, v as nat, j1 as int);
        }
    }
    if j1 == n {
        proof {
            assert(!valid);
        }
        return None;
    }
    let c = s.get_char(j1);
    if c != ':' {
        proof {
            assert(!valid);
        }
        return None;
    }
    let rem = n - j1 - 1;
    if v >= rem as u64 {
        proof {
            if valid {
                assert(j1 + 2 + v <= s@.len());
                assert(false);
            }
        }
        return None;
    }
    let vl = v as usize;
    let body = s.substring_char(j1 + 1, j1 + 1 + vl);
    let nlpos = j1 + 1 + vl;
    let c2 = s.get_char(nlpos);
    if c2 != '\n' {
        proof {
            assert(!valid);
        }
        return None;
    }
    proof {
        lemma_enc_str_assemble(s@, i as int, j1 as int, v as nat, body@);
    }
    Some((String::from_str(body), nlpos + 1))
}

/// An entry whose token count fits the machine representation.
pub open spec fn entry_bounded(e: EntryV) -> bool {
    0 <= e.tokens && e.tokens <= i64::MAX
}

/// Every entry's token count fits the machine representation.
pub open spec fn bounded_log(log: Seq<EntryV>) -> bool {
    forall|i: int| 0 <= i < log.len() ==> entry_bounded(#[trigger] log[i])
}

/// The encoded form of one entry: its three text fields, then its token
/// count and a newline.
pub open spec fn enc_entry(e: EntryV) -> Seq<char> {
    enc_str(e.timestamp) + enc_str(e.role) + enc_str(e.content) + enc_nat(e.tokens as nat)
        + seq!['\n']
}

/// The encoded forms of the entries, in order.
pub open spec fn enc_entries(log: Seq<EntryV>) -> Seq<char>
    decreases log.len(),
{
    if log.len() == 0 {
        Seq::empty()
    } else {
        enc_entry(log[0]) + enc_entries(log.subrange(1, log.len() as int))
    }
}

/// The encoded form of a whole log: its entry count, a newline, and the
/// entries in order.
pub open spec fn enc_log(log: Seq<EntryV>) -> Seq<char> {
    enc_nat(log.len() as nat) + seq!['\n'] + enc_entries(log)
}

/// Encoded entries read deterministically.
#[verifier::rlimit(60)]
proof fn lemma_enc_entry_deterministic(a: EntryV, b: EntryV, r1: Seq<char>, r2: Seq<char>)
    requires
        enc_entry(a) + r1 == enc_entry(b) + r2,
        entry_bounded(a),
        entry_bounded(b),
    ensures
        a == b,
        r1 == r2,
{
    let ta = enc_str(a.role) + (enc_str(a.content) + (enc_nat(a.tokens as nat) + (seq!['\n']
        + r1)));
    let tb = enc_str(b.role) + (enc_str(b.content) + (enc_nat(b.tokens as nat) + (seq!['\n']
        + r2)));
    assert(enc_str(a.timestamp) + ta =~= enc_entry(a) + r1);
    assert(enc_str(b.timestamp) + tb =~= enc_entry(b) + r2);
    lemma_enc_str_deterministic(a.timestamp, b.timestamp, ta, tb);
    let ca = enc_str(a.content) + (enc_nat(a.tokens as nat) + (seq!['\n'] + r1));
    let cb = enc_str(b.content) + (enc_nat(b.tokens as nat) + (seq!['\n'] + r2));
    lemma_enc_str_deterministic(a.role, b.role, ca, cb);
    let na = enc_nat(a.tokens as nat) + (seq!['\n'] + r1);
    let nb = enc_nat(b.tokens as nat) + (seq!['\n'] + r2);
    lemma_enc_str_deterministic(a.content, b.content, na, nb);
    let wa = seq!['\n'] + r1;
    let wb = seq!['\n'] + r2;
    assert(!is_digit(wa[0]));
    assert(!is_digit(wb[0]));
    lemma_enc_nat_deterministic(a.tokens as nat, b.tokens as nat, wa, wb);
    assert(a.tokens == b.tokens);
    assert(r1 =~= r2) by {
        assert(forall|k: int| 0 <= k < r1.len() ==> wa[1 + k] == r1[k] && wb[1 + k] == r2[k]);
    }
    assert(a == b);
}

/// Each encoded entry takes at least one character.
proof fn lemma_enc_entries_len_ge(log: Seq<EntryV>)
    ensures
        enc_entries(log).len() >= log.len(),
    decreases log.len(),
{
    if log.len() > 0 {
        lemma_enc_entries_len_ge(log.subrange(1, log.len() as int));
    }
}

/// Appending one entry to a log appends its encoding to the text.
proof fn lemma_enc_entries_snoc(log: Seq<EntryV>, e: EntryV)
    ensures
        enc_entries(log.push(e)) == enc_entries(log) + enc_entry(e),
    decreases log.len(),
{
    let p = log.push(e);
    if log.len() == 0 {
        assert(p[0] == e);
        assert(p.subrange(1, p.len() as int) =~= Seq::<EntryV>::empty());
        assert(enc_entries(Seq::<EntryV>::empty()) == Seq::<char>::empty());
        assert(enc_entries(p) == enc_entry(p[0]) + enc_entries(p.subrange(1, p.len() as int)));
        assert(enc_entries(p) =~= enc_entries(log) + enc_entry(e));
    } else {
        assert(p[0] == log[0]);
        assert(p.subrange(1, p.len() as int) =~= log.subrange(1, log.len() as int).push(e));
        lemma_enc_entries_snoc(log.subrange(1, log.len() as int), e);
        assert(enc_entries(p) == enc_entry(log[0]) + (enc_entries(log.subrange(1, log.len() as int))
            + enc_entry(e)));
        assert(enc_entries(p) =~= enc_entries(log) + enc_entry(e));
    }
}

/// A shorter sequence of encoded entries read against a longer one is its
/// prefix, and the remaining text is the encoding of the remaining entries.
proof fn lemma_enc_entries_prefix(a: Seq<EntryV>, b: Seq<EntryV>, r1: Seq<char>, r2: Seq<char>)
    requires
        enc_entries(a) + r1 == enc_entries(b) + r2,
        a.len() <= b.len(),
        bounded_log(a),
        bounded_log(b),
    ensures
        a == b.take(a.len() as int),
        enc_entries(b.skip(a.len() as int)) + r2 == r1,
    decreases a.len(),
{
    if a.len() == 0 {
        assert(b.take(0) =~= Seq::<EntryV>::empty());
        assert(a =~= b.take(0));
        assert(b.skip(0) =~= b);
        assert(enc_entries(a) + r1 =~= r1);
        assert(enc_entries(b.skip(0)) + r2 =~= enc_entries(b) + r2);
    } else {
        let at = a.subrange(1, a.len() as int);
        let bt = b.subrange(1, b.len() as int);
        let ra = enc_entries(at) + r1;
        let rb = enc_entries(bt) + r2;
        assert(enc_entry(a[0]) + ra =~= enc_entries(a) + r1);
        assert(enc_entry(b[0]) + rb =~= enc_entries(b) + r2);
        lemma_enc_entry_deterministic(a[0], b[0], ra, rb);
        assert(bounded_log(at)) by {
            assert(forall|i: int| 0 <= i < at.len() ==> at[i] == a[i + 1]);
        }
        assert(bounded_log(bt)) by {
            assert(forall|i: int| 0 <= i < bt.len() ==> bt[i] == b[i + 1]);
        }
        lemma_enc_entries_prefix(at, bt, r1, r2);
        assert(a =~= b.take(a.len() as int)) by {
            assert(forall|i: int| 1 <= i < a.len() ==> a[i] == at[i - 1]);
            assert(forall|i: int| 1 <= i < a.len() ==> bt.take(at.len() as int)[i - 1] == b[i]);
        }
        assert(bt.skip(at.len() as int) =~= b.skip(a.len() as int));
    }
}

/// The persisted text determines the log: two logs with the same encoding
/// are the same ordered sequence of entries. Together with the decoder's
/// contract this is the round trip: reloading a persisted log yields the
/// very entries that were written.
pub proof fn lemma_enc_log_injective(a: Seq<EntryV>, b: Seq<EntryV>)
    requires
        enc_log(a) == enc_log(b),
        bounded_log(a),
        bounded_log(b),
    ensures
        a == b,
{
    let wa = seq!['\n'] + enc_entries(a);
    let wb = seq!['\n'] + enc_entries(b);
    assert(enc_nat(a.len() as nat) + wa =~= enc_log(a));
    assert(enc_nat(b.len() as nat) + wb =~= enc_log(b));
    assert(!is_digit(wa[0]));
    assert(!is_digit(wb[0]));
    lemma_enc_nat_deterministic(a.len() as nat, b.len() as nat, wa, wb);
    assert(a.len() == b.len());
    assert(enc_entries(a) =~= enc_entries(b)) by {
        assert(forall|k: int|
            0 <= k < enc_entries(a).len() ==> wa[1 + k] == enc_entries(a)[k] && wb[1 + k]
                == enc_entries(b)[k]);
    }
    lemma_enc_entries_prefix(a, b, Seq::empty(), Seq::empty());
    assert(b.take(a.len() as int) =~= b);
}

/// Loading is deterministic: for a given persisted text the decoder's
/// contract admits exactly one log, so repeated loads of an untouched file
/// yield identical entry sequences.
pub proof fn lemma_load_deterministic(s: Seq<char>, a: Seq<EntryV>, b: Seq<EntryV>)
    requires
        bounded_log(a),
        bounded_log(b),
        s == enc_log(a) || (s.len() == 0 && a.len() == 0),
        s == enc_log(b) || (s.len() == 0 && b.len() == 0),
    ensures
        a == b,
{
    lemma_enc_nat_canonical(a.len() as nat);
    lemma_enc_nat_canonical(b.len() as nat);
    assert(enc_log(a).len() > 0);
    assert(enc_log(b).len() > 0);
    if s.len() == 0 {
        assert(a.len() == 0 && b.len() == 0);
        assert(a =~= b);
    } else {
        lemma_enc_log_injective(a, b);
    }
}

/// An encoded text field occupies `[i, j)` of `s` with body `t`.
pub open spec fn str_at(s: Seq<char>, i: int, j: int, t: Seq<char>) -> bool {
    0 <= i < j <= s.len() && s.subrange(i, j) == enc_str(t)
}

/// An encoded entry occupies `[i, j)` of `s`.
pub open spec fn entry_at(s: Seq<char>, i: int, j: int, e: EntryV) -> bool {
    entry_bounded(e) && 0 <= i < j <= s.len() && s.subrange(i, j) == enc_entry(e)
}

/// A stretch of text is the concatenation of its two halves.
proof fn lemma_subrange_split(s: Seq<char>, i: int, m: int, j: int)
    requires
        0 <= i <= m <= j <= s.len(),
    ensures
        s.subrange(i, j) == s.subrange(i, m) + s.subrange(m, j),
{
    assert(s.subrange(i, j) =~= s.subrange(i, m) + s.subrange(m, j)) by {
        assert forall|k: int| 0 <= k < j - i implies s.subrange(i, j)[k] == (s.subrange(i, m)
            + s.subrange(m, j))[k] by {
            assert(s.subrange(i, j)[k] == s[i + k]);
            if k < m - i {
                assert(s.subrange(i, m)[k] == s[i + k]);
            } else {
                assert(s.subrange(m, j)[k - (m - i)] == s[m + (k - (m - i))]);
            }
        }
    }
}

/// A stretch of text equal to a concatenation splits at the border.
proof fn lemma_concat_at(s: Seq<char>, i: int, j: int, x: Seq<char>, y: Seq<char>)
    requires
        0 <= i <= j <= s.len(),
        s.subrange(i, j) == x + y,
    ensures
        i + x.len() <= j,
        s.subrange(i, i + x.len() as int) == x,
        s.subrange(i + x.len() as int, j) == y,
{
    assert((x + y).len() == x.len() + y.len());
    assert(s.subrange(i, i + x.len() as int) =~= x) by {
        assert forall|k: int| 0 <= k < x.len() implies s.subrange(i, i + x.len() as int)[k]
            == x[k] by {
            assert(s.subrange(i, j)[k] == s[i + k]);
            assert((x + y)[k] == x[k]);
        }
    }
    assert(s.subrange(i + x.len() as int, j) =~= y) by {
        assert forall|k: int| 0 <= k < y.len() implies s.subrange(i + x.len() as int, j)[k]
            == y[k] by {
            assert(s.subrange(i, j)[x.len() + k] == s[i + x.len() + k]);
            assert((x + y)[x.len() + k] == y[k]);
            assert(s.subrange(i + x.len() as int, j)[k] == s[i + x.len() + k]);
        }
    }
}

/// The pieces of an encoded entry at `i`: the timestamp field first, then
/// the rest in order.
proof fn lemma_entry_decompose(s: Seq<char>, i: int, jv: int, ev: EntryV)
    requires
        0 <= i,
        entry_at(s, i, jv, ev),
    ensures
        str_at(s, i, i + enc_str(ev.timestamp).len() as int, ev.timestamp),
        i + enc_str(ev.timestamp).len() <= jv,
        s.subrange(i + enc_str(ev.timestamp).len() as int, jv) == enc_str(ev.role) + (enc_str(
            ev.content,
        ) + (enc_nat(ev.tokens as nat) + seq!['\n'])),
{
    let rest = enc_str(ev.role) + (enc_str(ev.content) + (enc_nat(ev.tokens as nat) + seq!['\n']));
    assert(s.subrange(i, jv) == enc_str(ev.timestamp) + rest) by {
        assert(enc_entry(ev) =~= enc_str(ev.timestamp) + rest);
    }
    lemma_concat_at(s, i, jv, enc_str(ev.timestamp), rest);
}

/// Two encoded fields read at the same position agree.
proof fn lemma_str_at_unique(s: Seq<char>, i: int, j1: int, t1: Seq<char>, j2: int, t2: Seq<char>)
    requires
        str_at(s, i, j1, t1),
        str_at(s, i, j2, t2),
    ensures
        t1 == t2,
        j1 == j2,
{
    let r1 = s.subrange(j1, s.len() as int);
    let r2 = s.subrange(j2, s.len() as int);
    lemma_subrange_split(s, i, j1, s.len() as int);
    lemma_subrange_split(s, i, j2, s.len() as int);
    assert(enc_str(t1) + r1 == s.subrange(i, s.len() as int));
    assert(enc_str(t2) + r2 == s.subrange(i, s.len() as int));
    lemma_enc_str_deterministic(t1, t2, r1, r2);
    assert(r1.len() == r2.len());
}

/// Two canonical numbers read at the same position, each bounded by a
/// non-digit or the end, agree.
proof fn lemma_nat_at_unique(s: Seq<char>, i: int, j1: int, v1: nat, j2: int, v2: nat)
    requires
        0 <= i,
        i < j1 <= s.len(),
        s.subrange(i, j1) == enc_nat(v1),
        j1 == s.len() || !is_digit(s[j1]),
        i < j2 <= s.len(),
        s.subrange(i, j2) == enc_nat(v2),
        j2 == s.len() || !is_digit(s[j2]),
    ensures
        v1 == v2,
        j1 == j2,
{
    let r1 = s.subrange(j1, s.len() as int);
    let r2 = s.subrange(j2, s.len() as int);
    lemma_subrange_split(s, i, j1, s.len() as int);
    lemma_subrange_split(s, i, j2, s.len() as int);
    assert(enc_nat(v1) + r1 == s.subrange(i, s.len() as int));
    assert(enc_nat(v2) + r2 == s.subrange(i, s.len() as int));
    assert(r1.len() == 0 || !is_digit(r1[0])) by {
        if j1 < s.len() {
            assert(r1[0] == s[j1]);
        }
    }
    assert(r2.len() == 0 || !is_digit(r2[0])) by {
        if j2 < s.len() {
            assert(r2[0] == s[j2]);
        }
    }
    lemma_enc_nat_deterministic(v1, v2, r1, r2);
    assert(r1.len() == r2.len());
}

/// Pieces recognized in order assemble into one encoded entry.
#[verifier::rlimit(60)]
proof fn lemma_entry_assemble(s: Seq<char>, i: int, p1: int, p2: int, p3: int, p4: int, e: EntryV)
    requires
        0 <= i < p1 <= p2 <= p3 <= p4 < s.len(),
        s.subrange(i, p1) == enc_str(e.timestamp),
        s.subrange(p1, p2) == enc_str(e.role),
        s.subrange(p2, p3) == enc_str(e.content),
        s.subrange(p3, p4) == enc_nat(e.tokens as nat),
        s[p4] == '\n',
    ensures
        s.subrange(i, p4 + 1) == enc_entry(e),
{
    let w = s.subrange(i, p4 + 1);
    let ee = enc_entry(e);
    assert(w =~= ee) by {
        assert(ee.len() == (p1 - i) + (p2 - p1) + (p3 - p2) + (p4 - p3) + 1);
        assert forall|k: int| 0 <= k < w.len() implies w[k] == ee[k] by {
            assert(w[k] == s[i + k]);
            if k < p1 - i {
                assert(ee[k] == enc_str(e.timestamp)[k]);
                assert(s.subrange(i, p1)[k] == s[i + k]);
            } else if k < p2 - i {
                assert(ee[k] == enc_str(e.role)[k - (p1 - i)]);
                assert(s.subrange(p1, p2)[k - (p1 - i)] == s[i + k]);
            } else if k < p3 - i {
                assert(ee[k] == enc_str(e.content)[k - (p2 - i)]);
                assert(s.subrange(p2, p3)[k - (p2 - i)] == s[i + k]);
            } else if k < p4 - i {
                assert(ee[k] == enc_nat(e.tokens as nat)[k - (p3 - i)]);
                assert(s.subrange(p3, p4)[k - (p3 - i)] == s[i + k]);
            } else {
                assert(ee[k] == '\n');
            }
        }
    }
}

/// Reads one encoded entry starting at `i`: succeeds exactly when one sits
/// there, and then returns it and the position after it.
#[verifier::rlimit(60)]
fn parse_entry(s: &str, i: usize) -> (r: Option<(LogEntry, usize)>)
    requires
        i <= s@.len(),
    ensures
        r matches Some((e, j)) ==> i < j <= s@.len() && s@.subrange(i as int, j as int)
            == enc_entry(e@) && e@.wf() && entry_bounded(e@),
        (exists|ev: EntryV, jv: int| entry_at(s@, i as int, jv, ev)) ==> r is Some,
{
    let ghost valid = exists|ev: EntryV, jv: int| entry_at(s@, i as int, jv, ev);
    proof {
        if valid {
            let (ev, jv): (EntryV, int) = choose|ev: EntryV, jv: int|
                entry_at(s@, i as int, jv, ev);
            lemma_entry_decompose(s@, i as int, jv, ev);
            let q1 = i + enc_str(ev.timestamp).len() as int;
            assert(i < q1 <= s@.len() && s@.subrange(i as int, q1) == enc_str(ev.timestamp));
        }
    }
    let r1 = parse_str(s, i);
    if r1.is_none() {
        proof {
            assert(!valid);
        }
        return None;
    }
    let (ts, p1) = r1.unwrap();
    proof {
        if valid {
            let (ev, jv): (EntryV, int) = choose|ev: EntryV, jv: int|
                entry_at(s@, i as int, jv, ev);
            lemma_entry_decompose(s@, i as int, jv, ev);
            let q1 = i + enc_str(ev.timestamp).len() as int;
            lemma_str_at_unique(s@, i as int, p1 as int, ts@, q1, ev.timestamp);
            lemma_concat_at(
                s@,
                p1 as int,
                jv,
                enc_str(ev.role),
                enc_str(ev.content) + (enc_nat(ev.tokens as nat) + seq!['\n']),
            );
            let q2 = p1 + enc_str(ev.role).len() as int;
            assert(p1 < q2 <= s@.len() && s@.subrange(p1 as int, q2) == enc_str(ev.role));
        }
    }
    let r2 = parse_str(s, p1);
    if r2.is_none() {
        proof {
            assert(!valid);
        }
        return None;
    }
    let (role, p2) = r2.unwrap();
    proof {
        if valid {
            let (ev, jv): (EntryV, int) = choose|ev: EntryV, jv: int|
                entry_at(s@, i as int, jv, ev);
            lemma_entry_decompose(s@, i as int, jv, ev);
            let q1 = i + enc_str(ev.timestamp).len() as int;
            lemma_str_at_unique(s@, i as int, p1 as int, ts@, q1, ev.timestamp);
            lemma_concat_at(
                s@,
                p1 as int,
                jv,
                enc_str(ev.role),
                enc_str(ev.content) + (enc_nat(ev.tokens as nat) + seq!['\n']),
            );
            let q2 = p1 + enc_str(ev.role).len() as int;
            lemma_str_at_unique(s@, p1 as int, p2 as int, role@, q2, ev.role);
            lemma_concat_at(
                s@,
                p2 as int,
                jv,
                enc_str(ev.content),
                enc_nat(ev.tokens as nat) + seq!['\n'],
            );
            let q3 = p2 + enc_str(ev.content).len() as int;
            assert(p2 < q3 <= s@.len() && s@.subrange(p2 as int, q3) == enc_str(ev.content));
        }
    }
    let r3 = parse_str(s, p2);
    if r3.is_none() {
        proof {
            assert(!valid);
        }
        return None;
    }
    let (content, p3) = r3.unwrap();
    proof {
        if valid {
            let (ev, jv): (EntryV, int) = choose|ev: EntryV, jv: int|
                entry_at(s@, i as int, jv, ev);
            lemma_entry_decompose(s@, i as int, jv, ev);
            let q1 = i + enc_str(ev.timestamp).len() as int;
            lemma_str_at_unique(s@, i as int, p1 as int, ts@, q1, ev.timestamp);
            lemma_concat_at(
                s@,
                p1 as int,
                jv,
                enc_str(ev.role),
                enc_str(ev.content) + (enc_nat(ev.tokens as nat) + seq!['\n']),
            );
            let q2 = p1 + enc_str(ev.role).len() as int;
            lemma_str_at_unique(s@, p1 as int, p2 as int, role@, q2, ev.role);
            lemma_concat_at(
                s@,
                p2 as int,
                jv,
                enc_str(ev.content),
                enc_nat(ev.tokens as nat) + seq!['\n'],
            );
            let q3 = p2 + enc_str(ev.content).len() as int;
            lemma_str_at_unique(s@, p2 as int, p3 as int, content@, q3, ev.content);
            lemma_concat_at(s@, p3 as int, jv, enc_nat(ev.tokens as nat), seq!['\n']);
            let q4 = p3 + enc_nat(ev.tokens as nat).len() as int;
            assert(s@.subrange(q4, jv) == seq!['\n']);
            assert(s@[q4] == '\n') by {
                assert(s@.subrange(q4, jv)[0] == s@[q4]);
            }
            assert(!is_digit(s@[q4]));
            let vw: u64 = ev.tokens as u64;
            assert(p3 < q4 <= s@.len() && s@.subrange(p3 as int, q4) == enc_nat(vw as nat) && (q4
                == s@.len() || !is_digit(s@[q4])));
        }
    }
    let r4 = parse_nat(s, p3);
    if r4.is_none() {
        proof {
            assert(!valid);
        }
        return None;
    }
    let (tok, p4) = r4.unwrap();
    proof {
        if valid {
            let (ev, jv): (EntryV, int) = choose|ev: EntryV, jv: int|
                entry_at(s@, i as int, jv, ev);
            lemma_entry_decompose(s@, i as int, jv, ev);
            let q1 = i + enc_str(ev.timestamp).len() as int;
            lemma_str_at_unique(s@, i as int, p1 as int, ts@, q1, ev.timestamp);
            lemma_concat_at(
                s@,
                p1 as int,
                jv,
                enc_str(ev.role),
                enc_str(ev.content) + (enc_nat(ev.tokens as nat) + seq!['\n']),
            );
            let q2 = p1 + enc_str(ev.role).len() as int;
            lemma_str_at_unique(s@, p1 as int, p2 as int, role@, q2, ev.role);
            lemma_concat_at(
                s@,
                p2 as int,
                jv,
                enc_str(ev.content),
                enc_nat(ev.tokens as nat) + seq!['\n'],
            );
            let q3 = p2 + enc_str(ev.content).len() as int;
            lemma_str_at_unique(s@, p2 as int, p3 as int, content@, q3, ev.content);
            lemma_concat_at(s@, p3 as int, jv, enc_nat(ev.tokens as nat), seq!['\n']);
            let q4 = p3 + enc_nat(ev.tokens as nat).len() as int;
            assert(s@.subrange(q4, jv) == seq!['\n']);
            assert(s@[q4] == '\n') by {
                assert(s@.subrange(q4, jv)[0] == s@[q4]);
            }
            assert(!is_digit(s@[q4]));
            lemma_nat_at_unique(s@, p3 as int, p4 as int, tok as nat, q4, ev.tokens as nat);
            assert(tok == ev.tokens);
            assert(tok <= i64::MAX);
            assert(p4 < s@.len() && s@[p4 as int] == '\n');
        }
    }
    let n = s.unicode_len();
    if p4 == n {
        proof {
            assert(!valid);
        }
        return None;
    }
    let c = s.get_char(p4);
    if c != '\n' {
        proof {
            assert(!valid);
        }
        return None;
    }
    if tok > i64::MAX as u64 {
        proof {
            assert(!valid);
        }
        return None;
    }
    let e = LogEntry { timestamp: ts, role, content, tokens: tok as i64 };
    proof {
        lemma_entry_assemble(
            s@,
            i as int,
            p1 as int,
            p2 as int,
            p3 as int,
            p4 as int,
            e@,
        );
    }
    Some((e, p4 + 1))
}

/// The reason a persisted log cannot be read back.
#[derive(Debug, Clone, Copy, PartialEq, Eq, Structural)]
pub enum LogError {
    /// The file's text is not the encoding of any log.
    Malformed,
}

impl LogError {
    /// A short description, suitable for an error report.
    pub fn message(&self) -> (m: &'static str)
        ensures
            m@ == "the conversation log file is malformed"@,
    {
        "the conversation log file is malformed"
    }
}

/// Where the whole text encodes a log and a prefix of the entries was
/// already read back, the remaining text encodes the remaining entries.
proof fn lemma_log_progress(
    s: Seq<char>,
    cnt: nat,
    p0: int,
    pos: int,
    done: Seq<EntryV>,
    l: Seq<EntryV>,
)
    requires
        bounded_log(l),
        s == enc_log(l),
        bounded_log(done),
        0 <= p0,
        p0 + 1 <= pos <= s.len(),
        s.subrange(0, p0) == enc_nat(cnt),
        s[p0] == '\n',
        s.subrange(p0 + 1, pos) == enc_entries(done),
    ensures
        cnt == l.len(),
        done.len() <= l.len() ==> done == l.take(done.len() as int) && s.subrange(
            pos,
            s.len() as int,
        ) == enc_entries(l.skip(done.len() as int)),
{
    let r1 = s.subrange(p0, s.len() as int);
    let r2 = seq!['\n'] + enc_entries(l);
    assert(enc_nat(cnt) + r1 =~= s);
    assert(enc_nat(l.len() as nat) + r2 =~= enc_log(l));
    assert(r1[0] == s[p0]);
    assert(!is_digit(r1[0]));
    assert(!is_digit(r2[0]));
    lemma_enc_nat_deterministic(cnt, l.len() as nat, r1, r2);
    assert(cnt == l.len());
    assert(s.subrange(p0 + 1, s.len() as int) =~= enc_entries(l)) by {
        assert forall|k: int| 0 <= k < s.len() - p0 - 1 implies s[p0 + 1 + k] == enc_entries(
            l,
        )[k] by {
            assert(r1[1 + k] == s[p0 + 1 + k]);
            assert(r2[1 + k] == enc_entries(l)[k]);
        }
    }
    if done.len() <= l.len() {
        let rest = s.subrange(pos, s.len() as int);
        assert(enc_entries(done) + rest =~= s.subrange(p0 + 1, s.len() as int));
        assert(enc_entries(done) + rest == enc_entries(l) + Seq::<char>::empty()) by {
            assert(enc_entries(l) + Seq::<char>::empty() =~= enc_entries(l));
        }
        lemma_enc_entries_prefix(done, l, rest, Seq::empty());
        assert(enc_entries(l.skip(done.len() as int)) + Seq::<char>::empty() =~= enc_entries(
            l.skip(done.len() as int),
        ));
    }
}

/// Appends the encoded form of one entry.
fn encode_entry(out: &mut String, e: &LogEntry)
    requires
        e@.wf(),
    ensures
        final(out)@ == old(out)@ + enc_entry(e@),
{
    proof {
        reveal_strlit("\n");
    }
    encode_str_field(out, e.timestamp.as_str());
    encode_str_field(out, e.role.as_str());
    encode_str_field(out, e.content.as_str());
    let t = u64_to_string(e.tokens as u64);
    out.append(t.as_str());
    out.append("\n");
    proof {
        assert("\n"@ =~= seq!['\n']);
        assert(out@ =~= old(out)@ + enc_entry(e@));
    }
}

/// Writes a whole log in its persisted form.
pub fn encode_log(log: &Vec<LogEntry>) -> (s: String)
    requires
        wf_log(log.deep_view()),
    ensures
        s@ == enc_log(log.deep_view()),
        bounded_log(log.deep_view()),
{
    proof {
        reveal_strlit("\n");
    }
    let ghost lv = log.deep_view();
    proof {
        assert forall|k: int| 0 <= k < lv.len() implies entry_bounded(#[trigger] lv[k]) by {
            assert(lv[k] == log@[k].deep_view());
            assert(lv[k].wf());
        }
    }
    let mut out = u64_to_string(log.len() as u64);
    out.append("\n");
    proof {
        assert("\n"@ =~= seq!['\n']);
        assert(enc_entries(lv.take(0)) == Seq::<char>::empty()) by {
            assert(lv.take(0) =~= Seq::<EntryV>::empty());
        }
        assert(out@ =~= enc_nat(lv.len() as nat) + seq!['\n'] + enc_entries(lv.take(0)));
    }
    let mut k: usize = 0;
    while k < log.len()
        invariant
            0 <= k <= log.len(),
            lv == log.deep_view(),
            lv.len() == log.len(),
            wf_log(lv),
            out@ == enc_nat(lv.len() as nat) + seq!['\n'] + enc_entries(lv.take(k as int)),
        decreases log.len() - k,
    {
        let e = &log[k];
        proof {
            assert(e.deep_view() == lv[k as int]);
            assert(lv[k as int].wf());
        }
        encode_entry(&mut out, e);
        proof {
            lemma_enc_entries_snoc(lv.take(k as int), lv[k as int]);
            assert(lv.take(k + 1) =~= lv.take(k as int).push(lv[k as int]));
            assert(out@ =~= enc_nat(lv.len() as nat) + seq!['\n'] + enc_entries(
                lv.take(k + 1),
            ));
        }
        k = k + 1;
    }
    proof {
        assert(lv.take(lv.len() as int) =~= lv);
    }
    out
}

/// Reads a persisted log back. An empty text is an empty log; any other text
/// is accepted exactly when it is the encoding of some log, and then yields
/// that log. Repeated reads of the same text yield the same entries.
pub fn parse_log(s: &str) -> (r: Result<Vec<LogEntry>, LogError>)
    ensures
        s@.len() == 0 ==> (r matches Ok(v) && v@.len() == 0),
        r matches Ok(v) ==> wf_log(v.deep_view()) && (s@.len() == 0 && v@.len() == 0 || s@
            == enc_log(v.deep_view())),
        forall|l: Seq<EntryV>| #![auto]
            bounded_log(l) && s@ == enc_log(l) ==> r is Ok && r->Ok_0.deep_view() == l,
{
    let n = s.unicode_len();
    if n == 0 {
        proof {
            assert forall|l: Seq<EntryV>| !(bounded_log(l) && s@ == enc_log(l)) by {
                lemma_enc_nat_canonical(l.len() as nat);
                assert(enc_log(l).len() > 0);
            }
        }
        let out: Vec<LogEntry> = Vec::new();
        proof {
            assert(out.deep_view() =~= Seq::<EntryV>::empty());
        }
        return Ok(out);
    }
    proof {
        assert forall|l: Seq<EntryV>| bounded_log(l) && s@ == enc_log(l) implies (exists|
            v: u64,
            j: int,
        |
            0 < j <= s@.len() && s@.subrange(0, j) == enc_nat(v as nat) && (j == s@.len()
                || !is_digit(s@[j]))) by {
            lemma_enc_entries_len_ge(l);
            assert(l.len() <= u64::MAX) by {
                assert(enc_log(l).len() >= enc_entries(l).len());
            }
            let vw: u64 = l.len() as u64;
            let jw = enc_nat(l.len() as nat).len() as int;
            assert(s@.subrange(0, jw) =~= enc_nat(vw as nat)) by {
                assert(forall|k: int|
                    0 <= k < jw ==> s@.subrange(0, jw)[k] == enc_log(l)[k] && enc_log(l)[k]
                        == enc_nat(l.len() as nat)[k]);
            }
            assert(s@[jw] == '\n') by {
                assert(enc_log(l)[jw] == '\n');
            }
            assert(!is_digit(s@[jw]));
            assert(0 < jw <= s@.len());
        }
    }
    let c0 = parse_nat(s, 0);
    if c0.is_none() {
        return Err(LogError::Malformed);
    }
    let (cnt, p0) = c0.unwrap();
    proof {
        assert forall|l: Seq<EntryV>| bounded_log(l) && s@ == enc_log(l) implies cnt == l.len()
            && p0 < s@.len() && s@[p0 as int] == '\n' by {
            let jw = enc_nat(l.len() as nat).len() as int;
            assert(s@.subrange(0, jw) =~= enc_nat(l.len() as nat)) by {
                assert(forall|k: int|
                    0 <= k < jw ==> s@.subrange(0, jw)[k] == enc_log(l)[k] && enc_log(l)[k]
                        == enc_nat(l.len() as nat)[k]);
            }
            assert(s@[jw] == '\n') by {
                assert(enc_log(l)[jw] == '\n');
            }
            assert(!is_digit(s@[jw]));
            assert(enc_log(l).len() == jw + 1 + enc_entries(l).len());
            lemma_nat_at_unique(s@, 0, p0 as int, cnt as nat, jw, l.len() as nat);
        }
    }
    if p0 == n {
        return Err(LogError::Malformed);
    }
    let cnl = s.get_char(p0);
    if cnl != '\n' {
        return Err(LogError::Malformed);
    }
    let mut pos: usize = p0 + 1;
    let mut out: Vec<LogEntry> = Vec::new();
    let mut k: u64 = 0;
    proof {
        assert(out.deep_view() =~= Seq::<EntryV>::empty());
        assert(s@.subrange(p0 + 1, pos as int) =~= enc_entries(out.deep_view()));
    }
    while k < cnt
        invariant
            n == s@.len(),
            0 <= p0 < n,
            p0 + 1 <= pos <= n,
            0 <= k <= cnt,
            out@.len() == k as int,
            wf_log(out.deep_view()),
            bounded_log(out.deep_view()),
            s@.subrange(0, p0 as int) == enc_nat(cnt as nat),
            s@[p0 as int] == '\n',
            s@.subrange(p0 + 1, pos as int) == enc_entries(out.deep_view()),
        decreases cnt - k,
    {
        proof {
            assert forall|l: Seq<EntryV>| bounded_log(l) && s@ == enc_log(l) implies (exists|
                ev: EntryV,
                jv: int,
            | entry_at(s@, pos as int, jv, ev)) by {
                lemma_log_progress(
                    s@,
                    cnt as nat,
                    p0 as int,
                    pos as int,
                    out.deep_view(),
                    l,
                );
                let suf = l.skip(k as int);
                assert(suf.len() > 0);
                assert(s@.subrange(pos as int, n as int) == enc_entry(suf[0]) + enc_entries(
                    suf.subrange(1, suf.len() as int),
                ));
                lemma_concat_at(
                    s@,
                    pos as int,
                    n as int,
                    enc_entry(suf[0]),
                    enc_entries(suf.subrange(1, suf.len() as int)),
                );
                assert(enc_entry(suf[0]).len() >= 1) by {
                    assert(enc_entry(suf[0])[enc_entry(suf[0]).len() - 1] == '\n');
                }
                let jw = pos + enc_entry(suf[0]).len() as int;
                assert(entry_at(s@, pos as int, jw, suf[0]));
            }
        }
        let er = parse_entry(s, pos);
        if er.is_none() {
            return Err(LogError::Malformed);
        }
        let (e, pos2) = er.unwrap();
        let ghost out0 = out.deep_view();
        out.push(e);
        proof {
            assert(out.deep_view() =~= out0.push(e@)) by {
                assert(out@ == out@.subrange(0, out@.len() - 1).push(e));
                assert(forall|t: int|
                    0 <= t < out@.len() ==> out.deep_view()[t] == out@[t].deep_view());
                assert(forall|t: int| 0 <= t < out0.len() ==> out@[t].deep_view() == out0[t]);
                assert(out@[out@.len() - 1] == e);
            }
            lemma_enc_entries_snoc(out0, e@);
            assert(s@.subrange(p0 + 1, pos2 as int) =~= enc_entries(out0) + enc_entry(e@)) by {
                assert(s@.subrange(p0 + 1, pos as int) + s@.subrange(pos as int, pos2 as int)
                    =~= s@.subrange(p0 + 1, pos2 as int));
            }
            assert(wf_log(out.deep_view()) && bounded_log(out.deep_view())) by {
                assert(forall|t: int|
                    0 <= t < out0.len() ==> out.deep_view()[t] == out0[t]);
                assert(out.deep_view()[out0.len() as int] == e@);
            }
        }
        pos = pos2;
        k = k + 1;
    }
    if pos != n {
        proof {
            assert forall|l: Seq<EntryV>| !(bounded_log(l) && s@ == enc_log(l)) by {
                if bounded_log(l) && s@ == enc_log(l) {
                    lemma_log_progress(
                        s@,
                        cnt as nat,
                        p0 as int,
                        pos as int,
                        out.deep_view(),
                        l,
                    );
                    assert(s@.subrange(pos as int, n as int) == enc_entries(
                        l.skip(l.len() as int),
                    ));
                    assert(l.skip(l.len() as int).len() == 0);
                    assert(s@.subrange(pos as int, n as int).len() == 0);
                    assert(false);
                }
            }
        }
        return Err(LogError::Malformed);
    }
    proof {
        assert(s@ == enc_log(out.deep_view())) by {
            assert(out.deep_view().len() == cnt as int);
            assert(s@ =~= enc_nat(cnt as nat) + seq!['\n'] + enc_entries(out.deep_view())) by {
                assert(forall|t: int|
                    0 <= t < p0 ==> s@[t] == #[trigger] s@.subrange(0, p0 as int)[t]);
                assert(forall|t: int|
                    0 <= t < n - p0 - 1 ==> s@[p0 + 1 + t] == #[trigger] s@.subrange(
                        p0 + 1,
                        n as int,
                    )[t]);
            }
        }
        assert forall|l: Seq<EntryV>| bounded_log(l) && s@ == enc_log(l) implies out.deep_view()
            == l by {
            lemma_enc_log_injective(out.deep_view(), l);
        }
    }
    Ok(out)
}

} // verus!
