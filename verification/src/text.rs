//! Small helpers for moving between `&str`, `String` and `Vec<char>`, and for
//! rendering unsigned numbers as decimal text.

use vstd::prelude::*;

verus! {

/// Appends one character to a string.
///
/// Relies on `String::push`: appends the given `char` to the end of the
/// string.
#[verifier::external_body]
pub(crate) fn push_char(s: &mut String, c: char)
    ensures
        final(s)@ == old(s)@.push(c),
{
    s.push(c);
}

/// Builds an owned string holding exactly the given characters.
pub fn chars_to_string(v: &Vec<char>) -> (r: String)
    ensures
        r@ == v@,
{
    let mut r = String::new();
    let mut i: usize = 0;
    while i < v.len()
        invariant
            i <= v@.len(),
            r@ == v@.take(i as int),
        decreases v@.len() - i,
    {
        push_char(&mut r, v[i]);
        proof {
            assert(v@.take(i + 1 as int) =~= v@.take(i as int).push(v@[i as int]));
        }
        i = i + 1;
    }
    proof {
        assert(v@.take(v@.len() as int) =~= v@);
    }
    r
}

/// Collects the characters of a string slice into a vector.
pub fn str_to_chars(s: &str) -> (r: Vec<char>)
    ensures
        r@ == s@,
{
    let n = s.unicode_len();
    let mut r: Vec<char> = Vec::new();
    let mut i: usize = 0;
    while i < n
        invariant
            n == s@.len(),
            i <= n,
            r@ == s@.take(i as int),
        decreases n - i,
    {
        r.push(s.get_char(i));
        proof {
            assert(s@.take(i + 1 as int) =~= s@.take(i as int).push(s@[i as int]));
        }
        i = i + 1;
    }
    proof {
        assert(s@.take(n as int) =~= s@);
    }
    r
}

/// The character for a single decimal digit.
pub open spec fn digit_char(d: nat) -> char {
    if d == 0 {
        '0'
    } else if d == 1 {
        '1'
    } else if d == 2 {
        '2'
    } else if d == 3 {
        '3'
    } else if d == 4 {
        '4'
    } else if d == 5 {
        '5'
    } else if d == 6 {
        '6'
    } else if d == 7 {
        '7'
    } else if d == 8 {
        '8'
    } else {
        '9'
    }
}

/// The decimal rendering of `n`, most significant digit first, no sign and
/// no leading zeros (`0` is rendered as `"0"`).
pub open spec fn dec_digits(n: nat) -> Seq<char>
    decreases n,
{
    if n < 10 {
        seq![digit_char(n)]
    } else {
        dec_digits(n / 10).push(digit_char(n % 10))
    }
}

/// Whether `c` is a decimal digit character.
pub open spec fn is_digit(c: char) -> bool {
    c == '0' || c == '1' || c == '2' || c == '3' || c == '4' || c == '5' || c == '6' || c == '7'
        || c == '8' || c == '9'
}

/// The numeric value of a decimal digit character.
pub open spec fn digit_value(c: char) -> nat {
    if c == '0' {
        0
    } else if c == '1' {
        1
    } else if c == '2' {
        2
    } else if c == '3' {
        3
    } else if c == '4' {
        4
    } else if c == '5' {
        5
    } else if c == '6' {
        6
    } else if c == '7' {
        7
    } else if c == '8' {
        8
    } else {
        9
    }
}

/// A one-character string slice for the given decimal digit.
pub fn digit_str(d: u64) -> (r: &'static str)
    requires
        d < 10,
    ensures
        r@ =~= seq![digit_char(d as nat)],
{
    proof {
        reveal_strlit("0");
        reveal_strlit("1");
        reveal_strlit("2");
        reveal_strlit("3");
        reveal_strlit("4");
        reveal_strlit("5");
        reveal_strlit("6");
        reveal_strlit("7");
        reveal_strlit("8");
        reveal_strlit("9");
    }
    if d == 0 {
        "0"
    } else if d == 1 {
        "1"
    } else if d == 2 {
        "2"
    } else if d == 3 {
        "3"
    } else if d == 4 {
        "4"
    } else if d == 5 {
        "5"
    } else if d == 6 {
        "6"
    } else if d == 7 {
        "7"
    } else if d == 8 {
        "8"
    } else {
        "9"
    }
}

/// Appends the decimal rendering of `n` to `out`.
pub fn append_dec(out: &mut String, n: u64)
    ensures
        final(out)@ == old(out)@ + dec_digits(n as nat),
    decreases n,
{
    if n < 10 {
        out.append(digit_str(n));
    } else {
        append_dec(out, n / 10);
        out.append(digit_str(n % 10));
    }
}

/// The decimal rendering of `n` as an owned string.
pub fn u64_to_dec(n: u64) -> (r: String)
    ensures
        r@ == dec_digits(n as nat),
{
    let mut r = String::new();
    append_dec(&mut r, n);
    proof {
        assert(Seq::<char>::empty() + dec_digits(n as nat) =~= dec_digits(n as nat));
    }
    r
}

/// Every character of a decimal rendering is a digit, and the rendering is
/// never empty.
pub proof fn lemma_dec_digits_are_digits(n: nat)
    ensures
        dec_digits(n).len() >= 1,
        forall|i: int| 0 <= i < dec_digits(n).len() ==> is_digit(#[trigger] dec_digits(n)[i]),
    decreases n,
{
    if n >= 10 {
        lemma_dec_digits_are_digits(n / 10);
    }
}

/// The number a sequence of digit characters denotes, most significant digit
/// first.
pub open spec fn digits_value(s: Seq<char>) -> nat
    decreases s.len(),
{
    if s.len() == 0 {
        0
    } else {
        digits_value(s.drop_last()) * 10 + digit_value(s.last())
    }
}

/// A number renders as a token: its digits followed by one space.
pub open spec fn enc_num(n: nat) -> Seq<char> {
    dec_digits(n).push(' ')
}

/// Reading back the decimal rendering gives the number itself.
pub proof fn lemma_digits_value_of_dec(n: nat)
    ensures
        digits_value(dec_digits(n)) == n,
    decreases n,
{
    if n < 10 {
        assert(dec_digits(n) == seq![digit_char(n)]);
        assert(dec_digits(n).drop_last() =~= Seq::<char>::empty());
        assert(digits_value(Seq::<char>::empty()) == 0);
        assert(dec_digits(n).last() == digit_char(n));
        assert(digit_value(digit_char(n)) == n);
    } else {
        lemma_digits_value_of_dec(n / 10);
        assert(dec_digits(n).drop_last() =~= dec_digits(n / 10));
        assert(dec_digits(n).last() == digit_char(n % 10));
        assert(digit_value(digit_char(n % 10)) == n % 10);
        assert(n / 10 * 10 + n % 10 == n) by {
            vstd::arithmetic::div_mod::lemma_fundamental_div_mod(n as int, 10);
        }
    }
}

/// A positive number never renders with a leading zero.
pub proof fn lemma_dec_digits_first_nonzero(n: nat)
    ensures
        n >= 1 ==> dec_digits(n)[0] != '0',
    decreases n,
{
    if n >= 10 {
        lemma_dec_digits_first_nonzero(n / 10);
        assert(dec_digits(n)[0] == dec_digits(n / 10)[0]);
        lemma_dec_digits_are_digits(n / 10);
    }
}

/// A canonical digit run (no leading zero unless it is just `"0"`) denotes at
/// least 1 when it starts with a nonzero digit, and at least 10 when it is
/// longer than one digit.
pub proof fn lemma_digits_value_lower(d: Seq<char>)
    requires
        d.len() >= 1,
        forall|i: int| 0 <= i < d.len() ==> is_digit(#[trigger] d[i]),
        d[0] != '0',
    ensures
        digits_value(d) >= 1,
        d.len() >= 2 ==> digits_value(d) >= 10,
    decreases d.len(),
{
    if d.len() == 1 {
        assert(d.drop_last() =~= Seq::<char>::empty());
        assert(digit_value(d[0]) >= 1);
    } else {
        assert(d.drop_last()[0] == d[0]);
        lemma_digits_value_lower(d.drop_last());
    }
}

/// Rendering the value of a canonical digit run gives the run back.
pub proof fn lemma_dec_of_digits(d: Seq<char>)
    requires
        d.len() >= 1,
        forall|i: int| 0 <= i < d.len() ==> is_digit(#[trigger] d[i]),
        d.len() >= 2 ==> d[0] != '0',
    ensures
        dec_digits(digits_value(d)) == d,
    decreases d.len(),
{
    if d.len() == 1 {
        assert(d.drop_last() =~= Seq::<char>::empty());
        assert(digits_value(Seq::<char>::empty()) == 0);
        assert(d.last() == d[0]);
        assert(digits_value(d) == digit_value(d[0]));
        assert(dec_digits(digit_value(d[0])) =~= seq![digit_char(digit_value(d[0]))]);
        assert(digit_char(digit_value(d[0])) == d[0]);
        assert(dec_digits(digits_value(d)) =~= d);
    } else {
        let v = digits_value(d);
        assert(d.drop_last()[0] == d[0]);
        lemma_dec_of_digits(d.drop_last());
        lemma_digits_value_lower(d.drop_last());
        assert(v == digits_value(d.drop_last()) * 10 + digit_value(d.last()));
        assert(digit_value(d.last()) < 10);
        assert(v >= 10);
        assert(v / 10 == digits_value(d.drop_last()) && v % 10 == digit_value(d.last())) by {
            vstd::arithmetic::div_mod::lemma_fundamental_div_mod_converse(
                v as int,
                10,
                digits_value(d.drop_last()) as int,
                digit_value(d.last()) as int,
            );
        }
        assert(dec_digits(v) == dec_digits(v / 10).push(digit_char(v % 10)));
        assert(digit_char(digit_value(d.last())) == d.last());
        assert(dec_digits(v) =~= d);
    }
}

/// A number grows (weakly) as more digits are appended to its run.
pub proof fn lemma_digits_value_take_le(d: Seq<char>, m: int)
    requires
        0 <= m <= d.len(),
    ensures
        digits_value(d.take(m)) <= digits_value(d),
    decreases d.len() - m,
{
    if m < d.len() {
        lemma_digits_value_take_le(d, m + 1);
        assert(d.take(m + 1).drop_last() =~= d.take(m));
        assert(digits_value(d.take(m + 1)) == digits_value(d.take(m)) * 10 + digit_value(
            d.take(m + 1).last(),
        ));
    } else {
        assert(d.take(m) =~= d);
    }
}

/// A prefix agrees with the longer sequence position by position.
pub proof fn lemma_prefix_index(p: Seq<char>, s: Seq<char>)
    requires
        p.is_prefix_of(s),
    ensures
        p.len() <= s.len(),
        forall|i: int| 0 <= i < p.len() ==> p[i] == s[i],
{
    assert forall|i: int| 0 <= i < p.len() implies p[i] == s[i] by {
        assert(p[i] == s.subrange(0, p.len() as int)[i]);
    }
}

/// Two number tokens starting at the same place are the same token: the token
/// boundary (the first space) and the canonical digits determine the value.
pub proof fn lemma_enc_num_unique(a: nat, b: nat, s: Seq<char>)
    requires
        enc_num(a).is_prefix_of(s),
        enc_num(b).is_prefix_of(s),
    ensures
        a == b,
{
    let da = dec_digits(a);
    let db = dec_digits(b);
    lemma_dec_digits_are_digits(a);
    lemma_dec_digits_are_digits(b);
    lemma_prefix_index(enc_num(a), s);
    lemma_prefix_index(enc_num(b), s);
    assert(enc_num(a)[da.len() as int] == ' ');
    assert(enc_num(b)[db.len() as int] == ' ');
    assert(!is_digit(' '));
    if da.len() < db.len() {
        assert(s[da.len() as int] == ' ');
        assert(enc_num(b)[da.len() as int] == db[da.len() as int]);
        assert(is_digit(db[da.len() as int]));
        assert(false);
    }
    if db.len() < da.len() {
        assert(s[db.len() as int] == ' ');
        assert(enc_num(a)[db.len() as int] == da[db.len() as int]);
        assert(is_digit(da[db.len() as int]));
        assert(false);
    }
    assert(da =~= db) by {
        assert forall|i: int| 0 <= i < da.len() implies da[i] == db[i] by {
            assert(enc_num(a)[i] == s[i] && enc_num(b)[i] == s[i]);
            assert(enc_num(a)[i] == da[i] && enc_num(b)[i] == db[i]);
        }
    }
    lemma_digits_value_of_dec(a);
    lemma_digits_value_of_dec(b);
}

/// The numeric value of a decimal digit character, or `None` for any other
/// character.
pub(crate) fn digit_of(c: char) -> (r: Option<u64>)
    ensures
        match r {
            Some(v) => is_digit(c) && v < 10 && v as nat == digit_value(c),
            None => !is_digit(c),
        },
{
    if c == '0' {
        Some(0)
    } else if c == '1' {
        Some(1)
    } else if c == '2' {
        Some(2)
    } else if c == '3' {
        Some(3)
    } else if c == '4' {
        Some(4)
    } else if c == '5' {
        Some(5)
    } else if c == '6' {
        Some(6)
    } else if c == '7' {
        Some(7)
    } else if c == '8' {
        Some(8)
    } else if c == '9' {
        Some(9)
    } else {
        None
    }
}


/// Where a number token can start, the digit run and the terminating space
/// are forced: the token is exactly the maximal digit run up to the first
/// non-digit, which must be a space.
pub(crate) proof fn lemma_num_token_forced(s: Seq<char>, pos: int, end: int, v: nat)
    requires
        0 <= pos <= end <= s.len(),
        forall|x: int| pos <= x < end ==> is_digit(#[trigger] s[x]),
        end == s.len() || !is_digit(s[end]),
        enc_num(v).is_prefix_of(s.skip(pos)),
    ensures
        dec_digits(v).len() == end - pos,
        dec_digits(v) == s.subrange(pos, end),
        end < s.len() && s[end] == ' ',
        v == digits_value(s.subrange(pos, end)),
{
    let tail = s.skip(pos);
    lemma_prefix_index(enc_num(v), tail);
    lemma_dec_digits_are_digits(v);
    let la = dec_digits(v).len() as int;
    assert(forall|i: int| 0 <= i < tail.len() ==> tail[i] == s[pos + i]);
    assert(enc_num(v)[la] == ' ');
    assert(forall|i: int| 0 <= i < la ==> enc_num(v)[i] == dec_digits(v)[i]);
    assert(!is_digit(' '));
    if la < end - pos {
        assert(tail[la] == s[pos + la]);
        assert(is_digit(s[pos + la]));
        assert(tail[la] == ' ');
        assert(false);
    }
    if la > end - pos {
        if end == s.len() {
            assert(tail.len() == s.len() - pos);
            assert(enc_num(v).len() == la + 1);
            assert(false);
        } else {
            assert(tail[end - pos] == s[end]);
            assert(enc_num(v)[end - pos] == dec_digits(v)[end - pos]);
            assert(is_digit(dec_digits(v)[end - pos]));
            assert(false);
        }
    }
    assert(la == end - pos);
    assert(tail.len() >= la + 1);
    assert(end < s.len());
    assert(tail[la] == s[end]);
    assert(s[end] == ' ');
    assert(dec_digits(v) =~= s.subrange(pos, end)) by {
        assert forall|i: int| 0 <= i < la implies dec_digits(v)[i] == s.subrange(pos, end)[i] by {
            assert(dec_digits(v)[i] == tail[i]);
            assert(tail[i] == s[pos + i]);
        }
    }
    lemma_digits_value_of_dec(v);
}

/// Reads one number token (digits then a space) beginning at `pos`. Returns
/// the value and the position just past the token; fails exactly when no
/// number token representable in a `u64` begins there.
pub(crate) fn read_num(s: &Vec<char>, pos: usize) -> (r: Option<(u64, usize)>)
    requires
        pos <= s@.len(),
    ensures
        match r {
            Some(p) => {
                &&& pos < p.1 <= s@.len()
                &&& s@.subrange(pos as int, p.1 as int) == enc_num(p.0 as nat)
            },
            None => forall|v: nat|
                #[trigger] enc_num(v).is_prefix_of(s@.skip(pos as int)) ==> v > u64::MAX,
        },
{
    let n = s.len();
    let mut end: usize = pos;
    loop
        invariant
            pos <= end <= n,
            n == s@.len(),
            forall|x: int| pos <= x < end ==> is_digit(#[trigger] s@[x]),
        ensures
            pos <= end <= n,
            forall|x: int| pos <= x < end ==> is_digit(#[trigger] s@[x]),
            end == n || !is_digit(s@[end as int]),
        decreases n - end,
    {
        if end >= n {
            break ;
        }
        if digit_of(s[end]).is_none() {
            break ;
        }
        end = end + 1;
    }
    let ghost run = s@.subrange(pos as int, end as int);
    if end == pos {
        proof {
            assert forall|v: nat|
                #[trigger] enc_num(v).is_prefix_of(s@.skip(pos as int)) implies v > u64::MAX by {
                lemma_num_token_forced(s@, pos as int, end as int, v);
                lemma_dec_digits_are_digits(v);
            }
        }
        return None;
    }
    if end - pos >= 2 && digit_of(s[pos]).unwrap() == 0 {
        proof {
            assert forall|v: nat|
                #[trigger] enc_num(v).is_prefix_of(s@.skip(pos as int)) implies v > u64::MAX by {
                lemma_num_token_forced(s@, pos as int, end as int, v);
                lemma_dec_digits_first_nonzero(v);
                assert(dec_digits(v)[0] == s@[pos as int]);
                assert(s@[pos as int] == '0');
                assert(v == 0);
                assert(dec_digits(0) == seq![digit_char(0)]);
                assert(false);
            }
        }
        return None;
    }
    if end == n {
        proof {
            assert forall|v: nat|
                #[trigger] enc_num(v).is_prefix_of(s@.skip(pos as int)) implies v > u64::MAX by {
                lemma_num_token_forced(s@, pos as int, end as int, v);
                assert(false);
            }
        }
        return None;
    }
    if s[end] != ' ' {
        proof {
            assert forall|v: nat|
                #[trigger] enc_num(v).is_prefix_of(s@.skip(pos as int)) implies v > u64::MAX by {
                lemma_num_token_forced(s@, pos as int, end as int, v);
                assert(false);
            }
        }
        return None;
    }
    let mut acc: u64 = 0;
    let mut x: usize = pos;
    while x < end
        invariant
            pos <= x <= end <= n,
            n == s@.len(),
            end < n,
            run == s@.subrange(pos as int, end as int),
            forall|y: int| pos <= y < end ==> is_digit(#[trigger] s@[y]),
            end == n || !is_digit(s@[end as int]),
            s@[end as int] == ' ',
            end - pos >= 2 ==> s@[pos as int] != '0',
            end > pos,
            acc as nat == digits_value(s@.subrange(pos as int, x as int)),
        decreases end - x,
    {
        let d = digit_of(s[x]).unwrap();
        if acc > (u64::MAX - d) / 10 {
            proof {
                let partial = s@.subrange(pos as int, x + 1 as int);
                assert(partial.drop_last() =~= s@.subrange(pos as int, x as int));
                assert(partial.last() == s@[x as int]);
                assert(digits_value(partial) == acc as nat * 10 + digit_value(s@[x as int]));
                let q = ((u64::MAX - d) / 10) as nat;
                assert((u64::MAX - d) as nat == q * 10 + ((u64::MAX - d) as nat % 10)) by {
                    vstd::arithmetic::div_mod::lemma_fundamental_div_mod((u64::MAX - d) as int, 10);
                }
                assert(acc as nat * 10 >= (q + 1) * 10) by (nonlinear_arith)
                    requires acc as nat >= q + 1;
                assert(digits_value(partial) > u64::MAX);
                assert(run.take(x + 1 - pos as int) =~= partial);
                lemma_digits_value_take_le(run, x + 1 - pos as int);
                assert(digits_value(run) > u64::MAX);
                assert forall|v: nat|
                    #[trigger] enc_num(v).is_prefix_of(s@.skip(pos as int)) implies v
                    > u64::MAX by {
                    lemma_num_token_forced(s@, pos as int, end as int, v);
                }
            }
            return None;
        }
        proof {
            let q = ((u64::MAX - d) / 10) as nat;
            assert((u64::MAX - d) as nat == q * 10 + ((u64::MAX - d) as nat % 10)) by {
                vstd::arithmetic::div_mod::lemma_fundamental_div_mod((u64::MAX - d) as int, 10);
            }
            assert(acc as nat * 10 <= q * 10) by (nonlinear_arith)
                requires acc as nat <= q;
            let partial = s@.subrange(pos as int, x + 1 as int);
            assert(partial.drop_last() =~= s@.subrange(pos as int, x as int));
            assert(partial.last() == s@[x as int]);
        }
        acc = acc * 10 + d;
        x = x + 1;
    }
    proof {
        assert(acc as nat == digits_value(run));
        lemma_dec_of_digits(run);
        assert(s@.subrange(pos as int, end + 1 as int) =~= enc_num(acc as nat)) by {
            assert(dec_digits(acc as nat) == run);
            assert(s@.subrange(pos as int, end + 1 as int).drop_last() =~= run);
            assert(s@.subrange(pos as int, end + 1 as int).last() == s@[end as int]);
            assert(enc_num(acc as nat).drop_last() =~= dec_digits(acc as nat));
        }
    }
    Some((acc, end + 1))
}

} // verus!
