use vstd::prelude::*;

use vstd::arithmetic::div_mod::lemma_fundamental_div_mod;
use vstd::string::StrSliceExecFns;

use crate::config::{Config, ConfigView, Database, DatabaseView};
use crate::errors::PbusError;
use crate::lookup::{has_key, lemma_has_key_exists, unique_keys};
use crate::targets::{TableField, Target, TargetView};

verus! {

// ---------------------------------------------------------------------
// The persisted registry document is a flat character stream: unsigned
// numbers as decimal digits closed by ';', signed numbers with a leading
// '-', booleans as 'T'/'F', and strings as a length followed by the raw
// characters (so no escaping is ever needed). Every field of the
// registry is written in a fixed order.
// ---------------------------------------------------------------------
pub open spec fn is_digit(c: char) -> bool {
    c == '0' || c == '1' || c == '2' || c == '3' || c == '4' || c == '5' || c == '6' || c == '7'
        || c == '8' || c == '9'
}

pub open spec fn digit_char(d: int) -> char {
    if d == 0 {
        '0'
    } else if d == 1 {
        '1'
    } else if d == 2 {
        '2'
    } else if d == 3 {
        '3'
    } else if d == 4 {
        '4'
    } else if d == 5 {
        '5'
    } else if d == 6 {
        '6'
    } else if d == 7 {
        '7'
    } else if d == 8 {
        '8'
    } else {
        '9'
    }
}

pub open spec fn digit_val(c: char) -> nat {
    if c == '0' {
        0
    } else if c == '1' {
        1
    } else if c == '2' {
        2
    } else if c == '3' {
        3
    } else if c == '4' {
        4
    } else if c == '5' {
        5
    } else if c == '6' {
        6
    } else if c == '7' {
        7
    } else if c == '8' {
        8
    } else {
        9
    }
}

/// The decimal digits of `n`, most significant first.
pub open spec fn enc_nat(n: nat) -> Seq<char>
    decreases n,
{
    if n < 10 {
        seq![digit_char(n as int)]
    } else {
        enc_nat(n / 10) + seq![digit_char((n % 10) as int)]
    }
}

pub open spec fn enc_u64_s(n: nat) -> Seq<char> {
    enc_nat(n) + seq![';']
}

pub open spec fn enc_i64_s(v: int) -> Seq<char> {
    if v >= 0 {
        enc_u64_s(v as nat)
    } else {
        seq!['-'] + enc_u64_s((-v) as nat)
    }
}

pub open spec fn enc_bool_s(b: bool) -> Seq<char> {
    if b {
        seq!['T']
    } else {
        seq!['F']
    }
}

pub open spec fn enc_str_s(s: Seq<char>) -> Seq<char> {
    enc_u64_s(s.len()) + s
}

/// Greedily consume leading digits, folding them onto `acc`.
pub open spec fn parse_digits(s: Seq<char>, acc: nat) -> (nat, Seq<char>)
    decreases s.len(),
{
    if s.len() == 0 || !is_digit(s[0]) {
        (acc, s)
    } else {
        parse_digits(s.drop_first(), acc * 10 + digit_val(s[0]))
    }
}

pub open spec fn parse_u64_s(s: Seq<char>) -> Option<(u64, Seq<char>)> {
    if s.len() == 0 || !is_digit(s[0]) {
        None
    } else {
        let n = parse_digits(s, 0).0;
        let rest = parse_digits(s, 0).1;
        if n > u64::MAX {
            None
        } else if rest.len() == 0 || rest[0] != ';' {
            None
        } else {
            Some((n as u64, rest.drop_first()))
        }
    }
}

pub open spec fn parse_i64_s(s: Seq<char>) -> Option<(i64, Seq<char>)> {
    if s.len() == 0 {
        None
    } else if s[0] == '-' {
        match parse_u64_s(s.drop_first()) {
            None => None,
            Some((m, rest)) => if 1 <= m <= (i64::MAX as u64) + 1 {
                Some(((-((m - 1) as int) - 1) as i64, rest))
            } else {
                None
            },
        }
    } else {
        match parse_u64_s(s) {
            None => None,
            Some((m, rest)) => if m <= i64::MAX as u64 {
                Some((m as i64, rest))
            } else {
                None
            },
        }
    }
}

pub open spec fn parse_bool_s(s: Seq<char>) -> Option<(bool, Seq<char>)> {
    if s.len() == 0 {
        None
    } else if s[0] == 'T' {
        Some((true, s.drop_first()))
    } else if s[0] == 'F' {
        Some((false, s.drop_first()))
    } else {
        None
    }
}

pub open spec fn parse_str_s(s: Seq<char>) -> Option<(Seq<char>, Seq<char>)> {
    match parse_u64_s(s) {
        None => None,
        Some((n, rest)) => if rest.len() >= n {
            Some((rest.take(n as int), rest.skip(n as int)))
        } else {
            None
        },
    }
}

proof fn lemma_enc_nat_digits(n: nat)
    ensures
        enc_nat(n).len() >= 1,
        is_digit(enc_nat(n)[0]),
    decreases n,
{
    if n >= 10 {
        lemma_enc_nat_digits(n / 10);
        assert(enc_nat(n)[0] == enc_nat(n / 10)[0]);
    }
}

/// Folding the encoded digits of `n` onto an empty accumulator and then
/// continuing into `rest` is the same as starting on `rest` with `n`.
proof fn lemma_parse_enc_nat(n: nat, rest: Seq<char>)
    ensures
        parse_digits(enc_nat(n) + rest, 0) == parse_digits(rest, n),
    decreases n,
{
    if n < 10 {
        let s = enc_nat(n) + rest;
        assert(s[0] == digit_char(n as int));
        assert(is_digit(s[0]) && digit_val(s[0]) == n);
        assert(s.drop_first() =~= rest);
    } else {
        let d = digit_char((n % 10) as int);
        lemma_parse_enc_nat(n / 10, seq![d] + rest);
        assert(enc_nat(n) + rest =~= enc_nat(n / 10) + (seq![d] + rest));
        let s2 = seq![d] + rest;
        assert(0 <= n % 10 < 10);
        assert(is_digit(s2[0]) && digit_val(s2[0]) == n % 10);
        assert(s2.drop_first() =~= rest);
        assert((n / 10) * 10 + n % 10 == n) by {
            lemma_fundamental_div_mod(n as int, 10);
        }
    }
}

/// The folded value never falls below the accumulator it started from.
proof fn lemma_parse_digits_ge(s: Seq<char>, acc: nat)
    ensures
        parse_digits(s, acc).0 >= acc,
    decreases s.len(),
{
    if s.len() != 0 && is_digit(s[0]) {
        lemma_parse_digits_ge(s.drop_first(), acc * 10 + digit_val(s[0]));
    }
}

pub proof fn lemma_rt_u64(n: u64, rest: Seq<char>)
    ensures
        parse_u64_s(enc_u64_s(n as nat) + rest) == Some((n, rest)),
{
    let s = enc_u64_s(n as nat) + rest;
    lemma_enc_nat_digits(n as nat);
    assert(s[0] == enc_nat(n as nat)[0]);
    assert(s =~= enc_nat(n as nat) + (seq![';'] + rest));
    lemma_parse_enc_nat(n as nat, seq![';'] + rest);
    let tail = seq![';'] + rest;
    assert(!is_digit(tail[0]));
    assert(parse_digits(tail, n as nat) == (n as nat, tail));
    assert(tail[0] == ';');
    assert(tail.drop_first() =~= rest);
}

pub proof fn lemma_rt_i64(v: i64, rest: Seq<char>)
    ensures
        parse_i64_s(enc_i64_s(v as int) + rest) == Some((v, rest)),
{
    if v >= 0 {
        lemma_rt_u64(v as u64, rest);
        let s = enc_i64_s(v as int) + rest;
        lemma_enc_nat_digits(v as nat);
        assert(s[0] == enc_nat(v as nat)[0]);
        assert(s[0] != '-');
    } else {
        let m = (-(v as int)) as u64;
        lemma_rt_u64(m, rest);
        let s = enc_i64_s(v as int) + rest;
        assert(s[0] == '-');
        assert(s.drop_first() =~= enc_u64_s(m as nat) + rest);
        assert(1 <= m <= (i64::MAX as u64) + 1);
        assert((-((m - 1) as int) - 1) as i64 == v);
    }
}

pub proof fn lemma_rt_bool(b: bool, rest: Seq<char>)
    ensures
        parse_bool_s(enc_bool_s(b) + rest) == Some((b, rest)),
{
    let s = enc_bool_s(b) + rest;
    assert(s.drop_first() =~= rest);
}

pub proof fn lemma_rt_str(q: Seq<char>, rest: Seq<char>)
    requires
        q.len() <= u64::MAX,
    ensures
        parse_str_s(enc_str_s(q) + rest) == Some((q, rest)),
{
    let s = enc_str_s(q) + rest;
    assert(s =~= enc_u64_s(q.len()) + (q + rest));
    lemma_rt_u64(q.len() as u64, q + rest);
    assert((q + rest).take(q.len() as int) =~= q);
    assert((q + rest).skip(q.len() as int) =~= rest);
}

// ---------------------------------------------------------------------
// Executable encoding
// ---------------------------------------------------------------------
/// Relies on String::push: appends exactly the one character.
#[verifier::external_body]
fn push_char(s: &mut String, c: char)
    ensures
        final(s)@ == old(s)@.push(c),
{
    s.push(c);
}

fn digit_of(d: u64) -> (c: char)
    requires
        d < 10,
    ensures
        c == digit_char(d as int),
{
    if d == 0 {
        '0'
    } else if d == 1 {
        '1'
    } else if d == 2 {
        '2'
    } else if d == 3 {
        '3'
    } else if d == 4 {
        '4'
    } else if d == 5 {
        '5'
    } else if d == 6 {
        '6'
    } else if d == 7 {
        '7'
    } else if d == 8 {
        '8'
    } else {
        '9'
    }
}

fn encode_digits(n: u64, out: &mut String)
    ensures
        final(out)@ == old(out)@ + enc_nat(n as nat),
    decreases n,
{
    if n < 10 {
        push_char(out, digit_of(n));
        proof {
            assert(final(out)@ =~= old(out)@ + enc_nat(n as nat));
        }
    } else {
        encode_digits(n / 10, out);
        push_char(out, digit_of(n % 10));
        proof {
            assert(final(out)@ =~= old(out)@ + enc_nat(n as nat));
        }
    }
}

fn encode_u64(n: u64, out: &mut String)
    ensures
        final(out)@ == old(out)@ + enc_u64_s(n as nat),
{
    encode_digits(n, out);
    push_char(out, ';');
    proof {
        assert(final(out)@ =~= old(out)@ + enc_u64_s(n as nat));
    }
}

fn encode_i64(v: i64, out: &mut String)
    ensures
        final(out)@ == old(out)@ + enc_i64_s(v as int),
{
    if v >= 0 {
        encode_u64(v as u64, out);
    } else {
        push_char(out, '-');
        let m: u64 = ((-(v + 1)) as u64) + 1;
        proof {
            assert(m as nat == (-(v as int)) as nat);
        }
        encode_u64(m, out);
        proof {
            assert(final(out)@ =~= old(out)@ + enc_i64_s(v as int));
        }
    }
}

fn encode_bool(b: bool, out: &mut String)
    ensures
        final(out)@ == old(out)@ + enc_bool_s(b),
{
    if b {
        push_char(out, 'T');
    } else {
        push_char(out, 'F');
    }
    proof {
        assert(final(out)@ =~= old(out)@ + enc_bool_s(b));
    }
}

fn encode_str(q: &str, out: &mut String)
    ensures
        final(out)@ == old(out)@ + enc_str_s(q@),
{
    let n = q.unicode_len();
    encode_u64(n as u64, out);
    let mut i: usize = 0;
    while i < n
        invariant
            n == q@.len(),
            i <= n,
            out@ == old(out)@ + enc_u64_s(q@.len()) + q@.take(i as int),
        decreases n - i,
    {
        push_char(out, q.get_char(i));
        proof {
            assert(q@.take(i as int + 1) =~= q@.take(i as int).push(q@[i as int]));
            assert(out@ =~= old(out)@ + enc_u64_s(q@.len()) + q@.take(i as int + 1));
        }
        i = i + 1;
    }
    proof {
        assert(q@.take(n as int) =~= q@);
        assert(final(out)@ =~= old(out)@ + enc_str_s(q@));
    }
}

// ---------------------------------------------------------------------
// Executable parsing
// ---------------------------------------------------------------------
fn digit_value_of(c: char) -> (r: Option<u64>)
    ensures
        is_digit(c) ==> (r matches Some(v) && v as nat == digit_val(c)),
        !is_digit(c) ==> r is None,
{
    match c {
        '0' => Some(0),
        '1' => Some(1),
        '2' => Some(2),
        '3' => Some(3),
        '4' => Some(4),
        '5' => Some(5),
        '6' => Some(6),
        '7' => Some(7),
        '8' => Some(8),
        '9' => Some(9),
        _ => None,
    }
}

fn parse_u64(s: &str, pos: usize) -> (r: Option<(u64, usize)>)
    requires
        pos <= s@.len(),
    ensures
        r matches Some(v) ==> parse_u64_s(s@.skip(pos as int)) == Some((
            v.0,
            s@.skip(v.1 as int),
        )) && pos <= v.1 <= s@.len(),
        r is None ==> parse_u64_s(s@.skip(pos as int)) is None,
{
    let n = s.unicode_len();
    let ghost orig = s@.skip(pos as int);
    if pos >= n {
        return None;
    }
    let first = digit_value_of(s.get_char(pos));
    if first.is_none() {
        proof {
            assert(orig[0] == s@[pos as int]);
        }
        return None;
    }
    let mut acc: u64 = 0;
    let mut i: usize = pos;
    while i < n && digit_value_of(s.get_char(i)).is_some()
        invariant
            n == s@.len(),
            pos <= i <= n,
            parse_digits(orig, 0) == parse_digits(s@.skip(i as int), acc as nat),
            orig == s@.skip(pos as int),
        decreases n - i,
    {
        let d = match digit_value_of(s.get_char(i)) {
            Some(d) => d,
            None => 0,
        };
        let ghost cur = s@.skip(i as int);
        proof {
            assert(cur[0] == s@[i as int]);
            assert(is_digit(cur[0]) && digit_val(cur[0]) == d as nat);
            assert(cur.drop_first() =~= s@.skip(i as int + 1));
        }
        if acc > u64::MAX / 10 {
            proof {
                lemma_parse_digits_ge(cur.drop_first(), acc as nat * 10 + d as nat);
                assert(acc as nat * 10 + d as nat > u64::MAX) by {
                    assert(acc as nat >= u64::MAX / 10 + 1);
                    assert(acc as nat * 10 >= (u64::MAX / 10 + 1) * 10) by (nonlinear_arith)
                        requires acc as nat >= u64::MAX / 10 + 1;
                    assert((u64::MAX / 10 + 1) * 10 > u64::MAX);
                }
                assert(parse_digits(orig, 0).0 > u64::MAX);
            }
            return None;
        }
        let acc10 = acc * 10;
        if d > u64::MAX - acc10 {
            proof {
                lemma_parse_digits_ge(cur.drop_first(), acc as nat * 10 + d as nat);
                assert(parse_digits(orig, 0).0 > u64::MAX);
            }
            return None;
        }
        acc = acc10 + d;
        i = i + 1;
    }
    // Digits ended: either the end of the text or a non-digit.
    let ghost rest = s@.skip(i as int);
    proof {
        if i < n {
            assert(rest[0] == s@[i as int]);
            assert(!is_digit(rest[0]));
        }
        assert(parse_digits(rest, acc as nat) == (acc as nat, rest));
        assert(parse_digits(orig, 0) == (acc as nat, rest));
    }
    if i >= n {
        return None;
    }
    if s.get_char(i) == ';' {
        proof {
            assert(rest[0] == ';');
            assert(rest.drop_first() =~= s@.skip(i as int + 1));
            assert(is_digit(orig[0]));
        }
        Some((acc, i + 1))
    } else {
        None
    }
}

fn parse_i64(s: &str, pos: usize) -> (r: Option<(i64, usize)>)
    requires
        pos <= s@.len(),
    ensures
        r matches Some(v) ==> parse_i64_s(s@.skip(pos as int)) == Some((
            v.0,
            s@.skip(v.1 as int),
        )) && pos <= v.1 <= s@.len(),
        r is None ==> parse_i64_s(s@.skip(pos as int)) is None,
{
    let n = s.unicode_len();
    if pos >= n {
        return None;
    }
    let ghost orig = s@.skip(pos as int);
    proof {
        assert(orig[0] == s@[pos as int]);
    }
    if s.get_char(pos) == '-' {
        proof {
            assert(orig.drop_first() =~= s@.skip(pos as int + 1));
        }
        match parse_u64(s, pos + 1) {
            None => None,
            Some((m, p2)) => {
                if 1 <= m && m <= 9223372036854775807u64 + 1 {
                    let v: i64 = -((m - 1) as i64) - 1;
                    proof {
                        assert(v as int == -((m - 1) as int) - 1);
                    }
                    Some((v, p2))
                } else {
                    None
                }
            },
        }
    } else {
        match parse_u64(s, pos) {
            None => None,
            Some((m, p2)) => {
                if m <= 9223372036854775807u64 {
                    Some((m as i64, p2))
                } else {
                    None
                }
            },
        }
    }
}

fn parse_bool(s: &str, pos: usize) -> (r: Option<(bool, usize)>)
    requires
        pos <= s@.len(),
    ensures
        r matches Some(v) ==> parse_bool_s(s@.skip(pos as int)) == Some((
            v.0,
            s@.skip(v.1 as int),
        )) && pos <= v.1 <= s@.len(),
        r is None ==> parse_bool_s(s@.skip(pos as int)) is None,
{
    let n = s.unicode_len();
    if pos >= n {
        return None;
    }
    let ghost orig = s@.skip(pos as int);
    proof {
        assert(orig[0] == s@[pos as int]);
        assert(orig.drop_first() =~= s@.skip(pos as int + 1));
    }
    let c = s.get_char(pos);
    if c == 'T' {
        Some((true, pos + 1))
    } else if c == 'F' {
        Some((false, pos + 1))
    } else {
        None
    }
}

fn parse_str(s: &str, pos: usize) -> (r: Option<(String, usize)>)
    requires
        pos <= s@.len(),
    ensures
        r matches Some(v) ==> (parse_str_s(s@.skip(pos as int)) matches Some(x) && x.0 == v.0@
            && x.1 == s@.skip(v.1 as int)) && pos <= v.1 <= s@.len(),
        r is None ==> parse_str_s(s@.skip(pos as int)) is None,
{
    let n = s.unicode_len();
    let ghost orig = s@.skip(pos as int);
    match parse_u64(s, pos) {
        None => None,
        Some((len, p2)) => {
            let ghost rest = s@.skip(p2 as int);
            if len > (n - p2) as u64 {
                proof {
                    assert(rest.len() < len);
                }
                None
            } else {
                let len_u: usize = len as usize;
                let mut out = String::new();
                let mut i: usize = 0;
                while i < len_u
                    invariant
                        n == s@.len(),
                        pos <= p2 <= n,
                        len_u as int == len as int,
                        p2 + len_u <= n,
                        out@ == s@.skip(p2 as int).take(i as int),
                        i <= len_u,
                    decreases len_u - i,
                {
                    push_char(&mut out, s.get_char(p2 + i));
                    proof {
                        let rr = s@.skip(p2 as int);
                        assert(rr[i as int] == s@[p2 as int + i as int]);
                        assert(rr.take(i as int + 1) =~= rr.take(i as int).push(rr[i as int]));
                    }
                    i = i + 1;
                }
                proof {
                    assert(rest.len() >= len);
                    assert(out@ == rest.take(len as int));
                    assert(rest.skip(len as int) =~= s@.skip(p2 as int + len as int));
                }
                Some((out, p2 + len_u))
            }
        },
    }
}


// ---------------------------------------------------------------------
// Registry document: spec-level encoding
// ---------------------------------------------------------------------
pub open spec fn enc_field_s(p: (Seq<char>, Seq<char>)) -> Seq<char> {
    enc_str_s(p.0) + enc_str_s(p.1)
}

pub open spec fn enc_fields_s(fs: Seq<(Seq<char>, Seq<char>)>, j: int) -> Seq<char>
    decreases j,
{
    if j <= 0 {
        Seq::<char>::empty()
    } else {
        enc_fields_s(fs, j - 1) + enc_field_s(fs[j - 1])
    }
}

pub open spec fn enc_target_s(t: TargetView) -> Seq<char> {
    enc_str_s(t.name) + enc_u64_s(t.fields.len()) + enc_fields_s(t.fields, t.fields.len() as int)
        + enc_i64_s(t.last_id) + enc_u64_s(t.last_updated as nat) + enc_u64_s(
        t.last_checked as nat,
    ) + enc_bool_s(t.enabled)
}

pub open spec fn enc_targets_s(ts: Seq<TargetView>, j: int) -> Seq<char>
    decreases j,
{
    if j <= 0 {
        Seq::<char>::empty()
    } else {
        enc_targets_s(ts, j - 1) + enc_target_s(ts[j - 1])
    }
}

pub open spec fn enc_db_s(d: DatabaseView) -> Seq<char> {
    enc_str_s(d.database_host) + enc_u64_s(d.server_port as nat) + enc_str_s(d.database_user)
        + enc_str_s(d.database_name) + enc_str_s(d.database_password) + enc_u64_s(
        d.update_interval as nat,
    ) + enc_u64_s(d.last_updated as nat) + enc_u64_s(d.targets.len()) + enc_targets_s(
        d.targets,
        d.targets.len() as int,
    )
}

pub open spec fn enc_dbs_s(dbs: Seq<DatabaseView>, j: int) -> Seq<char>
    decreases j,
{
    if j <= 0 {
        Seq::<char>::empty()
    } else {
        enc_dbs_s(dbs, j - 1) + enc_db_s(dbs[j - 1])
    }
}

/// The whole registry document: reload flag, base path, then each
/// database in order.
pub open spec fn enc_config_s(c: ConfigView) -> Seq<char> {
    enc_i64_s(c.update) + enc_str_s(c.base_path) + enc_u64_s(c.databases.len()) + enc_dbs_s(
        c.databases,
        c.databases.len() as int,
    )
}

// ---------------------------------------------------------------------
// Registry document: spec-level parsing
// ---------------------------------------------------------------------
pub open spec fn parse_fields_s(s: Seq<char>, k: int) -> Option<
    (Seq<(Seq<char>, Seq<char>)>, Seq<char>),
>
    decreases k,
{
    if k <= 0 {
        Some((Seq::<(Seq<char>, Seq<char>)>::empty(), s))
    } else {
        match parse_str_s(s) {
            None => None,
            Some((nm, r1)) => match parse_str_s(r1) {
                None => None,
                Some((ty, r2)) => match parse_fields_s(r2, k - 1) {
                    None => None,
                    Some((fs, r3)) => Some((seq![(nm, ty)] + fs, r3)),
                },
            },
        }
    }
}

/// A target with the given scalar fields and no schema yet.
pub open spec fn base_target_v(
    name: Seq<char>,
    last_id: int,
    last_updated: int,
    last_checked: int,
    enabled: bool,
) -> TargetView {
    TargetView {
        name,
        fields: Seq::<(Seq<char>, Seq<char>)>::empty(),
        last_id,
        last_updated,
        last_checked,
        enabled,
    }
}

pub open spec fn parse_target_s(s: Seq<char>) -> Option<(TargetView, Seq<char>)> {
    match parse_str_s(s) {
        None => None,
        Some((name, r1)) => match parse_u64_s(r1) {
            None => None,
            Some((nf, r2)) => match parse_fields_s(r2, nf as int) {
                None => None,
                Some((fs, r3)) => match parse_i64_s(r3) {
                    None => None,
                    Some((last_id, r4)) => match parse_u64_s(r4) {
                        None => None,
                        Some((lu, r5)) => match parse_u64_s(r5) {
                            None => None,
                            Some((lc, r6)) => match parse_bool_s(r6) {
                                None => None,
                                Some((en, r7)) => Some((
                                    base_target_v(
                                        name,
                                        last_id as int,
                                        lu as int,
                                        lc as int,
                                        en,
                                    ).upsert_fields(fs),
                                    r7,
                                )),
                            },
                        },
                    },
                },
            },
        },
    }
}

pub open spec fn parse_targets_s(s: Seq<char>, k: int) -> Option<(Seq<TargetView>, Seq<char>)>
    decreases k,
{
    if k <= 0 {
        Some((Seq::<TargetView>::empty(), s))
    } else {
        match parse_target_s(s) {
            None => None,
            Some((t, r1)) => match parse_targets_s(r1, k - 1) {
                None => None,
                Some((ts, r2)) => Some((seq![t] + ts, r2)),
            },
        }
    }
}

pub open spec fn parse_db_s(s: Seq<char>) -> Option<(DatabaseView, Seq<char>)> {
    match parse_str_s(s) {
        None => None,
        Some((host, r1)) => match parse_u64_s(r1) {
            None => None,
            Some((port, r2)) => if port > u16::MAX as u64 {
                None
            } else {
                match parse_str_s(r2) {
                    None => None,
                    Some((user, r3)) => match parse_str_s(r3) {
                        None => None,
                        Some((name, r4)) => match parse_str_s(r4) {
                            None => None,
                            Some((password, r5)) => match parse_u64_s(r5) {
                                None => None,
                                Some((interval, r6)) => match parse_u64_s(r6) {
                                    None => None,
                                    Some((lu, r7)) => match parse_u64_s(r7) {
                                        None => None,
                                        Some((nt, r8)) => match parse_targets_s(r8, nt as int) {
                                            None => None,
                                            Some((ts, r9)) => Some((
                                                DatabaseView {
                                                    database_host: host,
                                                    server_port: port as int,
                                                    database_user: user,
                                                    database_name: name,
                                                    database_password: password,
                                                    targets: ts,
                                                    update_interval: interval as int,
                                                    last_updated: lu as int,
                                                },
                                                r9,
                                            )),
                                        },
                                    },
                                },
                            },
                        },
                    },
                }
            },
        },
    }
}

pub open spec fn parse_dbs_s(s: Seq<char>, k: int) -> Option<(Seq<DatabaseView>, Seq<char>)>
    decreases k,
{
    if k <= 0 {
        Some((Seq::<DatabaseView>::empty(), s))
    } else {
        match parse_db_s(s) {
            None => None,
            Some((d, r1)) => match parse_dbs_s(r1, k - 1) {
                None => None,
                Some((ds, r2)) => Some((seq![d] + ds, r2)),
            },
        }
    }
}

pub open spec fn parse_config_s(s: Seq<char>) -> Option<(ConfigView, Seq<char>)> {
    match parse_i64_s(s) {
        None => None,
        Some((upd, r1)) => if upd < i32::MIN as i64 || upd > i32::MAX as i64 {
            None
        } else {
            match parse_str_s(r1) {
                None => None,
                Some((base_path, r2)) => match parse_u64_s(r2) {
                    None => None,
                    Some((nd, r3)) => match parse_dbs_s(r3, nd as int) {
                        None => None,
                        Some((dbs, r4)) => Some((
                            ConfigView { databases: dbs, update: upd as int, base_path },
                            r4,
                        )),
                    },
                },
            }
        },
    }
}

// ---------------------------------------------------------------------
// Round trip
// ---------------------------------------------------------------------
/// Every count and length of the target fits the wire's number width.
pub open spec fn bounded_target(t: TargetView) -> bool {
    &&& i64::MIN <= t.last_id <= i64::MAX
    &&& 0 <= t.last_updated <= u64::MAX
    &&& 0 <= t.last_checked <= u64::MAX
    &&& t.name.len() <= u64::MAX
    &&& t.fields.len() <= u64::MAX
    &&& forall|i: int|
        0 <= i < t.fields.len() ==> (#[trigger] t.fields[i]).0.len() <= u64::MAX
            && t.fields[i].1.len() <= u64::MAX
}

pub open spec fn bounded_db(d: DatabaseView) -> bool {
    &&& d.database_host.len() <= u64::MAX
    &&& 0 <= d.server_port <= u16::MAX
    &&& d.database_user.len() <= u64::MAX
    &&& d.database_name.len() <= u64::MAX
    &&& d.database_password.len() <= u64::MAX
    &&& 0 <= d.update_interval <= u64::MAX
    &&& 0 <= d.last_updated <= u64::MAX
    &&& d.targets.len() <= u64::MAX
    &&& forall|i: int| 0 <= i < d.targets.len() ==> bounded_target(#[trigger] d.targets[i])
}

pub open spec fn bounded_config(c: ConfigView) -> bool {
    &&& i32::MIN <= c.update <= i32::MAX
    &&& c.base_path.len() <= u64::MAX
    &&& c.databases.len() <= u64::MAX
    &&& forall|i: int| 0 <= i < c.databases.len() ==> bounded_db(#[trigger] c.databases[i])
}

/// Inserting columns whose names are fresh for the base appends them in
/// order: with unique names, upserting is plain concatenation.
pub proof fn lemma_upsert_plain(base: TargetView, adds: Seq<(Seq<char>, Seq<char>)>)
    requires
        unique_keys(base.field_keys() + adds.map_values(|p: (Seq<char>, Seq<char>)| p.0)),
    ensures
        base.upsert_fields(adds) == (TargetView { fields: base.fields + adds, ..base }),
    decreases adds.len(),
{
    if adds.len() == 0 {
        assert(base.fields + adds =~= base.fields);
        assert(base.upsert_fields(adds) =~~= (TargetView { fields: base.fields + adds, ..base }));
    } else {
        let p0 = adds[0];
        let keys = base.field_keys();
        let addkeys = adds.map_values(|p: (Seq<char>, Seq<char>)| p.0);
        let allk = keys + addkeys;
        assert(allk[keys.len() as int] == p0.0);
        assert(!has_key(keys, p0.0)) by {
            lemma_has_key_exists(keys, p0.0);
            if has_key(keys, p0.0) {
                let i = choose|i: int| 0 <= i < keys.len() && keys[i] == p0.0;
                assert(allk[i] == p0.0);
                assert(allk[i] == allk[keys.len() as int]);
            }
        }
        let base2 = base.upsert_field(p0.0, p0.1);
        assert(base2.fields =~~= base.fields.push(p0));
        let tail = adds.drop_first();
        assert(base2.field_keys() + tail.map_values(|p: (Seq<char>, Seq<char>)| p.0) =~~= allk) by {
            assert(base2.field_keys() =~= keys.push(p0.0));
        }
        lemma_upsert_plain(base2, tail);
        assert(base.upsert_fields(adds) == base2.upsert_fields(tail));
        assert(base2.fields + tail =~~= base.fields + adds);
        assert(base.upsert_fields(adds) =~~= (TargetView { fields: base.fields + adds, ..base }));
    }
}

proof fn lemma_enc_fields_head(fs: Seq<(Seq<char>, Seq<char>)>, j: int)
    requires
        0 < j <= fs.len(),
    ensures
        enc_fields_s(fs, j) == enc_field_s(fs[0]) + enc_fields_s(fs.drop_first(), j - 1),
    decreases j,
{
    if j == 1 {
        assert(enc_fields_s(fs, 0) == Seq::<char>::empty());
        assert(enc_fields_s(fs.drop_first(), 0) == Seq::<char>::empty());
        assert(enc_fields_s(fs, 1) =~= enc_field_s(fs[0]) + enc_fields_s(fs.drop_first(), 0));
    } else {
        lemma_enc_fields_head(fs, j - 1);
        assert(fs.drop_first()[j - 2] == fs[j - 1]);
        assert(enc_fields_s(fs, j) =~= enc_field_s(fs[0]) + enc_fields_s(fs.drop_first(), j - 1));
    }
}

proof fn lemma_enc_targets_head(ts: Seq<TargetView>, j: int)
    requires
        0 < j <= ts.len(),
    ensures
        enc_targets_s(ts, j) == enc_target_s(ts[0]) + enc_targets_s(ts.drop_first(), j - 1),
    decreases j,
{
    if j == 1 {
        assert(enc_targets_s(ts, 0) == Seq::<char>::empty());
        assert(enc_targets_s(ts.drop_first(), 0) == Seq::<char>::empty());
        assert(enc_targets_s(ts, 1) =~= enc_target_s(ts[0]) + enc_targets_s(ts.drop_first(), 0));
    } else {
        lemma_enc_targets_head(ts, j - 1);
        assert(ts.drop_first()[j - 2] == ts[j - 1]);
        assert(enc_targets_s(ts, j) =~= enc_target_s(ts[0]) + enc_targets_s(
            ts.drop_first(),
            j - 1,
        ));
    }
}

proof fn lemma_enc_dbs_head(dbs: Seq<DatabaseView>, j: int)
    requires
        0 < j <= dbs.len(),
    ensures
        enc_dbs_s(dbs, j) == enc_db_s(dbs[0]) + enc_dbs_s(dbs.drop_first(), j - 1),
    decreases j,
{
    if j == 1 {
        assert(enc_dbs_s(dbs, 0) == Seq::<char>::empty());
        assert(enc_dbs_s(dbs.drop_first(), 0) == Seq::<char>::empty());
        assert(enc_dbs_s(dbs, 1) =~= enc_db_s(dbs[0]) + enc_dbs_s(dbs.drop_first(), 0));
    } else {
        lemma_enc_dbs_head(dbs, j - 1);
        assert(dbs.drop_first()[j - 2] == dbs[j - 1]);
        assert(enc_dbs_s(dbs, j) =~= enc_db_s(dbs[0]) + enc_dbs_s(dbs.drop_first(), j - 1));
    }
}

pub proof fn lemma_rt_fields(fs: Seq<(Seq<char>, Seq<char>)>, rest: Seq<char>)
    requires
        fs.len() <= u64::MAX,
        forall|i: int|
            0 <= i < fs.len() ==> (#[trigger] fs[i]).0.len() <= u64::MAX && fs[i].1.len()
                <= u64::MAX,
    ensures
        parse_fields_s(enc_fields_s(fs, fs.len() as int) + rest, fs.len() as int) == Some((
            fs,
            rest,
        )),
    decreases fs.len(),
{
    if fs.len() == 0 {
        assert(enc_fields_s(fs, 0) + rest =~= rest);
    } else {
        let p0 = fs[0];
        let tail = fs.drop_first();
        lemma_enc_fields_head(fs, fs.len() as int);
        let s = enc_fields_s(fs, fs.len() as int) + rest;
        assert(s =~= enc_str_s(p0.0) + (enc_str_s(p0.1) + (enc_fields_s(
            tail,
            tail.len() as int,
        ) + rest)));
        lemma_rt_str(p0.0, enc_str_s(p0.1) + (enc_fields_s(tail, tail.len() as int) + rest));
        lemma_rt_str(p0.1, enc_fields_s(tail, tail.len() as int) + rest);
        lemma_rt_fields(tail, rest);
        assert(seq![(p0.0, p0.1)] + tail =~~= fs);
    }
}

#[verifier::rlimit(60)]
pub proof fn lemma_rt_target(t: TargetView, rest: Seq<char>)
    requires
        bounded_target(t),
        t.wf(),
    ensures
        parse_target_s(enc_target_s(t) + rest) == Some((t, rest)),
{
    let nf = t.fields.len();
    let s4 = enc_i64_s(t.last_id) + (enc_u64_s(t.last_updated as nat) + (enc_u64_s(
        t.last_checked as nat,
    ) + (enc_bool_s(t.enabled) + rest)));
    let s3 = enc_fields_s(t.fields, nf as int) + s4;
    let s2 = enc_u64_s(nf) + s3;
    let s = enc_target_s(t) + rest;
    assert(s =~= enc_str_s(t.name) + s2);
    lemma_rt_str(t.name, s2);
    lemma_rt_u64(nf as u64, s3);
    lemma_rt_fields(t.fields, s4);
    lemma_rt_i64(t.last_id as i64, enc_u64_s(t.last_updated as nat) + (enc_u64_s(
        t.last_checked as nat,
    ) + (enc_bool_s(t.enabled) + rest)));
    lemma_rt_u64(t.last_updated as u64, enc_u64_s(t.last_checked as nat) + (enc_bool_s(
        t.enabled,
    ) + rest));
    lemma_rt_u64(t.last_checked as u64, enc_bool_s(t.enabled) + rest);
    lemma_rt_bool(t.enabled, rest);
    let base = base_target_v(t.name, t.last_id, t.last_updated, t.last_checked, t.enabled);
    assert(base.field_keys() + t.fields.map_values(|p: (Seq<char>, Seq<char>)| p.0)
        =~= t.field_keys());
    lemma_upsert_plain(base, t.fields);
    assert(base.fields + t.fields =~= t.fields);
    assert(base.upsert_fields(t.fields) =~~= t);
}

pub proof fn lemma_rt_targets(ts: Seq<TargetView>, rest: Seq<char>)
    requires
        ts.len() <= u64::MAX,
        forall|i: int| 0 <= i < ts.len() ==> bounded_target(#[trigger] ts[i]) && ts[i].wf(),
    ensures
        parse_targets_s(enc_targets_s(ts, ts.len() as int) + rest, ts.len() as int) == Some((
            ts,
            rest,
        )),
    decreases ts.len(),
{
    if ts.len() == 0 {
        assert(enc_targets_s(ts, 0) + rest =~= rest);
    } else {
        let t0 = ts[0];
        let tail = ts.drop_first();
        lemma_enc_targets_head(ts, ts.len() as int);
        let s = enc_targets_s(ts, ts.len() as int) + rest;
        assert(s =~= enc_target_s(t0) + (enc_targets_s(tail, tail.len() as int) + rest));
        lemma_rt_target(t0, enc_targets_s(tail, tail.len() as int) + rest);
        lemma_rt_targets(tail, rest);
        assert(seq![t0] + tail =~~= ts);
    }
}

#[verifier::rlimit(60)]
pub proof fn lemma_rt_db(d: DatabaseView, rest: Seq<char>)
    requires
        bounded_db(d),
        d.wf(),
    ensures
        parse_db_s(enc_db_s(d) + rest) == Some((d, rest)),
{
    let nt = d.targets.len();
    let s9 = enc_targets_s(d.targets, nt as int) + rest;
    let s8 = enc_u64_s(nt) + s9;
    let s7 = enc_u64_s(d.last_updated as nat) + s8;
    let s6 = enc_u64_s(d.update_interval as nat) + s7;
    let s5 = enc_str_s(d.database_password) + s6;
    let s4 = enc_str_s(d.database_name) + s5;
    let s3 = enc_str_s(d.database_user) + s4;
    let s2 = enc_u64_s(d.server_port as nat) + s3;
    let s = enc_db_s(d) + rest;
    assert(s =~= enc_str_s(d.database_host) + s2);
    lemma_rt_str(d.database_host, s2);
    lemma_rt_u64(d.server_port as u64, s3);
    lemma_rt_str(d.database_user, s4);
    lemma_rt_str(d.database_name, s5);
    lemma_rt_str(d.database_password, s6);
    lemma_rt_u64(d.update_interval as u64, s7);
    lemma_rt_u64(d.last_updated as u64, s8);
    lemma_rt_u64(nt as u64, s9);
    assert(forall|i: int| 0 <= i < d.targets.len() ==> (#[trigger] d.targets[i]).wf());
    lemma_rt_targets(d.targets, rest);
    assert(parse_db_s(enc_db_s(d) + rest) == Some((
        DatabaseView {
            database_host: d.database_host,
            server_port: d.server_port,
            database_user: d.database_user,
            database_name: d.database_name,
            database_password: d.database_password,
            targets: d.targets,
            update_interval: d.update_interval,
            last_updated: d.last_updated,
        },
        rest,
    )));
    assert((DatabaseView {
        database_host: d.database_host,
        server_port: d.server_port,
        database_user: d.database_user,
        database_name: d.database_name,
        database_password: d.database_password,
        targets: d.targets,
        update_interval: d.update_interval,
        last_updated: d.last_updated,
    }) =~~= d);
}

pub proof fn lemma_rt_dbs(dbs: Seq<DatabaseView>, rest: Seq<char>)
    requires
        dbs.len() <= u64::MAX,
        forall|i: int| 0 <= i < dbs.len() ==> bounded_db(#[trigger] dbs[i]) && dbs[i].wf(),
    ensures
        parse_dbs_s(enc_dbs_s(dbs, dbs.len() as int) + rest, dbs.len() as int) == Some((
            dbs,
            rest,
        )),
    decreases dbs.len(),
{
    if dbs.len() == 0 {
        assert(enc_dbs_s(dbs, 0) + rest =~= rest);
    } else {
        let d0 = dbs[0];
        let tail = dbs.drop_first();
        lemma_enc_dbs_head(dbs, dbs.len() as int);
        let s = enc_dbs_s(dbs, dbs.len() as int) + rest;
        assert(s =~= enc_db_s(d0) + (enc_dbs_s(tail, tail.len() as int) + rest));
        lemma_rt_db(d0, enc_dbs_s(tail, tail.len() as int) + rest);
        lemma_rt_dbs(tail, rest);
        assert(seq![d0] + tail =~~= dbs);
    }
}

/// Round trip: parsing the serialized form of any well-formed registry
/// yields that registry back, field for field, with nothing left over.
pub proof fn lemma_config_round_trip(c: ConfigView)
    requires
        c.wf(),
        bounded_config(c),
    ensures
        parse_config_s(enc_config_s(c)) == Some((c, Seq::<char>::empty())),
{
    let rest = Seq::<char>::empty();
    let nd = c.databases.len();
    let s3 = enc_dbs_s(c.databases, nd as int) + rest;
    let s2 = enc_u64_s(nd) + s3;
    let s1 = enc_str_s(c.base_path) + s2;
    let s = enc_config_s(c);
    assert(s =~= enc_i64_s(c.update) + s1);
    lemma_rt_i64(c.update as i64, s1);
    lemma_rt_str(c.base_path, s2);
    lemma_rt_u64(nd as u64, s3);
    assert(forall|i: int| 0 <= i < c.databases.len() ==> (#[trigger] c.databases[i]).wf());
    lemma_rt_dbs(c.databases, rest);
    assert((ConfigView { databases: c.databases, update: c.update, base_path: c.base_path })
        =~~= c);
}


// ---------------------------------------------------------------------
// Executable encoding of the registry
// ---------------------------------------------------------------------
fn encode_target(t: &Target, out: &mut String)
    ensures
        final(out)@ == old(out)@ + enc_target_s(t@),
{
    encode_str(t.get_name().as_str(), out);
    let fields = t.get_fields();
    let nf = fields.len();
    encode_u64(nf as u64, out);
    let ghost head = old(out)@ + enc_str_s(t@.name) + enc_u64_s(t@.fields.len());
    let mut i: usize = 0;
    while i < nf
        invariant
            nf == fields.len(),
            fields@.map_values(|f: TableField| f@) == t@.fields,
            i <= nf,
            out@ == head + enc_fields_s(t@.fields, i as int),
        decreases nf - i,
    {
        let ghost before = out@;
        encode_str(fields[i].name.as_str(), out);
        encode_str(fields[i].data_type.as_str(), out);
        proof {
            assert(t@.fields[i as int] == fields@[i as int]@);
            assert(out@ =~= before + enc_field_s(t@.fields[i as int]));
            assert(enc_fields_s(t@.fields, i as int + 1) == enc_fields_s(t@.fields, i as int)
                + enc_field_s(t@.fields[i as int]));
            assert(out@ =~= head + enc_fields_s(t@.fields, i as int + 1));
        }
        i = i + 1;
    }
    encode_i64(t.get_last_id(), out);
    encode_u64(t.get_last_updated(), out);
    encode_u64(t.get_last_checked(), out);
    encode_bool(t.get_enabled(), out);
    proof {
        assert(final(out)@ =~= old(out)@ + enc_target_s(t@));
    }
}

fn encode_db(d: &Database, out: &mut String)
    ensures
        final(out)@ == old(out)@ + enc_db_s(d@),
{
    encode_str(d.database_host.as_str(), out);
    encode_u64(d.server_port as u64, out);
    encode_str(d.database_user.as_str(), out);
    encode_str(d.database_name.as_str(), out);
    encode_str(d.database_password.as_str(), out);
    encode_u64(d.update_interval, out);
    encode_u64(d.last_updated, out);
    let nt = d.targets.len();
    encode_u64(nt as u64, out);
    let ghost head = old(out)@ + enc_str_s(d@.database_host) + enc_u64_s(d@.server_port as nat)
        + enc_str_s(d@.database_user) + enc_str_s(d@.database_name) + enc_str_s(
        d@.database_password,
    ) + enc_u64_s(d@.update_interval as nat) + enc_u64_s(d@.last_updated as nat) + enc_u64_s(
        d@.targets.len(),
    );
    proof {
        assert(out@ =~= head);
    }
    let mut i: usize = 0;
    while i < nt
        invariant
            nt == d.targets.len(),
            i <= nt,
            out@ == head + enc_targets_s(d@.targets, i as int),
        decreases nt - i,
    {
        let ghost before = out@;
        encode_target(&d.targets[i], out);
        proof {
            assert(d@.targets[i as int] == d.targets@[i as int]@);
            assert(enc_targets_s(d@.targets, i as int + 1) == enc_targets_s(d@.targets, i as int)
                + enc_target_s(d@.targets[i as int]));
            assert(out@ =~= head + enc_targets_s(d@.targets, i as int + 1));
        }
        i = i + 1;
    }
    proof {
        assert(final(out)@ =~= old(out)@ + enc_db_s(d@));
    }
}

/// Serialize the registry into its persisted document.
pub fn encode_config(config: &Config) -> (r: String)
    ensures
        r@ == enc_config_s(config@),
{
    let mut out = String::new();
    let upd = config.get_update();
    encode_i64(upd as i64, &mut out);
    encode_str(config.get_base_path().as_str(), &mut out);
    let dbs = config.get_databases();
    let nd = dbs.len();
    encode_u64(nd as u64, &mut out);
    let ghost head = enc_i64_s(config@.update) + enc_str_s(config@.base_path) + enc_u64_s(
        config@.databases.len(),
    );
    proof {
        assert(out@ =~= head);
    }
    let mut i: usize = 0;
    while i < nd
        invariant
            nd == dbs.len(),
            dbs@.map_values(|d: Database| d@) == config@.databases,
            i <= nd,
            out@ == head + enc_dbs_s(config@.databases, i as int),
        decreases nd - i,
    {
        encode_db(&dbs[i], &mut out);
        proof {
            assert(config@.databases[i as int] == dbs@[i as int]@);
            assert(enc_dbs_s(config@.databases, i as int + 1) == enc_dbs_s(
                config@.databases,
                i as int,
            ) + enc_db_s(config@.databases[i as int]));
            assert(out@ =~= head + enc_dbs_s(config@.databases, i as int + 1));
        }
        i = i + 1;
    }
    proof {
        assert(out@ =~= enc_config_s(config@));
    }
    out
}

// ---------------------------------------------------------------------
// Executable parsing of the registry
// ---------------------------------------------------------------------
pub open spec fn prepend_fields(
    pre: Seq<(Seq<char>, Seq<char>)>,
    o: Option<(Seq<(Seq<char>, Seq<char>)>, Seq<char>)>,
) -> Option<(Seq<(Seq<char>, Seq<char>)>, Seq<char>)> {
    match o {
        None => None,
        Some((fs, r)) => Some((pre + fs, r)),
    }
}

pub open spec fn prepend_targets(pre: Seq<TargetView>, o: Option<(Seq<TargetView>, Seq<char>)>)
    -> Option<(Seq<TargetView>, Seq<char>)> {
    match o {
        None => None,
        Some((ts, r)) => Some((pre + ts, r)),
    }
}

pub open spec fn prepend_dbs(pre: Seq<DatabaseView>, o: Option<(Seq<DatabaseView>, Seq<char>)>)
    -> Option<(Seq<DatabaseView>, Seq<char>)> {
    match o {
        None => None,
        Some((ds, r)) => Some((pre + ds, r)),
    }
}

#[verifier::rlimit(60)]
#[verifier::loop_isolation(false)]
fn parse_target_e(s: &str, pos: usize) -> (r: Option<(Target, usize)>)
    requires
        pos <= s@.len(),
    ensures
        r matches Some(v) ==> (parse_target_s(s@.skip(pos as int)) matches Some(x) && x.0 == v.0@
            && x.1 == s@.skip(v.1 as int)) && pos <= v.1 <= s@.len(),
        r is None ==> parse_target_s(s@.skip(pos as int)) is None,
{
    let (name, p1) = match parse_str(s, pos) {
        None => {
            return None;
        },
        Some(v) => v,
    };
    let (nf, p2) = match parse_u64(s, p1) {
        None => {
            return None;
        },
        Some(v) => v,
    };
    let ghost orig_fields = s@.skip(p2 as int);
    let mut fields: Vec<TableField> = Vec::new();
    let mut k: u64 = 0;
    let mut pk: usize = p2;
    proof {
        assert(fields@.map_values(|f: TableField| f@) =~= Seq::<(Seq<char>, Seq<char>)>::empty());
    }
    while k < nf
        invariant
            pos <= pk <= s@.len(),
            k <= nf,
            prepend_fields(
                fields@.map_values(|f: TableField| f@),
                parse_fields_s(s@.skip(pk as int), nf as int - k as int),
            ) == parse_fields_s(orig_fields, nf as int),
        decreases nf - k,
    {
        let ghost premap = fields@.map_values(|f: TableField| f@);
        let (nm, q1) = match parse_str(s, pk) {
            None => {
                proof {
                    assert(parse_fields_s(s@.skip(pk as int), nf as int - k as int) is None);
                    assert(parse_fields_s(orig_fields, nf as int) is None);
                }
                return None;
            },
            Some(v) => v,
        };
        let (ty, q2) = match parse_str(s, q1) {
            None => {
                proof {
                    assert(parse_fields_s(s@.skip(pk as int), nf as int - k as int) is None);
                    assert(parse_fields_s(orig_fields, nf as int) is None);
                }
                return None;
            },
            Some(v) => v,
        };
        let ghost nm_v = nm@;
        let ghost ty_v = ty@;
        fields.push(TableField { name: nm, data_type: ty });
        proof {
            assert(fields@.map_values(|f: TableField| f@) =~= premap.push((nm_v, ty_v)));
            let after = parse_fields_s(s@.skip(q2 as int), nf as int - k as int - 1);
            match after {
                None => {},
                Some((fs2, r2)) => {
                    assert((premap + (seq![(nm_v, ty_v)] + fs2)) =~= (premap.push((nm_v, ty_v))
                        + fs2));
                },
            }
        }
        pk = q2;
        k = k + 1;
    }
    proof {
        assert(parse_fields_s(s@.skip(pk as int), 0) == Some((
            Seq::<(Seq<char>, Seq<char>)>::empty(),
            s@.skip(pk as int),
        )));
        assert(fields@.map_values(|f: TableField| f@) + Seq::<(Seq<char>, Seq<char>)>::empty()
            =~= fields@.map_values(|f: TableField| f@));
    }
    let (last_id, p3) = match parse_i64(s, pk) {
        None => {
            return None;
        },
        Some(v) => v,
    };
    let (lu, p4) = match parse_u64(s, p3) {
        None => {
            return None;
        },
        Some(v) => v,
    };
    let (lc, p5) = match parse_u64(s, p4) {
        None => {
            return None;
        },
        Some(v) => v,
    };
    let (en, p6) = match parse_bool(s, p5) {
        None => {
            return None;
        },
        Some(v) => v,
    };
    let ghost name_v = name@;
    let t = Target::construct(name, fields, last_id, lu, lc, en);
    proof {
        assert(t@ =~~= parse_target_s(s@.skip(pos as int))->Some_0.0);
    }
    Some((t, p6))
}

#[verifier::rlimit(80)]
#[verifier::loop_isolation(false)]
fn parse_db_e(s: &str, pos: usize) -> (r: Option<(Database, usize)>)
    requires
        pos <= s@.len(),
    ensures
        r matches Some(v) ==> (parse_db_s(s@.skip(pos as int)) matches Some(x) && x.0 == v.0@
            && x.1 == s@.skip(v.1 as int)) && pos <= v.1 <= s@.len(),
        r is None ==> parse_db_s(s@.skip(pos as int)) is None,
{
    let (host, p1) = match parse_str(s, pos) {
        None => {
            return None;
        },
        Some(v) => v,
    };
    let (port, p2) = match parse_u64(s, p1) {
        None => {
            return None;
        },
        Some(v) => v,
    };
    if port > 65535 {
        return None;
    }
    let (user, p3) = match parse_str(s, p2) {
        None => {
            return None;
        },
        Some(v) => v,
    };
    let (name, p4) = match parse_str(s, p3) {
        None => {
            return None;
        },
        Some(v) => v,
    };
    let (password, p5) = match parse_str(s, p4) {
        None => {
            return None;
        },
        Some(v) => v,
    };
    let (interval, p6) = match parse_u64(s, p5) {
        None => {
            return None;
        },
        Some(v) => v,
    };
    let (lu, p7) = match parse_u64(s, p6) {
        None => {
            return None;
        },
        Some(v) => v,
    };
    let (nt, p8) = match parse_u64(s, p7) {
        None => {
            return None;
        },
        Some(v) => v,
    };
    let ghost orig_targets = s@.skip(p8 as int);
    let mut targets: Vec<Target> = Vec::new();
    let mut k: u64 = 0;
    let mut pk: usize = p8;
    proof {
        assert(targets@.map_values(|t: Target| t@) =~= Seq::<TargetView>::empty());
    }
    while k < nt
        invariant
            pos <= pk <= s@.len(),
            k <= nt,
            prepend_targets(
                targets@.map_values(|t: Target| t@),
                parse_targets_s(s@.skip(pk as int), nt as int - k as int),
            ) == parse_targets_s(orig_targets, nt as int),
        decreases nt - k,
    {
        let ghost premap = targets@.map_values(|t: Target| t@);
        let (t, q1) = match parse_target_e(s, pk) {
            None => {
                proof {
                    assert(parse_targets_s(s@.skip(pk as int), nt as int - k as int) is None);
                    assert(parse_targets_s(orig_targets, nt as int) is None);
                }
                return None;
            },
            Some(v) => v,
        };
        let ghost t_v = t@;
        targets.push(t);
        proof {
            assert(targets@.map_values(|t2: Target| t2@) =~= premap.push(t_v));
            let after = parse_targets_s(s@.skip(q1 as int), nt as int - k as int - 1);
            match after {
                None => {},
                Some((ts2, r2)) => {
                    assert((premap + (seq![t_v] + ts2)) =~= (premap.push(t_v) + ts2));
                },
            }
        }
        pk = q1;
        k = k + 1;
    }
    proof {
        assert(parse_targets_s(s@.skip(pk as int), 0) == Some((
            Seq::<TargetView>::empty(),
            s@.skip(pk as int),
        )));
        assert(targets@.map_values(|t: Target| t@) + Seq::<TargetView>::empty()
            =~= targets@.map_values(|t: Target| t@));
    }
    let d = Database::new(host, port as u16, user, name, password, targets, interval, lu);
    proof {
        assert(d@ =~~= parse_db_s(s@.skip(pos as int))->Some_0.0);
    }
    Some((d, pk))
}

/// Parse a persisted registry document back into a registry. Anything
/// that deviates from the format — or trailing text after it — is
/// `ConfigCorrupt`.
#[verifier::rlimit(60)]
#[verifier::loop_isolation(false)]
pub fn parse_config(s: &str) -> (r: Result<Config, PbusError>)
    ensures
        r matches Ok(c) ==> (parse_config_s(s@) matches Some(x) && x.0 == c@ && x.1.len() == 0),
        r is Err ==> r == Err::<Config, PbusError>(PbusError::ConfigCorrupt),
        r is Err <==> !(parse_config_s(s@) matches Some(x) && x.1.len() == 0),
{
    let n = s.unicode_len();
    proof {
        assert(s@.skip(0) =~= s@);
    }
    let (upd, p1) = match parse_i64(s, 0) {
        None => {
            return Err(PbusError::ConfigCorrupt);
        },
        Some(v) => v,
    };
    if upd < -2147483648i64 || upd > 2147483647i64 {
        return Err(PbusError::ConfigCorrupt);
    }
    let (base_path, p2) = match parse_str(s, p1) {
        None => {
            return Err(PbusError::ConfigCorrupt);
        },
        Some(v) => v,
    };
    let (nd, p3) = match parse_u64(s, p2) {
        None => {
            return Err(PbusError::ConfigCorrupt);
        },
        Some(v) => v,
    };
    let ghost orig_dbs = s@.skip(p3 as int);
    let mut dbs: Vec<Database> = Vec::new();
    let mut k: u64 = 0;
    let mut pk: usize = p3;
    proof {
        assert(dbs@.map_values(|d: Database| d@) =~= Seq::<DatabaseView>::empty());
    }
    while k < nd
        invariant
            pk <= s@.len(),
            k <= nd,
            prepend_dbs(
                dbs@.map_values(|d: Database| d@),
                parse_dbs_s(s@.skip(pk as int), nd as int - k as int),
            ) == parse_dbs_s(orig_dbs, nd as int),
        decreases nd - k,
    {
        let ghost premap = dbs@.map_values(|d: Database| d@);
        let (d, q1) = match parse_db_e(s, pk) {
            None => {
                proof {
                    assert(parse_dbs_s(s@.skip(pk as int), nd as int - k as int) is None);
                    assert(parse_dbs_s(orig_dbs, nd as int) is None);
                }
                return Err(PbusError::ConfigCorrupt);
            },
            Some(v) => v,
        };
        let ghost d_v = d@;
        dbs.push(d);
        proof {
            assert(dbs@.map_values(|d2: Database| d2@) =~= premap.push(d_v));
            let after = parse_dbs_s(s@.skip(q1 as int), nd as int - k as int - 1);
            match after {
                None => {},
                Some((ds2, r2)) => {
                    assert((premap + (seq![d_v] + ds2)) =~= (premap.push(d_v) + ds2));
                },
            }
        }
        pk = q1;
        k = k + 1;
    }
    proof {
        assert(parse_dbs_s(s@.skip(pk as int), 0) == Some((
            Seq::<DatabaseView>::empty(),
            s@.skip(pk as int),
        )));
        assert(dbs@.map_values(|d: Database| d@) + Seq::<DatabaseView>::empty()
            =~= dbs@.map_values(|d: Database| d@));
    }
    if pk != n {
        proof {
            assert(s@.skip(pk as int).len() != 0);
        }
        return Err(PbusError::ConfigCorrupt);
    }
    let ghost bp_v = base_path@;
    let mut config = Config::new(dbs, base_path.as_str());
    config.set_update(upd as i32);
    proof {
        assert(s@.skip(pk as int).len() == 0);
        assert(config@ =~~= parse_config_s(s@)->Some_0.0);
    }
    Ok(config)
}

} // verus!
