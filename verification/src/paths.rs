//! Token paths: lexicographic order, decimal index segments, and the
//! wildcard path-expression language.

use vstd::prelude::*;
use vstd::string::StrSliceExecFns;
use vstd::string::StringExecFns;

verus! {

/// Lexicographic "less or equal" on character sequences, ordering
/// characters by code point. Token indexes are sorted by this order.
pub open spec fn lex_le(a: Seq<char>, b: Seq<char>) -> bool
    decreases a.len(),
{
    if a.len() == 0 {
        true
    } else if b.len() == 0 {
        false
    } else if a[0] != b[0] {
        (a[0] as u32) < (b[0] as u32)
    } else {
        lex_le(a.drop_first(), b.drop_first())
    }
}

/// The order is total.
pub proof fn lemma_lex_le_total(a: Seq<char>, b: Seq<char>)
    ensures
        lex_le(a, b) || lex_le(b, a),
    decreases a.len(),
{
    if a.len() == 0 || b.len() == 0 {
    } else if a[0] != b[0] {
        assert((a[0] as u32) != (b[0] as u32)) by {
            vstd::utf8::char_u32_cast(a[0], a[0] as u32);
            vstd::utf8::char_u32_cast(b[0], b[0] as u32);
        }
    } else {
        lemma_lex_le_total(a.drop_first(), b.drop_first());
    }
}

/// The order is antisymmetric.
pub proof fn lemma_lex_le_antisym(a: Seq<char>, b: Seq<char>)
    requires
        lex_le(a, b),
        lex_le(b, a),
    ensures
        a == b,
    decreases a.len(),
{
    if a.len() == 0 {
        assert(b.len() == 0);
        assert(a =~= b);
    } else {
        assert(b.len() > 0);
        assert(a[0] == b[0]);
        lemma_lex_le_antisym(a.drop_first(), b.drop_first());
        assert(a =~= seq![a[0]] + a.drop_first());
        assert(b =~= seq![b[0]] + b.drop_first());
    }
}

/// The order is transitive.
pub proof fn lemma_lex_le_trans(a: Seq<char>, b: Seq<char>, c: Seq<char>)
    requires
        lex_le(a, b),
        lex_le(b, c),
    ensures
        lex_le(a, c),
    decreases a.len(),
{
    if a.len() == 0 || b.len() == 0 || c.len() == 0 {
    } else if a[0] == b[0] && b[0] == c[0] {
        lemma_lex_le_trans(a.drop_first(), b.drop_first(), c.drop_first());
    }
}

/// Comparing two sequences with an equal prefix comes down to comparing
/// what follows the prefix.
pub proof fn lemma_lex_le_common_prefix(a: Seq<char>, b: Seq<char>, i: int)
    requires
        0 <= i <= a.len(),
        i <= b.len(),
        forall|j: int| 0 <= j < i ==> a[j] == b[j],
    ensures
        lex_le(a, b) == lex_le(a.skip(i), b.skip(i)),
    decreases i,
{
    if i == 0 {
        assert(a.skip(0) =~= a);
        assert(b.skip(0) =~= b);
    } else {
        assert(a.len() > 0 && b.len() > 0 && a[0] == b[0]);
        assert(forall|j: int| 0 <= j < i - 1 ==> a.drop_first()[j] == b.drop_first()[j]);
        lemma_lex_le_common_prefix(a.drop_first(), b.drop_first(), i - 1);
        assert(a.drop_first().skip(i - 1) =~= a.skip(i));
        assert(b.drop_first().skip(i - 1) =~= b.skip(i));
    }
}

/// Three-way comparison of two strings in the order `lex_le`: negative
/// when `a` comes first, zero when they are equal, positive when `b`
/// comes first.
pub fn str_cmp(a: &str, b: &str) -> (r: i32)
    ensures
        (r == 0) == (a@ == b@),
        (r < 0) == (lex_le(a@, b@) && a@ != b@),
        (r > 0) == (lex_le(b@, a@) && a@ != b@),
{
    let alen = a.unicode_len();
    let blen = b.unicode_len();
    let mut i: usize = 0;
    while i < alen && i < blen
        invariant
            i <= alen,
            i <= blen,
            alen == a@.len(),
            blen == b@.len(),
            forall|j: int| 0 <= j < i ==> a@[j] == b@[j],
        decreases alen - i,
    {
        let ca = a.get_char(i);
        let cb = b.get_char(i);
        if ca != cb {
            proof {
                lemma_lex_le_common_prefix(a@, b@, i as int);
                lemma_lex_le_common_prefix(b@, a@, i as int);
                assert(a@.skip(i as int)[0] == ca && b@.skip(i as int)[0] == cb);
                assert(a@[i as int] != b@[i as int]);
            }
            if (ca as u32) < (cb as u32) {
                return -1;
            } else {
                return 1;
            }
        }
        i = i + 1;
    }
    proof {
        lemma_lex_le_common_prefix(a@, b@, i as int);
        lemma_lex_le_common_prefix(b@, a@, i as int);
    }
    if alen == blen {
        proof {
            assert(a@ =~= b@);
        }
        0
    } else if alen < blen {
        -1
    } else {
        1
    }
}

/// A chain through a strictly smaller middle element stays strict.
pub proof fn lemma_lex_le_lt(a: Seq<char>, b: Seq<char>, c: Seq<char>)
    requires
        lex_le(a, b),
        lex_le(b, c),
        b != c,
    ensures
        lex_le(a, c),
        a != c,
{
    lemma_lex_le_trans(a, b, c);
    if a == c {
        lemma_lex_le_antisym(b, c);
    }
}

/// A chain out of a strictly smaller first element stays strict.
pub proof fn lemma_lex_lt_le(a: Seq<char>, b: Seq<char>, c: Seq<char>)
    requires
        lex_le(a, b),
        a != b,
        lex_le(b, c),
    ensures
        lex_le(a, c),
        a != c,
{
    lemma_lex_le_trans(a, b, c);
    if a == c {
        lemma_lex_le_antisym(a, b);
    }
}

/// Whether `path` is one of the paths a pattern stands for: paths
/// denoted by the marker form when the pattern has a marker, the
/// pattern itself otherwise.
pub open spec fn path_matches(pattern: Seq<char>, path: Seq<char>) -> bool {
    if has_wildcard(pattern) {
        wild_match(pattern, path)
    } else {
        pattern == path
    }
}

/// Whether `c` is a decimal digit.
pub open spec fn is_dec_digit(c: char) -> bool {
    48 <= (c as u32) <= 57
}

/// The digit character for `d`.
pub open spec fn digit_char(d: int) -> char {
    if d == 0 {
        '0'
    } else if d == 1 {
        '1'
    } else if d == 2 {
        '2'
    } else if d == 3 {
        '3'
    } else if d == 4 {
        '4'
    } else if d == 5 {
        '5'
    } else if d == 6 {
        '6'
    } else if d == 7 {
        '7'
    } else if d == 8 {
        '8'
    } else {
        '9'
    }
}

/// The decimal rendering of `n`, most significant digit first, without
/// leading zeros.
pub open spec fn dec_rep(n: nat) -> Seq<char>
    decreases n,
{
    if n < 10 {
        seq![digit_char(n as int)]
    } else {
        dec_rep(n / 10) + seq![digit_char((n % 10) as int)]
    }
}

/// The numeric value of a digit character; other characters count zero.
pub open spec fn digit_val(c: char) -> nat {
    if is_dec_digit(c) {
        ((c as u32) - 48) as nat
    } else {
        0
    }
}

/// The numeric value of a sequence of digit characters, most
/// significant first.
pub open spec fn dec_value(s: Seq<char>) -> nat
    decreases s.len(),
{
    if s.len() == 0 {
        0
    } else {
        dec_value(s.drop_last()) * 10 + digit_val(s.last())
    }
}

/// A prefix never has a larger value than the whole.
pub proof fn lemma_dec_value_prefix(s: Seq<char>, i: int)
    requires
        0 <= i <= s.len(),
    ensures
        dec_value(s.take(i)) <= dec_value(s),
    decreases s.len() - i,
{
    if i == s.len() {
        assert(s.take(i) =~= s);
    } else {
        assert(s.take(i + 1).drop_last() =~= s.take(i));
        assert(dec_value(s.take(i + 1)) == dec_value(s.take(i)) * 10 + digit_val(s[i]));
        lemma_dec_value_prefix(s, i + 1);
    }
}

/// The length of the run of digits that `p` starts with.
pub open spec fn run_len(p: Seq<char>) -> nat
    decreases p.len(),
{
    if p.len() > 0 && is_dec_digit(p[0]) {
        (1 + run_len(p.drop_first())) as nat
    } else {
        0
    }
}

/// What bounds the leading digit run: digits up to `run_len`, and not a
/// digit right after.
pub proof fn lemma_run_len_props(p: Seq<char>)
    ensures
        run_len(p) <= p.len(),
        forall|t: int| 0 <= t < run_len(p) ==> is_dec_digit(p[t]),
        run_len(p) < p.len() ==> !is_dec_digit(p[run_len(p) as int]),
    decreases p.len(),
{
    if p.len() > 0 && is_dec_digit(p[0]) {
        lemma_run_len_props(p.drop_first());
        assert forall|t: int| 0 <= t < run_len(p) implies is_dec_digit(p[t]) by {
            if t > 0 {
                assert(is_dec_digit(p.drop_first()[t - 1]));
                assert(p.drop_first()[t - 1] == p[t]);
            }
        }
        if run_len(p) < p.len() {
            assert(p.drop_first()[run_len(p) - 1] == p[run_len(p) as int]);
        }
    }
}

/// The leading digit run is the only cut with those bounds.
pub proof fn lemma_run_len_exact(p: Seq<char>, m: int)
    requires
        0 <= m <= p.len(),
        forall|t: int| 0 <= t < m ==> is_dec_digit(p[t]),
        m == p.len() || !is_dec_digit(p[m]),
    ensures
        run_len(p) == m,
{
    lemma_run_len_props(p);
    if run_len(p) < m {
        assert(is_dec_digit(p[run_len(p) as int]));
        assert(false);
    }
    if run_len(p) > m {
        assert(is_dec_digit(p[m]));
        assert(false);
    }
}

/// The values of the maximal digit runs embedded in `p`, left to right.
pub open spec fn run_values(p: Seq<char>) -> Seq<nat>
    decreases p.len(),
    via run_values_decreases
{
    if p.len() == 0 {
        Seq::empty()
    } else if is_dec_digit(p[0]) {
        seq![dec_value(p.take(run_len(p) as int))] + run_values(p.skip(run_len(p) as int))
    } else {
        run_values(p.drop_first())
    }
}

#[via_fn]
proof fn run_values_decreases(p: Seq<char>) {
    if p.len() > 0 && is_dec_digit(p[0]) {
        lemma_run_len_props(p);
        assert(run_len(p) >= 1);
    }
}

/// The numeric values of a sequence of machine integers.
pub open spec fn nats_of(v: Seq<usize>) -> Seq<nat> {
    v.map_values(|x: usize| x as nat)
}

/// Positionwise maximum of two bound lists; a position present in only
/// one list keeps that value.
pub open spec fn merge_bounds(a: Seq<nat>, b: Seq<nat>) -> Seq<nat> {
    Seq::new(
        if a.len() >= b.len() {
            a.len()
        } else {
            b.len()
        },
        |t: int|
            if t < a.len() && t < b.len() {
                if a[t] >= b[t] {
                    a[t]
                } else {
                    b[t]
                }
            } else if t < a.len() {
                a[t]
            } else {
                b[t]
            },
    )
}

/// The positionwise maxima of the digit runs of `paths`, folded in
/// order.
pub open spec fn max_bounds(paths: Seq<Seq<char>>) -> Seq<nat>
    decreases paths.len(),
{
    if paths.len() == 0 {
        Seq::empty()
    } else {
        merge_bounds(max_bounds(paths.drop_last()), run_values(paths.last()))
    }
}

/// Every digit run of every path is covered by the folded maxima.
pub proof fn lemma_max_bounds_ge(paths: Seq<Seq<char>>, i: int, t: int)
    requires
        0 <= i < paths.len(),
        0 <= t < run_values(paths[i]).len(),
    ensures
        t < max_bounds(paths).len(),
        max_bounds(paths)[t] >= run_values(paths[i])[t],
    decreases paths.len(),
{
    if i == paths.len() - 1 {
        assert(paths.last() == paths[i]);
    } else {
        lemma_max_bounds_ge(paths.drop_last(), i, t);
        assert(paths.drop_last()[i] == paths[i]);
    }
}

/// The bound list joined with `|` separators.
pub open spec fn join_bounds(vals: Seq<nat>) -> Seq<char>
    decreases vals.len(),
{
    if vals.len() == 0 {
        Seq::empty()
    } else if vals.len() == 1 {
        dec_rep(vals[0])
    } else {
        join_bounds(vals.drop_last()) + seq!['|'] + dec_rep(vals.last())
    }
}

/// The values of the digit runs embedded in `p`, or nothing when one of
/// them does not fit a machine integer.
#[verifier::loop_isolation(false)]
pub fn extract_run_values(p: &str) -> (r: Option<Vec<usize>>)
    ensures
        match r {
            Some(v) => nats_of(v@) == run_values(p@),
            None => exists|t: int|
                0 <= t < run_values(p@).len() && #[trigger] run_values(p@)[t] > usize::MAX,
        },
{
    let len = p.unicode_len();
    let mut out: Vec<usize> = Vec::new();
    let mut i: usize = 0;
    proof {
        assert(p@.skip(0) =~= p@);
        assert(nats_of(out@) + run_values(p@) =~= run_values(p@));
    }
    while i < len
        invariant
            i <= len,
            len == p@.len(),
            run_values(p@) == nats_of(out@) + run_values(p@.skip(i as int)),
        decreases len - i,
    {
        let ghost tail = p@.skip(i as int);
        assert(tail[0] == p@[i as int]);
        if is_digit_char(p.get_char(i)) {
            let mut j: usize = i + 1;
            while j < len && is_digit_char(p.get_char(j))
                invariant
                    i < j <= len,
                    len == p@.len(),
                    forall|t: int| i <= t < j ==> is_dec_digit(p@[t]),
                decreases len - j,
            {
                j = j + 1;
            }
            proof {
                assert forall|t: int| 0 <= t < j - i implies is_dec_digit(tail[t]) by {
                    assert(tail[t] == p@[i + t]);
                }
                if j < len {
                    assert(tail[j - i] == p@[j as int]);
                }
                lemma_run_len_exact(tail, j as int - i as int);
                assert(tail.take(j - i) =~= p@.subrange(i as int, j as int));
                assert(tail.skip(j - i) =~= p@.skip(j as int));
            }
            let ghost run = p@.subrange(i as int, j as int);
            let mut acc: usize = 0;
            let mut k: usize = i;
            proof {
                assert(run.take(0) =~= p@.subrange(i as int, i as int));
                assert(dec_value(p@.subrange(i as int, i as int)) == 0);
            }
            while k < j
                invariant
                    i <= k <= j <= len,
                    len == p@.len(),
                    forall|t: int| i <= t < j ==> is_dec_digit(p@[t]),
                    acc as nat == dec_value(p@.subrange(i as int, k as int)),
                    run == p@.subrange(i as int, j as int),
                decreases j - k,
            {
                let c = p.get_char(k);
                let d = ((c as u32) - 48) as usize;
                let wide: u128 = (acc as u128) * 10 + (d as u128);
                proof {
                    assert(p@.subrange(i as int, k as int + 1).drop_last() =~= p@.subrange(
                        i as int,
                        k as int,
                    ));
                    assert(dec_value(p@.subrange(i as int, k as int + 1)) == dec_value(
                        p@.subrange(i as int, k as int),
                    ) * 10 + digit_val(p@[k as int]));
                }
                if wide > (usize::MAX as u128) {
                    proof {
                        assert(run.take(k as int + 1 - i) =~= p@.subrange(i as int, k as int + 1));
                        lemma_dec_value_prefix(run, k as int + 1 - i);
                        assert(dec_value(run) > usize::MAX);
                        assert(run_values(tail)[0] == dec_value(run));
                        assert(run_values(p@)[out@.len() as int] == dec_value(run));
                    }
                    return None;
                }
                acc = wide as usize;
                k = k + 1;
            }
            proof {
                assert(run_values(tail) == seq![dec_value(run)] + run_values(p@.skip(j as int)));
            }
            out.push(acc);
            proof {
                assert(run_values(p@) =~= nats_of(out@) + run_values(p@.skip(j as int)));
            }
            i = j;
        } else {
            proof {
                assert(tail.drop_first() =~= p@.skip(i as int + 1));
                assert(run_values(tail) == run_values(p@.skip(i as int + 1)));
            }
            i = i + 1;
        }
    }
    proof {
        assert(p@.skip(len as int) =~= Seq::empty());
        assert(nats_of(out@) =~= run_values(p@));
    }
    Some(out)
}

/// Whether the bound string parses and every bound fits a machine
/// integer.
pub open spec fn bounds_ok(s: Seq<char>) -> bool {
    &&& parse_bounds(s) is Some
    &&& forall|t: int|
        0 <= t < parse_bounds(s).unwrap().len() ==> #[trigger] parse_bounds(s).unwrap()[t]
            <= usize::MAX
}

/// The parsed bound components of `s`, or nothing when `s` is not a
/// usable bound string.
#[verifier::loop_isolation(false)]
#[verifier::rlimit(50)]
pub fn parse_bound_values(s: &str) -> (r: Option<Vec<usize>>)
    ensures
        match r {
            Some(v) => parse_bounds(s@) == Some(nats_of(v@)),
            None => !bounds_ok(s@),
        },
{
    let len = s.unicode_len();
    let mut out: Vec<usize> = Vec::new();
    let mut i: usize = 0;
    proof {
        assert(s@.skip(0) =~= s@);
        assert(nats_of(out@) =~= Seq::<nat>::empty());
        assert(forall|rest: Seq<nat>| nats_of(out@) + rest =~= rest);
    }
    while i < len
        invariant
            i <= len,
            len == s@.len(),
            parse_bounds(s@) == (match parse_bounds(s@.skip(i as int)) {
                None => None::<Seq<nat>>,
                Some(rest) => Some(nats_of(out@) + rest),
            }),
        decreases len - i,
    {
        let ghost tail = s@.skip(i as int);
        // find the end of the component
        let mut j: usize = i;
        while j < len && s.get_char(j) != '|'
            invariant
                i <= j <= len,
                forall|t: int| i <= t < j ==> s@[t] != '|',
            decreases len - j,
        {
            j = j + 1;
        }
        proof {
            assert forall|t: int| 0 <= t < j - i implies tail[t] != '|' by {
                assert(tail[t] == s@[i + t]);
            }
            if j < len {
                assert(tail[j - i] == s@[j as int]);
            }
            lemma_sep_len_exact(tail, '|', j as int - i as int);
            assert(tail.take(j - i) =~= s@.subrange(i as int, j as int));
        }
        let ghost head = s@.subrange(i as int, j as int);
        if j == i {
            // an empty component is not a digit run
            return None;
        }
        // the component must be digits throughout
        let mut k: usize = i;
        while k < j
            invariant
                i <= k <= j,
                forall|t: int| i <= t < k ==> is_dec_digit(s@[t]),
            decreases j - k,
        {
            if !is_digit_char(s.get_char(k)) {
                proof {
                    assert(head[k - i] == s@[k as int]);
                    assert(!digits_only(head));
                }
                return None;
            }
            k = k + 1;
        }
        proof {
            assert forall|t: int| 0 <= t < head.len() implies is_dec_digit(#[trigger] head[t]) by {
                assert(head[t] == s@[i + t]);
            }
            assert(digits_only(head));
        }
        // parse the component
        let mut acc: usize = 0;
        let mut k2: usize = i;
        proof {
            assert(head.take(0) =~= s@.subrange(i as int, i as int));
        }
        while k2 < j
            invariant
                i <= k2 <= j,
                acc as nat == dec_value(s@.subrange(i as int, k2 as int)),
            decreases j - k2,
        {
            let c = s.get_char(k2);
            let d = ((c as u32) - 48) as usize;
            let wide: u128 = (acc as u128) * 10 + (d as u128);
            proof {
                assert(s@.subrange(i as int, k2 as int + 1).drop_last() =~= s@.subrange(
                    i as int,
                    k2 as int,
                ));
                assert(dec_value(s@.subrange(i as int, k2 as int + 1)) == dec_value(
                    s@.subrange(i as int, k2 as int),
                ) * 10 + digit_val(s@[k2 as int]));
            }
            if wide > (usize::MAX as u128) {
                proof {
                    assert(head.take(k2 as int + 1 - i) =~= s@.subrange(i as int, k2 as int + 1));
                    lemma_dec_value_prefix(head, k2 as int + 1 - i);
                    assert(dec_value(head) > usize::MAX);
                    if parse_bounds(s@) is Some {
                        let rest = parse_bounds(tail).unwrap();
                        assert(rest[0] == dec_value(head));
                        let bs = parse_bounds(s@).unwrap();
                        assert(bs[out@.len() as int] == dec_value(head));
                    }
                }
                return None;
            }
            acc = wide as usize;
            k2 = k2 + 1;
        }
        let ghost prev_out = out@;
        out.push(acc);
        proof {
            assert(nats_of(out@) =~= nats_of(prev_out).push(acc as nat));
        }
        if j == len {
            i = len;
            proof {
                assert(s@.skip(len as int) =~= Seq::<char>::empty());
                assert(parse_bounds(tail) == Some(seq![dec_value(head)]));
                assert forall|rest: Seq<nat>| true implies nats_of(prev_out) + (seq![
                    dec_value(head),
                ] + rest) =~= nats_of(out@) + rest by {}
                assert(nats_of(prev_out) + seq![dec_value(head)] =~= nats_of(out@));
            }
        } else {
            proof {
                assert(tail.skip(j - i + 1) =~= s@.skip(j as int + 1));
                assert forall|rest: Seq<nat>| true implies nats_of(prev_out) + (seq![
                    dec_value(head),
                ] + rest) =~= nats_of(out@) + rest by {}
            }
            i = j + 1;
        }
    }
    proof {
        assert(s@.skip(len as int) =~= Seq::<char>::empty());
        assert(nats_of(out@) + Seq::<nat>::empty() =~= nats_of(out@));
    }
    Some(out)
}

/// The value of a digit-run string, when it is one and fits a machine
/// integer.
#[verifier::loop_isolation(false)]
pub fn parse_seg_index(s: &str) -> (r: Option<usize>)
    ensures
        match r {
            Some(v) => digits_only(s@) && v as nat == dec_value(s@),
            None => !digits_only(s@) || dec_value(s@) > usize::MAX,
        },
{
    let len = s.unicode_len();
    if len == 0 {
        return None;
    }
    let mut acc: usize = 0;
    let mut k: usize = 0;
    proof {
        assert(s@.take(0) =~= Seq::<char>::empty());
    }
    while k < len
        invariant
            k <= len,
            len == s@.len(),
            forall|t: int| 0 <= t < k ==> is_dec_digit(s@[t]),
            acc as nat == dec_value(s@.take(k as int)),
        decreases len - k,
    {
        let c = s.get_char(k);
        if !is_digit_char(c) {
            return None;
        }
        let d = ((c as u32) - 48) as usize;
        let wide: u128 = (acc as u128) * 10 + (d as u128);
        proof {
            assert(s@.take(k as int + 1).drop_last() =~= s@.take(k as int));
            assert(dec_value(s@.take(k as int + 1)) == dec_value(s@.take(k as int)) * 10
                + digit_val(s@[k as int]));
        }
        if wide > (usize::MAX as u128) {
            proof {
                lemma_dec_value_prefix(s@, k as int + 1);
            }
            return None;
        }
        acc = wide as usize;
        k = k + 1;
    }
    proof {
        assert(s@.take(len as int) =~= s@);
    }
    Some(acc)
}

/// Raise each entry of `cur` to at least the matching entry of `vals`,
/// appending the entries of `vals` past the end of `cur`.
#[verifier::loop_isolation(false)]
pub fn merge_bound_values(cur: &mut Vec<usize>, vals: &Vec<usize>)
    ensures
        nats_of(final(cur)@) == merge_bounds(nats_of(old(cur)@), nats_of(vals@)),
{
    let ghost a = nats_of(old(cur)@);
    let ghost b = nats_of(vals@);
    let mut t: usize = 0;
    while t < vals.len()
        invariant
            t <= vals.len(),
            b == nats_of(vals@),
            cur@.len() == if old(cur)@.len() >= t as int {
                old(cur)@.len() as int
            } else {
                t as int
            },
            forall|u: int| 0 <= u < cur@.len() && u >= t ==> cur@[u] == old(cur)@[u],
            forall|u: int|
                0 <= u < cur@.len() && u < t ==> cur@[u] as nat == merge_bounds(a, b)[u],
        decreases vals.len() - t,
    {
        if t < cur.len() {
            if vals[t] > cur[t] {
                let v = vals[t];
                cur[t] = v;
            }
        } else {
            cur.push(vals[t]);
        }
        t = t + 1;
    }
    proof {
        assert(nats_of(cur@) =~= merge_bounds(a, b));
    }
}

/// The bound list rendered as a `|`-separated string.
#[verifier::loop_isolation(false)]
pub fn join_bound_values(vals: &Vec<usize>) -> (r: String)
    ensures
        r@ == join_bounds(nats_of(vals@)),
{
    let mut r = String::new();
    let mut t: usize = 0;
    proof {
        reveal_strlit("|");
    }
    while t < vals.len()
        invariant
            t <= vals.len(),
            r@ == join_bounds(nats_of(vals@).take(t as int)),
        decreases vals.len() - t,
    {
        if t > 0 {
            r.append("|");
        }
        let num = usize_to_string(vals[t]);
        r.append(num.as_str());
        proof {
            let pre = nats_of(vals@).take(t as int);
            let now = nats_of(vals@).take(t as int + 1);
            assert(now.drop_last() =~= pre);
            assert(now.last() == vals@[t as int] as nat);
            assert(r@ =~= join_bounds(now));
        }
        t = t + 1;
    }
    proof {
        assert(nats_of(vals@).take(vals@.len() as int) =~= nats_of(vals@));
    }
    r
}

/// The length of the leading component: the characters before the
/// first `sep`.
pub open spec fn sep_len(s: Seq<char>, sep: char) -> nat
    decreases s.len(),
{
    if s.len() > 0 && s[0] != sep {
        (1 + sep_len(s.drop_first(), sep)) as nat
    } else {
        0
    }
}

/// What bounds the leading component: no separator inside, one right
/// after unless the string ends.
pub proof fn lemma_sep_len_props(s: Seq<char>, sep: char)
    ensures
        sep_len(s, sep) <= s.len(),
        forall|t: int| 0 <= t < sep_len(s, sep) ==> s[t] != sep,
        sep_len(s, sep) < s.len() ==> s[sep_len(s, sep) as int] == sep,
    decreases s.len(),
{
    if s.len() > 0 && s[0] != sep {
        lemma_sep_len_props(s.drop_first(), sep);
        assert forall|t: int| 0 <= t < sep_len(s, sep) implies s[t] != sep by {
            if t > 0 {
                assert(s.drop_first()[t - 1] == s[t]);
            }
        }
        if sep_len(s, sep) < s.len() {
            assert(s.drop_first()[sep_len(s, sep) - 1] == s[sep_len(s, sep) as int]);
        }
    }
}

/// The leading component is the only cut with those bounds.
pub proof fn lemma_sep_len_exact(s: Seq<char>, sep: char, m: int)
    requires
        0 <= m <= s.len(),
        forall|t: int| 0 <= t < m ==> s[t] != sep,
        m == s.len() || s[m] == sep,
    ensures
        sep_len(s, sep) == m,
{
    lemma_sep_len_props(s, sep);
    if sep_len(s, sep) < m {
        assert(s[sep_len(s, sep) as int] != sep);
        assert(false);
    }
    if sep_len(s, sep) > m {
        assert(s[m] != sep);
        assert(false);
    }
}

/// Whether `s` is one valid bound component: one or more digits.
pub open spec fn digits_only(s: Seq<char>) -> bool {
    s.len() > 0 && forall|t: int| 0 <= t < s.len() ==> is_dec_digit(#[trigger] s[t])
}

/// The `|`-separated bound components of `s` as numbers, or nothing
/// when a component is not a digit run. The empty string carries no
/// bounds.
pub open spec fn parse_bounds(s: Seq<char>) -> Option<Seq<nat>>
    decreases s.len(),
    via parse_bounds_decreases
{
    if s.len() == 0 {
        Some(Seq::empty())
    } else {
        let k = sep_len(s, '|') as int;
        let head = s.take(k);
        if !digits_only(head) {
            None
        } else if k == s.len() {
            Some(seq![dec_value(head)])
        } else {
            match parse_bounds(s.skip(k + 1)) {
                None => None,
                Some(rest) => Some(seq![dec_value(head)] + rest),
            }
        }
    }
}

#[via_fn]
proof fn parse_bounds_decreases(s: Seq<char>) {
    lemma_sep_len_props(s, '|');
}

/// The decimal rendering is one or more digits.
pub proof fn lemma_dec_rep_digits(n: nat)
    ensures
        dec_rep(n).len() >= 1,
        forall|t: int| 0 <= t < dec_rep(n).len() ==> is_dec_digit(#[trigger] dec_rep(n)[t]),
    decreases n,
{
    if n < 10 {
    } else {
        lemma_dec_rep_digits(n / 10);
        assert forall|t: int| 0 <= t < dec_rep(n).len() implies is_dec_digit(
            #[trigger] dec_rep(n)[t],
        ) by {
            if t < dec_rep(n / 10).len() {
                assert(dec_rep(n)[t] == dec_rep(n / 10)[t]);
            }
        }
    }
}

/// Without a marker, substitution leaves the pattern unchanged.
pub proof fn lemma_subst_no_marker(pat: Seq<char>, num: Seq<char>)
    requires
        !has_wildcard(pat),
    ensures
        subst_marker(pat, num) == pat,
    decreases pat.len(),
{
    if pat.len() == 0 {
    } else {
        assert(!marker_at(pat, 0));
        lemma_marker_skip(pat, 1);
        assert(!has_wildcard(pat.skip(1))) by {
            if has_wildcard(pat.skip(1)) {
                let k = choose|k: int| #[trigger] marker_at(pat.skip(1), k);
                assert(marker_at(pat, k + 1));
            }
        }
        lemma_subst_no_marker(pat.skip(1), num);
        assert(seq![pat[0]] + pat.skip(1) =~= pat);
    }
}

/// Substituting an index for the first marker keeps the pattern well
/// formed.
pub proof fn lemma_subst_wf(pat: Seq<char>, num: Seq<char>)
    requires
        well_formed_pattern(pat),
        digits_only(num),
    ensures
        well_formed_pattern(subst_marker(pat, num)),
{
    if !has_wildcard(pat) {
        lemma_subst_no_marker(pat, num);
    } else {
        let k = first_marker_pos(pat);
        lemma_first_marker_pos(pat);
        lemma_subst_at(pat, k, num);
        let r = subst_marker(pat, num);
        let c = num.len() as int;
        assert(r =~= pat.take(k) + seq!['.'] + num + pat.skip(k + 3));
        assert forall|k2: int| #[trigger] marker_at(r, k2) implies k2 + 3 == r.len() || r[k2 + 3]
            == '.' by {
            assert(r[k2] == '[' && r[k2 + 1] == '*' && r[k2 + 2] == ']');
            // the marker cannot touch the dot or the digits
            assert forall|t: int| k <= t < k + 1 + c implies r[t] == '.' || is_dec_digit(
                #[trigger] r[t],
            ) by {
                if t > k {
                    assert(r[t] == num[t - k - 1]);
                }
            }
            assert(!is_dec_digit('[') && !is_dec_digit('*') && !is_dec_digit(']'));
            if k2 + 3 <= k {
                // a marker fully before `k`: none stands there
                assert(marker_at(pat, k2));
                assert(false);
            } else if k2 < k + 1 + c {
                // it would overlap the dot or the digits
                let t = if k2 >= k {
                    k2
                } else if k2 + 1 >= k {
                    k2 + 1
                } else {
                    k2 + 2
                };
                assert(k <= t < k + 1 + c && (r[t] == '[' || r[t] == '*' || r[t] == ']'));
                assert(false);
            } else {
                // the marker lies in the tail and comes from `pat`
                let k3 = k2 - (k + 1 + c) + (k + 3);
                assert(r[k2] == pat[k3] && r[k2 + 1] == pat[k3 + 1] && r[k2 + 2] == pat[k3 + 2]);
                assert(marker_at(pat, k3));
                if k3 + 3 < pat.len() {
                    assert(r[k2 + 3] == pat[k3 + 3]);
                }
            }
        }
    }
}

/// The position of the first marker of a pattern that has one.
pub open spec fn first_marker_pos(p: Seq<char>) -> int
    decreases p.len(),
{
    if marker_at(p, 0) || p.len() == 0 {
        0
    } else {
        1 + first_marker_pos(p.drop_first())
    }
}

/// On a pattern with a marker, `first_marker_pos` names the first one.
pub proof fn lemma_first_marker_pos(p: Seq<char>)
    requires
        has_wildcard(p),
    ensures
        marker_at(p, first_marker_pos(p)),
        forall|k2: int| 0 <= k2 < first_marker_pos(p) ==> !marker_at(p, k2),
    decreases p.len(),
{
    if marker_at(p, 0) || p.len() == 0 {
        let w = choose|w: int| #[trigger] marker_at(p, w);
        assert(p.len() > 0);
    } else {
        lemma_marker_skip(p, 1);
        assert(has_wildcard(p.drop_first())) by {
            let w = choose|w: int| #[trigger] marker_at(p, w);
            assert(w > 0);
            assert(marker_at(p.skip(1), w - 1));
        }
        assert(p.drop_first() =~= p.skip(1));
        lemma_first_marker_pos(p.drop_first());
        assert(marker_at(p, first_marker_pos(p)));
        assert forall|k2: int| 0 <= k2 < first_marker_pos(p) implies !marker_at(p, k2) by {
            if k2 > 0 {
                assert(marker_at(p.skip(1), k2 - 1) == marker_at(p, k2));
            }
        }
    }
}

/// The one-character string for digit `d`.
fn digit_str(d: usize) -> (r: &'static str)
    requires
        d < 10,
    ensures
        r@ =~= seq![digit_char(d as int)],
{
    proof {
        reveal_strlit("0");
        reveal_strlit("1");
        reveal_strlit("2");
        reveal_strlit("3");
        reveal_strlit("4");
        reveal_strlit("5");
        reveal_strlit("6");
        reveal_strlit("7");
        reveal_strlit("8");
        reveal_strlit("9");
    }
    match d {
        0 => "0",
        1 => "1",
        2 => "2",
        3 => "3",
        4 => "4",
        5 => "5",
        6 => "6",
        7 => "7",
        8 => "8",
        _ => "9",
    }
}

/// Whether the repetition marker `[*]` stands at position `k` of `p`.
pub open spec fn marker_at(p: Seq<char>, k: int) -> bool {
    &&& 0 <= k
    &&& k + 3 <= p.len()
    &&& p[k] == '['
    &&& p[k + 1] == '*'
    &&& p[k + 2] == ']'
}

/// Whether `p` contains the repetition marker.
pub open spec fn has_wildcard(p: Seq<char>) -> bool {
    exists|k: int| #[trigger] marker_at(p, k)
}

/// A usable pattern: every repetition marker is followed by `.` or
/// stands at the end. A pattern that breaks this is rejected as a
/// configuration error.
pub open spec fn well_formed_pattern(p: Seq<char>) -> bool {
    forall|k: int| #[trigger] marker_at(p, k) ==> k + 3 == p.len() || p[k + 3] == '.'
}

/// Whether `path` is one of the paths denoted by `pat`: the two agree
/// except that each `[*]` of `pat` stands for `.` followed by one or
/// more decimal digits.
pub open spec fn wild_match(pat: Seq<char>, path: Seq<char>) -> bool
    decreases pat.len(),
{
    if pat.len() == 0 {
        path.len() == 0
    } else if marker_at(pat, 0) {
        exists|j: int|
            {
                &&& 2 <= j <= path.len()
                &&& path[0] == '.'
                &&& (forall|t: int| 1 <= t < j ==> is_dec_digit(path[t]))
                &&& wild_match(pat.skip(3), #[trigger] path.skip(j))
            }
    } else {
        &&& path.len() > 0
        &&& pat[0] == path[0]
        &&& wild_match(pat.skip(1), path.skip(1))
    }
}

/// A marker of a suffix of `p` is a marker of `p`, shifted.
pub proof fn lemma_marker_skip(p: Seq<char>, d: int)
    requires
        0 <= d <= p.len(),
    ensures
        forall|k: int| 0 <= k ==> #[trigger] marker_at(p.skip(d), k) == marker_at(p, k + d),
{
    assert forall|k: int| 0 <= k implies #[trigger] marker_at(p.skip(d), k) == marker_at(
        p,
        k + d,
    ) by {
        if k + 3 <= p.skip(d).len() {
            assert(p.skip(d)[k] == p[k + d]);
            assert(p.skip(d)[k + 1] == p[k + d + 1]);
            assert(p.skip(d)[k + 2] == p[k + d + 2]);
        }
    }
}

/// Suffixes of a well-formed pattern are well-formed.
pub proof fn lemma_wf_skip(p: Seq<char>, d: int)
    requires
        well_formed_pattern(p),
        0 <= d <= p.len(),
    ensures
        well_formed_pattern(p.skip(d)),
{
    lemma_marker_skip(p, d);
    assert forall|k: int| #[trigger] marker_at(p.skip(d), k) implies k + 3 == p.skip(d).len() || p.skip(
        d,
    )[k + 3] == '.' by {
        assert(marker_at(p, k + d));
        if k + d + 3 < p.len() {
            assert(p.skip(d)[k + 3] == p[k + d + 3]);
        }
    }
}

/// On a pattern without the marker, matching is equality.
pub proof fn lemma_no_wildcard_exact(pat: Seq<char>, path: Seq<char>)
    requires
        !has_wildcard(pat),
    ensures
        wild_match(pat, path) == (pat == path),
    decreases pat.len(),
{
    if pat.len() == 0 {
        if path.len() == 0 {
            assert(pat =~= path);
        }
    } else {
        assert(!marker_at(pat, 0));
        lemma_marker_skip(pat, 1);
        assert(!has_wildcard(pat.skip(1))) by {
            if has_wildcard(pat.skip(1)) {
                let k = choose|k: int| #[trigger] marker_at(pat.skip(1), k);
                assert(marker_at(pat, k + 1));
            }
        }
        lemma_no_wildcard_exact(pat.skip(1), path.skip(1));
        if wild_match(pat, path) {
            assert forall|i: int| 0 <= i < pat.len() implies pat[i] == path[i] by {
                if i > 0 {
                    assert(pat.skip(1)[i - 1] == pat[i]);
                    assert(path.skip(1)[i - 1] == path[i]);
                }
            }
            assert(pat =~= path);
        }
        if pat == path {
            assert(pat.skip(1) =~= path.skip(1));
        }
    }
}

/// At a marker, matching comes down to matching past the maximal digit
/// run of the path: with the marker's follower fixed to `.` or the end,
/// no shorter or longer run can carry a match.
pub proof fn lemma_wild_match_marker(p: Seq<char>, q: Seq<char>, jm: int)
    requires
        marker_at(p, 0),
        well_formed_pattern(p),
        q.len() >= 1,
        q[0] == '.',
        2 <= jm <= q.len(),
        forall|t: int| 1 <= t < jm ==> is_dec_digit(q[t]),
        jm == q.len() || !is_dec_digit(q[jm]),
    ensures
        wild_match(p, q) == wild_match(p.skip(3), q.skip(jm)),
{
    if wild_match(p.skip(3), q.skip(jm)) {
        assert(wild_match(p, q));
    }
    if wild_match(p, q) {
        let j = choose|j: int|
            {
                &&& 2 <= j <= q.len()
                &&& q[0] == '.'
                &&& (forall|t: int| 1 <= t < j ==> is_dec_digit(q[t]))
                &&& wild_match(p.skip(3), #[trigger] q.skip(j))
            };
        if j < jm {
            assert(is_dec_digit(q[j]));
            if p.len() == 3 {
                assert(p.skip(3).len() == 0);
                assert(q.skip(j).len() == 0);
            } else {
                assert(p[3] == '.');
                assert(p.skip(3)[0] == p[3]);
                assert(!marker_at(p.skip(3), 0));
                assert(q.skip(j)[0] == q[j]);
                assert(q[j] == '.');
            }
            assert(false);
        }
        if j > jm {
            assert(is_dec_digit(q[jm]));
            assert(false);
        }
        assert(j == jm);
    }
}

/// Whether `c` is a decimal digit.
pub fn is_digit_char(c: char) -> (r: bool)
    ensures
        r == is_dec_digit(c),
{
    let u = c as u32;
    48 <= u && u <= 57
}

/// The position of the first repetition marker of `pat`, if any.
pub fn find_marker(pat: &str) -> (r: Option<usize>)
    ensures
        match r {
            Some(k) => marker_at(pat@, k as int) && forall|k2: int|
                0 <= k2 < k ==> !marker_at(pat@, k2),
            None => !has_wildcard(pat@),
        },
{
    let len = pat.unicode_len();
    if len < 3 {
        return None;
    }
    let mut k: usize = 0;
    while k <= len - 3
        invariant
            3 <= len == pat@.len(),
            k <= len - 2,
            forall|k2: int| 0 <= k2 < k ==> !marker_at(pat@, k2),
        decreases len - k,
    {
        if pat.get_char(k) == '[' && pat.get_char(k + 1) == '*' && pat.get_char(k + 2) == ']' {
            return Some(k);
        }
        k = k + 1;
    }
    None
}

/// Whether every repetition marker of `pat` is followed by `.` or ends
/// the pattern.
pub fn pattern_well_formed(pat: &str) -> (r: bool)
    ensures
        r == well_formed_pattern(pat@),
{
    let len = pat.unicode_len();
    if len < 3 {
        return true;
    }
    let mut k: usize = 0;
    while k <= len - 3
        invariant
            3 <= len == pat@.len(),
            k <= len - 2,
            forall|k2: int|
                #[trigger] marker_at(pat@, k2) && k2 < k ==> k2 + 3 == len || pat@[k2 + 3] == '.',
        decreases len - k,
    {
        if pat.get_char(k) == '[' && pat.get_char(k + 1) == '*' && pat.get_char(k + 2) == ']' {
            if k + 3 < len && pat.get_char(k + 3) != '.' {
                assert(marker_at(pat@, k as int));
                return false;
            }
        }
        k = k + 1;
    }
    true
}

/// The greedy matcher on the suffixes of `pat` and `path` that start at
/// `pi` and `si`.
fn wild_match_from(pat: &str, path: &str, pi: usize, si: usize) -> (r: bool)
    requires
        pi <= pat@.len(),
        si <= path@.len(),
        well_formed_pattern(pat@.skip(pi as int)),
    ensures
        r == wild_match(pat@.skip(pi as int), path@.skip(si as int)),
    decreases pat@.len() - pi,
{
    let plen = pat.unicode_len();
    let slen = path.unicode_len();
    let ghost pseq = pat@.skip(pi as int);
    let ghost qseq = path@.skip(si as int);
    if pi == plen {
        return si == slen;
    }
    let marker_here = plen - pi >= 3 && pat.get_char(pi) == '[' && pat.get_char(pi + 1) == '*'
        && pat.get_char(pi + 2) == ']';
    proof {
        assert(pseq.len() == plen - pi);
        if pseq.len() >= 3 {
            assert(pseq[0] == pat@[pi as int]);
            assert(pseq[1] == pat@[pi as int + 1]);
            assert(pseq[2] == pat@[pi as int + 2]);
        }
        assert(marker_here == marker_at(pseq, 0));
    }
    if marker_here {
        if si == slen {
            return false;
        }
        assert(qseq[0] == path@[si as int]);
        if path.get_char(si) != '.' {
            return false;
        }
        let mut j: usize = si + 1;
        while j < slen && is_digit_char(path.get_char(j))
            invariant
                si < j <= slen,
                slen == path@.len(),
                si < path@.len(),
                forall|t: int| si < t < j ==> is_dec_digit(path@[t]),
            decreases slen - j,
        {
            j = j + 1;
        }
        assert(j == slen || !is_dec_digit(path@[j as int]));
        if j == si + 1 {
            // the marker needs at least one digit after the dot
            assert(!wild_match(pseq, qseq)) by {
                if wild_match(pseq, qseq) {
                    let w = choose|w: int|
                        {
                            &&& 2 <= w <= qseq.len()
                            &&& qseq[0] == '.'
                            &&& (forall|t: int| 1 <= t < w ==> is_dec_digit(qseq[t]))
                            &&& wild_match(pseq.skip(3), #[trigger] qseq.skip(w))
                        };
                    assert(is_dec_digit(qseq[1]));
                    assert(qseq[1] == path@[si as int + 1]);
                }
            }
            return false;
        }
        proof {
            lemma_wf_skip(pat@.skip(pi as int), 3);
            assert(pat@.skip(pi as int).skip(3) =~= pat@.skip(pi as int + 3));
            assert(forall|t: int|
                1 <= t < j - si ==> qseq[t] == path@[si + t] && is_dec_digit(qseq[t]));
            if (j as int) - (si as int) < qseq.len() {
                assert(qseq[j - si] == path@[j as int]);
            }
            lemma_wild_match_marker(pseq, qseq, j as int - si as int);
            assert(qseq.skip(j as int - si as int) =~= path@.skip(j as int));
        }
        wild_match_from(pat, path, pi + 3, j)
    } else {
        if si == slen {
            return false;
        }
        assert(qseq[0] == path@[si as int]);
        if pat.get_char(pi) != path.get_char(si) {
            return false;
        }
        proof {
            lemma_wf_skip(pat@.skip(pi as int), 1);
            assert(pat@.skip(pi as int).skip(1) =~= pat@.skip(pi as int + 1));
            assert(qseq.skip(1) =~= path@.skip(si as int + 1));
        }
        wild_match_from(pat, path, pi + 1, si + 1)
    }
}

/// Whether `path` is one of the paths denoted by `pat`.
pub fn pattern_matches(pat: &str, path: &str) -> (r: bool)
    requires
        well_formed_pattern(pat@),
    ensures
        r == wild_match(pat@, path@),
{
    proof {
        assert(pat@.skip(0) =~= pat@);
        assert(path@.skip(0) =~= path@);
    }
    wild_match_from(pat, path, 0, 0)
}

/// `pat` with its first repetition marker replaced by `.` followed by
/// `num`.
pub open spec fn subst_marker(pat: Seq<char>, num: Seq<char>) -> Seq<char>
    decreases pat.len(),
{
    if pat.len() == 0 {
        pat
    } else if marker_at(pat, 0) {
        seq!['.'] + num + pat.skip(3)
    } else {
        seq![pat[0]] + subst_marker(pat.skip(1), num)
    }
}

/// Substitution rewritten around the position of the first marker.
pub proof fn lemma_subst_at(pat: Seq<char>, k: int, num: Seq<char>)
    requires
        marker_at(pat, k),
        forall|k2: int| 0 <= k2 < k ==> !marker_at(pat, k2),
    ensures
        subst_marker(pat, num) == pat.take(k) + seq!['.'] + num + pat.skip(k + 3),
    decreases k,
{
    if k == 0 {
        assert(pat.take(0) =~= Seq::empty());
        assert(subst_marker(pat, num) =~= pat.take(0) + seq!['.'] + num + pat.skip(3));
    } else {
        assert(!marker_at(pat, 0));
        lemma_marker_skip(pat, 1);
        assert(marker_at(pat.skip(1), k - 1));
        assert forall|k2: int| 0 <= k2 < k - 1 implies !marker_at(pat.skip(1), k2) by {
            assert(marker_at(pat.skip(1), k2) == marker_at(pat, k2 + 1));
        }
        lemma_subst_at(pat.skip(1), k - 1, num);
        assert(pat.skip(1).take(k - 1) =~= pat.subrange(1, k));
        assert(pat.skip(1).skip(k + 2) =~= pat.skip(k + 3));
        assert(seq![pat[0]] + (pat.subrange(1, k) + seq!['.'] + num + pat.skip(k + 3)) =~= pat.take(
            k,
        ) + seq!['.'] + num + pat.skip(k + 3));
    }
}

/// `pat` with its first repetition marker, if any, replaced by `.`
/// followed by the decimal rendering of `index`.
pub fn substitute_first(pat: &str, index: usize) -> (r: String)
    ensures
        r@ == subst_marker(pat@, dec_rep(index as nat)),
{
    let k = match find_marker(pat) {
        Some(k) => k,
        None => {
            proof {
                lemma_subst_no_marker(pat@, dec_rep(index as nat));
            }
            return pat.to_owned();
        },
    };
    let len = pat.unicode_len();
    let mut r = String::from_str(pat.substring_char(0, k));
    r.append(".");
    let num = usize_to_string(index);
    r.append(num.as_str());
    r.append(pat.substring_char(k + 3, len));
    proof {
        reveal_strlit(".");
        lemma_subst_at(pat@, k as int, dec_rep(index as nat));
        assert(pat@.subrange(0, k as int) =~= pat@.take(k as int));
        assert(pat@.subrange(k as int + 3, pat@.len() as int) =~= pat@.skip(k as int + 3));
        assert(r@ =~= pat@.take(k as int) + seq!['.'] + dec_rep(index as nat) + pat@.skip(
            k as int + 3,
        ));
    }
    r
}

/// The decimal rendering of `n` as a string.
pub fn usize_to_string(n: usize) -> (r: String)
    ensures
        r@ == dec_rep(n as nat),
    decreases n,
{
    if n < 10 {
        let r = digit_str(n).to_owned();
        proof {
            assert(r@ =~= dec_rep(n as nat));
        }
        r
    } else {
        let mut r = usize_to_string(n / 10);
        r.append(digit_str(n % 10));
        proof {
            assert(r@ =~= dec_rep(n as nat));
        }
        r
    }
}

} // verus!
