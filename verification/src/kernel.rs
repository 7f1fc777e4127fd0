//! Parsing an adjacency kernel from configuration text: space-separated
//! entries, each a comma-separated pair of integer offsets.

use vstd::prelude::*;
use vstd::string::StrSliceExecFns;
use crate::error::Error;

verus! {

/// A decimal digit.
pub open spec fn is_digit(c: char) -> bool {
    '0' <= c && c <= '9'
}

/// The value of a decimal digit.
pub open spec fn digit_val(c: char) -> int {
    c as int - '0' as int
}

/// The value of a digit string, most significant digit first.
pub open spec fn digits_val(s: Seq<char>) -> int
    decreases s.len(),
{
    if s.len() == 0 {
        0
    } else {
        digits_val(s.drop_last()) * 10 + digit_val(s.last())
    }
}

/// Every character is a decimal digit.
pub open spec fn all_digits(s: Seq<char>) -> bool {
    forall|i: int| 0 <= i < s.len() ==> is_digit(#[trigger] s[i])
}

/// The token is an optional sign followed by at least one digit.
pub open spec fn int_token_ok(s: Seq<char>) -> bool {
    if s.len() >= 1 && (s[0] == '-' || s[0] == '+') {
        s.len() >= 2 && all_digits(s.skip(1))
    } else {
        s.len() >= 1 && all_digits(s)
    }
}

/// The signed value of an integer token.
pub open spec fn int_token_val(s: Seq<char>) -> int {
    if s.len() >= 1 && s[0] == '-' {
        -digits_val(s.skip(1))
    } else if s.len() >= 1 && s[0] == '+' {
        digits_val(s.skip(1))
    } else {
        digits_val(s)
    }
}

/// The token is a well-formed integer whose value fits the offset type.
pub open spec fn valid_isize_token(s: Seq<char>) -> bool {
    int_token_ok(s) && isize::MIN <= int_token_val(s) <= isize::MAX
}

/// The index of the first occurrence of `c` in `s`.
pub open spec fn find_char(s: Seq<char>, c: char) -> Option<int>
    decreases s.len(),
{
    if s.len() == 0 {
        None
    } else if s[0] == c {
        Some(0)
    } else {
        match find_char(s.skip(1), c) {
            Some(i) => Some(i + 1),
            None => None,
        }
    }
}

/// What `find_char` returns is the first occurrence.
pub proof fn lemma_find_char_props(s: Seq<char>, c: char)
    ensures
        match find_char(s, c) {
            Some(i) => 0 <= i < s.len() && s[i] == c
                && forall|k: int| 0 <= k < i ==> s[k] != c,
            None => forall|k: int| 0 <= k < s.len() ==> s[k] != c,
        },
    decreases s.len(),
{
    if s.len() > 0 && s[0] != c {
        lemma_find_char_props(s.skip(1), c);
        match find_char(s.skip(1), c) {
            Some(i) => {
                assert(find_char(s, c) == Some(i + 1));
                assert(s[i + 1] == s.skip(1)[i]);
                assert forall|k: int| 0 <= k < i + 1 implies s[k] != c by {
                    if k > 0 {
                        assert(s[k] == s.skip(1)[k - 1]);
                    }
                }
            }
            None => {
                assert forall|k: int| 0 <= k < s.len() implies s[k] != c by {
                    if k > 0 {
                        assert(s[k] == s.skip(1)[k - 1]);
                    }
                }
            }
        }
    }
}

/// The first occurrence determines `find_char`.
pub proof fn lemma_find_char_at(s: Seq<char>, c: char, i: int)
    requires
        0 <= i < s.len(),
        s[i] == c,
        forall|k: int| 0 <= k < i ==> s[k] != c,
    ensures
        find_char(s, c) == Some(i),
    decreases i,
{
    if s[0] != c {
        assert(forall|k: int| 0 <= k < s.skip(1).len() ==> #[trigger] s.skip(1)[k] == s[k + 1]);
        lemma_find_char_at(s.skip(1), c, i - 1);
    }
}

/// A sequence without `c` has no first occurrence.
pub proof fn lemma_find_char_missing(s: Seq<char>, c: char)
    requires
        forall|k: int| 0 <= k < s.len() ==> s[k] != c,
    ensures
        find_char(s, c) is None,
    decreases s.len(),
{
    if s.len() > 0 {
        assert(forall|k: int| 0 <= k < s.skip(1).len() ==> #[trigger] s.skip(1)[k] == s[k + 1]);
        lemma_find_char_missing(s.skip(1), c);
    }
}

/// What one kernel entry means: `None` when the entry has no comma (it is
/// skipped), an offset pair when both sides parse, or the first side that
/// fails to parse.
pub open spec fn parse_pair(tok: Seq<char>) -> Option<Result<(int, int), Seq<char>>> {
    match find_char(tok, ',') {
        None => None,
        Some(i) => {
            let xs = tok.take(i);
            let ys = tok.skip(i + 1);
            if !valid_isize_token(xs) {
                Some(Err(xs))
            } else if !valid_isize_token(ys) {
                Some(Err(ys))
            } else {
                Some(Ok((int_token_val(xs), int_token_val(ys))))
            }
        }
    }
}

/// What a whole kernel string means: the offset pairs of its space-separated
/// entries in order, entries without a comma skipped, or the first malformed
/// integer token.
pub open spec fn parse_kernel(s: Seq<char>) -> Result<Seq<(int, int)>, Seq<char>>
    decreases s.len(),
    via parse_kernel_dec
{
    match find_char(s, ' ') {
        None => match parse_pair(s) {
            None => Ok(Seq::empty()),
            Some(Err(e)) => Err(e),
            Some(Ok(p)) => Ok(seq![p]),
        },
        Some(i) => {
            let rest = parse_kernel(s.skip(i + 1));
            match parse_pair(s.take(i)) {
                None => rest,
                Some(Err(e)) => Err(e),
                Some(Ok(p)) => match rest {
                    Ok(l) => Ok(seq![p] + l),
                    Err(e) => Err(e),
                },
            }
        }
    }
}

#[via_fn]
proof fn parse_kernel_dec(s: Seq<char>) {
    match find_char(s, ' ') {
        Some(i) => {
            lemma_find_char_props(s, ' ');
        }
        None => {}
    }
}

/// The integer pairs of a list of offsets.
pub open spec fn pairs_int(v: Seq<(isize, isize)>) -> Seq<(int, int)> {
    Seq::new(v.len(), |i: int| (v[i].0 as int, v[i].1 as int))
}

/// A digit string has a non-negative value.
proof fn lemma_digits_val_nonneg(s: Seq<char>)
    requires
        all_digits(s),
    ensures
        digits_val(s) >= 0,
    decreases s.len(),
{
    if s.len() > 0 {
        assert(all_digits(s.drop_last()));
        lemma_digits_val_nonneg(s.drop_last());
    }
}

/// Appending digits never shrinks the value of a digit string.
proof fn lemma_digits_val_extend(p: Seq<char>, q: Seq<char>)
    requires
        all_digits(p),
        all_digits(q),
    ensures
        digits_val(p + q) >= digits_val(p),
    decreases q.len(),
{
    if q.len() == 0 {
        assert(p + q =~= p);
    } else {
        let q1 = q.drop_last();
        assert(all_digits(q1));
        lemma_digits_val_extend(p, q1);
        assert((p + q).drop_last() =~= p + q1);
        assert(all_digits(p + q1));
        lemma_digits_val_nonneg(p + q1);
        assert((p + q).last() == q.last());
    }
}

/// The characters of a string, in order.
fn str_chars(s: &str) -> (r: Vec<char>)
    ensures
        r@ == s@,
{
    let n = s.unicode_len();
    let mut r: Vec<char> = Vec::new();
    let mut i: usize = 0;
    while i < n
        invariant
            n == s@.len(),
            i <= n,
            r@ == s@.take(i as int),
        decreases n - i,
    {
        let c = s.get_char(i);
        r.push(c);
        proof {
            assert(r@ =~= s@.take(i as int + 1));
        }
        i = i + 1;
    }
    proof {
        assert(s@.take(n as int) =~= s@);
    }
    r
}

/// The first occurrence of `c` in `chars[lo..hi)`, as an absolute index.
fn find_in_range(chars: &Vec<char>, lo: usize, hi: usize, c: char) -> (r: Option<usize>)
    requires
        lo <= hi <= chars@.len(),
    ensures
        r matches Some(i) ==> lo <= i < hi
            && find_char(chars@.subrange(lo as int, hi as int), c) == Some(i - lo),
        r is None ==> find_char(chars@.subrange(lo as int, hi as int), c) is None,
{
    let ghost seg = chars@.subrange(lo as int, hi as int);
    let mut i = lo;
    while i < hi
        invariant
            lo <= i <= hi <= chars@.len(),
            seg == chars@.subrange(lo as int, hi as int),
            forall|k: int| lo <= k < i ==> chars@[k] != c,
        decreases hi - i,
    {
        if chars[i] == c {
            proof {
                assert(seg[i - lo] == c);
                assert(forall|k: int| 0 <= k < i - lo ==> seg[k] != c);
                lemma_find_char_at(seg, c, i as int - lo as int);
            }
            return Some(i);
        }
        i = i + 1;
    }
    proof {
        assert(forall|k: int| 0 <= k < seg.len() ==> seg[k] != c);
        lemma_find_char_missing(seg, c);
    }
    None
}

/// The string spelled by `chars[lo..hi)`.
fn string_of_range(chars: &Vec<char>, lo: usize, hi: usize) -> (r: String)
    requires
        lo <= hi <= chars@.len(),
    ensures
        r@ == chars@.subrange(lo as int, hi as int),
{
    let mut r = String::new();
    let mut i = lo;
    while i < hi
        invariant
            lo <= i <= hi <= chars@.len(),
            r@ == chars@.subrange(lo as int, i as int),
        decreases hi - i,
    {
        crate::charset::push_char(&mut r, chars[i]);
        proof {
            assert(chars@.subrange(lo as int, i as int).push(chars@[i as int])
                =~= chars@.subrange(lo as int, i as int + 1));
        }
        i = i + 1;
    }
    proof {
        assert(r@ =~= chars@.subrange(lo as int, hi as int));
    }
    r
}

/// The integer spelled by `chars[lo..hi)`, or `None` when the token is
/// malformed or its value does not fit the offset type.
fn parse_isize(chars: &Vec<char>, lo: usize, hi: usize) -> (r: Option<isize>)
    requires
        lo <= hi <= chars@.len(),
    ensures
        r is Some <==> valid_isize_token(chars@.subrange(lo as int, hi as int)),
        r matches Some(v) ==> v as int == int_token_val(chars@.subrange(lo as int, hi as int)),
{
    let ghost seg = chars@.subrange(lo as int, hi as int);
    if lo == hi {
        return None;
    }
    let c0 = chars[lo];
    let neg = c0 == '-';
    let signed = neg || c0 == '+';
    let d0 = if signed { lo + 1 } else { lo };
    let ghost digs = chars@.subrange(d0 as int, hi as int);
    proof {
        assert(seg[0] == c0);
        if signed {
            assert(digs =~= seg.skip(1));
        } else {
            assert(digs =~= seg);
        }
    }
    if d0 == hi {
        proof {
            assert(!int_token_ok(seg));
        }
        return None;
    }
    let cap: u128 = isize::MAX as u128;
    let mut m: u128 = 0;
    let mut i = d0;
    proof {
        assert(chars@.subrange(d0 as int, d0 as int) =~= Seq::<char>::empty());
    }
    while i < hi
        invariant
            lo <= d0 <= i <= hi <= chars@.len(),
            seg == chars@.subrange(lo as int, hi as int),
            digs == chars@.subrange(d0 as int, hi as int),
            d0 < hi,
            cap == isize::MAX as u128,
            signed ==> (d0 == lo + 1 && seg.len() >= 2 && (seg[0] == '-' || seg[0] == '+')),
            !signed ==> (d0 == lo && !(seg[0] == '-' || seg[0] == '+')),
            neg ==> seg[0] == '-',
            !neg && signed ==> seg[0] == '+',
            signed ==> digs == seg.skip(1),
            !signed ==> digs == seg,
            all_digits(chars@.subrange(d0 as int, i as int)),
            m as int == digits_val(chars@.subrange(d0 as int, i as int)),
            m <= cap + 1,
        decreases hi - i,
    {
        let c = chars[i];
        let ghost prefix = chars@.subrange(d0 as int, i as int);
        if !('0' <= c && c <= '9') {
            proof {
                assert(digs[i - d0] == c);
                assert(!all_digits(digs));
                assert(!int_token_ok(seg));
            }
            return None;
        }
        let d = (c as u32 - '0' as u32) as u128;
        proof {
            assert(m * 10 + 9 <= (cap + 1) * 10 + 9) by (nonlinear_arith)
                requires m <= cap + 1;
            assert(d <= 9);
            assert(digit_val(c) == d as int);
        }
        let m2 = m * 10 + d;
        proof {
            assert(chars@.subrange(d0 as int, i as int + 1) =~= prefix.push(c));
            assert(prefix.push(c).drop_last() =~= prefix);
            assert(prefix.push(c).last() == c);
            assert(digits_val(prefix.push(c)) == digits_val(prefix) * 10 + digit_val(c));
            assert(all_digits(prefix.push(c)));
        }
        if m2 > cap + 1 {
            proof {
                // the value is already past the representable range; more
                // digits can only grow it
                let done = chars@.subrange(d0 as int, i as int + 1);
                if int_token_ok(seg) {
                    assert(all_digits(digs));
                    let rest = chars@.subrange(i as int + 1, hi as int);
                    assert(digs =~= done + rest);
                    assert(all_digits(done));
                    assert(all_digits(rest)) by {
                        assert(forall|k: int| 0 <= k < rest.len()
                            ==> #[trigger] rest[k] == digs[k + (i - d0 + 1)]);
                    }
                    lemma_digits_val_extend(done, rest);
                    assert(digits_val(digs) > cap as int + 1);
                    assert(int_token_val(seg) == if neg { -digits_val(digs) } else { digits_val(digs) });
                    assert(!(isize::MIN <= int_token_val(seg) <= isize::MAX));
                }
                assert(!valid_isize_token(seg));
            }
            return None;
        }
        m = m2;
        i = i + 1;
    }
    proof {
        assert(chars@.subrange(d0 as int, i as int) =~= digs);
        assert(all_digits(digs));
        assert(int_token_ok(seg));
        assert(m as int == digits_val(digs));
        lemma_digits_val_nonneg(digs);
        assert(int_token_val(seg) == if neg { -digits_val(digs) } else { digits_val(digs) });
    }
    if neg {
        if m == cap + 1 {
            proof {
                assert(isize::MIN as int == -(isize::MAX as int) - 1);
            }
            Some(isize::MIN)
        } else {
            Some(-(m as isize))
        }
    } else {
        if m > cap {
            proof {
                assert(int_token_val(seg) > isize::MAX as int);
            }
            None
        } else {
            Some(m as isize)
        }
    }
}

/// Parses an adjacency kernel from a space separated list of comma separated
/// offset pairs, such as `-1,-1 0,-1 1,0`. Entries without a comma are
/// skipped; the first integer token that is malformed or out of range fails
/// the parse with an error naming that token.
pub fn parse_neighbors_kernel(kernel: &str) -> (r: Result<Vec<(isize, isize)>, Error>)
    ensures
        r is Ok <==> parse_kernel(kernel@) is Ok,
        r matches Ok(v) ==> parse_kernel(kernel@) == Ok::<_, Seq<char>>(pairs_int(v@)),
        r matches Err(e) ==> (e matches Error::InvalidKernelNumber(m)
            && parse_kernel(kernel@) matches Err(tok) && m@ == tok),
{
    let chars = str_chars(kernel);
    let ghost full = kernel@;
    let n = chars.len();
    let mut out: Vec<(isize, isize)> = Vec::new();
    let mut pos: usize = 0;
    let mut done = false;
    proof {
        assert(full.skip(0) =~= full);
        assert(pairs_int(out@) =~= Seq::<(int, int)>::empty());
        match parse_kernel(full) {
            Ok(l) => {
                assert(pairs_int(out@) + l =~= l);
            }
            Err(_) => {}
        }
    }
    while !done
        invariant
            n == chars@.len(),
            chars@ == full,
            full == kernel@,
            !done ==> pos <= n && parse_kernel(full) == (match parse_kernel(full.skip(pos as int)) {
                Ok(l) => Ok::<Seq<(int, int)>, Seq<char>>(pairs_int(out@) + l),
                Err(e) => Err::<Seq<(int, int)>, Seq<char>>(e),
            }),
            done ==> parse_kernel(full) == Ok::<Seq<(int, int)>, Seq<char>>(pairs_int(out@)),
        decreases n - pos, (if done { 0int } else { 1int }),
    {
        let ghost suffix = full.skip(pos as int);
        let spc = find_in_range(&chars, pos, n, ' ');
        let end = match spc {
            Some(i) => i,
            None => n,
        };
        proof {
            assert(suffix =~= chars@.subrange(pos as int, n as int));
            match spc {
                Some(i) => {
                    assert(find_char(suffix, ' ') == Some(i - pos));
                }
                None => {
                    assert(find_char(suffix, ' ') is None);
                }
            }
        }
        let ghost tok = full.subrange(pos as int, end as int);
        proof {
            match spc {
                Some(i) => {
                    assert(tok =~= suffix.take(i - pos));
                }
                None => {
                    assert(tok =~= suffix);
                }
            }
            lemma_parse_kernel_step(full, pos as int, end as int, spc is Some);
        }
        // parse one entry
        let comma = find_in_range(&chars, pos, end, ',');
        let ghost pair = parse_pair(tok);
        match comma {
            Some(ci) => {
                proof {
                    assert(chars@.subrange(pos as int, end as int) == tok);
                    assert(find_char(tok, ',') == Some(ci - pos));
                    assert(tok.take(ci - pos) =~= full.subrange(pos as int, ci as int));
                    assert(tok.skip(ci - pos + 1) =~= full.subrange(ci as int + 1, end as int));
                }
                let x = parse_isize(&chars, pos, ci);
                let xv = match x {
                    Some(v) => v,
                    None => {
                        proof {
                            assert(pair == Some(Err::<(int, int), Seq<char>>(full.subrange(pos as int, ci as int))));
                            assert(parse_kernel(suffix) == Err::<Seq<(int, int)>, Seq<char>>(full.subrange(pos as int, ci as int)));
                        }
                        return Err(Error::InvalidKernelNumber(string_of_range(&chars, pos, ci)));
                    }
                };
                let y = parse_isize(&chars, ci + 1, end);
                let yv = match y {
                    Some(v) => v,
                    None => {
                        proof {
                            assert(pair == Some(Err::<(int, int), Seq<char>>(full.subrange(ci as int + 1, end as int))));
                            assert(parse_kernel(suffix) == Err::<Seq<(int, int)>, Seq<char>>(full.subrange(ci as int + 1, end as int)));
                        }
                        return Err(Error::InvalidKernelNumber(string_of_range(&chars, ci + 1, end)));
                    }
                };
                let ghost out0 = out@;
                out.push((xv, yv));
                proof {
                    assert(pair == Some(Ok::<(int, int), Seq<char>>((xv as int, yv as int))));
                    assert(pairs_int(out@) =~= pairs_int(out0).push((xv as int, yv as int)));
                    match spc {
                        Some(_) => {
                            match parse_kernel(full.skip(end + 1)) {
                                Ok(l) => {
                                    assert(pairs_int(out0) + (seq![(xv as int, yv as int)] + l)
                                        =~= pairs_int(out@) + l);
                                }
                                Err(_) => {}
                            }
                        }
                        None => {
                            assert(pairs_int(out0) + seq![(xv as int, yv as int)]
                                =~= pairs_int(out@));
                        }
                    }
                }
            }
            None => {
                proof {
                    assert(find_char(tok, ',') is None);
                    assert(pair is None);
                    match spc {
                        None => {
                            assert(pairs_int(out@) + Seq::<(int, int)>::empty()
                                =~= pairs_int(out@));
                        }
                        Some(_) => {}
                    }
                }
            }
        }
        match spc {
            Some(i) => {
                pos = i + 1;
            }
            None => {
                done = true;
            }
        }
    }
    proof {
        assert(parse_kernel(full) == Ok::<Seq<(int, int)>, Seq<char>>(pairs_int(out@)));
    }
    Ok(out)
}

/// Unfolds one entry of `parse_kernel`: the suffix at `pos` splits into the
/// entry ending at `end` and the rest.
proof fn lemma_parse_kernel_step(full: Seq<char>, pos: int, end: int, has_space: bool)
    requires
        0 <= pos <= end <= full.len(),
        has_space ==> end < full.len()
            && find_char(full.skip(pos), ' ') == Some(end - pos),
        !has_space ==> end == full.len() && find_char(full.skip(pos), ' ') is None,
    ensures
        parse_kernel(full.skip(pos)) == (match parse_pair(full.subrange(pos, end)) {
            None => if has_space {
                parse_kernel(full.skip(end + 1))
            } else {
                Ok::<Seq<(int, int)>, Seq<char>>(Seq::empty())
            },
            Some(Err(e)) => Err::<Seq<(int, int)>, Seq<char>>(e),
            Some(Ok(p)) => if has_space {
                match parse_kernel(full.skip(end + 1)) {
                    Ok(l) => Ok::<Seq<(int, int)>, Seq<char>>(seq![p] + l),
                    Err(e) => Err::<Seq<(int, int)>, Seq<char>>(e),
                }
            } else {
                Ok::<Seq<(int, int)>, Seq<char>>(seq![p])
            },
        }),
{
    let suffix = full.skip(pos);
    assert(full.subrange(pos, end) =~= if has_space { suffix.take(end - pos) } else { suffix });
    if has_space {
        assert(suffix.skip(end - pos + 1) =~= full.skip(end + 1));
    }
}


} // verus!
