//! The wire protocol codec.
//!
//! One connection carries exactly one request: the client writes the
//! message and half-closes, so the byte stream itself is the message and
//! no extra framing exists. A message is a single line of text — the
//! variant name and its fields separated by a delimiter — with a trailing
//! line terminator. Field values that contain the delimiter or a line
//! terminator cannot be represented; that is an acknowledged limitation
//! of the format, not of this implementation.
//!
//! Decoding is total and never aborts the process: any input that is not
//! a well-formed message — an unknown variant name, a wrong field count,
//! a malformed uid — is reported as `None` and the connection is simply
//! rejected.

use vstd::prelude::*;
use vstd::string::*;

use crate::job::{env_pair_view, envs_view, plain_field, Job, JobId, JobView};

verus! {

/// No character of `s` is `c`.
pub open spec fn char_free(s: Seq<char>, c: char) -> bool {
    forall|i: int| 0 <= i < s.len() ==> #[trigger] s[i] != c
}

/// The views of a sequence of strings.
pub open spec fn views_of(v: Seq<String>) -> Seq<Seq<char>> {
    Seq::new(v.len(), |i: int| v[i]@)
}

/// The parts joined with one delimiter character between them.
pub open spec fn join_with(parts: Seq<Seq<char>>, d: char) -> Seq<char>
    decreases parts.len(),
{
    if parts.len() == 0 {
        Seq::empty()
    } else if parts.len() == 1 {
        parts[0]
    } else {
        parts[0] + seq![d] + join_with(parts.drop_first(), d)
    }
}

/// `s` cut at every occurrence of the delimiter `d`. Always at least one
/// part; `k` delimiters give `k + 1` parts, empty parts included.
pub open spec fn split_on(s: Seq<char>, d: char) -> Seq<Seq<char>>
    decreases s.len(),
{
    if s.len() == 0 {
        seq![Seq::<char>::empty()]
    } else if s[0] == d {
        seq![Seq::<char>::empty()] + split_on(s.drop_first(), d)
    } else {
        let rest = split_on(s.drop_first(), d);
        seq![seq![s[0]] + rest[0]] + rest.drop_first()
    }
}

pub proof fn lemma_split_nonempty(s: Seq<char>, d: char)
    ensures
        split_on(s, d).len() >= 1,
    decreases s.len(),
{
    if s.len() > 0 {
        lemma_split_nonempty(s.drop_first(), d);
    }
}

/// Joining the parts of a split restores the original text, whatever it
/// was.
pub proof fn lemma_join_split(s: Seq<char>, d: char)
    ensures
        join_with(split_on(s, d), d) == s,
    decreases s.len(),
{
    lemma_split_nonempty(s, d);
    if s.len() == 0 {
    } else {
        let rest = s.drop_first();
        lemma_join_split(rest, d);
        lemma_split_nonempty(rest, d);
        let sp = split_on(rest, d);
        if s[0] == d {
            assert(split_on(s, d) == seq![Seq::<char>::empty()] + sp);
            let whole = split_on(s, d);
            assert(whole[0] =~= Seq::<char>::empty());
            assert(whole.drop_first() =~= sp);
            if whole.len() == 1 {
                assert(sp.len() == 0);
                assert(false);
            }
            assert(join_with(whole, d) == whole[0] + seq![d] + join_with(sp, d));
            assert(whole[0] + seq![d] + join_with(sp, d) =~= seq![d] + rest);
            assert(seq![d] + rest =~= s);
        } else {
            let whole = split_on(s, d);
            assert(whole == seq![seq![s[0]] + sp[0]] + sp.drop_first());
            assert(whole[0] == seq![s[0]] + sp[0]);
            assert(whole.drop_first() =~= sp.drop_first());
            if sp.len() == 1 {
                assert(whole.len() == 1);
                assert(join_with(whole, d) == whole[0]);
                assert(join_with(sp, d) == sp[0]);
                assert(join_with(whole, d) =~= s);
            } else {
                assert(whole.len() >= 2);
                assert(join_with(whole, d) == whole[0] + seq![d] + join_with(
                    whole.drop_first(),
                    d,
                ));
                assert(join_with(sp, d) == sp[0] + seq![d] + join_with(sp.drop_first(), d));
                assert(join_with(whole, d) == (seq![s[0]] + sp[0]) + seq![d] + join_with(
                    sp.drop_first(),
                    d,
                ));
                assert((seq![s[0]] + sp[0]) + seq![d] + join_with(sp.drop_first(), d) =~= seq![
                    s[0],
                ] + (sp[0] + seq![d] + join_with(sp.drop_first(), d)));
                assert(seq![s[0]] + rest =~= s);
            }
        }
    }
}

/// Splitting delimiter-free text gives that text as the only part.
pub proof fn lemma_split_free(s: Seq<char>, d: char)
    requires
        char_free(s, d),
    ensures
        split_on(s, d) == seq![s],
    decreases s.len(),
{
    if s.len() == 0 {
        assert(split_on(s, d) =~~= seq![s]);
    } else {
        let rest = s.drop_first();
        lemma_split_free(rest, d);
        let sp = split_on(rest, d);
        assert(sp == seq![rest]);
        assert(split_on(s, d) =~= seq![seq![s[0]] + rest]);
        assert(seq![s[0]] + rest =~= s);
        assert(split_on(s, d) =~= seq![s]);
    }
}

/// A split finds the first delimiter after a delimiter-free prefix.
pub proof fn lemma_split_concat(a: Seq<char>, b: Seq<char>, d: char)
    requires
        char_free(a, d),
    ensures
        split_on(a + seq![d] + b, d) == seq![a] + split_on(b, d),
    decreases a.len(),
{
    lemma_split_nonempty(b, d);
    if a.len() == 0 {
        let s = a + seq![d] + b;
        assert(s.len() > 0 && s[0] == d);
        assert(s.drop_first() =~= b);
        assert(split_on(s, d) == seq![Seq::<char>::empty()] + split_on(b, d));
        assert(seq![a] =~~= seq![Seq::<char>::empty()]);
        assert(split_on(s, d) =~= seq![a] + split_on(b, d));
    } else {
        let s = a + seq![d] + b;
        assert(s[0] == a[0] && a[0] != d);
        assert(s.drop_first() =~= a.drop_first() + seq![d] + b);
        lemma_split_concat(a.drop_first(), b, d);
        let sp = split_on(a.drop_first() + seq![d] + b, d);
        assert(sp == seq![a.drop_first()] + split_on(b, d));
        assert(sp[0] == a.drop_first());
        assert(split_on(s, d) == seq![seq![s[0]] + sp[0]] + sp.drop_first());
        assert(seq![s[0]] + sp[0] =~= a);
        assert(sp.drop_first() =~= split_on(b, d));
        assert(split_on(s, d) =~= seq![a] + split_on(b, d));
    }
}

/// Splitting a join of delimiter-free parts restores exactly those parts.
pub proof fn lemma_split_join(parts: Seq<Seq<char>>, d: char)
    requires
        parts.len() >= 1,
        forall|i: int| 0 <= i < parts.len() ==> char_free(#[trigger] parts[i], d),
    ensures
        split_on(join_with(parts, d), d) == parts,
    decreases parts.len(),
{
    if parts.len() == 1 {
        lemma_split_free(parts[0], d);
        assert(split_on(join_with(parts, d), d) =~= parts);
    } else {
        let rest = parts.drop_first();
        lemma_split_join(rest, d);
        assert(join_with(parts, d) == parts[0] + seq![d] + join_with(rest, d));
        lemma_split_concat(parts[0], join_with(rest, d), d);
        assert(split_on(join_with(parts, d), d) =~= parts);
    }
}

/// How a split grows when one character is appended: a delimiter opens a
/// new empty part, any other character extends the last part.
pub proof fn lemma_split_push(s: Seq<char>, c: char, d: char)
    ensures
        c == d ==> split_on(s.push(c), d) == split_on(s, d).push(Seq::<char>::empty()),
        c != d ==> split_on(s.push(c), d) == split_on(s, d).drop_last().push(
            split_on(s, d).last().push(c),
        ),
    decreases s.len(),
{
    lemma_split_nonempty(s, d);
    if s.len() == 0 {
        if c == d {
            assert(s.push(c)[0] == d);
            assert(s.push(c).drop_first() =~= s);
            assert(split_on(s.push(c), d) =~= split_on(s, d).push(Seq::<char>::empty()));
        } else {
            assert(s.push(c)[0] == c);
            assert(s.push(c).drop_first() =~= s);
            let sp = split_on(s, d);
            assert(split_on(s.push(c), d) == seq![seq![c] + sp[0]] + sp.drop_first());
            assert(split_on(s.push(c), d) =~= sp.drop_last().push(sp.last().push(c)));
        }
    } else {
        let t = s.drop_first();
        lemma_split_nonempty(t, d);
        lemma_split_nonempty(t.push(c), d);
        lemma_split_push(t, c, d);
        assert(s.push(c)[0] == s[0]);
        assert(s.push(c).drop_first() =~= t.push(c));
        let sp = split_on(t, d);
        let spc = split_on(t.push(c), d);
        if s[0] == d {
            assert(split_on(s, d) == seq![Seq::<char>::empty()] + sp);
            assert(split_on(s.push(c), d) == seq![Seq::<char>::empty()] + spc);
            if c == d {
                assert(split_on(s.push(c), d) =~= split_on(s, d).push(Seq::<char>::empty()));
            } else {
                assert(split_on(s, d).last() == sp.last());
                assert(split_on(s.push(c), d) =~= split_on(s, d).drop_last().push(
                    split_on(s, d).last().push(c),
                ));
            }
        } else {
            assert(split_on(s, d) == seq![seq![s[0]] + sp[0]] + sp.drop_first());
            assert(split_on(s.push(c), d) == seq![seq![s[0]] + spc[0]] + spc.drop_first());
            if c == d {
                assert(spc == sp.push(Seq::<char>::empty()));
                assert(spc[0] == sp[0]);
                assert(spc.drop_first() =~= sp.drop_first().push(Seq::<char>::empty()));
                assert(split_on(s.push(c), d) =~= split_on(s, d).push(Seq::<char>::empty()));
            } else {
                assert(spc == sp.drop_last().push(sp.last().push(c)));
                if sp.len() == 1 {
                    assert(spc =~= seq![sp[0].push(c)]);
                    assert(spc[0] == sp[0].push(c));
                    assert(split_on(s, d).len() == 1);
                    assert(split_on(s, d).last() == seq![s[0]] + sp[0]);
                    assert(seq![s[0]] + sp[0].push(c) =~= (seq![s[0]] + sp[0]).push(c));
                    assert(split_on(s.push(c), d) =~= split_on(s, d).drop_last().push(
                        split_on(s, d).last().push(c),
                    ));
                } else {
                    assert(spc[0] == sp[0]);
                    assert(spc.drop_first() =~= sp.drop_first().drop_last().push(
                        sp.last().push(c),
                    ));
                    assert(split_on(s, d).last() == sp.last());
                    assert(split_on(s.push(c), d) =~= split_on(s, d).drop_last().push(
                        split_on(s, d).last().push(c),
                    ));
                }
            }
        }
    }
}

/// How a join grows when one part is appended at the end.
pub proof fn lemma_join_push(parts: Seq<Seq<char>>, p: Seq<char>, d: char)
    ensures
        parts.len() == 0 ==> join_with(parts.push(p), d) == p,
        parts.len() > 0 ==> join_with(parts.push(p), d) == join_with(parts, d) + seq![d] + p,
    decreases parts.len(),
{
    if parts.len() == 0 {
        assert(join_with(parts.push(p), d) == parts.push(p)[0]);
    } else {
        let rest = parts.drop_first();
        lemma_join_push(rest, p, d);
        assert(parts.push(p).drop_first() =~= rest.push(p));
        assert(parts.push(p)[0] == parts[0]);
        if rest.len() == 0 {
            assert(join_with(parts.push(p), d) == parts[0] + seq![d] + p);
            assert(join_with(parts, d) == parts[0]);
        } else {
            assert(join_with(parts.push(p), d) == parts[0] + seq![d] + join_with(rest.push(p), d));
            assert(join_with(parts.push(p), d) =~= join_with(parts, d) + seq![d] + p);
        }
    }
}

/// A character that is neither the delimiter nor in any part is not in
/// the join either.
pub proof fn lemma_join_char_free(parts: Seq<Seq<char>>, d: char, c: char)
    requires
        c != d,
        forall|i: int| 0 <= i < parts.len() ==> char_free(#[trigger] parts[i], c),
    ensures
        char_free(join_with(parts, d), c),
    decreases parts.len(),
{
    if parts.len() <= 1 {
    } else {
        lemma_join_char_free(parts.drop_first(), d, c);
        let j = join_with(parts, d);
        assert(j == parts[0] + seq![d] + join_with(parts.drop_first(), d));
        assert forall|i: int| 0 <= i < j.len() implies #[trigger] j[i] != c by {
            let head = parts[0];
            let tail = join_with(parts.drop_first(), d);
            if i < head.len() {
                assert(j[i] == head[i]);
            } else if i == head.len() {
                assert(j[i] == d);
            } else {
                assert(j[i] == tail[i - head.len() - 1]);
            }
        }
    }
}

/// Cut a string at every occurrence of the delimiter `d`, executably.
fn split_string(s: &str, d: char) -> (parts: Vec<String>)
    ensures
        views_of(parts@) == split_on(s@, d),
{
    let n = s.unicode_len();
    let mut parts: Vec<String> = Vec::new();
    let mut start: usize = 0;
    let mut i: usize = 0;
    proof {
        assert(s@.subrange(0, 0) =~= Seq::<char>::empty());
        assert(split_on(s@.subrange(0, 0), d) =~~= views_of(parts@).push(s@.subrange(0, 0)));
    }
    while i < n
        invariant
            start <= i <= n,
            n == s@.len(),
            split_on(s@.subrange(0, i as int), d) == views_of(parts@).push(
                s@.subrange(start as int, i as int),
            ),
        decreases n - i,
    {
        let c = s.get_char(i);
        proof {
            assert(s@.subrange(0, i + 1) =~= s@.subrange(0, i as int).push(s@[i as int]));
            lemma_split_push(s@.subrange(0, i as int), s@[i as int], d);
        }
        if c == d {
            let ghost old_views = views_of(parts@);
            let ghost cur = s@.subrange(start as int, i as int);
            let field = s.substring_char(start, i).to_owned();
            parts.push(field);
            start = i + 1;
            proof {
                assert(views_of(parts@) =~~= old_views.push(cur));
                assert(s@.subrange(start as int, i + 1) =~= Seq::<char>::empty());
                assert(split_on(s@.subrange(0, i + 1), d) =~~= views_of(parts@).push(
                    s@.subrange(start as int, i + 1),
                ));
            }
        } else {
            proof {
                let sp = split_on(s@.subrange(0, i as int), d);
                assert(sp.drop_last() =~~= views_of(parts@));
                assert(sp.last() == s@.subrange(start as int, i as int));
                assert(s@.subrange(start as int, i as int).push(s@[i as int]) =~= s@.subrange(
                    start as int,
                    i + 1,
                ));
                assert(split_on(s@.subrange(0, i + 1), d) =~~= views_of(parts@).push(
                    s@.subrange(start as int, i + 1),
                ));
            }
        }
        i = i + 1;
    }
    let ghost old_views = views_of(parts@);
    let ghost cur = s@.subrange(start as int, n as int);
    let field = s.substring_char(start, n).to_owned();
    parts.push(field);
    proof {
        assert(s@.subrange(0, n as int) =~= s@);
        assert(views_of(parts@) =~~= old_views.push(cur));
        assert(views_of(parts@) =~~= split_on(s@, d));
    }
    parts
}

/// Join string parts with a one-character separator, executably.
fn join_parts(parts: &Vec<String>, sep: &str) -> (r: String)
    requires
        parts@.len() > 0,
        sep@.len() == 1,
    ensures
        r@ == join_with(views_of(parts@), sep@[0]),
{
    let mut r: String = parts[0].clone();
    let mut i: usize = 1;
    proof {
        assert(views_of(parts@).take(1) =~~= seq![parts@[0]@]);
        assert(join_with(views_of(parts@).take(1), sep@[0]) == parts@[0]@);
    }
    while i < parts.len()
        invariant
            1 <= i <= parts@.len(),
            sep@.len() == 1,
            r@ == join_with(views_of(parts@).take(i as int), sep@[0]),
        decreases parts@.len() - i,
    {
        r.append(sep);
        r.append(parts[i].as_str());
        proof {
            let views = views_of(parts@);
            assert(views.take(i + 1) =~~= views.take(i as int).push(views[i as int]));
            lemma_join_push(views.take(i as int), views[i as int], sep@[0]);
        }
        i = i + 1;
    }
    proof {
        assert(views_of(parts@).take(parts@.len() as int) =~~= views_of(parts@));
    }
    r
}

/// A decimal digit.
pub open spec fn is_dec_digit(c: char) -> bool {
    '0' <= c && c <= '9'
}

/// The character of one decimal digit value.
pub open spec fn dec_digit_char(d: int) -> char {
    if d == 0 {
        '0'
    } else if d == 1 {
        '1'
    } else if d == 2 {
        '2'
    } else if d == 3 {
        '3'
    } else if d == 4 {
        '4'
    } else if d == 5 {
        '5'
    } else if d == 6 {
        '6'
    } else if d == 7 {
        '7'
    } else if d == 8 {
        '8'
    } else {
        '9'
    }
}

/// The value of one decimal digit character.
pub open spec fn dec_digit_val(c: char) -> int {
    if c == '0' {
        0
    } else if c == '1' {
        1
    } else if c == '2' {
        2
    } else if c == '3' {
        3
    } else if c == '4' {
        4
    } else if c == '5' {
        5
    } else if c == '6' {
        6
    } else if c == '7' {
        7
    } else if c == '8' {
        8
    } else {
        9
    }
}

/// The usual decimal rendering of a nonnegative integer: most significant
/// digit first, no leading zeros, `0` itself as one digit.
pub open spec fn dec_of(n: int) -> Seq<char>
    recommends
        n >= 0,
    decreases n,
{
    if n < 10 {
        seq![dec_digit_char(n)]
    } else {
        dec_of(n / 10).push(dec_digit_char(n % 10))
    }
}

/// The value of a run of decimal digit characters.
pub open spec fn dec_val(s: Seq<char>) -> int
    decreases s.len(),
{
    if s.len() == 0 {
        0
    } else {
        dec_val(s.drop_last()) * 10 + dec_digit_val(s.last())
    }
}

/// Text that is the decimal rendering of some `u32`: nonempty, digits
/// only, no leading zero, in range.
pub open spec fn canonical_dec_u32(s: Seq<char>) -> bool {
    &&& s.len() > 0
    &&& forall|i: int| 0 <= i < s.len() ==> is_dec_digit(#[trigger] s[i])
    &&& s.len() > 1 ==> s[0] != '0'
    &&& dec_val(s) <= u32::MAX
}

pub proof fn lemma_dec_val_nonneg(s: Seq<char>)
    requires
        forall|i: int| 0 <= i < s.len() ==> is_dec_digit(#[trigger] s[i]),
    ensures
        dec_val(s) >= 0,
    decreases s.len(),
{
    if s.len() > 0 {
        lemma_dec_val_nonneg(s.drop_last());
    }
}

pub proof fn lemma_dec_val_pos(s: Seq<char>)
    requires
        s.len() > 0,
        forall|i: int| 0 <= i < s.len() ==> is_dec_digit(#[trigger] s[i]),
        s[0] != '0',
    ensures
        dec_val(s) >= 1,
    decreases s.len(),
{
    if s.len() == 1 {
        assert(s.drop_last() =~= Seq::<char>::empty());
        assert(dec_val(Seq::<char>::empty()) == 0);
        assert(dec_val(s) == 0 * 10 + dec_digit_val(s.last()));
        assert(s.last() == s[0]);
    } else {
        lemma_dec_val_pos(s.drop_last());
        lemma_dec_val_nonneg(s);
    }
}

/// Rendering a `u32` gives canonical text whose value is that number.
pub proof fn lemma_dec_of_canonical(n: int)
    requires
        0 <= n <= u32::MAX,
    ensures
        canonical_dec_u32(dec_of(n)),
        dec_val(dec_of(n)) == n,
        n > 0 ==> dec_of(n)[0] != '0',
    decreases n,
{
    if n < 10 {
        let s = dec_of(n);
        assert(s == seq![dec_digit_char(n)]);
        assert(s.drop_last() =~= Seq::<char>::empty());
        assert(dec_val(Seq::<char>::empty()) == 0);
        assert(dec_val(s) == 0 * 10 + dec_digit_val(dec_digit_char(n)));
    } else {
        lemma_dec_of_canonical(n / 10);
        let s = dec_of(n);
        assert(s == dec_of(n / 10).push(dec_digit_char(n % 10)));
        assert(s.drop_last() =~= dec_of(n / 10));
        assert(s.last() == dec_digit_char(n % 10));
        assert(dec_val(s) == (n / 10) * 10 + n % 10);
        vstd::arithmetic::div_mod::lemma_fundamental_div_mod(n, 10);
        assert(s[0] == dec_of(n / 10)[0]);
        assert(n / 10 > 0);
    }
}

/// Canonical decimal text renders back to itself: the decimal rendering
/// of a `u32` is unique.
pub proof fn lemma_canonical_dec_of(s: Seq<char>)
    requires
        canonical_dec_u32(s),
    ensures
        dec_of(dec_val(s)) == s,
    decreases s.len(),
{
    if s.len() == 1 {
        assert(s.drop_last() =~= Seq::<char>::empty());
        assert(dec_val(Seq::<char>::empty()) == 0);
        assert(s.last() == s[0]);
        assert(dec_val(s) == 0 * 10 + dec_digit_val(s[0]));
        assert(dec_of(dec_val(s)) =~= s);
    } else {
        let front = s.drop_last();
        let dl = dec_digit_val(s.last());
        assert(s[0] == front[0]);
        lemma_dec_val_pos(front);
        lemma_dec_val_nonneg(front);
        assert(dec_val(s) == dec_val(front) * 10 + dl);
        vstd::arithmetic::div_mod::lemma_fundamental_div_mod_converse(
            dec_val(s),
            10,
            dec_val(front),
            dl,
        );
        assert(dec_val(s) / 10 == dec_val(front));
        assert(dec_val(s) % 10 == dl);
        assert(dec_val(s) >= 10) by {
            assert(dec_val(front) >= 1);
        }
        lemma_canonical_dec_of(front);
        assert(dec_of(dec_val(s)) == dec_of(dec_val(front)).push(dec_digit_char(dl)));
        assert(dec_of(dec_val(s)) =~= s);
    }
}

/// Growing a digit run multiplies its value: a prefix never exceeds the
/// whole.
pub proof fn lemma_dec_val_prefix_mono(s: Seq<char>, i: int)
    requires
        forall|k: int| 0 <= k < s.len() ==> is_dec_digit(#[trigger] s[k]),
        0 <= i <= s.len(),
    ensures
        dec_val(s.take(i)) <= dec_val(s),
    decreases s.len() - i,
{
    if i == s.len() {
        assert(s.take(i) =~= s);
    } else {
        lemma_dec_val_prefix_mono(s, i + 1);
        let t = s.take(i + 1);
        assert(t.drop_last() =~= s.take(i));
        assert(dec_val(t) == dec_val(s.take(i)) * 10 + dec_digit_val(s[i]));
        lemma_dec_val_nonneg(s.take(i));
    }
}

/// The single-digit strings, for rendering.
fn dec_digit_str(d: u32) -> (r: &'static str)
    requires
        d < 10,
    ensures
        r@ =~= seq![dec_digit_char(d as int)],
{
    let r: &'static str = if d == 0 {
        "0"
    } else if d == 1 {
        "1"
    } else if d == 2 {
        "2"
    } else if d == 3 {
        "3"
    } else if d == 4 {
        "4"
    } else if d == 5 {
        "5"
    } else if d == 6 {
        "6"
    } else if d == 7 {
        "7"
    } else if d == 8 {
        "8"
    } else {
        "9"
    };
    proof {
        reveal_strlit("0");
        reveal_strlit("1");
        reveal_strlit("2");
        reveal_strlit("3");
        reveal_strlit("4");
        reveal_strlit("5");
        reveal_strlit("6");
        reveal_strlit("7");
        reveal_strlit("8");
        reveal_strlit("9");
    }
    r
}

/// Render a `u32` in decimal.
fn format_u32(n: u32) -> (r: String)
    ensures
        r@ == dec_of(n as int),
    decreases n,
{
    if n < 10 {
        let r = dec_digit_str(n).to_owned();
        proof {
            assert(r@ =~= dec_of(n as int));
        }
        r
    } else {
        let mut r = format_u32(n / 10);
        r.append(dec_digit_str(n % 10));
        proof {
            assert(r@ =~= dec_of(n as int));
        }
        r
    }
}

/// The value of one decimal digit character, executably; `None` on
/// anything that is not a digit.
fn dec_digit_of(c: char) -> (r: Option<u32>)
    ensures
        match r {
            Some(v) => is_dec_digit(c) && v as int == dec_digit_val(c),
            None => !is_dec_digit(c),
        },
{
    if c == '0' {
        Some(0)
    } else if c == '1' {
        Some(1)
    } else if c == '2' {
        Some(2)
    } else if c == '3' {
        Some(3)
    } else if c == '4' {
        Some(4)
    } else if c == '5' {
        Some(5)
    } else if c == '6' {
        Some(6)
    } else if c == '7' {
        Some(7)
    } else if c == '8' {
        Some(8)
    } else if c == '9' {
        Some(9)
    } else {
        None
    }
}

/// Parse canonical decimal text as a `u32`; `None` on empty text, a
/// non-digit, a leading zero or a value out of range.
fn parse_u32(s: &str) -> (r: Option<u32>)
    ensures
        match r {
            Some(v) => canonical_dec_u32(s@) && v as int == dec_val(s@),
            None => !canonical_dec_u32(s@),
        },
{
    let n = s.unicode_len();
    if n == 0 {
        return None;
    }
    if n > 1 && s.get_char(0) == '0' {
        return None;
    }
    let mut acc: u64 = 0;
    let mut i: usize = 0;
    proof {
        assert(s@.take(0) =~= Seq::<char>::empty());
    }
    while i < n
        invariant
            0 <= i <= n,
            n == s@.len(),
            acc <= u32::MAX,
            forall|k: int| 0 <= k < i ==> is_dec_digit(#[trigger] s@[k]),
            acc as int == dec_val(s@.take(i as int)),
        decreases n - i,
    {
        let c = s.get_char(i);
        let d = match dec_digit_of(c) {
            Some(d) => d,
            None => {
                return None;
            },
        };
        proof {
            assert(s@.take(i + 1).drop_last() =~= s@.take(i as int));
            assert(s@.take(i + 1).last() == s@[i as int]);
        }
        acc = acc * 10 + (d as u64);
        if acc > (u32::MAX as u64) {
            proof {
                if forall|k: int| 0 <= k < s@.len() ==> is_dec_digit(#[trigger] s@[k]) {
                    lemma_dec_val_prefix_mono(s@, i + 1);
                    assert(s@.take(s@.len() as int) =~= s@);
                }
            }
            return None;
        }
        i = i + 1;
    }
    proof {
        assert(s@.take(n as int) =~= s@);
    }
    Some(acc as u32)
}

/// A typed request, as sent over one connection. `Schedule` expects no
/// reply; the other variants are answered with a byte stream on the same
/// connection.
pub enum Message {
    /// Enqueue this job for execution.
    Schedule(Job),
    /// Send the named job's output, once, from the beginning.
    Output(JobId),
    /// Send the named job's output from the beginning and keep following
    /// its growth until the client disconnects.
    Watch(JobId),
    /// Send the id of the most recently scheduled job.
    GetLastJob(),
}

/// The mathematical value of a [`Message`].
pub ghost enum MessageView {
    Schedule(JobView),
    Output(Seq<char>),
    Watch(Seq<char>),
    GetLastJob,
}

impl View for Message {
    type V = MessageView;

    open spec fn view(&self) -> MessageView {
        match self {
            Message::Schedule(job) => MessageView::Schedule(job@),
            Message::Output(id) => MessageView::Output(id@),
            Message::Watch(id) => MessageView::Watch(id@),
            Message::GetLastJob() => MessageView::GetLastJob,
        }
    }
}

/// One environment entry on the wire: key and value joined by `=`.
pub open spec fn env_item(p: (Seq<char>, Seq<char>)) -> Seq<char> {
    p.0 + seq!['='] + p.1
}

/// All environment entries of a job, each rendered as an item.
pub open spec fn env_items(ps: Seq<(Seq<char>, Seq<char>)>) -> Seq<Seq<char>> {
    Seq::new(ps.len(), |i: int| env_item(ps[i]))
}

/// The wire field for the working directory: empty means "none".
pub open spec fn dir_field(dir: Option<Seq<char>>) -> Seq<char> {
    match dir {
        None => Seq::empty(),
        Some(d) => d,
    }
}

/// The wire field for the environment: empty means "cleared"; otherwise
/// the entries joined by `;`.
pub open spec fn envs_field(envs: Option<Seq<(Seq<char>, Seq<char>)>>) -> Seq<char> {
    match envs {
        None => Seq::empty(),
        Some(ps) => join_with(env_items(ps), ';'),
    }
}

/// The record a message is encoded as: the variant name first, then its
/// fields, in a fixed order.
pub open spec fn record_parts(m: MessageView) -> Seq<Seq<char>> {
    match m {
        MessageView::Schedule(j) => seq![
            "Schedule"@,
            j.id,
            j.command,
            dir_field(j.dir),
            dec_of(j.uid as int),
            envs_field(j.envs),
        ],
        MessageView::Output(id) => seq!["Output"@, id],
        MessageView::Watch(id) => seq!["Watch"@, id],
        MessageView::GetLastJob => seq!["GetLastJob"@],
    }
}

/// What encoding produces: the record joined by the delimiter, as one
/// terminated line.
pub open spec fn encode_spec(m: MessageView) -> Seq<char> {
    join_with(record_parts(m), ':').push('\n')
}

/// A single trailing line terminator (`\n` or `\r\n`), removed.
pub open spec fn trim_spec(s: Seq<char>) -> Seq<char> {
    if s.len() > 0 && s.last() == '\n' {
        let t = s.drop_last();
        if t.len() > 0 && t.last() == '\r' {
            t.drop_last()
        } else {
            t
        }
    } else {
        s
    }
}

/// One environment item parsed back: exactly one `=`, key left of it.
pub open spec fn parse_env_entry(item: Seq<char>) -> Option<(Seq<char>, Seq<char>)> {
    let kv = split_on(item, '=');
    if kv.len() == 2 {
        Some((kv[0], kv[1]))
    } else {
        None
    }
}

/// A list of environment items parsed back, all or nothing.
pub open spec fn parse_env_items(items: Seq<Seq<char>>) -> Option<Seq<(Seq<char>, Seq<char>)>>
    decreases items.len(),
{
    if items.len() == 0 {
        Some(Seq::empty())
    } else {
        match (parse_env_items(items.drop_last()), parse_env_entry(items.last())) {
            (Some(rest), Some(p)) => Some(rest.push(p)),
            _ => None,
        }
    }
}

/// The environment field parsed back; `None` is a malformed field.
pub open spec fn parse_envs_field(f: Seq<char>) -> Option<Option<Seq<(Seq<char>, Seq<char>)>>> {
    if f.len() == 0 {
        Some(None)
    } else {
        match parse_env_items(split_on(f, ';')) {
            Some(ps) => Some(Some(ps)),
            None => None,
        }
    }
}

/// The directory field parsed back: empty means "none".
pub open spec fn parse_dir_field(f: Seq<char>) -> Option<Seq<char>> {
    if f.len() == 0 {
        None
    } else {
        Some(f)
    }
}

/// A `Schedule` record parsed back: six parts, a canonical uid, a
/// well-formed environment field.
pub open spec fn parse_schedule(parts: Seq<Seq<char>>) -> Option<MessageView> {
    if parts.len() == 6 && canonical_dec_u32(parts[4]) {
        match parse_envs_field(parts[5]) {
            Some(envs) => Some(
                MessageView::Schedule(
                    JobView {
                        id: parts[1],
                        command: parts[2],
                        dir: parse_dir_field(parts[3]),
                        uid: dec_val(parts[4]) as u32,
                        envs,
                    },
                ),
            ),
            None => None,
        }
    } else {
        None
    }
}

/// A trimmed line parsed as a message: split at every delimiter, then
/// dispatch on the variant name. Anything unknown or ill-shaped is
/// `None`.
pub open spec fn parse_spec(t: Seq<char>) -> Option<MessageView> {
    let parts = split_on(t, ':');
    if parts[0] == "Schedule"@ {
        parse_schedule(parts)
    } else if parts[0] == "Output"@ {
        if parts.len() == 2 {
            Some(MessageView::Output(parts[1]))
        } else {
            None
        }
    } else if parts[0] == "Watch"@ {
        if parts.len() == 2 {
            Some(MessageView::Watch(parts[1]))
        } else {
            None
        }
    } else if parts[0] == "GetLastJob"@ {
        if parts.len() == 1 {
            Some(MessageView::GetLastJob)
        } else {
            None
        }
    } else {
        None
    }
}

/// What decoding produces from a full received stream: trim one line
/// terminator, then parse.
pub open spec fn decode_spec(s: Seq<char>) -> Option<MessageView> {
    parse_spec(trim_spec(s))
}

/// An environment entry whose key and value survive the wire: free of
/// the delimiter, the line terminators, and the two separators of the
/// environment field itself.
pub open spec fn env_entry_safe(p: (Seq<char>, Seq<char>)) -> bool {
    &&& plain_field(p.0) && char_free(p.0, ';') && char_free(p.0, '=')
    &&& plain_field(p.1) && char_free(p.1, ';') && char_free(p.1, '=')
}

/// A message the wire format can represent faithfully. Field values
/// containing the delimiter or a line terminator, an empty directory, an
/// empty environment list, or separators inside environment entries fall
/// outside the format — the acknowledged limitation of delimiter-based
/// records.
pub open spec fn wire_safe(m: MessageView) -> bool {
    match m {
        MessageView::Schedule(j) => {
            &&& plain_field(j.id)
            &&& plain_field(j.command)
            &&& (j.dir matches Some(d) ==> plain_field(d) && d.len() > 0)
            &&& (j.envs matches Some(ps) ==> ps.len() > 0 && forall|i: int|
                0 <= i < ps.len() ==> env_entry_safe(#[trigger] ps[i]))
        },
        MessageView::Output(id) => plain_field(id),
        MessageView::Watch(id) => plain_field(id),
        MessageView::GetLastJob => true,
    }
}

/// An environment item never contains the record delimiter, a line
/// terminator, or the item separator.
pub proof fn lemma_env_item_chars(p: (Seq<char>, Seq<char>))
    requires
        env_entry_safe(p),
    ensures
        char_free(env_item(p), ':'),
        char_free(env_item(p), '\n'),
        char_free(env_item(p), '\r'),
        char_free(env_item(p), ';'),
        env_item(p).len() >= 1,
{
    let it = env_item(p);
    assert forall|i: int|
        0 <= i < it.len() implies #[trigger] it[i] != ':' && it[i] != '\n' && it[i] != '\r'
        && it[i] != ';' by {
        if i < p.0.len() {
            assert(it[i] == p.0[i]);
        } else if i == p.0.len() {
            assert(it[i] == '=');
        } else {
            assert(it[i] == p.1[i - p.0.len() - 1]);
        }
    }
}

/// Decimal digits are neither the delimiter nor a line terminator.
pub proof fn lemma_digits_plain(s: Seq<char>)
    requires
        forall|i: int| 0 <= i < s.len() ==> is_dec_digit(#[trigger] s[i]),
    ensures
        char_free(s, ':'),
        char_free(s, '\n'),
        char_free(s, '\r'),
        plain_field(s),
{
}

/// A join whose first part is nonempty is nonempty.
pub proof fn lemma_join_head_nonempty(parts: Seq<Seq<char>>, d: char)
    requires
        parts.len() >= 1,
        parts[0].len() > 0,
    ensures
        join_with(parts, d).len() > 0,
{
    if parts.len() == 1 {
    } else {
        assert(join_with(parts, d) == parts[0] + seq![d] + join_with(parts.drop_first(), d));
    }
}

/// Safe environment entries parse back from their rendered items.
pub proof fn lemma_parse_env_items_roundtrip(ps: Seq<(Seq<char>, Seq<char>)>)
    requires
        forall|i: int| 0 <= i < ps.len() ==> env_entry_safe(#[trigger] ps[i]),
    ensures
        parse_env_items(env_items(ps)) == Some(ps),
    decreases ps.len(),
{
    let items = env_items(ps);
    if ps.len() == 0 {
        assert(items.len() == 0);
        assert(parse_env_items(items) == Some(Seq::<(Seq<char>, Seq<char>)>::empty()));
        assert(ps =~= Seq::<(Seq<char>, Seq<char>)>::empty());
    } else {
        let front = ps.drop_last();
        lemma_parse_env_items_roundtrip(front);
        assert(items.drop_last() =~~= env_items(front));
        let p = ps.last();
        assert(items.last() == env_item(p));
        lemma_split_concat(p.0, p.1, '=');
        lemma_split_free(p.1, '=');
        let kv = split_on(env_item(p), '=');
        assert(kv =~~= seq![p.0, p.1]);
        assert(parse_env_entry(items.last()) == Some((p.0, p.1)));
        assert((p.0, p.1) == p);
        assert(front.push(p) =~= ps);
    }
}

/// Items that parse successfully are exactly the rendering of what they
/// parse to.
pub proof fn lemma_env_items_restore(items: Seq<Seq<char>>)
    requires
        parse_env_items(items) is Some,
    ensures
        env_items(parse_env_items(items)->Some_0) == items,
    decreases items.len(),
{
    let ps = parse_env_items(items)->Some_0;
    if items.len() == 0 {
        assert(env_items(ps) =~~= items);
    } else {
        lemma_env_items_restore(items.drop_last());
        let front = parse_env_items(items.drop_last())->Some_0;
        let kv = split_on(items.last(), '=');
        assert(kv.len() == 2);
        assert(ps == front.push((kv[0], kv[1])));
        lemma_join_split(items.last(), '=');
        assert(join_with(kv, '=') == kv[0] + seq!['='] + join_with(kv.drop_first(), '='));
        assert(kv.drop_first() =~~= seq![kv[1]]);
        assert(env_item((kv[0], kv[1])) == items.last());
        assert(env_items(ps).len() == items.len());
        assert forall|j: int| 0 <= j < items.len() implies env_items(ps)[j] == #[trigger] items[j] by {
            if j < items.len() - 1 {
                assert(ps[j] == front[j]);
                assert(env_items(front)[j] == env_item(front[j]));
                assert(items.drop_last()[j] == items[j]);
            } else {
                assert(ps[j] == (kv[0], kv[1]));
                assert(items[j] == items.last());
            }
        }
        assert(env_items(ps) =~~= items);
    }
}

/// An item that is no well-formed entry poisons the whole list.
pub proof fn lemma_env_items_fail(items: Seq<Seq<char>>, i: int)
    requires
        0 <= i < items.len(),
        parse_env_entry(items[i]) is None,
    ensures
        parse_env_items(items) is None,
    decreases items.len(),
{
    if i < items.len() - 1 {
        lemma_env_items_fail(items.drop_last(), i);
    }
}

/// The parts of a wire-safe message's record: at least the nonempty
/// variant name, and nothing containing the delimiter or `\r`.
proof fn lemma_record_parts_safe(m: MessageView)
    requires
        wire_safe(m),
    ensures
        record_parts(m).len() >= 1,
        record_parts(m)[0].len() > 0,
        forall|i: int|
            0 <= i < record_parts(m).len() ==> char_free(#[trigger] record_parts(m)[i], ':'),
        forall|i: int|
            0 <= i < record_parts(m).len() ==> char_free(#[trigger] record_parts(m)[i], '\r'),
{
    reveal_strlit("Schedule");
    reveal_strlit("Output");
    reveal_strlit("Watch");
    reveal_strlit("GetLastJob");
    let parts = record_parts(m);
    match m {
        MessageView::Schedule(j) => {
            assert(char_free(parts[0], ':') && char_free(parts[0], '\r'));
            assert(char_free(j.id, ':') && char_free(j.id, '\r'));
            assert(char_free(j.command, ':') && char_free(j.command, '\r'));
            match j.dir {
                Some(d) => {
                    assert(char_free(d, ':') && char_free(d, '\r'));
                },
                None => {
                    assert(char_free(dir_field(j.dir), ':') && char_free(dir_field(j.dir), '\r'));
                },
            }
            lemma_dec_of_canonical(j.uid as int);
            lemma_digits_plain(dec_of(j.uid as int));
            match j.envs {
                Some(ps) => {
                    let items = env_items(ps);
                    assert forall|k: int|
                        0 <= k < items.len() implies char_free(#[trigger] items[k], ':')
                        && char_free(items[k], '\r') by {
                        lemma_env_item_chars(ps[k]);
                    }
                    lemma_join_char_free(items, ';', ':');
                    lemma_join_char_free(items, ';', '\r');
                },
                None => {
                    assert(char_free(envs_field(j.envs), ':') && char_free(
                        envs_field(j.envs),
                        '\r',
                    ));
                },
            }
        },
        MessageView::Output(id) => {
            assert(char_free(parts[0], ':') && char_free(parts[0], '\r'));
            assert(char_free(id, ':') && char_free(id, '\r'));
        },
        MessageView::Watch(id) => {
            assert(char_free(parts[0], ':') && char_free(parts[0], '\r'));
            assert(char_free(id, ':') && char_free(id, '\r'));
        },
        MessageView::GetLastJob => {
            assert(char_free(parts[0], ':') && char_free(parts[0], '\r'));
        },
    }
}

/// Decoding inverts encoding: every message the wire format can
/// represent comes back from its own encoding unchanged.
pub proof fn lemma_decode_encode(m: MessageView)
    requires
        wire_safe(m),
    ensures
        decode_spec(encode_spec(m)) == Some(m),
{
    reveal_strlit("Schedule");
    reveal_strlit("Output");
    reveal_strlit("Watch");
    reveal_strlit("GetLastJob");
    let parts = record_parts(m);
    let body = join_with(parts, ':');
    lemma_record_parts_safe(m);
    lemma_split_join(parts, ':');
    lemma_join_char_free(parts, ':', '\r');
    lemma_join_head_nonempty(parts, ':');
    let e = encode_spec(m);
    assert(e.last() == '\n');
    assert(e.drop_last() =~= body);
    assert(body.last() != '\r');
    assert(trim_spec(e) == body);
    assert(split_on(body, ':') == parts);
    match m {
        MessageView::Schedule(j) => {
            assert(parts[0] == "Schedule"@);
            lemma_dec_of_canonical(j.uid as int);
            assert(canonical_dec_u32(parts[4]));
            match j.envs {
                Some(ps) => {
                    let items = env_items(ps);
                    assert forall|k: int|
                        0 <= k < items.len() implies char_free(#[trigger] items[k], ';') by {
                        lemma_env_item_chars(ps[k]);
                    }
                    assert(items[0].len() >= 1) by {
                        lemma_env_item_chars(ps[0]);
                    }
                    lemma_join_head_nonempty(items, ';');
                    lemma_split_join(items, ';');
                    lemma_parse_env_items_roundtrip(ps);
                    assert(parse_envs_field(parts[5]) == Some(Some(ps)));
                },
                None => {
                    assert(parts[5].len() == 0);
                    assert(parse_envs_field(parts[5]) == Some(
                        None::<Seq<(Seq<char>, Seq<char>)>>,
                    ));
                },
            }
            match j.dir {
                Some(d) => {
                    assert(parse_dir_field(parts[3]) == Some(d));
                },
                None => {
                    assert(parts[3].len() == 0);
                },
            }
            assert(dec_val(parts[4]) == j.uid as int);
            assert(parse_schedule(parts) matches Some(pm) && pm matches MessageView::Schedule(pj)
                && pj =~= j);
        },
        MessageView::Output(id) => {
            assert(parts[0] != "Schedule"@);
            assert(parts[0] == "Output"@);
            assert(parts.len() == 2);
        },
        MessageView::Watch(id) => {
            assert(parts[0] != "Schedule"@ && parts[0] != "Output"@);
            assert(parts[0] == "Watch"@);
            assert(parts.len() == 2);
        },
        MessageView::GetLastJob => {
            assert(parts[0] != "Schedule"@ && parts[0] != "Output"@ && parts[0] != "Watch"@);
            assert(parts[0] == "GetLastJob"@);
            assert(parts.len() == 1);
        },
    }
}

/// Encoding inverts decoding: any received line that decodes at all is,
/// up to the optional line terminator, exactly the encoding of what it
/// decodes to — the format is unambiguous.
pub proof fn lemma_encode_decode(s: Seq<char>, m: MessageView)
    requires
        decode_spec(s) == Some(m),
    ensures
        encode_spec(m) == trim_spec(s).push('\n'),
{
    reveal_strlit("Schedule");
    reveal_strlit("Output");
    reveal_strlit("Watch");
    reveal_strlit("GetLastJob");
    let t = trim_spec(s);
    let parts = split_on(t, ':');
    lemma_split_nonempty(t, ':');
    lemma_join_split(t, ':');
    if parts[0] == "Schedule"@ {
        assert(parts.len() == 6 && canonical_dec_u32(parts[4]));
        let envs = parse_envs_field(parts[5])->Some_0;
        let j = JobView {
            id: parts[1],
            command: parts[2],
            dir: parse_dir_field(parts[3]),
            uid: dec_val(parts[4]) as u32,
            envs,
        };
        assert(m == MessageView::Schedule(j));
        assert(dir_field(j.dir) =~= parts[3]);
        lemma_dec_val_nonneg(parts[4]);
        lemma_canonical_dec_of(parts[4]);
        assert(j.uid as int == dec_val(parts[4]));
        assert(dec_of(j.uid as int) == parts[4]);
        if parts[5].len() == 0 {
            assert(j.envs is None);
            assert(envs_field(j.envs) =~= parts[5]);
        } else {
            let items = split_on(parts[5], ';');
            assert(parse_env_items(items) is Some);
            assert(j.envs matches Some(ps) && ps == parse_env_items(items)->Some_0);
            lemma_env_items_restore(items);
            lemma_join_split(parts[5], ';');
            assert(envs_field(j.envs) == parts[5]);
        }
        assert(record_parts(m) =~~= parts);
        assert(encode_spec(m) == join_with(parts, ':').push('\n'));
    } else if parts[0] == "Output"@ {
        assert(parts.len() == 2);
        assert(m == MessageView::Output(parts[1]));
        assert(record_parts(m) =~~= parts);
        assert(encode_spec(m) == join_with(parts, ':').push('\n'));
    } else if parts[0] == "Watch"@ {
        assert(parts.len() == 2);
        assert(m == MessageView::Watch(parts[1]));
        assert(record_parts(m) =~~= parts);
        assert(encode_spec(m) == join_with(parts, ':').push('\n'));
    } else if parts[0] == "GetLastJob"@ {
        assert(parts.len() == 1);
        assert(m == MessageView::GetLastJob);
        assert(record_parts(m) =~~= parts);
        assert(encode_spec(m) == join_with(parts, ':').push('\n'));
    } else {
        assert(false);
    }
}

/// Remove one trailing line terminator: a final `\n`, with a preceding
/// `\r` only as part of `\r\n`. Anything else is left alone.
pub fn trim_newline(s: &mut String)
    ensures
        final(s)@ == trim_spec(old(s)@),
{
    let n = s.as_str().unicode_len();
    if n > 0 && s.as_str().get_char(n - 1) == '\n' {
        if n > 1 && s.as_str().get_char(n - 2) == '\r' {
            let t = s.as_str().substring_char(0, n - 2).to_owned();
            proof {
                assert(t@ =~= trim_spec(old(s)@));
            }
            *s = t;
        } else {
            let t = s.as_str().substring_char(0, n - 1).to_owned();
            proof {
                assert(t@ =~= trim_spec(old(s)@));
            }
            *s = t;
        }
    }
}

/// Compare a string's text with a literal's.
fn str_is(a: &String, lit: &str) -> (r: bool)
    ensures
        r == (a@ == lit@),
{
    let owned = lit.to_owned();
    *a == owned
}

/// The environment field of a job, rendered.
fn encode_envs(envs: &Option<Vec<(String, String)>>) -> (r: String)
    ensures
        r@ == envs_field(
            match envs {
                Some(es) => Some(envs_view(es@)),
                None => None,
            },
        ),
{
    proof {
        reveal_strlit("=");
        reveal_strlit(";");
    }
    match envs {
        None => String::new(),
        Some(es) => {
            if es.len() == 0 {
                let r = String::new();
                proof {
                    assert(env_items(envs_view(es@)) =~~= Seq::<Seq<char>>::empty());
                }
                r
            } else {
                let mut items: Vec<String> = Vec::new();
                let mut i: usize = 0;
                while i < es.len()
                    invariant
                        i <= es@.len(),
                        items@.len() == i,
                        "="@ == seq!['='],
                        forall|k: int|
                            0 <= k < i ==> (#[trigger] items@[k])@ == env_item(
                                env_pair_view(es@[k]),
                            ),
                    decreases es@.len() - i,
                {
                    let mut item = es[i].0.clone();
                    item.append("=");
                    item.append(es[i].1.as_str());
                    items.push(item);
                    i = i + 1;
                }
                proof {
                    assert(views_of(items@) =~~= env_items(envs_view(es@)));
                }
                join_parts(&items, ";")
            }
        },
    }
}

/// The environment field parsed back, executably.
fn decode_envs(f: &str) -> (r: Option<Option<Vec<(String, String)>>>)
    ensures
        match r {
            Some(Some(es)) => parse_envs_field(f@) == Some(Some(envs_view(es@))),
            Some(None) => parse_envs_field(f@) == Some(None::<Seq<(Seq<char>, Seq<char>)>>),
            None => parse_envs_field(f@) is None,
        },
{
    if f.is_empty() {
        return Some(None);
    }
    let items = split_string(f, ';');
    let ghost sitems = split_on(f@, ';');
    let mut es: Vec<(String, String)> = Vec::new();
    let mut i: usize = 0;
    proof {
        assert(sitems.take(0) =~~= Seq::<Seq<char>>::empty());
        assert(envs_view(es@) =~~= Seq::<(Seq<char>, Seq<char>)>::empty());
    }
    while i < items.len()
        invariant
            i <= items@.len(),
            f@.len() != 0,
            sitems == split_on(f@, ';'),
            views_of(items@) == sitems,
            parse_env_items(sitems.take(i as int)) == Some(envs_view(es@)),
        decreases items@.len() - i,
    {
        let kv = split_string(items[i].as_str(), '=');
        if kv.len() != 2 {
            proof {
                assert(parse_env_entry(sitems[i as int]) is None);
                lemma_env_items_fail(sitems, i as int);
            }
            return None;
        }
        es.push((kv[0].clone(), kv[1].clone()));
        proof {
            assert(sitems.take(i + 1).drop_last() =~~= sitems.take(i as int));
            assert(sitems.take(i + 1).last() == sitems[i as int]);
            assert(parse_env_entry(sitems[i as int]) == Some((kv@[0]@, kv@[1]@)));
            assert(envs_view(es@) =~~= envs_view(es@.drop_last()).push((kv@[0]@, kv@[1]@)));
        }
        i = i + 1;
    }
    proof {
        assert(sitems.take(sitems.len() as int) =~~= sitems);
    }
    Some(Some(es))
}

impl Message {
    /// Whether the sender should expect reply bytes on this connection
    /// after the request: everything but `Schedule` is answered.
    pub fn expects_reply(&self) -> (r: bool)
        ensures
            r == !(self@ is Schedule),
    {
        match self {
            Message::Schedule(_) => false,
            Message::Output(_) => true,
            Message::Watch(_) => true,
            Message::GetLastJob() => true,
        }
    }

    /// Render this message as its wire line.
    pub fn encode(&self) -> (r: String)
        ensures
            r@ == encode_spec(self@),
    {
        proof {
            reveal_strlit(":");
            reveal_strlit("\n");
        }
        let mut fields: Vec<String> = Vec::new();
        match self {
            Message::Schedule(job) => {
                fields.push(String::from_str("Schedule"));
                fields.push(job.id.text.clone());
                fields.push(job.command.clone());
                match &job.dir {
                    Some(d) => fields.push(d.clone()),
                    None => fields.push(String::new()),
                }
                fields.push(format_u32(job.uid));
                fields.push(encode_envs(&job.envs));
            },
            Message::Output(id) => {
                fields.push(String::from_str("Output"));
                fields.push(id.text.clone());
            },
            Message::Watch(id) => {
                fields.push(String::from_str("Watch"));
                fields.push(id.text.clone());
            },
            Message::GetLastJob() => {
                fields.push(String::from_str("GetLastJob"));
            },
        }
        proof {
            assert(views_of(fields@) =~~= record_parts(self@));
        }
        let mut r = join_parts(&fields, ":");
        r.append("\n");
        proof {
            assert(r@ =~= encode_spec(self@));
        }
        r
    }

    /// Read one message back from the full received text. `None` on
    /// anything the format does not define; the connection is then
    /// rejected, never the process aborted.
    pub fn decode(s: &str) -> (r: Option<Message>)
        ensures
            match r {
                Some(m) => decode_spec(s@) == Some(m@),
                None => decode_spec(s@) is None,
            },
    {
        let mut t = s.to_owned();
        trim_newline(&mut t);
        let parts = split_string(t.as_str(), ':');
        let ghost sparts = split_on(t@, ':');
        proof {
            lemma_split_nonempty(t@, ':');
        }
        if str_is(&parts[0], "Schedule") {
            if parts.len() != 6 {
                return None;
            }
            let uid = match parse_u32(parts[4].as_str()) {
                Some(v) => v,
                None => {
                    return None;
                },
            };
            let envs = match decode_envs(parts[5].as_str()) {
                Some(e) => e,
                None => {
                    return None;
                },
            };
            let dir: Option<String> = if parts[3].as_str().is_empty() {
                None
            } else {
                Some(parts[3].clone())
            };
            let job = Job { id: JobId::from(parts[1].clone()), command: parts[2].clone(), dir, uid, envs };
            proof {
                assert(job@ =~~= JobView {
                    id: sparts[1],
                    command: sparts[2],
                    dir: parse_dir_field(sparts[3]),
                    uid: dec_val(sparts[4]) as u32,
                    envs: parse_envs_field(sparts[5])->Some_0,
                });
                assert(parse_spec(t@) == Some(MessageView::Schedule(job@)));
            }
            Some(Message::Schedule(job))
        } else if str_is(&parts[0], "Output") {
            if parts.len() != 2 {
                return None;
            }
            let id = JobId::from(parts[1].clone());
            proof {
                assert(parse_spec(t@) == Some(MessageView::Output(id@)));
            }
            Some(Message::Output(id))
        } else if str_is(&parts[0], "Watch") {
            if parts.len() != 2 {
                return None;
            }
            let id = JobId::from(parts[1].clone());
            proof {
                assert(parse_spec(t@) == Some(MessageView::Watch(id@)));
            }
            Some(Message::Watch(id))
        } else if str_is(&parts[0], "GetLastJob") {
            if parts.len() != 1 {
                return None;
            }
            Some(Message::GetLastJob())
        } else {
            None
        }
    }
}

impl Clone for Message {
    fn clone(&self) -> (r: Self)
        ensures
            r@ == self@,
    {
        match self {
            Message::Schedule(job) => Message::Schedule(job.clone()),
            Message::Output(id) => Message::Output(id.clone()),
            Message::Watch(id) => Message::Watch(id.clone()),
            Message::GetLastJob() => Message::GetLastJob(),
        }
    }
}

} // verus!
