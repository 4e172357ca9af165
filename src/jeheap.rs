//! Parsing the allocator's heap profile dumps into sampled stacks.
//!
//! A dump starts with `heap_v2/<rate>`, the inverse probability of a byte being
//! sampled. Each stack is a line `@ <addr> <addr> ...` of hexadecimal return
//! addresses, innermost first, followed by its summary line
//! `t*: <objects>: <bytes> [...]`, the number of sampled allocations and the
//! bytes in them. Other lines are ignored.

use vstd::prelude::*;

verus! {

pub open spec fn is_ascii_ws(b: u8) -> bool {
    b == 32 || b == 9 || b == 10 || b == 12 || b == 13
}

/// The words of a line: its maximal runs of bytes other than ASCII whitespace.
pub open spec fn words(s: Seq<u8>) -> Seq<Seq<u8>>
    decreases s.len(),
{
    if s.len() == 0 {
        Seq::empty()
    } else {
        let w = words(s.drop_last());
        let c = s.last();
        if is_ascii_ws(c) {
            w
        } else if s.len() > 1 && !is_ascii_ws(s[s.len() - 2]) {
            w.update(w.len() - 1, w.last().push(c))
        } else {
            w.push(seq![c])
        }
    }
}

/// `s` with every leading repetition of the non-empty pattern `p` removed.
pub open spec fn strip_all_prefix(s: Seq<u8>, p: Seq<u8>) -> Seq<u8>
    decreases s.len(),
{
    if p.len() > 0 && p.len() <= s.len() && s.take(p.len() as int) == p {
        strip_all_prefix(s.skip(p.len() as int), p)
    } else {
        s
    }
}

/// `s` with every trailing `:` removed.
pub open spec fn strip_all_colons(s: Seq<u8>) -> Seq<u8>
    decreases s.len(),
{
    if s.len() > 0 && s.last() == 58 {
        strip_all_colons(s.drop_last())
    } else {
        s
    }
}

/// The value of an ASCII digit or letter as a digit; 36 for any other byte.
pub open spec fn digit_value(b: u8) -> int {
    if 48 <= b <= 57 {
        b - 48
    } else if 97 <= b <= 122 {
        b - 97 + 10
    } else if 65 <= b <= 90 {
        b - 65 + 10
    } else {
        36
    }
}

pub open spec fn all_digits(s: Seq<u8>, radix: int) -> bool {
    forall|i: int| 0 <= i < s.len() ==> digit_value(#[trigger] s[i]) < radix
}

pub open spec fn digits_value(s: Seq<u8>, radix: int) -> int
    decreases s.len(),
{
    if s.len() == 0 {
        0
    } else {
        digits_value(s.drop_last(), radix) * radix + digit_value(s.last())
    }
}

/// An unsigned number in `radix`: an optional `+`, then one or more digits,
/// whose value fits in a `usize`.
pub open spec fn parse_number(s: Seq<u8>, radix: int) -> Option<usize> {
    let d = if s.len() > 0 && s[0] == 43 {
        s.skip(1)
    } else {
        s
    };
    if d.len() > 0 && all_digits(d, radix) && digits_value(d, radix) <= usize::MAX {
        Some(digits_value(d, radix) as usize)
    } else {
        None
    }
}

pub open spec fn heap_v2_prefix() -> Seq<u8> {
    seq![104u8, 101u8, 97u8, 112u8, 95u8, 118u8, 50u8, 47u8]
}

pub open spec fn hex_prefix() -> Seq<u8> {
    seq![48u8, 120u8]
}

/// Why a heap dump could not be read.
#[derive(Clone, Copy, Debug, PartialEq, Eq, Structural)]
pub enum HeapDumpError {
    /// The dump has no lines at all.
    Empty,
    /// The sampling rate, an address or a count is not a number.
    BadNumber,
    /// A stack line is not followed by its summary line.
    StackWithoutWeight,
}

/// One sampled stack: its return addresses, outermost frame first, the number
/// of sampled allocations and the bytes in them.
#[derive(Clone, Debug, PartialEq, Eq)]
pub struct SampledStack {
    pub addrs: Vec<usize>,
    pub n_objs: usize,
    pub bytes: usize,
}

/// A heap dump: the sampling rate and the sampled stacks in file order.
#[derive(Clone, Debug, PartialEq, Eq)]
pub struct HeapDump {
    pub sampling_rate: usize,
    pub stacks: Vec<SampledStack>,
}

/// A stack as a plain value: addresses, objects, bytes.
pub type StackView = (Seq<usize>, usize, usize);

pub open spec fn stacks_view(s: Seq<SampledStack>) -> Seq<StackView> {
    s.map_values(|x: SampledStack| (x.addrs@, x.n_objs, x.bytes))
}

pub open spec fn lines_view(lines: Seq<Vec<u8>>) -> Seq<Seq<u8>> {
    lines.map_values(|l: Vec<u8>| l@)
}

/// The addresses of a stack line's words, each with its `0x` prefixes removed.
pub open spec fn parse_addrs(ws: Seq<Seq<u8>>) -> Option<Seq<usize>>
    decreases ws.len(),
{
    if ws.len() == 0 {
        Some(Seq::empty())
    } else {
        match parse_addrs(ws.drop_last()) {
            Some(a) => match parse_number(strip_all_prefix(ws.last(), hex_prefix()), 16) {
                Some(v) => Some(a.push(v)),
                None => None,
            },
            None => None,
        }
    }
}

/// Where reading the lines after the first stands: a stack waiting for its
/// summary line, and the stacks read so far.
pub struct ParseState {
    pub cur: Option<Seq<usize>>,
    pub stacks: Seq<StackView>,
}

/// Reading one more line.
pub open spec fn parse_step(st: Result<ParseState, HeapDumpError>, line: Seq<u8>) -> Result<
    ParseState,
    HeapDumpError,
> {
    match st {
        Err(e) => Err(e),
        Ok(st) => {
            let ws = words(line);
            if ws.len() > 0 && ws[0] == seq![64u8] {
                if st.cur is Some {
                    Err(HeapDumpError::StackWithoutWeight)
                } else {
                    match parse_addrs(ws.skip(1)) {
                        Some(a) => Ok(ParseState { cur: Some(a.reverse()), stacks: st.stacks }),
                        None => Err(HeapDumpError::BadNumber),
                    }
                }
            } else if ws.len() > 2 && ws[0] == seq![116u8, 42u8, 58u8] {
                match st.cur {
                    None => Ok(st),
                    Some(a) => match (
                        parse_number(strip_all_colons(ws[1]), 10),
                        parse_number(ws[2], 10),
                    ) {
                        (Some(n), Some(b)) => Ok(
                            ParseState { cur: None, stacks: st.stacks.push((a, n, b)) },
                        ),
                        _ => Err(HeapDumpError::BadNumber),
                    },
                }
            } else {
                Ok(st)
            }
        },
    }
}

pub open spec fn parse_lines(lines: Seq<Seq<u8>>) -> Result<ParseState, HeapDumpError>
    decreases lines.len(),
{
    if lines.len() == 0 {
        Ok(ParseState { cur: None, stacks: Seq::empty() })
    } else {
        parse_step(parse_lines(lines.drop_last()), lines.last())
    }
}

/// What a dump of these lines holds: the sampling rate of the first line and
/// the stacks of the others.
pub open spec fn parse_dump(lines: Seq<Seq<u8>>) -> Result<(usize, Seq<StackView>), HeapDumpError> {
    if lines.len() == 0 {
        Err(HeapDumpError::Empty)
    } else {
        match parse_number(strip_all_prefix(lines[0], heap_v2_prefix()), 10) {
            None => Err(HeapDumpError::BadNumber),
            Some(rate) => match parse_lines(lines.skip(1)) {
                Err(e) => Err(e),
                Ok(st) => if st.cur is Some {
                    Err(HeapDumpError::StackWithoutWeight)
                } else {
                    Ok((rate, st.stacks))
                },
            },
        }
    }
}

fn is_ws(b: u8) -> (r: bool)
    ensures
        r == is_ascii_ws(b),
{
    b == 32 || b == 9 || b == 10 || b == 12 || b == 13
}

/// Splits a line into its words.
pub fn split_words(line: &Vec<u8>) -> (r: Vec<Vec<u8>>)
    ensures
        r@.len() == words(line@).len(),
        forall|k: int| 0 <= k < r@.len() ==> (#[trigger] r@[k])@ == words(line@)[k],
{
    let mut out: Vec<Vec<u8>> = Vec::new();
    let mut i: usize = 0;
    while i < line.len()
        invariant
            i <= line.len(),
            out@.len() == words(line@.take(i as int)).len(),
            forall|k: int| 0 <= k < out@.len() ==> (#[trigger] out@[k])@ == words(line@.take(i as int))[k],
            i > 0 && !is_ascii_ws(line@[i - 1]) ==> out@.len() > 0,
        decreases line.len() - i,
    {
        let c = line[i];
        let ghost s = line@.take(i as int + 1);
        assert(s.drop_last() =~= line@.take(i as int));
        assert(s.last() == c);
        if is_ws(c) {
        } else if i > 0 && !is_ws(line[i - 1]) {
            assert(s[s.len() - 2] == line@[i - 1]);
            let last = out.len() - 1;
            out[last].push(c);
            assert forall|k: int| 0 <= k < out@.len() implies (#[trigger] out@[k])@ == words(s)[k] by {
                if k == last {
                    assert(out@[k]@ =~= words(s)[k]);
                }
            }
        } else {
            let mut w: Vec<u8> = Vec::new();
            w.push(c);
            out.push(w);
            assert forall|k: int| 0 <= k < out@.len() implies (#[trigger] out@[k])@ == words(s)[k] by {
                if k == out@.len() - 1 {
                    assert(out@[k]@ =~= seq![c]);
                }
            }
        }
        i = i + 1;
    }
    assert(line@.take(line.len() as int) =~= line@);
    out
}

/// Whether `p` occurs in `s` at `j`.
fn occurs_at(s: &Vec<u8>, j: usize, p: &Vec<u8>) -> (r: bool)
    ensures
        r == (j + p.len() <= s.len() && s@.subrange(j as int, j + p.len()) == p@),
{
    if p.len() > s.len() || j > s.len() - p.len() {
        return false;
    }
    let mut k: usize = 0;
    while k < p.len()
        invariant
            k <= p.len(),
            j + p.len() <= s.len(),
            forall|t: int| 0 <= t < k ==> s@[j + t] == p@[t],
        decreases p.len() - k,
    {
        if s[j + k] != p[k] {
            assert(s@.subrange(j as int, j + p.len())[k as int] != p@[k as int]);
            return false;
        }
        k = k + 1;
    }
    assert(s@.subrange(j as int, j + p.len()) =~= p@);
    true
}

/// `s` from position `j` on.
fn suffix_from(s: &Vec<u8>, j: usize) -> (r: Vec<u8>)
    requires
        j <= s.len(),
    ensures
        r@ == s@.skip(j as int),
{
    let mut r: Vec<u8> = Vec::new();
    let mut k: usize = j;
    while k < s.len()
        invariant
            j <= k <= s.len(),
            r@ == s@.subrange(j as int, k as int),
        decreases s.len() - k,
    {
        r.push(s[k]);
        k = k + 1;
        assert(r@ =~= s@.subrange(j as int, k as int));
    }
    assert(s@.subrange(j as int, s.len() as int) =~= s@.skip(j as int));
    r
}

/// Removes every leading repetition of `p` from `s`.
pub fn strip_prefix_all(s: &Vec<u8>, p: &Vec<u8>) -> (r: Vec<u8>)
    ensures
        r@ == strip_all_prefix(s@, p@),
{
    if p.len() == 0 {
        return suffix_from(s, 0);
    }
    let mut j: usize = 0;
    assert(s@.skip(0) =~= s@);
    while occurs_at(s, j, p)
        invariant
            j <= s.len(),
            p.len() > 0,
            strip_all_prefix(s@, p@) == strip_all_prefix(s@.skip(j as int), p@),
        decreases s.len() - j,
    {
        let ghost t = s@.skip(j as int);
        assert(t.take(p.len() as int) =~= s@.subrange(j as int, j + p.len()));
        assert(t.skip(p.len() as int) =~= s@.skip(j + p.len()));
        j = j + p.len();
    }
    let ghost t = s@.skip(j as int);
    assert(p.len() <= t.len() ==> t.take(p.len() as int) =~= s@.subrange(j as int, j + p.len()));
    suffix_from(s, j)
}

/// Removes every trailing `:` from `s`.
pub fn strip_colons(s: &Vec<u8>) -> (r: Vec<u8>)
    ensures
        r@ == strip_all_colons(s@),
{
    let mut k: usize = s.len();
    assert(s@.take(k as int) =~= s@);
    while k > 0 && s[k - 1] == 58
        invariant
            k <= s.len(),
            strip_all_colons(s@) == strip_all_colons(s@.take(k as int)),
        decreases k,
    {
        assert(s@.take(k as int).drop_last() =~= s@.take(k as int - 1));
        k = k - 1;
    }
    let mut r: Vec<u8> = Vec::new();
    let mut i: usize = 0;
    while i < k
        invariant
            i <= k <= s.len(),
            r@ == s@.take(i as int),
        decreases k - i,
    {
        r.push(s[i]);
        i = i + 1;
        assert(r@ =~= s@.take(i as int));
    }
    r
}

fn digit_of(b: u8) -> (r: u8)
    ensures
        r == digit_value(b),
{
    if 48 <= b && b <= 57 {
        b - 48
    } else if 97 <= b && b <= 122 {
        b - 97 + 10
    } else if 65 <= b && b <= 90 {
        b - 65 + 10
    } else {
        36
    }
}

proof fn lemma_digits_value_grows(s: Seq<u8>, radix: int, i: int)
    requires
        radix >= 1,
        0 <= i <= s.len(),
        all_digits(s, radix),
    ensures
        0 <= digits_value(s.take(i), radix) <= digits_value(s, radix),
    decreases s.len(),
{
    if s.len() > 0 {
        let pre = s.drop_last();
        assert forall|k: int| 0 <= k < pre.len() implies digit_value(#[trigger] pre[k]) < radix by {
            assert(pre[k] == s[k]);
        }
        assert(digit_value(s[s.len() - 1]) < radix);
        assert(digit_value(s.last()) >= 0);
        if i == s.len() {
            assert(s.take(i) =~= s);
            lemma_digits_value_grows(pre, radix, pre.len() as int);
            assert(pre.take(pre.len() as int) =~= pre);
        } else {
            assert(s.take(i) =~= pre.take(i));
            lemma_digits_value_grows(pre, radix, i);
        }
        let v = digits_value(pre, radix);
        assert(v * radix >= v) by (nonlinear_arith)
            requires
                v >= 0,
                radix >= 1,
        ;
    } else {
        assert(s.take(i) =~= s);
    }
}

proof fn lemma_parse_number_none(s: Seq<u8>, radix: int, d: Seq<u8>)
    requires
        d == (if s.len() > 0 && s[0] == 43 {
            s.skip(1)
        } else {
            s
        }),
        !(d.len() > 0 && all_digits(d, radix) && digits_value(d, radix) <= usize::MAX),
    ensures
        parse_number(s, radix) is None,
{
}

/// Reads an unsigned number in `radix` (10 or 16).
pub fn parse_radix(s: &Vec<u8>, radix: u8) -> (r: Option<usize>)
    requires
        radix == 10 || radix == 16,
    ensures
        r == parse_number(s@, radix as int),
{
    let start: usize = if s.len() > 0 && s[0] == 43 {
        1
    } else {
        0
    };
    let ghost d = s@.skip(start as int);
    assert(d == (if s@.len() > 0 && s@[0] == 43 { s@.skip(1) } else { s@ })) by {
        if start == 0 {
            assert(s@.skip(0) =~= s@);
        }
    }
    if start >= s.len() {
        return None;
    }
    // First check that every byte is a digit.
    let mut i: usize = start;
    while i < s.len()
        invariant
            start <= i <= s.len(),
            d == s@.skip(start as int),
            d == (if s@.len() > 0 && s@[0] == 43 {
                s@.skip(1)
            } else {
                s@
            }),
            forall|k: int| 0 <= k < i - start ==> digit_value(#[trigger] d[k]) < radix,
        decreases s.len() - i,
    {
        if digit_of(s[i]) >= radix {
            assert(d[i - start] == s@[i as int]);
            assert(digit_value(d[i - start]) >= radix);
            assert(!all_digits(d, radix as int));
            proof {
                lemma_parse_number_none(s@, radix as int, d);
            }
            return None;
        }
        assert(d[i - start] == s@[i as int]);
        i = i + 1;
    }
    assert(all_digits(d, radix as int));
    // Then accumulate, giving up as soon as the value no longer fits.
    let mut v: usize = 0;
    let mut i: usize = start;
    assert(d.take(0) =~= Seq::<u8>::empty());
    while i < s.len()
        invariant
            start <= i <= s.len(),
            d == s@.skip(start as int),
            d == (if s@.len() > 0 && s@[0] == 43 {
                s@.skip(1)
            } else {
                s@
            }),
            all_digits(d, radix as int),
            radix == 10 || radix == 16,
            v == digits_value(d.take(i - start), radix as int),
        decreases s.len() - i,
    {
        let ghost pre = d.take(i - start);
        let ghost nxt = d.take(i - start + 1);
        assert(nxt.drop_last() =~= pre);
        assert(nxt.last() == s@[i as int]);
        let dig = digit_of(s[i]) as usize;
        assert(digits_value(nxt, radix as int) == v * (radix as int) + digit_value(s@[i as int]));
        match v.checked_mul(radix as usize) {
            None => {
                proof {
                    assert(digit_value(s@[i as int]) >= 0);
                    assert(digits_value(nxt, radix as int) > usize::MAX);
                    lemma_digits_value_grows(d, radix as int, i - start + 1);
                    lemma_parse_number_none(s@, radix as int, d);
                }
                return None;
            },
            Some(m) => match m.checked_add(dig) {
                None => {
                    proof {
                        assert(digits_value(nxt, radix as int) > usize::MAX);
                        lemma_digits_value_grows(d, radix as int, i - start + 1);
                        lemma_parse_number_none(s@, radix as int, d);
                    }
                    return None;
                },
                Some(w) => {
                    v = w;
                },
            },
        }
        i = i + 1;
    }
    assert(d.take(s.len() - start) =~= d);
    Some(v)
}

/// The numbers of a stack line's address words `ws[1..]`, outermost frame first.
fn parse_stack_line(ws: &Vec<Vec<u8>>) -> (r: Option<Vec<usize>>)
    requires
        ws@.len() > 0,
    ensures
        ({
            let wv = ws@.map_values(|w: Vec<u8>| w@);
            match parse_addrs(wv.skip(1)) {
                Some(a) => r matches Some(v) && v@ == a.reverse(),
                None => r is None,
            }
        }),
{
    let ghost wv = ws@.map_values(|w: Vec<u8>| w@);
    let hex: Vec<u8> = vec![48u8, 120u8];
    assert(hex@ =~= hex_prefix());
    let mut addrs: Vec<usize> = Vec::new();
    let mut k: usize = 1;
    assert(wv.subrange(1, 1) =~= Seq::<Seq<u8>>::empty());
    while k < ws.len()
        invariant
            1 <= k <= ws.len(),
            wv == ws@.map_values(|w: Vec<u8>| w@),
            hex@ == hex_prefix(),
            parse_addrs(wv.subrange(1, k as int)) == Some(addrs@),
        decreases ws.len() - k,
    {
        let ghost pre = wv.subrange(1, k as int);
        let ghost nxt = wv.subrange(1, k as int + 1);
        assert(nxt.drop_last() =~= pre);
        assert(nxt.last() == ws@[k as int]@);
        let raw = strip_prefix_all(&ws[k], &hex);
        match parse_radix(&raw, 16) {
            Some(v) => {
                addrs.push(v);
            },
            None => {
                proof {
                    lemma_parse_addrs_fails(wv.skip(1), k - 1);
                    assert(wv.skip(1).take(k as int) =~= nxt);
                }
                return None;
            },
        }
        k = k + 1;
    }
    assert(wv.subrange(1, ws.len() as int) =~= wv.skip(1));
    let mut rev: Vec<usize> = Vec::new();
    let mut j: usize = addrs.len();
    while j > 0
        invariant
            j <= addrs.len(),
            rev@.len() == addrs.len() - j,
            forall|t: int| 0 <= t < rev@.len() ==> rev@[t] == addrs@[addrs.len() - 1 - t],
        decreases j,
    {
        rev.push(addrs[j - 1]);
        j = j - 1;
    }
    assert(rev@ =~= addrs@.reverse());
    Some(rev)
}

/// Once some prefix of the words fails to read, all of them do.
proof fn lemma_parse_addrs_fails(ws: Seq<Seq<u8>>, i: int)
    requires
        0 <= i < ws.len(),
        parse_addrs(ws.take(i + 1)) is None,
    ensures
        parse_addrs(ws) is None,
    decreases ws.len(),
{
    if i + 1 == ws.len() {
        assert(ws.take(i + 1) =~= ws);
    } else {
        assert(ws.drop_last().take(i + 1) =~= ws.take(i + 1));
        lemma_parse_addrs_fails(ws.drop_last(), i);
    }
}

/// Once reading some first lines fails, reading all of them fails the same way.
proof fn lemma_parse_lines_err(ls: Seq<Seq<u8>>, k: int)
    requires
        0 <= k <= ls.len(),
        parse_lines(ls.take(k)) is Err,
    ensures
        parse_lines(ls) == parse_lines(ls.take(k)),
    decreases ls.len(),
{
    if k == ls.len() {
        assert(ls.take(k) =~= ls);
    } else {
        assert(ls.drop_last().take(k) =~= ls.take(k));
        lemma_parse_lines_err(ls.drop_last(), k);
    }
}

/// Reads a heap dump from its lines, each already stripped of surrounding
/// whitespace: the first gives the sampling rate, the others the stacks.
pub fn parse_jeheap(lines: &Vec<Vec<u8>>) -> (r: Result<HeapDump, HeapDumpError>)
    ensures
        match r {
            Ok(d) => parse_dump(lines_view(lines@)) == Ok::<(usize, Seq<StackView>), HeapDumpError>(
                (d.sampling_rate, stacks_view(d.stacks@)),
            ),
            Err(e) => parse_dump(lines_view(lines@)) == Err::<(usize, Seq<StackView>), HeapDumpError>(e),
        },
{
    let ghost lv = lines_view(lines@);
    if lines.len() == 0 {
        return Err(HeapDumpError::Empty);
    }
    let prefix: Vec<u8> = vec![104u8, 101u8, 97u8, 112u8, 95u8, 118u8, 50u8, 47u8];
    assert(prefix@ =~= heap_v2_prefix());
    let first = strip_prefix_all(&lines[0], &prefix);
    assert(lv[0] == lines@[0]@);
    let sampling_rate = match parse_radix(&first, 10) {
        Some(v) => v,
        None => {
            return Err(HeapDumpError::BadNumber);
        },
    };
    let mut cur: Option<Vec<usize>> = None;
    let mut stacks: Vec<SampledStack> = Vec::new();
    let mut i: usize = 1;
    assert(lv.subrange(1, 1) =~= Seq::<Seq<u8>>::empty());
    assert(stacks_view(stacks@) =~= Seq::<StackView>::empty());
    while i < lines.len()
        invariant
            1 <= i <= lines.len(),
            lv == lines_view(lines@),
            lv.len() == lines.len(),
            parse_number(strip_all_prefix(lv[0], heap_v2_prefix()), 10) == Some(sampling_rate),
            parse_lines(lv.subrange(1, i as int)) == Ok::<ParseState, HeapDumpError>(
                ParseState {
                    cur: match cur {
                        Some(a) => Some(a@),
                        None => None,
                    },
                    stacks: stacks_view(stacks@),
                },
            ),
        decreases lines.len() - i,
    {
        let ghost pre = lv.subrange(1, i as int);
        let ghost nxt = lv.subrange(1, i as int + 1);
        assert(nxt.drop_last() =~= pre);
        assert(nxt.last() == lines@[i as int]@);
        let ws = split_words(&lines[i]);
        let ghost wv = ws@.map_values(|w: Vec<u8>| w@);
        assert(wv =~= words(lines@[i as int]@));
        let is_stack = ws.len() > 0 && ws[0].len() == 1 && ws[0][0] == 64;
        let is_summary = ws.len() > 2 && ws[0].len() == 3 && ws[0][0] == 116 && ws[0][1] == 42
            && ws[0][2] == 58;
        proof {
            if ws.len() > 0 {
                assert(wv[0] == ws@[0]@);
                if is_stack {
                    assert(wv[0] =~= seq![64u8]);
                }
                if wv[0] == seq![64u8] {
                    assert(wv[0][0] == 64u8);
                }
                if is_summary {
                    assert(wv[0] =~= seq![116u8, 42u8, 58u8]);
                }
                if wv[0] == seq![116u8, 42u8, 58u8] {
                    assert(wv[0][0] == 116u8 && wv[0][1] == 42u8 && wv[0][2] == 58u8);
                }
            }
        }
        if is_stack {
            if cur.is_some() {
                proof {
                    assert(parse_lines(nxt) == parse_step(parse_lines(pre), nxt.last()));
                    assert(lv.skip(1).take(i as int) =~= nxt);
                    lemma_parse_lines_err(lv.skip(1), i as int);
                }
                return Err(HeapDumpError::StackWithoutWeight);
            }
            match parse_stack_line(&ws) {
                Some(a) => {
                    cur = Some(a);
                },
                None => {
                    proof {
                        assert(parse_lines(nxt) == parse_step(parse_lines(pre), nxt.last()));
                        assert(lv.skip(1).take(i as int) =~= nxt);
                        lemma_parse_lines_err(lv.skip(1), i as int);
                    }
                    return Err(HeapDumpError::BadNumber);
                },
            }
        } else if is_summary {
            let taken = cur;
            cur = None;
            match taken {
                None => {},
                Some(addrs) => {
                    let objs = strip_colons(&ws[1]);
                    assert(wv[1] == ws@[1]@ && wv[2] == ws@[2]@);
                    let n_objs = parse_radix(&objs, 10);
                    let bytes = parse_radix(&ws[2], 10);
                    match (n_objs, bytes) {
                        (Some(n), Some(b)) => {
                            let ghost before = stacks@;
                            stacks.push(SampledStack { addrs, n_objs: n, bytes: b });
                            assert(stacks_view(stacks@) =~= stacks_view(before).push(
                                (addrs@, n, b),
                            ));
                        },
                        _ => {
                            proof {
                                assert(parse_lines(nxt) == parse_step(parse_lines(pre), nxt.last()));
                                assert(lv.skip(1).take(i as int) =~= nxt);
                                lemma_parse_lines_err(lv.skip(1), i as int);
                            }
                            return Err(HeapDumpError::BadNumber);
                        },
                    }
                },
            }
        }
        assert(parse_lines(nxt) == parse_step(parse_lines(pre), nxt.last()));
        i = i + 1;
    }
    assert(lv.subrange(1, lines.len() as int) =~= lv.skip(1));
    if cur.is_some() {
        return Err(HeapDumpError::StackWithoutWeight);
    }
    Ok(HeapDump { sampling_rate, stacks })
}

} // verus!
