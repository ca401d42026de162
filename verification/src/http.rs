//! HTTP/1.1 request framing, validation and routing for the dashboard server, and the exact
//! bytes of the plain responses it sends.
use vstd::prelude::*;
use crate::text::{chars_of, decode_lossy, push_char, string_of, lines_spec, newline_index, line_text, lemma_newline_index, utf8_lossy};
use crate::config::{is_white_space, is_white_space_char};
use crate::notifier::{char_matches_lower, spells};

verus! {

/// Largest request head (request line and header fields, with the blank line) accepted.
pub const MAX_HEADER_SIZE: usize = 8192;
/// Largest request body accepted.
pub const MAX_BODY_SIZE: usize = 8192;

// ---------------------------------------------------------------------------------------------
// Decimal numbers
// ---------------------------------------------------------------------------------------------

/// The ASCII digit for `d` (`d < 10`).
pub open spec fn digit_char(d: nat) -> char {
    if d == 0 { '0' } else if d == 1 { '1' } else if d == 2 { '2' } else if d == 3 { '3' }
    else if d == 4 { '4' } else if d == 5 { '5' } else if d == 6 { '6' } else if d == 7 { '7' }
    else if d == 8 { '8' } else { '9' }
}

/// The value of an ASCII digit.
pub open spec fn digit_value(c: char) -> nat {
    if c == '0' { 0 } else if c == '1' { 1 } else if c == '2' { 2 } else if c == '3' { 3 }
    else if c == '4' { 4 } else if c == '5' { 5 } else if c == '6' { 6 } else if c == '7' { 7 }
    else if c == '8' { 8 } else { 9 }
}

pub open spec fn is_digit(c: char) -> bool {
    '0' <= c <= '9'
}

pub open spec fn all_digits(s: Seq<char>) -> bool {
    forall|i: int| 0 <= i < s.len() ==> is_digit(#[trigger] s[i])
}

/// The number that a string of decimal digits spells.
pub open spec fn digits_value(s: Seq<char>) -> nat
    decreases s.len(),
{
    if s.len() == 0 {
        0
    } else {
        10 * digits_value(s.drop_last()) + digit_value(s.last())
    }
}

/// `n` written in decimal, without leading zeros.
pub open spec fn decimal(n: nat) -> Seq<char>
    decreases n,
{
    if n < 10 {
        seq![digit_char(n)]
    } else {
        decimal(n / 10).push(digit_char(n % 10))
    }
}

fn digit_of(d: u64) -> (c: char)
    requires
        d < 10,
    ensures
        c == digit_char(d as nat),
{
    if d == 0 { '0' } else if d == 1 { '1' } else if d == 2 { '2' } else if d == 3 { '3' }
    else if d == 4 { '4' } else if d == 5 { '5' } else if d == 6 { '6' } else if d == 7 { '7' }
    else if d == 8 { '8' } else { '9' }
}

fn value_of_digit(c: char) -> (d: u64)
    requires
        is_digit(c),
    ensures
        d == digit_value(c),
        d < 10,
{
    if c == '0' { 0 } else if c == '1' { 1 } else if c == '2' { 2 } else if c == '3' { 3 }
    else if c == '4' { 4 } else if c == '5' { 5 } else if c == '6' { 6 } else if c == '7' { 7 }
    else if c == '8' { 8 } else { 9 }
}

/// `n` in decimal, as `to_string` writes an unsigned integer.
pub fn decimal_string(n: u64) -> (s: String)
    ensures
        s@ == decimal(n as nat),
    decreases n,
{
    if n < 10 {
        let mut s = String::new();
        push_char(&mut s, digit_of(n));
        s
    } else {
        let mut s = decimal_string(n / 10);
        push_char(&mut s, digit_of(n % 10));
        s
    }
}

proof fn lemma_digits_prefix(s: Seq<char>, k: int)
    requires
        0 <= k <= s.len(),
    ensures
        digits_value(s.take(k)) <= digits_value(s),
    decreases s.len(),
{
    if k == s.len() {
        assert(s.take(k) =~= s);
    } else {
        lemma_digits_prefix(s.drop_last(), k);
        assert(s.drop_last().take(k) =~= s.take(k));
    }
}

/// The value of the digits `cs[lo..hi]` when it fits in a `u64`.
fn digits_u64(cs: &Vec<char>, lo: usize, hi: usize) -> (r: Option<u64>)
    requires
        lo <= hi <= cs.len(),
        all_digits(cs@.subrange(lo as int, hi as int)),
    ensures
        r == (if digits_value(cs@.subrange(lo as int, hi as int)) <= u64::MAX {
            Some(digits_value(cs@.subrange(lo as int, hi as int)) as u64)
        } else {
            None::<u64>
        }),
{
    let ghost whole = cs@.subrange(lo as int, hi as int);
    let mut acc: u64 = 0;
    let mut i = lo;
    assert(whole.take(0) =~= Seq::<char>::empty());
    while i < hi
        invariant
            lo <= i <= hi <= cs.len(),
            whole == cs@.subrange(lo as int, hi as int),
            all_digits(whole),
            acc == digits_value(whole.take(i - lo)),
        decreases hi - i,
    {
        assert(is_digit(whole[i - lo]));
        assert(whole[i - lo] == cs@[i as int]);
        let d = value_of_digit(cs[i]);
        let ghost next = whole.take(i - lo + 1);
        assert(next.drop_last() =~= whole.take(i - lo));
        assert(next.last() == cs@[i as int]);
        assert(digits_value(next) == 10 * acc + d);
        if acc > (u64::MAX - d) / 10 {
            proof {
                assert(10 * acc + d > u64::MAX) by (nonlinear_arith)
                    requires
                        acc > (u64::MAX - d) / 10,
                        d < 10,
                ;
                lemma_digits_prefix(whole, i - lo + 1);
            }
            return None;
        }
        assert(10 * acc + d <= u64::MAX) by (nonlinear_arith)
            requires
                acc <= (u64::MAX - d) / 10,
                d < 10,
        ;
        acc = acc * 10 + d;
        i = i + 1;
    }
    assert(whole.take(hi - lo) =~= whole);
    Some(acc)
}

/// What `str::parse::<u64>` accepts: an optional `+`, then one or more digits, with a value
/// that fits in a `u64`.
pub open spec fn parse_u64_spec(s: Seq<char>) -> Option<nat> {
    let d = if s.len() > 0 && s[0] == '+' { s.drop_first() } else { s };
    if d.len() > 0 && all_digits(d) && digits_value(d) <= u64::MAX {
        Some(digits_value(d))
    } else {
        None
    }
}

/// Parses an unsigned decimal number as `str::parse::<u64>` does.
pub fn parse_u64(s: &str) -> (r: Option<u64>)
    ensures
        r == (match parse_u64_spec(s@) {
            Some(v) => Some(v as u64),
            None => None::<u64>,
        }),
{
    let cs = chars_of(s);
    let start: usize = if cs.len() > 0 && cs[0] == '+' { 1 } else { 0 };
    let ghost d = if s@.len() > 0 && s@[0] == '+' { s@.drop_first() } else { s@ };
    assert(d =~= cs@.subrange(start as int, cs.len() as int));
    if start >= cs.len() {
        return None;
    }
    let mut i = start;
    while i < cs.len()
        invariant
            start <= i <= cs.len(),
            cs@ == s@,
            d == cs@.subrange(start as int, cs.len() as int),
            d == (if s@.len() > 0 && s@[0] == '+' { s@.drop_first() } else { s@ }),
            forall|j: int| start <= j < i ==> is_digit(#[trigger] cs@[j]),
        decreases cs.len() - i,
    {
        if !('0' <= cs[i] && cs[i] <= '9') {
            assert(d[i - start] == cs@[i as int]);
            assert(!is_digit(d[i - start]));
            assert(!all_digits(d));
            assert(parse_u64_spec(s@) is None);
            return None;
        }
        i = i + 1;
    }
    assert(all_digits(d)) by {
        assert forall|j: int| 0 <= j < d.len() implies is_digit(#[trigger] d[j]) by {
            assert(d[j] == cs@[start + j]);
        }
    }
    digits_u64(&cs, start, cs.len())
}

/// The revision that follows `rev`: its number plus one (saturating), where a revision that is
/// not a number counts as zero.
pub open spec fn next_revision_spec(rev: Seq<char>) -> Seq<char> {
    let v: nat = match parse_u64_spec(rev) {
        Some(v) => v,
        None => 0,
    };
    decimal(if v + 1 > u64::MAX { u64::MAX as nat } else { (v + 1) as nat })
}

/// Bumps a view revision, as the dashboard does after every change of its categories.
pub fn next_revision(rev: &str) -> (r: String)
    ensures
        r@ == next_revision_spec(rev@),
{
    let v = match parse_u64(rev) {
        Some(v) => v,
        None => 0,
    };
    decimal_string(v.saturating_add(1))
}

pub(crate) proof fn lemma_decimal_reads_back(n: nat)
    ensures
        decimal(n).len() > 0,
        all_digits(decimal(n)),
        digits_value(decimal(n)) == n,
    decreases n,
{
    let d = decimal(n);
    let r = n % 10;
    assert(digit_value(digit_char(r)) == r);
    if n >= 10 {
        lemma_decimal_reads_back(n / 10);
        assert(d.drop_last() =~= decimal(n / 10));
        assert forall|i: int| 0 <= i < d.len() implies is_digit(#[trigger] d[i]) by {
            if i < d.len() - 1 {
                assert(d[i] == decimal(n / 10)[i]);
            }
        }
        assert(digits_value(d) == 10 * (n / 10) + r);
    } else {
        assert(d.drop_last() =~= Seq::<char>::empty());
        assert(digits_value(d.drop_last()) == 0);
    }
}

/// A number written as a revision reads back as that number.
pub proof fn revision_reads_back(n: u64)
    ensures
        parse_u64_spec(decimal(n as nat)) == Some(n as nat),
{
    lemma_decimal_reads_back(n as nat);
    assert(is_digit(decimal(n as nat)[0]));
}

/// Revisions count up by one: the revision after the one written for `n` is the one written
/// for `n + 1`, and the last revision a `u64` can hold stays where it is.
pub proof fn revisions_count_up(n: u64)
    ensures
        next_revision_spec(decimal(n as nat)) == decimal(if n < u64::MAX { (n + 1) as nat } else { n as nat }),
{
    revision_reads_back(n);
}

// ---------------------------------------------------------------------------------------------
// Finding the end of the request head
// ---------------------------------------------------------------------------------------------

/// `buf` holds the blank line `\r\n\r\n` at `i`.
pub open spec fn blank_line_at(buf: Seq<u8>, i: int) -> bool {
    &&& 0 <= i
    &&& i + 4 <= buf.len()
    &&& buf[i] == 13u8
    &&& buf[i + 1] == 10u8
    &&& buf[i + 2] == 13u8
    &&& buf[i + 3] == 10u8
}

/// The first position at or after `from` where the blank line ending the head starts.
pub open spec fn head_end_from(buf: Seq<u8>, from: nat) -> Option<nat>
    decreases buf.len() - from,
{
    if from + 4 > buf.len() {
        None
    } else if blank_line_at(buf, from as int) {
        Some(from)
    } else {
        head_end_from(buf, from + 1)
    }
}

/// The position where the head's closing blank line starts, if `buf` holds one.
pub open spec fn head_end(buf: Seq<u8>) -> Option<nat> {
    head_end_from(buf, 0)
}

proof fn lemma_head_end_bound(buf: Seq<u8>, from: nat)
    ensures
        head_end_from(buf, from) matches Some(p) ==> p + 4 <= buf.len(),
    decreases buf.len() - from,
{
    if from + 4 <= buf.len() && !blank_line_at(buf, from as int) {
        lemma_head_end_bound(buf, from + 1);
    }
}

/// Finds the blank line that ends the request head.
pub fn find_head_end(buf: &Vec<u8>) -> (r: Option<usize>)
    ensures
        r == (match head_end(buf@) {
            Some(p) => Some(p as usize),
            None => None::<usize>,
        }),
        head_end(buf@) matches Some(q) ==> q + 4 <= buf@.len(),
{
    proof {
        lemma_head_end_bound(buf@, 0);
    }
    let mut i: usize = 0;
    while buf.len() >= 4 && i <= buf.len() - 4
        invariant
            head_end(buf@) == head_end_from(buf@, i as nat),
            i <= buf.len(),
        decreases buf.len() - i,
    {
        if buf[i] == 13 && buf[i + 1] == 10 && buf[i + 2] == 13 && buf[i + 3] == 10 {
            return Some(i);
        }
        i = i + 1;
    }
    None
}

/// Where reading a request head stands after the bytes in `buf`.
#[derive(PartialEq, Eq, Structural, Clone, Copy, Debug)]
pub enum HeadProgress {
    /// The head is complete; its closing blank line starts at this position.
    Complete(usize),
    /// The head is, or can only become, larger than `MAX_HEADER_SIZE`.
    TooLarge,
    /// More bytes are needed.
    NeedMore,
}

pub open spec fn head_progress_spec(buf: Seq<u8>) -> HeadProgress {
    match head_end(buf) {
        Some(p) => if p + 4 > MAX_HEADER_SIZE { HeadProgress::TooLarge } else { HeadProgress::Complete(p as usize) },
        None => if buf.len() > MAX_HEADER_SIZE { HeadProgress::TooLarge } else { HeadProgress::NeedMore },
    }
}

/// Decides, after each read, whether the head is complete, too large, or still arriving.
pub fn head_progress(buf: &Vec<u8>) -> (r: HeadProgress)
    ensures
        r == head_progress_spec(buf@),
{
    match find_head_end(buf) {
        Some(p) => {
            let ghost q = head_end(buf@)->0;
            assert(head_end(buf@) is Some);
            assert(q + 4 <= buf@.len());
            assert(p == q as usize);
            assert(buf@.len() == buf.len());
            assert(q as usize as nat == q);
            assert(head_end(buf@) == Some(p as nat));
            if p > MAX_HEADER_SIZE - 4 { HeadProgress::TooLarge } else { HeadProgress::Complete(p) }
        },
        None => if buf.len() > MAX_HEADER_SIZE { HeadProgress::TooLarge } else { HeadProgress::NeedMore },
    }
}

// ---------------------------------------------------------------------------------------------
// Lines and words
// ---------------------------------------------------------------------------------------------

pub open spec fn lines_view(v: Seq<Vec<char>>) -> Seq<Seq<char>> {
    v.map_values(|l: Vec<char>| l@)
}

/// Splits text into lines as `str::lines` does (see `lines_spec`).
pub fn split_lines(cs: &Vec<char>) -> (r: Vec<Vec<char>>)
    ensures
        lines_view(r@) == lines_spec(cs@),
{
    let n = cs.len();
    let mut out: Vec<Vec<char>> = Vec::new();
    let mut pos: usize = 0;
    assert(cs@.skip(0) =~= cs@);
    while pos < n
        invariant
            n == cs.len(),
            pos <= n,
            lines_spec(cs@) == lines_view(out@) + lines_spec(cs@.skip(pos as int)),
        decreases n - pos,
    {
        let mut j = pos;
        while j < n && cs[j] != '\n'
            invariant
                pos <= j <= n,
                n == cs.len(),
                forall|i: int| pos <= i < j ==> cs@[i] != '\n',
            decreases n - j,
        {
            j = j + 1;
        }
        let ghost t = cs@.skip(pos as int);
        proof {
            lemma_newline_index(t, j - pos);
        }
        let terminated = j < n;
        let mut end = j;
        if terminated && end > pos && cs[end - 1] == '\r' {
            end = end - 1;
        }
        let ghost line = line_text(t.take(j - pos), terminated);
        let mut cur: Vec<char> = Vec::new();
        let mut k = pos;
        while k < end
            invariant
                pos <= k <= end,
                end <= n,
                n == cs.len(),
                cur@ == cs@.subrange(pos as int, k as int),
            decreases end - k,
        {
            cur.push(cs[k]);
            k = k + 1;
            assert(cur@ =~= cs@.subrange(pos as int, k as int));
        }
        assert(line =~= cur@);
        let next = if terminated { j + 1 } else { n };
        proof {
            if terminated {
                assert(t.skip(j - pos + 1) =~= cs@.skip(next as int));
            } else {
                assert(t.take(j - pos) =~= t);
                assert(cs@.skip(next as int) =~= Seq::<char>::empty());
            }
            assert(lines_spec(t) =~= seq![line] + lines_spec(cs@.skip(next as int)));
        }
        let ghost before = out@;
        out.push(cur);
        assert(lines_view(out@) =~= lines_view(before).push(line));
        assert(lines_view(out@) + lines_spec(cs@.skip(next as int)) =~= lines_view(before) + (seq![line] + lines_spec(cs@.skip(next as int))));
        pos = next;
    }
    assert(cs@.skip(pos as int) =~= Seq::<char>::empty());
    assert(lines_view(out@) + Seq::<Seq<char>>::empty() =~= lines_view(out@));
    out
}

/// The words of `s` (maximal runs of non-whitespace), given the word `cur` already begun, as
/// `str::split_whitespace` yields them.
pub open spec fn words_from(s: Seq<char>, cur: Seq<char>) -> Seq<Seq<char>>
    decreases s.len(),
{
    if s.len() == 0 {
        if cur.len() > 0 { seq![cur] } else { Seq::empty() }
    } else if is_white_space(s[0]) {
        (if cur.len() > 0 { seq![cur] } else { Seq::empty() }) + words_from(s.drop_first(), Seq::empty())
    } else {
        words_from(s.drop_first(), cur.push(s[0]))
    }
}

pub open spec fn words(s: Seq<char>) -> Seq<Seq<char>> {
    words_from(s, Seq::empty())
}

/// Splits a line into its whitespace-separated words.
pub fn split_words(line: &Vec<char>) -> (r: Vec<Vec<char>>)
    ensures
        lines_view(r@) == words(line@),
{
    let mut out: Vec<Vec<char>> = Vec::new();
    let mut cur: Vec<char> = Vec::new();
    let mut i: usize = 0;
    assert(line@.skip(0) =~= line@);
    while i < line.len()
        invariant
            i <= line.len(),
            words(line@) == lines_view(out@) + words_from(line@.skip(i as int), cur@),
        decreases line.len() - i,
    {
        let c = line[i];
        let ghost rest = line@.skip(i as int);
        assert(rest.drop_first() =~= line@.skip(i + 1));
        assert(rest[0] == c);
        if is_white_space_char(c) {
            let ghost out0 = lines_view(out@);
            let ghost cur0 = cur@;
            let ghost tail = words_from(line@.skip(i + 1), Seq::empty());
            assert(words_from(rest, cur0) == (if cur0.len() > 0 { seq![cur0] } else { Seq::empty() }) + tail);
            if cur.len() > 0 {
                let ghost before = out@;
                let ghost w = cur@;
                out.push(cur);
                assert(lines_view(out@) =~= lines_view(before) + seq![w]);
                cur = Vec::new();
                assert(out0 + (seq![cur0] + tail) =~= lines_view(out@) + tail);
            } else {
                assert(cur0 =~= Seq::<char>::empty());
                assert(out0 + (Seq::<Seq<char>>::empty() + tail) =~= lines_view(out@) + tail);
            }
        } else {
            assert(words_from(rest, cur@) == words_from(line@.skip(i + 1), cur@.push(c)));
            cur.push(c);
        }
        i = i + 1;
    }
    assert(line@.skip(i as int) =~= Seq::<char>::empty());
    if cur.len() > 0 {
        let ghost before = out@;
        let ghost w = cur@;
        out.push(cur);
        assert(lines_view(out@) =~= lines_view(before) + seq![w]);
    } else {
        assert(lines_view(out@) + Seq::<Seq<char>>::empty() =~= lines_view(out@));
    }
    out
}


// ---------------------------------------------------------------------------------------------
// The request head
// ---------------------------------------------------------------------------------------------

/// Why a request head is refused; each answer is `400 Bad Request`.
#[derive(PartialEq, Eq, Structural, Clone, Copy, Debug)]
pub enum HeadReject {
    /// The head holds no line at all.
    Empty,
    /// The request line has fewer than two words.
    MalformedRequestLine,
    /// A field line has no colon.
    InvalidFieldLine,
    /// A field name holds a space or a tab.
    InvalidFieldSyntax,
    /// `Content-Length` occurs twice.
    DuplicateContentLength,
    /// `Content-Length` is not a decimal number that fits in a `usize`.
    InvalidContentLength,
}

/// A request head that passed validation.
#[derive(Clone, Debug)]
pub struct RequestHead {
    pub method: String,
    pub target: String,
    pub content_length: Option<usize>,
    pub transfer_encoding: bool,
}

pub struct HeadView {
    pub method: Seq<char>,
    pub target: Seq<char>,
    pub content_length: Option<nat>,
    pub transfer_encoding: bool,
}

pub open spec fn opt_nat(o: Option<usize>) -> Option<nat> {
    match o {
        Some(n) => Some(n as nat),
        None => None,
    }
}

impl View for RequestHead {
    type V = HeadView;

    open spec fn view(&self) -> HeadView {
        HeadView {
            method: self.method@,
            target: self.target@,
            content_length: opt_nat(self.content_length),
            transfer_encoding: self.transfer_encoding,
        }
    }
}

/// `s` without its trailing carriage returns.
pub open spec fn strip_cr_end(s: Seq<char>) -> Seq<char>
    decreases s.len(),
{
    if s.len() > 0 && s.last() == '\r' {
        strip_cr_end(s.drop_last())
    } else {
        s
    }
}

/// Position of the first `c` in `s`, or its length when there is none.
pub open spec fn char_index(s: Seq<char>, c: char) -> nat
    decreases s.len(),
{
    if s.len() == 0 {
        0
    } else if s[0] == c {
        0
    } else {
        1 + char_index(s.drop_first(), c)
    }
}

pub(crate) proof fn lemma_char_index(t: Seq<char>, c: char, k: int)
    requires
        0 <= k <= t.len(),
        forall|i: int| 0 <= i < k ==> t[i] != c,
        k == t.len() || t[k] == c,
    ensures
        char_index(t, c) == k,
    decreases k,
{
    if k > 0 {
        lemma_char_index(t.drop_first(), c, k - 1);
    }
}

pub open spec fn sp_tab(c: char) -> bool {
    c == ' ' || c == '\t'
}

pub open spec fn trim_start_sp_tab(s: Seq<char>) -> Seq<char>
    decreases s.len(),
{
    if s.len() > 0 && sp_tab(s[0]) {
        trim_start_sp_tab(s.drop_first())
    } else {
        s
    }
}

pub open spec fn trim_end_sp_tab(s: Seq<char>) -> Seq<char>
    decreases s.len(),
{
    if s.len() > 0 && sp_tab(s.last()) {
        trim_end_sp_tab(s.drop_last())
    } else {
        s
    }
}

/// `s` without the spaces and tabs at either end.
pub open spec fn trim_sp_tab(s: Seq<char>) -> Seq<char> {
    trim_end_sp_tab(trim_start_sp_tab(s))
}

/// The effect of one header field line on what the head has said so far: the
/// `Content-Length` value and whether `Transfer-Encoding` occurred.
pub open spec fn field_step(line: Seq<char>, cl: Option<nat>, te: bool) -> Result<(Option<nat>, bool), HeadReject> {
    let t = strip_cr_end(line);
    let j = char_index(t, ':');
    if t.len() == 0 {
        Ok((cl, te))
    } else if j == t.len() {
        Err(HeadReject::InvalidFieldLine)
    } else {
        let name = t.take(j as int);
        let value = trim_sp_tab(t.skip(j + 1 as int));
        if name.contains(' ') || name.contains('\t') {
            Err(HeadReject::InvalidFieldSyntax)
        } else if spells(name, "transfer-encoding"@) {
            Ok((cl, true))
        } else if spells(name, "content-length"@) {
            if cl is Some {
                Err(HeadReject::DuplicateContentLength)
            } else if value.len() == 0 || !all_digits(value) || digits_value(value) > usize::MAX {
                Err(HeadReject::InvalidContentLength)
            } else {
                Ok((Some(digits_value(value)), te))
            }
        } else {
            Ok((cl, te))
        }
    }
}

/// The header field lines taken in order; the first refusal ends the scan.
pub open spec fn scan_fields(lines: Seq<Seq<char>>, cl: Option<nat>, te: bool) -> Result<(Option<nat>, bool), HeadReject>
    decreases lines.len(),
{
    if lines.len() == 0 {
        Ok((cl, te))
    } else {
        match field_step(lines[0], cl, te) {
            Err(e) => Err(e),
            Ok((c, t)) => scan_fields(lines.drop_first(), c, t),
        }
    }
}

/// The request head read from the text before the blank line: the request line's first two
/// words, the `Content-Length` value and whether `Transfer-Encoding` was sent.
pub open spec fn parse_head_spec(header: Seq<char>) -> Result<HeadView, HeadReject> {
    let ls = lines_spec(header);
    if ls.len() == 0 {
        Err(HeadReject::Empty)
    } else {
        let parts = words(ls[0]);
        if parts.len() < 2 {
            Err(HeadReject::MalformedRequestLine)
        } else {
            match scan_fields(ls.drop_first(), None, false) {
                Err(e) => Err(e),
                Ok((cl, te)) => Ok(
                    HeadView { method: parts[0], target: parts[1], content_length: cl, transfer_encoding: te },
                ),
            }
        }
    }
}

/// `cs[lo..hi]` spells the lowercase word `w`, ignoring ASCII case.
fn spells_range(cs: &Vec<char>, lo: usize, hi: usize, w: &str) -> (r: bool)
    requires
        lo <= hi <= cs.len(),
    ensures
        r == spells(cs@.subrange(lo as int, hi as int), w@),
{
    let b = chars_of(w);
    if hi - lo != b.len() {
        return false;
    }
    let ghost a = cs@.subrange(lo as int, hi as int);
    let mut i: usize = 0;
    while i < b.len()
        invariant
            i <= b.len(),
            hi - lo == b.len(),
            lo <= hi <= cs.len(),
            a == cs@.subrange(lo as int, hi as int),
            b@ == w@,
            forall|j: int| 0 <= j < i ==> char_matches_lower(#[trigger] a[j], b@[j]),
        decreases b.len() - i,
    {
        let c = cs[lo + i];
        assert(a[i as int] == c);
        let n = c as u32;
        let ok = if 65 <= n && n <= 90 { n + 32 == b[i] as u32 } else { c == b[i] };
        if !ok {
            return false;
        }
        i = i + 1;
    }
    true
}

/// Applies one header field line (see `field_step`).
#[verifier::loop_isolation(false)]
fn field_line(line: &Vec<char>, cl: Option<usize>, te: bool) -> (r: Result<(Option<usize>, bool), HeadReject>)
    ensures
        match r {
            Ok((c, t)) => field_step(line@, opt_nat(cl), te) == Ok::<(Option<nat>, bool), HeadReject>((opt_nat(c), t)),
            Err(e) => field_step(line@, opt_nat(cl), te) == Err::<(Option<nat>, bool), HeadReject>(e),
        },
{
    let mut end = line.len();
    assert(line@.take(end as int) =~= line@);
    while end > 0 && line[end - 1] == '\r'
        invariant
            end <= line.len(),
            strip_cr_end(line@) == strip_cr_end(line@.take(end as int)),
        decreases end,
    {
        assert(line@.take(end as int).drop_last() =~= line@.take(end - 1));
        end = end - 1;
    }
    let ghost t = line@.take(end as int);
    assert(strip_cr_end(t) == t);
    assert(strip_cr_end(line@) == t);
    if end == 0 {
        return Ok((cl, te));
    }
    let mut j: usize = 0;
    while j < end && line[j] != ':'
        invariant
            j <= end <= line.len(),
            t == line@.take(end as int),
            forall|i: int| 0 <= i < j ==> t[i] != ':',
        decreases end - j,
    {
        j = j + 1;
    }
    proof {
        lemma_char_index(t, ':', j as int);
    }
    if j == end {
        return Err(HeadReject::InvalidFieldLine);
    }
    let ghost name = t.take(j as int);
    let mut k: usize = 0;
    while k < j
        invariant
            k <= j < end <= line.len(),
            t == line@.take(end as int),
            name == t.take(j as int),
            forall|i: int| 0 <= i < k ==> name[i] != ' ' && name[i] != '\t',
        decreases j - k,
    {
        if line[k] == ' ' || line[k] == '\t' {
            assert(name[k as int] == line@[k as int]);
            if line[k] == ' ' {
                assert(name.contains(' '));
            } else {
                assert(name.contains('\t'));
            }
            assert(strip_cr_end(line@) == t);
            assert(t.len() > 0);
            assert(char_index(t, ':') == j);
            assert(j < t.len());
            return Err(HeadReject::InvalidFieldSyntax);
        }
        k = k + 1;
    }
    assert(!name.contains(' ') && !name.contains('\t'));
    assert(name =~= line@.subrange(0, j as int));
    if spells_range(line, 0, j, "transfer-encoding") {
        return Ok((cl, true));
    }
    if !spells_range(line, 0, j, "content-length") {
        return Ok((cl, te));
    }
    if cl.is_some() {
        return Err(HeadReject::DuplicateContentLength);
    }
    assert(t.skip(j + 1) =~= line@.subrange(j + 1, end as int));
    match content_length_value(line, j + 1, end) {
        Some(v) => Ok((Some(v), te)),
        None => Err(HeadReject::InvalidContentLength),
    }
}

/// The `Content-Length` value in `line[lo..end]`: the number spelled by the digits between
/// the spaces and tabs at either end, when it fits in a `usize`.
#[verifier::loop_isolation(false)]
fn content_length_value(line: &Vec<char>, lo: usize, end: usize) -> (r: Option<usize>)
    requires
        lo <= end <= line.len(),
    ensures
        ({
            let value = trim_sp_tab(line@.subrange(lo as int, end as int));
            r == (if value.len() == 0 || !all_digits(value) || digits_value(value) > usize::MAX {
                None::<usize>
            } else {
                Some(digits_value(value) as usize)
            })
        }),
{
    let ghost raw = line@.subrange(lo as int, end as int);
    let mut lo = lo;
    while lo < end && (line[lo] == ' ' || line[lo] == '\t')
        invariant
            lo <= end <= line.len(),
            trim_start_sp_tab(raw) == trim_start_sp_tab(line@.subrange(lo as int, end as int)),
        decreases end - lo,
    {
        assert(line@.subrange(lo as int, end as int).drop_first() =~= line@.subrange(lo + 1, end as int));
        lo = lo + 1;
    }
    assert(trim_start_sp_tab(line@.subrange(lo as int, end as int)) == line@.subrange(lo as int, end as int));
    let mut hi = end;
    while hi > lo && (line[hi - 1] == ' ' || line[hi - 1] == '\t')
        invariant
            lo <= hi <= end <= line.len(),
            trim_sp_tab(raw) == trim_end_sp_tab(line@.subrange(lo as int, hi as int)),
        decreases hi,
    {
        assert(line@.subrange(lo as int, hi as int).drop_last() =~= line@.subrange(lo as int, hi - 1));
        hi = hi - 1;
    }
    let ghost value = line@.subrange(lo as int, hi as int);
    assert(trim_sp_tab(raw) == value);
    if lo == hi {
        return None;
    }
    let mut d = lo;
    while d < hi
        invariant
            lo <= d <= hi <= line.len(),
            value == line@.subrange(lo as int, hi as int),
            forall|i: int| 0 <= i < d - lo ==> is_digit(#[trigger] value[i]),
        decreases hi - d,
    {
        if !('0' <= line[d] && line[d] <= '9') {
            assert(value[d - lo] == line@[d as int]);
            assert(!all_digits(value));
            return None;
        }
        d = d + 1;
    }
    assert(all_digits(value));
    match digits_u64(line, lo, hi) {
        Some(v) => {
            if v > usize::MAX as u64 {
                None
            } else {
                Some(v as usize)
            }
        },
        None => None,
    }
}

/// Reads the request head held in the first `head_end` bytes of `buf`: decodes them as UTF-8,
/// replacing invalid sequences, and validates the text as `parse_request_head` does.
pub fn read_request_head(buf: &Vec<u8>, head_end: usize) -> (r: Result<RequestHead, HeadReject>)
    requires
        head_end <= buf@.len(),
    ensures
        match r {
            Ok(h) => parse_head_spec(utf8_lossy(buf@.take(head_end as int))) == Ok::<HeadView, HeadReject>(h@),
            Err(e) => parse_head_spec(utf8_lossy(buf@.take(head_end as int))) == Err::<HeadView, HeadReject>(e),
        },
{
    let mut head: Vec<u8> = Vec::new();
    let mut i: usize = 0;
    while i < head_end
        invariant
            i <= head_end <= buf@.len(),
            head@ == buf@.take(i as int),
        decreases head_end - i,
    {
        head.push(buf[i]);
        i = i + 1;
        assert(head@ =~= buf@.take(i as int));
    }
    let text = decode_lossy(head.as_slice());
    parse_request_head(text.as_str())
}

/// Validates a request head (the text before the blank line) as the dashboard server does.
#[verifier::loop_isolation(false)]
pub fn parse_request_head(header: &str) -> (r: Result<RequestHead, HeadReject>)
    ensures
        match r {
            Ok(h) => parse_head_spec(header@) == Ok::<HeadView, HeadReject>(h@),
            Err(e) => parse_head_spec(header@) == Err::<HeadView, HeadReject>(e),
        },
{
    let cs = chars_of(header);
    let lines = split_lines(&cs);
    let ghost ls = lines_view(lines@);
    if lines.len() == 0 {
        return Err(HeadReject::Empty);
    }
    let parts = split_words(&lines[0]);
    assert(ls[0] == lines@[0]@);
    assert(lines_view(parts@).len() == parts@.len());
    if parts.len() < 2 {
        return Err(HeadReject::MalformedRequestLine);
    }
    let mut cl: Option<usize> = None;
    let mut te = false;
    let mut i: usize = 1;
    assert(ls.skip(1) =~= ls.drop_first());
    while i < lines.len()
        invariant
            1 <= i <= lines.len(),
            ls == lines_view(lines@),
            scan_fields(ls.drop_first(), None, false) == scan_fields(ls.skip(i as int), opt_nat(cl), te),
        decreases lines.len() - i,
    {
        assert(ls.skip(i as int)[0] == lines@[i as int]@);
        assert(ls.skip(i as int).drop_first() =~= ls.skip(i + 1));
        match field_line(&lines[i], cl, te) {
            Err(e) => {
                return Err(e);
            },
            Ok((c, t)) => {
                cl = c;
                te = t;
            },
        }
        i = i + 1;
    }
    assert(ls.skip(i as int) =~= Seq::<Seq<char>>::empty());
    let method = string_of(&parts[0]);
    let target = string_of(&parts[1]);
    assert(lines_view(parts@)[0] == parts@[0]@);
    assert(lines_view(parts@)[1] == parts@[1]@);
    Ok(RequestHead { method, target, content_length: cl, transfer_encoding: te })
}


// ---------------------------------------------------------------------------------------------
// The request body
// ---------------------------------------------------------------------------------------------

/// Why a request is refused after its head was accepted.
#[derive(PartialEq, Eq, Structural, Clone, Copy, Debug)]
pub enum BodyReject {
    /// A `POST` or `DELETE` announced `Transfer-Encoding`.
    UnsupportedTransferEncoding,
    /// The announced body is larger than `MAX_BODY_SIZE`.
    PayloadTooLarge,
    /// The connection ended before the announced body arrived.
    IncompleteBody,
}

/// Only `POST` and `DELETE` requests carry a body the server reads.
pub open spec fn reads_body(method: Seq<char>) -> bool {
    method == "POST"@ || method == "DELETE"@
}

/// How many body bytes the server reads for a request with this head.
pub open spec fn body_length_spec(h: HeadView) -> Result<nat, BodyReject> {
    if !reads_body(h.method) {
        Ok(0)
    } else if h.transfer_encoding {
        Err(BodyReject::UnsupportedTransferEncoding)
    } else {
        let n: nat = match h.content_length {
            Some(n) => n,
            None => 0,
        };
        if n > MAX_BODY_SIZE { Err(BodyReject::PayloadTooLarge) } else { Ok(n) }
    }
}

fn str_is(s: &String, lit: &str) -> (r: bool)
    ensures
        r == (s@ == lit@),
{
    let a = chars_of(s.as_str());
    let b = chars_of(lit);
    if a.len() != b.len() {
        return false;
    }
    let mut i: usize = 0;
    while i < a.len()
        invariant
            i <= a.len() == b.len(),
            a@ == s@,
            b@ == lit@,
            forall|j: int| 0 <= j < i ==> a@[j] == b@[j],
        decreases a.len() - i,
    {
        if a[i] != b[i] {
            return false;
        }
        i = i + 1;
    }
    assert(a@ =~= b@);
    true
}

/// The number of body bytes to read, or why the request is refused.
pub fn body_length(head: &RequestHead) -> (r: Result<usize, BodyReject>)
    ensures
        match r {
            Ok(n) => body_length_spec(head@) == Ok::<nat, BodyReject>(n as nat),
            Err(e) => body_length_spec(head@) == Err::<nat, BodyReject>(e),
        },
{
    if !(str_is(&head.method, "POST") || str_is(&head.method, "DELETE")) {
        return Ok(0);
    }
    if head.transfer_encoding {
        return Err(BodyReject::UnsupportedTransferEncoding);
    }
    let n = match head.content_length {
        Some(n) => n,
        None => 0,
    };
    if n > MAX_BODY_SIZE {
        Err(BodyReject::PayloadTooLarge)
    } else {
        Ok(n)
    }
}

/// The part of the body that arrived with the head: the bytes after the blank line, at most
/// `expected` of them.
pub fn body_prefix(buf: &Vec<u8>, head_end: usize, expected: usize) -> (r: Vec<u8>)
    requires
        head_end + 4 <= buf.len(),
    ensures
        r@ == buf@.skip(head_end + 4).take(
            if buf.len() - (head_end + 4) < expected { buf.len() - (head_end + 4) } else { expected as int },
        ),
{
    let start = head_end + 4;
    let avail = buf.len() - start;
    let take = if avail < expected { avail } else { expected };
    let mut out: Vec<u8> = Vec::new();
    let mut i: usize = 0;
    while i < take
        invariant
            i <= take <= avail,
            start + avail == buf.len(),
            out@ == buf@.skip(start as int).take(i as int),
        decreases take - i,
    {
        out.push(buf[start + i]);
        i = i + 1;
        assert(out@ =~= buf@.skip(start as int).take(i as int));
    }
    out
}

/// Refuses a body that stopped short of the announced length.
pub fn check_body(body: &Vec<u8>, expected: usize) -> (r: Result<(), BodyReject>)
    ensures
        r == (if body@.len() == expected { Ok::<(), BodyReject>(()) } else { Err(BodyReject::IncompleteBody) }),
{
    if body.len() == expected {
        Ok(())
    } else {
        Err(BodyReject::IncompleteBody)
    }
}

/// The head of a request as framing reads it from the bytes received so far.
pub open spec fn framed_head(buf: Seq<u8>, end: nat) -> Result<HeadView, HeadReject> {
    parse_head_spec(utf8_lossy(buf.take(end as int)))
}

/// Frames a request from the bytes read before the head was complete: where the head ends,
/// what it says, and how many body bytes follow. Every fault of the head is answered by its
/// refusal before the request can reach the dashboard's state: no blank line ends the head
/// (`IncompleteHead`); the head is invalid (`Head`, see `parse_request_head`); the body's
/// framing is not supported (`Body`, see `body_length`).
pub fn frame_request(buf: &Vec<u8>) -> (r: Result<(RequestHead, usize, usize), Refusal>)
    ensures
        r matches Ok(v) ==> {
            &&& head_end(buf@) == Some(v.1 as nat)
            &&& v.1 + 4 <= buf@.len()
            &&& framed_head(buf@, v.1 as nat) == Ok::<HeadView, HeadReject>(v.0@)
            &&& body_length_spec(v.0@) == Ok::<nat, BodyReject>(v.2 as nat)
        },
        r matches Err(f) ==> match f {
            Refusal::IncompleteHead => head_end(buf@) is None,
            Refusal::Head(e) => head_end(buf@) matches Some(end) && framed_head(buf@, end) == Err::<HeadView, HeadReject>(e),
            Refusal::Body(b) => head_end(buf@) matches Some(end) && (framed_head(buf@, end) matches Ok(h)
                && body_length_spec(h) == Err::<nat, BodyReject>(b)),
            _ => false,
        },
{
    let end = match find_head_end(buf) {
        Some(e) => e,
        None => return Err(Refusal::IncompleteHead),
    };
    let total = buf.len();
    let ghost q = head_end(buf@)->0;
    assert(head_end(buf@) is Some);
    assert(q + 4 <= total);
    assert(q + 4 <= buf@.len());
    assert(q == end as nat);
    let head = match read_request_head(buf, end) {
        Ok(h) => h,
        Err(e) => {
            assert(framed_head(buf@, q) == Err::<HeadView, HeadReject>(e));
            return Err(Refusal::Head(e));
        },
    };
    match body_length(&head) {
        Ok(n) => Ok((head, end, n)),
        Err(b) => Err(Refusal::Body(b)),
    }
}

// ---------------------------------------------------------------------------------------------
// Routing
// ---------------------------------------------------------------------------------------------

/// Translations the dashboard is shipped with.
#[derive(PartialEq, Eq, Structural, Clone, Copy, Debug)]
pub enum Locale {
    En,
    Ru,
    De,
    Fr,
    Es,
    PtBr,
    ZhCn,
    Ja,
}

/// Static files the server hands out.
#[derive(PartialEq, Eq, Structural, Clone, Copy, Debug)]
pub enum Asset {
    Dashboard,
    Stylesheet,
    Script,
    Translations,
    Locale(Locale),
}

/// What a request asks for; `head` marks a `HEAD` request, answered without a body.
#[derive(PartialEq, Eq, Structural, Clone, Copy, Debug)]
pub enum Route {
    Asset { asset: Asset, head: bool },
    Status { head: bool },
    ListCategories,
    EditCategories,
    Categorize,
    KeyStatus,
    SetKey,
    NotFound,
}

/// The path of a request target: everything before the first `?`.
pub open spec fn clean_path(target: Seq<char>) -> Seq<char> {
    target.take(char_index(target, '?') as int)
}

pub open spec fn locale_spec(p: Seq<char>) -> Option<Locale> {
    if p == "/locales/en.json"@ { Some(Locale::En) }
    else if p == "/locales/ru.json"@ { Some(Locale::Ru) }
    else if p == "/locales/de.json"@ { Some(Locale::De) }
    else if p == "/locales/fr.json"@ { Some(Locale::Fr) }
    else if p == "/locales/es.json"@ { Some(Locale::Es) }
    else if p == "/locales/pt-BR.json"@ { Some(Locale::PtBr) }
    else if p == "/locales/zh-CN.json"@ { Some(Locale::ZhCn) }
    else if p == "/locales/ja.json"@ { Some(Locale::Ja) }
    else { None }
}

/// The static file a `GET` or `HEAD` of path `p` names, if any.
pub open spec fn asset_spec(p: Seq<char>) -> Option<Asset> {
    if p == "/"@ || p == "/index.html"@ { Some(Asset::Dashboard) }
    else if p == "/dashboard.css"@ { Some(Asset::Stylesheet) }
    else if p == "/dashboard.js"@ { Some(Asset::Script) }
    else if p == "/i18n.js"@ { Some(Asset::Translations) }
    else {
        match locale_spec(p) {
            Some(l) => Some(Asset::Locale(l)),
            None => None,
        }
    }
}

/// The route of a request: method and path must both match; anything else is not found.
pub open spec fn route_spec(method: Seq<char>, target: Seq<char>) -> Route {
    let p = clean_path(target);
    let get = method == "GET"@;
    let head = method == "HEAD"@;
    if (get || head) && asset_spec(p) is Some {
        Route::Asset { asset: asset_spec(p)->0, head }
    } else if (get || head) && p == "/api/status"@ {
        Route::Status { head }
    } else if get && p == "/api/categories"@ {
        Route::ListCategories
    } else if reads_body(method) && p == "/api/categories"@ {
        Route::EditCategories
    } else if method == "POST"@ && p == "/api/categorize"@ {
        Route::Categorize
    } else if get && p == "/api/key-status"@ {
        Route::KeyStatus
    } else if method == "POST"@ && p == "/api/key"@ {
        Route::SetKey
    } else {
        Route::NotFound
    }
}

fn locale_of(p: &String) -> (r: Option<Locale>)
    ensures
        r == locale_spec(p@),
{
    if str_is(p, "/locales/en.json") { Some(Locale::En) }
    else if str_is(p, "/locales/ru.json") { Some(Locale::Ru) }
    else if str_is(p, "/locales/de.json") { Some(Locale::De) }
    else if str_is(p, "/locales/fr.json") { Some(Locale::Fr) }
    else if str_is(p, "/locales/es.json") { Some(Locale::Es) }
    else if str_is(p, "/locales/pt-BR.json") { Some(Locale::PtBr) }
    else if str_is(p, "/locales/zh-CN.json") { Some(Locale::ZhCn) }
    else if str_is(p, "/locales/ja.json") { Some(Locale::Ja) }
    else { None }
}

fn asset_of(p: &String) -> (r: Option<Asset>)
    ensures
        r == asset_spec(p@),
{
    if str_is(p, "/") || str_is(p, "/index.html") { Some(Asset::Dashboard) }
    else if str_is(p, "/dashboard.css") { Some(Asset::Stylesheet) }
    else if str_is(p, "/dashboard.js") { Some(Asset::Script) }
    else if str_is(p, "/i18n.js") { Some(Asset::Translations) }
    else {
        match locale_of(p) {
            Some(l) => Some(Asset::Locale(l)),
            None => None,
        }
    }
}

/// The path at which each static file is served.
pub open spec fn asset_path(a: Asset) -> Seq<char> {
    match a {
        Asset::Dashboard => "/"@,
        Asset::Stylesheet => "/dashboard.css"@,
        Asset::Script => "/dashboard.js"@,
        Asset::Translations => "/i18n.js"@,
        Asset::Locale(l) => match l {
        Locale::En => "/locales/en.json"@,
        Locale::Ru => "/locales/ru.json"@,
        Locale::De => "/locales/de.json"@,
        Locale::Fr => "/locales/fr.json"@,
        Locale::Es => "/locales/es.json"@,
        Locale::PtBr => "/locales/pt-BR.json"@,
        Locale::ZhCn => "/locales/zh-CN.json"@,
        Locale::Ja => "/locales/ja.json"@,
        },
    }
}

/// `s` ends with `ext`.
pub open spec fn ends_with(s: Seq<char>, ext: Seq<char>) -> bool {
    s.len() >= ext.len() && s.skip(s.len() - ext.len()) == ext
}

proof fn lemma_asset_paths_distinct(a: Asset)
    ensures
        char_index(asset_path(a), '?') == asset_path(a).len(),
        asset_spec(asset_path(a)) == Some(a),
        asset_path(a) != "/api/status"@,
{
    reveal_strlit("/");
    reveal_strlit("/index.html");
    reveal_strlit("/dashboard.css");
    reveal_strlit("/dashboard.js");
    reveal_strlit("/i18n.js");
    reveal_strlit("/locales/en.json");
    reveal_strlit("/locales/ru.json");
    reveal_strlit("/locales/de.json");
    reveal_strlit("/locales/fr.json");
    reveal_strlit("/locales/es.json");
    reveal_strlit("/locales/pt-BR.json");
    reveal_strlit("/locales/zh-CN.json");
    reveal_strlit("/locales/ja.json");
    reveal_strlit("/api/status");
    let p = asset_path(a);
    lemma_char_index(p, '?', p.len() as int);
    if p.len() == 16 || p.len() == 19 {
        // The locale files differ in their language tag.
        assert(p[9] != "/locales/en.json"@[9] || p[10] != "/locales/en.json"@[10] || p == "/locales/en.json"@);
        assert(p[9] != "/locales/ru.json"@[9] || p[10] != "/locales/ru.json"@[10] || p == "/locales/ru.json"@);
        assert(p[9] != "/locales/de.json"@[9] || p[10] != "/locales/de.json"@[10] || p == "/locales/de.json"@);
        assert(p[9] != "/locales/fr.json"@[9] || p[10] != "/locales/fr.json"@[10] || p == "/locales/fr.json"@);
        assert(p[9] != "/locales/es.json"@[9] || p[10] != "/locales/es.json"@[10] || p == "/locales/es.json"@);
        assert(p[9] != "/locales/pt-BR.json"@[9] || p[10] != "/locales/pt-BR.json"@[10] || p == "/locales/pt-BR.json"@);
        assert(p[9] != "/locales/zh-CN.json"@[9] || p[10] != "/locales/zh-CN.json"@[10] || p == "/locales/zh-CN.json"@);
        assert(p[9] != "/locales/ja.json"@[9] || p[10] != "/locales/ja.json"@[10] || p == "/locales/ja.json"@);
    }
}

proof fn lemma_asset_spec_path(p: Seq<char>, a: Asset)
    requires
        asset_spec(p) == Some(a),
    ensures
        p == asset_path(a) || (a == Asset::Dashboard && p == "/index.html"@),
{
}

proof fn lemma_static_path_types(p: Seq<char>, a: Asset)
    requires
        asset_spec(p) == Some(a),
    ensures
        ends_with(p, ".js"@) ==> content_type_spec(a) == "text/javascript; charset=utf-8"@,
        ends_with(p, ".css"@) ==> content_type_spec(a) == "text/css; charset=utf-8"@,
        ends_with(p, ".json"@) ==> content_type_spec(a) == "application/json; charset=utf-8"@,
        (p == "/"@ || ends_with(p, ".html"@)) ==> content_type_spec(a) == "text/html; charset=utf-8"@,
{
    lemma_asset_spec_path(p, a);
    reveal_strlit("/");
    reveal_strlit("/index.html");
    reveal_strlit("/dashboard.css");
    reveal_strlit("/dashboard.js");
    reveal_strlit("/i18n.js");
    reveal_strlit("/locales/en.json");
    reveal_strlit("/locales/ru.json");
    reveal_strlit("/locales/de.json");
    reveal_strlit("/locales/fr.json");
    reveal_strlit("/locales/es.json");
    reveal_strlit("/locales/pt-BR.json");
    reveal_strlit("/locales/zh-CN.json");
    reveal_strlit("/locales/ja.json");
    reveal_strlit(".js");
    reveal_strlit(".css");
    reveal_strlit(".json");
    reveal_strlit(".html");
    let n = p.len() as int;
    if ends_with(p, ".js"@) {
        assert(p.skip(n - 3)[0] == p[n - 3] && p.skip(n - 3)[2] == p[n - 1]);
    }
    if ends_with(p, ".css"@) {
        assert(p.skip(n - 4)[0] == p[n - 4] && p.skip(n - 4)[3] == p[n - 1]);
    }
    if ends_with(p, ".json"@) {
        assert(p.skip(n - 5)[0] == p[n - 5] && p.skip(n - 5)[4] == p[n - 1]);
    }
    if ends_with(p, ".html"@) {
        assert(p.skip(n - 5)[0] == p[n - 5] && p.skip(n - 5)[4] == p[n - 1]);
    }
}

/// Each static file is served at its own path, to `GET` and to `HEAD`; and whatever target
/// names a static file, the file's content type agrees with the extension of the target's
/// path (`.js` is JavaScript, `.css` a stylesheet, `.json` JSON, `/` and `.html` the page).
pub proof fn static_paths_name_their_files(a: Asset, method: Seq<char>, target: Seq<char>)
    ensures
        route_spec("GET"@, asset_path(a)) == (Route::Asset { asset: a, head: false }),
        route_spec("HEAD"@, asset_path(a)) == (Route::Asset { asset: a, head: true }),
        route_spec(method, target) matches Route::Asset { asset, .. } ==> {
            let p = clean_path(target);
            &&& ends_with(p, ".js"@) ==> content_type_spec(asset) == "text/javascript; charset=utf-8"@
            &&& ends_with(p, ".css"@) ==> content_type_spec(asset) == "text/css; charset=utf-8"@
            &&& ends_with(p, ".json"@) ==> content_type_spec(asset) == "application/json; charset=utf-8"@
            &&& (p == "/"@ || ends_with(p, ".html"@)) ==> content_type_spec(asset) == "text/html; charset=utf-8"@
        },
{
    reveal_strlit("GET");
    reveal_strlit("HEAD");
    assert("GET"@.len() == 3 && "HEAD"@.len() == 4);
    assert("GET"@ != "HEAD"@);
    lemma_asset_paths_distinct(a);
    assert(clean_path(asset_path(a)) =~= asset_path(a));
    let g = route_spec("GET"@, asset_path(a));
    assert(g == (Route::Asset { asset: a, head: false }));
    if route_spec(method, target) is Asset {
        let p = clean_path(target);
        lemma_static_path_types(p, asset_spec(p)->0);
    }
}

proof fn lemma_api_paths_are_not_files(p: Seq<char>)
    requires
        p.len() > 1 && p[1] == 'a',
    ensures
        asset_spec(p) is None,
{
    reveal_strlit("/");
    reveal_strlit("/index.html");
    reveal_strlit("/dashboard.css");
    reveal_strlit("/dashboard.js");
    reveal_strlit("/i18n.js");
    reveal_strlit("/locales/en.json");
    reveal_strlit("/locales/ru.json");
    reveal_strlit("/locales/de.json");
    reveal_strlit("/locales/fr.json");
    reveal_strlit("/locales/es.json");
    reveal_strlit("/locales/pt-BR.json");
    reveal_strlit("/locales/zh-CN.json");
    reveal_strlit("/locales/ja.json");
    reveal_strlit("/api/status");
    reveal_strlit("/api/categories");
    reveal_strlit("/api/categorize");
    reveal_strlit("/api/key-status");
    reveal_strlit("/api/key");
    reveal_strlit("GET");
    reveal_strlit("HEAD");
    reveal_strlit("POST");
    reveal_strlit("DELETE");
}

/// The API endpoints answer their own paths and methods, whatever the query string: `GET` and
/// `HEAD` of `/api/status` the status (without a body for `HEAD`); `GET` of `/api/categories`
/// the list of categories, `POST` and `DELETE` of it an edit; `POST` of `/api/categorize` a
/// categorization; `GET` of `/api/key-status` the key status; `POST` of `/api/key` a new key.
/// Conversely each of these routes comes only from its path and methods, and a static file
/// only from `GET` or `HEAD`.
pub proof fn api_routes_follow_path_and_method(method: Seq<char>, target: Seq<char>)
    ensures
        ({
            let p = clean_path(target);
            let r = route_spec(method, target);
            &&& (method == "GET"@ || method == "HEAD"@) && p == "/api/status"@ ==> r == (Route::Status { head: method == "HEAD"@ })
            &&& method == "GET"@ && p == "/api/categories"@ ==> r == Route::ListCategories
            &&& (method == "POST"@ || method == "DELETE"@) && p == "/api/categories"@ ==> r == Route::EditCategories
            &&& method == "POST"@ && p == "/api/categorize"@ ==> r == Route::Categorize
            &&& method == "GET"@ && p == "/api/key-status"@ ==> r == Route::KeyStatus
            &&& method == "POST"@ && p == "/api/key"@ ==> r == Route::SetKey
            &&& r is Status ==> p == "/api/status"@ && (method == "GET"@ || method == "HEAD"@)
            &&& r is ListCategories ==> p == "/api/categories"@ && method == "GET"@
            &&& r is EditCategories ==> p == "/api/categories"@ && (method == "POST"@ || method == "DELETE"@)
            &&& r is Categorize ==> p == "/api/categorize"@ && method == "POST"@
            &&& r is KeyStatus ==> p == "/api/key-status"@ && method == "GET"@
            &&& r is SetKey ==> p == "/api/key"@ && method == "POST"@
            &&& r matches Route::Asset { head, .. } ==> (method == "GET"@ || method == "HEAD"@) && head == (method == "HEAD"@)
        }),
{
    reveal_strlit("/");
    reveal_strlit("/index.html");
    reveal_strlit("/dashboard.css");
    reveal_strlit("/dashboard.js");
    reveal_strlit("/i18n.js");
    reveal_strlit("/locales/en.json");
    reveal_strlit("/locales/ru.json");
    reveal_strlit("/locales/de.json");
    reveal_strlit("/locales/fr.json");
    reveal_strlit("/locales/es.json");
    reveal_strlit("/locales/pt-BR.json");
    reveal_strlit("/locales/zh-CN.json");
    reveal_strlit("/locales/ja.json");
    reveal_strlit("/api/status");
    reveal_strlit("/api/categories");
    reveal_strlit("/api/categorize");
    reveal_strlit("/api/key-status");
    reveal_strlit("/api/key");
    reveal_strlit("GET");
    reveal_strlit("HEAD");
    reveal_strlit("POST");
    reveal_strlit("DELETE");
    let p = clean_path(target);
    assert("HEAD"@[0] != "POST"@[0] && "GET"@.len() == 3 && "DELETE"@.len() == 6);
    assert("/api/categories"@[13] != "/api/categorize"@[13] && "/api/categories"@[5] != "/api/key-status"@[5]);
    assert("/api/categorize"@[5] != "/api/key-status"@[5]);
    if p.len() > 1 && p[1] == 'a' {
        lemma_api_paths_are_not_files(p);
    }
}

/// The path part of a request target (before the first `?`).
pub fn path_of(target: &str) -> (r: String)
    ensures
        r@ == clean_path(target@),
{
    let cs = chars_of(target);
    let mut j: usize = 0;
    while j < cs.len() && cs[j] != '?'
        invariant
            j <= cs.len(),
            forall|i: int| 0 <= i < j ==> cs@[i] != '?',
        decreases cs.len() - j,
    {
        j = j + 1;
    }
    proof {
        lemma_char_index(cs@, '?', j as int);
    }
    let mut out = String::new();
    let mut k: usize = 0;
    while k < j
        invariant
            k <= j <= cs.len(),
            out@ == cs@.take(k as int),
        decreases j - k,
    {
        push_char(&mut out, cs[k]);
        k = k + 1;
        assert(out@ =~= cs@.take(k as int));
    }
    out
}

/// Routes a request by its method and target.
pub fn route(method: &str, target: &str) -> (r: Route)
    ensures
        r == route_spec(method@, target@),
{
    let p = path_of(target);
    let m = owned_string(method);
    let get = str_is(&m, "GET");
    let head = str_is(&m, "HEAD");
    let post = str_is(&m, "POST");
    let delete = str_is(&m, "DELETE");
    if get || head {
        match asset_of(&p) {
            Some(asset) => {
                return Route::Asset { asset, head };
            },
            None => {},
        }
        if str_is(&p, "/api/status") {
            return Route::Status { head };
        }
    }
    if get && str_is(&p, "/api/categories") {
        Route::ListCategories
    } else if (post || delete) && str_is(&p, "/api/categories") {
        Route::EditCategories
    } else if post && str_is(&p, "/api/categorize") {
        Route::Categorize
    } else if get && str_is(&p, "/api/key-status") {
        Route::KeyStatus
    } else if post && str_is(&p, "/api/key") {
        Route::SetKey
    } else {
        Route::NotFound
    }
}

fn owned_string(s: &str) -> (r: String)
    ensures
        r@ == s@,
{
    s.to_owned()
}


// ---------------------------------------------------------------------------------------------
// Responses
// ---------------------------------------------------------------------------------------------

/// The fixed answers the server sends when it cannot serve a request.
#[derive(PartialEq, Eq, Structural, Clone, Copy, Debug)]
pub enum Refusal {
    /// All connection slots are taken.
    Busy,
    /// The head did not arrive in time.
    HeadTimeout,
    /// The head grew past its limit or could not be read.
    HeadUnreadable,
    /// The connection ended before the head was complete.
    IncompleteHead,
    Head(HeadReject),
    Body(BodyReject),
    /// The body did not arrive in time.
    BodyTimeout,
    NotFound,
}

/// The exact bytes of each refusal.
pub open spec fn refusal_text(r: Refusal) -> Seq<char> {
    match r {
        Refusal::Busy => "HTTP/1.1 503 Service Unavailable\r\nContent-Length: 19\r\nConnection: close\r\n\r\nService Unavailable"@,
        Refusal::HeadTimeout => "HTTP/1.1 408 Request Timeout\r\nContent-Length: 0\r\nConnection: close\r\n\r\n"@,
        Refusal::HeadUnreadable => "HTTP/1.1 400 Bad Request\r\nContent-Length: 11\r\nConnection: close\r\n\r\nBad Request"@,
        Refusal::IncompleteHead => "HTTP/1.1 400 Bad Request\r\nContent-Length: 26\r\nConnection: close\r\n\r\nIncomplete Request Headers"@,
        Refusal::Head(h) => match h {
            HeadReject::Empty => "HTTP/1.1 400 Bad Request\r\nContent-Length: 0\r\nConnection: close\r\n\r\n"@,
            HeadReject::MalformedRequestLine => "HTTP/1.1 400 Bad Request\r\nContent-Length: 0\r\nConnection: close\r\n\r\n"@,
            HeadReject::InvalidFieldLine => "HTTP/1.1 400 Bad Request\r\nContent-Length: 26\r\nConnection: close\r\n\r\nInvalid Header Field Line"@,
            HeadReject::InvalidFieldSyntax => "HTTP/1.1 400 Bad Request\r\nContent-Length: 28\r\nConnection: close\r\n\r\nInvalid Header Field Syntax"@,
            HeadReject::DuplicateContentLength => "HTTP/1.1 400 Bad Request\r\nContent-Length: 24\r\nConnection: close\r\n\r\nDuplicate Content-Length"@,
            HeadReject::InvalidContentLength => "HTTP/1.1 400 Bad Request\r\nContent-Length: 22\r\nConnection: close\r\n\r\nInvalid Content-Length"@,
        },
        Refusal::Body(b) => match b {
            BodyReject::UnsupportedTransferEncoding => "HTTP/1.1 400 Bad Request\r\nContent-Length: 29\r\nConnection: close\r\n\r\nUnsupported Transfer-Encoding"@,
            BodyReject::PayloadTooLarge => "HTTP/1.1 413 Payload Too Large\r\nContent-Length: 17\r\nConnection: close\r\n\r\nPayload Too Large"@,
            BodyReject::IncompleteBody => "HTTP/1.1 400 Bad Request\r\nContent-Length: 15\r\nConnection: close\r\n\r\nIncomplete Body"@,
        },
        Refusal::BodyTimeout => "HTTP/1.1 408 Request Timeout\r\nContent-Length: 15\r\nConnection: close\r\n\r\nRequest Timeout"@,
        Refusal::NotFound => "HTTP/1.1 404 Not Found\r\nContent-Length: 9\r\nConnection: close\r\n\r\nNot Found"@,
    }
}

/// The status line each refusal answers with: a fault of the request's framing is
/// `400 Bad Request`, a body over the limit `413`, a request too slow to arrive `408`, an
/// unknown route `404`, and a server without a free connection slot `503`; every refusal
/// closes the connection.
pub proof fn refusals_answer_with_their_status(r: Refusal)
    ensures
        ({
            let t = refusal_text(r);
            let line: Seq<char> = match r {
                Refusal::Busy => "HTTP/1.1 503 Service Unavailable\r\n"@,
                Refusal::HeadTimeout | Refusal::BodyTimeout => "HTTP/1.1 408 Request Timeout\r\n"@,
                Refusal::NotFound => "HTTP/1.1 404 Not Found\r\n"@,
                Refusal::Body(BodyReject::PayloadTooLarge) => "HTTP/1.1 413 Payload Too Large\r\n"@,
                _ => "HTTP/1.1 400 Bad Request\r\n"@,
            };
            t.len() >= line.len() && t.take(line.len() as int) == line
        }),
{
    reveal_strlit("HTTP/1.1 503 Service Unavailable\r\n");
    reveal_strlit("HTTP/1.1 408 Request Timeout\r\n");
    reveal_strlit("HTTP/1.1 404 Not Found\r\n");
    reveal_strlit("HTTP/1.1 413 Payload Too Large\r\n");
    reveal_strlit("HTTP/1.1 400 Bad Request\r\n");
    reveal_strlit("HTTP/1.1 503 Service Unavailable\r\nContent-Length: 19\r\nConnection: close\r\n\r\nService Unavailable");
    reveal_strlit("HTTP/1.1 408 Request Timeout\r\nContent-Length: 0\r\nConnection: close\r\n\r\n");
    reveal_strlit("HTTP/1.1 400 Bad Request\r\nContent-Length: 11\r\nConnection: close\r\n\r\nBad Request");
    reveal_strlit("HTTP/1.1 400 Bad Request\r\nContent-Length: 26\r\nConnection: close\r\n\r\nIncomplete Request Headers");
    reveal_strlit("HTTP/1.1 400 Bad Request\r\nContent-Length: 0\r\nConnection: close\r\n\r\n");
    reveal_strlit("HTTP/1.1 400 Bad Request\r\nContent-Length: 26\r\nConnection: close\r\n\r\nInvalid Header Field Line");
    reveal_strlit("HTTP/1.1 400 Bad Request\r\nContent-Length: 28\r\nConnection: close\r\n\r\nInvalid Header Field Syntax");
    reveal_strlit("HTTP/1.1 400 Bad Request\r\nContent-Length: 24\r\nConnection: close\r\n\r\nDuplicate Content-Length");
    reveal_strlit("HTTP/1.1 400 Bad Request\r\nContent-Length: 22\r\nConnection: close\r\n\r\nInvalid Content-Length");
    reveal_strlit("HTTP/1.1 400 Bad Request\r\nContent-Length: 29\r\nConnection: close\r\n\r\nUnsupported Transfer-Encoding");
    reveal_strlit("HTTP/1.1 413 Payload Too Large\r\nContent-Length: 17\r\nConnection: close\r\n\r\nPayload Too Large");
    reveal_strlit("HTTP/1.1 400 Bad Request\r\nContent-Length: 15\r\nConnection: close\r\n\r\nIncomplete Body");
    reveal_strlit("HTTP/1.1 408 Request Timeout\r\nContent-Length: 15\r\nConnection: close\r\n\r\nRequest Timeout");
    reveal_strlit("HTTP/1.1 404 Not Found\r\nContent-Length: 9\r\nConnection: close\r\n\r\nNot Found");
    let t = refusal_text(r);
    let line: Seq<char> = match r {
        Refusal::Busy => "HTTP/1.1 503 Service Unavailable\r\n"@,
        Refusal::HeadTimeout | Refusal::BodyTimeout => "HTTP/1.1 408 Request Timeout\r\n"@,
        Refusal::NotFound => "HTTP/1.1 404 Not Found\r\n"@,
        Refusal::Body(BodyReject::PayloadTooLarge) => "HTTP/1.1 413 Payload Too Large\r\n"@,
        _ => "HTTP/1.1 400 Bad Request\r\n"@,
    };
    assert(t.take(line.len() as int) =~= line);
}

impl Refusal {
    /// The response that answers this refusal.
    pub fn response(&self) -> (r: &'static str)
        ensures
            r@ == refusal_text(*self),
    {
        match self {
            Refusal::Busy => "HTTP/1.1 503 Service Unavailable\r\nContent-Length: 19\r\nConnection: close\r\n\r\nService Unavailable",
            Refusal::HeadTimeout => "HTTP/1.1 408 Request Timeout\r\nContent-Length: 0\r\nConnection: close\r\n\r\n",
            Refusal::HeadUnreadable => "HTTP/1.1 400 Bad Request\r\nContent-Length: 11\r\nConnection: close\r\n\r\nBad Request",
            Refusal::IncompleteHead => "HTTP/1.1 400 Bad Request\r\nContent-Length: 26\r\nConnection: close\r\n\r\nIncomplete Request Headers",
            Refusal::Head(h) => match h {
                HeadReject::Empty => "HTTP/1.1 400 Bad Request\r\nContent-Length: 0\r\nConnection: close\r\n\r\n",
                HeadReject::MalformedRequestLine => "HTTP/1.1 400 Bad Request\r\nContent-Length: 0\r\nConnection: close\r\n\r\n",
                HeadReject::InvalidFieldLine => "HTTP/1.1 400 Bad Request\r\nContent-Length: 26\r\nConnection: close\r\n\r\nInvalid Header Field Line",
                HeadReject::InvalidFieldSyntax => "HTTP/1.1 400 Bad Request\r\nContent-Length: 28\r\nConnection: close\r\n\r\nInvalid Header Field Syntax",
                HeadReject::DuplicateContentLength => "HTTP/1.1 400 Bad Request\r\nContent-Length: 24\r\nConnection: close\r\n\r\nDuplicate Content-Length",
                HeadReject::InvalidContentLength => "HTTP/1.1 400 Bad Request\r\nContent-Length: 22\r\nConnection: close\r\n\r\nInvalid Content-Length",
            },
            Refusal::Body(b) => match b {
                BodyReject::UnsupportedTransferEncoding => "HTTP/1.1 400 Bad Request\r\nContent-Length: 29\r\nConnection: close\r\n\r\nUnsupported Transfer-Encoding",
                BodyReject::PayloadTooLarge => "HTTP/1.1 413 Payload Too Large\r\nContent-Length: 17\r\nConnection: close\r\n\r\nPayload Too Large",
                BodyReject::IncompleteBody => "HTTP/1.1 400 Bad Request\r\nContent-Length: 15\r\nConnection: close\r\n\r\nIncomplete Body",
            },
            Refusal::BodyTimeout => "HTTP/1.1 408 Request Timeout\r\nContent-Length: 15\r\nConnection: close\r\n\r\nRequest Timeout",
            Refusal::NotFound => "HTTP/1.1 404 Not Found\r\nContent-Length: 9\r\nConnection: close\r\n\r\nNot Found",
        }
    }
}

/// The reason phrase the server writes after a status code.
pub open spec fn reason_phrase(code: u16) -> Seq<char> {
    if code == 200 { "OK"@ }
    else if code == 400 { "Bad Request"@ }
    else if code == 404 { "Not Found"@ }
    else if code == 405 { "Method Not Allowed"@ }
    else if code == 502 { "Bad Gateway"@ }
    else if code == 503 { "Service Unavailable"@ }
    else { "Status"@ }
}

fn reason_phrase_of(code: u16) -> (r: &'static str)
    ensures
        r@ == reason_phrase(code),
{
    if code == 200 { "OK" }
    else if code == 400 { "Bad Request" }
    else if code == 404 { "Not Found" }
    else if code == 405 { "Method Not Allowed" }
    else if code == 502 { "Bad Gateway" }
    else if code == 503 { "Service Unavailable" }
    else { "Status" }
}

/// The head of a JSON answer from the API.
pub open spec fn json_head_spec(code: u16, body_len: nat) -> Seq<char> {
    "HTTP/1.1 "@ + decimal(code as nat) + " "@ + reason_phrase(code)
        + "\r\nContent-Type: application/json; charset=utf-8\r\nContent-Length: "@ + decimal(body_len)
        + "\r\nConnection: close\r\nCache-Control: no-store\r\nX-Content-Type-Options: nosniff\r\nAccess-Control-Allow-Origin: *\r\n\r\n"@
}

/// Formats the head of a JSON answer with the given status and body length.
pub fn json_head(code: u16, body_len: usize) -> (r: String)
    ensures
        r@ == json_head_spec(code, body_len as nat),
{
    let mut out = String::new();
    out.append("HTTP/1.1 ");
    let c = decimal_string(code as u64);
    out.append(c.as_str());
    out.append(" ");
    out.append(reason_phrase_of(code));
    out.append("\r\nContent-Type: application/json; charset=utf-8\r\nContent-Length: ");
    let n = decimal_string(body_len as u64);
    out.append(n.as_str());
    out.append("\r\nConnection: close\r\nCache-Control: no-store\r\nX-Content-Type-Options: nosniff\r\nAccess-Control-Allow-Origin: *\r\n\r\n");
    out
}

/// The media type of a static file.
pub open spec fn content_type_spec(a: Asset) -> Seq<char> {
    match a {
        Asset::Dashboard => "text/html; charset=utf-8"@,
        Asset::Stylesheet => "text/css; charset=utf-8"@,
        Asset::Script => "text/javascript; charset=utf-8"@,
        Asset::Translations => "text/javascript; charset=utf-8"@,
        Asset::Locale(_) => "application/json; charset=utf-8"@,
    }
}

fn content_type_of(a: Asset) -> (r: &'static str)
    ensures
        r@ == content_type_spec(a),
{
    match a {
        Asset::Dashboard => "text/html; charset=utf-8",
        Asset::Stylesheet => "text/css; charset=utf-8",
        Asset::Script => "text/javascript; charset=utf-8",
        Asset::Translations => "text/javascript; charset=utf-8",
        Asset::Locale(_) => "application/json; charset=utf-8",
    }
}

/// The head of a successful answer carrying a static file: the dashboard page is never cached,
/// the other files are revalidated.
pub open spec fn asset_head_spec(a: Asset, body_len: nat) -> Seq<char> {
    let cache = if a == Asset::Dashboard {
        "Cache-Control: no-cache, no-store, must-revalidate\r\nPragma: no-cache\r\nExpires: 0\r\n"@
    } else {
        "Cache-Control: no-cache\r\n"@
    };
    "HTTP/1.1 200 OK\r\nContent-Type: "@ + content_type_spec(a) + "\r\nContent-Length: "@ + decimal(body_len)
        + "\r\nConnection: close\r\n"@ + cache + "X-Content-Type-Options: nosniff\r\n\r\n"@
}

/// Formats the head of the answer that carries a static file.
pub fn asset_head(a: Asset, body_len: usize) -> (r: String)
    ensures
        r@ == asset_head_spec(a, body_len as nat),
{
    let mut out = String::new();
    out.append("HTTP/1.1 200 OK\r\nContent-Type: ");
    out.append(content_type_of(a));
    out.append("\r\nContent-Length: ");
    let n = decimal_string(body_len as u64);
    out.append(n.as_str());
    out.append("\r\nConnection: close\r\n");
    if a == Asset::Dashboard {
        out.append("Cache-Control: no-cache, no-store, must-revalidate\r\nPragma: no-cache\r\nExpires: 0\r\n");
    } else {
        out.append("Cache-Control: no-cache\r\n");
    }
    out.append("X-Content-Type-Options: nosniff\r\n\r\n");
    out
}

/// The head of the answer to `/api/status`: never cached, readable from any origin.
pub open spec fn status_head_spec(body_len: nat) -> Seq<char> {
    "HTTP/1.1 200 OK\r\nContent-Type: application/json; charset=utf-8\r\nContent-Length: "@ + decimal(body_len)
        + "\r\nConnection: close\r\nCache-Control: no-cache, no-store, must-revalidate\r\nPragma: no-cache\r\nExpires: 0\r\nX-Content-Type-Options: nosniff\r\nAccess-Control-Allow-Origin: *\r\n\r\n"@
}

/// Formats the head of the answer to `/api/status`.
pub fn status_head(body_len: usize) -> (r: String)
    ensures
        r@ == status_head_spec(body_len as nat),
{
    let mut out = String::new();
    out.append("HTTP/1.1 200 OK\r\nContent-Type: application/json; charset=utf-8\r\nContent-Length: ");
    let n = decimal_string(body_len as u64);
    out.append(n.as_str());
    out.append("\r\nConnection: close\r\nCache-Control: no-cache, no-store, must-revalidate\r\nPragma: no-cache\r\nExpires: 0\r\nX-Content-Type-Options: nosniff\r\nAccess-Control-Allow-Origin: *\r\n\r\n");
    out
}

// ---------------------------------------------------------------------------------------------
// The query string
// ---------------------------------------------------------------------------------------------

/// The pieces of `s` between occurrences of `sep`, as `str::split` yields them.
pub open spec fn split_spec(s: Seq<char>, sep: char) -> Seq<Seq<char>>
    decreases s.len(),
{
    let j = char_index(s, sep);
    if j < s.len() {
        seq![s.take(j as int)] + split_spec(s.skip(j + 1 as int), sep)
    } else {
        seq![s]
    }
}

pub(crate) proof fn lemma_char_index_bound(s: Seq<char>, c: char)
    ensures
        char_index(s, c) <= s.len(),
        char_index(s, c) < s.len() ==> s[char_index(s, c) as int] == c,
        forall|i: int| 0 <= i < char_index(s, c) ==> s[i] != c,
    decreases s.len(),
{
    if s.len() > 0 && s[0] != c {
        lemma_char_index_bound(s.drop_first(), c);
        assert forall|i: int| 0 <= i < char_index(s, c) implies s[i] != c by {
            if i > 0 {
                assert(s[i] == s.drop_first()[i - 1]);
            }
        }
    }
}

/// Splits `s` at each `sep`.
pub fn split_on(s: &Vec<char>, sep: char) -> (r: Vec<Vec<char>>)
    ensures
        lines_view(r@) == split_spec(s@, sep),
{
    let n = s.len();
    let mut out: Vec<Vec<char>> = Vec::new();
    let mut cur: Vec<char> = Vec::new();
    let mut start: usize = 0;
    let mut i: usize = 0;
    assert(s@.skip(0) =~= s@);
    while i < n
        invariant
            n == s.len(),
            start <= i <= n,
            cur@ == s@.subrange(start as int, i as int),
            forall|k: int| start <= k < i ==> s@[k] != sep,
            split_spec(s@, sep) == lines_view(out@) + split_spec(s@.skip(start as int), sep),
        decreases n - i,
    {
        if s[i] == sep {
            let ghost t = s@.skip(start as int);
            proof {
                lemma_char_index(t, sep, i - start);
                assert(t.take(i - start) =~= cur@);
                assert(t.skip(i - start + 1) =~= s@.skip(i + 1));
            }
            let ghost before = lines_view(out@);
            let ghost piece = cur@;
            out.push(cur);
            assert(lines_view(out@) =~= before.push(piece));
            assert(before + (seq![piece] + split_spec(s@.skip(i + 1), sep)) =~= lines_view(out@) + split_spec(s@.skip(i + 1), sep));
            cur = Vec::new();
            start = i + 1;
        } else {
            cur.push(s[i]);
            assert(cur@ =~= s@.subrange(start as int, i + 1));
        }
        i = i + 1;
    }
    let ghost t = s@.skip(start as int);
    proof {
        lemma_char_index(t, sep, n - start);
        assert(t =~= cur@);
    }
    let ghost before = lines_view(out@);
    let ghost piece = cur@;
    out.push(cur);
    assert(lines_view(out@) =~= before + seq![piece]);
    out
}

/// The value of the first `id` parameter in the pairs, if one has a value.
pub open spec fn find_id(pairs: Seq<Seq<char>>) -> Option<Seq<char>>
    decreases pairs.len(),
{
    if pairs.len() == 0 {
        None
    } else {
        let kv = split_spec(pairs[0], '=');
        if kv[0] == "id"@ && kv.len() >= 2 {
            Some(kv[1])
        } else {
            find_id(pairs.drop_first())
        }
    }
}

/// The `id` named in a request target's query string (`?id=...`), as the category
/// deletion reads it.
pub open spec fn query_id_spec(target: Seq<char>) -> Option<Seq<char>> {
    let pieces = split_spec(target, '?');
    if pieces.len() < 2 {
        None
    } else {
        find_id(split_spec(pieces[1], '&'))
    }
}

proof fn lemma_split_nonempty(s: Seq<char>, sep: char)
    ensures
        split_spec(s, sep).len() >= 1,
    decreases s.len(),
{
    lemma_char_index_bound(s, sep);
    let j = char_index(s, sep);
    if j < s.len() {
        lemma_split_nonempty(s.skip(j + 1 as int), sep);
    }
}

/// Reads the category id from a request target's query string.
#[verifier::loop_isolation(false)]
pub fn query_id(target: &str) -> (r: Option<String>)
    ensures
        match r {
            Some(v) => query_id_spec(target@) == Some(v@),
            None => query_id_spec(target@) is None,
        },
{
    let cs = chars_of(target);
    let pieces = split_on(&cs, '?');
    let ghost ps = lines_view(pieces@);
    if pieces.len() < 2 {
        assert(ps.len() == pieces@.len());
        return None;
    }
    assert(ps[1] == pieces@[1]@);
    let pairs = split_on(&pieces[1], '&');
    let ghost prs = lines_view(pairs@);
    let mut i: usize = 0;
    assert(prs.skip(0) =~= prs);
    while i < pairs.len()
        invariant
            i <= pairs.len(),
            prs == lines_view(pairs@),
            find_id(prs) == find_id(prs.skip(i as int)),
        decreases pairs.len() - i,
    {
        let kv = split_on(&pairs[i], '=');
        let ghost kvs = lines_view(kv@);
        assert(prs.skip(i as int)[0] == pairs@[i as int]@);
        assert(prs.skip(i as int).drop_first() =~= prs.skip(i + 1));
        proof {
            lemma_split_nonempty(pairs@[i as int]@, '=');
        }
        assert(kvs[0] == kv@[0]@);
        let key = string_of(&kv[0]);
        if str_is(&key, "id") && kv.len() >= 2 {
            assert(kvs[1] == kv@[1]@);
            return Some(string_of(&kv[1]));
        }
        i = i + 1;
    }
    assert(prs.skip(i as int) =~= Seq::<Seq<char>>::empty());
    None
}

} // verus!
