//! Character-level text helpers used when rendering alerts and dashboard data.
use vstd::prelude::*;

verus! {

/// Appends one character to a string (`String::push`).
#[verifier::external_body]
pub(crate) fn push_char(s: &mut String, c: char)
    ensures
        final(s)@ == old(s)@.push(c),
{
    s.push(c);
}

/// The characters of `s`, in order.
pub fn chars_of(s: &str) -> (res: Vec<char>)
    ensures
        res@ == s@,
{
    let mut res: Vec<char> = Vec::new();
    for c in it: s.chars()
        invariant
            res@ == it.seq().take(it.index() as int),
    {
        res.push(c);
    }
    res
}

/// A string holding exactly the given characters.
pub fn string_of(cs: &Vec<char>) -> (res: String)
    ensures
        res@ == cs@,
{
    let mut res = String::new();
    let mut i: usize = 0;
    while i < cs.len()
        invariant
            i <= cs.len(),
            res@ == cs@.take(i as int),
        decreases cs.len() - i,
    {
        push_char(&mut res, cs[i]);
        i = i + 1;
        assert(res@ =~= cs@.take(i as int));
    }
    assert(cs@.take(cs.len() as int) =~= cs@);
    res
}

/// An owned copy of `s`.
pub fn owned(s: &str) -> (res: String)
    ensures
        res@ == s@,
{
    s.to_owned()
}

/// The HTML entity that stands for `c` in Telegram's HTML parse mode, or `c` itself.
pub open spec fn html_entity(c: char) -> Seq<char> {
    if c == '&' {
        seq!['&', 'a', 'm', 'p', ';']
    } else if c == '<' {
        seq!['&', 'l', 't', ';']
    } else if c == '>' {
        seq!['&', 'g', 't', ';']
    } else if c == '"' {
        seq!['&', 'q', 'u', 'o', 't', ';']
    } else {
        seq![c]
    }
}

/// `s` with every `&`, `<`, `>` and `"` replaced by its HTML entity.
pub open spec fn escape_html_spec(s: Seq<char>) -> Seq<char>
    decreases s.len(),
{
    if s.len() == 0 {
        Seq::empty()
    } else {
        escape_html_spec(s.drop_last()) + html_entity(s.last())
    }
}

/// Escapes the four HTML-significant characters `&`, `<`, `>` and `"`.
pub fn escape_html(input: &str) -> (res: String)
    ensures
        res@ == escape_html_spec(input@),
{
    let cs = chars_of(input);
    let mut out = String::new();
    let mut i: usize = 0;
    while i < cs.len()
        invariant
            i <= cs.len(),
            cs@ == input@,
            out@ == escape_html_spec(cs@.take(i as int)),
        decreases cs.len() - i,
    {
        let c = cs[i];
        let ghost before = out@;
        if c == '&' {
            push_char(&mut out, '&');
            push_char(&mut out, 'a');
            push_char(&mut out, 'm');
            push_char(&mut out, 'p');
            push_char(&mut out, ';');
        } else if c == '<' {
            push_char(&mut out, '&');
            push_char(&mut out, 'l');
            push_char(&mut out, 't');
            push_char(&mut out, ';');
        } else if c == '>' {
            push_char(&mut out, '&');
            push_char(&mut out, 'g');
            push_char(&mut out, 't');
            push_char(&mut out, ';');
        } else if c == '"' {
            push_char(&mut out, '&');
            push_char(&mut out, 'q');
            push_char(&mut out, 'u');
            push_char(&mut out, 'o');
            push_char(&mut out, 't');
            push_char(&mut out, ';');
        } else {
            push_char(&mut out, c);
        }
        assert(out@ =~= before + html_entity(c));
        assert(cs@.take(i + 1).drop_last() =~= cs@.take(i as int));
        i = i + 1;
    }
    assert(cs@.take(cs.len() as int) =~= cs@);
    out
}

/// Reads HTML text back: each of the entities `&amp;`, `&lt;`, `&gt;` and `&quot;` becomes
/// the character it stands for; every other character stays.
pub open spec fn unescape_html(s: Seq<char>) -> Seq<char>
    decreases s.len(),
{
    if s.len() == 0 {
        Seq::empty()
    } else if s.len() >= 5 && s[0] == '&' && s[1] == 'a' && s[2] == 'm' && s[3] == 'p' && s[4] == ';' {
        seq!['&'] + unescape_html(s.skip(5))
    } else if s.len() >= 4 && s[0] == '&' && s[1] == 'l' && s[2] == 't' && s[3] == ';' {
        seq!['<'] + unescape_html(s.skip(4))
    } else if s.len() >= 4 && s[0] == '&' && s[1] == 'g' && s[2] == 't' && s[3] == ';' {
        seq!['>'] + unescape_html(s.skip(4))
    } else if s.len() >= 6 && s[0] == '&' && s[1] == 'q' && s[2] == 'u' && s[3] == 'o' && s[4] == 't' && s[5] == ';' {
        seq!['"'] + unescape_html(s.skip(6))
    } else {
        seq![s[0]] + unescape_html(s.drop_first())
    }
}

proof fn lemma_escape_append(a: Seq<char>, b: Seq<char>)
    ensures
        escape_html_spec(a + b) == escape_html_spec(a) + escape_html_spec(b),
    decreases b.len(),
{
    if b.len() == 0 {
        assert(a + b =~= a);
        assert(escape_html_spec(a) + escape_html_spec(b) =~= escape_html_spec(a));
    } else {
        assert((a + b).drop_last() =~= a + b.drop_last());
        lemma_escape_append(a, b.drop_last());
    }
}

proof fn lemma_unescape_entity(c: char, rest: Seq<char>)
    ensures
        unescape_html(html_entity(c) + rest) == seq![c] + unescape_html(rest),
{
    let t = html_entity(c) + rest;
    let n = html_entity(c).len() as int;
    assert(t.skip(n) =~= rest);
    if c != '&' && c != '<' && c != '>' && c != '"' {
        assert(t.drop_first() =~= rest);
    }
}

/// Escaping is safe and loses nothing: no raw `<`, `>` or `"` is left, and reading the text
/// back gives the input again (so every `&` of the result starts an entity).
pub proof fn escaping_is_safe_and_reversible(s: Seq<char>)
    ensures
        forall|i: int| 0 <= i < escape_html_spec(s).len() ==> {
            let c = #[trigger] escape_html_spec(s)[i];
            c != '<' && c != '>' && c != '"'
        },
        unescape_html(escape_html_spec(s)) == s,
    decreases s.len(),
{
    if s.len() > 0 {
        escaping_is_safe_and_reversible(s.drop_last());
        let a = escape_html_spec(s.drop_last());
        let b = html_entity(s.last());
        assert forall|i: int| 0 <= i < (a + b).len() implies {
            let c = #[trigger] (a + b)[i];
            c != '<' && c != '>' && c != '"'
        } by {
            if i < a.len() {
                assert((a + b)[i] == a[i]);
            }
        }
        escaping_is_safe_and_reversible(s.drop_first());
        assert(s =~= seq![s[0]] + s.drop_first());
        lemma_escape_append(seq![s[0]], s.drop_first());
        let one = seq![s[0]];
        assert(one.drop_last() =~= Seq::<char>::empty());
        assert(escape_html_spec(one.drop_last()) =~= Seq::<char>::empty());
        assert(one.last() == s[0]);
        assert(escape_html_spec(one) =~= html_entity(s[0]));
        lemma_unescape_entity(s[0], escape_html_spec(s.drop_first()));
    }
}

/// At most `max` characters of `s`: `s` itself when it fits, otherwise its first
/// `max - 1` characters followed by an ellipsis.
pub open spec fn truncate_spec(s: Seq<char>, max: nat) -> Seq<char> {
    if max == 0 {
        Seq::empty()
    } else if s.len() <= max {
        s
    } else {
        s.take(max - 1).push('…')
    }
}

/// Cuts `input` to at most `max_chars` characters, marking a cut with a trailing `…`.
pub fn truncate_field(input: &str, max_chars: usize) -> (res: String)
    ensures
        res@ == truncate_spec(input@, max_chars as nat),
{
    if max_chars == 0 {
        return String::new();
    }
    let cs = chars_of(input);
    if cs.len() <= max_chars {
        return owned(input);
    }
    let budget = max_chars - 1;
    let mut out = String::new();
    let mut i: usize = 0;
    while i < budget
        invariant
            budget < cs.len(),
            i <= budget,
            out@ == cs@.take(i as int),
        decreases budget - i,
    {
        push_char(&mut out, cs[i]);
        i = i + 1;
        assert(out@ =~= cs@.take(i as int));
    }
    push_char(&mut out, '…');
    out
}

/// `s` with every carriage return and line feed replaced by a space.
pub open spec fn single_line_spec(s: Seq<char>) -> Seq<char> {
    s.map_values(|c: char| if c == '\r' || c == '\n' { ' ' } else { c })
}

/// Joins a field onto one line and cuts it to at most `max_chars` characters.
pub fn sanitize_inline_field(input: &str, max_chars: usize) -> (res: String)
    ensures
        res@ == truncate_spec(single_line_spec(input@), max_chars as nat),
{
    let cs = chars_of(input);
    let mut line = String::new();
    let mut i: usize = 0;
    while i < cs.len()
        invariant
            i <= cs.len(),
            cs@ == input@,
            line@ == single_line_spec(cs@.take(i as int)),
        decreases cs.len() - i,
    {
        let c = cs[i];
        if c == '\r' || c == '\n' {
            push_char(&mut line, ' ');
        } else {
            push_char(&mut line, c);
        }
        i = i + 1;
        assert(line@ =~= single_line_spec(cs@.take(i as int)));
    }
    assert(cs@.take(cs.len() as int) =~= cs@);
    truncate_field(line.as_str(), max_chars)
}

} // verus!

verus! {

/// Position of the first line feed in `s`, or its length when there is none.
pub open spec fn newline_index(s: Seq<char>) -> nat
    decreases s.len(),
{
    if s.len() == 0 {
        0
    } else if s[0] == '\n' {
        0
    } else {
        1 + newline_index(s.drop_first())
    }
}

/// A line without its terminator: a line ended by `\r\n` also loses the `\r`.
pub open spec fn line_text(raw: Seq<char>, terminated: bool) -> Seq<char> {
    if terminated && raw.len() > 0 && raw.last() == '\r' {
        raw.drop_last()
    } else {
        raw
    }
}

/// The lines of `s` as `str::lines` yields them: split after each `\n`, terminators (`\n` or
/// `\r\n`) removed, no empty line after a final terminator.
pub open spec fn lines_spec(s: Seq<char>) -> Seq<Seq<char>>
    decreases s.len(),
{
    if s.len() == 0 {
        Seq::empty()
    } else {
        let j = newline_index(s);
        if j < s.len() {
            seq![line_text(s.take(j as int), true)] + lines_spec(s.skip(j + 1 as int))
        } else {
            seq![s]
        }
    }
}

/// Longest chunk, in characters, that one Telegram message carries.
pub const CHUNK_CHARS: usize = 3900;

/// Adds a line to the chunks built so far: the open chunk is closed first when the line (with
/// its separator) would take it past 3900 characters.
pub open spec fn chunk_step(acc: (Seq<Seq<char>>, Seq<char>), line: Seq<char>) -> (Seq<Seq<char>>, Seq<char>) {
    let (chunks, cur) = if acc.1.len() + line.len() + 1 > CHUNK_CHARS && acc.1.len() > 0 {
        (acc.0.push(acc.1), Seq::<char>::empty())
    } else {
        acc
    };
    (chunks, if cur.len() > 0 { cur.push('\n') + line } else { line })
}

pub open spec fn chunk_fold(acc: (Seq<Seq<char>>, Seq<char>), lines: Seq<Seq<char>>) -> (Seq<Seq<char>>, Seq<char>)
    decreases lines.len(),
{
    if lines.len() == 0 {
        acc
    } else {
        chunk_fold(chunk_step(acc, lines[0]), lines.drop_first())
    }
}

/// Where an HTML entity left open before position `t + 1` of `s` starts: looking back at most
/// `n` characters from `t`, the `&` met before any `;`.
pub open spec fn open_entity(s: Seq<char>, t: int, n: nat) -> Option<int>
    decreases n,
{
    if n == 0 || t < 0 || t >= s.len() {
        None
    } else if s[t] == ';' {
        None
    } else if s[t] == '&' {
        Some(t)
    } else {
        open_entity(s, t - 1, (n - 1) as nat)
    }
}

/// Where a line longer than a chunk is cut: after 3900 characters, or earlier, at the `&` of
/// an entity (at most six characters, such as `&quot;`) that the cut would split.
pub open spec fn safe_cut(s: Seq<char>) -> int {
    match open_entity(s, CHUNK_CHARS - 1, 5) {
        Some(j) => j,
        None => CHUNK_CHARS as int,
    }
}

/// A line as pieces of at most 3900 characters, cut only outside HTML entities.
pub open spec fn line_pieces(s: Seq<char>) -> Seq<Seq<char>>
    decreases s.len(),
{
    if s.len() <= CHUNK_CHARS {
        seq![s]
    } else {
        let c = safe_cut(s);
        if 0 < c < s.len() {
            seq![s.take(c)] + line_pieces(s.skip(c))
        } else {
            seq![s]
        }
    }
}

/// The pieces of all lines, in order.
pub open spec fn all_pieces(lines: Seq<Seq<char>>) -> Seq<Seq<char>>
    decreases lines.len(),
{
    if lines.len() == 0 {
        Seq::empty()
    } else {
        line_pieces(lines[0]) + all_pieces(lines.drop_first())
    }
}

/// The message chunks of a text: its lines, a line longer than 3900 characters cut into pieces
/// outside HTML entities, packed greedily, in order and joined by `\n`, into chunks of at most
/// 3900 characters; empty chunks are not sent.
pub open spec fn chunks_spec(text: Seq<char>) -> Seq<Seq<char>> {
    let (chunks, cur) = chunk_fold((Seq::empty(), Seq::empty()), all_pieces(lines_spec(text)));
    if cur.len() > 0 { chunks.push(cur) } else { chunks }
}

proof fn lemma_open_entity_range(s: Seq<char>, t: int, n: nat)
    ensures
        open_entity(s, t, n) matches Some(j) ==> t - n < j <= t && 0 <= j < s.len() && s[j] == '&',
    decreases n,
{
    if !(n == 0 || t < 0 || t >= s.len()) && s[t] != ';' && s[t] != '&' {
        lemma_open_entity_range(s, t - 1, (n - 1) as nat);
    }
}

proof fn lemma_safe_cut_range(s: Seq<char>)
    requires
        s.len() > CHUNK_CHARS,
    ensures
        CHUNK_CHARS - 5 <= safe_cut(s) <= CHUNK_CHARS,
{
    lemma_open_entity_range(s, CHUNK_CHARS - 1, 5);
}

proof fn lemma_fold_append(acc: (Seq<Seq<char>>, Seq<char>), a: Seq<Seq<char>>, b: Seq<Seq<char>>)
    ensures
        chunk_fold(acc, a + b) == chunk_fold(chunk_fold(acc, a), b),
    decreases a.len(),
{
    if a.len() == 0 {
        assert(a + b =~= b);
    } else {
        assert((a + b).drop_first() =~= a.drop_first() + b);
        lemma_fold_append(chunk_step(acc, a[0]), a.drop_first(), b);
    }
}

/// Cutting a long line loses nothing: its pieces, in order, spell the line again, and none
/// holds more than 3900 characters.
pub proof fn line_pieces_keep_the_line(s: Seq<char>)
    ensures
        line_pieces(s).flatten() == s,
        forall|i: int| 0 <= i < line_pieces(s).len() ==> (#[trigger] line_pieces(s)[i]).len() <= CHUNK_CHARS,
    decreases s.len(),
{
    if s.len() <= CHUNK_CHARS {
        seq![s].lemma_flatten_one_element();
    } else {
        lemma_safe_cut_range(s);
        let c = safe_cut(s);
        line_pieces_keep_the_line(s.skip(c));
        let p = line_pieces(s);
        assert(p.drop_first() =~= line_pieces(s.skip(c)));
        assert(s.take(c) + s.skip(c) =~= s);
        assert forall|i: int| 0 <= i < p.len() implies (#[trigger] p[i]).len() <= CHUNK_CHARS by {
            if i > 0 {
                assert(p[i] == line_pieces(s.skip(c))[i - 1]);
            }
        }
    }
}

proof fn lemma_all_pieces_fit(lines: Seq<Seq<char>>)
    ensures
        forall|i: int| 0 <= i < all_pieces(lines).len() ==> (#[trigger] all_pieces(lines)[i]).len() <= CHUNK_CHARS,
    decreases lines.len(),
{
    if lines.len() > 0 {
        line_pieces_keep_the_line(lines[0]);
        lemma_all_pieces_fit(lines.drop_first());
        let a = line_pieces(lines[0]);
        let b = all_pieces(lines.drop_first());
        assert forall|i: int| 0 <= i < (a + b).len() implies (#[trigger] (a + b)[i]).len() <= CHUNK_CHARS by {
            if i >= a.len() {
                assert((a + b)[i] == b[i - a.len()]);
            }
        }
    }
}

proof fn lemma_fold_fits(acc: (Seq<Seq<char>>, Seq<char>), pieces: Seq<Seq<char>>)
    requires
        forall|i: int| 0 <= i < acc.0.len() ==> (#[trigger] acc.0[i]).len() <= CHUNK_CHARS,
        acc.1.len() <= CHUNK_CHARS,
        forall|i: int| 0 <= i < pieces.len() ==> (#[trigger] pieces[i]).len() <= CHUNK_CHARS,
    ensures
        forall|i: int| 0 <= i < chunk_fold(acc, pieces).0.len() ==> (#[trigger] chunk_fold(acc, pieces).0[i]).len() <= CHUNK_CHARS,
        chunk_fold(acc, pieces).1.len() <= CHUNK_CHARS,
    decreases pieces.len(),
{
    if pieces.len() > 0 {
        let next = chunk_step(acc, pieces[0]);
        assert(pieces[0].len() <= CHUNK_CHARS);
        assert forall|i: int| 0 <= i < pieces.drop_first().len() implies (#[trigger] pieces.drop_first()[i]).len() <= CHUNK_CHARS by {
            assert(pieces.drop_first()[i] == pieces[i + 1]);
        }
        lemma_fold_fits(next, pieces.drop_first());
    }
}

/// Every chunk of a message fits one Telegram message: none holds more than 3900 characters.
pub proof fn chunks_fit_one_message(text: Seq<char>)
    ensures
        forall|i: int| 0 <= i < chunks_spec(text).len() ==> (#[trigger] chunks_spec(text)[i]).len() <= CHUNK_CHARS,
{
    lemma_all_pieces_fit(lines_spec(text));
    let r = chunk_fold((Seq::empty(), Seq::empty()), all_pieces(lines_spec(text)));
    lemma_fold_fits((Seq::empty(), Seq::empty()), all_pieces(lines_spec(text)));
    if r.1.len() > 0 {
        assert forall|i: int| 0 <= i < r.0.push(r.1).len() implies (#[trigger] r.0.push(r.1)[i]).len() <= CHUNK_CHARS by {
            if i < r.0.len() {
                assert(r.0.push(r.1)[i] == r.0[i]);
            }
        }
    }
}

/// `s` with its line feeds left out.
pub open spec fn without_breaks(s: Seq<char>) -> Seq<char>
    decreases s.len(),
{
    if s.len() == 0 {
        s
    } else if s.last() == '\n' {
        without_breaks(s.drop_last())
    } else {
        without_breaks(s.drop_last()).push(s.last())
    }
}

/// `s` holds no line feed.
pub open spec fn no_breaks(s: Seq<char>) -> bool {
    forall|k: int| 0 <= k < s.len() ==> s[k] != '\n'
}

proof fn lemma_without_breaks_add(a: Seq<char>, b: Seq<char>)
    ensures
        without_breaks(a + b) == without_breaks(a) + without_breaks(b),
    decreases b.len(),
{
    if b.len() == 0 {
        assert(a + b =~= a);
        assert(without_breaks(a) + without_breaks(b) =~= without_breaks(a));
    } else {
        assert((a + b).drop_last() =~= a + b.drop_last());
        lemma_without_breaks_add(a, b.drop_last());
        assert(without_breaks(a) + without_breaks(b.drop_last()).push(b.last())
            =~= (without_breaks(a) + without_breaks(b.drop_last())).push(b.last()));
    }
}

proof fn lemma_without_breaks_none(s: Seq<char>)
    requires
        no_breaks(s),
    ensures
        without_breaks(s) == s,
    decreases s.len(),
{
    if s.len() > 0 {
        lemma_without_breaks_none(s.drop_last());
        assert(s.drop_last().push(s.last()) =~= s);
    }
}

proof fn lemma_before_newline(s: Seq<char>)
    ensures
        newline_index(s) <= s.len(),
        forall|k: int| 0 <= k < newline_index(s) ==> s[k] != '\n',
    decreases s.len(),
{
    if s.len() > 0 && s[0] != '\n' {
        lemma_before_newline(s.drop_first());
        assert forall|k: int| 0 <= k < newline_index(s) implies s[k] != '\n' by {
            if k > 0 {
                assert(s[k] == s.drop_first()[k - 1]);
            }
        }
    }
}

proof fn lemma_lines_have_no_breaks(s: Seq<char>)
    ensures
        forall|i: int| 0 <= i < lines_spec(s).len() ==> no_breaks(#[trigger] lines_spec(s)[i]),
    decreases s.len(),
{
    if s.len() > 0 {
        lemma_before_newline(s);
        let j = newline_index(s);
        if j < s.len() {
            lemma_lines_have_no_breaks(s.skip(j + 1 as int));
            let first = line_text(s.take(j as int), true);
            assert(no_breaks(first));
            let ls = lines_spec(s);
            assert(ls == seq![first] + lines_spec(s.skip(j + 1 as int)));
            assert forall|i: int| 0 <= i < ls.len() implies no_breaks(#[trigger] ls[i]) by {
                if i > 0 {
                    assert(ls[i] == lines_spec(s.skip(j + 1 as int))[i - 1]);
                }
            }
        }
    }
}

proof fn lemma_pieces_have_no_breaks(s: Seq<char>)
    requires
        no_breaks(s),
    ensures
        forall|i: int| 0 <= i < line_pieces(s).len() ==> no_breaks(#[trigger] line_pieces(s)[i]),
    decreases s.len(),
{
    if s.len() > CHUNK_CHARS {
        lemma_safe_cut_range(s);
        let c = safe_cut(s);
        lemma_pieces_have_no_breaks(s.skip(c));
        let p = line_pieces(s);
        assert forall|i: int| 0 <= i < p.len() implies no_breaks(#[trigger] p[i]) by {
            if i > 0 {
                assert(p[i] == line_pieces(s.skip(c))[i - 1]);
            }
        }
    }
}

proof fn lemma_all_pieces_spell_lines(lines: Seq<Seq<char>>)
    requires
        forall|i: int| 0 <= i < lines.len() ==> no_breaks(#[trigger] lines[i]),
    ensures
        all_pieces(lines).flatten() == lines.flatten(),
        forall|i: int| 0 <= i < all_pieces(lines).len() ==> no_breaks(#[trigger] all_pieces(lines)[i]),
    decreases lines.len(),
{
    if lines.len() > 0 {
        assert(no_breaks(lines[0]));
        assert forall|i: int| 0 <= i < lines.drop_first().len() implies no_breaks(#[trigger] lines.drop_first()[i]) by {
            assert(lines.drop_first()[i] == lines[i + 1]);
        }
        lemma_all_pieces_spell_lines(lines.drop_first());
        line_pieces_keep_the_line(lines[0]);
        lemma_pieces_have_no_breaks(lines[0]);
        let a = line_pieces(lines[0]);
        let b = all_pieces(lines.drop_first());
        vstd::seq_lib::lemma_flatten_concat(a, b);
        assert forall|i: int| 0 <= i < (a + b).len() implies no_breaks(#[trigger] (a + b)[i]) by {
            if i < a.len() {
                assert((a + b)[i] == a[i]);
            } else {
                assert((a + b)[i] == b[i - a.len()]);
            }
        }
    }
}

proof fn lemma_fold_spells(acc: (Seq<Seq<char>>, Seq<char>), ps: Seq<Seq<char>>)
    requires
        forall|i: int| 0 <= i < ps.len() ==> no_breaks(#[trigger] ps[i]),
    ensures
        without_breaks(chunk_fold(acc, ps).0.flatten_alt() + chunk_fold(acc, ps).1)
            == without_breaks(acc.0.flatten_alt() + acc.1) + ps.flatten(),
    decreases ps.len(),
{
    if ps.len() == 0 {
        assert(without_breaks(acc.0.flatten_alt() + acc.1) + ps.flatten() =~= without_breaks(acc.0.flatten_alt() + acc.1));
    } else {
        let p = ps[0];
        assert(no_breaks(p));
        lemma_without_breaks_none(p);
        let next = chunk_step(acc, p);
        let before = acc.0.flatten_alt() + acc.1;
        assert(without_breaks(next.0.flatten_alt() + next.1) == without_breaks(before) + p) by {
            if acc.1.len() + p.len() + 1 > CHUNK_CHARS && acc.1.len() > 0 {
                assert(acc.0.push(acc.1).drop_last() =~= acc.0);
                assert(acc.0.push(acc.1).flatten_alt() == acc.0.flatten_alt() + acc.1);
                lemma_without_breaks_add(before, p);
            } else if acc.1.len() > 0 {
                assert(next.0.flatten_alt() + next.1 =~= before + seq!['\n'] + p);
                lemma_without_breaks_add(before + seq!['\n'], p);
                lemma_without_breaks_add(before, seq!['\n']);
                let nl = seq!['\n'];
                assert(nl.drop_last() =~= Seq::<char>::empty());
                assert(nl.last() == '\n');
                assert(without_breaks(nl.drop_last()) =~= Seq::<char>::empty());
                assert(without_breaks(nl) =~= Seq::<char>::empty());
            } else {
                assert(before =~= acc.0.flatten_alt());
                assert(next.0.flatten_alt() + next.1 =~= before + p);
                lemma_without_breaks_add(before, p);
            }
        }
        assert forall|i: int| 0 <= i < ps.drop_first().len() implies no_breaks(#[trigger] ps.drop_first()[i]) by {
            assert(ps.drop_first()[i] == ps[i + 1]);
        }
        lemma_fold_spells(next, ps.drop_first());
        assert(ps.flatten() == p + ps.drop_first().flatten());
    }
}

/// Chunking loses no text: the chunks, taken in order with their line feeds left out, spell
/// the message's lines one after another. Only where lines break changes.
pub proof fn chunks_keep_every_line(text: Seq<char>)
    ensures
        without_breaks(chunks_spec(text).flatten()) == lines_spec(text).flatten(),
{
    let lines = lines_spec(text);
    lemma_lines_have_no_breaks(text);
    lemma_all_pieces_spell_lines(lines);
    let ps = all_pieces(lines);
    let empty = (Seq::<Seq<char>>::empty(), Seq::<char>::empty());
    lemma_fold_spells(empty, ps);
    assert(without_breaks(empty.0.flatten_alt() + empty.1) =~= Seq::<char>::empty());
    let r = chunk_fold(empty, ps);
    let out = chunks_spec(text);
    out.lemma_flatten_and_flatten_alt_are_equivalent();
    if r.1.len() > 0 {
        assert(r.0.push(r.1).drop_last() =~= r.0);
        assert(out.flatten_alt() == r.0.flatten_alt() + r.1);
    } else {
        assert(r.0.flatten_alt() + r.1 =~= r.0.flatten_alt());
    }
    assert(Seq::<char>::empty() + ps.flatten() =~= ps.flatten());
}

/// The cut of a line longer than a chunk that `cs[lo..hi]` holds (see `safe_cut`).
fn cut_point(cs: &Vec<char>, lo: usize, hi: usize) -> (c: usize)
    requires
        lo <= hi <= cs@.len(),
        hi - lo > CHUNK_CHARS,
    ensures
        c == safe_cut(cs@.subrange(lo as int, hi as int)),
        0 < c < hi - lo,
{
    let ghost s = cs@.subrange(lo as int, hi as int);
    proof {
        lemma_safe_cut_range(s);
    }
    let mut t: usize = CHUNK_CHARS;
    let mut n: usize = 5;
    while n > 0
        invariant
            lo <= hi <= cs@.len(),
            hi - lo > CHUNK_CHARS,
            s == cs@.subrange(lo as int, hi as int),
            t + 5 == CHUNK_CHARS + n,
            n <= 5,
            open_entity(s, CHUNK_CHARS - 1, 5) == open_entity(s, t - 1, n as nat),
        decreases n,
    {
        let ch = cs[lo + t - 1];
        assert(ch == s[t - 1]);
        if ch == ';' {
            return CHUNK_CHARS;
        }
        if ch == '&' {
            return t - 1;
        }
        t = t - 1;
        n = n - 1;
    }
    CHUNK_CHARS
}

/// Adds the piece `cs[lo..hi]` to the chunks built so far (see `chunk_step`).
fn add_piece(chunks: &mut Vec<String>, cur: &mut Vec<char>, cs: &Vec<char>, lo: usize, hi: usize)
    requires
        lo <= hi <= cs@.len(),
    ensures
        (strings_view(final(chunks)@), final(cur)@) == chunk_step((strings_view(old(chunks)@), old(cur)@), cs@.subrange(lo as int, hi as int)),
{
    let ghost line = cs@.subrange(lo as int, hi as int);
    let line_len = hi - lo;
    let flush = cur.len() > 0 && (line_len >= CHUNK_CHARS || cur.len() > CHUNK_CHARS - 1 - line_len);
    assert(flush == (old(cur)@.len() + line.len() + 1 > CHUNK_CHARS && old(cur)@.len() > 0));
    if flush {
        let s = string_of(cur);
        let ghost before = chunks@;
        chunks.push(s);
        assert(strings_view(chunks@) =~= strings_view(before).push(old(cur)@));
        *cur = Vec::new();
    }
    if cur.len() > 0 {
        cur.push('\n');
    }
    let ghost mid = cur@;
    let mut k = lo;
    while k < hi
        invariant
            lo <= k <= hi,
            hi <= cs@.len(),
            cur@ == mid + cs@.subrange(lo as int, k as int),
        decreases hi - k,
    {
        cur.push(cs[k]);
        k = k + 1;
        assert(cur@ =~= mid + cs@.subrange(lo as int, k as int));
    }
    assert(cur@ =~= mid + line);
}

pub open spec fn strings_view(v: Seq<String>) -> Seq<Seq<char>> {
    v.map_values(|s: String| s@)
}

pub(crate) proof fn lemma_newline_index(t: Seq<char>, k: int)
    requires
        0 <= k <= t.len(),
        forall|i: int| 0 <= i < k ==> t[i] != '\n',
        k == t.len() || t[k] == '\n',
    ensures
        newline_index(t) == k,
    decreases k,
{
    if k > 0 {
        lemma_newline_index(t.drop_first(), k - 1);
    }
}

/// Splits a message into chunks that Telegram accepts (see `chunks_spec`).
pub fn split_into_chunks(message_text: &str) -> (r: Vec<String>)
    ensures
        strings_view(r@) == chunks_spec(message_text@),
{
    let cs = chars_of(message_text);
    let n = cs.len();
    let mut chunks: Vec<String> = Vec::new();
    let mut cur: Vec<char> = Vec::new();
    let mut pos: usize = 0;
    let ghost target = chunk_fold((Seq::empty(), Seq::empty()), all_pieces(lines_spec(cs@)));
    assert(cs@.skip(0) =~= cs@);
    assert(strings_view(chunks@) =~= Seq::<Seq<char>>::empty());
    while pos < n
        invariant
            n == cs.len(),
            cs@ == message_text@,
            pos <= n,
            chunk_fold((strings_view(chunks@), cur@), all_pieces(lines_spec(cs@.skip(pos as int)))) == target,
        decreases n - pos,
    {
        let mut j = pos;
        while j < n && cs[j] != '\n'
            invariant
                pos <= j <= n,
                n == cs.len(),
                forall|i: int| pos <= i < j ==> cs@[i] != '\n',
            decreases n - j,
        {
            j = j + 1;
        }
        let ghost t = cs@.skip(pos as int);
        proof {
            lemma_newline_index(t, j - pos);
        }
        let terminated = j < n;
        let mut end = j;
        if terminated && end > pos && cs[end - 1] == '\r' {
            end = end - 1;
        }
        let ghost line = line_text(t.take(j - pos), terminated);
        assert(line =~= cs@.subrange(pos as int, end as int));
        let next = if terminated { j + 1 } else { n };
        let ghost rest = all_pieces(lines_spec(cs@.skip(next as int)));
        proof {
            if terminated {
                assert(t.skip(j - pos + 1) =~= cs@.skip(next as int));
                assert(lines_spec(t) == seq![line] + lines_spec(cs@.skip(next as int)));
            } else {
                assert(t.take(j - pos) =~= t);
                assert(cs@.skip(next as int) =~= Seq::<char>::empty());
                assert(lines_spec(t) =~= seq![line] + lines_spec(cs@.skip(next as int)));
            }
            assert((seq![line] + lines_spec(cs@.skip(next as int))).drop_first() =~= lines_spec(cs@.skip(next as int)));
            assert(all_pieces(lines_spec(t)) == line_pieces(line) + rest);
        }
        let mut p = pos;
        loop
            invariant_except_break
                chunk_fold((strings_view(chunks@), cur@), line_pieces(cs@.subrange(p as int, end as int)) + rest) == target,
            invariant
                pos <= p <= end,
                end <= n,
                n == cs.len(),
            ensures
                chunk_fold((strings_view(chunks@), cur@), rest) == target,
            decreases end - p,
        {
            let ghost sub = cs@.subrange(p as int, end as int);
            let ghost acc = (strings_view(chunks@), cur@);
            if end - p <= CHUNK_CHARS {
                add_piece(&mut chunks, &mut cur, &cs, p, end);
                proof {
                    assert(line_pieces(sub) == seq![sub]);
                    assert((seq![sub] + rest).drop_first() =~= rest);
                }
                break;
            }
            let c = cut_point(&cs, p, end);
            add_piece(&mut chunks, &mut cur, &cs, p, p + c);
            proof {
                assert(sub.take(c as int) =~= cs@.subrange(p as int, (p + c) as int));
                assert(sub.skip(c as int) =~= cs@.subrange((p + c) as int, end as int));
                assert(line_pieces(sub) == seq![sub.take(c as int)] + line_pieces(sub.skip(c as int)));
                let tail = line_pieces(sub.skip(c as int));
                assert((seq![sub.take(c as int)] + tail + rest).drop_first() =~= tail + rest);
                assert(seq![sub.take(c as int)] + tail + rest =~= seq![sub.take(c as int)] + (tail + rest));
            }
            p = p + c;
        }
        pos = next;
    }
    assert(cs@.skip(pos as int) =~= Seq::<char>::empty());
    if cur.len() > 0 {
        let s = string_of(&cur);
        let ghost before = chunks@;
        chunks.push(s);
        assert(strings_view(chunks@) =~= strings_view(before).push(cur@));
    }
    chunks
}


/// What `String::from_utf8_lossy` makes of these bytes.
pub uninterp spec fn utf8_lossy(bytes: Seq<u8>) -> Seq<char>;

/// Decodes bytes as UTF-8, replacing invalid sequences (`String::from_utf8_lossy`). Bytes that
/// are all ASCII decode to one character each.
#[verifier::external_body]
pub(crate) fn decode_lossy(bytes: &[u8]) -> (r: String)
    ensures
        r@ == utf8_lossy(bytes@),
        (forall|i: int| 0 <= i < bytes@.len() ==> bytes@[i] < 128) ==> r@ == bytes@.map_values(|b: u8| b as char),
{
    String::from_utf8_lossy(bytes).into_owned()
}

} // verus!
