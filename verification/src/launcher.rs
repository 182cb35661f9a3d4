//! The connection launcher of the client: the history of saved servers,
//! the three input fields and the checks before connecting.
//!
//! The history is kept in a text file, one server per line, written as
//! `alias=ip`. Reading and writing that file, drawing and the keyboard are
//! the client's business; this module turns file text into entries and
//! back, and decides what each key press does to the fields.

use vstd::prelude::*;

use crate::levels::{lemma_next_newline_bounds, next_newline, str_to_chars};

verus! {

// ---------------------------------------------------------------------------
// Characters and strings

/// Whether the character has the Unicode `White_Space` property, the set
/// that `char::is_whitespace` tests: tab to carriage return (U+0009 to
/// U+000D), space, next line (U+0085), no-break space (U+00A0), ogham
/// space mark (U+1680), en quad to hair space (U+2000 to U+200A), line and
/// paragraph separators (U+2028, U+2029), narrow no-break space (U+202F),
/// medium mathematical space (U+205F) and ideographic space (U+3000).
pub open spec fn is_white_space(c: char) -> bool {
    let u = c as u32;
    ||| 0x9 <= u <= 0xd
    ||| u == 0x20
    ||| u == 0x85
    ||| u == 0xa0
    ||| u == 0x1680
    ||| 0x2000 <= u <= 0x200a
    ||| u == 0x2028
    ||| u == 0x2029
    ||| u == 0x202f
    ||| u == 0x205f
    ||| u == 0x3000
}

/// Whether the character is white space; see `is_white_space`.
pub fn white_space(c: char) -> (b: bool)
    ensures
        b == is_white_space(c),
{
    let u = c as u32;
    (0x9 <= u && u <= 0xd) || u == 0x20 || u == 0x85 || u == 0xa0 || u == 0x1680 || (0x2000 <= u && u <= 0x200a)
        || u == 0x2028 || u == 0x2029 || u == 0x202f || u == 0x205f || u == 0x3000
}

/// `String::push`: appends the character at the end.
#[verifier::external_body]
fn push_char(s: &mut String, c: char)
    ensures
        final(s)@ == old(s)@.push(c),
{
    s.push(c)
}

/// `String::pop`: removes the last character and returns it, or returns
/// `None` and leaves the string alone when it is empty.
#[verifier::external_body]
fn pop_char(s: &mut String) -> (c: Option<char>)
    ensures
        old(s)@.len() == 0 ==> c is None && final(s)@ == old(s)@,
        old(s)@.len() > 0 ==> c == Some(old(s)@.last()) && final(s)@ == old(s)@.drop_last(),
{
    s.pop()
}

/// The characters without their leading white space.
pub open spec fn trim_start(s: Seq<char>) -> Seq<char>
    decreases s.len(),
{
    if s.len() > 0 && is_white_space(s[0]) {
        trim_start(s.drop_first())
    } else {
        s
    }
}

/// The characters without their trailing white space.
pub open spec fn trim_end(s: Seq<char>) -> Seq<char>
    decreases s.len(),
{
    if s.len() > 0 && is_white_space(s.last()) {
        trim_end(s.drop_last())
    } else {
        s
    }
}

/// The characters without leading and trailing white space, as
/// `str::trim` leaves them.
pub open spec fn trim(s: Seq<char>) -> Seq<char> {
    trim_end(trim_start(s))
}

proof fn lemma_trim_start(v: Seq<char>, lo: int, a: int, hi: int)
    requires
        0 <= lo <= a <= hi <= v.len(),
        forall|k: int| lo <= k < a ==> is_white_space(#[trigger] v[k]),
        a == hi || !is_white_space(v[a]),
    ensures
        trim_start(v.subrange(lo, hi)) == v.subrange(a, hi),
    decreases a - lo,
{
    let t = v.subrange(lo, hi);
    if lo < a {
        assert(t[0] == v[lo]);
        assert(t.drop_first() =~= v.subrange(lo + 1, hi));
        lemma_trim_start(v, lo + 1, a, hi);
    } else {
        assert(t =~= v.subrange(a, hi));
    }
}

proof fn lemma_trim_end(v: Seq<char>, a: int, b: int, hi: int)
    requires
        0 <= a <= b <= hi <= v.len(),
        forall|k: int| b <= k < hi ==> is_white_space(#[trigger] v[k]),
        b == a || !is_white_space(v[b - 1]),
    ensures
        trim_end(v.subrange(a, hi)) == v.subrange(a, b),
    decreases hi - b,
{
    let u = v.subrange(a, hi);
    if b < hi {
        assert(u.last() == v[hi - 1]);
        assert(u.drop_last() =~= v.subrange(a, hi - 1));
        lemma_trim_end(v, a, b, hi - 1);
    } else {
        assert(u =~= v.subrange(a, b));
    }
}

/// The characters of `v` from `lo` to `hi`, trimmed, as a string.
fn trimmed(v: &Vec<char>, lo: usize, hi: usize) -> (s: String)
    requires
        lo <= hi <= v@.len(),
    ensures
        s@ == trim(v@.subrange(lo as int, hi as int)),
{
    let mut a = lo;
    while a < hi && white_space(v[a])
        invariant
            lo <= a <= hi <= v@.len(),
            forall|k: int| lo <= k < a ==> is_white_space(#[trigger] v@[k]),
        decreases hi - a,
    {
        a = a + 1;
    }
    proof {
        lemma_trim_start(v@, lo as int, a as int, hi as int);
    }
    let mut b = hi;
    while b > a && white_space(v[b - 1])
        invariant
            a <= b <= hi <= v@.len(),
            forall|k: int| b <= k < hi ==> is_white_space(#[trigger] v@[k]),
        decreases b - a,
    {
        b = b - 1;
    }
    proof {
        lemma_trim_end(v@, a as int, b as int, hi as int);
    }
    let mut s = String::new();
    let mut k = a;
    while k < b
        invariant
            a <= k <= b <= v@.len(),
            s@ == v@.subrange(a as int, k as int),
        decreases b - k,
    {
        push_char(&mut s, v[k]);
        proof {
            assert(v@.subrange(a as int, k + 1) =~= v@.subrange(a as int, k as int).push(v@[k as int]));
        }
        k = k + 1;
    }
    s
}

/// The text trimmed, as `str::trim` does.
pub fn trim_text(text: &str) -> (s: String)
    ensures
        s@ == trim(text@),
{
    let v = str_to_chars(text);
    proof {
        assert(v@.subrange(0, v@.len() as int) =~= v@);
    }
    trimmed(&v, 0, v.len())
}

// ---------------------------------------------------------------------------
// Lines of a text

/// Position of the first `c` at or after `p`, or the length when there is
/// none.
pub open spec fn find_char(s: Seq<char>, c: char, p: int) -> int
    decreases s.len() - p,
{
    if p >= s.len() {
        s.len() as int
    } else if s[p] == c {
        p
    } else {
        find_char(s, c, p + 1)
    }
}

proof fn lemma_find_char(s: Seq<char>, c: char, p: int)
    requires
        0 <= p <= s.len(),
    ensures
        p <= find_char(s, c, p) <= s.len(),
        find_char(s, c, p) < s.len() ==> s[find_char(s, c, p)] == c,
        forall|k: int| p <= k < find_char(s, c, p) ==> s[k] != c,
    decreases s.len() - p,
{
    if p < s.len() && s[p] != c {
        lemma_find_char(s, c, p + 1);
    }
}

/// The line without a carriage return before its line feed.
pub open spec fn strip_cr(line: Seq<char>) -> Seq<char> {
    if line.len() > 0 && line.last() == '\r' {
        line.drop_last()
    } else {
        line
    }
}

/// The lines of a text, as `str::lines` gives them: split at `\n`, a `\r`
/// right before a `\n` dropped, the final line ending optional.
pub open spec fn text_lines(s: Seq<char>) -> Seq<Seq<char>>
    decreases s.len(),
{
    if s.len() == 0 {
        seq![]
    } else {
        let j = next_newline(s, 0);
        if j >= s.len() {
            seq![s]
        } else {
            proof {
                lemma_next_newline_bounds(s, 0);
            }
            seq![strip_cr(s.take(j))] + text_lines(s.skip(j + 1))
        }
    }
}

proof fn lemma_next_newline_shift(s: Seq<char>, p: int, q: int)
    requires
        0 <= p <= q <= s.len(),
    ensures
        next_newline(s.skip(p), q - p) == next_newline(s, q) - p,
    decreases s.len() - q,
{
    if q < s.len() && s[q] != '\n' {
        lemma_next_newline_shift(s, p, q + 1);
    }
}

proof fn lemma_next_newline_at(s: Seq<char>, p: int, j: int)
    requires
        0 <= p <= j <= s.len(),
        forall|k: int| p <= k < j ==> s[k] != '\n',
        j == s.len() || s[j] == '\n',
    ensures
        next_newline(s, p) == j,
    decreases j - p,
{
    if p < j {
        lemma_next_newline_at(s, p + 1, j);
    }
}

// ---------------------------------------------------------------------------
// The history of servers

/// A saved server: the name shown for it and its `ip:port` address.
#[derive(Debug, Clone)]
pub struct HistoryItem {
    pub alias: String,
    pub ip: String,
}

/// A history entry as two character sequences, alias then address.
pub type HistoryEntry = (Seq<char>, Seq<char>);

/// The entries of the items.
pub open spec fn entries(items: Seq<HistoryItem>) -> Seq<HistoryEntry> {
    items.map_values(|it: HistoryItem| (it.alias@, it.ip@))
}

/// The entry a line of the history file holds: with exactly one `=`, the
/// trimmed text before it is the alias and the trimmed text after it the
/// address; a line without `=`, or with several, names an address that is
/// its own alias; a blank line holds none.
pub open spec fn line_entry(line: Seq<char>) -> Option<HistoryEntry> {
    let k = find_char(line, '=', 0);
    if k < line.len() && find_char(line, '=', k + 1) == line.len() {
        Some((trim(line.take(k)), trim(line.skip(k + 1))))
    } else if trim(line).len() > 0 {
        Some((trim(line), trim(line)))
    } else {
        None
    }
}

/// The entries of the lines, in order.
pub open spec fn lines_entries(lines: Seq<Seq<char>>) -> Seq<HistoryEntry>
    decreases lines.len(),
{
    if lines.len() == 0 {
        seq![]
    } else {
        let rest = lines_entries(lines.drop_first());
        match line_entry(lines[0]) {
            Some(e) => seq![e] + rest,
            None => rest,
        }
    }
}

/// The entries a history file holds.
pub open spec fn parsed_history(text: Seq<char>) -> Seq<HistoryEntry> {
    lines_entries(text_lines(text))
}

/// The item of the line `v[lo..hi]`, if it holds one; see `line_entry`.
fn entry_of_line(v: &Vec<char>, lo: usize, hi: usize) -> (item: Option<HistoryItem>)
    requires
        lo <= hi <= v@.len(),
    ensures
        match line_entry(v@.subrange(lo as int, hi as int)) {
            Some(e) => item matches Some(it) && it.alias@ == e.0 && it.ip@ == e.1,
            None => item is None,
        },
{
    let ghost line = v@.subrange(lo as int, hi as int);
    let mut k = lo;
    while k < hi && v[k] != '='
        invariant
            lo <= k <= hi <= v@.len(),
            forall|j: int| lo <= j < k ==> v@[j] != '=',
        decreases hi - k,
    {
        k = k + 1;
    }
    let mut m = if k < hi { k + 1 } else { hi };
    while m < hi && v[m] != '='
        invariant
            k <= hi ==> m <= hi,
            k < hi ==> k + 1 <= m,
            k == hi ==> m == hi,
            hi <= v@.len(),
            forall|j: int| k + 1 <= j < m ==> v@[j] != '=',
        decreases hi - m,
    {
        m = m + 1;
    }
    proof {
        lemma_find_char(line, '=', 0);
        assert forall|j: int| 0 <= j < k - lo implies line[j] != '=' by {
            assert(line[j] == v@[lo + j]);
        }
        if k < hi {
            assert(line[k - lo] == '=');
            assert(find_char(line, '=', 0) == k - lo) by {
                lemma_find_first(line, '=', 0, k - lo);
            }
            lemma_find_char(line, '=', k - lo + 1);
            assert forall|j: int| k - lo + 1 <= j < m - lo implies line[j] != '=' by {
                assert(line[j] == v@[lo + j]);
            }
            if m < hi {
                assert(line[m - lo] == '=');
                lemma_find_first(line, '=', k - lo + 1, m - lo);
            } else {
                lemma_find_none(line, '=', k - lo + 1);
            }
        } else {
            lemma_find_none(line, '=', 0);
        }
    }
    if k < hi && m == hi {
        let alias = trimmed(v, lo, k);
        let ip = trimmed(v, k + 1, hi);
        proof {
            assert(line.take(k - lo) =~= v@.subrange(lo as int, k as int));
            assert(line.skip(k - lo + 1) =~= v@.subrange(k + 1, hi as int));
        }
        Some(HistoryItem { alias, ip })
    } else {
        let whole = trimmed(v, lo, hi);
        if whole.as_str().is_empty() {
            None
        } else {
            let same = whole.clone();
            Some(HistoryItem { alias: whole, ip: same })
        }
    }
}

proof fn lemma_find_first(s: Seq<char>, c: char, p: int, k: int)
    requires
        0 <= p <= k < s.len(),
        s[k] == c,
        forall|j: int| p <= j < k ==> s[j] != c,
    ensures
        find_char(s, c, p) == k,
    decreases k - p,
{
    if p < k {
        lemma_find_first(s, c, p + 1, k);
    }
}

proof fn lemma_find_none(s: Seq<char>, c: char, p: int)
    requires
        0 <= p <= s.len(),
        forall|j: int| p <= j < s.len() ==> s[j] != c,
    ensures
        find_char(s, c, p) == s.len(),
    decreases s.len() - p,
{
    if p < s.len() {
        lemma_find_none(s, c, p + 1);
    }
}

/// The saved servers of a history file's text, in the order of its lines;
/// see `line_entry`.
pub fn parse_history(content: &str) -> (items: Vec<HistoryItem>)
    ensures
        entries(items@) == parsed_history(content@),
{
    let v = str_to_chars(content);
    let ghost s = v@;
    let n = v.len();
    let mut items: Vec<HistoryItem> = Vec::new();
    let mut p: usize = 0;
    proof {
        assert(s.skip(0) =~= s);
        assert(entries(items@) =~= Seq::<HistoryEntry>::empty());
        assert(entries(items@) + parsed_history(s) =~= parsed_history(s));
    }
    while p < n
        invariant
            n == s.len(),
            v@ == s,
            p <= n,
            entries(items@) + lines_entries(text_lines(s.skip(p as int))) == parsed_history(s),
        decreases n - p,
    {
        let mut j = p;
        while j < n && v[j] != '\n'
            invariant
                p <= j <= n,
                n == s.len(),
                v@ == s,
                forall|k: int| p <= k < j ==> s[k] != '\n',
            decreases n - j,
        {
            j = j + 1;
        }
        let ghost t = s.skip(p as int);
        proof {
            lemma_next_newline_shift(s, p as int, p as int);
            lemma_next_newline_at(s, p as int, j as int);
            assert(next_newline(t, 0) == j - p);
        }
        let end = if j < n && j > p && v[j - 1] == '\r' { j - 1 } else { j };
        let item = entry_of_line(&v, p, end);
        let ghost line = v@.subrange(p as int, end as int);
        proof {
            if j < n {
                assert(t.take(j - p) =~= s.subrange(p as int, j as int));
                assert(strip_cr(t.take(j - p)) =~= line);
                assert(t.skip(j - p + 1) =~= s.skip(j + 1));
                assert(text_lines(t) == seq![line] + text_lines(s.skip(j + 1)));
            } else {
                assert(t =~= line);
                assert(text_lines(t) == seq![line]);
                assert(s.skip(n as int) =~= Seq::<char>::empty());
            }
        }
        let ghost before = entries(items@);
        match item {
            Some(it) => {
                items.push(it);
                proof {
                    assert(entries(items@) =~= before.push((items@.last().alias@, items@.last().ip@)));
                }
            },
            None => {},
        }
        proof {
            let rest_lines = if j < n { text_lines(s.skip(j + 1)) } else { Seq::<Seq<char>>::empty() };
            assert((seq![line] + rest_lines).drop_first() =~= rest_lines);
            assert((seq![line] + rest_lines)[0] == line);
            if j >= n {
                assert(text_lines(s.skip(n as int)) =~= Seq::<Seq<char>>::empty()) by {
                    assert(s.skip(n as int) =~= Seq::<char>::empty());
                }
            }
        }
        p = if j < n { j + 1 } else { n };
        proof {
            assert(entries(items@) + lines_entries(text_lines(s.skip(p as int))) =~= parsed_history(s));
        }
    }
    proof {
        assert(s.skip(n as int) =~= Seq::<char>::empty());
        assert(entries(items@) + lines_entries(text_lines(s.skip(n as int))) =~= entries(items@));
    }
    items
}

// ---------------------------------------------------------------------------
// Writing the history

/// The line of the history file for an entry: `alias=ip` and a line feed.
pub open spec fn entry_line(e: HistoryEntry) -> Seq<char> {
    e.0 + seq!['='] + e.1 + seq!['\n']
}

/// The text of a history file holding the entries, one line each.
pub open spec fn history_text_of(es: Seq<HistoryEntry>) -> Seq<char>
    decreases es.len(),
{
    if es.len() == 0 {
        seq![]
    } else {
        entry_line(es[0]) + history_text_of(es.drop_first())
    }
}

proof fn lemma_history_text_push(es: Seq<HistoryEntry>, e: HistoryEntry)
    ensures
        history_text_of(es.push(e)) == history_text_of(es) + entry_line(e),
    decreases es.len(),
{
    if es.len() == 0 {
        assert(es.push(e).drop_first() =~= Seq::<HistoryEntry>::empty());
        assert(history_text_of(Seq::<HistoryEntry>::empty()) =~= Seq::<char>::empty());
        assert(es.push(e)[0] == e);
        assert(history_text_of(es.push(e)) =~= entry_line(e) + Seq::<char>::empty());
        assert(history_text_of(es) + entry_line(e) =~= entry_line(e));
    } else {
        assert(es.push(e).drop_first() =~= es.drop_first().push(e));
        lemma_history_text_push(es.drop_first(), e);
        assert(history_text_of(es.push(e)) =~= entry_line(es[0]) + (history_text_of(es.drop_first()) + entry_line(e)));
    }
}

/// The text of the history file for the items: `alias=ip` per line.
pub fn history_file_text(items: &Vec<HistoryItem>) -> (text: String)
    ensures
        text@ == history_text_of(entries(items@)),
{
    let mut text = String::new();
    let mut i: usize = 0;
    while i < items.len()
        invariant
            i <= items@.len(),
            text@ == history_text_of(entries(items@).take(i as int)),
        decreases items@.len() - i,
    {
        let ghost before = text@;
        text.append(items[i].alias.as_str());
        text.append("=");
        text.append(items[i].ip.as_str());
        text.append("\n");
        proof {
            reveal_strlit("=");
            reveal_strlit("\n");
            let es = entries(items@);
            assert(es.take(i + 1) =~= es.take(i as int).push(es[i as int]));
            lemma_history_text_push(es.take(i as int), es[i as int]);
            assert(text@ =~= before + entry_line(es[i as int]));
        }
        i = i + 1;
    }
    proof {
        assert(entries(items@).take(items@.len() as int) =~= entries(items@));
    }
    text
}

/// An entry that survives a write and a read of the history file: neither
/// part holds `=` or a line feed or has white space at either end, and the
/// address does not end with a carriage return.
pub open spec fn storable(e: HistoryEntry) -> bool {
    &&& forall|k: int| 0 <= k < e.0.len() ==> #[trigger] e.0[k] != '=' && e.0[k] != '\n'
    &&& forall|k: int| 0 <= k < e.1.len() ==> #[trigger] e.1[k] != '=' && e.1[k] != '\n'
    &&& trim(e.0) == e.0
    &&& trim(e.1) == e.1
    &&& (e.1.len() == 0 || e.1.last() != '\r')
}

/// Reading back the text written for storable entries gives the same
/// entries in the same order.
pub proof fn law_history_roundtrip(es: Seq<HistoryEntry>)
    requires
        forall|i: int| 0 <= i < es.len() ==> storable(#[trigger] es[i]),
    ensures
        parsed_history(history_text_of(es)) == es,
    decreases es.len(),
{
    if es.len() > 0 {
        let e = es[0];
        assert(storable(e));
        let rest = es.drop_first();
        assert forall|i: int| 0 <= i < rest.len() implies storable(#[trigger] rest[i]) by {
            assert(rest[i] == es[i + 1]);
        }
        law_history_roundtrip(rest);
        let line = e.0 + seq!['='] + e.1;
        let text = history_text_of(es);
        let tail = history_text_of(rest);
        let j = line.len() as int;
        assert(text =~= line + seq!['\n'] + tail);
        assert forall|k: int| 0 <= k < j implies text[k] != '\n' by {
            assert(text[k] == line[k]);
            if k < e.0.len() {
                assert(line[k] == e.0[k]);
            } else if k > e.0.len() {
                assert(line[k] == e.1[k - e.0.len() - 1]);
            }
        }
        assert(text[j] == '\n');
        lemma_next_newline_at(text, 0, j);
        assert(text.take(j) =~= line);
        assert(strip_cr(line) == line) by {
            if e.1.len() > 0 {
                assert(line.last() == e.1.last());
            } else {
                assert(line.last() == '=');
            }
        }
        assert(text.skip(j + 1) =~= tail);
        assert(text_lines(text) == seq![line] + text_lines(tail));
        let a = e.0.len() as int;
        assert(line[a] == '=');
        assert forall|k: int| 0 <= k < a implies line[k] != '=' by {
            assert(line[k] == e.0[k]);
        }
        lemma_find_first(line, '=', 0, a);
        assert forall|k: int| a + 1 <= k < line.len() implies line[k] != '=' by {
            assert(line[k] == e.1[k - a - 1]);
        }
        lemma_find_none(line, '=', a + 1);
        assert(line.take(a) =~= e.0);
        assert(line.skip(a + 1) =~= e.1);
        assert(line_entry(line) == Some(e));
        let ls = seq![line] + text_lines(tail);
        assert(ls.drop_first() =~= text_lines(tail));
        assert(parsed_history(text) =~= seq![e] + rest);
        assert(seq![e] + rest =~= es);
    } else {
        assert(history_text_of(es) =~= Seq::<char>::empty());
    }
}

// ---------------------------------------------------------------------------
// The launcher's state

/// The input field that receives typed characters.
#[derive(Debug, Clone, Copy, PartialEq, Eq, Structural)]
pub enum FocusedField {
    Ip,
    Username,
    Alias,
}

/// Why the launcher did not connect.
#[derive(Debug, Clone, Copy, PartialEq, Eq, Structural)]
pub enum LaunchError {
    EmptyUsername,
    EmptyAddress,
    BadAddress,
}

impl LaunchError {
    /// The text shown for the error.
    pub fn message(&self) -> (text: String)
        ensures
            text@ == launch_error_text(*self),
    {
        match self {
            LaunchError::EmptyUsername => String::from_str("Username cannot be empty!"),
            LaunchError::EmptyAddress => String::from_str("IP Address cannot be empty!"),
            LaunchError::BadAddress => String::from_str("Invalid IP address formatting!"),
        }
    }
}

/// The text shown for an error.
pub open spec fn launch_error_text(e: LaunchError) -> Seq<char> {
    match e {
        LaunchError::EmptyUsername => "Username cannot be empty!"@,
        LaunchError::EmptyAddress => "IP Address cannot be empty!"@,
        LaunchError::BadAddress => "Invalid IP address formatting!"@,
    }
}

/// The launcher: three input fields, the focused one, the saved servers
/// and the last error.
pub struct LauncherState {
    pub ip_input: String,
    pub username_input: String,
    pub alias_input: String,
    pub focused_field: FocusedField,
    pub history: Vec<HistoryItem>,
    pub error_msg: Option<LaunchError>,
}

/// The number of bytes of the text in UTF-8.
pub open spec fn byte_len(s: Seq<char>) -> nat {
    vstd::utf8::encode_utf8(s).len()
}

/// Longest address, user name and alias that typing extends, in bytes.
pub const MAX_IP_BYTES: usize = 30;
pub const MAX_USERNAME_BYTES: usize = 16;
pub const MAX_ALIAS_BYTES: usize = 20;

/// A character the fields accept: printable ASCII other than space, or a
/// space.
pub open spec fn typeable(c: char) -> bool {
    (0x21 <= c as u32 <= 0x7e) || c == ' '
}

/// The field after typing `c`: it grows by `c` when `c` is typeable and
/// the field is shorter than `limit` bytes.
pub open spec fn typed(field: Seq<char>, c: char, limit: nat) -> Seq<char> {
    if typeable(c) && byte_len(field) < limit {
        field.push(c)
    } else {
        field
    }
}

/// The history after saving the address with the alias: the address moves
/// to the top, under the alias, or under its own name when the alias is
/// empty; no other entry keeps that address.
pub open spec fn saved(history: Seq<HistoryEntry>, ip: Seq<char>, alias: Seq<char>) -> Seq<HistoryEntry> {
    let name = if alias.len() == 0 {
        ip
    } else {
        alias
    };
    seq![(name, ip)] + history.filter(other_address(ip))
}

/// The entry is for another address.
pub open spec fn other_address(ip: Seq<char>) -> spec_fn(HistoryEntry) -> bool {
    |e: HistoryEntry| e.1 != ip
}

/// The entry is for the address.
pub open spec fn same_address(ip: Seq<char>) -> spec_fn(HistoryEntry) -> bool {
    |e: HistoryEntry| e.1 == ip
}

proof fn lemma_filter_twice_same(es: Seq<HistoryEntry>, p: spec_fn(HistoryEntry) -> bool)
    ensures
        es.filter(p).filter(p) == es.filter(p),
    decreases es.len(),
{
    if es.len() > 0 {
        let init = es.drop_last();
        let x = es.last();
        lemma_filter_twice_same(init, p);
        assert(init.push(x) =~= es);
        init.lemma_filter_push(x, p);
        init.filter(p).lemma_filter_push(x, p);
    } else {
        reveal(Seq::filter);
        assert(es.filter(p) =~= es);
    }
}

proof fn lemma_filter_none(es: Seq<HistoryEntry>, p: spec_fn(HistoryEntry) -> bool)
    requires
        forall|i: int| 0 <= i < es.len() ==> !p(#[trigger] es[i]),
    ensures
        es.filter(p).len() == 0,
    decreases es.len(),
{
    if es.len() > 0 {
        let init = es.drop_last();
        assert forall|i: int| 0 <= i < init.len() implies !p(#[trigger] init[i]) by {
            assert(init[i] == es[i]);
        }
        lemma_filter_none(init, p);
        assert(init.push(es.last()) =~= es);
        init.lemma_filter_push(es.last(), p);
        assert(!p(es[es.len() - 1]));
    } else {
        reveal(Seq::filter);
    }
}

/// Saving the same address with the same alias a second time leaves the
/// history, and the text written for it, as the first save left them; and
/// after a save the address occurs in exactly one entry, the first.
pub proof fn law_save_twice_is_save_once(history: Seq<HistoryEntry>, ip: Seq<char>, alias: Seq<char>)
    ensures
        saved(saved(history, ip, alias), ip, alias) == saved(history, ip, alias),
        history_text_of(saved(saved(history, ip, alias), ip, alias)) == history_text_of(saved(history, ip, alias)),
        saved(history, ip, alias)[0].1 == ip,
        saved(history, ip, alias).filter(same_address(ip)).len() == 1,
{
    let once = saved(history, ip, alias);
    let rest = history.filter(other_address(ip));
    let first = once[0];
    assert(once == seq![first] + rest);
    rest.lemma_filter_prepend(first, other_address(ip));
    lemma_filter_twice_same(history, other_address(ip));
    assert(once.filter(other_address(ip)) =~= rest);
    assert forall|i: int| 0 <= i < rest.len() implies !same_address(ip)(#[trigger] rest[i]) by {
        history.lemma_filter_pred(other_address(ip), i);
    }
    lemma_filter_none(rest, same_address(ip));
    rest.lemma_filter_prepend(first, same_address(ip));
    assert(once.filter(same_address(ip)) =~= seq![first]);
}

/// The field after `Tab`.
pub open spec fn next_field(f: FocusedField) -> FocusedField {
    match f {
        FocusedField::Ip => FocusedField::Username,
        FocusedField::Username => FocusedField::Alias,
        FocusedField::Alias => FocusedField::Ip,
    }
}

/// The address with the default port appended when it names none.
pub open spec fn with_port(ip: Seq<char>) -> Seq<char> {
    if ip.contains(':') {
        ip
    } else {
        ip + ":10500"@
    }
}

/// What a connection attempt asks for: the address (with its port), the
/// user name and the alias, all trimmed; or the error when the user name
/// or the address is blank.
pub open spec fn connect_check(ip: Seq<char>, user: Seq<char>, alias: Seq<char>) -> Result<(Seq<char>, Seq<char>, Seq<char>), LaunchError> {
    if trim(user).len() == 0 {
        Err(LaunchError::EmptyUsername)
    } else if trim(ip).len() == 0 {
        Err(LaunchError::EmptyAddress)
    } else {
        Ok((with_port(trim(ip)), trim(user), trim(alias)))
    }
}

/// The address with `:10500` appended when it holds no `:`.
pub fn with_default_port(ip: &str) -> (addr: String)
    ensures
        addr@ == with_port(ip@),
{
    let v = str_to_chars(ip);
    let mut k: usize = 0;
    while k < v.len() && v[k] != ':'
        invariant
            k <= v@.len(),
            v@ == ip@,
            forall|j: int| 0 <= j < k ==> v@[j] != ':',
        decreases v@.len() - k,
    {
        k = k + 1;
    }
    let mut addr = String::from_str(ip);
    if k == v.len() {
        addr.append(":10500");
        proof {
            assert(!ip@.contains(':'));
        }
    } else {
        proof {
            assert(ip@[k as int] == ':');
        }
    }
    addr
}

impl LauncherState {
    /// A launcher with empty fields, the address focused, no error, and
    /// the saved servers.
    pub fn new(history: Vec<HistoryItem>) -> (s: LauncherState)
        ensures
            s.ip_input@.len() == 0,
            s.username_input@.len() == 0,
            s.alias_input@.len() == 0,
            s.focused_field == FocusedField::Ip,
            s.history@ == history@,
            s.error_msg is None,
    {
        LauncherState {
            ip_input: String::new(),
            username_input: String::new(),
            alias_input: String::new(),
            focused_field: FocusedField::Ip,
            history,
            error_msg: None,
        }
    }

    /// Moves the address to the top of the history; see `saved`.
    pub fn save_to_history(&mut self, ip: &str, alias: &str)
        ensures
            entries(final(self).history@) == saved(entries(old(self).history@), ip@, alias@),
            final(self).ip_input == old(self).ip_input,
            final(self).username_input == old(self).username_input,
            final(self).alias_input == old(self).alias_input,
            final(self).focused_field == old(self).focused_field,
            final(self).error_msg == old(self).error_msg,
    {
        let ghost old_es = entries(self.history@);
        let target = String::from_str(ip);
        let mut kept: Vec<HistoryItem> = Vec::new();
        let mut i: usize = 0;
        while i < self.history.len()
            invariant
                i <= self.history@.len(),
                old_es == entries(self.history@),
                target@ == ip@,
                entries(kept@) == old_es.take(i as int).filter(other_address(ip@)),
            decreases self.history@.len() - i,
        {
            proof {
                assert(old_es.take(i + 1) =~= old_es.take(i as int).push(old_es[i as int]));
                old_es.take(i as int).lemma_filter_push(old_es[i as int], other_address(ip@));
                assert(old_es[i as int] == (self.history@[i as int].alias@, self.history@[i as int].ip@));
            }
            if !self.history[i].ip.eq(&target) {
                let ghost before = entries(kept@);
                kept.push(HistoryItem { alias: self.history[i].alias.clone(), ip: self.history[i].ip.clone() });
                proof {
                    assert(entries(kept@) =~= before.push(old_es[i as int]));
                }
            }
            i = i + 1;
        }
        proof {
            assert(old_es.take(old_es.len() as int) =~= old_es);
        }
        let name = if alias.is_empty() {
            String::from_str(ip)
        } else {
            String::from_str(alias)
        };
        let ghost rest = entries(kept@);
        kept.insert(0, HistoryItem { alias: name, ip: target });
        proof {
            assert(entries(kept@) =~= seq![(if alias@.len() == 0 { ip@ } else { alias@ }, ip@)] + rest);
        }
        self.history = kept;
    }

    /// Removes the saved server at `idx`, if there is one, and tells
    /// whether it did.
    pub fn delete_from_history(&mut self, idx: usize) -> (removed: bool)
        ensures
            removed == (idx < old(self).history@.len()),
            removed ==> final(self).history@ == old(self).history@.remove(idx as int),
            !removed ==> final(self).history@ == old(self).history@,
            final(self).ip_input == old(self).ip_input,
            final(self).username_input == old(self).username_input,
            final(self).alias_input == old(self).alias_input,
            final(self).focused_field == old(self).focused_field,
            final(self).error_msg == old(self).error_msg,
    {
        if idx < self.history.len() {
            self.history.remove(idx);
            true
        } else {
            false
        }
    }

    /// The text of the history file for the saved servers.
    pub fn history_text(&self) -> (text: String)
        ensures
            text@ == history_text_of(entries(self.history@)),
    {
        history_file_text(&self.history)
    }

    /// `Tab`: the next field gets the focus.
    pub fn cycle_focus(&mut self)
        ensures
            final(self).focused_field == next_field(old(self).focused_field),
            final(self).ip_input == old(self).ip_input,
            final(self).username_input == old(self).username_input,
            final(self).alias_input == old(self).alias_input,
            final(self).history@ == old(self).history@,
            final(self).error_msg == old(self).error_msg,
    {
        self.focused_field = match self.focused_field {
            FocusedField::Ip => FocusedField::Username,
            FocusedField::Username => FocusedField::Alias,
            FocusedField::Alias => FocusedField::Ip,
        };
    }

    /// A typed character goes into the focused field; see `typed`. (The
    /// byte lengths fit in `usize`, as those of any string in memory do.)
    pub fn type_char(&mut self, c: char)
        requires
            byte_len(old(self).ip_input@) <= usize::MAX,
            byte_len(old(self).username_input@) <= usize::MAX,
            byte_len(old(self).alias_input@) <= usize::MAX,
        ensures
            final(self).ip_input@ == if old(self).focused_field == FocusedField::Ip {
                typed(old(self).ip_input@, c, MAX_IP_BYTES as nat)
            } else {
                old(self).ip_input@
            },
            final(self).username_input@ == if old(self).focused_field == FocusedField::Username {
                typed(old(self).username_input@, c, MAX_USERNAME_BYTES as nat)
            } else {
                old(self).username_input@
            },
            final(self).alias_input@ == if old(self).focused_field == FocusedField::Alias {
                typed(old(self).alias_input@, c, MAX_ALIAS_BYTES as nat)
            } else {
                old(self).alias_input@
            },
            final(self).focused_field == old(self).focused_field,
            final(self).history@ == old(self).history@,
            final(self).error_msg == old(self).error_msg,
    {
        let code = c as u32;
        if !((0x21 <= code && code <= 0x7e) || c == ' ') {
            return;
        }
        match self.focused_field {
            FocusedField::Ip => {
                if self.ip_input.as_str().len() < MAX_IP_BYTES {
                    push_char(&mut self.ip_input, c);
                }
            },
            FocusedField::Username => {
                if self.username_input.as_str().len() < MAX_USERNAME_BYTES {
                    push_char(&mut self.username_input, c);
                }
            },
            FocusedField::Alias => {
                if self.alias_input.as_str().len() < MAX_ALIAS_BYTES {
                    push_char(&mut self.alias_input, c);
                }
            },
        }
    }

    /// `Backspace`: the focused field loses its last character.
    pub fn erase_char(&mut self)
        ensures
            final(self).ip_input@ == if old(self).focused_field == FocusedField::Ip && old(self).ip_input@.len() > 0 {
                old(self).ip_input@.drop_last()
            } else {
                old(self).ip_input@
            },
            final(self).username_input@ == if old(self).focused_field == FocusedField::Username
                && old(self).username_input@.len() > 0 {
                old(self).username_input@.drop_last()
            } else {
                old(self).username_input@
            },
            final(self).alias_input@ == if old(self).focused_field == FocusedField::Alias && old(self).alias_input@.len()
                > 0 {
                old(self).alias_input@.drop_last()
            } else {
                old(self).alias_input@
            },
            final(self).focused_field == old(self).focused_field,
            final(self).history@ == old(self).history@,
            final(self).error_msg == old(self).error_msg,
    {
        match self.focused_field {
            FocusedField::Ip => {
                pop_char(&mut self.ip_input);
            },
            FocusedField::Username => {
                pop_char(&mut self.username_input);
            },
            FocusedField::Alias => {
                pop_char(&mut self.alias_input);
            },
        }
    }

    /// A click on the saved server at `idx`: its address and alias fill
    /// the fields, the user name gets the focus and the error goes.
    pub fn select_history(&mut self, idx: usize)
        requires
            idx < old(self).history@.len(),
        ensures
            final(self).ip_input@ == old(self).history@[idx as int].ip@,
            final(self).alias_input@ == old(self).history@[idx as int].alias@,
            final(self).username_input == old(self).username_input,
            final(self).focused_field == FocusedField::Username,
            final(self).history@ == old(self).history@,
            final(self).error_msg is None,
    {
        self.ip_input = self.history[idx].ip.clone();
        self.alias_input = self.history[idx].alias.clone();
        self.focused_field = FocusedField::Username;
        self.error_msg = None;
    }

    /// A connection attempt: the trimmed address with its port, the user
    /// name and the alias, or, when the user name or the address is blank,
    /// `None` with the error recorded; see `connect_check`. The client
    /// still checks that the address parses, and saves it on success.
    pub fn connect_request(&mut self) -> (req: Option<(String, String, String)>)
        ensures
            match connect_check(old(self).ip_input@, old(self).username_input@, old(self).alias_input@) {
                Ok(r) => req matches Some(t) && t.0@ == r.0 && t.1@ == r.1 && t.2@ == r.2 && final(self).error_msg
                    == old(self).error_msg,
                Err(e) => req is None && final(self).error_msg == Some(e),
            },
            final(self).ip_input == old(self).ip_input,
            final(self).username_input == old(self).username_input,
            final(self).alias_input == old(self).alias_input,
            final(self).focused_field == old(self).focused_field,
            final(self).history@ == old(self).history@,
    {
        let ip = trim_text(self.ip_input.as_str());
        let name = trim_text(self.username_input.as_str());
        let alias = trim_text(self.alias_input.as_str());
        if name.as_str().is_empty() {
            self.error_msg = Some(LaunchError::EmptyUsername);
            None
        } else if ip.as_str().is_empty() {
            self.error_msg = Some(LaunchError::EmptyAddress);
            None
        } else {
            let addr = with_default_port(ip.as_str());
            Some((addr, name, alias))
        }
    }
}

} // verus!
