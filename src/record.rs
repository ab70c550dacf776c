use vstd::prelude::*;
use vstd::utf8::encode_utf8;

use crate::ulid::{decode_spec, encode_spec, DecodeError, Ulid};

verus! {

/// The fields of a record line, in the order in which they stand.
#[derive(Debug, PartialEq, Eq, Structural, Clone, Copy)]
pub enum Field {
    Id,
    App,
    Category,
    Event,
}

/// Why a record could not be written or read.
#[derive(Debug, PartialEq, Eq, Structural, Clone, Copy)]
pub enum RecordError {
    /// The payload holds a line break.
    Unwritable,
    /// The line does not have the shape of a record.
    Malformed,
    /// The identifier field is not a canonical identifier.
    InvalidId(DecodeError),
}

/// The key table: current names and the aliases of the older schema.
pub open spec fn field_of(key: Seq<char>) -> Option<Field> {
    if key == "id"@ || key == "_"@ {
        Some(Field::Id)
    } else if key == "app"@ || key == "_a"@ {
        Some(Field::App)
    } else if key == "category"@ || key == "_c"@ {
        Some(Field::Category)
    } else if key == "event"@ {
        Some(Field::Event)
    } else {
        None
    }
}

/// A character that may stand inside a quoted text as it is.
pub open spec fn is_plain_char(c: char) -> bool {
    c != '"' && c != '\\' && c >= ' '
}

/// Every character of `s` may stand inside a quoted text as it is.
pub open spec fn is_plain(s: Seq<char>) -> bool {
    forall|i: int| 0 <= i < s.len() ==> is_plain_char(#[trigger] s[i])
}

/// The index of the quote that ends an unescaped text starting at `i`
/// (keys are such texts).
pub open spec fn plain_end(s: Seq<char>, i: int) -> Option<int>
    decreases s.len() - i,
{
    if i < 0 || i >= s.len() {
        None
    } else if s[i] == '"' {
        Some(i)
    } else if !is_plain_char(s[i]) {
        None
    } else {
        plain_end(s, i + 1)
    }
}

/// A quoted unescaped text opening at `i`: the index of its closing quote.
pub open spec fn quoted_end(s: Seq<char>, i: int) -> Option<int> {
    if 0 <= i < s.len() && s[i] == '"' {
        plain_end(s, i + 1)
    } else {
        None
    }
}

/// A key `"k":` opening at `i`: the index of the quote that closes `k`.
pub open spec fn key_end(s: Seq<char>, i: int) -> Option<int> {
    match quoted_end(s, i) {
        Some(e) => if e + 1 < s.len() && s[e + 1] == ':' {
            Some(e)
        } else {
            None
        },
        None => None,
    }
}

/// The value of a hexadecimal digit.
pub open spec fn hex_value(c: char) -> Option<nat> {
    if '0' <= c <= '9' {
        Some((c as nat - 48) as nat)
    } else if 'a' <= c <= 'f' {
        Some((c as nat - 87) as nat)
    } else if 'A' <= c <= 'F' {
        Some((c as nat - 55) as nat)
    } else {
        None
    }
}

/// The character that the escape opening (with its backslash) at `i`
/// stands for, and the escape's length.  A `\u` escape is read for the
/// control characters, the only ones that need one.
pub open spec fn escape_at(s: Seq<char>, i: int) -> Option<(char, int)> {
    if !(0 <= i && i + 1 < s.len() && s[i] == '\\') {
        None
    } else {
        let e = s[i + 1];
        if e == '"' {
            Some(('"', 2))
        } else if e == '\\' {
            Some(('\\', 2))
        } else if e == '/' {
            Some(('/', 2))
        } else if e == 'b' {
            Some(('\u{8}', 2))
        } else if e == 'f' {
            Some(('\u{c}', 2))
        } else if e == 'n' {
            Some(('\n', 2))
        } else if e == 'r' {
            Some(('\r', 2))
        } else if e == 't' {
            Some(('\t', 2))
        } else if e == 'u' && i + 5 < s.len() {
            match (hex_value(s[i + 2]), hex_value(s[i + 3]), hex_value(s[i + 4]), hex_value(s[i + 5])) {
                (Some(a), Some(b), Some(c), Some(d)) => {
                    let v = a * 4096 + b * 256 + c * 16 + d;
                    if v < 32 {
                        Some(((v as u32) as char, 6))
                    } else {
                        None
                    }
                },
                _ => None,
            }
        } else {
            None
        }
    }
}

/// `p` put in front of the text of a reading result.
pub open spec fn prepend(p: Seq<char>, o: Option<(Seq<char>, int)>) -> Option<(Seq<char>, int)> {
    match o {
        Some((d, e)) => Some((p + d, e)),
        None => None,
    }
}

/// The text of a quoted value whose characters start at `i`: the text with
/// its escapes read, and the index of the closing quote.
pub open spec fn text_from(s: Seq<char>, i: int) -> Option<(Seq<char>, int)>
    decreases s.len() - i,
{
    if i < 0 || i >= s.len() {
        None
    } else if s[i] == '"' {
        Some((Seq::empty(), i))
    } else if s[i] == '\\' {
        match escape_at(s, i) {
            Some((c, k)) => prepend(seq![c], text_from(s, i + k)),
            None => None,
        }
    } else if !is_plain_char(s[i]) {
        None
    } else {
        prepend(seq![s[i]], text_from(s, i + 1))
    }
}

/// A text field for `f` opening at `i` and followed by a comma: its text
/// and the index of the quote that closes it.
pub open spec fn text_field(s: Seq<char>, i: int, f: Field) -> Option<(Seq<char>, int)> {
    match key_end(s, i) {
        Some(k) => if field_of(s.subrange(i + 1, k)) == Some(f) && k + 2 < s.len() && s[k + 2]
            == '"' {
            match text_from(s, k + 3) {
                Some((v, e)) => if e + 1 < s.len() && s[e + 1] == ',' {
                    Some((v, e))
                } else {
                    None
                },
                None => None,
            }
        } else {
            None
        },
        None => None,
    }
}

/// What a record line holds: identifier, application, category and the
/// payload's JSON text.
pub open spec fn parse_line_spec(s: Seq<char>) -> Result<
    (u128, Seq<char>, Seq<char>, Seq<char>),
    RecordError,
> {
    if !(s.len() >= 2 && s[0] == '{' && s[s.len() - 1] == '}') {
        Err(RecordError::Malformed)
    } else {
        match text_field(s, 1, Field::Id) {
            None => Err(RecordError::Malformed),
            Some((v1, b1)) => match text_field(s, b1 + 2, Field::App) {
                None => Err(RecordError::Malformed),
                Some((v2, b2)) => match text_field(s, b2 + 2, Field::Category) {
                    None => Err(RecordError::Malformed),
                    Some((v3, b3)) => match key_end(s, b3 + 2) {
                        None => Err(RecordError::Malformed),
                        Some(k) => if field_of(s.subrange(b3 + 3, k)) != Some(Field::Event) || k
                            + 2 > s.len() - 1 {
                            Err(RecordError::Malformed)
                        } else {
                            match decode_spec(encode_utf8(v1)) {
                                Err(e) => Err(RecordError::InvalidId(e)),
                                Ok(id) => Ok(
                                    (
                                        id,
                                        v2,
                                        v3,
                                        s.subrange(k + 2, s.len() - 1),
                                    ),
                                ),
                            }
                        },
                    },
                },
            },
        }
    }
}

/// The hexadecimal digit for `v`, in lower case.
pub open spec fn hex_digit(v: nat) -> char {
    if v < 10 {
        ((48 + v) as u32) as char
    } else {
        ((87 + v) as u32) as char
    }
}

/// How one character is written inside a quoted text: a quote and a
/// backslash get a backslash before them, a control character becomes a
/// `\u00XX` escape, anything else stands as it is.
pub open spec fn escape_char(c: char) -> Seq<char> {
    if c == '"' {
        seq!['\\', '"']
    } else if c == '\\' {
        seq!['\\', '\\']
    } else if ' ' > c {
        seq!['\\', 'u', '0', '0', hex_digit((c as u32 / 16) as nat), hex_digit((c as u32 % 16) as nat)]
    } else {
        seq![c]
    }
}

/// How a text is written inside quotes.
pub open spec fn escape(s: Seq<char>) -> Seq<char>
    decreases s.len(),
{
    if s.len() == 0 {
        Seq::empty()
    } else {
        escape_char(s[0]) + escape(s.drop_first())
    }
}

/// A text field `"key":"value"` followed by a comma.
pub open spec fn text_entry(key: Seq<char>, value: Seq<char>) -> Seq<char> {
    "\""@ + key + "\":\""@ + escape(value) + "\""@ + ","@
}

/// The payload entry that ends a line.
pub open spec fn event_entry(event: Seq<char>) -> Seq<char> {
    "\""@ + "event"@ + "\":"@ + event + "}"@
}

/// The line that a record is written as: its fields id, app, category and
/// event, in that order.
pub open spec fn format_line(id: u128, app: Seq<char>, category: Seq<char>, event: Seq<char>) -> Seq<
    char,
> {
    "{"@ + text_entry("id"@, encode_spec(id as nat)) + text_entry("app"@, app) + text_entry(
        "category"@,
        category,
    ) + event_entry(event)
}

/// Whether a payload fits on one line.
pub open spec fn single_line(event: Seq<char>) -> bool {
    !event.contains('\n') && !event.contains('\r')
}

/// One event as stored: identifier, application name, category, and the
/// payload as JSON text.
pub struct LogEvent {
    pub id: Ulid,
    pub app: String,
    pub category: String,
    pub event: String,
}

impl View for LogEvent {
    type V = (u128, Seq<char>, Seq<char>, Seq<char>);

    open spec fn view(&self) -> (u128, Seq<char>, Seq<char>, Seq<char>) {
        (self.id@, self.app@, self.category@, self.event@)
    }
}

fn plain_end_exec(s: &str, n: usize, i: usize) -> (r: Option<usize>)
    requires
        n == s@.len(),
    ensures
        r matches Some(j) ==> i <= j < n,
        r matches Some(j) ==> plain_end(s@, i as int) == Some(j as int),
        r is None ==> plain_end(s@, i as int) is None,
{
    let mut j = i;
    while j < n
        invariant
            n == s@.len(),
            i <= j,
            plain_end(s@, i as int) == plain_end(s@, j as int),
        decreases n - j,
    {
        let c = s.get_char(j);
        if c == '"' {
            return Some(j);
        }
        if c == '\\' || ' ' > c {
            return None;
        }
        j = j + 1;
    }
    None
}

fn quoted_end_exec(s: &str, n: usize, i: usize) -> (r: Option<usize>)
    requires
        n == s@.len(),
    ensures
        r matches Some(j) ==> i < j < n,
        r matches Some(j) ==> quoted_end(s@, i as int) == Some(j as int),
        r is None ==> quoted_end(s@, i as int) is None,
{
    if i < n && s.get_char(i) == '"' {
        plain_end_exec(s, n, i + 1)
    } else {
        None
    }
}

fn key_end_exec(s: &str, n: usize, i: usize) -> (r: Option<usize>)
    requires
        n == s@.len(),
    ensures
        r matches Some(j) ==> i < j && j + 1 < n,
        r matches Some(j) ==> key_end(s@, i as int) == Some(j as int),
        r is None ==> key_end(s@, i as int) is None,
{
    match quoted_end_exec(s, n, i) {
        Some(e) => if e + 1 < n && s.get_char(e + 1) == ':' {
            Some(e)
        } else {
            None
        },
        None => None,
    }
}

/// Whether the characters of `s` from `a` to `b` spell `lit`.
pub(crate) fn span_is(s: &str, a: usize, b: usize, lit: &str) -> (r: bool)
    requires
        a <= b <= s@.len(),
    ensures
        r == (s@.subrange(a as int, b as int) == lit@),
{
    let m = lit.unicode_len();
    if b - a != m {
        return false;
    }
    let mut k: usize = 0;
    while k < m
        invariant
            a <= b <= s@.len(),
            b - a == m,
            m == lit@.len(),
            k <= m,
            forall|t: int| 0 <= t < k ==> s@[a + t] == lit@[t],
        decreases m - k,
    {
        if s.get_char(a + k) != lit.get_char(k) {
            assert(s@.subrange(a as int, b as int)[k as int] != lit@[k as int]);
            return false;
        }
        k = k + 1;
    }
    assert(s@.subrange(a as int, b as int) =~= lit@);
    true
}

fn field_of_exec(s: &str, a: usize, b: usize) -> (r: Option<Field>)
    requires
        a <= b <= s@.len(),
    ensures
        r == field_of(s@.subrange(a as int, b as int)),
{
    if span_is(s, a, b, "id") || span_is(s, a, b, "_") {
        Some(Field::Id)
    } else if span_is(s, a, b, "app") || span_is(s, a, b, "_a") {
        Some(Field::App)
    } else if span_is(s, a, b, "category") || span_is(s, a, b, "_c") {
        Some(Field::Category)
    } else if span_is(s, a, b, "event") {
        Some(Field::Event)
    } else {
        None
    }
}

fn hex_value_exec(c: char) -> (r: Option<u32>)
    ensures
        r matches Some(v) ==> hex_value(c) == Some(v as nat),
        r is None ==> hex_value(c) is None,
{
    if '0' <= c && c <= '9' {
        Some(c as u32 - 48)
    } else if 'a' <= c && c <= 'f' {
        Some(c as u32 - 87)
    } else if 'A' <= c && c <= 'F' {
        Some(c as u32 - 55)
    } else {
        None
    }
}

/// The escape opening at `i`: the text it stands for, and its length.
fn escape_at_exec(s: &str, n: usize, i: usize) -> (r: Option<(&'static str, usize)>)
    requires
        n == s@.len(),
    ensures
        r matches Some((p, k)) ==> (escape_at(s@, i as int) matches Some((c, kk)) && p@ == seq![c]
            && k == kk),
        r is None ==> escape_at(s@, i as int) is None,
{
    if !(i < n && i + 1 < n && s.get_char(i) == '\\') {
        return None;
    }
    let e = s.get_char(i + 1);
    proof {
        reveal_strlit("\"");
        reveal_strlit("\\");
        reveal_strlit("/");
        reveal_strlit("\u{8}");
        reveal_strlit("\u{c}");
        reveal_strlit("\n");
        reveal_strlit("\r");
        reveal_strlit("\t");
    }
    if e == '"' {
        Some(("\"", 2))
    } else if e == '\\' {
        Some(("\\", 2))
    } else if e == '/' {
        Some(("/", 2))
    } else if e == 'b' {
        Some(("\u{8}", 2))
    } else if e == 'f' {
        Some(("\u{c}", 2))
    } else if e == 'n' {
        Some(("\n", 2))
    } else if e == 'r' {
        Some(("\r", 2))
    } else if e == 't' {
        Some(("\t", 2))
    } else if e == 'u' && n - i > 5 {
        let a = match hex_value_exec(s.get_char(i + 2)) {
            Some(v) => v,
            None => return None,
        };
        let b = match hex_value_exec(s.get_char(i + 3)) {
            Some(v) => v,
            None => return None,
        };
        let c = match hex_value_exec(s.get_char(i + 4)) {
            Some(v) => v,
            None => return None,
        };
        let d = match hex_value_exec(s.get_char(i + 5)) {
            Some(v) => v,
            None => return None,
        };
        let v = a * 4096 + b * 256 + c * 16 + d;
        if v < 32 {
            let controls: &'static str = "\u{0}\u{1}\u{2}\u{3}\u{4}\u{5}\u{6}\u{7}\u{8}\u{9}\u{a}\u{b}\u{c}\u{d}\u{e}\u{f}\u{10}\u{11}\u{12}\u{13}\u{14}\u{15}\u{16}\u{17}\u{18}\u{19}\u{1a}\u{1b}\u{1c}\u{1d}\u{1e}\u{1f}";
            proof {
                reveal_strlit("\u{0}\u{1}\u{2}\u{3}\u{4}\u{5}\u{6}\u{7}\u{8}\u{9}\u{a}\u{b}\u{c}\u{d}\u{e}\u{f}\u{10}\u{11}\u{12}\u{13}\u{14}\u{15}\u{16}\u{17}\u{18}\u{19}\u{1a}\u{1b}\u{1c}\u{1d}\u{1e}\u{1f}");
                assert(forall|w: int| 0 <= w < 32 ==> controls@[w] == ((w as u32) as char));
            }
            let piece = controls.substring_char(v as usize, v as usize + 1);
            assert(piece@ =~= seq![(v as u32) as char]);
            Some((piece, 6))
        } else {
            None
        }
    } else {
        None
    }
}

/// Reads a quoted value whose characters start at `i`.
fn text_from_exec(s: &str, n: usize, i: usize) -> (r: Option<(String, usize)>)
    requires
        n == s@.len(),
    ensures
        r matches Some((d, e)) ==> (text_from(s@, i as int) == Some((d@, e as int)) && i <= e < n),
        r is None ==> text_from(s@, i as int) is None,
{
    if i >= n {
        return None;
    }
    let mut acc = String::new();
    let mut start = i;
    let mut j = i;
    while j < n
        invariant
            n == s@.len(),
            i <= start <= j,
            j <= n,
            text_from(s@, i as int) == prepend(
                acc@ + s@.subrange(start as int, j as int),
                text_from(s@, j as int),
            ),
        decreases n - j,
    {
        let c = s.get_char(j);
        if c == '"' {
            acc.append(s.substring_char(start, j));
            return Some((acc, j));
        } else if c == '\\' {
            match escape_at_exec(s, n, j) {
                Some((piece, k)) => {
                    let ghost before = acc@ + s@.subrange(start as int, j as int);
                    acc.append(s.substring_char(start, j));
                    acc.append(piece);
                    assert(acc@ =~= before + piece@);
                    j = j + k;
                    start = j;
                    assert(acc@ + s@.subrange(start as int, j as int) =~= acc@);
                },
                None => return None,
            }
        } else if ' ' > c {
            return None;
        } else {
            let ghost p = acc@ + s@.subrange(start as int, j as int);
            assert(p + seq![c] =~= acc@ + s@.subrange(start as int, j + 1));
            j = j + 1;
        }
    }
    None
}

fn text_field_exec(s: &str, n: usize, i: usize, f: Field) -> (r: Option<(String, usize)>)
    requires
        n == s@.len(),
    ensures
        r matches Some((v, b)) ==> (text_field(s@, i as int, f) == Some((v@, b as int)) && i < b
            && b + 1 < n),
        r is None ==> text_field(s@, i as int, f) is None,
{
    match key_end_exec(s, n, i) {
        Some(k) => {
            if field_of_exec(s, i + 1, k) == Some(f) && k + 2 < n && s.get_char(k + 2) == '"' {
                match text_from_exec(s, n, k + 3) {
                    Some((v, e)) => if e + 1 < n && s.get_char(e + 1) == ',' {
                        Some((v, e))
                    } else {
                        None
                    },
                    None => None,
                }
            } else {
                None
            }
        },
        None => None,
    }
}

fn is_single_line(s: &str) -> (r: bool)
    ensures
        r == (!s@.contains('\n') && !s@.contains('\r')),
{
    let mut ok = true;
    for c in it: s.chars()
        invariant
            it.seq() == s@,
            ok == (forall|t: int| 0 <= t < it.index() ==> #[trigger] s@[t] != '\n' && s@[t] != '\r'),
    {
        if c == '\n' || c == '\r' {
            ok = false;
        }
    }
    ok
}

proof fn lemma_escape_concat(a: Seq<char>, b: Seq<char>)
    ensures
        escape(a + b) == escape(a) + escape(b),
    decreases a.len(),
{
    if a.len() == 0 {
        assert(a + b =~= b);
        assert(escape(a) + escape(b) =~= escape(b));
    } else {
        lemma_escape_concat(a.drop_first(), b);
        assert((a + b).drop_first() =~= a.drop_first() + b);
        assert(escape(a + b) =~= escape(a) + escape(b));
    }
}

proof fn lemma_escape_plain(p: Seq<char>)
    requires
        is_plain(p),
    ensures
        escape(p) == p,
    decreases p.len(),
{
    if p.len() > 0 {
        lemma_escape_plain(p.drop_first());
        assert(escape(p) =~= p);
    }
}

proof fn lemma_escape_one(c: char)
    ensures
        escape(seq![c]) == escape_char(c),
{
    reveal_with_fuel(escape, 2);
    assert(seq![c].drop_first() =~= Seq::<char>::empty());
    assert(escape_char(c) + Seq::<char>::empty() =~= escape_char(c));
}

/// Appends the escape of a character that cannot stand as it is.
fn push_escape(out: &mut String, c: char)
    requires
        !is_plain_char(c),
    ensures
        final(out)@ == old(out)@ + escape_char(c),
{
    proof {
        reveal_strlit("\\\"");
        reveal_strlit("\\\\");
        reveal_strlit("\\u00");
        reveal_strlit("0123456789abcdef");
    }
    if c == '"' {
        out.append("\\\"");
    } else if c == '\\' {
        out.append("\\\\");
    } else {
        let digits: &'static str = "0123456789abcdef";
        assert(forall|w: int| 0 <= w < 16 ==> digits@[w] == hex_digit(w as nat));
        let code = c as u32;
        let hi = (code / 16) as usize;
        let lo = (code % 16) as usize;
        out.append("\\u00");
        let h = digits.substring_char(hi, hi + 1);
        assert(h@ =~= seq![hex_digit(hi as nat)]);
        out.append(h);
        let l = digits.substring_char(lo, lo + 1);
        assert(l@ =~= seq![hex_digit(lo as nat)]);
        out.append(l);
        assert(final(out)@ =~= old(out)@ + escape_char(c));
    }
}

/// Appends `s` as it is written inside quotes.
fn push_escaped(out: &mut String, s: &str)
    ensures
        final(out)@ == old(out)@ + escape(s@),
{
    let ghost base = out@;
    let n = s.unicode_len();
    let mut start: usize = 0;
    let mut j: usize = 0;
    assert(s@.take(0) =~= Seq::<char>::empty());
    assert(base + escape(Seq::<char>::empty()) =~= base);
    for c in it: s.chars()
        invariant
            it.seq() == s@,
            n == s@.len(),
            j == it.index(),
            j <= n,
            start <= j,
            out@ == base + escape(s@.take(start as int)),
            forall|t: int| start <= t < j ==> is_plain_char(#[trigger] s@[t]),
    {
        assert(j < n);
        if c == '"' || c == '\\' || ' ' > c {
            let ghost run = s@.subrange(start as int, j as int);
            out.append(s.substring_char(start, j));
            push_escape(out, c);
            proof {
                assert forall|t: int| 0 <= t < run.len() implies is_plain_char(#[trigger] run[t]) by {
                    assert(run[t] == s@[start + t]);
                }
                lemma_escape_plain(run);
                lemma_escape_one(c);
                lemma_escape_concat(s@.take(start as int), run);
                lemma_escape_concat(s@.take(start as int) + run, seq![c]);
                assert(s@.take(start as int) + run + seq![c] =~= s@.take(j + 1));
            }
            start = j + 1;
        }
        j = j + 1;
    }
    let ghost run = s@.subrange(start as int, j as int);
    out.append(s.substring_char(start, j));
    proof {
        assert forall|t: int| 0 <= t < run.len() implies is_plain_char(#[trigger] run[t]) by {
            assert(run[t] == s@[start + t]);
        }
        lemma_escape_plain(run);
        lemma_escape_concat(s@.take(start as int), run);
        assert(s@.take(start as int) + run =~= s@);
    }
}

fn push_text_entry(line: &mut String, key: &str, value: &str)
    ensures
        final(line)@ == old(line)@ + text_entry(key@, value@),
{
    line.append("\"");
    line.append(key);
    line.append("\":\"");
    push_escaped(line, value);
    line.append("\"");
    line.append(",");
}

impl LogEvent {
    /// The line that stores this record, without its line break: the fields
    /// id, app, category and event, in that order.
    pub fn to_line(&self) -> (r: Result<String, RecordError>)
        ensures
            single_line(self.event@) ==> (r matches Ok(line) && line@ == format_line(
                self.id@,
                self.app@,
                self.category@,
                self.event@,
            )),
            !single_line(self.event@) ==> r == Err::<String, RecordError>(RecordError::Unwritable),
    {
        if !is_single_line(self.event.as_str()) {
            return Err(RecordError::Unwritable);
        }
        let mut line = String::from_str("{");
        let id = self.id.to_string();
        push_text_entry(&mut line, "id", id.as_str());
        push_text_entry(&mut line, "app", self.app.as_str());
        push_text_entry(&mut line, "category", self.category.as_str());
        line.append("\"");
        line.append("event");
        line.append("\":");
        line.append(self.event.as_str());
        line.append("}");
        Ok(line)
    }

    /// Reads a record line.  Keys may use the current names or the older
    /// aliases `_`, `_a` and `_c`; they must stand in the order id, app,
    /// category, event, with no space between tokens.  Quoted values may
    /// hold JSON escapes; `\u` escapes are read for control characters.
    pub fn from_line(line: &str) -> (r: Result<LogEvent, RecordError>)
        ensures
            match parse_line_spec(line@) {
                Ok(v) => r matches Ok(e) && e@ == v,
                Err(err) => r == Err::<LogEvent, RecordError>(err),
            },
    {
        let ghost s = line@;
        let n = line.unicode_len();
        if !(n >= 2 && line.get_char(0) == '{' && line.get_char(n - 1) == '}') {
            return Err(RecordError::Malformed);
        }
        let (v1, b1) = match text_field_exec(line, n, 1, Field::Id) {
            Some(p) => p,
            None => return Err(RecordError::Malformed),
        };
        let (v2, b2) = match text_field_exec(line, n, b1 + 2, Field::App) {
            Some(p) => p,
            None => return Err(RecordError::Malformed),
        };
        let (v3, b3) = match text_field_exec(line, n, b2 + 2, Field::Category) {
            Some(p) => p,
            None => return Err(RecordError::Malformed),
        };
        let k = match key_end_exec(line, n, b3 + 2) {
            Some(k) => k,
            None => return Err(RecordError::Malformed),
        };
        if field_of_exec(line, b3 + 3, k) != Some(Field::Event) || k + 2 > n - 1 {
            return Err(RecordError::Malformed);
        }
        let id = match Ulid::from_string(v1.as_str()) {
            Ok(id) => id,
            Err(e) => return Err(RecordError::InvalidId(e)),
        };
        Ok(
            LogEvent {
                id,
                app: v2,
                category: v3,
                event: String::from_str(line.substring_char(k + 2, n - 1)),
            },
        )
    }
}


proof fn lemma_plain_run(s: Seq<char>, i: int, j: int)
    requires
        0 <= i <= j < s.len(),
        forall|t: int| i <= t < j ==> is_plain_char(#[trigger] s[t]),
        s[j] == '"',
    ensures
        plain_end(s, i) == Some(j),
    decreases j - i,
{
    if i < j {
        lemma_plain_run(s, i + 1, j);
    }
}


proof fn lemma_hex(v: nat)
    requires
        v < 16,
    ensures
        hex_value(hex_digit(v)) == Some(v),
        hex_value('0') == Some(0nat),
{
}

proof fn lemma_control_code(c: char)
    requires
        ' ' > c,
    ensures
        c as u32 / 16 * 16 + c as u32 % 16 < 32,
        ((c as u32 / 16 * 16 + c as u32 % 16) as u32) as char == c,
{
    vstd::utf8::char_u32_cast(c, c as u32);
}


proof fn lemma_escape_step(s: Seq<char>, i: int, c: char)
    requires
        0 <= i,
        i + escape_char(c).len() <= s.len(),
        forall|t: int| 0 <= t < escape_char(c).len() ==> s[i + t] == escape_char(c)[t],
    ensures
        text_from(s, i) == prepend(seq![c], text_from(s, i + escape_char(c).len())),
{
    let ec = escape_char(c);
    assert(s[i] == ec[0]);
    if c == '"' || c == '\\' {
        assert(s[i + 1] == ec[1]);
        assert(escape_at(s, i) == Some((c, 2int)));
    } else if ' ' > c {
        let code = c as u32;
        lemma_hex((code / 16) as nat);
        lemma_hex((code % 16) as nat);
        lemma_control_code(c);
        assert(s[i + 1] == ec[1]);
        assert(s[i + 2] == ec[2]);
        assert(s[i + 3] == ec[3]);
        assert(s[i + 4] == ec[4]);
        assert(s[i + 5] == ec[5]);
        assert(escape_at(s, i) == Some((c, 6int)));
    }
}

proof fn lemma_text_escape(s: Seq<char>, i: int, a: Seq<char>)
    requires
        0 <= i,
        i + escape(a).len() < s.len(),
        forall|t: int| 0 <= t < escape(a).len() ==> s[i + t] == escape(a)[t],
        s[i + escape(a).len()] == '"',
    ensures
        text_from(s, i) == Some((a, i + escape(a).len())),
    decreases a.len(),
{
    if a.len() == 0 {
        assert(escape(a).len() == 0);
        assert(a =~= Seq::<char>::empty());
    } else {
        let c = a[0];
        let rest = a.drop_first();
        let ec = escape_char(c);
        assert(escape(a) == ec + escape(rest));
        assert forall|t: int| 0 <= t < ec.len() implies s[i + t] == ec[t] by {
            assert(escape(a)[t] == ec[t]);
        }
        lemma_escape_step(s, i, c);
        assert forall|t: int| 0 <= t < escape(rest).len() implies s[i + ec.len() + t] == escape(
            rest,
        )[t] by {
            assert(escape(a)[ec.len() + t] == escape(rest)[t]);
        }
        lemma_text_escape(s, i + ec.len(), rest);
        assert(seq![c] + rest =~= a);
    }
}

proof fn lemma_text_entry(s: Seq<char>, i: int, key: Seq<char>, value: Seq<char>, f: Field)
    requires
        0 <= i,
        i + text_entry(key, value).len() <= s.len(),
        forall|t: int| 0 <= t < text_entry(key, value).len() ==> s[i + t] == text_entry(key, value)[t],
        is_plain(key),
        field_of(key) == Some(f),
    ensures
        text_entry(key, value).len() == key.len() + escape(value).len() + 6,
        text_field(s, i, f) == Some((value, i + key.len() + 4 + escape(value).len())),
{
    reveal_strlit("\"");
    reveal_strlit("\":\"");
    reveal_strlit(",");
    let e = text_entry(key, value);
    let ev = escape(value);
    let kl = key.len() as int;
    let vl = ev.len() as int;
    assert(e.len() == kl + vl + 6);
    assert(e[0] == '"');
    assert(e[kl + 1] == '"');
    assert(e[kl + 2] == ':');
    assert(e[kl + 3] == '"');
    assert(e[kl + vl + 4] == '"');
    assert(e[kl + vl + 5] == ',');
    assert(forall|t: int| 0 <= t < kl ==> e[1 + t] == key[t]);
    assert(forall|t: int| 0 <= t < vl ==> e[kl + 4 + t] == ev[t]);
    assert(s[i] == '"');
    assert(s[i + kl + 1] == '"');
    assert(s[i + kl + 2] == ':');
    assert(s[i + kl + 3] == '"');
    assert(s[i + kl + vl + 4] == '"');
    assert(s[i + kl + vl + 5] == ',');
    assert forall|t: int| i + 1 <= t < i + 1 + kl implies is_plain_char(#[trigger] s[t]) by {
        assert(s[t] == e[t - i]);
        assert(e[t - i] == key[t - i - 1]);
    }
    lemma_plain_run(s, i + 1, i + 1 + kl);
    assert(s.subrange(i + 1, i + 1 + kl) =~= key);
    assert forall|t: int| 0 <= t < vl implies s[i + kl + 4 + t] == ev[t] by {
        assert(s[i + kl + 4 + t] == e[kl + 4 + t]);
    }
    lemma_text_escape(s, i + kl + 4, value);
}

proof fn lemma_keys_plain()
    ensures
        is_plain("id"@),
        is_plain("app"@),
        is_plain("category"@),
        field_of("id"@) == Some(Field::Id),
        field_of("app"@) == Some(Field::App),
        field_of("category"@) == Some(Field::Category),
        "id"@.len() == 2,
        "app"@.len() == 3,
        "category"@.len() == 8,
{
    reveal_strlit("id");
    reveal_strlit("app");
    reveal_strlit("category");
    reveal_strlit("event");
    reveal_strlit("_");
    reveal_strlit("_a");
    reveal_strlit("_c");
    assert("app"@.len() == 3 && "id"@.len() == 2 && "_"@.len() == 1 && "_a"@.len() == 2);
    assert("category"@.len() == 8 && "_c"@.len() == 2);
    assert("app"@ != "id"@ && "app"@ != "_"@);
    assert("category"@ != "id"@ && "category"@ != "_"@ && "category"@ != "app"@ && "category"@
        != "_a"@);
}

proof fn lemma_event_tail(s: Seq<char>, l3: int, event: Seq<char>)
    requires
        0 <= l3,
        s.len() == l3 + event_entry(event).len(),
        forall|t: int| 0 <= t < event_entry(event).len() ==> s[l3 + t] == event_entry(event)[t],
    ensures
        event_entry(event).len() == event.len() + 9,
        key_end(s, l3) == Some(l3 + 6),
        field_of(s.subrange(l3 + 1, l3 + 6)) == Some(Field::Event),
        s.subrange(l3 + 8, s.len() - 1) == event,
        s[s.len() - 1] == '}',
{
    reveal_strlit("event");
    reveal_strlit("\"");
    reveal_strlit("\":");
    reveal_strlit("}");
    reveal_strlit("id");
    reveal_strlit("app");
    reveal_strlit("category");
    reveal_strlit("_");
    reveal_strlit("_a");
    reveal_strlit("_c");
    let ev = event_entry(event);
    assert(ev.len() == event.len() + 9);
    assert(ev[0] == '"' && ev[6] == '"' && ev[7] == ':');
    assert(forall|t: int| 0 <= t < 5 ==> ev[1 + t] == "event"@[t]);
    assert forall|t: int| l3 + 1 <= t < l3 + 6 implies is_plain_char(#[trigger] s[t]) by {
        assert(s[t] == ev[t - l3]);
    }
    lemma_plain_run(s, l3 + 1, l3 + 6);
    assert(s.subrange(l3 + 1, l3 + 6) =~= "event"@);
    assert(forall|t: int| 0 <= t < event.len() ==> ev[8 + t] == event[t]);
    assert(s.subrange(l3 + 8, s.len() - 1) =~= event);
    assert(s[s.len() - 1] == ev[ev.len() - 1]);
}

proof fn lemma_line_layout(id: u128, app: Seq<char>, category: Seq<char>, event: Seq<char>)
    ensures
        ({
            let s = format_line(id, app, category, event);
            let x1 = text_entry("id"@, encode_spec(id as nat));
            let x2 = text_entry("app"@, app);
            let x3 = text_entry("category"@, category);
            let x4 = event_entry(event);
            let l1 = 1 + x1.len();
            let l2 = l1 + x2.len();
            let l3 = l2 + x3.len();
            &&& s.len() == l3 + x4.len()
            &&& s[0] == '{'
            &&& forall|t: int| 0 <= t < x1.len() ==> s[1 + t] == x1[t]
            &&& forall|t: int| 0 <= t < x2.len() ==> s[l1 + t] == x2[t]
            &&& forall|t: int| 0 <= t < x3.len() ==> s[l2 + t] == x3[t]
            &&& forall|t: int| 0 <= t < x4.len() ==> s[l3 + t] == x4[t]
        }),
{
    reveal_strlit("{");
}

proof fn lemma_parse_parts(
    s: Seq<char>,
    id: u128,
    e: Seq<char>,
    app: Seq<char>,
    category: Seq<char>,
    event: Seq<char>,
    b1: int,
    b2: int,
    b3: int,
)
    requires
        s.len() >= 2,
        s[0] == '{',
        s[s.len() - 1] == '}',
        text_field(s, 1, Field::Id) == Some((e, b1)),
        text_field(s, b1 + 2, Field::App) == Some((app, b2)),
        text_field(s, b2 + 2, Field::Category) == Some((category, b3)),
        key_end(s, b3 + 2) == Some(b3 + 8),
        field_of(s.subrange(b3 + 3, b3 + 8)) == Some(Field::Event),
        b3 + 10 <= s.len() - 1,
        s.subrange(b3 + 10, s.len() - 1) == event,
        decode_spec(encode_utf8(e)) == Ok::<u128, DecodeError>(id),
    ensures
        parse_line_spec(s) == Ok::<(u128, Seq<char>, Seq<char>, Seq<char>), RecordError>(
            (id, app, category, event),
        ),
{
}

proof fn lemma_parse_layout(s: Seq<char>, id: u128, app: Seq<char>, category: Seq<char>, event: Seq<char>)
    requires
        decode_spec(encode_utf8(encode_spec(id as nat))) == Ok::<u128, DecodeError>(id),
        ({
            let x1 = text_entry("id"@, encode_spec(id as nat));
            let x2 = text_entry("app"@, app);
            let x3 = text_entry("category"@, category);
            let x4 = event_entry(event);
            let l1 = 1 + x1.len();
            let l2 = l1 + x2.len();
            let l3 = l2 + x3.len();
            &&& s.len() == l3 + x4.len()
            &&& s[0] == '{'
            &&& forall|t: int| 0 <= t < x1.len() ==> s[1 + t] == x1[t]
            &&& forall|t: int| 0 <= t < x2.len() ==> s[l1 + t] == x2[t]
            &&& forall|t: int| 0 <= t < x3.len() ==> s[l2 + t] == x3[t]
            &&& forall|t: int| 0 <= t < x4.len() ==> s[l3 + t] == x4[t]
        }),
    ensures
        parse_line_spec(s) == Ok::<(u128, Seq<char>, Seq<char>, Seq<char>), RecordError>(
            (id, app, category, event),
        ),
{
    let e = encode_spec(id as nat);
    lemma_keys_plain();
    let x1 = text_entry("id"@, e);
    let x2 = text_entry("app"@, app);
    let x3 = text_entry("category"@, category);
    let x4 = event_entry(event);
    let l1 = 1 + x1.len() as int;
    let l2 = l1 + x2.len() as int;
    let l3 = l2 + x3.len() as int;
    lemma_text_entry(s, 1, "id"@, e, Field::Id);
    lemma_text_entry(s, l1, "app"@, app, Field::App);
    lemma_text_entry(s, l2, "category"@, category, Field::Category);
    lemma_event_tail(s, l3, event);
    let b1 = 1 + 2 + 4 + escape(e).len() as int;
    let b2 = l1 + 3 + 4 + escape(app).len() as int;
    let b3 = l2 + 8 + 4 + escape(category).len() as int;
    lemma_parse_parts(s, id, e, app, category, event, b1, b2, b3);
}

/// A record written as a line reads back as the same record: identifier,
/// application, category and payload, for every application and category
/// text and every one-line payload.
pub proof fn lemma_parse_format(id: u128, app: Seq<char>, category: Seq<char>, event: Seq<char>)
    requires
        single_line(event),
    ensures
        parse_line_spec(format_line(id, app, category, event)) == Ok::<
            (u128, Seq<char>, Seq<char>, Seq<char>),
            RecordError,
        >((id, app, category, event)),
{
    crate::ulid::lemma_decode_encode(id);
    lemma_line_layout(id, app, category, event);
    lemma_parse_layout(format_line(id, app, category, event), id, app, category, event);
}

} // verus!
