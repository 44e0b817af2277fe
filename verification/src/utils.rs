use vstd::prelude::*;

use crate::text::{chars_of, decimal, push_char, push_decimal};

verus! {

/// Whether `c` may not stand in a file name on common platforms: a path
/// separator, one of `: * ? " < > |`, or a control character.
pub open spec fn is_unsafe_char(c: char) -> bool {
    c == '/' || c == '\\' || c == ':' || c == '*' || c == '?' || c == '"' || c == '<' || c == '>'
        || c == '|' || (c as u32) < 0x20
}

pub open spec fn sanitize_char(c: char) -> char {
    if is_unsafe_char(c) {
        '_'
    } else {
        c
    }
}

/// Whether `name` would name no entry of its own in a local folder: the
/// empty name, `.` (the folder itself) or `..` (the folder above).
pub open spec fn is_special_name(name: Seq<char>) -> bool {
    name.len() == 0 || name == seq!['.'] || name == seq!['.', '.']
}

/// The local file name for a drive name: the empty name becomes `_`, and
/// `.` and `..` become `_` and `__`; in any other name every unsafe
/// character becomes `_` and the others are kept.
pub open spec fn sanitized(name: Seq<char>) -> Seq<char> {
    if name.len() == 0 {
        seq!['_']
    } else if is_special_name(name) {
        Seq::new(name.len(), |i: int| '_')
    } else {
        name.map_values(|c: char| sanitize_char(c))
    }
}

/// The local file name for a drive name: the empty name, `.` and `..` are
/// replaced by underscores; in any other name every character that may not
/// stand in a file name is replaced by `_` and the others are kept.
pub fn sanitize_name(name: &str) -> (res: String)
    ensures
        res@ == sanitized(name@),
{
    let mut res = String::new();
    for c in it: name.chars()
        invariant
            it.seq() == name@,
            res@ == name@.take(it.index() as int).map_values(|c: char| sanitize_char(c)),
    {
        let is_unsafe = c == '/' || c == '\\' || c == ':' || c == '*' || c == '?' || c == '"' || c
            == '<' || c == '>' || c == '|' || (c as u32) < 0x20;
        let ghost before = res@;
        if is_unsafe {
            push_char(&mut res, '_');
        } else {
            push_char(&mut res, c);
        }
        assert(name@.take(it.index() + 1) =~= name@.take(it.index() as int).push(c));
        assert(name@.take(it.index() + 1).map_values(|c: char| sanitize_char(c)) =~= before.push(
            sanitize_char(c),
        ));
    }
    assert(name@.take(name@.len() as int) =~= name@);
    let cs = chars_of(name);
    let n = cs.len();
    if n == 0 {
        let mut u = String::new();
        push_char(&mut u, '_');
        assert(u@ =~= seq!['_']);
        return u;
    }
    if n <= 2 && cs[0] == '.' && cs[n - 1] == '.' {
        assert(name@ =~= seq!['.'] || name@ =~= seq!['.', '.']);
        let mut u = String::new();
        push_char(&mut u, '_');
        if n == 2 {
            push_char(&mut u, '_');
        }
        assert(u@ =~= Seq::new(name@.len(), |i: int| '_'));
        return u;
    }
    proof {
        if is_special_name(name@) {
            assert(name@[0] == '.');
            if name@.len() == 2 {
                assert(name@[1] == '.');
            }
        }
    }
    res
}

/// Law: a local name is never empty, `.` or `..`, holds no unsafe
/// character, and is its own local name; a name that is not special keeps
/// its length.
pub proof fn sanitize_properties(name: Seq<char>)
    ensures
        !is_special_name(sanitized(name)),
        forall|i: int| 0 <= i < sanitized(name).len() ==> !is_unsafe_char(#[trigger] sanitized(name)[i]),
        sanitized(sanitized(name)) == sanitized(name),
        !is_special_name(name) ==> sanitized(name).len() == name.len(),
{
    let s = sanitized(name);
    if name.len() == 0 {
        assert(s =~= seq!['_']);
        assert(s[0] != '.');
        assert(sanitized(s) =~= s);
    } else if is_special_name(name) {
        assert(s[0] == '_');
        assert(s != seq!['.'] && s != seq!['.', '.']) by {
            assert(seq!['.'][0] == '.');
            assert(seq!['.', '.'][0] == '.');
        }
        assert(sanitized(s) =~= s);
    } else {
        assert(s.len() == name.len());
        if is_special_name(s) {
            assert(s[0] == '.');
            assert(name[0] == '.');
            if s.len() == 2 {
                assert(s[1] == '.');
                assert(name[1] == '.');
                assert(name =~= seq!['.', '.']);
            } else {
                assert(name =~= seq!['.']);
            }
        }
        assert(sanitized(s) =~= s);
    }
}

/// How a duration of `secs` seconds is shown: `42s` below a minute, else
/// whole minutes and the seconds left, as `3m 7s`.
pub open spec fn duration_text(secs: nat) -> Seq<char> {
    if secs < 60 {
        decimal(secs) + "s"@
    } else {
        decimal(secs / 60) + "m "@ + decimal(secs % 60) + "s"@
    }
}

/// The text for a duration of `secs` seconds.
pub fn fmt_duration(secs: u64) -> (res: String)
    ensures
        res@ == duration_text(secs as nat),
{
    let mut res = String::new();
    if secs < 60 {
        push_decimal(&mut res, secs);
        res.append("s");
    } else {
        push_decimal(&mut res, secs / 60);
        res.append("m ");
        push_decimal(&mut res, secs % 60);
        res.append("s");
    }
    res
}

/// Whether `c` has the Unicode `White_Space` property, as `char::is_whitespace`
/// tests: tab through carriage return, space, next line, no-break space, ogham
/// space mark, the spaces from en quad through hair space, line and paragraph
/// separators, narrow no-break space, medium mathematical space and
/// ideographic space.
pub open spec fn is_whitespace(c: char) -> bool {
    ||| '\t' <= c <= '\r'
    ||| c == ' '
    ||| c == '\u{85}'
    ||| c == '\u{a0}'
    ||| c == '\u{1680}'
    ||| '\u{2000}' <= c <= '\u{200a}'
    ||| c == '\u{2028}'
    ||| c == '\u{2029}'
    ||| c == '\u{202f}'
    ||| c == '\u{205f}'
    ||| c == '\u{3000}'
}

/// Whether `c` is whitespace.
fn char_is_whitespace(c: char) -> (res: bool)
    ensures
        res == is_whitespace(c),
{
    ('\t' <= c && c <= '\r') || c == ' ' || c == '\u{85}' || c == '\u{a0}' || c == '\u{1680}'
        || ('\u{2000}' <= c && c <= '\u{200a}') || c == '\u{2028}' || c == '\u{2029}' || c
        == '\u{202f}' || c == '\u{205f}' || c == '\u{3000}'
}

/// How many flags are set before the first one that is not.
pub open spec fn leading_count(ws: Seq<bool>) -> nat
    decreases ws.len(),
{
    if ws.len() == 0 || !ws[0] {
        0
    } else {
        1 + leading_count(ws.drop_first())
    }
}

/// How many flags are set after the last one that is not.
pub open spec fn trailing_count(ws: Seq<bool>) -> nat
    decreases ws.len(),
{
    if ws.len() == 0 || !ws.last() {
        0
    } else {
        1 + trailing_count(ws.drop_last())
    }
}

/// `s` without its leading and trailing characters whose flags `ws` are set.
pub open spec fn trim_with(s: Seq<char>, ws: Seq<bool>) -> Seq<char> {
    if leading_count(ws) >= s.len() {
        Seq::empty()
    } else {
        s.subrange(leading_count(ws) as int, s.len() - trailing_count(ws))
    }
}

/// Whether `t` is `y` or `yes`, letters in either case.
pub open spec fn means_yes(t: Seq<char>) -> bool {
    ||| t.len() == 1 && (t[0] == 'y' || t[0] == 'Y')
    ||| t.len() == 3 && (t[0] == 'y' || t[0] == 'Y') && (t[1] == 'e' || t[1] == 'E') && (t[2] == 's'
        || t[2] == 'S')
}

/// For each character of `s`, whether it is whitespace.
pub open spec fn whitespace_flags(s: Seq<char>) -> Seq<bool> {
    s.map_values(|c: char| is_whitespace(c))
}

proof fn lemma_leading(ws: Seq<bool>, i: int)
    requires
        0 <= i <= ws.len(),
        forall|k: int| 0 <= k < i ==> ws[k],
        i == ws.len() || !ws[i],
    ensures
        leading_count(ws) == i,
    decreases ws.len(),
{
    if i > 0 {
        let d = ws.drop_first();
        assert forall|k: int| 0 <= k < i - 1 implies d[k] by {
            assert(ws[k + 1]);
        }
        if i < ws.len() {
            assert(d[i - 1] == ws[i]);
        }
        lemma_leading(d, i - 1);
    }
}

proof fn lemma_trailing(ws: Seq<bool>, j: int)
    requires
        0 <= j <= ws.len(),
        forall|k: int| j <= k < ws.len() ==> ws[k],
        j == 0 || !ws[j - 1],
    ensures
        trailing_count(ws) == ws.len() - j,
    decreases ws.len(),
{
    if j < ws.len() {
        let d = ws.drop_last();
        assert(ws.last() == ws[ws.len() - 1]);
        assert forall|k: int| j <= k < d.len() implies d[k] by {
            assert(ws[k]);
        }
        if j > 0 {
            assert(d[j - 1] == ws[j - 1]);
        }
        lemma_trailing(d, j);
    } else if ws.len() > 0 {
        assert(!ws.last());
    }
}

/// Whether the answer `line` says yes, given for each of its characters
/// whether it is whitespace: once trimmed of whitespace, it is `y` or `yes`
/// in either case.
fn answer_is_yes_with_flags(line: &str, ws: &Vec<bool>) -> (res: bool)
    requires
        ws@.len() == line@.len(),
    ensures
        res == means_yes(trim_with(line@, ws@)),
{
    let c = chars_of(line);
    let n = c.len();
    let mut i: usize = 0;
    while i < n && ws[i]
        invariant
            n == ws@.len(),
            i <= n,
            forall|k: int| 0 <= k < i ==> ws@[k],
        decreases n - i,
    {
        i = i + 1;
    }
    proof {
        lemma_leading(ws@, i as int);
    }
    let mut j: usize = n;
    while j > i && ws[j - 1]
        invariant
            n == ws@.len(),
            i <= j <= n,
            forall|k: int| j <= k < n ==> ws@[k],
            i == n || !ws@[i as int],
        decreases j,
    {
        j = j - 1;
    }
    if i == n {
        assert(trim_with(line@, ws@) =~= Seq::<char>::empty());
        return false;
    }
    proof {
        lemma_trailing(ws@, j as int);
    }
    assert(trim_with(line@, ws@) =~= c@.subrange(i as int, j as int));
    let len = j - i;
    let y0 = c[i] == 'y' || c[i] == 'Y';
    if len == 1 {
        y0
    } else if len == 3 {
        y0 && (c[i + 1] == 'e' || c[i + 1] == 'E') && (c[i + 2] == 's' || c[i + 2] == 'S')
    } else {
        false
    }
}

/// Whether the answer `line` says yes: once trimmed of whitespace, it is `y`
/// or `yes` in either case.
pub fn answer_is_yes(line: &str) -> (res: bool)
    ensures
        res == means_yes(trim_with(line@, whitespace_flags(line@))),
{
    let mut ws: Vec<bool> = Vec::new();
    for c in it: line.chars()
        invariant
            it.seq() == line@,
            ws@ == whitespace_flags(line@.take(it.index() as int)),
    {
        ws.push(char_is_whitespace(c));
        assert(line@.take(it.index() + 1) =~= line@.take(it.index() as int).push(c));
        assert(ws@ =~= whitespace_flags(line@.take(it.index() + 1)));
    }
    assert(line@.take(line@.len() as int) =~= line@);
    answer_is_yes_with_flags(line, &ws)
}

/// The progress of a single download: its size when known and the bytes
/// that came in so far.
pub struct Progress {
    total: Option<u64>,
    downloaded: u64,
    bar_width: usize,
}

/// Mathematical model of a single download's [`Progress`].
pub struct DownloadModel {
    pub total: Option<u64>,
    pub downloaded: nat,
    pub bar_width: nat,
}

impl View for Progress {
    type V = DownloadModel;

    closed spec fn view(&self) -> DownloadModel {
        DownloadModel {
            total: self.total,
            downloaded: self.downloaded as nat,
            bar_width: self.bar_width as nat,
        }
    }
}

/// Where the marker of a download of unknown size stands: it moves one step
/// every 8192 bytes across `bar_width + 1` positions, the last one hidden.
pub open spec fn spinner_pos(downloaded: nat, bar_width: nat) -> nat {
    (((downloaded / 8192) as usize) as nat) % (bar_width + 1)
}

impl Progress {
    /// The bar is 24 characters wide.
    #[verifier::type_invariant]
    closed spec fn bar_is_fixed(&self) -> bool {
        self.bar_width == 24
    }

    /// A download of `total` bytes, if known, with nothing in yet.
    pub fn new(total: Option<u64>) -> (res: Self)
        ensures
            res@ == (DownloadModel { total, downloaded: 0, bar_width: 24 }),
    {
        Progress { total, downloaded: 0, bar_width: 24 }
    }

    /// Records `chunk` more bytes.
    pub fn update(&mut self, chunk: u64)
        requires
            old(self)@.downloaded + chunk <= u64::MAX,
        ensures
            final(self)@ == (DownloadModel { downloaded: (old(self)@.downloaded + chunk) as nat, ..old(self)@ }),
    {
        proof {
            use_type_invariant(&*self);
        }
        self.downloaded = self.downloaded + chunk;
    }

    /// The bytes that came in.
    pub fn downloaded(&self) -> (res: u64)
        ensures
            res == self@.downloaded,
    {
        self.downloaded
    }

    /// The size of the download, if known.
    pub fn total(&self) -> (res: Option<u64>)
        ensures
            res == self@.total,
    {
        self.total
    }

    /// The width of the bar, in characters.
    pub fn bar_width(&self) -> (res: usize)
        ensures
            res == self@.bar_width,
    {
        self.bar_width
    }

    /// The inside of the bar for a download of unknown size: spaces, with
    /// `=` at the marker's position when it is not the hidden one.
    pub fn spinner(&self) -> (res: String)
        ensures
            res@ == Seq::new(
                self@.bar_width,
                |i: int| if i == spinner_pos(self@.downloaded, self@.bar_width) { '=' } else { ' ' },
            ),
    {
        proof {
            use_type_invariant(self);
        }
        let pos = ((self.downloaded / 8192) as usize) % (self.bar_width + 1);
        let mut res = String::new();
        let mut i: usize = 0;
        while i < self.bar_width
            invariant
                i <= self.bar_width,
                pos == spinner_pos(self@.downloaded, self@.bar_width),
                res@ == Seq::new(
                    i as nat,
                    |k: int| if k == pos { '=' } else { ' ' },
                ),
            decreases self.bar_width - i,
        {
            if i == pos {
                push_char(&mut res, '=');
            } else {
                push_char(&mut res, ' ');
            }
            assert(res@ =~= Seq::new((i + 1) as nat, |k: int| if k == pos { '=' } else { ' ' }));
            i = i + 1;
        }
        res
    }
}

} // verus!
