use vstd::prelude::*;

verus! {

broadcast use vstd::string::group_string_axioms;

/// `pat` occurs in `s` at position `i`.
pub open spec fn matches_at(s: Seq<char>, pat: Seq<char>, i: int) -> bool {
    0 <= i && i + pat.len() <= s.len() && s.subrange(i, i + pat.len()) == pat
}

/// The first position at or after `from` where `pat` occurs in `s`.
pub open spec fn find_from(s: Seq<char>, pat: Seq<char>, from: int) -> Option<int>
    decreases s.len() + 1 - from,
{
    if from < 0 || from + pat.len() > s.len() {
        None
    } else if matches_at(s, pat, from) {
        Some(from)
    } else {
        find_from(s, pat, from + 1)
    }
}

/// The first position at or after `from` that holds the character `c`.
pub open spec fn find_char_from(s: Seq<char>, c: char, from: int) -> Option<int>
    decreases s.len() - from,
{
    if from < 0 || from >= s.len() {
        None
    } else if s[from] == c {
        Some(from)
    } else {
        find_char_from(s, c, from + 1)
    }
}

pub proof fn lemma_find_from(s: Seq<char>, pat: Seq<char>, from: int)
    requires
        0 <= from,
    ensures
        match find_from(s, pat, from) {
            Some(i) => from <= i && matches_at(s, pat, i) && forall|j: int|
                from <= j < i ==> !matches_at(s, pat, j),
            None => forall|j: int| from <= j ==> !matches_at(s, pat, j),
        },
    decreases s.len() + 1 - from,
{
    if from < 0 || from + pat.len() > s.len() {
    } else if matches_at(s, pat, from) {
    } else {
        lemma_find_from(s, pat, from + 1);
    }
}

pub proof fn lemma_find_char_from(s: Seq<char>, c: char, from: int)
    requires
        0 <= from,
    ensures
        match find_char_from(s, c, from) {
            Some(i) => from <= i < s.len() && s[i] == c && forall|j: int|
                from <= j < i ==> s[j] != c,
            None => forall|j: int| from <= j < s.len() ==> s[j] != c,
        },
    decreases s.len() - from,
{
    if from < 0 || from >= s.len() {
    } else if s[from] == c {
    } else {
        lemma_find_char_from(s, c, from + 1);
    }
}

/// Calls `String::push`; the contract claims that the string's characters
/// become the old ones followed by `c`.
#[verifier::external_body]
pub(crate) fn push_char(s: &mut String, c: char)
    ensures
        final(s)@ == old(s)@.push(c),
{
    s.push(c);
}

/// The characters of `s`, in order.
pub fn chars_of(s: &str) -> (res: Vec<char>)
    ensures
        res@ == s@,
{
    let mut res: Vec<char> = Vec::new();
    for c in it: s.chars()
        invariant
            it.seq() == s@,
            res@ == it.seq().take(it.index() as int),
    {
        res.push(c);
    }
    res
}

/// The `String` made of the characters `chars[lo..hi]`.
pub fn string_of(chars: &Vec<char>, lo: usize, hi: usize) -> (res: String)
    requires
        lo <= hi <= chars@.len(),
    ensures
        res@ == chars@.subrange(lo as int, hi as int),
{
    let mut res = String::new();
    let mut i = lo;
    while i < hi
        invariant
            lo <= i <= hi <= chars@.len(),
            res@ == chars@.subrange(lo as int, i as int),
        decreases hi - i,
    {
        push_char(&mut res, chars[i]);
        assert(chars@.subrange(lo as int, i + 1) =~= chars@.subrange(lo as int, i as int).push(
            chars@[i as int],
        ));
        i = i + 1;
    }
    res
}

/// Whether `pat` occurs in `hay` at position `i`.
pub fn matches_at_exec(hay: &Vec<char>, pat: &Vec<char>, i: usize) -> (res: bool)
    ensures
        res == matches_at(hay@, pat@, i as int),
{
    if i > hay.len() || pat.len() > hay.len() - i {
        return false;
    }
    let mut j: usize = 0;
    while j < pat.len()
        invariant
            i + pat@.len() <= hay.len(),
            j <= pat@.len(),
            forall|k: int| 0 <= k < j ==> hay@[i + k] == pat@[k],
        decreases pat@.len() - j,
    {
        if hay[i + j] != pat[j] {
            assert(hay@.subrange(i as int, i + pat@.len())[j as int] != pat@[j as int]);
            return false;
        }
        j = j + 1;
    }
    assert(hay@.subrange(i as int, i + pat@.len()) =~= pat@);
    true
}

/// The first position at or after `from` where `pat` occurs in `hay`.
pub fn find_seq(hay: &Vec<char>, pat: &Vec<char>, from: usize) -> (res: Option<usize>)
    requires
        pat@.len() > 0,
    ensures
        match res {
            Some(i) => find_from(hay@, pat@, from as int) == Some(i as int),
            None => find_from(hay@, pat@, from as int) is None,
        },
{
    let mut i = from;
    while i <= hay.len() && pat.len() <= hay.len() - i
        invariant
            from <= i,
            pat@.len() > 0,
            find_from(hay@, pat@, from as int) == find_from(hay@, pat@, i as int),
        decreases hay@.len() + 1 - i,
    {
        if matches_at_exec(hay, pat, i) {
            return Some(i);
        }
        i = i + 1;
    }
    None
}

/// The first position at or after `from` that holds `c`.
pub fn find_char(hay: &Vec<char>, c: char, from: usize) -> (res: Option<usize>)
    ensures
        match res {
            Some(i) => find_char_from(hay@, c, from as int) == Some(i as int),
            None => find_char_from(hay@, c, from as int) is None,
        },
{
    let mut i = from;
    while i < hay.len()
        invariant
            from <= i,
            find_char_from(hay@, c, from as int) == find_char_from(hay@, c, i as int),
        decreases hay@.len() - i,
    {
        if hay[i] == c {
            return Some(i);
        }
        i = i + 1;
    }
    None
}

/// `s` with every non-overlapping occurrence of `pat`, scanned from the
/// left, replaced by `rep` (the behaviour of `str::replace`).
pub open spec fn replace_all(s: Seq<char>, pat: Seq<char>, rep: Seq<char>) -> Seq<char>
    decreases s.len(),
{
    if s.len() == 0 {
        s
    } else if pat.len() > 0 && pat.is_prefix_of(s) {
        rep + replace_all(s.skip(pat.len() as int), pat, rep)
    } else {
        seq![s[0]] + replace_all(s.skip(1), pat, rep)
    }
}

/// Law: replacing a pattern that does not occur leaves the text unchanged.
pub proof fn replace_absent(s: Seq<char>, pat: Seq<char>, rep: Seq<char>)
    requires
        pat.len() > 0,
        forall|j: int| !#[trigger] matches_at(s, pat, j),
    ensures
        replace_all(s, pat, rep) == s,
    decreases s.len(),
{
    if s.len() > 0 {
        assert(!pat.is_prefix_of(s)) by {
            if pat.is_prefix_of(s) {
                assert(s.subrange(0, pat.len() as int) =~= pat);
                assert(matches_at(s, pat, 0));
            }
        }
        let t = s.skip(1);
        assert forall|j: int| !matches_at(t, pat, j) by {
            if matches_at(t, pat, j) {
                assert(s.subrange(j + 1, j + 1 + pat.len()) =~= t.subrange(j, j + pat.len()));
                assert(matches_at(s, pat, j + 1));
            }
        }
        replace_absent(t, pat, rep);
        assert(seq![s[0]] + t =~= s);
    }
}

/// Law: removing a pattern that occurs only once, at the very end, leaves
/// exactly the text before it.
pub proof fn remove_single_suffix(y: Seq<char>, pat: Seq<char>)
    requires
        pat.len() > 0,
        forall|j: int| 0 <= j < y.len() ==> !#[trigger] matches_at(y + pat, pat, j),
    ensures
        replace_all(y + pat, pat, Seq::empty()) == y,
    decreases y.len(),
{
    if y.len() == 0 {
        lemma_replace_whole(pat);
        assert(y + pat =~= pat);
    } else {
        lemma_not_prefix_at_start(y, pat);
        lemma_shift_matches(y, pat);
        remove_single_suffix(y.skip(1), pat);
        assert(seq![y[0]] + y.skip(1) =~= y);
    }
}

proof fn lemma_replace_whole(pat: Seq<char>)
    requires
        pat.len() > 0,
    ensures
        replace_all(pat, pat, Seq::empty()) == Seq::<char>::empty(),
{
    assert(pat.is_prefix_of(pat)) by {
        assert(pat.subrange(0, pat.len() as int) =~= pat);
    }
    let rest = pat.skip(pat.len() as int);
    assert(rest =~= Seq::<char>::empty());
    assert(replace_all(rest, pat, Seq::empty()) == rest);
    assert(replace_all(pat, pat, Seq::empty()) == Seq::<char>::empty() + replace_all(rest, pat, Seq::empty()));
    assert(Seq::<char>::empty() + rest =~= Seq::<char>::empty());
}

proof fn lemma_not_prefix_at_start(y: Seq<char>, pat: Seq<char>)
    requires
        y.len() > 0,
        !matches_at(y + pat, pat, 0),
    ensures
        replace_all(y + pat, pat, Seq::empty()) == seq![y[0]] + replace_all(y.skip(1) + pat, pat, Seq::empty()),
{
    let s = y + pat;
    if pat.is_prefix_of(s) {
        assert(s.subrange(0, pat.len() as int) =~= pat);
    }
    assert(s.skip(1) =~= y.skip(1) + pat);
}

proof fn lemma_shift_matches(y: Seq<char>, pat: Seq<char>)
    requires
        y.len() > 0,
        forall|j: int| 0 <= j < y.len() ==> !#[trigger] matches_at(y + pat, pat, j),
    ensures
        forall|j: int| 0 <= j < y.skip(1).len() ==> !#[trigger] matches_at(y.skip(1) + pat, pat, j),
{
    let s = y + pat;
    let t = y.skip(1) + pat;
    assert forall|j: int| 0 <= j < y.skip(1).len() implies !#[trigger] matches_at(t, pat, j) by {
        if matches_at(t, pat, j) {
            assert(s.subrange(j + 1, j + 1 + pat.len()) =~= t.subrange(j, j + pat.len()));
            assert(matches_at(s, pat, j + 1));
        }
    }
}

/// The characters `chars[lo..hi]` as a new vector.
pub fn slice_chars(chars: &Vec<char>, lo: usize, hi: usize) -> (res: Vec<char>)
    requires
        lo <= hi <= chars@.len(),
    ensures
        res@ == chars@.subrange(lo as int, hi as int),
{
    let mut res: Vec<char> = Vec::new();
    let mut i = lo;
    while i < hi
        invariant
            lo <= i <= hi <= chars@.len(),
            res@ == chars@.subrange(lo as int, i as int),
        decreases hi - i,
    {
        res.push(chars[i]);
        assert(chars@.subrange(lo as int, i + 1) =~= chars@.subrange(lo as int, i as int).push(
            chars@[i as int],
        ));
        i = i + 1;
    }
    res
}

/// Appends `chars` to `s`.
pub fn push_chars(s: &mut String, chars: &Vec<char>)
    ensures
        final(s)@ == old(s)@ + chars@,
{
    let mut i: usize = 0;
    while i < chars.len()
        invariant
            i <= chars@.len(),
            s@ == old(s)@ + chars@.take(i as int),
        decreases chars@.len() - i,
    {
        push_char(s, chars[i]);
        assert(chars@.take(i + 1) =~= chars@.take(i as int).push(chars@[i as int]));
        i = i + 1;
    }
    assert(chars@.take(i as int) =~= chars@);
}

/// `s` with every occurrence of `pat` replaced by `rep`, as `str::replace` does.
pub fn replace_all_exec(s: &Vec<char>, pat: &Vec<char>, rep: &Vec<char>) -> (res: String)
    requires
        pat@.len() > 0,
    ensures
        res@ == replace_all(s@, pat@, rep@),
{
    let mut res = String::new();
    let mut i: usize = 0;
    assert(s@.skip(0) =~= s@);
    while i < s.len()
        invariant
            i <= s@.len(),
            pat@.len() > 0,
            replace_all(s@, pat@, rep@) == res@ + replace_all(s@.skip(i as int), pat@, rep@),
        decreases s@.len() - i,
    {
        let ghost rest = s@.skip(i as int);
        if matches_at_exec(s, pat, i) {
            assert(pat@.is_prefix_of(rest)) by {
                assert(rest.take(pat@.len() as int) =~= s@.subrange(i as int, i + pat@.len()));
            }
            assert(rest.skip(pat@.len() as int) =~= s@.skip(i + pat@.len()));
            let ghost old_res = res@;
            push_chars(&mut res, rep);
            let ghost tail = replace_all(s@.skip(i + pat@.len()), pat@, rep@);
            assert(replace_all(rest, pat@, rep@) == rep@ + tail);
            assert(old_res + (rep@ + tail) =~= res@ + tail);
            i = i + pat.len();
        } else {
            assert(!pat@.is_prefix_of(rest)) by {
                if pat@.is_prefix_of(rest) {
                    assert(rest.take(pat@.len() as int) =~= s@.subrange(i as int, i + pat@.len()));
                    assert(s@.subrange(i as int, i + pat@.len()) =~= pat@);
                }
            }
            assert(rest.skip(1) =~= s@.skip(i + 1));
            let ghost old_res = res@;
            push_char(&mut res, s[i]);
            let ghost tail = replace_all(s@.skip(i + 1), pat@, rep@);
            assert(replace_all(rest, pat@, rep@) == seq![s@[i as int]] + tail);
            assert(old_res + (seq![s@[i as int]] + tail) =~= res@ + tail);
            i = i + 1;
        }
    }
    assert(s@.skip(i as int) =~= Seq::<char>::empty());
    assert(res@ + Seq::<char>::empty() =~= res@);
    res
}

/// Number of bytes the UTF-8 encoding of `c` takes.
pub open spec fn utf8_width(c: char) -> nat {
    if (c as u32) < 0x80 {
        1
    } else if (c as u32) < 0x800 {
        2
    } else if (c as u32) < 0x10000 {
        3
    } else {
        4
    }
}

/// Number of bytes the UTF-8 encoding of `s` takes (what `str::len` gives).
pub open spec fn utf8_len(s: Seq<char>) -> nat
    decreases s.len(),
{
    if s.len() == 0 {
        0
    } else {
        utf8_len(s.drop_last()) + utf8_width(s.last())
    }
}

pub proof fn lemma_utf8_len_prefix(s: Seq<char>, j: int)
    requires
        0 <= j <= s.len(),
    ensures
        utf8_len(s.take(j)) <= utf8_len(s),
    decreases s.len(),
{
    if j < s.len() {
        assert(s.drop_last().take(j) =~= s.take(j));
        lemma_utf8_len_prefix(s.drop_last(), j);
    } else {
        assert(s.take(j) =~= s);
    }
}

fn char_width(c: char) -> (w: usize)
    ensures
        w == utf8_width(c),
{
    let v = c as u32;
    if v < 0x80 {
        1
    } else if v < 0x800 {
        2
    } else if v < 0x10000 {
        3
    } else {
        4
    }
}

/// Whether the UTF-8 encoding of `chars[lo..hi]` takes at least `k` bytes.
pub fn utf8_len_at_least(chars: &Vec<char>, lo: usize, hi: usize, k: usize) -> (res: bool)
    requires
        lo <= hi <= chars@.len(),
        k < usize::MAX - 4,
    ensures
        res == (utf8_len(chars@.subrange(lo as int, hi as int)) >= k),
{
    let mut acc: usize = 0;
    let mut i = lo;
    while i < hi && acc < k
        invariant
            lo <= i <= hi <= chars@.len(),
            k < usize::MAX - 4,
            acc < k + 4,
            acc == utf8_len(chars@.subrange(lo as int, i as int)),
        decreases hi - i,
    {
        let w = char_width(chars[i]);
        assert(chars@.subrange(lo as int, i + 1).drop_last() =~= chars@.subrange(
            lo as int,
            i as int,
        ));
        acc = acc + w;
        i = i + 1;
    }
    proof {
        let whole = chars@.subrange(lo as int, hi as int);
        assert(whole.take(i - lo) =~= chars@.subrange(lo as int, i as int));
        lemma_utf8_len_prefix(whole, i - lo);
        if i == hi {
            assert(whole.take(i - lo) =~= whole);
        }
    }
    acc >= k
}

/// Whether `chars[lo..hi]` is exactly `pat`.
pub fn sub_is(chars: &Vec<char>, lo: usize, hi: usize, pat: &Vec<char>) -> (res: bool)
    requires
        lo <= hi <= chars@.len(),
    ensures
        res == (chars@.subrange(lo as int, hi as int) == pat@),
{
    if hi - lo != pat.len() {
        assert(chars@.subrange(lo as int, hi as int).len() != pat@.len());
        return false;
    }
    matches_at_exec(chars, pat, lo)
}

/// Whether `chars[lo..hi]` starts with `pat`.
pub fn sub_starts_with(chars: &Vec<char>, lo: usize, hi: usize, pat: &Vec<char>) -> (res: bool)
    requires
        lo <= hi <= chars@.len(),
    ensures
        res == pat@.is_prefix_of(chars@.subrange(lo as int, hi as int)),
{
    let ghost sub = chars@.subrange(lo as int, hi as int);
    if pat.len() > hi - lo {
        return false;
    }
    let r = matches_at_exec(chars, pat, lo);
    proof {
        assert(chars@.subrange(lo as int, lo + pat@.len()) =~= sub.take(pat@.len() as int));
        if r {
            assert forall|i: int| 0 <= i < pat@.len() implies pat@[i] == sub[i] by {
                assert(sub.take(pat@.len() as int)[i] == sub[i]);
            }
        } else {
            if pat@.is_prefix_of(sub) {
                assert(sub.take(pat@.len() as int) =~= pat@);
            }
        }
    }
    r
}

/// The decimal digit character for `d < 10`.
pub open spec fn digit_char(d: nat) -> char {
    if d == 0 {
        '0'
    } else if d == 1 {
        '1'
    } else if d == 2 {
        '2'
    } else if d == 3 {
        '3'
    } else if d == 4 {
        '4'
    } else if d == 5 {
        '5'
    } else if d == 6 {
        '6'
    } else if d == 7 {
        '7'
    } else if d == 8 {
        '8'
    } else {
        '9'
    }
}

/// The decimal notation of `n`, without leading zeros (what `{}` prints).
pub open spec fn decimal(n: nat) -> Seq<char>
    decreases n,
{
    if n < 10 {
        seq![digit_char(n)]
    } else {
        decimal(n / 10).push(digit_char(n % 10))
    }
}

fn digit_exec(d: usize) -> (c: char)
    requires
        d < 10,
    ensures
        c == digit_char(d as nat),
{
    if d == 0 {
        '0'
    } else if d == 1 {
        '1'
    } else if d == 2 {
        '2'
    } else if d == 3 {
        '3'
    } else if d == 4 {
        '4'
    } else if d == 5 {
        '5'
    } else if d == 6 {
        '6'
    } else if d == 7 {
        '7'
    } else if d == 8 {
        '8'
    } else {
        '9'
    }
}

/// Appends the decimal notation of `n` to `s`.
pub fn push_decimal(s: &mut String, n: u64)
    ensures
        final(s)@ == old(s)@ + decimal(n as nat),
    decreases n,
{
    if n >= 10 {
        push_decimal(s, n / 10);
    }
    push_char(s, digit_exec((n % 10) as usize));
    assert(s@ =~= old(s)@ + decimal(n as nat));
}

/// Appends `n` spaces to `s`.
pub fn push_spaces(s: &mut String, n: usize)
    ensures
        final(s)@ == old(s)@ + Seq::new(n as nat, |i: int| ' '),
{
    let mut i: usize = 0;
    while i < n
        invariant
            i <= n,
            s@ == old(s)@ + Seq::new(i as nat, |k: int| ' '),
        decreases n - i,
    {
        push_char(s, ' ');
        assert(s@ =~= old(s)@ + Seq::new((i + 1) as nat, |k: int| ' '));
        i = i + 1;
    }
}

} // verus!
